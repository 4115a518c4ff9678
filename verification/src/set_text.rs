//! How a set of texts is written in a message.

use vstd::prelude::*;
use vstd::string::*;

use crate::order::{text_order, text_order_is_strict_and_total};
use crate::sort::{
    ascending, lists_in_strict_order_are_fixed_by_their_items, not_after, sort, views, Keyed,
};
use crate::text::{join, joined, same_text, texts};

verus! {

/// The text that `format!` writes for a text with `{:?}`: between quotation marks,
/// with escapes.
pub uninterp spec fn quoted_text(text: Seq<char>) -> Seq<char>;

/// `format!` with `{:?}` of a `&str`: what is written depends on the characters
/// alone.
#[verifier::external_body]
fn debug_text(text: &str) -> (result: String)
    ensures
        result@ == quoted_text(text@),
{
    format!("{:?}", text)
}

/// Whether the texts of a list stand in strictly ascending order.
pub open spec fn in_text_order(list: Seq<Seq<char>>) -> bool {
    forall|i: int, j: int| 0 <= i < j < list.len() ==> #[trigger] text_order()(list[i], list[j])
}

/// The texts of a finite set in their order, each once.
pub open spec fn in_order(set: Set<Seq<char>>) -> Seq<Seq<char>> {
    choose|list: Seq<Seq<char>>| in_text_order(list) && #[trigger] list.to_set() == set
}

/// A set of texts as it is written: the texts in their order, quoted, between
/// braces.
pub open spec fn set_text(set: Set<Seq<char>>) -> Seq<char> {
    "{"@ + joined(in_order(set).map_values(|text: Seq<char>| quoted_text(text)), ", "@) + "}"@
}

impl Keyed for String {
    type Key = Seq<char>;

    open spec fn key(value: Seq<char>) -> Seq<char> {
        value
    }

    open spec fn order() -> spec_fn(Seq<char>, Seq<char>) -> bool {
        text_order()
    }

    proof fn order_is_strict_and_total() {
        text_order_is_strict_and_total();
    }

    fn precedes(&self, other: &String) -> (result: bool) {
        crate::order::text_precedes(self.as_str(), other.as_str())
    }
}

/// A list in strictly ascending order is the one such list of its texts.
pub proof fn ordered_lists_are_fixed_by_their_texts(list: Seq<Seq<char>>)
    requires
        in_text_order(list),
    ensures
        in_order(list.to_set()) == list,
{
    let set = list.to_set();
    let other = in_order(set);
    assert(in_text_order(list) && list.to_set() == set);
    assert(in_text_order(other) && other.to_set() == set);
    assert forall|i: int, j: int| 0 <= i < j < list.len() implies #[trigger] String::order()(
        String::key(list[i]),
        String::key(list[j]),
    ) by {
        assert(text_order()(list[i], list[j]));
    }
    assert forall|i: int, j: int| 0 <= i < j < other.len() implies #[trigger] String::order()(
        String::key(other[i]),
        String::key(other[j]),
    ) by {
        assert(text_order()(other[i], other[j]));
    }
    assert forall|text: Seq<char>| #[trigger]
        list.contains(text) <==> #[trigger] other.contains(text) by {
        assert(list.to_set().contains(text) <==> list.contains(text));
        assert(other.to_set().contains(text) <==> other.contains(text));
    }
    lists_in_strict_order_are_fixed_by_their_items::<String>(list, other);
}

/// Copies a list of strings.
fn copy_strings(strings: &Vec<String>) -> (result: Vec<String>)
    ensures
        texts(result@) == texts(strings@),
{
    let mut result: Vec<String> = Vec::new();
    let mut i: usize = 0;
    while i < strings.len()
        invariant
            i <= strings.len(),
            texts(result@) == texts(strings@).take(i as int),
        decreases strings.len() - i,
    {
        let ghost before = texts(result@);
        let copied = strings[i].clone();
        result.push(copied);
        proof {
            assert(texts(result@) =~= before.push(copied@));
            assert(texts(strings@).take(i + 1) =~= texts(strings@).take(i as int).push(copied@));
        }
        i = i + 1;
    }
    assert(texts(strings@).take(i as int) =~= texts(strings@));
    result
}

/// A text that is not before the last one of a list, and another, can follow it.
proof fn lemma_text_can_follow(list: Seq<Seq<char>>, next: Seq<char>)
    requires
        in_text_order(list),
        list.len() > 0 ==> list.last() != next && !text_order()(next, list.last()),
    ensures
        in_text_order(list.push(next)),
{
    text_order_is_strict_and_total();
    let lt = text_order();
    let longer = list.push(next);
    assert forall|i: int, j: int| 0 <= i < j < longer.len() implies #[trigger] text_order()(
        longer[i],
        longer[j],
    ) by {
        if j < list.len() {
            assert(text_order()(list[i], list[j]));
        } else {
            assert(lt(list.last(), next) || list.last() == next || lt(next, list.last()));
            if i < list.len() - 1 {
                assert(text_order()(list[i], list[list.len() - 1]));
                assert(lt(list[i], next));
            }
        }
    }
}

/// The strings of a list in their order, each once.
fn ordered_strings(strings: &Vec<String>) -> (result: Vec<String>)
    ensures
        texts(result@) == in_order(texts(strings@).to_set()),
{
    let copied = copy_strings(strings);
    let sorted = sort(copied);
    let ghost all = texts(sorted@);
    proof {
        assert(views(sorted@) =~= all);
        assert(views(copied@) =~= texts(strings@));
        all.to_multiset_ensures();
        texts(strings@).to_multiset_ensures();
    }
    let mut result: Vec<String> = Vec::new();
    let mut i: usize = 0;
    while i < sorted.len()
        invariant
            i <= sorted.len(),
            all == texts(sorted@),
            ascending::<String>(all),
            in_text_order(texts(result@)),
            i == 0 ==> result.len() == 0,
            i > 0 ==> result.len() > 0 && texts(result@).last() == all[i - 1],
            forall|k: int| 0 <= k < i ==> texts(result@).contains(#[trigger] all[k]),
            forall|k: int| 0 <= k < result.len() ==> all.contains(#[trigger] texts(result@)[k]),
        decreases sorted.len() - i,
    {
        let ghost before = texts(result@);
        let next = sorted[i].clone();
        assert(next@ == all[i as int]);
        if i == 0 || !same_text(sorted[i - 1].as_str(), next.as_str()) {
            proof {
                if i > 0 {
                    assert(not_after::<String>(all[i - 1], all[i as int]));
                }
                lemma_text_can_follow(before, next@);
            }
            result.push(next);
            proof {
                let now = texts(result@);
                assert(now =~= before.push(next@));
                assert forall|k: int| 0 <= k < i + 1 implies now.contains(#[trigger] all[k]) by {
                    if k < i {
                        let at = before.index_of(all[k]);
                        assert(now[at] == all[k]);
                    } else {
                        assert(now[before.len() as int] == all[k]);
                    }
                }
            }
        } else {
            assert(before[before.len() - 1] == all[i as int]);
        }
        i = i + 1;
    }
    proof {
        let ordered = texts(result@);
        assert forall|text: Seq<char>| #[trigger] ordered.to_set().contains(text) == texts(
            strings@,
        ).to_set().contains(text) by {
            assert(all.contains(text) <==> all.to_multiset().count(text) > 0);
            assert(texts(strings@).contains(text) <==> texts(strings@).to_multiset().count(text)
                > 0);
            if ordered.contains(text) {
                let k = ordered.index_of(text);
                assert(all.contains(ordered[k]));
            }
            if all.contains(text) {
                let k = all.index_of(text);
                assert(ordered.contains(all[k]));
            }
        }
        assert(ordered.to_set() =~= texts(strings@).to_set());
        ordered_lists_are_fixed_by_their_texts(ordered);
    }
    result
}

/// Writes the set of the strings of a list.
pub(crate) fn write_set(strings: &Vec<String>) -> (result: String)
    ensures
        result@ == set_text(texts(strings@).to_set()),
{
    let ordered = ordered_strings(strings);
    let mut quoted: Vec<String> = Vec::new();
    let ghost expected = texts(ordered@).map_values(|text: Seq<char>| quoted_text(text));
    let mut i: usize = 0;
    while i < ordered.len()
        invariant
            i <= ordered.len(),
            expected == texts(ordered@).map_values(|text: Seq<char>| quoted_text(text)),
            texts(quoted@) == expected.take(i as int),
        decreases ordered.len() - i,
    {
        let ghost before = texts(quoted@);
        let text = debug_text(ordered[i].as_str());
        quoted.push(text);
        proof {
            assert(texts(quoted@) =~= before.push(text@));
            assert(expected.take(i + 1) =~= expected.take(i as int).push(text@));
        }
        i = i + 1;
    }
    assert(expected.take(i as int) =~= expected);
    "{".to_string().concat(join(&quoted, ", ").as_str()).concat("}")
}

} // verus!
