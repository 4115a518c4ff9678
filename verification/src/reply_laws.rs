//! What is made of a reply, told by its events and items.

use vstd::prelude::*;

use crate::request::{has_ended, reply_after, reply_text, ReplyEvent, ReplyEventView};
use crate::set_text::{in_text_order, ordered_lists_are_fixed_by_their_texts, quoted_text, set_text};
use crate::summaries::{AgentsSummary, AgentsSummaryItem, ItemView};
use crate::text::{joined, trimmed};
use crate::text_laws::cutting_keeps_the_beginning;
use crate::validation::{
    accepted, accepted_summaries_are_those_of_the_items, complete_replies_are_accepted,
    error_text, first_item_error, item_error, lemma_first_item_error_prefix, lemma_named_paths,
    lemma_no_item_error, named_paths, SummaryError, SummaryErrorView,
};

verus! {

/// The views of summaries have all that these hold.
pub proof fn summary_views_hold_every_field(summary: AgentsSummary, item: AgentsSummaryItem)
    ensures
        summary@.why == summary.why@,
        summary@.when == summary.when@,
        item@.path == item.path@,
        item@.why == item.why@,
        item@.when == item.when@,
{
}

/// The view of an error has all that it holds; of the two lists of a mismatch, which
/// texts are on them.
pub proof fn error_views_hold_every_field(error: SummaryError)
    ensures
        error is EmptyPath <==> error@ is EmptyPath,
        error matches SummaryError::EmptyWhy { path } ==> error@ == (SummaryErrorView::EmptyWhy {
            path: path@,
        }),
        error matches SummaryError::EmptyWhen { path } ==> error@ == (SummaryErrorView::EmptyWhen {
            path: path@,
        }),
        error matches SummaryError::DuplicatePath { path } ==> error@
            == (SummaryErrorView::DuplicatePath { path: path@ }),
        error matches SummaryError::PathMismatch { expected, actual } ==> {
            &&& error@ is PathMismatch
            &&& forall|path: Seq<char>| #[trigger]
                error@->expected.contains(path) <==> exists|i: int|
                    0 <= i < expected@.len() && (#[trigger] expected@[i])@ == path
            &&& forall|path: Seq<char>| #[trigger]
                error@->actual.contains(path) <==> exists|i: int|
                    0 <= i < actual@.len() && (#[trigger] actual@[i])@ == path
        },
{
    if let SummaryError::PathMismatch { expected, actual } = error {
        lemma_texts_contain(expected@);
        lemma_texts_contain(actual@);
    }
}

proof fn lemma_texts_contain(strings: Seq<String>)
    ensures
        forall|text: Seq<char>| #[trigger]
            crate::text::texts(strings).to_set().contains(text) <==> exists|i: int|
                0 <= i < strings.len() && (#[trigger] strings[i])@ == text,
{
    let list = crate::text::texts(strings);
    assert forall|text: Seq<char>| #[trigger] list.to_set().contains(text) <==> exists|i: int|
        0 <= i < strings.len() && (#[trigger] strings[i])@ == text by {
        if list.contains(text) {
            let i = list.index_of(text);
            assert(strings[i]@ == text);
        }
        if exists|i: int| 0 <= i < strings.len() && (#[trigger] strings[i])@ == text {
            let i = choose|i: int| 0 <= i < strings.len() && (#[trigger] strings[i])@ == text;
            assert(list[i] == text);
        }
    }
}

/// A reply is accepted exactly if no item has a blank path, `why` or `when`, no two
/// items name one path, and the paths that they name, whole and without the
/// whitespace around them, are the expected ones.
pub proof fn replies_are_accepted_if_they_name_each_doc_once(
    items: Seq<ItemView>,
    expected: Set<Seq<char>>,
)
    ensures
        accepted(items, expected) is Ok <==> {
            &&& forall|i: int|
                0 <= i < items.len() ==> trimmed((#[trigger] items[i]).path).len() > 0 && trimmed(
                    items[i].why,
                ).len() > 0 && trimmed(items[i].when).len() > 0
            &&& forall|i: int, j: int|
                0 <= i < j < items.len() ==> trimmed((#[trigger] items[i]).path) != trimmed(
                    (#[trigger] items[j]).path,
                )
            &&& forall|path: Seq<char>| #[trigger]
                expected.contains(path) <==> exists|i: int|
                    0 <= i < items.len() && trimmed((#[trigger] items[i]).path) == path
        },
{
    complete_replies_are_accepted(items, expected);
    lemma_named(items);
    if forall|path: Seq<char>| #[trigger]
        expected.contains(path) <==> exists|i: int|
            0 <= i < items.len() && trimmed((#[trigger] items[i]).path) == path {
        assert(named_paths(items) =~= expected);
    }
}

proof fn lemma_named(items: Seq<ItemView>)
    ensures
        forall|path: Seq<char>| #[trigger]
            named_paths(items).contains(path) <==> exists|i: int|
                0 <= i < items.len() && trimmed((#[trigger] items[i]).path) == path,
{
    let paths = items.map_values(|item: ItemView| crate::validation::item_path(item));
    assert forall|path: Seq<char>| #[trigger] named_paths(items).contains(path) <==> exists|i: int|
        0 <= i < items.len() && trimmed((#[trigger] items[i]).path) == path by {
        if paths.contains(path) {
            let i = paths.index_of(path);
            assert(trimmed(items[i].path) == path);
        }
        if exists|i: int| 0 <= i < items.len() && trimmed((#[trigger] items[i]).path) == path {
            let i = choose|i: int|
                0 <= i < items.len() && trimmed((#[trigger] items[i]).path) == path;
            assert(paths[i] == path);
        }
    }
}

/// What is accepted has a summary for each expected path and no other, and gives
/// the path of each item its `why` and `when` without the whitespace around them:
/// all of it up to 160 characters, and the first 160 of what is longer.
pub proof fn accepted_replies_give_each_path_its_item(
    items: Seq<ItemView>,
    expected: Set<Seq<char>>,
    i: int,
)
    requires
        accepted(items, expected) is Ok,
        0 <= i < items.len(),
    ensures
        ({
            let summaries = accepted(items, expected)->Ok_0;
            let path = trimmed(items[i].path);
            let why = trimmed(items[i].why);
            let when = trimmed(items[i].when);
            &&& summaries.dom() == expected
            &&& summaries.contains_key(path)
            &&& summaries[path].why == if why.len() <= 160 {
                why
            } else {
                why.take(160)
            }
            &&& summaries[path].when == if when.len() <= 160 {
                when
            } else {
                when.take(160)
            }
        }),
{
    accepted_summaries_are_those_of_the_items(items, expected, i);
    let (why, when) = (trimmed(items[i].why), trimmed(items[i].when));
    cutting_keeps_the_beginning(why, 160);
    cutting_keeps_the_beginning(when, 160);
}

/// What is refused is refused for the first item with a fault: for its blank path,
/// else for its blank `why`, else for its blank `when`, else for a path that an
/// earlier item names.
pub proof fn the_first_fault_is_named(items: Seq<ItemView>, expected: Set<Seq<char>>, i: int)
    requires
        0 <= i < items.len(),
        forall|j: int|
            0 <= j < i ==> trimmed((#[trigger] items[j]).path).len() > 0 && trimmed(
                items[j].why,
            ).len() > 0 && trimmed(items[j].when).len() > 0,
        forall|j: int, k: int|
            0 <= j < k < i ==> trimmed((#[trigger] items[j]).path) != trimmed(
                (#[trigger] items[k]).path,
            ),
    ensures
        ({
            let path = trimmed(items[i].path);
            let blank_why = trimmed(items[i].why).len() == 0;
            let blank_when = trimmed(items[i].when).len() == 0;
            let repeated = exists|j: int| 0 <= j < i && trimmed((#[trigger] items[j]).path) == path;
            &&& path.len() == 0 ==> accepted(items, expected) == Err::<
                Map<Seq<char>, crate::summaries::SummaryView>,
                SummaryErrorView,
            >(SummaryErrorView::EmptyPath)
            &&& path.len() > 0 && blank_why ==> accepted(items, expected) == Err::<
                Map<Seq<char>, crate::summaries::SummaryView>,
                SummaryErrorView,
            >(SummaryErrorView::EmptyWhy { path })
            &&& path.len() > 0 && !blank_why && blank_when ==> accepted(items, expected) == Err::<
                Map<Seq<char>, crate::summaries::SummaryView>,
                SummaryErrorView,
            >(SummaryErrorView::EmptyWhen { path })
            &&& path.len() > 0 && !blank_why && !blank_when && repeated ==> accepted(
                items,
                expected,
            ) == Err::<Map<Seq<char>, crate::summaries::SummaryView>, SummaryErrorView>(
                SummaryErrorView::DuplicatePath { path },
            )
        }),
{
    let before = items.take(i);
    let upto = items.take(i + 1);
    let path = trimmed(items[i].path);
    assert forall|j: int| 0 <= j < before.len() implies #[trigger] before[j] == items[j] by {}
    assert forall|j: int| 0 <= j < upto.len() implies #[trigger] upto[j] == items[j] by {}
    lemma_no_item_error(before);
    assert(first_item_error(before) is None) by {
        assert forall|j: int| 0 <= j < before.len() implies crate::validation::is_filled(
            #[trigger] before[j],
        ) by {
            assert(trimmed(items[j].path).len() > 0);
        }
        assert forall|j: int, k: int| 0 <= j < k < before.len() implies crate::validation::item_path(
        #[trigger] before[j]) != crate::validation::item_path(#[trigger] before[k]) by {
            assert(trimmed(items[j].path) != trimmed(items[k].path));
        }
    }
    assert(upto.drop_last() =~= before);
    assert(first_item_error(upto) == item_error(upto, i));
    if exists|j: int| 0 <= j < i && trimmed((#[trigger] items[j]).path) == path {
        let j = choose|j: int| 0 <= j < i && trimmed((#[trigger] items[j]).path) == path;
        assert(crate::validation::item_path(upto[j]) == path);
    }
    if first_item_error(upto) is Some {
        lemma_first_item_error_prefix(items, i + 1);
    }
}

/// A reply without a faulty item that does not name the expected paths is refused
/// with the two sets of paths.
pub proof fn other_paths_are_refused(items: Seq<ItemView>, expected: Set<Seq<char>>)
    requires
        forall|i: int|
            0 <= i < items.len() ==> trimmed((#[trigger] items[i]).path).len() > 0 && trimmed(
                items[i].why,
            ).len() > 0 && trimmed(items[i].when).len() > 0,
        forall|i: int, j: int|
            0 <= i < j < items.len() ==> trimmed((#[trigger] items[i]).path) != trimmed(
                (#[trigger] items[j]).path,
            ),
        accepted(items, expected) is Err,
    ensures
        accepted(items, expected)->Err_0 matches SummaryErrorView::PathMismatch {
            expected: wanted,
            actual,
        } && {
            &&& wanted == expected
            &&& actual != expected
            &&& forall|path: Seq<char>| #[trigger]
                actual.contains(path) <==> exists|i: int|
                    0 <= i < items.len() && trimmed((#[trigger] items[i]).path) == path
        },
{
    lemma_no_item_error(items);
    lemma_named_paths(items);
    lemma_named(items);
    assert(first_item_error(items) is None) by {
        assert forall|j: int| 0 <= j < items.len() implies crate::validation::is_filled(
            #[trigger] items[j],
        ) by {
            assert(trimmed(items[j].path).len() > 0);
        }
        assert forall|j: int, k: int| 0 <= j < k < items.len() implies crate::validation::item_path(
        #[trigger] items[j]) != crate::validation::item_path(#[trigger] items[k]) by {
            assert(trimmed(items[j].path) != trimmed(items[k].path));
        }
    }
}

/// The message of an error says what is wrong and ends with the whole path that it is
/// about; that of a mismatch gives the expected paths and then the others.
pub proof fn messages_name_what_is_wrong(
    path: Seq<char>,
    expected: Set<Seq<char>>,
    actual: Set<Seq<char>>,
)
    ensures
        error_text(SummaryErrorView::EmptyPath) == "startup agents summary returned an empty path"@,
        error_text(SummaryErrorView::EmptyWhy { path })
            == "startup agents summary returned an empty why for "@ + path,
        error_text(SummaryErrorView::EmptyWhen { path })
            == "startup agents summary returned an empty when for "@ + path,
        error_text(SummaryErrorView::DuplicatePath { path })
            == "startup agents summary returned a duplicate path: "@ + path,
        error_text(SummaryErrorView::PathMismatch { expected, actual })
            == "startup agents summary paths do not match discovered AGENTS files; expected="@
            + set_text(expected) + ", actual="@ + set_text(actual),
{
}

/// A set is written with every text of it, quoted, in ascending order, with commas
/// between them and braces around them.
pub proof fn sets_are_written_in_order(list: Seq<Seq<char>>)
    requires
        in_text_order(list),
    ensures
        set_text(list.to_set()) == "{"@ + joined(
            Seq::new(list.len(), |i: int| quoted_text(list[i])),
            ", "@,
        ) + "}"@,
{
    ordered_lists_are_fixed_by_their_texts(list);
    assert(list.map_values(|text: Seq<char>| quoted_text(text)) =~= Seq::new(
        list.len(),
        |i: int| quoted_text(list[i]),
    ));
}

/// The view of an event has all that it brings.
pub proof fn event_views_hold_every_field(event: ReplyEvent)
    ensures
        event matches ReplyEvent::OutputTextDelta(delta) ==> event@
            == ReplyEventView::OutputTextDelta(delta@),
        event matches ReplyEvent::OutputItemDone(Some(text)) ==> event@
            == ReplyEventView::OutputItemDone(Some(text@)),
        event matches ReplyEvent::OutputItemDone(None) ==> event@
            == ReplyEventView::OutputItemDone(None),
        event is Completed <==> event@ is Completed,
        event is Other <==> event@ is Other,
{
}

/// What an event does to the text of a reply: a piece of text is put behind it
/// whole, the whole text of a finished item becomes the text where there is none
/// yet, and nothing else changes it.
pub proof fn events_do_their_part(text: Seq<char>, more: Seq<char>)
    ensures
        reply_after(text, ReplyEventView::OutputTextDelta(more)) == text + more,
        text.len() == 0 ==> reply_after(text, ReplyEventView::OutputItemDone(Some(more))) == more,
        text.len() > 0 ==> reply_after(text, ReplyEventView::OutputItemDone(Some(more))) == text,
        reply_after(text, ReplyEventView::OutputItemDone(None)) == text,
        reply_after(text, ReplyEventView::Completed) == text,
        reply_after(text, ReplyEventView::Other) == text,
{
}

/// The text of a reply starts empty, grows with each event in turn, and is fixed
/// once the end has come.
pub proof fn replies_are_built_from_every_event(
    events: Seq<ReplyEventView>,
    event: ReplyEventView,
)
    ensures
        reply_text(Seq::empty()) == Seq::<char>::empty(),
        ({
            let text = reply_text(events);
            let now = reply_text(events.push(event));
            let ended = exists|i: int|
                0 <= i < events.len() && #[trigger] events[i] == ReplyEventView::Completed;
            &&& ended ==> now == text
            &&& !ended ==> match event {
                ReplyEventView::OutputTextDelta(delta) => now == text + delta,
                ReplyEventView::OutputItemDone(Some(item)) => now == if text.len() == 0 {
                    item
                } else {
                    text
                },
                _ => now == text,
            }
        }),
{
    let longer = events.push(event);
    assert(longer.drop_last() =~= events);
    assert(longer.last() == event);
    if exists|i: int| 0 <= i < events.len() && #[trigger] events[i] == ReplyEventView::Completed {
        assert(has_ended(events));
    }
}

} // verus!
