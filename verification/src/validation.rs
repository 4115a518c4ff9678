//! What is accepted of a reply, and what is wrong with one that is not.

use vstd::prelude::*;
use vstd::string::*;

use crate::set_text::{set_text, write_set};
use crate::sort::views;
use crate::summaries::{
    AgentsSummariesResponse, AgentsSummary, ItemView, Summaries, SummaryView,
    MAX_SUMMARY_WHEN_CHARS, MAX_SUMMARY_WHY_CHARS,
};
use crate::text::{cap, capped, same_text, texts, trimmed};

verus! {

/// What is wrong with a reply.
#[derive(Clone, Debug)]
pub enum SummaryError {
    /// A summary names no path.
    EmptyPath,
    /// The summary of a path has no `why`.
    EmptyWhy { path: String },
    /// The summary of a path has no `when`.
    EmptyWhen { path: String },
    /// A path has two summaries.
    DuplicatePath { path: String },
    /// The paths are not those of the project docs.
    PathMismatch { expected: Vec<String>, actual: Vec<String> },
}

/// What a [`SummaryError`] says.
pub enum SummaryErrorView {
    EmptyPath,
    EmptyWhy { path: Seq<char> },
    EmptyWhen { path: Seq<char> },
    DuplicatePath { path: Seq<char> },
    PathMismatch { expected: Set<Seq<char>>, actual: Set<Seq<char>> },
}

impl View for SummaryError {
    type V = SummaryErrorView;

    open spec fn view(&self) -> SummaryErrorView {
        match self {
            SummaryError::EmptyPath => SummaryErrorView::EmptyPath,
            SummaryError::EmptyWhy { path } => SummaryErrorView::EmptyWhy { path: path@ },
            SummaryError::EmptyWhen { path } => SummaryErrorView::EmptyWhen { path: path@ },
            SummaryError::DuplicatePath { path } => SummaryErrorView::DuplicatePath {
                path: path@,
            },
            SummaryError::PathMismatch { expected, actual } => SummaryErrorView::PathMismatch {
                expected: texts(expected@).to_set(),
                actual: texts(actual@).to_set(),
            },
        }
    }
}

/// The path that an item names.
pub open spec fn item_path(item: ItemView) -> Seq<char> {
    trimmed(item.path)
}

/// What an item says, without whitespace around it and no longer than accepted.
pub open spec fn item_summary(item: ItemView) -> SummaryView {
    SummaryView {
        why: capped(trimmed(item.why), MAX_SUMMARY_WHY_CHARS as nat),
        when: capped(trimmed(item.when), MAX_SUMMARY_WHEN_CHARS as nat),
    }
}

/// What is wrong with the `i`-th item, given the items before it.
pub open spec fn item_error(items: Seq<ItemView>, i: int) -> Option<SummaryErrorView> {
    let path = item_path(items[i]);
    if path.len() == 0 {
        Some(SummaryErrorView::EmptyPath)
    } else if item_summary(items[i]).why.len() == 0 {
        Some(SummaryErrorView::EmptyWhy { path })
    } else if item_summary(items[i]).when.len() == 0 {
        Some(SummaryErrorView::EmptyWhen { path })
    } else if exists|j: int| 0 <= j < i && item_path(#[trigger] items[j]) == path {
        Some(SummaryErrorView::DuplicatePath { path })
    } else {
        None
    }
}

/// What is wrong with the first item with which anything is wrong.
pub open spec fn first_item_error(items: Seq<ItemView>) -> Option<SummaryErrorView>
    decreases items.len(),
{
    if items.len() == 0 {
        None
    } else {
        match first_item_error(items.drop_last()) {
            Some(error) => Some(error),
            None => item_error(items, items.len() - 1),
        }
    }
}

/// What the items say, by path.
pub open spec fn item_summaries(items: Seq<ItemView>) -> Map<Seq<char>, SummaryView>
    decreases items.len(),
{
    if items.len() == 0 {
        Map::empty()
    } else {
        item_summaries(items.drop_last()).insert(
            item_path(items.last()),
            item_summary(items.last()),
        )
    }
}

/// What is accepted of the items of a reply, where the paths of the project docs
/// are `expected`.
pub open spec fn accepted(items: Seq<ItemView>, expected: Set<Seq<char>>) -> Result<
    Map<Seq<char>, SummaryView>,
    SummaryErrorView,
> {
    match first_item_error(items) {
        Some(error) => Err(error),
        None => if item_summaries(items).dom() == expected {
            Ok(item_summaries(items))
        } else {
            Err(
                SummaryErrorView::PathMismatch {
                    expected,
                    actual: item_summaries(items).dom(),
                },
            )
        },
    }
}

/// The paths of the items are those under which something is said.
proof fn lemma_item_summaries_dom(items: Seq<ItemView>, path: Seq<char>)
    ensures
        item_summaries(items).contains_key(path) <==> exists|j: int|
            0 <= j < items.len() && item_path(#[trigger] items[j]) == path,
    decreases items.len(),
{
    if items.len() > 0 {
        let earlier = items.drop_last();
        lemma_item_summaries_dom(earlier, path);
        if item_summaries(earlier).contains_key(path) {
            let j = choose|j: int|
                0 <= j < earlier.len() && item_path(#[trigger] earlier[j]) == path;
            assert(item_path(items[j]) == path);
        }
        if exists|j: int| 0 <= j < items.len() && item_path(#[trigger] items[j]) == path {
            let j = choose|j: int| 0 <= j < items.len() && item_path(#[trigger] items[j]) == path;
            if j < earlier.len() {
                assert(item_path(earlier[j]) == path);
            }
        }
        assert(items[items.len() - 1] == items.last());
    }
}

pub(crate) proof fn lemma_first_item_error_prefix(items: Seq<ItemView>, n: int)
    requires
        0 <= n <= items.len(),
        first_item_error(items.take(n)) is Some,
    ensures
        first_item_error(items) == first_item_error(items.take(n)),
    decreases items.len(),
{
    if n < items.len() {
        assert(items.drop_last().take(n) =~= items.take(n));
        lemma_first_item_error_prefix(items.drop_last(), n);
    } else {
        assert(items.take(n) =~= items);
    }
}

/// Whether every path of a list is on another.
fn all_among(paths: &Vec<String>, others: &Vec<String>) -> (result: bool)
    ensures
        result == texts(paths@).to_set().subset_of(texts(others@).to_set()),
{
    let mut i: usize = 0;
    while i < paths.len()
        invariant
            i <= paths.len(),
            forall|j: int|
                0 <= j < i ==> texts(others@).contains(#[trigger] texts(paths@)[j]),
        decreases paths.len() - i,
    {
        if !is_among(paths[i].as_str(), others) {
            proof {
                let name = texts(paths@)[i as int];
                assert(texts(paths@).contains(name));
                assert(!texts(others@).to_set().contains(name));
            }
            return false;
        }
        i = i + 1;
    }
    proof {
        assert forall|name: Seq<char>| texts(paths@).to_set().contains(name) implies texts(
            others@,
        ).to_set().contains(name) by {
            let j = texts(paths@).index_of(name);
            assert(texts(others@).contains(texts(paths@)[j]));
        }
    }
    true
}

/// Whether a path is on a list.
fn is_among(path: &str, others: &Vec<String>) -> (result: bool)
    ensures
        result == texts(others@).contains(path@),
{
    let mut i: usize = 0;
    while i < others.len()
        invariant
            i <= others.len(),
            forall|j: int| 0 <= j < i ==> #[trigger] texts(others@)[j] != path@,
        decreases others.len() - i,
    {
        if same_text(others[i].as_str(), path) {
            assert(texts(others@)[i as int] == path@);
            return true;
        }
        i = i + 1;
    }
    false
}

/// Accepts a reply that gives each of the expected paths one summary and no other
/// path any, and none with an empty part. Whitespace around path, `why` and
/// `when` does not count, and `why` and `when` are cut where they are too long.
pub fn validate_summaries(
    parsed: AgentsSummariesResponse,
    expected_paths: Vec<String>,
) -> (result: Result<Summaries, SummaryError>)
    ensures
        result is Ok == accepted(
            views(parsed.summaries@),
            texts(expected_paths@).to_set(),
        ) is Ok,
        result matches Ok(summaries) ==> summaries@ == accepted(
            views(parsed.summaries@),
            texts(expected_paths@).to_set(),
        )->Ok_0,
        result matches Err(error) ==> error@ == accepted(
            views(parsed.summaries@),
            texts(expected_paths@).to_set(),
        )->Err_0,
{
    let ghost items = views(parsed.summaries@);
    let mut indexed = Summaries::new();
    let mut i: usize = 0;
    assert(items.take(0) =~= Seq::empty());
    while i < parsed.summaries.len()
        invariant
            i <= parsed.summaries.len(),
            items == views(parsed.summaries@),
            first_item_error(items.take(i as int)) is None,
            indexed@ == item_summaries(items.take(i as int)),
        decreases parsed.summaries.len() - i,
    {
        let item = &parsed.summaries[i];
        let path = item.path.as_str().trim().to_string();
        let why = cap(item.why.as_str().trim(), MAX_SUMMARY_WHY_CHARS);
        let when = cap(item.when.as_str().trim(), MAX_SUMMARY_WHEN_CHARS);
        let ghost next = items.take(i + 1);
        proof {
            assert(next.drop_last() =~= items.take(i as int));
            assert(next.last() == item@);
            lemma_item_summaries_dom(items.take(i as int), path@);
            assert((exists|j: int| 0 <= j < i && item_path(#[trigger] next[j]) == path@)
                <==> indexed@.contains_key(path@)) by {
                if indexed@.contains_key(path@) {
                    let j = choose|j: int|
                        0 <= j < items.take(i as int).len() && item_path(
                            #[trigger] items.take(i as int)[j],
                        ) == path@;
                    assert(next[j] == items.take(i as int)[j]);
                }
                if exists|j: int| 0 <= j < i && item_path(#[trigger] next[j]) == path@ {
                    let j = choose|j: int| 0 <= j < i && item_path(#[trigger] next[j]) == path@;
                    assert(next[j] == items.take(i as int)[j]);
                }
            }
            assert(first_item_error(next) == item_error(next, i as int));
            if first_item_error(next) is Some {
                lemma_first_item_error_prefix(items, i + 1);
            }
        }
        if path.as_str().is_empty() {
            return Err(SummaryError::EmptyPath);
        }
        if why.as_str().is_empty() {
            return Err(SummaryError::EmptyWhy { path });
        }
        if when.as_str().is_empty() {
            return Err(SummaryError::EmptyWhen { path });
        }
        if indexed.contains_key(path.as_str()) {
            return Err(SummaryError::DuplicatePath { path });
        }
        indexed.insert(path, AgentsSummary { why, when });
        i = i + 1;
    }
    assert(items.take(i as int) =~= items);
    let actual_paths = indexed.paths();
    let matching = all_among(&actual_paths, &expected_paths) && all_among(
        &expected_paths,
        &actual_paths,
    );
    proof {
        let actual = texts(actual_paths@).to_set();
        let expected = texts(expected_paths@).to_set();
        if matching {
            assert(actual =~= expected);
        }
    }
    if !matching {
        return Err(SummaryError::PathMismatch { expected: expected_paths, actual: actual_paths });
    }
    Ok(indexed)
}

/// The message for what is wrong with a reply.
pub open spec fn error_text(error: SummaryErrorView) -> Seq<char> {
    match error {
        SummaryErrorView::EmptyPath => "startup agents summary returned an empty path"@,
        SummaryErrorView::EmptyWhy { path }
            => "startup agents summary returned an empty why for "@ + path,
        SummaryErrorView::EmptyWhen { path }
            => "startup agents summary returned an empty when for "@ + path,
        SummaryErrorView::DuplicatePath { path }
            => "startup agents summary returned a duplicate path: "@ + path,
        SummaryErrorView::PathMismatch { expected, actual }
            => "startup agents summary paths do not match discovered AGENTS files; expected="@
            + set_text(expected) + ", actual="@ + set_text(actual),
    }
}

impl SummaryError {
    /// The message for the error.
    pub fn message(&self) -> (result: String)
        ensures
            result@ == error_text(self@),
    {
        match self {
            SummaryError::EmptyPath => "startup agents summary returned an empty path".to_string(),
            SummaryError::EmptyWhy { path } => {
                "startup agents summary returned an empty why for ".to_string().concat(
                    path.as_str(),
                )
            },
            SummaryError::EmptyWhen { path } => {
                "startup agents summary returned an empty when for ".to_string().concat(
                    path.as_str(),
                )
            },
            SummaryError::DuplicatePath { path } => {
                "startup agents summary returned a duplicate path: ".to_string().concat(
                    path.as_str(),
                )
            },
            SummaryError::PathMismatch { expected, actual } => {
                let expected_text = write_set(expected);
                let actual_text = write_set(actual);
                "startup agents summary paths do not match discovered AGENTS files; expected=".to_string().concat(
                expected_text.as_str()).concat(", actual=").concat(actual_text.as_str())
            },
        }
    }
}

/// Whether an item has a path, a `why` and a `when` that are not blank.
pub open spec fn is_filled(item: ItemView) -> bool {
    &&& trimmed(item.path).len() > 0
    &&& trimmed(item.why).len() > 0
    &&& trimmed(item.when).len() > 0
}

/// Whether no two items name one path.
pub open spec fn names_distinct_paths(items: Seq<ItemView>) -> bool {
    forall|i: int, j: int|
        0 <= i < j < items.len() ==> item_path(#[trigger] items[i]) != item_path(
            #[trigger] items[j],
        )
}

/// The paths that the items name.
pub open spec fn named_paths(items: Seq<ItemView>) -> Set<Seq<char>> {
    items.map_values(|item: ItemView| item_path(item)).to_set()
}

pub(crate) proof fn lemma_no_item_error(items: Seq<ItemView>)
    ensures
        first_item_error(items) is None <==> {
            &&& forall|i: int| 0 <= i < items.len() ==> is_filled(#[trigger] items[i])
            &&& names_distinct_paths(items)
        },
    decreases items.len(),
{
    if items.len() > 0 {
        let earlier = items.drop_last();
        let last = items.len() - 1;
        lemma_no_item_error(earlier);
        assert forall|i: int| 0 <= i < earlier.len() implies #[trigger] earlier[i]
            == items[i] by {}
        if first_item_error(items) is None {
            assert(item_error(items, last) is None);
            assert forall|i: int| 0 <= i < items.len() implies is_filled(#[trigger] items[i]) by {
                if i < last {
                    assert(is_filled(earlier[i]));
                }
            }
            assert forall|i: int, j: int| 0 <= i < j < items.len() implies item_path(
                #[trigger] items[i],
            ) != item_path(#[trigger] items[j]) by {
                if j < last {
                    assert(item_path(earlier[i]) != item_path(earlier[j]));
                }
            }
        } else if (forall|i: int| 0 <= i < items.len() ==> is_filled(#[trigger] items[i]))
            && names_distinct_paths(items) {
            assert forall|i: int| 0 <= i < earlier.len() implies is_filled(
                #[trigger] earlier[i],
            ) by {
                assert(is_filled(items[i]));
            }
            assert(names_distinct_paths(earlier)) by {
                assert forall|i: int, j: int| 0 <= i < j < earlier.len() implies item_path(
                    #[trigger] earlier[i],
                ) != item_path(#[trigger] earlier[j]) by {
                    assert(item_path(items[i]) != item_path(items[j]));
                }
            }
            assert(is_filled(items[last]));
            assert(item_error(items, last) is None);
        }
    }
}

pub(crate) proof fn lemma_named_paths(items: Seq<ItemView>)
    ensures
        item_summaries(items).dom() == named_paths(items),
{
    let paths = items.map_values(|item: ItemView| item_path(item));
    assert forall|path: Seq<char>|
        item_summaries(items).dom().contains(path) == #[trigger] named_paths(items).contains(
        path,
    ) by {
        lemma_item_summaries_dom(items, path);
        if item_summaries(items).contains_key(path) {
            let j = choose|j: int| 0 <= j < items.len() && item_path(#[trigger] items[j]) == path;
            assert(paths[j] == path);
        }
        if paths.contains(path) {
            let j = paths.index_of(path);
            assert(item_path(items[j]) == path);
        }
    }
    assert(item_summaries(items).dom() =~= named_paths(items));
}

/// A reply is accepted exactly if it names each expected path once and no other
/// path, and has nothing blank.
pub proof fn complete_replies_are_accepted(items: Seq<ItemView>, expected: Set<Seq<char>>)
    ensures
        accepted(items, expected) is Ok <==> {
            &&& forall|i: int| 0 <= i < items.len() ==> is_filled(#[trigger] items[i])
            &&& names_distinct_paths(items)
            &&& named_paths(items) == expected
        },
{
    lemma_no_item_error(items);
    lemma_named_paths(items);
}

proof fn lemma_distinct_items_keep_their_summaries(items: Seq<ItemView>, i: int)
    requires
        names_distinct_paths(items),
        0 <= i < items.len(),
    ensures
        item_summaries(items).contains_key(item_path(items[i])),
        item_summaries(items)[item_path(items[i])] == item_summary(items[i]),
    decreases items.len(),
{
    let earlier = items.drop_last();
    if i < earlier.len() {
        assert(names_distinct_paths(earlier)) by {
            assert forall|k: int, l: int| 0 <= k < l < earlier.len() implies item_path(
                #[trigger] earlier[k],
            ) != item_path(#[trigger] earlier[l]) by {
                assert(item_path(items[k]) != item_path(items[l]));
            }
        }
        lemma_distinct_items_keep_their_summaries(earlier, i);
        assert(earlier[i] == items[i]);
        assert(item_path(items[i]) != item_path(items[items.len() - 1]));
    }
}

/// What is accepted of a reply is, for each item, its `why` and `when` without
/// the whitespace around them and cut to the accepted length.
pub proof fn accepted_summaries_are_those_of_the_items(
    items: Seq<ItemView>,
    expected: Set<Seq<char>>,
    i: int,
)
    requires
        accepted(items, expected) is Ok,
        0 <= i < items.len(),
    ensures
        accepted(items, expected)->Ok_0.contains_key(item_path(items[i])),
        accepted(items, expected)->Ok_0[item_path(items[i])] == item_summary(items[i]),
{
    lemma_no_item_error(items);
    lemma_distinct_items_keep_their_summaries(items, i);
}

/// Accepted summaries are kept for the expected paths and no others; none has an
/// empty `why` or `when` or one that is longer than accepted.
pub proof fn accepted_summaries_are_complete_and_short(
    items: Seq<ItemView>,
    expected: Set<Seq<char>>,
    path: Seq<char>,
)
    requires
        accepted(items, expected) is Ok,
    ensures
        accepted(items, expected)->Ok_0.contains_key(path) <==> expected.contains(path),
        expected.contains(path) ==> {
            let summary = accepted(items, expected)->Ok_0[path];
            &&& 0 < summary.why.len() <= MAX_SUMMARY_WHY_CHARS
            &&& 0 < summary.when.len() <= MAX_SUMMARY_WHEN_CHARS
        },
{
    if expected.contains(path) {
        lemma_no_item_error(items);
        lemma_item_summaries_dom(items, path);
        let i = choose|i: int| 0 <= i < items.len() && item_path(#[trigger] items[i]) == path;
        lemma_distinct_items_keep_their_summaries(items, i);
        assert(is_filled(items[i]));
    }
}

/// The order in which a complete reply gives its items does not matter.
pub proof fn accepted_summaries_do_not_depend_on_the_order(
    items: Seq<ItemView>,
    other: Seq<ItemView>,
    expected: Set<Seq<char>>,
)
    requires
        accepted(items, expected) is Ok,
        items.to_multiset() == other.to_multiset(),
    ensures
        accepted(other, expected) == accepted(items, expected),
{
    lemma_no_item_error(items);
    lemma_no_item_error(other);
    items.to_multiset_ensures();
    other.to_multiset_ensures();
    assert forall|item: ItemView|
        items.contains(item) == #[trigger] other.contains(item) by {
        assert(items.to_multiset().count(item) > 0 <==> items.contains(item));
        assert(other.to_multiset().count(item) > 0 <==> other.contains(item));
    }
    assert(items.no_duplicates()) by {
        assert forall|i: int, j: int|
            0 <= i < items.len() && 0 <= j < items.len() && i != j implies items[i]
            != items[j] by {
            if i < j {
                assert(item_path(items[i]) != item_path(items[j]));
            } else {
                assert(item_path(items[j]) != item_path(items[i]));
            }
        }
    }
    items.lemma_multiset_has_no_duplicates();
    other.lemma_multiset_has_no_duplicates_conv();
    assert forall|i: int| 0 <= i < other.len() implies is_filled(#[trigger] other[i]) by {
        assert(other.contains(other[i]));
        let k = items.index_of(other[i]);
        assert(is_filled(items[k]));
    }
    assert(names_distinct_paths(other)) by {
        assert forall|i: int, j: int| 0 <= i < j < other.len() implies item_path(
            #[trigger] other[i],
        ) != item_path(#[trigger] other[j]) by {
            assert(other.contains(other[i]) && other.contains(other[j]));
            let k = items.index_of(other[i]);
            let l = items.index_of(other[j]);
            if k < l {
                assert(item_path(items[k]) != item_path(items[l]));
            } else {
                assert(item_path(items[l]) != item_path(items[k]));
            }
        }
    }
    assert(item_summaries(items) =~= item_summaries(other)) by {
        assert forall|path: Seq<char>|
            item_summaries(items).contains_key(path) == #[trigger] item_summaries(
            other,
        ).contains_key(path) && (item_summaries(items).contains_key(path) ==> item_summaries(
            items,
        )[path] == item_summaries(other)[path]) by {
            lemma_item_summaries_dom(items, path);
            lemma_item_summaries_dom(other, path);
            if item_summaries(items).contains_key(path) {
                let i = choose|i: int|
                    0 <= i < items.len() && item_path(#[trigger] items[i]) == path;
                assert(items.contains(items[i]) && other.contains(items[i]));
                let k = other.index_of(items[i]);
                assert(item_path(other[k]) == path);
                lemma_distinct_items_keep_their_summaries(items, i);
                lemma_distinct_items_keep_their_summaries(other, k);
            }
            if item_summaries(other).contains_key(path) {
                let k = choose|k: int|
                    0 <= k < other.len() && item_path(#[trigger] other[k]) == path;
                assert(other.contains(other[k]));
                let i = items.index_of(other[k]);
                assert(item_path(items[i]) == path);
            }
        }
    }
}

} // verus!
