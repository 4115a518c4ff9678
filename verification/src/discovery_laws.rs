//! What holds of every discovery tree.

use vstd::prelude::*;
use vstd::utf8::{decode_utf8, encode_utf8};

use crate::agents_md::LOCAL_PROJECT_DOC_FILENAME;
use crate::discovery::{
    candidate_entries, entry_at, found_directories, found_targets, is_listing, is_selection,
    sighting_of, speaks_for_directory, target_priority, targets_of, CandidateView,
    ObservationView, SightingView, SummaryTargetCandidate, SummaryTargetView, WalkedEntryView,
};
use crate::order::{path_order, PartName};
use crate::path::{
    file_name_of, parent_of, path_text, stripped_paths_go_on_where_the_base_ends, PathView,
};
use crate::sort::{
    distinct_keys, distinct_keys_do_not_depend_on_the_order,
    lists_in_strict_order_are_fixed_by_their_items, sorted_lists_are_fixed_by_their_items,
    sorted_lists_with_distinct_keys_ascend_strictly, Keyed,
};
use crate::tree::{TreeEntry, TreeEntryKind, TreeEntryView};

verus! {

/// What the walk finds for the tree lies below the root under the path that the
/// tree gives it; a directory has its depth, and a project doc the rank of its
/// name.
pub proof fn sightings_lie_below_the_root(root: PathView, entry: WalkedEntryView)
    ensures
        sighting_of(root, entry) matches Ok(SightingView::Directory(found)) ==> {
            &&& root.names() + found.path.names() == entry.path.names()
            &&& found == entry_at(found.path, TreeEntryKind::Directory)
        },
        sighting_of(root, entry) matches Ok(SightingView::Target(found)) ==> {
            &&& root.names() + found.path.names() == entry.path.names()
            &&& target_priority(found.path) == Some(found.priority)
            &&& found.kind == TreeEntryKind::File || found.kind == TreeEntryKind::Symlink
        },
{
    if root.names().is_prefix_of(entry.path.names()) {
        stripped_paths_go_on_where_the_base_ends(entry.path, root);
    }
}

/// A doc of the given directory whose rank no doc of that directory is below, and
/// before which none there has the same.
proof fn lemma_some_doc_speaks(found: Seq<CandidateView>, j: int) -> (i: int)
    requires
        0 <= j < found.len(),
    ensures
        speaks_for_directory(found, i),
        parent_of(found[i].path.names()) == parent_of(found[j].path.names()),
{
    lemma_best_of_prefix(found, parent_of(found[j].path.names()), j, found.len() as int)
}

proof fn lemma_best_of_prefix(
    found: Seq<CandidateView>,
    directory: Seq<PartName>,
    j: int,
    n: int,
) -> (i: int)
    requires
        0 <= j < n <= found.len(),
        parent_of(found[j].path.names()) == directory,
    ensures
        0 <= i < n,
        parent_of(found[i].path.names()) == directory,
        forall|k: int|
            0 <= k < n && parent_of(#[trigger] found[k].path.names()) == directory ==> found[i].priority
                < found[k].priority || (found[i].priority == found[k].priority && i <= k),
    decreases n,
{
    if exists|k: int| 0 <= k < n - 1 && parent_of(#[trigger] found[k].path.names()) == directory {
        let k = choose|k: int| 0 <= k < n - 1 && parent_of(#[trigger] found[k].path.names()) == directory;
        let best = lemma_best_of_prefix(found, directory, k, n - 1);
        if parent_of(found[n - 1].path.names()) == directory && found[n - 1].priority
            < found[best].priority {
            n - 1
        } else {
            best
        }
    } else {
        j
    }
}

/// No directory has two docs that speak for it.
pub proof fn one_doc_speaks_for_a_directory(
    found: Seq<CandidateView>,
    candidates: Seq<CandidateView>,
    k: int,
    l: int,
)
    requires
        is_selection(found, candidates),
        0 <= k < l < candidates.len(),
    ensures
        parent_of(candidates[k].path.names()) != parent_of(candidates[l].path.names()),
{
    assert(candidates.contains(candidates[k]) && candidates.contains(candidates[l]));
    let i = choose|i: int| #[trigger]
        speaks_for_directory(found, i) && found[i] == candidates[k];
    let j = choose|j: int| #[trigger]
        speaks_for_directory(found, j) && found[j] == candidates[l];
    if parent_of(candidates[k].path.names()) == parent_of(candidates[l].path.names()) {
        assert(parent_of(found[i].path.names()) == parent_of(found[j].path.names()));
        assert(i == j);
        assert(path_order()(candidates[k].path.names(), candidates[l].path.names()));
        crate::order::path_order_is_strict_and_total();
        let lt = path_order();
        assert(!lt(candidates[k].path.names(), candidates[k].path.names()));
    }
}

/// Every directory in which a doc was found has one that speaks for it, and none
/// found there has a lower rank.
pub proof fn every_directory_with_docs_has_one_that_speaks(
    found: Seq<CandidateView>,
    candidates: Seq<CandidateView>,
    j: int,
) -> (k: int)
    requires
        is_selection(found, candidates),
        0 <= j < found.len(),
    ensures
        0 <= k < candidates.len(),
        parent_of(candidates[k].path.names()) == parent_of(found[j].path.names()),
        candidates[k].priority <= found[j].priority,
{
    let i = lemma_some_doc_speaks(found, j);
    assert(candidates.contains(found[i]));
    candidates.index_of(found[i])
}

/// Whether the docs among the observations have the ranks of their names.
pub open spec fn ranked_by_name(observations: Seq<ObservationView>) -> bool {
    forall|i: int|
        0 <= i < observations.len() ==> (#[trigger] observations[i] matches
            ObservationView::Target { target, .. } ==> target_priority(target.path) == Some(
            target.priority,
        ))
}

/// Every found doc is one of the observations, and resolves to a place below the
/// root.
pub proof fn found_docs_resolve_below_the_root(
    root: PathView,
    observations: Seq<ObservationView>,
    j: int,
) -> (i: int)
    requires
        0 <= j < found_targets(root, observations).len(),
    ensures
        0 <= i < observations.len(),
        observations[i] matches ObservationView::Target { target, canonical, location } && {
            &&& root.names().is_prefix_of(canonical.names())
            &&& found_targets(root, observations)[j] == (CandidateView {
                priority: target.priority,
                path: target.path,
                location,
                kind: target.kind,
            })
        },
    decreases observations.len(),
{
    let earlier = found_targets(root, observations.drop_last());
    if j < earlier.len() {
        let i = found_docs_resolve_below_the_root(root, observations.drop_last(), j);
        assert(observations[i] == observations.drop_last()[i]);
        i
    } else {
        observations.len() - 1
    }
}

/// A doc that speaks for its directory is one of the observations, and resolves to
/// a place below the root.
pub proof fn chosen_docs_resolve_below_the_root(
    root: PathView,
    observations: Seq<ObservationView>,
    candidates: Seq<CandidateView>,
    k: int,
) -> (i: int)
    requires
        is_selection(found_targets(root, observations), candidates),
        0 <= k < candidates.len(),
    ensures
        0 <= i < observations.len(),
        observations[i] matches ObservationView::Target { target, canonical, location } && {
            &&& root.names().is_prefix_of(canonical.names())
            &&& candidates[k] == (CandidateView {
                priority: target.priority,
                path: target.path,
                location,
                kind: target.kind,
            })
        },
{
    let found = found_targets(root, observations);
    assert(candidates.contains(candidates[k]));
    let j = choose|j: int| #[trigger]
        speaks_for_directory(found, j) && found[j] == candidates[k];
    found_docs_resolve_below_the_root(root, observations, j)
}

proof fn lemma_found_is_ranked(
    root: PathView,
    observations: Seq<ObservationView>,
    j: int,
)
    requires
        ranked_by_name(observations),
        0 <= j < found_targets(root, observations).len(),
    ensures
        target_priority(found_targets(root, observations)[j].path) == Some(
            found_targets(root, observations)[j].priority,
        ),
{
    let i = found_docs_resolve_below_the_root(root, observations, j);
    assert(observations[i] is Target);
}

/// Two docs of one directory with the same rank are one path.
proof fn lemma_rank_names_the_doc(a: PathView, b: PathView)
    requires
        parent_of(a.names()) == parent_of(b.names()),
        target_priority(a) is Some,
        target_priority(a) == target_priority(b),
    ensures
        a.names() == b.names(),
{
    let name_a = file_name_of(a)->0;
    let name_b = file_name_of(b)->0;
    assert(decode_utf8(name_a) == decode_utf8(name_b));
    vstd::utf8::decode_utf8_encode_utf8(name_a);
    vstd::utf8::decode_utf8_encode_utf8(name_b);
    assert(a.names() =~= parent_of(a.names()).push(PartName::Name(name_a)));
    assert(b.names() =~= parent_of(b.names()).push(PartName::Name(name_b)));
}

/// Where the override doc of a directory is found, it is the one that speaks for
/// the directory.
pub proof fn override_is_preferred(
    root: PathView,
    observations: Seq<ObservationView>,
    candidates: Seq<CandidateView>,
    j: int,
) -> (k: int)
    requires
        ranked_by_name(observations),
        is_selection(found_targets(root, observations), candidates),
        0 <= j < found_targets(root, observations).len(),
        file_name_of(found_targets(root, observations)[j].path) == Some(
            encode_utf8(LOCAL_PROJECT_DOC_FILENAME@),
        ),
    ensures
        0 <= k < candidates.len(),
        candidates[k].path.names() == found_targets(root, observations)[j].path.names(),
{
    let found = found_targets(root, observations);
    vstd::utf8::encode_utf8_decode_utf8(LOCAL_PROJECT_DOC_FILENAME@);
    vstd::utf8::encode_utf8_valid_utf8(LOCAL_PROJECT_DOC_FILENAME@);
    assert(target_priority(found[j].path) == Some(0u8));
    lemma_found_is_ranked(root, observations, j);
    let k = every_directory_with_docs_has_one_that_speaks(found, candidates, j);
    assert(candidates.contains(candidates[k]));
    let i = choose|i: int| #[trigger]
        speaks_for_directory(found, i) && found[i] == candidates[k];
    lemma_found_is_ranked(root, observations, i);
    lemma_rank_names_the_doc(candidates[k].path, found[j].path);
    k
}

/// The items that a function makes of each item of a list, one after the other.
spec fn gathered<X, Y>(items: Seq<X>, make: spec_fn(X) -> Seq<Y>) -> Seq<Y>
    decreases items.len(),
{
    if items.len() == 0 {
        Seq::empty()
    } else {
        gathered(items.drop_last(), make) + make(items.last())
    }
}

proof fn lemma_gathered_without<X, Y>(items: Seq<X>, make: spec_fn(X) -> Seq<Y>, k: int)
    requires
        0 <= k < items.len(),
    ensures
        gathered(items, make).to_multiset() == gathered(items.remove(k), make).to_multiset().add(
            make(items[k]).to_multiset(),
        ),
    decreases items.len(),
{
    let earlier = items.drop_last();
    vstd::seq_lib::lemma_multiset_commutative(gathered(earlier, make), make(items.last()));
    if k == items.len() - 1 {
        assert(items.remove(k) =~= earlier);
    } else {
        lemma_gathered_without(earlier, make, k);
        let rest = items.remove(k);
        assert(rest.drop_last() =~= earlier.remove(k));
        assert(rest.last() == items.last());
        vstd::seq_lib::lemma_multiset_commutative(
            gathered(earlier.remove(k), make),
            make(items.last()),
        );
        let base = gathered(earlier.remove(k), make).to_multiset();
        let one = make(items[k]).to_multiset();
        let last = make(items.last()).to_multiset();
        assert(base.add(one).add(last) =~= base.add(last).add(one));
    }
}

proof fn lemma_gathered_permutation<X, Y>(a: Seq<X>, b: Seq<X>, make: spec_fn(X) -> Seq<Y>)
    requires
        a.to_multiset() == b.to_multiset(),
    ensures
        gathered(a, make).to_multiset() == gathered(b, make).to_multiset(),
    decreases a.len(),
{
    a.to_multiset_ensures();
    b.to_multiset_ensures();
    if a.len() > 0 {
        let last = a.len() - 1;
        assert(a.contains(a[last]));
        assert(a.to_multiset().count(a[last]) > 0);
        assert(b.to_multiset().count(a[last]) > 0);
        assert(b.contains(a[last]));
        let k = b.index_of(a[last]);
        assert(b[k] == a[last]);
        assert(a.remove(last).to_multiset() == a.to_multiset().remove(a[last]));
        assert(b.remove(k).to_multiset() == b.to_multiset().remove(b[k]));
        lemma_gathered_permutation(a.remove(last), b.remove(k), make);
        lemma_gathered_without(a, make, last);
        lemma_gathered_without(b, make, k);
    } else {
        assert(a =~= b);
    }
}

spec fn doc_in(root: PathView) -> spec_fn(ObservationView) -> Seq<CandidateView> {
    |observation: ObservationView| found_targets(root, seq![observation])
}

spec fn directory_in() -> spec_fn(ObservationView) -> Seq<TreeEntryView> {
    |observation: ObservationView| found_directories(seq![observation])
}

proof fn lemma_found_is_gathered(root: PathView, observations: Seq<ObservationView>)
    ensures
        found_targets(root, observations) == gathered(observations, doc_in(root)),
        found_directories(observations) == gathered(observations, directory_in()),
    decreases observations.len(),
{
    if observations.len() > 0 {
        let earlier = observations.drop_last();
        lemma_found_is_gathered(root, earlier);
        let one = seq![observations.last()];
        assert(one.drop_last() =~= Seq::empty());
        assert(one.last() == observations.last());
        assert(found_targets(root, one.drop_last()) =~= Seq::empty());
        assert(found_directories(one.drop_last()) =~= Seq::empty());
        assert(found_targets(root, observations) =~= found_targets(root, earlier) + found_targets(
            root,
            one,
        ));
        assert(found_directories(observations) =~= found_directories(earlier) + found_directories(
            one,
        ));
    }
}

/// Whether no two found docs have one path.
pub open spec fn distinct_docs(found: Seq<CandidateView>) -> bool {
    forall|i: int, j: int|
        0 <= i < found.len() && 0 <= j < found.len() && i != j ==> (
        #[trigger] found[i]).path.names() != (#[trigger] found[j]).path.names()
}

proof fn lemma_chosen_in_both(
    root: PathView,
    a: Seq<ObservationView>,
    b: Seq<ObservationView>,
    i: int,
) -> (k: int)
    requires
        ranked_by_name(a),
        distinct_docs(found_targets(root, a)),
        found_targets(root, a).to_multiset() == found_targets(root, b).to_multiset(),
        speaks_for_directory(found_targets(root, a), i),
    ensures
        speaks_for_directory(found_targets(root, b), k),
        found_targets(root, b)[k] == found_targets(root, a)[i],
{
    let found_a = found_targets(root, a);
    let found_b = found_targets(root, b);
    found_a.to_multiset_ensures();
    found_b.to_multiset_ensures();
    assert(found_a.contains(found_a[i]));
    assert(found_a.to_multiset().count(found_a[i]) > 0);
    assert(found_b.contains(found_a[i]));
    let at = found_b.index_of(found_a[i]);
    let k = lemma_some_doc_speaks(found_b, at);
    assert(found_b.contains(found_b[k]));
    assert(found_b.to_multiset().count(found_b[k]) > 0);
    assert(found_a.contains(found_b[k]));
    let back = found_a.index_of(found_b[k]);
    assert(parent_of(found_a[back].path.names()) == parent_of(found_a[i].path.names()));
    assert(found_b[k].priority <= found_b[at].priority) by {
        assert(parent_of(found_b[at].path.names()) == parent_of(found_b[k].path.names()));
    }
    assert(found_a[back].priority == found_a[i].priority);
    lemma_found_is_ranked(root, a, i);
    lemma_found_is_ranked(root, a, back);
    lemma_rank_names_the_doc(found_a[back].path, found_a[i].path);
    assert(back == i);
    k
}

/// The listing does not depend on the order in which the walk reports what it
/// finds, where it reports no doc twice: the same docs are chosen, the same entries
/// are listed, and where no two of them have one path they stand in the same
/// order.
pub proof fn listing_does_not_depend_on_the_walk(
    root: PathView,
    a: Seq<ObservationView>,
    b: Seq<ObservationView>,
    entries_a: Seq<TreeEntryView>,
    entries_b: Seq<TreeEntryView>,
    candidates_a: Seq<CandidateView>,
    candidates_b: Seq<CandidateView>,
)
    requires
        a.to_multiset() == b.to_multiset(),
        ranked_by_name(a),
        distinct_docs(found_targets(root, a)),
        is_listing(root, a, entries_a, candidates_a),
        is_listing(root, b, entries_b, candidates_b),
    ensures
        candidates_a == candidates_b,
        entries_a.to_multiset() == entries_b.to_multiset(),
        distinct_keys::<TreeEntry>(entries_a) ==> entries_a == entries_b,
{
    lemma_found_is_gathered(root, a);
    lemma_found_is_gathered(root, b);
    lemma_gathered_permutation(a, b, doc_in(root));
    lemma_gathered_permutation(a, b, directory_in());
    let found_a = found_targets(root, a);
    let found_b = found_targets(root, b);
    lemma_ranked_permutation(a, b);
    lemma_distinct_permutation(found_a, found_b);
    assert forall|c: CandidateView| #[trigger]
        candidates_a.contains(c) <==> #[trigger] candidates_b.contains(c) by {
        if candidates_a.contains(c) {
            let i = choose|i: int| #[trigger] speaks_for_directory(found_a, i) && found_a[i] == c;
            let k = lemma_chosen_in_both(root, a, b, i);
            assert(speaks_for_directory(found_b, k) && found_b[k] == c);
        }
        if candidates_b.contains(c) {
            let i = choose|i: int| #[trigger] speaks_for_directory(found_b, i) && found_b[i] == c;
            let k = lemma_chosen_in_both(root, b, a, i);
            assert(speaks_for_directory(found_a, k) && found_a[k] == c);
        }
    }
    assert forall|i: int, j: int|
        0 <= i < j < candidates_a.len() implies #[trigger] SummaryTargetCandidate::order()(
        SummaryTargetCandidate::key(candidates_a[i]),
        SummaryTargetCandidate::key(candidates_a[j]),
    ) by {
        assert(path_order()(candidates_a[i].path.names(), candidates_a[j].path.names()));
    }
    assert forall|i: int, j: int|
        0 <= i < j < candidates_b.len() implies #[trigger] SummaryTargetCandidate::order()(
        SummaryTargetCandidate::key(candidates_b[i]),
        SummaryTargetCandidate::key(candidates_b[j]),
    ) by {
        assert(path_order()(candidates_b[i].path.names(), candidates_b[j].path.names()));
    }
    lists_in_strict_order_are_fixed_by_their_items::<SummaryTargetCandidate>(
        candidates_a,
        candidates_b,
    );
    vstd::seq_lib::lemma_multiset_commutative(
        found_directories(a),
        candidate_entries(candidates_a),
    );
    vstd::seq_lib::lemma_multiset_commutative(
        found_directories(b),
        candidate_entries(candidates_b),
    );
    if distinct_keys::<TreeEntry>(entries_a) {
        sorted_lists_are_fixed_by_their_items::<TreeEntry>(entries_a, entries_b);
    }
}

proof fn lemma_ranked_permutation(a: Seq<ObservationView>, b: Seq<ObservationView>)
    requires
        a.to_multiset() == b.to_multiset(),
        ranked_by_name(a),
    ensures
        ranked_by_name(b),
{
    a.to_multiset_ensures();
    b.to_multiset_ensures();
    assert forall|i: int| 0 <= i < b.len() implies (#[trigger] b[i] matches
        ObservationView::Target { target, .. } ==> target_priority(target.path) == Some(
        target.priority,
    )) by {
        assert(b.contains(b[i]));
        assert(b.to_multiset().count(b[i]) > 0);
        assert(a.contains(b[i]));
        let k = a.index_of(b[i]);
        assert(a[k] == b[i]);
    }
}

proof fn lemma_distinct_permutation(a: Seq<CandidateView>, b: Seq<CandidateView>)
    requires
        a.to_multiset() == b.to_multiset(),
        distinct_docs(a),
    ensures
        distinct_docs(b),
{
    a.to_multiset_ensures();
    b.to_multiset_ensures();
    assert(a.no_duplicates());
    a.lemma_multiset_has_no_duplicates();
    b.lemma_multiset_has_no_duplicates_conv();
    assert forall|i: int, j: int|
        0 <= i < b.len() && 0 <= j < b.len() && i != j implies (
    #[trigger] b[i]).path.names() != (#[trigger] b[j]).path.names() by {
        assert(b.contains(b[i]) && b.contains(b[j]));
        assert(b.to_multiset().count(b[i]) > 0 && b.to_multiset().count(b[j]) > 0);
        assert(a.contains(b[i]) && a.contains(b[j]));
        let k = a.index_of(b[i]);
        let l = a.index_of(b[j]);
        assert(k != l);
        assert(a[k].path.names() != a[l].path.names());
    }
}

/// The entries of a listing are the directories that were found and the docs that
/// speak for theirs, nothing else, each as often as it was found.
pub proof fn entries_are_directories_and_chosen_docs(
    root: PathView,
    observations: Seq<ObservationView>,
    entries: Seq<TreeEntryView>,
    candidates: Seq<CandidateView>,
    entry: TreeEntryView,
)
    requires
        is_listing(root, observations, entries, candidates),
    ensures
        entries.contains(entry) <==> found_directories(observations).contains(entry)
            || candidate_entries(candidates).contains(entry),
        entries.len() == found_directories(observations).len() + candidates.len(),
{
    let all = found_directories(observations) + candidate_entries(candidates);
    entries.to_multiset_ensures();
    all.to_multiset_ensures();
    assert(entries.to_multiset().count(entry) > 0 <==> entries.contains(entry));
    assert(all.to_multiset().count(entry) > 0 <==> all.contains(entry));
    let directories = found_directories(observations);
    if directories.contains(entry) {
        let i = directories.index_of(entry);
        assert(all[i] == entry);
    }
    if candidate_entries(candidates).contains(entry) {
        let i = candidate_entries(candidates).index_of(entry);
        assert(all[directories.len() + i] == entry);
    }
}

/// Every doc of a tree is shown: one of the entries has its path.
pub proof fn every_doc_has_an_entry(
    root: PathView,
    observations: Seq<ObservationView>,
    entries: Seq<TreeEntryView>,
    candidates: Seq<CandidateView>,
    contents: Seq<Seq<u8>>,
    targets: Seq<SummaryTargetView>,
    t: int,
) -> (e: int)
    requires
        is_listing(root, observations, entries, candidates),
        targets.to_multiset() == targets_of(candidates, contents).to_multiset(),
        0 <= t < targets.len(),
    ensures
        targets.len() == candidates.len(),
        0 <= e < entries.len(),
        path_text(entries[e].path) == targets[t].path,
{
    let all = targets_of(candidates, contents);
    targets.to_multiset_ensures();
    all.to_multiset_ensures();
    assert(targets.contains(targets[t]));
    assert(targets.to_multiset().count(targets[t]) > 0);
    assert(all.contains(targets[t]));
    let k = all.index_of(targets[t]);
    let entry = entry_at(candidates[k].path, candidates[k].kind);
    assert(candidate_entries(candidates)[k] == entry);
    assert(candidate_entries(candidates).contains(entry));
    entries_are_directories_and_chosen_docs(root, observations, entries, candidates, entry);
    entries.index_of(entry)
}

/// Whether the observations are what sightings make them: directories are marked
/// as such and have their depth, docs are files or links and have the ranks of
/// their names.
pub open spec fn come_from_sightings(observations: Seq<ObservationView>) -> bool {
    forall|i: int|
        0 <= i < observations.len() ==> match #[trigger] observations[i] {
            ObservationView::Directory(entry) => entry == entry_at(
                entry.path,
                TreeEntryKind::Directory,
            ),
            ObservationView::Target { target, .. } => {
                &&& target_priority(target.path) == Some(target.priority)
                &&& target.kind == TreeEntryKind::File || target.kind == TreeEntryKind::Symlink
            },
        }
}

pub(crate) proof fn lemma_directories_were_observed(
    observations: Seq<ObservationView>,
    d: int,
) -> (i: int)
    requires
        0 <= d < found_directories(observations).len(),
    ensures
        0 <= i < observations.len(),
        observations[i] == ObservationView::Directory(found_directories(observations)[d]),
    decreases observations.len(),
{
    let earlier = found_directories(observations.drop_last());
    if d < earlier.len() {
        let i = lemma_directories_were_observed(observations.drop_last(), d);
        assert(observations[i] == observations.drop_last()[i]);
        i
    } else {
        observations.len() - 1
    }
}

pub(crate) proof fn lemma_observed_directories_are_found(
    observations: Seq<ObservationView>,
    i: int,
) -> (d: int)
    requires
        0 <= i < observations.len(),
        observations[i] is Directory,
    ensures
        0 <= d < found_directories(observations).len(),
        found_directories(observations)[d] == observations[i]->Directory_0,
    decreases observations.len(),
{
    let earlier = observations.drop_last();
    if i < earlier.len() {
        assert(earlier[i] == observations[i]);
        lemma_observed_directories_are_found(earlier, i)
    } else {
        found_directories(earlier).len() as int
    }
}

/// Every entry of a listing has the depth of its path, and is a directory, or a
/// file or link with the name of a project doc.
pub proof fn entries_have_their_shape(
    root: PathView,
    observations: Seq<ObservationView>,
    entries: Seq<TreeEntryView>,
    candidates: Seq<CandidateView>,
    e: int,
)
    requires
        come_from_sightings(observations),
        is_listing(root, observations, entries, candidates),
        0 <= e < entries.len(),
    ensures
        entries[e] == entry_at(entries[e].path, entries[e].kind),
        entries[e].kind != TreeEntryKind::Other,
        entries[e].kind != TreeEntryKind::Directory ==> target_priority(entries[e].path) is Some,
{
    assert(entries.contains(entries[e]));
    entries_are_directories_and_chosen_docs(root, observations, entries, candidates, entries[e]);
    if found_directories(observations).contains(entries[e]) {
        let d = found_directories(observations).index_of(entries[e]);
        let i = lemma_directories_were_observed(observations, d);
        assert(observations[i] is Directory);
    } else {
        let k = candidate_entries(candidates).index_of(entries[e]);
        let i = chosen_docs_resolve_below_the_root(root, observations, candidates, k);
        assert(observations[i] is Target);
        assert(candidate_entries(candidates)[k] == entry_at(
            candidates[k].path,
            candidates[k].kind,
        ));
    }
}

/// Every file or link among the entries is a doc of the tree, under its path as
/// text.
pub proof fn every_shown_file_is_a_doc(
    root: PathView,
    observations: Seq<ObservationView>,
    entries: Seq<TreeEntryView>,
    candidates: Seq<CandidateView>,
    contents: Seq<Seq<u8>>,
    targets: Seq<SummaryTargetView>,
    e: int,
) -> (t: int)
    requires
        come_from_sightings(observations),
        is_listing(root, observations, entries, candidates),
        targets.to_multiset() == targets_of(candidates, contents).to_multiset(),
        0 <= e < entries.len(),
        entries[e].kind != TreeEntryKind::Directory,
    ensures
        0 <= t < targets.len(),
        targets[t].path == path_text(entries[e].path),
{
    let all = targets_of(candidates, contents);
    targets.to_multiset_ensures();
    all.to_multiset_ensures();
    assert(entries.contains(entries[e]));
    entries_are_directories_and_chosen_docs(root, observations, entries, candidates, entries[e]);
    if found_directories(observations).contains(entries[e]) {
        let d = found_directories(observations).index_of(entries[e]);
        let i = lemma_directories_were_observed(observations, d);
        assert(observations[i] is Directory);
    }
    let k = candidate_entries(candidates).index_of(entries[e]);
    assert(candidate_entries(candidates)[k] == entry_at(candidates[k].path, candidates[k].kind));
    assert(all.contains(all[k]));
    assert(all.to_multiset().count(all[k]) > 0);
    assert(targets.contains(all[k]));
    targets.index_of(all[k])
}

/// The path of what was observed.
pub open spec fn observed_path(observation: ObservationView) -> Seq<PartName> {
    match observation {
        ObservationView::Directory(entry) => entry.path.names(),
        ObservationView::Target { target, .. } => target.path.names(),
    }
}

/// Whether no path was observed twice.
pub open spec fn observed_once(observations: Seq<ObservationView>) -> bool {
    forall|i: int, j: int|
        0 <= i < j < observations.len() ==> observed_path(#[trigger] observations[i])
            != observed_path(#[trigger] observations[j])
}

/// Whether a directory with the given path was observed.
pub open spec fn directory_was_observed(
    observations: Seq<ObservationView>,
    path: Seq<PartName>,
) -> bool {
    exists|i: int|
        0 <= i < observations.len() && (#[trigger] observations[i]) is Directory && observed_path(
            observations[i],
        ) == path
}

/// Whether every directory below the root in which something was observed was
/// observed itself.
pub open spec fn entered_through_directories(observations: Seq<ObservationView>) -> bool {
    forall|i: int|
        0 <= i < observations.len() && parent_of(observed_path(#[trigger] observations[i])).len()
            > 0 ==> directory_was_observed(
            observations,
            parent_of(observed_path(observations[i])),
        )
}

/// Whether an entry with the given path stands before the `e`-th.
pub open spec fn stands_before(
    entries: Seq<TreeEntryView>,
    path: Seq<PartName>,
    e: int,
) -> bool {
    exists|d: int| 0 <= d < e && (#[trigger] entries[d]).path.names() == path
}

proof fn lemma_entries_were_observed(
    root: PathView,
    observations: Seq<ObservationView>,
    candidates: Seq<CandidateView>,
    k: int,
) -> (i: int)
    requires
        is_selection(found_targets(root, observations), candidates),
        0 <= k < (found_directories(observations) + candidate_entries(candidates)).len(),
    ensures
        0 <= i < observations.len(),
        observed_path(observations[i]) == (found_directories(observations) + candidate_entries(
            candidates,
        ))[k].path.names(),
        (observations[i] is Directory) == (k < found_directories(observations).len()),
{
    let directories = found_directories(observations);
    if k < directories.len() {
        lemma_directories_were_observed(observations, k)
    } else {
        let c = k - directories.len();
        assert(candidate_entries(candidates)[c].path == candidates[c].path);
        chosen_docs_resolve_below_the_root(root, observations, candidates, c)
    }
}

proof fn lemma_directories_are_distinct(observations: Seq<ObservationView>)
    requires
        observed_once(observations),
    ensures
        distinct_keys::<TreeEntry>(found_directories(observations)),
    decreases observations.len(),
{
    if observations.len() > 0 {
        let earlier = observations.drop_last();
        let last = observations.len() - 1;
        assert(observed_once(earlier)) by {
            assert forall|i: int, j: int| 0 <= i < j < earlier.len() implies observed_path(
                #[trigger] earlier[i],
            ) != observed_path(#[trigger] earlier[j]) by {
                assert(observed_path(observations[i]) != observed_path(observations[j]));
            }
        }
        lemma_directories_are_distinct(earlier);
        let before = found_directories(earlier);
        assert forall|k: int| 0 <= k < before.len() implies (#[trigger] before[k]).path.names()
            != observed_path(observations[last]) by {
            let i = lemma_directories_were_observed(earlier, k);
            assert(observations[i] == earlier[i]);
            assert(observed_path(observations[i]) != observed_path(observations[last]));
        }
        let now = found_directories(observations);
        assert forall|k: int, l: int|
            0 <= k < now.len() && 0 <= l < now.len() && k != l implies TreeEntry::key(
            #[trigger] now[k],
        ) != TreeEntry::key(#[trigger] now[l]) by {
            if k < before.len() && l < before.len() {
                assert(TreeEntry::key(before[k]) != TreeEntry::key(before[l]));
            } else if k < before.len() {
                assert(before[k].path.names() != observed_path(observations[last]));
            } else {
                assert(before[l].path.names() != observed_path(observations[last]));
            }
        }
    }
}

proof fn lemma_entries_are_distinct(
    root: PathView,
    observations: Seq<ObservationView>,
    candidates: Seq<CandidateView>,
)
    requires
        observed_once(observations),
        is_selection(found_targets(root, observations), candidates),
    ensures
        distinct_keys::<TreeEntry>(
            found_directories(observations) + candidate_entries(candidates),
        ),
{
    let directories = found_directories(observations);
    let all = directories + candidate_entries(candidates);
    lemma_directories_are_distinct(observations);
    crate::order::path_order_is_strict_and_total();
    let lt = path_order();
    assert forall|k: int, l: int|
        0 <= k < all.len() && 0 <= l < all.len() && k != l implies TreeEntry::key(
        #[trigger] all[k],
    ) != TreeEntry::key(#[trigger] all[l]) by {
        let i = lemma_entries_were_observed(root, observations, candidates, k);
        let j = lemma_entries_were_observed(root, observations, candidates, l);
        if i != j {
            if i < j {
                assert(observed_path(observations[i]) != observed_path(observations[j]));
            } else {
                assert(observed_path(observations[j]) != observed_path(observations[i]));
            }
        } else if k < directories.len() {
            assert(TreeEntry::key(directories[k]) != TreeEntry::key(directories[l]));
        } else {
            let a = k - directories.len();
            let b = l - directories.len();
            assert(all[k].path == candidates[a].path && all[l].path == candidates[b].path);
            let (low, high) = if a < b { (a, b) } else { (b, a) };
            assert(path_order()(candidates[low].path.names(), candidates[high].path.names()));
            assert(!lt(candidates[low].path.names(), candidates[low].path.names()));
        }
    }
}

/// A listing reads as a tree, where the walk reports each path once and each
/// directory that it enters: the entries stand in strictly ascending order of their
/// paths, and before each entry below the top stands that of its directory.
pub proof fn listing_reads_as_a_tree(
    root: PathView,
    observations: Seq<ObservationView>,
    entries: Seq<TreeEntryView>,
    candidates: Seq<CandidateView>,
)
    requires
        observed_once(observations),
        entered_through_directories(observations),
        is_listing(root, observations, entries, candidates),
    ensures
        forall|i: int, j: int|
            0 <= i < j < entries.len() ==> #[trigger] path_order()(
                entries[i].path.names(),
                entries[j].path.names(),
            ),
        forall|e: int|
            0 <= e < entries.len() && parent_of((#[trigger] entries[e]).path.names()).len() > 0
                ==> stands_before(entries, parent_of(entries[e].path.names()), e),
{
    let all = found_directories(observations) + candidate_entries(candidates);
    lemma_entries_are_distinct(root, observations, candidates);
    distinct_keys_do_not_depend_on_the_order::<TreeEntry>(all, entries);
    sorted_lists_with_distinct_keys_ascend_strictly::<TreeEntry>(entries);
    crate::order::path_order_is_strict_and_total();
    let lt = path_order();
    assert forall|i: int, j: int| 0 <= i < j < entries.len() implies #[trigger] path_order()(
        entries[i].path.names(),
        entries[j].path.names(),
    ) by {
        assert(TreeEntry::order()(TreeEntry::key(entries[i]), TreeEntry::key(entries[j])));
    }
    assert forall|e: int|
        0 <= e < entries.len() && parent_of((#[trigger] entries[e]).path.names()).len()
            > 0 implies stands_before(entries, parent_of(entries[e].path.names()), e) by {
        let names = entries[e].path.names();
        let parent = parent_of(names);
        all.to_multiset_ensures();
        entries.to_multiset_ensures();
        assert(entries.contains(entries[e]));
        assert(entries.to_multiset().count(entries[e]) > 0);
        assert(all.contains(entries[e]));
        let k = all.index_of(entries[e]);
        let i = lemma_entries_were_observed(root, observations, candidates, k);
        assert(observed_path(observations[i]) == names);
        assert(directory_was_observed(observations, parent));
        let j = choose|j: int|
            0 <= j < observations.len() && (#[trigger] observations[j]) is Directory
                && observed_path(observations[j]) == parent;
        let c = lemma_observed_directories_are_found(observations, j);
        assert(all[c] == found_directories(observations)[c]);
        assert(all.contains(all[c]));
        assert(all.to_multiset().count(all[c]) > 0);
        assert(entries.contains(all[c]));
        let d = entries.index_of(all[c]);
        assert(entries[d].path.names() == parent);
        assert(parent =~= names.subrange(0, parent.len() as int));
        crate::order::longer_lists_stand_after(parent, names, crate::order::part_order());
        assert(lt(parent, names));
        if d >= e {
            assert(!lt(parent, parent));
            if d > e {
                assert(path_order()(entries[e].path.names(), entries[d].path.names()));
                assert(lt(names, parent));
                assert(lt(parent, parent));
            }
        }
    }
}

} // verus!
