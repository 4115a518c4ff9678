//! What becomes of everything that a walk comes by: which entries are seen, listed
//! and read, told by the walk itself.

use vstd::prelude::*;
use vstd::utf8::{encode_utf8, valid_utf8};

use crate::discovery::{
    candidate_entries, entry_at, found_directories, found_targets, is_listing,
    sighting_of, speaks_for_directory, targets_of, CandidateView, DiscoveryError, Observation,
    ObservationView, PendingTarget, PendingTargetView, Sighting, SightingView, SummaryTarget,
    SummaryTargetCandidate, SummaryTargetView, WalkedEntry, WalkedEntryView,
};
use crate::discovery_laws::{
    entries_are_directories_and_chosen_docs, lemma_directories_were_observed,
    lemma_observed_directories_are_found,
};
use crate::order::{path_order, text_order, PartName};
use crate::path::{file_name_of, parent_of, path_text, without_first, PathView};
use crate::path_laws::file_names_are_last_names;
use crate::sort::{ascending, not_after, views, Keyed};
use crate::text::repaired_text;
use crate::text_laws::valid_utf8_is_read_as_it_is;
use crate::tree::{TreeEntry, TreeEntryKind, TreeEntryView};

verus! {

/// A list of views has the view of every item of the list, in its order.
pub proof fn views_hold_every_item<T: View>(items: Seq<T>)
    ensures
        views(items).len() == items.len(),
        forall|i: int| 0 <= i < items.len() ==> #[trigger] views(items)[i] == items[i]@,
{
}

/// The views of what a walk brings have all that it brings.
pub proof fn walk_views_hold_every_field(
    entry: WalkedEntry,
    target: PendingTarget,
    candidate: SummaryTargetCandidate,
    doc: SummaryTarget,
)
    ensures
        entry@.depth == entry.depth,
        entry@.path == entry.path@,
        entry@.file_type == entry.file_type,
        target@.priority == target.priority,
        target@.path == target.relative_path@,
        target@.kind == target.kind,
        candidate@.priority == candidate.priority,
        candidate@.path == candidate.relative_path@,
        candidate@.location == candidate.location,
        candidate@.kind == candidate.kind,
        doc@.path == doc.relative_path@,
        doc@.contents == doc.contents@,
{
}

/// The views of what is seen and observed have all that they hold.
pub proof fn observation_views_hold_every_field(sighting: Sighting, observation: Observation)
    ensures
        sighting is Ignored <==> sighting@ is Ignored,
        sighting matches Sighting::Directory(entry) ==> sighting@ == SightingView::Directory(
            entry@,
        ),
        sighting matches Sighting::Target(target) ==> sighting@ == SightingView::Target(target@),
        observation matches Observation::Directory(entry) ==> observation@
            == ObservationView::Directory(entry@),
        observation matches Observation::Target { target, canonical, location } ==> observation@
            == (ObservationView::Target { target: target@, canonical: canonical@, location }),
{
}

/// Everything below the root is seen, however deep it lies: every directory, and
/// every file or link that has the name of a project doc, under the path below the
/// root. Passed over are the root itself, entries of another or unknown type, and
/// files and links with other names; only what does not lie below the root is
/// refused.
pub proof fn everything_below_the_root_is_seen(root: PathView, entry: WalkedEntryView)
    ensures
        ({
            let seen = sighting_of(root, entry);
            let path = without_first(entry.path, root.names().len() as int);
            let named = |name: Seq<char>|
                path.names().len() > 0 && path.names().last() == PartName::Name(
                    encode_utf8(name),
                );
            &&& entry.depth == 0 ==> seen == Ok::<SightingView, DiscoveryError>(
                SightingView::Ignored,
            )
            &&& seen is Err <==> entry.depth > 0 && !root.names().is_prefix_of(entry.path.names())
            &&& entry.depth > 0 && root.names().is_prefix_of(entry.path.names()) ==> {
                &&& root.names() + path.names() == entry.path.names()
                &&& entry.file_type is None ==> seen == Ok::<SightingView, DiscoveryError>(
                    SightingView::Ignored,
                )
                &&& entry.file_type matches Some(kind) ==> {
                    &&& kind.is_dir ==> {
                        &&& seen matches Ok(SightingView::Directory(found))
                        &&& found.path == path
                        &&& found.kind == TreeEntryKind::Directory
                        &&& 0 < path.names().len() <= usize::MAX ==> found.depth
                            == path.names().len() - 1
                    }
                    &&& !kind.is_dir && (kind.is_file || kind.is_symlink) ==> {
                        let shown = if kind.is_file {
                            TreeEntryKind::File
                        } else {
                            TreeEntryKind::Symlink
                        };
                        &&& named("AGENTS.override.md"@) ==> seen == Ok::<
                            SightingView,
                            DiscoveryError,
                        >(SightingView::Target(PendingTargetView { priority: 0, path, kind: shown }))
                        &&& named("AGENTS.md"@) ==> seen == Ok::<SightingView, DiscoveryError>(
                            SightingView::Target(
                                PendingTargetView { priority: 1, path, kind: shown },
                            ),
                        )
                        &&& !named("AGENTS.override.md"@) && !named("AGENTS.md"@) ==> seen == Ok::<
                            SightingView,
                            DiscoveryError,
                        >(SightingView::Ignored)
                    }
                    &&& !kind.is_dir && !kind.is_file && !kind.is_symlink ==> seen == Ok::<
                        SightingView,
                        DiscoveryError,
                    >(SightingView::Ignored)
                }
            }
        }),
{
    let path = without_first(entry.path, root.names().len() as int);
    let (preferred, standard) = ("AGENTS.override.md"@, "AGENTS.md"@);
    reveal_strlit("AGENTS.override.md");
    reveal_strlit("AGENTS.md");
    assert(preferred.len() != standard.len());
    vstd::utf8::encode_utf8_decode_utf8(preferred);
    vstd::utf8::encode_utf8_valid_utf8(preferred);
    vstd::utf8::encode_utf8_decode_utf8(standard);
    vstd::utf8::encode_utf8_valid_utf8(standard);
    file_names_are_last_names(path, encode_utf8(preferred));
    file_names_are_last_names(path, encode_utf8(standard));
    if let Some(name) = file_name_of(path) {
        file_names_are_last_names(path, name);
        if valid_utf8(name) {
            vstd::utf8::decode_utf8_encode_utf8(name);
        }
    }
    if root.names().is_prefix_of(entry.path.names()) {
        crate::path::stripped_paths_go_on_where_the_base_ends(entry.path, root);
    }
}

/// Whether an observation is a doc that resolves to a place below the root.
pub open spec fn resolves_below(root: PathView, observation: ObservationView) -> bool {
    observation matches ObservationView::Target { canonical, .. } && root.names().is_prefix_of(
        canonical.names(),
    )
}

/// The candidate that an observed doc is.
pub open spec fn observed_candidate(observation: ObservationView) -> CandidateView {
    CandidateView {
        priority: observation->target.priority,
        path: observation->target.path,
        location: observation->location,
        kind: observation->target.kind,
    }
}

/// Whether the `i`-th observation is the doc to prefer in its directory: it resolves
/// below the root, and of all others there that do, each has a higher rank, or the
/// same and was observed later.
pub open spec fn is_preferred(
    root: PathView,
    observations: Seq<ObservationView>,
    i: int,
) -> bool {
    &&& 0 <= i < observations.len()
    &&& resolves_below(root, observations[i])
    &&& forall|j: int|
        0 <= j < observations.len() && resolves_below(root, #[trigger] observations[j])
            && parent_of(observations[j]->target.path.names()) == parent_of(
            observations[i]->target.path.names(),
        ) ==> observations[i]->target.priority < observations[j]->target.priority || (
        observations[i]->target.priority == observations[j]->target.priority && i <= j)
}

/// The place of the `i`-th observation among the found docs.
spec fn place(root: PathView, observations: Seq<ObservationView>, i: int) -> int {
    found_targets(root, observations.take(i)).len() as int
}

proof fn lemma_place(root: PathView, observations: Seq<ObservationView>, i: int)
    requires
        0 <= i < observations.len(),
        resolves_below(root, observations[i]),
    ensures
        place(root, observations, i) < found_targets(root, observations).len(),
        found_targets(root, observations)[place(root, observations, i)] == observed_candidate(
            observations[i],
        ),
    decreases observations.len(),
{
    let earlier = observations.drop_last();
    if i < earlier.len() {
        assert(earlier.take(i) =~= observations.take(i));
        assert(earlier[i] == observations[i]);
        lemma_place(root, earlier, i);
    } else {
        assert(observations.take(i) =~= earlier);
    }
}

proof fn lemma_places_ascend(root: PathView, observations: Seq<ObservationView>, i: int, j: int)
    requires
        0 <= i < j < observations.len(),
        resolves_below(root, observations[i]),
    ensures
        place(root, observations, i) < place(root, observations, j),
{
    let earlier = observations.take(j);
    assert(earlier.take(i) =~= observations.take(i));
    assert(earlier[i] == observations[i]);
    lemma_place(root, earlier, i);
}

proof fn lemma_placed(root: PathView, observations: Seq<ObservationView>, p: int) -> (i: int)
    requires
        0 <= p < found_targets(root, observations).len(),
    ensures
        0 <= i < observations.len(),
        resolves_below(root, observations[i]),
        place(root, observations, i) == p,
        found_targets(root, observations)[p] == observed_candidate(observations[i]),
    decreases observations.len(),
{
    let earlier = observations.drop_last();
    let i = if p < found_targets(root, earlier).len() {
        let i = lemma_placed(root, earlier, p);
        assert(earlier.take(i) =~= observations.take(i));
        assert(earlier[i] == observations[i]);
        i
    } else {
        let i = observations.len() - 1;
        assert(observations.take(i) =~= earlier);
        i
    };
    i
}

proof fn lemma_preferred_docs_speak(root: PathView, observations: Seq<ObservationView>, i: int)
    requires
        0 <= i < observations.len(),
        resolves_below(root, observations[i]),
    ensures
        is_preferred(root, observations, i) <==> speaks_for_directory(
            found_targets(root, observations),
            place(root, observations, i),
        ),
{
    let found = found_targets(root, observations);
    let at = place(root, observations, i);
    lemma_place(root, observations, i);
    if is_preferred(root, observations, i) {
        assert forall|q: int|
            0 <= q < found.len() && parent_of(#[trigger] found[q].path.names()) == parent_of(
                found[at].path.names(),
            ) implies found[at].priority < found[q].priority || (found[at].priority
            == found[q].priority && at <= q) by {
            let j = lemma_placed(root, observations, q);
            assert(resolves_below(root, observations[j]));
            if i < j {
                lemma_places_ascend(root, observations, i, j);
            }
        }
    }
    if speaks_for_directory(found, at) {
        assert forall|j: int|
            0 <= j < observations.len() && resolves_below(root, #[trigger] observations[j])
                && parent_of(observations[j]->target.path.names()) == parent_of(
                observations[i]->target.path.names(),
            ) implies observations[i]->target.priority < observations[j]->target.priority || (
        observations[i]->target.priority == observations[j]->target.priority && i <= j) by {
            lemma_place(root, observations, j);
            let q = place(root, observations, j);
            assert(parent_of(found[q].path.names()) == parent_of(found[at].path.names()));
            if j < i {
                lemma_places_ascend(root, observations, j, i);
            }
        }
    }
}

/// The files that are to be read are exactly the docs to prefer in their
/// directories, one for each directory in which any doc resolves below the root,
/// and each is kept with its rank, path, location and kind.
pub proof fn preferred_docs_are_chosen(
    root: PathView,
    observations: Seq<ObservationView>,
    entries: Seq<TreeEntryView>,
    candidates: Seq<CandidateView>,
    candidate: CandidateView,
)
    requires
        is_listing(root, observations, entries, candidates),
    ensures
        candidates.contains(candidate) <==> exists|i: int| #[trigger]
            is_preferred(root, observations, i) && candidate == observed_candidate(
                observations[i],
            ),
{
    let found = found_targets(root, observations);
    if candidates.contains(candidate) {
        let p = choose|p: int| #[trigger] speaks_for_directory(found, p) && found[p] == candidate;
        let i = lemma_placed(root, observations, p);
        lemma_preferred_docs_speak(root, observations, i);
        assert(is_preferred(root, observations, i));
    }
    if exists|i: int| #[trigger]
        is_preferred(root, observations, i) && candidate == observed_candidate(observations[i]) {
        let i = choose|i: int| #[trigger]
            is_preferred(root, observations, i) && candidate == observed_candidate(
                observations[i],
            );
        lemma_preferred_docs_speak(root, observations, i);
        lemma_place(root, observations, i);
        let p = place(root, observations, i);
        assert(speaks_for_directory(found, p) && found[p] == candidate);
    }
}

/// Wherever a doc resolves below the root, its directory has a doc that is read.
pub proof fn every_directory_with_docs_is_read(
    root: PathView,
    observations: Seq<ObservationView>,
    entries: Seq<TreeEntryView>,
    candidates: Seq<CandidateView>,
    i: int,
) -> (k: int)
    requires
        is_listing(root, observations, entries, candidates),
        0 <= i < observations.len(),
        resolves_below(root, observations[i]),
    ensures
        0 <= k < candidates.len(),
        parent_of(candidates[k].path.names()) == parent_of(observations[i]->target.path.names()),
        candidates[k].priority <= observations[i]->target.priority,
{
    lemma_place(root, observations, i);
    crate::discovery_laws::every_directory_with_docs_has_one_that_speaks(
        found_targets(root, observations),
        candidates,
        place(root, observations, i),
    )
}

/// Every observed directory is listed as it was observed, and every file that is to
/// be read is, with its path, its depth and its kind.
pub proof fn directories_and_chosen_docs_are_listed(
    root: PathView,
    observations: Seq<ObservationView>,
    entries: Seq<TreeEntryView>,
    candidates: Seq<CandidateView>,
)
    requires
        is_listing(root, observations, entries, candidates),
    ensures
        forall|i: int|
            0 <= i < observations.len() && (#[trigger] observations[i]) is Directory
                ==> entries.contains(observations[i]->Directory_0),
        forall|k: int|
            0 <= k < candidates.len() && 0 < (#[trigger] candidates[k]).path.names().len()
                <= usize::MAX ==> entries.contains(
                TreeEntryView {
                    path: candidates[k].path,
                    depth: (candidates[k].path.names().len() - 1) as usize,
                    kind: candidates[k].kind,
                },
            ),
{
    assert forall|i: int|
        0 <= i < observations.len() && (#[trigger] observations[i]) is Directory implies entries.contains(
    observations[i]->Directory_0) by {
        let entry = observations[i]->Directory_0;
        let d = lemma_observed_directories_are_found(observations, i);
        assert(found_directories(observations).contains(entry));
        entries_are_directories_and_chosen_docs(root, observations, entries, candidates, entry);
    }
    assert forall|k: int|
        0 <= k < candidates.len() && 0 < (#[trigger] candidates[k]).path.names().len()
            <= usize::MAX implies entries.contains(
        TreeEntryView {
            path: candidates[k].path,
            depth: (candidates[k].path.names().len() - 1) as usize,
            kind: candidates[k].kind,
        },
    ) by {
        let entry = candidate_entries(candidates)[k];
        assert(candidate_entries(candidates).contains(entry));
        assert(entry.depth == candidates[k].path.names().len() - 1);
        entries_are_directories_and_chosen_docs(root, observations, entries, candidates, entry);
    }
}

proof fn lemma_directories_are_counted(observations: Seq<ObservationView>)
    ensures
        found_directories(observations).len() == observations.filter(
            |observation: ObservationView| observation is Directory,
        ).len(),
    decreases observations.len(),
{
    reveal(Seq::filter);
    if observations.len() > 0 {
        lemma_directories_are_counted(observations.drop_last());
    }
}

/// Nothing else is listed: every entry is an observed directory or the entry of a
/// file that is to be read, and there are as many entries as there are of these.
pub proof fn nothing_else_is_listed(
    root: PathView,
    observations: Seq<ObservationView>,
    entries: Seq<TreeEntryView>,
    candidates: Seq<CandidateView>,
    e: int,
)
    requires
        is_listing(root, observations, entries, candidates),
        0 <= e < entries.len(),
    ensures
        observations.contains(ObservationView::Directory(entries[e])) || exists|k: int|
            0 <= k < candidates.len() && (#[trigger] candidates[k]).path == entries[e].path
                && candidates[k].kind == entries[e].kind && (0 < entries[e].path.names().len()
                <= usize::MAX ==> entries[e].depth == entries[e].path.names().len() - 1),
        entries.len() == observations.filter(
            |observation: ObservationView| observation is Directory,
        ).len() + candidates.len(),
{
    lemma_directories_are_counted(observations);
    assert(entries.contains(entries[e]));
    entries_are_directories_and_chosen_docs(root, observations, entries, candidates, entries[e]);
    if found_directories(observations).contains(entries[e]) {
        let d = found_directories(observations).index_of(entries[e]);
        let i = lemma_directories_were_observed(observations, d);
        assert(observations[i] == ObservationView::Directory(entries[e]));
    } else {
        let k = candidate_entries(candidates).index_of(entries[e]);
        assert(candidate_entries(candidates)[k] == entry_at(
            candidates[k].path,
            candidates[k].kind,
        ));
        assert(candidates[k].path == entries[e].path);
    }
}

/// A listing is sorted: no entry stands before one whose path comes first, and the
/// files that are to be read stand in strictly ascending order of their paths.
pub proof fn listings_are_sorted(
    root: PathView,
    observations: Seq<ObservationView>,
    entries: Seq<TreeEntryView>,
    candidates: Seq<CandidateView>,
)
    requires
        is_listing(root, observations, entries, candidates),
    ensures
        forall|i: int, j: int|
            0 <= i < j < entries.len() ==> !(#[trigger] path_order()(
                entries[j].path.names(),
                entries[i].path.names(),
            )),
        forall|i: int, j: int|
            0 <= i < j < candidates.len() ==> #[trigger] path_order()(
                candidates[i].path.names(),
                candidates[j].path.names(),
            ),
{
    assert forall|i: int, j: int| 0 <= i < j < entries.len() implies !(#[trigger] path_order()(
        entries[j].path.names(),
        entries[i].path.names(),
    )) by {
        assert(not_after::<TreeEntry>(entries[i], entries[j]));
    }
}

/// Every file that is read reaches the tree whole: among the docs is one with its
/// path as text whose contents encode to the bytes of the file where those are valid
/// UTF-8, and else are what is made of all of them. No doc is added and none is
/// left out.
pub proof fn files_are_taken_in_whole(
    candidates: Seq<CandidateView>,
    contents: Seq<Seq<u8>>,
    targets: Seq<SummaryTargetView>,
    k: int,
) -> (t: int)
    requires
        contents.len() == candidates.len(),
        targets.to_multiset() == targets_of(candidates, contents).to_multiset(),
        0 <= k < candidates.len(),
    ensures
        targets.len() == candidates.len(),
        0 <= t < targets.len(),
        targets[t].path == path_text(candidates[k].path),
        valid_utf8(contents[k]) ==> encode_utf8(targets[t].contents) == contents[k],
        !valid_utf8(contents[k]) ==> targets[t].contents == repaired_text(contents[k]),
{
    let all = targets_of(candidates, contents);
    targets.to_multiset_ensures();
    all.to_multiset_ensures();
    assert(all.contains(all[k]));
    assert(all.to_multiset().count(all[k]) > 0);
    assert(targets.contains(all[k]));
    if valid_utf8(contents[k]) {
        valid_utf8_is_read_as_it_is(contents[k], crate::text::NameEncoding::Bytes);
    }
    targets.index_of(all[k])
}

/// Every doc of the tree is one of the files that are read, with its path as text
/// and its whole contents.
pub proof fn docs_are_files_that_were_read(
    candidates: Seq<CandidateView>,
    contents: Seq<Seq<u8>>,
    targets: Seq<SummaryTargetView>,
    t: int,
) -> (k: int)
    requires
        contents.len() == candidates.len(),
        targets.to_multiset() == targets_of(candidates, contents).to_multiset(),
        0 <= t < targets.len(),
    ensures
        0 <= k < candidates.len(),
        targets[t].path == path_text(candidates[k].path),
        valid_utf8(contents[k]) ==> encode_utf8(targets[t].contents) == contents[k],
        !valid_utf8(contents[k]) ==> targets[t].contents == repaired_text(contents[k]),
{
    let all = targets_of(candidates, contents);
    targets.to_multiset_ensures();
    all.to_multiset_ensures();
    assert(targets.contains(targets[t]));
    assert(targets.to_multiset().count(targets[t]) > 0);
    assert(all.contains(targets[t]));
    let k = all.index_of(targets[t]);
    if valid_utf8(contents[k]) {
        valid_utf8_is_read_as_it_is(contents[k], crate::text::NameEncoding::Bytes);
    }
    k
}

/// The docs of a tree are sorted by their paths as text.
pub proof fn docs_are_sorted_by_text(targets: Seq<SummaryTargetView>, i: int, j: int)
    requires
        ascending::<SummaryTarget>(targets),
        0 <= i < j < targets.len(),
    ensures
        !text_order()(targets[j].path, targets[i].path),
        targets[i].path == targets[j].path || text_order()(targets[i].path, targets[j].path),
{
    crate::order::text_order_is_strict_and_total();
    assert(not_after::<SummaryTarget>(targets[i], targets[j]));
    let lt = text_order();
    assert(lt(targets[i].path, targets[j].path) || targets[i].path == targets[j].path || lt(
        targets[j].path,
        targets[i].path,
    ));
}

} // verus!
