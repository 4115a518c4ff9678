//! From what a walk of the file system reports to the discovery tree.
//!
//! The walk itself, the resolution of links and the reading of files happen
//! elsewhere. [`classify_entry`] says of each entry whether it matters,
//! [`list_tree`] makes the listing of all that was observed, and
//! [`discover_tree`] joins it with the contents of the files that it names.

use vstd::prelude::*;
use vstd::utf8::{decode_utf8, valid_utf8};

use crate::agents_md::{filename_priority, priority_of};
use crate::order::{path_order, text_order, PartName};
use crate::path::{
    depth_of, file_name_of, parent_of, path_text, relative_path_text, without_first, PathView,
    TreePath,
};
use crate::sort::{ascending, sort, views, Keyed};
use crate::text::{from_utf8, from_utf8_lossy, text_of_bytes};
use crate::tree::{kind_of, FileType, TreeEntry, TreeEntryKind, TreeEntryView};

verus! {

/// An entry as a walk reports it.
#[derive(Clone, Debug)]
pub struct WalkedEntry {
    /// How far below the root of the walk the entry lies.
    pub depth: usize,
    /// The path of the entry, with the root of the walk in front.
    pub path: TreePath,
    /// What the entry is, where the walk knows it.
    pub file_type: Option<FileType>,
}

/// What a [`WalkedEntry`] says.
pub struct WalkedEntryView {
    pub depth: usize,
    pub path: PathView,
    pub file_type: Option<FileType>,
}

impl View for WalkedEntry {
    type V = WalkedEntryView;

    open spec fn view(&self) -> WalkedEntryView {
        WalkedEntryView { depth: self.depth, path: self.path@, file_type: self.file_type }
    }
}

/// A project doc that the walk came by, before its location is resolved.
#[derive(Clone, Debug)]
pub struct PendingTarget {
    pub priority: u8,
    pub relative_path: TreePath,
    pub kind: TreeEntryKind,
}

/// What a [`PendingTarget`] says.
pub struct PendingTargetView {
    pub priority: u8,
    pub path: PathView,
    pub kind: TreeEntryKind,
}

impl View for PendingTarget {
    type V = PendingTargetView;

    open spec fn view(&self) -> PendingTargetView {
        PendingTargetView {
            priority: self.priority,
            path: self.relative_path@,
            kind: self.kind,
        }
    }
}

/// What a walked entry means for the tree.
#[derive(Clone, Debug)]
pub enum Sighting {
    /// It is not part of the tree.
    Ignored,
    /// It is a directory of the tree.
    Directory(TreeEntry),
    /// It is a project doc; its location is to be resolved.
    Target(PendingTarget),
}

/// What a [`Sighting`] says.
pub enum SightingView {
    Ignored,
    Directory(TreeEntryView),
    Target(PendingTargetView),
}

impl View for Sighting {
    type V = SightingView;

    open spec fn view(&self) -> SightingView {
        match self {
            Sighting::Ignored => SightingView::Ignored,
            Sighting::Directory(entry) => SightingView::Directory(entry@),
            Sighting::Target(target) => SightingView::Target(target@),
        }
    }
}

/// Why a walked entry has no place in the tree.
#[derive(Clone, Copy, Debug, PartialEq, Eq, Structural)]
pub enum DiscoveryError {
    /// Its path does not lie below the root of the walk.
    OutsideRoot,
}

/// The tree entry for a path.
pub open spec fn entry_at(path: PathView, kind: TreeEntryKind) -> TreeEntryView {
    TreeEntryView { path, depth: depth_of(path.names()) as usize, kind }
}

/// The rank of a path among the project docs of its directory.
pub open spec fn target_priority(path: PathView) -> Option<u8> {
    match file_name_of(path) {
        Some(name) => if valid_utf8(name) {
            priority_of(decode_utf8(name))
        } else {
            None
        },
        None => None,
    }
}

/// What an entry is, where its file type may be unknown.
pub open spec fn known_kind(file_type: Option<FileType>) -> TreeEntryKind {
    match file_type {
        Some(known) => kind_of(known),
        None => TreeEntryKind::Other,
    }
}

/// What a walked entry means for the tree of a root: the root itself nothing, a
/// directory below it an entry, a file or link with the name of a project doc a
/// target, the rest nothing.
pub open spec fn sighting_of(root: PathView, entry: WalkedEntryView) -> Result<
    SightingView,
    DiscoveryError,
> {
    let path = without_first(entry.path, root.names().len() as int);
    let kind = known_kind(entry.file_type);
    if entry.depth == 0 {
        Ok(SightingView::Ignored)
    } else if !root.names().is_prefix_of(entry.path.names()) {
        Err(DiscoveryError::OutsideRoot)
    } else if kind == TreeEntryKind::Directory {
        Ok(SightingView::Directory(entry_at(path, kind)))
    } else if kind == TreeEntryKind::Other {
        Ok(SightingView::Ignored)
    } else {
        match target_priority(path) {
            Some(priority) => Ok(
                SightingView::Target(PendingTargetView { priority, path, kind }),
            ),
            None => Ok(SightingView::Ignored),
        }
    }
}

/// Says what a walked entry means for the tree of `root`.
pub fn classify_entry(root: &TreePath, entry: &WalkedEntry) -> (result: Result<
    Sighting,
    DiscoveryError,
>)
    ensures
        result is Ok == sighting_of(root@, entry@) is Ok,
        result matches Ok(sighting) ==> sighting@ == sighting_of(root@, entry@)->Ok_0,
        result matches Err(error) ==> error == sighting_of(root@, entry@)->Err_0,
{
    if entry.depth == 0 {
        return Ok(Sighting::Ignored);
    }
    let relative_path = match entry.path.strip_prefix(root) {
        Some(relative_path) => relative_path,
        None => {
            return Err(DiscoveryError::OutsideRoot);
        },
    };
    let kind = match entry.file_type {
        Some(file_type) => TreeEntryKind::from(file_type),
        None => TreeEntryKind::Other,
    };
    if kind == TreeEntryKind::Directory {
        let depth: usize = relative_path.depth();
        return Ok(Sighting::Directory(TreeEntry { relative_path, depth, kind }));
    }
    if kind != TreeEntryKind::File && kind != TreeEntryKind::Symlink {
        return Ok(Sighting::Ignored);
    }
    let priority = match relative_path.file_name() {
        Some(name) => match from_utf8(name.as_slice()) {
            Some(file_name) => filename_priority(file_name),
            None => None,
        },
        None => None,
    };
    match priority {
        Some(priority) => Ok(Sighting::Target(PendingTarget { priority, relative_path, kind })),
        None => Ok(Sighting::Ignored),
    }
}

/// Something that the walk found for the tree.
#[derive(Clone, Debug)]
pub enum Observation {
    /// A directory.
    Directory(TreeEntry),
    /// A project doc, with the path to which it resolves and the number under
    /// which the walker keeps that location.
    Target { target: PendingTarget, canonical: TreePath, location: usize },
}

/// What an [`Observation`] says.
pub enum ObservationView {
    Directory(TreeEntryView),
    Target { target: PendingTargetView, canonical: PathView, location: usize },
}

impl View for Observation {
    type V = ObservationView;

    open spec fn view(&self) -> ObservationView {
        match self {
            Observation::Directory(entry) => ObservationView::Directory(entry@),
            Observation::Target { target, canonical, location } => ObservationView::Target {
                target: target@,
                canonical: canonical@,
                location: *location,
            },
        }
    }
}

/// A project doc that may speak for its directory.
#[derive(Clone, Debug)]
pub struct SummaryTargetCandidate {
    pub priority: u8,
    pub relative_path: TreePath,
    /// The number under which the walker keeps the resolved location.
    pub location: usize,
    pub kind: TreeEntryKind,
}

/// What a [`SummaryTargetCandidate`] says.
pub struct CandidateView {
    pub priority: u8,
    pub path: PathView,
    pub location: usize,
    pub kind: TreeEntryKind,
}

impl View for SummaryTargetCandidate {
    type V = CandidateView;

    open spec fn view(&self) -> CandidateView {
        CandidateView {
            priority: self.priority,
            path: self.relative_path@,
            location: self.location,
            kind: self.kind,
        }
    }
}

impl Keyed for SummaryTargetCandidate {
    type Key = Seq<PartName>;

    open spec fn key(value: CandidateView) -> Seq<PartName> {
        value.path.names()
    }

    open spec fn order() -> spec_fn(Seq<PartName>, Seq<PartName>) -> bool {
        path_order()
    }

    proof fn order_is_strict_and_total() {
        crate::order::path_order_is_strict_and_total();
    }

    fn precedes(&self, other: &SummaryTargetCandidate) -> (result: bool) {
        self.relative_path.path_precedes(&other.relative_path)
    }
}

/// The directories among the observations.
pub open spec fn found_directories(observations: Seq<ObservationView>) -> Seq<TreeEntryView>
    decreases observations.len(),
{
    if observations.len() == 0 {
        Seq::empty()
    } else {
        let earlier = found_directories(observations.drop_last());
        match observations.last() {
            ObservationView::Directory(entry) => earlier.push(entry),
            ObservationView::Target { .. } => earlier,
        }
    }
}

/// The project docs among the observations that resolve to a place below `root`.
pub open spec fn found_targets(
    root: PathView,
    observations: Seq<ObservationView>,
) -> Seq<CandidateView>
    decreases observations.len(),
{
    if observations.len() == 0 {
        Seq::empty()
    } else {
        let earlier = found_targets(root, observations.drop_last());
        match observations.last() {
            ObservationView::Target { target, canonical, location } if root.names().is_prefix_of(
                canonical.names(),
            ) => earlier.push(
                CandidateView {
                    priority: target.priority,
                    path: target.path,
                    location,
                    kind: target.kind,
                },
            ),
            _ => earlier,
        }
    }
}

/// Whether the `i`-th of the found project docs speaks for its directory: none in
/// that directory has a lower rank, and none before it has the same.
pub open spec fn speaks_for_directory(found: Seq<CandidateView>, i: int) -> bool {
    &&& 0 <= i < found.len()
    &&& forall|j: int|
        0 <= j < found.len() && parent_of(#[trigger] found[j].path.names()) == parent_of(found[i].path.names())
            ==> found[i].priority < found[j].priority || (found[i].priority == found[j].priority
            && i <= j)
}

/// Whether the candidates are the docs that speak for their directories, in the
/// order of their paths, each once.
pub open spec fn is_selection(
    found: Seq<CandidateView>,
    candidates: Seq<CandidateView>,
) -> bool {
    &&& forall|i: int, j: int|
        0 <= i < j < candidates.len() ==> #[trigger] path_order()(
            candidates[i].path.names(),
            candidates[j].path.names(),
        )
    &&& forall|candidate: CandidateView| #[trigger]
        candidates.contains(candidate) <==> exists|i: int| #[trigger]
            speaks_for_directory(found, i) && found[i] == candidate
}

/// The tree entries of candidates.
pub open spec fn candidate_entries(candidates: Seq<CandidateView>) -> Seq<TreeEntryView> {
    candidates.map_values(|candidate: CandidateView| entry_at(candidate.path, candidate.kind))
}

/// Whether entries and candidates are the listing of what was observed below
/// `root`: the candidates speak for their directories, and the entries are the
/// directories and the candidates, in the order of their paths.
pub open spec fn is_listing(
    root: PathView,
    observations: Seq<ObservationView>,
    entries: Seq<TreeEntryView>,
    candidates: Seq<CandidateView>,
) -> bool {
    &&& is_selection(found_targets(root, observations), candidates)
    &&& ascending::<TreeEntry>(entries)
    &&& entries.to_multiset() == (found_directories(observations) + candidate_entries(
        candidates,
    )).to_multiset()
}

/// The entries of the tree, and the files that are to be read for it.
#[derive(Clone, Debug)]
pub struct TreeListing {
    pub entries: Vec<TreeEntry>,
    pub candidates: Vec<SummaryTargetCandidate>,
}

/// What holds of the docs kept so far: each speaks for its directory, and every
/// directory of a found doc has one.
spec fn kept_well(
    found: Seq<CandidateView>,
    kept: Seq<CandidateView>,
    places: Seq<int>,
) -> bool {
    &&& kept.len() == places.len()
    &&& forall|k: int|
        0 <= k < kept.len() ==> speaks_for_directory(found, #[trigger] places[k]) && kept[k]
            == found[places[k]]
    &&& forall|k: int, l: int|
        0 <= k < l < kept.len() ==> parent_of(#[trigger] kept[k].path.names()) != parent_of(
            #[trigger] kept[l].path.names(),
        )
    &&& forall|j: int|
        0 <= j < found.len() ==> has_doc(kept, parent_of(#[trigger] found[j].path.names()))
}

/// Whether one of the docs lies in the directory.
spec fn has_doc(kept: Seq<CandidateView>, directory: Seq<PartName>) -> bool {
    exists|k: int| 0 <= k < kept.len() && parent_of((#[trigger] kept[k]).path.names()) == directory
}

proof fn lemma_keep_new(
    found: Seq<CandidateView>,
    kept: Seq<CandidateView>,
    places: Seq<int>,
    candidate: CandidateView,
)
    requires
        kept_well(found, kept, places),
        forall|k: int|
            0 <= k < kept.len() ==> parent_of(#[trigger] kept[k].path.names()) != parent_of(
                candidate.path.names(),
            ),
    ensures
        kept_well(
            found.push(candidate),
            kept.push(candidate),
            places.push(found.len() as int),
        ),
{
    let found_now = found.push(candidate);
    let kept_now = kept.push(candidate);
    let places_now = places.push(found.len() as int);
    assert forall|j: int| 0 <= j < found.len() implies parent_of(#[trigger] found[j].path.names())
        != parent_of(candidate.path.names()) by {
        assert(has_doc(kept, parent_of(found[j].path.names())));
    }
    assert forall|k: int| 0 <= k < kept_now.len() implies speaks_for_directory(
        found_now,
        #[trigger] places_now[k],
    ) && kept_now[k] == found_now[places_now[k]] by {
        if k < kept.len() {
            assert(speaks_for_directory(found, places[k]));
            assert(kept[k] == found[places[k]]);
            let i = places[k];
            assert forall|j: int|
                0 <= j < found_now.len() && parent_of(#[trigger] found_now[j].path.names()) == parent_of(
                    found_now[i].path.names(),
                ) implies found_now[i].priority < found_now[j].priority || (
            found_now[i].priority == found_now[j].priority && i <= j) by {
                if j < found.len() {
                    assert(found[j] == found_now[j]);
                }
            }
        } else {
            let i = found.len() as int;
            assert forall|j: int|
                0 <= j < found_now.len() && parent_of(#[trigger] found_now[j].path.names()) == parent_of(
                    found_now[i].path.names(),
                ) implies found_now[i].priority < found_now[j].priority || (
            found_now[i].priority == found_now[j].priority && i <= j) by {
                if j < found.len() {
                    assert(found[j] == found_now[j]);
                }
            }
        }
    }
    assert forall|j: int| 0 <= j < found_now.len() implies has_doc(
        kept_now,
        parent_of(#[trigger] found_now[j].path.names()),
    ) by {
        if j < found.len() {
            assert(found[j] == found_now[j]);
            assert(has_doc(kept, parent_of(found[j].path.names())));
            let k = choose|k: int|
                0 <= k < kept.len() && parent_of((#[trigger] kept[k]).path.names()) == parent_of(
                    found[j].path.names(),
                );
            assert(kept_now[k] == kept[k]);
        } else {
            assert(kept_now[kept.len() as int] == candidate);
        }
    }
    assert forall|k: int, l: int| 0 <= k < l < kept_now.len() implies parent_of(
        #[trigger] kept_now[k].path.names(),
    ) != parent_of(#[trigger] kept_now[l].path.names()) by {
        assert(kept_now[k] == kept[k]);
        if l < kept.len() {
            assert(kept_now[l] == kept[l]);
        }
    }
}

proof fn lemma_keep_old(
    found: Seq<CandidateView>,
    kept: Seq<CandidateView>,
    places: Seq<int>,
    candidate: CandidateView,
    at: int,
)
    requires
        kept_well(found, kept, places),
        0 <= at < kept.len(),
        parent_of(kept[at].path.names()) == parent_of(candidate.path.names()),
        kept[at].priority <= candidate.priority,
    ensures
        kept_well(found.push(candidate), kept, places),
{
    let found_now = found.push(candidate);
    assert forall|k: int| 0 <= k < kept.len() implies speaks_for_directory(
        found_now,
        #[trigger] places[k],
    ) && kept[k] == found_now[places[k]] by {
        assert(speaks_for_directory(found, places[k]));
        assert(kept[k] == found[places[k]]);
        let i = places[k];
        assert forall|j: int|
            0 <= j < found_now.len() && parent_of(#[trigger] found_now[j].path.names()) == parent_of(
                found_now[i].path.names(),
            ) implies found_now[i].priority < found_now[j].priority || (found_now[i].priority
            == found_now[j].priority && i <= j) by {
            if j < found.len() {
                assert(found[j] == found_now[j]);
            } else {
                assert(parent_of(kept[k].path.names()) == parent_of(kept[at].path.names()));
                assert(k == at);
            }
        }
    }
    assert forall|j: int| 0 <= j < found_now.len() implies has_doc(
        kept,
        parent_of(#[trigger] found_now[j].path.names()),
    ) by {
        if j < found.len() {
            assert(found[j] == found_now[j]);
            assert(has_doc(kept, parent_of(found[j].path.names())));
        } else {
            assert(parent_of(kept[at].path.names()) == parent_of(found_now[j].path.names()));
        }
    }
}

proof fn lemma_keep_instead(
    found: Seq<CandidateView>,
    kept: Seq<CandidateView>,
    places: Seq<int>,
    candidate: CandidateView,
    at: int,
)
    requires
        kept_well(found, kept, places),
        0 <= at < kept.len(),
        parent_of(kept[at].path.names()) == parent_of(candidate.path.names()),
        candidate.priority < kept[at].priority,
    ensures
        kept_well(
            found.push(candidate),
            kept.update(at, candidate),
            places.update(at, found.len() as int),
        ),
{
    let found_now = found.push(candidate);
    let kept_now = kept.update(at, candidate);
    let places_now = places.update(at, found.len() as int);
    assert(speaks_for_directory(found, places[at]));
    assert(kept[at] == found[places[at]]);
    assert forall|k: int| 0 <= k < kept_now.len() implies speaks_for_directory(
        found_now,
        #[trigger] places_now[k],
    ) && kept_now[k] == found_now[places_now[k]] by {
        let i = places_now[k];
        if k != at {
            assert(speaks_for_directory(found, places[k]));
            assert(kept[k] == found[places[k]]);
            assert(parent_of(kept[k].path.names()) != parent_of(kept[at].path.names()));
        }
        assert forall|j: int|
            0 <= j < found_now.len() && parent_of(#[trigger] found_now[j].path.names()) == parent_of(
                found_now[i].path.names(),
            ) implies found_now[i].priority < found_now[j].priority || (found_now[i].priority
            == found_now[j].priority && i <= j) by {
            if j < found.len() {
                assert(found[j] == found_now[j]);
            }
        }
    }
    assert forall|k: int, l: int| 0 <= k < l < kept_now.len() implies parent_of(
        #[trigger] kept_now[k].path.names(),
    ) != parent_of(#[trigger] kept_now[l].path.names()) by {
        assert(parent_of(kept[k].path.names()) != parent_of(kept[l].path.names()));
    }
    assert forall|j: int| 0 <= j < found_now.len() implies has_doc(
        kept_now,
        parent_of(#[trigger] found_now[j].path.names()),
    ) by {
        if j < found.len() {
            assert(found[j] == found_now[j]);
            assert(has_doc(kept, parent_of(found[j].path.names())));
            let k = choose|k: int|
                0 <= k < kept.len() && parent_of((#[trigger] kept[k]).path.names()) == parent_of(
                    found[j].path.names(),
                );
            assert(parent_of(kept_now[k].path.names()) == parent_of(kept[k].path.names()));
        } else {
            assert(kept_now[at] == candidate);
        }
    }
}

/// Looks for the kept doc of the directory in which `path` lies.
fn find_kept(kept: &Vec<SummaryTargetCandidate>, path: &TreePath) -> (result: Option<usize>)
    ensures
        result matches Some(at) ==> at < kept.len() && parent_of(views(kept@)[at as int].path.names())
            == parent_of(path@.names()),
        result is None ==> forall|k: int|
            0 <= k < kept.len() ==> parent_of(#[trigger] views(kept@)[k].path.names()) != parent_of(
                path@.names(),
            ),
{
    let mut i: usize = 0;
    while i < kept.len()
        invariant
            i <= kept.len(),
            forall|k: int|
                0 <= k < i ==> parent_of(#[trigger] views(kept@)[k].path.names()) != parent_of(path@.names()),
        decreases kept.len() - i,
    {
        if kept[i].relative_path.same_directory(path) {
            assert(views(kept@)[i as int].path == kept@[i as int].relative_path@);
            return Some(i);
        }
        assert(views(kept@)[i as int].path == kept@[i as int].relative_path@);
        i = i + 1;
    }
    None
}

/// Keeps a doc if it speaks for its directory.
fn keep_best(
    kept: &mut Vec<SummaryTargetCandidate>,
    candidate: SummaryTargetCandidate,
    Ghost(found): Ghost<Seq<CandidateView>>,
    Ghost(places): Ghost<Seq<int>>,
) -> (places_now: Ghost<Seq<int>>)
    requires
        kept_well(found, views(old(kept)@), places),
    ensures
        kept_well(found.push(candidate@), views(final(kept)@), places_now@),
{
    let ghost before = views(kept@);
    match find_kept(kept, &candidate.relative_path) {
        None => {
            proof {
                lemma_keep_new(found, before, places, candidate@);
                assert(views(kept@.push(candidate)) =~= before.push(candidate@));
            }
            kept.push(candidate);
            Ghost(places.push(found.len() as int))
        },
        Some(at) => {
            if candidate.priority < kept[at].priority {
                proof {
                    lemma_keep_instead(found, before, places, candidate@, at as int);
                    assert(views(kept@.update(at as int, candidate)) =~= before.update(
                        at as int,
                        candidate@,
                    ));
                }
                kept[at] = candidate;
                Ghost(places.update(at as int, found.len() as int))
            } else {
                proof {
                    lemma_keep_old(found, before, places, candidate@, at as int);
                }
                Ghost(places)
            }
        },
    }
}

/// Sorting the kept docs by path gives the selection.
proof fn lemma_sorted_is_selection(
    found: Seq<CandidateView>,
    kept: Seq<CandidateView>,
    places: Seq<int>,
    candidates: Seq<CandidateView>,
)
    requires
        kept_well(found, kept, places),
        ascending::<SummaryTargetCandidate>(candidates),
        candidates.to_multiset() == kept.to_multiset(),
    ensures
        is_selection(found, candidates),
{
    kept.to_multiset_ensures();
    candidates.to_multiset_ensures();
    assert forall|k: int, l: int|
        0 <= k < kept.len() && 0 <= l < kept.len() && k != l implies kept[k] != kept[l] by {
        if k < l {
            assert(parent_of(kept[k].path.names()) != parent_of(kept[l].path.names()));
        } else {
            assert(parent_of(kept[l].path.names()) != parent_of(kept[k].path.names()));
        }
    }
    kept.lemma_multiset_has_no_duplicates();
    candidates.lemma_multiset_has_no_duplicates_conv();
    assert forall|candidate: CandidateView|
        candidates.contains(candidate) == #[trigger] kept.contains(candidate) by {
        assert(kept.to_multiset().count(candidate) > 0 <==> kept.contains(candidate));
        assert(candidates.to_multiset().count(candidate) > 0 <==> candidates.contains(candidate));
    }
    assert forall|i: int, j: int| 0 <= i < j < candidates.len() implies #[trigger] path_order()(
        candidates[i].path.names(),
        candidates[j].path.names(),
    ) by {
        crate::order::path_order_is_strict_and_total();
        assert(crate::sort::not_after::<SummaryTargetCandidate>(candidates[i], candidates[j]));
        let lt = path_order();
        if candidates[i].path.names() == candidates[j].path.names() {
            assert(candidates.contains(candidates[i]) && candidates.contains(candidates[j]));
            assert(kept.contains(candidates[i]) && kept.contains(candidates[j]));
            let k = kept.index_of(candidates[i]);
            let l = kept.index_of(candidates[j]);
            assert(k != l);
            if k < l {
                assert(parent_of(kept[k].path.names()) != parent_of(kept[l].path.names()));
            } else {
                assert(parent_of(kept[l].path.names()) != parent_of(kept[k].path.names()));
            }
        }
        assert(lt(candidates[i].path.names(), candidates[j].path.names()) || lt(
            candidates[j].path.names(),
            candidates[i].path.names(),
        ));
    }
    assert forall|candidate: CandidateView| #[trigger] candidates.contains(candidate) implies exists|
        i: int,
    | #[trigger] speaks_for_directory(found, i) && found[i] == candidate by {
        assert(kept.contains(candidate));
        let k = kept.index_of(candidate);
        assert(speaks_for_directory(found, places[k]) && kept[k] == found[places[k]]);
    }
    assert forall|candidate: CandidateView|
        (exists|i: int| #[trigger] speaks_for_directory(found, i) && found[i] == candidate)
        implies #[trigger] candidates.contains(candidate) by {
        let i = choose|i: int| #[trigger]
            speaks_for_directory(found, i) && found[i] == candidate;
        assert(has_doc(kept, parent_of(found[i].path.names())));
        let k = choose|k: int|
            0 <= k < kept.len() && parent_of((#[trigger] kept[k]).path.names()) == parent_of(
                found[i].path.names(),
            );
        let other = places[k];
        assert(speaks_for_directory(found, other) && kept[k] == found[other]);
        assert(i == other) by {
            assert(parent_of(found[other].path.names()) == parent_of(found[i].path.names()));
        }
        assert(kept[k] == candidate);
        assert(kept.contains(candidate));
    }
}

/// Makes the listing of what a walk observed: one project doc for each directory
/// that has any below `canonical_root`, and the entries for the directories and
/// those docs.
pub fn list_tree(canonical_root: &TreePath, observations: &Vec<Observation>) -> (result:
    TreeListing)
    ensures
        is_listing(
            canonical_root@,
            views(observations@),
            views(result.entries@),
            views(result.candidates@),
        ),
{
    let mut entries: Vec<TreeEntry> = Vec::new();
    let mut kept: Vec<SummaryTargetCandidate> = Vec::new();
    let ghost seen = views(observations@);
    let ghost mut found: Seq<CandidateView> = Seq::empty();
    let ghost mut places: Seq<int> = Seq::empty();
    let mut i: usize = 0;
    assert(seen.take(0) =~= Seq::empty());
    assert(views(entries@) =~= found_directories(seen.take(0)));
    while i < observations.len()
        invariant
            i <= observations.len(),
            seen == views(observations@),
            found == found_targets(canonical_root@, seen.take(i as int)),
            views(entries@) == found_directories(seen.take(i as int)),
            kept_well(found, views(kept@), places),
        decreases observations.len() - i,
    {
        proof {
            assert(seen.take(i + 1).drop_last() =~= seen.take(i as int));
            assert(seen.take(i + 1).last() == observations@[i as int]@);
        }
        match &observations[i] {
            Observation::Directory(entry) => {
                let ghost before = views(entries@);
                let copied = TreeEntry {
                    relative_path: entry.relative_path.copy(),
                    depth: entry.depth,
                    kind: entry.kind,
                };
                assert(copied@ == entry@);
                entries.push(copied);
                assert(views(entries@) =~= before.push(entry@));
            },
            Observation::Target { target, canonical, location } => {
                if canonical.starts_with(canonical_root) {
                    let candidate = SummaryTargetCandidate {
                        priority: target.priority,
                        relative_path: target.relative_path.copy(),
                        location: *location,
                        kind: target.kind,
                    };
                    let ghost found_now = found.push(candidate@);
                    let Ghost(places_now) = keep_best(
                        &mut kept,
                        candidate,
                        Ghost(found),
                        Ghost(places),
                    );
                    proof {
                        found = found_now;
                        places = places_now;
                    }
                }
            },
        }
        i = i + 1;
    }
    assert(seen.take(i as int) =~= seen);
    let candidates = sort(kept);
    proof {
        lemma_sorted_is_selection(found, views(kept@), places, views(candidates@));
    }
    let ghost directories = views(entries@);
    let mut k: usize = 0;
    assert(directories + candidate_entries(views(candidates@).take(0)) =~= directories);
    while k < candidates.len()
        invariant
            k <= candidates.len(),
            views(entries@) == directories + candidate_entries(
                views(candidates@).take(k as int),
            ),
        decreases candidates.len() - k,
    {
        let ghost before = views(entries@);
        let relative_path = candidates[k].relative_path.copy();
        let depth: usize = relative_path.depth();
        let entry = TreeEntry { relative_path, depth, kind: candidates[k].kind };
        entries.push(entry);
        proof {
            let next = views(candidates@).take(k + 1);
            assert(next =~= views(candidates@).take(k as int).push(candidates@[k as int]@));
            assert(views(entries@) =~= before.push(entry@));
            assert(candidate_entries(next) =~= candidate_entries(
                views(candidates@).take(k as int),
            ).push(entry@));
            assert(views(entries@) =~= directories + candidate_entries(next));
        }
        k = k + 1;
    }
    assert(views(candidates@).take(k as int) =~= views(candidates@));
    let entries = sort(entries);
    TreeListing { entries, candidates }
}

/// A project doc that is to be summarized.
#[derive(Clone, Debug)]
pub struct SummaryTarget {
    pub relative_path: String,
    pub contents: String,
}

/// What a [`SummaryTarget`] says.
pub struct SummaryTargetView {
    pub path: Seq<char>,
    pub contents: Seq<char>,
}

impl View for SummaryTarget {
    type V = SummaryTargetView;

    open spec fn view(&self) -> SummaryTargetView {
        SummaryTargetView { path: self.relative_path@, contents: self.contents@ }
    }
}

impl Keyed for SummaryTarget {
    type Key = Seq<char>;

    open spec fn key(value: SummaryTargetView) -> Seq<char> {
        value.path
    }

    open spec fn order() -> spec_fn(Seq<char>, Seq<char>) -> bool {
        text_order()
    }

    proof fn order_is_strict_and_total() {
        crate::order::text_order_is_strict_and_total();
    }

    fn precedes(&self, other: &SummaryTarget) -> (result: bool) {
        crate::order::text_precedes(self.relative_path.as_str(), other.relative_path.as_str())
    }
}

/// The tree: its entries, and the project docs in it with their contents.
#[derive(Clone, Debug)]
pub struct DiscoveryTree {
    pub entries: Vec<TreeEntry>,
    pub summary_targets: Vec<SummaryTarget>,
}

/// The project docs of candidates, given the bytes that each of them holds.
pub open spec fn targets_of(
    candidates: Seq<CandidateView>,
    contents: Seq<Seq<u8>>,
) -> Seq<SummaryTargetView> {
    Seq::new(
        candidates.len(),
        |i: int|
            SummaryTargetView {
                path: path_text(candidates[i].path),
                contents: text_of_bytes(contents[i]),
            },
    )
}

/// Makes the tree of a listing and the bytes read for each of its candidates: the
/// docs stand in the order of their paths as text.
pub fn discover_tree(listing: TreeListing, contents: &Vec<Vec<u8>>) -> (tree: DiscoveryTree)
    requires
        contents.len() == listing.candidates.len(),
    ensures
        tree.entries == listing.entries,
        ascending::<SummaryTarget>(views(tree.summary_targets@)),
        views(tree.summary_targets@).to_multiset() == targets_of(
            views(listing.candidates@),
            views(contents@),
        ).to_multiset(),
{
    let mut targets: Vec<SummaryTarget> = Vec::new();
    let ghost all = targets_of(views(listing.candidates@), views(contents@));
    let mut i: usize = 0;
    assert(views(targets@) =~= all.take(0));
    while i < listing.candidates.len()
        invariant
            i <= listing.candidates.len(),
            contents.len() == listing.candidates.len(),
            all == targets_of(views(listing.candidates@), views(contents@)),
            views(targets@) == all.take(i as int),
        decreases listing.candidates.len() - i,
    {
        let ghost before = views(targets@);
        let target = SummaryTarget {
            relative_path: relative_path_text(&listing.candidates[i].relative_path),
            contents: from_utf8_lossy(contents[i].as_slice()),
        };
        targets.push(target);
        proof {
            assert(target@ == all[i as int]);
            assert(views(targets@) =~= before.push(target@));
            assert(all.take(i + 1) =~= all.take(i as int).push(all[i as int]));
        }
        i = i + 1;
    }
    assert(all.take(i as int) =~= all);
    let summary_targets = sort(targets);
    DiscoveryTree { entries: listing.entries, summary_targets }
}

} // verus!
