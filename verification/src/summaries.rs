//! The summaries of project docs, as a reply gives them and as they are kept.

use vstd::prelude::*;
use vstd::string::*;

use crate::text::{same_text, texts};

verus! {

/// The longest accepted `why`, in characters.
pub const MAX_SUMMARY_WHY_CHARS: usize = 160;

/// The longest accepted `when`, in characters.
pub const MAX_SUMMARY_WHEN_CHARS: usize = 160;

/// What is said of one project doc: what guidance it gives, and when to read it.
#[derive(Clone, Debug)]
pub struct AgentsSummary {
    pub why: String,
    pub when: String,
}

/// What an [`AgentsSummary`] says.
pub struct SummaryView {
    pub why: Seq<char>,
    pub when: Seq<char>,
}

impl View for AgentsSummary {
    type V = SummaryView;

    open spec fn view(&self) -> SummaryView {
        SummaryView { why: self.why@, when: self.when@ }
    }
}

/// One summary of a reply.
#[derive(Clone, Debug)]
pub struct AgentsSummaryItem {
    pub path: String,
    pub why: String,
    pub when: String,
}

/// What an [`AgentsSummaryItem`] says.
pub struct ItemView {
    pub path: Seq<char>,
    pub why: Seq<char>,
    pub when: Seq<char>,
}

impl View for AgentsSummaryItem {
    type V = ItemView;

    open spec fn view(&self) -> ItemView {
        ItemView { path: self.path@, why: self.why@, when: self.when@ }
    }
}

/// A reply: the summaries that it gives.
#[derive(Clone, Debug)]
pub struct AgentsSummariesResponse {
    pub summaries: Vec<AgentsSummaryItem>,
}

/// Summaries by path. No path has two.
#[derive(Debug)]
pub struct Summaries {
    entries: Vec<(String, AgentsSummary)>,
}

/// Whether no path occurs twice.
spec fn distinct_paths(entries: Seq<(String, AgentsSummary)>) -> bool {
    forall|i: int, j: int|
        0 <= i < j < entries.len() ==> (#[trigger] entries[i]).0@ != (#[trigger] entries[j]).0@
}

/// The summaries of a list by path.
spec fn by_path(entries: Seq<(String, AgentsSummary)>) -> Map<Seq<char>, SummaryView>
    decreases entries.len(),
{
    if entries.len() == 0 {
        Map::empty()
    } else {
        by_path(entries.drop_last()).insert(entries.last().0@, entries.last().1@)
    }
}

proof fn lemma_by_path(entries: Seq<(String, AgentsSummary)>)
    requires
        distinct_paths(entries),
    ensures
        forall|i: int|
            0 <= i < entries.len() ==> by_path(entries).contains_key(
                (#[trigger] entries[i]).0@,
            ) && by_path(entries)[entries[i].0@] == entries[i].1@,
        forall|path: Seq<char>| #[trigger]
            by_path(entries).contains_key(path) ==> exists|i: int|
                0 <= i < entries.len() && (#[trigger] entries[i]).0@ == path,
    decreases entries.len(),
{
    if entries.len() > 0 {
        let earlier = entries.drop_last();
        lemma_by_path(earlier);
        assert forall|i: int| 0 <= i < entries.len() implies by_path(entries).contains_key(
            (#[trigger] entries[i]).0@,
        ) && by_path(entries)[entries[i].0@] == entries[i].1@ by {
            if i < earlier.len() {
                assert(earlier[i] == entries[i]);
                assert(entries[i].0@ != entries[entries.len() - 1].0@);
            }
        }
        assert forall|path: Seq<char>| #[trigger]
            by_path(entries).contains_key(path) implies exists|i: int|
            0 <= i < entries.len() && (#[trigger] entries[i]).0@ == path by {
            if path == entries.last().0@ {
                assert(entries[entries.len() - 1].0@ == path);
            } else {
                assert(by_path(earlier).contains_key(path));
                let i = choose|i: int|
                    0 <= i < earlier.len() && (#[trigger] earlier[i]).0@ == path;
                assert(entries[i].0@ == path);
            }
        }
    }
}

impl View for Summaries {
    type V = Map<Seq<char>, SummaryView>;

    closed spec fn view(&self) -> Map<Seq<char>, SummaryView> {
        by_path(self.entries@)
    }
}

impl Summaries {
    /// No path has two summaries.
    #[verifier::type_invariant]
    spec fn well_formed(self) -> bool {
        distinct_paths(self.entries@)
    }

    /// No summaries.
    pub fn new() -> (result: Summaries)
        ensures
            result@ == Map::<Seq<char>, SummaryView>::empty(),
    {
        Summaries { entries: Vec::new() }
    }

    /// The place of a path among the entries.
    fn find(&self, path: &str) -> (result: Option<usize>)
        ensures
            result matches Some(at) ==> at < self.entries@.len() && self.entries@[at as int].0@
                == path@,
            result is None ==> !self@.contains_key(path@),
    {
        let mut i: usize = 0;
        while i < self.entries.len()
            invariant
                i <= self.entries.len(),
                forall|j: int| 0 <= j < i ==> (#[trigger] self.entries@[j]).0@ != path@,
            decreases self.entries.len() - i,
        {
            if same_text(self.entries[i].0.as_str(), path) {
                return Some(i);
            }
            i = i + 1;
        }
        proof {
            use_type_invariant(self);
            lemma_by_path(self.entries@);
        }
        None
    }

    /// The summary of a path.
    pub fn get(&self, path: &str) -> (result: Option<&AgentsSummary>)
        ensures
            result is Some == self@.contains_key(path@),
            result matches Some(summary) ==> summary@ == self@[path@],
    {
        proof {
            use_type_invariant(self);
            lemma_by_path(self.entries@);
        }
        match self.find(path) {
            Some(at) => Some(&self.entries[at].1),
            None => None,
        }
    }

    /// Whether a path has a summary.
    pub fn contains_key(&self, path: &str) -> (result: bool)
        ensures
            result == self@.contains_key(path@),
    {
        self.get(path).is_some()
    }

    /// Gives a path a summary; one that it had gives way.
    pub fn insert(&mut self, path: String, summary: AgentsSummary)
        ensures
            final(self)@ == old(self)@.insert(path@, summary@),
    {
        proof {
            use_type_invariant(&*self);
            lemma_by_path(self.entries@);
        }
        let place = self.find(path.as_str());
        let mut entries: Vec<(String, AgentsSummary)> = Vec::new();
        std::mem::swap(&mut entries, &mut self.entries);
        let ghost before = entries@;
        match place {
            Some(at) => {
                let ghost now = before.update(at as int, (path, summary));
                entries[at] = (path, summary);
                proof {
                    assert(entries@ =~= now);
                    assert(distinct_paths(now)) by {
                        assert forall|i: int, j: int| 0 <= i < j < now.len() implies (
                        #[trigger] now[i]).0@ != (#[trigger] now[j]).0@ by {
                            assert(before[i].0@ != before[j].0@);
                        }
                    }
                    lemma_by_path(now);
                    assert(by_path(now) =~= by_path(before).insert(path@, summary@)) by {
                        assert forall|key: Seq<char>|
                            by_path(now).contains_key(key) == #[trigger] by_path(before).insert(
                            path@,
                            summary@,
                        ).contains_key(key) by {
                            if by_path(now).contains_key(key) {
                                let i = choose|i: int|
                                    0 <= i < now.len() && (#[trigger] now[i]).0@ == key;
                                assert(before[i].0@ == key);
                            }
                            if by_path(before).contains_key(key) {
                                let i = choose|i: int|
                                    0 <= i < before.len() && (#[trigger] before[i]).0@ == key;
                                assert(now[i].0@ == key);
                            }
                            assert(now[at as int].0@ == path@);
                        }
                        assert forall|key: Seq<char>| #[trigger]
                            by_path(now).contains_key(key) implies by_path(now)[key] == by_path(
                            before,
                        ).insert(path@, summary@)[key] by {
                            let i = choose|i: int|
                                0 <= i < now.len() && (#[trigger] now[i]).0@ == key;
                            assert(now[i].0@ == before[i].0@);
                            if i != at {
                                assert(key != path@) by {
                                    if i < at {
                                        assert(before[i].0@ != before[at as int].0@);
                                    } else {
                                        assert(before[at as int].0@ != before[i].0@);
                                    }
                                }
                            }
                        }
                    }
                }
            },
            None => {
                entries.push((path, summary));
                proof {
                    let now = entries@;
                    assert(now.drop_last() =~= before);
                    assert(distinct_paths(now)) by {
                        assert forall|i: int, j: int| 0 <= i < j < now.len() implies (
                        #[trigger] now[i]).0@ != (#[trigger] now[j]).0@ by {
                            assert(before[i] == now[i]);
                            if j < before.len() {
                                assert(before[j] == now[j]);
                            } else {
                                assert(by_path(before).contains_key(before[i].0@));
                            }
                        }
                    }
                }
            },
        }
        self.entries = entries;
    }

    /// The paths that have summaries.
    pub fn paths(&self) -> (result: Vec<String>)
        ensures
            texts(result@).to_set() == self@.dom(),
            texts(result@).no_duplicates(),
    {
        let mut result: Vec<String> = Vec::new();
        let mut i: usize = 0;
        while i < self.entries.len()
            invariant
                i <= self.entries.len(),
                result.len() == i,
                forall|j: int| 0 <= j < i ==> (#[trigger] result@[j])@ == self.entries@[j].0@,
            decreases self.entries.len() - i,
        {
            result.push(self.entries[i].0.clone());
            i = i + 1;
        }
        proof {
            use_type_invariant(self);
            lemma_by_path(self.entries@);
            let names = texts(result@);
            assert forall|k: int| 0 <= k < names.len() implies #[trigger] names[k]
                == self.entries@[k].0@ by {
                assert(result@[k]@ == self.entries@[k].0@);
            }
            assert forall|path: Seq<char>| names.to_set().contains(path) == #[trigger] self@.dom().contains(path) by {
                if names.contains(path) {
                    let k = names.index_of(path);
                    assert(self.entries@[k].0@ == path);
                }
                if self@.contains_key(path) {
                    let k = choose|k: int|
                        0 <= k < self.entries@.len() && (#[trigger] self.entries@[k]).0@ == path;
                    assert(names[k] == path);
                }
            }
            assert(names.to_set() =~= self@.dom());
            assert forall|k: int, l: int|
                0 <= k < names.len() && 0 <= l < names.len() && k != l implies names[k]
                != names[l] by {
                if k < l {
                    assert(self.entries@[k].0@ != self.entries@[l].0@);
                } else {
                    assert(self.entries@[l].0@ != self.entries@[k].0@);
                }
            }
        }
        result
    }
}

} // verus!
