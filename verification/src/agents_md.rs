//! The file names under which project docs are looked for.

use vstd::prelude::*;
use vstd::string::*;

use crate::text::same_text;

verus! {

/// Default filename scanned for project-level docs.
pub const DEFAULT_PROJECT_DOC_FILENAME: &'static str = "AGENTS.md";

/// Preferred local override for project-level docs.
pub const LOCAL_PROJECT_DOC_FILENAME: &'static str = "AGENTS.override.md";

/// The rank of a file name among the project docs of one directory: the lower,
/// the more preferred. Other files have none.
pub open spec fn priority_of(file_name: Seq<char>) -> Option<u8> {
    if file_name == LOCAL_PROJECT_DOC_FILENAME@ {
        Some(0)
    } else if file_name == DEFAULT_PROJECT_DOC_FILENAME@ {
        Some(1)
    } else {
        None
    }
}

/// Ranks a file name among the project docs of one directory.
pub fn filename_priority(file_name: &str) -> (result: Option<u8>)
    ensures
        result == priority_of(file_name@),
{
    if same_text(file_name, LOCAL_PROJECT_DOC_FILENAME) {
        Some(0)
    } else if same_text(file_name, DEFAULT_PROJECT_DOC_FILENAME) {
        Some(1)
    } else {
        None
    }
}

/// The two standard names, then each fallback that is neither empty nor named
/// before.
pub open spec fn candidate_names(fallbacks: Seq<Seq<char>>) -> Seq<Seq<char>>
    decreases fallbacks.len(),
{
    if fallbacks.len() == 0 {
        seq![LOCAL_PROJECT_DOC_FILENAME@, DEFAULT_PROJECT_DOC_FILENAME@]
    } else {
        let names = candidate_names(fallbacks.drop_last());
        if fallbacks.last().len() == 0 || names.contains(fallbacks.last()) {
            names
        } else {
            names.push(fallbacks.last())
        }
    }
}

/// The characters of each slice of a list.
pub open spec fn names_of(names: Seq<&str>) -> Seq<Seq<char>> {
    names.map_values(|name: &str| name@)
}

/// The file names to look for in a directory, in the order in which they are
/// preferred.
pub fn candidate_filenames<'a>(fallback_filenames: &'a [String]) -> (names: Vec<&'a str>)
    ensures
        names_of(names@) == candidate_names(crate::text::texts(fallback_filenames@)),
{
    let mut names: Vec<&'a str> = Vec::new();
    names.push(LOCAL_PROJECT_DOC_FILENAME);
    names.push(DEFAULT_PROJECT_DOC_FILENAME);
    let ghost fallbacks = crate::text::texts(fallback_filenames@);
    assert(names_of(names@) =~= candidate_names(fallbacks.take(0)));
    let mut i: usize = 0;
    while i < fallback_filenames.len()
        invariant
            i <= fallback_filenames.len(),
            fallbacks == crate::text::texts(fallback_filenames@),
            names_of(names@) == candidate_names(fallbacks.take(i as int)),
        decreases fallback_filenames.len() - i,
    {
        let candidate = fallback_filenames[i].as_str();
        let known = contains_name(&names, candidate);
        proof {
            assert(fallbacks.take(i + 1).drop_last() =~= fallbacks.take(i as int));
            assert(fallbacks.take(i + 1).last() == candidate@);
        }
        if !candidate.is_empty() && !known {
            let ghost before = names@;
            names.push(candidate);
            assert(names_of(names@) =~= names_of(before).push(candidate@));
        }
        i = i + 1;
    }
    assert(fallbacks.take(i as int) =~= fallbacks);
    names
}

/// Whether a name is on a list.
fn contains_name(names: &Vec<&str>, name: &str) -> (result: bool)
    ensures
        result == names_of(names@).contains(name@),
{
    let mut i: usize = 0;
    while i < names.len()
        invariant
            i <= names.len(),
            forall|j: int| 0 <= j < i ==> names_of(names@)[j] != name@,
        decreases names.len() - i,
    {
        if same_text(names[i], name) {
            assert(names_of(names@)[i as int] == name@);
            return true;
        }
        i = i + 1;
    }
    false
}

/// No name is looked for twice, and none is empty.
pub proof fn candidate_names_are_distinct(fallbacks: Seq<Seq<char>>)
    ensures
        candidate_names(fallbacks).no_duplicates(),
        forall|i: int|
            0 <= i < candidate_names(fallbacks).len() ==> #[trigger] candidate_names(
                fallbacks,
            )[i].len() > 0,
    decreases fallbacks.len(),
{
    reveal_strlit("AGENTS.md");
    reveal_strlit("AGENTS.override.md");
    assert(DEFAULT_PROJECT_DOC_FILENAME@.len() != LOCAL_PROJECT_DOC_FILENAME@.len());
    if fallbacks.len() > 0 {
        candidate_names_are_distinct(fallbacks.drop_last());
    }
}

/// What is looked for is the two standard names and the fallbacks that are not
/// empty, nothing else.
pub proof fn candidate_names_are_the_standard_ones_and_the_fallbacks(
    fallbacks: Seq<Seq<char>>,
    name: Seq<char>,
)
    ensures
        candidate_names(fallbacks).contains(name) <==> {
            ||| name == LOCAL_PROJECT_DOC_FILENAME@
            ||| name == DEFAULT_PROJECT_DOC_FILENAME@
            ||| name.len() > 0 && fallbacks.contains(name)
        },
    decreases fallbacks.len(),
{
    let names = candidate_names(fallbacks);
    if fallbacks.len() == 0 {
        assert(names[0] == LOCAL_PROJECT_DOC_FILENAME@);
        assert(names[1] == DEFAULT_PROJECT_DOC_FILENAME@);
    } else {
        let earlier = fallbacks.drop_last();
        candidate_names_are_the_standard_ones_and_the_fallbacks(earlier, name);
        candidate_names_are_the_standard_ones_and_the_fallbacks(earlier, fallbacks.last());
        assert(fallbacks =~= earlier.push(fallbacks.last()));
        assert(fallbacks.contains(name) <==> earlier.contains(name) || name == fallbacks.last())
            by {
            if earlier.contains(name) {
                let i = earlier.index_of(name);
                assert(fallbacks[i] == name);
            }
            assert(fallbacks[fallbacks.len() - 1] == fallbacks.last());
        }
        let before = candidate_names(earlier);
        if before.contains(name) {
            let i = before.index_of(name);
            assert(names[i] == name);
        }
        if names != before {
            assert(names[names.len() - 1] == fallbacks.last());
        }
    }
}

/// More fallbacks only add names at the end: what was preferred stays preferred.
pub proof fn more_fallbacks_only_add_names(fallbacks: Seq<Seq<char>>, more: Seq<Seq<char>>)
    ensures
        candidate_names(fallbacks).is_prefix_of(candidate_names(fallbacks + more)),
    decreases more.len(),
{
    if more.len() == 0 {
        assert(fallbacks + more =~= fallbacks);
    } else {
        more_fallbacks_only_add_names(fallbacks, more.drop_last());
        assert((fallbacks + more).drop_last() =~= fallbacks + more.drop_last());
    }
}

/// A file name ranks among the project docs exactly by its place among the first
/// two names that are looked for, whatever the fallbacks are.
pub proof fn priority_is_the_place_among_the_candidates(
    fallbacks: Seq<Seq<char>>,
    i: int,
)
    requires
        0 <= i < candidate_names(fallbacks).len(),
    ensures
        i < 2 ==> priority_of(candidate_names(fallbacks)[i]) == Some(i as u8),
        i >= 2 ==> priority_of(candidate_names(fallbacks)[i]) is None,
{
    more_fallbacks_only_add_names(Seq::empty(), fallbacks);
    assert(Seq::<Seq<char>>::empty() + fallbacks =~= fallbacks);
    candidate_names_are_distinct(Seq::empty());
    candidate_names_are_distinct(fallbacks);
    let standard = candidate_names(Seq::empty());
    let names = candidate_names(fallbacks);
    assert(names[0] == standard[0] && names[1] == standard[1]);
    assert(standard[0] != standard[1]);
}

} // verus!
