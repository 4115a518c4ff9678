//! What the section shows, line by line.

use vstd::prelude::*;

use crate::discovery::SummaryTargetView;
use crate::path::path_text;
use crate::reply_laws::accepted_replies_give_each_path_its_item;
use crate::section::{
    entry_lines, name_line, optional_string, section_lines, section_opens_with_its_header,
    section_text, summaries_stand_below_their_entries, target_paths, when_line, why_line,
    with_section,
};
use crate::summaries::{ItemView, SummaryView};
use crate::text::{blank_texts_are_all_whitespace, is_whitespace, joined, trimmed};
use crate::tree::{shown_name, TreeEntryView};
use crate::validation::accepted;

verus! {

/// The given number of spaces.
pub open spec fn spaces(count: nat) -> Seq<char> {
    Seq::new(count, |i: int| ' ')
}

/// How many of the entries have a summary.
pub open spec fn count_summarized(
    entries: Seq<TreeEntryView>,
    summaries: Map<Seq<char>, SummaryView>,
) -> nat {
    entries.filter(|entry: TreeEntryView| summaries.contains_key(path_text(entry.path))).len()
}

proof fn lemma_number_of_lines(
    cwd: Seq<char>,
    entries: Seq<TreeEntryView>,
    summaries: Map<Seq<char>, SummaryView>,
)
    ensures
        section_lines(cwd, entries, summaries).len() == 3 + entries.len() + 2 * count_summarized(
            entries,
            summaries,
        ),
    decreases entries.len(),
{
    reveal(Seq::filter);
    if entries.len() > 0 {
        lemma_number_of_lines(cwd, entries.drop_last(), summaries);
    }
}

/// The section shows every entry, with or without a summary, at any depth. Behind the
/// header, the directory and the root come the entries in their order: each has a
/// line of its own, its shown name behind two spaces for each level below the top and
/// two more; where the path of the entry has a summary, the two lines below give its
/// `why` and `when` whole, two spaces further in. There are no other lines, and the
/// section is these lines with line breaks between them.
pub proof fn every_entry_is_shown(
    cwd: Seq<char>,
    entries: Seq<TreeEntryView>,
    summaries: Map<Seq<char>, SummaryView>,
)
    ensures
        ({
            let lines = section_lines(cwd, entries, summaries);
            &&& section_text(cwd, entries, summaries) == joined(lines, "\n"@)
            &&& lines.len() == 3 + entries.len() + 2 * count_summarized(entries, summaries)
            &&& lines[0] == "## Startup AGENTS discovery tree (gitignore-aware)"@
            &&& lines[1] == "cwd: "@ + cwd
            &&& lines[2] == "."@
            &&& forall|i: int|
                0 <= i < entries.len() ==> {
                    let entry = #[trigger] entries[i];
                    let start = 3 + i + 2 * count_summarized(entries.take(i), summaries);
                    &&& lines[start] == spaces((2 * (entry.depth + 1)) as nat) + shown_name(entry)
                    &&& summaries.contains_key(path_text(entry.path)) ==> {
                        let summary = summaries[path_text(entry.path)];
                        &&& lines[start + 1] == spaces((2 * (entry.depth + 2)) as nat) + "why: "@
                            + summary.why
                        &&& lines[start + 2] == spaces((2 * (entry.depth + 2)) as nat) + "when: "@
                            + summary.when
                    }
                }
        }),
{
    let lines = section_lines(cwd, entries, summaries);
    lemma_number_of_lines(cwd, entries, summaries);
    section_opens_with_its_header(cwd, entries, summaries);
    let opening = lines.subrange(0, 3);
    assert(opening[0] == lines[0] && opening[1] == lines[1] && opening[2] == lines[2]);
    assert forall|i: int| 0 <= i < entries.len() implies {
        let entry = #[trigger] entries[i];
        let start = 3 + i + 2 * count_summarized(entries.take(i), summaries);
        &&& lines[start] == spaces((2 * (entry.depth + 1)) as nat) + shown_name(entry)
        &&& summaries.contains_key(path_text(entry.path)) ==> {
            let summary = summaries[path_text(entry.path)];
            &&& lines[start + 1] == spaces((2 * (entry.depth + 2)) as nat) + "why: "@
                + summary.why
            &&& lines[start + 2] == spaces((2 * (entry.depth + 2)) as nat) + "when: "@
                + summary.when
        }
    } by {
        let entry = entries[i];
        let start = 3 + i + 2 * count_summarized(entries.take(i), summaries);
        lemma_number_of_lines(cwd, entries.take(i), summaries);
        summaries_stand_below_their_entries(cwd, entries, summaries, i);
        let shown = entry_lines(entry, summaries);
        let block = lines.subrange(start, start + shown.len());
        assert(block == shown);
        assert(block[0] == lines[start]);
        assert(name_line(entry) =~= spaces((2 * (entry.depth + 1)) as nat) + shown_name(entry));
        if summaries.contains_key(path_text(entry.path)) {
            let summary = summaries[path_text(entry.path)];
            assert(block[1] == lines[start + 1] && block[2] == lines[start + 2]);
            assert(why_line(entry, summary) =~= spaces((2 * (entry.depth + 2)) as nat) + "why: "@
                + summary.why);
            assert(when_line(entry, summary) =~= spaces((2 * (entry.depth + 2)) as nat)
                + "when: "@ + summary.when);
        }
    }
}

/// Where a reply is accepted, what it says of a path stands below the entry with that
/// path: `why` and `when` without the whitespace around them, all of them up to 160
/// characters.
pub proof fn replies_stand_below_their_entries(
    cwd: Seq<char>,
    entries: Seq<TreeEntryView>,
    items: Seq<ItemView>,
    expected: Set<Seq<char>>,
    e: int,
    i: int,
)
    requires
        accepted(items, expected) is Ok,
        0 <= e < entries.len(),
        0 <= i < items.len(),
        path_text(entries[e].path) == trimmed(items[i].path),
        trimmed(items[i].why).len() <= 160,
        trimmed(items[i].when).len() <= 160,
    ensures
        ({
            let summaries = accepted(items, expected)->Ok_0;
            let lines = section_lines(cwd, entries, summaries);
            let start = 3 + e + 2 * count_summarized(entries.take(e), summaries);
            let indent = spaces((2 * (entries[e].depth + 2)) as nat);
            &&& lines[start + 1] == indent + "why: "@ + trimmed(items[i].why)
            &&& lines[start + 2] == indent + "when: "@ + trimmed(items[i].when)
        }),
{
    accepted_replies_give_each_path_its_item(items, expected, i);
    every_entry_is_shown(cwd, entries, accepted(items, expected)->Ok_0);
    let entry = entries[e];
}

/// A section of nothing but whitespace leaves the instructions as they are; any other
/// stands whole in front of the whole instructions with an empty line between them,
/// and alone where there are none or they are nothing but whitespace.
pub proof fn sections_stand_in_front(existing: Option<Seq<char>>, section: Seq<char>)
    ensures
        ({
            let blank = |text: Seq<char>|
                forall|i: int| 0 <= i < text.len() ==> is_whitespace(#[trigger] text[i]);
            &&& blank(section) ==> with_section(existing, section) == existing
            &&& !blank(section) ==> match existing {
                Some(instructions) if !blank(instructions) => with_section(existing, section)
                    == Some(section + seq!['\n', '\n'] + instructions),
                _ => with_section(existing, section) == Some(section),
            }
        }),
{
    reveal_strlit("\n\n");
    assert("\n\n"@ =~= seq!['\n', '\n']);
    blank_texts_are_all_whitespace(section);
    if let Some(instructions) = existing {
        blank_texts_are_all_whitespace(instructions);
    }
}

/// An optional string has its characters, all of them, exactly if it is there.
pub proof fn optional_strings_hold_every_character(text: Option<String>)
    ensures
        optional_string(text) is Some <==> text is Some,
        text matches Some(string) ==> optional_string(text) == Some(string@),
{
}

/// The paths that a reply has to cover are the whole paths of all docs.
pub proof fn every_doc_has_to_be_covered(targets: Seq<SummaryTargetView>, path: Seq<char>)
    ensures
        target_paths(targets).len() == targets.len(),
        forall|i: int|
            0 <= i < targets.len() ==> #[trigger] target_paths(targets)[i] == targets[i].path,
        target_paths(targets).to_set().contains(path) <==> exists|i: int|
            0 <= i < targets.len() && (#[trigger] targets[i]).path == path,
{
    let paths = target_paths(targets);
    if paths.contains(path) {
        let i = paths.index_of(path);
        assert(targets[i].path == path);
    }
    if exists|i: int| 0 <= i < targets.len() && (#[trigger] targets[i]).path == path {
        let i = choose|i: int| 0 <= i < targets.len() && (#[trigger] targets[i]).path == path;
        assert(paths[i] == path);
    }
}

} // verus!
