//! The section that shows the discovery tree with its summaries.

use vstd::prelude::*;
use vstd::string::*;

use crate::discovery::{
    is_listing, targets_of, CandidateView, DiscoveryTree, ObservationView, SummaryTarget,
    SummaryTargetView,
};
use crate::path::{path_text, relative_path_text, PathView};
use crate::sort::views;
use crate::summaries::{AgentsSummariesResponse, ItemView, Summaries, SummaryView};
use crate::text::{
    indent, indentation, is_one_line, join, joined, joined_lines_can_be_told_apart, texts, trimmed,
};
use crate::tree::{shown_name, TreeEntry, TreeEntryView};
use crate::validation::{accepted, validate_summaries, SummaryError};

verus! {

/// The first line of the section.
pub const STARTUP_AGENTS_DISCOVERY_HEADER: &'static str =
    "## Startup AGENTS discovery tree (gitignore-aware)";

/// The line that names an entry.
pub open spec fn name_line(entry: TreeEntryView) -> Seq<char> {
    indentation((entry.depth + 1) as nat) + shown_name(entry)
}

/// The line that says what guidance an entry gives.
pub open spec fn why_line(entry: TreeEntryView, summary: SummaryView) -> Seq<char> {
    indentation((entry.depth + 2) as nat) + "why: "@ + summary.why
}

/// The line that says when to read an entry.
pub open spec fn when_line(entry: TreeEntryView, summary: SummaryView) -> Seq<char> {
    indentation((entry.depth + 2) as nat) + "when: "@ + summary.when
}

/// The lines of an entry: its name, and where it has a summary that below it.
pub open spec fn entry_lines(
    entry: TreeEntryView,
    summaries: Map<Seq<char>, SummaryView>,
) -> Seq<Seq<char>> {
    let path = path_text(entry.path);
    if summaries.contains_key(path) {
        seq![
            name_line(entry),
            why_line(entry, summaries[path]),
            when_line(entry, summaries[path]),
        ]
    } else {
        seq![name_line(entry)]
    }
}

/// The lines of the section: the header, the directory that it is about, the
/// root of the tree, and the lines of the entries.
pub open spec fn section_lines(
    cwd: Seq<char>,
    entries: Seq<TreeEntryView>,
    summaries: Map<Seq<char>, SummaryView>,
) -> Seq<Seq<char>>
    decreases entries.len(),
{
    if entries.len() == 0 {
        seq![STARTUP_AGENTS_DISCOVERY_HEADER@, "cwd: "@ + cwd, "."@]
    } else {
        section_lines(cwd, entries.drop_last(), summaries) + entry_lines(
            entries.last(),
            summaries,
        )
    }
}

/// The section: its lines with line breaks between them.
pub open spec fn section_text(
    cwd: Seq<char>,
    entries: Seq<TreeEntryView>,
    summaries: Map<Seq<char>, SummaryView>,
) -> Seq<char> {
    joined(section_lines(cwd, entries, summaries), "\n"@)
}

/// Writes the section.
pub fn render_discovery_section(
    cwd: &str,
    entries: &[TreeEntry],
    summaries: &Summaries,
) -> (result: String)
    ensures
        result@ == section_text(cwd@, views(entries@), summaries@),
{
    let mut lines: Vec<String> = Vec::new();
    lines.push(STARTUP_AGENTS_DISCOVERY_HEADER.to_string());
    lines.push("cwd: ".to_string().concat(cwd));
    lines.push(".".to_string());
    let ghost shown = views(entries@);
    assert(texts(lines@) =~= section_lines(cwd@, shown.take(0), summaries@));
    let mut i: usize = 0;
    while i < entries.len()
        invariant
            i <= entries.len(),
            shown == views(entries@),
            texts(lines@) == section_lines(cwd@, shown.take(i as int), summaries@),
        decreases entries.len() - i,
    {
        let ghost before = texts(lines@);
        let entry = &entries[i];
        proof {
            assert(shown.take(i + 1).drop_last() =~= shown.take(i as int));
            assert(shown.take(i + 1).last() == entry@);
            assert(indentation(entry.depth as nat) + indentation(1) =~= indentation(
                (entry.depth + 1) as nat,
            ));
            assert(indentation(entry.depth as nat) + indentation(2) =~= indentation(
                (entry.depth + 2) as nat,
            ));
        }
        let line_indent = indent(entry.depth).concat(indent(1).as_str());
        let display_name = entry.display_name();
        lines.push(line_indent.concat(display_name.as_str()));
        let summary_key = relative_path_text(&entry.relative_path);
        match summaries.get(summary_key.as_str()) {
            Some(summary) => {
                let summary_indent = indent(entry.depth).concat(indent(2).as_str());
                let why = summary_indent.clone().concat("why: ").concat(summary.why.as_str());
                let when = summary_indent.concat("when: ").concat(summary.when.as_str());
                lines.push(why);
                lines.push(when);
            },
            None => {},
        }
        assert(texts(lines@) =~= before + entry_lines(entry@, summaries@));
        i = i + 1;
    }
    assert(shown.take(i as int) =~= shown);
    join(&lines, "\n")
}

/// Whether a text holds nothing but whitespace.
pub open spec fn is_blank(text: Seq<char>) -> bool {
    trimmed(text).len() == 0
}

/// The characters of an optional string.
pub open spec fn optional_string(text: Option<String>) -> Option<Seq<char>> {
    match text {
        Some(text) => Some(text@),
        None => None,
    }
}

/// The instructions with a section in front: a blank section changes nothing,
/// blank instructions give way to it.
pub open spec fn with_section(existing: Option<Seq<char>>, section: Seq<char>) -> Option<Seq<char>> {
    if is_blank(section) {
        existing
    } else {
        match existing {
            Some(instructions) if !is_blank(instructions) => Some(
                section + "\n\n"@ + instructions,
            ),
            _ => Some(section),
        }
    }
}

/// Puts a section in front of the instructions.
pub fn prepend_discovery_section(
    existing: Option<String>,
    discovery_section: String,
) -> (result: Option<String>)
    ensures
        optional_string(result) == with_section(optional_string(existing), discovery_section@),
{
    if discovery_section.as_str().trim().is_empty() {
        return existing;
    }
    match existing {
        Some(instructions) => {
            if instructions.as_str().trim().is_empty() {
                Some(discovery_section)
            } else {
                Some(discovery_section.concat("\n\n").concat(instructions.as_str()))
            }
        },
        None => Some(discovery_section),
    }
}

/// The paths of project docs.
pub open spec fn target_paths(targets: Seq<SummaryTargetView>) -> Seq<Seq<char>> {
    targets.map_values(|target: SummaryTargetView| target.path)
}

/// The paths that a reply has to cover.
pub fn expected_paths(summary_targets: &[SummaryTarget]) -> (result: Vec<String>)
    ensures
        texts(result@) == target_paths(views(summary_targets@)),
{
    let mut result: Vec<String> = Vec::new();
    let ghost paths = target_paths(views(summary_targets@));
    let mut i: usize = 0;
    while i < summary_targets.len()
        invariant
            i <= summary_targets.len(),
            paths == target_paths(views(summary_targets@)),
            texts(result@) == paths.take(i as int),
        decreases summary_targets.len() - i,
    {
        let ghost before = texts(result@);
        let path = summary_targets[i].relative_path.clone();
        result.push(path);
        proof {
            assert(texts(result@) =~= before.push(path@));
            assert(paths.take(i + 1) =~= paths.take(i as int).push(path@));
        }
        i = i + 1;
    }
    assert(paths.take(i as int) =~= paths);
    result
}

/// The section for a tree in which no doc is to be summarized; a tree with such
/// docs has to wait for a reply.
pub fn section_without_summaries(cwd: &str, tree: &DiscoveryTree) -> (result: Option<String>)
    ensures
        result is Some == (tree.summary_targets@.len() == 0),
        result matches Some(section) ==> section@ == section_text(
            cwd@,
            views(tree.entries@),
            Map::empty(),
        ),
{
    if tree.summary_targets.len() == 0 {
        Some(render_discovery_section(cwd, tree.entries.as_slice(), &Summaries::new()))
    } else {
        None
    }
}

/// The section for a tree and the reply to the request for its summaries, if the
/// reply is accepted.
pub fn section_from_reply(
    cwd: &str,
    tree: &DiscoveryTree,
    reply: AgentsSummariesResponse,
) -> (result: Result<String, SummaryError>)
    ensures
        result is Ok == accepted(
            views(reply.summaries@),
            target_paths(views(tree.summary_targets@)).to_set(),
        ) is Ok,
        result matches Ok(section) ==> section@ == section_text(
            cwd@,
            views(tree.entries@),
            accepted(
                views(reply.summaries@),
                target_paths(views(tree.summary_targets@)).to_set(),
            )->Ok_0,
        ),
        result matches Err(error) ==> error@ == accepted(
            views(reply.summaries@),
            target_paths(views(tree.summary_targets@)).to_set(),
        )->Err_0,
{
    let expected = expected_paths(tree.summary_targets.as_slice());
    match validate_summaries(reply, expected) {
        Ok(summaries) => Ok(
            render_discovery_section(cwd, tree.entries.as_slice(), &summaries),
        ),
        Err(error) => Err(error),
    }
}

/// The lines of every entry stand together in the section, after those of the
/// entries before it: the name, and right below it the summary if there is one.
pub proof fn summaries_stand_below_their_entries(
    cwd: Seq<char>,
    entries: Seq<TreeEntryView>,
    summaries: Map<Seq<char>, SummaryView>,
    i: int,
)
    requires
        0 <= i < entries.len(),
    ensures
        ({
            let start = section_lines(cwd, entries.take(i), summaries).len() as int;
            let lines = entry_lines(entries[i], summaries);
            &&& start + lines.len() <= section_lines(cwd, entries, summaries).len()
            &&& section_lines(cwd, entries, summaries).subrange(start, start + lines.len())
                == lines
        }),
    decreases entries.len(),
{
    let earlier = entries.drop_last();
    let before = section_lines(cwd, earlier, summaries);
    let all = section_lines(cwd, entries, summaries);
    let start = section_lines(cwd, entries.take(i), summaries).len() as int;
    let lines = entry_lines(entries[i], summaries);
    if i < earlier.len() {
        summaries_stand_below_their_entries(cwd, earlier, summaries, i);
        assert(earlier.take(i) =~= entries.take(i));
        assert(all.subrange(start, start + lines.len()) =~= before.subrange(
            start,
            start + lines.len(),
        ));
    } else {
        assert(entries.take(i) =~= earlier);
        assert(all.subrange(start, start + lines.len()) =~= lines);
    }
}

/// The section opens with its header, the directory that it is about and the root
/// of the tree, whatever the tree holds.
pub proof fn section_opens_with_its_header(
    cwd: Seq<char>,
    entries: Seq<TreeEntryView>,
    summaries: Map<Seq<char>, SummaryView>,
)
    ensures
        seq![STARTUP_AGENTS_DISCOVERY_HEADER@, "cwd: "@ + cwd, "."@].is_prefix_of(
            section_lines(cwd, entries, summaries),
        ),
    decreases entries.len(),
{
    let opening = seq![STARTUP_AGENTS_DISCOVERY_HEADER@, "cwd: "@ + cwd, "."@];
    if entries.len() > 0 {
        section_opens_with_its_header(cwd, entries.drop_last(), summaries);
        let before = section_lines(cwd, entries.drop_last(), summaries);
        assert(section_lines(cwd, entries, summaries).subrange(0, 3) =~= before.subrange(0, 3));
    } else {
        assert(section_lines(cwd, entries, summaries) =~= opening);
    }
}

/// The lines of a section can be told apart where none holds a line break: one text
/// is the section of one list of lines only.
pub proof fn section_lines_can_be_told_apart(
    cwd: Seq<char>,
    entries: Seq<TreeEntryView>,
    summaries: Map<Seq<char>, SummaryView>,
    lines: Seq<Seq<char>>,
)
    requires
        lines.len() > 0,
        forall|i: int| 0 <= i < lines.len() ==> is_one_line(#[trigger] lines[i]),
        forall|i: int|
            0 <= i < section_lines(cwd, entries, summaries).len() ==> is_one_line(
                #[trigger] section_lines(cwd, entries, summaries)[i],
            ),
        joined(lines, "\n"@) == section_text(cwd, entries, summaries),
    ensures
        lines == section_lines(cwd, entries, summaries),
{
    section_opens_with_its_header(cwd, entries, summaries);
    joined_lines_can_be_told_apart(lines, section_lines(cwd, entries, summaries));
}

/// The section stands in front, and the instructions are kept behind it; a blank
/// section changes nothing.
pub proof fn prepending_keeps_the_instructions(existing: Option<Seq<char>>, section: Seq<char>)
    ensures
        is_blank(section) ==> with_section(existing, section) == existing,
        !is_blank(section) ==> with_section(existing, section) is Some
            && section.is_prefix_of(with_section(existing, section)->0),
        existing matches Some(instructions) && !is_blank(instructions) ==> with_section(
            existing,
            section,
        ) is Some && existing->0.is_suffix_of(with_section(existing, section)->0),
{
    match existing {
        Some(instructions) => {
            let both = section + "\n\n"@ + instructions;
            assert(section =~= both.subrange(0, section.len() as int));
            assert(instructions =~= both.subrange(
                (both.len() - instructions.len()) as int,
                both.len() as int,
            ));
            assert(instructions =~= instructions.subrange(0, instructions.len() as int));
        },
        None => {},
    }
    assert(section =~= section.subrange(0, section.len() as int));
}

/// Where a reply is accepted, every doc of the tree is shown with what the reply
/// says of it: right below the line of its entry stand the two lines of its
/// summary.
pub proof fn every_doc_is_shown_with_its_summary(
    cwd: Seq<char>,
    entries: Seq<TreeEntryView>,
    items: Seq<ItemView>,
    expected: Set<Seq<char>>,
    path: Seq<char>,
    e: int,
)
    requires
        accepted(items, expected) is Ok,
        expected.contains(path),
        0 <= e < entries.len(),
        path_text(entries[e].path) == path,
    ensures
        ({
            let summaries = accepted(items, expected)->Ok_0;
            let lines = section_lines(cwd, entries, summaries);
            let start = section_lines(cwd, entries.take(e), summaries).len() as int;
            &&& start + 2 < lines.len()
            &&& lines[start] == name_line(entries[e])
            &&& lines[start + 1] == why_line(entries[e], summaries[path])
            &&& lines[start + 2] == when_line(entries[e], summaries[path])
        }),
{
    let summaries = accepted(items, expected)->Ok_0;
    crate::validation::accepted_summaries_are_complete_and_short(items, expected, path);
    summaries_stand_below_their_entries(cwd, entries, summaries, e);
    let lines = section_lines(cwd, entries, summaries);
    let start = section_lines(cwd, entries.take(e), summaries).len() as int;
    let block = lines.subrange(start, start + 3);
    assert(block == entry_lines(entries[e], summaries));
    assert(block[0] == lines[start] && block[1] == lines[start + 1] && block[2] == lines[start
        + 2]);
}

/// Where the reply for a discovered tree is accepted, the section shows every doc
/// of the tree: one line names its entry, and the two lines below it say what the
/// reply says of it.
pub proof fn every_discovered_doc_is_shown_with_its_summary(
    cwd: Seq<char>,
    root: PathView,
    observations: Seq<ObservationView>,
    entries: Seq<TreeEntryView>,
    candidates: Seq<CandidateView>,
    contents: Seq<Seq<u8>>,
    targets: Seq<SummaryTargetView>,
    items: Seq<ItemView>,
    t: int,
) -> (e: int)
    requires
        is_listing(root, observations, entries, candidates),
        targets.to_multiset() == targets_of(candidates, contents).to_multiset(),
        accepted(items, target_paths(targets).to_set()) is Ok,
        0 <= t < targets.len(),
    ensures
        0 <= e < entries.len(),
        path_text(entries[e].path) == targets[t].path,
        ({
            let summaries = accepted(items, target_paths(targets).to_set())->Ok_0;
            let lines = section_lines(cwd, entries, summaries);
            let start = section_lines(cwd, entries.take(e), summaries).len() as int;
            &&& start + 2 < lines.len()
            &&& lines[start] == name_line(entries[e])
            &&& lines[start + 1] == why_line(entries[e], summaries[targets[t].path])
            &&& lines[start + 2] == when_line(entries[e], summaries[targets[t].path])
        }),
{
    let expected = target_paths(targets).to_set();
    assert(target_paths(targets)[t] == targets[t].path);
    assert(expected.contains(targets[t].path));
    let e = crate::discovery_laws::every_doc_has_an_entry(
        root,
        observations,
        entries,
        candidates,
        contents,
        targets,
        t,
    );
    every_doc_is_shown_with_its_summary(cwd, entries, items, expected, targets[t].path, e);
    e
}

} // verus!
