use agents_discovery::discovery::{DiscoveryTree, SummaryTarget};
use agents_discovery::path::{PartKind, PathPart, TreePath};
use agents_discovery::request::{summary_prompt, ReplyCollector, ReplyEvent};
use agents_discovery::section::{
    expected_paths, prepend_discovery_section, render_discovery_section, section_from_reply,
    section_without_summaries,
};
use agents_discovery::summaries::{
    AgentsSummariesResponse, AgentsSummary, AgentsSummaryItem, Summaries,
};
use agents_discovery::text::NameEncoding;
use agents_discovery::tree::{TreeEntry, TreeEntryKind};
use serde_json::Value;

fn part(kind: PartKind, written: &[u8], gap: &str) -> PathPart {
    PathPart {
        kind,
        key: Vec::new(),
        written: written.to_vec(),
        gap: gap.as_bytes().to_vec(),
    }
}

fn relative(text: &str) -> Vec<PathPart> {
    let names = text.split('/').collect::<Vec<_>>();
    let mut parts = Vec::new();
    for (i, name) in names.iter().enumerate() {
        let kind = match *name {
            "." => PartKind::Here,
            ".." => PartKind::Up,
            _ => PartKind::Name,
        };
        let gap = if i + 1 < names.len() { "/" } else { "" };
        parts.push(part(kind, name.as_bytes(), gap));
    }
    parts
}

fn path(text: &str) -> TreePath {
    TreePath { parts: relative(text), encoding: NameEncoding::Bytes }
}

fn entry(text: &str, depth: usize, kind: TreeEntryKind) -> TreeEntry {
    TreeEntry { relative_path: path(text), depth, kind }
}

fn project() -> DiscoveryTree {
    DiscoveryTree {
        entries: vec![entry("AGENTS.md", 0, TreeEntryKind::File)],
        summary_targets: vec![SummaryTarget {
            relative_path: "AGENTS.md".to_string(),
            contents: "follow project rules".to_string(),
        }],
    }
}

fn read_reply(text: &str) -> AgentsSummariesResponse {
    let value: Value = serde_json::from_str(text).expect("reply is JSON");
    let part = |item: &Value, key: &str| item[key].as_str().expect("part is a string").to_string();
    let summaries = value["summaries"]
        .as_array()
        .expect("summaries are a list")
        .iter()
        .map(|item| AgentsSummaryItem {
            path: part(item, "path"),
            why: part(item, "why"),
            when: part(item, "when"),
        })
        .collect();
    AgentsSummariesResponse { summaries }
}

#[test]
fn render_discovery_section_places_summary_after_agents_entry() {
    let entries = vec![
        TreeEntry {
            relative_path: path("folder"),
            depth: 0,
            kind: TreeEntryKind::Directory,
        },
        TreeEntry {
            relative_path: path("folder/AGENTS.md"),
            depth: 1,
            kind: TreeEntryKind::File,
        },
    ];

    let mut summaries = Summaries::new();
    summaries.insert(
        "folder/AGENTS.md".to_string(),
        AgentsSummary {
            why: "defines coding rules".to_string(),
            when: "before editing files under folder".to_string(),
        },
    );

    let rendered = render_discovery_section("/repo", &entries, &summaries);
    let lines = rendered.lines().collect::<Vec<_>>();
    let agents_index = lines
        .iter()
        .position(|line| *line == "    AGENTS.md")
        .expect("AGENTS line should exist");

    assert_eq!(lines[agents_index + 1], "      why: defines coding rules");
    assert_eq!(
        lines[agents_index + 2],
        "      when: before editing files under folder"
    );
    assert_eq!(
        rendered,
        "## Startup AGENTS discovery tree (gitignore-aware)\ncwd: /repo\n.\n  folder/\n    \
         AGENTS.md\n      why: defines coding rules\n      when: before editing files under folder"
    );
}

#[test]
fn an_empty_tree_shows_its_root() {
    assert_eq!(
        render_discovery_section("/", &[], &Summaries::new()),
        "## Startup AGENTS discovery tree (gitignore-aware)\ncwd: /\n."
    );
}

#[test]
fn prepend_discovery_section_prepends_existing_instructions() {
    let merged = prepend_discovery_section(
        Some("raw instructions".to_string()),
        "tree section".to_string(),
    );

    assert_eq!(merged, Some("tree section\n\nraw instructions".to_string()));
}

#[test]
fn a_blank_section_changes_nothing() {
    assert_eq!(prepend_discovery_section(None, " \n\u{a0}".to_string()), None);
    assert_eq!(
        prepend_discovery_section(Some("raw".to_string()), "".to_string()),
        Some("raw".to_string())
    );
    assert_eq!(
        prepend_discovery_section(Some(" ".to_string()), "\t".to_string()),
        Some(" ".to_string())
    );
}

#[test]
fn blank_instructions_give_way_to_the_section() {
    assert_eq!(
        prepend_discovery_section(Some(" \n ".to_string()), "tree ".to_string()),
        Some("tree ".to_string())
    );
    assert_eq!(
        prepend_discovery_section(None, "tree".to_string()),
        Some("tree".to_string())
    );
}

#[test]
fn a_tree_without_docs_needs_no_reply() {
    let tree = DiscoveryTree {
        entries: vec![entry("src", 0, TreeEntryKind::Directory)],
        summary_targets: Vec::new(),
    };
    assert_eq!(
        section_without_summaries("/repo", &tree),
        Some(
            "## Startup AGENTS discovery tree (gitignore-aware)\ncwd: /repo\n.\n  src/".to_string()
        )
    );
    assert_eq!(section_without_summaries("/repo", &project()), None);
}

#[test]
fn the_paths_to_cover_are_those_of_the_docs() {
    assert_eq!(expected_paths(&project().summary_targets), vec!["AGENTS.md".to_string()]);
    assert!(expected_paths(&[]).is_empty());
}

#[test]
fn startup_agents_summary_prepends_discovery_section() {
    let tree = project();
    let prompt = summary_prompt(&tree.summary_targets).expect("files can be written");
    assert!(prompt.input.contains("\"path\": \"AGENTS.md\""));
    assert!(prompt.input.contains("follow project rules"));

    let mut reply = ReplyCollector::new();
    let streamed = ReplyEvent::OutputTextDelta(
        r#"{"summaries":[{"path":"AGENTS.md","why":"defines repository rules","when":"before making changes in this workspace"}]}"#
            .to_string(),
    );
    assert!(!reply.absorb(ReplyEvent::Other));
    assert!(!reply.absorb(streamed));
    assert!(reply.absorb(ReplyEvent::Completed));

    let section = section_from_reply("/repo", &tree, read_reply(&reply.text))
        .expect("reply covers the docs");
    let instructions =
        prepend_discovery_section(Some("follow project rules".to_string()), section)
            .expect("there are instructions");

    assert!(instructions.contains("AGENTS.md"));
    assert!(instructions.contains("why: defines repository rules"));
    assert!(instructions.contains("when: before making changes in this workspace"));
    assert!(instructions.contains("follow project rules"));

    let tree_pos = instructions
        .find("## Startup AGENTS discovery tree (gitignore-aware)")
        .expect("startup section marker");
    let project_doc_contents_pos =
        instructions.find("follow project rules").expect("project doc contents");
    assert!(tree_pos < project_doc_contents_pos);
}

#[test]
fn startup_agents_summary_invalid_payload_falls_back_without_section() {
    let reply = read_reply(
        r#"{"summaries":[{"path":"OTHER.md","why":"wrong file","when":"never"}]}"#,
    );
    let error = section_from_reply("/repo", &project(), reply).expect_err("path is another");
    assert_eq!(
        error.message(),
        "startup agents summary paths do not match discovered AGENTS files; \
         expected={\"AGENTS.md\"}, actual={\"OTHER.md\"}"
    );
}

#[test]
fn every_doc_is_shown_with_its_summary() {
    let doc = |text: &str| SummaryTarget {
        relative_path: text.to_string(),
        contents: String::new(),
    };
    let tree = DiscoveryTree {
        entries: vec![
            entry("AGENTS.md", 0, TreeEntryKind::Symlink),
            entry("a", 0, TreeEntryKind::Directory),
            entry("a/AGENTS.md", 1, TreeEntryKind::File),
        ],
        summary_targets: vec![doc("AGENTS.md"), doc("a/AGENTS.md")],
    };
    let item = |path: &str, why: &str| AgentsSummaryItem {
        path: path.to_string(),
        why: why.to_string(),
        when: "now".to_string(),
    };
    let reply = AgentsSummariesResponse {
        summaries: vec![item("a/AGENTS.md", "inner"), item("AGENTS.md", " outer ")],
    };
    let section = section_from_reply("/repo", &tree, reply).expect("reply covers the docs");
    let lines = section.lines().skip(3).collect::<Vec<_>>();
    assert_eq!(
        lines,
        vec![
            "  AGENTS.md@",
            "    why: outer",
            "    when: now",
            "  a/",
            "    AGENTS.md",
            "      why: inner",
            "      when: now",
        ]
    );
}
