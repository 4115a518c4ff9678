use agents_discovery::summaries::{
    AgentsSummariesResponse, AgentsSummary, AgentsSummaryItem, Summaries, MAX_SUMMARY_WHEN_CHARS,
    MAX_SUMMARY_WHY_CHARS,
};
use agents_discovery::validation::{validate_summaries, SummaryError};

fn item(path: &str, why: &str, when: &str) -> AgentsSummaryItem {
    AgentsSummaryItem { path: path.to_string(), why: why.to_string(), when: when.to_string() }
}

fn check(items: Vec<AgentsSummaryItem>, expected: &[&str]) -> Result<Summaries, SummaryError> {
    let expected = expected.iter().map(|path| path.to_string()).collect();
    validate_summaries(AgentsSummariesResponse { summaries: items }, expected)
}

#[test]
fn validate_summaries_requires_complete_path_set() {
    let expected_paths = ["a/AGENTS.md".to_string(), "b/AGENTS.md".to_string()]
        .into_iter()
        .collect();

    let parsed = AgentsSummariesResponse {
        summaries: vec![AgentsSummaryItem {
            path: "a/AGENTS.md".to_string(),
            why: "rules".to_string(),
            when: "before edits".to_string(),
        }],
    };

    let error = validate_summaries(parsed, expected_paths).expect_err("missing path should fail");
    assert!(error.message().contains("paths do not match discovered AGENTS files"));
}

#[test]
fn validate_summaries_caps_why_and_when_lengths() {
    let expected_paths = ["a/AGENTS.md".to_string()].into_iter().collect();
    let parsed = AgentsSummariesResponse {
        summaries: vec![AgentsSummaryItem {
            path: "a/AGENTS.md".to_string(),
            why: "w".repeat(MAX_SUMMARY_WHY_CHARS + 25),
            when: "x".repeat(MAX_SUMMARY_WHEN_CHARS + 25),
        }],
    };

    let summaries = validate_summaries(parsed, expected_paths).expect("summary should parse");
    let item = summaries
        .get("a/AGENTS.md")
        .expect("summary should exist for expected path");

    assert_eq!(item.why.chars().count(), MAX_SUMMARY_WHY_CHARS);
    assert_eq!(item.when.chars().count(), MAX_SUMMARY_WHEN_CHARS);
}

#[test]
fn lengths_are_counted_in_characters() {
    assert_eq!(MAX_SUMMARY_WHY_CHARS, 160);
    let why = "\u{e9}".repeat(160);
    let when = format!("{}b", "\u{1f600}".repeat(160));
    let summaries = check(vec![item("a", &why, &when)], &["a"]).expect("reply is complete");
    let summary = summaries.get("a").expect("path has a summary");
    assert_eq!(summary.why, why);
    assert_eq!(summary.when, "\u{1f600}".repeat(160));
}

#[test]
fn whitespace_around_the_parts_does_not_count() {
    let summaries = check(
        vec![item(" a/AGENTS.md\n", "\u{2003}why \u{3000}", "\t when\u{a0}\u{85}")],
        &["a/AGENTS.md"],
    )
    .expect("reply is complete");
    let summary = summaries.get("a/AGENTS.md").expect("path has a summary");
    assert_eq!(summary.why, "why");
    assert_eq!(summary.when, "when");
    assert!(summaries.contains_key("a/AGENTS.md"));
    assert!(!summaries.contains_key(" a/AGENTS.md\n"));
}

#[test]
fn trimming_keeps_what_is_no_whitespace() {
    let text = "\u{200b}x y\u{180e}\u{feff}";
    let summaries = check(vec![item("a", text, "x")], &["a"]).expect("reply is complete");
    assert_eq!(summaries.get("a").map(|summary| summary.why.as_str()), Some(text));
}

#[test]
fn every_kind_of_whitespace_is_trimmed() {
    let around: String = [
        '\u{9}', '\u{a}', '\u{b}', '\u{c}', '\u{d}', '\u{20}', '\u{85}', '\u{a0}', '\u{1680}',
        '\u{2000}', '\u{2001}', '\u{2002}', '\u{2003}', '\u{2004}', '\u{2005}', '\u{2006}',
        '\u{2007}', '\u{2008}', '\u{2009}', '\u{200a}', '\u{2028}', '\u{2029}', '\u{202f}',
        '\u{205f}', '\u{3000}',
    ]
    .iter()
    .collect();
    let text = format!("{around}why{around}");
    let summaries = check(vec![item("a", &text, "x")], &["a"]).expect("reply is complete");
    assert_eq!(summaries.get("a").map(|summary| summary.why.as_str()), Some("why"));
}

#[test]
fn an_empty_path_is_refused() {
    let error = check(vec![item("  ", "", "")], &["a"]).expect_err("path is empty");
    assert!(matches!(error, SummaryError::EmptyPath));
    assert_eq!(error.message(), "startup agents summary returned an empty path");
}

#[test]
fn an_empty_why_is_refused() {
    let error = check(vec![item(" a ", " \n", "")], &["a"]).expect_err("why is empty");
    assert!(matches!(error, SummaryError::EmptyWhy { .. }));
    assert_eq!(error.message(), "startup agents summary returned an empty why for a");
}

#[test]
fn an_empty_when_is_refused() {
    let error = check(vec![item("a", "x", "\t")], &["a"]).expect_err("when is empty");
    assert!(matches!(error, SummaryError::EmptyWhen { .. }));
    assert_eq!(error.message(), "startup agents summary returned an empty when for a");
}

#[test]
fn a_path_named_twice_is_refused() {
    let items = vec![item("a", "x", "y"), item(" a", "z", "w")];
    let error = check(items, &["a"]).expect_err("path is named twice");
    assert!(matches!(error, SummaryError::DuplicatePath { .. }));
    assert_eq!(error.message(), "startup agents summary returned a duplicate path: a");
}

#[test]
fn the_first_fault_counts() {
    let items = vec![item("a", "x", "y"), item("b", "", "y"), item("", "x", "y")];
    let error = check(items, &["a"]).expect_err("two items are faulty");
    assert_eq!(error.message(), "startup agents summary returned an empty why for b");
}

#[test]
fn invented_paths_are_refused() {
    let items = vec![item("c", "x", "y"), item("a", "x", "y"), item("b\"", "x", "y")];
    let error = check(items, &["b", "a", "a"]).expect_err("paths are not the expected ones");
    assert_eq!(
        error.message(),
        "startup agents summary paths do not match discovered AGENTS files; \
         expected={\"a\", \"b\"}, actual={\"a\", \"b\\\"\", \"c\"}"
    );
}

#[test]
fn a_reply_to_nothing_is_empty() {
    let summaries = check(Vec::new(), &[]).expect("nothing is missing");
    assert!(summaries.paths().is_empty());
}

#[test]
fn the_order_of_a_reply_does_not_matter() {
    let one = check(vec![item("a", "1", "2"), item("b", "3", "4")], &["a", "b"]).expect("complete");
    let other =
        check(vec![item("b", "3", "4"), item("a", "1", "2")], &["b", "a", "b"]).expect("complete");
    for path in ["a", "b"] {
        let left = one.get(path).expect("path has a summary");
        let right = other.get(path).expect("path has a summary");
        assert_eq!((&left.why, &left.when), (&right.why, &right.when));
    }
}

#[test]
fn a_later_summary_takes_the_place_of_an_earlier_one() {
    let summary = |why: &str| AgentsSummary { why: why.to_string(), when: "now".to_string() };
    let mut summaries = Summaries::new();
    summaries.insert("a".to_string(), summary("one"));
    summaries.insert("b".to_string(), summary("two"));
    summaries.insert("a".to_string(), summary("three"));
    assert_eq!(summaries.get("a").map(|found| found.why.as_str()), Some("three"));
    assert_eq!(summaries.get("b").map(|found| found.why.as_str()), Some("two"));
    assert_eq!(summaries.paths(), vec!["a".to_string(), "b".to_string()]);
    assert!(summaries.get("c").is_none());
}
