use agents_discovery::agents_md::{candidate_filenames, filename_priority};

#[test]
fn filename_priority_prefers_override() {
    assert_eq!(filename_priority("AGENTS.override.md"), Some(0));
    assert_eq!(filename_priority("AGENTS.md"), Some(1));
    assert_eq!(filename_priority("OTHER.md"), None);
}

#[test]
fn filename_priority_takes_names_as_they_are_written() {
    assert_eq!(filename_priority(""), None);
    assert_eq!(filename_priority("agents.md"), None);
    assert_eq!(filename_priority("AGENTS.md "), None);
    assert_eq!(filename_priority("AGENTS.m\u{e9}"), None);
}

#[test]
fn candidate_filenames_include_defaults_then_unique_fallbacks() {
    let fallbacks = vec![
        "".to_string(),
        "AGENTS.md".to_string(),
        "CUSTOM.md".to_string(),
        "CUSTOM.md".to_string(),
    ];
    assert_eq!(
        candidate_filenames(&fallbacks),
        vec!["AGENTS.override.md", "AGENTS.md", "CUSTOM.md"],
    );
}

#[test]
fn candidate_filenames_without_fallbacks_are_the_standard_ones() {
    assert_eq!(candidate_filenames(&[]), vec!["AGENTS.override.md", "AGENTS.md"]);
}

#[test]
fn candidate_filenames_rank_as_their_place_says() {
    let fallbacks = vec!["B.md".to_string(), "A.md".to_string()];
    let names = candidate_filenames(&fallbacks);
    assert_eq!(names, vec!["AGENTS.override.md", "AGENTS.md", "B.md", "A.md"]);
    let ranks = names.iter().map(|name| filename_priority(name)).collect::<Vec<_>>();
    assert_eq!(ranks, vec![Some(0), Some(1), None, None]);
}
