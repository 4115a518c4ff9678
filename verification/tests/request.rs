use agents_discovery::discovery::SummaryTarget;
use agents_discovery::request::{
    build_summary_input_payload, file_value, frame_summary_input, needs_primary_model,
    select_startup_agents_summary_model, summary_output_schema, summary_prompt, ReplyCollector,
    ReplyEvent, DEFAULT_STARTUP_AGENTS_SUMMARY_MODEL, STARTUP_AGENTS_SUMMARY_PROMPT,
};
use agents_discovery::summaries::{MAX_SUMMARY_WHEN_CHARS, MAX_SUMMARY_WHY_CHARS};
use serde_json::Value;

fn target(path: &str, contents: &str) -> SummaryTarget {
    SummaryTarget { relative_path: path.to_string(), contents: contents.to_string() }
}

#[test]
fn summary_output_schema_sets_max_lengths_for_why_and_when() {
    let schema = summary_output_schema();
    assert_eq!(
        schema["properties"]["summaries"]["items"]["properties"]["why"]["maxLength"],
        Value::from(MAX_SUMMARY_WHY_CHARS)
    );
    assert_eq!(
        schema["properties"]["summaries"]["items"]["properties"]["when"]["maxLength"],
        Value::from(MAX_SUMMARY_WHEN_CHARS)
    );
}

#[test]
fn summary_output_schema_is_the_whole_schema() {
    let expected: Value = serde_json::from_str(
        r#"{
            "type": "object",
            "properties": {
                "summaries": {
                    "type": "array",
                    "items": {
                        "type": "object",
                        "properties": {
                            "path": { "type": "string" },
                            "why": { "type": "string", "maxLength": 160 },
                            "when": { "type": "string", "maxLength": 160 }
                        },
                        "required": ["path", "why", "when"],
                        "additionalProperties": false
                    }
                }
            },
            "required": ["summaries"],
            "additionalProperties": false
        }"#,
    )
    .expect("schema is JSON");
    assert_eq!(summary_output_schema(), expected);
}

#[test]
fn select_startup_agents_summary_model_prefers_selected_model() {
    let model =
        select_startup_agents_summary_model(Some("gpt-5.2-codex"), true, Some("gpt-5.1-codex"));

    assert_eq!(model, "gpt-5.2-codex");
}

#[test]
fn select_startup_agents_summary_model_uses_mini_for_openai_provider() {
    let model = select_startup_agents_summary_model(None, true, Some("gpt-5.1-codex"));

    assert_eq!(model, DEFAULT_STARTUP_AGENTS_SUMMARY_MODEL);
}

#[test]
fn select_startup_agents_summary_model_uses_primary_for_non_openai_provider() {
    let model = select_startup_agents_summary_model(None, false, Some("llama3.2"));

    assert_eq!(model, "llama3.2");
}

#[test]
fn without_any_model_the_name_is_empty() {
    assert_eq!(select_startup_agents_summary_model(None, false, None), "");
    assert_eq!(select_startup_agents_summary_model(Some("x"), false, None), "x");
    assert_eq!(select_startup_agents_summary_model(None, true, None), "gpt-5.3-codex");
}

#[test]
fn the_primary_model_is_needed_where_nothing_else_decides() {
    assert!(needs_primary_model(None, false));
    assert!(!needs_primary_model(None, true));
    assert!(!needs_primary_model(Some("x"), false));
    assert!(!needs_primary_model(Some("x"), true));
}

#[test]
fn the_payload_holds_the_files_as_json() {
    let files = vec![target("AGENTS.md", "follow \"project\" rules\n"), target("b/AGENTS.md", "")];
    let payload = build_summary_input_payload(&files).expect("files can be written");
    assert_eq!(
        payload,
        "Summarize each AGENTS file and decide when to read it.\n\nFiles:\n[\n  {\n    \
         \"contents\": \"follow \\\"project\\\" rules\\n\",\n    \"path\": \"AGENTS.md\"\n  },\n  {\n    \
         \"contents\": \"\",\n    \"path\": \"b/AGENTS.md\"\n  }\n]"
    );
}

#[test]
fn the_payload_without_files_holds_an_empty_list() {
    let payload = build_summary_input_payload(&[]).expect("files can be written");
    assert_eq!(payload, frame_summary_input("[]"));
    assert!(payload.ends_with("\n\nFiles:\n[]"));
}

#[test]
fn a_file_is_written_with_path_and_contents() {
    let value = file_value(&target("a", "b"));
    assert_eq!(value["path"], Value::from("a"));
    assert_eq!(value["contents"], Value::from("b"));
    assert_eq!(value.as_object().map(|file| file.len()), Some(2));
}

#[test]
fn the_prompt_asks_for_summaries_of_the_files() {
    let files = vec![target("AGENTS.md", "rules")];
    let prompt = summary_prompt(&files).expect("files can be written");
    assert_eq!(prompt.role, "user");
    assert_eq!(prompt.input, build_summary_input_payload(&files).expect("files can be written"));
    assert!(prompt.tools.is_empty());
    assert!(!prompt.parallel_tool_calls);
    assert_eq!(prompt.base_instructions, STARTUP_AGENTS_SUMMARY_PROMPT);
    assert_eq!(prompt.output_schema, summary_output_schema());
    assert!(STARTUP_AGENTS_SUMMARY_PROMPT.starts_with(
        "You produce concise AGENTS routing hints.\n\nReturn valid JSON that strictly matches"
    ));
    assert!(STARTUP_AGENTS_SUMMARY_PROMPT.ends_with("- keep text concise and actionable"));
    assert_eq!(STARTUP_AGENTS_SUMMARY_PROMPT.lines().count(), 12);
}

#[test]
fn pieces_of_text_are_joined() {
    let mut reply = ReplyCollector::new();
    assert!(!reply.absorb(ReplyEvent::Other));
    assert!(!reply.absorb(ReplyEvent::OutputItemDone(None)));
    assert!(!reply.absorb(ReplyEvent::OutputTextDelta("{\"a\"".to_string())));
    assert_eq!(reply.text, "{\"a\"");
    assert!(!reply.absorb(ReplyEvent::Other));
    assert!(!reply.absorb(ReplyEvent::OutputTextDelta(":1}".to_string())));
    assert!(!reply.absorb(ReplyEvent::OutputItemDone(Some("{\"a\":1}".to_string()))));
    assert!(reply.absorb(ReplyEvent::Completed));
    assert_eq!(reply.text, "{\"a\":1}");
}

#[test]
fn a_finished_item_counts_where_no_text_came() {
    let mut reply = ReplyCollector::new();
    assert!(!reply.absorb(ReplyEvent::OutputItemDone(None)));
    assert!(!reply.absorb(ReplyEvent::OutputItemDone(Some("first".to_string()))));
    assert!(!reply.absorb(ReplyEvent::OutputItemDone(Some("second".to_string()))));
    assert_eq!(reply.text, "first");
    assert!(!reply.absorb(ReplyEvent::OutputTextDelta(" more".to_string())));
    assert_eq!(reply.text, "first more");
}
