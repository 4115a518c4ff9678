//! What the request for summaries holds, told by the files and the settings.

use vstd::prelude::*;

use crate::agents_md::{names_of, priority_of};
use crate::discovery::SummaryTargetView;
use crate::json::{document, documents, pretty_text, Json};
use crate::request::{
    file_documents, optional_text, summary_input, summary_input_text, summary_model,
    STARTUP_AGENTS_SUMMARY_PROMPT,
};
use crate::summaries::{MAX_SUMMARY_WHEN_CHARS, MAX_SUMMARY_WHY_CHARS};

verus! {

/// A list of documents has the document of every value, in their order.
pub proof fn documents_hold_every_value(values: Seq<serde_json::Value>)
    ensures
        documents(values).len() == values.len(),
        forall|i: int|
            0 <= i < values.len() ==> #[trigger] documents(values)[i] == document(values[i]),
{
}

/// A list of names has every name with all its characters, in their order.
pub proof fn name_lists_hold_every_name(names: Seq<&str>)
    ensures
        names_of(names).len() == names.len(),
        forall|i: int| 0 <= i < names.len() ==> #[trigger] names_of(names)[i] == names[i]@,
{
}

/// Exactly two file names rank among the project docs: the local override first,
/// the standard name second.
pub proof fn two_names_rank(name: Seq<char>)
    ensures
        priority_of("AGENTS.override.md"@) == Some(0u8),
        priority_of("AGENTS.md"@) == Some(1u8),
        priority_of(name) is Some <==> name == "AGENTS.override.md"@ || name == "AGENTS.md"@,
{
    reveal_strlit("AGENTS.override.md");
    reveal_strlit("AGENTS.md");
    assert("AGENTS.override.md"@.len() != "AGENTS.md"@.len());
}

/// The request is the question followed by the JSON text of one list: for each file,
/// however many there are, and in their order, an object of its whole path and its
/// whole contents and nothing else.
pub proof fn requests_hold_every_file_whole(targets: Seq<SummaryTargetView>, docs: Seq<Json>)
    requires
        docs.len() == targets.len(),
        forall|i: int|
            0 <= i < targets.len() ==> {
                &&& (#[trigger] docs[i]) is Object
                &&& docs[i]->Object_0.dom() == set!["path"@, "contents"@]
                &&& docs[i]->Object_0["path"@] == Json::Text(targets[i].path)
                &&& docs[i]->Object_0["contents"@] == Json::Text(targets[i].contents)
            },
    ensures
        summary_input(targets)
            == "Summarize each AGENTS file and decide when to read it.\n\nFiles:\n"@
            + pretty_text(docs),
{
    let files = file_documents(targets);
    assert forall|i: int| 0 <= i < targets.len() implies #[trigger] files[i] == docs[i] by {
        crate::request::request_holds_every_file(targets, i);
        let (a, b) = (files[i]->Object_0, docs[i]->Object_0);
        assert(docs[i] is Object);
        assert forall|key: Seq<char>| #[trigger] a.dom().contains(key) implies a[key] == b[key] by {
            assert(set!["path"@, "contents"@].contains(key));
        }
        assert(a =~= b);
    }
    assert(files =~= docs);
}

/// The text in front of the files does not depend on them, and they follow it whole.
pub proof fn requests_begin_with_the_question(files: Seq<char>)
    ensures
        summary_input_text(files)
            == "Summarize each AGENTS file and decide when to read it.\n\nFiles:\n"@ + files,
{
}

/// The model that gets the request: a selected one under its whole name whatever else
/// holds, else the default one where the provider is OpenAI, else the primary one
/// under its whole name, and none where there is none.
pub proof fn models_are_chosen_in_turn(
    model: Seq<char>,
    has_openai_provider: bool,
    primary: Option<Seq<char>>,
)
    ensures
        summary_model(Some(model), has_openai_provider, primary) == model,
        summary_model(None, true, primary) == "gpt-5.3-codex"@,
        summary_model(None, false, Some(model)) == model,
        summary_model(None, false, None) == Seq::<char>::empty(),
{
}

/// An optional text is there exactly if the string is, with all its characters.
pub proof fn optional_texts_hold_every_character(text: Option<&str>)
    ensures
        optional_text(text) is Some <==> text is Some,
        text matches Some(string) ==> optional_text(text) == Some(string@),
{
}

/// What the model is told asks for every path once, for no other, and for no more
/// than is accepted.
pub proof fn instructions_say_what_is_accepted()
    ensures
        STARTUP_AGENTS_SUMMARY_PROMPT@ == r#"You produce concise AGENTS routing hints.

Return valid JSON that strictly matches the provided schema.
For each file path in the input:
- why: one short sentence describing what guidance this file provides.
- when: one short sentence describing when the agent should read/apply this file.

Rules:
- include every input path exactly once
- do not invent paths
- keep `why` and `when` to 160 characters each
- keep text concise and actionable"#@,
        MAX_SUMMARY_WHY_CHARS == 160,
        MAX_SUMMARY_WHEN_CHARS == 160,
{
}

} // verus!
