//! The request for summaries: which model gets it, what it says, and how the
//! reply comes together.

use vstd::prelude::*;
use vstd::string::*;

use crate::discovery::{SummaryTarget, SummaryTargetView};
use crate::json::{
    array_value, bool_value, document, documents, insert_member, no_members, number_value,
    object_value, pretty_text, text_value, to_string_pretty, Json,
};
use crate::sort::views;
use crate::summaries::{MAX_SUMMARY_WHEN_CHARS, MAX_SUMMARY_WHY_CHARS};

verus! {

/// The model that gets the request where the provider is OpenAI and no other is
/// chosen.
pub const DEFAULT_STARTUP_AGENTS_SUMMARY_MODEL: &'static str = "gpt-5.3-codex";

/// What the model is told to do.
pub const STARTUP_AGENTS_SUMMARY_PROMPT: &'static str = r#"You produce concise AGENTS routing hints.

Return valid JSON that strictly matches the provided schema.
For each file path in the input:
- why: one short sentence describing what guidance this file provides.
- when: one short sentence describing when the agent should read/apply this file.

Rules:
- include every input path exactly once
- do not invent paths
- keep `why` and `when` to 160 characters each
- keep text concise and actionable"#;

/// The text in front of the files.
pub const SUMMARY_INPUT_HEADING: &'static str =
    "Summarize each AGENTS file and decide when to read it.\n\nFiles:\n";

/// The characters of an optional text.
pub open spec fn optional_text(text: Option<&str>) -> Option<Seq<char>> {
    match text {
        Some(text) => Some(text@),
        None => None,
    }
}

/// The model that gets the request: the selected one, else the default one where
/// the provider is OpenAI, else the primary one.
pub open spec fn summary_model(
    selected: Option<Seq<char>>,
    has_openai_provider: bool,
    primary: Option<Seq<char>>,
) -> Seq<char> {
    match (selected, primary) {
        (Some(model), _) => model,
        (None, _) if has_openai_provider => DEFAULT_STARTUP_AGENTS_SUMMARY_MODEL@,
        (None, Some(model)) => model,
        (None, None) => Seq::empty(),
    }
}

/// Chooses the model that gets the request.
pub fn select_startup_agents_summary_model(
    selected_model: Option<&str>,
    has_openai_provider_connected: bool,
    primary_model: Option<&str>,
) -> (result: String)
    ensures
        result@ == summary_model(
            optional_text(selected_model),
            has_openai_provider_connected,
            optional_text(primary_model),
        ),
{
    if let Some(model) = selected_model {
        return model.to_string();
    }
    if has_openai_provider_connected {
        return DEFAULT_STARTUP_AGENTS_SUMMARY_MODEL.to_string();
    }
    match primary_model {
        Some(model) => model.to_string(),
        None => String::new(),
    }
}

/// Says whether the choice of the model has to wait for the name of the primary
/// one.
pub fn needs_primary_model(
    selected_model: Option<&str>,
    has_openai_provider_connected: bool,
) -> (result: bool)
    ensures
        result == (selected_model is None && !has_openai_provider_connected),
{
    selected_model.is_none() && !has_openai_provider_connected
}

/// The primary model is asked for exactly where the choice depends on it.
pub proof fn primary_model_is_asked_for_where_it_counts(
    selected: Option<Seq<char>>,
    has_openai_provider: bool,
)
    ensures
        (selected is None && !has_openai_provider) <==> exists|
            one: Option<Seq<char>>,
            other: Option<Seq<char>>,
        | #[trigger]
            summary_model(selected, has_openai_provider, one) != #[trigger] summary_model(
                selected,
                has_openai_provider,
                other,
            ),
{
    if selected is None && !has_openai_provider {
        let one: Option<Seq<char>> = Some(seq!['a']);
        assert(summary_model(selected, has_openai_provider, one).len() == 1);
        assert(summary_model(selected, has_openai_provider, None::<Seq<char>>).len() == 0);
    }
}

/// The request could not be written.
#[derive(Clone, Copy, Debug, PartialEq, Eq, Structural)]
pub enum RequestError {
    /// The files could not be written as JSON.
    Serialization,
}

/// The JSON document for one file.
pub open spec fn file_document(target: SummaryTargetView) -> Json {
    Json::Object(
        Map::empty().insert("path"@, Json::Text(target.path)).insert(
            "contents"@,
            Json::Text(target.contents),
        ),
    )
}

/// The JSON documents for the files.
pub open spec fn file_documents(targets: Seq<SummaryTargetView>) -> Seq<Json> {
    targets.map_values(|target: SummaryTargetView| file_document(target))
}

/// The text of the request: what is asked for, and the files with their contents.
pub open spec fn summary_input(targets: Seq<SummaryTargetView>) -> Seq<char> {
    summary_input_text(pretty_text(file_documents(targets)))
}

/// The text of the request around the files.
pub open spec fn summary_input_text(files: Seq<char>) -> Seq<char> {
    SUMMARY_INPUT_HEADING@ + files
}

/// Puts the files, written as JSON, into the text of the request.
pub fn frame_summary_input(files_json: &str) -> (result: String)
    ensures
        result@ == summary_input_text(files_json@),
{
    SUMMARY_INPUT_HEADING.to_string().concat(files_json)
}

/// Writes one file as JSON.
pub fn file_value(target: &SummaryTarget) -> (value: serde_json::Value)
    ensures
        document(value) == file_document(target@),
{
    let mut file = no_members();
    insert_member(&mut file, "path", text_value(target.relative_path.as_str()));
    insert_member(&mut file, "contents", text_value(target.contents.as_str()));
    object_value(file)
}

/// Writes the text of the request.
pub fn build_summary_input_payload(summary_targets: &[SummaryTarget]) -> (result: Result<
    String,
    RequestError,
>)
    ensures
        result is Ok,
        result->Ok_0@ == summary_input(views(summary_targets@)),
{
    let mut files: Vec<serde_json::Value> = Vec::new();
    let ghost expected = file_documents(views(summary_targets@));
    let mut i: usize = 0;
    assert(documents(files@) =~= expected.take(0));
    while i < summary_targets.len()
        invariant
            i <= summary_targets.len(),
            expected == file_documents(views(summary_targets@)),
            documents(files@) == expected.take(i as int),
        decreases summary_targets.len() - i,
    {
        let ghost before = documents(files@);
        let value = file_value(&summary_targets[i]);
        files.push(value);
        proof {
            assert(documents(files@) =~= before.push(document(value)));
            assert(expected.take(i + 1) =~= expected.take(i as int).push(expected[i as int]));
        }
        i = i + 1;
    }
    assert(expected.take(i as int) =~= expected);
    match to_string_pretty(&files) {
        Ok(files_json) => Ok(frame_summary_input(files_json.as_str())),
        Err(_) => Err(RequestError::Serialization),
    }
}

/// The schema of a string.
pub open spec fn string_schema() -> Json {
    Json::Object(Map::empty().insert("type"@, Json::Text("string"@)))
}

/// The schema of a string of limited length.
pub open spec fn limited_string_schema(max_length: nat) -> Json {
    Json::Object(
        Map::empty().insert("type"@, Json::Text("string"@)).insert(
            "maxLength"@,
            Json::Number(max_length),
        ),
    )
}

/// The schema of one summary.
pub open spec fn item_schema() -> Json {
    Json::Object(
        Map::empty().insert("type"@, Json::Text("object"@)).insert(
            "properties"@,
            Json::Object(
                Map::empty().insert("path"@, string_schema()).insert(
                    "why"@,
                    limited_string_schema(MAX_SUMMARY_WHY_CHARS as nat),
                ).insert("when"@, limited_string_schema(MAX_SUMMARY_WHEN_CHARS as nat)),
            ),
        ).insert(
            "required"@,
            Json::Array(seq![Json::Text("path"@), Json::Text("why"@), Json::Text("when"@)]),
        ).insert("additionalProperties"@, Json::Bool(false)),
    )
}

/// The schema of a reply.
pub open spec fn reply_schema() -> Json {
    Json::Object(
        Map::empty().insert("type"@, Json::Text("object"@)).insert(
            "properties"@,
            Json::Object(
                Map::empty().insert(
                    "summaries"@,
                    Json::Object(
                        Map::empty().insert("type"@, Json::Text("array"@)).insert(
                            "items"@,
                            item_schema(),
                        ),
                    ),
                ),
            ),
        ).insert("required"@, Json::Array(seq![Json::Text("summaries"@)])).insert(
            "additionalProperties"@,
            Json::Bool(false),
        ),
    )
}

/// Writes the schema of a string.
fn string_schema_value() -> (value: serde_json::Value)
    ensures
        document(value) == string_schema(),
{
    let mut schema = no_members();
    insert_member(&mut schema, "type", text_value("string"));
    object_value(schema)
}

/// Writes the schema of a string of limited length.
fn limited_string_schema_value(max_length: usize) -> (value: serde_json::Value)
    ensures
        document(value) == limited_string_schema(max_length as nat),
{
    let mut schema = no_members();
    insert_member(&mut schema, "type", text_value("string"));
    insert_member(&mut schema, "maxLength", number_value(max_length));
    object_value(schema)
}

/// Writes the schema of one summary.
fn item_schema_value() -> (value: serde_json::Value)
    ensures
        document(value) == item_schema(),
{
    let mut properties = no_members();
    insert_member(&mut properties, "path", string_schema_value());
    insert_member(&mut properties, "why", limited_string_schema_value(MAX_SUMMARY_WHY_CHARS));
    insert_member(&mut properties, "when", limited_string_schema_value(MAX_SUMMARY_WHEN_CHARS));
    let required: Vec<serde_json::Value> = vec![
        text_value("path"),
        text_value("why"),
        text_value("when"),
    ];
    assert(documents(required@) =~= seq![
        Json::Text("path"@),
        Json::Text("why"@),
        Json::Text("when"@),
    ]);
    let mut schema = no_members();
    insert_member(&mut schema, "type", text_value("object"));
    insert_member(&mut schema, "properties", object_value(properties));
    insert_member(&mut schema, "required", array_value(required));
    insert_member(&mut schema, "additionalProperties", bool_value(false));
    object_value(schema)
}

/// Writes the schema that a reply has to match.
pub fn summary_output_schema() -> (value: serde_json::Value)
    ensures
        document(value) == reply_schema(),
{
    let mut summaries = no_members();
    insert_member(&mut summaries, "type", text_value("array"));
    insert_member(&mut summaries, "items", item_schema_value());
    let mut properties = no_members();
    insert_member(&mut properties, "summaries", object_value(summaries));
    let required: Vec<serde_json::Value> = vec![text_value("summaries")];
    assert(documents(required@) =~= seq![Json::Text("summaries"@)]);
    let mut schema = no_members();
    insert_member(&mut schema, "type", text_value("object"));
    insert_member(&mut schema, "properties", object_value(properties));
    insert_member(&mut schema, "required", array_value(required));
    insert_member(&mut schema, "additionalProperties", bool_value(false));
    object_value(schema)
}

/// The request for summaries: one message, no tools, and a reply that matches a
/// schema.
#[derive(Debug)]
pub struct SummaryPrompt {
    pub role: String,
    pub input: String,
    pub tools: Vec<String>,
    pub parallel_tool_calls: bool,
    pub base_instructions: String,
    pub output_schema: serde_json::Value,
}

/// Makes the request for summaries of the given files.
pub fn summary_prompt(summary_targets: &[SummaryTarget]) -> (result: Result<
    SummaryPrompt,
    RequestError,
>)
    ensures
        result is Ok,
        result->Ok_0.role@ == "user"@,
        result->Ok_0.input@ == summary_input(views(summary_targets@)),
        result->Ok_0.tools@.len() == 0,
        !result->Ok_0.parallel_tool_calls,
        result->Ok_0.base_instructions@ == STARTUP_AGENTS_SUMMARY_PROMPT@,
        document(result->Ok_0.output_schema) == reply_schema(),
{
    match build_summary_input_payload(summary_targets) {
        Ok(input) => Ok(
            SummaryPrompt {
                role: "user".to_string(),
                input,
                tools: Vec::new(),
                parallel_tool_calls: false,
                base_instructions: STARTUP_AGENTS_SUMMARY_PROMPT.to_string(),
                output_schema: summary_output_schema(),
            },
        ),
        Err(error) => Err(error),
    }
}

/// Something that the stream of a reply brings.
#[derive(Clone, Debug)]
pub enum ReplyEvent {
    /// A further piece of text.
    OutputTextDelta(String),
    /// A finished item; with its text, if it is a message that has any.
    OutputItemDone(Option<String>),
    /// The end of the reply.
    Completed,
    /// Anything else.
    Other,
}

/// What a [`ReplyEvent`] says.
pub enum ReplyEventView {
    OutputTextDelta(Seq<char>),
    OutputItemDone(Option<Seq<char>>),
    Completed,
    Other,
}

impl View for ReplyEvent {
    type V = ReplyEventView;

    open spec fn view(&self) -> ReplyEventView {
        match self {
            ReplyEvent::OutputTextDelta(delta) => ReplyEventView::OutputTextDelta(delta@),
            ReplyEvent::OutputItemDone(text) => ReplyEventView::OutputItemDone(
                match text {
                    Some(text) => Some(text@),
                    None => None,
                },
            ),
            ReplyEvent::Completed => ReplyEventView::Completed,
            ReplyEvent::Other => ReplyEventView::Other,
        }
    }
}

/// The text of a reply after an event: a piece of text is added at the end, and
/// the text of a finished item counts where there is no text yet.
pub open spec fn reply_after(text: Seq<char>, event: ReplyEventView) -> Seq<char> {
    match event {
        ReplyEventView::OutputTextDelta(delta) => text + delta,
        ReplyEventView::OutputItemDone(Some(item)) if text.len() == 0 => item,
        _ => text,
    }
}

/// The text of a reply after the events of a stream, up to its end.
pub open spec fn reply_text(events: Seq<ReplyEventView>) -> Seq<char>
    decreases events.len(),
{
    if events.len() == 0 {
        Seq::empty()
    } else if has_ended(events.drop_last()) {
        reply_text(events.drop_last())
    } else {
        reply_after(reply_text(events.drop_last()), events.last())
    }
}

/// Whether the end of the reply is among the events.
pub open spec fn has_ended(events: Seq<ReplyEventView>) -> bool {
    events.contains(ReplyEventView::Completed)
}

/// The text of a reply while it comes in.
#[derive(Clone, Debug)]
pub struct ReplyCollector {
    pub text: String,
}

impl ReplyCollector {
    /// No text yet.
    pub fn new() -> (result: ReplyCollector)
        ensures
            result.text@ == reply_text(Seq::empty()),
    {
        ReplyCollector { text: String::new() }
    }

    /// Takes an event in, and says whether the reply is complete.
    pub fn absorb(&mut self, event: ReplyEvent) -> (complete: bool)
        ensures
            final(self).text@ == reply_after(old(self).text@, event@),
            complete == (event@ == ReplyEventView::Completed),
    {
        match event {
            ReplyEvent::OutputTextDelta(delta) => {
                self.text.append(delta.as_str());
                false
            },
            ReplyEvent::OutputItemDone(item) => {
                if self.text.as_str().is_empty() {
                    if let Some(text) = item {
                        proof {
                            assert(self.text@ + text@ =~= text@);
                        }
                        self.text.append(text.as_str());
                    }
                }
                false
            },
            ReplyEvent::Completed => true,
            ReplyEvent::Other => false,
        }
    }
}

/// The request holds every file, in the order of the files, with its path and its
/// contents and nothing else.
pub proof fn request_holds_every_file(targets: Seq<SummaryTargetView>, i: int)
    requires
        0 <= i < targets.len(),
    ensures
        file_documents(targets).len() == targets.len(),
        file_documents(targets)[i] matches Json::Object(file) && {
            &&& file.dom() == set!["path"@, "contents"@]
            &&& file["path"@] == Json::Text(targets[i].path)
            &&& file["contents"@] == Json::Text(targets[i].contents)
        },
{
    reveal_strlit("path");
    reveal_strlit("contents");
    assert("path"@.len() != "contents"@.len());
    let file = file_documents(targets)[i]->Object_0;
    assert(file.dom() =~= set!["path"@, "contents"@]);
}

/// As long as the end of the reply has not come, taking one more event in makes of
/// the text of the events so far the text of all of them.
pub proof fn replies_come_together_event_by_event(
    events: Seq<ReplyEventView>,
    event: ReplyEventView,
)
    ensures
        !has_ended(events) ==> reply_text(events.push(event)) == reply_after(
            reply_text(events),
            event,
        ),
        has_ended(events.push(event)) <==> has_ended(events) || event
            == ReplyEventView::Completed,
{
    let longer = events.push(event);
    assert(longer.drop_last() =~= events);
    if has_ended(events) {
        let i = events.index_of(ReplyEventView::Completed);
        assert(longer[i] == ReplyEventView::Completed);
    }
    assert(longer[events.len() as int] == event);
}

/// The text of a reply only grows while events come in, and not after its end.
pub proof fn replies_only_grow(events: Seq<ReplyEventView>, more: Seq<ReplyEventView>)
    ensures
        reply_text(events).is_prefix_of(reply_text(events + more)),
        has_ended(events) ==> reply_text(events + more) == reply_text(events),
    decreases more.len(),
{
    if more.len() == 0 {
        assert(events + more =~= events);
        assert(reply_text(events) =~= reply_text(events).subrange(
            0,
            reply_text(events).len() as int,
        ));
    } else {
        let shorter = events + more.drop_last();
        replies_only_grow(events, more.drop_last());
        assert((events + more).drop_last() =~= shorter);
        let before = reply_text(shorter);
        let after = reply_text(events + more);
        assert(before.is_prefix_of(after)) by {
            assert(before =~= after.subrange(0, before.len() as int));
        }
        assert(reply_text(events) =~= after.subrange(0, reply_text(events).len() as int));
        if has_ended(events) {
            let i = events.index_of(ReplyEventView::Completed);
            assert(shorter[i] == ReplyEventView::Completed);
            assert(has_ended(shorter));
        }
    }
}

/// The pieces of text among the events.
pub open spec fn text_pieces(events: Seq<ReplyEventView>) -> Seq<char>
    decreases events.len(),
{
    if events.len() == 0 {
        Seq::empty()
    } else {
        match events.last() {
            ReplyEventView::OutputTextDelta(delta) => text_pieces(events.drop_last()) + delta,
            _ => text_pieces(events.drop_last()),
        }
    }
}

/// Whether an event is a finished item that has a text.
pub open spec fn is_item_with_text(event: ReplyEventView) -> bool {
    event matches ReplyEventView::OutputItemDone(Some(_))
}

proof fn lemma_not_ended_before(events: Seq<ReplyEventView>)
    requires
        events.len() > 0,
        !has_ended(events),
    ensures
        !has_ended(events.drop_last()),
{
    if has_ended(events.drop_last()) {
        let i = events.drop_last().index_of(ReplyEventView::Completed);
        assert(events[i] == ReplyEventView::Completed);
    }
}

proof fn lemma_pieces_without_items(events: Seq<ReplyEventView>)
    requires
        forall|i: int| 0 <= i < events.len() ==> !is_item_with_text(#[trigger] events[i]),
        !has_ended(events),
    ensures
        reply_text(events) == text_pieces(events),
    decreases events.len(),
{
    if events.len() > 0 {
        let earlier = events.drop_last();
        lemma_not_ended_before(events);
        assert forall|i: int| 0 <= i < earlier.len() implies !is_item_with_text(
            #[trigger] earlier[i],
        ) by {
            assert(earlier[i] == events[i]);
        }
        lemma_pieces_without_items(earlier);
        assert(!is_item_with_text(events[events.len() - 1]));
    }
}

/// Where a stream brings text before any finished item that has a text, the reply
/// is its pieces of text one after the other: what finished items repeat is not
/// taken twice.
pub proof fn streamed_text_is_not_taken_twice(events: Seq<ReplyEventView>, first: int)
    requires
        0 <= first < events.len(),
        events[first] matches ReplyEventView::OutputTextDelta(delta) && delta.len() > 0,
        forall|i: int| 0 <= i < first ==> !is_item_with_text(#[trigger] events[i]),
        !has_ended(events.drop_last()),
    ensures
        reply_text(events) == text_pieces(events),
        reply_text(events).len() > 0,
    decreases events.len(),
{
    let earlier = events.drop_last();
    assert forall|i: int| 0 <= i < earlier.len() implies #[trigger] earlier[i] == events[i] by {}
    if first == events.len() - 1 {
        assert forall|i: int| 0 <= i < earlier.len() implies !is_item_with_text(
            #[trigger] earlier[i],
        ) by {
            assert(!is_item_with_text(events[i]));
        }
        lemma_pieces_without_items(earlier);
    } else {
        lemma_not_ended_before(earlier);
        streamed_text_is_not_taken_twice(earlier, first);
    }
}

/// Where a stream brings no piece of text, the reply is the text of the first
/// finished item that has any.
pub proof fn finished_items_stand_in_for_streamed_text(
    before: Seq<ReplyEventView>,
    text: Seq<char>,
    after: Seq<ReplyEventView>,
)
    requires
        text.len() > 0,
        forall|i: int|
            0 <= i < before.len() ==> #[trigger] before[i] == ReplyEventView::Other || before[i]
                == ReplyEventView::OutputItemDone(None),
        forall|i: int|
            0 <= i < after.len() ==> !(#[trigger] after[i] is OutputTextDelta),
    ensures
        reply_text(before.push(ReplyEventView::OutputItemDone(Some(text))) + after) == text,
    decreases before.len() + after.len(),
{
    let item = ReplyEventView::OutputItemDone(Some(text));
    let events = before.push(item) + after;
    if after.len() > 0 {
        let rest = after.drop_last();
        assert forall|i: int| 0 <= i < rest.len() implies !(#[trigger] rest[i]
            is OutputTextDelta) by {
            assert(rest[i] == after[i]);
        }
        finished_items_stand_in_for_streamed_text(before, text, rest);
        assert(events.drop_last() =~= before.push(item) + rest);
        assert(events.last() == after[after.len() - 1]);
    } else {
        lemma_nothing_comes_of_empty_events(before);
        assert(events.drop_last() =~= before);
        assert(events.last() == item);
    }
}

proof fn lemma_nothing_comes_of_empty_events(events: Seq<ReplyEventView>)
    requires
        forall|i: int|
            0 <= i < events.len() ==> #[trigger] events[i] == ReplyEventView::Other || events[i]
                == ReplyEventView::OutputItemDone(None),
    ensures
        reply_text(events).len() == 0,
        !has_ended(events),
    decreases events.len(),
{
    if events.len() > 0 {
        let earlier = events.drop_last();
        assert forall|i: int| 0 <= i < earlier.len() implies #[trigger] earlier[i]
            == ReplyEventView::Other || earlier[i] == ReplyEventView::OutputItemDone(None) by {
            assert(earlier[i] == events[i]);
        }
        lemma_nothing_comes_of_empty_events(earlier);
        assert(events[events.len() - 1] == events.last());
    }
}

} // verus!
