//! Logs of the CodeBuddy CN IDE.
//!
//! Lines name models, conversations and traces as they come; a `notifyStepEnd`
//! line carries the usage of one step.

use crate::clock;
use crate::clock::parse_log_timestamp;
use crate::codebuddy;
use crate::codebuddy::clean_model_name;
use crate::estimate;
use crate::estimate::extract_output_tokens_from_message_file;
use crate::json;
use crate::json::{i64_of, json_or, parse_json, Json};
use crate::maps;
use crate::maps::TextMap;
use crate::patterns;
use crate::patterns::find_group;
use crate::text;
use crate::traces;
use crate::traces::{combine_trace_outcomes, or_zero_of};
use crate::usage;
use crate::usage::{
    clamp_sqlite_seconds, combine_results, import_records, FileOutcome, ImportOutcome,
    ImportSource, SessionSyncResult, UsageRecord, UsageStore,
};
use vstd::prelude::*;
use vstd::string::*;

verus! {

// ---------------------------------------------------------------------------
// What lines say
// ---------------------------------------------------------------------------

/// What a line says of models, conversations and traces.
#[derive(Debug)]
pub struct LineMatches {
    /// The model that is prepared.
    pub prepared: Option<String>,
    /// The model id.
    pub model_id: Option<String>,
    /// The conversation, request and trace of an agent report.
    pub report: Option<(String, String, String)>,
    /// The request and conversation of a chunk report.
    pub chunk: Option<(String, String)>,
    /// The trace in brackets behind the name of an agent.
    pub bracket_trace: Option<String>,
}

/// What a line says of models, conversations and traces.
#[verifier::ext_equal]
pub ghost struct MatchesModel {
    pub prepared: Option<Seq<char>>,
    pub model_id: Option<Seq<char>>,
    pub report: Option<(Seq<char>, Seq<char>, Seq<char>)>,
    pub chunk: Option<(Seq<char>, Seq<char>)>,
    pub bracket_trace: Option<Seq<char>>,
}

impl View for LineMatches {
    type V = MatchesModel;

    open spec fn view(&self) -> MatchesModel {
        MatchesModel {
            prepared: text::opt_view(self.prepared),
            model_id: text::opt_view(self.model_id),
            report: match self.report {
                Some((c, r, t)) => Some((c@, r@, t@)),
                None => None,
            },
            chunk: match self.chunk {
                Some((r, c)) => Some((r@, c@)),
                None => None,
            },
            bracket_trace: text::opt_view(self.bracket_trace),
        }
    }
}

/// The line on which a model is prepared.
pub open spec fn prepared_pattern() -> Seq<char> {
    r"(?:Preparing model|Model prepared):\s*([A-Za-z0-9.:_-]+)"@
}

/// The id of a model.
pub open spec fn model_id_pattern() -> Seq<char> {
    r"modelId:\s*([A-Za-z0-9.:_-]+)"@
}

/// An agent report.
pub open spec fn report_pattern() -> Seq<char> {
    r"conversationId:\s*([a-zA-Z0-9_-]+),\s*requestId:\s*([a-zA-Z0-9_-]+),\s*traceId:\s*([a-zA-Z0-9_-]+)"@
}

/// A chunk report.
pub open spec fn chunk_pattern() -> Seq<char> {
    r"requestId=([a-zA-Z0-9_-]+),\s*conversationId=([a-zA-Z0-9_-]+)"@
}

/// A trace in brackets.
pub open spec fn bracket_trace_pattern() -> Seq<char> {
    r"\[(?:CraftInvokableAgent|AgentReporter)\]\s*\[([a-zA-Z0-9_-]+)\]"@
}

/// A group of the first match in a line, or the empty text.
pub open spec fn group_or_blank(pattern: Seq<char>, line: Seq<char>, group: nat) -> Seq<char> {
    traces::or_blank(patterns::regex_group(pattern, line, group))
}

/// What a line says of models, conversations and traces. A chunk report counts
/// only on a line without an agent report.
pub open spec fn line_matches(line: Seq<char>) -> MatchesModel {
    let reported = patterns::regex_group(report_pattern(), line, 0) is Some;
    MatchesModel {
        prepared: patterns::regex_group(prepared_pattern(), line, 1),
        model_id: patterns::regex_group(model_id_pattern(), line, 1),
        report: if reported {
            Some(
                (
                    group_or_blank(report_pattern(), line, 1),
                    group_or_blank(report_pattern(), line, 2),
                    group_or_blank(report_pattern(), line, 3),
                ),
            )
        } else {
            None
        },
        chunk: if !reported && patterns::regex_group(chunk_pattern(), line, 0) is Some {
            Some(
                (
                    group_or_blank(chunk_pattern(), line, 1),
                    group_or_blank(chunk_pattern(), line, 2),
                ),
            )
        } else {
            None
        },
        bracket_trace: patterns::regex_group(bracket_trace_pattern(), line, 1),
    }
}

fn find_or_blank(pattern: &str, line: &str, group: usize) -> (r: String)
    ensures
        r@ == group_or_blank(pattern@, line@, group as nat),
{
    match find_group(pattern, line, group) {
        Some(s) => s,
        None => "".to_owned(),
    }
}

/// Reads what a line says of models, conversations and traces.
pub fn read_line(line: &str) -> (r: LineMatches)
    ensures
        r@ == line_matches(line@),
{
    let report_regex =
        r"conversationId:\s*([a-zA-Z0-9_-]+),\s*requestId:\s*([a-zA-Z0-9_-]+),\s*traceId:\s*([a-zA-Z0-9_-]+)";
    let chunk_regex = r"requestId=([a-zA-Z0-9_-]+),\s*conversationId=([a-zA-Z0-9_-]+)";
    let reported = find_group(report_regex, line, 0).is_some();
    let report = if reported {
        Some(
            (
                find_or_blank(report_regex, line, 1),
                find_or_blank(report_regex, line, 2),
                find_or_blank(report_regex, line, 3),
            ),
        )
    } else {
        None
    };
    let chunk = if !reported && find_group(chunk_regex, line, 0).is_some() {
        Some((find_or_blank(chunk_regex, line, 1), find_or_blank(chunk_regex, line, 2)))
    } else {
        None
    };
    LineMatches {
        prepared: find_group(
            r"(?:Preparing model|Model prepared):\s*([A-Za-z0-9.:_-]+)",
            line,
            1,
        ),
        model_id: find_group(r"modelId:\s*([A-Za-z0-9.:_-]+)", line, 1),
        report,
        chunk,
        bracket_trace: find_group(
            r"\[(?:CraftInvokableAgent|AgentReporter)\]\s*\[([a-zA-Z0-9_-]+)\]",
            line,
            1,
        ),
    }
}

// ---------------------------------------------------------------------------
// What is known after the lines so far
// ---------------------------------------------------------------------------

/// What the lines so far have named: the current model, trace and conversation,
/// and the trace, conversation and model of each request.
#[verifier::ext_equal]
pub ghost struct LogModel {
    pub model: Option<Seq<char>>,
    pub trace: Option<Seq<char>>,
    pub conversation: Option<Seq<char>>,
    pub traces: Map<Seq<char>, Seq<char>>,
    pub conversations: Map<Seq<char>, Seq<char>>,
    pub models: Map<Seq<char>, Seq<char>>,
}

/// What the lines so far have named.
pub struct LogState {
    model: Option<String>,
    trace: Option<String>,
    conversation: Option<String>,
    traces: TextMap,
    conversations: TextMap,
    models: TextMap,
}

impl View for LogState {
    type V = LogModel;

    closed spec fn view(&self) -> LogModel {
        LogModel {
            model: text::opt_view(self.model),
            trace: text::opt_view(self.trace),
            conversation: text::opt_view(self.conversation),
            traces: self.traces@,
            conversations: self.conversations@,
            models: self.models@,
        }
    }
}

/// Nothing has been named yet.
pub open spec fn empty_log() -> LogModel {
    LogModel {
        model: None,
        trace: None,
        conversation: None,
        traces: Map::empty(),
        conversations: Map::empty(),
        models: Map::empty(),
    }
}

/// The current model after a candidate; one without a model name changes
/// nothing.
pub open spec fn with_model(log: LogModel, candidate: Option<Seq<char>>) -> LogModel {
    match candidate {
        Some(c) => match codebuddy::clean_name(c) {
            Some(name) => LogModel { model: Some(name), ..log },
            None => log,
        },
        None => log,
    }
}

/// The trace of a request.
pub open spec fn with_trace(log: LogModel, request: Seq<char>, trace: Seq<char>) -> LogModel {
    if trace.len() > 0 {
        LogModel { traces: log.traces.insert(request, trace), trace: Some(trace), ..log }
    } else {
        log
    }
}

/// The conversation of a request.
pub open spec fn with_conversation(
    log: LogModel,
    request: Seq<char>,
    conversation: Seq<char>,
) -> LogModel {
    if conversation.len() > 0 {
        LogModel {
            conversations: log.conversations.insert(request, conversation),
            conversation: Some(conversation),
            ..log
        }
    } else {
        log
    }
}

/// The current model as the model of a request.
pub open spec fn with_request_model(log: LogModel, request: Seq<char>) -> LogModel {
    match log.model {
        Some(m) => LogModel { models: log.models.insert(request, m), ..log },
        None => log,
    }
}

/// What is known after an agent report.
pub open spec fn with_report(
    log: LogModel,
    report: Option<(Seq<char>, Seq<char>, Seq<char>)>,
) -> LogModel {
    match report {
        Some((conversation, request, trace)) => if request.len() > 0 {
            with_request_model(
                with_conversation(with_trace(log, request, trace), request, conversation),
                request,
            )
        } else {
            log
        },
        None => log,
    }
}

/// What is known after a chunk report.
pub open spec fn with_chunk(log: LogModel, chunk: Option<(Seq<char>, Seq<char>)>) -> LogModel {
    match chunk {
        Some((request, conversation)) => if request.len() > 0 && conversation.len() > 0 {
            with_request_model(with_conversation(log, request, conversation), request)
        } else {
            log
        },
        None => log,
    }
}

/// What is known after a line.
pub open spec fn after_line(log: LogModel, m: MatchesModel) -> LogModel {
    let modelled = with_model(with_model(log, m.prepared), m.model_id);
    let reported = with_chunk(with_report(modelled, m.report), m.chunk);
    match m.bracket_trace {
        Some(t) => LogModel { trace: Some(t), ..reported },
        None => reported,
    }
}

impl LogState {
    /// Nothing has been named yet.
    pub fn new() -> (r: Self)
        ensures
            r@ == empty_log(),
    {
        LogState {
            model: None,
            trace: None,
            conversation: None,
            traces: TextMap::new(),
            conversations: TextMap::new(),
            models: TextMap::new(),
        }
    }

    fn take_model(&mut self, candidate: &Option<String>)
        ensures
            final(self)@ == with_model(old(self)@, text::opt_view(*candidate)),
    {
        if let Some(c) = candidate {
            if let Some(name) = clean_model_name(c.as_str()) {
                self.model = Some(name);
            }
        }
    }

    fn take_trace(&mut self, request: &String, trace: &String)
        ensures
            final(self)@ == with_trace(old(self)@, request@, trace@),
    {
        if !trace.as_str().is_empty() {
            self.traces.insert(request.clone(), trace.clone());
            self.trace = Some(trace.clone());
        }
    }

    fn take_conversation(&mut self, request: &String, conversation: &String)
        ensures
            final(self)@ == with_conversation(old(self)@, request@, conversation@),
    {
        if !conversation.as_str().is_empty() {
            self.conversations.insert(request.clone(), conversation.clone());
            self.conversation = Some(conversation.clone());
        }
    }

    fn take_request_model(&mut self, request: &String)
        ensures
            final(self)@ == with_request_model(old(self)@, request@),
    {
        if let Some(m) = &self.model {
            let name = m.clone();
            self.models.insert(request.clone(), name);
        }
    }

    /// Takes what a line says.
    pub fn take_line(&mut self, m: &LineMatches)
        ensures
            final(self)@ == after_line(old(self)@, m@),
    {
        self.take_model(&m.prepared);
        self.take_model(&m.model_id);
        if let Some((conversation, request, trace)) = &m.report {
            if !request.as_str().is_empty() {
                self.take_trace(request, trace);
                self.take_conversation(request, conversation);
                self.take_request_model(request);
            }
        }
        if let Some((request, conversation)) = &m.chunk {
            if !request.as_str().is_empty() && !conversation.as_str().is_empty() {
                self.take_conversation(request, conversation);
                self.take_request_model(request);
            }
        }
        if let Some(t) = &m.bracket_trace {
            self.trace = Some(t.clone());
        }
    }
}

// ---------------------------------------------------------------------------
// Steps
// ---------------------------------------------------------------------------

/// Whether the line is that of the end of a step.
pub open spec fn is_step(line: Seq<char>) -> bool {
    text::has_text(line, "notifyStepEnd"@)
}

/// The usage document of a step: what stands from the first opening brace
/// behind `usage:` to the next closing brace.
pub open spec fn usage_text(line: Seq<char>) -> Option<Seq<char>> {
    match text::cut(line, "usage:"@).1 {
        Some(after) => match text::cut(after, "{"@).1 {
            Some(body) => match text::cut(body, "}"@) {
                (inner, Some(_)) => Some("{"@ + inner + "}"@),
                (_, None) => None,
            },
            None => None,
        },
        None => None,
    }
}

/// The token counts of a step.
#[derive(Debug, Clone, Copy, PartialEq, Eq, Structural)]
pub struct StepUsage {
    pub input_tokens: i64,
    pub output_tokens: i64,
    pub cache_read_tokens: i64,
    pub cache_creation_tokens: i64,
    pub total_tokens: i64,
}

/// The token counts of a usage document; a count that is missing, or no
/// integer, is zero. Cache counts have several names, of which the first that is
/// there counts.
pub open spec fn step_usage(u: json::JsonModel) -> StepUsage {
    StepUsage {
        input_tokens: traces::or_zero(json::opt_i64(u.field("inputTokens"@))),
        output_tokens: traces::or_zero(json::opt_i64(u.field("outputTokens"@))),
        cache_read_tokens: traces::or_zero(
            json::opt_i64(json::either(u.field("cacheTokens"@), u.field("cachedTokens"@))),
        ),
        cache_creation_tokens: traces::or_zero(
            json::opt_i64(
                json::either(
                    u.field("cachedWriteTokens"@),
                    json::either(
                        u.field("cacheWriteTokens"@),
                        json::either(
                            u.field("cacheCreationTokens"@),
                            u.field("cachedCreationTokens"@),
                        ),
                    ),
                ),
            ),
        ),
        total_tokens: traces::or_zero(json::opt_i64(u.field("totalTokens"@))),
    }
}

/// The usage of a line, where it carries a usage document.
pub open spec fn line_usage(line: Seq<char>) -> Option<StepUsage> {
    match usage_text(line) {
        Some(t) => match json::json_document(t) {
            Ok(u) => Some(step_usage(u)),
            Err(_) => None,
        },
        None => None,
    }
}

/// What a step line says of its step.
#[derive(Debug)]
pub struct StepMatches {
    /// The number of the step.
    pub number: Option<String>,
    pub request: String,
    pub message: String,
    /// The id in brackets behind the name of the agent.
    pub bracket: String,
}

/// What a step line says of its step.
#[verifier::ext_equal]
pub ghost struct StepModel {
    pub number: Option<Seq<char>>,
    pub request: Seq<char>,
    pub message: Seq<char>,
    pub bracket: Seq<char>,
}

impl View for StepMatches {
    type V = StepModel;

    open spec fn view(&self) -> StepModel {
        StepModel {
            number: text::opt_view(self.number),
            request: self.request@,
            message: self.message@,
            bracket: self.bracket@,
        }
    }
}

/// The id of the message of a step.
pub open spec fn message_pattern() -> Seq<char> {
    r"messageId:\s*([a-zA-Z0-9_-]+)"@
}

/// What a step line says of its step.
pub open spec fn step_matches(line: Seq<char>) -> StepModel {
    StepModel {
        number: patterns::regex_group(r"step:\s*(\d+)"@, line, 1),
        request: group_or_blank(r"requestId:\s*([a-zA-Z0-9_-]+)"@, line, 1),
        message: group_or_blank(message_pattern(), line, 1),
        bracket: group_or_blank(r"\[BaseAgent:[^\]]+\]\s*\[([a-zA-Z0-9_-]+)\]"@, line, 1),
    }
}

/// Reads what a step line says of its step.
pub fn read_step(line: &str) -> (r: StepMatches)
    ensures
        r@ == step_matches(line@),
{
    StepMatches {
        number: find_group(r"step:\s*(\d+)", line, 1),
        request: find_or_blank(r"requestId:\s*([a-zA-Z0-9_-]+)", line, 1),
        message: find_or_blank(r"messageId:\s*([a-zA-Z0-9_-]+)", line, 1),
        bracket: find_or_blank(r"\[BaseAgent:[^\]]+\]\s*\[([a-zA-Z0-9_-]+)\]", line, 1),
    }
}

/// The number of a step: 1 where the line does not say.
pub open spec fn step_number(number: Option<Seq<char>>) -> nat {
    match number {
        Some(s) => match text::unsigned_value(s, u32::MAX as nat) {
            Some(n) => n,
            None => 1,
        },
        None => 1,
    }
}

/// The usage of a step with the output tokens that its message shows, where the
/// line reports none.
pub open spec fn recovered_usage(u: StepUsage, message: Option<Seq<char>>) -> StepUsage {
    if u.output_tokens == 0 {
        match message {
            Some(content) => match estimate::message_file_tokens(content) {
                Some(n) => StepUsage { output_tokens: n, ..u },
                None => u,
            },
            None => u,
        }
    } else {
        u
    }
}

/// Whether a step used nothing.
pub open spec fn is_unused(u: StepUsage) -> bool {
    u.input_tokens == 0 && u.output_tokens == 0 && u.cache_read_tokens == 0
        && u.cache_creation_tokens == 0 && u.total_tokens == 0
}

/// The trace of a step: that of its request, else the current one, else the id
/// in brackets, else the request.
pub open spec fn step_trace(log: LogModel, m: StepModel) -> Seq<char> {
    match (maps::value_of(log.traces, m.request), log.trace) {
        (Some(t), _) => t,
        (None, Some(t)) => t,
        (None, None) => if m.bracket.len() > 0 {
            m.bracket
        } else {
            m.request
        },
    }
}

/// The session of a step: the conversation of its request, else the current
/// one, else the trace.
pub open spec fn step_session(log: LogModel, m: StepModel) -> Seq<char> {
    match (maps::value_of(log.conversations, m.request), log.conversation) {
        (Some(c), _) => c,
        (None, Some(c)) => c,
        (None, None) => step_trace(log, m),
    }
}

/// The model of a step: that of its request, else the current one, where it is
/// a model name, else `unknown`.
pub open spec fn step_model(log: LogModel, m: StepModel) -> Seq<char> {
    match json::either(maps::value_of(log.models, m.request), log.model) {
        Some(name) => match codebuddy::clean_name(name) {
            Some(clean) => clean,
            None => "unknown"@,
        },
        None => "unknown"@,
    }
}

/// The record of a step.
pub open spec fn step_record(
    log: LogModel,
    m: StepModel,
    u: StepUsage,
    created_at: Option<i64>,
) -> usage::RecordModel {
    usage::RecordModel {
        request_id: "codebuddy:"@ + step_trace(log, m) + ":"@ + if m.message.len() > 0 {
            m.message
        } else {
            "step_"@ + text::decimal(step_number(m.number))
        },
        model: step_model(log, m),
        input_tokens: u.input_tokens,
        output_tokens: u.output_tokens,
        cache_read_tokens: u.cache_read_tokens,
        cache_creation_tokens: u.cache_creation_tokens,
        session_id: step_session(log, m),
        created_at: usage::sqlite_seconds(traces::or_zero(created_at)),
    }
}

/// The text of the message file of a step, where there is one.
pub open spec fn step_message(messages: Map<Seq<char>, Seq<char>>, m: StepModel) -> Option<
    Seq<char>,
> {
    if m.message.len() > 0 {
        maps::value_of(messages, m.message)
    } else {
        None
    }
}

/// What a step imports: nothing where the line carries no usage document or the
/// step used nothing.
pub open spec fn step_outcome(
    log: LogModel,
    m: StepModel,
    u: Option<StepUsage>,
    messages: Map<Seq<char>, Seq<char>>,
    created_at: Option<i64>,
) -> Option<usage::RecordModel> {
    match u {
        Some(reported) => {
            let used = recovered_usage(reported, step_message(messages, m));
            if is_unused(used) {
                None
            } else {
                Some(step_record(log, m, used, created_at))
            }
        },
        None => None,
    }
}

/// The usage document of a step line, where it carries one.
fn usage_text_of(line: &str) -> (r: Option<String>)
    ensures
        text::opt_view(r) == usage_text(line@),
{
    match text::cut_of(line, "usage:").1 {
        Some(after) => match text::cut_of(after, "{").1 {
            Some(body) => {
                let (inner, rest) = text::cut_of(body, "}");
                if rest.is_some() {
                    Some(text::concat3("{", inner, "}"))
                } else {
                    None
                }
            },
            None => None,
        },
        None => None,
    }
}

/// Reads the token counts of a usage document.
pub fn read_step_usage(u: &Json) -> (r: StepUsage)
    ensures
        r == step_usage(u@),
{
    let cache_read = json_or(u.get("cacheTokens"), u.get("cachedTokens"));
    let cache_creation = json_or(
        u.get("cachedWriteTokens"),
        json_or(
            u.get("cacheWriteTokens"),
            json_or(u.get("cacheCreationTokens"), u.get("cachedCreationTokens")),
        ),
    );
    StepUsage {
        input_tokens: or_zero_of(i64_of(u.get("inputTokens"))),
        output_tokens: or_zero_of(i64_of(u.get("outputTokens"))),
        cache_read_tokens: or_zero_of(i64_of(cache_read)),
        cache_creation_tokens: or_zero_of(i64_of(cache_creation)),
        total_tokens: or_zero_of(i64_of(u.get("totalTokens"))),
    }
}

/// Reads the usage of a line.
pub fn read_line_usage(line: &str) -> (r: Option<StepUsage>)
    ensures
        r == line_usage(line@),
{
    match usage_text_of(line) {
        Some(t) => match parse_json(t.as_str()) {
            Ok(u) => Some(read_step_usage(&u)),
            Err(_) => None,
        },
        None => None,
    }
}

fn step_number_of(number: &Option<String>) -> (r: u32)
    ensures
        r == step_number(text::opt_view(*number)),
{
    match number {
        Some(s) => match text::parse_u32(s.as_str()) {
            Some(n) => n,
            None => 1,
        },
        None => 1,
    }
}

impl LogState {
    fn trace_of(&self, m: &StepMatches) -> (r: String)
        ensures
            r@ == step_trace(self@, m@),
    {
        match self.traces.get(m.request.as_str()) {
            Some(t) => t.to_owned(),
            None => match &self.trace {
                Some(t) => t.clone(),
                None => if !m.bracket.as_str().is_empty() {
                    m.bracket.clone()
                } else {
                    m.request.clone()
                },
            },
        }
    }

    fn session_of(&self, m: &StepMatches) -> (r: String)
        ensures
            r@ == step_session(self@, m@),
    {
        match self.conversations.get(m.request.as_str()) {
            Some(c) => c.to_owned(),
            None => match &self.conversation {
                Some(c) => c.clone(),
                None => self.trace_of(m),
            },
        }
    }

    fn model_of(&self, m: &StepMatches) -> (r: String)
        ensures
            r@ == step_model(self@, m@),
    {
        let found: Option<String> = match self.models.get(m.request.as_str()) {
            Some(name) => clean_model_name(name),
            None => match &self.model {
                Some(name) => clean_model_name(name.as_str()),
                None => None,
            },
        };
        match found {
            Some(name) => name,
            None => "unknown".to_owned(),
        }
    }

    /// Works out what a step imports.
    pub fn take_step(
        &self,
        m: &StepMatches,
        u: Option<StepUsage>,
        messages: &TextMap,
        created_at: Option<i64>,
    ) -> (r: Option<UsageRecord>)
        ensures
            match r {
                Some(record) => step_outcome(self@, m@, u, messages@, created_at) == Some(record@),
                None => step_outcome(self@, m@, u, messages@, created_at) is None,
            },
    {
        let mut used = match u {
            Some(u) => u,
            None => {
                return None;
            },
        };
        if used.output_tokens == 0 && !m.message.as_str().is_empty() {
            if let Some(content) = messages.get(m.message.as_str()) {
                if let Some(n) = extract_output_tokens_from_message_file(content) {
                    used.output_tokens = n;
                }
            }
        }
        if used.input_tokens == 0 && used.output_tokens == 0 && used.cache_read_tokens == 0
            && used.cache_creation_tokens == 0 && used.total_tokens == 0 {
            return None;
        }
        let mut request_id = String::from_str("codebuddy:");
        request_id.append(self.trace_of(m).as_str());
        request_id.append(":");
        if !m.message.as_str().is_empty() {
            request_id.append(m.message.as_str());
        } else {
            let mut span = String::from_str("step_");
            span.append(text::decimal_of(step_number_of(&m.number) as u64).as_str());
            request_id.append(span.as_str());
        }
        Some(
            UsageRecord {
                request_id,
                model: self.model_of(m),
                input_tokens: used.input_tokens,
                output_tokens: used.output_tokens,
                cache_read_tokens: used.cache_read_tokens,
                cache_creation_tokens: used.cache_creation_tokens,
                session_id: self.session_of(m),
                created_at: clamp_sqlite_seconds(or_zero_of(created_at)),
            },
        )
    }
}

// ---------------------------------------------------------------------------
// Files
// ---------------------------------------------------------------------------

/// What the lines of a log give: what is known after them, the records of their
/// steps, and how many steps were skipped.
#[verifier::ext_equal]
pub ghost struct ParsedLogModel {
    pub log: LogModel,
    pub records: Seq<usage::RecordModel>,
    pub skipped: nat,
}

/// What the lines give with one more. An empty line says nothing.
pub open spec fn with_line(
    p: ParsedLogModel,
    line: Seq<char>,
    created_at: Option<i64>,
    messages: Map<Seq<char>, Seq<char>>,
) -> ParsedLogModel {
    if line.len() == 0 {
        p
    } else {
        let log = after_line(p.log, line_matches(line));
        if is_step(line) {
            match step_outcome(log, step_matches(line), line_usage(line), messages, created_at) {
                Some(record) => ParsedLogModel {
                    log,
                    records: p.records.push(record),
                    skipped: p.skipped,
                },
                None => ParsedLogModel { log, records: p.records, skipped: p.skipped + 1 },
            }
        } else {
            ParsedLogModel { log, ..p }
        }
    }
}

/// What the lines of a log give, where line `i` was written at `times[i]`.
pub open spec fn parsed_log(
    lines: Seq<Seq<char>>,
    times: Seq<Option<i64>>,
    messages: Map<Seq<char>, Seq<char>>,
) -> ParsedLogModel
    decreases lines.len(),
{
    if lines.len() == 0 {
        ParsedLogModel { log: empty_log(), records: seq![], skipped: 0 }
    } else {
        with_line(
            parsed_log(lines.drop_last(), times, messages),
            lines.last(),
            times[lines.len() - 1],
            messages,
        )
    }
}

/// The records of a log and the number of steps that are skipped.
#[derive(Debug)]
pub struct ParsedLog {
    pub records: Vec<UsageRecord>,
    pub skipped: u32,
}

/// Reads the records of the lines of a log, where line `i` was written at
/// `times[i]`.
pub fn parse_log_lines(lines: &Vec<String>, times: &Vec<Option<i64>>, messages: &TextMap) -> (r:
    ParsedLog)
    requires
        times@.len() == lines@.len(),
    ensures
        usage::record_models(r.records@) == parsed_log(
            text::views(lines@),
            times@,
            messages@,
        ).records,
        r.skipped == usage::saturated(
            parsed_log(text::views(lines@), times@, messages@).skipped as int,
        ),
{
    let ghost all = text::views(lines@);
    let mut log = LogState::new();
    let mut records: Vec<UsageRecord> = Vec::new();
    let mut skipped: u32 = 0;
    let mut i: usize = 0;
    assert(all.take(0) == Seq::<Seq<char>>::empty());
    assert(usage::record_models(records@) == Seq::<usage::RecordModel>::empty());
    while i < lines.len()
        invariant
            all == text::views(lines@),
            times@.len() == lines@.len(),
            i <= lines@.len(),
            log@ == parsed_log(all.take(i as int), times@, messages@).log,
            usage::record_models(records@) == parsed_log(
                all.take(i as int),
                times@,
                messages@,
            ).records,
            skipped == usage::saturated(
                parsed_log(all.take(i as int), times@, messages@).skipped as int,
            ),
        decreases lines@.len() - i,
    {
        assert(all.take(i + 1).drop_last() == all.take(i as int));
        assert(all.take(i + 1).last() == lines@[i as int]@);
        let line = lines[i].as_str();
        if !line.is_empty() {
            let m = read_line(line);
            log.take_line(&m);
            if text::contains_text(line, "notifyStepEnd") {
                let ghost before = records@;
                let u = read_line_usage(line);
                let step = read_step(line);
                match log.take_step(&step, u, messages, times[i]) {
                    Some(record) => {
                        records.push(record);
                        assert(usage::record_models(records@) == usage::record_models(before).push(
                            record@,
                        ));
                    },
                    None => {
                        skipped = skipped.saturating_add(1);
                    },
                }
            }
        }
        i = i + 1;
    }
    assert(all.take(lines@.len() as int) == all);
    ParsedLog { records, skipped }
}

/// Whether `times` can be the times of the lines. Only the times of steps
/// matter.
pub open spec fn may_be_times(times: Seq<Option<i64>>, lines: Seq<Seq<char>>) -> bool {
    &&& times.len() == lines.len()
    &&& forall|i: int|
        0 <= i < lines.len() && is_step(#[trigger] lines[i]) ==> clock::may_be_line_seconds(
            times[i],
            lines[i],
        )
}

/// Reads the times of the steps among the lines, in the time zone of the
/// machine.
pub fn line_times(lines: &Vec<String>) -> (r: Vec<Option<i64>>)
    ensures
        may_be_times(r@, text::views(lines@)),
{
    let mut out: Vec<Option<i64>> = Vec::new();
    let mut i: usize = 0;
    while i < lines.len()
        invariant
            i <= lines@.len(),
            out@.len() == i,
            forall|k: int|
                0 <= k < i && is_step(#[trigger] text::views(lines@)[k])
                    ==> clock::may_be_line_seconds(out@[k], text::views(lines@)[k]),
        decreases lines@.len() - i,
    {
        let line = lines[i].as_str();
        let time: Option<i64> = if text::contains_text(line, "notifyStepEnd") {
            parse_log_timestamp(line)
        } else {
            None
        };
        out.push(time);
        i = i + 1;
    }
    out
}

/// The ids of the messages whose files the steps among the lines need: those of
/// steps that report no output tokens.
pub open spec fn needed_message(line: Seq<char>) -> Option<Seq<char>> {
    if is_step(line) {
        match line_usage(line) {
            Some(u) => if u.output_tokens == 0 && step_matches(line).message.len() > 0 {
                Some(step_matches(line).message)
            } else {
                None
            },
            None => None,
        }
    } else {
        None
    }
}

/// The id of the message whose file a line needs.
pub fn needed_message_of(line: &str) -> (r: Option<String>)
    ensures
        text::opt_view(r) == needed_message(line@),
{
    if !text::contains_text(line, "notifyStepEnd") {
        return None;
    }
    match read_line_usage(line) {
        Some(u) => {
            let step = read_step(line);
            if u.output_tokens == 0 && !step.message.as_str().is_empty() {
                Some(step.message)
            } else {
                None
            }
        },
        None => None,
    }
}

/// Whether an import is that of these lines.
pub open spec fn is_log_import(
    out: ImportOutcome,
    store: usage::StoreModel,
    parsed: ParsedLogModel,
) -> bool {
    usage::is_import_of(
        out,
        ImportSource::CodeBuddy,
        store,
        parsed.records,
        usage::saturated(parsed.skipped as int) as int,
    )
}

/// Imports the lines of a log, where line `i` was written at `times[i]`.
pub fn import_log_lines(
    store: &mut UsageStore,
    lines: &Vec<String>,
    times: &Vec<Option<i64>>,
    messages: &TextMap,
) -> (r: ImportOutcome)
    requires
        times@.len() == lines@.len(),
    ensures
        is_log_import(r, old(store)@, parsed_log(text::views(lines@), times@, messages@)),
        final(store)@ == old(store)@.after_all(
            usage::record_ids(parsed_log(text::views(lines@), times@, messages@).records),
        ),
{
    let parsed = parse_log_lines(lines, times, messages);
    import_records(store, ImportSource::CodeBuddy, &parsed.records, parsed.skipped)
}

/// Why a log file is not imported.
pub open spec fn log_error(size: u64) -> Option<Seq<char>> {
    if size > traces::MAX_TRACE_FILE_BYTES {
        Some("CodeBuddy IDE 日志超过 32MB ("@ + text::decimal(size as nat) + " bytes)，跳过"@)
    } else {
        None
    }
}

/// Imports a log file of this size. One that is too large is an error and
/// leaves the store as it is.
pub fn sync_single_codebuddy_cn_log_file(
    store: &mut UsageStore,
    size: u64,
    lines: &Vec<String>,
    messages: &TextMap,
) -> (r: Result<ImportOutcome, String>)
    ensures
        match r {
            Ok(out) => log_error(size) is None && exists|times: Seq<Option<i64>>|
                #![trigger parsed_log(text::views(lines@), times, messages@)]
                may_be_times(times, text::views(lines@)) && is_log_import(
                    out,
                    old(store)@,
                    parsed_log(text::views(lines@), times, messages@),
                ) && final(store)@ == old(store)@.after_all(
                    usage::record_ids(parsed_log(text::views(lines@), times, messages@).records),
                ),
            Err(e) => log_error(size) == Some(e@) && final(store)@ == old(store)@,
        },
{
    if size > traces::MAX_TRACE_FILE_BYTES {
        return Err(
            text::concat3(
                "CodeBuddy IDE 日志超过 32MB (",
                text::decimal_of(size).as_str(),
                " bytes)，跳过",
            ),
        );
    }
    let times = line_times(lines);
    let out = import_log_lines(store, lines, &times, messages);
    assert(may_be_times(times@, text::views(lines@)) && is_log_import(
        out,
        old(store)@,
        parsed_log(text::views(lines@), times@, messages@),
    ));
    Ok(out)
}

// ---------------------------------------------------------------------------
// Directories
// ---------------------------------------------------------------------------

/// Adds up what syncing the traces of CodeBuddy gave. No traces directory, or
/// one that cannot be read, means that there is nothing to import.
pub fn sync_codebuddy_traces_dir(outcomes: Option<Vec<FileOutcome>>) -> (r: SessionSyncResult)
    ensures
        usage::shows_totals(r, traces::trace_totals(outcomes)),
{
    combine_trace_outcomes(outcomes)
}

/// Adds up what syncing the logs of the CodeBuddy IDE gave. No logs directory,
/// or one that cannot be read, means that there is nothing to import.
pub fn sync_codebuddy_cn_logs_dir(outcomes: Option<Vec<FileOutcome>>) -> (r: SessionSyncResult)
    ensures
        usage::shows_totals(r, traces::trace_totals(outcomes)),
{
    combine_trace_outcomes(outcomes)
}

/// Adds up what syncing the traces and the logs of CodeBuddy gave.
pub fn sync_codebuddy_usage(
    trace_files: Option<Vec<FileOutcome>>,
    log_files: Option<Vec<FileOutcome>>,
) -> (r: SessionSyncResult)
    ensures
        usage::shows_totals(
            r,
            usage::sum_totals(traces::trace_totals(trace_files), traces::trace_totals(log_files)),
        ),
{
    let first = sync_codebuddy_traces_dir(trace_files);
    let second = sync_codebuddy_cn_logs_dir(log_files);
    combine_results(first, second)
}

// ---------------------------------------------------------------------------
// Laws
// ---------------------------------------------------------------------------

/// Importing a log again imports nothing and leaves the store as it is.
pub proof fn law_log_replay(
    store: usage::StoreModel,
    lines: Seq<Seq<char>>,
    times: Seq<Option<i64>>,
    messages: Map<Seq<char>, Seq<char>>,
)
    ensures
        ({
            let ids = usage::record_ids(parsed_log(lines, times, messages).records);
            let after = store.after_all(ids);
            &&& after.imported_count(ids) == 0
            &&& after.written(ids) == Seq::<int>::empty()
            &&& after.after_all(ids) == after
        }),
{
    usage::law_replay_imports_nothing(
        store,
        usage::record_ids(parsed_log(lines, times, messages).records),
    );
}

/// A log file as a pass over the directory finds it, with the times of its lines
/// in the zone of the machine.
pub ghost struct LogFile {
    pub path: Seq<char>,
    pub size: u64,
    pub lines: Seq<Seq<char>>,
    pub times: Seq<Option<i64>>,
}

/// What a pass finds in the files of a logs directory; one that is missing has
/// none.
pub open spec fn log_imports(
    files: Option<Seq<LogFile>>,
    messages: Map<Seq<char>, Seq<char>>,
) -> Seq<usage::FileImport> {
    match files {
        Some(f) => Seq::new(f.len(), |i: int| log_file_import(f[i], messages)),
        None => seq![],
    }
}

/// What a pass finds in a log file.
pub open spec fn log_file_import(
    f: LogFile,
    messages: Map<Seq<char>, Seq<char>>,
) -> usage::FileImport {
    let parsed = parsed_log(f.lines, f.times, messages);
    usage::FileImport {
        path: f.path,
        error: log_error(f.size),
        deferred: 0,
        skips: usage::saturated(parsed.skipped as int),
        ids: usage::record_ids(parsed.records),
    }
}

/// What importing a log file did is what a pass over the directory finds in it.
pub proof fn law_log_outcome(
    o: FileOutcome,
    store: usage::StoreModel,
    f: LogFile,
    messages: Map<Seq<char>, Seq<char>>,
    out: ImportOutcome,
)
    requires
        o.path@ == f.path,
        log_error(f.size) is None,
        is_log_import(out, store, parsed_log(f.lines, f.times, messages)),
        usage::has_counts(o, out.imported, out.skipped, 0),
    ensures
        usage::is_outcome_of(o, store, log_file_import(f, messages)),
{
    let records = parsed_log(f.lines, f.times, messages).records;
    assert(usage::record_ids(records).len() == records.len());
}

/// Syncing a logs directory a second time, where nothing in it changed, imports
/// nothing, skips all that was imported or skipped before, reports the same
/// files and errors, and leaves the store as it is, in whichever time zone the
/// second pass reads the times. Left out are counts that do not fit.
pub proof fn law_logs_replay(
    store: usage::StoreModel,
    messages: Map<Seq<char>, Seq<char>>,
    files: Option<Seq<LogFile>>,
    again: Option<Seq<LogFile>>,
    outcomes: Option<Vec<FileOutcome>>,
    later: Option<Vec<FileOutcome>>,
    first: SessionSyncResult,
    second: SessionSyncResult,
)
    requires
        (again is Some) == (files is Some),
        files matches Some(f) ==> again->0.len() == f.len() && forall|i: int|
            0 <= i < f.len() ==> #[trigger] again->0[i] == (LogFile {
                times: again->0[i].times,
                ..f[i]
            }),
        usage::are_outcomes_of(traces::outcome_list(outcomes), store, log_imports(files, messages)),
        usage::are_outcomes_of(
            traces::outcome_list(later),
            store.after_files(log_imports(files, messages)),
            log_imports(again, messages),
        ),
        usage::shows_totals(first, traces::trace_totals(outcomes)),
        usage::shows_totals(second, traces::trace_totals(later)),
        first.imported + first.skipped < u32::MAX,
    ensures
        second.imported == 0,
        second.skipped == first.imported + first.skipped,
        second.files_scanned == first.files_scanned,
        second.deferred_files == first.deferred_files,
        text::views(second.errors@) == text::views(first.errors@),
        ({
            let after = store.after_files(log_imports(files, messages));
            after.after_files(log_imports(again, messages)) == after
        }),
{
    let x = log_imports(files, messages);
    let y = log_imports(again, messages);
    if let (Some(f), Some(g)) = (files, again) {
        assert forall|i: int| 0 <= i < f.len() implies #[trigger] x[i] == y[i] by {
            assert(g[i] == (LogFile { times: g[i].times, ..f[i] }));
            law_ids_ignore_times(f[i].lines, f[i].times, g[i].times, messages);
        }
    }
    assert(x =~= y);
    usage::law_pass_replay(
        ""@,
        true,
        store,
        x,
        traces::outcome_list(outcomes),
        traces::outcome_list(later),
    );
}

/// The ids of the records of a log do not depend on the time zone in which its
/// times were read, so that another zone imports nothing anew.
pub proof fn law_ids_ignore_times(
    lines: Seq<Seq<char>>,
    times: Seq<Option<i64>>,
    others: Seq<Option<i64>>,
    messages: Map<Seq<char>, Seq<char>>,
)
    ensures
        usage::record_ids(parsed_log(lines, times, messages).records) == usage::record_ids(
            parsed_log(lines, others, messages).records,
        ),
        parsed_log(lines, times, messages).skipped == parsed_log(lines, others, messages).skipped,
        parsed_log(lines, times, messages).log == parsed_log(lines, others, messages).log,
    decreases lines.len(),
{
    if lines.len() > 0 {
        let front = lines.drop_last();
        law_ids_ignore_times(front, times, others, messages);
        let a = parsed_log(front, times, messages);
        let b = parsed_log(front, others, messages);
        let x = parsed_log(lines, times, messages);
        let y = parsed_log(lines, others, messages);
        assert(usage::record_ids(a.records).len() == a.records.len());
        assert(usage::record_ids(b.records).len() == b.records.len());
        assert forall|i: int| 0 <= i < x.records.len() implies x.records[i].request_id
            == y.records[i].request_id by {
            if i < a.records.len() {
                assert(usage::record_ids(a.records)[i] == usage::record_ids(b.records)[i]);
            }
        }
        assert(usage::record_ids(x.records) == usage::record_ids(y.records));
    }
}

/// Every record of a log has a time that SQLite accepts, an id that begins with
/// the prefix of CodeBuddy, and a model that is not `the`.
pub proof fn law_log_records(
    lines: Seq<Seq<char>>,
    times: Seq<Option<i64>>,
    messages: Map<Seq<char>, Seq<char>>,
    k: int,
)
    requires
        0 <= k < parsed_log(lines, times, messages).records.len(),
    ensures
        ({
            let record = parsed_log(lines, times, messages).records[k];
            &&& usage::MIN_SQLITE_UNIX_SECONDS <= record.created_at
                <= usage::MAX_SQLITE_UNIX_SECONDS
            &&& "codebuddy:"@.is_prefix_of(record.request_id)
            &&& text::lower(record.model) != text::lower("the"@)
        }),
    decreases lines.len(),
{
    let front = lines.drop_last();
    let before = parsed_log(front, times, messages);
    if k < before.records.len() {
        law_log_records(front, times, messages, k);
    } else {
        let log = after_line(before.log, line_matches(lines.last()));
        let m = step_matches(lines.last());
        match json::either(maps::value_of(log.models, m.request), log.model) {
            Some(name) => {
                codebuddy::law_clean_name_is_a_name(name);
            },
            None => {},
        }
        lemma_unknown_is_not_the();
    }
}

proof fn lemma_unknown_is_not_the()
    ensures
        text::lower("unknown"@) != text::lower("the"@),
{
    reveal_strlit("unknown");
    reveal_strlit("the");
    assert(text::lower("unknown"@).len() == 7);
    assert(text::lower("the"@).len() == 3);
}

/// How many of the lines are steps.
pub open spec fn step_count(lines: Seq<Seq<char>>) -> nat
    decreases lines.len(),
{
    if lines.len() == 0 {
        0
    } else {
        step_count(lines.drop_last()) + if lines.last().len() > 0 && is_step(lines.last()) {
            1nat
        } else {
            0nat
        }
    }
}

/// Every step of a log is counted: as a record or as skipped.
pub proof fn law_every_step_counted(
    lines: Seq<Seq<char>>,
    times: Seq<Option<i64>>,
    messages: Map<Seq<char>, Seq<char>>,
)
    ensures
        ({
            let parsed = parsed_log(lines, times, messages);
            parsed.records.len() + parsed.skipped == step_count(lines)
        }),
    decreases lines.len(),
{
    if lines.len() > 0 {
        law_every_step_counted(lines.drop_last(), times, messages);
    }
}

/// Only the messages that the lines need matter: with the same files for their
/// ids, the same records come out, whatever other files there are.
pub proof fn law_only_needed_messages_matter(
    lines: Seq<Seq<char>>,
    times: Seq<Option<i64>>,
    messages: Map<Seq<char>, Seq<char>>,
    others: Map<Seq<char>, Seq<char>>,
)
    requires
        forall|i: int|
            0 <= i < lines.len() ==> match needed_message(#[trigger] lines[i]) {
                Some(id) => maps::value_of(messages, id) == maps::value_of(others, id),
                None => true,
            },
    ensures
        parsed_log(lines, times, messages) == parsed_log(lines, times, others),
    decreases lines.len(),
{
    if lines.len() > 0 {
        let front = lines.drop_last();
        assert forall|i: int| 0 <= i < front.len() implies match needed_message(
            #[trigger] front[i],
        ) {
            Some(id) => maps::value_of(messages, id) == maps::value_of(others, id),
            None => true,
        } by {
            assert(front[i] == lines[i]);
        }
        law_only_needed_messages_matter(front, times, messages, others);
        assert(lines.last() == lines[lines.len() - 1]);
    }
}

// ---------------------------------------------------------------------------
// From the lines of a log to its records
// ---------------------------------------------------------------------------

/// The usage document of a line is what stands between the first pair of braces
/// behind the first `usage:`.
pub proof fn law_usage_is_found(
    line: Seq<char>,
    gap: Seq<char>,
    body: Seq<char>,
    tail: Seq<char>,
)
    requires
        text::cut(line, "usage:"@).1 == Some(
            gap + seq!['{'] + (body + seq!['}'] + tail),
        ),
        !gap.contains('{'),
        !body.contains('}'),
    ensures
        usage_text(line) == Some(seq!['{'] + body + seq!['}']),
{
    reveal_strlit("{");
    reveal_strlit("}");
    assert("{"@ =~= seq!['{']);
    assert("}"@ =~= seq!['}']);
    text::law_cut_at_a_character(gap, '{', body + seq!['}'] + tail);
    text::law_cut_at_a_character(body, '}', tail);
}

/// Whether a usage document gives a count.
pub open spec fn gives(u: json::JsonModel, key: Seq<char>, n: i64) -> bool {
    if 0 <= n {
        json::has_count_member(u, key, n as u64)
    } else {
        json::has_member(u, key, json::JsonModel::Number(json::JsonNumber::Negative(n)))
    }
}

/// Whether a usage document gives a count, or leaves it out where it is zero.
pub open spec fn gives_or_lacks(u: json::JsonModel, key: Seq<char>, n: i64) -> bool {
    gives(u, key, n) || (n == 0 && json::lacks_member(u, key))
}

/// Whether a usage document gives these counts under their usual names.
pub open spec fn gives_usage(u: json::JsonModel, s: StepUsage) -> bool {
    &&& gives_or_lacks(u, "inputTokens"@, s.input_tokens)
    &&& gives_or_lacks(u, "outputTokens"@, s.output_tokens)
    &&& gives_or_lacks(u, "totalTokens"@, s.total_tokens)
    &&& gives(u, "cacheTokens"@, s.cache_read_tokens) || (json::lacks_member(u, "cacheTokens"@)
        && gives(u, "cachedTokens"@, s.cache_read_tokens)) || (json::lacks_member(
        u,
        "cacheTokens"@,
    ) && json::lacks_member(u, "cachedTokens"@) && s.cache_read_tokens == 0)
    &&& gives(u, "cachedWriteTokens"@, s.cache_creation_tokens) || (json::lacks_member(
        u,
        "cachedWriteTokens"@,
    ) && json::lacks_member(u, "cacheWriteTokens"@) && json::lacks_member(
        u,
        "cacheCreationTokens"@,
    ) && json::lacks_member(u, "cachedCreationTokens"@) && s.cache_creation_tokens == 0)
}

proof fn lemma_gives(u: json::JsonModel, key: Seq<char>)
    ensures
        forall|n: i64| #[trigger] gives(u, key, n) ==> json::opt_i64(u.field(key)) == Some(n),
        forall|n: i64| #[trigger] gives(u, key, n) ==> u.field(key) is Some,
        json::lacks_member(u, key) ==> u.field(key) is None,
{
    json::law_member_is_found(u, key);
    assert forall|n: i64| #[trigger] gives(u, key, n) implies json::opt_i64(u.field(key)) == Some(
        n,
    ) && u.field(key) is Some by {
        let v = if 0 <= n {
            json::JsonModel::Number(json::JsonNumber::Unsigned(n as u64))
        } else {
            json::JsonModel::Number(json::JsonNumber::Negative(n))
        };
        assert(json::has_member(u, key, v));
    }
}

/// The counts of a step are those of its usage document, each under its own name.
pub proof fn law_step_counts_are_read(u: json::JsonModel, s: StepUsage)
    requires
        gives_usage(u, s),
    ensures
        step_usage(u) == s,
{
    lemma_gives(u, "inputTokens"@);
    lemma_gives(u, "outputTokens"@);
    lemma_gives(u, "totalTokens"@);
    lemma_gives(u, "cacheTokens"@);
    lemma_gives(u, "cachedTokens"@);
    lemma_gives(u, "cachedWriteTokens"@);
    lemma_gives(u, "cacheWriteTokens"@);
    lemma_gives(u, "cacheCreationTokens"@);
    lemma_gives(u, "cachedCreationTokens"@);
}

/// A cache write is counted under each of its names, where it stands alone.
pub proof fn law_cache_writes_are_read(u: json::JsonModel, n: i64)
    requires
        json::lacks_member(u, "cachedWriteTokens"@),
        gives(u, "cacheWriteTokens"@, n) || (json::lacks_member(u, "cacheWriteTokens"@) && (gives(
            u,
            "cacheCreationTokens"@,
            n,
        ) || (json::lacks_member(u, "cacheCreationTokens"@) && gives(
            u,
            "cachedCreationTokens"@,
            n,
        )))),
    ensures
        step_usage(u).cache_creation_tokens == n,
{
    lemma_gives(u, "cachedWriteTokens"@);
    lemma_gives(u, "cacheWriteTokens"@);
    lemma_gives(u, "cacheCreationTokens"@);
    lemma_gives(u, "cachedCreationTokens"@);
}

/// Every step that used anything has a record of its own, in the order of the
/// lines: with the counts that its usage document gives, and with the second at
/// which its line was written. Left out are steps that report no output, which
/// is then estimated, and times that SQLite does not accept.
pub proof fn law_every_step_counts(
    lines: Seq<Seq<char>>,
    times: Seq<Option<i64>>,
    messages: Map<Seq<char>, Seq<char>>,
    k: int,
    document: Seq<char>,
    u: json::JsonModel,
    s: StepUsage,
)
    requires
        0 <= k < lines.len(),
        lines[k].len() > 0,
        text::has_text(lines[k], "notifyStepEnd"@),
        usage_text(lines[k]) == Some(document),
        json::json_document(document) == Ok::<json::JsonModel, Seq<char>>(u),
        gives_usage(u, s),
        s.output_tokens != 0,
    ensures
        ({
            let records = parsed_log(lines, times, messages).records;
            let n = parsed_log(lines.take(k), times, messages).records.len() as int;
            &&& 0 <= n < records.len()
            &&& records[n].input_tokens == s.input_tokens
            &&& records[n].output_tokens == s.output_tokens
            &&& records[n].cache_read_tokens == s.cache_read_tokens
            &&& records[n].cache_creation_tokens == s.cache_creation_tokens
            &&& times[k] matches Some(t) ==> (-62_167_219_200 <= t <= 253_402_300_799
                ==> records[n].created_at == t)
            &&& times[k] is None ==> records[n].created_at == 0
        }),
{
    law_step_counts_are_read(u, s);
    lemma_step_record(lines, times, messages, k);
}

/// A step that reports no output has the estimate of its message, where there is
/// one, and keeps its other counts, whichever of them it has.
pub proof fn law_missing_output_is_estimated(
    lines: Seq<Seq<char>>,
    times: Seq<Option<i64>>,
    messages: Map<Seq<char>, Seq<char>>,
    k: int,
    document: Seq<char>,
    u: json::JsonModel,
    s: StepUsage,
    id: Seq<char>,
    tokens: i64,
)
    requires
        0 <= k < lines.len(),
        lines[k].len() > 0,
        text::has_text(lines[k], "notifyStepEnd"@),
        usage_text(lines[k]) == Some(document),
        json::json_document(document) == Ok::<json::JsonModel, Seq<char>>(u),
        gives_usage(u, s),
        s.output_tokens == 0,
        s.input_tokens != 0 || s.cache_read_tokens != 0 || s.cache_creation_tokens != 0
            || s.total_tokens != 0 || (messages.contains_key(id) && tokens != 0),
        patterns::regex_group(r"messageId:\s*([a-zA-Z0-9_-]+)"@, lines[k], 1) == Some(id),
        id.len() > 0,
        messages.contains_key(id) ==> estimate::message_file_tokens(messages[id]) == Some(tokens),
    ensures
        ({
            let records = parsed_log(lines, times, messages).records;
            let n = parsed_log(lines.take(k), times, messages).records.len() as int;
            &&& 0 <= n < records.len()
            &&& records[n].input_tokens == s.input_tokens
            &&& records[n].output_tokens == (if messages.contains_key(id) {
                tokens
            } else {
                0
            })
            &&& records[n].cache_read_tokens == s.cache_read_tokens
            &&& records[n].cache_creation_tokens == s.cache_creation_tokens
        }),
{
    law_step_counts_are_read(u, s);
    lemma_step_record(lines, times, messages, k);
}

/// What is known when a line has been read.
spec fn log_after(
    lines: Seq<Seq<char>>,
    times: Seq<Option<i64>>,
    messages: Map<Seq<char>, Seq<char>>,
    k: int,
) -> LogModel {
    parsed_log(lines.take(k + 1), times, messages).log
}

proof fn lemma_log_after(
    lines: Seq<Seq<char>>,
    times: Seq<Option<i64>>,
    messages: Map<Seq<char>, Seq<char>>,
    k: int,
)
    requires
        0 <= k < lines.len(),
    ensures
        log_after(lines, times, messages, k) == (if lines[k].len() == 0 {
            log_after(lines, times, messages, k - 1)
        } else {
            after_line(log_after(lines, times, messages, k - 1), line_matches(lines[k]))
        }),
{
    assert(lines.take(k + 1).drop_last() == lines.take(k));
    assert(lines.take(k + 1).last() == lines[k]);
}

proof fn lemma_step_record(
    lines: Seq<Seq<char>>,
    times: Seq<Option<i64>>,
    messages: Map<Seq<char>, Seq<char>>,
    k: int,
)
    requires
        0 <= k < lines.len(),
        lines[k].len() > 0,
        is_step(lines[k]),
    ensures
        ({
            let records = parsed_log(lines, times, messages).records;
            let n = parsed_log(lines.take(k), times, messages).records.len() as int;
            let outcome = step_outcome(
                log_after(lines, times, messages, k),
                step_matches(lines[k]),
                line_usage(lines[k]),
                messages,
                times[k],
            );
            &&& n <= records.len()
            &&& outcome matches Some(record) ==> n < records.len() && records[n] == record
        }),
    decreases lines.len(),
{
    let front = lines.drop_last();
    if k < lines.len() - 1 {
        assert(front[k] == lines[k]);
        assert(front.take(k) == lines.take(k));
        assert(front.take(k + 1) == lines.take(k + 1));
        lemma_step_record(front, times, messages, k);
    } else {
        assert(lines.take(k) == front);
        assert(lines.take(k + 1) == lines);
    }
}

/// Whether a line names a model, by its id or as the one that is prepared.
pub open spec fn names_model(line: Seq<char>, model: Seq<char>) -> bool {
    let id = patterns::regex_group(r"modelId:\s*([A-Za-z0-9.:_-]+)"@, line, 1);
    let prepared = patterns::regex_group(
        r"(?:Preparing model|Model prepared):\s*([A-Za-z0-9.:_-]+)"@,
        line,
        1,
    );
    line.len() > 0 && (id == Some(model) || (id is None && prepared == Some(model)))
}

/// Whether a line names no model.
pub open spec fn names_no_model(line: Seq<char>) -> bool {
    line.len() == 0 || (patterns::regex_group(
        r"modelId:\s*([A-Za-z0-9.:_-]+)"@,
        line,
        1,
    ) is None && patterns::regex_group(
        r"(?:Preparing model|Model prepared):\s*([A-Za-z0-9.:_-]+)"@,
        line,
        1,
    ) is None)
}

/// The request that a line reports on, where it reports on one.
pub open spec fn reported_request(line: Seq<char>) -> Option<Seq<char>> {
    if line.len() == 0 {
        None
    } else {
        match (line_matches(line).report, line_matches(line).chunk) {
            (Some((_, request, _)), _) => Some(request),
            (None, Some((request, _))) => Some(request),
            (None, None) => None,
        }
    }
}

proof fn lemma_model_stays(
    lines: Seq<Seq<char>>,
    times: Seq<Option<i64>>,
    messages: Map<Seq<char>, Seq<char>>,
    c: int,
    k: int,
)
    requires
        -1 <= c <= k < lines.len(),
        forall|j: int| c < j <= k ==> names_no_model(#[trigger] lines[j]),
    ensures
        log_after(lines, times, messages, k).model == log_after(lines, times, messages, c).model,
    decreases k - c,
{
    if c < k {
        lemma_model_stays(lines, times, messages, c, k - 1);
        lemma_log_after(lines, times, messages, k);
        assert(names_no_model(lines[k]));
    }
}

proof fn lemma_request_stays(
    lines: Seq<Seq<char>>,
    times: Seq<Option<i64>>,
    messages: Map<Seq<char>, Seq<char>>,
    request: Seq<char>,
    c: int,
    k: int,
)
    requires
        -1 <= c <= k < lines.len(),
        forall|j: int| c < j <= k ==> reported_request(#[trigger] lines[j]) != Some(request),
    ensures
        ({
            let a = log_after(lines, times, messages, c);
            let b = log_after(lines, times, messages, k);
            &&& maps::value_of(b.models, request) == maps::value_of(a.models, request)
            &&& maps::value_of(b.traces, request) == maps::value_of(a.traces, request)
            &&& maps::value_of(b.conversations, request) == maps::value_of(
                a.conversations,
                request,
            )
        }),
    decreases k - c,
{
    if c < k {
        lemma_request_stays(lines, times, messages, request, c, k - 1);
        lemma_log_after(lines, times, messages, k);
        assert(reported_request(lines[k]) != Some(request));
    }
}

/// Whether a line is a step with a record.
pub open spec fn is_counted_step(
    lines: Seq<Seq<char>>,
    times: Seq<Option<i64>>,
    messages: Map<Seq<char>, Seq<char>>,
    k: int,
) -> bool {
    &&& 0 <= k < lines.len()
    &&& lines[k].len() > 0
    &&& text::has_text(lines[k], "notifyStepEnd"@)
    &&& parsed_log(lines.take(k + 1), times, messages).records.len() == parsed_log(
        lines.take(k),
        times,
        messages,
    ).records.len() + 1
}

proof fn lemma_counted_step(
    lines: Seq<Seq<char>>,
    times: Seq<Option<i64>>,
    messages: Map<Seq<char>, Seq<char>>,
    k: int,
)
    requires
        is_counted_step(lines, times, messages, k),
    ensures
        ({
            let records = parsed_log(lines, times, messages).records;
            let n = parsed_log(lines.take(k), times, messages).records.len() as int;
            let log = log_after(lines, times, messages, k);
            let m = step_matches(lines[k]);
            &&& 0 <= n < records.len()
            &&& records[n].model == step_model(log, m)
            &&& records[n].session_id == step_session(log, m)
            &&& records[n].request_id == "codebuddy:"@ + step_trace(log, m) + ":"@
                + if m.message.len() > 0 {
                m.message
            } else {
                "step_"@ + text::decimal(step_number(m.number))
            }
        }),
{
    lemma_step_record(lines, times, messages, k);
    lemma_log_after(lines, times, messages, k);
    assert(lines.take(k + 1).drop_last() == lines.take(k));
    assert(lines.take(k + 1).last() == lines[k]);
}

/// A step of a request that no line reports on ran on the model that was named
/// last, at its line or before it.
pub proof fn law_step_has_the_last_named_model(
    lines: Seq<Seq<char>>,
    times: Seq<Option<i64>>,
    messages: Map<Seq<char>, Seq<char>>,
    c: int,
    k: int,
    model: Seq<char>,
)
    requires
        is_counted_step(lines, times, messages, k),
        0 <= c <= k,
        names_model(lines[c], model),
        codebuddy::is_plain_name(model),
        forall|j: int| c < j <= k ==> names_no_model(#[trigger] lines[j]),
        forall|j: int|
            0 <= j <= k ==> reported_request(#[trigger] lines[j]) != Some(
                step_matches(lines[k]).request,
            ),
    ensures
        ({
            let records = parsed_log(lines, times, messages).records;
            let n = parsed_log(lines.take(k), times, messages).records.len() as int;
            0 <= n < records.len() && records[n].model == model
        }),
{
    codebuddy::law_plain_names_stay(model);
    lemma_log_after(lines, times, messages, c);
    assert(lines.take(0) == Seq::<Seq<char>>::empty());
    lemma_model_stays(lines, times, messages, c, k);
    lemma_request_stays(lines, times, messages, step_matches(lines[k]).request, -1, k);
    lemma_counted_step(lines, times, messages, k);
}

/// A step of a request that was reported ran on the model that was current at the
/// last report, whatever models are named later; and it belongs to the trace and
/// the conversation of that report.
pub proof fn law_step_has_what_was_reported_of_its_request(
    lines: Seq<Seq<char>>,
    times: Seq<Option<i64>>,
    messages: Map<Seq<char>, Seq<char>>,
    c: int,
    r: int,
    k: int,
    model: Seq<char>,
    conversation: Seq<char>,
    trace: Seq<char>,
    message: Seq<char>,
)
    requires
        is_counted_step(lines, times, messages, k),
        0 <= c <= r <= k,
        names_model(lines[c], model),
        codebuddy::is_plain_name(model),
        forall|j: int| c < j <= r ==> names_no_model(#[trigger] lines[j]),
        lines[r].len() > 0,
        line_matches(lines[r]).report == Some(
            (conversation, step_matches(lines[k]).request, trace),
        ),
        step_matches(lines[k]).request.len() > 0,
        conversation.len() > 0,
        trace.len() > 0,
        forall|j: int|
            r < j <= k ==> reported_request(#[trigger] lines[j]) != Some(
                step_matches(lines[k]).request,
            ),
        patterns::regex_group(r"messageId:\s*([a-zA-Z0-9_-]+)"@, lines[k], 1) == Some(message),
        message.len() > 0,
    ensures
        ({
            let records = parsed_log(lines, times, messages).records;
            let n = parsed_log(lines.take(k), times, messages).records.len() as int;
            &&& 0 <= n < records.len()
            &&& records[n].model == model
            &&& records[n].session_id == conversation
            &&& records[n].request_id == "codebuddy:"@ + trace + ":"@ + message
        }),
{
    let request = step_matches(lines[k]).request;
    codebuddy::law_plain_names_stay(model);
    lemma_log_after(lines, times, messages, c);
    assert(lines.take(0) == Seq::<Seq<char>>::empty());
    lemma_model_stays(lines, times, messages, c, r);
    lemma_log_after(lines, times, messages, r);
    let log = log_after(lines, times, messages, r);
    assert(line_matches(lines[r]).chunk is None);
    assert(log.model == Some(model));
    assert(maps::value_of(log.models, request) == Some(model));
    assert(maps::value_of(log.traces, request) == Some(trace));
    assert(maps::value_of(log.conversations, request) == Some(conversation));
    lemma_request_stays(lines, times, messages, request, r, k);
    lemma_counted_step(lines, times, messages, k);
}

/// Whether a line says nothing of conversations.
pub open spec fn names_no_conversation(line: Seq<char>) -> bool {
    line.len() == 0 || (line_matches(line).report is None && line_matches(line).chunk is None)
}

/// Whether a line says nothing of traces.
pub open spec fn names_no_trace(line: Seq<char>) -> bool {
    line.len() == 0 || (line_matches(line).report is None && line_matches(
        line,
    ).bracket_trace is None)
}

proof fn lemma_trace_stays(
    lines: Seq<Seq<char>>,
    times: Seq<Option<i64>>,
    messages: Map<Seq<char>, Seq<char>>,
    c: int,
    k: int,
)
    requires
        -1 <= c <= k < lines.len(),
        forall|j: int| c < j <= k ==> names_no_trace(#[trigger] lines[j]),
    ensures
        log_after(lines, times, messages, k).trace == log_after(lines, times, messages, c).trace,
    decreases k - c,
{
    if c < k {
        lemma_trace_stays(lines, times, messages, c, k - 1);
        lemma_log_after(lines, times, messages, k);
        assert(names_no_trace(lines[k]));
    }
}

proof fn lemma_conversation_stays(
    lines: Seq<Seq<char>>,
    times: Seq<Option<i64>>,
    messages: Map<Seq<char>, Seq<char>>,
    c: int,
    k: int,
)
    requires
        -1 <= c <= k < lines.len(),
        forall|j: int| c < j <= k ==> names_no_conversation(#[trigger] lines[j]),
    ensures
        log_after(lines, times, messages, k).conversation == log_after(
            lines,
            times,
            messages,
            c,
        ).conversation,
    decreases k - c,
{
    if c < k {
        lemma_conversation_stays(lines, times, messages, c, k - 1);
        lemma_log_after(lines, times, messages, k);
        assert(names_no_conversation(lines[k]));
    }
}

/// A step of a request that no line reports on belongs to the trace that was named
/// last in brackets, and to the conversation that was reported last of another
/// request.
pub proof fn law_step_has_the_last_trace_and_conversation(
    lines: Seq<Seq<char>>,
    times: Seq<Option<i64>>,
    messages: Map<Seq<char>, Seq<char>>,
    b: int,
    c: int,
    k: int,
    trace: Seq<char>,
    other: Seq<char>,
    conversation: Seq<char>,
    message: Seq<char>,
)
    requires
        is_counted_step(lines, times, messages, k),
        0 <= b <= k,
        lines[b].len() > 0,
        patterns::regex_group(
            r"\[(?:CraftInvokableAgent|AgentReporter)\]\s*\[([a-zA-Z0-9_-]+)\]"@,
            lines[b],
            1,
        ) == Some(trace),
        forall|j: int| b < j <= k ==> names_no_trace(#[trigger] lines[j]),
        0 <= c <= k,
        lines[c].len() > 0,
        line_matches(lines[c]).chunk == Some((other, conversation)),
        other.len() > 0,
        conversation.len() > 0,
        forall|j: int| c < j <= k ==> names_no_conversation(#[trigger] lines[j]),
        forall|j: int|
            0 <= j <= k ==> reported_request(#[trigger] lines[j]) != Some(
                step_matches(lines[k]).request,
            ),
        patterns::regex_group(r"messageId:\s*([a-zA-Z0-9_-]+)"@, lines[k], 1) == Some(message),
        message.len() > 0,
    ensures
        ({
            let records = parsed_log(lines, times, messages).records;
            let n = parsed_log(lines.take(k), times, messages).records.len() as int;
            &&& 0 <= n < records.len()
            &&& records[n].request_id == "codebuddy:"@ + trace + ":"@ + message
            &&& records[n].session_id == conversation
        }),
{
    assert(lines.take(0) == Seq::<Seq<char>>::empty());
    lemma_log_after(lines, times, messages, b);
    lemma_log_after(lines, times, messages, c);
    lemma_trace_stays(lines, times, messages, b, k);
    lemma_conversation_stays(lines, times, messages, c, k);
    lemma_request_stays(lines, times, messages, step_matches(lines[k]).request, -1, k);
    lemma_counted_step(lines, times, messages, k);
}

/// What a line says is what the patterns find in it.
pub proof fn law_line_says_what_is_found(line: Seq<char>)
    ensures
        ({
            let report = r"conversationId:\s*([a-zA-Z0-9_-]+),\s*requestId:\s*([a-zA-Z0-9_-]+),\s*traceId:\s*([a-zA-Z0-9_-]+)"@;
            let chunk = r"requestId=([a-zA-Z0-9_-]+),\s*conversationId=([a-zA-Z0-9_-]+)"@;
            let m = line_matches(line);
            let step = step_matches(line);
            &&& (m.report is Some) == (patterns::regex_group(report, line, 0) is Some)
            &&& m.report matches Some((conversation, request, trace)) ==> {
                &&& patterns::regex_group(report, line, 1) is Some ==> conversation
                    == patterns::regex_group(report, line, 1)->0
                &&& patterns::regex_group(report, line, 2) is Some ==> request
                    == patterns::regex_group(report, line, 2)->0
                &&& patterns::regex_group(report, line, 3) is Some ==> trace
                    == patterns::regex_group(report, line, 3)->0
            }
            &&& (m.chunk is Some) == (patterns::regex_group(report, line, 0) is None
                && patterns::regex_group(chunk, line, 0) is Some)
            &&& m.chunk matches Some((request, conversation)) ==> {
                &&& patterns::regex_group(chunk, line, 1) is Some ==> request
                    == patterns::regex_group(chunk, line, 1)->0
                &&& patterns::regex_group(chunk, line, 2) is Some ==> conversation
                    == patterns::regex_group(chunk, line, 2)->0
            }
            &&& patterns::regex_group(r"requestId:\s*([a-zA-Z0-9_-]+)"@, line, 1) matches Some(id)
                ==> step.request == id
            &&& patterns::regex_group(r"messageId:\s*([a-zA-Z0-9_-]+)"@, line, 1) matches Some(id)
                ==> step.message == id
            &&& patterns::regex_group(
                r"\[BaseAgent:[^\]]+\]\s*\[([a-zA-Z0-9_-]+)\]"@,
                line,
                1,
            ) matches Some(id) ==> step.bracket == id
            &&& patterns::regex_group(r"step:\s*(\d+)"@, line, 1) == step.number
        }),
{
}

/// A step without a message is known by its number, which is 1 where the line
/// gives none; and without any trace it is known by the id in brackets.
pub proof fn law_step_without_a_message_is_numbered(
    lines: Seq<Seq<char>>,
    times: Seq<Option<i64>>,
    messages: Map<Seq<char>, Seq<char>>,
    k: int,
    bracket: Seq<char>,
    number: Seq<char>,
)
    requires
        is_counted_step(lines, times, messages, k),
        forall|j: int| 0 <= j <= k ==> names_no_trace(#[trigger] lines[j]),
        forall|j: int|
            0 <= j <= k ==> reported_request(#[trigger] lines[j]) != Some(
                step_matches(lines[k]).request,
            ),
        patterns::regex_group(r"messageId:\s*([a-zA-Z0-9_-]+)"@, lines[k], 1) is None,
        patterns::regex_group(
            r"\[BaseAgent:[^\]]+\]\s*\[([a-zA-Z0-9_-]+)\]"@,
            lines[k],
            1,
        ) == Some(bracket),
        bracket.len() > 0,
        patterns::regex_group(r"step:\s*(\d+)"@, lines[k], 1) == Some(number),
        text::all_digits(number),
        text::digits_value(number) <= u32::MAX,
    ensures
        ({
            let records = parsed_log(lines, times, messages).records;
            let n = parsed_log(lines.take(k), times, messages).records.len() as int;
            &&& 0 <= n < records.len()
            &&& records[n].request_id == "codebuddy:"@ + bracket + ":"@ + ("step_"@
                + text::decimal(text::digits_value(number)))
        }),
{
    reveal_strlit("");
    text::lemma_digits(number);
    assert(lines.take(0) == Seq::<Seq<char>>::empty());
    lemma_trace_stays(lines, times, messages, -1, k);
    lemma_request_stays(lines, times, messages, step_matches(lines[k]).request, -1, k);
    lemma_counted_step(lines, times, messages, k);
}

/// A step without a message keeps the counts that it reports, also where it reports
/// no output.
pub proof fn law_step_without_output_counts(
    lines: Seq<Seq<char>>,
    times: Seq<Option<i64>>,
    messages: Map<Seq<char>, Seq<char>>,
    k: int,
    document: Seq<char>,
    u: json::JsonModel,
    s: StepUsage,
)
    requires
        0 <= k < lines.len(),
        lines[k].len() > 0,
        text::has_text(lines[k], "notifyStepEnd"@),
        usage_text(lines[k]) == Some(document),
        json::json_document(document) == Ok::<json::JsonModel, Seq<char>>(u),
        gives_usage(u, s),
        s.output_tokens == 0,
        s.input_tokens != 0 || s.cache_read_tokens != 0 || s.cache_creation_tokens != 0
            || s.total_tokens != 0,
        patterns::regex_group(r"messageId:\s*([a-zA-Z0-9_-]+)"@, lines[k], 1) is None,
    ensures
        ({
            let records = parsed_log(lines, times, messages).records;
            let n = parsed_log(lines.take(k), times, messages).records.len() as int;
            &&& 0 <= n < records.len()
            &&& records[n].input_tokens == s.input_tokens
            &&& records[n].output_tokens == 0
            &&& records[n].cache_read_tokens == s.cache_read_tokens
            &&& records[n].cache_creation_tokens == s.cache_creation_tokens
        }),
{
    reveal_strlit("");
    law_step_counts_are_read(u, s);
    lemma_step_record(lines, times, messages, k);
}

/// A step that used nothing, and one without a usage document, has no record and
/// counts as skipped; a line that is no step has none and counts as nothing.
pub proof fn law_steps_without_usage_are_skipped(
    lines: Seq<Seq<char>>,
    times: Seq<Option<i64>>,
    messages: Map<Seq<char>, Seq<char>>,
    k: int,
    document: Seq<char>,
    u: json::JsonModel,
)
    requires
        0 <= k < lines.len(),
        lines[k].len() > 0,
    ensures
        ({
            let before = parsed_log(lines.take(k), times, messages);
            let after = parsed_log(lines.take(k + 1), times, messages);
            let step = text::has_text(lines[k], "notifyStepEnd"@);
            let unused = StepUsage {
                input_tokens: 0,
                output_tokens: 0,
                cache_read_tokens: 0,
                cache_creation_tokens: 0,
                total_tokens: 0,
            };
            &&& !step ==> after.records == before.records && after.skipped == before.skipped
            &&& step && usage_text(lines[k]) is None ==> after.records == before.records
                && after.skipped == before.skipped + 1
            &&& step && usage_text(lines[k]) == Some(document) && json::json_document(
                document,
            ) == Ok::<json::JsonModel, Seq<char>>(u) && gives_usage(u, unused)
                && patterns::regex_group(
                r"messageId:\s*([a-zA-Z0-9_-]+)"@,
                lines[k],
                1,
            ) is None ==> after.records == before.records && after.skipped == before.skipped + 1
            &&& after.records.len() > before.records.len() ==> after.skipped == before.skipped
        }),
{
    reveal_strlit("");
    assert(lines.take(k + 1).drop_last() == lines.take(k));
    assert(lines.take(k + 1).last() == lines[k]);
    let unused = StepUsage {
        input_tokens: 0,
        output_tokens: 0,
        cache_read_tokens: 0,
        cache_creation_tokens: 0,
        total_tokens: 0,
    };
    if gives_usage(u, unused) {
        law_step_counts_are_read(u, unused);
    }
}

/// A step before which no model was named ran on an unknown one.
pub proof fn law_step_without_a_model(
    lines: Seq<Seq<char>>,
    times: Seq<Option<i64>>,
    messages: Map<Seq<char>, Seq<char>>,
    k: int,
)
    requires
        is_counted_step(lines, times, messages, k),
        forall|j: int| 0 <= j <= k ==> names_no_model(#[trigger] lines[j]),
        forall|j: int|
            0 <= j <= k ==> reported_request(#[trigger] lines[j]) != Some(
                step_matches(lines[k]).request,
            ),
    ensures
        ({
            let records = parsed_log(lines, times, messages).records;
            let n = parsed_log(lines.take(k), times, messages).records.len() as int;
            0 <= n < records.len() && records[n].model == "unknown"@
        }),
{
    assert(lines.take(0) == Seq::<Seq<char>>::empty());
    lemma_model_stays(lines, times, messages, -1, k);
    lemma_request_stays(lines, times, messages, step_matches(lines[k]).request, -1, k);
    lemma_counted_step(lines, times, messages, k);
}

/// A step of a request that no line reports on, after a report on another request,
/// belongs to the trace and the conversation of that report.
pub proof fn law_step_has_the_trace_of_the_last_report(
    lines: Seq<Seq<char>>,
    times: Seq<Option<i64>>,
    messages: Map<Seq<char>, Seq<char>>,
    c: int,
    k: int,
    trace: Seq<char>,
    other: Seq<char>,
    conversation: Seq<char>,
    message: Seq<char>,
)
    requires
        is_counted_step(lines, times, messages, k),
        0 <= c <= k,
        lines[c].len() > 0,
        line_matches(lines[c]).report == Some((conversation, other, trace)),
        patterns::regex_group(
            r"\[(?:CraftInvokableAgent|AgentReporter)\]\s*\[([a-zA-Z0-9_-]+)\]"@,
            lines[c],
            1,
        ) is None,
        other.len() > 0,
        conversation.len() > 0,
        trace.len() > 0,
        forall|j: int| c < j <= k ==> names_no_trace(#[trigger] lines[j]),
        forall|j: int| c < j <= k ==> names_no_conversation(#[trigger] lines[j]),
        forall|j: int|
            0 <= j <= k ==> reported_request(#[trigger] lines[j]) != Some(
                step_matches(lines[k]).request,
            ),
        patterns::regex_group(r"messageId:\s*([a-zA-Z0-9_-]+)"@, lines[k], 1) == Some(message),
        message.len() > 0,
    ensures
        ({
            let records = parsed_log(lines, times, messages).records;
            let n = parsed_log(lines.take(k), times, messages).records.len() as int;
            &&& 0 <= n < records.len()
            &&& records[n].request_id == "codebuddy:"@ + trace + ":"@ + message
            &&& records[n].session_id == conversation
        }),
{
    assert(lines.take(0) == Seq::<Seq<char>>::empty());
    lemma_log_after(lines, times, messages, c);
    lemma_trace_stays(lines, times, messages, c, k);
    lemma_conversation_stays(lines, times, messages, c, k);
    lemma_request_stays(lines, times, messages, step_matches(lines[k]).request, -1, k);
    lemma_counted_step(lines, times, messages, k);
}

/// A step of a request that was last reported on in a chunk ran on the model that
/// was current then, and belongs to the conversation of the chunk.
pub proof fn law_step_has_what_a_chunk_reported(
    lines: Seq<Seq<char>>,
    times: Seq<Option<i64>>,
    messages: Map<Seq<char>, Seq<char>>,
    c: int,
    r: int,
    k: int,
    model: Seq<char>,
    conversation: Seq<char>,
)
    requires
        is_counted_step(lines, times, messages, k),
        0 <= c <= r <= k,
        names_model(lines[c], model),
        codebuddy::is_plain_name(model),
        forall|j: int| c < j <= r ==> names_no_model(#[trigger] lines[j]),
        lines[r].len() > 0,
        line_matches(lines[r]).chunk == Some((step_matches(lines[k]).request, conversation)),
        step_matches(lines[k]).request.len() > 0,
        conversation.len() > 0,
        forall|j: int|
            r < j <= k ==> reported_request(#[trigger] lines[j]) != Some(
                step_matches(lines[k]).request,
            ),
    ensures
        ({
            let records = parsed_log(lines, times, messages).records;
            let n = parsed_log(lines.take(k), times, messages).records.len() as int;
            &&& 0 <= n < records.len()
            &&& records[n].model == model
            &&& records[n].session_id == conversation
        }),
{
    let request = step_matches(lines[k]).request;
    codebuddy::law_plain_names_stay(model);
    lemma_log_after(lines, times, messages, c);
    assert(lines.take(0) == Seq::<Seq<char>>::empty());
    lemma_model_stays(lines, times, messages, c, r);
    lemma_log_after(lines, times, messages, r);
    let log = log_after(lines, times, messages, r);
    assert(line_matches(lines[r]).report is None);
    assert(log.model == Some(model));
    assert(maps::value_of(log.models, request) == Some(model));
    assert(maps::value_of(log.conversations, request) == Some(conversation));
    lemma_request_stays(lines, times, messages, request, r, k);
    lemma_counted_step(lines, times, messages, k);
}

/// A step before which nothing was said of traces and conversations is known by
/// the id in brackets, or else by its request, and that is also its session.
pub proof fn law_step_alone_is_known_by_its_own_ids(
    lines: Seq<Seq<char>>,
    times: Seq<Option<i64>>,
    messages: Map<Seq<char>, Seq<char>>,
    k: int,
    request: Seq<char>,
    message: Seq<char>,
)
    requires
        is_counted_step(lines, times, messages, k),
        forall|j: int| 0 <= j <= k ==> names_no_trace(#[trigger] lines[j]),
        forall|j: int| 0 <= j <= k ==> names_no_conversation(#[trigger] lines[j]),
        patterns::regex_group(r"requestId:\s*([a-zA-Z0-9_-]+)"@, lines[k], 1) == Some(request),
        patterns::regex_group(r"messageId:\s*([a-zA-Z0-9_-]+)"@, lines[k], 1) == Some(message),
        message.len() > 0,
    ensures
        ({
            let records = parsed_log(lines, times, messages).records;
            let n = parsed_log(lines.take(k), times, messages).records.len() as int;
            let bracket = patterns::regex_group(
                r"\[BaseAgent:[^\]]+\]\s*\[([a-zA-Z0-9_-]+)\]"@,
                lines[k],
                1,
            );
            let id = if bracket is Some && bracket->0.len() > 0 {
                bracket->0
            } else {
                request
            };
            &&& 0 <= n < records.len()
            &&& records[n].request_id == "codebuddy:"@ + id + ":"@ + message
            &&& records[n].session_id == id
        }),
{
    reveal_strlit("");
    assert(lines.take(0) == Seq::<Seq<char>>::empty());
    assert forall|j: int| 0 <= j <= k implies reported_request(#[trigger] lines[j]) != Some(
        request,
    ) by {
        assert(names_no_conversation(lines[j]));
    }
    lemma_trace_stays(lines, times, messages, -1, k);
    lemma_conversation_stays(lines, times, messages, -1, k);
    lemma_request_stays(lines, times, messages, request, -1, k);
    lemma_counted_step(lines, times, messages, k);
}

/// The files of messages that are asked for are those of steps that report no
/// output.
pub proof fn law_messages_are_asked_for(line: Seq<char>, document: Seq<char>, u: json::JsonModel, s: StepUsage, id: Seq<char>)
    requires
        text::has_text(line, "notifyStepEnd"@),
        usage_text(line) == Some(document),
        json::json_document(document) == Ok::<json::JsonModel, Seq<char>>(u),
        gives_usage(u, s),
        patterns::regex_group(r"messageId:\s*([a-zA-Z0-9_-]+)"@, line, 1) == Some(id),
        id.len() > 0,
    ensures
        s.output_tokens == 0 ==> needed_message(line) == Some(id),
        s.output_tokens != 0 ==> needed_message(line) is None,
{
    law_step_counts_are_read(u, s);
}

/// A log of more than thirty-two megabytes is an error, and no other is.
pub proof fn law_large_logs_are_refused(size: u64)
    ensures
        log_error(size) is Some <==> size > 32 * 1024 * 1024,
{
}

} // verus!
