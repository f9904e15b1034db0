//! Traces of CodeBuddy and WorkBuddy.
//!
//! A trace file has the shape `{ trace: { traceId, sessionId, modelInfo, … },
//! spans: […] }`. Each span named `generation` carries a `toolOutput` text, a
//! JSON document somewhere in which a usage object stands.

use crate::clock;
use crate::clock::parse_started_at_utc;
use crate::codebuddy;
use crate::json;
use crate::json::{get_of, i64_of, json_or, parse_json, str_of, Json};
use crate::text;
use crate::usage;
use crate::usage::{
    clamp_sqlite_seconds, combine_outcomes, import_records, FileOutcome, ImportOutcome,
    ImportSource, SessionSyncResult, UsageRecord, UsageStore,
};
use crate::workbuddy;
use vstd::prelude::*;
use vstd::string::*;

verus! {

/// The programs that store traces.
#[derive(Debug, Clone, Copy, PartialEq, Eq, Structural)]
pub enum TraceProgram {
    CodeBuddy,
    WorkBuddy,
}

impl TraceProgram {
    /// The program as the source of an import.
    pub open spec fn source_of(self) -> ImportSource {
        match self {
            TraceProgram::CodeBuddy => ImportSource::CodeBuddy,
            TraceProgram::WorkBuddy => ImportSource::WorkBuddy,
        }
    }

    /// What the request ids of the program begin with.
    pub open spec fn prefix_text(self) -> Seq<char> {
        match self {
            TraceProgram::CodeBuddy => "codebuddy:"@,
            TraceProgram::WorkBuddy => "workbuddy:"@,
        }
    }

    /// The model of a span.
    pub open spec fn model_of(self, tool_input: Seq<char>, models: Seq<Seq<char>>) -> Seq<char> {
        match self {
            TraceProgram::CodeBuddy => codebuddy::span_model(tool_input, models),
            TraceProgram::WorkBuddy => workbuddy::span_model(tool_input, models),
        }
    }

    fn source(self) -> (r: ImportSource)
        ensures
            r == self.source_of(),
    {
        match self {
            TraceProgram::CodeBuddy => ImportSource::CodeBuddy,
            TraceProgram::WorkBuddy => ImportSource::WorkBuddy,
        }
    }

    fn prefix(self) -> (r: &'static str)
        ensures
            r@ == self.prefix_text(),
    {
        match self {
            TraceProgram::CodeBuddy => "codebuddy:",
            TraceProgram::WorkBuddy => "workbuddy:",
        }
    }

    fn model(self, tool_input: &str, models: &Vec<String>) -> (r: String)
        ensures
            r@ == self.model_of(tool_input@, text::views(models@)),
    {
        match self {
            TraceProgram::CodeBuddy => codebuddy::extract_model(tool_input, models),
            TraceProgram::WorkBuddy => workbuddy::extract_model(tool_input, models),
        }
    }
}

// ---------------------------------------------------------------------------
// Usage objects
// ---------------------------------------------------------------------------

/// The token counts of a usage object.
#[derive(Debug, Clone, Copy, PartialEq, Eq, Structural)]
pub struct ExtractedUsage {
    pub prompt_tokens: i64,
    pub completion_tokens: i64,
    pub cached_tokens: i64,
    pub cache_write_tokens: i64,
}

/// `n`, or zero where there is none.
pub open spec fn or_zero(n: Option<i64>) -> i64 {
    match n {
        Some(v) => v,
        None => 0,
    }
}

/// The count of written cache tokens among the details of a usage object, under
/// the first of its names that is there.
pub open spec fn cache_write_field(details: Option<json::JsonModel>) -> Option<json::JsonModel> {
    json::either(
        json::opt_field(details, "cache_write_tokens"@),
        json::either(
            json::opt_field(details, "cache_creation_tokens"@),
            json::either(
                json::opt_field(details, "cachedWriteTokens"@),
                json::opt_field(details, "cacheCreationTokens"@),
            ),
        ),
    )
}

/// The counts of an object that has an integer under `prompt_tokens`.
pub open spec fn usage_object(m: json::JsonModel) -> Option<ExtractedUsage> {
    match json::opt_i64(m.field("prompt_tokens"@)) {
        Some(prompt_tokens) => {
            let details = m.field("prompt_tokens_details"@);
            Some(
                ExtractedUsage {
                    prompt_tokens,
                    completion_tokens: or_zero(json::opt_i64(m.field("completion_tokens"@))),
                    cached_tokens: or_zero(
                        json::opt_i64(json::opt_field(details, "cached_tokens"@)),
                    ),
                    cache_write_tokens: or_zero(json::opt_i64(cache_write_field(details))),
                },
            )
        },
        None => None,
    }
}

/// The first usage object of a document, depth first: the document itself, else
/// the first one among what it holds.
pub open spec fn find_usage(m: json::JsonModel) -> Option<ExtractedUsage>
    decreases m,
{
    if usage_object(m) is Some {
        usage_object(m)
    } else {
        match m {
            json::JsonModel::Object(entries) => find_usage_entries(entries),
            json::JsonModel::Array(items) => find_usage_items(items),
            _ => None,
        }
    }
}

/// The first usage object among the items of an array.
pub open spec fn find_usage_items(items: Seq<json::JsonModel>) -> Option<ExtractedUsage>
    decreases items,
{
    if items.len() == 0 {
        None
    } else if find_usage(items[0]) is Some {
        find_usage(items[0])
    } else {
        find_usage_items(items.subrange(1, items.len() as int))
    }
}

/// The first usage object among the values of an object.
pub open spec fn find_usage_entries(entries: Seq<(Seq<char>, json::JsonModel)>) -> Option<
    ExtractedUsage,
>
    decreases entries,
{
    if entries.len() == 0 {
        None
    } else if find_usage(entries[0].1) is Some {
        find_usage(entries[0].1)
    } else {
        find_usage_entries(entries.subrange(1, entries.len() as int))
    }
}

/// `n`, or zero where there is none.
pub fn or_zero_of(n: Option<i64>) -> (r: i64)
    ensures
        r == or_zero(n),
{
    match n {
        Some(v) => v,
        None => 0,
    }
}

fn usage_object_of(value: &Json) -> (r: Option<ExtractedUsage>)
    ensures
        r == usage_object(value@),
{
    match i64_of(value.get("prompt_tokens")) {
        Some(prompt_tokens) => {
            let details = value.get("prompt_tokens_details");
            let cache_write = json_or(
                get_of(details, "cache_write_tokens"),
                json_or(
                    get_of(details, "cache_creation_tokens"),
                    json_or(
                        get_of(details, "cachedWriteTokens"),
                        get_of(details, "cacheCreationTokens"),
                    ),
                ),
            );
            Some(
                ExtractedUsage {
                    prompt_tokens,
                    completion_tokens: or_zero_of(i64_of(value.get("completion_tokens"))),
                    cached_tokens: or_zero_of(i64_of(get_of(details, "cached_tokens"))),
                    cache_write_tokens: or_zero_of(i64_of(cache_write)),
                },
            )
        },
        None => None,
    }
}

/// Finds the first usage object of a document, depth first.
pub fn find_usage_object(value: &Json) -> (r: Option<ExtractedUsage>)
    ensures
        r == find_usage(value@),
    decreases value,
{
    let own = usage_object_of(value);
    if own.is_some() {
        return own;
    }
    match value {
        Json::Object(entries) => {
            let ghost models = json::entry_models(entries@);
            proof {
                json::lemma_object_model(*entries);
            }
            let mut i: usize = 0;
            assert(models.subrange(0, models.len() as int) == models);
            while i < entries.len()
                invariant
                    *value == Json::Object(*entries),
                    models == json::entry_models(entries@),
                    value@ == json::JsonModel::Object(models),
                    usage_object(value@) is None,
                    i <= entries@.len(),
                    find_usage_entries(models) == find_usage_entries(
                        models.subrange(i as int, models.len() as int),
                    ),
                decreases entries@.len() - i,
            {
                let ghost rest = models.subrange(i as int, models.len() as int);
                assert(rest[0] == models[i as int]);
                assert(rest.subrange(1, rest.len() as int) == models.subrange(
                    i + 1,
                    models.len() as int,
                ));
                assert(decreases_to!(*value => value->Object_0));
                assert(decreases_to!(*entries => entries@));
                assert(decreases_to!(entries@ => entries@[i as int]));
                assert(decreases_to!(entries@[i as int] => entries@[i as int].1));
                let found = find_usage_object(&entries[i].1);
                if found.is_some() {
                    return found;
                }
                i = i + 1;
            }
            None
        },
        Json::Array(items) => {
            let ghost models = json::item_models(items@);
            proof {
                json::lemma_array_model(*items);
            }
            let mut i: usize = 0;
            assert(models.subrange(0, models.len() as int) == models);
            while i < items.len()
                invariant
                    *value == Json::Array(*items),
                    models == json::item_models(items@),
                    value@ == json::JsonModel::Array(models),
                    usage_object(value@) is None,
                    i <= items@.len(),
                    find_usage_items(models) == find_usage_items(
                        models.subrange(i as int, models.len() as int),
                    ),
                decreases items@.len() - i,
            {
                let ghost rest = models.subrange(i as int, models.len() as int);
                assert(rest[0] == models[i as int]);
                assert(rest.subrange(1, rest.len() as int) == models.subrange(
                    i + 1,
                    models.len() as int,
                ));
                assert(decreases_to!(*value => value->Array_0));
                assert(decreases_to!(*items => items@));
                assert(decreases_to!(items@ => items@[i as int]));
                let found = find_usage_object(&items[i]);
                if found.is_some() {
                    return found;
                }
                i = i + 1;
            }
            None
        },
        _ => None,
    }
}

/// The usage in the output of a span: the first usage object of the document
/// that it is.
pub open spec fn output_usage(tool_output: Seq<char>) -> Option<ExtractedUsage> {
    if tool_output.len() == 0 {
        None
    } else {
        match json::json_document(tool_output) {
            Ok(doc) => find_usage(doc),
            Err(_) => None,
        }
    }
}

/// Finds the usage in the output of a span.
pub fn extract_usage_from_tool_output(tool_output: &str) -> (r: Option<ExtractedUsage>)
    ensures
        r == output_usage(tool_output@),
{
    if tool_output.is_empty() {
        return None;
    }
    match parse_json(tool_output) {
        Ok(doc) => find_usage_object(&doc),
        Err(_) => None,
    }
}

// ---------------------------------------------------------------------------
// Spans
// ---------------------------------------------------------------------------

/// The text of an optional document, or the empty text.
pub open spec fn or_blank(s: Option<Seq<char>>) -> Seq<char> {
    match s {
        Some(t) => t,
        None => ""@,
    }
}

fn or_blank_of<'a>(s: Option<&'a str>) -> (r: &'a str)
    ensures
        r@ == or_blank(json::opt_str(s)),
{
    match s {
        Some(t) => t,
        None => "",
    }
}

/// What a trace says of all its spans.
#[verifier::ext_equal]
pub ghost struct TraceModel {
    pub trace_id: Seq<char>,
    pub session_id: Seq<char>,
    pub models: Seq<Seq<char>>,
}

/// The texts among the items of an array.
pub open spec fn text_items(items: Seq<json::JsonModel>) -> Seq<Seq<char>>
    decreases items.len(),
{
    if items.len() == 0 {
        seq![]
    } else {
        match items.last().text() {
            Some(s) => text_items(items.drop_last()).push(s),
            None => text_items(items.drop_last()),
        }
    }
}

/// What a document says of all its spans.
pub open spec fn trace_head(root: json::JsonModel) -> TraceModel {
    let trace = root.field("trace"@);
    TraceModel {
        trace_id: or_blank(json::opt_text(json::opt_field(trace, "traceId"@))),
        session_id: or_blank(json::opt_text(json::opt_field(trace, "sessionId"@))),
        models: match json::opt_field(json::opt_field(trace, "modelInfo"@), "models"@) {
            Some(json::JsonModel::Array(items)) => text_items(items),
            _ => seq![],
        },
    }
}

/// What becomes of a span.
pub ghost enum SpanModel {
    /// Another kind of span, which is not counted.
    Ignored,
    /// A generation that is still running, or without usage.
    Skipped,
    Record(usage::RecordModel),
}

/// What becomes of a span.
pub open spec fn span_outcome(
    program: TraceProgram,
    head: TraceModel,
    span: json::JsonModel,
) -> SpanModel {
    if span.text_field("name"@) != Some("generation"@) {
        SpanModel::Ignored
    } else if span.text_field("status"@) == Some("running"@) {
        SpanModel::Skipped
    } else {
        match output_usage(or_blank(span.text_field("toolOutput"@))) {
            None => SpanModel::Skipped,
            Some(u) => SpanModel::Record(
                usage::RecordModel {
                    request_id: program.prefix_text() + head.trace_id + ":"@ + or_blank(
                        span.text_field("spanId"@),
                    ),
                    model: program.model_of(
                        or_blank(span.text_field("toolInput"@)),
                        head.models,
                    ),
                    input_tokens: u.prompt_tokens,
                    output_tokens: u.completion_tokens,
                    cache_read_tokens: u.cached_tokens,
                    cache_creation_tokens: match program {
                        TraceProgram::CodeBuddy => u.cache_write_tokens,
                        TraceProgram::WorkBuddy => 0,
                    },
                    session_id: head.session_id,
                    created_at: usage::sqlite_seconds(
                        or_zero(clock::started_at(or_blank(span.text_field("startedAt"@)))),
                    ),
                },
            ),
        }
    }
}

/// The records of a list of spans.
pub open spec fn span_records(
    program: TraceProgram,
    head: TraceModel,
    spans: Seq<json::JsonModel>,
) -> Seq<usage::RecordModel>
    decreases spans.len(),
{
    if spans.len() == 0 {
        seq![]
    } else {
        match span_outcome(program, head, spans.last()) {
            SpanModel::Record(r) => span_records(program, head, spans.drop_last()).push(r),
            _ => span_records(program, head, spans.drop_last()),
        }
    }
}

/// How many of a list of spans are skipped.
pub open spec fn span_skips(
    program: TraceProgram,
    head: TraceModel,
    spans: Seq<json::JsonModel>,
) -> nat
    decreases spans.len(),
{
    if spans.len() == 0 {
        0
    } else {
        span_skips(program, head, spans.drop_last()) + if span_outcome(
            program,
            head,
            spans.last(),
        ) is Skipped {
            1nat
        } else {
            0nat
        }
    }
}

/// The spans of a document.
pub open spec fn trace_spans(root: json::JsonModel) -> Seq<json::JsonModel> {
    match root.field("spans"@) {
        Some(json::JsonModel::Array(items)) => items,
        _ => seq![],
    }
}

/// What a trace says of all its spans.
struct TraceHead {
    trace_id: String,
    session_id: String,
    models: Vec<String>,
}

impl View for TraceHead {
    type V = TraceModel;

    closed spec fn view(&self) -> TraceModel {
        TraceModel {
            trace_id: self.trace_id@,
            session_id: self.session_id@,
            models: text::views(self.models@),
        }
    }
}

fn text_items_of(items: &Vec<Json>) -> (r: Vec<String>)
    ensures
        text::views(r@) == text_items(json::item_models(items@)),
{
    let ghost models = json::item_models(items@);
    let mut out: Vec<String> = Vec::new();
    let mut i: usize = 0;
    assert(models.take(0) == Seq::<json::JsonModel>::empty());
    assert(text::views(out@) == Seq::<Seq<char>>::empty());
    while i < items.len()
        invariant
            models == json::item_models(items@),
            i <= items@.len(),
            text::views(out@) == text_items(models.take(i as int)),
        decreases items@.len() - i,
    {
        assert(models.take(i + 1).drop_last() == models.take(i as int));
        assert(models.take(i + 1).last() == items@[i as int]@);
        if let Some(s) = items[i].as_str() {
            let ghost before = out@;
            out.push(s.to_owned());
            assert(text::views(out@) == text::views(before).push(s@));
        }
        i = i + 1;
    }
    assert(models.take(items@.len() as int) == models);
    out
}

fn trace_head_of(root: &Json) -> (r: TraceHead)
    ensures
        r@ == trace_head(root@),
{
    let trace = root.get("trace");
    let models: Vec<String> = match get_of(get_of(trace, "modelInfo"), "models") {
        Some(v) => match v.as_array() {
            Some(items) => text_items_of(items),
            None => Vec::new(),
        },
        None => Vec::new(),
    };
    assert(text::views(models@) == trace_head(root@).models);
    TraceHead {
        trace_id: or_blank_of(str_of(get_of(trace, "traceId"))).to_owned(),
        session_id: or_blank_of(str_of(get_of(trace, "sessionId"))).to_owned(),
        models,
    }
}

enum SpanOutcome {
    Ignored,
    Skipped,
    Record(UsageRecord),
}

spec fn span_view(s: SpanOutcome) -> SpanModel {
    match s {
        SpanOutcome::Ignored => SpanModel::Ignored,
        SpanOutcome::Skipped => SpanModel::Skipped,
        SpanOutcome::Record(r) => SpanModel::Record(r@),
    }
}

fn read_span(program: TraceProgram, head: &TraceHead, span: &Json) -> (r: SpanOutcome)
    ensures
        span_view(r) == span_outcome(program, head@, span@),
{
    match span.get_str("name") {
        Some(name) => if !text::same_text(name, "generation") {
            return SpanOutcome::Ignored;
        },
        None => {
            return SpanOutcome::Ignored;
        },
    }
    if let Some(status) = span.get_str("status") {
        if text::same_text(status, "running") {
            return SpanOutcome::Skipped;
        }
    }
    let usage = match extract_usage_from_tool_output(or_blank_of(span.get_str("toolOutput"))) {
        Some(usage) => usage,
        None => {
            return SpanOutcome::Skipped;
        },
    };
    let model = program.model(or_blank_of(span.get_str("toolInput")), &head.models);
    let started_at: i64 = or_zero_of(
        parse_started_at_utc(or_blank_of(span.get_str("startedAt"))),
    );
    let mut request_id = String::from_str(program.prefix());
    request_id.append(head.trace_id.as_str());
    request_id.append(":");
    request_id.append(or_blank_of(span.get_str("spanId")));
    SpanOutcome::Record(
        UsageRecord {
            request_id,
            model,
            input_tokens: usage.prompt_tokens,
            output_tokens: usage.completion_tokens,
            cache_read_tokens: usage.cached_tokens,
            cache_creation_tokens: match program {
                TraceProgram::CodeBuddy => usage.cache_write_tokens,
                TraceProgram::WorkBuddy => 0,
            },
            session_id: head.session_id.clone(),
            created_at: clamp_sqlite_seconds(started_at),
        },
    )
}

/// The records of a trace and the number of generations that are skipped.
#[derive(Debug)]
pub struct ParsedTrace {
    pub records: Vec<UsageRecord>,
    pub skipped: u32,
}

/// Whether `p` is what a document holds.
pub open spec fn is_trace(p: ParsedTrace, program: TraceProgram, root: json::JsonModel) -> bool {
    &&& usage::record_models(p.records@) == span_records(
        program,
        trace_head(root),
        trace_spans(root),
    )
    &&& p.skipped == usage::saturated(
        span_skips(program, trace_head(root), trace_spans(root)) as int,
    )
}

/// Reads the records of a trace document.
pub fn parse_trace(program: TraceProgram, root: &Json) -> (r: ParsedTrace)
    ensures
        is_trace(r, program, root@),
{
    let head = trace_head_of(root);
    let mut records: Vec<UsageRecord> = Vec::new();
    let mut skipped: u32 = 0;
    assert(usage::record_models(records@) == Seq::<usage::RecordModel>::empty());
    let spans = match root.get("spans") {
        Some(v) => match v.as_array() {
            Some(items) => items,
            None => {
                return ParsedTrace { records, skipped };
            },
        },
        None => {
            return ParsedTrace { records, skipped };
        },
    };
    let ghost models = json::item_models(spans@);
    let mut i: usize = 0;
    assert(models.take(0) == Seq::<json::JsonModel>::empty());
    while i < spans.len()
        invariant
            models == json::item_models(spans@),
            i <= spans@.len(),
            usage::record_models(records@) == span_records(program, head@, models.take(i as int)),
            skipped == usage::saturated(
                span_skips(program, head@, models.take(i as int)) as int,
            ),
        decreases spans@.len() - i,
    {
        assert(models.take(i + 1).drop_last() == models.take(i as int));
        assert(models.take(i + 1).last() == spans@[i as int]@);
        let ghost before = records@;
        match read_span(program, &head, &spans[i]) {
            SpanOutcome::Ignored => {},
            SpanOutcome::Skipped => {
                skipped = skipped.saturating_add(1);
            },
            SpanOutcome::Record(record) => {
                records.push(record);
                assert(usage::record_models(records@) == usage::record_models(before).push(
                    record@,
                ));
            },
        }
        i = i + 1;
    }
    assert(models.take(spans@.len() as int) == models);
    ParsedTrace { records, skipped }
}

// ---------------------------------------------------------------------------
// Files
// ---------------------------------------------------------------------------

/// Larger trace files are taken for broken and left for a later sync.
pub const MAX_TRACE_FILE_BYTES: u64 = 33_554_432;

/// Why a trace file is not imported.
pub open spec fn trace_error(size: u64, content: Seq<char>) -> Option<Seq<char>> {
    if size > MAX_TRACE_FILE_BYTES {
        Some("trace 文件超过 32MB ("@ + text::decimal(size as nat) + " bytes)，跳过"@)
    } else {
        match json::json_document(content) {
            Ok(_) => None,
            Err(e) => Some("解析 trace JSON 失败: "@ + e),
        }
    }
}

/// Whether an import is that of a document.
pub open spec fn is_trace_import(
    out: ImportOutcome,
    program: TraceProgram,
    store: usage::StoreModel,
    root: json::JsonModel,
) -> bool {
    usage::is_import_of(
        out,
        program.source_of(),
        store,
        span_records(program, trace_head(root), trace_spans(root)),
        usage::saturated(span_skips(program, trace_head(root), trace_spans(root)) as int) as int,
    )
}

/// The store after a document was imported.
pub open spec fn store_after_trace(
    program: TraceProgram,
    store: usage::StoreModel,
    root: json::JsonModel,
) -> usage::StoreModel {
    store.after_all(
        usage::record_ids(span_records(program, trace_head(root), trace_spans(root))),
    )
}

/// Imports a trace document.
pub fn import_trace(store: &mut UsageStore, program: TraceProgram, root: &Json) -> (r: ImportOutcome)
    ensures
        is_trace_import(r, program, old(store)@, root@),
        final(store)@ == store_after_trace(program, old(store)@, root@),
{
    let parsed = parse_trace(program, root);
    import_records(store, program.source(), &parsed.records, parsed.skipped)
}

/// Imports a trace file of this size. One that is too large, or no JSON
/// document, is an error and leaves the store as it is.
pub fn sync_single_trace_file(
    store: &mut UsageStore,
    program: TraceProgram,
    size: u64,
    content: &str,
) -> (r: Result<ImportOutcome, String>)
    ensures
        match r {
            Ok(out) => trace_error(size, content@) is None && is_trace_import(
                out,
                program,
                old(store)@,
                json::json_document(content@)->Ok_0,
            ) && final(store)@ == store_after_trace(
                program,
                old(store)@,
                json::json_document(content@)->Ok_0,
            ),
            Err(e) => trace_error(size, content@) == Some(e@) && final(store)@ == old(store)@,
        },
{
    if size > MAX_TRACE_FILE_BYTES {
        return Err(
            text::concat3(
                "trace 文件超过 32MB (",
                text::decimal_of(size).as_str(),
                " bytes)，跳过",
            ),
        );
    }
    match parse_json(content) {
        Ok(root) => Ok(import_trace(store, program, &root)),
        Err(e) => {
            let mut message = String::from_str("解析 trace JSON 失败: ");
            message.append(e.as_str());
            Err(message)
        },
    }
}

/// Whether a file name is that of a trace.
pub open spec fn is_trace_name(name: Seq<char>) -> bool {
    text::begins_with(name, "trace_"@) && text::finishes_with(name, ".json"@)
}

/// Whether a file name is that of a trace.
pub fn is_trace_file_name(name: &str) -> (r: bool)
    ensures
        r == is_trace_name(name@),
{
    text::starts_with_text(name, "trace_") && text::ends_with_text(name, ".json")
}

/// The totals of the files of a traces directory; without one there are none.
pub open spec fn trace_totals(outcomes: Option<Vec<FileOutcome>>) -> usage::SyncTotals {
    match outcomes {
        Some(files) => usage::totals(""@, true, files@, files@.len()),
        None => usage::totals(""@, true, seq![], 0),
    }
}

/// Adds up what syncing the files of a traces directory gave. A file that could
/// not be synced is reported and left for a later sync.
pub fn combine_trace_outcomes(outcomes: Option<Vec<FileOutcome>>) -> (r: SessionSyncResult)
    ensures
        usage::shows_totals(r, trace_totals(outcomes)),
{
    match outcomes {
        Some(files) => combine_outcomes("", true, files),
        None => {
            let none: Vec<FileOutcome> = Vec::new();
            combine_outcomes("", true, none)
        },
    }
}

// ---------------------------------------------------------------------------
// Laws
// ---------------------------------------------------------------------------

/// Importing a trace again imports nothing and leaves the store as it is.
pub proof fn law_trace_replay(
    program: TraceProgram,
    store: usage::StoreModel,
    root: json::JsonModel,
)
    ensures
        ({
            let ids = usage::record_ids(
                span_records(program, trace_head(root), trace_spans(root)),
            );
            let after = store_after_trace(program, store, root);
            &&& after.imported_count(ids) == 0
            &&& store_after_trace(program, after, root) == after
        }),
{
    usage::law_replay_imports_nothing(
        store,
        usage::record_ids(span_records(program, trace_head(root), trace_spans(root))),
    );
}

/// A trace file as a pass over a directory finds it.
pub ghost struct TraceFile {
    pub path: Seq<char>,
    pub size: u64,
    pub content: Seq<char>,
}

/// What a pass finds in a trace file.
pub open spec fn trace_import(program: TraceProgram, f: TraceFile) -> usage::FileImport {
    let root = json::json_document(f.content)->Ok_0;
    usage::FileImport {
        path: f.path,
        error: trace_error(f.size, f.content),
        deferred: 0,
        skips: usage::saturated(span_skips(program, trace_head(root), trace_spans(root)) as int),
        ids: usage::record_ids(span_records(program, trace_head(root), trace_spans(root))),
    }
}

/// What a pass finds in the files of a traces directory; one that is missing has
/// none.
pub open spec fn trace_imports(program: TraceProgram, files: Option<Seq<TraceFile>>) -> Seq<
    usage::FileImport,
> {
    match files {
        Some(f) => Seq::new(f.len(), |i: int| trace_import(program, f[i])),
        None => seq![],
    }
}

/// The outcomes of the files of a directory; one that is missing has none.
pub open spec fn outcome_list(outcomes: Option<Vec<FileOutcome>>) -> Seq<FileOutcome> {
    match outcomes {
        Some(o) => o@,
        None => seq![],
    }
}

/// What importing a trace file did is what a pass over the directory finds in it.
pub proof fn law_trace_outcome(
    o: FileOutcome,
    program: TraceProgram,
    store: usage::StoreModel,
    f: TraceFile,
    out: ImportOutcome,
)
    requires
        o.path@ == f.path,
        trace_error(f.size, f.content) is None,
        is_trace_import(out, program, store, json::json_document(f.content)->Ok_0),
        usage::has_counts(o, out.imported, out.skipped, 0),
    ensures
        usage::is_outcome_of(o, store, trace_import(program, f)),
        store_after_trace(program, store, json::json_document(f.content)->Ok_0)
            == store.after_file(trace_import(program, f)),
{
    let root = json::json_document(f.content)->Ok_0;
    let records = span_records(program, trace_head(root), trace_spans(root));
    assert(usage::record_ids(records).len() == records.len());
}

/// Syncing a traces directory a second time, where nothing in it changed, imports
/// nothing, skips all that was imported or skipped before, reports the same
/// files and errors, and leaves the store as it is. A directory that is missing
/// or empty gives zeros and no errors. Left out are counts that do not fit.
pub proof fn law_directory_replay(
    program: TraceProgram,
    store: usage::StoreModel,
    files: Option<Seq<TraceFile>>,
    outcomes: Option<Vec<FileOutcome>>,
    later: Option<Vec<FileOutcome>>,
    first: SessionSyncResult,
    second: SessionSyncResult,
)
    requires
        usage::are_outcomes_of(outcome_list(outcomes), store, trace_imports(program, files)),
        usage::are_outcomes_of(
            outcome_list(later),
            store.after_files(trace_imports(program, files)),
            trace_imports(program, files),
        ),
        usage::shows_totals(first, trace_totals(outcomes)),
        usage::shows_totals(second, trace_totals(later)),
        first.imported + first.skipped < u32::MAX,
    ensures
        second.imported == 0,
        second.skipped == first.imported + first.skipped,
        second.files_scanned == first.files_scanned,
        second.deferred_files == first.deferred_files,
        text::views(second.errors@) == text::views(first.errors@),
        ({
            let after = store.after_files(trace_imports(program, files));
            after.after_files(trace_imports(program, files)) == after
        }),
        files is None || files->0.len() == 0 ==> first.imported == 0 && first.skipped == 0
            && first.files_scanned == 0 && first.errors@.len() == 0,
{
    usage::law_pass_replay(
        ""@,
        true,
        store,
        trace_imports(program, files),
        outcome_list(outcomes),
        outcome_list(later),
    );
    assert(text::views(first.errors@).len() == first.errors@.len());
}

/// Every record of a trace has a time that SQLite accepts, an id that begins with
/// the prefix of the program and the id of the trace, and the session of the
/// trace. WorkBuddy writes no cache, and no model of CodeBuddy is `the`.
pub proof fn law_trace_records(
    program: TraceProgram,
    head: TraceModel,
    spans: Seq<json::JsonModel>,
    k: int,
)
    requires
        0 <= k < span_records(program, head, spans).len(),
    ensures
        ({
            let record = span_records(program, head, spans)[k];
            &&& usage::MIN_SQLITE_UNIX_SECONDS <= record.created_at
                <= usage::MAX_SQLITE_UNIX_SECONDS
            &&& (program.prefix_text() + head.trace_id + ":"@).is_prefix_of(record.request_id)
            &&& record.session_id == head.session_id
            &&& program == TraceProgram::WorkBuddy ==> record.cache_creation_tokens == 0
            &&& program == TraceProgram::CodeBuddy ==> text::lower(record.model) != text::lower(
                "the"@,
            )
        }),
    decreases spans.len(),
{
    let front = spans.drop_last();
    let before = span_records(program, head, front);
    match span_outcome(program, head, spans.last()) {
        SpanModel::Record(r) => {
            if k < before.len() {
                law_trace_records(program, head, front, k);
            } else {
                if program == TraceProgram::CodeBuddy {
                    codebuddy::law_model_is_never_the(
                        or_blank(spans.last().text_field("toolInput"@)),
                        head.models,
                    );
                }
            }
        },
        _ => {
            law_trace_records(program, head, front, k);
        },
    }
}

/// Every generation of a trace is counted: as a record or as skipped. Spans of
/// another kind are not.
pub proof fn law_every_generation_counted(
    program: TraceProgram,
    head: TraceModel,
    spans: Seq<json::JsonModel>,
)
    ensures
        span_records(program, head, spans).len() + span_skips(program, head, spans)
            == generation_count(spans),
    decreases spans.len(),
{
    if spans.len() > 0 {
        law_every_generation_counted(program, head, spans.drop_last());
    }
}

/// How many of a list of spans are generations.
pub open spec fn generation_count(spans: Seq<json::JsonModel>) -> nat
    decreases spans.len(),
{
    if spans.len() == 0 {
        0
    } else {
        generation_count(spans.drop_last()) + if spans.last().text_field("name"@) == Some(
            "generation"@,
        ) {
            1nat
        } else {
            0nat
        }
    }
}

// ---------------------------------------------------------------------------
// From a trace document to its records
// ---------------------------------------------------------------------------

/// Whether a document gives a count.
pub open spec fn gives(doc: json::JsonModel, key: Seq<char>, n: i64) -> bool {
    if 0 <= n {
        json::has_count_member(doc, key, n as u64)
    } else {
        json::has_member(doc, key, json::JsonModel::Number(json::JsonNumber::Negative(n)))
    }
}

/// Whether a usage object gives these counts; what it lacks is zero.
pub open spec fn gives_usage(m: json::JsonModel, u: ExtractedUsage) -> bool {
    &&& gives(m, "prompt_tokens"@, u.prompt_tokens)
    &&& gives(m, "completion_tokens"@, u.completion_tokens) || (json::lacks_member(
        m,
        "completion_tokens"@,
    ) && u.completion_tokens == 0)
    &&& (json::lacks_member(m, "prompt_tokens_details"@) && u.cached_tokens == 0
        && u.cache_write_tokens == 0) || exists|details: json::JsonModel| #[trigger]
        json::has_member(m, "prompt_tokens_details"@, details) && gives_details(details, u)
}

/// Whether the details of a usage object give these counts of cached tokens.
pub open spec fn gives_details(details: json::JsonModel, u: ExtractedUsage) -> bool {
    &&& gives(details, "cached_tokens"@, u.cached_tokens) || (json::lacks_member(
        details,
        "cached_tokens"@,
    ) && u.cached_tokens == 0)
    &&& gives(details, "cache_write_tokens"@, u.cache_write_tokens) || (json::lacks_member(
        details,
        "cache_write_tokens"@,
    ) && (gives(details, "cache_creation_tokens"@, u.cache_write_tokens) || (json::lacks_member(
        details,
        "cache_creation_tokens"@,
    ) && (gives(details, "cachedWriteTokens"@, u.cache_write_tokens) || (json::lacks_member(
        details,
        "cachedWriteTokens"@,
    ) && (gives(details, "cacheCreationTokens"@, u.cache_write_tokens) || (json::lacks_member(
        details,
        "cacheCreationTokens"@,
    ) && u.cache_write_tokens == 0)))))))
}

proof fn lemma_gives(doc: json::JsonModel, key: Seq<char>)
    ensures
        forall|n: i64| #[trigger] gives(doc, key, n) ==> json::opt_i64(doc.field(key)) == Some(n)
            && doc.field(key) is Some,
        json::lacks_member(doc, key) ==> doc.field(key) is None,
{
    json::law_member_is_found(doc, key);
    assert forall|n: i64| #[trigger] gives(doc, key, n) implies json::opt_i64(doc.field(key))
        == Some(n) && doc.field(key) is Some by {
        let v = if 0 <= n {
            json::JsonModel::Number(json::JsonNumber::Unsigned(n as u64))
        } else {
            json::JsonModel::Number(json::JsonNumber::Negative(n))
        };
        assert(json::has_member(doc, key, v));
    }
}

/// The counts of a usage object are those that it gives, each under its own name.
pub proof fn law_usage_object_is_read(m: json::JsonModel, u: ExtractedUsage)
    requires
        gives_usage(m, u),
    ensures
        usage_object(m) == Some(u),
        find_usage(m) == Some(u),
{
    lemma_gives(m, "prompt_tokens"@);
    lemma_gives(m, "completion_tokens"@);
    json::law_member_is_found(m, "prompt_tokens_details"@);
    if !json::lacks_member(m, "prompt_tokens_details"@) || u.cached_tokens != 0
        || u.cache_write_tokens != 0 {
        let details = choose|details: json::JsonModel| #[trigger]
            json::has_member(m, "prompt_tokens_details"@, details) && gives_details(details, u);
        lemma_gives(details, "cached_tokens"@);
        lemma_gives(details, "cache_write_tokens"@);
        lemma_gives(details, "cache_creation_tokens"@);
        lemma_gives(details, "cachedWriteTokens"@);
        lemma_gives(details, "cacheCreationTokens"@);
    }
}

/// The usage of a document is that of the first of its members that has one,
/// however deep it stands there.
pub proof fn law_usage_is_found_in_an_object(
    members: Seq<(Seq<char>, json::JsonModel)>,
    i: int,
    u: ExtractedUsage,
)
    requires
        0 <= i < members.len(),
        find_usage(members[i].1) == Some(u),
        forall|j: int| 0 <= j < i ==> find_usage((#[trigger] members[j]).1) is None,
        json::lacks_member(json::JsonModel::Object(members), "prompt_tokens"@),
    ensures
        find_usage(json::JsonModel::Object(members)) == Some(u),
{
    lemma_gives(json::JsonModel::Object(members), "prompt_tokens"@);
    lemma_found_member(members, i, u);
}

proof fn lemma_found_member(
    members: Seq<(Seq<char>, json::JsonModel)>,
    i: int,
    u: ExtractedUsage,
)
    requires
        0 <= i < members.len(),
        find_usage(members[i].1) == Some(u),
        forall|j: int| 0 <= j < i ==> find_usage((#[trigger] members[j]).1) is None,
    ensures
        find_usage_entries(members) == Some(u),
    decreases i,
{
    if i > 0 {
        let rest = members.subrange(1, members.len() as int);
        assert(find_usage(members[0].1) is None);
        assert(rest[i - 1] == members[i]);
        assert forall|j: int| 0 <= j < i - 1 implies find_usage((#[trigger] rest[j]).1) is None by {
            assert(rest[j] == members[j + 1]);
        }
        lemma_found_member(rest, i - 1, u);
    }
}

/// The usage of a list is that of the first of its items that has one.
pub proof fn law_usage_is_found_in_a_list(items: Seq<json::JsonModel>, i: int, u: ExtractedUsage)
    requires
        0 <= i < items.len(),
        find_usage(items[i]) == Some(u),
        forall|j: int| 0 <= j < i ==> find_usage(#[trigger] items[j]) is None,
    ensures
        find_usage(json::JsonModel::Array(items)) == Some(u),
{
    lemma_found_item(items, i, u);
}

proof fn lemma_found_item(items: Seq<json::JsonModel>, i: int, u: ExtractedUsage)
    requires
        0 <= i < items.len(),
        find_usage(items[i]) == Some(u),
        forall|j: int| 0 <= j < i ==> find_usage(#[trigger] items[j]) is None,
    ensures
        find_usage_items(items) == Some(u),
    decreases i,
{
    if i > 0 {
        let rest = items.subrange(1, items.len() as int);
        assert(find_usage(items[0]) is None);
        assert(rest[i - 1] == items[i]);
        assert forall|j: int| 0 <= j < i - 1 implies find_usage(#[trigger] rest[j]) is None by {
            assert(rest[j] == items[j + 1]);
        }
        lemma_found_item(rest, i - 1, u);
    }
}

/// What a trace says of all its spans is what stands under `trace`.
pub proof fn law_trace_head_is_read(
    root: json::JsonModel,
    trace: json::JsonModel,
    id: Seq<char>,
    session: Seq<char>,
    info: json::JsonModel,
    models: Seq<Seq<char>>,
)
    requires
        json::has_member(root, "trace"@, trace),
        json::has_text_member(trace, "traceId"@, id),
        json::has_text_member(trace, "sessionId"@, session),
        json::has_member(trace, "modelInfo"@, info),
        json::has_member(
            info,
            "models"@,
            json::JsonModel::Array(
                Seq::new(models.len(), |i: int| json::JsonModel::Text(models[i])),
            ),
        ),
    ensures
        trace_head(root) == (TraceModel { trace_id: id, session_id: session, models }),
{
    json::law_member_is_found(root, "trace"@);
    json::law_member_is_found(trace, "traceId"@);
    json::law_member_is_found(trace, "sessionId"@);
    json::law_member_is_found(trace, "modelInfo"@);
    json::law_member_is_found(info, "models"@);
    assert(json::has_member(trace, "traceId"@, json::JsonModel::Text(id)));
    assert(json::has_member(trace, "sessionId"@, json::JsonModel::Text(session)));
    lemma_text_items(models);
}

proof fn lemma_text_items(models: Seq<Seq<char>>)
    ensures
        text_items(Seq::new(models.len(), |i: int| json::JsonModel::Text(models[i]))) == models,
    decreases models.len(),
{
    let items = Seq::new(models.len(), |i: int| json::JsonModel::Text(models[i]));
    if models.len() > 0 {
        let front = models.drop_last();
        lemma_text_items(front);
        assert(items.drop_last() == Seq::new(front.len(), |i: int| json::JsonModel::Text(front[i])));
        assert(front.push(models.last()) == models);
    }
}

/// Whether a span is a generation with an id, an output and a start.
pub open spec fn is_generation(
    span: json::JsonModel,
    id: Seq<char>,
    output: Seq<char>,
    start: Seq<char>,
) -> bool {
    &&& json::has_text_member(span, "name"@, "generation"@)
    &&& json::has_text_member(span, "spanId"@, id)
    &&& json::has_text_member(span, "toolOutput"@, output)
    &&& json::has_text_member(span, "startedAt"@, start)
}

proof fn lemma_is_generation(
    span: json::JsonModel,
    id: Seq<char>,
    output: Seq<char>,
    start: Seq<char>,
)
    requires
        is_generation(span, id, output, start),
    ensures
        span.text_field("name"@) == Some("generation"@),
        span.text_field("spanId"@) == Some(id),
        span.text_field("toolOutput"@) == Some(output),
        span.text_field("startedAt"@) == Some(start),
{
    json::law_member_is_found(span, "name"@);
    json::law_member_is_found(span, "spanId"@);
    json::law_member_is_found(span, "toolOutput"@);
    json::law_member_is_found(span, "startedAt"@);
    assert(json::has_member(span, "name"@, json::JsonModel::Text("generation"@)));
    assert(json::has_member(span, "spanId"@, json::JsonModel::Text(id)));
    assert(json::has_member(span, "toolOutput"@, json::JsonModel::Text(output)));
    assert(json::has_member(span, "startedAt"@, json::JsonModel::Text(start)));
}

/// Every generation that has ended, in whatever way, and reports its usage has a
/// record of its own, in the order of the spans, with the counts that it reports, the time at which
/// it started, the session and the id of its trace, and its own id. WorkBuddy
/// does not count what is written to the cache. Left out are times that SQLite
/// does not accept.
pub proof fn law_every_generation_counts(
    program: TraceProgram,
    head: TraceModel,
    spans: Seq<json::JsonModel>,
    k: int,
    id: Seq<char>,
    output: Seq<char>,
    start: Seq<char>,
    status: Seq<char>,
    doc: json::JsonModel,
    u: ExtractedUsage,
)
    requires
        0 <= k < spans.len(),
        is_generation(spans[k], id, output, start),
        json::lacks_member(spans[k], "status"@) || json::has_text_member(
            spans[k],
            "status"@,
            status,
        ),
        status != "running"@,
        output.len() > 0,
        json::json_document(output) == Ok::<json::JsonModel, Seq<char>>(doc),
        find_usage(doc) == Some(u),
    ensures
        ({
            let records = span_records(program, head, spans);
            let n = span_records(program, head, spans.take(k)).len() as int;
            &&& 0 <= n < records.len()
            &&& records[n].input_tokens == u.prompt_tokens
            &&& records[n].output_tokens == u.completion_tokens
            &&& records[n].cache_read_tokens == u.cached_tokens
            &&& program == TraceProgram::CodeBuddy ==> records[n].cache_creation_tokens
                == u.cache_write_tokens
            &&& program == TraceProgram::WorkBuddy ==> records[n].cache_creation_tokens == 0
            &&& records[n].session_id == head.session_id
            &&& program == TraceProgram::CodeBuddy ==> records[n].request_id == "codebuddy:"@
                + head.trace_id + ":"@ + id
            &&& program == TraceProgram::WorkBuddy ==> records[n].request_id == "workbuddy:"@
                + head.trace_id + ":"@ + id
            &&& clock::started_at(start) matches Some(t) ==> (-62_167_219_200 <= t
                <= 253_402_300_799 ==> records[n].created_at == t)
            &&& clock::started_at(start) is None ==> records[n].created_at == 0
        }),
{
    lemma_is_generation(spans[k], id, output, start);
    json::law_member_is_found(spans[k], "status"@);
    let ended = json::JsonModel::Text(status);
    assert(json::has_member(spans[k], "status"@, ended) ==> spans[k].field("status"@) == Some(
        ended,
    ));
    lemma_span_record(program, head, spans, k);
}

proof fn lemma_span_record(
    program: TraceProgram,
    head: TraceModel,
    spans: Seq<json::JsonModel>,
    k: int,
)
    requires
        0 <= k < spans.len(),
    ensures
        ({
            let records = span_records(program, head, spans);
            let n = span_records(program, head, spans.take(k)).len() as int;
            span_outcome(program, head, spans[k]) matches SpanModel::Record(r) ==> 0 <= n
                < records.len() && records[n] == r
        }),
    decreases spans.len(),
{
    let front = spans.drop_last();
    if k < spans.len() - 1 {
        assert(front[k] == spans[k]);
        assert(front.take(k) == spans.take(k));
        lemma_span_record(program, head, front, k);
    } else {
        assert(spans.take(k) == front);
    }
}

/// A generation that is still running, or reports no usage, is skipped for now;
/// a span of another kind is not counted at all.
pub proof fn law_unfinished_generations_wait(
    program: TraceProgram,
    head: TraceModel,
    span: json::JsonModel,
    kind: Seq<char>,
)
    ensures
        json::has_text_member(span, "name"@, "generation"@) && json::has_text_member(
            span,
            "status"@,
            "running"@,
        ) ==> span_outcome(program, head, span) is Skipped,
        json::has_text_member(span, "name"@, "generation"@) && json::lacks_member(
            span,
            "toolOutput"@,
        ) ==> span_outcome(program, head, span) is Skipped,
        json::has_text_member(span, "name"@, kind) && kind != "generation"@ ==> span_outcome(
            program,
            head,
            span,
        ) is Ignored,
        json::lacks_member(span, "name"@) ==> span_outcome(program, head, span) is Ignored,
{
    reveal_strlit("");
    json::law_member_is_found(span, "name"@);
    json::law_member_is_found(span, "status"@);
    json::law_member_is_found(span, "toolOutput"@);
    let a = json::JsonModel::Text("generation"@);
    let b = json::JsonModel::Text("running"@);
    let c = json::JsonModel::Text(kind);
    assert(json::has_member(span, "name"@, a) ==> span.field("name"@) == Some(a));
    assert(json::has_member(span, "status"@, b) ==> span.field("status"@) == Some(b));
    assert(json::has_member(span, "name"@, c) ==> span.field("name"@) == Some(c));
}

/// A generation has the model that its input names in the way of its program, else
/// the first model of the trace.
pub proof fn law_generation_has_its_model(
    program: TraceProgram,
    head: TraceModel,
    span: json::JsonModel,
    input: Seq<char>,
)
    requires
        json::has_text_member(span, "toolInput"@, input),
        span_outcome(program, head, span) is Record,
    ensures
        (span_outcome(program, head, span)->Record_0).model == (match program {
            TraceProgram::CodeBuddy => codebuddy::span_model(input, head.models),
            TraceProgram::WorkBuddy => workbuddy::span_model(input, head.models),
        }),
{
    json::law_member_is_found(span, "toolInput"@);
    assert(json::has_member(span, "toolInput"@, json::JsonModel::Text(input)));
}

/// The spans of a trace are the items of its `spans`.
pub proof fn law_spans_are_found(root: json::JsonModel, spans: Seq<json::JsonModel>)
    ensures
        json::has_member(root, "spans"@, json::JsonModel::Array(spans)) ==> trace_spans(root)
            == spans,
        json::lacks_member(root, "spans"@) ==> trace_spans(root).len() == 0,
{
    json::law_member_is_found(root, "spans"@);
}

/// A generation without an input has a model all the same: that of an empty input.
/// One without an id is known by its trace alone.
pub proof fn law_generation_without_an_input(
    program: TraceProgram,
    head: TraceModel,
    span: json::JsonModel,
)
    requires
        span_outcome(program, head, span) is Record,
    ensures
        json::lacks_member(span, "toolInput"@) ==> (span_outcome(
            program,
            head,
            span,
        )->Record_0).model == (match program {
            TraceProgram::CodeBuddy => codebuddy::span_model(""@, head.models),
            TraceProgram::WorkBuddy => workbuddy::span_model(""@, head.models),
        }),
        json::lacks_member(span, "spanId"@) ==> (span_outcome(
            program,
            head,
            span,
        )->Record_0).request_id == (match program {
            TraceProgram::CodeBuddy => "codebuddy:"@,
            TraceProgram::WorkBuddy => "workbuddy:"@,
        }) + head.trace_id + ":"@ + ""@,
{
    json::law_member_is_found(span, "toolInput"@);
    json::law_member_is_found(span, "spanId"@);
}

/// A document without a trace has no ids and no models.
pub proof fn law_trace_without_a_head(root: json::JsonModel)
    requires
        json::lacks_member(root, "trace"@),
    ensures
        trace_head(root) == (TraceModel { trace_id: ""@, session_id: ""@, models: seq![] }),
{
    json::law_member_is_found(root, "trace"@);
}

/// The models of a trace are the texts of its list, in their order, and nothing
/// else in it.
pub proof fn law_models_are_the_texts_of_the_list(
    a: Seq<json::JsonModel>,
    b: Seq<json::JsonModel>,
    s: Seq<char>,
)
    ensures
        text_items(a + b) == text_items(a) + text_items(b),
        a.len() == 1 && a[0] == json::JsonModel::Text(s) ==> text_items(a) == seq![s],
        a.len() == 1 && !(a[0] is Text) ==> text_items(a).len() == 0,
    decreases b.len(),
{
    if a.len() == 1 {
        assert(text_items(a.drop_last()) == Seq::<Seq<char>>::empty());
        if a[0] == json::JsonModel::Text(s) {
            assert(text_items(a) =~= seq![s]);
        }
    }
    if b.len() > 0 {
        law_models_are_the_texts_of_the_list(a, b.drop_last(), s);
        assert((a + b).drop_last() == a + b.drop_last());
        assert((a + b).last() == b.last());
        assert(text_items(a + b) =~= text_items(a) + text_items(b));
    } else {
        assert(a + b == a);
        assert(text_items(a) + text_items(b) =~= text_items(a));
    }
}

/// A trace file of more than thirty-two megabytes, or that is no document, is an
/// error, and no other is.
pub proof fn law_broken_traces_are_refused(size: u64, content: Seq<char>)
    ensures
        trace_error(size, content) is Some <==> size > 32 * 1024 * 1024 || json::json_document(
            content,
        ) is Err,
{
}

/// A document that gives no prompt tokens anywhere has no usage.
pub proof fn law_no_usage_is_found_in_nothing(
    members: Seq<(Seq<char>, json::JsonModel)>,
    items: Seq<json::JsonModel>,
    s: Seq<char>,
)
    requires
        forall|j: int| 0 <= j < members.len() ==> find_usage((#[trigger] members[j]).1) is None,
        forall|j: int| 0 <= j < items.len() ==> find_usage(#[trigger] items[j]) is None,
    ensures
        json::lacks_member(json::JsonModel::Object(members), "prompt_tokens"@) ==> find_usage(
            json::JsonModel::Object(members),
        ) is None,
        find_usage(json::JsonModel::Array(items)) is None,
        find_usage(json::JsonModel::Text(s)) is None,
        find_usage(json::JsonModel::Null) is None,
{
    lemma_gives(json::JsonModel::Object(members), "prompt_tokens"@);
    lemma_no_member(members);
    lemma_no_item(items);
}

proof fn lemma_no_member(members: Seq<(Seq<char>, json::JsonModel)>)
    requires
        forall|j: int| 0 <= j < members.len() ==> find_usage((#[trigger] members[j]).1) is None,
    ensures
        find_usage_entries(members) is None,
    decreases members.len(),
{
    if members.len() > 0 {
        let rest = members.subrange(1, members.len() as int);
        assert(find_usage(members[0].1) is None);
        assert forall|j: int| 0 <= j < rest.len() implies find_usage((#[trigger] rest[j]).1) is None by {
            assert(rest[j] == members[j + 1]);
        }
        lemma_no_member(rest);
    }
}

proof fn lemma_no_item(items: Seq<json::JsonModel>)
    requires
        forall|j: int| 0 <= j < items.len() ==> find_usage(#[trigger] items[j]) is None,
    ensures
        find_usage_items(items) is None,
    decreases items.len(),
{
    if items.len() > 0 {
        let rest = items.subrange(1, items.len() as int);
        assert(find_usage(items[0]) is None);
        assert forall|j: int| 0 <= j < rest.len() implies find_usage(#[trigger] rest[j]) is None by {
            assert(rest[j] == items[j + 1]);
        }
        lemma_no_item(rest);
    }
}

/// A trace or a log that could not be synced is reported under its path and waits
/// for a later sync. Without a directory there is nothing to report.
pub proof fn law_failed_traces_wait(files: Vec<FileOutcome>, o: FileOutcome, why: String)
    requires
        files@ == seq![o],
        o.result == Err::<SessionSyncResult, String>(why),
    ensures
        trace_totals(Some(files)).deferred_files == 1,
        trace_totals(Some(files)).files_scanned == 1,
        trace_totals(Some(files)).errors == seq![o.path@ + ": "@ + why@],
        trace_totals(None) == (usage::SyncTotals {
            imported: 0,
            skipped: 0,
            files_scanned: 0,
            suspected_duplicates: 0,
            deferred_files: 0,
            errors: seq![],
        }),
{
    reveal_strlit("");
    usage::law_totals_of_one_file(""@, true, o);
    assert(""@ + o.path@ =~= o.path@);
}

} // verus!
