//! Traces of CodeBuddy and WorkBuddy.

use session_usage::codebuddy::{choose_model, clean_model_name};
use session_usage::codebuddy_logs::{sync_codebuddy_traces_dir, sync_codebuddy_usage};
use session_usage::traces::{
    extract_usage_from_tool_output, is_trace_file_name, sync_single_trace_file, TraceProgram,
    MAX_TRACE_FILE_BYTES,
};
use session_usage::usage::{
    counts_only, FileOutcome, ImportOutcome, InputTokenSemantics, SessionSyncResult, UsageStore,
};
use session_usage::walks::{collect_trace_files, FileKind, FoundFile};
use session_usage::workbuddy::{sync_workbuddy_traces_dir, sync_workbuddy_usage};

fn quoted(s: &str) -> String {
    serde_json::Value::from(s).to_string()
}

fn make_trace(
    trace_id: &str,
    session_id: &str,
    models: &[&str],
    started_at: &str,
    spans: &[(&str, &str, &str, &str)],
) -> String {
    let mut span_texts = Vec::new();
    for (idx, (name, status, tool_input, tool_output)) in spans.iter().enumerate() {
        span_texts.push(format!(
            "{{\"traceId\":{},\"spanId\":\"span_{idx:04}\",\"name\":{},\"type\":\"tool\",\"startedAt\":{},\"status\":{},\"error\":null,\"toolInput\":{},\"toolOutput\":{}}}",
            quoted(trace_id),
            quoted(name),
            quoted(started_at),
            quoted(status),
            quoted(tool_input),
            quoted(tool_output),
        ));
    }
    let models: Vec<String> = models.iter().map(|m| quoted(m)).collect();
    format!(
        "{{\"trace\":{{\"traceId\":{},\"sessionId\":{},\"modelInfo\":{{\"models\":[{}]}}}},\"spans\":[{}]}}",
        quoted(trace_id),
        quoted(session_id),
        models.join(","),
        span_texts.join(","),
    )
}

const CB_STARTED: &str = "2026-08-07T09:32:41.930Z";
const WB_STARTED: &str = "2026-08-05T21:39:44.890Z";

const TOOL_INPUT_EXACT: &str =
    "{\"prompt\":\"hello <codebuddy_background_info>\\nThe exact model ID is hy3.\\n</codebuddy_background_info>\"}";
const TOOL_INPUT_POWERED_THE: &str =
    "{\"prompt\":\"You are an interactive CLI tool powered by the assistant\"}";
const TOOL_INPUT_POWERED_VALID: &str =
    "{\"prompt\":\"You are an assistant powered by deepseek-v4-flash\"}";
const TOOL_INPUT_POWERED: &str =
    r#"[{"content":"This conversation is powered by Deepseek-V4-Flash\nHello."}]"#;

const CB_OUTPUT: &str = r#"[
    {
        "id": "resp_001",
        "model": "hy3",
        "object": "chat.completion",
        "choices": [],
        "usage": {
            "prompt_tokens": 15874,
            "completion_tokens": 101,
            "total_tokens": 15975,
            "prompt_tokens_details": {
                "cached_tokens": 10368,
                "cache_write_tokens": 512,
                "reasoning_tokens": 0
            },
            "completion_tokens_details": {
                "reasoning_tokens": 21
            }
        }
    }
]"#;

const WB_OUTPUT: &str = r#"[
    {
        "id": "resp_001",
        "model": "deepseek-v4-flash",
        "object": "chat.completion",
        "choices": [],
        "usage": {
            "prompt_tokens": 15874,
            "completion_tokens": 101,
            "total_tokens": 15975,
            "prompt_tokens_details": {
                "cached_tokens": 10368,
                "reasoning_tokens": 0
            },
            "completion_tokens_details": {
                "reasoning_tokens": 21
            }
        }
    }
]"#;

fn import(store: &mut UsageStore, program: TraceProgram, trace: &str) -> ImportOutcome {
    sync_single_trace_file(store, program, trace.len() as u64, trace).expect("import trace")
}

fn file_outcome(path: &str, out: &ImportOutcome) -> FileOutcome {
    FileOutcome { path: path.to_string(), result: Ok(counts_only(out.imported, out.skipped)) }
}

fn sync_dir(
    store: &mut UsageStore,
    program: TraceProgram,
    traces: &[String],
) -> (SessionSyncResult, Vec<ImportOutcome>) {
    let mut files = Vec::new();
    let mut outcomes = Vec::new();
    for trace in traces {
        let out = import(store, program, trace);
        files.push(file_outcome("/trace.json", &out));
        outcomes.push(out);
    }
    let result = match program {
        TraceProgram::CodeBuddy => sync_codebuddy_traces_dir(Some(files)),
        TraceProgram::WorkBuddy => sync_workbuddy_traces_dir(Some(files)),
    };
    (result, outcomes)
}

// ---------------------------------------------------------------------------
// CodeBuddy
// ---------------------------------------------------------------------------

#[test]
fn session_usage_codebuddy_imports_generation_span_with_usage_per_column_assertions() {
    let trace = make_trace(
        "trace_cb001",
        "sess-cb-100",
        &["hy3"],
        CB_STARTED,
        &[("generation", "ok", TOOL_INPUT_EXACT, CB_OUTPUT)],
    );
    let mut store = UsageStore::new();
    let (result, outcomes) = sync_dir(&mut store, TraceProgram::CodeBuddy, &[trace]);
    assert_eq!(result.imported, 1);
    assert_eq!(result.files_scanned, 1);
    assert_eq!(result.skipped, 0);
    assert!(result.errors.is_empty());

    let row = &outcomes[0].rows[0];
    assert_eq!(row.request_id, "codebuddy:trace_cb001:span_0000");
    assert_eq!(row.provider_id, "_codebuddy_session");
    assert_eq!(row.app_type, "codebuddy");
    assert_eq!(row.model, "hy3");
    assert_eq!(row.request_model, "hy3");
    assert_eq!(row.pricing_model, "hy3");
    assert_eq!(row.input_tokens, 15874);
    assert_eq!(row.output_tokens, 101);
    assert_eq!(row.cache_read_tokens, 10368);
    assert_eq!(row.cache_creation_tokens, 512);
    assert_eq!(row.input_token_semantics, InputTokenSemantics::Total);
    assert_eq!(row.status_code, 200);
    assert_eq!(row.session_id, "sess-cb-100");
    assert_eq!(row.data_source, "codebuddy_session");
    assert_eq!(row.created_at, 1786095161);
    assert!(store.has_seen("codebuddy:trace_cb001:span_0000"));
}

#[test]
fn session_usage_codebuddy_replay_is_idempotent_zero_new_imports() {
    let trace = make_trace(
        "trace_idempotent",
        "sess-idem",
        &["hy3"],
        CB_STARTED,
        &[("generation", "ok", TOOL_INPUT_EXACT, CB_OUTPUT)],
    );
    let mut store = UsageStore::new();
    let (first, one) = sync_dir(&mut store, TraceProgram::CodeBuddy, &[trace.clone()]);
    assert_eq!(first.imported, 1);
    assert_eq!(first.skipped, 0);

    let (second, two) = sync_dir(&mut store, TraceProgram::CodeBuddy, &[trace]);
    assert_eq!(second.imported, 0);
    assert_eq!(second.skipped, 1);
    assert_eq!(second.files_scanned, 1);
    assert_eq!(one[0].rows.len() + two[0].rows.len(), 1);
}

#[test]
fn session_usage_codebuddy_spans_without_usage_or_running_are_skipped_not_imported() {
    let tool_output_running = r#"[{"id":"resp_running","choices":[]}]"#;
    let trace = make_trace(
        "trace_skip_test",
        "sess-skip",
        &["hy3"],
        CB_STARTED,
        &[
            ("execution", "ok", "{}", "{}"),
            ("generation", "running", TOOL_INPUT_EXACT, tool_output_running),
            ("generation", "ok", TOOL_INPUT_EXACT, "not json at all"),
            ("generation", "ok", TOOL_INPUT_EXACT, CB_OUTPUT),
        ],
    );
    let mut store = UsageStore::new();
    let (result, outcomes) = sync_dir(&mut store, TraceProgram::CodeBuddy, &[trace]);
    assert_eq!(result.imported, 1);
    assert_eq!(result.skipped, 2);
    assert_eq!(outcomes[0].rows.len(), 1);
}

#[test]
fn model_extraction_prioritizes_exact_model_and_rejects_the() {
    let input_a = "{\"prompt\":\"<codebuddy_background_info>\\nThe exact model ID is deepseek-v4-pro.\\n</codebuddy_background_info>\"}";
    let traces = vec![
        make_trace(
            "trace_exact_dot",
            "sess-a",
            &["fallback-model"],
            CB_STARTED,
            &[("generation", "ok", input_a, CB_OUTPUT)],
        ),
        make_trace(
            "trace_powered_the",
            "sess-b",
            &["glm-5.1"],
            CB_STARTED,
            &[("generation", "ok", TOOL_INPUT_POWERED_THE, CB_OUTPUT)],
        ),
        make_trace(
            "trace_powered_valid",
            "sess-c",
            &["fallback-model"],
            CB_STARTED,
            &[("generation", "ok", TOOL_INPUT_POWERED_VALID, CB_OUTPUT)],
        ),
        make_trace(
            "trace_powered_the_unknown",
            "sess-d",
            &[],
            CB_STARTED,
            &[("generation", "ok", TOOL_INPUT_POWERED_THE, CB_OUTPUT)],
        ),
    ];
    let mut store = UsageStore::new();
    let (result, outcomes) = sync_dir(&mut store, TraceProgram::CodeBuddy, &traces);
    assert_eq!(result.imported, 4);
    for out in &outcomes {
        assert_ne!(out.rows[0].model, "the");
        assert_ne!(out.rows[0].model, "The");
    }
    assert_eq!(outcomes[0].rows[0].request_id, "codebuddy:trace_exact_dot:span_0000");
    assert_eq!(outcomes[0].rows[0].model, "deepseek-v4-pro");
    assert_eq!(outcomes[1].rows[0].request_id, "codebuddy:trace_powered_the:span_0000");
    assert_eq!(outcomes[1].rows[0].model, "glm-5.1");
    assert_eq!(outcomes[2].rows[0].request_id, "codebuddy:trace_powered_valid:span_0000");
    assert_eq!(outcomes[2].rows[0].model, "deepseek-v4-flash");
    assert_eq!(outcomes[3].rows[0].request_id, "codebuddy:trace_powered_the_unknown:span_0000");
    assert_eq!(outcomes[3].rows[0].model, "unknown");
}

#[test]
fn session_usage_codebuddy_oversized_trace_file_is_deferred_without_crashing() {
    let mut store = UsageStore::new();
    let size: u64 = 33 * 1024 * 1024;
    let error = sync_single_trace_file(&mut store, TraceProgram::CodeBuddy, size, "").unwrap_err();
    let result = sync_codebuddy_traces_dir(Some(vec![FileOutcome {
        path: "/traces/oversized/trace_oversized.json".to_string(),
        result: Err(error),
    }]));
    assert_eq!(result.imported, 0);
    assert_eq!(result.files_scanned, 1);
    assert_eq!(result.deferred_files, 1);
    assert_eq!(result.errors.len(), 1);
    assert!(result.errors[0].contains("超过 32MB"));
    assert_eq!(
        result.errors[0],
        "/traces/oversized/trace_oversized.json: trace 文件超过 32MB (34603008 bytes)，跳过"
    );
}

#[test]
fn session_usage_codebuddy_missing_traces_dir_reports_zero_files_without_error() {
    let result = sync_codebuddy_traces_dir(None);
    assert_eq!(result.files_scanned, 0);
    assert_eq!(result.imported, 0);
    assert_eq!(result.skipped, 0);
    assert!(result.errors.is_empty());
}

#[test]
fn session_usage_codebuddy_empty_traces_dir_yields_zero_files_without_error() {
    let result = sync_codebuddy_traces_dir(Some(vec![]));
    assert_eq!(result.files_scanned, 0);
    assert_eq!(result.imported, 0);
    assert_eq!(result.skipped, 0);
    assert!(result.errors.is_empty());
}

// ---------------------------------------------------------------------------
// WorkBuddy
// ---------------------------------------------------------------------------

#[test]
fn session_usage_workbuddy_imports_generation_span_with_usage_per_column_assertions() {
    let trace = make_trace(
        "trace_abc123",
        "sess-aaa",
        &["deepseek-v4-flash"],
        WB_STARTED,
        &[("generation", "ok", TOOL_INPUT_POWERED, WB_OUTPUT)],
    );
    let mut store = UsageStore::new();
    let (result, outcomes) = sync_dir(&mut store, TraceProgram::WorkBuddy, &[trace]);
    assert_eq!(result.imported, 1);
    assert_eq!(result.files_scanned, 1);
    assert!(result.errors.is_empty());

    let row = &outcomes[0].rows[0];
    assert_eq!(row.request_id, "workbuddy:trace_abc123:span_0000");
    assert_eq!(row.provider_id, "_workbuddy_session");
    assert_eq!(row.app_type, "workbuddy");
    assert_eq!(row.model, "Deepseek-V4-Flash");
    assert_eq!(row.request_model, "Deepseek-V4-Flash");
    assert_eq!(
        (row.input_tokens, row.output_tokens, row.cache_read_tokens, row.cache_creation_tokens),
        (15874, 101, 10368, 0)
    );
    assert_eq!(row.input_token_semantics, InputTokenSemantics::Total);
    assert_eq!(row.status_code, 200);
    assert_eq!(row.session_id, "sess-aaa");
    assert_eq!(row.data_source, "workbuddy_session");
    assert_eq!(row.created_at, 1785965984);
    assert!(store.has_seen("workbuddy:trace_abc123:span_0000"));
}

#[test]
fn session_usage_workbuddy_replay_is_idempotent_zero_new_imports() {
    let trace = make_trace(
        "trace_replay",
        "sess-replay",
        &["deepseek-v4-flash"],
        WB_STARTED,
        &[
            ("generation", "ok", TOOL_INPUT_POWERED, WB_OUTPUT),
            ("generation", "ok", TOOL_INPUT_POWERED, WB_OUTPUT),
        ],
    );
    let mut store = UsageStore::new();
    let (first, one) = sync_dir(&mut store, TraceProgram::WorkBuddy, &[trace.clone()]);
    assert_eq!((first.imported, first.skipped), (2, 0));
    let (second, two) = sync_dir(&mut store, TraceProgram::WorkBuddy, &[trace]);
    assert_eq!((second.imported, second.skipped), (0, 2));
    assert_eq!(one[0].rows.len() + two[0].rows.len(), 2);
}

#[test]
fn session_usage_workbuddy_spans_without_usage_or_running_are_skipped_not_imported() {
    let tool_output_no_usage = r#"[{"id":"resp","choices":[],"object":"chat.completion"}]"#;
    let trace = make_trace(
        "trace_skip",
        "sess-skip",
        &["deepseek-v4-flash"],
        WB_STARTED,
        &[
            ("generation", "ok", TOOL_INPUT_POWERED, tool_output_no_usage),
            ("generation", "running", TOOL_INPUT_POWERED, ""),
            ("mcp_tools", "ok", "", ""),
            ("generation", "ok", TOOL_INPUT_POWERED, WB_OUTPUT),
        ],
    );
    let mut store = UsageStore::new();
    let (result, outcomes) = sync_dir(&mut store, TraceProgram::WorkBuddy, &[trace]);
    assert_eq!((result.imported, result.skipped), (1, 2));
    assert!(result.errors.is_empty());
    assert_eq!(outcomes[0].rows.len(), 1);
}

#[test]
fn session_usage_workbuddy_oversized_trace_file_is_deferred_without_crashing() {
    let mut store = UsageStore::new();
    let trace = make_trace(
        "trace_big",
        "sess-big",
        &["deepseek-v4-flash"],
        WB_STARTED,
        &[("generation", "ok", TOOL_INPUT_POWERED, WB_OUTPUT)],
    );
    let size = MAX_TRACE_FILE_BYTES + 1;
    let error =
        sync_single_trace_file(&mut store, TraceProgram::WorkBuddy, size, &trace).unwrap_err();
    let result = sync_workbuddy_traces_dir(Some(vec![FileOutcome {
        path: "/traces/big-dir/trace_big.json".to_string(),
        result: Err(error),
    }]));
    assert_eq!(result.files_scanned, 1);
    assert_eq!(result.deferred_files, 1);
    assert_eq!(result.imported, 0);
    assert_eq!(result.errors.len(), 1);
}

#[test]
fn model_extraction_failure_falls_to_unknown() {
    let tool_input_no_powered = r#"[{"content":"Just a regular prompt"}]"#;
    let trace = make_trace(
        "trace_unknown",
        "sess-unknown",
        &[],
        WB_STARTED,
        &[("generation", "ok", tool_input_no_powered, WB_OUTPUT)],
    );
    let mut store = UsageStore::new();
    let out = import(&mut store, TraceProgram::WorkBuddy, &trace);
    assert_eq!(out.imported, 1);
    assert_eq!(out.rows[0].request_id, "workbuddy:trace_unknown:span_0000");
    assert_eq!(out.rows[0].model, "unknown");
}

#[test]
fn multiple_files_multiple_spans_all_imported() {
    let traces = vec![
        make_trace(
            "trace_multi_1",
            "sess-multi-1",
            &["deepseek-v4-flash"],
            WB_STARTED,
            &[
                ("generation", "ok", TOOL_INPUT_POWERED, WB_OUTPUT),
                ("generation", "ok", TOOL_INPUT_POWERED, WB_OUTPUT),
            ],
        ),
        make_trace(
            "trace_multi_2",
            "sess-multi-2",
            &["deepseek-v4-flash"],
            WB_STARTED,
            &[
                ("cli", "ok", "", ""),
                ("generation", "ok", TOOL_INPUT_POWERED, WB_OUTPUT),
            ],
        ),
    ];
    let mut store = UsageStore::new();
    let (result, outcomes) = sync_dir(&mut store, TraceProgram::WorkBuddy, &traces);
    assert_eq!(result.imported, 3);
    assert_eq!(result.files_scanned, 2);
    assert!(result.errors.is_empty());
    assert_eq!(outcomes[0].rows.len() + outcomes[1].rows.len(), 3);
}

#[test]
fn model_falls_back_to_model_info_when_no_powered_by() {
    let tool_input_no_powered = r#"[{"content":"Just a regular prompt"}]"#;
    let trace = make_trace(
        "trace_fallback",
        "sess-fallback",
        &["deepseek-v4-pro-external"],
        WB_STARTED,
        &[("generation", "ok", tool_input_no_powered, WB_OUTPUT)],
    );
    let mut store = UsageStore::new();
    let out = import(&mut store, TraceProgram::WorkBuddy, &trace);
    assert_eq!(out.imported, 1);
    assert_eq!(out.rows[0].request_id, "workbuddy:trace_fallback:span_0000");
    assert_eq!(out.rows[0].model, "deepseek-v4-pro-external");
}

#[test]
fn session_usage_workbuddy_missing_traces_dir_reports_zero_files_without_error() {
    let result = sync_workbuddy_traces_dir(None);
    assert_eq!(result.files_scanned, 0);
    assert_eq!(result.imported, 0);
    assert!(result.errors.is_empty());
    assert_eq!(result.deferred_files, 0);
}

#[test]
fn session_usage_workbuddy_empty_traces_dir_yields_zero_files_without_error() {
    let result = sync_workbuddy_usage(Some(vec![]));
    assert_eq!(result.files_scanned, 0);
    assert_eq!(result.imported, 0);
    assert!(result.errors.is_empty());
}

#[test]
fn reverse_validation_usage_deleted_span_skipped_import_zero() {
    let tool_output_no_usage = r#"[{"id":"resp","model":"deepseek-v4-flash","choices":[],"object":"chat.completion"}]"#;
    let trace = make_trace(
        "trace_no_usage",
        "sess-no-usage",
        &["deepseek-v4-flash"],
        WB_STARTED,
        &[("generation", "ok", TOOL_INPUT_POWERED, tool_output_no_usage)],
    );
    let mut store = UsageStore::new();
    let (result, outcomes) = sync_dir(&mut store, TraceProgram::WorkBuddy, &[trace]);
    assert_eq!(result.imported, 0);
    assert_eq!(result.skipped, 1);
    assert!(result.errors.is_empty());
    assert_eq!(outcomes[0].rows.len(), 0);
}

// ---------------------------------------------------------------------------
// Both
// ---------------------------------------------------------------------------

#[test]
fn running_spans_are_skipped_even_with_usage() {
    let trace = make_trace(
        "t",
        "s",
        &["hy3"],
        CB_STARTED,
        &[
            ("generation", "running", TOOL_INPUT_EXACT, CB_OUTPUT),
            ("generation", "ok", TOOL_INPUT_EXACT, CB_OUTPUT),
        ],
    );
    let mut store = UsageStore::new();
    let out = import(&mut store, TraceProgram::CodeBuddy, &trace);
    assert_eq!((out.imported, out.skipped), (1, 1));
    assert_eq!(out.rows[0].request_id, "codebuddy:t:span_0001");
}

#[test]
fn traces_that_are_no_documents_are_errors() {
    let mut store = UsageStore::new();
    let error =
        sync_single_trace_file(&mut store, TraceProgram::CodeBuddy, 3, "{ x").unwrap_err();
    assert!(error.starts_with("解析 trace JSON 失败: "));
    assert!(error.len() > "解析 trace JSON 失败: ".len());
}

#[test]
fn the_first_usage_object_counts() {
    let nested = r#"{"a":{"usage":{"prompt_tokens":3,"completion_tokens":4}},"b":{"prompt_tokens":9}}"#;
    let usage = extract_usage_from_tool_output(nested).unwrap();
    assert_eq!((usage.prompt_tokens, usage.completion_tokens), (3, 4));
    assert_eq!((usage.cached_tokens, usage.cache_write_tokens), (0, 0));
    assert!(extract_usage_from_tool_output("").is_none());
    assert!(extract_usage_from_tool_output("[]").is_none());
    assert!(extract_usage_from_tool_output("{\"prompt_tokens\":\"3\"}").is_none());
}

#[test]
fn model_names_are_cleaned() {
    assert_eq!(clean_model_name("custom-local:glm-5.3."), Some("glm-5.3".to_string()));
    assert_eq!(clean_model_name("The"), None);
    assert_eq!(clean_model_name("..."), None);
    let models = vec!["third".to_string()];
    let exact = choose_model(Some("first.".to_string()), Some("second".to_string()), &models);
    assert_eq!(exact, "first");
    assert_eq!(choose_model(None, Some("the".to_string()), &models), "third");
    assert_eq!(choose_model(None, None, &vec![]), "unknown");
}

#[test]
fn trace_files_are_told_by_their_names() {
    assert!(is_trace_file_name("trace_abc.json"));
    assert!(!is_trace_file_name("trace_abc.txt"));
    assert!(!is_trace_file_name("my_trace_abc.json"));
}

#[test]
fn results_of_traces_and_logs_add_up() {
    let traces = vec![FileOutcome { path: "/t".to_string(), result: Ok(counts_only(1, 2)) }];
    let logs = vec![
        FileOutcome { path: "/l".to_string(), result: Ok(counts_only(10, 20)) },
        FileOutcome { path: "/m".to_string(), result: Err("x".to_string()) },
    ];
    let result = sync_codebuddy_usage(Some(traces), Some(logs));
    assert_eq!((result.imported, result.skipped), (11, 22));
    assert_eq!((result.files_scanned, result.deferred_files), (3, 1));
    assert_eq!(result.errors, vec!["/m: x".to_string()]);
}

#[test]
fn traces_stand_one_directory_down() {
    let found = |path: &str, stem: Option<&str>, extension: Option<&str>, depth: usize| FoundFile {
        path: path.to_string(),
        extension: extension.map(str::to_string),
        stem: stem.map(str::to_string),
        parent: Some("d".to_string()),
        depth,
    };
    let files = vec![
        found("/t/d-e/trace_1.json", Some("trace_1"), Some("json"), 1),
        found("/t/d/trace_2.json", Some("trace_2"), Some("json"), 1),
        found("/t/d/trace_.json", Some("trace_"), Some("json"), 1),
        found("/t/d/trace_3.JSON", Some("trace_3"), Some("JSON"), 1),
        found("/t/d/Trace_4.json", Some("Trace_4"), Some("json"), 1),
        found("/t/d/trace_5.json.bak", Some("trace_5.json"), Some("bak"), 1),
        found("/t/d/trace_6", Some("trace_6"), None, 1),
        found("/t/d/x.json", None, Some("json"), 1),
        found("/t/trace_7.json", Some("trace_7"), Some("json"), 0),
        found("/t/d/e/trace_8.json", Some("trace_8"), Some("json"), 2),
    ];
    assert_eq!(
        collect_trace_files(&files),
        vec!["/t/d/trace_.json", "/t/d/trace_2.json", "/t/d-e/trace_1.json"]
    );
    assert!(FileKind::Trace.enters_dir(1) && !FileKind::Trace.enters_dir(2));
}
