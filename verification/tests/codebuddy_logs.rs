//! Logs of the CodeBuddy IDE.

use session_usage::codebuddy_logs::{
    import_log_lines, line_times, needed_message_of, parse_log_lines, read_line, read_line_usage,
    read_step, sync_codebuddy_cn_logs_dir, sync_codebuddy_usage,
    sync_single_codebuddy_cn_log_file, LogState, StepMatches, StepUsage,
};
use session_usage::estimate::{count_content_chars, extract_output_tokens_from_message_file};
use session_usage::json::parse_json;
use session_usage::maps::TextMap;
use session_usage::traces::{sync_single_trace_file, TraceProgram};
use session_usage::usage::{
    counts_only, FileOutcome, ImportOutcome, InputTokenSemantics, SessionSyncResult, UsageStore,
};
use session_usage::walks::{
    build_codebuddy_messages_index, collect_codebuddy_cn_log_files, FileKind, FoundFile,
};

fn lines_of(content: &str) -> Vec<String> {
    content.lines().map(|l| l.to_string()).collect()
}

fn sync_log(
    store: &mut UsageStore,
    content: &str,
    messages: &TextMap,
) -> (SessionSyncResult, ImportOutcome) {
    let out = sync_single_codebuddy_cn_log_file(
        store,
        content.len() as u64,
        &lines_of(content),
        messages,
    )
    .expect("import log");
    let result = sync_codebuddy_cn_logs_dir(Some(vec![FileOutcome {
        path: "/logs/x.log".to_string(),
        result: Ok(counts_only(out.imported, out.skipped)),
    }]));
    (result, out)
}

#[test]
fn codebuddy_cn_logs_imported_with_per_column_assertions() {
    let log_content = "\
[2026/9/14 14:16:25.216] [Info] [CraftInvokableAgent] [a98608e347b92d426390511bd3644fee]  Preparing model: glm-5.3 (custom-local:glm-5.3)
[2026/9/14 14:16:25.236] [Info] [AgentReporter] conversationId: conv_cb_cn_1, requestId: req_cb_cn_1, traceId: a98608e347b92d426390511bd3644fee
[2026/9/14 14:16:48.699] [Info] [BaseAgent:craft] [req_cb_cn_1]  notifyStepEnd, step: 1, requestId: req_cb_cn_1, messageId: msg_cb_cn_1, usage: {\"inputTokens\":9741,\"outputTokens\":120,\"totalTokens\":9861,\"cacheTokens\":256,\"cachedWriteTokens\":500,\"cachedMissTokens\":0,\"lastTokens\":9741,\"credit\":0,\"thinkingTokens\":0}, isMaxTokenLimit: false, isMaxStepLimit: false
";
    let mut store = UsageStore::new();
    let (result, out) = sync_log(&mut store, log_content, &TextMap::new());
    assert_eq!(result.imported, 1);
    assert_eq!(result.files_scanned, 1);
    assert_eq!(result.skipped, 0);
    assert!(result.errors.is_empty());

    let row = &out.rows[0];
    assert_eq!(row.request_id, "codebuddy:a98608e347b92d426390511bd3644fee:msg_cb_cn_1");
    assert_eq!(row.provider_id, "_codebuddy_session");
    assert_eq!(row.app_type, "codebuddy");
    assert_eq!(row.model, "glm-5.3");
    assert_eq!(row.request_model, "glm-5.3");
    assert_eq!(row.pricing_model, "glm-5.3");
    assert_eq!(row.input_tokens, 9741);
    assert_eq!(row.output_tokens, 120);
    assert_eq!(row.cache_read_tokens, 256);
    assert_eq!(row.cache_creation_tokens, 500);
    assert_eq!(row.input_token_semantics, InputTokenSemantics::Total);
    assert_eq!(row.status_code, 200);
    assert_eq!(row.session_id, "conv_cb_cn_1");
    assert_eq!(row.data_source, "codebuddy_session");
    assert!(row.created_at > 0);
    assert!(store.has_seen("codebuddy:a98608e347b92d426390511bd3644fee:msg_cb_cn_1"));
}

#[test]
fn codebuddy_cn_model_transition_and_anti_the() {
    let log_content = "\
[2026/9/14 14:16:25.216] [Info] [CraftInvokableAgent] [tr_1]  Preparing model: glm-5.3 (custom-local:glm-5.3)
[2026/9/14 14:16:25.236] [Info] [AgentReporter] conversationId: conv_1, requestId: req_1, traceId: tr_1
[2026/9/14 14:16:48.699] [Info] [BaseAgent:craft] [req_1]  notifyStepEnd, step: 1, requestId: req_1, messageId: msg_1, usage: {\"inputTokens\":1000,\"outputTokens\":100,\"totalTokens\":1100,\"cacheTokens\":0}
[2026/9/14 14:20:00.000] [Info] [CraftInvokableAgent] [tr_2]  Preparing model: the
[2026/9/14 14:20:05.000] [Info] [AgentReporter] conversationId: conv_2, requestId: req_2, traceId: tr_2
[2026/9/14 14:20:10.000] [Info] [BaseAgent:craft] [req_2]  notifyStepEnd, step: 1, requestId: req_2, messageId: msg_2, usage: {\"inputTokens\":2000,\"outputTokens\":200,\"totalTokens\":2200,\"cacheTokens\":0}
[2026/9/14 14:25:00.000] [Info] [CraftInvokableAgent] [tr_3]  Preparing model: Deepseek-V4.1-Flash (custom-local:Deepseek-V4.1-Flash)
[2026/9/14 14:25:05.000] [Info] [AgentReporter] conversationId: conv_3, requestId: req_3, traceId: tr_3
[2026/9/14 14:25:10.000] [Info] [BaseAgent:craft] [req_3]  notifyStepEnd, step: 1, requestId: req_3, messageId: msg_3, usage: {\"inputTokens\":3000,\"outputTokens\":300,\"totalTokens\":3300,\"cacheTokens\":0}
";
    let mut store = UsageStore::new();
    let (result, out) = sync_log(&mut store, log_content, &TextMap::new());
    assert_eq!(result.imported, 3);
    assert_eq!(result.skipped, 0);
    for row in &out.rows {
        assert_ne!(row.model, "the");
    }
    assert_eq!(out.rows[0].request_id, "codebuddy:tr_1:msg_1");
    assert_eq!(out.rows[0].model, "glm-5.3");
    assert_eq!(out.rows[1].request_id, "codebuddy:tr_2:msg_2");
    assert_eq!(out.rows[1].model, "glm-5.3");
    assert_eq!(out.rows[2].request_id, "codebuddy:tr_3:msg_3");
    assert_eq!(out.rows[2].model, "Deepseek-V4.1-Flash");
}

#[test]
fn codebuddy_cn_replay_is_idempotent() {
    let log_content = "\
[2026/9/14 14:16:25.216] [Info] [CraftInvokableAgent] [tr_idem]  Preparing model: qwen3.8-max
[2026/9/14 14:16:25.236] [Info] [AgentReporter] conversationId: conv_idem, requestId: req_idem, traceId: tr_idem
[2026/9/14 14:16:48.699] [Info] [BaseAgent:craft] [req_idem]  notifyStepEnd, step: 1, requestId: req_idem, messageId: msg_idem, usage: {\"inputTokens\":500,\"outputTokens\":50,\"totalTokens\":550,\"cacheTokens\":0}
";
    let mut store = UsageStore::new();
    let (first, one) = sync_log(&mut store, log_content, &TextMap::new());
    assert_eq!(first.imported, 1);
    assert_eq!(first.skipped, 0);
    let (second, two) = sync_log(&mut store, log_content, &TextMap::new());
    assert_eq!(second.imported, 0);
    assert_eq!(second.skipped, 1);
    assert_eq!(one.rows.len() + two.rows.len(), 1);
}

#[test]
fn codebuddy_cn_corrupted_lines_skipped_gracefully() {
    let log_content = "\
[2026/9/14 14:16:25.216] [Info] [CraftInvokableAgent] [tr_c]  Preparing model: step-3.7-flash
[2026/9/14 14:16:25.236] [Info] [AgentReporter] conversationId: conv_c, requestId: req_c, traceId: tr_c
[2026/9/14 14:16:30.000] [Info] [BaseAgent:craft] [req_c]  notifyStepEnd, step: 1, requestId: req_c, messageId: msg_bad_json, usage: NOT_JSON
[2026/9/14 14:16:35.000] [Info] [BaseAgent:craft] [req_c]  notifyStepEnd, step: 2, requestId: req_c, messageId: msg_zero_tokens, usage: {\"inputTokens\":0,\"outputTokens\":0,\"totalTokens\":0,\"cacheTokens\":0}
[2026/9/14 14:16:40.000] [Info] [BaseAgent:craft] [req_c]  notifyStepEnd, step: 3, requestId: req_c, messageId: msg_valid, usage: {\"inputTokens\":1234,\"outputTokens\":56,\"totalTokens\":1290,\"cacheTokens\":0}
";
    let mut store = UsageStore::new();
    let (result, out) = sync_log(&mut store, log_content, &TextMap::new());
    assert_eq!(result.imported, 1);
    assert_eq!(result.skipped, 2);
    assert!(result.errors.is_empty());
    assert_eq!(out.rows[0].request_id, "codebuddy:tr_c:msg_valid");
}

#[test]
fn sync_codebuddy_usage_merges_traces_and_cn_logs() {
    let trace = "{\"trace\":{\"traceId\":\"trace_legacy_merge\",\"sessionId\":\"sess_legacy\",\"modelInfo\":{\"models\":[\"hy3\"]}},\"spans\":[{\"spanId\":\"span_0000\",\"name\":\"generation\",\"status\":\"ok\",\"startedAt\":\"2026-08-07T09:32:41.930Z\",\"toolInput\":\"The exact model ID is hy3.\",\"toolOutput\":\"{\\\"usage\\\":{\\\"prompt_tokens\\\":15874,\\\"completion_tokens\\\":101}}\"}]}";
    let log_content = "\
[2026/9/14 14:16:25.216] [Info] [CraftInvokableAgent] [tr_cn_merged]  Preparing model: glm-5.3
[2026/9/14 14:16:25.236] [Info] [AgentReporter] conversationId: conv_cn, requestId: req_cn, traceId: tr_cn_merged
[2026/9/14 14:16:48.699] [Info] [BaseAgent:craft] [req_cn]  notifyStepEnd, step: 1, requestId: req_cn, messageId: msg_cn, usage: {\"inputTokens\":8888,\"outputTokens\":88,\"totalTokens\":8976,\"cacheTokens\":0}
";
    let mut store = UsageStore::new();
    let legacy =
        sync_single_trace_file(&mut store, TraceProgram::CodeBuddy, trace.len() as u64, trace)
            .unwrap();
    let (_, cn) = sync_log(&mut store, log_content, &TextMap::new());
    let result = sync_codebuddy_usage(
        Some(vec![FileOutcome {
            path: "/t".to_string(),
            result: Ok(counts_only(legacy.imported, legacy.skipped)),
        }]),
        Some(vec![FileOutcome {
            path: "/l".to_string(),
            result: Ok(counts_only(cn.imported, cn.skipped)),
        }]),
    );
    assert_eq!(result.imported, 2);
    assert_eq!(result.files_scanned, 2);
    assert!(result.errors.is_empty());

    assert_eq!(cn.rows[0].request_id, "codebuddy:tr_cn_merged:msg_cn");
    assert_eq!(cn.rows[0].model, "glm-5.3");
    assert_eq!(cn.rows[0].input_tokens, 8888);
    assert_eq!(legacy.rows[0].request_id, "codebuddy:trace_legacy_merge:span_0000");
    assert_eq!(legacy.rows[0].model, "hy3");
    assert_eq!(legacy.rows[0].input_tokens, 15874);
}

#[test]
fn codebuddy_cn_output_tokens_recovered_from_message_file() {
    let sample_text = "这是一段用于测试输出Token智能补齐的中文回复文本。".repeat(9);
    let inner = format!(
        "{{\"role\":\"assistant\",\"content\":[{{\"type\":\"reasoning\",\"text\":\"{sample_text}\"}}]}}"
    );
    let file = format!(
        "{{\"role\":\"assistant\",\"message\":{}}}",
        serde_json::Value::from(inner.as_str())
    );
    let log_content = "
[2026/9/15 15:38:17.382] [Info] [ModelManager]  OpenAI Compatible ModelProvider initialized for custom model, modelId: custom-local:glm-5.3, modelName: glm-5.3
[2026/9/15 15:40:03.288] [Info] [BaseAgent:craft] [req_test]  notifyStepEnd, step: 1, requestId: req_test, messageId: msg_zero_out, usage: {\"inputTokens\":5000,\"outputTokens\":0,\"totalTokens\":5000,\"cacheTokens\":0}
";
    let mut messages = TextMap::new();
    messages.insert("msg_zero_out".to_string(), file);
    let mut store = UsageStore::new();
    let (result, out) = sync_log(&mut store, log_content, &messages);
    assert_eq!(result.imported, 1);
    assert_eq!(out.rows[0].request_id, "codebuddy:req_test:msg_zero_out");
    assert_eq!(out.rows[0].input_tokens, 5000);
    assert!(out.rows[0].output_tokens > 0);
    let chars = sample_text.chars().count() as f64;
    assert_eq!(out.rows[0].output_tokens, (chars / 1.8).round() as i64);
    assert_eq!(out.rows[0].model, "glm-5.3");
}

// ---------------------------------------------------------------------------
// The parts of a log
// ---------------------------------------------------------------------------

#[test]
fn lines_say_what_they_name() {
    let m = read_line("x requestId=r-1, conversationId=c-1 y");
    assert_eq!(m.chunk, Some(("r-1".to_string(), "c-1".to_string())));
    assert_eq!(m.report, None);
    let m = read_line("[AgentReporter] [t-9] conversationId: c, requestId: r, traceId: t");
    assert_eq!(m.report, Some(("c".to_string(), "r".to_string(), "t".to_string())));
    assert_eq!(m.bracket_trace, Some("t-9".to_string()));
    assert_eq!(m.chunk, None);
    let m = read_line("Model prepared: abc, modelId: def");
    assert_eq!(m.prepared, Some("abc".to_string()));
    assert_eq!(m.model_id, Some("def".to_string()));
}

#[test]
fn steps_say_what_they_are() {
    let m = read_step("[BaseAgent:craft] [b-1] notifyStepEnd, step: 12, messageId: m");
    assert_eq!(m.number, Some("12".to_string()));
    assert_eq!(m.request, "");
    assert_eq!(m.message, "m");
    assert_eq!(m.bracket, "b-1");
}

#[test]
fn usage_stands_in_braces() {
    let usage = read_line_usage("usage: {\"inputTokens\":1,\"cachedTokens\":2,\"cacheWriteTokens\":3}");
    assert_eq!(
        usage,
        Some(StepUsage {
            input_tokens: 1,
            output_tokens: 0,
            cache_read_tokens: 2,
            cache_creation_tokens: 3,
            total_tokens: 0,
        })
    );
    assert_eq!(read_line_usage("usage: {\"inputTokens\":1"), None);
    assert_eq!(read_line_usage("{\"inputTokens\":1}"), None);
    assert_eq!(read_line_usage("usage: none"), None);
}

fn step(number: Option<&str>, request: &str, message: &str, bracket: &str) -> StepMatches {
    StepMatches {
        number: number.map(|n| n.to_string()),
        request: request.to_string(),
        message: message.to_string(),
        bracket: bracket.to_string(),
    }
}

const SOME_USAGE: StepUsage = StepUsage {
    input_tokens: 1,
    output_tokens: 1,
    cache_read_tokens: 0,
    cache_creation_tokens: 0,
    total_tokens: 0,
};

#[test]
fn steps_fall_back_to_what_is_known() {
    let none = TextMap::new();
    let mut log = LogState::new();
    let m = step(Some("3"), "r", "", "b");
    let record = log.take_step(&m, Some(SOME_USAGE), &none, Some(5)).unwrap();
    assert_eq!(record.request_id, "codebuddy:b:step_3");
    assert_eq!(record.session_id, "b");
    assert_eq!(record.model, "unknown");
    assert_eq!(record.created_at, 5);

    let m = step(None, "r", "", "");
    let record = log.take_step(&m, Some(SOME_USAGE), &none, None).unwrap();
    assert_eq!(record.request_id, "codebuddy:r:step_1");
    assert_eq!(record.created_at, 0);

    log.take_line(&read_line("modelId: m1 conversationId: c, requestId: r, traceId: t"));
    log.take_line(&read_line("modelId: m2 [AgentReporter] [t2] requestId=q, conversationId=c2"));
    let record = log.take_step(&step(None, "r", "x", ""), Some(SOME_USAGE), &none, None).unwrap();
    assert_eq!(record.request_id, "codebuddy:t:x");
    assert_eq!(record.session_id, "c");
    assert_eq!(record.model, "m1");
    let record = log.take_step(&step(None, "z", "x", ""), Some(SOME_USAGE), &none, None).unwrap();
    assert_eq!(record.request_id, "codebuddy:t2:x");
    assert_eq!(record.session_id, "c2");
    assert_eq!(record.model, "m2");
}

#[test]
fn steps_that_used_nothing_are_skipped() {
    let none = TextMap::new();
    let log = LogState::new();
    let m = step(None, "r", "x", "");
    let zero = StepUsage { input_tokens: 0, output_tokens: 0, ..SOME_USAGE };
    assert!(log.take_step(&m, Some(zero), &none, None).is_none());
    assert!(log.take_step(&m, None, &none, None).is_none());
    // A total alone is enough.
    let total = StepUsage { total_tokens: 9, ..zero };
    let record = log.take_step(&m, Some(total), &none, None).unwrap();
    assert_eq!((record.input_tokens, record.output_tokens), (0, 0));
}

#[test]
fn times_are_clamped() {
    let none = TextMap::new();
    let log = LogState::new();
    let m = step(None, "r", "x", "");
    let late = log.take_step(&m, Some(SOME_USAGE), &none, Some(i64::MAX)).unwrap();
    assert_eq!(late.created_at, 253_402_300_799);
    let early = log.take_step(&m, Some(SOME_USAGE), &none, Some(i64::MIN)).unwrap();
    assert_eq!(early.created_at, -62_167_219_200);
}

const STEP_LINE: &str = "[2026/9/14 14:16:48.699] notifyStepEnd, step: 1, requestId: r, messageId: m, usage: {\"inputTokens\":5}";

#[test]
fn given_times_give_the_records() {
    let lines = vec!["".to_string(), STEP_LINE.to_string(), "notifyStepEnd".to_string()];
    let times = vec![None, Some(77), None];
    let parsed = parse_log_lines(&lines, &times, &TextMap::new());
    assert_eq!(parsed.records.len(), 1);
    assert_eq!(parsed.records[0].created_at, 77);
    assert_eq!(parsed.skipped, 1);

    let mut store = UsageStore::new();
    let out = import_log_lines(&mut store, &lines, &times, &TextMap::new());
    assert_eq!((out.imported, out.skipped), (1, 1));
    // Another time zone imports nothing anew.
    let later = vec![None, Some(77 + 3600), None];
    let again = import_log_lines(&mut store, &lines, &later, &TextMap::new());
    assert_eq!((again.imported, again.skipped), (0, 2));
}

#[test]
fn the_times_of_steps_are_within_a_day_of_utc() {
    let times = line_times(&vec![STEP_LINE.to_string(), "[2026/9/14 14:16:48.699] x".to_string()]);
    let utc = 1_789_395_408;
    let time = times[0].unwrap();
    assert!((time - utc).abs() < 86_400);
    assert_eq!(times[1], None);
}

#[test]
fn only_steps_without_output_need_a_message() {
    assert_eq!(needed_message_of(STEP_LINE), Some("m".to_string()));
    let full = "notifyStepEnd, messageId: m, usage: {\"outputTokens\":5}";
    assert_eq!(needed_message_of(full), None);
    assert_eq!(needed_message_of("messageId: m, usage: {}"), None);
}

#[test]
fn large_logs_are_errors() {
    let mut store = UsageStore::new();
    let error = sync_single_codebuddy_cn_log_file(
        &mut store,
        33_554_433,
        &lines_of(STEP_LINE),
        &TextMap::new(),
    )
    .unwrap_err();
    assert_eq!(error, "CodeBuddy IDE 日志超过 32MB (33554433 bytes)，跳过");
    assert!(!store.has_seen("codebuddy:r:m"));
}

#[test]
fn message_files_give_their_tokens() {
    let direct = "{\"role\":\"assistant\",\"message\":{\"content\":\"123456789\"}}";
    assert_eq!(extract_output_tokens_from_message_file(direct), Some(5));
    let one = "{\"role\":\"assistant\",\"message\":{\"content\":\"a\"}}";
    assert_eq!(extract_output_tokens_from_message_file(one), Some(1));
    let user = "{\"role\":\"user\",\"message\":{\"content\":\"123456789\"}}";
    assert_eq!(extract_output_tokens_from_message_file(user), None);
    let empty = "{\"role\":\"assistant\",\"message\":{\"content\":[]}}";
    assert_eq!(extract_output_tokens_from_message_file(empty), None);
    assert_eq!(extract_output_tokens_from_message_file("no json"), None);
    let blocks = parse_json(
        "[\"ab\",{\"text\":\"c\",\"reasoning\":\"de\",\"thinking\":\"f\",\"content\":\"g\"},3]",
    )
    .unwrap();
    assert_eq!(count_content_chars(&blocks), 7);
}

// ---------------------------------------------------------------------------
// Files
// ---------------------------------------------------------------------------

fn found(path: &str, stem: &str, extension: &str, parent: &str, depth: usize) -> FoundFile {
    FoundFile {
        path: path.to_string(),
        extension: Some(extension.to_string()),
        stem: Some(stem.to_string()),
        parent: Some(parent.to_string()),
        depth,
    }
}

#[test]
fn logs_are_looked_for_four_levels_deep() {
    let files = vec![
        found("/b.LOG", "b", "LOG", "l", 4),
        found("/a.log", "a", "log", "l", 0),
        found("/c.log", "c", "log", "l", 5),
        found("/d.txt", "d", "txt", "l", 0),
    ];
    assert_eq!(collect_codebuddy_cn_log_files(&files), vec!["/a.log", "/b.LOG"]);
    assert!(FileKind::IdeLog.enters_dir(4));
    assert!(!FileKind::IdeLog.enters_dir(5));
    assert!(FileKind::Session.enters_dir(1000));
}

#[test]
fn messages_are_indexed_by_their_ids() {
    let files = vec![
        found("/x/messages/m1.json", "m1", "json", "messages", 3),
        found("/x/other/m2.json", "m2", "json", "other", 3),
        found("/y/messages/m1.JSON", "m1", "JSON", "messages", 9),
        found("/z/messages/m3.json", "m3", "json", "messages", 10),
    ];
    let index = build_codebuddy_messages_index(&files);
    assert_eq!(index.get("m1"), Some("/y/messages/m1.JSON"));
    assert_eq!(index.get("m2"), None);
    assert_eq!(index.get("m3"), None);
}
