//! Sessions of Qoder.

use session_usage::json::parse_json;
use session_usage::money::{cost_of_credits, credit_columns, Amount};
use session_usage::qoder::{
    known_id_of, parse_assistant_record, parse_qoder_file, record_with_id, sync_qoder_usage,
    sync_single_qoder_file, QoderSync,
};
use session_usage::session_files::{
    next_step, seconds_of_nanos, truncate_usage_label, FileState, FileStep, SessionProgram,
    MAX_SESSION_BYTES,
};
use session_usage::usage::{FileOutcome, InputTokenSemantics, SessionSyncResult, UsageStore};
use session_usage::walks::{collect_jsonl_files, FoundFile};

const MODIFIED: i64 = 1_790_000_000_000_000_000;

fn state(size: u64, modified: i64, last_modified: Option<i64>) -> FileState {
    FileState { is_regular: true, size, modified, last_modified }
}

fn sync_file(
    store: &mut UsageStore,
    modified: i64,
    last_modified: Option<i64>,
    content: &str,
) -> (SessionSyncResult, QoderSync) {
    let lines: Vec<String> = content.lines().map(|l| l.to_string()).collect();
    let f = state(content.len() as u64, modified, last_modified);
    let sync = sync_single_qoder_file(store, f, &lines).expect("sync session");
    let result = sync_qoder_usage(Some(vec![FileOutcome {
        path: "/p/s.jsonl".to_string(),
        result: Ok(SessionSyncResult {
            imported: sync.sync.result.imported,
            skipped: sync.sync.result.skipped,
            files_scanned: sync.sync.result.files_scanned,
            suspected_duplicates: sync.sync.result.suspected_duplicates,
            deferred_files: sync.sync.result.deferred_files,
            errors: vec![],
        }),
    }]));
    (result, sync)
}

#[test]
fn test_qoder_single_record_columns_and_credits_to_cost() {
    let line = r#"{"type":"assistant","uuid":"uuid-qoder-test-01","sessionId":"sess-alpha-001","timestamp":"2026-08-27T13:32:57.000Z","message":{"id":"chatcmpl-01","model":"qmodel_38max","usage":{"credits":5.176,"input_tokens":0,"output_tokens":0,"request_id":"req-qoder-01"},"content":[{"type":"text","text":"12345678901234567890123456789012345"}]}}"#;
    let mut store = UsageStore::new();
    let (result, sync) = sync_file(&mut store, MODIFIED, None, line);
    assert_eq!(result.imported, 1);
    assert_eq!(result.skipped, 0);
    assert_eq!(result.files_scanned, 1);

    let row = &sync.sync.outcome.rows[0];
    assert_eq!(row.request_id, "qoder:req-qoder-01");
    assert_eq!(row.provider_id, "_qoder_session");
    assert_eq!(row.app_type, "qoder");
    assert_eq!(row.model, "qmodel_38max");
    assert_eq!(row.input_tokens, 0);
    assert_eq!(row.output_tokens, 10);
    assert_eq!(sync.costs[0].total_cost_usd, "0.05176");
    assert_eq!(sync.costs[0].output_cost_usd, "0.05176");
    assert_eq!(sync.costs[0].input_cost_usd, "0");
    assert_eq!(row.session_id, "sess-alpha-001");
    assert_eq!(row.data_source, "qoder_session");
    assert_eq!(row.input_token_semantics, InputTokenSemantics::Fresh);
    assert_eq!(row.created_at, 1_787_837_577);
    assert_eq!(sync.sync.next_offset, Some(1));
}

#[test]
fn test_qoder_idempotent_second_sync_zero_imported() {
    let line = r#"{"type":"assistant","uuid":"u-1","sessionId":"s-1","message":{"model":"qmodel_38max","usage":{"credits":2.0,"request_id":"r-idemp-1"},"content":"hello world"}}"#;
    let mut store = UsageStore::new();
    let (r1, one) = sync_file(&mut store, MODIFIED, None, line);
    assert_eq!(r1.imported, 1);

    let (r2, two) = sync_file(&mut store, MODIFIED, Some(MODIFIED), line);
    assert_eq!(r2.imported, 0);
    assert_eq!(r2.skipped, 0);

    let touched = format!("{line}\n\n");
    let (r3, three) = sync_file(&mut store, MODIFIED + 20_000_000, Some(MODIFIED), &touched);
    assert_eq!(r3.imported, 0);
    assert_eq!(r3.skipped, 1);
    let rows = one.sync.outcome.rows.len()
        + two.sync.outcome.rows.len()
        + three.sync.outcome.rows.len();
    assert_eq!(rows, 1);
    assert_eq!(one.costs[0].total_cost_usd, "0.02");
}

#[test]
fn test_qoder_missing_directory_returns_gracefully() {
    let res = sync_qoder_usage(None);
    assert_eq!(res.files_scanned, 0);
    assert_eq!(res.imported, 0);
    assert_eq!(res.skipped, 0);
    assert!(res.errors.is_empty());
}

#[test]
fn test_qoder_skips_corrupted_lines_and_other_types() {
    let content = "\
{ not valid json }\n\
{\"type\":\"workspace-directories\",\"sessionId\":\"s-2\"}\n\
{\"type\":\"user\",\"message\":{\"content\":\"hi\"}}\n\
\n\
{\"type\":\"assistant\",\"uuid\":\"uuid-valid-1\",\"sessionId\":\"s-2\",\"message\":{\"model\":\"qmodel_test\",\"usage\":{\"credits\":1.5,\"request_id\":\"req-valid-1\"},\"content\":\"test answer\"}}\n\
{ broken tail json\n";
    let mut store = UsageStore::new();
    let (res, _) = sync_file(&mut store, MODIFIED, None, content);
    assert_eq!(res.imported, 1);
    assert_eq!(res.errors.len(), 0);
}

#[test]
fn test_qoder_defers_large_file_over_32mb() {
    let mut store = UsageStore::new();
    let f = state(MAX_SESSION_BYTES + 1024, MODIFIED, None);
    let sync = sync_single_qoder_file(&mut store, f, &vec![]).unwrap();
    assert_eq!(sync.sync.result.deferred_files, 1);
    assert_eq!(sync.sync.result.imported, 0);
    assert_eq!(sync.sync.next_offset, None);
}

#[test]
fn test_qoder_request_id_fallback_to_uuid() {
    let line = r#"{"type":"assistant","uuid":"unique-msg-uuid-999","sessionId":"sess-fallback","message":{"model":"qmodel_38max","usage":{"credits":0.5},"content":"ok"}}"#;
    let mut store = UsageStore::new();
    let (res, sync) = sync_file(&mut store, MODIFIED, None, line);
    assert_eq!(res.imported, 1);
    assert_eq!(sync.sync.outcome.rows[0].session_id, "sess-fallback");
    assert_eq!(sync.sync.outcome.rows[0].request_id, "qoder:unique-msg-uuid-999");
}

#[test]
fn test_qoder_subagents_directory_recursively_scanned() {
    let files = collect_jsonl_files(&vec![FoundFile {
        path: "/p/proj-main/sess-root/subagents/sub-01.jsonl".to_string(),
        extension: Some("jsonl".to_string()),
        stem: Some("sub-01".to_string()),
        parent: Some("subagents".to_string()),
        depth: 3,
    }]);
    assert_eq!(files, vec!["/p/proj-main/sess-root/subagents/sub-01.jsonl"]);
    let line = r#"{"type":"assistant","uuid":"subagent-uuid-01","sessionId":"sub-sess-01","message":{"model":"qmodel_38max","usage":{"credits":3.0,"request_id":"req-sub-01"},"content":"subagent completed"}}"#;
    let mut store = UsageStore::new();
    let (res, _) = sync_file(&mut store, MODIFIED, None, line);
    assert_eq!(res.files_scanned, 1);
    assert_eq!(res.imported, 1);
}

#[test]
fn test_qoder_complex_blocks_token_estimation() {
    let line = r#"{"type":"assistant","uuid":"uuid-blocks","sessionId":"sess-blocks","message":{"model":"qmodel_38max","usage":{"credits":4.2,"request_id":"req-blocks"},"content":[{"type":"thinking","thinking":"12345678901234567890123456789012345"},{"type":"text","text":"abcdefghijklmnopqrstuvwxyzABCDEFGHI"}]}}"#;
    let mut store = UsageStore::new();
    let (res, sync) = sync_file(&mut store, MODIFIED, None, line);
    assert_eq!(res.imported, 1);
    assert_eq!(sync.sync.outcome.rows[0].request_id, "qoder:req-blocks");
    assert_eq!(sync.sync.outcome.rows[0].output_tokens, 20);
    assert_eq!(sync.costs[0].total_cost_usd, "0.042");
}

// ---------------------------------------------------------------------------
// Messages
// ---------------------------------------------------------------------------

#[test]
fn messages_without_an_id_get_one_made_of_their_line() {
    let line = r#"{"type":"assistant","sessionId":"s","message":{"content":"hi"}}"#;
    let value = parse_json(line).unwrap();
    assert_eq!(known_id_of(&value), "");
    let first = parse_assistant_record(&value, 7, 3, line);
    let second = parse_assistant_record(&value, 8, 3, line);
    assert_eq!(first.request_id, second.request_id);
    let name = format!("s\n3\n{line}");
    let expected = uuid::Uuid::new_v5(&uuid::Uuid::NAMESPACE_OID, name.as_bytes());
    assert_eq!(first.request_id, format!("qoder:{expected}"));
    assert_ne!(parse_assistant_record(&value, 7, 4, line).request_id, first.request_id);
    let id = &first.request_id["qoder:".len()..];
    assert_eq!((id.len(), &id[14..15]), (36, "5"));
    assert!(id.chars().all(|c| c == '-' || c.is_ascii_digit() || ('a'..='f').contains(&c)));
    assert_eq!(record_with_id(&value, 7, "abc").request_id, "qoder:abc");
}

#[test]
fn messages_without_an_id_are_imported_once() {
    let content = r#"{"type":"assistant","message":{"content":"hi"}}
{"type":"assistant","message":{"content":"hi"}}"#;
    let mut store = UsageStore::new();
    let (first, _) = sync_file(&mut store, MODIFIED, None, content);
    assert_eq!((first.imported, first.skipped), (2, 0));
    let (second, _) = sync_file(&mut store, MODIFIED + 1, Some(MODIFIED), content);
    assert_eq!((second.imported, second.skipped), (0, 2));
}

#[test]
fn sessions_are_listed_in_ascending_order() {
    let found = |path: &str| FoundFile {
        path: path.to_string(),
        extension: Some("jsonl".to_string()),
        stem: Some("s".to_string()),
        parent: Some("p".to_string()),
        depth: 1,
    };
    let files = vec![found("/p/b/1.jsonl"), found("/p/a-b/1.jsonl"), found("/p/a/2.jsonl")];
    assert_eq!(collect_jsonl_files(&files), vec!["/p/a/2.jsonl", "/p/a-b/1.jsonl", "/p/b/1.jsonl"]);
}

#[test]
fn messages_are_read_with_their_fallbacks() {
    let value = parse_json(
        r#"{"model":" m ","sessionId":" s ","usage":{"input_tokens":5000000000,"output_tokens":3,"request_id":" "},"message":{"id":"mid"},"content":"abcdefg","timestamp":1787837577000}"#,
    )
    .unwrap();
    let record = record_with_id(&value, 7, "");
    assert_eq!(record.model, "m");
    assert_eq!(record.session_id, "s");
    assert_eq!(record.request_id, "qoder:mid");
    assert_eq!(record.input_tokens, u32::MAX as i64);
    assert_eq!(record.output_tokens, 3);
    assert_eq!(record.created_at, 1_787_837_577);

    let bare = parse_json("{}").unwrap();
    let record = record_with_id(&bare, 7, "x");
    assert_eq!(record.model, "unknown");
    assert_eq!(record.session_id, "");
    assert_eq!((record.input_tokens, record.output_tokens), (0, 0));
    assert_eq!(record.created_at, 7);
}

#[test]
fn sessions_hold_the_credits_of_each_record() {
    let lines: Vec<String> = vec![
        r#"{"type":"assistant","uuid":"a","credits":3}"#.to_string(),
        r#"{"type":"user","uuid":"b","credits":4}"#.to_string(),
        r#"{"type":"assistant","uuid":"c"}"#.to_string(),
    ];
    let parsed = parse_qoder_file(&lines, 9);
    assert_eq!(parsed.records.len(), 2);
    assert!(parsed.credits[0].is_some());
    assert!(parsed.credits[1].is_none());
    let mut store = UsageStore::new();
    store.add_seen("qoder:a".to_string());
    let sync = sync_single_qoder_file(&mut store, state(10, MODIFIED, None), &lines).unwrap();
    assert_eq!(sync.sync.outcome.rows.len(), 1);
    assert_eq!(sync.costs.len(), 1);
    assert_eq!(sync.costs[0].total_cost_usd, "0");
}

#[test]
fn labels_are_cut_at_character_boundaries() {
    let long = "é".repeat(300);
    let cut = truncate_usage_label(&long);
    assert_eq!(cut.len(), 512);
    assert_eq!(cut.chars().count(), 256);
    let odd = format!("a{}", "é".repeat(300));
    assert_eq!(truncate_usage_label(&odd).len(), 511);
    assert_eq!(truncate_usage_label("short"), "short");
}

// ---------------------------------------------------------------------------
// Files
// ---------------------------------------------------------------------------

#[test]
fn the_state_of_a_file_decides_what_is_done() {
    let regular = state(10, 5, None);
    assert!(matches!(next_step(SessionProgram::Qoder, regular), FileStep::Read));
    let seen = state(10, 5, Some(5));
    assert!(matches!(next_step(SessionProgram::Qoder, seen), FileStep::Skip));
    let newer = state(10, 6, Some(5));
    assert!(matches!(next_step(SessionProgram::Qoder, newer), FileStep::Read));
    let large = state(MAX_SESSION_BYTES + 1, 6, None);
    assert!(matches!(next_step(SessionProgram::Qoder, large), FileStep::Defer));
    let link = FileState { is_regular: false, ..regular };
    let mut store = UsageStore::new();
    let error = sync_single_qoder_file(&mut store, link, &vec![]).unwrap_err();
    assert_eq!(error, "Qoder 会话路径不是普通文件");
    let res = sync_qoder_usage(Some(vec![FileOutcome {
        path: "/l".to_string(),
        result: Err(error),
    }]));
    assert_eq!(res.errors, vec!["/l: Qoder 会话路径不是普通文件".to_string()]);
    assert_eq!(res.deferred_files, 0);
}

#[test]
fn nanoseconds_are_rounded_towards_zero() {
    assert_eq!(seconds_of_nanos(1_999_999_999), 1);
    assert_eq!(seconds_of_nanos(-1_999_999_999), -1);
    assert_eq!(seconds_of_nanos(i64::MIN), i64::MIN / 1_000_000_000);
}

// ---------------------------------------------------------------------------
// Costs
// ---------------------------------------------------------------------------

fn amount(mantissa: i128, places: u32) -> Amount {
    Amount { mantissa, places }
}

#[test]
fn a_credit_costs_a_cent() {
    assert_eq!(cost_of_credits(Some(amount(1, 0))), amount(1, 2));
    assert_eq!(cost_of_credits(Some(amount(250, 0))), amount(25, 1));
    assert_eq!(cost_of_credits(Some(amount(100, 0))), amount(1, 0));
    assert_eq!(cost_of_credits(None), amount(0, 0));
    assert_eq!(cost_of_credits(Some(amount(-5, 0))), amount(0, 0));
    assert_eq!(cost_of_credits(Some(amount(0, 3))), amount(0, 0));
}

#[test]
fn costs_are_rounded_to_six_places_half_to_even() {
    // 0.00005 credits are 0.0000005 dollars.
    assert_eq!(cost_of_credits(Some(amount(5, 5))), amount(0, 0));
    assert_eq!(cost_of_credits(Some(amount(15, 5))), amount(2, 6));
    assert_eq!(cost_of_credits(Some(amount(16, 5))), amount(2, 6));
    // Twenty-eight places are as many as there can be.
    assert_eq!(cost_of_credits(Some(amount(1, 28))), amount(0, 0));
    let many = amount(51_760_000_000_000_001_563_194_018_672, 28);
    assert_eq!(cost_of_credits(Some(many)), amount(5176, 5));
}

#[test]
fn costs_are_written_out() {
    assert_eq!(credit_columns(Some(amount(5176, 3))).total_cost_usd, "0.05176");
    assert_eq!(credit_columns(Some(amount(12_345, 0))).total_cost_usd, "123.45");
    assert_eq!(credit_columns(Some(amount(700, 0))).output_cost_usd, "7");
    assert_eq!(credit_columns(None).total_cost_usd, "0");
    assert_eq!(credit_columns(None).cache_read_cost_usd, "0");
}
