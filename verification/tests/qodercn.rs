//! Sessions of Qoder CN and the database of its IDE.

use session_usage::json::parse_json;
use session_usage::qodercn::{
    created_seconds_of, map_qodercn_model, message_key_of, parse_assistant_turn,
    parse_qodercn_file, read_ide_message, sync_qodercn_ide_db, sync_qodercn_usage,
    sync_single_qodercn_file, turn_with_id, IdeMessage, Turns,
};
use session_usage::session_files::{FileState, SessionSync, MAX_SESSION_BYTES};
use session_usage::usage::{
    billable_tokens, cost_columns, CostColumns, FileOutcome, InputTokenSemantics,
    SessionSyncResult, UsageStore,
};
use session_usage::walks::{collect_jsonl_files, FoundFile};

const MODIFIED: i64 = 1_790_000_000_000_000_000;

fn state(size: u64, modified: i64, last_modified: Option<i64>) -> FileState {
    FileState { is_regular: true, size, modified, last_modified }
}

fn copy_result(r: &SessionSyncResult) -> SessionSyncResult {
    SessionSyncResult {
        imported: r.imported,
        skipped: r.skipped,
        files_scanned: r.files_scanned,
        suspected_duplicates: r.suspected_duplicates,
        deferred_files: r.deferred_files,
        errors: r.errors.clone(),
    }
}

fn sync_file(
    store: &mut UsageStore,
    modified: i64,
    last_modified: Option<i64>,
    content: &str,
) -> (SessionSyncResult, SessionSync) {
    let lines: Vec<String> = content.lines().map(|l| l.to_string()).collect();
    let f = state(content.len() as u64, modified, last_modified);
    let sync = sync_single_qodercn_file(store, f, &lines).expect("sync session");
    let result = sync_qodercn_usage(
        None,
        Some(vec![FileOutcome {
            path: "/p/s.jsonl".to_string(),
            result: Ok(copy_result(&sync.result)),
        }]),
    );
    (result, sync)
}

#[test]
fn test_qodercn_turn_parsing_tokens_and_pricing_lookup() {
    let content = r#"{"type":"user","uuid":"u-user-1","sessionId":"sess-cn-01","message":{"role":"user","content":"12345678901234567890123456789012345"}}
{"type":"assistant","uuid":"uuid-asst-1","sessionId":"sess-cn-01","timestamp":"2026-06-30T12:00:00Z","message":{"role":"assistant","model":"dmodel","content":"1234567890123456789012345678901234567890123456789012345678901234567890"}}
"#;
    let mut store = UsageStore::new();
    let (res, sync) = sync_file(&mut store, MODIFIED, None, content);
    assert_eq!(res.imported, 1);
    assert_eq!(res.skipped, 0);

    let row = &sync.outcome.rows[0];
    assert_eq!(row.request_id, "qodercn:sess-cn-01:uuid-asst-1");
    assert_eq!(row.provider_id, "_qodercn_session");
    assert_eq!(row.app_type, "qodercn");
    assert_eq!(row.model, "deepseek-v4-pro");
    assert_eq!(row.input_tokens, 10);
    assert_eq!(row.output_tokens, 20);
    assert_eq!(row.session_id, "sess-cn-01");
    assert_eq!(row.data_source, "qodercn_session");
    assert_eq!(row.created_at, 1_782_820_800);
    // The price is applied to these counts, and its columns are kept.
    let tokens = billable_tokens(row);
    assert_eq!((tokens.input_tokens, tokens.output_tokens), (10, 20));
    let priced = cost_columns(Some(CostColumns {
        input_cost_usd: "0.00002".to_string(),
        output_cost_usd: "0.00016".to_string(),
        cache_read_cost_usd: "0".to_string(),
        cache_creation_cost_usd: "0".to_string(),
        total_cost_usd: "0.00018".to_string(),
    }));
    assert_eq!(priced.input_cost_usd, "0.00002");
    assert_eq!(priced.output_cost_usd, "0.00016");
    assert_eq!(priced.total_cost_usd, "0.00018");
}

#[test]
fn test_qodercn_unpriced_model_defaults_to_zero_cost() {
    let content = r#"{"type":"assistant","uuid":"uuid-unpriced-01","sessionId":"sess-unpriced","message":{"model":"qmodel_latest","content":"some text response"}}"#;
    let mut store = UsageStore::new();
    let (res, sync) = sync_file(&mut store, MODIFIED, None, content);
    assert_eq!(res.imported, 1);
    assert_eq!(sync.outcome.rows[0].request_id, "qodercn:sess-unpriced:uuid-unpriced-01");
    assert_eq!(cost_columns(None).total_cost_usd, "0");
}

#[test]
fn test_qodercn_dedup_idempotency_second_sync() {
    let content = r#"{"type":"assistant","uuid":"u-idemp-01","sessionId":"s-idemp-01","message":{"model":"dfmodel","content":"dfmodel response"}}"#;
    let mut store = UsageStore::new();
    let (r1, _) = sync_file(&mut store, MODIFIED, None, content);
    assert_eq!(r1.imported, 1);

    let (r2, _) = sync_file(&mut store, MODIFIED, Some(MODIFIED), content);
    assert_eq!(r2.imported, 0);
    assert_eq!(r2.skipped, 0);

    let touched = format!("{content}\n\n");
    let (r3, _) = sync_file(&mut store, MODIFIED + 20_000_000, Some(MODIFIED), &touched);
    assert_eq!(r3.imported, 0);
    assert_eq!(r3.skipped, 1);
}

#[test]
fn test_qodercn_transcript_subdirectories_scanned() {
    let files = collect_jsonl_files(&vec![FoundFile {
        path: "/p/proj-a/transcript/t-01.jsonl".to_string(),
        extension: Some("jsonl".to_string()),
        stem: Some("t-01".to_string()),
        parent: Some("transcript".to_string()),
        depth: 2,
    }]);
    assert_eq!(files.len(), 1);
    let content = r#"{"type":"assistant","uuid":"u-transcript-01","sessionId":"s-transcript-01","message":{"model":"qfmodel","content":"transcript response"}}"#;
    let mut store = UsageStore::new();
    let (res, _) = sync_file(&mut store, MODIFIED, None, content);
    assert_eq!(res.files_scanned, 1);
    assert_eq!(res.imported, 1);
}

#[test]
fn test_qodercn_missing_directory_returns_gracefully() {
    let res = sync_qodercn_usage(None, None);
    assert_eq!(res.files_scanned, 0);
    assert_eq!(res.imported, 0);
    assert!(res.errors.is_empty());
}

#[test]
fn test_qodercn_skips_corrupted_lines_and_meta() {
    let content = "\
{\"type\":\"session_meta\",\"sessionId\":\"s-meta\"}\n\
{\"type\":\"progress\",\"sessionId\":\"s-meta\"}\n\
{ not valid json }\n\
{\"type\":\"assistant\",\"uuid\":\"u-meta-01\",\"sessionId\":\"s-meta\",\"message\":{\"model\":\"gfmodel\",\"content\":\"meta test\"}}\n";
    let mut store = UsageStore::new();
    let (res, _) = sync_file(&mut store, MODIFIED, None, content);
    assert_eq!(res.imported, 1);
    assert!(res.errors.is_empty());
}

#[test]
fn test_qodercn_defers_large_file_over_32mb() {
    let mut store = UsageStore::new();
    let f = state(MAX_SESSION_BYTES + 1024, MODIFIED, None);
    let sync = sync_single_qodercn_file(&mut store, f, &vec![]).unwrap();
    assert_eq!(sync.result.deferred_files, 1);
    assert_eq!(sync.result.imported, 0);
}

#[test]
fn test_qodercn_multiple_turns_in_single_file() {
    let content = r#"{"type":"user","message":{"content":"12345678901234567890123456789012345"}}
{"type":"assistant","uuid":"asst-turn-1","sessionId":"sess-turns","message":{"model":"dmodel","content":"1234567"}}
{"type":"user","message":{"content":"12345678901234"}}
{"type":"assistant","uuid":"asst-turn-2","sessionId":"sess-turns","message":{"model":"dfmodel","content":"123456789012345678901"}}
"#;
    let mut store = UsageStore::new();
    let (res, sync) = sync_file(&mut store, MODIFIED, None, content);
    assert_eq!(res.imported, 2);
    let turn1 = &sync.outcome.rows[0];
    assert_eq!(turn1.request_id, "qodercn:sess-turns:asst-turn-1");
    assert_eq!(
        (turn1.input_tokens, turn1.output_tokens, turn1.model.as_str()),
        (10, 2, "deepseek-v4-pro")
    );
    let turn2 = &sync.outcome.rows[1];
    assert_eq!(turn2.request_id, "qodercn:sess-turns:asst-turn-2");
    assert_eq!(
        (turn2.input_tokens, turn2.output_tokens, turn2.model.as_str()),
        (4, 6, "deepseek-v4-flash")
    );
}

#[test]
fn test_qodercn_model_mapping_coverage() {
    assert_eq!(map_qodercn_model("qmodel_38max"), "qwen3.8-max");
    assert_eq!(map_qodercn_model("qfmodel"), "qwen3.8-flash");
    assert_eq!(map_qodercn_model("qmodel_latest"), "qwen3.7-max");
    assert_eq!(map_qodercn_model("qmodel"), "qwen3.7-plus");
    assert_eq!(map_qodercn_model("q37fmodel"), "qwen3.6-flash");
    assert_eq!(map_qodercn_model("dmodel"), "deepseek-v4-pro");
    assert_eq!(map_qodercn_model("dfmodel"), "deepseek-v4-flash");
    assert_eq!(map_qodercn_model("gmodel"), "glm-5.3");
    assert_eq!(map_qodercn_model("gfmodel"), "glm-5.3-flash");
    assert_eq!(map_qodercn_model("gm51model"), "glm-5.2");
    assert_eq!(map_qodercn_model("kmodel_latest"), "kimi-k3");
    assert_eq!(map_qodercn_model("kmodel"), "kimi-k2.7-code");
    assert_eq!(map_qodercn_model("mmodel"), "minimax-m2.7");
    assert_eq!(map_qodercn_model("auto"), "qwen3.8-max");
    assert_eq!(map_qodercn_model(""), "qwen3.8-max");
    assert_eq!(map_qodercn_model("custom_model"), "qwen3.8-max");
}

fn message(id: &str, model_info: &str, token_info: &str, created: i64) -> IdeMessage {
    IdeMessage {
        id: id.to_string(),
        session_id: "s-01".to_string(),
        model_info: model_info.to_string(),
        token_info: token_info.to_string(),
        created,
        preferred_model_info: "{\"preferred_model\":\"dmodel\"}".to_string(),
    }
}

#[test]
fn test_sync_qodercn_ide_db() {
    let messages = vec![
        message(
            "msg-01",
            "{\"model_key\":\"qmodel_38max\"}",
            "{\"prompt_tokens\":1000,\"completion_tokens\":50,\"cached_tokens\":800}",
            1781075253596,
        ),
        message(
            "msg-02",
            "{\"model_key\":\"auto\"}",
            "{\"prompt_tokens\":500,\"completion_tokens\":20,\"cached_tokens\":0}",
            1781075254000,
        ),
    ];
    let mut store = UsageStore::new();
    let res = sync_qodercn_ide_db(&mut store, &messages);
    assert_eq!(res.result.imported, 2);
    assert_eq!(res.result.skipped, 0);

    let row1 = &res.outcome.rows[0];
    assert_eq!(row1.request_id, "qodercn:ide:msg-01");
    assert_eq!(row1.model, "qwen3.8-max");
    assert_eq!(row1.input_tokens, 1000);
    assert_eq!(row1.output_tokens, 50);
    assert_eq!(row1.cache_read_tokens, 800);
    assert_eq!(row1.input_token_semantics, InputTokenSemantics::Total);
    assert_eq!(row1.created_at, 1781075253);
    assert_eq!(res.keys, vec!["qmodel_38max", "dmodel"]);

    let row2 = &res.outcome.rows[1];
    assert_eq!(row2.request_id, "qodercn:ide:msg-02");
    assert_eq!(row2.model, "deepseek-v4-pro");
    assert_eq!(row2.input_tokens, 500);
    assert_eq!(row2.output_tokens, 20);

    let res2 = sync_qodercn_ide_db(&mut store, &messages);
    assert_eq!(res2.result.imported, 0);
    assert_eq!(res2.result.skipped, 2);
    assert_eq!(res2.result.files_scanned, 1);
}

// ---------------------------------------------------------------------------
// Models
// ---------------------------------------------------------------------------

#[test]
fn names_hint_at_models() {
    assert_eq!(map_qodercn_model("qmodel_preview"), "qwen3.6-max-preview");
    assert_eq!(map_qodercn_model("My-DeepSeek-Flash"), "deepseek-v4-flash");
    assert_eq!(map_qodercn_model("DEEPSEEK"), "deepseek-v4-pro");
    assert_eq!(map_qodercn_model("GLM flash"), "glm-5.3-flash");
    assert_eq!(map_qodercn_model("glm"), "glm-5.3");
    assert_eq!(map_qodercn_model("qwen-flash"), "qwen3.8-flash");
    assert_eq!(map_qodercn_model("qwen-plus"), "qwen3.7-plus");
    assert_eq!(map_qodercn_model("qwen"), "qwen3.8-max");
    assert_eq!(map_qodercn_model("Kimi"), "kimi-k3");
    assert_eq!(map_qodercn_model("minimax"), "minimax-m2.7");
    assert_eq!(map_qodercn_model("whatever"), "qwen3.8-max");
}

#[test]
fn configured_models_count_where_a_turn_names_none() {
    let content = r#"{"type":"runtime-config","model":" gmodel "}
{"type":"runtime-config","model":"auto"}
{"type":"assistant","uuid":"a","message":{"model":"<synthetic>","content":"x"}}
{"type":"assistant","uuid":"b","message":{"model":"kmodel","content":"x"}}"#;
    let lines: Vec<String> = content.lines().map(|l| l.to_string()).collect();
    let records = parse_qodercn_file(&lines, 5);
    assert_eq!(records[0].model, "glm-5.3");
    assert_eq!(records[0].request_id, "qodercn::a");
    assert_eq!(records[1].model, "kimi-k2.7-code");
    assert_eq!(records[0].created_at, 5);
}

#[test]
fn turns_use_up_what_the_user_wrote() {
    let user = parse_json(r#"{"type":"user","content":"12345678901234"}"#).unwrap();
    let turn = parse_json(r#"{"type":"assistant","uuid":"a","content":"x"}"#).unwrap();
    let mut turns = Turns::new();
    turns.take(&user, 0, 0, "");
    turns.take(&turn, 0, 1, "");
    turns.take(&turn, 0, 2, "");
    let records = turns.into_records();
    assert_eq!(records[0].input_tokens, 4);
    assert_eq!(records[1].input_tokens, 0);
}

#[test]
fn turns_without_an_id_get_one_made_of_their_line() {
    let line = r#"{"type":"assistant","sessionId":"s","uuid":"  "}"#;
    let turn = parse_json(line).unwrap();
    let first = parse_assistant_turn(&turn, 0, None, 0, 5, line);
    let second = parse_assistant_turn(&turn, 1, Some("dmodel"), 9, 5, line);
    assert_eq!(first.request_id, second.request_id);
    assert_ne!(parse_assistant_turn(&turn, 0, None, 0, 6, line).request_id, first.request_id);
    let name = format!("s\n5\n{line}");
    let expected = uuid::Uuid::new_v5(&uuid::Uuid::NAMESPACE_OID, name.as_bytes());
    assert_eq!(first.request_id, format!("qodercn:s:{expected}"));
    assert_eq!(first.request_id.len(), "qodercn:s:".len() + 36);
    assert_eq!(turn_with_id(&turn, 0, None, 0, "f").request_id, "qodercn:s:f");
    assert_eq!(turn_with_id(&turn, 3, Some("dmodel"), 0, "f").model, "deepseek-v4-pro");
    assert_eq!(turn_with_id(&turn, 3, None, 0, "f").input_tokens, 1);
}

#[test]
fn reported_counts_go_before_estimates() {
    let turn = parse_json(
        r#"{"uuid":"a","message":{"usage":{"input_tokens":9,"output_tokens":8},"content":"1234567"}}"#,
    )
    .unwrap();
    let record = turn_with_id(&turn, 700, None, 0, "");
    assert_eq!((record.input_tokens, record.output_tokens), (9, 8));
}

// ---------------------------------------------------------------------------
// The database of the IDE
// ---------------------------------------------------------------------------

#[test]
fn messages_without_tokens_are_skipped() {
    assert!(read_ide_message(&message("a", "", "no json", 1)).is_none());
    assert!(read_ide_message(&message("a", "", "{\"cached_tokens\":5}", 1)).is_none());
    let messages = vec![
        message("a", "", "no json", 1),
        message("b", "", "{\"prompt_tokens\":1}", 1),
    ];
    let mut store = UsageStore::new();
    // A row of that id in the log does not keep the message from counting.
    store.add_logged("qodercn:ide:b".to_string());
    let res = sync_qodercn_ide_db(&mut store, &messages);
    assert_eq!((res.result.imported, res.result.skipped), (1, 1));
    assert_eq!(res.outcome.rows[0].request_id, "qodercn:ide:b");
}

#[test]
fn the_preferred_model_counts_where_the_choice_is_left_open() {
    assert_eq!(message_key_of(&message("a", "", "{}", 0)), "dmodel");
    assert_eq!(message_key_of(&message("a", "{\"model_key\":\" auto \"}", "{}", 0)), "dmodel");
    assert_eq!(message_key_of(&message("a", "{\"model_key\":\" x \"}", "{}", 0)), "x");
    let mut open = message("a", "{\"model_key\":\"auto\"}", "{}", 0);
    open.preferred_model_info = "".to_string();
    assert_eq!(message_key_of(&open), "auto");
}

#[test]
fn times_of_messages_are_brought_into_range() {
    assert_eq!(created_seconds_of(1781075253596), 1781075253);
    assert_eq!(created_seconds_of(1781075253), 1781075253);
    assert_eq!(created_seconds_of(0), 0);
    assert_eq!(created_seconds_of(-5), 0);
    assert_eq!(created_seconds_of(i64::MAX), 253_402_300_799);
}

#[test]
fn failures_of_the_database_are_reported() {
    let res = sync_qodercn_usage(
        Some(Err("locked".to_string())),
        Some(vec![FileOutcome { path: "/f".to_string(), result: Err("bad".to_string()) }]),
    );
    assert_eq!(
        res.errors,
        vec!["QoderCN IDE 数据库解析失败: locked".to_string(), "/f: bad".to_string()]
    );
    let link = FileState { is_regular: false, ..state(1, 1, None) };
    let mut store = UsageStore::new();
    let error = sync_single_qodercn_file(&mut store, link, &vec![]).unwrap_err();
    assert_eq!(error, "QoderCN 会话路径不是普通文件");
}
