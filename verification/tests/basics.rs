//! Texts, times, documents, paths and the ledger.

use session_usage::clock::{
    choose_seconds, parse_log_timestamp, parse_started_at_utc, parse_timestamp, read_line_time,
    seconds_of, CivilTime,
};
use session_usage::estimate::{estimate_tokens, extract_content_chars};
use session_usage::json::{
    copy_json, from_value, parse_json, pretty_json, to_value, Json, JsonNumber,
};
use session_usage::order::sort_paths;
use session_usage::paths::{
    codebuddy_cn_logs_dir, codebuddy_extension_data_dir, codebuddy_traces_dir,
    get_antigravity_ide_dir, get_antigravity_ide_mcp_path, get_conversation_dirs,
    get_default_antigravity_conversations_dirs, qoder_projects_root, qodercn_ide_db_path,
    qodercn_projects_root, session_roots, user_config_path, workbuddy_traces_dir, JoinedPath,
    Platform,
};
use session_usage::text::{
    cut_of, decimal_int_of, decimal_of, find_in, first_word_of, join_text, parse_i32, parse_u32,
    same_ignoring_case, trim_text, utf8_prefix_of,
};
use session_usage::usage::{
    billable_tokens, clamp_sqlite_seconds, combine_outcomes, counts_only, deferred_file,
    import_records, log_row, Admission, FileOutcome, ImportSource, InputTokenSemantics,
    SessionSyncResult, UsageRecord, UsageStore,
};

fn joined(path: &JoinedPath) -> String {
    let mut out = path.base.clone();
    for part in &path.parts {
        out.push('/');
        out.push_str(part);
    }
    out
}

// ---------------------------------------------------------------------------
// Texts
// ---------------------------------------------------------------------------

#[test]
fn texts_are_trimmed_of_every_white_space() {
    assert_eq!(trim_text("\u{a0}\u{3000} a b \n\t\u{2003}"), "a b");
    assert_eq!(trim_text(" \u{200b} "), "\u{200b}");
    for c in ['\u{9}', '\u{85}', '\u{1680}', '\u{2028}', '\u{205f}', '\u{feff}', 'x'] {
        let s = format!("{c}y{c}");
        assert_eq!(trim_text(&s), s.trim());
    }
}

#[test]
fn texts_are_searched_by_characters() {
    assert_eq!(find_in("äöü", "ü"), Some(2));
    assert_eq!(find_in("aab", "ab"), Some(1));
    assert_eq!(find_in("a", "ab"), None);
    assert_eq!(cut_of("k: v: w", ": "), ("k", Some("v: w")));
    assert_eq!(cut_of("kv", ": "), ("kv", None));
    assert_eq!(first_word_of("  a b"), Some(("a", " b")));
    assert_eq!(first_word_of("  "), None);
    assert!(same_ignoring_case("LoG", "lOg"));
    assert!(!same_ignoring_case("Ä", "ä"));
}

#[test]
fn numbers_are_read_and_written() {
    assert_eq!(parse_u32("+42"), Some(42));
    assert_eq!(parse_u32("4294967295"), Some(u32::MAX));
    assert_eq!(parse_u32("4294967296"), None);
    assert_eq!(parse_u32(""), None);
    assert_eq!(parse_u32("-1"), None);
    assert_eq!(parse_i32("-2147483648"), Some(i32::MIN));
    assert_eq!(parse_i32("2147483648"), None);
    assert_eq!(decimal_of(u64::MAX), u64::MAX.to_string());
    assert_eq!(decimal_of(0), "0");
    assert_eq!(decimal_int_of(i64::MIN), i64::MIN.to_string());
}

#[test]
fn prefixes_end_between_characters() {
    assert_eq!(utf8_prefix_of("aé€😀", 10), "aé€😀");
    assert_eq!(utf8_prefix_of("aé€😀", 9), "aé€");
    assert_eq!(utf8_prefix_of("aé€😀", 2), "a");
    assert_eq!(utf8_prefix_of("é", 1), "");
    assert_eq!(join_text(&vec!["a".to_string(), "b".to_string()], "\n"), "a\nb");
}

// ---------------------------------------------------------------------------
// Estimates
// ---------------------------------------------------------------------------

#[test]
fn three_and_a_half_characters_are_a_token() {
    for chars in [0usize, 1, 2, 3, 5, 7, 10, 12, 35, 70, 1000, 123_456_789] {
        let rounded = (chars as f64 / 3.5).round() as u32;
        let expected = if chars > 0 && rounded == 0 { 1 } else { rounded };
        assert_eq!(estimate_tokens(chars), expected, "{chars} characters");
    }
}

#[test]
fn inputs_of_tools_count_as_their_text() {
    let content = parse_json(
        r#"[{"text":"abc","thinking":"x"},{"thinking":"de"},{"input":{"k":1}},{"input":"fg"},{"other":1}]"#,
    )
    .unwrap();
    // `{"k":1}` has seven characters.
    assert_eq!(extract_content_chars(Some(&content)), 3 + 2 + 7 + 2);
    assert_eq!(extract_content_chars(None), 0);
    assert_eq!(extract_content_chars(Some(&parse_json("5").unwrap())), 0);
}

// ---------------------------------------------------------------------------
// Times
// ---------------------------------------------------------------------------

#[test]
fn lines_begin_with_their_time() {
    let time = read_line_time("[2026/9/14 14:16:25.216] [Info] x").unwrap();
    assert_eq!(
        time,
        CivilTime { year: 2026, month: 9, day: 14, hour: 14, minute: 16, second: 25, milli: 216 }
    );
    assert!(read_line_time("2026/9/14 14:16:25.216").is_none());
    assert!(read_line_time("[2026/9/14]").is_none());
    assert!(parse_log_timestamp("[2026/2/30 00:00:00.000] x").is_none());
    let seconds = parse_log_timestamp("[2026/9/14 14:16:25.216] x").unwrap();
    assert!((seconds - 1_789_395_385).abs() < 86_400);
    assert_eq!(choose_seconds(5, Some(7)), 7);
    assert_eq!(choose_seconds(5, None), 5);
}

#[test]
fn starts_of_spans_are_utc() {
    assert_eq!(parse_started_at_utc("2026-08-07T09:32:41.930Z"), Some(1786095161));
    assert_eq!(parse_started_at_utc("2026-08-07T11:32:41+02:00"), Some(1786095161));
    assert_eq!(parse_started_at_utc(""), None);
    assert_eq!(parse_started_at_utc("yesterday"), None);
}

#[test]
fn timestamps_are_seconds_milliseconds_or_texts() {
    let number = parse_json("1787837577").unwrap();
    assert_eq!(parse_timestamp(Some(&number)), Some(1787837577));
    let millis = parse_json("1787837577123").unwrap();
    assert_eq!(parse_timestamp(Some(&millis)), Some(1787837577));
    let text = parse_json("\"2026-08-27T13:32:57.000Z\"").unwrap();
    assert_eq!(parse_timestamp(Some(&text)), Some(1787837577));
    assert_eq!(parse_timestamp(Some(&Json::Null)), None);
    assert_eq!(parse_timestamp(None), None);
    assert_eq!(seconds_of(1_000_000_000_000), 1_000_000_000_000);
    assert_eq!(seconds_of(1_000_000_000_001), 1_000_000_000);
    assert_eq!(clamp_sqlite_seconds(i64::MAX), 253_402_300_799);
    assert_eq!(clamp_sqlite_seconds(i64::MIN), -62_167_219_200);
    assert_eq!(clamp_sqlite_seconds(12), 12);
}

// ---------------------------------------------------------------------------
// Documents
// ---------------------------------------------------------------------------

#[test]
fn documents_are_read_and_written() {
    let doc = parse_json(r#"{"b":[1,-2,2.5,null,true,"x"],"a":{}}"#).unwrap();
    let items = doc.get("b").unwrap().as_array().unwrap();
    assert_eq!(items[0], Json::Number(JsonNumber::Unsigned(1)));
    assert_eq!(items[1].as_i64(), Some(-2));
    assert_eq!(items[1].as_u64(), None);
    assert_eq!(items[2].as_i64(), None);
    assert_eq!(items[5].as_str(), Some("x"));
    assert_eq!(doc.compact_text(), r#"{"a":{},"b":[1,-2,2.5,null,true,"x"]}"#);
    assert_eq!(copy_json(&doc), doc);
    assert_eq!(pretty_json(&parse_json("[1]").unwrap()), "[\n  1\n]");
    assert!(parse_json("{").is_err());
    assert!(parse_json("").unwrap_err().contains("EOF"));
}

// ---------------------------------------------------------------------------
// Paths
// ---------------------------------------------------------------------------

#[test]
fn environment_variables_override_directories() {
    assert_eq!(joined(&codebuddy_traces_dir(Some(" /x "), Some("/h"))), "/x/traces");
    assert_eq!(joined(&codebuddy_traces_dir(Some("  "), Some("/h"))), "/h/.codebuddy/traces");
    assert_eq!(joined(&workbuddy_traces_dir(None, Some("/h"))), "/h/.workbuddy/traces");
    assert_eq!(
        joined(&codebuddy_cn_logs_dir(None, Some("/d"))),
        "/d/CodeBuddyExtension/Logs/CodeBuddyIDE"
    );
    assert_eq!(
        joined(&codebuddy_extension_data_dir(None, Some("/d"))),
        "/d/CodeBuddyExtension/Data"
    );
    assert_eq!(joined(&qoder_projects_root(None, "/h")), "/h/.qoder/projects");
    assert_eq!(joined(&qodercn_projects_root(Some("/p"), "/h")), "/p");
    assert_eq!(
        joined(&qodercn_ide_db_path(None, Platform::Linux, "/h")),
        "/h/.config/QoderCN/SharedClientCache/cache/db/local.db"
    );
    assert_eq!(joined(&qodercn_ide_db_path(None, Platform::Other, "/h")), "/h/.qoder-cn/local.db");
    assert_eq!(joined(&qodercn_ide_db_path(Some("/f.db"), Platform::MacOs, "/h")), "/f.db");
}

#[test]
fn every_client_has_its_directory() {
    let dirs: Vec<String> =
        get_default_antigravity_conversations_dirs(None, "/h").iter().map(joined).collect();
    assert_eq!(
        dirs,
        vec![
            "/h/.gemini/antigravity/conversations",
            "/h/.gemini/antigravity-local/conversations",
            "/h/.gemini/antigravity-cli/conversations",
            "/h/.gemini/antigravity-ide/conversations",
        ]
    );
    let given = vec!["/a".to_string(), "/b".to_string()];
    let dirs: Vec<String> =
        get_conversation_dirs(Some(&given), "/g").iter().map(joined).collect();
    assert_eq!(dirs, vec!["/a", "/b"]);
    let roots: Vec<String> = session_roots(None, "/g").iter().map(joined).collect();
    assert_eq!(roots.len(), 10);
    assert_eq!(roots[0], "/g/antigravity/conversations");
    assert_eq!(roots[8], "/g/tmp");
    assert_eq!(roots[9], "/g");
    assert_eq!(joined(&user_config_path("/g")), "/g/settings.json");
    assert_eq!(joined(&get_antigravity_ide_dir("/g")), "/g/antigravity-ide");
    assert_eq!(joined(&get_antigravity_ide_mcp_path("/g")), "/g/antigravity-ide/mcp_config.json");
}

// ---------------------------------------------------------------------------
// The ledger
// ---------------------------------------------------------------------------

fn record(id: &str) -> UsageRecord {
    UsageRecord {
        request_id: id.to_string(),
        model: "m".to_string(),
        input_tokens: 5_000_000_000,
        output_tokens: -1,
        cache_read_tokens: 3,
        cache_creation_tokens: 4,
        session_id: "s".to_string(),
        created_at: 9,
    }
}

#[test]
fn the_ledger_decides_what_becomes_of_a_record() {
    let mut store = UsageStore::new();
    store.add_seen("seen".to_string());
    store.add_proxied("proxied".to_string());
    store.add_logged("logged".to_string());
    assert_eq!(store.offer("seen"), Admission::Known);
    assert_eq!(store.offer("proxied"), Admission::Known);
    assert_eq!(store.offer("logged"), Admission::LedgerOnly);
    assert_eq!(store.offer("logged"), Admission::Known);
    assert_eq!(store.offer("new"), Admission::Imported);
    assert!(store.has_seen("new"));
    assert!(!store.has_seen("proxied"));
}

#[test]
fn records_are_imported_once() {
    let records = vec![record("a"), record("b"), record("a")];
    let mut store = UsageStore::new();
    let out = import_records(&mut store, ImportSource::WorkBuddy, &records, 2);
    assert_eq!((out.imported, out.skipped), (2, 3));
    assert_eq!(out.positions, vec![0, 1]);
    let again = import_records(&mut store, ImportSource::WorkBuddy, &records, 0);
    assert_eq!((again.imported, again.skipped), (0, 3));
    assert!(again.rows.is_empty());
}

#[test]
fn rows_carry_their_source() {
    let row = log_row(ImportSource::Qoder, &record("q"));
    assert_eq!(row.app_type, "qoder");
    assert_eq!(row.data_source, "qoder_session");
    assert_eq!(row.provider_type, "qoder_session");
    assert_eq!(row.provider_id, "_qoder_session");
    assert_eq!(row.input_token_semantics, InputTokenSemantics::Fresh);
    assert_eq!((row.latency_ms, row.first_token_ms, row.status_code), (0, None, 200));
    assert_eq!(row.cost_multiplier, "1.0");
    assert!(!row.is_streaming);
    let tokens = billable_tokens(&row);
    assert_eq!((tokens.input_tokens, tokens.output_tokens), (u32::MAX, 0));
    assert_eq!((tokens.cache_read_tokens, tokens.cache_creation_tokens), (3, 4));
}

#[test]
fn counts_stop_at_their_limit() {
    let mut result = SessionSyncResult::default();
    result.merge(counts_only(u32::MAX, 1));
    result.merge(counts_only(5, u32::MAX));
    result.merge(deferred_file());
    assert_eq!((result.imported, result.skipped, result.deferred_files), (u32::MAX, u32::MAX, 1));
    let outcomes = vec![
        FileOutcome { path: "/a".to_string(), result: Ok(counts_only(1, 0)) },
        FileOutcome { path: "/b".to_string(), result: Err("e".to_string()) },
    ];
    let total = combine_outcomes("L ", false, outcomes);
    assert_eq!((total.imported, total.files_scanned, total.deferred_files), (1, 2, 0));
    assert_eq!(total.errors, vec!["L /b: e".to_string()]);
}

#[test]
fn paths_are_sorted_name_by_name() {
    let sort = |paths: &[&str]| sort_paths(paths.iter().map(|p| p.to_string()).collect());
    assert_eq!(sort(&["/b", "/a/z", "/a-b", "/a"]), vec!["/a", "/a/z", "/a-b", "/b"]);
    assert_eq!(sort(&["x", "..", "./x", "/x", ""]), vec!["", "/x", "./x", "..", "x"]);
    // Repeated separators and further dots mean nothing; equal paths keep their order.
    assert_eq!(sort(&["/a//b/./c", "/a/b/c", "/a/b"]), vec!["/a/b", "/a//b/./c", "/a/b/c"]);
    let windows = ["C:\\g\\a-b\\x", "C:\\g\\a\\x"];
    assert_eq!(sort(&windows), vec![windows[1], windows[0]]);
    // A colon alone makes no drive.
    assert_eq!(sort(&["a:b\\c", "a:b.c"]), vec!["a:b.c", "a:b\\c"]);
    assert_eq!(sort(&["1:\\c", "1:.c"]), vec!["1:.c", "1:\\c"]);
    assert_eq!(sort(&["c:", "c:/a", "C:\\b"]), vec!["C:\\b", "c:", "c:/a"]);
    let mut platform: Vec<std::path::PathBuf> =
        ["/g/é", "/g/a\\b", "/g/a.b", "/g/Z"].iter().map(std::path::PathBuf::from).collect();
    platform.sort();
    let expected: Vec<String> = platform.iter().map(|p| p.to_str().unwrap().to_string()).collect();
    assert_eq!(sort(&["/g/é", "/g/a\\b", "/g/a.b", "/g/Z"]), expected);
}

#[test]
fn documents_of_serde_are_taken_and_given() {
    let value: serde_json::Value = serde_json::from_str(r#"{"a":[1,-2,0.5,"x",null]}"#).unwrap();
    assert_eq!(to_value(&from_value(&value)), value);
}

#[test]
fn parsed_documents_hold_each_key_once() {
    let doc = parse_json(r#"{"a":1,"b":[-0,-1],"a":2}"#).unwrap();
    let entries = doc.as_object().unwrap();
    assert_eq!(entries.len(), 2);
    assert_eq!(doc.get("a"), Some(&Json::Number(JsonNumber::Unsigned(2))));
    let items = doc.get("b").and_then(|v| v.as_array()).unwrap();
    assert!(matches!(items[0], Json::Number(JsonNumber::Float(_))));
    assert!(matches!(items[1], Json::Number(JsonNumber::Negative(-1))));
}
