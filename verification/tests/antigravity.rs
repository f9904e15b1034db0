//! Conversations of Antigravity: the wire format, the import and its cursor.

use session_usage::antigravity::{
    collect_antigravity_db_files, conversation_unchanged, parse_gen_metadata, parse_step_metadata,
    parse_token_block, plan_antigravity_import, sync_antigravity_usage_from_dirs,
    sync_gemini_usage, sync_single_antigravity_db, AntigravityTokens, ConversationDb, GenRow,
    SyncCursor,
};
use session_usage::files::{DirListing, FileEntry};
use session_usage::usage::{counts_only, FileOutcome, InputTokenSemantics, UsageStore};
use session_usage::wire::{next_wire_field, parse_wire_fields, read_varint, WireError};

fn write_varint(buf: &mut Vec<u8>, mut val: u64) {
    while val >= 0x80 {
        buf.push((val as u8 & 0x7F) | 0x80);
        val >>= 7;
    }
    buf.push(val as u8);
}

fn write_key(buf: &mut Vec<u8>, tag: u32, wire_type: u8) {
    write_varint(buf, ((tag as u64) << 3) | (wire_type as u64));
}

fn write_length_delimited(buf: &mut Vec<u8>, tag: u32, data: &[u8]) {
    write_key(buf, tag, 2);
    write_varint(buf, data.len() as u64);
    buf.extend_from_slice(data);
}

fn write_varint_field(buf: &mut Vec<u8>, tag: u32, val: u64) {
    write_key(buf, tag, 0);
    write_varint(buf, val);
}

fn build_test_gen_metadata(
    uuid: &str,
    model: &str,
    input: u32,
    output: u32,
    cached: u32,
    thoughts: u32,
) -> Vec<u8> {
    let mut token_buf = Vec::new();
    write_varint_field(&mut token_buf, 2, input as u64);
    write_varint_field(&mut token_buf, 3, output as u64);
    write_varint_field(&mut token_buf, 5, cached as u64);
    write_varint_field(&mut token_buf, 6, thoughts as u64);

    let mut tag1_buf = Vec::new();
    write_length_delimited(&mut tag1_buf, 19, model.as_bytes());
    write_length_delimited(&mut tag1_buf, 4, &token_buf);

    let mut out = Vec::new();
    write_length_delimited(&mut out, 4, uuid.as_bytes());
    write_length_delimited(&mut out, 1, &tag1_buf);
    out
}

fn build_test_step_metadata(uuid: &str, timestamp: i64) -> Vec<u8> {
    let mut ts_buf = Vec::new();
    write_varint_field(&mut ts_buf, 1, timestamp as u64);

    let mut out = Vec::new();
    write_length_delimited(&mut out, 1, &ts_buf);
    write_length_delimited(&mut out, 12, uuid.as_bytes());
    out
}

fn conversation(gen_rows: Vec<(i64, Vec<u8>)>, steps: Vec<Vec<u8>>) -> ConversationDb {
    let mut generations = Vec::new();
    for (idx, data) in gen_rows {
        generations.push(GenRow::Row { idx, data });
    }
    ConversationDb {
        has_gen_metadata: true,
        cascade_id: Some("test-cascade-id".to_string()),
        file_stem: Some("c-test".to_string()),
        steps,
        earlier: Vec::new(),
        generations,
        modified_seconds: 1_700_000_000,
    }
}

fn file(path: &str, canonical: &str, extension: &str) -> FileEntry {
    FileEntry {
        path: path.to_string(),
        canonical: canonical.to_string(),
        extension: Some(extension.to_string()),
    }
}

fn dir(path: &str, files: Option<Vec<FileEntry>>) -> DirListing {
    DirListing { path: path.to_string(), files }
}

#[test]
fn test_single_step_parse() {
    let bytes = build_test_gen_metadata("req-uuid-1", "gemini-3.8-flash", 120, 30, 80, 5);
    let parsed = parse_gen_metadata(&bytes).expect("parse gen metadata");
    assert_eq!(parsed.uuid, "req-uuid-1");
    assert_eq!(parsed.model, "gemini-3.8-flash");
    assert_eq!(parsed.tokens.input, 120);
    assert_eq!(parsed.tokens.output, 30);
    assert_eq!(parsed.tokens.cached, 80);
    assert_eq!(parsed.tokens.thoughts, 5);
}

#[test]
fn test_three_client_paths_scan() {
    // `antigravity` links to `antigravity-local`, so that both list the same file.
    let dirs = vec![
        dir(
            "/g/antigravity/conversations",
            Some(vec![file(
                "/g/antigravity/conversations/c1.db",
                "/g/antigravity-local/conversations/c1.db",
                "db",
            )]),
        ),
        dir(
            "/g/antigravity-local/conversations",
            Some(vec![file(
                "/g/antigravity-local/conversations/c1.db",
                "/g/antigravity-local/conversations/c1.db",
                "db",
            )]),
        ),
        dir(
            "/g/antigravity-cli/conversations",
            Some(vec![file(
                "/g/antigravity-cli/conversations/c2.db",
                "/g/antigravity-cli/conversations/c2.db",
                "db",
            )]),
        ),
        dir(
            "/g/antigravity-ide/conversations",
            Some(vec![
                file(
                    "/g/antigravity-ide/conversations/c3.db",
                    "/g/antigravity-ide/conversations/c3.db",
                    "db",
                ),
                file(
                    "/g/antigravity-ide/conversations/old.pb",
                    "/g/antigravity-ide/conversations/old.pb",
                    "pb",
                ),
                file(
                    "/g/antigravity-ide/conversations/c3.db-wal",
                    "/g/antigravity-ide/conversations/c3.db-wal",
                    "db-wal",
                ),
            ]),
        ),
    ];
    let files = collect_antigravity_db_files(&dirs);
    assert_eq!(files.len(), 3);
    assert!(files.iter().any(|f| f.ends_with("/c1.db")));
    assert!(files.iter().any(|f| f.ends_with("/c2.db")));
    assert!(files.iter().any(|f| f.ends_with("/c3.db")));
}

#[test]
fn test_column_assertions() {
    let gen_bytes = build_test_gen_metadata("req-col-assert", "gemini-3.8-flash", 100, 50, 40, 10);
    let step_bytes = build_test_step_metadata("req-col-assert", 1_788_000_123);
    let db = conversation(vec![(0, gen_bytes)], vec![step_bytes]);

    let mut store = UsageStore::new();
    let sync = sync_single_antigravity_db(&mut store, 1_788_000_500_000_000_000, None, &db);
    assert_eq!(sync.outcome.imported, 1);
    assert_eq!(sync.outcome.skipped, 0);

    let row = &sync.outcome.rows[0];
    assert_eq!(row.request_id, "antigravity:test-cascade-id:req-col-assert");
    assert_eq!(row.provider_id, "_antigravity_session");
    assert_eq!(row.app_type, "gemini");
    assert_eq!(row.model, "gemini-3.8-flash");
    assert_eq!(row.input_tokens, 100);
    assert_eq!(row.output_tokens, 60);
    assert_eq!(row.cache_read_tokens, 40);
    assert_eq!(row.cache_creation_tokens, 0);
    assert_eq!(row.input_token_semantics, InputTokenSemantics::Legacy);
    assert_eq!(row.status_code, 200);
    assert_eq!(row.session_id, "test-cascade-id");
    assert_eq!(row.provider_type, "antigravity_session");
    assert_eq!(row.created_at, 1_788_000_123);
    assert_eq!(row.data_source, "antigravity_session");
    assert!(row.is_streaming);
    assert!(store.has_seen("antigravity:test-cascade-id:req-col-assert"));
}

#[test]
fn test_idempotent_dedup() {
    let gen_bytes = build_test_gen_metadata("req-idemp", "gemini-3.8-flash", 200, 80, 50, 0);
    let modified: i64 = 1_788_000_500_000_000_000;
    let db = conversation(vec![(0, gen_bytes)], vec![]);

    let mut store = UsageStore::new();
    let first = sync_single_antigravity_db(&mut store, modified, None, &db);
    let res1 = sync_antigravity_usage_from_dirs(vec![FileOutcome {
        path: "/c-idempotent.db".to_string(),
        result: Ok(counts_only(first.outcome.imported, first.outcome.skipped)),
    }]);
    assert_eq!(res1.imported, 1);
    assert_eq!(res1.skipped, 0);

    let cursor = SyncCursor {
        last_modified: modified,
        last_line_offset: first.next_offset.unwrap(),
    };
    let second = sync_single_antigravity_db(&mut store, modified, Some(cursor), &db);
    let res2 = sync_antigravity_usage_from_dirs(vec![FileOutcome {
        path: "/c-idempotent.db".to_string(),
        result: Ok(counts_only(second.outcome.imported, second.outcome.skipped)),
    }]);
    assert_eq!(res2.imported, 0);
    assert_eq!(res2.skipped, 1);
}

#[test]
fn test_missing_directory_skipped() {
    let dirs = vec![dir("/non/existent/path/one", None), dir("/non/existent/path/two", None)];
    let files = collect_antigravity_db_files(&dirs);
    assert!(files.is_empty());
    let result = sync_antigravity_usage_from_dirs(vec![]);
    assert_eq!(result.imported, 0);
    assert_eq!(result.skipped, 0);
    assert_eq!(result.files_scanned, 0);
    assert!(result.errors.is_empty());
}

#[test]
fn test_malformed_data_tolerance() {
    let good_bytes = build_test_gen_metadata("req-good", "gemini-3.8-flash", 50, 10, 5, 0);
    let corrupted_bytes = vec![0xFF, 0xFF, 0x7F, 0x00, 0xAA];
    let db = conversation(vec![(0, corrupted_bytes), (1, good_bytes)], vec![]);

    let mut store = UsageStore::new();
    let sync = sync_single_antigravity_db(&mut store, 1, None, &db);
    assert_eq!(sync.outcome.imported, 1);
    assert_eq!(sync.outcome.skipped, 1);
}

#[test]
fn test_reverse_validation_tampered_token_bytes() {
    let mut tampered_token = Vec::new();
    write_key(&mut tampered_token, 2, 2);
    write_varint(&mut tampered_token, 100);
    tampered_token.extend_from_slice(b"short");

    let mut tag1_buf = Vec::new();
    write_length_delimited(&mut tag1_buf, 19, b"gemini-3.8-flash");
    write_length_delimited(&mut tag1_buf, 4, &tampered_token);

    let mut out = Vec::new();
    write_length_delimited(&mut out, 4, b"req-tampered");
    write_length_delimited(&mut out, 1, &tag1_buf);

    assert!(parse_gen_metadata(&out).is_err());

    let db = conversation(vec![(0, out)], vec![]);
    let mut store = UsageStore::new();
    let sync = sync_single_antigravity_db(&mut store, 1, None, &db);
    assert_eq!(sync.outcome.imported, 0);
    assert_eq!(sync.outcome.skipped, 1);
}

// ---------------------------------------------------------------------------
// The wire format
// ---------------------------------------------------------------------------

#[test]
fn varints_are_read_to_their_end() {
    let mut buf = Vec::new();
    write_varint(&mut buf, 300);
    write_varint(&mut buf, u64::MAX);
    let mut offset = 0;
    assert_eq!(read_varint(&buf, &mut offset), Ok(300));
    assert_eq!(offset, 2);
    assert_eq!(read_varint(&buf, &mut offset), Ok(u64::MAX));
    assert_eq!(offset, 12);
    assert_eq!(read_varint(&buf, &mut offset), Err(WireError::UnexpectedEof));
}

#[test]
fn each_wire_error_has_its_input() {
    let mut offset = 0;
    assert_eq!(read_varint(&[0x80], &mut offset), Err(WireError::UnexpectedEof));
    let mut offset = 0;
    assert_eq!(read_varint(&[0xFF; 11], &mut offset), Err(WireError::VarintOverflow));
    // Field 1 of the wire type 3.
    assert_eq!(parse_wire_fields(&[0x0B]).unwrap_err(), WireError::UnknownWireType(3));
    // Field 1 with four bytes, of which two are there.
    assert_eq!(parse_wire_fields(&[0x0D, 1, 2]).unwrap_err(), WireError::UnexpectedEof);
    // A model that is no UTF-8.
    let mut inner = Vec::new();
    write_length_delimited(&mut inner, 19, &[0xFF, 0xFE]);
    let mut out = Vec::new();
    write_length_delimited(&mut out, 1, &inner);
    assert_eq!(parse_gen_metadata(&out).unwrap_err(), WireError::InvalidString);
}

#[test]
fn lengths_beyond_the_buffer_are_errors() {
    let mut buf = Vec::new();
    write_key(&mut buf, 1, 2);
    write_varint(&mut buf, u64::MAX);
    let mut offset = 0;
    assert_eq!(next_wire_field(&buf, &mut offset).unwrap_err(), WireError::UnexpectedEof);
}

#[test]
fn fields_of_every_wire_type_are_read() {
    let mut buf = Vec::new();
    write_varint_field(&mut buf, 1, 7);
    write_key(&mut buf, 2, 1);
    buf.extend_from_slice(&[1, 2, 3, 4, 5, 6, 7, 8]);
    write_length_delimited(&mut buf, 3, b"abc");
    write_key(&mut buf, 4, 5);
    buf.extend_from_slice(&[9, 9, 9, 9]);
    let fields = parse_wire_fields(&buf).unwrap();
    assert_eq!(fields.len(), 4);
    assert_eq!((fields[0].tag, fields[0].wire_type, fields[0].varint), (1, 0, 7));
    assert_eq!((fields[1].tag, fields[1].data), (2, &[1u8, 2, 3, 4, 5, 6, 7, 8][..]));
    assert_eq!((fields[2].tag, fields[2].data), (3, &b"abc"[..]));
    assert_eq!((fields[3].tag, fields[3].data), (4, &[9u8, 9, 9, 9][..]));
    let mut offset = buf.len();
    assert!(next_wire_field(&buf, &mut offset).unwrap().is_none());
}

#[test]
fn token_blocks_keep_the_last_count() {
    let mut buf = Vec::new();
    write_varint_field(&mut buf, 2, 1);
    write_varint_field(&mut buf, 2, 5);
    write_varint_field(&mut buf, 9, 100);
    let tokens = parse_token_block(&buf).unwrap();
    assert_eq!(tokens, AntigravityTokens { input: 5, output: 0, cached: 0, thoughts: 0 });
    assert!(!tokens.is_empty());
    assert!(AntigravityTokens::default().is_empty());
}

#[test]
fn steps_give_their_time() {
    let bytes = build_test_step_metadata("u-1", 1_700_000_000);
    assert_eq!(parse_step_metadata(&bytes).unwrap(), Some(("u-1".to_string(), 1_700_000_000)));
    assert_eq!(parse_step_metadata(&[]).unwrap(), None);
}

// ---------------------------------------------------------------------------
// The import
// ---------------------------------------------------------------------------

#[test]
fn unmodified_conversations_are_not_read() {
    let cursor = SyncCursor { last_modified: 10, last_line_offset: 3 };
    assert!(conversation_unchanged(10, Some(cursor)));
    assert!(!conversation_unchanged(11, Some(cursor)));
    assert!(conversation_unchanged(0, None));
    assert!(!conversation_unchanged(1, None));

    let bytes = build_test_gen_metadata("u", "m", 1, 1, 0, 0);
    let db = conversation(vec![(0, bytes)], vec![]);
    let mut store = UsageStore::new();
    let sync = sync_single_antigravity_db(&mut store, 10, Some(cursor), &db);
    assert_eq!((sync.outcome.imported, sync.outcome.skipped), (0, 3));
    assert_eq!(sync.next_offset, None);
}

#[test]
fn the_offset_moves_past_the_last_row() {
    let a = build_test_gen_metadata("a", "m", 1, 1, 0, 0);
    let b = build_test_gen_metadata("b", "m", 1, 1, 0, 0);
    let db = conversation(vec![(4, a), (7, b)], vec![]);
    let plan = plan_antigravity_import(&db, 4);
    assert_eq!(plan.records.len(), 2);
    assert_eq!(plan.next_offset, 8);
    assert_eq!(plan.records[0].request_id, "antigravity:test-cascade-id:a");
    assert_eq!(plan.records[1].request_id, "antigravity:test-cascade-id:b");
    // Without a step, the time of the file counts.
    assert_eq!(plan.records[0].created_at, 1_700_000_000);
}

#[test]
fn known_requests_are_skipped() {
    let a = build_test_gen_metadata("a", "m", 1, 1, 0, 0);
    let b = build_test_gen_metadata("b", "m", 1, 1, 0, 0);
    let db = conversation(vec![(0, a), (1, b)], vec![]);
    let mut store = UsageStore::new();
    store.add_proxied("antigravity:test-cascade-id:a".to_string());
    let sync = sync_single_antigravity_db(&mut store, 1, None, &db);
    assert_eq!((sync.outcome.imported, sync.outcome.skipped), (1, 1));
    assert_eq!(sync.outcome.rows[0].request_id, "antigravity:test-cascade-id:b");
    assert_eq!(sync.outcome.positions, vec![1]);
}

#[test]
fn databases_without_generations_import_nothing() {
    let mut db = conversation(vec![], vec![]);
    db.has_gen_metadata = false;
    let mut store = UsageStore::new();
    let sync = sync_single_antigravity_db(&mut store, 5, None, &db);
    assert_eq!((sync.outcome.imported, sync.outcome.skipped), (0, 0));
    assert_eq!(sync.next_offset, Some(0));
}

#[test]
fn failed_databases_are_reported_and_deferred() {
    let result = sync_gemini_usage(vec![
        FileOutcome { path: "/a.db".to_string(), result: Ok(counts_only(2, 1)) },
        FileOutcome { path: "/b.db".to_string(), result: Err("locked".to_string()) },
    ]);
    assert_eq!((result.imported, result.skipped), (2, 1));
    assert_eq!((result.files_scanned, result.deferred_files), (2, 1));
    assert_eq!(result.errors, vec!["Antigravity 会话数据库解析失败 /b.db: locked".to_string()]);
}

#[test]
fn databases_are_listed_in_ascending_order() {
    let dirs = vec![
        dir(
            "/g/antigravity-cli",
            Some(vec![
                file("/g/antigravity-cli/b.db", "/g/antigravity-cli/b.db", "db"),
                file("/g/antigravity-cli/a.db", "/g/antigravity-cli/a.db", "db"),
            ]),
        ),
        dir(
            "/g/antigravity",
            Some(vec![
                file("/g/antigravity/z.db", "/g/antigravity/z.db", "db"),
                file("/g/antigravity/link.db", "/g/antigravity-cli/a.db", "db"),
            ]),
        ),
    ];
    // Name by name, `antigravity` stands before `antigravity-cli`.
    assert_eq!(
        collect_antigravity_db_files(&dirs),
        vec!["/g/antigravity/z.db", "/g/antigravity-cli/a.db", "/g/antigravity-cli/b.db"]
    );
}

#[test]
fn a_later_call_of_a_turn_is_imported_by_a_later_pass() {
    let modified: i64 = 1_788_000_500_000_000_000;
    let first_row = || build_test_gen_metadata("u", "gemini-3.8-flash", 200, 80, 50, 0);
    let second_row = || build_test_gen_metadata("u", "gemini-3.8-flash", 300, 90, 0, 0);
    let mut store = UsageStore::new();
    let db = conversation(vec![(0, first_row())], vec![]);
    let first = sync_single_antigravity_db(&mut store, modified, None, &db);
    assert_eq!(first.outcome.rows[0].request_id, "antigravity:test-cascade-id:u");

    let cursor = SyncCursor { last_modified: modified, last_line_offset: first.next_offset.unwrap() };
    let mut grown = conversation(vec![(1, second_row())], vec![]);
    grown.earlier = vec![GenRow::Row { idx: 0, data: first_row() }];
    let second = sync_single_antigravity_db(&mut store, modified + 1, Some(cursor), &grown);
    assert_eq!((second.outcome.imported, second.outcome.skipped), (1, 0));
    assert_eq!(second.outcome.rows[0].request_id, "antigravity:test-cascade-id:u:1");
    assert_eq!(second.next_offset, Some(2));

    // One pass over both rows gives the same ids.
    let both = conversation(vec![(0, first_row()), (1, second_row())], vec![]);
    let plan = plan_antigravity_import(&both, 0);
    assert_eq!(plan.records[0].request_id, "antigravity:test-cascade-id:u");
    assert_eq!(plan.records[1].request_id, "antigravity:test-cascade-id:u:1");
}

#[test]
fn earlier_rows_without_tokens_claim_no_uuid() {
    let empty = build_test_gen_metadata("u", "gemini-3.8-flash", 0, 0, 0, 0);
    let used = build_test_gen_metadata("u", "gemini-3.8-flash", 1, 2, 0, 0);
    let mut db = conversation(vec![(2, used)], vec![]);
    db.earlier = vec![GenRow::Unreadable, GenRow::Row { idx: 1, data: empty }];
    let plan = plan_antigravity_import(&db, 2);
    assert_eq!(plan.records[0].request_id, "antigravity:test-cascade-id:u");
}
