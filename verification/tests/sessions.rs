//! Sessions of Gemini and Antigravity.

use session_usage::files::{pick_unique_files, picked_paths, DirListing, FileEntry};
use session_usage::json::Json;
use session_usage::paths::JoinedPath;
use session_usage::sessions::{
    clean_user_request, delete_session, extract_assistant_content_from_payload,
    extract_error_content_from_payload, extract_project_dir, names_bare_root, UrlParts, extract_step_timestamp,
    extract_user_prompt_from_payload, first_user_prompt, load_messages, parse_session,
    parse_json_session, pick_session_files, scan_sessions, session_format, workspace_urls, DeleteRequest, DeleteTarget,
    MessageTime, ScannedSession, SessionDb, SessionFile, SessionFormat, SessionHints, SessionMeta,
    StepRow, StepsError,
};
use vstd::hash_set::StringHashSet;

fn encode_varint(mut val: u64, buf: &mut Vec<u8>) {
    while val >= 0x80 {
        buf.push(((val & 0x7F) as u8) | 0x80);
        val >>= 7;
    }
    buf.push(val as u8);
}

fn encode_varint_field(tag: u32, val: u64, buf: &mut Vec<u8>) {
    encode_varint((tag as u64) << 3, buf);
    encode_varint(val, buf);
}

fn encode_len_delimited_field(tag: u32, data: &[u8], buf: &mut Vec<u8>) {
    encode_varint(((tag as u64) << 3) | 2, buf);
    encode_varint(data.len() as u64, buf);
    buf.extend_from_slice(data);
}

fn build_test_metadata(sec: i64, nanos: i64) -> Vec<u8> {
    let mut sub = Vec::new();
    encode_varint_field(1, sec as u64, &mut sub);
    encode_varint_field(2, nanos as u64, &mut sub);
    let mut out = Vec::new();
    encode_len_delimited_field(1, &sub, &mut out);
    out
}

fn build_test_user_payload(prompt: &str) -> Vec<u8> {
    let mut sub = Vec::new();
    encode_len_delimited_field(2, prompt.as_bytes(), &mut sub);
    let mut top = Vec::new();
    encode_len_delimited_field(19, &sub, &mut top);
    top
}

fn build_test_assistant_payload(text: &str, tool: Option<&str>) -> Vec<u8> {
    let mut sub = Vec::new();
    if !text.is_empty() {
        encode_len_delimited_field(1, text.as_bytes(), &mut sub);
    }
    if let Some(tname) = tool {
        let mut tool_sub = Vec::new();
        encode_len_delimited_field(2, tname.as_bytes(), &mut tool_sub);
        encode_len_delimited_field(7, &tool_sub, &mut sub);
    }
    let mut top = Vec::new();
    encode_len_delimited_field(20, &sub, &mut top);
    top
}

fn build_test_error_payload(err_msg: &str) -> Vec<u8> {
    let mut sub = Vec::new();
    encode_len_delimited_field(1, err_msg.as_bytes(), &mut sub);
    let mut top = Vec::new();
    encode_len_delimited_field(24, &sub, &mut top);
    top
}

fn step(step_type: i64, metadata: Vec<u8>, payload: Vec<u8>) -> StepRow {
    StepRow { step_type, metadata: Some(metadata), payload: Some(payload) }
}

fn db(session_id: &str, steps: Vec<StepRow>) -> SessionDb {
    SessionDb {
        has_steps: true,
        file_stem: Some(session_id.to_string()),
        cascade_id: Some(session_id.to_string()),
        trajectory_id: Some(format!("traj-{session_id}")),
        project_dir: None,
        steps: Ok(steps),
        modified_ms: Some(1),
    }
}

fn hints(summary: Option<String>) -> SessionHints {
    SessionHints { summary, created_at: None, last_active_at: None }
}

/// The session of a database, with its first prompt as the summary.
fn session_of(db: SessionDb, path: &str) -> Option<SessionMeta> {
    let summary = match &db.steps {
        Ok(rows) => first_user_prompt(rows),
        Err(_) => None,
    };
    parse_session(&SessionFile::Sqlite(Some(db)), &hints(summary), path)
}

#[test]
fn test_multiclient_scan_deduplication() {
    // `antigravity/conversations` links to `antigravity-local/conversations`.
    let entry = |path: &str, canonical: &str| FileEntry {
        path: path.to_string(),
        canonical: canonical.to_string(),
        extension: Some("db".to_string()),
    };
    let dir = |path: &str, e: FileEntry| DirListing { path: path.to_string(), files: Some(vec![e]) };
    let dirs = vec![
        dir("/cli", entry("/cli/session-cli-1.db", "/cli/session-cli-1.db")),
        dir("/ide", entry("/ide/session-ide-2.db", "/ide/session-ide-2.db")),
        dir("/local", entry("/local/session-local-3.db", "/local/session-local-3.db")),
        dir("/link", entry("/link/session-local-3.db", "/local/session-local-3.db")),
    ];
    let paths = picked_paths(&dirs, "db");
    assert_eq!(paths.len(), 3);

    let mut found = Vec::new();
    for (i, path) in paths.iter().enumerate() {
        let id = path.trim_end_matches(".db").rsplit('/').next().unwrap();
        let prompt = format!("Hello from {id}");
        let database = db(
            id,
            vec![step(
                14,
                build_test_metadata(1700000000 + 100 * i as i64, 0),
                build_test_user_payload(&prompt),
            )],
        );
        found.push(ScannedSession { meta: session_of(database, path), project_dir: None });
    }
    let sessions = scan_sessions(found);
    assert_eq!(sessions.len(), 3);
    // The most recent comes first.
    assert_eq!(sessions[0].session_id, "session-local-3");
    assert_eq!(sessions[1].session_id, "session-ide-2");
    assert_eq!(sessions[2].session_id, "session-cli-1");
}

#[test]
fn test_prompt_summary_extraction() {
    let wrapped_prompt = "<USER_REQUEST>\n请问 Antigravity 插件如何配置？\n</USER_REQUEST>\n<ADDITIONAL_METADATA>\ntime\n</ADDITIONAL_METADATA>";
    let database = db(
        "session-test-summary",
        vec![
            step(
                14,
                build_test_metadata(1720000000, 123456789),
                build_test_user_payload(wrapped_prompt),
            ),
            step(
                15,
                build_test_metadata(1720000010, 0),
                build_test_assistant_payload("配置说明如下", Some("read_config")),
            ),
        ],
    );
    let meta = session_of(database, "/session-test-summary.db").expect("parse session");
    assert_eq!(meta.session_id, "session-test-summary");
    assert_eq!(meta.title.as_deref(), Some("请问 Antigravity 插件如何配置？"));
    assert_eq!(meta.summary.as_deref(), Some("请问 Antigravity 插件如何配置？"));
    assert_eq!(meta.created_at, Some(1720000000123));
    assert_eq!(meta.last_active_at, Some(1720000010000));
    assert_eq!(
        meta.resume_command.as_deref(),
        Some("agy --conversation session-test-summary")
    );
    assert_eq!(meta.provider_id, "gemini");
    assert_eq!(meta.source_path.as_deref(), Some("/session-test-summary.db"));
}

fn request(path: &str, stem: &str, id: &str) -> DeleteRequest {
    DeleteRequest {
        session_id: id.to_string(),
        path: path.to_string(),
        path_without_extension: path.trim_end_matches(".db").to_string(),
        file_stem: stem.to_string(),
        grandparent: Some("/t".to_string()),
        root: "/t".to_string(),
        gemini_dir: "/home/.gemini".to_string(),
    }
}

#[test]
fn test_nonexistent_and_corrupt_files_tolerance() {
    assert!(parse_session(&SessionFile::Missing, &hints(None), "/does-not-exist.db").is_none());
    assert!(load_messages(&SessionFile::Missing, "/does-not-exist.db").is_err());
    let missing = request("/does-not-exist.db", "does-not-exist", "any-id");
    assert!(delete_session(&missing, &DeleteTarget::Missing).is_err());

    // A file that is no database can be opened, but has no tables.
    let mut corrupt = db("corrupt", vec![]);
    corrupt.has_steps = false;
    corrupt.steps = Err(StepsError::Prepare("file is not a database".to_string()));
    let file = SessionFile::Sqlite(Some(corrupt));
    assert!(parse_session(&file, &hints(None), "/corrupt.db").is_none());
    assert!(load_messages(&file, "/corrupt.db").is_err());
    assert!(parse_session(&SessionFile::Sqlite(None), &hints(None), "/corrupt.db").is_none());
    assert!(load_messages(&SessionFile::Sqlite(None), "/corrupt.db").is_err());
}

fn joined(path: &JoinedPath) -> String {
    let mut out = path.base.clone();
    for part in &path.parts {
        out.push('/');
        out.push_str(part);
    }
    out
}

#[test]
fn test_delete_session_cleans_db_wal_shm_and_brain() {
    let r = request("/t/conversations/test-del-123.db", "test-del-123", "test-del-123");
    let target = DeleteTarget::Sqlite(Some("test-del-123".to_string()));
    let plan = delete_session(&r, &target).expect("delete");
    assert_eq!(plan.session_file, "/t/conversations/test-del-123.db");
    assert!(plan.other_files.contains(&"/t/conversations/test-del-123.db-wal".to_string()));
    assert!(plan.other_files.contains(&"/t/conversations/test-del-123.db-shm".to_string()));
    let dirs: Vec<String> = plan.directories.iter().map(joined).collect();
    assert!(dirs.contains(&"/t/brain/test-del-123".to_string()));
    assert!(dirs.contains(&"/home/.gemini/antigravity-ide/brain/test-del-123".to_string()));
    assert_eq!(dirs.len(), 6);
}

#[test]
fn test_load_messages_from_steps() {
    let database = db(
        "session-msgs",
        vec![
            step(
                14,
                build_test_metadata(1700000001, 0),
                build_test_user_payload("你好，帮我写个代码"),
            ),
            step(
                15,
                build_test_metadata(1700000005, 0),
                build_test_assistant_payload("好，我正在读取文件", Some("view_file")),
            ),
            step(
                17,
                build_test_metadata(1700000010, 0),
                build_test_error_payload("执行失败: 400 Bad Request"),
            ),
        ],
    );
    let msgs = load_messages(&SessionFile::Sqlite(Some(database)), "/session-msgs.db")
        .expect("load messages");
    assert_eq!(msgs.len(), 3);

    assert_eq!(msgs[0].role, "user");
    assert_eq!(msgs[0].content, "你好，帮我写个代码");
    assert!(matches!(msgs[0].time, MessageTime::Millis(1700000001000)));

    assert_eq!(msgs[1].role, "assistant");
    assert!(msgs[1].content.contains("好，我正在读取文件"));
    assert!(msgs[1].content.contains("[Tool: view_file]"));
    assert!(matches!(msgs[1].time, MessageTime::Millis(1700000005000)));

    assert_eq!(msgs[2].role, "assistant");
    assert!(msgs[2].content.contains("执行失败: 400 Bad Request"));
    assert!(matches!(msgs[2].time, MessageTime::Millis(1700000010000)));
}

#[test]
fn test_legacy_json_backward_compatibility() {
    let content = r#"{
      "sessionId": "gemini-legacy-123",
      "startTime": "2026-03-06T10:17:58.000Z",
      "lastUpdated": "2026-03-06T10:20:00.000Z",
      "messages": [
        {
          "id": "msg-1",
          "timestamp": "2026-03-06T10:17:58.000Z",
          "type": "user",
          "content": "hello legacy"
        },
        {
          "id": "msg-2",
          "timestamp": "2026-03-06T10:18:00.000Z",
          "type": "gemini",
          "content": "hello response"
        }
      ]
    }"#;
    let legacy = parse_json_session(content).expect("legacy document");
    let file = SessionFile::LegacyJson(Ok(content.to_string()));
    let meta = parse_session(&file, &hints(legacy.first_prompt), "/session-legacy.json")
        .expect("parse legacy session");
    assert_eq!(meta.session_id, "gemini-legacy-123");
    assert_eq!(meta.title.as_deref(), Some("hello legacy"));

    let msgs = load_messages(&file, "/session-legacy.json").expect("load legacy messages");
    assert_eq!(msgs.len(), 2);
    assert_eq!(msgs[0].role, "user");
    assert_eq!(msgs[1].role, "assistant");
    match &msgs[0].time {
        MessageTime::Document(Json::Text(t)) => assert_eq!(t, "2026-03-06T10:17:58.000Z"),
        other => panic!("no time: {other:?}"),
    }

    let r = request("/session-legacy.json", "session-legacy", "gemini-legacy-123");
    let target = DeleteTarget::LegacyJson(Some(content.to_string()));
    let plan = delete_session(&r, &target).expect("delete");
    assert_eq!(plan.session_file, "/session-legacy.json");
    assert!(plan.other_files.is_empty());
    assert!(plan.directories.is_empty());
}

// ---------------------------------------------------------------------------
// Payloads
// ---------------------------------------------------------------------------

#[test]
fn prompts_are_taken_out_of_their_tags() {
    assert_eq!(clean_user_request("  hi  "), "hi");
    assert_eq!(clean_user_request("<USER_REQUEST> a b </USER_REQUEST> c"), "a b");
    assert_eq!(clean_user_request("x <USER_REQUEST>open"), "open");
    assert_eq!(clean_user_request("</USER_REQUEST><USER_REQUEST> a</USER_REQUEST>b"), "a");
    let payload = build_test_user_payload("<USER_REQUEST>q</USER_REQUEST>");
    assert_eq!(extract_user_prompt_from_payload(&payload), Some("q".to_string()));
    assert_eq!(extract_user_prompt_from_payload(&[0xFF]), None);
}

#[test]
fn tagged_blocks_are_taken_out_of_prompts() {
    let text = "hi\n<ADDITIONAL_METADATA>\ntime\n</ADDITIONAL_METADATA>";
    assert_eq!(clean_user_request(text), "hi");
    assert_eq!(clean_user_request("<ADDITIONAL_METADATA>a</ADDITIONAL_METADATA> b"), "b");
    assert_eq!(clean_user_request("a <ADDITIONAL_METADATA> open"), "a");
    assert_eq!(clean_user_request("a </ADDITIONAL_METADATA> b"), "a  b");
    assert_eq!(clean_user_request("a <USER_STATE>x</USER_STATE>b"), "a b");
    assert_eq!(
        clean_user_request("a<ADDITIONAL_<X_Y></X_Y>METADATA>b</ADDITIONAL_METADATA>c"),
        "ac"
    );
    // Other angle brackets are what the user wrote.
    for kept in ["Vec<T> and <div>x</div>", "set <YOUR_API_KEY> here", "1 < 2", "</X_Y>", "<__"] {
        assert_eq!(clean_user_request(kept), kept);
    }
}

#[test]
fn tags_that_the_user_wrote_stay_in_a_wrapped_prompt() {
    assert_eq!(
        clean_user_request("<USER_REQUEST>fix <MY_TAG>x</MY_TAG> please</USER_REQUEST>"),
        "fix <MY_TAG>x</MY_TAG> please"
    );
    assert_eq!(
        clean_user_request("<USER_REQUEST></USER_RE<A_B>x</A_B>QUEST></USER_REQUEST>"),
        "</USER_RE<A_B>x</A_B>QUEST>"
    );
    assert_eq!(
        clean_user_request(
            "<USER_REQUEST>\na <ADDITIONAL_METADATA> b\n</USER_REQUEST>\n<ADDITIONAL_METADATA>c</ADDITIONAL_METADATA>"
        ),
        "a <ADDITIONAL_METADATA> b"
    );
}

#[test]
fn hints_count_only_where_the_file_has_what_they_are_made_of() {
    let database = db("s1", vec![step(1, build_test_metadata(5, 0), vec![])]);
    let file = SessionFile::Sqlite(Some(database));
    let meta = parse_session(&file, &hints(Some("other".to_string())), "/s1.db").expect("session");
    assert_eq!(meta.title.as_deref(), Some("Session s1"));

    let legacy = SessionFile::LegacyJson(Ok(r#"{"sessionId":"l","startTime":"t"}"#.to_string()));
    let given = SessionHints {
        summary: Some("other".to_string()),
        created_at: Some(3),
        last_active_at: Some(9),
    };
    let meta = parse_session(&legacy, &given, "/l.json").expect("session");
    assert_eq!(meta.title, None);
    assert_eq!((meta.created_at, meta.last_active_at), (Some(3), Some(3)));
}

#[test]
fn step_times_are_milliseconds() {
    assert_eq!(extract_step_timestamp(&build_test_metadata(5, 999_999_999)), Some(5999));
    assert_eq!(extract_step_timestamp(&[]), None);
}

#[test]
fn contents_of_payloads() {
    let text = extract_assistant_content_from_payload(&build_test_assistant_payload("", Some("t")));
    assert_eq!(text, Some("[Tool: t]".to_string()));
    assert_eq!(extract_assistant_content_from_payload(&[]), None);
    let error = extract_error_content_from_payload(&build_test_error_payload("boom"));
    assert!(error.unwrap().contains("boom"));
}

#[test]
fn project_directories_are_file_urls() {
    let mut blob = Vec::new();
    encode_len_delimited_field(7, b"https://example.com/x", &mut blob);
    encode_len_delimited_field(7, b"file:///home/a%20b", &mut blob);
    encode_len_delimited_field(7, b"file:///later", &mut blob);
    assert_eq!(
        workspace_urls(&blob),
        vec!["https://example.com/x", "file:///home/a%20b", "file:///later"]
    );
    assert_eq!(extract_project_dir(Some(&blob)), Some("/home/a b".to_string()));
    assert_eq!(extract_project_dir(None), None);
    assert_eq!(extract_project_dir(Some(&[])), None);
}

#[test]
fn urls_of_a_bare_drive_or_host_are_passed_over() {
    let dir = |url: &str| {
        let mut blob = Vec::new();
        encode_len_delimited_field(7, url.as_bytes(), &mut blob);
        encode_len_delimited_field(7, b"file:///home", &mut blob);
        extract_project_dir(Some(&blob)).expect("directory")
    };
    for passed in [
        "file:///C:",
        "file:///c%3A",
        "file:///c%3a",
        "http://localhost/C:",
        "file://host",
        "file://host/",
        "file://host//x",
        "file://host/%2Fx",
        "file://host/%5cx",
        "no url",
    ] {
        assert_eq!(dir(passed), "/home", "{}", passed);
    }
    assert_eq!(dir("file:///x"), "/x");
    assert_eq!(dir("file:///C"), "/C");
    assert_eq!(dir("file://localhost/y"), "/y");
    assert_eq!(dir("file:///C:/x"), "/C:/x");
}

#[test]
fn bare_roots_are_told_from_directories() {
    let bare = |scheme: &str, host: Option<&str>, path: &str| {
        names_bare_root(&UrlParts {
            scheme: scheme.to_string(),
            host: host.map(str::to_string),
            path: path.to_string(),
        })
    };
    assert!(bare("file", None, "/C:") && bare("http", Some("localhost"), "/z%3A"));
    assert!(!bare("file", None, "/C:/") && !bare("file", None, "/1:") && !bare("file", None, "/C%3"));
    assert!(bare("file", Some("host"), "/") && bare("file", Some("host"), "//share"));
    assert!(!bare("file", Some("host"), "/share") && !bare("file", Some("host"), "/%2e"));
    assert!(!bare("http", Some("host"), "/"));
}

// ---------------------------------------------------------------------------
// Lists
// ---------------------------------------------------------------------------

#[test]
fn formats_follow_the_extension() {
    assert_eq!(session_format(Some("json")), SessionFormat::LegacyJson);
    assert_eq!(session_format(Some("db")), SessionFormat::Sqlite);
    assert_eq!(session_format(None), SessionFormat::Sqlite);
}

#[test]
fn ids_fall_back() {
    let mut database = db("stem", vec![step(14, build_test_metadata(1, 0), vec![])]);
    database.cascade_id = Some("  ".to_string());
    database.trajectory_id = Some("traj".to_string());
    let meta = session_of(database, "/x.db");
    assert_eq!(meta.map(|m| m.session_id), Some("traj".to_string()));
}

fn listed(id: &str, active: Option<i64>) -> ScannedSession {
    let meta = SessionMeta {
        provider_id: "gemini".to_string(),
        session_id: id.to_string(),
        title: None,
        summary: None,
        project_dir: None,
        created_at: None,
        last_active_at: active,
        source_path: None,
        resume_command: None,
    };
    ScannedSession { meta: Some(meta), project_dir: None }
}

#[test]
fn sessions_are_sorted_and_ties_keep_their_order() {
    let list = scan_sessions(vec![
        listed("a", Some(5)),
        listed("b", Some(7)),
        listed("c", Some(5)),
        listed("d", None),
        ScannedSession { meta: None, project_dir: None },
    ]);
    let ids: Vec<&str> = list.iter().map(|s| s.session_id.as_str()).collect();
    assert_eq!(ids, vec!["b", "a", "c", "d"]);
}

#[test]
fn sessions_are_deleted_under_their_own_id_only() {
    let r = request("/t/c/stem.db", "stem", "other");
    let error = delete_session(&r, &DeleteTarget::Sqlite(None)).unwrap_err();
    assert_eq!(error, "Gemini session ID mismatch: expected other, file stem is stem");
    let by_cascade = DeleteTarget::Sqlite(Some("other".to_string()));
    assert!(delete_session(&r, &by_cascade).is_ok());
    let legacy = DeleteTarget::LegacyJson(Some("{\"sessionId\":\"mine\"}".to_string()));
    let error = delete_session(&r, &legacy).unwrap_err();
    assert_eq!(error, "Gemini session ID mismatch: expected other, found mine");
    let error = delete_session(&r, &DeleteTarget::LegacyJson(None)).unwrap_err();
    assert_eq!(error, "Failed to parse Gemini session metadata: /t/c/stem.db");
    let error = delete_session(&r, &DeleteTarget::Missing).unwrap_err();
    assert_eq!(error, "Session file not found: /t/c/stem.db");
}

#[test]
fn messages_that_cannot_be_loaded_say_why() {
    let bad = SessionFile::LegacyJson(Err("denied".to_string()));
    assert_eq!(load_messages(&bad, "/p").unwrap_err(), "Failed to read session: denied");
    let mut database = db("q", vec![]);
    database.steps = Err(StepsError::Query("busy".to_string()));
    let file = SessionFile::Sqlite(Some(database));
    assert_eq!(load_messages(&file, "/p").unwrap_err(), "Failed to query steps: busy");
    assert!(load_messages(&SessionFile::LegacyJson(Ok("{".to_string())), "/p").is_err());
}

#[test]
fn files_seen_before_are_not_picked_again() {
    let dirs = vec![DirListing {
        path: "/d".to_string(),
        files: Some(vec![FileEntry {
            path: "/d/a.db".to_string(),
            canonical: "/real/a.db".to_string(),
            extension: Some("db".to_string()),
        }]),
    }];
    let mut seen = StringHashSet::new();
    assert_eq!(pick_unique_files(&dirs, "db", &mut seen), vec![(0, 0)]);
    assert!(pick_unique_files(&dirs, "db", &mut seen).is_empty());
}

#[test]
fn a_file_in_two_places_is_one_session() {
    let entry = |path: &str, canonical: &str, extension: &str| FileEntry {
        path: path.to_string(),
        canonical: canonical.to_string(),
        extension: Some(extension.to_string()),
    };
    let conversations = vec![
        DirListing { path: "/gone".to_string(), files: None },
        DirListing {
            path: "/a".to_string(),
            files: Some(vec![
                entry("/a/x.db", "/real/x", "db"),
                entry("/a/x.json", "/real/y", "json"),
                entry("/a/z.db", "/real/x", "db"),
            ]),
        },
    ];
    let chats = vec![DirListing {
        path: "/tmp/p/chats".to_string(),
        files: Some(vec![
            entry("/tmp/p/chats/1.json", "/real/x", "json"),
            entry("/tmp/p/chats/2.json", "/real/w", "json"),
        ]),
    }];
    let picked = pick_session_files(&conversations, &chats);
    assert_eq!(picked.conversations, vec![(1, 0)]);
    assert_eq!(picked.chats, vec![(0, 1)]);
}
