//! MCP servers of Gemini and the Antigravity IDE.

use session_usage::json::{lookup_entry, parse_json, Json, JsonNumber};
use session_usage::mcp::{
    float_timeout, merge_mcp_servers, read_mcp_servers_map_from_paths,
    set_mcp_servers_map_to_paths, unify_server, unwrap_nested_mcp_servers, write_server,
    write_servers, FloatTimeouts, McpError, McpServer,
};

fn entries(text: &str) -> Vec<(String, Json)> {
    match parse_json(text).expect("document") {
        Json::Object(e) => e,
        other => panic!("not an object: {other:?}"),
    }
}

fn has(e: &Vec<(String, Json)>, key: &str) -> bool {
    lookup_entry(e, key).is_some()
}

fn text_at<'a>(e: &'a Vec<(String, Json)>, key: &str) -> Option<&'a str> {
    lookup_entry(e, key).and_then(|v| v.as_str())
}

fn number_at(e: &Vec<(String, Json)>, key: &str) -> Option<u64> {
    lookup_entry(e, key).and_then(|v| v.as_u64())
}

const NO_FLOATS: FloatTimeouts =
    FloatTimeouts { startup_sec: 0, startup_ms: 0, tool_sec: 0, tool_ms: 0 };

fn server(id: &str, spec: &str) -> McpServer {
    McpServer {
        id: id.to_string(),
        spec: parse_json(spec).expect("document"),
        float_timeouts: NO_FLOATS,
    }
}

#[test]
fn test_unwrap_nested_mcp_servers_fixes_double_and_triple_nesting() {
    let double_nested = entries(
        r#"{"mcpServers":{"server-a":{"command":"uvx","args":["server-a"]}},"timeout":60000}"#,
    );
    let unnested = unwrap_nested_mcp_servers(&double_nested);
    assert_eq!(unnested.len(), 1);
    assert!(has(&unnested, "server-a"));
    assert!(!has(&unnested, "mcpServers"));
    assert!(!has(&unnested, "timeout"));

    let triple_nested = entries(
        r#"{"mcpServers":{"mcpServers":{"server-b":{"command":"npx","args":["server-b"]}}}}"#,
    );
    let unnested3 = unwrap_nested_mcp_servers(&triple_nested);
    assert_eq!(unnested3.len(), 1);
    assert!(has(&unnested3, "server-b"));
    assert!(!has(&unnested3, "mcpServers"));
}

#[test]
fn test_read_mcp_servers_map_ide_priority_merge() {
    let settings = r#"{
        "mcpServers": {
            "mcpServers": {
                "shared-server": {"command": "old-cmd", "args": ["v1"]},
                "settings-only": {"command": "settings-cmd"}
            }
        },
        "security": {"auth": {"selectedType": "oauth-personal"}}
    }"#;
    let ide = r#"{
        "mcpServers": {
            "shared-server": {"command": "new-ide-cmd", "args": ["v2"]},
            "ide-only": {"command": "ide-cmd"}
        }
    }"#;
    let map = read_mcp_servers_map_from_paths(Some(settings), Some(ide)).expect("read");
    assert_eq!(map.len(), 3);
    let shared = lookup_entry(&map, "shared-server").unwrap();
    assert_eq!(shared.get_str("command"), Some("new-ide-cmd"));
    assert_eq!(shared.get_str("type"), Some("stdio"));
    assert_eq!(
        lookup_entry(&map, "settings-only").unwrap().get_str("command"),
        Some("settings-cmd")
    );
    assert_eq!(lookup_entry(&map, "ide-only").unwrap().get_str("command"), Some("ide-cmd"));
}

#[test]
fn test_set_mcp_servers_map_writes_both_and_preserves_other_keys() {
    let settings = r#"{"security":{"auth":{"selectedType":"gemini-api-key"}}}"#;
    let servers = vec![server(
        "PaddleOCR-VL",
        r#"{"command":"uvx","args":["--from","paddleocr-mcp","paddleocr_mcp"],"type":"stdio"}"#,
    )];
    let files =
        set_mcp_servers_map_to_paths(&servers, Some(settings), Some(None)).expect("write");

    let settings_val: serde_json::Value = serde_json::from_str(&files.settings).unwrap();
    assert_eq!(settings_val["security"]["auth"]["selectedType"], "gemini-api-key");
    let s_mcp = settings_val["mcpServers"].as_object().unwrap();
    assert!(s_mcp.contains_key("PaddleOCR-VL"));
    assert!(!s_mcp.contains_key("mcpServers"));

    let ide_val: serde_json::Value = serde_json::from_str(&files.ide.unwrap()).unwrap();
    let ide_mcp = ide_val["mcpServers"].as_object().unwrap();
    assert!(ide_mcp.contains_key("PaddleOCR-VL"));
    assert_eq!(ide_mcp["PaddleOCR-VL"]["command"], "uvx");
    assert!(ide_mcp["PaddleOCR-VL"].get("type").is_none());
    assert_eq!(ide_mcp["PaddleOCR-VL"]["timeout"], 60000);
}

// ---------------------------------------------------------------------------
// Nesting
// ---------------------------------------------------------------------------

#[test]
fn the_later_of_two_servers_counts() {
    // Keys come in the order of their letters: `a` before `mcpServers` before `z`.
    let e = entries(
        r#"{"a":{"v":1},"mcpServers":{"a":{"v":2},"z":{"v":2}},"z":{"v":3},"n":{"v":4}}"#,
    );
    let flat = unwrap_nested_mcp_servers(&e);
    assert_eq!(lookup_entry(&flat, "a").unwrap().get("v").unwrap().as_u64(), Some(2));
    assert_eq!(lookup_entry(&flat, "z").unwrap().get("v").unwrap().as_u64(), Some(3));
    assert_eq!(flat.len(), 3);
    // What is flat stays.
    assert_eq!(unwrap_nested_mcp_servers(&flat), flat);
}

#[test]
fn a_scalar_under_the_key_is_left_out() {
    let e = entries(r#"{"mcpServers":5,"s":{}}"#);
    let flat = unwrap_nested_mcp_servers(&e);
    assert_eq!(flat.len(), 1);
    assert!(has(&flat, "s"));
}

// ---------------------------------------------------------------------------
// Reading
// ---------------------------------------------------------------------------

#[test]
fn servers_are_brought_into_the_unified_format() {
    let http = unify_server(entries(r#"{"httpUrl":"http://x","headers":{}}"#));
    assert_eq!(text_at(&http, "url"), Some("http://x"));
    assert_eq!(text_at(&http, "type"), Some("http"));
    assert!(!has(&http, "httpUrl"));
    assert!(has(&http, "headers"));
    let sse = unify_server(entries(r#"{"url":"http://y"}"#));
    assert_eq!(text_at(&sse, "type"), Some("sse"));
    let stdio = unify_server(entries(r#"{"url":"u","command":"c"}"#));
    assert_eq!(text_at(&stdio, "type"), Some("stdio"));
    let kept = unify_server(entries(r#"{"command":"c","type":"mine"}"#));
    assert_eq!(text_at(&kept, "type"), Some("mine"));
    let none = unify_server(entries(r#"{"x":1}"#));
    assert!(!has(&none, "type"));
}

#[test]
fn the_document_of_the_ide_may_be_the_servers_themselves() {
    let ide = parse_json(r#"{"s":{"command":"c"},"version":1}"#).unwrap();
    let map = merge_mcp_servers(None, Some(&ide));
    assert_eq!(map.len(), 1);
    assert_eq!(map[0].0, "s");
    let settings = parse_json(r#"{"s":{"command":"c"}}"#).unwrap();
    assert!(merge_mcp_servers(Some(&settings), None).is_empty());
}

#[test]
fn files_that_are_missing_have_no_servers() {
    assert!(read_mcp_servers_map_from_paths(None, None).unwrap().is_empty());
}

#[test]
fn files_that_are_no_documents_are_errors() {
    let settings = read_mcp_servers_map_from_paths(Some("{"), Some("{")).unwrap_err();
    assert!(matches!(settings, McpError::Settings(_)));
    let ide = read_mcp_servers_map_from_paths(Some("{}"), Some("{")).unwrap_err();
    assert!(matches!(ide, McpError::Ide(_)));
    assert_eq!(ide.validation_message(), None);
}

// ---------------------------------------------------------------------------
// Writing
// ---------------------------------------------------------------------------

#[test]
fn helper_keys_are_removed() {
    let e = entries(
        r#"{"command":"c","type":"stdio","enabled":true,"source":"s","id":"i","name":"n","description":"d","tags":[],"homepage":"h","docs":"o","env":{}}"#,
    );
    let w = write_server(e, NO_FLOATS);
    assert_eq!(w.len(), 3);
    assert!(has(&w, "command") && has(&w, "env"));
    assert_eq!(number_at(&w, "timeout"), Some(60_000));
}

#[test]
fn http_servers_have_their_address_under_another_key() {
    let w = write_server(entries(r#"{"type":"http","url":"http://x"}"#), NO_FLOATS);
    assert_eq!(text_at(&w, "httpUrl"), Some("http://x"));
    assert!(!has(&w, "url"));
    let back = unify_server(w);
    assert_eq!(text_at(&back, "url"), Some("http://x"));
    assert_eq!(text_at(&back, "type"), Some("http"));
    let sse = write_server(entries(r#"{"type":"sse","url":"http://x"}"#), NO_FLOATS);
    assert_eq!(text_at(&sse, "url"), Some("http://x"));
    assert_eq!(text_at(&unify_server(sse), "type"), Some("sse"));
}

#[test]
fn the_longer_timeout_counts() {
    let w = write_server(entries(r#"{"startup_timeout_sec":90,"tool_timeout_ms":5}"#), NO_FLOATS);
    assert_eq!(number_at(&w, "timeout"), Some(90_000));
    assert_eq!(w.len(), 1);
    let w = write_server(entries(r#"{"startup_timeout_ms":1,"tool_timeout_sec":2}"#), NO_FLOATS);
    assert_eq!(number_at(&w, "timeout"), Some(2000));
    // The milliseconds are looked at only where the seconds are no number.
    let w = write_server(
        entries(r#"{"tool_timeout_sec":70,"tool_timeout_ms":1}"#),
        NO_FLOATS,
    );
    assert_eq!(number_at(&w, "timeout"), Some(70_000));
    assert!(has(&w, "tool_timeout_ms"));
    let w = write_server(
        entries(r#"{"tool_timeout_sec":"x","tool_timeout_ms":70001}"#),
        NO_FLOATS,
    );
    assert_eq!(number_at(&w, "timeout"), Some(70_001));
    let w = write_server(
        entries(r#"{"startup_timeout_sec":-1,"tool_timeout_sec":-1}"#),
        NO_FLOATS,
    );
    assert_eq!(number_at(&w, "timeout"), Some(0));
}

#[test]
fn fractions_are_worked_out_beforehand() {
    let spec = parse_json(r#"{"server":{"tool_timeout_sec":90.5}}"#).unwrap();
    let n = float_timeout(&spec, "tool_timeout_sec").unwrap();
    assert_eq!(n.as_f64(), Some(90.5));
    assert!(float_timeout(&spec, "tool_timeout_ms").is_none());
    assert!(float_timeout(&parse_json("[]").unwrap(), "tool_timeout_sec").is_none());
    let floats = FloatTimeouts { tool_sec: 90_500, ..NO_FLOATS };
    let w = write_server(entries(r#"{"tool_timeout_sec":90.5}"#), floats);
    assert_eq!(number_at(&w, "timeout"), Some(90_500));
}

#[test]
fn servers_that_are_no_objects_are_errors() {
    let error = write_servers(&vec![server("ok", "{}"), server("bad", "3")]).unwrap_err();
    assert!(matches!(&error, McpError::NotAnObject(id) if id == "bad"));
    assert_eq!(error.validation_message(), Some("MCP 服务器 'bad' 不是对象".to_string()));
    let error = write_servers(&vec![server("in", r#"{"server":3}"#)]).unwrap_err();
    assert!(matches!(&error, McpError::ServerNotAnObject(id) if id == "in"));
    assert_eq!(
        error.validation_message(),
        Some("MCP 服务器 'in' server 字段不是对象".to_string())
    );
    let skipped = write_servers(&vec![server("mcpServers", "3")]).unwrap();
    assert!(skipped.is_empty());
}

#[test]
fn the_inner_server_is_written() {
    let out =
        write_servers(&vec![server("s", r#"{"id":"x","server":{"command":"c"}}"#)]).unwrap();
    let inner = out[0].1.as_object().unwrap();
    assert_eq!(text_at(inner, "command"), Some("c"));
    assert!(!has(inner, "server"));
}

#[test]
fn documents_are_replaced_where_they_are_no_objects() {
    let servers = vec![server("s", r#"{"command":"c"}"#)];
    let files =
        set_mcp_servers_map_to_paths(&servers, Some("[1]"), Some(Some("not json"))).unwrap();
    let read = read_mcp_servers_map_from_paths(
        Some(&files.settings),
        Some(&files.ide.unwrap()),
    )
    .unwrap();
    assert_eq!(read.len(), 1);
    assert_eq!(read[0].1.get_str("type"), Some("stdio"));
    assert_eq!(
        read[0].1.get("timeout"),
        Some(&Json::Number(JsonNumber::Unsigned(60_000)))
    );
    let error = set_mcp_servers_map_to_paths(&servers, Some("{"), None).unwrap_err();
    assert!(matches!(error, McpError::Settings(_)));
    assert!(set_mcp_servers_map_to_paths(&servers, None, None).unwrap().ide.is_none());
}

#[test]
fn texts_are_indented() {
    let files = set_mcp_servers_map_to_paths(&vec![], Some("{\"a\":1}"), None).unwrap();
    assert_eq!(files.settings, "{\n  \"a\": 1,\n  \"mcpServers\": {}\n}");
}

#[test]
fn written_files_are_read_back() {
    let servers = vec![
        server("remote", r#"{"type":"http","url":"https://one.example/mcp","enabled":true}"#),
        server("local", r#"{"type":"stdio","command":"uvx","args":["-q","\u00e9\n"],"env":{"K":"v"}}"#),
        server("events", r#"{"type":"sse","url":"https://two.example/sse"}"#),
    ];
    let old = r#"{"theme":"dark","mcpServers":{"gone":{"command":"x"}},"depth":[[[-1]]]}"#;
    let files = set_mcp_servers_map_to_paths(&servers, Some(old), Some(None)).expect("files");
    let ide = match &files.ide {
        Some(text) => text.as_str(),
        _ => panic!("no text for the IDE"),
    };
    let both = read_mcp_servers_map_from_paths(Some(&files.settings), Some(ide)).expect("servers");
    let alone = read_mcp_servers_map_from_paths(Some(&files.settings), None).expect("servers");
    for read in [&both, &alone] {
        assert_eq!(read.len(), 3);
        let remote = lookup_entry(read, "remote").and_then(|v| v.as_object()).expect("remote");
        assert_eq!(text_at(remote, "type"), Some("http"));
        assert_eq!(text_at(remote, "url"), Some("https://one.example/mcp"));
        assert!(!has(remote, "httpUrl") && !has(remote, "enabled"));
        let local = lookup_entry(read, "local").and_then(|v| v.as_object()).expect("local");
        assert_eq!(text_at(local, "type"), Some("stdio"));
        assert_eq!(text_at(local, "command"), Some("uvx"));
        let args = lookup_entry(local, "args").and_then(|v| v.as_array()).expect("args");
        assert_eq!(args[1].as_str(), Some("\u{e9}\n"));
        let events = lookup_entry(read, "events").and_then(|v| v.as_object()).expect("events");
        assert_eq!(text_at(events, "type"), Some("sse"));
        assert_eq!(text_at(events, "url"), Some("https://two.example/sse"));
    }
}

#[test]
fn floats_elsewhere_do_not_matter() {
    let servers = vec![server(
        "local",
        r#"{"type":"stdio","command":"uvx","args":["-q"],"env":{"RATE":"0.1"},"weight":0.1}"#,
    )];
    let old = r#"{"zoom":1.25,"theme":"dark"}"#;
    let files = set_mcp_servers_map_to_paths(&servers, Some(old), None).expect("files");
    let read = read_mcp_servers_map_from_paths(Some(&files.settings), None).expect("servers");
    let local = lookup_entry(&read, "local").and_then(|v| v.as_object()).expect("local");
    assert_eq!(text_at(local, "type"), Some("stdio"));
    assert_eq!(text_at(local, "command"), Some("uvx"));
    let env = lookup_entry(local, "env").and_then(|v| v.as_object()).expect("env");
    assert_eq!(text_at(env, "RATE"), Some("0.1"));
    assert!(matches!(lookup_entry(local, "weight"), Some(Json::Number(_))));
}
