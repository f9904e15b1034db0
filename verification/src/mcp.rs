//! MCP servers in the configuration of Gemini and of the Antigravity IDE.
//!
//! Both programs keep their servers under `mcpServers`, without a `type` and
//! with the address of an HTTP server under `httpUrl`. The unified format has
//! the `type` and keeps every address under `url`.

use crate::alike;
use crate::entries;
use crate::entries::{copy_entries, put_key, put_keys, remove_key};
use crate::json;
use crate::json::{copy_json, lookup_entry, parse_json, pretty_json, Json, JsonNumber};
use crate::text;
use vstd::prelude::*;
use vstd::string::*;

verus! {

// ---------------------------------------------------------------------------
// Errors
// ---------------------------------------------------------------------------

/// Why servers could not be read or written.
#[derive(Debug)]
pub enum McpError {
    /// The settings are no JSON document.
    Settings(String),
    /// The configuration of the IDE is no JSON document.
    Ide(String),
    /// The server of this id is no object.
    NotAnObject(String),
    /// What stands under `server` in the server of this id is no object.
    ServerNotAnObject(String),
}

/// Why servers could not be read or written.
pub ghost enum ErrorModel {
    Settings(Seq<char>),
    Ide(Seq<char>),
    NotAnObject(Seq<char>),
    ServerNotAnObject(Seq<char>),
}

impl View for McpError {
    type V = ErrorModel;

    open spec fn view(&self) -> ErrorModel {
        match *self {
            McpError::Settings(e) => ErrorModel::Settings(e@),
            McpError::Ide(e) => ErrorModel::Ide(e@),
            McpError::NotAnObject(id) => ErrorModel::NotAnObject(id@),
            McpError::ServerNotAnObject(id) => ErrorModel::ServerNotAnObject(id@),
        }
    }
}

impl McpError {
    /// What is wrong with a server, where that is the error.
    pub fn validation_message(&self) -> (r: Option<String>)
        ensures
            match (r, self@) {
                (Some(s), ErrorModel::NotAnObject(id)) => s@ == "MCP 服务器 '"@ + id + "' 不是对象"@,
                (Some(s), ErrorModel::ServerNotAnObject(id)) => s@ == "MCP 服务器 '"@ + id
                    + "' server 字段不是对象"@,
                (None, ErrorModel::NotAnObject(_)) => false,
                (None, ErrorModel::ServerNotAnObject(_)) => false,
                (r, _) => r is None,
            },
    {
        match self {
            McpError::NotAnObject(id) => Some(
                text::concat3("MCP 服务器 '", id.as_str(), "' 不是对象"),
            ),
            McpError::ServerNotAnObject(id) => Some(
                text::concat3("MCP 服务器 '", id.as_str(), "' server 字段不是对象"),
            ),
            _ => None,
        }
    }
}

// ---------------------------------------------------------------------------
// Nested servers
// ---------------------------------------------------------------------------

/// The servers among some entries: those that are objects. An object under
/// `mcpServers` is not a server but holds further ones, to any depth. Of two
/// servers with one id the later counts.
pub open spec fn unwrapped(e: Seq<(Seq<char>, json::JsonModel)>) -> Seq<
    (Seq<char>, json::JsonModel),
>
    decreases e,
{
    if e.len() == 0 {
        seq![]
    } else {
        let before = unwrapped(e.subrange(0, e.len() - 1));
        let last = e[e.len() - 1];
        match last.1 {
            json::JsonModel::Object(nested) => if last.0 == "mcpServers"@ {
                entries::put_all(before, unwrapped(nested))
            } else {
                entries::put(before, last.0, last.1)
            },
            _ => before,
        }
    }
}

/// Flattens servers that are nested under `mcpServers`, and leaves out what is
/// no object.
pub fn unwrap_nested_mcp_servers(obj: &Vec<(String, Json)>) -> (r: Vec<(String, Json)>)
    ensures
        json::entry_models(r@) == unwrapped(json::entry_models(obj@)),
    decreases obj,
{
    let ghost models = json::entry_models(obj@);
    let mut out: Vec<(String, Json)> = Vec::new();
    let mut i: usize = 0;
    assert(models.subrange(0, 0) == Seq::<(Seq<char>, json::JsonModel)>::empty());
    assert(json::entry_models(out@) == Seq::<(Seq<char>, json::JsonModel)>::empty());
    while i < obj.len()
        invariant
            models == json::entry_models(obj@),
            i <= obj@.len(),
            json::entry_models(out@) == unwrapped(models.subrange(0, i as int)),
        decreases obj@.len() - i,
    {
        let ghost taken = models.subrange(0, i + 1);
        assert(taken.subrange(0, i as int) == models.subrange(0, i as int));
        assert(taken[i as int] == models[i as int]);
        if let Json::Object(nested) = &obj[i].1 {
            proof {
                json::lemma_object_model(*nested);
            }
            if text::same_text(obj[i].0.as_str(), "mcpServers") {
                assert(decreases_to!(*obj => obj@));
                assert(decreases_to!(obj@ => obj@[i as int]));
                assert(decreases_to!(obj@[i as int] => obj@[i as int].1));
                assert(decreases_to!(obj@[i as int].1 => obj@[i as int].1->Object_0));
                let inner = unwrap_nested_mcp_servers(nested);
                out = put_keys(out, inner);
            } else {
                out = put_key(out, obj[i].0.as_str(), copy_json(&obj[i].1));
            }
        } else {
            assert(!(obj@[i as int].1@ is Object));
        }
        i = i + 1;
    }
    assert(models.subrange(0, obj@.len() as int) == models);
    out
}

// ---------------------------------------------------------------------------
// Reading
// ---------------------------------------------------------------------------

/// The servers of the settings.
pub open spec fn settings_servers(root: Option<json::JsonModel>) -> Seq<
    (Seq<char>, json::JsonModel),
> {
    match json::opt_field(root, "mcpServers"@) {
        Some(json::JsonModel::Object(e)) => unwrapped(e),
        _ => seq![],
    }
}

/// The servers of the configuration of the IDE: those under `mcpServers`, or
/// where nothing stands there, those of the document itself.
pub open spec fn ide_servers(root: Option<json::JsonModel>) -> Seq<(Seq<char>, json::JsonModel)> {
    match (json::opt_field(root, "mcpServers"@), root) {
        (Some(json::JsonModel::Object(e)), _) => unwrapped(e),
        (_, Some(json::JsonModel::Object(e))) => unwrapped(e),
        _ => seq![],
    }
}

/// Whether some entries have a key.
pub open spec fn has_key(e: Seq<(Seq<char>, json::JsonModel)>, key: Seq<char>) -> bool {
    json::lookup(e, key) is Some
}

/// The entries of a server with the address of an HTTP server under `url`.
pub open spec fn with_plain_url(e: Seq<(Seq<char>, json::JsonModel)>) -> Seq<
    (Seq<char>, json::JsonModel),
> {
    match json::lookup(e, "httpUrl"@) {
        Some(url) => entries::put(
            entries::put(entries::without(e, "httpUrl"@), "url"@, url),
            "type"@,
            json::JsonModel::Text("http"@),
        ),
        None => e,
    }
}

/// The entries of a server in the unified format.
pub open spec fn unified_entries(e: Seq<(Seq<char>, json::JsonModel)>) -> Seq<
    (Seq<char>, json::JsonModel),
> {
    let plain = with_plain_url(e);
    if has_key(plain, "type"@) {
        plain
    } else if has_key(plain, "command"@) {
        entries::put(plain, "type"@, json::JsonModel::Text("stdio"@))
    } else if has_key(plain, "url"@) {
        entries::put(plain, "type"@, json::JsonModel::Text("sse"@))
    } else {
        plain
    }
}

/// A server in the unified format.
pub open spec fn unified(server: json::JsonModel) -> json::JsonModel {
    match server {
        json::JsonModel::Object(e) => json::JsonModel::Object(unified_entries(e)),
        other => other,
    }
}

/// Servers in the unified format.
pub open spec fn unified_all(servers: Seq<(Seq<char>, json::JsonModel)>) -> Seq<
    (Seq<char>, json::JsonModel),
> {
    Seq::new(servers.len(), |i: int| (servers[i].0, unified(servers[i].1)))
}

/// The servers of both documents in the unified format. Those of the IDE have
/// priority.
pub open spec fn merged_servers(
    settings: Option<json::JsonModel>,
    ide: Option<json::JsonModel>,
) -> Seq<(Seq<char>, json::JsonModel)> {
    unified_all(entries::put_all(settings_servers(settings), ide_servers(ide)))
}

fn has_key_in(e: &Vec<(String, Json)>, key: &str) -> (r: bool)
    ensures
        r == has_key(json::entry_models(e@), key@),
{
    lookup_entry(e, key).is_some()
}

fn plain_url(e: Vec<(String, Json)>) -> (r: Vec<(String, Json)>)
    ensures
        json::entry_models(r@) == with_plain_url(json::entry_models(e@)),
{
    let url = match lookup_entry(&e, "httpUrl") {
        Some(url) => copy_json(url),
        None => {
            return e;
        },
    };
    let rest = remove_key(e, "httpUrl");
    let plain = put_key(rest, "url", url);
    put_key(plain, "type", Json::Text("http".to_owned()))
}

/// Brings a server into the unified format.
pub fn unify_server(e: Vec<(String, Json)>) -> (r: Vec<(String, Json)>)
    ensures
        json::entry_models(r@) == unified_entries(json::entry_models(e@)),
{
    let plain = plain_url(e);
    if has_key_in(&plain, "type") {
        plain
    } else if has_key_in(&plain, "command") {
        put_key(plain, "type", Json::Text("stdio".to_owned()))
    } else if has_key_in(&plain, "url") {
        put_key(plain, "type", Json::Text("sse".to_owned()))
    } else {
        plain
    }
}

fn unify_all(servers: Vec<(String, Json)>) -> (r: Vec<(String, Json)>)
    ensures
        json::entry_models(r@) == unified_all(json::entry_models(servers@)),
{
    let ghost all = servers@;
    let mut out: Vec<(String, Json)> = Vec::new();
    for entry in it: servers
        invariant
            it.seq() == all,
            out@.len() == it.index(),
            forall|k: int|
                0 <= k < it.index() ==> (#[trigger] out@[k]).0@ == all[k].0@ && out@[k].1@ == unified(
                    all[k].1@,
                ),
    {
        let (id, server) = entry;
        match server {
            Json::Object(e) => {
                proof {
                    json::lemma_object_model(e);
                }
                let u = unify_server(e);
                proof {
                    json::lemma_object_model(u);
                }
                out.push((id, Json::Object(u)));
            },
            other => {
                assert(!(other@ is Object));
                out.push((id, other));
            },
        }
    }
    assert(json::entry_models(out@) == unified_all(json::entry_models(all)));
    out
}

fn object_under<'a>(root: Option<&'a Json>, key: &str) -> (r: Option<&'a Vec<(String, Json)>>)
    ensures
        match (r, json::opt_field(json::opt_model(root), key@)) {
            (Some(e), Some(json::JsonModel::Object(m))) => json::entry_models(e@) == m,
            (Some(_), _) => false,
            (None, Some(json::JsonModel::Object(_))) => false,
            (None, _) => true,
        },
{
    match root {
        Some(root) => match root.get(key) {
            Some(v) => v.as_object(),
            None => None,
        },
        None => None,
    }
}

/// Reads the servers of both documents in the unified format.
pub fn merge_mcp_servers(settings: Option<&Json>, ide: Option<&Json>) -> (r: Vec<(String, Json)>)
    ensures
        json::entry_models(r@) == merged_servers(json::opt_model(settings), json::opt_model(ide)),
{
    let none: Vec<(String, Json)> = Vec::new();
    assert(json::entry_models(none@) == Seq::<(Seq<char>, json::JsonModel)>::empty());
    let first = match object_under(settings, "mcpServers") {
        Some(e) => unwrap_nested_mcp_servers(e),
        None => none,
    };
    let empty: Vec<(String, Json)> = Vec::new();
    assert(json::entry_models(empty@) == Seq::<(Seq<char>, json::JsonModel)>::empty());
    let second = match object_under(ide, "mcpServers") {
        Some(e) => unwrap_nested_mcp_servers(e),
        None => match ide {
            Some(root) => match root.as_object() {
                Some(e) => unwrap_nested_mcp_servers(e),
                None => empty,
            },
            None => empty,
        },
    };
    unify_all(put_keys(first, second))
}

/// The document of a file, where there is one.
pub open spec fn file_document(file: Option<Seq<char>>) -> Result<
    Option<json::JsonModel>,
    Seq<char>,
> {
    match file {
        Some(content) => match json::json_document(content) {
            Ok(root) => Ok(Some(root)),
            Err(e) => Err(e),
        },
        None => Ok(None),
    }
}

fn read_file(file: Option<&str>) -> (r: Result<Option<Json>, String>)
    ensures
        match r {
            Ok(Some(root)) => file_document(json::opt_str(file)) == Ok::<
                Option<json::JsonModel>,
                Seq<char>,
            >(Some(root@)) && alike::is_regular(root@),
            Ok(None) => file_document(json::opt_str(file)) == Ok::<
                Option<json::JsonModel>,
                Seq<char>,
            >(None),
            Err(e) => file_document(json::opt_str(file)) == Err::<
                Option<json::JsonModel>,
                Seq<char>,
            >(e@),
        },
{
    match file {
        Some(content) => match parse_json(content) {
            Ok(root) => Ok(Some(root)),
            Err(e) => Err(e),
        },
        None => Ok(None),
    }
}

/// The servers of both files, or the first of them that is no JSON document.
pub open spec fn servers_of_files(settings: Option<Seq<char>>, ide: Option<Seq<char>>) -> Result<
    Seq<(Seq<char>, json::JsonModel)>,
    ErrorModel,
> {
    match (file_document(settings), file_document(ide)) {
        (Err(e), _) => Err(ErrorModel::Settings(e)),
        (Ok(_), Err(e)) => Err(ErrorModel::Ide(e)),
        (Ok(s), Ok(i)) => Ok(merged_servers(s, i)),
    }
}

/// Reads the servers of both files in the unified format. A file that is missing
/// has none.
pub fn read_mcp_servers_map_from_paths(settings: Option<&str>, ide: Option<&str>) -> (r: Result<
    Vec<(String, Json)>,
    McpError,
>)
    ensures
        match r {
            Ok(servers) => servers_of_files(json::opt_str(settings), json::opt_str(ide)) == Ok::<
                Seq<(Seq<char>, json::JsonModel)>,
                ErrorModel,
            >(json::entry_models(servers@)),
            Err(e) => servers_of_files(json::opt_str(settings), json::opt_str(ide)) == Err::<
                Seq<(Seq<char>, json::JsonModel)>,
                ErrorModel,
            >(e@),
        },
{
    let settings_root = match read_file(settings) {
        Ok(root) => root,
        Err(e) => {
            return Err(McpError::Settings(e));
        },
    };
    let ide_root = match read_file(ide) {
        Ok(root) => root,
        Err(e) => {
            return Err(McpError::Ide(e));
        },
    };
    Ok(merge_mcp_servers(settings_root.as_ref(), ide_root.as_ref()))
}

// ---------------------------------------------------------------------------
// Writing
// ---------------------------------------------------------------------------

/// The milliseconds of those timeouts of a server that are given as fractions.
#[derive(Debug, Clone, Copy, PartialEq, Eq, Structural)]
pub struct FloatTimeouts {
    pub startup_sec: u64,
    pub startup_ms: u64,
    pub tool_sec: u64,
    pub tool_ms: u64,
}

/// A server to be written. The fractions among its timeouts are worked out
/// beforehand.
#[derive(Debug)]
pub struct McpServer {
    pub id: String,
    pub spec: Json,
    pub float_timeouts: FloatTimeouts,
}

/// A server to be written.
pub ghost struct ServerModel {
    pub id: Seq<char>,
    pub spec: json::JsonModel,
    pub float_timeouts: FloatTimeouts,
}

impl View for McpServer {
    type V = ServerModel;

    open spec fn view(&self) -> ServerModel {
        ServerModel { id: self.id@, spec: self.spec@, float_timeouts: self.float_timeouts }
    }
}

/// The views of a list of servers.
pub open spec fn server_models(servers: Seq<McpServer>) -> Seq<ServerModel> {
    Seq::new(servers.len(), |i: int| servers[i]@)
}

/// The entries of a server: those under `server`, where it has such, else its
/// own.
pub open spec fn server_entries(id: Seq<char>, spec: json::JsonModel) -> Result<
    Seq<(Seq<char>, json::JsonModel)>,
    ErrorModel,
> {
    match spec {
        json::JsonModel::Object(e) => match json::lookup(e, "server"@) {
            Some(json::JsonModel::Object(inner)) => Ok(inner),
            Some(_) => Err(ErrorModel::ServerNotAnObject(id)),
            None => Ok(e),
        },
        _ => Err(ErrorModel::NotAnObject(id)),
    }
}

/// The entries of a server with the address of an HTTP server under `httpUrl`.
pub open spec fn with_http_url(e: Seq<(Seq<char>, json::JsonModel)>) -> Seq<
    (Seq<char>, json::JsonModel),
> {
    if json::opt_text(json::lookup(e, "type"@)) == Some("http"@) {
        match json::lookup(e, "url"@) {
            Some(url) => entries::put(entries::without(e, "url"@), "httpUrl"@, url),
            None => e,
        }
    } else {
        e
    }
}

/// The keys that neither program knows.
pub open spec fn helper_keys() -> Seq<Seq<char>> {
    seq![
        "type"@,
        "enabled"@,
        "source"@,
        "id"@,
        "name"@,
        "description"@,
        "tags"@,
        "homepage"@,
        "docs"@,
    ]
}

/// The entries without those of some keys.
pub open spec fn without_keys(
    e: Seq<(Seq<char>, json::JsonModel)>,
    keys: Seq<Seq<char>>,
) -> Seq<(Seq<char>, json::JsonModel)>
    decreases keys.len(),
{
    if keys.len() == 0 {
        e
    } else {
        entries::without(without_keys(e, keys.drop_last()), keys.last())
    }
}

/// `n` units of so many milliseconds each, or the largest number that fits.
pub open spec fn scaled(n: u64, unit: u64) -> u64 {
    if n * unit <= u64::MAX {
        (n * unit) as u64
    } else {
        u64::MAX
    }
}

/// The milliseconds of a timeout; none where it is no number. One below zero
/// counts as zero.
pub open spec fn timeout_ms(value: Option<json::JsonModel>, unit: u64, fraction: u64) -> Option<u64> {
    match json::opt_number(value) {
        Some(JsonNumber::Unsigned(n)) => Some(scaled(n, unit)),
        Some(JsonNumber::Negative(_)) => Some(0),
        Some(JsonNumber::Float(_)) => Some(fraction),
        None => None,
    }
}

/// A timeout of a server and the entries that are left: the one in seconds, else
/// the one in milliseconds, else the default. What was looked at is removed.
pub open spec fn taken_timeout(
    e: Seq<(Seq<char>, json::JsonModel)>,
    sec_key: Seq<char>,
    ms_key: Seq<char>,
    sec_fraction: u64,
    ms_fraction: u64,
    default_ms: u64,
) -> (u64, Seq<(Seq<char>, json::JsonModel)>) {
    let rest = entries::without(e, sec_key);
    match timeout_ms(json::lookup(e, sec_key), 1000, sec_fraction) {
        Some(ms) => (ms, rest),
        None => match timeout_ms(json::lookup(rest, ms_key), 1, ms_fraction) {
            Some(ms) => (ms, entries::without(rest, ms_key)),
            None => (default_ms, entries::without(rest, ms_key)),
        },
    }
}

/// The time that a server has to start, in milliseconds, where it does not say.
pub const DEFAULT_STARTUP_MS: u64 = 10_000;

/// The time that a tool has, in milliseconds, where the server does not say.
pub const DEFAULT_TOOL_MS: u64 = 60_000;

/// The entries of a server as both programs know it. Its only timeout is the
/// longer one of the time to start and the time that a tool has.
pub open spec fn written_server(
    e: Seq<(Seq<char>, json::JsonModel)>,
    f: FloatTimeouts,
) -> Seq<(Seq<char>, json::JsonModel)> {
    let bare = without_keys(with_http_url(e), helper_keys());
    let startup = taken_timeout(
        bare,
        "startup_timeout_sec"@,
        "startup_timeout_ms"@,
        f.startup_sec,
        f.startup_ms,
        DEFAULT_STARTUP_MS,
    );
    let tool = taken_timeout(
        startup.1,
        "tool_timeout_sec"@,
        "tool_timeout_ms"@,
        f.tool_sec,
        f.tool_ms,
        DEFAULT_TOOL_MS,
    );
    let longer = if startup.0 > tool.0 {
        startup.0
    } else {
        tool.0
    };
    entries::put(tool.1, "timeout"@, json::JsonModel::Number(JsonNumber::Unsigned(longer)))
}

/// The servers as they are written; the first that is no object is an error. A
/// server of the id `mcpServers` is left out.
pub open spec fn written_servers(servers: Seq<ServerModel>) -> Result<
    Seq<(Seq<char>, json::JsonModel)>,
    ErrorModel,
>
    decreases servers.len(),
{
    if servers.len() == 0 {
        Ok(seq![])
    } else {
        let last = servers.last();
        match written_servers(servers.drop_last()) {
            Ok(before) => if last.id == "mcpServers"@ {
                Ok(before)
            } else {
                match server_entries(last.id, last.spec) {
                    Ok(e) => Ok(
                        entries::put(
                            before,
                            last.id,
                            json::JsonModel::Object(written_server(e, last.float_timeouts)),
                        ),
                    ),
                    Err(e) => Err(e),
                }
            },
            Err(e) => Err(e),
        }
    }
}

/// A document with these servers. One that is no object is replaced.
pub open spec fn with_servers(
    root: Option<json::JsonModel>,
    servers: Seq<(Seq<char>, json::JsonModel)>,
) -> json::JsonModel {
    let e = match root {
        Some(json::JsonModel::Object(e)) => e,
        _ => seq![],
    };
    json::JsonModel::Object(entries::put(e, "mcpServers"@, json::JsonModel::Object(servers)))
}

fn http_url(e: Vec<(String, Json)>) -> (r: Vec<(String, Json)>)
    ensures
        json::entry_models(r@) == with_http_url(json::entry_models(e@)),
{
    let is_http = match json::str_of(lookup_entry(&e, "type")) {
        Some(t) => text::same_text(t, "http"),
        None => false,
    };
    if !is_http {
        return e;
    }
    let url = match lookup_entry(&e, "url") {
        Some(url) => copy_json(url),
        None => {
            return e;
        },
    };
    let rest = remove_key(e, "url");
    put_key(rest, "httpUrl", url)
}

fn remove_helper_keys(e: Vec<(String, Json)>) -> (r: Vec<(String, Json)>)
    ensures
        json::entry_models(r@) == without_keys(json::entry_models(e@), helper_keys()),
{
    let ghost start = json::entry_models(e@);
    let keys: [&'static str; 9] = [
        "type",
        "enabled",
        "source",
        "id",
        "name",
        "description",
        "tags",
        "homepage",
        "docs",
    ];
    let ghost all = helper_keys();
    let mut out = e;
    let mut i: usize = 0;
    assert(all.take(0) == Seq::<Seq<char>>::empty());
    while i < 9
        invariant
            i <= 9,
            all == helper_keys(),
            all.len() == 9,
            forall|k: int| 0 <= k < 9 ==> (#[trigger] keys@[k])@ == all[k],
            json::entry_models(out@) == without_keys(start, all.take(i as int)),
        decreases 9 - i,
    {
        assert(all.take(i + 1).drop_last() == all.take(i as int));
        assert(all.take(i + 1).last() == keys@[i as int]@);
        out = remove_key(out, keys[i]);
        i = i + 1;
    }
    assert(all.take(9) == all);
    out
}

fn timeout_ms_of(value: Option<&Json>, unit: u64, fraction: u64) -> (r: Option<u64>)
    ensures
        r == timeout_ms(json::opt_model(value), unit, fraction),
{
    match value {
        Some(Json::Number(JsonNumber::Unsigned(n))) => match n.checked_mul(unit) {
            Some(ms) => Some(ms),
            None => Some(u64::MAX),
        },
        Some(Json::Number(JsonNumber::Negative(_))) => Some(0),
        Some(Json::Number(JsonNumber::Float(_))) => Some(fraction),
        _ => None,
    }
}

fn take_timeout(
    e: Vec<(String, Json)>,
    sec_key: &str,
    ms_key: &str,
    sec_fraction: u64,
    ms_fraction: u64,
    default_ms: u64,
) -> (r: (u64, Vec<(String, Json)>))
    ensures
        (r.0, json::entry_models(r.1@)) == taken_timeout(
            json::entry_models(e@),
            sec_key@,
            ms_key@,
            sec_fraction,
            ms_fraction,
            default_ms,
        ),
{
    let in_seconds: Option<u64> = timeout_ms_of(lookup_entry(&e, sec_key), 1000, sec_fraction);
    let rest = remove_key(e, sec_key);
    match in_seconds {
        Some(ms) => (ms, rest),
        None => {
            let in_ms: Option<u64> = timeout_ms_of(lookup_entry(&rest, ms_key), 1, ms_fraction);
            let left = remove_key(rest, ms_key);
            match in_ms {
                Some(ms) => (ms, left),
                None => (default_ms, left),
            }
        },
    }
}

/// Brings the entries of a server into the form that both programs know.
pub fn write_server(e: Vec<(String, Json)>, f: FloatTimeouts) -> (r: Vec<(String, Json)>)
    ensures
        json::entry_models(r@) == written_server(json::entry_models(e@), f),
{
    let bare = remove_helper_keys(http_url(e));
    let (startup, rest) = take_timeout(
        bare,
        "startup_timeout_sec",
        "startup_timeout_ms",
        f.startup_sec,
        f.startup_ms,
        DEFAULT_STARTUP_MS,
    );
    let (tool, left) = take_timeout(
        rest,
        "tool_timeout_sec",
        "tool_timeout_ms",
        f.tool_sec,
        f.tool_ms,
        DEFAULT_TOOL_MS,
    );
    let longer: u64 = if startup > tool {
        startup
    } else {
        tool
    };
    put_key(left, "timeout", Json::Number(JsonNumber::Unsigned(longer)))
}

fn server_entries_of<'a>(id: &String, spec: &'a Json) -> (r: Result<
    &'a Vec<(String, Json)>,
    McpError,
>)
    ensures
        match r {
            Ok(e) => server_entries(id@, spec@) == Ok::<
                Seq<(Seq<char>, json::JsonModel)>,
                ErrorModel,
            >(json::entry_models(e@)),
            Err(e) => server_entries(id@, spec@) == Err::<
                Seq<(Seq<char>, json::JsonModel)>,
                ErrorModel,
            >(e@),
        },
{
    match spec.as_object() {
        Some(e) => match lookup_entry(e, "server") {
            Some(inner) => match inner.as_object() {
                Some(s) => Ok(s),
                None => Err(McpError::ServerNotAnObject(id.clone())),
            },
            None => Ok(e),
        },
        None => Err(McpError::NotAnObject(id.clone())),
    }
}

/// The fraction that a server gives as a timeout, where it gives one.
pub fn float_timeout(spec: &Json, key: &str) -> (r: Option<serde_json::Number>)
    ensures
        r == (match server_entries(seq![], spec@) {
            Ok(e) => match json::opt_number(json::lookup(e, key@)) {
                Some(JsonNumber::Float(n)) => Some(n),
                _ => None,
            },
            Err(_) => None,
        }),
{
    let id = String::new();
    assert(id@ == Seq::<char>::empty());
    match server_entries_of(&id, spec) {
        Ok(e) => match lookup_entry(e, key) {
            Some(Json::Number(JsonNumber::Float(n))) => Some(n.clone()),
            _ => None,
        },
        Err(_) => None,
    }
}

/// Brings servers into the form that both programs know.
pub fn write_servers(servers: &Vec<McpServer>) -> (r: Result<Vec<(String, Json)>, McpError>)
    ensures
        match r {
            Ok(out) => written_servers(server_models(servers@)) == Ok::<
                Seq<(Seq<char>, json::JsonModel)>,
                ErrorModel,
            >(json::entry_models(out@)),
            Err(e) => written_servers(server_models(servers@)) == Err::<
                Seq<(Seq<char>, json::JsonModel)>,
                ErrorModel,
            >(e@),
        },
{
    let ghost models = server_models(servers@);
    let mut out: Vec<(String, Json)> = Vec::new();
    let mut i: usize = 0;
    assert(models.take(0) == Seq::<ServerModel>::empty());
    assert(json::entry_models(out@) == Seq::<(Seq<char>, json::JsonModel)>::empty());
    while i < servers.len()
        invariant
            models == server_models(servers@),
            i <= servers@.len(),
            written_servers(models.take(i as int)) == Ok::<
                Seq<(Seq<char>, json::JsonModel)>,
                ErrorModel,
            >(json::entry_models(out@)),
        decreases servers@.len() - i,
    {
        assert(models.take(i + 1).drop_last() == models.take(i as int));
        assert(models.take(i + 1).last() == servers@[i as int]@);
        let server = &servers[i];
        if !text::same_text(server.id.as_str(), "mcpServers") {
            match server_entries_of(&server.id, &server.spec) {
                Ok(e) => {
                    let written = write_server(copy_entries(e), server.float_timeouts);
                    proof {
                        json::lemma_object_model(written);
                    }
                    out = put_key(out, server.id.as_str(), Json::Object(written));
                },
                Err(e) => {
                    proof {
                        lemma_error_stays(models, i + 1);
                    }
                    return Err(e);
                },
            }
        }
        i = i + 1;
    }
    assert(models.take(servers@.len() as int) == models);
    Ok(out)
}

proof fn lemma_error_stays(servers: Seq<ServerModel>, k: int)
    requires
        0 <= k <= servers.len(),
        written_servers(servers.take(k)) is Err,
    ensures
        written_servers(servers) == written_servers(servers.take(k)),
    decreases servers.len(),
{
    if k == servers.len() {
        assert(servers.take(k) == servers);
    } else {
        assert(servers.drop_last().take(k) == servers.take(k));
        lemma_error_stays(servers.drop_last(), k);
    }
}

fn document_with(root: Option<Json>, servers: Vec<(String, Json)>) -> (r: Json)
    ensures
        r@ == with_servers(
            match root {
                Some(root) => Some(root@),
                None => None,
            },
            json::entry_models(servers@),
        ),
{
    proof {
        json::lemma_object_model(servers);
    }
    let e: Vec<(String, Json)> = match root {
        Some(Json::Object(e)) => {
            proof {
                json::lemma_object_model(e);
            }
            e
        },
        _ => {
            let none: Vec<(String, Json)> = Vec::new();
            assert(json::entry_models(none@) == Seq::<(Seq<char>, json::JsonModel)>::empty());
            none
        },
    };
    let out = put_key(e, "mcpServers", Json::Object(servers));
    proof {
        json::lemma_object_model(out);
    }
    Json::Object(out)
}

/// The texts of the two files.
#[derive(Debug)]
pub struct McpFiles {
    pub settings: String,
    /// The text of the configuration of the IDE, where the IDE is installed.
    pub ide: Option<String>,
}

/// The document of the configuration of the IDE. One that cannot be read counts
/// as missing.
pub open spec fn ide_document(file: Option<Seq<char>>) -> Option<json::JsonModel> {
    match file_document(file) {
        Ok(root) => root,
        Err(_) => None,
    }
}

/// Whether a text is that of a document with these servers: it is the indented
/// text, and reads back as the document. What the document was is regular.
pub open spec fn is_file_of(
    text: Seq<char>,
    root: Option<json::JsonModel>,
    servers: Seq<(Seq<char>, json::JsonModel)>,
) -> bool {
    &&& text == json::json_pretty_text(with_servers(root, servers))
    &&& json::reads_back(text, with_servers(root, servers))
    &&& root matches Some(doc) ==> alike::is_regular(doc)
}

/// Whether `files` are the texts of both files with these servers.
pub open spec fn are_files(
    files: McpFiles,
    servers: Seq<(Seq<char>, json::JsonModel)>,
    settings: Option<json::JsonModel>,
    ide: Option<Option<Seq<char>>>,
) -> bool {
    &&& is_file_of(files.settings@, settings, servers)
    &&& match (files.ide, ide) {
        (Some(text), Some(file)) => is_file_of(text@, ide_document(file), servers),
        (None, None) => true,
        _ => false,
    }
}

/// Why the files cannot be written, in the order in which it is found out: a
/// server that is no object, or settings that are no JSON document.
pub open spec fn write_error(servers: Seq<ServerModel>, settings: Option<Seq<char>>) -> Option<
    ErrorModel,
> {
    match (written_servers(servers), file_document(settings)) {
        (Err(e), _) => Some(e),
        (Ok(_), Err(e)) => Some(ErrorModel::Settings(e)),
        (Ok(_), Ok(_)) => None,
    }
}

/// The view of what is known of the file of the IDE: none where the IDE is not
/// installed.
pub open spec fn opt_file(ide: Option<Option<&str>>) -> Option<Option<Seq<char>>> {
    match ide {
        Some(file) => Some(json::opt_str(file)),
        None => None,
    }
}

/// Works out the texts of both files with these servers. What else they hold
/// stays. The IDE has a file only where it is installed.
pub fn set_mcp_servers_map_to_paths(
    servers: &Vec<McpServer>,
    settings: Option<&str>,
    ide: Option<Option<&str>>,
) -> (r: Result<McpFiles, McpError>)
    ensures
        match r {
            Ok(files) => write_error(server_models(servers@), json::opt_str(settings)) is None
                && are_files(
                files,
                written_servers(server_models(servers@))->Ok_0,
                file_document(json::opt_str(settings))->Ok_0,
                opt_file(ide),
            ),
            Err(e) => write_error(server_models(servers@), json::opt_str(settings)) == Some(e@),
        },
{
    let out = match write_servers(servers) {
        Ok(out) => out,
        Err(e) => {
            return Err(e);
        },
    };
    let root = match read_file(settings) {
        Ok(root) => root,
        Err(e) => {
            return Err(McpError::Settings(e));
        },
    };
    let settings_text = pretty_json(&document_with(root, copy_entries(&out)));
    let ide_text: Option<String> = match ide {
        Some(file) => {
            let ide_root: Option<Json> = match read_file(file) {
                Ok(root) => root,
                Err(_) => None,
            };
            Some(pretty_json(&document_with(ide_root, out)))
        },
        None => None,
    };
    Ok(McpFiles { settings: settings_text, ide: ide_text })
}

// ---------------------------------------------------------------------------
// Laws
// ---------------------------------------------------------------------------

/// Whether some entries are servers: objects, each under an id of its own that
/// is not `mcpServers`.
pub open spec fn are_servers(e: Seq<(Seq<char>, json::JsonModel)>) -> bool {
    &&& entries::distinct_keys(e)
    &&& forall|i: int|
        0 <= i < e.len() ==> (#[trigger] e[i]).1 is Object && e[i].0 != "mcpServers"@
}

proof fn lemma_put_server(
    e: Seq<(Seq<char>, json::JsonModel)>,
    key: Seq<char>,
    value: json::JsonModel,
)
    requires
        are_servers(e),
        value is Object,
        key != "mcpServers"@,
    ensures
        are_servers(entries::put(e, key, value)),
{
    entries::lemma_put_distinct(e, key, value);
    entries::lemma_without(e, key);
    let kept = entries::without(e, key);
    let out = entries::put(e, key, value);
    assert forall|i: int| 0 <= i < out.len() implies (#[trigger] out[i]).1 is Object && out[i].0
        != "mcpServers"@ by {
        if i < kept.len() {
            assert(e.contains(kept[i]));
        }
    }
}

proof fn lemma_put_servers(
    e: Seq<(Seq<char>, json::JsonModel)>,
    more: Seq<(Seq<char>, json::JsonModel)>,
)
    requires
        are_servers(e),
        are_servers(more),
    ensures
        are_servers(entries::put_all(e, more)),
    decreases more.len(),
{
    if more.len() > 0 {
        lemma_servers_prefix(more);
        lemma_put_servers(e, more.drop_last());
        assert(more.last() == more[more.len() - 1]);
        lemma_put_server(
            entries::put_all(e, more.drop_last()),
            more.last().0,
            more.last().1,
        );
    }
}

proof fn lemma_servers_prefix(e: Seq<(Seq<char>, json::JsonModel)>)
    requires
        are_servers(e),
        e.len() > 0,
    ensures
        are_servers(e.drop_last()),
{
    let front = e.drop_last();
    assert forall|i: int, j: int| 0 <= i < j < front.len() implies (#[trigger] front[i]).0 != (
    #[trigger] front[j]).0 by {
        assert(front[i] == e[i] && front[j] == e[j]);
    }
    assert forall|i: int| 0 <= i < front.len() implies (#[trigger] front[i]).1 is Object
        && front[i].0 != "mcpServers"@ by {
        assert(front[i] == e[i]);
    }
}

/// However deep servers were nested, what comes out are servers: objects with
/// distinct ids, none of them `mcpServers`.
pub proof fn law_unwrapped_are_servers(e: Seq<(Seq<char>, json::JsonModel)>)
    ensures
        are_servers(unwrapped(e)),
    decreases e,
{
    if e.len() > 0 {
        let last = e[e.len() - 1];
        law_unwrapped_are_servers(e.subrange(0, e.len() - 1));
        match last.1 {
            json::JsonModel::Object(nested) => {
                if last.0 == "mcpServers"@ {
                    assert(decreases_to!(e => e[e.len() - 1]));
                    assert(decreases_to!(last => last.1));
                    assert(decreases_to!(last.1 => last.1->Object_0));
                    law_unwrapped_are_servers(nested);
                    lemma_put_servers(unwrapped(e.subrange(0, e.len() - 1)), unwrapped(nested));
                } else {
                    lemma_put_server(unwrapped(e.subrange(0, e.len() - 1)), last.0, last.1);
                }
            },
            _ => {},
        }
    }
}

/// Servers that are not nested stay as they are.
pub proof fn law_flat_servers_stay(e: Seq<(Seq<char>, json::JsonModel)>)
    requires
        are_servers(e),
    ensures
        unwrapped(e) == e,
    decreases e.len(),
{
    if e.len() > 0 {
        let front = e.subrange(0, e.len() - 1);
        let last = e[e.len() - 1];
        assert(front == e.drop_last());
        lemma_servers_prefix(e);
        law_flat_servers_stay(front);
        assert forall|i: int| 0 <= i < front.len() implies (#[trigger] front[i]).0 != last.0 by {
            assert(front[i] == e[i]);
        }
        entries::lemma_without_absent(front, last.0);
        assert(front.push(last) == e);
    }
}

proof fn lemma_put_all_into_none(more: Seq<(Seq<char>, json::JsonModel)>)
    requires
        are_servers(more),
    ensures
        entries::put_all(seq![], more) == more,
    decreases more.len(),
{
    if more.len() > 0 {
        let front = more.drop_last();
        lemma_servers_prefix(more);
        lemma_put_all_into_none(front);
        assert forall|i: int| 0 <= i < front.len() implies (#[trigger] front[i]).0
            != more.last().0 by {
            assert(front[i] == more[i]);
        }
        entries::lemma_without_absent(front, more.last().0);
        assert(front.push(more.last()) == more);
    }
}

/// Nesting servers once more changes nothing, so neither does nesting them any
/// number of times.
pub proof fn law_nesting_does_not_matter(e: Seq<(Seq<char>, json::JsonModel)>)
    ensures
        unwrapped(seq![("mcpServers"@, json::JsonModel::Object(e))]) == unwrapped(e),
{
    let outer = seq![("mcpServers"@, json::JsonModel::Object(e))];
    assert(outer.subrange(0, 0) == Seq::<(Seq<char>, json::JsonModel)>::empty());
    reveal_with_fuel(unwrapped, 2);
    assert(unwrapped(outer.subrange(0, 0)) == Seq::<(Seq<char>, json::JsonModel)>::empty());
    law_unwrapped_are_servers(e);
    lemma_put_all_into_none(unwrapped(e));
}

proof fn lemma_lookup_unified(servers: Seq<(Seq<char>, json::JsonModel)>, id: Seq<char>)
    ensures
        json::lookup(unified_all(servers), id) == match json::lookup(servers, id) {
            Some(v) => Some(unified(v)),
            None => None,
        },
    decreases servers.len(),
{
    if servers.len() > 0 {
        assert(unified_all(servers).drop_first() == unified_all(servers.drop_first()));
        assert(unified_all(servers)[0] == (servers[0].0, unified(servers[0].1)));
        lemma_lookup_unified(servers.drop_first(), id);
    }
}

/// A server of the IDE has priority over one of the settings with the same id;
/// the others of either are all there.
pub proof fn law_ide_has_priority(
    settings: Option<json::JsonModel>,
    ide: Option<json::JsonModel>,
    id: Seq<char>,
)
    ensures
        json::lookup(merged_servers(settings, ide), id) == match json::either(
            json::lookup(ide_servers(ide), id),
            json::lookup(settings_servers(settings), id),
        ) {
            Some(v) => Some(unified(v)),
            None => None,
        },
        json::lookup(merged_servers(settings, ide), "mcpServers"@) is None,
{
    let a = settings_servers(settings);
    let b = ide_servers(ide);
    match json::opt_field(settings, "mcpServers"@) {
        Some(json::JsonModel::Object(e)) => {
            law_unwrapped_are_servers(e);
        },
        _ => {},
    }
    match (json::opt_field(ide, "mcpServers"@), ide) {
        (Some(json::JsonModel::Object(e)), _) => {
            law_unwrapped_are_servers(e);
        },
        (_, Some(json::JsonModel::Object(e))) => {
            law_unwrapped_are_servers(e);
        },
        _ => {},
    }
    assert(are_servers(a) && are_servers(b));
    entries::lemma_lookup_put_all(a, b, id);
    entries::lemma_lookup_put_all(a, b, "mcpServers"@);
    entries::lemma_lookup_found(a, "mcpServers"@);
    entries::lemma_lookup_found(b, "mcpServers"@);
    lemma_lookup_unified(entries::put_all(a, b), id);
    lemma_lookup_unified(entries::put_all(a, b), "mcpServers"@);
}

/// Writing servers into a document changes nothing else in it.
pub proof fn law_other_keys_stay(
    root: Option<json::JsonModel>,
    servers: Seq<(Seq<char>, json::JsonModel)>,
    key: Seq<char>,
)
    ensures
        with_servers(root, servers).field(key) == if key == "mcpServers"@ {
            Some(json::JsonModel::Object(servers))
        } else {
            json::opt_field(root, key)
        },
{
    let e = match root {
        Some(json::JsonModel::Object(e)) => e,
        _ => seq![],
    };
    entries::lemma_lookup_put(e, "mcpServers"@, json::JsonModel::Object(servers), key);
    assert(json::lookup(Seq::<(Seq<char>, json::JsonModel)>::empty(), key) is None);
}

proof fn lemma_written_are_servers(servers: Seq<ServerModel>)
    requires
        written_servers(servers) is Ok,
    ensures
        are_servers(written_servers(servers)->Ok_0),
    decreases servers.len(),
{
    if servers.len() > 0 {
        lemma_written_are_servers(servers.drop_last());
        let last = servers.last();
        if last.id != "mcpServers"@ {
            let e = server_entries(last.id, last.spec)->Ok_0;
            lemma_put_server(
                written_servers(servers.drop_last())->Ok_0,
                last.id,
                json::JsonModel::Object(written_server(e, last.float_timeouts)),
            );
        }
    }
}

/// What is written is read back: the settings with these servers have exactly
/// the servers that were written, and so has the configuration of the IDE.
pub proof fn law_written_servers_are_read(
    servers: Seq<ServerModel>,
    settings: Option<json::JsonModel>,
    ide: Option<json::JsonModel>,
)
    requires
        written_servers(servers) is Ok,
    ensures
        ({
            let out = written_servers(servers)->Ok_0;
            &&& settings_servers(Some(with_servers(settings, out))) == out
            &&& ide_servers(Some(with_servers(ide, out))) == out
            &&& merged_servers(
                Some(with_servers(settings, out)),
                Some(with_servers(ide, out)),
            ) == unified_all(out)
        }),
{
    let out = written_servers(servers)->Ok_0;
    lemma_written_are_servers(servers);
    law_other_keys_stay(settings, out, "mcpServers"@);
    law_other_keys_stay(ide, out, "mcpServers"@);
    law_flat_servers_stay(out);
    lemma_put_same(out);
}

/// The unified format of servers that hold the same is the same.
proof fn lemma_unified_same(
    x: Seq<(Seq<char>, json::JsonModel)>,
    y: Seq<(Seq<char>, json::JsonModel)>,
)
    requires
        alike::same(json::JsonModel::Object(x), json::JsonModel::Object(y)),
        entries::distinct_keys(x),
    ensures
        alike::same(
            unified(json::JsonModel::Object(x)),
            unified(json::JsonModel::Object(y)),
        ),
{
    alike::lemma_same_agree(x, y);
    let http = json::JsonModel::Text("http"@);
    let px = with_plain_url(x);
    let py = with_plain_url(y);
    assert(alike::same_found(json::lookup(x, "httpUrl"@), json::lookup(y, "httpUrl"@)));
    if let Some(a) = json::lookup(x, "httpUrl"@) {
        let b = json::lookup(y, "httpUrl"@)->0;
        let rx = entries::without(x, "httpUrl"@);
        let ry = entries::without(y, "httpUrl"@);
        alike::lemma_agree_without(x, y, "httpUrl"@);
        entries::lemma_without(x, "httpUrl"@);
        entries::lemma_without(y, "httpUrl"@);
        alike::lemma_agree_put(rx, ry, "url"@, a, b);
        entries::lemma_put_distinct(rx, "url"@, a);
        entries::lemma_put_distinct(ry, "url"@, b);
        let ux = entries::put(rx, "url"@, a);
        let uy = entries::put(ry, "url"@, b);
        alike::lemma_agree_put(ux, uy, "type"@, http, http);
        entries::lemma_put_distinct(ux, "type"@, http);
        entries::lemma_put_distinct(uy, "type"@, http);
    }
    assert(alike::agree(px, py));
    assert(entries::distinct_keys(px) && entries::distinct_keys(py));
    assert(alike::same_found(json::lookup(px, "type"@), json::lookup(py, "type"@)));
    assert(alike::same_found(json::lookup(px, "command"@), json::lookup(py, "command"@)));
    assert(alike::same_found(json::lookup(px, "url"@), json::lookup(py, "url"@)));
    let stdio = json::JsonModel::Text("stdio"@);
    let sse = json::JsonModel::Text("sse"@);
    alike::lemma_agree_put(px, py, "type"@, stdio, stdio);
    alike::lemma_agree_put(px, py, "type"@, sse, sse);
    entries::lemma_put_distinct(px, "type"@, stdio);
    entries::lemma_put_distinct(py, "type"@, stdio);
    entries::lemma_put_distinct(px, "type"@, sse);
    entries::lemma_put_distinct(py, "type"@, sse);
    alike::lemma_agree_same(unified_entries(x), unified_entries(y));
}

/// Entries that hold the same as servers are servers.
proof fn lemma_same_servers(
    x: Seq<(Seq<char>, json::JsonModel)>,
    y: Seq<(Seq<char>, json::JsonModel)>,
)
    requires
        are_servers(x),
        alike::same(json::JsonModel::Object(x), json::JsonModel::Object(y)),
    ensures
        are_servers(y),
        alike::agree(x, y),
{
    alike::lemma_same_agree(x, y);
    assert forall|j: int| 0 <= j < y.len() implies (#[trigger] y[j]).1 is Object && y[j].0
        != "mcpServers"@ by {
        alike::lemma_lookup_own(y, j);
        assert(alike::same_found(json::lookup(x, y[j].0), json::lookup(y, y[j].0)));
        entries::lemma_lookup_found(x, y[j].0);
        let v = json::lookup(x, y[j].0)->0;
        let i = choose|i: int| 0 <= i < x.len() && (#[trigger] x[i]).0 == y[j].0 && x[i].1 == v;
        assert(x[i].1 is Object);
    }
}

/// The servers in a document that holds the same as one with these servers.
proof fn lemma_servers_of_same(
    root: Option<json::JsonModel>,
    servers: Seq<(Seq<char>, json::JsonModel)>,
    doc: json::JsonModel,
)
    requires
        are_servers(servers),
        alike::same(with_servers(root, servers), doc),
    ensures
        settings_servers(Some(doc)) == ide_servers(Some(doc)),
        are_servers(settings_servers(Some(doc))),
        alike::agree(servers, settings_servers(Some(doc))),
{
    let x = with_servers(root, servers)->Object_0;
    let y = doc->Object_0;
    law_other_keys_stay(root, servers, "mcpServers"@);
    alike::lemma_same_agree(x, y);
    assert(alike::same_found(json::lookup(x, "mcpServers"@), json::lookup(y, "mcpServers"@)));
    let e = json::lookup(y, "mcpServers"@)->0->Object_0;
    lemma_same_servers(servers, e);
    law_flat_servers_stay(e);
}

/// Whether `read` are the servers `written` in the unified format, whatever the
/// order of entries.
pub open spec fn are_read_servers(
    read: Seq<(Seq<char>, json::JsonModel)>,
    written: Seq<(Seq<char>, json::JsonModel)>,
) -> bool {
    forall|id: Seq<char>|
        alike::same_found(
            match json::lookup(written, id) {
                Some(server) => Some(unified(server)),
                None => None,
            },
            #[trigger] json::lookup(read, id),
        )
}

/// Whether the documents of servers are regular.
pub open spec fn are_regular(servers: Seq<ServerModel>) -> bool {
    forall|i: int| 0 <= i < servers.len() ==> alike::is_regular((#[trigger] servers[i]).spec)
}

/// Whether the files are written and can be read.
pub open spec fn are_readable_files(
    files: McpFiles,
    servers: Seq<(Seq<char>, json::JsonModel)>,
    settings: Option<json::JsonModel>,
    ide: Option<Option<Seq<char>>>,
) -> bool {
    &&& are_files(files, servers, settings, ide)
    &&& json::json_document(files.settings@) is Ok
    &&& files.ide matches Some(text) ==> json::json_document(text@) is Ok
}

proof fn lemma_regular_keys(e: Seq<(Seq<char>, json::JsonModel)>, keys: Seq<Seq<char>>)
    requires
        alike::is_regular(json::JsonModel::Object(e)),
    ensures
        alike::is_regular(json::JsonModel::Object(without_keys(e, keys))),
    decreases keys.len(),
{
    if keys.len() > 0 {
        lemma_regular_keys(e, keys.drop_last());
        alike::lemma_regular_without(without_keys(e, keys.drop_last()), keys.last());
    }
}

proof fn lemma_regular_timeout(
    e: Seq<(Seq<char>, json::JsonModel)>,
    sec_key: Seq<char>,
    ms_key: Seq<char>,
    sec_fraction: u64,
    ms_fraction: u64,
    default_ms: u64,
)
    requires
        alike::is_regular(json::JsonModel::Object(e)),
    ensures
        alike::is_regular(
            json::JsonModel::Object(
                taken_timeout(e, sec_key, ms_key, sec_fraction, ms_fraction, default_ms).1,
            ),
        ),
{
    alike::lemma_regular_without(e, sec_key);
    alike::lemma_regular_without(entries::without(e, sec_key), ms_key);
}

proof fn lemma_regular_written(e: Seq<(Seq<char>, json::JsonModel)>, f: FloatTimeouts)
    requires
        alike::is_regular(json::JsonModel::Object(e)),
    ensures
        alike::is_regular(json::JsonModel::Object(written_server(e, f))),
{
    alike::lemma_regular_lookup(e, "url"@);
    if let Some(url) = json::lookup(e, "url"@) {
        alike::lemma_regular_without(e, "url"@);
        alike::lemma_regular_put(entries::without(e, "url"@), "httpUrl"@, url);
    }
    let bare = without_keys(with_http_url(e), helper_keys());
    lemma_regular_keys(with_http_url(e), helper_keys());
    lemma_regular_timeout(
        bare,
        "startup_timeout_sec"@,
        "startup_timeout_ms"@,
        f.startup_sec,
        f.startup_ms,
        DEFAULT_STARTUP_MS,
    );
    let startup = taken_timeout(
        bare,
        "startup_timeout_sec"@,
        "startup_timeout_ms"@,
        f.startup_sec,
        f.startup_ms,
        DEFAULT_STARTUP_MS,
    );
    lemma_regular_timeout(
        startup.1,
        "tool_timeout_sec"@,
        "tool_timeout_ms"@,
        f.tool_sec,
        f.tool_ms,
        DEFAULT_TOOL_MS,
    );
    let tool = taken_timeout(
        startup.1,
        "tool_timeout_sec"@,
        "tool_timeout_ms"@,
        f.tool_sec,
        f.tool_ms,
        DEFAULT_TOOL_MS,
    );
    let longer = if startup.0 > tool.0 {
        startup.0
    } else {
        tool.0
    };
    alike::lemma_regular_put(
        tool.1,
        "timeout"@,
        json::JsonModel::Number(JsonNumber::Unsigned(longer)),
    );
}

/// Regular servers are written as regular entries.
proof fn lemma_regular_servers(servers: Seq<ServerModel>)
    requires
        are_regular(servers),
        written_servers(servers) is Ok,
    ensures
        alike::is_regular(json::JsonModel::Object(written_servers(servers)->Ok_0)),
    decreases servers.len(),
{
    if servers.len() > 0 {
        let front = servers.drop_last();
        let last = servers.last();
        assert forall|i: int| 0 <= i < front.len() implies alike::is_regular(
            (#[trigger] front[i]).spec,
        ) by {
            assert(front[i] == servers[i]);
        }
        lemma_regular_servers(front);
        if last.id != "mcpServers"@ {
            assert(last == servers[servers.len() - 1]);
            let e = server_entries(last.id, last.spec)->Ok_0;
            alike::lemma_regular_lookup(last.spec->Object_0, "server"@);
            lemma_regular_written(e, last.float_timeouts);
            alike::lemma_regular_put(
                written_servers(front)->Ok_0,
                last.id,
                json::JsonModel::Object(written_server(e, last.float_timeouts)),
            );
        }
    } else {
        assert(written_servers(servers)->Ok_0 == Seq::<(Seq<char>, json::JsonModel)>::empty());
    }
}

/// A document with regular servers is regular, where it was before.
proof fn lemma_regular_document(
    root: Option<json::JsonModel>,
    servers: Seq<(Seq<char>, json::JsonModel)>,
)
    requires
        root matches Some(doc) ==> alike::is_regular(doc),
        alike::is_regular(json::JsonModel::Object(servers)),
    ensures
        alike::is_regular(with_servers(root, servers)),
{
    let e = match root {
        Some(json::JsonModel::Object(e)) => e,
        _ => seq![],
    };
    assert(alike::is_regular(json::JsonModel::Object(e)));
    alike::lemma_regular_put(e, "mcpServers"@, json::JsonModel::Object(servers));
}

/// Files that are written from documents without floats, which are not nested
/// deeper than a reader goes, can be read.
pub proof fn law_written_files_can_be_read(
    files: McpFiles,
    servers: Seq<ServerModel>,
    settings: Option<json::JsonModel>,
    ide: Option<Option<Seq<char>>>,
)
    requires
        are_regular(servers),
        written_servers(servers) is Ok,
        are_files(files, written_servers(servers)->Ok_0, settings, ide),
        ({
            let doc = with_servers(settings, written_servers(servers)->Ok_0);
            alike::is_whole(doc) && alike::is_within(doc, json::MAX_DEPTH as nat)
        }),
        ide matches Some(file) ==> ({
            let doc = with_servers(ide_document(file), written_servers(servers)->Ok_0);
            alike::is_whole(doc) && alike::is_within(doc, json::MAX_DEPTH as nat)
        }),
    ensures
        are_readable_files(files, written_servers(servers)->Ok_0, settings, ide),
{
    lemma_regular_servers(servers);
    lemma_regular_document(settings, written_servers(servers)->Ok_0);
    if let Some(file) = ide {
        lemma_regular_document(ide_document(file), written_servers(servers)->Ok_0);
    }
}

/// What is written to the files is read back from them: reading both files, or
/// the settings alone where the IDE is not installed, gives exactly the servers
/// that were written, in the unified format. Floats among them stay numbers;
/// what else the files hold does not matter, as long as they can be read.
pub proof fn law_written_files_are_read(
    files: McpFiles,
    servers: Seq<ServerModel>,
    settings: Option<json::JsonModel>,
    ide: Option<Option<Seq<char>>>,
)
    requires
        are_regular(servers),
        written_servers(servers) is Ok,
        are_readable_files(files, written_servers(servers)->Ok_0, settings, ide),
    ensures
        servers_of_files(Some(files.settings@), text::opt_view(files.ide)) matches Ok(read)
            && are_read_servers(read, written_servers(servers)->Ok_0),
{
    let out = written_servers(servers)->Ok_0;
    lemma_written_are_servers(servers);
    lemma_regular_servers(servers);
    lemma_regular_document(settings, out);
    let settings_doc = json::json_document(files.settings@)->Ok_0;
    lemma_servers_of_same(settings, out, settings_doc);
    let ide_doc: Option<json::JsonModel> = match (files.ide, ide) {
        (Some(text), Some(file)) => {
            let found = json::json_document(text@)->Ok_0;
            lemma_regular_document(ide_document(file), out);
            lemma_servers_of_same(ide_document(file), out, found);
            Some(found)
        },
        _ => None,
    };
    let read = merged_servers(Some(settings_doc), ide_doc);
    assert(ide_servers(None) == Seq::<(Seq<char>, json::JsonModel)>::empty());
    assert forall|id: Seq<char>|
        alike::same_found(
            match json::lookup(out, id) {
                Some(server) => Some(unified(server)),
                None => None,
            },
            #[trigger] json::lookup(read, id),
        ) by {
        law_ide_has_priority(Some(settings_doc), ide_doc, id);
        let first = settings_servers(Some(settings_doc));
        let second = ide_servers(ide_doc);
        assert(alike::same_found(json::lookup(out, id), json::lookup(first, id)));
        if ide_doc is Some {
            assert(alike::same_found(json::lookup(out, id), json::lookup(second, id)));
        }
        if let Some(server) = json::lookup(out, id) {
            let found = json::either(json::lookup(second, id), json::lookup(first, id))->0;
            entries::lemma_lookup_found(out, id);
            let i = choose|i: int|
                0 <= i < out.len() && (#[trigger] out[i]).0 == id && out[i].1 == server;
            assert(server is Object);
            lemma_regular_server(settings, out, i);
            lemma_unified_same(server->Object_0, found->Object_0);
        }
    }
}

/// No server in a document that can be read back has a key twice.
proof fn lemma_regular_server(
    root: Option<json::JsonModel>,
    servers: Seq<(Seq<char>, json::JsonModel)>,
    i: int,
)
    requires
        alike::is_regular(with_servers(root, servers)),
        0 <= i < servers.len(),
        servers[i].1 is Object,
    ensures
        entries::distinct_keys(servers[i].1->Object_0),
{
    let e = with_servers(root, servers)->Object_0;
    let last = e[e.len() - 1];
    assert(last == ("mcpServers"@, json::JsonModel::Object(servers)));
    assert(alike::is_regular(last.1));
    assert(last.1->Object_0[i] == servers[i]);
    assert(alike::is_regular(servers[i].1));
}

proof fn lemma_put_same(e: Seq<(Seq<char>, json::JsonModel)>)
    requires
        are_servers(e),
    ensures
        entries::put_all(e, e) == e,
{
    lemma_put_prefix(e, e.len() as int);
    assert(e.take(e.len() as int) == e);
    assert(e.skip(e.len() as int) + e == e);
}

/// Putting in the first `k` of some entries again moves them to the end.
proof fn lemma_put_prefix(e: Seq<(Seq<char>, json::JsonModel)>, k: int)
    requires
        are_servers(e),
        0 <= k <= e.len(),
    ensures
        entries::put_all(e, e.take(k)) == e.skip(k) + e.take(k),
    decreases k,
{
    if k == 0 {
        assert(e.take(0) == Seq::<(Seq<char>, json::JsonModel)>::empty());
        assert(e.skip(0) + e.take(0) == e);
    } else {
        let p = e.take(k - 1);
        let q = e.skip(k - 1);
        lemma_put_prefix(e, k - 1);
        assert(e.take(k).drop_last() == p);
        assert(e.take(k).last() == e[k - 1]);
        let all = q + p;
        let rest = e.skip(k) + p;
        lemma_without_first(all, e[k - 1].0);
        assert(all[0] == e[k - 1]);
        assert(all.drop_first() == rest);
        assert(rest.push(e[k - 1]) == e.skip(k) + e.take(k));
    }
}

proof fn lemma_without_first(e: Seq<(Seq<char>, json::JsonModel)>, key: Seq<char>)
    requires
        e.len() > 0,
        e[0].0 == key,
        forall|i: int| 0 < i < e.len() ==> (#[trigger] e[i]).0 != key,
    ensures
        entries::without(e, key) == e.drop_first(),
    decreases e.len(),
{
    if e.len() == 1 {
        assert(e.drop_last() == Seq::<(Seq<char>, json::JsonModel)>::empty());
        assert(entries::without(e.drop_last(), key) == Seq::<
            (Seq<char>, json::JsonModel),
        >::empty());
        assert(e.drop_first() == Seq::<(Seq<char>, json::JsonModel)>::empty());
    } else {
        let front = e.drop_last();
        assert forall|i: int| 0 < i < front.len() implies (#[trigger] front[i]).0 != key by {
            assert(front[i] == e[i]);
        }
        assert(front[0] == e[0]);
        lemma_without_first(front, key);
        assert(e.last() == e[e.len() - 1]);
        assert(front.drop_first().push(e.last()) == e.drop_first());
    }
}

proof fn lemma_lookup_without_keys(
    e: Seq<(Seq<char>, json::JsonModel)>,
    keys: Seq<Seq<char>>,
    key: Seq<char>,
)
    ensures
        json::lookup(without_keys(e, keys), key) == if keys.contains(key) {
            None
        } else {
            json::lookup(e, key)
        },
    decreases keys.len(),
{
    if keys.len() > 0 {
        let front = keys.drop_last();
        lemma_lookup_without_keys(e, front, key);
        entries::lemma_lookup_without(without_keys(e, front), keys.last(), key);
        assert(front.push(keys.last()) == keys);
        if front.contains(key) {
            let i = choose|i: int| 0 <= i < front.len() && front[i] == key;
            assert(keys[i] == key);
        }
        if keys.contains(key) && key != keys.last() {
            let i = choose|i: int| 0 <= i < keys.len() && keys[i] == key;
            assert(front[i] == key);
        }
        if key == keys.last() {
            assert(keys[keys.len() - 1] == key);
        }
    }
}

/// The keys of the timeouts of a server in the unified format.
pub open spec fn timeout_keys() -> Seq<Seq<char>> {
    seq![
        "startup_timeout_sec"@,
        "startup_timeout_ms"@,
        "tool_timeout_sec"@,
        "tool_timeout_ms"@,
    ]
}

proof fn lemma_taken_timeout(
    e: Seq<(Seq<char>, json::JsonModel)>,
    sec_key: Seq<char>,
    ms_key: Seq<char>,
    sec_fraction: u64,
    ms_fraction: u64,
    default_ms: u64,
    key: Seq<char>,
)
    ensures
        ({
            let left = taken_timeout(e, sec_key, ms_key, sec_fraction, ms_fraction, default_ms).1;
            &&& key != sec_key && key != ms_key ==> json::lookup(left, key) == json::lookup(e, key)
            &&& json::lookup(e, key) is None ==> json::lookup(left, key) is None
        }),
{
    let rest = entries::without(e, sec_key);
    entries::lemma_lookup_without(e, sec_key, key);
    entries::lemma_lookup_without(rest, ms_key, key);
}

proof fn lemma_written_lookup(
    e: Seq<(Seq<char>, json::JsonModel)>,
    f: FloatTimeouts,
    key: Seq<char>,
)
    requires
        key != "timeout"@,
    ensures
        ({
            let bare = without_keys(with_http_url(e), helper_keys());
            let written = json::lookup(written_server(e, f), key);
            &&& !timeout_keys().contains(key) ==> written == json::lookup(bare, key)
            &&& json::lookup(bare, key) is None ==> written is None
        }),
{
    let keys = timeout_keys();
    assert(keys[0] == "startup_timeout_sec"@);
    assert(keys[1] == "startup_timeout_ms"@);
    assert(keys[2] == "tool_timeout_sec"@);
    assert(keys[3] == "tool_timeout_ms"@);
    let bare = without_keys(with_http_url(e), helper_keys());
    lemma_taken_timeout(
        bare,
        "startup_timeout_sec"@,
        "startup_timeout_ms"@,
        f.startup_sec,
        f.startup_ms,
        DEFAULT_STARTUP_MS,
        key,
    );
    let startup = taken_timeout(
        bare,
        "startup_timeout_sec"@,
        "startup_timeout_ms"@,
        f.startup_sec,
        f.startup_ms,
        DEFAULT_STARTUP_MS,
    );
    lemma_taken_timeout(
        startup.1,
        "tool_timeout_sec"@,
        "tool_timeout_ms"@,
        f.tool_sec,
        f.tool_ms,
        DEFAULT_TOOL_MS,
        key,
    );
    let tool = taken_timeout(
        startup.1,
        "tool_timeout_sec"@,
        "tool_timeout_ms"@,
        f.tool_sec,
        f.tool_ms,
        DEFAULT_TOOL_MS,
    );
    let longer = if startup.0 > tool.0 {
        startup.0
    } else {
        tool.0
    };
    entries::lemma_lookup_put(
        tool.1,
        "timeout"@,
        json::JsonModel::Number(JsonNumber::Unsigned(longer)),
        key,
    );
}

proof fn lemma_key_texts()
    ensures
        "type"@ == seq!['t', 'y', 'p', 'e'],
        "httpUrl"@ == seq!['h', 't', 't', 'p', 'U', 'r', 'l'],
        "command"@ == seq!['c', 'o', 'm', 'm', 'a', 'n', 'd'],
        "timeout"@ == seq!['t', 'i', 'm', 'e', 'o', 'u', 't'],
        forall|i: int|
            0 <= i < timeout_keys().len() ==> (#[trigger] timeout_keys()[i]).len() >= 15,
        forall|i: int|
            0 <= i < helper_keys().len() ==> (#[trigger] helper_keys()[i]).len() != 3 && (
            helper_keys()[i].len() == 7 ==> helper_keys()[i][0] == 'e') && (
            helper_keys()[i].len() == 4 ==> helper_keys()[i][0] != 'a'),
        "url"@ == seq!['u', 'r', 'l'],
        "env"@ == seq!['e', 'n', 'v'],
        "args"@ == seq!['a', 'r', 'g', 's'],
{
    reveal_strlit("env");
    reveal_strlit("args");
    assert("env"@ =~= seq!['e', 'n', 'v']);
    assert("args"@ =~= seq!['a', 'r', 'g', 's']);
    reveal_strlit("url");
    assert("url"@ =~= seq!['u', 'r', 'l']);
    reveal_strlit("type");
    reveal_strlit("httpUrl");
    reveal_strlit("command");
    reveal_strlit("timeout");
    reveal_strlit("startup_timeout_sec");
    reveal_strlit("startup_timeout_ms");
    reveal_strlit("tool_timeout_sec");
    reveal_strlit("tool_timeout_ms");
    reveal_strlit("enabled");
    reveal_strlit("source");
    reveal_strlit("id");
    reveal_strlit("name");
    reveal_strlit("description");
    reveal_strlit("tags");
    reveal_strlit("homepage");
    reveal_strlit("docs");
    assert("type"@ =~= seq!['t', 'y', 'p', 'e']);
    assert("httpUrl"@ =~= seq!['h', 't', 't', 'p', 'U', 'r', 'l']);
    assert("command"@ =~= seq!['c', 'o', 'm', 'm', 'a', 'n', 'd']);
    assert("timeout"@ =~= seq!['t', 'i', 'm', 'e', 'o', 'u', 't']);
}

/// A written server has none of the keys that the programs do not know, and one
/// timeout in whole milliseconds.
pub proof fn law_written_server_is_clean(
    e: Seq<(Seq<char>, json::JsonModel)>,
    f: FloatTimeouts,
    key: Seq<char>,
)
    requires
        helper_keys().contains(key),
    ensures
        json::lookup(written_server(e, f), key) is None,
        json::lookup(written_server(e, f), "timeout"@) matches Some(
            json::JsonModel::Number(JsonNumber::Unsigned(_)),
        ),
{
    lemma_key_texts();
    let i = choose|i: int| 0 <= i < helper_keys().len() && helper_keys()[i] == key;
    assert(helper_keys()[i] == key);
    assert(key != "timeout"@);
    lemma_lookup_without_keys(with_http_url(e), helper_keys(), key);
    lemma_written_lookup(e, f, key);
    let bare = without_keys(with_http_url(e), helper_keys());
    let startup = taken_timeout(
        bare,
        "startup_timeout_sec"@,
        "startup_timeout_ms"@,
        f.startup_sec,
        f.startup_ms,
        DEFAULT_STARTUP_MS,
    );
    let tool = taken_timeout(
        startup.1,
        "tool_timeout_sec"@,
        "tool_timeout_ms"@,
        f.tool_sec,
        f.tool_ms,
        DEFAULT_TOOL_MS,
    );
    let longer = if startup.0 > tool.0 {
        startup.0
    } else {
        tool.0
    };
    entries::lemma_lookup_put(
        tool.1,
        "timeout"@,
        json::JsonModel::Number(JsonNumber::Unsigned(longer)),
        "timeout"@,
    );
}

/// The keys by which a server is reached.
pub open spec fn transport_keys() -> Seq<Seq<char>> {
    seq!["type"@, "command"@, "args"@, "env"@, "url"@]
}

/// Whether a server is of a known type and says how it is reached: a program has
/// a command, another an address and no command.
pub open spec fn is_plain_server(e: Seq<(Seq<char>, json::JsonModel)>) -> bool {
    let kind = json::opt_text(json::lookup(e, "type"@));
    &&& json::lookup(e, "httpUrl"@) is None
    &&& {
        ||| kind == Some("stdio"@) && has_key(e, "command"@)
        ||| (kind == Some("http"@) || kind == Some("sse"@)) && has_key(e, "url"@) && !has_key(
            e,
            "command"@,
        )
    }
}

/// How a server is reached survives writing and reading: the `type` that a
/// written server lacks is found again, and the command with its arguments and
/// environment, or the address, with it.
pub proof fn law_transport_survives(e: Seq<(Seq<char>, json::JsonModel)>, f: FloatTimeouts)
    requires
        is_plain_server(e),
    ensures
        forall|k: int|
            0 <= k < transport_keys().len() ==> json::lookup(
                unified_entries(written_server(e, f)),
                #[trigger] transport_keys()[k],
            ) == json::lookup(e, transport_keys()[k]),
        json::lookup(unified_entries(written_server(e, f)), "httpUrl"@) is None,
{
    lemma_key_texts();
    reveal_strlit("http");
    reveal_strlit("stdio");
    reveal_strlit("sse");
    assert("http"@.len() == 4 && "stdio"@.len() == 5 && "sse"@.len() == 3);
    let w = written_server(e, f);
    let back = unified_entries(w);
    assert("type"@.len() == 4 && "httpUrl"@.len() == 7 && "command"@.len() == 7
        && "timeout"@.len() == 7);
    assert("httpUrl"@[0] == 'h' && "command"@[0] == 'c' && "timeout"@[0] == 't');
    assert("url"@[0] == 'u' && "env"@[0] == 'e' && "args"@[0] == 'a' && "type"@[0] == 't');
    lemma_plain_key(e, f, "httpUrl"@);
    assert(helper_keys()[0] == "type"@);
    law_written_server_is_clean(e, f, "type"@);
    lemma_moved_lookup(e, "httpUrl"@);
    lemma_plain_lookup(w, "httpUrl"@);
    assert forall|k: int| 0 <= k < transport_keys().len() implies json::lookup(
        back,
        #[trigger] transport_keys()[k],
    ) == json::lookup(e, transport_keys()[k]) by {
        let key = transport_keys()[k];
        if key != "type"@ {
            lemma_plain_key(e, f, key);
            lemma_moved_lookup(e, key);
        }
        lemma_plain_key(e, f, "command"@);
        lemma_moved_lookup(e, "command"@);
        lemma_plain_key(e, f, "url"@);
        lemma_moved_lookup(e, "url"@);
        lemma_plain_lookup(w, key);
        lemma_plain_lookup(w, "type"@);
        lemma_plain_lookup(w, "command"@);
        lemma_plain_lookup(w, "url"@);
        let plain = with_plain_url(w);
        entries::lemma_lookup_put(plain, "type"@, json::JsonModel::Text("stdio"@), key);
        entries::lemma_lookup_put(plain, "type"@, json::JsonModel::Text("sse"@), key);
    }
    let plain = with_plain_url(w);
    entries::lemma_lookup_put(plain, "type"@, json::JsonModel::Text("stdio"@), "httpUrl"@);
    entries::lemma_lookup_put(plain, "type"@, json::JsonModel::Text("sse"@), "httpUrl"@);
}

/// What moving the address of an HTTP server leaves under a key.
proof fn lemma_moved_lookup(e: Seq<(Seq<char>, json::JsonModel)>, key: Seq<char>)
    requires
        "url"@ != "httpUrl"@,
    ensures
        ({
            let moves = json::opt_text(json::lookup(e, "type"@)) == Some("http"@) && has_key(
                e,
                "url"@,
            );
            json::lookup(with_http_url(e), key) == if moves && key == "httpUrl"@ {
                json::lookup(e, "url"@)
            } else if moves && key == "url"@ {
                None
            } else {
                json::lookup(e, key)
            }
        }),
{
    if let Some(u) = json::lookup(e, "url"@) {
        let rest = entries::without(e, "url"@);
        entries::lemma_lookup_without(e, "url"@, key);
        entries::lemma_lookup_put(rest, "httpUrl"@, u, key);
    }
}

/// What bringing the address of an HTTP server back leaves under a key.
proof fn lemma_plain_lookup(e: Seq<(Seq<char>, json::JsonModel)>, key: Seq<char>)
    requires
        "url"@ != "httpUrl"@,
        "type"@ != "httpUrl"@,
        "type"@ != "url"@,
    ensures
        json::lookup(with_plain_url(e), key) == match json::lookup(e, "httpUrl"@) {
            Some(u) => if key == "type"@ {
                Some(json::JsonModel::Text("http"@))
            } else if key == "url"@ {
                Some(u)
            } else if key == "httpUrl"@ {
                None
            } else {
                json::lookup(e, key)
            },
            None => json::lookup(e, key),
        },
{
    if let Some(u) = json::lookup(e, "httpUrl"@) {
        let rest = entries::without(e, "httpUrl"@);
        let plain = entries::put(rest, "url"@, u);
        entries::lemma_lookup_without(e, "httpUrl"@, key);
        entries::lemma_lookup_put(rest, "url"@, u, key);
        entries::lemma_lookup_put(plain, "type"@, json::JsonModel::Text("http"@), key);
    }
}

proof fn lemma_plain_key(e: Seq<(Seq<char>, json::JsonModel)>, f: FloatTimeouts, key: Seq<char>)
    requires
        key.len() == 3 || (key.len() == 7 && key[0] != 'e') || (key.len() == 4 && key[0] == 'a'),
        key != "timeout"@,
    ensures
        json::lookup(written_server(e, f), key) == json::lookup(with_http_url(e), key),
{
    lemma_key_texts();
    lemma_written_lookup(e, f, key);
    lemma_lookup_without_keys(with_http_url(e), helper_keys(), key);
}

/// Whether a server that is read is reached in the same way as one that was
/// written.
pub open spec fn is_reached_as(
    read: Option<json::JsonModel>,
    e: Seq<(Seq<char>, json::JsonModel)>,
) -> bool {
    &&& read matches Some(json::JsonModel::Object(found))
    &&& forall|k: int|
        0 <= k < transport_keys().len() ==> alike::same_found(
            json::lookup(e, #[trigger] transport_keys()[k]),
            json::lookup(found, transport_keys()[k]),
        )
    &&& json::lookup(found, "httpUrl"@) is None
}

/// Whether servers have distinct ids, and each is an object that says how it is
/// reached.
pub open spec fn are_plain_servers(servers: Seq<ServerModel>) -> bool {
    &&& forall|i: int, j: int|
        0 <= i < j < servers.len() ==> (#[trigger] servers[i]).id != (#[trigger] servers[j]).id
    &&& forall|i: int|
        0 <= i < servers.len() && (#[trigger] servers[i]).id != "mcpServers"@ ==> (
        servers[i].spec matches json::JsonModel::Object(e) && is_plain_server(e) && !has_key(
            e,
            "server"@,
        ))
}

/// What stands under an id among the servers that are written.
proof fn lemma_written_under(servers: Seq<ServerModel>, id: Seq<char>)
    requires
        are_plain_servers(servers),
    ensures
        written_servers(servers) is Ok,
        forall|i: int|
            0 <= i < servers.len() && (#[trigger] servers[i]).id == id && id != "mcpServers"@
                ==> json::lookup(written_servers(servers)->Ok_0, id) == Some(
                json::JsonModel::Object(
                    written_server(servers[i].spec->Object_0, servers[i].float_timeouts),
                ),
            ),
        json::lookup(written_servers(servers)->Ok_0, id) is Some ==> id != "mcpServers"@ && exists|
            i: int,
        |
            0 <= i < servers.len() && (#[trigger] servers[i]).id == id,
    decreases servers.len(),
{
    if servers.len() > 0 {
        let front = servers.drop_last();
        let last = servers.last();
        assert(last == servers[servers.len() - 1]);
        assert forall|i: int| 0 <= i < front.len() implies #[trigger] front[i] == servers[i] by {}
        assert forall|i: int, j: int| 0 <= i < j < front.len() implies (#[trigger] front[i]).id != (
        #[trigger] front[j]).id by {
            assert(servers[i].id != servers[j].id);
        }
        lemma_written_under(front, id);
        let before = written_servers(front)->Ok_0;
        if last.id != "mcpServers"@ {
            entries::lemma_lookup_put(
                before,
                last.id,
                json::JsonModel::Object(
                    written_server(last.spec->Object_0, last.float_timeouts),
                ),
                id,
            );
        }
        if json::lookup(before, id) is Some {
            let i = choose|i: int| 0 <= i < front.len() && (#[trigger] front[i]).id == id;
            assert(servers[i].id == id);
        }
        assert forall|i: int| 0 <= i < servers.len() && (#[trigger] servers[i]).id == id && id
            != "mcpServers"@ implies json::lookup(written_servers(servers)->Ok_0, id) == Some(
            json::JsonModel::Object(
                written_server(servers[i].spec->Object_0, servers[i].float_timeouts),
            ),
        ) by {
            if i < front.len() {
                assert(front[i] == servers[i]);
                assert(servers[i].id != servers[servers.len() - 1].id);
            }
        }
    } else {
        assert(written_servers(servers)->Ok_0 == Seq::<(Seq<char>, json::JsonModel)>::empty());
    }
}

/// Servers that are written to the files are read back from them under their
/// ids, and no others, and each is reached as before: by the same type, command,
/// arguments, environment and address.
pub proof fn law_servers_are_reached_as_before(
    files: McpFiles,
    servers: Seq<ServerModel>,
    settings: Option<json::JsonModel>,
    ide: Option<Option<Seq<char>>>,
)
    requires
        are_regular(servers),
        are_plain_servers(servers),
        written_servers(servers) matches Ok(out) ==> are_readable_files(files, out, settings, ide),
    ensures
        written_servers(servers) is Ok,
        servers_of_files(Some(files.settings@), text::opt_view(files.ide)) matches Ok(read) && {
            &&& forall|i: int|
                0 <= i < servers.len() && (#[trigger] servers[i]).id != "mcpServers"@
                    ==> is_reached_as(
                    json::lookup(read, servers[i].id),
                    servers[i].spec->Object_0,
                )
            &&& forall|id: Seq<char>| #[trigger]
                json::lookup(read, id) is Some ==> id != "mcpServers"@ && exists|i: int|
                    0 <= i < servers.len() && (#[trigger] servers[i]).id == id
        },
{
    lemma_written_under(servers, "mcpServers"@);
    law_written_files_are_read(files, servers, settings, ide);
    let out = written_servers(servers)->Ok_0;
    let read = servers_of_files(Some(files.settings@), text::opt_view(files.ide))->Ok_0;
    assert forall|i: int| 0 <= i < servers.len() && (#[trigger] servers[i]).id
        != "mcpServers"@ implies is_reached_as(
        json::lookup(read, servers[i].id),
        servers[i].spec->Object_0,
    ) by {
        let id = servers[i].id;
        let e = servers[i].spec->Object_0;
        lemma_written_under(servers, id);
        law_transport_survives(e, servers[i].float_timeouts);
        let w = written_server(e, servers[i].float_timeouts);
        let back = unified_entries(w);
        assert(json::lookup(out, id) == Some(json::JsonModel::Object(w)));
        assert(unified(json::JsonModel::Object(w)) == json::JsonModel::Object(back));
        let found = json::lookup(read, id)->0->Object_0;
        assert(alike::same(json::JsonModel::Object(back), json::JsonModel::Object(found)));
        alike::lemma_same_agree(back, found);
        assert(alike::same_found(
            json::lookup(back, "httpUrl"@),
            json::lookup(found, "httpUrl"@),
        ));
        assert forall|k: int| 0 <= k < transport_keys().len() implies alike::same_found(
            json::lookup(e, #[trigger] transport_keys()[k]),
            json::lookup(found, transport_keys()[k]),
        ) by {
            let key = transport_keys()[k];
            assert(json::lookup(back, key) == json::lookup(e, key));
            assert(alike::same_found(json::lookup(back, key), json::lookup(found, key)));
        }
    }
    assert forall|id: Seq<char>| #[trigger] json::lookup(read, id) is Some implies id
        != "mcpServers"@ && exists|i: int|
        0 <= i < servers.len() && (#[trigger] servers[i]).id == id by {
        lemma_written_under(servers, id);
        assert(alike::same_found(
            match json::lookup(out, id) {
                Some(server) => Some(unified(server)),
                None => None,
            },
            json::lookup(read, id),
        ));
    }
}

// ---------------------------------------------------------------------------
// What a server becomes
// ---------------------------------------------------------------------------

/// Whether a server gives a time under a key.
pub open spec fn gives_time(
    e: Seq<(Seq<char>, json::JsonModel)>,
    key: Seq<char>,
    n: u64,
) -> bool {
    json::lookup(e, key) == Some(json::JsonModel::Number(JsonNumber::Unsigned(n)))
}

/// Whether a number of units of so many milliseconds each is `ms` milliseconds: at
/// most the largest number that fits, none where it is below zero, and the
/// fraction that was worked out where it is one.
pub open spec fn is_time(number: JsonNumber, unit: int, fraction: u64, ms: u64) -> bool {
    match number {
        JsonNumber::Unsigned(n) => if n * unit <= u64::MAX {
            ms == n * unit
        } else {
            ms == u64::MAX
        },
        JsonNumber::Negative(_) => ms == 0,
        JsonNumber::Float(_) => ms == fraction,
    }
}

/// Whether a timeout of a server is `ms` milliseconds: that many seconds, else
/// that many milliseconds, else the default. What is no number is no time.
pub open spec fn has_timeout(
    e: Seq<(Seq<char>, json::JsonModel)>,
    sec_key: Seq<char>,
    ms_key: Seq<char>,
    sec_fraction: u64,
    ms_fraction: u64,
    default_ms: u64,
    ms: u64,
) -> bool {
    match (json::lookup(e, sec_key), json::lookup(e, ms_key)) {
        (Some(json::JsonModel::Number(n)), _) => is_time(n, 1000, sec_fraction, ms),
        (_, Some(json::JsonModel::Number(n))) => is_time(n, 1, ms_fraction, ms),
        _ => ms == default_ms,
    }
}

proof fn lemma_timeout_keys()
    ensures
        "startup_timeout_sec"@.len() == 19,
        "startup_timeout_ms"@.len() == 18,
        "tool_timeout_sec"@.len() == 16,
        "tool_timeout_ms"@.len() == 15,
        forall|i: int|
            0 <= i < helper_keys().len() ==> (#[trigger] helper_keys()[i]).len() < 15,
        "url"@.len() == 3,
        "httpUrl"@.len() == 7,
        "timeout"@.len() == 7,
{
    lemma_key_texts();
    reveal_strlit("startup_timeout_sec");
    reveal_strlit("startup_timeout_ms");
    reveal_strlit("tool_timeout_sec");
    reveal_strlit("tool_timeout_ms");
    reveal_strlit("enabled");
    reveal_strlit("source");
    reveal_strlit("id");
    reveal_strlit("name");
    reveal_strlit("description");
    reveal_strlit("tags");
    reveal_strlit("homepage");
    reveal_strlit("docs");
}

proof fn lemma_long_key(e: Seq<(Seq<char>, json::JsonModel)>, key: Seq<char>)
    requires
        key.len() >= 15,
    ensures
        json::lookup(without_keys(with_http_url(e), helper_keys()), key) == json::lookup(e, key),
{
    lemma_timeout_keys();
    lemma_lookup_without_keys(with_http_url(e), helper_keys(), key);
    lemma_moved_lookup(e, key);
}

proof fn lemma_timeout_is_taken(
    e: Seq<(Seq<char>, json::JsonModel)>,
    sec_key: Seq<char>,
    ms_key: Seq<char>,
    sec_fraction: u64,
    ms_fraction: u64,
    default_ms: u64,
    ms: u64,
)
    requires
        sec_key != ms_key,
        has_timeout(e, sec_key, ms_key, sec_fraction, ms_fraction, default_ms, ms),
    ensures
        taken_timeout(e, sec_key, ms_key, sec_fraction, ms_fraction, default_ms).0 == ms,
{
    let rest = entries::without(e, sec_key);
    entries::lemma_lookup_without(e, sec_key, ms_key);
}

/// A written server has one timeout: the longer one of the time to start, which is
/// ten seconds where it is not given, and the time of a tool, which is a minute
/// where it is not given. A time in seconds counts before one in milliseconds.
pub proof fn law_timeout_is_the_longer(
    e: Seq<(Seq<char>, json::JsonModel)>,
    f: FloatTimeouts,
    startup: u64,
    tool: u64,
)
    requires
        has_timeout(
            e,
            "startup_timeout_sec"@,
            "startup_timeout_ms"@,
            f.startup_sec,
            f.startup_ms,
            10_000,
            startup,
        ),
        has_timeout(
            e,
            "tool_timeout_sec"@,
            "tool_timeout_ms"@,
            f.tool_sec,
            f.tool_ms,
            60_000,
            tool,
        ),
    ensures
        gives_time(
            written_server(e, f),
            "timeout"@,
            if startup > tool {
                startup
            } else {
                tool
            },
        ),
{
    lemma_timeout_keys();
    lemma_long_key(e, "startup_timeout_sec"@);
    lemma_long_key(e, "startup_timeout_ms"@);
    lemma_long_key(e, "tool_timeout_sec"@);
    lemma_long_key(e, "tool_timeout_ms"@);
    let bare = without_keys(with_http_url(e), helper_keys());
    lemma_timeout_is_taken(
        bare,
        "startup_timeout_sec"@,
        "startup_timeout_ms"@,
        f.startup_sec,
        f.startup_ms,
        10_000,
        startup,
    );
    let a = taken_timeout(
        bare,
        "startup_timeout_sec"@,
        "startup_timeout_ms"@,
        f.startup_sec,
        f.startup_ms,
        DEFAULT_STARTUP_MS,
    );
    lemma_taken_timeout(
        bare,
        "startup_timeout_sec"@,
        "startup_timeout_ms"@,
        f.startup_sec,
        f.startup_ms,
        DEFAULT_STARTUP_MS,
        "tool_timeout_sec"@,
    );
    lemma_taken_timeout(
        bare,
        "startup_timeout_sec"@,
        "startup_timeout_ms"@,
        f.startup_sec,
        f.startup_ms,
        DEFAULT_STARTUP_MS,
        "tool_timeout_ms"@,
    );
    lemma_timeout_is_taken(
        a.1,
        "tool_timeout_sec"@,
        "tool_timeout_ms"@,
        f.tool_sec,
        f.tool_ms,
        60_000,
        tool,
    );
    let b = taken_timeout(
        a.1,
        "tool_timeout_sec"@,
        "tool_timeout_ms"@,
        f.tool_sec,
        f.tool_ms,
        DEFAULT_TOOL_MS,
    );
    let longer = if a.0 > b.0 {
        a.0
    } else {
        b.0
    };
    entries::lemma_lookup_put(
        b.1,
        "timeout"@,
        json::JsonModel::Number(JsonNumber::Unsigned(longer)),
        "timeout"@,
    );
}

/// What else a server says is written as it is: every key that is neither known to
/// the unified format alone, nor a timeout, nor an address.
pub proof fn law_other_keys_of_a_server_stay(
    e: Seq<(Seq<char>, json::JsonModel)>,
    f: FloatTimeouts,
    key: Seq<char>,
)
    requires
        !helper_keys().contains(key),
        !timeout_keys().contains(key),
        key != "timeout"@,
        key != "url"@,
        key != "httpUrl"@,
    ensures
        json::lookup(written_server(e, f), key) == json::lookup(e, key),
{
    lemma_timeout_keys();
    lemma_written_lookup(e, f, key);
    lemma_lookup_without_keys(with_http_url(e), helper_keys(), key);
    lemma_moved_lookup(e, key);
}

/// The address of an HTTP server is written under `httpUrl`, that of any other
/// under `url`.
pub proof fn law_address_is_written(
    e: Seq<(Seq<char>, json::JsonModel)>,
    f: FloatTimeouts,
    address: json::JsonModel,
)
    requires
        json::lookup(e, "url"@) == Some(address),
        json::lookup(e, "httpUrl"@) is None,
    ensures
        json::lookup(e, "type"@) == Some(json::JsonModel::Text("http"@)) ==> json::lookup(
            written_server(e, f),
            "httpUrl"@,
        ) == Some(address) && json::lookup(written_server(e, f), "url"@) is None,
        json::lookup(e, "type"@) != Some(json::JsonModel::Text("http"@)) ==> json::lookup(
            written_server(e, f),
            "url"@,
        ) == Some(address) && json::lookup(written_server(e, f), "httpUrl"@) is None,
{
    lemma_key_texts();
    lemma_timeout_keys();
    assert("httpUrl"@[0] == 'h' && "timeout"@[0] == 't');
    lemma_plain_key(e, f, "url"@);
    lemma_plain_key(e, f, "httpUrl"@);
    lemma_moved_lookup(e, "url"@);
    lemma_moved_lookup(e, "httpUrl"@);
}

/// A server that is read is of the type that it says; without one, a server with
/// an HTTP address is `http`, one with a command `stdio`, and one with another
/// address `sse`. An HTTP address stands under `url`, and all else is as it was.
pub proof fn law_server_is_unified(
    e: Seq<(Seq<char>, json::JsonModel)>,
    address: json::JsonModel,
    key: Seq<char>,
)
    ensures
        ({
            let u = unified_entries(e);
            &&& json::lookup(e, "httpUrl"@) == Some(address) ==> {
                &&& json::lookup(u, "type"@) == Some(json::JsonModel::Text("http"@))
                &&& json::lookup(u, "url"@) == Some(address)
                &&& json::lookup(u, "httpUrl"@) is None
            }
            &&& json::lookup(e, "httpUrl"@) is None && json::lookup(e, "type"@) is Some
                ==> json::lookup(u, "type"@) == json::lookup(e, "type"@)
            &&& json::lookup(e, "httpUrl"@) is None && json::lookup(e, "type"@) is None
                && json::lookup(e, "command"@) is Some ==> json::lookup(u, "type"@) == Some(
                json::JsonModel::Text("stdio"@),
            )
            &&& json::lookup(e, "httpUrl"@) is None && json::lookup(e, "type"@) is None
                && json::lookup(e, "command"@) is None && json::lookup(e, "url"@) is Some
                ==> json::lookup(u, "type"@) == Some(json::JsonModel::Text("sse"@))
            &&& json::lookup(e, "httpUrl"@) is None && key != "type"@ ==> json::lookup(u, key)
                == json::lookup(e, key)
            &&& key != "type"@ && key != "url"@ && key != "httpUrl"@ ==> json::lookup(u, key)
                == json::lookup(e, key)
        }),
{
    lemma_key_texts();
    assert("type"@.len() == 4 && "url"@.len() == 3 && "httpUrl"@.len() == 7);
    assert("command"@.len() == 7 && "command"@[0] == 'c' && "httpUrl"@[0] == 'h');
    let plain = with_plain_url(e);
    lemma_plain_lookup(e, "type"@);
    lemma_plain_lookup(e, "url"@);
    lemma_plain_lookup(e, "httpUrl"@);
    lemma_plain_lookup(e, "command"@);
    lemma_plain_lookup(e, key);
    entries::lemma_lookup_put(plain, "type"@, json::JsonModel::Text("stdio"@), "type"@);
    entries::lemma_lookup_put(plain, "type"@, json::JsonModel::Text("sse"@), "type"@);
    entries::lemma_lookup_put(plain, "type"@, json::JsonModel::Text("stdio"@), key);
    entries::lemma_lookup_put(plain, "type"@, json::JsonModel::Text("sse"@), key);
}

/// Servers are found beside and below `mcpServers`: each further server is there
/// under its id, and each further nest adds its servers; of two with one id the
/// later counts. What is no object is no server.
pub proof fn law_every_nested_server_is_found(
    e: Seq<(Seq<char>, json::JsonModel)>,
    name: Seq<char>,
    server: Seq<(Seq<char>, json::JsonModel)>,
    other: json::JsonModel,
    id: Seq<char>,
)
    requires
        name != "mcpServers"@,
        !(other is Object),
    ensures
        json::lookup(
            unwrapped(e.push((name, json::JsonModel::Object(server)))),
            id,
        ) == if id == name {
            Some(json::JsonModel::Object(server))
        } else {
            json::lookup(unwrapped(e), id)
        },
        json::lookup(
            unwrapped(e.push(("mcpServers"@, json::JsonModel::Object(server)))),
            id,
        ) == json::either(
            json::lookup(unwrapped(server), id),
            json::lookup(unwrapped(e), id),
        ),
        unwrapped(e.push((name, other))) == unwrapped(e),
{
    let a = e.push((name, json::JsonModel::Object(server)));
    let b = e.push(("mcpServers"@, json::JsonModel::Object(server)));
    let c = e.push((name, other));
    assert(a.subrange(0, a.len() - 1) == e);
    assert(b.subrange(0, b.len() - 1) == e);
    assert(c.subrange(0, c.len() - 1) == e);
    entries::lemma_lookup_put(unwrapped(e), name, json::JsonModel::Object(server), id);
    law_unwrapped_are_servers(server);
    law_unwrapped_are_servers(e);
    entries::lemma_lookup_put_all(unwrapped(e), unwrapped(server), id);
}

/// The servers of the settings are those under `mcpServers`, and those of the IDE
/// too; only the IDE may also have them at the top of its document. A document
/// that is missing has none.
pub proof fn law_servers_stand_in_their_documents(
    root: json::JsonModel,
    servers: Seq<(Seq<char>, json::JsonModel)>,
)
    ensures
        json::has_member(root, "mcpServers"@, json::JsonModel::Object(servers)) ==> {
            &&& settings_servers(Some(root)) == unwrapped(servers)
            &&& ide_servers(Some(root)) == unwrapped(servers)
        },
        root == json::JsonModel::Object(servers) && json::lacks_member(root, "mcpServers"@) ==> {
            &&& settings_servers(Some(root)).len() == 0
            &&& ide_servers(Some(root)) == unwrapped(servers)
        },
        settings_servers(None).len() == 0,
        ide_servers(None).len() == 0,
{
    json::law_member_is_found(root, "mcpServers"@);
}

/// A server is written from what stands under its `server`, where it has such,
/// else from what it says itself. One that is no object is refused under its id.
pub proof fn law_server_is_what_it_wraps(
    id: Seq<char>,
    spec: json::JsonModel,
    inner: json::JsonModel,
)
    ensures
        json::has_member(spec, "server"@, inner) && inner is Object ==> server_entries(id, spec)
            == Ok::<Seq<(Seq<char>, json::JsonModel)>, ErrorModel>(inner->Object_0),
        json::has_member(spec, "server"@, inner) && !(inner is Object) ==> server_entries(id, spec)
            == Err::<Seq<(Seq<char>, json::JsonModel)>, ErrorModel>(
            ErrorModel::ServerNotAnObject(id),
        ),
        spec is Object && json::lacks_member(spec, "server"@) ==> server_entries(id, spec) == Ok::<
            Seq<(Seq<char>, json::JsonModel)>,
            ErrorModel,
        >(spec->Object_0),
        !(spec is Object) ==> server_entries(id, spec) == Err::<
            Seq<(Seq<char>, json::JsonModel)>,
            ErrorModel,
        >(ErrorModel::NotAnObject(id)),
{
    json::law_member_is_found(spec, "server"@);
}

/// The keys that are known to the unified format alone, and those of timeouts, are
/// these and no others.
pub proof fn law_keys_that_are_not_written(key: Seq<char>)
    ensures
        helper_keys().contains(key) <==> key == "type"@ || key == "enabled"@ || key == "source"@
            || key == "id"@ || key == "name"@ || key == "description"@ || key == "tags"@ || key
            == "homepage"@ || key == "docs"@,
        timeout_keys().contains(key) <==> key == "startup_timeout_sec"@ || key
            == "startup_timeout_ms"@ || key == "tool_timeout_sec"@ || key == "tool_timeout_ms"@,
{
    let a = helper_keys();
    assert(a[0] == "type"@ && a[1] == "enabled"@ && a[2] == "source"@ && a[3] == "id"@);
    assert(a[4] == "name"@ && a[5] == "description"@ && a[6] == "tags"@);
    assert(a[7] == "homepage"@ && a[8] == "docs"@);
    let b = timeout_keys();
    assert(b[0] == "startup_timeout_sec"@ && b[1] == "startup_timeout_ms"@);
    assert(b[2] == "tool_timeout_sec"@ && b[3] == "tool_timeout_ms"@);
}

/// A time in seconds is never written, nor is one in milliseconds that was looked
/// at; one beside a time in seconds is not looked at, and stays.
pub proof fn law_timeouts_are_taken(e: Seq<(Seq<char>, json::JsonModel)>, f: FloatTimeouts)
    ensures
        ({
            let w = written_server(e, f);
            let startup = json::lookup(e, "startup_timeout_sec"@);
            let tool = json::lookup(e, "tool_timeout_sec"@);
            &&& json::lookup(w, "startup_timeout_sec"@) is None
            &&& json::lookup(w, "tool_timeout_sec"@) is None
            &&& startup is Some && startup->0 is Number ==> json::lookup(w, "startup_timeout_ms"@)
                == json::lookup(e, "startup_timeout_ms"@)
            &&& startup is None ==> json::lookup(w, "startup_timeout_ms"@) is None
            &&& tool is Some && tool->0 is Number ==> json::lookup(w, "tool_timeout_ms"@)
                == json::lookup(e, "tool_timeout_ms"@)
            &&& tool is None ==> json::lookup(w, "tool_timeout_ms"@) is None
        }),
{
    lemma_timeout_keys();
    lemma_long_key(e, "startup_timeout_sec"@);
    lemma_long_key(e, "startup_timeout_ms"@);
    lemma_long_key(e, "tool_timeout_sec"@);
    lemma_long_key(e, "tool_timeout_ms"@);
    let bare = without_keys(with_http_url(e), helper_keys());
    lemma_timeout_left(
        bare,
        "startup_timeout_sec"@,
        "startup_timeout_ms"@,
        f.startup_sec,
        f.startup_ms,
        DEFAULT_STARTUP_MS,
    );
    lemma_taken_timeout(
        bare,
        "startup_timeout_sec"@,
        "startup_timeout_ms"@,
        f.startup_sec,
        f.startup_ms,
        DEFAULT_STARTUP_MS,
        "tool_timeout_sec"@,
    );
    lemma_taken_timeout(
        bare,
        "startup_timeout_sec"@,
        "startup_timeout_ms"@,
        f.startup_sec,
        f.startup_ms,
        DEFAULT_STARTUP_MS,
        "tool_timeout_ms"@,
    );
    let a = taken_timeout(
        bare,
        "startup_timeout_sec"@,
        "startup_timeout_ms"@,
        f.startup_sec,
        f.startup_ms,
        DEFAULT_STARTUP_MS,
    );
    lemma_timeout_left(
        a.1,
        "tool_timeout_sec"@,
        "tool_timeout_ms"@,
        f.tool_sec,
        f.tool_ms,
        DEFAULT_TOOL_MS,
    );
    lemma_taken_timeout(
        a.1,
        "tool_timeout_sec"@,
        "tool_timeout_ms"@,
        f.tool_sec,
        f.tool_ms,
        DEFAULT_TOOL_MS,
        "startup_timeout_sec"@,
    );
    lemma_taken_timeout(
        a.1,
        "tool_timeout_sec"@,
        "tool_timeout_ms"@,
        f.tool_sec,
        f.tool_ms,
        DEFAULT_TOOL_MS,
        "startup_timeout_ms"@,
    );
    let b = taken_timeout(
        a.1,
        "tool_timeout_sec"@,
        "tool_timeout_ms"@,
        f.tool_sec,
        f.tool_ms,
        DEFAULT_TOOL_MS,
    );
    let longer = json::JsonModel::Number(
        JsonNumber::Unsigned(
            if a.0 > b.0 {
                a.0
            } else {
                b.0
            },
        ),
    );
    entries::lemma_lookup_put(b.1, "timeout"@, longer, "startup_timeout_sec"@);
    entries::lemma_lookup_put(b.1, "timeout"@, longer, "startup_timeout_ms"@);
    entries::lemma_lookup_put(b.1, "timeout"@, longer, "tool_timeout_sec"@);
    entries::lemma_lookup_put(b.1, "timeout"@, longer, "tool_timeout_ms"@);
}

proof fn lemma_timeout_left(
    e: Seq<(Seq<char>, json::JsonModel)>,
    sec_key: Seq<char>,
    ms_key: Seq<char>,
    sec_fraction: u64,
    ms_fraction: u64,
    default_ms: u64,
)
    requires
        sec_key != ms_key,
    ensures
        ({
            let left = taken_timeout(e, sec_key, ms_key, sec_fraction, ms_fraction, default_ms).1;
            let sec = json::lookup(e, sec_key);
            &&& json::lookup(left, sec_key) is None
            &&& sec is Some && sec->0 is Number ==> json::lookup(left, ms_key) == json::lookup(
                e,
                ms_key,
            )
            &&& sec is None ==> json::lookup(left, ms_key) is None
        }),
{
    let rest = entries::without(e, sec_key);
    entries::lemma_lookup_without(e, sec_key, sec_key);
    entries::lemma_lookup_without(e, sec_key, ms_key);
    entries::lemma_lookup_without(rest, ms_key, sec_key);
    entries::lemma_lookup_without(rest, ms_key, ms_key);
}

/// Each server is written under its own id, in the form that both programs know;
/// of two with one id the later counts, and one of the id `mcpServers` is left
/// out. A server that is no object is an error, and so is all behind it.
pub proof fn law_every_server_is_written(
    servers: Seq<ServerModel>,
    server: ServerModel,
    e: Seq<(Seq<char>, json::JsonModel)>,
    error: ErrorModel,
    id: Seq<char>,
)
    ensures
        written_servers(servers) is Ok && server.id != "mcpServers"@ && server_entries(
            server.id,
            server.spec,
        ) == Ok::<Seq<(Seq<char>, json::JsonModel)>, ErrorModel>(e) ==> {
            &&& written_servers(servers.push(server)) is Ok
            &&& json::lookup(written_servers(servers.push(server))->Ok_0, id) == if id
                == server.id {
                Some(json::JsonModel::Object(written_server(e, server.float_timeouts)))
            } else {
                json::lookup(written_servers(servers)->Ok_0, id)
            }
        },
        written_servers(servers) is Ok && server.id == "mcpServers"@ ==> written_servers(
            servers.push(server),
        ) == written_servers(servers),
        written_servers(servers) is Ok && server.id != "mcpServers"@ && server_entries(
            server.id,
            server.spec,
        ) == Err::<Seq<(Seq<char>, json::JsonModel)>, ErrorModel>(error) ==> written_servers(
            servers.push(server),
        ) == Err::<Seq<(Seq<char>, json::JsonModel)>, ErrorModel>(error),
        written_servers(servers) is Err ==> written_servers(servers.push(server))
            == written_servers(servers),
        written_servers(seq![]) == Ok::<Seq<(Seq<char>, json::JsonModel)>, ErrorModel>(seq![]),
{
    let all = servers.push(server);
    assert(all.drop_last() == servers);
    assert(all.last() == server);
    if let Ok(before) = written_servers(servers) {
        entries::lemma_lookup_put(
            before,
            server.id,
            json::JsonModel::Object(written_server(e, server.float_timeouts)),
            id,
        );
    }
}

/// Settings that are no document cannot be read, nor written to; a configuration
/// of the IDE that is none cannot be read, but is written anew. A file that is
/// missing has no servers.
pub proof fn law_broken_files(
    settings: Option<Seq<char>>,
    ide: Option<Seq<char>>,
    servers: Seq<ServerModel>,
    content: Seq<char>,
    why: Seq<char>,
)
    requires
        json::json_document(content) == Err::<json::JsonModel, Seq<char>>(why),
    ensures
        servers_of_files(Some(content), ide) == Err::<
            Seq<(Seq<char>, json::JsonModel)>,
            ErrorModel,
        >(ErrorModel::Settings(why)),
        settings is None ==> servers_of_files(settings, Some(content)) == Err::<
            Seq<(Seq<char>, json::JsonModel)>,
            ErrorModel,
        >(ErrorModel::Ide(why)),
        servers_of_files(None, None) == Ok::<Seq<(Seq<char>, json::JsonModel)>, ErrorModel>(
            merged_servers(None, None),
        ),
        merged_servers(None, None).len() == 0,
        written_servers(servers) is Ok ==> write_error(servers, Some(content)) == Some(
            ErrorModel::Settings(why),
        ),
        written_servers(servers) is Ok ==> write_error(servers, None) is None,
        ide_document(Some(content)) is None,
{
    assert(entries::put_all(
        Seq::<(Seq<char>, json::JsonModel)>::empty(),
        Seq::<(Seq<char>, json::JsonModel)>::empty(),
    ) == Seq::<(Seq<char>, json::JsonModel)>::empty());
}

/// The servers of two files that are documents are those of both documents.
pub proof fn law_files_are_their_documents(
    settings: Seq<char>,
    ide: Seq<char>,
    a: json::JsonModel,
    b: json::JsonModel,
)
    requires
        json::json_document(settings) == Ok::<json::JsonModel, Seq<char>>(a),
        json::json_document(ide) == Ok::<json::JsonModel, Seq<char>>(b),
    ensures
        servers_of_files(Some(settings), Some(ide)) == Ok::<
            Seq<(Seq<char>, json::JsonModel)>,
            ErrorModel,
        >(merged_servers(Some(a), Some(b))),
        servers_of_files(Some(settings), None) == Ok::<
            Seq<(Seq<char>, json::JsonModel)>,
            ErrorModel,
        >(merged_servers(Some(a), None)),
        servers_of_files(None, Some(ide)) == Ok::<
            Seq<(Seq<char>, json::JsonModel)>,
            ErrorModel,
        >(merged_servers(None, Some(b))),
        ide_document(Some(ide)) == Some(b),
{
}

} // verus!
