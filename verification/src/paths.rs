//! Where the programs keep their files.
//!
//! A path is a base that the operating system gives, and the names below it.

use crate::text;
use vstd::prelude::*;
use vstd::string::*;

verus! {

/// A base path and the names to be joined to it one after the other.
#[derive(Debug, PartialEq, Eq)]
pub struct JoinedPath {
    pub base: String,
    pub parts: Vec<String>,
}

/// A base path and the names below it.
#[verifier::ext_equal]
pub ghost struct PathModel {
    pub base: Seq<char>,
    pub parts: Seq<Seq<char>>,
}

impl View for JoinedPath {
    type V = PathModel;

    open spec fn view(&self) -> PathModel {
        PathModel { base: self.base@, parts: text::views(self.parts@) }
    }
}

/// The views of a list of paths.
pub open spec fn path_models(paths: Seq<JoinedPath>) -> Seq<PathModel> {
    Seq::new(paths.len(), |i: int| paths[i]@)
}

impl JoinedPath {
    /// A base path.
    pub fn new(base: &str) -> (r: Self)
        ensures
            r@ == (PathModel { base: base@, parts: seq![] }),
    {
        JoinedPath { base: base.to_owned(), parts: Vec::new() }
    }

    /// The path one name further down.
    pub fn join(self, name: &str) -> (r: Self)
        ensures
            r@ == (PathModel { base: self@.base, parts: self@.parts.push(name@) }),
    {
        let mut path = self;
        let ghost before = path.parts@;
        path.parts.push(name.to_owned());
        assert(text::views(path.parts@) == text::views(before).push(name@));
        path
    }
}

/// The value of an environment variable that overrides a directory: what is
/// left of it without white space at its ends, where that is anything.
pub open spec fn override_value(custom: Option<Seq<char>>) -> Option<Seq<char>> {
    match custom {
        Some(s) => if text::trimmed(s).len() > 0 {
            Some(text::trimmed(s))
        } else {
            None
        },
        None => None,
    }
}

/// The view of an optional string slice.
pub open spec fn opt_str(s: Option<&str>) -> Option<Seq<char>> {
    match s {
        Some(v) => Some(v@),
        None => None,
    }
}

/// `s`, or the empty path where there is none.
pub open spec fn or_empty(s: Option<Seq<char>>) -> Seq<char> {
    match s {
        Some(v) => v,
        None => ""@,
    }
}

fn override_of<'a>(custom: Option<&'a str>) -> (r: Option<&'a str>)
    ensures
        opt_str(r) == override_value(opt_str(custom)),
{
    match custom {
        Some(s) => {
            let t = text::trim_text(s);
            if t.is_empty() {
                None
            } else {
                Some(t)
            }
        },
        None => None,
    }
}

fn or_empty_of<'a>(s: Option<&'a str>) -> (r: &'a str)
    ensures
        r@ == or_empty(opt_str(s)),
{
    match s {
        Some(v) => v,
        None => "",
    }
}

// ---------------------------------------------------------------------------
// Gemini and Antigravity
// ---------------------------------------------------------------------------

/// The settings file of Gemini / Antigravity.
pub fn user_config_path(gemini_dir: &str) -> (r: JoinedPath)
    ensures
        r@.base == gemini_dir@,
        r@.parts == seq!["settings.json"@],
{
    JoinedPath::new(gemini_dir).join("settings.json")
}

/// The configuration directory of the Antigravity IDE.
pub fn get_antigravity_ide_dir(gemini_dir: &str) -> (r: JoinedPath)
    ensures
        r@.base == gemini_dir@,
        r@.parts == seq!["antigravity-ide"@],
{
    JoinedPath::new(gemini_dir).join("antigravity-ide")
}

/// The MCP configuration of the Antigravity IDE.
pub fn get_antigravity_ide_mcp_path(gemini_dir: &str) -> (r: JoinedPath)
    ensures
        r@.base == gemini_dir@,
        r@.parts == seq!["antigravity-ide"@, "mcp_config.json"@],
{
    JoinedPath::new(gemini_dir).join("antigravity-ide").join("mcp_config.json")
}

/// The products that keep conversations below the Gemini directory.
pub open spec fn clients() -> Seq<Seq<char>> {
    seq!["antigravity"@, "antigravity-local"@, "antigravity-cli"@, "antigravity-ide"@]
}

/// A path below a base.
pub open spec fn below(base: Seq<char>, parts: Seq<Seq<char>>) -> PathModel {
    PathModel { base, parts }
}

/// The conversation directories of the products.
pub open spec fn client_dirs(base: Seq<char>, above: Seq<Seq<char>>) -> Seq<PathModel> {
    Seq::new(4, |i: int| below(base, above.push(clients()[i]).push("conversations"@)))
}

fn push_path(paths: &mut Vec<JoinedPath>, path: JoinedPath)
    ensures
        path_models(final(paths)@) == path_models(old(paths)@).push(path@),
{
    let ghost before = paths@;
    paths.push(path);
    assert(path_models(paths@) == path_models(before).push(path@));
}

fn given_paths(custom: &Vec<String>) -> (r: Vec<JoinedPath>)
    ensures
        path_models(r@) == Seq::new(custom@.len(), |i: int| below(custom@[i]@, seq![])),
{
    let mut out: Vec<JoinedPath> = Vec::new();
    let mut i: usize = 0;
    while i < custom.len()
        invariant
            i <= custom@.len(),
            out@.len() == i,
            forall|k: int| 0 <= k < i ==> (#[trigger] out@[k])@ == below(custom@[k]@, seq![]),
        decreases custom@.len() - i,
    {
        out.push(JoinedPath::new(custom[i].as_str()));
        i = i + 1;
    }
    assert(path_models(out@) == Seq::new(custom@.len(), |i: int| below(custom@[i]@, seq![])));
    out
}

/// The directories that are scanned for conversations: those that the
/// environment gives, or those of the products below `.gemini`.
pub fn get_default_antigravity_conversations_dirs(custom: Option<&Vec<String>>, home: &str) -> (r:
    Vec<JoinedPath>)
    ensures
        path_models(r@) == (match custom {
            Some(dirs) => Seq::new(dirs@.len(), |i: int| below(dirs@[i]@, seq![])),
            None => client_dirs(home@, seq![".gemini"@]),
        }),
{
    match custom {
        Some(dirs) => given_paths(dirs),
        None => {
            let mut out: Vec<JoinedPath> = Vec::new();
            assert(path_models(out@) == Seq::<PathModel>::empty());
            push_path(
                &mut out,
                JoinedPath::new(home).join(".gemini").join("antigravity").join("conversations"),
            );
            push_path(
                &mut out,
                JoinedPath::new(home).join(".gemini").join("antigravity-local").join("conversations"),
            );
            push_path(
                &mut out,
                JoinedPath::new(home).join(".gemini").join("antigravity-cli").join("conversations"),
            );
            push_path(
                &mut out,
                JoinedPath::new(home).join(".gemini").join("antigravity-ide").join("conversations"),
            );
            assert(path_models(out@) == client_dirs(home@, seq![".gemini"@]));
            out
        },
    }
}

/// The directories that are scanned for sessions: those that the environment
/// gives, or those of the products.
pub fn get_conversation_dirs(custom: Option<&Vec<String>>, gemini_dir: &str) -> (r: Vec<JoinedPath>)
    ensures
        path_models(r@) == (match custom {
            Some(dirs) => Seq::new(dirs@.len(), |i: int| below(dirs@[i]@, seq![])),
            None => client_dirs(gemini_dir@, seq![]),
        }),
{
    match custom {
        Some(dirs) => given_paths(dirs),
        None => default_conversation_dirs(gemini_dir),
    }
}

fn default_conversation_dirs(gemini_dir: &str) -> (r: Vec<JoinedPath>)
    ensures
        path_models(r@) == client_dirs(gemini_dir@, seq![]),
{
    let mut out: Vec<JoinedPath> = Vec::new();
    assert(path_models(out@) == Seq::<PathModel>::empty());
    push_path(&mut out, JoinedPath::new(gemini_dir).join("antigravity").join("conversations"));
    push_path(&mut out, JoinedPath::new(gemini_dir).join("antigravity-local").join("conversations"));
    push_path(&mut out, JoinedPath::new(gemini_dir).join("antigravity-cli").join("conversations"));
    push_path(&mut out, JoinedPath::new(gemini_dir).join("antigravity-ide").join("conversations"));
    assert(path_models(out@) == client_dirs(gemini_dir@, seq![]));
    out
}

/// The directories below which a session may be deleted: those that the
/// environment gives, or the conversation directories, the directories of the
/// products, the directory of legacy sessions and the Gemini directory.
pub fn session_roots(custom: Option<&Vec<String>>, gemini_dir: &str) -> (r: Vec<JoinedPath>)
    ensures
        path_models(r@) == (match custom {
            Some(dirs) => Seq::new(dirs@.len(), |i: int| below(dirs@[i]@, seq![])),
            None => client_dirs(gemini_dir@, seq![]) + Seq::new(
                4,
                |i: int| below(gemini_dir@, seq![clients()[i]]),
            ) + seq![below(gemini_dir@, seq!["tmp"@]), below(gemini_dir@, seq![])],
        }),
{
    match custom {
        Some(dirs) => given_paths(dirs),
        None => {
            let mut out = default_conversation_dirs(gemini_dir);
            push_path(&mut out, JoinedPath::new(gemini_dir).join("antigravity"));
            push_path(&mut out, JoinedPath::new(gemini_dir).join("antigravity-local"));
            push_path(&mut out, JoinedPath::new(gemini_dir).join("antigravity-cli"));
            push_path(&mut out, JoinedPath::new(gemini_dir).join("antigravity-ide"));
            push_path(&mut out, JoinedPath::new(gemini_dir).join("tmp"));
            push_path(&mut out, JoinedPath::new(gemini_dir));
            let ghost tops = Seq::new(4, |i: int| below(gemini_dir@, seq![clients()[i]]));
            assert(path_models(out@) == client_dirs(gemini_dir@, seq![]) + tops + seq![
                below(gemini_dir@, seq!["tmp"@]),
                below(gemini_dir@, seq![]),
            ]);
            out
        },
    }
}

// ---------------------------------------------------------------------------
// The other programs
// ---------------------------------------------------------------------------

/// The traces of CodeBuddy.
pub fn codebuddy_traces_dir(custom: Option<&str>, home: Option<&str>) -> (r: JoinedPath)
    ensures
        r@ == (match override_value(opt_str(custom)) {
            Some(dir) => below(dir, seq!["traces"@]),
            None => below(or_empty(opt_str(home)), seq![".codebuddy"@, "traces"@]),
        }),
{
    match override_of(custom) {
        Some(dir) => JoinedPath::new(dir).join("traces"),
        None => JoinedPath::new(or_empty_of(home)).join(".codebuddy").join("traces"),
    }
}

/// The logs of the CodeBuddy CN IDE.
pub fn codebuddy_cn_logs_dir(custom: Option<&str>, data_dir: Option<&str>) -> (r: JoinedPath)
    ensures
        r@ == (match override_value(opt_str(custom)) {
            Some(dir) => below(dir, seq![]),
            None => below(or_empty(opt_str(data_dir)), seq!["CodeBuddyExtension"@, "Logs"@, "CodeBuddyIDE"@]),
        }),
{
    match override_of(custom) {
        Some(dir) => JoinedPath::new(dir),
        None => JoinedPath::new(or_empty_of(data_dir)).join("CodeBuddyExtension").join("Logs").join("CodeBuddyIDE"),
    }
}

/// The history and messages of the CodeBuddy extension.
pub fn codebuddy_extension_data_dir(custom: Option<&str>, data_dir: Option<&str>) -> (r: JoinedPath)
    ensures
        r@ == (match override_value(opt_str(custom)) {
            Some(dir) => below(dir, seq![]),
            None => below(or_empty(opt_str(data_dir)), seq!["CodeBuddyExtension"@, "Data"@]),
        }),
{
    match override_of(custom) {
        Some(dir) => JoinedPath::new(dir),
        None => JoinedPath::new(or_empty_of(data_dir)).join("CodeBuddyExtension").join("Data"),
    }
}

/// The traces of WorkBuddy.
pub fn workbuddy_traces_dir(custom: Option<&str>, home: Option<&str>) -> (r: JoinedPath)
    ensures
        r@ == (match override_value(opt_str(custom)) {
            Some(dir) => below(dir, seq!["traces"@]),
            None => below(or_empty(opt_str(home)), seq![".workbuddy"@, "traces"@]),
        }),
{
    match override_of(custom) {
        Some(dir) => JoinedPath::new(dir).join("traces"),
        None => JoinedPath::new(or_empty_of(home)).join(".workbuddy").join("traces"),
    }
}

/// The projects of Qoder.
pub fn qoder_projects_root(custom: Option<&str>, home: &str) -> (r: JoinedPath)
    ensures
        r@ == (match override_value(opt_str(custom)) {
            Some(dir) => below(dir, seq![]),
            None => below(home@, seq![".qoder"@, "projects"@]),
        }),
{
    match override_of(custom) {
        Some(dir) => JoinedPath::new(dir),
        None => JoinedPath::new(home).join(".qoder").join("projects"),
    }
}

/// The projects of QoderCN.
pub fn qodercn_projects_root(custom: Option<&str>, home: &str) -> (r: JoinedPath)
    ensures
        r@ == (match override_value(opt_str(custom)) {
            Some(dir) => below(dir, seq![]),
            None => below(home@, seq![".qoder-cn"@, "projects"@]),
        }),
{
    match override_of(custom) {
        Some(dir) => JoinedPath::new(dir),
        None => JoinedPath::new(home).join(".qoder-cn").join("projects"),
    }
}

/// The operating systems that keep the QoderCN database in different places.
#[derive(Debug, Clone, Copy, PartialEq, Eq, Structural)]
pub enum Platform {
    MacOs,
    Linux,
    Windows,
    Other,
}

/// The place of the QoderCN IDE database below the home directory, on Windows
/// below the data directory.
pub open spec fn ide_db_parts(platform: Platform) -> Seq<Seq<char>> {
    match platform {
        Platform::MacOs => seq![
            "Library"@,
            "Application Support"@,
            "QoderCN"@,
            "SharedClientCache"@,
            "cache"@,
            "db"@,
            "local.db"@,
        ],
        Platform::Linux => seq![
            ".config"@,
            "QoderCN"@,
            "SharedClientCache"@,
            "cache"@,
            "db"@,
            "local.db"@,
        ],
        Platform::Windows => seq!["QoderCN"@, "SharedClientCache"@, "cache"@, "db"@, "local.db"@],
        Platform::Other => seq![".qoder-cn"@, "local.db"@],
    }
}

/// The database of the QoderCN IDE.
pub fn qodercn_ide_db_path(custom: Option<&str>, platform: Platform, base: &str) -> (r: JoinedPath)
    ensures
        r@ == (match override_value(opt_str(custom)) {
            Some(file) => below(file, seq![]),
            None => below(base@, ide_db_parts(platform)),
        }),
{
    match override_of(custom) {
        Some(file) => JoinedPath::new(file),
        None => {
            let root = JoinedPath::new(base);
            match platform {
                Platform::MacOs => root.join("Library").join("Application Support").join(
                    "QoderCN",
                ).join("SharedClientCache").join("cache").join("db").join("local.db"),
                Platform::Linux => root.join(".config").join("QoderCN").join(
                    "SharedClientCache",
                ).join("cache").join("db").join("local.db"),
                Platform::Windows => root.join("QoderCN").join("SharedClientCache").join(
                    "cache",
                ).join("db").join("local.db"),
                Platform::Other => root.join(".qoder-cn").join("local.db"),
            }
        },
    }
}

/// A directory that is given in the environment counts, without white space around
/// it; a blank one does not.
pub proof fn law_given_directory_counts(before: Seq<char>, dir: Seq<char>, after: Seq<char>)
    requires
        text::is_blank(before),
        text::is_blank(after),
        text::is_bare(dir),
    ensures
        override_value(Some(before + dir + after)) == Some(dir),
        override_value(Some(before + after)) is None,
        override_value(None) is None,
{
    text::law_padding_is_trimmed(before, dir, after);
    let none = Seq::<char>::empty();
    assert(before + none + after == before + after);
    text::law_padding_is_trimmed(before, none, after);
}

/// Conversations are looked for below every product, and nowhere else.
pub proof fn law_every_product_has_conversations(
    base: Seq<char>,
    above: Seq<Seq<char>>,
    product: Seq<char>,
)
    ensures
        client_dirs(base, above).contains(
            PathModel { base, parts: above + seq![product, "conversations"@] },
        ) <==> product == "antigravity"@ || product == "antigravity-local"@ || product
            == "antigravity-cli"@ || product == "antigravity-ide"@,
        client_dirs(base, above).len() == 4,
{
    let dirs = client_dirs(base, above);
    let path = PathModel { base, parts: above + seq![product, "conversations"@] };
    let names = clients();
    assert(names[0] == "antigravity"@ && names[1] == "antigravity-local"@);
    assert(names[2] == "antigravity-cli"@ && names[3] == "antigravity-ide"@);
    assert forall|i: int| 0 <= i < 4 && names[i] == product implies #[trigger] dirs[i] == path by {
        assert(above.push(names[i]).push("conversations"@) =~= path.parts);
    }
    if dirs.contains(path) {
        let i = choose|i: int| 0 <= i < dirs.len() && dirs[i] == path;
        assert(dirs[i].parts[above.len() as int] == names[i]);
        assert(path.parts[above.len() as int] == product);
    } else {
        assert(names[0] == product ==> dirs[0] == path);
        assert(names[1] == product ==> dirs[1] == path);
        assert(names[2] == product ==> dirs[2] == path);
        assert(names[3] == product ==> dirs[3] == path);
    }
}

/// The settings and the files of the IDE stand below the directory of Gemini.
pub proof fn law_files_stand_below_the_directory(
    gemini: &str,
    settings: JoinedPath,
    ide: JoinedPath,
    servers: JoinedPath,
)
    requires
        call_ensures(user_config_path, (gemini,), settings),
        call_ensures(get_antigravity_ide_dir, (gemini,), ide),
        call_ensures(get_antigravity_ide_mcp_path, (gemini,), servers),
    ensures
        settings@.base == gemini@,
        settings@.parts == seq!["settings.json"@],
        ide@.base == gemini@,
        ide@.parts == seq!["antigravity-ide"@],
        servers@.base == ide@.base,
        servers@.parts == ide@.parts.push("mcp_config.json"@),
{
}

} // verus!
