//! The files that importers look for in a tree of directories.

use crate::maps::TextMap;
use crate::order;
use crate::order::sort_paths;
use crate::text;
use crate::traces;
use crate::traces::is_trace_file_name;
use vstd::prelude::*;
use vstd::string::*;

verus! {

/// A file of a tree of directories.
#[derive(Debug)]
pub struct FoundFile {
    pub path: String,
    pub extension: Option<String>,
    /// The name of the file without its extension.
    pub stem: Option<String>,
    /// The name of the directory of the file.
    pub parent: Option<String>,
    /// How many directories lie between the root of the tree and the file.
    pub depth: usize,
}

/// What is looked for.
#[derive(Debug, Clone, Copy, PartialEq, Eq, Structural)]
pub enum FileKind {
    /// A log of the CodeBuddy IDE.
    IdeLog,
    /// A message of a CodeBuddy conversation.
    Message,
    /// A Qoder session.
    Session,
    /// A trace of CodeBuddy or WorkBuddy.
    Trace,
}

impl FileKind {
    /// How deep in the tree files of the kind are looked for.
    pub open spec fn deepest(self) -> Option<usize> {
        match self {
            FileKind::IdeLog => Some(4),
            FileKind::Message => Some(9),
            FileKind::Session => None,
            FileKind::Trace => Some(1),
        }
    }

    /// Whether a directory at this depth is looked into.
    pub open spec fn enters(self, depth: usize) -> bool {
        match self.deepest() {
            Some(d) => depth <= d,
            None => true,
        }
    }

    /// Whether a file is of the kind. The names of sessions and traces are compared
    /// with regard to case, those of the others without. Traces stand in the
    /// directories of the root, other files wherever they may be.
    pub open spec fn fits(self, f: FoundFile) -> bool {
        match (self, f.extension) {
            (_, None) => false,
            (FileKind::IdeLog, Some(e)) => text::lower(e@) == text::lower("log"@),
            (FileKind::Message, Some(e)) => text::lower(e@) == text::lower("json"@)
                && text::opt_view(f.parent) == Some("messages"@) && f.stem is Some,
            (FileKind::Session, Some(e)) => e@ == "jsonl"@,
            (FileKind::Trace, Some(e)) => match f.stem {
                Some(stem) => f.depth == 1 && traces::is_trace_name(stem@ + "."@ + e@),
                None => false,
            },
        }
    }

    /// Whether a file is looked for.
    pub open spec fn takes(self, f: FoundFile) -> bool {
        self.enters(f.depth) && self.fits(f)
    }

    /// Whether a directory at this depth is looked into.
    pub fn enters_dir(self, depth: usize) -> (r: bool)
        ensures
            r == self.enters(depth),
    {
        match self {
            FileKind::IdeLog => depth <= 4,
            FileKind::Message => depth <= 9,
            FileKind::Session => true,
            FileKind::Trace => depth <= 1,
        }
    }

    /// Whether a file is looked for.
    pub fn takes_file(self, f: &FoundFile) -> (r: bool)
        ensures
            r == self.takes(*f),
    {
        if !self.enters_dir(f.depth) {
            return false;
        }
        match &f.extension {
            None => false,
            Some(e) => match self {
                FileKind::IdeLog => text::same_ignoring_case(e.as_str(), "log"),
                FileKind::Message => {
                    let in_messages = match &f.parent {
                        Some(p) => text::same_text(p.as_str(), "messages"),
                        None => false,
                    };
                    text::same_ignoring_case(e.as_str(), "json") && in_messages
                        && f.stem.is_some()
                },
                FileKind::Session => text::same_text(e.as_str(), "jsonl"),
                FileKind::Trace => match &f.stem {
                    Some(stem) => {
                        let name = text::concat3(stem.as_str(), ".", e.as_str());
                        f.depth == 1 && is_trace_file_name(name.as_str())
                    },
                    None => false,
                },
            },
        }
    }
}

/// The paths of the files of a kind, in the order in which they were found.
pub open spec fn chosen_paths(found: Seq<FoundFile>, kind: FileKind) -> Seq<Seq<char>>
    decreases found.len(),
{
    if found.len() == 0 {
        seq![]
    } else if kind.takes(found.last()) {
        chosen_paths(found.drop_last(), kind).push(found.last().path@)
    } else {
        chosen_paths(found.drop_last(), kind)
    }
}

/// Picks the paths of the files of a kind.
pub fn choose_files(found: &Vec<FoundFile>, kind: FileKind) -> (r: Vec<String>)
    ensures
        text::views(r@) == chosen_paths(found@, kind),
{
    let mut out: Vec<String> = Vec::new();
    let mut i: usize = 0;
    assert(found@.take(0) == Seq::<FoundFile>::empty());
    assert(text::views(out@) == Seq::<Seq<char>>::empty());
    while i < found.len()
        invariant
            i <= found@.len(),
            text::views(out@) == chosen_paths(found@.take(i as int), kind),
        decreases found@.len() - i,
    {
        assert(found@.take(i + 1).drop_last() == found@.take(i as int));
        assert(found@.take(i + 1).last() == found@[i as int]);
        if kind.takes_file(&found[i]) {
            let ghost before = out@;
            let path = found[i].path.clone();
            out.push(path);
            assert(text::views(out@) == text::views(before).push(path@));
        }
        i = i + 1;
    }
    assert(found@.take(found@.len() as int) == found@);
    out
}

/// The logs among the files of the directory of the CodeBuddy IDE, in ascending
/// order.
pub fn collect_codebuddy_cn_log_files(found: &Vec<FoundFile>) -> (r: Vec<String>)
    ensures
        text::views(r@) == order::sorted(chosen_paths(found@, FileKind::IdeLog)),
        order::is_ascending(text::views(r@)),
        text::views(r@).to_multiset() == chosen_paths(found@, FileKind::IdeLog).to_multiset(),
{
    sort_paths(choose_files(found, FileKind::IdeLog))
}

/// The sessions among the files of a Qoder projects directory, in ascending order.
pub fn collect_jsonl_files(found: &Vec<FoundFile>) -> (r: Vec<String>)
    ensures
        text::views(r@) == order::sorted(chosen_paths(found@, FileKind::Session)),
        order::is_ascending(text::views(r@)),
        text::views(r@).to_multiset() == chosen_paths(found@, FileKind::Session).to_multiset(),
{
    sort_paths(choose_files(found, FileKind::Session))
}

/// The traces among the files of a traces directory, in ascending order.
pub fn collect_trace_files(found: &Vec<FoundFile>) -> (r: Vec<String>)
    ensures
        text::views(r@) == order::sorted(chosen_paths(found@, FileKind::Trace)),
        order::is_ascending(text::views(r@)),
        text::views(r@).to_multiset() == chosen_paths(found@, FileKind::Trace).to_multiset(),
{
    sort_paths(choose_files(found, FileKind::Trace))
}

/// The paths of the messages among some files by their ids. Of two messages
/// with one id the later counts.
pub open spec fn message_paths(found: Seq<FoundFile>) -> Map<Seq<char>, Seq<char>>
    decreases found.len(),
{
    if found.len() == 0 {
        Map::empty()
    } else if FileKind::Message.takes(found.last()) {
        message_paths(found.drop_last()).insert(found.last().stem->0@, found.last().path@)
    } else {
        message_paths(found.drop_last())
    }
}

/// Indexes the messages among some files by their ids.
pub fn build_codebuddy_messages_index(found: &Vec<FoundFile>) -> (r: TextMap)
    ensures
        r@ == message_paths(found@),
{
    let mut out = TextMap::new();
    let mut i: usize = 0;
    assert(found@.take(0) == Seq::<FoundFile>::empty());
    while i < found.len()
        invariant
            i <= found@.len(),
            out@ == message_paths(found@.take(i as int)),
        decreases found@.len() - i,
    {
        assert(found@.take(i + 1).drop_last() == found@.take(i as int));
        assert(found@.take(i + 1).last() == found@[i as int]);
        let file = &found[i];
        if FileKind::Message.takes_file(file) {
            if let Some(stem) = &file.stem {
                out.insert(stem.clone(), file.path.clone());
            }
        }
        i = i + 1;
    }
    assert(found@.take(found@.len() as int) == found@);
    out
}

/// Every path that is picked is that of a file of the kind, and every file of
/// the kind is picked.
pub proof fn law_files_of_a_kind(found: Seq<FoundFile>, kind: FileKind, path: Seq<char>)
    ensures
        chosen_paths(found, kind).contains(path) <==> exists|i: int|
            0 <= i < found.len() && kind.takes(#[trigger] found[i]) && found[i].path@ == path,
    decreases found.len(),
{
    if found.len() > 0 {
        let front = found.drop_last();
        let before = chosen_paths(front, kind);
        law_files_of_a_kind(front, kind, path);
        if chosen_paths(found, kind).contains(path) {
            let k = choose|k: int|
                0 <= k < chosen_paths(found, kind).len() && chosen_paths(found, kind)[k] == path;
            if kind.takes(found.last()) && k == before.len() {
                assert(found[found.len() - 1].path@ == path);
            } else {
                assert(before[k] == path);
                let i = choose|i: int|
                    0 <= i < front.len() && kind.takes(#[trigger] front[i]) && front[i].path@
                        == path;
                assert(found[i] == front[i]);
            }
        }
        if exists|i: int|
            0 <= i < found.len() && kind.takes(#[trigger] found[i]) && found[i].path@ == path {
            let i = choose|i: int|
                0 <= i < found.len() && kind.takes(#[trigger] found[i]) && found[i].path@ == path;
            if i < front.len() {
                assert(front[i] == found[i]);
                let k = choose|k: int| 0 <= k < before.len() && before[k] == path;
                assert(chosen_paths(found, kind)[k] == path);
            } else {
                assert(chosen_paths(found, kind)[before.len() as int] == path);
            }
        }
    }
}

/// What is looked for, and where: logs with the extension `log` in any case, not
/// deeper than four directories; messages with the extension `json` in any case
/// in a directory `messages`, not deeper than nine; sessions with the extension
/// `jsonl`, at any depth; traces named `trace_….json`, one directory down.
pub proof fn law_files_are_told_by_name_and_place(f: FoundFile, extension: Seq<char>)
    requires
        text::opt_view(f.extension) == Some(extension),
    ensures
        FileKind::IdeLog.takes(f) <==> f.depth <= 4 && text::lower(extension) == text::lower(
            "log"@,
        ),
        FileKind::Message.takes(f) <==> f.depth <= 9 && text::lower(extension) == text::lower(
            "json"@,
        ) && text::opt_view(f.parent) == Some("messages"@) && f.stem is Some,
        FileKind::Session.takes(f) <==> extension == "jsonl"@,
        FileKind::Trace.takes(f) <==> f.depth == 1 && f.stem is Some && traces::is_trace_name(
            f.stem->0@ + "."@ + extension,
        ),
{
}

/// A file without an extension is not looked for.
pub proof fn law_files_need_an_extension(f: FoundFile, kind: FileKind)
    requires
        f.extension is None,
    ensures
        !kind.takes(f),
{
}

/// Of the messages that were found, each is indexed under its name; of two with one
/// name the later counts.
pub proof fn law_messages_are_indexed(found: Seq<FoundFile>, f: FoundFile, id: Seq<char>)
    requires
        FileKind::Message.takes(f),
        text::opt_view(f.stem) == Some(id),
    ensures
        message_paths(found.push(f)) == message_paths(found).insert(id, f.path@),
{
    assert(found.push(f).drop_last() == found);
    assert(found.push(f).last() == f);
}

/// A trace is a file whose name begins with `trace_` and ends with `.json`.
pub proof fn law_traces_are_told_by_their_names(f: FoundFile, name: Seq<char>)
    requires
        text::opt_view(f.extension) == Some("json"@),
        f.depth == 1,
    ensures
        text::opt_view(f.stem) == Some("trace_"@ + name) ==> FileKind::Trace.takes(f),
        FileKind::Trace.takes(f) ==> f.stem is Some && text::begins_with(
            f.stem->0@ + "."@ + "json"@,
            "trace_"@,
        ),
{
    reveal_strlit(".");
    reveal_strlit("json");
    reveal_strlit(".json");
    if text::opt_view(f.stem) == Some("trace_"@ + name) {
        let whole = "trace_"@ + name + "."@ + "json"@;
        let rest = name + "."@ + "json"@;
        assert(whole =~= "trace_"@ + rest);
        text::law_text_is_found(Seq::<char>::empty(), "trace_"@, rest);
        assert("."@ + "json"@ =~= ".json"@);
        assert(whole =~= ("trace_"@ + name) + ".json"@);
        text::law_text_is_found("trace_"@ + name, ".json"@, Seq::<char>::empty());
    }
}

/// How deep each kind of file is looked for: logs four directories down, messages
/// nine, traces one, sessions without end.
pub proof fn law_directories_are_entered(depth: usize)
    ensures
        FileKind::IdeLog.enters(depth) <==> depth <= 4,
        FileKind::Message.enters(depth) <==> depth <= 9,
        FileKind::Trace.enters(depth) <==> depth <= 1,
        FileKind::Session.enters(depth),
{
}

} // verus!
