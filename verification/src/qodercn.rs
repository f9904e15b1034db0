//! Usage of Qoder CN: the sessions of its projects, and the messages in the
//! database of its IDE.

use crate::clock;
use crate::clock::seconds_of;
use crate::estimate;
use crate::estimate::{estimate_tokens, extract_content_chars};
use crate::json;
use crate::json::{get_of, parse_json, u64_of, Json};
use crate::session_files;
use crate::session_files::{
    combine_session_outcomes, import_session, line_id_of, message_field_of, message_id_of,
    message_model_of, message_seconds_of, nonblank_of, read_document, seconds_of_nanos,
    session_label_of, token_count_of, FileState, SessionProgram, SessionSync,
};
use crate::text;
use crate::traces;
use crate::usage;
use crate::usage::{
    clamp_sqlite_seconds, combine_results, import_records, FileOutcome, ImportOutcome,
    ImportSource, SessionSyncResult, UsageRecord, UsageStore,
};
use vstd::prelude::*;
use vstd::string::*;

verus! {

// ---------------------------------------------------------------------------
// Models
// ---------------------------------------------------------------------------

/// The models that keys of Qoder CN stand for.
pub open spec fn key_table() -> Seq<(Seq<char>, Seq<char>)> {
    seq![
        ("qmodel_38max"@, "qwen3.8-max"@),
        ("qfmodel"@, "qwen3.8-flash"@),
        ("qmodel_latest"@, "qwen3.7-max"@),
        ("qmodel"@, "qwen3.7-plus"@),
        ("q37fmodel"@, "qwen3.6-flash"@),
        ("qmodel_preview"@, "qwen3.6-max-preview"@),
        ("dmodel"@, "deepseek-v4-pro"@),
        ("dfmodel"@, "deepseek-v4-flash"@),
        ("gmodel"@, "glm-5.3"@),
        ("gfmodel"@, "glm-5.3-flash"@),
        ("gm51model"@, "glm-5.2"@),
        ("kmodel_latest"@, "kimi-k3"@),
        ("kmodel"@, "kimi-k2.7-code"@),
        ("mmodel"@, "minimax-m2.7"@),
        ("auto"@, "qwen3.8-max"@),
        (""@, "qwen3.8-max"@),
        ("custom_model"@, "qwen3.8-max"@),
    ]
}

/// The model of the first line of a table with the key.
pub open spec fn in_table(table: Seq<(Seq<char>, Seq<char>)>, key: Seq<char>) -> Option<Seq<char>>
    decreases table.len(),
{
    if table.len() == 0 {
        None
    } else if table[0].0 == key {
        Some(table[0].1)
    } else {
        in_table(table.drop_first(), key)
    }
}

/// The model that a name hints at, whatever its case.
pub open spec fn hinted_model(name: Seq<char>) -> Seq<char> {
    let lower = text::lower(name);
    let flash = text::has_text(lower, "flash"@);
    if text::has_text(lower, "deepseek"@) {
        if flash {
            "deepseek-v4-flash"@
        } else {
            "deepseek-v4-pro"@
        }
    } else if text::has_text(lower, "glm"@) {
        if flash {
            "glm-5.3-flash"@
        } else {
            "glm-5.3"@
        }
    } else if text::has_text(lower, "qwen"@) && flash {
        "qwen3.8-flash"@
    } else if text::has_text(lower, "qwen"@) && text::has_text(lower, "plus"@) {
        "qwen3.7-plus"@
    } else if text::has_text(lower, "kimi"@) {
        "kimi-k3"@
    } else if text::has_text(lower, "minimax"@) {
        "minimax-m2.7"@
    } else {
        "qwen3.8-max"@
    }
}

/// The model that a key of Qoder CN stands for.
pub open spec fn key_model(key: Seq<char>) -> Seq<char> {
    match in_table(key_table(), key) {
        Some(m) => m,
        None => hinted_model(key),
    }
}

fn has(chars: &Vec<char>, pat: &str) -> (r: bool)
    ensures
        r == text::has_text(chars@, pat@),
{
    text::find_in_chars(chars, pat, 0).is_some()
}

fn hinted_model_of(name: &str) -> (r: &'static str)
    ensures
        r@ == hinted_model(name@),
{
    let lower = text::lower_chars(name);
    let flash = has(&lower, "flash");
    if has(&lower, "deepseek") {
        if flash {
            "deepseek-v4-flash"
        } else {
            "deepseek-v4-pro"
        }
    } else if has(&lower, "glm") {
        if flash {
            "glm-5.3-flash"
        } else {
            "glm-5.3"
        }
    } else if has(&lower, "qwen") && flash {
        "qwen3.8-flash"
    } else if has(&lower, "qwen") && has(&lower, "plus") {
        "qwen3.7-plus"
    } else if has(&lower, "kimi") {
        "kimi-k3"
    } else if has(&lower, "minimax") {
        "minimax-m2.7"
    } else {
        "qwen3.8-max"
    }
}

/// The model that a key of Qoder CN stands for.
pub fn map_qodercn_model(model_key: &str) -> (r: &'static str)
    ensures
        r@ == key_model(model_key@),
{
    let table: [(&'static str, &'static str); 17] = [
        ("qmodel_38max", "qwen3.8-max"),
        ("qfmodel", "qwen3.8-flash"),
        ("qmodel_latest", "qwen3.7-max"),
        ("qmodel", "qwen3.7-plus"),
        ("q37fmodel", "qwen3.6-flash"),
        ("qmodel_preview", "qwen3.6-max-preview"),
        ("dmodel", "deepseek-v4-pro"),
        ("dfmodel", "deepseek-v4-flash"),
        ("gmodel", "glm-5.3"),
        ("gfmodel", "glm-5.3-flash"),
        ("gm51model", "glm-5.2"),
        ("kmodel_latest", "kimi-k3"),
        ("kmodel", "kimi-k2.7-code"),
        ("mmodel", "minimax-m2.7"),
        ("auto", "qwen3.8-max"),
        ("", "qwen3.8-max"),
        ("custom_model", "qwen3.8-max"),
    ];
    let ghost all = key_table();
    let mut i: usize = 0;
    assert(all.skip(0) == all);
    while i < 17
        invariant
            i <= 17,
            all == key_table(),
            all.len() == 17,
            forall|k: int|
                0 <= k < 17 ==> (#[trigger] table@[k]).0@ == all[k].0 && table@[k].1@ == all[k].1,
            in_table(all, model_key@) == in_table(all.skip(i as int), model_key@),
        decreases 17 - i,
    {
        assert(all.skip(i as int).drop_first() == all.skip(i + 1));
        assert(all.skip(i as int)[0] == all[i as int]);
        if text::same_text(table[i].0, model_key) {
            return table[i].1;
        }
        i = i + 1;
    }
    hinted_model_of(model_key)
}

// ---------------------------------------------------------------------------
// Turns of a session
// ---------------------------------------------------------------------------

/// A model that a session names, where it is one.
pub open spec fn named_model(s: Option<Seq<char>>) -> Option<Seq<char>> {
    match session_files::nonblank(s) {
        Some(m) => if m == "auto"@ || m == "<synthetic>"@ {
            None
        } else {
            Some(m)
        },
        None => None,
    }
}

/// A model that a session names, where it is one.
pub fn named_model_of<'a>(s: Option<&'a str>) -> (r: Option<&'a str>)
    ensures
        json::opt_str(r) == named_model(json::opt_str(s)),
{
    match nonblank_of(s) {
        Some(m) => if text::same_text(m, "auto") || text::same_text(m, "<synthetic>") {
            None
        } else {
            Some(m)
        },
        None => None,
    }
}

/// The id of a turn, where it has one.
pub open spec fn turn_id(value: json::JsonModel) -> Option<Seq<char>> {
    session_files::nonblank(session_files::message_id(value))
}

/// The record of a turn of an assistant, after a user wrote `user_chars`
/// characters. `own` is the id of one that has none.
pub open spec fn turn_record(
    value: json::JsonModel,
    user_chars: usize,
    runtime_model: Option<Seq<char>>,
    modified_seconds: i64,
    own: Seq<char>,
) -> usage::RecordModel {
    let usage = session_files::message_field(value, "usage"@);
    let session = traces::or_blank(session_files::session_label(value));
    usage::RecordModel {
        request_id: "qodercn:"@ + session + ":"@ + match turn_id(value) {
            Some(id) => id,
            None => own,
        },
        model: key_model(
            match json::either(named_model(session_files::message_model(value)), runtime_model) {
                Some(m) => m,
                None => "auto"@,
            },
        ),
        input_tokens: session_files::reported_or(
            session_files::token_count(json::opt_u64(json::opt_field(usage, "input_tokens"@))),
            estimate::estimated_tokens(user_chars as nat),
        ) as i64,
        output_tokens: session_files::reported_or(
            session_files::token_count(json::opt_u64(json::opt_field(usage, "output_tokens"@))),
            session_files::content_estimate(value),
        ) as i64,
        cache_read_tokens: 0,
        cache_creation_tokens: 0,
        session_id: session,
        created_at: session_files::message_seconds(value, modified_seconds),
    }
}

fn reported_or_estimate(reported: u32, estimate: u32) -> (r: i64)
    ensures
        r == session_files::reported_or(reported, estimate),
{
    if reported > 0 {
        reported as i64
    } else {
        estimate as i64
    }
}

/// Reads the record of a turn, where `own` is the id of one that has none.
pub fn turn_with_id(
    value: &Json,
    user_chars: usize,
    runtime_model: Option<&str>,
    modified_seconds: i64,
    own: &str,
) -> (r: UsageRecord)
    ensures
        r@ == turn_record(
            value@,
            user_chars,
            json::opt_str(runtime_model),
            modified_seconds,
            own@,
        ),
{
    let usage = message_field_of(value, "usage");
    let session_id = match session_label_of(value) {
        Some(s) => s.to_owned(),
        None => "".to_owned(),
    };
    let mut request_id = String::from_str("qodercn:");
    request_id.append(session_id.as_str());
    request_id.append(":");
    match nonblank_of(message_id_of(value)) {
        Some(id) => {
            request_id.append(id);
        },
        None => {
            request_id.append(own);
        },
    }
    let key: &str = match named_model_of(message_model_of(value)) {
        Some(m) => m,
        None => match runtime_model {
            Some(m) => m,
            None => "auto",
        },
    };
    let content = extract_content_chars(message_field_of(value, "content"));
    UsageRecord {
        request_id,
        model: map_qodercn_model(key).to_owned(),
        input_tokens: reported_or_estimate(
            token_count_of(u64_of(get_of(usage, "input_tokens"))),
            estimate_tokens(user_chars),
        ),
        output_tokens: reported_or_estimate(
            token_count_of(u64_of(get_of(usage, "output_tokens"))),
            estimate_tokens(content),
        ),
        cache_read_tokens: 0,
        cache_creation_tokens: 0,
        session_id,
        created_at: message_seconds_of(value, modified_seconds),
    }
}

/// Reads the record of a turn, which stands in a line of a file. One without an
/// id gets one that is made of the line.
pub fn parse_assistant_turn(
    value: &Json,
    user_chars: usize,
    runtime_model: Option<&str>,
    modified_seconds: i64,
    position: usize,
    line: &str,
) -> (r: UsageRecord)
    ensures
        r@ == turn_record(
            value@,
            user_chars,
            json::opt_str(runtime_model),
            modified_seconds,
            session_files::line_id(value@, position as int, line@),
        ),
{
    match nonblank_of(message_id_of(value)) {
        Some(_) => turn_with_id(value, user_chars, runtime_model, modified_seconds, ""),
        None => {
            let own = line_id_of(value, position, line);
            turn_with_id(value, user_chars, runtime_model, modified_seconds, own.as_str())
        },
    }
}

// ---------------------------------------------------------------------------
// Session files
// ---------------------------------------------------------------------------

/// What the lines of a session give: the model that it is configured with, the
/// characters that the user wrote since the last turn, and the records of the
/// turns.
#[verifier::ext_equal]
pub ghost struct TurnsModel {
    pub runtime_model: Option<Seq<char>>,
    pub user_chars: usize,
    pub records: Seq<usage::RecordModel>,
}

/// What the lines give with one more document.
pub open spec fn with_document(
    p: TurnsModel,
    value: json::JsonModel,
    modified_seconds: i64,
    own: Seq<char>,
) -> TurnsModel {
    let kind = traces::or_blank(value.text_field("type"@));
    if kind == "runtime-config"@ {
        TurnsModel {
            runtime_model: json::either(
                named_model(value.text_field("model"@)),
                p.runtime_model,
            ),
            ..p
        }
    } else if kind == "user"@ {
        TurnsModel {
            user_chars: estimate::capped(
                estimate::content_chars(session_files::message_field(value, "content"@)),
            ),
            ..p
        }
    } else if kind == "assistant"@ {
        TurnsModel {
            user_chars: 0,
            records: p.records.push(
                turn_record(value, p.user_chars, p.runtime_model, modified_seconds, own),
            ),
            ..p
        }
    } else {
        p
    }
}

/// What the lines of a session give. A turn without an id gets one that is made of
/// its line.
pub open spec fn parsed_turns(lines: Seq<Seq<char>>, modified_seconds: i64) -> TurnsModel
    decreases lines.len(),
{
    if lines.len() == 0 {
        TurnsModel { runtime_model: None, user_chars: 0, records: seq![] }
    } else {
        let before = parsed_turns(lines.drop_last(), modified_seconds);
        match session_files::line_document(lines.last()) {
            Some(value) => with_document(
                before,
                value,
                modified_seconds,
                session_files::line_id(value, lines.len() - 1, lines.last()),
            ),
            None => before,
        }
    }
}

/// What the lines of a session gave so far.
pub struct Turns {
    runtime_model: Option<String>,
    user_chars: usize,
    records: Vec<UsageRecord>,
}

impl View for Turns {
    type V = TurnsModel;

    closed spec fn view(&self) -> TurnsModel {
        TurnsModel {
            runtime_model: text::opt_view(self.runtime_model),
            user_chars: self.user_chars,
            records: usage::record_models(self.records@),
        }
    }
}

impl Turns {
    /// Nothing was read yet.
    pub fn new() -> (r: Self)
        ensures
            r@ == (TurnsModel { runtime_model: None, user_chars: 0, records: seq![] }),
    {
        let records: Vec<UsageRecord> = Vec::new();
        assert(usage::record_models(records@) == Seq::<usage::RecordModel>::empty());
        Turns { runtime_model: None, user_chars: 0, records }
    }

    /// The records of the turns.
    pub fn into_records(self) -> (r: Vec<UsageRecord>)
        ensures
            usage::record_models(r@) == self@.records,
    {
        self.records
    }

    fn take_model(&mut self, value: &Json)
        ensures
            final(self)@ == (TurnsModel {
                runtime_model: json::either(
                    named_model(value@.text_field("model"@)),
                    old(self)@.runtime_model,
                ),
                ..old(self)@
            }),
    {
        if let Some(m) = named_model_of(value.get_str("model")) {
            self.runtime_model = Some(m.to_owned());
        }
    }

    fn runtime_model_text(&self) -> (r: Option<&str>)
        ensures
            json::opt_str(r) == self@.runtime_model,
    {
        match &self.runtime_model {
            Some(m) => Some(m.as_str()),
            None => None,
        }
    }

    fn take_record(&mut self, record: UsageRecord)
        ensures
            final(self)@ == (TurnsModel {
                user_chars: 0,
                records: old(self)@.records.push(record@),
                ..old(self)@
            }),
    {
        let ghost before = self.records@;
        self.records.push(record);
        self.user_chars = 0;
        assert(usage::record_models(self.records@) == usage::record_models(before).push(record@));
    }

    /// Takes the document of a line.
    pub fn take(&mut self, value: &Json, modified_seconds: i64, position: usize, line: &str)
        ensures
            final(self)@ == with_document(
                old(self)@,
                value@,
                modified_seconds,
                session_files::line_id(value@, position as int, line@),
            ),
    {
        let kind: &str = match value.get_str("type") {
            Some(t) => t,
            None => "",
        };
        if text::same_text(kind, "runtime-config") {
            self.take_model(value);
        } else if text::same_text(kind, "user") {
            self.user_chars = extract_content_chars(message_field_of(value, "content"));
        } else if text::same_text(kind, "assistant") {
            let record = parse_assistant_turn(
                value,
                self.user_chars,
                self.runtime_model_text(),
                modified_seconds,
                position,
                line,
            );
            self.take_record(record);
        }
    }
}

/// Reads the records of the lines of a session. A turn without an id gets one
/// that is made of its line.
pub fn parse_qodercn_file(lines: &Vec<String>, modified_seconds: i64) -> (r: Vec<UsageRecord>)
    ensures
        usage::record_models(r@) == parsed_turns(text::views(lines@), modified_seconds).records,
{
    let ghost all = text::views(lines@);
    let mut turns = Turns::new();
    let mut i: usize = 0;
    assert(all.take(0) == Seq::<Seq<char>>::empty());
    while i < lines.len()
        invariant
            all == text::views(lines@),
            i <= lines@.len(),
            turns@ == parsed_turns(all.take(i as int), modified_seconds),
        decreases lines@.len() - i,
    {
        assert(all.take(i + 1).drop_last() == all.take(i as int));
        assert(all.take(i + 1).last() == lines@[i as int]@);
        let line = lines[i].as_str();
        if let Some(value) = read_document(line) {
            turns.take(&value, modified_seconds, i, line);
        }
        i = i + 1;
    }
    assert(all.take(lines@.len() as int) == all);
    turns.into_records()
}

/// Whether a session file with these records was synced.
pub open spec fn is_synced(
    s: SessionSync,
    f: FileState,
    store: usage::StoreModel,
    after: usage::StoreModel,
    records: Seq<usage::RecordModel>,
) -> bool {
    let step = session_files::file_step(SessionProgram::QoderCn, f);
    &&& session_files::is_session_sync(s, SessionProgram::QoderCn, step, store, records)
    &&& after == session_files::store_after_session(step, store, records)
}

/// Syncs one session file. Its lines matter only where it is to be read.
pub fn sync_single_qodercn_file(
    store: &mut UsageStore,
    f: FileState,
    lines: &Vec<String>,
) -> (r: Result<SessionSync, String>)
    ensures
        match r {
            Ok(s) => !(session_files::file_step(SessionProgram::QoderCn, f) is Refuse)
                && is_synced(
                s,
                f,
                old(store)@,
                final(store)@,
                parsed_turns(
                    text::views(lines@),
                    session_files::whole_seconds(f.modified),
                ).records,
            ),
            Err(e) => session_files::file_step(SessionProgram::QoderCn, f)
                == session_files::StepModel::Refuse(e@) && final(store)@ == old(store)@,
        },
{
    let records = parse_qodercn_file(lines, seconds_of_nanos(f.modified));
    import_session(store, SessionProgram::QoderCn, f, &records)
}

// ---------------------------------------------------------------------------
// The database of the IDE
// ---------------------------------------------------------------------------

/// A message in the database of the IDE, with what its session prefers.
#[derive(Debug)]
pub struct IdeMessage {
    pub id: String,
    pub session_id: String,
    pub model_info: String,
    pub token_info: String,
    /// When the message was written, in seconds or milliseconds.
    pub created: i64,
    pub preferred_model_info: String,
}

/// A text of a document that is written as a text.
pub open spec fn inner_text(document: Seq<char>, key: Seq<char>) -> Option<Seq<char>> {
    match json::json_document(document) {
        Ok(v) => match v.text_field(key) {
            Some(s) => Some(text::trimmed(s)),
            None => None,
        },
        Err(_) => None,
    }
}

/// Reads a text of a document that is written as a text.
fn inner_text_of(document: &str, key: &str) -> (r: Option<String>)
    ensures
        text::opt_view(r) == inner_text(document@, key@),
{
    match parse_json(document) {
        Ok(v) => match v.get_str(key) {
            Some(s) => Some(text::trim_text(s).to_owned()),
            None => None,
        },
        Err(_) => None,
    }
}

/// The key of the model of a message: its own, or where it has none or leaves
/// the choice to the IDE, that which the session prefers.
pub open spec fn message_key(m: IdeMessage) -> Seq<char> {
    let key = traces::or_blank(inner_text(m.model_info@, "model_key"@));
    if key.len() == 0 || key == "auto"@ {
        match inner_text(m.preferred_model_info@, "preferred_model"@) {
            Some(preferred) => preferred,
            None => key,
        }
    } else {
        key
    }
}

/// The time of a message: zero where it has none.
pub open spec fn created_seconds(created: i64) -> i64 {
    if created > 0 {
        usage::sqlite_seconds(clock::as_seconds(created))
    } else {
        0
    }
}

/// The record of a message in the database of the IDE. One without token counts,
/// or that used none, has no record.
pub open spec fn ide_record(m: IdeMessage) -> Option<usage::RecordModel> {
    match json::json_document(m.token_info@) {
        Ok(tokens) => {
            let prompt = session_files::token_count(json::opt_u64(tokens.field("prompt_tokens"@)));
            let completion = session_files::token_count(
                json::opt_u64(tokens.field("completion_tokens"@)),
            );
            if prompt == 0 && completion == 0 {
                None
            } else {
                Some(
                    usage::RecordModel {
                        request_id: "qodercn:ide:"@ + m.id@,
                        model: key_model(message_key(m)),
                        input_tokens: prompt as i64,
                        output_tokens: completion as i64,
                        cache_read_tokens: session_files::token_count(
                            json::opt_u64(tokens.field("cached_tokens"@)),
                        ) as i64,
                        cache_creation_tokens: 0,
                        session_id: m.session_id@,
                        created_at: created_seconds(m.created),
                    },
                )
            }
        },
        Err(_) => None,
    }
}

/// The key of the model of a message.
pub fn message_key_of(m: &IdeMessage) -> (r: String)
    ensures
        r@ == message_key(*m),
{
    let key = match inner_text_of(m.model_info.as_str(), "model_key") {
        Some(k) => k,
        None => "".to_owned(),
    };
    if key.as_str().is_empty() || text::same_text(key.as_str(), "auto") {
        match inner_text_of(m.preferred_model_info.as_str(), "preferred_model") {
            Some(preferred) => preferred,
            None => key,
        }
    } else {
        key
    }
}

/// The time of a message.
pub fn created_seconds_of(created: i64) -> (r: i64)
    ensures
        r == created_seconds(created),
{
    if created > 0 {
        clamp_sqlite_seconds(seconds_of(created))
    } else {
        0
    }
}

/// Reads the record of a message in the database of the IDE.
pub fn read_ide_message(m: &IdeMessage) -> (r: Option<UsageRecord>)
    ensures
        match r {
            Some(record) => ide_record(*m) == Some(record@),
            None => ide_record(*m) is None,
        },
{
    let tokens = match parse_json(m.token_info.as_str()) {
        Ok(tokens) => tokens,
        Err(_) => {
            return None;
        },
    };
    let prompt: u32 = token_count_of(u64_of(tokens.get("prompt_tokens")));
    let completion: u32 = token_count_of(u64_of(tokens.get("completion_tokens")));
    let cached: u32 = token_count_of(u64_of(tokens.get("cached_tokens")));
    if prompt == 0 && completion == 0 {
        return None;
    }
    let mut request_id = String::from_str("qodercn:ide:");
    request_id.append(m.id.as_str());
    Some(
        UsageRecord {
            request_id,
            model: map_qodercn_model(message_key_of(m).as_str()).to_owned(),
            input_tokens: prompt as i64,
            output_tokens: completion as i64,
            cache_read_tokens: cached as i64,
            cache_creation_tokens: 0,
            session_id: m.session_id.clone(),
            created_at: created_seconds_of(m.created),
        },
    )
}

/// The records of the messages that have one, and the keys of their models.
pub open spec fn ide_records(messages: Seq<IdeMessage>) -> (Seq<usage::RecordModel>, Seq<Seq<char>>)
    decreases messages.len(),
{
    if messages.len() == 0 {
        (seq![], seq![])
    } else {
        let before = ide_records(messages.drop_last());
        match ide_record(messages.last()) {
            Some(record) => (
                before.0.push(record),
                before.1.push(message_key(messages.last())),
            ),
            None => before,
        }
    }
}

/// What syncing the database of the IDE did.
#[derive(Debug)]
pub struct IdeSync {
    pub result: SessionSyncResult,
    pub outcome: ImportOutcome,
    /// For each row the key of its model, by which a price is looked for where
    /// the model has none.
    pub keys: Vec<String>,
}

/// Whether `r` is what importing the messages of the database gives. A message
/// whose id is new counts as imported even where the log has a row of that id.
pub open spec fn is_ide_sync(
    r: IdeSync,
    store: usage::StoreModel,
    messages: Seq<IdeMessage>,
) -> bool {
    let records = ide_records(messages).0;
    let written = store.written(usage::record_ids(records));
    &&& r.outcome.imported == usage::saturated(written.len() as int)
    &&& r.outcome.skipped == usage::saturated(messages.len() - written.len())
    &&& usage::as_ints(r.outcome.positions@) == written
    &&& usage::are_rows_at(r.outcome.rows@, ImportSource::QoderCn, records, written)
    &&& r.keys@.len() == written.len()
    &&& forall|i: int|
        0 <= i < written.len() ==> (#[trigger] r.keys@[i])@ == ide_records(messages).1[written[i]]
    &&& r.result.imported == r.outcome.imported
    &&& r.result.skipped == r.outcome.skipped
    &&& r.result.files_scanned == 1
    &&& r.result.suspected_duplicates == 0
    &&& r.result.deferred_files == 0
    &&& r.result.errors@.len() == 0
}

fn saturate(n: usize) -> (r: u32)
    ensures
        r == usage::saturated(n as int),
{
    if n > u32::MAX as usize {
        u32::MAX
    } else {
        n as u32
    }
}

struct ReadMessages {
    records: Vec<UsageRecord>,
    keys: Vec<String>,
}

fn read_ide_messages(messages: &Vec<IdeMessage>) -> (r: ReadMessages)
    ensures
        usage::record_models(r.records@) == ide_records(messages@).0,
        text::views(r.keys@) == ide_records(messages@).1,
        r.keys@.len() == r.records@.len(),
        r.records@.len() <= messages@.len(),
{
    let mut records: Vec<UsageRecord> = Vec::new();
    let mut keys: Vec<String> = Vec::new();
    let mut i: usize = 0;
    assert(messages@.take(0) == Seq::<IdeMessage>::empty());
    assert(usage::record_models(records@) == Seq::<usage::RecordModel>::empty());
    assert(text::views(keys@) == Seq::<Seq<char>>::empty());
    while i < messages.len()
        invariant
            i <= messages@.len(),
            usage::record_models(records@) == ide_records(messages@.take(i as int)).0,
            text::views(keys@) == ide_records(messages@.take(i as int)).1,
            keys@.len() == records@.len(),
            records@.len() <= i,
        decreases messages@.len() - i,
    {
        assert(messages@.take(i + 1).drop_last() == messages@.take(i as int));
        assert(messages@.take(i + 1).last() == messages@[i as int]);
        if let Some(record) = read_ide_message(&messages[i]) {
            let ghost seen = records@;
            let ghost named = keys@;
            let key = message_key_of(&messages[i]);
            records.push(record);
            keys.push(key);
            assert(usage::record_models(records@) == usage::record_models(seen).push(record@));
            assert(text::views(keys@) == text::views(named).push(key@));
        }
        i = i + 1;
    }
    assert(messages@.take(messages@.len() as int) == messages@);
    ReadMessages { records, keys }
}

/// Imports the messages of the database of the IDE.
pub fn sync_qodercn_ide_db(store: &mut UsageStore, messages: &Vec<IdeMessage>) -> (r: IdeSync)
    ensures
        is_ide_sync(r, old(store)@, messages@),
        final(store)@ == old(store)@.after_all(usage::record_ids(ide_records(messages@).0)),
{
    let read = read_ide_messages(messages);
    let ghost before = store@;
    let ghost ids = usage::record_ids(ide_records(messages@).0);
    let mut outcome = import_records(store, ImportSource::QoderCn, &read.records, 0);
    let ghost written = before.written(ids);
    proof {
        usage::lemma_written_range(before, ids);
        usage::law_import_counts(before, ids);
        assert(usage::as_ints(outcome.positions@).len() == outcome.positions@.len());
        assert forall|k: int| 0 <= k < outcome.positions@.len() implies (
        #[trigger] outcome.positions@[k]) < read.keys@.len() && outcome.positions@[k]
            == written[k] by {
            assert(usage::as_ints(outcome.positions@)[k] == written[k]);
        }
    }
    let mut keys: Vec<String> = Vec::new();
    let mut i: usize = 0;
    while i < outcome.positions.len()
        invariant
            i <= outcome.positions@.len(),
            keys@.len() == i,
            outcome.positions@.len() == written.len(),
            forall|k: int|
                0 <= k < outcome.positions@.len() ==> (#[trigger] outcome.positions@[k])
                    < read.keys@.len() && outcome.positions@[k] == written[k],
            forall|k: int| 0 <= k < i ==> (#[trigger] keys@[k])@ == read.keys@[written[k]]@,
        decreases outcome.positions@.len() - i,
    {
        let at: usize = outcome.positions[i];
        keys.push(read.keys[at].clone());
        i = i + 1;
    }
    proof {
        assert forall|k: int| 0 <= k < written.len() implies (#[trigger] keys@[k])@ == ide_records(
            messages@,
        ).1[written[k]] by {
            assert(outcome.positions@[k] == written[k]);
            assert(text::views(read.keys@)[written[k]] == read.keys@[written[k]]@);
        }
    }
    let count: usize = outcome.positions.len();
    outcome.imported = saturate(count);
    outcome.skipped = saturate(messages.len() - count);
    let mut result = SessionSyncResult::default();
    result.imported = outcome.imported;
    result.skipped = outcome.skipped;
    result.files_scanned = 1;
    IdeSync { result, outcome, keys }
}

// ---------------------------------------------------------------------------
// Everything
// ---------------------------------------------------------------------------

/// The totals of the database of the IDE: of none where there is no database,
/// and a message where it could not be read.
pub open spec fn ide_totals(ide: Option<Result<SessionSyncResult, String>>) -> usage::SyncTotals {
    let none = usage::totals(""@, false, seq![], 0);
    match ide {
        Some(Ok(r)) => usage::SyncTotals {
            imported: r.imported as nat,
            skipped: r.skipped as nat,
            files_scanned: r.files_scanned as nat,
            suspected_duplicates: r.suspected_duplicates as nat,
            deferred_files: r.deferred_files as nat,
            errors: text::views(r.errors@),
        },
        Some(Err(e)) => usage::SyncTotals {
            errors: seq!["QoderCN IDE 数据库解析失败: "@ + e@],
            ..none
        },
        None => none,
    }
}

/// Adds up what syncing the database of the IDE and the session files gave.
pub fn sync_qodercn_usage(
    ide: Option<Result<SessionSyncResult, String>>,
    outcomes: Option<Vec<FileOutcome>>,
) -> (r: SessionSyncResult)
    ensures
        usage::shows_totals(
            r,
            usage::sum_totals(ide_totals(ide), session_files::session_totals(outcomes)),
        ),
{
    let mut first = SessionSyncResult::default();
    let ghost none = first.errors@;
    assert(text::views(none) == Seq::<Seq<char>>::empty());
    match ide {
        Some(Ok(result)) => {
            first = result;
        },
        Some(Err(e)) => {
            let mut message = String::from_str("QoderCN IDE 数据库解析失败: ");
            message.append(e.as_str());
            let ghost text = message@;
            first.errors.push(message);
            assert(text::views(first.errors@) == seq![text]);
        },
        None => {},
    }
    let second = combine_session_outcomes(outcomes);
    combine_results(first, second)
}

// ---------------------------------------------------------------------------
// Laws
// ---------------------------------------------------------------------------

/// Importing the database of the IDE again imports nothing and leaves the store
/// as it is; every message is skipped.
pub proof fn law_ide_replay(store: usage::StoreModel, messages: Seq<IdeMessage>)
    ensures
        ({
            let ids = usage::record_ids(ide_records(messages).0);
            let after = store.after_all(ids);
            &&& after.written(ids) == Seq::<int>::empty()
            &&& after.after_all(ids) == after
        }),
{
    usage::law_replay_imports_nothing(store, usage::record_ids(ide_records(messages).0));
}

proof fn lemma_ids_ignore_times(
    lines: Seq<Seq<char>>,
    modified_seconds: i64,
    again_seconds: i64,
)
    ensures
        usage::record_ids(parsed_turns(lines, modified_seconds).records) == usage::record_ids(
            parsed_turns(lines, again_seconds).records,
        ),
    decreases lines.len(),
{
    if lines.len() > 0 {
        let front = lines.drop_last();
        lemma_ids_ignore_times(front, modified_seconds, again_seconds);
        let a = parsed_turns(front, modified_seconds).records;
        let b = parsed_turns(front, again_seconds).records;
        let x = parsed_turns(lines, modified_seconds).records;
        let y = parsed_turns(lines, again_seconds).records;
        assert(usage::record_ids(a).len() == a.len());
        assert(usage::record_ids(b).len() == b.len());
        assert forall|i: int| 0 <= i < x.len() implies x[i].request_id == y[i].request_id by {
            if i < a.len() {
                assert(usage::record_ids(a)[i] == usage::record_ids(b)[i]);
            }
        }
        assert(usage::record_ids(x) == usage::record_ids(y));
    }
}

/// Reading a session again, whenever it was modified, imports none of its turns
/// anew.
pub proof fn law_session_replay(
    store: usage::StoreModel,
    lines: Seq<Seq<char>>,
    modified_seconds: i64,
    again_seconds: i64,
)
    ensures
        ({
            let first = usage::record_ids(parsed_turns(lines, modified_seconds).records);
            let second = usage::record_ids(parsed_turns(lines, again_seconds).records);
            &&& store.after_all(first).imported_count(second) == 0
            &&& store.after_all(first).after_all(second) == store.after_all(first)
        }),
{
    lemma_ids_ignore_times(lines, modified_seconds, again_seconds);
    usage::law_replay_imports_nothing(
        store,
        usage::record_ids(parsed_turns(lines, modified_seconds).records),
    );
}

/// A session file as a pass over the projects finds it.
pub ghost struct QoderCnFile {
    pub path: Seq<char>,
    pub state: FileState,
    pub lines: Seq<Seq<char>>,
}

/// What a pass finds in the session files.
pub open spec fn session_imports(files: Seq<QoderCnFile>) -> Seq<usage::FileImport> {
    Seq::new(
        files.len(),
        |i: int|
            session_files::session_import(
                SessionProgram::QoderCn,
                files[i].path,
                files[i].state,
                usage::record_ids(
                    parsed_turns(
                        files[i].lines,
                        session_files::whole_seconds(files[i].state.modified),
                    ).records,
                ),
            ),
    )
}

/// A later pass over session files with the same lines imports nothing and leaves
/// the store as it is, whenever the files were modified: each file that it
/// reads was read by the pass before.
pub proof fn law_later_pass_imports_nothing(
    store: usage::StoreModel,
    files: Seq<QoderCnFile>,
    again: Seq<QoderCnFile>,
    later: Vec<FileOutcome>,
    r: SessionSyncResult,
)
    requires
        again.len() == files.len(),
        forall|i: int|
            0 <= i < files.len() ==> (#[trigger] again[i]).lines == files[i].lines && (
            session_files::file_step(SessionProgram::QoderCn, again[i].state) is Read
                ==> session_files::file_step(SessionProgram::QoderCn, files[i].state) is Read),
        usage::are_outcomes_of(
            later@,
            store.after_files(session_imports(files)),
            session_imports(again),
        ),
        usage::shows_totals(r, session_files::session_totals(Some(later))),
    ensures
        r.imported == 0,
        ({
            let after = store.after_files(session_imports(files));
            after.after_files(session_imports(again)) == after
        }),
{
    let x = session_imports(files);
    let y = session_imports(again);
    assert forall|i: int|
        0 <= i < x.len() && (#[trigger] y[i]).error is None && y[i].ids.len()
            > 0 implies x[i].error is None && x[i].ids == y[i].ids by {
        assert(again[i].lines == files[i].lines);
        lemma_ids_ignore_times(
            files[i].lines,
            session_files::whole_seconds(files[i].state.modified),
            session_files::whole_seconds(again[i].state.modified),
        );
    }
    usage::law_later_pass_imports_nothing(""@, false, store, x, y, later@);
}

/// What a user wrote counts for the next turn alone: a turn adds one record,
/// keeps the configured model, and leaves nothing of the input for a second one.
pub proof fn law_input_counts_once(
    p: TurnsModel,
    value: json::JsonModel,
    modified_seconds: i64,
    own: Seq<char>,
)
    requires
        value.text_field("type"@) == Some("assistant"@),
    ensures
        with_document(p, value, modified_seconds, own).user_chars == 0,
        with_document(p, value, modified_seconds, own).runtime_model == p.runtime_model,
        with_document(p, value, modified_seconds, own).records.len() == p.records.len() + 1,
{
    reveal_strlit("assistant");
    reveal_strlit("user");
    reveal_strlit("runtime-config");
    assert("assistant"@.len() != "user"@.len());
    assert("assistant"@.len() != "runtime-config"@.len());
}

/// The models that keys stand for.
pub open spec fn key_models() -> Seq<Seq<char>> {
    seq![
        "qwen3.8-max"@,
        "qwen3.8-flash"@,
        "qwen3.7-max"@,
        "qwen3.7-plus"@,
        "qwen3.6-flash"@,
        "qwen3.6-max-preview"@,
        "deepseek-v4-pro"@,
        "deepseek-v4-flash"@,
        "glm-5.3"@,
        "glm-5.3-flash"@,
        "glm-5.2"@,
        "kimi-k3"@,
        "kimi-k2.7-code"@,
        "minimax-m2.7"@,
    ]
}

proof fn lemma_in_table(table: Seq<(Seq<char>, Seq<char>)>, key: Seq<char>)
    ensures
        in_table(table, key) matches Some(m) ==> exists|i: int|
            0 <= i < table.len() && (#[trigger] table[i]).1 == m,
    decreases table.len(),
{
    if table.len() > 0 && table[0].0 != key {
        lemma_in_table(table.drop_first(), key);
        if let Some(m) = in_table(table, key) {
            let i = choose|i: int|
                0 <= i < table.drop_first().len() && (#[trigger] table.drop_first()[i]).1 == m;
            assert(table[i + 1].1 == m);
        }
    }
}

/// Whatever the key, the model is one of a fixed list, so that none is
/// `unknown`.
pub proof fn law_every_key_has_a_model(key: Seq<char>)
    ensures
        key_models().contains(key_model(key)),
{
    let names = key_models();
    assert(names[0] == "qwen3.8-max"@);
    assert(names[1] == "qwen3.8-flash"@);
    assert(names[3] == "qwen3.7-plus"@);
    assert(names[6] == "deepseek-v4-pro"@);
    assert(names[7] == "deepseek-v4-flash"@);
    assert(names[8] == "glm-5.3"@);
    assert(names[9] == "glm-5.3-flash"@);
    assert(names[11] == "kimi-k3"@);
    assert(names[13] == "minimax-m2.7"@);
    let table = key_table();
    lemma_in_table(table, key);
    if let Some(m) = in_table(table, key) {
        let i = choose|i: int| 0 <= i < table.len() && (#[trigger] table[i]).1 == m;
        if i < 14 {
            assert(names[2] == "qwen3.7-max"@);
            assert(names[4] == "qwen3.6-flash"@);
            assert(names[5] == "qwen3.6-max-preview"@);
            assert(names[10] == "glm-5.2"@);
            assert(names[12] == "kimi-k2.7-code"@);
        }
    }
}

// ---------------------------------------------------------------------------
// From the lines of a session to its turns
// ---------------------------------------------------------------------------

/// Whether a line holds a document.
pub open spec fn holds(line: Seq<char>, doc: json::JsonModel) -> bool {
    text::trimmed(line).len() > 0 && json::json_document(text::trimmed(line)) == Ok::<
        json::JsonModel,
        Seq<char>,
    >(doc)
}

/// Whether a document is of a kind.
pub open spec fn is_kind(doc: json::JsonModel, kind: Seq<char>) -> bool {
    json::has_text_member(doc, "type"@, kind)
}

/// Whether a text is the name of a model: it is bare, and leaves the choice to no
/// one else.
pub open spec fn is_model_name(m: Seq<char>) -> bool {
    text::is_bare(m) && m != "auto"@ && m != "<synthetic>"@
}

/// Whether a line configures no model.
pub open spec fn configures_none(line: Seq<char>) -> bool {
    session_files::line_document(line) matches Some(doc) ==> doc.text_field("type"@) != Some(
        "runtime-config"@,
    ) || named_model(doc.text_field("model"@)) is None
}

/// Whether a line is neither what a user wrote nor a turn.
pub open spec fn says_nothing(line: Seq<char>) -> bool {
    session_files::line_document(line) matches Some(doc) ==> doc.text_field("type"@) != Some(
        "user"@,
    ) && doc.text_field("type"@) != Some("assistant"@)
}

/// How many of the lines are turns.
pub open spec fn turn_count(lines: Seq<Seq<char>>) -> nat
    decreases lines.len(),
{
    if lines.len() == 0 {
        0
    } else {
        turn_count(lines.drop_last()) + match session_files::line_document(lines.last()) {
            Some(doc) => if doc.text_field("type"@) == Some("assistant"@) {
                1nat
            } else {
                0nat
            },
            None => 0nat,
        }
    }
}

proof fn lemma_kinds()
    ensures
        "assistant"@ != "user"@,
        "assistant"@ != "runtime-config"@,
        "user"@ != "runtime-config"@,
        ""@ != "assistant"@,
        ""@ != "user"@,
        ""@ != "runtime-config"@,
{
    reveal_strlit("assistant");
    reveal_strlit("user");
    reveal_strlit("runtime-config");
    reveal_strlit("");
    assert("assistant"@.len() == 9);
    assert("user"@.len() == 4);
    assert("runtime-config"@.len() == 14);
    assert(""@.len() == 0);
}

proof fn lemma_is_kind(doc: json::JsonModel, kind: Seq<char>)
    requires
        is_kind(doc, kind),
    ensures
        doc.text_field("type"@) == Some(kind),
{
    json::law_member_is_found(doc, "type"@);
    assert(json::has_member(doc, "type"@, json::JsonModel::Text(kind)));
}

proof fn lemma_turn_count(lines: Seq<Seq<char>>, modified_seconds: i64)
    ensures
        parsed_turns(lines, modified_seconds).records.len() == turn_count(lines),
    decreases lines.len(),
{
    lemma_kinds();
    if lines.len() > 0 {
        lemma_turn_count(lines.drop_last(), modified_seconds);
    }
}

/// Every turn of a session has a record of its own, in the order of the lines, and
/// nothing else has. It is made of the turn, of the model that the lines before
/// it configured, and of what the user wrote since the turn before.
pub proof fn law_every_turn_has_a_record(
    lines: Seq<Seq<char>>,
    modified_seconds: i64,
    k: int,
    turn: json::JsonModel,
)
    requires
        0 <= k < lines.len(),
        holds(lines[k], turn),
        is_kind(turn, "assistant"@),
    ensures
        ({
            let records = parsed_turns(lines, modified_seconds).records;
            let before = parsed_turns(lines.take(k), modified_seconds);
            let n = turn_count(lines.take(k)) as int;
            &&& records.len() == turn_count(lines)
            &&& 0 <= n < records.len()
            &&& turn_count(lines.take(k + 1)) == n + 1
            &&& records[n] == turn_record(
                turn,
                before.user_chars,
                before.runtime_model,
                modified_seconds,
                session_files::line_id(turn, k, lines[k]),
            )
        }),
    decreases lines.len(),
{
    lemma_kinds();
    lemma_is_kind(turn, "assistant"@);
    let front = lines.drop_last();
    lemma_turn_count(front, modified_seconds);
    lemma_turn_count(lines, modified_seconds);
    assert(lines.take(k + 1).drop_last() == lines.take(k));
    assert(lines.take(k + 1).last() == lines[k]);
    if k < lines.len() - 1 {
        assert(front[k] == lines[k]);
        assert(front.take(k) == lines.take(k));
        assert(front.take(k + 1) == lines.take(k + 1));
        law_every_turn_has_a_record(front, modified_seconds, k, turn);
    } else {
        assert(lines.take(k) == front);
        assert(lines.take(k + 1) == lines);
    }
}

proof fn lemma_model_stays(lines: Seq<Seq<char>>, modified_seconds: i64, c: int, k: int)
    requires
        -1 <= c < k <= lines.len(),
        forall|j: int| c < j < k ==> configures_none(#[trigger] lines[j]),
    ensures
        parsed_turns(lines.take(k), modified_seconds).runtime_model == parsed_turns(
            lines.take(c + 1),
            modified_seconds,
        ).runtime_model,
    decreases k - c,
{
    lemma_kinds();
    if k > c + 1 {
        lemma_model_stays(lines, modified_seconds, c, k - 1);
        assert(lines.take(k).drop_last() == lines.take(k - 1));
        assert(lines.take(k).last() == lines[k - 1]);
        assert(configures_none(lines[k - 1]));
    }
}

/// Whether a turn names no model, or leaves the choice to the program.
pub open spec fn names_none(turn: json::JsonModel) -> bool {
    ||| session_files::lacks_part(turn, "model"@)
    ||| exists|s: Seq<char>| #[trigger]
        session_files::has_part(turn, "model"@, json::JsonModel::Text(s)) && (s == "auto"@ || s
            == "<synthetic>"@ || text::is_blank(s))
}

proof fn lemma_names_none(turn: json::JsonModel)
    requires
        names_none(turn),
    ensures
        named_model(session_files::message_model(turn)) is None,
{
    session_files::law_part_is_found(turn, "model"@);
    json::law_member_is_found(turn, "model"@);
    if !session_files::lacks_part(turn, "model"@) {
        let s = choose|s: Seq<char>| #[trigger]
            session_files::has_part(turn, "model"@, json::JsonModel::Text(s)) && (s == "auto"@ || s
                == "<synthetic>"@ || text::is_blank(s));
        assert(session_files::message_field(turn, "model"@) == Some(json::JsonModel::Text(s)));
        reveal_strlit("auto");
        reveal_strlit("<synthetic>");
        if text::is_blank(s) {
            let none = Seq::<char>::empty();
            assert(s + none + none == s);
            text::law_padding_is_trimmed(s, none, none);
        } else {
            text::lemma_bare_stays(s);
        }
    }
}

/// A turn that names no model, or leaves the choice to the program, ran on the
/// model that was configured last before it, whatever the lines before that say.
pub proof fn law_turn_has_the_last_configured_model(
    lines: Seq<Seq<char>>,
    modified_seconds: i64,
    c: int,
    k: int,
    config: json::JsonModel,
    raw: Seq<char>,
    model: Seq<char>,
    turn: json::JsonModel,
)
    requires
        0 <= c < k < lines.len(),
        holds(lines[c], config),
        is_kind(config, "runtime-config"@),
        json::has_text_member(config, "model"@, raw),
        text::trimmed(raw) == model,
        is_model_name(model),
        forall|j: int| c < j < k ==> configures_none(#[trigger] lines[j]),
        holds(lines[k], turn),
        is_kind(turn, "assistant"@),
        names_none(turn),
    ensures
        ({
            let records = parsed_turns(lines, modified_seconds).records;
            let n = turn_count(lines.take(k)) as int;
            0 <= n < records.len() && records[n].model == key_model(model)
        }),
{
    lemma_kinds();
    lemma_is_kind(config, "runtime-config"@);
    json::law_member_is_found(config, "model"@);
    assert(json::has_member(config, "model"@, json::JsonModel::Text(raw)));
    assert(lines.take(c + 1).drop_last() == lines.take(c));
    assert(lines.take(c + 1).last() == lines[c]);
    lemma_model_stays(lines, modified_seconds, c, k);
    law_every_turn_has_a_record(lines, modified_seconds, k, turn);
    lemma_names_none(turn);
}

/// A turn that names its model ran on that model, whatever was configured.
pub proof fn law_turn_has_its_own_model(
    lines: Seq<Seq<char>>,
    modified_seconds: i64,
    k: int,
    turn: json::JsonModel,
    raw: Seq<char>,
    model: Seq<char>,
)
    requires
        0 <= k < lines.len(),
        holds(lines[k], turn),
        is_kind(turn, "assistant"@),
        session_files::has_part(turn, "model"@, json::JsonModel::Text(raw)),
        text::trimmed(raw) == model,
        is_model_name(model),
    ensures
        ({
            let records = parsed_turns(lines, modified_seconds).records;
            let n = turn_count(lines.take(k)) as int;
            0 <= n < records.len() && records[n].model == key_model(model)
        }),
{
    law_every_turn_has_a_record(lines, modified_seconds, k, turn);
    session_files::law_part_is_found(turn, "model"@);
    json::law_member_is_found(turn, "model"@);
}

/// A turn that names no model, in a session that configures none, ran on the model
/// that the program chooses.
pub proof fn law_turn_without_a_model(
    lines: Seq<Seq<char>>,
    modified_seconds: i64,
    k: int,
    turn: json::JsonModel,
)
    requires
        0 <= k < lines.len(),
        holds(lines[k], turn),
        is_kind(turn, "assistant"@),
        names_none(turn),
        forall|j: int| 0 <= j < k ==> configures_none(#[trigger] lines[j]),
    ensures
        ({
            let records = parsed_turns(lines, modified_seconds).records;
            let n = turn_count(lines.take(k)) as int;
            0 <= n < records.len() && records[n].model == key_model("auto"@)
        }),
{
    assert(lines.take(0) == Seq::<Seq<char>>::empty());
    lemma_model_stays(lines, modified_seconds, -1, k);
    law_every_turn_has_a_record(lines, modified_seconds, k, turn);
    lemma_names_none(turn);
}

/// A line that configures no model by name, or leaves the choice to the program,
/// changes nothing.
pub proof fn law_unnamed_models_are_not_configured(
    line: Seq<char>,
    config: json::JsonModel,
    blank: Seq<char>,
)
    requires
        holds(line, config),
        is_kind(config, "runtime-config"@),
        text::is_blank(blank),
        json::lacks_member(config, "model"@) || json::has_text_member(config, "model"@, "auto"@)
            || json::has_text_member(config, "model"@, "<synthetic>"@) || json::has_text_member(
            config,
            "model"@,
            blank,
        ),
    ensures
        configures_none(line),
{
    json::law_member_is_found(config, "model"@);
    reveal_strlit("auto");
    reveal_strlit("<synthetic>");
    text::lemma_bare_stays("auto"@);
    text::lemma_bare_stays("<synthetic>"@);
    let none = Seq::<char>::empty();
    assert(blank + none + none == blank);
    text::law_padding_is_trimmed(blank, none, none);
    let a = json::JsonModel::Text("auto"@);
    let b = json::JsonModel::Text("<synthetic>"@);
    let c = json::JsonModel::Text(blank);
    assert(json::has_member(config, "model"@, a) ==> config.field("model"@) == Some(a));
    assert(json::has_member(config, "model"@, b) ==> config.field("model"@) == Some(b));
    assert(json::has_member(config, "model"@, c) ==> config.field("model"@) == Some(c));
}

/// The output of a turn is what it reports above zero, whatever its content is;
/// only where it reports none is it estimated from the content. Counts stop at
/// the largest `u32`.
pub proof fn law_reported_output_counts(
    lines: Seq<Seq<char>>,
    modified_seconds: i64,
    k: int,
    turn: json::JsonModel,
    reported: json::JsonModel,
    output: u64,
    content: json::JsonModel,
)
    requires
        0 <= k < lines.len(),
        holds(lines[k], turn),
        is_kind(turn, "assistant"@),
        session_files::has_part(turn, "usage"@, reported) || (session_files::lacks_part(
            turn,
            "usage"@,
        ) && output == 0),
        session_files::gives_count(reported, "output_tokens"@, output),
        session_files::has_part(turn, "content"@, content),
    ensures
        ({
            let records = parsed_turns(lines, modified_seconds).records;
            let n = turn_count(lines.take(k)) as int;
            let chars = estimate::content_chars(Some(content));
            &&& 0 <= n < records.len()
            &&& 0 < output <= u32::MAX ==> records[n].output_tokens == output
            &&& output > u32::MAX ==> records[n].output_tokens == u32::MAX
            &&& output == 0 && chars <= usize::MAX ==> records[n].output_tokens
                == estimate::estimated_tokens(chars)
            &&& records[n].cache_read_tokens == 0
            &&& records[n].cache_creation_tokens == 0
        }),
{
    law_every_turn_has_a_record(lines, modified_seconds, k, turn);
    session_files::law_part_is_found(turn, "usage"@);
    session_files::law_part_is_found(turn, "content"@);
    session_files::law_count_is_read(reported, "output_tokens"@, output);
}

proof fn lemma_input_stays(lines: Seq<Seq<char>>, modified_seconds: i64, c: int, k: int)
    requires
        0 <= c < k <= lines.len(),
        forall|j: int| c < j < k ==> says_nothing(#[trigger] lines[j]),
    ensures
        parsed_turns(lines.take(k), modified_seconds).user_chars == parsed_turns(
            lines.take(c + 1),
            modified_seconds,
        ).user_chars,
    decreases k - c,
{
    lemma_kinds();
    if k > c + 1 {
        lemma_input_stays(lines, modified_seconds, c, k - 1);
        assert(lines.take(k).drop_last() == lines.take(k - 1));
        assert(lines.take(k).last() == lines[k - 1]);
        assert(says_nothing(lines[k - 1]));
    }
}

/// The input of a turn is what it reports above zero; only where it reports none
/// is it estimated from what the user wrote last before it. What a user wrote
/// counts for the next turn alone: a turn behind another one, with no user in
/// between, has no input of its own.
pub proof fn law_input_is_what_the_user_wrote(
    lines: Seq<Seq<char>>,
    modified_seconds: i64,
    c: int,
    k: int,
    said: json::JsonModel,
    content: json::JsonModel,
    turn: json::JsonModel,
    reported: json::JsonModel,
    input: u64,
)
    requires
        0 <= c < k < lines.len(),
        holds(lines[c], said),
        is_kind(said, "user"@) || is_kind(said, "assistant"@),
        session_files::has_part(said, "content"@, content),
        forall|j: int| c < j < k ==> says_nothing(#[trigger] lines[j]),
        holds(lines[k], turn),
        is_kind(turn, "assistant"@),
        session_files::has_part(turn, "usage"@, reported) || (session_files::lacks_part(
            turn,
            "usage"@,
        ) && input == 0),
        session_files::gives_count(reported, "input_tokens"@, input),
    ensures
        ({
            let records = parsed_turns(lines, modified_seconds).records;
            let n = turn_count(lines.take(k)) as int;
            let chars = estimate::content_chars(Some(content));
            &&& 0 <= n < records.len()
            &&& 0 < input <= u32::MAX ==> records[n].input_tokens == input
            &&& input > u32::MAX ==> records[n].input_tokens == u32::MAX
            &&& input == 0 && is_kind(said, "user"@) && chars <= usize::MAX
                ==> records[n].input_tokens == estimate::estimated_tokens(chars)
            &&& input == 0 && is_kind(said, "assistant"@) ==> records[n].input_tokens == 0
        }),
{
    lemma_kinds();
    json::law_member_is_found(said, "type"@);
    assert(is_kind(said, "user"@) ==> json::has_member(
        said,
        "type"@,
        json::JsonModel::Text("user"@),
    ));
    assert(is_kind(said, "assistant"@) ==> json::has_member(
        said,
        "type"@,
        json::JsonModel::Text("assistant"@),
    ));
    session_files::law_part_is_found(said, "content"@);
    assert(lines.take(c + 1).drop_last() == lines.take(c));
    assert(lines.take(c + 1).last() == lines[c]);
    lemma_input_stays(lines, modified_seconds, c, k);
    law_every_turn_has_a_record(lines, modified_seconds, k, turn);
    session_files::law_part_is_found(turn, "usage"@);
    session_files::law_count_is_read(reported, "input_tokens"@, input);
}

/// A turn is known by its session and its uuid, and belongs to its session.
pub proof fn law_turn_has_its_id_and_session(
    lines: Seq<Seq<char>>,
    modified_seconds: i64,
    k: int,
    turn: json::JsonModel,
    raw_session: Seq<char>,
    session: Seq<char>,
    raw: Seq<char>,
    id: Seq<char>,
)
    requires
        0 <= k < lines.len(),
        holds(lines[k], turn),
        is_kind(turn, "assistant"@),
        json::has_text_member(turn, "sessionId"@, raw_session),
        text::trimmed(raw_session) == session,
        session_files::is_label(session),
        json::has_text_member(turn, "uuid"@, raw),
        text::trimmed(raw) == id,
        id.len() > 0,
    ensures
        ({
            let records = parsed_turns(lines, modified_seconds).records;
            let n = turn_count(lines.take(k)) as int;
            &&& 0 <= n < records.len()
            &&& records[n].session_id == session
            &&& records[n].request_id == "qodercn:"@ + session + ":"@ + id
            &&& records[n].created_at == session_files::message_seconds(turn, modified_seconds)
        }),
{
    law_every_turn_has_a_record(lines, modified_seconds, k, turn);
    json::law_member_is_found(turn, "sessionId"@);
    json::law_member_is_found(turn, "uuid"@);
    assert(json::has_member(turn, "sessionId"@, json::JsonModel::Text(raw_session)));
    assert(json::has_member(turn, "uuid"@, json::JsonModel::Text(raw)));
    session_files::lemma_bare_label(session);
}

proof fn lemma_key_texts()
    ensures
        "qmodel_38max"@.len() == 12 && "qmodel_38max"@[0] == 'q',
        "qfmodel"@.len() == 7 && "qfmodel"@[0] == 'q',
        "qmodel_latest"@.len() == 13 && "qmodel_latest"@[0] == 'q',
        "qmodel"@.len() == 6 && "qmodel"@[0] == 'q',
        "q37fmodel"@.len() == 9 && "q37fmodel"@[0] == 'q',
        "qmodel_preview"@.len() == 14 && "qmodel_preview"@[0] == 'q',
        "dmodel"@.len() == 6 && "dmodel"@[0] == 'd',
        "dfmodel"@.len() == 7 && "dfmodel"@[0] == 'd',
        "gmodel"@.len() == 6 && "gmodel"@[0] == 'g',
        "gfmodel"@.len() == 7 && "gfmodel"@[0] == 'g',
        "gm51model"@.len() == 9 && "gm51model"@[0] == 'g',
        "kmodel_latest"@.len() == 13 && "kmodel_latest"@[0] == 'k',
        "kmodel"@.len() == 6 && "kmodel"@[0] == 'k',
        "mmodel"@.len() == 6 && "mmodel"@[0] == 'm',
        "auto"@.len() == 4 && "auto"@[0] == 'a',
        ""@.len() == 0,
        "custom_model"@.len() == 12 && "custom_model"@[0] == 'c',
{
    reveal_strlit("qmodel_38max");
    reveal_strlit("qfmodel");
    reveal_strlit("qmodel_latest");
    reveal_strlit("qmodel");
    reveal_strlit("q37fmodel");
    reveal_strlit("qmodel_preview");
    reveal_strlit("dmodel");
    reveal_strlit("dfmodel");
    reveal_strlit("gmodel");
    reveal_strlit("gfmodel");
    reveal_strlit("gm51model");
    reveal_strlit("kmodel_latest");
    reveal_strlit("kmodel");
    reveal_strlit("mmodel");
    reveal_strlit("auto");
    reveal_strlit("");
    reveal_strlit("custom_model");
}

proof fn lemma_table_line(table: Seq<(Seq<char>, Seq<char>)>, i: int)
    requires
        0 <= i < table.len(),
        forall|j: int| 0 <= j < i ==> (#[trigger] table[j]).0 != table[i].0,
    ensures
        in_table(table, table[i].0) == Some(table[i].1),
    decreases i,
{
    if i > 0 {
        let rest = table.drop_first();
        assert(table[0].0 != table[i].0);
        assert(rest[i - 1] == table[i]);
        assert forall|j: int| 0 <= j < i - 1 implies (#[trigger] rest[j]).0 != rest[i - 1].0 by {
            assert(rest[j] == table[j + 1]);
        }
        lemma_table_line(rest, i - 1);
    }
}

proof fn lemma_keys_are_distinct(i: int, j: int)
    requires
        0 <= i < j < 17,
    ensures
        key_table()[i].0 != key_table()[j].0,
{
    lemma_key_texts();
}

/// What each key of Qoder CN stands for.
pub proof fn law_keys_stand_for_models()
    ensures
        key_model("qmodel_38max"@) == "qwen3.8-max"@,
        key_model("qfmodel"@) == "qwen3.8-flash"@,
        key_model("qmodel_latest"@) == "qwen3.7-max"@,
        key_model("qmodel"@) == "qwen3.7-plus"@,
        key_model("q37fmodel"@) == "qwen3.6-flash"@,
        key_model("qmodel_preview"@) == "qwen3.6-max-preview"@,
        key_model("dmodel"@) == "deepseek-v4-pro"@,
        key_model("dfmodel"@) == "deepseek-v4-flash"@,
        key_model("gmodel"@) == "glm-5.3"@,
        key_model("gfmodel"@) == "glm-5.3-flash"@,
        key_model("gm51model"@) == "glm-5.2"@,
        key_model("kmodel_latest"@) == "kimi-k3"@,
        key_model("kmodel"@) == "kimi-k2.7-code"@,
        key_model("mmodel"@) == "minimax-m2.7"@,
        key_model("auto"@) == "qwen3.8-max"@,
        key_model(""@) == "qwen3.8-max"@,
        key_model("custom_model"@) == "qwen3.8-max"@,
{
    let table = key_table();
    assert forall|i: int| 0 <= i < 17 implies in_table(table, (#[trigger] table[i]).0) == Some(
        table[i].1,
    ) by {
        assert forall|j: int| 0 <= j < i implies (#[trigger] table[j]).0 != table[i].0 by {
            lemma_keys_are_distinct(j, i);
        }
        lemma_table_line(table, i);
    }
    assert(table[0].0 == "qmodel_38max"@ && table[0].1 == "qwen3.8-max"@);
    assert(table[1].0 == "qfmodel"@ && table[1].1 == "qwen3.8-flash"@);
    assert(table[2].0 == "qmodel_latest"@ && table[2].1 == "qwen3.7-max"@);
    assert(table[3].0 == "qmodel"@ && table[3].1 == "qwen3.7-plus"@);
    assert(table[4].0 == "q37fmodel"@ && table[4].1 == "qwen3.6-flash"@);
    assert(table[5].0 == "qmodel_preview"@ && table[5].1 == "qwen3.6-max-preview"@);
    assert(table[6].0 == "dmodel"@ && table[6].1 == "deepseek-v4-pro"@);
    assert(table[7].0 == "dfmodel"@ && table[7].1 == "deepseek-v4-flash"@);
    assert(table[8].0 == "gmodel"@ && table[8].1 == "glm-5.3"@);
    assert(table[9].0 == "gfmodel"@ && table[9].1 == "glm-5.3-flash"@);
    assert(table[10].0 == "gm51model"@ && table[10].1 == "glm-5.2"@);
    assert(table[11].0 == "kmodel_latest"@ && table[11].1 == "kimi-k3"@);
    assert(table[12].0 == "kmodel"@ && table[12].1 == "kimi-k2.7-code"@);
    assert(table[13].0 == "mmodel"@ && table[13].1 == "minimax-m2.7"@);
    assert(table[14].0 == "auto"@ && table[14].1 == "qwen3.8-max"@);
    assert(table[15].0 == ""@ && table[15].1 == "qwen3.8-max"@);
    assert(table[16].0 == "custom_model"@ && table[16].1 == "qwen3.8-max"@);
}

// ---------------------------------------------------------------------------
// From the messages of the IDE to what is imported
// ---------------------------------------------------------------------------

/// Whether a text is a document.
pub open spec fn is_document(s: Seq<char>, doc: json::JsonModel) -> bool {
    json::json_document(s) == Ok::<json::JsonModel, Seq<char>>(doc)
}

/// A message in the database of the IDE is imported with the counts that it
/// gives, each in its own column and at most the largest `u32`, unless it gives
/// neither input nor output. It keeps its id and its session.
pub proof fn law_ide_message_counts(
    m: IdeMessage,
    tokens: json::JsonModel,
    prompt: u64,
    completion: u64,
    cached: u64,
)
    requires
        is_document(m.token_info@, tokens),
        session_files::gives_count(tokens, "prompt_tokens"@, prompt),
        session_files::gives_count(tokens, "completion_tokens"@, completion),
        session_files::gives_count(tokens, "cached_tokens"@, cached),
    ensures
        prompt == 0 && completion == 0 <==> ide_record(m) is None,
        ide_record(m) matches Some(record) ==> {
            &&& prompt <= u32::MAX ==> record.input_tokens == prompt
            &&& prompt > u32::MAX ==> record.input_tokens == u32::MAX
            &&& completion <= u32::MAX ==> record.output_tokens == completion
            &&& completion > u32::MAX ==> record.output_tokens == u32::MAX
            &&& cached <= u32::MAX ==> record.cache_read_tokens == cached
            &&& cached > u32::MAX ==> record.cache_read_tokens == u32::MAX
            &&& record.cache_creation_tokens == 0
            &&& record.session_id == m.session_id@
            &&& record.request_id == "qodercn:ide:"@ + m.id@
        },
{
    session_files::law_count_is_read(tokens, "prompt_tokens"@, prompt);
    session_files::law_count_is_read(tokens, "completion_tokens"@, completion);
    session_files::law_count_is_read(tokens, "cached_tokens"@, cached);
}

/// A message of the IDE ran on the model that it names. Where it names none, or
/// leaves the choice to the IDE, it ran on the one that its session prefers.
pub proof fn law_ide_message_has_its_model(
    m: IdeMessage,
    info: json::JsonModel,
    preferences: json::JsonModel,
    raw_key: Seq<char>,
    key: Seq<char>,
    raw_preferred: Seq<char>,
    preferred: Seq<char>,
)
    requires
        ide_record(m) is Some,
        is_document(m.model_info@, info),
        is_document(m.preferred_model_info@, preferences),
        text::trimmed(raw_key) == key,
        key.len() > 0,
        text::trimmed(raw_preferred) == preferred,
    ensures
        ({
            let model = (ide_record(m)->0).model;
            &&& json::has_text_member(info, "model_key"@, raw_key) && key != "auto"@ ==> model
                == key_model(key)
            &&& (json::has_text_member(info, "model_key"@, "auto"@) || json::lacks_member(
                info,
                "model_key"@,
            )) && json::has_text_member(preferences, "preferred_model"@, raw_preferred) ==> model
                == key_model(preferred)
            &&& json::has_text_member(info, "model_key"@, "auto"@) && json::lacks_member(
                preferences,
                "preferred_model"@,
            ) ==> model == key_model("auto"@)
        }),
{
    reveal_strlit("auto");
    reveal_strlit("");
    json::law_member_is_found(info, "model_key"@);
    json::law_member_is_found(preferences, "preferred_model"@);
    text::lemma_bare_stays("auto"@);
    let a = json::JsonModel::Text(raw_key);
    let b = json::JsonModel::Text("auto"@);
    let c = json::JsonModel::Text(raw_preferred);
    assert(json::has_member(info, "model_key"@, a) ==> info.field("model_key"@) == Some(a));
    assert(json::has_member(info, "model_key"@, b) ==> info.field("model_key"@) == Some(b));
    assert(json::has_member(preferences, "preferred_model"@, c) ==> preferences.field(
        "preferred_model"@,
    ) == Some(c));
}

/// A message of the IDE has the second at which it was written, be it given in
/// seconds or in milliseconds; zero where it is not given.
pub proof fn law_ide_message_has_its_time(m: IdeMessage)
    requires
        ide_record(m) is Some,
    ensures
        ({
            let t = (ide_record(m)->0).created_at;
            &&& 0 < m.created <= 253_402_300_799 ==> t == m.created
            &&& 253_402_300_799 < m.created <= 1_000_000_000_000 ==> t == 253_402_300_799
            &&& 1_000_000_000_000 < m.created <= 253_402_300_799_999 ==> t == m.created / 1000
            &&& m.created <= 0 ==> t == 0
        }),
{
}

/// How many messages have a record.
pub open spec fn ide_count(messages: Seq<IdeMessage>) -> nat
    decreases messages.len(),
{
    if messages.len() == 0 {
        0
    } else {
        ide_count(messages.drop_last()) + if ide_record(messages.last()) is Some {
            1nat
        } else {
            0nat
        }
    }
}

proof fn lemma_ide_count(messages: Seq<IdeMessage>)
    ensures
        ide_records(messages).0.len() == ide_count(messages),
        ide_records(messages).1.len() == ide_count(messages),
        ide_count(messages) <= messages.len(),
    decreases messages.len(),
{
    if messages.len() > 0 {
        lemma_ide_count(messages.drop_last());
    }
}

/// Every message of the IDE that has a record is offered with that record, in the
/// order of the messages, together with the key of its model.
pub proof fn law_every_ide_message_counts(messages: Seq<IdeMessage>, k: int)
    requires
        0 <= k < messages.len(),
        ide_record(messages[k]) is Some,
    ensures
        ({
            let n = ide_count(messages.take(k)) as int;
            &&& 0 <= n < ide_records(messages).0.len()
            &&& ide_records(messages).0[n] == ide_record(messages[k])->0
            &&& ide_records(messages).1[n] == message_key(messages[k])
            &&& ide_records(messages).0.len() == ide_count(messages)
        }),
    decreases messages.len(),
{
    let front = messages.drop_last();
    lemma_ide_count(front);
    lemma_ide_count(messages);
    if k < messages.len() - 1 {
        assert(front[k] == messages[k]);
        assert(front.take(k) == messages.take(k));
        law_every_ide_message_counts(front, k);
    } else {
        assert(messages.take(k) == front);
    }
}

/// A key that is not in the table stands for the model that it hints at, whatever
/// its case: DeepSeek before GLM before Qwen before Kimi before MiniMax.
pub proof fn law_names_hint_at_models(key: Seq<char>)
    requires
        in_table(key_table(), key) is None,
    ensures
        ({
            let name = text::lower(key);
            let flash = text::has_text(name, "flash"@);
            let deepseek = text::has_text(name, "deepseek"@);
            let glm = text::has_text(name, "glm"@);
            let qwen = text::has_text(name, "qwen"@);
            let kimi = text::has_text(name, "kimi"@);
            let minimax = text::has_text(name, "minimax"@);
            let plus = text::has_text(name, "plus"@);
            &&& deepseek && flash ==> key_model(key) == "deepseek-v4-flash"@
            &&& deepseek && !flash ==> key_model(key) == "deepseek-v4-pro"@
            &&& !deepseek && glm && flash ==> key_model(key) == "glm-5.3-flash"@
            &&& !deepseek && glm && !flash ==> key_model(key) == "glm-5.3"@
            &&& !deepseek && !glm && qwen && flash ==> key_model(key) == "qwen3.8-flash"@
            &&& !deepseek && !glm && qwen && !flash && plus ==> key_model(key) == "qwen3.7-plus"@
            &&& !deepseek && !glm && qwen && !flash && !plus && !kimi && !minimax ==> key_model(
                key,
            ) == "qwen3.8-max"@
            &&& !deepseek && !glm && !qwen && kimi ==> key_model(key) == "kimi-k3"@
            &&& !deepseek && !glm && !qwen && !kimi && minimax ==> key_model(key)
                == "minimax-m2.7"@
            &&& !deepseek && !glm && !qwen && !kimi && !minimax ==> key_model(key)
                == "qwen3.8-max"@
        }),
{
}

/// Every message of the database of the IDE that is new is written with the key of
/// its model, and counts as imported.
pub proof fn law_ide_rows_have_their_keys(
    r: IdeSync,
    store: usage::StoreModel,
    messages: Seq<IdeMessage>,
    i: int,
)
    requires
        is_ide_sync(r, store, messages),
        0 <= i < r.outcome.rows@.len(),
    ensures
        ({
            let p = r.outcome.positions@[i] as int;
            let records = ide_records(messages).0;
            &&& 0 <= p < records.len()
            &&& r.outcome.rows@[i].request_id@ == records[p].request_id
            &&& r.outcome.rows@[i].input_tokens == records[p].input_tokens
            &&& r.outcome.rows@[i].output_tokens == records[p].output_tokens
            &&& r.keys@[i]@ == ide_records(messages).1[p]
            &&& r.outcome.rows@.len() <= u32::MAX ==> r.result.imported == r.outcome.rows@.len()
            &&& messages.len() <= u32::MAX ==> r.result.skipped == messages.len()
                - r.outcome.rows@.len()
        }),
{
    let records = ide_records(messages).0;
    let ids = usage::record_ids(records);
    let written = store.written(ids);
    usage::lemma_written_range(store, ids);
    usage::law_import_counts(store, ids);
    lemma_ide_count(messages);
    assert(usage::as_ints(r.outcome.positions@)[i] == written[i]);
    assert(usage::is_row_of(r.outcome.rows@[i], ImportSource::QoderCn, records[written[i]]));
    assert(r.keys@[i]@ == ide_records(messages).1[written[i]]);
}

/// A message of the IDE whose counts are no document has no record. Where what it
/// says of its model is no document, it ran on the model that its session
/// prefers, and without one on the model that the program chooses.
pub proof fn law_ide_message_without_documents(
    m: IdeMessage,
    preferences: json::JsonModel,
    preferred: Seq<char>,
)
    requires
        text::is_bare(preferred),
    ensures
        json::json_document(m.token_info@) is Err ==> ide_record(m) is None,
        ide_record(m) is Some && json::json_document(m.model_info@) is Err && is_document(
            m.preferred_model_info@,
            preferences,
        ) && json::has_text_member(preferences, "preferred_model"@, preferred) ==> (ide_record(
            m,
        )->0).model == key_model(preferred),
        ide_record(m) is Some && json::json_document(m.model_info@) is Err && json::json_document(
            m.preferred_model_info@,
        ) is Err ==> (ide_record(m)->0).model == key_model(""@),
{
    reveal_strlit("");
    json::law_member_is_found(preferences, "preferred_model"@);
    text::lemma_bare_stays(preferred);
    let c = json::JsonModel::Text(preferred);
    assert(json::has_member(preferences, "preferred_model"@, c) ==> preferences.field(
        "preferred_model"@,
    ) == Some(c));
}

/// A turn that reports no input has none where no user wrote anything before it,
/// and none where what the user wrote has no content.
pub proof fn law_turn_without_input(
    lines: Seq<Seq<char>>,
    modified_seconds: i64,
    c: int,
    k: int,
    said: json::JsonModel,
    turn: json::JsonModel,
)
    requires
        -1 <= c < k < lines.len(),
        c >= 0 ==> holds(lines[c], said) && is_kind(said, "user"@) && session_files::lacks_part(
            said,
            "content"@,
        ),
        forall|j: int| c < j < k ==> says_nothing(#[trigger] lines[j]),
        holds(lines[k], turn),
        is_kind(turn, "assistant"@),
        session_files::lacks_part(turn, "usage"@),
    ensures
        ({
            let records = parsed_turns(lines, modified_seconds).records;
            let n = turn_count(lines.take(k)) as int;
            0 <= n < records.len() && records[n].input_tokens == 0
        }),
{
    lemma_kinds();
    if c >= 0 {
        lemma_is_kind(said, "user"@);
        session_files::law_part_is_found(said, "content"@);
        assert(lines.take(c + 1).drop_last() == lines.take(c));
        assert(lines.take(c + 1).last() == lines[c]);
        lemma_input_stays(lines, modified_seconds, c, k);
    } else {
        assert(lines.take(0) == Seq::<Seq<char>>::empty());
        lemma_nothing_said(lines, modified_seconds, k);
    }
    law_every_turn_has_a_record(lines, modified_seconds, k, turn);
    session_files::law_part_is_found(turn, "usage"@);
}

proof fn lemma_nothing_said(lines: Seq<Seq<char>>, modified_seconds: i64, k: int)
    requires
        0 <= k <= lines.len(),
        forall|j: int| 0 <= j < k ==> says_nothing(#[trigger] lines[j]),
    ensures
        parsed_turns(lines.take(k), modified_seconds).user_chars == 0,
    decreases k,
{
    lemma_kinds();
    if k > 0 {
        lemma_nothing_said(lines, modified_seconds, k - 1);
        assert(lines.take(k).drop_last() == lines.take(k - 1));
        assert(lines.take(k).last() == lines[k - 1]);
        assert(says_nothing(lines[k - 1]));
    } else {
        assert(lines.take(0) == Seq::<Seq<char>>::empty());
    }
}

/// A turn without a uuid is known by the id of its `message`, and without that by
/// the id that is made of its line; one without a session belongs to none.
pub proof fn law_turn_without_a_uuid(
    lines: Seq<Seq<char>>,
    modified_seconds: i64,
    k: int,
    turn: json::JsonModel,
    message: json::JsonModel,
    id: Seq<char>,
)
    requires
        0 <= k < lines.len(),
        holds(lines[k], turn),
        is_kind(turn, "assistant"@),
        json::has_member(turn, "message"@, message),
        json::lacks_member(turn, "uuid"@),
        json::lacks_member(turn, "sessionId"@),
        json::lacks_member(message, "sessionId"@),
        text::is_bare(id),
    ensures
        ({
            let records = parsed_turns(lines, modified_seconds).records;
            let n = turn_count(lines.take(k)) as int;
            &&& 0 <= n < records.len()
            &&& records[n].session_id == ""@
            &&& json::has_text_member(message, "id"@, id) ==> records[n].request_id == "qodercn:"@
                + ""@ + ":"@ + id
            &&& json::lacks_member(message, "id"@) ==> records[n].request_id == "qodercn:"@ + ""@
                + ":"@ + session_files::line_id(turn, k, lines[k])
        }),
{
    law_every_turn_has_a_record(lines, modified_seconds, k, turn);
    json::law_member_is_found(turn, "message"@);
    json::law_member_is_found(turn, "sessionId"@);
    json::law_member_is_found(turn, "uuid"@);
    json::law_member_is_found(message, "sessionId"@);
    json::law_member_is_found(message, "id"@);
    assert(turn.field("message"@) == Some(message));
    text::lemma_bare_stays(id);
    let m = json::JsonModel::Text(id);
    assert(json::has_member(message, "id"@, m) ==> message.field("id"@) == Some(m));
}

/// The database of the IDE adds what its sync gave; one that could not be read is
/// reported and adds nothing else.
pub proof fn law_ide_database_adds_its_counts(r: SessionSyncResult, why: String)
    ensures
        ({
            let t = ide_totals(Some(Ok::<SessionSyncResult, String>(r)));
            &&& t.imported == r.imported
            &&& t.skipped == r.skipped
            &&& t.files_scanned == r.files_scanned
            &&& t.deferred_files == r.deferred_files
            &&& t.errors == text::views(r.errors@)
        }),
        ({
            let t = ide_totals(Some(Err::<SessionSyncResult, String>(why)));
            &&& t.imported == 0
            &&& t.skipped == 0
            &&& t.files_scanned == 0
            &&& t.deferred_files == 0
            &&& t.errors.len() == 1
        }),
        ide_totals(None).imported == 0,
        ide_totals(None).errors.len() == 0,
{
}

} // verus!
