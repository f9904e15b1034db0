//! Session files of Qoder and Qoder CN: lines of JSON documents that grow while
//! a session runs.

use crate::clock;
use crate::clock::parse_timestamp;
use crate::estimate;
use crate::json;
use crate::json::{get_of, json_or, parse_json, str_of, str_or, Json};
use crate::text;
use crate::traces;
use crate::usage;
use crate::usage::{
    clamp_sqlite_seconds, combine_outcomes, counts_only, deferred_file, import_records,
    FileOutcome, ImportOutcome, ImportSource, SessionSyncResult, UsageRecord, UsageStore,
};
use vstd::prelude::*;
use vstd::string::*;

verus! {

/// The programs that store sessions as lines of JSON documents.
#[derive(Debug, Clone, Copy, PartialEq, Eq, Structural)]
pub enum SessionProgram {
    Qoder,
    QoderCn,
}

/// Larger session files are left for a later sync.
pub const MAX_SESSION_BYTES: u64 = 33_554_432;

/// What is known of a session file before it is read. Times are nanoseconds.
#[derive(Debug, Clone, Copy, PartialEq, Eq, Structural)]
pub struct FileState {
    pub is_regular: bool,
    pub size: u64,
    pub modified: i64,
    /// When the file was modified as of the last sync that read it.
    pub last_modified: Option<i64>,
}

/// What is to be done with a session file.
#[derive(Debug)]
pub enum FileStep {
    /// The path is that of something other than a file.
    Refuse(String),
    /// The file is left for a later sync.
    Defer,
    /// The file was read before and did not change.
    Skip,
    /// The file is read.
    Read,
}

/// What is to be done with a session file.
pub ghost enum StepModel {
    Refuse(Seq<char>),
    Defer,
    Skip,
    Read,
}

impl View for FileStep {
    type V = StepModel;

    open spec fn view(&self) -> StepModel {
        match *self {
            FileStep::Refuse(e) => StepModel::Refuse(e@),
            FileStep::Defer => StepModel::Defer,
            FileStep::Skip => StepModel::Skip,
            FileStep::Read => StepModel::Read,
        }
    }
}

/// The message for a path that is not that of a regular file.
pub open spec fn refusal(program: SessionProgram) -> Seq<char> {
    match program {
        SessionProgram::Qoder => "Qoder 会话路径不是普通文件"@,
        SessionProgram::QoderCn => "QoderCN 会话路径不是普通文件"@,
    }
}

/// Whether a file was read before and has not been modified since.
pub open spec fn is_unchanged(modified: i64, last_modified: Option<i64>) -> bool {
    match last_modified {
        Some(last) => modified <= last,
        None => false,
    }
}

/// What is to be done with a session file.
pub open spec fn file_step(program: SessionProgram, f: FileState) -> StepModel {
    if !f.is_regular {
        StepModel::Refuse(refusal(program))
    } else if f.size > MAX_SESSION_BYTES {
        StepModel::Defer
    } else if is_unchanged(f.modified, f.last_modified) {
        StepModel::Skip
    } else {
        StepModel::Read
    }
}

/// Whether a file was read before and has not been modified since.
pub fn file_unchanged(modified: i64, last_modified: Option<i64>) -> (r: bool)
    ensures
        r == is_unchanged(modified, last_modified),
{
    match last_modified {
        Some(last) => modified <= last,
        None => false,
    }
}

/// Decides what is to be done with a session file.
pub fn next_step(program: SessionProgram, f: FileState) -> (r: FileStep)
    ensures
        r@ == file_step(program, f),
{
    if !f.is_regular {
        let message = match program {
            SessionProgram::Qoder => "Qoder 会话路径不是普通文件",
            SessionProgram::QoderCn => "QoderCN 会话路径不是普通文件",
        };
        FileStep::Refuse(message.to_owned())
    } else if f.size > MAX_SESSION_BYTES {
        FileStep::Defer
    } else if file_unchanged(f.modified, f.last_modified) {
        FileStep::Skip
    } else {
        FileStep::Read
    }
}

/// The seconds of a time in nanoseconds, rounded towards zero.
pub open spec fn whole_seconds(nanos: i64) -> i64 {
    if nanos >= 0 {
        (nanos / 1_000_000_000) as i64
    } else {
        (-((-nanos) / 1_000_000_000)) as i64
    }
}

/// The seconds of a time in nanoseconds, rounded towards zero.
pub fn seconds_of_nanos(nanos: i64) -> (r: i64)
    ensures
        r == whole_seconds(nanos),
{
    if nanos >= 0 {
        nanos / 1_000_000_000
    } else {
        let wide: i128 = nanos as i128;
        (0 - (0 - wide) / 1_000_000_000) as i64
    }
}

// ---------------------------------------------------------------------------
// Labels and ids
// ---------------------------------------------------------------------------

/// Labels are cut to this many bytes.
pub const MAX_USAGE_LABEL_BYTES: usize = 512;

/// The longest prefix of a label that is not too long.
pub fn truncate_usage_label(value: &str) -> (r: &str)
    ensures
        r@ == text::utf8_prefix(value@, 512),
{
    text::utf8_prefix_of(value, MAX_USAGE_LABEL_BYTES)
}

/// A text without white space at its ends, where anything is left.
pub open spec fn nonblank(s: Option<Seq<char>>) -> Option<Seq<char>> {
    match s {
        Some(t) => if text::trimmed(t).len() > 0 {
            Some(text::trimmed(t))
        } else {
            None
        },
        None => None,
    }
}

/// A text as a label.
pub open spec fn usage_label(s: Option<Seq<char>>) -> Option<Seq<char>> {
    match nonblank(s) {
        Some(t) => Some(text::utf8_prefix(t, 512)),
        None => None,
    }
}

/// Removes the white space at the ends of a text.
pub fn nonblank_of<'a>(s: Option<&'a str>) -> (r: Option<&'a str>)
    ensures
        json::opt_str(r) == nonblank(json::opt_str(s)),
{
    match s {
        Some(t) => {
            let inner = text::trim_text(t);
            if inner.is_empty() {
                None
            } else {
                Some(inner)
            }
        },
        None => None,
    }
}

/// Makes a label of a text.
pub fn usage_label_of<'a>(s: Option<&'a str>) -> (r: Option<&'a str>)
    ensures
        json::opt_str(r) == usage_label(json::opt_str(s)),
{
    match nonblank_of(s) {
        Some(t) => Some(truncate_usage_label(t)),
        None => None,
    }
}

/// `n`, or the largest `u32` where `n` exceeds it; zero where there is no
/// number.
pub open spec fn token_count(n: Option<u64>) -> u32 {
    match n {
        Some(v) => usage::saturated(v as int),
        None => 0,
    }
}

/// A token count as a document gives it.
pub fn token_count_of(n: Option<u64>) -> (r: u32)
    ensures
        r == token_count(n),
{
    match n {
        Some(v) => if v > u32::MAX as u64 {
            u32::MAX
        } else {
            v as u32
        },
        None => 0,
    }
}

/// A token count that is reported, else the estimate.
pub open spec fn reported_or(reported: u32, estimate: u32) -> u32 {
    if reported > 0 {
        reported
    } else {
        estimate
    }
}

/// Whether a text is a UUID that is made of a name, as it is written: thirty-two
/// hexadecimal digits in five groups, with the version at the head of the third
/// and the variant at the head of the fourth.
pub open spec fn is_uuid_text(s: Seq<char>) -> bool {
    &&& s.len() == 36
    &&& s[14] == '5'
    &&& s[19] == '8' || s[19] == '9' || s[19] == 'a' || s[19] == 'b'
    &&& forall|i: int|
        0 <= i < 36 ==> if i == 8 || i == 13 || i == 18 || i == 23 {
            #[trigger] s[i] == '-'
        } else {
            '0' <= s[i] <= '9' || 'a' <= s[i] <= 'f'
        }
}

/// The UUID that `uuid` makes of a name.
pub uninterp spec fn named_uuid(name: Seq<char>) -> Seq<char>;

/// `uuid::Uuid::new_v5` of the bytes of a name, in the namespace of object
/// identifiers, and its `to_string`: a function of the name, in the hyphenated
/// form with small letters. That names do not share a UUID is left unsaid.
#[verifier::external_body]
fn name_id(name: &str) -> (r: String)
    ensures
        r@ == named_uuid(name@),
        is_uuid_text(r@),
{
    uuid::Uuid::new_v5(&uuid::Uuid::NAMESPACE_OID, name.as_bytes()).to_string()
}

/// What the id of a message without one is made of: its session, the position of
/// its line in the file, and the line.
pub open spec fn line_name(value: json::JsonModel, position: int, line: Seq<char>) -> Seq<char> {
    traces::or_blank(session_label(value)) + "\n"@ + text::decimal_int(position) + "\n"@
        + text::trimmed(line)
}

/// The id of a message that has none.
pub open spec fn line_id(value: json::JsonModel, position: int, line: Seq<char>) -> Seq<char> {
    named_uuid(line_name(value, position, line))
}

/// The id of a message that has none. Reading the line again gives the same.
pub fn line_id_of(value: &Json, position: usize, line: &str) -> (r: String)
    ensures
        r@ == line_id(value@, position as int, line@),
        is_uuid_text(r@),
{
    let mut name = match session_label_of(value) {
        Some(s) => s.to_owned(),
        None => "".to_owned(),
    };
    name.append("\n");
    name.append(text::decimal_of(position as u64).as_str());
    name.append("\n");
    name.append(text::trim_text(line));
    name_id(name.as_str())
}

// ---------------------------------------------------------------------------
// Lines
// ---------------------------------------------------------------------------

/// The document of a line. Blank lines and lines that are no JSON document have
/// none.
pub open spec fn line_document(line: Seq<char>) -> Option<json::JsonModel> {
    if text::trimmed(line).len() == 0 {
        None
    } else {
        match json::json_document(text::trimmed(line)) {
            Ok(doc) => Some(doc),
            Err(_) => None,
        }
    }
}

/// Reads the document of a line.
pub fn read_document(line: &str) -> (r: Option<Json>)
    ensures
        match r {
            Some(doc) => line_document(line@) == Some(doc@),
            None => line_document(line@) is None,
        },
{
    let inner = text::trim_text(line);
    if inner.is_empty() {
        return None;
    }
    match parse_json(inner) {
        Ok(doc) => Some(doc),
        Err(_) => None,
    }
}

/// The parts of a message that either stand in its `message` or beside it.
pub open spec fn message_field(value: json::JsonModel, key: Seq<char>) -> Option<json::JsonModel> {
    json::either(json::opt_field(value.field("message"@), key), value.field(key))
}

/// The part of a message that either stands in its `message` or beside it.
pub fn message_field_of<'a>(value: &'a Json, key: &str) -> (r: Option<&'a Json>)
    ensures
        json::opt_model(r) == message_field(value@, key@),
{
    json_or(get_of(value.get("message"), key), value.get(key))
}

/// The session of a message, where it names one.
pub open spec fn session_label(value: json::JsonModel) -> Option<Seq<char>> {
    usage_label(
        json::either(
            value.text_field("sessionId"@),
            json::opt_text(json::opt_field(value.field("message"@), "sessionId"@)),
        ),
    )
}

/// Reads the session of a message.
pub fn session_label_of(value: &Json) -> (r: Option<&str>)
    ensures
        json::opt_str(r) == session_label(value@),
{
    usage_label_of(
        str_or(value.get_str("sessionId"), str_of(get_of(value.get("message"), "sessionId"))),
    )
}

/// The id of a message: its `uuid`, else the `id` of its `message`.
pub open spec fn message_id(value: json::JsonModel) -> Option<Seq<char>> {
    json::either(
        value.text_field("uuid"@),
        json::opt_text(json::opt_field(value.field("message"@), "id"@)),
    )
}

/// Reads the id of a message.
pub fn message_id_of(value: &Json) -> (r: Option<&str>)
    ensures
        json::opt_str(r) == message_id(value@),
{
    str_or(value.get_str("uuid"), str_of(get_of(value.get("message"), "id")))
}

/// The model that a message names, in its `message` or beside it.
pub open spec fn message_model(value: json::JsonModel) -> Option<Seq<char>> {
    json::either(
        json::opt_text(json::opt_field(value.field("message"@), "model"@)),
        value.text_field("model"@),
    )
}

/// Reads the model that a message names.
pub fn message_model_of(value: &Json) -> (r: Option<&str>)
    ensures
        json::opt_str(r) == message_model(value@),
{
    str_or(str_of(get_of(value.get("message"), "model")), value.get_str("model"))
}

/// When a message was written: its timestamp, else when the file was modified.
pub open spec fn message_seconds(value: json::JsonModel, modified_seconds: i64) -> i64 {
    usage::sqlite_seconds(
        match clock::document_seconds(value.field("timestamp"@)) {
            Some(t) => t,
            None => modified_seconds,
        },
    )
}

/// Reads when a message was written.
pub fn message_seconds_of(value: &Json, modified_seconds: i64) -> (r: i64)
    ensures
        r == message_seconds(value@, modified_seconds),
{
    match parse_timestamp(value.get("timestamp")) {
        Some(t) => clamp_sqlite_seconds(t),
        None => clamp_sqlite_seconds(modified_seconds),
    }
}

/// The estimate of the tokens of the content of a message.
pub open spec fn content_estimate(value: json::JsonModel) -> u32 {
    estimate::estimated_tokens(
        estimate::capped(estimate::content_chars(message_field(value, "content"@))) as nat,
    )
}

// ---------------------------------------------------------------------------
// Imports
// ---------------------------------------------------------------------------

/// What syncing one session file did.
#[derive(Debug)]
pub struct SessionSync {
    pub result: SessionSyncResult,
    pub outcome: ImportOutcome,
    /// How many records the file has, where it was read.
    pub next_offset: Option<i64>,
}

impl SessionProgram {
    /// The program as the source of an import.
    pub open spec fn source_of(self) -> ImportSource {
        match self {
            SessionProgram::Qoder => ImportSource::Qoder,
            SessionProgram::QoderCn => ImportSource::QoderCn,
        }
    }

    fn source(self) -> (r: ImportSource)
        ensures
            r == self.source_of(),
    {
        match self {
            SessionProgram::Qoder => ImportSource::Qoder,
            SessionProgram::QoderCn => ImportSource::QoderCn,
        }
    }
}

/// Whether a result counts these records, and this many deferred files.
pub open spec fn is_counts(r: SessionSyncResult, imported: u32, skipped: u32, deferred: u32) -> bool {
    &&& r.imported == imported
    &&& r.skipped == skipped
    &&& r.files_scanned == 0
    &&& r.suspected_duplicates == 0
    &&& r.deferred_files == deferred
    &&& r.errors@.len() == 0
}

/// `n`, or the largest `i64` where `n` exceeds it.
pub open spec fn offset_of(n: nat) -> i64 {
    if n <= i64::MAX {
        n as i64
    } else {
        i64::MAX
    }
}

/// Whether `r` is what syncing a session file with these records gives.
pub open spec fn is_session_sync(
    r: SessionSync,
    program: SessionProgram,
    step: StepModel,
    store: usage::StoreModel,
    records: Seq<usage::RecordModel>,
) -> bool {
    if step is Read {
        &&& usage::is_import_of(r.outcome, program.source_of(), store, records, 0)
        &&& is_counts(r.result, r.outcome.imported, r.outcome.skipped, 0)
        &&& r.next_offset == Some(offset_of(records.len()))
    } else {
        &&& r.outcome.rows@.len() == 0
        &&& r.outcome.positions@.len() == 0
        &&& r.outcome.imported == 0
        &&& r.outcome.skipped == 0
        &&& is_counts(r.result, 0, 0, if step is Defer { 1 } else { 0 })
        &&& r.next_offset is None
    }
}

/// The store after syncing a session file with these records.
pub open spec fn store_after_session(
    step: StepModel,
    store: usage::StoreModel,
    records: Seq<usage::RecordModel>,
) -> usage::StoreModel {
    if step is Read {
        store.after_all(usage::record_ids(records))
    } else {
        store
    }
}

fn no_import(result: SessionSyncResult) -> (r: SessionSync)
    ensures
        r.result == result,
        r.outcome.rows@.len() == 0,
        r.outcome.positions@.len() == 0,
        r.outcome.imported == 0,
        r.outcome.skipped == 0,
        r.next_offset is None,
{
    let outcome = ImportOutcome {
        rows: Vec::new(),
        positions: Vec::new(),
        imported: 0,
        skipped: 0,
    };
    SessionSync { result, outcome, next_offset: None }
}

/// Imports the records of a session file, where it is to be read.
pub fn import_session(
    store: &mut UsageStore,
    program: SessionProgram,
    f: FileState,
    records: &Vec<UsageRecord>,
) -> (r: Result<SessionSync, String>)
    ensures
        match r {
            Ok(s) => !(file_step(program, f) is Refuse) && is_session_sync(
                s,
                program,
                file_step(program, f),
                old(store)@,
                usage::record_models(records@),
            ) && final(store)@ == store_after_session(
                file_step(program, f),
                old(store)@,
                usage::record_models(records@),
            ),
            Err(e) => file_step(program, f) == StepModel::Refuse(e@) && final(store)@ == old(
                store,
            )@,
        },
{
    match next_step(program, f) {
        FileStep::Refuse(e) => Err(e),
        FileStep::Defer => Ok(no_import(deferred_file())),
        FileStep::Skip => Ok(no_import(counts_only(0, 0))),
        FileStep::Read => {
            let outcome = import_records(store, program.source(), records, 0);
            let result = counts_only(outcome.imported, outcome.skipped);
            let n: usize = records.len();
            let offset: i64 = if n as u128 > i64::MAX as u128 {
                i64::MAX
            } else {
                n as i64
            };
            Ok(SessionSync { result, outcome, next_offset: Some(offset) })
        },
    }
}

/// The totals of the session files; without a projects directory there are
/// none. A file that could not be synced is reported and not deferred.
pub open spec fn session_totals(outcomes: Option<Vec<FileOutcome>>) -> usage::SyncTotals {
    match outcomes {
        Some(files) => usage::totals(""@, false, files@, files@.len()),
        None => usage::totals(""@, false, seq![], 0),
    }
}

/// Adds up what syncing the session files gave.
pub fn combine_session_outcomes(outcomes: Option<Vec<FileOutcome>>) -> (r: SessionSyncResult)
    ensures
        usage::shows_totals(r, session_totals(outcomes)),
{
    match outcomes {
        Some(files) => combine_outcomes("", false, files),
        None => {
            let none: Vec<FileOutcome> = Vec::new();
            combine_outcomes("", false, none)
        },
    }
}

// ---------------------------------------------------------------------------
// Laws
// ---------------------------------------------------------------------------

/// A file that was read is skipped until it is modified again.
pub proof fn law_read_files_are_skipped(program: SessionProgram, f: FileState)
    requires
        file_step(program, f) is Read,
    ensures
        file_step(
            program,
            (FileState { last_modified: Some(f.modified), ..f }),
        ) is Skip,
{
}

/// What a pass finds in a session file whose records have these ids.
pub open spec fn session_import(
    program: SessionProgram,
    path: Seq<char>,
    f: FileState,
    ids: Seq<Seq<char>>,
) -> usage::FileImport {
    let step = file_step(program, f);
    usage::FileImport {
        path,
        error: match step {
            StepModel::Refuse(e) => Some(e),
            _ => None,
        },
        deferred: if step is Defer {
            1
        } else {
            0
        },
        skips: 0,
        ids: if step is Read {
            ids
        } else {
            seq![]
        },
    }
}

/// What syncing a session file did is what a pass finds in it.
pub proof fn law_session_outcome(
    o: FileOutcome,
    program: SessionProgram,
    f: FileState,
    store: usage::StoreModel,
    records: Seq<usage::RecordModel>,
    sync: SessionSync,
)
    requires
        !(file_step(program, f) is Refuse),
        is_session_sync(sync, program, file_step(program, f), store, records),
        o.result == Ok::<SessionSyncResult, String>(sync.result),
    ensures
        usage::is_outcome_of(
            o,
            store,
            session_import(program, o.path@, f, usage::record_ids(records)),
        ),
        store_after_session(file_step(program, f), store, records) == store.after_file(
            session_import(program, o.path@, f, usage::record_ids(records)),
        ),
{
    assert(usage::record_ids(records).len() == records.len());
}

/// A label takes at most 512 bytes and is never empty.
pub proof fn law_labels_are_short(s: Option<Seq<char>>)
    ensures
        usage_label(s) matches Some(l) ==> vstd::utf8::encode_utf8(l).len() <= 512 && l.len() > 0,
{
    if let Some(t) = nonblank(s) {
        text::law_utf8_prefix(t, 512);
        text::lemma_utf8_prefix_keeps_first(t, 512);
    }
}

/// Whether a part of a message stands in its `message`, or beside it where the
/// `message` has none.
pub open spec fn has_part(value: json::JsonModel, key: Seq<char>, part: json::JsonModel) -> bool {
    ||| exists|message: json::JsonModel| #[trigger]
        json::has_member(value, "message"@, message) && json::has_member(message, key, part)
    ||| lacks_inner(value, key) && json::has_member(value, key, part)
}

/// Whether a part of a message stands neither in its `message` nor beside it.
pub open spec fn lacks_part(value: json::JsonModel, key: Seq<char>) -> bool {
    lacks_inner(value, key) && json::lacks_member(value, key)
}

/// Whether a part of a message does not stand in its `message`.
pub open spec fn lacks_inner(value: json::JsonModel, key: Seq<char>) -> bool {
    ||| json::lacks_member(value, "message"@)
    ||| exists|message: json::JsonModel| #[trigger]
        json::has_member(value, "message"@, message) && json::lacks_member(message, key)
}

/// A part of a message is found where it stands.
pub proof fn law_part_is_found(value: json::JsonModel, key: Seq<char>)
    ensures
        forall|part: json::JsonModel| #[trigger]
            has_part(value, key, part) ==> message_field(value, key) == Some(part),
        lacks_part(value, key) ==> message_field(value, key) is None,
        lacks_inner(value, key) ==> json::opt_field(value.field("message"@), key) is None,
{
    json::law_member_is_found(value, "message"@);
    json::law_member_is_found(value, key);
    if let Some(message) = value.field("message"@) {
        json::law_member_is_found(message, key);
    }
}

/// Whether a document gives a count under a key: as an integer, or, where it is
/// zero, by leaving it out.
pub open spec fn gives_count(doc: json::JsonModel, key: Seq<char>, n: u64) -> bool {
    json::has_count_member(doc, key, n) || (n == 0 && json::lacks_member(doc, key))
}

/// A count that a document gives is read, at most the largest `u32`.
pub proof fn law_count_is_read(doc: json::JsonModel, key: Seq<char>, n: u64)
    requires
        gives_count(doc, key, n),
    ensures
        token_count(json::opt_u64(doc.field(key))) == (if n <= u32::MAX {
            n
        } else {
            u32::MAX as u64
        }),
{
    json::law_member_is_found(doc, key);
    if json::has_count_member(doc, key, n) {
        assert(doc.field(key) == Some(json::JsonModel::Number(json::JsonNumber::Unsigned(n))));
    }
}

/// Whether a text can be a label as it is: it is bare, and not too long.
pub open spec fn is_label(s: Seq<char>) -> bool {
    text::is_bare(s) && vstd::utf8::encode_utf8(s).len() <= 512
}

/// A text that can be a label is the label, with whatever white space around it.
pub proof fn law_label_is_the_text(before: Seq<char>, s: Seq<char>, after: Seq<char>)
    requires
        is_label(s),
        text::is_blank(before),
        text::is_blank(after),
    ensures
        usage_label(Some(before + s + after)) == Some(s),
        nonblank(Some(before + s + after)) == Some(s),
        usage_label(Some(before + after)) is None,
        nonblank(Some(before + after)) is None,
{
    text::law_padding_is_trimmed(before, s, after);
    text::law_utf8_prefix(s, 512);
    let none = Seq::<char>::empty();
    assert(before + none + after == before + after);
    text::law_padding_is_trimmed(before, none, after);
}

/// A label of a text without white space around it.
pub proof fn lemma_bare_label(s: Seq<char>)
    requires
        is_label(s),
    ensures
        usage_label(Some(s)) == Some(s),
        nonblank(Some(s)) == Some(s),
{
    let none = Seq::<char>::empty();
    assert(none + s + none == s);
    law_label_is_the_text(none, s, none);
}

/// A message has the time that it gives: a whole number of seconds, or of
/// milliseconds where it is too large for seconds, or the time of an RFC 3339
/// text. Without one it has the time at which the file was modified. Left out are
/// times that SQLite does not accept.
pub proof fn law_message_has_its_time(
    value: json::JsonModel,
    n: u64,
    stamp: Seq<char>,
    modified_seconds: i64,
)
    ensures
        json::has_count_member(value, "timestamp"@, n) && n <= 1_000_000_000_000 ==> message_seconds(
            value,
            modified_seconds,
        ) == (if n <= 253_402_300_799 {
            n as int
        } else {
            253_402_300_799
        }),
        json::has_count_member(value, "timestamp"@, n) && 1_000_000_000_000 < n
            <= 253_402_300_799_999 ==> message_seconds(value, modified_seconds) == n / 1000,
        json::has_text_member(value, "timestamp"@, stamp) && clock::rfc3339_seconds(stamp) is Some
            && -62_167_219_200 <= clock::rfc3339_seconds(stamp)->0
            <= 253_402_300_799 ==> message_seconds(value, modified_seconds)
            == clock::rfc3339_seconds(stamp)->0,
        (json::lacks_member(value, "timestamp"@) || json::has_member(
            value,
            "timestamp"@,
            json::JsonModel::Null,
        ) || (json::has_text_member(value, "timestamp"@, stamp) && clock::rfc3339_seconds(
            stamp,
        ) is None)) && -62_167_219_200 <= modified_seconds <= 253_402_300_799 ==> message_seconds(
            value,
            modified_seconds,
        ) == modified_seconds,
{
    json::law_member_is_found(value, "timestamp"@);
    if json::has_count_member(value, "timestamp"@, n) {
        assert(value.field("timestamp"@) == Some(
            json::JsonModel::Number(json::JsonNumber::Unsigned(n)),
        ));
    }
    if json::has_text_member(value, "timestamp"@, stamp) {
        assert(value.field("timestamp"@) == Some(json::JsonModel::Text(stamp)));
    }
}

/// A session file is read where it is a file, not too large, and new or modified
/// since it was read. A large one is left for later, and what is no file is
/// refused.
pub proof fn law_modified_files_are_read(program: SessionProgram, f: FileState)
    ensures
        !f.is_regular ==> file_step(program, f) is Refuse,
        f.is_regular && f.size > 33_554_432 ==> file_step(program, f) is Defer,
        f.is_regular && f.size <= 33_554_432 && f.last_modified is None ==> file_step(
            program,
            f,
        ) is Read,
        f.is_regular && f.size <= 33_554_432 && f.last_modified is Some ==> (file_step(
            program,
            f,
        ) is Read <==> f.modified > f.last_modified->0),
{
}

/// The seconds of a time are whole, and as near to it as whole seconds before it
/// are.
pub proof fn law_seconds_of_a_time(nanos: i64)
    ensures
        nanos >= 0 ==> whole_seconds(nanos) * 1_000_000_000 <= nanos < (whole_seconds(nanos) + 1)
            * 1_000_000_000,
{
}

/// Lines of a file that are not in one place have names of their own, however
/// alike they are.
pub proof fn law_lines_are_named_apart(
    value: json::JsonModel,
    p: int,
    q: int,
    line: Seq<char>,
    other: Seq<char>,
)
    requires
        0 <= p,
        0 <= q,
        line_name(value, p, line) == line_name(value, q, other),
    ensures
        p == q,
        text::trimmed(line) == text::trimmed(other),
{
    reveal_strlit("\n");
    let sep = "\n"@;
    assert(sep =~= seq!['\n']);
    let head = traces::or_blank(session_label(value)) + sep;
    let a = text::decimal_int(p) + sep + text::trimmed(line);
    let b = text::decimal_int(q) + sep + text::trimmed(other);
    assert(line_name(value, p, line) =~= head + a);
    assert(line_name(value, q, other) =~= head + b);
    assert((head + a).skip(head.len() as int) =~= a);
    assert((head + b).skip(head.len() as int) =~= b);
    text::lemma_decimal(p as nat);
    text::lemma_decimal(q as nat);
    lemma_digits_lack_breaks(text::decimal(p as nat));
    lemma_digits_lack_breaks(text::decimal(q as nat));
    text::law_cut_at_a_character(text::decimal(p as nat), '\n', text::trimmed(line));
    text::law_cut_at_a_character(text::decimal(q as nat), '\n', text::trimmed(other));
    assert(a == b);
    assert(text::decimal(p as nat) == text::decimal(q as nat));
}

proof fn lemma_digits_lack_breaks(s: Seq<char>)
    requires
        text::all_digits(s),
    ensures
        !s.contains('\n'),
{
    if s.contains('\n') {
        let i = choose|i: int| 0 <= i < s.len() && s[i] == '\n';
        assert('0' <= s[i] <= '9');
    }
}

/// A file that is read is imported whole, and the next sync knows how many records
/// it had; one that is not read changes nothing.
pub proof fn law_read_files_are_imported(
    r: SessionSync,
    program: SessionProgram,
    f: FileState,
    store: usage::StoreModel,
    records: Seq<usage::RecordModel>,
)
    requires
        is_session_sync(r, program, file_step(program, f), store, records),
    ensures
        file_step(program, f) is Read ==> {
            &&& r.result.imported == usage::saturated(
                store.imported_count(usage::record_ids(records)) as int,
            )
            &&& usage::are_rows_at(
                r.outcome.rows@,
                match program {
                    SessionProgram::Qoder => ImportSource::Qoder,
                    SessionProgram::QoderCn => ImportSource::QoderCn,
                },
                records,
                store.written(usage::record_ids(records)),
            )
            &&& records.len() <= i64::MAX ==> r.next_offset == Some(records.len() as i64)
            &&& store_after_session(file_step(program, f), store, records) == store.after_all(
                usage::record_ids(records),
            )
        },
        !(file_step(program, f) is Read) ==> {
            &&& r.result.imported == 0
            &&& r.outcome.rows@.len() == 0
            &&& r.next_offset is None
            &&& r.result.deferred_files == (if file_step(program, f) is Defer {
                1u32
            } else {
                0u32
            })
            &&& store_after_session(file_step(program, f), store, records) == store
        },
{
}

/// The id of a message without one is made of its session, of the position of its
/// line, and of the line without white space around it.
pub proof fn law_line_id_is_made_of_the_line(
    value: json::JsonModel,
    position: int,
    line: Seq<char>,
    session: Seq<char>,
)
    requires
        json::has_text_member(value, "sessionId"@, session),
        is_label(session),
    ensures
        line_id(value, position, line) == named_uuid(
            session + "\n"@ + text::decimal_int(position) + "\n"@ + text::trimmed(line),
        ),
{
    json::law_member_is_found(value, "sessionId"@);
    assert(json::has_member(value, "sessionId"@, json::JsonModel::Text(session)));
    lemma_bare_label(session);
}

/// A count that is below zero, or no number, is zero.
pub proof fn law_other_counts_are_zero(doc: json::JsonModel, key: Seq<char>, n: i64, s: Seq<char>)
    requires
        json::has_member(doc, key, json::JsonModel::Number(json::JsonNumber::Negative(n)))
            || json::has_text_member(doc, key, s) || json::has_member(
            doc,
            key,
            json::JsonModel::Null,
        ),
    ensures
        token_count(json::opt_u64(doc.field(key))) == 0,
{
    json::law_member_is_found(doc, key);
    if json::has_text_member(doc, key, s) {
        assert(doc.field(key) == Some(json::JsonModel::Text(s)));
    }
}

/// The document of a line is that of its text without white space around it; a
/// blank line, and one that is no document, has none.
pub proof fn law_line_is_its_document(line: Seq<char>, doc: json::JsonModel)
    ensures
        text::trimmed(line).len() > 0 && json::json_document(text::trimmed(line)) == Ok::<
            json::JsonModel,
            Seq<char>,
        >(doc) ==> line_document(line) == Some(doc),
        text::trimmed(line).len() == 0 ==> line_document(line) is None,
        json::json_document(text::trimmed(line)) is Err ==> line_document(line) is None,
{
}

/// A session file that could not be synced is reported under its path, and does
/// not count as one that waits. Without a directory there is nothing to report.
pub proof fn law_failed_sessions_are_reported(files: Vec<FileOutcome>, o: FileOutcome, why: String)
    requires
        files@ == seq![o],
        o.result == Err::<SessionSyncResult, String>(why),
    ensures
        session_totals(Some(files)).deferred_files == 0,
        session_totals(Some(files)).files_scanned == 1,
        session_totals(Some(files)).errors == seq![o.path@ + ": "@ + why@],
        session_totals(None) == (usage::SyncTotals {
            imported: 0,
            skipped: 0,
            files_scanned: 0,
            suspected_duplicates: 0,
            deferred_files: 0,
            errors: seq![],
        }),
{
    reveal_strlit("");
    usage::law_totals_of_one_file(""@, false, o);
    assert(""@ + o.path@ =~= o.path@);
}

/// What is not a regular file is refused with the name of its program, whatever
/// else is known of it.
pub proof fn law_refusal_names_the_program(f: FileState)
    requires
        !f.is_regular,
    ensures
        file_step(SessionProgram::Qoder, f) == StepModel::Refuse(
            "Qoder 会话路径不是普通文件"@,
        ),
        file_step(SessionProgram::QoderCn, f) == StepModel::Refuse(
            "QoderCN 会话路径不是普通文件"@,
        ),
{
}

} // verus!
