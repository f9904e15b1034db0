//! Usage of Qoder sessions.
//!
//! The messages of an assistant report what they cost in credits but seldom how
//! many tokens they took; those are estimated from the text.

use crate::estimate;
use crate::estimate::{estimate_tokens, extract_content_chars};
use crate::json;
use crate::json::{get_of, number_of, str_of, u64_of, Json, JsonNumber};
use crate::money;
use crate::money::number_columns;
use crate::session_files;
use crate::session_files::{
    combine_session_outcomes, import_session, line_id_of, message_field_of, message_id_of,
    message_model_of, message_seconds_of, nonblank_of, read_document, session_label_of,
    seconds_of_nanos, token_count_of, usage_label_of, FileState, SessionProgram, SessionSync,
};
use crate::text;
use crate::traces;
use crate::usage;
use crate::usage::{CostColumns, FileOutcome, SessionSyncResult, UsageRecord, UsageStore};
use vstd::prelude::*;
use vstd::string::*;

verus! {

// ---------------------------------------------------------------------------
// Messages
// ---------------------------------------------------------------------------

/// What the request id of a message is made of: the request id of its usage,
/// else the id of the message. Empty where it has neither.
pub open spec fn known_id(value: json::JsonModel) -> Seq<char> {
    let usage = session_files::message_field(value, "usage"@);
    match session_files::nonblank(json::opt_text(json::opt_field(usage, "request_id"@))) {
        Some(id) => id,
        None => traces::or_blank(session_files::message_id(value)),
    }
}

/// The credits of a message: those of its usage, else those beside it.
pub open spec fn message_credits(value: json::JsonModel) -> Option<JsonNumber> {
    let usage = session_files::message_field(value, "usage"@);
    json::either(
        json::opt_number(json::opt_field(usage, "credits"@)),
        json::opt_number(value.field("credits"@)),
    )
}

/// The record of a message of an assistant. `own` is the id of one that has none.
pub open spec fn assistant_record(
    value: json::JsonModel,
    modified_seconds: i64,
    own: Seq<char>,
) -> usage::RecordModel {
    let usage = session_files::message_field(value, "usage"@);
    let id = known_id(value);
    usage::RecordModel {
        request_id: "qoder:"@ + if id.len() == 0 {
            own
        } else {
            id
        },
        model: match session_files::usage_label(session_files::message_model(value)) {
            Some(m) => m,
            None => "unknown"@,
        },
        input_tokens: session_files::token_count(
            json::opt_u64(json::opt_field(usage, "input_tokens"@)),
        ) as i64,
        output_tokens: session_files::reported_or(
            session_files::token_count(json::opt_u64(json::opt_field(usage, "output_tokens"@))),
            session_files::content_estimate(value),
        ) as i64,
        cache_read_tokens: 0,
        cache_creation_tokens: 0,
        session_id: traces::or_blank(session_files::session_label(value)),
        created_at: session_files::message_seconds(value, modified_seconds),
    }
}

/// The id of a message, or the empty text.
pub fn known_id_of(value: &Json) -> (r: String)
    ensures
        r@ == known_id(value@),
{
    let usage = message_field_of(value, "usage");
    match nonblank_of(str_of(get_of(usage, "request_id"))) {
        Some(id) => id.to_owned(),
        None => match message_id_of(value) {
            Some(id) => id.to_owned(),
            None => "".to_owned(),
        },
    }
}

/// The credits of a message.
pub fn credits_of(value: &Json) -> (r: Option<JsonNumber>)
    ensures
        r == message_credits(value@),
{
    let usage = message_field_of(value, "usage");
    match number_of(get_of(usage, "credits")) {
        Some(n) => Some(n),
        None => number_of(value.get("credits")),
    }
}

/// Reads the record of a message of an assistant, where `own` is the id of one
/// that has none.
pub fn record_with_id(value: &Json, modified_seconds: i64, own: &str) -> (r: UsageRecord)
    ensures
        r@ == assistant_record(value@, modified_seconds, own@),
{
    let usage = message_field_of(value, "usage");
    let id = known_id_of(value);
    let mut request_id = String::from_str("qoder:");
    if id.as_str().is_empty() {
        request_id.append(own);
    } else {
        request_id.append(id.as_str());
    }
    let model = match usage_label_of(message_model_of(value)) {
        Some(m) => m.to_owned(),
        None => "unknown".to_owned(),
    };
    let session_id = match session_label_of(value) {
        Some(s) => s.to_owned(),
        None => "".to_owned(),
    };
    let estimate: u32 = estimate_tokens(extract_content_chars(message_field_of(value, "content")));
    let reported: u32 = token_count_of(u64_of(get_of(usage, "output_tokens")));
    let output: u32 = if reported > 0 {
        reported
    } else {
        estimate
    };
    UsageRecord {
        request_id,
        model,
        input_tokens: token_count_of(u64_of(get_of(usage, "input_tokens"))) as i64,
        output_tokens: output as i64,
        cache_read_tokens: 0,
        cache_creation_tokens: 0,
        session_id,
        created_at: message_seconds_of(value, modified_seconds),
    }
}

/// Reads the record of a message of an assistant, which stands in a line of a
/// file. One without an id gets one that is made of the line.
pub fn parse_assistant_record(
    value: &Json,
    modified_seconds: i64,
    position: usize,
    line: &str,
) -> (r: UsageRecord)
    ensures
        r@ == assistant_record(
            value@,
            modified_seconds,
            session_files::line_id(value@, position as int, line@),
        ),
{
    if known_id_of(value).as_str().is_empty() {
        let own = line_id_of(value, position, line);
        record_with_id(value, modified_seconds, own.as_str())
    } else {
        record_with_id(value, modified_seconds, "")
    }
}

// ---------------------------------------------------------------------------
// Files
// ---------------------------------------------------------------------------

/// The message of an assistant that a line holds.
pub open spec fn line_message(line: Seq<char>) -> Option<json::JsonModel> {
    match session_files::line_document(line) {
        Some(value) => if value.text_field("type"@) == Some("assistant"@) {
            Some(value)
        } else {
            None
        },
        None => None,
    }
}

/// What the lines of a session give: the records of its messages, and the
/// credits of each.
#[verifier::ext_equal]
pub ghost struct ParsedModel {
    pub records: Seq<usage::RecordModel>,
    pub credits: Seq<Option<JsonNumber>>,
}

/// What the lines of a session give. A message without an id gets one that is
/// made of its line.
pub open spec fn parsed_session(lines: Seq<Seq<char>>, modified_seconds: i64) -> ParsedModel
    decreases lines.len(),
{
    if lines.len() == 0 {
        ParsedModel { records: seq![], credits: seq![] }
    } else {
        let before = parsed_session(lines.drop_last(), modified_seconds);
        match line_message(lines.last()) {
            Some(value) => ParsedModel {
                records: before.records.push(
                    assistant_record(
                        value,
                        modified_seconds,
                        session_files::line_id(value, lines.len() - 1, lines.last()),
                    ),
                ),
                credits: before.credits.push(message_credits(value)),
            },
            None => before,
        }
    }
}

/// The records of a session and the credits of each.
#[derive(Debug)]
pub struct ParsedQoderFile {
    pub records: Vec<UsageRecord>,
    pub credits: Vec<Option<JsonNumber>>,
}

impl View for ParsedQoderFile {
    type V = ParsedModel;

    open spec fn view(&self) -> ParsedModel {
        ParsedModel { records: usage::record_models(self.records@), credits: self.credits@ }
    }
}

/// Reads the message of an assistant that a line holds.
pub fn read_message(line: &str) -> (r: Option<Json>)
    ensures
        match r {
            Some(value) => line_message(line@) == Some(value@),
            None => line_message(line@) is None,
        },
{
    match read_document(line) {
        Some(value) => {
            let is_assistant = match value.get_str("type") {
                Some(t) => text::same_text(t, "assistant"),
                None => false,
            };
            if is_assistant {
                Some(value)
            } else {
                None
            }
        },
        None => None,
    }
}

/// Reads the records of the lines of a session. A message without an id gets one
/// that is made of its line.
pub fn parse_qoder_file(lines: &Vec<String>, modified_seconds: i64) -> (r: ParsedQoderFile)
    ensures
        r@ == parsed_session(text::views(lines@), modified_seconds),
{
    let ghost all = text::views(lines@);
    let mut records: Vec<UsageRecord> = Vec::new();
    let mut credits: Vec<Option<JsonNumber>> = Vec::new();
    let mut i: usize = 0;
    assert(all.take(0) == Seq::<Seq<char>>::empty());
    assert(usage::record_models(records@) == Seq::<usage::RecordModel>::empty());
    while i < lines.len()
        invariant
            all == text::views(lines@),
            i <= lines@.len(),
            usage::record_models(records@) == parsed_session(
                all.take(i as int),
                modified_seconds,
            ).records,
            credits@ == parsed_session(all.take(i as int), modified_seconds).credits,
        decreases lines@.len() - i,
    {
        let ghost seen = records@;
        assert(all.take(i + 1).drop_last() == all.take(i as int));
        assert(all.take(i + 1).last() == lines@[i as int]@);
        let line = lines[i].as_str();
        if let Some(value) = read_message(line) {
            let record = parse_assistant_record(&value, modified_seconds, i, line);
            records.push(record);
            credits.push(credits_of(&value));
            assert(usage::record_models(records@) == usage::record_models(seen).push(record@));
        }
        i = i + 1;
    }
    assert(all.take(lines@.len() as int) == all);
    ParsedQoderFile { records, credits }
}

/// What syncing one session did, with the cost columns of each row that it
/// writes.
#[derive(Debug)]
pub struct QoderSync {
    pub sync: SessionSync,
    pub costs: Vec<CostColumns>,
}

/// Whether the rows of a sync cost what the credits of their records cost.
pub open spec fn are_row_costs(r: QoderSync, credits: Seq<Option<JsonNumber>>) -> bool {
    let positions = r.sync.outcome.positions@;
    &&& r.costs@.len() == positions.len()
    &&& forall|i: int|
        0 <= i < positions.len() ==> money::are_credit_columns(
            #[trigger] r.costs@[i],
            money::opt_number_amount(credits[positions[i] as int]),
        )
}

/// Imports what was read of a session file, where it is to be read.
pub fn import_qoder_session(
    store: &mut UsageStore,
    f: FileState,
    parsed: &ParsedQoderFile,
) -> (r: Result<QoderSync, String>)
    requires
        parsed.credits@.len() == parsed.records@.len(),
    ensures
        match r {
            Ok(s) => !(session_files::file_step(SessionProgram::Qoder, f) is Refuse)
                && session_files::is_session_sync(
                s.sync,
                SessionProgram::Qoder,
                session_files::file_step(SessionProgram::Qoder, f),
                old(store)@,
                parsed@.records,
            ) && are_row_costs(s, parsed@.credits) && final(store)@
                == session_files::store_after_session(
                session_files::file_step(SessionProgram::Qoder, f),
                old(store)@,
                parsed@.records,
            ),
            Err(e) => session_files::file_step(SessionProgram::Qoder, f)
                == session_files::StepModel::Refuse(e@) && final(store)@ == old(store)@,
        },
{
    let sync = match import_session(store, SessionProgram::Qoder, f, &parsed.records) {
        Ok(sync) => sync,
        Err(e) => {
            return Err(e);
        },
    };
    let ghost ids = usage::record_ids(parsed@.records);
    proof {
        usage::lemma_written_range(old(store)@, ids);
        assert forall|k: int| 0 <= k < sync.outcome.positions@.len() implies (
        #[trigger] sync.outcome.positions@[k]) < parsed.credits@.len() by {
            assert(usage::as_ints(sync.outcome.positions@)[k] == old(store)@.written(ids)[k]);
        }
    }
    let mut costs: Vec<CostColumns> = Vec::new();
    let mut i: usize = 0;
    while i < sync.outcome.positions.len()
        invariant
            i <= sync.outcome.positions@.len(),
            costs@.len() == i,
            forall|k: int|
                0 <= k < sync.outcome.positions@.len() ==> (#[trigger] sync.outcome.positions@[k])
                    < parsed.credits@.len(),
            forall|k: int|
                0 <= k < i ==> money::are_credit_columns(
                    #[trigger] costs@[k],
                    money::opt_number_amount(
                        parsed.credits@[sync.outcome.positions@[k] as int],
                    ),
                ),
        decreases sync.outcome.positions@.len() - i,
    {
        let at: usize = sync.outcome.positions[i];
        costs.push(number_columns(&parsed.credits[at]));
        i = i + 1;
    }
    Ok(QoderSync { sync, costs })
}

/// Syncs one session file. Its lines matter only where it is to be read.
pub fn sync_single_qoder_file(
    store: &mut UsageStore,
    f: FileState,
    lines: &Vec<String>,
) -> (r: Result<QoderSync, String>)
    ensures
        match r {
            Ok(s) => !(session_files::file_step(SessionProgram::Qoder, f) is Refuse) && is_synced(
                s,
                f,
                old(store)@,
                final(store)@,
                parsed_session(text::views(lines@), session_files::whole_seconds(f.modified)),
            ),
            Err(e) => session_files::file_step(SessionProgram::Qoder, f)
                == session_files::StepModel::Refuse(e@) && final(store)@ == old(store)@,
        },
{
    let parsed = parse_qoder_file(lines, seconds_of_nanos(f.modified));
    proof {
        lemma_as_many_credits(text::views(lines@), session_files::whole_seconds(f.modified));
    }
    import_qoder_session(store, f, &parsed)
}

/// Whether a session file with these records was synced.
pub open spec fn is_synced(
    s: QoderSync,
    f: FileState,
    store: usage::StoreModel,
    after: usage::StoreModel,
    parsed: ParsedModel,
) -> bool {
    let step = session_files::file_step(SessionProgram::Qoder, f);
    &&& session_files::is_session_sync(s.sync, SessionProgram::Qoder, step, store, parsed.records)
    &&& are_row_costs(s, parsed.credits)
    &&& after == session_files::store_after_session(step, store, parsed.records)
}

proof fn lemma_as_many_credits(lines: Seq<Seq<char>>, modified_seconds: i64)
    ensures
        ({
            let parsed = parsed_session(lines, modified_seconds);
            parsed.credits.len() == parsed.records.len()
        }),
    decreases lines.len(),
{
    if lines.len() > 0 {
        lemma_as_many_credits(lines.drop_last(), modified_seconds);
    }
}

/// Adds up what syncing the session files gave. No projects directory means
/// that there is nothing to import.
pub fn sync_qoder_usage(outcomes: Option<Vec<FileOutcome>>) -> (r: SessionSyncResult)
    ensures
        usage::shows_totals(r, session_files::session_totals(outcomes)),
{
    combine_session_outcomes(outcomes)
}

// ---------------------------------------------------------------------------
// Laws
// ---------------------------------------------------------------------------

proof fn lemma_ids_ignore_times(
    lines: Seq<Seq<char>>,
    modified_seconds: i64,
    again_seconds: i64,
)
    ensures
        usage::record_ids(parsed_session(lines, modified_seconds).records) == usage::record_ids(
            parsed_session(lines, again_seconds).records,
        ),
    decreases lines.len(),
{
    if lines.len() > 0 {
        let front = lines.drop_last();
        lemma_ids_ignore_times(front, modified_seconds, again_seconds);
        let a = parsed_session(front, modified_seconds).records;
        let b = parsed_session(front, again_seconds).records;
        let x = parsed_session(lines, modified_seconds).records;
        let y = parsed_session(lines, again_seconds).records;
        assert(usage::record_ids(a).len() == a.len());
        assert(usage::record_ids(b).len() == b.len());
        assert forall|i: int| 0 <= i < x.len() implies x[i].request_id == y[i].request_id by {
            if i < a.len() {
                assert(usage::record_ids(a)[i] == usage::record_ids(b)[i]);
            }
        }
        assert(usage::record_ids(x) == usage::record_ids(y));
    }
}

/// Reading a session again, whenever it was modified, imports none of its
/// messages anew.
pub proof fn law_session_replay(
    store: usage::StoreModel,
    lines: Seq<Seq<char>>,
    modified_seconds: i64,
    again_seconds: i64,
)
    ensures
        ({
            let first = usage::record_ids(parsed_session(lines, modified_seconds).records);
            let second = usage::record_ids(parsed_session(lines, again_seconds).records);
            &&& store.after_all(first).imported_count(second) == 0
            &&& store.after_all(first).after_all(second) == store.after_all(first)
        }),
{
    lemma_ids_ignore_times(lines, modified_seconds, again_seconds);
    usage::law_replay_imports_nothing(
        store,
        usage::record_ids(parsed_session(lines, modified_seconds).records),
    );
}

/// A session file as a pass over the projects finds it.
pub ghost struct QoderFile {
    pub path: Seq<char>,
    pub state: FileState,
    pub lines: Seq<Seq<char>>,
}

/// What a pass finds in the session files.
pub open spec fn session_imports(files: Seq<QoderFile>) -> Seq<usage::FileImport> {
    Seq::new(
        files.len(),
        |i: int|
            session_files::session_import(
                SessionProgram::Qoder,
                files[i].path,
                files[i].state,
                usage::record_ids(
                    parsed_session(
                        files[i].lines,
                        session_files::whole_seconds(files[i].state.modified),
                    ).records,
                ),
            ),
    )
}

/// A later pass over session files with the same lines imports nothing and leaves
/// the store as it is, whenever the files were modified: each file that it
/// reads was read by the pass before.
pub proof fn law_later_pass_imports_nothing(
    store: usage::StoreModel,
    files: Seq<QoderFile>,
    again: Seq<QoderFile>,
    later: Vec<FileOutcome>,
    r: SessionSyncResult,
)
    requires
        again.len() == files.len(),
        forall|i: int|
            0 <= i < files.len() ==> (#[trigger] again[i]).lines == files[i].lines && (
            session_files::file_step(SessionProgram::Qoder, again[i].state) is Read
                ==> session_files::file_step(SessionProgram::Qoder, files[i].state) is Read),
        usage::are_outcomes_of(
            later@,
            store.after_files(session_imports(files)),
            session_imports(again),
        ),
        usage::shows_totals(r, session_files::session_totals(Some(later))),
    ensures
        r.imported == 0,
        ({
            let after = store.after_files(session_imports(files));
            after.after_files(session_imports(again)) == after
        }),
{
    let x = session_imports(files);
    let y = session_imports(again);
    assert forall|i: int|
        0 <= i < x.len() && (#[trigger] y[i]).error is None && y[i].ids.len()
            > 0 implies x[i].error is None && x[i].ids == y[i].ids by {
        assert(again[i].lines == files[i].lines);
        lemma_ids_ignore_times(
            files[i].lines,
            session_files::whole_seconds(files[i].state.modified),
            session_files::whole_seconds(again[i].state.modified),
        );
    }
    usage::law_later_pass_imports_nothing(""@, false, store, x, y, later@);
}

/// Every record has an id with the prefix of Qoder, a time that SQLite accepts
/// and token counts that fit thirty-two bits.
pub proof fn law_assistant_record(value: json::JsonModel, modified_seconds: i64, own: Seq<char>)
    ensures
        ({
            let record = assistant_record(value, modified_seconds, own);
            &&& "qoder:"@.is_prefix_of(record.request_id)
            &&& usage::MIN_SQLITE_UNIX_SECONDS <= record.created_at
                <= usage::MAX_SQLITE_UNIX_SECONDS
            &&& 0 <= record.input_tokens <= u32::MAX
            &&& 0 <= record.output_tokens <= u32::MAX
            &&& record.model.len() > 0
        }),
{
    session_files::law_labels_are_short(session_files::message_model(value));
    reveal_strlit("unknown");
}

/// The tokens that a message reports are its tokens: whatever its content is,
/// a reported output above zero is its output, and the reported input is its
/// input. Only where no output is reported does the content matter, and then as
/// an estimate of its length. Counts stop at the largest `u32`.
pub proof fn law_reported_tokens_count(
    value: json::JsonModel,
    modified_seconds: i64,
    own: Seq<char>,
    reported: json::JsonModel,
    input: u64,
    output: u64,
    content: json::JsonModel,
)
    requires
        session_files::has_part(value, "usage"@, reported),
        session_files::gives_count(reported, "input_tokens"@, input),
        session_files::gives_count(reported, "output_tokens"@, output),
        session_files::has_part(value, "content"@, content),
    ensures
        ({
            let record = assistant_record(value, modified_seconds, own);
            let chars = estimate::content_chars(Some(content));
            &&& input <= u32::MAX ==> record.input_tokens == input
            &&& input > u32::MAX ==> record.input_tokens == u32::MAX
            &&& 0 < output <= u32::MAX ==> record.output_tokens == output
            &&& output > u32::MAX ==> record.output_tokens == u32::MAX
            &&& output == 0 && chars <= usize::MAX ==> record.output_tokens
                == estimate::estimated_tokens(chars)
            &&& record.cache_read_tokens == 0
            &&& record.cache_creation_tokens == 0
        }),
{
    session_files::law_part_is_found(value, "usage"@);
    session_files::law_part_is_found(value, "content"@);
    session_files::law_count_is_read(reported, "input_tokens"@, input);
    session_files::law_count_is_read(reported, "output_tokens"@, output);
}

/// A message without usage reports no input, and its output is estimated from its
/// content.
pub proof fn law_tokens_without_usage(
    value: json::JsonModel,
    modified_seconds: i64,
    own: Seq<char>,
    content: json::JsonModel,
)
    requires
        session_files::lacks_part(value, "usage"@),
        session_files::has_part(value, "content"@, content),
        estimate::content_chars(Some(content)) <= usize::MAX,
    ensures
        ({
            let record = assistant_record(value, modified_seconds, own);
            &&& record.input_tokens == 0
            &&& record.output_tokens == estimate::estimated_tokens(
                estimate::content_chars(Some(content)),
            )
        }),
{
    session_files::law_part_is_found(value, "usage"@);
    session_files::law_part_is_found(value, "content"@);
}

/// A message has the model that its `message` names, else the one beside it, else
/// `unknown`; and the session that it names, else the one that its `message`
/// names; each without white space around it. Texts that are too long for a label
/// are left out.
pub proof fn law_message_has_its_model_and_session(
    value: json::JsonModel,
    modified_seconds: i64,
    own: Seq<char>,
    message: json::JsonModel,
    raw_model: Seq<char>,
    model: Seq<char>,
    raw_session: Seq<char>,
    session: Seq<char>,
)
    requires
        json::has_member(value, "message"@, message),
        text::trimmed(raw_model) == model,
        session_files::is_label(model),
        text::trimmed(raw_session) == session,
        session_files::is_label(session),
    ensures
        ({
            let record = assistant_record(value, modified_seconds, own);
            &&& json::has_text_member(message, "model"@, raw_model) ==> record.model == model
            &&& json::lacks_member(message, "model"@) && json::has_text_member(
                value,
                "model"@,
                raw_model,
            ) ==> record.model == model
            &&& json::lacks_member(message, "model"@) && json::lacks_member(value, "model"@)
                ==> record.model == "unknown"@
            &&& json::has_text_member(value, "sessionId"@, raw_session) ==> record.session_id
                == session
            &&& json::lacks_member(value, "sessionId"@) && json::has_text_member(
                message,
                "sessionId"@,
                raw_session,
            ) ==> record.session_id == session
            &&& json::lacks_member(value, "sessionId"@) && json::lacks_member(
                message,
                "sessionId"@,
            ) ==> record.session_id.len() == 0
        }),
{
    reveal_strlit("");
    json::law_member_is_found(value, "message"@);
    assert(value.field("message"@) == Some(message));
    json::law_member_is_found(value, "model"@);
    json::law_member_is_found(message, "model"@);
    json::law_member_is_found(value, "sessionId"@);
    json::law_member_is_found(message, "sessionId"@);
    session_files::lemma_bare_label(model);
    session_files::lemma_bare_label(session);
    let m = json::JsonModel::Text(raw_model);
    let s = json::JsonModel::Text(raw_session);
    assert(json::has_member(message, "model"@, m) ==> message.field("model"@) == Some(m));
    assert(json::has_member(value, "model"@, m) ==> value.field("model"@) == Some(m));
    assert(json::has_member(message, "sessionId"@, s) ==> message.field("sessionId"@) == Some(s));
    assert(json::has_member(value, "sessionId"@, s) ==> value.field("sessionId"@) == Some(s));
}

/// A message is known by the request id of its usage, without white space around
/// it; without one by its uuid as it stands; without that by the id of its
/// `message` as it stands; and by its own id where it has none.
pub proof fn law_message_has_its_id(
    value: json::JsonModel,
    modified_seconds: i64,
    own: Seq<char>,
    reported: json::JsonModel,
    message: json::JsonModel,
    raw: Seq<char>,
    id: Seq<char>,
)
    requires
        session_files::has_part(value, "usage"@, reported),
        json::has_member(value, "message"@, message),
        text::trimmed(raw) == id,
        id.len() > 0,
    ensures
        ({
            let record = assistant_record(value, modified_seconds, own);
            &&& json::has_text_member(reported, "request_id"@, raw) ==> record.request_id
                == "qoder:"@ + id
            &&& json::lacks_member(reported, "request_id"@) && json::has_text_member(
                value,
                "uuid"@,
                raw,
            ) ==> record.request_id == "qoder:"@ + raw
            &&& json::lacks_member(reported, "request_id"@) && json::lacks_member(value, "uuid"@)
                && json::has_text_member(message, "id"@, raw) ==> record.request_id
                == "qoder:"@ + raw
            &&& json::lacks_member(reported, "request_id"@) && json::lacks_member(value, "uuid"@)
                && json::lacks_member(message, "id"@) ==> record.request_id == "qoder:"@ + own
        }),
{
    reveal_strlit("");
    session_files::law_part_is_found(value, "usage"@);
    json::law_member_is_found(value, "message"@);
    assert(value.field("message"@) == Some(message));
    json::law_member_is_found(reported, "request_id"@);
    json::law_member_is_found(value, "uuid"@);
    json::law_member_is_found(message, "id"@);
    assert(raw.len() == 0 ==> text::trimmed(raw).len() == 0);
    let m = json::JsonModel::Text(raw);
    assert(json::has_member(reported, "request_id"@, m) ==> reported.field("request_id"@) == Some(
        m,
    ));
    assert(json::has_member(value, "uuid"@, m) ==> value.field("uuid"@) == Some(m));
    assert(json::has_member(message, "id"@, m) ==> message.field("id"@) == Some(m));
}

/// A message costs the credits of its usage; without any there, the credits beside
/// it.
pub proof fn law_message_has_its_credits(
    value: json::JsonModel,
    reported: json::JsonModel,
    credits: JsonNumber,
)
    requires
        session_files::has_part(value, "usage"@, reported),
    ensures
        json::has_member(reported, "credits"@, json::JsonModel::Number(credits))
            ==> message_credits(value) == Some(credits),
        json::lacks_member(reported, "credits"@) && json::has_member(
            value,
            "credits"@,
            json::JsonModel::Number(credits),
        ) ==> message_credits(value) == Some(credits),
        json::lacks_member(reported, "credits"@) && json::lacks_member(value, "credits"@)
            ==> message_credits(value) is None,
{
    session_files::law_part_is_found(value, "usage"@);
    json::law_member_is_found(reported, "credits"@);
    json::law_member_is_found(value, "credits"@);
}

/// How many of the lines are messages of an assistant.
pub open spec fn message_count(lines: Seq<Seq<char>>) -> nat
    decreases lines.len(),
{
    if lines.len() == 0 {
        0
    } else {
        message_count(lines.drop_last()) + if line_message(lines.last()) is Some {
            1nat
        } else {
            0nat
        }
    }
}

/// Every message of an assistant in a session has a record of its own, with its
/// own credits, in the order of the lines, and nothing else has.
pub proof fn law_every_message_has_a_record(
    lines: Seq<Seq<char>>,
    modified_seconds: i64,
    k: int,
    value: json::JsonModel,
)
    requires
        0 <= k < lines.len(),
        text::trimmed(lines[k]).len() > 0,
        json::json_document(text::trimmed(lines[k])) == Ok::<json::JsonModel, Seq<char>>(value),
    ensures
        ({
            let parsed = parsed_session(lines, modified_seconds);
            let n = message_count(lines.take(k)) as int;
            &&& parsed.records.len() == message_count(lines)
            &&& parsed.credits.len() == message_count(lines)
            &&& json::has_text_member(value, "type"@, "assistant"@) ==> {
                &&& message_count(lines.take(k + 1)) == n + 1
                &&& 0 <= n < parsed.records.len()
                &&& parsed.records[n] == assistant_record(
                    value,
                    modified_seconds,
                    session_files::line_id(value, k, lines[k]),
                )
                &&& parsed.credits[n] == message_credits(value)
            }
            &&& json::lacks_member(value, "type"@) ==> message_count(lines.take(k + 1)) == n
            &&& forall|kind: Seq<char>| #[trigger]
                json::has_text_member(value, "type"@, kind) && kind != "assistant"@
                    ==> message_count(lines.take(k + 1)) == n
        }),
    decreases lines.len(),
{
    json::law_member_is_found(value, "type"@);
    let t = json::JsonModel::Text("assistant"@);
    assert(json::has_member(value, "type"@, t) ==> value.field("type"@) == Some(t));
    assert forall|kind: Seq<char>| #[trigger]
        json::has_text_member(value, "type"@, kind) implies value.text_field("type"@) == Some(
        kind,
    ) by {
        let other = json::JsonModel::Text(kind);
        assert(json::has_member(value, "type"@, other));
    }
    assert(lines.take(k + 1).drop_last() == lines.take(k));
    assert(lines.take(k + 1).last() == lines[k]);
    let front = lines.drop_last();
    lemma_message_count(front, modified_seconds);
    lemma_message_count(lines, modified_seconds);
    if k < lines.len() - 1 {
        assert(front[k] == lines[k]);
        assert(front.take(k) == lines.take(k));
        assert(front.take(k + 1) == lines.take(k + 1));
        law_every_message_has_a_record(front, modified_seconds, k, value);
    } else {
        assert(lines.take(k) == front);
        assert(lines.take(k + 1) == lines);
    }
}

proof fn lemma_message_count(lines: Seq<Seq<char>>, modified_seconds: i64)
    ensures
        parsed_session(lines, modified_seconds).records.len() == message_count(lines),
        parsed_session(lines, modified_seconds).credits.len() == message_count(lines),
    decreases lines.len(),
{
    if lines.len() > 0 {
        lemma_message_count(lines.drop_last(), modified_seconds);
    }
}

/// Each row that is written costs what the message that it is of reports.
pub proof fn law_row_costs_what_its_message_reports(
    s: QoderSync,
    f: FileState,
    store: usage::StoreModel,
    after: usage::StoreModel,
    parsed: ParsedModel,
    i: int,
)
    requires
        session_files::file_step(SessionProgram::Qoder, f) is Read,
        is_synced(s, f, store, after, parsed),
        0 <= i < s.sync.outcome.rows@.len(),
    ensures
        ({
            let p = s.sync.outcome.positions@[i] as int;
            &&& 0 <= p < parsed.records.len()
            &&& s.sync.outcome.rows@[i].request_id@ == parsed.records[p].request_id
            &&& i < s.costs@.len()
            &&& s.costs@[i].total_cost_usd@ == money::amount_text(
                money::credit_cost(
                    match parsed.credits[p] {
                        Some(n) => money::number_amount(n),
                        None => None,
                    },
                ),
            )
            &&& s.costs@[i].output_cost_usd@ == s.costs@[i].total_cost_usd@
            &&& s.costs@[i].input_cost_usd@ == "0"@
            &&& s.costs@[i].cache_read_cost_usd@ == "0"@
            &&& s.costs@[i].cache_creation_cost_usd@ == "0"@
        }),
{
    let ids = usage::record_ids(parsed.records);
    let out = s.sync.outcome;
    assert(usage::as_ints(out.positions@)[i] == store.written(ids)[i]);
    assert(usage::is_row_of(
        out.rows@[i],
        usage::ImportSource::Qoder,
        parsed.records[store.written(ids)[i]],
    ));
    assert(usage::as_ints(out.positions@).len() == out.positions@.len());
    assert(money::are_credit_columns(
        s.costs@[i],
        money::opt_number_amount(parsed.credits[out.positions@[i] as int]),
    ));
}

/// A message without a `message` in it has the model and the id that stand beside
/// it; a blank request id, model or session is none.
pub proof fn law_blank_labels_are_none(
    value: json::JsonModel,
    modified_seconds: i64,
    own: Seq<char>,
    reported: json::JsonModel,
    blank: Seq<char>,
    id: Seq<char>,
    model: Seq<char>,
)
    requires
        json::lacks_member(value, "message"@),
        json::has_member(value, "usage"@, reported),
        text::is_blank(blank),
        text::is_bare(id),
        session_files::is_label(model),
    ensures
        ({
            let record = assistant_record(value, modified_seconds, own);
            &&& json::has_text_member(reported, "request_id"@, blank) && json::has_text_member(
                value,
                "uuid"@,
                id,
            ) ==> record.request_id == "qoder:"@ + id
            &&& json::has_text_member(reported, "request_id"@, blank) && json::lacks_member(
                value,
                "uuid"@,
            ) ==> record.request_id == "qoder:"@ + own
            &&& json::has_text_member(value, "model"@, model) ==> record.model == model
            &&& json::has_text_member(value, "model"@, blank) ==> record.model == "unknown"@
            &&& json::has_text_member(value, "sessionId"@, blank) ==> record.session_id.len() == 0
        }),
{
    reveal_strlit("");
    json::law_member_is_found(value, "message"@);
    json::law_member_is_found(value, "usage"@);
    json::law_member_is_found(reported, "request_id"@);
    json::law_member_is_found(value, "uuid"@);
    json::law_member_is_found(value, "model"@);
    json::law_member_is_found(value, "sessionId"@);
    assert(value.field("usage"@) == Some(reported));
    text::lemma_bare_stays(id);
    session_files::lemma_bare_label(model);
    let none = Seq::<char>::empty();
    assert(blank + none + none == blank);
    text::law_padding_is_trimmed(blank, none, none);
    let a = json::JsonModel::Text(blank);
    let b = json::JsonModel::Text(id);
    let c = json::JsonModel::Text(model);
    assert(json::has_member(reported, "request_id"@, a) ==> reported.field("request_id"@) == Some(
        a,
    ));
    assert(json::has_member(value, "uuid"@, b) ==> value.field("uuid"@) == Some(b));
    assert(json::has_member(value, "model"@, c) ==> value.field("model"@) == Some(c));
    assert(json::has_member(value, "model"@, a) ==> value.field("model"@) == Some(a));
    assert(json::has_member(value, "sessionId"@, a) ==> value.field("sessionId"@) == Some(a));
}

/// A message without content that reports no output has none; and every message
/// has its time.
pub proof fn law_message_without_content(
    value: json::JsonModel,
    modified_seconds: i64,
    own: Seq<char>,
)
    ensures
        session_files::lacks_part(value, "usage"@) && session_files::lacks_part(value, "content"@)
            ==> assistant_record(value, modified_seconds, own).output_tokens == 0,
        assistant_record(value, modified_seconds, own).created_at
            == session_files::message_seconds(value, modified_seconds),
{
    session_files::law_part_is_found(value, "usage"@);
    session_files::law_part_is_found(value, "content"@);
}

} // verus!
