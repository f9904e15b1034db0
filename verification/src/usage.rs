//! Usage records, the rows of the request log that they become, and the ledger
//! that keeps every record from being imported twice.

use crate::text;
use vstd::hash_set::StringHashSet;
use vstd::prelude::*;
use vstd::string::*;

verus! {

// ---------------------------------------------------------------------------
// Results of a sync
// ---------------------------------------------------------------------------

/// What a sync did.
#[derive(Debug)]
pub struct SessionSyncResult {
    pub imported: u32,
    pub skipped: u32,
    pub files_scanned: u32,
    pub suspected_duplicates: u32,
    pub deferred_files: u32,
    pub errors: Vec<String>,
}

/// `n`, or the largest `u32` where `n` exceeds it.
pub open spec fn saturated(n: int) -> u32 {
    if n <= u32::MAX {
        n as u32
    } else {
        u32::MAX
    }
}

impl Default for SessionSyncResult {
    fn default() -> (r: Self)
        ensures
            r.imported == 0,
            r.skipped == 0,
            r.files_scanned == 0,
            r.suspected_duplicates == 0,
            r.deferred_files == 0,
            r.errors@ == Seq::<String>::empty(),
    {
        SessionSyncResult {
            imported: 0,
            skipped: 0,
            files_scanned: 0,
            suspected_duplicates: 0,
            deferred_files: 0,
            errors: Vec::new(),
        }
    }
}

impl SessionSyncResult {
    /// Adds the counts and the errors of `other`; counts stop at the largest `u32`.
    pub fn merge(&mut self, other: SessionSyncResult)
        ensures
            final(self).imported == saturated(old(self).imported + other.imported),
            final(self).skipped == saturated(old(self).skipped + other.skipped),
            final(self).files_scanned == saturated(old(self).files_scanned + other.files_scanned),
            final(self).suspected_duplicates == saturated(
                old(self).suspected_duplicates + other.suspected_duplicates,
            ),
            final(self).deferred_files == saturated(
                old(self).deferred_files + other.deferred_files,
            ),
            final(self).errors@ == old(self).errors@ + other.errors@,
    {
        self.imported = self.imported.saturating_add(other.imported);
        self.skipped = self.skipped.saturating_add(other.skipped);
        self.files_scanned = self.files_scanned.saturating_add(other.files_scanned);
        self.suspected_duplicates = self.suspected_duplicates.saturating_add(
            other.suspected_duplicates,
        );
        self.deferred_files = self.deferred_files.saturating_add(other.deferred_files);
        let mut errors = other.errors;
        self.errors.append(&mut errors);
    }
}

/// What syncing one file gave.
#[derive(Debug)]
pub struct FileOutcome {
    pub path: String,
    pub result: Result<SessionSyncResult, String>,
}

/// The counts and messages that a list of outcomes adds up to.
#[verifier::ext_equal]
pub ghost struct SyncTotals {
    pub imported: nat,
    pub skipped: nat,
    pub files_scanned: nat,
    pub suspected_duplicates: nat,
    pub deferred_files: nat,
    pub errors: Seq<Seq<char>>,
}

/// The totals with the outcome of one more file. A file that failed adds a
/// message, and counts as deferred where `defer_errors` says so.
pub open spec fn add_outcome(
    t: SyncTotals,
    label: Seq<char>,
    defer_errors: bool,
    o: FileOutcome,
) -> SyncTotals {
    match o.result {
        Ok(r) => SyncTotals {
            imported: t.imported + r.imported as nat,
            skipped: t.skipped + r.skipped as nat,
            files_scanned: t.files_scanned + r.files_scanned as nat,
            suspected_duplicates: t.suspected_duplicates + r.suspected_duplicates as nat,
            deferred_files: t.deferred_files + r.deferred_files as nat,
            errors: t.errors + text::views(r.errors@),
        },
        Err(e) => SyncTotals {
            deferred_files: t.deferred_files + if defer_errors {
                1nat
            } else {
                0nat
            },
            errors: t.errors.push(label + o.path@ + ": "@ + e@),
            ..t
        },
    }
}

/// The totals of a list of outcomes, with every file counted as scanned.
pub open spec fn totals(
    label: Seq<char>,
    defer_errors: bool,
    outcomes: Seq<FileOutcome>,
    scanned: nat,
) -> SyncTotals
    decreases outcomes.len(),
{
    if outcomes.len() == 0 {
        SyncTotals {
            imported: 0,
            skipped: 0,
            files_scanned: scanned,
            suspected_duplicates: 0,
            deferred_files: 0,
            errors: seq![],
        }
    } else {
        add_outcome(
            totals(label, defer_errors, outcomes.drop_last(), scanned),
            label,
            defer_errors,
            outcomes.last(),
        )
    }
}

/// The totals of two syncs together.
pub open spec fn sum_totals(a: SyncTotals, b: SyncTotals) -> SyncTotals {
    SyncTotals {
        imported: a.imported + b.imported,
        skipped: a.skipped + b.skipped,
        files_scanned: a.files_scanned + b.files_scanned,
        suspected_duplicates: a.suspected_duplicates + b.suspected_duplicates,
        deferred_files: a.deferred_files + b.deferred_files,
        errors: a.errors + b.errors,
    }
}

/// Whether a result shows these totals, with counts that stop at the largest
/// `u32`.
pub open spec fn shows_totals(r: SessionSyncResult, t: SyncTotals) -> bool {
    &&& r.imported == saturated(t.imported as int)
    &&& r.skipped == saturated(t.skipped as int)
    &&& r.files_scanned == saturated(t.files_scanned as int)
    &&& r.suspected_duplicates == saturated(t.suspected_duplicates as int)
    &&& r.deferred_files == saturated(t.deferred_files as int)
    &&& text::views(r.errors@) == t.errors
}

/// Adds up the outcomes of the files of a sync.
pub fn combine_outcomes(label: &str, defer_errors: bool, outcomes: Vec<FileOutcome>) -> (r:
    SessionSyncResult)
    ensures
        shows_totals(r, totals(label@, defer_errors, outcomes@, outcomes@.len())),
{
    let ghost all = outcomes@;
    let ghost count = outcomes@.len();
    let mut result = SessionSyncResult::default();
    result.files_scanned = if outcomes.len() > u32::MAX as usize {
        u32::MAX
    } else {
        outcomes.len() as u32
    };
    assert(all.take(0) == Seq::<FileOutcome>::empty());
    assert(text::views(result.errors@) == Seq::<Seq<char>>::empty());
    for outcome in it: outcomes
        invariant
            it.seq() == all,
            count == all.len(),
            shows_totals(result, totals(label@, defer_errors, all.take(it.index()), count)),
    {
        proof {
            assert(all.take(it.index() + 1).drop_last() == all.take(it.index()));
            assert(all.take(it.index() + 1).last() == outcome);
        }
        let ghost before = result.errors@;
        match outcome.result {
            Ok(per_file) => {
                let ghost more = per_file.errors@;
                result.merge(per_file);
                assert(text::views(before + more) == text::views(before) + text::views(more));
            },
            Err(e) => {
                let mut message = String::from_str(label);
                message.append(outcome.path.as_str());
                message.append(": ");
                message.append(e.as_str());
                let ghost written = message@;
                result.errors.push(message);
                assert(text::views(result.errors@) == text::views(before).push(written));
                if defer_errors {
                    result.deferred_files = result.deferred_files.saturating_add(1);
                }
            },
        }
    }
    assert(all.take(all.len() as int) == all);
    result
}

/// Adds up the results of two syncs.
pub fn combine_results(first: SessionSyncResult, second: SessionSyncResult) -> (r: SessionSyncResult)
    ensures
        forall|a: SyncTotals, b: SyncTotals|
            #![trigger sum_totals(a, b)]
            shows_totals(first, a) && shows_totals(second, b) ==> shows_totals(r, sum_totals(a, b)),
{
    let mut result = first;
    let ghost more = second.errors@;
    result.merge(second);
    assert(text::views(first.errors@ + more) == text::views(first.errors@) + text::views(more));
    result
}

/// The result of one file that imported and skipped this many records.
pub fn counts_only(imported: u32, skipped: u32) -> (r: SessionSyncResult)
    ensures
        r.imported == imported,
        r.skipped == skipped,
        r.files_scanned == 0,
        r.suspected_duplicates == 0,
        r.deferred_files == 0,
        r.errors@ == Seq::<String>::empty(),
{
    let mut result = SessionSyncResult::default();
    result.imported = imported;
    result.skipped = skipped;
    result
}

/// The result of a file that is left for a later sync.
pub fn deferred_file() -> (r: SessionSyncResult)
    ensures
        r.imported == 0,
        r.skipped == 0,
        r.files_scanned == 0,
        r.suspected_duplicates == 0,
        r.deferred_files == 1,
        r.errors@ == Seq::<String>::empty(),
{
    let mut result = SessionSyncResult::default();
    result.deferred_files = 1;
    result
}

// ---------------------------------------------------------------------------
// Records and rows
// ---------------------------------------------------------------------------

/// How the input token count of a row relates to its cached tokens.
#[derive(Debug, Clone, Copy, PartialEq, Eq, Structural)]
pub enum InputTokenSemantics {
    /// Rows from before the column existed, and uncached counts.
    Legacy,
    /// Cached tokens are part of the input tokens.
    Total,
    /// Input tokens hold no cached tokens.
    Fresh,
}

/// The program that a record comes from.
#[derive(Debug, Clone, Copy, PartialEq, Eq, Structural)]
pub enum ImportSource {
    Antigravity,
    CodeBuddy,
    WorkBuddy,
    Qoder,
    QoderCn,
}

impl ImportSource {
    /// The value of the `app_type` column.
    pub open spec fn app_type_text(self) -> Seq<char> {
        match self {
            ImportSource::Antigravity => "gemini"@,
            ImportSource::CodeBuddy => "codebuddy"@,
            ImportSource::WorkBuddy => "workbuddy"@,
            ImportSource::Qoder => "qoder"@,
            ImportSource::QoderCn => "qodercn"@,
        }
    }

    /// The value of the `data_source` and `provider_type` columns, and the name of
    /// the source in the ledger.
    pub open spec fn data_source_text(self) -> Seq<char> {
        match self {
            ImportSource::Antigravity => "antigravity_session"@,
            ImportSource::CodeBuddy => "codebuddy_session"@,
            ImportSource::WorkBuddy => "workbuddy_session"@,
            ImportSource::Qoder => "qoder_session"@,
            ImportSource::QoderCn => "qodercn_session"@,
        }
    }

    /// The placeholder in the `provider_id` column.
    pub open spec fn provider_text(self) -> Seq<char> {
        match self {
            ImportSource::Antigravity => "_antigravity_session"@,
            ImportSource::CodeBuddy => "_codebuddy_session"@,
            ImportSource::WorkBuddy => "_workbuddy_session"@,
            ImportSource::Qoder => "_qoder_session"@,
            ImportSource::QoderCn => "_qodercn_session"@,
        }
    }

    /// How the source counts input tokens.
    pub open spec fn semantics_of(self) -> InputTokenSemantics {
        match self {
            ImportSource::Antigravity => InputTokenSemantics::Legacy,
            ImportSource::Qoder => InputTokenSemantics::Fresh,
            _ => InputTokenSemantics::Total,
        }
    }

    pub fn app_type(self) -> (r: &'static str)
        ensures
            r@ == self.app_type_text(),
    {
        match self {
            ImportSource::Antigravity => "gemini",
            ImportSource::CodeBuddy => "codebuddy",
            ImportSource::WorkBuddy => "workbuddy",
            ImportSource::Qoder => "qoder",
            ImportSource::QoderCn => "qodercn",
        }
    }

    pub fn data_source(self) -> (r: &'static str)
        ensures
            r@ == self.data_source_text(),
    {
        match self {
            ImportSource::Antigravity => "antigravity_session",
            ImportSource::CodeBuddy => "codebuddy_session",
            ImportSource::WorkBuddy => "workbuddy_session",
            ImportSource::Qoder => "qoder_session",
            ImportSource::QoderCn => "qodercn_session",
        }
    }

    pub fn provider_id(self) -> (r: &'static str)
        ensures
            r@ == self.provider_text(),
    {
        match self {
            ImportSource::Antigravity => "_antigravity_session",
            ImportSource::CodeBuddy => "_codebuddy_session",
            ImportSource::WorkBuddy => "_workbuddy_session",
            ImportSource::Qoder => "_qoder_session",
            ImportSource::QoderCn => "_qodercn_session",
        }
    }

    pub fn semantics(self) -> (r: InputTokenSemantics)
        ensures
            r == self.semantics_of(),
    {
        match self {
            ImportSource::Antigravity => InputTokenSemantics::Legacy,
            ImportSource::Qoder => InputTokenSemantics::Fresh,
            _ => InputTokenSemantics::Total,
        }
    }
}

/// One request as an importer found it.
#[derive(Debug)]
pub struct UsageRecord {
    pub request_id: String,
    pub model: String,
    pub input_tokens: i64,
    pub output_tokens: i64,
    pub cache_read_tokens: i64,
    pub cache_creation_tokens: i64,
    pub session_id: String,
    pub created_at: i64,
}

/// What a record holds.
#[verifier::ext_equal]
pub ghost struct RecordModel {
    pub request_id: Seq<char>,
    pub model: Seq<char>,
    pub input_tokens: i64,
    pub output_tokens: i64,
    pub cache_read_tokens: i64,
    pub cache_creation_tokens: i64,
    pub session_id: Seq<char>,
    pub created_at: i64,
}

impl View for UsageRecord {
    type V = RecordModel;

    open spec fn view(&self) -> RecordModel {
        RecordModel {
            request_id: self.request_id@,
            model: self.model@,
            input_tokens: self.input_tokens,
            output_tokens: self.output_tokens,
            cache_read_tokens: self.cache_read_tokens,
            cache_creation_tokens: self.cache_creation_tokens,
            session_id: self.session_id@,
            created_at: self.created_at,
        }
    }
}

/// The views of a list of records.
pub open spec fn record_models(records: Seq<UsageRecord>) -> Seq<RecordModel> {
    Seq::new(records.len(), |i: int| records[i]@)
}

/// One row of the request log, without its cost columns.
#[derive(Debug)]
pub struct LogRow {
    pub request_id: String,
    pub provider_id: String,
    pub app_type: String,
    pub model: String,
    pub request_model: String,
    pub pricing_model: String,
    pub input_tokens: i64,
    pub output_tokens: i64,
    pub cache_read_tokens: i64,
    pub cache_creation_tokens: i64,
    pub input_token_semantics: InputTokenSemantics,
    pub latency_ms: i64,
    pub first_token_ms: Option<i64>,
    pub status_code: i64,
    pub error_message: Option<String>,
    pub session_id: String,
    pub provider_type: String,
    pub is_streaming: bool,
    pub cost_multiplier: String,
    pub created_at: i64,
    pub data_source: String,
}

/// Whether `row` is the row that a record of the source becomes.
pub open spec fn is_row_of(row: LogRow, source: ImportSource, record: RecordModel) -> bool {
    &&& row.request_id@ == record.request_id
    &&& row.provider_id@ == source.provider_text()
    &&& row.app_type@ == source.app_type_text()
    &&& row.model@ == record.model
    &&& row.request_model@ == record.model
    &&& row.pricing_model@ == record.model
    &&& row.input_tokens == record.input_tokens
    &&& row.output_tokens == record.output_tokens
    &&& row.cache_read_tokens == record.cache_read_tokens
    &&& row.cache_creation_tokens == record.cache_creation_tokens
    &&& row.input_token_semantics == source.semantics_of()
    &&& row.latency_ms == 0
    &&& row.first_token_ms is None
    &&& row.status_code == 200
    &&& row.error_message is None
    &&& row.session_id@ == record.session_id
    &&& row.provider_type@ == source.data_source_text()
    &&& row.is_streaming == (source == ImportSource::Antigravity)
    &&& row.cost_multiplier@ == "1.0"@
    &&& row.created_at == record.created_at
    &&& row.data_source@ == source.data_source_text()
}

/// The row that a record becomes.
pub fn log_row(source: ImportSource, record: &UsageRecord) -> (r: LogRow)
    ensures
        is_row_of(r, source, record@),
{
    LogRow {
        request_id: record.request_id.clone(),
        provider_id: source.provider_id().to_owned(),
        app_type: source.app_type().to_owned(),
        model: record.model.clone(),
        request_model: record.model.clone(),
        pricing_model: record.model.clone(),
        input_tokens: record.input_tokens,
        output_tokens: record.output_tokens,
        cache_read_tokens: record.cache_read_tokens,
        cache_creation_tokens: record.cache_creation_tokens,
        input_token_semantics: source.semantics(),
        latency_ms: 0,
        first_token_ms: None,
        status_code: 200,
        error_message: None,
        session_id: record.session_id.clone(),
        provider_type: source.data_source().to_owned(),
        is_streaming: source == ImportSource::Antigravity,
        cost_multiplier: "1.0".to_owned(),
        created_at: record.created_at,
        data_source: source.data_source().to_owned(),
    }
}

/// The token counts that a price is applied to.
#[derive(Debug, Clone, Copy, PartialEq, Eq, Structural)]
pub struct BillableTokens {
    pub input_tokens: u32,
    pub output_tokens: u32,
    pub cache_read_tokens: u32,
    pub cache_creation_tokens: u32,
}

/// `n` brought into the range of `u32`.
pub open spec fn clamped_u32(n: i64) -> u32 {
    if n < 0 {
        0
    } else if n > u32::MAX {
        u32::MAX
    } else {
        n as u32
    }
}

fn clamp_u32(n: i64) -> (r: u32)
    ensures
        r == clamped_u32(n),
{
    if n < 0 {
        0
    } else if n > u32::MAX as i64 {
        u32::MAX
    } else {
        n as u32
    }
}

/// The token counts of a row, each brought into the range of `u32`.
pub fn billable_tokens(row: &LogRow) -> (r: BillableTokens)
    ensures
        r.input_tokens == clamped_u32(row.input_tokens),
        r.output_tokens == clamped_u32(row.output_tokens),
        r.cache_read_tokens == clamped_u32(row.cache_read_tokens),
        r.cache_creation_tokens == clamped_u32(row.cache_creation_tokens),
{
    BillableTokens {
        input_tokens: clamp_u32(row.input_tokens),
        output_tokens: clamp_u32(row.output_tokens),
        cache_read_tokens: clamp_u32(row.cache_read_tokens),
        cache_creation_tokens: clamp_u32(row.cache_creation_tokens),
    }
}

/// The cost columns of a row, in US dollars.
#[derive(Debug)]
pub struct CostColumns {
    pub input_cost_usd: String,
    pub output_cost_usd: String,
    pub cache_read_cost_usd: String,
    pub cache_creation_cost_usd: String,
    pub total_cost_usd: String,
}

/// The cost columns of a row: those of the price, or zero where the model has
/// no price.
pub fn cost_columns(priced: Option<CostColumns>) -> (r: CostColumns)
    ensures
        match priced {
            Some(c) => r == c,
            None => r.input_cost_usd@ == "0"@ && r.output_cost_usd@ == "0"@
                && r.cache_read_cost_usd@ == "0"@ && r.cache_creation_cost_usd@ == "0"@
                && r.total_cost_usd@ == "0"@,
        },
{
    match priced {
        Some(c) => c,
        None => CostColumns {
            input_cost_usd: "0".to_owned(),
            output_cost_usd: "0".to_owned(),
            cache_read_cost_usd: "0".to_owned(),
            cache_creation_cost_usd: "0".to_owned(),
            total_cost_usd: "0".to_owned(),
        },
    }
}

// ---------------------------------------------------------------------------
// Timestamps of rows
// ---------------------------------------------------------------------------

/// The first second that SQLite's date functions accept.
pub const MIN_SQLITE_UNIX_SECONDS: i64 = -62_167_219_200;

/// The last second that SQLite's date functions accept.
pub const MAX_SQLITE_UNIX_SECONDS: i64 = 253_402_300_799;

/// `t` brought into the range that SQLite's date functions accept.
pub open spec fn sqlite_seconds(t: i64) -> i64 {
    if t < MIN_SQLITE_UNIX_SECONDS {
        MIN_SQLITE_UNIX_SECONDS
    } else if t > MAX_SQLITE_UNIX_SECONDS {
        MAX_SQLITE_UNIX_SECONDS
    } else {
        t
    }
}

/// Brings `t` into the range that SQLite's date functions accept.
pub fn clamp_sqlite_seconds(t: i64) -> (r: i64)
    ensures
        r == sqlite_seconds(t),
        MIN_SQLITE_UNIX_SECONDS <= r <= MAX_SQLITE_UNIX_SECONDS,
{
    if t < MIN_SQLITE_UNIX_SECONDS {
        MIN_SQLITE_UNIX_SECONDS
    } else if t > MAX_SQLITE_UNIX_SECONDS {
        MAX_SQLITE_UNIX_SECONDS
    } else {
        t
    }
}

// ---------------------------------------------------------------------------
// The ledger
// ---------------------------------------------------------------------------

/// What is known of earlier imports: the request ids of the source in the
/// ledger, the ids that the log of proxied requests already covers, and the ids
/// of the rows in the request log.
pub struct UsageStore {
    seen: StringHashSet,
    proxied: StringHashSet,
    logged: StringHashSet,
}

/// The three sets of a store.
#[verifier::ext_equal]
pub ghost struct StoreModel {
    pub seen: Set<Seq<char>>,
    pub proxied: Set<Seq<char>>,
    pub logged: Set<Seq<char>>,
}

impl View for UsageStore {
    type V = StoreModel;

    closed spec fn view(&self) -> StoreModel {
        StoreModel { seen: self.seen@, proxied: self.proxied@, logged: self.logged@ }
    }
}

/// What becomes of a record.
#[derive(Debug, Clone, Copy, PartialEq, Eq, Structural)]
pub enum Admission {
    /// The ledger or the proxy log has it: nothing is written.
    Known,
    /// The ledger is written, the log already has a row of this id.
    LedgerOnly,
    /// The ledger and the log are written.
    Imported,
}

impl StoreModel {
    /// Whether a record of this id is left alone.
    pub open spec fn knows(self, id: Seq<char>) -> bool {
        self.seen.contains(id) || self.proxied.contains(id)
    }

    /// Whether the ledger, the proxy log and the request log have none of the ids.
    pub open spec fn has_none_of(self, ids: Seq<Seq<char>>) -> bool {
        forall|i: int|
            0 <= i < ids.len() ==> !self.knows(#[trigger] ids[i]) && !self.logged.contains(ids[i])
    }

    /// What becomes of a record of this id.
    pub open spec fn admission(self, id: Seq<char>) -> Admission {
        if self.knows(id) {
            Admission::Known
        } else if self.logged.contains(id) {
            Admission::LedgerOnly
        } else {
            Admission::Imported
        }
    }

    /// The store after a record of this id was offered.
    pub open spec fn after(self, id: Seq<char>) -> StoreModel {
        if self.knows(id) {
            self
        } else {
            StoreModel {
                seen: self.seen.insert(id),
                proxied: self.proxied,
                logged: self.logged.insert(id),
            }
        }
    }

    /// The store after records of these ids were offered one after the other.
    pub open spec fn after_all(self, ids: Seq<Seq<char>>) -> StoreModel
        decreases ids.len(),
    {
        if ids.len() == 0 {
            self
        } else {
            self.after_all(ids.drop_last()).after(ids.last())
        }
    }

    /// How many of these ids are imported.
    pub open spec fn imported_count(self, ids: Seq<Seq<char>>) -> nat
        decreases ids.len(),
    {
        if ids.len() == 0 {
            0
        } else {
            self.imported_count(ids.drop_last()) + if self.after_all(ids.drop_last()).admission(
                ids.last(),
            ) == Admission::Imported {
                1nat
            } else {
                0nat
            }
        }
    }

    /// The positions of the ids that are written to the ledger.
    pub open spec fn written(self, ids: Seq<Seq<char>>) -> Seq<int>
        decreases ids.len(),
    {
        if ids.len() == 0 {
            seq![]
        } else if self.after_all(ids.drop_last()).knows(ids.last()) {
            self.written(ids.drop_last())
        } else {
            self.written(ids.drop_last()).push(ids.len() - 1)
        }
    }
}

impl UsageStore {
    /// A store without earlier imports.
    pub fn new() -> (r: Self)
        ensures
            r@.seen == Set::<Seq<char>>::empty(),
            r@.proxied == Set::<Seq<char>>::empty(),
            r@.logged == Set::<Seq<char>>::empty(),
    {
        UsageStore {
            seen: StringHashSet::new(),
            proxied: StringHashSet::new(),
            logged: StringHashSet::new(),
        }
    }

    /// Adds an id of the ledger.
    pub fn add_seen(&mut self, id: String)
        ensures
            final(self)@ == (StoreModel { seen: old(self)@.seen.insert(id@), ..old(self)@ }),
    {
        self.seen.insert(id);
    }

    /// Adds an id that the log of proxied requests covers.
    pub fn add_proxied(&mut self, id: String)
        ensures
            final(self)@ == (StoreModel { proxied: old(self)@.proxied.insert(id@), ..old(self)@ }),
    {
        self.proxied.insert(id);
    }

    /// Adds the id of a row in the request log.
    pub fn add_logged(&mut self, id: String)
        ensures
            final(self)@ == (StoreModel { logged: old(self)@.logged.insert(id@), ..old(self)@ }),
    {
        self.logged.insert(id);
    }

    /// Whether the ledger has this id.
    pub fn has_seen(&self, id: &str) -> (r: bool)
        ensures
            r == self@.seen.contains(id@),
    {
        self.seen.contains(id)
    }

    /// Offers a record of this id.
    pub fn offer(&mut self, id: &str) -> (r: Admission)
        ensures
            r == old(self)@.admission(id@),
            final(self)@ == old(self)@.after(id@),
    {
        if self.seen.contains(id) || self.proxied.contains(id) {
            return Admission::Known;
        }
        self.seen.insert(id.to_owned());
        if self.logged.insert(id.to_owned()) {
            Admission::Imported
        } else {
            Admission::LedgerOnly
        }
    }
}

/// The request ids of a list of records.
pub open spec fn record_ids(records: Seq<RecordModel>) -> Seq<Seq<char>> {
    Seq::new(records.len(), |i: int| records[i].request_id)
}

/// What an import writes and how many records it took.
#[derive(Debug)]
pub struct ImportOutcome {
    /// The rows to write, each to the ledger and to the request log.
    pub rows: Vec<LogRow>,
    /// For each row the position of its record.
    pub positions: Vec<usize>,
    pub imported: u32,
    pub skipped: u32,
}

/// Whether `rows` are the rows of the records at these positions.
pub open spec fn are_rows_at(
    rows: Seq<LogRow>,
    source: ImportSource,
    records: Seq<RecordModel>,
    positions: Seq<int>,
) -> bool {
    &&& rows.len() == positions.len()
    &&& forall|i: int|
        0 <= i < rows.len() ==> 0 <= positions[i] < records.len() && is_row_of(
            #[trigger] rows[i],
            source,
            records[positions[i]],
        )
}

/// Positions as mathematical integers.
pub open spec fn as_ints(v: Seq<usize>) -> Seq<int> {
    Seq::new(v.len(), |i: int| v[i] as int)
}

/// Whether an outcome is that of offering the records to a store one after the
/// other, after `skipped` others were skipped.
pub open spec fn is_import_of(
    out: ImportOutcome,
    source: ImportSource,
    store: StoreModel,
    records: Seq<RecordModel>,
    skipped: int,
) -> bool {
    let ids = record_ids(records);
    &&& out.imported == saturated(store.imported_count(ids) as int)
    &&& out.skipped == saturated(skipped + records.len() - store.imported_count(ids))
    &&& as_ints(out.positions@) == store.written(ids)
    &&& are_rows_at(out.rows@, source, records, store.written(ids))
}

proof fn lemma_ids_push(records: Seq<RecordModel>, k: int)
    requires
        0 <= k < records.len(),
    ensures
        record_ids(records.take(k + 1)).drop_last() == record_ids(records.take(k)),
        record_ids(records.take(k + 1)).last() == records[k].request_id,
{
}

/// The positions that are written are positions of the ids.
pub proof fn lemma_written_range(store: StoreModel, ids: Seq<Seq<char>>)
    ensures
        forall|i: int|
            0 <= i < store.written(ids).len() ==> 0 <= #[trigger] store.written(ids)[i] < ids.len(),
    decreases ids.len(),
{
    if ids.len() > 0 {
        lemma_written_range(store, ids.drop_last());
        assert forall|i: int| 0 <= i < store.written(ids).len() implies 0 <= #[trigger] store.written(
            ids,
        )[i] < ids.len() by {
            let front = store.written(ids.drop_last());
            if i < front.len() {
                assert(store.written(ids)[i] == front[i]);
            }
        }
    }
}

proof fn lemma_imported_bound(store: StoreModel, ids: Seq<Seq<char>>)
    ensures
        store.imported_count(ids) <= ids.len(),
    decreases ids.len(),
{
    if ids.len() > 0 {
        lemma_imported_bound(store, ids.drop_last());
    }
}

/// Offers the records to the store one after the other.
pub fn import_records(
    store: &mut UsageStore,
    source: ImportSource,
    records: &Vec<UsageRecord>,
    skipped_before: u32,
) -> (r: ImportOutcome)
    ensures
        is_import_of(r, source, old(store)@, record_models(records@), skipped_before as int),
        final(store)@ == old(store)@.after_all(record_ids(record_models(records@))),
{
    let ghost models = record_models(records@);
    let ghost before = store@;
    let mut rows: Vec<LogRow> = Vec::new();
    let mut positions: Vec<usize> = Vec::new();
    let mut imported: u32 = 0;
    let mut skipped: u32 = skipped_before;
    let mut i: usize = 0;
    assert(record_ids(models.take(0)) == Seq::<Seq<char>>::empty());
    assert(as_ints(positions@) == Seq::<int>::empty());
    while i < records.len()
        invariant
            models == record_models(records@),
            before == old(store)@,
            i <= records@.len(),
            store@ == before.after_all(record_ids(models.take(i as int))),
            imported == saturated(before.imported_count(record_ids(models.take(i as int))) as int),
            skipped == saturated(
                skipped_before + i - before.imported_count(record_ids(models.take(i as int))),
            ),
            as_ints(positions@) == before.written(record_ids(models.take(i as int))),
            are_rows_at(
                rows@,
                source,
                models,
                before.written(record_ids(models.take(i as int))),
            ),
        decreases records@.len() - i,
    {
        let record = &records[i];
        proof {
            lemma_ids_push(models, i as int);
            lemma_written_range(before, record_ids(models.take(i as int)));
            lemma_imported_bound(before, record_ids(models.take(i as int)));
        }
        match store.offer(record.request_id.as_str()) {
            Admission::Known => {
                skipped = skipped.saturating_add(1);
            },
            Admission::LedgerOnly => {
                rows.push(log_row(source, record));
                assert(as_ints(positions@.push(i)) == as_ints(positions@).push(i as int));
                positions.push(i);
                skipped = skipped.saturating_add(1);
            },
            Admission::Imported => {
                rows.push(log_row(source, record));
                assert(as_ints(positions@.push(i)) == as_ints(positions@).push(i as int));
                positions.push(i);
                imported = imported.saturating_add(1);
            },
        }
        i = i + 1;
    }
    assert(models.take(records@.len() as int) == models);
    ImportOutcome { rows, positions, imported, skipped }
}

// ---------------------------------------------------------------------------
// Laws of the ledger
// ---------------------------------------------------------------------------

proof fn lemma_after_all_knows(store: StoreModel, ids: Seq<Seq<char>>)
    ensures
        forall|i: int| 0 <= i < ids.len() ==> store.after_all(ids).knows(#[trigger] ids[i]),
        store.after_all(ids).proxied == store.proxied,
        forall|id: Seq<char>| store.knows(id) ==> store.after_all(ids).knows(id),
    decreases ids.len(),
{
    if ids.len() > 0 {
        lemma_after_all_knows(store, ids.drop_last());
        assert forall|i: int| 0 <= i < ids.len() implies store.after_all(ids).knows(
            #[trigger] ids[i],
        ) by {
            if i < ids.len() - 1 {
                assert(ids.drop_last()[i] == ids[i]);
            }
        }
    }
}

/// Offering ids that are all known imports none and leaves the store as it is.
proof fn lemma_known_ids(store: StoreModel, ids: Seq<Seq<char>>)
    requires
        forall|i: int| 0 <= i < ids.len() ==> store.knows(#[trigger] ids[i]),
    ensures
        store.after_all(ids) == store,
        store.imported_count(ids) == 0,
        store.written(ids) == Seq::<int>::empty(),
    decreases ids.len(),
{
    if ids.len() > 0 {
        assert forall|i: int| 0 <= i < ids.len() - 1 implies store.knows(
            #[trigger] ids.drop_last()[i],
        ) by {
            assert(ids.drop_last()[i] == ids[i]);
        }
        lemma_known_ids(store, ids.drop_last());
    }
}

/// An import is idempotent: offering the same records again imports none of
/// them, writes nothing and leaves the store as it is.
pub proof fn law_replay_imports_nothing(store: StoreModel, ids: Seq<Seq<char>>)
    ensures
        store.after_all(ids).imported_count(ids) == 0,
        store.after_all(ids).written(ids) == Seq::<int>::empty(),
        store.after_all(ids).after_all(ids) == store.after_all(ids),
{
    lemma_after_all_knows(store, ids);
    lemma_known_ids(store.after_all(ids), ids);
}

/// No more records are imported than are written to the ledger, and no more are
/// written than were offered.
pub proof fn law_import_counts(store: StoreModel, ids: Seq<Seq<char>>)
    ensures
        store.imported_count(ids) <= store.written(ids).len() <= ids.len(),
    decreases ids.len(),
{
    if ids.len() > 0 {
        law_import_counts(store, ids.drop_last());
    }
}

/// Importing adds no other ids to the ledger and the log.
proof fn lemma_after_all_adds_no_other(store: StoreModel, ids: Seq<Seq<char>>, id: Seq<char>)
    requires
        forall|i: int| 0 <= i < ids.len() ==> #[trigger] ids[i] != id,
    ensures
        store.after_all(ids).seen.contains(id) == store.seen.contains(id),
        store.after_all(ids).logged.contains(id) == store.logged.contains(id),
    decreases ids.len(),
{
    if ids.len() > 0 {
        assert forall|i: int| 0 <= i < ids.len() - 1 implies #[trigger] ids.drop_last()[i] != id by {
            assert(ids.drop_last()[i] == ids[i]);
        }
        lemma_after_all_adds_no_other(store, ids.drop_last(), id);
        assert(ids.last() == ids[ids.len() - 1]);
    }
}

/// Records with distinct ids that neither the ledger, the proxy log nor the
/// request log has are all imported, and all written.
pub proof fn law_new_records_all_imported(store: StoreModel, ids: Seq<Seq<char>>)
    requires
        ids.no_duplicates(),
        store.has_none_of(ids),
    ensures
        store.imported_count(ids) == ids.len(),
        store.written(ids) == Seq::new(ids.len(), |i: int| i),
    decreases ids.len(),
{
    if ids.len() > 0 {
        let front = ids.drop_last();
        assert forall|i: int| 0 <= i < front.len() implies !store.knows(#[trigger] front[i])
            && !store.logged.contains(front[i]) by {
            assert(front[i] == ids[i]);
        }
        law_new_records_all_imported(store, front);
        let last = ids[ids.len() - 1];
        assert forall|i: int| 0 <= i < front.len() implies #[trigger] front[i] != last by {
            assert(front[i] == ids[i]);
        }
        lemma_after_all_adds_no_other(store, front, last);
        lemma_after_all_knows(store, front);
        assert(store.written(ids) == store.written(front).push(ids.len() - 1));
    }
}

/// Records with new ids are all imported after others were, where the ids of both
/// are distinct.
pub proof fn law_later_records_all_imported(
    store: StoreModel,
    earlier: Seq<Seq<char>>,
    later: Seq<Seq<char>>,
)
    requires
        (earlier + later).no_duplicates(),
        store.has_none_of(later),
    ensures
        store.after_all(earlier).imported_count(later) == later.len(),
        store.after_all(earlier).written(later) == Seq::new(later.len(), |i: int| i),
{
    let all = earlier + later;
    let after = store.after_all(earlier);
    assert forall|i: int, j: int| 0 <= i < later.len() && 0 <= j < later.len() && i
        != j implies later[i] != later[j] by {
        assert(all[earlier.len() + i] == later[i] && all[earlier.len() + j] == later[j]);
    }
    assert forall|i: int| 0 <= i < later.len() implies !after.knows(#[trigger] later[i])
        && !after.logged.contains(later[i]) by {
        assert forall|k: int| 0 <= k < earlier.len() implies #[trigger] earlier[k] != later[i] by {
            assert(all[k] == earlier[k] && all[earlier.len() + i] == later[i]);
        }
        lemma_after_all_adds_no_other(store, earlier, later[i]);
        assert(!store.knows(later[i]));
        lemma_proxied_stays(store, earlier);
    }
    law_new_records_all_imported(after, later);
}

proof fn lemma_proxied_stays(store: StoreModel, ids: Seq<Seq<char>>)
    ensures
        store.after_all(ids).proxied == store.proxied,
    decreases ids.len(),
{
    if ids.len() > 0 {
        lemma_proxied_stays(store, ids.drop_last());
    }
}

/// A sync imports an id at most once, whatever was offered before: an id that
/// is written is in the ledger from then on.
pub proof fn law_ledger_only_grows(store: StoreModel, ids: Seq<Seq<char>>)
    ensures
        store.seen.subset_of(store.after_all(ids).seen),
        store.logged.subset_of(store.after_all(ids).logged),
        forall|i: int| 0 <= i < ids.len() ==> store.after_all(ids).knows(#[trigger] ids[i]),
    decreases ids.len(),
{
    lemma_after_all_knows(store, ids);
    if ids.len() > 0 {
        law_ledger_only_grows(store, ids.drop_last());
    }
}

// ---------------------------------------------------------------------------
// Two passes over the same files
// ---------------------------------------------------------------------------

/// An id that is known stays known.
proof fn lemma_known_stays(store: StoreModel, ids: Seq<Seq<char>>, id: Seq<char>)
    requires
        store.knows(id),
    ensures
        store.after_all(ids).knows(id),
{
    law_ledger_only_grows(store, ids);
    lemma_proxied_stays(store, ids);
}

/// Whether a file was synced with these counts.
pub open spec fn has_counts(o: FileOutcome, imported: u32, skipped: u32, deferred: u32) -> bool {
    &&& o.result matches Ok(r)
    &&& r.imported == imported
    &&& r.skipped == skipped
    &&& r.files_scanned == 0
    &&& r.suspected_duplicates == 0
    &&& r.deferred_files == deferred
    &&& r.errors@.len() == 0
}

/// What a pass finds in a file: why it cannot be synced, or the ids of its
/// records, how many more are skipped, and whether it is left for later.
pub ghost struct FileImport {
    pub path: Seq<char>,
    pub error: Option<Seq<char>>,
    pub deferred: u32,
    pub skips: u32,
    pub ids: Seq<Seq<char>>,
}

impl StoreModel {
    /// The store after a file was synced.
    pub open spec fn after_file(self, f: FileImport) -> StoreModel {
        if f.error is Some {
            self
        } else {
            self.after_all(f.ids)
        }
    }

    /// The store after files were synced one after the other.
    pub open spec fn after_files(self, files: Seq<FileImport>) -> StoreModel
        decreases files.len(),
    {
        if files.len() == 0 {
            self
        } else {
            self.after_files(files.drop_last()).after_file(files.last())
        }
    }

    /// Whether every id of the files that can be synced is known.
    pub open spec fn knows_files(self, files: Seq<FileImport>) -> bool {
        forall|i: int, k: int|
            #![trigger files[i].ids[k]]
            0 <= i < files.len() && files[i].error is None && 0 <= k < files[i].ids.len()
                ==> self.knows(files[i].ids[k])
    }
}

/// Whether an outcome is that of syncing a file.
pub open spec fn is_outcome_of(o: FileOutcome, store: StoreModel, f: FileImport) -> bool {
    let imported = store.imported_count(f.ids);
    &&& o.path@ == f.path
    &&& match f.error {
        Some(e) => o.result matches Err(message) && message@ == e,
        None => has_counts(
            o,
            saturated(imported as int),
            saturated(f.skips + f.ids.len() - imported),
            f.deferred,
        ),
    }
}

/// Whether outcomes are those of syncing files one after the other.
pub open spec fn are_outcomes_of(
    outcomes: Seq<FileOutcome>,
    store: StoreModel,
    files: Seq<FileImport>,
) -> bool {
    &&& outcomes.len() == files.len()
    &&& forall|i: int|
        0 <= i < files.len() ==> is_outcome_of(
            #[trigger] outcomes[i],
            store.after_files(files.take(i)),
            files[i],
        )
}

proof fn lemma_pass_is_known(store: StoreModel, files: Seq<FileImport>)
    ensures
        store.after_files(files).knows_files(files),
    decreases files.len(),
{
    if files.len() > 0 {
        let front = files.drop_last();
        let last = files.last();
        lemma_pass_is_known(store, front);
        let before = store.after_files(front);
        let after = store.after_files(files);
        assert forall|i: int, k: int|
            #![trigger files[i].ids[k]]
            0 <= i < files.len() && files[i].error is None && 0 <= k
                < files[i].ids.len() implies after.knows(files[i].ids[k]) by {
            if i < front.len() {
                assert(front[i] == files[i]);
                assert(before.knows(front[i].ids[k]));
                if last.error is None {
                    lemma_known_stays(before, last.ids, files[i].ids[k]);
                }
            } else {
                law_ledger_only_grows(before, last.ids);
                assert(after.knows(last.ids[k]));
            }
        }
    }
}

proof fn lemma_known_pass(store: StoreModel, files: Seq<FileImport>)
    requires
        store.knows_files(files),
    ensures
        store.after_files(files) == store,
    decreases files.len(),
{
    if files.len() > 0 {
        let front = files.drop_last();
        let n = files.len() - 1;
        assert forall|i: int, k: int|
            #![trigger front[i].ids[k]]
            0 <= i < front.len() && front[i].error is None && 0 <= k
                < front[i].ids.len() implies store.knows(front[i].ids[k]) by {
            assert(front[i] == files[i]);
            assert(store.knows(files[i].ids[k]));
        }
        lemma_known_pass(store, front);
        assert(files.last() == files[n]);
        if files[n].error is None {
            assert forall|k: int| 0 <= k < files[n].ids.len() implies store.knows(
                #[trigger] files[n].ids[k],
            ) by {}
            lemma_known_ids(store, files[n].ids);
        }
    }
}

proof fn lemma_known_outcomes(
    store: StoreModel,
    files: Seq<FileImport>,
    outcomes: Seq<FileOutcome>,
    i: int,
)
    requires
        store.knows_files(files),
        are_outcomes_of(outcomes, store, files),
        0 <= i < files.len(),
    ensures
        outcomes[i].path@ == files[i].path,
        match files[i].error {
            Some(e) => outcomes[i].result matches Err(message) && message@ == e,
            None => has_counts(
                outcomes[i],
                0,
                saturated((files[i].skips + files[i].ids.len()) as int),
                files[i].deferred,
            ),
        },
{
    let taken = files.take(i);
    assert forall|j: int, k: int|
        #![trigger taken[j].ids[k]]
        0 <= j < taken.len() && taken[j].error is None && 0 <= k
            < taken[j].ids.len() implies store.knows(taken[j].ids[k]) by {
        assert(taken[j] == files[j]);
        assert(store.knows(files[j].ids[k]));
    }
    lemma_known_pass(store, taken);
    assert(is_outcome_of(outcomes[i], store.after_files(taken), files[i]));
    if files[i].error is None {
        lemma_known_ids(store, files[i].ids);
    }
}

/// A pass over files of which each has no records, or those that it had in the
/// pass before, imports nothing and leaves the store as it is.
pub proof fn law_later_pass_imports_nothing(
    label: Seq<char>,
    defer_errors: bool,
    store: StoreModel,
    files: Seq<FileImport>,
    later_files: Seq<FileImport>,
    later: Seq<FileOutcome>,
)
    requires
        later_files.len() == files.len(),
        forall|i: int|
            0 <= i < files.len() && (#[trigger] later_files[i]).error is None
                && later_files[i].ids.len() > 0 ==> files[i].error is None && files[i].ids
                == later_files[i].ids,
        are_outcomes_of(later, store.after_files(files), later_files),
    ensures
        totals(label, defer_errors, later, later.len()).imported == 0,
        store.after_files(files).after_files(later_files) == store.after_files(files),
{
    let after = store.after_files(files);
    lemma_pass_is_known(store, files);
    assert forall|i: int, k: int|
        #![trigger later_files[i].ids[k]]
        0 <= i < later_files.len() && later_files[i].error is None && 0 <= k
            < later_files[i].ids.len() implies after.knows(later_files[i].ids[k]) by {
        assert(after.knows(files[i].ids[k]));
    }
    lemma_known_pass(after, later_files);
    assert forall|i: int| 0 <= i < later.len() implies ((#[trigger] later[i]).result matches Ok(r)
        ==> r.imported == 0) by {
        lemma_known_outcomes(after, later_files, later, i);
    }
    lemma_nothing_imported(label, defer_errors, later, later.len());
}

proof fn lemma_nothing_imported(
    label: Seq<char>,
    defer_errors: bool,
    outcomes: Seq<FileOutcome>,
    scanned: nat,
)
    requires
        forall|i: int|
            0 <= i < outcomes.len() ==> ((#[trigger] outcomes[i]).result matches Ok(r)
                ==> r.imported == 0),
    ensures
        totals(label, defer_errors, outcomes, scanned).imported == 0,
    decreases outcomes.len(),
{
    if outcomes.len() > 0 {
        let front = outcomes.drop_last();
        assert forall|i: int| 0 <= i < front.len() implies ((
        #[trigger] front[i]).result matches Ok(r) ==> r.imported == 0) by {
            assert(front[i] == outcomes[i]);
        }
        lemma_nothing_imported(label, defer_errors, front, scanned);
        assert(outcomes.last() == outcomes[outcomes.len() - 1]);
    }
}

/// A second pass over files that did not change imports nothing, skips all that
/// the first imported or skipped, reports the same files and errors, and leaves
/// the store as it is. Left out are counts that do not fit.
pub proof fn law_pass_replay(
    label: Seq<char>,
    defer_errors: bool,
    store: StoreModel,
    files: Seq<FileImport>,
    first: Seq<FileOutcome>,
    second: Seq<FileOutcome>,
)
    requires
        are_outcomes_of(first, store, files),
        are_outcomes_of(second, store.after_files(files), files),
    ensures
        ({
            let a = totals(label, defer_errors, first, first.len());
            let b = totals(label, defer_errors, second, second.len());
            &&& b.imported == 0
            &&& a.imported + a.skipped < u32::MAX ==> b.skipped == a.imported + a.skipped
            &&& b.files_scanned == a.files_scanned
            &&& b.suspected_duplicates == a.suspected_duplicates
            &&& b.deferred_files == a.deferred_files
            &&& b.errors == a.errors
        }),
        store.after_files(files).after_files(files) == store.after_files(files),
{
    let after = store.after_files(files);
    lemma_pass_is_known(store, files);
    lemma_known_pass(after, files);
    assert forall|i: int| 0 <= i < first.len() implies is_replay(
        #[trigger] first[i],
        second[i],
    ) by {
        lemma_known_outcomes(after, files, second, i);
        assert(is_outcome_of(first[i], store.after_files(files.take(i)), files[i]));
        law_import_counts(store.after_files(files.take(i)), files[i].ids);
    }
    lemma_replayed_totals(label, defer_errors, first, second, first.len());
}

/// Whether a file that is synced a second time imports nothing, and skips what it
/// imported and skipped before; or fails again, with the same message.
pub open spec fn is_replay(first: FileOutcome, second: FileOutcome) -> bool {
    match first.result {
        Ok(a) => {
            &&& has_counts(first, a.imported, a.skipped, a.deferred_files)
            &&& second.result matches Ok(b)
            &&& has_counts(second, 0, b.skipped, a.deferred_files)
            &&& a.imported + a.skipped < u32::MAX ==> b.skipped == a.imported + a.skipped
        },
        Err(a) => second.result matches Err(b) && a@ == b@ && first.path@ == second.path@,
    }
}

/// The totals of two passes over files of which the second replays the first.
proof fn lemma_replayed_totals(
    label: Seq<char>,
    defer_errors: bool,
    first: Seq<FileOutcome>,
    second: Seq<FileOutcome>,
    scanned: nat,
)
    requires
        first.len() == second.len(),
        forall|i: int| 0 <= i < first.len() ==> is_replay(#[trigger] first[i], second[i]),
    ensures
        ({
            let a = totals(label, defer_errors, first, scanned);
            let b = totals(label, defer_errors, second, scanned);
            &&& b.imported == 0
            &&& a.imported + a.skipped < u32::MAX ==> b.skipped == a.imported + a.skipped
            &&& b.files_scanned == a.files_scanned
            &&& b.suspected_duplicates == a.suspected_duplicates
            &&& b.deferred_files == a.deferred_files
            &&& b.errors == a.errors
        }),
    decreases first.len(),
{
    if first.len() > 0 {
        let n = first.len() - 1;
        assert forall|i: int| 0 <= i < n implies is_replay(
            #[trigger] first.drop_last()[i],
            second.drop_last()[i],
        ) by {
            assert(first.drop_last()[i] == first[i] && second.drop_last()[i] == second[i]);
        }
        lemma_replayed_totals(
            label,
            defer_errors,
            first.drop_last(),
            second.drop_last(),
            scanned,
        );
        assert(is_replay(first[n], second[n]));
        if let (Ok(a), Ok(b)) = (first[n].result, second[n].result) {
            assert(text::views(a.errors@) =~= seq![]);
            assert(text::views(b.errors@) =~= seq![]);
        }
    }
}

/// Whether a file that is synced a second time imports nothing, and skips at least
/// what it imported before.
pub open spec fn is_covered(first: FileOutcome, second: FileOutcome) -> bool {
    &&& first.result matches Ok(a)
    &&& has_counts(first, a.imported, a.skipped, 0)
    &&& second.result matches Ok(b)
    &&& has_counts(second, 0, b.skipped, 0)
    &&& b.skipped >= a.imported
}

/// The totals of two passes over files, where the second imports nothing of a
/// file, and skips at least what the first imported.
pub proof fn lemma_covered_totals(
    label: Seq<char>,
    defer_errors: bool,
    first: Seq<FileOutcome>,
    second: Seq<FileOutcome>,
    scanned: nat,
)
    requires
        first.len() == second.len(),
        forall|i: int| 0 <= i < first.len() ==> is_covered(#[trigger] first[i], second[i]),
    ensures
        ({
            let a = totals(label, defer_errors, first, scanned);
            let b = totals(label, defer_errors, second, scanned);
            &&& b.imported == 0
            &&& b.skipped >= a.imported
            &&& b.files_scanned == a.files_scanned
            &&& b.suspected_duplicates == 0
            &&& b.deferred_files == 0
            &&& b.errors == Seq::<Seq<char>>::empty()
        }),
    decreases first.len(),
{
    if first.len() > 0 {
        let n = first.len() - 1;
        assert forall|i: int| 0 <= i < n implies is_covered(
            #[trigger] first.drop_last()[i],
            second.drop_last()[i],
        ) by {
            assert(first.drop_last()[i] == first[i] && second.drop_last()[i] == second[i]);
        }
        lemma_covered_totals(
            label,
            defer_errors,
            first.drop_last(),
            second.drop_last(),
            scanned,
        );
        assert(is_covered(first[n], second[n]));
        if let (Ok(a), Ok(b)) = (first[n].result, second[n].result) {
            assert(text::views(b.errors@) =~= seq![]);
        }
    }
}

/// A record that is new is written with what it holds: its row has the id, the
/// model, each count, the session and the time of the record. Input tokens count
/// cached ones in, except for Qoder, which counts them apart, and Antigravity,
/// whose rows say nothing of it.
pub proof fn law_new_records_are_written(
    out: ImportOutcome,
    source: ImportSource,
    store: StoreModel,
    records: Seq<RecordModel>,
    skipped: int,
    k: int,
)
    requires
        is_import_of(out, source, store, records, skipped),
        0 <= k < records.len(),
        !store.seen.contains(records[k].request_id),
        !store.proxied.contains(records[k].request_id),
        forall|j: int| 0 <= j < k ==> (#[trigger] records[j]).request_id != records[k].request_id,
    ensures
        exists|i: int|
            0 <= i < out.rows@.len() && out.positions@[i] == k && {
                let row = #[trigger] out.rows@[i];
                &&& row.request_id@ == records[k].request_id
                &&& row.model@ == records[k].model
                &&& row.pricing_model@ == records[k].model
                &&& row.input_tokens == records[k].input_tokens
                &&& row.output_tokens == records[k].output_tokens
                &&& row.cache_read_tokens == records[k].cache_read_tokens
                &&& row.cache_creation_tokens == records[k].cache_creation_tokens
                &&& row.session_id@ == records[k].session_id
                &&& row.created_at == records[k].created_at
                &&& row.input_token_semantics == match source {
                    ImportSource::Antigravity => InputTokenSemantics::Legacy,
                    ImportSource::Qoder => InputTokenSemantics::Fresh,
                    ImportSource::CodeBuddy => InputTokenSemantics::Total,
                    ImportSource::WorkBuddy => InputTokenSemantics::Total,
                    ImportSource::QoderCn => InputTokenSemantics::Total,
                }
            },
{
    let ids = record_ids(records);
    assert forall|j: int| 0 <= j < k implies #[trigger] ids[j] != ids[k] by {
        assert(records[j].request_id != records[k].request_id);
    }
    lemma_new_id_written(store, ids, k);
    let i = choose|i: int| 0 <= i < store.written(ids).len() && store.written(ids)[i] == k;
    assert(as_ints(out.positions@)[i] == store.written(ids)[i]);
    assert(is_row_of(out.rows@[i], source, records[store.written(ids)[i]]));
}

proof fn lemma_new_id_written(store: StoreModel, ids: Seq<Seq<char>>, k: int)
    requires
        0 <= k < ids.len(),
        !store.knows(ids[k]),
        forall|j: int| 0 <= j < k ==> #[trigger] ids[j] != ids[k],
    ensures
        exists|i: int| 0 <= i < store.written(ids).len() && store.written(ids)[i] == k,
    decreases ids.len(),
{
    let front = ids.drop_last();
    if k < ids.len() - 1 {
        assert(front[k] == ids[k]);
        assert forall|j: int| 0 <= j < k implies #[trigger] front[j] != front[k] by {
            assert(front[j] == ids[j]);
        }
        lemma_new_id_written(store, front, k);
        let i = choose|i: int| 0 <= i < store.written(front).len() && store.written(front)[i] == k;
        assert(store.written(ids)[i] == k);
    } else {
        assert forall|j: int| 0 <= j < front.len() implies #[trigger] front[j] != ids[k] by {
            assert(front[j] == ids[j]);
        }
        lemma_unoffered_stays(store, front, ids[k]);
        let i = store.written(front).len() as int;
        assert(store.written(ids)[i] == k);
    }
}

proof fn lemma_unoffered_stays(store: StoreModel, ids: Seq<Seq<char>>, id: Seq<char>)
    requires
        forall|j: int| 0 <= j < ids.len() ==> #[trigger] ids[j] != id,
    ensures
        store.after_all(ids).knows(id) == store.knows(id),
        store.after_all(ids).logged.contains(id) == store.logged.contains(id),
    decreases ids.len(),
{
    if ids.len() > 0 {
        let front = ids.drop_last();
        assert forall|j: int| 0 <= j < front.len() implies #[trigger] front[j] != id by {
            assert(front[j] == ids[j]);
        }
        assert(ids[ids.len() - 1] != id);
        lemma_unoffered_stays(store, front, id);
    }
}

/// What syncing several files gave adds up: what two lists of files give together
/// is what the first gives and then what the second gives.
pub proof fn law_totals_add_up(
    label: Seq<char>,
    defer_errors: bool,
    a: Seq<FileOutcome>,
    b: Seq<FileOutcome>,
    m: nat,
    n: nat,
)
    ensures
        totals(label, defer_errors, a + b, m + n) == sum_totals(
            totals(label, defer_errors, a, m),
            totals(label, defer_errors, b, n),
        ),
    decreases b.len(),
{
    if b.len() > 0 {
        law_totals_add_up(label, defer_errors, a, b.drop_last(), m, n);
        assert((a + b).drop_last() == a + b.drop_last());
        assert((a + b).last() == b.last());
        assert(totals(label, defer_errors, a + b, m + n) =~= sum_totals(
            totals(label, defer_errors, a, m),
            totals(label, defer_errors, b, n),
        ));
    } else {
        assert(a + b == a);
        assert(totals(label, defer_errors, a, m + n) =~= sum_totals(
            totals(label, defer_errors, a, m),
            totals(label, defer_errors, b, n),
        )) by {
            lemma_scanned(label, defer_errors, a, m, n);
        }
    }
}

proof fn lemma_scanned(
    label: Seq<char>,
    defer_errors: bool,
    a: Seq<FileOutcome>,
    m: nat,
    n: nat,
)
    ensures
        totals(label, defer_errors, a, m + n) == (SyncTotals {
            files_scanned: totals(label, defer_errors, a, m).files_scanned + n,
            ..totals(label, defer_errors, a, m)
        }),
    decreases a.len(),
{
    if a.len() > 0 {
        lemma_scanned(label, defer_errors, a.drop_last(), m, n);
    }
}

/// A file that was synced gives its counts; one that could not be is reported with
/// its path and the reason, and waits for a later sync where that is what the
/// program does.
pub proof fn law_totals_of_one_file(label: Seq<char>, defer_errors: bool, o: FileOutcome)
    ensures
        ({
            let t = totals(label, defer_errors, seq![o], 1);
            match o.result {
                Ok(r) => {
                    &&& t.imported == r.imported
                    &&& t.skipped == r.skipped
                    &&& t.files_scanned == 1 + r.files_scanned
                    &&& t.suspected_duplicates == r.suspected_duplicates
                    &&& t.deferred_files == r.deferred_files
                    &&& t.errors == text::views(r.errors@)
                },
                Err(e) => {
                    &&& t.imported == 0
                    &&& t.skipped == 0
                    &&& t.files_scanned == 1
                    &&& t.deferred_files == (if defer_errors {
                        1nat
                    } else {
                        0nat
                    })
                    &&& t.errors == seq![label + o.path@ + ": "@ + e@]
                },
            }
        }),
{
    let list = seq![o];
    assert(list.drop_last() == Seq::<FileOutcome>::empty());
    assert(list.last() == o);
    let none = totals(label, defer_errors, list.drop_last(), 1);
    assert(none.errors == Seq::<Seq<char>>::empty());
    match o.result {
        Ok(r) => {
            assert(none.errors + text::views(r.errors@) =~= text::views(r.errors@));
        },
        Err(e) => {
            assert(none.errors.push(label + o.path@ + ": "@ + e@) =~= seq![
                label + o.path@ + ": "@ + e@,
            ]);
        },
    }
}

/// No record is written twice: each row that is written is of a record whose id
/// was not known, and no two rows have one id.
pub proof fn law_no_record_is_written_twice(
    out: ImportOutcome,
    source: ImportSource,
    store: StoreModel,
    records: Seq<RecordModel>,
    skipped: int,
    i: int,
)
    requires
        is_import_of(out, source, store, records, skipped),
        0 <= i < out.rows@.len(),
    ensures
        !store.seen.contains(out.rows@[i].request_id@),
        !store.proxied.contains(out.rows@[i].request_id@),
        forall|j: int|
            0 <= j < i ==> (#[trigger] out.rows@[j]).request_id@ != out.rows@[i].request_id@,
{
    let ids = record_ids(records);
    lemma_written_new(store, ids);
    let w = store.written(ids);
    assert(is_row_of(out.rows@[i], source, records[w[i]]));
    assert(ids[w[i]] == records[w[i]].request_id);
    assert forall|j: int| 0 <= j < i implies (#[trigger] out.rows@[j]).request_id@
        != out.rows@[i].request_id@ by {
        assert(is_row_of(out.rows@[j], source, records[w[j]]));
        assert(ids[w[j]] == records[w[j]].request_id);
        assert(ids[w[j]] != ids[w[i]]);
    }
}

proof fn lemma_written_new(store: StoreModel, ids: Seq<Seq<char>>)
    ensures
        forall|i: int|
            0 <= i < store.written(ids).len() ==> 0 <= #[trigger] store.written(ids)[i] < ids.len()
                && !store.knows(ids[store.written(ids)[i]]),
        forall|i: int, j: int|
            0 <= i < j < store.written(ids).len() ==> ids[#[trigger] store.written(ids)[i]]
                != ids[#[trigger] store.written(ids)[j]],
    decreases ids.len(),
{
    if ids.len() > 0 {
        let front = ids.drop_last();
        lemma_written_new(store, front);
        lemma_after_all_knows(store, front);
        let w = store.written(ids);
        let v = store.written(front);
        assert forall|i: int| 0 <= i < w.len() implies 0 <= #[trigger] w[i] < ids.len()
            && !store.knows(ids[w[i]]) by {
            if i < v.len() {
                assert(w[i] == v[i]);
                assert(front[v[i]] == ids[v[i]]);
            }
        }
        assert forall|i: int, j: int| 0 <= i < j < w.len() implies ids[#[trigger] w[i]]
            != ids[#[trigger] w[j]] by {
            assert(w[i] == v[i]);
            assert(front[v[i]] == ids[v[i]]);
            if j < v.len() {
                assert(w[j] == v[j]);
                assert(front[v[j]] == ids[v[j]]);
            } else {
                assert(store.after_all(front).knows(front[v[i]]));
            }
        }
    }
}

/// A time that SQLite accepts stays as it is, and every other is brought into range.
pub proof fn law_times_in_range_stay(t: i64)
    ensures
        -62_167_219_200 <= t <= 253_402_300_799 ==> sqlite_seconds(t) == t,
        t < -62_167_219_200 ==> sqlite_seconds(t) == -62_167_219_200,
        t > 253_402_300_799 ==> sqlite_seconds(t) == 253_402_300_799,
{
}

/// A count that fits is billed as it is; one below zero is not billed.
pub proof fn law_counts_that_fit_stay(n: i64)
    ensures
        0 <= n <= u32::MAX ==> clamped_u32(n) == n,
        n < 0 ==> clamped_u32(n) == 0,
        n > u32::MAX ==> clamped_u32(n) == u32::MAX,
{
}

/// What becomes of a record: the ledger and the log of proxied requests keep it
/// from being written, and a row in the request log keeps it from counting as
/// imported; either way the ledger knows it afterwards.
pub proof fn law_known_records_are_left_alone(store: StoreModel, id: Seq<char>)
    ensures
        store.seen.contains(id) || store.proxied.contains(id) ==> store.admission(id)
            == Admission::Known && store.after(id) == store,
        !store.seen.contains(id) && !store.proxied.contains(id) ==> {
            &&& store.logged.contains(id) ==> store.admission(id) == Admission::LedgerOnly
            &&& !store.logged.contains(id) ==> store.admission(id) == Admission::Imported
            &&& store.after(id).seen == store.seen.insert(id)
            &&& store.after(id).logged == store.logged.insert(id)
            &&& store.after(id).proxied == store.proxied
        },
{
}

/// A count that fits thirty-two bits is shown as it is, and a larger one as the
/// largest.
pub proof fn law_counts_stop_at_the_largest(n: nat)
    ensures
        n <= u32::MAX ==> saturated(n as int) == n,
        n > u32::MAX ==> saturated(n as int) == u32::MAX,
{
}

/// Every record that is offered is imported or skipped.
pub proof fn law_imported_or_skipped(
    out: ImportOutcome,
    source: ImportSource,
    store: StoreModel,
    records: Seq<RecordModel>,
    skipped: int,
)
    requires
        is_import_of(out, source, store, records, skipped),
        0 <= skipped,
        skipped + records.len() <= u32::MAX,
    ensures
        out.imported + out.skipped == skipped + records.len(),
{
    lemma_imported_bound(store, record_ids(records));
}

/// A record counts as imported where neither the ledger, nor the log of proxied
/// requests, nor the request log has its id, and no record before it.
pub proof fn law_new_record_is_counted(store: StoreModel, ids: Seq<Seq<char>>, id: Seq<char>)
    ensures
        !store.seen.contains(id) && !store.proxied.contains(id) && !store.logged.contains(id)
            && !ids.contains(id) ==> store.imported_count(ids.push(id)) == store.imported_count(
            ids,
        ) + 1,
        store.seen.contains(id) || store.proxied.contains(id) || store.logged.contains(id)
            || ids.contains(id) ==> store.imported_count(ids.push(id)) == store.imported_count(
            ids,
        ),
        store.imported_count(seq![]) == 0,
{
    assert(ids.push(id).drop_last() == ids);
    assert(ids.push(id).last() == id);
    if !ids.contains(id) {
        assert forall|j: int| 0 <= j < ids.len() implies #[trigger] ids[j] != id by {
            assert(ids.contains(ids[j]));
        }
        lemma_unoffered_stays(store, ids, id);
    } else {
        lemma_after_all_knows(store, ids);
    }
    if store.knows(id) {
        lemma_known_stays(store, ids, id);
    }
    if store.logged.contains(id) {
        lemma_logged_stays(store, ids, id);
    }
}

proof fn lemma_logged_stays(store: StoreModel, ids: Seq<Seq<char>>, id: Seq<char>)
    requires
        store.logged.contains(id),
    ensures
        store.after_all(ids).logged.contains(id),
    decreases ids.len(),
{
    if ids.len() > 0 {
        lemma_logged_stays(store, ids.drop_last(), id);
    }
}

/// A row says where it comes from: the program, its ledger and its placeholder, and
/// that it is no request of the proxy. Only rows of Antigravity are streamed.
pub proof fn law_row_says_where_it_comes_from(
    row: LogRow,
    source: ImportSource,
    record: RecordModel,
)
    requires
        is_row_of(row, source, record),
    ensures
        row.app_type@ == (match source {
            ImportSource::Antigravity => "gemini"@,
            ImportSource::CodeBuddy => "codebuddy"@,
            ImportSource::WorkBuddy => "workbuddy"@,
            ImportSource::Qoder => "qoder"@,
            ImportSource::QoderCn => "qodercn"@,
        }),
        row.data_source@ == (match source {
            ImportSource::Antigravity => "antigravity_session"@,
            ImportSource::CodeBuddy => "codebuddy_session"@,
            ImportSource::WorkBuddy => "workbuddy_session"@,
            ImportSource::Qoder => "qoder_session"@,
            ImportSource::QoderCn => "qodercn_session"@,
        }),
        row.provider_id@ == (match source {
            ImportSource::Antigravity => "_antigravity_session"@,
            ImportSource::CodeBuddy => "_codebuddy_session"@,
            ImportSource::WorkBuddy => "_workbuddy_session"@,
            ImportSource::Qoder => "_qoder_session"@,
            ImportSource::QoderCn => "_qodercn_session"@,
        }),
        row.provider_type@ == row.data_source@,
        row.request_model@ == row.model@,
        row.status_code == 200,
        row.error_message is None,
        row.latency_ms == 0,
        row.first_token_ms is None,
        row.cost_multiplier@ == "1.0"@,
        row.is_streaming <==> source == ImportSource::Antigravity,
{
}

/// A result shows what its files add up to, and what two syncs add up to is what
/// each of them gave.
pub proof fn law_result_shows_its_totals(r: SessionSyncResult, a: SyncTotals, b: SyncTotals)
    requires
        shows_totals(r, sum_totals(a, b)),
    ensures
        a.imported + b.imported <= u32::MAX ==> r.imported == a.imported + b.imported,
        a.skipped + b.skipped <= u32::MAX ==> r.skipped == a.skipped + b.skipped,
        a.files_scanned + b.files_scanned <= u32::MAX ==> r.files_scanned == a.files_scanned
            + b.files_scanned,
        a.suspected_duplicates + b.suspected_duplicates <= u32::MAX ==> r.suspected_duplicates
            == a.suspected_duplicates + b.suspected_duplicates,
        a.deferred_files + b.deferred_files <= u32::MAX ==> r.deferred_files == a.deferred_files
            + b.deferred_files,
        text::views(r.errors@) == a.errors + b.errors,
{
}

/// What is billed of a row is each of its own counts.
pub proof fn law_row_is_billed_for_its_own_counts(row: LogRow, r: BillableTokens)
    requires
        call_ensures(billable_tokens, (&row,), r),
    ensures
        0 <= row.input_tokens <= u32::MAX ==> r.input_tokens == row.input_tokens,
        0 <= row.output_tokens <= u32::MAX ==> r.output_tokens == row.output_tokens,
        0 <= row.cache_read_tokens <= u32::MAX ==> r.cache_read_tokens == row.cache_read_tokens,
        0 <= row.cache_creation_tokens <= u32::MAX ==> r.cache_creation_tokens
            == row.cache_creation_tokens,
        row.input_tokens < 0 ==> r.input_tokens == 0,
        row.output_tokens < 0 ==> r.output_tokens == 0,
        row.cache_read_tokens < 0 ==> r.cache_read_tokens == 0,
        row.cache_creation_tokens < 0 ==> r.cache_creation_tokens == 0,
{
}

/// A row whose model has a price costs what the price gives, and one without a
/// price costs nothing in any column.
pub proof fn law_row_without_a_price_costs_nothing(priced: Option<CostColumns>, r: CostColumns)
    requires
        call_ensures(cost_columns, (priced,), r),
    ensures
        priced is Some ==> priced == Some(r),
        priced is None ==> {
            &&& r.input_cost_usd@ == "0"@
            &&& r.output_cost_usd@ == "0"@
            &&& r.cache_read_cost_usd@ == "0"@
            &&& r.cache_creation_cost_usd@ == "0"@
            &&& r.total_cost_usd@ == "0"@
        },
{
}

} // verus!
