//! Usage of Antigravity (Gemini CLI) conversations.
//!
//! A conversation database holds protobuf blobs: `gen_metadata` rows with model
//! and token counts, `steps` rows with timestamps.

use crate::files;
use crate::files::{picked_paths, DirListing};
use crate::order;
use crate::text;
use crate::usage;
use crate::usage::{
    combine_outcomes, import_records, FileOutcome, ImportOutcome, ImportSource, SessionSyncResult,
    UsageRecord, UsageStore,
};
use crate::wire;
use crate::wire::{parse_wire_fields, WireError, WireField};
use vstd::hash_map::StringHashMap;
use vstd::hash_set::StringHashSet;
use vstd::prelude::*;
use vstd::string::*;

verus! {

// ---------------------------------------------------------------------------
// Token blocks
// ---------------------------------------------------------------------------

/// The token counts of one generation.
#[derive(Debug, Clone, Copy, PartialEq, Eq, Structural)]
pub struct AntigravityTokens {
    pub input: u32,
    pub output: u32,
    pub cached: u32,
    pub thoughts: u32,
}

impl Default for AntigravityTokens {
    fn default() -> (r: Self)
        ensures
            r == no_tokens(),
    {
        AntigravityTokens { input: 0, output: 0, cached: 0, thoughts: 0 }
    }
}

impl AntigravityTokens {
    /// Whether all counts are zero.
    pub fn is_empty(&self) -> (r: bool)
        ensures
            r == (*self == no_tokens()),
    {
        self.input == 0 && self.output == 0 && self.cached == 0 && self.thoughts == 0
    }
}

/// No tokens at all.
pub open spec fn no_tokens() -> AntigravityTokens {
    AntigravityTokens { input: 0, output: 0, cached: 0, thoughts: 0 }
}

/// The low thirty-two bits of `v`.
pub open spec fn low32(v: u64) -> u32 {
    (v as int % 0x1_0000_0000) as u32
}

fn low32_of(v: u64) -> (r: u32)
    ensures
        r == low32(v),
{
    (v % 0x1_0000_0000) as u32
}

/// `n` modulo two to the thirty-second.
pub open spec fn low32_signed(n: i64) -> u32 {
    (n as int % 0x1_0000_0000) as u32
}

fn low32_signed_of(n: i64) -> (r: u32)
    ensures
        r == low32_signed(n),
{
    let shifted: u128 = (n as i128 + 0x1_0000_0000_0000_0000) as u128;
    (shifted % 0x1_0000_0000) as u32
}

/// The counts that the fields of a token block give: tag 2 is input, 3 output,
/// 5 cached, 6 thoughts; of two fields with one tag the later one counts.
pub open spec fn tokens_of(fields: Seq<wire::FieldModel>) -> AntigravityTokens {
    AntigravityTokens {
        input: low32(wire::last_varint(fields, 2)),
        output: low32(wire::last_varint(fields, 3)),
        cached: low32(wire::last_varint(fields, 5)),
        thoughts: low32(wire::last_varint(fields, 6)),
    }
}

/// What a token block holds.
pub open spec fn token_block(buf: Seq<u8>) -> Result<AntigravityTokens, WireError> {
    match wire::wire_fields(buf) {
        Ok(fields) => Ok(tokens_of(fields)),
        Err(e) => Err(e),
    }
}

/// Reads a token block.
pub fn parse_token_block(buf: &[u8]) -> (r: Result<AntigravityTokens, WireError>)
    ensures
        r == token_block(buf@),
{
    let fields = match parse_wire_fields(buf) {
        Ok(fields) => fields,
        Err(e) => {
            return Err(e);
        },
    };
    let ghost models = wire::field_models(fields@);
    let mut tokens = AntigravityTokens::default();
    let mut i: usize = 0;
    assert(models.take(0) == Seq::<wire::FieldModel>::empty());
    while i < fields.len()
        invariant
            models == wire::field_models(fields@),
            i <= fields@.len(),
            tokens == tokens_of(models.take(i as int)),
        decreases fields@.len() - i,
    {
        let f = &fields[i];
        proof {
            let next = models.take(i + 1);
            assert(next.drop_last() == models.take(i as int));
            assert(next.last() == f@);
        }
        if f.wire_type == 0 {
            match f.tag {
                2 => {
                    tokens.input = low32_of(f.varint);
                },
                3 => {
                    tokens.output = low32_of(f.varint);
                },
                5 => {
                    tokens.cached = low32_of(f.varint);
                },
                6 => {
                    tokens.thoughts = low32_of(f.varint);
                },
                _ => {},
            }
        }
        i = i + 1;
    }
    assert(models.take(fields@.len() as int) == models);
    Ok(tokens)
}

// ---------------------------------------------------------------------------
// Generations
// ---------------------------------------------------------------------------

/// What a `gen_metadata` row holds.
#[derive(Debug, Clone, PartialEq, Eq)]
pub struct ParsedGenMetadata {
    pub uuid: String,
    pub model: String,
    pub tokens: AntigravityTokens,
}

/// What a generation holds.
#[verifier::ext_equal]
pub ghost struct GenModel {
    pub uuid: Seq<char>,
    pub model: Seq<char>,
    pub tokens: AntigravityTokens,
}

impl View for ParsedGenMetadata {
    type V = GenModel;

    open spec fn view(&self) -> GenModel {
        GenModel { uuid: self.uuid@, model: self.model@, tokens: self.tokens }
    }
}

/// A generation of which nothing is known.
pub open spec fn unknown_gen() -> GenModel {
    GenModel { uuid: ""@, model: "unknown"@, tokens: no_tokens() }
}

/// A generation after a field of its inner message: tag 19 is the model, tag 4
/// the token block.
pub open spec fn with_inner_field(gen: GenModel, f: wire::FieldModel) -> Result<
    GenModel,
    WireError,
> {
    if f.tag == 19 && f.wire_type == 2 {
        match text::utf8_value(f.data) {
            Some(model) => Ok(GenModel { model, ..gen }),
            None => Err(WireError::InvalidString),
        }
    } else if f.tag == 4 && f.wire_type == 2 {
        match token_block(f.data) {
            Ok(tokens) => Ok(GenModel { tokens, ..gen }),
            Err(e) => Err(e),
        }
    } else {
        Ok(gen)
    }
}

/// A generation after the fields of an inner message; the first error wins.
pub open spec fn with_inner_fields(gen: GenModel, fields: Seq<wire::FieldModel>) -> Result<
    GenModel,
    WireError,
>
    decreases fields.len(),
{
    if fields.len() == 0 {
        Ok(gen)
    } else {
        match with_inner_fields(gen, fields.drop_last()) {
            Ok(g) => with_inner_field(g, fields.last()),
            Err(e) => Err(e),
        }
    }
}

/// A generation after a field of its message: tag 4 is the uuid, tag 1 the
/// inner message.
pub open spec fn with_outer_field(gen: GenModel, f: wire::FieldModel) -> Result<
    GenModel,
    WireError,
> {
    if f.tag == 4 && f.wire_type == 2 {
        match text::utf8_value(f.data) {
            Some(uuid) => Ok(GenModel { uuid, ..gen }),
            None => Err(WireError::InvalidString),
        }
    } else if f.tag == 1 && f.wire_type == 2 {
        match wire::wire_fields(f.data) {
            Ok(inner) => with_inner_fields(gen, inner),
            Err(e) => Err(e),
        }
    } else {
        Ok(gen)
    }
}

/// A generation after the fields of its message; the first error wins.
pub open spec fn with_outer_fields(gen: GenModel, fields: Seq<wire::FieldModel>) -> Result<
    GenModel,
    WireError,
>
    decreases fields.len(),
{
    if fields.len() == 0 {
        Ok(gen)
    } else {
        match with_outer_fields(gen, fields.drop_last()) {
            Ok(g) => with_outer_field(g, fields.last()),
            Err(e) => Err(e),
        }
    }
}

/// What a `gen_metadata` blob holds.
pub open spec fn gen_metadata(buf: Seq<u8>) -> Result<GenModel, WireError> {
    match wire::wire_fields(buf) {
        Ok(fields) => with_outer_fields(unknown_gen(), fields),
        Err(e) => Err(e),
    }
}

/// The view of a parse result.
pub open spec fn gen_result(r: Result<ParsedGenMetadata, WireError>) -> Result<
    GenModel,
    WireError,
> {
    match r {
        Ok(g) => Ok(g@),
        Err(e) => Err(e),
    }
}

proof fn lemma_inner_error(gen: GenModel, fields: Seq<wire::FieldModel>, k: int)
    requires
        0 <= k <= fields.len(),
        with_inner_fields(gen, fields.take(k)) is Err,
    ensures
        with_inner_fields(gen, fields) == with_inner_fields(gen, fields.take(k)),
    decreases fields.len() - k,
{
    if k == fields.len() {
        assert(fields.take(k) == fields);
    } else {
        assert(fields.take(k + 1).drop_last() == fields.take(k));
        lemma_inner_error(gen, fields, k + 1);
    }
}

proof fn lemma_outer_error(gen: GenModel, fields: Seq<wire::FieldModel>, k: int)
    requires
        0 <= k <= fields.len(),
        with_outer_fields(gen, fields.take(k)) is Err,
    ensures
        with_outer_fields(gen, fields) == with_outer_fields(gen, fields.take(k)),
    decreases fields.len() - k,
{
    if k == fields.len() {
        assert(fields.take(k) == fields);
    } else {
        assert(fields.take(k + 1).drop_last() == fields.take(k));
        lemma_outer_error(gen, fields, k + 1);
    }
}

/// Takes one field of the inner message.
fn apply_inner_field(gen: ParsedGenMetadata, f: &WireField) -> (r: Result<
    ParsedGenMetadata,
    WireError,
>)
    ensures
        gen_result(r) == with_inner_field(gen@, f@),
{
    if f.tag == 19 && f.wire_type == 2 {
        match text::utf8_text(f.data) {
            Some(model) => Ok(
                ParsedGenMetadata { uuid: gen.uuid, model: model.to_owned(), tokens: gen.tokens },
            ),
            None => Err(WireError::InvalidString),
        }
    } else if f.tag == 4 && f.wire_type == 2 {
        match parse_token_block(f.data) {
            Ok(tokens) => Ok(ParsedGenMetadata { uuid: gen.uuid, model: gen.model, tokens }),
            Err(e) => Err(e),
        }
    } else {
        Ok(gen)
    }
}

/// Takes the fields of the inner message one after the other.
fn apply_inner_fields(start: ParsedGenMetadata, fields: &Vec<WireField>) -> (r: Result<
    ParsedGenMetadata,
    WireError,
>)
    ensures
        gen_result(r) == with_inner_fields(start@, wire::field_models(fields@)),
{
    let ghost first = start@;
    let ghost models = wire::field_models(fields@);
    let mut gen = start;
    let mut i: usize = 0;
    assert(models.take(0) == Seq::<wire::FieldModel>::empty());
    while i < fields.len()
        invariant
            first == start@,
            models == wire::field_models(fields@),
            i <= fields@.len(),
            with_inner_fields(first, models.take(i as int)) == Ok::<GenModel, WireError>(gen@),
        decreases fields@.len() - i,
    {
        let f = &fields[i];
        proof {
            assert(models.take(i + 1).drop_last() == models.take(i as int));
            assert(models.take(i + 1).last() == f@);
            if with_inner_fields(first, models.take(i + 1)) is Err {
                lemma_inner_error(first, models, i + 1);
            }
        }
        match apply_inner_field(gen, f) {
            Ok(g) => {
                gen = g;
            },
            Err(e) => {
                return Err(e);
            },
        }
        i = i + 1;
    }
    assert(models.take(fields@.len() as int) == models);
    Ok(gen)
}

/// Reads the inner message of a generation.
fn read_inner(gen: ParsedGenMetadata, data: &[u8]) -> (r: Result<ParsedGenMetadata, WireError>)
    ensures
        gen_result(r) == (match wire::wire_fields(data@) {
            Ok(inner) => with_inner_fields(gen@, inner),
            Err(e) => Err(e),
        }),
{
    match parse_wire_fields(data) {
        Ok(fields) => apply_inner_fields(gen, &fields),
        Err(e) => Err(e),
    }
}

/// Reads a `gen_metadata` blob.
pub fn parse_gen_metadata(buf: &[u8]) -> (r: Result<ParsedGenMetadata, WireError>)
    ensures
        gen_result(r) == gen_metadata(buf@),
{
    let fields = match parse_wire_fields(buf) {
        Ok(fields) => fields,
        Err(e) => {
            return Err(e);
        },
    };
    let ghost models = wire::field_models(fields@);
    let mut gen = ParsedGenMetadata {
        uuid: "".to_owned(),
        model: "unknown".to_owned(),
        tokens: AntigravityTokens::default(),
    };
    let mut i: usize = 0;
    assert(models.take(0) == Seq::<wire::FieldModel>::empty());
    while i < fields.len()
        invariant
            models == wire::field_models(fields@),
            wire::wire_fields(buf@) == Ok::<Seq<wire::FieldModel>, WireError>(models),
            i <= fields@.len(),
            with_outer_fields(unknown_gen(), models.take(i as int)) == Ok::<GenModel, WireError>(
                gen@,
            ),
        decreases fields@.len() - i,
    {
        let f = &fields[i];
        proof {
            assert(models.take(i + 1).drop_last() == models.take(i as int));
            assert(models.take(i + 1).last() == f@);
            if with_outer_fields(unknown_gen(), models.take(i + 1)) is Err {
                lemma_outer_error(unknown_gen(), models, i + 1);
            }
        }
        if f.tag == 4 && f.wire_type == 2 {
            match text::utf8_text(f.data) {
                Some(uuid) => {
                    gen.uuid = uuid.to_owned();
                },
                None => {
                    return Err(WireError::InvalidString);
                },
            }
        } else if f.tag == 1 && f.wire_type == 2 {
            match read_inner(gen, f.data) {
                Ok(g) => {
                    gen = g;
                },
                Err(e) => {
                    return Err(e);
                },
            }
        }
        i = i + 1;
    }
    assert(models.take(fields@.len() as int) == models);
    Ok(gen)
}

// ---------------------------------------------------------------------------
// Steps
// ---------------------------------------------------------------------------

/// The number that the sixty-four bits of `v` denote in two's complement.
pub open spec fn signed64(v: u64) -> i64 {
    if v <= i64::MAX {
        v as i64
    } else {
        (v - 0x1_0000_0000_0000_0000) as i64
    }
}

/// The number that the sixty-four bits of `v` denote in two's complement.
pub fn signed64_of(v: u64) -> (r: i64)
    ensures
        r == signed64(v),
{
    if v <= i64::MAX as u64 {
        v as i64
    } else {
        (v as i128 - 0x1_0000_0000_0000_0000) as i64
    }
}

/// The text of a field with tag 12.
pub open spec fn step_uuid() -> spec_fn(wire::FieldModel) -> Option<Seq<char>> {
    |f: wire::FieldModel|
        if f.tag == 12 && f.wire_type == 2 {
            text::utf8_value(f.data)
        } else {
            None
        }
}

/// The seconds in a field with tag 1: its last varint field with tag 1.
pub open spec fn step_seconds() -> spec_fn(wire::FieldModel) -> Option<i64> {
    |f: wire::FieldModel|
        if f.tag == 1 && f.wire_type == 2 {
            match wire::wire_fields(f.data) {
                Ok(inner) => match wire::last_pick(inner, wire::varint_of(1)) {
                    Some(v) => Some(signed64(v)),
                    None => None,
                },
                Err(_) => None,
            }
        } else {
            None
        }
}

/// What the metadata of a step holds: the last uuid and the last seconds, where
/// both are there.
pub open spec fn step_metadata(buf: Seq<u8>) -> Result<Option<(Seq<char>, i64)>, WireError> {
    match wire::wire_fields(buf) {
        Ok(fields) => match (
            wire::last_pick(fields, step_uuid()),
            wire::last_pick(fields, step_seconds()),
        ) {
            (Some(uuid), Some(seconds)) => Ok(Some((uuid, seconds))),
            _ => Ok(None),
        },
        Err(e) => Err(e),
    }
}

/// The view of what the metadata of a step holds.
pub open spec fn step_result(r: Result<Option<(String, i64)>, WireError>) -> Result<
    Option<(Seq<char>, i64)>,
    WireError,
> {
    match r {
        Ok(Some((uuid, seconds))) => Ok(Some((uuid@, seconds))),
        Ok(None) => Ok(None),
        Err(e) => Err(e),
    }
}

/// The value of the last varint field with the tag.
pub fn last_varint_of(fields: &Vec<WireField>, tag: u32) -> (r: Option<u64>)
    ensures
        r == wire::last_pick(wire::field_models(fields@), wire::varint_of(tag)),
{
    let ghost models = wire::field_models(fields@);
    let mut found: Option<u64> = None;
    let mut i: usize = 0;
    assert(models.take(0) == Seq::<wire::FieldModel>::empty());
    while i < fields.len()
        invariant
            models == wire::field_models(fields@),
            i <= fields@.len(),
            found == wire::last_pick(models.take(i as int), wire::varint_of(tag)),
        decreases fields@.len() - i,
    {
        assert(models.take(i + 1).drop_last() == models.take(i as int));
        assert(models.take(i + 1).last() == fields@[i as int]@);
        if fields[i].tag == tag && fields[i].wire_type == 0 {
            found = Some(fields[i].varint);
        }
        i = i + 1;
    }
    assert(models.take(fields@.len() as int) == models);
    found
}

/// Reads the metadata of a step.
pub fn parse_step_metadata(buf: &[u8]) -> (r: Result<Option<(String, i64)>, WireError>)
    ensures
        step_result(r) == step_metadata(buf@),
{
    let fields = match parse_wire_fields(buf) {
        Ok(fields) => fields,
        Err(e) => {
            return Err(e);
        },
    };
    let ghost models = wire::field_models(fields@);
    let mut uuid: Option<String> = None;
    let mut seconds: Option<i64> = None;
    let mut i: usize = 0;
    assert(models.take(0) == Seq::<wire::FieldModel>::empty());
    while i < fields.len()
        invariant
            models == wire::field_models(fields@),
            i <= fields@.len(),
            match uuid {
                Some(u) => wire::last_pick(models.take(i as int), step_uuid()) == Some(u@),
                None => wire::last_pick(models.take(i as int), step_uuid()) is None,
            },
            seconds == wire::last_pick(models.take(i as int), step_seconds()),
        decreases fields@.len() - i,
    {
        let f = &fields[i];
        assert(models.take(i + 1).drop_last() == models.take(i as int));
        assert(models.take(i + 1).last() == f@);
        if f.tag == 12 && f.wire_type == 2 {
            if let Some(s) = text::utf8_text(f.data) {
                uuid = Some(s.to_owned());
            }
        } else if f.tag == 1 && f.wire_type == 2 {
            if let Ok(inner) = parse_wire_fields(f.data) {
                if let Some(v) = last_varint_of(&inner, 1) {
                    seconds = Some(signed64_of(v));
                }
            }
        }
        i = i + 1;
    }
    assert(models.take(fields@.len() as int) == models);
    match (uuid, seconds) {
        (Some(u), Some(t)) => Ok(Some((u, t))),
        _ => Ok(None),
    }
}

// ---------------------------------------------------------------------------
// Importing a conversation
// ---------------------------------------------------------------------------

/// How far a file was imported.
#[derive(Debug, Clone, Copy, PartialEq, Eq, Structural)]
pub struct SyncCursor {
    pub last_modified: i64,
    pub last_line_offset: i64,
}

/// A row of the `gen_metadata` table.
#[derive(Debug)]
pub enum GenRow {
    Unreadable,
    Row { idx: i64, data: Vec<u8> },
}

/// What is read from a conversation database.
#[derive(Debug)]
pub struct ConversationDb {
    /// Whether the database has a `gen_metadata` table.
    pub has_gen_metadata: bool,
    /// The first non-empty cascade id, where the database has one.
    pub cascade_id: Option<String>,
    /// The file name without its extension.
    pub file_stem: Option<String>,
    /// The metadata blobs of the steps.
    pub steps: Vec<Vec<u8>>,
    /// The `gen_metadata` rows before the cursor.
    pub earlier: Vec<GenRow>,
    /// The `gen_metadata` rows from the cursor on, by ascending index.
    pub generations: Vec<GenRow>,
    /// When the file was last modified, in Unix seconds.
    pub modified_seconds: i64,
}

/// The offset that a cursor stands at.
pub open spec fn cursor_offset(cursor: Option<SyncCursor>) -> i64 {
    match cursor {
        Some(c) => c.last_line_offset,
        None => 0,
    }
}

/// Whether the file was not modified since the cursor was set.
pub open spec fn is_unchanged(modified: i64, cursor: Option<SyncCursor>) -> bool {
    match cursor {
        Some(c) => modified <= c.last_modified,
        None => modified <= 0,
    }
}

/// Whether the file was not modified since the cursor was set.
pub fn conversation_unchanged(modified: i64, cursor: Option<SyncCursor>) -> (r: bool)
    ensures
        r == is_unchanged(modified, cursor),
{
    match cursor {
        Some(c) => modified <= c.last_modified,
        None => modified <= 0,
    }
}

impl ConversationDb {
    /// The id of the conversation: the cascade id, else the file stem, else
    /// `unknown`.
    pub open spec fn conversation(self) -> Seq<char> {
        match (self.cascade_id, self.file_stem) {
            (Some(id), _) => id@,
            (None, Some(stem)) => stem@,
            (None, None) => "unknown"@,
        }
    }

    /// The id of the conversation.
    pub fn conversation_id(&self) -> (r: String)
        ensures
            r@ == self.conversation(),
    {
        match (&self.cascade_id, &self.file_stem) {
            (Some(id), _) => id.clone(),
            (None, Some(stem)) => stem.clone(),
            (None, None) => "unknown".to_owned(),
        }
    }
}

/// The seconds of the last step with the uuid.
pub open spec fn step_time(steps: Seq<Vec<u8>>, uuid: Seq<char>) -> Option<i64>
    decreases steps.len(),
{
    if steps.len() == 0 {
        None
    } else {
        match step_metadata(steps.last()@) {
            Ok(Some((u, seconds))) if u == uuid => Some(seconds),
            _ => step_time(steps.drop_last(), uuid),
        }
    }
}

fn index_steps(steps: &Vec<Vec<u8>>) -> (r: StringHashMap<i64>)
    ensures
        forall|uuid: Seq<char>|
            #![trigger r@.contains_key(uuid)]
            step_time(steps@, uuid) == (if r@.contains_key(uuid) {
                Some(r@[uuid])
            } else {
                None
            }),
{
    let mut times: StringHashMap<i64> = StringHashMap::new();
    let mut i: usize = 0;
    assert(steps@.take(0) == Seq::<Vec<u8>>::empty());
    while i < steps.len()
        invariant
            i <= steps@.len(),
            forall|uuid: Seq<char>|
                #![trigger times@.contains_key(uuid)]
                step_time(steps@.take(i as int), uuid) == (if times@.contains_key(uuid) {
                    Some(times@[uuid])
                } else {
                    None
                }),
        decreases steps@.len() - i,
    {
        assert(steps@.take(i + 1).drop_last() == steps@.take(i as int));
        assert(steps@.take(i + 1).last() == steps@[i as int]);
        let ghost before = times@;
        match parse_step_metadata(steps[i].as_slice()) {
            Ok(Some((uuid, seconds))) => {
                let ghost key = uuid@;
                times.insert(uuid, seconds);
                assert forall|u: Seq<char>|
                    #![trigger times@.contains_key(u)]
                    step_time(steps@.take(i + 1), u) == (if times@.contains_key(u) {
                        Some(times@[u])
                    } else {
                        None
                    }) by {
                    assert(step_time(steps@.take(i as int), u) == (if before.contains_key(u) {
                        Some(before[u])
                    } else {
                        None
                    }));
                }
            },
            _ => {
                assert forall|u: Seq<char>|
                    #![trigger times@.contains_key(u)]
                    step_time(steps@.take(i + 1), u) == (if times@.contains_key(u) {
                        Some(times@[u])
                    } else {
                        None
                    }) by {
                    assert(step_time(steps@.take(i as int), u) == (if before.contains_key(u) {
                        Some(before[u])
                    } else {
                        None
                    }));
                }
            },
        }
        i = i + 1;
    }
    assert(steps@.take(steps@.len() as int) == steps@);
    times
}

/// The records that the rows of a conversation give, the number of rows that
/// give none because they cannot be read, the uuids that rows have had so far,
/// and the offset after the rows.
#[verifier::ext_equal]
pub ghost struct PlanModel {
    pub records: Seq<usage::RecordModel>,
    pub skipped: nat,
    pub seen: Set<Seq<char>>,
    pub next_offset: i64,
}

/// The uuid of a generation; one without uuid is named after its row.
pub open spec fn gen_uuid(gen: GenModel, idx: i64) -> Seq<char> {
    if gen.uuid.len() == 0 {
        "gen-"@ + text::decimal_int(idx as int)
    } else {
        gen.uuid
    }
}

/// The request id of a generation. The first generation of a uuid has the plain
/// id, each further one also its row.
pub open spec fn gen_request_id(
    conversation: Seq<char>,
    uuid: Seq<char>,
    idx: i64,
    first: bool,
) -> Seq<char> {
    if first {
        "antigravity:"@ + conversation + ":"@ + uuid
    } else {
        "antigravity:"@ + conversation + ":"@ + uuid + ":"@ + text::decimal_int(idx as int)
    }
}

/// The sum of two counts, at most the largest `u32`.
pub open spec fn capped_sum(a: u32, b: u32) -> u32 {
    if a + b > u32::MAX {
        u32::MAX
    } else {
        (a + b) as u32
    }
}

/// The record of a generation. Thoughts count as output.
pub open spec fn gen_record(
    conversation: Seq<char>,
    gen: GenModel,
    idx: i64,
    first: bool,
    created_at: i64,
) -> usage::RecordModel {
    usage::RecordModel {
        request_id: gen_request_id(conversation, gen_uuid(gen, idx), idx, first),
        model: gen.model,
        input_tokens: gen.tokens.input as i64,
        output_tokens: capped_sum(gen.tokens.output, gen.tokens.thoughts) as i64,
        cache_read_tokens: gen.tokens.cached as i64,
        cache_creation_tokens: 0,
        session_id: conversation,
        created_at,
    }
}

/// The offset after a row.
pub open spec fn offset_after(next: i64, idx: i64) -> i64 {
    if idx >= next {
        if idx == i64::MAX {
            i64::MAX
        } else {
            (idx + 1) as i64
        }
    } else {
        next
    }
}

/// A plan after one more row. A row that cannot be read is skipped, one without
/// tokens is passed over.
pub open spec fn plan_row(
    plan: PlanModel,
    conversation: Seq<char>,
    steps: Seq<Vec<u8>>,
    modified_seconds: i64,
    row: GenRow,
) -> PlanModel {
    match row {
        GenRow::Unreadable => PlanModel { skipped: plan.skipped + 1, ..plan },
        GenRow::Row { idx, data } => {
            let moved = PlanModel { next_offset: offset_after(plan.next_offset, idx), ..plan };
            match gen_metadata(data@) {
                Err(_) => PlanModel { skipped: plan.skipped + 1, ..moved },
                Ok(gen) => if gen.tokens == no_tokens() {
                    moved
                } else {
                    let uuid = gen_uuid(gen, idx);
                    let created_at = match step_time(steps, uuid) {
                        Some(t) => t,
                        None => modified_seconds,
                    };
                    PlanModel {
                        records: plan.records.push(
                            gen_record(
                                conversation,
                                gen,
                                idx,
                                !plan.seen.contains(uuid),
                                created_at,
                            ),
                        ),
                        seen: plan.seen.insert(uuid),
                        ..moved
                    }
                },
            }
        },
    }
}

/// The generation of a row, where it has one with tokens.
pub open spec fn counted_gen(row: GenRow) -> Option<(GenModel, i64)> {
    match row {
        GenRow::Row { idx, data } => match gen_metadata(data@) {
            Ok(gen) => if gen.tokens == no_tokens() {
                None
            } else {
                Some((gen, idx))
            },
            Err(_) => None,
        },
        GenRow::Unreadable => None,
    }
}

/// The uuid of a row with tokens.
pub open spec fn counted_uuid(row: GenRow) -> Seq<char>
    recommends
        counted_gen(row) is Some,
{
    gen_uuid((counted_gen(row)->0).0, (counted_gen(row)->0).1)
}

/// The uuids of the rows with tokens.
pub open spec fn row_uuids(rows: Seq<GenRow>) -> Set<Seq<char>>
    decreases rows.len(),
{
    if rows.len() == 0 {
        Set::empty()
    } else if counted_gen(rows.last()) is Some {
        row_uuids(rows.drop_last()).insert(counted_uuid(rows.last()))
    } else {
        row_uuids(rows.drop_last())
    }
}

/// The plan of a list of rows, read from the offset on, where earlier rows have
/// the uuids `known`.
pub open spec fn plan_rows(
    conversation: Seq<char>,
    steps: Seq<Vec<u8>>,
    modified_seconds: i64,
    offset: i64,
    known: Set<Seq<char>>,
    rows: Seq<GenRow>,
) -> PlanModel
    decreases rows.len(),
{
    if rows.len() == 0 {
        PlanModel { records: seq![], skipped: 0, seen: known, next_offset: offset }
    } else {
        plan_row(
            plan_rows(conversation, steps, modified_seconds, offset, known, rows.drop_last()),
            conversation,
            steps,
            modified_seconds,
            rows.last(),
        )
    }
}

impl ConversationDb {
    /// The plan of importing the conversation from the offset on.
    pub open spec fn plan(self, offset: i64) -> PlanModel {
        plan_rows(
            self.conversation(),
            self.steps@,
            self.modified_seconds,
            offset,
            row_uuids(self.earlier@),
            self.generations@,
        )
    }
}

/// The records of a conversation, before the ledger is asked.
#[derive(Debug)]
pub struct AntigravityPlan {
    pub records: Vec<UsageRecord>,
    pub skipped: u32,
    pub next_offset: i64,
}

/// Whether `p` is the plan that the model describes.
pub open spec fn is_plan(p: AntigravityPlan, m: PlanModel) -> bool {
    &&& usage::record_models(p.records@) == m.records
    &&& p.skipped == usage::saturated(m.skipped as int)
    &&& p.next_offset == m.next_offset
}

fn make_gen_record(
    conversation: &String,
    gen: &ParsedGenMetadata,
    uuid: &str,
    idx: i64,
    first: bool,
    created_at: i64,
) -> (r: UsageRecord)
    requires
        uuid@ == gen_uuid(gen@, idx),
    ensures
        r@ == gen_record(conversation@, gen@, idx, first, created_at),
{
    let mut request_id = String::from_str("antigravity:");
    request_id.append(conversation.as_str());
    request_id.append(":");
    request_id.append(uuid);
    if !first {
        request_id.append(":");
        request_id.append(text::decimal_int_of(idx).as_str());
    }
    UsageRecord {
        request_id,
        model: gen.model.clone(),
        input_tokens: gen.tokens.input as i64,
        output_tokens: gen.tokens.output.saturating_add(gen.tokens.thoughts) as i64,
        cache_read_tokens: gen.tokens.cached as i64,
        cache_creation_tokens: 0,
        session_id: conversation.clone(),
        created_at,
    }
}

fn gen_uuid_of(gen: &ParsedGenMetadata, idx: i64) -> (r: String)
    ensures
        r@ == gen_uuid(gen@, idx),
{
    if gen.uuid.as_str().is_empty() {
        let mut name = String::from_str("gen-");
        name.append(text::decimal_int_of(idx).as_str());
        name
    } else {
        gen.uuid.clone()
    }
}

fn known_uuids(rows: &Vec<GenRow>) -> (r: StringHashSet)
    ensures
        r@ == row_uuids(rows@),
{
    let mut known = StringHashSet::new();
    let mut i: usize = 0;
    assert(rows@.take(0) == Seq::<GenRow>::empty());
    while i < rows.len()
        invariant
            i <= rows@.len(),
            known@ == row_uuids(rows@.take(i as int)),
        decreases rows@.len() - i,
    {
        assert(rows@.take(i + 1).drop_last() == rows@.take(i as int));
        assert(rows@.take(i + 1).last() == rows@[i as int]);
        if let GenRow::Row { idx, data } = &rows[i] {
            if let Ok(gen) = parse_gen_metadata(data.as_slice()) {
                if !gen.tokens.is_empty() {
                    known.insert(gen_uuid_of(&gen, *idx));
                }
            }
        }
        i = i + 1;
    }
    assert(rows@.take(rows@.len() as int) == rows@);
    known
}

/// Works out what the rows of a conversation import.
pub fn plan_antigravity_import(db: &ConversationDb, offset: i64) -> (r: AntigravityPlan)
    ensures
        is_plan(r, db.plan(offset)),
{
    let conversation = db.conversation_id();
    let times = index_steps(&db.steps);
    let mut records: Vec<UsageRecord> = Vec::new();
    let mut skipped: u32 = 0;
    let mut next_offset: i64 = offset;
    let mut seen = known_uuids(&db.earlier);
    let mut i: usize = 0;
    let ghost rows = db.generations@;
    assert(rows.take(0) == Seq::<GenRow>::empty());
    assert(usage::record_models(records@) == Seq::<usage::RecordModel>::empty());
    while i < db.generations.len()
        invariant
            rows == db.generations@,
            conversation@ == db.conversation(),
            forall|uuid: Seq<char>|
                #![trigger times@.contains_key(uuid)]
                step_time(db.steps@, uuid) == (if times@.contains_key(uuid) {
                    Some(times@[uuid])
                } else {
                    None
                }),
            i <= rows.len(),
            ({
                let m = plan_rows(
                    db.conversation(),
                    db.steps@,
                    db.modified_seconds,
                    offset,
                    row_uuids(db.earlier@),
                    rows.take(i as int),
                );
                &&& usage::record_models(records@) == m.records
                &&& skipped == usage::saturated(m.skipped as int)
                &&& next_offset == m.next_offset
                &&& seen@ == m.seen
            }),
        decreases rows.len() - i,
    {
        proof {
            assert(rows.take(i + 1).drop_last() == rows.take(i as int));
            assert(rows.take(i + 1).last() == rows[i as int]);
        }
        let ghost before = records@;
        match &db.generations[i] {
            GenRow::Unreadable => {
                skipped = skipped.saturating_add(1);
            },
            GenRow::Row { idx, data } => {
                let idx: i64 = *idx;
                if idx >= next_offset {
                    next_offset = if idx == i64::MAX { i64::MAX } else { idx + 1 };
                }
                match parse_gen_metadata(data.as_slice()) {
                    Err(_) => {
                        skipped = skipped.saturating_add(1);
                    },
                    Ok(gen) => {
                        if !gen.tokens.is_empty() {
                            let uuid = gen_uuid_of(&gen, idx);
                            let created_at: i64 = match times.get(uuid.as_str()) {
                                Some(t) => *t,
                                None => db.modified_seconds,
                            };
                            let first = !seen.contains(uuid.as_str());
                            let record = make_gen_record(
                                &conversation,
                                &gen,
                                uuid.as_str(),
                                idx,
                                first,
                                created_at,
                            );
                            seen.insert(uuid);
                            records.push(record);
                            assert(usage::record_models(records@) == usage::record_models(
                                before,
                            ).push(record@));
                        }
                    },
                }
            },
        }
        i = i + 1;
    }
    assert(rows.take(rows.len() as int) == rows);
    AntigravityPlan { records, skipped, next_offset }
}

/// What importing one conversation did.
#[derive(Debug)]
pub struct AntigravitySync {
    pub outcome: ImportOutcome,
    /// The offset to set the cursor to, where it is set.
    pub next_offset: Option<i64>,
}

/// Whether `r` is what importing a conversation into a store gives.
pub open spec fn is_conversation_sync(
    r: AntigravitySync,
    store: usage::StoreModel,
    modified: i64,
    cursor: Option<SyncCursor>,
    db: ConversationDb,
) -> bool {
    if is_unchanged(modified, cursor) {
        &&& r.outcome.imported == 0
        &&& r.outcome.skipped == low32_signed(cursor_offset(cursor))
        &&& r.outcome.rows@.len() == 0
        &&& r.outcome.positions@.len() == 0
        &&& r.next_offset is None
    } else if !db.has_gen_metadata {
        &&& r.outcome.imported == 0
        &&& r.outcome.skipped == 0
        &&& r.outcome.rows@.len() == 0
        &&& r.outcome.positions@.len() == 0
        &&& r.next_offset == Some(0i64)
    } else {
        let plan = db.plan(cursor_offset(cursor));
        &&& usage::is_import_of(
            r.outcome,
            ImportSource::Antigravity,
            store,
            plan.records,
            usage::saturated(plan.skipped as int) as int,
        )
        &&& r.next_offset == Some(plan.next_offset)
    }
}

/// The store after importing a conversation.
pub open spec fn store_after_conversation(
    store: usage::StoreModel,
    modified: i64,
    cursor: Option<SyncCursor>,
    db: ConversationDb,
) -> usage::StoreModel {
    if is_unchanged(modified, cursor) || !db.has_gen_metadata {
        store
    } else {
        store.after_all(usage::record_ids(db.plan(cursor_offset(cursor)).records))
    }
}

/// Imports one conversation. One that was not modified since the cursor was set
/// counts the offset of the cursor as skipped, modulo two to the
/// thirty-second.
pub fn sync_single_antigravity_db(
    store: &mut UsageStore,
    modified: i64,
    cursor: Option<SyncCursor>,
    db: &ConversationDb,
) -> (r: AntigravitySync)
    ensures
        is_conversation_sync(r, old(store)@, modified, cursor, *db),
        final(store)@ == store_after_conversation(old(store)@, modified, cursor, *db),
{
    let offset: i64 = match cursor {
        Some(c) => c.last_line_offset,
        None => 0,
    };
    if conversation_unchanged(modified, cursor) {
        return AntigravitySync {
            outcome: ImportOutcome {
                rows: Vec::new(),
                positions: Vec::new(),
                imported: 0,
                skipped: low32_signed_of(offset),
            },
            next_offset: None,
        };
    }
    if !db.has_gen_metadata {
        return AntigravitySync {
            outcome: ImportOutcome {
                rows: Vec::new(),
                positions: Vec::new(),
                imported: 0,
                skipped: 0,
            },
            next_offset: Some(0),
        };
    }
    let plan = plan_antigravity_import(db, offset);
    let outcome = import_records(store, ImportSource::Antigravity, &plan.records, plan.skipped);
    AntigravitySync { outcome, next_offset: Some(plan.next_offset) }
}

/// The conversation databases in a list of directories, each once and in
/// ascending order: the files with the extension `db`. A directory that is
/// missing has none.
pub fn collect_antigravity_db_files(dirs: &Vec<DirListing>) -> (r: Vec<String>)
    ensures
        text::views(r@) == order::sorted(files::picked_texts(dirs@, "db"@)),
        order::is_ascending(text::views(r@)),
        text::views(r@).to_multiset() == files::picked_texts(dirs@, "db"@).to_multiset(),
{
    picked_paths(dirs, "db")
}

/// Adds up what syncing the conversation databases gave. A database that could
/// not be synced is reported and left for a later sync.
pub fn sync_antigravity_usage_from_dirs(outcomes: Vec<FileOutcome>) -> (r: SessionSyncResult)
    ensures
        usage::shows_totals(
            r,
            usage::totals(
                "Antigravity 会话数据库解析失败 "@,
                true,
                outcomes@,
                outcomes@.len(),
            ),
        ),
{
    combine_outcomes("Antigravity 会话数据库解析失败 ", true, outcomes)
}

/// Adds up what syncing the conversation databases of all clients gave.
pub fn sync_gemini_usage(outcomes: Vec<FileOutcome>) -> (r: SessionSyncResult)
    ensures
        usage::shows_totals(
            r,
            usage::totals(
                "Antigravity 会话数据库解析失败 "@,
                true,
                outcomes@,
                outcomes@.len(),
            ),
        ),
{
    sync_antigravity_usage_from_dirs(outcomes)
}

// ---------------------------------------------------------------------------
// Laws of the import
// ---------------------------------------------------------------------------

/// The index of a row with tokens.
pub open spec fn counted_idx(row: GenRow) -> i64
    recommends
        counted_gen(row) is Some,
{
    (counted_gen(row)->0).1
}

/// Whether an earlier row with tokens has the uuid of row `j`.
pub open spec fn is_repeat(rows: Seq<GenRow>, j: int) -> bool {
    exists|k: int|
        0 <= k < j && counted_gen(#[trigger] rows[k]) is Some && counted_uuid(rows[k])
            == counted_uuid(rows[j])
}

/// Whether row `j` has tokens and the uuid of an earlier row with tokens, so
/// that its index is part of its request id.
pub open spec fn is_numbered(rows: Seq<GenRow>, j: int) -> bool {
    0 <= j < rows.len() && counted_gen(rows[j]) is Some && is_repeat(rows, j)
}

/// The uuid of a numbered row followed by its index.
pub open spec fn numbered_uuid(row: GenRow) -> Seq<char> {
    counted_uuid(row) + seq![':'] + text::decimal_int(counted_idx(row) as int)
}

/// Whether numbered rows of one uuid have distinct indices, and no uuid reads
/// like that of a numbered row followed by its index.
pub open spec fn rows_are_told_apart(rows: Seq<GenRow>) -> bool {
    &&& forall|i: int, j: int|
        i < j && #[trigger] is_numbered(rows, i) && #[trigger] is_numbered(rows, j)
            && counted_uuid(rows[i]) == counted_uuid(rows[j]) ==> counted_idx(rows[i])
            != counted_idx(rows[j])
    &&& forall|i: int, j: int|
        0 <= i < rows.len() && counted_gen(#[trigger] rows[i]) is Some && #[trigger] is_numbered(
            rows,
            j,
        ) ==> counted_uuid(rows[i]) != numbered_uuid(rows[j])
}

proof fn lemma_numbered_front(rows: Seq<GenRow>, j: int)
    requires
        rows.len() > 0,
        0 <= j < rows.len() - 1,
    ensures
        is_numbered(rows.drop_last(), j) == is_numbered(rows, j),
{
    let front = rows.drop_last();
    assert(front[j] == rows[j]);
    if is_repeat(rows, j) {
        let k = choose|k: int|
            0 <= k < j && counted_gen(#[trigger] rows[k]) is Some && counted_uuid(rows[k])
                == counted_uuid(rows[j]);
        assert(front[k] == rows[k]);
    }
    if is_repeat(front, j) {
        let k = choose|k: int|
            0 <= k < j && counted_gen(#[trigger] front[k]) is Some && counted_uuid(front[k])
                == counted_uuid(front[j]);
        assert(front[k] == rows[k]);
    }
}

proof fn lemma_told_apart_front(rows: Seq<GenRow>)
    requires
        rows.len() > 0,
        rows_are_told_apart(rows),
    ensures
        rows_are_told_apart(rows.drop_last()),
{
    let front = rows.drop_last();
    assert forall|i: int, j: int|
        i < j && #[trigger] is_numbered(front, i) && #[trigger] is_numbered(front, j)
            && counted_uuid(front[i]) == counted_uuid(front[j]) implies counted_idx(front[i])
        != counted_idx(front[j]) by {
        lemma_numbered_front(rows, i);
        lemma_numbered_front(rows, j);
        assert(is_numbered(rows, i) && is_numbered(rows, j));
    }
    assert forall|i: int, j: int|
        0 <= i < front.len() && counted_gen(#[trigger] front[i]) is Some && #[trigger] is_numbered(
            front,
            j,
        ) implies counted_uuid(front[i]) != numbered_uuid(front[j]) by {
        lemma_numbered_front(rows, j);
        assert(front[i] == rows[i]);
        assert(is_numbered(rows, j));
    }
}

/// The uuids that have had a record are those of the rows with tokens.
proof fn lemma_seen_uuids(
    conversation: Seq<char>,
    steps: Seq<Vec<u8>>,
    modified_seconds: i64,
    offset: i64,
    rows: Seq<GenRow>,
    uuid: Seq<char>,
)
    ensures
        plan_rows(conversation, steps, modified_seconds, offset, Set::empty(), rows).seen.contains(uuid)
            <==> exists|k: int|
            0 <= k < rows.len() && counted_gen(#[trigger] rows[k]) is Some && counted_uuid(rows[k])
                == uuid,
    decreases rows.len(),
{
    if rows.len() > 0 {
        let front = rows.drop_last();
        lemma_seen_uuids(conversation, steps, modified_seconds, offset, front, uuid);
        let last = rows.len() - 1;
        let m = plan_rows(conversation, steps, modified_seconds, offset, Set::empty(), rows);
        let p = plan_rows(conversation, steps, modified_seconds, offset, Set::empty(), front);
        if m.seen.contains(uuid) {
            if p.seen.contains(uuid) {
                let k = choose|k: int|
                    0 <= k < front.len() && counted_gen(#[trigger] front[k]) is Some
                        && counted_uuid(front[k]) == uuid;
                assert(rows[k] == front[k]);
            } else {
                assert(counted_gen(rows[last]) is Some && counted_uuid(rows[last]) == uuid);
            }
        }
        if exists|k: int|
            0 <= k < rows.len() && counted_gen(#[trigger] rows[k]) is Some && counted_uuid(rows[k])
                == uuid {
            let k = choose|k: int|
                0 <= k < rows.len() && counted_gen(#[trigger] rows[k]) is Some && counted_uuid(
                    rows[k],
                ) == uuid;
            if k < last {
                assert(front[k] == rows[k]);
            }
        }
    }
}

/// Whether some row with tokens gives the id: its plain id where `first` says
/// so, else, as a numbered row, the one with its index.
spec fn id_has_row(conversation: Seq<char>, rows: Seq<GenRow>, id: Seq<char>) -> bool {
    exists|i: int, first: bool|
        #![trigger rows[i], gen_request_id(conversation, counted_uuid(rows[i]), counted_idx(rows[i]), first)]
        0 <= i < rows.len() && counted_gen(rows[i]) is Some && (first || is_numbered(rows, i))
            && id == gen_request_id(
            conversation,
            counted_uuid(rows[i]),
            counted_idx(rows[i]),
            first,
        )
}

proof fn lemma_ids_have_rows(
    conversation: Seq<char>,
    steps: Seq<Vec<u8>>,
    modified_seconds: i64,
    offset: i64,
    rows: Seq<GenRow>,
)
    ensures
        ({
            let m = plan_rows(conversation, steps, modified_seconds, offset, Set::empty(), rows);
            forall|k: int|
                0 <= k < m.records.len() ==> id_has_row(
                    conversation,
                    rows,
                    (#[trigger] m.records[k]).request_id,
                )
        }),
    decreases rows.len(),
{
    if rows.len() > 0 {
        let front = rows.drop_last();
        lemma_ids_have_rows(conversation, steps, modified_seconds, offset, front);
        let m = plan_rows(conversation, steps, modified_seconds, offset, Set::empty(), rows);
        let p = plan_rows(conversation, steps, modified_seconds, offset, Set::empty(), front);
        assert forall|k: int| 0 <= k < m.records.len() implies id_has_row(
            conversation,
            rows,
            (#[trigger] m.records[k]).request_id,
        ) by {
            if k < p.records.len() {
                assert(m.records[k] == p.records[k]);
                let id = p.records[k].request_id;
                assert(id_has_row(conversation, front, id));
                let (i, first) = choose|i: int, first: bool|
                    #![trigger front[i], gen_request_id(conversation, counted_uuid(front[i]), counted_idx(front[i]), first)]
                    0 <= i < front.len() && counted_gen(front[i]) is Some && (first || is_numbered(
                        front,
                        i,
                    )) && id == gen_request_id(
                        conversation,
                        counted_uuid(front[i]),
                        counted_idx(front[i]),
                        first,
                    );
                assert(rows[i] == front[i]);
                lemma_numbered_front(rows, i);
                assert(id == gen_request_id(
                    conversation,
                    counted_uuid(rows[i]),
                    counted_idx(rows[i]),
                    first,
                ));
            } else {
                let i = rows.len() - 1;
                let first = !p.seen.contains(counted_uuid(rows[i]));
                lemma_last_is_numbered(conversation, steps, modified_seconds, offset, rows);
                assert(m.records[k].request_id == gen_request_id(
                    conversation,
                    counted_uuid(rows[i]),
                    counted_idx(rows[i]),
                    first,
                ));
            }
        }
    }
}

proof fn lemma_last_is_numbered(
    conversation: Seq<char>,
    steps: Seq<Vec<u8>>,
    modified_seconds: i64,
    offset: i64,
    rows: Seq<GenRow>,
)
    requires
        rows.len() > 0,
        counted_gen(rows.last()) is Some,
    ensures
        plan_rows(
            conversation,
            steps,
            modified_seconds,
            offset,
            Set::empty(),
            rows.drop_last(),
        ).seen.contains(counted_uuid(rows.last())) <==> is_numbered(rows, rows.len() - 1),
{
    let front = rows.drop_last();
    let last = rows.len() - 1;
    let uuid = counted_uuid(rows.last());
    lemma_seen_uuids(conversation, steps, modified_seconds, offset, front, uuid);
    assert(rows[last] == rows.last());
    if is_repeat(rows, last) {
        let k = choose|k: int|
            0 <= k < last && counted_gen(#[trigger] rows[k]) is Some && counted_uuid(rows[k])
                == counted_uuid(rows[last]);
        assert(front[k] == rows[k]);
    }
    if exists|k: int|
        0 <= k < front.len() && counted_gen(#[trigger] front[k]) is Some && counted_uuid(front[k])
            == uuid {
        let k = choose|k: int|
            0 <= k < front.len() && counted_gen(#[trigger] front[k]) is Some && counted_uuid(
                front[k],
            ) == uuid;
        assert(front[k] == rows[k]);
    }
}

proof fn lemma_id_shape(conversation: Seq<char>, uuid: Seq<char>, idx: i64, first: bool)
    ensures
        gen_request_id(conversation, uuid, idx, first).skip(
            ("antigravity:"@ + conversation + ":"@).len() as int,
        ) == (if first {
            uuid
        } else {
            uuid + seq![':'] + text::decimal_int(idx as int)
        }),
{
    reveal_strlit(":");
    let head = "antigravity:"@ + conversation + ":"@;
    assert(":"@ == seq![':']);
    assert((head + uuid).skip(head.len() as int) == uuid);
    assert(head + uuid + ":"@ + text::decimal_int(idx as int) == head + (uuid + seq![':']
        + text::decimal_int(idx as int)));
    let whole = uuid + seq![':'] + text::decimal_int(idx as int);
    assert((head + whole).skip(head.len() as int) == whole);
}

/// The request ids that one import of a conversation gives are all distinct, so
/// no generation with tokens is lost to another one. Left out are rows of which
/// two repeat a uuid with one and the same index, and a uuid that is that of a
/// repeating row followed by a colon and the index of that row.
pub proof fn law_request_ids_distinct(
    conversation: Seq<char>,
    steps: Seq<Vec<u8>>,
    modified_seconds: i64,
    offset: i64,
    rows: Seq<GenRow>,
)
    requires
        rows_are_told_apart(rows),
    ensures
        usage::record_ids(
            plan_rows(conversation, steps, modified_seconds, offset, Set::empty(), rows).records,
        ).no_duplicates(),
    decreases rows.len(),
{
    let m = plan_rows(conversation, steps, modified_seconds, offset, Set::empty(), rows);
    if rows.len() > 0 {
        let front = rows.drop_last();
        let p = plan_rows(conversation, steps, modified_seconds, offset, Set::empty(), front);
        lemma_told_apart_front(rows);
        law_request_ids_distinct(conversation, steps, modified_seconds, offset, front);
        lemma_ids_have_rows(conversation, steps, modified_seconds, offset, front);
        let last = rows.len() - 1;
        if counted_gen(rows[last]) is Some {
            let uuid = counted_uuid(rows[last]);
            let idx = counted_idx(rows[last]);
            let fresh = !p.seen.contains(uuid);
            let id = gen_request_id(conversation, uuid, idx, fresh);
            assert(m.records == p.records.push(m.records.last()));
            assert(m.records.last().request_id == id);
            let ids = usage::record_ids(p.records);
            assert(usage::record_ids(m.records) == ids.push(id));
            lemma_last_is_numbered(conversation, steps, modified_seconds, offset, rows);
            assert forall|k: int| 0 <= k < ids.len() implies #[trigger] ids[k] != id by {
                let other = p.records[k].request_id;
                assert(id_has_row(conversation, front, other));
                let (i, first) = choose|i: int, first: bool|
                    #![trigger front[i], gen_request_id(conversation, counted_uuid(front[i]), counted_idx(front[i]), first)]
                    0 <= i < front.len() && counted_gen(front[i]) is Some && (first || is_numbered(
                        front,
                        i,
                    )) && other == gen_request_id(
                        conversation,
                        counted_uuid(front[i]),
                        counted_idx(front[i]),
                        first,
                    );
                assert(front[i] == rows[i]);
                lemma_numbered_front(rows, i);
                let u = counted_uuid(rows[i]);
                let x = counted_idx(rows[i]);
                lemma_id_shape(conversation, uuid, idx, fresh);
                lemma_id_shape(conversation, u, x, first);
                if other == id {
                    if first && fresh {
                        assert(u == uuid);
                        lemma_seen_uuids(
                            conversation,
                            steps,
                            modified_seconds,
                            offset,
                            front,
                            uuid,
                        );
                        assert(counted_gen(front[i]) is Some && counted_uuid(front[i]) == uuid);
                        assert(false);
                    } else if first {
                        assert(is_numbered(rows, last));
                        assert(u == numbered_uuid(rows[last]));
                        assert(false);
                    } else if fresh {
                        assert(is_numbered(rows, i));
                        assert(uuid == numbered_uuid(rows[i]));
                        assert(counted_gen(rows[last]) is Some);
                        assert(false);
                    } else {
                        assert(is_numbered(rows, i) && is_numbered(rows, last));
                        text::lemma_decimal_int(idx as int, x as int);
                        text::lemma_decimal_int(x as int, idx as int);
                        text::lemma_split_at_last_colon(
                            u,
                            text::decimal_int(x as int),
                            uuid,
                            text::decimal_int(idx as int),
                        );
                        assert(false);
                    }
                }
            }
        } else {
            assert(m.records == p.records);
        }
    }
}

/// How many of the rows have a generation with tokens.
pub open spec fn counted_rows(rows: Seq<GenRow>) -> nat
    decreases rows.len(),
{
    if rows.len() == 0 {
        0
    } else {
        counted_rows(rows.drop_last()) + if counted_gen(rows.last()) is Some {
            1nat
        } else {
            0nat
        }
    }
}

proof fn lemma_counted_rows(
    conversation: Seq<char>,
    steps: Seq<Vec<u8>>,
    modified_seconds: i64,
    offset: i64,
    known: Set<Seq<char>>,
    rows: Seq<GenRow>,
)
    ensures
        plan_rows(conversation, steps, modified_seconds, offset, known, rows).records.len()
            == counted_rows(rows),
    decreases rows.len(),
{
    if rows.len() > 0 {
        lemma_counted_rows(conversation, steps, modified_seconds, offset, known, rows.drop_last());
    }
}

/// The request ids of a list of rows, where earlier rows have the uuids `known`.
pub open spec fn row_ids(
    conversation: Seq<char>,
    known: Set<Seq<char>>,
    rows: Seq<GenRow>,
) -> Seq<Seq<char>>
    decreases rows.len(),
{
    if rows.len() == 0 {
        seq![]
    } else {
        let front = rows.drop_last();
        let before = row_ids(conversation, known, front);
        if counted_gen(rows.last()) is Some {
            let uuid = counted_uuid(rows.last());
            before.push(
                gen_request_id(
                    conversation,
                    uuid,
                    counted_idx(rows.last()),
                    !known.contains(uuid) && !row_uuids(front).contains(uuid),
                ),
            )
        } else {
            before
        }
    }
}

/// The ids of a plan depend on nothing but the rows and those before them.
proof fn lemma_plan_ids(
    conversation: Seq<char>,
    steps: Seq<Vec<u8>>,
    modified_seconds: i64,
    offset: i64,
    known: Set<Seq<char>>,
    rows: Seq<GenRow>,
)
    ensures
        ({
            let m = plan_rows(conversation, steps, modified_seconds, offset, known, rows);
            &&& usage::record_ids(m.records) == row_ids(conversation, known, rows)
            &&& m.seen == known.union(row_uuids(rows))
        }),
    decreases rows.len(),
{
    let m = plan_rows(conversation, steps, modified_seconds, offset, known, rows);
    if rows.len() > 0 {
        let front = rows.drop_last();
        lemma_plan_ids(conversation, steps, modified_seconds, offset, known, front);
        let p = plan_rows(conversation, steps, modified_seconds, offset, known, front);
        if counted_gen(rows.last()) is Some {
            assert(m.records == p.records.push(m.records.last()));
            assert(usage::record_ids(m.records) =~= usage::record_ids(p.records).push(
                m.records.last().request_id,
            ));
        } else {
            assert(m.records == p.records);
        }
        assert(m.seen =~= known.union(row_uuids(rows)));
    } else {
        assert(m.seen =~= known.union(row_uuids(rows)));
        assert(usage::record_ids(m.records) =~= row_ids(conversation, known, rows));
    }
}

proof fn lemma_row_uuids_concat(a: Seq<GenRow>, b: Seq<GenRow>)
    ensures
        row_uuids(a + b) == row_uuids(a).union(row_uuids(b)),
    decreases b.len(),
{
    if b.len() > 0 {
        assert((a + b).drop_last() == a + b.drop_last());
        assert((a + b).last() == b.last());
        lemma_row_uuids_concat(a, b.drop_last());
        assert(row_uuids(a + b) =~= row_uuids(a).union(row_uuids(b)));
    } else {
        assert(a + b == a);
        assert(row_uuids(a) =~= row_uuids(a).union(row_uuids(b)));
    }
}

/// It does not matter which pass sees a row: rows that are read in two passes, the
/// later one knowing the rows of the earlier, have the ids that they have when
/// one pass reads them all.
pub proof fn law_passes_give_the_same_ids(
    conversation: Seq<char>,
    earlier: Seq<GenRow>,
    first: Seq<GenRow>,
    second: Seq<GenRow>,
)
    ensures
        row_ids(conversation, row_uuids(earlier), first + second) == row_ids(
            conversation,
            row_uuids(earlier),
            first,
        ) + row_ids(conversation, row_uuids(earlier + first), second),
    decreases second.len(),
{
    let known = row_uuids(earlier);
    lemma_row_uuids_concat(earlier, first);
    if second.len() > 0 {
        let front = second.drop_last();
        assert((first + second).drop_last() == first + front);
        assert((first + second).last() == second.last());
        law_passes_give_the_same_ids(conversation, earlier, first, front);
        lemma_row_uuids_concat(first, front);
        let a = row_ids(conversation, known, first);
        let later = row_uuids(earlier + first);
        if counted_gen(second.last()) is Some {
            let uuid = counted_uuid(second.last());
            let id = gen_request_id(
                conversation,
                uuid,
                counted_idx(second.last()),
                !later.contains(uuid) && !row_uuids(front).contains(uuid),
            );
            assert(a + row_ids(conversation, later, front).push(id) =~= (a + row_ids(
                conversation,
                later,
                front,
            )).push(id));
        }
    } else {
        assert(first + second == first);
        assert(row_ids(conversation, known, first) + row_ids(
            conversation,
            row_uuids(earlier + first),
            second,
        ) =~= row_ids(conversation, known, first));
    }
}

/// The request ids that importing a conversation gives.
pub proof fn law_import_ids(db: ConversationDb, offset: i64)
    ensures
        usage::record_ids(db.plan(offset).records) == row_ids(
            db.conversation(),
            row_uuids(db.earlier@),
            db.generations@,
        ),
{
    lemma_plan_ids(
        db.conversation(),
        db.steps@,
        db.modified_seconds,
        offset,
        row_uuids(db.earlier@),
        db.generations@,
    );
}

/// The ids of all rows of a conversation are distinct, whichever passes see them.
proof fn lemma_row_ids_distinct(conversation: Seq<char>, rows: Seq<GenRow>)
    requires
        rows_are_told_apart(rows),
    ensures
        row_ids(conversation, Set::empty(), rows).no_duplicates(),
{
    law_request_ids_distinct(conversation, seq![], 0, 0, rows);
    lemma_plan_ids(conversation, seq![], 0, 0, Set::empty(), rows);
}

/// An import takes every generation with tokens, if the ledger has no more of the
/// conversation than what importing the earlier rows left in it: no later model
/// call of a turn is lost, whichever pass sees it.
pub proof fn law_import_complete(db: ConversationDb, store: usage::StoreModel, offset: i64)
    requires
        rows_are_told_apart(db.earlier@ + db.generations@),
        store.has_none_of(row_ids(db.conversation(), row_uuids(db.earlier@), db.generations@)),
    ensures
        ({
            let ids = row_ids(db.conversation(), Set::empty(), db.earlier@);
            store.after_all(ids).imported_count(usage::record_ids(db.plan(offset).records))
                == counted_rows(db.generations@)
        }),
{
    let conversation = db.conversation();
    let none = Seq::<GenRow>::empty();
    let ids = row_ids(conversation, Set::empty(), db.earlier@);
    let later = row_ids(conversation, row_uuids(db.earlier@), db.generations@);
    assert(row_uuids(none) == Set::<Seq<char>>::empty());
    assert(none + db.earlier@ == db.earlier@);
    law_passes_give_the_same_ids(conversation, none, db.earlier@, db.generations@);
    lemma_row_ids_distinct(conversation, db.earlier@ + db.generations@);
    law_import_ids(db, offset);
    lemma_counted_rows(
        conversation,
        db.steps@,
        db.modified_seconds,
        offset,
        row_uuids(db.earlier@),
        db.generations@,
    );
    usage::law_later_records_all_imported(store, ids, later);
    assert(usage::record_ids(db.plan(offset).records).len() == db.plan(offset).records.len());
}

/// Importing a conversation into an empty store takes every generation with
/// tokens.
pub proof fn law_fresh_import_complete(db: ConversationDb, store: usage::StoreModel, offset: i64)
    requires
        rows_are_told_apart(db.generations@),
        db.earlier@.len() == 0,
        store.seen == Set::<Seq<char>>::empty(),
        store.proxied == Set::<Seq<char>>::empty(),
        store.logged == Set::<Seq<char>>::empty(),
    ensures
        store.imported_count(usage::record_ids(db.plan(offset).records)) == counted_rows(
            db.generations@,
        ),
{
    assert(db.earlier@ + db.generations@ == db.generations@);
    law_import_complete(db, store, offset);
}

/// Importing a conversation again from the same offset imports nothing and leaves
/// the store as it is.
pub proof fn law_conversation_replay(db: ConversationDb, store: usage::StoreModel, offset: i64)
    ensures
        ({
            let ids = usage::record_ids(db.plan(offset).records);
            &&& store.after_all(ids).imported_count(ids) == 0
            &&& store.after_all(ids).after_all(ids) == store.after_all(ids)
        }),
{
    usage::law_replay_imports_nothing(store, usage::record_ids(db.plan(offset).records));
}

/// A file that was just imported and not modified since is not read again.
pub proof fn law_cursor_skips_unmodified(modified: i64, offset: i64)
    ensures
        is_unchanged(modified, Some(SyncCursor { last_modified: modified, last_line_offset: offset })),
{
}

/// Whether the rows that can be read stand at ascending indices from the offset on.
pub open spec fn are_rows_from(offset: i64, rows: Seq<GenRow>) -> bool {
    &&& offset >= 0
    &&& forall|i: int|
        0 <= i < rows.len() && (#[trigger] rows[i]) is Row ==> offset <= rows[i]->idx < i64::MAX
    &&& forall|i: int, j: int|
        0 <= i < j < rows.len() && (#[trigger] rows[i]) is Row && (#[trigger] rows[j]) is Row
            ==> rows[i]->idx < rows[j]->idx
}

/// The offset moves on by at least the number of records: a later sync that skips
/// the file counts them all.
pub proof fn law_offset_covers_records(
    conversation: Seq<char>,
    steps: Seq<Vec<u8>>,
    modified_seconds: i64,
    offset: i64,
    known: Set<Seq<char>>,
    rows: Seq<GenRow>,
)
    requires
        are_rows_from(offset, rows),
    ensures
        ({
            let m = plan_rows(conversation, steps, modified_seconds, offset, known, rows);
            offset + m.records.len() <= m.next_offset
        }),
{
    lemma_offset_is_last(conversation, steps, modified_seconds, offset, known, rows);
}

proof fn lemma_offset_is_last(
    conversation: Seq<char>,
    steps: Seq<Vec<u8>>,
    modified_seconds: i64,
    offset: i64,
    known: Set<Seq<char>>,
    rows: Seq<GenRow>,
)
    requires
        are_rows_from(offset, rows),
    ensures
        ({
            let m = plan_rows(conversation, steps, modified_seconds, offset, known, rows);
            &&& offset + m.records.len() <= m.next_offset
            &&& m.next_offset == offset || exists|k: int|
                0 <= k < rows.len() && (#[trigger] rows[k]) is Row && m.next_offset == rows[k]->idx
                    + 1
        }),
    decreases rows.len(),
{
    if rows.len() > 0 {
        let front = rows.drop_last();
        assert forall|i: int| 0 <= i < front.len() && (#[trigger] front[i]) is Row implies offset
            <= front[i]->idx < i64::MAX by {
            assert(front[i] == rows[i]);
        }
        assert forall|i: int, j: int|
            0 <= i < j < front.len() && (#[trigger] front[i]) is Row && (
            #[trigger] front[j]) is Row implies front[i]->idx < front[j]->idx by {
            assert(front[i] == rows[i] && front[j] == rows[j]);
        }
        lemma_offset_is_last(conversation, steps, modified_seconds, offset, known, front);
        let p = plan_rows(conversation, steps, modified_seconds, offset, known, front);
        let last = rows[rows.len() - 1];
        if p.next_offset != offset {
            let k = choose|k: int|
                0 <= k < front.len() && (#[trigger] front[k]) is Row && p.next_offset
                    == front[k]->idx + 1;
            assert(rows[k] == front[k]);
            if last is Row {
                assert(rows[k]->idx < last->idx);
            }
        }
    }
}

// ---------------------------------------------------------------------------
// Two passes
// ---------------------------------------------------------------------------

/// A conversation as a pass over the directories finds it.
pub ghost struct ConversationFile {
    pub path: Seq<char>,
    pub modified: i64,
    pub cursor: Option<SyncCursor>,
    pub db: ConversationDb,
}

/// The store after the conversations were synced one after the other.
pub open spec fn store_after_files(
    store: usage::StoreModel,
    files: Seq<ConversationFile>,
) -> usage::StoreModel
    decreases files.len(),
{
    if files.len() == 0 {
        store
    } else {
        let f = files.last();
        store_after_conversation(
            store_after_files(store, files.drop_last()),
            f.modified,
            f.cursor,
            f.db,
        )
    }
}

/// Whether `sync` is what syncing the conversation did, and the outcome shows it.
pub open spec fn is_file_sync(
    o: FileOutcome,
    sync: AntigravitySync,
    store: usage::StoreModel,
    f: ConversationFile,
) -> bool {
    &&& o.path@ == f.path
    &&& is_conversation_sync(sync, store, f.modified, f.cursor, f.db)
    &&& usage::has_counts(o, sync.outcome.imported, sync.outcome.skipped, 0)
}

/// Whether a result is that of a pass without errors over the conversations.
pub open spec fn is_pass(
    r: SessionSyncResult,
    outcomes: Seq<FileOutcome>,
    syncs: Seq<AntigravitySync>,
    store: usage::StoreModel,
    files: Seq<ConversationFile>,
) -> bool {
    &&& outcomes.len() == files.len()
    &&& syncs.len() == files.len()
    &&& forall|i: int|
        0 <= i < files.len() ==> is_file_sync(
            #[trigger] outcomes[i],
            syncs[i],
            store_after_files(store, files.take(i)),
            files[i],
        )
    &&& usage::shows_totals(
        r,
        usage::totals("Antigravity 会话数据库解析失败 "@, true, outcomes, outcomes.len()),
    )
}

/// The cursor of a conversation after it was synced.
pub open spec fn cursor_after(f: ConversationFile, sync: AntigravitySync) -> Option<SyncCursor> {
    match sync.next_offset {
        Some(next) => Some(SyncCursor { last_modified: f.modified, last_line_offset: next }),
        None => f.cursor,
    }
}

/// Whether a pass finds the conversation as the pass before left it: not modified,
/// and with the cursor that was set.
pub open spec fn is_left_alone(
    f: ConversationFile,
    sync: AntigravitySync,
    again: ConversationFile,
) -> bool {
    again.path == f.path && again.modified == f.modified && again.cursor == cursor_after(f, sync)
}

/// Whether the rows of the conversation, where they are read, stand at ascending
/// indices that fit thirty-two bits.
pub open spec fn has_rows_in_order(f: ConversationFile) -> bool {
    let offset = cursor_offset(f.cursor);
    !is_unchanged(f.modified, f.cursor) && f.db.has_gen_metadata ==> are_rows_from(
        offset,
        f.db.generations@,
    ) && f.db.plan(offset).next_offset <= u32::MAX
}

proof fn lemma_covered_file(
    first: FileOutcome,
    second: FileOutcome,
    sync: AntigravitySync,
    later: AntigravitySync,
    store: usage::StoreModel,
    after: usage::StoreModel,
    f: ConversationFile,
    again: ConversationFile,
)
    requires
        is_file_sync(first, sync, store, f),
        is_file_sync(second, later, after, again),
        is_left_alone(f, sync, again),
        has_rows_in_order(f),
    ensures
        usage::is_covered(first, second),
{
    if !is_unchanged(f.modified, f.cursor) && f.db.has_gen_metadata {
        let offset = cursor_offset(f.cursor);
        let plan = f.db.plan(offset);
        law_offset_covers_records(
            f.db.conversation(),
            f.db.steps@,
            f.db.modified_seconds,
            offset,
            row_uuids(f.db.earlier@),
            f.db.generations@,
        );
        usage::law_import_counts(store, usage::record_ids(plan.records));
        assert(low32_signed(plan.next_offset) == plan.next_offset);
    }
}

proof fn lemma_left_alone_store(
    store: usage::StoreModel,
    files: Seq<ConversationFile>,
)
    requires
        forall|i: int|
            0 <= i < files.len() ==> is_unchanged(
                (#[trigger] files[i]).modified,
                files[i].cursor,
            ),
    ensures
        store_after_files(store, files) == store,
    decreases files.len(),
{
    if files.len() > 0 {
        let front = files.drop_last();
        assert forall|i: int| 0 <= i < front.len() implies is_unchanged(
            (#[trigger] front[i]).modified,
            front[i].cursor,
        ) by {
            assert(front[i] == files[i]);
        }
        lemma_left_alone_store(store, front);
        assert(files.last() == files[files.len() - 1]);
    }
}

/// A second pass over all conversations, none of which was modified since a pass
/// without errors, imports nothing, skips at least what the first one imported,
/// scans the same number of files, has no errors and leaves the store as it is.
/// Left out are rows that do not stand in order, and indices that do not fit
/// thirty-two bits: a skipped file counts the lower half of its offset.
pub proof fn law_second_pass_imports_nothing(
    store: usage::StoreModel,
    files: Seq<ConversationFile>,
    r: SessionSyncResult,
    outcomes: Seq<FileOutcome>,
    syncs: Seq<AntigravitySync>,
    again: Seq<ConversationFile>,
    later: SessionSyncResult,
    later_outcomes: Seq<FileOutcome>,
    later_syncs: Seq<AntigravitySync>,
)
    requires
        is_pass(r, outcomes, syncs, store, files),
        is_pass(later, later_outcomes, later_syncs, store_after_files(store, files), again),
        again.len() == files.len(),
        forall|i: int|
            0 <= i < files.len() ==> is_left_alone(#[trigger] files[i], syncs[i], again[i])
                && has_rows_in_order(files[i]),
    ensures
        later.imported == 0,
        later.skipped >= r.imported,
        later.files_scanned == r.files_scanned,
        later.deferred_files == 0,
        later.errors@.len() == 0,
        store_after_files(store_after_files(store, files), again) == store_after_files(
            store,
            files,
        ),
{
    let after = store_after_files(store, files);
    assert forall|i: int| 0 <= i < again.len() implies is_unchanged(
        (#[trigger] again[i]).modified,
        again[i].cursor,
    ) by {
        assert(is_left_alone(files[i], syncs[i], again[i]));
        assert(is_file_sync(
            outcomes[i],
            syncs[i],
            store_after_files(store, files.take(i)),
            files[i],
        ));
    }
    lemma_left_alone_store(after, again);
    assert forall|i: int| 0 <= i < outcomes.len() implies usage::is_covered(
        #[trigger] outcomes[i],
        later_outcomes[i],
    ) by {
        assert(is_left_alone(files[i], syncs[i], again[i]) && has_rows_in_order(files[i]));
        lemma_covered_file(
            outcomes[i],
            later_outcomes[i],
            syncs[i],
            later_syncs[i],
            store_after_files(store, files.take(i)),
            store_after_files(after, again.take(i)),
            files[i],
            again[i],
        );
    }
    usage::lemma_covered_totals(
        "Antigravity 会话数据库解析失败 "@,
        true,
        outcomes,
        later_outcomes,
        outcomes.len(),
    );
    assert(text::views(later.errors@).len() == later.errors@.len());
}

// ---------------------------------------------------------------------------
// From what the program wrote to what is imported
// ---------------------------------------------------------------------------

/// A model call as the program writes it. A turn has one uuid and one or more
/// calls.
pub ghost struct WrittenCall {
    pub uuid: Option<Seq<char>>,
    pub model: Option<Seq<char>>,
    pub input: u32,
    pub output: u32,
    pub cached: u32,
    pub thoughts: u32,
}

/// Whether the fields of a row, of its inner message and of its token block are
/// those of a call, among whatever other fields.
pub open spec fn are_call_fields(
    call: WrittenCall,
    outer: Seq<wire::WrittenField>,
    inner: Seq<wire::WrittenField>,
    block: Seq<wire::WrittenField>,
) -> bool {
    &&& wire::all_fit(outer) && wire::all_fit(inner) && wire::all_fit(block)
    &&& wire::has_count(block, 2, call.input as u64)
    &&& wire::has_count(block, 3, call.output as u64)
    &&& wire::has_count(block, 5, call.cached as u64)
    &&& wire::has_count(block, 6, call.thoughts as u64)
    &&& wire::has_only(
        inner,
        wire::WrittenField::Bytes { tag: 4, data: wire::message_bytes(block) },
    )
    &&& match call.model {
        Some(m) => wire::has_only(
            inner,
            wire::WrittenField::Bytes { tag: 19, data: vstd::utf8::encode_utf8(m) },
        ),
        None => wire::lacks_tag(inner, 19),
    }
    &&& wire::has_only(
        outer,
        wire::WrittenField::Bytes { tag: 1, data: wire::message_bytes(inner) },
    )
    &&& match call.uuid {
        Some(u) => wire::has_only(
            outer,
            wire::WrittenField::Bytes { tag: 4, data: vstd::utf8::encode_utf8(u) },
        ),
        None => wire::lacks_tag(outer, 4),
    }
}

/// Whether the call used any tokens.
pub open spec fn uses_tokens(call: WrittenCall) -> bool {
    call.input > 0 || call.output > 0 || call.cached > 0 || call.thoughts > 0
}

/// The position of the field with a tag; past the end where there is none.
spec fn tag_position(fields: Seq<wire::WrittenField>, tag: u32) -> int {
    if wire::lacks_tag(fields, tag) {
        fields.len() as int
    } else {
        choose|i: int| 0 <= i < fields.len() && (#[trigger] fields[i]).tag() == tag
    }
}

proof fn lemma_tag_position(fields: Seq<wire::WrittenField>, f: wire::WrittenField)
    requires
        wire::has_only(fields, f),
    ensures
        0 <= tag_position(fields, f.tag()) < fields.len(),
        fields[tag_position(fields, f.tag())] == f,
        forall|j: int|
            0 <= j < fields.len() && j != tag_position(fields, f.tag()) ==> (
            #[trigger] fields[j]).tag() != f.tag(),
{
    let i = choose|i: int| #[trigger] wire::is_single(fields, i) && fields[i] == f;
    assert(fields[i].tag() == f.tag());
    let k = tag_position(fields, f.tag());
    assert(0 <= k < fields.len() && fields[k].tag() == f.tag());
    assert(k == i);
}

proof fn lemma_block_is_read(
    call: WrittenCall,
    outer: Seq<wire::WrittenField>,
    inner: Seq<wire::WrittenField>,
    block: Seq<wire::WrittenField>,
)
    requires
        are_call_fields(call, outer, inner, block),
    ensures
        token_block(wire::message_bytes(block)) == Ok::<AntigravityTokens, WireError>(
            AntigravityTokens {
                input: call.input,
                output: call.output,
                cached: call.cached,
                thoughts: call.thoughts,
            },
        ),
{
    wire::law_count_is_read(block, 2, call.input as u64);
    wire::law_count_is_read(block, 3, call.output as u64);
    wire::law_count_is_read(block, 5, call.cached as u64);
    wire::law_count_is_read(block, 6, call.thoughts as u64);
}

proof fn lemma_inner_is_read(
    call: WrittenCall,
    outer: Seq<wire::WrittenField>,
    inner: Seq<wire::WrittenField>,
    block: Seq<wire::WrittenField>,
    gen: GenModel,
    n: int,
)
    requires
        are_call_fields(call, outer, inner, block),
        0 <= n <= inner.len(),
    ensures
        with_inner_fields(gen, wire::written_models(inner).take(n)) == Ok::<GenModel, WireError>(
            GenModel {
                uuid: gen.uuid,
                model: if tag_position(inner, 19) < n {
                    call.model->0
                } else {
                    gen.model
                },
                tokens: if tag_position(inner, 4) < n {
                    AntigravityTokens {
                        input: call.input,
                        output: call.output,
                        cached: call.cached,
                        thoughts: call.thoughts,
                    }
                } else {
                    gen.tokens
                },
            },
        ),
    decreases n,
{
    let models = wire::written_models(inner);
    lemma_tag_position(
        inner,
        wire::WrittenField::Bytes { tag: 4, data: wire::message_bytes(block) },
    );
    if let Some(m) = call.model {
        lemma_tag_position(
            inner,
            wire::WrittenField::Bytes { tag: 19, data: vstd::utf8::encode_utf8(m) },
        );
        text::law_utf8_round_trip(m);
    }
    lemma_block_is_read(call, outer, inner, block);
    if n > 0 {
        lemma_inner_is_read(call, outer, inner, block, gen, n - 1);
        assert(models.take(n).drop_last() == models.take(n - 1));
        assert(models.take(n).last() == inner[n - 1].model());
        if n - 1 != tag_position(inner, 4) {
            assert(inner[n - 1].tag() != 4);
        }
        if n - 1 != tag_position(inner, 19) {
            assert(inner[n - 1].tag() != 19);
        }
    } else {
        assert(models.take(0) == Seq::<wire::FieldModel>::empty());
    }
}

proof fn lemma_outer_is_read(
    call: WrittenCall,
    outer: Seq<wire::WrittenField>,
    inner: Seq<wire::WrittenField>,
    block: Seq<wire::WrittenField>,
    gen: GenModel,
    n: int,
)
    requires
        are_call_fields(call, outer, inner, block),
        0 <= n <= outer.len(),
    ensures
        with_outer_fields(gen, wire::written_models(outer).take(n)) == Ok::<GenModel, WireError>(
            GenModel {
                uuid: if tag_position(outer, 4) < n {
                    call.uuid->0
                } else {
                    gen.uuid
                },
                model: if tag_position(outer, 1) < n && call.model is Some {
                    call.model->0
                } else {
                    gen.model
                },
                tokens: if tag_position(outer, 1) < n {
                    AntigravityTokens {
                        input: call.input,
                        output: call.output,
                        cached: call.cached,
                        thoughts: call.thoughts,
                    }
                } else {
                    gen.tokens
                },
            },
        ),
    decreases n,
{
    let models = wire::written_models(outer);
    lemma_tag_position(
        outer,
        wire::WrittenField::Bytes { tag: 1, data: wire::message_bytes(inner) },
    );
    if let Some(u) = call.uuid {
        lemma_tag_position(
            outer,
            wire::WrittenField::Bytes { tag: 4, data: vstd::utf8::encode_utf8(u) },
        );
        text::law_utf8_round_trip(u);
    }
    if n > 0 {
        lemma_outer_is_read(call, outer, inner, block, gen, n - 1);
        assert(models.take(n).drop_last() == models.take(n - 1));
        assert(models.take(n).last() == outer[n - 1].model());
        if n - 1 != tag_position(outer, 4) {
            assert(outer[n - 1].tag() != 4);
        }
        if n - 1 != tag_position(outer, 1) {
            assert(outer[n - 1].tag() != 1);
        } else {
            wire::law_message_round_trip(inner);
            let all = wire::written_models(inner);
            assert(all.take(inner.len() as int) == all);
            let before = with_outer_fields(gen, models.take(n - 1))->Ok_0;
            lemma_inner_is_read(call, outer, inner, block, before, inner.len() as int);
            lemma_tag_position(
                inner,
                wire::WrittenField::Bytes { tag: 4, data: wire::message_bytes(block) },
            );
            if let Some(m) = call.model {
                lemma_tag_position(
                    inner,
                    wire::WrittenField::Bytes { tag: 19, data: vstd::utf8::encode_utf8(m) },
                );
            }
        }
    } else {
        assert(models.take(0) == Seq::<wire::FieldModel>::empty());
    }
}

/// A row that was written of a call is read as that call: its uuid, its model, and
/// each of its counts.
pub proof fn law_call_is_read(
    call: WrittenCall,
    outer: Seq<wire::WrittenField>,
    inner: Seq<wire::WrittenField>,
    block: Seq<wire::WrittenField>,
)
    requires
        are_call_fields(call, outer, inner, block),
    ensures
        gen_metadata(wire::message_bytes(outer)) matches Ok(gen) && {
            &&& gen.uuid == (match call.uuid {
                Some(u) => u,
                None => ""@,
            })
            &&& gen.model == (match call.model {
                Some(m) => m,
                None => "unknown"@,
            })
            &&& gen.tokens.input == call.input
            &&& gen.tokens.output == call.output
            &&& gen.tokens.cached == call.cached
            &&& gen.tokens.thoughts == call.thoughts
        },
{
    wire::law_message_round_trip(outer);
    let all = wire::written_models(outer);
    assert(all.take(outer.len() as int) == all);
    lemma_outer_is_read(call, outer, inner, block, unknown_gen(), outer.len() as int);
    lemma_tag_position(
        outer,
        wire::WrittenField::Bytes { tag: 1, data: wire::message_bytes(inner) },
    );
    if let Some(u) = call.uuid {
        lemma_tag_position(
            outer,
            wire::WrittenField::Bytes { tag: 4, data: vstd::utf8::encode_utf8(u) },
        );
    }
}

/// The record of a row with tokens stands where the rows with tokens before it
/// leave off.
proof fn lemma_record_of_row(
    conversation: Seq<char>,
    steps: Seq<Vec<u8>>,
    modified_seconds: i64,
    offset: i64,
    known: Set<Seq<char>>,
    rows: Seq<GenRow>,
    k: int,
)
    requires
        0 <= k < rows.len(),
        counted_gen(rows[k]) is Some,
    ensures
        ({
            let m = plan_rows(conversation, steps, modified_seconds, offset, known, rows);
            let n = counted_rows(rows.take(k)) as int;
            let uuid = counted_uuid(rows[k]);
            &&& 0 <= n < m.records.len()
            &&& m.records[n] == gen_record(
                conversation,
                (counted_gen(rows[k])->0).0,
                counted_idx(rows[k]),
                !known.contains(uuid) && !row_uuids(rows.take(k)).contains(uuid),
                match step_time(steps, uuid) {
                    Some(t) => t,
                    None => modified_seconds,
                },
            )
        }),
    decreases rows.len(),
{
    let front = rows.drop_last();
    lemma_counted_rows(conversation, steps, modified_seconds, offset, known, front);
    if k < rows.len() - 1 {
        assert(front[k] == rows[k]);
        assert(front.take(k) == rows.take(k));
        lemma_record_of_row(conversation, steps, modified_seconds, offset, known, front, k);
    } else {
        assert(rows.take(k) == front);
        lemma_plan_ids(conversation, steps, modified_seconds, offset, known, front);
    }
}

/// Every call of a conversation that used tokens is imported with its own counts,
/// the first of a turn and every later one: its input is its input, its output is
/// what it wrote and thought, at most the largest `u32`, and its cached tokens
/// are its cached tokens. It has its own model, or `unknown`, and the
/// conversation as its session. The first call of a turn has the id of the turn,
/// each later one also its row, whichever pass sees it.
pub proof fn law_every_call_counts(
    db: ConversationDb,
    offset: i64,
    k: int,
    idx: i64,
    data: Vec<u8>,
    call: WrittenCall,
    outer: Seq<wire::WrittenField>,
    inner: Seq<wire::WrittenField>,
    block: Seq<wire::WrittenField>,
)
    requires
        0 <= k < db.generations@.len(),
        db.generations@[k] == (GenRow::Row { idx, data }),
        data@ == wire::message_bytes(outer),
        are_call_fields(call, outer, inner, block),
        uses_tokens(call),
    ensures
        ({
            let records = db.plan(offset).records;
            let n = counted_rows(db.generations@.take(k)) as int;
            let uuid = match call.uuid {
                Some(u) => if u.len() > 0 {
                    u
                } else {
                    "gen-"@ + text::decimal_int(idx as int)
                },
                None => "gen-"@ + text::decimal_int(idx as int),
            };
            let turn = "antigravity:"@ + db.conversation() + ":"@ + uuid;
            &&& 0 <= n < records.len()
            &&& records[n].input_tokens == call.input
            &&& call.output + call.thoughts <= u32::MAX ==> records[n].output_tokens == call.output
                + call.thoughts
            &&& call.output + call.thoughts > u32::MAX ==> records[n].output_tokens == u32::MAX
            &&& records[n].cache_read_tokens == call.cached
            &&& records[n].cache_creation_tokens == 0
            &&& records[n].model == (match call.model {
                Some(m) => m,
                None => "unknown"@,
            })
            &&& records[n].session_id == db.conversation()
            &&& records[n].request_id == if row_uuids(
                db.earlier@ + db.generations@.take(k),
            ).contains(uuid) {
                turn + ":"@ + text::decimal_int(idx as int)
            } else {
                turn
            }
        }),
{
    reveal_strlit("");
    law_call_is_read(call, outer, inner, block);
    lemma_record_of_row(
        db.conversation(),
        db.steps@,
        db.modified_seconds,
        offset,
        row_uuids(db.earlier@),
        db.generations@,
        k,
    );
    lemma_row_uuids_concat(db.earlier@, db.generations@.take(k));
}

/// A row whose call used no tokens is not imported, and one that cannot be read
/// counts as skipped: there are as many records as rows with tokens.
pub proof fn law_rows_with_tokens_are_imported(db: ConversationDb, offset: i64)
    ensures
        db.plan(offset).records.len() == counted_rows(db.generations@),
        db.plan(offset).skipped == unread_rows(db.generations@),
{
    let known = row_uuids(db.earlier@);
    lemma_counted_rows(
        db.conversation(),
        db.steps@,
        db.modified_seconds,
        offset,
        known,
        db.generations@,
    );
    lemma_unread_rows(
        db.conversation(),
        db.steps@,
        db.modified_seconds,
        offset,
        known,
        db.generations@,
    );
}

/// How many rows cannot be read.
pub open spec fn unread_rows(rows: Seq<GenRow>) -> nat
    decreases rows.len(),
{
    if rows.len() == 0 {
        0
    } else {
        unread_rows(rows.drop_last()) + match rows.last() {
            GenRow::Unreadable => 1nat,
            GenRow::Row { idx, data } => if gen_metadata(data@) is Err {
                1nat
            } else {
                0nat
            },
        }
    }
}

proof fn lemma_unread_rows(
    conversation: Seq<char>,
    steps: Seq<Vec<u8>>,
    modified_seconds: i64,
    offset: i64,
    known: Set<Seq<char>>,
    rows: Seq<GenRow>,
)
    ensures
        plan_rows(conversation, steps, modified_seconds, offset, known, rows).skipped
            == unread_rows(rows),
    decreases rows.len(),
{
    if rows.len() > 0 {
        lemma_unread_rows(conversation, steps, modified_seconds, offset, known, rows.drop_last());
    }
}

/// What one of the counts of the records adds up to.
pub open spec fn record_sum(
    records: Seq<usage::RecordModel>,
    count: spec_fn(usage::RecordModel) -> int,
) -> int
    decreases records.len(),
{
    if records.len() == 0 {
        0
    } else {
        record_sum(records.drop_last(), count) + count(records.last())
    }
}

/// What one of the counts of the rows adds up to.
pub open spec fn row_sum(
    rows: Seq<GenRow>,
    count: spec_fn(AntigravityTokens) -> int,
) -> int
    decreases rows.len(),
{
    if rows.len() == 0 {
        0
    } else {
        row_sum(rows.drop_last(), count) + match rows.last() {
            GenRow::Row { idx, data } => match gen_metadata(data@) {
                Ok(gen) => count(gen.tokens),
                Err(_) => 0,
            },
            GenRow::Unreadable => 0,
        }
    }
}

proof fn lemma_row_sum(
    conversation: Seq<char>,
    steps: Seq<Vec<u8>>,
    modified_seconds: i64,
    offset: i64,
    known: Set<Seq<char>>,
    rows: Seq<GenRow>,
)
    ensures
        ({
            let m = plan_rows(conversation, steps, modified_seconds, offset, known, rows);
            &&& record_sum(m.records, |r: usage::RecordModel| r.input_tokens as int) == row_sum(
                rows,
                |t: AntigravityTokens| t.input as int,
            )
            &&& record_sum(m.records, |r: usage::RecordModel| r.cache_read_tokens as int)
                == row_sum(rows, |t: AntigravityTokens| t.cached as int)
        }),
    decreases rows.len(),
{
    if rows.len() > 0 {
        let front = rows.drop_last();
        lemma_row_sum(conversation, steps, modified_seconds, offset, known, front);
        let m = plan_rows(conversation, steps, modified_seconds, offset, known, rows);
        let p = plan_rows(conversation, steps, modified_seconds, offset, known, front);
        if counted_gen(rows.last()) is Some {
            assert(m.records.drop_last() == p.records);
        } else {
            assert(m.records == p.records);
        }
    }
}

/// No token is lost or counted twice: the input tokens of the records of a
/// conversation add up to those of its rows, and so do the cached tokens.
pub proof fn law_tokens_add_up(db: ConversationDb, offset: i64)
    ensures
        record_sum(
            db.plan(offset).records,
            |r: usage::RecordModel| r.input_tokens as int,
        ) == row_sum(db.generations@, |t: AntigravityTokens| t.input as int),
        record_sum(
            db.plan(offset).records,
            |r: usage::RecordModel| r.cache_read_tokens as int,
        ) == row_sum(db.generations@, |t: AntigravityTokens| t.cached as int),
{
    lemma_row_sum(
        db.conversation(),
        db.steps@,
        db.modified_seconds,
        offset,
        row_uuids(db.earlier@),
        db.generations@,
    );
}

/// A number as the program writes it into a varint: one below zero as its two's
/// complement.
pub open spec fn twos_complement(n: i64) -> u64 {
    if n >= 0 {
        n as u64
    } else {
        (n + 0x1_0000_0000_0000_0000) as u64
    }
}

/// Whether the fields of the metadata of a step, and of the time in it, are those
/// of a step of a turn at this second, among whatever other fields.
pub open spec fn are_step_fields(
    uuid: Seq<char>,
    seconds: i64,
    fields: Seq<wire::WrittenField>,
    time: Seq<wire::WrittenField>,
) -> bool {
    &&& wire::all_fit(fields) && wire::all_fit(time)
    &&& wire::has_only(time, wire::WrittenField::Varint { tag: 1, value: twos_complement(seconds) })
    &&& wire::has_only(
        fields,
        wire::WrittenField::Bytes { tag: 1, data: wire::message_bytes(time) },
    )
    &&& wire::has_only(
        fields,
        wire::WrittenField::Bytes { tag: 12, data: vstd::utf8::encode_utf8(uuid) },
    )
}

/// The metadata of a step is read as it was written.
pub proof fn law_step_is_read(
    uuid: Seq<char>,
    seconds: i64,
    fields: Seq<wire::WrittenField>,
    time: Seq<wire::WrittenField>,
)
    requires
        are_step_fields(uuid, seconds, fields, time),
    ensures
        step_metadata(wire::message_bytes(fields)) == Ok::<Option<(Seq<char>, i64)>, WireError>(
            Some((uuid, seconds)),
        ),
{
    wire::law_message_round_trip(fields);
    wire::law_message_round_trip(time);
    text::law_utf8_round_trip(uuid);
    let models = wire::written_models(fields);
    let times = wire::written_models(time);
    let t = wire::WrittenField::Varint { tag: 1, value: twos_complement(seconds) };
    let a = wire::WrittenField::Bytes { tag: 1, data: wire::message_bytes(time) };
    let b = wire::WrittenField::Bytes { tag: 12, data: vstd::utf8::encode_utf8(uuid) };
    lemma_tag_position(time, t);
    lemma_tag_position(fields, a);
    lemma_tag_position(fields, b);
    assert forall|j: int| tag_position(time, 1) < j < times.len() implies wire::varint_of(1)(
        #[trigger] times[j],
    ) is None by {
        assert(time[j].tag() != 1);
    }
    wire::lemma_last_pick_at(times, wire::varint_of(1), tag_position(time, 1));
    assert forall|j: int| tag_position(fields, 1) < j < models.len() implies step_seconds()(
        #[trigger] models[j],
    ) is None by {
        assert(fields[j].tag() != 1);
    }
    wire::lemma_last_pick_at(models, step_seconds(), tag_position(fields, 1));
    assert forall|j: int| tag_position(fields, 12) < j < models.len() implies step_uuid()(
        #[trigger] models[j],
    ) is None by {
        assert(fields[j].tag() != 12);
    }
    wire::lemma_last_pick_at(models, step_uuid(), tag_position(fields, 12));
}

/// Whether a step is one of another turn, or of none.
pub open spec fn is_other_step(step: Vec<u8>, uuid: Seq<char>) -> bool {
    step_metadata(step@) matches Ok(Some((u, _))) ==> u != uuid
}

proof fn lemma_step_time(steps: Seq<Vec<u8>>, uuid: Seq<char>, j: int)
    requires
        -1 <= j < steps.len(),
        j >= 0 ==> (step_metadata(steps[j]@) matches Ok(Some((u, _))) && u == uuid),
        forall|i: int| j < i < steps.len() ==> is_other_step(#[trigger] steps[i], uuid),
    ensures
        j < 0 ==> step_time(steps, uuid) is None,
        j >= 0 ==> step_time(steps, uuid) == Some((step_metadata(steps[j]@)->Ok_0->0).1),
    decreases steps.len(),
{
    if steps.len() > 0 && j < steps.len() - 1 {
        let front = steps.drop_last();
        assert(is_other_step(steps[steps.len() - 1], uuid));
        assert forall|i: int| j < i < front.len() implies is_other_step(
            #[trigger] front[i],
            uuid,
        ) by {
            assert(front[i] == steps[i]);
        }
        lemma_step_time(front, uuid, j);
    }
}

/// A call has the time of the last step of its turn.
pub proof fn law_call_has_the_time_of_its_turn(
    db: ConversationDb,
    offset: i64,
    k: int,
    j: int,
    seconds: i64,
    fields: Seq<wire::WrittenField>,
    time: Seq<wire::WrittenField>,
)
    requires
        0 <= k < db.generations@.len(),
        counted_gen(db.generations@[k]) is Some,
        0 <= j < db.steps@.len(),
        db.steps@[j]@ == wire::message_bytes(fields),
        are_step_fields(counted_uuid(db.generations@[k]), seconds, fields, time),
        forall|i: int|
            j < i < db.steps@.len() ==> is_other_step(
                #[trigger] db.steps@[i],
                counted_uuid(db.generations@[k]),
            ),
    ensures
        ({
            let n = counted_rows(db.generations@.take(k)) as int;
            0 <= n < db.plan(offset).records.len() && db.plan(offset).records[n].created_at
                == seconds
        }),
{
    let uuid = counted_uuid(db.generations@[k]);
    law_step_is_read(uuid, seconds, fields, time);
    lemma_step_time(db.steps@, uuid, j);
    lemma_record_of_row(
        db.conversation(),
        db.steps@,
        db.modified_seconds,
        offset,
        row_uuids(db.earlier@),
        db.generations@,
        k,
    );
}

/// A call whose turn has no step has the time at which the file was modified.
pub proof fn law_call_without_a_step_has_the_time_of_the_file(
    db: ConversationDb,
    offset: i64,
    k: int,
)
    requires
        0 <= k < db.generations@.len(),
        counted_gen(db.generations@[k]) is Some,
        forall|i: int|
            0 <= i < db.steps@.len() ==> is_other_step(
                #[trigger] db.steps@[i],
                counted_uuid(db.generations@[k]),
            ),
    ensures
        ({
            let n = counted_rows(db.generations@.take(k)) as int;
            0 <= n < db.plan(offset).records.len() && db.plan(offset).records[n].created_at
                == db.modified_seconds
        }),
{
    let uuid = counted_uuid(db.generations@[k]);
    lemma_step_time(db.steps@, uuid, -1);
    lemma_record_of_row(
        db.conversation(),
        db.steps@,
        db.modified_seconds,
        offset,
        row_uuids(db.earlier@),
        db.generations@,
        k,
    );
}

/// A later sync starts behind every row of this one, and no further than behind
/// the last of them: no row is read twice, and none is left out.
pub proof fn law_offset_is_behind_the_rows(db: ConversationDb, offset: i64)
    ensures
        ({
            let next = db.plan(offset).next_offset;
            &&& offset <= next
            &&& forall|k: int|
                0 <= k < db.generations@.len() && (#[trigger] db.generations@[k]) is Row
                    && db.generations@[k]->idx < i64::MAX ==> db.generations@[k]->idx < next
            &&& next == offset || exists|k: int|
                0 <= k < db.generations@.len() && (#[trigger] db.generations@[k]) is Row && (next
                    == db.generations@[k]->idx + 1 || next == i64::MAX)
        }),
{
    lemma_offset_behind(
        db.conversation(),
        db.steps@,
        db.modified_seconds,
        offset,
        row_uuids(db.earlier@),
        db.generations@,
    );
}

proof fn lemma_offset_behind(
    conversation: Seq<char>,
    steps: Seq<Vec<u8>>,
    modified_seconds: i64,
    offset: i64,
    known: Set<Seq<char>>,
    rows: Seq<GenRow>,
)
    ensures
        ({
            let next = plan_rows(
                conversation,
                steps,
                modified_seconds,
                offset,
                known,
                rows,
            ).next_offset;
            &&& offset <= next
            &&& forall|k: int|
                0 <= k < rows.len() && (#[trigger] rows[k]) is Row && rows[k]->idx < i64::MAX
                    ==> rows[k]->idx < next
            &&& next == offset || exists|k: int|
                0 <= k < rows.len() && (#[trigger] rows[k]) is Row && (next == rows[k]->idx + 1
                    || next == i64::MAX)
        }),
    decreases rows.len(),
{
    if rows.len() > 0 {
        let front = rows.drop_last();
        let last = rows.len() - 1;
        lemma_offset_behind(conversation, steps, modified_seconds, offset, known, front);
        let p = plan_rows(conversation, steps, modified_seconds, offset, known, front);
        let m = plan_rows(conversation, steps, modified_seconds, offset, known, rows);
        assert(rows[last] == rows.last());
        assert forall|k: int|
            0 <= k < rows.len() && (#[trigger] rows[k]) is Row && rows[k]->idx
                < i64::MAX implies rows[k]->idx < m.next_offset by {
            if k < last {
                assert(front[k] == rows[k]);
            }
        }
        if m.next_offset != offset {
            if m.next_offset == p.next_offset {
                let k = choose|k: int|
                    0 <= k < front.len() && (#[trigger] front[k]) is Row && (p.next_offset
                        == front[k]->idx + 1 || p.next_offset == i64::MAX);
                assert(rows[k] == front[k]);
            } else {
                assert(rows[last] is Row);
            }
        }
    }
}

/// A conversation is known by its cascade id; without one by the name of its file;
/// without that it is `unknown`.
pub proof fn law_conversation_has_its_id(db: ConversationDb, id: Seq<char>)
    ensures
        text::opt_view(db.cascade_id) == Some(id) ==> db.conversation() == id,
        db.cascade_id is None && text::opt_view(db.file_stem) == Some(id) ==> db.conversation()
            == id,
        db.cascade_id is None && db.file_stem is None ==> db.conversation() == "unknown"@,
{
}

/// A conversation that was modified since the last sync is read from where that
/// sync left off, and its records are offered to the ledger; one that was not
/// modified is left alone. One without a table of calls is read from its start
/// the next time.
pub proof fn law_modified_conversations_are_imported(
    r: AntigravitySync,
    store: usage::StoreModel,
    modified: i64,
    cursor: Option<SyncCursor>,
    db: ConversationDb,
)
    requires
        is_conversation_sync(r, store, modified, cursor, db),
    ensures
        ({
            let since = match cursor {
                Some(c) => c.last_modified,
                None => 0,
            };
            let from = match cursor {
                Some(c) => c.last_line_offset,
                None => 0,
            };
            &&& modified > since && db.has_gen_metadata ==> {
                &&& r.next_offset == Some(db.plan(from).next_offset)
                &&& r.outcome.imported == usage::saturated(
                    store.imported_count(usage::record_ids(db.plan(from).records)) as int,
                )
                &&& usage::are_rows_at(
                    r.outcome.rows@,
                    ImportSource::Antigravity,
                    db.plan(from).records,
                    store.written(usage::record_ids(db.plan(from).records)),
                )
                &&& store_after_conversation(store, modified, cursor, db) == store.after_all(
                    usage::record_ids(db.plan(from).records),
                )
            }
            &&& modified > since && !db.has_gen_metadata ==> r.next_offset == Some(0i64)
                && r.outcome.rows@.len() == 0
            &&& modified <= since ==> {
                &&& r.next_offset is None
                &&& r.outcome.imported == 0
                &&& r.outcome.rows@.len() == 0
                &&& store_after_conversation(store, modified, cursor, db) == store
            }
        }),
{
}

/// A call that used no tokens has no record: as many records stand before the row
/// behind it as before its own.
pub proof fn law_empty_call_is_passed_over(
    rows: Seq<GenRow>,
    k: int,
    idx: i64,
    data: Vec<u8>,
    call: WrittenCall,
    outer: Seq<wire::WrittenField>,
    inner: Seq<wire::WrittenField>,
    block: Seq<wire::WrittenField>,
)
    requires
        0 <= k < rows.len(),
        rows[k] == (GenRow::Row { idx, data }),
        data@ == wire::message_bytes(outer),
        are_call_fields(call, outer, inner, block),
    ensures
        !uses_tokens(call) ==> counted_rows(rows.take(k + 1)) == counted_rows(rows.take(k)),
        uses_tokens(call) ==> counted_rows(rows.take(k + 1)) == counted_rows(rows.take(k)) + 1,
{
    law_call_is_read(call, outer, inner, block);
    assert(rows.take(k + 1).drop_last() == rows.take(k));
    assert(rows.take(k + 1).last() == rows[k]);
}

/// The counts of a token block are thirty-two bits wide: of a larger number the low
/// bits are kept.
pub proof fn law_large_counts_wrap(block: Seq<wire::WrittenField>, n: u64)
    requires
        wire::all_fit(block),
    ensures
        token_block(wire::message_bytes(block)) is Ok,
        wire::has_count(block, 2, n) ==> (n - token_block(
            wire::message_bytes(block),
        )->Ok_0.input) % 0x1_0000_0000 == 0,
        wire::has_count(block, 3, n) ==> (n - token_block(
            wire::message_bytes(block),
        )->Ok_0.output) % 0x1_0000_0000 == 0,
        wire::has_count(block, 5, n) ==> (n - token_block(
            wire::message_bytes(block),
        )->Ok_0.cached) % 0x1_0000_0000 == 0,
        wire::has_count(block, 6, n) ==> (n - token_block(
            wire::message_bytes(block),
        )->Ok_0.thoughts) % 0x1_0000_0000 == 0,
{
    wire::law_message_round_trip(block);
    assert(wire::wire_fields(wire::message_bytes(block)) == Ok::<
        Seq<wire::FieldModel>,
        WireError,
    >(wire::written_models(block)));
    if wire::has_count(block, 2, n) {
        wire::law_count_is_read(block, 2, n);
    }
    if wire::has_count(block, 3, n) {
        wire::law_count_is_read(block, 3, n);
    }
    if wire::has_count(block, 5, n) {
        wire::law_count_is_read(block, 5, n);
    }
    if wire::has_count(block, 6, n) {
        wire::law_count_is_read(block, 6, n);
    }
}

proof fn lemma_outer_concat(
    gen: GenModel,
    a: Seq<wire::FieldModel>,
    b: Seq<wire::FieldModel>,
)
    requires
        with_outer_fields(gen, a) is Ok,
    ensures
        with_outer_fields(gen, a + b) == with_outer_fields(with_outer_fields(gen, a)->Ok_0, b),
    decreases b.len(),
{
    if b.len() == 0 {
        assert(a + b == a);
    } else {
        assert((a + b).drop_last() == a + b.drop_last());
        assert((a + b).last() == b.last());
        lemma_outer_concat(gen, a, b.drop_last());
    }
}

/// Where a row is written of two calls, one after the other, the later call counts:
/// its tokens replace those of the first, and so do its uuid and its model where
/// it has them.
pub proof fn law_later_call_replaces_the_first(
    first: WrittenCall,
    outer: Seq<wire::WrittenField>,
    inner: Seq<wire::WrittenField>,
    block: Seq<wire::WrittenField>,
    later: WrittenCall,
    later_outer: Seq<wire::WrittenField>,
    later_inner: Seq<wire::WrittenField>,
    later_block: Seq<wire::WrittenField>,
)
    requires
        are_call_fields(first, outer, inner, block),
        are_call_fields(later, later_outer, later_inner, later_block),
    ensures
        gen_metadata(wire::message_bytes(outer + later_outer)) matches Ok(gen) && {
            &&& later.uuid is Some ==> gen.uuid == later.uuid->0
            &&& later.uuid is None && first.uuid is Some ==> gen.uuid == first.uuid->0
            &&& later.model is Some ==> gen.model == later.model->0
            &&& later.model is None && first.model is Some ==> gen.model == first.model->0
            &&& gen.tokens.input == later.input
            &&& gen.tokens.output == later.output
            &&& gen.tokens.cached == later.cached
            &&& gen.tokens.thoughts == later.thoughts
        },
{
    let all = outer + later_outer;
    assert forall|i: int| 0 <= i < all.len() implies (#[trigger] all[i]).fits() by {
        if i < outer.len() {
            assert(all[i] == outer[i]);
        } else {
            assert(all[i] == later_outer[i - outer.len()]);
        }
    }
    wire::law_message_round_trip(all);
    let a = wire::written_models(outer);
    let b = wire::written_models(later_outer);
    assert(wire::written_models(all) == a + b);
    law_call_is_read(first, outer, inner, block);
    wire::law_message_round_trip(outer);
    assert(wire::wire_fields(wire::message_bytes(outer)) == Ok::<
        Seq<wire::FieldModel>,
        WireError,
    >(a));
    lemma_outer_concat(unknown_gen(), a, b);
    let gen = with_outer_fields(unknown_gen(), a)->Ok_0;
    assert(b.take(later_outer.len() as int) == b);
    lemma_outer_is_read(
        later,
        later_outer,
        later_inner,
        later_block,
        gen,
        later_outer.len() as int,
    );
    lemma_tag_position(
        later_outer,
        wire::WrittenField::Bytes { tag: 1, data: wire::message_bytes(later_inner) },
    );
    if let Some(u) = later.uuid {
        lemma_tag_position(
            later_outer,
            wire::WrittenField::Bytes { tag: 4, data: vstd::utf8::encode_utf8(u) },
        );
    }
}

proof fn lemma_outer_fails(gen: GenModel, fields: Seq<wire::FieldModel>, k: int)
    requires
        0 <= k < fields.len(),
        forall|g: GenModel| #[trigger] with_outer_field(g, fields[k]) is Err,
    ensures
        with_outer_fields(gen, fields) is Err,
    decreases fields.len(),
{
    if k < fields.len() - 1 {
        lemma_outer_fails(gen, fields.drop_last(), k);
    } else if let Ok(g) = with_outer_fields(gen, fields.drop_last()) {
        assert(with_outer_field(g, fields[k]) is Err);
    }
}

proof fn lemma_inner_fails(gen: GenModel, fields: Seq<wire::FieldModel>, k: int)
    requires
        0 <= k < fields.len(),
        forall|g: GenModel| #[trigger] with_inner_field(g, fields[k]) is Err,
    ensures
        with_inner_fields(gen, fields) is Err,
    decreases fields.len(),
{
    if k < fields.len() - 1 {
        lemma_inner_fails(gen, fields.drop_last(), k);
    } else if let Ok(g) = with_inner_fields(gen, fields.drop_last()) {
        assert(with_inner_field(g, fields[k]) is Err);
    }
}

/// A row whose uuid is no text, whose inner message or token block cannot be read,
/// or whose model is no text, cannot be read.
pub proof fn law_broken_call_is_not_read(
    outer: Seq<wire::WrittenField>,
    k: int,
    data: Seq<u8>,
    inner: Seq<wire::WrittenField>,
    j: int,
    part: Seq<u8>,
)
    requires
        wire::all_fit(outer),
        wire::all_fit(inner),
        0 <= k < outer.len(),
    ensures
        outer[k] == (wire::WrittenField::Bytes { tag: 4, data }) && text::utf8_value(data) is None
            ==> gen_metadata(wire::message_bytes(outer)) is Err,
        outer[k] == (wire::WrittenField::Bytes { tag: 1, data }) && wire::wire_fields(data) is Err
            ==> gen_metadata(wire::message_bytes(outer)) is Err,
        outer[k] == (wire::WrittenField::Bytes { tag: 1, data }) && data == wire::message_bytes(
            inner,
        ) && 0 <= j < inner.len() && inner[j] == (wire::WrittenField::Bytes { tag: 19, data: part })
            && text::utf8_value(part) is None ==> gen_metadata(wire::message_bytes(outer)) is Err,
        outer[k] == (wire::WrittenField::Bytes { tag: 1, data }) && data == wire::message_bytes(
            inner,
        ) && 0 <= j < inner.len() && inner[j] == (wire::WrittenField::Bytes { tag: 4, data: part })
            && wire::wire_fields(part) is Err ==> gen_metadata(wire::message_bytes(outer)) is Err,
{
    wire::law_message_round_trip(outer);
    let models = wire::written_models(outer);
    assert(wire::wire_fields(wire::message_bytes(outer)) == Ok::<
        Seq<wire::FieldModel>,
        WireError,
    >(models));
    let parts = wire::written_models(inner);
    wire::law_message_round_trip(inner);
    assert(wire::wire_fields(wire::message_bytes(inner)) == Ok::<
        Seq<wire::FieldModel>,
        WireError,
    >(parts));
    if 0 <= j < inner.len() && (forall|g: GenModel| #[trigger]
        with_inner_field(g, parts[j]) is Err) {
        assert forall|g: GenModel| with_inner_fields(g, parts) is Err by {
            lemma_inner_fails(g, parts, j);
        }
    }
    if forall|g: GenModel| #[trigger] with_outer_field(g, models[k]) is Err {
        lemma_outer_fails(unknown_gen(), models, k);
    }
}

} // verus!
