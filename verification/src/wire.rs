//! A reader of the protobuf wire format.

use vstd::prelude::*;
use vstd::slice::*;

verus! {

/// Why a buffer is not a sequence of wire-format fields.
#[derive(Debug, PartialEq, Eq, Structural, Clone, Copy)]
pub enum WireError {
    UnexpectedEof,
    VarintOverflow,
    InvalidString,
    UnknownWireType(u8),
}

/// One field, borrowed from the buffer that it was read from.
#[derive(Debug, Clone)]
pub struct WireField<'a> {
    pub tag: u32,
    pub wire_type: u8,
    pub varint: u64,
    pub data: &'a [u8],
}

/// What a field holds.
#[verifier::ext_equal]
pub ghost struct FieldModel {
    pub tag: u32,
    pub wire_type: u8,
    pub varint: u64,
    pub data: Seq<u8>,
}

impl<'a> View for WireField<'a> {
    type V = FieldModel;

    open spec fn view(&self) -> FieldModel {
        FieldModel {
            tag: self.tag,
            wire_type: self.wire_type,
            varint: self.varint,
            data: self.data@,
        }
    }
}

/// The views of a list of fields.
pub open spec fn field_models(fields: Seq<WireField>) -> Seq<FieldModel> {
    Seq::new(fields.len(), |i: int| fields[i]@)
}

// ---------------------------------------------------------------------------
// Varints
// ---------------------------------------------------------------------------

/// The number that the low seven bits of each byte denote, least significant
/// byte first.
pub open spec fn base128(s: Seq<u8>) -> nat
    decreases s.len(),
{
    if s.len() == 0 {
        0
    } else {
        (s[0] % 128) as nat + 128 * base128(s.drop_first())
    }
}

/// The first position at or after `start` whose byte has no continuation bit;
/// the end of the buffer (or `start`, beyond it) where there is none.
pub open spec fn varint_last(buf: Seq<u8>, start: int) -> int
    decreases buf.len() - start,
{
    if 0 <= start < buf.len() && buf[start] >= 128 {
        varint_last(buf, start + 1)
    } else {
        start
    }
}

/// What stands at `start` as a varint, and the position after it. A varint has
/// at most ten bytes; its value is taken modulo two to the sixty-fourth.
pub open spec fn varint_at(buf: Seq<u8>, start: int) -> (Result<u64, WireError>, int) {
    let last = varint_last(buf, start);
    if last >= start + 10 {
        (Err(WireError::VarintOverflow), start + 10)
    } else if last >= buf.len() {
        (Err(WireError::UnexpectedEof), last)
    } else {
        (
            Ok((base128(buf.subrange(start, last + 1)) % 0x1_0000_0000_0000_0000) as u64),
            last + 1,
        )
    }
}

spec fn pow128(k: nat) -> nat
    decreases k,
{
    if k == 0 {
        1
    } else {
        128 * pow128((k - 1) as nat)
    }
}

proof fn lemma_base128_push(s: Seq<u8>, b: u8)
    ensures
        base128(s.push(b)) == base128(s) + (b % 128) as nat * pow128(s.len()),
    decreases s.len(),
{
    reveal_with_fuel(base128, 2);
    if s.len() == 0 {
        assert(s.push(b).drop_first() == Seq::<u8>::empty());
        let x = (b % 128) as nat;
        assert(x * pow128(0) == x) by (nonlinear_arith)
            requires
                pow128(0) == 1,
        ;
    } else {
        assert(s.push(b).drop_first() == s.drop_first().push(b));
        lemma_base128_push(s.drop_first(), b);
        let x = (b % 128) as nat;
        let p = pow128(s.drop_first().len());
        assert(128 * (x * p) == x * (128 * p)) by (nonlinear_arith);
    }
}

proof fn lemma_base128_bound(s: Seq<u8>)
    ensures
        base128(s) < pow128(s.len()),
    decreases s.len(),
{
    if s.len() > 0 {
        lemma_base128_bound(s.drop_first());
    }
}

proof fn lemma_pow128_values()
    ensures
        pow128(0) == 1,
        pow128(1) == 0x80,
        pow128(2) == 0x4000,
        pow128(3) == 0x20_0000,
        pow128(4) == 0x1000_0000,
        pow128(5) == 0x8_0000_0000,
        pow128(6) == 0x400_0000_0000,
        pow128(7) == 0x2_0000_0000_0000,
        pow128(8) == 0x100_0000_0000_0000,
        pow128(9) == 0x8000_0000_0000_0000,
{
    reveal_with_fuel(pow128, 10);
}

/// Setting seven bits above those in use adds their weight, modulo the word.
proof fn lemma_or_adds(val: u64, x: u64, k: nat, shift: u32)
    requires
        k <= 9,
        shift == 7 * k,
        val < pow128(k),
        x < 128,
    ensures
        (val | (x << shift)) == (val + x * pow128(k)) % 0x1_0000_0000_0000_0000,
{
    lemma_pow128_values();
    assert(x < 128 ==> (val < 1 ==> (val | (x << 0u32)) == val + x) && (val < 0x80 ==> (val | (x
        << 7u32)) == val + x * 0x80) && (val < 0x4000 ==> (val | (x << 14u32)) == val + x * 0x4000)
        && (val < 0x20_0000 ==> (val | (x << 21u32)) == val + x * 0x20_0000) && (val < 0x1000_0000
        ==> (val | (x << 28u32)) == val + x * 0x1000_0000) && (val < 0x8_0000_0000 ==> (val | (x
        << 35u32)) == val + x * 0x8_0000_0000) && (val < 0x400_0000_0000 ==> (val | (x << 42u32))
        == val + x * 0x400_0000_0000) && (val < 0x2_0000_0000_0000 ==> (val | (x << 49u32)) == val
        + x * 0x2_0000_0000_0000) && (val < 0x100_0000_0000_0000 ==> (val | (x << 56u32)) == val + x
        * 0x100_0000_0000_0000) && (val < 0x8000_0000_0000_0000 ==> (val | (x << 63u32)) == val + (x
        % 2) * 0x8000_0000_0000_0000)) by (bit_vector);
    if k == 9 {
        let h: int = 0x8000_0000_0000_0000;
        let q: int = x as int / 2;
        let r: int = x as int % 2;
        assert(val + x * h == (val + r * h) + q * 0x1_0000_0000_0000_0000);
        assert((val + x * h) % 0x1_0000_0000_0000_0000 == val + r * h) by (nonlinear_arith)
            requires
                val + x * h == (val + r * h) + q * 0x1_0000_0000_0000_0000,
                0 <= val + r * h < 0x1_0000_0000_0000_0000,
        ;
    }
}

proof fn lemma_varint_last_skip(buf: Seq<u8>, start: int, k: int)
    requires
        0 <= start <= k <= buf.len(),
        forall|j: int| start <= j < k ==> buf[j] >= 128,
    ensures
        varint_last(buf, start) == varint_last(buf, k),
    decreases k - start,
{
    if start < k {
        lemma_varint_last_skip(buf, start + 1, k);
    }
}

proof fn lemma_varint_last_range(buf: Seq<u8>, start: int)
    ensures
        start <= varint_last(buf, start),
        start <= buf.len() ==> varint_last(buf, start) <= buf.len(),
    decreases buf.len() - start,
{
    if 0 <= start < buf.len() && buf[start] >= 128 {
        lemma_varint_last_range(buf, start + 1);
    }
}

/// Reads a varint at `*offset` and moves `*offset` past the bytes that were read.
pub fn read_varint(buf: &[u8], offset: &mut usize) -> (r: Result<u64, WireError>)
    ensures
        r == varint_at(buf@, *old(offset) as int).0,
        *final(offset) == varint_at(buf@, *old(offset) as int).1,
{
    let ghost start = *offset as int;
    let mut val: u64 = 0;
    let mut shift: u32 = 0;
    let mut count: u32 = 0;
    assert(pow128(0) == 1);
    while *offset < buf.len()
        invariant
            0 <= start,
            start == *old(offset),
            *offset == start + count,
            count > 0 ==> *offset <= buf@.len(),
            count <= 9,
            shift == 7 * count,
            val == base128(buf@.subrange(start, start + count)) || (count == 0 && val == 0),
            val < pow128(count as nat),
            forall|j: int| start <= j < start + count ==> buf@[j] >= 128,
        decreases buf@.len() - *offset,
    {
        let b: u8 = buf[*offset];
        let ghost sofar = buf@.subrange(start, start + count);
        *offset = *offset + 1;
        let x: u64 = (b & 0x7F) as u64;
        proof {
            assert(b & 0x7F == b % 128) by (bit_vector);
            lemma_or_adds(val, x, count as nat, shift);
            lemma_base128_push(sofar, b);
            assert(sofar.push(b) == buf@.subrange(start, start + count + 1));
            lemma_base128_bound(sofar);
            lemma_base128_bound(sofar.push(b));
            lemma_pow128_values();
            assert(sofar.len() == count);
            if count == 0 {
                assert(sofar == Seq::<u8>::empty());
            }
        }
        val = val | (x << shift);
        proof {
            assert((b & 0x80 == 0) == (b < 128)) by (bit_vector);
            assert(val == base128(sofar.push(b)) % 0x1_0000_0000_0000_0000);
            lemma_varint_last_skip(buf@, start, start + count);
        }
        if (b & 0x80) == 0 {
            return Ok(val);
        }
        proof {
            lemma_varint_last_skip(buf@, start, start + count + 1);
            lemma_varint_last_range(buf@, start + count + 1);
        }
        shift = shift + 7;
        count = count + 1;
        if shift >= 64 {
            return Err(WireError::VarintOverflow);
        }
    }
    proof {
        if count > 0 {
            lemma_varint_last_skip(buf@, start, start + count);
        }
    }
    Err(WireError::UnexpectedEof)
}

// ---------------------------------------------------------------------------
// Fields
// ---------------------------------------------------------------------------

/// The field of `len` data bytes at `at`, where the buffer holds that many.
pub open spec fn fixed_field_at(
    buf: Seq<u8>,
    at: int,
    len: int,
    tag: u32,
    wire_type: u8,
) -> (Result<Option<FieldModel>, WireError>, int) {
    if at + len > buf.len() {
        (Err(WireError::UnexpectedEof), at)
    } else {
        (
            Ok(Some(FieldModel { tag, wire_type, varint: 0, data: buf.subrange(at, at + len) })),
            at + len,
        )
    }
}

/// What stands at `start` as a field, and the position after the bytes that
/// were read. The key holds the tag above a three-bit wire type; tags are taken
/// modulo two to the thirty-second.
pub open spec fn field_at(buf: Seq<u8>, start: int) -> (
    Result<Option<FieldModel>, WireError>,
    int,
) {
    if start >= buf.len() {
        (Ok(None), start)
    } else {
        match varint_at(buf, start) {
            (Err(e), next) => (Err(e), next),
            (Ok(key), at) => {
                let tag = (key as int / 8 % 0x1_0000_0000) as u32;
                let wire_type = (key as int % 8) as u8;
                if wire_type == 0 {
                    match varint_at(buf, at) {
                        (Err(e), next) => (Err(e), next),
                        (Ok(varint), next) => (
                            Ok(
                                Some(
                                    FieldModel {
                                        tag,
                                        wire_type,
                                        varint,
                                        data: buf.subrange(at, next),
                                    },
                                ),
                            ),
                            next,
                        ),
                    }
                } else if wire_type == 1 {
                    fixed_field_at(buf, at, 8, tag, wire_type)
                } else if wire_type == 2 {
                    match varint_at(buf, at) {
                        (Err(e), next) => (Err(e), next),
                        (Ok(len), next) => fixed_field_at(buf, next, len as int, tag, wire_type),
                    }
                } else if wire_type == 5 {
                    fixed_field_at(buf, at, 4, tag, wire_type)
                } else {
                    (Err(WireError::UnknownWireType(wire_type)), at)
                }
            },
        }
    }
}

/// A varint that was read ends inside the buffer, past its first byte; one that
/// was not leaves the position where the buffer still holds it.
pub proof fn lemma_varint_at_range(buf: Seq<u8>, start: int)
    requires
        0 <= start,
    ensures
        start <= varint_at(buf, start).1,
        start <= buf.len() ==> varint_at(buf, start).1 <= buf.len(),
        varint_at(buf, start).0 is Ok ==> start < varint_at(buf, start).1 <= buf.len(),
{
    lemma_varint_last_range(buf, start);
}

/// Reading a field never leaves the buffer, and a field that was read takes at
/// least one byte.
pub proof fn law_field_at_range(buf: Seq<u8>, start: int)
    requires
        0 <= start <= buf.len(),
    ensures
        start <= field_at(buf, start).1 <= buf.len(),
        field_at(buf, start).0 matches Ok(Some(f)) ==> start < field_at(buf, start).1 && f.data.len()
            <= buf.len() - start,
        (field_at(buf, start).0 matches Ok(None)) <==> start == buf.len(),
{
    lemma_varint_at_range(buf, start);
    if start < buf.len() {
        lemma_varint_at_range(buf, varint_at(buf, start).1);
    }
}

/// The data bytes `at..at + len` as a field.
fn fixed_field<'a>(buf: &'a [u8], offset: &mut usize, len: u64, tag: u32, wire_type: u8) -> (r:
    Result<Option<WireField<'a>>, WireError>)
    requires
        *old(offset) <= buf@.len(),
    ensures
        *final(offset) == fixed_field_at(buf@, *old(offset) as int, len as int, tag, wire_type).1,
        match r {
            Ok(Some(f)) => fixed_field_at(
                buf@,
                *old(offset) as int,
                len as int,
                tag,
                wire_type,
            ).0 == Ok::<Option<FieldModel>, WireError>(Some(f@)),
            Ok(None) => false,
            Err(e) => fixed_field_at(buf@, *old(offset) as int, len as int, tag, wire_type).0
                == Err::<Option<FieldModel>, WireError>(e),
        },
{
    let at: usize = *offset;
    if len > (buf.len() - at) as u64 {
        return Err(WireError::UnexpectedEof);
    }
    let end: usize = at + len as usize;
    let data = slice_subrange(buf, at, end);
    *offset = end;
    Ok(Some(WireField { tag, wire_type, varint: 0, data }))
}

/// Reads the field at `*offset` and moves `*offset` past the bytes that were
/// read. A length beyond the end of the buffer, however large, is
/// `UnexpectedEof`.
pub fn next_wire_field<'a>(buf: &'a [u8], offset: &mut usize) -> (r: Result<
    Option<WireField<'a>>,
    WireError,
>)
    ensures
        *final(offset) == field_at(buf@, *old(offset) as int).1,
        match r {
            Ok(Some(f)) => field_at(buf@, *old(offset) as int).0 == Ok::<
                Option<FieldModel>,
                WireError,
            >(Some(f@)),
            Ok(None) => field_at(buf@, *old(offset) as int).0 == Ok::<
                Option<FieldModel>,
                WireError,
            >(None),
            Err(e) => field_at(buf@, *old(offset) as int).0 == Err::<Option<FieldModel>, WireError>(
                e,
            ),
        },
{
    if *offset >= buf.len() {
        return Ok(None);
    }
    proof {
        lemma_varint_at_range(buf@, *offset as int);
    }
    let key: u64 = match read_varint(buf, offset) {
        Ok(key) => key,
        Err(e) => {
            return Err(e);
        },
    };
    let tag: u32 = ((key >> 3) % 0x1_0000_0000) as u32;
    let wire_type: u8 = (key & 0x07) as u8;
    proof {
        assert(key >> 3 == key / 8) by (bit_vector);
        assert(key & 0x07 == key % 8) by (bit_vector);
        lemma_varint_at_range(buf@, *offset as int);
    }
    match wire_type {
        0 => {
            let start: usize = *offset;
            match read_varint(buf, offset) {
                Ok(varint) => {
                    let data = slice_subrange(buf, start, *offset);
                    Ok(Some(WireField { tag, wire_type, varint, data }))
                },
                Err(e) => Err(e),
            }
        },
        1 => fixed_field(buf, offset, 8, tag, wire_type),
        2 => match read_varint(buf, offset) {
            Ok(len) => fixed_field(buf, offset, len, tag, wire_type),
            Err(e) => Err(e),
        },
        5 => fixed_field(buf, offset, 4, tag, wire_type),
        _ => Err(WireError::UnknownWireType(wire_type)),
    }
}

/// The fields of `buf` from `start` to its end, or the first error.
pub open spec fn fields_from(buf: Seq<u8>, start: int) -> Result<Seq<FieldModel>, WireError>
    decreases buf.len() - start,
{
    if start < 0 || start >= buf.len() {
        Ok(seq![])
    } else {
        match field_at(buf, start) {
            (Err(e), next) => Err(e),
            (Ok(None), next) => Ok(seq![]),
            (Ok(Some(f)), next) => if next <= start {
                Ok(seq![f])
            } else {
                match fields_from(buf, next) {
                    Ok(rest) => Ok(seq![f] + rest),
                    Err(e) => Err(e),
                }
            },
        }
    }
}

/// The fields of `buf`, or the first error.
pub open spec fn wire_fields(buf: Seq<u8>) -> Result<Seq<FieldModel>, WireError> {
    fields_from(buf, 0)
}

/// Reads all fields of `buf`.
pub fn parse_wire_fields<'a>(buf: &'a [u8]) -> (r: Result<Vec<WireField<'a>>, WireError>)
    ensures
        match r {
            Ok(fields) => wire_fields(buf@) == Ok::<Seq<FieldModel>, WireError>(
                field_models(fields@),
            ),
            Err(e) => wire_fields(buf@) == Err::<Seq<FieldModel>, WireError>(e),
        },
{
    let mut offset: usize = 0;
    let mut fields: Vec<WireField<'a>> = Vec::new();
    let n: usize = buf.len();
    assert(field_models(fields@) == Seq::<FieldModel>::empty());
    while offset < n
        invariant
            n == buf@.len(),
            offset <= n,
            match fields_from(buf@, offset as int) {
                Ok(rest) => wire_fields(buf@) == Ok::<Seq<FieldModel>, WireError>(
                    field_models(fields@) + rest,
                ),
                Err(e) => wire_fields(buf@) == Err::<Seq<FieldModel>, WireError>(e),
            },
        decreases n - offset,
    {
        proof {
            law_field_at_range(buf@, offset as int);
        }
        let ghost before = fields@;
        let ghost at = offset as int;
        match next_wire_field(buf, &mut offset) {
            Ok(Some(field)) => {
                fields.push(field);
                proof {
                    assert(field_models(fields@) == field_models(before).push(field@));
                    if let Ok(rest) = fields_from(buf@, offset as int) {
                        assert(field_models(before) + (seq![field@] + rest) == field_models(fields@)
                            + rest);
                    }
                }
            },
            Ok(None) => {},
            Err(e) => {
                return Err(e);
            },
        }
    }
    assert(field_models(fields@) + Seq::<FieldModel>::empty() == field_models(fields@));
    Ok(fields)
}

// ---------------------------------------------------------------------------
// What a reader makes of what a writer wrote
// ---------------------------------------------------------------------------

/// The shortest varint that denotes `v`.
pub open spec fn varint_bytes(v: nat) -> Seq<u8>
    decreases v,
{
    if v < 128 {
        seq![v as u8]
    } else {
        seq![(v % 128 + 128) as u8] + varint_bytes(v / 128)
    }
}

/// The key of a field.
pub open spec fn key_bytes(tag: u32, wire_type: u8) -> Seq<u8> {
    varint_bytes((tag * 8 + wire_type) as nat)
}

/// A varint field.
pub open spec fn varint_field_bytes(tag: u32, value: u64) -> Seq<u8> {
    key_bytes(tag, 0) + varint_bytes(value as nat)
}

/// A length-delimited field.
pub open spec fn bytes_field_bytes(tag: u32, data: Seq<u8>) -> Seq<u8> {
    key_bytes(tag, 2) + varint_bytes(data.len()) + data
}

proof fn lemma_varint_bytes(v: nat, k: nat)
    requires
        v < pow128(k),
        k > 0,
    ensures
        0 < varint_bytes(v).len() <= k,
        base128(varint_bytes(v)) == v,
        varint_bytes(v).last() < 128,
        forall|i: int| 0 <= i < varint_bytes(v).len() - 1 ==> varint_bytes(v)[i] >= 128,
    decreases v,
{
    reveal_with_fuel(base128, 2);
    if v < 128 {
        assert(varint_bytes(v).drop_first() == Seq::<u8>::empty());
    } else {
        if k == 1 {
            assert(pow128(1) == 128) by {
                reveal_with_fuel(pow128, 2);
            }
        }
        lemma_varint_bytes(v / 128, (k - 1) as nat);
        assert(varint_bytes(v).drop_first() == varint_bytes(v / 128));
        assert(varint_bytes(v)[0] % 128 == v % 128);
    }
}

/// Reading a varint gives back the number that was written, and stops after it.
pub proof fn law_varint_round_trip(before: Seq<u8>, v: u64, after: Seq<u8>)
    ensures
        varint_at(before + varint_bytes(v as nat) + after, before.len() as int) == (
            Ok::<u64, WireError>(v),
            (before.len() + varint_bytes(v as nat).len()) as int,
        ),
{
    let s = varint_bytes(v as nat);
    let buf = before + s + after;
    let start = before.len() as int;
    lemma_pow128_values();
    assert(pow128(10) == 128 * pow128(9));
    lemma_varint_bytes(v as nat, 10);
    let last = start + s.len() - 1;
    assert forall|j: int| start <= j < last implies buf[j] >= 128 by {
        assert(buf[j] == s[j - start]);
    }
    assert(buf[last] == s.last());
    lemma_varint_last_skip(buf, start, last);
    assert(buf.subrange(start, last + 1) == s);
}

/// A varint field is read back as it was written.
pub proof fn law_varint_field_round_trip(before: Seq<u8>, tag: u32, value: u64, after: Seq<u8>)
    ensures
        field_at(before + varint_field_bytes(tag, value) + after, before.len() as int) == (
            Ok::<Option<FieldModel>, WireError>(
                Some(
                    FieldModel {
                        tag,
                        wire_type: 0,
                        varint: value,
                        data: varint_bytes(value as nat),
                    },
                ),
            ),
            (before.len() + varint_field_bytes(tag, value).len()) as int,
        ),
{
    let key = key_bytes(tag, 0);
    let body = varint_bytes(value as nat);
    let buf = before + varint_field_bytes(tag, value) + after;
    let k: u64 = (tag * 8 + 0) as u64;
    assert(buf == before + varint_bytes(k as nat) + (body + after));
    law_varint_round_trip(before, k, body + after);
    assert(buf == (before + key) + body + after);
    law_varint_round_trip(before + key, value, after);
    let at = (before.len() + key.len()) as int;
    assert(buf.subrange(at, at + body.len()) == body);
    lemma_varint_at_range(buf, before.len() as int);
    assert(k as int / 8 % 0x1_0000_0000 == tag);
}

/// A length-delimited field is read back as it was written.
pub proof fn law_bytes_field_round_trip(before: Seq<u8>, tag: u32, data: Seq<u8>, after: Seq<u8>)
    requires
        data.len() <= u64::MAX,
    ensures
        field_at(before + bytes_field_bytes(tag, data) + after, before.len() as int) == (
            Ok::<Option<FieldModel>, WireError>(
                Some(FieldModel { tag, wire_type: 2, varint: 0, data }),
            ),
            (before.len() + bytes_field_bytes(tag, data).len()) as int,
        ),
{
    let key = key_bytes(tag, 2);
    let len = varint_bytes(data.len());
    let buf = before + bytes_field_bytes(tag, data) + after;
    let k: u64 = (tag * 8 + 2) as u64;
    assert(buf == before + varint_bytes(k as nat) + (len + data + after));
    law_varint_round_trip(before, k, len + data + after);
    assert(buf == (before + key) + len + (data + after));
    law_varint_round_trip(before + key, data.len() as u64, data + after);
    let at = (before.len() + key.len() + len.len()) as int;
    assert(buf.subrange(at, at + data.len()) == data);
    lemma_varint_at_range(buf, before.len() as int);
    assert(k as int / 8 % 0x1_0000_0000 == tag);
}

/// A field of eight bytes, and one of four, is read back as it was written.
pub proof fn law_fixed_field_round_trip(before: Seq<u8>, tag: u32, data: Seq<u8>, after: Seq<u8>)
    requires
        data.len() == 8 || data.len() == 4,
    ensures
        ({
            let wire_type: u8 = if data.len() == 8 {
                1
            } else {
                5
            };
            field_at(before + key_bytes(tag, wire_type) + data + after, before.len() as int) == (
                Ok::<Option<FieldModel>, WireError>(
                    Some(FieldModel { tag, wire_type, varint: 0, data }),
                ),
                (before.len() + key_bytes(tag, wire_type).len() + data.len()) as int,
            )
        }),
{
    let wire_type: u8 = if data.len() == 8 {
        1
    } else {
        5
    };
    let key = key_bytes(tag, wire_type);
    let buf = before + key + data + after;
    let k: u64 = (tag * 8 + wire_type) as u64;
    assert(buf == before + varint_bytes(k as nat) + (data + after));
    law_varint_round_trip(before, k, data + after);
    let at = (before.len() + key.len()) as int;
    assert(buf.subrange(at, at + data.len()) == data);
    lemma_varint_at_range(buf, before.len() as int);
    assert(k as int / 8 % 0x1_0000_0000 == tag);
}

proof fn lemma_varint_last_prefix(a: Seq<u8>, b: Seq<u8>, start: int)
    requires
        0 <= start < a.len(),
    ensures
        varint_last(a, start) < a.len() ==> varint_last(a + b, start) == varint_last(a, start),
        varint_last(a, start) >= a.len() ==> varint_last(a + b, start) >= a.len(),
    decreases a.len() - start,
{
    assert((a + b)[start] == a[start]);
    if a[start] >= 128 {
        if start + 1 < a.len() {
            lemma_varint_last_prefix(a, b, start + 1);
        } else {
            lemma_varint_last_range(a + b, start + 1);
        }
    }
}

proof fn lemma_varint_at_prefix(a: Seq<u8>, b: Seq<u8>, start: int)
    requires
        0 <= start < a.len(),
        varint_at(a, start).0 is Ok,
    ensures
        varint_at(a + b, start) == varint_at(a, start),
{
    lemma_varint_last_prefix(a, b, start);
    let last = varint_last(a, start);
    lemma_varint_last_range(a, start);
    assert((a + b).subrange(start, last + 1) == a.subrange(start, last + 1));
}

proof fn lemma_field_at_prefix(a: Seq<u8>, b: Seq<u8>, start: int)
    requires
        0 <= start < a.len(),
        field_at(a, start).0 is Ok,
    ensures
        field_at(a + b, start) == field_at(a, start),
{
    law_field_at_range(a, start);
    lemma_varint_at_prefix(a, b, start);
    lemma_varint_at_range(a, start);
    let at = varint_at(a, start).1;
    let next = field_at(a, start).1;
    let wire_type = (varint_at(a, start).0->Ok_0 as int % 8) as u8;
    if wire_type == 0 || wire_type == 2 {
        lemma_varint_last_range(a, at);
        assert(varint_at(a, at).0 is Ok);
        assert(at < a.len());
        lemma_varint_at_prefix(a, b, at);
        lemma_varint_at_range(a, at);
        if wire_type == 2 {
            let body = varint_at(a, at).1;
            assert((a + b).subrange(body, next) == a.subrange(body, next));
        }
    }
    assert((a + b).subrange(at, next) == a.subrange(at, next));
}

proof fn lemma_fields_shift(a: Seq<u8>, b: Seq<u8>, start: int)
    requires
        0 <= start <= b.len(),
    ensures
        fields_from(a + b, a.len() + start) == fields_from(b, start),
    decreases b.len() - start,
{
    if start < b.len() {
        lemma_field_shift(a, b, start);
        law_field_at_range(b, start);
        if let (Ok(Some(f)), next) = field_at(b, start) {
            lemma_fields_shift(a, b, next);
        }
    }
}

proof fn lemma_varint_last_shift(a: Seq<u8>, b: Seq<u8>, start: int)
    requires
        0 <= start,
    ensures
        varint_last(a + b, a.len() + start) == a.len() + varint_last(b, start),
    decreases b.len() - start,
{
    if start < b.len() {
        assert((a + b)[a.len() + start] == b[start]);
        if b[start] >= 128 {
            lemma_varint_last_shift(a, b, start + 1);
        }
    }
}

proof fn lemma_varint_shift(a: Seq<u8>, b: Seq<u8>, start: int)
    requires
        0 <= start,
    ensures
        varint_at(a + b, a.len() + start) == (
            varint_at(b, start).0,
            a.len() + varint_at(b, start).1,
        ),
{
    lemma_varint_last_shift(a, b, start);
    lemma_varint_last_range(b, start);
    let last = varint_last(b, start);
    if last < b.len() {
        assert((a + b).subrange(a.len() + start, a.len() + last + 1) == b.subrange(start, last + 1));
    }
}

proof fn lemma_field_shift(a: Seq<u8>, b: Seq<u8>, start: int)
    requires
        0 <= start < b.len(),
    ensures
        field_at(a + b, a.len() + start) == (field_at(b, start).0, a.len() + field_at(b, start).1),
{
    law_field_at_range(b, start);
    lemma_varint_shift(a, b, start);
    lemma_varint_at_range(b, start);
    if varint_at(b, start).0 is Ok {
        let at = varint_at(b, start).1;
        let next = field_at(b, start).1;
        lemma_varint_shift(a, b, at);
        lemma_varint_at_range(b, at);
        let body = varint_at(b, at).1;
        if at <= next {
            assert((a + b).subrange(a.len() + at, a.len() + next) == b.subrange(at, next));
        }
        if body <= next {
            assert((a + b).subrange(a.len() + body, a.len() + next) == b.subrange(body, next));
        }
    }
}

proof fn lemma_fields_concat_from(a: Seq<u8>, b: Seq<u8>, start: int)
    requires
        0 <= start <= a.len(),
        fields_from(a, start) is Ok,
    ensures
        fields_from(a + b, start) == (match wire_fields(b) {
            Ok(rest) => Ok::<Seq<FieldModel>, WireError>(fields_from(a, start)->Ok_0 + rest),
            Err(e) => Err(e),
        }),
    decreases a.len() - start,
{
    if start == a.len() {
        lemma_fields_shift(a, b, 0);
        if let Ok(rest) = wire_fields(b) {
            assert(Seq::<FieldModel>::empty() + rest == rest);
        }
    } else {
        law_field_at_range(a, start);
        lemma_field_at_prefix(a, b, start);
        if let (Ok(Some(f)), next) = field_at(a, start) {
            lemma_fields_concat_from(a, b, next);
            if let Ok(rest) = wire_fields(b) {
                let mine = fields_from(a, next)->Ok_0;
                assert(seq![f] + (mine + rest) == (seq![f] + mine) + rest);
            }
        }
    }
}

/// Reading two messages one after the other gives the fields of the first, then
/// those of the second; an error in the second is the error of the whole.
pub proof fn law_fields_concat(a: Seq<u8>, b: Seq<u8>)
    requires
        wire_fields(a) is Ok,
    ensures
        wire_fields(a + b) == (match wire_fields(b) {
            Ok(rest) => Ok::<Seq<FieldModel>, WireError>(wire_fields(a)->Ok_0 + rest),
            Err(e) => Err(e),
        }),
{
    lemma_fields_concat_from(a, b, 0);
}

/// A field as a writer has it.
pub ghost enum WrittenField {
    Varint { tag: u32, value: u64 },
    Bytes { tag: u32, data: Seq<u8> },
    Fixed64 { tag: u32, data: Seq<u8> },
    Fixed32 { tag: u32, data: Seq<u8> },
}

impl WrittenField {
    /// The bytes that are written for the field.
    pub open spec fn bytes(self) -> Seq<u8> {
        match self {
            WrittenField::Varint { tag, value } => varint_field_bytes(tag, value),
            WrittenField::Bytes { tag, data } => bytes_field_bytes(tag, data),
            WrittenField::Fixed64 { tag, data } => key_bytes(tag, 1) + data,
            WrittenField::Fixed32 { tag, data } => key_bytes(tag, 5) + data,
        }
    }

    /// The field that a reader should get.
    pub open spec fn model(self) -> FieldModel {
        match self {
            WrittenField::Varint { tag, value } => FieldModel {
                tag,
                wire_type: 0,
                varint: value,
                data: varint_bytes(value as nat),
            },
            WrittenField::Bytes { tag, data } => FieldModel { tag, wire_type: 2, varint: 0, data },
            WrittenField::Fixed64 { tag, data } => FieldModel {
                tag,
                wire_type: 1,
                varint: 0,
                data,
            },
            WrittenField::Fixed32 { tag, data } => FieldModel {
                tag,
                wire_type: 5,
                varint: 0,
                data,
            },
        }
    }

    /// The tag of the field.
    pub open spec fn tag(self) -> u32 {
        match self {
            WrittenField::Varint { tag, .. } => tag,
            WrittenField::Bytes { tag, .. } => tag,
            WrittenField::Fixed64 { tag, .. } => tag,
            WrittenField::Fixed32 { tag, .. } => tag,
        }
    }

    /// Whether the length of the data fits a varint, or is the one that the field
    /// always has.
    pub open spec fn fits(self) -> bool {
        match self {
            WrittenField::Varint { .. } => true,
            WrittenField::Bytes { data, .. } => data.len() <= u64::MAX,
            WrittenField::Fixed64 { data, .. } => data.len() == 8,
            WrittenField::Fixed32 { data, .. } => data.len() == 4,
        }
    }
}

/// The bytes of a message.
pub open spec fn message_bytes(fields: Seq<WrittenField>) -> Seq<u8>
    decreases fields.len(),
{
    if fields.len() == 0 {
        seq![]
    } else {
        fields[0].bytes() + message_bytes(fields.drop_first())
    }
}

/// A message is read back field by field as it was written.
pub proof fn law_message_round_trip(fields: Seq<WrittenField>)
    requires
        forall|i: int| 0 <= i < fields.len() ==> (#[trigger] fields[i]).fits(),
    ensures
        wire_fields(message_bytes(fields)) == Ok::<Seq<FieldModel>, WireError>(
            Seq::new(fields.len(), |i: int| fields[i].model()),
        ),
    decreases fields.len(),
{
    let models = Seq::new(fields.len(), |i: int| fields[i].model());
    if fields.len() == 0 {
        assert(models == Seq::<FieldModel>::empty());
    } else {
        let f = fields[0];
        let rest = fields.drop_first();
        assert forall|i: int| 0 <= i < rest.len() implies (#[trigger] rest[i]).fits() by {
            assert(rest[i] == fields[i + 1]);
        }
        law_message_round_trip(rest);
        let none = Seq::<u8>::empty();
        assert(none + f.bytes() + none == f.bytes());
        match f {
            WrittenField::Varint { tag, value } => {
                law_varint_field_round_trip(none, tag, value, none);
            },
            WrittenField::Bytes { tag, data } => {
                law_bytes_field_round_trip(none, tag, data, none);
            },
            WrittenField::Fixed64 { tag, data } => {
                law_fixed_field_round_trip(none, tag, data, none);
            },
            WrittenField::Fixed32 { tag, data } => {
                law_fixed_field_round_trip(none, tag, data, none);
            },
        }
        law_field_at_range(f.bytes(), 0);
        assert(field_at(f.bytes(), 0).0 == Ok::<Option<FieldModel>, WireError>(Some(f.model())));
        assert(f.bytes().len() > 0) by {
            lemma_pow128_values();
            match f {
                WrittenField::Varint { tag, value } => {
                    lemma_varint_bytes((tag * 8 + 0) as nat, 9);
                },
                WrittenField::Bytes { tag, data } => {
                    lemma_varint_bytes((tag * 8 + 2) as nat, 9);
                },
                WrittenField::Fixed64 { tag, data } => {
                    lemma_varint_bytes((tag * 8 + 1) as nat, 9);
                },
                WrittenField::Fixed32 { tag, data } => {
                    lemma_varint_bytes((tag * 8 + 5) as nat, 9);
                },
            }
        }
        assert(fields_from(f.bytes(), f.bytes().len() as int) == Ok::<Seq<FieldModel>, WireError>(
            Seq::<FieldModel>::empty(),
        ));
        assert(seq![f.model()] + Seq::<FieldModel>::empty() == seq![f.model()]);
        law_fields_concat(f.bytes(), message_bytes(rest));
        let rest_models = Seq::new(rest.len(), |i: int| rest[i].model());
        assert(models == seq![f.model()] + rest_models);
    }
}

// ---------------------------------------------------------------------------
// Searching fields
// ---------------------------------------------------------------------------

/// The first answer that `pick` gives among the fields.
pub open spec fn first_pick<T>(
    fields: Seq<FieldModel>,
    pick: spec_fn(FieldModel) -> Option<T>,
) -> Option<T>
    decreases fields.len(),
{
    if fields.len() == 0 {
        None
    } else {
        match pick(fields[0]) {
            Some(t) => Some(t),
            None => first_pick(fields.drop_first(), pick),
        }
    }
}

/// The last answer that `pick` gives among the fields.
pub open spec fn last_pick<T>(
    fields: Seq<FieldModel>,
    pick: spec_fn(FieldModel) -> Option<T>,
) -> Option<T>
    decreases fields.len(),
{
    if fields.len() == 0 {
        None
    } else {
        match pick(fields.last()) {
            Some(t) => Some(t),
            None => last_pick(fields.drop_last(), pick),
        }
    }
}

/// The value of a varint field with the tag.
pub open spec fn varint_of(tag: u32) -> spec_fn(FieldModel) -> Option<u64> {
    |f: FieldModel|
        if f.tag == tag && f.wire_type == 0 {
            Some(f.varint)
        } else {
            None
        }
}

/// The value of the last varint field with the tag, 0 where there is none.
pub open spec fn last_varint(fields: Seq<FieldModel>, tag: u32) -> u64 {
    match last_pick(fields, varint_of(tag)) {
        Some(v) => v,
        None => 0,
    }
}

// ---------------------------------------------------------------------------
// Searching what a writer wrote
// ---------------------------------------------------------------------------

/// Whether all fields can be written.
pub open spec fn all_fit(fields: Seq<WrittenField>) -> bool {
    forall|i: int| 0 <= i < fields.len() ==> (#[trigger] fields[i]).fits()
}

/// Whether no field has the tag.
pub open spec fn lacks_tag(fields: Seq<WrittenField>, tag: u32) -> bool {
    forall|i: int| 0 <= i < fields.len() ==> (#[trigger] fields[i]).tag() != tag
}

/// Whether the field at a position is the only one with its tag.
pub open spec fn is_single(fields: Seq<WrittenField>, i: int) -> bool {
    &&& 0 <= i < fields.len()
    &&& forall|j: int|
        0 <= j < fields.len() && j != i ==> (#[trigger] fields[j]).tag() != fields[i].tag()
}

/// Whether a field was written, as the only one with its tag.
pub open spec fn has_only(fields: Seq<WrittenField>, f: WrittenField) -> bool {
    exists|i: int| #[trigger] is_single(fields, i) && fields[i] == f
}

/// Whether a message gives a count: as the only field with the tag, or, where it
/// is zero, by leaving the field out.
pub open spec fn has_count(fields: Seq<WrittenField>, tag: u32, n: u64) -> bool {
    has_only(fields, WrittenField::Varint { tag, value: n }) || (n == 0 && lacks_tag(fields, tag))
}

/// What a reader gets of written fields.
pub open spec fn written_models(fields: Seq<WrittenField>) -> Seq<FieldModel> {
    Seq::new(fields.len(), |i: int| fields[i].model())
}

/// The field that gives the first answer decides.
pub proof fn lemma_first_pick_at<T>(
    fields: Seq<FieldModel>,
    pick: spec_fn(FieldModel) -> Option<T>,
    i: int,
)
    requires
        0 <= i < fields.len(),
        pick(fields[i]) is Some,
        forall|j: int| 0 <= j < i ==> pick(#[trigger] fields[j]) is None,
    ensures
        first_pick(fields, pick) == pick(fields[i]),
    decreases i,
{
    if i > 0 {
        let rest = fields.drop_first();
        assert(pick(fields[0]) is None);
        assert forall|j: int| 0 <= j < i - 1 implies pick(#[trigger] rest[j]) is None by {
            assert(rest[j] == fields[j + 1]);
        }
        assert(rest[i - 1] == fields[i]);
        lemma_first_pick_at(rest, pick, i - 1);
    }
}

/// Where no field gives an answer, there is none.
pub proof fn lemma_no_pick<T>(fields: Seq<FieldModel>, pick: spec_fn(FieldModel) -> Option<T>)
    requires
        forall|j: int| 0 <= j < fields.len() ==> pick(#[trigger] fields[j]) is None,
    ensures
        first_pick(fields, pick) is None,
        last_pick(fields, pick) is None,
    decreases fields.len(),
{
    if fields.len() > 0 {
        let rest = fields.drop_first();
        assert forall|j: int| 0 <= j < rest.len() implies pick(#[trigger] rest[j]) is None by {
            assert(rest[j] == fields[j + 1]);
        }
        lemma_no_pick(rest, pick);
        let front = fields.drop_last();
        assert forall|j: int| 0 <= j < front.len() implies pick(#[trigger] front[j]) is None by {
            assert(front[j] == fields[j]);
        }
        lemma_no_pick(front, pick);
        assert(pick(fields[0]) is None);
        assert(pick(fields[fields.len() - 1]) is None);
    }
}

/// The field that gives the last answer decides.
pub proof fn lemma_last_pick_at<T>(
    fields: Seq<FieldModel>,
    pick: spec_fn(FieldModel) -> Option<T>,
    i: int,
)
    requires
        0 <= i < fields.len(),
        pick(fields[i]) is Some,
        forall|j: int| i < j < fields.len() ==> pick(#[trigger] fields[j]) is None,
    ensures
        last_pick(fields, pick) == pick(fields[i]),
    decreases fields.len(),
{
    let last = fields.len() - 1;
    if i < last {
        assert(pick(fields[last]) is None);
        lemma_last_pick_at(fields.drop_last(), pick, i);
    }
}

/// A count that was written is read.
pub proof fn law_count_is_read(fields: Seq<WrittenField>, tag: u32, n: u64)
    requires
        all_fit(fields),
        has_count(fields, tag, n),
    ensures
        wire_fields(message_bytes(fields)) == Ok::<Seq<FieldModel>, WireError>(
            written_models(fields),
        ),
        last_varint(written_models(fields), tag) == n,
{
    law_message_round_trip(fields);
    let models = written_models(fields);
    if has_only(fields, WrittenField::Varint { tag, value: n }) {
        let i = choose|i: int| #[trigger]
            is_single(fields, i) && fields[i] == (WrittenField::Varint { tag, value: n });
        assert forall|j: int| i < j < models.len() implies varint_of(tag)(
            #[trigger] models[j],
        ) is None by {
            assert(fields[j].tag() != tag);
        }
        lemma_last_pick_at(models, varint_of(tag), i);
    } else {
        assert forall|j: int| 0 <= j < models.len() implies varint_of(tag)(
            #[trigger] models[j],
        ) is None by {
            assert(fields[j].tag() != tag);
        }
        lemma_no_pick(models, varint_of(tag));
    }
}

/// Of two fields with one tag the later one counts, also where the first is a
/// larger number.
pub proof fn law_later_count_is_read(
    fields: Seq<WrittenField>,
    more: Seq<WrittenField>,
    tag: u32,
    n: u64,
)
    requires
        has_only(more, WrittenField::Varint { tag, value: n }),
    ensures
        last_varint(written_models(fields + more), tag) == n,
{
    let i = choose|i: int| #[trigger]
        is_single(more, i) && more[i] == (WrittenField::Varint { tag, value: n });
    let all = fields + more;
    let models = written_models(all);
    assert(all[fields.len() + i] == more[i]);
    assert forall|j: int| fields.len() + i < j < models.len() implies varint_of(tag)(
        #[trigger] models[j],
    ) is None by {
        assert(all[j] == more[j - fields.len()]);
        assert(more[j - fields.len()].tag() != tag);
    }
    lemma_last_pick_at(models, varint_of(tag), fields.len() + i);
}

proof fn lemma_cut_varint(before: Seq<u8>, v: u64, n: int)
    requires
        0 <= n < varint_bytes(v as nat).len(),
    ensures
        varint_at(before + varint_bytes(v as nat).take(n), before.len() as int).0 == Err::<
            u64,
            WireError,
        >(WireError::UnexpectedEof),
{
    let s = varint_bytes(v as nat);
    let buf = before + s.take(n);
    lemma_pow128_values();
    assert(pow128(10) == 128 * pow128(9));
    lemma_varint_bytes(v as nat, 10);
    assert forall|j: int| before.len() <= j < before.len() + n implies buf[j] >= 128 by {
        assert(buf[j] == s[j - before.len()]);
    }
    lemma_varint_last_skip(buf, before.len() as int, before.len() + n);
}

spec fn wire_type_of(f: WrittenField) -> u8 {
    match f {
        WrittenField::Varint { .. } => 0,
        WrittenField::Bytes { .. } => 2,
        WrittenField::Fixed64 { .. } => 1,
        WrittenField::Fixed32 { .. } => 5,
    }
}

proof fn lemma_key_is_read(tag: u32, wire_type: u8, after: Seq<u8>)
    requires
        wire_type < 8,
    ensures
        varint_at(key_bytes(tag, wire_type) + after, 0) == (
            Ok::<u64, WireError>((tag * 8 + wire_type) as u64),
            key_bytes(tag, wire_type).len() as int,
        ),
        key_bytes(tag, wire_type).len() > 0,
{
    let none = Seq::<u8>::empty();
    let k: u64 = (tag * 8 + wire_type) as u64;
    assert(key_bytes(tag, wire_type) + after == none + varint_bytes(k as nat) + after);
    law_varint_round_trip(none, k, after);
    lemma_varint_at_range(key_bytes(tag, wire_type) + after, 0);
}

proof fn lemma_cut_body(f: WrittenField, body: Seq<u8>)
    requires
        f.fits(),
        body.len() < f.bytes().len() - key_bytes(f.tag(), wire_type_of(f)).len(),
        key_bytes(f.tag(), wire_type_of(f)) + body == f.bytes().take(
            (key_bytes(f.tag(), wire_type_of(f)).len() + body.len()) as int,
        ),
    ensures
        field_at(key_bytes(f.tag(), wire_type_of(f)) + body, 0).0 == Err::<
            Option<FieldModel>,
            WireError,
        >(WireError::UnexpectedEof),
{
    let key = key_bytes(f.tag(), wire_type_of(f));
    let cut = key + body;
    lemma_key_is_read(f.tag(), wire_type_of(f), body);
    assert forall|i: int| 0 <= i < body.len() implies body[i] == f.bytes()[key.len() + i] by {
        assert(cut[key.len() + i] == body[i]);
    }
    match f {
        WrittenField::Varint { tag, value } => {
            assert(body == varint_bytes(value as nat).take(body.len() as int));
            lemma_cut_varint(key, value, body.len() as int);
        },
        WrittenField::Bytes { tag, data } => {
            let len = varint_bytes(data.len());
            if body.len() < len.len() {
                assert(body == varint_bytes(data.len() as u64 as nat).take(body.len() as int));
                lemma_cut_varint(key, data.len() as u64, body.len() as int);
            } else {
                let rest = body.skip(len.len() as int);
                assert(cut == key + len + rest);
                law_varint_round_trip(key, data.len() as u64, rest);
            }
        },
        _ => {},
    }
}

proof fn lemma_cut_field(f: WrittenField, n: int)
    requires
        f.fits(),
        0 < n < f.bytes().len(),
    ensures
        field_at(f.bytes().take(n), 0).0 == Err::<Option<FieldModel>, WireError>(
            WireError::UnexpectedEof,
        ),
{
    let key = key_bytes(f.tag(), wire_type_of(f));
    let cut = f.bytes().take(n);
    if n < key.len() {
        let k: u64 = (f.tag() * 8 + wire_type_of(f)) as u64;
        assert(cut == Seq::<u8>::empty() + varint_bytes(k as nat).take(n));
        lemma_cut_varint(Seq::<u8>::empty(), k, n);
    } else {
        let body = cut.skip(key.len() as int);
        assert(cut == key + body);
        lemma_cut_body(f, body);
    }
}

/// A message that ends within a field is an error, whatever stands before that
/// field.
pub proof fn law_cut_message_is_an_error(fields: Seq<WrittenField>, f: WrittenField, n: int)
    requires
        all_fit(fields),
        f.fits(),
        0 < n < f.bytes().len(),
    ensures
        wire_fields(message_bytes(fields) + f.bytes().take(n)) == Err::<
            Seq<FieldModel>,
            WireError,
        >(WireError::UnexpectedEof),
{
    law_message_round_trip(fields);
    law_fields_concat(message_bytes(fields), f.bytes().take(n));
    lemma_cut_field(f, n);
}

/// A field of a wire type that is not in use is an error.
pub proof fn law_unknown_wire_type_is_an_error(
    fields: Seq<WrittenField>,
    tag: u32,
    wire_type: u8,
    after: Seq<u8>,
)
    requires
        all_fit(fields),
        wire_type == 3 || wire_type == 4 || wire_type == 6 || wire_type == 7,
    ensures
        wire_fields(message_bytes(fields) + (key_bytes(tag, wire_type) + after)) == Err::<
            Seq<FieldModel>,
            WireError,
        >(WireError::UnknownWireType(wire_type)),
{
    law_message_round_trip(fields);
    law_fields_concat(message_bytes(fields), key_bytes(tag, wire_type) + after);
    lemma_unknown_field(tag, wire_type, after);
}

proof fn lemma_unknown_field(tag: u32, wire_type: u8, after: Seq<u8>)
    requires
        wire_type == 3 || wire_type == 4 || wire_type == 6 || wire_type == 7,
    ensures
        wire_fields(key_bytes(tag, wire_type) + after) == Err::<Seq<FieldModel>, WireError>(
            WireError::UnknownWireType(wire_type),
        ),
{
    lemma_key_is_read(tag, wire_type, after);
}

/// A number of more than ten bytes is an error.
pub proof fn law_long_varint_is_an_error(before: Seq<u8>, long: Seq<u8>)
    requires
        long.len() >= 10,
        forall|i: int| 0 <= i < 10 ==> #[trigger] long[i] >= 128,
    ensures
        varint_at(before + long, before.len() as int).0 == Err::<u64, WireError>(
            WireError::VarintOverflow,
        ),
{
    let buf = before + long;
    let start = before.len() as int;
    assert forall|j: int| start <= j < start + 10 implies buf[j] >= 128 by {
        assert(buf[j] == long[j - start]);
    }
    lemma_varint_last_skip(buf, start, start + 10);
    lemma_varint_last_range(buf, start + 10);
}

} // verus!
