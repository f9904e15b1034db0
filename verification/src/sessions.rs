//! Gemini / Antigravity sessions: what a conversation database or a legacy JSON
//! file shows in the session list, its messages, and what deleting it removes.

use crate::antigravity;
use crate::antigravity::{last_varint_of, signed64_of};
use crate::files;
use crate::files::{pick_unique_files, DirListing};
use crate::json;
use crate::json::{copy_json, parse_json, Json};
use crate::paths;
use crate::paths::JoinedPath;
use crate::tags;
use crate::text;
use crate::wire;
use crate::wire::{parse_wire_fields, WireField};
use vstd::hash_set::StringHashSet;
use vstd::prelude::*;
use vstd::string::*;

verus! {

// ---------------------------------------------------------------------------
// User prompts
// ---------------------------------------------------------------------------

/// What the user wrote: what stands between the first `<USER_REQUEST>` and the
/// first `</USER_REQUEST>` behind it, where a prompt has them.
pub open spec fn requested(s: Seq<char>) -> Seq<char> {
    let t = text::trimmed(s);
    match text::cut(t, "<USER_REQUEST>"@).1 {
        Some(after) => text::trimmed(text::cut(after, "</USER_REQUEST>"@).0),
        None => t,
    }
}

/// The prompt without the tags that a program puts around it. Where there are
/// none, it is the prompt without the tagged blocks that a program adds.
pub open spec fn cleaned_request(s: Seq<char>) -> Seq<char> {
    if text::has_text(s, "<USER_REQUEST>"@) {
        requested(s)
    } else {
        text::trimmed(tags::untagged(text::trimmed(s)))
    }
}

/// Takes a prompt out of the `<USER_REQUEST>` tags that wrap it, as the user
/// wrote it. Takes tagged blocks out of a prompt that is not wrapped.
pub fn clean_user_request(s: &str) -> (r: String)
    ensures
        r@ == cleaned_request(s@),
        r@ == text::trimmed(r@),
        text::has_text(s@, "<USER_REQUEST>"@) ==> r@ == requested(s@) && !text::has_text(
            r@,
            "</USER_REQUEST>"@,
        ),
        !text::has_text(s@, "<USER_REQUEST>"@) ==> !text::has_text(r@, "<ADDITIONAL_METADATA>"@)
            && !text::has_text(r@, "</ADDITIONAL_METADATA>"@),
{
    let t = text::trim_text(s);
    proof {
        lemma_trimmed_wraps(s@);
    }
    match text::cut_of(t, "<USER_REQUEST>").1 {
        Some(after) => {
            let inner = text::cut_of(after, "</USER_REQUEST>").0;
            proof {
                reveal_strlit("</USER_REQUEST>");
                text::lemma_cut_lacks(after@, "</USER_REQUEST>"@);
                text::lemma_trimmed_lacks(inner@, "</USER_REQUEST>"@);
                text::lemma_trimmed_ends(inner@);
            }
            text::trim_text(inner).to_owned()
        },
        None => {
            let bare = tags::untag(t);
            proof {
                tags::law_untagged(t@);
                text::lemma_trimmed_lacks(bare@, "<ADDITIONAL_METADATA>"@);
                text::lemma_trimmed_lacks(bare@, "</ADDITIONAL_METADATA>"@);
                text::lemma_trimmed_ends(bare@);
            }
            text::trim_text(bare.as_str()).to_owned()
        },
    }
}

proof fn lemma_trimmed_wraps(s: Seq<char>)
    ensures
        text::has_text(text::trimmed(s), "<USER_REQUEST>"@) == text::has_text(
            s,
            "<USER_REQUEST>"@,
        ),
{
    reveal_strlit("<USER_REQUEST>");
    if text::has_text(s, "<USER_REQUEST>"@) {
        text::lemma_trimmed_has(s, "<USER_REQUEST>"@);
    } else {
        text::lemma_trimmed_lacks(s, "<USER_REQUEST>"@);
    }
}

/// A prompt that a program wraps is what the user wrote, whatever tags the user
/// wrote in it and whatever the program adds behind it.
pub proof fn law_wrapped_prompt_stays(prompt: Seq<char>, rest: Seq<char>)
    requires
        !text::has_text(prompt, "</USER_REQUEST>"@),
    ensures
        cleaned_request("<USER_REQUEST>"@ + prompt + "</USER_REQUEST>"@ + rest) == text::trimmed(
            prompt,
        ),
{
    reveal_strlit("<USER_REQUEST>");
    reveal_strlit("</USER_REQUEST>");
    let open = "<USER_REQUEST>"@;
    let close = "</USER_REQUEST>"@;
    let s = open + prompt + close + rest;
    let n = open.len() + prompt.len() + close.len();
    let t = text::trimmed(s);
    text::lemma_trimmed_keeps(s, n as int);
    assert forall|i: int| 0 <= i < n implies t[i] == s[i] by {
        assert(t.take(n as int)[i] == s.take(n as int)[i]);
    }
    assert(t.subrange(0, open.len() as int) =~= open);
    assert(text::occurs_at(t, open, 0));
    assert(text::find_text(t, open) == Some(0int));
    lemma_trimmed_wraps(s);
    let after = t.skip(open.len() as int);
    assert(text::cut(t, open).1 == Some(after));
    let p = prompt.len() as int;
    assert(after.subrange(p, p + close.len()) =~= close);
    assert(text::occurs_at(after, close, p));
    text::lemma_find_from(prompt, close, 0);
    assert forall|j: int| 0 <= j < p implies !text::occurs_at(after, close, j) by {
        if text::occurs_at(after, close, j) {
            let part = after.subrange(j, j + close.len());
            if j + close.len() <= p {
                assert(part =~= prompt.subrange(j, j + close.len()));
                assert(text::occurs_at(prompt, close, j));
            } else {
                assert(part[p - j] == after[p]);
                assert(after[p] == close[0]);
                assert(close[p - j] == '<');
            }
        }
    }
    text::lemma_find_from(after, close, 0);
    assert(text::find_text(after, close) == Some(p));
    assert(after.take(p) =~= prompt);
}

/// A prompt that is not wrapped begins as the user wrote it, up to the first `<`.
pub proof fn law_prompt_begins_as_written(s: Seq<char>, n: int)
    requires
        0 < n <= s.len(),
        !s.take(n).contains('<'),
        !text::has_text(s, "<USER_REQUEST>"@),
        !text::CharClass::Space.has(s[0]),
        !text::CharClass::Space.has(s[n - 1]),
    ensures
        n <= cleaned_request(s).len(),
        cleaned_request(s).take(n) == s.take(n),
{
    let t = text::trimmed(s);
    text::lemma_trimmed_keeps(s, n);
    text::lemma_trimmed_lacks(s, "<USER_REQUEST>"@);
    tags::law_head_stays(t, n);
    let bare = tags::untagged(t);
    assert(bare.take(n)[0] == bare[0] && s.take(n)[0] == s[0]);
    assert(bare.take(n)[n - 1] == bare[n - 1] && s.take(n)[n - 1] == s[n - 1]);
    text::lemma_trimmed_keeps(bare, n);
}

/// The trimmed text of a length-delimited field, where it has one.
pub open spec fn field_text(f: wire::FieldModel) -> Option<Seq<char>> {
    if f.wire_type == 2 {
        match text::utf8_value(f.data) {
            Some(s) => if text::trimmed(s).len() > 0 {
                Some(text::trimmed(s))
            } else {
                None
            },
            None => None,
        }
    } else {
        None
    }
}

/// The trimmed text of a length-delimited field, where it has one.
fn field_text_of<'a>(f: &WireField<'a>) -> (r: Option<&'a str>)
    ensures
        match r {
            Some(s) => field_text(f@) == Some(s@),
            None => field_text(f@) is None,
        },
{
    if f.wire_type != 2 {
        return None;
    }
    match text::utf8_text(f.data) {
        Some(s) => {
            let t = text::trim_text(s);
            if t.is_empty() {
                None
            } else {
                Some(t)
            }
        },
        None => None,
    }
}

/// The text of a field with one of the tags.
pub open spec fn tagged_text(a: u32, b: u32) -> spec_fn(wire::FieldModel) -> Option<Seq<char>> {
    |f: wire::FieldModel|
        if f.tag == a || f.tag == b {
            field_text(f)
        } else {
            None
        }
}

/// The first text with one of the tags in the message of a field with the outer
/// tag.
pub open spec fn nested_text(outer: u32, a: u32, b: u32) -> spec_fn(wire::FieldModel) -> Option<
    Seq<char>,
> {
    |f: wire::FieldModel|
        if f.tag == outer && f.wire_type == 2 {
            match wire::wire_fields(f.data) {
                Ok(inner) => wire::first_pick(inner, tagged_text(a, b)),
                Err(_) => None,
            }
        } else {
            None
        }
}

/// The first text with one of the tags.
fn first_tagged_text<'a>(fields: &Vec<WireField<'a>>, a: u32, b: u32) -> (r: Option<&'a str>)
    ensures
        match r {
            Some(s) => wire::first_pick(wire::field_models(fields@), tagged_text(a, b)) == Some(s@),
            None => wire::first_pick(wire::field_models(fields@), tagged_text(a, b)) is None,
        },
{
    let ghost models = wire::field_models(fields@);
    let mut i: usize = 0;
    assert(models.skip(0) == models);
    while i < fields.len()
        invariant
            models == wire::field_models(fields@),
            i <= fields@.len(),
            wire::first_pick(models, tagged_text(a, b)) == wire::first_pick(
                models.skip(i as int),
                tagged_text(a, b),
            ),
        decreases fields@.len() - i,
    {
        assert(models.skip(i as int)[0] == fields@[i as int]@);
        assert(models.skip(i as int).drop_first() == models.skip(i + 1));
        if fields[i].tag == a || fields[i].tag == b {
            if let Some(s) = field_text_of(&fields[i]) {
                return Some(s);
            }
        }
        i = i + 1;
    }
    None
}

/// The first text with one of the tags in the messages of the fields with the
/// outer tag.
fn first_nested_text(fields: &Vec<WireField>, outer: u32, a: u32, b: u32) -> (r: Option<String>)
    ensures
        match r {
            Some(s) => wire::first_pick(wire::field_models(fields@), nested_text(outer, a, b))
                == Some(s@),
            None => wire::first_pick(wire::field_models(fields@), nested_text(outer, a, b)) is None,
        },
{
    let ghost models = wire::field_models(fields@);
    let mut i: usize = 0;
    assert(models.skip(0) == models);
    while i < fields.len()
        invariant
            models == wire::field_models(fields@),
            i <= fields@.len(),
            wire::first_pick(models, nested_text(outer, a, b)) == wire::first_pick(
                models.skip(i as int),
                nested_text(outer, a, b),
            ),
        decreases fields@.len() - i,
    {
        assert(models.skip(i as int)[0] == fields@[i as int]@);
        assert(models.skip(i as int).drop_first() == models.skip(i + 1));
        if fields[i].tag == outer && fields[i].wire_type == 2 {
            if let Ok(inner) = parse_wire_fields(fields[i].data) {
                if let Some(s) = first_tagged_text(&inner, a, b) {
                    return Some(s.to_owned());
                }
            }
        }
        i = i + 1;
    }
    None
}

/// The prompt in the payload of a user step: the first text with tag 2 in a
/// message with tag 19, cleaned.
pub open spec fn user_prompt(payload: Seq<u8>) -> Option<Seq<char>> {
    match wire::wire_fields(payload) {
        Ok(fields) => match wire::first_pick(fields, nested_text(19, 2, 2)) {
            Some(s) => Some(cleaned_request(s)),
            None => None,
        },
        Err(_) => None,
    }
}

/// Reads the prompt in the payload of a user step.
pub fn extract_user_prompt_from_payload(payload: &[u8]) -> (r: Option<String>)
    ensures
        text::opt_view(r) == user_prompt(payload@),
{
    match parse_wire_fields(payload) {
        Ok(fields) => match first_nested_text(&fields, 19, 2, 2) {
            Some(s) => Some(clean_user_request(s.as_str())),
            None => None,
        },
        Err(_) => None,
    }
}

// ---------------------------------------------------------------------------
// Timestamps
// ---------------------------------------------------------------------------

/// `n` divided by a positive `d`, rounded towards zero.
pub open spec fn quotient(n: int, d: int) -> int {
    if n >= 0 {
        n / d
    } else {
        -((-n) / d)
    }
}

/// `n` brought into the range of `i64`.
pub open spec fn capped_i64(n: int) -> i64 {
    if n > i64::MAX {
        i64::MAX
    } else if n < i64::MIN {
        i64::MIN
    } else {
        n as i64
    }
}

/// The milliseconds of seconds and nanoseconds.
pub open spec fn millis(seconds: i64, nanos: i64) -> i64 {
    capped_i64(seconds * 1000 + quotient(nanos as int, 1_000_000))
}

fn millis_of(seconds: i64, nanos: i64) -> (r: i64)
    ensures
        r == millis(seconds, nanos),
{
    let part: i128 = if nanos >= 0 {
        nanos as i128 / 1_000_000
    } else {
        0 - ((0 - nanos as i128) / 1_000_000)
    };
    let whole: i128 = seconds as i128 * 1000 + part;
    if whole > i64::MAX as i128 {
        i64::MAX
    } else if whole < i64::MIN as i128 {
        i64::MIN
    } else {
        whole as i64
    }
}

/// The last signed varint with the tag, 0 where there is none.
pub open spec fn signed_varint(fields: Seq<wire::FieldModel>, tag: u32) -> i64 {
    antigravity::signed64(wire::last_varint(fields, tag))
}

/// The milliseconds in a field with tag 1, where its seconds are positive.
pub open spec fn timestamp_field() -> spec_fn(wire::FieldModel) -> Option<i64> {
    |f: wire::FieldModel|
        if f.tag == 1 && f.wire_type == 2 {
            match wire::wire_fields(f.data) {
                Ok(inner) => if signed_varint(inner, 1) > 0 {
                    Some(millis(signed_varint(inner, 1), signed_varint(inner, 2)))
                } else {
                    None
                },
                Err(_) => None,
            }
        } else {
            None
        }
}

/// The time of a step in milliseconds.
pub open spec fn step_timestamp(metadata: Seq<u8>) -> Option<i64> {
    match wire::wire_fields(metadata) {
        Ok(fields) => wire::first_pick(fields, timestamp_field()),
        Err(_) => None,
    }
}

fn signed_varint_of(fields: &Vec<WireField>, tag: u32) -> (r: i64)
    ensures
        r == signed_varint(wire::field_models(fields@), tag),
{
    match last_varint_of(fields, tag) {
        Some(v) => signed64_of(v),
        None => 0,
    }
}

/// Reads the time of a step in milliseconds. A time beyond the range of `i64`
/// is cut to it.
pub fn extract_step_timestamp(metadata: &[u8]) -> (r: Option<i64>)
    ensures
        r == step_timestamp(metadata@),
{
    let fields = match parse_wire_fields(metadata) {
        Ok(fields) => fields,
        Err(_) => {
            return None;
        },
    };
    let ghost models = wire::field_models(fields@);
    let mut i: usize = 0;
    assert(models.skip(0) == models);
    while i < fields.len()
        invariant
            models == wire::field_models(fields@),
            wire::wire_fields(metadata@) == Ok::<Seq<wire::FieldModel>, wire::WireError>(models),
            i <= fields@.len(),
            wire::first_pick(models, timestamp_field()) == wire::first_pick(
                models.skip(i as int),
                timestamp_field(),
            ),
        decreases fields@.len() - i,
    {
        assert(models.skip(i as int)[0] == fields@[i as int]@);
        assert(models.skip(i as int).drop_first() == models.skip(i + 1));
        if fields[i].tag == 1 && fields[i].wire_type == 2 {
            if let Ok(inner) = parse_wire_fields(fields[i].data) {
                let seconds: i64 = signed_varint_of(&inner, 1);
                let nanos: i64 = signed_varint_of(&inner, 2);
                if seconds > 0 {
                    return Some(millis_of(seconds, nanos));
                }
            }
        }
        i = i + 1;
    }
    None
}

// ---------------------------------------------------------------------------
// Assistant and error messages
// ---------------------------------------------------------------------------

/// The parts with one more, where they do not have it yet.
pub open spec fn with_part(parts: Seq<Seq<char>>, s: Option<Seq<char>>) -> Seq<Seq<char>> {
    match s {
        Some(t) => if parts.contains(t) {
            parts
        } else {
            parts.push(t)
        },
        None => parts,
    }
}

/// The parts with the texts of the fields with one of the tags, each once.
pub open spec fn with_texts(
    parts: Seq<Seq<char>>,
    fields: Seq<wire::FieldModel>,
    a: u32,
    b: u32,
) -> Seq<Seq<char>>
    decreases fields.len(),
{
    if fields.len() == 0 {
        parts
    } else {
        with_part(with_texts(parts, fields.drop_last(), a, b), tagged_text(a, b)(fields.last()))
    }
}

/// The parts with the texts in the messages of the fields with the outer tag.
pub open spec fn with_nested_texts(
    parts: Seq<Seq<char>>,
    fields: Seq<wire::FieldModel>,
    outer: u32,
    a: u32,
    b: u32,
) -> Seq<Seq<char>>
    decreases fields.len(),
{
    if fields.len() == 0 {
        parts
    } else {
        let before = with_nested_texts(parts, fields.drop_last(), outer, a, b);
        let f = fields.last();
        if f.tag == outer && f.wire_type == 2 {
            match wire::wire_fields(f.data) {
                Ok(inner) => with_texts(before, inner, a, b),
                Err(_) => before,
            }
        } else {
            before
        }
    }
}

/// The names of the tools that the fields of assistant messages call, each
/// once: texts with tag 2 in messages with tag 7 in messages with tag 20.
pub open spec fn tool_names(fields: Seq<wire::FieldModel>) -> Seq<Seq<char>>
    decreases fields.len(),
{
    if fields.len() == 0 {
        seq![]
    } else {
        let before = tool_names(fields.drop_last());
        let f = fields.last();
        if f.tag == 20 && f.wire_type == 2 {
            match wire::wire_fields(f.data) {
                Ok(inner) => with_nested_texts(before, inner, 7, 2, 2),
                Err(_) => before,
            }
        } else {
            before
        }
    }
}

fn add_texts(parts: &mut Vec<String>, fields: &Vec<WireField>, a: u32, b: u32)
    ensures
        text::views(final(parts)@) == with_texts(
            text::views(old(parts)@),
            wire::field_models(fields@),
            a,
            b,
        ),
{
    let ghost first = text::views(parts@);
    let ghost models = wire::field_models(fields@);
    let mut i: usize = 0;
    assert(models.take(0) == Seq::<wire::FieldModel>::empty());
    while i < fields.len()
        invariant
            models == wire::field_models(fields@),
            first == text::views(old(parts)@),
            i <= fields@.len(),
            text::views(parts@) == with_texts(first, models.take(i as int), a, b),
        decreases fields@.len() - i,
    {
        assert(models.take(i + 1).drop_last() == models.take(i as int));
        assert(models.take(i + 1).last() == fields@[i as int]@);
        if fields[i].tag == a || fields[i].tag == b {
            if let Some(s) = field_text_of(&fields[i]) {
                if !text::has_part(parts, s) {
                    let ghost before = parts@;
                    parts.push(s.to_owned());
                    assert(text::views(parts@) == text::views(before).push(s@));
                }
            }
        }
        i = i + 1;
    }
    assert(models.take(fields@.len() as int) == models);
}

fn add_nested_texts(parts: &mut Vec<String>, fields: &Vec<WireField>, outer: u32, a: u32, b: u32)
    ensures
        text::views(final(parts)@) == with_nested_texts(
            text::views(old(parts)@),
            wire::field_models(fields@),
            outer,
            a,
            b,
        ),
{
    let ghost first = text::views(parts@);
    let ghost models = wire::field_models(fields@);
    let mut i: usize = 0;
    assert(models.take(0) == Seq::<wire::FieldModel>::empty());
    while i < fields.len()
        invariant
            models == wire::field_models(fields@),
            first == text::views(old(parts)@),
            i <= fields@.len(),
            text::views(parts@) == with_nested_texts(first, models.take(i as int), outer, a, b),
        decreases fields@.len() - i,
    {
        assert(models.take(i + 1).drop_last() == models.take(i as int));
        assert(models.take(i + 1).last() == fields@[i as int]@);
        if fields[i].tag == outer && fields[i].wire_type == 2 {
            if let Ok(inner) = parse_wire_fields(fields[i].data) {
                add_texts(parts, &inner, a, b);
            }
        }
        i = i + 1;
    }
    assert(models.take(fields@.len() as int) == models);
}

fn tool_names_of(fields: &Vec<WireField>) -> (r: Vec<String>)
    ensures
        text::views(r@) == tool_names(wire::field_models(fields@)),
{
    let mut parts: Vec<String> = Vec::new();
    let ghost models = wire::field_models(fields@);
    let mut i: usize = 0;
    assert(models.take(0) == Seq::<wire::FieldModel>::empty());
    assert(text::views(parts@) == Seq::<Seq<char>>::empty());
    while i < fields.len()
        invariant
            models == wire::field_models(fields@),
            i <= fields@.len(),
            text::views(parts@) == tool_names(models.take(i as int)),
        decreases fields@.len() - i,
    {
        assert(models.take(i + 1).drop_last() == models.take(i as int));
        assert(models.take(i + 1).last() == fields@[i as int]@);
        if fields[i].tag == 20 && fields[i].wire_type == 2 {
            if let Ok(inner) = parse_wire_fields(fields[i].data) {
                add_nested_texts(&mut parts, &inner, 7, 2, 2);
            }
        }
        i = i + 1;
    }
    assert(models.take(fields@.len() as int) == models);
    parts
}

/// The line that shows a tool call.
pub open spec fn tool_line(name: Seq<char>) -> Seq<char> {
    "[Tool: "@ + name + "]"@
}

/// The lines that show tool calls.
pub open spec fn tool_lines(names: Seq<Seq<char>>) -> Seq<Seq<char>> {
    Seq::new(names.len(), |i: int| tool_line(names[i]))
}

/// What an assistant message shows: its text, or else its thinking where no
/// tool is called, and a line for each tool.
pub open spec fn assistant_parts(
    reply: Option<Seq<char>>,
    thinking: Option<Seq<char>>,
    tools: Seq<Seq<char>>,
) -> Seq<Seq<char>> {
    let head = match (reply, thinking) {
        (Some(t), _) => seq![t],
        (None, Some(t)) => if tools.len() == 0 {
            seq![t]
        } else {
            seq![]
        },
        (None, None) => seq![],
    };
    head + tool_lines(tools)
}

/// The content of the payload of an assistant step.
pub open spec fn assistant_content(payload: Seq<u8>) -> Option<Seq<char>> {
    match wire::wire_fields(payload) {
        Ok(fields) => {
            let parts = assistant_parts(
                wire::first_pick(fields, nested_text(20, 1, 8)),
                wire::first_pick(fields, nested_text(20, 3, 3)),
                tool_names(fields),
            );
            if parts.len() == 0 {
                None
            } else {
                Some(text::joined(parts, "\n"@))
            }
        },
        Err(_) => None,
    }
}

/// Reads the text, the tool calls and the thinking of an assistant step.
pub fn extract_assistant_content_from_payload(payload: &[u8]) -> (r: Option<String>)
    ensures
        text::opt_view(r) == assistant_content(payload@),
{
    let fields = match parse_wire_fields(payload) {
        Ok(fields) => fields,
        Err(_) => {
            return None;
        },
    };
    let ghost models = wire::field_models(fields@);
    let reply = first_nested_text(&fields, 20, 1, 8);
    let thinking = first_nested_text(&fields, 20, 3, 3);
    let tools = tool_names_of(&fields);
    let ghost expected = assistant_parts(text::opt_view(reply), text::opt_view(thinking), text::views(tools@));
    let mut parts: Vec<String> = Vec::new();
    match reply {
        Some(s) => {
            parts.push(s);
        },
        None => {
            if let Some(s) = thinking {
                if tools.len() == 0 {
                    parts.push(s);
                }
            }
        },
    }
    let ghost head = text::views(parts@);
    let mut i: usize = 0;
    assert(expected == head + tool_lines(text::views(tools@)));
    assert(tool_lines(text::views(tools@)).take(0) == Seq::<Seq<char>>::empty());
    assert(head + Seq::<Seq<char>>::empty() == head);
    while i < tools.len()
        invariant
            i <= tools@.len(),
            text::views(parts@) == head + tool_lines(text::views(tools@)).take(i as int),
        decreases tools@.len() - i,
    {
        let ghost before = parts@;
        let line = text::concat3("[Tool: ", tools[i].as_str(), "]");
        parts.push(line);
        assert(text::views(parts@) == text::views(before).push(line@));
        assert(tool_lines(text::views(tools@)).take(i + 1) == tool_lines(text::views(tools@)).take(
            i as int,
        ).push(line@));
        i = i + 1;
    }
    assert(tool_lines(text::views(tools@)).take(tools@.len() as int) == tool_lines(
        text::views(tools@),
    ));
    assert(text::views(parts@) == expected);
    if parts.len() == 0 {
        None
    } else {
        Some(text::join_text(&parts, "\n"))
    }
}

/// The content of the payload of an error step: the distinct texts with tag 1
/// or 2 in messages with tag 24.
pub open spec fn error_content(payload: Seq<u8>) -> Option<Seq<char>> {
    match wire::wire_fields(payload) {
        Ok(fields) => {
            let parts = with_nested_texts(seq![], fields, 24, 1, 2);
            if parts.len() == 0 {
                None
            } else {
                Some(text::joined(parts, "\n"@))
            }
        },
        Err(_) => None,
    }
}

/// Reads the messages of an error step.
pub fn extract_error_content_from_payload(payload: &[u8]) -> (r: Option<String>)
    ensures
        text::opt_view(r) == error_content(payload@),
{
    let fields = match parse_wire_fields(payload) {
        Ok(fields) => fields,
        Err(_) => {
            return None;
        },
    };
    let mut parts: Vec<String> = Vec::new();
    assert(text::views(parts@) == Seq::<Seq<char>>::empty());
    add_nested_texts(&mut parts, &fields, 24, 1, 2);
    if parts.len() == 0 {
        None
    } else {
        Some(text::join_text(&parts, "\n"))
    }
}

// ---------------------------------------------------------------------------
// Project directories
// ---------------------------------------------------------------------------

/// The rules by which a platform writes paths.
#[derive(Debug, Clone, Copy, PartialEq, Eq, Structural)]
pub enum PathRules {
    Unix,
    Windows,
}

/// The parts of a URL.
pub struct UrlParts {
    pub scheme: String,
    pub host: Option<String>,
    pub path: String,
}

/// What stands for the parts of a URL.
pub struct UrlModel {
    pub scheme: Seq<char>,
    pub host: Option<Seq<char>>,
    pub path: Seq<char>,
}

impl View for UrlParts {
    type V = UrlModel;

    open spec fn view(&self) -> UrlModel {
        UrlModel { scheme: self.scheme@, host: text::opt_view(self.host), path: self.path@ }
    }
}

/// The parts that `url::Url::parse` finds in a text; none where it is no URL.
pub uninterp spec fn parsed_url(url: Seq<char>) -> Option<UrlModel>;

/// `url::Url::parse`, with `Url::scheme`, `Url::host_str` and `Url::path` of what
/// it finds: a function of the text, on every platform. What that function is
/// stays unsaid.
#[verifier::external_body]
fn parse_url(url: &str) -> (r: Option<UrlParts>)
    ensures
        match r {
            Some(parts) => parsed_url(url@) == Some(parts@),
            None => parsed_url(url@) is None,
        },
{
    let parsed = url::Url::parse(url).ok()?;
    Some(
        UrlParts {
            scheme: parsed.scheme().to_string(),
            host: parsed.host_str().map(|h| h.to_string()),
            path: parsed.path().to_string(),
        },
    )
}

/// Whether the path of a URL is a bare drive: `/C:`, or `/C%3A`, with nothing
/// behind it.
pub open spec fn is_bare_drive(path: Seq<char>) -> bool {
    &&& path.len() >= 3 && path[0] == '/' && text::is_letter(path[1])
    &&& {
        ||| path.len() == 3 && path[2] == ':'
        ||| path.len() == 5 && path[2] == '%' && path[3] == '3' && text::ascii_lower(path[4]) == 'a'
    }
}

/// Whether the path of a URL names nothing on its host: it is empty, or begins
/// with an empty name. A separator may be written as `%2F` or `%5C`.
pub open spec fn is_bare_root(path: Seq<char>) -> bool {
    ||| path.len() <= 1
    ||| path[1] == '/' || path[1] == '\\'
    ||| path.len() >= 4 && path[1] == '%' && {
        ||| path[2] == '2' && text::ascii_lower(path[3]) == 'f'
        ||| path[2] == '5' && text::ascii_lower(path[3]) == 'c'
    }
}

/// Whether a URL names only a drive, or only another machine.
pub open spec fn is_bare_url(url: UrlModel) -> bool {
    if url.host is None || url.host == Some("localhost"@) {
        is_bare_drive(url.path)
    } else {
        url.scheme == "file"@ && is_bare_root(url.path)
    }
}

/// Whether the path of a URL is a bare drive.
fn is_bare_drive_of(path: &Vec<char>) -> (r: bool)
    ensures
        r == is_bare_drive(path@),
{
    if path.len() < 3 || path[0] != '/' || !text::is_letter_of(path[1]) {
        return false;
    }
    (path.len() == 3 && path[2] == ':') || (path.len() == 5 && path[2] == '%' && path[3] == '3'
        && text::ascii_lower_of(path[4]) == 'a')
}

/// Whether the path of a URL names nothing on its host.
fn is_bare_root_of(path: &Vec<char>) -> (r: bool)
    ensures
        r == is_bare_root(path@),
{
    if path.len() <= 1 || path[1] == '/' || path[1] == '\\' {
        return true;
    }
    path.len() >= 4 && path[1] == '%' && ((path[2] == '2' && text::ascii_lower_of(path[3]) == 'f')
        || (path[2] == '5' && text::ascii_lower_of(path[3]) == 'c'))
}

/// Whether a URL names only a drive, or only another machine.
pub fn names_bare_root(url: &UrlParts) -> (r: bool)
    ensures
        r == is_bare_url(url@),
{
    let local = match &url.host {
        None => true,
        Some(host) => text::same_text(host.as_str(), "localhost"),
    };
    let path = text::chars_of(url.path.as_str());
    if local {
        is_bare_drive_of(&path)
    } else {
        text::same_text(url.scheme.as_str(), "file") && is_bare_root_of(&path)
    }
}

/// The path that `url::Url::parse` and `Url::to_file_path` make of a URL under
/// the rules of a platform; none where the text is no URL, or one without such a
/// path.
pub uninterp spec fn url_path(rules: PathRules, url: Seq<char>) -> Option<Seq<char>>;

/// `url::Url::parse`, `Url::to_file_path` and `Path::to_string_lossy`: the result
/// is a function of the URL and of the rules of the platform that the library
/// runs on, which is a Unix or Windows. What that function is stays unsaid. URLs
/// of a bare drive or a bare host are left out: the path that Windows makes of
/// one is not absolute, which `to_file_path` asserts in a debug build.
#[verifier::external_body]
fn url_file_path(url: &str) -> (r: Option<String>)
    requires
        parsed_url(url@) matches Some(parts) ==> !is_bare_url(parts),
    ensures
        exists|rules: PathRules| text::opt_view(r) == #[trigger] url_path(rules, url@),
{
    let path = url::Url::parse(url).ok()?.to_file_path().ok()?;
    Some(path.to_string_lossy().into_owned())
}

/// The texts of the fields with tag 7.
pub open spec fn url_texts(fields: Seq<wire::FieldModel>) -> Seq<Seq<char>>
    decreases fields.len(),
{
    if fields.len() == 0 {
        seq![]
    } else {
        let before = url_texts(fields.drop_last());
        let f = fields.last();
        if f.tag == 7 && f.wire_type == 2 {
            match text::utf8_value(f.data) {
                Some(s) => before.push(s),
                None => before,
            }
        } else {
            before
        }
    }
}

/// The URLs of the workspace in the metadata of a trajectory.
pub open spec fn workspace_url_texts(blob: Seq<u8>) -> Seq<Seq<char>> {
    match wire::wire_fields(blob) {
        Ok(fields) => url_texts(fields),
        Err(_) => seq![],
    }
}

/// Reads the URLs of the workspace in the metadata of a trajectory.
pub fn workspace_urls(blob: &[u8]) -> (r: Vec<String>)
    ensures
        text::views(r@) == workspace_url_texts(blob@),
{
    let mut out: Vec<String> = Vec::new();
    assert(text::views(out@) == Seq::<Seq<char>>::empty());
    let fields = match parse_wire_fields(blob) {
        Ok(fields) => fields,
        Err(_) => {
            return out;
        },
    };
    let ghost models = wire::field_models(fields@);
    let mut i: usize = 0;
    assert(models.take(0) == Seq::<wire::FieldModel>::empty());
    while i < fields.len()
        invariant
            models == wire::field_models(fields@),
            i <= fields@.len(),
            text::views(out@) == url_texts(models.take(i as int)),
        decreases fields@.len() - i,
    {
        assert(models.take(i + 1).drop_last() == models.take(i as int));
        assert(models.take(i + 1).last() == fields@[i as int]@);
        if fields[i].tag == 7 && fields[i].wire_type == 2 {
            if let Some(s) = text::utf8_text(fields[i].data) {
                let ghost before = out@;
                out.push(s.to_owned());
                assert(text::views(out@) == text::views(before).push(s@));
            }
        }
        i = i + 1;
    }
    assert(models.take(fields@.len() as int) == models);
    out
}

/// The first path that is there.
pub open spec fn first_some(paths: Seq<Option<String>>) -> Option<Seq<char>>
    decreases paths.len(),
{
    if paths.len() == 0 {
        None
    } else {
        match paths[0] {
            Some(p) => Some(p@),
            None => first_some(paths.drop_first()),
        }
    }
}

/// The first path that is there.
pub fn first_path(candidates: &Vec<Option<String>>) -> (r: Option<String>)
    ensures
        text::opt_view(r) == first_some(candidates@),
{
    let mut i: usize = 0;
    assert(candidates@.skip(0) == candidates@);
    while i < candidates.len()
        invariant
            i <= candidates@.len(),
            first_some(candidates@) == first_some(candidates@.skip(i as int)),
        decreases candidates@.len() - i,
    {
        assert(candidates@.skip(i as int)[0] == candidates@[i as int]);
        assert(candidates@.skip(i as int).drop_first() == candidates@.skip(i + 1));
        if let Some(p) = &candidates[i] {
            return Some(p.clone());
        }
        i = i + 1;
    }
    None
}

/// The directory that a URL names under the rules of a platform. The URL of a bare
/// drive or a bare host names none.
pub open spec fn url_directory(rules: PathRules, url: Seq<char>) -> Option<Seq<char>> {
    match parsed_url(url) {
        Some(parts) => if is_bare_url(parts) {
            None
        } else {
            url_path(rules, url)
        },
        None => None,
    }
}

/// The directory that a URL names under the rules of the platform.
fn url_directory_of(url: &str) -> (r: Option<String>)
    ensures
        exists|rules: PathRules| text::opt_view(r) == #[trigger] url_directory(rules, url@),
{
    let bare = match parse_url(url) {
        Some(parts) => names_bare_root(&parts),
        None => true,
    };
    if bare {
        assert(url_directory(PathRules::Unix, url@) is None);
        None
    } else {
        let path = url_file_path(url);
        proof {
            let rules = choose|rules: PathRules|
                text::opt_view(path) == #[trigger] url_path(rules, url@);
            assert(text::opt_view(path) == url_directory(rules, url@));
        }
        path
    }
}

/// The first directory that URLs name, each under its own rules.
pub open spec fn first_url_directory(rules: Seq<PathRules>, urls: Seq<Seq<char>>) -> Option<Seq<char>>
    decreases urls.len(),
{
    if urls.len() == 0 {
        None
    } else {
        match url_directory(rules[0], urls[0]) {
            Some(p) => Some(p),
            None => first_url_directory(rules.drop_first(), urls.drop_first()),
        }
    }
}

proof fn lemma_first_url_directory(
    found: Seq<Option<String>>,
    rules: Seq<PathRules>,
    urls: Seq<Seq<char>>,
)
    requires
        found.len() == urls.len(),
        rules.len() == urls.len(),
        forall|i: int|
            0 <= i < urls.len() ==> text::opt_view(#[trigger] found[i]) == url_directory(rules[i], urls[i]),
    ensures
        first_some(found) == first_url_directory(rules, urls),
    decreases urls.len(),
{
    if urls.len() > 0 {
        assert(text::opt_view(found[0]) == url_directory(rules[0], urls[0]));
        let rest = found.drop_first();
        assert forall|i: int| 0 <= i < urls.drop_first().len() implies text::opt_view(#[trigger] rest[i])
            == url_directory(rules.drop_first()[i], urls.drop_first()[i]) by {
            assert(rest[i] == found[i + 1]);
        }
        lemma_first_url_directory(rest, rules.drop_first(), urls.drop_first());
    }
}

/// The project directory of a conversation: the first directory that a workspace
/// URL names under the rules of the platform.
pub fn extract_project_dir(blob: Option<&[u8]>) -> (r: Option<String>)
    ensures
        match blob {
            None => r is None,
            Some(b) => exists|rules: Seq<PathRules>|
                rules.len() == workspace_url_texts(b@).len() && text::opt_view(r)
                    == #[trigger] first_url_directory(rules, workspace_url_texts(b@)),
        },
{
    match blob {
        None => None,
        Some(b) => {
            let urls = workspace_urls(b);
            let ghost texts = text::views(urls@);
            let ghost mut rules: Seq<PathRules> = seq![];
            let mut found: Vec<Option<String>> = Vec::new();
            let mut i: usize = 0;
            while i < urls.len()
                invariant
                    texts == text::views(urls@),
                    i <= urls@.len(),
                    found@.len() == i,
                    rules.len() == i,
                    forall|k: int|
                        0 <= k < i ==> text::opt_view(#[trigger] found@[k]) == url_directory(
                            rules[k],
                            texts[k],
                        ),
                decreases urls@.len() - i,
            {
                let path = url_directory_of(urls[i].as_str());
                proof {
                    let rule = choose|rule: PathRules|
                        text::opt_view(path) == #[trigger] url_directory(rule, texts[i as int]);
                    rules = rules.push(rule);
                }
                found.push(path);
                i = i + 1;
            }
            proof {
                lemma_first_url_directory(found@, rules, texts);
            }
            first_path(&found)
        },
    }
}

// ---------------------------------------------------------------------------
// The session list
// ---------------------------------------------------------------------------

/// How many characters of the first prompt the session list shows.
pub const MAX_SUMMARY_CHARS: usize = 160;

/// A session as the session list shows it.
#[derive(Debug)]
pub struct SessionMeta {
    pub provider_id: String,
    pub session_id: String,
    pub title: Option<String>,
    pub summary: Option<String>,
    pub project_dir: Option<String>,
    pub created_at: Option<i64>,
    pub last_active_at: Option<i64>,
    pub source_path: Option<String>,
    pub resume_command: Option<String>,
}

/// What the session list shows of a session.
#[verifier::ext_equal]
pub ghost struct SessionModel {
    pub provider_id: Seq<char>,
    pub session_id: Seq<char>,
    pub title: Option<Seq<char>>,
    pub summary: Option<Seq<char>>,
    pub project_dir: Option<Seq<char>>,
    pub created_at: Option<i64>,
    pub last_active_at: Option<i64>,
    pub source_path: Option<Seq<char>>,
    pub resume_command: Option<Seq<char>>,
}

impl View for SessionMeta {
    type V = SessionModel;

    open spec fn view(&self) -> SessionModel {
        SessionModel {
            provider_id: self.provider_id@,
            session_id: self.session_id@,
            title: text::opt_view(self.title),
            summary: text::opt_view(self.summary),
            project_dir: text::opt_view(self.project_dir),
            created_at: self.created_at,
            last_active_at: self.last_active_at,
            source_path: text::opt_view(self.source_path),
            resume_command: text::opt_view(self.resume_command),
        }
    }
}

/// The provider of the sessions.
pub const PROVIDER_ID: &'static str = "gemini";

/// A session of this provider. Title and summary are the same; a session whose
/// last activity is unknown was last active when it was created.
pub open spec fn session_model(
    session_id: Seq<char>,
    title: Option<Seq<char>>,
    project_dir: Option<Seq<char>>,
    created_at: Option<i64>,
    last_active_at: Option<i64>,
    source_path: Seq<char>,
) -> SessionModel {
    SessionModel {
        provider_id: PROVIDER_ID@,
        session_id,
        title,
        summary: title,
        project_dir,
        created_at,
        last_active_at: json::either(last_active_at, created_at),
        source_path: Some(source_path),
        resume_command: Some("agy --conversation "@ + session_id),
    }
}

fn make_session(
    session_id: String,
    title: Option<String>,
    project_dir: Option<String>,
    created_at: Option<i64>,
    last_active_at: Option<i64>,
    source_path: &str,
) -> (r: SessionMeta)
    ensures
        r@ == session_model(
            session_id@,
            text::opt_view(title),
            text::opt_view(project_dir),
            created_at,
            last_active_at,
            source_path@,
        ),
{
    let mut resume_command = String::from_str("agy --conversation ");
    resume_command.append(session_id.as_str());
    let summary: Option<String> = match &title {
        Some(t) => Some(t.clone()),
        None => None,
    };
    SessionMeta {
        provider_id: PROVIDER_ID.to_owned(),
        session_id,
        title,
        summary,
        project_dir,
        created_at,
        last_active_at: if last_active_at.is_some() {
            last_active_at
        } else {
            created_at
        },
        source_path: Some(source_path.to_owned()),
        resume_command: Some(resume_command),
    }
}

/// A row of the `steps` table.
#[derive(Debug)]
pub struct StepRow {
    pub step_type: i64,
    pub metadata: Option<Vec<u8>>,
    pub payload: Option<Vec<u8>>,
}

/// Why the steps of a conversation cannot be read.
#[derive(Debug)]
pub enum StepsError {
    Prepare(String),
    Query(String),
}

/// What is read from a conversation database for the session list.
#[derive(Debug)]
pub struct SessionDb {
    /// Whether the database has a `steps` table.
    pub has_steps: bool,
    /// The file name without its extension.
    pub file_stem: Option<String>,
    /// The cascade and trajectory ids of the first `trajectory_meta` row.
    pub cascade_id: Option<String>,
    pub trajectory_id: Option<String>,
    /// The project directory, where the metadata of the trajectory names one.
    pub project_dir: Option<String>,
    /// The steps by ascending index.
    pub steps: Result<Vec<StepRow>, StepsError>,
    /// When the file was last modified, in milliseconds.
    pub modified_ms: Option<i64>,
}

/// An id that is not blank.
pub open spec fn filled(id: Option<String>) -> Option<Seq<char>> {
    match id {
        Some(s) => if text::trimmed(s@).len() > 0 {
            Some(s@)
        } else {
            None
        },
        None => None,
    }
}

fn is_filled(id: &Option<String>) -> (r: bool)
    ensures
        r == filled(*id) is Some,
{
    match id {
        Some(s) => !text::trim_text(s.as_str()).is_empty(),
        None => false,
    }
}

/// The id of a conversation: the cascade id, else the trajectory id, else the
/// file stem.
pub open spec fn db_session_id(
    cascade_id: Option<String>,
    trajectory_id: Option<String>,
    stem: Seq<char>,
) -> Seq<char> {
    match (filled(cascade_id), filled(trajectory_id)) {
        (Some(c), _) => c,
        (None, Some(t)) => t,
        (None, None) => stem,
    }
}

/// The time of a step row.
pub open spec fn row_time(row: StepRow) -> Option<i64> {
    match row.metadata {
        Some(m) => step_timestamp(m@),
        None => None,
    }
}

/// The time of the first step that has one.
pub open spec fn first_time(rows: Seq<StepRow>) -> Option<i64>
    decreases rows.len(),
{
    if rows.len() == 0 {
        None
    } else if first_time(rows.drop_last()) is Some {
        first_time(rows.drop_last())
    } else {
        row_time(rows.last())
    }
}

/// The time of the last step that has one.
pub open spec fn last_time(rows: Seq<StepRow>) -> Option<i64>
    decreases rows.len(),
{
    if rows.len() == 0 {
        None
    } else if row_time(rows.last()) is Some {
        row_time(rows.last())
    } else {
        last_time(rows.drop_last())
    }
}

/// The type of a step in which the user speaks.
pub const USER_STEP: i64 = 14;

/// The type of a step in which the assistant answers.
pub const ASSISTANT_STEP: i64 = 15;

/// The type of a step that failed or was ended.
pub const ERROR_STEP: i64 = 17;

/// The prompt of a step row.
pub open spec fn row_prompt(row: StepRow) -> Option<Seq<char>> {
    match row.payload {
        Some(p) => if row.step_type == USER_STEP {
            user_prompt(p@)
        } else {
            None
        },
        None => None,
    }
}

/// The first prompt of a conversation.
pub open spec fn first_prompt(rows: Seq<StepRow>) -> Option<Seq<char>>
    decreases rows.len(),
{
    if rows.len() == 0 {
        None
    } else if first_prompt(rows.drop_last()) is Some {
        first_prompt(rows.drop_last())
    } else {
        row_prompt(rows.last())
    }
}

fn row_time_of(row: &StepRow) -> (r: Option<i64>)
    ensures
        r == row_time(*row),
{
    match &row.metadata {
        Some(m) => extract_step_timestamp(m.as_slice()),
        None => None,
    }
}

fn row_prompt_of(row: &StepRow) -> (r: Option<String>)
    ensures
        text::opt_view(r) == row_prompt(*row),
{
    match &row.payload {
        Some(p) => if row.step_type == USER_STEP {
            extract_user_prompt_from_payload(p.as_slice())
        } else {
            None
        },
        None => None,
    }
}

/// The first prompt of a conversation, from which its title is made.
pub fn first_user_prompt(rows: &Vec<StepRow>) -> (r: Option<String>)
    ensures
        text::opt_view(r) == first_prompt(rows@),
{
    let mut found: Option<String> = None;
    let mut i: usize = 0;
    assert(rows@.take(0) == Seq::<StepRow>::empty());
    while i < rows.len()
        invariant
            i <= rows@.len(),
            text::opt_view(found) == first_prompt(rows@.take(i as int)),
        decreases rows@.len() - i,
    {
        assert(rows@.take(i + 1).drop_last() == rows@.take(i as int));
        assert(rows@.take(i + 1).last() == rows@[i as int]);
        if found.is_none() {
            found = row_prompt_of(&rows[i]);
        }
        i = i + 1;
    }
    assert(rows@.take(rows@.len() as int) == rows@);
    found
}

fn step_times(rows: &Vec<StepRow>) -> (r: (Option<i64>, Option<i64>))
    ensures
        r.0 == first_time(rows@),
        r.1 == last_time(rows@),
{
    let mut first: Option<i64> = None;
    let mut last: Option<i64> = None;
    let mut i: usize = 0;
    assert(rows@.take(0) == Seq::<StepRow>::empty());
    while i < rows.len()
        invariant
            i <= rows@.len(),
            first == first_time(rows@.take(i as int)),
            last == last_time(rows@.take(i as int)),
        decreases rows@.len() - i,
    {
        assert(rows@.take(i + 1).drop_last() == rows@.take(i as int));
        assert(rows@.take(i + 1).last() == rows@[i as int]);
        let time = row_time_of(&rows[i]);
        if time.is_some() {
            if first.is_none() {
                first = time;
            }
            last = time;
        }
        i = i + 1;
    }
    assert(rows@.take(rows@.len() as int) == rows@);
    (first, last)
}

/// What is made of a value that a file may lack: nothing where it does.
pub open spec fn made_of<S, T>(source: Option<S>, made: Option<T>) -> Option<T> {
    if source is Some {
        made
    } else {
        None
    }
}

/// What the session list makes of a conversation database, given the summary
/// that is made of its first prompt. A database without a `steps` table, a file
/// name or readable steps has no session. A conversation without a prompt is
/// named after its id; one without timestamps has the time of its file.
pub open spec fn sqlite_session(
    db: SessionDb,
    summary: Option<Seq<char>>,
    source_path: Seq<char>,
) -> Option<SessionModel> {
    match (db.has_steps, db.file_stem, db.steps) {
        (true, Some(stem), Ok(rows)) => {
            let id = db_session_id(db.cascade_id, db.trajectory_id, stem@);
            let title = if made_of(first_prompt(rows@), summary) is Some {
                summary
            } else if rows@.len() > 0 {
                Some("Session "@ + id)
            } else {
                None
            };
            let timed = first_time(rows@) is Some;
            Some(
                session_model(
                    id,
                    title,
                    text::opt_view(db.project_dir),
                    if timed {
                        first_time(rows@)
                    } else {
                        db.modified_ms
                    },
                    if timed {
                        last_time(rows@)
                    } else {
                        db.modified_ms
                    },
                    source_path,
                ),
            )
        },
        _ => None,
    }
}

/// The view of an optional session.
pub open spec fn opt_session(s: Option<SessionMeta>) -> Option<SessionModel> {
    match s {
        Some(v) => Some(v@),
        None => None,
    }
}

/// A copy of an optional string.
fn copy_opt(s: &Option<String>) -> (r: Option<String>)
    ensures
        text::opt_view(r) == text::opt_view(*s),
{
    match s {
        Some(v) => Some(v.clone()),
        None => None,
    }
}

/// Makes the session of a conversation database.
pub fn parse_session_sqlite(db: &SessionDb, summary: &Option<String>, source_path: &str) -> (r:
    Option<SessionMeta>)
    ensures
        opt_session(r) == sqlite_session(*db, text::opt_view(*summary), source_path@),
{
    if !db.has_steps {
        return None;
    }
    let stem = match &db.file_stem {
        Some(stem) => stem,
        None => {
            return None;
        },
    };
    let rows = match &db.steps {
        Ok(rows) => rows,
        Err(_) => {
            return None;
        },
    };
    let id: String = if is_filled(&db.cascade_id) {
        match &db.cascade_id {
            Some(c) => c.clone(),
            None => stem.clone(),
        }
    } else if is_filled(&db.trajectory_id) {
        match &db.trajectory_id {
            Some(t) => t.clone(),
            None => stem.clone(),
        }
    } else {
        stem.clone()
    };
    let title: Option<String> = if summary.is_some() && first_user_prompt(rows).is_some() {
        copy_opt(summary)
    } else if rows.len() > 0 {
        let mut name = String::from_str("Session ");
        name.append(id.as_str());
        Some(name)
    } else {
        None
    };
    let (first, last) = step_times(rows);
    let (created_at, last_active_at) = if first.is_some() {
        (first, last)
    } else {
        (db.modified_ms, db.modified_ms)
    };
    Some(
        make_session(
            id,
            title,
            copy_opt(&db.project_dir),
            created_at,
            last_active_at,
            source_path,
        ),
    )
}

// ---------------------------------------------------------------------------
// Legacy JSON sessions
// ---------------------------------------------------------------------------

/// What a legacy JSON file says of its session.
#[derive(Debug)]
pub struct JsonSession {
    pub session_id: String,
    pub start_time: Option<Json>,
    pub last_updated: Option<Json>,
    /// The content of the first user message, where it is a text that is not
    /// blank.
    pub first_prompt: Option<String>,
}

/// What a legacy document says of its session.
pub ghost struct JsonSessionModel {
    pub session_id: Seq<char>,
    pub start_time: Option<json::JsonModel>,
    pub last_updated: Option<json::JsonModel>,
    pub first_prompt: Option<Seq<char>>,
}

/// The first message of a user.
pub open spec fn first_user_message(messages: Seq<json::JsonModel>) -> Option<json::JsonModel>
    decreases messages.len(),
{
    if messages.len() == 0 {
        None
    } else if messages[0].text_field("type"@) == Some("user"@) {
        Some(messages[0])
    } else {
        first_user_message(messages.drop_first())
    }
}

/// The text of a message, where it has one that is not blank.
pub open spec fn message_prompt(message: json::JsonModel) -> Option<Seq<char>> {
    match message.text_field("content"@) {
        Some(s) => if text::trimmed(s).len() > 0 {
            Some(s)
        } else {
            None
        },
        None => None,
    }
}

/// The prompt of the first user message of a document.
pub open spec fn document_prompt(doc: json::JsonModel) -> Option<Seq<char>> {
    match doc.field("messages"@) {
        Some(json::JsonModel::Array(items)) => match first_user_message(items) {
            Some(m) => message_prompt(m),
            None => None,
        },
        _ => None,
    }
}

/// What a legacy document says of its session; one without a session id says
/// nothing.
pub open spec fn document_session(doc: json::JsonModel) -> Option<JsonSessionModel> {
    match doc.text_field("sessionId"@) {
        Some(session_id) => Some(
            JsonSessionModel {
                session_id,
                start_time: doc.field("startTime"@),
                last_updated: doc.field("lastUpdated"@),
                first_prompt: document_prompt(doc),
            },
        ),
        None => None,
    }
}

/// What the text of a legacy file says of its session.
pub open spec fn text_session(content: Seq<char>) -> Option<JsonSessionModel> {
    match json::json_document(content) {
        Ok(doc) => document_session(doc),
        Err(_) => None,
    }
}

/// The view of an optional document.
pub open spec fn opt_json(j: Option<Json>) -> Option<json::JsonModel> {
    match j {
        Some(v) => Some(v@),
        None => None,
    }
}

/// Whether `s` is what the model describes.
pub open spec fn is_json_session(s: Option<JsonSession>, m: Option<JsonSessionModel>) -> bool {
    match (s, m) {
        (Some(a), Some(b)) => {
            &&& a.session_id@ == b.session_id
            &&& opt_json(a.start_time) == b.start_time
            &&& opt_json(a.last_updated) == b.last_updated
            &&& text::opt_view(a.first_prompt) == b.first_prompt
        },
        (None, None) => true,
        _ => false,
    }
}

fn copy_field(doc: &Json, key: &str) -> (r: Option<Json>)
    ensures
        opt_json(r) == doc@.field(key@),
{
    match doc.get(key) {
        Some(v) => Some(copy_json(v)),
        None => None,
    }
}

fn document_prompt_of(doc: &Json) -> (r: Option<String>)
    ensures
        text::opt_view(r) == document_prompt(doc@),
{
    let items = match doc.get("messages") {
        Some(v) => match v.as_array() {
            Some(items) => items,
            None => {
                return None;
            },
        },
        None => {
            return None;
        },
    };
    let ghost models = json::item_models(items@);
    let mut i: usize = 0;
    assert(models.skip(0) == models);
    while i < items.len()
        invariant
            models == json::item_models(items@),
            doc@.field("messages"@) == Some(json::JsonModel::Array(models)),
            i <= items@.len(),
            first_user_message(models) == first_user_message(models.skip(i as int)),
        decreases items@.len() - i,
    {
        assert(models.skip(i as int)[0] == items@[i as int]@);
        assert(models.skip(i as int).drop_first() == models.skip(i + 1));
        if let Some(kind) = items[i].get_str("type") {
            if text::same_text(kind, "user") {
                return match items[i].get_str("content") {
                    Some(s) => if text::trim_text(s).is_empty() {
                        None
                    } else {
                        Some(s.to_owned())
                    },
                    None => None,
                };
            }
        }
        i = i + 1;
    }
    None
}

/// Reads what a legacy document says of its session.
pub fn read_json_session(doc: &Json) -> (r: Option<JsonSession>)
    ensures
        is_json_session(r, document_session(doc@)),
{
    match doc.get_str("sessionId") {
        Some(id) => Some(
            JsonSession {
                session_id: id.to_owned(),
                start_time: copy_field(doc, "startTime"),
                last_updated: copy_field(doc, "lastUpdated"),
                first_prompt: document_prompt_of(doc),
            },
        ),
        None => None,
    }
}

/// Reads what the text of a legacy file says of its session.
pub fn parse_json_session(content: &str) -> (r: Option<JsonSession>)
    ensures
        is_json_session(r, text_session(content@)),
{
    match parse_json(content) {
        Ok(doc) => read_json_session(&doc),
        Err(_) => None,
    }
}

// ---------------------------------------------------------------------------
// Session files
// ---------------------------------------------------------------------------

/// How a session is stored.
#[derive(Debug, Clone, Copy, PartialEq, Eq, Structural)]
pub enum SessionFormat {
    LegacyJson,
    Sqlite,
}

/// How a file with this extension stores its session.
pub fn session_format(extension: Option<&str>) -> (r: SessionFormat)
    ensures
        r == (if json::opt_str(extension) == Some("json"@) {
            SessionFormat::LegacyJson
        } else {
            SessionFormat::Sqlite
        }),
{
    match extension {
        Some(e) => if text::same_text(e, "json") {
            SessionFormat::LegacyJson
        } else {
            SessionFormat::Sqlite
        },
        None => SessionFormat::Sqlite,
    }
}

/// What is there of a session file.
#[derive(Debug)]
pub enum SessionFile {
    Missing,
    /// The text of a legacy file, or why it cannot be read.
    LegacyJson(Result<String, String>),
    /// A conversation database, where it can be opened.
    Sqlite(Option<SessionDb>),
}

/// What the session list makes of the first prompt, and of the times of a legacy
/// document. Where the file has none, these do not count.
#[derive(Debug)]
pub struct SessionHints {
    pub summary: Option<String>,
    pub created_at: Option<i64>,
    pub last_active_at: Option<i64>,
}

/// What the session list shows of a file.
pub open spec fn file_session(
    file: SessionFile,
    hints: SessionHints,
    source_path: Seq<char>,
) -> Option<SessionModel> {
    match file {
        SessionFile::Missing => None,
        SessionFile::LegacyJson(Ok(content)) => match text_session(content@) {
            Some(s) => Some(
                session_model(
                    s.session_id,
                    made_of(s.first_prompt, text::opt_view(hints.summary)),
                    None,
                    made_of(s.start_time, hints.created_at),
                    made_of(s.last_updated, hints.last_active_at),
                    source_path,
                ),
            ),
            None => None,
        },
        SessionFile::LegacyJson(Err(_)) => None,
        SessionFile::Sqlite(Some(db)) => sqlite_session(db, text::opt_view(hints.summary), source_path),
        SessionFile::Sqlite(None) => None,
    }
}

/// Makes the session of a file.
pub fn parse_session(file: &SessionFile, hints: &SessionHints, source_path: &str) -> (r: Option<
    SessionMeta,
>)
    ensures
        opt_session(r) == file_session(*file, *hints, source_path@),
{
    match file {
        SessionFile::Missing => None,
        SessionFile::LegacyJson(Ok(content)) => match parse_json_session(content.as_str()) {
            Some(s) => {
                let title: Option<String> = if s.first_prompt.is_some() {
                    copy_opt(&hints.summary)
                } else {
                    None
                };
                let created_at: Option<i64> = if s.start_time.is_some() {
                    hints.created_at
                } else {
                    None
                };
                let last_active_at: Option<i64> = if s.last_updated.is_some() {
                    hints.last_active_at
                } else {
                    None
                };
                Some(
                    make_session(s.session_id, title, None, created_at, last_active_at, source_path),
                )
            },
            None => None,
        },
        SessionFile::LegacyJson(Err(_)) => None,
        SessionFile::Sqlite(Some(db)) => parse_session_sqlite(db, &hints.summary, source_path),
        SessionFile::Sqlite(None) => None,
    }
}

// ---------------------------------------------------------------------------
// Scanning
// ---------------------------------------------------------------------------

/// A file that a scan found: its session, where it has one, and the project
/// directory that stands beside a legacy file.
#[derive(Debug)]
pub struct ScannedSession {
    pub meta: Option<SessionMeta>,
    pub project_dir: Option<String>,
}

/// When a session was last active, else created, else zero.
pub open spec fn activity(s: SessionModel) -> i64 {
    match json::either(s.last_active_at, s.created_at) {
        Some(t) => t,
        None => 0,
    }
}

/// A list with one more session, put after all sessions that are at least as
/// recent.
pub open spec fn placed(list: Seq<SessionModel>, s: SessionModel) -> Seq<SessionModel>
    decreases list.len(),
{
    if list.len() == 0 || activity(list.last()) >= activity(s) {
        list.push(s)
    } else {
        placed(list.drop_last(), s).push(list.last())
    }
}

/// The sessions of a list by descending activity; sessions of the same activity
/// keep their order.
pub open spec fn by_activity(list: Seq<SessionModel>) -> Seq<SessionModel>
    decreases list.len(),
{
    if list.len() == 0 {
        list
    } else {
        placed(by_activity(list.drop_last()), list.last())
    }
}

/// The session of a scanned file. A project directory beside the file goes
/// before the one in it.
pub open spec fn scanned_model(s: ScannedSession) -> Option<SessionModel> {
    match s.meta {
        Some(m) => Some(
            SessionModel {
                project_dir: json::either(text::opt_view(s.project_dir), m@.project_dir),
                ..m@
            },
        ),
        None => None,
    }
}

/// The sessions of the scanned files.
pub open spec fn scanned_models(found: Seq<ScannedSession>) -> Seq<SessionModel>
    decreases found.len(),
{
    if found.len() == 0 {
        seq![]
    } else {
        match scanned_model(found.last()) {
            Some(m) => scanned_models(found.drop_last()).push(m),
            None => scanned_models(found.drop_last()),
        }
    }
}

/// The views of a list of sessions.
pub open spec fn session_models(list: Seq<SessionMeta>) -> Seq<SessionModel> {
    Seq::new(list.len(), |i: int| list[i]@)
}

fn activity_of(s: &SessionMeta) -> (r: i64)
    ensures
        r == activity(s@),
{
    match s.last_active_at {
        Some(t) => t,
        None => match s.created_at {
            Some(t) => t,
            None => 0,
        },
    }
}

proof fn lemma_placed_at(list: Seq<SessionModel>, s: SessionModel, p: int)
    requires
        0 <= p <= list.len(),
        p > 0 ==> activity(list[p - 1]) >= activity(s),
        forall|i: int| p <= i < list.len() ==> activity(#[trigger] list[i]) < activity(s),
    ensures
        placed(list, s) == list.insert(p, s),
    decreases list.len(),
{
    if p == list.len() {
        assert(list.insert(p, s) == list.push(s));
    } else {
        let front = list.drop_last();
        assert forall|i: int| p <= i < front.len() implies activity(#[trigger] front[i])
            < activity(s) by {
            assert(front[i] == list[i]);
        }
        lemma_placed_at(front, s, p);
        assert(list.last() == list[list.len() - 1]);
        assert(list.insert(p, s) == front.insert(p, s).push(list.last()));
    }
}

/// Puts a session after all sessions that are at least as recent.
fn place_session(list: &mut Vec<SessionMeta>, s: SessionMeta)
    ensures
        session_models(final(list)@) == placed(session_models(old(list)@), s@),
{
    let ghost models = session_models(list@);
    let key: i64 = activity_of(&s);
    let mut p: usize = list.len();
    while p > 0 && activity_of(&list[p - 1]) < key
        invariant
            p <= list@.len(),
            list@ == old(list)@,
            models == session_models(list@),
            key == activity(s@),
            forall|i: int| p <= i < models.len() ==> activity(#[trigger] models[i]) < key,
        decreases p,
    {
        p = p - 1;
    }
    proof {
        lemma_placed_at(models, s@, p as int);
    }
    let ghost before = list@;
    list.insert(p, s);
    assert(session_models(list@) == models.insert(p as int, s@));
}

/// Which files of a scan are sessions: positions in the listings of the
/// conversation directories and of the legacy chat directories.
pub struct SessionFiles {
    pub conversations: Vec<(usize, usize)>,
    pub chats: Vec<(usize, usize)>,
}

/// Picks the files of a scan. A file that is found under several paths is
/// picked once, in the conversation directories before the chat directories.
pub fn pick_session_files(conversations: &Vec<DirListing>, chats: &Vec<DirListing>) -> (r:
    SessionFiles)
    ensures
        ({
            let (databases, seen) = files::picked(conversations@, "db"@, Set::empty());
            &&& files::as_positions(r.conversations@) == databases
            &&& files::as_positions(r.chats@) == files::picked(chats@, "json"@, seen).0
        }),
        forall|k: int|
            0 <= k < r.conversations@.len() ==> files::is_file_at(
                conversations@,
                ((#[trigger] r.conversations@[k]).0 as int, r.conversations@[k].1 as int),
            ),
        forall|k: int|
            0 <= k < r.chats@.len() ==> files::is_file_at(
                chats@,
                ((#[trigger] r.chats@[k]).0 as int, r.chats@[k].1 as int),
            ),
{
    let mut seen = StringHashSet::new();
    let databases = pick_unique_files(conversations, "db", &mut seen);
    let documents = pick_unique_files(chats, "json", &mut seen);
    SessionFiles { conversations: databases, chats: documents }
}

/// The session list of a scan: the sessions of the files, most recent first.
pub fn scan_sessions(found: Vec<ScannedSession>) -> (r: Vec<SessionMeta>)
    ensures
        session_models(r@) == by_activity(scanned_models(found@)),
{
    let ghost all = found@;
    let mut out: Vec<SessionMeta> = Vec::new();
    assert(all.take(0) == Seq::<ScannedSession>::empty());
    assert(session_models(out@) == Seq::<SessionModel>::empty());
    for item in it: found
        invariant
            it.seq() == all,
            session_models(out@) == by_activity(scanned_models(all.take(it.index()))),
    {
        proof {
            assert(all.take(it.index() + 1).drop_last() == all.take(it.index()));
            assert(all.take(it.index() + 1).last() == item);
        }
        let ghost before = scanned_models(all.take(it.index()));
        if let Some(meta) = item.meta {
            let mut meta = meta;
            let ghost plain = meta@;
            if item.project_dir.is_some() {
                meta.project_dir = item.project_dir;
            }
            proof {
                let m = SessionModel {
                    project_dir: json::either(text::opt_view(item.project_dir), plain.project_dir),
                    ..plain
                };
                assert(meta@ == m);
                assert(before.push(m).drop_last() == before);
            }
            place_session(&mut out, meta);
        }
    }
    assert(all.take(all.len() as int) == all);
    out
}

/// The session list is sorted: no session comes before a more recent one.
pub proof fn law_session_list_sorted(list: Seq<SessionModel>)
    ensures
        forall|i: int, j: int|
            0 <= i < j < by_activity(list).len() ==> activity(#[trigger] by_activity(list)[i])
                >= activity(#[trigger] by_activity(list)[j]),
    decreases list.len(),
{
    if list.len() > 0 {
        law_session_list_sorted(list.drop_last());
        lemma_placed_sorted(by_activity(list.drop_last()), list.last());
    }
}

proof fn lemma_placed_sorted(list: Seq<SessionModel>, s: SessionModel)
    requires
        forall|i: int, j: int|
            0 <= i < j < list.len() ==> activity(#[trigger] list[i]) >= activity(
                #[trigger] list[j],
            ),
    ensures
        forall|i: int, j: int|
            0 <= i < j < placed(list, s).len() ==> activity(#[trigger] placed(list, s)[i])
                >= activity(#[trigger] placed(list, s)[j]),
        placed(list, s).len() == list.len() + 1,
        forall|i: int|
            0 <= i < placed(list, s).len() ==> #[trigger] placed(list, s)[i] == s || list.contains(
                placed(list, s)[i],
            ),
    decreases list.len(),
{
    let out = placed(list, s);
    if list.len() == 0 || activity(list.last()) >= activity(s) {
        assert forall|i: int, j: int| 0 <= i < j < out.len() implies activity(#[trigger] out[i])
            >= activity(#[trigger] out[j]) by {
            assert(out[i] == list[i]);
            if j < list.len() {
                assert(out[j] == list[j]);
            } else {
                assert(activity(list[i]) >= activity(list[list.len() - 1]));
            }
        }
        assert forall|i: int| 0 <= i < out.len() implies #[trigger] out[i] == s || list.contains(
            out[i],
        ) by {
            if i < list.len() {
                assert(out[i] == list[i]);
            }
        }
    } else {
        let front = list.drop_last();
        assert forall|i: int, j: int| 0 <= i < j < front.len() implies activity(#[trigger] front[i])
            >= activity(#[trigger] front[j]) by {
            assert(front[i] == list[i] && front[j] == list[j]);
        }
        lemma_placed_sorted(front, s);
        let inner = placed(front, s);
        let last = list[list.len() - 1];
        assert forall|i: int| 0 <= i < inner.len() implies activity(#[trigger] inner[i])
            >= activity(last) && (inner[i] == s || list.contains(inner[i])) by {
            if inner[i] != s {
                let k = choose|k: int| 0 <= k < front.len() && front[k] == inner[i];
                assert(list[k] == front[k]);
                assert(activity(list[k]) >= activity(last));
            }
        }
        assert forall|i: int, j: int| 0 <= i < j < out.len() implies activity(#[trigger] out[i])
            >= activity(#[trigger] out[j]) by {
            assert(out[i] == inner[i]);
            if j < inner.len() {
                assert(out[j] == inner[j]);
            }
        }
        assert forall|i: int| 0 <= i < out.len() implies #[trigger] out[i] == s || list.contains(
            out[i],
        ) by {
            if i < inner.len() {
                assert(out[i] == inner[i]);
            } else {
                assert(list[list.len() - 1] == out[i]);
            }
        }
    }
}

/// The sessions of a list that were last active at `t`, in their order.
pub open spec fn active_at(list: Seq<SessionModel>, t: i64) -> Seq<SessionModel>
    decreases list.len(),
{
    if list.len() == 0 {
        list
    } else if activity(list.last()) == t {
        active_at(list.drop_last(), t).push(list.last())
    } else {
        active_at(list.drop_last(), t)
    }
}

/// Sorting loses, adds and repeats no session, and keeps sessions of the same
/// activity in their order.
pub proof fn law_session_list_stable(list: Seq<SessionModel>, t: i64)
    ensures
        active_at(by_activity(list), t) == active_at(list, t),
    decreases list.len(),
{
    if list.len() > 0 {
        law_session_list_stable(list.drop_last(), t);
        law_session_list_sorted(list.drop_last());
        lemma_placed_active(by_activity(list.drop_last()), list.last(), t);
    }
}

proof fn lemma_placed_active(list: Seq<SessionModel>, s: SessionModel, t: i64)
    requires
        forall|i: int, j: int|
            0 <= i < j < list.len() ==> activity(#[trigger] list[i]) >= activity(
                #[trigger] list[j],
            ),
    ensures
        active_at(placed(list, s), t) == (if activity(s) == t {
            active_at(list, t).push(s)
        } else {
            active_at(list, t)
        }),
    decreases list.len(),
{
    let out = placed(list, s);
    if list.len() == 0 || activity(list.last()) >= activity(s) {
        assert(out.drop_last() == list);
    } else {
        let front = list.drop_last();
        assert forall|i: int, j: int| 0 <= i < j < front.len() implies activity(#[trigger] front[i])
            >= activity(#[trigger] front[j]) by {
            assert(front[i] == list[i] && front[j] == list[j]);
        }
        lemma_placed_active(front, s, t);
        assert(out.drop_last() == placed(front, s));
        if activity(list.last()) == t {
            assert(activity(s) > t);
        }
    }
}

// ---------------------------------------------------------------------------
// Messages
// ---------------------------------------------------------------------------

/// The time of a message.
#[derive(Debug)]
pub enum MessageTime {
    Absent,
    Millis(i64),
    /// The timestamp of a legacy message as its document has it.
    Document(Json),
}

/// A message of a session.
#[derive(Debug)]
pub struct SessionMessage {
    pub role: String,
    pub content: String,
    pub time: MessageTime,
}

/// The time of a message.
pub ghost enum TimeModel {
    Absent,
    Millis(i64),
    Document(json::JsonModel),
}

/// What a message holds.
#[verifier::ext_equal]
pub ghost struct MessageModel {
    pub role: Seq<char>,
    pub content: Seq<char>,
    pub time: TimeModel,
}

impl View for MessageTime {
    type V = TimeModel;

    open spec fn view(&self) -> TimeModel {
        match *self {
            MessageTime::Absent => TimeModel::Absent,
            MessageTime::Millis(t) => TimeModel::Millis(t),
            MessageTime::Document(j) => TimeModel::Document(j@),
        }
    }
}

impl View for SessionMessage {
    type V = MessageModel;

    open spec fn view(&self) -> MessageModel {
        MessageModel { role: self.role@, content: self.content@, time: self.time@ }
    }
}

/// The views of a list of messages.
pub open spec fn message_models(messages: Seq<SessionMessage>) -> Seq<MessageModel> {
    Seq::new(messages.len(), |i: int| messages[i]@)
}

/// The time of a message that was sent in a step.
pub open spec fn step_time_model(row: StepRow) -> TimeModel {
    match row_time(row) {
        Some(t) => TimeModel::Millis(t),
        None => TimeModel::Absent,
    }
}

/// The role and content of a step row, where it has a message.
pub open spec fn row_content(row: StepRow) -> Option<(Seq<char>, Seq<char>)> {
    match row.payload {
        Some(p) => if row.step_type == USER_STEP {
            match user_prompt(p@) {
                Some(c) => Some(("user"@, c)),
                None => None,
            }
        } else if row.step_type == ASSISTANT_STEP {
            match assistant_content(p@) {
                Some(c) => Some(("assistant"@, c)),
                None => None,
            }
        } else if row.step_type == ERROR_STEP {
            match error_content(p@) {
                Some(c) => Some(("assistant"@, c)),
                None => None,
            }
        } else {
            None
        },
        None => None,
    }
}

/// The messages of the steps of a conversation.
pub open spec fn step_messages(rows: Seq<StepRow>) -> Seq<MessageModel>
    decreases rows.len(),
{
    if rows.len() == 0 {
        seq![]
    } else {
        let before = step_messages(rows.drop_last());
        match row_content(rows.last()) {
            Some((role, content)) => before.push(
                MessageModel { role, content, time: step_time_model(rows.last()) },
            ),
            None => before,
        }
    }
}

fn row_content_of(row: &StepRow) -> (r: Option<(&'static str, String)>)
    ensures
        match r {
            Some((role, content)) => row_content(*row) == Some((role@, content@)),
            None => row_content(*row) is None,
        },
{
    match &row.payload {
        Some(p) => if row.step_type == USER_STEP {
            match extract_user_prompt_from_payload(p.as_slice()) {
                Some(c) => Some(("user", c)),
                None => None,
            }
        } else if row.step_type == ASSISTANT_STEP {
            match extract_assistant_content_from_payload(p.as_slice()) {
                Some(c) => Some(("assistant", c)),
                None => None,
            }
        } else if row.step_type == ERROR_STEP {
            match extract_error_content_from_payload(p.as_slice()) {
                Some(c) => Some(("assistant", c)),
                None => None,
            }
        } else {
            None
        },
        None => None,
    }
}

/// Makes the messages of the steps of a conversation.
pub fn load_messages_sqlite(rows: &Vec<StepRow>) -> (r: Vec<SessionMessage>)
    ensures
        message_models(r@) == step_messages(rows@),
{
    let mut out: Vec<SessionMessage> = Vec::new();
    let mut i: usize = 0;
    assert(rows@.take(0) == Seq::<StepRow>::empty());
    assert(message_models(out@) == Seq::<MessageModel>::empty());
    while i < rows.len()
        invariant
            i <= rows@.len(),
            message_models(out@) == step_messages(rows@.take(i as int)),
        decreases rows@.len() - i,
    {
        assert(rows@.take(i + 1).drop_last() == rows@.take(i as int));
        assert(rows@.take(i + 1).last() == rows@[i as int]);
        if let Some((role, content)) = row_content_of(&rows[i]) {
            let time = match row_time_of(&rows[i]) {
                Some(t) => MessageTime::Millis(t),
                None => MessageTime::Absent,
            };
            let ghost before = out@;
            let message = SessionMessage { role: role.to_owned(), content, time };
            out.push(message);
            assert(message_models(out@) == message_models(before).push(message@));
        }
        i = i + 1;
    }
    assert(rows@.take(rows@.len() as int) == rows@);
    out
}

/// The role of a legacy message.
pub open spec fn legacy_role(message: json::JsonModel) -> Option<Seq<char>> {
    match message.text_field("type"@) {
        Some(kind) => if kind == "gemini"@ {
            Some("assistant"@)
        } else if kind == "user"@ {
            Some("user"@)
        } else {
            None
        },
        None => None,
    }
}

/// The texts of the items that have one.
pub open spec fn item_texts(items: Seq<json::JsonModel>) -> Seq<Seq<char>>
    decreases items.len(),
{
    if items.len() == 0 {
        seq![]
    } else {
        match items.last().text_field("text"@) {
            Some(s) => item_texts(items.drop_last()).push(s),
            None => item_texts(items.drop_last()),
        }
    }
}

/// The text of a legacy message.
pub open spec fn legacy_text(message: json::JsonModel) -> Seq<char> {
    match message.field("content"@) {
        Some(json::JsonModel::Text(s)) => s,
        Some(json::JsonModel::Array(items)) => text::joined(item_texts(items), "\n"@),
        _ => ""@,
    }
}

/// A text with a line for each call that names its tool.
pub open spec fn with_calls(content: Seq<char>, calls: Seq<json::JsonModel>) -> Seq<char>
    decreases calls.len(),
{
    if calls.len() == 0 {
        content
    } else {
        let before = with_calls(content, calls.drop_last());
        match calls.last().text_field("name"@) {
            Some(name) => (if before.len() == 0 {
                before
            } else {
                before + "\n"@
            }) + tool_line(name),
            None => before,
        }
    }
}

/// The content of a legacy message.
pub open spec fn legacy_content(message: json::JsonModel) -> Seq<char> {
    match message.field("toolCalls"@) {
        Some(json::JsonModel::Array(calls)) => with_calls(legacy_text(message), calls),
        _ => legacy_text(message),
    }
}

/// A legacy message; one of another type, or without content, is left out.
pub open spec fn legacy_message(message: json::JsonModel) -> Option<MessageModel> {
    match legacy_role(message) {
        Some(role) => if text::trimmed(legacy_content(message)).len() == 0 {
            None
        } else {
            Some(
                MessageModel {
                    role,
                    content: legacy_content(message),
                    time: match message.field("timestamp"@) {
                        Some(v) => TimeModel::Document(v),
                        None => TimeModel::Absent,
                    },
                },
            )
        },
        None => None,
    }
}

/// The messages of a list of legacy messages.
pub open spec fn legacy_messages(items: Seq<json::JsonModel>) -> Seq<MessageModel>
    decreases items.len(),
{
    if items.len() == 0 {
        seq![]
    } else {
        match legacy_message(items.last()) {
            Some(m) => legacy_messages(items.drop_last()).push(m),
            None => legacy_messages(items.drop_last()),
        }
    }
}

/// The messages of a legacy file, or the error that is shown.
pub open spec fn text_messages(content: Seq<char>) -> Result<Seq<MessageModel>, Seq<char>> {
    match json::json_document(content) {
        Ok(doc) => match doc.field("messages"@) {
            Some(json::JsonModel::Array(items)) => Ok(legacy_messages(items)),
            _ => Err("No messages array found"@),
        },
        Err(e) => Err("Failed to parse session JSON: "@ + e),
    }
}

/// The view of a list of messages or an error.
pub open spec fn messages_result(r: Result<Vec<SessionMessage>, String>) -> Result<
    Seq<MessageModel>,
    Seq<char>,
> {
    match r {
        Ok(m) => Ok(message_models(m@)),
        Err(e) => Err(e@),
    }
}

fn item_texts_of(items: &Vec<Json>) -> (r: Vec<String>)
    ensures
        text::views(r@) == item_texts(json::item_models(items@)),
{
    let ghost models = json::item_models(items@);
    let mut out: Vec<String> = Vec::new();
    let mut i: usize = 0;
    assert(models.take(0) == Seq::<json::JsonModel>::empty());
    assert(text::views(out@) == Seq::<Seq<char>>::empty());
    while i < items.len()
        invariant
            models == json::item_models(items@),
            i <= items@.len(),
            text::views(out@) == item_texts(models.take(i as int)),
        decreases items@.len() - i,
    {
        assert(models.take(i + 1).drop_last() == models.take(i as int));
        assert(models.take(i + 1).last() == items@[i as int]@);
        if let Some(s) = items[i].get_str("text") {
            let ghost before = out@;
            out.push(s.to_owned());
            assert(text::views(out@) == text::views(before).push(s@));
        }
        i = i + 1;
    }
    assert(models.take(items@.len() as int) == models);
    out
}

fn legacy_text_of(message: &Json) -> (r: String)
    ensures
        r@ == legacy_text(message@),
{
    match message.get("content") {
        Some(content) => match content.as_str() {
            Some(s) => s.to_owned(),
            None => match content.as_array() {
                Some(items) => text::join_text(&item_texts_of(items), "\n"),
                None => "".to_owned(),
            },
        },
        None => "".to_owned(),
    }
}

fn add_calls(content: &mut String, calls: &Vec<Json>)
    ensures
        final(content)@ == with_calls(old(content)@, json::item_models(calls@)),
{
    let ghost first = content@;
    let ghost models = json::item_models(calls@);
    let mut i: usize = 0;
    assert(models.take(0) == Seq::<json::JsonModel>::empty());
    while i < calls.len()
        invariant
            models == json::item_models(calls@),
            first == old(content)@,
            i <= calls@.len(),
            content@ == with_calls(first, models.take(i as int)),
        decreases calls@.len() - i,
    {
        assert(models.take(i + 1).drop_last() == models.take(i as int));
        assert(models.take(i + 1).last() == calls@[i as int]@);
        if let Some(name) = calls[i].get_str("name") {
            if !content.as_str().is_empty() {
                content.append("\n");
            }
            let line = text::concat3("[Tool: ", name, "]");
            content.append(line.as_str());
        }
        i = i + 1;
    }
    assert(models.take(calls@.len() as int) == models);
}

fn legacy_message_of(message: &Json) -> (r: Option<SessionMessage>)
    ensures
        match r {
            Some(m) => legacy_message(message@) == Some(m@),
            None => legacy_message(message@) is None,
        },
{
    let role: &'static str = match message.get_str("type") {
        Some(kind) => if text::same_text(kind, "gemini") {
            "assistant"
        } else if text::same_text(kind, "user") {
            "user"
        } else {
            return None;
        },
        None => {
            return None;
        },
    };
    let mut content = legacy_text_of(message);
    if let Some(calls) = message.get("toolCalls") {
        if let Some(items) = calls.as_array() {
            add_calls(&mut content, items);
        }
    }
    if text::trim_text(content.as_str()).is_empty() {
        return None;
    }
    let time = match message.get("timestamp") {
        Some(v) => MessageTime::Document(copy_json(v)),
        None => MessageTime::Absent,
    };
    Some(SessionMessage { role: role.to_owned(), content, time })
}

/// Makes the messages of the text of a legacy file.
pub fn load_messages_json(content: &str) -> (r: Result<Vec<SessionMessage>, String>)
    ensures
        messages_result(r) == text_messages(content@),
{
    let doc = match parse_json(content) {
        Ok(doc) => doc,
        Err(e) => {
            let mut message = String::from_str("Failed to parse session JSON: ");
            message.append(e.as_str());
            return Err(message);
        },
    };
    let items = match doc.get("messages") {
        Some(v) => match v.as_array() {
            Some(items) => items,
            None => {
                return Err("No messages array found".to_owned());
            },
        },
        None => {
            return Err("No messages array found".to_owned());
        },
    };
    Ok(load_legacy_messages(items))
}

/// Makes the messages of a list of legacy messages.
pub fn load_legacy_messages(items: &Vec<Json>) -> (r: Vec<SessionMessage>)
    ensures
        message_models(r@) == legacy_messages(json::item_models(items@)),
{
    let ghost models = json::item_models(items@);
    let mut out: Vec<SessionMessage> = Vec::new();
    let mut i: usize = 0;
    assert(models.take(0) == Seq::<json::JsonModel>::empty());
    assert(message_models(out@) == Seq::<MessageModel>::empty());
    while i < items.len()
        invariant
            models == json::item_models(items@),
            i <= items@.len(),
            message_models(out@) == legacy_messages(models.take(i as int)),
        decreases items@.len() - i,
    {
        assert(models.take(i + 1).drop_last() == models.take(i as int));
        assert(models.take(i + 1).last() == items@[i as int]@);
        if let Some(message) = legacy_message_of(&items[i]) {
            let ghost before = out@;
            out.push(message);
            assert(message_models(out@) == message_models(before).push(message@));
        }
        i = i + 1;
    }
    assert(models.take(items@.len() as int) == models);
    out
}

/// The messages of a file, or the error that is shown.
pub open spec fn file_messages(file: SessionFile, path: Seq<char>) -> Result<
    Seq<MessageModel>,
    Seq<char>,
> {
    match file {
        SessionFile::Missing => Err("Session file does not exist: "@ + path),
        SessionFile::LegacyJson(Ok(content)) => text_messages(content@),
        SessionFile::LegacyJson(Err(e)) => Err("Failed to read session: "@ + e@),
        SessionFile::Sqlite(None) => Err("Failed to open SQLite database: "@ + path),
        SessionFile::Sqlite(Some(db)) => match db.steps {
            Ok(rows) => Ok(step_messages(rows@)),
            Err(StepsError::Prepare(e)) => Err("Failed to prepare query on steps: "@ + e@),
            Err(StepsError::Query(e)) => Err("Failed to query steps: "@ + e@),
        },
    }
}

fn with_detail(message: &str, detail: &str) -> (r: String)
    ensures
        r@ == message@ + detail@,
{
    let mut out = String::from_str(message);
    out.append(detail);
    out
}

/// Makes the messages of a file.
pub fn load_messages(file: &SessionFile, path: &str) -> (r: Result<Vec<SessionMessage>, String>)
    ensures
        messages_result(r) == file_messages(*file, path@),
{
    match file {
        SessionFile::Missing => Err(with_detail("Session file does not exist: ", path)),
        SessionFile::LegacyJson(Ok(content)) => load_messages_json(content.as_str()),
        SessionFile::LegacyJson(Err(e)) => Err(with_detail("Failed to read session: ", e.as_str())),
        SessionFile::Sqlite(None) => Err(with_detail("Failed to open SQLite database: ", path)),
        SessionFile::Sqlite(Some(db)) => match &db.steps {
            Ok(rows) => Ok(load_messages_sqlite(rows)),
            Err(StepsError::Prepare(e)) => Err(
                with_detail("Failed to prepare query on steps: ", e.as_str()),
            ),
            Err(StepsError::Query(e)) => Err(with_detail("Failed to query steps: ", e.as_str())),
        },
    }
}

// ---------------------------------------------------------------------------
// Deleting
// ---------------------------------------------------------------------------

/// What deleting a session removes.
#[derive(Debug)]
pub struct DeletePlan {
    /// The file of the session. If it cannot be removed, nothing else is.
    pub session_file: String,
    /// Files that are removed where they exist.
    pub other_files: Vec<String>,
    /// Directories that are removed with all they hold where they exist.
    pub directories: Vec<JoinedPath>,
}

/// A session that is asked to be deleted.
#[derive(Debug)]
pub struct DeleteRequest {
    pub session_id: String,
    /// The path of the session file.
    pub path: String,
    /// The path of the session file without its extension.
    pub path_without_extension: String,
    /// The file name without its extension, empty where it has none.
    pub file_stem: String,
    /// The directory above the one that holds the session file.
    pub grandparent: Option<String>,
    /// The directory that the session was found below.
    pub root: String,
    /// The Gemini directory.
    pub gemini_dir: String,
}

/// The write-ahead log and shared memory files beside a database, in both
/// usual spellings.
pub open spec fn side_files(r: DeleteRequest) -> Seq<Seq<char>> {
    seq![
        r.path_without_extension@ + ".db-wal"@,
        r.path@ + "-wal"@,
        r.path_without_extension@ + ".db-shm"@,
        r.path@ + "-shm"@,
    ]
}

/// The memory of a session below a directory.
pub open spec fn brain_below(base: Seq<char>, above: Seq<Seq<char>>, id: Seq<char>) -> paths::PathModel {
    paths::below(base, above.push("brain"@).push(id))
}

/// The directories that hold the memory of a session.
pub open spec fn brain_dirs(r: DeleteRequest) -> Seq<paths::PathModel> {
    (match r.grandparent {
        Some(g) => seq![brain_below(g@, seq![], r.session_id@)],
        None => seq![],
    }) + seq![brain_below(r.root@, seq![], r.session_id@)] + Seq::new(
        4,
        |i: int| brain_below(r.gemini_dir@, seq![paths::clients()[i]], r.session_id@),
    )
}

/// Whether the plan removes exactly these things.
pub open spec fn is_plan(
    p: DeletePlan,
    path: Seq<char>,
    files: Seq<Seq<char>>,
    dirs: Seq<paths::PathModel>,
) -> bool {
    &&& p.session_file@ == path
    &&& text::views(p.other_files@) == files
    &&& paths::path_models(p.directories@) == dirs
}

fn brain_dirs_of(request: &DeleteRequest) -> (r: Vec<JoinedPath>)
    ensures
        paths::path_models(r@) == brain_dirs(*request),
{
    let mut out: Vec<JoinedPath> = Vec::new();
    let id = request.session_id.as_str();
    if let Some(g) = &request.grandparent {
        out.push(JoinedPath::new(g.as_str()).join("brain").join(id));
    }
    let gemini = request.gemini_dir.as_str();
    out.push(JoinedPath::new(request.root.as_str()).join("brain").join(id));
    out.push(JoinedPath::new(gemini).join("antigravity").join("brain").join(id));
    out.push(JoinedPath::new(gemini).join("antigravity-local").join("brain").join(id));
    out.push(JoinedPath::new(gemini).join("antigravity-cli").join("brain").join(id));
    out.push(JoinedPath::new(gemini).join("antigravity-ide").join("brain").join(id));
    assert(paths::path_models(out@) == brain_dirs(*request));
    out
}

/// What deleting a conversation database removes. Its id must be the file stem
/// or the cascade id in the database.
pub fn delete_session_sqlite(request: &DeleteRequest, cascade_id: Option<&str>) -> (r: Result<
    DeletePlan,
    String,
>)
    ensures
        r is Ok <==> request.file_stem@ == request.session_id@ || json::opt_str(cascade_id) == Some(
            request.session_id@,
        ),
        r matches Ok(p) ==> is_plan(p, request.path@, side_files(*request), brain_dirs(*request)),
        r matches Err(e) ==> e@ == "Gemini session ID mismatch: expected "@ + request.session_id@
            + ", file stem is "@ + request.file_stem@,
{
    let mut matching = text::same_text(request.file_stem.as_str(), request.session_id.as_str());
    if !matching {
        if let Some(c) = cascade_id {
            matching = text::same_text(c, request.session_id.as_str());
        }
    }
    if !matching {
        let mut message = String::from_str("Gemini session ID mismatch: expected ");
        message.append(request.session_id.as_str());
        message.append(", file stem is ");
        message.append(request.file_stem.as_str());
        return Err(message);
    }
    let mut other_files: Vec<String> = Vec::new();
    other_files.push(with_detail(request.path_without_extension.as_str(), ".db-wal"));
    other_files.push(with_detail(request.path.as_str(), "-wal"));
    other_files.push(with_detail(request.path_without_extension.as_str(), ".db-shm"));
    other_files.push(with_detail(request.path.as_str(), "-shm"));
    assert(text::views(other_files@) == side_files(*request));
    Ok(
        DeletePlan {
            session_file: request.path.clone(),
            other_files,
            directories: brain_dirs_of(request),
        },
    )
}

/// What deleting a legacy file removes: the file alone. Its id must be the one
/// in its document.
pub fn delete_session_json(request: &DeleteRequest, content: Option<&str>) -> (r: Result<
    DeletePlan,
    String,
>)
    ensures
        ({
            let found = match content {
                Some(c) => text_session(c@),
                None => None,
            };
            match found {
                None => r matches Err(e) && e@ == "Failed to parse Gemini session metadata: "@
                    + request.path@,
                Some(s) => if s.session_id == request.session_id@ {
                    r matches Ok(p) && is_plan(p, request.path@, seq![], seq![])
                } else {
                    r matches Err(e) && e@ == "Gemini session ID mismatch: expected "@
                        + request.session_id@ + ", found "@ + s.session_id
                },
            }
        }),
{
    let found = match content {
        Some(c) => parse_json_session(c),
        None => None,
    };
    match found {
        None => Err(
            with_detail("Failed to parse Gemini session metadata: ", request.path.as_str()),
        ),
        Some(s) => {
            if text::same_text(s.session_id.as_str(), request.session_id.as_str()) {
                let other_files: Vec<String> = Vec::new();
                let directories: Vec<JoinedPath> = Vec::new();
                assert(text::views(other_files@) == Seq::<Seq<char>>::empty());
                assert(paths::path_models(directories@) == Seq::<paths::PathModel>::empty());
                Ok(DeletePlan { session_file: request.path.clone(), other_files, directories })
            } else {
                let mut message = String::from_str("Gemini session ID mismatch: expected ");
                message.append(request.session_id.as_str());
                message.append(", found ");
                message.append(s.session_id.as_str());
                Err(message)
            }
        },
    }
}

/// A session file that is asked to be deleted.
#[derive(Debug)]
pub enum DeleteTarget {
    Missing,
    /// The text of a legacy file, where it can be read.
    LegacyJson(Option<String>),
    /// The cascade id of a conversation database, where it has one.
    Sqlite(Option<String>),
}

/// Whether the answer is the one that a request for this target gets.
pub open spec fn is_delete_answer(
    r: Result<DeletePlan, String>,
    request: DeleteRequest,
    target: DeleteTarget,
) -> bool {
    match target {
        DeleteTarget::Missing => r matches Err(e) && e@ == "Session file not found: "@
            + request.path@,
        DeleteTarget::LegacyJson(content) => {
            let found = match content {
                Some(c) => text_session(c@),
                None => None,
            };
            match found {
                None => r matches Err(e) && e@ == "Failed to parse Gemini session metadata: "@
                    + request.path@,
                Some(s) => if s.session_id == request.session_id@ {
                    r matches Ok(p) && is_plan(p, request.path@, seq![], seq![])
                } else {
                    r matches Err(e) && e@ == "Gemini session ID mismatch: expected "@
                        + request.session_id@ + ", found "@ + s.session_id
                },
            }
        },
        DeleteTarget::Sqlite(cascade_id) => if request.file_stem@ == request.session_id@
            || text::opt_view(cascade_id) == Some(request.session_id@) {
            r matches Ok(p) && is_plan(
                p,
                request.path@,
                side_files(request),
                brain_dirs(request),
            )
        } else {
            r matches Err(e) && e@ == "Gemini session ID mismatch: expected "@
                + request.session_id@ + ", file stem is "@ + request.file_stem@
        },
    }
}

/// Decides what deleting a session removes: the database with its side files and
/// the memory directories of the session, or the legacy file.
pub fn delete_session(request: &DeleteRequest, target: &DeleteTarget) -> (r: Result<
    DeletePlan,
    String,
>)
    ensures
        is_delete_answer(r, *request, *target),
{
    match target {
        DeleteTarget::Missing => Err(
            with_detail("Session file not found: ", request.path.as_str()),
        ),
        DeleteTarget::LegacyJson(Some(content)) => delete_session_json(
            request,
            Some(content.as_str()),
        ),
        DeleteTarget::LegacyJson(None) => delete_session_json(request, None),
        DeleteTarget::Sqlite(Some(c)) => delete_session_sqlite(request, Some(c.as_str())),
        DeleteTarget::Sqlite(None) => delete_session_sqlite(request, None),
    }
}

/// A session is deleted under its own id only: where the id is neither the file
/// stem nor the cascade id of the database, or not the id in the legacy
/// document, nothing is removed.
pub proof fn law_delete_needs_matching_id(
    r: Result<DeletePlan, String>,
    request: DeleteRequest,
    target: DeleteTarget,
)
    requires
        is_delete_answer(r, request, target),
        r is Ok,
    ensures
        match target {
            DeleteTarget::Missing => false,
            DeleteTarget::LegacyJson(content) => content matches Some(c) && text_session(c@) matches Some(
                s,
            ) && s.session_id == request.session_id@,
            DeleteTarget::Sqlite(cascade_id) => request.file_stem@ == request.session_id@
                || text::opt_view(cascade_id) == Some(request.session_id@),
        },
        r->Ok_0.session_file@ == request.path@,
{
}

// ---------------------------------------------------------------------------
// From the payloads that the program wrote to the messages that are shown
// ---------------------------------------------------------------------------

/// A text field as the program writes it.
pub open spec fn text_field(tag: u32, s: Seq<char>) -> wire::WrittenField {
    wire::WrittenField::Bytes { tag, data: vstd::utf8::encode_utf8(s) }
}

/// A message field as the program writes it.
pub open spec fn message_field(
    tag: u32,
    fields: Seq<wire::WrittenField>,
) -> wire::WrittenField {
    wire::WrittenField::Bytes { tag, data: wire::message_bytes(fields) }
}

/// Whether a payload has one message with a tag, among whatever other fields.
pub open spec fn is_payload_of(
    payload: Seq<u8>,
    outer: Seq<wire::WrittenField>,
    tag: u32,
    inner: Seq<wire::WrittenField>,
) -> bool {
    &&& payload == wire::message_bytes(outer)
    &&& wire::all_fit(outer)
    &&& wire::all_fit(inner)
    &&& wire::has_only(outer, message_field(tag, inner))
}

/// Whether the field at a position is a text that is not blank, and the first such
/// one with one of the tags.
pub open spec fn is_first_text(
    fields: Seq<wire::WrittenField>,
    i: int,
    a: u32,
    b: u32,
    s: Seq<char>,
) -> bool {
    &&& 0 <= i < fields.len()
    &&& fields[i] == text_field(a, s) || fields[i] == text_field(b, s)
    &&& text::trimmed(s).len() > 0
    &&& forall|j: int| 0 <= j < i ==> lacks_text(#[trigger] fields[j], a, b)
}

/// Whether a field has neither of the tags, or is no more than a blank text.
pub open spec fn lacks_text(f: wire::WrittenField, a: u32, b: u32) -> bool {
    (f.tag() != a && f.tag() != b) || exists|blank: Seq<char>| #[trigger]
        text::is_blank(blank) && f == text_field(f.tag(), blank)
}

proof fn lemma_first_text(
    fields: Seq<wire::WrittenField>,
    i: int,
    a: u32,
    b: u32,
    s: Seq<char>,
)
    requires
        is_first_text(fields, i, a, b, s),
    ensures
        wire::first_pick(wire::written_models(fields), tagged_text(a, b)) == Some(
            text::trimmed(s),
        ),
{
    text::law_utf8_round_trip(s);
    let models = wire::written_models(fields);
    assert forall|j: int| 0 <= j < i implies tagged_text(a, b)(#[trigger] models[j]) is None by {
        assert(lacks_text(fields[j], a, b));
        if fields[j].tag() == a || fields[j].tag() == b {
            let blank = choose|blank: Seq<char>| #[trigger]
                text::is_blank(blank) && fields[j] == text_field(fields[j].tag(), blank);
            text::law_utf8_round_trip(blank);
            lemma_blank_is_trimmed_away(blank);
        }
    }
    wire::lemma_first_pick_at(models, tagged_text(a, b), i);
}

proof fn lemma_no_text(fields: Seq<wire::WrittenField>, a: u32, b: u32)
    requires
        wire::lacks_tag(fields, a),
        wire::lacks_tag(fields, b),
    ensures
        wire::first_pick(wire::written_models(fields), tagged_text(a, b)) is None,
{
    let models = wire::written_models(fields);
    assert forall|j: int| 0 <= j < models.len() implies tagged_text(a, b)(
        #[trigger] models[j],
    ) is None by {
        assert(fields[j].tag() != a && fields[j].tag() != b);
    }
    wire::lemma_no_pick(models, tagged_text(a, b));
}

proof fn lemma_nested(
    payload: Seq<u8>,
    outer: Seq<wire::WrittenField>,
    tag: u32,
    inner: Seq<wire::WrittenField>,
    a: u32,
    b: u32,
)
    requires
        is_payload_of(payload, outer, tag, inner),
    ensures
        wire::wire_fields(payload) == Ok::<Seq<wire::FieldModel>, wire::WireError>(
            wire::written_models(outer),
        ),
        wire::wire_fields(wire::message_bytes(inner)) == Ok::<
            Seq<wire::FieldModel>,
            wire::WireError,
        >(wire::written_models(inner)),
        wire::first_pick(wire::written_models(outer), nested_text(tag, a, b)) == wire::first_pick(
            wire::written_models(inner),
            tagged_text(a, b),
        ),
{
    wire::law_message_round_trip(outer);
    wire::law_message_round_trip(inner);
    let models = wire::written_models(outer);
    let f = message_field(tag, inner);
    let i = choose|i: int| #[trigger] wire::is_single(outer, i) && outer[i] == f;
    assert forall|j: int| 0 <= j < models.len() && j != i implies nested_text(tag, a, b)(
        #[trigger] models[j],
    ) is None by {
        assert(outer[j].tag() != outer[i].tag());
    }
    assert(models[i] == f.model());
    if nested_text(tag, a, b)(models[i]) is Some {
        wire::lemma_first_pick_at(models, nested_text(tag, a, b), i);
    } else {
        wire::lemma_no_pick(models, nested_text(tag, a, b));
    }
}

proof fn lemma_tools_before(outer: Seq<wire::WrittenField>, n: int)
    requires
        0 <= n <= outer.len(),
        forall|j: int| 0 <= j < n ==> (#[trigger] outer[j]).tag() != 20,
    ensures
        tool_names(wire::written_models(outer).take(n)) == Seq::<Seq<char>>::empty(),
    decreases n,
{
    let models = wire::written_models(outer);
    if n > 0 {
        lemma_tools_before(outer, n - 1);
        assert(models.take(n).drop_last() == models.take(n - 1));
        assert(models.take(n).last() == outer[n - 1].model());
        assert(outer[n - 1].tag() != 20);
    } else {
        assert(models.take(0) == Seq::<wire::FieldModel>::empty());
    }
}

proof fn lemma_tools_after(
    outer: Seq<wire::WrittenField>,
    inner: Seq<wire::WrittenField>,
    i: int,
    n: int,
)
    requires
        wire::all_fit(inner),
        wire::is_single(outer, i),
        outer[i] == message_field(20, inner),
        i < n <= outer.len(),
    ensures
        tool_names(wire::written_models(outer).take(n)) == with_nested_texts(
            seq![],
            wire::written_models(inner),
            7,
            2,
            2,
        ),
    decreases n,
{
    let models = wire::written_models(outer);
    assert(models.take(n).drop_last() == models.take(n - 1));
    assert(models.take(n).last() == outer[n - 1].model());
    if n - 1 == i {
        assert forall|j: int| 0 <= j < i implies (#[trigger] outer[j]).tag() != 20 by {
            assert(outer[j].tag() != outer[i].tag());
        }
        lemma_tools_before(outer, i);
        wire::law_message_round_trip(inner);
    } else {
        lemma_tools_after(outer, inner, i, n - 1);
        assert(outer[n - 1].tag() != outer[i].tag());
    }
}

proof fn lemma_tools(
    payload: Seq<u8>,
    outer: Seq<wire::WrittenField>,
    inner: Seq<wire::WrittenField>,
)
    requires
        is_payload_of(payload, outer, 20, inner),
    ensures
        tool_names(wire::written_models(outer)) == with_nested_texts(
            seq![],
            wire::written_models(inner),
            7,
            2,
            2,
        ),
{
    let models = wire::written_models(outer);
    let f = message_field(20, inner);
    let i = choose|i: int| #[trigger] wire::is_single(outer, i) && outer[i] == f;
    lemma_tools_after(outer, inner, i, outer.len() as int);
    assert(models.take(outer.len() as int) == models);
}

proof fn lemma_no_nested_texts(
    parts: Seq<Seq<char>>,
    fields: Seq<wire::WrittenField>,
    outer: u32,
    a: u32,
    b: u32,
    n: int,
)
    requires
        0 <= n <= fields.len(),
        wire::lacks_tag(fields, outer),
    ensures
        with_nested_texts(parts, wire::written_models(fields).take(n), outer, a, b) == parts,
    decreases n,
{
    let models = wire::written_models(fields);
    if n > 0 {
        lemma_no_nested_texts(parts, fields, outer, a, b, n - 1);
        assert(models.take(n).drop_last() == models.take(n - 1));
        assert(models.take(n).last() == fields[n - 1].model());
        assert(fields[n - 1].tag() != outer);
    } else {
        assert(models.take(0) == Seq::<wire::FieldModel>::empty());
    }
}

/// A call of a tool as the program writes it.
pub open spec fn tool_call(name: Seq<char>) -> wire::WrittenField {
    message_field(7, seq![text_field(2, name)])
}

/// Calls of tools, one after the other.
pub open spec fn tool_calls(names: Seq<Seq<char>>) -> Seq<wire::WrittenField> {
    Seq::new(names.len(), |i: int| tool_call(names[i]))
}

proof fn lemma_tool_calls(pre: Seq<wire::WrittenField>, names: Seq<Seq<char>>)
    requires
        wire::lacks_tag(pre, 7),
        names.no_duplicates(),
        forall|i: int| 0 <= i < names.len() ==> text::is_bare(#[trigger] names[i]),
        wire::all_fit(pre + tool_calls(names)),
        forall|i: int| 0 <= i < names.len() ==> text_field(2, #[trigger] names[i]).fits(),
    ensures
        with_nested_texts(seq![], wire::written_models(pre + tool_calls(names)), 7, 2, 2) == names,
    decreases names.len(),
{
    let all = pre + tool_calls(names);
    let models = wire::written_models(all);
    if names.len() == 0 {
        assert(all == pre);
        lemma_no_nested_texts(seq![], pre, 7, 2, 2, pre.len() as int);
        assert(models.take(pre.len() as int) == models);
    } else {
        let front = names.drop_last();
        let name = names.last();
        let shorter = pre + tool_calls(front);
        assert(shorter == all.drop_last());
        assert forall|i: int| 0 <= i < shorter.len() implies (#[trigger] shorter[i]).fits() by {
            assert(shorter[i] == all[i]);
        }
        assert forall|i: int| 0 <= i < front.len() implies text::is_bare(#[trigger] front[i])
            && text_field(2, front[i]).fits() by {
            assert(front[i] == names[i]);
        }
        lemma_tool_calls(pre, front);
        assert(models.drop_last() == wire::written_models(shorter));
        assert(models.last() == tool_call(name).model());
        let call = seq![text_field(2, name)];
        assert(names[names.len() - 1] == name);
        assert(text_field(2, name).fits());
        wire::law_message_round_trip(call);
        let inside = Seq::new(call.len(), |i: int| call[i].model());
        assert(inside.drop_last() == Seq::<wire::FieldModel>::empty());
        assert(inside.last() == text_field(2, name).model());
        text::law_utf8_round_trip(name);
        text::lemma_bare_stays(name);
        assert(with_texts(front, inside.drop_last(), 2, 2) == front);
        assert(!front.contains(name)) by {
            if front.contains(name) {
                let i = choose|i: int| 0 <= i < front.len() && front[i] == name;
                assert(names[i] == names[names.len() - 1]);
            }
        }
        assert(with_texts(front, inside, 2, 2) == front.push(name));
        assert(front.push(name) == names);
    }
}

proof fn lemma_joined_prefix(parts: Seq<Seq<char>>, sep: Seq<char>)
    requires
        parts.len() > 0,
    ensures
        parts[0].is_prefix_of(text::joined(parts, sep)),
        parts.len() == 1 ==> text::joined(parts, sep) == parts[0],
        parts.len() == 2 ==> text::joined(parts, sep) == parts[0] + sep + parts[1],
    decreases parts.len(),
{
    reveal_with_fuel(text::joined, 3);
    if parts.len() > 1 {
        lemma_joined_prefix(parts.drop_last(), sep);
        assert(parts.drop_last()[0] == parts[0]);
    }
}

/// The reply of an assistant is shown, whatever thinking stands beside it: the
/// content begins with it, and is nothing else where no tool was called.
pub proof fn law_reply_is_shown(
    payload: Seq<u8>,
    outer: Seq<wire::WrittenField>,
    inner: Seq<wire::WrittenField>,
    i: int,
    reply: Seq<char>,
)
    requires
        is_payload_of(payload, outer, 20, inner),
        is_first_text(inner, i, 1, 8, reply),
    ensures
        assistant_content(payload) matches Some(c) && {
            &&& text::trimmed(reply).is_prefix_of(c)
            &&& wire::lacks_tag(inner, 7) ==> c == text::trimmed(reply)
        },
{
    lemma_nested(payload, outer, 20, inner, 1, 8);
    lemma_nested(payload, outer, 20, inner, 3, 3);
    lemma_first_text(inner, i, 1, 8, reply);
    lemma_tools(payload, outer, inner);
    let fields = wire::written_models(outer);
    let tools = tool_names(fields);
    let thinking = wire::first_pick(fields, nested_text(20, 3, 3));
    let parts = assistant_parts(Some(text::trimmed(reply)), thinking, tools);
    assert(parts.len() > 0);
    assert(parts[0] == text::trimmed(reply));
    lemma_joined_prefix(parts, "\n"@);
    if wire::lacks_tag(inner, 7) {
        lemma_no_nested_texts(seq![], inner, 7, 2, 2, inner.len() as int);
        let models = wire::written_models(inner);
        assert(models.take(inner.len() as int) == models);
        assert(parts.len() == 1);
    }
}

/// Thinking is shown where there is neither a reply nor a tool call.
pub proof fn law_thinking_is_shown_alone(
    payload: Seq<u8>,
    outer: Seq<wire::WrittenField>,
    inner: Seq<wire::WrittenField>,
    i: int,
    thinking: Seq<char>,
)
    requires
        is_payload_of(payload, outer, 20, inner),
        is_first_text(inner, i, 3, 3, thinking),
        wire::lacks_tag(inner, 1),
        wire::lacks_tag(inner, 8),
        wire::lacks_tag(inner, 7),
    ensures
        assistant_content(payload) == Some(text::trimmed(thinking)),
{
    lemma_nested(payload, outer, 20, inner, 1, 8);
    lemma_nested(payload, outer, 20, inner, 3, 3);
    lemma_first_text(inner, i, 3, 3, thinking);
    lemma_no_text(inner, 1, 8);
    lemma_tools(payload, outer, inner);
    lemma_no_nested_texts(seq![], inner, 7, 2, 2, inner.len() as int);
    let models = wire::written_models(inner);
    assert(models.take(inner.len() as int) == models);
    let parts = assistant_parts(None, Some(text::trimmed(thinking)), seq![]);
    assert(parts == seq![text::trimmed(thinking)]);
    lemma_joined_prefix(parts, "\n"@);
}

/// Every tool that an assistant calls is shown, in the order of the calls and
/// behind the reply where there is one; no thinking is shown then.
pub proof fn law_tools_are_shown(
    payload: Seq<u8>,
    outer: Seq<wire::WrittenField>,
    pre: Seq<wire::WrittenField>,
    names: Seq<Seq<char>>,
    i: int,
    reply: Seq<char>,
)
    requires
        is_payload_of(payload, outer, 20, pre + tool_calls(names)),
        wire::lacks_tag(pre, 7),
        names.len() > 0,
        names.no_duplicates(),
        forall|k: int|
            0 <= k < names.len() ==> text::is_bare(#[trigger] names[k]) && text_field(
                2,
                names[k],
            ).fits(),
        (wire::lacks_tag(pre, 1) && wire::lacks_tag(pre, 8)) || is_first_text(
            pre,
            i,
            1,
            8,
            reply,
        ),
    ensures
        ({
            let lines = Seq::new(
                names.len(),
                |k: int| "[Tool: "@ + names[k] + "]"@,
            );
            assistant_content(payload) == Some(
                text::joined(
                    if wire::lacks_tag(pre, 1) && wire::lacks_tag(pre, 8) {
                        lines
                    } else {
                        seq![text::trimmed(reply)] + lines
                    },
                    "\n"@,
                ),
            )
        }),
{
    let calls = tool_calls(names);
    let inner = pre + calls;
    lemma_nested(payload, outer, 20, inner, 1, 8);
    lemma_nested(payload, outer, 20, inner, 3, 3);
    lemma_tools(payload, outer, inner);
    lemma_tool_calls(pre, names);
    let lines = Seq::new(names.len(), |k: int| "[Tool: "@ + names[k] + "]"@);
    assert(tool_lines(names) == lines);
    if wire::lacks_tag(pre, 1) && wire::lacks_tag(pre, 8) {
        assert forall|j: int| 0 <= j < inner.len() implies (#[trigger] inner[j]).tag() != 1
            && inner[j].tag() != 8 by {
            if j < pre.len() {
                assert(inner[j] == pre[j]);
            } else {
                assert(inner[j] == calls[j - pre.len()]);
            }
        }
        lemma_no_text(inner, 1, 8);
        assert(Seq::<Seq<char>>::empty() + lines == lines);
    } else {
        assert(inner[i] == pre[i]);
        assert forall|j: int| 0 <= j < i implies lacks_text(#[trigger] inner[j], 1, 8) by {
            assert(inner[j] == pre[j]);
        }
        lemma_first_text(inner, i, 1, 8, reply);
    }
}

/// An assistant message without a reply, thinking and tool calls shows nothing.
pub proof fn law_nothing_is_shown_of_nothing(
    payload: Seq<u8>,
    outer: Seq<wire::WrittenField>,
    inner: Seq<wire::WrittenField>,
)
    requires
        is_payload_of(payload, outer, 20, inner),
        wire::lacks_tag(inner, 1),
        wire::lacks_tag(inner, 8),
        wire::lacks_tag(inner, 3),
        wire::lacks_tag(inner, 7),
    ensures
        assistant_content(payload) is None,
{
    lemma_nested(payload, outer, 20, inner, 1, 8);
    lemma_nested(payload, outer, 20, inner, 3, 3);
    lemma_no_text(inner, 1, 8);
    lemma_no_text(inner, 3, 3);
    lemma_tools(payload, outer, inner);
    lemma_no_nested_texts(seq![], inner, 7, 2, 2, inner.len() as int);
    let models = wire::written_models(inner);
    assert(models.take(inner.len() as int) == models);
}

/// What a user wrote is shown as it was written, without the white space around
/// it, where it holds no `<`; wrapped by the program, it is shown unwrapped.
pub proof fn law_prompt_is_shown(
    payload: Seq<u8>,
    outer: Seq<wire::WrittenField>,
    inner: Seq<wire::WrittenField>,
    i: int,
    written: Seq<char>,
    prompt: Seq<char>,
)
    requires
        is_payload_of(payload, outer, 19, inner),
        is_first_text(inner, i, 2, 2, written),
    ensures
        !written.contains('<') ==> user_prompt(payload) == Some(text::trimmed(written)),
        written == "<USER_REQUEST>"@ + prompt + "</USER_REQUEST>"@ && !text::has_text(
            prompt,
            "</USER_REQUEST>"@,
        ) ==> user_prompt(payload) == Some(text::trimmed(prompt)),
{
    lemma_nested(payload, outer, 19, inner, 2, 2);
    lemma_first_text(inner, i, 2, 2, written);
    let t = text::trimmed(written);
    if !written.contains('<') {
        lemma_plain_prompt(written);
    }
    if written == "<USER_REQUEST>"@ + prompt + "</USER_REQUEST>"@ && !text::has_text(
        prompt,
        "</USER_REQUEST>"@,
    ) {
        reveal_strlit("<USER_REQUEST>");
        reveal_strlit("</USER_REQUEST>");
        assert(written[0] == '<');
        assert(written.last() == '>');
        text::lemma_bare_stays(written);
        let none = Seq::<char>::empty();
        assert(written + none == written);
        law_wrapped_prompt_stays(prompt, none);
    }
}

proof fn lemma_plain_prompt(written: Seq<char>)
    requires
        !written.contains('<'),
        text::trimmed(written).len() > 0,
    ensures
        cleaned_request(text::trimmed(written)) == text::trimmed(written),
{
    let t = text::trimmed(written);
    text::lemma_trimmed_ends(written);
    lemma_trimmed_contains(written, '<');
    reveal_strlit("<USER_REQUEST>");
    text::lemma_find_from(t, "<USER_REQUEST>"@, 0);
    if let Some(i) = text::find_text(t, "<USER_REQUEST>"@) {
        assert(t.subrange(i, i + "<USER_REQUEST>"@.len())[0] == t[i]);
        assert(t.contains('<'));
    }
    tags::law_plain_text_stays(t);
}

proof fn lemma_trimmed_contains(s: Seq<char>, c: char)
    requires
        !s.contains(c),
    ensures
        !text::trimmed(s).contains(c),
{
    let p = seq![c];
    text::lemma_find_from(s, p, 0);
    if let Some(i) = text::find_text(s, p) {
        assert(s.subrange(i, i + 1)[0] == s[i]);
        assert(s.contains(c));
    }
    text::lemma_trimmed_lacks(s, p);
    let t = text::trimmed(s);
    text::lemma_find_from(t, p, 0);
    if t.contains(c) {
        let i = choose|i: int| 0 <= i < t.len() && t[i] == c;
        assert(t.subrange(i, i + 1) =~= p);
        assert(text::occurs_at(t, p, i));
    }
}

/// The message of an error is shown, and behind it the details, where they are
/// not the same.
pub proof fn law_error_is_shown(
    payload: Seq<u8>,
    outer: Seq<wire::WrittenField>,
    message: Seq<char>,
    details: Seq<char>,
)
    requires
        is_payload_of(payload, outer, 24, seq![text_field(1, message), text_field(2, details)]),
        text::is_bare(message),
        text::is_bare(details),
    ensures
        error_content(payload) == Some(
            if message == details {
                message
            } else {
                message + "\n"@ + details
            },
        ),
{
    let inner = seq![text_field(1, message), text_field(2, details)];
    lemma_nested(payload, outer, 24, inner, 1, 2);
    let models = wire::written_models(inner);
    text::law_utf8_round_trip(message);
    text::law_utf8_round_trip(details);
    text::lemma_bare_stays(message);
    text::lemma_bare_stays(details);
    let none = Seq::<Seq<char>>::empty();
    let one = models.drop_last();
    assert(models.last() == text_field(2, details).model());
    assert(one.last() == text_field(1, message).model());
    assert(one.drop_last() == Seq::<wire::FieldModel>::empty());
    assert(with_texts(none, one.drop_last(), 1, 2) == none);
    assert(with_texts(none, one, 1, 2) == none.push(message));
    assert(none.push(message)[0] == message);
    let parts = with_texts(none, models, 1, 2);
    if message == details {
        assert(none.push(message).contains(details));
        assert(parts == seq![message]);
    } else {
        assert(!none.push(message).contains(details));
        assert(parts == seq![message, details]);
    }
    lemma_joined_prefix(parts, "\n"@);
    let f = message_field(24, inner);
    let i = choose|i: int| #[trigger] wire::is_single(outer, i) && outer[i] == f;
    lemma_errors_after(outer, inner, i, outer.len() as int);
    let all = wire::written_models(outer);
    assert(all.take(outer.len() as int) == all);
}

proof fn lemma_errors_after(
    outer: Seq<wire::WrittenField>,
    inner: Seq<wire::WrittenField>,
    i: int,
    n: int,
)
    requires
        wire::all_fit(inner),
        wire::is_single(outer, i),
        outer[i] == message_field(24, inner),
        0 <= n <= outer.len(),
    ensures
        with_nested_texts(seq![], wire::written_models(outer).take(n), 24, 1, 2) == (if i < n {
            with_texts(seq![], wire::written_models(inner), 1, 2)
        } else {
            seq![]
        }),
    decreases n,
{
    let models = wire::written_models(outer);
    if n > 0 {
        lemma_errors_after(outer, inner, i, n - 1);
        assert(models.take(n).drop_last() == models.take(n - 1));
        assert(models.take(n).last() == outer[n - 1].model());
        if n - 1 == i {
            wire::law_message_round_trip(inner);
        } else {
            assert(outer[n - 1].tag() != outer[i].tag());
        }
    } else {
        assert(models.take(0) == Seq::<wire::FieldModel>::empty());
    }
}

/// A step has the millisecond at which it was written.
pub proof fn law_step_has_its_time(
    metadata: Seq<u8>,
    outer: Seq<wire::WrittenField>,
    time: Seq<wire::WrittenField>,
    seconds: u64,
    nanos: u64,
)
    requires
        is_payload_of(metadata, outer, 1, time),
        wire::has_count(time, 1, seconds),
        wire::has_count(time, 2, nanos),
        0 < seconds <= 9_000_000_000_000_000,
        nanos < 1_000_000_000,
    ensures
        step_timestamp(metadata) == Some((seconds * 1000 + nanos / 1_000_000) as i64),
{
    wire::law_message_round_trip(outer);
    wire::law_count_is_read(time, 1, seconds);
    wire::law_count_is_read(time, 2, nanos);
    let models = wire::written_models(outer);
    let f = message_field(1, time);
    let i = choose|i: int| #[trigger] wire::is_single(outer, i) && outer[i] == f;
    assert forall|j: int| 0 <= j < i implies timestamp_field()(#[trigger] models[j]) is None by {
        assert(outer[j].tag() != outer[i].tag());
    }
    assert(models[i] == f.model());
    wire::lemma_first_pick_at(models, timestamp_field(), i);
}

// ---------------------------------------------------------------------------
// From the steps of a conversation to its messages and its place in the list
// ---------------------------------------------------------------------------

/// How many of the rows are shown as messages.
pub open spec fn shown_count(rows: Seq<StepRow>) -> nat
    decreases rows.len(),
{
    if rows.len() == 0 {
        0
    } else {
        shown_count(rows.drop_last()) + if row_content(rows.last()) is Some {
            1nat
        } else {
            0nat
        }
    }
}

proof fn lemma_shown_count(rows: Seq<StepRow>)
    ensures
        step_messages(rows).len() == shown_count(rows),
    decreases rows.len(),
{
    if rows.len() > 0 {
        lemma_shown_count(rows.drop_last());
    }
}

proof fn lemma_shown_row(rows: Seq<StepRow>, k: int)
    requires
        0 <= k < rows.len(),
        row_content(rows[k]) is Some,
    ensures
        ({
            let n = shown_count(rows.take(k)) as int;
            &&& 0 <= n < step_messages(rows).len()
            &&& step_messages(rows)[n] == (MessageModel {
                role: (row_content(rows[k])->0).0,
                content: (row_content(rows[k])->0).1,
                time: step_time_model(rows[k]),
            })
        }),
    decreases rows.len(),
{
    let front = rows.drop_last();
    lemma_shown_count(front);
    if k < rows.len() - 1 {
        assert(front[k] == rows[k]);
        assert(front.take(k) == rows.take(k));
        lemma_shown_row(front, k);
    } else {
        assert(rows.take(k) == front);
    }
}

/// Every step of a user, of an assistant, or that failed is a message of its own,
/// in the order of the steps, with its content and its time; a failed step is one
/// of the assistant. Steps without content, and of any other type, are none.
pub proof fn law_every_step_is_a_message(rows: Seq<StepRow>, k: int, payload: Vec<u8>)
    requires
        0 <= k < rows.len(),
        rows[k].payload == Some(payload),
    ensures
        ({
            let messages = step_messages(rows);
            let n = shown_count(rows.take(k)) as int;
            let content = if rows[k].step_type == 14 {
                user_prompt(payload@)
            } else if rows[k].step_type == 15 {
                assistant_content(payload@)
            } else if rows[k].step_type == 17 {
                error_content(payload@)
            } else {
                None
            };
            &&& messages.len() == shown_count(rows)
            &&& content is None ==> shown_count(rows.take(k + 1)) == n
            &&& content matches Some(c) ==> {
                &&& shown_count(rows.take(k + 1)) == n + 1
                &&& 0 <= n < messages.len()
                &&& messages[n].content == c
                &&& messages[n].role == (if rows[k].step_type == 14 {
                    "user"@
                } else {
                    "assistant"@
                })
                &&& rows[k].metadata is None ==> messages[n].time is Absent
                &&& rows[k].metadata matches Some(m) ==> messages[n].time == (
                match step_timestamp(m@) {
                    Some(t) => TimeModel::Millis(t),
                    None => TimeModel::Absent,
                })
            }
        }),
{
    lemma_shown_count(rows);
    assert(rows.take(k + 1).drop_last() == rows.take(k));
    assert(rows.take(k + 1).last() == rows[k]);
    if row_content(rows[k]) is Some {
        lemma_shown_row(rows, k);
    }
}

proof fn lemma_first_time(rows: Seq<StepRow>, i: int)
    requires
        0 <= i < rows.len(),
        row_time(rows[i]) is Some,
        forall|j: int| 0 <= j < i ==> row_time(#[trigger] rows[j]) is None,
    ensures
        first_time(rows) == row_time(rows[i]),
    decreases rows.len(),
{
    let front = rows.drop_last();
    if i < rows.len() - 1 {
        assert(front[i] == rows[i]);
        assert forall|j: int| 0 <= j < i implies row_time(#[trigger] front[j]) is None by {
            assert(front[j] == rows[j]);
        }
        lemma_first_time(front, i);
    } else {
        assert forall|j: int| 0 <= j < front.len() implies row_time(#[trigger] front[j]) is None by {
            assert(front[j] == rows[j]);
        }
        lemma_no_times(front);
    }
}

proof fn lemma_last_time(rows: Seq<StepRow>, i: int)
    requires
        0 <= i < rows.len(),
        row_time(rows[i]) is Some,
        forall|j: int| i < j < rows.len() ==> row_time(#[trigger] rows[j]) is None,
    ensures
        last_time(rows) == row_time(rows[i]),
    decreases rows.len(),
{
    let last = rows.len() - 1;
    if i < last {
        assert(row_time(rows[last]) is None);
        lemma_last_time(rows.drop_last(), i);
    }
}

proof fn lemma_no_times(rows: Seq<StepRow>)
    requires
        forall|j: int| 0 <= j < rows.len() ==> row_time(#[trigger] rows[j]) is None,
    ensures
        first_time(rows) is None,
        last_time(rows) is None,
    decreases rows.len(),
{
    if rows.len() > 0 {
        let front = rows.drop_last();
        assert forall|j: int| 0 <= j < front.len() implies row_time(#[trigger] front[j]) is None by {
            assert(front[j] == rows[j]);
        }
        lemma_no_times(front);
        assert(row_time(rows[rows.len() - 1]) is None);
    }
}

/// A conversation was created at the first step that has a time, and was last
/// active at the last one that has.
pub proof fn law_session_lasts_from_the_first_to_the_last_step(
    db: SessionDb,
    rows: Vec<StepRow>,
    summary: Option<Seq<char>>,
    source_path: Seq<char>,
    i: int,
    j: int,
)
    requires
        db.has_steps,
        db.file_stem is Some,
        db.steps == Ok::<Vec<StepRow>, StepsError>(rows),
        0 <= i < rows@.len(),
        0 <= j < rows@.len(),
        row_time(rows@[i]) is Some,
        row_time(rows@[j]) is Some,
        forall|k: int| 0 <= k < i ==> row_time(#[trigger] rows@[k]) is None,
        forall|k: int| j < k < rows@.len() ==> row_time(#[trigger] rows@[k]) is None,
    ensures
        sqlite_session(db, summary, source_path) matches Some(s) && s.created_at == row_time(
            rows@[i],
        ) && s.last_active_at == row_time(rows@[j]),
{
    lemma_first_time(rows@, i);
    lemma_last_time(rows@, j);
}

/// A conversation none of whose steps has a time has that of its file.
pub proof fn law_untimed_session_has_the_time_of_its_file(
    db: SessionDb,
    rows: Vec<StepRow>,
    summary: Option<Seq<char>>,
    source_path: Seq<char>,
)
    requires
        db.has_steps,
        db.file_stem is Some,
        db.steps == Ok::<Vec<StepRow>, StepsError>(rows),
        forall|k: int| 0 <= k < rows@.len() ==> row_time(#[trigger] rows@[k]) is None,
    ensures
        sqlite_session(db, summary, source_path) matches Some(s) && s.created_at == db.modified_ms
            && s.last_active_at == db.modified_ms,
{
    lemma_no_times(rows@);
}

/// A conversation is listed under its cascade id; without one under its trajectory
/// id; without either under the name of its file. It can be resumed by that id,
/// and is found in its file and its project. Without steps that can be read there
/// is no session.
pub proof fn law_session_is_listed_under_its_id(
    db: SessionDb,
    rows: Vec<StepRow>,
    summary: Option<Seq<char>>,
    source_path: Seq<char>,
    stem: Seq<char>,
    id: Seq<char>,
)
    requires
        db.has_steps,
        text::opt_view(db.file_stem) == Some(stem),
        db.steps == Ok::<Vec<StepRow>, StepsError>(rows),
        text::trimmed(id).len() > 0,
    ensures
        sqlite_session(db, summary, source_path) matches Some(s) && {
            &&& text::opt_view(db.cascade_id) == Some(id) ==> s.session_id == id
            &&& db.cascade_id is None && text::opt_view(db.trajectory_id) == Some(id)
                ==> s.session_id == id
            &&& db.cascade_id is None && db.trajectory_id is None ==> s.session_id == stem
            &&& s.resume_command == Some("agy --conversation "@ + s.session_id)
            &&& s.source_path == Some(source_path)
            &&& s.project_dir == text::opt_view(db.project_dir)
            &&& s.provider_id == "gemini"@
            &&& s.summary == s.title
        },
        sqlite_session((SessionDb { has_steps: false, ..db }), summary, source_path) is None,
        sqlite_session((SessionDb { file_stem: None, ..db }), summary, source_path) is None,
{
}

/// A conversation has the summary of its first prompt as its title; one without a
/// prompt is named after its id, and one without steps has no title.
pub proof fn law_session_is_named_after_its_first_prompt(
    db: SessionDb,
    rows: Vec<StepRow>,
    summary: Option<Seq<char>>,
    source_path: Seq<char>,
)
    requires
        db.has_steps,
        db.file_stem is Some,
        db.steps == Ok::<Vec<StepRow>, StepsError>(rows),
    ensures
        sqlite_session(db, summary, source_path) matches Some(s) && {
            &&& first_prompt(rows@) is Some && summary is Some ==> s.title == summary
            &&& (first_prompt(rows@) is None || summary is None) && rows@.len() > 0 ==> s.title
                == Some("Session "@ + s.session_id)
            &&& rows@.len() == 0 ==> s.title is None
        },
{
}

/// The first prompt is that of the first step of a user that has one.
pub proof fn law_first_prompt_is_the_first(rows: Seq<StepRow>, i: int, payload: Vec<u8>)
    requires
        0 <= i < rows.len(),
        rows[i].step_type == 14,
        rows[i].payload == Some(payload),
        user_prompt(payload@) is Some,
        forall|j: int| 0 <= j < i ==> row_prompt(#[trigger] rows[j]) is None,
    ensures
        first_prompt(rows) == user_prompt(payload@),
    decreases rows.len(),
{
    let front = rows.drop_last();
    if i < rows.len() - 1 {
        assert(front[i] == rows[i]);
        assert forall|j: int| 0 <= j < i implies row_prompt(#[trigger] front[j]) is None by {
            assert(front[j] == rows[j]);
        }
        law_first_prompt_is_the_first(front, i, payload);
    } else {
        assert forall|j: int| 0 <= j < front.len() implies row_prompt(
            #[trigger] front[j],
        ) is None by {
            assert(front[j] == rows[j]);
        }
        lemma_no_prompts(front);
    }
}

proof fn lemma_no_prompts(rows: Seq<StepRow>)
    requires
        forall|j: int| 0 <= j < rows.len() ==> row_prompt(#[trigger] rows[j]) is None,
    ensures
        first_prompt(rows) is None,
    decreases rows.len(),
{
    if rows.len() > 0 {
        let front = rows.drop_last();
        assert forall|j: int| 0 <= j < front.len() implies row_prompt(
            #[trigger] front[j],
        ) is None by {
            assert(front[j] == rows[j]);
        }
        lemma_no_prompts(front);
        assert(row_prompt(rows[rows.len() - 1]) is None);
    }
}

/// In the session list, a session that was active later comes first; a session
/// whose last activity is unknown counts from when it was created.
pub proof fn law_recent_sessions_come_first(list: Seq<SessionModel>, i: int, j: int)
    requires
        0 <= i < j < by_activity(list).len(),
    ensures
        ({
            let a = by_activity(list)[i];
            let b = by_activity(list)[j];
            &&& a.last_active_at is Some && b.last_active_at is Some ==> a.last_active_at->0
                >= b.last_active_at->0
            &&& a.last_active_at is None && a.created_at is Some && b.last_active_at is Some
                ==> a.created_at->0 >= b.last_active_at->0
            &&& a.last_active_at is Some && b.last_active_at is None && b.created_at is Some
                ==> a.last_active_at->0 >= b.created_at->0
        }),
{
    law_session_list_sorted(list);
    assert(activity(by_activity(list)[i]) >= activity(by_activity(list)[j]));
}

/// Every session that a scan found is in the list, in as many places as it was
/// found, and nothing else is.
pub proof fn law_every_session_is_listed(list: Seq<SessionModel>)
    ensures
        by_activity(list).to_multiset() == list.to_multiset(),
        by_activity(list).len() == list.len(),
    decreases list.len(),
{
    broadcast use vstd::seq_lib::group_to_multiset_ensures;

    if list.len() > 0 {
        let front = list.drop_last();
        law_every_session_is_listed(front);
        lemma_placed_multiset(by_activity(front), list.last());
        assert(front.push(list.last()) == list);
    }
}

proof fn lemma_placed_multiset(list: Seq<SessionModel>, s: SessionModel)
    ensures
        placed(list, s).to_multiset() == list.to_multiset().insert(s),
        placed(list, s).len() == list.len() + 1,
    decreases list.len(),
{
    broadcast use vstd::seq_lib::group_to_multiset_ensures;

    if list.len() == 0 || activity(list.last()) >= activity(s) {
    } else {
        let front = list.drop_last();
        lemma_placed_multiset(front, s);
        assert(front.push(list.last()) == list);
        assert(placed(list, s).to_multiset() =~= list.to_multiset().insert(s));
    }
}

/// A project directory beside a session file is the project of the session; all
/// else stays as the file has it.
pub proof fn law_project_beside_the_file_counts(s: ScannedSession, m: SessionMeta)
    requires
        s.meta == Some(m),
    ensures
        scanned_model(s) matches Some(v) && {
            &&& s.project_dir matches Some(p) ==> v.project_dir == Some(p@)
            &&& s.project_dir is None ==> v.project_dir == text::opt_view(m.project_dir)
            &&& v.session_id == m.session_id@
            &&& v.title == text::opt_view(m.title)
            &&& v.created_at == m.created_at
            &&& v.last_active_at == m.last_active_at
            &&& v.source_path == text::opt_view(m.source_path)
            &&& v.resume_command == text::opt_view(m.resume_command)
        },
{
}

/// A legacy message keeps its role, its text and its time: `gemini` is the
/// assistant, `user` the user. A blank message, and one of another type, is
/// left out.
pub proof fn law_legacy_message_is_shown(
    message: json::JsonModel,
    content: Seq<char>,
    stamp: json::JsonModel,
)
    requires
        json::has_text_member(message, "content"@, content),
        json::lacks_member(message, "toolCalls"@),
        json::has_member(message, "timestamp"@, stamp),
    ensures
        text::trimmed(content).len() > 0 && json::has_text_member(message, "type"@, "user"@)
            ==> legacy_message(message) == Some(
            MessageModel { role: "user"@, content, time: TimeModel::Document(stamp) },
        ),
        text::trimmed(content).len() > 0 && json::has_text_member(message, "type"@, "gemini"@)
            ==> legacy_message(message) == Some(
            MessageModel { role: "assistant"@, content, time: TimeModel::Document(stamp) },
        ),
        text::trimmed(content).len() == 0 ==> legacy_message(message) is None,
        json::lacks_member(message, "type"@) ==> legacy_message(message) is None,
{
    reveal_strlit("user");
    reveal_strlit("gemini");
    assert("user"@.len() != "gemini"@.len());
    json::law_member_is_found(message, "content"@);
    json::law_member_is_found(message, "toolCalls"@);
    json::law_member_is_found(message, "timestamp"@);
    json::law_member_is_found(message, "type"@);
    let c = json::JsonModel::Text(content);
    let u = json::JsonModel::Text("user"@);
    let g = json::JsonModel::Text("gemini"@);
    assert(json::has_member(message, "content"@, c));
    assert(json::has_member(message, "type"@, u) ==> message.field("type"@) == Some(u));
    assert(json::has_member(message, "type"@, g) ==> message.field("type"@) == Some(g));
}

/// The tools of a legacy message are shown behind its text, one line each; where
/// it has no text they are all that is shown.
pub proof fn law_legacy_tools_are_shown(content: Seq<char>, call: json::JsonModel, name: Seq<char>)
    requires
        json::has_text_member(call, "name"@, name),
    ensures
        with_calls(content, seq![call]) == (if content.len() == 0 {
            "[Tool: "@ + name + "]"@
        } else {
            content + "\n"@ + ("[Tool: "@ + name + "]"@)
        }),
        with_calls(content, seq![]) == content,
{
    json::law_member_is_found(call, "name"@);
    assert(json::has_member(call, "name"@, json::JsonModel::Text(name)));
    let calls = seq![call];
    assert(calls.drop_last() == Seq::<json::JsonModel>::empty());
    assert(calls.last() == call);
    assert(with_calls(content, calls.drop_last()) == content);
    assert(content.len() == 0 ==> content + ("[Tool: "@ + name + "]"@) =~= "[Tool: "@ + name
        + "]"@);
}

/// Each tool call of a legacy message adds to what the calls before it show.
pub proof fn law_legacy_tools_add_up(
    content: Seq<char>,
    a: Seq<json::JsonModel>,
    b: Seq<json::JsonModel>,
)
    ensures
        with_calls(content, a + b) == with_calls(with_calls(content, a), b),
    decreases b.len(),
{
    if b.len() > 0 {
        law_legacy_tools_add_up(content, a, b.drop_last());
        assert((a + b).drop_last() == a + b.drop_last());
        assert((a + b).last() == b.last());
    } else {
        assert(a + b == a);
    }
}

/// Every legacy message is shown in its place: the messages of two lists one after
/// the other are those of the first and then those of the second.
pub proof fn law_legacy_messages_add_up(a: Seq<json::JsonModel>, b: Seq<json::JsonModel>)
    ensures
        legacy_messages(a + b) == legacy_messages(a) + legacy_messages(b),
        a.len() == 1 ==> legacy_messages(a) == (match legacy_message(a[0]) {
            Some(m) => seq![m],
            None => Seq::<MessageModel>::empty(),
        }),
    decreases b.len(),
{
    if a.len() == 1 {
        assert(legacy_messages(a.drop_last()) == Seq::<MessageModel>::empty());
    }
    if b.len() > 0 {
        law_legacy_messages_add_up(a, b.drop_last());
        assert((a + b).drop_last() == a + b.drop_last());
        assert((a + b).last() == b.last());
        assert(legacy_messages(a + b) =~= legacy_messages(a) + legacy_messages(b));
    } else {
        assert(a + b == a);
        assert(legacy_messages(a) + legacy_messages(b) =~= legacy_messages(a));
    }
}

/// What a legacy document says of its session is what stands in it: its id, its
/// times, and the text of the first message of a user.
pub proof fn law_legacy_session_is_read(
    doc: json::JsonModel,
    id: Seq<char>,
    start: json::JsonModel,
    updated: json::JsonModel,
    messages: Seq<json::JsonModel>,
    i: int,
    prompt: Seq<char>,
)
    requires
        json::has_text_member(doc, "sessionId"@, id),
        json::has_member(doc, "startTime"@, start),
        json::has_member(doc, "lastUpdated"@, updated),
        json::has_member(doc, "messages"@, json::JsonModel::Array(messages)),
        0 <= i < messages.len(),
        json::has_text_member(messages[i], "type"@, "user"@),
        forall|j: int|
            0 <= j < i ==> (#[trigger] messages[j]).text_field("type"@) != Some("user"@),
        json::has_text_member(messages[i], "content"@, prompt),
    ensures
        document_session(doc) matches Some(s) && {
            &&& s.session_id == id
            &&& s.start_time == Some(start)
            &&& s.last_updated == Some(updated)
            &&& text::trimmed(prompt).len() > 0 ==> s.first_prompt == Some(prompt)
            &&& text::trimmed(prompt).len() == 0 ==> s.first_prompt is None
        },
{
    json::law_member_is_found(doc, "sessionId"@);
    json::law_member_is_found(doc, "startTime"@);
    json::law_member_is_found(doc, "lastUpdated"@);
    json::law_member_is_found(doc, "messages"@);
    json::law_member_is_found(messages[i], "type"@);
    json::law_member_is_found(messages[i], "content"@);
    assert(json::has_member(doc, "sessionId"@, json::JsonModel::Text(id)));
    assert(json::has_member(messages[i], "type"@, json::JsonModel::Text("user"@)));
    assert(json::has_member(messages[i], "content"@, json::JsonModel::Text(prompt)));
    lemma_first_user_message(messages, i);
}

proof fn lemma_first_user_message(messages: Seq<json::JsonModel>, i: int)
    requires
        0 <= i < messages.len(),
        messages[i].text_field("type"@) == Some("user"@),
        forall|j: int|
            0 <= j < i ==> (#[trigger] messages[j]).text_field("type"@) != Some("user"@),
    ensures
        first_user_message(messages) == Some(messages[i]),
    decreases i,
{
    if i > 0 {
        let rest = messages.drop_first();
        assert(messages[0].text_field("type"@) != Some("user"@));
        assert(rest[i - 1] == messages[i]);
        assert forall|j: int| 0 <= j < i - 1 implies (#[trigger] rest[j]).text_field("type"@)
            != Some("user"@) by {
            assert(rest[j] == messages[j + 1]);
        }
        lemma_first_user_message(rest, i - 1);
    }
}

/// Deleting a conversation removes its file, the files that the database keeps
/// beside it, and the memory of this session wherever it may be; no directory
/// other than one of this session is removed.
#[verifier::spinoff_prover]
#[verifier::rlimit(60)]
pub proof fn law_delete_removes_what_belongs_to_the_session(
    p: DeletePlan,
    request: DeleteRequest,
    cascade_id: Option<String>,
)
    requires
        is_delete_answer(
            Ok::<DeletePlan, String>(p),
            request,
            DeleteTarget::Sqlite(cascade_id),
        ),
    ensures
        p.session_file@ == request.path@,
        text::views(p.other_files@).contains(request.path@ + "-wal"@),
        text::views(p.other_files@).contains(request.path@ + "-shm"@),
        text::views(p.other_files@).contains(request.path_without_extension@ + ".db-wal"@),
        text::views(p.other_files@).contains(request.path_without_extension@ + ".db-shm"@),
        p.other_files@.len() == 4,
        forall|i: int|
            0 <= i < p.directories@.len() ==> {
                let d = (#[trigger] p.directories@[i])@;
                &&& d.parts.len() >= 2
                &&& d.parts.last() == request.session_id@
                &&& d.parts[d.parts.len() - 2] == "brain"@
                &&& d.base == request.root@ || d.base == request.gemini_dir@ || text::opt_view(
                    request.grandparent,
                ) == Some(d.base)
            },
        paths::path_models(p.directories@).contains(
            paths::PathModel {
                base: request.root@,
                parts: seq!["brain"@, request.session_id@],
            },
        ),
        forall|g: Seq<char>| #[trigger]
            is_grandparent(request, g) ==> paths::path_models(p.directories@).contains(
                paths::PathModel { base: g, parts: seq!["brain"@, request.session_id@] },
            ),
{
    let files = text::views(p.other_files@);
    assert(files[0] == request.path_without_extension@ + ".db-wal"@);
    assert(files[1] == request.path@ + "-wal"@);
    assert(files[2] == request.path_without_extension@ + ".db-shm"@);
    assert(files[3] == request.path@ + "-shm"@);
    let dirs = paths::path_models(p.directories@);
    let id = request.session_id@;
    let none = Seq::<Seq<char>>::empty();
    assert(none.push("brain"@).push(id) =~= seq!["brain"@, id]);
    let at: int = if request.grandparent is Some {
        1
    } else {
        0
    };
    assert(dirs[at] == brain_below(request.root@, none, id));
    assert forall|g: Seq<char>| #[trigger] is_grandparent(request, g) implies dirs.contains(
        paths::PathModel { base: g, parts: seq!["brain"@, id] },
    ) by {
        assert(dirs[0] == brain_below(g, none, id));
    }
    assert forall|i: int| 0 <= i < p.directories@.len() implies {
        let d = (#[trigger] p.directories@[i])@;
        &&& d.parts.len() >= 2
        &&& d.parts.last() == request.session_id@
        &&& d.parts[d.parts.len() - 2] == "brain"@
        &&& d.base == request.root@ || d.base == request.gemini_dir@ || text::opt_view(
            request.grandparent,
        ) == Some(d.base)
    } by {
        assert(dirs[i] == p.directories@[i]@);
        if i < at {
            assert(dirs[i] == brain_below(request.grandparent->0@, none, id));
        } else if i > at {
            let k = i - at - 1;
            let above = seq![paths::clients()[k]];
            let tail = Seq::new(
                4,
                |j: int| brain_below(request.gemini_dir@, seq![paths::clients()[j]], id),
            );
            assert(brain_dirs(request).skip(at + 1) =~= tail);
            assert(dirs[i] == brain_dirs(request).skip(at + 1)[k]);
            assert(dirs[i] == brain_below(request.gemini_dir@, above, id));
            let parts = above.push("brain"@).push(id);
            assert(parts.last() == id && parts[parts.len() - 2] == "brain"@);
        }
    }
}

/// Whether a directory is the one above that of the session file.
pub open spec fn is_grandparent(request: DeleteRequest, dir: Seq<char>) -> bool {
    text::opt_view(request.grandparent) == Some(dir)
}

/// The project of a conversation is asked of the URLs of its workspace in the
/// order in which they were written, and the first that names a directory
/// decides.
pub proof fn law_first_workspace_url_decides(
    pre: Seq<wire::WrittenField>,
    url: Seq<char>,
    rest: Seq<wire::WrittenField>,
    rules: Seq<PathRules>,
)
    requires
        wire::all_fit(pre + seq![text_field(7, url)] + rest),
        wire::lacks_tag(pre, 7),
        rules.len() > 0,
        url_directory(rules[0], url) is Some,
    ensures
        ({
            let urls = workspace_url_texts(
                wire::message_bytes(pre + seq![text_field(7, url)] + rest),
            );
            &&& urls.len() > 0
            &&& urls[0] == url
            &&& first_url_directory(rules, urls) == url_directory(rules[0], url)
        }),
{
    let all = pre + seq![text_field(7, url)] + rest;
    wire::law_message_round_trip(all);
    text::law_utf8_round_trip(url);
    let models = wire::written_models(all);
    lemma_urls_after(all, pre.len() as int, url, all.len() as int);
    assert(models.take(all.len() as int) == models);
}

proof fn lemma_urls_after(all: Seq<wire::WrittenField>, i: int, url: Seq<char>, n: int)
    requires
        0 <= i < all.len(),
        all[i] == text_field(7, url),
        forall|j: int| 0 <= j < i ==> (#[trigger] all[j]).tag() != 7,
        0 <= n <= all.len(),
    ensures
        n <= i ==> url_texts(wire::written_models(all).take(n)).len() == 0,
        n > i ==> url_texts(wire::written_models(all).take(n)).len() > 0 && url_texts(
            wire::written_models(all).take(n),
        )[0] == url,
    decreases n,
{
    let models = wire::written_models(all);
    text::law_utf8_round_trip(url);
    if n > 0 {
        lemma_urls_after(all, i, url, n - 1);
        assert(models.take(n).drop_last() == models.take(n - 1));
        assert(models.take(n).last() == all[n - 1].model());
        if n - 1 < i {
            assert(all[n - 1].tag() != 7);
        }
    } else {
        assert(models.take(0) == Seq::<wire::FieldModel>::empty());
    }
}

proof fn lemma_blank_is_trimmed_away(s: Seq<char>)
    requires
        text::is_blank(s),
    ensures
        text::trimmed(s).len() == 0,
{
    let none = Seq::<char>::empty();
    assert(s + none + none == s);
    text::law_padding_is_trimmed(s, none, none);
}

/// A step has the time of its metadata, and one without metadata has none; the
/// prompt of a step of a user is that of its payload, and no other step has one.
pub proof fn law_step_is_what_its_blobs_say(row: StepRow, metadata: Vec<u8>, payload: Vec<u8>)
    ensures
        row.metadata == Some(metadata) ==> row_time(row) == step_timestamp(metadata@),
        row.metadata is None ==> row_time(row) is None,
        row.step_type == 14 && row.payload == Some(payload) ==> row_prompt(row) == user_prompt(
            payload@,
        ),
        row.step_type != 14 || row.payload is None ==> row_prompt(row) is None,
{
}

/// Whether a field of the payload of an assistant step is a message without a
/// reply.
pub open spec fn lacks_reply(f: wire::WrittenField) -> bool {
    f.tag() == 20 ==> exists|inner: Seq<wire::WrittenField>| #[trigger]
        is_message_without(f, inner, 1, 8)
}

/// Whether a field is a message without fields of two tags.
pub open spec fn is_message_without(
    f: wire::WrittenField,
    inner: Seq<wire::WrittenField>,
    a: u32,
    b: u32,
) -> bool {
    &&& f == message_field(f.tag(), inner)
    &&& wire::all_fit(inner)
    &&& wire::lacks_tag(inner, a)
    &&& wire::lacks_tag(inner, b)
}

/// Of the messages of an assistant step the first that has a reply is shown,
/// whatever the later ones hold.
pub proof fn law_first_reply_is_shown(
    outer: Seq<wire::WrittenField>,
    k: int,
    inner: Seq<wire::WrittenField>,
    i: int,
    reply: Seq<char>,
)
    requires
        wire::all_fit(outer),
        wire::all_fit(inner),
        0 <= k < outer.len(),
        outer[k] == message_field(20, inner),
        is_first_text(inner, i, 1, 8, reply),
        forall|j: int| 0 <= j < k ==> lacks_reply(#[trigger] outer[j]),
    ensures
        assistant_content(wire::message_bytes(outer)) matches Some(c) && text::trimmed(
            reply,
        ).is_prefix_of(c),
{
    wire::law_message_round_trip(outer);
    wire::law_message_round_trip(inner);
    let fields = wire::written_models(outer);
    assert(wire::wire_fields(wire::message_bytes(outer)) == Ok::<
        Seq<wire::FieldModel>,
        wire::WireError,
    >(fields));
    assert(wire::wire_fields(wire::message_bytes(inner)) == Ok::<
        Seq<wire::FieldModel>,
        wire::WireError,
    >(wire::written_models(inner)));
    lemma_first_text(inner, i, 1, 8, reply);
    let pick = nested_text(20, 1, 8);
    assert(pick(fields[k]) == Some(text::trimmed(reply)));
    assert forall|j: int| 0 <= j < k implies pick(#[trigger] fields[j]) is None by {
        assert(lacks_reply(outer[j]));
        if outer[j].tag() == 20 {
            let x = choose|x: Seq<wire::WrittenField>| #[trigger]
                is_message_without(outer[j], x, 1, 8);
            wire::law_message_round_trip(x);
            assert(wire::wire_fields(wire::message_bytes(x)) == Ok::<
                Seq<wire::FieldModel>,
                wire::WireError,
            >(wire::written_models(x)));
            lemma_no_text(x, 1, 8);
        }
    }
    wire::lemma_first_pick_at(fields, pick, k);
    let tools = tool_names(fields);
    let thinking = wire::first_pick(fields, nested_text(20, 3, 3));
    let parts = assistant_parts(Some(text::trimmed(reply)), thinking, tools);
    assert(parts[0] == text::trimmed(reply));
    lemma_joined_prefix(parts, "\n"@);
}

proof fn lemma_texts_kept(
    parts: Seq<Seq<char>>,
    fields: Seq<wire::FieldModel>,
    a: u32,
    b: u32,
    t: Seq<char>,
)
    ensures
        parts.contains(t) ==> with_texts(parts, fields, a, b).contains(t),
        parts.no_duplicates() ==> with_texts(parts, fields, a, b).no_duplicates(),
    decreases fields.len(),
{
    if fields.len() > 0 {
        let before = with_texts(parts, fields.drop_last(), a, b);
        lemma_texts_kept(parts, fields.drop_last(), a, b, t);
        lemma_part_kept(before, tagged_text(a, b)(fields.last()), t);
    }
}

proof fn lemma_part_kept(parts: Seq<Seq<char>>, s: Option<Seq<char>>, t: Seq<char>)
    ensures
        parts.contains(t) ==> with_part(parts, s).contains(t),
        s == Some(t) ==> with_part(parts, s).contains(t),
        parts.no_duplicates() ==> with_part(parts, s).no_duplicates(),
{
    let after = with_part(parts, s);
    if parts.contains(t) {
        let i = choose|i: int| 0 <= i < parts.len() && parts[i] == t;
        assert(after[i] == t);
    }
    if let Some(x) = s {
        if !parts.contains(x) {
            assert(after[parts.len() as int] == x);
        }
    }
}

proof fn lemma_text_taken(
    parts: Seq<Seq<char>>,
    fields: Seq<wire::FieldModel>,
    a: u32,
    b: u32,
    j: int,
    t: Seq<char>,
)
    requires
        0 <= j < fields.len(),
        tagged_text(a, b)(fields[j]) == Some(t),
    ensures
        with_texts(parts, fields, a, b).contains(t),
    decreases fields.len(),
{
    let front = fields.drop_last();
    let before = with_texts(parts, front, a, b);
    if j < front.len() {
        assert(front[j] == fields[j]);
        lemma_text_taken(parts, front, a, b, j, t);
    }
    lemma_part_kept(before, tagged_text(a, b)(fields.last()), t);
}

proof fn lemma_nested_kept(
    parts: Seq<Seq<char>>,
    fields: Seq<wire::FieldModel>,
    outer: u32,
    a: u32,
    b: u32,
    t: Seq<char>,
)
    ensures
        parts.contains(t) ==> with_nested_texts(parts, fields, outer, a, b).contains(t),
        parts.no_duplicates() ==> with_nested_texts(parts, fields, outer, a, b).no_duplicates(),
    decreases fields.len(),
{
    if fields.len() > 0 {
        let before = with_nested_texts(parts, fields.drop_last(), outer, a, b);
        lemma_nested_kept(parts, fields.drop_last(), outer, a, b, t);
        if let Ok(inner) = wire::wire_fields(fields.last().data) {
            lemma_texts_kept(before, inner, a, b, t);
        }
    }
}

proof fn lemma_nested_taken(
    parts: Seq<Seq<char>>,
    fields: Seq<wire::WrittenField>,
    outer: u32,
    a: u32,
    b: u32,
    k: int,
    inner: Seq<wire::WrittenField>,
    j: int,
    t: Seq<char>,
)
    requires
        0 <= k < fields.len(),
        fields[k] == message_field(outer, inner),
        wire::all_fit(inner),
        0 <= j < inner.len(),
        inner[j] == text_field(a, t) || inner[j] == text_field(b, t),
        text::is_bare(t),
    ensures
        with_nested_texts(parts, wire::written_models(fields), outer, a, b).contains(t),
    decreases fields.len(),
{
    let models = wire::written_models(fields);
    let front = fields.drop_last();
    assert(models.drop_last() == wire::written_models(front));
    let before = with_nested_texts(parts, models.drop_last(), outer, a, b);
    wire::law_message_round_trip(inner);
    let inside = wire::written_models(inner);
    assert(wire::wire_fields(wire::message_bytes(inner)) == Ok::<
        Seq<wire::FieldModel>,
        wire::WireError,
    >(inside));
    text::law_utf8_round_trip(t);
    text::lemma_bare_stays(t);
    if k < front.len() {
        assert(front[k] == fields[k]);
        lemma_nested_taken(parts, front, outer, a, b, k, inner, j, t);
        if let Ok(other) = wire::wire_fields(models.last().data) {
            lemma_texts_kept(before, other, a, b, t);
        }
    } else {
        assert(tagged_text(a, b)(inside[j]) == Some(t));
        lemma_text_taken(before, inside, a, b, j, t);
    }
}

proof fn lemma_tools_kept(fields: Seq<wire::FieldModel>, t: Seq<char>)
    ensures
        tool_names(fields).no_duplicates(),
        fields.len() > 0 && tool_names(fields.drop_last()).contains(t) ==> tool_names(
            fields,
        ).contains(t),
    decreases fields.len(),
{
    if fields.len() > 0 {
        lemma_tools_kept(fields.drop_last(), t);
        if let Ok(inner) = wire::wire_fields(fields.last().data) {
            lemma_nested_kept(tool_names(fields.drop_last()), inner, 7, 2, 2, t);
        }
    }
}

proof fn lemma_tool_taken(
    outer: Seq<wire::WrittenField>,
    k: int,
    inner: Seq<wire::WrittenField>,
    j: int,
    call: Seq<wire::WrittenField>,
    m: int,
    name: Seq<char>,
)
    requires
        0 <= k < outer.len(),
        outer[k] == message_field(20, inner),
        wire::all_fit(inner),
        0 <= j < inner.len(),
        inner[j] == message_field(7, call),
        wire::all_fit(call),
        0 <= m < call.len(),
        call[m] == text_field(2, name),
        text::is_bare(name),
    ensures
        tool_names(wire::written_models(outer)).contains(name),
    decreases outer.len(),
{
    let models = wire::written_models(outer);
    let front = outer.drop_last();
    assert(models.drop_last() == wire::written_models(front));
    if k < front.len() {
        assert(front[k] == outer[k]);
        lemma_tool_taken(front, k, inner, j, call, m, name);
        lemma_tools_kept(models, name);
    } else {
        wire::law_message_round_trip(inner);
        assert(wire::wire_fields(wire::message_bytes(inner)) == Ok::<
            Seq<wire::FieldModel>,
            wire::WireError,
        >(wire::written_models(inner)));
        lemma_nested_taken(
            tool_names(models.drop_last()),
            inner,
            7,
            2,
            2,
            j,
            call,
            m,
            name,
        );
    }
}

/// Every tool that any message of an assistant step calls has a line of its own,
/// however many messages and calls there are; a tool that is called twice has
/// one.
pub proof fn law_every_tool_has_a_line(
    outer: Seq<wire::WrittenField>,
    k: int,
    inner: Seq<wire::WrittenField>,
    j: int,
    call: Seq<wire::WrittenField>,
    m: int,
    name: Seq<char>,
)
    requires
        wire::all_fit(outer),
        0 <= k < outer.len(),
        outer[k] == message_field(20, inner),
        wire::all_fit(inner),
        0 <= j < inner.len(),
        inner[j] == message_field(7, call),
        wire::all_fit(call),
        0 <= m < call.len(),
        call[m] == text_field(2, name),
        text::is_bare(name),
    ensures
        exists|parts: Seq<Seq<char>>, tools: Seq<Seq<char>>|
            #![trigger is_content_of(assistant_content(wire::message_bytes(outer)), parts, tools)]
            is_content_of(assistant_content(wire::message_bytes(outer)), parts, tools)
                && tools.contains(name) && tools.no_duplicates(),
{
    wire::law_message_round_trip(outer);
    let fields = wire::written_models(outer);
    assert(wire::wire_fields(wire::message_bytes(outer)) == Ok::<
        Seq<wire::FieldModel>,
        wire::WireError,
    >(fields));
    lemma_tool_taken(outer, k, inner, j, call, m, name);
    lemma_tools_kept(fields, name);
    let tools = tool_names(fields);
    let reply = wire::first_pick(fields, nested_text(20, 1, 8));
    let thinking = wire::first_pick(fields, nested_text(20, 3, 3));
    let all = assistant_parts(reply, thinking, tools);
    let lines = Seq::new(tools.len(), |i: int| "[Tool: "@ + tools[i] + "]"@);
    assert(tool_lines(tools) == lines);
    assert(tools.len() > 0);
    let parts = if let Some(t) = reply {
        seq![t]
    } else {
        Seq::<Seq<char>>::empty()
    };
    assert(all == parts + lines);
    assert(is_content_of(assistant_content(wire::message_bytes(outer)), parts, tools));
}

/// Whether a content is at most one part and then a line for each of the tools.
pub open spec fn is_content_of(
    content: Option<Seq<char>>,
    parts: Seq<Seq<char>>,
    tools: Seq<Seq<char>>,
) -> bool {
    &&& parts.len() <= 1
    &&& content == Some(
        text::joined(
            parts + Seq::new(tools.len(), |i: int| "[Tool: "@ + tools[i] + "]"@),
            "\n"@,
        ),
    )
}

/// Every text of every message of an error step is shown, on a line of its own; a
/// text that stands there twice is shown once.
pub proof fn law_every_error_text_is_shown(
    outer: Seq<wire::WrittenField>,
    k: int,
    inner: Seq<wire::WrittenField>,
    j: int,
    t: Seq<char>,
)
    requires
        wire::all_fit(outer),
        0 <= k < outer.len(),
        outer[k] == message_field(24, inner),
        wire::all_fit(inner),
        0 <= j < inner.len(),
        inner[j] == text_field(1, t) || inner[j] == text_field(2, t),
        text::is_bare(t),
    ensures
        exists|parts: Seq<Seq<char>>|
            #![trigger text::joined(parts, "\n"@)]
            error_content(wire::message_bytes(outer)) == Some(text::joined(parts, "\n"@))
                && parts.contains(t) && parts.no_duplicates(),
{
    wire::law_message_round_trip(outer);
    let fields = wire::written_models(outer);
    assert(wire::wire_fields(wire::message_bytes(outer)) == Ok::<
        Seq<wire::FieldModel>,
        wire::WireError,
    >(fields));
    lemma_nested_taken(seq![], outer, 24, 1, 2, k, inner, j, t);
    lemma_nested_kept(seq![], fields, 24, 1, 2, t);
    let parts = with_nested_texts(seq![], fields, 24, 1, 2);
    assert(parts.len() > 0);
    assert(error_content(wire::message_bytes(outer)) == Some(text::joined(parts, "\n"@)));
}

/// A step whose seconds are not positive has no time; a time beyond the largest
/// `i64` is the largest.
pub proof fn law_step_without_a_time(
    metadata: Seq<u8>,
    outer: Seq<wire::WrittenField>,
    time: Seq<wire::WrittenField>,
    seconds: i64,
    nanos: u64,
)
    requires
        is_payload_of(metadata, outer, 1, time),
        wire::has_count(time, 1, antigravity::twos_complement(seconds)),
        wire::has_count(time, 2, nanos),
        nanos < 1_000_000_000,
    ensures
        seconds <= 0 ==> step_timestamp(metadata) is None,
        seconds > 9_223_372_036_854_775 ==> step_timestamp(metadata) == Some(i64::MAX),
{
    wire::law_message_round_trip(outer);
    wire::law_count_is_read(time, 1, antigravity::twos_complement(seconds));
    wire::law_count_is_read(time, 2, nanos);
    let models = wire::written_models(outer);
    let f = message_field(1, time);
    let i = choose|i: int| #[trigger] wire::is_single(outer, i) && outer[i] == f;
    assert forall|j: int| 0 <= j < models.len() && j != i implies timestamp_field()(
        #[trigger] models[j],
    ) is None by {
        assert(outer[j].tag() != outer[i].tag());
    }
    assert(models[i] == f.model());
    if seconds <= 0 {
        wire::lemma_no_pick(models, timestamp_field());
    } else {
        wire::lemma_first_pick_at(models, timestamp_field(), i);
    }
}

/// A blank id is none: a conversation with a blank cascade id is listed under its
/// trajectory id, and one with two blank ids under the name of its file. A
/// conversation whose steps cannot be read is not listed.
pub proof fn law_blank_ids_are_none(
    db: SessionDb,
    summary: Option<Seq<char>>,
    source_path: Seq<char>,
    stem: Seq<char>,
    blank: Seq<char>,
    id: Seq<char>,
    e: StepsError,
)
    requires
        db.has_steps,
        text::opt_view(db.file_stem) == Some(stem),
        db.steps is Ok,
        text::opt_view(db.cascade_id) == Some(blank),
        text::is_blank(blank),
        text::opt_view(db.trajectory_id) == Some(id),
    ensures
        sqlite_session(db, summary, source_path) matches Some(s) && {
            &&& text::is_bare(id) ==> s.session_id == id
            &&& text::is_blank(id) ==> s.session_id == stem
        },
        sqlite_session(
            (SessionDb { steps: Err::<Vec<StepRow>, StepsError>(e), ..db }),
            summary,
            source_path,
        ) is None,
{
    lemma_blank_is_trimmed_away(blank);
    if text::is_blank(id) {
        lemma_blank_is_trimmed_away(id);
    }
    if text::is_bare(id) {
        text::lemma_bare_stays(id);
    }
}

/// A legacy file is listed with what its document says: the summary of its first
/// prompt, the time at which it began, and the time of its last update, or that
/// at which it began where it has no other. It belongs to no project.
pub proof fn law_legacy_session_is_listed(
    content: String,
    hints: SessionHints,
    source_path: Seq<char>,
    said: JsonSessionModel,
)
    requires
        text_session(content@) == Some(said),
    ensures
        file_session(
            SessionFile::LegacyJson(Ok::<String, String>(content)),
            hints,
            source_path,
        ) matches Some(s) && {
            &&& s.session_id == said.session_id
            &&& s.resume_command == Some("agy --conversation "@ + said.session_id)
            &&& s.source_path == Some(source_path)
            &&& s.project_dir is None
            &&& s.provider_id == "gemini"@
            &&& said.first_prompt is Some ==> s.title == text::opt_view(hints.summary)
            &&& said.first_prompt is None ==> s.title is None
            &&& s.summary == s.title
            &&& said.start_time is Some ==> s.created_at == hints.created_at
            &&& said.start_time is None ==> s.created_at is None
            &&& said.last_updated is Some && hints.last_active_at is Some ==> s.last_active_at
                == hints.last_active_at
            &&& said.last_updated is None || hints.last_active_at is None ==> s.last_active_at
                == s.created_at
        },
{
}

/// A conversation database is listed and shown as its steps are; a file that is
/// not there, or cannot be opened or read, is not listed, and shows an error.
pub proof fn law_files_are_shown_as_they_are(
    db: SessionDb,
    rows: Vec<StepRow>,
    reason: String,
    hints: SessionHints,
    path: Seq<char>,
)
    ensures
        file_session(SessionFile::Sqlite(Some(db)), hints, path) == sqlite_session(
            db,
            text::opt_view(hints.summary),
            path,
        ),
        db.steps == Ok::<Vec<StepRow>, StepsError>(rows) ==> file_messages(
            SessionFile::Sqlite(Some(db)),
            path,
        ) == Ok::<Seq<MessageModel>, Seq<char>>(step_messages(rows@)),
        db.steps is Err ==> file_messages(SessionFile::Sqlite(Some(db)), path) is Err,
        file_session(SessionFile::Missing, hints, path) is None,
        file_session(SessionFile::Sqlite(None), hints, path) is None,
        file_session(
            SessionFile::LegacyJson(Err::<String, String>(reason)),
            hints,
            path,
        ) is None,
        file_messages(SessionFile::Missing, path) is Err,
        file_messages(SessionFile::Sqlite(None), path) is Err,
        file_messages(SessionFile::LegacyJson(Err::<String, String>(reason)), path) is Err,
{
}

/// A legacy document shows the messages of its list; without a list it is an error.
pub proof fn law_legacy_messages_are_those_of_the_document(
    content: Seq<char>,
    doc: json::JsonModel,
    messages: Seq<json::JsonModel>,
)
    requires
        json::json_document(content) == Ok::<json::JsonModel, Seq<char>>(doc),
    ensures
        json::has_member(doc, "messages"@, json::JsonModel::Array(messages)) ==> text_messages(
            content,
        ) == Ok::<Seq<MessageModel>, Seq<char>>(legacy_messages(messages)),
        json::lacks_member(doc, "messages"@) ==> text_messages(content) is Err,
{
    json::law_member_is_found(doc, "messages"@);
}

/// Every file of a scan that has a session is in the list with it, in the order of
/// the files, and no other file is.
pub proof fn law_every_scanned_session_counts(a: Seq<ScannedSession>, b: Seq<ScannedSession>)
    ensures
        scanned_models(a + b) == scanned_models(a) + scanned_models(b),
        a.len() == 1 && a[0].meta is Some ==> scanned_models(a).len() == 1 && Some(
            scanned_models(a)[0],
        ) == scanned_model(a[0]),
        a.len() == 1 && a[0].meta is None ==> scanned_models(a).len() == 0,
    decreases b.len(),
{
    if a.len() == 1 {
        assert(scanned_models(a.drop_last()) == Seq::<SessionModel>::empty());
    }
    if b.len() > 0 {
        law_every_scanned_session_counts(a, b.drop_last());
        assert((a + b).drop_last() == a + b.drop_last());
        assert((a + b).last() == b.last());
        assert(scanned_models(a + b) =~= scanned_models(a) + scanned_models(b));
    } else {
        assert(a + b == a);
        assert(scanned_models(a) + scanned_models(b) =~= scanned_models(a));
    }
}

/// The texts of a legacy content that is a list are shown one line each: those of
/// two lists one after the other are those of the first and then those of the
/// second.
pub proof fn law_legacy_texts_add_up(a: Seq<json::JsonModel>, b: Seq<json::JsonModel>, t: Seq<char>)
    ensures
        item_texts(a + b) == item_texts(a) + item_texts(b),
        a.len() == 1 && json::has_text_member(a[0], "text"@, t) ==> item_texts(a) == seq![t],
        a.len() == 1 && json::lacks_member(a[0], "text"@) ==> item_texts(a).len() == 0,
    decreases b.len(),
{
    if a.len() == 1 {
        json::law_member_is_found(a[0], "text"@);
        assert(json::has_text_member(a[0], "text"@, t) ==> json::has_member(
            a[0],
            "text"@,
            json::JsonModel::Text(t),
        ));
        assert(item_texts(a.drop_last()) == Seq::<Seq<char>>::empty());
        if json::has_text_member(a[0], "text"@, t) {
            assert(item_texts(a) =~= seq![t]);
        }
    }
    if b.len() > 0 {
        law_legacy_texts_add_up(a, b.drop_last(), t);
        assert((a + b).drop_last() == a + b.drop_last());
        assert((a + b).last() == b.last());
        assert(item_texts(a + b) =~= item_texts(a) + item_texts(b));
    } else {
        assert(a + b == a);
        assert(item_texts(a) + item_texts(b) =~= item_texts(a));
    }
}

/// A legacy message shows its content and then its tool calls. A content that is a
/// list shows its texts, one line each. A message of a type that is neither of
/// the user nor of the assistant is left out.
pub proof fn law_legacy_message_shows_content_and_tools(
    message: json::JsonModel,
    content: json::JsonModel,
    calls: Seq<json::JsonModel>,
    kind: Seq<char>,
)
    requires
        json::has_text_member(message, "type"@, kind),
        json::has_member(message, "content"@, content) || (json::lacks_member(
            message,
            "content"@,
        ) && content == json::JsonModel::Text(""@)),
        json::has_member(message, "toolCalls"@, json::JsonModel::Array(calls)) || (
        json::lacks_member(message, "toolCalls"@) && calls.len() == 0),
    ensures
        ({
            let shown = with_calls(
                match content {
                    json::JsonModel::Text(s) => s,
                    json::JsonModel::Array(items) => text::joined(item_texts(items), "\n"@),
                    _ => ""@,
                },
                calls,
            );
            &&& kind == "user"@ && text::trimmed(shown).len() > 0 ==> legacy_message(
                message,
            ) is Some && legacy_message(message)->0.role == "user"@ && legacy_message(
                message,
            )->0.content == shown
            &&& kind == "gemini"@ && text::trimmed(shown).len() > 0 ==> legacy_message(
                message,
            ) is Some && legacy_message(message)->0.role == "assistant"@ && legacy_message(
                message,
            )->0.content == shown
            &&& text::trimmed(shown).len() == 0 ==> legacy_message(message) is None
            &&& kind != "user"@ && kind != "gemini"@ ==> legacy_message(message) is None
        }),
{
    reveal_strlit("user");
    reveal_strlit("gemini");
    assert("user"@.len() != "gemini"@.len());
    json::law_member_is_found(message, "content"@);
    json::law_member_is_found(message, "toolCalls"@);
    json::law_member_is_found(message, "type"@);
    assert(json::has_member(message, "type"@, json::JsonModel::Text(kind)));
    assert(message.field("type"@) == Some(json::JsonModel::Text(kind)));
}

/// Deleting a legacy session removes its file and nothing else.
pub proof fn law_delete_of_a_legacy_session_removes_its_file(
    p: DeletePlan,
    request: DeleteRequest,
    content: Option<String>,
)
    requires
        is_delete_answer(Ok::<DeletePlan, String>(p), request, DeleteTarget::LegacyJson(content)),
    ensures
        p.session_file@ == request.path@,
        p.other_files@.len() == 0,
        p.directories@.len() == 0,
{
    assert(text::views(p.other_files@).len() == p.other_files@.len());
    assert(paths::path_models(p.directories@).len() == p.directories@.len());
}

/// A session is deleted where its id is the one that is asked for: the name of its
/// database file, the cascade id in it, or the id in its document.
pub proof fn law_delete_under_the_right_id(
    r: Result<DeletePlan, String>,
    request: DeleteRequest,
    cascade_id: Option<String>,
    content: String,
    said: JsonSessionModel,
)
    ensures
        is_delete_answer(r, request, DeleteTarget::Sqlite(cascade_id)) && (request.file_stem@
            == request.session_id@ || text::opt_view(cascade_id) == Some(request.session_id@))
            ==> r is Ok,
        is_delete_answer(r, request, DeleteTarget::LegacyJson(Some(content))) && text_session(
            content@,
        ) == Some(said) && said.session_id == request.session_id@ ==> r is Ok,
        is_delete_answer(r, request, DeleteTarget::Missing) ==> r is Err,
{
}

/// The URLs of a workspace are asked one after the other until one names a
/// directory.
pub proof fn law_urls_without_a_directory_are_passed_over(
    rules: Seq<PathRules>,
    urls: Seq<Seq<char>>,
    i: int,
)
    requires
        rules.len() == urls.len(),
        0 <= i < urls.len(),
        url_directory(rules[i], urls[i]) is Some,
        forall|j: int|
            0 <= j < i ==> (#[trigger] url_directory(rules[j], urls[j])) is None,
    ensures
        first_url_directory(rules, urls) == url_directory(rules[i], urls[i]),
    decreases i,
{
    if i > 0 {
        assert(url_directory(rules[0], urls[0]) is None);
        let rest = urls.drop_first();
        let more = rules.drop_first();
        assert forall|j: int| 0 <= j < i - 1 implies (#[trigger] url_directory(
            more[j],
            rest[j],
        )) is None by {
            assert(more[j] == rules[j + 1] && rest[j] == urls[j + 1]);
            assert(url_directory(rules[j + 1], urls[j + 1]) is None);
        }
        assert(more[i - 1] == rules[i] && rest[i - 1] == urls[i]);
        law_urls_without_a_directory_are_passed_over(more, rest, i - 1);
    }
}

/// Every URL that the metadata of a trajectory holds is one of its workspace, in
/// the order in which they were written.
pub proof fn law_every_workspace_url_is_asked(urls: Seq<Seq<char>>)
    requires
        forall|i: int| 0 <= i < urls.len() ==> text_field(7, #[trigger] urls[i]).fits(),
    ensures
        workspace_url_texts(
            wire::message_bytes(Seq::new(urls.len(), |i: int| text_field(7, urls[i]))),
        ) == urls,
{
    let fields = Seq::new(urls.len(), |i: int| text_field(7, urls[i]));
    assert forall|i: int| 0 <= i < fields.len() implies (#[trigger] fields[i]).fits() by {
        assert(text_field(7, urls[i]).fits());
    }
    wire::law_message_round_trip(fields);
    let models = wire::written_models(fields);
    assert(wire::wire_fields(wire::message_bytes(fields)) == Ok::<
        Seq<wire::FieldModel>,
        wire::WireError,
    >(models));
    lemma_urls_of_texts(urls, urls.len() as int);
    assert(models.take(urls.len() as int) == models);
    assert(urls.take(urls.len() as int) == urls);
}

proof fn lemma_urls_of_texts(urls: Seq<Seq<char>>, n: int)
    requires
        0 <= n <= urls.len(),
    ensures
        url_texts(
            wire::written_models(Seq::new(urls.len(), |i: int| text_field(7, urls[i]))).take(n),
        ) == urls.take(n),
    decreases n,
{
    let fields = Seq::new(urls.len(), |i: int| text_field(7, urls[i]));
    let models = wire::written_models(fields);
    if n > 0 {
        lemma_urls_of_texts(urls, n - 1);
        assert(models.take(n).drop_last() == models.take(n - 1));
        assert(models.take(n).last() == text_field(7, urls[n - 1]).model());
        text::law_utf8_round_trip(urls[n - 1]);
        assert(urls.take(n) == urls.take(n - 1).push(urls[n - 1]));
    } else {
        assert(models.take(0) == Seq::<wire::FieldModel>::empty());
        assert(urls.take(0) == Seq::<Seq<char>>::empty());
    }
}

/// A URL of a drive alone, or of a machine alone, names no directory; one with
/// more in its path names what the platform makes of it.
pub proof fn law_bare_urls_name_no_directory(
    rules: PathRules,
    url: Seq<char>,
    parts: UrlModel,
    drive: char,
)
    requires
        parsed_url(url) == Some(parts),
        text::is_letter(drive),
    ensures
        parts.host is None && parts.path == seq!['/', drive, ':'] ==> url_directory(
            rules,
            url,
        ) is None,
        parts.host is None && parts.path.len() > 5 ==> url_directory(rules, url) == url_path(
            rules,
            url,
        ),
        parts.host == Some("localhost"@) && parts.path.len() > 5 ==> url_directory(rules, url)
            == url_path(rules, url),
        parts.host is Some && parts.host != Some("localhost"@) && parts.scheme == "file"@
            && parts.path.len() <= 1 ==> url_directory(rules, url) is None,
        parts.host is Some && parts.host != Some("localhost"@) && parts.path.len() > 1
            && parts.path[1] != '/' && parts.path[1] != '\\' && parts.path[1] != '%'
            ==> url_directory(rules, url) == url_path(rules, url),
{
}

/// What stands behind an opening `<USER_REQUEST>` is what the user wrote, where
/// nothing closes it; what stands before it is not.
pub proof fn law_open_request_runs_to_the_end(pre: Seq<char>, prompt: Seq<char>)
    requires
        text::is_bare(pre + "<USER_REQUEST>"@ + prompt),
        !text::has_text(pre + "<USER_REQUEST>"@.drop_last(), "<USER_REQUEST>"@),
        !text::has_text(prompt, "</USER_REQUEST>"@),
    ensures
        cleaned_request(pre + "<USER_REQUEST>"@ + prompt) == text::trimmed(prompt),
{
    reveal_strlit("<USER_REQUEST>");
    reveal_strlit("</USER_REQUEST>");
    let s = pre + "<USER_REQUEST>"@ + prompt;
    text::lemma_bare_stays(s);
    text::law_cut_at_a_text(pre, "<USER_REQUEST>"@, prompt);
}

/// Only a file with the extension `json` is read as a document; every other file
/// is read as a database.
pub proof fn law_extension_tells_the_format(extension: Option<&str>, r: SessionFormat)
    requires
        call_ensures(session_format, (extension,), r),
    ensures
        extension matches Some(e) && e@ == "json"@ ==> r == SessionFormat::LegacyJson,
        extension matches Some(e) && e@ != "json"@ ==> r == SessionFormat::Sqlite,
        extension is None ==> r == SessionFormat::Sqlite,
{
}

/// Deleting a conversation removes the memory of this session below the directory
/// of Gemini for each of the products.
#[verifier::spinoff_prover]
pub proof fn law_delete_removes_the_memory_of_every_product(
    p: DeletePlan,
    request: DeleteRequest,
    cascade_id: Option<String>,
    product: Seq<char>,
)
    requires
        is_delete_answer(
            Ok::<DeletePlan, String>(p),
            request,
            DeleteTarget::Sqlite(cascade_id),
        ),
        product == "antigravity"@ || product == "antigravity-local"@ || product
            == "antigravity-cli"@ || product == "antigravity-ide"@,
    ensures
        paths::path_models(p.directories@).contains(
            paths::PathModel {
                base: request.gemini_dir@,
                parts: seq![product, "brain"@, request.session_id@],
            },
        ),
        p.directories@.len() == if request.grandparent is Some {
            6int
        } else {
            5int
        },
{
    let dirs = paths::path_models(p.directories@);
    let id = request.session_id@;
    let at: int = if request.grandparent is Some {
        1
    } else {
        0
    };
    let k: int = if product == "antigravity"@ {
        0
    } else if product == "antigravity-local"@ {
        1
    } else if product == "antigravity-cli"@ {
        2
    } else {
        3
    };
    assert(paths::clients()[k] == product);
    assert(dirs[at + 1 + k] == brain_below(request.gemini_dir@, seq![product], id));
    assert(seq![product].push("brain"@).push(id) =~= seq![product, "brain"@, id]);
}

/// A delete that is refused says why: the file is not there, it is no session, or
/// it is the session of another id.
pub proof fn law_refused_deletes_are_explained(
    e: String,
    request: DeleteRequest,
    target: DeleteTarget,
    content: String,
    said: JsonSessionModel,
)
    requires
        is_delete_answer(Err::<DeletePlan, String>(e), request, target),
    ensures
        target is Missing ==> e@ == "Session file not found: "@ + request.path@,
        target == DeleteTarget::LegacyJson(None) ==> e@
            == "Failed to parse Gemini session metadata: "@ + request.path@,
        target == DeleteTarget::LegacyJson(Some(content)) && text_session(content@) is None ==> e@
            == "Failed to parse Gemini session metadata: "@ + request.path@,
        target == DeleteTarget::LegacyJson(Some(content)) && text_session(content@) == Some(said)
            ==> said.session_id != request.session_id@ && e@
            == "Gemini session ID mismatch: expected "@ + request.session_id@ + ", found "@
            + said.session_id,
        target is Sqlite ==> request.file_stem@ != request.session_id@ && e@
            == "Gemini session ID mismatch: expected "@ + request.session_id@ + ", file stem is "@
            + request.file_stem@,
{
}

/// A file whose messages cannot be shown says why.
pub proof fn law_unreadable_files_are_explained(db: SessionDb, reason: String, path: Seq<char>)
    ensures
        file_messages(SessionFile::Missing, path) == Err::<Seq<MessageModel>, Seq<char>>(
            "Session file does not exist: "@ + path,
        ),
        file_messages(SessionFile::LegacyJson(Err::<String, String>(reason)), path) == Err::<
            Seq<MessageModel>,
            Seq<char>,
        >("Failed to read session: "@ + reason@),
        file_messages(SessionFile::Sqlite(None), path) == Err::<Seq<MessageModel>, Seq<char>>(
            "Failed to open SQLite database: "@ + path,
        ),
        db.steps == Err::<Vec<StepRow>, StepsError>(StepsError::Prepare(reason)) ==> file_messages(
            SessionFile::Sqlite(Some(db)),
            path,
        ) == Err::<Seq<MessageModel>, Seq<char>>("Failed to prepare query on steps: "@ + reason@),
        db.steps == Err::<Vec<StepRow>, StepsError>(StepsError::Query(reason)) ==> file_messages(
            SessionFile::Sqlite(Some(db)),
            path,
        ) == Err::<Seq<MessageModel>, Seq<char>>("Failed to query steps: "@ + reason@),
{
}

/// The time of a step is its seconds and its nanoseconds in milliseconds, where the
/// part of a millisecond is cut off towards zero, and stops at the ends of the
/// range.
pub proof fn law_step_time_in_milliseconds(seconds: i64, nanos: i64)
    ensures
        ({
            let over = millis(seconds, nanos) - seconds * 1000;
            &&& -9_000_000_000_000_000 <= seconds <= 9_000_000_000_000_000 && nanos >= 0 ==> 0
                <= nanos - over * 1_000_000 < 1_000_000
            &&& -9_000_000_000_000_000 <= seconds <= 9_000_000_000_000_000 && nanos < 0 ==> 0
                <= over * 1_000_000 - nanos < 1_000_000
            &&& seconds > 9_300_000_000_000_000 ==> millis(seconds, nanos) == i64::MAX
            &&& seconds < -9_300_000_000_000_000 ==> millis(seconds, nanos) == i64::MIN
        }),
{
}

/// A prompt is shown without white space around it, whatever was taken out of it.
pub proof fn law_request_has_no_white_space_around(s: Seq<char>)
    ensures
        cleaned_request(s).len() == 0 || text::is_bare(cleaned_request(s)),
{
    text::lemma_trimmed_ends(tags::untagged(text::trimmed(s)));
    text::lemma_trimmed_ends(s);
    if let Some(after) = text::cut(text::trimmed(s), "<USER_REQUEST>"@).1 {
        text::lemma_trimmed_ends(text::cut(after, "</USER_REQUEST>"@).0);
    }
}

} // verus!
