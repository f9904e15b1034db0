//! Token counts estimated from texts.

use crate::json;
use crate::json::{parse_json, Json};
use crate::text::same_text;
use vstd::prelude::*;
use vstd::string::*;

verus! {

/// `n`, or the largest `usize` where `n` exceeds it.
pub open spec fn capped(n: nat) -> usize {
    if n <= usize::MAX {
        n as usize
    } else {
        usize::MAX
    }
}

fn capped_add(a: usize, b: usize) -> (r: usize)
    ensures
        r == capped((a + b) as nat),
{
    a.saturating_add(b)
}

// ---------------------------------------------------------------------------
// Three and a half characters per token
// ---------------------------------------------------------------------------

/// The tokens of a text of `chars` characters at three and a half characters
/// per token, rounded to the nearest count; a text that is not empty has at
/// least one.
pub open spec fn estimated_tokens(chars: nat) -> u32 {
    let rounded = (4 * chars + 7) / 14;
    if chars == 0 {
        0
    } else if rounded == 0 {
        1
    } else if rounded > u32::MAX {
        u32::MAX
    } else {
        rounded as u32
    }
}

/// Estimates the tokens of a text of `chars` characters.
pub fn estimate_tokens(chars: usize) -> (r: u32)
    ensures
        r == estimated_tokens(chars as nat),
{
    let rounded: u128 = (4 * chars as u128 + 7) / 14;
    if chars == 0 {
        0
    } else if rounded == 0 {
        1
    } else if rounded > u32::MAX as u128 {
        u32::MAX
    } else {
        rounded as u32
    }
}

/// An estimate is the nearest whole number to two sevenths of the characters,
/// wherever that is at least one and fits.
pub proof fn law_estimate_is_nearest(chars: nat)
    requires
        2 <= chars,
        chars < 0x1_0000_0000,
    ensures
        -7 <= 2 * (2 * chars - 7 * estimated_tokens(chars)) <= 7,
{
}

/// A text has an estimate of zero exactly where it is empty, and a longer text
/// has no smaller estimate.
pub proof fn law_estimate_grows(a: nat, b: nat)
    requires
        a <= b,
    ensures
        estimated_tokens(a) <= estimated_tokens(b),
        estimated_tokens(a) == 0 <==> a == 0,
{
}

/// The characters of a content block: its text, else its thinking, else its
/// input, which counts as the text that it is or as its compact JSON text.
pub open spec fn block_chars(block: json::JsonModel) -> nat {
    match block.text_field("text"@) {
        Some(s) => s.len(),
        None => match block.text_field("thinking"@) {
            Some(s) => s.len(),
            None => match block.field("input"@) {
                Some(input) => match input.text() {
                    Some(s) => s.len(),
                    None => json::json_text(input).len(),
                },
                None => 0,
            },
        },
    }
}

/// The characters of a list of content blocks.
pub open spec fn blocks_chars(blocks: Seq<json::JsonModel>) -> nat
    decreases blocks.len(),
{
    if blocks.len() == 0 {
        0
    } else {
        blocks_chars(blocks.drop_last()) + block_chars(blocks.last())
    }
}

/// The characters of the content of a message: a text, or a list of blocks.
pub open spec fn content_chars(content: Option<json::JsonModel>) -> nat {
    match content {
        Some(json::JsonModel::Text(s)) => s.len(),
        Some(json::JsonModel::Array(blocks)) => blocks_chars(blocks),
        _ => 0,
    }
}

fn block_chars_of(block: &Json) -> (r: usize)
    ensures
        r == block_chars(block@),
{
    if let Some(s) = block.get_str("text") {
        return s.unicode_len();
    }
    if let Some(s) = block.get_str("thinking") {
        return s.unicode_len();
    }
    match block.get("input") {
        Some(input) => match input.as_str() {
            Some(s) => s.unicode_len(),
            None => {
                let compact = input.compact_text();
                compact.as_str().unicode_len()
            },
        },
        None => 0,
    }
}

/// Counts the characters of the content of a message.
pub fn extract_content_chars(content: Option<&Json>) -> (r: usize)
    ensures
        r == capped(content_chars(json::opt_model(content))),
{
    let content = match content {
        Some(content) => content,
        None => {
            return 0;
        },
    };
    if let Some(s) = content.as_str() {
        return s.unicode_len();
    }
    let blocks = match content.as_array() {
        Some(blocks) => blocks,
        None => {
            return 0;
        },
    };
    let ghost models = json::item_models(blocks@);
    let mut total: usize = 0;
    let mut i: usize = 0;
    assert(models.take(0) == Seq::<json::JsonModel>::empty());
    while i < blocks.len()
        invariant
            models == json::item_models(blocks@),
            i <= blocks@.len(),
            total == capped(blocks_chars(models.take(i as int))),
        decreases blocks@.len() - i,
    {
        assert(models.take(i + 1).drop_last() == models.take(i as int));
        assert(models.take(i + 1).last() == blocks@[i as int]@);
        total = capped_add(total, block_chars_of(&blocks[i]));
        i = i + 1;
    }
    assert(models.take(blocks@.len() as int) == models);
    total
}

// ---------------------------------------------------------------------------
// One and four fifths characters per token
// ---------------------------------------------------------------------------

/// The tokens of a text of `chars` characters at one and four fifths characters
/// per token, rounded to the nearest count; there is at least one.
pub open spec fn dense_tokens(chars: nat) -> i64 {
    let rounded = (10 * chars + 9) / 18;
    if rounded == 0 {
        1
    } else if rounded > i64::MAX {
        i64::MAX
    } else {
        rounded as i64
    }
}

fn dense_tokens_of(chars: usize) -> (r: i64)
    ensures
        r == dense_tokens(chars as nat),
{
    let rounded: u128 = (10 * chars as u128 + 9) / 18;
    if rounded == 0 {
        1
    } else if rounded > i64::MAX as u128 {
        i64::MAX
    } else {
        rounded as i64
    }
}

/// The characters of the text under a key.
pub open spec fn key_chars(m: json::JsonModel, key: Seq<char>) -> nat {
    match m.text_field(key) {
        Some(s) => s.len(),
        None => 0,
    }
}

/// The characters of an item of a message: a text, or an object with texts.
pub open spec fn item_chars(item: json::JsonModel) -> nat {
    match item {
        json::JsonModel::Text(s) => s.len(),
        _ => key_chars(item, "text"@) + key_chars(item, "reasoning"@) + key_chars(
            item,
            "thinking"@,
        ) + key_chars(item, "content"@),
    }
}

/// The characters of a list of items.
pub open spec fn items_chars(items: Seq<json::JsonModel>) -> nat
    decreases items.len(),
{
    if items.len() == 0 {
        0
    } else {
        items_chars(items.drop_last()) + item_chars(items.last())
    }
}

/// The characters of the content of an assistant message.
pub open spec fn message_chars(content: json::JsonModel) -> nat {
    match content {
        json::JsonModel::Text(s) => s.len(),
        json::JsonModel::Array(items) => items_chars(items),
        _ => 0,
    }
}

fn key_chars_of(m: &Json, key: &str) -> (r: usize)
    ensures
        r == key_chars(m@, key@),
{
    match m.get_str(key) {
        Some(s) => s.unicode_len(),
        None => 0,
    }
}

fn item_chars_of(item: &Json) -> (r: usize)
    ensures
        r == capped(item_chars(item@)),
{
    match item.as_str() {
        Some(s) => s.unicode_len(),
        None => {
            let a: usize = capped_add(key_chars_of(item, "text"), key_chars_of(item, "reasoning"));
            let b: usize = capped_add(a, key_chars_of(item, "thinking"));
            capped_add(b, key_chars_of(item, "content"))
        },
    }
}

/// Counts the characters of the content of an assistant message.
pub fn count_content_chars(content: &Json) -> (r: usize)
    ensures
        r == capped(message_chars(content@)),
{
    if let Some(s) = content.as_str() {
        return s.unicode_len();
    }
    let items = match content.as_array() {
        Some(items) => items,
        None => {
            return 0;
        },
    };
    let ghost models = json::item_models(items@);
    let mut total: usize = 0;
    let mut i: usize = 0;
    assert(models.take(0) == Seq::<json::JsonModel>::empty());
    while i < items.len()
        invariant
            models == json::item_models(items@),
            i <= items@.len(),
            total == capped(items_chars(models.take(i as int))),
        decreases items@.len() - i,
    {
        assert(models.take(i + 1).drop_last() == models.take(i as int));
        assert(models.take(i + 1).last() == items@[i as int]@);
        total = capped_add(total, item_chars_of(&items[i]));
        i = i + 1;
    }
    assert(models.take(items@.len() as int) == models);
    total
}

/// The tokens of the content of an assistant message, where it has any.
pub open spec fn content_tokens(content: Option<json::JsonModel>) -> Option<i64> {
    match content {
        Some(c) => if message_chars(c) == 0 {
            None
        } else {
            Some(dense_tokens(capped(message_chars(c)) as nat))
        },
        None => None,
    }
}

/// The message in a message document: an object, or a text that is one.
pub open spec fn inner_message(message: json::JsonModel) -> Option<json::JsonModel> {
    match message {
        json::JsonModel::Text(s) => match json::json_document(s) {
            Ok(m) => Some(m),
            Err(_) => None,
        },
        json::JsonModel::Object(_) => Some(message),
        _ => None,
    }
}

/// The tokens that a message document shows of an assistant message.
pub open spec fn document_tokens(root: json::JsonModel) -> Option<i64> {
    if root.text_field("role"@) == Some("assistant"@) {
        match root.field("message"@) {
            Some(message) => match inner_message(message) {
                Some(m) => content_tokens(m.field("content"@)),
                None => None,
            },
            None => None,
        }
    } else {
        None
    }
}

/// The tokens that the text of a message file shows of an assistant message.
pub open spec fn message_file_tokens(content: Seq<char>) -> Option<i64> {
    match json::json_document(content) {
        Ok(root) => document_tokens(root),
        Err(_) => None,
    }
}

fn content_tokens_of(content: Option<&Json>) -> (r: Option<i64>)
    ensures
        r == content_tokens(json::opt_model(content)),
{
    match content {
        Some(c) => {
            let chars: usize = count_content_chars(c);
            if chars == 0 {
                None
            } else {
                Some(dense_tokens_of(chars))
            }
        },
        None => None,
    }
}

/// Estimates the tokens of the assistant message in a message document.
pub fn extract_output_tokens(root: &Json) -> (r: Option<i64>)
    ensures
        r == document_tokens(root@),
{
    match root.get_str("role") {
        Some(role) => if !same_text(role, "assistant") {
            return None;
        },
        None => {
            return None;
        },
    }
    let message = match root.get("message") {
        Some(message) => message,
        None => {
            return None;
        },
    };
    match message.as_str() {
        Some(s) => match parse_json(s) {
            Ok(inner) => content_tokens_of(inner.get("content")),
            Err(_) => None,
        },
        None => if message.as_object().is_some() {
            content_tokens_of(message.get("content"))
        } else {
            None
        },
    }
}

/// Estimates the tokens of the assistant message in the text of a message file.
pub fn extract_output_tokens_from_message_file(content: &str) -> (r: Option<i64>)
    ensures
        r == message_file_tokens(content@),
{
    match parse_json(content) {
        Ok(root) => extract_output_tokens(&root),
        Err(_) => None,
    }
}

/// A block counts the characters of its text; without one, those of its
/// thinking; without either, those of its input.
pub proof fn law_block_counts(
    block: json::JsonModel,
    words: Seq<char>,
    thinking: Seq<char>,
    input: json::JsonModel,
)
    ensures
        json::has_text_member(block, "text"@, words) ==> block_chars(block) == words.len(),
        json::lacks_member(block, "text"@) && json::has_text_member(block, "thinking"@, thinking)
            ==> block_chars(block) == thinking.len(),
        json::lacks_member(block, "text"@) && json::lacks_member(block, "thinking"@)
            && json::has_member(block, "input"@, input) ==> block_chars(block) == (match input {
            json::JsonModel::Text(s) => s.len(),
            _ => json::json_text(input).len(),
        }),
        json::lacks_member(block, "text"@) && json::lacks_member(block, "thinking"@)
            && json::lacks_member(block, "input"@) ==> block_chars(block) == 0,
{
    json::law_member_is_found(block, "text"@);
    json::law_member_is_found(block, "thinking"@);
    json::law_member_is_found(block, "input"@);
}

/// The characters of a content are those of its text, or of all its blocks
/// together; nothing else has any.
pub proof fn law_blocks_add_up(a: Seq<json::JsonModel>, b: Seq<json::JsonModel>, s: Seq<char>)
    ensures
        content_chars(Some(json::JsonModel::Text(s))) == s.len(),
        content_chars(Some(json::JsonModel::Array(a + b))) == content_chars(
            Some(json::JsonModel::Array(a)),
        ) + content_chars(Some(json::JsonModel::Array(b))),
        a.len() == 1 ==> content_chars(Some(json::JsonModel::Array(a))) == block_chars(a[0]),
        content_chars(None) == 0,
    decreases b.len(),
{
    if a.len() == 1 {
        assert(blocks_chars(a.drop_last()) == 0);
    }
    if b.len() > 0 {
        law_blocks_add_up(a, b.drop_last(), s);
        assert((a + b).drop_last() == a + b.drop_last());
        assert((a + b).last() == b.last());
    } else {
        assert(a + b == a);
    }
}

/// Whether a document has a text under a key, or leaves an empty one out.
pub open spec fn gives_text(doc: json::JsonModel, key: Seq<char>, s: Seq<char>) -> bool {
    json::has_text_member(doc, key, s) || (s.len() == 0 && json::lacks_member(doc, key))
}

/// An item counts the characters of all its texts, and a message those of all its
/// items.
pub proof fn law_items_add_up(
    item: json::JsonModel,
    words: Seq<char>,
    reasoning: Seq<char>,
    thinking: Seq<char>,
    content: Seq<char>,
    a: Seq<json::JsonModel>,
    b: Seq<json::JsonModel>,
)
    ensures
        item_chars(json::JsonModel::Text(words)) == words.len(),
        item is Object && gives_text(item, "text"@, words) && gives_text(
            item,
            "reasoning"@,
            reasoning,
        ) && gives_text(item, "thinking"@, thinking) && gives_text(item, "content"@, content)
            ==> item_chars(item) == words.len() + reasoning.len() + thinking.len()
            + content.len(),
        message_chars(json::JsonModel::Array(a + b)) == message_chars(json::JsonModel::Array(a))
            + message_chars(json::JsonModel::Array(b)),
        a.len() == 1 ==> message_chars(json::JsonModel::Array(a)) == item_chars(a[0]),
        message_chars(json::JsonModel::Text(words)) == words.len(),
    decreases b.len(),
{
    json::law_member_is_found(item, "text"@);
    json::law_member_is_found(item, "reasoning"@);
    json::law_member_is_found(item, "thinking"@);
    json::law_member_is_found(item, "content"@);
    if a.len() == 1 {
        assert(items_chars(a.drop_last()) == 0);
    }
    if b.len() > 0 {
        law_items_add_up(item, words, reasoning, thinking, content, a, b.drop_last());
        assert((a + b).drop_last() == a + b.drop_last());
        assert((a + b).last() == b.last());
    } else {
        assert(a + b == a);
    }
}

/// A dense estimate is the nearest whole number to five ninths of the characters,
/// wherever that is at least one and fits.
pub proof fn law_dense_estimate_is_nearest(chars: nat)
    requires
        1 <= chars,
        chars < 0x1_0000_0000,
    ensures
        -9 <= 2 * (5 * chars - 9 * dense_tokens(chars)) <= 9,
        dense_tokens(chars) >= 1,
{
}

/// The tokens of a message file are estimated from the content of an assistant,
/// whether the message stands there as a document or as the text of one; a
/// message of anyone else, and one without content, has none.
pub proof fn law_message_file_is_estimated(
    root: json::JsonModel,
    message: json::JsonModel,
    inner: json::JsonModel,
    content: json::JsonModel,
    role: Seq<char>,
)
    requires
        json::has_member(root, "message"@, message),
        (message is Object && inner == message) || (message matches json::JsonModel::Text(s)
            && json::json_document(s) == Ok::<json::JsonModel, Seq<char>>(inner)),
        json::has_member(inner, "content"@, content),
        message_chars(content) <= usize::MAX,
    ensures
        json::has_member(root, "role"@, json::JsonModel::Text("assistant"@)) && message_chars(
            content,
        ) > 0 ==> document_tokens(root) == Some(dense_tokens(message_chars(content))),
        json::has_member(root, "role"@, json::JsonModel::Text("assistant"@)) && message_chars(
            content,
        ) == 0 ==> document_tokens(root) is None,
        json::has_member(root, "role"@, json::JsonModel::Text(role)) && role != "assistant"@
            ==> document_tokens(root) is None,
        json::lacks_member(root, "role"@) ==> document_tokens(root) is None,
{
    json::law_member_is_found(root, "message"@);
    json::law_member_is_found(root, "role"@);
    json::law_member_is_found(inner, "content"@);
}

/// A message file is estimated as the document that it holds; one that holds none
/// is not.
pub proof fn law_message_file_is_its_document(content: Seq<char>, root: json::JsonModel)
    ensures
        json::json_document(content) == Ok::<json::JsonModel, Seq<char>>(root)
            ==> message_file_tokens(content) == document_tokens(root),
        json::json_document(content) is Err ==> message_file_tokens(content) is None,
{
}

/// A message file without a message, or whose message has no content, has no
/// estimate.
pub proof fn law_message_file_without_content(root: json::JsonModel, message: json::JsonModel)
    ensures
        json::lacks_member(root, "message"@) ==> document_tokens(root) is None,
        json::has_member(root, "message"@, message) && message is Object && json::lacks_member(
            message,
            "content"@,
        ) ==> document_tokens(root) is None,
{
    json::law_member_is_found(root, "message"@);
    json::law_member_is_found(message, "content"@);
}

} // verus!
