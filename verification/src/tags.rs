//! Tagged blocks that a program puts around or behind what its user wrote.

use crate::text;
use vstd::prelude::*;
use vstd::string::*;

verus! {

/// Whether a character may stand in the name of a wrapper tag.
pub open spec fn in_tag_name(c: char) -> bool {
    c == '_' || 'A' <= c <= 'Z'
}

/// Where the run of such characters that begins at `i` ends.
pub open spec fn name_end(s: Seq<char>, i: int) -> int
    decreases s.len() - i,
{
    if 0 <= i < s.len() && in_tag_name(s[i]) {
        name_end(s, i + 1)
    } else {
        i
    }
}

/// The name of the wrapper tag that opens at `i`: capitals and underscores, of
/// the latter at least one.
pub open spec fn tag_name(s: Seq<char>, i: int) -> Option<Seq<char>> {
    let end = name_end(s, i + 1);
    if 0 <= i < s.len() && s[i] == '<' && end < s.len() && s[end] == '>' && s.subrange(
        i + 1,
        end,
    ).contains('_') {
        Some(s.subrange(i + 1, end))
    } else {
        None
    }
}

/// Where the block that opens at `i` ends, where it is closed.
pub open spec fn block_end(s: Seq<char>, i: int) -> Option<int> {
    match tag_name(s, i) {
        Some(name) => match text::find_from(s, "</"@ + name + ">"@, i + name.len() + 2) {
            Some(k) => Some(k + name.len() + 3),
            None => None,
        },
        None => None,
    }
}

/// The first closed block at or after `from`: where it opens and where it ends.
pub open spec fn first_block(s: Seq<char>, from: int) -> Option<(int, int)>
    decreases s.len() - from,
{
    if from < 0 || from >= s.len() {
        None
    } else {
        match block_end(s, from) {
            Some(end) => Some((from, end)),
            None => first_block(s, from + 1),
        }
    }
}

proof fn lemma_name_end(s: Seq<char>, i: int)
    requires
        0 <= i <= s.len(),
    ensures
        i <= name_end(s, i) <= s.len(),
    decreases s.len() - i,
{
    if i < s.len() && in_tag_name(s[i]) {
        lemma_name_end(s, i + 1);
    }
}

/// A block ends behind its opening, and within the text.
pub proof fn lemma_block_end(s: Seq<char>, i: int)
    requires
        0 <= i < s.len(),
    ensures
        block_end(s, i) matches Some(end) ==> i < end <= s.len(),
{
    lemma_name_end(s, i + 1);
    if let Some(name) = tag_name(s, i) {
        reveal_strlit("</");
        reveal_strlit(">");
        text::lemma_find_from(s, "</"@ + name + ">"@, i + name.len() + 2);
    }
}

/// The first block lies within the text.
pub proof fn lemma_first_block(s: Seq<char>, from: int)
    requires
        0 <= from,
    ensures
        first_block(s, from) matches Some((i, end)) ==> from <= i < end <= s.len(),
    decreases s.len() - from,
{
    if from < s.len() {
        lemma_block_end(s, from);
        lemma_first_block(s, from + 1);
    }
}

/// A text without wrapper tags: closed blocks are taken out. A block of
/// additional metadata that is not closed runs to the end, and its closing tag
/// alone means nothing.
pub open spec fn untagged(s: Seq<char>) -> Seq<char>
    decreases s.len(),
{
    proof {
        lemma_first_block(s, 0);
        reveal_strlit("<ADDITIONAL_METADATA>");
        reveal_strlit("</ADDITIONAL_METADATA>");
        text::lemma_find_from(s, "<ADDITIONAL_METADATA>"@, 0);
        text::lemma_find_from(s, "</ADDITIONAL_METADATA>"@, 0);
    }
    match first_block(s, 0) {
        Some((i, end)) => untagged(s.take(i) + s.skip(end)),
        None => match text::cut(s, "<ADDITIONAL_METADATA>"@) {
            (before, Some(_)) => untagged(before),
            (_, None) => match text::cut(s, "</ADDITIONAL_METADATA>"@) {
                (before, Some(after)) => untagged(before + after),
                (_, None) => s,
            },
        },
    }
}

/// A text without wrapper tags holds neither a closed block nor a tag of
/// additional metadata.
pub proof fn law_untagged(s: Seq<char>)
    ensures
        first_block(untagged(s), 0) is None,
        !text::has_text(untagged(s), "<ADDITIONAL_METADATA>"@),
        !text::has_text(untagged(s), "</ADDITIONAL_METADATA>"@),
    decreases s.len(),
{
    lemma_first_block(s, 0);
    reveal_strlit("<ADDITIONAL_METADATA>");
    reveal_strlit("</ADDITIONAL_METADATA>");
    text::lemma_find_from(s, "<ADDITIONAL_METADATA>"@, 0);
    text::lemma_find_from(s, "</ADDITIONAL_METADATA>"@, 0);
    match first_block(s, 0) {
        Some((i, end)) => {
            law_untagged(s.take(i) + s.skip(end));
        },
        None => match text::cut(s, "<ADDITIONAL_METADATA>"@) {
            (before, Some(_)) => {
                law_untagged(before);
            },
            (_, None) => match text::cut(s, "</ADDITIONAL_METADATA>"@) {
                (before, Some(after)) => {
                    law_untagged(before + after);
                },
                (_, None) => {},
            },
        },
    }
}

/// What stands before the first `<` of a text stays.
pub proof fn law_head_stays(s: Seq<char>, n: int)
    requires
        0 <= n <= s.len(),
        !s.take(n).contains('<'),
    ensures
        n <= untagged(s).len(),
        untagged(s).take(n) == s.take(n),
    decreases s.len(),
{
    lemma_first_block(s, 0);
    reveal_strlit("<ADDITIONAL_METADATA>");
    reveal_strlit("</ADDITIONAL_METADATA>");
    text::lemma_find_from(s, "<ADDITIONAL_METADATA>"@, 0);
    text::lemma_find_from(s, "</ADDITIONAL_METADATA>"@, 0);
    match first_block(s, 0) {
        Some((i, end)) => {
            lemma_block_opens(s, 0);
            lemma_cut_behind(s, n, i, end);
            law_head_stays(s.take(i) + s.skip(end), n);
        },
        None => match text::cut(s, "<ADDITIONAL_METADATA>"@) {
            (before, Some(_)) => {
                let i = before.len() as int;
                assert(s.subrange(i, i + "<ADDITIONAL_METADATA>"@.len())[0] == s[i]);
                lemma_cut_behind(s, n, i, s.len() as int);
                assert(s.take(i) + s.skip(s.len() as int) =~= before);
                law_head_stays(before, n);
            },
            (_, None) => match text::cut(s, "</ADDITIONAL_METADATA>"@) {
                (before, Some(after)) => {
                    let i = before.len() as int;
                    assert(s.subrange(i, i + "</ADDITIONAL_METADATA>"@.len())[0] == s[i]);
                    lemma_cut_behind(s, n, i, i + "</ADDITIONAL_METADATA>"@.len());
                    law_head_stays(before + after, n);
                },
                (_, None) => {},
            },
        },
    }
}

proof fn lemma_block_opens(s: Seq<char>, from: int)
    requires
        0 <= from,
    ensures
        first_block(s, from) matches Some((i, _)) ==> 0 <= i < s.len() && s[i] == '<',
    decreases s.len() - from,
{
    if from < s.len() {
        lemma_block_opens(s, from + 1);
    }
}

/// Cutting something out that begins with `<` keeps what stands before.
proof fn lemma_cut_behind(s: Seq<char>, n: int, i: int, end: int)
    requires
        0 <= n <= s.len(),
        !s.take(n).contains('<'),
        0 <= i < end <= s.len(),
        s[i] == '<',
    ensures
        n <= i,
        (s.take(i) + s.skip(end)).take(n) == s.take(n),
        !(s.take(i) + s.skip(end)).take(n).contains('<'),
        n <= (s.take(i) + s.skip(end)).len(),
{
    if i < n {
        assert(s.take(n)[i] == '<');
    }
    assert((s.take(i) + s.skip(end)).take(n) =~= s.take(n));
}

/// A text without any `<` stays as it is.
pub proof fn law_plain_text_stays(s: Seq<char>)
    requires
        !s.contains('<'),
    ensures
        untagged(s) == s,
{
    lemma_no_block(s, 0);
    reveal_strlit("<ADDITIONAL_METADATA>");
    reveal_strlit("</ADDITIONAL_METADATA>");
    text::lemma_find_from(s, "<ADDITIONAL_METADATA>"@, 0);
    text::lemma_find_from(s, "</ADDITIONAL_METADATA>"@, 0);
    if let Some(i) = text::find_text(s, "<ADDITIONAL_METADATA>"@) {
        assert(s.subrange(i, i + "<ADDITIONAL_METADATA>"@.len())[0] == s[i]);
    }
    if let Some(i) = text::find_text(s, "</ADDITIONAL_METADATA>"@) {
        assert(s.subrange(i, i + "</ADDITIONAL_METADATA>"@.len())[0] == s[i]);
    }
}

proof fn lemma_no_block(s: Seq<char>, from: int)
    requires
        0 <= from,
        !s.contains('<'),
    ensures
        first_block(s, from) is None,
    decreases s.len() - from,
{
    if from < s.len() {
        assert(s[from] != '<');
        lemma_no_block(s, from + 1);
    }
}

/// Where the closed block that opens at `i` ends.
fn block_end_of(whole: &str, chars: &Vec<char>, i: usize) -> (r: Option<usize>)
    requires
        whole@ == chars@,
        i < chars@.len(),
    ensures
        match r {
            Some(end) => block_end(chars@, i as int) == Some(end as int),
            None => block_end(chars@, i as int) is None,
        },
{
    let ghost s = chars@;
    if chars[i] != '<' {
        return None;
    }
    let n: usize = chars.len();
    let mut end: usize = i + 1;
    let mut underscore = false;
    while end < n && (chars[end] == '_' || ('A' <= chars[end] && chars[end] <= 'Z'))
        invariant
            s == chars@,
            n == s.len(),
            i < end <= n,
            name_end(s, i + 1) == name_end(s, end as int),
            underscore == s.subrange(i + 1, end as int).contains('_'),
        decreases s.len() - end,
    {
        let c = chars[end];
        proof {
            let before = s.subrange(i + 1, end as int);
            let after = s.subrange(i + 1, end + 1);
            assert(after =~= before.push(c));
            if before.contains('_') {
                let k = choose|k: int| 0 <= k < before.len() && before[k] == '_';
                assert(after[k] == '_');
            }
            if c == '_' {
                assert(after[before.len() as int] == '_');
            }
            if after.contains('_') && c != '_' {
                let k = choose|k: int| 0 <= k < after.len() && after[k] == '_';
                assert(before[k] == '_');
            }
        }
        if c == '_' {
            underscore = true;
        }
        end = end + 1;
    }
    if !underscore || end >= n || chars[end] != '>' {
        return None;
    }
    let closing = text::concat3("</", whole.substring_char(i + 1, end), ">");
    match text::find_in_chars(chars, closing.as_str(), end + 1) {
        Some(k) => {
            proof {
                reveal_strlit("</");
                reveal_strlit(">");
                text::lemma_find_from(s, closing@, end + 1);
            }
            Some(k + (end - i - 1) + 3)
        },
        None => None,
    }
}

fn first_block_of(s: &str) -> (r: Option<(usize, usize)>)
    ensures
        match r {
            Some((i, end)) => first_block(s@, 0) == Some((i as int, end as int)),
            None => first_block(s@, 0) is None,
        },
{
    let chars = text::chars_of(s);
    let mut i: usize = 0;
    while i < chars.len()
        invariant
            s@ == chars@,
            i <= chars@.len(),
            first_block(chars@, 0) == first_block(chars@, i as int),
        decreases chars@.len() - i,
    {
        if let Some(end) = block_end_of(s, &chars, i) {
            return Some((i, end));
        }
        i = i + 1;
    }
    None
}

/// Takes wrapper tags out of a text.
pub fn untag(s: &str) -> (r: String)
    ensures
        r@ == untagged(s@),
{
    let mut current: String = s.to_owned();
    loop
        invariant
            untagged(s@) == untagged(current@),
        ensures
            current@ == untagged(s@),
        decreases current@.len(),
    {
        proof {
            lemma_first_block(current@, 0);
            reveal_strlit("<ADDITIONAL_METADATA>");
            reveal_strlit("</ADDITIONAL_METADATA>");
            text::lemma_find_from(current@, "<ADDITIONAL_METADATA>"@, 0);
            text::lemma_find_from(current@, "</ADDITIONAL_METADATA>"@, 0);
        }
        if let Some((i, end)) = first_block_of(current.as_str()) {
            let n: usize = current.as_str().unicode_len();
            let mut rest = current.as_str().substring_char(0, i).to_owned();
            rest.append(current.as_str().substring_char(end, n));
            assert(rest@ =~= current@.take(i as int) + current@.skip(end as int));
            current = rest;
        } else {
            let (before, after) = text::cut_of(current.as_str(), "<ADDITIONAL_METADATA>");
            if after.is_some() {
                let rest = before.to_owned();
                current = rest;
            } else {
                let (before, after) = text::cut_of(current.as_str(), "</ADDITIONAL_METADATA>");
                match after {
                    Some(after) => {
                        let mut rest = before.to_owned();
                        rest.append(after);
                        current = rest;
                    },
                    None => {
                        break;
                    },
                }
            }
        }
    }
    current
}

/// Whether a text can be the name of a wrapper tag.
pub open spec fn is_tag_name(name: Seq<char>) -> bool {
    name.contains('_') && forall|i: int|
        0 <= i < name.len() ==> #[trigger] name[i] == '_' || 'A' <= name[i] <= 'Z'
}

proof fn lemma_name_ends(s: Seq<char>, i: int, end: int)
    requires
        0 <= i <= end < s.len(),
        forall|j: int| i <= j < end ==> in_tag_name(#[trigger] s[j]),
        !in_tag_name(s[end]),
    ensures
        name_end(s, i) == end,
    decreases end - i,
{
    if i < end {
        lemma_name_ends(s, i + 1, end);
    }
}

proof fn lemma_opening(s: Seq<char>, i: int, name: Seq<char>)
    requires
        0 <= i,
        i + name.len() + 1 < s.len(),
        s[i] == '<',
        s.subrange(i + 1, i + 1 + name.len()) == name,
        s[i + 1 + name.len()] == '>',
        is_tag_name(name),
    ensures
        tag_name(s, i) == Some(name),
{
    let end = i + 1 + name.len();
    assert forall|j: int| i + 1 <= j < end implies in_tag_name(#[trigger] s[j]) by {
        assert(s.subrange(i + 1, end)[j - i - 1] == s[j]);
        assert(name[j - i - 1] == s[j]);
    }
    lemma_name_ends(s, i + 1, end);
}

proof fn lemma_block_before(s: Seq<char>, from: int, n: int)
    requires
        0 <= from <= n <= s.len(),
        forall|j: int| from <= j < n ==> #[trigger] s[j] != '<',
    ensures
        first_block(s, from) == first_block(s, n),
    decreases n - from,
{
    if from < n {
        assert(s[from] != '<');
        lemma_block_before(s, from + 1, n);
    }
}

/// A closed block between two texts is taken out, with all that stands in it, and
/// the texts stay.
pub proof fn law_block_is_taken_out(
    a: Seq<char>,
    name: Seq<char>,
    body: Seq<char>,
    b: Seq<char>,
)
    requires
        is_tag_name(name),
        !a.contains('<'),
        !body.contains('<'),
        !b.contains('<'),
    ensures
        untagged(a + (seq!['<'] + name + seq!['>'] + body + ("</"@ + name + ">"@)) + b) == a + b,
{
    reveal_strlit("</");
    reveal_strlit(">");
    let close = "</"@ + name + ">"@;
    let open = seq!['<'] + name + seq!['>'];
    let block = open + body + close;
    let s = a + block + b;
    let i = a.len() as int;
    let at = i + name.len() + 2;
    let k = at + body.len();
    let end = k + name.len() + 3;
    assert(seq!['<'] + name + seq!['>'] + body + close =~= block);
    assert forall|j: int| 0 <= j < i implies #[trigger] s[j] != '<' by {
        assert(s[j] == a[j]);
        assert(a.contains(a[j]));
    }
    lemma_block_before(s, 0, i);
    assert(s[i] == '<');
    assert(s.subrange(i + 1, i + 1 + name.len()) =~= name);
    assert(s[i + 1 + name.len()] == '>');
    lemma_opening(s, i, name);
    assert(s.subrange(k, k + close.len()) =~= close);
    text::lemma_find_from(s, close, at);
    assert(text::occurs_at(s, close, k));
    assert forall|j: int| at <= j < k implies !text::occurs_at(s, close, j) by {
        if text::occurs_at(s, close, j) {
            assert(s.subrange(j, j + close.len())[0] == s[j]);
            assert(close[0] == '<');
            assert(s[j] == body[j - at]);
            assert(body.contains(body[j - at]));
        }
    }
    assert(text::find_from(s, close, at) == Some(k));
    assert(block_end(s, i) == Some(end));
    assert(first_block(s, 0) == Some((i, end)));
    assert(s.take(i) =~= a);
    assert(s.skip(end) =~= b);
    assert(!(a + b).contains('<')) by {
        if (a + b).contains('<') {
            let j = choose|j: int| 0 <= j < (a + b).len() && (a + b)[j] == '<';
            if j < a.len() {
                assert(a[j] == '<');
            } else {
                assert(b[j - a.len()] == '<');
            }
        }
    }
    law_plain_text_stays(a + b);
}

proof fn lemma_no_block_behind(s: Seq<char>, from: int)
    requires
        0 <= from,
        forall|j: int| from <= j < s.len() ==> #[trigger] s[j] != '<',
    ensures
        first_block(s, from) is None,
    decreases s.len() - from,
{
    if from < s.len() {
        assert(s[from] != '<');
        lemma_no_block_behind(s, from + 1);
    }
}

/// Additional metadata that is not closed are taken out with all that stands
/// behind them; a closing tag of theirs that closes nothing is taken out alone.
pub proof fn law_open_metadata_run_to_the_end(a: Seq<char>, b: Seq<char>)
    requires
        !a.contains('<'),
        !b.contains('<'),
    ensures
        untagged(a + "<ADDITIONAL_METADATA>"@ + b) == a,
        untagged(a + "</ADDITIONAL_METADATA>"@ + b) == a + b,
{
    reveal_strlit("<ADDITIONAL_METADATA>");
    reveal_strlit("</ADDITIONAL_METADATA>");
    lemma_open_metadata(a, b);
    lemma_closing_metadata(a, b);
}

proof fn lemma_open_metadata(a: Seq<char>, b: Seq<char>)
    requires
        !a.contains('<'),
        !b.contains('<'),
    ensures
        untagged(a + "<ADDITIONAL_METADATA>"@ + b) == a,
{
    reveal_strlit("<ADDITIONAL_METADATA>");
    reveal_strlit("</");
    reveal_strlit(">");
    let tag = "<ADDITIONAL_METADATA>"@;
    let s = a + tag + b;
    let i = a.len() as int;
    lemma_alone(a, tag, b);
    assert(block_end(s, i) is None) by {
        if let Some(name) = tag_name(s, i) {
            let close = "</"@ + name + ">"@;
            text::lemma_find_from(s, close, i + name.len() + 2);
            if let Some(k) = text::find_from(s, close, i + name.len() + 2) {
                assert(s.subrange(k, k + close.len())[0] == s[k]);
                assert(close[0] == '<');
                assert(s[k] != '<');
            }
        }
    }
    assert(first_block(s, 0) is None);
    text::law_cut_at_a_text(a, tag, b);
    law_plain_text_stays(a);
}

proof fn lemma_closing_metadata(a: Seq<char>, b: Seq<char>)
    requires
        !a.contains('<'),
        !b.contains('<'),
    ensures
        untagged(a + "</ADDITIONAL_METADATA>"@ + b) == a + b,
{
    reveal_strlit("<ADDITIONAL_METADATA>");
    reveal_strlit("</ADDITIONAL_METADATA>");
    let tag = "</ADDITIONAL_METADATA>"@;
    let other = "<ADDITIONAL_METADATA>"@;
    let s = a + tag + b;
    let i = a.len() as int;
    lemma_alone(a, tag, b);
    assert(s[i + 1] == '/');
    assert(name_end(s, i + 1) == i + 1);
    assert(block_end(s, i) is None);
    assert(first_block(s, 0) is None);
    text::lemma_find_from(s, other, 0);
    if let Some(k) = text::find_text(s, other) {
        assert(s.subrange(k, k + other.len())[0] == s[k]);
        assert(s.subrange(k, k + other.len())[1] == s[k + 1]);
        assert(other[0] == '<' && other[1] == 'A');
        assert(k == i);
    }
    text::law_cut_at_a_text(a, tag, b);
    assert(!(a + b).contains('<')) by {
        if (a + b).contains('<') {
            let j = choose|j: int| 0 <= j < (a + b).len() && (a + b)[j] == '<';
            if j < a.len() {
                assert(a[j] == '<');
            } else {
                assert(b[j - a.len()] == '<');
            }
        }
    }
    law_plain_text_stays(a + b);
}

proof fn lemma_alone(a: Seq<char>, tag: Seq<char>, b: Seq<char>)
    requires
        !a.contains('<'),
        !b.contains('<'),
        tag.len() > 1,
        tag[0] == '<',
        forall|j: int| 1 <= j < tag.len() ==> #[trigger] tag[j] != '<',
    ensures
        ({
            let s = a + tag + b;
            let i = a.len() as int;
            &&& forall|j: int| 0 <= j < s.len() && j != i ==> #[trigger] s[j] != '<'
            &&& block_end(s, i) is None ==> first_block(s, 0) is None
            &&& !text::has_text(a + tag.drop_last(), tag)
        }),
{
    let s = a + tag + b;
    let i = a.len() as int;
    assert forall|j: int| 0 <= j < s.len() && j != i implies #[trigger] s[j] != '<' by {
        if j < i {
            assert(s[j] == a[j]);
            assert(a.contains(a[j]));
        } else if j < i + tag.len() {
            assert(s[j] == tag[j - i]);
        } else {
            assert(s[j] == b[j - i - tag.len()]);
            assert(b.contains(b[j - i - tag.len()]));
        }
    }
    lemma_block_before(s, 0, i);
    lemma_no_block_behind(s, i + 1);
    let head = a + tag.drop_last();
    text::lemma_find_from(head, tag, 0);
    if let Some(k) = text::find_text(head, tag) {
        assert(head.subrange(k, k + tag.len())[0] == head[k]);
        assert(head[k] == s[k]);
    }
}

} // verus!
