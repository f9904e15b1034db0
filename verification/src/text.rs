//! Operations on text, stated over sequences of characters.

use vstd::prelude::*;
use vstd::string::*;
use vstd::utf8::*;

verus! {

// ---------------------------------------------------------------------------
// Character classes and trimming
// ---------------------------------------------------------------------------

/// The characters with the Unicode `White_Space` property.
pub open spec fn is_white_space(c: char) -> bool {
    let u = c as int;
    ||| 0x9 <= u <= 0xd
    ||| u == 0x20
    ||| u == 0x85
    ||| u == 0xa0
    ||| u == 0x1680
    ||| 0x2000 <= u <= 0x200a
    ||| u == 0x2028
    ||| u == 0x2029
    ||| u == 0x202f
    ||| u == 0x205f
    ||| u == 0x3000
}

/// The classes of characters that the importers trim.
#[derive(Clone, Copy)]
pub enum CharClass {
    /// White space.
    Space,
    /// Quotes, parentheses and commas around a model name.
    Quote,
    /// The full stop at the end of a sentence.
    Dot,
}

impl CharClass {
    /// Whether `c` belongs to the class.
    pub open spec fn has(self, c: char) -> bool {
        match self {
            CharClass::Space => is_white_space(c),
            CharClass::Quote => c == '\'' || c == '"' || c == '(' || c == ')' || c == ',',
            CharClass::Dot => c == '.',
        }
    }

    /// Whether `c` belongs to the class.
    pub fn holds(self, c: char) -> (r: bool)
        ensures
            r == self.has(c),
    {
        match self {
            CharClass::Space => {
                let u: u32 = c as u32;
                (0x9 <= u && u <= 0xd) || u == 0x20 || u == 0x85 || u == 0xa0 || u == 0x1680 || (
                0x2000 <= u && u <= 0x200a) || u == 0x2028 || u == 0x2029 || u == 0x202f || u
                    == 0x205f || u == 0x3000
            },
            CharClass::Quote => c == '\'' || c == '"' || c == '(' || c == ')' || c == ',',
            CharClass::Dot => c == '.',
        }
    }
}

/// `s` without the longest prefix of characters of the class.
pub open spec fn skip_class(s: Seq<char>, class: CharClass) -> Seq<char>
    decreases s.len(),
{
    if s.len() > 0 && class.has(s[0]) {
        skip_class(s.drop_first(), class)
    } else {
        s
    }
}

/// `s` without the longest suffix of characters of the class.
pub open spec fn drop_class(s: Seq<char>, class: CharClass) -> Seq<char>
    decreases s.len(),
{
    if s.len() > 0 && class.has(s.last()) {
        drop_class(s.drop_last(), class)
    } else {
        s
    }
}

/// `s` without characters of the class at either end.
pub open spec fn strip_class(s: Seq<char>, class: CharClass) -> Seq<char> {
    drop_class(skip_class(s, class), class)
}

/// `s` without white space at either end.
pub open spec fn trimmed(s: Seq<char>) -> Seq<char> {
    strip_class(s, CharClass::Space)
}

/// The characters of a string.
pub fn chars_of(s: &str) -> (r: Vec<char>)
    ensures
        r@ == s@,
{
    let mut out: Vec<char> = Vec::new();
    for c in it: s.chars()
        invariant
            out@ == s@.take(it.index()),
            it.seq() == s@,
    {
        assert(s@.take(it.index() + 1) == s@.take(it.index()).push(c));
        out.push(c);
    }
    assert(s@.take(s@.len() as int) == s@);
    out
}

/// Removes the longest prefix of characters of the class.
pub fn skip_class_of<'a>(s: &'a str, class: CharClass) -> (r: &'a str)
    ensures
        r@ == skip_class(s@, class),
{
    let chars = chars_of(s);
    let n: usize = chars.len();
    let mut i: usize = 0;
    assert(s@.skip(0) == s@);
    while i < n && class.holds(chars[i])
        invariant
            i <= n,
            n == chars@.len(),
            chars@ == s@,
            skip_class(s@.skip(i as int), class) == skip_class(s@, class),
        decreases n - i,
    {
        assert(s@.skip(i as int).drop_first() == s@.skip(i + 1));
        i = i + 1;
    }
    assert(s@.subrange(i as int, n as int) == s@.skip(i as int));
    s.substring_char(i, n)
}

/// Removes the longest suffix of characters of the class.
pub fn drop_class_of<'a>(s: &'a str, class: CharClass) -> (r: &'a str)
    ensures
        r@ == drop_class(s@, class),
{
    let chars = chars_of(s);
    let mut n: usize = chars.len();
    assert(s@.take(n as int) == s@);
    while n > 0 && class.holds(chars[n - 1])
        invariant
            n <= chars@.len(),
            chars@ == s@,
            drop_class(s@.take(n as int), class) == drop_class(s@, class),
        decreases n,
    {
        assert(s@.take(n as int).drop_last() == s@.take(n - 1));
        n = n - 1;
    }
    assert(s@.subrange(0, n as int) == s@.take(n as int));
    s.substring_char(0, n)
}

/// Removes characters of the class from both ends.
pub fn strip_class_of<'a>(s: &'a str, class: CharClass) -> (r: &'a str)
    ensures
        r@ == strip_class(s@, class),
{
    drop_class_of(skip_class_of(s, class), class)
}

/// Removes white space from both ends.
pub fn trim_text<'a>(s: &'a str) -> (r: &'a str)
    ensures
        r@ == trimmed(s@),
{
    strip_class_of(s, CharClass::Space)
}

// ---------------------------------------------------------------------------
// Comparison and search
// ---------------------------------------------------------------------------

/// Whether two strings hold the same characters.
pub fn same_text(a: &str, b: &str) -> (r: bool)
    ensures
        r == (a@ == b@),
{
    a.to_owned() == b.to_owned()
}

/// Whether `pat` stands in `s` at position `i`.
pub open spec fn occurs_at(s: Seq<char>, pat: Seq<char>, i: int) -> bool {
    0 <= i && i + pat.len() <= s.len() && s.subrange(i, i + pat.len()) == pat
}

/// The first position at or after `from` at which `pat` stands in `s`.
pub open spec fn find_from(s: Seq<char>, pat: Seq<char>, from: int) -> Option<int>
    decreases s.len() - from + 1,
{
    if from < 0 || from + pat.len() > s.len() {
        None
    } else if occurs_at(s, pat, from) {
        Some(from)
    } else {
        find_from(s, pat, from + 1)
    }
}

/// The first position at which `pat` stands in `s`.
pub open spec fn find_text(s: Seq<char>, pat: Seq<char>) -> Option<int> {
    find_from(s, pat, 0)
}

/// Whether `pat` stands somewhere in `s`.
pub open spec fn has_text(s: Seq<char>, pat: Seq<char>) -> bool {
    find_text(s, pat) is Some
}

/// `find_from` finds an occurrence, and no earlier one exists.
pub proof fn lemma_find_from(s: Seq<char>, pat: Seq<char>, from: int)
    requires
        0 <= from,
    ensures
        match find_from(s, pat, from) {
            Some(i) => from <= i && occurs_at(s, pat, i) && (forall|j: int|
                from <= j < i ==> !occurs_at(s, pat, j)),
            None => forall|j: int| from <= j ==> !occurs_at(s, pat, j),
        },
    decreases s.len() - from + 1,
{
    if from + pat.len() > s.len() {
    } else if occurs_at(s, pat, from) {
    } else {
        lemma_find_from(s, pat, from + 1);
    }
}

/// A part of a text lacks what the text lacks.
pub proof fn lemma_part_lacks(s: Seq<char>, pat: Seq<char>, from: int, to: int)
    requires
        0 <= from <= to <= s.len(),
        !has_text(s, pat),
    ensures
        !has_text(s.subrange(from, to), pat),
{
    let part = s.subrange(from, to);
    lemma_find_from(s, pat, 0);
    lemma_find_from(part, pat, 0);
    if let Some(i) = find_text(part, pat) {
        assert(part.subrange(i, i + pat.len()) =~= s.subrange(from + i, from + i + pat.len()));
        assert(occurs_at(s, pat, from + i));
    }
}

/// A text without white space at its ends lacks what the text lacks.
pub proof fn lemma_trimmed_lacks(s: Seq<char>, pat: Seq<char>)
    requires
        !has_text(s, pat),
    ensures
        !has_text(trimmed(s), pat),
{
    lemma_skip_lacks(s, CharClass::Space, pat);
    lemma_drop_lacks(skip_class(s, CharClass::Space), CharClass::Space, pat);
}

/// A text keeps what it begins with where white space at its ends is taken away,
/// if that neither begins nor ends with white space.
pub proof fn lemma_trimmed_keeps(s: Seq<char>, n: int)
    requires
        0 < n <= s.len(),
        !CharClass::Space.has(s[0]),
        !CharClass::Space.has(s[n - 1]),
    ensures
        n <= trimmed(s).len(),
        trimmed(s).take(n) == s.take(n),
{
    lemma_drop_keeps(s, CharClass::Space, n);
}

proof fn lemma_drop_keeps(s: Seq<char>, class: CharClass, n: int)
    requires
        0 < n <= s.len(),
        !class.has(s[n - 1]),
    ensures
        n <= drop_class(s, class).len(),
        drop_class(s, class).take(n) == s.take(n),
    decreases s.len(),
{
    if class.has(s.last()) {
        let front = s.drop_last();
        assert(front[n - 1] == s[n - 1]);
        lemma_drop_keeps(front, class, n);
        assert(front.take(n) =~= s.take(n));
    }
}

proof fn lemma_skip_lacks(s: Seq<char>, class: CharClass, pat: Seq<char>)
    requires
        !has_text(s, pat),
    ensures
        !has_text(skip_class(s, class), pat),
    decreases s.len(),
{
    if s.len() > 0 && class.has(s[0]) {
        lemma_part_lacks(s, pat, 1, s.len() as int);
        lemma_skip_lacks(s.drop_first(), class, pat);
    }
}

proof fn lemma_drop_lacks(s: Seq<char>, class: CharClass, pat: Seq<char>)
    requires
        !has_text(s, pat),
    ensures
        !has_text(drop_class(s, class), pat),
    decreases s.len(),
{
    if s.len() > 0 && class.has(s.last()) {
        lemma_part_lacks(s, pat, 0, s.len() - 1);
        lemma_drop_lacks(s.drop_last(), class, pat);
    }
}

/// What is left of a text has no white space at its ends.
pub proof fn lemma_trimmed_ends(s: Seq<char>)
    ensures
        trimmed(s).len() > 0 ==> !CharClass::Space.has(trimmed(s)[0]) && !CharClass::Space.has(
            trimmed(s).last(),
        ),
        trimmed(trimmed(s)) == trimmed(s),
{
    lemma_skip_ends(s, CharClass::Space);
    lemma_drop_ends(skip_class(s, CharClass::Space), CharClass::Space);
}

proof fn lemma_skip_ends(s: Seq<char>, class: CharClass)
    ensures
        skip_class(s, class).len() > 0 ==> !class.has(skip_class(s, class)[0]),
    decreases s.len(),
{
    if s.len() > 0 && class.has(s[0]) {
        lemma_skip_ends(s.drop_first(), class);
    }
}

proof fn lemma_drop_ends(s: Seq<char>, class: CharClass)
    ensures
        drop_class(s, class).len() > 0 ==> drop_class(s, class)[0] == s[0] && !class.has(
            drop_class(s, class).last(),
        ),
    decreases s.len(),
{
    if s.len() > 0 && class.has(s.last()) {
        lemma_drop_ends(s.drop_last(), class);
    }
}

/// A text keeps what stands in it where white space at its ends is taken away, if
/// that neither begins nor ends with white space.
pub proof fn lemma_trimmed_has(s: Seq<char>, pat: Seq<char>)
    requires
        has_text(s, pat),
        pat.len() > 0,
        !CharClass::Space.has(pat[0]),
        !CharClass::Space.has(pat.last()),
    ensures
        has_text(trimmed(s), pat),
{
    lemma_skip_has(s, CharClass::Space, pat);
    lemma_drop_has(skip_class(s, CharClass::Space), CharClass::Space, pat);
}

proof fn lemma_skip_has(s: Seq<char>, class: CharClass, pat: Seq<char>)
    requires
        has_text(s, pat),
        pat.len() > 0,
        !class.has(pat[0]),
    ensures
        has_text(skip_class(s, class), pat),
    decreases s.len(),
{
    if s.len() > 0 && class.has(s[0]) {
        let rest = s.drop_first();
        lemma_find_from(s, pat, 0);
        let i = find_text(s, pat)->0;
        assert(s.subrange(i, i + pat.len())[0] == s[i]);
        assert(rest.subrange(i - 1, i - 1 + pat.len()) =~= s.subrange(i, i + pat.len()));
        lemma_find_from(rest, pat, 0);
        assert(occurs_at(rest, pat, i - 1));
        lemma_skip_has(rest, class, pat);
    }
}

proof fn lemma_drop_has(s: Seq<char>, class: CharClass, pat: Seq<char>)
    requires
        has_text(s, pat),
        pat.len() > 0,
        !class.has(pat.last()),
    ensures
        has_text(drop_class(s, class), pat),
    decreases s.len(),
{
    if s.len() > 0 && class.has(s.last()) {
        let rest = s.drop_last();
        lemma_find_from(s, pat, 0);
        let i = find_text(s, pat)->0;
        assert(s.subrange(i, i + pat.len()).last() == s[i + pat.len() - 1]);
        assert(rest.subrange(i, i + pat.len()) =~= s.subrange(i, i + pat.len()));
        lemma_find_from(rest, pat, 0);
        assert(occurs_at(rest, pat, i));
        lemma_drop_has(rest, class, pat);
    }
}

fn occurs_in(chars: &Vec<char>, pat: &Vec<char>, at: usize) -> (r: bool)
    requires
        at + pat@.len() <= chars@.len(),
    ensures
        r == occurs_at(chars@, pat@, at as int),
{
    let mut k: usize = 0;
    let n: usize = chars.len();
    while k < pat.len()
        invariant
            n == chars@.len(),
            at + pat@.len() <= chars@.len(),
            k <= pat@.len(),
            forall|j: int| 0 <= j < k ==> chars@[at + j] == pat@[j],
        decreases pat@.len() - k,
    {
        if chars[at + k] != pat[k] {
            assert(chars@.subrange(at as int, at + pat@.len())[k as int] != pat@[k as int]);
            return false;
        }
        k = k + 1;
    }
    assert(chars@.subrange(at as int, at + pat@.len()) == pat@);
    true
}

/// Finds `pat` in a vector of characters.
pub fn find_in_chars(chars: &Vec<char>, pat: &str, start: usize) -> (r: Option<usize>)
    requires
        start <= chars@.len(),
    ensures
        match r {
            Some(i) => find_from(chars@, pat@, start as int) == Some(i as int),
            None => find_from(chars@, pat@, start as int) is None,
        },
{
    let pattern = chars_of(pat);
    let n: usize = chars.len();
    if pattern.len() > n {
        return None;
    }
    let last: usize = n - pattern.len();
    let mut i: usize = start;
    while i <= last
        invariant
            pattern@ == pat@,
            start <= i,
            n == chars@.len(),
            pattern@.len() <= n,
            last == n - pattern@.len(),
            i <= last + 1 || i == start,
            find_from(chars@, pat@, start as int) == find_from(chars@, pat@, i as int),
        decreases n + 1 - i,
    {
        if occurs_in(chars, &pattern, i) {
            return Some(i);
        }
        if i == last {
            assert(find_from(chars@, pat@, i + 1) is None);
            return None;
        }
        i = i + 1;
    }
    None
}

/// The first position, in characters, at which `pat` stands in `s`.
pub fn find_in(s: &str, pat: &str) -> (r: Option<usize>)
    ensures
        match r {
            Some(i) => find_text(s@, pat@) == Some(i as int) && i + pat@.len() <= s@.len(),
            None => find_text(s@, pat@) is None,
        },
{
    proof {
        lemma_find_from(s@, pat@, 0);
    }
    let chars = chars_of(s);
    find_in_chars(&chars, pat, 0)
}

/// Whether `pat` stands somewhere in `s`.
pub fn contains_text(s: &str, pat: &str) -> (r: bool)
    ensures
        r == has_text(s@, pat@),
{
    find_in(s, pat).is_some()
}

/// Whether `s` begins with `pat`.
pub open spec fn begins_with(s: Seq<char>, pat: Seq<char>) -> bool {
    occurs_at(s, pat, 0)
}

/// Whether `s` ends with `pat`.
pub open spec fn finishes_with(s: Seq<char>, pat: Seq<char>) -> bool {
    occurs_at(s, pat, s.len() - pat.len())
}

/// Whether `s` begins with `pat`.
pub fn starts_with_text(s: &str, pat: &str) -> (r: bool)
    ensures
        r == begins_with(s@, pat@),
{
    let chars = chars_of(s);
    let pattern = chars_of(pat);
    pattern.len() <= chars.len() && occurs_in(&chars, &pattern, 0)
}

/// Whether `s` ends with `pat`.
pub fn ends_with_text(s: &str, pat: &str) -> (r: bool)
    ensures
        r == finishes_with(s@, pat@),
{
    let chars = chars_of(s);
    let pattern = chars_of(pat);
    pattern.len() <= chars.len() && occurs_in(&chars, &pattern, chars.len() - pattern.len())
}

/// The characters of `s` from position `from` on.
pub fn text_after<'a>(s: &'a str, from: usize) -> (r: &'a str)
    requires
        from <= s@.len(),
    ensures
        r@ == s@.skip(from as int),
{
    let n: usize = s.unicode_len();
    assert(s@.subrange(from as int, n as int) == s@.skip(from as int));
    s.substring_char(from, n)
}

/// Whether a character is an ASCII letter.
pub open spec fn is_letter(c: char) -> bool {
    'a' <= c <= 'z' || 'A' <= c <= 'Z'
}

/// Whether a character is an ASCII letter.
pub fn is_letter_of(c: char) -> (r: bool)
    ensures
        r == is_letter(c),
{
    ('a' <= c && c <= 'z') || ('A' <= c && c <= 'Z')
}

/// An ASCII capital letter made small, any other character unchanged.
pub open spec fn ascii_lower(c: char) -> char {
    if 'A' <= c <= 'Z' {
        (c as u32 + 32) as char
    } else {
        c
    }
}

/// `s` with its ASCII capital letters made small.
pub open spec fn lower(s: Seq<char>) -> Seq<char> {
    Seq::new(s.len(), |i: int| ascii_lower(s[i]))
}

/// Makes an ASCII capital letter small.
pub fn ascii_lower_of(c: char) -> (r: char)
    ensures
        r == ascii_lower(c),
{
    if 'A' <= c && c <= 'Z' {
        let b: u8 = c as u8;
        (b + 32) as char
    } else {
        c
    }
}

/// The characters of `s` with ASCII capital letters made small.
pub fn lower_chars(s: &str) -> (r: Vec<char>)
    ensures
        r@ == lower(s@),
{
    let chars = chars_of(s);
    let mut out: Vec<char> = Vec::new();
    let mut i: usize = 0;
    while i < chars.len()
        invariant
            chars@ == s@,
            i <= chars@.len(),
            out@.len() == i,
            forall|k: int| 0 <= k < i ==> out@[k] == ascii_lower(s@[k]),
        decreases chars@.len() - i,
    {
        out.push(ascii_lower_of(chars[i]));
        i = i + 1;
    }
    assert(out@ == lower(s@));
    out
}

/// Whether two strings are equal up to the case of ASCII letters.
pub fn same_ignoring_case(a: &str, b: &str) -> (r: bool)
    ensures
        r == (lower(a@) == lower(b@)),
{
    let x = lower_chars(a);
    let y = lower_chars(b);
    if x.len() != y.len() {
        return false;
    }
    let mut i: usize = 0;
    while i < x.len()
        invariant
            x@ == lower(a@),
            y@ == lower(b@),
            x@.len() == y@.len(),
            i <= x@.len(),
            forall|k: int| 0 <= k < i ==> x@[k] == y@[k],
        decreases x@.len() - i,
    {
        if x[i] != y[i] {
            return false;
        }
        i = i + 1;
    }
    assert(x@ == y@);
    true
}

// ---------------------------------------------------------------------------
// Pieces of a text
// ---------------------------------------------------------------------------

/// The number of characters before the first white space of `s`.
pub open spec fn word_length(s: Seq<char>) -> int
    decreases s.len(),
{
    if s.len() == 0 || is_white_space(s[0]) {
        0
    } else {
        1 + word_length(s.drop_first())
    }
}

proof fn lemma_word_length(s: Seq<char>)
    ensures
        0 <= word_length(s) <= s.len(),
    decreases s.len(),
{
    if s.len() > 0 {
        lemma_word_length(s.drop_first());
    }
}

/// The first white-space separated word of `s` and what follows it.
pub open spec fn first_word(s: Seq<char>) -> Option<(Seq<char>, Seq<char>)> {
    let t = skip_class(s, CharClass::Space);
    if t.len() == 0 {
        None
    } else {
        Some((t.take(word_length(t)), t.skip(word_length(t))))
    }
}

/// The first white-space separated word of `s` and what follows it.
pub fn first_word_of<'a>(s: &'a str) -> (r: Option<(&'a str, &'a str)>)
    ensures
        match r {
            Some((w, rest)) => first_word(s@) == Some((w@, rest@)),
            None => first_word(s@) is None,
        },
{
    let t = skip_class_of(s, CharClass::Space);
    let chars = chars_of(t);
    let n: usize = chars.len();
    if n == 0 {
        return None;
    }
    let mut k: usize = 0;
    assert(t@.skip(0) == t@);
    while k < n && !CharClass::Space.holds(chars[k])
        invariant
            n == chars@.len(),
            chars@ == t@,
            k <= n,
            word_length(t@) == k + word_length(t@.skip(k as int)),
        decreases n - k,
    {
        assert(t@.skip(k as int).drop_first() == t@.skip(k + 1));
        k = k + 1;
    }
    assert(t@.subrange(0, k as int) == t@.take(k as int));
    assert(t@.subrange(k as int, n as int) == t@.skip(k as int));
    Some((t.substring_char(0, k), t.substring_char(k, n)))
}

/// What stands in `s` before the first `sep`, and what stands after it.
pub open spec fn cut(s: Seq<char>, sep: Seq<char>) -> (Seq<char>, Option<Seq<char>>) {
    match find_text(s, sep) {
        Some(i) => (s.take(i), Some(s.skip(i + sep.len()))),
        None => (s, None),
    }
}

/// What stands before the first `sep` lacks it.
pub proof fn lemma_cut_lacks(s: Seq<char>, sep: Seq<char>)
    requires
        sep.len() > 0,
    ensures
        !has_text(cut(s, sep).0, sep),
{
    lemma_find_from(s, sep, 0);
    if let Some(i) = find_text(s, sep) {
        let head = s.take(i);
        lemma_find_from(head, sep, 0);
        if let Some(j) = find_text(head, sep) {
            assert(head.subrange(j, j + sep.len()) =~= s.subrange(j, j + sep.len()));
            assert(occurs_at(s, sep, j));
        }
    }
}

/// Cuts `s` at the first `sep`.
pub fn cut_of<'a>(s: &'a str, sep: &str) -> (r: (&'a str, Option<&'a str>))
    ensures
        r.0@ == cut(s@, sep@).0,
        match r.1 {
            Some(rest) => cut(s@, sep@).1 == Some(rest@),
            None => cut(s@, sep@).1 is None,
        },
{
    let n: usize = s.unicode_len();
    match find_in(s, sep) {
        Some(i) => {
            let k: usize = sep.unicode_len();
            assert(s@.subrange(0, i as int) == s@.take(i as int));
            assert(s@.subrange(i + k, n as int) == s@.skip(i + k));
            (s.substring_char(0, i), Some(s.substring_char(i + k, n)))
        },
        None => (s, None),
    }
}

// ---------------------------------------------------------------------------
// Decimal numbers
// ---------------------------------------------------------------------------

/// Whether `s` is a non-empty string of ASCII digits.
pub open spec fn all_digits(s: Seq<char>) -> bool {
    s.len() > 0 && forall|i: int| 0 <= i < s.len() ==> '0' <= #[trigger] s[i] <= '9'
}

/// The number that a string of ASCII digits denotes.
pub open spec fn digits_value(s: Seq<char>) -> nat
    decreases s.len(),
{
    if s.len() == 0 {
        0
    } else {
        10 * digits_value(s.drop_last()) + (s.last() as int - '0' as int) as nat
    }
}

/// The number that `s` denotes in a type with the largest value `max`:
/// digits, with an optional leading `+`.
pub open spec fn unsigned_value(s: Seq<char>, max: nat) -> Option<nat> {
    let body = if s.len() > 0 && s[0] == '+' {
        s.drop_first()
    } else {
        s
    };
    if all_digits(body) && digits_value(body) <= max {
        Some(digits_value(body))
    } else {
        None
    }
}

/// The number that `s` denotes as a 32-bit signed integer: digits, with an
/// optional leading sign.
pub open spec fn i32_value(s: Seq<char>) -> Option<int> {
    if s.len() > 0 && s[0] == '-' {
        if all_digits(s.drop_first()) && digits_value(s.drop_first()) <= 0x8000_0000 {
            Some(-digits_value(s.drop_first()))
        } else {
            None
        }
    } else {
        match unsigned_value(s, 0x7fff_ffff) {
            Some(n) => Some(n as int),
            None => None,
        }
    }
}

proof fn lemma_digits_grow(s: Seq<char>, k: int)
    requires
        all_digits(s),
        0 <= k <= s.len(),
    ensures
        digits_value(s.take(k)) <= digits_value(s),
    decreases s.len() - k,
{
    if k < s.len() {
        lemma_digits_grow(s, k + 1);
        assert(s.take(k + 1).drop_last() == s.take(k));
    } else {
        assert(s.take(k) == s);
    }
}

/// Reads the digits of `chars` from position `from` on.
fn read_digits(chars: &Vec<char>, from: usize, max: u32) -> (r: Option<u32>)
    requires
        from <= chars@.len(),
    ensures
        r == (if all_digits(chars@.skip(from as int)) && digits_value(chars@.skip(from as int))
            <= max {
            Some(digits_value(chars@.skip(from as int)) as u32)
        } else {
            None
        }),
{
    let ghost body = chars@.skip(from as int);
    let n: usize = chars.len();
    if from == n {
        return None;
    }
    let mut i: usize = from;
    let mut value: u64 = 0;
    assert(body.take(0) == Seq::<char>::empty());
    while i < n
        invariant
            from <= i <= n,
            n == chars@.len(),
            body == chars@.skip(from as int),
            value == digits_value(body.take(i - from)),
            value <= max,
            forall|j: int| 0 <= j < i - from ==> '0' <= #[trigger] body[j] <= '9',
        decreases n - i,
    {
        let c: char = chars[i];
        if !('0' <= c && c <= '9') {
            assert(body[i - from] == c);
            return None;
        }
        let d: u64 = (c as u32 - '0' as u32) as u64;
        assert(body.take(i + 1 - from).drop_last() == body.take(i - from));
        assert(body.take(i + 1 - from).last() == c);
        value = value * 10 + d;
        if value > max as u64 {
            proof {
                if all_digits(body) {
                    lemma_digits_grow(body, i + 1 - from);
                }
            }
            return None;
        }
        assert(body[i - from] == c);
        i = i + 1;
    }
    assert(body.take(n - from) == body);
    Some(value as u32)
}

/// Reads a 32-bit unsigned integer.
pub fn parse_u32(s: &str) -> (r: Option<u32>)
    ensures
        match r {
            Some(n) => unsigned_value(s@, u32::MAX as nat) == Some(n as nat),
            None => unsigned_value(s@, u32::MAX as nat) is None,
        },
{
    let chars = chars_of(s);
    assert(s@.skip(0) == s@);
    if chars.len() > 0 && chars[0] == '+' {
        assert(s@.skip(1) == s@.drop_first());
        read_digits(&chars, 1, u32::MAX)
    } else {
        read_digits(&chars, 0, u32::MAX)
    }
}

/// Reads a 32-bit signed integer.
pub fn parse_i32(s: &str) -> (r: Option<i32>)
    ensures
        match r {
            Some(n) => i32_value(s@) == Some(n as int),
            None => i32_value(s@) is None,
        },
{
    let chars = chars_of(s);
    assert(s@.skip(0) == s@);
    if chars.len() > 0 && chars[0] == '-' {
        assert(s@.skip(1) == s@.drop_first());
        match read_digits(&chars, 1, 0x8000_0000) {
            Some(n) => Some((0i64 - n as i64) as i32),
            None => None,
        }
    } else if chars.len() > 0 && chars[0] == '+' {
        assert(s@.skip(1) == s@.drop_first());
        match read_digits(&chars, 1, 0x7fff_ffff) {
            Some(n) => Some(n as i32),
            None => None,
        }
    } else {
        match read_digits(&chars, 0, 0x7fff_ffff) {
            Some(n) => Some(n as i32),
            None => None,
        }
    }
}

/// The decimal digits of `n`.
pub open spec fn decimal(n: nat) -> Seq<char>
    decreases n,
{
    if n < 10 {
        seq![('0' as int + n) as char]
    } else {
        decimal(n / 10).push(('0' as int + n % 10) as char)
    }
}

/// `n` in decimal, with a leading `-` where it is negative.
pub open spec fn decimal_int(n: int) -> Seq<char> {
    if n < 0 {
        seq!['-'] + decimal((-n) as nat)
    } else {
        decimal(n as nat)
    }
}

/// The decimal digits of a number are digits, and denote it.
pub proof fn lemma_decimal(n: nat)
    ensures
        all_digits(decimal(n)),
        digits_value(decimal(n)) == n,
    decreases n,
{
    reveal_with_fuel(digits_value, 2);
    if n < 10 {
        assert(decimal(n).drop_last() == Seq::<char>::empty());
    } else {
        lemma_decimal(n / 10);
        assert(decimal(n).drop_last() == decimal(n / 10));
    }
}

/// Two numbers with the same decimal text are equal, and no colon stands in it.
pub proof fn lemma_decimal_int(a: int, b: int)
    ensures
        decimal_int(a) == decimal_int(b) ==> a == b,
        forall|i: int| 0 <= i < decimal_int(a).len() ==> #[trigger] decimal_int(a)[i] != ':',
{
    if a < 0 {
        lemma_decimal((-a) as nat);
        assert(decimal_int(a).drop_first() == decimal((-a) as nat));
        assert forall|i: int| 0 <= i < decimal_int(a).len() implies #[trigger] decimal_int(a)[i]
            != ':' by {
            if i > 0 {
                assert(decimal_int(a)[i] == decimal((-a) as nat)[i - 1]);
            }
        }
    } else {
        lemma_decimal(a as nat);
    }
    if b < 0 {
        lemma_decimal((-b) as nat);
        assert(decimal_int(b).drop_first() == decimal((-b) as nat));
    } else {
        lemma_decimal(b as nat);
    }
    if decimal_int(a) == decimal_int(b) {
        assert(decimal_int(a)[0] == decimal_int(b)[0]);
    }
}

/// A text splits in one way at its last colon.
pub proof fn lemma_split_at_last_colon(a: Seq<char>, d: Seq<char>, b: Seq<char>, e: Seq<char>)
    requires
        a + seq![':'] + d == b + seq![':'] + e,
        forall|i: int| 0 <= i < d.len() ==> #[trigger] d[i] != ':',
        forall|i: int| 0 <= i < e.len() ==> #[trigger] e[i] != ':',
    ensures
        a == b,
        d == e,
{
    let s = a + seq![':'] + d;
    let t = b + seq![':'] + e;
    assert(s.len() == a.len() + 1 + d.len());
    assert(t.len() == b.len() + 1 + e.len());
    assert(s == t);
    if d.len() < e.len() {
        assert(s[a.len() as int] == ':');
        assert(t[a.len() as int] == e[a.len() - b.len() - 1]);
    } else if e.len() < d.len() {
        assert(t[b.len() as int] == ':');
        assert(s[b.len() as int] == d[b.len() - a.len() - 1]);
    }
    assert(a.len() == b.len());
    assert(a == s.take(a.len() as int));
    assert(b == t.take(b.len() as int));
    assert(d == s.skip(a.len() as int + 1));
    assert(e == t.skip(b.len() as int + 1));
}

fn digit_text(d: u64) -> (r: &'static str)
    requires
        d < 10,
    ensures
        r@ == seq![('0' as int + d) as char],
{
    proof {
        reveal_strlit("0");
        reveal_strlit("1");
        reveal_strlit("2");
        reveal_strlit("3");
        reveal_strlit("4");
        reveal_strlit("5");
        reveal_strlit("6");
        reveal_strlit("7");
        reveal_strlit("8");
        reveal_strlit("9");
    }
    match d {
        0 => "0",
        1 => "1",
        2 => "2",
        3 => "3",
        4 => "4",
        5 => "5",
        6 => "6",
        7 => "7",
        8 => "8",
        _ => "9",
    }
}

/// Writes `n` in decimal.
pub fn decimal_of(n: u64) -> (r: String)
    ensures
        r@ == decimal(n as nat),
    decreases n,
{
    if n < 10 {
        digit_text(n).to_owned()
    } else {
        let mut out = decimal_of(n / 10);
        out.append(digit_text(n % 10));
        assert(out@ == decimal(n as nat));
        out
    }
}

/// Writes `n` in decimal, with a leading `-` where it is negative.
pub fn decimal_int_of(n: i64) -> (r: String)
    ensures
        r@ == decimal_int(n as int),
{
    if n < 0 {
        proof {
            reveal_strlit("-");
        }
        let magnitude: u64 = (0i128 - n as i128) as u64;
        let mut out = String::from_str("-");
        out.append(decimal_of(magnitude).as_str());
        assert(out@ == seq!['-'] + decimal((-n) as nat));
        out
    } else {
        decimal_of(n as u64)
    }
}

// ---------------------------------------------------------------------------
// Joining
// ---------------------------------------------------------------------------

/// The concatenation of three strings.
pub fn concat3(a: &str, b: &str, c: &str) -> (r: String)
    ensures
        r@ == a@ + b@ + c@,
{
    let mut out = String::from_str(a);
    out.append(b);
    out.append(c);
    out
}

/// The parts with `sep` between them.
pub open spec fn joined(parts: Seq<Seq<char>>, sep: Seq<char>) -> Seq<char>
    decreases parts.len(),
{
    if parts.len() == 0 {
        seq![]
    } else if parts.len() == 1 {
        parts[0]
    } else {
        joined(parts.drop_last(), sep) + sep + parts.last()
    }
}

/// The view of an optional string.
pub open spec fn opt_view(s: Option<String>) -> Option<Seq<char>> {
    match s {
        Some(v) => Some(v@),
        None => None,
    }
}

/// The views of a list of strings.
pub open spec fn views(v: Seq<String>) -> Seq<Seq<char>> {
    Seq::new(v.len(), |i: int| v[i]@)
}

/// Joins the parts with `sep` between them.
pub fn join_text(parts: &Vec<String>, sep: &str) -> (r: String)
    ensures
        r@ == joined(views(parts@), sep@),
{
    let ghost all = views(parts@);
    let mut out = String::new();
    let mut i: usize = 0;
    assert(all.take(0) == Seq::<Seq<char>>::empty());
    while i < parts.len()
        invariant
            all == views(parts@),
            i <= parts@.len(),
            out@ == joined(all.take(i as int), sep@),
        decreases parts@.len() - i,
    {
        assert(all.take(i + 1).drop_last() == all.take(i as int));
        if i > 0 {
            out.append(sep);
        }
        out.append(parts[i].as_str());
        assert(out@ == joined(all.take(i + 1), sep@));
        i = i + 1;
    }
    assert(all.take(parts@.len() as int) == all);
    out
}

/// Whether one of the parts is `s`.
pub fn has_part(parts: &Vec<String>, s: &str) -> (r: bool)
    ensures
        r == views(parts@).contains(s@),
{
    let mut i: usize = 0;
    while i < parts.len()
        invariant
            i <= parts@.len(),
            forall|k: int| 0 <= k < i ==> views(parts@)[k] != s@,
        decreases parts@.len() - i,
    {
        if same_text(parts[i].as_str(), s) {
            assert(views(parts@)[i as int] == s@);
            return true;
        }
        i = i + 1;
    }
    false
}

// ---------------------------------------------------------------------------
// UTF-8
// ---------------------------------------------------------------------------

/// `std::str::from_utf8`: text comes back exactly for a valid UTF-8 encoding,
/// and is then what the bytes encode.
#[verifier::external_body]
pub(crate) fn utf8_text<'a>(bytes: &'a [u8]) -> (r: Option<&'a str>)
    ensures
        r is Some <==> valid_utf8(bytes@),
        r matches Some(s) ==> s@ == decode_utf8(bytes@),
{
    std::str::from_utf8(bytes).ok()
}

/// The text that `bytes` encode, where they are valid UTF-8.
pub open spec fn utf8_value(bytes: Seq<u8>) -> Option<Seq<char>> {
    if valid_utf8(bytes) {
        Some(decode_utf8(bytes))
    } else {
        None
    }
}

/// The longest prefix of `s` that takes at most `max` bytes in UTF-8.
pub open spec fn utf8_prefix(s: Seq<char>, max: nat) -> Seq<char>
    decreases s.len(),
{
    if s.len() == 0 || encode_utf8(s).len() <= max {
        s
    } else {
        utf8_prefix(s.drop_last(), max)
    }
}

/// The number of bytes that `c` takes in UTF-8.
pub open spec fn utf8_width(c: char) -> nat {
    encode_scalar(c as u32).len()
}

fn utf8_width_of(c: char) -> (r: usize)
    ensures
        r == utf8_width(c),
        1 <= r <= 4,
{
    proof {
        char_is_scalar(c);
    }
    let u: u32 = c as u32;
    if u <= 0x7f {
        1
    } else if u <= 0x7ff {
        2
    } else if u <= 0xffff {
        3
    } else {
        4
    }
}

proof fn lemma_utf8_push(s: Seq<char>, c: char)
    ensures
        encode_utf8(s.push(c)).len() == encode_utf8(s).len() + utf8_width(c),
    decreases s.len(),
{
    reveal_with_fuel(encode_utf8, 2);
    if s.len() == 0 {
        assert(s.push(c).drop_first() == Seq::<char>::empty());
    } else {
        assert(s.push(c).drop_first() == s.drop_first().push(c));
        lemma_utf8_push(s.drop_first(), c);
    }
}

proof fn lemma_utf8_prefix(s: Seq<char>, k: int, max: nat)
    requires
        0 <= k <= s.len(),
        encode_utf8(s.take(k)).len() <= max,
        k < s.len() ==> encode_utf8(s.take(k + 1)).len() > max,
    ensures
        utf8_prefix(s, max) == s.take(k),
    decreases s.len(),
{
    if k == s.len() {
        assert(s.take(k) == s);
    } else {
        lemma_utf8_monotone(s, k + 1);
        assert(s.drop_last().take(k) == s.take(k));
        if k < s.drop_last().len() {
            assert(s.drop_last().take(k + 1) == s.take(k + 1));
        }
        lemma_utf8_prefix(s.drop_last(), k, max);
    }
}

proof fn lemma_utf8_monotone(s: Seq<char>, k: int)
    requires
        0 <= k <= s.len(),
    ensures
        encode_utf8(s.take(k)).len() <= encode_utf8(s).len(),
    decreases s.len(),
{
    if k == s.len() {
        assert(s.take(k) == s);
    } else {
        lemma_utf8_monotone(s.drop_last(), k);
        assert(s.drop_last().take(k) == s.take(k));
        assert(s.drop_last().push(s.last()) == s);
        lemma_utf8_push(s.drop_last(), s.last());
    }
}

/// The longest prefix of `s` that takes at most `max` bytes in UTF-8.
pub fn utf8_prefix_of<'a>(s: &'a str, max: usize) -> (r: &'a str)
    ensures
        r@ == utf8_prefix(s@, max as nat),
{
    let chars = chars_of(s);
    let n: usize = chars.len();
    let mut k: usize = 0;
    let mut used: usize = 0;
    assert(encode_utf8(s@.take(0)).len() == 0);
    while k < n
        invariant
            n == chars@.len(),
            chars@ == s@,
            k <= n,
            used == encode_utf8(s@.take(k as int)).len(),
            used <= max,
        decreases n - k,
    {
        let width: usize = utf8_width_of(chars[k]);
        proof {
            assert(s@.take(k + 1) == s@.take(k as int).push(s@[k as int]));
            lemma_utf8_push(s@.take(k as int), s@[k as int]);
        }
        if width > max - used {
            proof {
                lemma_utf8_prefix(s@, k as int, max as nat);
            }
            assert(s@.subrange(0, k as int) == s@.take(k as int));
            return s.substring_char(0, k);
        }
        used = used + width;
        k = k + 1;
    }
    proof {
        lemma_utf8_prefix(s@, n as int, max as nat);
        assert(s@.take(n as int) == s@);
    }
    s
}

/// A prefix cut to `max` bytes is a prefix, takes at most `max` bytes, is as long
/// as any that does, and is the whole text where that already fits.
pub proof fn law_utf8_prefix(s: Seq<char>, max: nat)
    ensures
        utf8_prefix(s, max).is_prefix_of(s),
        encode_utf8(utf8_prefix(s, max)).len() <= max,
        encode_utf8(s).len() <= max ==> utf8_prefix(s, max) == s,
        utf8_prefix(utf8_prefix(s, max), max) == utf8_prefix(s, max),
        forall|k: int|
            0 <= k <= s.len() && encode_utf8(#[trigger] s.take(k)).len() <= max ==> k
                <= utf8_prefix(s, max).len(),
    decreases s.len(),
{
    if s.len() == 0 {
        assert(encode_utf8(s).len() == 0);
    } else if encode_utf8(s).len() > max {
        let front = s.drop_last();
        law_utf8_prefix(front, max);
        assert forall|k: int| 0 <= k <= s.len() && encode_utf8(
            #[trigger] s.take(k),
        ).len() <= max implies k <= utf8_prefix(s, max).len() by {
            if k < s.len() {
                assert(front.take(k) == s.take(k));
            } else {
                assert(s.take(k) == s);
            }
        }
    }
}

/// Cutting a text that is not empty to four bytes or more leaves something.
pub proof fn lemma_utf8_prefix_keeps_first(s: Seq<char>, max: nat)
    requires
        s.len() > 0,
        max >= 4,
    ensures
        utf8_prefix(s, max).len() > 0,
    decreases s.len(),
{
    if encode_utf8(s).len() > max {
        if s.len() == 1 {
            let none = Seq::<char>::empty();
            assert(none.push(s[0]) == s);
            lemma_utf8_push(none, s[0]);
            assert(encode_utf8(none).len() == 0);
        } else {
            lemma_utf8_prefix_keeps_first(s.drop_last(), max);
        }
    }
}

/// A text that was written as UTF-8 is read back.
pub proof fn law_utf8_round_trip(s: Seq<char>)
    ensures
        utf8_value(encode_utf8(s)) == Some(s),
{
    encode_utf8_valid_utf8(s);
    encode_utf8_decode_utf8(s);
}

/// Whether all characters of a text are white space.
pub open spec fn is_blank(s: Seq<char>) -> bool {
    forall|i: int| 0 <= i < s.len() ==> is_white_space(#[trigger] s[i])
}

/// Whether a text neither is empty nor begins or ends with white space.
pub open spec fn is_bare(s: Seq<char>) -> bool {
    s.len() > 0 && !is_white_space(s[0]) && !is_white_space(s.last())
}

/// White space around a text is taken away, and nothing of the text. A blank text
/// leaves nothing.
pub proof fn law_padding_is_trimmed(before: Seq<char>, s: Seq<char>, after: Seq<char>)
    requires
        is_blank(before),
        is_blank(after),
        is_bare(s) || s.len() == 0,
    ensures
        trimmed(before + s + after) == s,
{
    lemma_skip_padding(before, s + after);
    assert(before + s + after == before + (s + after));
    if s.len() == 0 {
        let none = Seq::<char>::empty();
        assert(s + after == after);
        lemma_skip_padding(after, none);
        assert(after + none == after);
    } else {
        assert((s + after)[0] == s[0]);
        lemma_drop_padding(s, after);
    }
}

proof fn lemma_skip_padding(before: Seq<char>, s: Seq<char>)
    requires
        is_blank(before),
    ensures
        skip_class(before + s, CharClass::Space) == skip_class(s, CharClass::Space),
    decreases before.len(),
{
    if before.len() > 0 {
        let rest = before.drop_first();
        assert forall|i: int| 0 <= i < rest.len() implies is_white_space(#[trigger] rest[i]) by {
            assert(rest[i] == before[i + 1]);
        }
        lemma_skip_padding(rest, s);
        assert((before + s)[0] == before[0]);
        assert((before + s).drop_first() == rest + s);
    } else {
        assert(before + s == s);
    }
}

proof fn lemma_drop_padding(s: Seq<char>, after: Seq<char>)
    requires
        is_bare(s),
        is_blank(after),
    ensures
        drop_class(s + after, CharClass::Space) == s,
    decreases after.len(),
{
    if after.len() > 0 {
        let front = after.drop_last();
        assert forall|i: int| 0 <= i < front.len() implies is_white_space(
            #[trigger] front[i],
        ) by {
            assert(front[i] == after[i]);
        }
        lemma_drop_padding(s, front);
        assert((s + after).last() == after[after.len() - 1]);
        assert((s + after).drop_last() == s + front);
    } else {
        assert(s + after == s);
    }
}

/// A bare text is left as it is.
pub proof fn lemma_bare_stays(s: Seq<char>)
    requires
        is_bare(s),
    ensures
        trimmed(s) == s,
{
    let none = Seq::<char>::empty();
    assert(none + s + none == s);
    law_padding_is_trimmed(none, s, none);
}

/// A text is cut at the first separator: what stands before it lacks it.
pub proof fn law_cut_at_a_character(a: Seq<char>, c: char, b: Seq<char>)
    requires
        !a.contains(c),
    ensures
        cut(a + seq![c] + b, seq![c]) == (a, Some(b)),
        cut(a, seq![c]) == (a, None::<Seq<char>>),
{
    let s = a + seq![c] + b;
    let sep = seq![c];
    let n = a.len() as int;
    lemma_find_from(s, sep, 0);
    assert(s.subrange(n, n + 1) =~= sep);
    assert(occurs_at(s, sep, n));
    assert forall|j: int| 0 <= j < n implies !occurs_at(s, sep, j) by {
        if occurs_at(s, sep, j) {
            assert(s.subrange(j, j + 1)[0] == a[j]);
            assert(a.contains(c));
        }
    }
    assert(find_text(s, sep) == Some(n));
    assert(s.take(n) =~= a);
    assert(s.skip(n + 1) =~= b);
    lemma_find_from(a, sep, 0);
    if let Some(j) = find_text(a, sep) {
        assert(a.subrange(j, j + 1)[0] == a[j]);
        assert(a.contains(c));
    }
}

/// Whether no character of a text is white space.
pub open spec fn is_word(s: Seq<char>) -> bool {
    s.len() > 0 && forall|i: int| 0 <= i < s.len() ==> !is_white_space(#[trigger] s[i])
}

proof fn lemma_word_ends(a: Seq<char>, b: Seq<char>)
    requires
        forall|i: int| 0 <= i < a.len() ==> !is_white_space(#[trigger] a[i]),
        b.len() > 0 ==> is_white_space(b[0]),
    ensures
        word_length(a + b) == a.len(),
    decreases a.len(),
{
    if a.len() > 0 {
        let rest = a.drop_first();
        assert forall|i: int| 0 <= i < rest.len() implies !is_white_space(#[trigger] rest[i]) by {
            assert(rest[i] == a[i + 1]);
        }
        lemma_word_ends(rest, b);
        assert((a + b)[0] == a[0]);
        assert((a + b).drop_first() == rest + b);
    } else {
        assert(a + b == b);
    }
}

/// The first word of a text is what stands before the first white space.
pub proof fn law_first_word(before: Seq<char>, word: Seq<char>, after: Seq<char>)
    requires
        is_blank(before),
        is_word(word),
        after.len() > 0 ==> is_white_space(after[0]),
    ensures
        first_word(before + word + after) == Some((word, after)),
{
    lemma_skip_padding(before, word + after);
    assert(before + word + after == before + (word + after));
    let t = word + after;
    assert(t[0] == word[0]);
    assert(skip_class(t, CharClass::Space) == t);
    lemma_word_ends(word, after);
    assert(t.take(word.len() as int) =~= word);
    assert(t.skip(word.len() as int) =~= after);
}

/// A digit is neither white space nor any of the separators of a time.
proof fn lemma_digit(c: char)
    requires
        '0' <= c <= '9',
    ensures
        !is_white_space(c),
        c != '/' && c != ':' && c != '.' && c != '+' && c != '-' && c != ']' && c != '[',
{
}

/// Digits are one word, and hold none of the separators of a time.
pub proof fn lemma_digits(s: Seq<char>)
    requires
        all_digits(s),
    ensures
        is_word(s),
        !s.contains('/') && !s.contains(':') && !s.contains('.') && !s.contains(']'),
        s[0] != '+' && s[0] != '-',
{
    assert forall|i: int| 0 <= i < s.len() implies !is_white_space(#[trigger] s[i]) && s[i] != '/'
        && s[i] != ':' && s[i] != '.' && s[i] != ']' && s[i] != '+' && s[i] != '-' by {
        lemma_digit(s[i]);
    }
}

/// Whether all characters of a text belong to a class.
pub open spec fn is_all(s: Seq<char>, class: CharClass) -> bool {
    forall|i: int| 0 <= i < s.len() ==> class.has(#[trigger] s[i])
}

/// Characters of a class around a text are taken away, and nothing of the text.
pub proof fn law_class_is_stripped(
    before: Seq<char>,
    s: Seq<char>,
    after: Seq<char>,
    class: CharClass,
)
    requires
        is_all(before, class),
        is_all(after, class),
        s.len() > 0,
        !class.has(s[0]),
        !class.has(s.last()),
    ensures
        strip_class(before + s + after, class) == s,
        drop_class(s + after, class) == s,
{
    assert(before + s + after == before + (s + after));
    assert((s + after)[0] == s[0]);
    lemma_skip_all(before, s + after, class);
    lemma_drop_all(s, after, class);
}

/// Characters of a class behind a text are taken away.
pub proof fn law_end_is_dropped(s: Seq<char>, after: Seq<char>, class: CharClass)
    requires
        s.len() > 0,
        !class.has(s.last()),
        is_all(after, class),
    ensures
        drop_class(s + after, class) == s,
{
    lemma_drop_all(s, after, class);
}

proof fn lemma_skip_all(before: Seq<char>, s: Seq<char>, class: CharClass)
    requires
        is_all(before, class),
    ensures
        skip_class(before + s, class) == skip_class(s, class),
    decreases before.len(),
{
    if before.len() > 0 {
        let rest = before.drop_first();
        assert forall|i: int| 0 <= i < rest.len() implies class.has(#[trigger] rest[i]) by {
            assert(rest[i] == before[i + 1]);
        }
        lemma_skip_all(rest, s, class);
        assert((before + s)[0] == before[0]);
        assert((before + s).drop_first() == rest + s);
    } else {
        assert(before + s == s);
    }
}

proof fn lemma_drop_all(s: Seq<char>, after: Seq<char>, class: CharClass)
    requires
        s.len() > 0,
        !class.has(s.last()),
        is_all(after, class),
    ensures
        drop_class(s + after, class) == s,
    decreases after.len(),
{
    if after.len() > 0 {
        let front = after.drop_last();
        assert forall|i: int| 0 <= i < front.len() implies class.has(#[trigger] front[i]) by {
            assert(front[i] == after[i]);
        }
        lemma_drop_all(s, front, class);
        assert((s + after).last() == after[after.len() - 1]);
        assert((s + after).drop_last() == s + front);
    } else {
        assert(s + after == s);
    }
}

/// Spaces, tabs and the ends of lines are white space; what is printed is not.
pub proof fn law_white_space(c: char)
    ensures
        is_white_space(' ') && is_white_space('\t') && is_white_space('\n') && is_white_space(
            '\r',
        ),
        0x20 < c as u32 <= 0x7e ==> !is_white_space(c),
        0x3000 < c as u32 ==> !is_white_space(c),
        is_white_space('\u{3000}') && is_white_space('\u{a0}') && is_white_space('\u{2028}'),
{
}

/// A text that stands in another is found there, and the other is cut at the first
/// place where it stands.
pub proof fn law_cut_at_a_text(a: Seq<char>, sep: Seq<char>, b: Seq<char>)
    requires
        sep.len() > 0,
        !has_text(a + sep.drop_last(), sep),
    ensures
        has_text(a + sep + b, sep),
        cut(a + sep + b, sep) == (a, Some(b)),
{
    let s = a + sep + b;
    let head = a + sep.drop_last();
    let n = a.len() as int;
    lemma_find_from(s, sep, 0);
    lemma_find_from(head, sep, 0);
    assert(s.subrange(n, n + sep.len()) =~= sep);
    assert(occurs_at(s, sep, n));
    assert forall|j: int| 0 <= j < n implies !occurs_at(s, sep, j) by {
        if occurs_at(s, sep, j) {
            assert(head.subrange(j, j + sep.len()) =~= s.subrange(j, j + sep.len()));
            assert(occurs_at(head, sep, j));
        }
    }
    assert(find_text(s, sep) == Some(n));
    assert(s.take(n) =~= a);
    assert(s.skip(n + sep.len()) =~= b);
}

/// A text that holds another anywhere has it.
pub proof fn law_text_is_found(a: Seq<char>, pat: Seq<char>, b: Seq<char>)
    ensures
        has_text(a + pat + b, pat),
        begins_with(pat + b, pat),
        finishes_with(a + pat, pat),
{
    let s = a + pat + b;
    lemma_find_from(s, pat, 0);
    let n = a.len() as int;
    assert(s.subrange(n, n + pat.len()) =~= pat);
    assert(occurs_at(s, pat, n));
    assert((pat + b).subrange(0, pat.len() as int) =~= pat);
    assert((a + pat).subrange(n, n + pat.len()) =~= pat);
}

/// Capitals from A to Z become small letters, and nothing else changes.
pub proof fn law_lower(s: Seq<char>, i: int)
    requires
        0 <= i < s.len(),
    ensures
        lower(s).len() == s.len(),
        'A' <= s[i] <= 'Z' ==> lower(s)[i] as int == s[i] as int + 32,
        !('A' <= s[i] <= 'Z') ==> lower(s)[i] == s[i],
{
}

/// A number that is written in decimal is read back, with a sign before it or
/// without, where it fits.
pub proof fn law_numbers_are_read(n: nat, max: nat)
    ensures
        n <= max ==> unsigned_value(decimal(n), max) == Some(n),
        n > max ==> unsigned_value(decimal(n), max) is None,
        n <= max ==> unsigned_value(seq!['+'] + decimal(n), max) == Some(n),
        n <= 0x7fff_ffff ==> i32_value(decimal(n)) == Some(n as int),
        n <= 0x8000_0000 ==> i32_value(seq!['-'] + decimal(n)) == Some(-n),
        n > 0x8000_0000 ==> i32_value(seq!['-'] + decimal(n)) is None,
{
    lemma_decimal(n);
    lemma_digits(decimal(n));
    assert((seq!['+'] + decimal(n)).drop_first() =~= decimal(n));
    assert((seq!['-'] + decimal(n)).drop_first() =~= decimal(n));
}

} // verus!
