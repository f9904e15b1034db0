//! Timestamps.

use crate::json;
use crate::json::Json;
use crate::text;
use vstd::prelude::*;
use vstd::string::*;

verus! {

// ---------------------------------------------------------------------------
// Calendar
// ---------------------------------------------------------------------------

/// A date and a time of day.
#[derive(Debug, Clone, Copy, PartialEq, Eq, Structural)]
pub struct CivilTime {
    pub year: i32,
    pub month: u32,
    pub day: u32,
    pub hour: u32,
    pub minute: u32,
    pub second: u32,
    pub milli: u32,
}

/// Whether the year has a 29th of February.
pub open spec fn is_leap_year(year: int) -> bool {
    year % 4 == 0 && (year % 100 != 0 || year % 400 == 0)
}

/// The number of days of a month.
pub open spec fn days_in_month(year: int, month: int) -> int {
    if month == 2 {
        if is_leap_year(year) {
            29
        } else {
            28
        }
    } else if month == 4 || month == 6 || month == 9 || month == 11 {
        30
    } else {
        31
    }
}

/// The number of days of a year before a month.
pub open spec fn days_before_month(year: int, month: int) -> int
    decreases month,
{
    if month <= 1 {
        0
    } else {
        days_before_month(year, month - 1) + days_in_month(year, month - 1)
    }
}

/// The number of days from the first day of 1970 to a day.
pub open spec fn epoch_day(year: int, month: int, day: int) -> int {
    let y = year - 1;
    365 * y + y / 4 - y / 100 + y / 400 + days_before_month(year, month) + day - 719163
}

/// Whether there is such a time. A second may run over a thousand milliseconds
/// where it is the last of its minute.
pub open spec fn is_civil(t: CivilTime) -> bool {
    &&& -262143 <= t.year <= 262142
    &&& 1 <= t.month <= 12
    &&& 1 <= t.day <= days_in_month(t.year as int, t.month as int)
    &&& t.hour < 24
    &&& t.minute < 60
    &&& t.second < 60
    &&& t.milli < 2000
    &&& t.milli < 1000 || t.second == 59
}

/// The Unix seconds of a time in UTC, where there is such a time.
pub open spec fn utc_seconds(t: CivilTime) -> Option<int> {
    if is_civil(t) {
        Some(
            epoch_day(t.year as int, t.month as int, t.day as int) * 86400 + t.hour * 3600
                + t.minute * 60 + t.second,
        )
    } else {
        None
    }
}

/// `chrono::NaiveDate::from_ymd_opt`, `NaiveDate::and_hms_milli_opt` and
/// `DateTime::timestamp`: the Unix seconds of a time in UTC by the proleptic
/// Gregorian calendar, where there is such a time.
#[verifier::external_body]
fn utc_timestamp(t: CivilTime) -> (r: Option<i64>)
    ensures
        match r {
            Some(s) => utc_seconds(t) == Some(s as int),
            None => utc_seconds(t) is None,
        },
{
    let date = chrono::NaiveDate::from_ymd_opt(t.year, t.month, t.day)?;
    let time = date.and_hms_milli_opt(t.hour, t.minute, t.second, t.milli)?;
    Some(time.and_utc().timestamp())
}

/// `chrono::Local.from_local_datetime`: the Unix seconds of a time in the time
/// zone of the machine, where the zone has exactly one such time. An offset from
/// UTC is less than a day; which one it is depends on the machine and stays
/// unsaid.
#[verifier::external_body]
fn local_timestamp(t: CivilTime) -> (r: Option<i64>)
    ensures
        r matches Some(s) ==> (utc_seconds(t) matches Some(u) && -86400 < s - u < 86400),
{
    let date = chrono::NaiveDate::from_ymd_opt(t.year, t.month, t.day)?;
    let time = date.and_hms_milli_opt(t.hour, t.minute, t.second, t.milli)?;
    let local = chrono::TimeZone::from_local_datetime(&chrono::Local, &time).single()?;
    Some(local.timestamp())
}

// ---------------------------------------------------------------------------
// Times in log lines
// ---------------------------------------------------------------------------

/// The three numbers before, between and after two separators, as texts.
pub open spec fn three_pieces(s: Seq<char>, sep: Seq<char>) -> Option<
    (Seq<char>, Seq<char>, Seq<char>),
> {
    match text::cut(s, sep).1 {
        Some(rest) => match text::cut(rest, sep).1 {
            Some(last) => Some((text::cut(s, sep).0, text::cut(rest, sep).0, text::cut(last, sep).0)),
            None => None,
        },
        None => None,
    }
}

/// The number that `s` denotes as a `u32`.
pub open spec fn u32_value(s: Seq<char>) -> Option<nat> {
    text::unsigned_value(s, u32::MAX as nat)
}

/// The seconds and milliseconds that `s` denotes; without a full stop there are
/// no milliseconds.
pub open spec fn seconds_and_millis(s: Seq<char>) -> Option<(nat, nat)> {
    match text::cut(s, "."@) {
        (whole, Some(fraction)) => match (u32_value(whole), u32_value(fraction)) {
            (Some(sec), Some(milli)) => Some((sec, milli)),
            _ => None,
        },
        (whole, None) => match u32_value(whole) {
            Some(sec) => Some((sec, 0)),
            None => None,
        },
    }
}

/// The time that a date `YYYY/M/D` and a time `HH:MM:SS.mmm` denote.
pub open spec fn stamp_time(date: Seq<char>, time: Seq<char>) -> Option<CivilTime> {
    match (three_pieces(date, "/"@), three_pieces(time, ":"@)) {
        (Some((y, m, d)), Some((h, mi, s))) => match (
            text::i32_value(y),
            u32_value(m),
            u32_value(d),
            u32_value(h),
            u32_value(mi),
            seconds_and_millis(s),
        ) {
            (
                Some(year),
                Some(month),
                Some(day),
                Some(hour),
                Some(minute),
                Some((second, milli)),
            ) => Some(
                CivilTime {
                    year: year as i32,
                    month: month as u32,
                    day: day as u32,
                    hour: hour as u32,
                    minute: minute as u32,
                    second: second as u32,
                    milli: milli as u32,
                },
            ),
            _ => None,
        },
        _ => None,
    }
}

/// The text between the bracket that a line begins with and the next closing
/// bracket.
pub open spec fn bracketed(line: Seq<char>) -> Option<Seq<char>> {
    if text::begins_with(line, "["@) {
        match text::cut(line, "]"@) {
            (head, Some(_)) => Some(head.skip(1)),
            (_, None) => None,
        }
    } else {
        None
    }
}

/// The time at the beginning of a log line: `[YYYY/M/D HH:MM:SS.mmm]`.
pub open spec fn line_time(line: Seq<char>) -> Option<CivilTime> {
    match bracketed(line) {
        Some(stamp) => match text::first_word(stamp) {
            Some((date, rest)) => match text::first_word(rest) {
                Some((time, _)) => stamp_time(date, time),
                None => None,
            },
            None => None,
        },
        None => None,
    }
}

fn three_pieces_of<'a>(s: &'a str, sep: &str) -> (r: Option<(&'a str, &'a str, &'a str)>)
    ensures
        match r {
            Some((a, b, c)) => three_pieces(s@, sep@) == Some((a@, b@, c@)),
            None => three_pieces(s@, sep@) is None,
        },
{
    let (a, rest) = text::cut_of(s, sep);
    match rest {
        Some(rest) => {
            let (b, last) = text::cut_of(rest, sep);
            match last {
                Some(last) => Some((a, b, text::cut_of(last, sep).0)),
                None => None,
            }
        },
        None => None,
    }
}

fn seconds_and_millis_of(s: &str) -> (r: Option<(u32, u32)>)
    ensures
        match r {
            Some((sec, milli)) => seconds_and_millis(s@) == Some((sec as nat, milli as nat)),
            None => seconds_and_millis(s@) is None,
        },
{
    let (whole, fraction) = text::cut_of(s, ".");
    match fraction {
        Some(fraction) => match (text::parse_u32(whole), text::parse_u32(fraction)) {
            (Some(sec), Some(milli)) => Some((sec, milli)),
            _ => None,
        },
        None => match text::parse_u32(whole) {
            Some(sec) => Some((sec, 0)),
            None => None,
        },
    }
}

fn stamp_time_of(date: &str, time: &str) -> (r: Option<CivilTime>)
    ensures
        r == stamp_time(date@, time@),
{
    match (three_pieces_of(date, "/"), three_pieces_of(time, ":")) {
        (Some((y, m, d)), Some((h, mi, s))) => {
            match (
                text::parse_i32(y),
                text::parse_u32(m),
                text::parse_u32(d),
                text::parse_u32(h),
                text::parse_u32(mi),
                seconds_and_millis_of(s),
            ) {
                (
                    Some(year),
                    Some(month),
                    Some(day),
                    Some(hour),
                    Some(minute),
                    Some((second, milli)),
                ) => Some(CivilTime { year, month, day, hour, minute, second, milli }),
                _ => None,
            }
        },
        _ => None,
    }
}

/// Reads the time at the beginning of a log line.
pub fn read_line_time(line: &str) -> (r: Option<CivilTime>)
    ensures
        r == line_time(line@),
{
    if !text::starts_with_text(line, "[") {
        return None;
    }
    let (head, rest) = text::cut_of(line, "]");
    if rest.is_none() {
        return None;
    }
    proof {
        reveal_strlit("[");
        reveal_strlit("]");
        text::lemma_find_from(line@, "]"@, 0);
        let i = text::find_text(line@, "]"@)->0;
        assert(line@.subrange(0, 1)[0] == '[');
        assert(line@.subrange(i, i + 1)[0] == ']');
        assert(i > 0);
    }
    let stamp = text::text_after(head, 1);
    match text::first_word_of(stamp) {
        Some((date, rest)) => match text::first_word_of(rest) {
            Some((time, _)) => stamp_time_of(date, time),
            None => None,
        },
        None => None,
    }
}

/// The Unix seconds of a log time: those in the time zone of the machine, or
/// those in UTC where the zone has no such time, or two.
pub fn choose_seconds(utc: i64, local: Option<i64>) -> (r: i64)
    ensures
        r == (match local {
            Some(t) => t,
            None => utc,
        }),
{
    match local {
        Some(t) => t,
        None => utc,
    }
}

/// Whether the time zone of the machine can give `local` for a time: it is what
/// `local_timestamp` gives for exactly that time.
pub closed spec fn is_local_reading(t: CivilTime, local: Option<i64>) -> bool {
    call_ensures(local_timestamp, (t,), local)
}

/// A reading in a time zone is less than a day away from the same time in UTC.
pub proof fn lemma_local_reading(t: CivilTime, local: Option<i64>)
    requires
        is_local_reading(t, local),
    ensures
        local matches Some(s) ==> (utc_seconds(t) matches Some(u) && -86400 < s - u < 86400),
{
}

fn read_time<F: Fn(CivilTime) -> Option<i64>>(zone: F, t: CivilTime) -> (r: Option<i64>)
    requires
        call_requires(zone, (t,)),
    ensures
        call_ensures(zone, (t,), r),
{
    zone(t)
}

/// Reads a time in the time zone of the machine.
fn local_reading(t: CivilTime) -> (r: Option<i64>)
    ensures
        is_local_reading(t, r),
{
    read_time(local_timestamp, t)
}

/// Whether `s` can be the Unix seconds of a time: those of the time in the time
/// zone of the machine, or in UTC where the zone has no such time, or two.
pub open spec fn may_be_seconds(s: i64, t: CivilTime) -> bool {
    exists|local: Option<i64>| #[trigger]
        is_local_reading(t, local) && Some(s as int) == match local {
            Some(v) => Some(v as int),
            None => utc_seconds(t),
        }
}

/// Whether `r` can be the Unix seconds of a log line: there are some exactly
/// where the line begins with the time of a day that exists, and they are those
/// of that time.
pub open spec fn may_be_line_seconds(r: Option<i64>, line: Seq<char>) -> bool {
    match line_time(line) {
        Some(t) => match utc_seconds(t) {
            Some(u) => r matches Some(s) && may_be_seconds(s, t) && -86400 < s - u < 86400,
            None => r is None,
        },
        None => r is None,
    }
}

/// Reads the time at the beginning of a log line, in the time zone of the
/// machine, as Unix seconds.
pub fn parse_log_timestamp(line: &str) -> (r: Option<i64>)
    ensures
        may_be_line_seconds(r, line@),
{
    match read_line_time(line) {
        Some(t) => match utc_timestamp(t) {
            Some(utc) => {
                let local = local_reading(t);
                proof {
                    lemma_local_reading(t, local);
                }
                Some(choose_seconds(utc, local))
            },
            None => None,
        },
        None => None,
    }
}

// ---------------------------------------------------------------------------
// Times in documents
// ---------------------------------------------------------------------------

/// The Unix seconds of an RFC 3339 text, as `chrono` reads it.
pub uninterp spec fn rfc3339_seconds(text: Seq<char>) -> Option<i64>;

/// The Unix seconds of a text in a format, as `chrono` reads it, taken as UTC.
pub uninterp spec fn formatted_seconds(text: Seq<char>, format: Seq<char>) -> Option<i64>;

/// `chrono::DateTime::parse_from_rfc3339`, then `DateTime::timestamp`: a function
/// of the text. What that function is stays unsaid.
#[verifier::external_body]
fn parse_rfc3339(s: &str) -> (r: Option<i64>)
    ensures
        r == rfc3339_seconds(s@),
{
    chrono::DateTime::parse_from_rfc3339(s).ok().map(|t| t.timestamp())
}

/// `chrono::NaiveDateTime::parse_from_str`, then `DateTime::timestamp` in UTC: a
/// function of the text and the format. What that function is stays unsaid.
#[verifier::external_body]
fn parse_formatted(s: &str, format: &str) -> (r: Option<i64>)
    ensures
        r == formatted_seconds(s@, format@),
{
    chrono::NaiveDateTime::parse_from_str(s, format).ok().map(|t| t.and_utc().timestamp())
}

/// The format of a UTC time with a fraction of a second.
pub open spec fn fraction_format() -> Seq<char> {
    "%Y-%m-%dT%H:%M:%S%.fZ"@
}

/// The Unix seconds of the start of a span: an RFC 3339 time, or a UTC time
/// with a fraction.
pub open spec fn started_at(value: Seq<char>) -> Option<i64> {
    let t = text::trimmed(value);
    if t.len() == 0 {
        None
    } else {
        json::either(rfc3339_seconds(t), formatted_seconds(t, fraction_format()))
    }
}

/// Reads the start of a span as Unix seconds.
pub fn parse_started_at_utc(value: &str) -> (r: Option<i64>)
    ensures
        r == started_at(value@),
{
    let t = text::trim_text(value);
    if t.is_empty() {
        return None;
    }
    match parse_rfc3339(t) {
        Some(s) => Some(s),
        None => parse_formatted(t, "%Y-%m-%dT%H:%M:%S%.fZ"),
    }
}

/// `n` milliseconds or seconds as seconds: what exceeds a trillion is taken for
/// milliseconds.
pub open spec fn as_seconds(n: i64) -> i64 {
    if n > 1_000_000_000_000 {
        (n / 1000) as i64
    } else {
        n
    }
}

/// `n` milliseconds or seconds as seconds.
pub fn seconds_of(n: i64) -> (r: i64)
    ensures
        r == as_seconds(n),
{
    if n > 1_000_000_000_000 {
        n / 1000
    } else {
        n
    }
}

/// The Unix seconds of a timestamp in a document: an integer of seconds or
/// milliseconds, or an RFC 3339 text.
pub open spec fn document_seconds(value: Option<json::JsonModel>) -> Option<i64> {
    match value {
        Some(v) => match v.as_i64() {
            Some(n) => Some(as_seconds(n)),
            None => match v.text() {
                Some(s) => rfc3339_seconds(s),
                None => None,
            },
        },
        None => None,
    }
}

/// Reads a timestamp in a document as Unix seconds.
pub fn parse_timestamp(value: Option<&Json>) -> (r: Option<i64>)
    ensures
        r == document_seconds(json::opt_model(value)),
{
    match value {
        Some(v) => match v.as_i64() {
            Some(n) => Some(seconds_of(n)),
            None => match v.as_str() {
                Some(s) => parse_rfc3339(s),
                None => None,
            },
        },
        None => None,
    }
}

// ---------------------------------------------------------------------------
// Laws
// ---------------------------------------------------------------------------

/// A time as a log line writes it, each part in digits.
pub ghost struct WrittenTime {
    pub year: Seq<char>,
    pub month: Seq<char>,
    pub day: Seq<char>,
    pub hour: Seq<char>,
    pub minute: Seq<char>,
    pub second: Seq<char>,
    pub milli: Seq<char>,
}

impl WrittenTime {
    /// Whether all parts are digits, of numbers that fit.
    pub open spec fn is_written(self) -> bool {
        &&& text::all_digits(self.year) && text::digits_value(self.year) <= i32::MAX
        &&& text::all_digits(self.month) && text::digits_value(self.month) <= u32::MAX
        &&& text::all_digits(self.day) && text::digits_value(self.day) <= u32::MAX
        &&& text::all_digits(self.hour) && text::digits_value(self.hour) <= u32::MAX
        &&& text::all_digits(self.minute) && text::digits_value(self.minute) <= u32::MAX
        &&& text::all_digits(self.second) && text::digits_value(self.second) <= u32::MAX
        &&& text::all_digits(self.milli) && text::digits_value(self.milli) <= u32::MAX
    }

    /// The date.
    pub open spec fn date(self) -> Seq<char> {
        self.year + seq!['/'] + (self.month + seq!['/'] + self.day)
    }

    /// The time of day.
    pub open spec fn time(self) -> Seq<char> {
        self.hour + seq![':'] + (self.minute + seq![':'] + (self.second + seq!['.'] + self.milli))
    }

    /// A line that begins with the time in brackets.
    pub open spec fn line(self, rest: Seq<char>) -> Seq<char> {
        seq!['['] + self.date() + seq![' '] + self.time() + seq![']'] + rest
    }
}

proof fn lemma_three_pieces(a: Seq<char>, b: Seq<char>, c: Seq<char>, sep: char)
    requires
        !a.contains(sep),
        !b.contains(sep),
        !c.contains(sep),
    ensures
        three_pieces(a + seq![sep] + (b + seq![sep] + c), seq![sep]) == Some((a, b, c)),
{
    text::law_cut_at_a_character(a, sep, b + seq![sep] + c);
    text::law_cut_at_a_character(b, sep, c);
    text::law_cut_at_a_character(c, sep, c);
}

proof fn lemma_stamp_time(w: WrittenTime)
    requires
        w.is_written(),
    ensures
        stamp_time(w.date(), w.time()) matches Some(t) && {
            &&& t.year == text::digits_value(w.year)
            &&& t.month == text::digits_value(w.month)
            &&& t.day == text::digits_value(w.day)
            &&& t.hour == text::digits_value(w.hour)
            &&& t.minute == text::digits_value(w.minute)
            &&& t.second == text::digits_value(w.second)
            &&& t.milli == text::digits_value(w.milli)
        },
{
    text::lemma_digits(w.year);
    text::lemma_digits(w.month);
    text::lemma_digits(w.day);
    text::lemma_digits(w.hour);
    text::lemma_digits(w.minute);
    text::lemma_digits(w.second);
    text::lemma_digits(w.milli);
    reveal_strlit("/");
    reveal_strlit(":");
    reveal_strlit(".");
    assert("/"@ =~= seq!['/']);
    assert(":"@ =~= seq![':']);
    assert("."@ =~= seq!['.']);
    lemma_three_pieces(w.year, w.month, w.day, '/');
    let s = w.second + seq!['.'] + w.milli;
    assert(!s.contains(':')) by {
        if s.contains(':') {
            let i = choose|i: int| 0 <= i < s.len() && s[i] == ':';
            if i < w.second.len() {
                assert(w.second[i] == ':');
            } else if i > w.second.len() {
                assert(w.milli[i - w.second.len() - 1] == ':');
            }
        }
    }
    lemma_three_pieces(w.hour, w.minute, s, ':');
    text::law_cut_at_a_character(w.second, '.', w.milli);
}

proof fn lemma_date_and_time(w: WrittenTime)
    requires
        w.is_written(),
    ensures
        text::is_word(w.date()),
        text::is_word(w.time()),
        !w.date().contains(']'),
        !w.time().contains(']'),
{
    text::lemma_digits(w.year);
    text::lemma_digits(w.month);
    text::lemma_digits(w.day);
    text::lemma_digits(w.hour);
    text::lemma_digits(w.minute);
    text::lemma_digits(w.second);
    text::lemma_digits(w.milli);
    lemma_word_pieces(w.month, '/', w.day);
    lemma_word_pieces(w.year, '/', w.month + seq!['/'] + w.day);
    lemma_word_pieces(w.second, '.', w.milli);
    lemma_word_pieces(w.minute, ':', w.second + seq!['.'] + w.milli);
    lemma_word_pieces(w.hour, ':', w.minute + seq![':'] + (w.second + seq!['.'] + w.milli));
}

proof fn lemma_word_pieces(a: Seq<char>, c: char, b: Seq<char>)
    requires
        text::is_word(a),
        text::is_word(b),
        !a.contains(']'),
        !b.contains(']'),
        c == '/' || c == ':' || c == '.',
    ensures
        text::is_word(a + seq![c] + b),
        !(a + seq![c] + b).contains(']'),
{
    let s = a + seq![c] + b;
    assert forall|i: int| 0 <= i < s.len() implies !text::is_white_space(#[trigger] s[i]) && s[i]
        != ']' by {
        if i < a.len() {
            assert(s[i] == a[i]);
            assert(!text::is_white_space(a[i]));
            assert(a.contains(a[i]));
        } else if i > a.len() {
            assert(s[i] == b[i - a.len() - 1]);
            assert(!text::is_white_space(b[i - a.len() - 1]));
            assert(b.contains(b[i - a.len() - 1]));
        }
    }
}

/// The time that a line begins with is read part by part as it was written,
/// whatever the line says behind it.
pub proof fn law_line_time_is_read(w: WrittenTime, rest: Seq<char>)
    requires
        w.is_written(),
    ensures
        line_time(w.line(rest)) matches Some(t) && {
            &&& t.year == text::digits_value(w.year)
            &&& t.month == text::digits_value(w.month)
            &&& t.day == text::digits_value(w.day)
            &&& t.hour == text::digits_value(w.hour)
            &&& t.minute == text::digits_value(w.minute)
            &&& t.second == text::digits_value(w.second)
            &&& t.milli == text::digits_value(w.milli)
        },
{
    lemma_stamp_time(w);
    lemma_date_and_time(w);
    let line = w.line(rest);
    let stamp = w.date() + seq![' '] + w.time();
    let head = seq!['['] + stamp;
    reveal_strlit("[");
    reveal_strlit("]");
    assert("]"@ =~= seq![']']);
    assert(line.subrange(0, 1) =~= "["@);
    assert(line =~= head + seq![']'] + rest);
    assert(!head.contains(']')) by {
        if head.contains(']') {
            let i = choose|i: int| 0 <= i < head.len() && head[i] == ']';
            let n = w.date().len() as int;
            if 1 <= i <= n {
                assert(w.date()[i - 1] == ']');
            } else if i > n + 1 {
                assert(w.time()[i - n - 2] == ']');
            }
        }
    }
    text::law_cut_at_a_character(head, ']', rest);
    assert(head.skip(1) =~= stamp);
    let none = Seq::<char>::empty();
    let gap = seq![' '] + w.time();
    assert(none + w.date() + gap =~= stamp);
    text::law_first_word(none, w.date(), gap);
    assert(seq![' '] + w.time() + none =~= gap);
    text::law_first_word(seq![' '], w.time(), none);
}

/// The seconds of a log line are those of the date, the hour, the minute and the
/// second that it begins with: in the time zone of the machine, or in UTC where
/// the zone has no such time. In a zone that is `offset` seconds off UTC at
/// that time, they are so many seconds off the seconds of that time in UTC.
pub proof fn law_line_has_its_seconds(w: WrittenTime, rest: Seq<char>, r: Option<i64>)
    requires
        w.is_written(),
        may_be_line_seconds(r, w.line(rest)),
    ensures
        ({
            let t = line_time(w.line(rest))->0;
            let day = epoch_day(
                text::digits_value(w.year) as int,
                text::digits_value(w.month) as int,
                text::digits_value(w.day) as int,
            );
            let utc = day * 86400 + text::digits_value(w.hour) * 3600 + text::digits_value(
                w.minute,
            ) * 60 + text::digits_value(w.second);
            &&& r is Some <==> is_civil(t)
            &&& r matches Some(s) ==> exists|local: Option<i64>| #[trigger]
                is_local_reading(t, local) && (match local {
                    Some(v) => s == v && -86400 < s - utc < 86400,
                    None => s == utc,
                })
        }),
{
    law_line_time_is_read(w, rest);
    let t = line_time(w.line(rest))->0;
    if let Some(s) = r {
        let local = choose|local: Option<i64>| #[trigger]
            is_local_reading(t, local) && Some(s as int) == match local {
                Some(v) => Some(v as int),
                None => utc_seconds(t),
            };
        lemma_local_reading(t, local);
    }
}

/// Whether the time zone of the machine is `offset` seconds off UTC at a time.
pub open spec fn is_read_at(t: CivilTime, offset: int) -> bool {
    &&& utc_seconds(t) is Some
    &&& forall|local: Option<i64>| #[trigger]
        is_local_reading(t, local) ==> local is Some && local->0 - utc_seconds(t)->0 == offset
}

/// Two times that a zone reads at one and the same offset from UTC are as far
/// apart in it as they are in UTC.
pub proof fn law_seconds_are_as_far_apart(a: CivilTime, b: CivilTime, x: i64, y: i64, offset: int)
    requires
        is_read_at(a, offset),
        is_read_at(b, offset),
        may_be_seconds(x, a),
        may_be_seconds(y, b),
    ensures
        x - y == utc_seconds(a)->0 - utc_seconds(b)->0,
{
}

/// A day later is one more: the days of a month follow each other, and so do the
/// months of a year and the years.
pub proof fn law_days_follow_each_other(year: int, month: int, day: int)
    requires
        1 <= month <= 12,
        1 <= day <= days_in_month(year, month),
    ensures
        day < days_in_month(year, month) ==> epoch_day(year, month, day + 1) == epoch_day(
            year,
            month,
            day,
        ) + 1,
        day == days_in_month(year, month) && month < 12 ==> epoch_day(year, month + 1, 1)
            == epoch_day(year, month, day) + 1,
        day == days_in_month(year, month) && month == 12 ==> epoch_day(year + 1, 1, 1)
            == epoch_day(year, month, day) + 1,
        epoch_day(1970, 1, 1) == 0,
{
    reveal_with_fuel(days_before_month, 14);
    let y = year - 1;
    assert((y + 1) / 4 == y / 4 + if (y + 1) % 4 == 0 { 1int } else { 0 });
    assert((y + 1) / 100 == y / 100 + if (y + 1) % 100 == 0 { 1int } else { 0 });
    assert((y + 1) / 400 == y / 400 + if (y + 1) % 400 == 0 { 1int } else { 0 });
    assert((y + 1) % 100 == 0 ==> (y + 1) % 4 == 0);
    assert((y + 1) % 400 == 0 ==> (y + 1) % 100 == 0);
}

/// A timestamp in a document is taken for milliseconds exactly where it is beyond
/// a trillion, and keeps its second either way.
pub proof fn law_milliseconds_are_told(n: u64)
    requires
        n <= i64::MAX,
    ensures
        n <= 1_000_000_000_000 ==> document_seconds(
            Some(json::JsonModel::Number(json::JsonNumber::Unsigned(n))),
        ) == Some(n as i64),
        n > 1_000_000_000_000 ==> document_seconds(
            Some(json::JsonModel::Number(json::JsonNumber::Unsigned(n))),
        ) == Some((n / 1000) as i64),
{
}

/// The start of a span is its RFC 3339 time, with whatever white space around it.
pub proof fn law_start_is_the_time(before: Seq<char>, stamp: Seq<char>, after: Seq<char>)
    requires
        text::is_blank(before),
        text::is_blank(after),
        text::is_bare(stamp),
    ensures
        rfc3339_seconds(stamp) is Some ==> started_at(before + stamp + after) == rfc3339_seconds(
            stamp,
        ),
        rfc3339_seconds(stamp) is None ==> started_at(before + stamp + after) == formatted_seconds(
            stamp,
            "%Y-%m-%dT%H:%M:%S%.fZ"@,
        ),
        started_at(before + after) is None,
{
    text::law_padding_is_trimmed(before, stamp, after);
    let none = Seq::<char>::empty();
    assert(before + none + after == before + after);
    text::law_padding_is_trimmed(before, none, after);
}

/// A time that is written without milliseconds has none, and is read otherwise as
/// one with them; a line that begins with no bracket has no time.
pub proof fn law_line_time_without_milliseconds(w: WrittenTime, rest: Seq<char>, other: Seq<char>)
    requires
        w.is_written(),
    ensures
        ({
            let time = w.hour + seq![':'] + (w.minute + seq![':'] + w.second);
            let line = seq!['['] + (w.date() + seq![' '] + time) + seq![']'] + rest;
            line_time(line) matches Some(t) && {
                &&& t.year == text::digits_value(w.year)
                &&& t.month == text::digits_value(w.month)
                &&& t.day == text::digits_value(w.day)
                &&& t.hour == text::digits_value(w.hour)
                &&& t.minute == text::digits_value(w.minute)
                &&& t.second == text::digits_value(w.second)
                &&& t.milli == 0
            }
        }),
        other.len() == 0 || other[0] != '[' ==> line_time(other) is None,
{
    lemma_stamp_time(w);
    lemma_date_and_time(w);
    text::lemma_digits(w.hour);
    text::lemma_digits(w.minute);
    text::lemma_digits(w.second);
    reveal_strlit("[");
    reveal_strlit("]");
    reveal_strlit(":");
    reveal_strlit(".");
    assert("]"@ =~= seq![']']);
    assert(":"@ =~= seq![':']);
    assert("."@ =~= seq!['.']);
    let time = w.hour + seq![':'] + (w.minute + seq![':'] + w.second);
    lemma_word_pieces(w.minute, ':', w.second);
    lemma_word_pieces(w.hour, ':', w.minute + seq![':'] + w.second);
    lemma_three_pieces(w.hour, w.minute, w.second, ':');
    text::law_cut_at_a_character(w.second, '.', Seq::<char>::empty());
    let stamp = w.date() + seq![' '] + time;
    let head = seq!['['] + stamp;
    let line = seq!['['] + stamp + seq![']'] + rest;
    assert(line.subrange(0, 1) =~= "["@);
    assert(line =~= head + seq![']'] + rest);
    assert(!head.contains(']')) by {
        if head.contains(']') {
            let i = choose|i: int| 0 <= i < head.len() && head[i] == ']';
            let n = w.date().len() as int;
            if 1 <= i <= n {
                assert(w.date()[i - 1] == ']');
            } else if i > n + 1 {
                assert(time[i - n - 2] == ']');
            }
        }
    }
    text::law_cut_at_a_character(head, ']', rest);
    assert(head.skip(1) =~= stamp);
    let none = Seq::<char>::empty();
    let gap = seq![' '] + time;
    assert(none + w.date() + gap =~= stamp);
    text::law_first_word(none, w.date(), gap);
    assert(seq![' '] + time + none =~= gap);
    text::law_first_word(seq![' '], time, none);
    if text::begins_with(other, "["@) {
        assert(other.subrange(0, 1)[0] == '[');
    }
}

/// A timestamp below zero is one of seconds; one that is neither an integer nor a
/// text is none.
pub proof fn law_other_timestamps(n: i64)
    requires
        n < 0,
    ensures
        document_seconds(Some(json::JsonModel::Number(json::JsonNumber::Negative(n)))) == Some(n),
        document_seconds(Some(json::JsonModel::Null)) is None,
        document_seconds(Some(json::JsonModel::Bool(true))) is None,
        document_seconds(None) is None,
{
}

/// Where the local time can be told it is taken, and the time in UTC only where it
/// cannot.
pub proof fn law_local_time_is_taken(utc: i64, local: Option<i64>, r: i64)
    requires
        call_ensures(choose_seconds, (utc, local), r),
    ensures
        local is Some ==> local == Some(r),
        local is None ==> r == utc,
{
}

} // verus!
