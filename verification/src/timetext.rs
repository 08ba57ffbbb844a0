//! Times read from text: the time literals and constants of Traqula, and the
//! constructors of `Time` from a year, a year and month, a date or a
//! date-time written out.

use crate::datatype::{
    calendar_date, date_moment, date_time_of, datetime_moment, datetime_time_of, time_of_day, Time, TimeType,
};
use chrono::{Datelike, Timelike};
use std::str::FromStr;
use vstd::prelude::*;
use vstd::string::StrSliceExecFns;
use vstd::string::StringExecFns;

verus! {

// ---------------------------------------------------------------------------
// What chrono and std read
// ---------------------------------------------------------------------------

/// The year, month and day `chrono::NaiveDate::from_str` reads from a text.
pub uninterp spec fn naive_date_reading(text: Seq<char>) -> Option<(i32, u8, u8)>;

/// The date and time of day `chrono::NaiveDateTime::parse_from_str` reads
/// from a text under a format.
pub uninterp spec fn naive_datetime_format_reading(text: Seq<char>, format: Seq<char>) -> Option<
    ((i32, u8, u8), (u8, u8, u8, u32)),
>;

/// The date and time of day `chrono::NaiveDateTime::from_str` reads from a
/// text.
pub uninterp spec fn naive_datetime_reading(text: Seq<char>) -> Option<((i32, u8, u8), (u8, u8, u8, u32))>;

/// Reads a date with `chrono::NaiveDate::from_str`.
///
/// Claimed: the result is `naive_date_reading` of the text, and a date read
/// is a `NaiveDate`, so a valid date of chrono's calendar.
#[verifier::external_body]
fn read_naive_date(text: &str) -> (r: Option<(i32, u8, u8)>)
    ensures
        r == naive_date_reading(text@),
        r matches Some(d) ==> calendar_date(d.0, d.1, d.2),
{
    chrono::NaiveDate::from_str(text).ok().map(|d| (d.year(), d.month() as u8, d.day() as u8))
}

/// Reads a date-time with `chrono::NaiveDateTime::parse_from_str`.
///
/// Claimed: the result is `naive_datetime_format_reading` of the text and
/// the format, and what is read is a `NaiveDateTime`, so a valid date and a
/// valid time of day (a nanosecond past a second only at a leap second).
#[verifier::external_body]
fn read_naive_datetime_as(text: &str, format: &str) -> (r: Option<((i32, u8, u8), (u8, u8, u8, u32))>)
    ensures
        r == naive_datetime_format_reading(text@, format@),
        r matches Some(p) ==> calendar_date(p.0.0, p.0.1, p.0.2) && time_of_day(p.1.0, p.1.1, p.1.2, p.1.3),
{
    chrono::NaiveDateTime::parse_from_str(text, format).ok().map(
        |t| ((t.year(), t.month() as u8, t.day() as u8), (t.hour() as u8, t.minute() as u8, t.second() as u8, t.nanosecond())),
    )
}

/// Reads a date-time with `chrono::NaiveDateTime::from_str`.
///
/// Claimed: the result is `naive_datetime_reading` of the text, and what is
/// read is a `NaiveDateTime`, so a valid date and a valid time of day.
#[verifier::external_body]
fn read_naive_datetime(text: &str) -> (r: Option<((i32, u8, u8), (u8, u8, u8, u32))>)
    ensures
        r == naive_datetime_reading(text@),
        r matches Some(p) ==> calendar_date(p.0.0, p.0.1, p.0.2) && time_of_day(p.1.0, p.1.1, p.1.2, p.1.3),
{
    chrono::NaiveDateTime::from_str(text).ok().map(
        |t| ((t.year(), t.month() as u8, t.day() as u8), (t.hour() as u8, t.minute() as u8, t.second() as u8, t.nanosecond())),
    )
}

/// An ASCII decimal digit.
pub open spec fn ascii_digit(c: char) -> bool {
    48 <= (c as u32) <= 57
}

pub open spec fn all_ascii_digits(s: Seq<char>) -> bool {
    forall|i: int| 0 <= i < s.len() ==> ascii_digit(#[trigger] s[i])
}

/// The value of a run of ASCII digits in base ten.
pub open spec fn digits_value(s: Seq<char>) -> int
    decreases s.len(),
{
    if s.len() == 0 {
        0
    } else {
        digits_value(s.drop_last()) * 10 + ((s.last() as u32) - 48)
    }
}

/// What `str::parse::<i32>` reads: an optional `+` or `-`, then one or more
/// ASCII digits whose value fits in `i32`.
pub open spec fn i32_reading(s: Seq<char>) -> Option<i32> {
    let signed = s.len() > 0 && (s[0] == '-' || s[0] == '+');
    let digits = if signed { s.drop_first() } else { s };
    let v = if signed && s[0] == '-' { -digits_value(digits) } else { digits_value(digits) };
    if digits.len() > 0 && all_ascii_digits(digits) && i32::MIN <= v <= i32::MAX {
        Some(v as i32)
    } else {
        None
    }
}

/// What `str::parse::<u8>` reads: an optional `+`, then one or more ASCII
/// digits whose value fits in `u8`.
pub open spec fn u8_reading(s: Seq<char>) -> Option<u8> {
    let digits = if s.len() > 0 && s[0] == '+' { s.drop_first() } else { s };
    if digits.len() > 0 && all_ascii_digits(digits) && digits_value(digits) <= u8::MAX {
        Some(digits_value(digits) as u8)
    } else {
        None
    }
}

/// Reads a whole number with `str::parse::<i32>`.
///
/// Claimed, as std documents it: an optional sign and only ASCII digits,
/// whose value fits, read in base ten; anything else is an error.
#[verifier::external_body]
fn read_i32(text: &str) -> (r: Option<i32>)
    ensures
        r == i32_reading(text@),
{
    text.parse::<i32>().ok()
}

/// Reads a small whole number with `str::parse::<u8>`.
///
/// Claimed, as std documents it: an optional `+` and only ASCII digits,
/// whose value fits, read in base ten; anything else is an error.
#[verifier::external_body]
fn read_u8(text: &str) -> (r: Option<u8>)
    ensures
        r == u8_reading(text@),
{
    text.parse::<u8>().ok()
}

// ---------------------------------------------------------------------------
// Text shapes
// ---------------------------------------------------------------------------

/// A character of the Unicode White_Space property, which `str::trim` removes.
pub open spec fn white_space(c: char) -> bool {
    let u = c as u32;
    ||| 0x09 <= u <= 0x0D
    ||| u == 0x20 || u == 0x85 || u == 0xA0 || u == 0x1680
    ||| 0x2000 <= u <= 0x200A
    ||| u == 0x2028 || u == 0x2029 || u == 0x202F || u == 0x205F || u == 0x3000
}

pub open spec fn trim_start(s: Seq<char>) -> Seq<char>
    decreases s.len(),
{
    if s.len() > 0 && white_space(s[0]) {
        trim_start(s.drop_first())
    } else {
        s
    }
}

pub open spec fn trim_end(s: Seq<char>) -> Seq<char>
    decreases s.len(),
{
    if s.len() > 0 && white_space(s.last()) {
        trim_end(s.drop_last())
    } else {
        s
    }
}

/// `s` without white space at either end.
pub open spec fn trimmed(s: Seq<char>) -> Seq<char> {
    trim_end(trim_start(s))
}

/// Punctuation that closes a list or a statement.
pub open spec fn closing(c: char) -> bool {
    c == ',' || c == ';' || c == ']' || c == ')'
}

/// `s` without closing punctuation at its end.
pub open spec fn trim_closing(s: Seq<char>) -> Seq<char>
    decreases s.len(),
{
    if s.len() > 0 && closing(s.last()) {
        trim_closing(s.drop_last())
    } else {
        s
    }
}

/// `s` without one pair of surrounding single quotes.
pub open spec fn unquoted(s: Seq<char>) -> Seq<char> {
    if s.len() >= 2 && s[0] == '\'' && s.last() == '\'' {
        s.subrange(1, s.len() - 1)
    } else {
        s
    }
}

/// A time text made ready to read: trimmed, without closing punctuation and
/// without surrounding quotes.
pub open spec fn sanitized(s: Seq<char>) -> Seq<char> {
    unquoted(trimmed(trim_closing(trimmed(s))))
}

/// `s` without its `@` characters.
pub open spec fn without_at(s: Seq<char>) -> Seq<char>
    decreases s.len(),
{
    if s.len() == 0 {
        s
    } else {
        without_at(s.drop_last()) + if s.last() == '@' {
            Seq::<char>::empty()
        } else {
            seq![s.last()]
        }
    }
}

/// How often `c` occurs in `s`.
pub open spec fn count_of(s: Seq<char>, c: char) -> nat
    decreases s.len(),
{
    if s.len() == 0 {
        0
    } else {
        count_of(s.drop_last(), c) + if s.last() == c {
            1nat
        } else {
            0nat
        }
    }
}

/// The UTF-8 length of a character.
pub open spec fn char_bytes(c: char) -> nat {
    let u = c as u32;
    if u < 0x80 {
        1
    } else if u < 0x800 {
        2
    } else if u < 0x10000 {
        3
    } else {
        4
    }
}

/// The UTF-8 length of a text: what `str::len` counts.
pub open spec fn utf8_len(s: Seq<char>) -> nat
    decreases s.len(),
{
    if s.len() == 0 {
        0
    } else {
        utf8_len(s.drop_last()) + char_bytes(s.last())
    }
}

/// Every character is a `-` or an ASCII digit.
pub open spec fn digits_or_dashes(s: Seq<char>) -> bool {
    forall|i: int| 0 <= i < s.len() ==> #[trigger] s[i] == '-' || ascii_digit(s[i])
}

/// The year characters and the month characters of a `YYYY-MM` text: the
/// characters other than `-`, the first four bytes' worth to the year.
pub open spec fn year_month_parts(d: Seq<char>) -> (Seq<char>, Seq<char>)
    decreases d.len(),
{
    if d.len() == 0 {
        (Seq::empty(), Seq::empty())
    } else {
        let (y, m) = year_month_parts(d.drop_last());
        let c = d.last();
        if c == '-' {
            (y, m)
        } else if utf8_len(y) < 4 {
            (y.push(c), m)
        } else {
            (y, m.push(c))
        }
    }
}

// ---------------------------------------------------------------------------
// Readings
// ---------------------------------------------------------------------------

/// The stored precision of an optional time.
pub open spec fn moment_of(t: Option<Time>) -> Option<TimeType> {
    match t {
        Some(t) => Some(t.moment_spec()),
        None => None,
    }
}

/// A year: what `str::parse::<i32>` reads.
pub open spec fn year_reading(d: Seq<char>) -> Option<TimeType> {
    match i32_reading(d) {
        Some(y) => Some(TimeType::Year(y)),
        None => None,
    }
}

/// A year and a month of the year.
pub open spec fn year_month_reading(d: Seq<char>) -> Option<TimeType> {
    let (y, m) = year_month_parts(d);
    match (i32_reading(y), u8_reading(m)) {
        (Some(year), Some(month)) => if 1 <= month <= 12 {
            Some(TimeType::YearMonth(year, month))
        } else {
            None
        },
        _ => None,
    }
}

/// A date: what chrono reads as a `NaiveDate`.
pub open spec fn date_reading(d: Seq<char>) -> Option<TimeType> {
    match naive_date_reading(d) {
        Some(p) => Some(date_moment(p.0, p.1, p.2)),
        None => None,
    }
}

/// A date-time: what chrono reads as a `NaiveDateTime`.
pub open spec fn datetime_reading(d: Seq<char>) -> Option<TimeType> {
    match naive_datetime_reading(d) {
        Some((date, time)) => Some(datetime_moment(date, time)),
        None => None,
    }
}

/// A date-time with a space between date and time: with a fraction of a
/// second, with seconds, or to the minute, the first of these that reads.
pub open spec fn spaced_datetime_reading(s: Seq<char>) -> Option<TimeType> {
    match naive_datetime_format_reading(s, "%Y-%m-%d %H:%M:%S%.f"@) {
        Some((date, time)) => Some(datetime_moment(date, time)),
        None => match naive_datetime_format_reading(s, "%Y-%m-%d %H:%M:%S"@) {
            Some((date, time)) => Some(datetime_moment(date, time)),
            None => match naive_datetime_format_reading(s, "%Y-%m-%d %H:%M"@) {
                Some((date, time)) => Some(datetime_moment(date, time)),
                None => None,
            },
        },
    }
}

/// The `-` at `i` is the first in `s`, with digits or dashes before it and a
/// month number (1 to 12) after it.
pub open spec fn year_month_split_at(s: Seq<char>, i: int) -> bool {
    &&& 0 <= i < s.len()
    &&& s[i] == '-'
    &&& forall|j: int| 0 <= j < i ==> #[trigger] s[j] != '-'
    &&& digits_or_dashes(s.subrange(0, i))
    &&& all_ascii_digits(s.subrange(i + 1, s.len() as int))
    &&& u8_reading(s.subrange(i + 1, s.len() as int)) matches Some(m) && 1 <= m <= 12
}

/// What a Traqula time reads as, `now` standing for `@NOW`: the constants
/// `@NOW`, `@BOT` and `@EOT` (their `@` signs anywhere); else, on the text
/// trimmed and unquoted, a date-time with a space, a date, a year and month,
/// or a year, each tried where the text has its shape.
pub open spec fn time_reading(value: Seq<char>, now: TimeType) -> Option<TimeType> {
    let word = without_at(value);
    let s = sanitized(value);
    if word == seq!['N', 'O', 'W'] {
        Some(now)
    } else if word == seq!['B', 'O', 'T'] {
        Some(TimeType::BeginningOfTime)
    } else if word == seq!['E', 'O', 'T'] {
        Some(TimeType::EndOfTime)
    } else if s.contains(':') && s.contains('-') && s.contains(' ') && spaced_datetime_reading(s) is Some {
        spaced_datetime_reading(s)
    } else if utf8_len(s) >= 8 && count_of(s, '-') == 2 && !s.contains(':') && naive_date_reading(s) is Some {
        date_reading(s)
    } else if count_of(s, '-') == 1 && utf8_len(s) >= 6 && !s.contains(':') && exists|i: int|
        year_month_split_at(s, i) {
        year_month_reading(s)
    } else if digits_or_dashes(s) && 4 <= utf8_len(s) <= 8 {
        year_reading(s)
    } else {
        None
    }
}

// ---------------------------------------------------------------------------
// Reading text
// ---------------------------------------------------------------------------

fn is_white_space(c: char) -> (r: bool)
    ensures
        r == white_space(c),
{
    let u = c as u32;
    (0x09 <= u && u <= 0x0D) || u == 0x20 || u == 0x85 || u == 0xA0 || u == 0x1680 || (0x2000 <= u && u <= 0x200A)
        || u == 0x2028 || u == 0x2029 || u == 0x202F || u == 0x205F || u == 0x3000
}

fn is_closing(c: char) -> (r: bool)
    ensures
        r == closing(c),
{
    c == ',' || c == ';' || c == ']' || c == ')'
}

fn is_ascii_digit(c: char) -> (r: bool)
    ensures
        r == ascii_digit(c),
{
    let u = c as u32;
    48 <= u && u <= 57
}

fn char_len(c: char) -> (r: usize)
    ensures
        r == char_bytes(c),
{
    let u = c as u32;
    if u < 0x80 {
        1
    } else if u < 0x800 {
        2
    } else if u < 0x10000 {
        3
    } else {
        4
    }
}

/// `s` without white space at either end.
fn trim_text(s: &str) -> (r: &str)
    ensures
        r@ == trimmed(s@),
{
    let n = s.unicode_len();
    let mut a: usize = 0;
    assert(s@.subrange(0, n as int) =~= s@);
    while a < n && is_white_space(s.get_char(a))
        invariant
            a <= n,
            n == s@.len(),
            trim_start(s@) == trim_start(s@.subrange(a as int, n as int)),
        decreases n - a,
    {
        assert(s@.subrange(a as int, n as int).drop_first() =~= s@.subrange(a + 1, n as int));
        a = a + 1;
    }
    assert(trim_start(s@) == s@.subrange(a as int, n as int));
    let mut b: usize = n;
    while b > a && is_white_space(s.get_char(b - 1))
        invariant
            a <= b <= n,
            n == s@.len(),
            trim_end(s@.subrange(a as int, n as int)) == trim_end(s@.subrange(a as int, b as int)),
        decreases b - a,
    {
        assert(s@.subrange(a as int, b as int).drop_last() =~= s@.subrange(a as int, b - 1));
        b = b - 1;
    }
    assert(trim_end(s@.subrange(a as int, b as int)) == s@.subrange(a as int, b as int));
    s.substring_char(a, b)
}

/// `s` without closing punctuation at its end.
fn trim_closing_text(s: &str) -> (r: &str)
    ensures
        r@ == trim_closing(s@),
{
    let n = s.unicode_len();
    let mut b: usize = n;
    assert(s@.subrange(0, n as int) =~= s@);
    while b > 0 && is_closing(s.get_char(b - 1))
        invariant
            b <= n,
            n == s@.len(),
            trim_closing(s@) == trim_closing(s@.subrange(0, b as int)),
        decreases b,
    {
        assert(s@.subrange(0, b as int).drop_last() =~= s@.subrange(0, b - 1));
        b = b - 1;
    }
    assert(s@.subrange(0, n as int) =~= s@);
    assert(trim_closing(s@.subrange(0, b as int)) == s@.subrange(0, b as int));
    s.substring_char(0, b)
}

/// `s` without one pair of surrounding single quotes.
fn unquote(s: &str) -> (r: &str)
    ensures
        r@ == unquoted(s@),
{
    let n = s.unicode_len();
    if n >= 2 && s.get_char(0) == '\'' && s.get_char(n - 1) == '\'' {
        s.substring_char(1, n - 1)
    } else {
        s
    }
}

/// The text made ready to read as a time.
fn sanitize(value: &str) -> (r: &str)
    ensures
        r@ == sanitized(value@),
{
    unquote(trim_text(trim_closing_text(trim_text(value))))
}

/// The characters of `value` other than `@`.
fn at_free(value: &str) -> (w: Vec<char>)
    ensures
        w@ == without_at(value@),
{
    let n = value.unicode_len();
    let mut w: Vec<char> = Vec::new();
    let mut i: usize = 0;
    while i < n
        invariant
            i <= n,
            n == value@.len(),
            w@ == without_at(value@.take(i as int)),
        decreases n - i,
    {
        let c = value.get_char(i);
        assert(value@.take(i + 1).drop_last() =~= value@.take(i as int));
        if c != '@' {
            w.push(c);
        }
        proof {
            if c != '@' {
                assert(w@ =~= without_at(value@.take(i as int)) + seq![c]);
            } else {
                assert(w@ =~= without_at(value@.take(i as int)) + Seq::<char>::empty());
            }
        }
        i = i + 1;
    }
    assert(value@.take(n as int) =~= value@);
    w
}

/// `w` is the three characters `a`, `b`, `c`.
fn is_word(w: &Vec<char>, a: char, b: char, c: char) -> (r: bool)
    ensures
        r == (w@ == seq![a, b, c]),
{
    if w.len() == 3 && w[0] == a && w[1] == b && w[2] == c {
        assert(w@ =~= seq![a, b, c]);
        true
    } else {
        proof {
            if w@ == seq![a, b, c] {
                assert(w@.len() == 3);
                assert(w@[0] == a && w@[1] == b && w@[2] == c);
            }
        }
        false
    }
}

fn has_char(s: &str, c: char) -> (r: bool)
    ensures
        r == s@.contains(c),
{
    let n = s.unicode_len();
    let mut i: usize = 0;
    while i < n
        invariant
            i <= n,
            n == s@.len(),
            forall|j: int| 0 <= j < i ==> s@[j] != c,
        decreases n - i,
    {
        if s.get_char(i) == c {
            return true;
        }
        i = i + 1;
    }
    false
}

fn count_char(s: &str, c: char) -> (r: usize)
    ensures
        r == count_of(s@, c),
{
    let n = s.unicode_len();
    let mut k: usize = 0;
    let mut i: usize = 0;
    while i < n
        invariant
            i <= n,
            n == s@.len(),
            k <= i,
            k == count_of(s@.take(i as int), c),
        decreases n - i,
    {
        assert(s@.take(i + 1).drop_last() =~= s@.take(i as int));
        if s.get_char(i) == c {
            k = k + 1;
        }
        i = i + 1;
    }
    assert(s@.take(n as int) =~= s@);
    k
}

/// A prefix takes no more bytes than the whole.
proof fn lemma_utf8_len_prefix(s: Seq<char>, i: int)
    requires
        0 <= i <= s.len(),
    ensures
        utf8_len(s.take(i)) <= utf8_len(s),
    decreases s.len(),
{
    if i < s.len() {
        assert(s.take(i) =~= s.drop_last().take(i));
        lemma_utf8_len_prefix(s.drop_last(), i);
    } else {
        assert(s.take(i) =~= s);
    }
}

/// The UTF-8 length of `s`, or `cap` where it is at least `cap`.
fn bytes_up_to(s: &str, cap: usize) -> (r: usize)
    requires
        cap <= 16,
    ensures
        r == if utf8_len(s@) >= cap {
            cap as nat
        } else {
            utf8_len(s@)
        },
{
    let n = s.unicode_len();
    let mut sum: usize = 0;
    let mut i: usize = 0;
    while i < n && sum < cap
        invariant
            i <= n,
            n == s@.len(),
            cap <= 16,
            sum <= cap + 4,
            sum == utf8_len(s@.take(i as int)),
        decreases n - i,
    {
        assert(s@.take(i + 1).drop_last() =~= s@.take(i as int));
        sum = sum + char_len(s.get_char(i));
        i = i + 1;
    }
    if sum >= cap {
        proof {
            lemma_utf8_len_prefix(s@, i as int);
        }
        cap
    } else {
        assert(s@.take(n as int) =~= s@);
        sum
    }
}

fn only_digits_or_dashes(s: &str) -> (r: bool)
    ensures
        r == digits_or_dashes(s@),
{
    let n = s.unicode_len();
    let mut i: usize = 0;
    while i < n
        invariant
            i <= n,
            n == s@.len(),
            forall|j: int| 0 <= j < i ==> #[trigger] s@[j] == '-' || ascii_digit(s@[j]),
        decreases n - i,
    {
        let c = s.get_char(i);
        if !(c == '-' || is_ascii_digit(c)) {
            return false;
        }
        i = i + 1;
    }
    true
}

fn only_digits(s: &str) -> (r: bool)
    ensures
        r == all_ascii_digits(s@),
{
    let n = s.unicode_len();
    let mut i: usize = 0;
    while i < n
        invariant
            i <= n,
            n == s@.len(),
            forall|j: int| 0 <= j < i ==> ascii_digit(#[trigger] s@[j]),
        decreases n - i,
    {
        if !is_ascii_digit(s.get_char(i)) {
            return false;
        }
        i = i + 1;
    }
    true
}

/// The position of the first `-`.
fn first_dash(s: &str) -> (r: Option<usize>)
    ensures
        r matches Some(i) ==> i < s@.len() && s@[i as int] == '-' && forall|j: int| 0 <= j < i ==> #[trigger] s@[j] != '-',
        r is None ==> !s@.contains('-'),
{
    let n = s.unicode_len();
    let mut i: usize = 0;
    while i < n
        invariant
            i <= n,
            n == s@.len(),
            forall|j: int| 0 <= j < i ==> #[trigger] s@[j] != '-',
        decreases n - i,
    {
        if s.get_char(i) == '-' {
            return Some(i);
        }
        i = i + 1;
    }
    None
}

// ---------------------------------------------------------------------------
// Times from text
// ---------------------------------------------------------------------------

impl Time {
    /// The year a text gives (such as `2024`), or `None` where it does not
    /// read as a whole number.
    pub fn new_year_from(d: &str) -> (t: Option<Time>)
        ensures
            moment_of(t) == year_reading(d@),
    {
        match read_i32(d) {
            Some(year) => Some(Time::from_time_type(TimeType::Year(year))),
            None => None,
        }
    }

    /// The year and month of a `YYYY-MM` text: the characters other than
    /// `-`, the first four bytes' worth read as the year and the rest as the
    /// month; `None` where either does not read or the month is not 1 to 12.
    pub fn new_year_month_from(d: &str) -> (t: Option<Time>)
        ensures
            moment_of(t) == year_month_reading(d@),
    {
        let n = d.unicode_len();
        let mut year = String::new();
        let mut month = String::new();
        let mut year_bytes: usize = 0;
        let mut i: usize = 0;
        while i < n
            invariant
                i <= n,
                n == d@.len(),
                (year@, month@) == year_month_parts(d@.take(i as int)),
                year_bytes == utf8_len(year@),
                year_bytes < 8,
            decreases n - i,
        {
            let c = d.get_char(i);
            assert(d@.take(i + 1).drop_last() =~= d@.take(i as int));
            assert(d@.take(i + 1).last() == c);
            if c != '-' {
                let piece = d.substring_char(i, i + 1);
                assert(piece@ =~= seq![c]);
                if year_bytes < 4 {
                    let ghost before = year@;
                    year.append(piece);
                    assert(year@ =~= before.push(c));
                    assert(year@.drop_last() =~= before);
                    year_bytes = year_bytes + char_len(c);
                } else {
                    let ghost before = month@;
                    month.append(piece);
                    assert(month@ =~= before.push(c));
                }
            }
            i = i + 1;
        }
        assert(d@.take(n as int) =~= d@);
        match (read_i32(year.as_str()), read_u8(month.as_str())) {
            (Some(y), Some(m)) => {
                if 1 <= m && m <= 12 {
                    Some(Time::from_time_type(TimeType::YearMonth(y, m)))
                } else {
                    None
                }
            },
            _ => None,
        }
    }

    /// The date of a text that chrono reads as a date (`YYYY-MM-DD`), or
    /// `None`.
    pub fn new_date_from(d: &str) -> (t: Option<Time>)
        ensures
            moment_of(t) == date_reading(d@),
    {
        match read_naive_date(d) {
            Some((year, month, day)) => date_time_of(year, month, day),
            None => None,
        }
    }

    /// The date-time of a text that chrono reads as a date-time
    /// (`YYYY-MM-DDTHH:MM:SS`, with an optional fraction), or `None`.
    pub fn new_datetime_from(d: &str) -> (t: Option<Time>)
        ensures
            moment_of(t) == datetime_reading(d@),
    {
        match read_naive_datetime(d) {
            Some((date, time)) => datetime_time_of(date, time),
            None => None,
        }
    }
}

/// A date-time with a space between date and time, in the first of the
/// three formats that reads.
fn spaced_datetime(s: &str) -> (t: Option<Time>)
    ensures
        moment_of(t) == spaced_datetime_reading(s@),
{
    match read_naive_datetime_as(s, "%Y-%m-%d %H:%M:%S%.f") {
        Some((date, time)) => {
            return datetime_time_of(date, time);
        },
        None => {},
    }
    match read_naive_datetime_as(s, "%Y-%m-%d %H:%M:%S") {
        Some((date, time)) => {
            return datetime_time_of(date, time);
        },
        None => {},
    }
    match read_naive_datetime_as(s, "%Y-%m-%d %H:%M") {
        Some((date, time)) => datetime_time_of(date, time),
        None => None,
    }
}

/// Reads a Traqula time literal or constant, `now` standing for `@NOW`.
pub fn parse_time_with_now(value: &str, now: &Time) -> (r: Option<Time>)
    ensures
        moment_of(r) == time_reading(value@, now.moment_spec()),
{
    let word = at_free(value);
    if is_word(&word, 'N', 'O', 'W') {
        return Some(*now);
    }
    if is_word(&word, 'B', 'O', 'T') {
        return Some(Time::new_beginning_of_time());
    }
    if is_word(&word, 'E', 'O', 'T') {
        return Some(Time::new_end_of_time());
    }
    let s = sanitize(value);
    if has_char(s, ':') && has_char(s, '-') && has_char(s, ' ') {
        let t = spaced_datetime(s);
        if t.is_some() {
            return t;
        }
    }
    let bytes = bytes_up_to(s, 9);
    let dashes = count_char(s, '-');
    let colon = has_char(s, ':');
    if bytes >= 8 && dashes == 2 && !colon {
        let t = Time::new_date_from(s);
        if t.is_some() {
            return t;
        }
    }
    if dashes == 1 && bytes >= 6 && !colon {
        let ghost sv = s@;
        match first_dash(s) {
            Some(k) => {
                let n = s.unicode_len();
                let y = s.substring_char(0, k);
                let m = s.substring_char(k + 1, n);
                let month_fits = match read_u8(m) {
                    Some(mm) => 1 <= mm && mm <= 12,
                    None => false,
                };
                let fits = only_digits_or_dashes(y) && only_digits(m) && month_fits;
                proof {
                    if exists|i: int| year_month_split_at(sv, i) {
                        let i = choose|i: int| year_month_split_at(sv, i);
                        if i < k {
                            assert(sv[i] != '-');
                        }
                        if k < i {
                            assert(sv[k as int] != '-');
                        }
                        assert(i == k);
                        assert(fits);
                    }
                    if fits {
                        assert(year_month_split_at(sv, k as int));
                    }
                }
                if fits {
                    return Time::new_year_month_from(s);
                }
            },
            None => {
                proof {
                    if exists|i: int| year_month_split_at(sv, i) {
                        let i = choose|i: int| year_month_split_at(sv, i);
                        assert(sv.contains(sv[i]));
                    }
                }
            },
        }
    }
    if only_digits_or_dashes(s) && 4 <= bytes && bytes <= 8 {
        return Time::new_year_from(s);
    }
    None
}

/// Reads a Traqula time literal or constant, `@NOW` standing for the time of
/// the clock; `None` for `@NOW` where the clock cannot be read.
pub fn parse_time(value: &str) -> (r: Option<Time>)
    ensures
        without_at(value@) != seq!['N', 'O', 'W'] ==> moment_of(r) == time_reading(value@, TimeType::BeginningOfTime),
        without_at(value@) == seq!['N', 'O', 'W'] ==> (r matches Some(t) ==> t.moment_spec() is DateTime),
{
    match Time::new() {
        Some(now) => parse_time_with_now(value, &now),
        None => {
            let word = at_free(value);
            if is_word(&word, 'N', 'O', 'W') {
                None
            } else {
                parse_time_with_now(value, &Time::new_beginning_of_time())
            }
        },
    }
}

} // verus!
