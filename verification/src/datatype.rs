//! Certainties and precision-aware times.
//!
//! A [`Time`] is stored at the precision it was entered with (a year, a
//! month, a date or a UTC date-time, or one of the two sentinels). Each time
//! denotes the half-open interval of instants it covers, and the temporal
//! relations compare those intervals.

use crate::text::{decimal_text, int_text, push_decimal, push_int};
use chrono::{Datelike, Timelike};
use vstd::prelude::*;
use vstd::string::StringExecFns;

verus! {

// ---------------------------------------------------------------------------
// Certainty
// ---------------------------------------------------------------------------

/// A signed reliability in whole percent, normally within -100..=100.
#[derive(Debug, Clone, Copy, PartialEq, Eq, Structural, Hash)]
pub struct Certainty {
    alpha: i8,
}

/// What one certainty adds to the non-contradiction total: its signed
/// percentage, plus 100 when it is negative (a negative assertion counts once).
pub open spec fn certainty_weight(alpha: i8) -> int {
    if alpha < 0 { 100 + alpha } else { alpha as int }
}

/// The non-contradiction total of a sequence of percentages.
pub open spec fn certainty_total(alphas: Seq<i8>) -> int
    decreases alphas.len(),
{
    if alphas.len() == 0 {
        0
    } else {
        certainty_total(alphas.drop_last()) + certainty_weight(alphas.last())
    }
}

/// Appending a certainty of -100% to 100% never lowers the total, so what
/// contradicts itself stays contradictory as certainties are added.
pub proof fn certainty_total_grows(alphas: Seq<i8>, alpha: i8)
    requires
        -100 <= alpha <= 100,
    ensures
        certainty_total(alphas.push(alpha)) >= certainty_total(alphas),
        certainty_total(alphas.push(alpha)) <= 100 ==> certainty_total(alphas) <= 100,
{
    assert(alphas.push(alpha).drop_last() =~= alphas);
}

/// A zero certainty adds nothing to the total.
pub proof fn certainty_total_ignores_zero(alphas: Seq<i8>)
    ensures
        certainty_total(alphas.push(0)) == certainty_total(alphas),
{
    assert(alphas.push(0).drop_last() =~= alphas);
}

/// The total does not depend on the order of the certainties.
pub proof fn certainty_total_ignores_order(a: Seq<i8>, b: Seq<i8>)
    requires
        a.to_multiset() == b.to_multiset(),
    ensures
        certainty_total(a) == certainty_total(b),
    decreases a.len(),
{
    broadcast use vstd::seq_lib::to_multiset_contains;

    vstd::seq_lib::to_multiset_len(a);
    vstd::seq_lib::to_multiset_len(b);
    if a.len() > 0 {
        let x = a.last();
        assert(a.contains(x)) by {
            assert(a[a.len() - 1] == x);
        }
        assert(a.to_multiset().count(x) > 0);
        assert(b.contains(x));
        let i = choose|i: int| 0 <= i < b.len() && b[i] == x;
        vstd::seq_lib::to_multiset_build(a.drop_last(), x);
        assert(a.drop_last().push(x) =~= a);
        vstd::seq_lib::to_multiset_remove(b, i);
        assert(a.drop_last().to_multiset() =~= b.remove(i).to_multiset());
        certainty_total_ignores_order(a.drop_last(), b.remove(i));
        lemma_total_remove(b, i);
    }
}

/// Removing one certainty takes its weight off the total.
proof fn lemma_total_remove(b: Seq<i8>, i: int)
    requires
        0 <= i < b.len(),
    ensures
        certainty_total(b) == certainty_total(b.remove(i)) + certainty_weight(b[i]),
    decreases b.len(),
{
    if i == b.len() - 1 {
        assert(b.remove(i) =~= b.drop_last());
    } else {
        lemma_total_remove(b.drop_last(), i);
        assert(b.remove(i).drop_last() =~= b.drop_last().remove(i));
        assert(b.remove(i).last() == b.last());
        assert(b.drop_last()[i] == b[i]);
    }
}

impl Certainty {
    pub closed spec fn alpha_spec(self) -> i8 {
        self.alpha
    }

    /// Creates a certainty from its exact integer percentage.
    pub fn from_percent(alpha: i8) -> (c: Self)
        ensures
            c.alpha_spec() == alpha,
    {
        Self { alpha }
    }

    /// A certainty is its percentage: two certainties are equal exactly
    /// when their percentages are.
    pub proof fn certainty_is_its_percentage(a: Certainty, b: Certainty)
        ensures
            (a == b) <==> (a.alpha_spec() == b.alpha_spec()),
    {
    }

    /// The exact integer percentage.
    pub fn percent(&self) -> (alpha: i8)
        ensures
            alpha == self.alpha_spec(),
    {
        self.alpha
    }

    /// True when the reliabilities are non-contradictory, per Transitional
    /// Modeling: the number of negative assertions plus the signed sum of the
    /// reliabilities is at most one (100 in percent).
    pub fn consistent(rs: &[Certainty]) -> (ok: bool)
        ensures
            ok == (certainty_total(rs@.map_values(|c: Certainty| c.alpha_spec())) <= 100),
    {
        let ghost alphas = rs@.map_values(|c: Certainty| c.alpha_spec());
        let mut total: i128 = 0;
        let mut i: usize = 0;
        while i < rs.len()
            invariant
                i <= rs@.len(),
                alphas == rs@.map_values(|c: Certainty| c.alpha_spec()),
                total == certainty_total(alphas.subrange(0, i as int)),
                -128 * i <= total <= 128 * i,
                i <= usize::MAX,
            decreases rs@.len() - i,
        {
            let alpha = rs[i].alpha;
            assert(alphas.subrange(0, i + 1).drop_last() == alphas.subrange(0, i as int));
            if alpha < 0 {
                total = total + 100 + alpha as i128;
            } else {
                total = total + alpha as i128;
            }
            i += 1;
        }
        assert(alphas.subrange(0, rs@.len() as int) == alphas);
        total <= 100
    }
}

// ---------------------------------------------------------------------------
// Calendar values (validated through chrono)
// ---------------------------------------------------------------------------

/// The first and last years of the calendar.
pub const FIRST_YEAR: i32 = -262143;
pub const LAST_YEAR: i32 = 262142;

/// A leap year of the proleptic Gregorian calendar.
pub open spec fn leap_year(year: int) -> bool {
    year % 4 == 0 && (year % 100 != 0 || year % 400 == 0)
}

/// The number of days of a month.
pub open spec fn month_days(year: int, month: int) -> int {
    if month == 2 {
        if leap_year(year) { 29 } else { 28 }
    } else if month == 4 || month == 6 || month == 9 || month == 11 {
        30
    } else {
        31
    }
}

/// Whether `year-month-day` is a date of the proleptic Gregorian calendar
/// within the years chrono's `NaiveDate` represents.
pub open spec fn calendar_date(year: i32, month: u8, day: u8) -> bool {
    &&& FIRST_YEAR <= year <= LAST_YEAR
    &&& 1 <= month <= 12
    &&& 1 <= day <= month_days(year as int, month as int)
}

/// The date after `year-month-day`, or `None` after the last one.
pub open spec fn next_calendar_date(year: i32, month: u8, day: u8) -> Option<(i32, u8, u8)> {
    if (day as int) < month_days(year as int, month as int) {
        Some((year, (month as int) as u8, (day + 1) as u8))
    } else if month < 12 {
        Some((year, (month + 1) as u8, 1u8))
    } else if year < LAST_YEAR {
        Some(((year + 1) as i32, 1u8, 1u8))
    } else {
        None
    }
}

/// Whether the year is a leap year.
fn is_leap_year(year: i32) -> (b: bool)
    ensures
        b == leap_year(year as int),
{
    let a: u64 = if year < 0 { (0i64 - year as i64) as u64 } else { year as u64 };
    proof {
        let y = year as int;
        let z = a as int;
        assert(z == y || z == -y);
        assert((z % 4 == 0) == (y % 4 == 0)) by (nonlinear_arith)
            requires
                z == y || z == -y,
        {
            if z == -y {
                vstd::arithmetic::div_mod::lemma_mod_multiples_vanish(0, y, 4);
            }
        }
        assert((z % 100 == 0) == (y % 100 == 0)) by (nonlinear_arith)
            requires
                z == y || z == -y,
        {
        }
        assert((z % 400 == 0) == (y % 400 == 0)) by (nonlinear_arith)
            requires
                z == y || z == -y,
        {
        }
    }
    a % 4 == 0 && (a % 100 != 0 || a % 400 == 0)
}

fn days_of_month(year: i32, month: u8) -> (n: u8)
    ensures
        n as int == month_days(year as int, month as int),
{
    if month == 2 {
        if is_leap_year(year) { 29 } else { 28 }
    } else if month == 4 || month == 6 || month == 9 || month == 11 {
        30
    } else {
        31
    }
}

/// The date-time one nanosecond after the given one in chrono's arithmetic,
/// or `None` past the last representable instant.
pub uninterp spec fn next_nanosecond(
    date: (i32, u8, u8),
    time: (u8, u8, u8, u32),
) -> Option<((i32, u8, u8), (u8, u8, u8, u32))>;

/// A valid time of day: leap seconds carry a nanosecond part of at least one
/// billion, and only in the 59th second of a minute.
pub open spec fn time_of_day(hour: u8, minute: u8, second: u8, nanosecond: u32) -> bool {
    &&& hour < 24
    &&& minute < 60
    &&& second < 60
    &&& nanosecond < 2_000_000_000
    &&& (nanosecond >= 1_000_000_000 ==> second == 59)
}

/// Whether `year-month-day` is a date of the calendar.
fn date_exists(year: i32, month: u8, day: u8) -> (exists: bool)
    ensures
        exists == calendar_date(year, month, day),
        exists ==> 1 <= month <= 12 && 1 <= day <= 31,
{
    FIRST_YEAR <= year && year <= LAST_YEAR && 1 <= month && month <= 12 && 1 <= day && day <= days_of_month(year, month)
}

/// The following date; a following date is itself a date and comes later.
fn next_date(year: i32, month: u8, day: u8) -> (next: Option<(i32, u8, u8)>)
    requires
        calendar_date(year, month, day),
    ensures
        next == next_calendar_date(year, month, day),
        next matches Some(n) ==> calendar_date(n.0, n.1, n.2) && ymd_lt(
            (year, month, day),
            n,
        ),
{
    if day < days_of_month(year, month) {
        Some((year, month, day + 1))
    } else if month < 12 {
        Some((year, month + 1, 1))
    } else if year < LAST_YEAR {
        Some((year + 1, 1, 1))
    } else {
        None
    }
}

/// Adds one nanosecond with `chrono::NaiveDateTime::checked_add_signed`.
///
/// Claimed: the result is the name `next_nanosecond`; a result is a valid
/// date-time that comes later than the argument.
#[verifier::external_body]
fn chrono_next_nanosecond(date: (i32, u8, u8), time: (u8, u8, u8, u32)) -> (next: Option<
    ((i32, u8, u8), (u8, u8, u8, u32)),
>)
    requires
        calendar_date(date.0, date.1, date.2),
        time_of_day(time.0, time.1, time.2, time.3),
    ensures
        next == next_nanosecond(date, time),
        next matches Some(n) ==> calendar_date(n.0.0, n.0.1, n.0.2) && time_of_day(
            n.1.0,
            n.1.1,
            n.1.2,
            n.1.3,
        ) && instant_lt(
            TemporalInstant::of(date, time),
            TemporalInstant::of(n.0, n.1),
        ),
{
    chrono::NaiveDate::from_ymd_opt(date.0, date.1 as u32, date.2 as u32)
        .and_then(|d| d.and_hms_nano_opt(time.0 as u32, time.1 as u32, time.2 as u32, time.3))
        .and_then(|dt| dt.checked_add_signed(chrono::TimeDelta::nanoseconds(1)))
        .map(
            |next| (
                (next.year(), next.month() as u8, next.day() as u8),
                (next.hour() as u8, next.minute() as u8, next.second() as u8, next.nanosecond()),
            ),
        )
}

/// Reads the current UTC date-time from `SystemTime::now`, measured from the
/// Unix epoch and read with `chrono::DateTime::from_timestamp`.
///
/// Claimed: when there is an answer, its parts form a valid date-time. There
/// is none when the clock reads before the epoch or past chrono's range; the
/// value itself depends on the clock.
#[verifier::external_body]
fn chrono_utc_now() -> (now: Option<((i32, u8, u8), (u8, u8, u8, u32))>)
    ensures
        now matches Some(n) ==> calendar_date(n.0.0, n.0.1, n.0.2) && time_of_day(n.1.0, n.1.1, n.1.2, n.1.3),
{
    let since = std::time::SystemTime::now().duration_since(std::time::UNIX_EPOCH).ok()?;
    let seconds = i64::try_from(since.as_secs()).ok()?;
    let now = chrono::DateTime::from_timestamp(seconds, since.subsec_nanos())?.naive_utc();
    Some((
        (now.year(), now.month() as u8, now.day() as u8),
        (now.hour() as u8, now.minute() as u8, now.second() as u8, now.nanosecond()),
    ))
}

/// Lexicographic order of (year, month, day).
pub open spec fn ymd_lt(a: (i32, u8, u8), b: (i32, u8, u8)) -> bool {
    a.0 < b.0 || (a.0 == b.0 && (a.1 < b.1 || (a.1 == b.1 && a.2 < b.2)))
}

/// A calendar date that chrono accepts.
#[derive(Debug, Clone, Copy, PartialEq, Eq, Structural, Hash)]
pub struct CalendarDate {
    year: i32,
    month: u8,
    day: u8,
}

impl CalendarDate {
    #[verifier::type_invariant]
    spec fn valid(self) -> bool {
        &&& calendar_date(self.year, self.month, self.day)
        &&& 1 <= self.month <= 12
        &&& 1 <= self.day <= 31
    }

    pub closed spec fn parts(self) -> (i32, u8, u8) {
        (self.year, self.month, self.day)
    }

    /// The year, month and day, which chrono accepts as a date.
    pub fn ymd(&self) -> (r: (i32, u8, u8))
        ensures
            r == self.parts(),
            calendar_date(r.0, r.1, r.2),
            1 <= r.1 <= 12,
            1 <= r.2 <= 31,
    {
        proof {
            use_type_invariant(self);
        }
        (self.year, self.month, self.day)
    }

    /// The date `year-month-day`, or `None` when chrono rejects it.
    pub fn new(year: i32, month: u8, day: u8) -> (date: Option<Self>)
        ensures
            date is Some <==> calendar_date(year, month, day),
            date matches Some(d) ==> d.parts() == (year, month, day),
    {
        if date_exists(year, month, day) {
            Some(Self { year, month, day })
        } else {
            None
        }
    }

    pub fn year(&self) -> (y: i32)
        ensures
            y == self.parts().0,
    {
        self.year
    }

    pub fn month(&self) -> (m: u8)
        ensures
            m == self.parts().1,
    {
        self.month
    }

    pub fn day(&self) -> (d: u8)
        ensures
            d == self.parts().2,
    {
        self.day
    }
}


/// Dates with the same year, month and day are the same date.
pub proof fn dates_equal_by_parts(a: CalendarDate, b: CalendarDate)
    requires
        a.parts() == b.parts(),
    ensures
        a == b,
{
}

/// A UTC date-time that chrono accepts, to the nanosecond.
#[derive(Debug, Clone, Copy, PartialEq, Eq, Structural, Hash)]
pub struct CalendarDateTime {
    date: CalendarDate,
    hour: u8,
    minute: u8,
    second: u8,
    nanosecond: u32,
}

impl CalendarDateTime {
    #[verifier::type_invariant]
    spec fn valid(self) -> bool {
        time_of_day(self.hour, self.minute, self.second, self.nanosecond)
    }

    pub closed spec fn date_parts(self) -> (i32, u8, u8) {
        self.date.parts()
    }

    pub closed spec fn time_parts(self) -> (u8, u8, u8, u32) {
        (self.hour, self.minute, self.second, self.nanosecond)
    }

    /// The hour, minute, second and nanosecond, which form a valid time of day.
    pub fn hms_nano(&self) -> (r: (u8, u8, u8, u32))
        ensures
            r == self.time_parts(),
            time_of_day(r.0, r.1, r.2, r.3),
    {
        proof {
            use_type_invariant(self);
        }
        (self.hour, self.minute, self.second, self.nanosecond)
    }

    /// Combines a date with a time of day, or `None` for an invalid time of day.
    pub fn new(date: CalendarDate, hour: u8, minute: u8, second: u8, nanosecond: u32) -> (dt: Option<Self>)
        ensures
            dt is Some <==> time_of_day(hour, minute, second, nanosecond),
            dt matches Some(v) ==> v.date_parts() == date.parts() && v.time_parts() == (
                hour,
                minute,
                second,
                nanosecond,
            ),
    {
        if hour < 24 && minute < 60 && second < 60 && nanosecond < 2_000_000_000 && (nanosecond
            < 1_000_000_000 || second == 59) {
            Some(Self { date, hour, minute, second, nanosecond })
        } else {
            None
        }
    }

    pub fn date(&self) -> (d: CalendarDate)
        ensures
            d.parts() == self.date_parts(),
    {
        self.date
    }

    pub fn hour(&self) -> (h: u8)
        ensures
            h == self.time_parts().0,
    {
        self.hour
    }

    pub fn minute(&self) -> (m: u8)
        ensures
            m == self.time_parts().1,
    {
        self.minute
    }

    pub fn second(&self) -> (s: u8)
        ensures
            s == self.time_parts().2,
    {
        self.second
    }

    pub fn nanosecond(&self) -> (n: u32)
        ensures
            n == self.time_parts().3,
    {
        self.nanosecond
    }
}

/// Date-times with the same date and time of day are the same date-time.
pub proof fn date_times_equal_by_parts(a: CalendarDateTime, b: CalendarDateTime)
    requires
        a.date_parts() == b.date_parts(),
        a.time_parts() == b.time_parts(),
    ensures
        a == b,
{
}

// ---------------------------------------------------------------------------
// Time
// ---------------------------------------------------------------------------

/// The stored precision of the date `year-month-day`.
pub closed spec fn date_moment(year: i32, month: u8, day: u8) -> TimeType {
    TimeType::Date(CalendarDate { year, month, day })
}

/// The stored precision of the date-time with the given date and time of day.
pub closed spec fn datetime_moment(date: (i32, u8, u8), time: (u8, u8, u8, u32)) -> TimeType {
    TimeType::DateTime(
        CalendarDateTime {
            date: CalendarDate { year: date.0, month: date.1, day: date.2 },
            hour: time.0,
            minute: time.1,
            second: time.2,
            nanosecond: time.3,
        },
    )
}

/// The time at the date `year-month-day`, or `None` when chrono has no such
/// date.
pub fn date_time_of(year: i32, month: u8, day: u8) -> (t: Option<Time>)
    ensures
        t is Some <==> calendar_date(year, month, day),
        t matches Some(t) ==> t.moment_spec() == date_moment(year, month, day),
{
    match CalendarDate::new(year, month, day) {
        Some(date) => Some(Time { moment: TimeType::Date(date) }),
        None => None,
    }
}

/// The time at the given date and time of day, or `None` when chrono has no
/// such date-time.
pub fn datetime_time_of(date: (i32, u8, u8), time: (u8, u8, u8, u32)) -> (t: Option<Time>)
    ensures
        t is Some <==> calendar_date(date.0, date.1, date.2) && time_of_day(time.0, time.1, time.2, time.3),
        t matches Some(t) ==> t.moment_spec() == datetime_moment(date, time),
{
    let day = match CalendarDate::new(date.0, date.1, date.2) {
        Some(day) => day,
        None => {
            return None;
        },
    };
    match CalendarDateTime::new(day, time.0, time.1, time.2, time.3) {
        Some(dt) => Some(Time { moment: TimeType::DateTime(dt) }),
        None => None,
    }
}

/// Times of the same moment are the same time.
pub proof fn times_equal_by_moment(a: Time, b: Time)
    requires
        a.moment_spec() == b.moment_spec(),
    ensures
        a == b,
{
}

/// The stored precision of a time, with the two abstract sentinels.
#[derive(Debug, Clone, Copy, PartialEq, Eq, Structural, Hash)]
pub enum TimeType {
    BeginningOfTime,
    EndOfTime,
    Year(i32),
    YearMonth(i32, u8),
    Date(CalendarDate),
    DateTime(CalendarDateTime),
}

/// A time as entered: its precision is part of the value.
#[derive(Debug, Clone, Copy, PartialEq, Eq, Structural, Hash)]
pub struct Time {
    moment: TimeType,
}

/// A point on the instant line (fields compared lexicographically).
#[derive(Debug, Clone, Copy, PartialEq, Eq, Structural)]
pub struct TemporalInstant {
    pub year: i32,
    pub month: u8,
    pub day: u8,
    pub hour: u8,
    pub minute: u8,
    pub second: u8,
    pub nanosecond: u32,
}

/// An interval bound: an instant, or one of the two infinities.
#[derive(Debug, Clone, Copy, PartialEq, Eq, Structural)]
pub enum TemporalBound {
    NegativeInfinity,
    Finite(TemporalInstant),
    PositiveInfinity,
}

/// The half-open interval `[start, end)` of instants a time denotes.
#[derive(Debug, Clone, Copy, PartialEq, Eq, Structural)]
pub struct TimeInterval {
    pub start: TemporalBound,
    pub end: TemporalBound,
}

impl TemporalInstant {
    pub open spec fn of(date: (i32, u8, u8), time: (u8, u8, u8, u32)) -> Self {
        TemporalInstant {
            year: date.0,
            month: date.1,
            day: date.2,
            hour: time.0,
            minute: time.1,
            second: time.2,
            nanosecond: time.3,
        }
    }

    /// The first instant of `year`.
    pub fn start_of_year(year: i32) -> (i: Self)
        ensures
            i == Self::of((year, 1, 1), (0, 0, 0, 0)),
    {
        Self { year, month: 1, day: 1, hour: 0, minute: 0, second: 0, nanosecond: 0 }
    }

    /// The first instant of `year-month`.
    pub fn start_of_month(year: i32, month: u8) -> (i: Self)
        ensures
            i == Self::of((year, month, 1), (0, 0, 0, 0)),
    {
        Self { month, ..Self::start_of_year(year) }
    }

    fn from_date(date: (i32, u8, u8)) -> (i: Self)
        ensures
            i == Self::of(date, (0, 0, 0, 0)),
    {
        Self { year: date.0, month: date.1, day: date.2, hour: 0, minute: 0, second: 0, nanosecond: 0 }
    }

    fn from_datetime(date: (i32, u8, u8), time: (u8, u8, u8, u32)) -> (i: Self)
        ensures
            i == Self::of(date, time),
    {
        Self {
            year: date.0,
            month: date.1,
            day: date.2,
            hour: time.0,
            minute: time.1,
            second: time.2,
            nanosecond: time.3,
        }
    }
}

/// Strict lexicographic order of instants.
pub open spec fn instant_lt(a: TemporalInstant, b: TemporalInstant) -> bool {
    ||| a.year < b.year
    ||| a.year == b.year && a.month < b.month
    ||| a.year == b.year && a.month == b.month && a.day < b.day
    ||| a.year == b.year && a.month == b.month && a.day == b.day && a.hour < b.hour
    ||| a.year == b.year && a.month == b.month && a.day == b.day && a.hour == b.hour && a.minute
        < b.minute
    ||| a.year == b.year && a.month == b.month && a.day == b.day && a.hour == b.hour && a.minute
        == b.minute && a.second < b.second
    ||| a.year == b.year && a.month == b.month && a.day == b.day && a.hour == b.hour && a.minute
        == b.minute && a.second == b.second && a.nanosecond < b.nanosecond
}

/// Strict order of bounds: negative infinity, then instants, then positive infinity.
pub open spec fn bound_lt(a: TemporalBound, b: TemporalBound) -> bool {
    match (a, b) {
        (TemporalBound::NegativeInfinity, TemporalBound::NegativeInfinity) => false,
        (TemporalBound::NegativeInfinity, _) => true,
        (TemporalBound::Finite(x), TemporalBound::Finite(y)) => instant_lt(x, y),
        (TemporalBound::Finite(_), TemporalBound::PositiveInfinity) => true,
        _ => false,
    }
}

pub open spec fn bound_le(a: TemporalBound, b: TemporalBound) -> bool {
    a == b || bound_lt(a, b)
}

/// The strict order of bounds is irreflexive and asymmetric.
pub proof fn lemma_bound_lt_asymmetric(a: TemporalBound, b: TemporalBound)
    ensures
        !bound_lt(a, a),
        bound_lt(a, b) ==> !bound_le(b, a),
{
}

fn instant_less(a: &TemporalInstant, b: &TemporalInstant) -> (r: bool)
    ensures
        r == instant_lt(*a, *b),
{
    if a.year != b.year {
        return a.year < b.year;
    }
    if a.month != b.month {
        return a.month < b.month;
    }
    if a.day != b.day {
        return a.day < b.day;
    }
    if a.hour != b.hour {
        return a.hour < b.hour;
    }
    if a.minute != b.minute {
        return a.minute < b.minute;
    }
    if a.second != b.second {
        return a.second < b.second;
    }
    a.nanosecond < b.nanosecond
}

fn bound_less(a: &TemporalBound, b: &TemporalBound) -> (r: bool)
    ensures
        r == bound_lt(*a, *b),
{
    match (a, b) {
        (TemporalBound::NegativeInfinity, TemporalBound::NegativeInfinity) => false,
        (TemporalBound::NegativeInfinity, _) => true,
        (TemporalBound::Finite(x), TemporalBound::Finite(y)) => instant_less(x, y),
        (TemporalBound::Finite(_), TemporalBound::PositiveInfinity) => true,
        _ => false,
    }
}

fn bound_at_most(a: &TemporalBound, b: &TemporalBound) -> (r: bool)
    ensures
        r == bound_le(*a, *b),
{
    *a == *b || bound_less(a, b)
}

/// The instant after which the given year ends, if it is representable.
pub open spec fn year_end(year: i32) -> TemporalBound {
    if year < i32::MAX {
        TemporalBound::Finite(TemporalInstant::of(((year + 1) as i32, 1, 1), (0, 0, 0, 0)))
    } else {
        TemporalBound::PositiveInfinity
    }
}

pub open spec fn month_end(year: i32, month: u8) -> TemporalBound {
    if month == 12 {
        year_end(year)
    } else {
        TemporalBound::Finite(TemporalInstant::of((year, (month + 1) as u8, 1), (0, 0, 0, 0)))
    }
}

/// A precision and parts that a `Time` may hold: a year-month names one of
/// the twelve months.
pub open spec fn valid_moment(moment: TimeType) -> bool {
    moment matches TimeType::YearMonth(_, month) ==> 1 <= month <= 12
}

impl Time {
    #[verifier::type_invariant]
    spec fn valid(self) -> bool {
        valid_moment(self.moment)
    }

    pub closed spec fn moment_spec(self) -> TimeType {
        self.moment
    }

    /// The interval of instants this time covers.
    pub open spec fn interval_spec(self) -> TimeInterval {
        match self.moment_spec() {
            TimeType::BeginningOfTime => TimeInterval {
                start: TemporalBound::NegativeInfinity,
                end: TemporalBound::NegativeInfinity,
            },
            TimeType::EndOfTime => TimeInterval {
                start: TemporalBound::PositiveInfinity,
                end: TemporalBound::PositiveInfinity,
            },
            TimeType::Year(year) => TimeInterval {
                start: TemporalBound::Finite(TemporalInstant::of((year, 1, 1), (0, 0, 0, 0))),
                end: year_end(year),
            },
            TimeType::YearMonth(year, month) => TimeInterval {
                start: TemporalBound::Finite(TemporalInstant::of((year, month, 1), (0, 0, 0, 0))),
                end: month_end(year, month),
            },
            TimeType::Date(date) => TimeInterval {
                start: TemporalBound::Finite(TemporalInstant::of(date.parts(), (0, 0, 0, 0))),
                end: match next_calendar_date(date.parts().0, date.parts().1, date.parts().2) {
                    Some(next) => TemporalBound::Finite(TemporalInstant::of(next, (0, 0, 0, 0))),
                    None => TemporalBound::PositiveInfinity,
                },
            },
            TimeType::DateTime(dt) => TimeInterval {
                start: TemporalBound::Finite(TemporalInstant::of(dt.date_parts(), dt.time_parts())),
                end: match next_nanosecond(dt.date_parts(), dt.time_parts()) {
                    Some(next) => TemporalBound::Finite(TemporalInstant::of(next.0, next.1)),
                    None => TemporalBound::PositiveInfinity,
                },
            },
        }
    }

    /// A time at the given precision.
    pub fn from_time_type(moment: TimeType) -> (t: Time)
        requires
            valid_moment(moment),
        ensures
            t.moment_spec() == moment,
    {
        Time { moment }
    }

    /// The stored precision and parts.
    pub fn time_type(&self) -> (moment: TimeType)
        ensures
            moment == self.moment_spec(),
            valid_moment(moment),
    {
        proof {
            use_type_invariant(self);
        }
        self.moment
    }

    /// The current UTC time, to the nanosecond; `None` when the system clock
    /// reads before the Unix epoch.
    pub fn new() -> (t: Option<Time>)
        ensures
            t matches Some(now) ==> now.moment_spec() is DateTime,
    {
        let (date, time) = match chrono_utc_now() {
            Some(now) => now,
            None => {
                return None;
            },
        };
        let date = CalendarDate::new(date.0, date.1, date.2).unwrap();
        let datetime = CalendarDateTime::new(date, time.0, time.1, time.2, time.3).unwrap();
        Some(Time { moment: TimeType::DateTime(datetime) })
    }

    /// The abstract lower bound, before every instant.
    pub fn new_beginning_of_time() -> (t: Time)
        ensures
            t.moment_spec() == TimeType::BeginningOfTime,
    {
        Time { moment: TimeType::BeginningOfTime }
    }

    /// The abstract upper bound, after every instant.
    pub fn new_end_of_time() -> (t: Time)
        ensures
            t.moment_spec() == TimeType::EndOfTime,
    {
        Time { moment: TimeType::EndOfTime }
    }

    /// The interval of instants this time covers.
    pub fn interval(&self) -> (i: TimeInterval)
        ensures
            i == self.interval_spec(),
    {
        proof {
            use_type_invariant(self);
        }
        match self.moment {
            TimeType::BeginningOfTime => TimeInterval {
                start: TemporalBound::NegativeInfinity,
                end: TemporalBound::NegativeInfinity,
            },
            TimeType::EndOfTime => TimeInterval {
                start: TemporalBound::PositiveInfinity,
                end: TemporalBound::PositiveInfinity,
            },
            TimeType::Year(year) => TimeInterval {
                start: TemporalBound::Finite(TemporalInstant::start_of_year(year)),
                end: if year < i32::MAX {
                    TemporalBound::Finite(TemporalInstant::start_of_year(year + 1))
                } else {
                    TemporalBound::PositiveInfinity
                },
            },
            TimeType::YearMonth(year, month) => {
                let end = if month == 12 {
                    if year < i32::MAX {
                        TemporalBound::Finite(TemporalInstant::start_of_month(year + 1, 1))
                    } else {
                        TemporalBound::PositiveInfinity
                    }
                } else {
                    TemporalBound::Finite(TemporalInstant::start_of_month(year, month + 1))
                };
                TimeInterval { start: TemporalBound::Finite(TemporalInstant::start_of_month(year, month)), end }
            },
            TimeType::Date(date) => {
                let parts = date.ymd();
                let end = match next_date(parts.0, parts.1, parts.2) {
                    Some(next) => TemporalBound::Finite(TemporalInstant::from_date(next)),
                    None => TemporalBound::PositiveInfinity,
                };
                TimeInterval { start: TemporalBound::Finite(TemporalInstant::from_date(parts)), end }
            },
            TimeType::DateTime(dt) => {
                let date = dt.date().ymd();
                let time = dt.hms_nano();
                let end = match chrono_next_nanosecond(date, time) {
                    Some(next) => TemporalBound::Finite(TemporalInstant::from_datetime(next.0, next.1)),
                    None => TemporalBound::PositiveInfinity,
                };
                TimeInterval { start: TemporalBound::Finite(TemporalInstant::from_datetime(date, time)), end }
            },
        }
    }

    pub open spec fn definitely_before_spec(self, other: Time) -> bool {
        self != other && bound_le(self.interval_spec().end, other.interval_spec().start)
    }

    pub open spec fn definitely_after_spec(self, other: Time) -> bool {
        self != other && bound_le(other.interval_spec().end, self.interval_spec().start)
    }

    pub open spec fn overlaps_spec(self, other: Time) -> bool {
        bound_lt(self.interval_spec().start, other.interval_spec().end) && bound_lt(
            other.interval_spec().start,
            self.interval_spec().end,
        )
    }

    pub open spec fn contains_spec(self, other: Time) -> bool {
        bound_le(self.interval_spec().start, other.interval_spec().start) && bound_le(
            other.interval_spec().end,
            self.interval_spec().end,
        )
    }

    /// A time that is definitely before another does not overlap it, nor
    /// does the later one overlap the earlier: adjacent half-open intervals
    /// share no instant.
    pub proof fn definitely_before_never_overlaps(a: Time, b: Time)
        requires
            a.definitely_before_spec(b),
        ensures
            !a.overlaps_spec(b),
            !b.overlaps_spec(a),
            b.definitely_after_spec(a),
    {
        lemma_bound_lt_asymmetric(b.interval_spec().start, a.interval_spec().end);
    }

    /// Every instant of `self` precedes every instant of `other`.
    pub fn definitely_before(&self, other: &Self) -> (r: bool)
        ensures
            r == self.definitely_before_spec(*other),
    {
        *self != *other && bound_at_most(&self.interval().end, &other.interval().start)
    }

    /// Every instant of `self` follows every instant of `other`.
    pub fn definitely_after(&self, other: &Self) -> (r: bool)
        ensures
            r == self.definitely_after_spec(*other),
    {
        *self != *other && bound_at_most(&other.interval().end, &self.interval().start)
    }

    /// Conservative `<=`: equal stored times, or `self` definitely before `other`.
    pub fn definitely_at_or_before(&self, other: &Self) -> (r: bool)
        ensures
            r == (*self == *other || self.definitely_before_spec(*other)),
    {
        *self == *other || self.definitely_before(other)
    }

    /// Conservative `>=`: equal stored times, or `self` definitely after `other`.
    pub fn definitely_at_or_after(&self, other: &Self) -> (r: bool)
        ensures
            r == (*self == *other || self.definitely_after_spec(*other)),
    {
        *self == *other || self.definitely_after(other)
    }

    /// Some instant of `self` may precede an instant of `other`.
    pub fn possibly_before(&self, other: &Self) -> (r: bool)
        ensures
            r == bound_lt(self.interval_spec().start, other.interval_spec().end),
    {
        bound_less(&self.interval().start, &other.interval().end)
    }

    /// Some instant of `self` may follow an instant of `other`.
    pub fn possibly_after(&self, other: &Self) -> (r: bool)
        ensures
            r == bound_lt(other.interval_spec().start, self.interval_spec().end),
    {
        bound_less(&other.interval().start, &self.interval().end)
    }

    /// The two half-open intervals intersect.
    pub fn overlaps(&self, other: &Self) -> (r: bool)
        ensures
            r == self.overlaps_spec(*other),
    {
        let lhs = self.interval();
        let rhs = other.interval();
        bound_less(&lhs.start, &rhs.end) && bound_less(&rhs.start, &lhs.end)
    }

    /// `self` covers the whole interval of `other`.
    pub fn contains(&self, other: &Self) -> (r: bool)
        ensures
            r == self.contains_spec(*other),
    {
        let lhs = self.interval();
        let rhs = other.interval();
        bound_at_most(&lhs.start, &rhs.start) && bound_at_most(&rhs.end, &lhs.end)
    }

    /// `self` lies within the interval of `other`.
    pub fn within(&self, other: &Self) -> (r: bool)
        ensures
            r == other.contains_spec(*self),
    {
        other.contains(self)
    }
}

/// The text chrono's `NaiveDate` prints for a date.
pub uninterp spec fn chrono_date_display(year: i32, month: u8, day: u8) -> Seq<char>;

/// The text chrono's `NaiveDateTime` prints for a date and time of day.
pub uninterp spec fn chrono_datetime_display(date: (i32, u8, u8), time: (u8, u8, u8, u32)) -> Seq<char>;

/// Prints a date with chrono's `Display` for `NaiveDate`.
///
/// Claimed: the text is the name `chrono_date_display` of the date; its
/// digits and separators are not stated.
#[verifier::external_body]
fn chrono_date_text(year: i32, month: u8, day: u8) -> (text: String)
    requires
        calendar_date(year, month, day),
    ensures
        text@ == chrono_date_display(year, month, day),
{
    chrono::NaiveDate::from_ymd_opt(year, month as u32, day as u32).map(|d| d.to_string()).unwrap_or_default()
}

/// Prints a date and time of day with chrono's `Display` for
/// `NaiveDateTime`.
///
/// Claimed: the text is the name `chrono_datetime_display` of the parts;
/// its digits and separators are not stated.
#[verifier::external_body]
fn chrono_datetime_text(date: (i32, u8, u8), time: (u8, u8, u8, u32)) -> (text: String)
    requires
        calendar_date(date.0, date.1, date.2),
        time_of_day(time.0, time.1, time.2, time.3),
    ensures
        text@ == chrono_datetime_display(date, time),
{
    chrono::NaiveDate::from_ymd_opt(date.0, date.1 as u32, date.2 as u32)
        .and_then(|d| d.and_hms_nano_opt(time.0 as u32, time.1 as u32, time.2 as u32, time.3))
        .map(|dt| dt.to_string())
        .unwrap_or_default()
}

/// Two decimal digits of a number below one hundred.
pub open spec fn two_digits(n: u8) -> Seq<char> {
    if n < 10 {
        seq!['0'] + decimal_text(n as nat)
    } else {
        decimal_text(n as nat)
    }
}

/// The text a time prints as.
pub open spec fn time_text(m: TimeType) -> Seq<char> {
    match m {
        TimeType::BeginningOfTime => "BOT"@,
        TimeType::EndOfTime => "EOT"@,
        TimeType::Year(year) => int_text(year as int),
        TimeType::YearMonth(year, month) => int_text(year as int) + "-"@ + two_digits(month),
        TimeType::Date(d) => chrono_date_display(d.parts().0, d.parts().1, d.parts().2),
        TimeType::DateTime(dt) => chrono_datetime_display(dt.date_parts(), dt.time_parts()),
    }
}

impl Time {
    /// The text of the time: `BOT`, `EOT`, the year, the year and two-digit
    /// month joined by a hyphen, or chrono's text of the date or date-time.
    pub fn to_string(&self) -> (s: String)
        ensures
            s@ == time_text(self.moment_spec()),
    {
        proof {
            reveal_strlit("BOT");
            reveal_strlit("EOT");
            reveal_strlit("-");
            reveal_strlit("0");
        }
        match self.time_type() {
            TimeType::BeginningOfTime => String::from_str("BOT"),
            TimeType::EndOfTime => String::from_str("EOT"),
            TimeType::Year(year) => {
                let mut s = String::new();
                push_int(&mut s, year as i64);
                s
            },
            TimeType::YearMonth(year, month) => {
                let mut s = String::new();
                push_int(&mut s, year as i64);
                s.append("-");
                if month < 10 {
                    s.append("0");
                }
                push_decimal(&mut s, month as u64);
                s
            },
            TimeType::Date(date) => {
                let (year, month, day) = date.ymd();
                chrono_date_text(year, month, day)
            },
            TimeType::DateTime(datetime) => {
                let date = datetime.date().ymd();
                let time = datetime.hms_nano();
                chrono_datetime_text(date, time)
            },
        }
    }
}

/// `earlier` is strictly dominated by `later`: every instant of `earlier`
/// precedes every instant of `later`, so a snapshot that holds both keeps
/// only `later`.
pub fn time_is_strictly_dominated(earlier: &Time, later: &Time) -> (r: bool)
    ensures
        r == earlier.definitely_before_spec(*later),
{
    earlier.definitely_before(later)
}

// ---------------------------------------------------------------------------
// The order of stored times
// ---------------------------------------------------------------------------

/// The place of a precision in the order of stored times.
pub open spec fn precision_rank(m: TimeType) -> int {
    match m {
        TimeType::BeginningOfTime => 0,
        TimeType::EndOfTime => 1,
        TimeType::Year(_) => 2,
        TimeType::YearMonth(_, _) => 3,
        TimeType::Date(_) => 4,
        TimeType::DateTime(_) => 5,
    }
}

/// Lexicographic order of hour, minute, second and nanosecond.
pub open spec fn hmsn_lt(a: (u8, u8, u8, u32), b: (u8, u8, u8, u32)) -> bool {
    a.0 < b.0 || (a.0 == b.0 && (a.1 < b.1 || (a.1 == b.1 && (a.2 < b.2 || (a.2 == b.2 && a.3 < b.3)))))
}

/// The order in which stored times sort: by precision (the two sentinels,
/// then years, months, dates and date-times), then by their parts.
pub open spec fn stored_before(a: Time, b: Time) -> bool {
    let x = a.moment_spec();
    let y = b.moment_spec();
    if precision_rank(x) != precision_rank(y) {
        precision_rank(x) < precision_rank(y)
    } else {
        match (x, y) {
            (TimeType::Year(p), TimeType::Year(q)) => p < q,
            (TimeType::YearMonth(p, m), TimeType::YearMonth(q, n)) => p < q || (p == q && m < n),
            (TimeType::Date(d), TimeType::Date(e)) => ymd_lt(d.parts(), e.parts()),
            (TimeType::DateTime(d), TimeType::DateTime(e)) => ymd_lt(d.date_parts(), e.date_parts()) || (
            d.date_parts() == e.date_parts() && hmsn_lt(d.time_parts(), e.time_parts())),
            _ => false,
        }
    }
}

/// `a` is definitely before `b` exactly when `b` is definitely after `a`;
/// overlapping is symmetric; `a` lies within `b` exactly when `b` contains
/// `a`; and a time is never definitely before itself.
pub proof fn time_comparisons_are_dual(a: Time, b: Time)
    ensures
        a.definitely_before_spec(b) == b.definitely_after_spec(a),
        a.overlaps_spec(b) == b.overlaps_spec(a),
        !a.definitely_before_spec(a),
        !a.definitely_after_spec(a),
{
}

/// The order of stored times is a strict order: no time sorts before
/// itself, and sorting before is transitive.
pub proof fn stored_order_is_strict(a: Time, b: Time, c: Time)
    ensures
        !stored_before(a, a),
        stored_before(a, b) && stored_before(b, c) ==> stored_before(a, c),
{
}

impl Time {
    /// Whether `self` sorts before `other` among stored times.
    pub fn sorts_before(&self, other: &Self) -> (r: bool)
        ensures
            r == stored_before(*self, *other),
    {
        match (self.moment, other.moment) {
            (TimeType::BeginningOfTime, TimeType::BeginningOfTime) => false,
            (TimeType::BeginningOfTime, _) => true,
            (TimeType::EndOfTime, TimeType::BeginningOfTime) => false,
            (TimeType::EndOfTime, TimeType::EndOfTime) => false,
            (TimeType::EndOfTime, _) => true,
            (TimeType::Year(p), TimeType::Year(q)) => p < q,
            (TimeType::Year(_), TimeType::BeginningOfTime) => false,
            (TimeType::Year(_), TimeType::EndOfTime) => false,
            (TimeType::Year(_), _) => true,
            (TimeType::YearMonth(p, m), TimeType::YearMonth(q, n)) => p < q || (p == q && m < n),
            (TimeType::YearMonth(_, _), TimeType::Date(_)) => true,
            (TimeType::YearMonth(_, _), TimeType::DateTime(_)) => true,
            (TimeType::YearMonth(_, _), _) => false,
            (TimeType::Date(d), TimeType::Date(e)) => {
                let x = d.ymd();
                let y = e.ymd();
                x.0 < y.0 || (x.0 == y.0 && (x.1 < y.1 || (x.1 == y.1 && x.2 < y.2)))
            },
            (TimeType::Date(_), TimeType::DateTime(_)) => true,
            (TimeType::Date(_), _) => false,
            (TimeType::DateTime(d), TimeType::DateTime(e)) => {
                let x = d.date().ymd();
                let y = e.date().ymd();
                if x.0 < y.0 || (x.0 == y.0 && (x.1 < y.1 || (x.1 == y.1 && x.2 < y.2))) {
                    true
                } else if x.0 == y.0 && x.1 == y.1 && x.2 == y.2 {
                    let u = d.hms_nano();
                    let v = e.hms_nano();
                    u.0 < v.0 || (u.0 == v.0 && (u.1 < v.1 || (u.1 == v.1 && (u.2 < v.2 || (u.2 == v.2 && u.3 < v.3)))))
                } else {
                    false
                }
            },
            (TimeType::DateTime(_), _) => false,
        }
    }
}

} // verus!
