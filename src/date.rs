use vstd::prelude::*;
use crate::text::{
    all_digits, digits_value, fixed_digits, is_digit, lemma_fixed_digits, pow10,
    push_fixed_digits,
};
use chrono::Datelike;

verus! {

/// A day of the proleptic Gregorian calendar, as year, month and day.
#[derive(Clone, Copy, Debug, PartialEq, Eq, Structural)]
pub struct CalDate {
    pub year: i32,
    pub month: u32,
    pub day: u32,
}

/// The first and last years that the calendar library can represent.
pub const MIN_YEAR: i32 = -262143;
pub const MAX_YEAR: i32 = 262142;

pub open spec fn is_leap(y: int) -> bool {
    y % 4 == 0 && (y % 100 != 0 || y % 400 == 0)
}

pub open spec fn days_in_month(y: int, m: int) -> int {
    if m == 2 {
        if is_leap(y) { 29 } else { 28 }
    } else if m == 4 || m == 6 || m == 9 || m == 11 {
        30
    } else {
        31
    }
}

/// Whether year, month and day name a day of the calendar.
pub open spec fn calendar_valid(y: int, m: int, d: int) -> bool {
    &&& MIN_YEAR <= y <= MAX_YEAR
    &&& 1 <= m <= 12
    &&& 1 <= d <= days_in_month(y, m)
}

/// Days of the year before the first of month `m`.
pub open spec fn days_before_month(y: int, m: int) -> int {
    let base: int = if m == 1 { 0 }
        else if m == 2 { 31 }
        else if m == 3 { 59 }
        else if m == 4 { 90 }
        else if m == 5 { 120 }
        else if m == 6 { 151 }
        else if m == 7 { 181 }
        else if m == 8 { 212 }
        else if m == 9 { 243 }
        else if m == 10 { 273 }
        else if m == 11 { 304 }
        else { 334 };
    base + if m > 2 && is_leap(y) { 1int } else { 0int }
}

/// Days in the years before year `y`, counted from the first of January of year 1.
pub open spec fn days_before_year(y: int) -> int {
    365 * (y - 1) + (y - 1) / 4 - (y - 1) / 100 + (y - 1) / 400
}

impl CalDate {
    /// Whether this is a day of the calendar.
    pub open spec fn is_valid(self) -> bool {
        calendar_valid(self.year as int, self.month as int, self.day as int)
    }

    /// A day that a table can hold: its year has four digits.
    pub open spec fn wf(self) -> bool {
        self.is_valid() && 0 <= self.year <= 9999
    }

    /// The day's number, the first of January of year 1 being day 1.
    pub open spec fn day_number(self) -> int {
        days_before_year(self.year as int) + days_before_month(self.year as int, self.month as int)
            + self.day
    }

    /// The day after this one.
    pub open spec fn next(self) -> CalDate {
        if (self.day as int) < days_in_month(self.year as int, self.month as int) {
            CalDate { year: self.year, month: self.month, day: (self.day + 1) as u32 }
        } else if self.month < 12 {
            CalDate { year: self.year, month: (self.month + 1) as u32, day: 1 }
        } else {
            CalDate { year: (self.year + 1) as i32, month: 1, day: 1 }
        }
    }

    /// The day `n` days after this one.
    pub open spec fn plus(self, n: nat) -> CalDate
        decreases n,
    {
        if n == 0 {
            self
        } else {
            self.plus((n - 1) as nat).next()
        }
    }
}

/// The text of a day: four digits of year, two of month, two of day, with hyphens.
pub open spec fn date_text(d: CalDate) -> Seq<char> {
    fixed_digits(d.year as nat, 4) + seq!['-'] + fixed_digits(d.month as nat, 2) + seq!['-']
        + fixed_digits(d.day as nat, 2)
}

/// The day that a text of the form `YYYY-MM-DD` names, if it is one.
pub open spec fn date_of_text(s: Seq<char>) -> Option<CalDate> {
    if s.len() == 10 && s[4] == '-' && s[7] == '-' && all_digits(s.subrange(0, 4))
        && all_digits(s.subrange(5, 7)) && all_digits(s.subrange(8, 10)) {
        let y = digits_value(s.subrange(0, 4));
        let m = digits_value(s.subrange(5, 7));
        let d = digits_value(s.subrange(8, 10));
        if calendar_valid(y, m, d) {
            Some(CalDate { year: y as i32, month: m as u32, day: d as u32 })
        } else {
            None
        }
    } else {
        None
    }
}

/// Relies on `chrono::NaiveDate::from_ymd_opt`: it makes a date exactly when
/// the year is in its range and the month and day exist in it.
#[verifier::external_body]
fn ymd_is_valid(y: i32, m: u32, d: u32) -> (r: bool)
    ensures
        r == calendar_valid(y as int, m as int, d as int),
{
    chrono::NaiveDate::from_ymd_opt(y, m, d).is_some()
}

/// Relies on `chrono::NaiveDate::succ_opt`: the next calendar day, which
/// exists for every day before the last year of its range.
#[verifier::external_body]
fn succ_date(x: CalDate) -> (r: Option<CalDate>)
    requires
        x.is_valid(),
        x.year < MAX_YEAR,
    ensures
        r == Some(x.next()),
{
    chrono::NaiveDate::from_ymd_opt(x.year, x.month, x.day)
        .and_then(|n| n.succ_opt())
        .map(|n| CalDate { year: n.year(), month: n.month(), day: n.day() })
}

/// Relies on `chrono::Datelike::num_days_from_ce`: the day's number, the
/// first of January of year 1 being day 1.
#[verifier::external_body]
fn days_from_ce(x: CalDate) -> (r: Option<i32>)
    requires
        x.is_valid(),
    ensures
        r is Some,
        r->0 == x.day_number(),
{
    chrono::NaiveDate::from_ymd_opt(x.year, x.month, x.day).map(|n| n.num_days_from_ce())
}

/// Relies on `chrono::Datelike::weekday` and `Weekday::num_days_from_monday`:
/// Monday is 0 and Sunday 6, the first of January of year 1 being a Monday.
#[verifier::external_body]
fn weekday_from_monday(x: CalDate) -> (r: Option<u32>)
    requires
        x.is_valid(),
    ensures
        r is Some,
        r->0 == (x.day_number() - 1) % 7,
{
    chrono::NaiveDate::from_ymd_opt(x.year, x.month, x.day).map(|n| n.weekday().num_days_from_monday())
}

impl CalDate {
    /// Whether the day is a Saturday or a Sunday.
    pub open spec fn is_weekend(self) -> bool {
        (self.day_number() - 1) % 7 >= 5
    }

    /// Whether the day is a Saturday or a Sunday.
    pub fn weekend(&self) -> (r: bool)
        requires
            self.is_valid(),
        ensures
            r == self.is_weekend(),
    {
        match weekday_from_monday(*self) {
            Some(w) => w >= 5,
            None => false,
        }
    }

    /// The day's number, the first of January of year 1 being day 1.
    pub fn number(&self) -> (r: i32)
        requires
            self.is_valid(),
        ensures
            r == self.day_number(),
    {
        match days_from_ce(*self) {
            Some(n) => n,
            None => 0,
        }
    }

    /// The day after this one.
    pub fn succ(&self) -> (r: CalDate)
        requires
            self.wf(),
        ensures
            r == self.next(),
            r.is_valid(),
            r.day_number() == self.day_number() + 1,
    {
        proof {
            lemma_next_day(*self);
        }
        match succ_date(*self) {
            Some(n) => n,
            None => *self,
        }
    }
}

proof fn lemma_step_div(y: int)
    ensures
        y / 4 - (y - 1) / 4 == (if y % 4 == 0 { 1int } else { 0 }),
        y / 100 - (y - 1) / 100 == (if y % 100 == 0 { 1int } else { 0 }),
        y / 400 - (y - 1) / 400 == (if y % 400 == 0 { 1int } else { 0 }),
{
}

/// A year has 365 days, 366 when it is a leap year.
pub proof fn lemma_year_length(y: int)
    ensures
        days_before_year(y + 1) == days_before_year(y) + 365 + (if is_leap(y) { 1int } else { 0 }),
{
    lemma_step_div(y);
}

/// The day after a day has the next number.
pub proof fn lemma_next_day(x: CalDate)
    requires
        x.is_valid(),
        x.year < MAX_YEAR,
    ensures
        x.next().is_valid(),
        x.next().day_number() == x.day_number() + 1,
{
    lemma_year_length(x.year as int);
}

proof fn lemma_days_before_year_monotone(a: int, b: int)
    requires
        a <= b,
    ensures
        days_before_year(a) <= days_before_year(b),
    decreases b - a,
{
    if a < b {
        lemma_year_length(b - 1);
        lemma_days_before_year_monotone(a, b - 1);
    }
}

/// A day of the year comes within the year's days.
proof fn lemma_within_year(x: CalDate)
    requires
        x.is_valid(),
    ensures
        days_before_year(x.year as int) < x.day_number(),
        x.day_number() <= days_before_year(x.year as int + 1),
{
    lemma_year_length(x.year as int);
}

/// A day numbered before another is not in a later year.
pub proof fn lemma_year_order(x: CalDate, z: CalDate)
    requires
        x.is_valid(),
        z.is_valid(),
        x.day_number() <= z.day_number(),
    ensures
        x.year <= z.year,
{
    lemma_within_year(x);
    lemma_within_year(z);
    if x.year > z.year {
        lemma_days_before_year_monotone(z.year as int + 1, x.year as int);
    }
}

/// Reads a day from text of the form `YYYY-MM-DD`.
pub fn parse_date(s: &[char]) -> (r: Option<CalDate>)
    ensures
        r == date_of_text(s@),
        r matches Some(d) ==> d.wf(),
{
    if s.len() != 10 || s[4] != '-' || s[7] != '-' {
        return None;
    }
    let y = read_fixed(s, 0, 4);
    let m = read_fixed(s, 5, 7);
    let d = read_fixed(s, 8, 10);
    match (y, m, d) {
        (Some(y), Some(m), Some(d)) => {
            if ymd_is_valid(y as i32, m, d) {
                Some(CalDate { year: y as i32, month: m, day: d })
            } else {
                None
            }
        },
        _ => None,
    }
}

/// The value of the digits `s[from..to]`, if they are all digits.
fn read_fixed(s: &[char], from: usize, to: usize) -> (r: Option<u32>)
    requires
        from <= to <= s@.len(),
        to - from <= 4,
    ensures
        match r {
            Some(v) => all_digits(s@.subrange(from as int, to as int)) && v as int
                == digits_value(s@.subrange(from as int, to as int)) && v < 10000,
            None => !all_digits(s@.subrange(from as int, to as int)),
        },
{
    let ghost t = s@.subrange(from as int, to as int);
    let mut acc: u32 = 0;
    let mut i: usize = from;
    while i < to
        invariant
            from <= i <= to,
            to <= s@.len(),
            to - from <= 4,
            t == s@.subrange(from as int, to as int),
            all_digits(t.take(i - from)),
            acc as int == digits_value(t.take(i - from)),
            acc < pow10((i - from) as nat),
        decreases to - i,
    {
        let c = s[i];
        let ghost k = (i - from) as int;
        if !(c >= '0' && c <= '9') {
            assert(!is_digit(t[k]));
            return None;
        }
        assert(t.take(k + 1).drop_last() =~= t.take(k));
        assert(t.take(k + 1).last() == c);
        assert(all_digits(t.take(k + 1))) by {
            assert forall|j: int| 0 <= j < k + 1 implies is_digit(#[trigger] t.take(k + 1)[j]) by {
                if j < k {
                    assert(t.take(k + 1)[j] == t.take(k)[j]);
                }
            }
        }
        proof {
            reveal_with_fuel(pow10, 5);
            assert(pow10(4) == 10000);
        }
        acc = acc * 10 + (c as u32 - '0' as u32);
        i = i + 1;
    }
    assert(t.take(to - from) =~= t);
    proof {
        reveal_with_fuel(pow10, 5);
    }
    Some(acc)
}

/// Appends the text of a day.
pub fn push_date_text(out: &mut Vec<char>, d: CalDate)
    requires
        d.wf(),
    ensures
        final(out)@ == old(out)@ + date_text(d),
{
    push_fixed_digits(out, d.year as u64, 4);
    out.push('-');
    push_fixed_digits(out, d.month as u64, 2);
    out.push('-');
    push_fixed_digits(out, d.day as u64, 2);
    assert(final(out)@ =~= old(out)@ + date_text(d));
}

/// Reading back the text of a day gives the day.
pub proof fn lemma_date_text_round_trip(d: CalDate)
    requires
        d.wf(),
    ensures
        date_of_text(date_text(d)) == Some(d),
        date_text(d).len() == 10,
{
    let s = date_text(d);
    lemma_fixed_digits(d.year as nat, 4);
    lemma_fixed_digits(d.month as nat, 2);
    lemma_fixed_digits(d.day as nat, 2);
    reveal_with_fuel(pow10, 5);
    assert(s.subrange(0, 4) =~= fixed_digits(d.year as nat, 4));
    assert(s.subrange(5, 7) =~= fixed_digits(d.month as nat, 2));
    assert(s.subrange(8, 10) =~= fixed_digits(d.day as nat, 2));
    assert(s[4] == '-' && s[7] == '-');
    assert(pow10(4) == 10000 && pow10(2) == 100);
    vstd::arithmetic::div_mod::lemma_small_mod(d.year as nat, 10000);
    vstd::arithmetic::div_mod::lemma_small_mod(d.month as nat, 100);
    vstd::arithmetic::div_mod::lemma_small_mod(d.day as nat, 100);
    assert(digits_value(s.subrange(0, 4)) == d.year);
    assert(digits_value(s.subrange(5, 7)) == d.month);
    assert(digits_value(s.subrange(8, 10)) == d.day);
}

} // verus!
