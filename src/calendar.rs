//! Counting the days of a weekday that fall on the first of a month, with
//! dates held as (year, month, day) and stepped by `chrono`.

use chrono::Datelike;
use vstd::prelude::*;

verus! {

/// A date: year, month (1 to 12), day of the month (from 1).
pub type Ymd = (i32, u32, u32);

/// The number of days in a week.
pub const DAYS_IN_WEEK: usize = 7;

/// A leap year of the Gregorian calendar.
pub open spec fn is_leap(y: int) -> bool {
    (y % 4 == 0 && y % 100 != 0) || y % 400 == 0
}

/// The number of days of month `m` of year `y`.
pub open spec fn days_in_month(y: int, m: int) -> int {
    if m == 2 {
        if is_leap(y) {
            29
        } else {
            28
        }
    } else if m == 4 || m == 6 || m == 9 || m == 11 {
        30
    } else {
        31
    }
}

/// `d` is a date of the Gregorian calendar in a range of years that
/// `chrono` covers with room to spare.
pub open spec fn is_date(d: Ymd) -> bool {
    &&& -262_000 <= d.0 <= 262_000
    &&& 1 <= d.1 <= 12
    &&& 1 <= d.2 <= days_in_month(d.0 as int, d.1 as int)
}

/// The day after `d`.
pub open spec fn next_date(d: Ymd) -> Ymd {
    if d.2 < days_in_month(d.0 as int, d.1 as int) {
        (d.0, d.1, (d.2 + 1) as u32)
    } else if d.1 < 12 {
        (d.0, (d.1 + 1) as u32, 1)
    } else {
        ((d.0 + 1) as i32, 1, 1)
    }
}

/// The date `k` days after `d`.
pub open spec fn advance(d: Ymd, k: nat) -> Ymd
    decreases k,
{
    if k == 0 {
        d
    } else {
        next_date(advance(d, (k - 1) as nat))
    }
}

/// `a` comes before `b`.
pub open spec fn date_before(a: Ymd, b: Ymd) -> bool {
    a.0 < b.0 || (a.0 == b.0 && (a.1 < b.1 || (a.1 == b.1 && a.2 < b.2)))
}

/// The leap days of the years before `y`.
pub open spec fn leap_days_before(y: int) -> int {
    (y - 1) / 4 - (y - 1) / 100 + (y - 1) / 400
}

/// The days of year `y` before month `m`.
pub open spec fn days_before_month(y: int, m: int) -> int
    decreases m,
{
    if m <= 1 {
        0
    } else {
        days_before_month(y, m - 1) + days_in_month(y, m - 1)
    }
}

/// A count of days that grows by one from each date to the next.
pub open spec fn day_number(d: Ymd) -> int {
    365 * d.0 + leap_days_before(d.0 as int) + days_before_month(d.0 as int, d.1 as int) + d.2
}

/// The day of the week of a date, counted from Monday as 0 (1 January 1900
/// was a Monday).
pub open spec fn weekday_number(d: Ymd) -> nat {
    ((day_number(d) + 5) % 7) as nat
}

proof fn lemma_div_step(y: int, k: int)
    requires
        k > 0,
    ensures
        y / k - (y - 1) / k == if y % k == 0 {
            1int
        } else {
            0int
        },
{
    vstd::arithmetic::div_mod::lemma_fundamental_div_mod(y, k);
    vstd::arithmetic::div_mod::lemma_fundamental_div_mod(y - 1, k);
    let q = y / k;
    let r = y % k;
    assert(y == k * q + r);
    if r == 0 {
        assert(y - 1 == (q - 1) * k + (k - 1)) by (nonlinear_arith)
            requires
                y == k * q + r,
                r == 0,
        ;
        vstd::arithmetic::div_mod::lemma_fundamental_div_mod_converse(y - 1, k, q - 1, k - 1);
    } else {
        assert(y - 1 == q * k + (r - 1)) by (nonlinear_arith)
            requires
                y == k * q + r,
        ;
        vstd::arithmetic::div_mod::lemma_fundamental_div_mod_converse(y - 1, k, q, r - 1);
    }
}

/// The next date is the next day number.
proof fn lemma_next_day_number(d: Ymd)
    requires
        is_date(d),
        d.0 < 262_000,
    ensures
        day_number(next_date(d)) == day_number(d) + 1,
        weekday_number(next_date(d)) == (weekday_number(d) + 1) % 7,
{
    let y = d.0 as int;
    if d.2 < days_in_month(y, d.1 as int) {
    } else if d.1 < 12 {
        assert(days_before_month(y, d.1 + 1) == days_before_month(y, d.1 as int) + days_in_month(y, d.1 as int));
    } else {
        reveal_with_fuel(days_before_month, 13);
        assert(days_before_month(y, 12) == 334 + if is_leap(y) {
            1int
        } else {
            0int
        });
        lemma_div_step(y, 4);
        lemma_div_step(y, 100);
        lemma_div_step(y, 400);
        assert(leap_days_before(y + 1) - leap_days_before(y) == if is_leap(y) {
            1int
        } else {
            0int
        });
        assert(days_before_month(y + 1, 1) == 0);
    }
}

/// Relies on `NaiveDate::from_ymd_opt` and `NaiveDate::succ_opt` (with the
/// `Datelike` getters for the result): the next day of the calendar.
#[verifier::external_body]
fn succ_date(d: Ymd) -> (r: Option<Ymd>)
    requires
        is_date(d),
    ensures
        r == Some(next_date(d)),
{
    chrono::NaiveDate::from_ymd_opt(d.0, d.1, d.2).and_then(|date| date.succ_opt()).map(
        |next| (next.year(), next.month(), next.day()),
    )
}

/// Relies on `NaiveDate::weekday` and `Weekday::num_days_from_monday`: the
/// day of the week of `d`, from Monday as 0 to Sunday as 6.
#[verifier::external_body]
fn weekday_of(d: Ymd) -> (r: u32)
    requires
        is_date(d),
    ensures
        r == weekday_number(d),
        r < 7,
{
    chrono::NaiveDate::from_ymd_opt(d.0, d.1, d.2).map(|date| date.weekday().num_days_from_monday()).unwrap_or(0)
}

/// A number that grows by at least one from each date to the next.
pub open spec fn ordinal(d: Ymd) -> int {
    d.0 * 400 + d.1 * 32 + d.2
}

proof fn lemma_next_is_date(d: Ymd)
    requires
        is_date(d),
        d.0 < 262_000,
    ensures
        is_date(next_date(d)),
        date_before(d, next_date(d)),
        ordinal(next_date(d)) >= ordinal(d) + 1,
        next_date(d).0 <= d.0 + 1,
{
}

proof fn lemma_advance_add(d: Ymd, a: nat, b: nat)
    ensures
        advance(d, a + b) == advance(advance(d, a), b),
    decreases b,
{
    if b > 0 {
        lemma_advance_add(d, a, (b - 1) as nat);
        assert((a + b - 1) as nat == a + (b - 1) as nat);
    }
}

/// The first date from `start` on that falls on `weekday` is `first`, and
/// it is less than a week away.
pub open spec fn next_weekday_spec(start: Ymd, weekday: u32, first: Ymd) -> bool {
    exists|k: nat|
        k < 7 && first == #[trigger] advance(start, k) && weekday_number(first) == weekday && forall|j: nat|
            j < k ==> weekday_number(#[trigger] advance(start, j)) != weekday
}

/// Whether `a` comes before `b`.
pub fn date_lt(a: Ymd, b: Ymd) -> (r: bool)
    ensures
        r == date_before(a, b),
{
    a.0 < b.0 || (a.0 == b.0 && (a.1 < b.1 || (a.1 == b.1 && a.2 < b.2)))
}

/// The days from a date on.
pub struct DayIter {
    pub day: Ymd,
}

impl DayIter {
    pub fn new(start: Ymd) -> (r: Self)
        ensures
            r.day == start,
    {
        DayIter { day: start }
    }

    /// The current day; moves on to the next.
    pub fn next(&mut self) -> (r: Option<Ymd>)
        requires
            is_date(old(self).day),
        ensures
            r == Some(old(self).day),
            final(self).day == next_date(old(self).day),
    {
        let prev = self.day;
        self.day = match succ_date(self.day) {
            Some(next) => next,
            None => self.day,
        };
        Some(prev)
    }
}

/// Whether `date` is the first of its month.
pub fn is_first_of_month(date: Ymd) -> (r: bool)
    ensures
        r == (date.2 == 1),
{
    date.2 == 1
}

/// The first date from `date` on that falls on `weekday` (0 for Monday to 6
/// for Sunday), with the number of days to it; `None` when it is not within
/// a week.
pub fn next_weekday(date: Ymd, weekday: u32) -> (r: Option<(Ymd, usize)>)
    requires
        is_date(date),
        date.0 < 261_990,
    ensures
        weekday < 7 ==> r is Some,
        r matches Some((d, k)) ==> is_date(d) && d.0 <= date.0 + 7,
        r matches Some((d, k)) ==> k < 7 && d == advance(date, k as nat) && weekday_number(d) == weekday && forall|j: nat|
            j < k ==> weekday_number(#[trigger] advance(date, j)) != weekday,
{
    let mut days = DayIter::new(date);
    let mut k: usize = 0;
    while k < DAYS_IN_WEEK
        invariant
            k <= 7,
            days.day == advance(date, k as nat),
            is_date(days.day),
            days.day.0 <= date.0 + k,
            date.0 < 261_990,
            forall|j: nat| j < k ==> weekday_number(#[trigger] advance(date, j)) != weekday,
            weekday_number(days.day) == (weekday_number(date) + k) % 7,
        decreases 7 - k,
    {
        if weekday_of(days.day) == weekday {
            return Some((days.day, k));
        }
        let ghost before = days.day;
        proof {
            lemma_next_is_date(before);
            lemma_next_day_number(before);
        }
        days.next();
        k = k + 1;
    }
    proof {
        if weekday < 7 {
            let w0 = weekday_number(date);
            let j = ((weekday + 7 - w0) % 7) as nat;
            assert((w0 + j) % 7 == weekday);
            assert(weekday_number(advance(date, j)) != weekday);
            lemma_weekday_advance(date, j);
        }
    }
    None
}

proof fn lemma_weekday_advance(d: Ymd, k: nat)
    requires
        is_date(d),
        d.0 < 261_990,
        k <= 7,
    ensures
        weekday_number(advance(d, k)) == (weekday_number(d) + k) % 7,
        is_date(advance(d, k)),
        advance(d, k).0 <= d.0 + k,
    decreases k,
{
    if k > 0 {
        lemma_weekday_advance(d, (k - 1) as nat);
        lemma_next_is_date(advance(d, (k - 1) as nat));
        lemma_next_day_number(advance(d, (k - 1) as nat));
    }
}

/// How many of the dates `first + 7j`, `j < weeks`, fall on the first of a
/// month.
pub open spec fn firsts_in_weeks(first: Ymd, weeks: nat) -> nat
    decreases weeks,
{
    if weeks == 0 {
        0
    } else {
        firsts_in_weeks(first, (weeks - 1) as nat) + if advance(first, ((weeks - 1) * 7) as nat).2 == 1 {
            1nat
        } else {
            0
        }
    }
}

/// The dates of `weekday` from `start` on, before `end`, that are the first
/// of a month, counted by stepping a week at a time from the first such
/// weekday. `None` when the steps leave the covered range of years first.
pub fn solve(start: Ymd, end: Ymd, weekday: u32) -> (r: Option<usize>)
    requires
        is_date(start),
        start.0 < 261_990,
    ensures
        weekday < 7 && end.0 < 261_990 ==> r is Some,
        r matches Some(n) ==> exists|first: Ymd, weeks: nat|
            {
                &&& next_weekday_spec(start, weekday, first)
                &&& !date_before(advance(first, weeks * 7), end)
                &&& forall|j: nat| j < weeks ==> date_before(#[trigger] advance(first, j * 7), end)
                &&& n == firsts_in_weeks(first, weeks)
            },
{
    let (first, offset) = match next_weekday(start, weekday) {
        Some(found) => found,
        None => return None,
    };
    proof {
        assert(next_weekday_spec(start, weekday, first)) by {
            assert(first == advance(start, offset as nat));
        }
    }
    let mut day = first;
    let mut count: usize = 0;
    let ghost mut weeks: nat = 0;
    while date_lt(day, end)
        invariant
            next_weekday_spec(start, weekday, first),
            is_date(first),
            day == advance(first, weeks * 7),
            is_date(day),
            day.0 < 262_000,
            count == firsts_in_weeks(first, weeks),
            count <= weeks,
            weeks * 7 <= ordinal(day) - ordinal(first),
            forall|j: nat| j < weeks ==> date_before(#[trigger] advance(first, j * 7), end),
        decreases 262_000 * 400 + 500 - ordinal(day),
    {
        if day.0 >= 261_990 {
            proof {
                assert(date_before(day, end));
            }
            return None;
        }
        assert(weeks <= 40_000_000) by (nonlinear_arith)
            requires
                weeks * 7 <= ordinal(day) - ordinal(first),
                ordinal(day) <= 261_990 * 400 + 500,
                ordinal(first) >= -262_000 * 400,
        ;
        if is_first_of_month(day) {
            count = count + 1;
        }
        let mut step: usize = 0;
        let ghost from = day;
        while step < DAYS_IN_WEEK
            invariant
                step <= 7,
                day == advance(from, step as nat),
                is_date(day),
                from.0 < 261_990,
                day.0 <= from.0 + step,
                ordinal(day) >= ordinal(from) + step,
            decreases 7 - step,
        {
            proof {
                lemma_next_is_date(day);
            }
            let mut days = DayIter::new(day);
            days.next();
            day = days.day;
            step = step + 1;
        }
        proof {
            lemma_advance_add(first, weeks * 7, 7);
            assert(weeks * 7 + 7 == (weeks + 1) * 7);
            assert(date_before(advance(first, weeks * 7), end));
            assert(firsts_in_weeks(first, weeks + 1) == firsts_in_weeks(first, weeks) + if advance(
                first,
                (weeks * 7) as nat,
            ).2 == 1 {
                1nat
            } else {
                0
            });
            weeks = weeks + 1;
        }
    }
    Some(count)
}

} // verus!
