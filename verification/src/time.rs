//! The game clock (whole minutes) and the calendar date it drives.
use vstd::prelude::*;

verus! {

pub const MINUTES_PER_DAY: u64 = 1440;

/// Minutes elapsed since the start of the simulation.
#[derive(Debug, Clone, Copy, PartialEq, Eq)]
pub struct GameClock {
    total_minutes: u64,
}

impl View for GameClock {
    type V = u64;

    closed spec fn view(&self) -> u64 {
        self.total_minutes
    }
}

impl GameClock {
    pub fn new() -> (r: GameClock)
        ensures
            r@ == 0,
    {
        GameClock { total_minutes: 0 }
    }

    pub fn total_minutes(&self) -> (r: u64)
        ensures
            r == self@,
    {
        self.total_minutes
    }

    /// Moves the clock forward by a whole number of minutes (saturating at
    /// the largest `u64`) and returns that number.
    pub fn advance_minutes(&mut self, minutes: u64) -> (r: u64)
        ensures
            r == minutes,
            final(self)@ == if old(self)@ + minutes <= u64::MAX {
                (old(self)@ + minutes) as u64
            } else {
                u64::MAX
            },
    {
        self.total_minutes = self.total_minutes.saturating_add(minutes);
        minutes
    }
}

impl Default for GameClock {
    fn default() -> (r: GameClock)
        ensures
            r@ == 0,
    {
        GameClock::new()
    }
}

pub open spec fn is_leap_year_spec(year: int) -> bool {
    (year % 4 == 0 && year % 100 != 0) || year % 400 == 0
}

/// Number of days in a month; a month outside 1 to 12 counts 30 days.
pub open spec fn days_in_month_spec(year: int, month: int) -> int {
    if month == 1 || month == 3 || month == 5 || month == 7 || month == 8 || month == 10 || month
        == 12 {
        31
    } else if month == 4 || month == 6 || month == 9 || month == 11 {
        30
    } else if month == 2 {
        if is_leap_year_spec(year) {
            29
        } else {
            28
        }
    } else {
        30
    }
}

/// A date as three integers: year, month, day.
pub type DateTriple = (int, int, int);

/// The day after a date of the proleptic Gregorian calendar.
pub open spec fn next_day(d: DateTriple) -> DateTriple {
    if d.2 < days_in_month_spec(d.0, d.1) {
        (d.0, d.1, d.2 + 1)
    } else if d.1 == 12 {
        (d.0 + 1, 1, 1)
    } else {
        (d.0, d.1 + 1, 1)
    }
}

/// The date `n` days after `d`.
pub open spec fn advance_spec(d: DateTriple, n: nat) -> DateTriple
    decreases n,
{
    if n == 0 {
        d
    } else {
        advance_spec(next_day(d), (n - 1) as nat)
    }
}

/// A month of 1 to 12 and a day no later than the last of that month (day 0
/// counts as the day before the first).
pub open spec fn date_ok(d: DateTriple) -> bool {
    1 <= d.1 <= 12 && day_ok(d)
}

/// A day no later than the last of its month (a month outside 1 to 12
/// counting 30 days).
pub open spec fn day_ok(d: DateTriple) -> bool {
    0 <= d.2 <= days_in_month_spec(d.0, d.1)
}

#[derive(Debug, Clone, Copy, PartialEq, Eq)]
pub struct CalendarDate {
    pub year: u16,
    pub month: u8,
    pub day: u8,
}

impl CalendarDate {
    pub open spec fn triple(self) -> DateTriple {
        (self.year as int, self.month as int, self.day as int)
    }

    pub fn new(year: u16, month: u8, day: u8) -> (r: CalendarDate)
        ensures
            r.year == year,
            r.month == month,
            r.day == day,
    {
        CalendarDate { year, month, day }
    }

    /// 1 January 2025, the first day of every game.
    pub fn from_start() -> (r: CalendarDate)
        ensures
            r.triple() == (2025int, 1int, 1int),
    {
        CalendarDate::new(2025, 1, 1)
    }

    /// Moves the date `days` days forward.  A month outside 1 to 12 counts 30
    /// days and is followed by the next number; only December is followed by
    /// January of the next year.
    pub fn advance_days(&mut self, days: u64)
        requires
            days == 0 || day_ok(old(self).triple()),
            advance_spec(old(self).triple(), days as nat).0 <= u16::MAX,
            advance_spec(old(self).triple(), days as nat).1 <= u8::MAX,
        ensures
            final(self).triple() == advance_spec(old(self).triple(), days as nat),
    {
        let mut remaining = days;
        let ghost goal = advance_spec(old(self).triple(), days as nat);
        proof {
            lemma_advance_year_monotone(self.triple(), days as nat);
            if self.month > 12 {
                lemma_advance_month_grows(self.triple(), days as nat);
            }
        }
        while remaining > 0
            invariant
                remaining > 0 ==> day_ok(self.triple()),
                advance_spec(self.triple(), remaining as nat) == goal,
                goal.0 <= u16::MAX,
                goal.1 <= u8::MAX,
                self.year <= goal.0,
                self.month > 12 ==> self.month <= goal.1,
            decreases remaining,
        {
            let dim = days_in_month(self.year, self.month);
            if remaining <= (dim - self.day) as u64 {
                proof {
                    lemma_advance_within_month(self.triple(), remaining as nat);
                }
                self.day = (self.day as u64 + remaining) as u8;
                remaining = 0;
            } else {
                let step: u64 = (dim - self.day) as u64 + 1;
                let ghost before = self.triple();
                let ghost first = if before.1 == 12 {
                    (before.0 + 1, 1int, 1int)
                } else {
                    (before.0, before.1 + 1, 1int)
                };
                proof {
                    lemma_advance_past_month(before, remaining as nat);
                    lemma_advance_year_monotone(first, (remaining - step) as nat);
                    if first.1 > 12 {
                        lemma_advance_month_grows(first, (remaining - step) as nat);
                    }
                }
                remaining = remaining - step;
                self.day = 1;
                if self.month == 12 {
                    self.month = 1;
                    self.year = self.year + 1;
                } else {
                    self.month = self.month + 1;
                }
            }
        }
    }
}

/// Past December the month number only grows.
proof fn lemma_advance_month_grows(d: DateTriple, n: nat)
    requires
        d.1 > 12,
    ensures
        d.1 <= advance_spec(d, n).1,
    decreases n,
{
    if n > 0 {
        lemma_advance_month_grows(next_day(d), (n - 1) as nat);
    }
}

proof fn lemma_advance_within_month(d: DateTriple, n: nat)
    requires
        day_ok(d),
        d.2 + n <= days_in_month_spec(d.0, d.1),
    ensures
        advance_spec(d, n) == (d.0, d.1, d.2 + n),
    decreases n,
{
    if n > 0 {
        lemma_advance_within_month(next_day(d), (n - 1) as nat);
    }
}

/// Advancing past the end of the month passes through the first of the next.
proof fn lemma_advance_past_month(d: DateTriple, n: nat)
    requires
        day_ok(d),
        d.2 + n > days_in_month_spec(d.0, d.1),
    ensures
        ({
            let step = days_in_month_spec(d.0, d.1) - d.2 + 1;
            let first = if d.1 == 12 {
                (d.0 + 1, 1int, 1int)
            } else {
                (d.0, d.1 + 1, 1int)
            };
            &&& advance_spec(d, step as nat) == first
            &&& advance_spec(d, n) == advance_spec(first, (n - step) as nat)
        }),
{
    let dim = days_in_month_spec(d.0, d.1);
    let k = (dim - d.2) as nat;
    lemma_advance_within_month(d, k);
    let last = (d.0, d.1, dim);
    assert(advance_spec(next_day(last), 0) == next_day(last));
    assert(advance_spec(last, 1) == next_day(last));
    lemma_advance_add(d, k, 1);
    lemma_advance_add(d, k + 1, (n - k - 1) as nat);
}

/// Advancing `a` days and then `b` days is advancing `a + b` days.
pub proof fn lemma_advance_add(d: DateTriple, a: nat, b: nat)
    ensures
        advance_spec(advance_spec(d, a), b) == advance_spec(d, a + b),
    decreases a,
{
    if a > 0 {
        lemma_advance_add(next_day(d), (a - 1) as nat, b);
        assert(advance_spec(d, a + b) == advance_spec(next_day(d), (a + b - 1) as nat));
    }
}

/// The year never decreases as days pass.
pub proof fn lemma_advance_year_monotone(d: DateTriple, n: nat)
    ensures
        d.0 <= advance_spec(d, n).0,
    decreases n,
{
    if n > 0 {
        lemma_advance_year_monotone(next_day(d), (n - 1) as nat);
    }
}

/// Every date that advancing reaches is a valid one.
pub proof fn lemma_advance_keeps_date_ok(d: DateTriple, n: nat)
    requires
        date_ok(d),
    ensures
        date_ok(advance_spec(d, n)),
    decreases n,
{
    if n > 0 {
        lemma_advance_keeps_date_ok(next_day(d), (n - 1) as nat);
    }
}

/// The months have their Gregorian lengths: 31 days in January, March, May,
/// July, August, October and December; 30 in April, June, September and
/// November; 29 in February of a year divisible by 4 but not by 100, or by
/// 400, and 28 in any other February.
pub proof fn lemma_month_lengths(year: int)
    ensures
        days_in_month_spec(year, 1) == 31,
        days_in_month_spec(year, 2) == (if (year % 4 == 0 && year % 100 != 0) || year % 400 == 0 {
            29int
        } else {
            28int
        }),
        days_in_month_spec(year, 3) == 31,
        days_in_month_spec(year, 4) == 30,
        days_in_month_spec(year, 5) == 31,
        days_in_month_spec(year, 6) == 30,
        days_in_month_spec(year, 7) == 31,
        days_in_month_spec(year, 8) == 31,
        days_in_month_spec(year, 9) == 30,
        days_in_month_spec(year, 10) == 31,
        days_in_month_spec(year, 11) == 30,
        days_in_month_spec(year, 12) == 31,
{
}

/// The day after the last of a month is the first of the next month, and
/// after 31 December comes 1 January of the next year; so 30 April is
/// followed by 1 May and 31 May by 1 June.
pub proof fn lemma_month_turns(year: int, month: int)
    requires
        1 <= month <= 12,
    ensures
        advance_spec((year, month, days_in_month_spec(year, month)), 1) == (if month == 12 {
            (year + 1, 1int, 1int)
        } else {
            (year, month + 1, 1int)
        }),
        month == 4 ==> advance_spec((year, 4, 30), 1) == (year, 5int, 1int),
        month == 5 ==> advance_spec((year, 5, 31), 1) == (year, 6int, 1int),
        month == 2 ==> advance_spec((year, 2, 28), 1) == (if (year % 4 == 0 && year % 100 != 0)
            || year % 400 == 0 {
            (year, 2int, 29int)
        } else {
            (year, 3int, 1int)
        }),
{
    let d = (year, month, days_in_month_spec(year, month));
    assert(advance_spec(next_day(d), 0) == next_day(d));
    assert(advance_spec((year, 4, 30), 1) == advance_spec(next_day((year, 4, 30)), 0));
    assert(advance_spec((year, 5, 31), 1) == advance_spec(next_day((year, 5, 31)), 0));
    assert(advance_spec((year, 2, 28), 1) == advance_spec(next_day((year, 2, 28)), 0));
}

pub fn days_in_month(year: u16, month: u8) -> (r: u8)
    ensures
        r as int == days_in_month_spec(year as int, month as int),
{
    match month {
        1 | 3 | 5 | 7 | 8 | 10 | 12 => 31,
        4 | 6 | 9 | 11 => 30,
        2 => {
            if is_leap_year(year) {
                29
            } else {
                28
            }
        },
        _ => 30,
    }
}

pub fn is_leap_year(year: u16) -> (r: bool)
    ensures
        r == is_leap_year_spec(year as int),
{
    let y = year as u32;
    (y % 4 == 0 && y % 100 != 0) || y % 400 == 0
}

/// A point on the game clock at which a task is due.
#[derive(Debug, Clone, Copy, PartialEq, Eq, Structural)]
pub struct ScheduledTime {
    pub minutes: u64,
}

impl ScheduledTime {
    pub fn new(minutes: u64) -> (r: ScheduledTime)
        ensures
            r.minutes == minutes,
    {
        ScheduledTime { minutes }
    }
}

} // verus!
