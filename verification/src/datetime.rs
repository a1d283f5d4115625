//! A local calendar instant held as plain values.
//!
//! The scheduler reads and writes calendar fields, so the instant is kept
//! as year, month, day, and time of day, together with the weekday, which
//! advances in step with the date. Arithmetic is naive local-time
//! arithmetic on the proleptic Gregorian calendar.

use vstd::prelude::*;

verus! {

/// Highest year the arithmetic accepts; far beyond any real schedule.
pub const YEAR_MAX: i64 = 400_000;

/// A local calendar instant.
///
/// `weekday` counts from Sunday = 0; it is carried along and advances by
/// one for every day added.
#[derive(Debug, PartialEq, Eq, Structural, Clone, Copy)]
pub struct DateTime {
    pub year: i64,
    pub month: u32,
    pub day: u32,
    pub hour: u32,
    pub minute: u32,
    pub second: u32,
    pub nanosecond: u32,
    pub weekday: u32,
}

/// Whether `y` is a leap year of the Gregorian calendar.
pub open spec fn spec_is_leap_year(y: int) -> bool {
    (y % 4 == 0 && y % 100 != 0) || y % 400 == 0
}

/// Number of days of month `m` in year `y`.
pub open spec fn spec_days_in_month(y: int, m: int) -> int {
    if m == 2 {
        if spec_is_leap_year(y) {
            29
        } else {
            28
        }
    } else if m == 4 || m == 6 || m == 9 || m == 11 {
        30
    } else {
        31
    }
}

/// Whether `y` is a leap year.
pub fn is_leap_year(y: i64) -> (r: bool)
    requires
        0 < y <= YEAR_MAX,
    ensures
        r == spec_is_leap_year(y as int),
{
    (y % 4 == 0 && y % 100 != 0) || y % 400 == 0
}

/// Number of days of month `m` in year `y`.
pub fn days_in_month(y: i64, m: u32) -> (r: u32)
    requires
        0 < y <= YEAR_MAX,
        1 <= m <= 12,
    ensures
        r == spec_days_in_month(y as int, m as int),
{
    if m == 2 {
        if is_leap_year(y) {
            29
        } else {
            28
        }
    } else if m == 4 || m == 6 || m == 9 || m == 11 {
        30
    } else {
        31
    }
}

impl DateTime {
    /// All fields lie in their calendar domains.
    pub open spec fn valid(self) -> bool {
        &&& 0 < self.year <= YEAR_MAX
        &&& 1 <= self.month <= 12
        &&& 1 <= self.day <= spec_days_in_month(self.year as int, self.month as int)
        &&& self.hour < 24
        &&& self.minute < 60
        &&& self.second < 60
        &&& self.nanosecond < 1_000_000_000
        &&& self.weekday < 7
    }

    /// Strict order on instants: date first, then time of day.
    ///
    /// The weekday is derived from the date and takes no part.
    pub open spec fn spec_lt(self, other: DateTime) -> bool {
        if self.year != other.year {
            self.year < other.year
        } else if self.month != other.month {
            self.month < other.month
        } else if self.day != other.day {
            self.day < other.day
        } else if self.hour != other.hour {
            self.hour < other.hour
        } else if self.minute != other.minute {
            self.minute < other.minute
        } else if self.second != other.second {
            self.second < other.second
        } else {
            self.nanosecond < other.nanosecond
        }
    }

    /// Equality on everything except the carried weekday.
    pub open spec fn same_instant(self, other: DateTime) -> bool {
        &&& self.year == other.year
        &&& self.month == other.month
        &&& self.day == other.day
        &&& self.hour == other.hour
        &&& self.minute == other.minute
        &&& self.second == other.second
        &&& self.nanosecond == other.nanosecond
    }

    /// Decide the strict order.
    pub fn lt(&self, other: &DateTime) -> (r: bool)
        ensures
            r == self.spec_lt(*other),
    {
        if self.year != other.year {
            self.year < other.year
        } else if self.month != other.month {
            self.month < other.month
        } else if self.day != other.day {
            self.day < other.day
        } else if self.hour != other.hour {
            self.hour < other.hour
        } else if self.minute != other.minute {
            self.minute < other.minute
        } else if self.second != other.second {
            self.second < other.second
        } else {
            self.nanosecond < other.nanosecond
        }
    }

    /// Decide order-or-sameness.
    pub fn le(&self, other: &DateTime) -> (r: bool)
        ensures
            r == (self.spec_lt(*other) || self.same_instant(*other)),
    {
        !other.lt(self)
    }

    /// The instant one calendar day later.
    ///
    /// The year stops at the largest representable value, which the
    /// executable arithmetic never reaches.
    pub open spec fn spec_next_day(self) -> DateTime {
        let d = DateTime { weekday: ((self.weekday + 1) % 7) as u32, ..self };
        if self.day < spec_days_in_month(self.year as int, self.month as int) {
            DateTime { day: (self.day + 1) as u32, ..d }
        } else if self.month < 12 {
            DateTime { day: 1, month: (self.month + 1) as u32, ..d }
        } else {
            DateTime {
                day: 1,
                month: 1,
                year: if self.year < i64::MAX {
                    (self.year + 1) as i64
                } else {
                    self.year
                },
                ..d
            }
        }
    }

    /// Move one calendar day forward, keeping the time of day.
    pub fn next_day(&self) -> (r: DateTime)
        requires
            self.valid(),
            self.year < YEAR_MAX,
        ensures
            r == self.spec_next_day(),
            r.valid(),
            r.year <= self.year + 1,
            self.spec_lt(r),
    {
        let weekday = (self.weekday + 1) % 7;
        if self.day < days_in_month(self.year, self.month) {
            DateTime { day: self.day + 1, weekday, ..*self }
        } else if self.month < 12 {
            DateTime { day: 1, month: self.month + 1, weekday, ..*self }
        } else {
            DateTime { day: 1, month: 1, year: self.year + 1, weekday, ..*self }
        }
    }

    /// The instant `n` calendar days later.
    pub open spec fn spec_add_days(self, n: nat) -> DateTime
        decreases n,
    {
        if n == 0 {
            self
        } else {
            self.spec_add_days((n - 1) as nat).spec_next_day()
        }
    }

    /// Move `n` calendar days forward, keeping the time of day.
    pub fn add_days(&self, n: u32) -> (r: DateTime)
        requires
            self.valid(),
            self.year + n <= YEAR_MAX,
        ensures
            r == self.spec_add_days(n as nat),
            r.valid(),
            r.year <= self.year + n,
    {
        let mut cur: DateTime = *self;
        let mut k: u32 = 0;
        while k < n
            invariant
                k <= n,
                self.valid(),
                self.year + n <= YEAR_MAX,
                cur == self.spec_add_days(k as nat),
                cur.valid(),
                cur.year <= self.year + k,
            decreases n - k,
        {
            cur = cur.next_day();
            k += 1;
        }
        cur
    }

    /// Replace the minute.
    pub fn with_minute(&self, minute: u32) -> (r: DateTime)
        requires
            self.valid(),
            minute < 60,
        ensures
            r == (DateTime { minute, ..*self }),
            r.valid(),
    {
        DateTime { minute, ..*self }
    }

    /// Replace the hour.
    pub fn with_hour(&self, hour: u32) -> (r: DateTime)
        requires
            self.valid(),
            hour < 24,
        ensures
            r == (DateTime { hour, ..*self }),
            r.valid(),
    {
        DateTime { hour, ..*self }
    }

    /// The next representable instant: one nanosecond later.
    pub open spec fn spec_next_nano(self) -> DateTime {
        if self.nanosecond < 999_999_999 {
            DateTime { nanosecond: (self.nanosecond + 1) as u32, ..self }
        } else if self.second < 59 {
            DateTime { nanosecond: 0, second: (self.second + 1) as u32, ..self }
        } else if self.minute < 59 {
            DateTime { nanosecond: 0, second: 0, minute: (self.minute + 1) as u32, ..self }
        } else if self.hour < 23 {
            DateTime { nanosecond: 0, second: 0, minute: 0, hour: (self.hour + 1) as u32, ..self }
        } else {
            DateTime {
                nanosecond: 0,
                second: 0,
                minute: 0,
                hour: 0,
                ..self.spec_next_day()
            }
        }
    }

    /// Step one nanosecond forward, carrying into the larger units.
    pub fn next_nano(&self) -> (r: DateTime)
        requires
            self.valid(),
            self.year < YEAR_MAX,
        ensures
            r == self.spec_next_nano(),
            r.valid(),
            self.spec_lt(r),
            r.year <= self.year + 1,
    {
        if self.nanosecond < 999_999_999 {
            DateTime { nanosecond: self.nanosecond + 1, ..*self }
        } else if self.second < 59 {
            DateTime { nanosecond: 0, second: self.second + 1, ..*self }
        } else if self.minute < 59 {
            DateTime { nanosecond: 0, second: 0, minute: self.minute + 1, ..*self }
        } else if self.hour < 23 {
            DateTime { nanosecond: 0, second: 0, minute: 0, hour: self.hour + 1, ..*self }
        } else {
            let next = self.next_day();
            DateTime { nanosecond: 0, second: 0, minute: 0, hour: 0, ..next }
        }
    }
}

/// The strict order is transitive.
pub proof fn lemma_dt_lt_transitive(a: DateTime, b: DateTime, c: DateTime)
    requires
        a.spec_lt(b),
        b.spec_lt(c),
    ensures
        a.spec_lt(c),
{
}

/// Two instants either coincide or compare one way or the other.
pub proof fn lemma_dt_lt_total(a: DateTime, b: DateTime)
    ensures
        a.spec_lt(b) || b.spec_lt(a) || a.same_instant(b),
{
}

/// Weak-then-strict chaining of the order.
pub proof fn lemma_dt_lt_transitive_weak(a: DateTime, b: DateTime, c: DateTime)
    requires
        a.spec_lt(b) || a.same_instant(b),
        b.spec_lt(c),
    ensures
        a.spec_lt(c),
{
}

/// The next nanosecond lies strictly later.
pub proof fn lemma_next_nano_gt(t: DateTime)
    requires
        t.valid(),
        t.year < YEAR_MAX,
    ensures
        t.spec_lt(t.spec_next_nano()),
{
}


} // verus!
