//! The resolved-instant data model: an absolute point in time expressed in
//! the local timezone with second-level precision, held as plain calendar
//! fields plus the UTC offset that was in force.

use vstd::prelude::*;
use vstd::arithmetic::div_mod::lemma_fundamental_div_mod;
use vstd::arithmetic::div_mod::lemma_fundamental_div_mod_converse;
use vstd::arithmetic::div_mod::lemma_mod_multiples_vanish;
use vstd::arithmetic::div_mod::lemma_div_is_ordered;
use vstd::arithmetic::mul::lemma_mul_inequality;

verus! {

/// Widest calendar year the library works with; every instant produced by
/// the timestamp parser or the system clock lies far inside this bound, and
/// it keeps all epoch arithmetic inside `i64`.
pub const YEAR_MAX: i64 = 1000000;

/// An absolute point in time, expressed in the local timezone:
/// calendar fields of the local wall clock, plus the UTC offset
/// (in seconds, east positive) that makes the instant absolute.
/// Never "naive": the offset is always present.
#[derive(Clone, Copy, PartialEq, Eq, Structural, Debug)]
pub struct LocalInstant {
    pub year: i64,
    pub month: u32,
    pub day: u32,
    pub hour: u32,
    pub minute: u32,
    pub second: u32,
    pub offset_seconds: i64,
}

/// Proleptic-Gregorian leap year rule.
pub open spec fn is_leap_year(y: int) -> bool {
    y % 4 == 0 && (y % 100 != 0 || y % 400 == 0)
}

/// Number of days in a month of the proleptic Gregorian calendar.
pub open spec fn days_in_month(y: int, m: int) -> int {
    if m == 2 {
        if is_leap_year(y) {
            29
        } else {
            28
        }
    } else if m == 4 || m == 6 || m == 9 || m == 11 {
        30
    } else {
        31
    }
}

/// Days since 1970-01-01 of a proleptic-Gregorian calendar date.
/// The year is shifted by a multiple of 400 so that every intermediate
/// quantity is non-negative for years within the supported range.
pub open spec fn days_from_civil(y: int, m: int, d: int) -> int {
    let yy = (if m <= 2 {
        y - 1
    } else {
        y
    }) + 4000000;
    let era = yy / 400;
    let yoe = yy % 400;
    let mp = (m + 9) % 12;
    let doy = (153 * mp + 2) / 5 + d - 1;
    era * 146097 + yoe * 365 + yoe / 4 - yoe / 100 + doy - 1461689468
}

/// The leap-year rule, executably, over years shifted into the
/// non-negative range so that only unsigned arithmetic is needed.
pub fn leap_year(y: i64) -> (r: bool)
    requires
        -YEAR_MAX - 1 <= y <= YEAR_MAX + 1,
    ensures
        r == is_leap_year(y as int),
{
    let z: u64 = (y + 4000000) as u64;
    proof {
        lemma_mod_multiples_vanish(1000000, y as int, 4);
        lemma_mod_multiples_vanish(40000, y as int, 100);
        lemma_mod_multiples_vanish(10000, y as int, 400);
    }
    z % 4 == 0 && (z % 100 != 0 || z % 400 == 0)
}

/// Executable `days_in_month`.
pub fn month_days(y: i64, m: u32) -> (r: u32)
    requires
        -YEAR_MAX - 1 <= y <= YEAR_MAX + 1,
        1 <= m <= 12,
    ensures
        r == days_in_month(y as int, m as int),
{
    if m == 2 {
        if leap_year(y) {
            29
        } else {
            28
        }
    } else if m == 4 || m == 6 || m == 9 || m == 11 {
        30
    } else {
        31
    }
}

/// Bounds on the day number for every date the library can hold; they keep
/// the epoch computation inside `i64`.
pub proof fn lemma_days_from_civil_bounds(y: int, m: int, d: int)
    requires
        -YEAR_MAX - 1 <= y <= YEAR_MAX + 1,
        1 <= m <= 12,
        1 <= d <= 31,
    ensures
        -400000000 < days_from_civil(y, m, d) < 400000000,
{
    let yy = (if m <= 2 {
        y - 1
    } else {
        y
    }) + 4000000;
    let era = yy / 400;
    let yoe = yy % 400;
    lemma_div_is_ordered(2999998, yy, 400);
    lemma_div_is_ordered(yy, 5000001, 400);
    assert(7499 <= era <= 12500);
    lemma_mul_inequality(7499, era, 146097);
    lemma_mul_inequality(era, 12500, 146097);
    assert(0 <= yoe < 400);
    lemma_mul_inequality(yoe, 399, 365);
}

/// The date following a given calendar date, written as the three field
/// updates of the day/month/year rollover.
pub open spec fn civil_successor(y: int, m: int, d: int) -> (int, int, int) {
    if d < days_in_month(y, m) {
        (y, m, d + 1)
    } else if m < 12 {
        (y, m + 1, 1)
    } else {
        (y + 1, 1, 1)
    }
}

/// Advancing a date to the next calendar day advances its day number by
/// exactly one.
pub proof fn lemma_civil_successor(y: int, m: int, d: int)
    requires
        -YEAR_MAX <= y <= YEAR_MAX,
        1 <= m <= 12,
        1 <= d <= days_in_month(y, m),
    ensures
        ({
            let (y2, m2, d2) = civil_successor(y, m, d);
            days_from_civil(y2, m2, d2) == days_from_civil(y, m, d) + 1
        }),
{
    if d < days_in_month(y, m) {
        // same year, month and era; only the day-of-year term moves
    } else if m == 2 {
        // the February boundary: the shifted year changes between the two sides
        let x = y + 4000000;
        let q = x / 400;
        let r = x % 400;
        lemma_fundamental_div_mod(x, 400);
        lemma_mod_multiples_vanish(10000, y, 400);
        lemma_mod_multiples_vanish(1000000, y, 4);
        lemma_mod_multiples_vanish(40000, y, 100);
        lemma_mod_multiples_vanish(100 * q, r, 4);
        lemma_mod_multiples_vanish(4 * q, r, 100);
        assert(y % 400 == r);
        assert(y % 4 == r % 4);
        assert(y % 100 == r % 100);
        if r == 0 {
            lemma_fundamental_div_mod_converse(x - 1, 400, q - 1, 399);
            assert(is_leap_year(y));
        } else {
            lemma_fundamental_div_mod_converse(x - 1, 400, q, r - 1);
            let a4 = r / 4;
            let b4 = r % 4;
            lemma_fundamental_div_mod(r, 4);
            if b4 == 0 {
                lemma_fundamental_div_mod_converse(r - 1, 4, a4 - 1, 3);
            } else {
                lemma_fundamental_div_mod_converse(r - 1, 4, a4, b4 - 1);
            }
            let a100 = r / 100;
            let b100 = r % 100;
            lemma_fundamental_div_mod(r, 100);
            if b100 == 0 {
                lemma_fundamental_div_mod_converse(r - 1, 100, a100 - 1, 99);
                lemma_mod_multiples_vanish(25 * a100, 0, 4);
                assert(r % 4 == 0);
            } else {
                lemma_fundamental_div_mod_converse(r - 1, 100, a100, b100 - 1);
            }
            assert(is_leap_year(y) <==> (b4 == 0 && b100 != 0));
        }
    } else if m < 12 {
        // same shifted year; the two day-of-year constants differ by the
        // length of the month that ends
        assert(m == 1 || m == 3 || m == 4 || m == 5 || m == 6 || m == 7 || m == 8 || m == 9
            || m == 10 || m == 11);
    } else {
        // December to January: the shifted year is unchanged because January
        // is counted with the preceding calendar year
    }
}

impl LocalInstant {
    /// Well-formedness: every field in its calendar range, the offset a
    /// valid UTC offset, the year within the supported span.
    pub open spec fn wf(self) -> bool {
        &&& -YEAR_MAX <= self.year <= YEAR_MAX
        &&& 1 <= self.month <= 12
        &&& 1 <= self.day <= days_in_month(self.year as int, self.month as int)
        &&& self.hour <= 23
        &&& self.minute <= 59
        &&& self.second <= 59
        &&& -86400 < self.offset_seconds < 86400
    }

    /// Seconds of the local wall clock since local midnight.
    pub open spec fn seconds_of_day(self) -> int {
        self.hour * 3600 + self.minute * 60 + self.second
    }

    /// The absolute instant: seconds since 1970-01-01T00:00:00 UTC.
    pub open spec fn epoch(self) -> int {
        days_from_civil(self.year as int, self.month as int, self.day as int) * 86400
            + self.seconds_of_day() - self.offset_seconds
    }

    /// The instant one calendar day later, at the same wall-clock time and
    /// with the same offset.
    pub open spec fn next_day_spec(self) -> LocalInstant {
        let (y2, m2, d2) = civil_successor(self.year as int, self.month as int, self.day as int);
        LocalInstant {
            year: y2 as i64,
            month: m2 as u32,
            day: d2 as u32,
            hour: self.hour,
            minute: self.minute,
            second: self.second,
            offset_seconds: self.offset_seconds,
        }
    }

    /// A well-formed instant whose year is not at the supported bound has a
    /// well-formed next day, exactly 86400 seconds later.
    pub proof fn lemma_next_day(self)
        requires
            self.wf(),
            self.year < YEAR_MAX,
        ensures
            self.next_day_spec().wf(),
            self.next_day_spec().epoch() == self.epoch() + 86400,
    {
        lemma_civil_successor(self.year as int, self.month as int, self.day as int);
    }

    /// Executable day rollover.
    pub fn next_day(&self) -> (r: LocalInstant)
        requires
            self.wf(),
            self.year < YEAR_MAX,
        ensures
            r == self.next_day_spec(),
            r.wf(),
            r.epoch() == self.epoch() + 86400,
    {
        proof {
            self.lemma_next_day();
        }
        if self.day < month_days(self.year, self.month) {
            LocalInstant { day: self.day + 1, ..*self }
        } else if self.month < 12 {
            LocalInstant { month: self.month + 1, day: 1, ..*self }
        } else {
            LocalInstant { year: self.year + 1, month: 1, day: 1, ..*self }
        }
    }

    /// Builds an instant from its fields, validating every calendar range;
    /// returns `None` exactly when the fields do not form a well-formed
    /// local instant.
    pub fn new(
        year: i64,
        month: u32,
        day: u32,
        hour: u32,
        minute: u32,
        second: u32,
        offset_seconds: i64,
    ) -> (r: Option<LocalInstant>)
        ensures
            ({
                let t = LocalInstant { year, month, day, hour, minute, second, offset_seconds };
                if t.wf() {
                    r == Some(t)
                } else {
                    r is None
                }
            }),
    {
        if -YEAR_MAX <= year && year <= YEAR_MAX && 1 <= month && month <= 12 && 1 <= day
            && day <= month_days(year, month) && hour <= 23 && minute <= 59 && second <= 59
            && -86400 < offset_seconds && offset_seconds < 86400 {
            Some(LocalInstant { year, month, day, hour, minute, second, offset_seconds })
        } else {
            None
        }
    }

    /// The absolute instant, executably: seconds since the Unix epoch.
    pub fn epoch_seconds(&self) -> (r: i64)
        requires
            self.wf(),
        ensures
            r == self.epoch(),
    {
        let yy: u64 = if self.month <= 2 {
            (self.year - 1 + 4000000) as u64
        } else {
            (self.year + 4000000) as u64
        };
        let era: u64 = yy / 400;
        let yoe: u64 = yy % 400;
        let mp: u64 = if self.month >= 3 {
            (self.month - 3) as u64
        } else {
            (self.month + 9) as u64
        };
        proof {
            if self.month >= 3 {
                lemma_fundamental_div_mod_converse(self.month + 9, 12, 1, self.month - 3);
            } else {
                lemma_fundamental_div_mod_converse(self.month + 9, 12, 0, self.month + 9);
            }
            lemma_days_from_civil_bounds(
                self.year as int,
                self.month as int,
                self.day as int,
            );
            lemma_div_is_ordered(2999998, yy as int, 400);
            lemma_div_is_ordered(yy as int, 5000001, 400);
            lemma_mul_inequality(7499, era as int, 146097);
            lemma_mul_inequality(era as int, 12500, 146097);
        }
        let doy: u64 = (153 * mp + 2) / 5 + self.day as u64 - 1;
        let shifted: u64 = era * 146097 + yoe * 365 + yoe / 4 - yoe / 100 + doy;
        let days: i64 = shifted as i64 - 1461689468;
        days * 86400 + self.hour as i64 * 3600 + self.minute as i64 * 60 + self.second as i64
            - self.offset_seconds
    }
}

} // verus!
