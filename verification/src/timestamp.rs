//! The calendar model behind attribution timestamps.
//!
//! A timestamp is a civil date and time of day together with a fixed offset
//! east of UTC, exactly the fields the attribution-line grammar carries.
//! Two timestamps are compared through [`Timestamp::instant`], the number of
//! seconds the instant lies after an arbitrary fixed reference point; the
//! comparison is therefore the order of the real instants, independent of
//! the offsets the lines were written with.

use vstd::prelude::*;

verus! {

/// A timezone-aware instant: civil date, time of day, and offset east of
/// UTC in minutes (negative offsets lie west).
#[derive(Clone, Copy, PartialEq, Eq, Structural, Debug)]
pub struct Timestamp {
    pub year: u32,
    pub month: u32,
    pub day: u32,
    pub hour: u32,
    pub minute: u32,
    pub second: u32,
    pub offset_minutes: i32,
}

/// Proleptic Gregorian leap-year rule.
pub open spec fn is_leap_year(y: int) -> bool {
    y % 4 == 0 && (y % 100 != 0 || y % 400 == 0)
}

/// Number of days in month `m` of year `y` (months counted from 1).
pub open spec fn days_in_month(y: int, m: int) -> int {
    if m == 2 {
        if is_leap_year(y) {
            29
        } else {
            28
        }
    } else if m == 4 || m == 6 || m == 9 || m == 11 {
        30
    } else {
        31
    }
}

impl Timestamp {
    /// A well-formed timestamp names a real calendar date and time of day,
    /// within the four-digit years the grammar can carry, and an offset
    /// whose magnitude stays under a day's worth of minutes on each side.
    pub open spec fn wf(self) -> bool {
        &&& self.year <= 9999
        &&& 1 <= self.month <= 12
        &&& 1 <= self.day <= days_in_month(self.year as int, self.month as int)
        &&& self.hour <= 23
        &&& self.minute <= 59
        &&& self.second <= 59
        &&& -1439 <= self.offset_minutes <= 1439
    }

    /// Julian day number of the civil date, by the standard arithmetic
    /// formula for the proleptic Gregorian calendar.
    pub open spec fn day_number(self) -> int {
        let a = (14 - self.month as int) / 12;
        let y = self.year as int + 4800 - a;
        let m = self.month as int + 12 * a - 3;
        self.day as int + (153 * m + 2) / 5 + 365 * y + y / 4 - y / 100 + y / 400 - 32045
    }

    /// Seconds after a fixed reference instant. Subtracting the offset
    /// normalizes every timestamp to UTC, so `instant` orders timestamps
    /// as instants regardless of the offsets they were written with.
    pub open spec fn instant(self) -> int {
        self.day_number() * 86400 + self.hour as int * 3600 + self.minute as int * 60
            + self.second as int - self.offset_minutes as int * 60
    }

    /// Executable form of [`Timestamp::instant`].
    pub fn instant_seconds(&self) -> (r: i64)
        requires
            self.wf(),
        ensures
            r as int == self.instant(),
    {
        let a: u64 = ((14 - self.month) / 12) as u64;
        let y: u64 = self.year as u64 + 4800 - a;
        let m: u64 = self.month as u64 + 12 * a - 3;
        let jdn: u64 = self.day as u64 + (153 * m + 2) / 5 + 365 * y + y / 4 - y / 100 + y
            / 400 - 32045;
        let civil: u64 = jdn * 86400 + self.hour as u64 * 3600 + self.minute as u64 * 60
            + self.second as u64;
        civil as i64 - self.offset_minutes as i64 * 60
    }

    /// Whether `self` names a strictly earlier instant than `other`.
    pub fn is_before(&self, other: &Timestamp) -> (r: bool)
        requires
            self.wf(),
            other.wf(),
        ensures
            r == (self.instant() < other.instant()),
    {
        self.instant_seconds() < other.instant_seconds()
    }

    /// The latest well-formed timestamp's fields, used by the undefined
    /// sentinel record so that its timestamp reads as far in the future
    /// as the model reaches.
    pub open spec fn latest_spec() -> Timestamp {
        Timestamp {
            year: 9999,
            month: 12,
            day: 31,
            hour: 23,
            minute: 59,
            second: 59,
            offset_minutes: -1439i32,
        }
    }

    /// Executable form of [`Timestamp::latest_spec`].
    pub fn latest() -> (r: Timestamp)
        ensures
            r == Timestamp::latest_spec(),
            r.wf(),
    {
        Timestamp {
            year: 9999,
            month: 12,
            day: 31,
            hour: 23,
            minute: 59,
            second: 59,
            offset_minutes: -1439,
        }
    }

    /// Whether the fields form a well-formed timestamp.
    pub fn check_wf(&self) -> (r: bool)
        ensures
            r == self.wf(),
    {
        let leap: bool = self.year % 4 == 0 && (self.year % 100 != 0 || self.year % 400 == 0);
        let dim: u32 = if self.month == 2 {
            if leap {
                29
            } else {
                28
            }
        } else if self.month == 4 || self.month == 6 || self.month == 9 || self.month == 11 {
            30
        } else {
            31
        };
        self.year <= 9999 && 1 <= self.month && self.month <= 12 && 1 <= self.day && self.day
            <= dim && self.hour <= 23 && self.minute <= 59 && self.second <= 59 && -1439
            <= self.offset_minutes && self.offset_minutes <= 1439
    }
}

/// No well-formed timestamp names a later instant than
/// [`Timestamp::latest_spec`]: the undefined record's timestamp compares
/// as maximal, so any real record reads as at least as old.
pub proof fn lemma_latest_is_maximal(t: Timestamp)
    requires
        t.wf(),
    ensures
        t.instant() <= Timestamp::latest_spec().instant(),
{
    let a = (14 - t.month as int) / 12;
    let yy = t.year as int + 4800 - a;
    let mm = t.month as int + 12 * a - 3;
    if t.month >= 3 {
        vstd::arithmetic::div_mod::lemma_basic_div(14 - t.month as int, 12);
        assert(a == 0);
    } else {
        assert(a == 1);
    }
    vstd::arithmetic::div_mod::lemma_div_is_ordered(0, yy, 100);
    vstd::arithmetic::div_mod::lemma_div_is_ordered(153 * mm + 2, 1685, 5);
    if t.year <= 9998 || t.month <= 2 {
        assert(yy <= 14798);
        vstd::arithmetic::div_mod::lemma_div_is_ordered(yy, 14798, 4);
        vstd::arithmetic::div_mod::lemma_div_is_ordered(yy, 14798, 400);
        assert(t.day_number() <= 31 + 337 + 365 * 14798 + 14798int / 4 + 14798int / 400 - 32045);
    } else {
        // year 9999, month at least 3: the shifted year is exactly 14799,
        // and December the 31st attains every remaining term's bound
        assert(a == 0);
        assert(yy == 14799);
        assert(mm <= 9);
        vstd::arithmetic::div_mod::lemma_div_is_ordered(153 * mm + 2, 1379, 5);
        assert(t.day_number() <= 31 + 275 + 365 * 14799 + 14799int / 4 - 14799int / 100
            + 14799int / 400 - 32045);
    }
    assert(Timestamp::latest_spec().day_number() == 5373484);
}

} // verus!
