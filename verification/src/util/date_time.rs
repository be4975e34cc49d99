use vstd::prelude::*;

verus! {

/// A time of day.
#[derive(PartialEq, Eq, Structural, Clone, Copy, Debug)]
pub struct Time {
    pub hour: u8,
    pub minute: u8,
    pub second: u8,
}

impl Time {
    pub fn new() -> (res: Self)
        ensures
            res == (Time { hour: 0, minute: 0, second: 0 }),
    {
        Self { hour: 0, minute: 0, second: 0 }
    }

    pub fn from(hour: u8, minute: u8, second: u8) -> (res: Self)
        ensures
            res == (Time { hour, minute, second }),
    {
        Self { hour: hour, minute: minute, second: second }
    }
}

/// A calendar date.
#[derive(PartialEq, Eq, Structural, Clone, Copy, Debug)]
pub struct Date {
    pub year: u16,
    pub month: u8,
    pub day: u8,
}

impl Date {
    pub fn new() -> (res: Self)
        ensures
            res == (Date { year: 0, month: 0, day: 0 }),
    {
        Self { year: 0, month: 0, day: 0 }
    }

    pub fn from(year: u16, month: u8, day: u8) -> (res: Self)
        ensures
            res == (Date { year, month, day }),
    {
        Self { year: year, month: month, day: day }
    }
}

/// A date together with a time of day.
#[derive(PartialEq, Eq, Structural, Clone, Copy, Debug)]
pub struct DateTime {
    pub date: Date,
    pub time: Time,
}

impl DateTime {
    pub fn new() -> (res: Self)
        ensures
            res == (DateTime { date: Date { year: 0, month: 0, day: 0 }, time: Time { hour: 0, minute: 0, second: 0 } }),
    {
        Self { date: Date::new(), time: Time::new() }
    }

    pub fn from(date: Date, time: Time) -> (res: Self)
        ensures
            res == (DateTime { date, time }),
    {
        Self { date: date, time: time }
    }
}

pub open spec fn is_leap_year(y: int) -> bool {
    (y % 4 == 0 && y % 100 != 0) || y % 400 == 0
}

pub open spec fn year_length(y: int) -> int {
    if is_leap_year(y) {
        366
    } else {
        365
    }
}

pub open spec fn month_length(y: int, m: int) -> int {
    if m == 2 {
        if is_leap_year(y) {
            29
        } else {
            28
        }
    } else if m == 4 || m == 6 || m == 9 || m == 11 {
        30
    } else {
        31
    }
}

/// Days from 1970-01-01 to the first day of year `y`.
pub open spec fn days_before_year(y: int) -> int
    decreases y - 1970,
{
    if y <= 1970 {
        0
    } else {
        days_before_year(y - 1) + year_length(y - 1)
    }
}

/// Days from the first day of year `y` to the first day of month `m`.
pub open spec fn days_before_month(y: int, m: int) -> int
    decreases m,
{
    if m <= 1 {
        0
    } else {
        days_before_month(y, m - 1) + month_length(y, m - 1)
    }
}

impl DateTime {
    /// A date from 1970 on with its month and day in range, and a time of day.
    pub open spec fn is_valid(self) -> bool {
        &&& self.date.year >= 1970
        &&& 1 <= self.date.month <= 12
        &&& 1 <= self.date.day <= month_length(self.date.year as int, self.date.month as int)
        &&& self.time.hour < 24
        &&& self.time.minute < 60
        &&& self.time.second < 60
    }

    /// Seconds from 1970-01-01 00:00:00 to this instant.
    pub open spec fn unix_seconds(self) -> int {
        (days_before_year(self.date.year as int) + days_before_month(
            self.date.year as int,
            self.date.month as int,
        ) + self.date.day - 1) * 86400 + self.time.hour * 3600 + self.time.minute * 60
            + self.time.second
    }

    /// Its fields are in their calendar ranges, the year aside.
    pub open spec fn in_calendar_range(self) -> bool {
        &&& 1 <= self.date.month <= 12
        &&& 1 <= self.date.day <= 31
        &&& self.time.hour < 24
        &&& self.time.minute < 60
        &&& self.time.second < 60
    }

    /// The date and time (UTC) at `secs` seconds after 1970-01-01 00:00:00.
    /// Exact up to `UNIX_SECONDS_LIMIT`; later instants keep their month,
    /// day and time, and their year is cut to 16 bits.
    pub fn from_unix_seconds(secs: u64) -> (res: DateTime)
        ensures
            res.in_calendar_range(),
            secs < UNIX_SECONDS_LIMIT ==> res.is_valid() && res.unix_seconds() == secs,
    {
        let days = secs / 86400;
        let rem = secs % 86400;
        let mut year: u64 = 1970;
        let mut left: u64 = days;
        proof {
            lemma_year_length_bounds(1970);
        }
        while left >= year_length_exec(year)
            invariant
                year >= 1970,
                left <= days,
                days == secs / 86400,
                days_before_year(year as int) + left == days,
                365 * (year - 1970) <= days - left,
            decreases left,
        {
            proof {
                lemma_year_length_bounds(year as int);
            }
            left = left - year_length_exec(year);
            year = year + 1;
        }
        proof {
            lemma_year_length_bounds(year as int);
            lemma_months_fill_year(year as int);
        }
        let mut month: u64 = 1;
        while left >= month_length_exec(year, month)
            invariant
                1 <= month <= 12,
                year >= 1970,
                left < year_length(year as int),
                days_before_month(year as int, month as int) + left < year_length(year as int),
                days_before_year(year as int) + days_before_month(year as int, month as int) + left
                    == days,
                days == secs / 86400,
            decreases 12 - month,
        {
            proof {
                lemma_months_fill_year(year as int);
                if month == 12 {
                    assert(days_before_month(year as int, 13) == days_before_month(year as int, 12)
                        + month_length(year as int, 12));
                }
            }
            left = left - month_length_exec(year, month);
            month = month + 1;
        }
        #[verifier::truncate]
        let y = year as u16;
        let res = DateTime {
            date: Date { year: y, month: month as u8, day: (left + 1) as u8 },
            time: Time {
                hour: (rem / 3600) as u8,
                minute: (rem % 3600 / 60) as u8,
                second: (rem % 60) as u8,
            },
        };
        proof {
            if secs < UNIX_SECONDS_LIMIT {
                assert(365 * (year - 1970) <= days);
                assert(days < 12800000);
                assert(y == year);
            }
        }
        res
    }

    /// The current date and time (UTC), read from the system clock; a clock
    /// set before 1970 counts as 1970-01-01 00:00:00.
    pub fn now() -> (res: DateTime)
        ensures
            res.in_calendar_range(),
    {
        let secs = match since_epoch(&system_now()) {
            Ok(d) => whole_seconds(&d),
            Err(_) => 0,
        };
        DateTime::from_unix_seconds(secs)
    }
}

/// Instants before this many seconds after 1970 have a year that fits in 16
/// bits.
pub const UNIX_SECONDS_LIMIT: u64 = 1_099_511_627_776;

fn year_length_exec(y: u64) -> (res: u64)
    ensures
        res == year_length(y as int),
{
    if (y % 4 == 0 && y % 100 != 0) || y % 400 == 0 {
        366
    } else {
        365
    }
}

fn month_length_exec(y: u64, m: u64) -> (res: u64)
    ensures
        res == month_length(y as int, m as int),
{
    if m == 2 {
        if (y % 4 == 0 && y % 100 != 0) || y % 400 == 0 {
            29
        } else {
            28
        }
    } else if m == 4 || m == 6 || m == 9 || m == 11 {
        30
    } else {
        31
    }
}

proof fn lemma_year_length_bounds(y: int)
    ensures
        365 <= year_length(y) <= 366,
{
}

/// The twelve months of a year make up the whole year.
proof fn lemma_months_fill_year(y: int)
    ensures
        days_before_month(y, 13) == year_length(y),
        forall|m: int| 1 <= m <= 12 ==> 28 <= #[trigger] month_length(y, m) <= 31,
{
    reveal_with_fuel(days_before_month, 13);
}

#[verifier::external_type_specification]
#[verifier::external_body]
pub struct ExSystemTime(std::time::SystemTime);

#[verifier::external_type_specification]
#[verifier::external_body]
pub struct ExSystemTimeError(std::time::SystemTimeError);

/// `SystemTime::now`: the current reading of the system clock. What it
/// returns depends on the clock, so nothing is promised of it.
#[verifier::external_body]
fn system_now() -> (res: std::time::SystemTime) {
    std::time::SystemTime::now()
}

/// `SystemTime::duration_since` taken from the Unix epoch: the time elapsed
/// since then, or an error where the clock reads earlier. Which of the two
/// comes back depends on the clock, so nothing is promised of it.
#[verifier::external_body]
fn since_epoch(t: &std::time::SystemTime) -> (res: Result<std::time::Duration, std::time::SystemTimeError>) {
    t.duration_since(std::time::UNIX_EPOCH)
}

/// `Duration::as_secs`: the whole seconds of a duration. A duration is
/// opaque here, so nothing is stated of the number.
#[verifier::external_body]
fn whole_seconds(d: &std::time::Duration) -> (res: u64) {
    d.as_secs()
}

impl View for Time {
    type V = Time;

    open spec fn view(&self) -> Time {
        *self
    }
}

impl View for Date {
    type V = Date;

    open spec fn view(&self) -> Date {
        *self
    }
}

impl View for DateTime {
    type V = DateTime;

    open spec fn view(&self) -> DateTime {
        *self
    }
}

} // verus!
