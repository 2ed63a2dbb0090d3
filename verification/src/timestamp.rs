//! Civil date and time of a file's last modification, as the organizer reads
//! it: the calendar fields, and their rendering as digits.

use vstd::prelude::*;
use crate::text::{decimal, digit_char, from_chars, int_text, push_decimal};

verus! {

/// The calendar fields of a moment, as mathematical integers.
pub struct CivilTime {
    pub year: int,
    pub month: int,
    pub day: int,
    pub hour: int,
    pub minute: int,
    pub second: int,
}

/// A leap year of the proleptic Gregorian calendar.
pub open spec fn is_leap_year(year: int) -> bool {
    year % 4 == 0 && (year % 100 != 0 || year % 400 == 0)
}

/// The number of days of a month.
pub open spec fn days_in_month(year: int, month: int) -> int {
    if month == 2 {
        if is_leap_year(year) {
            29
        } else {
            28
        }
    } else if month == 4 || month == 6 || month == 9 || month == 11 {
        30
    } else {
        31
    }
}

/// The first year that a date can have.
pub const MIN_YEAR: i32 = -262143;

/// The last year that a date can have.
pub const MAX_YEAR: i32 = 262142;

impl CivilTime {
    /// The fields name a moment that exists in the calendar.
    pub open spec fn valid(self) -> bool {
        &&& MIN_YEAR <= self.year <= MAX_YEAR
        &&& 1 <= self.month <= 12
        &&& 1 <= self.day <= days_in_month(self.year, self.month)
        &&& 0 <= self.hour < 24
        &&& 0 <= self.minute < 60
        &&& 0 <= self.second < 60
    }
}

/// Two digits for a number below 100.
pub open spec fn two_digits(n: int) -> Seq<char> {
    seq![digit_char(n / 10), digit_char(n % 10)]
}

/// Four digits for a number below 10000.
pub open spec fn four_digits(n: int) -> Seq<char> {
    seq![
        digit_char(n / 1000),
        digit_char((n / 100) % 10),
        digit_char((n / 10) % 10),
        digit_char(n % 10),
    ]
}

/// The year as a timestamp shows it: four digits from 0 to 9999; outside
/// that range a sign, then at least four digits.
pub open spec fn year_digits(year: int) -> Seq<char> {
    if 0 <= year <= 9999 {
        four_digits(year)
    } else if year > 9999 {
        seq!['+'] + decimal(year as nat)
    } else if year >= -9999 {
        seq!['-'] + four_digits(-year)
    } else {
        seq!['-'] + decimal((-year) as nat)
    }
}

/// Year, month, day, hour, minute and second, written one after the other.
pub open spec fn compact_text(t: CivilTime) -> Seq<char> {
    year_digits(t.year) + two_digits(t.month) + two_digits(t.day) + two_digits(t.hour)
        + two_digits(t.minute) + two_digits(t.second)
}

/// The name of a month's folder: the year as a plain number, then the month
/// in two digits.
pub open spec fn month_text(t: CivilTime) -> Seq<char> {
    int_text(t.year) + two_digits(t.month)
}

/// The moment at which a file was last modified, in local civil time.
#[derive(Clone, Copy, Debug)]
pub struct Timestamp {
    year: i32,
    month: u32,
    day: u32,
    hour: u32,
    minute: u32,
    second: u32,
}

impl View for Timestamp {
    type V = CivilTime;

    closed spec fn view(&self) -> CivilTime {
        CivilTime {
            year: self.year as int,
            month: self.month as int,
            day: self.day as int,
            hour: self.hour as int,
            minute: self.minute as int,
            second: self.second as int,
        }
    }
}

/// `chrono::NaiveDate::from_ymd_opt`, `NaiveDate::and_hms_opt` and
/// `NaiveDateTime::format`: for a moment that exists in the calendar and the
/// pattern `%Y%m%d%H%M%S`, the text is the year as `year_digits` states it,
/// followed by month, day, hour, minute and second in two digits each.
#[verifier::external_body]
fn format_civil(
    year: i32,
    month: u32,
    day: u32,
    hour: u32,
    minute: u32,
    second: u32,
    pattern: &str,
) -> (text: String)
    requires
        (CivilTime {
            year: year as int,
            month: month as int,
            day: day as int,
            hour: hour as int,
            minute: minute as int,
            second: second as int,
        }).valid(),
        pattern@ == "%Y%m%d%H%M%S"@,
    ensures
        text@ == compact_text(
            CivilTime {
                year: year as int,
                month: month as int,
                day: day as int,
                hour: hour as int,
                minute: minute as int,
                second: second as int,
            },
        ),
{
    chrono::NaiveDate::from_ymd_opt(year, month, day).unwrap().and_hms_opt(
        hour,
        minute,
        second,
    ).unwrap().format(pattern).to_string()
}

fn leap(year: i32) -> (b: bool)
    requires
        MIN_YEAR <= year <= MAX_YEAR,
    ensures
        b == is_leap_year(year as int),
{
    let shifted: u32 = (year + 400000) as u32;
    assert(shifted as int % 4 == 0 <==> year as int % 4 == 0);
    assert(shifted as int % 100 == 0 <==> year as int % 100 == 0);
    assert(shifted as int % 400 == 0 <==> year as int % 400 == 0);
    shifted % 4 == 0 && (shifted % 100 != 0 || shifted % 400 == 0)
}

impl Timestamp {
    #[verifier::type_invariant]
    spec fn holds(self) -> bool {
        self@.valid()
    }

    /// The timestamp with these fields, where they name a moment that exists
    /// in the calendar.
    pub fn new(year: i32, month: u32, day: u32, hour: u32, minute: u32, second: u32) -> (r:
        Option<Timestamp>)
        ensures
            match r {
                Some(t) => t@.valid() && t@ == (CivilTime {
                    year: year as int,
                    month: month as int,
                    day: day as int,
                    hour: hour as int,
                    minute: minute as int,
                    second: second as int,
                }),
                None => !(CivilTime {
                    year: year as int,
                    month: month as int,
                    day: day as int,
                    hour: hour as int,
                    minute: minute as int,
                    second: second as int,
                }).valid(),
            },
    {
        if year < MIN_YEAR || year > MAX_YEAR || month < 1 || month > 12 || day < 1 || hour >= 24
            || minute >= 60 || second >= 60 {
            return None;
        }
        let days: u32 = if month == 2 {
            if leap(year) {
                29
            } else {
                28
            }
        } else if month == 4 || month == 6 || month == 9 || month == 11 {
            30
        } else {
            31
        };
        if day > days {
            return None;
        }
        Some(Timestamp { year, month, day, hour, minute, second })
    }

    /// The year; the timestamp names a moment that exists in the calendar.
    pub fn year(&self) -> (r: i32)
        ensures
            r == self@.year,
            self@.valid(),
    {
        proof {
            use_type_invariant(self);
        }
        self.year
    }

    /// The month, from 1 to 12.
    pub fn month(&self) -> (r: u32)
        ensures
            r == self@.month,
    {
        self.month
    }

    /// The day of the month, from 1.
    pub fn day(&self) -> (r: u32)
        ensures
            r == self@.day,
    {
        self.day
    }

    /// The hour, from 0 to 23.
    pub fn hour(&self) -> (r: u32)
        ensures
            r == self@.hour,
    {
        self.hour
    }

    /// The minute, from 0 to 59.
    pub fn minute(&self) -> (r: u32)
        ensures
            r == self@.minute,
    {
        self.minute
    }

    /// The second, from 0 to 59.
    pub fn second(&self) -> (r: u32)
        ensures
            r == self@.second,
    {
        self.second
    }

    /// The timestamp as the digits of year, month, day, hour, minute and
    /// second.
    pub fn compact(&self) -> (text: String)
        ensures
            text@ == compact_text(self@),
    {
        proof {
            use_type_invariant(self);
        }
        format_civil(
            self.year,
            self.month,
            self.day,
            self.hour,
            self.minute,
            self.second,
            "%Y%m%d%H%M%S",
        )
    }

    /// The name of the year's folder: the year as a plain number.
    pub fn year_folder(&self) -> (text: String)
        ensures
            text@ == int_text(self@.year),
    {
        proof {
            use_type_invariant(self);
        }
        let mut v: Vec<char> = Vec::new();
        if self.year < 0 {
            v.push('-');
            push_decimal(&mut v, (-(self.year as i64)) as u64);
        } else {
            push_decimal(&mut v, self.year as u64);
        }
        proof {
            assert(v@ =~= int_text(self@.year));
        }
        from_chars(&v)
    }

    /// The name of the month's folder.
    pub fn month_folder(&self) -> (text: String)
        ensures
            text@ == month_text(self@),
    {
        proof {
            use_type_invariant(self);
        }
        let mut v: Vec<char> = Vec::new();
        if self.year < 0 {
            v.push('-');
            push_decimal(&mut v, (-(self.year as i64)) as u64);
        } else {
            push_decimal(&mut v, self.year as u64);
        }
        let tens: u8 = (self.month / 10) as u8;
        let ones: u8 = (self.month % 10) as u8;
        v.push((48u8 + tens) as char);
        v.push((48u8 + ones) as char);
        proof {
            assert(v@ =~= month_text(self@));
        }
        from_chars(&v)
    }
}

/// From year 0 to year 9999 the digits of a moment are fourteen.
pub proof fn lemma_compact_text_digits(t: CivilTime)
    requires
        t.valid(),
        0 <= t.year <= 9999,
    ensures
        compact_text(t).len() == 14,
        crate::text::all_digits(compact_text(t)),
{
    let s = compact_text(t);
    assert(s.len() == 14);
    assert forall|i: int| 0 <= i < s.len() implies crate::text::is_digit(#[trigger] s[i]) by {
        if i < 4 {
            assert(s[i] == four_digits(t.year)[i]);
        } else if i < 6 {
            assert(s[i] == two_digits(t.month)[i - 4]);
        } else if i < 8 {
            assert(s[i] == two_digits(t.day)[i - 6]);
        } else if i < 10 {
            assert(s[i] == two_digits(t.hour)[i - 8]);
        } else if i < 12 {
            assert(s[i] == two_digits(t.minute)[i - 10]);
        } else {
            assert(s[i] == two_digits(t.second)[i - 12]);
        }
    }
}

} // verus!
