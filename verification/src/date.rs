//! The date and time that the panel shows.
use crate::numbers::{
    dec_int, dec_two, integer, integers_can_be_read_back, push_i64, push_two,
    two_digits_can_be_read_back,
};
use vstd::prelude::*;

verus! {

broadcast use vstd::string::group_string_axioms;

/// A local time as the C library counts: years since 1900, months and weekdays from zero.
#[derive(Clone, Copy, Debug, PartialEq, Eq)]
pub struct LocalTime {
    pub year: i32,
    pub month: i32,
    pub day: i32,
    pub hour: i32,
    pub minute: i32,
    pub second: i32,
    /// 0 is Sunday.
    pub weekday: i32,
}

impl LocalTime {
    /// The year and the month of the calendar are 32-bit numbers.
    pub open spec fn is_in_range(self) -> bool {
        self.year + 1900 <= i32::MAX && self.month + 1 <= i32::MAX
    }

    /// The calendar's date and time.
    pub open spec fn parts(self) -> DateParts {
        DateParts {
            year: (self.year + 1900) as i32,
            month: (self.month + 1) as i32,
            day: self.day,
            hour: self.hour,
            minute: self.minute,
            second: self.second,
            win_dow: self.weekday,
        }
    }

    /// The year and the month of the calendar are 32-bit numbers.
    pub fn check(&self) -> (r: bool)
        ensures
            r == self.is_in_range(),
    {
        self.year <= i32::MAX - 1900 && self.month < i32::MAX
    }
}

/// A date and time of the calendar.
#[derive(Clone, Copy, Debug, PartialEq, Eq)]
pub struct DateParts {
    pub year: i32,
    pub month: i32,
    pub day: i32,
    pub hour: i32,
    pub minute: i32,
    pub second: i32,
    /// 0 is Sunday, 6 is Saturday.
    pub win_dow: i32,
}

/// The calendar's date and time.
pub fn now_local(now: LocalTime) -> (r: DateParts)
    requires
        now.is_in_range(),
    ensures
        r == now.parts(),
{
    DateParts {
        year: now.year + 1900,
        month: now.month + 1,
        day: now.day,
        hour: now.hour,
        minute: now.minute,
        second: now.second,
        win_dow: now.weekday,
    }
}

/// The last two digits of a year, with the year's sign.
pub open spec fn short_year(year: int) -> int {
    if year < 0 {
        -((-year) % 100)
    } else {
        year % 100
    }
}

/// The text of a date, such as `Date:26/07/21;Time:09:05:00;Week:2`.
pub open spec fn date_text(d: DateParts) -> Seq<char> {
    "Date:"@ + dec_two(short_year(d.year as int)) + "/"@ + dec_two(d.month as int) + "/"@ + dec_two(
        d.day as int,
    ) + ";Time:"@ + dec_two(d.hour as int) + ":"@ + dec_two(d.minute as int) + ":"@ + dec_two(
        d.second as int,
    ) + ";Week:"@ + dec_int(d.win_dow as int)
}

/// The text of a date.
pub fn date_payload(d: &DateParts) -> (r: String)
    ensures
        r@ == date_text(*d),
{
    let year: i64 = d.year as i64;
    let short: i64 = if year < 0 {
        -((-year) % 100)
    } else {
        year % 100
    };
    let mut r: String = "Date:".to_string();
    push_two(&mut r, short);
    r.append("/");
    push_two(&mut r, d.month as i64);
    r.append("/");
    push_two(&mut r, d.day as i64);
    r.append(";Time:");
    push_two(&mut r, d.hour as i64);
    r.append(":");
    push_two(&mut r, d.minute as i64);
    r.append(":");
    push_two(&mut r, d.second as i64);
    r.append(";Week:");
    push_i64(&mut r, d.win_dow as i64);
    r
}

/// Each field of the date can be read where it stands: two digits each for year, month, day,
/// hour, minute and second, and then the day of the week.
pub proof fn dates_can_be_read_back(d: DateParts)
    requires
        0 <= d.year,
        0 <= d.month < 100,
        0 <= d.day < 100,
        0 <= d.hour < 100,
        0 <= d.minute < 100,
        0 <= d.second < 100,
        0 <= d.win_dow < 10,
    ensures
        ({
            let s: Seq<char> = date_text(d);
            &&& integer(s.subrange(5, 7)) == Some(d.year as int % 100)
            &&& integer(s.subrange(8, 10)) == Some(d.month as int)
            &&& integer(s.subrange(11, 13)) == Some(d.day as int)
            &&& integer(s.subrange(19, 21)) == Some(d.hour as int)
            &&& integer(s.subrange(22, 24)) == Some(d.minute as int)
            &&& integer(s.subrange(25, 27)) == Some(d.second as int)
            &&& s.len() == 34
            &&& integer(s.subrange(33, 34)) == Some(d.win_dow as int)
            &&& s.take(5) == "Date:"@
            &&& s[7] == '/' && s[10] == '/' && s[21] == ':' && s[24] == ':'
            &&& s.subrange(13, 19) == ";Time:"@
            &&& s.subrange(27, 33) == ";Week:"@
        }),
{
    reveal_strlit("Date:");
    reveal_strlit("/");
    reveal_strlit(";Time:");
    reveal_strlit(":");
    reveal_strlit(";Week:");
    let y: int = d.year as int % 100;
    two_digits_can_be_read_back(y);
    two_digits_can_be_read_back(d.month as int);
    two_digits_can_be_read_back(d.day as int);
    two_digits_can_be_read_back(d.hour as int);
    two_digits_can_be_read_back(d.minute as int);
    two_digits_can_be_read_back(d.second as int);
    integers_can_be_read_back(d.win_dow as int);
    assert(dec_int(d.win_dow as int).len() == 1);
    let s: Seq<char> = date_text(d);
    assert(s.subrange(5, 7) == dec_two(y));
    assert(s.subrange(8, 10) == dec_two(d.month as int));
    assert(s.subrange(11, 13) == dec_two(d.day as int));
    assert(s.subrange(19, 21) == dec_two(d.hour as int));
    assert(s.subrange(22, 24) == dec_two(d.minute as int));
    assert(s.subrange(25, 27) == dec_two(d.second as int));
    assert(s.subrange(33, 34) == dec_int(d.win_dow as int));
    assert(s.take(5) == "Date:"@);
    assert(s.subrange(13, 19) == ";Time:"@);
    assert(s.subrange(27, 33) == ";Week:"@);
}

/// The calendar's year counts from the year 0 and its months from 1; everything else is as
/// the C library gives it.
pub proof fn calendars_count_from_one(t: LocalTime)
    requires
        t.is_in_range(),
    ensures
        t.parts().year == t.year + 1900,
        t.parts().month == t.month + 1,
        t.parts().day == t.day,
        t.parts().hour == t.hour,
        t.parts().minute == t.minute,
        t.parts().second == t.second,
        t.parts().win_dow == t.weekday,
{
}

/// A year is shortened to its last two digits, and keeps its sign.
pub proof fn short_years_keep_their_sign(century: int, year: int)
    requires
        century >= 0,
        0 <= year < 100,
    ensures
        short_year(100 * century + year) == year,
        short_year(-(100 * century + year)) == -year,
{
}

/// The fields stand in the order year, month, day, hour, minute, second and day of the week,
/// whatever they are.
pub proof fn fields_have_an_order(d: DateParts)
    ensures
        date_text(d) == "Date:"@ + dec_two(short_year(d.year as int)) + "/"@ + dec_two(
            d.month as int,
        ) + "/"@ + dec_two(d.day as int) + ";Time:"@ + dec_two(d.hour as int) + ":"@ + dec_two(
            d.minute as int,
        ) + ":"@ + dec_two(d.second as int) + ";Week:"@ + dec_int(d.win_dow as int),
{
}

} // verus!
