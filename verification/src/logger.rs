//! The pure parts of the logger: log levels, UTC timestamps and the default
//! line formats.
use crate::decimal::{
    decimal_digits, lemma_padded_order, lemma_text_before_in_part, padded_decimal, pow10,
    push_char, push_digits, push_padded, text_before,
};
use vstd::prelude::*;
use vstd::string::StringExecFns;

verus! {

pub const SECONDS_IN_A_DAY: u64 = 86400;

pub const SECONDS_IN_AN_HOUR: u64 = 3600;

pub const SECONDS_IN_A_MINUTE: u64 = 60;

pub const DAYS_IN_A_YEAR: u64 = 365;

pub const UNIX_EPOCH_YEAR: u64 = 1970;

/// Whether `year` is a leap year of the Gregorian calendar.
pub open spec fn is_leap_year(year: int) -> bool {
    (year % 4 == 0 && year % 100 != 0) || year % 400 == 0
}

/// The number of days of `year`.
pub open spec fn days_in_year(year: int) -> int {
    if is_leap_year(year) {
        366
    } else {
        365
    }
}

/// The number of days of the month `month`, 1 to 12, of `year`.
pub open spec fn days_in_month(year: int, month: int) -> int {
    if month == 2 {
        if is_leap_year(year) {
            29
        } else {
            28
        }
    } else if month == 4 || month == 6 || month == 9 || month == 11 {
        30
    } else {
        31
    }
}

/// The number of days from the first day of 1970 to the first day of `year`.
pub open spec fn days_before_year(year: int) -> int
    decreases year - 1970,
{
    if year <= 1970 {
        0
    } else {
        days_before_year(year - 1) + days_in_year(year - 1)
    }
}

/// The number of days from the first day of `year` to the first day of its
/// month `month`.
pub open spec fn days_before_month(year: int, month: int) -> int
    decreases month,
{
    if month <= 1 {
        0
    } else {
        days_before_month(year, month - 1) + days_in_month(year, month - 1)
    }
}

/// A date and a time of day, UTC.
#[derive(Debug, Clone, Copy, PartialEq, Eq, Structural)]
pub struct UtcTime {
    pub year: u64,
    pub month: u64,
    pub day: u64,
    pub hours: u64,
    pub minutes: u64,
    pub seconds: u64,
}

impl UtcTime {
    /// Whether this is a date of the calendar, 1970 or later, with a time of
    /// day.
    pub open spec fn is_calendar_time(self) -> bool {
        &&& self.year >= 1970
        &&& 1 <= self.month <= 12
        &&& 1 <= self.day <= days_in_month(self.year as int, self.month as int)
        &&& self.hours < 24
        &&& self.minutes < 60
        &&& self.seconds < 60
    }

    /// The number of seconds from the start of 1970 to this time.
    pub open spec fn unix_seconds(self) -> int {
        (days_before_year(self.year as int) + days_before_month(self.year as int, self.month as int)
            + self.day - 1) * 86400 + self.hours * 3600 + self.minutes * 60 + self.seconds
    }
}

/// Whether `year` is a leap year of the Gregorian calendar.
pub fn leap_year(year: u64) -> (leap: bool)
    ensures
        leap == is_leap_year(year as int),
{
    (year % 4 == 0 && year % 100 != 0) || (year % 400 == 0)
}

/// The number of days of the month `month` of `year`.
pub fn month_length(year: u64, month: u64) -> (days: u64)
    requires
        1 <= month <= 12,
    ensures
        days == days_in_month(year as int, month as int),
{
    if month == 2 {
        if leap_year(year) {
            29
        } else {
            28
        }
    } else if month == 4 || month == 6 || month == 9 || month == 11 {
        30
    } else {
        31
    }
}

/// A year has as many days as its twelve months together.
pub proof fn lemma_months_fill_year(year: int)
    ensures
        days_before_month(year, 13) == days_in_year(year),
{
    reveal_with_fuel(days_before_month, 14);
}

/// The calendar date and the time of day, UTC, that lie `seconds` seconds
/// after the start of 1970.
pub fn utc_from_unix_seconds(seconds: u64) -> (time: UtcTime)
    ensures
        time.is_calendar_time(),
        time.unix_seconds() == seconds,
{
    let mut seconds = seconds;
    let days = seconds / SECONDS_IN_A_DAY;
    seconds %= SECONDS_IN_A_DAY;
    let hours = seconds / SECONDS_IN_AN_HOUR;
    seconds %= SECONDS_IN_AN_HOUR;
    let minutes = seconds / SECONDS_IN_A_MINUTE;
    seconds %= SECONDS_IN_A_MINUTE;

    let mut days_from_epoch = days;
    let mut year = UNIX_EPOCH_YEAR;
    loop
        invariant
            year >= 1970,
            year - 1970 + days_from_epoch <= days,
            days <= u64::MAX / 86400,
            days_from_epoch + days_before_year(year as int) == days,
        ensures
            days_from_epoch < days_in_year(year as int),
        decreases days_from_epoch,
    {
        let days_in_year = if leap_year(year) {
            DAYS_IN_A_YEAR + 1
        } else {
            DAYS_IN_A_YEAR
        };
        if days_from_epoch >= days_in_year {
            days_from_epoch -= days_in_year;
            year += 1;
        } else {
            break ;
        }
    }

    let mut month: u64 = 1;
    proof {
        lemma_months_fill_year(year as int);
    }
    loop
        invariant
            1 <= month <= 12,
            days_before_month(year as int, 13) == days_in_year(year as int),
            days_from_epoch + days_before_month(year as int, month as int) < days_in_year(
                year as int,
            ),
            days_from_epoch + days_before_month(year as int, month as int) + days_before_year(
                year as int,
            ) == days,
        ensures
            days_from_epoch < days_in_month(year as int, month as int),
        decreases 12 - month,
    {
        let days_in_current_month = month_length(year, month);
        if days_from_epoch >= days_in_current_month {
            days_from_epoch -= days_in_current_month;
            month += 1;
        } else {
            break ;
        }
    }
    let time = UtcTime { year, month, day: days_from_epoch + 1, hours, minutes, seconds };
    assert(time.unix_seconds() == days * 86400 + hours * 3600 + minutes * 60 + seconds);
    time
}

/// The text of `time`, as `YYYY-MM-DD hh:mm:ss`.
pub open spec fn utc_text(time: UtcTime) -> Seq<char> {
    padded_decimal(time.year as nat, 4) + seq!['-'] + padded_decimal(time.month as nat, 2)
        + seq!['-'] + padded_decimal(time.day as nat, 2) + seq![' '] + padded_decimal(
        time.hours as nat,
        2,
    ) + seq![':'] + padded_decimal(time.minutes as nat, 2) + seq![':'] + padded_decimal(
        time.seconds as nat,
        2,
    )
}

/// The text of `time`, as `YYYY-MM-DD hh:mm:ss`, each part filled with
/// zeros to its width.
pub fn format_utc(time: &UtcTime) -> (text: String)
    ensures
        text@ == utc_text(*time),
{
    let mut text = String::new();
    push_padded(&mut text, time.year, 4);
    push_char(&mut text, '-');
    push_padded(&mut text, time.month, 2);
    push_char(&mut text, '-');
    push_padded(&mut text, time.day, 2);
    push_char(&mut text, ' ');
    push_padded(&mut text, time.hours, 2);
    push_char(&mut text, ':');
    push_padded(&mut text, time.minutes, 2);
    push_char(&mut text, ':');
    push_padded(&mut text, time.seconds, 2);
    assert(text@ =~= utc_text(*time));
    text
}

/// The text of the date and time, UTC, that lie `seconds` seconds after the
/// start of 1970.
pub fn utc_string_from_unix_seconds(seconds: u64) -> (text: String)
    ensures
        text@ == utc_text_of(seconds),
        calendar_time_of(seconds).is_calendar_time(),
        calendar_time_of(seconds).unix_seconds() == seconds,
{
    let time = utc_from_unix_seconds(seconds);
    proof {
        lemma_calendar_time_unique(time, calendar_time_of(seconds));
    }
    format_utc(&time)
}

/// The calendar time that lies `seconds` seconds after the start of 1970.
pub open spec fn calendar_time_of(seconds: u64) -> UtcTime {
    choose|time: UtcTime| time.is_calendar_time() && time.unix_seconds() == seconds
}

/// The text of the calendar time that lies `seconds` seconds after the start
/// of 1970.
pub open spec fn utc_text_of(seconds: u64) -> Seq<char> {
    utc_text(calendar_time_of(seconds))
}

/// The days before a year grow with the year.
pub proof fn lemma_days_before_year_grow(earlier: int, later: int)
    requires
        1970 <= earlier < later,
    ensures
        days_before_year(earlier) + days_in_year(earlier) <= days_before_year(later),
    decreases later - earlier,
{
    if earlier + 1 < later {
        lemma_days_before_year_grow(earlier, later - 1);
    }
}

/// The days before a month grow with the month.
pub proof fn lemma_days_before_month_grow(year: int, earlier: int, later: int)
    requires
        1 <= earlier <= later,
    ensures
        0 <= days_before_month(year, earlier) <= days_before_month(year, later),
    decreases later,
{
    if earlier < later {
        lemma_days_before_month_grow(year, earlier, later - 1);
    } else if earlier > 1 {
        lemma_days_before_month_grow(year, earlier - 1, later - 1);
    }
}

/// The number of the day of `time`, counted from the first day of 1970.
pub open spec fn day_number(time: UtcTime) -> int {
    days_before_year(time.year as int) + days_before_month(time.year as int, time.month as int)
        + time.day - 1
}

/// A calendar day lies in its year: not before the year's first day, and
/// before the first day of the next year.
pub proof fn lemma_day_in_year(time: UtcTime)
    requires
        time.is_calendar_time(),
    ensures
        days_before_year(time.year as int) <= day_number(time) < days_before_year(
            time.year as int,
        ) + days_in_year(time.year as int),
        days_before_month(time.year as int, time.month as int) + days_in_month(
            time.year as int,
            time.month as int,
        ) == days_before_month(time.year as int, time.month as int + 1),
{
    let year = time.year as int;
    let month = time.month as int;
    lemma_months_fill_year(year);
    lemma_days_before_month_grow(year, month + 1, 13);
    lemma_days_before_month_grow(year, 1, month);
}

/// A number has one quotient and one remainder for a divisor.
pub proof fn lemma_quotient_unique(quotient: int, rest: int, other: int, other_rest: int, by: int)
    requires
        by > 0,
        0 <= rest < by,
        0 <= other_rest < by,
        quotient * by + rest == other * by + other_rest,
    ensures
        quotient == other,
        rest == other_rest,
{
    assert(quotient == other) by (nonlinear_arith)
        requires
            by > 0,
            0 <= rest < by,
            0 <= other_rest < by,
            quotient * by + rest == other * by + other_rest,
    ;
}

/// No two days of the calendar have the same number.
pub proof fn lemma_day_number_unique(first: UtcTime, second: UtcTime)
    requires
        first.is_calendar_time(),
        second.is_calendar_time(),
        day_number(first) == day_number(second),
    ensures
        first.year == second.year,
        first.month == second.month,
        first.day == second.day,
{
    lemma_day_in_year(first);
    lemma_day_in_year(second);
    if first.year < second.year {
        lemma_days_before_year_grow(first.year as int, second.year as int);
    }
    if second.year < first.year {
        lemma_days_before_year_grow(second.year as int, first.year as int);
    }
    assert(first.year == second.year);
    let year = first.year as int;
    if first.month < second.month {
        lemma_days_before_month_grow(year, first.month as int + 1, second.month as int);
    }
    if second.month < first.month {
        lemma_days_before_month_grow(year, second.month as int + 1, first.month as int);
    }
    assert(first.month == second.month);
}

/// No two calendar times lie the same number of seconds after the start of
/// 1970.
pub proof fn lemma_calendar_time_unique(first: UtcTime, second: UtcTime)
    requires
        first.is_calendar_time(),
        second.is_calendar_time(),
        first.unix_seconds() == second.unix_seconds(),
    ensures
        first == second,
{
    let time = first.hours * 3600 + first.minutes * 60 + first.seconds;
    let other_time = second.hours * 3600 + second.minutes * 60 + second.seconds;
    assert(first.unix_seconds() == day_number(first) * 86400 + time);
    assert(second.unix_seconds() == day_number(second) * 86400 + other_time);
    lemma_quotient_unique(day_number(first), time, day_number(second), other_time, 86400);
    lemma_quotient_unique(
        first.hours * 60 + first.minutes,
        first.seconds as int,
        second.hours * 60 + second.minutes,
        second.seconds as int,
        60,
    );
    lemma_quotient_unique(
        first.hours as int,
        first.minutes as int,
        second.hours as int,
        second.minutes as int,
        60,
    );
    lemma_day_number_unique(first, second);
}

/// Whether `first` lies before `second` in the calendar: in an earlier
/// year, or in the same year in an earlier month, and so on down to the
/// seconds.
pub open spec fn is_before(first: UtcTime, second: UtcTime) -> bool {
    ||| first.year < second.year
    ||| first.year == second.year && first.month < second.month
    ||| first.year == second.year && first.month == second.month && first.day < second.day
    ||| first.year == second.year && first.month == second.month && first.day == second.day
        && first.hours < second.hours
    ||| first.year == second.year && first.month == second.month && first.day == second.day
        && first.hours == second.hours && first.minutes < second.minutes
    ||| first.year == second.year && first.month == second.month && first.day == second.day
        && first.hours == second.hours && first.minutes == second.minutes && first.seconds
        < second.seconds
}

/// A calendar time that lies before another lies fewer seconds after the
/// start of 1970.
pub proof fn lemma_before_is_earlier(first: UtcTime, second: UtcTime)
    requires
        first.is_calendar_time(),
        second.is_calendar_time(),
        is_before(first, second),
    ensures
        first.unix_seconds() < second.unix_seconds(),
{
    lemma_day_in_year(first);
    lemma_day_in_year(second);
    let time = first.hours * 3600 + first.minutes * 60 + first.seconds;
    let other_time = second.hours * 3600 + second.minutes * 60 + second.seconds;
    assert(first.unix_seconds() == day_number(first) * 86400 + time);
    assert(second.unix_seconds() == day_number(second) * 86400 + other_time);
    if first.year < second.year {
        lemma_days_before_year_grow(first.year as int, second.year as int);
        assert(day_number(first) < day_number(second));
    } else if first.month < second.month {
        lemma_days_before_month_grow(
            first.year as int,
            first.month as int + 1,
            second.month as int,
        );
        lemma_days_before_month_grow(first.year as int, 1, second.month as int);
        assert(day_number(first) < day_number(second));
    } else if first.day < second.day {
        assert(day_number(first) < day_number(second));
    } else {
        assert(day_number(first) == day_number(second));
        assert(time < other_time);
    }
}

/// The order of the calendar is the order of time: of two calendar times
/// the one that lies fewer seconds after the start of 1970 is the one that
/// comes first in the calendar.
pub proof fn law_calendar_order(first: UtcTime, second: UtcTime)
    requires
        first.is_calendar_time(),
        second.is_calendar_time(),
    ensures
        first.unix_seconds() < second.unix_seconds() <==> is_before(first, second),
{
    if is_before(first, second) {
        lemma_before_is_earlier(first, second);
    } else if is_before(second, first) {
        lemma_before_is_earlier(second, first);
    } else {
        assert(first == second);
    }
}

/// The text of a time from the texts of its parts.
pub open spec fn stamp_text(
    year: Seq<char>,
    month: Seq<char>,
    day: Seq<char>,
    hours: Seq<char>,
    minutes: Seq<char>,
    seconds: Seq<char>,
) -> Seq<char> {
    year + seq!['-'] + month + seq!['-'] + day + seq![' '] + hours + seq![':'] + minutes + seq![':'] + seconds
}

/// Two times whose texts agree before the year are in the order of the
/// texts of their year.
proof fn lemma_order_by_year(
    year: Seq<char>,
    other_year: Seq<char>,
    month: Seq<char>,
    other_month: Seq<char>,
    day: Seq<char>,
    other_day: Seq<char>,
    hours: Seq<char>,
    other_hours: Seq<char>,
    minutes: Seq<char>,
    other_minutes: Seq<char>,
    seconds: Seq<char>,
    other_seconds: Seq<char>,
    k: int,
)
    requires
        0 <= k < year.len(),
        k < other_year.len(),
        year.take(k) == other_year.take(k),
        (year[k] as u32) < (other_year[k] as u32),
    ensures
        text_before(
            stamp_text(year, month, day, hours, minutes, seconds),
            stamp_text(other_year, other_month, other_day, other_hours, other_minutes, other_seconds),
        ),
{
    let beginning = Seq::<char>::empty();
    let rest = seq!['-'] + month + seq!['-'] + day + seq![' '] + hours + seq![':'] + minutes + seq![':'] + seconds;
    let other_rest = seq!['-'] + other_month + seq!['-'] + other_day + seq![' '] + other_hours + seq![':'] + other_minutes + seq![':'] + other_seconds;
    assert(stamp_text(year, month, day, hours, minutes, seconds) =~= beginning + year + rest);
    assert(stamp_text(other_year, other_month, other_day, other_hours, other_minutes, other_seconds) =~= beginning + other_year + other_rest);
    lemma_text_before_in_part(beginning, year, rest, other_year, other_rest, k);
}

/// Two times whose texts agree before the month are in the order of the
/// texts of their month.
proof fn lemma_order_by_month(
    year: Seq<char>,
    month: Seq<char>,
    other_month: Seq<char>,
    day: Seq<char>,
    other_day: Seq<char>,
    hours: Seq<char>,
    other_hours: Seq<char>,
    minutes: Seq<char>,
    other_minutes: Seq<char>,
    seconds: Seq<char>,
    other_seconds: Seq<char>,
    k: int,
)
    requires
        0 <= k < month.len(),
        k < other_month.len(),
        month.take(k) == other_month.take(k),
        (month[k] as u32) < (other_month[k] as u32),
    ensures
        text_before(
            stamp_text(year, month, day, hours, minutes, seconds),
            stamp_text(year, other_month, other_day, other_hours, other_minutes, other_seconds),
        ),
{
    let beginning = year + seq!['-'];
    let rest = seq!['-'] + day + seq![' '] + hours + seq![':'] + minutes + seq![':'] + seconds;
    let other_rest = seq!['-'] + other_day + seq![' '] + other_hours + seq![':'] + other_minutes + seq![':'] + other_seconds;
    assert(stamp_text(year, month, day, hours, minutes, seconds) =~= beginning + month + rest);
    assert(stamp_text(year, other_month, other_day, other_hours, other_minutes, other_seconds) =~= beginning + other_month + other_rest);
    lemma_text_before_in_part(beginning, month, rest, other_month, other_rest, k);
}

/// Two times whose texts agree before the day are in the order of the
/// texts of their day.
proof fn lemma_order_by_day(
    year: Seq<char>,
    month: Seq<char>,
    day: Seq<char>,
    other_day: Seq<char>,
    hours: Seq<char>,
    other_hours: Seq<char>,
    minutes: Seq<char>,
    other_minutes: Seq<char>,
    seconds: Seq<char>,
    other_seconds: Seq<char>,
    k: int,
)
    requires
        0 <= k < day.len(),
        k < other_day.len(),
        day.take(k) == other_day.take(k),
        (day[k] as u32) < (other_day[k] as u32),
    ensures
        text_before(
            stamp_text(year, month, day, hours, minutes, seconds),
            stamp_text(year, month, other_day, other_hours, other_minutes, other_seconds),
        ),
{
    let beginning = year + seq!['-'] + month + seq!['-'];
    let rest = seq![' '] + hours + seq![':'] + minutes + seq![':'] + seconds;
    let other_rest = seq![' '] + other_hours + seq![':'] + other_minutes + seq![':'] + other_seconds;
    assert(stamp_text(year, month, day, hours, minutes, seconds) =~= beginning + day + rest);
    assert(stamp_text(year, month, other_day, other_hours, other_minutes, other_seconds) =~= beginning + other_day + other_rest);
    lemma_text_before_in_part(beginning, day, rest, other_day, other_rest, k);
}

/// Two times whose texts agree before the hours are in the order of the
/// texts of their hours.
proof fn lemma_order_by_hours(
    year: Seq<char>,
    month: Seq<char>,
    day: Seq<char>,
    hours: Seq<char>,
    other_hours: Seq<char>,
    minutes: Seq<char>,
    other_minutes: Seq<char>,
    seconds: Seq<char>,
    other_seconds: Seq<char>,
    k: int,
)
    requires
        0 <= k < hours.len(),
        k < other_hours.len(),
        hours.take(k) == other_hours.take(k),
        (hours[k] as u32) < (other_hours[k] as u32),
    ensures
        text_before(
            stamp_text(year, month, day, hours, minutes, seconds),
            stamp_text(year, month, day, other_hours, other_minutes, other_seconds),
        ),
{
    let beginning = year + seq!['-'] + month + seq!['-'] + day + seq![' '];
    let rest = seq![':'] + minutes + seq![':'] + seconds;
    let other_rest = seq![':'] + other_minutes + seq![':'] + other_seconds;
    assert(stamp_text(year, month, day, hours, minutes, seconds) =~= beginning + hours + rest);
    assert(stamp_text(year, month, day, other_hours, other_minutes, other_seconds) =~= beginning + other_hours + other_rest);
    lemma_text_before_in_part(beginning, hours, rest, other_hours, other_rest, k);
}

/// Two times whose texts agree before the minutes are in the order of the
/// texts of their minutes.
proof fn lemma_order_by_minutes(
    year: Seq<char>,
    month: Seq<char>,
    day: Seq<char>,
    hours: Seq<char>,
    minutes: Seq<char>,
    other_minutes: Seq<char>,
    seconds: Seq<char>,
    other_seconds: Seq<char>,
    k: int,
)
    requires
        0 <= k < minutes.len(),
        k < other_minutes.len(),
        minutes.take(k) == other_minutes.take(k),
        (minutes[k] as u32) < (other_minutes[k] as u32),
    ensures
        text_before(
            stamp_text(year, month, day, hours, minutes, seconds),
            stamp_text(year, month, day, hours, other_minutes, other_seconds),
        ),
{
    let beginning = year + seq!['-'] + month + seq!['-'] + day + seq![' '] + hours + seq![':'];
    let rest = seq![':'] + seconds;
    let other_rest = seq![':'] + other_seconds;
    assert(stamp_text(year, month, day, hours, minutes, seconds) =~= beginning + minutes + rest);
    assert(stamp_text(year, month, day, hours, other_minutes, other_seconds) =~= beginning + other_minutes + other_rest);
    lemma_text_before_in_part(beginning, minutes, rest, other_minutes, other_rest, k);
}

/// Two times whose texts agree before the seconds are in the order of the
/// texts of their seconds.
proof fn lemma_order_by_seconds(
    year: Seq<char>,
    month: Seq<char>,
    day: Seq<char>,
    hours: Seq<char>,
    minutes: Seq<char>,
    seconds: Seq<char>,
    other_seconds: Seq<char>,
    k: int,
)
    requires
        0 <= k < seconds.len(),
        k < other_seconds.len(),
        seconds.take(k) == other_seconds.take(k),
        (seconds[k] as u32) < (other_seconds[k] as u32),
    ensures
        text_before(
            stamp_text(year, month, day, hours, minutes, seconds),
            stamp_text(year, month, day, hours, minutes, other_seconds),
        ),
{
    let beginning = year + seq!['-'] + month + seq!['-'] + day + seq![' '] + hours + seq![':'] + minutes + seq![':'];
    let rest = Seq::<char>::empty();
    let other_rest = Seq::<char>::empty();
    assert(stamp_text(year, month, day, hours, minutes, seconds) =~= beginning + seconds + rest);
    assert(stamp_text(year, month, day, hours, minutes, other_seconds) =~= beginning + other_seconds + other_rest);
    lemma_text_before_in_part(beginning, seconds, rest, other_seconds, other_rest, k);
}

/// The order of the calendar is the order of the texts: of two calendar
/// times with years of at most four digits, the one that comes first in the
/// calendar has the text that comes first in the order of texts.
pub proof fn law_timestamp_text_order(first: UtcTime, second: UtcTime)
    requires
        first.is_calendar_time(),
        second.is_calendar_time(),
        first.year <= 9999,
        second.year <= 9999,
        is_before(first, second),
    ensures
        text_before(utc_text(first), utc_text(second)),
{
    assert(pow10(4) == 10000 && pow10(2) == 100) by {
        reveal_with_fuel(pow10, 5);
    }
    let year = padded_decimal(first.year as nat, 4);
    let month = padded_decimal(first.month as nat, 2);
    let day = padded_decimal(first.day as nat, 2);
    let hours = padded_decimal(first.hours as nat, 2);
    let minutes = padded_decimal(first.minutes as nat, 2);
    let seconds = padded_decimal(first.seconds as nat, 2);
    let other_year = padded_decimal(second.year as nat, 4);
    let other_month = padded_decimal(second.month as nat, 2);
    let other_day = padded_decimal(second.day as nat, 2);
    let other_hours = padded_decimal(second.hours as nat, 2);
    let other_minutes = padded_decimal(second.minutes as nat, 2);
    let other_seconds = padded_decimal(second.seconds as nat, 2);
    assert(utc_text(first) == stamp_text(year, month, day, hours, minutes, seconds));
    assert(utc_text(second) == stamp_text(
        other_year,
        other_month,
        other_day,
        other_hours,
        other_minutes,
        other_seconds,
    ));
    if first.year < second.year {
        let k = lemma_padded_order(first.year as nat, second.year as nat, 4);
        lemma_order_by_year(
            year, other_year, month, other_month, day, other_day, hours, other_hours, minutes,
            other_minutes, seconds, other_seconds, k,
        );
    } else if first.month < second.month {
        let k = lemma_padded_order(first.month as nat, second.month as nat, 2);
        lemma_order_by_month(
            year, month, other_month, day, other_day, hours, other_hours, minutes,
            other_minutes, seconds, other_seconds, k,
        );
    } else if first.day < second.day {
        let k = lemma_padded_order(first.day as nat, second.day as nat, 2);
        lemma_order_by_day(
            year, month, day, other_day, hours, other_hours, minutes, other_minutes, seconds,
            other_seconds, k,
        );
    } else if first.hours < second.hours {
        let k = lemma_padded_order(first.hours as nat, second.hours as nat, 2);
        lemma_order_by_hours(
            year, month, day, hours, other_hours, minutes, other_minutes, seconds,
            other_seconds, k,
        );
    } else if first.minutes < second.minutes {
        let k = lemma_padded_order(first.minutes as nat, second.minutes as nat, 2);
        lemma_order_by_minutes(
            year, month, day, hours, minutes, other_minutes, seconds, other_seconds, k,
        );
    } else {
        let k = lemma_padded_order(first.seconds as nat, second.seconds as nat, 2);
        lemma_order_by_seconds(year, month, day, hours, minutes, seconds, other_seconds, k);
    }
}

/// `std::time::SystemTime`, a reading of the system clock. Nothing of its
/// inside is known here.
#[verifier::external_type_specification]
#[verifier::external_body]
pub struct ExSystemTime(std::time::SystemTime);

/// `std::time::SystemTimeError`, the error of `SystemTime::duration_since`.
#[verifier::external_type_specification]
#[verifier::external_body]
pub struct ExSystemTimeError(std::time::SystemTimeError);

/// `SystemTime::now` reads the system clock. Nothing is claimed of the
/// reading.
pub assume_specification[ std::time::SystemTime::now ]() -> (now: std::time::SystemTime)
;

/// `SystemTime::duration_since` gives the time that has passed from
/// `earlier` to `time`, or an error if `earlier` lies after `time`. Nothing
/// is claimed of which it is.
pub assume_specification[ std::time::SystemTime::duration_since ](
    time: &std::time::SystemTime,
    earlier: std::time::SystemTime,
) -> (elapsed: Result<core::time::Duration, std::time::SystemTimeError>)
;

/// `Duration::as_secs` gives the whole seconds of a duration. Nothing is
/// claimed of their number.
pub assume_specification[ core::time::Duration::as_secs ](duration: &core::time::Duration) -> (seconds: u64)
;

/// Hands out `std::time::UNIX_EPOCH`, the start of 1970 as a reading of the
/// clock.
#[verifier::external_body]
fn unix_epoch() -> (epoch: std::time::SystemTime) {
    std::time::UNIX_EPOCH
}

/// The text of the current date and time, UTC, as `YYYY-MM-DD hh:mm:ss`. A
/// clock that reads a time before 1970 counts as the start of 1970.
pub fn generate_utc_string() -> (text: String)
    ensures
        exists|seconds: u64| text@ == #[trigger] utc_text_of(seconds),
{
    let timestamp = std::time::SystemTime::now().duration_since(unix_epoch());
    let seconds = match timestamp {
        Ok(elapsed) => elapsed.as_secs(),
        Err(_) => 0,
    };
    utc_string_from_unix_seconds(seconds)
}

/// How much a message matters. The levels are listed from the gravest to the
/// most detailed.
#[derive(Debug, PartialEq, Eq, PartialOrd, Ord, Clone, Copy, Structural)]
pub enum LogLevel {
    Fatal,
    Error,
    Warn,
    Info,
    Debug,
    Trace,
}

/// Why a text is no log level.
#[derive(Debug, PartialEq, Eq, Clone, Copy, Structural)]
pub enum LogLevelParseError {
    /// The text names no log level.
    InvalidLogLevel,
}

impl LogLevelParseError {
    /// The message of the error.
    pub fn to_string(&self) -> (message: String)
        ensures
            message@ == "invalid log level string"@,
    {
        "invalid log level string".to_owned()
    }
}

impl Default for LogLevel {
    fn default() -> (level: LogLevel)
        ensures
            level == LogLevel::Info,
    {
        LogLevel::Info
    }
}

/// What `str::to_lowercase` makes of a text: its lower-case form as Unicode
/// defines it.
pub uninterp spec fn lowercase(text: Seq<char>) -> Seq<char>;

/// Calls `str::to_lowercase`: the lower-case form of the text.
#[verifier::external_body]
fn to_lowercase(text: &str) -> (lower: String)
    ensures
        lower@ == lowercase(text@),
{
    text.to_lowercase()
}

impl LogLevel {
    /// The number of the level: the graver the level, the smaller.
    pub open spec fn rank(self) -> int {
        match self {
            LogLevel::Fatal => -1,
            LogLevel::Error => 0,
            LogLevel::Warn => 1,
            LogLevel::Info => 2,
            LogLevel::Debug => 3,
            LogLevel::Trace => 4,
        }
    }

    /// The name of the level, five characters wide.
    pub open spec fn label(self) -> Seq<char> {
        match self {
            LogLevel::Fatal => "Fatal"@,
            LogLevel::Error => "Error"@,
            LogLevel::Warn => "Warn "@,
            LogLevel::Info => "Info "@,
            LogLevel::Debug => "Debug"@,
            LogLevel::Trace => "Trace"@,
        }
    }

    /// The name of the level between the escape sequences that colour it on
    /// a terminal.
    pub open spec fn pretty_label(self) -> Seq<char> {
        match self {
            LogLevel::Fatal => "\x1b[1;31mFatal\x1b[0m"@,
            LogLevel::Error => "\x1b[0;31mError\x1b[0m"@,
            LogLevel::Warn => "\x1b[0;33mWarn \x1b[0m"@,
            LogLevel::Info => "\x1b[0;32mInfo \x1b[0m"@,
            LogLevel::Debug => "\x1b[0;36mDebug\x1b[0m"@,
            LogLevel::Trace => "\x1b[0;35mTrace\x1b[0m"@,
        }
    }

    /// The level that a lower-case name stands for. `fatal` is no name that
    /// can be asked for.
    pub open spec fn named(lower: Seq<char>) -> Option<LogLevel> {
        if lower == "trace"@ {
            Some(LogLevel::Trace)
        } else if lower == "debug"@ {
            Some(LogLevel::Debug)
        } else if lower == "info"@ {
            Some(LogLevel::Info)
        } else if lower == "warn"@ {
            Some(LogLevel::Warn)
        } else if lower == "error"@ {
            Some(LogLevel::Error)
        } else {
            None
        }
    }

    /// The number of the level.
    pub fn severity(&self) -> (rank: i8)
        ensures
            rank == self.rank(),
    {
        match self {
            LogLevel::Fatal => -1,
            LogLevel::Error => 0,
            LogLevel::Warn => 1,
            LogLevel::Info => 2,
            LogLevel::Debug => 3,
            LogLevel::Trace => 4,
        }
    }

    /// Whether a logger that is set to the level `threshold` writes a
    /// message of this level: it does unless the message is more detailed
    /// than the threshold.
    pub fn is_logged_at(&self, threshold: LogLevel) -> (logged: bool)
        ensures
            logged == (self.rank() <= threshold.rank()),
    {
        self.severity() <= threshold.severity()
    }

    /// The name of the level, five characters wide.
    pub fn as_str(&self) -> (name: &'static str)
        ensures
            name@ == self.label(),
    {
        match self {
            LogLevel::Fatal => "Fatal",
            LogLevel::Error => "Error",
            LogLevel::Warn => "Warn ",
            LogLevel::Info => "Info ",
            LogLevel::Debug => "Debug",
            LogLevel::Trace => "Trace",
        }
    }

    /// The name of the level, five characters wide, as an owned text.
    pub fn to_string(&self) -> (name: String)
        ensures
            name@ == self.label(),
    {
        self.as_str().to_owned()
    }

    /// The name of the level, coloured for a terminal.
    pub fn to_pretty_string(&self) -> (name: &'static str)
        ensures
            name@ == self.pretty_label(),
    {
        match self {
            LogLevel::Fatal => "\x1b[1;31mFatal\x1b[0m",
            LogLevel::Error => "\x1b[0;31mError\x1b[0m",
            LogLevel::Warn => "\x1b[0;33mWarn \x1b[0m",
            LogLevel::Info => "\x1b[0;32mInfo \x1b[0m",
            LogLevel::Debug => "\x1b[0;36mDebug\x1b[0m",
            LogLevel::Trace => "\x1b[0;35mTrace\x1b[0m",
        }
    }

    /// The level that the lower-case name `lower` stands for.
    pub fn from_lowercase(lower: &str) -> (level: Result<LogLevel, LogLevelParseError>)
        ensures
            level == match LogLevel::named(lower@) {
                Some(named) => Ok::<LogLevel, LogLevelParseError>(named),
                None => Err(LogLevelParseError::InvalidLogLevel),
            },
    {
        let lower = lower.to_owned();
        if lower == "trace".to_owned() {
            Ok(LogLevel::Trace)
        } else if lower == "debug".to_owned() {
            Ok(LogLevel::Debug)
        } else if lower == "info".to_owned() {
            Ok(LogLevel::Info)
        } else if lower == "warn".to_owned() {
            Ok(LogLevel::Warn)
        } else if lower == "error".to_owned() {
            Ok(LogLevel::Error)
        } else {
            Err(LogLevelParseError::InvalidLogLevel)
        }
    }

    /// The level that `s` names, in upper or lower case.
    pub fn from_str(s: &str) -> (level: Result<LogLevel, LogLevelParseError>)
        ensures
            level == match LogLevel::named(lowercase(s@)) {
                Some(named) => Ok::<LogLevel, LogLevelParseError>(named),
                None => Err(LogLevelParseError::InvalidLogLevel),
            },
    {
        let lower = to_lowercase(s);
        LogLevel::from_lowercase(lower.as_str())
    }

    /// The level of a logger that finds `setting` as its configured level:
    /// the level that the setting names, or the default level where there is
    /// no setting or it names no level.
    pub fn configured(setting: Option<&str>) -> (level: LogLevel)
        ensures
            level == match setting {
                Some(text) => match LogLevel::named(lowercase(text@)) {
                    Some(named) => named,
                    None => LogLevel::Info,
                },
                None => LogLevel::Info,
            },
    {
        match setting {
            Some(text) => match LogLevel::from_str(text) {
                Ok(level) => level,
                Err(_) => LogLevel::Info,
            },
            None => LogLevel::Info,
        }
    }
}

/// The line that the default format writes to the log file for a message
/// that was logged at the time `stamp`.
pub open spec fn plain_line(
    stamp: Seq<char>,
    message: Seq<char>,
    lvl: LogLevel,
    target: Seq<char>,
    module: Seq<char>,
    file: Seq<char>,
    line: u32,
) -> Seq<char> {
    "["@ + stamp + "] "@ + lvl.label() + " ["@ + module + " "@ + file + ":"@ + decimal_digits(
        line as nat,
    ) + "] "@ + target + ": "@ + message + "\n"@
}

/// The line that the default format prints on a terminal for a message that
/// was logged at the time `stamp`: as in the file, in colours, and without
/// the line break.
pub open spec fn pretty_line(
    stamp: Seq<char>,
    message: Seq<char>,
    lvl: LogLevel,
    target: Seq<char>,
    module: Seq<char>,
    file: Seq<char>,
    line: u32,
) -> Seq<char> {
    "["@ + stamp + "] "@ + lvl.pretty_label() + " \x1b[0;90m["@ + module + " "@ + file + ":"@
        + decimal_digits(line as nat) + "] \x1b[0m\x1b[0;35m"@ + target + "\x1b[0m: "@ + message
}

/// A format of log lines. `render` gives the line for the log file,
/// `render_pretty` the one for the terminal, which is the same unless a
/// format says otherwise.
pub trait LoggerFormat {
    /// The line for the terminal: one of the format's own lines for the
    /// terminal, or, for a format that has none, what `render` gives for the
    /// same message.
    fn render_pretty(
        &self,
        message: &str,
        lvl: LogLevel,
        target_module_file_tuple: (&str, &str, &str),
        line: u32,
    ) -> (text: String)
        ensures
            self.renders_pretty(message, lvl, target_module_file_tuple, line, text) || call_ensures(
                Self::render,
                (self, message, lvl, target_module_file_tuple, line),
                text,
            ),
    {
        self.render(message, lvl, target_module_file_tuple, line)
    }

    fn render(
        &self,
        message: &str,
        lvl: LogLevel,
        target_module_file_tuple: (&str, &str, &str),
        line: u32,
    ) -> String;

    /// Whether `text` is a line of the format's own for the terminal. A
    /// format that prints on the terminal what it writes to the file has no
    /// such line.
    open spec fn renders_pretty(
        &self,
        message: &str,
        lvl: LogLevel,
        target_module_file_tuple: (&str, &str, &str),
        line: u32,
        text: String,
    ) -> bool {
        false
    }
}

/// The default format.
pub struct DefaultLogger {}

impl DefaultLogger {
    /// The line for the log file, for a message logged at the time `stamp`.
    pub fn render_at(
        stamp: &str,
        message: &str,
        lvl: LogLevel,
        target_module_file_tuple: (&str, &str, &str),
        line: u32,
    ) -> (text: String)
        ensures
            text@ == plain_line(
                stamp@,
                message@,
                lvl,
                target_module_file_tuple.0@,
                target_module_file_tuple.1@,
                target_module_file_tuple.2@,
                line,
            ),
    {
        let (target, module, file) = target_module_file_tuple;
        let mut text = String::new();
        text.append("[");
        text.append(stamp);
        text.append("] ");
        text.append(lvl.as_str());
        text.append(" [");
        text.append(module);
        text.append(" ");
        text.append(file);
        text.append(":");
        push_digits(&mut text, line as u64);
        text.append("] ");
        text.append(target);
        text.append(": ");
        text.append(message);
        text.append("\n");
        assert(text@ =~= plain_line(stamp@, message@, lvl, target@, module@, file@, line));
        text
    }

    /// The line for the terminal, for a message logged at the time `stamp`.
    pub fn render_pretty_at(
        stamp: &str,
        message: &str,
        lvl: LogLevel,
        target_module_file_tuple: (&str, &str, &str),
        line: u32,
    ) -> (text: String)
        ensures
            text@ == pretty_line(
                stamp@,
                message@,
                lvl,
                target_module_file_tuple.0@,
                target_module_file_tuple.1@,
                target_module_file_tuple.2@,
                line,
            ),
    {
        let (target, module, file) = target_module_file_tuple;
        let mut text = String::new();
        text.append("[");
        text.append(stamp);
        text.append("] ");
        text.append(lvl.to_pretty_string());
        text.append(" \x1b[0;90m[");
        text.append(module);
        text.append(" ");
        text.append(file);
        text.append(":");
        push_digits(&mut text, line as u64);
        text.append("] \x1b[0m\x1b[0;35m");
        text.append(target);
        text.append("\x1b[0m: ");
        text.append(message);
        assert(text@ =~= pretty_line(stamp@, message@, lvl, target@, module@, file@, line));
        text
    }
}

impl LoggerFormat for DefaultLogger {
    /// The line for the log file, stamped with the current time.
    fn render(
        &self,
        message: &str,
        lvl: LogLevel,
        target_module_file_tuple: (&str, &str, &str),
        line: u32,
    ) -> (text: String)
        ensures
            exists|seconds: u64|
                text@ == plain_line(
                    #[trigger] utc_text_of(seconds),
                    message@,
                    lvl,
                    target_module_file_tuple.0@,
                    target_module_file_tuple.1@,
                    target_module_file_tuple.2@,
                    line,
                ),
    {
        let stamp = generate_utc_string();
        DefaultLogger::render_at(stamp.as_str(), message, lvl, target_module_file_tuple, line)
    }

    /// The line for the terminal, stamped with the current time.
    fn render_pretty(
        &self,
        message: &str,
        lvl: LogLevel,
        target_module_file_tuple: (&str, &str, &str),
        line: u32,
    ) -> (text: String)
        ensures
            exists|seconds: u64|
                text@ == pretty_line(
                    #[trigger] utc_text_of(seconds),
                    message@,
                    lvl,
                    target_module_file_tuple.0@,
                    target_module_file_tuple.1@,
                    target_module_file_tuple.2@,
                    line,
                ),
    {
        let stamp = generate_utc_string();
        DefaultLogger::render_pretty_at(
            stamp.as_str(),
            message,
            lvl,
            target_module_file_tuple,
            line,
        )
    }

    /// The default format's own lines for the terminal: the coloured line,
    /// stamped with some time.
    open spec fn renders_pretty(
        &self,
        message: &str,
        lvl: LogLevel,
        target_module_file_tuple: (&str, &str, &str),
        line: u32,
        text: String,
    ) -> bool {
        exists|seconds: u64|
            text@ == pretty_line(
                #[trigger] utc_text_of(seconds),
                message@,
                lvl,
                target_module_file_tuple.0@,
                target_module_file_tuple.1@,
                target_module_file_tuple.2@,
                line,
            )
    }
}

} // verus!
