//! Calendar dates: validation, day counts, date arithmetic, streams of
//! consecutive dates, and the `YYYY-MM-DD` text form.

use vstd::prelude::*;
use vstd::string::*;
use vstd::utf8::*;
use crate::gregorian::{
    civil_from_day_number, day_number, day_number_of, days_before_year, days_in_month, is_before,
    is_civil, is_leap, lemma_day_number_injective, lemma_day_number_order,
    lemma_days_before_month, lemma_days_before_year, MAX_DAY_NUMBER,
};
use crate::text::{byte_len, byte_range, decimal_value, parse_u16, parse_u8, utf8_text};
use crate::time::InvalidInput;

verus! {

/// The day number of 31 December 1969. Day counts "from the epoch" are taken
/// from this day, so that 1 January 1970 counts as 1.
pub const EPOCH_DAY_NUMBER: i32 = 719_162;

/// A date of the Gregorian calendar. Dates are ordered by year, then by
/// month, then by day.
#[derive(Debug, Clone, Copy, PartialEq, Eq, Structural, Ord)]
pub struct Date {
    pub year: u16,
    /// 1 .. 12
    pub month: u8,
    /// 1 .. 31
    pub day: u8,
}

/// Why a text is not a date.
#[derive(Debug)]
pub enum ParseDateError {
    /// The year is 0, the month is not 1 to 12, or the month has no such day.
    InvalidInput(InvalidInput),
    /// The year, the month or the day is not a decimal number.
    ParseIntError(core::num::ParseIntError),
    /// The text is shorter than `YYYY-MM-DD`.
    InputIsShort,
    /// One of the fields cuts a character of more than one byte in two.
    UnicodeIsNotSupported,
}

/// Whether the bytes 0 to 3, 5 to 6 and 8 to 9 of `text` are each made of
/// whole characters.
pub open spec fn date_text_splits(text: Seq<u8>) -> bool {
    &&& is_char_boundary(text, 4)
    &&& is_char_boundary(text, 5)
    &&& is_char_boundary(text, 7)
    &&& is_char_boundary(text, 8)
    &&& is_char_boundary(text, 10)
}

/// The year, the month and the day that the first ten bytes of `text` write
/// as `YYYY-MM-DD`, each a decimal number that fits its field of a [`Date`].
/// The bytes between them are not looked at.
pub open spec fn date_text_numbers(text: Seq<u8>) -> Option<(nat, nat, nat)> {
    match (
        decimal_value(text.subrange(0, 4)),
        decimal_value(text.subrange(5, 7)),
        decimal_value(text.subrange(8, 10)),
    ) {
        (Some(year), Some(month), Some(day)) if year <= u16::MAX && month <= u8::MAX && day
            <= u8::MAX => Some((year, month, day)),
        _ => None,
    }
}

/// Whether `r` is what reading the text `s` as a date gives:
///
/// - the date that the first ten bytes write as `YYYY-MM-DD`, where they
///   write a day of the calendar;
/// - `InputIsShort` for a text of fewer than ten bytes;
/// - `UnicodeIsNotSupported` for a longer text in which the year, the month
///   or the day is not made of whole characters;
/// - `ParseIntError` where the year, the month or the day is not a decimal
///   number that fits its field;
/// - `InvalidInput` where the numbers name no day of the calendar.
pub open spec fn is_date_read_from(s: &str, r: Result<Date, ParseDateError>) -> bool {
    match r {
        Ok(date) => {
            &&& s.spec_bytes().len() >= 10
            &&& date_text_splits(s.spec_bytes())
            &&& date_text_numbers(s.spec_bytes()) == Some(
                (date.year as nat, date.month as nat, date.day as nat),
            )
            &&& date.is_valid()
        },
        Err(ParseDateError::InputIsShort) => s.spec_bytes().len() < 10,
        Err(ParseDateError::UnicodeIsNotSupported) => {
            &&& s.spec_bytes().len() >= 10
            &&& !date_text_splits(s.spec_bytes())
        },
        Err(ParseDateError::ParseIntError(_)) => {
            &&& s.spec_bytes().len() >= 10
            &&& date_text_splits(s.spec_bytes())
            &&& date_text_numbers(s.spec_bytes()) is None
        },
        Err(ParseDateError::InvalidInput(_)) => {
            &&& s.spec_bytes().len() >= 10
            &&& date_text_splits(s.spec_bytes())
            &&& date_text_numbers(s.spec_bytes()) matches Some((year, month, day))
            &&& !is_civil(year as int, month as int, day as int)
        },
    }
}

impl Date {
    /// Whether this is a day of the calendar: a year from 1 on, a month from
    /// 1 to 12 and a day that the month has in that year.
    pub open spec fn is_valid(&self) -> bool {
        is_civil(self.year as int, self.month as int, self.day as int)
    }

    /// The count of days from the start of the calendar to this date:
    /// 1 January of year 1 is day 1.
    pub open spec fn day_number(&self) -> int {
        day_number(self.year as int, self.month as int, self.day as int)
    }

    /// The count of days from 31 December 1969 to this date.
    pub open spec fn epoch_days(&self) -> int {
        self.day_number() - EPOCH_DAY_NUMBER
    }

    /// Whether this date comes before `other` by year, then by month, then
    /// by day.
    pub open spec fn comes_before(&self, other: Date) -> bool {
        is_before(
            self.year as int,
            self.month as int,
            self.day as int,
            other.year as int,
            other.month as int,
            other.day as int,
        )
    }

    /// Whether this is 31 December 65535, after which no date can be held.
    pub open spec fn is_last(&self) -> bool {
        self.year == u16::MAX && self.month == 12 && self.day == 31
    }

    /// The day after this one.
    pub open spec fn next(&self) -> Date {
        if self.day < days_in_month(self.year as int, self.month as int) {
            Date { year: self.year, month: self.month, day: (self.day + 1) as u8 }
        } else if self.month < 12 {
            Date { year: self.year, month: (self.month + 1) as u8, day: 1 }
        } else {
            Date { year: (self.year + 1) as u16, month: 1, day: 1 }
        }
    }

    /// The date whose day number is `number`, if a [`Date`] can hold it.
    pub open spec fn at_day_number(number: int) -> Option<Date> {
        if 1 <= number <= MAX_DAY_NUMBER {
            Some(choose|date: Date| date.is_valid() && date.day_number() == number)
        } else {
            None
        }
    }

    /// The date `days` days after this one (before it, where `days` is
    /// negative), if a [`Date`] can hold it.
    pub open spec fn plus_days(&self, days: int) -> Option<Date> {
        Date::at_day_number(self.day_number() + days)
    }

    /// The ten bytes that write this date as `YYYY-MM-DD`.
    pub open spec fn iso_8601_bytes(&self) -> Seq<u8> {
        seq![
            (self.year / 1000 + 48) as u8,
            (self.year % 1000 / 100 + 48) as u8,
            (self.year % 100 / 10 + 48) as u8,
            (self.year % 10 + 48) as u8,
            45u8,
            (self.month / 10 + 48) as u8,
            (self.month % 10 + 48) as u8,
            45u8,
            (self.day / 10 + 48) as u8,
            (self.day % 10 + 48) as u8,
        ]
    }

    /// Whether `year` has a 29 February.
    #[inline(always)]
    pub fn is_leap_year(year: u16) -> (leap: bool)
        ensures
            leap == is_leap(year as int),
    {
        year % 4 == 0 && (year % 100 != 0 || year % 400 == 0)
    }

    /// The number of days of `month` in `year`: 31 for any month but
    /// February, April, June, September and November.
    pub fn month_day_count(year: u16, month: u8) -> (count: u8)
        ensures
            count == days_in_month(year as int, month as int),
    {
        match month {
            2 => {
                if Self::is_leap_year(year) {
                    29
                } else {
                    28
                }
            },
            4 | 6 | 9 | 11 => 30,
            _ => 31,
        }
    }

    /// The date of these numbers, if they name a day of the calendar.
    pub fn try_new(year: u16, month: u8, day: u8) -> (r: Result<Date, InvalidInput>)
        ensures
            r is Ok <==> is_civil(year as int, month as int, day as int),
            r matches Ok(date) ==> date == (Date { year, month, day }),
    {
        if year == 0 {
            return Err(InvalidInput);
        }
        if !(month > 0 && month <= 12) {
            return Err(InvalidInput);
        }
        let day_max: u8 = Date::month_day_count(year, month);
        if !(day > 0 && day <= day_max) {
            return Err(InvalidInput);
        }
        Ok(Date { year, month, day })
    }

    /// Whether this is a day of the calendar.
    pub fn is_well_formed(&self) -> (ok: bool)
        ensures
            ok == self.is_valid(),
    {
        Date::try_new(self.year, self.month, self.day).is_ok()
    }

    /// The count of days from 31 December 1969 to this date: 1 for
    /// 1 January 1970, negative before 1970.
    pub fn days_from_epoch(&self) -> (days: i32)
        requires
            self.is_valid(),
        ensures
            days == self.epoch_days(),
    {
        day_number_of(self.year, self.month, self.day) as i32 - EPOCH_DAY_NUMBER
    }

    /// The date that lies `days` days after 31 December 1969, if a [`Date`]
    /// can hold it.
    pub fn from_days_from_epoch(days: i32) -> (r: Option<Date>)
        ensures
            r == Date::at_day_number(days + EPOCH_DAY_NUMBER),
    {
        let number: i64 = days as i64 + EPOCH_DAY_NUMBER as i64;
        if number < 1 || number > MAX_DAY_NUMBER as i64 {
            return None;
        }
        let (year, month, day) = civil_from_day_number(number as u32);
        let date = Date { year, month, day };
        proof {
            lemma_at_day_number(date);
        }
        Some(date)
    }

    /// The days from `other` to this date: positive when this date is the
    /// later one.
    pub fn subtract(&self, other: &Date) -> (days: i32)
        requires
            self.is_valid(),
            other.is_valid(),
        ensures
            days == self.day_number() - other.day_number(),
    {
        proof {
            lemma_day_number_bounds(*self);
            lemma_day_number_bounds(*other);
        }
        let self_days: i32 = self.days_from_epoch();
        let other_days: i32 = other.days_from_epoch();
        self_days - other_days
    }

    /// The date `days` days after this one, if a [`Date`] can hold it.
    pub fn checked_add_days(&self, days: i16) -> (r: Option<Date>)
        requires
            self.is_valid(),
        ensures
            r == self.plus_days(days as int),
    {
        proof {
            lemma_day_number_bounds(*self);
        }
        Date::from_days_from_epoch(self.days_from_epoch() + days as i32)
    }

    /// The date `days` days after this one, or before it where `days` is
    /// negative.
    pub fn add_days(&self, days: i16) -> (date: Date)
        requires
            self.is_valid(),
            1 <= self.day_number() + days <= MAX_DAY_NUMBER,
        ensures
            Some(date) == self.plus_days(days as int),
            date.is_valid(),
            date.day_number() == self.day_number() + days,
    {
        add_days(self, days)
    }

    /// The date a week after this one.
    pub fn add_week(&self) -> (date: Date)
        requires
            self.is_valid(),
            self.day_number() + 7 <= MAX_DAY_NUMBER,
        ensures
            Some(date) == self.plus_days(7),
            date.is_valid(),
            date.day_number() == self.day_number() + 7,
    {
        proof {
            lemma_day_number_bounds(*self);
        }
        add_days(self, 7)
    }

    /// The date a week before this one.
    pub fn subtract_week(&self) -> (date: Date)
        requires
            self.is_valid(),
            1 <= self.day_number() - 7,
        ensures
            Some(date) == self.plus_days(-7),
            date.is_valid(),
            date.day_number() == self.day_number() - 7,
    {
        proof {
            lemma_day_number_bounds(*self);
        }
        add_days(self, -7)
    }

    /// The text form `YYYY-MM-DD` of this date.
    pub fn iso_8601(&self) -> (text: DateString)
        ensures
            text@ == self.iso_8601_bytes(),
    {
        let bytes: [u8; 10] = [
            (self.year / 1000) as u8 + 48,
            (self.year % 1000 / 100) as u8 + 48,
            (self.year % 100 / 10) as u8 + 48,
            (self.year % 10) as u8 + 48,
            45,
            (self.month / 10) + 48,
            (self.month % 10) + 48,
            45,
            (self.day / 10) + 48,
            (self.day % 10) + 48,
        ];
        assert(bytes@ =~= self.iso_8601_bytes());
        DateString(bytes)
    }

    /// Reads a date written as `YYYY-MM-DD`. The two bytes between the
    /// numbers may be any, and text after the tenth byte is ignored.
    pub fn from_str(s: &str) -> (r: Result<Date, ParseDateError>)
        ensures
            is_date_read_from(s, r),
    {
        // the date has to be like: 2025-10-31
        if byte_len(s) < 10 {
            return Err(ParseDateError::InputIsShort);
        }
        if !(s.is_char_boundary(4) && s.is_char_boundary(5) && s.is_char_boundary(7)
            && s.is_char_boundary(8) && s.is_char_boundary(10)) {
            return Err(ParseDateError::UnicodeIsNotSupported);
        }
        proof {
            encode_utf8_valid_utf8(s@);
            is_char_boundary_start_end_of_seq(s.spec_bytes());
        }
        let year: u16 = match parse_u16(byte_range(s, 0, 4)) {
            Ok(year) => year,
            Err(e) => {
                return Err(ParseDateError::ParseIntError(e));
            },
        };
        let month: u8 = match parse_u8(byte_range(s, 5, 7)) {
            Ok(month) => month,
            Err(e) => {
                return Err(ParseDateError::ParseIntError(e));
            },
        };
        let day: u8 = match parse_u8(byte_range(s, 8, 10)) {
            Ok(day) => day,
            Err(e) => {
                return Err(ParseDateError::ParseIntError(e));
            },
        };
        match Date::try_new(year, month, day) {
            Ok(date) => Ok(date),
            Err(e) => Err(ParseDateError::InvalidInput(e)),
        }
    }
}

impl core::str::FromStr for Date {
    type Err = ParseDateError;

    /// Reads a date written as `YYYY-MM-DD`, as [`Date::from_str`] does.
    fn from_str(s: &str) -> (r: Result<Self, Self::Err>)
        ensures
            is_date_read_from(s, r),
    {
        Date::from_str(s)
    }
}

/// The text form `YYYY-MM-DD` of a date, as ten ASCII bytes.
pub struct DateString([u8; 10]);

impl View for DateString {
    type V = Seq<u8>;

    closed spec fn view(&self) -> Seq<u8> {
        self.0@
    }
}

impl DateString {
    #[verifier::type_invariant]
    spec fn is_ascii(self) -> bool {
        forall|i: int| 0 <= i < 10 ==> #[trigger] self.0@[i] <= 127
    }

    /// The ten characters as text.
    pub fn as_str(&self) -> (text: &str)
        ensures
            text.spec_bytes() == self@,
    {
        proof {
            use_type_invariant(self);
            let bytes = self.0@;
            assert(bytes.subrange(0, 0) =~= Seq::<u8>::empty());
            assert(partial_valid_utf8(bytes, 0));
            partial_valid_utf8_extend_ascii_block(bytes, 0, 10);
            assert(bytes.subrange(0, 10) =~= bytes);
        }
        match utf8_text(self.0.as_slice()) {
            Ok(text) => text,
            Err(_) => vstd::pervasive::unreached(),
        }
    }
}

/// The days in the years 1970 to `year - 1`, negative before 1970: the count
/// of days from 31 December 1969 to the last day before `year`.
pub fn years_to_days(year: u16) -> (days: i32)
    requires
        1 <= year,
    ensures
        days == days_before_year(year as int) - EPOCH_DAY_NUMBER,
{
    proof {
        lemma_days_before_year(year as int);
    }
    let years: i32 = year as i32 - 1;
    years * 365 + years / 4 - years / 100 + years / 400 - EPOCH_DAY_NUMBER
}

/// The day after `date`.
pub fn increment_date(date: &Date) -> (next: Date)
    requires
        date.is_valid(),
        !date.is_last(),
    ensures
        next == date.next(),
        next.is_valid(),
        next.day_number() == date.day_number() + 1,
{
    proof {
        lemma_next_day(*date);
    }
    let month_day_count: u8 = Date::month_day_count(date.year, date.month);
    if date.day + 1 > month_day_count {
        if date.month + 1 == 13 {
            Date { day: 1, month: 1, year: date.year + 1 }
        } else {
            Date { day: 1, month: date.month + 1, year: date.year }
        }
    } else {
        Date { day: date.day + 1, month: date.month, year: date.year }
    }
}

/// The date `days` days after `from`: the date that has the day number of
/// `from` moved by `days`.
fn add_days(from: &Date, days: i16) -> (date: Date)
    requires
        from.is_valid(),
        1 <= from.day_number() + days <= MAX_DAY_NUMBER,
    ensures
        Some(date) == from.plus_days(days as int),
        date.is_valid(),
        date.day_number() == from.day_number() + days,
{
    let number: u32 = (day_number_of(from.year, from.month, from.day) as i32 + days as i32) as u32;
    let (year, month, day) = civil_from_day_number(number);
    let date = Date { year, month, day };
    proof {
        lemma_at_day_number(date);
    }
    date
}

/// The place of a weekday in a week that starts on Monday, from 1 for Monday
/// to 7 for Sunday, given its place in a week that starts on Sunday, from 0
/// for Sunday to 6 for Saturday.
pub open spec fn monday_first(weekday: int) -> int {
    if weekday == 0 {
        7
    } else {
        weekday
    }
}

/// See [`monday_first`].
pub fn natural_weekday(weekday: u8) -> (ordinal: u8)
    ensures
        ordinal == monday_first(weekday as int),
{
    match weekday {
        0 => 7,
        d => d,
    }
}

/// The Monday of the week of `today`, where `weekday` is the weekday of
/// `today` counted from 0 for Sunday to 6 for Saturday.
pub fn get_week_start(today: &Date, weekday: u8) -> (monday: Date)
    requires
        today.is_valid(),
        weekday <= 6,
        1 <= today.day_number() + 1 - monday_first(weekday as int),
    ensures
        Some(monday) == today.plus_days(1 - monday_first(weekday as int)),
        monday.is_valid(),
        monday.day_number() == today.day_number() + 1 - monday_first(weekday as int),
        today.day_number() % 7 == weekday ==> monday.day_number() % 7 == 1,
{
    proof {
        lemma_day_number_bounds(*today);
    }
    let week_offset_days: i16 = -(natural_weekday(weekday) as i16 - 1);
    add_days(today, week_offset_days)
}

/// The dates from a first one on, one day after the other, up to the last
/// date that can be held.
pub struct DateStream {
    last_date: Date,
    finished: bool,
}

impl DateStream {
    #[verifier::type_invariant]
    spec fn holds_a_date(self) -> bool {
        !self.finished ==> self.last_date.is_valid()
    }

    /// The date that the stream gives next, if any is left.
    pub closed spec fn upcoming(&self) -> Option<Date> {
        if self.finished {
            None
        } else {
            Some(self.last_date)
        }
    }

    /// The dates from `date` on.
    pub fn new(date: Date) -> (stream: Self)
        requires
            date.is_valid(),
        ensures
            stream.upcoming() == Some(date),
    {
        Self { last_date: date, finished: false }
    }

    /// Gives the next date and moves on by one day. The first date given is
    /// the one the stream was made with.
    pub fn next(&mut self) -> (date: Option<Date>)
        ensures
            date == old(self).upcoming(),
            date matches Some(d) ==> d.is_valid(),
            final(self).upcoming() == match old(self).upcoming() {
                Some(d) if !d.is_last() => Some(d.next()),
                _ => None,
            },
    {
        proof {
            use_type_invariant(&*self);
        }
        if self.finished {
            return None;
        }
        let ret: Date = self.last_date;
        if ret.year == u16::MAX && ret.month == 12 && ret.day == 31 {
            self.finished = true;
        } else {
            self.last_date = increment_date(&ret);
        }
        Some(ret)
    }
}

/// Every day number from 1 to that of the last date is the day number of a
/// date.
proof fn lemma_date_exists(number: int)
    requires
        1 <= number <= MAX_DAY_NUMBER,
    ensures
        exists|date: Date| date.is_valid() && date.day_number() == number,
    decreases number,
{
    if number == 1 {
        let first = Date { year: 1, month: 1, day: 1 };
        lemma_days_before_month(1, 1);
        assert(first.is_valid() && first.day_number() == 1);
    } else {
        lemma_date_exists(number - 1);
        let before = choose|date: Date| date.is_valid() && date.day_number() == number - 1;
        if before.is_last() {
            lemma_days_before_year(65535);
            lemma_days_before_month(65535, 12);
        }
        lemma_next_day(before);
        assert(before.next().is_valid() && before.next().day_number() == number);
    }
}

/// A date is the one that [`Date::at_day_number`] gives for its day number.
pub proof fn lemma_at_day_number(date: Date)
    requires
        date.is_valid(),
    ensures
        1 <= date.day_number() <= MAX_DAY_NUMBER,
        Date::at_day_number(date.day_number()) == Some(date),
{
    lemma_day_number_bounds(date);
    let found = choose|d: Date| d.is_valid() && d.day_number() == date.day_number();
    lemma_day_number_injective(
        found.year as int,
        found.month as int,
        found.day as int,
        date.year as int,
        date.month as int,
        date.day as int,
    );
}

/// A date that comes before another has the smaller day number.
pub proof fn lemma_earlier_date(earlier: Date, later: Date)
    requires
        earlier.is_valid(),
        later.is_valid(),
        earlier.comes_before(later),
    ensures
        earlier.day_number() < later.day_number(),
{
    lemma_day_number_order(
        earlier.year as int,
        earlier.month as int,
        earlier.day as int,
        later.year as int,
        later.month as int,
        later.day as int,
    );
}

/// Dates with one day number are one date.
pub proof fn lemma_same_day_number(a: Date, b: Date)
    requires
        a.is_valid(),
        b.is_valid(),
        a.day_number() == b.day_number(),
    ensures
        a == b,
{
    lemma_day_number_injective(
        a.year as int,
        a.month as int,
        a.day as int,
        b.year as int,
        b.month as int,
        b.day as int,
    );
}

/// The day number of a date lies between 1 and that of the last date.
pub proof fn lemma_day_number_bounds(date: Date)
    requires
        date.is_valid(),
    ensures
        1 <= date.day_number() <= MAX_DAY_NUMBER,
{
    lemma_days_before_year(date.year as int);
    lemma_days_before_month(date.year as int, date.month as int);
}

/// Where [`Date::at_day_number`] gives a date, it is a day of the calendar
/// and has that day number.
pub proof fn lemma_at_day_number_is_valid(number: int)
    requires
        1 <= number <= MAX_DAY_NUMBER,
    ensures
        Date::at_day_number(number) matches Some(date) && date.is_valid() && date.day_number()
            == number,
{
    lemma_date_exists(number);
}

/// Converting a date to its day number and back gives the date again.
pub proof fn lemma_day_number_round_trip(date: Date)
    requires
        date.is_valid(),
    ensures
        Date::at_day_number(date.day_number()) == Some(date),
        Date::at_day_number(date.epoch_days() + EPOCH_DAY_NUMBER) == Some(date),
{
    lemma_at_day_number(date);
}

/// The day after a date is a day of the calendar, and its day number is one
/// more.
pub proof fn lemma_next_day(date: Date)
    requires
        date.is_valid(),
        !date.is_last(),
    ensures
        date.next().is_valid(),
        date.next().day_number() == date.day_number() + 1,
{
    lemma_days_before_month(date.year as int, date.month as int);
    lemma_days_before_month(date.year as int, date.month as int + 1);
    lemma_days_before_month(date.year as int + 1, 1);
}

/// Moving a date by a number of days moves its day number by as much: the
/// days from a date to the date `days` days after it are `days`. A week later
/// is 7 days later, a week earlier 7 days earlier.
pub proof fn lemma_plus_days(date: Date, days: int)
    requires
        date.is_valid(),
        1 <= date.day_number() + days <= MAX_DAY_NUMBER,
    ensures
        date.plus_days(days) matches Some(moved) && moved.is_valid() && moved.day_number()
            - date.day_number() == days,
{
    lemma_at_day_number_is_valid(date.day_number() + days);
}

/// A date lies no days after itself.
pub proof fn lemma_plus_no_days(date: Date)
    requires
        date.is_valid(),
    ensures
        date.plus_days(0) == Some(date),
{
    lemma_at_day_number(date);
}

/// Where `date` lies `days` days after `first`, the day after `date` lies one
/// day more after `first`; where `date` is the last date, no date does.
pub proof fn lemma_next_plus_days(first: Date, days: int, date: Date)
    requires
        first.is_valid(),
        first.plus_days(days) == Some(date),
    ensures
        date.is_valid(),
        date.day_number() == first.day_number() + days,
        first.plus_days(days + 1) == if date.is_last() {
            None::<Date>
        } else {
            Some(date.next())
        },
{
    lemma_at_day_number_is_valid(first.day_number() + days);
    if date.is_last() {
        lemma_days_before_year(65535);
        lemma_days_before_month(65535, 12);
    } else {
        lemma_next_day(date);
        lemma_at_day_number(date.next());
    }
}

/// A week after a date lies 7 days after it, and a week before it 7 days
/// before it, wherever a [`Date`] can hold them.
pub proof fn lemma_week_arithmetic(date: Date)
    requires
        date.is_valid(),
    ensures
        date.day_number() + 7 <= MAX_DAY_NUMBER ==> (date.plus_days(7) matches Some(later)
            && later.is_valid() && later.day_number() - date.day_number() == 7),
        1 <= date.day_number() - 7 ==> (date.plus_days(-7) matches Some(earlier)
            && earlier.is_valid() && earlier.day_number() - date.day_number() == -7),
{
    lemma_day_number_bounds(date);
    if date.day_number() + 7 <= MAX_DAY_NUMBER {
        lemma_plus_days(date, 7);
    }
    if 1 <= date.day_number() - 7 {
        lemma_plus_days(date, -7);
    }
}

} // verus!
