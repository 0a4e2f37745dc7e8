//! Times of day and spans of minutes.

use vstd::prelude::*;
use vstd::string::*;
use crate::text::{byte_len, byte_range, decimal_value, lemma_ascii_boundaries, parse_u8};

verus! {

/// The minutes of an hour.
pub const MINUTES_PER_HOUR: u8 = 60;

/// The minutes of a day.
pub const MINUTES_PER_DAY: u16 = 1440;

/// The seconds of a day.
pub const SECONDS_PER_DAY: u32 = 86_400;

/// A component of a date or of a time of day was out of its range.
#[derive(Debug, Clone, Copy, PartialEq, Eq, Structural)]
pub struct InvalidInput;

/// Why a text is not a time of day.
#[derive(Debug)]
pub enum ParseTimeError {
    /// The hour is above 23 or the minute above 59.
    InvalidInput(InvalidInput),
    /// The hour or the minute is not a decimal number.
    ParseIntError(core::num::ParseIntError),
    /// The text holds a character outside ASCII.
    UnicodeIsNotSupported,
    /// The text is shorter than `HH:MM`.
    InputIsShort,
}

/// A number of minutes.
#[derive(Debug, PartialEq, Eq, Structural, PartialOrd, Ord, Default, Clone, Copy)]
pub struct Minutes(pub u16);

impl Minutes {
    /// The sum of two spans, which must fit in 16 bits.
    #[inline]
    pub fn add(self, other: Self) -> (sum: Self)
        requires
            self.0 + other.0 <= u16::MAX,
        ensures
            sum.0 == self.0 + other.0,
    {
        Minutes(self.0 + other.0)
    }

    /// What is left of this span without `other`, which must not be the
    /// longer one.
    #[inline]
    pub fn subtract(self, other: Self) -> (difference: Self)
        requires
            other.0 <= self.0,
        ensures
            difference.0 == self.0 - other.0,
    {
        Minutes(self.0 - other.0)
    }
}

/// A time of day, to the minute.
#[derive(Debug, Clone, Copy, PartialEq, Eq, Structural)]
pub struct Time {
    pub hour: u8,
    pub minute: u8,
}

/// The hour and the minute that the first five bytes of `text` write as
/// `HH:MM`, each a decimal number that fits in eight bits. The byte between
/// them is not looked at.
pub open spec fn time_text_numbers(text: Seq<u8>) -> Option<(nat, nat)> {
    match (decimal_value(text.subrange(0, 2)), decimal_value(text.subrange(3, 5))) {
        (Some(hour), Some(minute)) if hour <= u8::MAX && minute <= u8::MAX => Some((hour, minute)),
        _ => None,
    }
}

/// Whether `r` is what reading the text `s` as a time gives:
///
/// - the time that the first five bytes write as `HH:MM`, where the text is
///   ASCII and they write an hour up to 23 and a minute up to 59;
/// - `InputIsShort` for a text of fewer than five bytes;
/// - `UnicodeIsNotSupported` for a longer text that is not ASCII;
/// - `ParseIntError` where the hour or the minute is not a decimal number
///   that fits in eight bits;
/// - `InvalidInput` where the hour is above 23 or the minute above 59.
pub open spec fn is_time_read_from(s: &str, r: Result<Time, ParseTimeError>) -> bool {
    match r {
        Ok(time) => {
            &&& s.spec_bytes().len() >= 5
            &&& s.is_ascii()
            &&& time_text_numbers(s.spec_bytes()) == Some((time.hour as nat, time.minute as nat))
            &&& time.is_valid()
        },
        Err(ParseTimeError::InputIsShort) => s.spec_bytes().len() < 5,
        Err(ParseTimeError::UnicodeIsNotSupported) => {
            &&& s.spec_bytes().len() >= 5
            &&& !s.is_ascii()
        },
        Err(ParseTimeError::ParseIntError(_)) => {
            &&& s.spec_bytes().len() >= 5
            &&& s.is_ascii()
            &&& time_text_numbers(s.spec_bytes()) is None
        },
        Err(ParseTimeError::InvalidInput(_)) => {
            &&& s.spec_bytes().len() >= 5
            &&& s.is_ascii()
            &&& time_text_numbers(s.spec_bytes()) matches Some((hour, minute))
            &&& !(hour <= 23 && minute <= 59)
        },
    }
}

impl Time {
    /// Whether the hour is at most 23 and the minute at most 59.
    pub open spec fn is_valid(&self) -> bool {
        self.hour <= 23 && self.minute <= 59
    }

    /// The minutes from midnight to this time.
    pub open spec fn since_midnight(&self) -> int {
        self.hour * 60 + self.minute
    }

    /// The minutes from midnight to this time.
    #[inline]
    pub fn total_minutes(&self) -> (total: Minutes)
        ensures
            total.0 == self.since_midnight(),
    {
        Minutes(self.hour as u16 * MINUTES_PER_HOUR as u16 + self.minute as u16)
    }

    /// The time of these numbers, if the hour is at most 23 and the minute
    /// at most 59.
    pub fn try_new(hour: u8, minute: u8) -> (r: Result<Time, InvalidInput>)
        ensures
            r is Ok <==> hour <= 23 && minute <= 59,
            r matches Ok(time) ==> time == (Time { hour, minute }),
    {
        if hour > 23 || minute > 59 {
            Err(InvalidInput)
        } else {
            Ok(Time { hour, minute })
        }
    }

    /// 00:00, when a day begins.
    pub fn midnight() -> (time: Self)
        ensures
            time == (Time { hour: 0, minute: 0 }),
    {
        Self { hour: 0, minute: 0 }
    }

    /// 23:59, the last minute of a day.
    pub fn last_minute() -> (time: Self)
        ensures
            time == (Time { hour: 23, minute: 59 }),
    {
        Self { hour: 23, minute: 59 }
    }

    /// The minutes from midnight to this time, as a plain number.
    pub fn minutes_from_midnight(&self) -> (minutes: u16)
        ensures
            minutes == self.since_midnight(),
    {
        (self.hour as u16 * MINUTES_PER_HOUR as u16) + self.minute as u16
    }

    /// Reads a time written as `HH:MM`. Text after the fifth byte is ignored.
    pub fn from_str(s: &str) -> (r: Result<Time, ParseTimeError>)
        ensures
            is_time_read_from(s, r),
    {
        if byte_len(s) < 5 {
            return Err(ParseTimeError::InputIsShort);
        }
        if !s.is_ascii() {
            return Err(ParseTimeError::UnicodeIsNotSupported);
        }
        proof {
            lemma_ascii_boundaries(s);
        }
        let hour: u8 = match parse_u8(byte_range(s, 0, 2)) {
            Ok(hour) => hour,
            Err(e) => {
                return Err(ParseTimeError::ParseIntError(e));
            },
        };
        let minute: u8 = match parse_u8(byte_range(s, 3, 5)) {
            Ok(minute) => minute,
            Err(e) => {
                return Err(ParseTimeError::ParseIntError(e));
            },
        };
        match Time::try_new(hour, minute) {
            Ok(time) => Ok(time),
            Err(e) => Err(ParseTimeError::InvalidInput(e)),
        }
    }

    /// Reads the time field of an agenda line: `HH:MM`, or nothing at all for
    /// an event that takes the whole day, which stands for midnight.
    pub fn from_agenda_field(s: &str) -> (r: Result<Time, ParseTimeError>)
        ensures
            s@.len() == 0 ==> r == Ok::<Time, ParseTimeError>(Time { hour: 0, minute: 0 }),
            s@.len() != 0 ==> is_time_read_from(s, r),
    {
        if s.is_empty() {
            Ok(Time::midnight())
        } else {
            Time::from_str(s)
        }
    }
}

impl core::str::FromStr for Time {
    type Err = ParseTimeError;

    /// Reads a time written as `HH:MM`, as [`Time::from_str`] does.
    fn from_str(s: &str) -> (r: Result<Self, Self::Err>)
        ensures
            is_time_read_from(s, r),
    {
        Time::from_str(s)
    }
}

} // verus!
