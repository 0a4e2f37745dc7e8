//! Agenda events and what is kept of them for display.

use vstd::prelude::*;
use vstd::string::*;
use vstd::utf8::*;
use crate::date::Date;
use crate::text::{byte_len, byte_range, hex_value, parse_hex_u32};
use crate::time::Time;

verus! {

/// The place of an event among events shown side by side, counted from 0.
pub type Lane = u8;

/// A text of the agenda that is not a date or not a time.
#[derive(Debug)]
pub enum Error<'s> {
    InvalidDate(&'s str),
    InvalidTime(&'s str),
}

/// The colour of the calendar that an event belongs to, as one 32-bit number.
#[derive(Debug, Clone, Copy, PartialEq, Eq, Structural)]
pub struct Color(u32);

impl View for Color {
    type V = u32;

    closed spec fn view(&self) -> u32 {
        self.0
    }
}

impl Color {
    /// The colour that `text` writes: one character that is dropped (the
    /// `#` of `#RRGGBB`), then a hexadecimal number that fits in 32 bits.
    pub open spec fn of_text(text: Seq<u8>) -> Option<u32> {
        if text.len() >= 1 && is_char_boundary(text, 1) {
            match hex_value(text.subrange(1, text.len() as int)) {
                Some(value) if value <= u32::MAX => Some(value as u32),
                _ => None,
            }
        } else {
            None
        }
    }

    /// The colour that `value` makes up.
    pub fn new(value: u32) -> (color: Color)
        ensures
            color@ == value,
    {
        Color(value)
    }

    /// The number that makes up this colour.
    pub fn value(&self) -> (value: u32)
        ensures
            value == self@,
    {
        self.0
    }

    /// Reads the colour field of an agenda line, such as `#1f77b4`.
    pub fn from_hex(s: &str) -> (r: Option<Color>)
        ensures
            match r {
                Some(color) => Color::of_text(s.spec_bytes()) == Some(color@),
                None => Color::of_text(s.spec_bytes()) is None,
            },
    {
        let len: usize = byte_len(s);
        if len < 1 || !s.is_char_boundary(1) {
            return None;
        }
        proof {
            encode_utf8_valid_utf8(s@);
            is_char_boundary_start_end_of_seq(s.spec_bytes());
        }
        let s_without_sharp: &str = byte_range(s, 1, len);
        match parse_hex_u32(s_without_sharp) {
            Err(_) => None,
            Ok(x) => Some(Color(x)),
        }
    }
}

impl From<Color> for u32 {
    fn from(val: Color) -> (value: u32) {
        val.0
    }
}

impl vstd::std_specs::convert::FromSpecImpl<Color> for u32 {
    open spec fn obeys_from_spec() -> bool {
        true
    }

    open spec fn from_spec(val: Color) -> u32 {
        val@
    }
}

/// An event as the agenda gives it.
#[derive(Debug)]
pub struct Event {
    pub title: String,
    pub start_date: Date,
    pub start_time: Time,
    pub end_date: Date,
    pub end_time: Time,
    /// `True` for an event that takes whole days, `False` for any other.
    pub all_day: String,
    pub calendar_color: Color,
}

/// When an event takes place, and its colour.
#[derive(Debug, Clone, Copy, PartialEq, Eq, Structural)]
pub struct EventRange {
    pub start_date: Date,
    pub start_time: Time,
    pub end_date: Date,
    pub end_time: Time,
    pub calendar_color: Color,
}

/// Events and their lanes, as three lists of one length: what stands at one
/// index of each belongs to one event.
pub struct EventData {
    pub event_ranges: Vec<EventRange>,
    pub titles: Vec<String>,
    /// For each event its lane and the number of lanes of its group.
    pub lanes: Vec<(Lane, Lane)>,
}

impl Event {
    /// When this event takes place, and its colour.
    pub open spec fn range(&self) -> EventRange {
        EventRange {
            start_date: self.start_date,
            start_time: self.start_time,
            end_date: self.end_date,
            end_time: self.end_time,
            calendar_color: self.calendar_color,
        }
    }

    /// Whether both dates are days of the calendar.
    pub open spec fn has_valid_dates(&self) -> bool {
        self.start_date.is_valid() && self.end_date.is_valid()
    }
}

impl EventData {
    /// Whether the three lists have one length.
    pub open spec fn is_aligned(&self) -> bool {
        self.event_ranges.len() == self.titles.len() && self.titles.len() == self.lanes.len()
    }

    /// Whether each event can be given a rectangle: the three lists have one
    /// length, the dates of each event are days of the calendar, and its
    /// lane lies below the number of lanes of its group.
    pub open spec fn can_be_placed(&self) -> bool {
        &&& self.is_aligned()
        &&& forall|i: int|
            0 <= i < self.event_ranges.len() ==> {
                &&& (#[trigger] self.event_ranges[i]).start_date.is_valid()
                &&& self.event_ranges[i].end_date.is_valid()
                &&& self.lanes[i].0 < self.lanes[i].1
            }
    }

    /// Whether each event begins and ends on one day.
    pub open spec fn is_within_days(&self) -> bool {
        forall|i: int|
            0 <= i < self.event_ranges.len() ==> (#[trigger] self.event_ranges[i]).start_date
                == self.event_ranges[i].end_date
    }

    /// The largest number of lanes that any group of events takes, 0 where
    /// there is no event.
    pub fn calculate_biggest_clash(&self) -> (biggest: Lane)
        ensures
            forall|i: int| 0 <= i < self.lanes.len() ==> self.lanes[i].1 <= biggest,
            self.lanes.len() == 0 ==> biggest == 0,
            self.lanes.len() > 0 ==> exists|i: int|
                0 <= i < self.lanes.len() && self.lanes[i].1 == biggest,
    {
        let mut biggest: Lane = 0;
        let mut index: usize = 0;
        while index < self.lanes.len()
            invariant
                index <= self.lanes.len(),
                forall|i: int| 0 <= i < index ==> self.lanes[i].1 <= biggest,
                index == 0 ==> biggest == 0,
                index > 0 ==> exists|i: int| 0 <= i < index && self.lanes[i].1 == biggest,
            decreases self.lanes.len() - index,
        {
            let total_lane_count: Lane = self.lanes[index].1;
            if total_lane_count > biggest {
                biggest = total_lane_count;
            }
            index += 1;
        }
        biggest
    }
}

} // verus!
