//! Sorting the events of a day into short and long ones.
//!
//! An event that begins and ends on one day is short, unless it takes the
//! whole day. An event that ends on the day after it begins and lasts less
//! than 24 hours crosses the night: it is cut at midnight, and each half is a
//! short event of its day. Every other event is long, and is kept once, on
//! the day it begins.

use vstd::prelude::*;
use vstd::string::*;
use crate::date::{lemma_day_number_bounds, Date};
use crate::event::Event;
use crate::text::same_text;
use crate::time::Time;

verus! {

/// What kind of place an event takes in the week.
#[derive(Debug, Clone, Copy, PartialEq, Eq, Structural)]
pub enum EventType {
    /// event shorter than 24 hours
    Short,
    /// event longer than 24 hours
    Long,
    /// event shorter than 24 hours, but finishes on the following day
    CrossNight,
}

/// The events of a day, or of a week.
pub type EventVec = Vec<Event>;

/// The events of a week, sorted into long and short ones.
pub struct Events {
    pub long: EventVec,
    pub short: EventVec,
}

/// What the all-day field of an agenda line says: `True` or `False`.
pub open spec fn all_day_flag(text: Seq<char>) -> Option<bool> {
    if text == "True"@ {
        Some(true)
    } else if text == "False"@ {
        Some(false)
    } else {
        None
    }
}

/// See [`all_day_flag`].
pub fn parse_all_day(text: &str) -> (flag: Option<bool>)
    ensures
        flag == all_day_flag(text@),
{
    if same_text(text, "True") {
        Some(true)
    } else if same_text(text, "False") {
        Some(false)
    } else {
        None
    }
}

/// The kind of an event that lasts from `start` on one day to `end` on the
/// day `duration_days` days later.
pub open spec fn kind_of(
    duration_days: int,
    start: Time,
    end: Time,
    is_all_day: bool,
) -> EventType {
    if duration_days == 0 {
        if is_all_day {
            EventType::Long
        } else {
            EventType::Short
        }
    } else if duration_days == 1 && end.since_midnight() < start.since_midnight() {
        EventType::CrossNight
    } else {
        EventType::Long
    }
}

impl Event {
    /// The days from the day this event begins to the day it ends.
    pub open spec fn duration_days(&self) -> int {
        self.end_date.day_number() - self.start_date.day_number()
    }

    /// The kind of this event.
    pub open spec fn kind(&self, is_all_day: bool) -> EventType {
        kind_of(self.duration_days(), self.start_time, self.end_time, is_all_day)
    }

    /// This event with the times of an event that takes whole days, from
    /// midnight to the last minute, where it is one.
    pub open spec fn normalized(self, is_all_day: bool) -> Event {
        if is_all_day {
            Event {
                start_time: Time { hour: 0, minute: 0 },
                end_time: Time { hour: 23, minute: 59 },
                ..self
            }
        } else {
            self
        }
    }

    /// The half of this event that falls on `date`: up to the last minute of
    /// the day it begins, or from midnight of the day it ends.
    pub open spec fn cropped(self, date: Date) -> Event {
        if date == self.start_date {
            Event { end_date: self.start_date, end_time: Time { hour: 23, minute: 59 }, ..self }
        } else {
            Event { start_date: self.end_date, start_time: Time { hour: 0, minute: 0 }, ..self }
        }
    }

    /// Whether this event can be sorted as an event of the day `date`: its
    /// all-day field says `True` or `False`, its dates are days of the
    /// calendar, it does not end on a day before it begins, and where it
    /// crosses the night, `date` is the day it begins or the day it ends.
    pub open spec fn can_be_sorted(&self, date: Date) -> bool {
        &&& all_day_flag(self.all_day@) matches Some(is_all_day)
        &&& self.has_valid_dates()
        &&& self.duration_days() >= 0
        &&& self.normalized(is_all_day).kind(is_all_day) == EventType::CrossNight ==> date
            == self.start_date || date == self.end_date
    }

    /// Where this event goes as an event of the day `date`: among the short
    /// events (`true`) or the long ones (`false`), and in what form; `None`
    /// where it is dropped, being a long event that began on another day.
    pub open spec fn sorted(self, date: Date) -> Option<(bool, Event)> {
        let is_all_day = all_day_flag(self.all_day@).unwrap();
        let event = self.normalized(is_all_day);
        match event.kind(is_all_day) {
            EventType::Short => Some((true, event)),
            EventType::Long => if event.start_date == date {
                Some((false, event))
            } else {
                None
            },
            EventType::CrossNight => Some((true, event.cropped(date))),
        }
    }
}

/// See [`Event::can_be_sorted`].
pub fn can_be_sorted(event: &Event, date: &Date) -> (ok: bool)
    ensures
        ok == event.can_be_sorted(*date),
{
    let is_all_day: bool = match parse_all_day(event.all_day.as_str()) {
        Some(flag) => flag,
        None => {
            return false;
        },
    };
    if !event.start_date.is_well_formed() || !event.end_date.is_well_formed() {
        return false;
    }
    proof {
        lemma_day_number_bounds(event.start_date);
        lemma_day_number_bounds(event.end_date);
    }
    let duration_days: i32 = event.end_date.subtract(&event.start_date);
    if duration_days < 0 {
        return false;
    }
    if is_all_day || duration_days != 1 {
        return true;
    }
    let crosses_night: bool = event.end_time.minutes_from_midnight()
        < event.start_time.minutes_from_midnight();
    !crosses_night || *date == event.start_date || *date == event.end_date
}

/// Sorts an event of the agenda of the day `date`: says whether it goes among
/// the short events and gives it in the form it is kept in, or drops it. See
/// [`Event::sorted`].
pub fn short_event_filter(mut event: Event, date: &Date) -> (r: Option<(bool, Event)>)
    requires
        event.can_be_sorted(*date),
    ensures
        r == event.sorted(*date),
{
    let is_all_day: bool = match parse_all_day(event.all_day.as_str()) {
        Some(flag) => flag,
        None => vstd::pervasive::unreached(),
    };

    if is_all_day {
        event.start_time = Time::midnight();
        event.end_time = Time::last_minute();
    }
    let event_type: EventType = determine_event_type(&event, is_all_day);
    match event_type {
        EventType::Short => Some((true, event)),
        EventType::Long => {
            if event.start_date == *date {
                Some((false, event))
            } else {
                None
            }
        },
        EventType::CrossNight => {
            let cropped_event: Event = crop_event(date, event);
            Some((true, cropped_event))
        },
    }
}

/// An event which finishes on the following day is split into two events. The
/// event occurs for every day it lasts for, so there are two occurrences of
/// it with the same properties: one for the day where it starts, one for the
/// day where it finishes. Splitting the event thus becomes cropping each
/// occurrence.
///
/// The first occurrence is turned into the event which lasts until the last
/// minute of its day; the second starts from the midnight of the following
/// day and lasts until the end.
///
/// It assumes that it's called only for the events which start on one day and
/// finish on the following day.
pub fn crop_event(date: &Date, event: Event) -> (cropped: Event)
    requires
        *date == event.start_date || *date == event.end_date,
    ensures
        cropped == event.cropped(*date),
{
    if *date == event.start_date {
        Event {
            start_date: event.start_date,
            start_time: event.start_time,
            end_date: event.start_date,
            end_time: Time::last_minute(),
            title: event.title,
            all_day: event.all_day,
            calendar_color: event.calendar_color,
        }
    } else {
        Event {
            start_date: event.end_date,
            start_time: Time::midnight(),
            end_date: event.end_date,
            end_time: event.end_time,
            title: event.title,
            all_day: event.all_day,
            calendar_color: event.calendar_color,
        }
    }
}

/// The kind of an event whose times are those of a whole day where it takes
/// whole days. See [`kind_of`].
pub fn determine_event_type(event: &Event, is_all_day: bool) -> (kind: EventType)
    requires
        event.has_valid_dates(),
        event.duration_days() >= 0,
    ensures
        kind == event.kind(is_all_day),
{
    let sd: &Date = &event.start_date;
    let ed: &Date = &event.end_date;
    let st: &Time = &event.start_time;
    let et: &Time = &event.end_time;
    let event_duration_days: i32 = ed.subtract(sd);
    if event_duration_days == 0 {
        if is_all_day {
            EventType::Long
        } else {
            EventType::Short
        }
    } else if event_duration_days == 1 {
        let full_day: i32 = 24 * 60;
        let event_duration_to_midnight: i32 = full_day - st.hour as i32 * 60 - st.minute as i32;
        let event_duration_after_midnight: i32 = et.hour as i32 * 60 + et.minute as i32;
        let event_duration: i32 = event_duration_to_midnight + event_duration_after_midnight;
        if event_duration >= full_day {
            EventType::Long
        } else {
            EventType::CrossNight
        }
    } else {
        EventType::Long
    }
}

} // verus!
