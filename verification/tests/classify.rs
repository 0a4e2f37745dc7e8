use calendar::classify::{
    can_be_sorted, crop_event, determine_event_type, parse_all_day, short_event_filter, EventType,
};
use calendar::date::Date;
use calendar::event::{Color, Event, EventData};
use calendar::time::Time;

fn event(start_date: &str, start_time: &str, end_date: &str, end_time: &str, all_day: &str) -> Event {
    Event {
        title: "event".to_owned(),
        start_date: Date::from_str(start_date).unwrap(),
        start_time: Time::from_agenda_field(start_time).unwrap(),
        end_date: Date::from_str(end_date).unwrap(),
        end_time: Time::from_agenda_field(end_time).unwrap(),
        all_day: all_day.to_owned(),
        calendar_color: Color::new(0x1f77b4),
    }
}

fn date(text: &str) -> Date {
    Date::from_str(text).unwrap()
}

#[test]
fn test_cross_night_event_is_split() {
    let on_the_first_day = short_event_filter(
        event("2025-10-27", "23:00", "2025-10-28", "01:00", "False"),
        &date("2025-10-27"),
    );
    let (is_short, first_half) = on_the_first_day.unwrap();
    assert!(is_short);
    assert_eq!(first_half.start_date, date("2025-10-27"));
    assert_eq!(first_half.start_time, Time { hour: 23, minute: 0 });
    assert_eq!(first_half.end_date, date("2025-10-27"));
    assert_eq!(first_half.end_time, Time { hour: 23, minute: 59 });

    let on_the_second_day = short_event_filter(
        event("2025-10-27", "23:00", "2025-10-28", "01:00", "False"),
        &date("2025-10-28"),
    );
    let (is_short, second_half) = on_the_second_day.unwrap();
    assert!(is_short);
    assert_eq!(second_half.start_date, date("2025-10-28"));
    assert_eq!(second_half.start_time, Time { hour: 0, minute: 0 });
    assert_eq!(second_half.end_date, date("2025-10-28"));
    assert_eq!(second_half.end_time, Time { hour: 1, minute: 0 });
    assert_eq!(second_half.title, "event");
    assert_eq!(second_half.calendar_color, Color::new(0x1f77b4));
}

#[test]
fn test_kinds_of_events() {
    let short = event("2025-10-27", "10:00", "2025-10-27", "11:00", "False");
    assert_eq!(determine_event_type(&short, false), EventType::Short);
    let whole_day = event("2025-10-27", "00:00", "2025-10-27", "23:59", "True");
    assert_eq!(determine_event_type(&whole_day, true), EventType::Long);
    let over_night = event("2025-10-27", "23:00", "2025-10-28", "01:00", "False");
    assert_eq!(determine_event_type(&over_night, false), EventType::CrossNight);
    let a_minute_less_than_a_day = event("2025-10-27", "12:00", "2025-10-28", "11:59", "False");
    assert_eq!(determine_event_type(&a_minute_less_than_a_day, false), EventType::CrossNight);
    let a_full_day = event("2025-10-27", "12:00", "2025-10-28", "12:00", "False");
    assert_eq!(determine_event_type(&a_full_day, false), EventType::Long);
    let two_days = event("2025-10-27", "23:00", "2025-10-29", "01:00", "False");
    assert_eq!(determine_event_type(&two_days, false), EventType::Long);
    let over_the_year = event("2025-12-31", "23:00", "2026-01-01", "01:00", "False");
    assert_eq!(determine_event_type(&over_the_year, false), EventType::CrossNight);
}

#[test]
fn test_all_day_event_gets_the_times_of_a_whole_day() {
    let sorted = short_event_filter(
        event("2025-10-27", "", "2025-10-27", "", "True"),
        &date("2025-10-27"),
    );
    let (is_short, whole_day) = sorted.unwrap();
    assert!(!is_short);
    assert_eq!(whole_day.start_time, Time::midnight());
    assert_eq!(whole_day.end_time, Time::last_minute());
}

#[test]
fn test_long_event_is_kept_on_its_first_day_only() {
    let on_the_first_day = short_event_filter(
        event("2025-10-27", "10:00", "2025-10-30", "10:00", "False"),
        &date("2025-10-27"),
    );
    let (is_short, kept) = on_the_first_day.unwrap();
    assert!(!is_short);
    assert_eq!(kept.start_date, date("2025-10-27"));
    assert_eq!(kept.end_date, date("2025-10-30"));
    let on_the_next_day = short_event_filter(
        event("2025-10-27", "10:00", "2025-10-30", "10:00", "False"),
        &date("2025-10-28"),
    );
    assert!(on_the_next_day.is_none());
    let all_day_over_two_days = short_event_filter(
        event("2025-10-27", "", "2025-10-28", "", "True"),
        &date("2025-10-28"),
    );
    assert!(all_day_over_two_days.is_none());
}

#[test]
fn test_short_event_stays_as_it_is() {
    let sorted = short_event_filter(
        event("2025-10-27", "10:00", "2025-10-27", "11:00", "False"),
        &date("2025-10-27"),
    );
    let (is_short, kept) = sorted.unwrap();
    assert!(is_short);
    assert_eq!(kept.start_time, Time { hour: 10, minute: 0 });
    assert_eq!(kept.end_time, Time { hour: 11, minute: 0 });
}

#[test]
fn test_crop_event() {
    let first = crop_event(
        &date("2025-12-31"),
        event("2025-12-31", "22:15", "2026-01-01", "03:30", "False"),
    );
    assert_eq!((first.start_date, first.start_time), (date("2025-12-31"), Time { hour: 22, minute: 15 }));
    assert_eq!((first.end_date, first.end_time), (date("2025-12-31"), Time { hour: 23, minute: 59 }));
    let second = crop_event(
        &date("2026-01-01"),
        event("2025-12-31", "22:15", "2026-01-01", "03:30", "False"),
    );
    assert_eq!((second.start_date, second.start_time), (date("2026-01-01"), Time { hour: 0, minute: 0 }));
    assert_eq!((second.end_date, second.end_time), (date("2026-01-01"), Time { hour: 3, minute: 30 }));
    assert_eq!(second.all_day, "False");
}

#[test]
fn test_all_day_field() {
    assert_eq!(parse_all_day("True"), Some(true));
    assert_eq!(parse_all_day("False"), Some(false));
    assert_eq!(parse_all_day("true"), None);
    assert_eq!(parse_all_day(""), None);
    assert_eq!(parse_all_day("Truer"), None);
}

#[test]
fn test_events_that_cannot_be_sorted() {
    let day = date("2025-10-27");
    assert!(can_be_sorted(&event("2025-10-27", "10:00", "2025-10-27", "11:00", "False"), &day));
    assert!(!can_be_sorted(&event("2025-10-27", "10:00", "2025-10-27", "11:00", "yes"), &day));
    assert!(!can_be_sorted(&event("2025-10-28", "10:00", "2025-10-27", "11:00", "False"), &day));
    assert!(can_be_sorted(&event("2025-10-27", "23:00", "2025-10-28", "01:00", "False"), &day));
    assert!(can_be_sorted(&event("2025-10-26", "23:00", "2025-10-27", "01:00", "False"), &day));
    assert!(!can_be_sorted(&event("2025-10-25", "23:00", "2025-10-26", "01:00", "False"), &day));
    assert!(can_be_sorted(&event("2025-10-25", "23:00", "2025-10-26", "01:00", "True"), &day));
    let mut broken = event("2025-10-27", "10:00", "2025-10-27", "11:00", "False");
    broken.end_date = Date { year: 2025, month: 2, day: 30 };
    assert!(!can_be_sorted(&broken, &day));
}

#[test]
fn test_biggest_clash() {
    let none = EventData { event_ranges: Vec::new(), titles: Vec::new(), lanes: Vec::new() };
    assert_eq!(none.calculate_biggest_clash(), 0);
    let some = EventData {
        event_ranges: Vec::new(),
        titles: Vec::new(),
        lanes: vec![(0, 2), (1, 2), (0, 3), (1, 3), (2, 3), (0, 1)],
    };
    assert_eq!(some.calculate_biggest_clash(), 3);
}
