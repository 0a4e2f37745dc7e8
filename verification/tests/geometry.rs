use calendar::clash::{find_clashes, short_event_clash_condition};
use calendar::date::Date;
use calendar::event::{Color, Event, EventData, EventRange};
use calendar::render::{
    calculate_event_point_x, create_long_event_rectangle, create_point,
    create_short_event_rectangle, long_event_rectangles, short_event_rectangles, Arguments, Point,
    Rectangle, Rectangles,
};
use calendar::time::Time;

fn create_date(s: &str) -> Date {
    match Date::from_str(s) {
        Ok(x) => x,
        Err(_) => panic!("can't create Date from {}", s),
    }
}

fn create_time(s: &str) -> Time {
    match Time::from_str(s) {
        Ok(x) => x,
        Err(_) => panic!("can't create Time from {}", s),
    }
}

fn range(start_date: &str, start_time: &str, end_date: &str, end_time: &str) -> EventRange {
    EventRange {
        start_date: create_date(start_date),
        start_time: create_time(start_time),
        end_date: create_date(end_date),
        end_time: create_time(end_time),
        calendar_color: Color::new(0x000000ff),
    }
}

#[test]
fn test_create_long_event_rectangle() {
    let event = range("2025-11-04", "00:00", "2025-11-06", "00:00");
    let title = "all day event".to_owned();

    let first_date: Date = create_date("2025-11-03");
    let arguments = Arguments {
        column_width: 100,
        column_height: 50,
        offset_x: 125,
        offset_y: 70,
    };

    let rectangle: Rectangle<'_> =
        create_long_event_rectangle(&event, &title, &first_date, &arguments);

    let expected_x: i64 = arguments.offset_x as i64 + arguments.column_width as i64 * 1;
    assert_eq!(rectangle.at.x, expected_x);
    let end: i64 = arguments.offset_x as i64 + arguments.column_width as i64 * 3;
    let expected_width: i64 = end - expected_x;
    assert_eq!(rectangle.size.x, expected_width);
}

#[test]
fn test_top_left_event() {
    let events = EventData {
        event_ranges: vec![range("2025-09-29", "00:00", "2025-09-29", "01:00")],
        titles: vec!["arst".to_owned()],
        lanes: Vec::from([(0, 1)]),
    };

    let arguments = Arguments {
        column_width: 125,
        column_height: 600,
        offset_x: 0,
        offset_y: 0,
    };

    let start_date = Date {
        year: 2025,
        month: 9,
        day: 29,
    };

    let ret: Rectangles = short_event_rectangles(&events, &start_date, &arguments);
    const ONE_HOUR: i64 = 600 / 24;
    let [x] = ret.as_slice() else {
        panic!("there must be a single rectangle");
    };
    assert!(
        matches!(
            x,
            Rectangle {
                at: Point { x: 0, y: 0 },
                size: Point {
                    x: 125,
                    y: ONE_HOUR
                },
                ..
            },
        ),
        "the actual at {:?}, the actual size {:?}",
        x.at,
        x.size,
    );
    assert_eq!(x.text, "arst");
}

#[test]
fn test_column_of_a_day() {
    let first = create_date("2025-12-29");
    assert_eq!(calculate_event_point_x(&first, &first, 125, 10), 10);
    assert_eq!(calculate_event_point_x(&first, &create_date("2026-01-04"), 125, 10), 760);
    assert_eq!(calculate_event_point_x(&first, &create_date("2026-01-04"), 125, -10), 740);
}

#[test]
fn test_point_of_a_time() {
    let first = create_date("2025-11-03");
    let arguments = Arguments { column_width: 100, column_height: 1440, offset_x: 5, offset_y: 7 };
    let point = create_point(&first, &create_date("2025-11-05"), &create_time("12:30"), &arguments);
    assert_eq!(point, Point::new(205, 757));
    let low = Arguments { column_width: 100, column_height: 100, offset_x: 0, offset_y: 0 };
    let rounded = create_point(&first, &first, &create_time("00:15"), &low);
    assert_eq!(rounded, Point { x: 0, y: 1 });
}

#[test]
fn test_short_event_without_lanes() {
    let first = create_date("2025-11-03");
    let arguments = Arguments { column_width: 140, column_height: 720, offset_x: 100, offset_y: 70 };
    let event = range("2025-11-04", "10:00", "2025-11-04", "11:30");
    let rectangle = create_short_event_rectangle(&event, "standup", &first, &arguments);
    assert_eq!(rectangle.at, Point { x: 240, y: 370 });
    assert_eq!(rectangle.size, Point { x: 140, y: 45 });
    assert_eq!(rectangle.text, "standup");
}

#[test]
fn test_short_events_side_by_side() {
    let first = create_date("2025-11-03");
    let arguments = Arguments { column_width: 125, column_height: 1440, offset_x: 100, offset_y: 0 };
    let events = EventData {
        event_ranges: vec![
            range("2025-11-03", "10:00", "2025-11-03", "11:00"),
            range("2025-11-03", "10:30", "2025-11-03", "11:30"),
            range("2025-11-03", "11:00", "2025-11-03", "12:00"),
            range("2025-11-04", "12:00", "2025-11-04", "13:00"),
        ],
        titles: vec!["first".to_owned(), "second".to_owned(), "third".to_owned(), "alone".to_owned()],
        lanes: vec![(0, 2), (1, 2), (0, 2), (0, 1)],
    };
    let rectangles = short_event_rectangles(&events, &first, &arguments);
    assert_eq!(rectangles.len(), 4);
    assert_eq!((rectangles[0].at, rectangles[0].size), (Point { x: 100, y: 600 }, Point { x: 62, y: 60 }));
    assert_eq!((rectangles[1].at, rectangles[1].size), (Point { x: 162, y: 630 }, Point { x: 62, y: 60 }));
    assert_eq!((rectangles[2].at, rectangles[2].size), (Point { x: 100, y: 660 }, Point { x: 62, y: 60 }));
    assert_eq!((rectangles[3].at, rectangles[3].size), (Point { x: 225, y: 720 }, Point { x: 125, y: 60 }));
    assert_eq!(rectangles[1].text, "second");
    assert_eq!(rectangles[3].text, "alone");
}

#[test]
fn test_long_events_one_below_the_other() {
    let first = create_date("2025-11-03");
    let arguments = Arguments { column_width: 100, column_height: 50, offset_x: 125, offset_y: 70 };
    let events = EventData {
        event_ranges: vec![
            range("2025-11-04", "00:00", "2025-11-06", "00:00"),
            range("2025-11-05", "12:00", "2025-11-07", "06:00"),
            range("2025-11-08", "00:00", "2025-11-08", "23:59"),
        ],
        titles: vec!["trip".to_owned(), "visit".to_owned(), "holiday".to_owned()],
        lanes: vec![(0, 2), (1, 2), (0, 1)],
    };
    let rectangles = long_event_rectangles(&events, &first, &arguments);
    assert_eq!(rectangles.len(), 3);
    assert_eq!((rectangles[0].at, rectangles[0].size), (Point { x: 225, y: 70 }, Point { x: 200, y: 25 }));
    assert_eq!((rectangles[1].at, rectangles[1].size), (Point { x: 375, y: 95 }, Point { x: 175, y: 25 }));
    assert_eq!((rectangles[2].at, rectangles[2].size), (Point { x: 625, y: 70 }, Point { x: 99, y: 50 }));
    assert_eq!(rectangles[0].text, "trip");
    assert_eq!(rectangles[2].text, "holiday");
}

#[test]
fn test_long_event_that_began_before_the_week() {
    let first = create_date("2025-11-03");
    let arguments = Arguments { column_width: 100, column_height: 50, offset_x: 125, offset_y: 70 };
    let event = range("2025-11-01", "12:00", "2025-11-04", "00:00");
    let rectangle = create_long_event_rectangle(&event, "", &first, &arguments);
    assert_eq!(rectangle.at, Point { x: -25, y: 70 });
    assert_eq!(rectangle.size, Point { x: 250, y: 50 });
}

#[test]
fn test_rectangles_of_short_events_share_no_point() {
    let mut seed: u32 = 2025;
    let mut next = move |bound: u32| {
        seed = seed.wrapping_mul(1_103_515_245).wrapping_add(12_345);
        (seed >> 16) % bound
    };
    let first = create_date("2025-11-03");
    let arguments = Arguments { column_width: 131, column_height: 977, offset_x: -40, offset_y: 13 };
    for _ in 0..100 {
        let count = 2 + next(40);
        let mut times: Vec<(u32, u32, u32)> = Vec::new();
        for _ in 0..count {
            let day = next(7);
            let begin = next(1430);
            let length = 1 + next(240);
            times.push((day, begin, (begin + length).min(1439)));
        }
        times.sort();
        let events: Vec<Event> = times
            .iter()
            .map(|(day, begin, end)| Event {
                calendar_color: Color::new(0),
                title: String::new(),
                start_date: first.add_days(*day as i16),
                start_time: Time::try_new((begin / 60) as u8, (begin % 60) as u8).unwrap(),
                end_date: first.add_days(*day as i16),
                end_time: Time::try_new((end / 60) as u8, (end % 60) as u8).unwrap(),
                all_day: "False".to_owned(),
            })
            .collect();
        let lanes = find_clashes(&events, &first, short_event_clash_condition);
        let data = EventData {
            event_ranges: events
                .iter()
                .map(|event| EventRange {
                    start_date: event.start_date,
                    start_time: event.start_time,
                    end_date: event.end_date,
                    end_time: event.end_time,
                    calendar_color: event.calendar_color,
                })
                .collect(),
            titles: events.iter().map(|event| event.title.clone()).collect(),
            lanes,
        };
        let rectangles = short_event_rectangles(&data, &first, &arguments);
        for later in 0..rectangles.len() {
            for earlier in 0..later {
                let a = &rectangles[earlier];
                let b = &rectangles[later];
                let apart = a.at.x + a.size.x <= b.at.x
                    || b.at.x + b.size.x <= a.at.x
                    || a.at.y + a.size.y <= b.at.y
                    || b.at.y + b.size.y <= a.at.y;
                assert!(apart, "{:?} and {:?} share a point", a, b);
            }
        }
    }
}
