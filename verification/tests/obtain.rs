use calendar::classify::Events;
use calendar::date::Date;
use calendar::event::{Color, Event};
use calendar::obtain::khal::week_arguments;
use calendar::obtain::{
    add_agenda, checked_get_lanes, command_line, events_with_lanes, get_lanes, obtain,
    read_agendas, sort_day, sort_fetched, split_agendas, with_lanes, Error, EventSource,
    JsonParser, ObtainArguments,
};
use calendar::time::Time;
use std::cell::RefCell;

struct CannedSource {
    output: Vec<u8>,
    calls: RefCell<Vec<Vec<String>>>,
}

impl CannedSource {
    fn new(output: &[u8]) -> Self {
        Self { output: output.to_vec(), calls: RefCell::new(Vec::new()) }
    }
}

impl EventSource for CannedSource {
    type Error = std::io::Error;

    fn obtain(&self, args: &[String]) -> Result<Vec<u8>, Self::Error> {
        self.calls.borrow_mut().push(args.to_vec());
        Ok(self.output.clone())
    }
}

struct FailingSource;

impl EventSource for FailingSource {
    type Error = std::io::Error;

    fn obtain(&self, _args: &[String]) -> Result<Vec<u8>, Self::Error> {
        Err(std::io::Error::new(std::io::ErrorKind::NotFound, "no such tool"))
    }
}

/// Reads lines of events of the form `title|start-date|start-time|end-date|end-time|all-day`,
/// the events of a line being parted by `;`.
struct BarParser;

impl JsonParser for BarParser {
    type Error = String;

    fn parse(&self, bytes: &str) -> Result<Vec<Event>, Self::Error> {
        let mut events = Vec::new();
        for item in bytes.split(';') {
            if item == "-" {
                continue;
            }
            let fields: Vec<&str> = item.split('|').collect();
            if fields.len() != 6 {
                return Err(format!("not an event: {}", item));
            }
            events.push(Event {
                title: fields[0].to_owned(),
                start_date: Date::from_str(fields[1]).map_err(|_| "date".to_owned())?,
                start_time: Time::from_agenda_field(fields[2]).map_err(|_| "time".to_owned())?,
                end_date: Date::from_str(fields[3]).map_err(|_| "date".to_owned())?,
                end_time: Time::from_agenda_field(fields[4]).map_err(|_| "time".to_owned())?,
                all_day: fields[5].to_owned(),
                calendar_color: Color::new(0x123456),
            });
        }
        Ok(events)
    }
}

fn titles(events: &[Event]) -> Vec<&str> {
    events.iter().map(|event| event.title.as_str()).collect()
}

const WEEK: &str = "\
standup|2025-11-03|10:00|2025-11-03|10:30|False;retro|2025-11-03|10:15|2025-11-03|11:00|False;trip|2025-11-03|08:00|2025-11-05|20:00|False
trip|2025-11-03|08:00|2025-11-05|20:00|False;party|2025-11-04|22:00|2025-11-05|02:00|False
trip|2025-11-03|08:00|2025-11-05|20:00|False;party|2025-11-04|22:00|2025-11-05|02:00|False;holiday|2025-11-05||2025-11-05||True
-
lunch|2025-11-07|12:00|2025-11-07|13:00|False
";

#[test]
fn test_duration_of_36_days_is_too_big() {
    let source = CannedSource::new(b"");
    let from = Date { year: 2025, month: 11, day: 3 };
    let arguments = ObtainArguments { from: &from, duration_days: 36, backend_bin_path: "khal" };
    let fetched = obtain(&source, &BarParser, &arguments);
    assert!(matches!(fetched, Err(Error::DurationIsTooBig)));
    assert!(source.calls.borrow().is_empty());
    let with_lanes = events_with_lanes(&source, &BarParser, &arguments);
    assert!(matches!(with_lanes, Err(Error::DurationIsTooBig)));
    assert!(source.calls.borrow().is_empty());
}

#[test]
fn test_duration_of_35_days_is_asked_for() {
    let source = CannedSource::new(b"");
    let from = Date { year: 2025, month: 11, day: 3 };
    let arguments = ObtainArguments { from: &from, duration_days: 35, backend_bin_path: "khal" };
    let fetched = obtain(&source, &BarParser, &arguments).unwrap();
    assert!(fetched.short.is_empty());
    assert!(fetched.long.is_empty());
    let calls = source.calls.borrow();
    assert_eq!(calls.len(), 1);
    assert_eq!(calls[0][17], "35d");
}

#[test]
fn test_command_line() {
    let from = Date { year: 2025, month: 12, day: 1 };
    let arguments = ObtainArguments { from: &from, duration_days: 7, backend_bin_path: "/opt/khal" };
    assert_eq!(
        command_line(&arguments),
        vec![
            "/opt/khal",
            "list",
            "--json",
            "title",
            "--json",
            "start-date",
            "--json",
            "start-time",
            "--json",
            "end-date",
            "--json",
            "end-time",
            "--json",
            "all-day",
            "--json",
            "calendar-color",
            "2025-12-01",
            "7d",
        ]
    );
    let long = ObtainArguments { from: &from, duration_days: 255, backend_bin_path: "khal" };
    assert_eq!(command_line(&long)[17], "255d");
    let none = ObtainArguments { from: &from, duration_days: 0, backend_bin_path: "khal" };
    assert_eq!(command_line(&none)[17], "0d");
}

#[test]
fn test_week_arguments() {
    let from = Date { year: 2025, month: 12, day: 1 };
    let arguments = week_arguments(&from);
    assert_eq!(*arguments.from, from);
    assert_eq!(arguments.duration_days, 7);
    assert_eq!(arguments.backend_bin_path, "khal");
}

#[test]
fn test_split_agendas() {
    assert_eq!(split_agendas(""), Vec::<&str>::new());
    assert_eq!(split_agendas("one"), vec!["one"]);
    assert_eq!(split_agendas("one\n"), vec!["one"]);
    assert_eq!(split_agendas("one\ntwo\n"), vec!["one", "two"]);
    assert_eq!(split_agendas("one\n\nthree\n"), vec!["one"]);
    assert_eq!(split_agendas("\none\n"), Vec::<&str>::new());
    assert_eq!(split_agendas("1\n2\n3\n4\n5\n6\n7\n8\n9\n"), vec!["1", "2", "3", "4", "5", "6", "7"]);
    assert_eq!(split_agendas("1\n2\n3\n4\n5\n6\n7"), vec!["1", "2", "3", "4", "5", "6", "7"]);
    assert_eq!(split_agendas("caf\u{e9}\n\u{2014}\n"), vec!["caf\u{e9}", "\u{2014}"]);
}

#[test]
fn test_events_of_a_week_are_sorted() {
    let source = CannedSource::new(WEEK.as_bytes());
    let from = Date { year: 2025, month: 11, day: 3 };
    let arguments = week_arguments(&from);
    let events = obtain(&source, &BarParser, &arguments).unwrap();
    assert_eq!(titles(&events.short), vec!["standup", "retro", "party", "party", "lunch"]);
    assert_eq!(titles(&events.long), vec!["trip", "holiday"]);
    let first_half = &events.short[2];
    assert_eq!(first_half.start_date, Date { year: 2025, month: 11, day: 4 });
    assert_eq!(first_half.end_date, Date { year: 2025, month: 11, day: 4 });
    assert_eq!(first_half.start_time, Time { hour: 22, minute: 0 });
    assert_eq!(first_half.end_time, Time { hour: 23, minute: 59 });
    let second_half = &events.short[3];
    assert_eq!(second_half.start_date, Date { year: 2025, month: 11, day: 5 });
    assert_eq!(second_half.start_time, Time { hour: 0, minute: 0 });
    assert_eq!(second_half.end_time, Time { hour: 2, minute: 0 });
    let holiday = &events.long[1];
    assert_eq!(holiday.start_time, Time::midnight());
    assert_eq!(holiday.end_time, Time::last_minute());
    assert_eq!(source.calls.borrow()[0][16], "2025-11-03");
}

#[test]
fn test_events_of_a_week_get_lanes() {
    let source = CannedSource::new(WEEK.as_bytes());
    let from = Date { year: 2025, month: 11, day: 3 };
    let week = events_with_lanes(&source, &BarParser, &week_arguments(&from)).unwrap();
    assert_eq!(week.short_events_titles(), vec!["standup", "retro", "party", "party", "lunch"]);
    assert_eq!(week.long_events_titles(), vec!["trip", "holiday"]);
    assert_eq!(week.short.lanes, vec![(0, 2), (1, 2), (0, 1), (0, 1), (0, 1)]);
    assert_eq!(week.long.lanes, vec![(0, 2), (1, 2)]);
    assert_eq!(week.short.event_ranges.len(), 5);
    assert_eq!(week.short.event_ranges[1].start_time, Time { hour: 10, minute: 15 });
    assert_eq!(week.short.event_ranges[1].calendar_color, Color::new(0x123456));
    assert_eq!(week.long.event_ranges[0].end_date, Date { year: 2025, month: 11, day: 5 });
    assert_eq!(week.long.calculate_biggest_clash(), 2);
    assert_eq!(week.short.calculate_biggest_clash(), 2);
}

#[test]
fn test_fewer_lines_than_days() {
    let source = CannedSource::new(b"lunch|2025-11-03|12:00|2025-11-03|13:00|False\n");
    let from = Date { year: 2025, month: 11, day: 3 };
    let events = obtain(&source, &BarParser, &week_arguments(&from)).unwrap();
    assert_eq!(titles(&events.short), vec!["lunch"]);
    assert!(events.long.is_empty());
}

#[test]
fn test_source_that_fails() {
    let from = Date { year: 2025, month: 11, day: 3 };
    let fetched = obtain(&FailingSource, &BarParser, &week_arguments(&from));
    assert!(matches!(fetched, Err(Error::Io(_))));
}

#[test]
fn test_output_that_is_not_utf8() {
    let source = CannedSource::new(&[b'l', 0xff, 0xfe, b'\n']);
    let from = Date { year: 2025, month: 11, day: 3 };
    let fetched = obtain(&source, &BarParser, &week_arguments(&from));
    assert!(matches!(fetched, Err(Error::InvalidUnicode(_))));
}

#[test]
fn test_line_that_cannot_be_read() {
    let source = CannedSource::new(b"lunch|2025-11-03|12:00\n");
    let from = Date { year: 2025, month: 11, day: 3 };
    let fetched = obtain(&source, &BarParser, &week_arguments(&from));
    assert!(matches!(fetched, Err(Error::Parse(message)) if message.starts_with("not an event")));
}

#[test]
fn test_event_that_is_not_expected() {
    let from = Date { year: 2025, month: 11, day: 3 };
    let odd_flag = CannedSource::new(b"lunch|2025-11-03|12:00|2025-11-03|13:00|Maybe\n");
    assert!(matches!(
        obtain(&odd_flag, &BarParser, &week_arguments(&from)),
        Err(Error::UnexpectedEvent)
    ));
    let ends_before_it_begins = CannedSource::new(b"lunch|2025-11-03|12:00|2025-11-02|13:00|False\n");
    assert!(matches!(
        obtain(&ends_before_it_begins, &BarParser, &week_arguments(&from)),
        Err(Error::UnexpectedEvent)
    ));
    let night_of_another_day = CannedSource::new(b"party|2025-11-08|23:00|2025-11-09|01:00|False\n");
    assert!(matches!(
        obtain(&night_of_another_day, &BarParser, &week_arguments(&from)),
        Err(Error::UnexpectedEvent)
    ));
}

#[test]
fn test_more_events_at_once_than_lanes() {
    let mut line = String::new();
    for index in 0..256 {
        if index > 0 {
            line.push(';');
        }
        line.push_str("busy|2025-11-03|12:00|2025-11-03|13:00|False");
    }
    line.push('\n');
    let source = CannedSource::new(line.as_bytes());
    let from = Date { year: 2025, month: 11, day: 3 };
    assert_eq!(obtain(&source, &BarParser, &week_arguments(&from)).unwrap().short.len(), 256);
    assert!(matches!(
        events_with_lanes(&source, &BarParser, &week_arguments(&from)),
        Err(Error::TooManyLanes)
    ));
    let events = obtain(&source, &BarParser, &week_arguments(&from)).unwrap();
    assert!(checked_get_lanes(events, &from).is_none());
}

#[test]
fn test_add_agenda() {
    let day = Date { year: 2025, month: 11, day: 4 };
    let agenda = BarParser
        .parse("a|2025-11-04|09:00|2025-11-04|10:00|False;b|2025-11-04||2025-11-04||True;c|2025-11-03|09:00|2025-11-06|10:00|False")
        .unwrap();
    let mut events = Events { long: Vec::new(), short: Vec::new() };
    assert_eq!(add_agenda(&mut events, agenda, &day), Ok(()));
    assert_eq!(titles(&events.short), vec!["a"]);
    assert_eq!(titles(&events.long), vec!["b"]);
    let odd = BarParser.parse("d|2025-11-04|09:00|2025-11-04|10:00|no").unwrap();
    assert_eq!(add_agenda(&mut events, odd, &day), Err(()));
}

#[test]
fn test_get_lanes() {
    let start = Date { year: 2025, month: 11, day: 3 };
    let short = BarParser
        .parse("first|2025-11-03|10:00|2025-11-03|11:00|False;second|2025-11-03|10:30|2025-11-03|11:30|False;third|2025-11-03|11:00|2025-11-03|12:00|False;separated|2025-11-03|12:00|2025-11-03|13:00|False")
        .unwrap();
    let long = BarParser
        .parse("week|2025-11-03|00:00|2025-11-09|23:59|False;visit|2025-11-04|00:00|2025-11-05|23:59|False")
        .unwrap();
    let week = get_lanes(Events { long, short }, &start);
    assert_eq!(week.short.lanes, vec![(0, 2), (1, 2), (0, 2), (0, 1)]);
    assert_eq!(week.long.lanes, vec![(0, 2), (1, 2)]);
    assert_eq!(week.short.titles, vec!["first", "second", "third", "separated"]);
    assert_eq!(week.long.titles, vec!["week", "visit"]);
    assert_eq!(week.short.event_ranges[2].start_time, Time { hour: 11, minute: 0 });
    assert_eq!(week.long.event_ranges[1].start_date, Date { year: 2025, month: 11, day: 4 });
}

#[test]
fn test_read_agendas() {
    assert_eq!(read_agendas(b"one\ntwo\n").unwrap(), vec!["one", "two"]);
    assert_eq!(read_agendas(b"").unwrap(), Vec::<&str>::new());
    assert_eq!(read_agendas("caf\u{e9}\n".as_bytes()).unwrap(), vec!["caf\u{e9}"]);
    assert!(read_agendas(&[b'a', 0xff, b'\n']).is_err());
    assert!(read_agendas(&[0xc3]).is_err());
}

#[test]
fn test_sort_day() {
    let day = Date { year: 2025, month: 11, day: 4 };
    let mut events = Events { long: Vec::new(), short: Vec::new() };
    let parsed = BarParser.parse("a|2025-11-04|09:00|2025-11-04|10:00|False;b|2025-11-04||2025-11-04||True");
    assert!(matches!(sort_day(&mut events, parsed, &day), Ok(())));
    assert_eq!(titles(&events.short), vec!["a"]);
    assert_eq!(titles(&events.long), vec!["b"]);
    let refused: Result<Vec<Event>, String> = Err("no".to_owned());
    assert!(matches!(sort_day(&mut events, refused, &day), Err(Error::Parse(message)) if message == "no"));
    let odd = BarParser.parse("d|2025-11-04|09:00|2025-11-04|10:00|no");
    assert!(matches!(sort_day(&mut events, odd, &day), Err(Error::UnexpectedEvent)));
    assert_eq!(titles(&events.short), vec!["a"]);
}

#[test]
fn test_sort_fetched() {
    let first = Date { year: 2025, month: 11, day: 3 };
    let week = sort_fetched(&BarParser, Ok(WEEK.as_bytes().to_vec()), &first).unwrap();
    assert_eq!(titles(&week.short), vec!["standup", "retro", "party", "party", "lunch"]);
    assert_eq!(titles(&week.long), vec!["trip", "holiday"]);
    let nothing = sort_fetched(&BarParser, Ok(Vec::new()), &first).unwrap();
    assert!(nothing.short.is_empty() && nothing.long.is_empty());
    let failed = std::io::Error::new(std::io::ErrorKind::NotFound, "no such tool");
    assert!(matches!(
        sort_fetched(&BarParser, Err(failed), &first),
        Err(Error::Io(e)) if e.kind() == std::io::ErrorKind::NotFound
    ));
    assert!(matches!(
        sort_fetched(&BarParser, Ok(vec![0xff, b'\n']), &first),
        Err(Error::InvalidUnicode(_))
    ));
    let second_line_is_odd = b"a|2025-11-03|09:00|2025-11-03|10:00|False\nnot an agenda\n".to_vec();
    assert!(matches!(
        sort_fetched(&BarParser, Ok(second_line_is_odd), &first),
        Err(Error::Parse(_))
    ));
}

#[test]
fn test_each_line_is_the_agenda_of_the_next_day() {
    // a night that is cut in two can be sorted on its two days only
    let first = Date { year: 2025, month: 11, day: 3 };
    let on_its_days = b"-\nparty|2025-11-04|22:00|2025-11-05|02:00|False\nparty|2025-11-04|22:00|2025-11-05|02:00|False\n".to_vec();
    let week = sort_fetched(&BarParser, Ok(on_its_days), &first).unwrap();
    assert_eq!(week.short.len(), 2);
    assert_eq!(week.short[0].end_time, Time { hour: 23, minute: 59 });
    assert_eq!(week.short[1].start_time, Time { hour: 0, minute: 0 });
    let a_day_late = b"-\n-\nparty|2025-11-04|22:00|2025-11-05|02:00|False\nparty|2025-11-04|22:00|2025-11-05|02:00|False\n".to_vec();
    assert!(matches!(
        sort_fetched(&BarParser, Ok(a_day_late), &first),
        Err(Error::UnexpectedEvent)
    ));
}

#[test]
fn test_lines_without_a_day_are_left_out() {
    let first = Date { year: 65535, month: 12, day: 30 };
    let lines = b"-\n-\nnot an agenda\n".to_vec();
    let week = sort_fetched(&BarParser, Ok(lines), &first).unwrap();
    assert!(week.short.is_empty() && week.long.is_empty());
    let a_day_earlier = Date { year: 65535, month: 12, day: 29 };
    let lines = b"-\n-\nnot an agenda\n".to_vec();
    assert!(matches!(
        sort_fetched(&BarParser, Ok(lines), &a_day_earlier),
        Err(Error::Parse(_))
    ));
}

#[test]
fn test_with_lanes() {
    let first = Date { year: 2025, month: 11, day: 3 };
    let fetched = sort_fetched(&BarParser, Ok(WEEK.as_bytes().to_vec()), &first);
    let week = with_lanes(fetched, &first).unwrap();
    assert_eq!(week.short.lanes, vec![(0, 2), (1, 2), (0, 1), (0, 1), (0, 1)]);
    assert_eq!(week.long.lanes, vec![(0, 2), (1, 2)]);
    let failed: Result<Events, Error<String>> = Err(Error::UnexpectedEvent);
    assert!(matches!(with_lanes(failed, &first), Err(Error::UnexpectedEvent)));
    let refused: Result<Events, Error<String>> = Err(Error::Parse("no".to_owned()));
    assert!(matches!(with_lanes(refused, &first), Err(Error::Parse(message)) if message == "no"));
}

#[test]
fn test_source_is_asked_once_for_the_command_line() {
    let source = CannedSource::new(WEEK.as_bytes());
    let from = Date { year: 2025, month: 12, day: 1 };
    let arguments = ObtainArguments { from: &from, duration_days: 35, backend_bin_path: "khal" };
    let _ = obtain(&source, &BarParser, &arguments);
    let calls = source.calls.borrow();
    assert_eq!(calls.len(), 1);
    assert_eq!(calls[0], command_line(&arguments));
    assert_eq!(calls[0][16], "2025-12-01");
    assert_eq!(calls[0][17], "35d");
}
