//! Fetching the events of a week from an agenda tool.
//!
//! The tool is run once. It prints one line per day, each a list of events
//! in JSON. Running the tool and reading JSON are left to the caller, behind
//! [`EventSource`] and [`JsonParser`]; what is asked of the tool, how its
//! output is cut into days, and where each event goes is decided here.

use vstd::prelude::*;
use vstd::string::*;
use vstd::utf8::*;
use crate::clash::{
    assign_lanes, checked_find_clashes, decides_clash, lanes_fit, lemma_lane_below_total,
    lemma_lane_for_each, long_event_clash_condition, same_lanes, short_event_clash_condition,
    spans_of,
};
use crate::classify::{can_be_sorted, short_event_filter, EventVec, Events};
use crate::date::{
    lemma_day_number_bounds, lemma_next_plus_days, lemma_plus_no_days, lemma_same_day_number,
    Date, DateStream, DateString,
};
use crate::gregorian::MAX_DAY_NUMBER;
use crate::event::{Event, EventData, EventRange, Lane};
use crate::text::{byte_range, decimal_chars, decimal_text, lemma_boundaries_at_ascii, utf8_text};

pub mod khal;

verus! {

/// Runs the agenda tool.
pub trait EventSource {
    type Error;

    /// Runs the command line `args`, the program first, and gives what it
    /// wrote to its standard output.
    fn obtain(&self, args: &[String]) -> Result<Vec<u8>, Self::Error>;
}

/// Reads the events of one day.
pub trait JsonParser {
    type Error;

    /// Reads one line of the agenda tool's output: the events of a day.
    fn parse(&self, bytes: &str) -> Result<EventVec, Self::Error>;
}

/// The error of the standard library's input and output. Nothing is known
/// of its content here.
#[verifier::external_type_specification]
#[verifier::external_body]
pub struct ExIoError(std::io::Error);

/// Why the events of a week could not be had.
#[derive(Debug)]
pub enum Error<PE> {
    /// The agenda tool could not be run.
    Io(std::io::Error),
    /// The agenda tool wrote something that is not UTF-8.
    InvalidUnicode(core::str::Utf8Error),
    /// A line that the agenda tool wrote could not be read.
    Parse(PE),
    /// More than 35 days were asked for.
    DurationIsTooBig,
    /// An event cannot be sorted as an event of its day.
    UnexpectedEvent,
    /// More than 255 events overlap.
    TooManyLanes,
}

/// The largest number of days that can be asked for at once.
pub const MAX_DURATION_DAYS: u8 = 35;

/// What to ask of the agenda tool.
pub struct ObtainArguments<'s> {
    /// The first day asked for.
    pub from: &'s Date,
    /// The number of days asked for.
    pub duration_days: u8,
    /// path to khal
    pub backend_bin_path: &'s str,
}

/// The options that ask `khal` for the events of some days, each as a JSON
/// object with these fields.
pub open spec fn khal_options() -> Seq<Seq<char>> {
    seq![
        "list"@,
        "--json"@,
        "title"@,
        "--json"@,
        "start-date"@,
        "--json"@,
        "start-time"@,
        "--json"@,
        "end-date"@,
        "--json"@,
        "end-time"@,
        "--json"@,
        "all-day"@,
        "--json"@,
        "calendar-color"@,
    ]
}

/// Whether `args` is the command line that asks the agenda tool for the
/// events of the days in `arguments`: the program, the options of
/// [`khal_options`], the first day as `YYYY-MM-DD` and the number of days
/// followed by `d`.
pub open spec fn is_command_line(args: Seq<String>, arguments: ObtainArguments) -> bool {
    &&& args.len() == 18
    &&& args[0]@ == arguments.backend_bin_path@
    &&& forall|i: int| 0 <= i < 15 ==> (#[trigger] args[i + 1])@ == khal_options()[i]
    &&& encode_utf8(args[16]@) == arguments.from.iso_8601_bytes()
    &&& args[17]@ == decimal_chars(arguments.duration_days as nat).push('d')
}

/// The command line that asks the agenda tool for the events of the days in
/// `arguments`. See [`is_command_line`].
pub fn command_line(arguments: &ObtainArguments) -> (args: Vec<String>)
    ensures
        is_command_line(args@, *arguments),
{
    let from: DateString = arguments.from.iso_8601();
    let mut duration: String = decimal_text(arguments.duration_days);
    proof {
        reveal_strlit("d");
    }
    duration.append("d");
    assert(duration@ =~= decimal_chars(arguments.duration_days as nat).push('d'));
    let mut args: Vec<String> = Vec::new();
    args.push(String::from_str(arguments.backend_bin_path));
    args.push(String::from_str("list"));
    args.push(String::from_str("--json"));
    args.push(String::from_str("title"));
    args.push(String::from_str("--json"));
    args.push(String::from_str("start-date"));
    args.push(String::from_str("--json"));
    args.push(String::from_str("start-time"));
    args.push(String::from_str("--json"));
    args.push(String::from_str("end-date"));
    args.push(String::from_str("--json"));
    args.push(String::from_str("end-time"));
    args.push(String::from_str("--json"));
    args.push(String::from_str("all-day"));
    args.push(String::from_str("--json"));
    args.push(String::from_str("calendar-color"));
    args.push(String::from_str(from.as_str()));
    args.push(duration);
    assert forall|i: int| 0 <= i < 15 implies (#[trigger] args[i + 1])@ == khal_options()[i] by {
        let j = i + 1;
        assert(args[j]@ == khal_options()[j - 1]);
    }
    args
}

/// Whether the first line of `text` ends at `index`: at the first line feed,
/// or at the end of the text where it holds none.
pub open spec fn is_line_end(text: Seq<u8>, index: int) -> bool {
    &&& 0 <= index <= text.len()
    &&& forall|i: int| 0 <= i < index ==> #[trigger] text[i] != 10
    &&& index < text.len() ==> text[index] == 10
}

/// The length of the first line of `text`.
pub open spec fn line_end(text: Seq<u8>) -> int {
    choose|index: int| is_line_end(text, index)
}

/// The lines of `text` that hold the agenda of a day each: at most `limit`
/// lines, and none from the first empty line on.
pub open spec fn agenda_lines(text: Seq<u8>, limit: nat) -> Seq<Seq<u8>>
    decreases limit,
{
    let end = line_end(text);
    if limit == 0 || end == 0 {
        Seq::empty()
    } else if end == text.len() {
        seq![text]
    } else {
        seq![text.subrange(0, end)] + agenda_lines(
            text.subrange(end + 1, text.len() as int),
            (limit - 1) as nat,
        )
    }
}

/// The first line of a text ends at one place only.
proof fn lemma_line_end(text: Seq<u8>, index: int)
    requires
        is_line_end(text, index),
    ensures
        line_end(text) == index,
{
    let chosen = line_end(text);
    assert(is_line_end(text, chosen));
    if chosen < index {
        assert(text[chosen] != 10);
    } else if index < chosen {
        assert(text[index] != 10);
    }
}

/// Whether `lines` hold the bytes of `expected`, line by line.
pub open spec fn same_lines(lines: Seq<&str>, expected: Seq<Seq<u8>>) -> bool {
    &&& lines.len() == expected.len()
    &&& forall|i: int| 0 <= i < lines.len() ==> (#[trigger] lines[i]).spec_bytes() == expected[i]
}

/// Cuts the output of the agenda tool into the agendas of the days of a
/// week: the first seven lines, and none from the first empty line on.
pub fn split_agendas(text: &str) -> (lines: Vec<&str>)
    ensures
        same_lines(lines@, agenda_lines(text.spec_bytes(), 7)),
{
    let mut lines: Vec<&str> = Vec::new();
    let mut rest: &str = text;
    let mut taken: usize = 0;
    let ghost mut expected: Seq<Seq<u8>> = Seq::empty();
    while taken < 7
        invariant_except_break
            agenda_lines(text.spec_bytes(), 7) == expected + agenda_lines(
                rest.spec_bytes(),
                (7 - taken) as nat,
            ),
        invariant
            taken <= 7,
            same_lines(lines@, expected),
        ensures
            agenda_lines(text.spec_bytes(), 7) =~= expected,
        decreases 7 - taken,
    {
        let bytes: &[u8] = rest.as_bytes();
        let mut end: usize = 0;
        while end < bytes.len() && bytes[end] != 10
            invariant
                end <= bytes.len(),
                forall|i: int| 0 <= i < end ==> #[trigger] bytes@[i] != 10,
            decreases bytes.len() - end,
        {
            end += 1;
        }
        proof {
            lemma_line_end(rest.spec_bytes(), end as int);
            encode_utf8_valid_utf8(rest@);
            is_char_boundary_start_end_of_seq(rest.spec_bytes());
            if end < bytes.len() {
                lemma_boundaries_at_ascii(rest.spec_bytes(), end as int);
            }
        }
        if end == 0 {
            assert(expected + Seq::<Seq<u8>>::empty() =~= expected);
            break ;
        }
        let line: &str = byte_range(rest, 0, end);
        lines.push(line);
        if end == bytes.len() {
            proof {
                assert(rest.spec_bytes().subrange(0, end as int) =~= rest.spec_bytes());
                expected = expected.push(rest.spec_bytes());
                assert(agenda_lines(text.spec_bytes(), 7) =~= expected);
            }
            break ;
        }
        proof {
            let first = rest.spec_bytes().subrange(0, end as int);
            let after = rest.spec_bytes().subrange(end + 1, rest.spec_bytes().len() as int);
            assert(expected + (seq![first] + agenda_lines(after, (7 - taken - 1) as nat))
                =~= expected.push(first) + agenda_lines(after, (7 - taken - 1) as nat));
            expected = expected.push(first);
        }
        rest = byte_range(rest, end + 1, bytes.len());
        taken += 1;
    }
    lines
}

/// `short` and `long` after the events of `agenda`, the agenda of the day
/// `date`, have been sorted into them from the event `from` on; `None` where
/// one of them cannot be sorted as an event of that day.
pub open spec fn sorted_into(
    short: Seq<Event>,
    long: Seq<Event>,
    agenda: Seq<Event>,
    date: Date,
    from: int,
) -> Option<(Seq<Event>, Seq<Event>)>
    decreases agenda.len() - from,
{
    if from >= agenda.len() {
        Some((short, long))
    } else if !agenda[from].can_be_sorted(date) {
        None
    } else {
        match agenda[from].sorted(date) {
            Some((true, event)) => sorted_into(short.push(event), long, agenda, date, from + 1),
            Some((false, event)) => sorted_into(short, long.push(event), agenda, date, from + 1),
            None => sorted_into(short, long, agenda, date, from + 1),
        }
    }
}

/// Whether every event has dates of the calendar and does not end on a day
/// before it begins, and every short event begins and ends on one day.
pub open spec fn is_sorted_week(short: Seq<Event>, long: Seq<Event>) -> bool {
    &&& forall|i: int|
        0 <= i < short.len() ==> (#[trigger] short[i]).has_valid_dates() && short[i].start_date
            == short[i].end_date
    &&& forall|i: int|
        0 <= i < long.len() ==> (#[trigger] long[i]).has_valid_dates() && long[i].duration_days()
            >= 0
}

/// Sorts the events of `agenda`, the agenda of the day `date`, into the
/// short and the long events of the week. Fails at the first event that
/// cannot be sorted as an event of that day.
pub fn add_agenda(week_schedule: &mut Events, agenda: EventVec, date: &Date) -> (r: Result<(), ()>)
    requires
        date.is_valid(),
        is_sorted_week(old(week_schedule).short@, old(week_schedule).long@),
    ensures
        match r {
            Ok(()) => sorted_into(
                old(week_schedule).short@,
                old(week_schedule).long@,
                agenda@,
                *date,
                0,
            ) == Some((final(week_schedule).short@, final(week_schedule).long@)),
            Err(()) => sorted_into(
                old(week_schedule).short@,
                old(week_schedule).long@,
                agenda@,
                *date,
                0,
            ) is None,
        },
        is_sorted_week(final(week_schedule).short@, final(week_schedule).long@),
{
    let ghost events = agenda@;
    let ghost goal = sorted_into(week_schedule.short@, week_schedule.long@, events, *date, 0);
    for event in iter: agenda
        invariant
            events == iter.seq(),
            events == agenda@,
            goal == sorted_into(
                old(week_schedule).short@,
                old(week_schedule).long@,
                events,
                *date,
                0,
            ),
            date.is_valid(),
            is_sorted_week(week_schedule.short@, week_schedule.long@),
            goal == sorted_into(
                week_schedule.short@,
                week_schedule.long@,
                events,
                *date,
                iter.index() as int,
            ),
    {
        proof {
            assert(event == events[iter.index() as int]);
            if event.has_valid_dates() && event.duration_days() == 0 {
                lemma_same_day_number(event.start_date, event.end_date);
            }
        }
        if !can_be_sorted(&event, date) {
            return Err(());
        }
        match short_event_filter(event, date) {
            Some((true, event)) => {
                week_schedule.short.push(event);
            },
            Some((false, event)) => {
                week_schedule.long.push(event);
            },
            None => {},
        }
    }
    Ok(())
}

/// Reads the output of the agenda tool as text and cuts it into the agendas
/// of the days of a week. Fails where the output is not UTF-8.
pub fn read_agendas(data: &[u8]) -> (r: Result<Vec<&str>, core::str::Utf8Error>)
    ensures
        r is Ok <==> valid_utf8(data@),
        r matches Ok(lines) ==> same_lines(lines@, agenda_lines(data@, 7)),
{
    match utf8_text(data) {
        Ok(text) => Ok(split_agendas(text)),
        Err(e) => Err(e),
    }
}

/// Takes what the parser made of the agenda of the day `date` and sorts its
/// events into the short and the long events of the week. Fails with the
/// parser's error where the parser failed, and with `UnexpectedEvent` at the
/// first event that cannot be sorted as an event of that day.
pub fn sort_day<PE>(week_schedule: &mut Events, parsed: Result<EventVec, PE>, date: &Date) -> (r:
    Result<(), Error<PE>>)
    requires
        date.is_valid(),
        is_sorted_week(old(week_schedule).short@, old(week_schedule).long@),
    ensures
        is_sorted_week(final(week_schedule).short@, final(week_schedule).long@),
        parsed matches Err(e) ==> r matches Err(Error::Parse(x)) && x == e,
        parsed matches Ok(agenda) ==> match sorted_into(
            old(week_schedule).short@,
            old(week_schedule).long@,
            agenda@,
            *date,
            0,
        ) {
            Some((short, long)) => {
                &&& r is Ok
                &&& final(week_schedule).short@ == short
                &&& final(week_schedule).long@ == long
            },
            None => r matches Err(Error::UnexpectedEvent),
        },
{
    let agenda: EventVec = match parsed {
        Ok(agenda) => agenda,
        Err(e) => {
            return Err(Error::Parse(e));
        },
    };
    match add_agenda(week_schedule, agenda, date) {
        Ok(()) => Ok(()),
        Err(()) => Err(Error::UnexpectedEvent),
    }
}

/// How many of `wanted` days from `first` on a [`Date`] can hold.
pub open spec fn days_held(first: Date, wanted: nat) -> nat {
    if first.day_number() + wanted <= MAX_DAY_NUMBER + 1 {
        wanted
    } else {
        (MAX_DAY_NUMBER + 1 - first.day_number()) as nat
    }
}

/// The events that each answer of the parser holds, none for an answer that
/// is an error.
pub open spec fn agendas_of<PE>(answers: Seq<Result<EventVec, PE>>) -> Seq<Seq<Event>> {
    Seq::new(
        answers.len(),
        |i: int|
            match answers[i] {
                Ok(agenda) => agenda@,
                Err(_) => Seq::empty(),
            },
    )
}

/// The short and the long events of a week after the agendas of its first
/// `count` days have been sorted, the agenda at `i` as that of the day `i`
/// days after `first`; `None` where an event cannot be sorted as an event of
/// its day.
pub open spec fn week_after(agendas: Seq<Seq<Event>>, first: Date, count: nat) -> Option<
    (Seq<Event>, Seq<Event>),
>
    decreases count,
{
    if count == 0 {
        Some((Seq::empty(), Seq::empty()))
    } else {
        match (week_after(agendas, first, (count - 1) as nat), first.plus_days(count - 1)) {
            (Some((short, long)), Some(date)) => sorted_into(
                short,
                long,
                agendas[count - 1],
                date,
                0,
            ),
            _ => None,
        }
    }
}

/// Whether the first `count` answers of the parser are agendas.
pub open spec fn are_agendas<PE>(answers: Seq<Result<EventVec, PE>>, count: int) -> bool {
    forall|i: int| 0 <= i < count ==> (#[trigger] answers[i]) is Ok
}

/// Whether `r` is what the answers of the parser to the lines of a week give,
/// where `days` lines have a day: line after line is read and sorted as the
/// agenda of its day, until a line is not read or an event is not sorted.
///
/// - `Ok` with the events of the week, where every line was read and every
///   event sorted;
/// - `Parse` with the error of the parser, at the first line that the parser
///   did not read;
/// - `UnexpectedEvent`, at the first line with an event that cannot be
///   sorted as an event of its day.
pub open spec fn is_week_of_answers<PE>(
    answers: Seq<Result<EventVec, PE>>,
    days: nat,
    first: Date,
    r: Result<Events, Error<PE>>,
) -> bool {
    let agendas = agendas_of(answers);
    let read = answers.len();
    &&& read <= days
    &&& match r {
        Ok(events) => {
            &&& read == days
            &&& are_agendas(answers, read as int)
            &&& week_after(agendas, first, read) == Some((events.short@, events.long@))
        },
        Err(Error::Parse(e)) => {
            &&& read >= 1
            &&& are_agendas(answers, read - 1)
            &&& week_after(agendas, first, (read - 1) as nat) is Some
            &&& answers[read - 1] matches Err(x) && x == e
        },
        Err(Error::UnexpectedEvent) => {
            &&& read >= 1
            &&& are_agendas(answers, read as int)
            &&& week_after(agendas, first, (read - 1) as nat) is Some
            &&& week_after(agendas, first, read) is None
        },
        _ => false,
    }
}

/// Whether `answer` is what the parser gives for the line `line`.
pub open spec fn is_parsed_line<JP: JsonParser>(
    parser: &JP,
    line: Seq<u8>,
    answer: Result<EventVec, JP::Error>,
) -> bool {
    exists|text: &str|
        text.spec_bytes() == line && #[trigger] call_ensures(JP::parse, (parser, text), answer)
}

/// Whether `answers` are what the parser gives for the first of `lines`, one
/// after the other.
pub open spec fn are_parsed_lines<JP: JsonParser>(
    parser: &JP,
    lines: Seq<Seq<u8>>,
    answers: Seq<Result<EventVec, JP::Error>>,
) -> bool {
    &&& answers.len() <= lines.len()
    &&& forall|i: int|
        0 <= i < answers.len() ==> is_parsed_line(parser, lines[i], #[trigger] answers[i])
}

/// Whether `r` is what the output `data` of the agenda tool gives for a week
/// that begins on `first`: `InvalidUnicode` where the output is not UTF-8;
/// else what the answers of the parser to its lines give, the first line
/// being the agenda of the day `first`, the next that of the day after, and
/// so on (see [`agenda_lines`] and [`is_week_of_answers`]).
pub open spec fn is_fetched_week<JP: JsonParser>(
    parser: &JP,
    data: Seq<u8>,
    first: Date,
    r: Result<Events, Error<JP::Error>>,
) -> bool {
    if !valid_utf8(data) {
        r matches Err(Error::InvalidUnicode(_))
    } else {
        exists|answers: Seq<Result<EventVec, JP::Error>>|
            #![trigger are_parsed_lines(parser, agenda_lines(data, 7), answers)]
            {
                &&& are_parsed_lines(parser, agenda_lines(data, 7), answers)
                &&& is_week_of_answers(
                    answers,
                    days_held(first, agenda_lines(data, 7).len()),
                    first,
                    r,
                )
            }
    }
}

/// Whether `r` is what the answer `fetched` of the agenda tool gives for a
/// week that begins on `first`: `Io` with the error of the tool where it
/// failed, else what its output gives (see [`is_fetched_week`]).
pub open spec fn is_sorted_output<JP: JsonParser>(
    parser: &JP,
    fetched: Result<Vec<u8>, std::io::Error>,
    first: Date,
    r: Result<Events, Error<JP::Error>>,
) -> bool {
    match fetched {
        Err(e) => r matches Err(Error::Io(x)) && x == e,
        Ok(data) => is_fetched_week(parser, data@, first, r),
    }
}

/// Where the agenda tool prints nothing, the fetch gives a week without
/// events, whatever the parser does.
pub proof fn lemma_week_of_no_output<JP: JsonParser>(
    parser: &JP,
    first: Date,
    r: Result<Events, Error<JP::Error>>,
)
    requires
        is_fetched_week(parser, Seq::<u8>::empty(), first, r),
    ensures
        r matches Ok(events) && events.short@ == Seq::<Event>::empty() && events.long@
            == Seq::<Event>::empty(),
{
    let nothing = Seq::<u8>::empty();
    assert(is_line_end(nothing, 0));
    lemma_line_end(nothing, 0);
    assert(agenda_lines(nothing, 7) =~= Seq::<Seq<u8>>::empty());
    assert(valid_utf8(nothing));
}

/// A line that has a day and that the parser does not read ends the fetch
/// with an error: no part of the week is given.
pub proof fn lemma_unread_line_ends_fetch<JP: JsonParser>(
    parser: &JP,
    data: Seq<u8>,
    first: Date,
    r: Result<Events, Error<JP::Error>>,
    line: int,
)
    requires
        is_fetched_week(parser, data, first, r),
        0 <= line < days_held(first, agenda_lines(data, 7).len()),
        forall|answer: Result<EventVec, JP::Error>|
            is_parsed_line(parser, agenda_lines(data, 7)[line], answer) ==> answer is Err,
    ensures
        r is Err,
{
    if valid_utf8(data) && r is Ok {
        let answers = choose|answers: Seq<Result<EventVec, JP::Error>>|
            #![trigger are_parsed_lines(parser, agenda_lines(data, 7), answers)]
            {
                &&& are_parsed_lines(parser, agenda_lines(data, 7), answers)
                &&& is_week_of_answers(
                    answers,
                    days_held(first, agenda_lines(data, 7).len()),
                    first,
                    r,
                )
            };
        assert(answers[line] is Ok);
        assert(is_parsed_line(parser, agenda_lines(data, 7)[line], answers[line]));
    }
}

/// The week after some days depends on the agendas of these days only.
proof fn lemma_week_after_days(
    agendas: Seq<Seq<Event>>,
    others: Seq<Seq<Event>>,
    first: Date,
    count: nat,
)
    requires
        forall|i: int| 0 <= i < count ==> agendas[i] == others[i],
    ensures
        week_after(agendas, first, count) == week_after(others, first, count),
    decreases count,
{
    if count > 0 {
        lemma_week_after_days(agendas, others, first, (count - 1) as nat);
    }
}

/// Takes what the agenda tool answered and sorts the events of a week that
/// begins on `first` into short and long ones.
///
/// The output is cut into days by [`read_agendas`]; the first line is the
/// agenda of the day `first`, the next line that of the day after, and so
/// on. Each line is read by `json_parser` and sorted by [`sort_day`]. The
/// first failure ends it.
pub fn sort_fetched<JP: JsonParser>(
    json_parser: &JP,
    fetched: Result<Vec<u8>, std::io::Error>,
    first: &Date,
) -> (r: Result<Events, Error<JP::Error>>)
    requires
        first.is_valid(),
    ensures
        is_sorted_output(json_parser, fetched, *first, r),
        r matches Ok(events) ==> is_sorted_week(events.short@, events.long@),
{
    let data: Vec<u8> = match fetched {
        Ok(data) => data,
        Err(e) => {
            return Err(Error::Io(e));
        },
    };
    let agendas: Vec<&str> = match read_agendas(data.as_slice()) {
        Ok(agendas) => agendas,
        Err(e) => {
            return Err(Error::InvalidUnicode(e));
        },
    };
    let ghost lines = agenda_lines(data@, 7);
    let ghost mut answers: Seq<Result<EventVec, JP::Error>> = Seq::empty();
    let mut week_schedule = Events { short: Vec::new(), long: Vec::new() };
    let mut date_stream = DateStream::new(*first);
    let mut index: usize = 0;
    proof {
        lemma_plus_no_days(*first);
        lemma_day_number_bounds(*first);
    }
    while index < agendas.len()
        invariant
            first.is_valid(),
            fetched == Ok::<Vec<u8>, std::io::Error>(data),
            valid_utf8(data@),
            lines == agenda_lines(data@, 7),
            same_lines(agendas@, lines),
            index <= agendas.len(),
            answers.len() == index,
            are_parsed_lines(json_parser, lines, answers),
            are_agendas(answers, index as int),
            week_after(agendas_of(answers), *first, index as nat) == Some(
                (week_schedule.short@, week_schedule.long@),
            ),
            date_stream.upcoming() == first.plus_days(index as int),
            index > 0 ==> first.plus_days(index - 1) is Some,
            is_sorted_week(week_schedule.short@, week_schedule.long@),
            1 <= first.day_number() <= MAX_DAY_NUMBER,
        decreases agendas.len() - index,
    {
        let date: Date = match date_stream.next() {
            Some(date) => date,
            None => {
                // no later date can be held: the lines that are left have no day
                let r = Ok(week_schedule);
                assert(is_week_of_answers(answers, days_held(*first, lines.len()), *first, r));
                return r;
            },
        };
        let parsed: Result<EventVec, JP::Error> = json_parser.parse(agendas[index]);
        let ghost before = answers;
        proof {
            lemma_next_plus_days(*first, index as int, date);
            answers = before.push(parsed);
            assert(is_parsed_line(json_parser, lines[index as int], parsed));
            assert forall|i: int| 0 <= i < answers.len() implies is_parsed_line(
                json_parser,
                lines[i],
                #[trigger] answers[i],
            ) by {
                if i < index {
                    assert(answers[i] == before[i]);
                }
            }
            assert forall|i: int| 0 <= i < index implies (#[trigger] answers[i]) is Ok by {
                assert(answers[i] == before[i]);
            }
            lemma_week_after_days(agendas_of(before), agendas_of(answers), *first, index as nat);
            assert(are_parsed_lines(json_parser, agenda_lines(data@, 7), answers));
        }
        match sort_day(&mut week_schedule, parsed, &date) {
            Ok(()) => {},
            Err(e) => {
                let r = Err(e);
                assert(is_week_of_answers(answers, days_held(*first, lines.len()), *first, r));
                return r;
            },
        }
        index += 1;
    }
    let r = Ok(week_schedule);
    assert(is_week_of_answers(answers, days_held(*first, lines.len()), *first, r));
    r
}

/// Whether `r` is what fetching the events of the days in `arguments` gives:
/// `DurationIsTooBig` where more than 35 days are asked for; else what the
/// answer of the agenda tool to the command line of [`is_command_line`]
/// gives for the week that begins on the first of these days (see
/// [`is_sorted_output`]).
pub open spec fn is_obtained<AS, JP>(
    source: &AS,
    parser: &JP,
    arguments: ObtainArguments,
    r: Result<Events, Error<JP::Error>>,
) -> bool where AS: EventSource<Error = std::io::Error>, JP: JsonParser {
    if arguments.duration_days > MAX_DURATION_DAYS {
        r matches Err(Error::DurationIsTooBig)
    } else {
        exists|args: &[String], fetched: Result<Vec<u8>, std::io::Error>|
            {
                &&& is_command_line(args@, arguments)
                &&& #[trigger] call_ensures(AS::obtain, (source, args), fetched)
                &&& is_sorted_output(parser, fetched, *arguments.from, r)
            }
    }
}

/// Fetches the events of the days in `arguments` and sorts them into short
/// and long ones.
///
/// The agenda tool is run once, with the command line of [`command_line`],
/// unless more than 35 days are asked for. What it answers is sorted by
/// [`sort_fetched`].
pub fn obtain<AS, JP>(agenda_source: &AS, json_parser: &JP, arguments: &ObtainArguments) -> (r:
    Result<Events, Error<JP::Error>>) where
    AS: EventSource<Error = std::io::Error>,
    JP: JsonParser,

    requires
        arguments.from.is_valid(),
    ensures
        is_obtained(agenda_source, json_parser, *arguments, r),
        arguments.duration_days > MAX_DURATION_DAYS <==> r matches Err(Error::DurationIsTooBig),
        !(r matches Err(Error::TooManyLanes)),
        r matches Ok(events) ==> is_sorted_week(events.short@, events.long@),
{
    if arguments.duration_days > MAX_DURATION_DAYS {
        return Err(Error::DurationIsTooBig);
    }
    let args: Vec<String> = command_line(arguments);
    let command: &[String] = args.as_slice();
    let fetched: Result<Vec<u8>, std::io::Error> = agenda_source.obtain(command);
    let ghost answer = fetched;
    let r = sort_fetched(json_parser, fetched, arguments.from);
    proof {
        assert(is_command_line(command@, *arguments));
        assert(call_ensures(AS::obtain, (agenda_source, command), answer));
    }
    r
}

/// The events of a week with their lanes, the long ones and the short ones.
pub struct WeekScheduleWithLanes {
    pub long: EventData,
    pub short: EventData,
}

/// What a week view shows.
pub struct WeekData {
    pub agenda: WeekScheduleWithLanes,
}

fn titles_of(data: &EventData) -> (titles: Vec<&str>)
    ensures
        titles.len() == data.titles.len(),
        forall|i: int| 0 <= i < titles.len() ==> (#[trigger] titles[i])@ == data.titles[i]@,
{
    let mut titles: Vec<&str> = Vec::new();
    let mut index: usize = 0;
    while index < data.titles.len()
        invariant
            index <= data.titles.len(),
            titles.len() == index,
            forall|i: int| 0 <= i < index ==> (#[trigger] titles[i])@ == data.titles[i]@,
        decreases data.titles.len() - index,
    {
        titles.push(data.titles[index].as_str());
        index += 1;
    }
    titles
}

impl WeekScheduleWithLanes {
    /// The titles of the long events, in their order.
    pub fn long_events_titles(&self) -> (titles: Vec<&str>)
        ensures
            titles.len() == self.long.titles.len(),
            forall|i: int|
                0 <= i < titles.len() ==> (#[trigger] titles[i])@ == self.long.titles[i]@,
    {
        titles_of(&self.long)
    }

    /// The titles of the short events, in their order.
    pub fn short_events_titles(&self) -> (titles: Vec<&str>)
        ensures
            titles.len() == self.short.titles.len(),
            forall|i: int|
                0 <= i < titles.len() ==> (#[trigger] titles[i])@ == self.short.titles[i]@,
    {
        titles_of(&self.short)
    }
}

/// Whether `data` holds `events` and `lanes`: time, colour, title and lanes
/// of each event at its index.
pub open spec fn holds_events(data: EventData, events: Seq<Event>, lanes: Seq<(int, int)>) -> bool {
    &&& data.event_ranges.len() == events.len()
    &&& data.titles.len() == events.len()
    &&& same_lanes(data.lanes@, lanes)
    &&& forall|i: int|
        0 <= i < events.len() ==> #[trigger] data.event_ranges[i] == events[i].range()
            && data.titles[i]@ == events[i].title@
}

fn event_data(
    events: EventVec,
    lanes: Vec<(Lane, Lane)>,
    Ghost(assigned): Ghost<Seq<(int, int)>>,
) -> (data: EventData)
    requires
        same_lanes(lanes@, assigned),
    ensures
        holds_events(data, events@, assigned),
{
    let mut event_ranges: Vec<EventRange> = Vec::new();
    let mut titles: Vec<String> = Vec::new();
    let mut index: usize = 0;
    while index < events.len()
        invariant
            index <= events.len(),
            event_ranges.len() == index,
            titles.len() == index,
            forall|i: int|
                0 <= i < index ==> #[trigger] event_ranges[i] == events[i].range() && titles[i]@
                    == events[i].title@,
        decreases events.len() - index,
    {
        let event: &Event = &events[index];
        event_ranges.push(
            EventRange {
                start_date: event.start_date,
                start_time: event.start_time,
                end_date: event.end_date,
                end_time: event.end_time,
                calendar_color: event.calendar_color,
            },
        );
        titles.push(event.title.clone());
        index += 1;
    }
    EventData { event_ranges, titles, lanes }
}

/// Whether the lanes of the long events and of the short events of a week
/// that begins on `start_date` can each be counted by a [`Lane`].
pub open spec fn week_lanes_fit(events: Events, start_date: Date) -> bool {
    &&& lanes_fit(spans_of(events.long@, start_date), false)
    &&& lanes_fit(spans_of(events.short@, start_date), true)
}

/// Whether `week` holds `events` with their lanes, in a week that begins on
/// `start_date`: long events overlap over the days, short events only within
/// a day.
pub open spec fn is_week_of(week: WeekScheduleWithLanes, events: Events, start_date: Date) -> bool {
    &&& holds_events(
        week.long,
        events.long@,
        assign_lanes(spans_of(events.long@, start_date), false),
    )
    &&& holds_events(
        week.short,
        events.short@,
        assign_lanes(spans_of(events.short@, start_date), true),
    )
}

/// Gives the events of a week their lanes, or `None` where more than 255
/// events overlap.
pub fn checked_get_lanes(events: Events, start_date: &Date) -> (r: Option<WeekScheduleWithLanes>)
    requires
        start_date.is_valid(),
        forall|i: int| 0 <= i < events.long.len() ==> (#[trigger] events.long[i]).has_valid_dates(),
        forall|i: int|
            0 <= i < events.short.len() ==> (#[trigger] events.short[i]).has_valid_dates(),
    ensures
        match r {
            Some(week) => week_lanes_fit(events, *start_date) && is_week_of(
                week,
                events,
                *start_date,
            ),
            None => !week_lanes_fit(events, *start_date),
        },
{
    assert(decides_clash(long_event_clash_condition, false));
    assert(decides_clash(short_event_clash_condition, true));
    let long_lanes: Vec<(Lane, Lane)> = match checked_find_clashes(
        events.long.as_slice(),
        start_date,
        long_event_clash_condition,
    ) {
        Some(lanes) => lanes,
        None => {
            return None;
        },
    };
    let short_lanes: Vec<(Lane, Lane)> = match checked_find_clashes(
        events.short.as_slice(),
        start_date,
        short_event_clash_condition,
    ) {
        Some(lanes) => lanes,
        None => {
            return None;
        },
    };
    let ghost long_assigned = assign_lanes(spans_of(events.long@, *start_date), false);
    let ghost short_assigned = assign_lanes(spans_of(events.short@, *start_date), true);
    Some(
        WeekScheduleWithLanes {
            long: event_data(events.long, long_lanes, Ghost(long_assigned)),
            short: event_data(events.short, short_lanes, Ghost(short_assigned)),
        },
    )
}

/// Gives the events of a week their lanes.
pub fn get_lanes(events: Events, start_date: &Date) -> (week: WeekScheduleWithLanes)
    requires
        start_date.is_valid(),
        forall|i: int| 0 <= i < events.long.len() ==> (#[trigger] events.long[i]).has_valid_dates(),
        forall|i: int|
            0 <= i < events.short.len() ==> (#[trigger] events.short[i]).has_valid_dates(),
        week_lanes_fit(events, *start_date),
    ensures
        is_week_of(week, events, *start_date),
{
    match checked_get_lanes(events, start_date) {
        Some(week) => week,
        None => vstd::pervasive::unreached(),
    }
}

/// Whether `r` is what giving lanes to the fetched events of a week that
/// begins on `first` gives: the error of the fetch where it failed; else the
/// events with their lanes (see [`is_week_of`]), or `TooManyLanes` where
/// more than 255 events overlap.
pub open spec fn is_week_with_lanes<PE>(
    fetched: Result<Events, Error<PE>>,
    first: Date,
    r: Result<WeekScheduleWithLanes, Error<PE>>,
) -> bool {
    match fetched {
        Err(e) => r matches Err(x) && x == e,
        Ok(events) => if week_lanes_fit(events, first) {
            r matches Ok(week) && is_week_of(week, events, first)
        } else {
            r matches Err(Error::TooManyLanes)
        },
    }
}

/// Takes what a fetch gave and gives the events their lanes in the week that
/// begins on `first`.
pub fn with_lanes<PE>(fetched: Result<Events, Error<PE>>, first: &Date) -> (r: Result<
    WeekScheduleWithLanes,
    Error<PE>,
>)
    requires
        first.is_valid(),
        fetched matches Ok(events) ==> is_sorted_week(events.short@, events.long@),
    ensures
        is_week_with_lanes(fetched, *first, r),
        r matches Ok(week) ==> {
            &&& week.long.can_be_placed()
            &&& week.short.can_be_placed()
            &&& week.short.is_within_days()
        },
{
    let events: Events = match fetched {
        Ok(events) => events,
        Err(e) => {
            return Err(e);
        },
    };
    let ghost long = events.long@;
    let ghost short = events.short@;
    match checked_get_lanes(events, first) {
        Some(week) => {
            proof {
                lemma_lane_for_each(spans_of(long, *first), false);
                lemma_lane_for_each(spans_of(short, *first), true);
                assert forall|i: int| 0 <= i < week.long.event_ranges.len() implies {
                    &&& (#[trigger] week.long.event_ranges[i]).start_date.is_valid()
                    &&& week.long.event_ranges[i].end_date.is_valid()
                    &&& week.long.lanes[i].0 < week.long.lanes[i].1
                } by {
                    lemma_lane_below_total(spans_of(long, *first), false, i);
                    assert(long[i].has_valid_dates());
                }
                assert forall|i: int| 0 <= i < week.short.event_ranges.len() implies {
                    &&& (#[trigger] week.short.event_ranges[i]).start_date.is_valid()
                    &&& week.short.event_ranges[i].end_date.is_valid()
                    &&& week.short.lanes[i].0 < week.short.lanes[i].1
                    &&& week.short.event_ranges[i].start_date == week.short.event_ranges[i].end_date
                } by {
                    lemma_lane_below_total(spans_of(short, *first), true, i);
                    assert(short[i].has_valid_dates());
                }
            }
            Ok(week)
        },
        None => Err(Error::TooManyLanes),
    }
}

/// Fetches the events of the days in `arguments`, as [`obtain`] does, and
/// gives them their lanes in the week that begins on the first of these
/// days, as [`with_lanes`] does.
pub fn events_with_lanes<AS, JP>(
    agenda_source: &AS,
    json_parser: &JP,
    arguments: &ObtainArguments,
) -> (r: Result<WeekScheduleWithLanes, Error<JP::Error>>) where
    AS: EventSource<Error = std::io::Error>,
    JP: JsonParser,

    requires
        arguments.from.is_valid(),
    ensures
        exists|fetched: Result<Events, Error<JP::Error>>|
            {
                &&& #[trigger] is_obtained(agenda_source, json_parser, *arguments, fetched)
                &&& is_week_with_lanes(fetched, *arguments.from, r)
            },
        arguments.duration_days > MAX_DURATION_DAYS <==> r matches Err(Error::DurationIsTooBig),
        r matches Ok(week) ==> {
            &&& week.long.can_be_placed()
            &&& week.short.can_be_placed()
            &&& week.short.is_within_days()
        },
{
    let fetched: Result<Events, Error<JP::Error>> = obtain(agenda_source, json_parser, arguments);
    let ghost events = fetched;
    let r = with_lanes(fetched, arguments.from);
    proof {
        assert(is_obtained(agenda_source, json_parser, *arguments, events));
    }
    r
}

} // verus!
