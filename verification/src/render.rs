//! The geometry of the week view: where each event is drawn.
//!
//! A week is a grid of seven columns, one per day, from the first day of the
//! week on. All lengths are whole numbers of one unit, such as pixels; a
//! length that does not divide evenly is rounded down. Events that overlap in
//! time are drawn side by side: no two rectangles of short events share a
//! point.

use vstd::prelude::*;
use vstd::string::*;
use crate::clash::{
    assign_lanes, in_one_group, in_order_of_start, lemma_group_shares_total,
    lemma_groups_never_overlap, lemma_lane_below_total, lemma_new_day_starts_clear,
    lemma_same_lane_never_overlaps, new_days_start_clear, spans_of,
};
use crate::date::{lemma_day_number_bounds, Date};
use crate::event::{Event, EventData, EventRange, Lane};
use crate::time::{Time, MINUTES_PER_DAY};

verus! {

/// A place in the view, or the width and the height of something in it.
#[derive(Debug, Clone, Copy, PartialEq, Eq, Structural)]
pub struct Point {
    pub x: i64,
    pub y: i64,
}

impl Point {
    /// The place (`x`, `y`).
    pub fn new(x: i64, y: i64) -> (point: Self)
        ensures
            point == (Point { x, y }),
    {
        Self { x, y }
    }
}

/// A width and a height.
pub type Size = Point;

/// The grid that events are laid out on: the width of the column of a day,
/// the height that stands for 24 hours, and where the grid begins.
#[derive(Debug, Clone, Copy, PartialEq, Eq, Structural)]
pub struct Arguments {
    pub column_width: u32,
    pub column_height: u32,
    pub offset_x: i32,
    pub offset_y: i32,
}

/// The rectangle of an event, with the title of the event.
#[derive(Debug, Clone, Copy)]
pub struct Rectangle<'s> {
    pub at: Point,
    pub size: Size,
    pub text: &'s str,
}

/// The rectangles of some events, in the order of the events.
pub type Rectangles<'ev> = Vec<Rectangle<'ev>>;

/// The rectangles of a week: those of the long events, which stay in place,
/// and those of the short events, which scroll.
pub struct RectangleSet<'ev> {
    pub pinned: Rectangles<'ev>,
    pub scrolled: Rectangles<'ev>,
}

/// Where the column of the day `date` begins, in a week that begins on
/// `first_date`.
pub open spec fn column_x(first_date: Date, date: Date, arguments: Arguments) -> int {
    (date.day_number() - first_date.day_number()) * arguments.column_width + arguments.offset_x
}

/// How far down a column the time `time` lies.
pub open spec fn time_y(time: Time, arguments: Arguments) -> int {
    time.since_midnight() * arguments.column_height / 1440 + arguments.offset_y
}

/// Where the time `time` of the day `date` lies along the days of a week
/// that begins on `first_date`, a day being as wide as a column.
pub open spec fn moment_x(first_date: Date, date: Date, time: Time, arguments: Arguments) -> int {
    ((date.day_number() - first_date.day_number()) * 1440 + time.since_midnight())
        * arguments.column_width / 1440 + arguments.offset_x
}

/// A rectangle of the view, in whole numbers without a bound: its left and
/// its top, its width and its height.
pub struct Frame {
    pub x: int,
    pub y: int,
    pub width: int,
    pub height: int,
}

impl Frame {
    /// The lane `lane` of this rectangle when it is cut into `total` lanes
    /// side by side.
    pub open spec fn lane_across(self, lane: int, total: int) -> Frame {
        let lane_width = self.width / total;
        Frame { x: self.x + lane * lane_width, width: lane_width, ..self }
    }

    /// The lane `lane` of this rectangle when it is cut into `total` lanes
    /// one below the other.
    pub open spec fn lane_down(self, lane: int, total: int) -> Frame {
        let lane_height = self.height / total;
        Frame { y: self.y + lane * lane_height, height: lane_height, ..self }
    }

    /// Whether this rectangle and `other` share no point: one lies left of
    /// the other, or above it.
    pub open spec fn is_apart_from(self, other: Frame) -> bool {
        ||| self.x + self.width <= other.x
        ||| other.x + other.width <= self.x
        ||| self.y + self.height <= other.y
        ||| other.y + other.height <= self.y
    }
}

impl<'s> Rectangle<'s> {
    /// Where this rectangle lies and how large it is.
    pub open spec fn frame(&self) -> Frame {
        Frame {
            x: self.at.x as int,
            y: self.at.y as int,
            width: self.size.x as int,
            height: self.size.y as int,
        }
    }
}

/// The rectangle of a short event: the column of its day, from its start
/// down to its end, before lanes are taken into account.
pub open spec fn short_event_frame(
    event: EventRange,
    first_date: Date,
    arguments: Arguments,
) -> Frame {
    Frame {
        x: column_x(first_date, event.start_date, arguments),
        y: time_y(event.start_time, arguments),
        width: arguments.column_width as int,
        height: time_y(event.end_time, arguments) - time_y(event.start_time, arguments),
    }
}

/// The rectangle of a long event: as high as the panel of long events, from
/// its start along the days to its end, before lanes are taken into account.
pub open spec fn long_event_frame(
    event: EventRange,
    first_date: Date,
    arguments: Arguments,
) -> Frame {
    Frame {
        x: moment_x(first_date, event.start_date, event.start_time, arguments),
        y: arguments.offset_y as int,
        width: moment_x(first_date, event.end_date, event.end_time, arguments) - moment_x(
            first_date,
            event.start_date,
            event.start_time,
            arguments,
        ),
        height: arguments.column_height as int,
    }
}

/// Where the column of the day `event_date` begins, in a week that begins on
/// `first_date`, which must not be the later day.
pub fn calculate_event_point_x(
    first_date: &Date,
    event_date: &Date,
    column_width: u32,
    offset_x: i32,
) -> (x: i64)
    requires
        first_date.is_valid(),
        event_date.is_valid(),
        event_date.day_number() >= first_date.day_number(),
    ensures
        x == (event_date.day_number() - first_date.day_number()) * column_width + offset_x,
{
    proof {
        lemma_day_number_bounds(*first_date);
        lemma_day_number_bounds(*event_date);
    }
    let days: i32 = event_date.subtract(first_date);
    assert(0 <= days * column_width <= 23_936_166 * 0xffff_ffff) by (nonlinear_arith)
        requires
            0 <= days <= 23_936_166,
            0 <= column_width <= 0xffff_ffff,
    ;
    days as i64 * column_width as i64 + offset_x as i64
}

/// A time lies below the top of the grid, and not further down than eleven
/// times its height.
proof fn lemma_time_y_bounds(time: Time, arguments: Arguments)
    ensures
        0 <= time.since_midnight() * arguments.column_height <= 15_555 * 0xffff_ffff,
        arguments.offset_y <= time_y(time, arguments) <= 0xffff_ffff * 11 + arguments.offset_y,
{
    let minutes = time.since_midnight();
    let column_height = arguments.column_height;
    assert(0 <= minutes * column_height <= 15_555 * 0xffff_ffff) by (nonlinear_arith)
        requires
            0 <= minutes <= 15_555,
            0 <= column_height <= 0xffff_ffff,
    ;
}

fn calculate_time_y(time: &Time, arguments: &Arguments) -> (y: i64)
    ensures
        y == time_y(*time, *arguments),
{
    proof {
        lemma_time_y_bounds(*time, *arguments);
    }
    let minutes: u16 = time.minutes_from_midnight();
    minutes as i64 * arguments.column_height as i64 / MINUTES_PER_DAY as i64
        + arguments.offset_y as i64
}

/// The place of a time of a day of the week: at the left of the column of
/// the day, and as far down as the time is into the day.
pub fn create_point(
    first_date: &Date,
    start_date: &Date,
    start_time: &Time,
    arguments: &Arguments,
) -> (point: Point)
    requires
        first_date.is_valid(),
        start_date.is_valid(),
        start_date.day_number() >= first_date.day_number(),
    ensures
        point.x == column_x(*first_date, *start_date, *arguments),
        point.y == time_y(*start_time, *arguments),
{
    let x: i64 = calculate_event_point_x(
        first_date,
        start_date,
        arguments.column_width,
        arguments.offset_x,
    );
    let y: i64 = calculate_time_y(start_time, arguments);
    Point { x, y }
}

/// Cutting a length of whole days and minutes down to days leaves the days
/// whole: the minutes alone are rounded.
proof fn lemma_moment_x(days: int, minutes: int, column_width: int)
    ensures
        (days * 1440 + minutes) * column_width / 1440 == days * column_width + minutes
            * column_width / 1440,
{
    assert((days * 1440 + minutes) * column_width == 1440 * (days * column_width) + minutes
        * column_width) by (nonlinear_arith);
}

fn calculate_moment_x(first_date: &Date, date: &Date, time: &Time, arguments: &Arguments) -> (x:
    i64)
    requires
        first_date.is_valid(),
        date.is_valid(),
    ensures
        x == moment_x(*first_date, *date, *time, *arguments),
        -23_936_166 * 0xffff_ffff + arguments.offset_x <= x <= 23_936_177 * 0xffff_ffff
            + arguments.offset_x,
{
    proof {
        lemma_day_number_bounds(*first_date);
        lemma_day_number_bounds(*date);
        lemma_moment_x(
            date.day_number() - first_date.day_number(),
            time.since_midnight(),
            arguments.column_width as int,
        );
    }
    let days: i32 = date.subtract(first_date);
    let minutes: u16 = time.minutes_from_midnight();
    let column_width: u32 = arguments.column_width;
    assert(-23_936_166 * 0xffff_ffff <= days * column_width <= 23_936_166 * 0xffff_ffff)
        by (nonlinear_arith)
        requires
            -23_936_166 <= days <= 23_936_166,
            0 <= column_width <= 0xffff_ffff,
    ;
    assert(0 <= minutes * column_width <= 15_555 * 0xffff_ffff) by (nonlinear_arith)
        requires
            0 <= minutes <= 15_555,
            0 <= column_width <= 0xffff_ffff,
    ;
    days as i64 * column_width as i64 + minutes as i64 * column_width as i64
        / MINUTES_PER_DAY as i64 + arguments.offset_x as i64
}

/// The rectangle of a long event before lanes are taken into account. See
/// [`long_event_frame`].
pub fn create_long_event_rectangle<'ev>(
    long_event: &EventRange,
    title: &'ev str,
    first_date: &Date,
    arguments: &Arguments,
) -> (rectangle: Rectangle<'ev>)
    requires
        first_date.is_valid(),
        long_event.start_date.is_valid(),
        long_event.end_date.is_valid(),
    ensures
        rectangle.frame() == long_event_frame(*long_event, *first_date, *arguments),
        rectangle.text@ == title@,
{
    let start_x: i64 = calculate_moment_x(
        first_date,
        &long_event.start_date,
        &long_event.start_time,
        arguments,
    );
    let start_point = Point { x: start_x, y: arguments.offset_y as i64 };
    let end_x: i64 = calculate_moment_x(
        first_date,
        &long_event.end_date,
        &long_event.end_time,
        arguments,
    );
    let size = Size { x: end_x - start_x, y: arguments.column_height as i64 };
    Rectangle { at: start_point, size, text: title }
}

/// The rectangle of a short event before lanes are taken into account. See
/// [`short_event_frame`].
pub fn create_short_event_rectangle<'ev>(
    event: &EventRange,
    title: &'ev str,
    first_date: &Date,
    arguments: &Arguments,
) -> (rectangle: Rectangle<'ev>)
    requires
        first_date.is_valid(),
        event.start_date.is_valid(),
        event.start_date == event.end_date,
        event.start_date.day_number() >= first_date.day_number(),
    ensures
        rectangle.frame() == short_event_frame(*event, *first_date, *arguments),
        rectangle.text@ == title@,
{
    proof {
        lemma_time_y_bounds(event.start_time, *arguments);
        lemma_time_y_bounds(event.end_time, *arguments);
    }
    let start_point: Point = create_point(
        first_date,
        &event.start_date,
        &event.start_time,
        arguments,
    );
    let end_y: i64 = calculate_time_y(&event.end_time, arguments);
    let size = Size { x: arguments.column_width as i64, y: end_y - start_point.y };
    Rectangle { at: start_point, size, text: title }
}

/// Creates the rectangles of the long events, one for each event in the
/// order of the events.
pub fn long_event_rectangles<'ev>(
    long_events: &'ev EventData,
    first_date: &Date,
    arguments: &Arguments,
) -> (rectangles: Rectangles<'ev>)
    requires
        first_date.is_valid(),
        long_events.can_be_placed(),
    ensures
        rectangles.len() == long_events.event_ranges.len(),
        forall|i: int|
            0 <= i < rectangles.len() ==> {
                &&& (#[trigger] rectangles[i]).frame() == long_event_frame(
                    long_events.event_ranges[i],
                    *first_date,
                    *arguments,
                ).lane_down(long_events.lanes[i].0 as int, long_events.lanes[i].1 as int)
                &&& rectangles[i].text@ == long_events.titles[i]@
            },
{
    let mut rectangles: Rectangles<'ev> = Vec::new();
    let mut index: usize = 0;
    while index < long_events.event_ranges.len()
        invariant
            first_date.is_valid(),
            long_events.can_be_placed(),
            index <= long_events.event_ranges.len(),
            rectangles.len() == index,
            forall|i: int|
                0 <= i < index ==> {
                    &&& (#[trigger] rectangles[i]).frame() == long_event_frame(
                        long_events.event_ranges[i],
                        *first_date,
                        *arguments,
                    ).lane_down(long_events.lanes[i].0 as int, long_events.lanes[i].1 as int)
                    &&& rectangles[i].text@ == long_events.titles[i]@
                },
        decreases long_events.event_ranges.len() - index,
    {
        let event: &EventRange = &long_events.event_ranges[index];
        let (event_lane, total_lanes): (Lane, Lane) = long_events.lanes[index];
        let mut rect: Rectangle<'ev> = create_long_event_rectangle(
            event,
            long_events.titles[index].as_str(),
            first_date,
            arguments,
        );
        let lane_height: u32 = arguments.column_height / total_lanes as u32;
        assert(0 <= event_lane * lane_height <= 0xffff_ffff * 255) by (nonlinear_arith)
            requires
                0 <= lane_height <= 0xffff_ffff,
                0 <= event_lane <= 255,
        ;
        rect.at.y = rect.at.y + event_lane as i64 * lane_height as i64;
        rect.size.y = lane_height as i64;
        rectangles.push(rect);
        index += 1;
    }
    rectangles
}

/// Creates rectangles which visualize the position of the short events, one
/// for each event in the order of the events.
pub fn short_event_rectangles<'ev>(
    short_events: &'ev EventData,
    first_date: &Date,
    arguments: &Arguments,
) -> (rectangles: Rectangles<'ev>)
    requires
        first_date.is_valid(),
        short_events.can_be_placed(),
        short_events.is_within_days(),
        forall|i: int|
            0 <= i < short_events.event_ranges.len() ==> (
            #[trigger] short_events.event_ranges[i]).start_date.day_number()
                >= first_date.day_number(),
    ensures
        rectangles.len() == short_events.event_ranges.len(),
        forall|i: int|
            0 <= i < rectangles.len() ==> {
                &&& (#[trigger] rectangles[i]).frame() == short_event_frame(
                    short_events.event_ranges[i],
                    *first_date,
                    *arguments,
                ).lane_across(short_events.lanes[i].0 as int, short_events.lanes[i].1 as int)
                &&& rectangles[i].text@ == short_events.titles[i]@
            },
{
    let mut rectangles: Rectangles<'ev> = Vec::new();
    let mut index: usize = 0;
    while index < short_events.event_ranges.len()
        invariant
            first_date.is_valid(),
            short_events.can_be_placed(),
            short_events.is_within_days(),
            forall|i: int|
                0 <= i < short_events.event_ranges.len() ==> (
                #[trigger] short_events.event_ranges[i]).start_date.day_number()
                    >= first_date.day_number(),
            index <= short_events.event_ranges.len(),
            rectangles.len() == index,
            forall|i: int|
                0 <= i < index ==> {
                    &&& (#[trigger] rectangles[i]).frame() == short_event_frame(
                        short_events.event_ranges[i],
                        *first_date,
                        *arguments,
                    ).lane_across(short_events.lanes[i].0 as int, short_events.lanes[i].1 as int)
                    &&& rectangles[i].text@ == short_events.titles[i]@
                },
        decreases short_events.event_ranges.len() - index,
    {
        let event: &EventRange = &short_events.event_ranges[index];
        let (event_lane, total_lanes): (Lane, Lane) = short_events.lanes[index];
        let mut rect: Rectangle<'ev> = create_short_event_rectangle(
            event,
            short_events.titles[index].as_str(),
            first_date,
            arguments,
        );
        proof {
            lemma_day_number_bounds(*first_date);
            lemma_day_number_bounds(event.start_date);
            let days = event.start_date.day_number() - first_date.day_number();
            let column_width = arguments.column_width;
            assert(0 <= days * column_width <= 23_936_166 * 0xffff_ffff) by (nonlinear_arith)
                requires
                    0 <= days <= 23_936_166,
                    0 <= column_width <= 0xffff_ffff,
            ;
        }
        let lane_width: u32 = arguments.column_width / total_lanes as u32;
        assert(0 <= event_lane * lane_width <= 0xffff_ffff * 255) by (nonlinear_arith)
            requires
                0 <= lane_width <= 0xffff_ffff,
                0 <= event_lane <= 255,
        ;
        rect.size.x = lane_width as i64;
        rect.at.x = rect.at.x + event_lane as i64 * lane_width as i64;
        rectangles.push(rect);
        index += 1;
    }
    rectangles
}

/// A lane of a rectangle that is cut into lanes side by side lies within the
/// rectangle, and right of the lanes before it.
proof fn lemma_lanes_across(width: int, lane: int, other: int, total: int)
    requires
        0 <= width,
        0 <= lane < other < total,
    ensures
        0 <= width / total,
        (lane + 1) * (width / total) <= other * (width / total),
        (other + 1) * (width / total) <= width,
        lane * (width / total) + width / total == (lane + 1) * (width / total),
        other * (width / total) + width / total == (other + 1) * (width / total),
{
    let lane_width = width / total;
    assert(0 <= lane_width && total * lane_width <= width) by (nonlinear_arith)
        requires
            lane_width == width / total,
            0 <= width,
            0 < total,
    ;
    assert((lane + 1) * lane_width <= other * lane_width) by (nonlinear_arith)
        requires
            lane + 1 <= other,
            0 <= lane_width,
    ;
    assert((other + 1) * lane_width <= total * lane_width) by (nonlinear_arith)
        requires
            other + 1 <= total,
            0 <= lane_width,
    ;
    assert(lane * lane_width + lane_width == (lane + 1) * lane_width) by (nonlinear_arith);
    assert(other * lane_width + lane_width == (other + 1) * lane_width) by (nonlinear_arith);
}

/// A later time of the day lies no higher in a column than an earlier one.
proof fn lemma_time_y_grows(earlier: Time, later: Time, arguments: Arguments)
    requires
        earlier.since_midnight() <= later.since_midnight(),
    ensures
        time_y(earlier, arguments) <= time_y(later, arguments),
{
    let height = arguments.column_height as int;
    let a = earlier.since_midnight();
    let b = later.since_midnight();
    assert(a * height <= b * height) by (nonlinear_arith)
        requires
            a <= b,
            0 <= height,
    ;
}

/// The rectangles of two short events of a week never share a point: events
/// that overlap in time stand side by side. This holds of events that each
/// begin and end on one day and come in the order of their start, with the
/// lanes that the lane assignment gives them.
pub proof fn lemma_short_rectangles_never_overlap(
    events: Seq<Event>,
    first_date: Date,
    arguments: Arguments,
    earlier: int,
    later: int,
)
    requires
        forall|i: int|
            0 <= i < events.len() ==> {
                &&& (#[trigger] events[i]).has_valid_dates()
                &&& events[i].start_date == events[i].end_date
                &&& events[i].start_time.is_valid()
                &&& events[i].end_time.is_valid()
            },
        in_order_of_start(spans_of(events, first_date)),
        0 <= earlier < later < events.len(),
    ensures
        ({
            let lanes = assign_lanes(spans_of(events, first_date), true);
            short_event_frame(events[earlier].range(), first_date, arguments).lane_across(
                lanes[earlier].0,
                lanes[earlier].1,
            ).is_apart_from(
                short_event_frame(events[later].range(), first_date, arguments).lane_across(
                    lanes[later].0,
                    lanes[later].1,
                ),
            )
        }),
{
    let spans = spans_of(events, first_date);
    let lanes = assign_lanes(spans, true);
    let first = events[earlier];
    let second = events[later];
    let width = arguments.column_width as int;
    let first_day = first.start_date.day_number() - first_date.day_number();
    let second_day = second.start_date.day_number() - first_date.day_number();
    let first_frame = short_event_frame(first.range(), first_date, arguments).lane_across(
        lanes[earlier].0,
        lanes[earlier].1,
    );
    let second_frame = short_event_frame(second.range(), first_date, arguments).lane_across(
        lanes[later].0,
        lanes[later].1,
    );
    assert(first.has_valid_dates() && second.has_valid_dates());
    assert(first.start_time.is_valid() && first.end_time.is_valid());
    assert(second.start_time.is_valid() && second.end_time.is_valid());
    assert(spans[earlier].start == first_day * 1440 + first.start_time.since_midnight());
    assert(spans[earlier].end == first_day * 1440 + first.end_time.since_midnight());
    assert(spans[later].start == second_day * 1440 + second.start_time.since_midnight());
    assert(spans[earlier].start <= spans[later].start);
    assert(first_day <= second_day);
    lemma_lane_below_total(spans, true, earlier);
    lemma_lane_below_total(spans, true, later);
    assert forall|a: int, b: int|
        0 <= a < b < spans.len() && (#[trigger] spans[b]).new_day implies (#[trigger] spans[a]).end
        <= spans[b].start by {
        lemma_new_day_starts_clear(events, first_date, a, b);
    }
    if first_day < second_day {
        // the first event stands in a column left of the second one
        assert(0 <= width / lanes[earlier].1 && (lanes[earlier].0 + 1) * (width / lanes[earlier].1)
            <= width) by (nonlinear_arith)
            requires
                0 <= width,
                0 <= lanes[earlier].0 < lanes[earlier].1,
        ;
        assert(lanes[earlier].0 * (width / lanes[earlier].1) + width / lanes[earlier].1 == (
        lanes[earlier].0 + 1) * (width / lanes[earlier].1)) by (nonlinear_arith);
        assert(0 <= lanes[later].0 * (width / lanes[later].1)) by (nonlinear_arith)
            requires
                0 <= width,
                0 <= lanes[later].0 < lanes[later].1,
        ;
        assert((first_day + 1) * width <= second_day * width) by (nonlinear_arith)
            requires
                first_day + 1 <= second_day,
                0 <= width,
        ;
        assert((first_day + 1) * width == first_day * width + width) by (nonlinear_arith);
        assert(first_frame.x + first_frame.width <= second_frame.x);
    } else if spans[earlier].end <= spans[later].start {
        // the first event has ended when the second one starts
        lemma_time_y_grows(first.end_time, second.start_time, arguments);
        assert(first_frame.y + first_frame.height <= second_frame.y);
    } else {
        // the events overlap in time: they share a group and differ in the lane
        if !in_one_group(spans, true, earlier, later) {
            lemma_groups_never_overlap(spans, true, earlier, later);
        }
        if lanes[earlier].0 == lanes[later].0 {
            lemma_same_lane_never_overlaps(spans, true, earlier, later);
        }
        lemma_group_shares_total(spans, true, earlier, later);
        let total = lanes[earlier].1;
        if lanes[earlier].0 < lanes[later].0 {
            lemma_lanes_across(width, lanes[earlier].0, lanes[later].0, total);
            assert(first_frame.x + first_frame.width <= second_frame.x);
        } else {
            lemma_lanes_across(width, lanes[later].0, lanes[earlier].0, total);
            assert(second_frame.x + second_frame.width <= first_frame.x);
        }
    }
}

/// A text and where to draw it.
pub struct EventText<'text, T> {
    pub text: &'text T,
    pub at: Point,
}

/// How far inside its rectangle the title of an event is drawn.
pub const EVENT_TEXT_INSET: i64 = 2;

/// Places the title of each event just inside the rectangle of the event.
/// Where one list is longer than the other, what has no partner is left out.
pub fn place_event_texts<'text, Text>(
    rectangles: &[Rectangle],
    event_titles: &'text [Text],
) -> (texts: Vec<EventText<'text, Text>>)
    requires
        forall|i: int|
            0 <= i < rectangles.len() ==> (#[trigger] rectangles[i]).at.x <= i64::MAX
                - EVENT_TEXT_INSET && rectangles[i].at.y <= i64::MAX - EVENT_TEXT_INSET,
    ensures
        texts.len() == if rectangles.len() <= event_titles.len() {
            rectangles.len()
        } else {
            event_titles.len()
        },
        forall|i: int|
            0 <= i < texts.len() ==> {
                &&& *(#[trigger] texts[i]).text == event_titles[i]
                &&& texts[i].at.x == rectangles[i].at.x + EVENT_TEXT_INSET
                &&& texts[i].at.y == rectangles[i].at.y + EVENT_TEXT_INSET
            },
{
    let mut texts: Vec<EventText<'text, Text>> = Vec::new();
    let mut index: usize = 0;
    while index < rectangles.len() && index < event_titles.len()
        invariant
            forall|i: int|
                0 <= i < rectangles.len() ==> (#[trigger] rectangles[i]).at.x <= i64::MAX
                    - EVENT_TEXT_INSET && rectangles[i].at.y <= i64::MAX - EVENT_TEXT_INSET,
            index <= rectangles.len(),
            index <= event_titles.len(),
            texts.len() == index,
            forall|i: int|
                0 <= i < index ==> {
                    &&& *(#[trigger] texts[i]).text == event_titles[i]
                    &&& texts[i].at.x == rectangles[i].at.x + EVENT_TEXT_INSET
                    &&& texts[i].at.y == rectangles[i].at.y + EVENT_TEXT_INSET
                },
        decreases rectangles.len() - index,
    {
        let rectangle: &Rectangle = &rectangles[index];
        texts.push(
            EventText {
                text: &event_titles[index],
                at: Point {
                    x: rectangle.at.x + EVENT_TEXT_INSET,
                    y: rectangle.at.y + EVENT_TEXT_INSET,
                },
            },
        );
        index += 1;
    }
    texts
}

/// Draws texts.
pub trait TextRender {
    type Text;

    type Result;

    /// Draws `text` at the place (`x`, `y`).
    fn text_render(&self, text: &Self::Text, x: i64, y: i64) -> Self::Result;
}

/// Whether `result` is what the renderer gives for drawing `text` at the
/// place `at`.
pub open spec fn is_drawn_at<TR: TextRender>(
    tr: &TR,
    text: &TR::Text,
    at: Point,
    result: TR::Result,
) -> bool {
    call_ensures(TR::text_render, (tr, text, at.x, at.y), result)
}

/// Draws each of `texts` at its place, and gives what the drawing of each
/// gave.
pub fn event_texts<'text, TR: TextRender>(
    tr: &TR,
    texts: &[EventText<'text, TR::Text>],
) -> (results: Vec<TR::Result>)
    ensures
        results.len() == texts.len(),
        forall|k: int|
            0 <= k < texts.len() ==> is_drawn_at(
                tr,
                texts[k].text,
                texts[k].at,
                #[trigger] results[k],
            ),
{
    let mut results: Vec<TR::Result> = Vec::new();
    let mut index: usize = 0;
    while index < texts.len()
        invariant
            index <= texts.len(),
            results.len() == index,
            forall|k: int|
                0 <= k < index ==> is_drawn_at(
                    tr,
                    texts[k].text,
                    texts[k].at,
                    #[trigger] results[k],
                ),
        decreases texts.len() - index,
    {
        let t: &EventText<'text, TR::Text> = &texts[index];
        results.push(tr.text_render(t.text, t.at.x, t.at.y));
        index += 1;
    }
    results
}

/// Where the caption of the column `index` is drawn: at the left of the
/// column, all captions at one height.
pub open spec fn column_caption_at(index: int, arguments: Arguments) -> Point {
    Point {
        x: (arguments.offset_x + index * arguments.column_width) as i64,
        y: arguments.offset_y as i64,
    }
}

/// See [`column_caption_at`].
pub fn column_caption_point(index: usize, arguments: &Arguments) -> (point: Point)
    requires
        index <= i32::MAX,
    ensures
        point == column_caption_at(index as int, *arguments),
{
    let column_width: u32 = arguments.column_width;
    assert(0 <= index * column_width <= 0x7fff_ffff * 0xffff_ffff) by (nonlinear_arith)
        requires
            0 <= index <= 0x7fff_ffff,
            0 <= column_width <= 0xffff_ffff,
    ;
    Point {
        x: arguments.offset_x as i64 + index as i64 * column_width as i64,
        y: arguments.offset_y as i64,
    }
}

/// Draws one caption per column, each at the place that
/// [`column_caption_point`] gives, and gives what the drawing of each gave.
pub fn render_weekdays<TR: TextRender>(
    tr: &TR,
    texts: &[TR::Text],
    arguments: &Arguments,
) -> (results: Vec<TR::Result>)
    requires
        texts.len() <= i32::MAX,
    ensures
        results.len() == texts.len(),
        forall|k: int|
            0 <= k < texts.len() ==> is_drawn_at(
                tr,
                &texts[k],
                column_caption_at(k, *arguments),
                #[trigger] results[k],
            ),
{
    let mut results: Vec<TR::Result> = Vec::new();
    let mut index: usize = 0;
    while index < texts.len()
        invariant
            texts.len() <= i32::MAX,
            index <= texts.len(),
            results.len() == index,
            forall|k: int|
                0 <= k < index ==> is_drawn_at(
                    tr,
                    &texts[k],
                    column_caption_at(k, *arguments),
                    #[trigger] results[k],
                ),
        decreases texts.len() - index,
    {
        let at: Point = column_caption_point(index, arguments);
        results.push(tr.text_render(&texts[index], at.x, at.y));
        index += 1;
    }
    results
}

/// Where the captions of the hours are drawn: the height of a row, and where
/// the first caption stands.
#[derive(Debug, Clone, Copy, PartialEq, Eq, Structural)]
pub struct RenderHoursArgs {
    pub row_height: u32,
    pub offset_x: i32,
    pub offset_y: i32,
}

/// Where the caption of the row `index` is drawn: at the top of the row, all
/// captions one below the other.
pub open spec fn row_caption_at(index: int, arguments: RenderHoursArgs) -> Point {
    Point {
        x: arguments.offset_x as i64,
        y: (arguments.offset_y + index * arguments.row_height) as i64,
    }
}

/// See [`row_caption_at`].
pub fn row_caption_point(index: usize, arguments: &RenderHoursArgs) -> (point: Point)
    requires
        index <= i32::MAX,
    ensures
        point == row_caption_at(index as int, *arguments),
{
    let row_height: u32 = arguments.row_height;
    assert(0 <= index * row_height <= 0x7fff_ffff * 0xffff_ffff) by (nonlinear_arith)
        requires
            0 <= index <= 0x7fff_ffff,
            0 <= row_height <= 0xffff_ffff,
    ;
    Point {
        x: arguments.offset_x as i64,
        y: arguments.offset_y as i64 + index as i64 * row_height as i64,
    }
}

/// Draws one caption per row, each at the place that [`row_caption_point`]
/// gives, and gives what the drawing of each gave.
pub fn render_hours<TR: TextRender>(
    tr: &TR,
    texts: &[TR::Text],
    arguments: &RenderHoursArgs,
) -> (results: Vec<TR::Result>)
    requires
        texts.len() <= i32::MAX,
    ensures
        results.len() == texts.len(),
        forall|k: int|
            0 <= k < texts.len() ==> is_drawn_at(
                tr,
                &texts[k],
                row_caption_at(k, *arguments),
                #[trigger] results[k],
            ),
{
    let mut results: Vec<TR::Result> = Vec::new();
    let mut index: usize = 0;
    while index < texts.len()
        invariant
            texts.len() <= i32::MAX,
            index <= texts.len(),
            results.len() == index,
            forall|k: int|
                0 <= k < index ==> is_drawn_at(
                    tr,
                    &texts[k],
                    row_caption_at(k, *arguments),
                    #[trigger] results[k],
                ),
        decreases texts.len() - index,
    {
        let at: Point = row_caption_point(index, arguments);
        results.push(tr.text_render(&texts[index], at.x, at.y));
        index += 1;
    }
    results
}

/// Where the captions of a week are drawn.
#[derive(Debug, Clone, Copy, PartialEq, Eq, Structural)]
pub struct RenderWeekCaptionsArgs {
    pub hours_arguments: RenderHoursArgs,
    pub days_arguments: Arguments,
    pub dates_arguments: Arguments,
}

/// Whether `results` are what the renderer gives for the captions of a week:
/// first for the names of the days, each at the place of its column, then for
/// the hours, each at the place of its row, then for the dates, each at the
/// place of its column.
pub open spec fn are_week_captions_drawn<TR: TextRender>(
    tr: &TR,
    days: Seq<TR::Text>,
    hours: Seq<TR::Text>,
    dates: Seq<TR::Text>,
    args: RenderWeekCaptionsArgs,
    results: Seq<TR::Result>,
) -> bool {
    &&& results.len() == days.len() + hours.len() + dates.len()
    &&& forall|k: int|
        0 <= k < days.len() ==> is_drawn_at(
            tr,
            &days[k],
            column_caption_at(k, args.days_arguments),
            #[trigger] results[k],
        )
    &&& forall|k: int|
        0 <= k < hours.len() ==> is_drawn_at(
            tr,
            &hours[k],
            row_caption_at(k, args.hours_arguments),
            #[trigger] results[days.len() + k],
        )
    &&& forall|k: int|
        0 <= k < dates.len() ==> is_drawn_at(
            tr,
            &dates[k],
            column_caption_at(k, args.dates_arguments),
            #[trigger] results[days.len() + hours.len() + k],
        )
}

/// Draws the captions of a week: the names of the days, then the hours, then
/// the dates. Gives what the drawing of each gave, in that order.
pub fn render_week_captions<TR: TextRender>(
    tr: &TR,
    days: &[TR::Text],
    hours: &[TR::Text],
    dates: &[TR::Text],
    args: &RenderWeekCaptionsArgs,
) -> (results: Vec<TR::Result>)
    requires
        days.len() <= i32::MAX,
        hours.len() <= i32::MAX,
        dates.len() <= i32::MAX,
    ensures
        are_week_captions_drawn(tr, days@, hours@, dates@, *args, results@),
{
    let mut results: Vec<TR::Result> = render_weekdays(tr, days, &args.days_arguments);
    let mut of_hours: Vec<TR::Result> = render_hours(tr, hours, &args.hours_arguments);
    let mut of_dates: Vec<TR::Result> = render_weekdays(tr, dates, &args.dates_arguments);
    let ghost of_days = results@;
    let ghost hour_results = of_hours@;
    let ghost date_results = of_dates@;
    results.append(&mut of_hours);
    results.append(&mut of_dates);
    proof {
        assert(results@ =~= of_days + hour_results + date_results);
        assert forall|k: int| 0 <= k < days.len() implies is_drawn_at(
            tr,
            &days[k],
            column_caption_at(k, args.days_arguments),
            #[trigger] results[k],
        ) by {
            assert(results[k] == of_days[k]);
        }
        assert forall|k: int| 0 <= k < hours.len() implies is_drawn_at(
            tr,
            &hours[k],
            row_caption_at(k, args.hours_arguments),
            #[trigger] results[days.len() + k],
        ) by {
            assert(results[days.len() + k] == hour_results[k]);
        }
        assert forall|k: int| 0 <= k < dates.len() implies is_drawn_at(
            tr,
            &dates[k],
            column_caption_at(k, args.dates_arguments),
            #[trigger] results[days.len() + hours.len() + k],
        ) by {
            assert(results[days.len() + hours.len() + k] == date_results[k]);
        }
    }
    results
}

/// Draws rectangles.
pub trait RenderRectangles {
    type Result;

    fn render_rectangles<'r, 's>(&self, data: &'r [Rectangle<'s>]) -> Self::Result;
}

/// Hands `rectangles` to `dr` to be drawn, and gives what the drawing of
/// them gave.
pub fn render_rectangles<'r, 's, DR: RenderRectangles>(
    rectangles: &'r [Rectangle<'s>],
    dr: &DR,
) -> (result: DR::Result)
    ensures
        call_ensures(DR::render_rectangles, (dr, rectangles), result),
{
    dr.render_rectangles(rectangles)
}

} // verus!
