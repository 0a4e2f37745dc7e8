//! Lanes for events that overlap in time.
//!
//! Events come in the order of their start. Events that overlap, directly or
//! through others, form a group; its members are shown side by side, each in
//! a lane, and all of them as wide as one lane of the group. An event that
//! joins a group takes the lane that became free last before it starts, and a
//! new lane where none is free.

use vstd::prelude::*;
use crate::date::{lemma_day_number_bounds, lemma_same_day_number, Date};
use crate::event::{Event, Lane};
use crate::time::Time;

verus! {

/// An event as the lane assignment sees it: its start and its end in minutes
/// from the midnight that begins the week, and whether it begins on another
/// day than the event before it.
pub struct Span {
    pub start: int,
    pub end: int,
    pub new_day: bool,
}

/// The assignment after some events: for each event of the groups that are
/// closed its lane and the number of lanes of its group, and for each member
/// of the group that is open its end and its lane.
pub struct Assignment {
    pub done: Seq<(int, int)>,
    pub ends: Seq<int>,
    pub lanes: Seq<int>,
    pub lane_count: int,
}

/// Whether an event that starts at `start` overlaps the group: it starts
/// before a member ends. With `day_rule`, an event that begins a new day
/// never does.
pub open spec fn collides(ends: Seq<int>, span: Span, day_rule: bool) -> bool {
    &&& exists|i: int| 0 <= i < ends.len() && span.start < #[trigger] ends[i]
    &&& !(day_rule && span.new_day)
}

/// Whether every member of the group in `lane` has ended by `start`.
pub open spec fn lane_is_free(ends: Seq<int>, lanes: Seq<int>, lane: int, start: int) -> bool {
    forall|i: int| 0 <= i < lanes.len() && #[trigger] lanes[i] == lane ==> ends[i] <= start
}

/// Whether `member` is the member whose lane an event that starts at `start`
/// takes: its lane is free, no member of a free lane ends later, and of those
/// that end at the same time it comes first.
pub open spec fn is_nearest_fit(ends: Seq<int>, lanes: Seq<int>, member: int, start: int) -> bool {
    &&& 0 <= member < lanes.len()
    &&& lane_is_free(ends, lanes, lanes[member], start)
    &&& forall|j: int|
        0 <= j < lanes.len() && lane_is_free(ends, lanes, #[trigger] lanes[j], start) ==> ends[j]
            < ends[member] || (ends[j] == ends[member] && member <= j)
}

/// The free lane that an event that starts at `start` takes, if one is free.
pub open spec fn free_lane(ends: Seq<int>, lanes: Seq<int>, start: int) -> Option<int> {
    if exists|member: int| is_nearest_fit(ends, lanes, member, start) {
        Some(lanes[choose|member: int| is_nearest_fit(ends, lanes, member, start)])
    } else {
        None
    }
}

impl Assignment {
    /// The assignment before any event.
    pub open spec fn empty() -> Assignment {
        Assignment { done: Seq::empty(), ends: Seq::empty(), lanes: Seq::empty(), lane_count: 0 }
    }

    /// Lane and number of lanes for every event so far, the open group
    /// closed.
    pub open spec fn flushed(self) -> Seq<(int, int)> {
        self.done + Seq::new(self.lanes.len(), |i: int| (self.lanes[i], self.lane_count))
    }

    /// The assignment after one more event.
    pub open spec fn place(self, span: Span, day_rule: bool) -> Assignment {
        if !collides(self.ends, span, day_rule) {
            Assignment {
                done: self.flushed(),
                ends: seq![span.end],
                lanes: seq![0int],
                lane_count: 1,
            }
        } else {
            match free_lane(self.ends, self.lanes, span.start) {
                Some(lane) => Assignment {
                    done: self.done,
                    ends: self.ends.push(span.end),
                    lanes: self.lanes.push(lane),
                    lane_count: self.lane_count,
                },
                None => Assignment {
                    done: self.done,
                    ends: self.ends.push(span.end),
                    lanes: self.lanes.push(self.lane_count),
                    lane_count: self.lane_count + 1,
                },
            }
        }
    }
}

/// The assignment after the first `count` of `spans`.
pub open spec fn placed(spans: Seq<Span>, day_rule: bool, count: nat) -> Assignment
    decreases count,
{
    if count == 0 {
        Assignment::empty()
    } else {
        placed(spans, day_rule, (count - 1) as nat).place(spans[count - 1], day_rule)
    }
}

/// For each of `spans` its lane and the number of lanes of its group.
pub open spec fn assign_lanes(spans: Seq<Span>, day_rule: bool) -> Seq<(int, int)> {
    placed(spans, day_rule, spans.len()).flushed()
}

/// Whether no group of `spans` takes more lanes than a [`Lane`] can count.
pub open spec fn lanes_fit(spans: Seq<Span>, day_rule: bool) -> bool {
    forall|count: nat|
        count <= spans.len() ==> (#[trigger] placed(spans, day_rule, count)).lane_count
            <= Lane::MAX
}

/// Whether `lanes` holds the numbers of `assigned`.
pub open spec fn same_lanes(lanes: Seq<(Lane, Lane)>, assigned: Seq<(int, int)>) -> bool {
    &&& lanes.len() == assigned.len()
    &&& forall|i: int|
        0 <= i < lanes.len() ==> (#[trigger] lanes[i]).0 == assigned[i].0 && lanes[i].1
            == assigned[i].1
}

/// The group of events that is open: the end and the lane of each member,
/// the latest end in each lane, and the latest end of all.
struct Clash {
    event_ends: Vec<i64>,
    lanes: Vec<Lane>,
    lane_ends: Vec<i64>,
    end: i64,
}

impl Clash {
    spec fn ends(&self) -> Seq<int> {
        Seq::new(self.event_ends.len() as nat, |i: int| self.event_ends[i] as int)
    }

    spec fn lanes(&self) -> Seq<int> {
        Seq::new(self.lanes.len() as nat, |i: int| self.lanes[i] as int)
    }

    /// Whether a member in `lane` ends at the latest end noted for the lane.
    spec fn lane_end_is_met(&self, lane: int) -> bool {
        exists|i: int|
            0 <= i < self.lanes.len() && #[trigger] self.lanes[i] == lane && self.event_ends[i]
                == self.lane_ends[lane]
    }

    spec fn wf(&self) -> bool {
        &&& self.event_ends.len() == self.lanes.len()
        &&& self.lane_ends.len() <= Lane::MAX
        &&& forall|i: int|
            0 <= i < self.lanes.len() ==> #[trigger] self.lanes[i] < self.lane_ends.len()
        &&& forall|i: int|
            0 <= i < self.lanes.len() ==> self.event_ends[i] <= self.lane_ends[(
            #[trigger] self.lanes[i]) as int]
        &&& forall|lane: int|
            0 <= lane < self.lane_ends.len() ==> #[trigger] self.lane_end_is_met(lane)
        &&& forall|i: int|
            0 <= i < self.event_ends.len() ==> #[trigger] self.event_ends[i] <= self.end
        &&& self.event_ends.len() > 0 ==> exists|i: int|
            0 <= i < self.event_ends.len() && #[trigger] self.event_ends[i] == self.end
        &&& self.event_ends.len() == 0 ==> self.end == i64::MIN && self.lane_ends.len() == 0
    }

    fn new() -> (clash: Clash)
        ensures
            clash.wf(),
            clash.ends() == Seq::<int>::empty(),
            clash.lanes() == Seq::<int>::empty(),
            clash.lane_ends.len() == 0,
    {
        let clash = Clash {
            event_ends: Vec::new(),
            lanes: Vec::new(),
            lane_ends: Vec::new(),
            end: i64::MIN,
        };
        assert(clash.ends() =~= Seq::<int>::empty());
        assert(clash.lanes() =~= Seq::<int>::empty());
        clash
    }

    /// Closes the group: hands out the lane of each member with the number
    /// of lanes, and leaves the group empty.
    fn flush(&mut self, into: &mut Vec<(Lane, Lane)>, lane_count: Lane)
        requires
            old(self).wf(),
        ensures
            final(self).wf(),
            final(self).ends() == Seq::<int>::empty(),
            final(self).lanes() == Seq::<int>::empty(),
            final(self).lane_ends.len() == 0,
            final(into)@ == old(into)@ + Seq::new(
                old(self).lanes.len() as nat,
                |i: int| (old(self).lanes[i], lane_count),
            ),
    {
        let mut index: usize = 0;
        while index < self.lanes.len()
            invariant
                index <= self.lanes.len(),
                self.lanes == old(self).lanes,
                into@ == old(into)@ + Seq::new(
                    index as nat,
                    |i: int| (old(self).lanes[i], lane_count),
                ),
            decreases self.lanes.len() - index,
        {
            into.push((self.lanes[index], lane_count));
            index += 1;
            assert(into@ =~= old(into)@ + Seq::new(
                index as nat,
                |i: int| (old(self).lanes[i], lane_count),
            ));
        }
        self.event_ends.clear();
        self.lanes.clear();
        self.lane_ends.clear();
        self.end = i64::MIN;
        assert(self.ends() =~= Seq::<int>::empty());
        assert(self.lanes() =~= Seq::<int>::empty());
    }

    /// Adds a member to the group, in a lane of the group or in a new one.
    fn push(&mut self, event_end: i64, lane: Lane)
        requires
            old(self).wf(),
            lane <= old(self).lane_ends.len(),
            lane < Lane::MAX,
            old(self).event_ends.len() == 0 ==> lane == 0,
        ensures
            final(self).wf(),
            final(self).ends() == old(self).ends().push(event_end as int),
            final(self).lanes() == old(self).lanes().push(lane as int),
            final(self).lane_ends.len() == if lane == old(self).lane_ends.len() {
                old(self).lane_ends.len() + 1
            } else {
                old(self).lane_ends.len() as int
            },
    {
        let ghost before = *self;
        if event_end > self.end {
            self.end = event_end;
        }
        self.event_ends.push(event_end);
        self.lanes.push(lane);
        if lane as usize == self.lane_ends.len() {
            self.lane_ends.push(event_end);
        } else if self.lane_ends[lane as usize] < event_end {
            self.lane_ends.set(lane as usize, event_end);
        }
        proof {
            let last = before.lanes.len() as int;
            assert(self.ends() =~= before.ends().push(event_end as int));
            assert(self.lanes() =~= before.lanes().push(lane as int));
            assert forall|i: int| 0 <= i < self.lanes.len() implies self.event_ends[i]
                <= self.lane_ends[(#[trigger] self.lanes[i]) as int] by {
                if i < last {
                    assert(self.lanes[i] == before.lanes[i]);
                }
            }
            assert forall|l: int| 0 <= l < self.lane_ends.len() implies #[trigger]
                self.lane_end_is_met(l) by {
                if l == lane && self.lane_ends[l] == event_end {
                    assert(self.lanes[last] == l && self.event_ends[last] == self.lane_ends[l]);
                } else {
                    assert(self.lane_ends[l] == before.lane_ends[l]);
                    assert(before.lane_end_is_met(l));
                    let i = choose|i: int|
                        0 <= i < before.lanes.len() && #[trigger] before.lanes[i] == l
                            && before.event_ends[i] == before.lane_ends[l];
                    assert(self.lanes[i] == l && self.event_ends[i] == self.lane_ends[l]);
                }
            }
            if self.end == event_end {
                assert(self.event_ends[last] == self.end);
            } else {
                let i = choose|i: int|
                    0 <= i < before.event_ends.len() && before.event_ends[i] == before.end;
                assert(self.event_ends[i] == self.end);
            }
        }
    }
}

/// The lane that an event that starts at `new_event_begin_minutes` takes in
/// the group, or `None` where a new lane has to be made.
fn find_free_lane(new_event_begin_minutes: i64, clash: &Clash) -> (lane: Option<Lane>)
    requires
        clash.wf(),
    ensures
        match lane {
            Some(lane) => free_lane(clash.ends(), clash.lanes(), new_event_begin_minutes as int)
                == Some(lane as int),
            None => free_lane(clash.ends(), clash.lanes(), new_event_begin_minutes as int)
                is None,
        },
{
    let ghost ends = clash.ends();
    let ghost lanes = clash.lanes();
    let ghost start = new_event_begin_minutes as int;
    proof {
        assert forall|j: int| 0 <= j < lanes.len() implies (lane_is_free(
            ends,
            lanes,
            #[trigger] lanes[j],
            start,
        ) <==> clash.lane_ends[clash.lanes[j] as int] <= start) by {
            lemma_lane_is_free(clash, clash.lanes[j] as int, start);
        }
    }
    let mut best: Option<usize> = None;
    let mut index: usize = 0;
    while index < clash.lanes.len()
        invariant
            clash.wf(),
            ends == clash.ends(),
            lanes == clash.lanes(),
            start == new_event_begin_minutes,
            index <= clash.lanes.len(),
            forall|j: int|
                0 <= j < lanes.len() ==> (lane_is_free(ends, lanes, #[trigger] lanes[j], start)
                    <==> clash.lane_ends[clash.lanes[j] as int] <= start),
            match best {
                Some(b) => {
                    &&& b < index
                    &&& lane_is_free(ends, lanes, lanes[b as int], start)
                    &&& forall|j: int|
                        0 <= j < index && lane_is_free(ends, lanes, #[trigger] lanes[j], start)
                            ==> ends[j] < ends[b as int] || (ends[j] == ends[b as int] && b <= j)
                },
                None => forall|j: int|
                    0 <= j < index ==> !lane_is_free(ends, lanes, #[trigger] lanes[j], start),
            },
        decreases clash.lanes.len() - index,
    {
        let lane: Lane = clash.lanes[index];
        assert(lanes[index as int] == lane);
        if clash.lane_ends[lane as usize] <= new_event_begin_minutes {
            let end: i64 = clash.event_ends[index];
            match best {
                None => {
                    best = Some(index);
                },
                Some(b) => {
                    if clash.event_ends[b] < end {
                        best = Some(index);
                    }
                },
            }
        }
        index += 1;
    }
    match best {
        Some(b) => {
            proof {
                assert(is_nearest_fit(ends, lanes, b as int, start));
                let chosen = choose|member: int| is_nearest_fit(ends, lanes, member, start);
                assert(lanes[chosen] == lanes[chosen]);
                assert(lanes[b as int] == lanes[b as int]);
                assert(chosen == b);
            }
            Some(clash.lanes[b])
        },
        None => {
            proof {
                assert forall|member: int| !is_nearest_fit(ends, lanes, member, start) by {
                    if 0 <= member < lanes.len() {
                        assert(!lane_is_free(ends, lanes, lanes[member], start));
                    }
                }
            }
            None
        },
    }
}

/// A lane of the group is free at `start` exactly where the latest end in it
/// is no later.
proof fn lemma_lane_is_free(clash: &Clash, lane: int, start: int)
    requires
        clash.wf(),
        0 <= lane < clash.lane_ends.len(),
    ensures
        lane_is_free(clash.ends(), clash.lanes(), lane, start) <==> clash.lane_ends[lane] <= start,
{
    let ends = clash.ends();
    let lanes = clash.lanes();
    if lane_is_free(ends, lanes, lane, start) {
        assert(clash.lane_end_is_met(lane));
        let i = choose|i: int|
            0 <= i < clash.lanes.len() && #[trigger] clash.lanes[i] == lane && clash.event_ends[i]
                == clash.lane_ends[lane];
        assert(lanes[i] == lane);
        assert(ends[i] <= start);
    }
    if clash.lane_ends[lane] <= start {
        assert forall|i: int| 0 <= i < lanes.len() && #[trigger] lanes[i] == lane implies ends[i]
            <= start by {
            assert(clash.lanes[i] == lane);
        }
    }
}

/// The minutes from the midnight that begins the day `origin` to `time` on
/// the day `date`.
pub open spec fn minutes_from(origin: Date, date: Date, time: Time) -> int {
    (date.day_number() - origin.day_number()) * 1440 + time.since_midnight()
}

/// `events` as the lane assignment sees them, in a week that begins on the
/// day `origin`.
pub open spec fn spans_of(events: Seq<Event>, origin: Date) -> Seq<Span> {
    Seq::new(
        events.len(),
        |i: int|
            Span {
                start: minutes_from(origin, events[i].start_date, events[i].start_time),
                end: minutes_from(origin, events[i].end_date, events[i].end_time),
                new_day: events[i].start_date != (if i == 0 {
                    origin
                } else {
                    events[i - 1].start_date
                }),
            },
    )
}

/// Whether `condition` can be called on anything and tells whether an event
/// overlaps a group: whether it starts before the group ends, and with
/// `day_rule`, does not begin a new day.
pub open spec fn decides_clash<F: Fn(bool, i64, i64) -> bool>(
    condition: F,
    day_rule: bool,
) -> bool {
    &&& forall|is_new_day: bool, event_start: i64, clash_end: i64|
        call_requires(condition, (is_new_day, event_start, clash_end))
    &&& forall|is_new_day: bool, event_start: i64, clash_end: i64, clash: bool|
        call_ensures(condition, (is_new_day, event_start, clash_end), clash) ==> clash == (
        event_start < clash_end && !(day_rule && is_new_day))
}

/// Short events overlap only within a day.
pub fn short_event_clash_condition(is_new_day: bool, event_start: i64, clash_end: i64) -> (clash:
    bool)
    ensures
        clash == (event_start < clash_end && !is_new_day),
{
    event_start < clash_end && !is_new_day
}

/// Long events overlap over the days.
pub fn long_event_clash_condition(_is_new_day: bool, event_start: i64, clash_end: i64) -> (clash:
    bool)
    ensures
        clash == (event_start < clash_end),
{
    event_start < clash_end
}

fn minutes_between(origin: &Date, date: &Date, time: &Time) -> (minutes: i64)
    requires
        origin.is_valid(),
        date.is_valid(),
    ensures
        minutes == minutes_from(*origin, *date, *time),
{
    proof {
        lemma_day_number_bounds(*origin);
        lemma_day_number_bounds(*date);
    }
    date.subtract(origin) as i64 * 1440 + time.minutes_from_midnight() as i64
}

/// Whether the group, the lanes handed out and the count of lanes are those
/// of the assignment after the first `count` of `spans`, and no group so far
/// took more lanes than a [`Lane`] can count.
spec fn tracks(
    clash: &Clash,
    done: Seq<(Lane, Lane)>,
    lane_count: Lane,
    spans: Seq<Span>,
    day_rule: bool,
    count: nat,
) -> bool {
    let state = placed(spans, day_rule, count);
    &&& same_lanes(done, state.done)
    &&& clash.ends() == state.ends
    &&& clash.lanes() == state.lanes
    &&& lane_count == state.lane_count
    &&& forall|n: nat|
        n <= count ==> (#[trigger] placed(spans, day_rule, n)).lane_count <= Lane::MAX
}

/// Assigns each event its lane and the number of lanes of its group, or
/// `None` where a group takes more than 255 lanes.
///
/// `events` are taken in the order they come in, which should be the order of
/// their start. `condition` is [`short_event_clash_condition`] or
/// [`long_event_clash_condition`].
pub fn checked_find_clashes<F: Fn(bool, i64, i64) -> bool>(
    events: &[Event],
    start_date: &Date,
    condition: F,
) -> (r: Option<Vec<(Lane, Lane)>>)
    requires
        start_date.is_valid(),
        forall|i: int| 0 <= i < events.len() ==> (#[trigger] events[i]).has_valid_dates(),
        decides_clash(condition, true) || decides_clash(condition, false),
    ensures
        forall|day_rule: bool| #[trigger]
            decides_clash(condition, day_rule) ==> match r {
                Some(lanes) => {
                    &&& lanes_fit(spans_of(events@, *start_date), day_rule)
                    &&& same_lanes(lanes@, assign_lanes(spans_of(events@, *start_date), day_rule))
                },
                None => !lanes_fit(spans_of(events@, *start_date), day_rule),
            },
        r matches Some(lanes) ==> lanes.len() == events.len(),
{
    let ghost spans = spans_of(events@, *start_date);
    let mut last_clash = Clash::new();
    let mut current_date: Date = *start_date;
    let mut lane_count: Lane = 0;
    let mut ret: Vec<(Lane, Lane)> = Vec::new();
    let mut index: usize = 0;
    while index < events.len()
        invariant
            start_date.is_valid(),
            forall|i: int| 0 <= i < events.len() ==> (#[trigger] events[i]).has_valid_dates(),
            decides_clash(condition, true) || decides_clash(condition, false),
            spans == spans_of(events@, *start_date),
            index <= events.len(),
            last_clash.wf(),
            lane_count == last_clash.lane_ends.len(),
            current_date == (if index == 0 {
                *start_date
            } else {
                events[index - 1].start_date
            }),
            forall|day_rule: bool| #[trigger]
                decides_clash(condition, day_rule) ==> tracks(
                    &last_clash,
                    ret@,
                    lane_count,
                    spans,
                    day_rule,
                    index as nat,
                ),
        decreases events.len() - index,
    {
        let event: &Event = &events[index];
        let ghost span = spans[index as int];
        let ghost before = last_clash;
        let ghost done_before = ret@;
        let ghost count_before = lane_count;
        let total_event_start: i64 = minutes_between(
            start_date,
            &event.start_date,
            &event.start_time,
        );
        let total_event_end: i64 = minutes_between(start_date, &event.end_date, &event.end_time);
        let is_new_day: bool = event.start_date != current_date;
        if is_new_day {
            current_date = event.start_date;
        }
        let has_collision: bool = condition(is_new_day, total_event_start, last_clash.end);
        proof {
            assert(span.start == total_event_start && span.end == total_event_end && span.new_day
                == is_new_day);
            assert((exists|i: int|
                0 <= i < before.ends().len() && span.start < #[trigger] before.ends()[i])
                <==> total_event_start < before.end) by {
                if total_event_start < before.end {
                    let i = choose|i: int|
                        0 <= i < before.event_ends.len() && #[trigger] before.event_ends[i]
                            == before.end;
                    assert(span.start < before.ends()[i]);
                }
            }
        }
        let rect_lane: Lane = if has_collision {
            match find_free_lane(total_event_start, &last_clash) {
                // All lanes are busy, creating new one.
                None => {
                    if lane_count == Lane::MAX {
                        proof {
                            assert forall|day_rule: bool| #[trigger]
                                decides_clash(condition, day_rule) implies !lanes_fit(
                                spans,
                                day_rule,
                            ) by {
                                let state = placed(spans, day_rule, index as nat);
                                let next = placed(spans, day_rule, (index + 1) as nat);
                                assert(next == state.place(span, day_rule));
                                assert(next.lane_count == Lane::MAX + 1);
                            }
                        }
                        return None;
                    }
                    let lane: Lane = lane_count;
                    lane_count = lane_count + 1;
                    lane
                },
                Some(lane) => lane,
            }
        } else {
            last_clash.flush(&mut ret, lane_count);
            lane_count = 1;
            0
        };
        last_clash.push(total_event_end, rect_lane);
        proof {
            assert forall|day_rule: bool| #[trigger]
                decides_clash(condition, day_rule) implies tracks(
                &last_clash,
                ret@,
                lane_count,
                spans,
                day_rule,
                (index + 1) as nat,
            ) by {
                let state = placed(spans, day_rule, index as nat);
                let next = placed(spans, day_rule, (index + 1) as nat);
                assert(next == state.place(span, day_rule));
                assert(tracks(&before, done_before, count_before, spans, day_rule, index as nat));
                assert(has_collision == collides(state.ends, span, day_rule));
                if !has_collision {
                    assert(ret@ == done_before + Seq::new(
                        before.lanes.len() as nat,
                        |i: int| (before.lanes[i], count_before),
                    ));
                    assert(same_lanes(ret@, state.flushed()));
                    assert(last_clash.ends() =~= seq![span.end]);
                    assert(last_clash.lanes() =~= seq![0int]);
                }
                assert forall|n: nat| n <= index + 1 implies (#[trigger] placed(
                    spans,
                    day_rule,
                    n,
                )).lane_count <= Lane::MAX by {
                    if n <= index {
                    }
                }
            }
        }
        index += 1;
    }
    last_clash.flush(&mut ret, lane_count);
    proof {
        assert forall|day_rule: bool| #[trigger]
            decides_clash(condition, day_rule) implies lanes_fit(spans, day_rule) && same_lanes(
            ret@,
            assign_lanes(spans, day_rule),
        ) by {
            assert(spans.len() == index);
        }
        lemma_lane_for_each(spans, true);
        lemma_lane_for_each(spans, false);
    }
    Some(ret)
}

/// Assigns each event its lane and the number of lanes of its group.
///
/// `events` are taken in the order they come in, which should be the order of
/// their start. `condition` is [`short_event_clash_condition`] or
/// [`long_event_clash_condition`].
pub fn find_clashes<F: Fn(bool, i64, i64) -> bool>(
    events: &[Event],
    start_date: &Date,
    condition: F,
) -> (lanes: Vec<(Lane, Lane)>)
    requires
        start_date.is_valid(),
        forall|i: int| 0 <= i < events.len() ==> (#[trigger] events[i]).has_valid_dates(),
        decides_clash(condition, true) || decides_clash(condition, false),
        forall|day_rule: bool| #[trigger]
            decides_clash(condition, day_rule) ==> lanes_fit(
                spans_of(events@, *start_date),
                day_rule,
            ),
    ensures
        forall|day_rule: bool| #[trigger]
            decides_clash(condition, day_rule) ==> same_lanes(
                lanes@,
                assign_lanes(spans_of(events@, *start_date), day_rule),
            ),
        lanes.len() == events.len(),
{
    match checked_find_clashes(events, start_date, condition) {
        Some(lanes) => lanes,
        None => vstd::pervasive::unreached(),
    }
}

/// Whether `spans` come in the order of their start.
pub open spec fn in_order_of_start(spans: Seq<Span>) -> bool {
    forall|a: int, b: int|
        0 <= a < b < spans.len() ==> (#[trigger] spans[a]).start <= (#[trigger] spans[b]).start
}

/// Whether every one of `spans` that begins a new day starts when all before
/// it have ended.
pub open spec fn new_days_start_clear(spans: Seq<Span>) -> bool {
    forall|a: int, b: int|
        0 <= a < b < spans.len() && (#[trigger] spans[b]).new_day ==> (#[trigger] spans[a]).end
            <= spans[b].start
}

impl Assignment {
    /// The lane of the event at `index`, in a closed group or in the open
    /// one.
    pub open spec fn lane_at(self, index: int) -> int {
        if index < self.done.len() {
            self.done[index].0
        } else {
            self.lanes[index - self.done.len()]
        }
    }

    /// What holds of the assignment after the first `count` of `spans`: the
    /// members of the open group are the last events, all events of closed
    /// groups have ended when a member of the open group starts, two events
    /// with one lane never overlap, and every lane lies below the number of
    /// lanes of its group.
    spec fn is_orderly(self, spans: Seq<Span>, count: nat) -> bool {
        let closed = self.done.len() as int;
        &&& closed + self.lanes.len() == count
        &&& self.ends.len() == self.lanes.len()
        &&& forall|k: int|
            0 <= k < self.ends.len() ==> #[trigger] self.ends[k] == spans[closed + k].end
        &&& forall|a: int, b: int|
            0 <= a < closed <= b < count ==> (#[trigger] spans[a]).end <= (
            #[trigger] spans[b]).start
        &&& forall|p: int, q: int|
            0 <= p < q < count && #[trigger] self.lane_at(p) == #[trigger] self.lane_at(q)
                ==> spans[p].end <= spans[q].start
    }

    /// Whether every lane lies below the number of lanes of its group.
    spec fn is_counted(self) -> bool {
        &&& self.ends.len() == self.lanes.len()
        &&& 0 <= self.lane_count <= self.lanes.len()
        &&& forall|k: int|
            0 <= k < self.lanes.len() ==> 0 <= #[trigger] self.lanes[k] < self.lane_count
        &&& forall|k: int|
            0 <= k < self.done.len() ==> 0 <= (#[trigger] self.done[k]).0 < self.done[k].1
    }
}

/// The lane that an event takes in a group is the lane of a member, and all
/// members in it have ended when the event starts.
proof fn lemma_free_lane(ends: Seq<int>, lanes: Seq<int>, start: int)
    ensures
        free_lane(ends, lanes, start) matches Some(lane) ==> lane_is_free(ends, lanes, lane, start)
            && exists|member: int| 0 <= member < lanes.len() && #[trigger] lanes[member] == lane,
{
    if exists|member: int| is_nearest_fit(ends, lanes, member, start) {
        let member = choose|member: int| is_nearest_fit(ends, lanes, member, start);
        assert(lanes[member] == free_lane(ends, lanes, start).unwrap());
    }
}

/// Every lane handed out lies below the number of lanes of its group.
proof fn lemma_placed_is_counted(spans: Seq<Span>, day_rule: bool, count: nat)
    requires
        count <= spans.len(),
    ensures
        placed(spans, day_rule, count).is_counted(),
        placed(spans, day_rule, count).done.len() + placed(spans, day_rule, count).lanes.len()
            == count,
    decreases count,
{
    if count > 0 {
        lemma_placed_is_counted(spans, day_rule, (count - 1) as nat);
        let state = placed(spans, day_rule, (count - 1) as nat);
        let span = spans[count - 1];
        let next = state.place(span, day_rule);
        lemma_free_lane(state.ends, state.lanes, span.start);
        if !collides(state.ends, span, day_rule) {
            assert forall|k: int| 0 <= k < next.done.len() implies 0 <= (#[trigger] next.done[k]).0
                < next.done[k].1 by {
                if k >= state.done.len() {
                    assert(next.done[k] == (
                        state.lanes[k - state.done.len()],
                        state.lane_count,
                    ));
                } else {
                    assert(next.done[k] == state.done[k]);
                }
            }
        } else {
            assert forall|k: int| 0 <= k < next.lanes.len() implies 0 <= #[trigger] next.lanes[k]
                < next.lane_count by {
                if k < state.lanes.len() {
                    assert(next.lanes[k] == state.lanes[k]);
                } else if free_lane(state.ends, state.lanes, span.start) is Some {
                    let lane = free_lane(state.ends, state.lanes, span.start).unwrap();
                    let member = choose|member: int|
                        0 <= member < state.lanes.len() && #[trigger] state.lanes[member] == lane;
                    assert(0 <= state.lanes[member] < state.lane_count);
                }
            }
        }
    }
}

/// Two events with one lane never overlap, whatever the number of events
/// placed.
proof fn lemma_placed_is_orderly(spans: Seq<Span>, day_rule: bool, count: nat)
    requires
        count <= spans.len(),
        in_order_of_start(spans),
        day_rule ==> new_days_start_clear(spans),
    ensures
        placed(spans, day_rule, count).is_orderly(spans, count),
    decreases count,
{
    if count > 0 {
        let last = (count - 1) as nat;
        lemma_placed_is_orderly(spans, day_rule, last);
        let state = placed(spans, day_rule, last);
        let span = spans[count - 1];
        let next = state.place(span, day_rule);
        let closed = state.done.len() as int;
        lemma_free_lane(state.ends, state.lanes, span.start);
        if !collides(state.ends, span, day_rule) {
            assert forall|a: int| 0 <= a < last implies (#[trigger] spans[a]).end <= span.start by {
                if day_rule && span.new_day {
                } else if a < closed {
                    assert(spans[a].end <= spans[closed].start);
                } else {
                    assert(state.ends[a - closed] == spans[a].end);
                }
            }
            assert(next.done.len() == last);
            assert forall|p: int, q: int|
                0 <= p < q < count && #[trigger] next.lane_at(p) == #[trigger] next.lane_at(
                    q,
                ) implies spans[p].end <= spans[q].start by {
                if q < last {
                    assert(next.lane_at(p) == state.lane_at(p));
                    assert(next.lane_at(q) == state.lane_at(q));
                }
            }
            assert(next.is_orderly(spans, count));
        } else {
            assert(closed < last);
            assert forall|a: int| 0 <= a < closed implies (#[trigger] spans[a]).end
                <= span.start by {
                assert(spans[a].end <= spans[closed].start);
            }
            assert forall|p: int, q: int|
                0 <= p < q < count && #[trigger] next.lane_at(p) == #[trigger] next.lane_at(
                    q,
                ) implies spans[p].end <= spans[q].start by {
                if q < last {
                    assert(next.lane_at(p) == state.lane_at(p));
                    assert(next.lane_at(q) == state.lane_at(q));
                } else if p >= closed {
                    assert(next.lane_at(p) == state.lanes[p - closed]);
                    assert(state.ends[p - closed] == spans[p].end);
                    lemma_placed_is_counted(spans, day_rule, last);
                }
            }
            assert(next.is_orderly(spans, count));
        }
    }
}

/// Every event gets a lane: there are as many lanes as events.
pub proof fn lemma_lane_for_each(spans: Seq<Span>, day_rule: bool)
    ensures
        assign_lanes(spans, day_rule).len() == spans.len(),
{
    lemma_placed_is_counted(spans, day_rule, spans.len());
}

/// A group takes no more lanes than it has events: the lanes of up to 255
/// events can always be counted by a [`Lane`].
pub proof fn lemma_few_events_fit(spans: Seq<Span>, day_rule: bool)
    requires
        spans.len() <= Lane::MAX,
    ensures
        lanes_fit(spans, day_rule),
{
    assert forall|count: nat| count <= spans.len() implies (#[trigger] placed(
        spans,
        day_rule,
        count,
    )).lane_count <= Lane::MAX by {
        lemma_placed_is_counted(spans, day_rule, count);
    }
}

/// The lane of an event lies below the number of lanes of its group.
pub proof fn lemma_lane_below_total(spans: Seq<Span>, day_rule: bool, index: int)
    requires
        0 <= index < spans.len(),
    ensures
        assign_lanes(spans, day_rule).len() == spans.len(),
        0 <= assign_lanes(spans, day_rule)[index].0 < assign_lanes(spans, day_rule)[index].1,
{
    lemma_placed_is_counted(spans, day_rule, spans.len());
    let state = placed(spans, day_rule, spans.len());
    if index >= state.done.len() {
        assert(state.lanes[index - state.done.len()] < state.lane_count);
    }
}

/// Of two events that got the same lane, the earlier has ended when the later
/// starts: events in one lane never overlap. This holds of events that come
/// in the order of their start; where events of different days never share a
/// group, it takes that an event of a new day starts after all before it
/// have ended.
pub proof fn lemma_same_lane_never_overlaps(
    spans: Seq<Span>,
    day_rule: bool,
    earlier: int,
    later: int,
)
    requires
        in_order_of_start(spans),
        day_rule ==> new_days_start_clear(spans),
        0 <= earlier < later < spans.len(),
        assign_lanes(spans, day_rule)[earlier].0 == assign_lanes(spans, day_rule)[later].0,
    ensures
        spans[earlier].end <= spans[later].start,
{
    lemma_placed_is_orderly(spans, day_rule, spans.len());
    let state = placed(spans, day_rule, spans.len());
    assert(assign_lanes(spans, day_rule)[earlier].0 == state.lane_at(earlier));
    assert(assign_lanes(spans, day_rule)[later].0 == state.lane_at(later));
}

/// Whether the events from `first` to `last` belong to one group: each of
/// them after the first overlapped the group that was open when it came.
pub open spec fn in_one_group(spans: Seq<Span>, day_rule: bool, first: int, last: int) -> bool {
    &&& 0 <= first <= last < spans.len()
    &&& forall|k: int|
        first < k <= last ==> collides(
            (#[trigger] placed(spans, day_rule, k as nat)).ends,
            spans[k],
            day_rule,
        )
}

impl Assignment {
    /// The number of lanes of the group of the event at `index`, in a closed
    /// group or in the open one.
    pub open spec fn total_at(self, index: int) -> int {
        if index < self.done.len() {
            self.done[index].1
        } else {
            self.lane_count
        }
    }

    /// What holds of the groups after the first `count` of `spans`: the
    /// members of the open group are the last events and form one group,
    /// events of one group share the number of lanes, and in each group an
    /// event has the lane just below that number.
    spec fn is_grouped(self, spans: Seq<Span>, day_rule: bool, count: nat) -> bool {
        let closed = self.done.len() as int;
        &&& closed + self.lanes.len() == count
        &&& count > 0 ==> closed < count && in_one_group(spans, day_rule, closed, count - 1)
        &&& forall|first: int, last: int|
            #![trigger in_one_group(spans, day_rule, first, last)]
            last < count && in_one_group(spans, day_rule, first, last) ==> {
                &&& last >= closed ==> first >= closed
                &&& self.total_at(first) == self.total_at(last)
            }
        &&& forall|index: int|
            0 <= index < count ==> #[trigger] self.top_lane_is_taken(spans, day_rule, index, count)
    }

    /// Whether an event of the group of the event at `index` has the lane
    /// just below the number of lanes of the group.
    spec fn top_lane_is_taken(
        self,
        spans: Seq<Span>,
        day_rule: bool,
        index: int,
        count: nat,
    ) -> bool {
        exists|other: int|
            0 <= other < count && #[trigger] self.lane_at(other) + 1 == self.total_at(index) && (
            in_one_group(spans, day_rule, index, other) || in_one_group(
                spans,
                day_rule,
                other,
                index,
            ))
    }
}

/// A part of a group is a group.
proof fn lemma_part_of_group(
    spans: Seq<Span>,
    day_rule: bool,
    first: int,
    last: int,
    from: int,
    to: int,
)
    requires
        in_one_group(spans, day_rule, first, last),
        first <= from <= to <= last,
    ensures
        in_one_group(spans, day_rule, from, to),
{
}

/// Events of one group share the number of lanes, and one of them has the
/// lane just below it, whatever the number of events placed.
proof fn lemma_placed_is_grouped(spans: Seq<Span>, day_rule: bool, count: nat)
    requires
        count <= spans.len(),
    ensures
        placed(spans, day_rule, count).is_grouped(spans, day_rule, count),
    decreases count,
{
    if count > 0 {
        let last = (count - 1) as nat;
        lemma_placed_is_grouped(spans, day_rule, last);
        lemma_placed_is_counted(spans, day_rule, last);
        let state = placed(spans, day_rule, last);
        let span = spans[count - 1];
        let next = state.place(span, day_rule);
        let closed = state.done.len() as int;
        let joins = collides(state.ends, span, day_rule);
        assert(in_one_group(spans, day_rule, last as int, last as int));
        if joins {
            assert(last > 0) by {
                if last == 0 {
                    assert(state.ends.len() == 0);
                }
            }
            assert(in_one_group(spans, day_rule, closed, last as int)) by {
                assert forall|k: int| closed < k <= last implies collides(
                    (#[trigger] placed(spans, day_rule, k as nat)).ends,
                    spans[k],
                    day_rule,
                ) by {
                    if k < last {
                        assert(in_one_group(spans, day_rule, closed, last - 1));
                    }
                }
            }
        }
        assert forall|first: int, end: int|
            #![trigger in_one_group(spans, day_rule, first, end)]
            end < count && in_one_group(spans, day_rule, first, end) implies {
            &&& end >= next.done.len() ==> first >= next.done.len()
            &&& next.total_at(first) == next.total_at(end)
        } by {
            if end == last && first < last {
                assert(joins);
                lemma_part_of_group(spans, day_rule, first, end, first, last - 1);
            } else if end < last {
                assert(state.total_at(first) == state.total_at(end));
                if !joins {
                    if first >= closed {
                        assert(next.done[first] == (state.lanes[first - closed], state.lane_count));
                    } else {
                        assert(next.done[first] == state.done[first]);
                    }
                    if end >= closed {
                        assert(next.done[end] == (state.lanes[end - closed], state.lane_count));
                    } else {
                        assert(next.done[end] == state.done[end]);
                    }
                }
            }
        }
        assert forall|index: int| 0 <= index < count implies #[trigger] next.top_lane_is_taken(
            spans,
            day_rule,
            index,
            count,
        ) by {
            if !joins {
                if index == last {
                    assert(next.lane_at(last as int) + 1 == next.total_at(index));
                } else {
                    assert(state.top_lane_is_taken(spans, day_rule, index, last));
                    let other = choose|other: int|
                        0 <= other < last && #[trigger] state.lane_at(other) + 1 == state.total_at(
                            index,
                        ) && (in_one_group(spans, day_rule, index, other) || in_one_group(
                            spans,
                            day_rule,
                            other,
                            index,
                        ));
                    if index >= closed {
                        assert(next.done[index] == (state.lanes[index - closed], state.lane_count));
                    } else {
                        assert(next.done[index] == state.done[index]);
                    }
                    if other >= closed {
                        assert(next.done[other] == (state.lanes[other - closed], state.lane_count));
                    } else {
                        assert(next.done[other] == state.done[other]);
                    }
                    assert(next.lane_at(other) + 1 == next.total_at(index));
                }
            } else if free_lane(state.ends, state.lanes, span.start) is None && index >= closed {
                assert(next.lane_at(last as int) + 1 == next.total_at(index));
                lemma_part_of_group(spans, day_rule, closed, last as int, index, last as int);
            } else if index == last {
                assert(state.top_lane_is_taken(spans, day_rule, closed, last));
                let other = choose|other: int|
                    0 <= other < last && #[trigger] state.lane_at(other) + 1 == state.total_at(
                        closed,
                    ) && (in_one_group(spans, day_rule, closed, other) || in_one_group(
                        spans,
                        day_rule,
                        other,
                        closed,
                    ));
                assert(other >= closed) by {
                    if in_one_group(spans, day_rule, other, closed) {
                    }
                }
                assert(next.lane_at(other) == state.lane_at(other));
                assert(next.lane_at(other) + 1 == next.total_at(index));
                lemma_part_of_group(spans, day_rule, closed, last as int, other, last as int);
            } else {
                assert(state.top_lane_is_taken(spans, day_rule, index, last));
                let other = choose|other: int|
                    0 <= other < last && #[trigger] state.lane_at(other) + 1 == state.total_at(
                        index,
                    ) && (in_one_group(spans, day_rule, index, other) || in_one_group(
                        spans,
                        day_rule,
                        other,
                        index,
                    ));
                assert(next.lane_at(other) == state.lane_at(other));
                assert(next.lane_at(other) + 1 == next.total_at(index));
            }
        }
        assert(next.is_grouped(spans, day_rule, count));
    }
}

/// The events of one group share the number of lanes.
pub proof fn lemma_group_shares_total(spans: Seq<Span>, day_rule: bool, first: int, last: int)
    requires
        in_one_group(spans, day_rule, first, last),
    ensures
        assign_lanes(spans, day_rule)[first].1 == assign_lanes(spans, day_rule)[last].1,
{
    lemma_placed_is_grouped(spans, day_rule, spans.len());
    lemma_placed_is_counted(spans, day_rule, spans.len());
    let state = placed(spans, day_rule, spans.len());
    assert(assign_lanes(spans, day_rule)[first].1 == state.total_at(first));
    assert(assign_lanes(spans, day_rule)[last].1 == state.total_at(last));
}

/// The number of lanes of a group is one more than the highest lane in it:
/// an event of the group of the event at `index` has the lane just below
/// that number. (No event has a lane above it: see
/// [`lemma_lane_below_total`].)
pub proof fn lemma_total_is_reached(spans: Seq<Span>, day_rule: bool, index: int)
    requires
        0 <= index < spans.len(),
    ensures
        exists|other: int|
            0 <= other < spans.len() && (#[trigger] assign_lanes(spans, day_rule)[other]).0 + 1
                == assign_lanes(spans, day_rule)[index].1 && (in_one_group(
                spans,
                day_rule,
                index,
                other,
            ) || in_one_group(spans, day_rule, other, index)),
{
    lemma_placed_is_grouped(spans, day_rule, spans.len());
    lemma_placed_is_counted(spans, day_rule, spans.len());
    let state = placed(spans, day_rule, spans.len());
    let assigned = assign_lanes(spans, day_rule);
    assert(state.top_lane_is_taken(spans, day_rule, index, spans.len()));
    let other = choose|other: int|
        0 <= other < spans.len() && #[trigger] state.lane_at(other) + 1 == state.total_at(index)
            && (in_one_group(spans, day_rule, index, other) || in_one_group(
            spans,
            day_rule,
            other,
            index,
        ));
    assert(assigned[other].0 == state.lane_at(other));
    assert(assigned[index].1 == state.total_at(index));
}

/// Of two events that belong to different groups, the earlier has ended when
/// the later starts: groups never overlap. This holds of events that come in
/// the order of their start; where events of different days never share a
/// group, it takes that an event of a new day starts after all before it
/// have ended.
pub proof fn lemma_groups_never_overlap(
    spans: Seq<Span>,
    day_rule: bool,
    earlier: int,
    later: int,
)
    requires
        in_order_of_start(spans),
        day_rule ==> new_days_start_clear(spans),
        0 <= earlier < later < spans.len(),
        !in_one_group(spans, day_rule, earlier, later),
    ensures
        spans[earlier].end <= spans[later].start,
{
    let k = choose|k: int|
        earlier < k <= later && !collides(
            (#[trigger] placed(spans, day_rule, k as nat)).ends,
            spans[k],
            day_rule,
        );
    let state = placed(spans, day_rule, k as nat);
    let closed = state.done.len() as int;
    lemma_placed_is_orderly(spans, day_rule, k as nat);
    lemma_placed_is_grouped(spans, day_rule, k as nat);
    assert(spans[earlier].end <= spans[k].start) by {
        if day_rule && spans[k].new_day {
        } else if earlier < closed {
            assert(spans[earlier].end <= spans[closed].start);
            assert(spans[closed].start <= spans[k].start);
        } else {
            assert(state.ends[earlier - closed] == spans[earlier].end);
        }
    }
    if k < later {
        assert(spans[k].start <= spans[later].start);
    }
}

/// Among short events in the order of their start, one that begins a new
/// day starts after all before it have ended.
pub proof fn lemma_new_day_starts_clear(events: Seq<Event>, origin: Date, a: int, b: int)
    requires
        forall|i: int|
            0 <= i < events.len() ==> {
                &&& (#[trigger] events[i]).has_valid_dates()
                &&& events[i].start_date == events[i].end_date
                &&& events[i].start_time.is_valid()
                &&& events[i].end_time.is_valid()
            },
        in_order_of_start(spans_of(events, origin)),
        0 <= a < b < events.len(),
        spans_of(events, origin)[b].new_day,
    ensures
        spans_of(events, origin)[a].end <= spans_of(events, origin)[b].start,
{
    let spans = spans_of(events, origin);
    let first = events[a];
    let before = events[b - 1];
    let second = events[b];
    assert(first.has_valid_dates() && before.has_valid_dates() && second.has_valid_dates());
    assert(first.end_time.is_valid() && first.start_time.is_valid());
    assert(before.start_time.is_valid() && second.start_time.is_valid());
    let day_first = first.start_date.day_number() - origin.day_number();
    let day_before = before.start_date.day_number() - origin.day_number();
    let day_second = second.start_date.day_number() - origin.day_number();
    assert(spans[a].start == day_first * 1440 + first.start_time.since_midnight());
    assert(spans[a].end == day_first * 1440 + first.end_time.since_midnight());
    assert(spans[b - 1].start == day_before * 1440 + before.start_time.since_midnight());
    assert(spans[b].start == day_second * 1440 + second.start_time.since_midnight());
    assert(spans[b - 1].start <= spans[b].start);
    assert(spans[a].start <= spans[b - 1].start) by {
        if a < b - 1 {
        }
    }
    assert(second.start_date != before.start_date);
    if day_second == day_before {
        lemma_same_day_number(second.start_date, before.start_date);
    }
    assert(day_first <= day_before < day_second);
}

/// Short events of a week, each within one day and in the order of their
/// start, never overlap where they share a lane: the earlier one has ended
/// when the later one starts.
pub proof fn lemma_short_events_never_overlap(
    events: Seq<Event>,
    origin: Date,
    earlier: int,
    later: int,
)
    requires
        forall|i: int|
            0 <= i < events.len() ==> {
                &&& (#[trigger] events[i]).has_valid_dates()
                &&& events[i].start_date == events[i].end_date
                &&& events[i].start_time.is_valid()
                &&& events[i].end_time.is_valid()
            },
        in_order_of_start(spans_of(events, origin)),
        0 <= earlier < later < events.len(),
        assign_lanes(spans_of(events, origin), true)[earlier].0 == assign_lanes(
            spans_of(events, origin),
            true,
        )[later].0,
    ensures
        minutes_from(origin, events[earlier].end_date, events[earlier].end_time) <= minutes_from(
            origin,
            events[later].start_date,
            events[later].start_time,
        ),
{
    let spans = spans_of(events, origin);
    assert forall|a: int, b: int|
        0 <= a < b < spans.len() && (#[trigger] spans[b]).new_day implies (#[trigger] spans[a]).end
        <= spans[b].start by {
        lemma_new_day_starts_clear(events, origin, a, b);
    }
    lemma_same_lane_never_overlaps(spans, true, earlier, later);
}

} // verus!
