//! A time-based representation of all timing events, such as tempo
//! changes, stops, and measure-length changes. Each event is recorded
//! along with its measure and time, and the events are concatenated to
//! form a "timeline".
//!
//! Score positions are integer counts of millionths of a measure
//! (`MEASURE_SCALE` units per measure); tempos, measure lengths and stop
//! durations are integer counts of thousandths (`VALUE_SCALE` units per
//! unit value); times are integer milliseconds. A measure at tempo `bpm`
//! and length multiplier `length` lasts `240000 * length / bpm`
//! milliseconds.
//!
//! The timeline stores events that successively differ in either tempo
//! or length. A stop is represented by two events with the same measure
//! (and tempo and length) but different times: score position freezes
//! while time advances.
use crate::bms::{Alphanumeric, MEASURE_SCALE};
use vstd::prelude::*;
use vstd::arithmetic::div_mod::{
    lemma_div_basics, lemma_div_is_ordered, lemma_div_is_ordered_by_denominator,
    lemma_div_multiples_vanish,
};

verus! {

/// Upper bound (inclusive) on a score position a timeline event may
/// carry: one million measures.
pub const MEASURE_CAP: u64 = 1_000_000_000_000;

/// Upper bound (inclusive) on a stored tempo, length multiplier, stop
/// duration or speed factor, in thousandths: one million.
pub const VALUE_CAP: u64 = 1_000_000_000;

/// Upper bound (inclusive) on a stored event time in milliseconds.
pub const TIME_CAP: u128 = 1_000_000_000_000_000_000_000_000_000;

/// Upper bound (inclusive) on a time accepted by `measure_from_time`.
pub const TIME_QUERY_CAP: u128 = 10_000_000_000_000_000_000_000_000_000;

/// An event in the timeline. For every event that appears in the
/// timeline, a change in the length, tempo, and/or a stop occurs.
#[derive(Clone, Copy, Debug, Eq, PartialEq, Structural)]
pub struct Event {
    /// The time in milliseconds at which the event appears.
    pub time: u128,
    /// The score position at which the event appears, in millionths of a
    /// measure.
    pub measure: u64,
    /// The graphical y position at which the event appears, if the event
    /// were an object; in millionths of a position unit.
    pub pos: u128,
    /// The tempo of the event, in thousandths of a BPM.
    pub bpm: u64,
    /// The length multiplier of a measure in the current event, in
    /// thousandths.
    pub length: u64,
}

/// Field bounds every stored event satisfies.
pub open spec fn event_in_range(e: Event) -> bool {
    &&& 1 <= e.bpm <= VALUE_CAP
    &&& 1 <= e.length <= VALUE_CAP
    &&& e.measure <= MEASURE_CAP
    &&& e.time <= TIME_CAP
    &&& e.pos <= TIME_CAP
}

/// The time reached at score position `m` when advancing linearly from
/// event `e`: elapsed measures times `240000 / bpm` milliseconds per
/// measure, scaled by the measure-length multiplier. In scaled units the
/// elapsed time is `dm * 240000 * length / (1000000 * bpm)`.
pub open spec fn advance_time(e: Event, m: u64) -> int {
    e.time + ((m - e.measure) * 240_000 * e.length) / (1_000_000 * e.bpm)
}

/// The duration of a stop of `duration` scaled units at tempo `bpm`:
/// 192 units pause for one full measure, i.e. `240000 / bpm`
/// milliseconds. In scaled units that is `1250 * duration / bpm`.
pub open spec fn stop_ms(bpm: u64, duration: u64) -> int {
    (1250 * (duration as int)) / (bpm as int)
}

/// Relation between an event and its predecessor: measures never
/// decrease; an event at a new measure carries exactly the linearly
/// advanced time, while an event at the same measure only moves time
/// forward (the representation of a stop).
pub open spec fn chained_at(s: Seq<Event>, i: int) -> bool {
    &&& s[i].measure >= s[i - 1].measure
    &&& if s[i].measure == s[i - 1].measure {
        s[i].time >= s[i - 1].time
    } else {
        s[i].time == advance_time(s[i - 1], s[i].measure)
    }
}

/// Well-formedness of an event sequence: bounded fields, a zero time and
/// render position on the first event, and the chaining relation between
/// every pair of neighbours.
pub open spec fn events_ok(s: Seq<Event>) -> bool {
    &&& forall|i: int| 0 <= i < s.len() ==> #[trigger] event_in_range(s[i])
    &&& s.len() > 0 ==> s[0].time == 0 && s[0].pos == 0
    &&& forall|i: int| 1 <= i < s.len() ==> #[trigger] chained_at(s, i)
}

/// The event sequence after `add_event(measure, bpm, length)`: on an
/// empty timeline the seed event at time 0; otherwise a new event with
/// linearly advanced time, appended only when tempo or length actually
/// changes.
pub open spec fn model_add_event(s: Seq<Event>, measure: u64, bpm: u64, length: u64) -> Seq<
    Event,
> {
    if s.len() == 0 {
        s.push(Event { time: 0, measure, pos: 0, bpm, length })
    } else if s.last().bpm != bpm || s.last().length != length {
        s.push(
            Event {
                time: advance_time(s.last(), measure) as u128,
                measure,
                pos: 0,
                bpm,
                length,
            },
        )
    } else {
        s
    }
}

/// The event sequence after `add_stop_event(measure, stop_arg)`: a
/// snapshot event at the stop's measure when the last event lies at an
/// earlier measure, then a second event at the same measure whose time
/// is increased by the stop's duration.
pub open spec fn model_add_stop(s: Seq<Event>, measure: u64, stop_arg: u64) -> Seq<Event> {
    let e = s.last();
    let s1 = if e.measure != measure {
        s.push(
            Event {
                time: advance_time(e, measure) as u128,
                measure,
                pos: e.pos,
                bpm: e.bpm,
                length: e.length,
            },
        )
    } else {
        s
    };
    let e1 = s1.last();
    s1.push(
        Event {
            time: (e1.time + stop_ms(e1.bpm, stop_arg)) as u128,
            measure,
            pos: e1.pos,
            bpm: e1.bpm,
            length: e1.length,
        },
    )
}

/// The render position of event `i`: the prefix sum of
/// `dm * bpm * length` over the preceding segments, in scaled units.
pub open spec fn model_pos(s: Seq<Event>, i: int) -> int
    decreases i,
{
    if i <= 0 {
        0
    } else {
        model_pos(s, i - 1) + ((s[i].measure - s[i - 1].measure) * s[i - 1].bpm * s[i
            - 1].length) / 1_000_000
    }
}

/// The event sequence with every render position filled in.
pub open spec fn model_cache(s: Seq<Event>) -> Seq<Event> {
    Seq::new(s.len(), |i: int| Event { pos: model_pos(s, i) as u128, ..s[i] })
}

/// The index of the rightmost event whose measure is at most `m`
/// (assuming the first event's measure is), the segment a query at score
/// position `m` falls in. Ties on the measure resolve to the last event,
/// which lands past a stop's post-pause time.
pub open spec fn idx_at_measure(s: Seq<Event>, m: u64) -> int
    decreases s.len(),
{
    if s.len() <= 1 {
        0
    } else if s.last().measure <= m {
        s.len() - 1
    } else {
        idx_at_measure(s.drop_last(), m)
    }
}

/// The index of the rightmost event whose time is at most `t`.
pub open spec fn idx_at_time(s: Seq<Event>, t: u128) -> int
    decreases s.len(),
{
    if s.len() <= 1 {
        0
    } else if s.last().time <= t {
        s.len() - 1
    } else {
        idx_at_time(s.drop_last(), t)
    }
}

/// What `time_from_measure` returns: linear extrapolation from the
/// segment the score position falls in.
pub open spec fn model_time_from_measure(s: Seq<Event>, m: u64) -> int {
    advance_time(s[idx_at_measure(s, m)], m)
}

/// What `measure_from_time` returns: the frozen measure when the time
/// falls inside a stop pair, and linear extrapolation otherwise. The
/// extrapolated score position advances `bpm / (240000 * length)`
/// measures per millisecond; in scaled units that is
/// `1000000 * bpm / (240000 * 1000 * length)`, i.e.
/// `25 * bpm / (6 * length)`, millionths of a measure per millisecond.
pub open spec fn model_measure_from_time(s: Seq<Event>, t: u128) -> int {
    let i = idx_at_time(s, t);
    if i < s.len() - 1 && s[i + 1].measure == s[i].measure {
        s[i].measure as int
    } else {
        s[i].measure + ((t - s[i].time) * s[i].bpm * 25) / (6 * s[i].length)
    }
}

/// What `pos_from_measure` returns: the segment's cached render position
/// plus linear extrapolation, both scaled by the speed factor (in
/// thousandths).
pub open spec fn model_pos_from_measure(s: Seq<Event>, m: u64, speed: u64) -> int {
    let e = s[idx_at_measure(s, m)];
    (e.pos * speed) / 1000 + (((m - e.measure) * e.bpm * e.length) / 1_000_000) * speed / 1000
}

/// The timeline struct, which contains events in chronological order.
#[derive(Debug)]
pub struct Timeline {
    pub events: Vec<Event>,
}

impl Default for Timeline {
    fn default() -> (r: Self)
        ensures
            r.events@ =~= Seq::<Event>::empty(),
    {
        Timeline { events: Vec::new() }
    }
}

/// Measures and times never decrease along a well-formed event sequence.
pub proof fn lemma_events_sorted(s: Seq<Event>, i: int, j: int)
    requires
        events_ok(s),
        0 <= i <= j < s.len(),
    ensures
        s[i].measure <= s[j].measure,
        s[i].time <= s[j].time,
    decreases j - i,
{
    if i < j {
        lemma_events_sorted(s, i, j - 1);
        assert(chained_at(s, j));
        if s[j].measure != s[j - 1].measure {
            assert(s[j].time == advance_time(s[j - 1], s[j].measure));
            assert(event_in_range(s[j]) && event_in_range(s[j - 1]));
            lemma_advance_bounds(s[j - 1], s[j].measure);
        }
    }
}

/// The linearly advanced time never runs backwards, and it grows by at
/// most 240000000 milliseconds for each scaled measure unit (the rate at
/// the lowest representable tempo and the largest length multiplier).
pub proof fn lemma_advance_bounds(e: Event, m: u64)
    requires
        event_in_range(e),
        e.measure <= m,
        m <= MEASURE_CAP,
    ensures
        e.time <= advance_time(e, m),
        advance_time(e, m) - e.time <= (m - e.measure) * 240_000_000,
        0 <= (m - e.measure) * 240_000 * e.length <= 240_000_000_000_000_000_000_000_000,
{
    let dm = m - e.measure;
    let l = e.length as int;
    let b = e.bpm as int;
    assert(dm * 240_000 * l >= 0) by (nonlinear_arith)
        requires
            dm >= 0,
            l >= 1,
    ;
    lemma_div_is_ordered(0, dm * 240_000 * l, 1_000_000 * b);
    assert(dm * 240_000 * l <= (dm * 240_000_000) * 1_000_000) by (nonlinear_arith)
        requires
            dm >= 0,
            l <= 1_000_000_000,
    ;
    assert((dm * 240_000_000) * 1_000_000 >= 0) by (nonlinear_arith)
        requires
            dm >= 0,
    ;
    lemma_div_is_ordered(dm * 240_000 * l, (dm * 240_000_000) * 1_000_000, 1_000_000 * b);
    lemma_div_is_ordered_by_denominator((dm * 240_000_000) * 1_000_000, 1_000_000, 1_000_000 * b);
    assert((dm * 240_000_000) * 1_000_000 == 1_000_000 * (dm * 240_000_000)) by (nonlinear_arith);
    lemma_div_multiples_vanish(dm * 240_000_000, 1_000_000);
}

/// Appending an in-range event that chains onto the last one preserves
/// well-formedness of the event sequence.
pub proof fn lemma_events_ok_push(s: Seq<Event>, e: Event)
    requires
        events_ok(s),
        event_in_range(e),
        s.len() == 0 ==> e.time == 0 && e.pos == 0,
        s.len() > 0 ==> chained_at(s.push(e), s.len() as int),
    ensures
        events_ok(s.push(e)),
{
    let s2 = s.push(e);
    assert forall|k: int| 1 <= k < s2.len() implies #[trigger] chained_at(s2, k) by {
        if k < s.len() {
            assert(chained_at(s, k));
            assert(s2[k] == s[k]);
            assert(s2[k - 1] == s[k - 1]);
        }
    }
    assert forall|k: int| 0 <= k < s2.len() implies #[trigger] event_in_range(s2[k]) by {
        if k < s.len() {
            assert(event_in_range(s[k]));
        }
    }
}

/// Division by a positive denominator keeps a nonnegative numerator's
/// quotient between zero and the numerator.
pub proof fn lemma_div_le(num: int, den: int)
    requires
        num >= 0,
        den >= 1,
    ensures
        0 <= num / den <= num,
{
    lemma_div_is_ordered(0, num, den);
    lemma_div_is_ordered_by_denominator(num, 1, den);
    lemma_div_basics(num);
}

/// A stop's duration in milliseconds is nonnegative and at most
/// 1250 milliseconds per scaled duration unit.
pub proof fn lemma_stop_ms_bounds(bpm: u64, duration: u64)
    requires
        1 <= bpm,
        duration <= VALUE_CAP,
    ensures
        0 <= stop_ms(bpm, duration) <= 1_250_000_000_000,
{
    lemma_div_le(1250 * (duration as int), bpm as int);
}

/// Render positions are nonnegative and bounded by the measure they are
/// reached at, times the largest representable rate.
pub proof fn lemma_model_pos_bounds(s: Seq<Event>, i: int)
    requires
        events_ok(s),
        0 <= i < s.len(),
    ensures
        0 <= model_pos(s, i) <= s[i].measure * 1_000_000_000_000,
    decreases i,
{
    let m1 = s[i].measure as int;
    if i == 0 {
        assert(m1 * 1_000_000_000_000 >= 0) by (nonlinear_arith)
            requires
                m1 >= 0,
        ;
    } else {
        lemma_model_pos_bounds(s, i - 1);
        assert(chained_at(s, i));
        assert(event_in_range(s[i - 1]));
        let m0 = s[i - 1].measure as int;
        let dm = m1 - m0;
        let b = s[i - 1].bpm as int;
        let l = s[i - 1].length as int;
        assert(0 <= dm * b * l) by (nonlinear_arith)
            requires
                dm >= 0,
                1 <= b,
                1 <= l,
        ;
        assert(dm * b * l <= (dm * 1_000_000_000_000) * 1_000_000) by (nonlinear_arith)
            requires
                dm >= 0,
                1 <= b <= 1_000_000_000,
                1 <= l <= 1_000_000_000,
        ;
        lemma_div_is_ordered(0, dm * b * l, 1_000_000);
        lemma_div_is_ordered(dm * b * l, (dm * 1_000_000_000_000) * 1_000_000, 1_000_000);
        assert((dm * 1_000_000_000_000) * 1_000_000 == 1_000_000 * (dm * 1_000_000_000_000))
            by (nonlinear_arith);
        lemma_div_multiples_vanish(dm * 1_000_000_000_000, 1_000_000);
        assert(model_pos(s, i) <= m0 * 1_000_000_000_000 + dm * 1_000_000_000_000);
        assert(m0 * 1_000_000_000_000 + dm * 1_000_000_000_000 == m1 * 1_000_000_000_000)
            by (nonlinear_arith)
            requires
                dm == m1 - m0,
        ;
    }
}

impl Timeline {
    /// A timeline is well formed when its events are well formed, at
    /// least one event exists, and the first event sits at measure 0.
    /// Every timeline the builder produces is well formed.
    pub open spec fn wf(&self) -> bool {
        &&& events_ok(self.events@)
        &&& self.events@.len() >= 1
        &&& self.events@[0].measure == 0
    }

    /// Return the last event in its raw Event struct form.
    pub fn last_event(&self) -> (r: &Event)
        requires
            self.events@.len() >= 1,
        ensures
            *r == self.events@.last(),
    {
        &self.events[self.events.len() - 1]
    }

    /// Add a new event given as measure, tempo and length. The event is
    /// appended only when it is an actual update (new tempo or new
    /// length); its time advances linearly from the previous event.
    pub fn add_event(&mut self, measure: u64, bpm: u64, length: u64)
        requires
            events_ok(old(self).events@),
            1 <= bpm <= VALUE_CAP,
            1 <= length <= VALUE_CAP,
            measure <= MEASURE_CAP,
            old(self).events@.len() > 0 ==> measure >= old(self).events@.last().measure
                && advance_time(old(self).events@.last(), measure) <= TIME_CAP,
        ensures
            final(self).events@ == model_add_event(old(self).events@, measure, bpm, length),
            events_ok(final(self).events@),
    {
        let ghost s0 = self.events@;
        if self.events.len() == 0 {
            self.events.push(Event { time: 0, measure, pos: 0, bpm, length });
            proof {
                lemma_events_ok_push(s0, Event { time: 0, measure, pos: 0, bpm, length });
            }
        } else {
            let last = *self.last_event();
            if last.bpm != bpm || last.length != length {
                proof {
                    assert(event_in_range(last));
                    lemma_advance_bounds(last, measure);
                }
                let dm = measure - last.measure;
                let time = last.time + (dm as u128) * 240_000 * (last.length as u128) / (
                1_000_000u128 * (last.bpm as u128));
                self.events.push(Event { time, measure, pos: 0, bpm, length });
                proof {
                    assert(chained_at(self.events@, s0.len() as int));
                    lemma_events_ok_push(s0, Event { time, measure, pos: 0, bpm, length });
                }
            }
        }
    }

    /// Add a new stop event; only time changes between the appended
    /// event and the last one. The `stop_arg` parameter is the stop's
    /// duration in scaled units (after its alphanumeric mapping has been
    /// resolved): 192000 scaled units pause for one full measure at the
    /// current tempo.
    pub fn add_stop_event(&mut self, measure: u64, stop_arg: u64)
        requires
            events_ok(old(self).events@),
            old(self).events@.len() >= 1,
            measure <= MEASURE_CAP,
            1 <= stop_arg <= VALUE_CAP,
            measure >= old(self).events@.last().measure,
            advance_time(old(self).events@.last(), measure) + stop_ms(
                old(self).events@.last().bpm,
                stop_arg,
            ) <= TIME_CAP,
        ensures
            final(self).events@ == model_add_stop(old(self).events@, measure, stop_arg),
            events_ok(final(self).events@),
            final(self).events@.len() >= 2,
    {
        let ghost s0 = self.events@;
        let last = *self.last_event();
        proof {
            assert(event_in_range(last));
            lemma_advance_bounds(last, measure);
            lemma_stop_ms_bounds(last.bpm, stop_arg);
        }
        if last.measure != measure {
            // Append an event that snapshots the current tempo and the
            // normally advanced time, materializing the instant the
            // pause begins.
            let dm = measure - last.measure;
            let time = last.time + (dm as u128) * 240_000 * (last.length as u128) / (
            1_000_000u128 * (last.bpm as u128));
            self.events.push(
                Event { time, measure, pos: last.pos, bpm: last.bpm, length: last.length },
            );
            proof {
                assert(chained_at(self.events@, s0.len() as int));
                lemma_events_ok_push(
                    s0,
                    Event { time, measure, pos: last.pos, bpm: last.bpm, length: last.length },
                );
            }
        }
        // Now add the stop event, which has the same measure, tempo and
        // length as the last event, but additional time proportional to
        // `stop_arg`.
        let last2 = *self.last_event();
        let ghost s1 = self.events@;
        proof {
            if last.measure == measure {
                assert((measure - last.measure) * 240_000 * (last.length as int) == 0)
                    by (nonlinear_arith)
                    requires
                        measure == last.measure,
                ;
                lemma_div_le(
                    (measure - last.measure) * 240_000 * (last.length as int),
                    1_000_000 * (last.bpm as int),
                );
                assert(advance_time(last, measure) == last.time);
            }
            assert(last2.time + stop_ms(last2.bpm, stop_arg) <= TIME_CAP);
            lemma_stop_ms_bounds(last2.bpm, stop_arg);
        }
        let time2 = last2.time + 1250u128 * (stop_arg as u128) / (last2.bpm as u128);
        self.events.push(
            Event {
                time: time2,
                measure,
                pos: last2.pos,
                bpm: last2.bpm,
                length: last2.length,
            },
        );
        proof {
            assert(last2.measure == measure);
            assert(chained_at(self.events@, s1.len() as int));
            lemma_events_ok_push(
                s1,
                Event {
                    time: time2,
                    measure,
                    pos: last2.pos,
                    bpm: last2.bpm,
                    length: last2.length,
                },
            );
            assert(self.events@ == model_add_stop(s0, measure, stop_arg));
        }
    }

    /// Cache the render position of each event as the prefix sum of the
    /// preceding segments' `dm * bpm * length` products.
    pub fn cache_event_pos(&mut self)
        requires
            events_ok(old(self).events@),
        ensures
            final(self).events@ == model_cache(old(self).events@),
            events_ok(final(self).events@),
    {
        let ghost s0 = self.events@;
        let n = self.events.len();
        let mut i: usize = 1;
        proof {
            if n > 0 {
                lemma_model_pos_bounds(s0, 0);
            }
        }
        while i < n
            invariant
                1 <= i,
                n == self.events@.len() == s0.len(),
                events_ok(s0),
                forall|j: int| 0 <= j < i && j < n ==> self.events@[j] == #[trigger] model_cache(
                    s0,
                )[j],
                forall|j: int| i <= j < n ==> self.events@[j] == s0[j],
            decreases n - i,
        {
            let prev = self.events[i - 1];
            let cur = self.events[i];
            proof {
                lemma_model_pos_bounds(s0, i - 1);
                lemma_model_pos_bounds(s0, i as int);
                assert(chained_at(s0, i as int));
                assert(self.events@[i - 1] == model_cache(s0)[i - 1]);
                assert(prev.pos == model_pos(s0, i - 1));
                assert(event_in_range(s0[i - 1]) && event_in_range(s0[i as int]));
                let dmi = cur.measure - prev.measure;
                let b = prev.bpm as int;
                let l = prev.length as int;
                assert(0 <= dmi * b && dmi * b <= 1_000_000_000_000_000_000_000)
                    by (nonlinear_arith)
                    requires
                        0 <= dmi <= 1_000_000_000_000,
                        0 <= b <= 1_000_000_000,
                ;
                assert(0 <= dmi * b * l && dmi * b * l
                    <= 1_000_000_000_000_000_000_000_000_000_000) by (nonlinear_arith)
                    requires
                        0 <= dmi * b <= 1_000_000_000_000_000_000_000,
                        0 <= l <= 1_000_000_000,
                ;
            }
            let dm = cur.measure - prev.measure;
            let add = (dm as u128) * (prev.bpm as u128) * (prev.length as u128) / 1_000_000u128;
            let newpos = prev.pos + add;
            self.events[i] = Event { pos: newpos, ..cur };
            proof {
                assert(self.events@[i as int] == model_cache(s0)[i as int]);
            }
            i = i + 1;
        }
        proof {
            assert(self.events@ =~= model_cache(s0));
            assert forall|k: int| 1 <= k < self.events@.len() implies #[trigger]
                chained_at(self.events@, k) by {
                assert(chained_at(s0, k));
            }
            assert forall|k: int| 0 <= k < self.events@.len() implies #[trigger]
                event_in_range(self.events@[k]) by {
                lemma_model_pos_bounds(s0, k);
                assert(event_in_range(s0[k]));
                assert(s0[k].measure * 1_000_000_000_000 <= 1_000_000_000_000
                    * 1_000_000_000_000) by (nonlinear_arith)
                    requires
                        s0[k].measure <= 1_000_000_000_000,
                ;
            }
        }
    }

    /// Convert a score position to a time in milliseconds.
    pub fn time_from_measure(&self, measure: u64) -> (r: u128)
        requires
            self.wf(),
            measure <= MEASURE_CAP,
        ensures
            r == model_time_from_measure(self.events@, measure),
    {
        let event_index = Timeline::last_event_index_in_measure(self.events.as_slice(), measure);
        let e = self.events[event_index];
        proof {
            lemma_idx_at_measure(self.events@, measure, event_index as int);
            assert(event_in_range(e));
            lemma_advance_bounds(e, measure);
        }
        let dm = measure - e.measure;
        e.time + (dm as u128) * 240_000 * (e.length as u128) / (1_000_000u128 * (e.bpm as u128))
    }

    /// Convert a score position to a render position, scaled by a
    /// caller-supplied speed factor in thousandths.
    pub fn pos_from_measure(&self, measure: u64, speed: u64) -> (r: u128)
        requires
            self.wf(),
            measure <= MEASURE_CAP,
            speed <= VALUE_CAP,
        ensures
            r == model_pos_from_measure(self.events@, measure, speed),
    {
        let event_index = Timeline::last_event_index_in_measure(self.events.as_slice(), measure);
        let e = self.events[event_index];
        proof {
            lemma_idx_at_measure(self.events@, measure, event_index as int);
            assert(event_in_range(e));
        }
        let dm = measure - e.measure;
        proof {
            let dmi = measure - e.measure;
            let b = e.bpm as int;
            let l = e.length as int;
            let sp = speed as int;
            let p = e.pos as int;
            assert(0 <= dmi * b && dmi * b <= 1_000_000_000_000_000_000_000) by (nonlinear_arith)
                requires
                    0 <= dmi <= 1_000_000_000_000,
                    0 <= b <= 1_000_000_000,
            ;
            assert(0 <= dmi * b * l && dmi * b * l
                <= 1_000_000_000_000_000_000_000_000_000_000) by (nonlinear_arith)
                requires
                    0 <= dmi * b <= 1_000_000_000_000_000_000_000,
                    0 <= l <= 1_000_000_000,
            ;
            lemma_div_le(dmi * b * l, 1_000_000);
            lemma_div_is_ordered(
                dmi * b * l,
                1_000_000_000_000_000_000_000_000_000_000,
                1_000_000,
            );
            let segs = dmi * b * l / 1_000_000;
            assert(0 <= segs * sp && segs * sp <= 1_000_000_000_000_000_000_000_000
                * 1_000_000_000) by (nonlinear_arith)
                requires
                    0 <= segs <= 1_000_000_000_000_000_000_000_000,
                    0 <= sp <= 1_000_000_000,
            ;
            assert(0 <= p * sp && p * sp <= 1_000_000_000_000_000_000_000_000_000
                * 1_000_000_000) by (nonlinear_arith)
                requires
                    0 <= p <= 1_000_000_000_000_000_000_000_000_000,
                    0 <= sp <= 1_000_000_000,
            ;
            lemma_div_le(p * sp, 1000);
            lemma_div_le(segs * sp, 1000);
        }
        let seg = (dm as u128) * (e.bpm as u128) * (e.length as u128) / 1_000_000u128;
        (e.pos * (speed as u128)) / 1000 + seg * (speed as u128) / 1000
    }

    /// Convert a time in milliseconds to a score position. A time that
    /// falls strictly inside a stop returns the stop's frozen measure.
    pub fn measure_from_time(&self, time: u128) -> (r: u128)
        requires
            self.wf(),
            time <= TIME_QUERY_CAP,
        ensures
            r == model_measure_from_time(self.events@, time),
    {
        let event_index = Timeline::last_event_index_in_time(self.events.as_slice(), time);
        proof {
            lemma_idx_at_time(self.events@, time, event_index as int);
        }
        if event_index < self.events.len() - 1 && self.events[event_index].measure
            == self.events[event_index + 1].measure {
            // The time falls within a stop: score position is frozen.
            self.events[event_index].measure as u128
        } else {
            let e = self.events[event_index];
            proof {
                assert(event_in_range(e));
                let dti = time - e.time;
                let b = e.bpm as int;
                assert(0 <= dti * b && dti * b <= 10_000_000_000_000_000_000_000_000_000
                    * 1_000_000_000) by (nonlinear_arith)
                    requires
                        0 <= dti <= 10_000_000_000_000_000_000_000_000_000,
                        0 <= b <= 1_000_000_000,
                ;
                lemma_div_le(dti * b * 25, 6 * (e.length as int));
            }
            let dt = time - e.time;
            (e.measure as u128) + dt * (e.bpm as u128) * 25 / (6u128 * (e.length as u128))
        }
    }

    /// Find the index of the rightmost event in `v` at or before score
    /// position `measure`; ties on the measure resolve to the last tied
    /// event.
    fn last_event_index_in_measure(v: &[Event], measure: u64) -> (r: usize)
        requires
            events_ok(v@),
            v@.len() >= 1,
            v@[0].measure <= measure,
        ensures
            r < v@.len(),
            v@[r as int].measure <= measure,
            forall|i: int| r < i < v@.len() ==> v@[i].measure > measure,
    {
        let mut lo: usize = 0;
        let mut hi: usize = v.len();
        while lo < hi
            invariant
                lo <= hi <= v@.len(),
                events_ok(v@),
                forall|i: int| 0 <= i < lo ==> v@[i].measure <= measure,
                forall|i: int| hi <= i < v@.len() ==> v@[i].measure > measure,
            decreases hi - lo,
        {
            let mid = lo + (hi - lo) / 2;
            if v[mid].measure <= measure {
                proof {
                    assert forall|i: int| 0 <= i <= mid implies v@[i].measure <= measure by {
                        lemma_events_sorted(v@, i, mid as int);
                    }
                }
                lo = mid + 1;
            } else {
                proof {
                    assert forall|i: int| mid <= i < v@.len() implies v@[i].measure > measure by {
                        lemma_events_sorted(v@, mid as int, i);
                    }
                }
                hi = mid;
            }
        }
        lo - 1
    }

    /// Find the index of the rightmost event in `v` at or before `time`;
    /// ties on the time resolve to the last tied event.
    fn last_event_index_in_time(v: &[Event], time: u128) -> (r: usize)
        requires
            events_ok(v@),
            v@.len() >= 1,
            v@[0].time <= time,
        ensures
            r < v@.len(),
            v@[r as int].time <= time,
            forall|i: int| r < i < v@.len() ==> v@[i].time > time,
    {
        let mut lo: usize = 0;
        let mut hi: usize = v.len();
        while lo < hi
            invariant
                lo <= hi <= v@.len(),
                events_ok(v@),
                forall|i: int| 0 <= i < lo ==> v@[i].time <= time,
                forall|i: int| hi <= i < v@.len() ==> v@[i].time > time,
            decreases hi - lo,
        {
            let mid = lo + (hi - lo) / 2;
            if v[mid].time <= time {
                proof {
                    assert forall|i: int| 0 <= i <= mid implies v@[i].time <= time by {
                        lemma_events_sorted(v@, i, mid as int);
                    }
                }
                lo = mid + 1;
            } else {
                proof {
                    assert forall|i: int| mid <= i < v@.len() implies v@[i].time > time by {
                        lemma_events_sorted(v@, mid as int, i);
                    }
                }
                hi = mid;
            }
        }
        lo - 1
    }
}

/// The search characterization (rightmost index whose measure is at most
/// `m`) determines `idx_at_measure`.
pub proof fn lemma_idx_at_measure(s: Seq<Event>, m: u64, r: int)
    requires
        events_ok(s),
        s.len() >= 1,
        0 <= r < s.len(),
        s[r].measure <= m,
        forall|i: int| r < i < s.len() ==> s[i].measure > m,
    ensures
        idx_at_measure(s, m) == r,
    decreases s.len(),
{
    if r == s.len() - 1 {
        if s.len() > 1 {
            assert(s.last().measure <= m);
        }
    } else {
        assert(s.last().measure > m);
        let s2 = s.drop_last();
        assert(events_ok(s2)) by {
            assert forall|i: int| 0 <= i < s2.len() implies #[trigger] event_in_range(s2[i]) by {
                assert(event_in_range(s[i]));
            }
            assert forall|i: int| 1 <= i < s2.len() implies #[trigger] chained_at(s2, i) by {
                assert(chained_at(s, i));
            }
        }
        lemma_idx_at_measure(s2, m, r);
    }
}

/// The search characterization (rightmost index whose time is at most
/// `t`) determines `idx_at_time`.
pub proof fn lemma_idx_at_time(s: Seq<Event>, t: u128, r: int)
    requires
        events_ok(s),
        s.len() >= 1,
        0 <= r < s.len(),
        s[r].time <= t,
        forall|i: int| r < i < s.len() ==> s[i].time > t,
    ensures
        idx_at_time(s, t) == r,
    decreases s.len(),
{
    if r == s.len() - 1 {
        if s.len() > 1 {
            assert(s.last().time <= t);
        }
    } else {
        assert(s.last().time > t);
        let s2 = s.drop_last();
        assert(events_ok(s2)) by {
            assert forall|i: int| 0 <= i < s2.len() implies #[trigger] event_in_range(s2[i]) by {
                assert(event_in_range(s[i]));
            }
            assert forall|i: int| 1 <= i < s2.len() implies #[trigger] chained_at(s2, i) by {
                assert(chained_at(s, i));
            }
        }
        lemma_idx_at_time(s2, t, r);
    }
}

/// Upper bound (inclusive) on the score position a timing command or a
/// parsed object may carry: 1000 measures, matching the three-digit
/// measure field of the data-line grammar.
pub const CMD_MEASURE_CAP: u64 = 1_000_000_000;

/// The number of entries of the measure-length table: one per measure
/// index the data-line grammar can express.
pub const LEN_TABLE_SIZE: usize = 1000;

/// The number of entries of each named value table: one per
/// two-character key.
pub const KEY_TABLE_SIZE: usize = 1296;

/// A timing command gathered during parsing and consumed once when the
/// timeline is built: a tempo change or a stop.
#[derive(Clone, Copy, Debug, Eq, PartialEq, Structural)]
pub enum TimelineEvent {
    /// The tempo becomes `bpm` (in thousandths of a BPM) at the given
    /// score position (in millionths of a measure).
    BPM { measure: u64, bpm: u64 },
    /// Score position freezes for `duration` stop units (in
    /// thousandths; 192000 thousandths pause for one full measure) at
    /// the given score position.
    STOP { measure: u64, duration: u64 },
}

/// Field bounds every stored timing command satisfies.
pub open spec fn cmd_ok(c: TimelineEvent) -> bool {
    match c {
        TimelineEvent::BPM { measure, bpm } => measure <= CMD_MEASURE_CAP && 1 <= bpm
            <= VALUE_CAP,
        TimelineEvent::STOP { measure, duration } => measure <= CMD_MEASURE_CAP && 1 <= duration
            <= VALUE_CAP,
    }
}

/// The score position a timing command applies at.
pub open spec fn cmd_measure(c: TimelineEvent) -> u64 {
    match c {
        TimelineEvent::BPM { measure, .. } => measure,
        TimelineEvent::STOP { measure, .. } => measure,
    }
}

/// The score positions of all timing commands, in command order.
pub open spec fn cmd_measures(cs: Seq<TimelineEvent>) -> Seq<u64> {
    cs.map_values(|c: TimelineEvent| cmd_measure(c))
}

/// The tempo of the latest tempo command at exactly score position `m`,
/// if any.
pub open spec fn last_bpm_at(cs: Seq<TimelineEvent>, m: u64) -> Option<u64>
    decreases cs.len(),
{
    if cs.len() == 0 {
        None
    } else {
        match cs.last() {
            TimelineEvent::BPM { measure, bpm } => if measure == m {
                Some(bpm)
            } else {
                last_bpm_at(cs.drop_last(), m)
            },
            TimelineEvent::STOP { .. } => last_bpm_at(cs.drop_last(), m),
        }
    }
}

/// The duration of the latest stop command at exactly score position
/// `m`, if any.
pub open spec fn last_stop_at(cs: Seq<TimelineEvent>, m: u64) -> Option<u64>
    decreases cs.len(),
{
    if cs.len() == 0 {
        None
    } else {
        match cs.last() {
            TimelineEvent::STOP { measure, duration } => if measure == m {
                Some(duration)
            } else {
                last_stop_at(cs.drop_last(), m)
            },
            TimelineEvent::BPM { .. } => last_stop_at(cs.drop_last(), m),
        }
    }
}

/// The score positions where the measure-length table changes value
/// (index 0 always counts), over the first `n` table entries, ascending.
pub open spec fn len_changes(lens: Seq<u64>, n: int) -> Seq<u64>
    decreases n,
{
    if n <= 0 {
        Seq::empty()
    } else if n == 1 || lens[n - 1] != lens[n - 2] {
        len_changes(lens, n - 1).push(((n - 1) * MEASURE_SCALE) as u64)
    } else {
        len_changes(lens, n - 1)
    }
}

/// Insertion of `x` into an already sorted sequence, before the first
/// strictly larger element.
pub open spec fn insert_sorted(s: Seq<u64>, x: u64) -> Seq<u64>
    decreases s.len(),
{
    if s.len() == 0 {
        seq![x]
    } else if s.last() <= x {
        s.push(x)
    } else {
        insert_sorted(s.drop_last(), x).push(s.last())
    }
}

/// Insertion sort of a sequence.
pub open spec fn insort(s: Seq<u64>) -> Seq<u64>
    decreases s.len(),
{
    if s.len() == 0 {
        Seq::empty()
    } else {
        insert_sorted(insort(s.drop_last()), s.last())
    }
}

/// Removal of adjacent duplicates from a sorted sequence.
pub open spec fn dedup_sorted(s: Seq<u64>) -> Seq<u64>
    decreases s.len(),
{
    if s.len() == 0 {
        Seq::empty()
    } else {
        let d = dedup_sorted(s.drop_last());
        if d.len() > 0 && d.last() == s.last() {
            d
        } else {
            d.push(s.last())
        }
    }
}

pub open spec fn sorted_u64(s: Seq<u64>) -> bool {
    forall|i: int, j: int| #![trigger s[i], s[j]] 0 <= i <= j < s.len() ==> s[i] <= s[j]
}

pub open spec fn strict_sorted_u64(s: Seq<u64>) -> bool {
    forall|i: int, j: int| #![trigger s[i], s[j]] 0 <= i < j < s.len() ==> s[i] < s[j]
}

/// Inserting at the position the scan finds is what `insert_sorted`
/// describes.
pub proof fn lemma_insert_sorted_at(s: Seq<u64>, x: u64, j: int)
    requires
        sorted_u64(s),
        0 <= j <= s.len(),
        forall|i: int| 0 <= i < j ==> s[i] <= x,
        forall|i: int| j <= i < s.len() ==> s[i] > x,
    ensures
        insert_sorted(s, x) == s.insert(j, x),
        sorted_u64(s.insert(j, x)),
    decreases s.len(),
{
    s.insert_ensures(j, x);
    if s.len() == 0 {
        assert(insert_sorted(s, x) =~= s.insert(0, x));
    } else if j == s.len() {
        assert(s.last() <= x);
        assert(s.push(x) =~= s.insert(j, x));
    } else {
        assert(s[s.len() - 1] > x);
        let s2 = s.drop_last();
        assert(sorted_u64(s2)) by {
            assert(forall|a: int, b: int|
                #![trigger s2[a], s2[b]]
                0 <= a <= b < s2.len() ==> s[a] <= s[b]);
        }
        lemma_insert_sorted_at(s2, x, j);
        s2.insert_ensures(j, x);
        assert(insert_sorted(s, x) =~= s.insert(j, x));
    }
    assert forall|a: int, b: int|
        #![trigger s.insert(j, x)[a], s.insert(j, x)[b]]
        0 <= a <= b < s.insert(j, x).len() implies s.insert(j, x)[a] <= s.insert(j, x)[b] by {
        let t = s.insert(j, x);
        if a < j && b < j {
            assert(t[a] == s[a] && t[b] == s[b]);
        } else if a < j && b == j {
            assert(t[a] == s[a] && t[b] == x);
        } else if a < j && b > j {
            assert(t[a] == s[a] && t[b] == s[b - 1]);
            if b - 1 < j {
            } else {
                assert(s[b - 1] > x);
                assert(s[a] <= x);
            }
        } else if a == j && b == j {
        } else if a == j && b > j {
            assert(t[a] == x && t[b] == s[b - 1]);
            assert(s[b - 1] > x);
        } else {
            assert(t[a] == s[a - 1] && t[b] == s[b - 1]);
        }
    }
}

/// Every element of a strictly sorted sequence is at least its index.
pub proof fn lemma_strict_lower(s: Seq<u64>, i: int)
    requires
        strict_sorted_u64(s),
        0 <= i < s.len(),
    ensures
        s[i] >= i,
    decreases i,
{
    if i > 0 {
        lemma_strict_lower(s, i - 1);
        assert(s[i - 1] < s[i]);
    }
}

/// A strictly sorted sequence of values at most `bound` has at most
/// `bound + 1` elements.
pub proof fn lemma_strict_bounded_len(s: Seq<u64>, bound: u64)
    requires
        strict_sorted_u64(s),
        forall|i: int| 0 <= i < s.len() ==> s[i] <= bound,
    ensures
        s.len() <= bound + 1,
{
    if s.len() > 0 {
        lemma_strict_lower(s, s.len() - 1);
        assert(s[s.len() - 1] <= bound);
    }
}

/// A found tempo lies within the bounds every stored command satisfies.
pub proof fn lemma_last_bpm_in_range(cs: Seq<TimelineEvent>, m: u64)
    requires
        forall|i: int| 0 <= i < cs.len() ==> #[trigger] cmd_ok(cs[i]),
    ensures
        match last_bpm_at(cs, m) {
            Some(v) => 1 <= v <= VALUE_CAP,
            None => true,
        },
    decreases cs.len(),
{
    if cs.len() > 0 {
        assert(cmd_ok(cs[cs.len() - 1]));
        let cs2 = cs.drop_last();
        assert(forall|i: int| 0 <= i < cs2.len() ==> #[trigger] cmd_ok(cs2[i])) by {
            assert(forall|i: int| 0 <= i < cs2.len() ==> cs2[i] == cs[i] && #[trigger] cmd_ok(
                cs[i],
            ));
        }
        lemma_last_bpm_in_range(cs2, m);
    }
}

/// A found stop duration lies within the bounds every stored command
/// satisfies.
pub proof fn lemma_last_stop_in_range(cs: Seq<TimelineEvent>, m: u64)
    requires
        forall|i: int| 0 <= i < cs.len() ==> #[trigger] cmd_ok(cs[i]),
    ensures
        match last_stop_at(cs, m) {
            Some(v) => 1 <= v <= VALUE_CAP,
            None => true,
        },
    decreases cs.len(),
{
    if cs.len() > 0 {
        assert(cmd_ok(cs[cs.len() - 1]));
        let cs2 = cs.drop_last();
        assert(forall|i: int| 0 <= i < cs2.len() ==> #[trigger] cmd_ok(cs2[i])) by {
            assert(forall|i: int| 0 <= i < cs2.len() ==> cs2[i] == cs[i] && #[trigger] cmd_ok(
                cs[i],
            ));
        }
        lemma_last_stop_in_range(cs2, m);
    }
}

/// The timeline builder: it accumulates timing commands, named value
/// tables and measure-length overrides during parsing and performs one
/// deferred reconciliation pass producing an immutable Timeline.
#[derive(Debug)]
pub struct TimelineBuilder {
    /// The chart's base tempo, in thousandths of a BPM.
    pub base_bpm: u64,
    /// Named tempo table, indexed by key; 0 means "no entry".
    pub bpms: Vec<u64>,
    /// Named stop table, indexed by key; 0 means "no entry".
    pub stops: Vec<u64>,
    /// Length multiplier of each measure, in thousandths.
    pub measure_lens: Vec<u64>,
    /// The collected timing commands.
    pub events: Vec<TimelineEvent>,
}

/// Field bounds every builder the library hands out satisfies.
pub open spec fn builder_ok(b: TimelineBuilder) -> bool {
    &&& 1 <= b.base_bpm <= VALUE_CAP
    &&& b.bpms@.len() == KEY_TABLE_SIZE
    &&& forall|i: int| 0 <= i < b.bpms@.len() ==> #[trigger] b.bpms@[i] <= VALUE_CAP
    &&& b.stops@.len() == KEY_TABLE_SIZE
    &&& forall|i: int| 0 <= i < b.stops@.len() ==> #[trigger] b.stops@[i] <= VALUE_CAP
    &&& b.measure_lens@.len() == LEN_TABLE_SIZE
    &&& forall|i: int| 0 <= i < b.measure_lens@.len() ==> 1 <= #[trigger] b.measure_lens@[i]
        <= VALUE_CAP
    &&& forall|i: int| 0 <= i < b.events@.len() ==> #[trigger] cmd_ok(b.events@[i])
}

/// The distinct breakpoint score positions of a builder, ascending:
/// every command measure and every measure where the length table
/// changes value.
pub open spec fn breakpoints_of(b: TimelineBuilder) -> Seq<u64> {
    dedup_sorted(insort(cmd_measures(b.events@) + len_changes(b.measure_lens@, LEN_TABLE_SIZE as int)))
}

/// One step of the reconciliation walk at breakpoint `m`: the current
/// tempo and length are updated from the commands and the length table,
/// a stop at `m` emits the stop-event pair, and the normal event for the
/// breakpoint is appended.
pub open spec fn walk_step(
    cmds: Seq<TimelineEvent>,
    lens: Seq<u64>,
    st: (u64, u64, Seq<Event>),
    m: u64,
) -> (u64, u64, Seq<Event>) {
    let bpm = match last_bpm_at(cmds, m) {
        Some(v) => v,
        None => st.0,
    };
    let len = if m % MEASURE_SCALE == 0 && m / MEASURE_SCALE < LEN_TABLE_SIZE as u64 {
        lens[(m / MEASURE_SCALE) as int]
    } else {
        st.1
    };
    let evs = match last_stop_at(cmds, m) {
        Some(d) => {
            let evs1 = if st.2.len() == 0 {
                model_add_event(st.2, m, bpm, len)
            } else {
                st.2
            };
            model_add_event(model_add_stop(evs1, m, d), m, bpm, len)
        },
        None => model_add_event(st.2, m, bpm, len),
    };
    (bpm, len, evs)
}

/// The reconciliation walk over the first `n` breakpoints, seeded with
/// the base tempo and the length of measure 0.
pub open spec fn walk(
    cmds: Seq<TimelineEvent>,
    lens: Seq<u64>,
    bps: Seq<u64>,
    base: u64,
    n: int,
) -> (u64, u64, Seq<Event>)
    decreases n,
{
    if n <= 0 {
        (base, lens[0], Seq::empty())
    } else {
        walk_step(cmds, lens, walk(cmds, lens, bps, base, n - 1), bps[n - 1])
    }
}

/// The event sequence `build` produces: the reconciliation walk over
/// all breakpoints, with render positions cached.
pub open spec fn build_model(b: TimelineBuilder) -> Seq<Event> {
    model_cache(
        walk(b.events@, b.measure_lens@, breakpoints_of(b), b.base_bpm, breakpoints_of(
            b,
        ).len() as int).2,
    )
}

/// Lookup in a named value table: the stored value, or 0 ("no entry")
/// for a key outside the table.
pub open spec fn table_get(t: Seq<u64>, k: int) -> u64 {
    if 0 <= k < t.len() {
        t[k]
    } else {
        0
    }
}

/// Scan the commands from the latest backwards for a tempo command at
/// exactly score position `m`.
fn find_last_bpm(cmds: &Vec<TimelineEvent>, m: u64) -> (r: Option<u64>)
    ensures
        r == last_bpm_at(cmds@, m),
{
    let mut k: usize = cmds.len();
    proof {
        assert(cmds@.take(k as int) =~= cmds@);
    }
    while k > 0
        invariant
            k <= cmds@.len(),
            last_bpm_at(cmds@, m) == last_bpm_at(cmds@.take(k as int), m),
        decreases k,
    {
        k = k - 1;
        proof {
            let pre = cmds@.take(k as int + 1);
            assert(pre.last() == cmds@[k as int]);
            assert(pre.drop_last() =~= cmds@.take(k as int));
        }
        match *&cmds[k] {
            TimelineEvent::BPM { measure, bpm } => {
                if measure == m {
                    return Some(bpm);
                }
            },
            TimelineEvent::STOP { .. } => {},
        }
    }
    proof {
        assert(cmds@.take(0) =~= Seq::<TimelineEvent>::empty());
    }
    None
}

/// Scan the commands from the latest backwards for a stop command at
/// exactly score position `m`.
fn find_last_stop(cmds: &Vec<TimelineEvent>, m: u64) -> (r: Option<u64>)
    ensures
        r == last_stop_at(cmds@, m),
{
    let mut k: usize = cmds.len();
    proof {
        assert(cmds@.take(k as int) =~= cmds@);
    }
    while k > 0
        invariant
            k <= cmds@.len(),
            last_stop_at(cmds@, m) == last_stop_at(cmds@.take(k as int), m),
        decreases k,
    {
        k = k - 1;
        proof {
            let pre = cmds@.take(k as int + 1);
            assert(pre.last() == cmds@[k as int]);
            assert(pre.drop_last() =~= cmds@.take(k as int));
        }
        match *&cmds[k] {
            TimelineEvent::STOP { measure, duration } => {
                if measure == m {
                    return Some(duration);
                }
            },
            TimelineEvent::BPM { .. } => {},
        }
    }
    proof {
        assert(cmds@.take(0) =~= Seq::<TimelineEvent>::empty());
    }
    None
}

impl TimelineBuilder {
    pub fn new() -> (r: Self)
        ensures
            builder_ok(r),
            r.base_bpm == 130_000,
            r.bpms@.len() == KEY_TABLE_SIZE,
            forall|i: int| 0 <= i < r.bpms@.len() ==> #[trigger] r.bpms@[i] == 0,
            r.stops@.len() == KEY_TABLE_SIZE,
            forall|i: int| 0 <= i < r.stops@.len() ==> #[trigger] r.stops@[i] == 0,
            r.measure_lens@.len() == LEN_TABLE_SIZE,
            forall|i: int| 0 <= i < r.measure_lens@.len() ==> #[trigger] r.measure_lens@[i]
                == 1000,
            r.events@ =~= Seq::<TimelineEvent>::empty(),
    {
        let mut bpms: Vec<u64> = Vec::new();
        while bpms.len() < KEY_TABLE_SIZE
            invariant
                forall|i: int| 0 <= i < bpms@.len() ==> #[trigger] bpms@[i] == 0,
                bpms@.len() <= KEY_TABLE_SIZE,
            decreases KEY_TABLE_SIZE - bpms@.len(),
        {
            bpms.push(0);
        }
        let mut stops: Vec<u64> = Vec::new();
        while stops.len() < KEY_TABLE_SIZE
            invariant
                forall|i: int| 0 <= i < stops@.len() ==> #[trigger] stops@[i] == 0,
                stops@.len() <= KEY_TABLE_SIZE,
            decreases KEY_TABLE_SIZE - stops@.len(),
        {
            stops.push(0);
        }
        let mut measure_lens: Vec<u64> = Vec::new();
        while measure_lens.len() < LEN_TABLE_SIZE
            invariant
                forall|i: int| 0 <= i < measure_lens@.len() ==> #[trigger] measure_lens@[i]
                    == 1000,
                measure_lens@.len() <= LEN_TABLE_SIZE,
            decreases LEN_TABLE_SIZE - measure_lens@.len(),
        {
            // The default length multiplier is 1 (4 beats per measure).
            measure_lens.push(1000);
        }
        TimelineBuilder {
            // 130 BPM is the default according to the format's
            // specifications.
            base_bpm: 130_000,
            bpms,
            stops,
            measure_lens,
            events: Vec::new(),
        }
    }

    /// Sets the base tempo. The base tempo seeds the first event, unless
    /// a tempo command at measure 0 overrides it.
    pub fn with_base_bpm(&mut self, base_bpm: u64)
        requires
            1 <= base_bpm <= VALUE_CAP,
        ensures
            *final(self) == (TimelineBuilder { base_bpm, ..*old(self) }),
    {
        self.base_bpm = base_bpm;
    }

    /// Registers a named tempo (only consulted by the named tempo data
    /// channel).
    pub fn with_bpm(&mut self, bpm_key: Alphanumeric, bpm: u64)
        requires
            old(self).bpms@.len() == KEY_TABLE_SIZE,
            bpm_key.key < KEY_TABLE_SIZE,
            1 <= bpm <= VALUE_CAP,
        ensures
            final(self).bpms@ == old(self).bpms@.update(bpm_key.key as int, bpm),
            final(self).base_bpm == old(self).base_bpm,
            final(self).stops == old(self).stops,
            final(self).measure_lens == old(self).measure_lens,
            final(self).events == old(self).events,
    {
        self.bpms[bpm_key.key] = bpm;
    }

    /// Registers a named stop duration.
    pub fn with_stop(&mut self, stop_key: Alphanumeric, stop: u64)
        requires
            old(self).stops@.len() == KEY_TABLE_SIZE,
            stop_key.key < KEY_TABLE_SIZE,
            stop <= VALUE_CAP,
        ensures
            final(self).stops@ == old(self).stops@.update(stop_key.key as int, stop),
            final(self).base_bpm == old(self).base_bpm,
            final(self).bpms == old(self).bpms,
            final(self).measure_lens == old(self).measure_lens,
            final(self).events == old(self).events,
    {
        self.stops[stop_key.key] = stop;
    }

    /// Adds a timing command to the builder.
    pub fn with_event(&mut self, event: TimelineEvent)
        requires
            cmd_ok(event),
        ensures
            final(self).events@ == old(self).events@.push(event),
            final(self).base_bpm == old(self).base_bpm,
            final(self).bpms == old(self).bpms,
            final(self).stops == old(self).stops,
            final(self).measure_lens == old(self).measure_lens,
    {
        self.events.push(event);
    }

    /// Overrides the length multiplier of one measure.
    pub fn with_measure_len(&mut self, measure: u32, length: u64)
        requires
            old(self).measure_lens@.len() == LEN_TABLE_SIZE,
            measure < 1000,
            1 <= length <= VALUE_CAP,
        ensures
            final(self).measure_lens@ == old(self).measure_lens@.update(measure as int, length),
            final(self).base_bpm == old(self).base_bpm,
            final(self).bpms == old(self).bpms,
            final(self).stops == old(self).stops,
            final(self).events == old(self).events,
    {
        self.measure_lens[measure as usize] = length;
    }

    /// Finds a previously inserted tempo value with the given key; a
    /// miss yields 0, the neutral "no event".
    pub fn find_bpm(&self, bpm_key: Alphanumeric) -> (r: u64)
        ensures
            r == table_get(self.bpms@, bpm_key.key as int),
    {
        if bpm_key.key < self.bpms.len() {
            self.bpms[bpm_key.key]
        } else {
            0
        }
    }

    /// Finds a previously inserted stop value with the given key; a
    /// miss yields 0, the neutral "no event".
    pub fn find_stop(&self, stop_key: Alphanumeric) -> (r: u64)
        ensures
            r == table_get(self.stops@, stop_key.key as int),
    {
        if stop_key.key < self.stops.len() {
            self.stops[stop_key.key]
        } else {
            0
        }
    }

    /// Creates the timeline from all gathered timing data: collect the
    /// distinct breakpoint measures, walk them ascending while tracking
    /// the current tempo and length, emit stop pairs and change events,
    /// and finally cache the render positions.
    #[verifier::rlimit(100)]
    pub fn build(&mut self) -> (r: Timeline)
        requires
            builder_ok(*old(self)),
        ensures
            *final(self) == *old(self),
            r.wf(),
            r.events@ == build_model(*old(self)),
    {
        let ghost cmds = self.events@;
        let ghost lens = self.measure_lens@;
        let ghost base = self.base_bpm;

        // Find all measures where timeline events occur.
        let mut raw: Vec<u64> = Vec::new();
        let mut ci: usize = 0;
        while ci < self.events.len()
            invariant
                *self == *old(self),
                builder_ok(*old(self)),
                cmds == self.events@,
                ci <= cmds.len(),
                raw@ == cmd_measures(cmds.take(ci as int)),
                forall|i: int| 0 <= i < raw@.len() ==> #[trigger] raw@[i] <= CMD_MEASURE_CAP,
            decreases cmds.len() - ci,
        {
            proof {
                assert(cmd_ok(cmds[ci as int]));
                assert(cmd_measures(cmds.take(ci as int + 1)) =~= cmd_measures(
                    cmds.take(ci as int),
                ).push(cmd_measure(cmds[ci as int])));
            }
            let mval = match *&self.events[ci] {
                TimelineEvent::BPM { measure, .. } => measure,
                TimelineEvent::STOP { measure, .. } => measure,
            };
            raw.push(mval);
            ci = ci + 1;
        }
        proof {
            assert(cmds.take(cmds.len() as int) =~= cmds);
        }

        // Find the indices of change in the length table and append
        // them as breakpoint measures.
        let mut li: usize = 0;
        while li < LEN_TABLE_SIZE
            invariant
                *self == *old(self),
                builder_ok(*old(self)),
                lens == self.measure_lens@,
                li <= LEN_TABLE_SIZE,
                raw@ == cmd_measures(cmds) + len_changes(lens, li as int),
                forall|i: int| 0 <= i < raw@.len() ==> #[trigger] raw@[i] <= CMD_MEASURE_CAP,
            decreases LEN_TABLE_SIZE - li,
        {
            let changed: bool = if li == 0 {
                true
            } else {
                self.measure_lens[li] != self.measure_lens[li - 1]
            };
            if changed {
                raw.push((li as u64) * 1_000_000);
                proof {
                    assert(raw@ =~= cmd_measures(cmds) + len_changes(lens, li as int + 1));
                }
            }
            li = li + 1;
        }

        // Sort the breakpoint measures ascending.
        let mut srt: Vec<u64> = Vec::new();
        let mut ri: usize = 0;
        while ri < raw.len()
            invariant
                ri <= raw@.len(),
                srt@ == insort(raw@.take(ri as int)),
                sorted_u64(srt@),
                forall|i: int| 0 <= i < srt@.len() ==> #[trigger] srt@[i] <= CMD_MEASURE_CAP,
                forall|i: int| 0 <= i < raw@.len() ==> #[trigger] raw@[i] <= CMD_MEASURE_CAP,
                raw@.take(ri as int).contains(0) ==> srt@.len() > 0 && srt@[0] == 0,
            decreases raw@.len() - ri,
        {
            let x = raw[ri];
            let mut j: usize = 0;
            while j < srt.len() && srt[j] <= x
                invariant
                    j <= srt@.len(),
                    forall|i: int| 0 <= i < j ==> #[trigger] srt@[i] <= x,
                    sorted_u64(srt@),
                    x <= CMD_MEASURE_CAP,
                decreases srt@.len() - j,
            {
                j = j + 1;
            }
            proof {
                assert forall|i: int| j <= i < srt@.len() implies #[trigger] srt@[i] > x by {
                    if j < srt@.len() {
                        assert(srt@[j as int] > x);
                        assert(srt@[j as int] <= srt@[i]);
                    }
                }
                lemma_insert_sorted_at(srt@, x, j as int);
                srt@.insert_ensures(j as int, x);
                assert(raw@.take(ri as int + 1).drop_last() =~= raw@.take(ri as int));
                assert(insort(raw@.take(ri as int + 1)) == insert_sorted(
                    insort(raw@.take(ri as int)),
                    x,
                ));
            }
            let ghost srt0 = srt@;
            srt.insert(j, x);
            proof {
                if raw@.take(ri as int + 1).contains(0) {
                    let w = choose|w: int|
                        0 <= w < raw@.take(ri as int + 1).len() && #[trigger] raw@.take(
                            ri as int + 1,
                        )[w] == 0;
                    if w < ri {
                        assert(raw@.take(ri as int).contains(0)) by {
                            assert(raw@.take(ri as int)[w] == 0);
                        }
                        assert(srt0[0] == 0);
                        assert(j >= 1) by {
                            assert(srt0[0] <= x);
                        }
                        assert(srt@[0] == srt0[0]);
                    } else {
                        assert(x == 0);
                        if j == 0 {
                            assert(srt@[0] == 0);
                        } else {
                            assert(srt0[0] <= srt0[j - 1] <= x);
                            assert(srt@[0] == srt0[0]);
                        }
                    }
                }
            }
            ri = ri + 1;
        }
        proof {
            assert(raw@.take(raw@.len() as int) =~= raw@);
        }

        // Remove duplicate measures.
        let mut bps: Vec<u64> = Vec::new();
        let mut di: usize = 0;
        while di < srt.len()
            invariant
                di <= srt@.len(),
                bps@ == dedup_sorted(srt@.take(di as int)),
                strict_sorted_u64(bps@),
                sorted_u64(srt@),
                forall|i: int| 0 <= i < srt@.len() ==> #[trigger] srt@[i] <= CMD_MEASURE_CAP,
                forall|i: int| 0 <= i < bps@.len() ==> #[trigger] bps@[i] <= CMD_MEASURE_CAP,
                di > 0 ==> bps@.len() > 0 && bps@.last() == srt@[di - 1] && bps@[0] == srt@[0],
                di == 0 ==> bps@.len() == 0,
            decreases srt@.len() - di,
        {
            let x = srt[di];
            let push_it: bool = if bps.len() == 0 {
                true
            } else {
                bps[bps.len() - 1] != x
            };
            let ghost bps0 = bps@;
            if push_it {
                proof {
                    if bps0.len() > 0 {
                        assert(bps0.last() == srt@[di - 1]);
                        assert(srt@[di - 1] <= srt@[di as int]);
                        assert forall|a: int, b: int|
                            #![trigger bps0.push(x)[a], bps0.push(x)[b]]
                            0 <= a < b < bps0.push(x).len() implies bps0.push(x)[a] < bps0.push(
                            x,
                        )[b] by {
                            if b < bps0.len() {
                                assert(bps0[a] < bps0[b]);
                            } else {
                                if a < bps0.len() - 1 {
                                    assert(bps0[a] < bps0[bps0.len() - 1]);
                                }
                                assert(bps0[bps0.len() - 1] < x);
                            }
                        }
                    }
                }
                bps.push(x);
            }
            proof {
                assert(srt@.take(di as int + 1).drop_last() =~= srt@.take(di as int));
                assert(srt@.take(di as int + 1).last() == srt@[di as int]);
                assert(bps@ == dedup_sorted(srt@.take(di as int + 1)));
            }
            di = di + 1;
        }
        proof {
            assert(srt@.take(srt@.len() as int) =~= srt@);
            lemma_strict_bounded_len(bps@, CMD_MEASURE_CAP);
        }

        // The length table always marks measure 0 as a change, so the
        // breakpoint list is never empty and starts at measure 0.
        proof {
            lemma_len_changes_first(lens, LEN_TABLE_SIZE as int);
            assert(raw@[cmds.len() as int] == 0);
            assert(raw@.contains(0)) by {
                assert(raw@[cmds.len() as int] == 0);
            }
            assert(srt@.len() > 0 && srt@[0] == 0);
            assert(bps@.len() > 0 && bps@[0] == 0);
        }

        // Walk the breakpoints ascending, tracking the current tempo
        // and length, and emit the timeline events.
        let mut timeline = Timeline { events: Vec::new() };
        let mut last_bpm = self.base_bpm;
        let mut last_len = self.measure_lens[0];
        let mut wi: usize = 0;
        while wi < bps.len()
            invariant
                *self == *old(self),
                builder_ok(*old(self)),
                cmds == self.events@,
                lens == self.measure_lens@,
                base == self.base_bpm,
                wi <= bps@.len(),
                strict_sorted_u64(bps@),
                forall|i: int| 0 <= i < bps@.len() ==> #[trigger] bps@[i] <= CMD_MEASURE_CAP,
                bps@.len() <= CMD_MEASURE_CAP + 1,
                bps@.len() > 0 && bps@[0] == 0,
                last_bpm == walk(cmds, lens, bps@, base, wi as int).0,
                last_len == walk(cmds, lens, bps@, base, wi as int).1,
                timeline.events@ == walk(cmds, lens, bps@, base, wi as int).2,
                1 <= last_bpm <= VALUE_CAP,
                1 <= last_len <= VALUE_CAP,
                events_ok(timeline.events@),
                wi == 0 ==> timeline.events@.len() == 0,
                wi > 0 ==> timeline.events@.len() > 0 && timeline.events@[0].measure == 0
                    && timeline.events@.last().measure <= bps@[wi - 1],
                timeline.events@.len() > 0 ==> timeline.events@.last().time <= (wi as int)
                    * 2_000_000_000_000 + timeline.events@.last().measure * 240_000_000,
            decreases bps@.len() - wi,
        {
            let m = bps[wi];
            let ghost st = walk(cmds, lens, bps@, base, wi as int);
            proof {
                lemma_last_bpm_in_range(cmds, m);
                lemma_last_stop_in_range(cmds, m);
                if wi > 0 {
                    assert(bps@[wi - 1] < bps@[wi as int]);
                }
            }
            // Update the tempo if a tempo command sits on this
            // breakpoint.
            match find_last_bpm(&self.events, m) {
                Some(v) => {
                    last_bpm = v;
                },
                None => {},
            }
            // Update the measure length if the breakpoint is a whole
            // measure inside the table.
            if m % 1_000_000 == 0 {
                let mi = (m / 1_000_000) as usize;
                if mi < LEN_TABLE_SIZE {
                    last_len = self.measure_lens[mi];
                }
            }
            proof {
                if timeline.events@.len() > 0 {
                    assert(event_in_range(timeline.events@.last()));
                    lemma_advance_bounds(timeline.events@.last(), m);
                }
            }
            // Emit the stop pair if a stop command sits on this
            // breakpoint, then the normal event.
            match find_last_stop(&self.events, m) {
                Some(d) => {
                    if timeline.events.len() == 0 {
                        timeline.add_event(m, last_bpm, last_len);
                    }
                    proof {
                        assert(event_in_range(timeline.events@.last()));
                        lemma_advance_bounds(timeline.events@.last(), m);
                        lemma_stop_ms_bounds(timeline.events@.last().bpm, d);
                    }
                    timeline.add_stop_event(m, d);
                    proof {
                        assert(event_in_range(timeline.events@.last()));
                        lemma_advance_bounds(timeline.events@.last(), m);
                    }
                    timeline.add_event(m, last_bpm, last_len);
                },
                None => {
                    timeline.add_event(m, last_bpm, last_len);
                },
            }
            proof {
                assert(walk(cmds, lens, bps@, base, wi as int + 1) == walk_step(
                    cmds,
                    lens,
                    st,
                    bps@[wi as int],
                ));
            }
            wi = wi + 1;
        }
        timeline.cache_event_pos();
        proof {
            assert(raw@ == cmd_measures(cmds) + len_changes(lens, LEN_TABLE_SIZE as int));
            assert(bps@ == breakpoints_of(*old(self)));
            assert(timeline.events@ == build_model(*old(self)));
            assert(timeline.events@.len() >= 1);
            assert(timeline.events@[0].measure == 0);
        }
        timeline
    }
}

/// A timeline built with only a base tempo and no commands has exactly
/// one event: measure 0, time 0, render position 0, at the base tempo
/// and the table's uniform length.
pub proof fn lemma_build_default(b: TimelineBuilder)
    requires
        builder_ok(b),
        b.events@.len() == 0,
        forall|i: int| 0 <= i < b.measure_lens@.len() ==> #[trigger] b.measure_lens@[i]
            == b.measure_lens@[0],
    ensures
        build_model(b) == seq![
            Event {
                time: 0,
                measure: 0,
                pos: 0,
                bpm: b.base_bpm,
                length: b.measure_lens@[0],
            },
        ],
{
    let lens = b.measure_lens@;
    assert(cmd_measures(b.events@) =~= Seq::<u64>::empty());
    lemma_len_changes_const(lens, LEN_TABLE_SIZE as int);
    let raw = cmd_measures(b.events@) + len_changes(lens, LEN_TABLE_SIZE as int);
    assert(raw =~= seq![0u64]);
    assert(raw.drop_last() =~= Seq::<u64>::empty());
    assert(insort(Seq::<u64>::empty()) =~= Seq::<u64>::empty());
    assert(insert_sorted(Seq::<u64>::empty(), 0u64) =~= seq![0u64]);
    assert(insort(raw) =~= seq![0u64]);
    assert(dedup_sorted(seq![0u64].drop_last()) =~= Seq::<u64>::empty());
    assert(dedup_sorted(seq![0u64]) =~= seq![0u64]);
    let bps = breakpoints_of(b);
    assert(bps =~= seq![0u64]);
    let st0 = walk(b.events@, lens, bps, b.base_bpm, 0);
    let st1 = walk(b.events@, lens, bps, b.base_bpm, 1);
    assert(st0 == (b.base_bpm, lens[0], Seq::<Event>::empty()));
    assert(last_bpm_at(b.events@, 0) is None);
    assert(last_stop_at(b.events@, 0) is None);
    let e0 = Event { time: 0, measure: 0, pos: 0, bpm: b.base_bpm, length: lens[0] };
    assert(st1.2 =~= seq![e0]);
    assert(model_pos(st1.2, 0) == 0);
    assert(model_cache(st1.2) =~= seq![e0]);
}

/// A constant length table changes value only at measure 0.
pub proof fn lemma_len_changes_const(lens: Seq<u64>, n: int)
    requires
        1 <= n <= lens.len(),
        forall|i: int| 0 <= i < lens.len() ==> #[trigger] lens[i] == lens[0],
    ensures
        len_changes(lens, n) =~= seq![0u64],
    decreases n,
{
    if n == 1 {
        assert(len_changes(lens, 0) =~= Seq::<u64>::empty());
    } else {
        lemma_len_changes_const(lens, n - 1);
        assert(lens[n - 1] == lens[0] && lens[n - 2] == lens[0]);
    }
}

/// Determinism: two builders holding identical timing data build
/// bit-identical event sequences.
pub proof fn lemma_build_deterministic(a: TimelineBuilder, b: TimelineBuilder)
    requires
        a.base_bpm == b.base_bpm,
        a.measure_lens@ == b.measure_lens@,
        a.events@ == b.events@,
    ensures
        build_model(a) == build_model(b),
{
}

/// Across a tempo or length change that is not a stop, time is
/// continuous: the left segment's linear extrapolation, evaluated at
/// the breakpoint's score position, meets the breakpoint event's stored
/// time exactly, and a query at that position returns it — only the
/// rate changes across the breakpoint.
pub proof fn lemma_tempo_change_continuous(tl: Timeline, i: int)
    requires
        tl.wf(),
        0 <= i < tl.events@.len() - 1,
        tl.events@[i + 1].measure != tl.events@[i].measure,
        i + 2 < tl.events@.len() ==> tl.events@[i + 2].measure != tl.events@[i + 1].measure,
    ensures
        tl.events@[i + 1].time == advance_time(tl.events@[i], tl.events@[i + 1].measure),
        model_time_from_measure(tl.events@, tl.events@[i + 1].measure) == tl.events@[i
            + 1].time,
{
    let s = tl.events@;
    let m = s[i + 1].measure;
    assert(chained_at(s, i + 1));
    assert forall|j: int| i + 1 < j < s.len() implies s[j].measure > m by {
        assert(chained_at(s, i + 2));
        if j > i + 2 {
            lemma_events_sorted(s, i + 2, j);
        }
    }
    lemma_idx_at_measure(s, m, i + 1);
    assert(event_in_range(s[i + 1]));
    lemma_advance_bounds(s[i + 1], m);
}

/// Stop semantics: a query at the stop's score position lands past the
/// pause, on the second event of the stop pair, and any time inside the
/// pause maps back to exactly the stop's frozen score position.
pub proof fn lemma_stop_semantics(tl: Timeline, i: int, t: u128)
    requires
        tl.wf(),
        0 <= i < tl.events@.len() - 1,
        tl.events@[i + 1].measure == tl.events@[i].measure,
        i + 2 < tl.events@.len() ==> tl.events@[i + 2].measure != tl.events@[i + 1].measure,
        tl.events@[i].time <= t < tl.events@[i + 1].time,
    ensures
        model_time_from_measure(tl.events@, tl.events@[i].measure) == tl.events@[i + 1].time,
        model_measure_from_time(tl.events@, t) == tl.events@[i].measure,
{
    let s = tl.events@;
    let m = s[i].measure;
    assert forall|j: int| i + 1 < j < s.len() implies s[j].measure > m by {
        assert(chained_at(s, i + 2));
        if j > i + 2 {
            lemma_events_sorted(s, i + 2, j);
        }
    }
    lemma_idx_at_measure(s, m, i + 1);
    assert(event_in_range(s[i + 1]));
    lemma_advance_bounds(s[i + 1], m);
    assert forall|j: int| i < j < s.len() implies s[j].time > t by {
        if j > i + 1 {
            lemma_events_sorted(s, i + 1, j);
        }
    }
    lemma_idx_at_time(s, t, i);
}

/// Round trip: for a score position that falls strictly inside segment
/// `i` of the timeline (so not at a stop boundary, where times
/// collide), or anywhere at or past the last event, the position
/// recovered from its own time never overshoots the original and falls
/// short of it by at most the truncation error of the two integer
/// divisions: one millisecond's worth of score units, plus one unit.
pub proof fn lemma_round_trip(tl: Timeline, m: u64, i: int)
    requires
        tl.wf(),
        m <= MEASURE_CAP,
        0 <= i < tl.events@.len(),
        tl.events@[i].measure <= m,
        i + 1 < tl.events@.len() ==> m < tl.events@[i + 1].measure && advance_time(
            tl.events@[i],
            m,
        ) < tl.events@[i + 1].time,
    ensures
        model_measure_from_time(tl.events@, model_time_from_measure(tl.events@, m) as u128)
            <= m,
        m - model_measure_from_time(tl.events@, model_time_from_measure(tl.events@, m) as u128)
            <= 25 * tl.events@[i].bpm / (6 * tl.events@[i].length) + 1,
{
    let s = tl.events@;
    let e = s[i];
    assert(event_in_range(e));
    assert forall|j: int| i < j < s.len() implies s[j].measure > m by {
        lemma_events_sorted(s, i + 1, j);
    }
    lemma_idx_at_measure(s, m, i);
    lemma_advance_bounds(e, m);
    let t = advance_time(e, m);
    assert(model_time_from_measure(s, m) == t);
    assert(e.time <= t <= TIME_CAP + MEASURE_CAP * 240_000_000 < TIME_QUERY_CAP);
    assert forall|j: int| i < j < s.len() implies s[j].time > (t as u128) by {
        lemma_events_sorted(s, i + 1, j);
    }
    lemma_idx_at_time(s, t as u128, i);
    let dm = m - e.measure;
    let b = e.bpm as int;
    let l = e.length as int;
    let q1 = (dm * 240_000 * l) / (1_000_000 * b);
    let q2 = ((t - e.time) * b * 25) / (6 * l);
    assert(t - e.time == q1);
    assert(model_measure_from_time(s, t as u128) == e.measure + q2);
    vstd::arithmetic::div_mod::lemma_fundamental_div_mod(dm * 240_000 * l, 1_000_000 * b);
    vstd::arithmetic::div_mod::lemma_mod_bound(dm * 240_000 * l, 1_000_000 * b);
    vstd::arithmetic::div_mod::lemma_fundamental_div_mod(q1 * b * 25, 6 * l);
    vstd::arithmetic::div_mod::lemma_mod_bound(q1 * b * 25, 6 * l);
    let tol = 25 * b / (6 * l);
    vstd::arithmetic::div_mod::lemma_fundamental_div_mod(25 * b, 6 * l);
    vstd::arithmetic::div_mod::lemma_mod_bound(25 * b, 6 * l);
    assert(q2 <= dm && dm - q2 <= tol + 1) by (nonlinear_arith)
        requires
            1 <= b <= 1_000_000_000,
            1 <= l <= 1_000_000_000,
            0 <= dm,
            dm * 240_000 * l == (1_000_000 * b) * q1 + (dm * 240_000 * l) % (1_000_000 * b),
            0 <= (dm * 240_000 * l) % (1_000_000 * b) < 1_000_000 * b,
            q1 * b * 25 == (6 * l) * q2 + (q1 * b * 25) % (6 * l),
            0 <= (q1 * b * 25) % (6 * l) < 6 * l,
            25 * b == (6 * l) * tol + (25 * b) % (6 * l),
            0 <= (25 * b) % (6 * l) < 6 * l,
    ;
}

/// The length-change list over at least one table entry starts with
/// measure 0.
pub proof fn lemma_len_changes_first(lens: Seq<u64>, n: int)
    requires
        n >= 1,
    ensures
        len_changes(lens, n).len() >= 1,
        len_changes(lens, n)[0] == 0,
    decreases n,
{
    if n == 1 {
        assert(len_changes(lens, 0) =~= Seq::<u64>::empty());
    } else {
        lemma_len_changes_first(lens, n - 1);
    }
}

} // verus!
