//! Tests for the timeline model: building, tempo changes, stops,
//! length overrides, and the bidirectional queries. Score positions are
//! in millionths of a measure, tempos/lengths/durations in thousandths,
//! times in milliseconds.
use bms_rs::bms::timeline::{Timeline, TimelineBuilder, TimelineEvent};
use bms_rs::bms::Alphanumeric;

#[test]
fn test_base_tempo_only_single_event() {
    // A timeline built with only a base tempo and no commands has
    // exactly one event: measure 0, time 0.
    let mut b = TimelineBuilder::new();
    b.with_base_bpm(120_000);
    let tl = b.build();
    assert_eq!(tl.events.len(), 1);
    assert_eq!(tl.events[0].measure, 0);
    assert_eq!(tl.events[0].time, 0);
    assert_eq!(tl.events[0].pos, 0);
    assert_eq!(tl.events[0].bpm, 120_000);
    assert_eq!(tl.events[0].length, 1000);
}

#[test]
fn test_default_base_tempo() {
    // 130 BPM is the format's default base tempo.
    let mut b = TimelineBuilder::new();
    let tl = b.build();
    assert_eq!(tl.events.len(), 1);
    assert_eq!(tl.events[0].bpm, 130_000);
}

#[test]
fn test_tempo_change_time_is_continuous() {
    // Tempo change from 120 to 240 BPM at measure 4, length 1.0: time
    // is continuous across the breakpoint, only the rate changes.
    let mut b = TimelineBuilder::new();
    b.with_base_bpm(120_000);
    b.with_event(TimelineEvent::BPM { measure: 4_000_000, bpm: 240_000 });
    let tl = b.build();
    assert_eq!(tl.events.len(), 2);
    // 120 BPM is 2000 ms per measure, so the breakpoint sits at 8000 ms.
    assert_eq!(tl.events[1].time, 8000);
    assert_eq!(tl.time_from_measure(4_000_000), 8000);
    // Just before the breakpoint the old rate still applies.
    assert_eq!(tl.time_from_measure(3_999_999), 7999);
    // After it, one measure lasts 1000 ms.
    assert_eq!(tl.time_from_measure(5_000_000), 9000);
    assert_eq!(tl.time_from_measure(6_000_000), 10000);
}

#[test]
fn test_determinism_bit_identical() {
    // Building identical input twice yields bit-identical event
    // sequences.
    let mut b = TimelineBuilder::new();
    b.with_base_bpm(120_000);
    b.with_event(TimelineEvent::BPM { measure: 4_000_000, bpm: 240_000 });
    b.with_event(TimelineEvent::STOP { measure: 2_000_000, duration: 192_000 });
    b.with_measure_len(3, 2000);
    let tl1 = b.build();
    let tl2 = b.build();
    assert_eq!(tl1.events, tl2.events);
}

#[test]
fn test_round_trip_measure_time_measure() {
    let mut b = TimelineBuilder::new();
    b.with_base_bpm(120_000);
    let tl = b.build();
    // 2.5 measures at 120 BPM is exactly 5000 ms, and back.
    assert_eq!(tl.time_from_measure(2_500_000), 5000);
    assert_eq!(tl.measure_from_time(5000), 2_500_000);
    // A coarse position round-trips within the documented tolerance.
    let m: u64 = 1_234_567;
    let t = tl.time_from_measure(m);
    let back = tl.measure_from_time(t) as u64;
    assert!(back <= m);
    // 25*bpm/(6*length) + 1 score units of tolerance.
    assert!(m - back <= 25 * 120_000 / (6 * 1000) + 1);
}

#[test]
fn test_stop_semantics() {
    // Base tempo 120, stop of 192 units at measure 2: the stop pauses
    // for exactly one full measure (2000 ms).
    let mut b = TimelineBuilder::new();
    b.with_base_bpm(120_000);
    b.with_event(TimelineEvent::STOP { measure: 2_000_000, duration: 192_000 });
    let tl = b.build();
    // Events: seed, the pause start snapshot, and the post-pause event.
    assert_eq!(tl.events.len(), 3);
    assert_eq!(tl.events[1].measure, 2_000_000);
    assert_eq!(tl.events[1].time, 4000);
    assert_eq!(tl.events[2].measure, 2_000_000);
    assert_eq!(tl.events[2].time, 6000);
    // A query at the stop's measure lands past the pause: it equals the
    // pre-pause time plus the 2000 ms stop duration.
    assert_eq!(tl.time_from_measure(2_000_000), 6000);
    // Any time inside the pause maps back to exactly measure 2.
    assert_eq!(tl.measure_from_time(4000), 2_000_000);
    assert_eq!(tl.measure_from_time(4001), 2_000_000);
    assert_eq!(tl.measure_from_time(5999), 2_000_000);
    // Past the pause, score position moves again.
    assert_eq!(tl.measure_from_time(6000), 2_000_000);
    assert_eq!(tl.measure_from_time(8000), 3_000_000);
}

#[test]
fn test_length_override_doubles_measure() {
    // A length override of 2.0 for measure 5 doubles that measure's
    // effective length in all subsequent computations.
    let mut b = TimelineBuilder::new();
    b.with_base_bpm(120_000);
    b.with_measure_len(5, 2000);
    let tl = b.build();
    assert_eq!(tl.time_from_measure(5_000_000), 10000);
    // Measure 5 lasts 4000 ms instead of 2000.
    assert_eq!(tl.time_from_measure(6_000_000), 14000);
    // Later measures return to the default length.
    assert_eq!(tl.time_from_measure(7_000_000), 16000);
    assert_eq!(tl.measure_from_time(12000), 5_500_000);
}

#[test]
fn test_add_event_deduplicates() {
    // An event is appended only when tempo or length actually changes.
    let mut tl = Timeline { events: Vec::new() };
    tl.add_event(0, 120_000, 1000);
    tl.add_event(1_000_000, 120_000, 1000);
    assert_eq!(tl.events.len(), 1);
    tl.add_event(2_000_000, 240_000, 1000);
    assert_eq!(tl.events.len(), 2);
    assert_eq!(tl.events[1].time, 4000);
}

#[test]
fn test_add_stop_event_pair() {
    let mut tl = Timeline { events: Vec::new() };
    tl.add_event(0, 120_000, 1000);
    tl.add_stop_event(1_000_000, 96_000);
    // A snapshot at the stop's measure, then the same measure with the
    // pause (96 units = half a measure = 1000 ms) added.
    assert_eq!(tl.events.len(), 3);
    assert_eq!(tl.events[1].time, 2000);
    assert_eq!(tl.events[2].time, 3000);
    assert_eq!(tl.events[1].measure, tl.events[2].measure);
}

#[test]
fn test_pos_from_measure_scales_with_speed() {
    let mut b = TimelineBuilder::new();
    b.with_base_bpm(120_000);
    let tl = b.build();
    // Render position accumulates measure * bpm * length; with speed
    // 1.0 (1000) one measure at 120 BPM covers 120 scaled units.
    assert_eq!(tl.pos_from_measure(1_000_000, 1000), 120_000_000);
    assert_eq!(tl.pos_from_measure(1_000_000, 2000), 240_000_000);
    assert_eq!(tl.pos_from_measure(0, 1000), 0);
}

#[test]
fn test_named_tables_lookup_and_miss() {
    let mut b = TimelineBuilder::new();
    b.with_bpm(Alphanumeric::from_str("01"), 150_000);
    b.with_stop(Alphanumeric::from_str("02"), 48_000);
    assert_eq!(b.find_bpm(Alphanumeric::from_str("01")), 150_000);
    assert_eq!(b.find_stop(Alphanumeric::from_str("02")), 48_000);
    // A miss yields the neutral "no event", never an error.
    assert_eq!(b.find_bpm(Alphanumeric::from_str("03")), 0);
    assert_eq!(b.find_stop(Alphanumeric::from_str("ZZ")), 0);
}

#[test]
fn test_tempo_command_at_measure_zero_wins() {
    // A tempo change exactly at measure 0 overrides the base tempo for
    // the first event.
    let mut b = TimelineBuilder::new();
    b.with_base_bpm(120_000);
    b.with_event(TimelineEvent::BPM { measure: 0, bpm: 180_000 });
    let tl = b.build();
    assert_eq!(tl.events[0].bpm, 180_000);
    assert_eq!(tl.events[0].time, 0);
}

#[test]
fn test_last_event() {
    let mut b = TimelineBuilder::new();
    b.with_base_bpm(120_000);
    b.with_event(TimelineEvent::BPM { measure: 1_000_000, bpm: 60_000 });
    let tl = b.build();
    assert_eq!(tl.last_event().measure, 1_000_000);
    assert_eq!(tl.last_event().bpm, 60_000);
}

#[test]
fn test_cached_positions() {
    // Render positions are the prefix sums of dm * bpm * length.
    let mut b = TimelineBuilder::new();
    b.with_base_bpm(120_000);
    b.with_event(TimelineEvent::BPM { measure: 2_000_000, bpm: 240_000 });
    let tl = b.build();
    assert_eq!(tl.events[0].pos, 0);
    // Two measures at bpm 120000, length 1000, scaled by 1e-6:
    // 2_000_000 * 120_000 * 1000 / 1_000_000 = 240_000_000.
    assert_eq!(tl.events[1].pos, 240_000_000);
}
