
use std::time::Duration;

use chord_tool::arrangement::BarEvent;
use chord_tool::music::{Key, Scale, ScaleDegree, BAR_TICKS};
use chord_tool::progression::{ProgressionEntry, Slot};
use chord_tool::single::Single;
use chord_tool::transport::{
    bar_content, hold_ticks, live_events, ticks_to_duration, timeline, SchedulerEvent, Transport, Wait,
};

/// A single-precision number.
fn single(v: f32) -> Single {
    Single { bits: v.to_bits() }
}

/// How long some ticks of a bar last.
fn lasting(ticks: u64, bar: Duration) -> Duration {
    Duration::from_nanos(ticks_to_duration(ticks, bar.as_nanos() as u64))
}

fn c_major() -> Key {
    Key::new(60, Scale::Major)
}

#[test]
fn key_round_trips_major() {
    let t = Transport::new(c_major());
    assert_eq!(t.key().tonic, 60);
    assert_eq!(t.key().scale, Scale::Major);
}

#[test]
fn key_round_trips_minor() {
    let t = Transport::new(Key::new(57, Scale::Minor));
    assert_eq!(t.key().tonic, 57);
    assert_eq!(t.key().scale, Scale::Minor);
}

#[test]
fn set_key_updates_both_fields() {
    let mut t = Transport::new(c_major());
    t.set_key(Key::new(62, Scale::Minor));
    assert_eq!(t.key().tonic, 62);
    assert_eq!(t.key().scale, Scale::Minor);
}

#[test]
fn bar_duration_at_120_bpm_is_2_seconds() {
    let mut t = Transport::new(c_major());
    t.set_bpm(120);
    assert_eq!(Duration::from_nanos(t.bar_duration()), Duration::from_secs(2));
}

#[test]
fn bar_duration_at_60_bpm_is_4_seconds() {
    let mut t = Transport::new(c_major());
    t.set_bpm(60);
    assert_eq!(Duration::from_nanos(t.bar_duration()), Duration::from_secs(4));
}

#[test]
fn bpm_round_trips() {
    let mut t = Transport::new(c_major());
    t.set_bpm(90);
    assert_eq!(t.bpm(), 90);
}

#[test]
fn note_length_round_trips() {
    let mut t = Transport::new(c_major());
    t.set_note_length(single(0.5));
    assert_eq!(t.note_length(), single(0.5));
}

#[test]
fn note_length_clamps() {
    let mut t = Transport::new(c_major());
    t.set_note_length(single(0.0));
    assert_eq!(t.note_length(), single(0.05));
    t.set_note_length(single(2.0));
    assert_eq!(t.note_length(), single(1.0));
}

#[test]
fn a_panic_stop_interrupts_the_wait_immediately() {
    // The point of `stop_now`: a paused transport still finishes its bar, so
    // a note can ring for a whole bar. This must not.
    let mut t = Transport::new(c_major());
    let deadline = Duration::from_secs(30).as_nanos() as u64;
    assert_eq!(t.watch(false, 0, deadline), Wait::Sleep(5_000_000));
    t.stop_now = true;
    assert_eq!(
        t.watch(false, 30_000_000, deadline),
        Wait::Interrupted,
        "the wait must report an interrupt, not run to the deadline"
    );
}

#[test]
fn a_restart_interrupts_the_wait_too() {
    let mut t = Transport::new(c_major());
    let deadline = Duration::from_secs(30).as_nanos() as u64;
    assert_eq!(t.watch(false, 0, deadline), Wait::Sleep(5_000_000));
    t.restart = true;
    assert_eq!(t.watch(false, 30_000_000, deadline), Wait::Interrupted);
}

#[test]
fn the_metronome_starts_off() {
    let t = Transport::new(c_major());
    assert!(!t.metronome);
}

// ---- the bar clock ----

#[test]
fn the_bar_clock_is_unset_until_the_scheduler_publishes_one() {
    let t = Transport::new(c_major());
    assert!(t.bar_started().is_none());
}

#[test]
fn publishing_a_bar_round_trips_the_instant_and_the_index() {
    let mut t = Transport::new(c_major());
    let now = 123_456_789;
    t.publish_bar(now, 3);
    let (at, bar) = t.bar_started().expect("a published bar");
    assert_eq!(at, now);
    assert_eq!(bar, 3);
}

// ---- the bar's timings ----

#[test]
fn hold_ticks_scale_with_the_note_length() {
    assert_eq!(hold_ticks(single(1.0)), BAR_TICKS);
    assert_eq!(hold_ticks(single(0.5)), BAR_TICKS / 2);
    assert_eq!(hold_ticks(single(0.25)), BAR_TICKS / 4);
}

#[test]
fn hold_ticks_are_clamped_into_the_bar() {
    assert_eq!(hold_ticks(single(4.0)), BAR_TICKS);
    assert_eq!(hold_ticks(single(-1.0)), 1);
    assert!(hold_ticks(single(0.0001)) >= 1, "a note can never be zero-length");
}

#[test]
fn ticks_map_onto_the_bar_duration() {
    let bar = Duration::from_secs(2);
    assert_eq!(lasting(0, bar), Duration::ZERO);
    assert_eq!(lasting(BAR_TICKS, bar), bar);
    assert_eq!(lasting(BAR_TICKS / 2, bar), Duration::from_secs(1));
    assert_eq!(
        lasting(BAR_TICKS / 4, bar),
        Duration::from_millis(500)
    );
}

#[test]
fn ticks_past_the_bar_line_are_clamped() {
    let bar = Duration::from_secs(2);
    assert_eq!(lasting(BAR_TICKS * 10, bar), bar);
}

#[test]
fn ticks_land_on_the_same_instant_as_the_bar_arithmetic() {
    // 64th notes are the tightest grid, and their spacing must not drift.
    let bar = Duration::from_secs(2);
    let step = BAR_TICKS / 64;
    for i in 0..=64 {
        let expected = Duration::from_secs_f64(2.0 * (i * step) as f64 / BAR_TICKS as f64);
        let got = lasting(i * step, bar);
        assert!(
            (got.as_secs_f64() - expected.as_secs_f64()).abs() < 1e-9,
            "step {} was {:?}, expected {:?}",
            i,
            got,
            expected
        );
    }
}

// ---- the live bar ----

#[test]
fn the_live_chord_is_one_whole_bar_stab() {
    let events = live_events(vec![60, 64, 67], single(0.5));
    assert_eq!(events.len(), 2);
    match &events[0] {
        BarEvent::On {
            at,
            group,
            notes,
            gain,
        } => {
            assert_eq!(*at, 0);
            assert_eq!(*group, 0);
            assert_eq!(notes, &vec![60, 64, 67]);
            assert_eq!(*gain, single(1.0));
        }
        other => panic!("expected an onset, got {:?}", other),
    }
    match &events[1] {
        BarEvent::Off { at, group } => {
            assert_eq!(*at, BAR_TICKS / 2);
            assert_eq!(*group, 0);
        }
        other => panic!("expected a release, got {:?}", other),
    }
}

// ---- the scheduler's steps ----

fn chord(degree: ScaleDegree) -> Slot {
    Slot::Chord(ProgressionEntry::new(degree, None))
}

#[test]
fn a_wait_sleeps_no_longer_than_what_is_left() {
    let mut t = Transport::new(c_major());
    assert_eq!(t.watch(false, 90, 100), Wait::Sleep(10));
    assert_eq!(t.watch(false, 100, 100), Wait::Reached);
    assert_eq!(t.watch(true, 99, 100), Wait::Interrupted);
    t.seek_to = 0;
    assert_eq!(t.watch(false, 99, 100), Wait::Interrupted);
    assert_eq!(t.watch(true, 101, 100), Wait::Reached, "the deadline comes first");
}

#[test]
fn a_bar_consumes_a_seek_and_a_restart_outranks_it() {
    let mut t = Transport::new(c_major());
    t.playing = true;
    t.progression_len = 8;
    t.seek_to = 5;
    let bar = t.begin_bar(7);
    assert_eq!(bar.index, 5);
    assert_eq!((t.seek_to, t.current_bar), (-1, 5));
    assert_eq!(t.bar_started(), Some((7, 5)));

    t.seek_to = 3;
    t.restart = true;
    assert_eq!(t.begin_bar(8).index, 0);
    assert!(!t.restart);
}

#[test]
fn a_panic_stop_leaves_the_position_alone() {
    let mut t = Transport::new(c_major());
    t.playing = true;
    t.progression_len = 4;
    t.current_bar = 2;
    t.stop_now = true;
    let bar = t.begin_bar(0);
    assert!(!bar.playing && !t.playing && !t.stop_now);
    assert_eq!(t.current_bar, 2);
    assert_eq!(t.finish_bar(&bar, false), None);
    assert_eq!(t.current_bar, 2, "a stopped transport does not move on");
}

#[test]
fn a_round_loops_or_stops_at_its_end() {
    let mut t = Transport::new(c_major());
    t.playing = true;
    t.progression_len = 2;
    for expected in [1, 0, 1] {
        let bar = t.begin_bar(0);
        assert_eq!(t.finish_bar(&bar, false), None);
        assert_eq!(t.current_bar, expected);
    }
    t.looping = false;
    let bar = t.begin_bar(0);
    assert_eq!(t.finish_bar(&bar, false), None);
    assert_eq!((t.playing, t.current_bar), (false, 0));
}

#[test]
fn an_interrupted_bar_is_silenced_and_not_counted() {
    let mut t = Transport::new(c_major());
    t.playing = true;
    t.progression_len = 2;
    let bar = t.begin_bar(0);
    assert_eq!(t.finish_bar(&bar, true), Some(SchedulerEvent::Silence));
    assert_eq!(t.current_bar, 0);
}

#[test]
fn the_live_chord_adds_one_bar_to_a_round() {
    let mut t = Transport::new(c_major());
    t.playing = true;
    t.progression_len = 1;
    t.set_live_chord(Some(vec![50, 54, 57]));
    let slots = [chord(ScaleDegree::I)];

    let first = t.begin_bar(0);
    let events = bar_content(&first, &slots).expect("the progression's bar");
    assert!(matches!(&events[0], BarEvent::On { notes, .. } if *notes == vec![60, 64, 67]));
    t.finish_bar(&first, false);

    let second = t.begin_bar(0);
    let events = bar_content(&second, &slots).expect("the live bar");
    assert!(matches!(&events[0], BarEvent::On { notes, .. } if *notes == vec![50, 54, 57]));
    t.finish_bar(&second, false);
    assert_eq!(t.current_bar, 0);
}

#[test]
fn a_stopped_transport_sounds_the_live_chord_or_nothing() {
    let mut t = Transport::new(c_major());
    t.progression_len = 1;
    let slots = [chord(ScaleDegree::I)];
    let bar = t.begin_bar(0);
    assert_eq!(bar_content(&bar, &slots), None);

    t.set_live_chord(Some(vec![60]));
    let bar = t.begin_bar(0);
    assert_eq!(bar_content(&bar, &slots), Some(live_events(vec![60], single(1.0))));
}

#[test]
fn the_metronome_is_the_whole_bar_when_nothing_else_is() {
    let mut t = Transport::new(c_major());
    t.metronome = true;
    let bar = t.begin_bar(0);
    let clicks = bar_content(&bar, &[]).expect("the clicks");
    assert_eq!(
        clicks,
        vec![
            BarEvent::Click { at: 0, strong: true },
            BarEvent::Click { at: 960, strong: false },
            BarEvent::Click { at: 1920, strong: false },
            BarEvent::Click { at: 2880, strong: false },
        ]
    );

    t.set_live_chord(Some(vec![60]));
    let bar = t.begin_bar(0);
    let all = bar_content(&bar, &[]).expect("the chord and the clicks");
    assert_eq!(all.len(), 6);
    assert!(matches!(all[0], BarEvent::On { .. }));
    assert_eq!(all[1], BarEvent::Click { at: 0, strong: true });
}

#[test]
fn a_timeline_is_measured_from_the_bar() {
    let mut t = Transport::new(c_major());
    t.set_bpm(120);
    let bar = t.begin_bar(1_000);
    let events = vec![
        BarEvent::On { at: 0, group: 2, notes: vec![60], gain: single(0.5) },
        BarEvent::Click { at: 960, strong: true },
        BarEvent::Off { at: BAR_TICKS, group: 2 },
    ];
    let due = timeline(&bar, &events);
    assert_eq!(due.len(), 3);
    assert_eq!(due[0].at, 1_000);
    assert_eq!(
        due[0].event,
        SchedulerEvent::Stab { group: 2, notes: vec![60], gain: single(0.5) }
    );
    assert_eq!(due[1].at, 500_001_000);
    assert_eq!(due[1].event, SchedulerEvent::Click { strong: true });
    assert_eq!(due[2].at, 2_000_001_000);
    assert_eq!(due[2].event, SchedulerEvent::ReleaseStab { group: 2 });
}

#[test]
fn a_tempo_of_nothing_counts_as_one() {
    let mut t = Transport::new(c_major());
    t.set_bpm(0);
    assert_eq!(Duration::from_nanos(t.bar_duration()), Duration::from_secs(240));
    t.bpm = 100_000;
    assert_eq!(t.bpm(), u16::MAX);
}

#[test]
fn durations_match_double_precision_arithmetic() {
    let expected = |ticks: u64, bar: Duration| -> Duration {
        let fraction = ticks.min(BAR_TICKS) as f64 / BAR_TICKS as f64;
        Duration::from_secs_f64(bar.as_secs_f64() * fraction)
    };
    for nanos in [1, 2, 7, 1000, 999_999_999, 1_000_000_001, 1_846_152_000, 240_000_000_000, 1 << 62] {
        let bar = Duration::from_nanos(nanos);
        for ticks in 0..=BAR_TICKS + 1 {
            assert_eq!(lasting(ticks, bar), expected(ticks, bar), "{} of {:?}", ticks, bar);
        }
    }
}

#[test]
fn at_every_tempo_the_bar_line_ends_the_bar() {
    let mut t = Transport::new(c_major());
    for bpm in (0..=u16::MAX).step_by(13) {
        t.set_bpm(bpm);
        let bar = Duration::from_nanos(t.bar_duration());
        assert_eq!(lasting(0, bar), Duration::ZERO);
        assert_eq!(lasting(BAR_TICKS, bar), bar);
        assert!(lasting(BAR_TICKS - 1, bar) <= bar);
    }
}
