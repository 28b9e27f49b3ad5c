use chord_tool::arrangement::{arrangement, bar_events, BarEvent, RHYTHM_LAYERS};
use chord_tool::midi::{
    distinct_notes, render_progression, split_layers, velocity_for, ChannelMap, Layer, Score,
    BAR_TICKS, BEATS_PER_BAR, DEFAULT_VELOCITY, PPQ,
};
use chord_tool::music::{Key, Scale, ScaleDegree, Transformation};
use chord_tool::progression::{Progression, ProgressionEntry, Slot};
use chord_tool::rhythm::{builtin_patterns, RhythmLayer, RhythmPattern};
use chord_tool::single::Single;

/// A single-precision number.
fn single(v: f32) -> Single {
    Single { bits: v.to_bits() }
}

fn c_major() -> Key {
    Key::new(60, Scale::Major)
}

fn chord(degree: ScaleDegree, transformation: Option<Transformation>) -> Slot {
    Slot::Chord(ProgressionEntry::new(degree, transformation))
}

fn progression(slots: Vec<Slot>) -> Progression {
    let mut p = Progression::new();
    p.slots = slots;
    p
}

// ---- split_layers ----

#[test]
fn split_of_a_triad_gives_one_note_per_layer() {
    let [low, mid, high] = split_layers(&[60, 64, 67]);
    assert_eq!(low, vec![60]);
    assert_eq!(mid, vec![64]);
    assert_eq!(high, vec![67]);
}

#[test]
fn split_of_a_seventh_fills_the_middle() {
    let [low, mid, high] = split_layers(&[60, 64, 67, 70]);
    assert_eq!(low, vec![60]);
    assert_eq!(mid, vec![64, 67]);
    assert_eq!(high, vec![70]);
}

#[test]
fn split_of_one_note_does_not_invent_octaves() {
    // The synth doubles a lone note an octave either way; the export must
    // not, or a single note would arrive as a three-note chord.
    let [low, mid, high] = split_layers(&[60]);
    assert_eq!(low, vec![60]);
    assert_eq!(mid, Vec::<u8>::new());
    assert_eq!(high, Vec::<u8>::new());
}

#[test]
fn split_of_two_notes_uses_low_and_high() {
    let [low, mid, high] = split_layers(&[60, 67]);
    assert_eq!(low, vec![60]);
    assert_eq!(mid, Vec::<u8>::new());
    assert_eq!(high, vec![67]);
}

#[test]
fn split_sorts_and_dedups() {
    let [low, mid, high] = split_layers(&[67, 60, 64, 60]);
    assert_eq!(low, vec![60]);
    assert_eq!(mid, vec![64]);
    assert_eq!(high, vec![67]);
}

#[test]
fn split_of_nothing_is_empty() {
    assert_eq!(split_layers(&[]), [vec![], vec![], vec![]]);
}

// ---- geometry ----

#[test]
fn one_bar_is_four_quarters() {
    assert_eq!(PPQ, 960);
    assert_eq!(BEATS_PER_BAR, 4);
    assert_eq!(BAR_TICKS, 3840);
}

#[test]
fn note_length_scales_the_duration() {
    let key = c_major();
    let prog = progression(vec![chord(ScaleDegree::I, None)]);
    for (length, expected) in [(0.25, 960), (0.5, 1920), (0.75, 2880), (1.0, 3840)] {
        let score = render_progression(&prog.slots, &key, 120, single(length));
        assert!(
            score.notes.iter().all(|n| n.duration == expected),
            "note_length {} should give {} ticks",
            length,
            expected
        );
    }
}

#[test]
fn slots_are_laid_out_one_bar_apart() {
    let key = c_major();
    let prog = progression(vec![
        chord(ScaleDegree::I, None),
        chord(ScaleDegree::V, None),
    ]);
    let score = render_progression(&prog.slots, &key, 120, single(0.5));
    let starts: Vec<u64> = score
        .notes
        .iter()
        .map(|n| n.start)
        .collect::<std::collections::BTreeSet<_>>()
        .into_iter()
        .collect();
    assert_eq!(starts, vec![0, BAR_TICKS]);
}

#[test]
fn a_rest_contributes_no_notes_but_keeps_the_bar() {
    let key = c_major();
    let prog = progression(vec![
        chord(ScaleDegree::I, None),
        Slot::Rest,
        chord(ScaleDegree::V, None),
    ]);
    let score = render_progression(&prog.slots, &key, 120, single(1.0));
    // Three bars of loop...
    assert_eq!(score.length_ticks, 3 * BAR_TICKS);
    // ...but nothing sounds in bar two.
    assert!(score.notes.iter().all(|n| n.start != BAR_TICKS));
}

#[test]
fn a_trailing_rest_still_lengthens_the_loop() {
    let key = c_major();
    let prog = progression(vec![chord(ScaleDegree::I, None), Slot::Rest]);
    let score = render_progression(&prog.slots, &key, 120, single(1.0));
    assert_eq!(score.length_ticks, 2 * BAR_TICKS);
}

#[test]
fn an_empty_progression_renders_an_empty_score() {
    let score = render_progression(&[], &c_major(), 120, single(1.0));
    assert!(score.notes.is_empty());
    assert_eq!(score.length_ticks, 0);
}

#[test]
fn render_assigns_layers() {
    let key = c_major();
    let prog = progression(vec![chord(ScaleDegree::I, Some(Transformation::Dom7))]);
    let score = render_progression(&prog.slots, &key, 120, single(1.0));
    // C E G Bb -> low C, mid E+G, high Bb.
    let by_layer = |layer: Layer| -> Vec<u8> {
        let mut notes: Vec<u8> = score
            .notes
            .iter()
            .filter(|n| n.layer == layer)
            .map(|n| n.note)
            .collect();
        notes.sort_unstable();
        notes
    };
    assert_eq!(by_layer(Layer::Low), vec![60]);
    assert_eq!(by_layer(Layer::Mid), vec![64, 67]);
    assert_eq!(by_layer(Layer::High), vec![70]);
}

#[test]
fn render_carries_the_transport_metadata() {
    let key = Key::new(57, Scale::Minor);
    let prog = progression(vec![chord(ScaleDegree::I, None)]);
    let score = render_progression(&prog.slots, &key, 90, single(1.0));
    assert_eq!(score.bpm, 90);
    assert_eq!(score.ppq, PPQ);
    assert_eq!(score.beats_per_bar, 4);
    assert_eq!(score.key, key);
    assert!(score.notes.iter().all(|n| n.velocity == DEFAULT_VELOCITY));
}

#[test]
fn a_zero_bpm_is_clamped_so_tempo_math_stays_sane() {
    let prog = progression(vec![chord(ScaleDegree::I, None)]);
    let score = render_progression(&prog.slots, &c_major(), 0, single(1.0));
    assert_eq!(score.bpm, 1);
}

#[test]
fn note_length_is_clamped_into_the_bar() {
    let prog = progression(vec![chord(ScaleDegree::I, None)]);
    let score = render_progression(&prog.slots, &c_major(), 120, single(4.0));
    assert!(score.notes.iter().all(|n| n.duration == BAR_TICKS));
    let score = render_progression(&prog.slots, &c_major(), 120, single(-1.0));
    assert!(score.notes.iter().all(|n| n.duration == 1));
}

// ---- channel map ----

#[test]
fn default_channel_map_splits_the_layers() {
    let map = ChannelMap::default();
    assert_eq!(map.channel(Layer::Low), 0);
    assert_eq!(map.channel(Layer::Mid), 1);
    assert_eq!(map.channel(Layer::High), 2);
}

// ---- rhythm patterns ----

/// A pattern this build ships, by name — the entry stores the copy.
fn builtin(name: &str) -> RhythmPattern {
    builtin_patterns()
        .into_iter()
        .find(|p| p.name == name)
        .unwrap_or_else(|| panic!("no built-in pattern named {:?}", name))
}

fn patterned(
    degree: ScaleDegree,
    pattern: Option<RhythmPattern>,
    offset: i32,
) -> Slot {
    let mut entry = ProgressionEntry::new(degree, None);
    entry.pattern = pattern;
    entry.offset_ticks = offset;
    Slot::Chord(entry)
}

fn starts_of(score: &Score) -> Vec<u64> {
    let mut starts: Vec<u64> = score.notes.iter().map(|n| n.start).collect();
    starts.sort_unstable();
    starts.dedup();
    starts
}

#[test]
fn a_pattern_renders_one_onset_per_hit() {
    let slots = vec![patterned(ScaleDegree::I, Some(builtin("Offbeat Eighths")), 0)];
    let score = render_progression(&slots, &c_major(), 120, single(1.0));
    // Eight steps at 480 ticks; hits on the offbeats.
    assert_eq!(starts_of(&score), vec![480, 1440, 2400, 3360]);
}

#[test]
fn midi_a_pattern_hold_comes_from_its_gate() {
    let slots = vec![patterned(ScaleDegree::I, Some(builtin("Offbeat Eighths")), 0)];
    let score = render_progression(&slots, &c_major(), 120, single(1.0));
    assert!(score.notes.iter().all(|n| n.duration == 240));
}

#[test]
fn a_layer_gain_becomes_a_velocity() {
    // Two takes on the same cell: the second is the decayed one.
    let mut pattern =
        RhythmPattern::from_step_string("Stack", single(0.5), "x---").unwrap();
    pattern
        .layers
        .push(RhythmLayer::from_step_string(single(0.7), "x---").unwrap());

    let slots = vec![patterned(ScaleDegree::I, Some(pattern), 0)];
    let score = render_progression(&slots, &c_major(), 120, single(1.0));

    let mut velocities: Vec<u8> = score.notes.iter().map(|n| n.velocity).collect();
    velocities.sort_unstable();
    velocities.dedup();
    assert_eq!(velocities, vec![70, DEFAULT_VELOCITY], "one per take");
}

#[test]
fn a_patternless_slot_keeps_the_default_velocity() {
    let slots = vec![patterned(ScaleDegree::I, None, 0)];
    let score = render_progression(&slots, &c_major(), 120, single(1.0));
    assert!(score.notes.iter().all(|n| n.velocity == DEFAULT_VELOCITY));
}

#[test]
fn an_offset_moves_the_exported_notes() {
    let slots = vec![patterned(ScaleDegree::I, None, 240)];
    let score = render_progression(&slots, &c_major(), 120, single(0.5));
    assert_eq!(starts_of(&score), vec![240]);
}

#[test]
fn a_slot_with_no_rhythm_keeps_the_whole_bar_default() {
    let slots = vec![patterned(ScaleDegree::I, None, 0)];
    let score = render_progression(&slots, &c_major(), 120, single(0.5));
    let plain = render_progression(&progression(vec![chord(ScaleDegree::I, None)]).slots, &c_major(), 120, single(0.5));
    assert_eq!(score.notes, plain.notes);
}

#[test]
fn a_hold_that_wraps_the_loop_exports_two_notes_inside_the_loop() {
    let slots = vec![patterned(ScaleDegree::I, None, 3 * 960)];
    let score = render_progression(&slots, &c_major(), 120, single(1.0));
    assert_eq!(starts_of(&score), vec![0, 2880]);
    assert!(score.notes.iter().all(|n| n.end() <= score.length_ticks));
}

#[test]
fn a_muted_tail_shortens_the_exported_note() {
    // The mute lives in the arrangement, so a file cannot disagree with what
    // the loop plays.
    let mut pattern =
        RhythmPattern::from_step_string("Damped", single(4.0), "x---").unwrap();
    pattern.mute_ticks = 480;

    let slots = vec![patterned(ScaleDegree::I, Some(pattern), 0)];
    let score = render_progression(&slots, &c_major(), 120, single(1.0));
    assert!(!score.notes.is_empty());
    assert!(
        score.notes.iter().all(|n| n.end() == BAR_TICKS - 480),
        "the note must be released at the mute boundary: {:?}",
        score.notes
    );
}

#[test]
fn a_pattern_carries_the_transport_metadata_too() {
    let slots = vec![patterned(ScaleDegree::V, Some(builtin("Quarters")), 0)];
    let key = Key::new(57, Scale::Minor);
    let score = render_progression(&slots, &key, 90, single(1.0));
    assert_eq!(score.bpm, 90);
    assert_eq!(score.ppq, PPQ);
    assert_eq!(score.key, key);
    assert_eq!(score.length_ticks, BAR_TICKS);
}

#[test]
fn a_pattern_off_the_end_of_an_empty_progression_renders_nothing() {
    let score = render_progression(&[], &c_major(), 120, single(1.0));
    assert!(score.notes.is_empty());
    assert_eq!(score.length_ticks, 0);
}

// ---- exact values ----

#[test]
fn velocities_match_single_precision_arithmetic() {
    for i in 0..=4000u32 {
        let gain = i as f32 / 2500.0 - 0.2;
        let expected = (DEFAULT_VELOCITY as f32 * gain.clamp(0.0, 1.0)).round().clamp(1.0, 127.0) as u8;
        assert_eq!(velocity_for(single(gain)), expected, "{}", gain);
    }
    for gain in [f32::INFINITY, f32::NEG_INFINITY, -0.0, 1e-40, 1e30] {
        let expected = (DEFAULT_VELOCITY as f32 * gain.clamp(0.0, 1.0)).round().clamp(1.0, 127.0) as u8;
        assert_eq!(velocity_for(single(gain)), expected, "{}", gain);
    }
}

#[test]
fn a_gain_that_is_no_number_still_sounds() {
    assert_eq!(velocity_for(single(f32::NAN)), 1);
    assert_eq!(velocity_for(single(-f32::NAN)), 1);
}

#[test]
fn distinct_notes_are_ascending_and_unrepeated() {
    assert_eq!(distinct_notes(&[9, 3, 9, 0, 127, 3]), vec![0, 3, 9, 127]);
    assert_eq!(distinct_notes(&[]), Vec::<u8>::new());
}

#[test]
fn the_layers_together_are_the_chord() {
    let notes = [71, 60, 64, 67, 74, 60];
    let [low, mid, high] = split_layers(&notes);
    let mut all = low;
    all.extend(mid);
    all.extend(high);
    assert_eq!(all, distinct_notes(&notes));
}

#[test]
fn the_score_is_what_playback_sounds() {
    let slots = vec![
        patterned(ScaleDegree::I, Some(builtin("Syncopated 16ths")), -240),
        patterned(ScaleDegree::V, None, 1920),
        Slot::Rest,
        patterned(ScaleDegree::VI, Some(builtin("Quarters")), 480),
    ];
    let score = render_progression(&slots, &c_major(), 120, single(1.0));
    let plan = arrangement(&slots, &c_major(), single(1.0));

    let mut heard: Vec<(u64, u8)> = Vec::new();
    let mut released: Vec<u64> = Vec::new();
    for bar in 0..slots.len() {
        for event in bar_events(&plan, bar, BAR_TICKS, RHYTHM_LAYERS) {
            let line = bar as u64 * BAR_TICKS;
            match event {
                BarEvent::On { at, notes, .. } => {
                    heard.extend(notes.iter().map(|n| (line + at, *n)));
                }
                BarEvent::Off { at, .. } => released.push(line + at),
                BarEvent::Click { .. } => unreachable!(),
            }
        }
    }
    let mut written: Vec<(u64, u8)> = score.notes.iter().map(|n| (n.start, n.note)).collect();
    heard.sort_unstable();
    written.sort_unstable();
    assert_eq!(written, heard);

    let mut ends: Vec<u64> = score.notes.iter().map(|n| n.end()).collect();
    ends.sort_unstable();
    ends.dedup();
    released.sort_unstable();
    released.dedup();
    assert_eq!(ends, released);
}

#[test]
fn the_score_is_the_plan() {
    let mut steps = RhythmPattern::from_step_string("Soft", single(0.5), "x---x---").unwrap();
    steps.layers[0].gain = single(0.25);
    let slots = vec![
        patterned(ScaleDegree::I, Some(steps), 0),
        patterned(ScaleDegree::V, None, 960),
    ];
    let plan = arrangement(&slots, &c_major(), single(1.0));
    let score = render_progression(&slots, &c_major(), 120, single(1.0));

    let mut owed: Vec<(u64, u64, u8, u8)> = Vec::new();
    for stab in &plan {
        for note in distinct_notes(&stab.notes) {
            owed.push((stab.start, stab.duration, note, velocity_for(stab.gain)));
        }
    }
    let written: Vec<(u64, u64, u8, u8)> =
        score.notes.iter().map(|n| (n.start, n.duration, n.note, n.velocity)).collect();
    assert_eq!(written, owed);
    assert!(written.iter().any(|n| n.3 == 25));
    assert!(written.iter().any(|n| n.3 == 100));
}
