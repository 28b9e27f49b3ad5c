use std::time::Duration;

use chord_tool::music::BAR_TICKS;
use chord_tool::rhythm::{
    average_takes, bar_phase_ticks, builtin_patterns, decay_layer_gains, parse_steps, quantize,
    render_steps, rung_step, signed_ladder, valid_resolution, RhythmError, RhythmLayer,
    RhythmPattern, DEFAULT_HOLD, DEFAULT_STEPS, GAIN_FLOOR, MAX_MUTE_TICKS, MUTE_LADDER,
    NOTE_LADDER, TAKE_DECAY, VALID_STEPS,
};
use chord_tool::single::Single;

/// A single-precision number.
fn single(v: f32) -> Single {
    Single { bits: v.to_bits() }
}

/// The bar phase, of moments given as the time since some start.
fn phase(now: Duration, bar_start: Duration, bar: Duration) -> u32 {
    bar_phase_ticks(now.as_nanos() as u64, bar_start.as_nanos() as u64, bar.as_nanos() as u64)
}

fn taps(pairs: &[u32]) -> Vec<u32> {
    pairs.to_vec()
}

// ---- resolutions ----

#[test]
fn every_valid_resolution_divides_the_bar_exactly() {
    for steps in VALID_STEPS {
        assert!(valid_resolution(steps));
        assert_eq!(
            BAR_TICKS % steps as u64,
            0,
            "{} steps per bar leaves a partial step",
            steps
        );
    }
}

#[test]
fn resolutions_between_the_allowed_ones_are_refused() {
    for steps in [0, 1, 3, 5, 6, 12, 24, 48, 128] {
        assert!(!valid_resolution(steps), "{} must not be a resolution", steps);
    }
}

#[test]
fn a_half_note_bar_is_two_cells() {
    let p = RhythmPattern::from_step_string("h", single(1.0), "x-").unwrap();
    assert_eq!(p.steps_per_bar(), 2);
    assert_eq!(p.step_ticks(), 1920);
    assert_eq!(p.hold_ticks(), 1920, "one cell is a half note");
}

#[test]
fn step_ticks_follow_the_resolution() {
    let quarter = RhythmPattern::from_step_string("q", single(0.5), "x---").unwrap();
    assert_eq!(quarter.steps_per_bar(), 4);
    assert_eq!(quarter.step_ticks(), 960);

    let sixteenth = RhythmPattern::from_step_string("s", single(0.5), "xxxxxxxxxxxxxxxx").unwrap();
    assert_eq!(sixteenth.steps_per_bar(), 16);
    assert_eq!(sixteenth.step_ticks(), 240);

    let sixty_fourth = RhythmPattern::blank("b", 64).unwrap();
    assert_eq!(sixty_fourth.step_ticks(), 60);
}

// ---- step strings ----

#[test]
fn step_strings_round_trip() {
    let text = "x--x--x-x--x-x--";
    let pattern = RhythmPattern::from_step_string("sync", single(0.5), text).unwrap();
    assert_eq!(pattern.layers[0].to_step_string(), text);
    assert_eq!(pattern.layers[0].hits(), vec![0, 3, 6, 8, 11, 13]);
}

#[test]
fn dots_are_rests_and_caps_are_hits() {
    assert_eq!(parse_steps("x.X.").unwrap(), vec![true, false, true, false]);
}

#[test]
fn a_bad_step_character_is_refused() {
    assert_eq!(parse_steps("xxo-"), Err(RhythmError::BadStepChar('o')));
}

#[test]
fn a_step_string_of_the_wrong_length_is_refused() {
    assert_eq!(parse_steps("x"), Err(RhythmError::BadResolution(1)));
    // Five is not a resolution even though it is close to four.
    assert_eq!(parse_steps("x----"), Err(RhythmError::BadResolution(5)));
}

// ---- layers and validation ----

#[test]
fn a_blank_pattern_is_silent_but_valid() {
    let p = RhythmPattern::blank("new", DEFAULT_STEPS).unwrap();
    p.validate().unwrap();
    assert_eq!(p.steps_per_bar(), DEFAULT_STEPS);
    assert!(!p.any_hit());
    assert_eq!(p.hit_count(), 0);
    assert_eq!(p.hits(), Vec::new());
}

#[test]
fn a_pattern_without_layers_is_refused() {
    let p = RhythmPattern {
        name: "empty".into(),
        hold: DEFAULT_HOLD,
        mute_ticks: 0,
        layers: Vec::new(),
    };
    assert_eq!(p.validate(), Err(RhythmError::EmptyPattern));
}

#[test]
fn layers_must_share_one_grid() {
    let p = RhythmPattern {
        name: "mixed".into(),
        hold: DEFAULT_HOLD,
        mute_ticks: 0,
        layers: vec![
            RhythmLayer::from_step_string(single(1.0), "x---").unwrap(),
            RhythmLayer::from_step_string(single(0.5), "xxxxxxxx").unwrap(),
        ],
    };
    assert_eq!(
        p.validate(),
        Err(RhythmError::LayerLengthMismatch {
            expected: 4,
            found: 8
        })
    );
}

#[test]
fn a_hold_outside_the_range_is_refused() {
    let mut p = RhythmPattern::from_step_string("g", single(0.5), "x---").unwrap();
    p.hold = BAR_TICKS as u32;
    p.validate().unwrap();
    p.hold = BAR_TICKS as u32 + 1;
    assert_eq!(
        p.validate(),
        Err(RhythmError::BadHold(BAR_TICKS as u32 + 1)),
        "a hold cannot outlive its bar"
    );
    p.hold = 0;
    assert_eq!(p.validate(), Err(RhythmError::BadHold(0)));
}

#[test]
fn a_hold_in_ticks_does_not_move_when_the_grid_does() {
    // The point of measuring ticks: the same pattern on a finer grid still
    // holds a half note.
    let mut p = RhythmPattern::from_step_string("h", single(2.0), "x---").unwrap();
    assert_eq!(p.hold, 1920);
    p.layers = vec![RhythmLayer::new(single(1.0), vec![false; 16])];
    assert_eq!(p.hold, 1920, "still a half note on a sixteenth grid");
    assert_eq!(p.hold_ticks(), 1920);
}

#[test]
fn the_note_ladder_starts_where_the_player_asked_and_reaches_a_whole_note() {
    assert_eq!(
        &NOTE_LADDER[..5],
        &[120, 240, 480, 720, 960],
        "a 32nd, a 16th, an 8th, a 3/16, a quarter"
    );
    assert_eq!(*NOTE_LADDER.last().unwrap(), BAR_TICKS as u32);
    assert_eq!(MUTE_LADDER, [0, 120, 240, 480, 720, 960]);
    assert_eq!(MAX_MUTE_TICKS, 960, "a mute stops at a quarter note");
}

#[test]
fn the_signed_ladder_is_symmetric_about_no_offset() {
    let rungs = signed_ladder();
    assert_eq!(rungs.first(), Some(&-3840));
    assert_eq!(rungs.last(), Some(&3840));
    assert_eq!(rungs[rungs.len() / 2], 0);
    assert_eq!(rungs.len(), NOTE_LADDER.len() * 2 + 1);
    for rung in &rungs {
        assert!(rungs.contains(&-rung), "{} has no mirror", rung);
    }
}

#[test]
fn a_rung_step_moves_one_note_length() {
    let rungs: Vec<i32> = NOTE_LADDER.iter().map(|t| *t as i32).collect();
    assert_eq!(rung_step(&rungs, 240, 1), 480, "a 16th to an 8th");
    assert_eq!(rung_step(&rungs, 480, -1), 240);
    assert_eq!(rung_step(&rungs, 120, -1), 120, "clamped at the bottom");
    assert_eq!(rung_step(&rungs, 3840, 1), 3840, "and at the top");
}

#[test]
fn a_rung_step_snaps_a_value_that_is_not_on_the_ladder() {
    // A hand-edited hold of 768 lands on the nearest rung, and only then
    // starts stepping.
    let rungs: Vec<i32> = NOTE_LADDER.iter().map(|t| *t as i32).collect();
    assert_eq!(rung_step(&rungs, 768, 1), 720, "snapped, not stepped past");
    assert_eq!(rung_step(&rungs, 768, -1), 720, "either way");
    assert_eq!(rung_step(&rungs, 1500, 1), 1440);
    assert_eq!(rung_step(&rungs, 3000, -1), 2880);
    assert_eq!(rung_step(&rungs, 4000, 1), 3840);
}

#[test]
fn a_rung_step_over_the_signed_ladder_crosses_zero() {
    let rungs = signed_ladder();
    assert_eq!(rung_step(&rungs, 0, 1), 120, "off the beat, late");
    assert_eq!(rung_step(&rungs, 0, -1), -120, "or early");
    assert_eq!(rung_step(&rungs, -120, 1), 0, "and back through zero");
    assert_eq!(rung_step(&rungs, -3840, -1), -3840, "clamped");
}

#[test]
fn a_hold_may_span_several_cells() {
    // `x---` on a quarter grid with a gate of 2 holds a half note; the same
    // pattern with a gate of 3 holds a dotted half.
    let half = RhythmPattern::from_step_string("h", single(2.0), "x---").unwrap();
    assert_eq!(half.hold_ticks(), 1920);

    let dotted = RhythmPattern::from_step_string("d", single(3.0), "x---").unwrap();
    assert_eq!(dotted.hold_ticks(), 2880);

    let whole = RhythmPattern::from_step_string("w", single(4.0), "x---").unwrap();
    assert_eq!(whole.hold_ticks(), BAR_TICKS);
}

#[test]
fn the_constructor_takes_a_cell_fraction_and_bakes_the_grid_in() {
    // "Two cells" means two of *this* pattern's cells, converted once at
    // construction; the pattern then stores ticks and the grid is irrelevant.
    let coarse = RhythmPattern::from_step_string("c", single(2.0), "x---").unwrap();
    let fine = RhythmPattern::from_step_string("f", single(2.0), "xxxxxxxxxxxxxxxx").unwrap();
    assert_eq!(coarse.hold_ticks(), 1920, "two quarter cells");
    assert_eq!(fine.hold_ticks(), 480, "two sixteenth cells");
}

#[test]
fn hold_ticks_can_never_outlive_the_bar() {
    let mut p = RhythmPattern::from_step_string("g", single(1.0), "xxxxxxxx").unwrap();
    p.hold = 99_999;
    assert_eq!(p.hold_ticks(), BAR_TICKS);
}

#[test]
fn a_constructor_clamps_the_gate_to_the_grid() {
    // `from_step_string` sees the grid, so it can clamp rather than refuse:
    // nine cells of a four-cell bar is the whole bar.
    let p = RhythmPattern::from_step_string("g", single(9.0), "x---").unwrap();
    assert_eq!(p.hold, BAR_TICKS as u32);
    p.validate().unwrap();
}

// ---- the muted tail ----

#[test]
fn the_mute_boundary_is_the_end_of_the_bar_minus_the_mute() {
    let mut p = RhythmPattern::from_step_string("m", single(0.5), "x---").unwrap();
    p.mute_ticks = 240;
    assert_eq!(p.mute_boundary(), Some(BAR_TICKS - 240));
    p.mute_ticks = MAX_MUTE_TICKS;
    assert_eq!(p.mute_boundary(), Some(BAR_TICKS - 960));
}

#[test]
fn zero_mute_has_no_boundary_at_all() {
    // `None` rather than a boundary on the bar line: a boundary there would
    // still trim a hold that crosses the bar, which is what offsets are for.
    let p = RhythmPattern::from_step_string("m", single(0.5), "x---").unwrap();
    assert_eq!(p.mute_ticks, 0);
    assert_eq!(p.mute_boundary(), None);
}

#[test]
fn a_mute_longer_than_a_quarter_note_is_refused() {
    let mut p = RhythmPattern::from_step_string("m", single(0.5), "x---").unwrap();
    p.mute_ticks = MAX_MUTE_TICKS;
    p.validate().unwrap();
    p.mute_ticks = MAX_MUTE_TICKS + 240;
    assert_eq!(
        p.validate(),
        Err(RhythmError::BadMute(MAX_MUTE_TICKS + 240))
    );
}

#[test]
fn a_new_pattern_has_no_mute() {
    assert_eq!(RhythmPattern::draft().mute_ticks, 0);
    assert_eq!(RhythmPattern::blank("b", 16).unwrap().mute_ticks, 0);
}

#[test]
fn the_quarters_built_in_is_four_quarter_notes() {
    // One chord per bar would not be what the name means.
    let quarters = builtin_patterns()
        .into_iter()
        .find(|p| p.name == "Quarters")
        .expect("Quarters");
    assert_eq!(quarters.steps_per_bar(), 4);
    assert_eq!(quarters.layers[0].hits(), vec![0, 1, 2, 3]);
}

#[test]
fn the_held_built_ins_hold_for_their_note_value() {
    let patterns = builtin_patterns();
    let held = |name: &str| {
        patterns
            .iter()
            .find(|p| p.name == name)
            .unwrap_or_else(|| panic!("{}", name))
            .clone()
    };

    let half = held("Held Half");
    assert_eq!(half.layers[0].hits(), vec![0], "one hit, on the downbeat");
    assert_eq!(half.hold_ticks(), 1920, "a half note");

    let dotted = held("Held 3/4");
    assert_eq!(dotted.layers[0].hits(), vec![0]);
    assert_eq!(dotted.hold_ticks(), 2880, "a dotted half");
}

#[test]
fn hold_ticks_are_one_step_times_the_gate() {
    let p = RhythmPattern::from_step_string("q", single(1.0), "x---").unwrap();
    assert_eq!(p.hold_ticks(), 960);
    let p = RhythmPattern::from_step_string("q", single(0.5), "x---").unwrap();
    assert_eq!(p.hold_ticks(), 480);
    // Past one cell, which is how a held half note is written.
    let p = RhythmPattern::from_step_string("h", single(2.0), "x---").unwrap();
    assert_eq!(p.hold_ticks(), 1920);
    // Always at least one tick, so a zero-length note never reaches the
    // writer.
    let mut tiny = RhythmPattern::from_step_string("q", single(0.5), "x---").unwrap();
    tiny.hold = 0;
    assert_eq!(tiny.hold_ticks(), 1);
}

#[test]
fn layer_gains_are_clamped_on_construction() {
    assert_eq!(RhythmLayer::new(single(4.0), vec![false; 4]).gain, single(1.0));
    assert_eq!(RhythmLayer::new(single(-1.0), vec![false; 4]).gain, single(0.0));
}

#[test]
fn hits_are_ordered_by_step_then_take() {
    let p = RhythmPattern {
        name: "stack".into(),
        hold: DEFAULT_HOLD,
        mute_ticks: 0,
        layers: vec![
            RhythmLayer::from_step_string(single(1.0), "x---").unwrap(),
            RhythmLayer::from_step_string(single(0.7), "x---").unwrap(),
        ],
    };
    assert_eq!(p.hits(), vec![(0, single(1.0)), (0, single(0.7))]);
    assert_eq!(p.hit_count(), 2);
}

// ---- decay ----

#[test]
fn decaying_quiets_every_layer_and_stops_at_the_floor() {
    let mut layers = vec![
        RhythmLayer::from_step_string(single(1.0), "x---").unwrap(),
        RhythmLayer::from_step_string(single(0.5), "x---").unwrap(),
    ];
    decay_layer_gains(&mut layers, Single { bits: TAKE_DECAY });
    assert!((f32::from_bits(layers[0].gain.bits) - 0.7).abs() < 1e-6);
    assert!((f32::from_bits(layers[1].gain.bits) - 0.35).abs() < 1e-6);

    for _ in 0..50 {
        decay_layer_gains(&mut layers, Single { bits: TAKE_DECAY });
    }
    assert_eq!(layers[0].gain, Single { bits: GAIN_FLOOR });
    assert_eq!(layers[1].gain, Single { bits: GAIN_FLOOR });
}

// ---- quantization ----

#[test]
fn quantization_snaps_to_the_nearest_cell() {
    // At 16 steps a cell is 240 ticks. 100 is nearest cell 0, 140 nearest 1.
    assert_eq!(quantize(&[100], 16), {
        let mut g = vec![false; 16];
        g[0] = true;
        g
    });
    assert_eq!(quantize(&[300], 16), {
        let mut g = vec![false; 16];
        g[1] = true;
        g
    });
}

#[test]
fn quantization_rounds_the_halfway_point_up() {
    // 120 is exactly half a 240-tick cell.
    let grid = quantize(&[120], 16);
    assert!(grid[1], "half a cell should round up, got {:?}", grid);
}

#[test]
fn quantization_folds_a_multi_bar_take_into_one_bar() {
    // The same gesture in bar 1 and bar 3 lands on one cell.
    let grid = quantize(&[10, BAR_TICKS as u32 + 10], 16);
    assert_eq!(grid.iter().filter(|on| **on).count(), 1);
    assert!(grid[0]);
}

#[test]
fn quantization_wraps_a_tap_before_the_bar_line() {
    // Just under the bar line rounds forward to the next bar's downbeat.
    let grid = quantize(&[(BAR_TICKS - 10) as u32], 16);
    assert!(grid[0], "expected a wrap to step 0, got {:?}", grid);
}

#[test]
fn quantization_handles_every_resolution() {
    for steps in VALID_STEPS {
        let grid = quantize(&[0], steps);
        assert_eq!(grid.len(), steps);
        assert!(grid[0], "the downbeat must quantize to step 0");
        assert_eq!(grid.iter().filter(|on| **on).count(), 1);
    }
}

#[test]
fn quantization_of_an_invalid_resolution_is_empty() {
    assert!(quantize(&[0], 7).is_empty());
}

#[test]
fn duplicate_taps_on_one_cell_collapse() {
    let grid = quantize(&[0, 20, 30], 16);
    assert_eq!(grid.iter().filter(|on| **on).count(), 1);
}

// ---- averaging ----

#[test]
fn averaging_takes_works_by_ordinal() {
    let takes = vec![taps(&[0, 1000]), taps(&[10, 1010]), taps(&[20, 1020])];
    assert_eq!(average_takes(&takes, 3), vec![10, 1010]);
}

#[test]
fn averaging_uses_only_the_most_recent_takes() {
    let takes = vec![taps(&[0]), taps(&[100]), taps(&[200]), taps(&[300])];
    assert_eq!(average_takes(&takes, 2), vec![250]);
}

#[test]
fn averaging_truncates_to_the_shortest_take() {
    let takes = vec![taps(&[0, 100, 200]), taps(&[10, 110])];
    assert_eq!(average_takes(&takes, 3), vec![5, 105]);
}

#[test]
fn averaging_nothing_is_empty() {
    assert_eq!(average_takes(&[], 3), Vec::<u32>::new());
    assert_eq!(average_takes(&[taps(&[1, 2])], 0), Vec::<u32>::new());
}

#[test]
fn averaging_more_takes_than_exist_uses_them_all() {
    let takes = vec![taps(&[0, 100]), taps(&[10, 110])];
    assert_eq!(average_takes(&takes, 99), vec![5, 105]);
}

// ---- bar phase ----

#[test]
fn bar_phase_walks_the_bar() {
    let start = Duration::from_secs(1000);
    let bar = Duration::from_secs(2);
    assert_eq!(phase(start, start, bar), 0);
    assert_eq!(
        phase(start + Duration::from_millis(500), start, bar),
        960
    );
    assert_eq!(
        phase(start + Duration::from_millis(1000), start, bar),
        1920
    );
}

#[test]
fn bar_phase_never_reaches_the_bar_line() {
    let start = Duration::from_secs(1000);
    let bar = Duration::from_secs(2);
    // Exactly one bar later is the next downbeat, not tick 3840.
    assert_eq!(phase(start + bar, start, bar), 0);
    assert_eq!(
        phase(start + bar - Duration::from_micros(1), start, bar),
        BAR_TICKS as u32 - 1
    );
}

#[test]
fn bar_phase_before_the_bar_start_is_the_downbeat() {
    let start = Duration::from_secs(1000);
    let before = start - Duration::from_millis(50);
    assert_eq!(phase(before, start, Duration::from_secs(2)), 0);
}

#[test]
fn bar_phase_of_a_zero_length_bar_is_the_downbeat() {
    let now = Duration::from_secs(1000);
    assert_eq!(phase(now, now, Duration::ZERO), 0);
}

// ---- built-ins ----

#[test]
fn every_built_in_pattern_is_valid() {
    for pattern in builtin_patterns() {
        pattern
            .validate()
            .unwrap_or_else(|e| panic!("{} is invalid: {}", pattern.name, e.message()));
    }
}

#[test]
fn built_ins_have_distinct_names_and_are_not_silent() {
    let patterns = builtin_patterns();
    assert_eq!(patterns.len(), 7);
    let mut names: Vec<&str> = patterns.iter().map(|p| p.name.as_str()).collect();
    names.sort_unstable();
    names.dedup();
    assert_eq!(names.len(), 7, "duplicate built-in name");
    for pattern in &patterns {
        assert!(pattern.any_hit(), "{} is silent", pattern.name);
    }
}

#[test]
fn the_offbeat_built_in_is_actually_syncopated() {
    // The feature's whole point: hits that are not on the beat.
    let patterns = builtin_patterns();
    let offbeat = patterns
        .iter()
        .find(|p| p.name == "Offbeat Eighths")
        .expect("Offbeat Eighths");
    assert_eq!(offbeat.steps_per_bar(), 8);
    assert_eq!(offbeat.layers[0].hits(), vec![1, 3, 5, 7]);
    assert!(!offbeat.layers[0].hit(0), "an offbeat pattern has no downbeat");
}

// ---- exact values ----

#[test]
fn holds_match_double_precision_arithmetic() {
    for (text, cells) in [("x-", 2u32), ("x---", 4), ("x-------", 8), ("x---------------", 16)] {
        for i in 0..=400u32 {
            let gate = i as f32 / 37.0;
            let step = BAR_TICKS / cells as u64;
            let ticks = (step as f64 * gate.clamp(0.05, cells as f32) as f64).round() as u64;
            let p = RhythmPattern::from_step_string("g", single(gate), text).unwrap();
            assert_eq!(p.hold as u64, ticks.clamp(1, BAR_TICKS), "{} of {}", gate, text);
        }
    }
}

#[test]
fn decays_match_single_precision_arithmetic() {
    for factor in [0.7f32, 0.5, 0.9, 1.0, 0.3333333, 1.25] {
        let mut gain = 1.0f32;
        let mut layers = vec![RhythmLayer::new(single(gain), vec![true; 4])];
        for _ in 0..40 {
            decay_layer_gains(&mut layers, single(factor));
            gain = (gain * factor).clamp(0.05, 1.0);
            assert_eq!(layers[0].gain.bits, gain.to_bits(), "{} by {}", gain, factor);
        }
    }
}

#[test]
fn the_constants_are_the_numbers_they_stand_for() {
    assert_eq!(GAIN_FLOOR, 0.05f32.to_bits());
    assert_eq!(TAKE_DECAY, 0.7f32.to_bits());
}

#[test]
fn every_error_says_what_is_wrong() {
    assert_eq!(
        RhythmError::BadResolution(5).message(),
        "5 steps per bar is not a grid resolution (use 2, 4, 8, 16, 32, 64)"
    );
    assert_eq!(
        RhythmError::BadStepChar('o').message(),
        "step string holds 'o'; use 'x' for a hit and '-' for a rest"
    );
    assert_eq!(
        RhythmError::BadStepChar('\n').message(),
        "step string holds '\\n'; use 'x' for a hit and '-' for a rest"
    );
    assert_eq!(RhythmError::EmptyPattern.message(), "a pattern needs at least one layer");
    assert_eq!(
        RhythmError::LayerLengthMismatch { expected: 4, found: 8 }.message(),
        "a layer has 8 steps but the pattern's grid is 4"
    );
    assert_eq!(RhythmError::BadHold(4000).message(), "a hold of 4000 ticks is outside 1..=3840");
    assert_eq!(
        RhythmError::BadMute(1200).message(),
        "a muted tail of 1200 ticks is longer than 960 (a quarter note)"
    );
}

#[test]
fn step_strings_read_back_at_every_resolution() {
    for steps in VALID_STEPS {
        let grid: Vec<bool> = (0..steps).map(|i| i % 3 == 0).collect();
        assert_eq!(parse_steps(&render_steps(&grid)), Ok(grid));
    }
}

#[test]
fn a_tap_lands_on_the_same_cell_in_every_bar() {
    for tap in [0, 119, 120, 121, 3719, 3720, 3839] {
        assert_eq!(quantize(&[tap], 16), quantize(&[tap + 5 * BAR_TICKS as u32], 16), "{}", tap);
    }
}

#[test]
fn averages_are_cut_to_whole_ticks() {
    assert_eq!(average_takes(&[vec![1], vec![2]], 8), vec![1]);
    assert_eq!(average_takes(&[vec![0], vec![1], vec![1]], 8), vec![0]);
    assert_eq!(average_takes(&[vec![u32::MAX], vec![u32::MAX]], 2), vec![u32::MAX]);
}

#[test]
fn a_rung_step_on_a_tie_takes_the_lower_rung() {
    assert_eq!(rung_step(&[0, 10], 5, 1), 0);
    assert_eq!(rung_step(&[], 7, 1), 7);
}

#[test]
fn bar_phases_match_double_precision_arithmetic() {
    let expected = |elapsed: Duration, bar: Duration| -> u32 {
        let fraction = (elapsed.as_secs_f64() / bar.as_secs_f64()).rem_euclid(1.0);
        ((fraction * BAR_TICKS as f64).floor() as u64).min(BAR_TICKS - 1) as u32
    };
    let start = Duration::from_secs(5);
    let mut seed: u64 = 7;
    for bar in [
        Duration::from_nanos(1),
        Duration::from_millis(1),
        Duration::from_micros(1_846_152),
        Duration::from_secs(2),
        Duration::from_secs(240),
        Duration::from_nanos(u64::MAX),
    ] {
        for i in 0..2000u64 {
            seed = seed.wrapping_mul(6364136223846793005).wrapping_add(1442695040888963407);
            let elapsed = match i % 4 {
                0 => Duration::from_millis(i * 25),
                1 => Duration::from_nanos(seed >> 40),
                2 => Duration::from_nanos(seed >> 28),
                _ => Duration::from_nanos(seed >> 2),
            };
            assert_eq!(phase(start + elapsed, start, bar), expected(elapsed, bar), "{:?} of {:?}", elapsed, bar);
        }
    }
}

#[test]
fn a_late_tap_falls_where_double_precision_puts_it() {
    let bar = Duration::from_secs(2);
    assert_eq!(phase(Duration::from_millis(300), Duration::ZERO, bar), 576);
    assert_eq!(phase(Duration::from_millis(2300), Duration::ZERO, bar), 575);
}

#[test]
fn exactly_one_bar_later_is_the_next_downbeat() {
    for bar in [1, 3, 999_999_999, 1_846_152_000, 240_000_000_000, u64::MAX / 2] {
        assert_eq!(bar_phase_ticks(bar, bar, bar), 0);
        assert_eq!(bar_phase_ticks(2 * bar, bar, bar), 0, "{}", bar);
    }
}
