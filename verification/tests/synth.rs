use chord_tool::single::Single;
use chord_tool::presets::builtin_patches;
use chord_tool::synth::{
    allocate, note_value, output_level, EnvState, SynthParams, VoiceHandle, VoicePools, Waveform,
    PROG_HIGH, PROG_LOW, PROG_MID,
};

/// A single-precision number.
fn single(v: f32) -> Single {
    Single { bits: v.to_bits() }
}

#[test]
fn waveform_from_f32_matches_variants() {
    assert_eq!(Waveform::from_f32(single(0.0)), Waveform::Sine);
    assert_eq!(Waveform::from_f32(single(1.0)), Waveform::Saw);
    assert_eq!(Waveform::from_f32(single(2.0)), Waveform::Square);
    assert_eq!(Waveform::from_f32(single(3.0)), Waveform::Triangle);
}

#[test]
fn allocate_empty() {
    let (l, m, h) = allocate(&[]);
    assert!(l.is_empty() && m.is_empty() && h.is_empty());
}

#[test]
fn allocate_one_note() {
    let (l, m, h) = allocate(&[60]);
    assert_eq!(l, vec![48]);
    assert_eq!(m, vec![60]);
    assert_eq!(h, vec![72]);
}

#[test]
fn allocate_two_notes() {
    let (l, m, h) = allocate(&[60, 64]);
    assert_eq!(l, vec![60]);
    assert_eq!(m, vec![64]);
    assert_eq!(h, vec![76]);
}

#[test]
fn allocate_five_notes() {
    let (l, m, h) = allocate(&[60, 64, 67, 71, 74]);
    assert_eq!(l, vec![60]);
    assert_eq!(m, vec![64, 67, 71]);
    assert_eq!(h, vec![74]);
}

#[test]
fn allocate_sorts_and_dedupes() {
    let (l, m, h) = allocate(&[67, 60, 64, 60]);
    assert_eq!(l, vec![60]);
    assert_eq!(m, vec![64]);
    assert_eq!(h, vec![67]);
}

#[test]
fn allocate_keeps_doubled_notes_in_range() {
    assert_eq!(allocate(&[5]), (vec![0], vec![5], vec![17]));
    assert_eq!(allocate(&[120]), (vec![108], vec![120], vec![127]));
    assert_eq!(allocate(&[250]), (vec![127], vec![250], vec![127]));
}

#[test]
fn waveform_settings_read_back_and_fractions_are_cut() {
    for w in Waveform::ALL {
        assert_eq!(Waveform::from_f32(w.to_setting()), w);
    }
    assert_eq!(Waveform::from_f32(single(2.9)), Waveform::Square);
    for v in [-1.0, 0.5, 4.0, 1e30, f32::NAN, f32::INFINITY, f32::NEG_INFINITY] {
        assert_eq!(Waveform::from_f32(single(v)), Waveform::Sine, "{}", v);
    }
}

#[test]
fn every_note_value_is_the_number_itself() {
    for n in 0..=255u8 {
        assert_eq!(note_value(n).bits, (n as f32).to_bits(), "{}", n);
    }
}

#[test]
fn output_levels_match_single_precision_arithmetic() {
    for i in 0..=4000u32 {
        let v = i as f32 / 4000.0;
        assert_eq!(output_level(single(v)), (v.clamp(0.0, 1.0) * 255.0) as u8, "{}", v);
    }
    for v in [-1.0, -0.0, 1e-42, 0.99999994, 2.0, f32::NAN, f32::INFINITY] {
        assert_eq!(output_level(single(v)), (v.clamp(0.0, 1.0) * 255.0) as u8, "{}", v);
    }
}

#[test]
fn a_patch_that_is_applied_and_captured_comes_back() {
    for patch in builtin_patches() {
        let mut params = SynthParams::defaults();
        params.apply_patch(&patch);
        assert_eq!(params.capture_patch(&patch.name, patch.mixer.note_length), patch);
    }
}

#[test]
fn the_synth_starts_with_the_default_patch() {
    let mut params = SynthParams::defaults();
    params.apply_patch(&builtin_patches()[0]);
    assert_eq!(params, SynthParams::defaults());
}

#[test]
fn an_envelope_walks_its_segments() {
    assert_eq!(EnvState::Idle.next(false, true), EnvState::Idle);
    assert_eq!(EnvState::Idle.next(true, false), EnvState::Attack);
    assert_eq!(EnvState::Attack.next(true, false), EnvState::Attack);
    assert_eq!(EnvState::Attack.next(true, true), EnvState::Decay);
    assert_eq!(EnvState::Attack.next(false, true), EnvState::Release);
    assert_eq!(EnvState::Decay.next(true, true), EnvState::Sustain);
    assert_eq!(EnvState::Sustain.next(true, true), EnvState::Sustain);
    assert_eq!(EnvState::Sustain.next(false, false), EnvState::Release);
    assert_eq!(EnvState::Release.next(false, true), EnvState::Idle);
    assert_eq!(EnvState::Release.next(true, true), EnvState::Attack);
    assert!(EnvState::Release.triggers(EnvState::Attack));
    assert!(!EnvState::Attack.triggers(EnvState::Attack));
}

#[test]
fn a_chord_is_spread_over_the_pools() {
    let mut pools = VoicePools::new(PROG_LOW, PROG_MID, PROG_HIGH);
    pools.play_chord(&[60, 64, 67, 71, 74]);
    assert_eq!(pools.low[0].midi_note, single(60.0));
    let mids: Vec<f32> = pools.mid.iter().map(|v| f32::from_bits(v.gate.bits)).collect();
    assert_eq!(mids, vec![1.0, 1.0, 1.0, 0.0]);
    assert_eq!(pools.mid[2].midi_note, single(71.0));
    assert_eq!(pools.high[0].midi_note, single(74.0));

    pools.duck(single(0.25));
    assert_eq!(pools.high[0].gate, single(0.0));
    assert_eq!(pools.high[0].release_override, single(0.25));
    pools.stop();
    assert_eq!(pools.high[0].release_override, single(0.0));
    assert_eq!(pools.high[0].midi_note, single(74.0), "the pitch is left where it was");
}

#[test]
fn a_chime_glides_one_voice_of_each_pool() {
    let mut pools = VoicePools::new(1, 2, 1);
    pools.play_chime([53, 60, 65], [60, 67, 72], single(1.8), single(0.2));
    let mut expected = VoiceHandle::new();
    expected.trigger_glide(60, 67, single(1.8), single(0.2));
    assert_eq!(pools.mid[0], expected);
    assert_eq!(pools.mid[0].glide_from, single(60.0));
    assert_eq!(pools.mid[1], VoiceHandle::new());
}
