use chord_tool::presets::{
    builtin_patches, default_note_length, default_patch, default_path, ChannelPatch, PatchStore,
};
use chord_tool::single::Single;
use chord_tool::synth::Waveform;

/// A single-precision number.
fn single(v: f32) -> Single {
    Single { bits: v.to_bits() }
}

#[test]
fn builtins_have_distinct_names() {
    let patches = builtin_patches();
    assert_eq!(patches.len(), 5);
    let mut names: Vec<&str> = patches.iter().map(|p| p.name.as_str()).collect();
    names.sort();
    names.dedup();
    assert_eq!(names.len(), 5);
}

#[test]
fn add_appends_new_patch() {
    let mut store = PatchStore {
        patches: builtin_patches(),
    };
    let before = store.patches.len();
    let mut p = default_patch();
    p.name = "Test".to_string();
    store.add(p);
    assert_eq!(store.patches.len(), before + 1);
}

#[test]
fn add_replaces_existing_patch_in_place() {
    let mut store = PatchStore {
        patches: builtin_patches(),
    };
    let before = store.patches.len();
    let mut p = default_patch();
    p.name = "Default".to_string();
    p.mixer.master_volume = single(3.0);
    store.add(p);
    assert_eq!(store.patches.len(), before);
    assert_eq!(store.patches[0].mixer.master_volume, single(3.0));
}

#[test]
fn find_returns_matching_patch() {
    let store = PatchStore {
        patches: builtin_patches(),
    };
    assert!(store.find("Warm Pad").is_some());
    assert!(store.find("Nonexistent").is_none());
}

#[test]
fn the_store_starts_with_the_built_ins_in_its_own_file() {
    let store = PatchStore::built_in();
    assert_eq!(store.patches, builtin_patches());
    assert_eq!(store.names(), vec!["Default", "Warm Pad", "Plucky", "Bassy", "Glass"]);
    assert_eq!(default_path(), "patches.toml");
    assert_eq!(default_note_length(), single(1.0));
}

#[test]
fn a_neutral_channel_is_a_short_sine() {
    let expected = ChannelPatch {
        volume: single(4.0),
        waveform: Waveform::Sine,
        attack: single(0.005),
        decay: single(0.05),
        sustain: single(0.7),
        release: single(0.1),
        cutoff: single(4000.0),
        resonance: single(0.2),
        transpose: single(0.0),
        reverb_send: single(0.0),
        pan: single(0.0),
    };
    assert_eq!(ChannelPatch::neutral(single(4.0), single(4000.0)), expected);
}

/// A channel's values, in the order of its fields.
fn channel_values(c: &ChannelPatch) -> [f32; 10] {
    let v = |s: Single| f32::from_bits(s.bits);
    [
        v(c.volume),
        v(c.attack),
        v(c.decay),
        v(c.sustain),
        v(c.release),
        v(c.cutoff),
        v(c.resonance),
        v(c.transpose),
        v(c.reverb_send),
        v(c.pan),
    ]
}

#[test]
fn the_built_ins_hold_their_values() {
    // Volume, attack, decay, sustain, release, cutoff, resonance, transpose, reverb and pan of each
    // channel; reverb mix and size, volume, fade and note length of the mixer.
    let expected: [(&str, [(Waveform, [f32; 10]); 3], [f32; 5]); 5] = [
        (
            "Default",
            [
                (Waveform::Sine, [4.0, 0.005, 0.05, 0.7, 0.1, 4000.0, 0.2, 0.0, 0.0, 0.0]),
                (Waveform::Sine, [4.0, 0.005, 0.05, 0.7, 0.1, 4000.0, 0.2, 0.0, 0.0, 0.0]),
                (Waveform::Sine, [4.0, 0.005, 0.05, 0.7, 0.1, 4000.0, 0.2, 0.0, 0.0, 0.0]),
            ],
            [0.0, 0.5, 5.0, 0.03, 1.0],
        ),
        (
            "Warm Pad",
            [
                (Waveform::Triangle, [3.5, 0.2, 0.3, 0.8, 0.8, 1500.0, 0.3, 0.0, 0.1, -0.2]),
                (Waveform::Saw, [3.0, 0.25, 0.3, 0.75, 0.9, 2500.0, 0.25, 0.0, 0.4, 0.0]),
                (Waveform::Sine, [3.0, 0.3, 0.3, 0.7, 1.0, 4000.0, 0.2, 0.0, 0.5, 0.2]),
            ],
            [0.4, 0.7, 5.0, 0.05, 1.0],
        ),
        (
            "Plucky",
            [
                (Waveform::Square, [4.0, 0.002, 0.1, 0.2, 0.15, 2500.0, 0.4, 0.0, 0.05, -0.15]),
                (Waveform::Square, [3.5, 0.002, 0.08, 0.15, 0.12, 3000.0, 0.4, 0.0, 0.15, 0.0]),
                (Waveform::Triangle, [3.0, 0.002, 0.06, 0.1, 0.1, 4000.0, 0.3, 0.0, 0.25, 0.15]),
            ],
            [0.15, 0.4, 5.0, 0.02, 0.25],
        ),
        (
            "Bassy",
            [
                (Waveform::Sine, [6.0, 0.005, 0.05, 0.9, 0.15, 800.0, 0.1, 0.0, 0.0, 0.0]),
                (Waveform::Saw, [2.5, 0.01, 0.1, 0.6, 0.2, 1800.0, 0.3, 0.0, 0.15, 0.0]),
                (Waveform::Sine, [2.0, 0.01, 0.1, 0.5, 0.25, 5000.0, 0.2, 0.0, 0.3, 0.15]),
            ],
            [0.15, 0.4, 5.0, 0.03, 0.5],
        ),
        (
            "Glass",
            [
                (Waveform::Sine, [3.0, 0.1, 0.2, 0.6, 1.2, 2000.0, 0.15, 0.0, 0.3, -0.4]),
                (Waveform::Sine, [3.0, 0.15, 0.2, 0.6, 1.5, 5000.0, 0.2, 0.0, 0.5, 0.0]),
                (Waveform::Sine, [3.0, 0.2, 0.2, 0.6, 2.0, 8000.0, 0.25, 0.0, 0.7, 0.4]),
            ],
            [0.6, 0.85, 5.0, 0.06, 1.0],
        ),
    ];
    for (patch, (name, channels, mixer)) in builtin_patches().iter().zip(expected) {
        assert_eq!(patch.name, name);
        for (channel, (waveform, values)) in [&patch.low, &patch.mid, &patch.high].into_iter().zip(channels) {
            assert_eq!(channel.waveform, waveform, "{}", name);
            assert_eq!(channel_values(channel), values, "{}", name);
        }
        let m = &patch.mixer;
        let values = [m.reverb_mix, m.reverb_size, m.master_volume, m.preview_fade, m.note_length];
        assert_eq!(values.map(|v| f32::from_bits(v.bits)), mixer, "{}", name);
        assert!(!m.master_mute);
    }
}

#[test]
fn a_copy_of_the_store_stands_alone() {
    let store = PatchStore::built_in();
    let mut copy = store.clone();
    assert_eq!(copy.patches, store.patches);
    let mut p = default_patch();
    p.name = "Test".to_string();
    copy.add(p);
    assert_eq!(copy.patches.len(), store.patches.len() + 1);
    assert_eq!(store.patches, builtin_patches());
}
