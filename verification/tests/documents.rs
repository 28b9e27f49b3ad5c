//! Sessions, libraries and patches as TOML text.

use std::collections::BTreeSet;

use chord_tool::document::{PatternDocWire, ProjectWire, SlotWire};
use chord_tool::export::{import, score_file, ImportError};
use chord_tool::keyboard::{KeyPosition, PositionSet};
use chord_tool::midi;
use chord_tool::midi::Score;
use chord_tool::music::{Key, Scale, ScaleDegree, Transformation, TONIC_MAX};
use chord_tool::presets::{
    builtin_patches, default_note_length, warm_pad_patch, ChannelPatch, MixerPatch, Patch,
};
use chord_tool::progression::{Progression, ProgressionEntry, Registers, Slot, MAX_OFFSET_TICKS};
use chord_tool::project::{
    decode, describe, encode, restore, PatternDoc, Project, ProjectError, Restored, VERSION,
};
use chord_tool::rhythm::{
    default_gain, default_hold, is_zero_mute, LayerWire, PatternWire, RhythmLayer,
    RhythmPattern, DEFAULT_HOLD,
};
use chord_tool::rhythm_store::RhythmStore;
use chord_tool::single::Single;
use chord_tool::smf;
use chord_tool::smf::{SmfError, SmfOptions};
use chord_tool::synth::Waveform;
use toml::{Table, Value};

/// A single-precision number.
fn single(v: f32) -> Single {
    Single { bits: v.to_bits() }
}

// ---- reading values out of TOML ----

fn of<'a>(table: &'a Table, key: &str) -> Result<&'a Value, String> {
    table.get(key).ok_or_else(|| format!("missing field `{}`", key))
}

fn text(value: &Value) -> Result<String, String> {
    value.as_str().map(str::to_string).ok_or_else(|| "expected a string".to_string())
}

fn number(value: &Value) -> Result<Single, String> {
    match value {
        Value::Float(v) => Ok(single(*v as f32)),
        Value::Integer(v) => Ok(single(*v as f32)),
        _ => Err("expected a number".to_string()),
    }
}

fn whole<T: TryFrom<i64>>(value: &Value) -> Result<T, String> {
    let v = value.as_integer().ok_or("expected an integer")?;
    T::try_from(v).map_err(|_| format!("{} is out of range", v))
}

fn table(value: &Value) -> Result<&Table, String> {
    value.as_table().ok_or_else(|| "expected a table".to_string())
}

fn each<T>(value: &Value, read: fn(&Value) -> Result<T, String>) -> Result<Vec<T>, String> {
    value.as_array().ok_or("expected an array")?.iter().map(read).collect()
}

fn read_layer(value: &Value) -> Result<LayerWire, String> {
    let t = table(value)?;
    Ok(LayerWire {
        gain: t.get("gain").map(number).transpose()?.unwrap_or(default_gain()),
        steps: text(of(t, "steps")?)?,
    })
}

fn read_pattern(value: &Value) -> Result<PatternWire, String> {
    let t = table(value)?;
    Ok(PatternWire {
        name: text(of(t, "name")?)?,
        hold: t.get("hold").map(whole).transpose()?.unwrap_or(default_hold()),
        gate: t.get("gate").map(number).transpose()?,
        mute: t.get("mute").map(whole).transpose()?.unwrap_or(0),
        layers: t.get("layers").map(|v| each(v, read_layer)).transpose()?.unwrap_or_default(),
    })
}

fn read_slot(value: &Value) -> Result<SlotWire, String> {
    let t = table(value)?;
    let pattern = match t.get("pattern") {
        None => None,
        Some(Value::String(name)) => Some(PatternDocWire::Name(name.clone())),
        Some(other) => Some(PatternDocWire::Inline(read_pattern(other)?)),
    };
    Ok(SlotWire {
        kind: text(of(t, "kind")?)?,
        degree: t.get("degree").map(text).transpose()?,
        transformation: t.get("transformation").map(text).transpose()?,
        pattern,
        offset_ticks: t.get("offset_ticks").map(whole).transpose()?.unwrap_or(0),
        left: t.get("left").map(|v| each(v, text)).transpose()?,
        right: t.get("right").map(|v| each(v, text)).transpose()?,
    })
}

/// The values of a session document, out of its text.
fn values(text_of_file: &str) -> Result<ProjectWire, String> {
    let t: Table = text_of_file.parse::<Table>().map_err(|e| e.to_string())?;
    Ok(ProjectWire {
        version: whole(of(&t, "version")?)?,
        key_tonic: whole(of(&t, "key_tonic")?)?,
        key_scale: text(of(&t, "key_scale")?)?,
        bpm: whole(of(&t, "bpm")?)?,
        note_length: number(of(&t, "note_length")?)?,
        slots: each(of(&t, "slots")?, read_slot)?,
        rhythms: t.get("rhythms").map(|v| each(v, read_pattern)).transpose()?.unwrap_or_default(),
    })
}

/// A session document out of its text.
fn parse(text_of_file: &str) -> Result<Project, String> {
    values(text_of_file)?.into_project().map_err(|e| e.message())
}

/// The patterns of a library file.
fn patterns_from(text_of_file: &str) -> Result<Vec<RhythmPattern>, String> {
    let t: Table = text_of_file.parse::<Table>().map_err(|e| e.to_string())?;
    each(of(&t, "rhythms")?, read_pattern)?
        .into_iter()
        .map(|wire| wire.into_pattern().map_err(|e| e.message()))
        .collect()
}

fn read_channel(value: &Value) -> Result<ChannelPatch, String> {
    let t = table(value)?;
    let name = text(of(t, "waveform")?)?;
    let waveform = Waveform::ALL
        .into_iter()
        .find(|w| w.name() == name)
        .ok_or_else(|| format!("unknown variant `{}`", name))?;
    Ok(ChannelPatch {
        volume: number(of(t, "volume")?)?,
        waveform,
        attack: number(of(t, "attack")?)?,
        decay: number(of(t, "decay")?)?,
        sustain: number(of(t, "sustain")?)?,
        release: number(of(t, "release")?)?,
        cutoff: number(of(t, "cutoff")?)?,
        resonance: number(of(t, "resonance")?)?,
        transpose: number(of(t, "transpose")?)?,
        reverb_send: number(of(t, "reverb_send")?)?,
        pan: number(of(t, "pan")?)?,
    })
}

fn read_patch(value: &Value) -> Result<Patch, String> {
    let t = table(value)?;
    let m = table(of(t, "mixer")?)?;
    Ok(Patch {
        name: text(of(t, "name")?)?,
        low: read_channel(of(t, "low")?)?,
        mid: read_channel(of(t, "mid")?)?,
        high: read_channel(of(t, "high")?)?,
        mixer: MixerPatch {
            reverb_mix: number(of(m, "reverb_mix")?)?,
            reverb_size: number(of(m, "reverb_size")?)?,
            master_volume: number(of(m, "master_volume")?)?,
            master_mute: of(m, "master_mute")?.as_bool().ok_or("expected a boolean")?,
            preview_fade: number(of(m, "preview_fade")?)?,
            note_length: m
                .get("note_length")
                .map(number)
                .transpose()?
                .unwrap_or(default_note_length()),
        },
    })
}

/// The patches of a patch file.
fn patches_from(text_of_file: &str) -> Result<Vec<Patch>, String> {
    let t: Table = text_of_file.parse::<Table>().map_err(|e| e.to_string())?;
    each(of(&t, "patches")?, read_patch)
}

// ---- writing values as TOML ----

fn decimal(v: Single) -> Value {
    Value::Float(f32::from_bits(v.bits) as f64)
}

fn strings(names: &[String]) -> Value {
    Value::Array(names.iter().map(|n| Value::String(n.clone())).collect())
}

fn write_pattern(wire: &PatternWire) -> Value {
    let mut t = Table::new();
    t.insert("name".to_string(), Value::String(wire.name.clone()));
    t.insert("hold".to_string(), Value::Integer(wire.hold as i64));
    if let Some(gate) = wire.gate {
        t.insert("gate".to_string(), decimal(gate));
    }
    if !is_zero_mute(&wire.mute) {
        t.insert("mute".to_string(), Value::Integer(wire.mute as i64));
    }
    let layers = wire.layers.iter().map(|layer| {
        let mut l = Table::new();
        l.insert("gain".to_string(), decimal(layer.gain));
        l.insert("steps".to_string(), Value::String(layer.steps.clone()));
        Value::Table(l)
    });
    t.insert("layers".to_string(), Value::Array(layers.collect()));
    Value::Table(t)
}

fn write_slot(wire: &SlotWire) -> Value {
    let mut t = Table::new();
    t.insert("kind".to_string(), Value::String(wire.kind.clone()));
    if let Some(degree) = &wire.degree {
        t.insert("degree".to_string(), Value::String(degree.clone()));
    }
    if let Some(transformation) = &wire.transformation {
        t.insert("transformation".to_string(), Value::String(transformation.clone()));
    }
    match &wire.pattern {
        None => {}
        Some(PatternDocWire::Name(name)) => {
            t.insert("pattern".to_string(), Value::String(name.clone()));
        }
        Some(PatternDocWire::Inline(pattern)) => {
            t.insert("pattern".to_string(), write_pattern(pattern));
        }
    }
    if wire.offset_ticks != 0 {
        t.insert("offset_ticks".to_string(), Value::Integer(wire.offset_ticks as i64));
    }
    if let Some(left) = &wire.left {
        t.insert("left".to_string(), strings(left));
    }
    if let Some(right) = &wire.right {
        t.insert("right".to_string(), strings(right));
    }
    Value::Table(t)
}

/// A session document as text.
fn render(wire: ProjectWire) -> Result<String, String> {
    let mut t = Table::new();
    t.insert("version".to_string(), Value::Integer(wire.version as i64));
    t.insert("key_tonic".to_string(), Value::Integer(wire.key_tonic as i64));
    t.insert("key_scale".to_string(), Value::String(wire.key_scale.clone()));
    t.insert("bpm".to_string(), Value::Integer(wire.bpm as i64));
    t.insert("note_length".to_string(), decimal(wire.note_length));
    t.insert("slots".to_string(), Value::Array(wire.slots.iter().map(write_slot).collect()));
    if !wire.rhythms.is_empty() {
        let rhythms = wire.rhythms.iter().map(write_pattern).collect();
        t.insert("rhythms".to_string(), Value::Array(rhythms));
    }
    toml::to_string(&t).map_err(|e| e.to_string())
}

/// A library file.
fn patterns_to(patterns: &[RhythmPattern]) -> String {
    let wires = patterns.iter().map(|p| write_pattern(&PatternWire::from_pattern(p)));
    let mut t = Table::new();
    t.insert("rhythms".to_string(), Value::Array(wires.collect()));
    toml::to_string_pretty(&t).unwrap()
}

fn write_channel(c: &ChannelPatch) -> Value {
    let mut t = Table::new();
    t.insert("volume".to_string(), decimal(c.volume));
    t.insert("waveform".to_string(), Value::String(c.waveform.name().to_string()));
    t.insert("attack".to_string(), decimal(c.attack));
    t.insert("decay".to_string(), decimal(c.decay));
    t.insert("sustain".to_string(), decimal(c.sustain));
    t.insert("release".to_string(), decimal(c.release));
    t.insert("cutoff".to_string(), decimal(c.cutoff));
    t.insert("resonance".to_string(), decimal(c.resonance));
    t.insert("transpose".to_string(), decimal(c.transpose));
    t.insert("reverb_send".to_string(), decimal(c.reverb_send));
    t.insert("pan".to_string(), decimal(c.pan));
    Value::Table(t)
}

/// A patch file.
fn patches_to(patches: &[Patch]) -> String {
    let all = patches.iter().map(|p| {
        let mut m = Table::new();
        m.insert("reverb_mix".to_string(), decimal(p.mixer.reverb_mix));
        m.insert("reverb_size".to_string(), decimal(p.mixer.reverb_size));
        m.insert("master_volume".to_string(), decimal(p.mixer.master_volume));
        m.insert("master_mute".to_string(), Value::Boolean(p.mixer.master_mute));
        m.insert("preview_fade".to_string(), decimal(p.mixer.preview_fade));
        m.insert("note_length".to_string(), decimal(p.mixer.note_length));
        let mut t = Table::new();
        t.insert("name".to_string(), Value::String(p.name.clone()));
        t.insert("low".to_string(), write_channel(&p.low));
        t.insert("mid".to_string(), write_channel(&p.mid));
        t.insert("high".to_string(), write_channel(&p.high));
        t.insert("mixer".to_string(), Value::Table(m));
        Value::Table(t)
    });
    let mut t = Table::new();
    t.insert("patches".to_string(), Value::Array(all.collect()));
    toml::to_string_pretty(&t).unwrap()
}

// ---- patterns ----

fn rewritten(pattern: &RhythmPattern) -> RhythmPattern {
    let mut back = patterns_from(&patterns_to(&[pattern.clone()])).unwrap();
    assert_eq!(back.len(), 1);
    back.remove(0)
}

#[test]
fn the_mute_survives_a_toml_round_trip() {
    let mut pattern = RhythmPattern::from_step_string("Cut", single(0.5), "x---").unwrap();
    pattern.mute_ticks = 480;
    assert_eq!(rewritten(&pattern), pattern);
}

#[test]
fn a_pattern_without_a_mute_in_the_file_reads_as_no_mute() {
    let text = "[[rhythms]]\nname = \"Old\"\ngate = 0.5\n\n[[rhythms.layers]]\nsteps = \"x---\"\n";
    let rhythms = patterns_from(text).unwrap();
    assert_eq!(rhythms[0].mute_ticks, 0);
}

#[test]
fn a_pattern_with_no_mute_does_not_write_the_field() {
    let pattern = RhythmPattern::from_step_string("Plain", single(0.5), "x---").unwrap();
    let text = patterns_to(&[pattern]);
    assert!(!text.contains("mute"), "rendered:\n{}", text);
}

#[test]
fn the_hold_is_written_as_whole_ticks() {
    // A file meant to be edited has to be readable.
    let pattern = RhythmPattern::from_step_string("Q", single(0.8), "xxxx").unwrap();
    assert_eq!(pattern.hold, 768, "0.8 of a 960-tick cell");
    let text = patterns_to(&[pattern.clone()]);
    assert!(text.contains("hold = 768"), "rendered:\n{}", text);
    assert!(!text.contains("gate"), "the old spelling is read-only");
    assert_eq!(rewritten(&pattern), pattern);
}

#[test]
fn a_file_from_before_ticks_keeps_the_sound_it_had() {
    // `gate` is a fraction of a cell. Reading it must convert against the
    // grid the file's own layers describe.
    let text = "[[rhythms]]\nname = \"Old\"\ngate = 0.5\n\n\
                [[rhythms.layers]]\nsteps = \"xxxxxxxx\"\n";
    let rhythms = patterns_from(text).unwrap();
    assert_eq!(rhythms[0].hold, 240, "half of an eighth-note cell");

    // And the same gate on a coarser grid is a longer hold.
    let coarse = "[[rhythms]]\nname = \"Old\"\ngate = 0.5\n\n\
                  [[rhythms.layers]]\nsteps = \"x---\"\n";
    let rhythms = patterns_from(coarse).unwrap();
    assert_eq!(rhythms[0].hold, 480);
}

#[test]
fn a_pattern_round_trips_through_toml() {
    let pattern = RhythmPattern {
        name: "Stack".into(),
        hold: 480,
        mute_ticks: 0,
        layers: vec![
            RhythmLayer::from_step_string(single(1.0), "x--x--x-").unwrap(),
            RhythmLayer::from_step_string(single(0.7), "--------").unwrap(),
        ],
    };
    assert_eq!(rewritten(&pattern), pattern);
}

#[test]
fn the_serialized_form_is_the_readable_step_string() {
    let pattern = RhythmPattern::from_step_string("Offbeat", single(0.5), "-x-x-x-x").unwrap();
    let text = patterns_to(&[pattern]);
    assert!(text.contains(r#"steps = "-x-x-x-x""#), "rendered:\n{}", text);
    assert!(text.contains(r#"name = "Offbeat""#), "rendered:\n{}", text);
}

#[test]
fn toml_rejects_a_bad_step_string() {
    let text = "[[rhythms]]\nname = \"x\"\ngate = 0.5\n\n[[rhythms.layers]]\nsteps = \"xxo-\"\n";
    let err = patterns_from(text).unwrap_err();
    assert!(err.contains('o'), "message was: {}", err);
}

#[test]
fn toml_rejects_a_bad_resolution() {
    let text = "[[rhythms]]\nname = \"x\"\ngate = 0.5\n\n[[rhythms.layers]]\nsteps = \"x---x\"\n";
    assert!(patterns_from(text).is_err());
}

#[test]
fn toml_rejects_layer_length_mismatch() {
    let text = "[[rhythms]]\nname = \"x\"\ngate = 0.5\n\n\
                [[rhythms.layers]]\nsteps = \"x---\"\n\n\
                [[rhythms.layers]]\nsteps = \"xxxxxxxx\"\n";
    let err = patterns_from(text).unwrap_err();
    assert!(err.contains("grid"), "message was: {}", err);
}

#[test]
fn toml_rejects_a_pattern_with_no_layers() {
    let text = "[[rhythms]]\nname = \"x\"\ngate = 0.5\n";
    assert!(patterns_from(text).is_err());
}

#[test]
fn a_layer_defaults_to_full_gain_and_a_pattern_to_the_default_hold() {
    let text = "[[rhythms]]\nname = \"Bare\"\n\n[[rhythms.layers]]\nsteps = \"x---\"\n";
    let rhythms = patterns_from(text).unwrap();
    assert_eq!(rhythms[0].hold, DEFAULT_HOLD);
    assert_eq!(rhythms[0].layers[0].gain, single(1.0));
}

#[test]
fn toml_round_trip_preserves_every_pattern() {
    let store = RhythmStore::built_in();
    let back = patterns_from(&patterns_to(&store.patterns)).unwrap();
    assert_eq!(store.patterns, back);
}

#[test]
fn an_empty_store_round_trips() {
    let store = RhythmStore::default();
    assert!(store.patterns.is_empty());
    assert_eq!(patterns_from(&patterns_to(&store.patterns)).unwrap(), Vec::new());
}

#[test]
fn save_then_load_keeps_a_multi_layer_pattern() {
    let mut store = RhythmStore::default();
    let mut pattern = RhythmPattern::from_step_string("Stack", single(0.4), "x--x--x-").unwrap();
    pattern.layers.push(RhythmLayer::from_step_string(single(0.7), "--------").unwrap());
    store.add(pattern.clone());

    assert_eq!(patterns_from(&patterns_to(&store.patterns)).unwrap(), vec![pattern]);
}

#[test]
fn a_malformed_step_grid_is_reported_on_load() {
    let file = "[[rhythms]]\nname = \"Bad\"\ngate = 0.5\n\n[[rhythms.layers]]\nsteps = \"xxo-\"\n";
    let err = patterns_from(file).unwrap_err();
    assert!(err.contains('o'), "message was: {}", err);
}

// ---- patches ----

#[test]
fn toml_round_trip_preserves_all_fields() {
    let patches = builtin_patches();
    let back = patches_from(&patches_to(&patches)).unwrap();
    assert_eq!(patches.len(), back.len());
    for (a, b) in patches.iter().zip(back.iter()) {
        assert_eq!(a, b);
    }
}

#[test]
fn waveform_serializes_as_lowercase_name() {
    let text = patches_to(&[warm_pad_patch()]);
    assert!(text.contains("waveform = \"triangle\""));
    assert!(text.contains("waveform = \"saw\""));
    assert!(text.contains("waveform = \"sine\""));
}

#[test]
fn note_length_serializes_and_round_trips() {
    let text = patches_to(&builtin_patches());
    assert!(text.contains("note_length"));
    let back = patches_from(&text).unwrap();
    assert_eq!(back[2].mixer.note_length, single(0.25)); // Plucky
    assert_eq!(back[3].mixer.note_length, single(0.5)); // Bassy
}

#[test]
fn old_patches_without_note_length_default_to_whole() {
    // A patch file without a note length should still load.
    let text = r#"
[[patches]]
name = "Legacy"

[patches.low]
volume = 4.0
waveform = "sine"
attack = 0.005
decay = 0.05
sustain = 0.7
release = 0.1
cutoff = 4000.0
resonance = 0.2
transpose = 0.0
reverb_send = 0.0
pan = 0.0

[patches.mid]
volume = 4.0
waveform = "sine"
attack = 0.005
decay = 0.05
sustain = 0.7
release = 0.1
cutoff = 4000.0
resonance = 0.2
transpose = 0.0
reverb_send = 0.0
pan = 0.0

[patches.high]
volume = 4.0
waveform = "sine"
attack = 0.005
decay = 0.05
sustain = 0.7
release = 0.1
cutoff = 4000.0
resonance = 0.2
transpose = 0.0
reverb_send = 0.0
pan = 0.0

[patches.mixer]
reverb_mix = 0.0
reverb_size = 0.5
master_volume = 5.0
master_mute = false
preview_fade = 0.03
"#;
    let patches = patches_from(text).unwrap();
    assert_eq!(patches[0].mixer.note_length, single(1.0));
}

// ---- sessions ----

fn c_major() -> Key {
    Key::new(60, Scale::Major)
}

fn entry(
    degree: ScaleDegree,
    transformation: Option<Transformation>,
    left: Option<&[KeyPosition]>,
    right: Option<&[KeyPosition]>,
) -> Slot {
    Slot::Chord(ProgressionEntry {
        registers: Registers {
            left: left.map(PositionSet::from_positions),
            right: right.map(PositionSet::from_positions),
        },
        ..ProgressionEntry::new(degree, transformation)
    })
}

fn progression(slots: Vec<Slot>) -> Progression {
    let mut p = Progression::new();
    p.slots = slots;
    p
}

fn session_back(prog: &Progression, key: Key, bpm: u16, note_length: f32) -> Restored {
    session_back_with(prog, &RhythmStore::default(), key, bpm, note_length)
}

fn session_back_with(
    prog: &Progression,
    rhythms: &RhythmStore,
    key: Key,
    bpm: u16,
    note_length: f32,
) -> Restored {
    let bytes = encode(prog, rhythms, key, bpm, single(note_length), render).unwrap();
    let project = decode(&bytes, parse).unwrap();
    restore(&project).unwrap()
}

#[test]
fn a_progression_round_trips_exactly() {
    let prog = progression(vec![
        entry(
            ScaleDegree::I,
            Some(Transformation::Diatonic7),
            Some(&[KeyPosition::LeftIndex]),
            None,
        ),
        Slot::Rest,
        entry(
            ScaleDegree::V,
            Some(Transformation::Dom7),
            Some(&[KeyPosition::LeftPinky]),
            Some(&[KeyPosition::RightIndex, KeyPosition::RightMiddle]),
        ),
    ]);

    let restored = session_back(&prog, c_major(), 128, 0.75);
    assert_eq!(restored.slots, prog.slots);
    assert_eq!(restored.key, c_major());
    assert_eq!(restored.bpm, 128);
    assert_eq!(restored.note_length, single(0.75));
}

#[test]
fn an_empty_progression_round_trips() {
    let restored = session_back(&Progression::new(), c_major(), 120, 1.0);
    assert!(restored.slots.is_empty());
}

#[test]
fn a_never_set_register_stays_distinct_from_an_explicitly_empty_one() {
    // `None` and `Some(empty)` resolve differently, so the document has to
    // keep them apart rather than collapsing both to "no keys".
    let prog = progression(vec![
        entry(ScaleDegree::I, None, None, None),
        entry(ScaleDegree::I, None, Some(&[]), Some(&[])),
    ]);
    let restored = session_back(&prog, c_major(), 120, 1.0);

    let registers = |i: usize| match &restored.slots[i] {
        Slot::Chord(e) => e.registers,
        other => panic!("expected a chord, got {:?}", other),
    };
    assert_eq!(registers(0).left, None);
    assert_eq!(registers(0).right, None);
    assert_eq!(registers(1).left, Some(Default::default()));
    assert_eq!(registers(1).right, Some(Default::default()));
}

#[test]
fn both_scales_round_trip() {
    for scale in [Scale::Major, Scale::Minor] {
        let restored = session_back(&Progression::new(), Key::new(57, scale), 100, 0.5);
        assert_eq!(restored.key.scale, scale);
        assert_eq!(restored.key.tonic, 57);
    }
}

#[test]
fn every_transformation_has_a_unique_wire_name() {
    // A duplicate or missing name would silently corrupt a reimported
    // progression, so check the whole set explicitly.
    let all = [
        Transformation::Dom7,
        Transformation::Dom7b9,
        Transformation::Dom9,
        Transformation::Min7b5,
        Transformation::Sus2,
        Transformation::SixNine,
        Transformation::Dim7,
        Transformation::Dom7s9,
        Transformation::Min9,
        Transformation::Aug,
        Transformation::Maj7s11,
        Transformation::Dom7s11,
        Transformation::MinMaj7,
        Transformation::Eleven,
        Transformation::Thirteen,
        Transformation::Diatonic7,
        Transformation::Diatonic9,
        Transformation::Sus4,
        Transformation::Diatonic6,
        Transformation::Diatonic7_9,
        Transformation::Diatonic7_13,
        Transformation::Sus4_7,
        Transformation::DiatonicFull,
    ];

    let mut names = BTreeSet::new();
    for t in all {
        let text = t.wire_name();
        assert_eq!(Transformation::from_wire_name(text), Some(t));
        assert!(names.insert(text), "duplicate wire name {}", text);
    }
    assert_eq!(names.len(), all.len());
}

#[test]
fn every_key_position_has_a_unique_wire_name() {
    let all = [
        KeyPosition::LeftPinky,
        KeyPosition::LeftRing,
        KeyPosition::LeftMiddle,
        KeyPosition::LeftIndex,
        KeyPosition::LeftInner,
        KeyPosition::RightInner,
        KeyPosition::RightIndex,
        KeyPosition::RightMiddle,
        KeyPosition::RightRing,
        KeyPosition::RightPinky,
        KeyPosition::LeftPinkyBelow,
        KeyPosition::LeftRingBelow,
        KeyPosition::LeftMiddleBelow,
        KeyPosition::LeftIndexBelow,
        KeyPosition::LeftInnerBelow,
        KeyPosition::RightInnerBelow,
        KeyPosition::RightIndexBelow,
        KeyPosition::RightMiddleBelow,
        KeyPosition::RightRingBelow,
        KeyPosition::RightPinkyBelow,
        KeyPosition::TopLeft,
        KeyPosition::TopRow1,
        KeyPosition::TopRow3,
        KeyPosition::TopRow4,
    ];

    let mut names = BTreeSet::new();
    for p in all {
        let text = p.wire_name();
        assert_eq!(KeyPosition::from_wire_name(text), Some(p));
        assert!(names.insert(text), "duplicate wire name {}", text);
    }
    assert_eq!(names.len(), all.len());
}

#[test]
fn the_document_is_readable_toml() {
    let prog = progression(vec![entry(
        ScaleDegree::I,
        Some(Transformation::Diatonic7),
        None,
        None,
    )]);
    let text = String::from_utf8(
        encode(&prog, &RhythmStore::default(), c_major(), 120, single(0.5), render).unwrap(),
    )
    .unwrap();
    assert!(text.contains("version = 3"));
    assert!(text.contains("kind = \"chord\""));
    assert!(text.contains("degree = \"i\""));
    assert!(text.contains("transformation = \"diatonic7\""));
}

#[test]
fn a_newer_version_is_refused_with_a_clear_message() {
    let text = "version = 99\nkey_tonic = 60\nkey_scale = \"major\"\nbpm = 120\nnote_length = 1.0\nslots = []\n";
    match decode(text.as_bytes(), parse) {
        Err(ProjectError::UnsupportedVersion(99)) => {}
        other => panic!("expected an unsupported-version error, got {:?}", other),
    }
}

#[test]
fn malformed_payloads_are_refused() {
    assert!(matches!(
        decode(b"this is not toml", parse),
        Err(ProjectError::Malformed(_))
    ));
    assert!(matches!(
        decode(&[0xFF, 0xFE, 0xFD], parse),
        Err(ProjectError::Encoding)
    ));
}

#[test]
fn an_unknown_slot_kind_is_refused() {
    let text = "version = 1\nkey_tonic = 60\nkey_scale = \"major\"\nbpm = 120\nnote_length = 1.0\n\n[[slots]]\nkind = \"arpeggio\"\n";
    let project = decode(text.as_bytes(), parse).unwrap();
    assert!(matches!(
        restore(&project),
        Err(ProjectError::Invalid(_))
    ));
}

#[test]
fn a_chord_without_a_degree_is_refused() {
    let text = "version = 1\nkey_tonic = 60\nkey_scale = \"major\"\nbpm = 120\nnote_length = 1.0\n\n[[slots]]\nkind = \"chord\"\n";
    let project = decode(text.as_bytes(), parse).unwrap();
    assert!(matches!(
        restore(&project),
        Err(ProjectError::Invalid(_))
    ));
}

#[test]
fn an_out_of_range_tonic_is_clamped_on_restore() {
    let text = "version = 1\nkey_tonic = 250\nkey_scale = \"major\"\nbpm = 120\nnote_length = 1.0\nslots = []\n";
    let project = decode(text.as_bytes(), parse).unwrap();
    let restored = restore(&project).unwrap();
    assert_eq!(restored.key.tonic, TONIC_MAX);
}

// ---- rhythm patterns and offsets ----

/// The palette an export snapshots: two named patterns.
fn library() -> RhythmStore {
    let mut store = RhythmStore::default();
    store.add(pattern("Offbeat"));
    store.add(pattern("Quarters"));
    store
}

/// A pattern a slot can *own*, matching the ones `library()` offers.
fn pattern(name: &str) -> RhythmPattern {
    match name {
        "Offbeat" => RhythmPattern::from_step_string("Offbeat", single(0.5), "-x-x-x-x").unwrap(),
        "Quarters" => RhythmPattern::from_step_string("Quarters", single(0.8), "x---").unwrap(),
        other => RhythmPattern::from_step_string(other, single(0.5), "x---").unwrap(),
    }
}

fn assigned(degree: ScaleDegree, pattern: Option<RhythmPattern>, offset: i32) -> Slot {
    let mut entry = ProgressionEntry::new(degree, None);
    entry.pattern = pattern;
    entry.offset_ticks = offset;
    Slot::Chord(entry)
}

fn pattern_of(slot: &Slot) -> Option<RhythmPattern> {
    match slot {
        Slot::Chord(e) => e.pattern.clone(),
        other => panic!("expected a chord, got {:?}", other),
    }
}

fn offset_of(slot: &Slot) -> i32 {
    match slot {
        Slot::Chord(e) => e.offset_ticks,
        other => panic!("expected a chord, got {:?}", other),
    }
}

#[test]
fn patterns_and_offsets_round_trip() {
    let prog = progression(vec![
        assigned(ScaleDegree::I, Some(pattern("Offbeat")), 0),
        Slot::Rest,
        assigned(ScaleDegree::V, None, -240),
        assigned(ScaleDegree::VI, Some(pattern("Quarters")), 480),
    ]);

    let restored = session_back_with(&prog, &library(), c_major(), 120, 0.5);
    assert_eq!(restored.slots, prog.slots);
    assert_eq!(restored.rhythms.len(), 2, "the palette came along");
}

#[test]
fn the_whole_library_travels_as_a_palette() {
    // Slots do not reference the library, so what is embedded is the palette
    // itself rather than only the entries in use.
    let prog = progression(vec![assigned(ScaleDegree::I, Some(pattern("Offbeat")), 0)]);
    let restored = session_back_with(&prog, &library(), c_major(), 120, 0.5);
    let names: Vec<&str> = restored.rhythms.iter().map(|p| p.name.as_str()).collect();
    assert_eq!(names, vec!["Offbeat", "Quarters"]);
}

#[test]
fn a_slots_own_pattern_keeps_its_layers_and_its_step_string() {
    let mut own = RhythmPattern::from_step_string("Stack", single(0.4), "x--x--x-").unwrap();
    own.layers
        .push(RhythmLayer::from_step_string(single(0.7), "--------").unwrap());

    let prog = progression(vec![assigned(ScaleDegree::I, Some(own.clone()), 0)]);
    let bytes = encode(&prog, &RhythmStore::default(), c_major(), 120, single(1.0), render).unwrap();
    let text = String::from_utf8(bytes.clone()).unwrap();
    assert!(text.contains(r#"steps = "x--x--x-""#), "rendered:\n{}", text);

    let restored = session_back_with(&prog, &RhythmStore::default(), c_major(), 120, 1.0);
    assert_eq!(pattern_of(&restored.slots[0]), Some(own));
    assert!(
        restored.rhythms.is_empty(),
        "the palette was empty, so nothing was embedded"
    );
}

#[test]
fn two_slots_that_started_alike_keep_their_own_hits() {
    // Two chords both given `Quarters`, with one of them edited. The file has to bring back two different rhythms,
    // not one shared name.
    let mut edited = pattern("Quarters");
    for layer in edited.layers.iter_mut() {
        layer.steps[1] = true;
    }
    let prog = progression(vec![
        assigned(ScaleDegree::I, Some(pattern("Quarters")), 0),
        assigned(ScaleDegree::V, Some(edited.clone()), 0),
    ]);

    let restored = session_back_with(&prog, &library(), c_major(), 120, 0.5);
    assert_eq!(pattern_of(&restored.slots[0]), Some(pattern("Quarters")));
    assert_eq!(pattern_of(&restored.slots[1]), Some(edited));
    assert_ne!(
        pattern_of(&restored.slots[0]),
        pattern_of(&restored.slots[1]),
        "the imported copies are independent"
    );
}

#[test]
fn a_slot_with_no_pattern_writes_no_pattern() {
    let prog = progression(vec![assigned(ScaleDegree::I, None, 0)]);
    let restored = session_back_with(&prog, &library(), c_major(), 120, 0.5);
    assert_eq!(pattern_of(&restored.slots[0]), None);
    assert_eq!(restored.rhythms.len(), 2, "the palette is still snapshotted");
}

#[test]
fn a_slot_naming_a_pattern_the_file_lacks_is_refused() {
    // Hand-edited or corrupted: the reference must not silently become a
    // whole-bar chord.
    let text = "version = 2\nkey_tonic = 60\nkey_scale = \"major\"\nbpm = 120\n\
                note_length = 1.0\n\n[[slots]]\nkind = \"chord\"\ndegree = \"i\"\n\
                pattern = \"Missing\"\n";
    let project = decode(text.as_bytes(), parse).unwrap();
    match restore(&project) {
        Err(ProjectError::Invalid(msg)) => {
            assert!(msg.contains("Missing"), "message was: {}", msg)
        }
        other => panic!("expected an invalid-document error, got {:?}", other),
    }
}

#[test]
fn a_version_1_document_still_restores() {
    // A version 1 document knows no rhythm patterns, and must keep importing.
    let text = "version = 1\nkey_tonic = 60\nkey_scale = \"major\"\nbpm = 128\n\
                note_length = 0.75\n\n[[slots]]\nkind = \"chord\"\ndegree = \"v\"\n\
                transformation = \"dom7\"\nleft = [\"left_index\"]\n\n\
                [[slots]]\nkind = \"rest\"\n";
    let project = decode(text.as_bytes(), parse).unwrap();
    let restored = restore(&project).unwrap();

    assert_eq!(restored.slots.len(), 2);
    assert_eq!(pattern_of(&restored.slots[0]), None, "no pattern in v1");
    assert_eq!(offset_of(&restored.slots[0]), 0, "no offset in v1");
    assert!(restored.rhythms.is_empty());
    assert_eq!(restored.bpm, 128);
    assert_eq!(restored.note_length, single(0.75));
    assert_eq!(restored.key, c_major());
    match &restored.slots[0] {
        Slot::Chord(e) => {
            assert_eq!(e.degree, ScaleDegree::V);
            assert_eq!(e.transformation, Some(Transformation::Dom7));
            assert_eq!(
                e.registers.left,
                Some(PositionSet::from_positions(&[KeyPosition::LeftIndex])),
                "the register snapshot survived"
            );
        }
        other => panic!("expected a chord, got {:?}", other),
    }
}

#[test]
fn output_is_written_as_the_current_version_with_the_pattern_inline() {
    let prog = progression(vec![assigned(ScaleDegree::I, Some(pattern("Quarters")), 120)]);
    let bytes = encode(&prog, &library(), c_major(), 120, single(1.0), render).unwrap();
    let project = decode(&bytes, parse).unwrap();
    assert_eq!(project.version, VERSION);
    assert_eq!(project.version, 3);
    assert_eq!(project.slots[0].offset_ticks, 120);
    assert_eq!(
        project.slots[0].pattern,
        Some(PatternDoc::Inline(pattern("Quarters")))
    );
    assert_eq!(project.rhythms.len(), 2, "the palette");
}

#[test]
fn a_version_2_document_gives_each_slot_its_own_copy() {
    // Two slots naming one pattern is the version 2 shape: reading it must
    // produce two independent copies, so editing one chord after an import
    // cannot reach the other.
    let text = "version = 2\nkey_tonic = 60\nkey_scale = \"major\"\nbpm = 120\n\
                note_length = 1.0\n\n\
                [[rhythms]]\nname = \"Quarters\"\nhold = 240\n\
                [[rhythms.layers]]\ngain = 1.0\nsteps = \"x---\"\n\n\
                [[slots]]\nkind = \"chord\"\ndegree = \"i\"\npattern = \"Quarters\"\n\n\
                [[slots]]\nkind = \"chord\"\ndegree = \"v\"\npattern = \"Quarters\"\n";
    let project = decode(text.as_bytes(), parse).unwrap();
    let mut restored = restore(&project).unwrap();

    assert_eq!(
        pattern_of(&restored.slots[0]),
        pattern_of(&restored.slots[1]),
        "identical to start with"
    );
    // Edit one copy the way the `hits` row would, and check the other is
    // untouched.
    match &mut restored.slots[1] {
        Slot::Chord(entry) => {
            let own = entry.pattern.as_mut().expect("its own copy");
            for layer in own.layers.iter_mut() {
                layer.steps[0] = false;
            }
        }
        other => panic!("expected a chord, got {:?}", other),
    }
    assert_ne!(pattern_of(&restored.slots[0]), pattern_of(&restored.slots[1]));
}

#[test]
fn a_zero_offset_is_left_out_of_the_document() {
    // Absent means zero, so writing it would only be noise in every slot of
    // every file.
    let prog = progression(vec![assigned(ScaleDegree::I, None, 0)]);
    let text = String::from_utf8(
        encode(&prog, &RhythmStore::default(), c_major(), 120, single(1.0), render).unwrap(),
    )
    .unwrap();
    assert!(!text.contains("offset_ticks"), "rendered:\n{}", text);
}

#[test]
fn an_offset_is_clamped_when_it_is_written_and_when_it_is_read() {
    let mut prog = Progression::new();
    prog.slots = vec![assigned(ScaleDegree::I, None, 999_999)];
    let bytes = encode(&prog, &RhythmStore::default(), c_major(), 120, single(1.0), render).unwrap();
    let project = decode(&bytes, parse).unwrap();
    assert_eq!(project.slots[0].offset_ticks, MAX_OFFSET_TICKS);

    let text = "version = 2\nkey_tonic = 60\nkey_scale = \"major\"\nbpm = 120\n\
                note_length = 1.0\n\n[[slots]]\nkind = \"chord\"\ndegree = \"i\"\n\
                offset_ticks = -99999\n";
    let project = decode(text.as_bytes(), parse).unwrap();
    let restored = restore(&project).unwrap();
    assert_eq!(offset_of(&restored.slots[0]), -MAX_OFFSET_TICKS);
}

#[test]
fn the_errors_of_a_document_say_what_is_wrong() {
    let head = "version = 3\nkey_tonic = 60\nkey_scale = \"major\"\nbpm = 120\nnote_length = 1.0\n";
    let message = |text: &str| match decode(text.as_bytes(), parse) {
        Ok(project) => restore(&project).unwrap_err().message(),
        Err(e) => e.message(),
    };

    assert_eq!(ProjectError::Encoding.message(), "project payload is not valid UTF-8");
    assert_eq!(
        message(&head.replace("version = 3", "version = 4")),
        "project format v4 is not supported (this build reads v3)"
    );
    assert_eq!(
        message(&format!("{}[[slots]]\nkind = \"arp\\n\"\n", head)),
        "project payload is invalid: unknown slot kind \"arp\\n\""
    );
    assert_eq!(
        message(&format!("{}[[slots]]\nkind = \"chord\"\n", head)),
        "project payload is invalid: a chord slot has no scale degree"
    );
    assert_eq!(
        message(&format!(
            "{}[[slots]]\nkind = \"chord\"\ndegree = \"i\"\npattern = \"No \\\"such\\\"\"\n",
            head
        )),
        "project payload is invalid: a slot uses the rhythm pattern \"No \\\"such\\\"\", \
         which the file does not contain"
    );
}

#[test]
fn an_invalid_pattern_of_a_slot_is_refused() {
    let mut bad = pattern("Quarters");
    bad.hold = 0;
    let project = Project {
        version: VERSION,
        key_tonic: 60,
        key_scale: Scale::Major,
        bpm: 120,
        note_length: single(1.0),
        slots: vec![chord_tool::project::SlotDoc {
            kind: "chord".to_string(),
            degree: Some(ScaleDegree::I),
            transformation: None,
            pattern: Some(PatternDoc::Inline(bad)),
            offset_ticks: 0,
            left: None,
            right: None,
        }],
        rhythms: Vec::new(),
    };
    assert_eq!(
        restore(&project).unwrap_err().message(),
        "project payload is invalid: a slot's rhythm \"Quarters\" is invalid: a hold of 0 ticks is \
         outside 1..=3840"
    );
}

#[test]
fn a_version_of_nothing_is_refused_everywhere() {
    let text = "version = 0\nkey_tonic = 60\nkey_scale = \"major\"\nbpm = 120\nnote_length = 1.0\nslots = []\n";
    assert_eq!(decode(text.as_bytes(), parse), Err(ProjectError::UnsupportedVersion(0)));
}

#[test]
fn a_name_that_means_nothing_is_malformed() {
    for (from, to) in [("major", "lydian"), ("\"v\"", "\"viii\""), ("dom7", "dom8"), ("left_index", "left_toe")] {
        let text = "version = 1\nkey_tonic = 60\nkey_scale = \"major\"\nbpm = 128\nnote_length = 0.75\n\n\
                    [[slots]]\nkind = \"chord\"\ndegree = \"v\"\ntransformation = \"dom7\"\n\
                    left = [\"left_index\"]\n";
        assert!(decode(text.as_bytes(), parse).is_ok());
        let wrong = text.replace(from, to);
        assert!(matches!(decode(wrong.as_bytes(), parse), Err(ProjectError::Malformed(_))), "{}", to);
    }
}

#[test]
fn a_parser_that_fails_is_handed_on() {
    let failing = |_: &str| -> Result<Project, String> { Err("line 1: unknown variant".to_string()) };
    assert_eq!(
        decode(b"anything", failing),
        Err(ProjectError::Malformed("line 1: unknown variant".to_string()))
    );
}

#[test]
fn what_values_spell_is_what_they_were_spelled_from() {
    let prog = progression(vec![
        assigned(ScaleDegree::III, Some(pattern("Offbeat")), -960),
        Slot::Rest,
        entry(ScaleDegree::VII, Some(Transformation::SixNine), Some(&[KeyPosition::TopLeft]), Some(&[])),
    ]);
    let project = describe(&prog, &library(), Key::new(57, Scale::Minor), 90, single(0.25));
    let wire = ProjectWire::from_project(&project);
    assert_eq!(wire.into_project(), Ok(project));
}

#[test]
fn a_renderer_that_fails_is_reported() {
    let failing = |_: ProjectWire| -> Result<String, String> { Err("disk on fire".to_string()) };
    assert_eq!(
        encode(&Progression::new(), &RhythmStore::default(), c_major(), 120, single(1.0), failing),
        Err(ProjectError::Malformed("disk on fire".to_string()))
    );
}

#[test]
fn text_outside_ascii_survives_a_session() {
    let own = RhythmPattern::from_step_string("Größe ♩", single(0.5), "x---").unwrap();
    let prog = progression(vec![assigned(ScaleDegree::I, Some(own), 0)]);
    let restored = session_back(&prog, c_major(), 120, 0.3);
    assert_eq!(restored.slots, prog.slots);
    assert_eq!(restored.note_length, single(0.3));
}

// ---- exported files ----

fn exported() -> Progression {
    progression(vec![
        entry(
            ScaleDegree::I,
            Some(Transformation::Diatonic7),
            Some(&[KeyPosition::LeftIndex]),
            None,
        ),
        Slot::Rest,
        entry(ScaleDegree::V, Some(Transformation::Dom7), None, None),
    ])
}

fn parts() -> (Score, Vec<u8>) {
    let prog = exported();
    let score = midi::render_progression(&prog.slots, &c_major(), 120, single(0.5));
    let document =
        encode(&prog, &RhythmStore::default(), c_major(), 120, single(0.5), render).unwrap();
    (score, document)
}

#[test]
fn write_score_creates_a_midi_file() {
    let (score, document) = parts();
    let bytes = score_file(&score, document);
    assert_eq!(&bytes[0..4], b"MThd");
}

#[test]
fn an_export_imports_back_to_the_same_session() {
    let (score, document) = parts();
    let restored = import(&score_file(&score, document), parse).unwrap();
    assert_eq!(restored.slots, exported().slots);
    assert_eq!(restored.key, Key::new(60, Scale::Major));
    assert_eq!(restored.bpm, 120);
    assert_eq!(restored.note_length, single(0.5));
}

#[test]
fn a_plain_midi_file_is_refused_as_not_ours() {
    let (score, _) = parts();
    // A file with notes but no embedded document, as any other tool's file is.
    let bytes = smf::write(&score, &SmfOptions::single("Progression"));
    assert!(matches!(import(&bytes, parse), Err(ImportError::NotOurs)));
}

#[test]
fn a_non_midi_file_is_refused_as_midi() {
    assert!(matches!(import(b"definitely not midi", parse), Err(ImportError::Midi(_))));
}

#[test]
fn the_not_ours_message_names_the_problem() {
    let message = ImportError::NotOurs.message();
    assert!(message.contains("not a chord-tool file"));
}

#[test]
fn the_messages_of_an_import_are_those_of_its_cause() {
    assert_eq!(
        ImportError::Io("no such file".to_string()).message(),
        "could not read the file: no such file"
    );
    assert_eq!(ImportError::from(SmfError::TooShort).message(), SmfError::TooShort.message());
    assert_eq!(
        ImportError::from(ProjectError::Encoding).message(),
        ProjectError::Encoding.message()
    );
}

#[test]
fn a_file_with_a_broken_document_is_refused_for_it() {
    let (score, _) = parts();
    assert_eq!(
        import(&score_file(&score, vec![0xFF]), parse),
        Err(ImportError::Project(ProjectError::Encoding))
    );
    assert!(matches!(
        import(&score_file(&score, b"not toml".to_vec()), parse),
        Err(ImportError::Project(ProjectError::Malformed(_)))
    ));
}

#[test]
fn a_copy_of_a_document_is_that_document() {
    let prog = progression(vec![
        assigned(ScaleDegree::I, Some(pattern("Offbeat Eighths")), -120),
        entry(ScaleDegree::V, Some(Transformation::Dom7), Some(&[KeyPosition::LeftIndex]), Some(&[])),
        Slot::Rest,
    ]);
    let doc = describe(&prog, &library(), c_major(), 97, single(0.5));
    assert_eq!(doc.clone(), doc);
    for slot in &doc.slots {
        assert_eq!(slot.clone(), *slot);
    }
    for p in [PatternDoc::Name("Quarters".to_string()), PatternDoc::Inline(pattern("Quarters"))] {
        assert_eq!(p.clone(), p);
    }
    let restored = restore(&doc).unwrap();
    assert_eq!(restored.clone(), restored);
    assert_eq!(restored.clone().slots, prog.slots);
}
