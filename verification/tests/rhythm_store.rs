use chord_tool::rhythm::{builtin_patterns, RhythmPattern};
use chord_tool::rhythm_store::{default_path, RhythmStore};
use chord_tool::single::Single;

/// A single-precision number.
fn single(v: f32) -> Single {
    Single { bits: v.to_bits() }
}

fn store() -> RhythmStore {
    RhythmStore {
        patterns: builtin_patterns(),
    }
}

#[test]
fn the_built_ins_are_the_model_built_ins() {
    let store = RhythmStore {
        patterns: builtin_patterns(),
    };
    assert_eq!(store.patterns.len(), 7);
    assert!(store.find("Offbeat Eighths").is_some());
    assert!(store.find("Held Half").is_some());
}

#[test]
fn add_appends_a_new_pattern() {
    let mut store = store();
    let before = store.patterns.len();
    let p = RhythmPattern::from_step_string("Mine", single(0.5), "xxxxxxxx").unwrap();
    store.add(p);
    assert_eq!(store.patterns.len(), before + 1);
}

#[test]
fn add_replaces_an_existing_pattern_in_place() {
    let mut store = store();
    let before = store.patterns.len();
    let mut updated = store.find("Offbeat Eighths").unwrap().clone();
    updated.hold = 864;
    store.add(updated);
    assert_eq!(store.patterns.len(), before, "no new pattern");
    assert_eq!(store.find("Offbeat Eighths").unwrap().hold, 864);
}

#[test]
fn the_built_ins_are_written_in_playing_order() {
    let store = store();
    let names: Vec<&str> = store.patterns.iter().map(|p| p.name.as_str()).collect();
    assert_eq!(
        names,
        vec![
            "Quarters",
            "Eighths",
            "Offbeat Eighths",
            "Syncopated 16ths",
            "Sixteenth Pulse",
            "Held Half",
            "Held 3/4"
        ]
    );
}

#[test]
fn find_reaches_a_pattern_by_name() {
    let store = store();
    assert!(store.find("Not Here").is_none());
    assert_eq!(store.find("Quarters").unwrap().steps_per_bar(), 4);
}

#[test]
fn unique_name_never_collides_with_a_saved_pattern() {
    let store = store();
    assert_eq!(store.unique_name("New"), "New");
    assert_eq!(store.unique_name("Eighths"), "Eighths 2");

    let mut with_clash = RhythmStore::built_in();
    let mut second = with_clash.find("Eighths").unwrap().clone();
    second.name = "Eighths 2".to_string();
    with_clash.add(second);
    assert_eq!(with_clash.unique_name("Eighths"), "Eighths 3");
}

#[test]
fn the_library_starts_with_the_built_ins_in_its_own_file() {
    assert_eq!(RhythmStore::built_in().patterns, builtin_patterns());
    assert_eq!(default_path(), "rhythms.toml");
}

#[test]
fn adding_keeps_every_other_pattern_and_no_name_twice() {
    let mut library = store();
    for name in ["Mine", "Eighths", "Mine", "Quarters"] {
        library.add(RhythmPattern::from_step_string(name, single(1.0), "x-").unwrap());
        assert_eq!(library.find(name).unwrap().steps_per_bar(), 2);
    }
    assert_eq!(library.find("Held Half"), store().find("Held Half"));
    let mut names: Vec<&str> = library.patterns.iter().map(|p| p.name.as_str()).collect();
    names.sort_unstable();
    names.dedup();
    assert_eq!(names.len(), library.patterns.len());
}

#[test]
fn a_copy_of_the_library_stands_alone() {
    let library = store();
    let mut copy = library.clone();
    assert_eq!(copy.patterns, library.patterns);
    copy.add(RhythmPattern::from_step_string("Mine", single(0.5), "xxxxxxxx").unwrap());
    assert_eq!(copy.patterns.len(), library.patterns.len() + 1);
    assert_eq!(library.patterns, builtin_patterns());
}
