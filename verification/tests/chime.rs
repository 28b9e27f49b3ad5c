
use chord_tool::chime::chimes;

#[test]
fn all_chimes_have_three_voices() {
    for c in &chimes() {
        assert_eq!(c.start.len(), 3);
        assert_eq!(c.end.len(), 3);
    }
}

#[test]
fn all_chimes_resolve_to_c_major_shell() {
    for c in &chimes() {
        assert_eq!(c.end, [60, 67, 72], "chime '{}' target wrong", c.name);
    }
}

#[test]
fn all_chime_notes_are_in_midi_range() {
    for c in &chimes() {
        for &n in c.start.iter().chain(c.end.iter()) {
            assert!(n <= 127, "chime '{}' out of range", c.name);
        }
    }
}
