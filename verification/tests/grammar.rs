
use chord_tool::grammar::{left_hand_degree, right_hand_transformation};
use chord_tool::keyboard::{KeyPosition, Layout, PositionSet};
use chord_tool::music::{ChordSpec, Key, Scale, ScaleDegree, Transformation};

fn c_major() -> Key {
    Key::new(60, Scale::Major)
}

fn positions(chars: &[char], layout: Layout) -> PositionSet {
    let held: Vec<KeyPosition> = chars.iter().filter_map(|c| layout.position(*c)).collect();
    PositionSet::from_positions(&held)
}

#[test]
fn all_left_hand_degrees_resolve_in_qwerty() {
    let l = Layout::Qwerty;
    let cases = [
        (vec!['f'], ScaleDegree::I),
        (vec!['a'], ScaleDegree::II),
        (vec!['a', 's'], ScaleDegree::III),
        (vec!['d', 'f'], ScaleDegree::IV),
        (vec!['d'], ScaleDegree::V),
        (vec!['s'], ScaleDegree::VI),
        (vec!['a', 's', 'd'], ScaleDegree::VII),
    ];
    for (chars, expected) in cases {
        let p = positions(&chars, l);
        assert_eq!(left_hand_degree(&p), Some(expected), "chars={:?}", chars);
    }
}

#[test]
fn all_j_mode_transformations_resolve_in_qwerty() {
    let l = Layout::Qwerty;
    let cases = [
        (vec!['j'], Transformation::Dom7),
        (vec!['k'], Transformation::Dom7b9),
        (vec!['l'], Transformation::Dom9),
        (vec![';'], Transformation::Min7b5),
        (vec!['j', 'k'], Transformation::Sus2),
        (vec!['l', ';'], Transformation::SixNine),
        (vec!['j', 'l'], Transformation::Dim7),
        (vec!['j', ';'], Transformation::Dom7s9),
        (vec!['k', 'l'], Transformation::Min9),
        (vec!['k', ';'], Transformation::Aug),
        (vec!['j', 'k', 'l'], Transformation::Maj7s11),
        (vec!['k', 'l', ';'], Transformation::Dom7s11),
        (vec!['j', 'k', ';'], Transformation::MinMaj7),
        (vec!['j', 'l', ';'], Transformation::Eleven),
        (vec!['j', 'k', 'l', ';'], Transformation::Thirteen),
    ];
    for (chars, expected) in cases {
        let p = positions(&chars, l);
        assert_eq!(
            right_hand_transformation(&p),
            Some(expected),
            "chars={:?}",
            chars
        );
    }
}

#[test]
fn all_h_mode_transformations_resolve_in_qwerty() {
    let l = Layout::Qwerty;
    let cases = [
        (vec!['h'], Transformation::Diatonic7),
        (vec!['h', 'j'], Transformation::Diatonic9),
        (vec!['h', 'k'], Transformation::Sus4),
        (vec!['h', 'l'], Transformation::Diatonic6),
        (vec!['h', 'j', 'k'], Transformation::Diatonic7_9),
        (vec!['h', 'j', 'l'], Transformation::Diatonic7_13),
        (vec!['h', 'k', 'l'], Transformation::Sus4_7),
        (vec!['h', 'j', 'k', 'l'], Transformation::DiatonicFull),
    ];
    for (chars, expected) in cases {
        let p = positions(&chars, l);
        assert_eq!(
            right_hand_transformation(&p),
            Some(expected),
            "chars={:?}",
            chars
        );
    }
}

#[test]
fn h_mode_with_pinky_is_invalid() {
    let p = positions(&['h', ';'], Layout::Qwerty);
    assert_eq!(right_hand_transformation(&p), None);
}

#[test]
fn left_inner_is_not_part_of_the_grammar() {
    // `LeftInner` (physical `g`) carries the recall hotkey rather than a
    // chord meaning, so the grammar must ignore it...
    let l = Layout::Qwerty;
    assert_eq!(left_hand_degree(&positions(&['g'], l)), None);

    // ...and this is exactly why hotkeys must never be inserted into the
    // held set: the arms match exact shapes, so one extra position
    // silently destroys an otherwise valid chord.
    let with_chord = positions(&['f', 'g'], l);
    assert_eq!(with_chord.len(), 2);
    assert_eq!(left_hand_degree(&with_chord), None);
    // The same shape without it still resolves.
    assert_eq!(
        left_hand_degree(&positions(&['f'], l)),
        Some(ScaleDegree::I)
    );
}

#[test]
fn empty_right_hand_is_none() {
    let p = PositionSet::new();
    assert_eq!(right_hand_transformation(&p), None);
}

#[test]
fn programmer_dvorak_input_is_indistinguishable_from_qwerty() {
    let qwerty_positions = positions(&['f', 'h'], Layout::Qwerty);
    let pd_positions = positions(&['u', 'd'], Layout::ProgrammerDvorak);
    assert_eq!(qwerty_positions, pd_positions);
    assert_eq!(
        right_hand_transformation(&qwerty_positions),
        right_hand_transformation(&pd_positions)
    );
    assert_eq!(
        left_hand_degree(&qwerty_positions),
        left_hand_degree(&pd_positions)
    );
}

#[test]
fn full_spec_from_qwerty_keys() {
    let p = positions(&['d', 'j'], Layout::Qwerty);
    let degree = left_hand_degree(&p).unwrap();
    let transformation = right_hand_transformation(&p).unwrap();
    let spec = ChordSpec::new(degree, transformation);
    assert_eq!(spec.voice(&c_major()), vec![67, 71, 74, 77]);
}

#[test]
fn full_spec_from_programmer_dvorak_keys() {
    // Same physical gesture as above: V position + j position.
    let p = positions(&['e', 'h'], Layout::ProgrammerDvorak);
    let degree = left_hand_degree(&p).unwrap();
    let transformation = right_hand_transformation(&p).unwrap();
    let spec = ChordSpec::new(degree, transformation);
    assert_eq!(spec.voice(&c_major()), vec![67, 71, 74, 77]);
}
