use chord_tool::music::{ChordSpec, Key, Scale, ScaleDegree, TONIC_MAX, TONIC_MIN, Transformation, chord_label, diatonic_triad_label, note_name, voice};


fn c_major() -> Key {
    Key::new(60, Scale::Major)
}

fn c_minor() -> Key {
    Key::new(60, Scale::Minor)
}

// ---- major scale ----

#[test]
fn degree_roots_in_c_major() {
    let k = c_major();
    assert_eq!(k.degree_root(ScaleDegree::I), 60);
    assert_eq!(k.degree_root(ScaleDegree::II), 62);
    assert_eq!(k.degree_root(ScaleDegree::III), 64);
    assert_eq!(k.degree_root(ScaleDegree::IV), 65);
    assert_eq!(k.degree_root(ScaleDegree::V), 67);
    assert_eq!(k.degree_root(ScaleDegree::VI), 69);
    assert_eq!(k.degree_root(ScaleDegree::VII), 71);
}

#[test]
fn diatonic_sevenths_in_c_major() {
    let k = c_major();
    assert_eq!(k.diatonic_nth(ScaleDegree::I, 6), 71);   // B  -> maj7
    assert_eq!(k.diatonic_nth(ScaleDegree::V, 6), 77);   // F  -> dom7
    assert_eq!(k.diatonic_nth(ScaleDegree::VII, 6), 81); // A  -> m7b5
}

#[test]
fn diatonic_wraps_octaves_in_c_major() {
    let k = c_major();
    assert_eq!(k.diatonic_nth(ScaleDegree::I, 8), 74);  // D5
    assert_eq!(k.diatonic_nth(ScaleDegree::I, 12), 81); // A5
}

// ---- minor scale ----

#[test]
fn degree_roots_in_c_minor() {
    let k = c_minor();
    assert_eq!(k.degree_root(ScaleDegree::I), 60);   // C
    assert_eq!(k.degree_root(ScaleDegree::II), 62);  // D
    assert_eq!(k.degree_root(ScaleDegree::III), 63); // Eb
    assert_eq!(k.degree_root(ScaleDegree::IV), 65);  // F
    assert_eq!(k.degree_root(ScaleDegree::V), 67);   // G
    assert_eq!(k.degree_root(ScaleDegree::VI), 68);  // Ab
    assert_eq!(k.degree_root(ScaleDegree::VII), 70); // Bb
}

#[test]
fn diatonic_sevenths_in_c_minor() {
    let k = c_minor();
    // i: C Eb G Bb -> Cm7
    assert_eq!(k.diatonic_nth(ScaleDegree::I, 6), 70);
    // ii°: D F Ab C -> Dm7b5
    assert_eq!(k.diatonic_nth(ScaleDegree::II, 6), 72);
    // III: Eb G Bb D -> Ebmaj7
    assert_eq!(k.diatonic_nth(ScaleDegree::III, 6), 74);
    // v: G Bb D F -> Gm7
    assert_eq!(k.diatonic_nth(ScaleDegree::V, 6), 77);
    // VII: Bb D F Ab -> Bb7
    assert_eq!(k.diatonic_nth(ScaleDegree::VII, 6), 80);
}

#[test]
fn diatonic_wraps_octaves_in_c_minor() {
    let k = c_minor();
    assert_eq!(k.diatonic_nth(ScaleDegree::I, 8), 74);  // D5
    assert_eq!(k.diatonic_nth(ScaleDegree::I, 12), 80); // Ab5
}

// ---- h-mode voicings ----

#[test]
fn h_mode_i_maj7_in_c_major() {
    let k = c_major();
    let spec = ChordSpec::new(ScaleDegree::I, Transformation::Diatonic7);
    assert_eq!(spec.voice(&k), vec![60, 64, 67, 71]);
}

#[test]
fn h_mode_v_dominant_7_in_c_major() {
    let k = c_major();
    let spec = ChordSpec::new(ScaleDegree::V, Transformation::Diatonic7);
    assert_eq!(spec.voice(&k), vec![67, 71, 74, 77]);
}

#[test]
fn h_mode_vii_half_diminished_in_c_major() {
    let k = c_major();
    let spec = ChordSpec::new(ScaleDegree::VII, Transformation::Diatonic7);
    assert_eq!(spec.voice(&k), vec![71, 74, 77, 81]);
}

#[test]
fn h_mode_i_min7_in_c_minor() {
    let k = c_minor();
    let spec = ChordSpec::new(ScaleDegree::I, Transformation::Diatonic7);
    assert_eq!(spec.voice(&k), vec![60, 63, 67, 70]);
}

#[test]
fn h_mode_vii_dominant_7_in_c_minor() {
    let k = c_minor();
    let spec = ChordSpec::new(ScaleDegree::VII, Transformation::Diatonic7);
    assert_eq!(spec.voice(&k), vec![70, 74, 77, 80]);
}

// ---- j-mode voicings ----

#[test]
fn j_mode_i_dom7() {
    let k = c_major();
    let spec = ChordSpec::new(ScaleDegree::I, Transformation::Dom7);
    assert_eq!(spec.voice(&k), vec![60, 64, 67, 70]);
}

#[test]
fn j_mode_ii_dom7_is_out_of_key() {
    let k = c_major();
    let spec = ChordSpec::new(ScaleDegree::II, Transformation::Dom7);
    assert_eq!(spec.voice(&k), vec![62, 66, 69, 72]);
}

#[test]
fn j_mode_ii_dom7_in_c_minor() {
    // Root of ii is still D (62), j-mode ignores scale.
    let k = c_minor();
    let spec = ChordSpec::new(ScaleDegree::II, Transformation::Dom7);
    assert_eq!(spec.voice(&k), vec![62, 66, 69, 72]);
}

#[test]
fn j_mode_v_matches_h_mode_v_in_major() {
    // On V in C major, diatonic 7th and dominant 7th produce the same notes.
    let k = c_major();
    let h = ChordSpec::new(ScaleDegree::V, Transformation::Diatonic7).voice(&k);
    let j = ChordSpec::new(ScaleDegree::V, Transformation::Dom7).voice(&k);
    assert_eq!(h, j);
}

#[test]
fn j_mode_v_differs_from_h_mode_v_in_minor() {
    // On v in C minor, diatonic 7th is Gm7 (Bb) but j-mode makes G7 (B).
    let k = c_minor();
    let h = ChordSpec::new(ScaleDegree::V, Transformation::Diatonic7).voice(&k);
    let j = ChordSpec::new(ScaleDegree::V, Transformation::Dom7).voice(&k);
    assert_eq!(h, vec![67, 70, 74, 77]);
    assert_eq!(j, vec![67, 71, 74, 77]);
    assert_ne!(h, j);
}

// ---- range ----

#[test]
fn widest_voicing_fits_in_midi_range_major() {
    let k = Key::new(TONIC_MAX, Scale::Major);
    for t in [
        Transformation::Thirteen,
        Transformation::Maj7s11,
        Transformation::Dom7s11,
        Transformation::DiatonicFull,
    ] {
        let spec = ChordSpec::new(ScaleDegree::VII, t);
        let notes = spec.voice(&k);
        assert!(
            notes.iter().all(|&n| n <= 127),
            "transformation {:?} overflowed on highest major tonic",
            t
        );
    }
}

#[test]
fn widest_voicing_fits_in_midi_range_minor() {
    let k = Key::new(TONIC_MAX, Scale::Minor);
    for t in [
        Transformation::Thirteen,
        Transformation::Maj7s11,
        Transformation::Dom7s11,
        Transformation::DiatonicFull,
    ] {
        let spec = ChordSpec::new(ScaleDegree::VII, t);
        let notes = spec.voice(&k);
        assert!(
            notes.iter().all(|&n| n <= 127),
            "transformation {:?} overflowed on highest minor tonic",
            t
        );
    }
}

#[test]
fn tonic_clamping() {
    assert_eq!(Key::new(0, Scale::Major).tonic, TONIC_MIN);
    assert_eq!(Key::new(200, Scale::Major).tonic, TONIC_MAX);
    assert_eq!(Key::new(60, Scale::Major).tonic, 60);
}

// ---- display ----

#[test]
fn note_names_use_standard_octave_numbering() {
    assert_eq!(note_name(60), "C4");
    assert_eq!(note_name(69), "A4");
    assert_eq!(note_name(61), "C#4");
}

#[test]
fn chord_labels_are_readable() {
    let k = c_major();
    let spec = ChordSpec::new(ScaleDegree::I, Transformation::Diatonic7);
    assert_eq!(chord_label(&k, &spec), "Cmaj7");
    let spec = ChordSpec::new(ScaleDegree::V, Transformation::Dom7b9);
    assert_eq!(chord_label(&k, &spec), "G7b9");
}

#[test]
fn diatonic_triads_have_correct_quality_labels_in_c_major() {
    let k = c_major();
    assert_eq!(diatonic_triad_label(&k, ScaleDegree::I), "C");
    assert_eq!(diatonic_triad_label(&k, ScaleDegree::II), "Dm");
    assert_eq!(diatonic_triad_label(&k, ScaleDegree::VII), "Bdim");
}

#[test]
fn diatonic_triads_have_correct_quality_labels_in_c_minor() {
    let k = c_minor();
    assert_eq!(diatonic_triad_label(&k, ScaleDegree::I), "Cm");
    assert_eq!(diatonic_triad_label(&k, ScaleDegree::II), "Ddim");
    assert_eq!(diatonic_triad_label(&k, ScaleDegree::III), "D#");
    assert_eq!(diatonic_triad_label(&k, ScaleDegree::VII), "A#");
}

#[test]
fn key_name_includes_scale() {
    assert_eq!(c_major().name(), "C major");
    assert_eq!(c_minor().name(), "C minor");
}

#[test]
fn a_step_far_above_the_degree_stays_at_the_top() {
    let k = c_major();
    assert_eq!(k.diatonic_nth(ScaleDegree::I, 0), 60);
    assert_eq!(k.diatonic_nth(ScaleDegree::VII, 8), 84);
    assert_eq!(k.diatonic_nth(ScaleDegree::I, 7 * 65536), 127);
    assert_eq!(k.diatonic_nth(ScaleDegree::I, usize::MAX), 127);
}
