//! Music theory core: notes, scale degrees, keys, and chord voicing.

use vstd::prelude::*;

use crate::text::{joined, signed_decimal, signed_decimal_text};

verus! {

// -----------------------------------------------------------------------------
// Constants
// -----------------------------------------------------------------------------

/// Semitone offsets of the major scale from the tonic.
pub const MAJOR_SCALE: [u8; 7] = [0, 2, 4, 5, 7, 9, 11];

/// Semitone offsets of the natural minor scale from the tonic.
pub const MINOR_SCALE: [u8; 7] = [0, 2, 3, 5, 7, 8, 10];

/// Lowest tonic: C1.
pub const TONIC_MIN: u8 = 24;

/// Highest tonic: B6. Chosen so the widest voicing fits within MIDI 0-127: the widest case is
/// vii with a 13 chord, whose root is `tonic + 11` and whose top note is `root + 21`.
pub const TONIC_MAX: u8 = 95;

/// Pitch-class names, indexed by `midi % 12`.
pub const NOTE_NAMES: [&'static str; 12] = [
    "C", "C#", "D", "D#", "E", "F", "F#", "G", "G#", "A", "A#", "B",
];

/// Ticks per quarter note.
pub const PPQ: u16 = 960;

/// Quarter notes in a bar.
pub const BEATS_PER_BAR: u64 = 4;

/// Ticks in a bar.
pub const BAR_TICKS: u64 = 3840;

// -----------------------------------------------------------------------------
// Scale
// -----------------------------------------------------------------------------

/// A seven-note scale.
///
/// Saved into exported files by name, so the variant names are part of the file format.
#[derive(Copy, Clone, Debug, PartialEq, Eq, Structural)]
pub enum Scale {
    Major,
    Minor,
}

impl Scale {
    /// The semitone offsets of the scale from the tonic.
    pub open spec fn steps(self) -> Seq<u8> {
        match self {
            Scale::Major => MAJOR_SCALE@,
            Scale::Minor => MINOR_SCALE@,
        }
    }

    /// The name shown for the scale.
    pub open spec fn shown(self) -> Seq<char> {
        match self {
            Scale::Major => "major"@,
            Scale::Minor => "minor"@,
        }
    }

    /// The seven semitone offsets of this scale from the tonic.
    pub fn intervals(self) -> (r: [u8; 7])
        ensures
            r@ == self.steps(),
    {
        match self {
            Scale::Major => MAJOR_SCALE,
            Scale::Minor => MINOR_SCALE,
        }
    }

    pub fn name(self) -> (r: &'static str)
        ensures
            r@ == self.shown(),
    {
        match self {
            Scale::Major => "major",
            Scale::Minor => "minor",
        }
    }
}

// -----------------------------------------------------------------------------
// Degrees and transformations
// -----------------------------------------------------------------------------

#[derive(Copy, Clone, Debug, PartialEq, Eq, Structural)]
pub enum ScaleDegree {
    I,
    II,
    III,
    IV,
    V,
    VI,
    VII,
}

impl ScaleDegree {
    /// Place of the degree in the scale, from 0.
    pub open spec fn place(self) -> int {
        match self {
            ScaleDegree::I => 0,
            ScaleDegree::II => 1,
            ScaleDegree::III => 2,
            ScaleDegree::IV => 3,
            ScaleDegree::V => 4,
            ScaleDegree::VI => 5,
            ScaleDegree::VII => 6,
        }
    }

    /// The numeral shown for the degree.
    pub open spec fn shown(self) -> Seq<char> {
        match self {
            ScaleDegree::I => "I"@,
            ScaleDegree::II => "ii"@,
            ScaleDegree::III => "iii"@,
            ScaleDegree::IV => "IV"@,
            ScaleDegree::V => "V"@,
            ScaleDegree::VI => "vi"@,
            ScaleDegree::VII => "vii"@,
        }
    }

    pub fn index(self) -> (r: usize)
        ensures
            r == self.place(),
            r < 7,
    {
        match self {
            ScaleDegree::I => 0,
            ScaleDegree::II => 1,
            ScaleDegree::III => 2,
            ScaleDegree::IV => 3,
            ScaleDegree::V => 4,
            ScaleDegree::VI => 5,
            ScaleDegree::VII => 6,
        }
    }

    pub fn label(self) -> (r: &'static str)
        ensures
            r@ == self.shown(),
    {
        match self {
            ScaleDegree::I => "I",
            ScaleDegree::II => "ii",
            ScaleDegree::III => "iii",
            ScaleDegree::IV => "IV",
            ScaleDegree::V => "V",
            ScaleDegree::VI => "vi",
            ScaleDegree::VII => "vii",
        }
    }
}

/// Which right-hand grammar a transformation belongs to.
#[derive(Copy, Clone, Debug, PartialEq, Eq, Structural)]
pub enum Mode {
    J,
    H,
}

#[derive(Copy, Clone, Debug, PartialEq, Eq, Structural)]
pub enum Transformation {
    // j-mode: absolute chord qualities
    Dom7,
    Dom7b9,
    Dom9,
    Min7b5,
    Sus2,
    SixNine,
    Dim7,
    Dom7s9,
    Min9,
    Aug,
    Maj7s11,
    Dom7s11,
    MinMaj7,
    Eleven,
    Thirteen,
    // h-mode: diatonic additions
    Diatonic7,
    Diatonic9,
    Sus4,
    Diatonic6,
    Diatonic7_9,
    Diatonic7_13,
    Sus4_7,
    DiatonicFull,
}

impl Transformation {
    /// The mode of the transformation: the last eight stay in key.
    pub open spec fn grammar(self) -> Mode {
        match self {
            Transformation::Diatonic7
            | Transformation::Diatonic9
            | Transformation::Sus4
            | Transformation::Diatonic6
            | Transformation::Diatonic7_9
            | Transformation::Diatonic7_13
            | Transformation::Sus4_7
            | Transformation::DiatonicFull => Mode::H,
            _ => Mode::J,
        }
    }

    /// The chord suffix shown for the transformation.
    pub open spec fn shown(self) -> Seq<char> {
        match self {
            Transformation::Dom7 => "7"@,
            Transformation::Dom7b9 => "7b9"@,
            Transformation::Dom9 => "9"@,
            Transformation::Min7b5 => "m7b5"@,
            Transformation::Sus2 => "sus2"@,
            Transformation::SixNine => "6/9"@,
            Transformation::Dim7 => "dim7"@,
            Transformation::Dom7s9 => "7#9"@,
            Transformation::Min9 => "m9"@,
            Transformation::Aug => "aug"@,
            Transformation::Maj7s11 => "maj7#11"@,
            Transformation::Dom7s11 => "7#11"@,
            Transformation::MinMaj7 => "mMaj7"@,
            Transformation::Eleven => "11"@,
            Transformation::Thirteen => "13"@,
            Transformation::Diatonic7 => "maj7"@,
            Transformation::Diatonic9 => "add9"@,
            Transformation::Sus4 => "sus4"@,
            Transformation::Diatonic6 => "6"@,
            Transformation::Diatonic7_9 => "maj9"@,
            Transformation::Diatonic7_13 => "13"@,
            Transformation::Sus4_7 => "7sus4"@,
            Transformation::DiatonicFull => "13(9)"@,
        }
    }

    /// What the transformation stacks on the degree's root, lowest first: semitones above the root
    /// in j-mode, scale steps above the degree in h-mode.
    pub open spec fn stacked(self) -> Seq<int> {
        match self {
            Transformation::Dom7 => seq![0, 4, 7, 10],
            Transformation::Dom7b9 => seq![0, 4, 7, 10, 13],
            Transformation::Dom9 => seq![0, 4, 7, 10, 14],
            Transformation::Min7b5 => seq![0, 3, 6, 10],
            Transformation::Sus2 => seq![0, 2, 7],
            Transformation::SixNine => seq![0, 4, 7, 9, 14],
            Transformation::Dim7 => seq![0, 3, 6, 9],
            Transformation::Dom7s9 => seq![0, 4, 7, 10, 15],
            Transformation::Min9 => seq![0, 3, 7, 10, 14],
            Transformation::Aug => seq![0, 4, 8],
            Transformation::Maj7s11 => seq![0, 4, 7, 11, 18],
            Transformation::Dom7s11 => seq![0, 4, 7, 10, 18],
            Transformation::MinMaj7 => seq![0, 3, 7, 11],
            Transformation::Eleven => seq![0, 7, 10, 14, 17],
            Transformation::Thirteen => seq![0, 4, 10, 14, 21],
            Transformation::Diatonic7 => seq![0, 2, 4, 6],
            Transformation::Diatonic9 => seq![0, 2, 4, 8],
            Transformation::Sus4 => seq![0, 3, 4],
            Transformation::Diatonic6 => seq![0, 2, 4, 5],
            Transformation::Diatonic7_9 => seq![0, 2, 4, 6, 8],
            Transformation::Diatonic7_13 => seq![0, 2, 4, 6, 12],
            Transformation::Sus4_7 => seq![0, 3, 4, 6],
            Transformation::DiatonicFull => seq![0, 2, 4, 6, 8, 12],
        }
    }

    pub fn mode(self) -> (r: Mode)
        ensures
            r == self.grammar(),
    {
        match self {
            Transformation::Dom7
            | Transformation::Dom7b9
            | Transformation::Dom9
            | Transformation::Min7b5
            | Transformation::Sus2
            | Transformation::SixNine
            | Transformation::Dim7
            | Transformation::Dom7s9
            | Transformation::Min9
            | Transformation::Aug
            | Transformation::Maj7s11
            | Transformation::Dom7s11
            | Transformation::MinMaj7
            | Transformation::Eleven
            | Transformation::Thirteen => Mode::J,
            Transformation::Diatonic7
            | Transformation::Diatonic9
            | Transformation::Sus4
            | Transformation::Diatonic6
            | Transformation::Diatonic7_9
            | Transformation::Diatonic7_13
            | Transformation::Sus4_7
            | Transformation::DiatonicFull => Mode::H,
        }
    }

    pub fn label(self) -> (r: &'static str)
        ensures
            r@ == self.shown(),
    {
        match self {
            Transformation::Dom7 => "7",
            Transformation::Dom7b9 => "7b9",
            Transformation::Dom9 => "9",
            Transformation::Min7b5 => "m7b5",
            Transformation::Sus2 => "sus2",
            Transformation::SixNine => "6/9",
            Transformation::Dim7 => "dim7",
            Transformation::Dom7s9 => "7#9",
            Transformation::Min9 => "m9",
            Transformation::Aug => "aug",
            Transformation::Maj7s11 => "maj7#11",
            Transformation::Dom7s11 => "7#11",
            Transformation::MinMaj7 => "mMaj7",
            Transformation::Eleven => "11",
            Transformation::Thirteen => "13",
            Transformation::Diatonic7 => "maj7",
            Transformation::Diatonic9 => "add9",
            Transformation::Sus4 => "sus4",
            Transformation::Diatonic6 => "6",
            Transformation::Diatonic7_9 => "maj9",
            Transformation::Diatonic7_13 => "13",
            Transformation::Sus4_7 => "7sus4",
            Transformation::DiatonicFull => "13(9)",
        }
    }
}

// -----------------------------------------------------------------------------
// Key
// -----------------------------------------------------------------------------

#[derive(Copy, Clone, Debug, PartialEq, Eq, Structural)]
pub struct Key {
    /// MIDI note number of the tonic. `Key::new` clamps it to `TONIC_MIN..=TONIC_MAX`.
    pub tonic: u8,
    /// Major or natural minor.
    pub scale: Scale,
}

/// `x` kept within `lo..=hi`.
pub open spec fn clamped(x: int, lo: int, hi: int) -> int {
    if x < lo {
        lo
    } else if x > hi {
        hi
    } else {
        x
    }
}

impl Key {
    /// The tonic lies in the range that `Key::new` keeps to.
    pub open spec fn in_range(self) -> bool {
        TONIC_MIN <= self.tonic <= TONIC_MAX
    }

    /// The note `sum` scale steps above the tonic.
    pub open spec fn scale_note(self, sum: int) -> int {
        self.tonic + 12 * (sum / 7) + self.scale.steps()[sum % 7]
    }

    /// The root of the chord on `degree`, as an 8-bit note number.
    pub open spec fn root(self, degree: ScaleDegree) -> int {
        (self.tonic + self.scale.steps()[degree.place()]) % 256
    }

    /// The name shown for the key.
    pub open spec fn shown(self) -> Seq<char> {
        NOTE_NAMES@[self.tonic as int % 12]@ + " "@ + self.scale.shown()
    }

    pub fn new(tonic: u8, scale: Scale) -> (key: Self)
        ensures
            key.tonic == clamped(tonic as int, TONIC_MIN as int, TONIC_MAX as int),
            key.scale == scale,
            key.in_range(),
    {
        let tonic: u8 = if tonic < TONIC_MIN {
            TONIC_MIN
        } else if tonic > TONIC_MAX {
            TONIC_MAX
        } else {
            tonic
        };
        Key { tonic, scale }
    }

    /// Root note of the chord built on `degree`.
    pub fn degree_root(&self, degree: ScaleDegree) -> (r: u8)
        ensures
            r == self.root(degree),
    {
        let steps: [u8; 7] = self.scale.intervals();
        let sum: u16 = self.tonic as u16 + steps[degree.index()] as u16;
        (sum % 256) as u8
    }

    /// The `n`-th scale step above `degree`, wrapping octaves.
    ///
    /// `n = 0` is the degree itself. `n = 2` is a third above. `n = 6` is a seventh. `n = 8` is a
    /// ninth. `n = 12` is a thirteenth.
    pub fn diatonic_nth(&self, degree: ScaleDegree, n: usize) -> (r: u8)
        requires
            degree.place() + n <= usize::MAX,
        ensures
            r == clamped(self.scale_note(degree.place() + n), 0, 127),
    {
        let sum: usize = degree.index() + n;
        let steps: [u8; 7] = self.scale.intervals();
        let raw: u128 = self.tonic as u128 + 12 * (sum / 7) as u128 + steps[sum % 7] as u128;
        if raw > 127 {
            127
        } else {
            raw as u8
        }
    }

    /// Display string, e.g. "C major", "A minor".
    pub fn name(&self) -> (r: String)
        ensures
            r@ == self.shown(),
    {
        let front: String = joined(NOTE_NAMES[(self.tonic % 12) as usize], " ");
        joined(front.as_str(), self.scale.name())
    }
}

// -----------------------------------------------------------------------------
// Voicing
// -----------------------------------------------------------------------------

#[derive(Copy, Clone, Debug, PartialEq, Eq, Structural)]
pub struct ChordSpec {
    pub degree: ScaleDegree,
    pub transformation: Transformation,
}

/// The note that `x` stacks in a chord of the given mode, before it is kept within MIDI's range.
pub open spec fn stacked_note(key: Key, degree: ScaleDegree, mode: Mode, x: int) -> int {
    match mode {
        Mode::J => key.root(degree) + x,
        Mode::H => key.scale_note(degree.place() + x),
    }
}

/// The notes of a stack, lowest first, each kept within MIDI's range.
pub open spec fn stack_notes(key: Key, degree: ScaleDegree, mode: Mode, stack: Seq<int>) -> Seq<u8> {
    stack.map_values(|x: int| clamped(stacked_note(key, degree, mode, x), 0, 127) as u8)
}

/// The notes of a chord.
pub open spec fn chord_notes(key: Key, spec: ChordSpec) -> Seq<u8> {
    let t = spec.transformation;
    stack_notes(key, spec.degree, t.grammar(), t.stacked())
}

/// The notes of the plain triad on a degree.
pub open spec fn triad_notes(key: Key, degree: ScaleDegree) -> Seq<u8> {
    stack_notes(key, degree, Mode::H, seq![0, 2, 4])
}

impl ChordSpec {
    pub fn new(degree: ScaleDegree, transformation: Transformation) -> (spec: Self)
        ensures
            spec.degree == degree,
            spec.transformation == transformation,
    {
        ChordSpec { degree, transformation }
    }

    pub fn voice(&self, key: &Key) -> (notes: Vec<u8>)
        ensures
            notes@ == chord_notes(*key, *self),
    {
        voice(key, self)
    }
}

/// What a transformation stacks: semitones in j-mode, scale steps in h-mode.
fn shape(t: Transformation) -> (r: Vec<usize>)
    ensures
        r@.len() == t.stacked().len(),
        forall|i: int| 0 <= i < r@.len() ==> #[trigger] r@[i] == t.stacked()[i],
{
    match t {
        // j-mode: fixed semitone intervals from the degree's root
        Transformation::Dom7 => vec![0, 4, 7, 10],
        Transformation::Dom7b9 => vec![0, 4, 7, 10, 13],
        Transformation::Dom9 => vec![0, 4, 7, 10, 14],
        Transformation::Min7b5 => vec![0, 3, 6, 10],
        Transformation::Sus2 => vec![0, 2, 7],
        Transformation::SixNine => vec![0, 4, 7, 9, 14],
        Transformation::Dim7 => vec![0, 3, 6, 9],
        Transformation::Dom7s9 => vec![0, 4, 7, 10, 15],
        Transformation::Min9 => vec![0, 3, 7, 10, 14],
        Transformation::Aug => vec![0, 4, 8],
        Transformation::Maj7s11 => vec![0, 4, 7, 11, 18],
        Transformation::Dom7s11 => vec![0, 4, 7, 10, 18],
        Transformation::MinMaj7 => vec![0, 3, 7, 11],
        Transformation::Eleven => vec![0, 7, 10, 14, 17],
        Transformation::Thirteen => vec![0, 4, 10, 14, 21],
        // h-mode: diatonic stacks relative to the key's scale
        Transformation::Diatonic7 => vec![0, 2, 4, 6],
        Transformation::Diatonic9 => vec![0, 2, 4, 8],
        Transformation::Sus4 => vec![0, 3, 4],
        Transformation::Diatonic6 => vec![0, 2, 4, 5],
        Transformation::Diatonic7_9 => vec![0, 2, 4, 6, 8],
        Transformation::Diatonic7_13 => vec![0, 2, 4, 6, 12],
        Transformation::Sus4_7 => vec![0, 3, 4, 6],
        Transformation::DiatonicFull => vec![0, 2, 4, 6, 8, 12],
    }
}

/// The notes of a chord in a key.
pub fn voice(key: &Key, spec: &ChordSpec) -> (notes: Vec<u8>)
    ensures
        notes@ == chord_notes(*key, *spec),
{
    let d: ScaleDegree = spec.degree;
    let t: Transformation = spec.transformation;
    let steps: Vec<usize> = shape(t);
    proof {
        lemma_stack_bounded(t);
    }
    let notes: Vec<u8> = match t.mode() {
        Mode::J => stack(key.degree_root(d), steps.as_slice()),
        Mode::H => diatonic(key, d, steps.as_slice()),
    };
    assert(notes@ =~= chord_notes(*key, *spec));
    notes
}

/// No transformation reaches past a thirteenth.
proof fn lemma_stack_bounded(t: Transformation)
    ensures
        forall|i: int|
            0 <= i < t.stacked().len() ==> 0 <= #[trigger] t.stacked()[i] <= 21 && (t.grammar() is H
                ==> t.stacked()[i] <= 12),
{
}

/// The plain diatonic triad on a degree.
pub fn diatonic_triad(key: &Key, degree: ScaleDegree) -> (notes: Vec<u8>)
    ensures
        notes@ == triad_notes(*key, degree),
{
    let notes: Vec<u8> = diatonic(key, degree, &[0, 2, 4]);
    assert(notes@ =~= triad_notes(*key, degree));
    notes
}

fn stack(root: u8, intervals: &[usize]) -> (notes: Vec<u8>)
    requires
        forall|i: int| 0 <= i < intervals@.len() ==> #[trigger] intervals@[i] <= 21,
    ensures
        notes@.len() == intervals@.len(),
        forall|i: int|
            0 <= i < notes@.len() ==> #[trigger] notes@[i] == clamped(root + intervals@[i], 0, 127),
{
    let mut notes: Vec<u8> = Vec::new();
    for i in 0..intervals.len()
        invariant
            forall|j: int| 0 <= j < intervals@.len() ==> #[trigger] intervals@[j] <= 21,
            notes@.len() == i,
            forall|j: int|
                0 <= j < i ==> #[trigger] notes@[j] == clamped(root + intervals@[j], 0, 127),
    {
        let interval: usize = intervals[i];
        assert(intervals@[i as int] <= 21);
        let sum: u16 = root as u16 + interval as u16;
        notes.push(if sum > 127 { 127 } else { sum as u8 });
    }
    notes
}

fn diatonic(key: &Key, degree: ScaleDegree, steps: &[usize]) -> (notes: Vec<u8>)
    requires
        forall|i: int| 0 <= i < steps@.len() ==> #[trigger] steps@[i] <= 12,
    ensures
        notes@.len() == steps@.len(),
        forall|i: int|
            0 <= i < notes@.len() ==> #[trigger] notes@[i] == clamped(
                stacked_note(*key, degree, Mode::H, steps@[i] as int),
                0,
                127,
            ),
{
    let mut notes: Vec<u8> = Vec::new();
    for i in 0..steps.len()
        invariant
            forall|j: int| 0 <= j < steps@.len() ==> #[trigger] steps@[j] <= 12,
            notes@.len() == i,
            forall|j: int|
                0 <= j < i ==> #[trigger] notes@[j] == clamped(
                    stacked_note(*key, degree, Mode::H, steps@[j] as int),
                    0,
                    127,
                ),
    {
        let n: usize = steps[i];
        assert(steps@[i as int] <= 12);
        let note: u8 = key.diatonic_nth(degree, n);
        notes.push(note);
    }
    notes
}

// -----------------------------------------------------------------------------
// Display helpers
// -----------------------------------------------------------------------------

/// The name of a MIDI note with its octave: "C4", "A0", "C-1".
pub fn note_name(midi: u8) -> (r: String)
    ensures
        r@ == NOTE_NAMES@[midi as int % 12]@ + signed_decimal(midi as int / 12 - 1),
{
    let octave: String = signed_decimal_text((midi / 12) as i64 - 1);
    joined(NOTE_NAMES[(midi % 12) as usize], octave.as_str())
}

/// The name of a chord: its root's pitch class and its suffix.
pub fn chord_label(key: &Key, spec: &ChordSpec) -> (r: String)
    ensures
        r@ == NOTE_NAMES@[key.root(spec.degree) % 12]@ + spec.transformation.shown(),
{
    let root: u8 = key.degree_root(spec.degree);
    joined(NOTE_NAMES[(root % 12) as usize], spec.transformation.label())
}

/// The suffix of a triad whose third and fifth lie so many semitones above its root.
pub open spec fn triad_suffix(third: int, fifth: int) -> Seq<char> {
    if fifth % 12 == 6 {
        "dim"@
    } else if third % 12 == 3 {
        "m"@
    } else {
        ""@
    }
}

/// How many semitones `note` lies above `root`, octaves left out.
fn pitch_class_above(note: u8, root: u8) -> (r: u8)
    ensures
        r == (note - root) % 12,
{
    ((note as u16 + 264 - root as u16) % 12) as u8
}

/// Name a plain diatonic triad: "C", "Dm", "Bdim", etc.
///
/// The suffix is derived from the intervals actually produced by the key and degree, so it works
/// for both major and minor scales without special cases.
pub fn diatonic_triad_label(key: &Key, degree: ScaleDegree) -> (r: String)
    ensures
        r@ == NOTE_NAMES@[key.root(degree) % 12]@ + triad_suffix(
            triad_notes(*key, degree)[1] - key.root(degree),
            triad_notes(*key, degree)[2] - key.root(degree),
        ),
{
    let root: u8 = key.degree_root(degree);
    let triad: Vec<u8> = diatonic_triad(key, degree);
    assert(triad@.len() == 3);
    let third: u8 = pitch_class_above(triad[1], root);
    let fifth: u8 = pitch_class_above(triad[2], root);
    let suffix: &'static str = if fifth == 6 {
        "dim"
    } else if third == 3 {
        "m"
    } else {
        ""
    };
    joined(NOTE_NAMES[(root % 12) as usize], suffix)
}

// -----------------------------------------------------------------------------
// Laws
// -----------------------------------------------------------------------------

/// Every chord of a key whose tonic is in range lies within MIDI 0-127 without being clamped.
pub proof fn law_voicings_fit_midi(key: Key, spec: ChordSpec, i: int)
    requires
        key.in_range(),
        0 <= i < chord_notes(key, spec).len(),
    ensures
        chord_notes(key, spec)[i] == stacked_note(
            key,
            spec.degree,
            spec.transformation.grammar(),
            spec.transformation.stacked()[i],
        ),
        chord_notes(key, spec)[i] <= 127,
{
    let x = spec.transformation.stacked()[i];
    lemma_stack_bounded(spec.transformation);
    lemma_steps_bounded(key.scale);
    if spec.transformation.grammar() is H {
        lemma_scale_note_bounded(key, spec.degree.place() + x);
    }
}

/// The highest step of either scale is eleven semitones.
proof fn lemma_steps_bounded(scale: Scale)
    ensures
        forall|i: int| 0 <= i < 7 ==> 0 <= #[trigger] scale.steps()[i] <= 11,
{
}

proof fn lemma_scale_note_bounded(key: Key, sum: int)
    requires
        0 <= sum <= 18,
        key.in_range(),
    ensures
        key.tonic <= key.scale_note(sum) <= key.tonic + 31,
{
    lemma_steps_bounded(key.scale);
    if sum / 7 == 2 {
        assert(sum % 7 <= 4);
        assert(key.scale.steps()[sum % 7] <= 7);
    }
}

/// An h-mode chord stays in key: each of its notes is a scale tone of a key whose tonic is in
/// range.
pub proof fn law_h_mode_stays_in_key(key: Key, spec: ChordSpec, i: int)
    requires
        key.in_range(),
        spec.transformation.grammar() is H,
        0 <= i < chord_notes(key, spec).len(),
    ensures
        exists|k: int|
            0 <= k < 7 && (chord_notes(key, spec)[i] - key.tonic) % 12
                == #[trigger] key.scale.steps()[k],
{
    law_voicings_fit_midi(key, spec, i);
    let sum = spec.degree.place() + spec.transformation.stacked()[i];
    lemma_steps_bounded(key.scale);
    let k = sum % 7;
    assert(key.scale.steps()[k] <= 11);
    assert((12 * (sum / 7) + key.scale.steps()[k]) % 12 == key.scale.steps()[k]);
}

/// A plain triad stays in key, and within MIDI's range.
pub proof fn law_triads_stay_in_key(key: Key, degree: ScaleDegree, i: int)
    requires
        key.in_range(),
        0 <= i < 3,
    ensures
        triad_notes(key, degree)[i] == key.scale_note(degree.place() + 2 * i),
        exists|k: int|
            0 <= k < 7 && (triad_notes(key, degree)[i] - key.tonic) % 12
                == #[trigger] key.scale.steps()[k],
{
    let sum = degree.place() + 2 * i;
    lemma_steps_bounded(key.scale);
    lemma_scale_note_bounded(key, sum);
    let k = sum % 7;
    assert(key.scale.steps()[k] <= 11);
    assert((12 * (sum / 7) + key.scale.steps()[k]) % 12 == key.scale.steps()[k]);
}

/// A j-mode chord has the same quality everywhere: its shape above its root depends on neither
/// the key nor the degree.
pub proof fn law_j_mode_is_absolute(a: Key, d: ScaleDegree, b: Key, e: ScaleDegree, t: Transformation, i: int)
    requires
        a.in_range(),
        b.in_range(),
        t.grammar() is J,
        0 <= i < t.stacked().len(),
    ensures
        chord_notes(a, ChordSpec { degree: d, transformation: t })[i] - a.root(d) == chord_notes(
            b,
            ChordSpec { degree: e, transformation: t },
        )[i] - b.root(e),
{
    law_voicings_fit_midi(a, ChordSpec { degree: d, transformation: t }, i);
    law_voicings_fit_midi(b, ChordSpec { degree: e, transformation: t }, i);
}

/// A text begins with another.
pub open spec fn begins(text: Seq<char>, with: Seq<char>) -> bool {
    &&& text.len() >= with.len()
    &&& forall|i: int| 0 <= i < with.len() ==> text[i] == #[trigger] with[i]
}

/// A text ends with another.
pub open spec fn ends(text: Seq<char>, with: Seq<char>) -> bool {
    &&& text.len() >= with.len()
    &&& forall|i: int|
        0 <= i < with.len() ==> text[text.len() - with.len() + i] == #[trigger] with[i]
}

/// A chord has a note so many semitones above the root of its degree.
pub open spec fn has_interval(key: Key, spec: ChordSpec, semitones: int) -> bool {
    exists|i: int|
        0 <= i < chord_notes(key, spec).len() && #[trigger] chord_notes(key, spec)[i] == key.tonic
            + key.scale.steps()[spec.degree.place()] + semitones
}

/// A j-mode chord is what its symbol says, in every key whose tonic is in range and on every degree.
///
/// The third is minor in a symbol that begins with `m`, as in `m9`, but not `maj`, or with `dim`; a
/// `sus2` has the second in its place, an eleventh has none; every other chord has the major third.
/// The fifth is flat in a `dim` and in a `b5`, sharp in an `aug`, left out of a thirteenth, and
/// perfect elsewhere. The seventh is major where the symbol says `maj7` or `Maj7`; a `dim7` and a
/// `6/9` have nine semitones, a `sus2` and an `aug` none, and every other chord has the minor
/// seventh. The tensions are the ones that are named, with the ninth below an eleventh and a
/// thirteenth.
pub proof fn law_j_mode_chords_are_what_they_are_called(key: Key, spec: ChordSpec)
    requires
        key.in_range(),
        spec.transformation.grammar() is J,
    ensures
        ({
            let name = spec.transformation.shown();
            let minor = begins(name, "m"@) && !begins(name, "maj"@) || begins(name, "dim"@);
            let second = name == "sus2"@;
            &&& has_interval(key, spec, 0)
            &&& has_interval(key, spec, 1) == false
            &&& has_interval(key, spec, 2) == second
            &&& has_interval(key, spec, 3) == minor
            &&& has_interval(key, spec, 4) == !(minor || second || name == "11"@)
            &&& has_interval(key, spec, 5) == false
        }),
        ({
            let name = spec.transformation.shown();
            let flat = begins(name, "dim"@) || ends(name, "b5"@);
            let sharp = begins(name, "aug"@);
            &&& has_interval(key, spec, 6) == flat
            &&& has_interval(key, spec, 7) == !(flat || sharp || name == "13"@)
            &&& has_interval(key, spec, 8) == sharp
        }),
        ({
            let name = spec.transformation.shown();
            let sixth = begins(name, "dim"@) || begins(name, "6"@);
            let major = begins(name, "maj7"@) || ends(name, "Maj7"@);
            &&& has_interval(key, spec, 9) == sixth
            &&& has_interval(key, spec, 10) == !(sixth || major || name == "sus2"@ || name
                == "aug"@)
            &&& has_interval(key, spec, 11) == major
            &&& has_interval(key, spec, 12) == false
        }),
        ({
            let name = spec.transformation.shown();
            let flat = ends(name, "b9"@);
            let sharp = ends(name, "#9"@);
            let below = name == "11"@ || name == "13"@;
            &&& has_interval(key, spec, 13) == flat
            &&& has_interval(key, spec, 14) == (below || ends(name, "9"@) && !flat && !sharp)
            &&& has_interval(key, spec, 15) == sharp
            &&& has_interval(key, spec, 16) == false
            &&& has_interval(key, spec, 17) == (name == "11"@)
            &&& has_interval(key, spec, 18) == ends(name, "#11"@)
            &&& has_interval(key, spec, 19) == false
            &&& has_interval(key, spec, 20) == false
            &&& has_interval(key, spec, 21) == (name == "13"@)
        }),
{
    lemma_intervals(key, spec);
    lemma_symbols(spec.transformation);
}

/// What the symbols of the j-mode chords begin and end with.
proof fn lemma_symbols(t: Transformation)
    requires
        t.grammar() is J,
    ensures
        ({
            let name = t.shown();
            &&& begins(name, "m"@) == (t is Min7b5 || t is Min9 || t is Maj7s11 || t is MinMaj7)
            &&& begins(name, "maj"@) == (t is Maj7s11)
            &&& begins(name, "dim"@) == (t is Dim7)
            &&& ends(name, "b5"@) == (t is Min7b5)
            &&& begins(name, "aug"@) == (t is Aug)
            &&& begins(name, "6"@) == (t is SixNine)
            &&& begins(name, "maj7"@) == (t is Maj7s11)
            &&& ends(name, "Maj7"@) == (t is MinMaj7)
            &&& ends(name, "b9"@) == (t is Dom7b9)
            &&& ends(name, "#9"@) == (t is Dom7s9)
            &&& ends(name, "9"@) == (t is Dom7b9 || t is Dom9 || t is SixNine || t is Dom7s9 || t is Min9)
            &&& ends(name, "#11"@) == (t is Maj7s11 || t is Dom7s11)
            &&& (name == "sus2"@) == (t is Sus2)
            &&& (name == "11"@) == (t is Eleven)
            &&& (name == "13"@) == (t is Thirteen)
            &&& (name == "aug"@) == (t is Aug)
        }),
{
    let name = t.shown();
    reveal_strlit("#11");
    reveal_strlit("#9");
    reveal_strlit("11");
    reveal_strlit("13");
    reveal_strlit("6");
    reveal_strlit("6/9");
    reveal_strlit("7");
    reveal_strlit("7#11");
    reveal_strlit("7#9");
    reveal_strlit("7b9");
    reveal_strlit("9");
    reveal_strlit("Maj7");
    reveal_strlit("aug");
    reveal_strlit("b5");
    reveal_strlit("b9");
    reveal_strlit("dim");
    reveal_strlit("dim7");
    reveal_strlit("m");
    reveal_strlit("m7b5");
    reveal_strlit("m9");
    reveal_strlit("mMaj7");
    reveal_strlit("maj");
    reveal_strlit("maj7");
    reveal_strlit("maj7#11");
    reveal_strlit("sus2");
    assert(begins(name, "m"@) == (t is Min7b5 || t is Min9 || t is Maj7s11 || t is MinMaj7)) by {
        assert("m"@[0] == 'm');
    }
    assert(begins(name, "maj"@) == (t is Maj7s11)) by {
        assert("maj"@[0] == 'm');
        assert("maj"@[1] == 'a');
        assert("maj"@[2] == 'j');
    }
    assert(begins(name, "dim"@) == (t is Dim7)) by {
        assert("dim"@[0] == 'd');
        assert("dim"@[1] == 'i');
        assert("dim"@[2] == 'm');
    }
    assert(ends(name, "b5"@) == (t is Min7b5)) by {
        assert("b5"@[0] == 'b');
        assert("b5"@[1] == '5');
    }
    assert(begins(name, "aug"@) == (t is Aug)) by {
        assert("aug"@[0] == 'a');
        assert("aug"@[1] == 'u');
        assert("aug"@[2] == 'g');
    }
    assert(begins(name, "6"@) == (t is SixNine)) by {
        assert("6"@[0] == '6');
    }
    assert(begins(name, "maj7"@) == (t is Maj7s11)) by {
        assert("maj7"@[0] == 'm');
        assert("maj7"@[1] == 'a');
        assert("maj7"@[2] == 'j');
        assert("maj7"@[3] == '7');
    }
    assert(ends(name, "Maj7"@) == (t is MinMaj7)) by {
        assert("Maj7"@[0] == 'M');
        assert("Maj7"@[1] == 'a');
        assert("Maj7"@[2] == 'j');
        assert("Maj7"@[3] == '7');
    }
    assert(ends(name, "b9"@) == (t is Dom7b9)) by {
        assert("b9"@[0] == 'b');
        assert("b9"@[1] == '9');
    }
    assert(ends(name, "#9"@) == (t is Dom7s9)) by {
        assert("#9"@[0] == '#');
        assert("#9"@[1] == '9');
    }
    assert(ends(name, "9"@) == (t is Dom7b9 || t is Dom9 || t is SixNine || t is Dom7s9 || t is Min9)) by {
        assert("9"@[0] == '9');
    }
    assert(ends(name, "#11"@) == (t is Maj7s11 || t is Dom7s11)) by {
        assert("#11"@[0] == '#');
        assert("#11"@[1] == '1');
        assert("#11"@[2] == '1');
    }
    assert((name == "sus2"@) == (t is Sus2)) by {
        assert("sus2"@[0] == 's');
        assert("sus2"@[1] == 'u');
        assert("sus2"@[2] == 's');
        assert("sus2"@[3] == '2');
    }
    assert((name == "11"@) == (t is Eleven)) by {
        assert("11"@[0] == '1');
        assert("11"@[1] == '1');
    }
    assert((name == "13"@) == (t is Thirteen)) by {
        assert("13"@[0] == '1');
        assert("13"@[1] == '3');
    }
    assert((name == "aug"@) == (t is Aug)) by {
        assert("aug"@[0] == 'a');
        assert("aug"@[1] == 'u');
        assert("aug"@[2] == 'g');
    }
}

/// The notes of a j-mode chord of a key in range are its root plus what it stacks.
proof fn lemma_intervals(key: Key, spec: ChordSpec)
    requires
        key.in_range(),
        spec.transformation.grammar() is J,
    ensures
        ({
            let s = spec.transformation.stacked();
            forall|x: int| #[trigger]
                has_interval(key, spec, x) <==> s[0] == x || s[1] == x || s[2] == x || s.len() > 3
                    && s[3] == x || s.len() > 4 && s[4] == x
        }),
{
    let stack = spec.transformation.stacked();
    let notes = chord_notes(key, spec);
    lemma_steps_bounded(key.scale);
    assert forall|i: int| 0 <= i < notes.len() implies #[trigger] notes[i] == key.root(spec.degree)
        + stack[i] by {
        law_voicings_fit_midi(key, spec, i);
    }
    assert(3 <= stack.len() <= 5);
    assert forall|x: int| #[trigger] has_interval(key, spec, x) <==> stack[0] == x || stack[1] == x
        || stack[2] == x || stack.len() > 3 && stack[3] == x || stack.len() > 4 && stack[4] == x by {
        let root = key.root(spec.degree);
        if has_interval(key, spec, x) {
            let i = choose|i: int| 0 <= i < notes.len() && #[trigger] notes[i] == root + x;
            assert(stack[i] == x);
        }
        assert(notes[0] == root + stack[0]);
        assert(notes[1] == root + stack[1]);
        assert(notes[2] == root + stack[2]);
        if stack.len() > 3 {
            assert(notes[3] == root + stack[3]);
        }
        if stack.len() > 4 {
            assert(notes[4] == root + stack[4]);
        }
    }
}

/// Which j-mode chords have which interval above their root: the suspended second, the two thirds,
/// the three fifths, the sixth, the two sevenths, the three ninths, the two elevenths and the
/// thirteenth. No chord has another note, and none has a note twice.
pub proof fn law_j_mode_chords_by_interval(key: Key, spec: ChordSpec, x: int)
    requires
        key.in_range(),
        spec.transformation.grammar() is J,
    ensures
        ({
            let t = spec.transformation;
            &&& has_interval(key, spec, 0)
            &&& has_interval(key, spec, 2) == (t is Sus2)
            &&& has_interval(key, spec, 3) == (t is Min7b5 || t is Dim7 || t is Min9 || t is MinMaj7)
            &&& has_interval(key, spec, 4) == (t !is Min7b5 && t !is Sus2 && t !is Dim7 && t !is Min9 && t !is MinMaj7 && t !is Eleven)
            &&& has_interval(key, spec, 6) == (t is Min7b5 || t is Dim7)
            &&& has_interval(key, spec, 7) == (t !is Min7b5 && t !is Dim7 && t !is Aug && t !is Thirteen)
            &&& has_interval(key, spec, 8) == (t is Aug)
            &&& has_interval(key, spec, 9) == (t is SixNine || t is Dim7)
            &&& has_interval(key, spec, 10) == (t !is Sus2 && t !is SixNine && t !is Dim7 && t !is Aug && t !is Maj7s11 && t !is MinMaj7)
            &&& has_interval(key, spec, 11) == (t is Maj7s11 || t is MinMaj7)
            &&& has_interval(key, spec, 13) == (t is Dom7b9)
            &&& has_interval(key, spec, 14) == (t is Dom9 || t is SixNine || t is Min9 || t is Eleven || t is Thirteen)
            &&& has_interval(key, spec, 15) == (t is Dom7s9)
            &&& has_interval(key, spec, 17) == (t is Eleven)
            &&& has_interval(key, spec, 18) == (t is Maj7s11 || t is Dom7s11)
            &&& has_interval(key, spec, 21) == (t is Thirteen)
            &&& has_interval(key, spec, x) ==> x == 0 || 2 <= x <= 4 || 6 <= x <= 11 || 13 <= x <= 15 || x
                == 17 || x == 18 || x == 21
        }),
        forall|i: int, j: int|
            0 <= i < j < chord_notes(key, spec).len() ==> chord_notes(key, spec)[i] < chord_notes(
                key,
                spec,
            )[j],
{
    lemma_intervals(key, spec);
    let stack = spec.transformation.stacked();
    assert forall|i: int, j: int| 0 <= i < j < chord_notes(key, spec).len() implies chord_notes(
        key,
        spec,
    )[i] < chord_notes(key, spec)[j] by {
        law_voicings_fit_midi(key, spec, i);
        law_voicings_fit_midi(key, spec, j);
        assert(stack[i] < stack[j]);
    }
}

/// A chord has the note so many scale steps above its degree.
pub open spec fn has_step(key: Key, spec: ChordSpec, steps: int) -> bool {
    exists|i: int|
        0 <= i < chord_notes(key, spec).len() && #[trigger] chord_notes(key, spec)[i]
            == key.scale_note(spec.degree.place() + steps)
}

/// An h-mode chord is what its symbol says, in every key whose tonic is in range and on every degree:
/// root and fifth; the fourth in place of the third in a `sus4`; the sixth in a `6`; the seventh in
/// a symbol that begins with `maj`, `7` or `13`; the ninth where the symbol ends with it; and the
/// thirteenth in a `13`. It has no other notes.
pub proof fn law_h_mode_chords_are_what_they_are_called(key: Key, spec: ChordSpec, x: int)
    requires
        key.in_range(),
        spec.transformation.grammar() is H,
    ensures
        ({
            let name = spec.transformation.shown();
            &&& has_step(key, spec, 0)
            &&& has_step(key, spec, 2) == !ends(name, "sus4"@)
            &&& has_step(key, spec, 3) == ends(name, "sus4"@)
            &&& has_step(key, spec, 4)
            &&& has_step(key, spec, 5) == (name == "6"@)
            &&& has_step(key, spec, 6) == (begins(name, "maj"@) || begins(name, "7"@) || begins(
                name,
                "13"@,
            ))
            &&& has_step(key, spec, 8) == (ends(name, "9"@) || ends(name, "9)"@))
            &&& has_step(key, spec, 12) == begins(name, "13"@)
            &&& 0 <= x && has_step(key, spec, x) ==> x == 0 || 2 <= x <= 6 || x == 8 || x == 12
        }),
        ({
            let t = spec.transformation;
            &&& has_step(key, spec, 3) == (t is Sus4 || t is Sus4_7)
            &&& has_step(key, spec, 5) == (t is Diatonic6)
            &&& has_step(key, spec, 6) == !(t is Diatonic9 || t is Sus4 || t is Diatonic6)
            &&& has_step(key, spec, 8) == (t is Diatonic9 || t is Diatonic7_9 || t is DiatonicFull)
            &&& has_step(key, spec, 12) == (t is Diatonic7_13 || t is DiatonicFull)
        }),
        forall|i: int, j: int|
            0 <= i < j < chord_notes(key, spec).len() ==> chord_notes(key, spec)[i] < chord_notes(
                key,
                spec,
            )[j],
{
    lemma_h_steps(key, spec);
    lemma_h_symbols(spec.transformation);
    let stack = spec.transformation.stacked();
    assert forall|i: int, j: int| 0 <= i < j < chord_notes(key, spec).len() implies chord_notes(
        key,
        spec,
    )[i] < chord_notes(key, spec)[j] by {
        law_voicings_fit_midi(key, spec, i);
        law_voicings_fit_midi(key, spec, j);
        assert(stack[i] < stack[j]);
        law_scale_steps(key, spec.degree.place() + stack[i], spec.degree.place() + stack[j]);
    }
}

proof fn lemma_h_steps(key: Key, spec: ChordSpec)
    requires
        key.in_range(),
        spec.transformation.grammar() is H,
    ensures
        ({
            let s = spec.transformation.stacked();
            forall|x: int|
                0 <= x ==> (#[trigger] has_step(key, spec, x) <==> s[0] == x || s[1] == x || s[2] == x
                    || s.len() > 3 && s[3] == x || s.len() > 4 && s[4] == x || s.len() > 5 && s[5] == x)
        }),
{
    let s = spec.transformation.stacked();
    let notes = chord_notes(key, spec);
    let d = spec.degree.place();
    assert forall|i: int| 0 <= i < notes.len() implies #[trigger] notes[i] == key.scale_note(
        d + s[i],
    ) by {
        law_voicings_fit_midi(key, spec, i);
    }
    assert(3 <= s.len() <= 6);
    assert forall|x: int| 0 <= x implies (#[trigger] has_step(key, spec, x) <==> s[0] == x || s[1] == x
        || s[2] == x || s.len() > 3 && s[3] == x || s.len() > 4 && s[4] == x || s.len() > 5 && s[5]
        == x) by {
        if has_step(key, spec, x) {
            let i = choose|i: int|
                0 <= i < notes.len() && #[trigger] notes[i] == key.scale_note(d + x);
            if s[i] < x {
                law_scale_steps(key, d + s[i], d + x);
            } else if x < s[i] {
                law_scale_steps(key, d + x, d + s[i]);
            }
            assert(s[i] == x);
        }
        assert(notes[0] == key.scale_note(d + s[0]));
        assert(notes[1] == key.scale_note(d + s[1]));
        assert(notes[2] == key.scale_note(d + s[2]));
        if s.len() > 3 {
            assert(notes[3] == key.scale_note(d + s[3]));
        }
        if s.len() > 4 {
            assert(notes[4] == key.scale_note(d + s[4]));
        }
        if s.len() > 5 {
            assert(notes[5] == key.scale_note(d + s[5]));
        }
    }
}

/// The steps of a scale, in every key: it starts on its tonic and repeats at the octave; from step to
/// step it goes up by a whole tone, but by a half tone from the third and from the seventh of a major
/// scale, and from the second and from the fifth of a minor one. So it rises without end.
pub proof fn law_scale_steps(key: Key, n: int, m: int)
    requires
        0 <= n < m,
    ensures
        key.scale_note(0) == key.tonic,
        key.scale_note(n + 7) == key.scale_note(n) + 12,
        key.scale_note(n + 1) == key.scale_note(n) + (if key.scale is Major && (n % 7 == 2 || n % 7
            == 6) || key.scale is Minor && (n % 7 == 1 || n % 7 == 4) {
            1int
        } else {
            2
        }),
        key.scale_note(n) < key.scale_note(m),
    decreases m - n,
{
    assert((n + 7) % 7 == n % 7 && (n + 7) / 7 == n / 7 + 1);
    let k = n % 7;
    assert(k == 6 ==> (n + 1) % 7 == 0 && (n + 1) / 7 == n / 7 + 1);
    assert(k < 6 ==> (n + 1) % 7 == k + 1 && (n + 1) / 7 == n / 7);
    assert(k == 0 || k == 1 || k == 2 || k == 3 || k == 4 || k == 5 || k == 6);
    if n + 1 < m {
        law_scale_steps(key, n + 1, m);
    }
}

/// The root of a degree is its tone of the scale, in every key whose tonic is in range, and a chord
/// moves with its key: in a key whose tonic lies higher, every note lies as much higher.
pub proof fn law_chords_transpose(a: Key, b: Key, spec: ChordSpec, i: int)
    requires
        a.in_range(),
        b.in_range(),
        a.scale == b.scale,
        0 <= i < chord_notes(a, spec).len(),
    ensures
        a.root(spec.degree) == a.scale_note(spec.degree.place()),
        a.root(spec.degree) - a.tonic == b.root(spec.degree) - b.tonic,
        chord_notes(a, spec).len() == chord_notes(b, spec).len(),
        chord_notes(a, spec)[i] - a.tonic == chord_notes(b, spec)[i] - b.tonic,
{
    law_voicings_fit_midi(a, spec, i);
    law_voicings_fit_midi(b, spec, i);
    lemma_steps_bounded(a.scale);
    assert(0 <= spec.degree.place() < 7);
}

/// A plain triad is the degree's root, the third and the fifth above it, each a scale tone; its name
/// says which third and which fifth: `dim` a flat fifth, `m` a minor third, nothing a major one.
pub proof fn law_triads_are_what_they_are_called(key: Key, degree: ScaleDegree)
    requires
        key.in_range(),
    ensures
        ({
            let notes = triad_notes(key, degree);
            let third = notes[1] - notes[0];
            let fifth = notes[2] - notes[0];
            let name = triad_suffix(notes[1] - key.root(degree), notes[2] - key.root(degree));
            &&& notes.len() == 3
            &&& notes[0] == key.root(degree)
            &&& notes[1] == key.scale_note(degree.place() + 2)
            &&& notes[2] == key.scale_note(degree.place() + 4)
            &&& third == 3 || third == 4
            &&& fifth == 6 || fifth == 7
            &&& fifth == 6 <==> name == "dim"@
            &&& fifth == 7 && third == 3 <==> name == "m"@
            &&& fifth == 7 && third == 4 <==> name == ""@
        }),
{
    reveal_strlit("dim");
    reveal_strlit("m");
    reveal_strlit("");
    law_triads_stay_in_key(key, degree, 0);
    law_triads_stay_in_key(key, degree, 1);
    law_triads_stay_in_key(key, degree, 2);
    lemma_steps_bounded(key.scale);
    let d = degree.place();
    assert(key.root(degree) == key.scale_note(d));
    law_scale_steps(key, d, d + 1);
    law_scale_steps(key, d + 1, d + 2);
    law_scale_steps(key, d + 2, d + 3);
    law_scale_steps(key, d + 3, d + 4);
    assert("dim"@.len() == 3 && "m"@.len() == 1 && ""@.len() == 0);
}

/// What the symbols of the h-mode chords begin and end with.
proof fn lemma_h_symbols(t: Transformation)
    requires
        t.grammar() is H,
    ensures
        ({
            let name = t.shown();
            &&& ends(name, "sus4"@) == (t is Sus4 || t is Sus4_7)
            &&& (name == "6"@) == (t is Diatonic6)
            &&& begins(name, "maj"@) == (t is Diatonic7 || t is Diatonic7_9)
            &&& begins(name, "7"@) == (t is Sus4_7)
            &&& begins(name, "13"@) == (t is Diatonic7_13 || t is DiatonicFull)
            &&& ends(name, "9"@) == (t is Diatonic9 || t is Diatonic7_9)
            &&& ends(name, "9)"@) == (t is DiatonicFull)
        }),
{
    let name = t.shown();
    reveal_strlit("13");
    reveal_strlit("13(9)");
    reveal_strlit("6");
    reveal_strlit("7");
    reveal_strlit("7sus4");
    reveal_strlit("9");
    reveal_strlit("9)");
    reveal_strlit("add9");
    reveal_strlit("maj");
    reveal_strlit("maj7");
    reveal_strlit("maj9");
    reveal_strlit("sus4");
    assert(ends(name, "sus4"@) == (t is Sus4 || t is Sus4_7)) by {
        assert("sus4"@[0] == 's');
        assert("sus4"@[1] == 'u');
        assert("sus4"@[2] == 's');
        assert("sus4"@[3] == '4');
    }
    assert((name == "6"@) == (t is Diatonic6)) by {
        assert("6"@[0] == '6');
    }
    assert(begins(name, "maj"@) == (t is Diatonic7 || t is Diatonic7_9)) by {
        assert("maj"@[0] == 'm');
        assert("maj"@[1] == 'a');
        assert("maj"@[2] == 'j');
    }
    assert(begins(name, "7"@) == (t is Sus4_7)) by {
        assert("7"@[0] == '7');
    }
    assert(begins(name, "13"@) == (t is Diatonic7_13 || t is DiatonicFull)) by {
        assert("13"@[0] == '1');
        assert("13"@[1] == '3');
    }
    assert(ends(name, "9"@) == (t is Diatonic9 || t is Diatonic7_9)) by {
        assert("9"@[0] == '9');
    }
    assert(ends(name, "9)"@) == (t is DiatonicFull)) by {
        assert("9)"@[0] == '9');
        assert("9)"@[1] == ')');
    }
}

/// No chord leaves MIDI's range, whatever the key: a note that would is the highest there is, and every
/// other stays where it belongs.
pub proof fn law_no_chord_leaves_midi(key: Key, spec: ChordSpec, i: int)
    requires
        0 <= i < chord_notes(key, spec).len(),
    ensures
        chord_notes(key, spec)[i] <= 127,
        key.tonic <= 116 && spec.transformation.grammar() is J ==> ({
            let exact = key.tonic + key.scale.steps()[spec.degree.place()]
                + spec.transformation.stacked()[i];
            chord_notes(key, spec)[i] == (if exact > 127 {
                127
            } else {
                exact
            })
        }),
{
    lemma_stack_bounded(spec.transformation);
    lemma_steps_bounded(key.scale);
    assert(0 <= spec.degree.place() < 7);
}

} // verus!
