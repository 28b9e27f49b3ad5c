//! Rhythm patterns: a one-bar step grid, the takes stacked on it, and the tapping maths that turns
//! performance into grid.
//!
//! A pattern is a grid of `steps_per_bar` cells. Each **layer** is one take, one pass of tapping,
//! with its own gain, so "overlapping takes at decreasing volume" is data rather than a playback
//! trick, and a saved pattern sounds the way it did when it was built.

use vstd::arithmetic::power2::{lemma2_to64, pow2};
use vstd::prelude::*;
use vstd::string::*;

use crate::double::{
    law_a_time_over_itself_is_one, law_parts_that_have_passed, seconds, zero, Binary, Double,
};
use crate::music::BAR_TICKS;
use crate::single::{
    law_multiples_are_nearest, law_products_within_bounds_are_nearest, Single, INFINITY_BITS, ONE_BITS,
    TWENTIETH_BITS,
};
use crate::text::{char_quoted, chars_of, decimal, decimal_text, quoted_char};

verus! {

// -----------------------------------------------------------------------------
// Constants
// -----------------------------------------------------------------------------

/// Grid resolutions a pattern may use, in steps per 4/4 bar.
///
/// 2 = half notes, 4 = quarter notes, 8 = eighths, 16 = sixteenths, 32 = thirty-seconds,
/// 64 = sixty-fourths. Every one divides [`BAR_TICKS`] exactly, so a step is always a whole number
/// of ticks.
pub const VALID_STEPS: [usize; 6] = [2, 4, 8, 16, 32, 64];

/// The grid a new pattern starts on.
pub const DEFAULT_STEPS: usize = 16;

/// The note lengths any duration snaps to, smallest first, up to a whole note: a 32nd, a 16th, an
/// 8th, a 3/16, a quarter, a dotted quarter, a half, a dotted half, a whole.
pub const NOTE_LADDER: [u32; 9] = [120, 240, 480, 720, 960, 1440, 1920, 2880, 3840];

/// How long a hit holds when nothing says otherwise: a sixteenth.
pub const DEFAULT_HOLD: u32 = 240;

/// The longest bar tail a pattern may mute: a quarter note.
pub const MAX_MUTE_TICKS: u32 = 960;

/// The rungs a muted tail may take: nothing, then every note length up to the quarter the mute is
/// capped at.
pub const MUTE_LADDER: [u32; 6] = [0, 120, 240, 480, 720, 960];

/// Gains never decay below this, so the oldest take in a stack is still heard: the bit pattern of
/// 0.05.
pub const GAIN_FLOOR: u32 = TWENTIETH_BITS;

/// Each earlier take is quieter than its successor by this factor, applied once per recorded bar:
/// the bit pattern of 0.7.
pub const TAKE_DECAY: u32 = 0x3F33_3333;

/// Most takes one recording session keeps, and the widest window a pattern can average over.
pub const MAX_TAKES: usize = 8;

// -----------------------------------------------------------------------------
// Ladders
// -----------------------------------------------------------------------------

/// The offset ladder: the note lengths on either side of no offset at all.
pub fn signed_ladder() -> (rungs: Vec<i32>)
    ensures
        rungs@.len() == 19,
        rungs@[9] == 0,
        forall|i: int| 0 <= i < 9 ==> #[trigger] rungs@[i] == -NOTE_LADDER@[8 - i],
        forall|i: int| 10 <= i < 19 ==> #[trigger] rungs@[i] == NOTE_LADDER@[i - 10],
{
    let ladder: [u32; 9] = NOTE_LADDER;
    let mut rungs: Vec<i32> = Vec::new();
    for i in 0..9usize
        invariant
            ladder == NOTE_LADDER,
            rungs@.len() == i,
            forall|j: int| 0 <= j < i ==> #[trigger] rungs@[j] == -NOTE_LADDER@[8 - j],
    {
        let ticks: u32 = ladder[8 - i];
        assert(ticks <= 3840);
        rungs.push(-(ticks as i32));
    }
    rungs.push(0);
    for i in 0..9usize
        invariant
            ladder == NOTE_LADDER,
            rungs@.len() == 10 + i,
            rungs@[9] == 0,
            forall|j: int| 0 <= j < 9 ==> #[trigger] rungs@[j] == -NOTE_LADDER@[8 - j],
            forall|j: int| 10 <= j < 10 + i ==> #[trigger] rungs@[j] == NOTE_LADDER@[j - 10],
    {
        let ticks: u32 = ladder[i];
        assert(ticks <= 3840);
        rungs.push(ticks as i32);
    }
    rungs
}

/// The size of an integer.
pub open spec fn size(x: int) -> int {
    if x < 0 {
        -x
    } else {
        x
    }
}

/// `i` is the first place of `rungs` that holds `value`.
pub open spec fn first_at(rungs: Seq<i32>, value: i32, i: int) -> bool {
    &&& 0 <= i < rungs.len()
    &&& rungs[i] == value
    &&& forall|j: int| 0 <= j < i ==> #[trigger] rungs[j] != value
}

/// `i` is the first of the places of `rungs` whose value is nearest to `value`.
pub open spec fn first_nearest(rungs: Seq<i32>, value: i32, i: int) -> bool {
    &&& 0 <= i < rungs.len()
    &&& forall|j: int|
        0 <= j < rungs.len() ==> size(rungs[i] - value) <= size(#[trigger] rungs[j] - value)
    &&& forall|j: int| 0 <= j < i ==> size(rungs[i] - value) < size(#[trigger] rungs[j] - value)
}

/// Move along a ladder of values.
///
/// A value already on the ladder steps one rung. A value *off* it, anything hand-edited into
/// `rhythms.toml`, snaps to the nearest rung instead of jumping past it. At either end the ladder
/// clamps. The differences that this takes have to fit 32 bits.
pub fn rung_step(rungs: &[i32], current: i32, delta: i32) -> (r: i32)
    requires
        rungs@.len() <= i32::MAX,
        forall|i: int|
            #[trigger] first_at(rungs@, current, i) ==> i32::MIN <= i + delta <= i32::MAX,
        !rungs@.contains(current) ==> forall|i: int|
            0 <= i < rungs@.len() ==> size(#[trigger] rungs@[i] - current) <= i32::MAX,
    ensures
        rungs@.len() == 0 ==> r == current,
        forall|i: int| #[trigger]
            first_at(rungs@, current, i) ==> r == rungs@[crate::music::clamped(
                i + delta,
                0,
                rungs@.len() - 1,
            )],
        rungs@.len() > 0 && !rungs@.contains(current) ==> exists|i: int|
            #[trigger] first_nearest(rungs@, current, i) && r == rungs@[i],
{
    if rungs.len() == 0 {
        return current;
    }
    let mut at: usize = 0;
    while at < rungs.len() && rungs[at] != current
        invariant
            at <= rungs@.len(),
            forall|j: int| 0 <= j < at ==> #[trigger] rungs@[j] != current,
        decreases rungs@.len() - at,
    {
        at = at + 1;
    }
    if at < rungs.len() {
        assert(first_at(rungs@, current, at as int));
        proof {
            assert(rungs@[at as int] == current);
            assert forall|i: int| #[trigger] first_at(rungs@, current, i) implies i == at by {
                assert(rungs@[i] == current);
                if i < at {
                    assert(rungs@[i] != current);
                }
            }
        }
        let next: i32 = at as i32 + delta;
        let last: i32 = rungs.len() as i32 - 1;
        let next: i32 = if next < 0 {
            0
        } else if next > last {
            last
        } else {
            next
        };
        return rungs[next as usize];
    }
    assert(!rungs@.contains(current));
    let mut best: usize = 0;
    let mut i: usize = 1;
    while i < rungs.len()
        invariant
            1 <= i <= rungs@.len(),
            best < i,
            forall|j: int|
                0 <= j < rungs@.len() ==> size(#[trigger] rungs@[j] - current) <= i32::MAX,
            forall|j: int|
                0 <= j < i ==> size(rungs@[best as int] - current) <= size(
                    #[trigger] rungs@[j] - current,
                ),
            forall|j: int|
                0 <= j < best ==> size(rungs@[best as int] - current) < size(
                    #[trigger] rungs@[j] - current,
                ),
        decreases rungs@.len() - i,
    {
        let here: i64 = rungs[i] as i64 - current as i64;
        let there: i64 = rungs[best] as i64 - current as i64;
        let here: i64 = if here < 0 { -here } else { here };
        let there: i64 = if there < 0 { -there } else { there };
        if here < there {
            best = i;
        }
        i = i + 1;
    }
    assert(first_nearest(rungs@, current, best as int));
    assert(forall|i: int| !first_at(rungs@, current, i)) by {
        assert forall|i: int| !first_at(rungs@, current, i) by {
            if first_at(rungs@, current, i) {
                assert(rungs@[i] == current);
            }
        }
    }
    rungs[best]
}

// -----------------------------------------------------------------------------
// Errors
// -----------------------------------------------------------------------------

/// Why a pattern could not be built.
#[derive(Copy, Clone, Debug, PartialEq, Eq, Structural)]
pub enum RhythmError {
    /// The grid is not one of [`VALID_STEPS`], in steps per bar.
    BadResolution(usize),
    /// A step string held something other than `x` or `-`.
    BadStepChar(char),
    /// A pattern must have at least one layer.
    EmptyPattern,
    /// Every layer of a pattern shares one grid resolution.
    LayerLengthMismatch { expected: usize, found: usize },
    /// A hold must be between one tick and the whole bar.
    BadHold(u32),
    /// The muted tail must be no longer than a quarter note.
    BadMute(u32),
}

impl RhythmError {
    /// The sentence shown for the error.
    pub open spec fn shown(self) -> Seq<char> {
        match self {
            RhythmError::BadResolution(n) => decimal(n as nat)
                + " steps per bar is not a grid resolution (use 2, 4, 8, 16, 32, 64)"@,
            RhythmError::BadStepChar(c) => "step string holds "@ + char_quoted(c)
                + "; use 'x' for a hit and '-' for a rest"@,
            RhythmError::EmptyPattern => "a pattern needs at least one layer"@,
            RhythmError::LayerLengthMismatch { expected, found } => "a layer has "@ + decimal(
                found as nat,
            ) + " steps but the pattern's grid is "@ + decimal(expected as nat),
            RhythmError::BadHold(v) => "a hold of "@ + decimal(v as nat)
                + " ticks is outside 1..="@ + decimal(BAR_TICKS as nat),
            RhythmError::BadMute(v) => "a muted tail of "@ + decimal(v as nat)
                + " ticks is longer than "@ + decimal(MAX_MUTE_TICKS as nat)
                + " (a quarter note)"@,
        }
    }

    /// The sentence to show for the error.
    pub fn message(&self) -> (r: String)
        ensures
            r@ == self.shown(),
    {
        let mut s: String = String::new();
        match self {
            RhythmError::BadResolution(n) => {
                s.append(decimal_text(*n as u128).as_str());
                s.append(" steps per bar is not a grid resolution (use 2, 4, 8, 16, 32, 64)");
            },
            RhythmError::BadStepChar(c) => {
                s.append("step string holds ");
                s.append(quoted_char(*c).as_str());
                s.append("; use 'x' for a hit and '-' for a rest");
            },
            RhythmError::EmptyPattern => {
                s.append("a pattern needs at least one layer");
            },
            RhythmError::LayerLengthMismatch { expected, found } => {
                s.append("a layer has ");
                s.append(decimal_text(*found as u128).as_str());
                s.append(" steps but the pattern's grid is ");
                s.append(decimal_text(*expected as u128).as_str());
            },
            RhythmError::BadHold(v) => {
                s.append("a hold of ");
                s.append(decimal_text(*v as u128).as_str());
                s.append(" ticks is outside 1..=");
                s.append(decimal_text(BAR_TICKS as u128).as_str());
            },
            RhythmError::BadMute(v) => {
                s.append("a muted tail of ");
                s.append(decimal_text(*v as u128).as_str());
                s.append(" ticks is longer than ");
                s.append(decimal_text(MAX_MUTE_TICKS as u128).as_str());
                s.append(" (a quarter note)");
            },
        }
        assert(s@ =~= self.shown());
        s
    }
}

// -----------------------------------------------------------------------------
// Steps
// -----------------------------------------------------------------------------

/// `steps` is a grid resolution.
pub open spec fn resolution(steps: int) -> bool {
    steps == 2 || steps == 4 || steps == 8 || steps == 16 || steps == 32 || steps == 64
}

/// True if `steps` is a grid this build understands.
pub fn valid_resolution(steps: usize) -> (r: bool)
    ensures
        r == resolution(steps as int),
        r == VALID_STEPS@.contains(steps),
{
    let valid: [usize; 6] = VALID_STEPS;
    proof {
        assert(VALID_STEPS@[0] == 2 && VALID_STEPS@[1] == 4 && VALID_STEPS@[2] == 8
            && VALID_STEPS@[3] == 16 && VALID_STEPS@[4] == 32 && VALID_STEPS@[5] == 64);
    }
    for i in 0..6usize
        invariant
            valid == VALID_STEPS,
            forall|j: int| 0 <= j < i ==> #[trigger] VALID_STEPS@[j] != steps,
    {
        if valid[i] == steps {
            assert(VALID_STEPS@[i as int] == steps);
            return true;
        }
    }
    assert(VALID_STEPS@[0] == 2 && VALID_STEPS@[1] == 4 && VALID_STEPS@[2] == 8 && VALID_STEPS@[3]
        == 16 && VALID_STEPS@[4] == 32 && VALID_STEPS@[5] == 64);
    false
}

/// The character is a hit.
pub open spec fn hit_char(c: char) -> bool {
    c == 'x' || c == 'X'
}

/// The character is a hit or a rest.
pub open spec fn step_char(c: char) -> bool {
    hit_char(c) || c == '-' || c == '.'
}

/// The first character from `i` on that is neither hit nor rest.
pub open spec fn first_bad_char(text: Seq<char>, i: int) -> Option<char>
    decreases text.len() - i,
{
    if i < 0 || i >= text.len() {
        None
    } else if !step_char(text[i]) {
        Some(text[i])
    } else {
        first_bad_char(text, i + 1)
    }
}

/// The hits and rests of a step string.
pub open spec fn grid_of(text: Seq<char>) -> Seq<bool> {
    text.map_values(|c: char| hit_char(c))
}

/// What a step string parses to: the grid, or the first thing wrong with it.
pub open spec fn parsed_steps(text: Seq<char>) -> Result<Seq<bool>, RhythmError> {
    match first_bad_char(text, 0) {
        Some(c) => Err(RhythmError::BadStepChar(c)),
        None => if resolution(text.len() as int) {
            Ok(grid_of(text))
        } else {
            Err(RhythmError::BadResolution(text.len() as usize))
        },
    }
}

/// The value of a parse.
pub open spec fn steps_result(r: Result<Vec<bool>, RhythmError>) -> Result<Seq<bool>, RhythmError> {
    match r {
        Ok(v) => Ok(v@),
        Err(e) => Err(e),
    }
}

/// Parse the wire form of a step grid: `x` (or `X`) is a hit, `-` (or `.`) is a rest.
///
/// A string rather than a list of booleans because a pattern is meant to be readable and
/// hand-editable in `rhythms.toml`, and because the length *is* the grid resolution: there is no
/// second field to disagree with it.
pub fn parse_steps(text: &str) -> (r: Result<Vec<bool>, RhythmError>)
    ensures
        steps_result(r) == parsed_steps(text@),
{
    let chars: Vec<char> = chars_of(text);
    let mut out: Vec<bool> = Vec::new();
    for i in 0..chars.len()
        invariant
            chars@ == text@,
            first_bad_char(text@, 0) == first_bad_char(text@, i as int),
            out@.len() == i,
            forall|j: int| 0 <= j < i ==> #[trigger] out@[j] == hit_char(text@[j]),
    {
        match chars[i] {
            'x' | 'X' => {
                out.push(true);
            },
            '-' | '.' => {
                out.push(false);
            },
            other => {
                return Err(RhythmError::BadStepChar(other));
            },
        }
    }
    if !valid_resolution(out.len()) {
        return Err(RhythmError::BadResolution(out.len()));
    }
    assert(out@ =~= grid_of(text@));
    Ok(out)
}

/// The wire form of a grid.
pub open spec fn rendered(steps: Seq<bool>) -> Seq<char> {
    steps.map_values(|on: bool| if on { 'x' } else { '-' })
}

/// The wire form of a step grid.
pub fn render_steps(steps: &[bool]) -> (r: String)
    ensures
        r@ == rendered(steps@),
{
    let mut r: String = String::new();
    for i in 0..steps.len()
        invariant
            r@ == rendered(steps@.take(i as int)),
    {
        proof {
            reveal_strlit("x");
            reveal_strlit("-");
        }
        if steps[i] {
            r.append("x");
        } else {
            r.append("-");
        }
        assert(r@ =~= rendered(steps@.take(i + 1)));
    }
    assert(steps@.take(steps@.len() as int) =~= steps@);
    r
}

/// A grid that is rendered and parsed again comes back as it was.
pub proof fn law_steps_round_trip(steps: Seq<bool>)
    requires
        resolution(steps.len() as int),
    ensures
        parsed_steps(rendered(steps)) == Ok::<Seq<bool>, RhythmError>(steps),
{
    lemma_rendered_is_clean(steps, 0);
    assert(grid_of(rendered(steps)) =~= steps);
}

proof fn lemma_rendered_is_clean(steps: Seq<bool>, i: int)
    requires
        0 <= i <= steps.len(),
    ensures
        first_bad_char(rendered(steps), i) is None,
    decreases steps.len() - i,
{
    if i < steps.len() {
        lemma_rendered_is_clean(steps, i + 1);
    }
}

// -----------------------------------------------------------------------------
// Layer
// -----------------------------------------------------------------------------

/// One take: a step grid and the gain it plays at.
#[derive(Debug, PartialEq)]
pub struct RhythmLayer {
    /// 0..1. Take 1 is loudest; each earlier take is decayed.
    pub gain: Single,
    /// One flag per grid cell.
    pub steps: Vec<bool>,
}

/// What a layer holds.
#[verifier::ext_equal]
pub struct LayerModel {
    pub gain: Single,
    pub steps: Seq<bool>,
}

impl LayerModel {
    /// The layer sounds on `step`.
    pub open spec fn sounds(self, step: int) -> bool {
        0 <= step < self.steps.len() && self.steps[step]
    }

    /// The layers are equal, gains compared as numbers.
    pub open spec fn same(self, other: LayerModel) -> bool {
        self.gain.equals(other.gain) && self.steps == other.steps
    }
}

impl View for RhythmLayer {
    type V = LayerModel;

    open spec fn view(&self) -> LayerModel {
        LayerModel { gain: self.gain, steps: self.steps@ }
    }
}

impl Clone for RhythmLayer {
    fn clone(&self) -> (r: Self)
        ensures
            r@ == self@,
    {
        let steps: Vec<bool> = self.steps.clone();
        assert(steps@ =~= self.steps@);
        RhythmLayer { gain: self.gain, steps }
    }
}

/// A gain kept within 0 and 1.
pub open spec fn unit_gain(gain: Single) -> Single {
    gain.within(Single { bits: 0 }, Single { bits: ONE_BITS })
}

/// The places below `n` at which a grid has a hit, in order.
pub open spec fn hit_places(steps: Seq<bool>, n: int) -> Seq<usize>
    decreases n,
{
    if n <= 0 {
        Seq::empty()
    } else if steps[n - 1] {
        hit_places(steps, n - 1).push((n - 1) as usize)
    } else {
        hit_places(steps, n - 1)
    }
}

impl RhythmLayer {
    pub fn new(gain: Single, steps: Vec<bool>) -> (r: Self)
        ensures
            r.gain == unit_gain(gain),
            r.steps@ == steps@,
    {
        RhythmLayer { gain: gain.clamp(Single { bits: 0 }, Single { bits: ONE_BITS }), steps }
    }

    pub fn from_step_string(gain: Single, text: &str) -> (r: Result<Self, RhythmError>)
        ensures
            match parsed_steps(text@) {
                Ok(steps) => r matches Ok(layer) && layer@ == (LayerModel {
                    gain: unit_gain(gain),
                    steps,
                }),
                Err(e) => r == Err::<Self, RhythmError>(e),
            },
    {
        match parse_steps(text) {
            Ok(steps) => Ok(RhythmLayer::new(gain, steps)),
            Err(e) => Err(e),
        }
    }

    pub fn to_step_string(&self) -> (r: String)
        ensures
            r@ == rendered(self@.steps),
    {
        render_steps(self.steps.as_slice())
    }

    pub fn len(&self) -> (r: usize)
        ensures
            r == self@.steps.len(),
    {
        self.steps.len()
    }

    pub fn hit(&self, step: usize) -> (r: bool)
        ensures
            r == self@.sounds(step as int),
    {
        step < self.steps.len() && self.steps[step]
    }

    pub fn any_hit(&self) -> (r: bool)
        ensures
            r == exists|i: int| self@.sounds(i),
    {
        for i in 0..self.steps.len()
            invariant
                forall|j: int| 0 <= j < i ==> !self@.sounds(j),
        {
            if self.steps[i] {
                assert(self@.sounds(i as int));
                return true;
            }
        }
        false
    }

    /// The steps this layer sounds on, in order.
    pub fn hits(&self) -> (r: Vec<usize>)
        ensures
            r@ == hit_places(self@.steps, self@.steps.len() as int),
    {
        let mut r: Vec<usize> = Vec::new();
        for i in 0..self.steps.len()
            invariant
                r@ == hit_places(self@.steps, i as int),
        {
            if self.steps[i] {
                r.push(i);
            }
        }
        r
    }

    /// Whether two layers are equal.
    pub fn same(&self, other: &RhythmLayer) -> (r: bool)
        ensures
            r == self@.same(other@),
    {
        self.gain.same(other.gain) && same_steps(&self.steps, &other.steps)
    }
}

fn same_steps(a: &Vec<bool>, b: &Vec<bool>) -> (r: bool)
    ensures
        r == (a@ == b@),
{
    if a.len() != b.len() {
        return false;
    }
    for i in 0..a.len()
        invariant
            a@.len() == b@.len(),
            forall|j: int| 0 <= j < i ==> a@[j] == b@[j],
    {
        if a[i] != b[i] {
            assert(a@[i as int] != b@[i as int]);
            return false;
        }
    }
    assert(a@ =~= b@);
    true
}

// -----------------------------------------------------------------------------
// Pattern
// -----------------------------------------------------------------------------

/// A one-bar rhythm: a grid, a hold, and the takes stacked on it.
///
/// `hold` is in **ticks**, so a half note stays a half note when the grid changes. A slot with no
/// pattern assigned does not use a pattern at all: it sustains for the transport's note length.
#[derive(Debug, PartialEq)]
pub struct RhythmPattern {
    pub name: String,
    /// How long each hit holds, in ticks, `1..=BAR_TICKS`.
    pub hold: u32,
    /// How much of the bar's tail is silent, in ticks, up to a quarter note; 0 means no mute.
    pub mute_ticks: u32,
    pub layers: Vec<RhythmLayer>,
}

/// What a pattern holds.
#[verifier::ext_equal]
pub struct PatternModel {
    pub name: Seq<char>,
    pub hold: u32,
    pub mute_ticks: u32,
    pub layers: Seq<LayerModel>,
}

/// What each of some layers holds.
pub open spec fn layer_models(layers: Seq<RhythmLayer>) -> Seq<LayerModel> {
    layers.map_values(|l: RhythmLayer| l@)
}

impl View for RhythmPattern {
    type V = PatternModel;

    open spec fn view(&self) -> PatternModel {
        PatternModel {
            name: self.name@,
            hold: self.hold,
            mute_ticks: self.mute_ticks,
            layers: layer_models(self.layers@),
        }
    }
}

impl Clone for RhythmPattern {
    fn clone(&self) -> (r: Self)
        ensures
            r@ == self@,
    {
        let layers: Vec<RhythmLayer> = self.layers.clone();
        assert(layer_models(layers@) =~= layer_models(self.layers@));
        RhythmPattern {
            name: self.name.clone(),
            hold: self.hold,
            mute_ticks: self.mute_ticks,
            layers,
        }
    }
}

/// The hits of the first `n` layers on one step, in take order.
pub open spec fn hits_on(layers: Seq<LayerModel>, step: int, n: int) -> Seq<(usize, Single)>
    decreases n,
{
    if n <= 0 {
        Seq::empty()
    } else if layers[n - 1].sounds(step) {
        hits_on(layers, step, n - 1).push((step as usize, layers[n - 1].gain))
    } else {
        hits_on(layers, step, n - 1)
    }
}

/// The hits on the steps below `n`, in step order and then take order.
pub open spec fn hits_below(layers: Seq<LayerModel>, n: int) -> Seq<(usize, Single)>
    decreases n,
{
    if n <= 0 {
        Seq::empty()
    } else {
        hits_below(layers, n - 1) + hits_on(layers, n - 1, layers.len() as int)
    }
}

/// The hits of the first `n` layers, counted.
pub open spec fn hit_total(layers: Seq<LayerModel>, n: int) -> int
    decreases n,
{
    if n <= 0 {
        0
    } else {
        hit_total(layers, n - 1) + hit_places(
            layers[n - 1].steps,
            layers[n - 1].steps.len() as int,
        ).len()
    }
}

/// The first layer from `i` on whose grid is not `expected` cells long.
pub open spec fn first_mismatch(layers: Seq<LayerModel>, expected: int, i: int) -> Option<int>
    decreases layers.len() - i,
{
    if i < 0 || i >= layers.len() {
        None
    } else if layers[i].steps.len() != expected {
        Some(layers[i].steps.len() as int)
    } else {
        first_mismatch(layers, expected, i + 1)
    }
}

impl PatternModel {
    /// Grid cells in one bar: those of the first layer.
    pub open spec fn cells(self) -> int {
        if self.layers.len() == 0 {
            0
        } else {
            self.layers[0].steps.len() as int
        }
    }

    /// Ticks per grid cell.
    pub open spec fn cell_ticks(self) -> int {
        if self.cells() == 0 {
            BAR_TICKS as int
        } else {
            BAR_TICKS as int / self.cells()
        }
    }

    /// How long one hit holds, in ticks.
    pub open spec fn held(self) -> int {
        crate::music::clamped(self.hold as int, 1, BAR_TICKS as int)
    }

    /// The tick from which the bar is silent, if any of it is muted.
    pub open spec fn silent_from(self) -> Option<int> {
        if self.mute_ticks == 0 {
            None
        } else if self.mute_ticks > BAR_TICKS {
            Some(0)
        } else {
            Some(BAR_TICKS - self.mute_ticks)
        }
    }

    /// Some layer has a hit.
    pub open spec fn audible(self) -> bool {
        exists|i: int, j: int| 0 <= i < self.layers.len() && #[trigger] self.layers[i].sounds(j)
    }

    /// Every hit as step and gain, in step order and then take order.
    pub open spec fn all_hits(self) -> Seq<(usize, Single)> {
        hits_below(self.layers, self.cells())
    }

    /// The first thing wrong with the pattern, if anything is.
    pub open spec fn fault(self) -> Option<RhythmError> {
        if self.layers.len() == 0 {
            Some(RhythmError::EmptyPattern)
        } else if !resolution(self.cells()) {
            Some(RhythmError::BadResolution(self.cells() as usize))
        } else if first_mismatch(self.layers, self.cells(), 0) is Some {
            Some(
                RhythmError::LayerLengthMismatch {
                    expected: self.cells() as usize,
                    found: first_mismatch(self.layers, self.cells(), 0)->0 as usize,
                },
            )
        } else if self.hold == 0 || self.hold > BAR_TICKS {
            Some(RhythmError::BadHold(self.hold))
        } else if self.mute_ticks > MAX_MUTE_TICKS {
            Some(RhythmError::BadMute(self.mute_ticks))
        } else {
            None
        }
    }

    /// Nothing is wrong with the pattern.
    pub open spec fn valid(self) -> bool {
        self.fault() is None
    }

    /// The patterns are equal, gains compared as numbers.
    pub open spec fn same(self, other: PatternModel) -> bool {
        &&& self.name == other.name
        &&& self.hold == other.hold
        &&& self.mute_ticks == other.mute_ticks
        &&& self.layers.len() == other.layers.len()
        &&& forall|i: int|
            0 <= i < self.layers.len() ==> #[trigger] self.layers[i].same(other.layers[i])
    }
}

/// A grid of `n` rests.
pub open spec fn rests(n: int) -> Seq<bool> {
    Seq::new(n as nat, |i: int| false)
}

/// The pattern with one layer at full gain.
pub open spec fn one_layer(name: Seq<char>, hold: int, steps: Seq<bool>) -> PatternModel {
    PatternModel {
        name,
        hold: hold as u32,
        mute_ticks: 0,
        layers: seq![LayerModel { gain: Single { bits: ONE_BITS }, steps }],
    }
}

/// The bit pattern of a grid resolution, or of 1, as a number.
pub open spec fn cells_bits(steps: int) -> int
    decreases steps,
{
    if steps <= 1 {
        ONE_BITS as int
    } else {
        cells_bits(steps / 2) + 0x80_0000
    }
}

/// A hold in ticks from a fraction of one grid cell: the fraction kept within 0.05 and the whole
/// grid, times the ticks of a cell, to the nearest tick and at least one.
pub open spec fn gate_hold(gate: Single, steps: int) -> int {
    let g = gate.within(Single { bits: TWENTIETH_BITS }, Single { bits: cells_bits(steps) as u32 });
    if g.nan() {
        1
    } else {
        crate::music::clamped(
            g.nearest_multiple((BAR_TICKS as int / (if steps < 1 { 1 } else { steps })) as nat) as int,
            1,
            BAR_TICKS as int,
        )
    }
}

/// A hold in ticks from a fraction of one grid cell.
///
/// The constructors below take a gate because "half a cell" is how a staccato hit is thought
/// about, and how the built-ins were described; the pattern itself stores ticks, so a hold does
/// not move when the grid does.
fn hold_from_gate(gate: Single, steps: usize) -> (r: u32)
    requires
        steps == 0 || resolution(steps as int),
    ensures
        r == gate_hold(gate, steps as int),
        1 <= r <= BAR_TICKS,
{
    let top: u32 = match steps {
        2 => 0x4000_0000,
        4 => 0x4080_0000,
        8 => 0x4100_0000,
        16 => 0x4180_0000,
        32 => 0x4200_0000,
        64 => 0x4280_0000,
        _ => ONE_BITS,
    };
    proof {
        reveal_with_fuel(cells_bits, 8);
        assert(top == cells_bits(steps as int));
    }
    let cells: u64 = if steps < 1 { 1 } else { steps as u64 };
    let step_ticks: u64 = BAR_TICKS / cells;
    let g: Single = gate.clamp(Single { bits: TWENTIETH_BITS }, Single { bits: top });
    if g.is_nan() {
        return 1;
    }
    assert(step_ticks <= 3840) by (nonlinear_arith)
        requires
            step_ticks == 3840u64 / cells,
            cells >= 1,
    ;
    let ticks: u64 = g.scaled(step_ticks);
    if ticks < 1 {
        1
    } else if ticks > BAR_TICKS {
        BAR_TICKS as u32
    } else {
        ticks as u32
    }
}

fn silent_steps(n: usize) -> (r: Vec<bool>)
    ensures
        r@ == rests(n as int),
{
    let mut r: Vec<bool> = Vec::new();
    for i in 0..n
        invariant
            r@ == rests(i as int),
    {
        r.push(false);
        assert(r@ =~= rests(i + 1));
    }
    r
}

fn single_layer(name: &str, hold: u32, steps: Vec<bool>) -> (r: RhythmPattern)
    ensures
        r@ == one_layer(name@, hold as int, steps@),
{
    let layer: RhythmLayer = RhythmLayer::new(Single { bits: ONE_BITS }, steps);
    let r: RhythmPattern = RhythmPattern {
        name: name.to_owned(),
        hold,
        mute_ticks: 0,
        layers: vec![layer],
    };
    assert(r@.layers =~= seq![LayerModel { gain: Single { bits: ONE_BITS }, steps: steps@ }]);
    r
}

impl RhythmPattern {
    /// A valid but silent draft at `resolution` steps per bar.
    pub fn blank(name: &str, resolution: usize) -> (r: Result<Self, RhythmError>)
        ensures
            self::resolution(resolution as int) ==> (r matches Ok(p) && p@ == one_layer(
                name@,
                DEFAULT_HOLD as int,
                rests(resolution as int),
            )),
            !self::resolution(resolution as int) ==> r == Err::<Self, RhythmError>(
                RhythmError::BadResolution(resolution),
            ),
    {
        if !valid_resolution(resolution) {
            return Err(RhythmError::BadResolution(resolution));
        }
        Ok(single_layer(name, DEFAULT_HOLD, silent_steps(resolution)))
    }

    /// A silent draft at the default grid, for a caller that cannot fail.
    pub fn draft() -> (r: Self)
        ensures
            r@ == one_layer(""@, DEFAULT_HOLD as int, rests(DEFAULT_STEPS as int)),
    {
        single_layer("", DEFAULT_HOLD, silent_steps(DEFAULT_STEPS))
    }

    /// One layer, taken from a step string.
    ///
    /// `gate` is how many cells the hit holds, as a fraction; the pattern stores the resulting
    /// ticks, so the grid is baked in here and never again.
    pub fn from_step_string(name: &str, gate: Single, text: &str) -> (r: Result<Self, RhythmError>)
        ensures
            match parsed_steps(text@) {
                Ok(steps) => r matches Ok(p) && p@ == one_layer(
                    name@,
                    gate_hold(gate, steps.len() as int),
                    steps,
                ),
                Err(e) => r == Err::<Self, RhythmError>(e),
            },
    {
        match parse_steps(text) {
            Ok(steps) => {
                let hold: u32 = hold_from_gate(gate, steps.len());
                Ok(single_layer(name, hold, steps))
            },
            Err(e) => Err(e),
        }
    }

    /// Grid cells in one bar. Zero only for a pattern with no layers, which
    /// [`RhythmPattern::validate`] refuses, or for one whose first layer is empty.
    pub fn steps_per_bar(&self) -> (r: usize)
        ensures
            r == self@.cells(),
    {
        if self.layers.len() == 0 {
            0
        } else {
            assert(self@.layers[0] == self.layers@[0]@);
            self.layers[0].len()
        }
    }

    /// Ticks per grid cell.
    pub fn step_ticks(&self) -> (r: u64)
        ensures
            r == self@.cell_ticks(),
    {
        let steps: usize = self.steps_per_bar();
        if steps == 0 {
            BAR_TICKS
        } else {
            BAR_TICKS / steps as u64
        }
    }

    /// How long one hit holds, in ticks.
    pub fn hold_ticks(&self) -> (r: u64)
        ensures
            r == self@.held(),
    {
        let hold: u64 = self.hold as u64;
        if hold < 1 {
            1
        } else if hold > BAR_TICKS {
            BAR_TICKS
        } else {
            hold
        }
    }

    /// The tick from which the bar is silent, or `None` when nothing is muted.
    ///
    /// `None` rather than `Some(BAR_TICKS)` on purpose: a boundary that happens to sit on the bar
    /// line would still trim a hold that crosses it, and a hold crossing the bar line is exactly
    /// what an offset chord is for.
    pub fn mute_boundary(&self) -> (r: Option<u64>)
        ensures
            match self@.silent_from() {
                Some(t) => r matches Some(v) && v == t,
                None => r is None,
            },
    {
        if self.mute_ticks == 0 {
            return None;
        }
        let mute: u64 = if self.mute_ticks as u64 > BAR_TICKS {
            BAR_TICKS
        } else {
            self.mute_ticks as u64
        };
        Some(BAR_TICKS - mute)
    }

    pub fn any_hit(&self) -> (r: bool)
        ensures
            r == self@.audible(),
    {
        for i in 0..self.layers.len()
            invariant
                forall|k: int, j: int|
                    0 <= k < i ==> !#[trigger] self@.layers[k].sounds(j),
        {
            assert(self@.layers[i as int] == self.layers@[i as int]@);
            if self.layers[i].any_hit() {
                let ghost j = choose|j: int| self.layers@[i as int]@.sounds(j);
                assert(self@.layers[i as int].sounds(j));
                return true;
            }
        }
        false
    }

    /// Every hit as `(step, gain)`, in step order and then take order: the order the stack sounds
    /// in when several takes land on one cell.
    pub fn hits(&self) -> (r: Vec<(usize, Single)>)
        ensures
            r@ == self@.all_hits(),
    {
        let steps: usize = self.steps_per_bar();
        let mut r: Vec<(usize, Single)> = Vec::new();
        for step in 0..steps
            invariant
                r@ == hits_below(self@.layers, step as int),
        {
            let ghost before = r@;
            for i in 0..self.layers.len()
                invariant
                    r@ == before + hits_on(self@.layers, step as int, i as int),
            {
                assert(self@.layers[i as int] == self.layers@[i as int]@);
                if self.layers[i].hit(step) {
                    r.push((step, self.layers[i].gain));
                }
                assert(r@ =~= before + hits_on(self@.layers, step as int, i + 1));
            }
            assert(self@.layers.len() == self.layers@.len());
        }
        r
    }

    /// Total hits across every layer.
    pub fn hit_count(&self) -> (r: usize)
        requires
            hit_total(self@.layers, self@.layers.len() as int) <= usize::MAX,
        ensures
            r == hit_total(self@.layers, self@.layers.len() as int),
    {
        let mut r: usize = 0;
        for i in 0..self.layers.len()
            invariant
                r == hit_total(self@.layers, i as int),
                hit_total(self@.layers, self@.layers.len() as int) <= usize::MAX,
        {
            proof {
                lemma_hit_total_grows(self@.layers, i + 1, self@.layers.len() as int);
                assert(self@.layers[i as int] == self.layers@[i as int]@);
            }
            r = r + self.layers[i].hits().len();
        }
        assert(self@.layers.len() == self.layers@.len());
        r
    }

    pub fn validate(&self) -> (r: Result<(), RhythmError>)
        ensures
            match self@.fault() {
                Some(e) => r == Err::<(), RhythmError>(e),
                None => r is Ok,
            },
    {
        assert(self@.layers.len() == self.layers@.len());
        if self.layers.len() == 0 {
            return Err(RhythmError::EmptyPattern);
        }
        let first: usize = self.steps_per_bar();
        if !valid_resolution(first) {
            return Err(RhythmError::BadResolution(first));
        }
        for i in 0..self.layers.len()
            invariant
                first == self@.cells(),
                self@.layers.len() > 0,
                resolution(first as int),
                first_mismatch(self@.layers, first as int, 0) == first_mismatch(
                    self@.layers,
                    first as int,
                    i as int,
                ),
        {
            assert(self@.layers[i as int] == self.layers@[i as int]@);
            let found: usize = self.layers[i].len();
            if found != first {
                return Err(RhythmError::LayerLengthMismatch { expected: first, found });
            }
        }
        if self.hold == 0 || self.hold as u64 > BAR_TICKS {
            return Err(RhythmError::BadHold(self.hold));
        }
        if self.mute_ticks > MAX_MUTE_TICKS {
            return Err(RhythmError::BadMute(self.mute_ticks));
        }
        Ok(())
    }

    /// Whether two patterns are equal.
    pub fn same(&self, other: &RhythmPattern) -> (r: bool)
        ensures
            r == self@.same(other@),
    {
        if !(self.name == other.name) || self.hold != other.hold || self.mute_ticks
            != other.mute_ticks || self.layers.len() != other.layers.len() {
            return false;
        }
        for i in 0..self.layers.len()
            invariant
                self@.name == other@.name,
                self.hold == other.hold,
                self.mute_ticks == other.mute_ticks,
                self.layers@.len() == other.layers@.len(),
                forall|j: int| 0 <= j < i ==> #[trigger] self@.layers[j].same(other@.layers[j]),
        {
            assert(self@.layers[i as int] == self.layers@[i as int]@);
            assert(other@.layers[i as int] == other.layers@[i as int]@);
            if !self.layers[i].same(&other.layers[i]) {
                assert(!self@.layers[i as int].same(other@.layers[i as int]));
                return false;
            }
        }
        true
    }
}

proof fn lemma_hit_total_grows(layers: Seq<LayerModel>, i: int, n: int)
    requires
        0 <= i <= n,
    ensures
        0 <= hit_total(layers, i) <= hit_total(layers, n),
    decreases n,
{
    if i < n {
        lemma_hit_total_grows(layers, i, n - 1);
    } else if i > 0 {
        lemma_hit_total_grows(layers, i - 1, i - 1);
    }
}

/// The gain of a take after one bar of decay.
pub open spec fn decayed(before: Single, factor: Single, after: Single) -> bool {
    &&& before.product_nan(factor) ==> after.nan()
    &&& !before.product_nan(factor) ==> after == before.product_within(factor)
}

/// Quiet every take one step of the decay chain.
///
/// Applied once per recorded bar, so the take you just played is always the loudest and the stack
/// fades as it builds.
pub fn decay_layer_gains(layers: &mut Vec<RhythmLayer>, factor: Single)
    ensures
        final(layers)@.len() == old(layers)@.len(),
        forall|i: int|
            0 <= i < final(layers)@.len() ==> {
                &&& (#[trigger] final(layers)@[i]).steps@ == old(layers)@[i].steps@
                &&& decayed(old(layers)@[i].gain, factor, final(layers)@[i].gain)
            },
{
    let ghost before = layers@;
    let count: usize = layers.len();
    for i in 0..count
        invariant
            count == before.len(),
            layers@.len() == before.len(),
            forall|j: int|
                0 <= j < i ==> {
                    &&& (#[trigger] layers@[j]).steps@ == before[j].steps@
                    &&& decayed(before[j].gain, factor, layers@[j].gain)
                },
            forall|j: int| i <= j < before.len() ==> layers@[j] == before[j],
    {
        let gain: Single = layers[i].gain.damped(factor);
        layers[i].gain = gain;
    }
}

// -----------------------------------------------------------------------------
// Tapping maths
// -----------------------------------------------------------------------------

/// The cell a tap falls on: the nearest, a half to the later one, positions taken modulo the bar.
pub open spec fn tapped_cell(tap: int, steps: int) -> int {
    let cell = BAR_TICKS as int / steps;
    (2 * (tap % BAR_TICKS as int) + cell) / (2 * cell) % steps
}

/// The grid that taps make.
pub open spec fn tapped_grid(taps: Seq<u32>, steps: int) -> Seq<bool> {
    Seq::new(
        steps as nat,
        |c: int| exists|k: int| 0 <= k < taps.len() && tapped_cell(#[trigger] taps[k] as int, steps) == c,
    )
}

/// Snap tapped tick positions onto a grid of `steps` cells per bar.
///
/// Each tap rounds to the nearest cell. Positions are taken modulo the bar, so a take that ran
/// across several bars folds into one, which is what makes a one-bar pattern out of a four-bar
/// performance. A grid that is not a resolution gives nothing.
pub fn quantize(taps: &[u32], steps: usize) -> (r: Vec<bool>)
    ensures
        resolution(steps as int) ==> r@ == tapped_grid(taps@, steps as int),
        !resolution(steps as int) ==> r@.len() == 0,
{
    if !valid_resolution(steps) {
        return Vec::new();
    }
    let cell: u64 = BAR_TICKS / steps as u64;
    let mut grid: Vec<bool> = silent_steps(steps);
    for i in 0..taps.len()
        invariant
            resolution(steps as int),
            cell == BAR_TICKS as int / steps as int,
            grid@.len() == steps,
            forall|c: int|
                0 <= c < steps ==> (#[trigger] grid@[c] <==> exists|k: int|
                    0 <= k < i && tapped_cell(#[trigger] taps@[k] as int, steps as int) == c),
    {
        let position: u64 = taps[i] as u64 % BAR_TICKS;
        let index: usize = ((2 * position + cell) / (2 * cell) % steps as u64) as usize;
        assert(index == tapped_cell(taps@[i as int] as int, steps as int));
        let ghost before = grid@;
        grid.set(index, true);
        assert forall|c: int| 0 <= c < steps implies (#[trigger] grid@[c] <==> exists|k: int|
            0 <= k < i + 1 && tapped_cell(#[trigger] taps@[k] as int, steps as int) == c) by {
            if c == index {
                assert(tapped_cell(taps@[i as int] as int, steps as int) == c);
            } else {
                assert(grid@[c] == before[c]);
                if before[c] {
                    let k = choose|k: int|
                        0 <= k < i && tapped_cell(#[trigger] taps@[k] as int, steps as int) == c;
                    assert(0 <= k < i + 1);
                }
            }
        }
    }
    assert(grid@ =~= tapped_grid(taps@, steps as int));
    grid
}

/// The tap count of the shortest of the first `n` takes of a window.
pub open spec fn shortest(window: Seq<Vec<u32>>, n: int) -> int
    decreases n,
{
    if n <= 1 {
        window[0]@.len() as int
    } else if window[n - 1]@.len() < shortest(window, n - 1) {
        window[n - 1]@.len() as int
    } else {
        shortest(window, n - 1)
    }
}

/// The sum of the `i`-th taps of the first `n` takes of a window.
pub open spec fn tap_sum(window: Seq<Vec<u32>>, i: int, n: int) -> int
    decreases n,
{
    if n <= 0 {
        0
    } else {
        tap_sum(window, i, n - 1) + window[n - 1]@[i]
    }
}

/// The last `keep` takes.
pub open spec fn recent(takes: Seq<Vec<u32>>, keep: int) -> Seq<Vec<u32>> {
    takes.subrange(if takes.len() > keep { takes.len() - keep } else { 0 }, takes.len() as int)
}

/// Average the n-th tap of the most recent `keep` takes.
///
/// Averaging by ordinal is what makes this *rough* rather than exact: the same gesture played
/// three times lands in three slightly different places, and the mean is the gesture. Takes are
/// truncated to the shortest one's tap count, because a take with fewer taps has nothing to average
/// against and inventing a position would be worse than dropping the tail.
pub fn average_takes(takes: &[Vec<u32>], keep: usize) -> (r: Vec<u32>)
    ensures
        takes@.len() == 0 || keep == 0 ==> r@.len() == 0,
        takes@.len() > 0 && keep > 0 ==> ({
            let window = recent(takes@, keep as int);
            &&& r@.len() == shortest(window, window.len() as int)
            &&& forall|i: int|
                0 <= i < r@.len() ==> #[trigger] r@[i] == tap_sum(window, i, window.len() as int)
                    / window.len() as int
        }),
{
    if takes.len() == 0 || keep == 0 {
        return Vec::new();
    }
    let start: usize = if takes.len() > keep { takes.len() - keep } else { 0 };
    let total: usize = takes.len();
    let size: usize = total - start;
    let ghost window = recent(takes@, keep as int);
    assert(window.len() == size);
    let mut count: usize = takes[start].len();
    for n in 1..size
        invariant
            start + size == total,
            total == takes@.len(),
            window == takes@.subrange(start as int, takes@.len() as int),
            count == shortest(window, n as int),
            forall|k: int| 0 <= k < n ==> count <= (#[trigger] window[k])@.len(),
    {
        let len: usize = takes[start + n].len();
        assert(window[n as int] == takes@[start + n]);
        if len < count {
            count = len;
        }
    }
    let mut r: Vec<u32> = Vec::new();
    for i in 0..count
        invariant
            0 < size,
            start + size == total,
            total == takes@.len(),
            window == takes@.subrange(start as int, takes@.len() as int),
            forall|k: int| 0 <= k < size ==> count <= (#[trigger] window[k])@.len(),
            r@.len() == i,
            forall|j: int|
                0 <= j < i ==> #[trigger] r@[j] == tap_sum(window, j, size as int) / size as int,
    {
        let mut sum: u128 = 0;
        for n in 0..size
            invariant
                i < count,
                0 < size,
                start + size == total,
            total == takes@.len(),
                window == takes@.subrange(start as int, takes@.len() as int),
                forall|k: int| 0 <= k < size ==> count <= (#[trigger] window[k])@.len(),
                sum == tap_sum(window, i as int, n as int),
                sum <= n * 0xFFFF_FFFF,
        {
            assert(window[n as int] == takes@[start + n]);
            assert(count <= window[n as int]@.len());
            let tap: u32 = takes[start + n][i];
            sum = sum + tap as u128;
        }
        assert(sum / size as u128 <= 0xFFFF_FFFF) by (nonlinear_arith)
            requires
                sum <= size * 0xFFFF_FFFF,
                size > 0,
        ;
        r.push((sum / size as u128) as u32);
    }
    r
}

/// Where inside a bar of `bar` nanoseconds a moment falls, in ticks: the seconds that have passed over
/// those of a bar, without the whole bars, in ticks of a bar and cut to a whole one. Every step is
/// one of double precision.
pub open spec fn phase_ticks(now: int, start: int, bar: int) -> int {
    if bar <= 0 || now < start {
        0
    } else {
        let within = seconds(now - start).over(seconds(bar)).fraction();
        let ticks = within.times(Binary { significand: BAR_TICKS as int, exponent: 0 }).whole();
        if ticks > BAR_TICKS - 1 {
            BAR_TICKS - 1
        } else {
            ticks
        }
    }
}

/// Where inside the bar `now` falls, in ticks. Moments and durations are nanoseconds on one clock.
///
/// The scheduler publishes each bar's start, and key presses are timestamped against it; this is
/// the whole clock behind tap capture. A bar that has already ended wraps, so a late tick still
/// lands somewhere sensible rather than at the bar line.
pub fn bar_phase_ticks(now: u64, bar_start: u64, bar_duration: u64) -> (r: u32)
    ensures
        r == phase_ticks(now as int, bar_start as int, bar_duration as int),
        r < BAR_TICKS,
{
    if bar_duration == 0 || now < bar_start {
        return 0;
    }
    let elapsed: Double = Double::seconds(now - bar_start);
    let within: Double = elapsed.over(Double::seconds(bar_duration)).fraction();
    let ticks: Double = within.times(Double { significand: BAR_TICKS, exponent: 0 });
    ticks.whole_up_to(BAR_TICKS - 1) as u32
}

// -----------------------------------------------------------------------------
// Built-in patterns
// -----------------------------------------------------------------------------

/// A pattern of one layer described by a step string and a gate.
pub open spec fn described(name: Seq<char>, gate: u32, text: Seq<char>) -> PatternModel {
    one_layer(name, gate_hold(Single { bits: gate }, text.len() as int), grid_of(text))
}

/// The patterns every install ships with. The gates are 0.8, 0.5, 0.3, 2 and 3 cells.
pub open spec fn builtins() -> Seq<PatternModel> {
    seq![
        described("Quarters"@, 0x3F4C_CCCD, "xxxx"@),
        described("Eighths"@, 0x3F00_0000, "xxxxxxxx"@),
        described("Offbeat Eighths"@, 0x3F00_0000, "-x-x-x-x"@),
        described("Syncopated 16ths"@, 0x3F00_0000, "x--x--x-x--x-x--"@),
        described("Sixteenth Pulse"@, 0x3E99_999A, "xxxxxxxxxxxxxxxx"@),
        described("Held Half"@, 0x4000_0000, "x---"@),
        described("Held 3/4"@, 0x4040_0000, "x---"@),
    ]
}

/// What each of some patterns holds.
pub open spec fn pattern_models(patterns: Seq<RhythmPattern>) -> Seq<PatternModel> {
    patterns.map_values(|p: RhythmPattern| p@)
}

/// The step strings of the built-in patterns are clean and of a resolution's length.
proof fn lemma_builtin_strings()
    ensures
        forall|text: Seq<char>| #[trigger]
            builtin_string(text) ==> parsed_steps(text) == Ok::<Seq<bool>, RhythmError>(
                grid_of(text),
            ),
{
    assert forall|text: Seq<char>| #[trigger] builtin_string(text) implies parsed_steps(text) == Ok::<
        Seq<bool>,
        RhythmError,
    >(grid_of(text)) by {
        lemma_clean(text, 0);
    }
}

/// The text holds hits and rests only, and is as long as a grid.
spec fn builtin_string(text: Seq<char>) -> bool {
    &&& resolution(text.len() as int)
    &&& forall|i: int| 0 <= i < text.len() ==> step_char(#[trigger] text[i])
}

proof fn lemma_clean(text: Seq<char>, i: int)
    requires
        0 <= i <= text.len(),
        forall|j: int| 0 <= j < text.len() ==> step_char(#[trigger] text[j]),
    ensures
        first_bad_char(text, i) is None,
    decreases text.len() - i,
{
    if i < text.len() {
        lemma_clean(text, i + 1);
    }
}

/// A built-in pattern from its description.
fn built_in(name: &str, gate: u32, text: &str) -> (r: RhythmPattern)
    requires
        builtin_string(text@),
    ensures
        r@ == described(name@, gate, text@),
{
    proof {
        lemma_builtin_strings();
        assert(parsed_steps(text@) is Ok);
        assert(grid_of(text@).len() == text@.len());
    }
    match RhythmPattern::from_step_string(name, Single { bits: gate }, text) {
        Ok(p) => p,
        Err(_) => RhythmPattern::draft(),
    }
}

/// The patterns every install ships with, written when `rhythms.toml` is missing.
pub fn builtin_patterns() -> (r: Vec<RhythmPattern>)
    ensures
        pattern_models(r@) == builtins(),
{
    proof {
        reveal_strlit("xxxx");
        reveal_strlit("xxxxxxxx");
        reveal_strlit("-x-x-x-x");
        reveal_strlit("x--x--x-x--x-x--");
        reveal_strlit("xxxxxxxxxxxxxxxx");
        reveal_strlit("x---");
    }
    let r: Vec<RhythmPattern> = vec![
        built_in("Quarters", 0x3F4C_CCCD, "xxxx"),
        built_in("Eighths", 0x3F00_0000, "xxxxxxxx"),
        built_in("Offbeat Eighths", 0x3F00_0000, "-x-x-x-x"),
        built_in("Syncopated 16ths", 0x3F00_0000, "x--x--x-x--x-x--"),
        built_in("Sixteenth Pulse", 0x3E99_999A, "xxxxxxxxxxxxxxxx"),
        built_in("Held Half", 0x4000_0000, "x---"),
        built_in("Held 3/4", 0x4040_0000, "x---"),
    ];
    assert(pattern_models(r@) =~= builtins());
    r
}

// -----------------------------------------------------------------------------
// Wire form
// -----------------------------------------------------------------------------

/// A pattern as a file spells it.
#[derive(Debug, PartialEq)]
pub struct PatternWire {
    pub name: String,
    /// The hold in ticks, `default_hold` where the file has none.
    pub hold: u32,
    /// The old spelling of a hold, a fraction of a grid cell; read only.
    pub gate: Option<Single>,
    /// Absent from a file where it is 0.
    pub mute: u32,
    pub layers: Vec<LayerWire>,
}

/// A layer as a file spells it.
#[derive(Debug, PartialEq)]
pub struct LayerWire {
    /// `default_gain` where the file has none.
    pub gain: Single,
    pub steps: String,
}

/// What a file spells.
#[verifier::ext_equal]
pub struct WireModel {
    pub name: Seq<char>,
    pub hold: u32,
    pub gate: Option<Single>,
    pub mute: u32,
    pub layers: Seq<(Single, Seq<char>)>,
}

impl View for PatternWire {
    type V = WireModel;

    open spec fn view(&self) -> WireModel {
        WireModel {
            name: self.name@,
            hold: self.hold,
            gate: self.gate,
            mute: self.mute,
            layers: self.layers@.map_values(|l: LayerWire| (l.gain, l.steps@)),
        }
    }
}

/// Whether a muted tail is left out of a file.
pub fn is_zero_mute(value: &u32) -> (r: bool)
    ensures
        r == (*value == 0),
{
    *value == 0
}

/// The hold of a pattern whose file has none.
pub fn default_hold() -> (r: u32)
    ensures
        r == DEFAULT_HOLD,
{
    DEFAULT_HOLD
}

/// The gain of a layer whose file has none: 1.
pub fn default_gain() -> (r: Single)
    ensures
        r == (Single { bits: ONE_BITS }),
{
    Single { bits: ONE_BITS }
}

/// How a file spells a pattern.
pub open spec fn spelled(p: PatternModel) -> WireModel {
    WireModel {
        name: p.name,
        hold: p.hold,
        gate: None,
        mute: p.mute_ticks,
        layers: p.layers.map_values(|l: LayerModel| (l.gain, rendered(l.steps))),
    }
}

/// The first `n` layers of a file, or the first thing wrong with them.
pub open spec fn read_layers(layers: Seq<(Single, Seq<char>)>, n: int) -> Result<
    Seq<LayerModel>,
    RhythmError,
>
    decreases n,
{
    if n <= 0 {
        Ok(Seq::empty())
    } else {
        match read_layers(layers, n - 1) {
            Err(e) => Err(e),
            Ok(front) => match parsed_steps(layers[n - 1].1) {
                Err(e) => Err(e),
                Ok(steps) => Ok(
                    front.push(LayerModel { gain: unit_gain(layers[n - 1].0), steps }),
                ),
            },
        }
    }
}

/// The pattern a file spells, before it is validated: a file from before holds were measured in
/// ticks has its gate converted against the grid its own layers describe.
pub open spec fn assembled(w: WireModel, layers: Seq<LayerModel>) -> PatternModel {
    let cells = if layers.len() == 0 {
        0
    } else {
        layers[0].steps.len() as int
    };
    PatternModel {
        name: w.name,
        hold: match w.gate {
            Some(gate) => gate_hold(gate, cells) as u32,
            None => w.hold,
        },
        mute_ticks: w.mute,
        layers,
    }
}

/// The pattern that a file spells, or the first thing wrong with it.
pub open spec fn read_wire(w: WireModel) -> Result<PatternModel, RhythmError> {
    match read_layers(w.layers, w.layers.len() as int) {
        Err(e) => Err(e),
        Ok(layers) => match assembled(w, layers).fault() {
            Some(e) => Err(e),
            None => Ok(assembled(w, layers)),
        },
    }
}

impl PatternWire {
    /// How a file spells `p`.
    pub fn from_pattern(p: &RhythmPattern) -> (r: Self)
        ensures
            r@ == spelled(p@),
    {
        let mut layers: Vec<LayerWire> = Vec::new();
        for i in 0..p.layers.len()
            invariant
                layers@.len() == i,
                forall|j: int|
                    0 <= j < i ==> (#[trigger] layers@[j]).gain == p.layers@[j].gain
                        && layers@[j].steps@ == rendered(p.layers@[j]@.steps),
        {
            layers.push(
                LayerWire { gain: p.layers[i].gain, steps: p.layers[i].to_step_string() },
            );
        }
        let r: PatternWire = PatternWire {
            name: p.name.clone(),
            hold: p.hold,
            gate: None,
            mute: p.mute_ticks,
            layers,
        };
        assert(r@.layers =~= spelled(p@).layers);
        r
    }

    /// The pattern that the file spells.
    pub fn into_pattern(self) -> (r: Result<RhythmPattern, RhythmError>)
        ensures
            match read_wire(self@) {
                Ok(p) => r matches Ok(pattern) && pattern@ == p,
                Err(e) => r == Err::<RhythmPattern, RhythmError>(e),
            },
    {
        let mut layers: Vec<RhythmLayer> = Vec::new();
        let ghost wire = self@;
        assert(layer_models(layers@) =~= Seq::<LayerModel>::empty());
        for i in 0..self.layers.len()
            invariant
                wire == self@,
                read_layers(wire.layers, i as int) == Ok::<Seq<LayerModel>, RhythmError>(
                    layer_models(layers@),
                ),
        {
            proof {
                assert(wire.layers[i as int] == (
                    self.layers@[i as int].gain,
                    self.layers@[i as int].steps@,
                ));
                assert(wire.layers.len() == self.layers@.len());
                if parsed_steps(wire.layers[i as int].1) is Err {
                    lemma_read_layers_fails(wire.layers, i + 1, wire.layers.len() as int);
                }
            }
            let ghost before = layers@;
            match RhythmLayer::from_step_string(
                self.layers[i].gain,
                self.layers[i].steps.as_str(),
            ) {
                Ok(layer) => {
                    layers.push(layer);
                    assert(layer_models(layers@) =~= layer_models(before).push(layer@));
                },
                Err(e) => {
                    return Err(e);
                },
            }
        }
        assert(wire.layers.len() == self.layers@.len());
        let steps: usize = if layers.len() == 0 {
            0
        } else {
            layers[0].len()
        };
        proof {
            lemma_read_layers_grids(wire.layers, wire.layers.len() as int);
            if layers@.len() > 0 {
                assert(layer_models(layers@)[0] == layers@[0]@);
            }
        }
        let hold: u32 = match self.gate {
            Some(gate) => hold_from_gate(gate, steps),
            None => self.hold,
        };
        let pattern: RhythmPattern = RhythmPattern {
            name: self.name,
            hold,
            mute_ticks: self.mute,
            layers,
        };
        assert(pattern@ =~= assembled(wire, layer_models(layers@)));
        match pattern.validate() {
            Ok(_) => Ok(pattern),
            Err(e) => Err(e),
        }
    }
}

/// A layer that does not parse spoils all that follow.
proof fn lemma_read_layers_fails(layers: Seq<(Single, Seq<char>)>, i: int, n: int)
    requires
        i <= n,
        read_layers(layers, i) is Err,
    ensures
        read_layers(layers, n) == read_layers(layers, i),
    decreases n,
{
    if i < n {
        lemma_read_layers_fails(layers, i, n - 1);
    }
}

/// Every layer that was read has a grid of a resolution's length.
proof fn lemma_read_layers_grids(layers: Seq<(Single, Seq<char>)>, n: int)
    ensures
        read_layers(layers, n) matches Ok(read) ==> forall|i: int|
            0 <= i < read.len() ==> resolution((#[trigger] read[i]).steps.len() as int),
    decreases n,
{
    if n > 0 {
        lemma_read_layers_grids(layers, n - 1);
    }
}

// -----------------------------------------------------------------------------
// Laws
// -----------------------------------------------------------------------------

/// Every resolution divides the bar exactly, so a step is a whole number of ticks.
pub proof fn law_resolutions_divide_the_bar(steps: int)
    requires
        resolution(steps),
    ensures
        BAR_TICKS as int % steps == 0,
        BAR_TICKS as int / steps * steps == BAR_TICKS,
{
}

/// Every layer of a valid pattern has the pattern's grid.
pub proof fn law_valid_layers_share_a_grid(p: PatternModel, i: int)
    requires
        p.valid(),
        0 <= i < p.layers.len(),
    ensures
        p.layers[i].steps.len() == p.cells(),
        resolution(p.cells()),
{
    lemma_no_mismatch(p.layers, p.cells(), 0, i);
}

proof fn lemma_no_mismatch(layers: Seq<LayerModel>, expected: int, from: int, i: int)
    requires
        first_mismatch(layers, expected, from) is None,
        0 <= from <= i < layers.len(),
    ensures
        layers[i].steps.len() == expected,
    decreases i - from,
{
    if from < i {
        lemma_no_mismatch(layers, expected, from + 1, i);
    }
}

/// A valid pattern whose gains lie within 0 and 1 reads back from a file as it was.
pub proof fn law_pattern_round_trips(p: PatternModel)
    requires
        p.valid(),
        forall|i: int|
            0 <= i < p.layers.len() ==> unit_gain((#[trigger] p.layers[i]).gain) == p.layers[i].gain,
    ensures
        read_wire(spelled(p)) == Ok::<PatternModel, RhythmError>(p),
{
    lemma_layers_round_trip(p, p.layers.len() as int);
    assert(p.layers.take(p.layers.len() as int) =~= p.layers);
    assert(assembled(spelled(p), p.layers) =~= p);
}

proof fn lemma_layers_round_trip(p: PatternModel, n: int)
    requires
        p.valid(),
        0 <= n <= p.layers.len(),
        forall|i: int|
            0 <= i < p.layers.len() ==> unit_gain((#[trigger] p.layers[i]).gain) == p.layers[i].gain,
    ensures
        read_layers(spelled(p).layers, n) == Ok::<Seq<LayerModel>, RhythmError>(p.layers.take(n)),
    decreases n,
{
    if n > 0 {
        lemma_layers_round_trip(p, n - 1);
        let l = p.layers[n - 1];
        law_valid_layers_share_a_grid(p, n - 1);
        law_steps_round_trip(l.steps);
        assert(spelled(p).layers[n - 1] == (l.gain, rendered(l.steps)));
        assert(p.layers.take(n - 1).push(l) =~= p.layers.take(n));
        assert(LayerModel { gain: l.gain, steps: l.steps } == l);
    } else {
        assert(p.layers.take(0) =~= Seq::<LayerModel>::empty());
    }
}

/// A pattern that was read from a file is valid, and its gains lie within 0 and 1.
pub proof fn law_read_patterns_are_valid(w: WireModel)
    ensures
        read_wire(w) matches Ok(p) ==> p.valid() && forall|i: int|
            0 <= i < p.layers.len() ==> unit_gain((#[trigger] p.layers[i]).gain) == p.layers[i].gain,
{
    lemma_read_layers_gains(w.layers, w.layers.len() as int);
}

proof fn lemma_read_layers_gains(layers: Seq<(Single, Seq<char>)>, n: int)
    ensures
        read_layers(layers, n) matches Ok(read) ==> forall|i: int|
            0 <= i < read.len() ==> unit_gain((#[trigger] read[i]).gain) == read[i].gain,
    decreases n,
{
    if n > 0 {
        lemma_read_layers_gains(layers, n - 1);
    }
}

/// A gain that decays stays within the floor and 1, whatever the factor.
pub proof fn law_decay_stays_audible(before: Single, factor: Single, after: Single)
    requires
        decayed(before, factor, after),
        !before.product_nan(factor),
    ensures
        !after.below(Single { bits: GAIN_FLOOR }),
        !(Single { bits: ONE_BITS }).below(after),
{
    crate::single::lemma_product_within_range(before, factor);
}

/// A tap folds onto the same cell in every bar, and a tap on a cell's first tick falls on it.
pub proof fn law_taps_fold(tap: int, bars: int, steps: int, cell: int)
    requires
        resolution(steps),
        0 <= tap,
        0 <= bars,
        0 <= cell < steps,
    ensures
        tapped_cell(tap + bars * BAR_TICKS, steps) == tapped_cell(tap, steps),
        tapped_cell(cell * (BAR_TICKS as int / steps), steps) == cell,
        0 <= tapped_cell(tap, steps) < steps,
{
    assert((tap + bars * 3840) % 3840 == tap % 3840) by (nonlinear_arith);
    let size = BAR_TICKS as int / steps;
    assert(size * steps == 3840 && 0 < size) by {
        if steps == 2 {
            assert(size == 1920);
        } else if steps == 4 {
            assert(size == 960);
        } else if steps == 8 {
            assert(size == 480);
        } else if steps == 16 {
            assert(size == 240);
        } else if steps == 32 {
            assert(size == 120);
        } else {
            assert(size == 60);
        }
    }
    assert(0 <= cell * size < 3840) by (nonlinear_arith)
        requires
            0 <= cell < steps,
            size * steps == 3840,
            0 < size,
    ;
    assert((2 * (cell * size) + size) / (2 * size) == cell) by (nonlinear_arith)
        requires
            0 <= cell,
            0 < size,
    ;
}

/// A bar starts at its downbeat, and exactly one bar later is the next downbeat.
pub proof fn law_a_bar_starts_at_its_downbeat(start: int, bar: int)
    requires
        0 < bar,
    ensures
        phase_ticks(start, start, bar) == 0,
        phase_ticks(start + bar, start, bar) == 0,
{
    law_a_time_over_itself_is_one(bar);
    let none: int = 0;
    assert(none * (BAR_TICKS as int) == 0);
    lemma2_to64();
    assert(none * pow2(0) == 0);
    assert(seconds(0) == zero());
}

/// A described pattern is valid, and audible where its string has a hit.
proof fn lemma_described(name: Seq<char>, gate: u32, text: Seq<char>, hit: int)
    requires
        builtin_string(text),
        0 <= hit < text.len(),
        hit_char(text[hit]),
    ensures
        described(name, gate, text).valid(),
        described(name, gate, text).audible(),
{
    let p = described(name, gate, text);
    assert(grid_of(text).len() == text.len());
    assert(p.cells() == text.len());
    reveal_with_fuel(first_mismatch, 3);
    assert(first_mismatch(p.layers, p.cells(), 0) is None);
    assert(p.layers[0].sounds(hit));
}

/// Every built-in pattern is valid and has a hit.
pub proof fn law_builtin_patterns_are_valid(i: int)
    requires
        0 <= i < builtins().len(),
    ensures
        builtins().len() == 7,
        builtins()[i].valid(),
        builtins()[i].audible(),
{
    reveal_strlit("xxxx");
    reveal_strlit("xxxxxxxx");
    reveal_strlit("-x-x-x-x");
    reveal_strlit("x--x--x-x--x-x--");
    reveal_strlit("xxxxxxxxxxxxxxxx");
    reveal_strlit("x---");
    lemma_described("Quarters"@, 0x3F4C_CCCD, "xxxx"@, 0);
    lemma_described("Eighths"@, 0x3F00_0000, "xxxxxxxx"@, 0);
    lemma_described("Offbeat Eighths"@, 0x3F00_0000, "-x-x-x-x"@, 1);
    lemma_described("Syncopated 16ths"@, 0x3F00_0000, "x--x--x-x--x-x--"@, 0);
    lemma_described("Sixteenth Pulse"@, 0x3E99_999A, "xxxxxxxxxxxxxxxx"@, 0);
    lemma_described("Held Half"@, 0x4000_0000, "x---"@, 0);
    lemma_described("Held 3/4"@, 0x4040_0000, "x---"@, 0);
}

/// The built-in patterns have distinct names.
pub proof fn law_builtin_patterns_have_distinct_names(i: int, j: int)
    requires
        0 <= i < j < builtins().len(),
    ensures
        builtins()[i].name != builtins()[j].name,
{
    reveal_strlit("Quarters");
    reveal_strlit("Eighths");
    reveal_strlit("Offbeat Eighths");
    reveal_strlit("Syncopated 16ths");
    reveal_strlit("Sixteenth Pulse");
    reveal_strlit("Held Half");
    reveal_strlit("Held 3/4");
    assert("Quarters"@.len() == 8 && "Eighths"@.len() == 7 && "Offbeat Eighths"@.len() == 15
        && "Syncopated 16ths"@.len() == 16 && "Sixteenth Pulse"@.len() == 15 && "Held Half"@.len()
        == 9 && "Held 3/4"@.len() == 8);
    assert("Quarters"@[0] == 'Q' && "Held 3/4"@[0] == 'H');
    assert("Offbeat Eighths"@[0] == 'O' && "Sixteenth Pulse"@[0] == 'S');
}

/// A tap lies no further than half a cell from the first tick of a cell, around the bar; where it lies
/// as far from the cell after, it belongs to that one.
pub open spec fn nearest_cell(tap: int, steps: int, cell: int) -> bool {
    let size = BAR_TICKS as int / steps;
    let position = tap % BAR_TICKS as int;
    ||| -size <= 2 * (position - cell * size) < size
    ||| -size <= 2 * (position - cell * size - BAR_TICKS) < size
}

/// A quantized grid has a hit on exactly the cells that are nearest to a tap, on every grid.
pub proof fn law_taps_fall_on_the_nearest_cell(taps: Seq<u32>, steps: int, cell: int)
    requires
        resolution(steps),
        0 <= cell < steps,
    ensures
        tapped_grid(taps, steps).len() == steps,
        tapped_grid(taps, steps)[cell] <==> exists|k: int|
            0 <= k < taps.len() && nearest_cell(#[trigger] taps[k] as int, steps, cell),
{
    assert forall|k: int| 0 <= k < taps.len() implies (tapped_cell(#[trigger] taps[k] as int, steps)
        == cell <==> nearest_cell(taps[k] as int, steps, cell)) by {
        lemma_nearest_cell(taps[k] as int, steps, cell);
    }
    let grid = tapped_grid(taps, steps);
    if grid[cell] {
        let k = choose|k: int|
            0 <= k < taps.len() && tapped_cell(#[trigger] taps[k] as int, steps) == cell;
        assert(nearest_cell(taps[k] as int, steps, cell));
    }
    if exists|k: int| 0 <= k < taps.len() && nearest_cell(#[trigger] taps[k] as int, steps, cell) {
        let k = choose|k: int|
            0 <= k < taps.len() && nearest_cell(#[trigger] taps[k] as int, steps, cell);
        assert(tapped_cell(taps[k] as int, steps) == cell);
    }
}

proof fn lemma_nearest_cell(tap: int, steps: int, cell: int)
    requires
        resolution(steps),
        0 <= cell < steps,
    ensures
        tapped_cell(tap, steps) == cell <==> nearest_cell(tap, steps, cell),
{
    let p = tap % BAR_TICKS as int;
    let size = BAR_TICKS as int / steps;
    law_resolutions_divide_the_bar(steps);
    assert(0 < size) by (nonlinear_arith)
        requires
            size * steps == 3840,
            steps > 0,
    ;
    let q = (2 * p + size) / (2 * size);
    assert(q * size * 2 <= 2 * p + size < q * size * 2 + 2 * size) by (nonlinear_arith)
        requires
            q == (2 * p + size) / (2 * size),
            0 < size,
            0 <= p,
    ;
    assert(0 <= q <= steps) by (nonlinear_arith)
        requires
            q * size * 2 <= 2 * p + size,
            2 * p + size < q * size * 2 + 2 * size,
            0 <= p < size * steps,
            0 < size,
    ;
    assert(q < cell ==> q * size + size <= cell * size) by (nonlinear_arith)
        requires
            0 < size,
    ;
    assert(q > cell ==> q * size >= cell * size + size) by (nonlinear_arith)
        requires
            0 < size,
    ;
    assert(q < cell + steps ==> q * size + size <= cell * size + 3840) by (nonlinear_arith)
        requires
            0 < size,
            size * steps == 3840,
    ;
    assert(q == cell + steps ==> q * size == cell * size + 3840) by (nonlinear_arith)
        requires
            size * steps == 3840,
    ;
    if q == steps {
        assert(q % steps == 0);
    } else {
        vstd::arithmetic::div_mod::lemma_small_mod(q as nat, steps as nat);
    }
}

/// The places of a grid's hits are listed in order, each once, and no others.
pub proof fn law_hit_places_are_the_hits(steps: Seq<bool>, n: int)
    requires
        0 <= n <= steps.len() <= usize::MAX,
    ensures
        forall|i: int, j: int|
            0 <= i < j < hit_places(steps, n).len() ==> hit_places(steps, n)[i] < hit_places(
                steps,
                n,
            )[j],
        forall|k: usize| #[trigger] hit_places(steps, n).contains(k) <==> k < n && steps[k as int],
    decreases n,
{
    if n > 0 {
        law_hit_places_are_the_hits(steps, n - 1);
        let front = hit_places(steps, n - 1);
        let all = hit_places(steps, n);
        assert forall|i: int| 0 <= i < front.len() implies #[trigger] front[i] < n - 1 by {
            assert(front.contains(front[i]));
        }
        assert forall|k: usize| #[trigger] all.contains(k) <==> k < n && steps[k as int] by {
            if all.contains(k) {
                let i = choose|i: int| 0 <= i < all.len() && all[i] == k;
                if i < front.len() {
                    assert(front[i] == k);
                    assert(front.contains(k));
                }
            }
            if k < n && steps[k as int] {
                if k == n - 1 {
                    assert(all[front.len() as int] == k);
                } else {
                    assert(front.contains(k));
                    let i = choose|i: int| 0 <= i < front.len() && front[i] == k;
                    assert(all[i] == k);
                }
            }
        }
    }
}

/// The hits of a pattern come step by step, and are the hits of its takes on the cells of its grid, each
/// at the gain of its take.
pub proof fn law_hits_are_those_of_the_takes(p: PatternModel, n: int, hit: (usize, Single))
    requires
        0 <= n <= usize::MAX,
    ensures
        hits_below(p.layers, n).contains(hit) <==> hit.0 < n && exists|take: int|
            0 <= take < p.layers.len() && (#[trigger] p.layers[take]).gain == hit.1 && hit.0
                < p.layers[take].steps.len() && p.layers[take].steps[hit.0 as int],
        forall|i: int, j: int|
            0 <= i <= j < hits_below(p.layers, n).len() ==> hits_below(p.layers, n)[i].0
                <= hits_below(p.layers, n)[j].0,
        forall|i: int|
            0 <= i < hits_below(p.layers, n).len() ==> (#[trigger] hits_below(p.layers, n)[i]).0 < n,
    decreases n,
{
    if n > 0 {
        law_hits_are_those_of_the_takes(p, n - 1, hit);
        lemma_hits_on(p.layers, n - 1, p.layers.len() as int, hit);
        let front = hits_below(p.layers, n - 1);
        let last = hits_on(p.layers, n - 1, p.layers.len() as int);
        let all = hits_below(p.layers, n);
        if all.contains(hit) {
            let k = choose|k: int| 0 <= k < all.len() && all[k] == hit;
            if k < front.len() {
                assert(front[k] == hit);
                assert(front.contains(hit));
            } else {
                assert(last[k - front.len()] == hit);
                assert(last.contains(hit));
            }
        }
        if front.contains(hit) {
            let k = choose|k: int| 0 <= k < front.len() && front[k] == hit;
            assert(all[k] == hit);
        }
        if last.contains(hit) {
            let k = choose|k: int| 0 <= k < last.len() && last[k] == hit;
            assert(all[front.len() + k] == hit);
        }
    }
}

proof fn lemma_hits_on(layers: Seq<LayerModel>, step: int, n: int, hit: (usize, Single))
    requires
        0 <= step <= usize::MAX,
        0 <= n <= layers.len(),
    ensures
        hits_on(layers, step, n).contains(hit) <==> hit.0 == step && exists|take: int|
            0 <= take < n && (#[trigger] layers[take]).gain == hit.1 && step < layers[take].steps.len()
                && layers[take].steps[step],
        forall|i: int|
            0 <= i < hits_on(layers, step, n).len() ==> (#[trigger] hits_on(layers, step, n)[i]).0
                == step,
        hits_on(layers, step, n).len() <= n,
    decreases n,
{
    if n > 0 {
        lemma_hits_on(layers, step, n - 1, hit);
        let front = hits_on(layers, step, n - 1);
        let all = hits_on(layers, step, n);
        let take = layers[n - 1];
        if all.contains(hit) {
            let k = choose|k: int| 0 <= k < all.len() && all[k] == hit;
            if k < front.len() {
                assert(front[k] == hit);
                assert(front.contains(hit));
            } else {
                assert(take.gain == hit.1);
            }
        }
        if front.contains(hit) {
            let k = choose|k: int| 0 <= k < front.len() && front[k] == hit;
            assert(all[k] == hit);
        }
        if take.sounds(step) {
            assert(all[front.len() as int] == (step as usize, take.gain));
        }
    }
}

/// A pattern is valid exactly when it has takes, its takes share a grid of 2, 4, 8, 16, 32 or 64 steps,
/// it holds a hit for a tick at least and a bar at most, and it mutes no more than a quarter note.
pub proof fn law_what_makes_a_pattern_valid(p: PatternModel)
    ensures
        p.valid() <==> {
            &&& p.layers.len() > 0
            &&& {
                let n = p.layers[0].steps.len();
                n == 2 || n == 4 || n == 8 || n == 16 || n == 32 || n == 64
            }
            &&& forall|i: int|
                0 <= i < p.layers.len() ==> (#[trigger] p.layers[i]).steps.len()
                    == p.layers[0].steps.len()
            &&& 1 <= p.hold <= 3840
            &&& p.mute_ticks <= 960
        },
        p.fault() matches Some(RhythmError::EmptyPattern) ==> p.layers.len() == 0,
        p.fault() matches Some(RhythmError::BadHold(v)) ==> v == p.hold && !(1 <= v <= 3840),
        p.fault() matches Some(RhythmError::BadMute(v)) ==> v == p.mute_ticks && v > 960,
        p.fault() matches Some(RhythmError::BadStepChar(c)) ==> false,
{
    if p.layers.len() > 0 {
        lemma_mismatch(p.layers, p.cells(), 0);
    }
}

proof fn lemma_mismatch(layers: Seq<LayerModel>, expected: int, i: int)
    requires
        0 <= i,
    ensures
        first_mismatch(layers, expected, i) is None <==> forall|j: int|
            i <= j < layers.len() ==> (#[trigger] layers[j]).steps.len() == expected,
    decreases layers.len() - i,
{
    if i < layers.len() && layers[i].steps.len() == expected {
        lemma_mismatch(layers, expected, i + 1);
        if first_mismatch(layers, expected, i + 1) is Some {
            let j = choose|j: int|
                i + 1 <= j < layers.len() && (#[trigger] layers[j]).steps.len() != expected;
            assert(layers[j].steps.len() != expected);
        }
    }
}

/// A step string is read exactly when all its characters are `x`, `X`, `-` or `.` and it has 2, 4, 8, 16,
/// 32 or 64 of them, and then a cell has a hit where it says `x` or `X`. A character that is none of
/// these is reported, and it is the first such.
pub proof fn law_what_a_step_string_says(text: Seq<char>)
    requires
        text.len() <= usize::MAX,
    ensures
        parsed_steps(text) is Ok <==> (forall|i: int|
            0 <= i < text.len() ==> (#[trigger] text[i] == 'x' || text[i] == 'X' || text[i] == '-'
                || text[i] == '.')) && (text.len() == 2 || text.len() == 4 || text.len() == 8
            || text.len() == 16 || text.len() == 32 || text.len() == 64),
        parsed_steps(text) matches Ok(steps) ==> steps.len() == text.len() && forall|i: int|
            0 <= i < steps.len() ==> #[trigger] steps[i] == (text[i] == 'x' || text[i] == 'X'),
        parsed_steps(text) matches Err(RhythmError::BadStepChar(c)) ==> exists|i: int|
            0 <= i < text.len() && #[trigger] text[i] == c && c != 'x' && c != 'X' && c != '-' && c
                != '.' && forall|j: int|
                0 <= j < i ==> (#[trigger] text[j] == 'x' || text[j] == 'X' || text[j] == '-'
                    || text[j] == '.'),
        parsed_steps(text) matches Err(RhythmError::BadResolution(n)) ==> n == text.len(),
{
    lemma_first_bad(text, 0);
}

proof fn lemma_first_bad(text: Seq<char>, i: int)
    requires
        0 <= i <= text.len(),
    ensures
        first_bad_char(text, i) is None <==> forall|j: int|
            i <= j < text.len() ==> (#[trigger] text[j] == 'x' || text[j] == 'X' || text[j] == '-'
                || text[j] == '.'),
        first_bad_char(text, i) matches Some(c) ==> exists|k: int|
            i <= k < text.len() && #[trigger] text[k] == c && c != 'x' && c != 'X' && c != '-' && c
                != '.' && forall|j: int|
                i <= j < k ==> (#[trigger] text[j] == 'x' || text[j] == 'X' || text[j] == '-'
                    || text[j] == '.'),
    decreases text.len() - i,
{
    if i < text.len() {
        if step_char(text[i]) {
            lemma_first_bad(text, i + 1);
        } else {
            assert(text[i] != 'x');
        }
    }
}

/// The averaged takes are the last ones, as many as are kept, and the average has as many taps as the
/// shortest of them.
pub proof fn law_the_shortest_take_bounds_the_average(takes: Seq<Vec<u32>>, keep: int, n: int)
    requires
        takes.len() > 0,
        keep > 0,
        1 <= n <= recent(takes, keep).len(),
    ensures
        recent(takes, keep).len() == (if takes.len() < keep {
            takes.len() as int
        } else {
            keep
        }),
        forall|i: int|
            0 <= i < recent(takes, keep).len() ==> #[trigger] recent(takes, keep)[i]
                == takes[takes.len() - recent(takes, keep).len() + i],
        forall|k: int|
            0 <= k < n ==> shortest(recent(takes, keep), n) <= (#[trigger] recent(
                takes,
                keep,
            )[k])@.len(),
        exists|k: int|
            0 <= k < n && shortest(recent(takes, keep), n) == (#[trigger] recent(
                takes,
                keep,
            )[k])@.len(),
    decreases n,
{
    let window = recent(takes, keep);
    if n > 1 {
        law_the_shortest_take_bounds_the_average(takes, keep, n - 1);
        if window[n - 1]@.len() >= shortest(window, n - 1) {
            let k = choose|k: int|
                0 <= k < n - 1 && shortest(window, n - 1) == (#[trigger] window[k])@.len();
            assert(shortest(window, n) == window[k]@.len());
        } else {
            assert(shortest(window, n) == window[n - 1]@.len());
        }
    } else {
        assert(shortest(window, 1) == window[0]@.len());
    }
}

/// Every take counts alike in an average: where one take's tap comes later by some ticks, the sum that is
/// divided by the number of takes is larger by just these, and taps at one position sum to that
/// position once for each take.
pub proof fn law_every_take_counts_alike(
    window: Seq<Vec<u32>>,
    i: int,
    n: int,
    k: int,
    other: Vec<u32>,
    at: u32,
)
    requires
        0 <= k < n <= window.len(),
    ensures
        tap_sum(window.update(k, other), i, n) - tap_sum(window, i, n) == other@[i] - window[k]@[i],
        (forall|j: int| 0 <= j < n ==> (#[trigger] window[j])@[i] == at) ==> tap_sum(window, i, n)
            == n * at,
        (forall|j: int| 0 <= j < n ==> (#[trigger] window[j])@[i] == at) ==> tap_sum(window, i, n) / n
            == at,
{
    lemma_tap_sum_update(window, i, n, k, other);
    if forall|j: int| 0 <= j < n ==> (#[trigger] window[j])@[i] == at {
        lemma_tap_sum_same(window, i, n, at);
        assert(n * at / n == at) by (nonlinear_arith)
            requires
                n > 0,
        ;
    }
}

proof fn lemma_tap_sum_update(window: Seq<Vec<u32>>, i: int, n: int, k: int, other: Vec<u32>)
    requires
        0 <= k < window.len(),
        0 <= n <= window.len(),
    ensures
        tap_sum(window.update(k, other), i, n) - tap_sum(window, i, n) == (if k < n {
            other@[i] - window[k]@[i]
        } else {
            0
        }),
    decreases n,
{
    if n > 0 {
        lemma_tap_sum_update(window, i, n - 1, k, other);
    }
}

proof fn lemma_tap_sum_same(window: Seq<Vec<u32>>, i: int, n: int, at: u32)
    requires
        0 <= n <= window.len(),
        forall|j: int| 0 <= j < n ==> (#[trigger] window[j])@[i] == at,
    ensures
        tap_sum(window, i, n) == n * at,
    decreases n,
{
    if n > 0 {
        lemma_tap_sum_same(window, i, n - 1, at);
        assert(window[n - 1]@[i] == at);
        assert((n - 1) * at + at == n * at) by (nonlinear_arith);
    } else {
        assert(0 * at == 0) by (nonlinear_arith);
    }
}

/// A gate is a part of a cell: the hold that it gives is the nearest whole number of ticks to so many
/// cells, a half upwards, and at least one tick. A gate of as many cells as the grid has, or more,
/// holds for the whole bar.
pub proof fn law_a_gate_is_a_part_of_a_cell(gate: Single, steps: int)
    requires
        resolution(steps),
        !gate.nan(),
        !gate.below(Single { bits: TWENTIETH_BITS }),
    ensures
        ({
            let size = (BAR_TICKS as int / steps) as nat;
            let hold = gate_hold(gate, steps);
            let unit = pow2((-gate.power()) as nat);
            let grid = Single { bits: cells_bits(steps) as u32 };
            &&& 1 <= hold <= 3840
            &&& !grid.below(gate) ==> (2 * hold - 1) * unit <= 2 * (size * gate.significand())
                < (2 * hold + 1) * unit || hold == 1 && 2 * (size * gate.significand()) < unit
            &&& !gate.below(grid) ==> hold == 3840
            &&& grid.significand() == steps * pow2((-grid.power()) as nat)
        }),
{
    let size = (BAR_TICKS as int / steps) as nat;
    let grid = Single { bits: cells_bits(steps) as u32 };
    lemma_cells_bits(steps);
    let g = gate.within(Single { bits: TWENTIETH_BITS }, grid);
    law_multiples_are_nearest(g, size);
    law_resolutions_divide_the_bar(steps);
    assert(size * steps == 3840);
    assert(TWENTIETH_BITS <= g.magnitude() <= cells_bits(steps));
    lemma_below_the_grid(g, steps, size);
    let r = g.nearest_multiple(size) as int;
    let hold = gate_hold(gate, steps);
    assert(!g.nan());
    assert(hold == crate::music::clamped(r, 1, 3840));
    let unit = pow2((-gate.power()) as nat);
    if !grid.below(gate) {
        assert(g == gate);
        assert((2 * r - 1) * unit <= 2 * (size * gate.significand()) < (2 * r + 1) * unit);
        if r == 0 {
            assert((2 * r + 1) * unit == unit) by (nonlinear_arith)
                requires
                    r == 0,
            ;
        } else {
            assert(hold == r);
        }
    }
    if !gate.below(grid) {
        assert(g.magnitude() == cells_bits(steps));
        assert(r == 3840);
    }
}

proof fn lemma_cells_bits(steps: int)
    requires
        resolution(steps),
    ensures
        ({
            let grid = Single { bits: cells_bits(steps) as u32 };
            &&& 0x4000_0000 <= cells_bits(steps) <= 0x4280_0000
            &&& !grid.negative()
            &&& grid.magnitude() == cells_bits(steps)
            &&& grid.significand() == steps * pow2((-grid.power()) as nat)
        }),
{
    reveal_with_fuel(cells_bits, 8);
    lemma2_to64();
}

/// A number up to that of a grid's cells has no more cells than the grid.
proof fn lemma_below_the_grid(g: Single, steps: int, size: nat)
    requires
        resolution(steps),
        size * steps == 3840,
        TWENTIETH_BITS <= g.magnitude() <= cells_bits(steps),
    ensures
        g.significand() <= steps * pow2((-g.power()) as nat),
        g.nearest_multiple(size) <= 3840,
        g.magnitude() == cells_bits(steps) ==> g.nearest_multiple(size) == 3840,
{
    reveal_with_fuel(cells_bits, 8);
    lemma2_to64();
    let m = g.magnitude();
    let e = m / 0x80_0000;
    assert(122 <= e <= 133);
    assert(e == 122 || e == 123 || e == 124 || e == 125 || e == 126 || e == 127 || e == 128 || e == 129
        || e == 130 || e == 131 || e == 132 || e == 133);
    let unit = pow2((-g.power()) as nat) as int;
    let sig = g.significand() as int;
    let r = g.nearest_multiple(size) as int;
    assert(sig <= steps * unit);
    assert(m == cells_bits(steps) ==> sig == steps * unit);
    law_multiples_are_nearest(g, size);
    let n = size as int;
    assert(n * sig <= 3840 * unit) by (nonlinear_arith)
        requires
            sig <= steps * unit,
            n * steps == 3840,
            n >= 0,
    ;
    assert(r <= 3840) by (nonlinear_arith)
        requires
            (2 * r - 1) * unit <= 2 * (n * sig),
            n * sig <= 3840 * unit,
            unit > 0,
    ;
    if m == cells_bits(steps) {
        assert(n * sig == 3840 * unit) by (nonlinear_arith)
            requires
                sig == steps * unit,
                n * steps == 3840,
        ;
        assert(r >= 3840) by (nonlinear_arith)
            requires
                2 * (n * sig) < (2 * r + 1) * unit,
                n * sig == 3840 * unit,
                unit > 0,
        ;
    }
}

/// The built-in patterns are what their names say, one take at full gain each and nothing muted: the
/// quarters, the eighths and the sixteenths fill the bar; the offbeat eighths are the even ones of
/// eight; the syncopated sixteenths are the 1st, 4th, 7th, 9th, 12th and 14th; and the held half and
/// three quarters are one hit that rings for a half and for three quarters of the bar.
pub proof fn law_built_in_patterns_are_what_they_are_called(i: int, c: int)
    requires
        0 <= i < builtins().len(),
        0 <= c < builtins()[i].layers[0].steps.len(),
    ensures
        ({
            let p = builtins()[i];
            let steps = p.layers[0].steps;
            &&& p.layers.len() == 1
            &&& p.layers[0].gain == (Single { bits: ONE_BITS })
            &&& p.mute_ticks == 0
            &&& p.name == "Quarters"@ ==> steps.len() == 4 && steps[c] && p.hold == 768
            &&& p.name == "Eighths"@ ==> steps.len() == 8 && steps[c] && p.hold == 240
            &&& p.name == "Offbeat Eighths"@ ==> steps.len() == 8 && steps[c] == (c % 2 == 1) && p.hold
                == 240
            &&& p.name == "Syncopated 16ths"@ ==> steps.len() == 16 && steps[c] == (c == 0 || c == 3
                || c == 6 || c == 8 || c == 11 || c == 13) && p.hold == 120
            &&& p.name == "Sixteenth Pulse"@ ==> steps.len() == 16 && steps[c] && p.hold == 72
            &&& p.name == "Held Half"@ ==> steps.len() == 4 && steps[c] == (c == 0) && 2 * p.hold
                == BAR_TICKS
            &&& p.name == "Held 3/4"@ ==> steps.len() == 4 && steps[c] == (c == 0) && 4 * p.hold == 3
                * BAR_TICKS
        }),
        builtins()[0].name == "Quarters"@,
        builtins()[1].name == "Eighths"@,
        builtins()[2].name == "Offbeat Eighths"@,
        builtins()[3].name == "Syncopated 16ths"@,
        builtins()[4].name == "Sixteenth Pulse"@,
        builtins()[5].name == "Held Half"@,
        builtins()[6].name == "Held 3/4"@,
{
    reveal_strlit("xxxx");
    reveal_strlit("xxxxxxxx");
    reveal_strlit("-x-x-x-x");
    reveal_strlit("x--x--x-x--x-x--");
    reveal_strlit("xxxxxxxxxxxxxxxx");
    reveal_strlit("x---");
    if i < 6 {
        law_builtin_patterns_have_distinct_names(i, 6);
    }
    if i < 5 {
        law_builtin_patterns_have_distinct_names(i, 5);
    }
    if i < 4 {
        law_builtin_patterns_have_distinct_names(i, 4);
    }
    if i < 3 {
        law_builtin_patterns_have_distinct_names(i, 3);
    }
    if i < 2 {
        law_builtin_patterns_have_distinct_names(i, 2);
    }
    if i < 1 {
        law_builtin_patterns_have_distinct_names(i, 1);
    }
    if i > 0 {
        law_builtin_patterns_have_distinct_names(0, i);
    }
    if i > 1 {
        law_builtin_patterns_have_distinct_names(1, i);
    }
    if i > 2 {
        law_builtin_patterns_have_distinct_names(2, i);
    }
    if i > 3 {
        law_builtin_patterns_have_distinct_names(3, i);
    }
    if i > 4 {
        law_builtin_patterns_have_distinct_names(4, i);
    }
    if i > 5 {
        law_builtin_patterns_have_distinct_names(5, i);
    }
    lemma_hold(0x3F4C_CCCD, 4, 768);
    lemma_hold(0x3F00_0000, 8, 240);
    lemma_hold(0x3F00_0000, 16, 120);
    lemma_hold(0x3E99_999A, 16, 72);
    lemma_hold(0x4000_0000, 4, 1920);
    lemma_hold(0x4040_0000, 4, 2880);
}

/// What a gate holds for, where the nearest tick is known.
proof fn lemma_hold(gate: u32, steps: int, hold: int)
    requires
        steps == 4 || steps == 8 || steps == 16,
        0x3E80_0000 <= gate < 0x4080_0000,
        hold >= 1,
        ({
            let g = Single { bits: gate };
            let size = BAR_TICKS as int / steps;
            let k = 150 - gate as int / 0x80_0000;
            let unit = if k == 25 {
                0x200_0000int
            } else if k == 24 {
                0x100_0000
            } else if k == 23 {
                0x80_0000
            } else {
                0x40_0000
            };
            (2 * hold - 1) * unit <= 2 * (size * (gate as int % 0x80_0000 + 0x80_0000)) < (2 * hold + 1)
                * unit
        }),
    ensures
        gate_hold(Single { bits: gate }, steps) == hold,
{
    let g = Single { bits: gate };
    lemma2_to64();
    reveal_with_fuel(cells_bits, 8);
    law_a_gate_is_a_part_of_a_cell(g, steps);
    let e = gate as int / 0x80_0000;
    assert(e == 125 || e == 126 || e == 127 || e == 128);
    let unit = pow2((-g.power()) as nat) as int;
    let x = 2 * (BAR_TICKS as int / steps * g.significand());
    let r = gate_hold(g, steps);
    assert(g.significand() == gate as int % 0x80_0000 + 0x80_0000);
    assert((2 * hold - 1) * unit <= x < (2 * hold + 1) * unit);
    assert(r == hold) by (nonlinear_arith)
        requires
            (2 * hold - 1) * unit <= x < (2 * hold + 1) * unit,
            (2 * r - 1) * unit <= x < (2 * r + 1) * unit || r == 1 && x < unit,
            hold >= 1,
            unit > 0,
    ;
}

/// A moment of a bar falls on the tick that its part of the bar says, to two nanoseconds: the tick has
/// begun two nanoseconds later at the latest, and the next has not two nanoseconds earlier.
pub proof fn law_a_moment_falls_on_its_tick(now: int, start: int, bar: int)
    requires
        start <= now,
        now - start + 2 <= bar <= 240_000_000_000,
    ensures
        ({
            let tick = phase_ticks(now, start, bar);
            &&& 0 <= tick < BAR_TICKS
            &&& tick * bar <= BAR_TICKS * (now - start + 2)
            &&& BAR_TICKS * (now - start - 2) <= (tick + 1) * bar
        }),
{
    let passed = now - start;
    if passed == 0 {
        law_a_bar_starts_at_its_downbeat(start, bar);
        let none: int = 0;
        assert(none * bar == 0 && (none + 1) * bar == bar) by (nonlinear_arith)
            requires
                none == 0,
        ;
    } else {
        law_parts_that_have_passed(passed, bar, BAR_TICKS as int);
        let within = seconds(passed).over(seconds(bar)).fraction();
        let parts = within.times(Binary { significand: BAR_TICKS as int, exponent: 0 }).whole();
        let tick = phase_ticks(now, start, bar);
        if parts > BAR_TICKS - 1 {
            assert(tick == 3839);
            assert(3839 * bar <= parts * bar) by (nonlinear_arith)
                requires
                    parts >= 3839,
                    bar > 0,
            ;
            assert((tick + 1) * bar == 3840 * bar && tick * bar == 3839 * bar) by (nonlinear_arith)
                requires
                    tick == 3839,
            ;
        }
    }
}

/// A decayed gain is the product of the gain and the factor, kept within the floor and 1, to half a unit
/// of its last place; it is the floor or 1 only where the product reaches them.
pub proof fn law_a_decayed_gain_is_the_product(before: Single, factor: Single, after: Single)
    requires
        decayed(before, factor, after),
        0 < before.bits < INFINITY_BITS,
        0 < factor.bits < INFINITY_BITS,
    ensures
        ({
            let p = before.significand() * factor.significand();
            let x = before.power() + factor.power();
            let k = after.power() - x;
            &&& GAIN_FLOOR <= after.bits <= ONE_BITS
            &&& GAIN_FLOOR < after.bits < ONE_BITS ==> k >= 0 && -pow2(k as nat) <= 2 * (
            after.significand() * pow2(k as nat) - p) <= pow2(k as nat)
            &&& after.bits == GAIN_FLOOR ==> x < 0 && p * 0x1000_0000 <= 0xCC_CCCE * pow2((-x) as nat)
            &&& after.bits == ONE_BITS && x < 0 ==> p * 0x100_0000 >= 0xFF_FFFF * pow2((-x) as nat)
        }),
{
    law_products_within_bounds_are_nearest(before, factor);
}

/// What a file's pattern reads as: its name and its mute as they stand, one take for each of its layers,
/// with the hits that the step string says and the gain kept within 0 and 1; and the hold that the
/// file has, or, in a file that has a gate in place of it, so many cells of the file's own grid.
pub proof fn law_what_a_file_pattern_reads_as(w: WireModel)
    ensures
        read_wire(w) matches Ok(p) ==> {
            &&& p.name == w.name
            &&& p.mute_ticks == w.mute
            &&& w.gate is None ==> p.hold == w.hold
            &&& w.gate matches Some(gate) ==> p.hold == gate_hold(gate, p.layers[0].steps.len() as int)
            &&& p.layers.len() == w.layers.len()
            &&& forall|i: int|
                0 <= i < p.layers.len() ==> Ok::<Seq<bool>, RhythmError>(
                    (#[trigger] p.layers[i]).steps,
                ) == parsed_steps(w.layers[i].1)
            &&& forall|i: int|
                0 <= i < p.layers.len() && w.layers[i].0.bits <= ONE_BITS ==> (
                #[trigger] p.layers[i]).gain == w.layers[i].0
        },
{
    lemma_read_layers(w.layers, w.layers.len() as int);
    if let Ok(p) = read_wire(w) {
        law_what_makes_a_pattern_valid(p);
        if let Some(gate) = w.gate {
            assert(1 <= gate_hold(gate, p.layers[0].steps.len() as int) <= BAR_TICKS);
        }
    }
}

proof fn lemma_read_layers(layers: Seq<(Single, Seq<char>)>, n: int)
    requires
        0 <= n <= layers.len(),
    ensures
        read_layers(layers, n) matches Ok(read) ==> {
            &&& read.len() == n
            &&& forall|i: int|
                0 <= i < n ==> Ok::<Seq<bool>, RhythmError>((#[trigger] read[i]).steps)
                    == parsed_steps(layers[i].1)
            &&& forall|i: int|
                0 <= i < n && layers[i].0.bits <= ONE_BITS ==> (#[trigger] read[i]).gain
                    == layers[i].0
        },
    decreases n,
{
    if n > 0 {
        lemma_read_layers(layers, n - 1);
    }
}

/// A file spells a pattern as it is: its name, its hold and mute in ticks, and for each take its gain and
/// a character for each cell, `x` for a hit and `-` for a rest.
pub proof fn law_how_a_file_spells_a_pattern(p: PatternModel, i: int, c: int)
    requires
        0 <= i < p.layers.len(),
        0 <= c < p.layers[i].steps.len(),
    ensures
        ({
            let w = spelled(p);
            &&& w.name == p.name
            &&& w.hold == p.hold
            &&& w.gate is None
            &&& w.mute == p.mute_ticks
            &&& w.layers.len() == p.layers.len()
            &&& w.layers[i].0 == p.layers[i].gain
            &&& w.layers[i].1.len() == p.layers[i].steps.len()
            &&& w.layers[i].1[c] == (if p.layers[i].steps[c] {
                'x'
            } else {
                '-'
            })
        }),
{
}

} // verus!
