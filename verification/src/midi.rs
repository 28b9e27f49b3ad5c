//! Neutral MIDI rendering: a progression becomes timed notes.

use vstd::arithmetic::power2::pow2;
use vstd::prelude::*;

use crate::arrangement::{
    all_inside, arrangement, assigned, due_in_bar, events_of, inside,
    law_plans_have_notes, law_plans_stay_inside_the_loop, lemma_event_of_a_stab, planned,
    stab_events, stab_models, EventModel, Stab, StabModel, RHYTHM_LAYERS,
};
use crate::music::{clamped, Key};
use crate::order::lemma_sorted_contains;
use crate::progression::{slot_models, Slot, SlotModel};
use crate::single::{
    law_patterns_up_to_one_are_up_to_one, law_products_are_nearest, Single, ONE_BITS,
};

pub use crate::music::{BAR_TICKS, BEATS_PER_BAR, PPQ};

verus! {

/// Velocity of a note at full gain.
pub const DEFAULT_VELOCITY: u8 = 100;

/// Which register a note belongs to.
#[derive(Copy, Clone, Debug, PartialEq, Eq, Structural)]
pub enum Layer {
    Low,
    Mid,
    High,
}

/// Maps layers onto MIDI channels.
#[derive(Copy, Clone, Debug, PartialEq, Eq, Structural)]
pub struct ChannelMap {
    pub low: u8,
    pub mid: u8,
    pub high: u8,
}

impl Default for ChannelMap {
    fn default() -> (r: Self)
        ensures
            r == (ChannelMap { low: 0, mid: 1, high: 2 }),
    {
        ChannelMap { low: 0, mid: 1, high: 2 }
    }
}

impl ChannelMap {
    /// The channel of a layer.
    pub open spec fn of(self, layer: Layer) -> u8 {
        match layer {
            Layer::Low => self.low,
            Layer::Mid => self.mid,
            Layer::High => self.high,
        }
    }

    pub fn channel(self, layer: Layer) -> (r: u8)
        ensures
            r == self.of(layer),
    {
        match layer {
            Layer::Low => self.low,
            Layer::Mid => self.mid,
            Layer::High => self.high,
        }
    }
}

/// One note in the exported score, in ticks.
#[derive(Copy, Clone, Debug, PartialEq, Eq, Structural)]
pub struct Note {
    pub start: u64,
    pub duration: u64,
    pub note: u8,
    pub velocity: u8,
    pub layer: Layer,
}

impl Note {
    /// The tick of the release.
    pub open spec fn release(self) -> int {
        self.start + self.duration
    }

    /// Tick at which this note is released.
    pub fn end(&self) -> (r: u64)
        requires
            self.release() <= u64::MAX,
        ensures
            r == self.release(),
    {
        self.start + self.duration
    }
}

/// The whole progression as timed notes, plus the metadata a file needs.
#[derive(Debug, PartialEq)]
pub struct Score {
    pub ppq: u16,
    pub bpm: u16,
    pub beats_per_bar: u8,
    pub key: Key,
    /// Total loop length, including any trailing rest bars.
    pub length_ticks: u64,
    pub notes: Vec<Note>,
}

impl Clone for Score {
    fn clone(&self) -> (r: Self)
        ensures
            r.ppq == self.ppq,
            r.bpm == self.bpm,
            r.beats_per_bar == self.beats_per_bar,
            r.key == self.key,
            r.length_ticks == self.length_ticks,
            r.notes@ == self.notes@,
    {
        let notes: Vec<Note> = self.notes.clone();
        assert(notes@ =~= self.notes@);
        Score {
            ppq: self.ppq,
            bpm: self.bpm,
            beats_per_bar: self.beats_per_bar,
            key: self.key,
            length_ticks: self.length_ticks,
            notes,
        }
    }
}

// -----------------------------------------------------------------------------
// Layers
// -----------------------------------------------------------------------------

/// The notes below `n` that occur, each once, lowest first.
pub open spec fn ascending(notes: Seq<u8>, n: int) -> Seq<u8>
    decreases n,
{
    if n <= 0 {
        Seq::empty()
    } else if notes.contains((n - 1) as u8) {
        ascending(notes, n - 1).push((n - 1) as u8)
    } else {
        ascending(notes, n - 1)
    }
}

/// The lowest of some notes in order.
pub open spec fn low_part(s: Seq<u8>) -> Seq<u8> {
    s.take(if s.len() < 1 { s.len() as int } else { 1 })
}

/// Those between the lowest and the highest.
pub open spec fn mid_part(s: Seq<u8>) -> Seq<u8> {
    if s.len() < 3 {
        Seq::empty()
    } else {
        s.subrange(1, s.len() - 1)
    }
}

/// The highest, where it is not the lowest too.
pub open spec fn high_part(s: Seq<u8>) -> Seq<u8> {
    if s.len() < 2 {
        Seq::empty()
    } else {
        seq![s.last()]
    }
}

/// The notes of a layer.
pub open spec fn layer_part(notes: Seq<u8>, layer: Layer) -> Seq<u8> {
    let s = ascending(notes, 256);
    match layer {
        Layer::Low => low_part(s),
        Layer::Mid => mid_part(s),
        Layer::High => high_part(s),
    }
}

fn occurs(notes: &[u8], note: u8) -> (r: bool)
    ensures
        r == notes@.contains(note),
{
    for i in 0..notes.len()
        invariant
            forall|j: int| 0 <= j < i ==> #[trigger] notes@[j] != note,
    {
        if notes[i] == note {
            assert(notes@[i as int] == note);
            return true;
        }
    }
    false
}

/// The notes that occur, each once, lowest first.
pub fn distinct_notes(notes: &[u8]) -> (r: Vec<u8>)
    ensures
        r@ == ascending(notes@, 256),
{
    let mut r: Vec<u8> = Vec::new();
    for n in 0..256u16
        invariant
            r@ == ascending(notes@, n as int),
    {
        if occurs(notes, n as u8) {
            r.push(n as u8);
        }
    }
    r
}

/// Split a chord into low / mid / high layers.
///
/// This is the layer *concept* with no sound design attached: the lowest note is low, the highest is
/// high, everything between is mid, and no octaves are invented. The synth deliberately doubles
/// sparse chords an octave out for the audio voice pools; that is a timbre choice, not musical
/// content, so it must not leak into an exported file.
pub fn split_layers(notes: &[u8]) -> (r: [Vec<u8>; 3])
    ensures
        r@[0]@ == layer_part(notes@, Layer::Low),
        r@[1]@ == layer_part(notes@, Layer::Mid),
        r@[2]@ == layer_part(notes@, Layer::High),
{
    let all: Vec<u8> = distinct_notes(notes);
    let mut low: Vec<u8> = Vec::new();
    let mut mid: Vec<u8> = Vec::new();
    let mut high: Vec<u8> = Vec::new();
    if all.len() >= 1 {
        low.push(all[0]);
    }
    if all.len() >= 2 {
        high.push(all[all.len() - 1]);
    }
    if all.len() >= 3 {
        for i in 1..(all.len() - 1)
            invariant
                all@.len() >= 3,
                mid@ == all@.subrange(1, i as int),
        {
            mid.push(all[i]);
            assert(mid@ =~= all@.subrange(1, i + 1));
        }
    }
    assert(low@ =~= low_part(all@));
    assert(mid@ =~= mid_part(all@));
    assert(high@ =~= high_part(all@));
    [low, mid, high]
}

// -----------------------------------------------------------------------------
// Rendering
// -----------------------------------------------------------------------------

/// The velocity of a stab: the default scaled by its gain, to the nearest whole number, and at least
/// 1, because a velocity of 0 is a note-off in MIDI. A gain that is not a number has 1.
pub open spec fn scaled_velocity(gain: Single) -> int {
    let g = gain.within(Single { bits: 0 }, Single { bits: ONE_BITS });
    if g.nan() {
        1
    } else {
        clamped(g.nearest_product(DEFAULT_VELOCITY as nat) as int, 1, 127)
    }
}

/// Scale the default velocity by a stab's gain.
///
/// The synth has no velocity, so a take's loudness reaches a file only here. Floored at 1 because a
/// velocity of 0 is a note-off in MIDI.
pub fn velocity_for(gain: Single) -> (r: u8)
    ensures
        r == scaled_velocity(gain),
{
    let g: Single = gain.clamp(Single { bits: 0 }, Single { bits: ONE_BITS });
    if g.is_nan() {
        return 1;
    }
    let velocity: u64 = g.scaled_product(DEFAULT_VELOCITY as u64);
    if velocity < 1 {
        1
    } else if velocity > 127 {
        127
    } else {
        velocity as u8
    }
}

/// The notes of one layer of a stab.
pub open spec fn layer_notes(stab: StabModel, layer: Layer) -> Seq<Note> {
    layer_part(stab.notes, layer).map_values(
        |note: u8|
            Note {
                start: stab.start,
                duration: stab.duration,
                note,
                velocity: scaled_velocity(stab.gain) as u8,
                layer,
            },
    )
}

/// The notes of a stab, layer by layer.
pub open spec fn stab_notes(stab: StabModel) -> Seq<Note> {
    layer_notes(stab, Layer::Low) + layer_notes(stab, Layer::Mid) + layer_notes(stab, Layer::High)
}

/// The notes of the first `n` stabs of a plan.
pub open spec fn plan_notes(plan: Seq<StabModel>, n: int) -> Seq<Note>
    decreases n,
{
    if n <= 0 {
        Seq::empty()
    } else {
        plan_notes(plan, n - 1) + stab_notes(plan[n - 1])
    }
}

fn push_layer(notes: &mut Vec<Note>, stab: &Stab, pitches: &Vec<u8>, velocity: u8, layer: Layer)
    requires
        pitches@ == layer_part(stab@.notes, layer),
        velocity == scaled_velocity(stab@.gain),
    ensures
        final(notes)@ == old(notes)@ + layer_notes(stab@, layer),
{
    let ghost before = notes@;
    for i in 0..pitches.len()
        invariant
            pitches@ == layer_part(stab@.notes, layer),
            velocity == scaled_velocity(stab@.gain),
            notes@ == before + layer_notes(stab@, layer).take(i as int),
    {
        notes.push(
            Note {
                start: stab.start,
                duration: stab.duration,
                note: pitches[i],
                velocity,
                layer,
            },
        );
        assert(notes@ =~= before + layer_notes(stab@, layer).take(i + 1));
    }
    assert(layer_notes(stab@, layer).take(pitches@.len() as int) =~= layer_notes(stab@, layer));
}

/// Render a progression to a [`Score`], honouring assigned rhythm patterns and chord offsets.
///
/// This is the only way notes reach a file. The timings come from
/// [`arrangement`](crate::arrangement::arrangement), the same plan the scheduler walks, so an export
/// cannot disagree with what was heard. A slot with no rhythm of its own gets the whole-bar
/// behaviour: the transport's note length, unchanged.
///
/// One slot is one bar, exactly as the scheduler plays it; the live "+1 bar" the scheduler appends
/// while playing is intentionally *not* included, because an export has to be a deterministic
/// function of the progression alone.
pub fn render_progression(slots: &[Slot], key: &Key, bpm: u16, note_length: Single) -> (score: Score)
    requires
        slots@.len() * BAR_TICKS <= i64::MAX,
    ensures
        score.ppq == PPQ,
        score.bpm == (if bpm < 1 { 1 } else { bpm }),
        score.beats_per_bar == BEATS_PER_BAR,
        score.key == *key,
        score.length_ticks == slots@.len() * BAR_TICKS,
        ({
            let plan = planned(slot_models(slots@), *key, note_length);
            score.notes@ == plan_notes(plan, plan.len() as int)
        }),
        forall|i: int|
            0 <= i < score.notes@.len() ==> (#[trigger] score.notes@[i]).release()
                <= score.length_ticks && score.notes@[i].duration >= 1,
{
    let plan: Vec<Stab> = arrangement(slots, key, note_length);
    let ghost models = planned(slot_models(slots@), *key, note_length);
    let length: u64 = slots.len() as u64 * BAR_TICKS;
    proof {
        law_plans_stay_inside_the_loop(slot_models(slots@), *key, note_length);
        assert(slot_models(slots@).len() == slots@.len());
    }
    let mut notes: Vec<Note> = Vec::new();
    for i in 0..plan.len()
        invariant
            models == stab_models(plan@),
            all_inside(models, length as int),
            notes@ == plan_notes(models, i as int),
            forall|k: int|
                0 <= k < notes@.len() ==> (#[trigger] notes@[k]).release() <= length
                    && notes@[k].duration >= 1,
    {
        let stab: &Stab = &plan[i];
        assert(models[i as int] == stab@);
        assert(inside(models[i as int], length as int));
        let layers: [Vec<u8>; 3] = split_layers(stab.notes.as_slice());
        let velocity: u8 = velocity_for(stab.gain);
        let ghost before = notes@;
        push_layer(&mut notes, stab, &layers[0], velocity, Layer::Low);
        push_layer(&mut notes, stab, &layers[1], velocity, Layer::Mid);
        push_layer(&mut notes, stab, &layers[2], velocity, Layer::High);
        assert(notes@ =~= before + stab_notes(stab@));
        assert forall|k: int| 0 <= k < notes@.len() implies (#[trigger] notes@[k]).release()
            <= length && notes@[k].duration >= 1 by {
            if k < before.len() {
                assert(notes@[k] == before[k]);
            } else {
                assert(notes@[k] == stab_notes(stab@)[k - before.len()]);
            }
        }
    }
    Score {
        ppq: PPQ,
        bpm: if bpm < 1 { 1 } else { bpm },
        beats_per_bar: BEATS_PER_BAR as u8,
        key: *key,
        length_ticks: length,
        notes,
    }
}

// -----------------------------------------------------------------------------
// Laws
// -----------------------------------------------------------------------------

/// The distinct notes are in order, and are those that occur.
pub proof fn law_distinct_notes_ascend(notes: Seq<u8>, n: int)
    requires
        0 <= n <= 256,
    ensures
        forall|i: int, j: int|
            0 <= i < j < ascending(notes, n).len() ==> ascending(notes, n)[i] < ascending(notes, n)[j],
        forall|x: u8| #[trigger] ascending(notes, n).contains(x) <==> x < n && notes.contains(x),
    decreases n,
{
    if n > 0 {
        law_distinct_notes_ascend(notes, n - 1);
        let front = ascending(notes, n - 1);
        let all = ascending(notes, n);
        assert forall|i: int| 0 <= i < front.len() implies #[trigger] front[i] < n - 1 by {
            assert(front.contains(front[i]));
        }
        assert forall|x: u8| #[trigger] all.contains(x) <==> x < n && notes.contains(x) by {
            if front.contains(x) {
                let i = choose|i: int| 0 <= i < front.len() && front[i] == x;
                assert(all[i] == x);
            }
            if notes.contains((n - 1) as u8) {
                assert(all.last() == (n - 1) as u8);
                if all.contains(x) && x != (n - 1) as u8 {
                    let i = choose|i: int| 0 <= i < all.len() && all[i] == x;
                    assert(front[i] == x);
                }
            }
        }
    }
}

/// The three layers together are the chord's own notes, each once: none is doubled or invented.
pub proof fn law_layers_are_the_chord(notes: Seq<u8>)
    ensures
        layer_part(notes, Layer::Low) + layer_part(notes, Layer::Mid) + layer_part(
            notes,
            Layer::High,
        ) == ascending(notes, 256),
        forall|x: u8| ascending(notes, 256).contains(x) <==> notes.contains(x),
{
    let s = ascending(notes, 256);
    assert(low_part(s) + mid_part(s) + high_part(s) =~= s);
    law_distinct_notes_ascend(notes, 256);
}

/// Every gain gives a velocity that sounds and that MIDI can carry.
pub proof fn law_velocity_sounds(gain: Single)
    ensures
        1 <= scaled_velocity(gain) <= 127,
{
}

/// What a note sounds like, whatever layer it is on: its start, its duration, its pitch and its
/// velocity.
pub open spec fn sounding(notes: Seq<Note>) -> Seq<(u64, u64, u8, u8)> {
    notes.map_values(|n: Note| (n.start, n.duration, n.note, n.velocity))
}

/// What a stab owes a score: each distinct note of its chord once, lowest first, at its own time and
/// as loud as its gain makes it.
pub open spec fn owed_notes(stab: StabModel) -> Seq<(u64, u64, u8, u8)> {
    ascending(stab.notes, 256).map_values(
        |note: u8| (stab.start, stab.duration, note, scaled_velocity(stab.gain) as u8),
    )
}

/// What the first `n` stabs of a plan owe a score.
pub open spec fn owed_score(plan: Seq<StabModel>, n: int) -> Seq<(u64, u64, u8, u8)>
    decreases n,
{
    if n <= 0 {
        Seq::empty()
    } else {
        owed_score(plan, n - 1) + owed_notes(plan[n - 1])
    }
}

/// The notes of a score are those of the plan's stabs and no others: stab by stab, each distinct note
/// of the chord once, with the stab's start, its duration and the velocity of its gain, which is
/// never that of a note-off.
pub proof fn law_the_score_is_the_plan(plan: Seq<StabModel>, n: int)
    requires
        0 <= n <= plan.len(),
    ensures
        sounding(plan_notes(plan, n)) == owed_score(plan, n),
        forall|i: int, x: u8|
            0 <= i < n ==> (#[trigger] ascending(plan[i].notes, 256).contains(x)
                <==> plan[i].notes.contains(x)),
        forall|i: int| 0 <= i < n ==> (#[trigger] ascending(plan[i].notes, 256)).no_duplicates(),
        forall|i: int| 0 <= i < n ==> 1 <= #[trigger] scaled_velocity(plan[i].gain) <= 127,
    decreases n,
{
    if n > 0 {
        law_the_score_is_the_plan(plan, n - 1);
        let stab = plan[n - 1];
        law_layers_are_the_chord(stab.notes);
        law_distinct_notes_ascend(stab.notes, 256);
        law_velocity_sounds(stab.gain);
        let low = layer_part(stab.notes, Layer::Low);
        let mid = layer_part(stab.notes, Layer::Mid);
        let high = layer_part(stab.notes, Layer::High);
        let all = ascending(stab.notes, 256);
        assert(stab_notes(stab).len() == all.len());
        assert forall|k: int| 0 <= k < all.len() implies sounding(stab_notes(stab))[k]
            == #[trigger] owed_notes(stab)[k] by {
            assert((low + mid + high)[k] == all[k]);
        }
        assert(sounding(stab_notes(stab)) =~= owed_notes(stab));
        assert(sounding(plan_notes(plan, n)) =~= sounding(plan_notes(plan, n - 1)) + sounding(
            stab_notes(stab),
        ));
    }
}

/// A score starts this note at this tick with this velocity.
pub open spec fn score_starts(notes: Seq<Note>, tick: int, note: u8, velocity: u8) -> bool {
    exists|i: int|
        0 <= i < notes.len() && (#[trigger] notes[i]).start == tick && notes[i].note == note
            && notes[i].velocity == velocity
}

/// A score releases a note at this tick.
pub open spec fn score_releases(notes: Seq<Note>, tick: int) -> bool {
    exists|i: int| 0 <= i < notes.len() && (#[trigger] notes[i]).release() == tick
}

/// A bar of playback starts a chord with this note at this tick of the bar, at a gain that makes
/// this velocity.
pub open spec fn bar_starts(events: Seq<EventModel>, at: int, note: u8, velocity: u8) -> bool {
    exists|i: int|
        0 <= i < events.len() && #[trigger] is_start(events[i], at, note, velocity)
}

/// The event starts a chord with this note.
pub open spec fn is_start(event: EventModel, tick: int, note: u8, velocity: u8) -> bool {
    match event {
        EventModel::On { at, group: _, notes, gain } => at == tick && notes.contains(note)
            && scaled_velocity(gain) as u8 == velocity,
        _ => false,
    }
}

/// A bar of playback releases a chord at this tick of the bar.
pub open spec fn bar_releases(events: Seq<EventModel>, at: int) -> bool {
    exists|i: int|
        0 <= i < events.len() && #[trigger] events[i] is Off && events[i].tick() == at
}

/// A file cannot disagree with what was heard: the score has a note at a tick exactly when playback
/// starts that note there, in the bar that the tick lies in, as loud; and it releases a note at a
/// tick exactly when playback releases a chord there, in the bar that the release ends.
pub proof fn law_the_score_is_what_is_heard(
    slots: Seq<SlotModel>,
    key: Key,
    note_length: Single,
    tick: int,
    note: u8,
    velocity: u8,
)
    requires
        slots.len() * BAR_TICKS <= i64::MAX,
        0 <= tick,
    ensures
        ({
            let plan = planned(slots, key, note_length);
            let notes = plan_notes(plan, plan.len() as int);
            let bar = tick / BAR_TICKS as int;
            score_starts(notes, tick, note, velocity) <==> bar_starts(
                due_in_bar(plan, bar, BAR_TICKS as int, RHYTHM_LAYERS as int),
                tick % BAR_TICKS as int,
                note,
                velocity,
            )
        }),
        tick > 0 ==> ({
            let plan = planned(slots, key, note_length);
            let notes = plan_notes(plan, plan.len() as int);
            let bar = (tick - 1) / BAR_TICKS as int;
            score_releases(notes, tick) <==> bar_releases(
                due_in_bar(plan, bar, BAR_TICKS as int, RHYTHM_LAYERS as int),
                tick - bar * BAR_TICKS,
            )
        }),
{
    let plan = planned(slots, key, note_length);
    law_plans_stay_inside_the_loop(slots, key, note_length);
    law_plans_have_notes(slots, key, note_length);
    assert forall|i: int| 0 <= i < plan.len() implies (#[trigger] plan[i]).release() <= u64::MAX
        && plan[i].notes.len() > 0 by {
        assert(inside(plan[i], slots.len() * BAR_TICKS));
    }
    lemma_starts_agree(plan, tick, note, velocity);
    if tick > 0 {
        lemma_releases_agree(plan, tick);
    }
}

/// The notes of a plan are those of its stabs.
proof fn lemma_note_of_a_stab(plan: Seq<StabModel>, n: int, x: Note)
    ensures
        plan_notes(plan, n).contains(x) <==> exists|i: int|
            0 <= i < n && #[trigger] stab_notes(plan[i]).contains(x),
    decreases n,
{
    if n > 0 {
        lemma_note_of_a_stab(plan, n - 1, x);
        let front = plan_notes(plan, n - 1);
        let last = stab_notes(plan[n - 1]);
        let all = plan_notes(plan, n);
        if all.contains(x) {
            let k = choose|k: int| 0 <= k < all.len() && all[k] == x;
            if k < front.len() {
                assert(front[k] == x);
                assert(front.contains(x));
            } else {
                assert(last[k - front.len()] == x);
                assert(last.contains(x));
            }
        }
        if front.contains(x) {
            let k = choose|k: int| 0 <= k < front.len() && front[k] == x;
            assert(all[k] == x);
        }
        if last.contains(x) {
            let k = choose|k: int| 0 <= k < last.len() && last[k] == x;
            assert(all[front.len() + k] == x);
        }
        assert forall|i: int| 0 <= i < n && #[trigger] stab_notes(plan[i]).contains(
            x,
        ) implies all.contains(x) by {
            if i < n - 1 {
                assert(front.contains(x));
            }
        }
    }
}

/// The notes of a stab are those of its chord, at its time and as loud.
proof fn lemma_notes_of_a_chord(stab: StabModel)
    ensures
        forall|k: int|
            0 <= k < stab_notes(stab).len() ==> {
                let x = #[trigger] stab_notes(stab)[k];
                x.start == stab.start && x.duration == stab.duration && x.velocity
                    == scaled_velocity(stab.gain) as u8 && stab.notes.contains(x.note)
            },
        forall|note: u8| #[trigger]
            stab.notes.contains(note) ==> exists|k: int|
                0 <= k < stab_notes(stab).len() && (#[trigger] stab_notes(stab)[k]).note == note,
{
    law_layers_are_the_chord(stab.notes);
    let low = layer_part(stab.notes, Layer::Low);
    let mid = layer_part(stab.notes, Layer::Mid);
    let high = layer_part(stab.notes, Layer::High);
    let all = ascending(stab.notes, 256);
    assert(stab_notes(stab).len() == all.len());
    assert forall|k: int| 0 <= k < all.len() implies (#[trigger] stab_notes(stab)[k]).note
        == all[k] by {
        assert((low + mid + high)[k] == all[k]);
    }
    assert forall|k: int| 0 <= k < stab_notes(stab).len() implies stab.notes.contains(
        (#[trigger] stab_notes(stab)[k]).note,
    ) by {
        assert(all.contains(all[k]));
    }
    assert forall|note: u8| #[trigger] stab.notes.contains(note) implies exists|k: int|
        0 <= k < stab_notes(stab).len() && (#[trigger] stab_notes(stab)[k]).note == note by {
        assert(all.contains(note));
        let k = choose|k: int| 0 <= k < all.len() && all[k] == note;
        assert(stab_notes(stab)[k].note == note);
    }
}

/// An event of a bar of playback is an event of one of the plan's stabs.
proof fn lemma_due_of_a_stab(plan: Seq<StabModel>, bar: int, e: EventModel)
    ensures
        ({
            let groups = assigned(plan, RHYTHM_LAYERS as int, plan.len() as int).0;
            due_in_bar(plan, bar, BAR_TICKS as int, RHYTHM_LAYERS as int).contains(e)
                <==> exists|i: int|
                0 <= i < plan.len() && #[trigger] stab_events(
                    plan[i],
                    groups[i],
                    bar * BAR_TICKS,
                    BAR_TICKS as int,
                ).contains(e)
        }),
{
    let groups = assigned(plan, RHYTHM_LAYERS as int, plan.len() as int).0;
    let n = plan.len() as int;
    lemma_sorted_contains(events_of(plan, groups, bar * BAR_TICKS, BAR_TICKS as int, n), e);
    lemma_event_of_a_stab(plan, groups, bar * BAR_TICKS, BAR_TICKS as int, n, e);
}

proof fn lemma_starts_agree(plan: Seq<StabModel>, tick: int, note: u8, velocity: u8)
    requires
        0 <= tick,
    ensures
        score_starts(plan_notes(plan, plan.len() as int), tick, note, velocity) <==> bar_starts(
            due_in_bar(plan, tick / BAR_TICKS as int, BAR_TICKS as int, RHYTHM_LAYERS as int),
            tick % BAR_TICKS as int,
            note,
            velocity,
        ),
{
    let notes = plan_notes(plan, plan.len() as int);
    let bar = tick / BAR_TICKS as int;
    let at = tick % BAR_TICKS as int;
    let start = bar * BAR_TICKS;
    let due = due_in_bar(plan, bar, BAR_TICKS as int, RHYTHM_LAYERS as int);
    let groups = assigned(plan, RHYTHM_LAYERS as int, plan.len() as int).0;
    if score_starts(notes, tick, note, velocity) {
        let i = choose|i: int|
            0 <= i < notes.len() && (#[trigger] notes[i]).start == tick && notes[i].note == note
                && notes[i].velocity == velocity;
        assert(notes.contains(notes[i]));
        lemma_note_of_a_stab(plan, plan.len() as int, notes[i]);
        let j = choose|j: int|
            0 <= j < plan.len() && #[trigger] stab_notes(plan[j]).contains(notes[i]);
        lemma_notes_of_a_chord(plan[j]);
        let e = EventModel::On {
            at: (plan[j].start - start) as u64,
            group: groups[j],
            notes: plan[j].notes,
            gain: plan[j].gain,
        };
        assert(stab_events(plan[j], groups[j], start, BAR_TICKS as int)[0] == e);
        assert(stab_events(plan[j], groups[j], start, BAR_TICKS as int).contains(e));
        lemma_due_of_a_stab(plan, bar, e);
        let k = choose|k: int| 0 <= k < due.len() && due[k] == e;
        assert(is_start(due[k], at, note, velocity));
    }
    if bar_starts(due, at, note, velocity) {
        let k = choose|k: int|
            0 <= k < due.len() && #[trigger] is_start(due[k], at, note, velocity);
        let e = due[k];
        assert(due.contains(e));
        lemma_due_of_a_stab(plan, bar, e);
        let j = choose|j: int|
            0 <= j < plan.len() && #[trigger] stab_events(
                plan[j],
                groups[j],
                start,
                BAR_TICKS as int,
            ).contains(e);
        assert(plan[j].start == tick);
        lemma_notes_of_a_chord(plan[j]);
        assert(plan[j].notes.contains(note));
        let m = choose|m: int|
            0 <= m < stab_notes(plan[j]).len() && (#[trigger] stab_notes(plan[j])[m]).note == note;
        let x = stab_notes(plan[j])[m];
        assert(stab_notes(plan[j]).contains(x));
        lemma_note_of_a_stab(plan, plan.len() as int, x);
        let i = choose|i: int| 0 <= i < notes.len() && notes[i] == x;
        assert(notes[i].start == tick);
    }
}

proof fn lemma_releases_agree(plan: Seq<StabModel>, tick: int)
    requires
        0 < tick,
        forall|i: int|
            0 <= i < plan.len() ==> (#[trigger] plan[i]).release() <= u64::MAX
                && plan[i].notes.len() > 0,
    ensures
        ({
            let bar = (tick - 1) / BAR_TICKS as int;
            score_releases(plan_notes(plan, plan.len() as int), tick) <==> bar_releases(
                due_in_bar(plan, bar, BAR_TICKS as int, RHYTHM_LAYERS as int),
                tick - bar * BAR_TICKS,
            )
        }),
{
    let notes = plan_notes(plan, plan.len() as int);
    let bar = (tick - 1) / BAR_TICKS as int;
    let start = bar * BAR_TICKS;
    let due = due_in_bar(plan, bar, BAR_TICKS as int, RHYTHM_LAYERS as int);
    let groups = assigned(plan, RHYTHM_LAYERS as int, plan.len() as int).0;
    if score_releases(notes, tick) {
        let i = choose|i: int| 0 <= i < notes.len() && (#[trigger] notes[i]).release() == tick;
        assert(notes.contains(notes[i]));
        lemma_note_of_a_stab(plan, plan.len() as int, notes[i]);
        let j = choose|j: int|
            0 <= j < plan.len() && #[trigger] stab_notes(plan[j]).contains(notes[i]);
        lemma_notes_of_a_chord(plan[j]);
        assert(plan[j].release() == tick);
        let e = EventModel::Off { at: (plan[j].release() - start) as u64, group: groups[j] };
        let events = stab_events(plan[j], groups[j], start, BAR_TICKS as int);
        assert(events[events.len() - 1] == e);
        assert(events.contains(e));
        lemma_due_of_a_stab(plan, bar, e);
        let k = choose|k: int| 0 <= k < due.len() && due[k] == e;
        assert(due[k] is Off);
    }
    if bar_releases(due, tick - start) {
        let k = choose|k: int|
            0 <= k < due.len() && #[trigger] due[k] is Off && due[k].tick() == tick - start;
        let e = due[k];
        assert(due.contains(e));
        lemma_due_of_a_stab(plan, bar, e);
        let j = choose|j: int|
            0 <= j < plan.len() && #[trigger] stab_events(
                plan[j],
                groups[j],
                start,
                BAR_TICKS as int,
            ).contains(e);
        assert(plan[j].release() == tick);
        lemma_notes_of_a_chord(plan[j]);
        assert(plan[j].notes.contains(plan[j].notes[0]));
        let m = choose|m: int|
            0 <= m < stab_notes(plan[j]).len() && (#[trigger] stab_notes(plan[j])[m]).note
                == plan[j].notes[0];
        let x = stab_notes(plan[j])[m];
        assert(stab_notes(plan[j]).contains(x));
        lemma_note_of_a_stab(plan, plan.len() as int, x);
        let i = choose|i: int| 0 <= i < notes.len() && notes[i] == x;
        assert(notes[i].release() == tick);
    }
}

/// A velocity is the nearest whole number to 100 times the gain, but for the last place of the
/// single-precision product, and at least 1. A gain of 1 or more has 100, and one of nothing or less
/// has 1.
pub proof fn law_the_velocity_is_the_gain(gain: Single)
    requires
        !gain.nan(),
    ensures
        ({
            let v = scaled_velocity(gain);
            let unit = pow2((-gain.power()) as nat);
            let exact = 100 * gain.significand();
            &&& 1 <= v <= 100
            &&& gain.bits <= ONE_BITS ==> (2 * v - 1) * unit <= 2 * exact + 256 && 2 * exact < (2 * v
                + 1) * unit + 256 || v == 1 && 2 * exact < unit + 256
            &&& ONE_BITS <= gain.bits < 0x8000_0000 ==> v == 100
            &&& gain.negative() || gain.bits == 0 ==> v == 1
        }),
{
    let one = Single { bits: ONE_BITS };
    let g = gain.within(Single { bits: 0 }, one);
    law_products_are_nearest(g, 100);
    law_patterns_up_to_one_are_up_to_one(g);
    let k = (-g.power()) as nat;
    let unit = pow2(k) as int;
    let r = g.nearest_product(100) as int;
    let sig = g.significand() as int;
    vstd::arithmetic::power2::lemma2_to64();
    if k > 23 {
        vstd::arithmetic::power2::lemma_pow2_strictly_increases(23, k);
    }
    assert(k >= 23 && unit >= 0x80_0000);
    assert(r <= 100) by (nonlinear_arith)
        requires
            (2 * r - 1) * unit <= 2 * (100 * sig) + 256,
            sig <= unit,
            unit >= 0x80_0000,
    ;
    if g.magnitude() == ONE_BITS {
        assert(r == 100) by (nonlinear_arith)
            requires
                (2 * r - 1) * unit <= 2 * (100 * sig) + 256,
                2 * (100 * sig) < (2 * r + 1) * unit + 256,
                sig == unit,
                unit >= 0x80_0000,
        ;
    }
    if g.magnitude() == 0 {
        assert(r == 0) by (nonlinear_arith)
            requires
                (2 * r - 1) * unit <= 2 * (100 * sig) + 256,
                sig == 0,
                unit >= 0x80_0000,
                r >= 0,
        ;
    }
    if r == 0 {
        assert((2 * r + 1) * unit == unit) by (nonlinear_arith)
            requires
                r == 0,
        ;
    }
}

/// The layers of a chord: the low one is its lowest note alone, the high one, where the chord has two
/// notes, its highest alone, and the middle one every note between. Every note of a stab lies on the
/// layer that has it.
pub proof fn law_layers_are_bottom_top_and_between(stab: StabModel, i: int, x: u8)
    requires
        0 <= i < stab_notes(stab).len(),
    ensures
        ({
            let s = ascending(stab.notes, 256);
            let n = stab_notes(stab)[i];
            &&& n.layer is Low <==> i == 0
            &&& n.layer is High <==> i > 0 && i == s.len() - 1
            &&& n.note == s[i]
            &&& layer_part(stab.notes, n.layer).contains(n.note)
        }),
        layer_part(stab.notes, Layer::Low).contains(x) <==> stab.notes.contains(x) && forall|y: u8|
            #[trigger] stab.notes.contains(y) ==> x <= y,
        layer_part(stab.notes, Layer::High).contains(x) <==> stab.notes.contains(x) && (forall|y: u8|
            #[trigger] stab.notes.contains(y) ==> y <= x) && exists|y: u8| #[trigger]
            stab.notes.contains(y) && y < x,
        layer_part(stab.notes, Layer::Mid).contains(x) <==> stab.notes.contains(x) && (exists|y: u8|
            #[trigger] stab.notes.contains(y) && y < x) && exists|y: u8| #[trigger]
            stab.notes.contains(y) && x < y,
        layer_part(stab.notes, Layer::Low).len() <= 1,
        layer_part(stab.notes, Layer::High).len() <= 1,
{
    let s = ascending(stab.notes, 256);
    law_layers_are_the_chord(stab.notes);
    law_distinct_notes_ascend(stab.notes, 256);
    let low = layer_part(stab.notes, Layer::Low);
    let mid = layer_part(stab.notes, Layer::Mid);
    let high = layer_part(stab.notes, Layer::High);
    let all = low + mid + high;
    assert(all[i] == s[i]);
    assert(stab_notes(stab).len() == s.len());
    let n = stab_notes(stab)[i];
    if i < low.len() {
        assert(low[i] == n.note);
    } else if i < low.len() + mid.len() {
        assert(mid[i - low.len()] == n.note);
    } else {
        assert(high[i - low.len() - mid.len()] == n.note);
    }
    assert(forall|y: u8| #[trigger] stab.notes.contains(y) <==> s.contains(y));
    if stab.notes.contains(x) {
        assert(s.contains(x));
        let k = choose|k: int| 0 <= k < s.len() && s[k] == x;
        assert(s.contains(s[0]) && s.contains(s[s.len() - 1]));
        assert(stab.notes.contains(s[0]) && stab.notes.contains(s[s.len() - 1]));
        assert forall|y: u8| #[trigger] stab.notes.contains(y) implies s[0] <= y <= s[s.len() - 1] by {
            assert(s.contains(y));
            let j = choose|j: int| 0 <= j < s.len() && s[j] == y;
        }
        assert(k == 0 ==> low[0] == x);
        assert(k > 0 ==> s[0] < x);
        assert(k == s.len() - 1 && k > 0 ==> high[0] == x);
        assert(k < s.len() - 1 ==> x < s[s.len() - 1]);
        assert(0 < k < s.len() - 1 ==> mid[k - 1] == x);
        if mid.contains(x) {
            let j = choose|j: int| 0 <= j < mid.len() && mid[j] == x;
            assert(s[j + 1] == x);
        }
        if high.contains(x) {
            assert(s[s.len() - 1] == x);
            assert(s.len() > 1);
        }
        if low.contains(x) {
            assert(s[0] == x);
        }
    } else {
        assert(!s.contains(x));
        if low.contains(x) {
            let j = choose|j: int| 0 <= j < low.len() && low[j] == x;
            assert(s[j] == x);
        }
        if mid.contains(x) {
            let j = choose|j: int| 0 <= j < mid.len() && mid[j] == x;
            assert(s[j + 1] == x);
        }
        if high.contains(x) {
            assert(s[s.len() - 1] == x);
        }
    }
}

} // verus!
