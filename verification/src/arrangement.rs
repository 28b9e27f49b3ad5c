//! The arrangement seam: one timings plan that playback and export both read.
//!
//! This module is the single source of truth for what a bar contains. [`arrangement`] lays the whole
//! loop out as timed [`Stab`]s; [`bar_events`] slices that plan for one bar, which is what lets the
//! scheduler play a note whose release lands in the next bar; and [`assign_groups`] decides which
//! voice pool each stab uses.

use vstd::arithmetic::power2::pow2;
use vstd::multiset::Multiset;
use vstd::prelude::*;

use crate::music::{clamped, Key, BAR_TICKS, BEATS_PER_BAR};
use crate::order::{
    lemma_sorted, lemma_sorted_contains, lemma_sorted_map, sorted, stable_sort, Placed, Ranked,
};
use crate::progression::{slot_models, EntryModel, ProgressionEntry, Slot, SlotModel};
use crate::rhythm::{hits_below, hits_on, LayerModel, PatternModel, RhythmPattern};
use crate::single::{
    law_multiples_are_nearest, law_patterns_up_to_one_are_up_to_one, Single, ONE_BITS,
};

verus! {

// -----------------------------------------------------------------------------
// Stab
// -----------------------------------------------------------------------------

/// One chord sounding for a span, in absolute loop ticks.
#[derive(Debug, PartialEq)]
pub struct Stab {
    pub start: u64,
    pub duration: u64,
    /// The chord tones, exactly as the entry voices them, never the synth's own allocation, so the
    /// audio path's octave doubling stays sound design and does not leak into an exported file.
    pub notes: Vec<u8>,
    /// 0..1. One per take, so a decayed layer is a quieter stab.
    pub gain: Single,
}

/// What a stab holds.
#[verifier::ext_equal]
pub struct StabModel {
    pub start: u64,
    pub duration: u64,
    pub notes: Seq<u8>,
    pub gain: Single,
}

impl StabModel {
    /// The tick of the release.
    pub open spec fn release(self) -> int {
        self.start + self.duration
    }
}

impl View for Stab {
    type V = StabModel;

    open spec fn view(&self) -> StabModel {
        StabModel {
            start: self.start,
            duration: self.duration,
            notes: self.notes@,
            gain: self.gain,
        }
    }
}

/// What each of some stabs holds.
pub open spec fn stab_models(plan: Seq<Stab>) -> Seq<StabModel> {
    plan.map_values(|s: Stab| s@)
}

fn copy_notes(notes: &Vec<u8>) -> (r: Vec<u8>)
    ensures
        r@ == notes@,
{
    let r: Vec<u8> = notes.clone();
    assert(r@ =~= notes@);
    r
}

impl Clone for Stab {
    fn clone(&self) -> (r: Self)
        ensures
            r@ == self@,
    {
        Stab {
            start: self.start,
            duration: self.duration,
            notes: copy_notes(&self.notes),
            gain: self.gain,
        }
    }
}

/// Stabs come in the order of their starts.
impl Placed for StabModel {
    open spec fn place(&self) -> int {
        self.start as int
    }
}

impl Placed for Stab {
    open spec fn place(&self) -> int {
        self.start as int
    }
}

impl Ranked for Stab {
    fn rank(&self) -> (r: u128) {
        self.start as u128
    }
}

impl Stab {
    /// The tick this stab is released.
    pub fn end(&self) -> (r: u64)
        requires
            self@.release() <= u64::MAX,
        ensures
            r == self@.release(),
    {
        self.start + self.duration
    }
}

// -----------------------------------------------------------------------------
// The whole loop
// -----------------------------------------------------------------------------

/// How many ticks a chord without a pattern sustains: the fraction of a bar, kept within 0 and 1,
/// to the nearest tick and at least one.
pub open spec fn sustained(note_length: Single) -> int {
    let fraction = note_length.within(Single { bits: 0 }, Single { bits: ONE_BITS });
    if fraction.nan() {
        1
    } else {
        clamped(fraction.nearest_multiple(BAR_TICKS as nat) as int, 1, BAR_TICKS as int)
    }
}

/// How many ticks a chord without a pattern sustains.
///
/// Clamped so a wild note length can never produce a zero-length note or one that outlives its bar.
pub fn sustain_ticks(note_length: Single) -> (r: u64)
    ensures
        r == sustained(note_length),
        1 <= r <= BAR_TICKS,
{
    let fraction: Single = note_length.clamp(Single { bits: 0 }, Single { bits: ONE_BITS });
    if fraction.is_nan() {
        return 1;
    }
    let ticks: u64 = fraction.scaled(BAR_TICKS);
    if ticks < 1 {
        1
    } else if ticks > BAR_TICKS {
        BAR_TICKS
    } else {
        ticks
    }
}

/// The smaller of two integers.
pub open spec fn least(a: int, b: int) -> int {
    if a < b {
        a
    } else {
        b
    }
}

/// One stab placed on a loop: its start wraps around the loop's end, and a hold that crosses the end
/// becomes a head at the end of the loop and a tail at its start.
pub open spec fn wrapped(start: int, duration: int, notes: Seq<u8>, gain: Single, length: int) -> Seq<
    StabModel,
> {
    let whole = least(if duration < 1 { 1 } else { duration }, length);
    let at = start % length;
    let head = least(whole, length - at);
    let first = StabModel { start: at as u64, duration: head as u64, notes, gain };
    if whole > head {
        seq![first, StabModel { start: 0, duration: (whole - head) as u64, notes, gain }]
    } else {
        seq![first]
    }
}

/// How long a hit of a pattern sounds when it starts at `start`: its hold, cut where the muted tail
/// of that bar begins; 0 where it starts inside the tail.
pub open spec fn heard_for(pattern: PatternModel, start: int) -> int {
    match pattern.silent_from() {
        None => pattern.held(),
        Some(mute) => {
            let position = start % BAR_TICKS as int;
            if position >= mute {
                0
            } else {
                least(pattern.held(), mute - position)
            }
        },
    }
}

/// The stabs of one hit.
pub open spec fn hit_stabs(
    pattern: PatternModel,
    base: int,
    hit: (usize, Single),
    notes: Seq<u8>,
    length: int,
) -> Seq<StabModel> {
    let start = base + hit.0 * pattern.cell_ticks();
    if heard_for(pattern, start) == 0 {
        Seq::empty()
    } else {
        wrapped(start, heard_for(pattern, start), notes, hit.1, length)
    }
}

/// The stabs of the first `n` hits of a pattern.
pub open spec fn pattern_stabs(
    pattern: PatternModel,
    base: int,
    notes: Seq<u8>,
    length: int,
    n: int,
) -> Seq<StabModel>
    decreases n,
{
    if n <= 0 {
        Seq::empty()
    } else {
        pattern_stabs(pattern, base, notes, length, n - 1) + hit_stabs(
            pattern,
            base,
            pattern.all_hits()[n - 1],
            notes,
            length,
        )
    }
}

/// The stabs of an entry whose slot's downbeat is at `downbeat`: its pattern's hits, or, without a
/// pattern, one stab of `fallback` ticks.
pub open spec fn entry_stabs(
    entry: EntryModel,
    key: Key,
    downbeat: int,
    fallback: int,
    length: int,
) -> Seq<StabModel> {
    let base = downbeat + entry.offset_ticks;
    let notes = entry.sounding(key);
    match entry.pattern {
        Some(p) => pattern_stabs(p, base, notes, length, p.all_hits().len() as int),
        None => wrapped(base, fallback, notes, Single { bits: ONE_BITS }, length),
    }
}

/// The stabs of the first `n` slots, slot by slot and hit by hit.
pub open spec fn laid_out(slots: Seq<SlotModel>, key: Key, fallback: int, n: int) -> Seq<StabModel>
    decreases n,
{
    if n <= 0 {
        Seq::empty()
    } else {
        laid_out(slots, key, fallback, n - 1) + match slots[n - 1] {
            SlotModel::Chord(e) => entry_stabs(
                e,
                key,
                (n - 1) * BAR_TICKS,
                fallback,
                slots.len() * BAR_TICKS,
            ),
            SlotModel::Rest => Seq::empty(),
        }
    }
}

/// The plan of a progression: its stabs in start order, those of one tick in slot order.
pub open spec fn planned(slots: Seq<SlotModel>, key: Key, note_length: Single) -> Seq<StabModel> {
    sorted(laid_out(slots, key, sustained(note_length), slots.len() as int))
}

/// Lay a progression out as timed stabs, in start order.
///
/// A slot with no pattern assigned is one stab at its downbeat, holding for the transport's note
/// length. `note_length` is the fraction of a bar a patternless chord sustains; a slot with a
/// pattern uses the pattern's own hold instead.
pub fn arrangement(slots: &[Slot], key: &Key, note_length: Single) -> (plan: Vec<Stab>)
    requires
        slots@.len() * BAR_TICKS <= i64::MAX,
    ensures
        stab_models(plan@) == planned(slot_models(slots@), *key, note_length),
{
    let fallback: u64 = sustain_ticks(note_length);
    let ghost models = slot_models(slots@);
    let length: u64 = slots.len() as u64 * BAR_TICKS;
    let mut plan: Vec<Stab> = Vec::new();
    assert(stab_models(plan@) =~= Seq::<StabModel>::empty());
    for index in 0..slots.len()
        invariant
            models == slot_models(slots@),
            fallback == sustained(note_length),
            1 <= fallback <= BAR_TICKS,
            slots@.len() * BAR_TICKS <= i64::MAX,
            length == slots@.len() * BAR_TICKS,
            stab_models(plan@) == laid_out(models, *key, fallback as int, index as int),
    {
        assert(models[index as int] == slots@[index as int]@);
        let ghost before = plan@;
        if let Slot::Chord(entry) = &slots[index] {
            let downbeat: u64 = index as u64 * BAR_TICKS;
            push_entry(&mut plan, entry, key, downbeat, fallback, length);
        }
        assert(stab_models(plan@) =~= laid_out(models, *key, fallback as int, index + 1));
    }
    assert(models.len() == slots@.len());
    proof {
        lemma_sorted_map(plan@, |s: Stab| s@);
    }
    // Stable, so stabs sharing a tick keep slot-then-step order.
    stable_sort(plan)
}

/// Append the stabs of one entry.
fn push_entry(
    plan: &mut Vec<Stab>,
    entry: &ProgressionEntry,
    key: &Key,
    downbeat: u64,
    fallback: u64,
    length: u64,
)
    requires
        downbeat + BAR_TICKS <= length,
        1 <= fallback <= BAR_TICKS,
        0 < length <= i64::MAX,
    ensures
        stab_models(final(plan)@) == stab_models(old(plan)@) + entry_stabs(
            entry@,
            *key,
            downbeat as int,
            fallback as int,
            length as int,
        ),
{
    let notes: Vec<u8> = entry.notes(key);
    let base: i128 = downbeat as i128 + entry.offset_ticks as i128;
    // A rhythm the entry owns plays exactly its hits, including none at all, which is how a
    // deliberately silent pattern stays silent. An entry with no rhythm of its own falls back to
    // the whole-bar default.
    match &entry.pattern {
        Some(pattern) => {
            push_pattern(plan, pattern, base, &notes, length);
        },
        None => {
            push_wrapped(plan, base, fallback, &notes, Single { bits: ONE_BITS }, length);
        },
    }
}

/// Append the stabs of a pattern's hits.
fn push_pattern(
    plan: &mut Vec<Stab>,
    pattern: &RhythmPattern,
    base: i128,
    notes: &Vec<u8>,
    length: u64,
)
    requires
        -0x1_0000_0000_0000_0000 <= base <= 0x1_0000_0000_0000_0000,
        0 < length <= i64::MAX,
    ensures
        stab_models(final(plan)@) == stab_models(old(plan)@) + pattern_stabs(
            pattern@,
            base as int,
            notes@,
            length as int,
            pattern@.all_hits().len() as int,
        ),
{
    let step_ticks: u64 = pattern.step_ticks();
    let hold: u64 = pattern.hold_ticks();
    // A muted tail is a *bar position*, so it lands wherever the chord's offset puts it rather than
    // where the slot's downbeat is. `None` at zero mute, so a hold still crosses the bar line when
    // nothing is muted.
    let mute_at: Option<u64> = pattern.mute_boundary();
    let hits: Vec<(usize, Single)> = pattern.hits();
    let ghost before = stab_models(plan@);
    assert(before + pattern_stabs(pattern@, base as int, notes@, length as int, 0) =~= before);
    assert(step_ticks <= 3840) by (nonlinear_arith)
        requires
            pattern@.cells() == 0 ==> step_ticks == 3840,
            pattern@.cells() != 0 ==> step_ticks == 3840int / pattern@.cells(),
            pattern@.cells() >= 0,
    ;
    for i in 0..hits.len()
        invariant
            -0x1_0000_0000_0000_0000 <= base <= 0x1_0000_0000_0000_0000,
            0 < length <= i64::MAX,
            hits@ == pattern@.all_hits(),
            step_ticks == pattern@.cell_ticks(),
            step_ticks <= 3840,
            hold == pattern@.held(),
            match pattern@.silent_from() {
                Some(t) => mute_at matches Some(v) && v == t,
                None => mute_at is None,
            },
            stab_models(plan@) == before + pattern_stabs(
                pattern@,
                base as int,
                notes@,
                length as int,
                i as int,
            ),
    {
        let hit: (usize, Single) = hits[i];
        assert(0 <= hit.0 * step_ticks <= 0x1_0000_0000_0000_0000 * 3840) by (nonlinear_arith)
            requires
                hit.0 <= 0xFFFF_FFFF_FFFF_FFFF,
                step_ticks <= 3840,
        ;
        let start: i128 = base + hit.0 as i128 * step_ticks as i128;
        assert(start == base + hit.0 * pattern@.cell_ticks());
        let duration: u64 = sounding_for(hold, mute_at, start);
        assert(duration == heard_for(pattern@, start as int));
        if duration > 0 {
            push_wrapped(plan, start, duration, notes, hit.1, length);
        }
        assert(stab_models(plan@) =~= before + pattern_stabs(
            pattern@,
            base as int,
            notes@,
            length as int,
            i + 1,
        ));
    }
}

/// How long a hold that starts at `start` is heard before the muted tail of its bar.
fn sounding_for(hold: u64, mute_at: Option<u64>, start: i128) -> (r: u64)
    ensures
        r == (match mute_at {
            None => hold as int,
            Some(mute) => if start as int % BAR_TICKS as int >= mute {
                0
            } else {
                least(hold as int, mute - start as int % BAR_TICKS as int)
            },
        }),
{
    match mute_at {
        None => hold,
        Some(mute) => {
            let position: u64 = rem_euclid(start, BAR_TICKS);
            if position >= mute {
                // Begins inside the silent tail: it never sounds.
                0
            } else if hold < mute - position {
                hold
            } else {
                // Cut at this bar's mute boundary.
                mute - position
            }
        },
    }
}

/// The remainder that is never negative.
fn rem_euclid(x: i128, m: u64) -> (r: u64)
    requires
        m > 0,
    ensures
        r == x as int % m as int,
        r < m,
{
    let n: i128 = m as i128;
    if x >= 0 {
        proof {
            vstd::arithmetic::div_mod::lemma_mod_bound(x as int, m as int);
        }
        (x % n) as u64
    } else {
        // -(x + 1) is not negative, and so fits.
        let y: i128 = -(x + 1);
        let back: i128 = y % n;
        proof {
            vstd::arithmetic::div_mod::lemma_mod_bound(y as int, m as int);
            let q = y as int / m as int;
            vstd::arithmetic::div_mod::lemma_fundamental_div_mod(y as int, m as int);
            assert(x == -(q + 1) * m + (m - 1 - back)) by (nonlinear_arith)
                requires
                    y == m * q + back,
                    y == -(x + 1),
            ;
            vstd::arithmetic::div_mod::lemma_fundamental_div_mod_converse(
                x as int,
                m as int,
                -(q + 1),
                m - 1 - back,
            );
        }
        (n - 1 - back) as u64
    }
}

/// Place one stab, wrapping it around the loop end and splitting it if its hold crosses it.
///
/// Splitting is the honest representation: a MIDI note cannot wrap, and a looped note does
/// retrigger at the loop point, so one stab becomes a head at the end of the loop plus a tail at the
/// start. It also keeps every tick inside `0..length`.
fn push_wrapped(
    plan: &mut Vec<Stab>,
    start: i128,
    duration: u64,
    notes: &Vec<u8>,
    gain: Single,
    length: u64,
)
    requires
        0 < length <= i64::MAX,
    ensures
        stab_models(final(plan)@) == stab_models(old(plan)@) + wrapped(
            start as int,
            duration as int,
            notes@,
            gain,
            length as int,
        ),
{
    let ghost before = stab_models(plan@);
    let whole: u64 = if duration < 1 { 1 } else { duration };
    let whole: u64 = if whole < length { whole } else { length };
    let at: u64 = rem_euclid(start, length);
    let head: u64 = if whole < length - at { whole } else { length - at };
    plan.push(Stab { start: at, duration: head, notes: copy_notes(notes), gain });
    if whole > head {
        plan.push(Stab { start: 0, duration: whole - head, notes: copy_notes(notes), gain });
    }
    assert(stab_models(plan@) =~= before + wrapped(
        start as int,
        duration as int,
        notes@,
        gain,
        length as int,
    ));
}

// -----------------------------------------------------------------------------
// One bar
// -----------------------------------------------------------------------------

/// How many stab groups the synth gives rhythm.
///
/// A hit retriggers only its own group, so this is the deepest a stack of overlapping takes can
/// sound before something has to be cut.
pub const RHYTHM_LAYERS: usize = 4;

/// One scheduled action inside a bar, at a tick offset from the bar line.
#[derive(Debug, PartialEq)]
pub enum BarEvent {
    /// Start a chord on a voice group.
    On { at: u64, group: usize, notes: Vec<u8>, gain: Single },
    /// Release a voice group.
    Off { at: u64, group: usize },
    /// One metronome tick, audible only while a rhythm is being recorded.
    Click { at: u64, strong: bool },
}

/// What an event holds.
#[verifier::ext_equal]
pub enum EventModel {
    On { at: u64, group: usize, notes: Seq<u8>, gain: Single },
    Off { at: u64, group: usize },
    Click { at: u64, strong: bool },
}

impl View for BarEvent {
    type V = EventModel;

    open spec fn view(&self) -> EventModel {
        match self {
            BarEvent::On { at, group, notes, gain } => EventModel::On {
                at: *at,
                group: *group,
                notes: notes@,
                gain: *gain,
            },
            BarEvent::Off { at, group } => EventModel::Off { at: *at, group: *group },
            BarEvent::Click { at, strong } => EventModel::Click { at: *at, strong: *strong },
        }
    }
}

/// What each of some events holds.
pub open spec fn event_models(events: Seq<BarEvent>) -> Seq<EventModel> {
    events.map_values(|e: BarEvent| e@)
}

impl EventModel {
    /// Tick offset from the bar line.
    pub open spec fn tick(self) -> u64 {
        match self {
            EventModel::On { at, .. } => at,
            EventModel::Off { at, .. } => at,
            EventModel::Click { at, .. } => at,
        }
    }

    /// At one tick releases come first, then starts, then clicks.
    pub open spec fn turn(self) -> int {
        match self {
            EventModel::Off { .. } => 0,
            EventModel::On { .. } => 1,
            EventModel::Click { .. } => 2,
        }
    }
}

/// Events come by time, and at the same tick a release before a start, so a group reused on the
/// same beat is not cut by its own release.
impl Placed for EventModel {
    open spec fn place(&self) -> int {
        self.tick() * 3 + self.turn()
    }
}

impl Placed for BarEvent {
    open spec fn place(&self) -> int {
        self@.place()
    }
}

impl Ranked for BarEvent {
    fn rank(&self) -> (r: u128) {
        let turn: u128 = match self {
            BarEvent::Off { .. } => 0,
            BarEvent::On { .. } => 1,
            BarEvent::Click { .. } => 2,
        };
        self.at() as u128 * 3 + turn
    }
}

impl Clone for BarEvent {
    fn clone(&self) -> (r: Self)
        ensures
            r@ == self@,
    {
        match self {
            BarEvent::On { at, group, notes, gain } => BarEvent::On {
                at: *at,
                group: *group,
                notes: copy_notes(notes),
                gain: *gain,
            },
            BarEvent::Off { at, group } => BarEvent::Off { at: *at, group: *group },
            BarEvent::Click { at, strong } => BarEvent::Click { at: *at, strong: *strong },
        }
    }
}

impl BarEvent {
    /// Tick offset from the bar line.
    pub fn at(&self) -> (r: u64)
        ensures
            r == self@.tick(),
    {
        match self {
            BarEvent::On { at, .. } => *at,
            BarEvent::Off { at, .. } => *at,
            BarEvent::Click { at, .. } => *at,
        }
    }
}

/// Order events for playback: by time, and at the same tick a release before a start.
pub fn sort_events(events: &mut Vec<BarEvent>)
    ensures
        event_models(final(events)@) == sorted(event_models(old(events)@)),
{
    let ghost before = events@;
    let mut taken: Vec<BarEvent> = Vec::new();
    core::mem::swap(events, &mut taken);
    proof {
        lemma_sorted_map(before, |e: BarEvent| e@);
    }
    let mut ordered: Vec<BarEvent> = stable_sort(taken);
    core::mem::swap(events, &mut ordered);
}

/// The stab starts in the bar whose first tick is `start`. A stab that begins exactly on a bar line
/// belongs to the bar that begins there.
pub open spec fn starts_in(stab: StabModel, start: int, bar_ticks: int) -> bool {
    start <= stab.start < start + bar_ticks
}

/// The stab is released in the bar whose first tick is `start`. A stab that ends exactly on a bar
/// line is released by the bar that ends there.
pub open spec fn ends_in(stab: StabModel, start: int, bar_ticks: int) -> bool {
    start < stab.release() <= start + bar_ticks
}

/// The events of one stab in one bar.
pub open spec fn stab_events(stab: StabModel, group: usize, start: int, bar_ticks: int) -> Seq<
    EventModel,
> {
    (if starts_in(stab, start, bar_ticks) {
        seq![
            EventModel::On {
                at: (stab.start - start) as u64,
                group,
                notes: stab.notes,
                gain: stab.gain,
            },
        ]
    } else {
        Seq::empty()
    }) + (if ends_in(stab, start, bar_ticks) {
        seq![EventModel::Off { at: (stab.release() - start) as u64, group }]
    } else {
        Seq::empty()
    })
}

/// The events of the first `n` stabs in one bar.
pub open spec fn events_of(
    plan: Seq<StabModel>,
    groups: Seq<usize>,
    start: int,
    bar_ticks: int,
    n: int,
) -> Seq<EventModel>
    decreases n,
{
    if n <= 0 {
        Seq::empty()
    } else {
        events_of(plan, groups, start, bar_ticks, n - 1) + stab_events(
            plan[n - 1],
            groups[n - 1],
            start,
            bar_ticks,
        )
    }
}

/// Every stab's release has a tick number.
pub open spec fn releases_fit(plan: Seq<StabModel>) -> bool {
    forall|i: int| 0 <= i < plan.len() ==> (#[trigger] plan[i]).release() <= u64::MAX
}

/// The events of one bar of a plan, in due order.
pub open spec fn due_in_bar(plan: Seq<StabModel>, bar: int, bar_ticks: int, groups: int) -> Seq<
    EventModel,
> {
    sorted(
        events_of(
            plan,
            assigned(plan, groups, plan.len() as int).0,
            bar * bar_ticks,
            bar_ticks,
            plan.len() as int,
        ),
    )
}

/// Everything the scheduler does in one bar, in due order, with `at` measured from the bar line.
///
/// This is the single input the playback thread walks, and it is what makes a hold that crosses the
/// bar line work: the bar that *ends* a note carries its release, which is the same place the
/// exporter puts the note-off.
pub fn bar_events(plan: &[Stab], bar: usize, bar_ticks: u64, groups: usize) -> (events: Vec<BarEvent>)
    requires
        releases_fit(stab_models(plan@)),
        (bar + 1) * bar_ticks <= u64::MAX,
    ensures
        event_models(events@) == due_in_bar(
            stab_models(plan@),
            bar as int,
            bar_ticks as int,
            groups as int,
        ),
{
    let ghost models = stab_models(plan@);
    let assigned: Vec<usize> = assign_groups(plan, groups);
    assert(0 <= bar * bar_ticks && bar * bar_ticks + bar_ticks == (bar + 1) * bar_ticks) by (nonlinear_arith);
    let start: u64 = bar as u64 * bar_ticks;
    let end: u64 = start + bar_ticks;

    let mut events: Vec<BarEvent> = Vec::new();
    assert(event_models(events@) =~= Seq::<EventModel>::empty());
    for i in 0..plan.len()
        invariant
            models == stab_models(plan@),
            releases_fit(models),
            start == bar * bar_ticks,
            end == start + bar_ticks,
            assigned@.len() == plan@.len(),
            event_models(events@) == events_of(
                models,
                assigned@,
                start as int,
                bar_ticks as int,
                i as int,
            ),
    {
        let ghost before = events@;
        let group: usize = assigned[i];
        let stab: &Stab = &plan[i];
        assert(models[i as int] == stab@);
        assert(models[i as int].release() <= u64::MAX);
        let release: u64 = stab.end();
        if stab.start >= start && stab.start < end {
            events.push(
                BarEvent::On {
                    at: stab.start - start,
                    group,
                    notes: copy_notes(&stab.notes),
                    gain: stab.gain,
                },
            );
        }
        if release > start && release <= end {
            events.push(BarEvent::Off { at: release - start, group });
        }
        assert(event_models(events@) =~= event_models(before) + stab_events(
            stab@,
            group,
            start as int,
            bar_ticks as int,
        ));
    }
    assert(models.len() == plan@.len());
    sort_events(&mut events);
    events
}

/// The clicks of one bar.
pub open spec fn clicks(bar_ticks: int) -> Seq<EventModel> {
    Seq::new(
        BEATS_PER_BAR as nat,
        |beat: int|
            EventModel::Click {
                at: (beat * (bar_ticks / BEATS_PER_BAR as int)) as u64,
                strong: beat == 0,
            },
    )
}

/// The metronome for one bar: a click on every beat, the downbeat stronger.
pub fn metronome_events(bar_ticks: u64) -> (events: Vec<BarEvent>)
    ensures
        event_models(events@) == clicks(bar_ticks as int),
{
    let step: u64 = bar_ticks / BEATS_PER_BAR;
    let mut events: Vec<BarEvent> = Vec::new();
    for beat in 0..BEATS_PER_BAR
        invariant
            step == bar_ticks / BEATS_PER_BAR,
            events@.len() == beat,
            forall|i: int|
                0 <= i < beat ==> (#[trigger] events@[i])@ == (EventModel::Click {
                    at: (i * step) as u64,
                    strong: i == 0,
                }),
    {
        assert(beat * step <= 3 * step) by (nonlinear_arith)
            requires
                beat <= 3,
        ;
        events.push(BarEvent::Click { at: beat * step, strong: beat == 0 });
    }
    assert(event_models(events@) =~= clicks(bar_ticks as int));
    events
}

// -----------------------------------------------------------------------------
// Voice groups
// -----------------------------------------------------------------------------

/// The first group from `i` on that is free at `start`.
pub open spec fn first_free(free_at: Seq<u64>, start: u64, i: int) -> Option<int>
    decreases free_at.len() - i,
{
    if i < 0 || i >= free_at.len() {
        None
    } else if free_at[i] <= start {
        Some(i)
    } else {
        first_free(free_at, start, i + 1)
    }
}

/// Among the first `n` groups, the one that is free soonest; the lowest of several.
pub open spec fn soonest_free(free_at: Seq<u64>, n: int) -> int
    decreases n,
{
    if n <= 1 {
        0
    } else if free_at[n - 1] < free_at[soonest_free(free_at, n - 1)] {
        n - 1
    } else {
        soonest_free(free_at, n - 1)
    }
}

/// The group for a stab that starts at `start`: the lowest that is free by then, or else the one
/// that is free soonest.
pub open spec fn group_for(free_at: Seq<u64>, start: u64) -> int {
    match first_free(free_at, start, 0) {
        Some(i) => i,
        None => soonest_free(free_at, free_at.len() as int),
    }
}

/// The groups of the first `n` stabs, and from when on each group is then free.
pub open spec fn assigned(plan: Seq<StabModel>, groups: int, n: int) -> (Seq<usize>, Seq<u64>)
    decreases n,
{
    if n <= 0 {
        (Seq::empty(), Seq::new(groups as nat, |g: int| 0u64))
    } else {
        let (front, free_at) = assigned(plan, groups, n - 1);
        if groups <= 0 {
            (front.push(0), free_at)
        } else {
            let g = group_for(free_at, plan[n - 1].start);
            (front.push(g as usize), free_at.update(g, plan[n - 1].release() as u64))
        }
    }
}

proof fn lemma_soonest_bounded(free_at: Seq<u64>, n: int)
    requires
        0 <= n <= free_at.len(),
    ensures
        0 <= soonest_free(free_at, n),
        n > 0 ==> soonest_free(free_at, n) < n,
    decreases n,
{
    if n > 1 {
        lemma_soonest_bounded(free_at, n - 1);
    }
}

proof fn lemma_first_free_bounded(free_at: Seq<u64>, start: u64, i: int)
    requires
        0 <= i,
    ensures
        first_free(free_at, start, i) matches Some(g) ==> i <= g < free_at.len() && free_at[g]
            <= start,
    decreases free_at.len() - i,
{
    if i < free_at.len() && free_at[i] > start {
        lemma_first_free_bounded(free_at, start, i + 1);
    }
}

proof fn lemma_group_bounded(free_at: Seq<u64>, start: u64)
    requires
        free_at.len() > 0,
    ensures
        0 <= group_for(free_at, start) < free_at.len(),
{
    lemma_first_free_bounded(free_at, start, 0);
    lemma_soonest_bounded(free_at, free_at.len() as int);
}

/// Every stab gets one of the groups, or group 0 where there are none.
pub proof fn law_groups_are_in_range(plan: Seq<StabModel>, groups: int, n: int)
    requires
        0 <= n,
        0 <= groups <= usize::MAX,
    ensures
        assigned(plan, groups, n).0.len() == n,
        assigned(plan, groups, n).1.len() == groups,
        forall|i: int|
            0 <= i < n ==> (#[trigger] assigned(plan, groups, n).0[i] < groups || groups == 0
                && assigned(plan, groups, n).0[i] == 0),
    decreases n,
{
    if n > 0 {
        law_groups_are_in_range(plan, groups, n - 1);
        if groups > 0 {
            lemma_group_bounded(assigned(plan, groups, n - 1).1, plan[n - 1].start);
        }
    }
}

/// Assign each stab to a voice pool, reusing a pool as soon as it is free.
///
/// A group that is already free at the stab's start is preferred, and the lowest such index wins, so
/// a plan that never overlaps always lands on group 0. When every group is still sounding, the one
/// that frees soonest is stolen, which cuts the shortest possible tail instead of an arbitrary one.
pub fn assign_groups(plan: &[Stab], groups: usize) -> (r: Vec<usize>)
    requires
        groups > 0 ==> releases_fit(stab_models(plan@)),
    ensures
        r@ == assigned(stab_models(plan@), groups as int, plan@.len() as int).0,
        r@.len() == plan@.len(),
{
    let ghost models = stab_models(plan@);
    let mut free_at: Vec<u64> = Vec::new();
    for i in 0..groups
        invariant
            free_at@ == Seq::new(i as nat, |g: int| 0u64),
    {
        free_at.push(0);
        assert(free_at@ =~= Seq::new((i + 1) as nat, |g: int| 0u64));
    }
    let mut out: Vec<usize> = Vec::new();
    for n in 0..plan.len()
        invariant
            models == stab_models(plan@),
            groups > 0 ==> releases_fit(models),
            free_at@.len() == groups,
            out@.len() == n,
            (out@, free_at@) == assigned(models, groups as int, n as int),
    {
        let stab: &Stab = &plan[n];
        assert(models[n as int] == stab@);
        if groups == 0 {
            out.push(0);
        } else {
            assert(models[n as int].release() <= u64::MAX);
            let index: usize = pick_group(&free_at, stab.start);
            free_at.set(index, stab.end());
            out.push(index);
        }
        proof {
            let next = assigned(models, groups as int, n + 1);
            assert(out@ =~= next.0);
            assert(free_at@ =~= next.1);
        }
    }
    out
}

/// The group for a stab that starts at `start`.
fn pick_group(free_at: &Vec<u64>, start: u64) -> (r: usize)
    requires
        free_at@.len() > 0,
    ensures
        r == group_for(free_at@, start),
        r < free_at@.len(),
{
    for i in 0..free_at.len()
        invariant
            first_free(free_at@, start, 0) == first_free(free_at@, start, i as int),
    {
        if free_at[i] <= start {
            return i;
        }
    }
    let mut best: usize = 0;
    for n in 1..free_at.len()
        invariant
            free_at@.len() > 0,
            best < free_at@.len(),
            best == soonest_free(free_at@, n as int),
    {
        if free_at[n] < free_at[best] {
            best = n;
        }
    }
    best
}

// -----------------------------------------------------------------------------
// Laws
// -----------------------------------------------------------------------------

/// A stab lies inside a loop and sounds for at least a tick.
pub open spec fn inside(stab: StabModel, length: int) -> bool {
    &&& stab.duration >= 1
    &&& stab.release() <= length
}

/// Every stab of some lies inside a loop.
pub open spec fn all_inside(stabs: Seq<StabModel>, length: int) -> bool {
    forall|i: int| 0 <= i < stabs.len() ==> inside(#[trigger] stabs[i], length)
}

/// A placed stab lies inside the loop, and keeps its whole duration, if need be in two pieces.
pub proof fn law_wrapping_keeps_the_duration(
    start: int,
    duration: int,
    notes: Seq<u8>,
    gain: Single,
    length: int,
)
    requires
        1 <= duration <= length,
        length <= u64::MAX,
    ensures
        ({
            let placed = wrapped(start, duration, notes, gain, length);
            &&& all_inside(placed, length)
            &&& placed[0].start == start % length
            &&& placed.len() == 1 ==> placed[0].duration == duration
            &&& placed.len() == 2 ==> placed[0].duration + placed[1].duration == duration
                && placed[0].release() == length && placed[1].start == 0
            &&& 1 <= placed.len() <= 2
        }),
{
    vstd::arithmetic::div_mod::lemma_mod_bound(start, length);
}

proof fn lemma_hits_inside(
    pattern: PatternModel,
    base: int,
    notes: Seq<u8>,
    length: int,
    n: int,
)
    requires
        BAR_TICKS <= length <= u64::MAX,
    ensures
        all_inside(pattern_stabs(pattern, base, notes, length, n), length),
    decreases n,
{
    if n > 0 {
        lemma_hits_inside(pattern, base, notes, length, n - 1);
        let hit = pattern.all_hits()[n - 1];
        let start = base + hit.0 * pattern.cell_ticks();
        if heard_for(pattern, start) != 0 {
            law_wrapping_keeps_the_duration(
                start,
                heard_for(pattern, start),
                notes,
                hit.1,
                length,
            );
        }
    }
}

proof fn lemma_laid_out_inside(slots: Seq<SlotModel>, key: Key, fallback: int, n: int)
    requires
        1 <= fallback <= BAR_TICKS,
        0 <= n <= slots.len(),
        slots.len() * BAR_TICKS <= u64::MAX,
    ensures
        all_inside(laid_out(slots, key, fallback, n), slots.len() * BAR_TICKS),
    decreases n,
{
    if n > 0 {
        lemma_laid_out_inside(slots, key, fallback, n - 1);
        let length = slots.len() * BAR_TICKS;
        if let SlotModel::Chord(e) = slots[n - 1] {
            let base = (n - 1) * BAR_TICKS + e.offset_ticks;
            match e.pattern {
                Some(p) => {
                    lemma_hits_inside(
                        p,
                        base,
                        e.sounding(key),
                        length,
                        p.all_hits().len() as int,
                    );
                },
                None => {
                    law_wrapping_keeps_the_duration(
                        base,
                        fallback,
                        e.sounding(key),
                        Single { bits: ONE_BITS },
                        length,
                    );
                },
            }
        }
    }
}

proof fn lemma_sorted_inside(stabs: Seq<StabModel>, length: int)
    requires
        all_inside(stabs, length),
    ensures
        all_inside(sorted(stabs), length),
{
    assert forall|i: int| 0 <= i < sorted(stabs).len() implies inside(
        #[trigger] sorted(stabs)[i],
        length,
    ) by {
        assert(sorted(stabs).contains(sorted(stabs)[i]));
        lemma_sorted_contains(stabs, sorted(stabs)[i]);
    }
}

/// Every stab of a plan lies inside the loop and sounds for at least a tick, and the plan is in
/// start order.
pub proof fn law_plans_stay_inside_the_loop(slots: Seq<SlotModel>, key: Key, note_length: Single)
    requires
        slots.len() * BAR_TICKS <= u64::MAX,
    ensures
        all_inside(planned(slots, key, note_length), slots.len() * BAR_TICKS),
        forall|i: int, j: int|
            0 <= i <= j < planned(slots, key, note_length).len() ==> planned(
                slots,
                key,
                note_length,
            )[i].start <= planned(slots, key, note_length)[j].start,
{
    lemma_laid_out_inside(slots, key, sustained(note_length), slots.len() as int);
    lemma_sorted_inside(
        laid_out(slots, key, sustained(note_length), slots.len() as int),
        slots.len() * BAR_TICKS,
    );
    let plan = planned(slots, key, note_length);
    lemma_sorted(laid_out(slots, key, sustained(note_length), slots.len() as int));
    assert forall|i: int, j: int| 0 <= i <= j < plan.len() implies plan[i].start
        <= plan[j].start by {
        assert(plan[i].place() <= plan[j].place());
    }
}

/// Every stab of some has a note.
pub open spec fn all_voiced(stabs: Seq<StabModel>) -> bool {
    forall|i: int| 0 <= i < stabs.len() ==> (#[trigger] stabs[i]).notes.len() > 0
}

/// Every stab of a plan sounds a chord.
pub proof fn law_plans_have_notes(slots: Seq<SlotModel>, key: Key, note_length: Single)
    ensures
        all_voiced(planned(slots, key, note_length)),
{
    let stabs = laid_out(slots, key, sustained(note_length), slots.len() as int);
    lemma_laid_out_voiced(slots, key, sustained(note_length), slots.len() as int);
    assert forall|i: int| 0 <= i < sorted(stabs).len() implies (#[trigger] sorted(
        stabs,
    )[i]).notes.len() > 0 by {
        assert(sorted(stabs).contains(sorted(stabs)[i]));
        lemma_sorted_contains(stabs, sorted(stabs)[i]);
    }
}

proof fn lemma_laid_out_voiced(slots: Seq<SlotModel>, key: Key, fallback: int, n: int)
    ensures
        all_voiced(laid_out(slots, key, fallback, n)),
    decreases n,
{
    if n > 0 {
        lemma_laid_out_voiced(slots, key, fallback, n - 1);
        if let SlotModel::Chord(e) = slots[n - 1] {
            if let Some(p) = e.pattern {
                lemma_hits_voiced(
                    p,
                    (n - 1) * BAR_TICKS + e.offset_ticks,
                    e.sounding(key),
                    slots.len() * BAR_TICKS,
                    p.all_hits().len() as int,
                );
            }
        }
    }
}

proof fn lemma_hits_voiced(pattern: PatternModel, base: int, notes: Seq<u8>, length: int, n: int)
    requires
        notes.len() > 0,
    ensures
        all_voiced(pattern_stabs(pattern, base, notes, length, n)),
    decreases n,
{
    if n > 0 {
        lemma_hits_voiced(pattern, base, notes, length, n - 1);
    }
}

/// Every stab inside a loop of `bars` bars is started by exactly one bar and released by exactly
/// one bar.
pub proof fn law_every_stab_starts_and_ends_once(stab: StabModel, bars: int, bar_ticks: int, bar: int)
    requires
        inside(stab, bars * bar_ticks),
        0 < bar_ticks,
        0 <= bar < bars,
    ensures
        starts_in(stab, bar * bar_ticks, bar_ticks) <==> bar == stab.start as int / bar_ticks,
        ends_in(stab, bar * bar_ticks, bar_ticks) <==> bar == (stab.release() - 1) / bar_ticks,
        0 <= stab.start as int / bar_ticks < bars,
        0 <= (stab.release() - 1) / bar_ticks < bars,
{
    lemma_bar_of(stab.start as int, bar, bars, bar_ticks);
    lemma_bar_of(stab.release() - 1, bar, bars, bar_ticks);
}

proof fn lemma_bar_of(tick: int, bar: int, bars: int, bar_ticks: int)
    requires
        0 <= tick < bars * bar_ticks,
        0 < bar_ticks,
        0 <= bar,
    ensures
        bar * bar_ticks <= tick < bar * bar_ticks + bar_ticks <==> bar == tick / bar_ticks,
        0 <= tick / bar_ticks < bars,
{
    let q = tick / bar_ticks;
    assert(q * bar_ticks <= tick < q * bar_ticks + bar_ticks) by (nonlinear_arith)
        requires
            q == tick / bar_ticks,
            0 < bar_ticks,
    ;
    assert(q < bars) by (nonlinear_arith)
        requires
            q * bar_ticks <= tick,
            tick < bars * bar_ticks,
            0 < bar_ticks,
    ;
    assert(0 <= q) by (nonlinear_arith)
        requires
            q == tick / bar_ticks,
            0 <= tick,
            0 < bar_ticks,
    ;
    if bar * bar_ticks <= tick < bar * bar_ticks + bar_ticks {
        assert(bar == q) by (nonlinear_arith)
            requires
                bar * bar_ticks <= tick,
                tick < bar * bar_ticks + bar_ticks,
                q * bar_ticks <= tick,
                tick < q * bar_ticks + bar_ticks,
                0 < bar_ticks,
        ;
    }
}

/// A hit of a pattern with a muted tail is silent from the tail on: it does not begin inside it, and
/// its hold is cut where it begins.
pub proof fn law_muted_tail_is_silent(pattern: PatternModel, start: int)
    requires
        pattern.silent_from() is Some,
    ensures
        heard_for(pattern, start) == 0 || start % BAR_TICKS as int + heard_for(pattern, start)
            <= pattern.silent_from()->0,
        heard_for(pattern, start) <= pattern.held(),
        heard_for(pattern, start) == 0 <==> start % BAR_TICKS as int >= pattern.silent_from()->0,
{
}

/// A stab is over before the tick of its bar from which the bar is silent.
pub open spec fn out_of_the_tail(stab: StabModel, silent_from: int) -> bool {
    stab.start as int % BAR_TICKS as int + stab.duration <= silent_from
}

/// Wherever its offset puts it, no stab of an entry sounds in the muted tail of its pattern: none
/// starts inside the tail of the bar it sounds in, and none rings into it.
pub proof fn law_entries_keep_out_of_the_muted_tail(
    entry: EntryModel,
    key: Key,
    downbeat: int,
    fallback: int,
    bars: int,
    i: int,
)
    requires
        entry.pattern matches Some(p) && p.silent_from() is Some,
        0 < bars * BAR_TICKS <= u64::MAX,
        0 <= i < entry_stabs(entry, key, downbeat, fallback, bars * BAR_TICKS).len(),
    ensures
        out_of_the_tail(
            entry_stabs(entry, key, downbeat, fallback, bars * BAR_TICKS)[i],
            entry.pattern->0.silent_from()->0,
        ),
{
    let pattern = entry.pattern->0;
    lemma_hits_out_of_the_tail(
        pattern,
        downbeat + entry.offset_ticks,
        entry.sounding(key),
        bars,
        pattern.all_hits().len() as int,
        i,
    );
}

proof fn lemma_hits_out_of_the_tail(
    pattern: PatternModel,
    base: int,
    notes: Seq<u8>,
    bars: int,
    n: int,
    i: int,
)
    requires
        pattern.silent_from() is Some,
        0 < bars * BAR_TICKS <= u64::MAX,
        0 <= i < pattern_stabs(pattern, base, notes, bars * BAR_TICKS, n).len(),
    ensures
        out_of_the_tail(
            pattern_stabs(pattern, base, notes, bars * BAR_TICKS, n)[i],
            pattern.silent_from()->0,
        ),
    decreases n,
{
    let length = bars * BAR_TICKS;
    let front = pattern_stabs(pattern, base, notes, length, n - 1);
    let hit = pattern.all_hits()[n - 1];
    if i < front.len() {
        lemma_hits_out_of_the_tail(pattern, base, notes, bars, n - 1, i);
    } else {
        let start = base + hit.0 * pattern.cell_ticks();
        let heard = heard_for(pattern, start);
        law_muted_tail_is_silent(pattern, start);
        let at = start % length;
        vstd::arithmetic::div_mod::lemma_mod_mod(start, BAR_TICKS as int, bars);
        assert(BAR_TICKS as int * bars == length) by (nonlinear_arith)
            requires
                length == bars * BAR_TICKS,
        ;
        assert(at % BAR_TICKS as int == start % BAR_TICKS as int);
        vstd::arithmetic::div_mod::lemma_mod_bound(start, length);
        // The stab ends inside its bar, and the loop ends with a bar.
        let bar = at / BAR_TICKS as int;
        assert(bar < bars);
        assert(at + heard <= length);
    }
}

/// A pattern without hits plays nothing: it does not fall back to a whole bar.
pub proof fn law_a_silent_pattern_plays_nothing(
    entry: EntryModel,
    key: Key,
    downbeat: int,
    fallback: int,
    length: int,
)
    requires
        entry.pattern matches Some(p) && p.all_hits().len() == 0,
    ensures
        entry_stabs(entry, key, downbeat, fallback, length).len() == 0,
{
}

/// In a plan that never overlaps, every stab lands on group 0.
pub proof fn law_a_plan_without_overlaps_uses_group_0(plan: Seq<StabModel>, groups: int, i: int)
    requires
        0 < groups,
        0 <= i < plan.len(),
        releases_fit(plan),
        forall|a: int, b: int|
            0 <= a < b < plan.len() ==> (#[trigger] plan[a]).release() <= (#[trigger] plan[b]).start,
    ensures
        assigned(plan, groups, plan.len() as int).0[i] == 0,
{
    lemma_without_overlaps(plan, groups, plan.len() as int);
}

proof fn lemma_without_overlaps(plan: Seq<StabModel>, groups: int, n: int)
    requires
        0 < groups,
        0 <= n <= plan.len(),
        releases_fit(plan),
        forall|a: int, b: int|
            0 <= a < b < plan.len() ==> (#[trigger] plan[a]).release() <= (#[trigger] plan[b]).start,
    ensures
        assigned(plan, groups, n).0.len() == n,
        assigned(plan, groups, n).1.len() == groups,
        forall|i: int| 0 <= i < n ==> #[trigger] assigned(plan, groups, n).0[i] == 0,
        assigned(plan, groups, n).1[0] == (if n > 0 {
            plan[n - 1].release()
        } else {
            0
        }),
    decreases n,
{
    if n > 0 {
        lemma_without_overlaps(plan, groups, n - 1);
        let free_at = assigned(plan, groups, n - 1).1;
        if n > 1 {
            assert(plan[n - 2].release() <= plan[n - 1].start);
        }
        assert(free_at[0] <= plan[n - 1].start);
        assert(first_free(free_at, plan[n - 1].start, 0) == Some(0int));
        assert(plan[n - 1].release() <= u64::MAX);
    }
}

/// A group that still sounds is stolen only when every group still sounds, and then it is the one
/// that would be free soonest.
pub proof fn law_only_a_full_house_is_cut(free_at: Seq<u64>, start: u64)
    requires
        free_at.len() > 0,
        free_at[group_for(free_at, start)] > start,
    ensures
        forall|g: int| 0 <= g < free_at.len() ==> #[trigger] free_at[g] > start,
        forall|g: int|
            0 <= g < free_at.len() ==> free_at[group_for(free_at, start)] <= #[trigger] free_at[g],
{
    lemma_first_free_bounded(free_at, start, 0);
    lemma_none_free(free_at, start, 0);
    lemma_soonest_is_least(free_at, free_at.len() as int);
}

proof fn lemma_none_free(free_at: Seq<u64>, start: u64, i: int)
    requires
        0 <= i,
        first_free(free_at, start, i) is None,
    ensures
        forall|g: int| i <= g < free_at.len() ==> #[trigger] free_at[g] > start,
    decreases free_at.len() - i,
{
    if i < free_at.len() {
        lemma_none_free(free_at, start, i + 1);
    }
}

proof fn lemma_soonest_is_least(free_at: Seq<u64>, n: int)
    requires
        0 < n <= free_at.len(),
    ensures
        forall|g: int|
            0 <= g < n ==> free_at[soonest_free(free_at, n)] <= #[trigger] free_at[g],
    decreases n,
{
    lemma_soonest_bounded(free_at, n);
    if n > 1 {
        lemma_soonest_is_least(free_at, n - 1);
    }
}

/// An event of a bar is an event of one of the stabs.
pub proof fn lemma_event_of_a_stab(
    plan: Seq<StabModel>,
    groups: Seq<usize>,
    start: int,
    bar_ticks: int,
    n: int,
    e: EventModel,
)
    ensures
        events_of(plan, groups, start, bar_ticks, n).contains(e) <==> exists|i: int|
            0 <= i < n && #[trigger] stab_events(plan[i], groups[i], start, bar_ticks).contains(e),
    decreases n,
{
    if n > 0 {
        lemma_event_of_a_stab(plan, groups, start, bar_ticks, n - 1, e);
        let front = events_of(plan, groups, start, bar_ticks, n - 1);
        let last = stab_events(plan[n - 1], groups[n - 1], start, bar_ticks);
        let all = events_of(plan, groups, start, bar_ticks, n);
        if all.contains(e) {
            let k = choose|k: int| 0 <= k < all.len() && all[k] == e;
            if k < front.len() {
                assert(front[k] == e);
                assert(front.contains(e));
            } else {
                assert(last[k - front.len()] == e);
                assert(last.contains(e));
            }
        }
        if front.contains(e) {
            let k = choose|k: int| 0 <= k < front.len() && front[k] == e;
            assert(all[k] == e);
        }
        if last.contains(e) {
            let k = choose|k: int| 0 <= k < last.len() && last[k] == e;
            assert(all[front.len() + k] == e);
        }
        assert forall|i: int| 0 <= i < n && #[trigger] stab_events(
            plan[i],
            groups[i],
            start,
            bar_ticks,
        ).contains(e) implies all.contains(e) by {
            if i < n - 1 {
                assert(front.contains(e));
            }
        }
    }
}

/// At one tick of a bar every release comes before every start, and the events come in due order.
pub proof fn law_events_in_due_order(events: Seq<EventModel>, i: int, j: int)
    requires
        0 <= i <= j < sorted(events).len(),
    ensures
        sorted(events)[i].tick() <= sorted(events)[j].tick(),
        sorted(events)[i].tick() == sorted(events)[j].tick() ==> sorted(events)[i].turn()
            <= sorted(events)[j].turn(),
{
    lemma_sorted(events);
    assert(sorted(events)[i].place() <= sorted(events)[j].place());
}

/// The start that a stab owes a loop: the bar it lies in, and the event at its tick of that bar.
pub open spec fn owed_start(stab: StabModel, group: usize, bar_ticks: int) -> (int, EventModel) {
    let bar = stab.start as int / bar_ticks;
    (
        bar,
        EventModel::On {
            at: (stab.start - bar * bar_ticks) as u64,
            group,
            notes: stab.notes,
            gain: stab.gain,
        },
    )
}

/// The release that a stab owes a loop: the bar that it ends in or with, and the event at its tick of
/// that bar.
pub open spec fn owed_release(stab: StabModel, group: usize, bar_ticks: int) -> (int, EventModel) {
    let bar = (stab.release() - 1) / bar_ticks;
    (bar, EventModel::Off { at: (stab.release() - bar * bar_ticks) as u64, group })
}

/// What the first `n` stabs owe a loop: one start and one release each, on the stab's group.
pub open spec fn owed(
    plan: Seq<StabModel>,
    groups: Seq<usize>,
    bar_ticks: int,
    n: int,
) -> Multiset<(int, EventModel)>
    decreases n,
{
    if n <= 0 {
        Multiset::empty()
    } else {
        owed(plan, groups, bar_ticks, n - 1).insert(
            owed_start(plan[n - 1], groups[n - 1], bar_ticks),
        ).insert(owed_release(plan[n - 1], groups[n - 1], bar_ticks))
    }
}

/// The events of a bar, each with the bar's number.
pub open spec fn in_bar(events: Seq<EventModel>, bar: int) -> Seq<(int, EventModel)> {
    events.map_values(|e: EventModel| (bar, e))
}

/// What the first `bars` bars of a loop emit.
pub open spec fn emitted(
    plan: Seq<StabModel>,
    bar_ticks: int,
    groups: int,
    bars: int,
) -> Multiset<(int, EventModel)>
    decreases bars,
{
    if bars <= 0 {
        Multiset::empty()
    } else {
        emitted(plan, bar_ticks, groups, bars - 1).add(
            in_bar(due_in_bar(plan, bars - 1, bar_ticks, groups), bars - 1).to_multiset(),
        )
    }
}

/// Over all bars of a loop, each stab of a plan gives exactly one start, at its own tick and with its
/// own notes and gain, and exactly one release, at its end; both are on the group it was assigned,
/// and nothing else is emitted. In each bar the events come in due order, a release before a start
/// of the same tick.
pub proof fn law_a_loop_emits_its_plan(
    plan: Seq<StabModel>,
    bars: int,
    bar_ticks: int,
    groups: int,
)
    requires
        0 < bar_ticks,
        0 <= bars,
        all_inside(plan, bars * bar_ticks),
    ensures
        emitted(plan, bar_ticks, groups, bars) == owed(
            plan,
            assigned(plan, groups, plan.len() as int).0,
            bar_ticks,
            plan.len() as int,
        ),
        forall|bar: int, i: int, j: int|
            #![trigger due_in_bar(plan, bar, bar_ticks, groups)[i], due_in_bar(plan, bar, bar_ticks, groups)[j]]
            0 <= i <= j < due_in_bar(plan, bar, bar_ticks, groups).len() ==> {
                let a = due_in_bar(plan, bar, bar_ticks, groups)[i];
                let b = due_in_bar(plan, bar, bar_ticks, groups)[j];
                a.tick() < b.tick() || (a.tick() == b.tick() && a.turn() <= b.turn())
            },
{
    let n = plan.len() as int;
    let of = assigned(plan, groups, n).0;
    let left = emitted(plan, bar_ticks, groups, bars);
    let right = owed(plan, of, bar_ticks, n);
    assert forall|x: (int, EventModel)| #[trigger] left.count(x) == right.count(x) by {
        lemma_emitted(plan, bar_ticks, groups, bars, x);
        lemma_owed(plan, of, bars, bar_ticks, n, x);
    }
    assert(left =~= right);
    assert forall|bar: int, i: int, j: int|
        #![trigger due_in_bar(plan, bar, bar_ticks, groups)[i], due_in_bar(plan, bar, bar_ticks, groups)[j]]
        0 <= i <= j < due_in_bar(plan, bar, bar_ticks, groups).len() implies {
        let a = due_in_bar(plan, bar, bar_ticks, groups)[i];
        let b = due_in_bar(plan, bar, bar_ticks, groups)[j];
        a.tick() < b.tick() || (a.tick() == b.tick() && a.turn() <= b.turn())
    } by {
        law_events_in_due_order(
            events_of(plan, of, bar * bar_ticks, bar_ticks, n),
            i,
            j,
        );
    }
}

proof fn lemma_in_bar(events: Seq<EventModel>, bar: int, x: (int, EventModel))
    ensures
        in_bar(events, bar).to_multiset().count(x) == (if x.0 == bar {
            events.to_multiset().count(x.1)
        } else {
            0
        }),
    decreases events.len(),
{
    broadcast use vstd::multiset::group_multiset_axioms;

    if events.len() == 0 {
        events.to_multiset_ensures();
        in_bar(events, bar).to_multiset_ensures();
        vstd::seq_lib::to_multiset_contains(events, x.1);
        vstd::seq_lib::to_multiset_contains(in_bar(events, bar), x);
    } else {
        let front = events.drop_last();
        lemma_in_bar(front, bar, x);
        front.to_multiset_ensures();
        in_bar(front, bar).to_multiset_ensures();
        assert(events =~= front.push(events.last()));
        assert(in_bar(events, bar) =~= in_bar(front, bar).push((bar, events.last())));
    }
}

/// What a loop emits in a bar is what its stabs give that bar.
proof fn lemma_emitted(
    plan: Seq<StabModel>,
    bar_ticks: int,
    groups: int,
    bars: int,
    x: (int, EventModel),
)
    ensures
        ({
            let of = assigned(plan, groups, plan.len() as int).0;
            emitted(plan, bar_ticks, groups, bars).count(x) == (if 0 <= x.0 < bars {
                events_of(plan, of, x.0 * bar_ticks, bar_ticks, plan.len() as int).to_multiset().count(
                    x.1,
                )
            } else {
                0
            })
        }),
    decreases bars,
{
    broadcast use vstd::multiset::group_multiset_axioms;

    if bars > 0 {
        let of = assigned(plan, groups, plan.len() as int).0;
        lemma_emitted(plan, bar_ticks, groups, bars - 1, x);
        lemma_in_bar(due_in_bar(plan, bars - 1, bar_ticks, groups), bars - 1, x);
        lemma_sorted(
            events_of(plan, of, (bars - 1) * bar_ticks, bar_ticks, plan.len() as int),
        );
    }
}

/// What the stabs give a bar of the loop is what they owe it.
proof fn lemma_owed(
    plan: Seq<StabModel>,
    groups: Seq<usize>,
    bars: int,
    bar_ticks: int,
    n: int,
    x: (int, EventModel),
)
    requires
        0 < bar_ticks,
        n <= plan.len(),
        all_inside(plan, bars * bar_ticks),
    ensures
        owed(plan, groups, bar_ticks, n).count(x) == (if 0 <= x.0 < bars {
            events_of(plan, groups, x.0 * bar_ticks, bar_ticks, n).to_multiset().count(x.1)
        } else {
            0
        }),
    decreases n,
{
    broadcast use vstd::multiset::group_multiset_axioms;

    let start = x.0 * bar_ticks;
    if n <= 0 {
        let none = events_of(plan, groups, start, bar_ticks, n);
        vstd::seq_lib::to_multiset_contains(none, x.1);
    } else {
        let stab = plan[n - 1];
        let group = groups[n - 1];
        lemma_owed(plan, groups, bars, bar_ticks, n - 1, x);
        assert(inside(stab, bars * bar_ticks));
        lemma_bar_of(stab.start as int, 0, bars, bar_ticks);
        lemma_bar_of(stab.release() - 1, 0, bars, bar_ticks);
        let events = stab_events(stab, group, start, bar_ticks);
        vstd::seq_lib::lemma_multiset_commutative(
            events_of(plan, groups, start, bar_ticks, n - 1),
            events,
        );
        let on = owed_start(stab, group, bar_ticks);
        let off = owed_release(stab, group, bar_ticks);
        if 0 <= x.0 < bars {
            law_every_stab_starts_and_ends_once(stab, bars, bar_ticks, x.0);
            let first = if on.0 == x.0 {
                seq![on.1]
            } else {
                Seq::empty()
            };
            let second = if off.0 == x.0 {
                seq![off.1]
            } else {
                Seq::empty()
            };
            assert(events =~= first + second);
            vstd::seq_lib::lemma_multiset_commutative(first, second);
            lemma_at_most_one(on.1, x.1);
            lemma_at_most_one(off.1, x.1);
        }
    }
}

proof fn lemma_at_most_one(e: EventModel, x: EventModel)
    ensures
        seq![e].to_multiset().count(x) == (if x == e {
            1nat
        } else {
            0nat
        }),
        Seq::<EventModel>::empty().to_multiset().count(x) == 0,
{
    broadcast use vstd::multiset::group_multiset_axioms;

    let none = Seq::<EventModel>::empty();
    vstd::seq_lib::to_multiset_contains(none, x);
    none.to_multiset_ensures();
    assert(seq![e] =~= none.push(e));
}

/// The tick that a hit falls on, before the loop's end is regarded: the downbeat of its slot, moved
/// by the chord's offset, and so many cells of the bar further.
pub open spec fn falls_at(slot: int, offset: int, step: int, cells: int) -> int {
    slot * BAR_TICKS + offset + step * (BAR_TICKS as int / cells)
}

/// How long a hit on a tick rings: for the hold, of a tick at least and a bar at most, but no further
/// than to where the muted tail of that bar begins, and not at all inside the tail.
pub open spec fn rings_for(hold: int, mute: int, tick: int) -> int {
    let whole = if hold < 1 {
        1
    } else if hold > BAR_TICKS {
        BAR_TICKS as int
    } else {
        hold
    };
    let left = BAR_TICKS - mute - tick % BAR_TICKS as int;
    if mute == 0 || whole <= left {
        whole
    } else if left > 0 {
        left
    } else {
        0
    }
}

/// A sound of some ticks, as stabs of a loop: none where it has no length, one where it ends before
/// the loop does, and otherwise one up to the loop's end and one for the rest from its start.
pub open spec fn pieces(
    tick: int,
    ticks: int,
    notes: Seq<u8>,
    gain: Single,
    length: int,
) -> Multiset<StabModel> {
    let at = tick % length;
    let room = length - at;
    if ticks <= 0 {
        Multiset::empty()
    } else if ticks <= room {
        Multiset::singleton(StabModel { start: at as u64, duration: ticks as u64, notes, gain })
    } else {
        Multiset::singleton(
            StabModel { start: at as u64, duration: room as u64, notes, gain },
        ).insert(StabModel { start: 0, duration: (ticks - room) as u64, notes, gain })
    }
}

/// What the first `n` takes of a slot's pattern sound on one step.
pub open spec fn step_owed(
    p: PatternModel,
    slot: int,
    offset: int,
    notes: Seq<u8>,
    length: int,
    step: int,
    n: int,
) -> Multiset<StabModel>
    decreases n,
{
    if n <= 0 {
        Multiset::empty()
    } else {
        let before = step_owed(p, slot, offset, notes, length, step, n - 1);
        let take = p.layers[n - 1];
        let tick = falls_at(slot, offset, step, p.layers[0].steps.len() as int);
        if step < take.steps.len() && take.steps[step] {
            before.add(
                pieces(
                    tick,
                    rings_for(p.hold as int, p.mute_ticks as int, tick),
                    notes,
                    take.gain,
                    length,
                ),
            )
        } else {
            before
        }
    }
}

/// What a slot's pattern sounds on its first `m` steps.
pub open spec fn steps_owed(
    p: PatternModel,
    slot: int,
    offset: int,
    notes: Seq<u8>,
    length: int,
    m: int,
) -> Multiset<StabModel>
    decreases m,
{
    if m <= 0 {
        Multiset::empty()
    } else {
        steps_owed(p, slot, offset, notes, length, m - 1).add(
            step_owed(p, slot, offset, notes, length, m - 1, p.layers.len() as int),
        )
    }
}

/// What a slot sounds: a rest nothing; a chord with a pattern each hit of each take; a chord without
/// one its notes once, for the ticks that the transport sustains a chord.
pub open spec fn slot_owed(
    slot: SlotModel,
    i: int,
    key: Key,
    sustain: int,
    length: int,
) -> Multiset<StabModel> {
    match slot {
        SlotModel::Rest => Multiset::empty(),
        SlotModel::Chord(e) => match e.pattern {
            Some(p) => steps_owed(
                p,
                i,
                e.offset_ticks as int,
                e.sounding(key),
                length,
                if p.layers.len() == 0 {
                    0
                } else {
                    p.layers[0].steps.len() as int
                },
            ),
            None => pieces(
                i * BAR_TICKS + e.offset_ticks,
                sustain,
                e.sounding(key),
                Single { bits: ONE_BITS },
                length,
            ),
        },
    }
}

/// What the first `n` slots sound.
pub open spec fn slots_owed(slots: Seq<SlotModel>, key: Key, sustain: int, n: int) -> Multiset<
    StabModel,
>
    decreases n,
{
    if n <= 0 {
        Multiset::empty()
    } else {
        slots_owed(slots, key, sustain, n - 1).add(
            slot_owed(slots[n - 1], n - 1, key, sustain, slots.len() * BAR_TICKS),
        )
    }
}

/// The grids of the patterns are no longer than a vector can be.
pub open spec fn grids_fit(slots: Seq<SlotModel>) -> bool {
    forall|i: int|
        0 <= i < slots.len() ==> (#[trigger] slots[i] matches SlotModel::Chord(e) ==> (
        e.pattern matches Some(p) ==> (p.layers.len() > 0 ==> p.layers[0].steps.len()
            <= usize::MAX)))
}

/// A plan holds what its slots sound, no more and no less: for every hit of every take, and for every
/// chord without a pattern, a stab on the tick it falls on around the loop, as long as it rings; a
/// stab that the loop's end cuts goes on at the loop's start.
pub proof fn law_a_plan_is_what_its_slots_sound(slots: Seq<SlotModel>, key: Key, note_length: Single)
    requires
        grids_fit(slots),
    ensures
        planned(slots, key, note_length).to_multiset() == slots_owed(
            slots,
            key,
            sustained(note_length),
            slots.len() as int,
        ),
{
    lemma_sorted(laid_out(slots, key, sustained(note_length), slots.len() as int));
    lemma_sustained(note_length);
    lemma_slots_owed(slots, key, sustained(note_length), slots.len() as int);
}

proof fn lemma_sustained(note_length: Single)
    ensures
        1 <= sustained(note_length) <= BAR_TICKS,
{
}

proof fn lemma_slots_owed(slots: Seq<SlotModel>, key: Key, sustain: int, n: int)
    requires
        n <= slots.len(),
        grids_fit(slots),
        1 <= sustain <= BAR_TICKS,
    ensures
        laid_out(slots, key, sustain, n).to_multiset() == slots_owed(slots, key, sustain, n),
    decreases n,
{
    if n <= 0 {
        lemma_bag_of_none::<StabModel>();
    } else {
        lemma_slots_owed(slots, key, sustain, n - 1);
        let length = slots.len() * BAR_TICKS;
        assert(length >= BAR_TICKS) by (nonlinear_arith)
            requires
                length == slots.len() * BAR_TICKS,
                slots.len() >= 1,
        ;
        let added = match slots[n - 1] {
            SlotModel::Chord(e) => entry_stabs(e, key, (n - 1) * BAR_TICKS, sustain, length),
            SlotModel::Rest => Seq::empty(),
        };
        vstd::seq_lib::lemma_multiset_commutative(laid_out(slots, key, sustain, n - 1), added);
        match slots[n - 1] {
            SlotModel::Rest => {
                lemma_bag_of_none::<StabModel>();
            },
            SlotModel::Chord(e) => {
                let notes = e.sounding(key);
                match e.pattern {
                    None => {
                        lemma_pieces(
                            (n - 1) * BAR_TICKS + e.offset_ticks,
                            sustain,
                            notes,
                            Single { bits: ONE_BITS },
                            length,
                        );
                    },
                    Some(p) => {
                        lemma_steps_owed(p, n - 1, e.offset_ticks as int, notes, length, p.cells());
                    },
                }
            },
        }
    }
}

proof fn lemma_bag_of_none<T>()
    ensures
        Seq::<T>::empty().to_multiset() == Multiset::<T>::empty(),
{
    broadcast use vstd::multiset::group_multiset_axioms;

    let none = Seq::<T>::empty();
    none.to_multiset_ensures();
    assert(none.to_multiset() =~= Multiset::<T>::empty());
}

proof fn lemma_bag_of_some<T>(a: T, b: T)
    ensures
        seq![a].to_multiset() == Multiset::singleton(a),
        seq![a, b].to_multiset() == Multiset::singleton(a).insert(b),
{
    broadcast use vstd::multiset::group_multiset_axioms;

    let none = Seq::<T>::empty();
    lemma_bag_of_none::<T>();
    none.to_multiset_ensures();
    assert(seq![a] =~= none.push(a));
    assert(seq![a].to_multiset() =~= Multiset::singleton(a));
    seq![a].to_multiset_ensures();
    assert(seq![a, b] =~= seq![a].push(b));
}

proof fn lemma_pieces(tick: int, ticks: int, notes: Seq<u8>, gain: Single, length: int)
    requires
        1 <= ticks <= length,
    ensures
        wrapped(tick, ticks, notes, gain, length).to_multiset() == pieces(
            tick,
            ticks,
            notes,
            gain,
            length,
        ),
{
    let at = tick % length;
    let room = length - at;
    vstd::arithmetic::div_mod::lemma_mod_bound(tick, length);
    let whole = StabModel { start: at as u64, duration: ticks as u64, notes, gain };
    let head = StabModel { start: at as u64, duration: room as u64, notes, gain };
    let tail = StabModel { start: 0, duration: (ticks - room) as u64, notes, gain };
    lemma_bag_of_some(whole, whole);
    lemma_bag_of_some(head, tail);
}

/// What is heard of a hit is what rings.
proof fn lemma_hit_owed(
    p: PatternModel,
    slot: int,
    offset: int,
    notes: Seq<u8>,
    length: int,
    step: int,
    gain: Single,
)
    requires
        BAR_TICKS <= length,
        0 <= step < p.cells() <= usize::MAX,
    ensures
        ({
            let tick = falls_at(slot, offset, step, p.layers[0].steps.len() as int);
            hit_stabs(p, slot * BAR_TICKS + offset, (step as usize, gain), notes, length).to_multiset()
                == pieces(
                tick,
                rings_for(p.hold as int, p.mute_ticks as int, tick),
                notes,
                gain,
                length,
            )
        }),
{
    let tick = falls_at(slot, offset, step, p.layers[0].steps.len() as int);
    assert((step as usize) * p.cell_ticks() == step * (BAR_TICKS as int / p.cells()));
    assert(heard_for(p, tick) == rings_for(p.hold as int, p.mute_ticks as int, tick));
    if heard_for(p, tick) == 0 {
        lemma_bag_of_none::<StabModel>();
    } else {
        lemma_pieces(tick, heard_for(p, tick), notes, gain, length);
    }
}

/// The hits on the steps below `m` come first, those of the step `m` next.
proof fn lemma_hits_in_front(layers: Seq<LayerModel>, m: int, n: int)
    requires
        0 <= m <= n,
    ensures
        hits_below(layers, m).len() <= hits_below(layers, n).len(),
        forall|i: int|
            0 <= i < hits_below(layers, m).len() ==> #[trigger] hits_below(layers, n)[i]
                == hits_below(layers, m)[i],
    decreases n - m,
{
    if m < n {
        lemma_hits_in_front(layers, m, n - 1);
    }
}

proof fn lemma_takes_in_front(layers: Seq<LayerModel>, step: int, j: int, n: int)
    requires
        0 <= j <= n,
    ensures
        hits_on(layers, step, j).len() <= hits_on(layers, step, n).len(),
        forall|i: int|
            0 <= i < hits_on(layers, step, j).len() ==> #[trigger] hits_on(layers, step, n)[i]
                == hits_on(layers, step, j)[i],
    decreases n - j,
{
    if j < n {
        lemma_takes_in_front(layers, step, j, n - 1);
    }
}

proof fn lemma_steps_owed(
    p: PatternModel,
    slot: int,
    offset: int,
    notes: Seq<u8>,
    length: int,
    m: int,
)
    requires
        BAR_TICKS <= length,
        0 <= m <= p.cells() <= usize::MAX,
    ensures
        pattern_stabs(
            p,
            slot * BAR_TICKS + offset,
            notes,
            length,
            hits_below(p.layers, m).len() as int,
        ).to_multiset() == steps_owed(p, slot, offset, notes, length, m),
    decreases m,
{
    if m <= 0 {
        lemma_bag_of_none::<StabModel>();
    } else {
        lemma_steps_owed(p, slot, offset, notes, length, m - 1);
        lemma_step_owed(p, slot, offset, notes, length, m - 1, p.layers.len() as int);
    }
}

proof fn lemma_step_owed(
    p: PatternModel,
    slot: int,
    offset: int,
    notes: Seq<u8>,
    length: int,
    step: int,
    n: int,
)
    requires
        BAR_TICKS <= length,
        0 <= step < p.cells() <= usize::MAX,
        0 <= n <= p.layers.len(),
    ensures
        pattern_stabs(
            p,
            slot * BAR_TICKS + offset,
            notes,
            length,
            (hits_below(p.layers, step).len() + hits_on(p.layers, step, n).len()) as int,
        ).to_multiset() == pattern_stabs(
            p,
            slot * BAR_TICKS + offset,
            notes,
            length,
            hits_below(p.layers, step).len() as int,
        ).to_multiset().add(step_owed(p, slot, offset, notes, length, step, n)),
    decreases n,
{
    broadcast use vstd::multiset::group_multiset_axioms;

    let base = slot * BAR_TICKS + offset;
    let front = hits_below(p.layers, step).len() as int;
    let start = pattern_stabs(p, base, notes, length, front).to_multiset();
    if n <= 0 {
        assert(start.add(Multiset::empty()) =~= start);
    } else {
        lemma_step_owed(p, slot, offset, notes, length, step, n - 1);
        let here = front + hits_on(p.layers, step, n - 1).len();
        if p.layers[n - 1].sounds(step) {
            lemma_takes_in_front(p.layers, step, n, p.layers.len() as int);
            lemma_hits_in_front(p.layers, step + 1, p.cells());
            let hits = p.all_hits();
            let taken = hits_on(p.layers, step, n);
            assert(taken[taken.len() - 1] == (step as usize, p.layers[n - 1].gain));
            assert(hits_below(p.layers, step + 1)[here] == hits_on(
                p.layers,
                step,
                p.layers.len() as int,
            )[here - front]);
            assert(hits[here] == (step as usize, p.layers[n - 1].gain));
            let added = hit_stabs(p, base, hits[here], notes, length);
            vstd::seq_lib::lemma_multiset_commutative(
                pattern_stabs(p, base, notes, length, here),
                added,
            );
            lemma_hit_owed(p, slot, offset, notes, length, step, p.layers[n - 1].gain);
            assert(start.add(step_owed(p, slot, offset, notes, length, step, n - 1)).add(
                added.to_multiset(),
            ) =~= start.add(step_owed(p, slot, offset, notes, length, step, n)));
        }
    }
}

/// Every hit of every take starts its chord on its own tick, wherever its offset moves it, forwards or
/// backwards, unless that tick lies in the muted tail of a bar: on the downbeat of its slot plus the
/// offset plus its cells, around the loop. A chord without a pattern starts on its downbeat plus its
/// offset.
pub proof fn law_a_hit_starts_on_its_tick(
    slots: Seq<SlotModel>,
    key: Key,
    note_length: Single,
    i: int,
    take: int,
    step: int,
)
    requires
        grids_fit(slots),
        slots.len() * BAR_TICKS <= u64::MAX,
        0 <= i < slots.len(),
        slots[i] is Chord,
        slots[i]->Chord_0.pattern matches Some(p) ==> {
            &&& 0 <= take < p.layers.len()
            &&& 0 <= step < p.layers[0].steps.len()
            &&& step < p.layers[take].steps.len()
            &&& p.layers[take].steps[step]
        },
    ensures
        ({
            let e = slots[i]->Chord_0;
            let plan = planned(slots, key, note_length);
            match e.pattern {
                Some(p) => {
                    let tick = i * BAR_TICKS + e.offset_ticks + step * (BAR_TICKS as int
                        / p.layers[0].steps.len() as int);
                    tick % BAR_TICKS as int + p.mute_ticks < BAR_TICKS || p.mute_ticks == 0 ==> exists|
                        k: int,
                    |
                        0 <= k < plan.len() && (#[trigger] plan[k]).start == tick % (slots.len()
                            * BAR_TICKS) && plan[k].notes == e.sounding(key) && plan[k].gain
                            == p.layers[take].gain
                },
                None => exists|k: int|
                    0 <= k < plan.len() && (#[trigger] plan[k]).start == (i * BAR_TICKS
                        + e.offset_ticks) % (slots.len() * BAR_TICKS) && plan[k].notes
                        == e.sounding(key) && plan[k].gain == (Single { bits: ONE_BITS }),
            }
        }),
{
    broadcast use vstd::multiset::group_multiset_axioms;

    let e = slots[i]->Chord_0;
    let plan = planned(slots, key, note_length);
    let length = slots.len() * BAR_TICKS;
    let sustain = sustained(note_length);
    assert(length >= BAR_TICKS) by (nonlinear_arith)
        requires
            length == slots.len() * BAR_TICKS,
            slots.len() >= 1,
    ;
    lemma_sustained(note_length);
    law_a_plan_is_what_its_slots_sound(slots, key, note_length);
    plan.to_multiset_ensures();
    let (tick, ticks, gain) = match e.pattern {
        Some(p) => {
            let tick = falls_at(i, e.offset_ticks as int, step, p.layers[0].steps.len() as int);
            (
                tick,
                rings_for(p.hold as int, p.mute_ticks as int, tick),
                p.layers[take].gain,
            )
        },
        None => (i * BAR_TICKS + e.offset_ticks, sustain, Single { bits: ONE_BITS }),
    };
    if ticks > 0 {
        vstd::arithmetic::div_mod::lemma_mod_bound(tick, length);
        let room = length - tick % length;
        let x = StabModel {
            start: (tick % length) as u64,
            duration: (if ticks <= room {
                ticks
            } else {
                room
            }) as u64,
            notes: e.sounding(key),
            gain,
        };
        assert(pieces(tick, ticks, e.sounding(key), gain, length).count(x) > 0);
        if let Some(p) = e.pattern {
            lemma_take_in_step(
                p,
                i,
                e.offset_ticks as int,
                e.sounding(key),
                length,
                step,
                take,
                p.layers.len() as int,
                x,
            );
            lemma_step_in_steps(
                p,
                i,
                e.offset_ticks as int,
                e.sounding(key),
                length,
                step,
                p.layers[0].steps.len() as int,
                x,
            );
        }
        lemma_slot_in_slots(slots, key, sustain, i, slots.len() as int, x);
        assert(plan.contains(x));
        let k = choose|k: int| 0 <= k < plan.len() && plan[k] == x;
        assert(plan[k].start == tick % length);
    }
}

proof fn lemma_take_in_step(
    p: PatternModel,
    slot: int,
    offset: int,
    notes: Seq<u8>,
    length: int,
    step: int,
    take: int,
    n: int,
    x: StabModel,
)
    requires
        0 <= take < n,
        step < p.layers[take].steps.len(),
        p.layers[take].steps[step],
    ensures
        ({
            let tick = falls_at(slot, offset, step, p.layers[0].steps.len() as int);
            step_owed(p, slot, offset, notes, length, step, n).count(x) >= pieces(
                tick,
                rings_for(p.hold as int, p.mute_ticks as int, tick),
                notes,
                p.layers[take].gain,
                length,
            ).count(x)
        }),
    decreases n,
{
    broadcast use vstd::multiset::group_multiset_axioms;

    if take < n - 1 {
        lemma_take_in_step(p, slot, offset, notes, length, step, take, n - 1, x);
    }
}

proof fn lemma_step_in_steps(
    p: PatternModel,
    slot: int,
    offset: int,
    notes: Seq<u8>,
    length: int,
    step: int,
    m: int,
    x: StabModel,
)
    requires
        0 <= step < m,
    ensures
        steps_owed(p, slot, offset, notes, length, m).count(x) >= step_owed(
            p,
            slot,
            offset,
            notes,
            length,
            step,
            p.layers.len() as int,
        ).count(x),
    decreases m,
{
    broadcast use vstd::multiset::group_multiset_axioms;

    if step < m - 1 {
        lemma_step_in_steps(p, slot, offset, notes, length, step, m - 1, x);
    }
}

proof fn lemma_slot_in_slots(
    slots: Seq<SlotModel>,
    key: Key,
    sustain: int,
    i: int,
    n: int,
    x: StabModel,
)
    requires
        0 <= i < n,
    ensures
        slots_owed(slots, key, sustain, n).count(x) >= slot_owed(
            slots[i],
            i,
            key,
            sustain,
            slots.len() * BAR_TICKS,
        ).count(x),
    decreases n,
{
    broadcast use vstd::multiset::group_multiset_axioms;

    if i < n - 1 {
        lemma_slot_in_slots(slots, key, sustain, i, n - 1, x);
    }
}

/// From when on a group is free of what the first `n` stabs sound on it: the release of the last of
/// them, or the loop's start.
pub open spec fn free_after(plan: Seq<StabModel>, of: Seq<usize>, group: int, n: int) -> int
    decreases n,
{
    if n <= 0 {
        0
    } else if of[n - 1] == group {
        plan[n - 1].release()
    } else {
        free_after(plan, of, group, n - 1)
    }
}

/// A stab sounds on the lowest group that is free when it starts; where none is, on the lowest of
/// those that are free soonest.
pub proof fn law_a_stab_takes_the_lowest_free_group(plan: Seq<StabModel>, groups: int, n: int)
    requires
        0 < groups <= usize::MAX,
        0 <= n < plan.len(),
        releases_fit(plan),
    ensures
        ({
            let of = assigned(plan, groups, plan.len() as int).0;
            let g = of[n] as int;
            let start = plan[n].start;
            &&& 0 <= g < groups
            &&& free_after(plan, of, g, n) <= start ==> forall|h: int|
                0 <= h < g ==> #[trigger] free_after(plan, of, h, n) > start
            &&& free_after(plan, of, g, n) > start ==> forall|h: int|
                0 <= h < groups ==> {
                    let then = #[trigger] free_after(plan, of, h, n);
                    then > start && free_after(plan, of, g, n) <= then && (h < g ==> free_after(
                        plan,
                        of,
                        g,
                        n,
                    ) < then)
                }
        }),
{
    let all = plan.len() as int;
    let of = assigned(plan, groups, all).0;
    let free_at = assigned(plan, groups, n).1;
    lemma_assigned_state(plan, groups, n);
    lemma_assigned_in_front(plan, groups, n, all);
    lemma_assigned_in_front(plan, groups, n + 1, all);
    assert forall|h: int| 0 <= h < groups implies free_at[h] == #[trigger] free_after(plan, of, h, n) by {
        lemma_free_after(plan, groups, h, n, all);
    }
    let start = plan[n].start;
    let g = group_for(free_at, start);
    lemma_group_bounded(free_at, start);
    assert(of[n] == assigned(plan, groups, n + 1).0[n]);
    assert(of[n] == g);
    lemma_first_free_bounded(free_at, start, 0);
    match first_free(free_at, start, 0) {
        Some(f) => {
            lemma_none_before(free_at, start, 0, f);
        },
        None => {
            lemma_none_free(free_at, start, 0);
            lemma_soonest_is_least(free_at, groups);
            lemma_soonest_is_lowest(free_at, groups);
        },
    }
    assert forall|h: int| 0 <= h < groups implies #[trigger] free_after(plan, of, h, n)
        == free_at[h] by {
        assert(free_at[h] == free_after(plan, of, h, n));
    }
    assert(free_at[g] == free_after(plan, of, g, n));
}

proof fn lemma_none_before(free_at: Seq<u64>, start: u64, i: int, f: int)
    requires
        0 <= i,
        first_free(free_at, start, i) == Some(f),
    ensures
        forall|g: int| i <= g < f ==> #[trigger] free_at[g] > start,
    decreases free_at.len() - i,
{
    if i < free_at.len() && free_at[i] > start {
        lemma_none_before(free_at, start, i + 1, f);
    }
}

proof fn lemma_soonest_is_lowest(free_at: Seq<u64>, n: int)
    requires
        0 < n <= free_at.len(),
    ensures
        forall|g: int|
            0 <= g < soonest_free(free_at, n) ==> free_at[soonest_free(free_at, n)]
                < #[trigger] free_at[g],
    decreases n,
{
    if n > 1 {
        lemma_soonest_is_lowest(free_at, n - 1);
        lemma_soonest_is_least(free_at, n - 1);
        lemma_soonest_bounded(free_at, n - 1);
    }
}

proof fn lemma_assigned_state(plan: Seq<StabModel>, groups: int, n: int)
    requires
        0 < groups,
        0 <= n,
    ensures
        assigned(plan, groups, n).0.len() == n,
        assigned(plan, groups, n).1.len() == groups,
    decreases n,
{
    if n > 0 {
        lemma_assigned_state(plan, groups, n - 1);
        lemma_group_bounded(assigned(plan, groups, n - 1).1, plan[n - 1].start);
    }
}

proof fn lemma_assigned_in_front(plan: Seq<StabModel>, groups: int, m: int, n: int)
    requires
        0 < groups,
        0 <= m <= n,
    ensures
        forall|i: int|
            0 <= i < m ==> #[trigger] assigned(plan, groups, n).0[i] == assigned(plan, groups, m).0[i],
    decreases n,
{
    if m < n {
        lemma_assigned_in_front(plan, groups, m, n - 1);
        lemma_assigned_state(plan, groups, n - 1);
    }
}

proof fn lemma_free_after(plan: Seq<StabModel>, groups: int, h: int, n: int, all: int)
    requires
        0 < groups <= usize::MAX,
        0 <= h < groups,
        0 <= n <= all <= plan.len(),
        releases_fit(plan),
    ensures
        assigned(plan, groups, n).1[h] == free_after(plan, assigned(plan, groups, all).0, h, n),
    decreases n,
{
    if n > 0 {
        lemma_free_after(plan, groups, h, n - 1, all);
        lemma_assigned_state(plan, groups, n - 1);
        lemma_assigned_in_front(plan, groups, n, all);
        let free_at = assigned(plan, groups, n - 1).1;
        let g = group_for(free_at, plan[n - 1].start);
        lemma_group_bounded(free_at, plan[n - 1].start);
        assert(assigned(plan, groups, all).0[n - 1] == assigned(plan, groups, n).0[n - 1]);
        assert(assigned(plan, groups, n).0[n - 1] == g as usize);
        assert(plan[n - 1].release() <= u64::MAX);
    }
}

/// The metronome clicks on each of the four beats of a bar, strongly on the first and on no other.
pub proof fn law_the_metronome_clicks_on_the_beats(bar_ticks: int, e: EventModel)
    requires
        0 < bar_ticks <= u64::MAX,
        bar_ticks % 4 == 0,
    ensures
        clicks(bar_ticks).len() == 4,
        clicks(bar_ticks).contains(e) <==> (e matches EventModel::Click { at, strong } && (4 * at == 0
            || 4 * at == bar_ticks || 4 * at == 2 * bar_ticks || 4 * at == 3 * bar_ticks) && (strong
            <==> at == 0)),
{
    let all = clicks(bar_ticks);
    let quarter = bar_ticks / 4;
    assert(all[0] == EventModel::Click { at: 0, strong: true });
    assert(all[1] == EventModel::Click { at: quarter as u64, strong: false });
    assert(all[2] == EventModel::Click { at: (2 * quarter) as u64, strong: false });
    assert(all[3] == EventModel::Click { at: (3 * quarter) as u64, strong: false });
    if all.contains(e) {
        let k = choose|k: int| 0 <= k < all.len() && all[k] == e;
        assert(k == 0 || k == 1 || k == 2 || k == 3);
    }
}

/// A chord without a pattern sustains for its fraction of a bar: a note length up to 1 gives the nearest
/// whole number of ticks to that part of the bar, a half upwards, and at least one tick; 1 and more
/// give the whole bar, and nothing or less one tick.
pub proof fn law_the_note_length_is_a_part_of_the_bar(note_length: Single)
    requires
        !note_length.nan(),
    ensures
        ({
            let ticks = sustained(note_length);
            let unit = pow2((-note_length.power()) as nat);
            let exact = BAR_TICKS * note_length.significand();
            &&& 1 <= ticks <= BAR_TICKS
            &&& note_length.bits <= ONE_BITS ==> (2 * ticks - 1) * unit <= 2 * exact < (2 * ticks + 1)
                * unit || ticks == 1 && 2 * exact < unit
            &&& ONE_BITS <= note_length.bits < 0x8000_0000 ==> ticks == BAR_TICKS
            &&& note_length.negative() || note_length.bits == 0 ==> ticks == 1
        }),
{
    let one = Single { bits: ONE_BITS };
    let g = note_length.within(Single { bits: 0 }, one);
    let n = BAR_TICKS as nat;
    law_multiples_are_nearest(g, n);
    law_patterns_up_to_one_are_up_to_one(g);
    let unit = pow2((-g.power()) as nat) as int;
    let r = g.nearest_multiple(n) as int;
    let sig = g.significand() as int;
    vstd::arithmetic::power2::lemma_pow2_pos((-g.power()) as nat);
    assert(r <= 3840) by (nonlinear_arith)
        requires
            (2 * r - 1) * unit <= 2 * (3840 * sig),
            sig <= unit,
            unit > 0,
    ;
    if g.magnitude() == ONE_BITS {
        assert(r == 3840) by (nonlinear_arith)
            requires
                (2 * r - 1) * unit <= 2 * (3840 * sig) < (2 * r + 1) * unit,
                sig == unit,
                unit > 0,
        ;
    }
    if g.magnitude() == 0 {
        assert(r == 0) by (nonlinear_arith)
            requires
                (2 * r - 1) * unit <= 2 * (3840 * sig) < (2 * r + 1) * unit,
                sig == 0,
                unit > 0,
        ;
    }
    if r == 0 {
        assert((2 * r + 1) * unit == unit) by (nonlinear_arith)
            requires
                r == 0,
        ;
    }
}

/// In a bar's due order no event comes before an earlier one, and of the events of one tick the releases
/// come first, then the starts, then the clicks. Nothing is lost or added on the way.
pub proof fn law_releases_come_before_starts(events: Seq<EventModel>, i: int, j: int)
    requires
        0 <= i < j < sorted(events).len(),
    ensures
        ({
            let a = sorted(events)[i];
            let b = sorted(events)[j];
            let at = match a {
                EventModel::On { at, group, notes, gain } => at,
                EventModel::Off { at, group } => at,
                EventModel::Click { at, strong } => at,
            };
            let then = match b {
                EventModel::On { at, group, notes, gain } => at,
                EventModel::Off { at, group } => at,
                EventModel::Click { at, strong } => at,
            };
            &&& at <= then
            &&& at == then && b is Off ==> a is Off
            &&& at == then && b is On ==> a is Off || a is On
        }),
        sorted(events).to_multiset() == events.to_multiset(),
{
    law_events_in_due_order(events, i, j);
    lemma_sorted(events);
}

} // verus!
