//! Progression data model: entries, clipboard, and edit operations.

use vstd::prelude::*;

use crate::keyboard::{hand_of, KeyPosition, PositionSet};
use crate::music::{
    chord_label, chord_notes, clamped, diatonic_triad, diatonic_triad_label, triad_notes, triad_suffix,
    ChordSpec, Key, ScaleDegree, Transformation, NOTE_NAMES,
};
use crate::rhythm::{PatternModel, RhythmPattern};

verus! {

/// The furthest a chord may be moved off its own downbeat, in ticks: a whole note, which is one
/// bar, before or after the beginning of the measure.
pub const MAX_OFFSET_TICKS: i32 = 3840;

// -----------------------------------------------------------------------------
// Registers
// -----------------------------------------------------------------------------

/// Per-hand locked position sets.
///
/// `None` means "never set". `Some(empty set)` means "explicitly cleared".
#[derive(Copy, Clone, Debug, PartialEq, Eq)]
pub struct Registers {
    pub left: Option<PositionSet>,
    pub right: Option<PositionSet>,
}

impl Default for Registers {
    fn default() -> (r: Self)
        ensures
            r == (Registers { left: None, right: None }),
    {
        Registers { left: None, right: None }
    }
}

/// What a side contributes: the live hand if it holds anything, else what its register holds.
pub open spec fn side(live: Set<KeyPosition>, register: Option<PositionSet>) -> Set<KeyPosition> {
    if live != Set::<KeyPosition>::empty() {
        live
    } else {
        match register {
            Some(r) => r@,
            None => Set::empty(),
        }
    }
}

fn same_register(a: &Option<PositionSet>, b: &Option<PositionSet>) -> (r: bool)
    ensures
        r == (*a == *b),
{
    match (a, b) {
        (Some(x), Some(y)) => x.same(y),
        (None, None) => true,
        _ => false,
    }
}

impl Registers {
    /// What is heard of live input over the registers.
    pub open spec fn heard(self, live: Set<KeyPosition>) -> Set<KeyPosition> {
        side(hand_of(live, true), self.left).union(side(hand_of(live, false), self.right))
    }

    pub fn lock_right(&mut self, held: &PositionSet)
        ensures
            final(self).right matches Some(s) && s@ == hand_of(held@, false),
            final(self).left == old(self).left,
    {
        self.right = Some(held.hand(false));
    }

    pub fn lock_left(&mut self, held: &PositionSet)
        ensures
            final(self).left matches Some(s) && s@ == hand_of(held@, true),
            final(self).right == old(self).right,
    {
        self.left = Some(held.hand(true));
    }

    /// Latch both hands at once.
    ///
    /// The one-key version of the two register locks: hold a two-handed chord, press once, and both
    /// hands are free. Held over an empty set it captures `Some(empty)` for both sides, the same
    /// "explicitly cleared" state the per-side locks produce, so pressing it twice in a row clears
    /// the registers rather than leaving them at `None`.
    pub fn lock_both(&mut self, held: &PositionSet)
        ensures
            final(self).left matches Some(s) && s@ == hand_of(held@, true),
            final(self).right matches Some(s) && s@ == hand_of(held@, false),
    {
        self.lock_right(held);
        self.lock_left(held);
    }

    /// Combine live input with the registers. Live input wins per side.
    pub fn resolve(&self, live: &PositionSet) -> (r: PositionSet)
        ensures
            r@ == self.heard(live@),
    {
        let live_left: PositionSet = live.hand(true);
        let live_right: PositionSet = live.hand(false);
        let left: PositionSet = if !live_left.is_empty() {
            live_left
        } else {
            match self.left {
                Some(r) => r,
                None => PositionSet::new(),
            }
        };
        let right: PositionSet = if !live_right.is_empty() {
            live_right
        } else {
            match self.right {
                Some(r) => r,
                None => PositionSet::new(),
            }
        };
        left.union(&right)
    }

    pub fn is_empty(&self) -> (r: bool)
        ensures
            r == (self.left is None && self.right is None),
    {
        self.left.is_none() && self.right.is_none()
    }

    /// Whether two pairs of registers are equal.
    pub fn same(&self, other: &Registers) -> (r: bool)
        ensures
            r == (*self == *other),
    {
        same_register(&self.left, &other.left) && same_register(&self.right, &other.right)
    }
}

// -----------------------------------------------------------------------------
// Entries
// -----------------------------------------------------------------------------

#[derive(Debug, PartialEq)]
pub struct ProgressionEntry {
    pub degree: ScaleDegree,
    pub transformation: Option<Transformation>,
    pub registers: Registers,
    /// The rhythm this entry *owns*, or `None` for the whole-bar default.
    ///
    /// An entry owns a **copy**, not a library name. Two chords may both have been given
    /// `Quarters`, but each holds its own instance, so editing the hits on one cannot reach the
    /// other.
    pub pattern: Option<RhythmPattern>,
    /// Signed ticks, clamped to `-MAX_OFFSET_TICKS..=MAX_OFFSET_TICKS`.
    ///
    /// Negative anticipates the chord across the bar line, positive delays it; events that spill
    /// past the loop wrap around.
    pub offset_ticks: i32,
}

/// What an entry holds.
#[verifier::ext_equal]
pub struct EntryModel {
    pub degree: ScaleDegree,
    pub transformation: Option<Transformation>,
    pub registers: Registers,
    pub pattern: Option<PatternModel>,
    pub offset_ticks: i32,
}

/// What an optional pattern holds.
pub open spec fn pattern_of(p: Option<RhythmPattern>) -> Option<PatternModel> {
    match p {
        Some(p) => Some(p@),
        None => None,
    }
}

/// Two optional patterns are equal.
pub open spec fn same_pattern(a: Option<PatternModel>, b: Option<PatternModel>) -> bool {
    match (a, b) {
        (Some(x), Some(y)) => x.same(y),
        (None, None) => true,
        _ => false,
    }
}

impl EntryModel {
    /// The notes of the chord.
    pub open spec fn sounding(self, key: Key) -> Seq<u8> {
        match self.transformation {
            Some(t) => chord_notes(key, ChordSpec { degree: self.degree, transformation: t }),
            None => triad_notes(key, self.degree),
        }
    }

    /// The name of the chord.
    pub open spec fn shown(self, key: Key) -> Seq<char> {
        NOTE_NAMES@[key.root(self.degree) % 12]@ + match self.transformation {
            Some(t) => t.shown(),
            None => triad_suffix(
                triad_notes(key, self.degree)[1] - key.root(self.degree),
                triad_notes(key, self.degree)[2] - key.root(self.degree),
            ),
        }
    }

    /// The entries are equal, gains compared as numbers.
    pub open spec fn same(self, other: EntryModel) -> bool {
        &&& self.degree == other.degree
        &&& self.transformation == other.transformation
        &&& self.registers == other.registers
        &&& same_pattern(self.pattern, other.pattern)
        &&& self.offset_ticks == other.offset_ticks
    }
}

impl View for ProgressionEntry {
    type V = EntryModel;

    open spec fn view(&self) -> EntryModel {
        EntryModel {
            degree: self.degree,
            transformation: self.transformation,
            registers: self.registers,
            pattern: pattern_of(self.pattern),
            offset_ticks: self.offset_ticks,
        }
    }
}

fn copy_pattern(p: &Option<RhythmPattern>) -> (r: Option<RhythmPattern>)
    ensures
        pattern_of(r) == pattern_of(*p),
{
    match p {
        Some(p) => Some(p.clone()),
        None => None,
    }
}

fn pattern_is(a: &Option<RhythmPattern>, b: &Option<RhythmPattern>) -> (r: bool)
    ensures
        r == same_pattern(pattern_of(*a), pattern_of(*b)),
{
    match (a, b) {
        (Some(x), Some(y)) => x.same(y),
        (None, None) => true,
        _ => false,
    }
}

fn transformation_is(a: Option<Transformation>, b: Option<Transformation>) -> (r: bool)
    ensures
        r == (a == b),
{
    match (a, b) {
        (Some(x), Some(y)) => x == y,
        (None, None) => true,
        _ => false,
    }
}

impl Clone for ProgressionEntry {
    fn clone(&self) -> (r: Self)
        ensures
            r@ == self@,
    {
        ProgressionEntry {
            degree: self.degree,
            transformation: self.transformation,
            registers: self.registers,
            pattern: copy_pattern(&self.pattern),
            offset_ticks: self.offset_ticks,
        }
    }
}

impl ProgressionEntry {
    /// A chord with no pattern and no offset.
    pub fn new(degree: ScaleDegree, transformation: Option<Transformation>) -> (r: Self)
        ensures
            r@ == (EntryModel {
                degree,
                transformation,
                registers: Registers { left: None, right: None },
                pattern: None,
                offset_ticks: 0,
            }),
    {
        ProgressionEntry {
            degree,
            transformation,
            registers: Registers::default(),
            pattern: None,
            offset_ticks: 0,
        }
    }

    /// Clamp an offset into the playable range.
    pub fn clamp_offset(ticks: i32) -> (r: i32)
        ensures
            r == clamped(ticks as int, -(MAX_OFFSET_TICKS as int), MAX_OFFSET_TICKS as int),
    {
        if ticks < -MAX_OFFSET_TICKS {
            -MAX_OFFSET_TICKS
        } else if ticks > MAX_OFFSET_TICKS {
            MAX_OFFSET_TICKS
        } else {
            ticks
        }
    }

    pub fn notes(&self, key: &Key) -> (r: Vec<u8>)
        ensures
            r@ == self@.sounding(*key),
    {
        match self.transformation {
            Some(t) => ChordSpec::new(self.degree, t).voice(key),
            None => diatonic_triad(key, self.degree),
        }
    }

    pub fn label(&self, key: &Key) -> (r: String)
        ensures
            r@ == self@.shown(*key),
    {
        match self.transformation {
            Some(t) => chord_label(key, &ChordSpec::new(self.degree, t)),
            None => diatonic_triad_label(key, self.degree),
        }
    }

    /// Whether two entries are equal.
    pub fn same(&self, other: &ProgressionEntry) -> (r: bool)
        ensures
            r == self@.same(other@),
    {
        self.degree == other.degree && transformation_is(self.transformation, other.transformation)
            && self.registers.same(&other.registers) && pattern_is(&self.pattern, &other.pattern)
            && self.offset_ticks == other.offset_ticks
    }
}

#[derive(Debug, PartialEq)]
pub enum Slot {
    Chord(ProgressionEntry),
    Rest,
}

/// What a slot holds.
#[verifier::ext_equal]
pub enum SlotModel {
    Chord(EntryModel),
    Rest,
}

impl SlotModel {
    /// The slots are equal, gains compared as numbers.
    pub open spec fn same(self, other: SlotModel) -> bool {
        match (self, other) {
            (SlotModel::Chord(a), SlotModel::Chord(b)) => a.same(b),
            (SlotModel::Rest, SlotModel::Rest) => true,
            _ => false,
        }
    }
}

impl View for Slot {
    type V = SlotModel;

    open spec fn view(&self) -> SlotModel {
        match self {
            Slot::Chord(e) => SlotModel::Chord(e@),
            Slot::Rest => SlotModel::Rest,
        }
    }
}

/// What each of some slots holds.
pub open spec fn slot_models(slots: Seq<Slot>) -> Seq<SlotModel> {
    slots.map_values(|s: Slot| s@)
}

/// The slots are equal one by one, gains compared as numbers.
pub open spec fn same_slots(a: Seq<SlotModel>, b: Seq<SlotModel>) -> bool {
    &&& a.len() == b.len()
    &&& forall|i: int| 0 <= i < a.len() ==> #[trigger] a[i].same(b[i])
}

impl Clone for Slot {
    fn clone(&self) -> (r: Self)
        ensures
            r@ == self@,
    {
        match self {
            Slot::Chord(e) => Slot::Chord(e.clone()),
            Slot::Rest => Slot::Rest,
        }
    }
}

impl Slot {
    pub fn label(&self, key: &Key) -> (r: String)
        ensures
            r@ == (match self@ {
                SlotModel::Chord(e) => e.shown(*key),
                SlotModel::Rest => "—"@,
            }),
    {
        match self {
            Slot::Chord(e) => e.label(key),
            Slot::Rest => "—".to_owned(),
        }
    }

    /// Whether two slots are equal.
    pub fn same(&self, other: &Slot) -> (r: bool)
        ensures
            r == self@.same(other@),
    {
        match (self, other) {
            (Slot::Chord(a), Slot::Chord(b)) => a.same(b),
            (Slot::Rest, Slot::Rest) => true,
            _ => false,
        }
    }
}

/// A copy of some slots.
pub fn copy_slots(slots: &Vec<Slot>) -> (r: Vec<Slot>)
    ensures
        slot_models(r@) == slot_models(slots@),
{
    let r: Vec<Slot> = slots.clone();
    assert(slot_models(r@) =~= slot_models(slots@));
    r
}

fn slots_are(a: &Vec<Slot>, b: &Vec<Slot>) -> (r: bool)
    ensures
        r == same_slots(slot_models(a@), slot_models(b@)),
{
    if a.len() != b.len() {
        return false;
    }
    for i in 0..a.len()
        invariant
            a@.len() == b@.len(),
            forall|j: int|
                0 <= j < i ==> #[trigger] slot_models(a@)[j].same(slot_models(b@)[j]),
    {
        assert(slot_models(a@)[i as int] == a@[i as int]@);
        assert(slot_models(b@)[i as int] == b@[i as int]@);
        if !a[i].same(&b[i]) {
            assert(!slot_models(a@)[i as int].same(slot_models(b@)[i as int]));
            return false;
        }
    }
    true
}

// -----------------------------------------------------------------------------
// Progression
// -----------------------------------------------------------------------------

/// How many edits deep undo goes before the oldest is discarded.
pub const HISTORY_LIMIT: usize = 128;

pub struct Progression {
    pub slots: Vec<Slot>,
    pub clipboard: Option<ProgressionEntry>,
    /// What can be undone and redone.
    pub edits: EditHistory,
}

/// The snapshots behind undo and redo.
pub struct EditHistory {
    /// Snapshots of the slots taken immediately before each change.
    undo_stack: Vec<Vec<Slot>>,
    /// Snapshots discarded by an undo, available to a redo.
    redo_stack: Vec<Vec<Slot>>,
}

/// What the progression was before each edit, oldest first, and after each undone one.
#[verifier::ext_equal]
pub struct History {
    pub past: Seq<Seq<SlotModel>>,
    pub future: Seq<Seq<SlotModel>>,
}

/// The slots and their history.
#[verifier::ext_equal]
pub struct State {
    pub slots: Seq<SlotModel>,
    pub history: History,
}

/// What each of some snapshots holds.
pub open spec fn snapshots(stack: Seq<Vec<Slot>>) -> Seq<Seq<SlotModel>> {
    stack.map_values(|v: Vec<Slot>| slot_models(v@))
}

impl View for EditHistory {
    type V = History;

    closed spec fn view(&self) -> History {
        History { past: snapshots(self.undo_stack@), future: snapshots(self.redo_stack@) }
    }
}

impl EditHistory {
    /// A history without edits.
    pub fn new() -> (r: Self)
        ensures
            r@ == (History { past: Seq::empty(), future: Seq::empty() }),
    {
        let r: EditHistory = EditHistory { undo_stack: Vec::new(), redo_stack: Vec::new() };
        assert(r@ =~= (History { past: Seq::empty(), future: Seq::empty() }));
        r
    }

    /// Record the state before an edit.
    fn record(&mut self, slots: &Vec<Slot>)
        ensures
            final(self)@ == old(self)@.recorded(slot_models(slots@)),
    {
        let ghost before = self@;
        let snapshot: Vec<Slot> = copy_slots(slots);
        self.undo_stack.push(snapshot);
        assert(snapshots(self.undo_stack@) =~= before.past.push(slot_models(slots@)));
        if self.undo_stack.len() > HISTORY_LIMIT {
            let ghost full = self.undo_stack@;
            let _oldest: Vec<Slot> = self.undo_stack.remove(0);
            assert(snapshots(self.undo_stack@) =~= snapshots(full).drop_first());
        }
        self.redo_stack.clear();
        assert(self@ =~= before.recorded(slot_models(slots@)));
    }

    /// Exchange the slots for the latest of the past; the slots themselves can then be redone.
    fn back(&mut self, slots: &mut Vec<Slot>) -> (r: bool)
        ensures
            r == (old(self)@.past.len() > 0),
            (State { slots: slot_models(final(slots)@), history: final(self)@ }) == (State {
                slots: slot_models(old(slots)@),
                history: old(self)@,
            }).undone(),
    {
        let ghost before = State { slots: slot_models(slots@), history: self@ };
        match self.undo_stack.pop() {
            None => false,
            Some(previous) => {
                let mut moved: Vec<Slot> = previous;
                core::mem::swap(slots, &mut moved);
                self.redo_stack.push(moved);
                assert((State { slots: slot_models(slots@), history: self@ }) =~= before.undone());
                true
            },
        }
    }

    /// Exchange the slots for the latest that was undone; the slots themselves can then be undone.
    fn forth(&mut self, slots: &mut Vec<Slot>) -> (r: bool)
        ensures
            r == (old(self)@.future.len() > 0),
            (State { slots: slot_models(final(slots)@), history: final(self)@ }) == (State {
                slots: slot_models(old(slots)@),
                history: old(self)@,
            }).redone(),
    {
        let ghost before = State { slots: slot_models(slots@), history: self@ };
        match self.redo_stack.pop() {
            None => false,
            Some(next) => {
                let mut moved: Vec<Slot> = next;
                core::mem::swap(slots, &mut moved);
                self.undo_stack.push(moved);
                assert((State { slots: slot_models(slots@), history: self@ }) =~= before.redone());
                true
            },
        }
    }
}

impl History {
    /// The history with one more snapshot: the oldest is discarded past the limit, and nothing is
    /// left to redo.
    pub open spec fn recorded(self, slots: Seq<SlotModel>) -> History {
        let past = self.past.push(slots);
        History {
            past: if past.len() > HISTORY_LIMIT {
                past.drop_first()
            } else {
                past
            },
            future: Seq::empty(),
        }
    }

    /// The history keeps within the limit.
    pub open spec fn bounded(self) -> bool {
        self.past.len() + self.future.len() <= HISTORY_LIMIT
    }
}

impl State {
    /// The state after an edit that leaves `slots`.
    pub open spec fn edited(self, slots: Seq<SlotModel>) -> State {
        State { slots, history: self.history.recorded(self.slots) }
    }

    /// The state after one step back.
    pub open spec fn undone(self) -> State {
        if self.history.past.len() == 0 {
            self
        } else {
            State {
                slots: self.history.past.last(),
                history: History {
                    past: self.history.past.drop_last(),
                    future: self.history.future.push(self.slots),
                },
            }
        }
    }

    /// The state after one step forward.
    pub open spec fn redone(self) -> State {
        if self.history.future.len() == 0 {
            self
        } else {
            State {
                slots: self.history.future.last(),
                history: History {
                    past: self.history.past.push(self.slots),
                    future: self.history.future.drop_last(),
                },
            }
        }
    }

    /// The state with a slot put in at a place, or at the end where there is no such place.
    pub open spec fn with_slot(self, at: int, slot: SlotModel) -> State {
        self.edited(
            self.slots.insert(
                if at < self.slots.len() {
                    at
                } else {
                    self.slots.len() as int
                },
                slot,
            ),
        )
    }

    /// The state with the slot at a place taken out, if there is one.
    pub open spec fn without_slot(self, at: int) -> State {
        if at < self.slots.len() {
            self.edited(self.slots.remove(at))
        } else {
            self
        }
    }

    /// The state with another rhythm for the chord at a place, if there is one and it is another.
    pub open spec fn with_rhythm(self, index: int, pattern: Option<PatternModel>) -> State {
        if self.chord_at(index) && !same_pattern(self.entry(index).pattern, pattern) {
            self.edited(
                self.slots.update(
                    index,
                    SlotModel::Chord(EntryModel { pattern, ..self.entry(index) }),
                ),
            )
        } else {
            self
        }
    }

    /// The state with another offset for the chord at a place, if there is one and it is another; an
    /// offset goes no further than a whole note either way.
    pub open spec fn with_offset(self, index: int, ticks: int) -> State {
        let offset_ticks = clamped(
            ticks,
            -(MAX_OFFSET_TICKS as int),
            MAX_OFFSET_TICKS as int,
        ) as i32;
        if self.chord_at(index) && self.entry(index).offset_ticks != offset_ticks {
            self.edited(
                self.slots.update(
                    index,
                    SlotModel::Chord(EntryModel { offset_ticks, ..self.entry(index) }),
                ),
            )
        } else {
            self
        }
    }

    /// The state with another chord at a place, if there is such a place and it is another: a chord's
    /// rhythm and offset stay.
    pub open spec fn with_chord(
        self,
        index: int,
        degree: ScaleDegree,
        transformation: Option<Transformation>,
        registers: Registers,
    ) -> State {
        let entry = self.entry(index);
        if index >= self.slots.len() || self.chord_at(index) && entry.degree == degree
            && entry.transformation == transformation && entry.registers == registers {
            self
        } else {
            let (pattern, offset_ticks) = if self.chord_at(index) {
                (entry.pattern, entry.offset_ticks)
            } else {
                (None, 0i32)
            };
            self.edited(
                self.slots.update(
                    index,
                    SlotModel::Chord(
                        EntryModel { degree, transformation, registers, pattern, offset_ticks },
                    ),
                ),
            )
        }
    }

    /// The slot at `index` is a chord.
    pub open spec fn chord_at(self, index: int) -> bool {
        0 <= index < self.slots.len() && self.slots[index] is Chord
    }

    /// The entry of the chord at `index`.
    pub open spec fn entry(self, index: int) -> EntryModel {
        self.slots[index]->Chord_0
    }
}

impl Default for Progression {
    fn default() -> (r: Self)
        ensures
            r.state() == (State {
                slots: Seq::empty(),
                history: History { past: Seq::empty(), future: Seq::empty() },
            }),
            r.clipboard is None,
    {
        let r: Progression = Progression {
            slots: Vec::new(),
            clipboard: None,
            edits: EditHistory::new(),
        };
        assert(r.state() =~= (State {
            slots: Seq::empty(),
            history: History { past: Seq::empty(), future: Seq::empty() },
        }));
        r
    }
}

impl Progression {
    /// The slots and their history.
    pub open spec fn state(&self) -> State {
        State { slots: slot_models(self.slots@), history: self.edits@ }
    }

    pub fn new() -> (r: Self)
        ensures
            r.state() == (State {
                slots: Seq::empty(),
                history: History { past: Seq::empty(), future: Seq::empty() },
            }),
            r.clipboard is None,
    {
        Progression::default()
    }

    /// Record the current state so the edit about to happen can be undone.
    ///
    /// Every mutating method calls this, and only once it knows the edit is real, so no-ops never
    /// pollute the history. Recording also discards the redo stack: history becomes a straight line
    /// again after a fresh edit.
    fn record(&mut self)
        ensures
            final(self).slots == old(self).slots,
            final(self).clipboard == old(self).clipboard,
            final(self).edits@ == old(self).edits@.recorded(slot_models(old(self).slots@)),
    {
        self.edits.record(&self.slots);
    }

    pub fn can_undo(&self) -> (r: bool)
        ensures
            r == (self.state().history.past.len() > 0),
    {
        self.edits.undo_stack.len() > 0
    }

    pub fn can_redo(&self) -> (r: bool)
        ensures
            r == (self.state().history.future.len() > 0),
    {
        self.edits.redo_stack.len() > 0
    }

    /// Step back one edit. Returns true if the progression changed.
    pub fn undo(&mut self) -> (r: bool)
        ensures
            r == (old(self).state().history.past.len() > 0),
            final(self).state() == old(self).state().undone(),
            final(self).clipboard == old(self).clipboard,
    {
        self.edits.back(&mut self.slots)
    }

    /// Step forward one undone edit. Returns true if the progression changed.
    pub fn redo(&mut self) -> (r: bool)
        ensures
            r == (old(self).state().history.future.len() > 0),
            final(self).state() == old(self).state().redone(),
            final(self).clipboard == old(self).clipboard,
    {
        self.edits.forth(&mut self.slots)
    }

    pub fn len(&self) -> (r: usize)
        ensures
            r == self.state().slots.len(),
    {
        self.slots.len()
    }

    pub fn is_empty(&self) -> (r: bool)
        ensures
            r == (self.state().slots.len() == 0),
    {
        self.slots.len() == 0
    }

    /// Append a slot to the end.
    pub fn append(&mut self, slot: Slot) -> (r: usize)
        ensures
            r == old(self).state().slots.len(),
            final(self).state() == old(self).state().edited(old(self).state().slots.push(slot@)),
            final(self).state() == old(self).state().with_slot(
                old(self).state().slots.len() as int,
                slot@,
            ),
            final(self).clipboard == old(self).clipboard,
    {
        let ghost before = self.state();
        self.record();
        self.slots.push(slot);
        assert(self.state() =~= before.edited(before.slots.push(slot@)));
        self.slots.len() - 1
    }

    /// Insert a slot at a specific index. If index >= len, appends.
    pub fn insert_at(&mut self, index: usize, slot: Slot) -> (r: usize)
        ensures
            r == (if index < old(self).state().slots.len() {
                index as int
            } else {
                old(self).state().slots.len() as int
            }),
            final(self).state() == old(self).state().edited(
                old(self).state().slots.insert(r as int, slot@),
            ),
            final(self).state() == old(self).state().with_slot(index as int, slot@),
            final(self).clipboard == old(self).clipboard,
    {
        let ghost before = self.state();
        self.record();
        let idx: usize = if index < self.slots.len() { index } else { self.slots.len() };
        self.slots.insert(idx, slot);
        assert(self.state() =~= before.edited(before.slots.insert(idx as int, slot@)));
        idx
    }

    /// Delete the slot at `index`. Returns true if anything was removed.
    pub fn delete(&mut self, index: usize) -> (r: bool)
        ensures
            r == (index < old(self).state().slots.len()),
            final(self).state() == (if r {
                old(self).state().edited(old(self).state().slots.remove(index as int))
            } else {
                old(self).state()
            }),
            final(self).state() == old(self).state().without_slot(index as int),
            final(self).clipboard == old(self).clipboard,
    {
        let ghost before = self.state();
        if index < self.slots.len() {
            self.record();
            let _gone: Slot = self.slots.remove(index);
            assert(self.state() =~= before.edited(before.slots.remove(index as int)));
            true
        } else {
            false
        }
    }

    /// Delete all slots.
    pub fn delete_all(&mut self)
        ensures
            final(self).state() == (if old(self).state().slots.len() > 0 {
                old(self).state().edited(Seq::empty())
            } else {
                old(self).state()
            }),
            final(self).clipboard == old(self).clipboard,
    {
        let ghost before = self.state();
        if self.slots.len() > 0 {
            self.record();
            self.slots.clear();
            assert(self.state() =~= before.edited(Seq::empty()));
        }
    }

    /// Replace every slot in a single undoable edit. Returns true if changed.
    ///
    /// MIDI import installs a whole session at once; recording once means one undo returns to the
    /// previous progression instead of unwinding the import slot by slot.
    pub fn replace(&mut self, slots: Vec<Slot>) -> (r: bool)
        ensures
            r == !same_slots(old(self).state().slots, slot_models(slots@)),
            final(self).state() == (if r {
                old(self).state().edited(slot_models(slots@))
            } else {
                old(self).state()
            }),
            final(self).clipboard == old(self).clipboard,
    {
        let ghost before = self.state();
        if slots_are(&self.slots, &slots) {
            return false;
        }
        self.record();
        self.slots = slots;
        assert(self.state() =~= before.edited(slot_models(slots@)));
        true
    }

    /// Copy the entry at `index` into the clipboard.
    ///
    /// This does not mutate `slots`, so it stays out of the undo history.
    pub fn copy(&mut self, index: usize) -> (r: bool)
        ensures
            r == old(self).state().chord_at(index as int),
            r ==> (final(self).clipboard matches Some(e) && e@ == old(self).state().entry(
                index as int,
            )),
            !r ==> final(self).clipboard == old(self).clipboard,
            final(self).state() == old(self).state(),
    {
        if index >= self.slots.len() {
            return false;
        }
        assert(self.state().slots[index as int] == self.slots@[index as int]@);
        let copied: Option<ProgressionEntry> = match &self.slots[index] {
            Slot::Chord(e) => Some(e.clone()),
            Slot::Rest => None,
        };
        match copied {
            Some(e) => {
                self.clipboard = Some(e);
                true
            },
            None => false,
        }
    }

    /// Paste the clipboard entry after `index`. If `index` is None, append. Returns true if
    /// anything was pasted.
    pub fn paste_after(&mut self, index: Option<usize>) -> (r: bool)
        requires
            old(self).clipboard is Some ==> index != Some(usize::MAX),
        ensures
            r == old(self).clipboard is Some,
            !r ==> final(self).state() == old(self).state(),
            r ==> ({
                let before = old(self).state();
                let pasted = SlotModel::Chord(old(self).clipboard->0@);
                let at = match index {
                    Some(i) => if i + 1 < before.slots.len() {
                        i + 1
                    } else {
                        before.slots.len() as int
                    },
                    None => before.slots.len() as int,
                };
                final(self).state() == before.edited(before.slots.insert(at, pasted))
            }),
            r ==> final(self).state() == old(self).state().with_slot(
                match index {
                    Some(i) => i + 1,
                    None => old(self).state().slots.len() as int,
                },
                SlotModel::Chord(old(self).clipboard->0@),
            ),
            final(self).clipboard == old(self).clipboard,
    {
        let entry: ProgressionEntry = match &self.clipboard {
            Some(e) => e.clone(),
            None => {
                return false;
            },
        };
        match index {
            Some(i) => {
                let _at: usize = self.insert_at(i + 1, Slot::Chord(entry));
                true
            },
            None => {
                let ghost before = self.state();
                let _at: usize = self.append(Slot::Chord(entry));
                assert(before.slots.push(SlotModel::Chord(entry@)) =~= before.slots.insert(
                    before.slots.len() as int,
                    SlotModel::Chord(entry@),
                ));
                true
            },
        }
    }

    /// Give a slot a rhythm, or take its rhythm away.
    ///
    /// One undoable edit, and a no-op for a rest, an out-of-range index, or a value that is already
    /// set, so scrolling a pattern list past the current one never pollutes the history.
    ///
    /// The caller passes a *copy*, which is what keeps two chords from sharing one instance.
    /// Returns whether anything changed.
    pub fn assign_pattern(&mut self, index: usize, pattern: Option<RhythmPattern>) -> (r: bool)
        ensures
            r == (old(self).state().chord_at(index as int) && !same_pattern(
                old(self).state().entry(index as int).pattern,
                pattern_of(pattern),
            )),
            !r ==> final(self).state() == old(self).state(),
            r ==> final(self).state() == old(self).state().edited(
                old(self).state().slots.update(
                    index as int,
                    SlotModel::Chord(
                        EntryModel {
                            pattern: pattern_of(pattern),
                            ..old(self).state().entry(index as int)
                        },
                    ),
                ),
            ),
            final(self).state() == old(self).state().with_rhythm(index as int, pattern_of(pattern)),
            final(self).clipboard == old(self).clipboard,
    {
        let ghost before = self.state();
        if index >= self.slots.len() {
            return false;
        }
        assert(before.slots[index as int] == self.slots@[index as int]@);
        let changed: ProgressionEntry = match &self.slots[index] {
            Slot::Chord(entry) => {
                if pattern_is(&entry.pattern, &pattern) {
                    return false;
                }
                ProgressionEntry {
                    degree: entry.degree,
                    transformation: entry.transformation,
                    registers: entry.registers,
                    pattern,
                    offset_ticks: entry.offset_ticks,
                }
            },
            Slot::Rest => {
                return false;
            },
        };
        self.record();
        self.slots.set(index, Slot::Chord(changed));
        assert(self.state() =~= before.edited(
            before.slots.update(index as int, SlotModel::Chord(changed@)),
        ));
        true
    }

    /// Move a slot off its downbeat, clamping to the playable range.
    ///
    /// The caller decides the step. Clamping here means no caller can push a chord further than a
    /// whole note.
    pub fn set_offset(&mut self, index: usize, offset_ticks: i32) -> (r: bool)
        ensures
            ({
                let before = old(self).state();
                let offset = clamped(
                    offset_ticks as int,
                    -(MAX_OFFSET_TICKS as int),
                    MAX_OFFSET_TICKS as int,
                ) as i32;
                &&& r == (before.chord_at(index as int) && before.entry(index as int).offset_ticks
                    != offset)
                &&& !r ==> final(self).state() == before
                &&& r ==> final(self).state() == before.edited(
                    before.slots.update(
                        index as int,
                        SlotModel::Chord(
                            EntryModel { offset_ticks: offset, ..before.entry(index as int) },
                        ),
                    ),
                )
            }),
            final(self).state() == old(self).state().with_offset(index as int, offset_ticks as int),
            final(self).clipboard == old(self).clipboard,
    {
        let ghost before = self.state();
        let offset: i32 = ProgressionEntry::clamp_offset(offset_ticks);
        if index >= self.slots.len() {
            return false;
        }
        assert(before.slots[index as int] == self.slots@[index as int]@);
        let changed: ProgressionEntry = match &self.slots[index] {
            Slot::Chord(entry) => {
                if entry.offset_ticks == offset {
                    return false;
                }
                ProgressionEntry {
                    degree: entry.degree,
                    transformation: entry.transformation,
                    registers: entry.registers,
                    pattern: copy_pattern(&entry.pattern),
                    offset_ticks: offset,
                }
            },
            Slot::Rest => {
                return false;
            },
        };
        self.record();
        self.slots.set(index, Slot::Chord(changed));
        assert(self.state() =~= before.edited(
            before.slots.update(index as int, SlotModel::Chord(changed@)),
        ));
        true
    }

    /// Set a slot to a chord, keeping the rhythm it already had.
    ///
    /// The point of the operation: change what a slot *plays* without losing the pattern and offset
    /// assigned to it. Those belong to the entry, not to the chord, so a slot that stabs on the
    /// offbeat keeps stabbing on the offbeat when its chord is swapped out.
    ///
    /// A rest becomes a chord, since a rest has no rhythm to keep.
    ///
    /// One undoable edit; a no-op for an out-of-range index or an unchanged chord.
    pub fn replace_chord(
        &mut self,
        index: usize,
        degree: ScaleDegree,
        transformation: Option<Transformation>,
        registers: Registers,
    ) -> (r: bool)
        ensures
            ({
                let before = old(self).state();
                let kept = before.chord_at(index as int);
                let entry = before.entry(index as int);
                let unchanged = kept && entry.degree == degree && entry.transformation
                    == transformation && entry.registers == registers;
                &&& r == (index < before.slots.len() && !unchanged)
                &&& !r ==> final(self).state() == before
                &&& r ==> final(self).state() == before.edited(
                    before.slots.update(
                        index as int,
                        SlotModel::Chord(
                            EntryModel {
                                degree,
                                transformation,
                                registers,
                                pattern: if kept {
                                    entry.pattern
                                } else {
                                    None
                                },
                                offset_ticks: if kept {
                                    entry.offset_ticks
                                } else {
                                    0
                                },
                            },
                        ),
                    ),
                )
            }),
            final(self).state() == old(self).state().with_chord(
                index as int,
                degree,
                transformation,
                registers,
            ),
            final(self).clipboard == old(self).clipboard,
    {
        let ghost before = self.state();
        if index >= self.slots.len() {
            return false;
        }
        assert(before.slots[index as int] == self.slots@[index as int]@);
        let rhythm: (Option<RhythmPattern>, i32) = match &self.slots[index] {
            Slot::Chord(entry) => {
                if entry.degree == degree && transformation_is(
                    entry.transformation,
                    transformation,
                ) && entry.registers.same(&registers) {
                    return false;
                }
                (copy_pattern(&entry.pattern), entry.offset_ticks)
            },
            Slot::Rest => (None, 0),
        };
        self.record();
        let changed: ProgressionEntry = ProgressionEntry {
            degree,
            transformation,
            registers,
            pattern: rhythm.0,
            offset_ticks: rhythm.1,
        };
        self.slots.set(index, Slot::Chord(changed));
        assert(self.state() =~= before.edited(
            before.slots.update(index as int, SlotModel::Chord(changed@)),
        ));
        true
    }

    /// Move the slot at `index` up one position. Returns true if moved.
    pub fn move_up(&mut self, index: usize) -> (r: bool)
        ensures
            r == (0 < index < old(self).state().slots.len()),
            final(self).state() == (if r {
                old(self).state().edited(swapped(old(self).state().slots, index - 1))
            } else {
                old(self).state()
            }),
            final(self).clipboard == old(self).clipboard,
    {
        let ghost before = self.state();
        if index == 0 || index >= self.slots.len() {
            return false;
        }
        self.record();
        let moved: Slot = self.slots.remove(index);
        self.slots.insert(index - 1, moved);
        assert(self.state() =~= before.edited(swapped(before.slots, index - 1)));
        true
    }

    /// Move the slot at `index` down one position. Returns true if moved.
    pub fn move_down(&mut self, index: usize) -> (r: bool)
        requires
            index < usize::MAX,
        ensures
            r == (index + 1 < old(self).state().slots.len()),
            final(self).state() == (if r {
                old(self).state().edited(swapped(old(self).state().slots, index as int))
            } else {
                old(self).state()
            }),
            final(self).clipboard == old(self).clipboard,
    {
        let ghost before = self.state();
        if index + 1 >= self.slots.len() {
            return false;
        }
        self.record();
        let moved: Slot = self.slots.remove(index);
        self.slots.insert(index + 1, moved);
        assert(self.state() =~= before.edited(swapped(before.slots, index as int)));
        true
    }
}

/// The slots with the one at `i` and the one after it exchanged.
pub open spec fn swapped(slots: Seq<SlotModel>, i: int) -> Seq<SlotModel> {
    slots.update(i, slots[i + 1]).update(i + 1, slots[i])
}

// -----------------------------------------------------------------------------
// Laws
// -----------------------------------------------------------------------------

/// Undoing an edit brings the slots back as they were, and the history too as long as nothing fell
/// off its end.
pub proof fn law_undo_reverses_an_edit(s: State, slots: Seq<SlotModel>)
    ensures
        s.edited(slots).undone().slots == s.slots,
        s.history.past.len() < HISTORY_LIMIT ==> s.edited(slots).undone().history.past
            == s.history.past,
{
    let full = s.history.past.push(s.slots);
    if full.len() > HISTORY_LIMIT {
        assert(full.drop_first().last() == s.slots);
    } else {
        assert(full.drop_last() =~= s.history.past);
    }
}

/// The state after a run of edits, each leaving the slots it names.
pub open spec fn edited_through(s: State, edits: Seq<Seq<SlotModel>>) -> State
    decreases edits.len(),
{
    if edits.len() == 0 {
        s
    } else {
        edited_through(s, edits.drop_last()).edited(edits.last())
    }
}

/// The state after `n` steps back.
pub open spec fn undone_times(s: State, n: int) -> State
    decreases n,
{
    if n <= 0 {
        s
    } else {
        undone_times(s.undone(), n - 1)
    }
}

/// A run of edits within the limit can be unwound whole: as many undos bring the slots back as they
/// were.
pub proof fn law_undo_unwinds_a_run_of_edits(s: State, edits: Seq<Seq<SlotModel>>)
    requires
        edits.len() <= HISTORY_LIMIT,
        s.history.bounded(),
    ensures
        undone_times(edited_through(s, edits), edits.len() as int).slots == s.slots,
    decreases edits.len(),
{
    if edits.len() > 0 {
        let before = edited_through(s, edits.drop_last());
        let back = before.edited(edits.last()).undone();
        law_undo_unwinds_a_run_of_edits(s, edits.drop_last());
        lemma_run_is_remembered(s, edits.drop_last());
        assert(back.slots == before.slots);
        let full = before.history.past.push(before.slots);
        assert(full.drop_last() =~= before.history.past);
        if before.history.past.len() > 0 {
            assert(full.drop_first().drop_last() =~= before.history.past.drop_first());
        }
        lemma_same_way_back(back, before, edits.len() - 1);
    }
}

/// A run of edits is in the past, as far as the limit goes.
proof fn lemma_run_is_remembered(s: State, edits: Seq<Seq<SlotModel>>)
    requires
        s.history.bounded(),
    ensures
        edited_through(s, edits).history.past.len() <= HISTORY_LIMIT,
        edits.len() <= HISTORY_LIMIT ==> edited_through(s, edits).history.past.len() >= edits.len(),
    decreases edits.len(),
{
    if edits.len() > 0 {
        lemma_run_is_remembered(s, edits.drop_last());
    }
}

/// Two states with the same slots and the same latest `n` snapshots unwind to the same slots.
proof fn lemma_same_way_back(a: State, b: State, n: int)
    requires
        a.slots == b.slots,
        0 <= n <= a.history.past.len(),
        n <= b.history.past.len(),
        forall|i: int|
            1 <= i <= n ==> #[trigger] a.history.past[a.history.past.len() - i]
                == b.history.past[b.history.past.len() - i],
    ensures
        undone_times(a, n).slots == undone_times(b, n).slots,
    decreases n,
{
    if n > 0 {
        assert(a.history.past[a.history.past.len() - 1] == b.history.past[b.history.past.len() - 1]);
        let c = a.undone();
        let d = b.undone();
        assert forall|i: int| 1 <= i <= n - 1 implies #[trigger] c.history.past[c.history.past.len()
            - i] == d.history.past[d.history.past.len() - i] by {
            assert(a.history.past[a.history.past.len() - (i + 1)]
                == b.history.past[b.history.past.len() - (i + 1)]);
        }
        lemma_same_way_back(c, d, n - 1);
    }
}

/// Redo takes back an undo, whole.
pub proof fn law_redo_reverses_undo(s: State)
    requires
        s.history.past.len() > 0,
    ensures
        s.undone().redone() == s,
{
    assert(s.undone().redone() =~= s) by {
        assert(s.history.past.drop_last().push(s.history.past.last()) =~= s.history.past);
        assert(s.history.future.push(s.slots).drop_last() =~= s.history.future);
    }
}

/// Undo takes back a redo, whole.
pub proof fn law_undo_reverses_redo(s: State)
    requires
        s.history.future.len() > 0,
    ensures
        s.redone().undone() == s,
{
    assert(s.redone().undone() =~= s) by {
        assert(s.history.future.drop_last().push(s.history.future.last()) =~= s.history.future);
        assert(s.history.past.push(s.slots).drop_last() =~= s.history.past);
    }
}

/// A fresh edit leaves nothing to redo, and something to undo.
pub proof fn law_a_fresh_edit_discards_redo(s: State, slots: Seq<SlotModel>)
    ensures
        s.edited(slots).history.future.len() == 0,
        s.edited(slots).history.past.len() > 0,
        s.edited(slots).redone() == s.edited(slots),
{
}

/// No sequence of edits, undos and redos takes the history past its limit.
pub proof fn law_history_is_bounded(s: State, slots: Seq<SlotModel>)
    requires
        s.history.bounded(),
    ensures
        s.edited(slots).history.bounded(),
        s.undone().history.bounded(),
        s.redone().history.bounded(),
{
}

/// Live input wins on its own side, and leaves the other side to its register.
pub proof fn law_live_wins_per_side(r: Registers, live: Set<KeyPosition>)
    requires
        r.left matches Some(s) ==> hand_of(s@, true) == s@,
        r.right matches Some(s) ==> hand_of(s@, false) == s@,
    ensures
        hand_of(r.heard(live), true) == side(hand_of(live, true), r.left),
        hand_of(r.heard(live), false) == side(hand_of(live, false), r.right),
{
    lemma_hand_of_hand(live);
    let a = side(hand_of(live, true), r.left);
    let b = side(hand_of(live, false), r.right);
    assert(hand_of(a, true) =~= a);
    assert(hand_of(b, false) =~= b);
    assert forall|p: KeyPosition| a.contains(p) implies p.left() by {
        assert(hand_of(a, true).contains(p));
    }
    assert forall|p: KeyPosition| b.contains(p) implies p.right() by {
        assert(hand_of(b, false).contains(p));
    }
    assert(hand_of(r.heard(live), true) =~= a) by {
        assert forall|p: KeyPosition| hand_of(r.heard(live), true).contains(p) == a.contains(p) by {
            crate::keyboard::law_hotkeys_are_no_hands(p);
        }
    }
    assert(hand_of(r.heard(live), false) =~= b) by {
        assert forall|p: KeyPosition| hand_of(r.heard(live), false).contains(p) == b.contains(p) by {
            crate::keyboard::law_hotkeys_are_no_hands(p);
        }
    }
}

proof fn lemma_hand_of_hand(s: Set<KeyPosition>)
    ensures
        hand_of(hand_of(s, true), true) == hand_of(s, true),
        hand_of(hand_of(s, false), false) == hand_of(s, false),
{
    assert(hand_of(hand_of(s, true), true) =~= hand_of(s, true));
    assert(hand_of(hand_of(s, false), false) =~= hand_of(s, false));
}

/// Registers that were latched from a held set play that set's chord with no hand on the keys.
pub proof fn law_latched_registers_replay(r: Registers, held: Set<KeyPosition>)
    requires
        r.left matches Some(s) && s@ == hand_of(held, true),
        r.right matches Some(s) && s@ == hand_of(held, false),
    ensures
        r.heard(Set::empty()) == hand_of(held, true).union(hand_of(held, false)),
{
    assert(hand_of(Set::<KeyPosition>::empty(), true) =~= Set::<KeyPosition>::empty());
    assert(hand_of(Set::<KeyPosition>::empty(), false) =~= Set::<KeyPosition>::empty());
}

/// What is heard, key by key: of a side on which a hand holds anything, the keys that the hand holds;
/// of a side on which it holds nothing, the keys of that side's register, where it was locked.
pub proof fn law_what_is_heard_of_each_side(r: Registers, live: Set<KeyPosition>, p: KeyPosition)
    requires
        r.left matches Some(s) ==> forall|q: KeyPosition| s@.contains(q) ==> q.left(),
        r.right matches Some(s) ==> forall|q: KeyPosition| s@.contains(q) ==> q.right(),
    ensures
        p.left() ==> (r.heard(live).contains(p) <==> if exists|q: KeyPosition|
            live.contains(q) && q.left() {
            live.contains(p)
        } else {
            r.left matches Some(s) && s@.contains(p)
        }),
        p.right() ==> (r.heard(live).contains(p) <==> if exists|q: KeyPosition|
            live.contains(q) && q.right() {
            live.contains(p)
        } else {
            r.right matches Some(s) && s@.contains(p)
        }),
        !p.left() && !p.right() ==> !r.heard(live).contains(p),
{
    crate::keyboard::law_hotkeys_are_no_hands(p);
    let a = hand_of(live, true);
    let b = hand_of(live, false);
    assert((exists|q: KeyPosition| live.contains(q) && q.left()) <==> a
        != Set::<KeyPosition>::empty()) by {
        if exists|q: KeyPosition| live.contains(q) && q.left() {
            let q = choose|q: KeyPosition| live.contains(q) && q.left();
            assert(a.contains(q));
        } else {
            assert(a =~= Set::<KeyPosition>::empty());
        }
    }
    assert((exists|q: KeyPosition| live.contains(q) && q.right()) <==> b
        != Set::<KeyPosition>::empty()) by {
        if exists|q: KeyPosition| live.contains(q) && q.right() {
            let q = choose|q: KeyPosition| live.contains(q) && q.right();
            assert(b.contains(q));
        } else {
            assert(b =~= Set::<KeyPosition>::empty());
        }
    }
}

/// A chord that has a transformation sounds it, and one that has none its plain triad; its rhythm, its
/// offset and its registers have no part in its notes.
pub proof fn law_an_entry_sounds_its_chord(e: EntryModel, f: EntryModel, key: Key)
    ensures
        e.transformation matches Some(t) ==> e.sounding(key) == chord_notes(
            key,
            ChordSpec { degree: e.degree, transformation: t },
        ),
        e.transformation is None ==> e.sounding(key) == triad_notes(key, e.degree),
        e.degree == f.degree && e.transformation == f.transformation ==> e.sounding(key)
            == f.sounding(key) && e.shown(key) == f.shown(key),
{
}

/// An edit is remembered: the slots before it are the newest snapshot, the older ones stay in their
/// order, and only past the limit the oldest is given up.
pub proof fn law_an_edit_is_remembered(s: State, slots: Seq<SlotModel>)
    ensures
        s.edited(slots).slots == slots,
        s.edited(slots).history.past.last() == s.slots,
        s.edited(slots).history.future.len() == 0,
        s.history.past.len() < HISTORY_LIMIT ==> s.edited(slots).history.past == s.history.past.push(
            s.slots,
        ),
        s.history.past.len() == HISTORY_LIMIT ==> s.edited(slots).history.past == s.history.past.skip(
            1,
        ).push(s.slots),
{
    if s.history.past.len() == HISTORY_LIMIT {
        assert(s.edited(slots).history.past =~= s.history.past.skip(1).push(s.slots));
    }
}

/// Moving a slot exchanges it with its neighbour and leaves the others where they are; moving it back
/// undoes it.
pub proof fn law_moving_exchanges_neighbours(slots: Seq<SlotModel>, i: int, j: int)
    requires
        0 <= i,
        i + 1 < slots.len(),
        0 <= j < slots.len(),
    ensures
        swapped(slots, i).len() == slots.len(),
        swapped(slots, i)[i] == slots[i + 1],
        swapped(slots, i)[i + 1] == slots[i],
        j != i && j != i + 1 ==> swapped(slots, i)[j] == slots[j],
        swapped(swapped(slots, i), i) == slots,
{
    assert(swapped(swapped(slots, i), i) =~= slots);
}

/// A slot that is put in stands at its place, or at the end, and the others keep their order: those in
/// front stay, those behind move on by one. Taking it out again leaves what there was.
pub proof fn law_a_slot_is_put_in_and_taken_out(s: State, at: int, slot: SlotModel, j: int)
    requires
        0 <= at,
        0 <= j <= s.slots.len(),
    ensures
        ({
            let place = if at < s.slots.len() {
                at
            } else {
                s.slots.len() as int
            };
            let after = s.with_slot(at, slot);
            &&& after.slots.len() == s.slots.len() + 1
            &&& after.slots[place] == slot
            &&& j < place ==> after.slots[j] == s.slots[j]
            &&& j > place ==> after.slots[j] == s.slots[j - 1]
            &&& after.history.past.last() == s.slots
            &&& after.without_slot(place).slots == s.slots
            &&& at < s.slots.len() ==> s.without_slot(at).slots.len() == s.slots.len() - 1
            &&& at < s.slots.len() ==> s.without_slot(at).history.past.last() == s.slots
            &&& j < at < s.slots.len() ==> s.without_slot(at).slots[j] == s.slots[j]
            &&& at < j < s.slots.len() ==> s.without_slot(at).slots[j - 1] == s.slots[j]
            &&& at >= s.slots.len() ==> s.without_slot(at) == s
        }),
{
    let place = if at < s.slots.len() {
        at
    } else {
        s.slots.len() as int
    };
    let after = s.with_slot(at, slot);
    assert(after.without_slot(place).slots =~= s.slots);
}

/// A state after an edit of one slot: as many slots, all but that one as they were, and the slots before
/// the edit on top of the history, or, where nothing changed, the state as it was.
pub open spec fn touches_one(before: State, after: State, index: int) -> bool {
    &&& after.slots.len() == before.slots.len()
    &&& forall|j: int|
        0 <= j < before.slots.len() && j != index ==> #[trigger] after.slots[j] == before.slots[j]
    &&& after == before || after.history == before.history.recorded(before.slots)
}

/// Giving a slot a rhythm changes its rhythm and nothing else: not its chord, its registers or its offset,
/// and no other slot. A rest has none, and a rhythm that is there already is no edit.
pub proof fn law_a_rhythm_is_all_that_is_assigned(s: State, index: int, pattern: Option<PatternModel>)
    requires
        0 <= index,
    ensures
        ({
            let after = s.with_rhythm(index, pattern);
            &&& touches_one(s, after, index)
            &&& s.chord_at(index) ==> {
                &&& after.chord_at(index)
                &&& after.entry(index).degree == s.entry(index).degree
                &&& after.entry(index).transformation == s.entry(index).transformation
                &&& after.entry(index).registers == s.entry(index).registers
                &&& after.entry(index).offset_ticks == s.entry(index).offset_ticks
                &&& after != s ==> after.entry(index).pattern == pattern
                &&& same_pattern(s.entry(index).pattern, pattern) ==> after == s
                &&& !same_pattern(s.entry(index).pattern, pattern) ==> after.history.past.last()
                    == s.slots && after.entry(index).pattern == pattern
            }
            &&& !s.chord_at(index) ==> after == s
        }),
{
}

/// Moving a chord off its downbeat changes its offset and nothing else: to the ticks that are asked for,
/// within a whole note either way. A rest has none, and an offset that is there already is no edit.
pub proof fn law_an_offset_is_all_that_moves(s: State, index: int, ticks: int)
    requires
        0 <= index,
        i32::MIN <= ticks <= i32::MAX,
    ensures
        ({
            let after = s.with_offset(index, ticks);
            &&& touches_one(s, after, index)
            &&& s.chord_at(index) ==> {
                &&& after.chord_at(index)
                &&& after.entry(index).degree == s.entry(index).degree
                &&& after.entry(index).transformation == s.entry(index).transformation
                &&& after.entry(index).registers == s.entry(index).registers
                &&& after.entry(index).pattern == s.entry(index).pattern
                &&& -3840 <= ticks <= 3840 ==> after.entry(index).offset_ticks == ticks
                &&& ticks > 3840 ==> after.entry(index).offset_ticks == 3840
                &&& ticks < -3840 ==> after.entry(index).offset_ticks == -3840
                &&& after.entry(index).offset_ticks == s.entry(index).offset_ticks ==> after == s
                &&& after.entry(index).offset_ticks != s.entry(index).offset_ticks
                    ==> after.history.past.last() == s.slots
            }
            &&& !s.chord_at(index) ==> after == s
        }),
{
}

/// Setting a slot to a chord changes what it plays and keeps how: the degree, the transformation and the
/// registers are the new ones, the rhythm and the offset those it had. A rest becomes a chord without
/// either. A chord that is there already is no edit.
pub proof fn law_a_replaced_chord_keeps_its_rhythm(
    s: State,
    index: int,
    degree: ScaleDegree,
    transformation: Option<Transformation>,
    registers: Registers,
)
    requires
        0 <= index,
    ensures
        ({
            let after = s.with_chord(index, degree, transformation, registers);
            &&& touches_one(s, after, index)
            &&& index < s.slots.len() ==> {
                &&& after.chord_at(index)
                &&& after.entry(index).degree == degree
                &&& after.entry(index).transformation == transformation
                &&& after.entry(index).registers == registers
                &&& s.chord_at(index) ==> after.entry(index).pattern == s.entry(index).pattern
                    && after.entry(index).offset_ticks == s.entry(index).offset_ticks
                &&& !s.chord_at(index) ==> after.entry(index).pattern is None && after.entry(
                    index,
                ).offset_ticks == 0
                &&& after.slots[index] != s.slots[index] ==> after.history.past.last() == s.slots
            }
            &&& index >= s.slots.len() ==> after == s
            &&& after.slots == s.slots ==> after == s
        }),
{
    let after = s.with_chord(index, degree, transformation, registers);
    if after.slots == s.slots && index < s.slots.len() {
        assert(after.slots[index] == s.slots[index]);
    }
}

} // verus!
