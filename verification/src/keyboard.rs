//! Physical home-row key positions and keyboard layouts.
//!
//! All grammar in this crate operates on `KeyPosition`, never on the characters a layout happens to
//! produce. The QWERTY names are labels, not a claim about the active layout.
//!
//! Three groups of positions exist:
//!
//! - Home-row positions (ten variants, `LeftPinky`..`RightPinky`). These feed the chord grammar.
//!   `is_left` / `is_right` return true only for these. `LeftInner` is the one home-row position
//!   the grammar never uses, so it carries a hotkey instead of a chord meaning.
//! - Below-home-row positions (ten variants, `LeftPinkyBelow`..`RightPinkyBelow`). These are
//!   hotkeys and lock keys; some are deliberately inert.
//! - Four keys of the number row, which are performance controls.
//!
//! No position that `hotkey` returns `Some` for is part of a chord shape. That matters beyond
//! tidiness: the chord grammar matches exact shapes, so an extra position in the held set silently
//! breaks the chord it was added to.

use vstd::prelude::*;

verus! {

/// A physical key. Saved into exported files by name, so the variant names are part of the file
/// format.
#[derive(Copy, Clone, Debug, PartialEq, Eq, Structural, PartialOrd, Ord, Hash)]
pub enum KeyPosition {
    // Home row, left hand, outer -> inner
    LeftPinky,
    LeftRing,
    LeftMiddle,
    LeftIndex,
    LeftInner,
    // Home row, right hand, inner -> outer
    RightInner,
    RightIndex,
    RightMiddle,
    RightRing,
    RightPinky,
    // Below home row, left hand, outer -> inner
    LeftPinkyBelow,
    LeftRingBelow,
    LeftMiddleBelow,
    LeftIndexBelow,
    LeftInnerBelow,
    // Below home row, right hand, inner -> outer
    RightInnerBelow,
    RightIndexBelow,
    RightMiddleBelow,
    RightRingBelow,
    RightPinkyBelow,
    /// The very top-left key, left of `1`: the sinko tap key, which has to stay usable while both
    /// hands hold a chord. On Programmer Dvorak this key is `$`.
    TopLeft,
    /// The number row's `1`, right of `TopLeft`: the metronome toggle. On Programmer Dvorak this
    /// key is `&`.
    TopRow1,
    /// The number row's `3`: the transport tap. On Programmer Dvorak this key is `{`.
    TopRow3,
    /// The number row's `4`. On Programmer Dvorak this key is `}`, the neighbour of the transport
    /// tap and the shape of a mistyped `{`. It does the same thing, because a performance key that
    /// punishes a one-key miss is a performance key that stops the music.
    TopRow4,
}

/// An action bound to a key outside the chord grammar.
#[derive(Copy, Clone, Debug, PartialEq, Eq, Structural)]
pub enum Hotkey {
    /// Latch the right register (left pinky below home row).
    LockRightRegister,
    /// Latch the left register (right pinky below home row).
    LockLeftRegister,
    /// Copy the chord under the progression cursor.
    CopyChord,
    /// Copy the *rhythm* of the chord under the cursor. Shares its position with
    /// [`Hotkey::CopyChord`] and is selected with Shift, so `hotkey()` never returns it.
    CopySinko,
    /// Paste the clipboard after the progression cursor.
    PasteChord,
    /// Give the chord under the cursor a copy of the rhythm clipboard. Shares its position with
    /// [`Hotkey::PasteChord`] and is selected with Shift, so `hotkey()` never returns it.
    PasteSinko,
    /// Delete the chord under the progression cursor.
    DeleteChord,
    /// Undo the last progression edit. Shift selects `Redo` instead.
    Undo,
    /// Redo the last undone progression edit. `hotkey()` never returns it.
    Redo,
    /// Set the selected progression slot to the chord in the registers, keeping that entry's rhythm
    /// pattern and offset.
    ReplaceChord,
    /// Recall the chord under the progression cursor into the registers.
    LoadSelectedChord,
    /// Tap one beat of the rhythm being recorded in the Sinko panel.
    SinkoTap,
    /// Start or stop the metronome click.
    MetronomeToggle,
    /// Tap the transport: once plays or pauses, twice restarts from bar 1, three times seeks to the
    /// middle.
    TransportTap,
}

impl KeyPosition {
    /// A home-row position of the left hand.
    pub open spec fn left(self) -> bool {
        self is LeftPinky || self is LeftRing || self is LeftMiddle || self is LeftIndex || self is LeftInner
    }

    /// A home-row position of the right hand.
    pub open spec fn right(self) -> bool {
        self is RightInner || self is RightIndex || self is RightMiddle || self is RightRing || self is RightPinky
    }

    /// The action bound to the position.
    pub open spec fn action(self) -> Option<Hotkey> {
        match self {
            KeyPosition::LeftInner => Some(Hotkey::LoadSelectedChord),
            KeyPosition::LeftPinkyBelow => Some(Hotkey::LockRightRegister),
            KeyPosition::RightPinkyBelow => Some(Hotkey::LockLeftRegister),
            KeyPosition::LeftRingBelow => Some(Hotkey::CopyChord),
            KeyPosition::LeftMiddleBelow => Some(Hotkey::PasteChord),
            KeyPosition::LeftIndexBelow => Some(Hotkey::DeleteChord),
            KeyPosition::LeftInnerBelow => Some(Hotkey::Undo),
            KeyPosition::RightInnerBelow => Some(Hotkey::ReplaceChord),
            KeyPosition::TopLeft => Some(Hotkey::SinkoTap),
            KeyPosition::TopRow1 => Some(Hotkey::MetronomeToggle),
            KeyPosition::TopRow3 | KeyPosition::TopRow4 => Some(Hotkey::TransportTap),
            _ => None,
        }
    }

    /// The place of the position in the order of the declaration.
    pub open spec fn ordinal(self) -> int {
        match self {
            KeyPosition::LeftPinky => 0,
            KeyPosition::LeftRing => 1,
            KeyPosition::LeftMiddle => 2,
            KeyPosition::LeftIndex => 3,
            KeyPosition::LeftInner => 4,
            KeyPosition::RightInner => 5,
            KeyPosition::RightIndex => 6,
            KeyPosition::RightMiddle => 7,
            KeyPosition::RightRing => 8,
            KeyPosition::RightPinky => 9,
            KeyPosition::LeftPinkyBelow => 10,
            KeyPosition::LeftRingBelow => 11,
            KeyPosition::LeftMiddleBelow => 12,
            KeyPosition::LeftIndexBelow => 13,
            KeyPosition::LeftInnerBelow => 14,
            KeyPosition::RightInnerBelow => 15,
            KeyPosition::RightIndexBelow => 16,
            KeyPosition::RightMiddleBelow => 17,
            KeyPosition::RightRingBelow => 18,
            KeyPosition::RightPinkyBelow => 19,
            KeyPosition::TopLeft => 20,
            KeyPosition::TopRow1 => 21,
            KeyPosition::TopRow3 => 22,
            KeyPosition::TopRow4 => 23,
        }
    }

    /// The position at a place of the order of the declaration.
    pub open spec fn nth(i: int) -> KeyPosition {
        if i == 0 {
            KeyPosition::LeftPinky
        } else if i == 1 {
            KeyPosition::LeftRing
        } else if i == 2 {
            KeyPosition::LeftMiddle
        } else if i == 3 {
            KeyPosition::LeftIndex
        } else if i == 4 {
            KeyPosition::LeftInner
        } else if i == 5 {
            KeyPosition::RightInner
        } else if i == 6 {
            KeyPosition::RightIndex
        } else if i == 7 {
            KeyPosition::RightMiddle
        } else if i == 8 {
            KeyPosition::RightRing
        } else if i == 9 {
            KeyPosition::RightPinky
        } else if i == 10 {
            KeyPosition::LeftPinkyBelow
        } else if i == 11 {
            KeyPosition::LeftRingBelow
        } else if i == 12 {
            KeyPosition::LeftMiddleBelow
        } else if i == 13 {
            KeyPosition::LeftIndexBelow
        } else if i == 14 {
            KeyPosition::LeftInnerBelow
        } else if i == 15 {
            KeyPosition::RightInnerBelow
        } else if i == 16 {
            KeyPosition::RightIndexBelow
        } else if i == 17 {
            KeyPosition::RightMiddleBelow
        } else if i == 18 {
            KeyPosition::RightRingBelow
        } else if i == 19 {
            KeyPosition::RightPinkyBelow
        } else if i == 20 {
            KeyPosition::TopLeft
        } else if i == 21 {
            KeyPosition::TopRow1
        } else if i == 22 {
            KeyPosition::TopRow3
        } else {
            KeyPosition::TopRow4
        }
    }

    /// The keycap of the position on a QWERTY keyboard.
    pub open spec fn keycap(self) -> char {
        match self {
            KeyPosition::LeftPinky => 'a',
            KeyPosition::LeftRing => 's',
            KeyPosition::LeftMiddle => 'd',
            KeyPosition::LeftIndex => 'f',
            KeyPosition::LeftInner => 'g',
            KeyPosition::RightInner => 'h',
            KeyPosition::RightIndex => 'j',
            KeyPosition::RightMiddle => 'k',
            KeyPosition::RightRing => 'l',
            KeyPosition::RightPinky => ';',
            KeyPosition::LeftPinkyBelow => 'z',
            KeyPosition::LeftRingBelow => 'x',
            KeyPosition::LeftMiddleBelow => 'c',
            KeyPosition::LeftIndexBelow => 'v',
            KeyPosition::LeftInnerBelow => 'b',
            KeyPosition::RightInnerBelow => 'n',
            KeyPosition::RightIndexBelow => 'm',
            KeyPosition::RightMiddleBelow => ',',
            KeyPosition::RightRingBelow => '.',
            KeyPosition::RightPinkyBelow => '/',
            KeyPosition::TopLeft => '`',
            KeyPosition::TopRow1 => '1',
            KeyPosition::TopRow3 => '3',
            KeyPosition::TopRow4 => '4',
        }
    }

    /// True if this is a home-row left-hand position (chord grammar).
    pub fn is_left(self) -> (r: bool)
        ensures
            r == self.left(),
    {
        match self {
            KeyPosition::LeftPinky
            | KeyPosition::LeftRing
            | KeyPosition::LeftMiddle
            | KeyPosition::LeftIndex
            | KeyPosition::LeftInner => true,
            _ => false,
        }
    }

    /// True if this is a home-row right-hand position (chord grammar).
    pub fn is_right(self) -> (r: bool)
        ensures
            r == self.right(),
    {
        match self {
            KeyPosition::RightInner
            | KeyPosition::RightIndex
            | KeyPosition::RightMiddle
            | KeyPosition::RightRing
            | KeyPosition::RightPinky => true,
            _ => false,
        }
    }

    /// True if this is a home-row position of either hand.
    pub fn is_home_row(self) -> (r: bool)
        ensures
            r == (self.left() || self.right()),
    {
        self.is_left() || self.is_right()
    }

    /// If this position is bound to a hotkey, which one.
    ///
    /// The left pinky below home row locks the *right* register, and vice versa: the gesture
    /// mirrors the register being targeted.
    ///
    /// `Redo`, `CopySinko` and `PasteSinko` are never returned: they share a position with another
    /// action and are selected with Shift by the input layer, so this stays a pure function of the
    /// physical key.
    pub fn hotkey(self) -> (r: Option<Hotkey>)
        ensures
            r == self.action(),
    {
        match self {
            KeyPosition::LeftInner => Some(Hotkey::LoadSelectedChord),
            KeyPosition::LeftPinkyBelow => Some(Hotkey::LockRightRegister),
            KeyPosition::RightPinkyBelow => Some(Hotkey::LockLeftRegister),
            KeyPosition::LeftRingBelow => Some(Hotkey::CopyChord),
            KeyPosition::LeftMiddleBelow => Some(Hotkey::PasteChord),
            KeyPosition::LeftIndexBelow => Some(Hotkey::DeleteChord),
            KeyPosition::LeftInnerBelow => Some(Hotkey::Undo),
            KeyPosition::RightInnerBelow => Some(Hotkey::ReplaceChord),
            KeyPosition::TopLeft => Some(Hotkey::SinkoTap),
            KeyPosition::TopRow1 => Some(Hotkey::MetronomeToggle),
            KeyPosition::TopRow3 | KeyPosition::TopRow4 => Some(Hotkey::TransportTap),
            _ => None,
        }
    }

    /// The QWERTY character at this physical position. Used for all display.
    pub fn qwerty_label(self) -> (r: char)
        ensures
            r == self.keycap(),
    {
        match self {
            KeyPosition::LeftPinky => 'a',
            KeyPosition::LeftRing => 's',
            KeyPosition::LeftMiddle => 'd',
            KeyPosition::LeftIndex => 'f',
            KeyPosition::LeftInner => 'g',
            KeyPosition::RightInner => 'h',
            KeyPosition::RightIndex => 'j',
            KeyPosition::RightMiddle => 'k',
            KeyPosition::RightRing => 'l',
            KeyPosition::RightPinky => ';',
            KeyPosition::LeftPinkyBelow => 'z',
            KeyPosition::LeftRingBelow => 'x',
            KeyPosition::LeftMiddleBelow => 'c',
            KeyPosition::LeftIndexBelow => 'v',
            KeyPosition::LeftInnerBelow => 'b',
            KeyPosition::RightInnerBelow => 'n',
            KeyPosition::RightIndexBelow => 'm',
            KeyPosition::RightMiddleBelow => ',',
            KeyPosition::RightRingBelow => '.',
            KeyPosition::RightPinkyBelow => '/',
            KeyPosition::TopLeft => '`',
            KeyPosition::TopRow1 => '1',
            KeyPosition::TopRow3 => '3',
            KeyPosition::TopRow4 => '4',
        }
    }

    /// The place of the position in the order of the declaration.
    fn index(self) -> (r: usize)
        ensures
            r == self.ordinal(),
            r < 24,
    {
        match self {
            KeyPosition::LeftPinky => 0,
            KeyPosition::LeftRing => 1,
            KeyPosition::LeftMiddle => 2,
            KeyPosition::LeftIndex => 3,
            KeyPosition::LeftInner => 4,
            KeyPosition::RightInner => 5,
            KeyPosition::RightIndex => 6,
            KeyPosition::RightMiddle => 7,
            KeyPosition::RightRing => 8,
            KeyPosition::RightPinky => 9,
            KeyPosition::LeftPinkyBelow => 10,
            KeyPosition::LeftRingBelow => 11,
            KeyPosition::LeftMiddleBelow => 12,
            KeyPosition::LeftIndexBelow => 13,
            KeyPosition::LeftInnerBelow => 14,
            KeyPosition::RightInnerBelow => 15,
            KeyPosition::RightIndexBelow => 16,
            KeyPosition::RightMiddleBelow => 17,
            KeyPosition::RightRingBelow => 18,
            KeyPosition::RightPinkyBelow => 19,
            KeyPosition::TopLeft => 20,
            KeyPosition::TopRow1 => 21,
            KeyPosition::TopRow3 => 22,
            KeyPosition::TopRow4 => 23,
        }
    }
}

/// Every position, in the order of the declaration.
fn all_positions() -> (r: [KeyPosition; 24])
    ensures
        forall|i: int| 0 <= i < 24 ==> (#[trigger] r@[i]).ordinal() == i,
{
    [
        KeyPosition::LeftPinky,
        KeyPosition::LeftRing,
        KeyPosition::LeftMiddle,
        KeyPosition::LeftIndex,
        KeyPosition::LeftInner,
        KeyPosition::RightInner,
        KeyPosition::RightIndex,
        KeyPosition::RightMiddle,
        KeyPosition::RightRing,
        KeyPosition::RightPinky,
        KeyPosition::LeftPinkyBelow,
        KeyPosition::LeftRingBelow,
        KeyPosition::LeftMiddleBelow,
        KeyPosition::LeftIndexBelow,
        KeyPosition::LeftInnerBelow,
        KeyPosition::RightInnerBelow,
        KeyPosition::RightIndexBelow,
        KeyPosition::RightMiddleBelow,
        KeyPosition::RightRingBelow,
        KeyPosition::RightPinkyBelow,
        KeyPosition::TopLeft,
        KeyPosition::TopRow1,
        KeyPosition::TopRow3,
        KeyPosition::TopRow4,
    ]
}

#[derive(Copy, Clone, Debug, PartialEq, Eq, Structural)]
pub enum Layout {
    Qwerty,
    ProgrammerDvorak,
}

/// The active input layout. Change this line to switch.
pub const ACTIVE_LAYOUT: Layout = Layout::ProgrammerDvorak;

/// A character without ASCII capitals.
pub open spec fn lower(c: char) -> char {
    if 'A' <= c && c <= 'Z' {
        (c as u32 + 32) as char
    } else {
        c
    }
}

/// `c` without ASCII capitals.
fn to_lower(c: char) -> (r: char)
    ensures
        r == lower(c),
{
    if 'A' <= c && c <= 'Z' {
        ((c as u8) + 32) as char
    } else {
        c
    }
}

impl Layout {
    /// The key at `p` types `c`, capitals left aside. Keys outside the letters also count by the
    /// other half of their keycap where it is bound.
    pub open spec fn types(self, p: KeyPosition, c: char) -> bool {
        match self {
            Layout::Qwerty => c == p.keycap() || match p {
                KeyPosition::TopLeft => c == '~',
                KeyPosition::TopRow1 => c == '!',
                KeyPosition::TopRow3 => c == '#',
                KeyPosition::TopRow4 => c == '$',
                _ => false,
            },
            Layout::ProgrammerDvorak => match p {
                KeyPosition::LeftPinky => c == 'a',
                KeyPosition::LeftRing => c == 'o',
                KeyPosition::LeftMiddle => c == 'e',
                KeyPosition::LeftIndex => c == 'u',
                KeyPosition::LeftInner => c == 'i',
                KeyPosition::RightInner => c == 'd',
                KeyPosition::RightIndex => c == 'h',
                KeyPosition::RightMiddle => c == 't',
                KeyPosition::RightRing => c == 'n',
                KeyPosition::RightPinky => c == 's',
                KeyPosition::LeftPinkyBelow => c == '\'',
                KeyPosition::LeftRingBelow => c == 'q',
                KeyPosition::LeftMiddleBelow => c == 'j',
                KeyPosition::LeftIndexBelow => c == 'k',
                KeyPosition::LeftInnerBelow => c == 'x',
                KeyPosition::RightInnerBelow => c == 'b',
                KeyPosition::RightIndexBelow => c == 'm',
                KeyPosition::RightMiddleBelow => c == 'w',
                KeyPosition::RightRingBelow => c == 'v',
                KeyPosition::RightPinkyBelow => c == 'z',
                KeyPosition::TopLeft => c == '$' || c == '~',
                KeyPosition::TopRow1 => c == '&' || c == '1',
                KeyPosition::TopRow3 => c == '{' || c == '3',
                KeyPosition::TopRow4 => c == '}' || c == '4',
            },
        }
    }

    /// Translate a character from the terminal into a physical position. The only place the active
    /// layout matters.
    ///
    /// Both shifted and unshifted variants are accepted where they map to the same physical key.
    /// Lock and hotkey positions are included.
    pub fn position(self, c: char) -> (r: Option<KeyPosition>)
        ensures
            match r {
                Some(p) => self.types(p, lower(c)),
                None => forall|p: KeyPosition| !self.types(p, lower(c)),
            },
    {
        let c: char = to_lower(c);
        match self {
            Layout::Qwerty => match c {
                'a' => Some(KeyPosition::LeftPinky),
                's' => Some(KeyPosition::LeftRing),
                'd' => Some(KeyPosition::LeftMiddle),
                'f' => Some(KeyPosition::LeftIndex),
                'g' => Some(KeyPosition::LeftInner),
                'h' => Some(KeyPosition::RightInner),
                'j' => Some(KeyPosition::RightIndex),
                'k' => Some(KeyPosition::RightMiddle),
                'l' => Some(KeyPosition::RightRing),
                ';' => Some(KeyPosition::RightPinky),
                'z' => Some(KeyPosition::LeftPinkyBelow),
                'x' => Some(KeyPosition::LeftRingBelow),
                'c' => Some(KeyPosition::LeftMiddleBelow),
                'v' => Some(KeyPosition::LeftIndexBelow),
                'b' => Some(KeyPosition::LeftInnerBelow),
                'n' => Some(KeyPosition::RightInnerBelow),
                'm' => Some(KeyPosition::RightIndexBelow),
                ',' => Some(KeyPosition::RightMiddleBelow),
                '.' => Some(KeyPosition::RightRingBelow),
                '/' => Some(KeyPosition::RightPinkyBelow),
                '`' | '~' => Some(KeyPosition::TopLeft),
                '1' | '!' => Some(KeyPosition::TopRow1),
                '3' | '#' => Some(KeyPosition::TopRow3),
                '4' | '$' => Some(KeyPosition::TopRow4),
                _ => None,
            },
            Layout::ProgrammerDvorak => match c {
                'a' => Some(KeyPosition::LeftPinky),
                'o' => Some(KeyPosition::LeftRing),
                'e' => Some(KeyPosition::LeftMiddle),
                'u' => Some(KeyPosition::LeftIndex),
                'i' => Some(KeyPosition::LeftInner),
                'd' => Some(KeyPosition::RightInner),
                'h' => Some(KeyPosition::RightIndex),
                't' => Some(KeyPosition::RightMiddle),
                'n' => Some(KeyPosition::RightRing),
                's' => Some(KeyPosition::RightPinky),
                '\'' => Some(KeyPosition::LeftPinkyBelow),
                'q' => Some(KeyPosition::LeftRingBelow),
                'j' => Some(KeyPosition::LeftMiddleBelow),
                'k' => Some(KeyPosition::LeftIndexBelow),
                'x' => Some(KeyPosition::LeftInnerBelow),
                'b' => Some(KeyPosition::RightInnerBelow),
                'm' => Some(KeyPosition::RightIndexBelow),
                'w' => Some(KeyPosition::RightMiddleBelow),
                'v' => Some(KeyPosition::RightRingBelow),
                'z' => Some(KeyPosition::RightPinkyBelow),
                '$' | '~' => Some(KeyPosition::TopLeft),
                '&' | '1' => Some(KeyPosition::TopRow1),
                '{' | '3' => Some(KeyPosition::TopRow3),
                '}' | '4' => Some(KeyPosition::TopRow4),
                _ => None,
            },
        }
    }

    /// The name shown for the layout.
    pub open spec fn shown(self) -> Seq<char> {
        match self {
            Layout::Qwerty => "QWERTY"@,
            Layout::ProgrammerDvorak => "Programmer Dvorak"@,
        }
    }

    pub fn name(self) -> (r: &'static str)
        ensures
            r@ == self.shown(),
    {
        match self {
            Layout::Qwerty => "QWERTY",
            Layout::ProgrammerDvorak => "Programmer Dvorak",
        }
    }

    /// The register-lock keys as `(keycap, character typed)`, for the right and left registers.
    pub fn register_lock_keys(self) -> (r: ((char, char), (char, char)))
        ensures
            r.0.0 == KeyPosition::LeftPinkyBelow.keycap(),
            self.types(KeyPosition::LeftPinkyBelow, r.0.1),
            r.1.0 == KeyPosition::RightPinkyBelow.keycap(),
            self.types(KeyPosition::RightPinkyBelow, r.1.1),
    {
        match self {
            Layout::ProgrammerDvorak => (('z', '\''), ('/', 'z')),
            Layout::Qwerty => (('z', 'z'), ('/', '/')),
        }
    }
}

// -----------------------------------------------------------------------------
// Position sets
// -----------------------------------------------------------------------------

/// A set of physical positions held together as one chord.
#[derive(Copy, Clone, Debug, PartialEq, Eq)]
pub struct PositionSet {
    held: [bool; 24],
}

impl View for PositionSet {
    type V = Set<KeyPosition>;

    closed spec fn view(&self) -> Set<KeyPosition> {
        Set::new(|p: KeyPosition| self.held@[p.ordinal()])
    }
}

impl Default for PositionSet {
    fn default() -> (r: Self)
        ensures
            r@ == Set::<KeyPosition>::empty(),
    {
        PositionSet::new()
    }
}

impl PositionSet {
    /// The set without positions.
    pub fn new() -> (r: Self)
        ensures
            r@ == Set::<KeyPosition>::empty(),
    {
        let r: PositionSet = PositionSet { held: [false; 24] };
        assert(r@ =~= Set::<KeyPosition>::empty());
        r
    }

    /// The set of some positions.
    pub fn from_positions(positions: &[KeyPosition]) -> (r: Self)
        ensures
            r@ == positions@.to_set(),
    {
        let mut r: PositionSet = PositionSet::new();
        for i in 0..positions.len()
            invariant
                r@ == positions@.take(i as int).to_set(),
        {
            r.insert(positions[i]);
            let ghost more = positions@.take(i + 1);
            assert(more =~= positions@.take(i as int).push(positions@[i as int]));
            assert(more.to_set() =~= positions@.take(i as int).to_set().insert(
                positions@[i as int],
            )) by {
                assert(more.last() == positions@[i as int]);
                assert forall|p: KeyPosition| positions@.take(i as int).contains(p) implies more.contains(p) by {
                    let k = choose|k: int| 0 <= k < i && positions@.take(i as int)[k] == p;
                    assert(more[k] == p);
                }
            }
        }
        assert(positions@.take(positions@.len() as int) =~= positions@);
        r
    }

    /// Put `p` into the set.
    pub fn insert(&mut self, p: KeyPosition)
        ensures
            final(self)@ == old(self)@.insert(p),
    {
        let ghost before = self@;
        let i: usize = p.index();
        self.held[i] = true;
        assert(self@ =~= before.insert(p)) by {
            assert forall|q: KeyPosition| self@.contains(q) == before.insert(p).contains(q) by {
                lemma_ordinal_injective(p, q);
            }
        }
    }

    /// Whether `p` is in the set.
    pub fn contains(&self, p: &KeyPosition) -> (r: bool)
        ensures
            r == self@.contains(*p),
    {
        self.held[p.index()]
    }

    /// The positions of the set, in the order of the declaration.
    pub fn positions(&self) -> (r: Vec<KeyPosition>)
        ensures
            r@ == listed(self@, 24),
            r@.to_set() == self@,
            forall|i: int, j: int|
                0 <= i < j < r@.len() ==> (#[trigger] r@[i]).ordinal() < (#[trigger] r@[j]).ordinal(),
    {
        let all: [KeyPosition; 24] = all_positions();
        let mut r: Vec<KeyPosition> = Vec::new();
        for i in 0..24usize
            invariant
                forall|k: int| 0 <= k < 24 ==> (#[trigger] all@[k]).ordinal() == k,
                forall|k: int| 0 <= k < r@.len() ==> self@.contains(#[trigger] r@[k]) && r@[k].ordinal() < i,
                forall|k: int, j: int|
                    0 <= k < j < r@.len() ==> (#[trigger] r@[k]).ordinal() < (#[trigger] r@[j]).ordinal(),
                forall|p: KeyPosition| self@.contains(p) && p.ordinal() < i ==> r@.contains(p),
                r@ == listed(self@, i as int),
        {
            let ghost before = r@;
            let p: KeyPosition = all[i];
            assert(all@[i as int].ordinal() == i);
            proof {
                lemma_nth(p);
            }
            if self.contains(&p) {
                r.push(p);
                assert(r@.last() == p);
            }
            assert forall|q: KeyPosition| self@.contains(q) && q.ordinal() < i + 1 implies r@.contains(q) by {
                lemma_ordinal_injective(p, q);
                if q.ordinal() < i {
                    assert(before.contains(q));
                    let k = choose|k: int| 0 <= k < before.len() && before[k] == q;
                    assert(r@[k] == q);
                }
            }
        }
        assert(r@.to_set() =~= self@) by {
            assert forall|p: KeyPosition| r@.to_set().contains(p) == self@.contains(p) by {
                lemma_ordinal_bounded(p);
                if r@.contains(p) {
                    let k = choose|k: int| 0 <= k < r@.len() && r@[k] == p;
                    assert(self@.contains(r@[k]));
                }
            }
        }
        r
    }

    /// How many positions the set holds.
    pub fn len(&self) -> (r: usize)
        ensures
            self@.finite(),
            r == self@.len(),
    {
        let positions: Vec<KeyPosition> = self.positions();
        proof {
            let s = positions@;
            assert(s.no_duplicates());
            s.unique_seq_to_set();
            assert(s.to_set() == self@);
        }
        positions.len()
    }

    /// Whether the set holds nothing.
    pub fn is_empty(&self) -> (r: bool)
        ensures
            r == (self@ == Set::<KeyPosition>::empty()),
    {
        for i in 0..24usize
            invariant
                forall|k: int| 0 <= k < i ==> !#[trigger] self.held@[k],
        {
            if self.held[i] {
                let all: [KeyPosition; 24] = all_positions();
                assert(all@[i as int].ordinal() == i);
                assert(self@.contains(all@[i as int]));
                return false;
            }
        }
        assert(self@ =~= Set::<KeyPosition>::empty()) by {
            assert forall|p: KeyPosition| !self@.contains(p) by {
                lemma_ordinal_bounded(p);
            }
        }
        true
    }

    /// The positions of both sets.
    pub fn union(&self, other: &PositionSet) -> (r: PositionSet)
        ensures
            r@ == self@.union(other@),
    {
        let mut r: PositionSet = *self;
        let more: Vec<KeyPosition> = other.positions();
        let ghost mine = self@;
        assert(mine.union(more@.take(0).to_set()) =~= mine);
        for i in 0..more.len()
            invariant
                r@ == mine.union(more@.take(i as int).to_set()),
        {
            r.insert(more[i]);
            let ghost next = more@.take(i + 1);
            assert(next =~= more@.take(i as int).push(more@[i as int]));
            assert(r@ =~= mine.union(next.to_set())) by {
                assert forall|p: KeyPosition| next.contains(p) == (more@.take(i as int).contains(p) || p == more@[i as int]) by {
                    if more@.take(i as int).contains(p) {
                        let k = choose|k: int| 0 <= k < i && more@.take(i as int)[k] == p;
                        assert(next[k] == p);
                    }
                    if p == more@[i as int] {
                        assert(next[i as int] == p);
                    }
                }
            }
        }
        assert(more@.take(more@.len() as int) =~= more@);
        r
    }

    /// The home-row positions of one hand.
    pub fn hand(&self, left: bool) -> (r: PositionSet)
        ensures
            r@ == hand_of(self@, left),
    {
        let mut r: PositionSet = PositionSet::new();
        let held: Vec<KeyPosition> = self.positions();
        for i in 0..held.len()
            invariant
                forall|p: KeyPosition|
                    #[trigger] r@.contains(p) <==> held@.take(i as int).contains(p) && (if left { p.left() } else { p.right() }),
        {
            let p: KeyPosition = held[i];
            let wanted: bool = if left { p.is_left() } else { p.is_right() };
            if wanted {
                r.insert(p);
            }
            assert forall|q: KeyPosition| #[trigger] r@.contains(q) <==> held@.take(i + 1).contains(q) && (if left { q.left() } else { q.right() }) by {
                let next = held@.take(i + 1);
                if held@.take(i as int).contains(q) {
                    let k = choose|k: int| 0 <= k < i && held@.take(i as int)[k] == q;
                    assert(next[k] == q);
                }
                if q == p {
                    assert(next[i as int] == q);
                }
                if next.contains(q) && q != p {
                    let k = choose|k: int| 0 <= k < i + 1 && next[k] == q;
                    assert(held@.take(i as int)[k] == q);
                }
            }
        }
        assert(held@.take(held@.len() as int) =~= held@);
        assert(r@ =~= hand_of(self@, left)) by {
            assert forall|p: KeyPosition| r@.contains(p) == hand_of(self@, left).contains(p) by {
                assert(held@.to_set().contains(p) == self@.contains(p));
            }
        }
        r
    }

    /// Whether two sets hold the same positions.
    pub fn same(&self, other: &PositionSet) -> (r: bool)
        ensures
            r == (self@ == other@),
            r == (*self == *other),
    {
        for i in 0..24usize
            invariant
                forall|k: int| 0 <= k < i ==> #[trigger] self.held@[k] == other.held@[k],
        {
            if self.held[i] != other.held[i] {
                let all: [KeyPosition; 24] = all_positions();
                assert(all@[i as int].ordinal() == i);
                assert(self@.contains(all@[i as int]) != other@.contains(all@[i as int]));
                return false;
            }
        }
        assert(self.held@ =~= other.held@);
        assert(self.held =~= other.held);
        true
    }
}

/// The positions of a set whose place is below `n`, in the order of the declaration.
pub open spec fn listed(s: Set<KeyPosition>, n: int) -> Seq<KeyPosition>
    decreases n,
{
    if n <= 0 {
        Seq::empty()
    } else if s.contains(KeyPosition::nth(n - 1)) {
        listed(s, n - 1).push(KeyPosition::nth(n - 1))
    } else {
        listed(s, n - 1)
    }
}

/// The value that holds the positions of `s`.
pub open spec fn set_with(s: Set<KeyPosition>) -> PositionSet {
    choose|p: PositionSet| p@ == s
}

/// There is one value for each set of positions.
pub proof fn lemma_set_with(p: PositionSet)
    ensures
        set_with(p@) == p,
{
    let q = set_with(p@);
    assert(q@ == p@);
    assert forall|i: int| 0 <= i < 24 implies q.held@[i] == p.held@[i] by {
        lemma_nth_ordinal(i);
        assert(q@.contains(KeyPosition::nth(i)) == p@.contains(KeyPosition::nth(i)));
    }
    assert(q.held@ =~= p.held@);
    assert(q.held =~= p.held);
}

/// The list of a set holds the positions of the set.
pub proof fn lemma_listed(s: Set<KeyPosition>)
    ensures
        listed(s, 24).to_set() == s,
{
    lemma_listed_below(s, 24);
    assert forall|p: KeyPosition| listed(s, 24).to_set().contains(p) == s.contains(p) by {
        lemma_ordinal_bounded(p);
    }
    assert(listed(s, 24).to_set() =~= s);
}

proof fn lemma_listed_below(s: Set<KeyPosition>, n: int)
    requires
        0 <= n <= 24,
    ensures
        forall|p: KeyPosition| #[trigger] listed(s, n).contains(p) <==> s.contains(p) && p.ordinal() < n,
    decreases n,
{
    if n > 0 {
        lemma_listed_below(s, n - 1);
        lemma_nth_ordinal(n - 1);
        let front = listed(s, n - 1);
        let all = listed(s, n);
        let last = KeyPosition::nth(n - 1);
        assert forall|p: KeyPosition| #[trigger] all.contains(p) <==> s.contains(p) && p.ordinal() < n by {
            lemma_ordinal_injective(p, last);
            if front.contains(p) {
                let i = choose|i: int| 0 <= i < front.len() && front[i] == p;
                assert(all[i] == p);
            }
            if s.contains(last) {
                assert(all.last() == last);
                if all.contains(p) && p != last {
                    let i = choose|i: int| 0 <= i < all.len() && all[i] == p;
                    assert(front[i] == p);
                }
            }
        }
    }
}

proof fn lemma_nth(p: KeyPosition)
    ensures
        KeyPosition::nth(p.ordinal()) == p,
{
}

proof fn lemma_nth_ordinal(i: int)
    requires
        0 <= i < 24,
    ensures
        KeyPosition::nth(i).ordinal() == i,
{
}

/// The home-row positions of one hand.
pub open spec fn hand_of(positions: Set<KeyPosition>, left: bool) -> Set<KeyPosition> {
    positions.filter(|p: KeyPosition| if left { p.left() } else { p.right() })
}

proof fn lemma_ordinal_bounded(p: KeyPosition)
    ensures
        0 <= p.ordinal() < 24,
{
}

proof fn lemma_ordinal_injective(p: KeyPosition, q: KeyPosition)
    ensures
        p.ordinal() == q.ordinal() ==> p == q,
        0 <= p.ordinal() < 24,
{
}

// -----------------------------------------------------------------------------
// Laws
// -----------------------------------------------------------------------------

/// On either layout a character belongs to at most one key.
pub proof fn law_keys_are_distinct(layout: Layout, p: KeyPosition, q: KeyPosition, c: char)
    requires
        layout.types(p, c),
        layout.types(q, c),
    ensures
        p == q,
{
}

/// On either layout every key can be reached, by a character without capitals.
pub proof fn law_every_key_is_reachable(layout: Layout, p: KeyPosition)
    ensures
        exists|c: char| layout.types(p, c) && lower(c) == c,
{
    let c = match layout {
        Layout::Qwerty => p.keycap(),
        Layout::ProgrammerDvorak => match p {
            KeyPosition::LeftPinky => 'a',
            KeyPosition::LeftRing => 'o',
            KeyPosition::LeftMiddle => 'e',
            KeyPosition::LeftIndex => 'u',
            KeyPosition::LeftInner => 'i',
            KeyPosition::RightInner => 'd',
            KeyPosition::RightIndex => 'h',
            KeyPosition::RightMiddle => 't',
            KeyPosition::RightRing => 'n',
            KeyPosition::RightPinky => 's',
            KeyPosition::LeftPinkyBelow => '\'',
            KeyPosition::LeftRingBelow => 'q',
            KeyPosition::LeftMiddleBelow => 'j',
            KeyPosition::LeftIndexBelow => 'k',
            KeyPosition::LeftInnerBelow => 'x',
            KeyPosition::RightInnerBelow => 'b',
            KeyPosition::RightIndexBelow => 'm',
            KeyPosition::RightMiddleBelow => 'w',
            KeyPosition::RightRingBelow => 'v',
            KeyPosition::RightPinkyBelow => 'z',
            KeyPosition::TopLeft => '$',
            KeyPosition::TopRow1 => '&',
            KeyPosition::TopRow3 => '{',
            KeyPosition::TopRow4 => '}',
        },
    };
    assert(layout.types(p, c) && lower(c) == c);
}

/// QWERTY types what its keycaps show.
pub proof fn law_qwerty_types_its_keycaps(p: KeyPosition)
    ensures
        Layout::Qwerty.types(p, p.keycap()),
        lower(p.keycap()) == p.keycap(),
{
}

/// A position that carries an action takes no part in chords, save `LeftInner`, and no position
/// belongs to both hands. The actions that are selected with Shift are bound to no position.
pub proof fn law_hotkeys_are_no_hands(p: KeyPosition)
    ensures
        p.action() is Some && !(p is LeftInner) ==> !p.left() && !p.right(),
        !(p.left() && p.right()),
        p.action() != Some(Hotkey::Redo),
        p.action() != Some(Hotkey::CopySinko),
        p.action() != Some(Hotkey::PasteSinko),
{
}

} // verus!
