//! The names that saved documents use for scales, degrees, transformations and keys.
//!
//! A name is the variant's own name in snake case, and part of the file format.

use vstd::prelude::*;

use crate::keyboard::KeyPosition;
use crate::music::{Scale, ScaleDegree, Transformation};
use crate::text::same_text;

verus! {

impl Scale {
    /// The name of the scale in a saved document.
    pub open spec fn spelled(self) -> Seq<char> {
        match self {
            Scale::Major => "major"@,
            Scale::Minor => "minor"@,
        }
    }

    /// The name of the scale in a saved document.
    pub fn wire_name(self) -> (r: &'static str)
        ensures
            r@ == self.spelled(),
    {
        match self {
            Scale::Major => "major",
            Scale::Minor => "minor",
        }
    }

    /// The scale with this name in a saved document.
    pub open spec fn named(name: Seq<char>) -> Option<Scale> {
        if exists|x: Scale| #[trigger] x.spelled() == name {
            Some(choose|x: Scale| #[trigger] x.spelled() == name)
        } else {
            None
        }
    }

    /// The scale that a saved document names.
    pub fn from_wire_name(name: &str) -> (r: Option<Scale>)
        ensures
            r == Scale::named(name@),
    {
        proof {
            assert forall|x: Scale| #[trigger] x.spelled() == name@ implies Scale::named(name@) == Some(x) by {
                law_scale_names_are_distinct(Scale::named(name@)->0, x);
            }
        }
        if same_text(name, "major") {
            assert(Scale::Major.spelled() == name@);
            return Some(Scale::Major);
        }
        if same_text(name, "minor") {
            assert(Scale::Minor.spelled() == name@);
            return Some(Scale::Minor);
        }
        None
    }
}

impl ScaleDegree {
    /// The name of the degree in a saved document.
    pub open spec fn spelled(self) -> Seq<char> {
        match self {
            ScaleDegree::I => "i"@,
            ScaleDegree::II => "i_i"@,
            ScaleDegree::III => "i_i_i"@,
            ScaleDegree::IV => "i_v"@,
            ScaleDegree::V => "v"@,
            ScaleDegree::VI => "v_i"@,
            ScaleDegree::VII => "v_i_i"@,
        }
    }

    /// The name of the degree in a saved document.
    pub fn wire_name(self) -> (r: &'static str)
        ensures
            r@ == self.spelled(),
    {
        match self {
            ScaleDegree::I => "i",
            ScaleDegree::II => "i_i",
            ScaleDegree::III => "i_i_i",
            ScaleDegree::IV => "i_v",
            ScaleDegree::V => "v",
            ScaleDegree::VI => "v_i",
            ScaleDegree::VII => "v_i_i",
        }
    }

    /// The degree with this name in a saved document.
    pub open spec fn named(name: Seq<char>) -> Option<ScaleDegree> {
        if exists|x: ScaleDegree| #[trigger] x.spelled() == name {
            Some(choose|x: ScaleDegree| #[trigger] x.spelled() == name)
        } else {
            None
        }
    }

    /// The degree that a saved document names.
    pub fn from_wire_name(name: &str) -> (r: Option<ScaleDegree>)
        ensures
            r == ScaleDegree::named(name@),
    {
        proof {
            assert forall|x: ScaleDegree| #[trigger] x.spelled() == name@ implies ScaleDegree::named(name@) == Some(x) by {
                law_degree_names_are_distinct(ScaleDegree::named(name@)->0, x);
            }
        }
        if same_text(name, "i") {
            assert(ScaleDegree::I.spelled() == name@);
            return Some(ScaleDegree::I);
        }
        if same_text(name, "i_i") {
            assert(ScaleDegree::II.spelled() == name@);
            return Some(ScaleDegree::II);
        }
        if same_text(name, "i_i_i") {
            assert(ScaleDegree::III.spelled() == name@);
            return Some(ScaleDegree::III);
        }
        if same_text(name, "i_v") {
            assert(ScaleDegree::IV.spelled() == name@);
            return Some(ScaleDegree::IV);
        }
        if same_text(name, "v") {
            assert(ScaleDegree::V.spelled() == name@);
            return Some(ScaleDegree::V);
        }
        if same_text(name, "v_i") {
            assert(ScaleDegree::VI.spelled() == name@);
            return Some(ScaleDegree::VI);
        }
        if same_text(name, "v_i_i") {
            assert(ScaleDegree::VII.spelled() == name@);
            return Some(ScaleDegree::VII);
        }
        None
    }
}

impl Transformation {
    /// The name of the transformation in a saved document.
    pub open spec fn spelled(self) -> Seq<char> {
        match self {
            Transformation::Dom7 => "dom7"@,
            Transformation::Dom7b9 => "dom7b9"@,
            Transformation::Dom9 => "dom9"@,
            Transformation::Min7b5 => "min7b5"@,
            Transformation::Sus2 => "sus2"@,
            Transformation::SixNine => "six_nine"@,
            Transformation::Dim7 => "dim7"@,
            Transformation::Dom7s9 => "dom7s9"@,
            Transformation::Min9 => "min9"@,
            Transformation::Aug => "aug"@,
            Transformation::Maj7s11 => "maj7s11"@,
            Transformation::Dom7s11 => "dom7s11"@,
            Transformation::MinMaj7 => "min_maj7"@,
            Transformation::Eleven => "eleven"@,
            Transformation::Thirteen => "thirteen"@,
            Transformation::Diatonic7 => "diatonic7"@,
            Transformation::Diatonic9 => "diatonic9"@,
            Transformation::Sus4 => "sus4"@,
            Transformation::Diatonic6 => "diatonic6"@,
            Transformation::Diatonic7_9 => "diatonic7_9"@,
            Transformation::Diatonic7_13 => "diatonic7_13"@,
            Transformation::Sus4_7 => "sus4_7"@,
            Transformation::DiatonicFull => "diatonic_full"@,
        }
    }

    /// The name of the transformation in a saved document.
    pub fn wire_name(self) -> (r: &'static str)
        ensures
            r@ == self.spelled(),
    {
        match self {
            Transformation::Dom7 => "dom7",
            Transformation::Dom7b9 => "dom7b9",
            Transformation::Dom9 => "dom9",
            Transformation::Min7b5 => "min7b5",
            Transformation::Sus2 => "sus2",
            Transformation::SixNine => "six_nine",
            Transformation::Dim7 => "dim7",
            Transformation::Dom7s9 => "dom7s9",
            Transformation::Min9 => "min9",
            Transformation::Aug => "aug",
            Transformation::Maj7s11 => "maj7s11",
            Transformation::Dom7s11 => "dom7s11",
            Transformation::MinMaj7 => "min_maj7",
            Transformation::Eleven => "eleven",
            Transformation::Thirteen => "thirteen",
            Transformation::Diatonic7 => "diatonic7",
            Transformation::Diatonic9 => "diatonic9",
            Transformation::Sus4 => "sus4",
            Transformation::Diatonic6 => "diatonic6",
            Transformation::Diatonic7_9 => "diatonic7_9",
            Transformation::Diatonic7_13 => "diatonic7_13",
            Transformation::Sus4_7 => "sus4_7",
            Transformation::DiatonicFull => "diatonic_full",
        }
    }

    /// The transformation with this name in a saved document.
    pub open spec fn named(name: Seq<char>) -> Option<Transformation> {
        if exists|x: Transformation| #[trigger] x.spelled() == name {
            Some(choose|x: Transformation| #[trigger] x.spelled() == name)
        } else {
            None
        }
    }

    /// The transformation that a saved document names.
    pub fn from_wire_name(name: &str) -> (r: Option<Transformation>)
        ensures
            r == Transformation::named(name@),
    {
        proof {
            assert forall|x: Transformation| #[trigger] x.spelled() == name@ implies Transformation::named(name@) == Some(x) by {
                law_transformation_names_are_distinct(Transformation::named(name@)->0, x);
            }
        }
        if same_text(name, "dom7") {
            assert(Transformation::Dom7.spelled() == name@);
            return Some(Transformation::Dom7);
        }
        if same_text(name, "dom7b9") {
            assert(Transformation::Dom7b9.spelled() == name@);
            return Some(Transformation::Dom7b9);
        }
        if same_text(name, "dom9") {
            assert(Transformation::Dom9.spelled() == name@);
            return Some(Transformation::Dom9);
        }
        if same_text(name, "min7b5") {
            assert(Transformation::Min7b5.spelled() == name@);
            return Some(Transformation::Min7b5);
        }
        if same_text(name, "sus2") {
            assert(Transformation::Sus2.spelled() == name@);
            return Some(Transformation::Sus2);
        }
        if same_text(name, "six_nine") {
            assert(Transformation::SixNine.spelled() == name@);
            return Some(Transformation::SixNine);
        }
        if same_text(name, "dim7") {
            assert(Transformation::Dim7.spelled() == name@);
            return Some(Transformation::Dim7);
        }
        if same_text(name, "dom7s9") {
            assert(Transformation::Dom7s9.spelled() == name@);
            return Some(Transformation::Dom7s9);
        }
        if same_text(name, "min9") {
            assert(Transformation::Min9.spelled() == name@);
            return Some(Transformation::Min9);
        }
        if same_text(name, "aug") {
            assert(Transformation::Aug.spelled() == name@);
            return Some(Transformation::Aug);
        }
        if same_text(name, "maj7s11") {
            assert(Transformation::Maj7s11.spelled() == name@);
            return Some(Transformation::Maj7s11);
        }
        if same_text(name, "dom7s11") {
            assert(Transformation::Dom7s11.spelled() == name@);
            return Some(Transformation::Dom7s11);
        }
        if same_text(name, "min_maj7") {
            assert(Transformation::MinMaj7.spelled() == name@);
            return Some(Transformation::MinMaj7);
        }
        if same_text(name, "eleven") {
            assert(Transformation::Eleven.spelled() == name@);
            return Some(Transformation::Eleven);
        }
        if same_text(name, "thirteen") {
            assert(Transformation::Thirteen.spelled() == name@);
            return Some(Transformation::Thirteen);
        }
        if same_text(name, "diatonic7") {
            assert(Transformation::Diatonic7.spelled() == name@);
            return Some(Transformation::Diatonic7);
        }
        if same_text(name, "diatonic9") {
            assert(Transformation::Diatonic9.spelled() == name@);
            return Some(Transformation::Diatonic9);
        }
        if same_text(name, "sus4") {
            assert(Transformation::Sus4.spelled() == name@);
            return Some(Transformation::Sus4);
        }
        if same_text(name, "diatonic6") {
            assert(Transformation::Diatonic6.spelled() == name@);
            return Some(Transformation::Diatonic6);
        }
        if same_text(name, "diatonic7_9") {
            assert(Transformation::Diatonic7_9.spelled() == name@);
            return Some(Transformation::Diatonic7_9);
        }
        if same_text(name, "diatonic7_13") {
            assert(Transformation::Diatonic7_13.spelled() == name@);
            return Some(Transformation::Diatonic7_13);
        }
        if same_text(name, "sus4_7") {
            assert(Transformation::Sus4_7.spelled() == name@);
            return Some(Transformation::Sus4_7);
        }
        if same_text(name, "diatonic_full") {
            assert(Transformation::DiatonicFull.spelled() == name@);
            return Some(Transformation::DiatonicFull);
        }
        None
    }
}

impl KeyPosition {
    /// The name of the position in a saved document.
    pub open spec fn spelled(self) -> Seq<char> {
        match self {
            KeyPosition::LeftPinky => "left_pinky"@,
            KeyPosition::LeftRing => "left_ring"@,
            KeyPosition::LeftMiddle => "left_middle"@,
            KeyPosition::LeftIndex => "left_index"@,
            KeyPosition::LeftInner => "left_inner"@,
            KeyPosition::RightInner => "right_inner"@,
            KeyPosition::RightIndex => "right_index"@,
            KeyPosition::RightMiddle => "right_middle"@,
            KeyPosition::RightRing => "right_ring"@,
            KeyPosition::RightPinky => "right_pinky"@,
            KeyPosition::LeftPinkyBelow => "left_pinky_below"@,
            KeyPosition::LeftRingBelow => "left_ring_below"@,
            KeyPosition::LeftMiddleBelow => "left_middle_below"@,
            KeyPosition::LeftIndexBelow => "left_index_below"@,
            KeyPosition::LeftInnerBelow => "left_inner_below"@,
            KeyPosition::RightInnerBelow => "right_inner_below"@,
            KeyPosition::RightIndexBelow => "right_index_below"@,
            KeyPosition::RightMiddleBelow => "right_middle_below"@,
            KeyPosition::RightRingBelow => "right_ring_below"@,
            KeyPosition::RightPinkyBelow => "right_pinky_below"@,
            KeyPosition::TopLeft => "top_left"@,
            KeyPosition::TopRow1 => "top_row1"@,
            KeyPosition::TopRow3 => "top_row3"@,
            KeyPosition::TopRow4 => "top_row4"@,
        }
    }

    /// The name of the position in a saved document.
    pub fn wire_name(self) -> (r: &'static str)
        ensures
            r@ == self.spelled(),
    {
        match self {
            KeyPosition::LeftPinky => "left_pinky",
            KeyPosition::LeftRing => "left_ring",
            KeyPosition::LeftMiddle => "left_middle",
            KeyPosition::LeftIndex => "left_index",
            KeyPosition::LeftInner => "left_inner",
            KeyPosition::RightInner => "right_inner",
            KeyPosition::RightIndex => "right_index",
            KeyPosition::RightMiddle => "right_middle",
            KeyPosition::RightRing => "right_ring",
            KeyPosition::RightPinky => "right_pinky",
            KeyPosition::LeftPinkyBelow => "left_pinky_below",
            KeyPosition::LeftRingBelow => "left_ring_below",
            KeyPosition::LeftMiddleBelow => "left_middle_below",
            KeyPosition::LeftIndexBelow => "left_index_below",
            KeyPosition::LeftInnerBelow => "left_inner_below",
            KeyPosition::RightInnerBelow => "right_inner_below",
            KeyPosition::RightIndexBelow => "right_index_below",
            KeyPosition::RightMiddleBelow => "right_middle_below",
            KeyPosition::RightRingBelow => "right_ring_below",
            KeyPosition::RightPinkyBelow => "right_pinky_below",
            KeyPosition::TopLeft => "top_left",
            KeyPosition::TopRow1 => "top_row1",
            KeyPosition::TopRow3 => "top_row3",
            KeyPosition::TopRow4 => "top_row4",
        }
    }

    /// The position with this name in a saved document.
    pub open spec fn named(name: Seq<char>) -> Option<KeyPosition> {
        if exists|x: KeyPosition| #[trigger] x.spelled() == name {
            Some(choose|x: KeyPosition| #[trigger] x.spelled() == name)
        } else {
            None
        }
    }

    /// The position that a saved document names.
    pub fn from_wire_name(name: &str) -> (r: Option<KeyPosition>)
        ensures
            r == KeyPosition::named(name@),
    {
        proof {
            assert forall|x: KeyPosition| #[trigger] x.spelled() == name@ implies KeyPosition::named(name@) == Some(x) by {
                law_position_names_are_distinct(KeyPosition::named(name@)->0, x);
            }
        }
        if same_text(name, "left_pinky") {
            assert(KeyPosition::LeftPinky.spelled() == name@);
            return Some(KeyPosition::LeftPinky);
        }
        if same_text(name, "left_ring") {
            assert(KeyPosition::LeftRing.spelled() == name@);
            return Some(KeyPosition::LeftRing);
        }
        if same_text(name, "left_middle") {
            assert(KeyPosition::LeftMiddle.spelled() == name@);
            return Some(KeyPosition::LeftMiddle);
        }
        if same_text(name, "left_index") {
            assert(KeyPosition::LeftIndex.spelled() == name@);
            return Some(KeyPosition::LeftIndex);
        }
        if same_text(name, "left_inner") {
            assert(KeyPosition::LeftInner.spelled() == name@);
            return Some(KeyPosition::LeftInner);
        }
        if same_text(name, "right_inner") {
            assert(KeyPosition::RightInner.spelled() == name@);
            return Some(KeyPosition::RightInner);
        }
        if same_text(name, "right_index") {
            assert(KeyPosition::RightIndex.spelled() == name@);
            return Some(KeyPosition::RightIndex);
        }
        if same_text(name, "right_middle") {
            assert(KeyPosition::RightMiddle.spelled() == name@);
            return Some(KeyPosition::RightMiddle);
        }
        if same_text(name, "right_ring") {
            assert(KeyPosition::RightRing.spelled() == name@);
            return Some(KeyPosition::RightRing);
        }
        if same_text(name, "right_pinky") {
            assert(KeyPosition::RightPinky.spelled() == name@);
            return Some(KeyPosition::RightPinky);
        }
        if same_text(name, "left_pinky_below") {
            assert(KeyPosition::LeftPinkyBelow.spelled() == name@);
            return Some(KeyPosition::LeftPinkyBelow);
        }
        if same_text(name, "left_ring_below") {
            assert(KeyPosition::LeftRingBelow.spelled() == name@);
            return Some(KeyPosition::LeftRingBelow);
        }
        if same_text(name, "left_middle_below") {
            assert(KeyPosition::LeftMiddleBelow.spelled() == name@);
            return Some(KeyPosition::LeftMiddleBelow);
        }
        if same_text(name, "left_index_below") {
            assert(KeyPosition::LeftIndexBelow.spelled() == name@);
            return Some(KeyPosition::LeftIndexBelow);
        }
        if same_text(name, "left_inner_below") {
            assert(KeyPosition::LeftInnerBelow.spelled() == name@);
            return Some(KeyPosition::LeftInnerBelow);
        }
        if same_text(name, "right_inner_below") {
            assert(KeyPosition::RightInnerBelow.spelled() == name@);
            return Some(KeyPosition::RightInnerBelow);
        }
        if same_text(name, "right_index_below") {
            assert(KeyPosition::RightIndexBelow.spelled() == name@);
            return Some(KeyPosition::RightIndexBelow);
        }
        if same_text(name, "right_middle_below") {
            assert(KeyPosition::RightMiddleBelow.spelled() == name@);
            return Some(KeyPosition::RightMiddleBelow);
        }
        if same_text(name, "right_ring_below") {
            assert(KeyPosition::RightRingBelow.spelled() == name@);
            return Some(KeyPosition::RightRingBelow);
        }
        if same_text(name, "right_pinky_below") {
            assert(KeyPosition::RightPinkyBelow.spelled() == name@);
            return Some(KeyPosition::RightPinkyBelow);
        }
        if same_text(name, "top_left") {
            assert(KeyPosition::TopLeft.spelled() == name@);
            return Some(KeyPosition::TopLeft);
        }
        if same_text(name, "top_row1") {
            assert(KeyPosition::TopRow1.spelled() == name@);
            return Some(KeyPosition::TopRow1);
        }
        if same_text(name, "top_row3") {
            assert(KeyPosition::TopRow3.spelled() == name@);
            return Some(KeyPosition::TopRow3);
        }
        if same_text(name, "top_row4") {
            assert(KeyPosition::TopRow4.spelled() == name@);
            return Some(KeyPosition::TopRow4);
        }
        None
    }
}

/// Every name that was written is read back as what it was written for.
pub proof fn law_names_read_back(s: Scale, d: ScaleDegree, t: Transformation, p: KeyPosition)
    ensures
        Scale::named(s.spelled()) == Some(s),
        ScaleDegree::named(d.spelled()) == Some(d),
        Transformation::named(t.spelled()) == Some(t),
        KeyPosition::named(p.spelled()) == Some(p),
{
    law_scale_names_are_distinct(Scale::named(s.spelled())->0, s);
    law_degree_names_are_distinct(ScaleDegree::named(d.spelled())->0, d);
    law_transformation_names_are_distinct(Transformation::named(t.spelled())->0, t);
    law_position_names_are_distinct(KeyPosition::named(p.spelled())->0, p);
}

/// No two scales share a name, so a name that was written reads back.
pub proof fn law_scale_names_are_distinct(a: Scale, b: Scale)
    requires
        a.spelled() == b.spelled(),
    ensures
        a == b,
{
    reveal_strlit("major");
    assert("major"@.len() == 5 && "major"@[1] == 'a');
    reveal_strlit("minor");
    assert("minor"@.len() == 5 && "minor"@[1] == 'i');
}

/// No two degrees share a name, so a name that was written reads back.
pub proof fn law_degree_names_are_distinct(a: ScaleDegree, b: ScaleDegree)
    requires
        a.spelled() == b.spelled(),
    ensures
        a == b,
{
    reveal_strlit("i");
    assert("i"@.len() == 1 && "i"@[0] == 'i');
    reveal_strlit("i_i");
    assert("i_i"@.len() == 3 && "i_i"@[0] == 'i' && "i_i"@[2] == 'i');
    reveal_strlit("i_i_i");
    assert("i_i_i"@.len() == 5 && "i_i_i"@[0] == 'i' && "i_i_i"@[2] == 'i');
    reveal_strlit("i_v");
    assert("i_v"@.len() == 3 && "i_v"@[0] == 'i' && "i_v"@[2] == 'v');
    reveal_strlit("v");
    assert("v"@.len() == 1 && "v"@[0] == 'v');
    reveal_strlit("v_i");
    assert("v_i"@.len() == 3 && "v_i"@[0] == 'v' && "v_i"@[2] == 'i');
    reveal_strlit("v_i_i");
    assert("v_i_i"@.len() == 5 && "v_i_i"@[0] == 'v' && "v_i_i"@[2] == 'i');
}

/// No two transformations share a name, so a name that was written reads back.
pub proof fn law_transformation_names_are_distinct(a: Transformation, b: Transformation)
    requires
        a.spelled() == b.spelled(),
    ensures
        a == b,
{
    reveal_strlit("dom7");
    assert("dom7"@.len() == 4 && "dom7"@[0] == 'd' && "dom7"@[3] == '7' && "dom7"@[1] == 'o');
    reveal_strlit("dom7b9");
    assert("dom7b9"@.len() == 6 && "dom7b9"@[0] == 'd' && "dom7b9"@[3] == '7' && "dom7b9"@[1] == 'o' && "dom7b9"@[4] == 'b');
    reveal_strlit("dom9");
    assert("dom9"@.len() == 4 && "dom9"@[0] == 'd' && "dom9"@[3] == '9' && "dom9"@[1] == 'o');
    reveal_strlit("min7b5");
    assert("min7b5"@.len() == 6 && "min7b5"@[0] == 'm' && "min7b5"@[3] == '7' && "min7b5"@[1] == 'i' && "min7b5"@[4] == 'b');
    reveal_strlit("sus2");
    assert("sus2"@.len() == 4 && "sus2"@[0] == 's' && "sus2"@[3] == '2' && "sus2"@[1] == 'u');
    reveal_strlit("six_nine");
    assert("six_nine"@.len() == 8 && "six_nine"@[0] == 's' && "six_nine"@[3] == '_' && "six_nine"@[1] == 'i' && "six_nine"@[4] == 'n');
    reveal_strlit("dim7");
    assert("dim7"@.len() == 4 && "dim7"@[0] == 'd' && "dim7"@[3] == '7' && "dim7"@[1] == 'i');
    reveal_strlit("dom7s9");
    assert("dom7s9"@.len() == 6 && "dom7s9"@[0] == 'd' && "dom7s9"@[3] == '7' && "dom7s9"@[1] == 'o' && "dom7s9"@[4] == 's');
    reveal_strlit("min9");
    assert("min9"@.len() == 4 && "min9"@[0] == 'm' && "min9"@[3] == '9' && "min9"@[1] == 'i');
    reveal_strlit("aug");
    assert("aug"@.len() == 3 && "aug"@[0] == 'a' && "aug"@[1] == 'u');
    reveal_strlit("maj7s11");
    assert("maj7s11"@.len() == 7 && "maj7s11"@[0] == 'm' && "maj7s11"@[3] == '7' && "maj7s11"@[1] == 'a' && "maj7s11"@[4] == 's');
    reveal_strlit("dom7s11");
    assert("dom7s11"@.len() == 7 && "dom7s11"@[0] == 'd' && "dom7s11"@[3] == '7' && "dom7s11"@[1] == 'o' && "dom7s11"@[4] == 's');
    reveal_strlit("min_maj7");
    assert("min_maj7"@.len() == 8 && "min_maj7"@[0] == 'm' && "min_maj7"@[3] == '_' && "min_maj7"@[1] == 'i' && "min_maj7"@[4] == 'm');
    reveal_strlit("eleven");
    assert("eleven"@.len() == 6 && "eleven"@[0] == 'e' && "eleven"@[3] == 'v' && "eleven"@[1] == 'l' && "eleven"@[4] == 'e');
    reveal_strlit("thirteen");
    assert("thirteen"@.len() == 8 && "thirteen"@[0] == 't' && "thirteen"@[3] == 'r' && "thirteen"@[1] == 'h' && "thirteen"@[4] == 't');
    reveal_strlit("diatonic7");
    assert("diatonic7"@.len() == 9 && "diatonic7"@[0] == 'd' && "diatonic7"@[3] == 't' && "diatonic7"@[8] == '7' && "diatonic7"@[1] == 'i' && "diatonic7"@[4] == 'o');
    reveal_strlit("diatonic9");
    assert("diatonic9"@.len() == 9 && "diatonic9"@[0] == 'd' && "diatonic9"@[3] == 't' && "diatonic9"@[8] == '9' && "diatonic9"@[1] == 'i' && "diatonic9"@[4] == 'o');
    reveal_strlit("sus4");
    assert("sus4"@.len() == 4 && "sus4"@[0] == 's' && "sus4"@[3] == '4' && "sus4"@[1] == 'u');
    reveal_strlit("diatonic6");
    assert("diatonic6"@.len() == 9 && "diatonic6"@[0] == 'd' && "diatonic6"@[3] == 't' && "diatonic6"@[8] == '6' && "diatonic6"@[1] == 'i' && "diatonic6"@[4] == 'o');
    reveal_strlit("diatonic7_9");
    assert("diatonic7_9"@.len() == 11 && "diatonic7_9"@[0] == 'd' && "diatonic7_9"@[3] == 't' && "diatonic7_9"@[8] == '7' && "diatonic7_9"@[1] == 'i' && "diatonic7_9"@[4] == 'o');
    reveal_strlit("diatonic7_13");
    assert("diatonic7_13"@.len() == 12 && "diatonic7_13"@[0] == 'd' && "diatonic7_13"@[3] == 't' && "diatonic7_13"@[8] == '7' && "diatonic7_13"@[1] == 'i' && "diatonic7_13"@[4] == 'o');
    reveal_strlit("sus4_7");
    assert("sus4_7"@.len() == 6 && "sus4_7"@[0] == 's' && "sus4_7"@[3] == '4' && "sus4_7"@[1] == 'u' && "sus4_7"@[4] == '_');
    reveal_strlit("diatonic_full");
    assert("diatonic_full"@.len() == 13 && "diatonic_full"@[0] == 'd' && "diatonic_full"@[3] == 't' && "diatonic_full"@[8] == '_' && "diatonic_full"@[1] == 'i' && "diatonic_full"@[4] == 'o');
}

/// No two positions share a name, so a name that was written reads back.
pub proof fn law_position_names_are_distinct(a: KeyPosition, b: KeyPosition)
    requires
        a.spelled() == b.spelled(),
    ensures
        a == b,
{
    reveal_strlit("left_pinky");
    assert("left_pinky"@.len() == 10 && "left_pinky"@[7] == 'n' && "left_pinky"@[8] == 'k');
    reveal_strlit("left_ring");
    assert("left_ring"@.len() == 9 && "left_ring"@[7] == 'n' && "left_ring"@[8] == 'g');
    reveal_strlit("left_middle");
    assert("left_middle"@.len() == 11 && "left_middle"@[7] == 'd' && "left_middle"@[8] == 'd');
    reveal_strlit("left_index");
    assert("left_index"@.len() == 10 && "left_index"@[7] == 'd' && "left_index"@[8] == 'e');
    reveal_strlit("left_inner");
    assert("left_inner"@.len() == 10 && "left_inner"@[7] == 'n' && "left_inner"@[8] == 'e');
    reveal_strlit("right_inner");
    assert("right_inner"@.len() == 11 && "right_inner"@[7] == 'n' && "right_inner"@[8] == 'n');
    reveal_strlit("right_index");
    assert("right_index"@.len() == 11 && "right_index"@[7] == 'n' && "right_index"@[8] == 'd');
    reveal_strlit("right_middle");
    assert("right_middle"@.len() == 12 && "right_middle"@[7] == 'i' && "right_middle"@[8] == 'd');
    reveal_strlit("right_ring");
    assert("right_ring"@.len() == 10 && "right_ring"@[7] == 'i' && "right_ring"@[8] == 'n');
    reveal_strlit("right_pinky");
    assert("right_pinky"@.len() == 11 && "right_pinky"@[7] == 'i' && "right_pinky"@[8] == 'n');
    reveal_strlit("left_pinky_below");
    assert("left_pinky_below"@.len() == 16 && "left_pinky_below"@[7] == 'n' && "left_pinky_below"@[8] == 'k');
    reveal_strlit("left_ring_below");
    assert("left_ring_below"@.len() == 15 && "left_ring_below"@[7] == 'n' && "left_ring_below"@[8] == 'g');
    reveal_strlit("left_middle_below");
    assert("left_middle_below"@.len() == 17 && "left_middle_below"@[7] == 'd' && "left_middle_below"@[8] == 'd');
    reveal_strlit("left_index_below");
    assert("left_index_below"@.len() == 16 && "left_index_below"@[7] == 'd' && "left_index_below"@[8] == 'e');
    reveal_strlit("left_inner_below");
    assert("left_inner_below"@.len() == 16 && "left_inner_below"@[7] == 'n' && "left_inner_below"@[8] == 'e');
    reveal_strlit("right_inner_below");
    assert("right_inner_below"@.len() == 17 && "right_inner_below"@[7] == 'n' && "right_inner_below"@[8] == 'n');
    reveal_strlit("right_index_below");
    assert("right_index_below"@.len() == 17 && "right_index_below"@[7] == 'n' && "right_index_below"@[8] == 'd');
    reveal_strlit("right_middle_below");
    assert("right_middle_below"@.len() == 18 && "right_middle_below"@[7] == 'i' && "right_middle_below"@[8] == 'd');
    reveal_strlit("right_ring_below");
    assert("right_ring_below"@.len() == 16 && "right_ring_below"@[7] == 'i' && "right_ring_below"@[8] == 'n');
    reveal_strlit("right_pinky_below");
    assert("right_pinky_below"@.len() == 17 && "right_pinky_below"@[7] == 'i' && "right_pinky_below"@[8] == 'n');
    reveal_strlit("top_left");
    assert("top_left"@.len() == 8 && "top_left"@[7] == 't');
    reveal_strlit("top_row1");
    assert("top_row1"@.len() == 8 && "top_row1"@[7] == '1');
    reveal_strlit("top_row3");
    assert("top_row3"@.len() == 8 && "top_row3"@[7] == '3');
    reveal_strlit("top_row4");
    assert("top_row4"@.len() == 8 && "top_row4"@[7] == '4');
}

/// What a name in a saved document stands for: each stands for one thing and for nothing else, in every
/// file there is.
pub proof fn law_what_names_in_a_file_stand_for(
    s: Scale,
    d: ScaleDegree,
    t: Transformation,
    p: KeyPosition,
)
    ensures
        s.spelled() == "major"@ <==> s is Major,
        s.spelled() == "minor"@ <==> s is Minor,
        d.spelled() == "i"@ <==> d is I,
        d.spelled() == "i_i"@ <==> d is II,
        d.spelled() == "i_i_i"@ <==> d is III,
        d.spelled() == "i_v"@ <==> d is IV,
        d.spelled() == "v"@ <==> d is V,
        d.spelled() == "v_i"@ <==> d is VI,
        d.spelled() == "v_i_i"@ <==> d is VII,
        t.spelled() == "dom7"@ <==> t is Dom7,
        t.spelled() == "dom7b9"@ <==> t is Dom7b9,
        t.spelled() == "dom9"@ <==> t is Dom9,
        t.spelled() == "min7b5"@ <==> t is Min7b5,
        t.spelled() == "sus2"@ <==> t is Sus2,
        t.spelled() == "six_nine"@ <==> t is SixNine,
        t.spelled() == "dim7"@ <==> t is Dim7,
        t.spelled() == "dom7s9"@ <==> t is Dom7s9,
        t.spelled() == "min9"@ <==> t is Min9,
        t.spelled() == "aug"@ <==> t is Aug,
        t.spelled() == "maj7s11"@ <==> t is Maj7s11,
        t.spelled() == "dom7s11"@ <==> t is Dom7s11,
        t.spelled() == "min_maj7"@ <==> t is MinMaj7,
        t.spelled() == "eleven"@ <==> t is Eleven,
        t.spelled() == "thirteen"@ <==> t is Thirteen,
        t.spelled() == "diatonic7"@ <==> t is Diatonic7,
        t.spelled() == "diatonic9"@ <==> t is Diatonic9,
        t.spelled() == "sus4"@ <==> t is Sus4,
        t.spelled() == "diatonic6"@ <==> t is Diatonic6,
        t.spelled() == "diatonic7_9"@ <==> t is Diatonic7_9,
        t.spelled() == "diatonic7_13"@ <==> t is Diatonic7_13,
        t.spelled() == "sus4_7"@ <==> t is Sus4_7,
        t.spelled() == "diatonic_full"@ <==> t is DiatonicFull,
        p.spelled() == "left_pinky"@ <==> p is LeftPinky,
        p.spelled() == "left_ring"@ <==> p is LeftRing,
        p.spelled() == "left_middle"@ <==> p is LeftMiddle,
        p.spelled() == "left_index"@ <==> p is LeftIndex,
        p.spelled() == "left_inner"@ <==> p is LeftInner,
        p.spelled() == "right_inner"@ <==> p is RightInner,
        p.spelled() == "right_index"@ <==> p is RightIndex,
        p.spelled() == "right_middle"@ <==> p is RightMiddle,
        p.spelled() == "right_ring"@ <==> p is RightRing,
        p.spelled() == "right_pinky"@ <==> p is RightPinky,
        p.spelled() == "left_pinky_below"@ <==> p is LeftPinkyBelow,
        p.spelled() == "left_ring_below"@ <==> p is LeftRingBelow,
        p.spelled() == "left_middle_below"@ <==> p is LeftMiddleBelow,
        p.spelled() == "left_index_below"@ <==> p is LeftIndexBelow,
        p.spelled() == "left_inner_below"@ <==> p is LeftInnerBelow,
        p.spelled() == "right_inner_below"@ <==> p is RightInnerBelow,
        p.spelled() == "right_index_below"@ <==> p is RightIndexBelow,
        p.spelled() == "right_middle_below"@ <==> p is RightMiddleBelow,
        p.spelled() == "right_ring_below"@ <==> p is RightRingBelow,
        p.spelled() == "right_pinky_below"@ <==> p is RightPinkyBelow,
        p.spelled() == "top_left"@ <==> p is TopLeft,
        p.spelled() == "top_row1"@ <==> p is TopRow1,
        p.spelled() == "top_row3"@ <==> p is TopRow3,
        p.spelled() == "top_row4"@ <==> p is TopRow4,
{
    if s.spelled() == "major"@ {
        law_scale_names_are_distinct(s, Scale::Major);
    }
    if s.spelled() == "minor"@ {
        law_scale_names_are_distinct(s, Scale::Minor);
    }
    if d.spelled() == "i"@ {
        law_degree_names_are_distinct(d, ScaleDegree::I);
    }
    if d.spelled() == "i_i"@ {
        law_degree_names_are_distinct(d, ScaleDegree::II);
    }
    if d.spelled() == "i_i_i"@ {
        law_degree_names_are_distinct(d, ScaleDegree::III);
    }
    if d.spelled() == "i_v"@ {
        law_degree_names_are_distinct(d, ScaleDegree::IV);
    }
    if d.spelled() == "v"@ {
        law_degree_names_are_distinct(d, ScaleDegree::V);
    }
    if d.spelled() == "v_i"@ {
        law_degree_names_are_distinct(d, ScaleDegree::VI);
    }
    if d.spelled() == "v_i_i"@ {
        law_degree_names_are_distinct(d, ScaleDegree::VII);
    }
    if t.spelled() == "dom7"@ {
        law_transformation_names_are_distinct(t, Transformation::Dom7);
    }
    if t.spelled() == "dom7b9"@ {
        law_transformation_names_are_distinct(t, Transformation::Dom7b9);
    }
    if t.spelled() == "dom9"@ {
        law_transformation_names_are_distinct(t, Transformation::Dom9);
    }
    if t.spelled() == "min7b5"@ {
        law_transformation_names_are_distinct(t, Transformation::Min7b5);
    }
    if t.spelled() == "sus2"@ {
        law_transformation_names_are_distinct(t, Transformation::Sus2);
    }
    if t.spelled() == "six_nine"@ {
        law_transformation_names_are_distinct(t, Transformation::SixNine);
    }
    if t.spelled() == "dim7"@ {
        law_transformation_names_are_distinct(t, Transformation::Dim7);
    }
    if t.spelled() == "dom7s9"@ {
        law_transformation_names_are_distinct(t, Transformation::Dom7s9);
    }
    if t.spelled() == "min9"@ {
        law_transformation_names_are_distinct(t, Transformation::Min9);
    }
    if t.spelled() == "aug"@ {
        law_transformation_names_are_distinct(t, Transformation::Aug);
    }
    if t.spelled() == "maj7s11"@ {
        law_transformation_names_are_distinct(t, Transformation::Maj7s11);
    }
    if t.spelled() == "dom7s11"@ {
        law_transformation_names_are_distinct(t, Transformation::Dom7s11);
    }
    if t.spelled() == "min_maj7"@ {
        law_transformation_names_are_distinct(t, Transformation::MinMaj7);
    }
    if t.spelled() == "eleven"@ {
        law_transformation_names_are_distinct(t, Transformation::Eleven);
    }
    if t.spelled() == "thirteen"@ {
        law_transformation_names_are_distinct(t, Transformation::Thirteen);
    }
    if t.spelled() == "diatonic7"@ {
        law_transformation_names_are_distinct(t, Transformation::Diatonic7);
    }
    if t.spelled() == "diatonic9"@ {
        law_transformation_names_are_distinct(t, Transformation::Diatonic9);
    }
    if t.spelled() == "sus4"@ {
        law_transformation_names_are_distinct(t, Transformation::Sus4);
    }
    if t.spelled() == "diatonic6"@ {
        law_transformation_names_are_distinct(t, Transformation::Diatonic6);
    }
    if t.spelled() == "diatonic7_9"@ {
        law_transformation_names_are_distinct(t, Transformation::Diatonic7_9);
    }
    if t.spelled() == "diatonic7_13"@ {
        law_transformation_names_are_distinct(t, Transformation::Diatonic7_13);
    }
    if t.spelled() == "sus4_7"@ {
        law_transformation_names_are_distinct(t, Transformation::Sus4_7);
    }
    if t.spelled() == "diatonic_full"@ {
        law_transformation_names_are_distinct(t, Transformation::DiatonicFull);
    }
    if p.spelled() == "left_pinky"@ {
        law_position_names_are_distinct(p, KeyPosition::LeftPinky);
    }
    if p.spelled() == "left_ring"@ {
        law_position_names_are_distinct(p, KeyPosition::LeftRing);
    }
    if p.spelled() == "left_middle"@ {
        law_position_names_are_distinct(p, KeyPosition::LeftMiddle);
    }
    if p.spelled() == "left_index"@ {
        law_position_names_are_distinct(p, KeyPosition::LeftIndex);
    }
    if p.spelled() == "left_inner"@ {
        law_position_names_are_distinct(p, KeyPosition::LeftInner);
    }
    if p.spelled() == "right_inner"@ {
        law_position_names_are_distinct(p, KeyPosition::RightInner);
    }
    if p.spelled() == "right_index"@ {
        law_position_names_are_distinct(p, KeyPosition::RightIndex);
    }
    if p.spelled() == "right_middle"@ {
        law_position_names_are_distinct(p, KeyPosition::RightMiddle);
    }
    if p.spelled() == "right_ring"@ {
        law_position_names_are_distinct(p, KeyPosition::RightRing);
    }
    if p.spelled() == "right_pinky"@ {
        law_position_names_are_distinct(p, KeyPosition::RightPinky);
    }
    if p.spelled() == "left_pinky_below"@ {
        law_position_names_are_distinct(p, KeyPosition::LeftPinkyBelow);
    }
    if p.spelled() == "left_ring_below"@ {
        law_position_names_are_distinct(p, KeyPosition::LeftRingBelow);
    }
    if p.spelled() == "left_middle_below"@ {
        law_position_names_are_distinct(p, KeyPosition::LeftMiddleBelow);
    }
    if p.spelled() == "left_index_below"@ {
        law_position_names_are_distinct(p, KeyPosition::LeftIndexBelow);
    }
    if p.spelled() == "left_inner_below"@ {
        law_position_names_are_distinct(p, KeyPosition::LeftInnerBelow);
    }
    if p.spelled() == "right_inner_below"@ {
        law_position_names_are_distinct(p, KeyPosition::RightInnerBelow);
    }
    if p.spelled() == "right_index_below"@ {
        law_position_names_are_distinct(p, KeyPosition::RightIndexBelow);
    }
    if p.spelled() == "right_middle_below"@ {
        law_position_names_are_distinct(p, KeyPosition::RightMiddleBelow);
    }
    if p.spelled() == "right_ring_below"@ {
        law_position_names_are_distinct(p, KeyPosition::RightRingBelow);
    }
    if p.spelled() == "right_pinky_below"@ {
        law_position_names_are_distinct(p, KeyPosition::RightPinkyBelow);
    }
    if p.spelled() == "top_left"@ {
        law_position_names_are_distinct(p, KeyPosition::TopLeft);
    }
    if p.spelled() == "top_row1"@ {
        law_position_names_are_distinct(p, KeyPosition::TopRow1);
    }
    if p.spelled() == "top_row3"@ {
        law_position_names_are_distinct(p, KeyPosition::TopRow3);
    }
    if p.spelled() == "top_row4"@ {
        law_position_names_are_distinct(p, KeyPosition::TopRow4);
    }
}

} // verus!
