//! Position sets -> musical intent.
//!
//! The two hands are disjoint, so each is extracted independently from the same set. This module
//! knows nothing about keyboard layouts.

use vstd::prelude::*;

use crate::keyboard::{hand_of, KeyPosition, PositionSet};
use crate::music::{ScaleDegree, Transformation};

verus! {

/// The left-hand shape of a degree.
pub open spec fn degree_shape(degree: ScaleDegree) -> Set<KeyPosition> {
    match degree {
        ScaleDegree::I => set![KeyPosition::LeftIndex],
        ScaleDegree::II => set![KeyPosition::LeftPinky],
        ScaleDegree::III => set![KeyPosition::LeftPinky, KeyPosition::LeftRing],
        ScaleDegree::IV => set![KeyPosition::LeftMiddle, KeyPosition::LeftIndex],
        ScaleDegree::V => set![KeyPosition::LeftMiddle],
        ScaleDegree::VI => set![KeyPosition::LeftRing],
        ScaleDegree::VII => set![KeyPosition::LeftPinky, KeyPosition::LeftRing, KeyPosition::LeftMiddle],
    }
}

/// The right-hand shape of a transformation.
pub open spec fn transformation_shape(t: Transformation) -> Set<KeyPosition> {
    match t {
        Transformation::Dom7 => set![KeyPosition::RightIndex],
        Transformation::Dom7b9 => set![KeyPosition::RightMiddle],
        Transformation::Dom9 => set![KeyPosition::RightRing],
        Transformation::Min7b5 => set![KeyPosition::RightPinky],
        Transformation::Sus2 => set![KeyPosition::RightIndex, KeyPosition::RightMiddle],
        Transformation::SixNine => set![KeyPosition::RightRing, KeyPosition::RightPinky],
        Transformation::Dim7 => set![KeyPosition::RightIndex, KeyPosition::RightRing],
        Transformation::Dom7s9 => set![KeyPosition::RightIndex, KeyPosition::RightPinky],
        Transformation::Min9 => set![KeyPosition::RightMiddle, KeyPosition::RightRing],
        Transformation::Aug => set![KeyPosition::RightMiddle, KeyPosition::RightPinky],
        Transformation::Maj7s11 => set![KeyPosition::RightIndex, KeyPosition::RightMiddle, KeyPosition::RightRing],
        Transformation::Dom7s11 => set![KeyPosition::RightMiddle, KeyPosition::RightRing, KeyPosition::RightPinky],
        Transformation::MinMaj7 => set![KeyPosition::RightIndex, KeyPosition::RightMiddle, KeyPosition::RightPinky],
        Transformation::Eleven => set![KeyPosition::RightIndex, KeyPosition::RightRing, KeyPosition::RightPinky],
        Transformation::Thirteen => set![KeyPosition::RightIndex, KeyPosition::RightMiddle, KeyPosition::RightRing, KeyPosition::RightPinky],
        Transformation::Diatonic7 => set![KeyPosition::RightInner],
        Transformation::Diatonic9 => set![KeyPosition::RightInner, KeyPosition::RightIndex],
        Transformation::Sus4 => set![KeyPosition::RightInner, KeyPosition::RightMiddle],
        Transformation::Diatonic6 => set![KeyPosition::RightInner, KeyPosition::RightRing],
        Transformation::Diatonic7_9 => set![KeyPosition::RightInner, KeyPosition::RightIndex, KeyPosition::RightMiddle],
        Transformation::Diatonic7_13 => set![KeyPosition::RightInner, KeyPosition::RightIndex, KeyPosition::RightRing],
        Transformation::Sus4_7 => set![KeyPosition::RightInner, KeyPosition::RightMiddle, KeyPosition::RightRing],
        Transformation::DiatonicFull => set![KeyPosition::RightInner, KeyPosition::RightIndex, KeyPosition::RightMiddle, KeyPosition::RightRing],
    }
}

/// The five left-hand flags of a set, outer to inner.
spec fn left_flags(s: Set<KeyPosition>) -> (bool, bool, bool, bool, bool) {
    (
        s.contains(KeyPosition::LeftPinky),
        s.contains(KeyPosition::LeftRing),
        s.contains(KeyPosition::LeftMiddle),
        s.contains(KeyPosition::LeftIndex),
        s.contains(KeyPosition::LeftInner),
    )
}

/// The five right-hand flags of a set, inner to outer.
spec fn right_flags(s: Set<KeyPosition>) -> (bool, bool, bool, bool, bool) {
    (
        s.contains(KeyPosition::RightInner),
        s.contains(KeyPosition::RightIndex),
        s.contains(KeyPosition::RightMiddle),
        s.contains(KeyPosition::RightRing),
        s.contains(KeyPosition::RightPinky),
    )
}

/// A hand is known by its flags.
proof fn lemma_left_flags(s: Set<KeyPosition>, degree: ScaleDegree)
    ensures
        hand_of(s, true) == degree_shape(degree) <==> left_flags(s) == left_flags(degree_shape(degree)),
{
    let a = hand_of(s, true);
    let b = degree_shape(degree);
    assert(left_flags(a) == left_flags(s));
    if left_flags(s) == left_flags(b) {
        assert forall|p: KeyPosition| a.contains(p) == b.contains(p) by {
            if p.left() {
            }
        }
        assert(a =~= b);
    }
}

/// A hand is known by its flags.
proof fn lemma_right_flags(s: Set<KeyPosition>, t: Transformation)
    ensures
        hand_of(s, false) == transformation_shape(t) <==> right_flags(s) == right_flags(transformation_shape(t)),
{
    let a = hand_of(s, false);
    let b = transformation_shape(t);
    assert(right_flags(a) == right_flags(s));
    if right_flags(s) == right_flags(b) {
        assert forall|p: KeyPosition| a.contains(p) == b.contains(p) by {
            if p.right() {
            }
        }
        assert(a =~= b);
    }
}

/// Map the left-hand positions in a set to a scale degree.
pub fn left_hand_degree(positions: &PositionSet) -> (r: Option<ScaleDegree>)
    ensures
        match r {
            Some(d) => hand_of(positions@, true) == degree_shape(d),
            None => forall|d: ScaleDegree| hand_of(positions@, true) != degree_shape(d),
        },
{
    let a: bool = positions.contains(&KeyPosition::LeftPinky);
    let s: bool = positions.contains(&KeyPosition::LeftRing);
    let d: bool = positions.contains(&KeyPosition::LeftMiddle);
    let f: bool = positions.contains(&KeyPosition::LeftIndex);
    let g: bool = positions.contains(&KeyPosition::LeftInner);
    proof {
        assert forall|degree: ScaleDegree| hand_of(positions@, true) == degree_shape(degree)
            <==> left_flags(positions@) == left_flags(degree_shape(degree)) by {
            lemma_left_flags(positions@, degree);
        }
    }
    if g {
        return None;
    }
    match (a, s, d, f) {
        (false, false, false, true) => Some(ScaleDegree::I),
        (true, false, false, false) => Some(ScaleDegree::II),
        (true, true, false, false) => Some(ScaleDegree::III),
        (false, false, true, true) => Some(ScaleDegree::IV),
        (false, false, true, false) => Some(ScaleDegree::V),
        (false, true, false, false) => Some(ScaleDegree::VI),
        (true, true, true, false) => Some(ScaleDegree::VII),
        _ => None,
    }
}

/// Map the right-hand positions in a set to a chord transformation.
pub fn right_hand_transformation(positions: &PositionSet) -> (r: Option<Transformation>)
    ensures
        match r {
            Some(t) => hand_of(positions@, false) == transformation_shape(t),
            None => forall|t: Transformation| hand_of(positions@, false) != transformation_shape(t),
        },
{
    let h: bool = positions.contains(&KeyPosition::RightInner);
    let j: bool = positions.contains(&KeyPosition::RightIndex);
    let k: bool = positions.contains(&KeyPosition::RightMiddle);
    let l: bool = positions.contains(&KeyPosition::RightRing);
    let p: bool = positions.contains(&KeyPosition::RightPinky);
    proof {
        assert forall|t: Transformation| hand_of(positions@, false) == transformation_shape(t)
            <==> right_flags(positions@) == right_flags(transformation_shape(t)) by {
            lemma_right_flags(positions@, t);
        }
    }
    if h {
        if p {
            return None;
        }
        return match (j, k, l) {
            (false, false, false) => Some(Transformation::Diatonic7),
            (true, false, false) => Some(Transformation::Diatonic9),
            (false, true, false) => Some(Transformation::Sus4),
            (false, false, true) => Some(Transformation::Diatonic6),
            (true, true, false) => Some(Transformation::Diatonic7_9),
            (true, false, true) => Some(Transformation::Diatonic7_13),
            (false, true, true) => Some(Transformation::Sus4_7),
            (true, true, true) => Some(Transformation::DiatonicFull),
        };
    }
    match (j, k, l, p) {
        (true, false, false, false) => Some(Transformation::Dom7),
        (false, true, false, false) => Some(Transformation::Dom7b9),
        (false, false, true, false) => Some(Transformation::Dom9),
        (false, false, false, true) => Some(Transformation::Min7b5),
        (true, true, false, false) => Some(Transformation::Sus2),
        (false, false, true, true) => Some(Transformation::SixNine),
        (true, false, true, false) => Some(Transformation::Dim7),
        (true, false, false, true) => Some(Transformation::Dom7s9),
        (false, true, true, false) => Some(Transformation::Min9),
        (false, true, false, true) => Some(Transformation::Aug),
        (true, true, true, false) => Some(Transformation::Maj7s11),
        (false, true, true, true) => Some(Transformation::Dom7s11),
        (true, true, false, true) => Some(Transformation::MinMaj7),
        (true, false, true, true) => Some(Transformation::Eleven),
        (true, true, true, true) => Some(Transformation::Thirteen),
        (false, false, false, false) => None,
    }
}

// -----------------------------------------------------------------------------
// Laws
// -----------------------------------------------------------------------------

/// No two degrees share a shape, and no two transformations do.
pub proof fn law_shapes_are_distinct(d: ScaleDegree, e: ScaleDegree, t: Transformation, u: Transformation)
    ensures
        degree_shape(d) == degree_shape(e) ==> d == e,
        transformation_shape(t) == transformation_shape(u) ==> t == u,
{
    if degree_shape(d) == degree_shape(e) {
        assert(left_flags(degree_shape(d)) == left_flags(degree_shape(e)));
    }
    if transformation_shape(t) == transformation_shape(u) {
        assert(right_flags(transformation_shape(t)) == right_flags(transformation_shape(u)));
    }
}

/// A shape is made of one hand's home-row positions, and none of them carries an action.
pub proof fn law_shapes_hold_no_hotkeys(d: ScaleDegree, t: Transformation, p: KeyPosition)
    ensures
        degree_shape(d).contains(p) ==> p.left() && p.action() is None,
        transformation_shape(t).contains(p) ==> p.right() && p.action() is None,
{
}

/// Both hands of a chord are read from one set: a shape of each, held together, gives both back.
pub proof fn law_hands_are_independent(d: ScaleDegree, t: Transformation)
    ensures
        hand_of(degree_shape(d).union(transformation_shape(t)), true) == degree_shape(d),
        hand_of(degree_shape(d).union(transformation_shape(t)), false) == transformation_shape(t),
{
    let s = degree_shape(d).union(transformation_shape(t));
    assert forall|p: KeyPosition| hand_of(s, true).contains(p) == degree_shape(d).contains(p) by {
        law_shapes_hold_no_hotkeys(d, t, p);
    }
    assert(hand_of(s, true) =~= degree_shape(d));
    assert forall|p: KeyPosition| hand_of(s, false).contains(p) == transformation_shape(t).contains(p) by {
        law_shapes_hold_no_hotkeys(d, t, p);
    }
    assert(hand_of(s, false) =~= transformation_shape(t));
}

/// `LeftInner` is no part of the grammar: a held set with it has no degree.
pub proof fn law_left_inner_breaks_every_degree(s: Set<KeyPosition>, d: ScaleDegree)
    requires
        s.contains(KeyPosition::LeftInner),
    ensures
        hand_of(s, true) != degree_shape(d),
{
    assert(hand_of(s, true).contains(KeyPosition::LeftInner));
}

/// The right hand's inner key chooses the grammar: a shape holds it exactly when its transformation is
/// of the H mode. No shape holds a key of the left hand, and the little finger rests in the H mode.
pub proof fn law_the_inner_key_chooses_the_grammar(t: Transformation)
    ensures
        transformation_shape(t).contains(KeyPosition::RightInner) <==> t.grammar() is H,
        t.grammar() is H ==> !transformation_shape(t).contains(KeyPosition::RightPinky),
        !transformation_shape(t).contains(KeyPosition::LeftPinky),
        !transformation_shape(t).contains(KeyPosition::LeftRing),
        !transformation_shape(t).contains(KeyPosition::LeftMiddle),
        !transformation_shape(t).contains(KeyPosition::LeftIndex),
        !transformation_shape(t).contains(KeyPosition::LeftInner),
{
}

} // verus!
