//! Idle chimes: short portamento gestures that fire every 4 bars when the transport is idle. Each
//! chime is three voices (low, mid, high) gliding from a start pitch to an end pitch over a fixed
//! duration.

use vstd::prelude::*;

verus! {

#[derive(Copy, Clone, Debug)]
pub struct ChimePair {
    pub name: &'static str,
    /// Low, mid, high.
    pub start: [u8; 3],
    pub end: [u8; 3],
}

/// Where every chime ends: C4 G4 C5.
pub const CHIME_TARGET: [u8; 3] = [60, 67, 72];

/// F3 C4 F4, a fourth below.
pub const RISE: [u8; 3] = [53, 60, 65];

/// F4 C5 F5, a fourth above.
pub const FALL: [u8; 3] = [65, 72, 77];

/// C3 E5 C6, from either side.
pub const CONVERGE: [u8; 3] = [48, 76, 84];

/// B3 F#4 B4, a semitone below.
pub const CREEP: [u8; 3] = [59, 66, 71];

/// C3 G3 E4, an octave below.
pub const OCTAVE: [u8; 3] = [48, 55, 64];

/// The chimes, in the order in which they fire.
pub fn chimes() -> (r: [ChimePair; 5])
    ensures
        r@[0].name@ == "Rise"@ && r@[0].start == RISE,
        r@[1].name@ == "Fall"@ && r@[1].start == FALL,
        r@[2].name@ == "Converge"@ && r@[2].start == CONVERGE,
        r@[3].name@ == "Creep"@ && r@[3].start == CREEP,
        r@[4].name@ == "Octave"@ && r@[4].start == OCTAVE,
        forall|i: int| 0 <= i < 5 ==> (#[trigger] r@[i]).end == CHIME_TARGET,
        forall|i: int, v: int|
            0 <= i < 5 && 0 <= v < 3 ==> #[trigger] r@[i].start@[v] <= 127 && r@[i].end@[v] <= 127,
{
    [
        ChimePair { name: "Rise", start: RISE, end: CHIME_TARGET },
        ChimePair { name: "Fall", start: FALL, end: CHIME_TARGET },
        ChimePair { name: "Converge", start: CONVERGE, end: CHIME_TARGET },
        ChimePair { name: "Creep", start: CREEP, end: CHIME_TARGET },
        ChimePair { name: "Octave", start: OCTAVE, end: CHIME_TARGET },
    ]
}

/// How long the glide of a chime takes, in seconds: the bit pattern of 1.8. A short hold follows
/// before the release envelope takes over.
pub const CHIME_GLIDE_SECS: u32 = 0x3FE6_6666;

/// How long to hold at the target pitch before releasing, in seconds: the bit pattern of 0.2.
pub const CHIME_HOLD_SECS: u32 = 0x3E4C_CCCD;

} // verus!
