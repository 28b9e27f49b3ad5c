//! The synth's decisions: which voices play what, how an envelope moves on, and how a patch maps to
//! settings. The samples themselves are made elsewhere.
//!
//! Three channels (low, mid, high), each with its own sound-design params and its own pair of voice
//! pools: one for the progression, one for the idle chime.

use vstd::arithmetic::power2::{lemma2_to64, lemma_pow2_unfold, pow2};
use vstd::prelude::*;

use crate::midi::{ascending, distinct_notes, law_distinct_notes_ascend};
use crate::music::clamped;
use crate::presets::{
    ChannelPatch, MixerPatch, Patch, PatchModel, N0, N0_005, N0_03, N0_05, N0_1, N0_2, N0_5, N0_7,
    N1, N2, N3, N4, N4000, N5,
};
use crate::single::{
    law_one_times_a_number_is_it, law_patterns_up_to_one_are_up_to_one, law_whole_products_are_cut,
    Single,
};

verus! {

// -----------------------------------------------------------------------------
// Voice pool sizes
// -----------------------------------------------------------------------------

pub const PROG_LOW: usize = 1;
pub const PROG_MID: usize = 4;
pub const PROG_HIGH: usize = 1;
pub const PREVIEW_LOW: usize = 1;
pub const PREVIEW_MID: usize = 1;
pub const PREVIEW_HIGH: usize = 1;

// -----------------------------------------------------------------------------
// Waveform
// -----------------------------------------------------------------------------

#[derive(Copy, Clone, Debug, PartialEq, Eq, Structural)]
pub enum Waveform {
    Sine,
    Saw,
    Square,
    Triangle,
}

impl Waveform {
    /// Every waveform, in the order of their numbers.
    pub const ALL: [Waveform; 4] = [
        Waveform::Sine,
        Waveform::Saw,
        Waveform::Square,
        Waveform::Triangle,
    ];

    /// The name of the waveform, on screen and in a file.
    pub open spec fn shown(self) -> Seq<char> {
        match self {
            Waveform::Sine => "sine"@,
            Waveform::Saw => "saw"@,
            Waveform::Square => "square"@,
            Waveform::Triangle => "triangle"@,
        }
    }

    /// The number of the waveform as a setting.
    pub open spec fn setting(self) -> Single {
        match self {
            Waveform::Sine => Single { bits: N0 },
            Waveform::Saw => Single { bits: N1 },
            Waveform::Square => Single { bits: N2 },
            Waveform::Triangle => Single { bits: N3 },
        }
    }

    /// The waveform that a setting means: 1, 2 and 3, fractions cut off; anything else is a sine.
    pub open spec fn meant_by(v: Single) -> Waveform {
        let at_least_1 = !v.nan() && !v.below(Single { bits: N1 });
        if at_least_1 && v.below(Single { bits: N2 }) {
            Waveform::Saw
        } else if at_least_1 && v.below(Single { bits: N3 }) {
            Waveform::Square
        } else if at_least_1 && v.below(Single { bits: N4 }) {
            Waveform::Triangle
        } else {
            Waveform::Sine
        }
    }

    pub fn name(self) -> (r: &'static str)
        ensures
            r@ == self.shown(),
    {
        match self {
            Waveform::Sine => "sine",
            Waveform::Saw => "saw",
            Waveform::Square => "square",
            Waveform::Triangle => "triangle",
        }
    }

    /// The number of the waveform as a setting.
    pub fn to_setting(self) -> (r: Single)
        ensures
            r == self.setting(),
    {
        match self {
            Waveform::Sine => Single { bits: N0 },
            Waveform::Saw => Single { bits: N1 },
            Waveform::Square => Single { bits: N2 },
            Waveform::Triangle => Single { bits: N3 },
        }
    }

    pub fn from_f32(v: Single) -> (r: Self)
        ensures
            r == Waveform::meant_by(v),
    {
        if v.is_nan() || v.less(Single { bits: N1 }) {
            Waveform::Sine
        } else if v.less(Single { bits: N2 }) {
            Waveform::Saw
        } else if v.less(Single { bits: N3 }) {
            Waveform::Square
        } else if v.less(Single { bits: N4 }) {
            Waveform::Triangle
        } else {
            Waveform::Sine
        }
    }
}

// -----------------------------------------------------------------------------
// ChannelParams / SynthParams
// -----------------------------------------------------------------------------

#[derive(Copy, Clone, Debug, PartialEq)]
pub struct ChannelParams {
    pub volume: Single,
    pub waveform: Single,
    pub attack: Single,
    pub decay: Single,
    pub sustain: Single,
    pub release: Single,
    pub cutoff: Single,
    pub resonance: Single,
    pub transpose: Single,
    pub reverb_send: Single,
    pub pan: Single,
}

/// The settings of a channel at start-up.
pub open spec fn default_channel(volume: Single, cutoff: Single) -> ChannelParams {
    ChannelParams {
        volume,
        waveform: Waveform::Sine.setting(),
        attack: Single { bits: N0_005 },
        decay: Single { bits: N0_05 },
        sustain: Single { bits: N0_7 },
        release: Single { bits: N0_1 },
        cutoff,
        resonance: Single { bits: N0_2 },
        transpose: Single { bits: N0 },
        reverb_send: Single { bits: N0 },
        pan: Single { bits: N0 },
    }
}

/// The settings of a channel that a patch describes.
pub open spec fn applied_channel(src: ChannelPatch) -> ChannelParams {
    ChannelParams {
        volume: src.volume,
        waveform: src.waveform.setting(),
        attack: src.attack,
        decay: src.decay,
        sustain: src.sustain,
        release: src.release,
        cutoff: src.cutoff,
        resonance: src.resonance,
        transpose: src.transpose,
        reverb_send: src.reverb_send,
        pan: src.pan,
    }
}

/// The patch that describes a channel's settings.
pub open spec fn captured_channel(src: ChannelParams) -> ChannelPatch {
    ChannelPatch {
        volume: src.volume,
        waveform: Waveform::meant_by(src.waveform),
        attack: src.attack,
        decay: src.decay,
        sustain: src.sustain,
        release: src.release,
        cutoff: src.cutoff,
        resonance: src.resonance,
        transpose: src.transpose,
        reverb_send: src.reverb_send,
        pan: src.pan,
    }
}

impl ChannelParams {
    pub fn defaults(volume: Single, cutoff: Single) -> (r: Self)
        ensures
            r == default_channel(volume, cutoff),
    {
        ChannelParams {
            volume,
            waveform: Waveform::Sine.to_setting(),
            attack: Single { bits: N0_005 },
            decay: Single { bits: N0_05 },
            sustain: Single { bits: N0_7 },
            release: Single { bits: N0_1 },
            cutoff,
            resonance: Single { bits: N0_2 },
            transpose: Single { bits: N0 },
            reverb_send: Single { bits: N0 },
            pan: Single { bits: N0 },
        }
    }
}

fn apply_channel(dst: &mut ChannelParams, src: &ChannelPatch)
    ensures
        *final(dst) == applied_channel(*src),
{
    dst.volume = src.volume;
    dst.waveform = src.waveform.to_setting();
    dst.attack = src.attack;
    dst.decay = src.decay;
    dst.sustain = src.sustain;
    dst.release = src.release;
    dst.cutoff = src.cutoff;
    dst.resonance = src.resonance;
    dst.transpose = src.transpose;
    dst.reverb_send = src.reverb_send;
    dst.pan = src.pan;
}

fn capture_channel(src: &ChannelParams) -> (r: ChannelPatch)
    ensures
        r == captured_channel(*src),
{
    ChannelPatch {
        volume: src.volume,
        waveform: Waveform::from_f32(src.waveform),
        attack: src.attack,
        decay: src.decay,
        sustain: src.sustain,
        release: src.release,
        cutoff: src.cutoff,
        resonance: src.resonance,
        transpose: src.transpose,
        reverb_send: src.reverb_send,
        pan: src.pan,
    }
}

#[derive(Copy, Clone, Debug, PartialEq)]
pub struct SynthParams {
    pub low: ChannelParams,
    pub mid: ChannelParams,
    pub high: ChannelParams,
    pub reverb_mix: Single,
    pub reverb_size: Single,
    pub master_volume: Single,
    pub master_mute: Single,
    pub mute_progression: Single,
    pub preview_fade: Single,
}

/// A switch as a setting.
pub open spec fn switch(on: bool) -> Single {
    Single { bits: if on { N1 } else { N0 } }
}

/// The settings that a patch describes, over those there were: the progression's mute is no part of
/// a patch.
pub open spec fn applied(before: SynthParams, patch: PatchModel) -> SynthParams {
    SynthParams {
        low: applied_channel(patch.low),
        mid: applied_channel(patch.mid),
        high: applied_channel(patch.high),
        reverb_mix: patch.mixer.reverb_mix,
        reverb_size: patch.mixer.reverb_size,
        master_volume: patch.mixer.master_volume,
        master_mute: switch(patch.mixer.master_mute),
        mute_progression: before.mute_progression,
        preview_fade: patch.mixer.preview_fade,
    }
}

/// The patch that describes some settings. The note length is the transport's.
pub open spec fn captured(params: SynthParams, name: Seq<char>, note_length: Single) -> PatchModel {
    PatchModel {
        name,
        low: captured_channel(params.low),
        mid: captured_channel(params.mid),
        high: captured_channel(params.high),
        mixer: MixerPatch {
            reverb_mix: params.reverb_mix,
            reverb_size: params.reverb_size,
            master_volume: params.master_volume,
            master_mute: (Single { bits: N0_5 }).below(params.master_mute),
            preview_fade: params.preview_fade,
            note_length,
        },
    }
}

impl SynthParams {
    pub fn defaults() -> (r: Self)
        ensures
            r == (SynthParams {
                low: default_channel(Single { bits: N4 }, Single { bits: N4000 }),
                mid: default_channel(Single { bits: N4 }, Single { bits: N4000 }),
                high: default_channel(Single { bits: N4 }, Single { bits: N4000 }),
                reverb_mix: Single { bits: N0 },
                reverb_size: Single { bits: N0_5 },
                master_volume: Single { bits: N5 },
                master_mute: Single { bits: N0 },
                mute_progression: Single { bits: N0 },
                preview_fade: Single { bits: N0_03 },
            }),
    {
        SynthParams {
            low: ChannelParams::defaults(Single { bits: N4 }, Single { bits: N4000 }),
            mid: ChannelParams::defaults(Single { bits: N4 }, Single { bits: N4000 }),
            high: ChannelParams::defaults(Single { bits: N4 }, Single { bits: N4000 }),
            reverb_mix: Single { bits: N0 },
            reverb_size: Single { bits: N0_5 },
            master_volume: Single { bits: N5 },
            master_mute: Single { bits: N0 },
            mute_progression: Single { bits: N0 },
            preview_fade: Single { bits: N0_03 },
        }
    }

    pub fn apply_patch(&mut self, patch: &Patch)
        ensures
            *final(self) == applied(*old(self), patch@),
    {
        apply_channel(&mut self.low, &patch.low);
        apply_channel(&mut self.mid, &patch.mid);
        apply_channel(&mut self.high, &patch.high);
        self.reverb_mix = patch.mixer.reverb_mix;
        self.reverb_size = patch.mixer.reverb_size;
        self.master_volume = patch.mixer.master_volume;
        self.master_mute = Single { bits: if patch.mixer.master_mute { N1 } else { N0 } };
        self.preview_fade = patch.mixer.preview_fade;
    }

    pub fn capture_patch(&self, name: &str, note_length: Single) -> (r: Patch)
        ensures
            r@ == captured(*self, name@, note_length),
    {
        Patch {
            name: name.to_owned(),
            low: capture_channel(&self.low),
            mid: capture_channel(&self.mid),
            high: capture_channel(&self.high),
            mixer: MixerPatch {
                reverb_mix: self.reverb_mix,
                reverb_size: self.reverb_size,
                master_volume: self.master_volume,
                master_mute: Single { bits: N0_5 }.less(self.master_mute),
                preview_fade: self.preview_fade,
                note_length,
            },
        }
    }
}

// -----------------------------------------------------------------------------
// Envelope
// -----------------------------------------------------------------------------

#[derive(Copy, Clone, Debug, PartialEq, Eq, Structural)]
pub enum EnvState {
    Idle,
    Attack,
    Decay,
    Sustain,
    Release,
}

impl EnvState {
    /// The state after one sample. `arrived` says that the level has come to the end of the state's
    /// own segment: to the top of the attack, down to the sustain level, or down to nothing.
    pub open spec fn after(self, gate_on: bool, arrived: bool) -> EnvState {
        match self {
            EnvState::Idle => if gate_on {
                EnvState::Attack
            } else {
                EnvState::Idle
            },
            EnvState::Attack => if !gate_on {
                EnvState::Release
            } else if arrived {
                EnvState::Decay
            } else {
                EnvState::Attack
            },
            EnvState::Decay => if !gate_on {
                EnvState::Release
            } else if arrived {
                EnvState::Sustain
            } else {
                EnvState::Decay
            },
            EnvState::Sustain => if !gate_on {
                EnvState::Release
            } else {
                EnvState::Sustain
            },
            EnvState::Release => if gate_on {
                EnvState::Attack
            } else if arrived {
                EnvState::Idle
            } else {
                EnvState::Release
            },
        }
    }

    /// The state after one sample.
    pub fn next(self, gate_on: bool, arrived: bool) -> (r: EnvState)
        ensures
            r == self.after(gate_on, arrived),
    {
        match self {
            EnvState::Idle => if gate_on { EnvState::Attack } else { EnvState::Idle },
            EnvState::Attack => {
                let reached: EnvState = if arrived { EnvState::Decay } else { EnvState::Attack };
                if gate_on { reached } else { EnvState::Release }
            },
            EnvState::Decay => {
                let reached: EnvState = if arrived { EnvState::Sustain } else { EnvState::Decay };
                if gate_on { reached } else { EnvState::Release }
            },
            EnvState::Sustain => if gate_on { EnvState::Sustain } else { EnvState::Release },
            EnvState::Release => {
                let reached: EnvState = if arrived { EnvState::Idle } else { EnvState::Release };
                if gate_on { EnvState::Attack } else { reached }
            },
        }
    }

    /// Whether a voice that was in this state and is now in `next` has just been triggered, so that
    /// its glide and its hold start over.
    pub fn triggers(self, next: EnvState) -> (r: bool)
        ensures
            r == (!(self is Attack) && next is Attack),
    {
        self != EnvState::Attack && next == EnvState::Attack
    }
}

// -----------------------------------------------------------------------------
// Voices
// -----------------------------------------------------------------------------

/// The pattern of a whole number up to 255.
pub open spec fn whole(v: Single, n: int) -> bool {
    &&& v.bits < 0x8000_0000
    &&& v.power() < 0
    &&& v.significand() == n * pow2((-v.power()) as nat)
    &&& n == 0 ==> v.bits == 0
}

/// The pattern of `n`.
pub fn note_value(n: u8) -> (r: Single)
    ensures
        whole(r, n as int),
{
    if n == 0 {
        return Single { bits: 0 };
    }
    let mut m: u32 = n as u32;
    let mut e: u32 = 0;
    proof {
        lemma2_to64();
    }
    while m < 0x80_0000
        invariant
            0 < n,
            0 < m < 0x100_0000,
            e <= 23,
            m == n * pow2(e as nat),
            e < 16 ==> m < 0x80_0000,
            pow2(15) == 0x8000,
            pow2(23) == 0x80_0000,
        decreases 0x100_0000 - m,
    {
        proof {
            lemma_pow2_unfold((e + 1) as nat);
            assert(n * (2 * pow2(e as nat)) == 2 * (n * pow2(e as nat))) by (nonlinear_arith);
            if e == 23 {
                assert(n * pow2(23) >= 0x80_0000) by (nonlinear_arith)
                    requires
                        n >= 1,
                        pow2(23) == 0x80_0000,
                ;
            }
            if e + 1 < 16 {
                vstd::arithmetic::power2::lemma_pow2_strictly_increases((e + 1) as nat, 16);
                lemma2_to64();
                assert(n * pow2((e + 1) as nat) < 0x80_0000) by (nonlinear_arith)
                    requires
                        n <= 255,
                        pow2((e + 1) as nat) <= 0x8000,
                ;
            }
        }
        m = 2 * m;
        e = e + 1;
    }
    assert(e >= 16);
    let bits: u32 = (150 - e) * 0x80_0000 + (m - 0x80_0000);
    assert(bits / 0x80_0000 == 150 - e && bits % 0x80_0000 == m - 0x80_0000);
    Single { bits }
}

/// The controls of one voice.
#[derive(Copy, Clone, Debug, PartialEq)]
pub struct VoiceHandle {
    pub gate: Single,
    pub midi_note: Single,
    pub glide_from: Single,
    pub glide_duration_secs: Single,
    pub hold_secs: Single,
    pub release_override: Single,
}

impl VoiceHandle {
    /// The voice has not played: it is at middle C, its gate closed.
    pub open spec fn fresh(self) -> bool {
        &&& self.gate.bits == N0
        &&& whole(self.midi_note, 60)
        &&& whole(self.glide_from, 60)
        &&& self.glide_duration_secs.bits == N0
        &&& self.hold_secs.bits == N0
        &&& self.release_override.bits == N0
    }

    /// A voice that has not played.
    pub fn new() -> (r: Self)
        ensures
            r.fresh(),
    {
        VoiceHandle {
            gate: Single { bits: 0 },
            midi_note: note_value(60),
            glide_from: note_value(60),
            glide_duration_secs: Single { bits: 0 },
            hold_secs: Single { bits: 0 },
            release_override: Single { bits: 0 },
        }
    }

    /// The voice with its gate closed and nothing of its last note left.
    pub open spec fn released(self) -> VoiceHandle {
        VoiceHandle {
            gate: Single { bits: N0 },
            glide_duration_secs: Single { bits: N0 },
            release_override: Single { bits: N0 },
            ..self
        }
    }

    /// The voice with its gate closed, fading in the given time.
    pub open spec fn ducked(self, release_secs: Single) -> VoiceHandle {
        VoiceHandle { gate: Single { bits: N0 }, release_override: release_secs, ..self }
    }

    /// The voice plays `note` without a glide.
    pub open spec fn plays(self, note: u8) -> bool {
        &&& self.gate.bits == N1
        &&& whole(self.midi_note, note as int)
        &&& whole(self.glide_from, note as int)
        &&& self.glide_duration_secs.bits == N0
        &&& self.hold_secs.bits == N0
        &&& self.release_override.bits == N0
    }

    /// The voice glides from one note to another.
    pub open spec fn glides(self, from: u8, to: u8, duration_secs: Single, hold_secs: Single) -> bool {
        &&& self.gate.bits == N1
        &&& whole(self.midi_note, to as int)
        &&& whole(self.glide_from, from as int)
        &&& self.glide_duration_secs == duration_secs
        &&& self.hold_secs == hold_secs
        &&& self.release_override.bits == N0
    }

    pub fn reset(&mut self)
        ensures
            *final(self) == old(self).released(),
    {
        self.release_override = Single { bits: N0 };
        self.glide_duration_secs = Single { bits: N0 };
        self.gate = Single { bits: N0 };
    }

    pub fn duck(&mut self, release_secs: Single)
        ensures
            *final(self) == old(self).ducked(release_secs),
    {
        self.release_override = release_secs;
        self.gate = Single { bits: N0 };
    }

    /// Instant pitch change: no glide.
    pub fn trigger(&mut self, note: u8)
        ensures
            final(self).plays(note),
    {
        self.release_override = Single { bits: N0 };
        self.glide_duration_secs = Single { bits: N0 };
        self.hold_secs = Single { bits: N0 };
        self.glide_from = note_value(note);
        self.midi_note = note_value(note);
        self.gate = Single { bits: N1 };
    }

    /// Glide from a start pitch to a target pitch over `duration_secs`, then hold for `hold_secs`
    /// before auto-releasing.
    pub fn trigger_glide(&mut self, from: u8, to: u8, duration_secs: Single, hold_secs: Single)
        ensures
            final(self).glides(from, to, duration_secs, hold_secs),
    {
        self.release_override = Single { bits: N0 };
        self.glide_from = note_value(from);
        self.midi_note = note_value(to);
        self.glide_duration_secs = duration_secs;
        self.hold_secs = hold_secs;
        self.gate = Single { bits: N1 };
    }
}

// -----------------------------------------------------------------------------
// Allocation
// -----------------------------------------------------------------------------

/// Which notes the three pools play: as the layers are split, but a sparse chord is doubled an
/// octave out.
pub open spec fn allocated(notes: Seq<u8>) -> (Seq<u8>, Seq<u8>, Seq<u8>) {
    let s = ascending(notes, 256);
    if s.len() == 0 {
        (Seq::empty(), Seq::empty(), Seq::empty())
    } else if s.len() == 1 {
        (
            seq![clamped(s[0] - 12, 0, 127) as u8],
            seq![s[0]],
            seq![clamped(s[0] + 12, 0, 127) as u8],
        )
    } else if s.len() == 2 {
        (seq![s[0]], seq![s[1]], seq![clamped(s[1] + 12, 0, 127) as u8])
    } else {
        (seq![s[0]], s.subrange(1, s.len() - 1), seq![s.last()])
    }
}

fn octave_up(n: u8) -> (r: u8)
    ensures
        r == clamped(n + 12, 0, 127),
{
    if n > 115 {
        127
    } else {
        n + 12
    }
}

fn octave_down(n: u8) -> (r: u8)
    ensures
        r == clamped(n - 12, 0, 127),
{
    if n < 12 {
        0
    } else if n > 139 {
        127
    } else {
        n - 12
    }
}

pub fn allocate(notes: &[u8]) -> (r: (Vec<u8>, Vec<u8>, Vec<u8>))
    ensures
        (r.0@, r.1@, r.2@) == allocated(notes@),
{
    let all: Vec<u8> = distinct_notes(notes);
    let mut low: Vec<u8> = Vec::new();
    let mut mid: Vec<u8> = Vec::new();
    let mut high: Vec<u8> = Vec::new();
    if all.len() == 1 {
        low.push(octave_down(all[0]));
        mid.push(all[0]);
        high.push(octave_up(all[0]));
    } else if all.len() == 2 {
        low.push(all[0]);
        mid.push(all[1]);
        high.push(octave_up(all[1]));
    } else if all.len() > 2 {
        low.push(all[0]);
        high.push(all[all.len() - 1]);
        for i in 1..(all.len() - 1)
            invariant
                all@.len() > 2,
                mid@ == all@.subrange(1, i as int),
        {
            mid.push(all[i]);
            assert(mid@ =~= all@.subrange(1, i + 1));
        }
    }
    let ghost expected = allocated(notes@);
    assert(low@ =~= expected.0);
    assert(mid@ =~= expected.1);
    assert(high@ =~= expected.2);
    (low, mid, high)
}

// -----------------------------------------------------------------------------
// Voice pools
// -----------------------------------------------------------------------------

/// The voices of one purpose, by channel.
#[derive(Debug, PartialEq)]
pub struct VoicePools {
    pub low: Vec<VoiceHandle>,
    pub mid: Vec<VoiceHandle>,
    pub high: Vec<VoiceHandle>,
}

/// Each voice of a pool is as it was, released.
pub open spec fn all_released(before: Seq<VoiceHandle>, after: Seq<VoiceHandle>) -> bool {
    &&& after.len() == before.len()
    &&& forall|i: int| 0 <= i < after.len() ==> #[trigger] after[i] == before[i].released()
}

/// Each voice of a pool is as it was, fading.
pub open spec fn all_ducked(before: Seq<VoiceHandle>, after: Seq<VoiceHandle>, secs: Single) -> bool {
    &&& after.len() == before.len()
    &&& forall|i: int| 0 <= i < after.len() ==> #[trigger] after[i] == before[i].ducked(secs)
}

/// The first voices of a pool play the notes one each, as far as either lasts; the others are
/// released.
pub open spec fn plays_notes(before: Seq<VoiceHandle>, after: Seq<VoiceHandle>, notes: Seq<u8>) -> bool {
    &&& after.len() == before.len()
    &&& forall|i: int|
        0 <= i < after.len() ==> (if i < notes.len() {
            (#[trigger] after[i]).plays(notes[i])
        } else {
            after[i] == before[i].released()
        })
}

/// The first voice of a pool glides; the others are released.
pub open spec fn glides_first(
    before: Seq<VoiceHandle>,
    after: Seq<VoiceHandle>,
    from: u8,
    to: u8,
    glide_secs: Single,
    hold_secs: Single,
) -> bool {
    &&& after.len() == before.len()
    &&& after.len() > 0 ==> after[0].glides(from, to, glide_secs, hold_secs)
    &&& forall|i: int| 0 < i < after.len() ==> #[trigger] after[i] == before[i].released()
}

fn new_pool(count: usize) -> (r: Vec<VoiceHandle>)
    ensures
        r@.len() == count,
        forall|i: int| 0 <= i < count ==> (#[trigger] r@[i]).fresh(),
{
    let mut r: Vec<VoiceHandle> = Vec::new();
    for i in 0..count
        invariant
            r@.len() == i,
            forall|j: int| 0 <= j < i ==> (#[trigger] r@[j]).fresh(),
    {
        r.push(VoiceHandle::new());
    }
    r
}

fn reset_pool(pool: &mut Vec<VoiceHandle>)
    ensures
        all_released(old(pool)@, final(pool)@),
{
    let ghost before = pool@;
    let count: usize = pool.len();
    for i in 0..count
        invariant
            count == before.len(),
            pool@.len() == before.len(),
            forall|j: int| 0 <= j < i ==> #[trigger] pool@[j] == before[j].released(),
            forall|j: int| i <= j < before.len() ==> pool@[j] == before[j],
    {
        let mut voice: VoiceHandle = pool[i];
        voice.reset();
        pool.set(i, voice);
    }
}

fn duck_pool(pool: &mut Vec<VoiceHandle>, secs: Single)
    ensures
        all_ducked(old(pool)@, final(pool)@, secs),
{
    let ghost before = pool@;
    let count: usize = pool.len();
    for i in 0..count
        invariant
            count == before.len(),
            pool@.len() == before.len(),
            forall|j: int| 0 <= j < i ==> #[trigger] pool@[j] == before[j].ducked(secs),
            forall|j: int| i <= j < before.len() ==> pool@[j] == before[j],
    {
        let mut voice: VoiceHandle = pool[i];
        voice.duck(secs);
        pool.set(i, voice);
    }
}

fn play_pool(pool: &mut Vec<VoiceHandle>, notes: &Vec<u8>)
    ensures
        plays_notes(old(pool)@, final(pool)@, notes@),
{
    let ghost before = pool@;
    reset_pool(pool);
    let count: usize = if pool.len() < notes.len() { pool.len() } else { notes.len() };
    let ghost silent = pool@;
    for i in 0..count
        invariant
            count <= before.len(),
            count <= notes@.len(),
            all_released(before, silent),
            pool@.len() == before.len(),
            forall|j: int| 0 <= j < i ==> (#[trigger] pool@[j]).plays(notes@[j]),
            forall|j: int| i <= j < before.len() ==> #[trigger] pool@[j] == silent[j],
    {
        let mut voice: VoiceHandle = pool[i];
        voice.trigger(notes[i]);
        pool.set(i, voice);
    }
    assert forall|i: int| 0 <= i < pool@.len() implies (if i < notes@.len() {
        (#[trigger] pool@[i]).plays(notes@[i])
    } else {
        pool@[i] == before[i].released()
    }) by {
        if i >= notes@.len() {
            assert(silent[i] == before[i].released());
        }
    }
}

fn glide_pool(pool: &mut Vec<VoiceHandle>, from: u8, to: u8, glide_secs: Single, hold_secs: Single)
    ensures
        glides_first(old(pool)@, final(pool)@, from, to, glide_secs, hold_secs),
{
    reset_pool(pool);
    if pool.len() > 0 {
        let mut voice: VoiceHandle = pool[0];
        voice.trigger_glide(from, to, glide_secs, hold_secs);
        pool.set(0, voice);
    }
}

impl VoicePools {
    /// Pools of so many voices, none of which has played.
    pub fn new(low: usize, mid: usize, high: usize) -> (r: Self)
        ensures
            r.low@.len() == low,
            r.mid@.len() == mid,
            r.high@.len() == high,
            forall|i: int| 0 <= i < low ==> (#[trigger] r.low@[i]).fresh(),
            forall|i: int| 0 <= i < mid ==> (#[trigger] r.mid@[i]).fresh(),
            forall|i: int| 0 <= i < high ==> (#[trigger] r.high@[i]).fresh(),
    {
        VoicePools { low: new_pool(low), mid: new_pool(mid), high: new_pool(high) }
    }

    /// Play a chord: every voice is released, and then each pool plays its share.
    pub fn play_chord(&mut self, notes: &[u8])
        ensures
            plays_notes(old(self).low@, final(self).low@, allocated(notes@).0),
            plays_notes(old(self).mid@, final(self).mid@, allocated(notes@).1),
            plays_notes(old(self).high@, final(self).high@, allocated(notes@).2),
    {
        let shares: (Vec<u8>, Vec<u8>, Vec<u8>) = allocate(notes);
        play_pool(&mut self.low, &shares.0);
        play_pool(&mut self.mid, &shares.1);
        play_pool(&mut self.high, &shares.2);
    }

    /// Fade every voice out in the given time.
    pub fn duck(&mut self, fade_secs: Single)
        ensures
            all_ducked(old(self).low@, final(self).low@, fade_secs),
            all_ducked(old(self).mid@, final(self).mid@, fade_secs),
            all_ducked(old(self).high@, final(self).high@, fade_secs),
    {
        duck_pool(&mut self.low, fade_secs);
        duck_pool(&mut self.mid, fade_secs);
        duck_pool(&mut self.high, fade_secs);
    }

    /// Release every voice.
    pub fn stop(&mut self)
        ensures
            all_released(old(self).low@, final(self).low@),
            all_released(old(self).mid@, final(self).mid@),
            all_released(old(self).high@, final(self).high@),
    {
        reset_pool(&mut self.low);
        reset_pool(&mut self.mid);
        reset_pool(&mut self.high);
    }

    /// Fire a chime: three voices (low, mid, high) glide from start to end over `glide_secs`, then
    /// hold for `hold_secs`, then auto-release.
    pub fn play_chime(&mut self, start: [u8; 3], end: [u8; 3], glide_secs: Single, hold_secs: Single)
        ensures
            glides_first(old(self).low@, final(self).low@, start@[0], end@[0], glide_secs, hold_secs),
            glides_first(old(self).mid@, final(self).mid@, start@[1], end@[1], glide_secs, hold_secs),
            glides_first(old(self).high@, final(self).high@, start@[2], end@[2], glide_secs, hold_secs),
    {
        glide_pool(&mut self.low, start[0], end[0], glide_secs, hold_secs);
        glide_pool(&mut self.mid, start[1], end[1], glide_secs, hold_secs);
        glide_pool(&mut self.high, start[2], end[2], glide_secs, hold_secs);
    }
}

// -----------------------------------------------------------------------------
// Output level
// -----------------------------------------------------------------------------

/// A peak, kept within 0 and 1, as a level of 0 to 255, fractions cut off; what is not a number has
/// no level.
pub open spec fn level_of(peak: Single) -> int {
    let p = peak.within(Single { bits: N0 }, Single { bits: N1 });
    if p.nan() {
        0
    } else {
        p.whole_product(255) as int
    }
}

/// The level to log for a peak.
pub fn output_level(peak: Single) -> (r: u8)
    ensures
        r == level_of(peak),
{
    let p: Single = peak.clamp(Single { bits: N0 }, Single { bits: N1 });
    if p.is_nan() {
        return 0;
    }
    p.cut_product(255) as u8
}

// -----------------------------------------------------------------------------
// Laws
// -----------------------------------------------------------------------------

/// A waveform that was set is the one that is read.
pub proof fn law_waveforms_read_back(w: Waveform)
    ensures
        Waveform::meant_by(w.setting()) == w,
{
}

/// A patch that is applied and captured comes back as it was.
pub proof fn law_patches_round_trip(before: SynthParams, patch: PatchModel)
    ensures
        captured(applied(before, patch), patch.name, patch.mixer.note_length) == patch,
{
    law_waveforms_read_back(patch.low.waveform);
    law_waveforms_read_back(patch.mid.waveform);
    law_waveforms_read_back(patch.high.waveform);
    assert(captured(applied(before, patch), patch.name, patch.mixer.note_length) =~= patch);
}

/// The patch "Default" is what the synth starts with.
pub proof fn law_defaults_are_the_default_patch(before: SynthParams)
    requires
        before.mute_progression.bits == N0,
    ensures
        applied(before, crate::presets::default()) == (SynthParams {
            low: default_channel(Single { bits: N4 }, Single { bits: N4000 }),
            mid: default_channel(Single { bits: N4 }, Single { bits: N4000 }),
            high: default_channel(Single { bits: N4 }, Single { bits: N4000 }),
            reverb_mix: Single { bits: N0 },
            reverb_size: Single { bits: N0_5 },
            master_volume: Single { bits: N5 },
            master_mute: Single { bits: N0 },
            mute_progression: Single { bits: N0 },
            preview_fade: Single { bits: N0_03 },
        }),
{
}

/// A voice whose gate is closed goes silent: it is released at once, and once its level has come
/// down it is idle and stays so.
pub proof fn law_a_closed_gate_falls_silent(state: EnvState, arrived: bool)
    ensures
        state.after(false, arrived) is Release || state.after(false, arrived) is Idle,
        state.after(false, arrived).after(false, true) is Idle,
        EnvState::Idle.after(false, arrived) is Idle,
{
}

/// A chord is played whole: each of its notes is played by one of the pools. Beyond its own notes only
/// a sparse chord is doubled, one note an octave below and above, two notes an octave above the
/// higher, as far as MIDI reaches; the low and the high pool play one note each.
pub proof fn law_a_chord_is_played_whole(notes: Seq<u8>, x: u8)
    requires
        forall|y: u8| #[trigger] notes.contains(y) ==> y <= 127,
    ensures
        ({
            let (low, mid, high) = allocated(notes);
            let played = low.contains(x) || mid.contains(x) || high.contains(x);
            &&& notes.contains(x) ==> played
            &&& played ==> notes.contains(x) || exists|y: u8| #[trigger]
                notes.contains(y) && (x == (if y >= 116 {
                    127int
                } else {
                    y + 12
                }) || x == (if y < 12 {
                    0int
                } else {
                    y - 12
                }))
            &&& low.len() == high.len()
            &&& low.len() == 0 <==> notes.len() == 0
            &&& low.len() <= 1
            &&& mid.len() == 0 <==> notes.len() == 0
        }),
        ({
            let (low, mid, high) = allocated(notes);
            forall|a: u8, b: u8, c: u8| #[trigger]
                notes.contains(a) && #[trigger] notes.contains(b) && #[trigger] notes.contains(c) && a
                    < b < c ==> (low.contains(x) || mid.contains(x) || high.contains(x)
                    ==> notes.contains(x)) && low[0] <= a && mid.contains(b) && high[0] >= c
        }),
{
    let s = ascending(notes, 256);
    law_distinct_notes_ascend(notes, 256);
    let (low, mid, high) = allocated(notes);
    assert(forall|y: u8| #[trigger] notes.contains(y) <==> s.contains(y));
    if notes.len() > 0 {
        assert(notes.contains(notes[0]));
        assert(s.contains(notes[0]));
    }
    if s.len() > 0 {
        assert(s.contains(s[0]) && s.contains(s[s.len() - 1]));
        assert(notes.contains(s[0]) && notes.contains(s[s.len() - 1]));
        assert(s[0] <= 127 && s[s.len() - 1] <= 127);
    }
    if notes.contains(x) {
        let k = choose|k: int| 0 <= k < s.len() && s[k] == x;
        if s.len() == 1 {
            assert(mid[0] == x);
        } else if s.len() == 2 {
            if k == 0 {
                assert(low[0] == x);
            } else {
                assert(mid[0] == x);
            }
        } else if k == 0 {
            assert(low[0] == x);
        } else if k == s.len() - 1 {
            assert(high[0] == x);
        } else {
            assert(mid[k - 1] == x);
        }
    }
    if mid.contains(x) {
        let k = choose|k: int| 0 <= k < mid.len() && mid[k] == x;
        if s.len() > 2 {
            assert(s[k + 1] == x);
        } else {
            assert(s[s.len() - 1] == x);
        }
        assert(s.contains(x));
    }
    if low.contains(x) {
        assert(low[0] == x);
    }
    if high.contains(x) {
        assert(high[0] == x);
    }
    assert forall|a: u8, b: u8, c: u8| #[trigger]
        notes.contains(a) && #[trigger] notes.contains(b) && #[trigger] notes.contains(c) && a < b
            < c implies (low.contains(x) || mid.contains(x) || high.contains(x) ==> notes.contains(x))
        && low[0] <= a && mid.contains(b) && high[0] >= c by {
        assert(s.contains(a) && s.contains(b) && s.contains(c));
        let i = choose|i: int| 0 <= i < s.len() && s[i] == a;
        let j = choose|j: int| 0 <= j < s.len() && s[j] == b;
        let k = choose|k: int| 0 <= k < s.len() && s[k] == c;
        assert(i < j < k);
        assert(mid[j - 1] == b);
        assert(s.contains(s[0]));
    }
}

/// An envelope goes up while its gate is open and falls when it closes: an open gate starts an idle or a
/// falling voice, and takes it from its attack through its decay to its sustain, a segment at a time
/// and only when it has come to the end of one; a closed gate releases whatever sounds.
pub proof fn law_an_envelope_follows_its_gate(state: EnvState, arrived: bool)
    ensures
        state is Idle || state is Release ==> state.after(true, arrived) is Attack,
        state is Attack ==> state.after(true, true) is Decay,
        state is Decay ==> state.after(true, true) is Sustain,
        state is Attack || state is Decay ==> state.after(true, false) == state,
        state is Sustain ==> state.after(true, arrived) == state,
        state is Attack || state is Decay || state is Sustain ==> state.after(false, arrived) is Release,
        state is Release ==> state.after(false, false) is Release,
        state is Release ==> state.after(false, true) is Idle,
        state is Idle ==> state.after(false, arrived) is Idle,
{
}

/// A patch sets each channel to its own part: what is read of a channel's settings is what the patch has
/// for that channel, and the progression's mute stays as it was.
pub proof fn law_a_patch_sets_each_channel(before: SynthParams, patch: PatchModel)
    ensures
        ({
            let after = applied(before, patch);
            &&& captured_channel(after.low) == patch.low
            &&& captured_channel(after.mid) == patch.mid
            &&& captured_channel(after.high) == patch.high
            &&& after.low.volume == patch.low.volume
            &&& after.low.attack == patch.low.attack
            &&& after.low.decay == patch.low.decay
            &&& after.low.sustain == patch.low.sustain
            &&& after.low.release == patch.low.release
            &&& after.low.cutoff == patch.low.cutoff
            &&& after.low.resonance == patch.low.resonance
            &&& after.low.transpose == patch.low.transpose
            &&& after.low.reverb_send == patch.low.reverb_send
            &&& after.low.pan == patch.low.pan
            &&& after.reverb_mix == patch.mixer.reverb_mix
            &&& after.reverb_size == patch.mixer.reverb_size
            &&& after.master_volume == patch.mixer.master_volume
            &&& after.preview_fade == patch.mixer.preview_fade
            &&& after.mute_progression == before.mute_progression
            &&& (Single { bits: N0_5 }).below(after.master_mute) == patch.mixer.master_mute
        }),
        patch.low == patch.mid ==> applied(before, patch).low == applied(before, patch).mid,
        patch.low == patch.high ==> applied(before, patch).low == applied(before, patch).high,
{
    law_waveforms_read_back(patch.low.waveform);
    law_waveforms_read_back(patch.mid.waveform);
    law_waveforms_read_back(patch.high.waveform);
}

/// The output level is 255 times the peak, cut to a whole number but for the last place of the
/// single-precision product: nothing or less has no level, and full scale or more has 255.
pub proof fn law_the_level_is_the_peak(peak: Single)
    requires
        !peak.nan(),
    ensures
        ({
            let level = level_of(peak);
            let unit = pow2((-peak.power()) as nat);
            &&& 0 <= level <= 255
            &&& peak.bits <= N1 ==> level * unit <= 255 * peak.significand() + 128 && 255
                * peak.significand() < (level + 1) * unit + 128
            &&& N1 <= peak.bits < 0x8000_0000 ==> level == 255
            &&& peak.negative() || peak.bits == 0 ==> level == 0
        }),
{
    let p = peak.within(Single { bits: N0 }, Single { bits: N1 });
    law_whole_products_are_cut(p, 255);
    law_patterns_up_to_one_are_up_to_one(p);
    let k = (-p.power()) as nat;
    let unit = pow2(k) as int;
    let r = p.whole_product(255) as int;
    let sig = p.significand() as int;
    vstd::arithmetic::power2::lemma2_to64();
    if k > 23 {
        vstd::arithmetic::power2::lemma_pow2_strictly_increases(23, k);
    }
    assert(k >= 23 && unit >= 0x80_0000);
    assert(r <= 255) by (nonlinear_arith)
        requires
            r * unit <= 255 * sig + 128,
            sig <= unit,
            unit >= 0x80_0000,
    ;
    if p.magnitude() == N1 {
        law_one_times_a_number_is_it(p, 255);
    }
    if p.magnitude() == 0 {
        assert(r == 0) by (nonlinear_arith)
            requires
                r * unit <= 255 * sig + 128,
                sig == 0,
                unit >= 0x80_0000,
                r >= 0,
        ;
    }
}

/// A note without a glide is a glide from the note to itself that takes no time and holds for none.
/// Closing a voice's gate, at once or in a given time, leaves its pitch where it was.
pub proof fn law_a_plain_note_is_a_glide_that_stays(v: VoiceHandle, note: u8, secs: Single)
    ensures
        v.plays(note) <==> v.glides(note, note, Single { bits: 0 }, Single { bits: 0 }),
        v.released().midi_note == v.midi_note && v.released().glide_from == v.glide_from,
        v.ducked(secs).midi_note == v.midi_note && v.ducked(secs).glide_from == v.glide_from,
        v.ducked(secs).glide_duration_secs == v.glide_duration_secs,
        v.ducked(secs).hold_secs == v.hold_secs && v.released().hold_secs == v.hold_secs,
        v.ducked(secs).release_override == secs && v.released().release_override.bits == 0,
        v.ducked(secs).gate.bits == 0 && v.released().gate.bits == 0,
        v.released() == v.ducked(Single { bits: 0 }).released(),
{
}

} // verus!
