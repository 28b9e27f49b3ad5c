//! Patches: named synth configurations, kept in `patches.toml`.
//!
//! A patch captures the full sound-design state: three channels (low, mid, high) plus a mixer
//! section. It does not capture transport state (BPM, key, loop) or the progression. Every setting
//! is a single-precision number, kept by its bit pattern.

use vstd::prelude::*;

use crate::single::{Single, ONE_BITS};
use crate::synth::Waveform;
use crate::text::same_text;

verus! {

// -----------------------------------------------------------------------------
// Settings
// -----------------------------------------------------------------------------

/// The bit pattern of 0.
pub const N0: u32 = 0x0000_0000;

/// The bit pattern of 0.002.
pub const N0_002: u32 = 0x3B03_126F;

/// The bit pattern of 0.005.
pub const N0_005: u32 = 0x3BA3_D70A;

/// The bit pattern of 0.01.
pub const N0_01: u32 = 0x3C23_D70A;

/// The bit pattern of 0.02.
pub const N0_02: u32 = 0x3CA3_D70A;

/// The bit pattern of 0.03.
pub const N0_03: u32 = 0x3CF5_C28F;

/// The bit pattern of 0.05.
pub const N0_05: u32 = 0x3D4C_CCCD;

/// The bit pattern of 0.06.
pub const N0_06: u32 = 0x3D75_C28F;

/// The bit pattern of 0.08.
pub const N0_08: u32 = 0x3DA3_D70A;

/// The bit pattern of 0.1.
pub const N0_1: u32 = 0x3DCC_CCCD;

/// The bit pattern of 0.12.
pub const N0_12: u32 = 0x3DF5_C28F;

/// The bit pattern of 0.15.
pub const N0_15: u32 = 0x3E19_999A;

/// The bit pattern of 0.2.
pub const N0_2: u32 = 0x3E4C_CCCD;

/// The bit pattern of 0.25.
pub const N0_25: u32 = 0x3E80_0000;

/// The bit pattern of 0.3.
pub const N0_3: u32 = 0x3E99_999A;

/// The bit pattern of 0.4.
pub const N0_4: u32 = 0x3ECC_CCCD;

/// The bit pattern of 0.5.
pub const N0_5: u32 = 0x3F00_0000;

/// The bit pattern of 0.6.
pub const N0_6: u32 = 0x3F19_999A;

/// The bit pattern of 0.7.
pub const N0_7: u32 = 0x3F33_3333;

/// The bit pattern of 0.75.
pub const N0_75: u32 = 0x3F40_0000;

/// The bit pattern of 0.8.
pub const N0_8: u32 = 0x3F4C_CCCD;

/// The bit pattern of 0.85.
pub const N0_85: u32 = 0x3F59_999A;

/// The bit pattern of 0.9.
pub const N0_9: u32 = 0x3F66_6666;

/// The bit pattern of 1.
pub const N1: u32 = 0x3F80_0000;

/// The bit pattern of 1.2.
pub const N1_2: u32 = 0x3F99_999A;

/// The bit pattern of 1.5.
pub const N1_5: u32 = 0x3FC0_0000;

/// The bit pattern of 2.
pub const N2: u32 = 0x4000_0000;

/// The bit pattern of 2.5.
pub const N2_5: u32 = 0x4020_0000;

/// The bit pattern of 3.
pub const N3: u32 = 0x4040_0000;

/// The bit pattern of 3.5.
pub const N3_5: u32 = 0x4060_0000;

/// The bit pattern of 4.
pub const N4: u32 = 0x4080_0000;

/// The bit pattern of 5.
pub const N5: u32 = 0x40A0_0000;

/// The bit pattern of 6.
pub const N6: u32 = 0x40C0_0000;

/// The bit pattern of 800.
pub const N800: u32 = 0x4448_0000;

/// The bit pattern of 1500.
pub const N1500: u32 = 0x44BB_8000;

/// The bit pattern of 1800.
pub const N1800: u32 = 0x44E1_0000;

/// The bit pattern of 2000.
pub const N2000: u32 = 0x44FA_0000;

/// The bit pattern of 2500.
pub const N2500: u32 = 0x451C_4000;

/// The bit pattern of 3000.
pub const N3000: u32 = 0x453B_8000;

/// The bit pattern of 4000.
pub const N4000: u32 = 0x457A_0000;

/// The bit pattern of 5000.
pub const N5000: u32 = 0x459C_4000;

/// The bit pattern of 8000.
pub const N8000: u32 = 0x45FA_0000;

/// The bit pattern of -0.15.
pub const MINUS_N0_15: u32 = 0xBE19_999A;

/// The bit pattern of -0.2.
pub const MINUS_N0_2: u32 = 0xBE4C_CCCD;

/// The bit pattern of -0.4.
pub const MINUS_N0_4: u32 = 0xBECC_CCCD;

// -----------------------------------------------------------------------------
// Patch data
// -----------------------------------------------------------------------------

#[derive(Copy, Clone, Debug, PartialEq)]
pub struct ChannelPatch {
    pub volume: Single,
    pub waveform: Waveform,
    pub attack: Single,
    pub decay: Single,
    pub sustain: Single,
    pub release: Single,
    pub cutoff: Single,
    pub resonance: Single,
    pub transpose: Single,
    pub reverb_send: Single,
    pub pan: Single,
}

#[derive(Copy, Clone, Debug, PartialEq)]
pub struct MixerPatch {
    pub reverb_mix: Single,
    pub reverb_size: Single,
    pub master_volume: Single,
    pub master_mute: bool,
    pub preview_fade: Single,
    /// Fraction of one bar that a chord sustains before releasing. 0.25 = quarter, 0.5 = half,
    /// 0.75 = dotted half, 1.0 = whole. A file from before it was written has
    /// `default_note_length`.
    pub note_length: Single,
}

#[derive(Debug, PartialEq)]
pub struct Patch {
    pub name: String,
    pub low: ChannelPatch,
    pub mid: ChannelPatch,
    pub high: ChannelPatch,
    pub mixer: MixerPatch,
}

/// What a patch holds.
#[verifier::ext_equal]
pub struct PatchModel {
    pub name: Seq<char>,
    pub low: ChannelPatch,
    pub mid: ChannelPatch,
    pub high: ChannelPatch,
    pub mixer: MixerPatch,
}

impl View for Patch {
    type V = PatchModel;

    open spec fn view(&self) -> PatchModel {
        PatchModel {
            name: self.name@,
            low: self.low,
            mid: self.mid,
            high: self.high,
            mixer: self.mixer,
        }
    }
}

impl Clone for Patch {
    fn clone(&self) -> (r: Self)
        ensures
            r@ == self@,
    {
        Patch {
            name: self.name.clone(),
            low: self.low,
            mid: self.mid,
            high: self.high,
            mixer: self.mixer,
        }
    }
}

/// The note length of a patch whose file has none: 1.
pub fn default_note_length() -> (r: Single)
    ensures
        r == (Single { bits: ONE_BITS }),
{
    Single { bits: ONE_BITS }
}

/// A channel from its settings: volume, attack, decay, sustain, release, cutoff, resonance,
/// transpose, reverb send, pan.
pub open spec fn channel(v: [u32; 10], waveform: Waveform) -> ChannelPatch {
    ChannelPatch {
        volume: Single { bits: v@[0] },
        waveform,
        attack: Single { bits: v@[1] },
        decay: Single { bits: v@[2] },
        sustain: Single { bits: v@[3] },
        release: Single { bits: v@[4] },
        cutoff: Single { bits: v@[5] },
        resonance: Single { bits: v@[6] },
        transpose: Single { bits: v@[7] },
        reverb_send: Single { bits: v@[8] },
        pan: Single { bits: v@[9] },
    }
}

/// A plain sine channel.
pub open spec fn neutral_channel(volume: Single, cutoff: Single) -> ChannelPatch {
    ChannelPatch {
        volume,
        waveform: Waveform::Sine,
        attack: Single { bits: N0_005 },
        decay: Single { bits: N0_05 },
        sustain: Single { bits: N0_7 },
        release: Single { bits: N0_1 },
        cutoff,
        resonance: Single { bits: N0_2 },
        transpose: Single { bits: N0 },
        reverb_send: Single { bits: N0 },
        pan: Single { bits: N0 },
    }
}

/// A mixer from its settings: reverb mix, reverb size, master volume, preview fade, note length. It
/// is not muted.
pub open spec fn mixer(v: [u32; 5]) -> MixerPatch {
    MixerPatch {
        reverb_mix: Single { bits: v@[0] },
        reverb_size: Single { bits: v@[1] },
        master_volume: Single { bits: v@[2] },
        master_mute: false,
        preview_fade: Single { bits: v@[3] },
        note_length: Single { bits: v@[4] },
    }
}

fn channel_from(v: [u32; 10], waveform: Waveform) -> (r: ChannelPatch)
    ensures
        r == channel(v, waveform),
{
    ChannelPatch {
        volume: Single { bits: v[0] },
        waveform,
        attack: Single { bits: v[1] },
        decay: Single { bits: v[2] },
        sustain: Single { bits: v[3] },
        release: Single { bits: v[4] },
        cutoff: Single { bits: v[5] },
        resonance: Single { bits: v[6] },
        transpose: Single { bits: v[7] },
        reverb_send: Single { bits: v[8] },
        pan: Single { bits: v[9] },
    }
}

fn mixer_from(v: [u32; 5]) -> (r: MixerPatch)
    ensures
        r == mixer(v),
{
    MixerPatch {
        reverb_mix: Single { bits: v[0] },
        reverb_size: Single { bits: v[1] },
        master_volume: Single { bits: v[2] },
        master_mute: false,
        preview_fade: Single { bits: v[3] },
        note_length: Single { bits: v[4] },
    }
}

impl ChannelPatch {
    pub fn neutral(volume: Single, cutoff: Single) -> (r: Self)
        ensures
            r == neutral_channel(volume, cutoff),
    {
        ChannelPatch {
            volume,
            waveform: Waveform::Sine,
            attack: Single { bits: N0_005 },
            decay: Single { bits: N0_05 },
            sustain: Single { bits: N0_7 },
            release: Single { bits: N0_1 },
            cutoff,
            resonance: Single { bits: N0_2 },
            transpose: Single { bits: N0 },
            reverb_send: Single { bits: N0 },
            pan: Single { bits: N0 },
        }
    }
}

// -----------------------------------------------------------------------------
// Store
// -----------------------------------------------------------------------------

/// Every patch this install knows, in file order.
#[derive(Debug)]
pub struct PatchStore {
    pub patches: Vec<Patch>,
}

/// What each of some patches holds.
pub open spec fn patch_models(patches: Seq<Patch>) -> Seq<PatchModel> {
    patches.map_values(|p: Patch| p@)
}

impl View for PatchStore {
    type V = Seq<PatchModel>;

    open spec fn view(&self) -> Seq<PatchModel> {
        patch_models(self.patches@)
    }
}

impl Clone for PatchStore {
    fn clone(&self) -> (r: Self)
        ensures
            r@ == self@,
    {
        let r: PatchStore = PatchStore { patches: self.patches.clone() };
        assert(r@ =~= self@);
        r
    }
}

/// The first patch from `i` on with this name.
pub open spec fn named(patches: Seq<PatchModel>, name: Seq<char>, i: int) -> Option<int>
    decreases patches.len() - i,
{
    if i < 0 || i >= patches.len() {
        None
    } else if patches[i].name == name {
        Some(i)
    } else {
        named(patches, name, i + 1)
    }
}

/// The patches with one added: it takes the place of the first with its name, or comes last.
pub open spec fn with_patch(patches: Seq<PatchModel>, patch: PatchModel) -> Seq<PatchModel> {
    match named(patches, patch.name, 0) {
        Some(i) => patches.update(i, patch),
        None => patches.push(patch),
    }
}

fn find_index(patches: &Vec<Patch>, name: &str) -> (r: Option<usize>)
    ensures
        match named(patch_models(patches@), name@, 0) {
            Some(i) => r matches Some(at) && at == i && at < patches@.len(),
            None => r is None,
        },
{
    let ghost models = patch_models(patches@);
    for i in 0..patches.len()
        invariant
            models == patch_models(patches@),
            named(models, name@, 0) == named(models, name@, i as int),
    {
        assert(models[i as int] == patches@[i as int]@);
        if same_text(patches[i].name.as_str(), name) {
            return Some(i);
        }
    }
    None
}

impl PatchStore {
    /// The library of a fresh install.
    pub fn built_in() -> (r: Self)
        ensures
            r@ == builtins(),
    {
        PatchStore { patches: builtin_patches() }
    }

    /// Add a patch, replacing any existing one with the same name.
    pub fn add(&mut self, patch: Patch)
        ensures
            final(self)@ == with_patch(old(self)@, patch@),
    {
        let ghost before = self@;
        match find_index(&self.patches, patch.name.as_str()) {
            Some(i) => {
                self.patches.set(i, patch);
            },
            None => {
                self.patches.push(patch);
            },
        }
        assert(self@ =~= with_patch(before, patch@));
    }

    pub fn find(&self, name: &str) -> (r: Option<&Patch>)
        ensures
            match named(self@, name@, 0) {
                Some(i) => r matches Some(p) && p@ == self@[i],
                None => r is None,
            },
    {
        match find_index(&self.patches, name) {
            Some(i) => Some(&self.patches[i]),
            None => None,
        }
    }

    pub fn names(&self) -> (r: Vec<&str>)
        ensures
            r@.len() == self@.len(),
            forall|i: int| 0 <= i < r@.len() ==> (#[trigger] r@[i])@ == self@[i].name,
    {
        let mut r: Vec<&str> = Vec::new();
        for i in 0..self.patches.len()
            invariant
                r@.len() == i,
                forall|j: int| 0 <= j < i ==> (#[trigger] r@[j])@ == self@[j].name,
        {
            assert(self@[i as int] == self.patches@[i as int]@);
            r.push(self.patches[i].name.as_str());
        }
        r
    }
}

/// Where the library lives, relative to the working directory.
pub fn default_path() -> (r: String)
    ensures
        r@ == "patches.toml"@,
{
    "patches.toml".to_owned()
}

// -----------------------------------------------------------------------------
// Built-in patches
// -----------------------------------------------------------------------------

/// The mixer of "Default".
pub const DEFAULT_MIXER: [u32; 5] = [N0, N0_5, N5, N0_03, N1];

/// The low channel of "Warm Pad".
pub const WARM_PAD_LOW: [u32; 10] = [N3_5, N0_2, N0_3, N0_8, N0_8, N1500, N0_3, N0, N0_1, MINUS_N0_2];

/// The mid channel of "Warm Pad".
pub const WARM_PAD_MID: [u32; 10] = [N3, N0_25, N0_3, N0_75, N0_9, N2500, N0_25, N0, N0_4, N0];

/// The high channel of "Warm Pad".
pub const WARM_PAD_HIGH: [u32; 10] = [N3, N0_3, N0_3, N0_7, N1, N4000, N0_2, N0, N0_5, N0_2];

/// The mixer of "Warm Pad".
pub const WARM_PAD_MIXER: [u32; 5] = [N0_4, N0_7, N5, N0_05, N1];

/// The low channel of "Plucky".
pub const PLUCKY_LOW: [u32; 10] = [N4, N0_002, N0_1, N0_2, N0_15, N2500, N0_4, N0, N0_05, MINUS_N0_15];

/// The mid channel of "Plucky".
pub const PLUCKY_MID: [u32; 10] = [N3_5, N0_002, N0_08, N0_15, N0_12, N3000, N0_4, N0, N0_15, N0];

/// The high channel of "Plucky".
pub const PLUCKY_HIGH: [u32; 10] = [N3, N0_002, N0_06, N0_1, N0_1, N4000, N0_3, N0, N0_25, N0_15];

/// The mixer of "Plucky".
pub const PLUCKY_MIXER: [u32; 5] = [N0_15, N0_4, N5, N0_02, N0_25];

/// The low channel of "Bassy".
pub const BASSY_LOW: [u32; 10] = [N6, N0_005, N0_05, N0_9, N0_15, N800, N0_1, N0, N0, N0];

/// The mid channel of "Bassy".
pub const BASSY_MID: [u32; 10] = [N2_5, N0_01, N0_1, N0_6, N0_2, N1800, N0_3, N0, N0_15, N0];

/// The high channel of "Bassy".
pub const BASSY_HIGH: [u32; 10] = [N2, N0_01, N0_1, N0_5, N0_25, N5000, N0_2, N0, N0_3, N0_15];

/// The mixer of "Bassy".
pub const BASSY_MIXER: [u32; 5] = [N0_15, N0_4, N5, N0_03, N0_5];

/// The low channel of "Glass".
pub const GLASS_LOW: [u32; 10] = [N3, N0_1, N0_2, N0_6, N1_2, N2000, N0_15, N0, N0_3, MINUS_N0_4];

/// The mid channel of "Glass".
pub const GLASS_MID: [u32; 10] = [N3, N0_15, N0_2, N0_6, N1_5, N5000, N0_2, N0, N0_5, N0];

/// The high channel of "Glass".
pub const GLASS_HIGH: [u32; 10] = [N3, N0_2, N0_2, N0_6, N2, N8000, N0_25, N0, N0_7, N0_4];

/// The mixer of "Glass".
pub const GLASS_MIXER: [u32; 5] = [N0_6, N0_85, N5, N0_06, N1];

/// The patch "Default".
pub open spec fn default() -> PatchModel {
    PatchModel {
        name: "Default"@,
        low: neutral_channel(Single { bits: N4 }, Single { bits: N4000 }),
        mid: neutral_channel(Single { bits: N4 }, Single { bits: N4000 }),
        high: neutral_channel(Single { bits: N4 }, Single { bits: N4000 }),
        mixer: mixer(DEFAULT_MIXER),
    }
}

/// The patch "Default".
pub fn default_patch() -> (r: Patch)
    ensures
        r@ == default(),
{
    Patch {
        name: "Default".to_owned(),
        low: ChannelPatch::neutral(Single { bits: N4 }, Single { bits: N4000 }),
        mid: ChannelPatch::neutral(Single { bits: N4 }, Single { bits: N4000 }),
        high: ChannelPatch::neutral(Single { bits: N4 }, Single { bits: N4000 }),
        mixer: mixer_from(DEFAULT_MIXER),
    }
}

/// The patch "Warm Pad".
pub open spec fn warm_pad() -> PatchModel {
    PatchModel {
        name: "Warm Pad"@,
        low: channel(WARM_PAD_LOW, Waveform::Triangle),
        mid: channel(WARM_PAD_MID, Waveform::Saw),
        high: channel(WARM_PAD_HIGH, Waveform::Sine),
        mixer: mixer(WARM_PAD_MIXER),
    }
}

/// The patch "Warm Pad".
pub fn warm_pad_patch() -> (r: Patch)
    ensures
        r@ == warm_pad(),
{
    Patch {
        name: "Warm Pad".to_owned(),
        low: channel_from(WARM_PAD_LOW, Waveform::Triangle),
        mid: channel_from(WARM_PAD_MID, Waveform::Saw),
        high: channel_from(WARM_PAD_HIGH, Waveform::Sine),
        mixer: mixer_from(WARM_PAD_MIXER),
    }
}

/// The patch "Plucky".
pub open spec fn plucky() -> PatchModel {
    PatchModel {
        name: "Plucky"@,
        low: channel(PLUCKY_LOW, Waveform::Square),
        mid: channel(PLUCKY_MID, Waveform::Square),
        high: channel(PLUCKY_HIGH, Waveform::Triangle),
        mixer: mixer(PLUCKY_MIXER),
    }
}

/// The patch "Plucky".
pub fn plucky_patch() -> (r: Patch)
    ensures
        r@ == plucky(),
{
    Patch {
        name: "Plucky".to_owned(),
        low: channel_from(PLUCKY_LOW, Waveform::Square),
        mid: channel_from(PLUCKY_MID, Waveform::Square),
        high: channel_from(PLUCKY_HIGH, Waveform::Triangle),
        mixer: mixer_from(PLUCKY_MIXER),
    }
}

/// The patch "Bassy".
pub open spec fn bassy() -> PatchModel {
    PatchModel {
        name: "Bassy"@,
        low: channel(BASSY_LOW, Waveform::Sine),
        mid: channel(BASSY_MID, Waveform::Saw),
        high: channel(BASSY_HIGH, Waveform::Sine),
        mixer: mixer(BASSY_MIXER),
    }
}

/// The patch "Bassy".
pub fn bassy_patch() -> (r: Patch)
    ensures
        r@ == bassy(),
{
    Patch {
        name: "Bassy".to_owned(),
        low: channel_from(BASSY_LOW, Waveform::Sine),
        mid: channel_from(BASSY_MID, Waveform::Saw),
        high: channel_from(BASSY_HIGH, Waveform::Sine),
        mixer: mixer_from(BASSY_MIXER),
    }
}

/// The patch "Glass".
pub open spec fn glass() -> PatchModel {
    PatchModel {
        name: "Glass"@,
        low: channel(GLASS_LOW, Waveform::Sine),
        mid: channel(GLASS_MID, Waveform::Sine),
        high: channel(GLASS_HIGH, Waveform::Sine),
        mixer: mixer(GLASS_MIXER),
    }
}

/// The patch "Glass".
pub fn glass_patch() -> (r: Patch)
    ensures
        r@ == glass(),
{
    Patch {
        name: "Glass".to_owned(),
        low: channel_from(GLASS_LOW, Waveform::Sine),
        mid: channel_from(GLASS_MID, Waveform::Sine),
        high: channel_from(GLASS_HIGH, Waveform::Sine),
        mixer: mixer_from(GLASS_MIXER),
    }
}

/// The patches every install ships with.
pub open spec fn builtins() -> Seq<PatchModel> {
    seq![default(), warm_pad(), plucky(), bassy(), glass()]
}

/// The patches every install ships with, written when `patches.toml` is missing.
pub fn builtin_patches() -> (r: Vec<Patch>)
    ensures
        patch_models(r@) == builtins(),
{
    let r: Vec<Patch> = vec![
        default_patch(),
        warm_pad_patch(),
        plucky_patch(),
        bassy_patch(),
        glass_patch(),
    ];
    assert(patch_models(r@) =~= builtins());
    r
}

// -----------------------------------------------------------------------------
// Laws
// -----------------------------------------------------------------------------

proof fn lemma_named(patches: Seq<PatchModel>, name: Seq<char>, i: int)
    requires
        0 <= i,
    ensures
        named(patches, name, i) matches Some(k) ==> i <= k < patches.len() && patches[k].name
            == name,
        named(patches, name, i) is None ==> forall|k: int|
            i <= k < patches.len() ==> (#[trigger] patches[k]).name != name,
        named(patches, name, i) matches Some(k) ==> forall|j: int|
            i <= j < k ==> (#[trigger] patches[j]).name != name,
    decreases patches.len() - i,
{
    if i < patches.len() && patches[i].name != name {
        lemma_named(patches, name, i + 1);
    }
}

/// A patch that was added is the one that is found under its name.
pub proof fn law_added_patches_are_found(patches: Seq<PatchModel>, patch: PatchModel)
    ensures
        named(with_patch(patches, patch), patch.name, 0) matches Some(i) && with_patch(
            patches,
            patch,
        )[i] == patch,
{
    let after = with_patch(patches, patch);
    lemma_named(patches, patch.name, 0);
    lemma_named(after, patch.name, 0);
    let at = match named(patches, patch.name, 0) {
        Some(i) => i,
        None => patches.len() as int,
    };
    assert(after[at].name == patch.name);
    let k = named(after, patch.name, 0)->0;
    if k < at {
        assert(patches[k].name != patch.name);
    }
    if at < k {
        assert(after[at].name != patch.name);
    }
}

/// The built-in patches have distinct names.
pub proof fn law_builtin_patches_have_distinct_names(i: int, j: int)
    requires
        0 <= i < j < 5,
    ensures
        builtins()[i].name != builtins()[j].name,
{
    reveal_strlit("Default");
    reveal_strlit("Warm Pad");
    reveal_strlit("Plucky");
    reveal_strlit("Bassy");
    reveal_strlit("Glass");
    assert("Default"@.len() == 7 && "Warm Pad"@.len() == 8 && "Plucky"@.len() == 6 && "Bassy"@.len()
        == 5 && "Glass"@.len() == 5);
    assert("Bassy"@[0] == 'B' && "Glass"@[0] == 'G');
}

/// Adding a patch leaves every other patch where it was, and adds at most one: it takes the place of the
/// first with its name, or comes last.
pub proof fn law_adding_a_patch_keeps_the_others(patches: Seq<PatchModel>, patch: PatchModel, i: int)
    requires
        0 <= i < patches.len(),
    ensures
        patches[i].name != patch.name ==> with_patch(patches, patch)[i] == patches[i],
        (forall|j: int| 0 <= j < patches.len() ==> (#[trigger] patches[j]).name != patch.name)
            ==> with_patch(patches, patch) == patches.push(patch),
        patches[i].name == patch.name && (forall|j: int|
            0 <= j < i ==> (#[trigger] patches[j]).name != patch.name) ==> with_patch(patches, patch)
            == patches.update(i, patch),
{
    lemma_named(patches, patch.name, 0);
    if patches[i].name == patch.name {
        match named(patches, patch.name, 0) {
            Some(k) => {
                if i < k {
                    assert(patches[i].name != patch.name);
                }
            },
            None => {
                assert(patches[i].name != patch.name);
            },
        }
    }
}

} // verus!
