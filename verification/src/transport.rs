//! Transport state and the scheduler's decisions.
//!
//! Each bar is played from the timings plan [`crate::arrangement`] produces, the same plan the MIDI
//! exporter reads, so a pattern's onsets, a hold that crosses the bar line and a chord offset across
//! the loop boundary all land where the file says they do. Events are due at **absolute** deadlines,
//! so a bar of 64th notes cannot accumulate drift.
//!
//! What a scheduler thread does is a sequence of steps taken here: [`Transport::begin_bar`],
//! [`bar_content`], [`timeline`], [`Transport::watch`] while it waits, [`Transport::finish_bar`].
//! Moments and durations are nanoseconds on one clock.

use vstd::multiset::Multiset;
use vstd::prelude::*;

use crate::arrangement::{
    arrangement, assigned, bar_events, clicks, due_in_bar, emitted, event_models, events_of, in_bar,
    law_a_loop_emits_its_plan, law_plans_stay_inside_the_loop, lemma_event_of_a_stab,
    metronome_events, owed, planned, sort_events, stab_events, stab_models, sustain_ticks, sustained,
    BarEvent, EventModel, Stab, StabModel, RHYTHM_LAYERS,
};
use crate::double::{
    law_shares_are_in_proportion, law_shares_keep_order, law_the_whole_is_itself, share, Double,
};
use crate::music::{clamped, Key, Scale, BAR_TICKS, TONIC_MAX, TONIC_MIN};
use crate::order::{lemma_sorted, lemma_sorted_contains, sorted};
use crate::progression::{slot_models, Slot, SlotModel};
use crate::single::{Single, ONE_BITS, TWENTIETH_BITS};

verus! {

// -----------------------------------------------------------------------------
// Transport
// -----------------------------------------------------------------------------

pub struct Transport {
    pub bpm: u32,
    pub playing: bool,
    pub looping: bool,
    pub current_bar: usize,
    /// The bar to jump to, or a negative number for none.
    pub seek_to: i64,
    pub restart: bool,
    pub progression_len: usize,
    pub track_key_tonic: u32,
    pub track_key_minor: bool,
    pub note_length_bits: u32,
    pub live_chord: Option<Vec<u8>>,
    /// When the current bar began, and which bar it is.
    ///
    /// Tap capture timestamps key presses against this. Without it a tap has no position in the bar
    /// at all.
    pub bar_started_at: Option<(u64, usize)>,
    /// Whether the metronome clicks.
    pub metronome: bool,
    /// Stop now, and silence, without moving the bar.
    ///
    /// Pausing only takes effect at the next bar: the scheduler finishes the one it is on. That is
    /// wrong for a panic stop, so this abandons the bar instead, leaving the position alone so the
    /// next play resumes where you left off.
    pub stop_now: bool,
}

/// What an optional chord holds.
pub open spec fn chord_of(notes: Option<Vec<u8>>) -> Option<Seq<u8>> {
    match notes {
        Some(v) => Some(v@),
        None => None,
    }
}

/// A bar's length at a tempo, in nanoseconds: four beats of whole microseconds.
pub open spec fn bar_nanos(bpm: int) -> int {
    60_000_000int / (if bpm < 1 { 1 } else { bpm }) * 4 * 1000
}

/// A note length kept within 0.05 and 1.
pub open spec fn kept_length(v: Single) -> Single {
    v.within(Single { bits: TWENTIETH_BITS }, Single { bits: ONE_BITS })
}

impl Transport {
    /// The tempo, as far as 16 bits hold it.
    pub open spec fn tempo(&self) -> int {
        if self.bpm > 0xFFFF {
            0xFFFF
        } else {
            self.bpm as int
        }
    }

    /// The track key.
    pub open spec fn track_key(&self) -> Key {
        Key {
            tonic: clamped(
                self.track_key_tonic as int % 256,
                TONIC_MIN as int,
                TONIC_MAX as int,
            ) as u8,
            scale: if self.track_key_minor {
                Scale::Minor
            } else {
                Scale::Major
            },
        }
    }

    /// The fraction of a bar a chord sustains.
    pub open spec fn sustain(&self) -> Single {
        kept_length(Single { bits: self.note_length_bits })
    }

    pub fn new(key: Key) -> (r: Self)
        ensures
            r.bpm == 120,
            !r.playing,
            r.looping,
            r.current_bar == 0,
            r.seek_to == -1,
            !r.restart,
            r.progression_len == 0,
            r.track_key_tonic == key.tonic,
            r.track_key_minor == (key.scale is Minor),
            r.note_length_bits == ONE_BITS,
            r.live_chord is None,
            r.bar_started_at is None,
            !r.metronome,
            !r.stop_now,
    {
        Transport {
            bpm: 120,
            playing: false,
            looping: true,
            current_bar: 0,
            seek_to: -1,
            restart: false,
            progression_len: 0,
            track_key_tonic: key.tonic as u32,
            track_key_minor: key.scale == Scale::Minor,
            note_length_bits: ONE_BITS,
            live_chord: None,
            bar_started_at: None,
            metronome: false,
            stop_now: false,
        }
    }

    /// Publish the start of a bar, for tap capture.
    pub fn publish_bar(&mut self, at: u64, bar: usize)
        ensures
            *final(self) == (Transport { bar_started_at: Some((at, bar)), ..*old(self) }),
    {
        self.bar_started_at = Some((at, bar));
    }

    /// The current bar's start and index, once the clock has run.
    pub fn bar_started(&self) -> (r: Option<(u64, usize)>)
        ensures
            r == self.bar_started_at,
    {
        self.bar_started_at
    }

    pub fn key(&self) -> (r: Key)
        ensures
            r == self.track_key(),
    {
        let scale: Scale = if self.track_key_minor {
            Scale::Minor
        } else {
            Scale::Major
        };
        Key::new((self.track_key_tonic % 256) as u8, scale)
    }

    pub fn set_key(&mut self, k: Key)
        ensures
            *final(self) == (Transport {
                track_key_tonic: k.tonic as u32,
                track_key_minor: k.scale is Minor,
                ..*old(self)
            }),
            k.in_range() ==> final(self).track_key() == k,
    {
        self.track_key_tonic = k.tonic as u32;
        self.track_key_minor = k.scale == Scale::Minor;
    }

    pub fn bpm(&self) -> (r: u16)
        ensures
            r == self.tempo(),
    {
        if self.bpm > 0xFFFF {
            0xFFFF
        } else {
            self.bpm as u16
        }
    }

    pub fn set_bpm(&mut self, v: u16)
        ensures
            *final(self) == (Transport { bpm: v as u32, ..*old(self) }),
            final(self).tempo() == v,
    {
        self.bpm = v as u32;
    }

    /// How long a bar lasts, in nanoseconds.
    pub fn bar_duration(&self) -> (r: u64)
        ensures
            r == bar_nanos(self.tempo()),
            0 < r <= 240_000_000_000,
    {
        let bpm: u64 = if self.bpm() < 1 { 1 } else { self.bpm() as u64 };
        let beat: u64 = 60_000_000 / bpm;
        assert(915 <= beat <= 60_000_000) by (nonlinear_arith)
            requires
                1 <= bpm <= 65535,
                beat == 60_000_000u64 / bpm,
        ;
        beat * 4 * 1000
    }

    pub fn set_live_chord(&mut self, notes: Option<Vec<u8>>)
        ensures
            *final(self) == (Transport { live_chord: notes, ..*old(self) }),
    {
        self.live_chord = notes;
    }

    /// Fraction of a bar a chord sustains before releasing (0..1).
    pub fn note_length(&self) -> (r: Single)
        ensures
            r == self.sustain(),
    {
        Single { bits: self.note_length_bits }.clamp(
            Single { bits: TWENTIETH_BITS },
            Single { bits: ONE_BITS },
        )
    }

    pub fn set_note_length(&mut self, v: Single)
        ensures
            *final(self) == (Transport { note_length_bits: kept_length(v).bits, ..*old(self) }),
            final(self).sustain() == kept_length(v),
    {
        self.note_length_bits = v.clamp(
            Single { bits: TWENTIETH_BITS },
            Single { bits: ONE_BITS },
        ).bits;
    }
}

// -----------------------------------------------------------------------------
// Scheduler events
// -----------------------------------------------------------------------------

#[derive(Debug, PartialEq)]
pub enum SchedulerEvent {
    /// Start a chord on one stab group, at a gain of 0..1.
    Stab { group: usize, notes: Vec<u8>, gain: Single },
    /// Release one stab group.
    ReleaseStab { group: usize },
    /// Release every group: the schedule was abandoned mid-bar.
    Silence,
    /// One metronome tick, while a rhythm take is being recorded.
    Click { strong: bool },
}

/// What a scheduler event holds.
#[verifier::ext_equal]
pub enum SchedulerModel {
    Stab { group: usize, notes: Seq<u8>, gain: Single },
    ReleaseStab { group: usize },
    Silence,
    Click { strong: bool },
}

impl View for SchedulerEvent {
    type V = SchedulerModel;

    open spec fn view(&self) -> SchedulerModel {
        match self {
            SchedulerEvent::Stab { group, notes, gain } => SchedulerModel::Stab {
                group: *group,
                notes: notes@,
                gain: *gain,
            },
            SchedulerEvent::ReleaseStab { group } => SchedulerModel::ReleaseStab { group: *group },
            SchedulerEvent::Silence => SchedulerModel::Silence,
            SchedulerEvent::Click { strong } => SchedulerModel::Click { strong: *strong },
        }
    }
}

/// What an event of a bar is sent as.
pub open spec fn sent(event: EventModel) -> SchedulerModel {
    match event {
        EventModel::On { at, group, notes, gain } => SchedulerModel::Stab { group, notes, gain },
        EventModel::Off { at, group } => SchedulerModel::ReleaseStab { group },
        EventModel::Click { at, strong } => SchedulerModel::Click { strong },
    }
}

/// Ticks a whole-bar chord holds for.
pub fn hold_ticks(note_length: Single) -> (r: u64)
    ensures
        r == sustained(note_length),
        1 <= r <= BAR_TICKS,
{
    sustain_ticks(note_length)
}

/// The live chord as a whole-bar stab.
pub open spec fn live_bar(notes: Seq<u8>, note_length: Single) -> Seq<EventModel> {
    seq![
        EventModel::On { at: 0, group: 0, notes, gain: Single { bits: ONE_BITS } },
        EventModel::Off { at: sustained(note_length) as u64, group: 0 },
    ]
}

/// The live chord as a whole-bar stab.
///
/// Used for the "+1 bar" a player jams over, and for auditioning while the transport is stopped.
pub fn live_events(notes: Vec<u8>, note_length: Single) -> (r: Vec<BarEvent>)
    ensures
        event_models(r@) == live_bar(notes@, note_length),
{
    let r: Vec<BarEvent> = vec![
        BarEvent::On { at: 0, group: 0, notes, gain: Single { bits: ONE_BITS } },
        BarEvent::Off { at: hold_ticks(note_length), group: 0 },
    ];
    assert(event_models(r@) =~= live_bar(notes@, note_length));
    r
}

/// How long `ticks` of a bar last, in nanoseconds: the seconds of the bar times the part of it that
/// the ticks are, each step one of double precision. Ticks past the bar line count as the bar line.
pub open spec fn lasting(ticks: int, bar: int) -> int {
    let within = if ticks > BAR_TICKS {
        BAR_TICKS as int
    } else {
        ticks
    };
    share(bar, within, BAR_TICKS as int)
}

/// How long `ticks` lasts at the current tempo. The time has to fit its nanoseconds.
pub fn ticks_to_duration(ticks: u64, bar_dur: u64) -> (r: u64)
    requires
        lasting(ticks as int, bar_dur as int) <= u64::MAX,
    ensures
        r == lasting(ticks as int, bar_dur as int),
{
    let within: u64 = if ticks > BAR_TICKS { BAR_TICKS } else { ticks };
    Double::seconds(bar_dur).times(Double::ratio(within, BAR_TICKS)).nanoseconds()
}

// -----------------------------------------------------------------------------
// One bar
// -----------------------------------------------------------------------------

/// What a bar is played from: the transport as it stood when the bar began.
#[derive(Debug, PartialEq)]
pub struct Bar {
    pub start: u64,
    pub duration: u64,
    pub index: usize,
    pub playing: bool,
    pub progression_len: usize,
    pub live: Option<Vec<u8>>,
    pub key: Key,
    pub note_length: Single,
    pub metronome: bool,
}

impl Bar {
    /// The bars of one round: those of the progression, and one more for a live chord.
    pub open spec fn total(self) -> int {
        self.progression_len + (if self.live is Some {
            1int
        } else {
            0
        })
    }
}

/// The bar that a transport is at once its seeks and restarts are consumed.
pub open spec fn position(t: Transport) -> usize {
    if t.restart {
        0
    } else if t.seek_to >= 0 {
        t.seek_to as usize
    } else {
        t.current_bar
    }
}

/// The transport once a bar has begun at `now`: seeks, restarts and a panic stop are consumed.
pub open spec fn begun(t: Transport, now: u64) -> Transport {
    Transport {
        current_bar: position(t),
        seek_to: -1i64,
        restart: false,
        stop_now: false,
        playing: t.playing && !t.stop_now,
        bar_started_at: Some((now, position(t))),
        ..t
    }
}

/// The transport after a bar that was not interrupted: playback moves on by one bar, around the
/// round, and stops at the end of a round that does not loop.
pub open spec fn moved_on(t: Transport, bar: Bar) -> Transport {
    if !bar.playing || bar.total() == 0 {
        t
    } else {
        let next = (bar.index + 1) % bar.total();
        if next == 0 && !t.looping {
            Transport { playing: false, current_bar: 0, ..t }
        } else {
            Transport { current_bar: next as usize, ..t }
        }
    }
}

impl Transport {
    /// Begin a bar at `now`: consume seeks, restarts and a panic stop, publish the bar, and say what
    /// it is played from.
    ///
    /// A panic stop outranks everything: it must be silent before the bar's events are considered.
    pub fn begin_bar(&mut self, now: u64) -> (bar: Bar)
        ensures
            *final(self) == begun(*old(self), now),
            bar.start == now,
            bar.duration == bar_nanos(old(self).tempo()),
            bar.index == position(*old(self)),
            bar.playing == final(self).playing,
            bar.progression_len == old(self).progression_len,
            chord_of(bar.live) == chord_of(old(self).live_chord),
            bar.key == old(self).track_key(),
            bar.note_length == old(self).sustain(),
            bar.metronome == old(self).metronome,
    {
        if self.seek_to >= 0 {
            self.current_bar = self.seek_to as usize;
        }
        self.seek_to = -1;
        if self.restart {
            self.current_bar = 0;
        }
        self.restart = false;
        if self.stop_now {
            self.playing = false;
        }
        self.stop_now = false;
        self.publish_bar(now, self.current_bar);
        let live: Option<Vec<u8>> = match &self.live_chord {
            Some(notes) => {
                let copied: Vec<u8> = notes.clone();
                assert(copied@ =~= notes@);
                Some(copied)
            },
            None => None,
        };
        Bar {
            start: now,
            duration: self.bar_duration(),
            index: self.current_bar,
            playing: self.playing,
            progression_len: self.progression_len,
            live,
            key: self.key(),
            note_length: self.note_length(),
            metronome: self.metronome,
        }
    }

    /// Finish a bar: after an interrupt, everything is released, because the releases the abandoned
    /// schedule still owed will never be delivered; otherwise playback moves on by one bar, and
    /// stops at the end of a round that does not loop.
    pub fn finish_bar(&mut self, bar: &Bar, interrupted: bool) -> (r: Option<SchedulerEvent>)
        requires
            bar.total() <= usize::MAX,
        ensures
            match r {
                Some(e) => interrupted && e@ == SchedulerModel::Silence,
                None => !interrupted,
            },
            *final(self) == (if interrupted {
                *old(self)
            } else {
                moved_on(*old(self), *bar)
            }),
    {
        if interrupted {
            return Some(SchedulerEvent::Silence);
        }
        let total: usize = if bar.live.is_some() {
            bar.progression_len + 1
        } else {
            bar.progression_len
        };
        if bar.playing && total > 0 {
            let within: usize = bar.index % total;
            let next: usize = if within == total - 1 { 0 } else { within + 1 };
            proof {
                lemma_next_bar(bar.index as int, total as int);
            }
            if next == 0 && !self.looping {
                self.playing = false;
                self.current_bar = 0;
            } else {
                self.current_bar = next;
            }
        }
        None
    }

    /// Whether something has come in that ends the bar early.
    pub open spec fn called_off(&self) -> bool {
        self.seek_to >= 0 || self.restart || self.stop_now
    }

    /// What to do at `now` about a deadline: it has come, something ends the wait, or sleep a few
    /// milliseconds more and look again.
    pub fn watch(&self, stop: bool, now: u64, deadline: u64) -> (r: Wait)
        ensures
            r == (if now >= deadline {
                Wait::Reached
            } else if stop || self.called_off() {
                Wait::Interrupted
            } else if deadline - now < 5_000_000 {
                Wait::Sleep((deadline - now) as u64)
            } else {
                Wait::Sleep(5_000_000)
            }),
            r == awaited(*self, stop, now as int, deadline as int),
    {
        if now >= deadline {
            return Wait::Reached;
        }
        if stop || self.seek_to >= 0 || self.restart || self.stop_now {
            return Wait::Interrupted;
        }
        if deadline - now < 5_000_000 {
            Wait::Sleep(deadline - now)
        } else {
            Wait::Sleep(5_000_000)
        }
    }
}

/// What a wait does at `now`.
pub open spec fn awaited(t: Transport, stop: bool, now: int, deadline: int) -> Wait {
    if now >= deadline {
        Wait::Reached
    } else if stop || t.called_off() {
        Wait::Interrupted
    } else if deadline - now < 5_000_000 {
        Wait::Sleep((deadline - now) as u64)
    } else {
        Wait::Sleep(5_000_000)
    }
}

/// A step of a wait.
#[derive(Copy, Clone, Debug, PartialEq, Eq, Structural)]
pub enum Wait {
    /// The deadline has come.
    Reached,
    /// A stop, a seek or a restart came first.
    Interrupted,
    /// Sleep so many nanoseconds, then look again.
    Sleep(u64),
}

proof fn lemma_next_bar(bar: int, total: int)
    requires
        0 < total,
        0 <= bar,
    ensures
        (bar + 1) % total == (if bar % total == total - 1 {
            0
        } else {
            bar % total + 1
        }),
{
    vstd::arithmetic::div_mod::lemma_add_mod_noop(bar, 1, total);
    if total == 1 {
        vstd::arithmetic::div_mod::lemma_mod_bound(bar, total);
    } else {
        vstd::arithmetic::div_mod::lemma_small_mod(1, total as nat);
        vstd::arithmetic::div_mod::lemma_mod_bound(bar, total);
        if bar % total == total - 1 {
            vstd::arithmetic::div_mod::lemma_mod_self_0(total);
        } else {
            vstd::arithmetic::div_mod::lemma_small_mod((bar % total + 1) as nat, total as nat);
        }
    }
}

/// What a bar holds before the metronome: `None` means silence.
pub open spec fn played(bar: Bar, slots: Seq<SlotModel>) -> Option<Seq<EventModel>> {
    if bar.playing && bar.total() > 0 {
        let index = bar.index as int % bar.total();
        if index < bar.progression_len {
            Some(
                due_in_bar(
                    planned(slots, bar.key, bar.note_length),
                    index,
                    BAR_TICKS as int,
                    RHYTHM_LAYERS as int,
                ),
            )
        } else {
            Some(live_bar(chord_of(bar.live)->0, bar.note_length))
        }
    } else {
        match bar.live {
            Some(notes) => Some(live_bar(notes@, bar.note_length)),
            None => None,
        }
    }
}

/// What a bar holds. The metronome is layered on top of whatever else the bar holds, and it is the
/// *whole* bar when nothing else does.
pub open spec fn content(bar: Bar, slots: Seq<SlotModel>) -> Option<Seq<EventModel>> {
    match played(bar, slots) {
        Some(events) => if bar.metronome {
            Some(sorted(events + clicks(BAR_TICKS as int)))
        } else {
            Some(events)
        },
        None => if bar.metronome {
            Some(clicks(BAR_TICKS as int))
        } else {
            None
        },
    }
}

/// What an optional bar's events hold.
pub open spec fn content_of(events: Option<Vec<BarEvent>>) -> Option<Seq<EventModel>> {
    match events {
        Some(v) => Some(event_models(v@)),
        None => None,
    }
}

fn copy_chord(notes: &Option<Vec<u8>>) -> (r: Vec<u8>)
    requires
        notes is Some,
    ensures
        r@ == chord_of(*notes)->0,
{
    match notes {
        Some(v) => {
            let r: Vec<u8> = v.clone();
            assert(r@ =~= v@);
            r
        },
        None => Vec::new(),
    }
}

/// Decide what a bar holds before the metronome.
fn bar_music(bar: &Bar, slots: &[Slot]) -> (r: Option<Vec<BarEvent>>)
    requires
        slots@.len() * BAR_TICKS <= i64::MAX,
        bar.progression_len * BAR_TICKS <= u64::MAX,
        bar.total() <= usize::MAX,
    ensures
        content_of(r) == played(*bar, slot_models(slots@)),
{
    let total: usize = if bar.live.is_some() {
        bar.progression_len + 1
    } else {
        bar.progression_len
    };
    if bar.playing && total > 0 {
        let index: usize = bar.index % total;
        if index < bar.progression_len {
            // Rebuilt every bar, so a pattern assignment or an offset edit takes effect within one
            // bar.
            let plan: Vec<Stab> = arrangement(slots, &bar.key, bar.note_length);
            proof {
                law_plans_stay_inside_the_loop(slot_models(slots@), bar.key, bar.note_length);
                let models = stab_models(plan@);
                assert forall|i: int| 0 <= i < models.len() implies (#[trigger] models[i]).release()
                    <= u64::MAX by {
                    assert(crate::arrangement::inside(models[i], slots@.len() * BAR_TICKS));
                }
            }
            Some(bar_events(plan.as_slice(), index, BAR_TICKS, RHYTHM_LAYERS))
        } else {
            // The live bar appended after the progression.
            Some(live_events(copy_chord(&bar.live), bar.note_length))
        }
    } else if bar.live.is_some() {
        // Stopped, with a chord under the hands: sound it for its length.
        Some(live_events(copy_chord(&bar.live), bar.note_length))
    } else {
        None
    }
}

/// Decide what a bar holds. `None` means silence.
pub fn bar_content(bar: &Bar, slots: &[Slot]) -> (r: Option<Vec<BarEvent>>)
    requires
        slots@.len() * BAR_TICKS <= i64::MAX,
        bar.progression_len * BAR_TICKS <= u64::MAX,
        bar.total() <= usize::MAX,
    ensures
        content_of(r) == content(*bar, slot_models(slots@)),
{
    let music: Option<Vec<BarEvent>> = bar_music(bar, slots);
    if !bar.metronome {
        return music;
    }
    let mut ticks: Vec<BarEvent> = metronome_events(BAR_TICKS);
    match music {
        Some(events) => {
            let mut all: Vec<BarEvent> = events;
            let ghost before = event_models(all@);
            all.append(&mut ticks);
            assert(event_models(all@) =~= before + clicks(BAR_TICKS as int));
            sort_events(&mut all);
            Some(all)
        },
        None => Some(ticks),
    }
}

/// A due time and what is sent then.
#[derive(Debug, PartialEq)]
pub struct Due {
    pub at: u64,
    pub event: SchedulerEvent,
}

fn send_of(event: &BarEvent) -> (r: SchedulerEvent)
    ensures
        r@ == sent(event@),
{
    match event {
        BarEvent::On { at: _, group, notes, gain } => {
            let copied: Vec<u8> = notes.clone();
            assert(copied@ =~= notes@);
            SchedulerEvent::Stab { group: *group, notes: copied, gain: *gain }
        },
        BarEvent::Off { at: _, group } => SchedulerEvent::ReleaseStab { group: *group },
        BarEvent::Click { at: _, strong } => SchedulerEvent::Click { strong: *strong },
    }
}

/// What a bar sends and when. Deadlines are absolute against the bar's start, so a long bar of fast
/// onsets cannot accumulate rounding. After the last event the bar is waited out.
pub fn timeline(bar: &Bar, planned: &Vec<BarEvent>) -> (r: Vec<Due>)
    requires
        forall|i: int|
            0 <= i < planned@.len() ==> bar.start + lasting(
                (#[trigger] planned@[i])@.tick() as int,
                bar.duration as int,
            ) <= u64::MAX,
    ensures
        r@.len() == planned@.len(),
        forall|i: int|
            0 <= i < r@.len() ==> (#[trigger] r@[i]).at == bar.start + lasting(
                planned@[i]@.tick() as int,
                bar.duration as int,
            ) && r@[i].event@ == sent(planned@[i]@),
{
    let mut r: Vec<Due> = Vec::new();
    for i in 0..planned.len()
        invariant
            forall|j: int|
                0 <= j < planned@.len() ==> bar.start + lasting(
                    (#[trigger] planned@[j])@.tick() as int,
                    bar.duration as int,
                ) <= u64::MAX,
            r@.len() == i,
            forall|j: int|
                0 <= j < i ==> (#[trigger] r@[j]).at == bar.start + lasting(
                    planned@[j]@.tick() as int,
                    bar.duration as int,
                ) && r@[j].event@ == sent(planned@[j]@),
    {
        let event: &BarEvent = &planned[i];
        assert(bar.start + lasting(planned@[i as int]@.tick() as int, bar.duration as int) <= u64::MAX);
        let at: u64 = bar.start + ticks_to_duration(event.at(), bar.duration);
        r.push(Due { at, event: send_of(event) });
    }
    r
}

// -----------------------------------------------------------------------------
// Laws
// -----------------------------------------------------------------------------

/// A key and a note length that were set are the ones that are read.
pub proof fn law_settings_read_back(t: Transport, k: Key, v: Single)
    requires
        k.in_range(),
        !v.nan(),
        !v.below(Single { bits: TWENTIETH_BITS }),
        !(Single { bits: ONE_BITS }).below(v),
    ensures
        (Transport {
            track_key_tonic: k.tonic as u32,
            track_key_minor: k.scale is Minor,
            ..t
        }).track_key() == k,
        (Transport { note_length_bits: kept_length(v).bits, ..t }).sustain() == v,
{
}

/// A panic stop ends the bar at once, leaves nothing playing in the next one, and leaves the position
/// alone: the next play resumes where it was.
pub proof fn law_a_panic_stop_keeps_the_position(t: Transport, now: u64, bar: Bar)
    requires
        t.stop_now,
        t.seek_to < 0,
        !t.restart,
        bar.playing == begun(t, now).playing,
    ensures
        t.called_off(),
        !begun(t, now).playing,
        moved_on(begun(t, now), bar).current_bar == t.current_bar,
{
}

/// Later ticks come no earlier, and the downbeat comes at the bar's start.
pub proof fn law_ticks_are_monotone(a: int, b: int, bar: int)
    requires
        0 <= a <= b,
        0 <= bar,
    ensures
        0 <= lasting(a, bar) <= lasting(b, bar),
        lasting(0, bar) == 0,
{
    let x = if a > BAR_TICKS {
        BAR_TICKS as int
    } else {
        a
    };
    let y = if b > BAR_TICKS {
        BAR_TICKS as int
    } else {
        b
    };
    law_shares_keep_order(bar, x, y, BAR_TICKS as int);
}

/// The bar line comes at the end of the bar, at every tempo: no tick of the bar comes later.
pub proof fn law_the_bar_line_ends_the_bar(bpm: int, ticks: int)
    requires
        0 <= ticks,
    ensures
        lasting(BAR_TICKS as int, bar_nanos(bpm)) == bar_nanos(bpm),
        lasting(ticks, bar_nanos(bpm)) <= bar_nanos(bpm),
{
    lemma_bar_nanos(bpm);
    law_the_whole_is_itself(bar_nanos(bpm), BAR_TICKS as int);
    let x = if ticks > BAR_TICKS {
        BAR_TICKS as int
    } else {
        ticks
    };
    law_shares_keep_order(bar_nanos(bpm), x, BAR_TICKS as int, BAR_TICKS as int);
}

/// No bar is longer than four minutes.
proof fn lemma_bar_nanos(bpm: int)
    ensures
        0 <= bar_nanos(bpm) <= 240_000_000_000,
{
    let n = if bpm < 1 {
        1
    } else {
        bpm
    };
    assert(0 <= 60_000_000int / n <= 60_000_000) by (nonlinear_arith)
        requires
            n >= 1,
    ;
}

/// A round visits its bars in turn. After the last it starts again where it loops, and stops at its
/// start where it does not.
pub proof fn law_a_round_loops(t: Transport, bar: Bar)
    requires
        bar.playing,
        bar.index < bar.total() <= usize::MAX,
    ensures
        bar.index + 1 < bar.total() ==> moved_on(t, bar).current_bar == bar.index + 1
            && moved_on(t, bar).playing == t.playing,
        bar.index + 1 == bar.total() ==> moved_on(t, bar).current_bar == 0
            && moved_on(t, bar).playing == (t.playing && t.looping),
{
    vstd::arithmetic::div_mod::lemma_small_mod(bar.index as nat, bar.total() as nat);
    lemma_next_bar(bar.index as int, bar.total());
}

/// The deadlines of a bar's events come in order, none before the bar starts and, at every tempo, none
/// after it ends.
pub proof fn law_deadlines_are_in_order(events: Seq<EventModel>, i: int, j: int, start: int, bpm: int)
    requires
        0 <= i <= j < sorted(events).len(),
    ensures
        ({
            let bar = bar_nanos(bpm);
            start <= start + lasting(sorted(events)[i].tick() as int, bar) <= start + lasting(
                sorted(events)[j].tick() as int,
                bar,
            ) <= start + bar
        }),
{
    crate::arrangement::law_events_in_due_order(events, i, j);
    lemma_bar_nanos(bpm);
    law_ticks_are_monotone(
        sorted(events)[i].tick() as int,
        sorted(events)[j].tick() as int,
        bar_nanos(bpm),
    );
    law_the_bar_line_ends_the_bar(bpm, sorted(events)[j].tick() as int);
}

/// A playing bar of the progression starts and releases what the plan does in its own bar: an event
/// that is no click is in it exactly when a stab of the plan starts in that bar, on the stab's tick
/// of it and with its notes and gain, or ends in or with that bar. Around the round the bars are
/// taken in turn.
pub proof fn law_a_bar_plays_its_part_of_the_plan(bar: Bar, slots: Seq<SlotModel>, e: EventModel)
    requires
        bar.playing,
        bar.total() > 0,
        bar.index as int % bar.total() < bar.progression_len,
        e !is Click,
    ensures
        content(bar, slots) is Some,
        ({
            let plan = planned(slots, bar.key, bar.note_length);
            let of = assigned(plan, RHYTHM_LAYERS as int, plan.len() as int).0;
            let line = (bar.index as int % bar.total()) * BAR_TICKS;
            content(bar, slots)->0.contains(e) <==> exists|k: int|
                0 <= k < plan.len() && #[trigger] owes(plan[k], of[k], line, e)
        }),
{
    let plan = planned(slots, bar.key, bar.note_length);
    let of = assigned(plan, RHYTHM_LAYERS as int, plan.len() as int).0;
    let index = bar.index as int % bar.total();
    let line = index * BAR_TICKS;
    let n = plan.len() as int;
    let music = due_in_bar(plan, index, BAR_TICKS as int, RHYTHM_LAYERS as int);
    lemma_sorted_contains(events_of(plan, of, line, BAR_TICKS as int, n), e);
    lemma_event_of_a_stab(plan, of, line, BAR_TICKS as int, n, e);
    lemma_with_clicks(music, e);
    assert forall|k: int| 0 <= k < n implies (#[trigger] owes(plan[k], of[k], line, e)
        <==> stab_events(plan[k], of[k], line, BAR_TICKS as int).contains(e)) by {
        let events = stab_events(plan[k], of[k], line, BAR_TICKS as int);
        if owes(plan[k], of[k], line, e) {
            if e is On {
                assert(events[0] == e);
            } else {
                assert(events[events.len() - 1] == e);
            }
        }
    }
    if content(bar, slots)->0.contains(e) {
        let k = choose|k: int|
            0 <= k < n && #[trigger] stab_events(plan[k], of[k], line, BAR_TICKS as int).contains(e);
        assert(owes(plan[k], of[k], line, e));
    }
    if exists|k: int| 0 <= k < n && #[trigger] owes(plan[k], of[k], line, e) {
        let k = choose|k: int| 0 <= k < n && #[trigger] owes(plan[k], of[k], line, e);
        assert(stab_events(plan[k], of[k], line, BAR_TICKS as int).contains(e));
    }
}

/// The event is the start or the release that a stab owes the bar whose line is at `line`.
pub open spec fn owes(stab: StabModel, group: usize, line: int, e: EventModel) -> bool {
    match e {
        EventModel::On { at, group: g, notes, gain } => at + line == stab.start && 0 <= at < BAR_TICKS
            && g == group && notes == stab.notes && gain == stab.gain,
        EventModel::Off { at, group: g } => at + line == stab.start + stab.duration && 0 < at
            <= BAR_TICKS && g == group,
        EventModel::Click { at, strong } => false,
    }
}

proof fn lemma_with_clicks(music: Seq<EventModel>, e: EventModel)
    requires
        e !is Click,
    ensures
        sorted(music + clicks(BAR_TICKS as int)).contains(e) <==> music.contains(e),
{
    let ticks = clicks(BAR_TICKS as int);
    let all = music + ticks;
    lemma_sorted_contains(all, e);
    if all.contains(e) {
        let k = choose|k: int| 0 <= k < all.len() && all[k] == e;
        if k >= music.len() {
            assert(all[k] == ticks[k - music.len()]);
        } else {
            assert(music[k] == e);
        }
    }
    if music.contains(e) {
        let k = choose|k: int| 0 <= k < music.len() && music[k] == e;
        assert(all[k] == e);
    }
}

/// What a playing transport emits in the first `n` bars of a round.
pub open spec fn heard_in_round(bar: Bar, slots: Seq<SlotModel>, n: int) -> Multiset<(int, EventModel)>
    decreases n,
{
    if n <= 0 {
        Multiset::empty()
    } else {
        heard_in_round(bar, slots, n - 1).add(
            in_bar(
                content(Bar { index: (n - 1) as usize, ..bar }, slots)->0,
                n - 1,
            ).to_multiset(),
        )
    }
}

/// Over one round a playing transport emits its plan: each stab once, with one start and one release,
/// on its tick of its bar and on its group, and nothing else.
pub proof fn law_a_round_plays_the_plan(bar: Bar, slots: Seq<SlotModel>)
    requires
        bar.playing,
        !bar.metronome,
        bar.progression_len == slots.len(),
        slots.len() * BAR_TICKS <= u64::MAX,
    ensures
        ({
            let plan = planned(slots, bar.key, bar.note_length);
            heard_in_round(bar, slots, slots.len() as int) == owed(
                plan,
                assigned(plan, RHYTHM_LAYERS as int, plan.len() as int).0,
                BAR_TICKS as int,
                plan.len() as int,
            )
        }),
{
    let plan = planned(slots, bar.key, bar.note_length);
    law_plans_stay_inside_the_loop(slots, bar.key, bar.note_length);
    law_a_loop_emits_its_plan(plan, slots.len() as int, BAR_TICKS as int, RHYTHM_LAYERS as int);
    lemma_heard_in_round(bar, slots, slots.len() as int);
}

proof fn lemma_heard_in_round(bar: Bar, slots: Seq<SlotModel>, n: int)
    requires
        bar.playing,
        !bar.metronome,
        bar.progression_len == slots.len(),
        n <= slots.len(),
    ensures
        heard_in_round(bar, slots, n) == emitted(
            planned(slots, bar.key, bar.note_length),
            BAR_TICKS as int,
            RHYTHM_LAYERS as int,
            n,
        ),
    decreases n,
{
    if n > 0 {
        lemma_heard_in_round(bar, slots, n - 1);
        let here = Bar { index: (n - 1) as usize, ..bar };
        vstd::arithmetic::div_mod::lemma_small_mod((n - 1) as nat, here.total() as nat);
    }
}

/// A live chord sounds in the one bar after the progression, and in every bar while nothing plays: from
/// the bar line on group 0, with its own notes at full gain, to the tick that the note length says.
pub proof fn law_the_live_chord_has_its_own_bar(bar: Bar, slots: Seq<SlotModel>, notes: Seq<u8>)
    requires
        chord_of(bar.live) == Some(notes),
        !bar.metronome,
        bar.playing ==> bar.index as int % (bar.progression_len + 1) == bar.progression_len,
    ensures
        content(bar, slots) == Some(
            seq![
                EventModel::On { at: 0, group: 0, notes, gain: Single { bits: ONE_BITS } },
                EventModel::Off { at: sustained(bar.note_length) as u64, group: 0 },
            ],
        ),
{
}

/// A bar is silent exactly when nothing plays: no progression, no live chord and no metronome. The
/// metronome adds its clicks to a bar and takes nothing from it.
pub proof fn law_the_metronome_is_layered_on_top(bar: Bar, slots: Seq<SlotModel>)
    ensures
        content(bar, slots) is None <==> !bar.metronome && bar.live is None && !(bar.playing
            && bar.progression_len > 0),
        bar.metronome ==> ({
            let quiet = Bar { metronome: false, ..bar };
            content(bar, slots)->0.to_multiset() == (match content(quiet, slots) {
                Some(events) => events.to_multiset(),
                None => Multiset::empty(),
            }).add(clicks(BAR_TICKS as int).to_multiset())
        }),
{
    broadcast use vstd::multiset::group_multiset_axioms;

    let ticks = clicks(BAR_TICKS as int);
    let quiet = Bar { metronome: false, ..bar };
    match content(quiet, slots) {
        Some(events) => {
            lemma_sorted(events + ticks);
            vstd::seq_lib::lemma_multiset_commutative(events, ticks);
        },
        None => {
            assert(Multiset::empty().add(ticks.to_multiset()) =~= ticks.to_multiset());
        },
    }
}

/// A bar lasts four beats, and a beat is the number of whole microseconds that the tempo leaves it: as
/// many as fit into a minute as often as the tempo says, and no fewer.
pub proof fn law_a_bar_is_four_beats(bpm: int)
    requires
        1 <= bpm,
    ensures
        bar_nanos(bpm) % 4000 == 0,
        ({
            let beat = bar_nanos(bpm) / 4000;
            beat * bpm <= 60_000_000 < (beat + 1) * bpm
        }),
        bar_nanos(0) == bar_nanos(1),
{
    let beat = 60_000_000int / bpm;
    assert(beat * bpm <= 60_000_000 < (beat + 1) * bpm) by (nonlinear_arith)
        requires
            beat == 60_000_000int / bpm,
            bpm >= 1,
    ;
    assert(bar_nanos(bpm) == 4000 * beat);
}

/// A bar begins where it was asked to: at the first bar after a restart, which outranks a seek; at the
/// bar of a seek; and otherwise where the transport stands. Every request is then spent, and nothing
/// else changes but that a panic stop ends playing.
pub proof fn law_requests_are_spent_once(t: Transport, now: u64)
    ensures
        t.restart ==> begun(t, now).current_bar == 0,
        !t.restart && t.seek_to >= 0 ==> begun(t, now).current_bar == t.seek_to as usize,
        !t.restart && t.seek_to < 0 ==> begun(t, now).current_bar == t.current_bar,
        !begun(t, now).called_off(),
        begun(t, now).bar_started_at == Some((now, begun(t, now).current_bar)),
        begun(t, now).playing <==> t.playing && !t.stop_now,
        begun(t, now).looping == t.looping,
        begun(t, now).bpm == t.bpm,
        begun(t, now).progression_len == t.progression_len,
        begun(t, now).live_chord == t.live_chord,
        begun(t, now).metronome == t.metronome,
        begun(t, now).track_key() == t.track_key(),
        begun(t, now).sustain() == t.sustain(),
        begun(begun(t, now), now) == begun(t, now),
{
}

/// What is sent for an event is what the event is: the start of a chord with its group, notes and
/// gain, the release of its group, or a click as strong as it is.
pub proof fn law_events_are_sent_as_they_are(e: EventModel)
    ensures
        e matches EventModel::On { at, group, notes, gain } ==> sent(e) == (SchedulerModel::Stab {
            group,
            notes,
            gain,
        }),
        e matches EventModel::Off { at, group } ==> sent(e) == (SchedulerModel::ReleaseStab { group }),
        e matches EventModel::Click { at, strong } ==> sent(e) == (SchedulerModel::Click { strong }),
{
}

/// A note length is kept within a twentieth of a bar and a bar: a smaller one becomes the twentieth, a
/// larger one the bar, and every other stays what it is.
pub proof fn law_note_lengths_are_kept_in_range(v: Single)
    requires
        !v.nan(),
    ensures
        ({
            let low = Single { bits: TWENTIETH_BITS };
            let high = Single { bits: ONE_BITS };
            &&& v.below(low) ==> kept_length(v) == low
            &&& high.below(v) ==> kept_length(v) == high
            &&& !v.below(low) && !high.below(v) ==> kept_length(v) == v
            &&& low.below(high)
        }),
{
}

/// A tick of a bar comes as long after the bar line as its part of the bar lasts, to two nanoseconds, at
/// every tempo; ticks past the bar line come with it.
pub proof fn law_ticks_last_in_proportion(ticks: int, bpm: int)
    requires
        0 <= ticks,
    ensures
        ticks <= BAR_TICKS ==> -2 * BAR_TICKS < lasting(ticks, bar_nanos(bpm)) * BAR_TICKS - bar_nanos(
            bpm,
        ) * ticks < 2 * BAR_TICKS,
        ticks >= BAR_TICKS ==> lasting(ticks, bar_nanos(bpm)) == bar_nanos(bpm),
{
    lemma_bar_nanos(bpm);
    if ticks <= BAR_TICKS {
        law_shares_are_in_proportion(bar_nanos(bpm), ticks, BAR_TICKS as int);
    }
    if ticks >= BAR_TICKS {
        law_the_bar_line_ends_the_bar(bpm, ticks);
        law_the_whole_is_itself(bar_nanos(bpm), BAR_TICKS as int);
    }
}

/// A wait is over exactly when its deadline has come; before that, whatever ends the bar early interrupts
/// it: the end of the program, a seek, a restart or a panic stop. Otherwise it sleeps, not past its
/// deadline, and for five milliseconds at most before it looks again.
pub proof fn law_a_wait_ends_at_its_deadline(t: Transport, stop: bool, now: int, deadline: int)
    requires
        0 <= now,
        0 <= deadline <= u64::MAX,
    ensures
        awaited(t, stop, now, deadline) is Reached <==> now >= deadline,
        awaited(t, stop, now, deadline) is Interrupted <==> now < deadline && (stop || t.seek_to >= 0
            || t.restart || t.stop_now),
        awaited(t, stop, now, deadline) matches Wait::Sleep(n) ==> 0 < n <= 5_000_000 && now + n
            <= deadline && (n == 5_000_000 || now + n == deadline),
{
}

/// A bar that was played is followed by the one after it, counted round the progression, wherever the
/// index stood; without playback, or with nothing to play, the index stays.
pub proof fn law_a_bar_moves_on_by_one(t: Transport, bar: Bar)
    requires
        bar.total() <= usize::MAX,
    ensures
        bar.playing && bar.total() > 0 ==> ({
            let next = moved_on(t, bar).current_bar as int;
            &&& 0 <= next < bar.total()
            &&& (bar.index + 1 - next) % bar.total() == 0
            &&& moved_on(t, bar).playing == (t.playing && (next != 0 || t.looping))
        }),
        !bar.playing || bar.total() == 0 ==> moved_on(t, bar) == t,
{
    if bar.playing && bar.total() > 0 {
        let n = bar.total();
        let k = bar.index + 1;
        let q = k / n;
        vstd::arithmetic::div_mod::lemma_fundamental_div_mod(k, n);
        assert(0 <= k % n < n);
        vstd::arithmetic::div_mod::lemma_mod_multiples_basic(q, n);
        assert(k - k % n == q * n) by (nonlinear_arith)
            requires
                k == n * q + k % n,
        ;
    }
}

} // verus!
