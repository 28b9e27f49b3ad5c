//! Standard MIDI File (`.mid`) writer, and the reader of the document it embeds.
//!
//! Pure byte assembly: a [`Score`] goes in, the bytes of a file come out.
//!
//! Two layouts:
//!
//! - [`TrackLayout::Single`] writes a **format 0** file: one track, every note on one channel.
//! - [`TrackLayout::PerLayer`] writes a **format 1** file with a conductor track plus one track
//!   per layer on its own channel.

use vstd::multiset::Multiset;
use vstd::prelude::*;
use vstd::string::*;
use vstd::utf8::encode_utf8;

use crate::midi::{ChannelMap, Layer, Note, Score};
use crate::music::{Key, Scale};
use crate::order::{lemma_sorted, lemma_sorted_contains, sorted, stable_sort, Placed, Ranked};
use crate::text::joined;

verus! {

/// How the score is spread across tracks and channels.
#[derive(Copy, Clone, Debug, PartialEq, Eq, Structural)]
pub enum TrackLayout {
    /// One track, every layer collapsed onto `channel`.
    Single { channel: u8 },
    /// A conductor track plus one track per layer, each on its own channel.
    PerLayer { channels: ChannelMap },
}

#[derive(Debug)]
pub struct SmfOptions {
    pub layout: TrackLayout,
    pub track_name: String,
    /// An opaque project document to embed in the conductor track.
    pub project: Option<Vec<u8>>,
}

/// What the options hold.
#[verifier::ext_equal]
pub struct OptionsModel {
    pub layout: TrackLayout,
    pub track_name: Seq<char>,
    pub document: Option<Seq<u8>>,
}

impl View for SmfOptions {
    type V = OptionsModel;

    open spec fn view(&self) -> OptionsModel {
        OptionsModel {
            layout: self.layout,
            track_name: self.track_name@,
            document: match self.project {
                Some(p) => Some(p@),
                None => None,
            },
        }
    }
}

impl Clone for SmfOptions {
    fn clone(&self) -> (r: Self)
        ensures
            r@ == self@,
    {
        let project: Option<Vec<u8>> = match &self.project {
            Some(p) => {
                let copied: Vec<u8> = p.clone();
                assert(copied@ =~= p@);
                Some(copied)
            },
            None => None,
        };
        SmfOptions { layout: self.layout, track_name: self.track_name.clone(), project }
    }
}

impl SmfOptions {
    /// The default: a single track on channel 1 (zero-indexed 0).
    pub fn single(track_name: &str) -> (r: Self)
        ensures
            r@ == (OptionsModel {
                layout: TrackLayout::Single { channel: 0 },
                track_name: track_name@,
                document: None,
            }),
    {
        SmfOptions {
            layout: TrackLayout::Single { channel: 0 },
            track_name: track_name.to_owned(),
            project: None,
        }
    }

    /// Embed a project document alongside the notes.
    pub fn with_project(self, project: Vec<u8>) -> (r: Self)
        ensures
            r@ == (OptionsModel { document: Some(project@), ..self@ }),
    {
        SmfOptions { layout: self.layout, track_name: self.track_name, project: Some(project) }
    }
}

// -----------------------------------------------------------------------------
// The format
// -----------------------------------------------------------------------------

/// A 16-bit number, high byte first.
pub open spec fn be16(v: int) -> Seq<u8> {
    seq![(v / 256 % 256) as u8, (v % 256) as u8]
}

/// A 32-bit number, high byte first.
pub open spec fn be32(v: int) -> Seq<u8> {
    seq![
        (v / 16777216 % 256) as u8,
        (v / 65536 % 256) as u8,
        (v / 256 % 256) as u8,
        (v % 256) as u8,
    ]
}

/// The groups of seven bits in front of the last one, each with the continuation bit.
pub open spec fn vlq_front(v: int) -> Seq<u8>
    decreases v,
{
    if v <= 0 {
        Seq::empty()
    } else {
        vlq_front(v / 128).push((v % 128 + 128) as u8)
    }
}

/// A number as a variable-length quantity: groups of seven bits, highest first, the last one
/// without the continuation bit.
pub open spec fn vlq(v: int) -> Seq<u8> {
    vlq_front(v / 128).push((v % 128) as u8)
}

/// The number that a length field of 32 bits holds.
pub open spec fn low32(n: int) -> int {
    n % 0x1_0000_0000
}

/// The file header.
pub open spec fn header_bytes(format: int, tracks: int, division: int) -> Seq<u8> {
    seq![0x4Du8, 0x54, 0x68, 0x64] + be32(6) + be16(format) + be16(tracks) + be16(division)
}

/// A track chunk.
pub open spec fn track_bytes(body: Seq<u8>) -> Seq<u8> {
    seq![0x4Du8, 0x54, 0x72, 0x6B] + be32(low32(body.len() as int)) + body
}

/// A meta event at tick 0 after what came before.
pub open spec fn meta_bytes(kind: u8, data: Seq<u8>) -> Seq<u8> {
    seq![0x00u8, 0xFF, kind] + vlq(low32(data.len() as int)) + data
}

/// The end of a track, after `delta` ticks of silence.
pub open spec fn end_bytes(delta: int) -> Seq<u8> {
    vlq(low32(delta)) + seq![0xFFu8, 0x2F, 0x00]
}

/// What stands in front of an embedded document: the manufacturer id for non-commercial use, and
/// the magic.
pub open spec fn document_prefix() -> Seq<u8> {
    seq![MANUFACTURER_NON_COMMERCIAL] + PROJECT_MAGIC@
}

/// Microseconds per quarter note, as far as 24 bits hold them.
pub open spec fn tempo_micros(bpm: int) -> int {
    let micros = 60_000_000int / (if bpm < 1 { 1 } else { bpm });
    if micros > 0xFF_FFFF {
        0xFF_FFFF
    } else {
        micros
    }
}

/// Sharps (positive) or flats (negative) of a key, by common practice.
pub open spec fn sharps(key: Key) -> int {
    match key.scale {
        Scale::Major => MAJOR_SHARPS@[key.tonic as int % 12] as int,
        Scale::Minor => MINOR_SHARPS@[key.tonic as int % 12] as int,
    }
}

/// The two bytes of a key signature event.
pub open spec fn key_bytes(key: Key) -> Seq<u8> {
    seq![(sharps(key) % 256) as u8, if key.scale is Minor { 1u8 } else { 0u8 }]
}

/// The tempo event's three bytes.
pub open spec fn tempo_bytes(bpm: int) -> Seq<u8> {
    be32(tempo_micros(bpm)).subrange(1, 4)
}

/// Track name, embedded document, tempo, 4/4 meter and key.
pub open spec fn conductor_bytes(score: Score, opts: OptionsModel) -> Seq<u8> {
    meta_bytes(0x03, encode_utf8(opts.track_name)) + (match opts.document {
        Some(p) => meta_bytes(0x7F, document_prefix() + p),
        None => Seq::empty(),
    }) + meta_bytes(0x51, tempo_bytes(score.bpm as int)) + meta_bytes(0x58, seq![4u8, 2, 24, 8])
        + meta_bytes(0x59, key_bytes(score.key))
}

/// Number of sharps of each major key, by the pitch class of its tonic; flats are negative.
pub const MAJOR_SHARPS: [i8; 12] = [0, -5, 2, -3, 4, -1, 6, 1, -4, 3, -2, 5];

/// Number of sharps of each minor key, by the pitch class of its tonic; flats are negative.
pub const MINOR_SHARPS: [i8; 12] = [-3, 4, -1, -6, 1, -4, 3, -2, 5, 0, -5, 2];

/// The manufacturer id for "non-commercial / educational use", which is what third-party
/// sequencer-specific data is supposed to use.
pub const MANUFACTURER_NON_COMMERCIAL: u8 = 0x7D;

/// Magic marking a payload as a chord-tool project document, so a file can be recognised as ours
/// without attempting a parse: "CTP1".
pub const PROJECT_MAGIC: [u8; 4] = [0x43, 0x54, 0x50, 0x31];

/// A note boundary, before delta-times are computed.
#[derive(Copy, Clone, Debug, PartialEq, Eq, Structural)]
pub struct RawEvent {
    pub tick: u64,
    pub on: bool,
    pub note: u8,
    pub velocity: u8,
    pub channel: u8,
}

/// Events come by tick; at one tick note-offs come before note-ons, so that a repeated note
/// retriggers instead of being cancelled by its own release; then by note and by channel.
impl Placed for RawEvent {
    open spec fn place(&self) -> int {
        self.tick * 0x2_0000 + (if self.on { 0x1_0000int } else { 0 }) + self.note * 0x100 + self.channel
    }
}

impl Ranked for RawEvent {
    fn rank(&self) -> (r: u128) {
        let on: u128 = if self.on { 0x1_0000 } else { 0 };
        self.tick as u128 * 0x2_0000 + on + self.note as u128 * 0x100 + self.channel as u128
    }
}

/// The two boundaries of a note. A velocity of 0 would be read as a note-off, so it is floored.
pub open spec fn note_events(n: Note, channels: ChannelMap) -> Seq<RawEvent> {
    seq![
        RawEvent {
            tick: n.start,
            on: true,
            note: n.note,
            velocity: if n.velocity < 1 { 1 } else { n.velocity },
            channel: channels.of(n.layer),
        },
        RawEvent {
            tick: n.release() as u64,
            on: false,
            note: n.note,
            velocity: 0x40,
            channel: channels.of(n.layer),
        },
    ]
}

/// The boundaries of the notes that lie on one of the layers, note by note.
pub open spec fn boundaries(notes: Seq<Note>, layers: Seq<Layer>, channels: ChannelMap) -> Seq<
    RawEvent,
>
    decreases notes.len(),
{
    if notes.len() == 0 {
        Seq::empty()
    } else {
        let front = boundaries(notes.drop_last(), layers, channels);
        if layers.contains(notes.last().layer) {
            front + note_events(notes.last(), channels)
        } else {
            front
        }
    }
}

/// The events of a track in the order in which they are written.
pub open spec fn track_events(notes: Seq<Note>, layers: Seq<Layer>, channels: ChannelMap) -> Seq<
    RawEvent,
> {
    sorted(boundaries(notes, layers, channels))
}

/// The tick of the last event before the `i`-th.
pub open spec fn tick_before(events: Seq<RawEvent>, i: int) -> int {
    if i <= 0 {
        0
    } else {
        events[i - 1].tick as int
    }
}

/// Three bytes of a channel message.
pub open spec fn message_bytes(e: RawEvent) -> Seq<u8> {
    seq![
        ((if e.on { 0x90int } else { 0x80int }) + e.channel % 16) as u8,
        (e.note % 128) as u8,
        (e.velocity % 128) as u8,
    ]
}

/// The first `n` events with their delta times.
pub open spec fn event_bytes(events: Seq<RawEvent>, n: int) -> Seq<u8>
    decreases n,
{
    if n <= 0 {
        Seq::empty()
    } else {
        event_bytes(events, n - 1) + vlq(low32(events[n - 1].tick - tick_before(events, n - 1)))
            + message_bytes(events[n - 1])
    }
}

/// Ticks of silence between the last event and the end of the track.
pub open spec fn end_delta(events: Seq<RawEvent>, end_tick: int) -> int {
    let last = tick_before(events, events.len() as int);
    if end_tick > last {
        end_tick - last
    } else {
        0
    }
}

/// All events of a track and its end.
pub open spec fn stream_bytes(events: Seq<RawEvent>, end_tick: int) -> Seq<u8> {
    event_bytes(events, events.len() as int) + end_bytes(end_delta(events, end_tick))
}

/// Every layer, lowest first.
pub open spec fn all_layers() -> Seq<Layer> {
    seq![Layer::Low, Layer::Mid, Layer::High]
}

/// The name of a layer's track.
pub open spec fn layer_name(layer: Layer) -> Seq<char> {
    match layer {
        Layer::Low => "Low"@,
        Layer::Mid => "Mid"@,
        Layer::High => "High"@,
    }
}

/// The one track of a format 0 file.
pub open spec fn single_body(score: Score, opts: OptionsModel, channel: u8) -> Seq<u8> {
    conductor_bytes(score, opts) + stream_bytes(
        track_events(
            score.notes@,
            all_layers(),
            ChannelMap { low: channel, mid: channel, high: channel },
        ),
        score.length_ticks as int,
    )
}

/// The conductor track of a format 1 file.
pub open spec fn conductor_body(score: Score, opts: OptionsModel) -> Seq<u8> {
    conductor_bytes(score, opts) + end_bytes(0)
}

/// A layer's track in a format 1 file.
pub open spec fn layer_body(
    score: Score,
    opts: OptionsModel,
    channels: ChannelMap,
    layer: Layer,
) -> Seq<u8> {
    meta_bytes(0x03, encode_utf8(opts.track_name + " "@ + layer_name(layer))) + stream_bytes(
        track_events(score.notes@, seq![layer], channels),
        score.length_ticks as int,
    )
}

/// The bytes of a file.
pub open spec fn file_bytes(score: Score, opts: OptionsModel) -> Seq<u8> {
    match opts.layout {
        TrackLayout::Single { channel } => header_bytes(0, 1, score.ppq as int) + track_bytes(
            single_body(score, opts, channel),
        ),
        TrackLayout::PerLayer { channels } => header_bytes(1, 4, score.ppq as int) + track_bytes(
            conductor_body(score, opts),
        ) + track_bytes(layer_body(score, opts, channels, Layer::Low)) + track_bytes(
            layer_body(score, opts, channels, Layer::Mid),
        ) + track_bytes(layer_body(score, opts, channels, Layer::High)),
    }
}

// -----------------------------------------------------------------------------
// Writing
// -----------------------------------------------------------------------------

/// Serialise a score to the bytes of a `.mid` file.
pub fn write(score: &Score, opts: &SmfOptions) -> (bytes: Vec<u8>)
    requires
        forall|i: int|
            0 <= i < score.notes@.len() ==> (#[trigger] score.notes@[i]).release() <= u64::MAX,
    ensures
        bytes@ == file_bytes(*score, opts@),
{
    match opts.layout {
        TrackLayout::Single { channel } => format0(score, opts, channel),
        TrackLayout::PerLayer { channels } => format1(score, opts, channels),
    }
}

fn format0(score: &Score, opts: &SmfOptions, channel: u8) -> (bytes: Vec<u8>)
    requires
        forall|i: int|
            0 <= i < score.notes@.len() ==> (#[trigger] score.notes@[i]).release() <= u64::MAX,
    ensures
        bytes@ == header_bytes(0, 1, score.ppq as int) + track_bytes(
            single_body(*score, opts@, channel),
        ),
{
    // Every layer onto the one channel.
    let channels: ChannelMap = ChannelMap { low: channel, mid: channel, high: channel };
    let layers: [Layer; 3] = [Layer::Low, Layer::Mid, Layer::High];
    assert(layers@ =~= all_layers());
    let events: Vec<RawEvent> = collect(score, layers.as_slice(), &channels);
    proof {
        law_events_by_tick(score.notes@, layers@, channels);
    }

    let mut body: Vec<u8> = Vec::new();
    conductor_meta(score, opts, &mut body);
    write_events(&events, score.length_ticks, &mut body);
    assert(body@ =~= single_body(*score, opts@, channel));

    let mut out: Vec<u8> = Vec::new();
    push_header(&mut out, 0, 1, score.ppq);
    push_track(&mut out, body.as_slice());
    assert(out@ =~= header_bytes(0, 1, score.ppq as int) + track_bytes(
        single_body(*score, opts@, channel),
    ));
    out
}

fn format1(score: &Score, opts: &SmfOptions, channels: ChannelMap) -> (bytes: Vec<u8>)
    requires
        forall|i: int|
            0 <= i < score.notes@.len() ==> (#[trigger] score.notes@[i]).release() <= u64::MAX,
    ensures
        bytes@ == header_bytes(1, 4, score.ppq as int) + track_bytes(conductor_body(*score, opts@))
            + track_bytes(layer_body(*score, opts@, channels, Layer::Low)) + track_bytes(
            layer_body(*score, opts@, channels, Layer::Mid),
        ) + track_bytes(layer_body(*score, opts@, channels, Layer::High)),
{
    let mut out: Vec<u8> = Vec::new();
    push_header(&mut out, 1, 4, score.ppq);

    let mut conductor: Vec<u8> = Vec::new();
    conductor_meta(score, opts, &mut conductor);
    end_of_track(&mut conductor, 0);
    push_track(&mut out, conductor.as_slice());
    assert(conductor@ =~= conductor_body(*score, opts@));

    push_layer(&mut out, score, opts, channels, Layer::Low, "Low");
    push_layer(&mut out, score, opts, channels, Layer::Mid, "Mid");
    push_layer(&mut out, score, opts, channels, Layer::High, "High");
    out
}

/// Append the track of one layer.
fn push_layer(
    out: &mut Vec<u8>,
    score: &Score,
    opts: &SmfOptions,
    channels: ChannelMap,
    layer: Layer,
    name: &str,
)
    requires
        forall|i: int|
            0 <= i < score.notes@.len() ==> (#[trigger] score.notes@[i]).release() <= u64::MAX,
        name@ == layer_name(layer),
    ensures
        final(out)@ == old(out)@ + track_bytes(layer_body(*score, opts@, channels, layer)),
{
    let layers: [Layer; 1] = [layer];
    assert(layers@ =~= seq![layer]);
    let events: Vec<RawEvent> = collect(score, layers.as_slice(), &channels);
    proof {
        law_events_by_tick(score.notes@, layers@, channels);
    }
    let mut body: Vec<u8> = Vec::new();
    let front: String = joined(opts.track_name.as_str(), " ");
    let title: String = joined(front.as_str(), name);
    meta(&mut body, 0x03, title.as_str().as_bytes());
    write_events(&events, score.length_ticks, &mut body);
    assert(body@ =~= layer_body(*score, opts@, channels, layer));
    push_track(out, body.as_slice());
}

fn has_layer(layers: &[Layer], layer: Layer) -> (found: bool)
    ensures
        found == layers@.contains(layer),
{
    for i in 0..layers.len()
        invariant
            forall|j: int| 0 <= j < i ==> #[trigger] layers@[j] != layer,
    {
        if layers[i] == layer {
            assert(layers@[i as int] == layer);
            return true;
        }
    }
    false
}

/// Flatten the score's notes into note-on / note-off events for the requested layers, in the
/// order they must be written.
fn collect(score: &Score, layers: &[Layer], channels: &ChannelMap) -> (events: Vec<RawEvent>)
    requires
        forall|i: int|
            0 <= i < score.notes@.len() ==> (#[trigger] score.notes@[i]).release() <= u64::MAX,
    ensures
        events@ == track_events(score.notes@, layers@, *channels),
{
    let mut events: Vec<RawEvent> = Vec::new();
    for i in 0..score.notes.len()
        invariant
            forall|k: int|
                0 <= k < score.notes@.len() ==> (#[trigger] score.notes@[k]).release() <= u64::MAX,
            events@ == boundaries(score.notes@.take(i as int), layers@, *channels),
    {
        let note: Note = score.notes[i];
        let ghost seen = score.notes@.take(i + 1);
        assert(seen.drop_last() =~= score.notes@.take(i as int));
        assert(seen.last() == note);
        if has_layer(layers, note.layer) {
            let channel: u8 = channels.channel(note.layer);
            let ghost front = events@;
            events.push(
                RawEvent {
                    tick: note.start,
                    on: true,
                    note: note.note,
                    velocity: if note.velocity < 1 { 1 } else { note.velocity },
                    channel,
                },
            );
            events.push(
                RawEvent {
                    tick: note.end(),
                    on: false,
                    note: note.note,
                    velocity: 0x40,
                    channel,
                },
            );
            assert(events@ =~= front + note_events(note, *channels));
        }
    }
    assert(score.notes@.take(score.notes@.len() as int) =~= score.notes@);
    stable_sort(events)
}

/// Write the event stream as delta-timed events, then end the track.
fn write_events(events: &Vec<RawEvent>, end_tick: u64, out: &mut Vec<u8>)
    requires
        forall|i: int, j: int|
            0 <= i <= j < events@.len() ==> events@[i].tick <= events@[j].tick,
    ensures
        final(out)@ == old(out)@ + stream_bytes(events@, end_tick as int),
{
    let ghost before = out@;
    let mut previous: u64 = 0;
    for i in 0..events.len()
        invariant
            forall|a: int, b: int|
                0 <= a <= b < events@.len() ==> events@[a].tick <= events@[b].tick,
            previous == tick_before(events@, i as int),
            out@ == before + event_bytes(events@, i as int),
    {
        let event: RawEvent = events[i];
        assert(i > 0 ==> events@[i - 1].tick <= events@[i as int].tick);
        let ghost done = out@;
        push_vlq(out, ((event.tick - previous) % 0x1_0000_0000) as u32);
        previous = event.tick;

        let ghost timed = out@;
        if event.on {
            out.push(0x90 + event.channel % 16);
        } else {
            // An explicit 0x80 note-off, rather than note-on with velocity 0, which every
            // sequencer reads unambiguously.
            out.push(0x80 + event.channel % 16);
        }
        out.push(event.note % 128);
        out.push(event.velocity % 128);
        assert(out@ =~= timed + message_bytes(event));
        assert(out@ =~= before + event_bytes(events@, i + 1));
    }
    let end: u64 = if end_tick > previous { end_tick } else { previous };
    end_of_track(out, ((end - previous) % 0x1_0000_0000) as u32);
    assert(out@ =~= before + stream_bytes(events@, end_tick as int));
}

fn push_bytes(out: &mut Vec<u8>, data: &[u8])
    ensures
        final(out)@ == old(out)@ + data@,
{
    let ghost before = out@;
    out.extend_from_slice(data);
    assert(out@ =~= before + data@);
}

fn push_be16(out: &mut Vec<u8>, v: u16)
    ensures
        final(out)@ == old(out)@ + be16(v as int),
{
    let ghost before = out@;
    out.push((v / 256) as u8);
    out.push((v % 256) as u8);
    assert(out@ =~= before + be16(v as int));
}

fn push_be32(out: &mut Vec<u8>, v: u32)
    ensures
        final(out)@ == old(out)@ + be32(v as int),
{
    let ghost before = out@;
    out.push((v / 16777216) as u8);
    out.push((v / 65536 % 256) as u8);
    out.push((v / 256 % 256) as u8);
    out.push((v % 256) as u8);
    assert(out@ =~= before + be32(v as int));
}

fn push_header(out: &mut Vec<u8>, format: u16, tracks: u16, division: u16)
    ensures
        final(out)@ == old(out)@ + header_bytes(format as int, tracks as int, division as int),
{
    let ghost before = out@;
    push_bytes(out, &[0x4D, 0x54, 0x68, 0x64]);
    push_be32(out, 6);
    push_be16(out, format);
    push_be16(out, tracks);
    push_be16(out, division);
    assert(out@ =~= before + header_bytes(format as int, tracks as int, division as int));
}

fn push_track(out: &mut Vec<u8>, body: &[u8])
    ensures
        final(out)@ == old(out)@ + track_bytes(body@),
{
    let ghost before = out@;
    push_bytes(out, &[0x4D, 0x54, 0x72, 0x6B]);
    push_be32(out, (body.len() as u64 % 0x1_0000_0000) as u32);
    push_bytes(out, body);
    assert(out@ =~= before + track_bytes(body@));
}

/// Tempo, meter, key, and the embedded project document.
fn conductor_meta(score: &Score, opts: &SmfOptions, out: &mut Vec<u8>)
    ensures
        final(out)@ == old(out)@ + conductor_bytes(*score, opts@),
{
    let ghost before = out@;
    meta(out, 0x03, opts.track_name.as_str().as_bytes());

    if let Some(project) = &opts.project {
        project_meta(out, project.as_slice());
    }
    // Tempo is 24-bit microseconds per quarter note, so it saturates.
    let bpm: u32 = if score.bpm < 1 { 1 } else { score.bpm as u32 };
    let whole: u32 = 60_000_000 / bpm;
    let micros: u32 = if whole > 0xFF_FFFF { 0xFF_FFFF } else { whole };
    let tempo: [u8; 3] = [
        (micros / 65536) as u8,
        (micros / 256 % 256) as u8,
        (micros % 256) as u8,
    ];
    assert(tempo@ =~= tempo_bytes(score.bpm as int));
    meta(out, 0x51, tempo.as_slice());

    // 4/4 time: numerator 4, denominator 2^2, 24 MIDI clocks per click, 8 thirty-second notes per
    // quarter.
    let meter: [u8; 4] = [4, 2, 24, 8];
    assert(meter@ =~= seq![4u8, 2, 24, 8]);
    meta(out, 0x58, meter.as_slice());

    let signature: (i8, u8) = key_signature(score);
    let flats: u8 = if signature.0 < 0 { (256 + signature.0 as i16) as u8 } else { signature.0 as u8 };
    let key: [u8; 2] = [flats, signature.1];
    assert(key@ =~= key_bytes(score.key));
    meta(out, 0x59, key.as_slice());
    assert(out@ =~= before + conductor_bytes(*score, opts@));
}

/// Embed the project document as a sequencer-specific meta event.
///
/// Deliberately *not* a text (lyric) meta event: DAWs render those. Sequencer-specific data is
/// ignored by every DAW, while staying trivially detectable by our own reader.
fn project_meta(out: &mut Vec<u8>, payload: &[u8])
    ensures
        final(out)@ == old(out)@ + meta_bytes(0x7F, document_prefix() + payload@),
{
    let mut data: Vec<u8> = Vec::new();
    data.push(MANUFACTURER_NON_COMMERCIAL);
    let magic: [u8; 4] = PROJECT_MAGIC;
    push_bytes(&mut data, magic.as_slice());
    push_bytes(&mut data, payload);
    assert(data@ =~= document_prefix() + payload@);
    meta(out, 0x7F, data.as_slice());
}

fn meta(out: &mut Vec<u8>, kind: u8, data: &[u8])
    ensures
        final(out)@ == old(out)@ + meta_bytes(kind, data@),
{
    let ghost before = out@;
    // Every event, meta included, is preceded by a delta time.
    out.push(0x00);
    out.push(0xFF);
    out.push(kind);
    push_vlq(out, (data.len() as u64 % 0x1_0000_0000) as u32);
    push_bytes(out, data);
    assert(out@ =~= before + meta_bytes(kind, data@));
}

/// End the track after `delta` ticks of silence.
///
/// The delta belongs here rather than at the call site: emitting it separately would leave two
/// deltas before the end-of-track meta, which a strict reader interprets as an empty
/// running-status event.
fn end_of_track(out: &mut Vec<u8>, delta: u32)
    ensures
        final(out)@ == old(out)@ + end_bytes(delta as int),
{
    let ghost before = out@;
    push_vlq(out, delta);
    push_bytes(out, &[0xFF, 0x2F, 0x00]);
    assert(out@ =~= before + end_bytes(delta as int));
}

/// Sharps (positive) or flats (negative) for the track key, plus major/minor.
///
/// The key holds only a pitch class, so enharmonic keys are spelled by common practice (D-flat
/// rather than C-sharp, and so on). The key signature is informational: the notes themselves are
/// absolute.
pub fn key_signature(score: &Score) -> (r: (i8, u8))
    ensures
        r.0 == sharps(score.key),
        r.1 == (if score.key.scale is Minor { 1u8 } else { 0u8 }),
{
    let pc: usize = (score.key.tonic % 12) as usize;
    match score.key.scale {
        Scale::Major => (MAJOR_SHARPS[pc], 0),
        Scale::Minor => (MINOR_SHARPS[pc], 1),
    }
}

/// Append the groups of `v` with the continuation bit, highest first.
fn push_vlq_front(out: &mut Vec<u8>, v: u32)
    ensures
        final(out)@ == old(out)@ + vlq_front(v as int),
    decreases v,
{
    let ghost before = out@;
    if v > 0 {
        push_vlq_front(out, v / 128);
        out.push((v % 128 + 128) as u8);
    }
    assert(out@ =~= before + vlq_front(v as int));
}

/// Variable-length quantity, as MIDI files encode delta times.
pub fn push_vlq(out: &mut Vec<u8>, value: u32)
    ensures
        final(out)@ == old(out)@ + vlq(value as int),
{
    let ghost before = out@;
    push_vlq_front(out, value / 128);
    out.push((value % 128) as u8);
    assert(out@ =~= before + vlq(value as int));
}

// -----------------------------------------------------------------------------
// Reading
// -----------------------------------------------------------------------------

#[derive(Copy, Clone, Debug, PartialEq, Eq, Structural)]
pub enum SmfError {
    /// The file is too short to contain a header.
    TooShort,
    /// The file does not start with a MIDI header, or a track is misplaced.
    NotMidi,
    /// A length field runs past the end of the data.
    Truncated,
}

impl SmfError {
    /// The sentence shown for the error.
    pub open spec fn shown(self) -> Seq<char> {
        match self {
            SmfError::TooShort => "file is too short to be a MIDI file"@,
            SmfError::NotMidi => "file is not a Standard MIDI File"@,
            SmfError::Truncated => "MIDI file is truncated"@,
        }
    }

    /// The sentence to show for the error.
    pub fn message(&self) -> (r: String)
        ensures
            r@ == self.shown(),
    {
        let text: &'static str = match self {
            SmfError::TooShort => "file is too short to be a MIDI file",
            SmfError::NotMidi => "file is not a Standard MIDI File",
            SmfError::Truncated => "MIDI file is truncated",
        };
        text.to_owned()
    }
}

/// A variable-length quantity at `pos` that may still take `left` bytes, after groups that amount
/// to `value`: the whole number, and the position after it.
pub open spec fn quantity(data: Seq<u8>, pos: int, left: nat, value: int) -> Result<
    (int, int),
    SmfError,
>
    decreases left,
{
    if left == 0 {
        Err(SmfError::NotMidi)
    } else if pos >= data.len() {
        Err(SmfError::Truncated)
    } else {
        let next = value * 128 + data[pos] % 128;
        if data[pos] < 128 {
            Ok((next, pos + 1))
        } else {
            quantity(data, pos + 1, (left - 1) as nat, next)
        }
    }
}

/// The variable-length quantity of at most four bytes at `pos`, and the position after it.
pub open spec fn quantity_at(data: Seq<u8>, pos: int) -> Result<(int, int), SmfError> {
    quantity(data, pos, 4, 0)
}

/// A quantity takes at least one byte, and four groups hold less than 2^28.
pub proof fn lemma_quantity(data: Seq<u8>, pos: int, left: nat, value: int)
    requires
        0 <= pos,
        left <= 4,
        0 <= value,
        value < (if left == 4 { 1int } else if left == 3 { 0x80int } else if left == 2 { 0x4000int } else if left == 1 { 0x20_0000int } else { 0x1000_0000int }),
    ensures
        quantity(data, pos, left, value) matches Ok(r) ==> 0 <= r.0 < 0x1000_0000 && pos < r.1
            <= data.len(),
    decreases left,
{
    if left > 0 && pos < data.len() && data[pos] >= 128 {
        lemma_quantity(data, pos + 1, (left - 1) as nat, value * 128 + data[pos] % 128);
    }
}

/// The document in a sequencer-specific event's data, if the data holds one.
pub open spec fn document_in(data: Seq<u8>) -> Option<Seq<u8>> {
    if data.len() >= 5 && data.subrange(0, 5) == document_prefix() {
        Some(data.subrange(5, data.len() as int))
    } else {
        None
    }
}

/// What a walk over a track's events from `pos` on finds, `running` being the status that applies
/// to an event without one (0 where there was none yet).
pub open spec fn found_in_track(body: Seq<u8>, pos: int, running: u8) -> Result<
    Option<Seq<u8>>,
    SmfError,
>
    decreases body.len() - pos,
{
    proof {
        if 0 <= pos {
            lemma_quantity(body, pos, 4, 0);
        }
    }
    if pos < 0 || pos >= body.len() {
        Ok(None)
    } else {
        match quantity_at(body, pos) {
            Err(e) => Err(e),
            Ok((_, p)) => {
                if p >= body.len() {
                    Err(SmfError::Truncated)
                } else if body[p] == 0xFF {
                    if p + 1 >= body.len() {
                        Err(SmfError::Truncated)
                    } else {
                        match quantity_at(body, p + 2) {
                            Err(e) => Err(e),
                            Ok((n, q)) => {
                                proof {
                                    lemma_quantity(body, p + 2, 4, 0);
                                }
                                if q + n > body.len() {
                                    Err(SmfError::Truncated)
                                } else if body[p + 1] == 0x2F {
                                    Ok(None)
                                } else if body[p + 1] == 0x7F && document_in(
                                    body.subrange(q, q + n),
                                ) is Some {
                                    Ok(document_in(body.subrange(q, q + n)))
                                } else {
                                    found_in_track(body, q + n, running)
                                }
                            },
                        }
                    }
                } else if body[p] == 0xF0 || body[p] == 0xF7 {
                    match quantity_at(body, p + 1) {
                        Err(e) => Err(e),
                        Ok((n, q)) => {
                            proof {
                                lemma_quantity(body, p + 1, 4, 0);
                            }
                            if q + n > body.len() {
                                Err(SmfError::Truncated)
                            } else {
                                found_in_track(body, q + n, running)
                            }
                        },
                    }
                } else {
                    let status = if body[p] >= 0x80 {
                        body[p]
                    } else {
                        running
                    };
                    let data = if body[p] >= 0x80 {
                        p + 1
                    } else {
                        p
                    };
                    let next = data + data_length(status);
                    if status == 0 {
                        Err(SmfError::NotMidi)
                    } else if next > body.len() {
                        Err(SmfError::Truncated)
                    } else {
                        found_in_track(body, next, status)
                    }
                }
            },
        }
    }
}

/// One data byte for program change / channel pressure, two for every other channel message.
pub open spec fn data_length(status: u8) -> int {
    if 0xC0 <= status <= 0xDF {
        1
    } else {
        2
    }
}

/// The 32-bit number at `pos`, high byte first.
pub open spec fn be32_at(bytes: Seq<u8>, pos: int) -> int {
    bytes[pos] * 16777216 + bytes[pos + 1] * 65536 + bytes[pos + 2] * 256 + bytes[pos + 3]
}

/// What the first of `tracks` tracks from `pos` on to hold a document holds.
pub open spec fn found_in_tracks(bytes: Seq<u8>, pos: int, tracks: nat) -> Result<
    Option<Seq<u8>>,
    SmfError,
>
    decreases tracks,
{
    if tracks == 0 {
        Ok(None)
    } else if pos + 8 > bytes.len() {
        Err(SmfError::Truncated)
    } else if bytes.subrange(pos, pos + 4) != seq![0x4Du8, 0x54, 0x72, 0x6B] {
        Err(SmfError::NotMidi)
    } else {
        let end = pos + 8 + be32_at(bytes, pos + 4);
        if end > bytes.len() {
            Err(SmfError::Truncated)
        } else {
            match found_in_track(bytes.subrange(pos + 8, end), 0, 0) {
                Err(e) => Err(e),
                Ok(Some(p)) => Ok(Some(p)),
                Ok(None) => found_in_tracks(bytes, end, (tracks - 1) as nat),
            }
        }
    }
}

/// The document embedded in a file.
pub open spec fn found_in_file(bytes: Seq<u8>) -> Result<Option<Seq<u8>>, SmfError> {
    if bytes.len() < 14 {
        Err(SmfError::TooShort)
    } else if bytes.subrange(0, 4) != seq![0x4Du8, 0x54, 0x68, 0x64] {
        Err(SmfError::NotMidi)
    } else if be32_at(bytes, 4) < 6 || 8 + be32_at(bytes, 4) > bytes.len() {
        Err(SmfError::Truncated)
    } else {
        found_in_tracks(bytes, 8 + be32_at(bytes, 4), (bytes[10] * 256 + bytes[11]) as nat)
    }
}

/// The value of a reader's result.
pub open spec fn read_result(r: Result<Option<Vec<u8>>, SmfError>) -> Result<
    Option<Seq<u8>>,
    SmfError,
> {
    match r {
        Err(e) => Err(e),
        Ok(None) => Ok(None),
        Ok(Some(p)) => Ok(Some(p@)),
    }
}

/// Pull the chord-tool project document out of a MIDI file.
///
/// `Ok(None)` means the file is a well-formed MIDI file that this tool did not write, including
/// exports made before the payload existed. Callers should refuse those rather than guess,
/// because scales and transformations cannot be recovered from the notes.
pub fn read_project(bytes: &[u8]) -> (r: Result<Option<Vec<u8>>, SmfError>)
    ensures
        read_result(r) == found_in_file(bytes@),
{
    if bytes.len() < 14 {
        return Err(SmfError::TooShort);
    }
    if !tagged(bytes, 0, 0x4D, 0x54, 0x68, 0x64) {
        return Err(SmfError::NotMidi);
    }
    let header_len: u64 = read_be32(bytes, 4) as u64;
    if header_len < 6 || header_len > (bytes.len() - 8) as u64 {
        return Err(SmfError::Truncated);
    }
    let tracks: usize = bytes[10] as usize * 256 + bytes[11] as usize;

    let mut pos: usize = 8 + header_len as usize;
    let mut left: usize = tracks;
    while left > 0
        invariant
            pos <= bytes@.len(),
            found_in_file(bytes@) == found_in_tracks(bytes@, pos as int, left as nat),
        decreases left,
    {
        if bytes.len() - pos < 8 {
            return Err(SmfError::Truncated);
        }
        if !tagged(bytes, pos, 0x4D, 0x54, 0x72, 0x6B) {
            return Err(SmfError::NotMidi);
        }
        let len: u64 = read_be32(bytes, pos + 4) as u64;
        let start: usize = pos + 8;
        if len > (bytes.len() - start) as u64 {
            return Err(SmfError::Truncated);
        }
        let end: usize = start + len as usize;
        match scan_track(slice_of(bytes, start, end)) {
            Err(e) => {
                return Err(e);
            },
            Ok(Some(payload)) => {
                return Ok(Some(payload));
            },
            Ok(None) => {},
        }
        pos = end;
        left = left - 1;
    }
    Ok(None)
}

fn slice_of(bytes: &[u8], start: usize, end: usize) -> (r: &[u8])
    requires
        start <= end <= bytes@.len(),
    ensures
        r@ == bytes@.subrange(start as int, end as int),
{
    vstd::slice::slice_subrange(bytes, start, end)
}

/// Whether the four bytes at `pos` are these.
fn tagged(bytes: &[u8], pos: usize, a: u8, b: u8, c: u8, d: u8) -> (r: bool)
    requires
        pos + 4 <= bytes@.len(),
    ensures
        r == (bytes@.subrange(pos as int, pos + 4) == seq![a, b, c, d]),
{
    let r: bool = bytes[pos] == a && bytes[pos + 1] == b && bytes[pos + 2] == c && bytes[pos + 3]
        == d;
    proof {
        let sub = bytes@.subrange(pos as int, pos + 4);
        if r {
            assert(sub =~= seq![a, b, c, d]);
        } else {
            assert(sub[0] == bytes@[pos as int]);
            assert(sub[1] == bytes@[pos + 1]);
            assert(sub[2] == bytes@[pos + 2]);
            assert(sub[3] == bytes@[pos + 3]);
        }
    }
    r
}

fn read_be32(bytes: &[u8], pos: usize) -> (r: u32)
    requires
        pos + 4 <= bytes@.len(),
    ensures
        r == be32_at(bytes@, pos as int),
{
    bytes[pos] as u32 * 16777216 + bytes[pos + 1] as u32 * 65536 + bytes[pos + 2] as u32 * 256
        + bytes[pos + 3] as u32
}

/// Walk one track's events looking for our sequencer-specific payload.
fn scan_track(body: &[u8]) -> (r: Result<Option<Vec<u8>>, SmfError>)
    ensures
        read_result(r) == found_in_track(body@, 0, 0),
{
    let mut pos: usize = 0;
    let mut running: u8 = 0;

    while pos < body.len()
        invariant
            pos <= body@.len(),
            found_in_track(body@, 0, 0) == found_in_track(body@, pos as int, running),
        decreases body@.len() - pos,
    {
        proof {
            lemma_quantity(body@, pos as int, 4, 0);
        }
        let mut p: usize = pos;
        if let Err(e) = read_vlq(body, &mut p) {
            return Err(e);
        }
        if p >= body.len() {
            return Err(SmfError::Truncated);
        }
        let status: u8 = body[p];
        if status == 0xFF {
            if p + 1 >= body.len() {
                return Err(SmfError::Truncated);
            }
            let kind: u8 = body[p + 1];
            proof {
                lemma_quantity(body@, p + 2, 4, 0);
            }
            let mut start: usize = p + 2;
            let len: u32 = match read_vlq(body, &mut start) {
                Err(e) => {
                    return Err(e);
                },
                Ok(len) => len,
            };
            if len as u64 > (body.len() - start) as u64 {
                return Err(SmfError::Truncated);
            }
            let end: usize = start + len as usize;
            if kind == 0x2F {
                return Ok(None);
            }
            if kind == 0x7F {
                if let Some(payload) = strip_project_magic(slice_of(body, start, end)) {
                    return Ok(Some(payload));
                }
            }
            pos = end;
        } else if status == 0xF0 || status == 0xF7 {
            proof {
                lemma_quantity(body@, p + 1, 4, 0);
            }
            let mut start: usize = p + 1;
            let len: u32 = match read_vlq(body, &mut start) {
                Err(e) => {
                    return Err(e);
                },
                Ok(len) => len,
            };
            if len as u64 > (body.len() - start) as u64 {
                return Err(SmfError::Truncated);
            }
            pos = start + len as usize;
        } else {
            let mut data: usize = p;
            if status >= 0x80 {
                running = status;
                data = p + 1;
            }
            if running == 0 {
                return Err(SmfError::NotMidi);
            }
            // One data byte for program change / channel pressure, two for every other channel
            // message.
            let size: usize = if 0xC0 <= running && running <= 0xDF { 1 } else { 2 };
            if body.len() - data < size {
                return Err(SmfError::Truncated);
            }
            pos = data + size;
        }
    }
    Ok(None)
}

/// Check the manufacturer id and magic, returning the document that follows.
pub fn strip_project_magic(data: &[u8]) -> (r: Option<Vec<u8>>)
    ensures
        (match r {
            Some(p) => Some(p@),
            None => None,
        }) == document_in(data@),
{
    if data.len() < 5 {
        return None;
    }
    let magic: [u8; 4] = PROJECT_MAGIC;
    if data[0] == MANUFACTURER_NON_COMMERCIAL && tagged(
        data,
        1,
        magic[0],
        magic[1],
        magic[2],
        magic[3],
    ) {
        proof {
            assert(data@.subrange(1, 5) == seq![magic[0], magic[1], magic[2], magic[3]]);
            assert(data@.subrange(0, 5) =~= seq![data@[0]] + data@.subrange(1, 5));
            assert(data@.subrange(0, 5) =~= document_prefix());
        }
        let mut payload: Vec<u8> = Vec::new();
        push_bytes(&mut payload, slice_of(data, 5, data.len()));
        assert(payload@ =~= data@.subrange(5, data@.len() as int));
        Some(payload)
    } else {
        proof {
            if data@.subrange(0, 5) == document_prefix() {
                assert(data@.subrange(0, 5)[0] == data@[0]);
                assert(data@.subrange(1, 5) =~= data@.subrange(0, 5).subrange(1, 5));
                assert(document_prefix().subrange(1, 5) =~= seq![
                    magic[0],
                    magic[1],
                    magic[2],
                    magic[3],
                ]);
            }
        }
        None
    }
}

/// Read the variable-length quantity at `pos`, and move `pos` behind it.
///
/// A quantity of more than four bytes is not MIDI; `pos` is then behind the fourth. Where the data
/// ends first, `pos` is left at its end.
pub fn read_vlq(data: &[u8], pos: &mut usize) -> (r: Result<u32, SmfError>)
    ensures
        match r {
            Ok(value) => quantity_at(data@, *old(pos) as int) == Ok::<(int, int), SmfError>(
                (value as int, *final(pos) as int),
            ),
            Err(e) => {
                &&& quantity_at(data@, *old(pos) as int) == Err::<(int, int), SmfError>(e)
                &&& *final(pos) == (if e is NotMidi {
                    *old(pos) + 4
                } else if *old(pos) > data@.len() {
                    *old(pos) as int
                } else {
                    data@.len() as int
                })
            },
        },
{
    let ghost start = *pos as int;
    let mut value: u32 = 0;
    let mut left: usize = 4;
    while left > 0
        invariant
            left <= 4,
            start == *old(pos),
            *pos == start + (4 - left),
            left < 4 ==> *pos <= data@.len(),
            value < (if left == 4 { 1int } else if left == 3 { 0x80int } else if left == 2 { 0x4000int } else if left == 1 { 0x20_0000int } else { 0x1000_0000int }),
            quantity_at(data@, start) == quantity(data@, *pos as int, left as nat, value as int),
        decreases left,
    {
        if *pos >= data.len() {
            return Err(SmfError::Truncated);
        }
        let byte: u8 = data[*pos];
        *pos = *pos + 1;
        value = value * 128 + (byte % 128) as u32;
        if byte < 128 {
            return Ok(value);
        }
        left = left - 1;
    }
    Err(SmfError::NotMidi)
}

// -----------------------------------------------------------------------------
// Laws
// -----------------------------------------------------------------------------

/// The events of a track come in the order of their ticks; at one tick every release comes before
/// every start.
pub proof fn law_events_by_tick(notes: Seq<Note>, layers: Seq<Layer>, channels: ChannelMap)
    ensures
        forall|i: int, j: int|
            #![trigger track_events(notes, layers, channels)[i], track_events(notes, layers, channels)[j]]
            0 <= i <= j < track_events(notes, layers, channels).len() ==> {
                let a = track_events(notes, layers, channels)[i];
                let b = track_events(notes, layers, channels)[j];
                a.tick < b.tick || a.tick == b.tick && (a.on ==> b.on)
            },
{
    let events = track_events(notes, layers, channels);
    lemma_sorted(boundaries(notes, layers, channels));
    assert forall|i: int, j: int| 0 <= i <= j < events.len() implies {
        let a = #[trigger] events[i];
        let b = #[trigger] events[j];
        a.tick < b.tick || a.tick == b.tick && (a.on ==> b.on)
    } by {
        assert(events[i].place() <= events[j].place());
    }
}

/// A track holds the start and the release of each of its notes, and nothing else: no note hangs.
pub proof fn law_every_note_is_started_and_released(
    notes: Seq<Note>,
    layers: Seq<Layer>,
    channels: ChannelMap,
    e: RawEvent,
)
    ensures
        track_events(notes, layers, channels).contains(e) <==> exists|i: int|
            0 <= i < notes.len() && layers.contains(notes[i].layer) && #[trigger] note_events(
                notes[i],
                channels,
            ).contains(e),
{
    lemma_sorted_contains(boundaries(notes, layers, channels), e);
    lemma_boundary_of_a_note(notes, layers, channels, e);
}

proof fn lemma_boundary_of_a_note(
    notes: Seq<Note>,
    layers: Seq<Layer>,
    channels: ChannelMap,
    e: RawEvent,
)
    ensures
        boundaries(notes, layers, channels).contains(e) <==> exists|i: int|
            0 <= i < notes.len() && layers.contains(notes[i].layer) && #[trigger] note_events(
                notes[i],
                channels,
            ).contains(e),
    decreases notes.len(),
{
    if notes.len() > 0 {
        let n = notes.len() - 1;
        let before = notes.drop_last();
        lemma_boundary_of_a_note(before, layers, channels, e);
        let front = boundaries(before, layers, channels);
        let all = boundaries(notes, layers, channels);
        let last = note_events(notes[n], channels);
        if all.contains(e) {
            let k = choose|k: int| 0 <= k < all.len() && all[k] == e;
            if k < front.len() {
                assert(front[k] == e);
                assert(front.contains(e));
                let i = choose|i: int|
                    0 <= i < before.len() && layers.contains(before[i].layer)
                        && #[trigger] note_events(before[i], channels).contains(e);
                assert(note_events(notes[i], channels).contains(e));
            } else {
                assert(last[k - front.len()] == e);
                assert(last.contains(e));
            }
        }
        assert forall|i: int|
            0 <= i < notes.len() && layers.contains(notes[i].layer) && #[trigger] note_events(
                notes[i],
                channels,
            ).contains(e) implies all.contains(e) by {
            if i < n {
                assert(note_events(before[i], channels).contains(e));
                let k = choose|k: int| 0 <= k < front.len() && front[k] == e;
                assert(all[k] == e);
            } else {
                let k = choose|k: int| 0 <= k < last.len() && last[k] == e;
                assert(all[front.len() + k] == e);
            }
        }
    }
}

/// `part` stands in `data` at `pos`.
pub open spec fn holds(data: Seq<u8>, pos: int, part: Seq<u8>) -> bool {
    &&& 0 <= pos
    &&& pos + part.len() <= data.len()
    &&& data.subrange(pos, pos + part.len()) == part
}

proof fn lemma_holds_parts(data: Seq<u8>, pos: int, a: Seq<u8>, b: Seq<u8>)
    requires
        holds(data, pos, a + b),
    ensures
        holds(data, pos, a),
        holds(data, pos + a.len(), b),
{
    let whole = data.subrange(pos, pos + (a + b).len());
    assert(data.subrange(pos, pos + a.len()) =~= whole.subrange(0, a.len() as int));
    assert((a + b).subrange(0, a.len() as int) =~= a);
    assert(data.subrange(pos + a.len(), pos + a.len() + b.len()) =~= whole.subrange(
        a.len() as int,
        whole.len() as int,
    ));
    assert((a + b).subrange(a.len() as int, (a + b).len() as int) =~= b);
}

proof fn lemma_holds_at(data: Seq<u8>, pos: int, part: Seq<u8>, i: int)
    requires
        holds(data, pos, part),
        0 <= i < part.len(),
    ensures
        data[pos + i] == part[i],
{
    assert(data.subrange(pos, pos + part.len())[i] == data[pos + i]);
}

/// A number below 2^28, read where it was written, comes back.
#[verifier::spinoff_prover]
#[verifier::rlimit(30)]
pub proof fn law_quantity_reads_back(data: Seq<u8>, pos: int, v: int)
    requires
        0 <= v < 0x1000_0000,
        holds(data, pos, vlq(v)),
    ensures
        quantity_at(data, pos) == Ok::<(int, int), SmfError>((v, pos + vlq(v).len())),
        1 <= vlq(v).len() <= 4,
{
    reveal_with_fuel(quantity, 5);
    let q = vlq(v);
    lemma_groups(v);
    lemma_holds_at(data, pos, q, 0);
    if q.len() > 1 {
        lemma_holds_at(data, pos, q, 1);
    }
    if q.len() > 2 {
        lemma_holds_at(data, pos, q, 2);
    }
    if q.len() > 3 {
        lemma_holds_at(data, pos, q, 3);
    }
}

/// The groups of a number below 2^28.
#[verifier::spinoff_prover]
#[verifier::rlimit(30)]
proof fn lemma_groups(v: int)
    requires
        0 <= v < 0x1000_0000,
    ensures
        ({
            let a = v / 128;
            let b = a / 128;
            let c = b / 128;
            vlq(v) == (if v < 0x80 {
                seq![v as u8]
            } else if v < 0x4000 {
                seq![(a % 128 + 128) as u8, (v % 128) as u8]
            } else if v < 0x20_0000 {
                seq![(b % 128 + 128) as u8, (a % 128 + 128) as u8, (v % 128) as u8]
            } else {
                seq![
                    (c % 128 + 128) as u8,
                    (b % 128 + 128) as u8,
                    (a % 128 + 128) as u8,
                    (v % 128) as u8,
                ]
            })
        }),
{
    reveal_with_fuel(vlq_front, 5);
    let a = v / 128;
    let b = a / 128;
    let c = b / 128;
    let q = vlq(v);
    if v < 0x80 {
        assert(q =~= seq![v as u8]);
    } else if v < 0x4000 {
        assert(q =~= seq![(a % 128 + 128) as u8, (v % 128) as u8]);
    } else if v < 0x20_0000 {
        assert(q =~= seq![(b % 128 + 128) as u8, (a % 128 + 128) as u8, (v % 128) as u8]);
    } else {
        assert(q =~= seq![
            (c % 128 + 128) as u8,
            (b % 128 + 128) as u8,
            (a % 128 + 128) as u8,
            (v % 128) as u8,
        ]);
    }
}

/// Every group in front of the last one has the continuation bit.
proof fn lemma_continued(v: int)
    ensures
        forall|i: int| 0 <= i < vlq_front(v).len() ==> #[trigger] vlq_front(v)[i] >= 128,
        v >= 0x20_0000 ==> vlq_front(v).len() >= 4,
    decreases v,
{
    reveal_with_fuel(vlq_front, 5);
    if v > 0 {
        lemma_continued(v / 128);
    }
}

/// A number of 2^28 or more takes five bytes or more, and is refused where it is read.
pub proof fn law_long_quantities_are_refused(data: Seq<u8>, pos: int, v: int)
    requires
        0x1000_0000 <= v,
        holds(data, pos, vlq(v)),
    ensures
        quantity_at(data, pos) == Err::<(int, int), SmfError>(SmfError::NotMidi),
        vlq(v).len() >= 5,
{
    reveal_with_fuel(quantity, 5);
    lemma_continued(v / 128);
    let front = vlq_front(v / 128);
    let q = vlq(v);
    lemma_holds_at(data, pos, q, 0);
    lemma_holds_at(data, pos, q, 1);
    lemma_holds_at(data, pos, q, 2);
    lemma_holds_at(data, pos, q, 3);
    assert(q[0] == front[0] && q[1] == front[1] && q[2] == front[2] && q[3] == front[3]);
}

/// A walk over a meta event: what its length reads as, and where its data stands.
proof fn lemma_meta_at(body: Seq<u8>, pos: int, kind: u8, data: Seq<u8>)
    requires
        holds(body, pos, meta_bytes(kind, data)),
        data.len() < 0x1000_0000,
    ensures
        quantity_at(body, pos) == Ok::<(int, int), SmfError>((0, pos + 1)),
        pos + 2 < body.len(),
        body[pos + 1] == 0xFF,
        body[pos + 2] == kind,
        quantity_at(body, pos + 3) == Ok::<(int, int), SmfError>(
            (data.len() as int, pos + meta_bytes(kind, data).len() - data.len()),
        ),
        body.subrange(
            pos + meta_bytes(kind, data).len() - data.len(),
            pos + meta_bytes(kind, data).len(),
        ) == data,
        pos + meta_bytes(kind, data).len() <= body.len(),
{
    let head = seq![0x00u8, 0xFF, kind];
    let size = vlq(low32(data.len() as int));
    assert(meta_bytes(kind, data) =~= head + (size + data));
    lemma_holds_parts(body, pos, head, size + data);
    lemma_holds_parts(body, pos + 3, size, data);
    lemma_holds_at(body, pos, head, 0);
    lemma_holds_at(body, pos, head, 1);
    lemma_holds_at(body, pos, head, 2);
    law_quantity_reads_back(body, pos + 3, data.len() as int);
    reveal_with_fuel(quantity, 2);
}

/// A meta event that neither ends the track nor holds a document is walked over.
proof fn lemma_meta_passed(body: Seq<u8>, pos: int, running: u8, kind: u8, data: Seq<u8>)
    requires
        holds(body, pos, meta_bytes(kind, data)),
        data.len() < 0x1000_0000,
        kind != 0x2F,
        kind != 0x7F,
    ensures
        found_in_track(body, pos, running) == found_in_track(
            body,
            pos + meta_bytes(kind, data).len(),
            running,
        ),
{
    lemma_meta_at(body, pos, kind, data);
}

/// A document event ends the walk with the document.
proof fn lemma_document_found(body: Seq<u8>, pos: int, running: u8, document: Seq<u8>)
    requires
        holds(body, pos, meta_bytes(0x7F, document_prefix() + document)),
        document.len() + 5 < 0x1000_0000,
    ensures
        found_in_track(body, pos, running) == Ok::<Option<Seq<u8>>, SmfError>(Some(document)),
{
    let data = document_prefix() + document;
    lemma_meta_at(body, pos, 0x7F, data);
    assert(data.subrange(0, 5) =~= document_prefix());
    assert(data.subrange(5, data.len() as int) =~= document);
}

/// The end of a track ends the walk with nothing.
proof fn lemma_end_found(body: Seq<u8>, pos: int, running: u8, delta: int)
    requires
        holds(body, pos, end_bytes(delta)),
        0 <= low32(delta) < 0x1000_0000,
    ensures
        found_in_track(body, pos, running) == Ok::<Option<Seq<u8>>, SmfError>(None),
{
    let size = vlq(low32(delta));
    let tail = seq![0xFFu8, 0x2F, 0x00];
    lemma_holds_parts(body, pos, size, tail);
    law_quantity_reads_back(body, pos, low32(delta));
    let p = pos + size.len();
    lemma_holds_at(body, p, tail, 0);
    lemma_holds_at(body, p, tail, 1);
    lemma_holds_at(body, p, tail, 2);
    reveal_with_fuel(quantity, 2);
}

/// The ticks between the `i`-th event and the one before it, as they are written.
pub open spec fn written_delta(events: Seq<RawEvent>, i: int) -> int {
    low32(events[i].tick - tick_before(events, i))
}

/// Every delta time of a track is one that a reader accepts: at most four bytes long.
pub open spec fn deltas_readable(events: Seq<RawEvent>, end_tick: int) -> bool {
    &&& forall|i: int| 0 <= i < events.len() ==> #[trigger] written_delta(events, i) < 0x1000_0000
    &&& low32(end_delta(events, end_tick)) < 0x1000_0000
}

proof fn lemma_event_bytes_parts(events: Seq<RawEvent>, i: int, n: int)
    requires
        0 <= i <= n,
    ensures
        event_bytes(events, i).len() <= event_bytes(events, n).len(),
        event_bytes(events, n).subrange(0, event_bytes(events, i).len() as int) == event_bytes(
            events,
            i,
        ),
    decreases n,
{
    if i < n {
        lemma_event_bytes_parts(events, i, n - 1);
        let shorter = event_bytes(events, n - 1);
        assert(event_bytes(events, n).subrange(0, event_bytes(events, i).len() as int)
            =~= shorter.subrange(0, event_bytes(events, i).len() as int));
    } else {
        assert(event_bytes(events, n).subrange(0, event_bytes(events, i).len() as int)
            =~= event_bytes(events, i));
    }
}

/// A walk over the written events finds no document.
proof fn lemma_events_passed(
    body: Seq<u8>,
    base: int,
    events: Seq<RawEvent>,
    end_tick: int,
    i: int,
    running: u8,
)
    requires
        holds(body, base, stream_bytes(events, end_tick)),
        deltas_readable(events, end_tick),
        0 <= i <= events.len(),
    ensures
        found_in_track(body, base + event_bytes(events, i).len(), running) == Ok::<
            Option<Seq<u8>>,
            SmfError,
        >(None),
    decreases events.len() - i,
{
    let n = events.len() as int;
    let all = event_bytes(events, n);
    lemma_holds_parts(body, base, all, end_bytes(end_delta(events, end_tick)));
    if i == n {
        lemma_end_found(body, base + all.len(), running, end_delta(events, end_tick));
    } else {
        let front = event_bytes(events, i);
        let next = event_bytes(events, i + 1);
        let size = vlq(written_delta(events, i));
        let message = message_bytes(events[i]);
        lemma_event_bytes_parts(events, i + 1, n);
        let rest = all.subrange(next.len() as int, all.len() as int);
        assert(all =~= next + rest);
        lemma_holds_parts(body, base, next, rest);
        assert(next =~= front + (size + message));
        lemma_holds_parts(body, base, front, size + message);
        let pos = base + front.len();
        lemma_holds_parts(body, pos, size, message);
        assert(written_delta(events, i) < 0x1000_0000);
        law_quantity_reads_back(body, pos, written_delta(events, i));
        let p = pos + size.len();
        lemma_holds_at(body, p, message, 0);
        lemma_holds_at(body, p, message, 1);
        lemma_holds_at(body, p, message, 2);
        let status = message[0];
        assert(0x80 <= status <= 0x9F);
        assert(found_in_track(body, pos, running) == found_in_track(body, p + 3, status));
        lemma_events_passed(body, base, events, end_tick, i + 1, status);
    }
}

proof fn lemma_stream_passed(body: Seq<u8>, base: int, events: Seq<RawEvent>, end_tick: int)
    requires
        holds(body, base, stream_bytes(events, end_tick)),
        deltas_readable(events, end_tick),
    ensures
        found_in_track(body, base, 0) == Ok::<Option<Seq<u8>>, SmfError>(None),
{
    lemma_events_passed(body, base, events, end_tick, 0, 0);
}

/// A walk over a conductor's events: it ends at the embedded document, or passes to what follows.
proof fn lemma_conductor_walk(body: Seq<u8>, score: Score, opts: OptionsModel)
    requires
        holds(body, 0, conductor_bytes(score, opts)),
        encode_utf8(opts.track_name).len() < 0x1000_0000,
        opts.document matches Some(p) ==> p.len() + 5 < 0x1000_0000,
    ensures
        found_in_track(body, 0, 0) == match opts.document {
            Some(p) => Ok::<Option<Seq<u8>>, SmfError>(Some(p)),
            None => found_in_track(body, conductor_bytes(score, opts).len() as int, 0),
        },
{
    let name = meta_bytes(0x03, encode_utf8(opts.track_name));
    let document = match opts.document {
        Some(p) => meta_bytes(0x7F, document_prefix() + p),
        None => Seq::empty(),
    };
    let tempo = meta_bytes(0x51, tempo_bytes(score.bpm as int));
    let meter = meta_bytes(0x58, seq![4u8, 2, 24, 8]);
    let key = meta_bytes(0x59, key_bytes(score.key));
    assert(conductor_bytes(score, opts) =~= name + (document + (tempo + (meter + key))));
    lemma_holds_parts(body, 0, name, document + (tempo + (meter + key)));
    lemma_meta_passed(body, 0, 0, 0x03, encode_utf8(opts.track_name));
    let a = name.len() as int;
    lemma_holds_parts(body, a, document, tempo + (meter + key));
    match opts.document {
        Some(p) => {
            lemma_document_found(body, a, 0, p);
        },
        None => {
            lemma_holds_parts(body, a, tempo, meter + key);
            let b = a + tempo.len();
            lemma_holds_parts(body, b, meter, key);
            let c = b + meter.len();
            lemma_meta_passed(body, a, 0, 0x51, tempo_bytes(score.bpm as int));
            lemma_meta_passed(body, b, 0, 0x58, seq![4u8, 2, 24, 8]);
            lemma_meta_passed(body, c, 0, 0x59, key_bytes(score.key));
            assert(c + key.len() == conductor_bytes(score, opts).len());
        },
    }
}

proof fn lemma_be32_at(data: Seq<u8>, pos: int, v: int)
    requires
        holds(data, pos, be32(v)),
        0 <= v < 0x1_0000_0000,
    ensures
        be32_at(data, pos) == v,
{
    lemma_holds_at(data, pos, be32(v), 0);
    lemma_holds_at(data, pos, be32(v), 1);
    lemma_holds_at(data, pos, be32(v), 2);
    lemma_holds_at(data, pos, be32(v), 3);
}

/// A reader that comes to a written track walks exactly its body.
proof fn lemma_track_walk(bytes: Seq<u8>, pos: int, body: Seq<u8>, tracks: nat)
    requires
        holds(bytes, pos, track_bytes(body)),
        body.len() < 0x1_0000_0000,
        tracks > 0,
    ensures
        found_in_tracks(bytes, pos, tracks) == match found_in_track(body, 0, 0) {
            Err(e) => Err(e),
            Ok(Some(p)) => Ok(Some(p)),
            Ok(None) => found_in_tracks(
                bytes,
                pos + track_bytes(body).len(),
                (tracks - 1) as nat,
            ),
        },
{
    let tag = seq![0x4Du8, 0x54, 0x72, 0x6B];
    let size = be32(low32(body.len() as int));
    assert(track_bytes(body) =~= tag + (size + body));
    lemma_holds_parts(bytes, pos, tag, size + body);
    lemma_holds_parts(bytes, pos + 4, size, body);
    lemma_be32_at(bytes, pos + 4, body.len() as int);
}

/// A reader of a file with a written header starts at the first track.
proof fn lemma_header_walk(bytes: Seq<u8>, format: int, tracks: int, division: int)
    requires
        holds(bytes, 0, header_bytes(format, tracks, division)),
        0 <= tracks < 0x1_0000,
    ensures
        found_in_file(bytes) == found_in_tracks(bytes, 14, tracks as nat),
        header_bytes(format, tracks, division).len() == 14,
{
    let tag = seq![0x4Du8, 0x54, 0x68, 0x64];
    let tail = be16(format) + be16(tracks) + be16(division);
    assert(header_bytes(format, tracks, division) =~= tag + (be32(6) + tail));
    lemma_holds_parts(bytes, 0, tag, be32(6) + tail);
    lemma_holds_parts(bytes, 4, be32(6), tail);
    lemma_be32_at(bytes, 4, 6);
    lemma_holds_at(bytes, 8, tail, 2);
    lemma_holds_at(bytes, 8, tail, 3);
    assert(tail[2] == (tracks / 256 % 256) as u8);
    assert(tail[3] == (tracks % 256) as u8);
}

/// The body of the track that holds the conductor events.
pub open spec fn first_body(score: Score, opts: OptionsModel) -> Seq<u8> {
    match opts.layout {
        TrackLayout::Single { channel } => single_body(score, opts, channel),
        TrackLayout::PerLayer { channels } => conductor_body(score, opts),
    }
}

/// A document that was embedded reads back as it was, in either layout. The lengths that are
/// written in front of the track name, the document and the track have to fit their fields.
pub proof fn law_document_reads_back(score: Score, opts: OptionsModel, document: Seq<u8>)
    requires
        opts.document == Some(document),
        encode_utf8(opts.track_name).len() < 0x1000_0000,
        document.len() + 5 < 0x1000_0000,
        first_body(score, opts).len() < 0x1_0000_0000,
    ensures
        found_in_file(file_bytes(score, opts)) == Ok::<Option<Seq<u8>>, SmfError>(Some(document)),
{
    let body = first_body(score, opts);
    lemma_first_track(score, opts);
    lemma_first_body(score, opts);
    lemma_conductor_walk(body, score, opts);
}

/// A file of one track that is cut short is refused wherever it is cut, even behind the embedded
/// document: inside its header as too short, and after it as truncated. The length of the track has
/// to fit its field.
pub proof fn law_a_cut_file_is_refused(score: Score, opts: OptionsModel, k: int)
    requires
        opts.layout is Single,
        first_body(score, opts).len() < 0x1_0000_0000,
        0 <= k < file_bytes(score, opts).len(),
    ensures
        found_in_file(file_bytes(score, opts).subrange(0, k)) == Err::<Option<Seq<u8>>, SmfError>(
            if k < 14 {
                SmfError::TooShort
            } else {
                SmfError::Truncated
            },
        ),
{
    let header = header_bytes(0, 1, score.ppq as int);
    let body = first_body(score, opts);
    let full = file_bytes(score, opts);
    let cut = full.subrange(0, k);
    if k >= 14 {
        assert(cut.subrange(0, 14) =~= header);
        lemma_header_walk(cut, 0, 1, score.ppq as int);
        if k >= 22 {
            let tag = seq![0x4Du8, 0x54, 0x72, 0x6B];
            assert(cut.subrange(14, 18) =~= tag);
            assert(cut.subrange(18, 22) =~= be32(low32(body.len() as int)));
            lemma_be32_at(cut, 18, body.len() as int);
        }
    }
}

proof fn lemma_joined(a: Seq<u8>, b: Seq<u8>, c: Seq<u8>, d: Seq<u8>, e: Seq<u8>)
    ensures
        a + b + c + d + e == a + b + (c + (d + e)),
        a + b == a + b + Seq::<u8>::empty(),
        holds(a + b, 0, a),
{
    assert(a + b + c + d + e =~= a + b + (c + (d + e)));
    assert(a + b =~= a + b + Seq::<u8>::empty());
    assert((a + b).subrange(0, a.len() as int) =~= a);
}

/// The first track starts with the conductor events.
proof fn lemma_first_body(score: Score, opts: OptionsModel)
    ensures
        holds(first_body(score, opts), 0, conductor_bytes(score, opts)),
{
    let none = Seq::<u8>::empty();
    match opts.layout {
        TrackLayout::Single { channel } => {
            let events = track_events(
                score.notes@,
                all_layers(),
                ChannelMap { low: channel, mid: channel, high: channel },
            );
            let stream = stream_bytes(events, score.length_ticks as int);
            lemma_joined(conductor_bytes(score, opts), stream, none, none, none);
        },
        TrackLayout::PerLayer { channels } => {
            lemma_joined(conductor_bytes(score, opts), end_bytes(0), none, none, none);
        },
    }
}

/// The tracks after the first.
spec fn later_tracks(score: Score, opts: OptionsModel) -> Seq<u8> {
    match opts.layout {
        TrackLayout::Single { channel } => Seq::empty(),
        TrackLayout::PerLayer { channels } => track_bytes(
            layer_body(score, opts, channels, Layer::Low),
        ) + (track_bytes(layer_body(score, opts, channels, Layer::Mid)) + track_bytes(
            layer_body(score, opts, channels, Layer::High),
        )),
    }
}

/// A reader of a written file walks the first track, and then the tracks after it.
proof fn lemma_first_track(score: Score, opts: OptionsModel)
    requires
        first_body(score, opts).len() < 0x1_0000_0000,
    ensures
        found_in_file(file_bytes(score, opts)) == match found_in_track(
            first_body(score, opts),
            0,
            0,
        ) {
            Err(e) => Err(e),
            Ok(Some(p)) => Ok(Some(p)),
            Ok(None) => found_in_tracks(
                file_bytes(score, opts),
                14int + track_bytes(first_body(score, opts)).len(),
                if opts.layout is Single {
                    0nat
                } else {
                    3nat
                },
            ),
        },
        holds(
            file_bytes(score, opts),
            14int + track_bytes(first_body(score, opts)).len(),
            later_tracks(score, opts),
        ),
{
    let none = Seq::<u8>::empty();
    let body = first_body(score, opts);
    let ppq = score.ppq as int;
    match opts.layout {
        TrackLayout::Single { channel } => {
            lemma_joined(header_bytes(0, 1, ppq), track_bytes(body), none, none, none);
            lemma_file_starts(file_bytes(score, opts), 0, 1, ppq, body, none);
        },
        TrackLayout::PerLayer { channels } => {
            let low = track_bytes(layer_body(score, opts, channels, Layer::Low));
            let mid = track_bytes(layer_body(score, opts, channels, Layer::Mid));
            let high = track_bytes(layer_body(score, opts, channels, Layer::High));
            lemma_joined(header_bytes(1, 4, ppq), track_bytes(body), low, mid, high);
            lemma_file_starts(file_bytes(score, opts), 1, 4, ppq, body, low + (mid + high));
        },
    }
}

proof fn lemma_file_starts(
    bytes: Seq<u8>,
    format: int,
    tracks: int,
    division: int,
    body: Seq<u8>,
    rest: Seq<u8>,
)
    requires
        bytes == header_bytes(format, tracks, division) + track_bytes(body) + rest,
        0 < tracks < 0x1_0000,
        body.len() < 0x1_0000_0000,
    ensures
        found_in_file(bytes) == match found_in_track(body, 0, 0) {
            Err(e) => Err(e),
            Ok(Some(p)) => Ok(Some(p)),
            Ok(None) => found_in_tracks(
                bytes,
                14int + track_bytes(body).len(),
                (tracks - 1) as nat,
            ),
        },
        holds(bytes, 14int + track_bytes(body).len(), rest),
{
    let header = header_bytes(format, tracks, division);
    assert(bytes =~= header + (track_bytes(body) + rest));
    assert(bytes.subrange(0, bytes.len() as int) =~= bytes);
    lemma_holds_parts(bytes, 0, header, track_bytes(body) + rest);
    lemma_header_walk(bytes, format, tracks, division);
    lemma_holds_parts(bytes, 14, track_bytes(body), rest);
    lemma_track_walk(bytes, 14, body, tracks as nat);
}

/// The lengths of a layer's track fit their fields.
pub open spec fn layer_readable(
    score: Score,
    opts: OptionsModel,
    channels: ChannelMap,
    layer: Layer,
) -> bool {
    &&& encode_utf8(opts.track_name + " "@ + layer_name(layer)).len() < 0x1000_0000
    &&& layer_body(score, opts, channels, layer).len() < 0x1_0000_0000
    &&& deltas_readable(
        track_events(score.notes@, seq![layer], channels),
        score.length_ticks as int,
    )
}

/// The lengths of every track fit their fields.
pub open spec fn file_readable(score: Score, opts: OptionsModel) -> bool {
    &&& encode_utf8(opts.track_name).len() < 0x1000_0000
    &&& first_body(score, opts).len() < 0x1_0000_0000
    &&& match opts.layout {
        TrackLayout::Single { channel } => deltas_readable(
            track_events(
                score.notes@,
                all_layers(),
                ChannelMap { low: channel, mid: channel, high: channel },
            ),
            score.length_ticks as int,
        ),
        TrackLayout::PerLayer { channels } => {
            &&& layer_readable(score, opts, channels, Layer::Low)
            &&& layer_readable(score, opts, channels, Layer::Mid)
            &&& layer_readable(score, opts, channels, Layer::High)
        },
    }
}

proof fn lemma_layer_walk(
    bytes: Seq<u8>,
    pos: int,
    score: Score,
    opts: OptionsModel,
    channels: ChannelMap,
    layer: Layer,
    tracks: nat,
)
    requires
        layer_readable(score, opts, channels, layer),
        holds(bytes, pos, track_bytes(layer_body(score, opts, channels, layer))),
        tracks > 0,
    ensures
        found_in_tracks(bytes, pos, tracks) == found_in_tracks(
            bytes,
            pos + track_bytes(layer_body(score, opts, channels, layer)).len(),
            (tracks - 1) as nat,
        ),
{
    let body = layer_body(score, opts, channels, layer);
    lemma_track_walk(bytes, pos, body, tracks);
    let title = encode_utf8(opts.track_name + " "@ + layer_name(layer));
    let events = track_events(score.notes@, seq![layer], channels);
    let name = meta_bytes(0x03, title);
    let stream = stream_bytes(events, score.length_ticks as int);
    assert(body.subrange(0, body.len() as int) =~= name + stream);
    lemma_holds_parts(body, 0, name, stream);
    lemma_meta_passed(body, 0, 0, 0x03, title);
    lemma_stream_passed(body, name.len() as int, events, score.length_ticks as int);
}

/// A file written without a document reads as a well-formed file that holds none, in either
/// layout.
pub proof fn law_no_document_reads_as_none(score: Score, opts: OptionsModel)
    requires
        opts.document is None,
        file_readable(score, opts),
    ensures
        found_in_file(file_bytes(score, opts)) == Ok::<Option<Seq<u8>>, SmfError>(None),
{
    let bytes = file_bytes(score, opts);
    let body = first_body(score, opts);
    let front = conductor_bytes(score, opts);
    let a = front.len() as int;
    lemma_first_track(score, opts);
    lemma_first_body(score, opts);
    lemma_conductor_walk(body, score, opts);
    assert(body.subrange(0, body.len() as int) =~= body);
    match opts.layout {
        TrackLayout::Single { channel } => {
            let events = track_events(
                score.notes@,
                all_layers(),
                ChannelMap { low: channel, mid: channel, high: channel },
            );
            let stream = stream_bytes(events, score.length_ticks as int);
            lemma_holds_parts(body, 0, front, stream);
            lemma_stream_passed(body, a, events, score.length_ticks as int);
        },
        TrackLayout::PerLayer { channels } => {
            let low = track_bytes(layer_body(score, opts, channels, Layer::Low));
            let mid = track_bytes(layer_body(score, opts, channels, Layer::Mid));
            let high = track_bytes(layer_body(score, opts, channels, Layer::High));
            lemma_holds_parts(body, 0, front, end_bytes(0));
            lemma_end_found(body, a, 0, 0);
            let p = 14int + track_bytes(body).len();
            lemma_holds_parts(bytes, p, low, mid + high);
            lemma_holds_parts(bytes, p + low.len(), mid, high);
            lemma_layer_walk(bytes, p, score, opts, channels, Layer::Low, 3);
            lemma_layer_walk(bytes, p + low.len(), score, opts, channels, Layer::Mid, 2);
            lemma_layer_walk(
                bytes,
                p + low.len() + mid.len(),
                score,
                opts,
                channels,
                Layer::High,
                1,
            );
        },
    }
}

/// Every note of a score is released, and the score ends, before this tick.
pub open spec fn ends_before(score: Score, tick: int) -> bool {
    &&& forall|i: int| 0 <= i < score.notes@.len() ==> (#[trigger] score.notes@[i]).release() < tick
    &&& score.length_ticks < tick
}

/// The length of each track of a file fits its field of 32 bits.
pub open spec fn tracks_fit(score: Score, opts: OptionsModel) -> bool {
    &&& first_body(score, opts).len() < 0x1_0000_0000
    &&& opts.layout matches TrackLayout::PerLayer { channels } ==> {
        &&& layer_body(score, opts, channels, Layer::Low).len() < 0x1_0000_0000
        &&& layer_body(score, opts, channels, Layer::Mid).len() < 0x1_0000_0000
        &&& layer_body(score, opts, channels, Layer::High).len() < 0x1_0000_0000
    }
}

/// What was written reads back, in either layout: the document as it was, or none where none was
/// embedded. Ticks are below 2^28, which is as far as a delta time reaches, the name and the
/// document are shorter than 2^27 bytes, and the lengths of the tracks fit their fields.
pub proof fn law_a_written_file_reads_back(score: Score, opts: OptionsModel)
    requires
        ends_before(score, 0x1000_0000),
        encode_utf8(opts.track_name).len() < 0x800_0000,
        opts.document matches Some(document) ==> document.len() < 0x800_0000,
        tracks_fit(score, opts),
    ensures
        found_in_file(file_bytes(score, opts)) == Ok::<Option<Seq<u8>>, SmfError>(opts.document),
{
    match opts.document {
        Some(document) => {
            law_document_reads_back(score, opts, document);
        },
        None => {
            match opts.layout {
                TrackLayout::Single { channel } => {
                    lemma_deltas(
                        score,
                        all_layers(),
                        ChannelMap { low: channel, mid: channel, high: channel },
                    );
                },
                TrackLayout::PerLayer { channels } => {
                    lemma_deltas(score, seq![Layer::Low], channels);
                    lemma_deltas(score, seq![Layer::Mid], channels);
                    lemma_deltas(score, seq![Layer::High], channels);
                    lemma_layer_title(opts.track_name, Layer::Low);
                    lemma_layer_title(opts.track_name, Layer::Mid);
                    lemma_layer_title(opts.track_name, Layer::High);
                },
            }
            law_no_document_reads_as_none(score, opts);
        },
    }
}

/// The tracks of a score of fewer than 2^27 notes fit their length fields, if the name and the
/// document are shorter than 2^27 bytes.
pub proof fn law_tracks_of_short_scores_fit(score: Score, opts: OptionsModel)
    requires
        score.notes@.len() < 0x800_0000,
        encode_utf8(opts.track_name).len() < 0x800_0000,
        opts.document matches Some(document) ==> document.len() < 0x800_0000,
    ensures
        tracks_fit(score, opts),
{
    let name = encode_utf8(opts.track_name);
    let end = score.length_ticks as int;
    lemma_quantity_size(low32(name.len() as int));
    lemma_quantity_size(low32(tempo_bytes(score.bpm as int).len() as int));
    lemma_quantity_size(low32(4));
    lemma_quantity_size(low32(key_bytes(score.key).len() as int));
    if let Some(document) = opts.document {
        lemma_quantity_size(low32((document_prefix() + document).len() as int));
    }
    assert(conductor_bytes(score, opts).len() < 0x1000_0064);
    match opts.layout {
        TrackLayout::Single { channel } => {
            lemma_stream_size(
                score.notes@,
                all_layers(),
                ChannelMap { low: channel, mid: channel, high: channel },
                end,
            );
        },
        TrackLayout::PerLayer { channels } => {
            lemma_quantity_size(low32(0));
            lemma_layer_size(score, opts, channels, Layer::Low);
            lemma_layer_size(score, opts, channels, Layer::Mid);
            lemma_layer_size(score, opts, channels, Layer::High);
        },
    }
}

proof fn lemma_layer_size(score: Score, opts: OptionsModel, channels: ChannelMap, layer: Layer)
    requires
        score.notes@.len() < 0x800_0000,
        encode_utf8(opts.track_name).len() < 0x800_0000,
    ensures
        layer_body(score, opts, channels, layer).len() < 0x1_0000_0000,
{
    let title = encode_utf8(opts.track_name + " "@ + layer_name(layer));
    lemma_layer_title(opts.track_name, layer);
    lemma_quantity_size(low32(title.len() as int));
    lemma_stream_size(score.notes@, seq![layer], channels, score.length_ticks as int);
}

/// A quantity of 32 bits takes at most five bytes.
proof fn lemma_quantity_size(v: int)
    requires
        0 <= v < 0x1_0000_0000,
    ensures
        vlq(v).len() <= 5,
{
    reveal_with_fuel(vlq_front, 5);
    assert(v / 128 / 128 / 128 / 128 / 128 == 0);
}

/// A note takes at most 16 bytes of a track, and the end of the track at most eight.
proof fn lemma_stream_size(
    notes: Seq<Note>,
    layers: Seq<Layer>,
    channels: ChannelMap,
    end_tick: int,
)
    ensures
        stream_bytes(track_events(notes, layers, channels), end_tick).len() <= 16 * notes.len() + 8,
{
    let events = track_events(notes, layers, channels);
    lemma_sorted(boundaries(notes, layers, channels));
    events.to_multiset_ensures();
    boundaries(notes, layers, channels).to_multiset_ensures();
    lemma_boundaries_size(notes, layers, channels);
    lemma_event_bytes_size(events, events.len() as int);
    lemma_quantity_size(low32(end_delta(events, end_tick)));
}

proof fn lemma_boundaries_size(notes: Seq<Note>, layers: Seq<Layer>, channels: ChannelMap)
    ensures
        boundaries(notes, layers, channels).len() <= 2 * notes.len(),
    decreases notes.len(),
{
    if notes.len() > 0 {
        lemma_boundaries_size(notes.drop_last(), layers, channels);
    }
}

proof fn lemma_event_bytes_size(events: Seq<RawEvent>, n: int)
    requires
        0 <= n <= events.len(),
    ensures
        event_bytes(events, n).len() <= 8 * n,
    decreases n,
{
    if n > 0 {
        lemma_event_bytes_size(events, n - 1);
        lemma_quantity_size(low32(events[n - 1].tick - tick_before(events, n - 1)));
    }
}

/// The delta times of a score that ends soon enough are short.
proof fn lemma_deltas(score: Score, layers: Seq<Layer>, channels: ChannelMap)
    requires
        ends_before(score, 0x1000_0000),
    ensures
        deltas_readable(
            track_events(score.notes@, layers, channels),
            score.length_ticks as int,
        ),
{
    let events = track_events(score.notes@, layers, channels);
    law_events_by_tick(score.notes@, layers, channels);
    assert forall|i: int| 0 <= i < events.len() implies #[trigger] written_delta(events, i)
        < 0x1000_0000 by {
        let e = events[i];
        assert(events.contains(e));
        law_every_note_is_started_and_released(score.notes@, layers, channels, e);
        let k = choose|k: int|
            0 <= k < score.notes@.len() && layers.contains(score.notes@[k].layer)
                && #[trigger] note_events(score.notes@[k], channels).contains(e);
        assert(score.notes@[k].release() < 0x1000_0000);
        assert(e.tick < 0x1000_0000);
        if i > 0 {
            assert(events[i - 1].tick <= events[i].tick);
        }
    }
}

/// The encoding of a text is that of its parts, one after the other.
proof fn lemma_encoded_parts(a: Seq<char>, b: Seq<char>)
    ensures
        encode_utf8(a + b) == encode_utf8(a) + encode_utf8(b),
    decreases a.len(),
{
    if a.len() == 0 {
        assert(a + b =~= b);
        assert(encode_utf8(a) + encode_utf8(b) =~= encode_utf8(b));
    } else {
        let all = a + b;
        lemma_encoded_parts(a.drop_first(), b);
        assert(all.drop_first() =~= a.drop_first() + b);
        assert(encode_utf8(all) =~= encode_utf8(a) + encode_utf8(b));
    }
}

/// The name of a layer's track is at most five bytes longer than that of the score.
proof fn lemma_layer_title(name: Seq<char>, layer: Layer)
    ensures
        encode_utf8(name + " "@ + layer_name(layer)).len() <= encode_utf8(name).len() + 5,
{
    reveal_strlit(" ");
    reveal_strlit("Low");
    reveal_strlit("Mid");
    reveal_strlit("High");
    lemma_encoded_parts(name + " "@, layer_name(layer));
    lemma_encoded_parts(name, " "@);
    vstd::utf8::is_ascii_chars_encode_utf8(" "@);
    vstd::utf8::is_ascii_chars_encode_utf8(layer_name(layer));
}

/// The document is invisible to a reader of notes: with it, the track that carries it differs from
/// the one without it by one inserted meta event, and the tracks after it do not differ at all.
pub proof fn law_document_is_only_inserted(score: Score, plain: OptionsModel, with: OptionsModel, document: Seq<u8>)
    requires
        plain.document is None,
        with.document == Some(document),
        with.layout == plain.layout,
        with.track_name == plain.track_name,
    ensures
        ({
            let name = meta_bytes(0x03, encode_utf8(plain.track_name));
            let without = first_body(score, plain);
            first_body(score, with) == name + meta_bytes(0x7F, document_prefix() + document)
                + without.subrange(name.len() as int, without.len() as int)
        }),
        forall|channels: ChannelMap, layer: Layer|
            layer_body(score, with, channels, layer) == layer_body(score, plain, channels, layer),
{
    let name = meta_bytes(0x03, encode_utf8(plain.track_name));
    let without = first_body(score, plain);
    assert(first_body(score, with) =~= name + meta_bytes(0x7F, document_prefix() + document)
        + without.subrange(name.len() as int, without.len() as int));
}

/// The three bytes of the tempo event are, high byte first, the whole microseconds of a quarter note at
/// the tempo: the number that fits into a minute as often as the tempo says, and no smaller one, so
/// that the file's bar lasts as long as the transport's. A tempo too slow for three bytes has the
/// largest number.
pub proof fn law_the_tempo_is_the_transports(bpm: int)
    ensures
        tempo_bytes(bpm).len() == 3,
        ({
            let b = tempo_bytes(bpm);
            let micros = b[0] * 0x1_0000 + b[1] * 0x100 + b[2];
            &&& 4 <= bpm ==> micros * bpm <= 60_000_000 < (micros + 1) * bpm
            &&& 4 <= bpm ==> 4 * micros * 1000 == crate::transport::bar_nanos(bpm)
            &&& bpm < 4 ==> micros == 0xFF_FFFF
        }),
{
    let b = tempo_bytes(bpm);
    let m = tempo_micros(bpm);
    let n = if bpm < 1 {
        1
    } else {
        bpm
    };
    let whole = 60_000_000int / n;
    assert(0 <= whole && whole * n <= 60_000_000 < (whole + 1) * n) by (nonlinear_arith)
        requires
            whole == 60_000_000int / n,
            n >= 1,
    ;
    assert(bpm >= 4 ==> whole <= 15_000_000) by (nonlinear_arith)
        requires
            whole * n <= 60_000_000,
            bpm >= 4 ==> n >= 4,
            0 <= whole,
    ;
    assert(bpm < 4 ==> whole >= 20_000_000) by (nonlinear_arith)
        requires
            60_000_000 < (whole + 1) * n,
            bpm < 4 ==> n <= 3,
            1 <= n,
            0 <= whole,
    ;
    assert(0 <= m <= 0xFF_FFFF);
    assert(b[0] == m / 65536 % 256 && b[1] == m / 256 % 256 && b[2] == m % 256);
    assert(m / 65536 < 256);
    assert(m / 65536 * 0x1_0000 + m / 256 % 256 * 0x100 + m % 256 == m);
}

/// A key signature is by fifths: going up so many fifths from C, or down where the number is negative,
/// comes to the tonic of a major key, and to that of a minor key from A. No key has more than six,
/// and where six sharps and six flats are the same, a major key has the sharps and a minor key the
/// flats. The second byte says whether the key is minor.
pub proof fn law_key_signatures_go_by_fifths(key: Key)
    ensures
        key_bytes(key).len() == 2,
        ({
            let first = key_bytes(key)[0] as int;
            let fifths = if first < 128 {
                first
            } else {
                first - 256
            };
            &&& -6 <= fifths <= 6
            &&& key.scale is Major ==> (7 * fifths) % 12 == key.tonic as int % 12 && fifths > -6
            &&& key.scale is Minor ==> (9 + 7 * fifths) % 12 == key.tonic as int % 12 && fifths < 6
            &&& key_bytes(key)[1] == (if key.scale is Minor {
                1u8
            } else {
                0u8
            })
        }),
{
    let pc = key.tonic as int % 12;
    assert(pc == 0 || pc == 1 || pc == 2 || pc == 3 || pc == 4 || pc == 5 || pc == 6 || pc == 7 || pc
        == 8 || pc == 9 || pc == 10 || pc == 11);
}

/// A quantity is read in groups of seven bits, the highest first; a byte of 128 or more says that
/// another follows.
pub proof fn law_quantities_are_groups_of_seven(data: Seq<u8>, pos: int)
    requires
        0 <= pos,
        pos + 4 <= data.len(),
    ensures
        ({
            let (a, b, c, d) = (
                data[pos] as int,
                data[pos + 1] as int,
                data[pos + 2] as int,
                data[pos + 3] as int,
            );
            quantity_at(data, pos) == (if a < 128 {
                Ok::<(int, int), SmfError>((a, pos + 1))
            } else if b < 128 {
                Ok((a % 128 * 128 + b, pos + 2))
            } else if c < 128 {
                Ok((a % 128 * 0x4000 + b % 128 * 128 + c, pos + 3))
            } else if d < 128 {
                Ok((a % 128 * 0x20_0000 + b % 128 * 0x4000 + c % 128 * 128 + d, pos + 4))
            } else {
                Err(SmfError::NotMidi)
            })
        }),
{
    reveal_with_fuel(quantity, 5);
}

/// An event of a track as a player reads it: when it comes, counted in ticks from the track's start,
/// and what it says.
#[verifier::ext_equal]
pub enum ReadEvent {
    Message { tick: int, status: u8, note: u8, velocity: u8 },
    Meta { tick: int, kind: u8, data: Seq<u8> },
}

/// What a player reads of a track from `pos` on, `tick` ticks after its start: note messages and meta
/// events up to the end of the track, or nothing where the track is not one.
#[verifier::opaque]
pub open spec fn read_track(body: Seq<u8>, pos: int, tick: int) -> Option<Seq<ReadEvent>>
    decreases body.len() - pos,
{
    proof {
        if 0 <= pos {
            lemma_quantity(body, pos, 4, 0);
        }
    }
    if pos < 0 {
        None
    } else {
        match quantity_at(body, pos) {
            Err(_) => None,
            Ok((delta, p)) => if p + 2 >= body.len() {
                None
            } else if body[p] == 0xFF {
                match quantity_at(body, p + 2) {
                    Err(_) => None,
                    Ok((n, q)) => {
                        proof {
                            lemma_quantity(body, p + 2, 4, 0);
                        }
                        let event = ReadEvent::Meta {
                            tick: tick + delta,
                            kind: body[p + 1],
                            data: body.subrange(q, q + n),
                        };
                        if q + n > body.len() {
                            None
                        } else if body[p + 1] == 0x2F {
                            Some(seq![event])
                        } else {
                            match read_track(body, q + n, tick + delta) {
                                None => None,
                                Some(rest) => Some(seq![event] + rest),
                            }
                        }
                    },
                }
            } else if 0x80 <= body[p] <= 0x9F {
                match read_track(body, p + 3, tick + delta) {
                    None => None,
                    Some(rest) => Some(
                        seq![
                            ReadEvent::Message {
                                tick: tick + delta,
                                status: body[p],
                                note: body[p + 1],
                                velocity: body[p + 2],
                            },
                        ] + rest,
                    ),
                }
            } else {
                None
            },
        }
    }
}

/// The messages of a track's events: a note-on has the status 0x90 and a note-off 0x80, each plus the
/// channel.
pub open spec fn messages(events: Seq<RawEvent>) -> Seq<ReadEvent> {
    Seq::new(
        events.len(),
        |i: int|
            ReadEvent::Message {
                tick: events[i].tick as int,
                status: ((if events[i].on {
                    0x90int
                } else {
                    0x80
                }) + events[i].channel as int % 16) as u8,
                note: (events[i].note as int % 128) as u8,
                velocity: (events[i].velocity as int % 128) as u8,
            },
    )
}

/// The end of a track: where the score ends, or with its last event.
pub open spec fn track_end(events: Seq<RawEvent>, end_tick: int) -> ReadEvent {
    let last = if events.len() == 0 {
        0
    } else {
        events.last().tick as int
    };
    ReadEvent::Meta {
        tick: if end_tick > last {
            end_tick
        } else {
            last
        },
        kind: 0x2F,
        data: Seq::empty(),
    }
}

/// What a player reads of the conductor events: the name of the track, the document where there is one,
/// the tempo, four quarters to a bar with 24 clocks to the quarter and eight 32nds, and the key.
pub open spec fn conductor_events(score: Score, opts: OptionsModel) -> Seq<ReadEvent> {
    seq![ReadEvent::Meta { tick: 0, kind: 0x03, data: encode_utf8(opts.track_name) }] + (
    match opts.document {
        Some(p) => seq![
            ReadEvent::Meta {
                tick: 0,
                kind: 0x7F,
                data: seq![0x7Du8, 0x43, 0x54, 0x50, 0x31] + p,
            },
        ],
        None => Seq::empty(),
    }) + seq![
        ReadEvent::Meta { tick: 0, kind: 0x51, data: tempo_bytes(score.bpm as int) },
        ReadEvent::Meta { tick: 0, kind: 0x58, data: seq![4u8, 2, 24, 8] },
        ReadEvent::Meta { tick: 0, kind: 0x59, data: key_bytes(score.key) },
    ]
}

/// A player reads back of every track what was written into it. A file of one track holds the conductor
/// events and then the messages of all notes on its channel; a file of a track for each layer holds
/// the conductor events in a track of their own, and in each layer's the layer's name and the
/// messages of its notes. Every track ends where the score does. Ticks are below 2^28, and the name
/// and the document are shorter than 2^27 bytes.
pub proof fn law_tracks_read_back(
    score: Score,
    opts: OptionsModel,
    channel: u8,
    channels: ChannelMap,
    layer: Layer,
)
    requires
        ends_before(score, 0x1000_0000),
        encode_utf8(opts.track_name).len() < 0x800_0000,
        opts.document matches Some(document) ==> document.len() < 0x800_0000,
    ensures
        ({
            let one = ChannelMap { low: channel, mid: channel, high: channel };
            let events = track_events(score.notes@, all_layers(), one);
            read_track(single_body(score, opts, channel), 0, 0) == Some(
                conductor_events(score, opts) + messages(events) + seq![
                    track_end(events, score.length_ticks as int),
                ],
            )
        }),
        read_track(conductor_body(score, opts), 0, 0) == Some(
            conductor_events(score, opts) + seq![
                ReadEvent::Meta { tick: 0, kind: 0x2F, data: Seq::empty() },
            ],
        ),
        ({
            let events = track_events(score.notes@, seq![layer], channels);
            let name = opts.track_name + " "@ + layer_name(layer);
            read_track(layer_body(score, opts, channels, layer), 0, 0) == Some(
                seq![ReadEvent::Meta { tick: 0, kind: 0x03, data: encode_utf8(name) }] + messages(
                    events,
                ) + seq![track_end(events, score.length_ticks as int)],
            )
        }),
{
    lemma_single_read(score, opts, channel);
    lemma_own_read(score, opts);
    lemma_layer_read(score, opts, channels, layer);
}

proof fn lemma_single_read(score: Score, opts: OptionsModel, channel: u8)
    requires
        ends_before(score, 0x1000_0000),
        encode_utf8(opts.track_name).len() < 0x800_0000,
        opts.document matches Some(document) ==> document.len() < 0x800_0000,
    ensures
        ({
            let one = ChannelMap { low: channel, mid: channel, high: channel };
            let events = track_events(score.notes@, all_layers(), one);
            read_track(single_body(score, opts, channel), 0, 0) == Some(
                conductor_events(score, opts) + messages(events) + seq![
                    track_end(events, score.length_ticks as int),
                ],
            )
        }),
{
    let front = conductor_bytes(score, opts);
    let end = score.length_ticks as int;
    let one = ChannelMap { low: channel, mid: channel, high: channel };
    let events = track_events(score.notes@, all_layers(), one);
    let body = single_body(score, opts, channel);
    let stream = stream_bytes(events, end);
    lemma_whole(front, stream);
    lemma_holds_parts(body, 0, front, stream);
    lemma_ticks_below(score, all_layers(), one);
    lemma_messages_read(body, front.len() as int, events, end, 0);
    lemma_conductor_read(body, score, opts);
    assert(messages(events).subrange(0, events.len() as int) =~= messages(events));
    lemma_read_joined(conductor_events(score, opts), messages(events), seq![track_end(events, end)]);
}

proof fn lemma_own_read(score: Score, opts: OptionsModel)
    requires
        encode_utf8(opts.track_name).len() < 0x800_0000,
        opts.document matches Some(document) ==> document.len() < 0x800_0000,
    ensures
        read_track(conductor_body(score, opts), 0, 0) == Some(
            conductor_events(score, opts) + seq![
                ReadEvent::Meta { tick: 0, kind: 0x2F, data: Seq::empty() },
            ],
        ),
{
    let front = conductor_bytes(score, opts);
    let own = conductor_body(score, opts);
    lemma_whole(front, end_bytes(0));
    lemma_holds_parts(own, 0, front, end_bytes(0));
    lemma_end_read(own, front.len() as int, 0, 0);
    lemma_conductor_read(own, score, opts);
}

proof fn lemma_layer_read(score: Score, opts: OptionsModel, channels: ChannelMap, layer: Layer)
    requires
        ends_before(score, 0x1000_0000),
        encode_utf8(opts.track_name).len() < 0x800_0000,
    ensures
        ({
            let events = track_events(score.notes@, seq![layer], channels);
            let name = opts.track_name + " "@ + layer_name(layer);
            read_track(layer_body(score, opts, channels, layer), 0, 0) == Some(
                seq![ReadEvent::Meta { tick: 0, kind: 0x03, data: encode_utf8(name) }] + messages(
                    events,
                ) + seq![track_end(events, score.length_ticks as int)],
            )
        }),
{
    let end = score.length_ticks as int;
    let title = encode_utf8(opts.track_name + " "@ + layer_name(layer));
    lemma_layer_title(opts.track_name, layer);
    let part = track_events(score.notes@, seq![layer], channels);
    let layered = layer_body(score, opts, channels, layer);
    let name = meta_bytes(0x03, title);
    lemma_whole(name, stream_bytes(part, end));
    lemma_holds_parts(layered, 0, name, stream_bytes(part, end));
    lemma_ticks_below(score, seq![layer], channels);
    lemma_messages_read(layered, name.len() as int, part, end, 0);
    lemma_meta_read(layered, 0, 0, 0x03, title);
    assert(messages(part).subrange(0, part.len() as int) =~= messages(part));
    lemma_read_joined(
        seq![ReadEvent::Meta { tick: 0, kind: 0x03, data: title }],
        messages(part),
        seq![track_end(part, end)],
    );
}

proof fn lemma_whole(a: Seq<u8>, b: Seq<u8>)
    ensures
        holds(a + b, 0, a + b),
{
    assert((a + b).subrange(0, (a + b).len() as int) =~= a + b);
}

proof fn lemma_read_joined(a: Seq<ReadEvent>, b: Seq<ReadEvent>, c: Seq<ReadEvent>)
    ensures
        a + (b + c) == a + b + c,
{
    assert(a + (b + c) =~= a + b + c);
}

proof fn lemma_meta_read(body: Seq<u8>, pos: int, tick: int, kind: u8, data: Seq<u8>)
    requires
        holds(body, pos, meta_bytes(kind, data)),
        data.len() < 0x1000_0000,
        kind != 0x2F,
    ensures
        read_track(body, pos, tick) == (match read_track(
            body,
            pos + meta_bytes(kind, data).len(),
            tick,
        ) {
            None => None::<Seq<ReadEvent>>,
            Some(rest) => Some(seq![ReadEvent::Meta { tick, kind, data }] + rest),
        }),
{
    reveal(read_track);
    lemma_meta_at(body, pos, kind, data);
    lemma_quantity(body, pos + 3, 4, 0);
}

#[verifier::spinoff_prover]
#[verifier::rlimit(30)]
proof fn lemma_conductor_read(body: Seq<u8>, score: Score, opts: OptionsModel)
    requires
        holds(body, 0, conductor_bytes(score, opts)),
        encode_utf8(opts.track_name).len() < 0x1000_0000,
        opts.document matches Some(p) ==> p.len() + 5 < 0x1000_0000,
    ensures
        read_track(body, 0, 0) == (match read_track(
            body,
            conductor_bytes(score, opts).len() as int,
            0,
        ) {
            None => None::<Seq<ReadEvent>>,
            Some(rest) => Some(conductor_events(score, opts) + rest),
        }),
{
    let title = encode_utf8(opts.track_name);
    let name = meta_bytes(0x03, title);
    let document = match opts.document {
        Some(p) => meta_bytes(0x7F, document_prefix() + p),
        None => Seq::empty(),
    };
    let beat = tempo_bytes(score.bpm as int);
    let tempo = meta_bytes(0x51, beat);
    let four = seq![4u8, 2, 24, 8];
    let meter = meta_bytes(0x58, four);
    let key = meta_bytes(0x59, key_bytes(score.key));
    assert(conductor_bytes(score, opts) =~= name + (document + (tempo + (meter + key))));
    lemma_holds_parts(body, 0, name, document + (tempo + (meter + key)));
    let a = name.len() as int;
    lemma_holds_parts(body, a, document, tempo + (meter + key));
    let d = a + document.len();
    lemma_holds_parts(body, d, tempo, meter + key);
    let b = d + tempo.len();
    lemma_holds_parts(body, b, meter, key);
    let c = b + meter.len();
    lemma_meta_read(body, 0, 0, 0x03, title);
    if let Some(p) = opts.document {
        let data = document_prefix() + p;
        lemma_meta_read(body, a, 0, 0x7F, data);
        assert(document_prefix() =~= seq![0x7Du8, 0x43, 0x54, 0x50, 0x31]);
    }
    lemma_meta_read(body, d, 0, 0x51, beat);
    lemma_meta_read(body, b, 0, 0x58, four);
    lemma_meta_read(body, c, 0, 0x59, key_bytes(score.key));
    let e = c + key.len();
    assert(e == conductor_bytes(score, opts).len());
    if let Some(rest) = read_track(body, e, 0) {
        lemma_five(
            ReadEvent::Meta { tick: 0, kind: 0x03, data: title },
            match opts.document {
                Some(p) => seq![
                    ReadEvent::Meta {
                        tick: 0,
                        kind: 0x7F,
                        data: seq![0x7Du8, 0x43, 0x54, 0x50, 0x31] + p,
                    },
                ],
                None => Seq::empty(),
            },
            ReadEvent::Meta { tick: 0, kind: 0x51, data: beat },
            ReadEvent::Meta { tick: 0, kind: 0x58, data: four },
            ReadEvent::Meta { tick: 0, kind: 0x59, data: key_bytes(score.key) },
            rest,
        );
    }
}

proof fn lemma_five(
    a: ReadEvent,
    b: Seq<ReadEvent>,
    c: ReadEvent,
    d: ReadEvent,
    e: ReadEvent,
    rest: Seq<ReadEvent>,
)
    ensures
        seq![a] + b + seq![c, d, e] + rest == seq![a] + (b + (seq![c] + (seq![d] + (seq![e] + rest)))),
        Seq::<ReadEvent>::empty() + (seq![c] + (seq![d] + (seq![e] + rest))) == seq![c] + (seq![d] + (
        seq![e] + rest)),
{
    assert(seq![a] + b + seq![c, d, e] + rest =~= seq![a] + (b + (seq![c] + (seq![d] + (seq![e]
        + rest)))));
    assert(Seq::<ReadEvent>::empty() + (seq![c] + (seq![d] + (seq![e] + rest))) =~= seq![c] + (seq![d]
        + (seq![e] + rest)));
}

proof fn lemma_end_read(body: Seq<u8>, pos: int, tick: int, delta: int)
    requires
        holds(body, pos, end_bytes(delta)),
        0 <= delta < 0x1000_0000,
    ensures
        read_track(body, pos, tick) == Some(
            seq![ReadEvent::Meta { tick: tick + delta, kind: 0x2F, data: Seq::empty() }],
        ),
{
    let size = vlq(low32(delta));
    let tail = seq![0xFFu8, 0x2F, 0x00];
    lemma_holds_parts(body, pos, size, tail);
    law_quantity_reads_back(body, pos, low32(delta));
    let p = pos + size.len();
    lemma_holds_at(body, p, tail, 0);
    lemma_holds_at(body, p, tail, 1);
    lemma_holds_at(body, p, tail, 2);
    reveal_with_fuel(quantity, 2);
    reveal(read_track);
    assert(body.subrange(p + 3, p + 3) =~= Seq::<u8>::empty());
}

proof fn lemma_ticks_below(score: Score, layers: Seq<Layer>, channels: ChannelMap)
    requires
        ends_before(score, 0x1000_0000),
    ensures
        ({
            let events = track_events(score.notes@, layers, channels);
            forall|i: int|
                0 <= i < events.len() ==> tick_before(events, i) <= (#[trigger] events[i]).tick
                    < 0x1000_0000
        }),
        score.length_ticks < 0x1000_0000,
{
    let events = track_events(score.notes@, layers, channels);
    law_events_by_tick(score.notes@, layers, channels);
    assert forall|i: int| 0 <= i < events.len() implies tick_before(events, i) <= (
    #[trigger] events[i]).tick < 0x1000_0000 by {
        let e = events[i];
        assert(events.contains(e));
        law_every_note_is_started_and_released(score.notes@, layers, channels, e);
        let k = choose|k: int|
            0 <= k < score.notes@.len() && layers.contains(score.notes@[k].layer)
                && #[trigger] note_events(score.notes@[k], channels).contains(e);
        assert(score.notes@[k].release() < 0x1000_0000);
        if i > 0 {
            assert(events[i - 1].tick <= events[i].tick);
        }
    }
}

#[verifier::spinoff_prover]
#[verifier::rlimit(30)]
proof fn lemma_messages_read(
    body: Seq<u8>,
    base: int,
    events: Seq<RawEvent>,
    end_tick: int,
    i: int,
)
    requires
        holds(body, base, stream_bytes(events, end_tick)),
        0 <= i <= events.len(),
        forall|j: int|
            0 <= j < events.len() ==> tick_before(events, j) <= (#[trigger] events[j]).tick
                < 0x1000_0000,
        0 <= end_tick < 0x1000_0000,
    ensures
        read_track(body, base + event_bytes(events, i).len(), tick_before(events, i)) == Some(
            messages(events).subrange(i, events.len() as int) + seq![track_end(events, end_tick)],
        ),
    decreases events.len() - i,
{
    let n = events.len() as int;
    let all = event_bytes(events, n);
    let tail = seq![track_end(events, end_tick)];
    lemma_holds_parts(body, base, all, end_bytes(end_delta(events, end_tick)));
    if i == n {
        if n > 0 {
            assert(events[n - 1].tick < 0x1000_0000);
        }
        lemma_end_read(body, base + all.len(), tick_before(events, n), end_delta(events, end_tick));
        assert(messages(events).subrange(n, n) + tail =~= tail);
    } else {
        let front = event_bytes(events, i);
        let next = event_bytes(events, i + 1);
        let delta = written_delta(events, i);
        assert(tick_before(events, i) <= events[i].tick < 0x1000_0000);
        if i > 0 {
            assert(0 <= events[i - 1].tick);
        }
        assert(delta == events[i].tick - tick_before(events, i));
        let size = vlq(delta);
        let message = message_bytes(events[i]);
        lemma_event_bytes_parts(events, i + 1, n);
        let rest = all.subrange(next.len() as int, all.len() as int);
        assert(all =~= next + rest);
        lemma_holds_parts(body, base, next, rest);
        assert(next =~= front + (size + message));
        lemma_holds_parts(body, base, front, size + message);
        let pos = base + front.len();
        lemma_message_read(body, pos, tick_before(events, i), delta, events[i]);
        lemma_messages_read(body, base, events, end_tick, i + 1);
        assert(tick_before(events, i + 1) == events[i].tick);
        let list = messages(events);
        assert(list.subrange(i, n) + tail =~= seq![list[i]] + (list.subrange(i + 1, n) + tail));
        assert(pos + size.len() + 3 == base + next.len());
    }
}

#[verifier::spinoff_prover]
#[verifier::rlimit(30)]
proof fn lemma_message_read(body: Seq<u8>, pos: int, tick: int, delta: int, e: RawEvent)
    requires
        holds(body, pos, vlq(delta) + message_bytes(e)),
        0 <= delta < 0x1000_0000,
        tick + delta == e.tick,
    ensures
        read_track(body, pos, tick) == (match read_track(
            body,
            pos + vlq(delta).len() + 3,
            e.tick as int,
        ) {
            None => None::<Seq<ReadEvent>>,
            Some(rest) => Some(seq![messages(seq![e])[0]] + rest),
        }),
{
    reveal(read_track);
    let size = vlq(delta);
    let message = message_bytes(e);
    lemma_holds_parts(body, pos, size, message);
    law_quantity_reads_back(body, pos, delta);
    let p = pos + size.len();
    lemma_holds_at(body, p, message, 0);
    lemma_holds_at(body, p, message, 1);
    lemma_holds_at(body, p, message, 2);
    assert(0x80 <= message[0] <= 0x9F);
}

/// What the first `n` notes owe a track that holds these layers: a note-on at the note's start with its
/// velocity, which is at least 1, and a note-off where the note ends, both on the layer's channel.
pub open spec fn owed_boundaries(
    notes: Seq<Note>,
    layers: Seq<Layer>,
    channels: ChannelMap,
    n: int,
) -> Multiset<RawEvent>
    decreases n,
{
    if n <= 0 {
        Multiset::empty()
    } else {
        let note = notes[n - 1];
        let before = owed_boundaries(notes, layers, channels, n - 1);
        let channel = match note.layer {
            Layer::Low => channels.low,
            Layer::Mid => channels.mid,
            Layer::High => channels.high,
        };
        if layers.contains(note.layer) {
            before.insert(
                RawEvent {
                    tick: note.start,
                    on: true,
                    note: note.note,
                    velocity: if note.velocity == 0 {
                        1
                    } else {
                        note.velocity
                    },
                    channel,
                },
            ).insert(
                RawEvent {
                    tick: (note.start + note.duration) as u64,
                    on: false,
                    note: note.note,
                    velocity: 0x40,
                    channel,
                },
            )
        } else {
            before
        }
    }
}

/// A track holds each of its notes once: one note-on and one note-off for every note of its layers, and
/// nothing else.
pub proof fn law_a_track_holds_its_notes_once(
    notes: Seq<Note>,
    layers: Seq<Layer>,
    channels: ChannelMap,
)
    ensures
        track_events(notes, layers, channels).to_multiset() == owed_boundaries(
            notes,
            layers,
            channels,
            notes.len() as int,
        ),
{
    lemma_sorted(boundaries(notes, layers, channels));
    lemma_owed_boundaries(notes, layers, channels);
}

proof fn lemma_owed_boundaries(notes: Seq<Note>, layers: Seq<Layer>, channels: ChannelMap)
    ensures
        boundaries(notes, layers, channels).to_multiset() == owed_boundaries(
            notes,
            layers,
            channels,
            notes.len() as int,
        ),
    decreases notes.len(),
{
    broadcast use vstd::multiset::group_multiset_axioms;

    let n = notes.len() as int;
    if n == 0 {
        let none = Seq::<RawEvent>::empty();
        none.to_multiset_ensures();
        assert(none.to_multiset() =~= Multiset::empty());
    } else {
        let front = notes.drop_last();
        lemma_owed_boundaries(front, layers, channels);
        lemma_owed_prefix(front, notes, layers, channels, n - 1);
        let before = boundaries(front, layers, channels);
        let pair = note_events(notes.last(), channels);
        before.to_multiset_ensures();
        before.push(pair[0]).to_multiset_ensures();
        assert(before + pair =~= before.push(pair[0]).push(pair[1]));
    }
}

proof fn lemma_owed_prefix(
    a: Seq<Note>,
    b: Seq<Note>,
    layers: Seq<Layer>,
    channels: ChannelMap,
    n: int,
)
    requires
        n <= a.len(),
        n <= b.len(),
        forall|i: int| 0 <= i < n ==> a[i] == b[i],
    ensures
        owed_boundaries(a, layers, channels, n) == owed_boundaries(b, layers, channels, n),
    decreases n,
{
    if n > 0 {
        lemma_owed_prefix(a, b, layers, channels, n - 1);
    }
}

/// The chunks of a file: a header of fourteen bytes that says how many tracks follow and how many ticks
/// a quarter note has, then each track behind its mark and its length. One track is format 0; the
/// conductor's and one for each layer, lowest first, are format 1.
pub proof fn law_a_file_is_a_header_and_its_tracks(score: Score, opts: OptionsModel)
    requires
        tracks_fit(score, opts),
    ensures
        opts.layout matches TrackLayout::Single { channel } ==> file_bytes(score, opts)
            == file_header(0, 1, score.ppq as int) + chunks(
            seq![single_body(score, opts, channel)],
            1,
        ),
        opts.layout matches TrackLayout::PerLayer { channels } ==> file_bytes(score, opts)
            == file_header(1, 4, score.ppq as int) + chunks(
            seq![
                conductor_body(score, opts),
                layer_body(score, opts, channels, Layer::Low),
                layer_body(score, opts, channels, Layer::Mid),
                layer_body(score, opts, channels, Layer::High),
            ],
            4,
        ),
{
    let ticks = score.ppq as int;
    match opts.layout {
        TrackLayout::Single { channel } => {
            lemma_header(0, 1, ticks);
            lemma_one_chunk(single_body(score, opts, channel));
        },
        TrackLayout::PerLayer { channels } => {
            lemma_header(1, 4, ticks);
            lemma_four_chunks(
                header_bytes(1, 4, ticks),
                conductor_body(score, opts),
                layer_body(score, opts, channels, Layer::Low),
                layer_body(score, opts, channels, Layer::Mid),
                layer_body(score, opts, channels, Layer::High),
            );
        },
    }
}

/// The fourteen bytes of a file's header: its mark, the length 6, the format, the number of tracks and
/// the ticks of a quarter note, each high byte first.
pub open spec fn file_header(format: int, tracks: int, ticks: int) -> Seq<u8> {
    seq![
        0x4Du8,
        0x54,
        0x68,
        0x64,
        0,
        0,
        0,
        6,
        0,
        format as u8,
        0,
        tracks as u8,
        (ticks / 256) as u8,
        (ticks % 256) as u8,
    ]
}

proof fn lemma_one_chunk(body: Seq<u8>)
    requires
        body.len() < 0x1_0000_0000,
    ensures
        chunks(seq![body], 1) == track_bytes(body),
{
    let tracks = seq![body];
    lemma_next_chunk(tracks, 1);
    assert(chunks(tracks, 0) == Seq::<u8>::empty());
    assert(Seq::<u8>::empty() + track_bytes(body) =~= track_bytes(body));
}

proof fn lemma_header(format: int, tracks: int, ticks: int)
    requires
        0 <= format < 256,
        0 <= tracks < 256,
        0 <= ticks < 0x1_0000,
    ensures
        header_bytes(format, tracks, ticks) == file_header(format, tracks, ticks),
{
    assert(ticks / 256 % 256 == ticks / 256);
    assert(header_bytes(format, tracks, ticks) =~= file_header(format, tracks, ticks));
}

proof fn lemma_four_chunks(header: Seq<u8>, a: Seq<u8>, b: Seq<u8>, c: Seq<u8>, d: Seq<u8>)
    requires
        a.len() < 0x1_0000_0000,
        b.len() < 0x1_0000_0000,
        c.len() < 0x1_0000_0000,
        d.len() < 0x1_0000_0000,
    ensures
        header + track_bytes(a) + track_bytes(b) + track_bytes(c) + track_bytes(d) == header + chunks(
            seq![a, b, c, d],
            4,
        ),
{
    let tracks = seq![a, b, c, d];
    lemma_chunk(a);
    lemma_chunk(b);
    lemma_chunk(c);
    lemma_chunk(d);
    assert(chunks(tracks, 0) == Seq::<u8>::empty());
    lemma_next_chunk(tracks, 1);
    lemma_next_chunk(tracks, 2);
    lemma_next_chunk(tracks, 3);
    lemma_next_chunk(tracks, 4);
    let (x, y, z, w) = (track_bytes(a), track_bytes(b), track_bytes(c), track_bytes(d));
    assert(Seq::<u8>::empty() + x =~= x);
    assert(header + x + y + z + w =~= header + (x + y + z + w));
}

proof fn lemma_next_chunk(tracks: Seq<Seq<u8>>, n: int)
    requires
        0 < n <= tracks.len(),
        tracks[n - 1].len() < 0x1_0000_0000,
    ensures
        chunks(tracks, n) == chunks(tracks, n - 1) + track_bytes(tracks[n - 1]),
{
    lemma_chunk(tracks[n - 1]);
    assert(chunks(tracks, n) =~= chunks(tracks, n - 1) + track_bytes(tracks[n - 1]));
}

/// The first `n` tracks, each behind its mark and the number of its bytes, high byte first.
pub open spec fn chunks(tracks: Seq<Seq<u8>>, n: int) -> Seq<u8>
    decreases n,
{
    if n <= 0 {
        Seq::empty()
    } else {
        let body = tracks[n - 1];
        let size = body.len() as int;
        chunks(tracks, n - 1) + seq![
            0x4Du8,
            0x54,
            0x72,
            0x6B,
            (size / 0x100_0000) as u8,
            (size / 0x1_0000 % 256) as u8,
            (size / 0x100 % 256) as u8,
            (size % 256) as u8,
        ] + body
    }
}

proof fn lemma_chunk(body: Seq<u8>)
    requires
        body.len() < 0x1_0000_0000,
    ensures
        ({
            let size = body.len() as int;
            track_bytes(body) == seq![
                0x4Du8,
                0x54,
                0x72,
                0x6B,
                (size / 0x100_0000) as u8,
                (size / 0x1_0000 % 256) as u8,
                (size / 0x100 % 256) as u8,
                (size % 256) as u8,
            ] + body
        }),
{
    let size = body.len() as int;
    assert(low32(size) == size);
    assert(size / 16777216 % 256 == size / 16777216);
}

/// A reader passes over what is not for it. A channel message has two data bytes behind its status, or
/// one where it changes a program or a channel's pressure; a message without a status has that of the
/// one before it. A system-exclusive event has as many bytes as it says. A meta event is passed over by its
/// length, unless it ends the track or is a sequencer-specific one that begins with our mark.
pub proof fn law_readers_pass_over_foreign_events(body: Seq<u8>, pos: int, running: u8, p: int)
    requires
        0 <= pos < p < body.len(),
        quantity_at(body, pos) matches Ok(delta) && delta.1 == p,
    ensures
        0x80 <= body[p] < 0xF0 && !(0xC0 <= body[p] < 0xE0) && p + 3 <= body.len() ==> found_in_track(
            body,
            pos,
            running,
        ) == found_in_track(body, p + 3, body[p]),
        0xC0 <= body[p] < 0xE0 && p + 2 <= body.len() ==> found_in_track(body, pos, running)
            == found_in_track(body, p + 2, body[p]),
        body[p] < 0x80 && 0x80 <= running < 0xC0 && p + 2 <= body.len() ==> found_in_track(
            body,
            pos,
            running,
        ) == found_in_track(body, p + 2, running),
        body[p] < 0x80 && 0xC0 <= running < 0xE0 ==> found_in_track(body, pos, running)
            == found_in_track(body, p + 1, running),
        body[p] < 0x80 && running == 0 ==> found_in_track(body, pos, running) == Err::<
            Option<Seq<u8>>,
            SmfError,
        >(SmfError::NotMidi),
        body[p] == 0xF0 || body[p] == 0xF7 ==> (quantity_at(body, p + 1) matches Ok(n) ==> (n.1 + n.0
            <= body.len() ==> found_in_track(body, pos, running) == found_in_track(
            body,
            n.1 + n.0,
            running,
        ))),
        body[p] == 0xFF && p + 1 < body.len() && body[p + 1] != 0x2F ==> (quantity_at(body, p + 2)
            matches Ok(n) ==> (n.1 + n.0 <= body.len() && (body[p + 1] != 0x7F || n.0 < 5
            || body.subrange(n.1, n.1 + 5) != seq![0x7Du8, 0x43, 0x54, 0x50, 0x31])
            ==> found_in_track(body, pos, running) == found_in_track(body, n.1 + n.0, running))),
        body[p] == 0xFF && p + 1 < body.len() && body[p + 1] == 0x2F ==> (quantity_at(body, p + 2)
            matches Ok(n) ==> (n.1 + n.0 <= body.len() ==> found_in_track(body, pos, running) == Ok::<
            Option<Seq<u8>>,
            SmfError,
        >(None))),
{
    assert(document_prefix() =~= seq![0x7Du8, 0x43, 0x54, 0x50, 0x31]);
    if body[p] == 0xFF && p + 1 < body.len() {
        lemma_quantity(body, p + 2, 4, 0);
        if let Ok(n) = quantity_at(body, p + 2) {
            if n.1 + n.0 <= body.len() && n.0 >= 5 {
                let data = body.subrange(n.1, n.1 + n.0);
                assert(data.subrange(0, 5) =~= body.subrange(n.1, n.1 + 5));
            }
        }
    }
}

/// What is refused before any track is read: fewer than fourteen bytes as too short, a file that does not
/// begin with the mark of a MIDI file as none, and a header that is shorter than six bytes or longer
/// than the file as truncated. A chunk that is no track is refused too.
pub proof fn law_what_is_no_midi_file(bytes: Seq<u8>)
    ensures
        found_in_file(bytes) == Err::<Option<Seq<u8>>, SmfError>(SmfError::TooShort) <== bytes.len() < 14,
        bytes.len() >= 14 && !(bytes[0] == 0x4D && bytes[1] == 0x54 && bytes[2] == 0x68 && bytes[3]
            == 0x64) ==> found_in_file(bytes) == Err::<Option<Seq<u8>>, SmfError>(SmfError::NotMidi),
        bytes.len() >= 14 && bytes[0] == 0x4D && bytes[1] == 0x54 && bytes[2] == 0x68 && bytes[3] == 0x64
            ==> ({
            let size = bytes[4] * 0x100_0000 + bytes[5] * 0x1_0000 + bytes[6] * 0x100 + bytes[7];
            &&& size < 6 || 8 + size > bytes.len() ==> found_in_file(bytes) == Err::<
                Option<Seq<u8>>,
                SmfError,
            >(SmfError::Truncated)
            &&& 6 <= size && 8 + size <= bytes.len() && bytes[10] == 0 && bytes[11] == 0
                ==> found_in_file(bytes) == Ok::<Option<Seq<u8>>, SmfError>(None)
        }),
{
    if bytes.len() >= 14 {
        let mark = seq![0x4Du8, 0x54, 0x68, 0x64];
        assert(bytes.subrange(0, 4) == mark <==> bytes[0] == 0x4D && bytes[1] == 0x54 && bytes[2] == 0x68
            && bytes[3] == 0x64) by {
            if bytes[0] == 0x4D && bytes[1] == 0x54 && bytes[2] == 0x68 && bytes[3] == 0x64 {
                assert(bytes.subrange(0, 4) =~= mark);
            }
            if bytes.subrange(0, 4) == mark {
                assert(bytes.subrange(0, 4)[0] == mark[0] && bytes.subrange(0, 4)[1] == mark[1]
                    && bytes.subrange(0, 4)[2] == mark[2] && bytes.subrange(0, 4)[3] == mark[3]);
            }
        }
    }
}

} // verus!
