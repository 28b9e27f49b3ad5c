use chord_tool::midi;
use chord_tool::midi::{ChannelMap, Layer, Note, Score};
use chord_tool::music::{Key, Scale, ScaleDegree, Transformation};
use chord_tool::progression::{ProgressionEntry, Slot};
use chord_tool::single::Single;
use chord_tool::smf::{
    key_signature, push_vlq, read_project, strip_project_magic, SmfError, SmfOptions,
    TrackLayout, MANUFACTURER_NON_COMMERCIAL,
};

/// A single-precision number.
fn number(v: f32) -> Single {
    Single { bits: v.to_bits() }
}

// ---- a small SMF reader, so tests assert on meaning, not golden bytes ----

struct Parsed {
    format: u16,
    division: u16,
    tracks: Vec<Vec<u8>>,
}

fn parse(bytes: &[u8]) -> Parsed {
    assert_eq!(&bytes[0..4], b"MThd", "missing MThd");
    assert_eq!(u32::from_be_bytes(bytes[4..8].try_into().unwrap()), 6);
    let format = u16::from_be_bytes(bytes[8..10].try_into().unwrap());
    let ntrks = u16::from_be_bytes(bytes[10..12].try_into().unwrap());
    let division = u16::from_be_bytes(bytes[12..14].try_into().unwrap());

    let mut pos = 14usize;
    let mut tracks = Vec::new();
    for _ in 0..ntrks {
        assert_eq!(&bytes[pos..pos + 4], b"MTrk", "missing MTrk");
        let len = u32::from_be_bytes(bytes[pos + 4..pos + 8].try_into().unwrap()) as usize;
        tracks.push(bytes[pos + 8..pos + 8 + len].to_vec());
        pos += 8 + len;
    }
    assert_eq!(pos, bytes.len(), "trailing bytes after the last track");

    Parsed {
        format,
        division,
        tracks,
    }
}

/// `(tick, is_on, channel, note, velocity)` for every channel event.
type Event = (u64, bool, u8, u8, u8);

fn events(body: &[u8]) -> Vec<Event> {
    let mut out = Vec::new();
    let mut pos = 0usize;
    let mut tick = 0u64;
    let mut running = 0u8;

    while pos < body.len() {
        tick += read_vlq(body, &mut pos) as u64;
        let status = body[pos];

        match status {
            0xFF => {
                pos += 1;
                let kind = body[pos];
                pos += 1;
                let len = read_vlq(body, &mut pos) as usize;
                if kind == 0x2F {
                    break; // end of track
                }
                pos += len;
            }
            0xF0 | 0xF7 => {
                pos += 1;
                let len = read_vlq(body, &mut pos) as usize;
                pos += len;
            }
            _ => {
                if status & 0x80 != 0 {
                    running = status;
                    pos += 1;
                }
                let kind = running & 0xF0;
                let channel = running & 0x0F;
                let note = body[pos];
                let velocity = body[pos + 1];
                pos += 2;
                match kind {
                    0x90 if velocity > 0 => out.push((tick, true, channel, note, velocity)),
                    0x80 | 0x90 => out.push((tick, false, channel, note, velocity)),
                    _ => {}
                }
            }
        }
    }
    out
}

fn read_vlq(data: &[u8], pos: &mut usize) -> u32 {
    let mut value = 0u32;
    loop {
        let byte = data[*pos];
        *pos += 1;
        value = (value << 7) | (byte & 0x7F) as u32;
        if byte & 0x80 == 0 {
            return value;
        }
    }
}

fn meta_events(body: &[u8]) -> Vec<(u8, Vec<u8>)> {
    let mut out = Vec::new();
    let mut pos = 0usize;
    while pos < body.len() {
        let _ = read_vlq(body, &mut pos);
        let status = body[pos];
        if status != 0xFF {
            if status == 0xF0 || status == 0xF7 {
                pos += 1;
                let len = read_vlq(body, &mut pos) as usize;
                pos += len;
            } else {
                if status & 0x80 != 0 {
                    pos += 1;
                }
                pos += 2;
            }
            continue;
        }
        pos += 1;
        let kind = body[pos];
        pos += 1;
        let len = read_vlq(body, &mut pos) as usize;
        let data = body[pos..pos + len].to_vec();
        pos += len;
        if kind == 0x2F {
            break;
        }
        out.push((kind, data));
    }
    out
}

// ---- fixtures ----

fn score_with(slots: Vec<Slot>) -> Score {
    midi::render_progression(&slots, &Key::new(60, Scale::Major), 120, number(1.0))
}

fn chord(degree: ScaleDegree, transformation: Option<Transformation>) -> Slot {
    Slot::Chord(ProgressionEntry::new(degree, transformation))
}

fn single(score: &Score) -> Parsed {
    parse(&chord_tool::smf::write(score, &SmfOptions::single("Progression")))
}

// ---- VLQ ----

fn vlq(value: u32) -> Vec<u8> {
    let mut out = Vec::new();
    push_vlq(&mut out, value);
    out
}

#[test]
fn vlq_encodes_the_boundaries() {
    assert_eq!(vlq(0x00), vec![0x00]);
    assert_eq!(vlq(0x40), vec![0x40]);
    assert_eq!(vlq(0x7F), vec![0x7F]);
    assert_eq!(vlq(0x80), vec![0x81, 0x00]);
    assert_eq!(vlq(0x2000), vec![0xC0, 0x00]);
    assert_eq!(vlq(0x3FFF), vec![0xFF, 0x7F]);
    assert_eq!(vlq(0x4000), vec![0x81, 0x80, 0x00]);
    assert_eq!(vlq(0x0FFFFFFF), vec![0xFF, 0xFF, 0xFF, 0x7F]);
}

// ---- header ----

#[test]
fn single_layout_is_format_0_with_one_track() {
    let parsed = single(&score_with(vec![chord(ScaleDegree::I, None)]));
    assert_eq!(parsed.format, 0);
    assert_eq!(parsed.tracks.len(), 1);
    assert_eq!(parsed.division, midi::PPQ);
}

#[test]
fn per_layer_layout_is_format_1_with_a_conductor_and_three_tracks() {
    let score = score_with(vec![chord(ScaleDegree::I, None)]);
    let parsed = parse(&chord_tool::smf::write(
        &score,
        &SmfOptions {
            layout: TrackLayout::PerLayer {
                channels: ChannelMap::default(),
            },
            track_name: "Progression".to_string(),
            project: None,
        },
    ));
    assert_eq!(parsed.format, 1);
    assert_eq!(parsed.tracks.len(), 4);
}

// ---- notes ----

#[test]
fn a_triad_round_trips() {
    let parsed = single(&score_with(vec![chord(ScaleDegree::I, None)]));
    let mut found = events(&parsed.tracks[0]);
    found.sort_by_key(|e| (e.3, e.1));
    found.retain(|e| e.1);

    let mut notes: Vec<u8> = found.iter().map(|e| e.3).collect();
    notes.sort_unstable();
    assert_eq!(notes, vec![60, 64, 67]);
}

#[test]
fn note_offs_land_at_the_rendered_duration() {
    let score = midi::render_progression(
        &[chord(ScaleDegree::I, None)],
        &Key::new(60, Scale::Major),
        120,
        number(0.5), // half a bar
    );
    let parsed = single(&score);
    let found = events(&parsed.tracks[0]);
    assert!(found.iter().any(|e| e.1 && e.0 == 0), "note-ons at tick 0");
    assert!(
        found.iter().any(|e| !e.1 && e.0 == 1920),
        "note-offs at half a bar"
    );
}

#[test]
fn every_event_carries_the_single_channel() {
    let score = score_with(vec![chord(ScaleDegree::I, None)]);
    let bytes = chord_tool::smf::write(
        &score,
        &SmfOptions {
            layout: TrackLayout::Single { channel: 5 },
            track_name: "Progression".to_string(),
            project: None,
        },
    );
    let parsed = parse(&bytes);
    assert!(events(&parsed.tracks[0]).iter().all(|e| e.2 == 5));
}

#[test]
fn per_layer_routes_each_layer_to_its_own_channel() {
    let score = score_with(vec![chord(ScaleDegree::I, Some(Transformation::Dom7))]);
    let parsed = parse(&chord_tool::smf::write(
        &score,
        &SmfOptions {
            layout: TrackLayout::PerLayer {
                channels: ChannelMap::default(),
            },
            track_name: "Progression".to_string(),
            project: None,
        },
    ));

    // Tracks 1/2/3 are Low/Mid/High on channels 0/1/2.
    assert!(events(&parsed.tracks[1]).iter().all(|e| e.2 == 0));
    assert!(events(&parsed.tracks[2]).iter().all(|e| e.2 == 1));
    assert!(events(&parsed.tracks[3]).iter().all(|e| e.2 == 2));

    let notes = |track: usize| -> Vec<u8> {
        let mut v: Vec<u8> = events(&parsed.tracks[track])
            .iter()
            .filter(|e| e.1)
            .map(|e| e.3)
            .collect();
        v.sort_unstable();
        v
    };
    assert_eq!(notes(1), vec![60]);
    assert_eq!(notes(2), vec![64, 67]);
    assert_eq!(notes(3), vec![70]);
}

#[test]
fn a_repeated_note_releases_before_it_retriggers() {
    // Same chord in adjacent bars: at the bar line the off must precede
    // the on, or the new note is cancelled by the old one's release.
    let score = score_with(vec![
        chord(ScaleDegree::I, None),
        chord(ScaleDegree::I, None),
    ]);
    let parsed = single(&score);

    let mut pos = 0usize;
    let body = &parsed.tracks[0];
    let mut tick = 0u64;
    let mut at_bar_line: Vec<bool> = Vec::new(); // true == note-on
    let mut running = 0u8;
    while pos < body.len() {
        tick += read_vlq(body, &mut pos) as u64;
        let status = body[pos];
        if status == 0xFF {
            pos += 1;
            let kind = body[pos];
            pos += 1;
            let len = read_vlq(body, &mut pos) as usize;
            if kind == 0x2F {
                break;
            }
            pos += len;
            continue;
        }
        if status & 0x80 != 0 {
            running = status;
            pos += 1;
        }
        let kind = running & 0xF0;
        let note = body[pos];
        let velocity = body[pos + 1];
        pos += 2;
        if tick == midi::BAR_TICKS && note == 60 {
            at_bar_line.push(matches!(kind, 0x90) && velocity > 0);
        }
    }

    // The C in bar two starts only after the C in bar one has stopped.
    assert_eq!(at_bar_line, vec![false, true]);
}

// ---- meta ----

#[test]
fn tempo_matches_the_bpm() {
    let score = score_with(vec![chord(ScaleDegree::I, None)]);
    let parsed = single(&score);
    let tempo = meta_events(&parsed.tracks[0])
        .into_iter()
        .find(|(kind, _)| *kind == 0x51)
        .map(|(_, data)| data)
        .expect("tempo meta event");
    let micros = u32::from_be_bytes([0, tempo[0], tempo[1], tempo[2]]);
    assert_eq!(micros, 500_000); // 120 BPM
}

#[test]
fn a_very_slow_tempo_saturates_instead_of_wrapping() {
    let score = midi::render_progression(
        &[chord(ScaleDegree::I, None)],
        &Key::new(60, Scale::Major),
        1,
        number(1.0),
    );
    let parsed = single(&score);
    let tempo = meta_events(&parsed.tracks[0])
        .into_iter()
        .find(|(kind, _)| *kind == 0x51)
        .map(|(_, data)| data)
        .unwrap();
    assert_eq!(tempo, vec![0xFF, 0xFF, 0xFF]);
}

#[test]
fn time_signature_is_four_four() {
    let parsed = single(&score_with(vec![chord(ScaleDegree::I, None)]));
    let sig = meta_events(&parsed.tracks[0])
        .into_iter()
        .find(|(kind, _)| *kind == 0x58)
        .map(|(_, data)| data)
        .unwrap();
    assert_eq!(sig, vec![4, 2, 24, 8]);
}

#[test]
fn key_signature_is_spelled_by_pitch_class() {
    let c_major = Score {
        key: Key::new(60, Scale::Major),
        ..score_with(vec![chord(ScaleDegree::I, None)])
    };
    assert_eq!(key_signature(&c_major), (0, 0));

    let a_minor = Score {
        key: Key::new(57, Scale::Minor),
        ..score_with(vec![chord(ScaleDegree::I, None)])
    };
    assert_eq!(key_signature(&a_minor), (0, 1));

    let f_major = Score {
        key: Key::new(65, Scale::Major),
        ..score_with(vec![chord(ScaleDegree::I, None)])
    };
    assert_eq!(key_signature(&f_major), (-1, 0));
}

#[test]
fn a_trailing_rest_extends_the_exported_length() {
    let parsed = single(&score_with(vec![chord(ScaleDegree::I, None), Slot::Rest]));
    // The last (and only) note-off is in bar one; the end-of-track delta
    // must still carry the loop out to the end of bar two.
    let found = events(&parsed.tracks[0]);
    let last = found.iter().map(|e| e.0).max().unwrap();
    assert_eq!(last, midi::BAR_TICKS);

    // Walk to the end-of-track and check the accumulated tick.
    let body = &parsed.tracks[0];
    let mut pos = 0usize;
    let mut tick = 0u64;
    while pos < body.len() {
        tick += read_vlq(body, &mut pos) as u64;
        let status = body[pos];
        if status == 0xFF && body[pos + 1] == 0x2F {
            break;
        }
        if status == 0xFF {
            pos += 2;
            let len = read_vlq(body, &mut pos) as usize;
            pos += len;
        } else {
            if status & 0x80 != 0 {
                pos += 1;
            }
            pos += 2;
        }
    }
    assert_eq!(tick, 2 * midi::BAR_TICKS);
}

#[test]
fn an_empty_score_still_writes_a_valid_file() {
    let parsed = single(&score_with(vec![]));
    assert_eq!(parsed.tracks.len(), 1);
    assert!(events(&parsed.tracks[0]).is_empty());
}

#[test]
fn a_voice_with_note_data_round_trips_through_the_reader() {
    let score = score_with(vec![
        chord(ScaleDegree::I, None),
        Slot::Rest,
        chord(ScaleDegree::V, Some(Transformation::Dom7)),
    ]);
    let parsed = single(&score);

    let mut ons: Vec<(u64, u8)> = events(&parsed.tracks[0])
        .into_iter()
        .filter(|e| e.1)
        .map(|e| (e.0, e.3))
        .collect();
    ons.sort_unstable();
    assert_eq!(
        ons,
        vec![(0, 60), (0, 64), (0, 67), (2 * midi::BAR_TICKS, 67), (2 * midi::BAR_TICKS, 71), (2 * midi::BAR_TICKS, 74), (2 * midi::BAR_TICKS, 77)]
    );
}

// ---- embedded project document ----

#[test]
fn a_project_payload_survives_a_write_read_round_trip() {
    let score = score_with(vec![chord(ScaleDegree::I, None)]);
    let payload = b"version = 1\nthis is the document\n".to_vec();
    let bytes = chord_tool::smf::write(
        &score,
        &SmfOptions::single("Progression").with_project(payload.clone()),
    );

    assert_eq!(read_project(&bytes).unwrap(), Some(payload));
}

#[test]
fn a_file_written_without_a_project_reports_none() {
    let score = score_with(vec![chord(ScaleDegree::I, None)]);
    let bytes = chord_tool::smf::write(&score, &SmfOptions::single("Progression"));
    assert_eq!(read_project(&bytes).unwrap(), None);
}

#[test]
fn the_payload_is_found_in_a_per_layer_file_too() {
    let score = score_with(vec![chord(ScaleDegree::I, None)]);
    let payload = b"version = 1\n".to_vec();
    let bytes = chord_tool::smf::write(
        &score,
        &SmfOptions {
            layout: TrackLayout::PerLayer {
                channels: ChannelMap::default(),
            },
            track_name: "Progression".to_string(),
            project: Some(payload.clone()),
        },
    );
    // It lives in the conductor track, which is the first one.
    assert_eq!(read_project(&bytes).unwrap(), Some(payload));
}

#[test]
fn the_payload_is_still_hidden_from_note_parsers() {
    // The embedding must not disturb the note events a DAW reads.
    let score = score_with(vec![chord(ScaleDegree::I, None)]);
    let with = chord_tool::smf::write(
        &score,
        &SmfOptions::single("Progression").with_project(b"version = 1\n".to_vec()),
    );
    let without = chord_tool::smf::write(&score, &SmfOptions::single("Progression"));

    let notes = |bytes: &[u8]| -> Vec<Event> {
        let parsed = parse(bytes);
        events(&parsed.tracks[0])
    };
    assert_eq!(notes(&with), notes(&without));
}

#[test]
fn a_non_midi_file_is_an_error_not_a_silent_none() {
    assert!(matches!(read_project(b"short"), Err(SmfError::TooShort)));
    assert!(matches!(
        read_project(b"not a midi file at all"),
        Err(SmfError::NotMidi)
    ));
    let mut junk = vec![0u8; 32];
    junk[0..4].copy_from_slice(b"RIFF");
    assert!(matches!(read_project(&junk), Err(SmfError::NotMidi)));
}

#[test]
fn a_truncated_file_is_reported() {
    let score = score_with(vec![chord(ScaleDegree::I, None)]);
    let bytes = chord_tool::smf::write(&score, &SmfOptions::single("Progression"));
    let truncated = &bytes[..bytes.len() - 5];
    assert!(matches!(
        read_project(truncated),
        Err(SmfError::Truncated)
    ));
}

#[test]
fn a_foreign_sequencer_specific_event_is_ignored() {
    // Some other tool's FF 7F data must not be mistaken for ours.
    assert!(strip_project_magic(&[0x01, b'C', b'T', b'P', b'1', 0x00]).is_none());
    assert!(strip_project_magic(&[MANUFACTURER_NON_COMMERCIAL, b'X', b'X', b'X', b'X']).is_none());
    assert!(strip_project_magic(&[MANUFACTURER_NON_COMMERCIAL]).is_none());
    assert!(strip_project_magic(&[]).is_none());
    assert_eq!(
        strip_project_magic(&[MANUFACTURER_NON_COMMERCIAL, b'C', b'T', b'P', b'1', 0x41]),
        Some(vec![0x41])
    );
}

// ---- exact bytes ----

#[test]
fn a_small_file_byte_for_byte() {
    let score = Score {
        ppq: 960,
        bpm: 120,
        beats_per_bar: 4,
        key: Key::new(60, Scale::Minor),
        length_ticks: 200,
        notes: vec![Note { note: 60, velocity: 100, start: 0, duration: 128, layer: Layer::Low }],
    };
    let bytes = chord_tool::smf::write(&score, &SmfOptions::single("A").with_project(vec![0x41]));
    let expected: Vec<u8> = [
        &b"MThd\x00\x00\x00\x06\x00\x00\x00\x01\x03\xC0"[..],
        &b"MTrk\x00\x00\x00\x31"[..],
        &b"\x00\xFF\x03\x01A"[..],
        &b"\x00\xFF\x7F\x06\x7DCTP1A"[..],
        &b"\x00\xFF\x51\x03\x07\xA1\x20"[..],
        &b"\x00\xFF\x58\x04\x04\x02\x18\x08"[..],
        &b"\x00\xFF\x59\x02\xFD\x01"[..],
        &b"\x00\x90\x3C\x64"[..],
        &b"\x81\x00\x80\x3C\x40"[..],
        &b"\x48\xFF\x2F\x00"[..],
    ]
    .concat();
    assert_eq!(bytes, expected);
    assert_eq!(read_project(&bytes), Ok(Some(vec![0x41])));
}

#[test]
fn a_track_that_is_no_track_is_refused() {
    let mut bytes = chord_tool::smf::write(&score_with(vec![]), &SmfOptions::single("x"));
    bytes[14] = b'X';
    assert_eq!(read_project(&bytes), Err(SmfError::NotMidi));
}

#[test]
fn the_errors_say_what_is_wrong() {
    assert_eq!(SmfError::TooShort.message(), "file is too short to be a MIDI file");
    assert_eq!(SmfError::NotMidi.message(), "file is not a Standard MIDI File");
    assert_eq!(SmfError::Truncated.message(), "MIDI file is truncated");
}

#[test]
fn the_document_is_the_only_difference() {
    let score = score_with(vec![chord(ScaleDegree::II, None)]);
    let plain = chord_tool::smf::write(&score, &SmfOptions::single("x"));
    let with = chord_tool::smf::write(&score, &SmfOptions::single("x").with_project(vec![9, 8, 7]));
    // One meta event more: a delta, the status, the kind, a length and eight bytes.
    assert_eq!(with.len(), plain.len() + 12);
}

#[test]
fn a_long_document_reads_back() {
    let document: Vec<u8> = (0..40_000u32).map(|i| (i % 251) as u8).collect();
    let score = score_with(vec![chord(ScaleDegree::I, None)]);
    for layout in [
        TrackLayout::Single { channel: 0 },
        TrackLayout::PerLayer { channels: ChannelMap::default() },
    ] {
        let options = SmfOptions {
            layout,
            track_name: "a longer name".to_string(),
            project: Some(document.clone()),
        };
        assert_eq!(read_project(&chord_tool::smf::write(&score, &options)), Ok(Some(document.clone())));
    }
}

#[test]
fn a_file_is_refused_wherever_it_is_cut() {
    let score = score_with(vec![chord(ScaleDegree::I, None)]);
    let full = chord_tool::smf::write(
        &score,
        &SmfOptions::single("Progression").with_project(b"version = 3\n".to_vec()),
    );
    for k in 0..full.len() {
        let expected = if k < 14 { SmfError::TooShort } else { SmfError::Truncated };
        assert_eq!(read_project(&full[..k]), Err(expected), "cut at {}", k);
    }
}

#[test]
fn a_quantity_of_five_bytes_is_refused() {
    assert_eq!(vlq(0x1000_0000), vec![0x81, 0x80, 0x80, 0x80, 0x00]);
    assert_eq!(vlq(u32::MAX), vec![0x8F, 0xFF, 0xFF, 0xFF, 0x7F]);
    // A track whose first delta time is that long.
    let mut bytes = b"MThd\x00\x00\x00\x06\x00\x00\x00\x01\x03\xC0MTrk\x00\x00\x00\x08".to_vec();
    bytes.extend(vlq(0x1000_0000));
    bytes.extend([0xFF, 0x2F, 0x00]);
    assert_eq!(read_project(&bytes), Err(SmfError::NotMidi));
}

#[test]
fn a_quantity_is_read_and_passed() {
    let data = [0x81, 0x80, 0x00, 0x7F, 0xFF];
    let mut pos: usize = 0;
    assert_eq!(chord_tool::smf::read_vlq(&data, &mut pos), Ok(0x4000));
    assert_eq!(pos, 3);
    assert_eq!(chord_tool::smf::read_vlq(&data, &mut pos), Ok(0x7F));
    assert_eq!(pos, 4);
    assert_eq!(chord_tool::smf::read_vlq(&data, &mut pos), Err(SmfError::Truncated));
    assert_eq!(pos, 5);
    assert_eq!(chord_tool::smf::read_vlq(&data, &mut pos), Err(SmfError::Truncated));
    assert_eq!(pos, 5);

    let mut pos: usize = 1;
    let long = [0x00, 0x80, 0x80, 0x80, 0x80, 0x00];
    assert_eq!(chord_tool::smf::read_vlq(&long, &mut pos), Err(SmfError::NotMidi));
    assert_eq!(pos, 5);

    for value in [0, 127, 128, 16383, 16384, 0x0FFF_FFFF] {
        let bytes = vlq(value);
        let mut pos: usize = 0;
        assert_eq!(chord_tool::smf::read_vlq(&bytes, &mut pos), Ok(value));
        assert_eq!(pos, bytes.len());
    }
}

#[test]
fn a_written_file_reads_back_in_either_layout() {
    let score = score_with(vec![chord(ScaleDegree::I, None), Slot::Rest, chord(ScaleDegree::V, None)]);
    for layout in [
        TrackLayout::Single { channel: 9 },
        TrackLayout::PerLayer { channels: ChannelMap::default() },
    ] {
        for project in [None, Some(Vec::new()), Some(b"version = 3\n".to_vec())] {
            let options = SmfOptions { layout, track_name: "caf\u{e9}".to_string(), project };
            let bytes = chord_tool::smf::write(&score, &options);
            assert_eq!(read_project(&bytes), Ok(options.project));
        }
    }
}
