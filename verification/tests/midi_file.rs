use lumino_gpu_synth::error::MidiError;
use lumino_gpu_synth::midi::smf::{decode, ChannelMessage, SmfData, SmfEvent, SmfEventKind, SmfTiming};
use lumino_gpu_synth::midi::{MidiEvent, MidiFile, TimedEvent};

/// Encodes a one-track Standard MIDI File with division 480 from
/// `(delta_ticks, bytes)` events; the track is closed with end-of-track.
fn make_midi(division: [u8; 2], events: &[(u32, Vec<u8>)]) -> Vec<u8> {
    let mut track = Vec::new();
    for (delta, msg) in events {
        push_varint(&mut track, *delta);
        track.extend_from_slice(msg);
    }
    track.extend_from_slice(&[0x00, 0xFF, 0x2F, 0x00]);
    let mut out = Vec::new();
    out.extend_from_slice(b"MThd");
    out.extend_from_slice(&[0, 0, 0, 6, 0, 0, 0, 1, division[0], division[1]]);
    out.extend_from_slice(b"MTrk");
    out.extend_from_slice(&(track.len() as u32).to_be_bytes());
    out.extend_from_slice(&track);
    out
}

fn push_varint(out: &mut Vec<u8>, mut v: u32) {
    let mut buf = [0u8; 4];
    let mut i = 3;
    buf[i] = (v & 0x7F) as u8;
    v >>= 7;
    while v > 0 {
        i -= 1;
        buf[i] = ((v & 0x7F) as u8) | 0x80;
        v >>= 7;
    }
    out.extend_from_slice(&buf[i..]);
}

const DIV_480: [u8; 2] = [0x01, 0xE0];

fn ev(sample: u64, channel: u8, event: MidiEvent) -> TimedEvent {
    TimedEvent { sample, channel, event }
}

#[test]
fn default_tempo_places_a_second_at_the_sample_rate() {
    // 120 BPM, 480 ticks per beat: 960 ticks are one second.
    let raw = make_midi(
        DIV_480,
        &[(0, vec![0x90, 60, 100]), (960, vec![0x80, 60, 0])],
    );
    let midi = MidiFile::parse(&raw, 64_000).expect("valid file");
    assert_eq!(midi.sample_rate, 64_000);
    assert_eq!(
        midi.sequence.events,
        vec![
            ev(0, 0, MidiEvent::NoteOn { key: 60, vel: 100 }),
            ev(64_000, 0, MidiEvent::NoteOff { key: 60 }),
        ]
    );
    assert_eq!(midi.length_ticks, 960);
    assert_eq!(midi.sequence.end_sample, 64_000);
    assert!(midi.tempos.is_empty());
}

#[test]
fn zero_velocity_note_on_becomes_note_off() {
    let raw = make_midi(
        DIV_480,
        &[(0, vec![0x91, 64, 90]), (480, vec![0x91, 64, 0])],
    );
    let midi = MidiFile::parse(&raw, 48_000).expect("valid file");
    assert_eq!(
        midi.sequence.events,
        vec![
            ev(0, 1, MidiEvent::NoteOn { key: 64, vel: 90 }),
            ev(24_000, 1, MidiEvent::NoteOff { key: 64 }),
        ]
    );
}

#[test]
fn tempo_change_applies_from_its_tick() {
    // 500000 us per beat for the first beat, then 250000 (240 BPM).
    let raw = make_midi(
        DIV_480,
        &[
            (0, vec![0x90, 60, 100]),
            (480, vec![0xFF, 0x51, 0x03, 0x03, 0xD0, 0x90]),
            (480, vec![0x80, 60, 0]),
        ],
    );
    let midi = MidiFile::parse(&raw, 64_000).expect("valid file");
    assert_eq!(midi.tempos, vec![(480, 250_000)]);
    assert_eq!(
        midi.sequence.events,
        vec![
            ev(0, 0, MidiEvent::NoteOn { key: 60, vel: 100 }),
            ev(48_000, 0, MidiEvent::NoteOff { key: 60 }),
        ]
    );
    assert_eq!(midi.sequence.end_sample, 48_000);
}

#[test]
fn sample_positions_round_half_up() {
    // One tick at 120 BPM and 480 tpb is 1/960 s: at 44100 Hz that is
    // 45.9375 samples, so 1 tick -> 46 and 2 ticks (91.875) -> 92.
    let raw = make_midi(
        DIV_480,
        &[(1, vec![0x90, 60, 100]), (1, vec![0x80, 60, 0])],
    );
    let midi = MidiFile::parse(&raw, 44_100).expect("valid file");
    assert_eq!(midi.sequence.events[0].sample, 46);
    assert_eq!(midi.sequence.events[1].sample, 92);
}

#[test]
fn other_channel_messages_become_events() {
    let raw = make_midi(
        DIV_480,
        &[
            (0, vec![0xB2, 0x07, 100]),
            (0, vec![0xC2, 5]),
            (0, vec![0xE2, 0x00, 0x40]),
            (0, vec![0xA2, 60, 10]),
            (0, vec![0xD2, 10]),
        ],
    );
    let midi = MidiFile::parse(&raw, 64_000).expect("valid file");
    assert_eq!(
        midi.sequence.events,
        vec![
            ev(0, 2, MidiEvent::ControlChange { controller: 7, value: 100 }),
            ev(0, 2, MidiEvent::ProgramChange { program: 5 }),
            ev(0, 2, MidiEvent::PitchBend { value: 8192 }),
        ]
    );
}

#[test]
fn events_are_ordered_by_sample_then_file_order() {
    let data = SmfData {
        timing: SmfTiming::Metrical(480),
        tracks: vec![
            vec![
                SmfEvent { delta: 480, kind: channel(3, ChannelMessage::NoteOn { key: 1, vel: 9 }) },
                SmfEvent { delta: 0, kind: channel(1, ChannelMessage::NoteOn { key: 2, vel: 9 }) },
            ],
            vec![
                SmfEvent { delta: 0, kind: channel(5, ChannelMessage::NoteOn { key: 3, vel: 9 }) },
                SmfEvent { delta: 480, kind: channel(1, ChannelMessage::NoteOn { key: 4, vel: 9 }) },
            ],
        ],
    };
    let midi = MidiFile::from_smf(&data, 960).expect("valid file");
    assert_eq!(
        midi.sequence.events,
        vec![
            ev(0, 5, MidiEvent::NoteOn { key: 3, vel: 9 }),
            ev(480, 3, MidiEvent::NoteOn { key: 1, vel: 9 }),
            ev(480, 1, MidiEvent::NoteOn { key: 2, vel: 9 }),
            ev(480, 1, MidiEvent::NoteOn { key: 4, vel: 9 }),
        ]
    );
    assert_eq!(midi.length_ticks, 480);
}

fn channel(channel: u8, message: ChannelMessage) -> SmfEventKind {
    SmfEventKind::Channel { channel, message }
}

#[test]
fn tempo_in_another_track_applies_to_all() {
    let data = SmfData {
        timing: SmfTiming::Metrical(100),
        tracks: vec![
            vec![SmfEvent { delta: 100, kind: SmfEventKind::Tempo(1_000_000) }],
            vec![SmfEvent { delta: 200, kind: channel(0, ChannelMessage::NoteOff { key: 9, vel: 0 }) }],
        ],
    };
    let midi = MidiFile::from_smf(&data, 1_000).expect("valid file");
    // 100 ticks at 0.5 s per beat, then 100 ticks at 1 s per beat.
    assert_eq!(midi.sequence.events, vec![ev(1_500, 0, MidiEvent::NoteOff { key: 9 })]);
}

#[test]
fn smpte_timing_is_rejected() {
    let raw = make_midi([0xE7, 0x28], &[(0, vec![0x90, 60, 100])]);
    assert_eq!(MidiFile::parse(&raw, 64_000).unwrap_err(), MidiError::SmpteTiming);
}

#[test]
fn zero_ticks_per_beat_is_rejected() {
    let raw = make_midi([0x00, 0x00], &[(0, vec![0x90, 60, 100])]);
    assert_eq!(MidiFile::parse(&raw, 64_000).unwrap_err(), MidiError::ZeroTicksPerBeat);
}

#[test]
fn garbage_is_a_parse_error() {
    match MidiFile::parse(b"definitely not a midi file", 64_000) {
        Err(MidiError::Parse(msg)) => assert!(!msg.is_empty()),
        other => panic!("expected a parse error, got {other:?}"),
    }
    assert!(decode(b"MThd").is_err());
}

#[test]
fn decode_reads_the_header_and_tracks() {
    let raw = make_midi(DIV_480, &[(5, vec![0x93, 1, 2])]);
    let data = decode(&raw).expect("valid file");
    assert_eq!(data.timing, SmfTiming::Metrical(480));
    assert_eq!(data.tracks.len(), 1);
    assert_eq!(
        data.tracks[0],
        vec![
            SmfEvent { delta: 5, kind: channel(3, ChannelMessage::NoteOn { key: 1, vel: 2 }) },
            SmfEvent { delta: 0, kind: SmfEventKind::EndOfTrack },
        ]
    );
}

#[test]
fn save_writes_a_file_that_reads_back_the_same() {
    // 480 tpb at 120 BPM with a tempo change; written at 64 kHz.
    let raw = make_midi(
        DIV_480,
        &[
            (0, vec![0x90, 60, 100]),
            (480, vec![0xFF, 0x51, 0x03, 0x03, 0xD0, 0x90]),
            (0, vec![0xB3, 7, 90]),
            (480, vec![0x80, 60, 0]),
            (10, vec![0xE3, 0x01, 0x40]),
            (100, vec![0xC3, 9]),
        ],
    );
    let midi = MidiFile::parse(&raw, 64_000).expect("valid file");
    let bytes = midi.save().expect("writable");
    // One tick is one sample: 8 ticks per beat at 125 µs per beat.
    assert_eq!(&bytes[0..14], &[b'M', b'T', b'h', b'd', 0, 0, 0, 6, 0, 0, 0, 1, 0, 8]);
    let back = MidiFile::parse(&bytes, 64_000).expect("written file reads back");
    assert_eq!(back.sequence, midi.sequence);
    assert_eq!(back.sample_rate, midi.sample_rate);
}

#[test]
fn save_at_rates_without_an_exact_timing_fails() {
    let raw = make_midi(DIV_480, &[(0, vec![0x90, 60, 100])]);
    let midi = MidiFile::parse(&raw, 44_101).expect("valid file");
    assert_eq!(midi.save(), Err(MidiError::Unwritable));
    let midi = MidiFile::parse(&raw, 44_100).expect("valid file");
    let bytes = midi.save().expect("writable");
    // 441 ticks per beat at 10000 µs per beat.
    assert_eq!(&bytes[12..14], &[0x01, 0xB9]);
    assert_eq!(MidiFile::parse(&bytes, 44_100).expect("reads back").sequence, midi.sequence);
}

#[test]
fn zero_velocity_helper() {
    assert!(MidiEvent::NoteOn { key: 1, vel: 0 }.is_zero_velocity_note_on());
    assert!(!MidiEvent::NoteOn { key: 1, vel: 1 }.is_zero_velocity_note_on());
    assert!(!MidiEvent::NoteOff { key: 1 }.is_zero_velocity_note_on());
}

#[test]
fn negative_frame_rate_header_is_refused() {
    let raw: Vec<u8> = vec![b'M', b'T', b'h', b'd', 0, 0, 0, 6, 0, 0, 0, 1, 0x80, 0x00];
    assert!(matches!(MidiFile::parse(&raw, 64_000), Err(MidiError::Parse(_))));
    assert!(decode(&raw).is_err());
}

fn rmid(smf: &[u8]) -> Vec<u8> {
    let mut data = Vec::new();
    data.extend_from_slice(b"RMID");
    data.extend_from_slice(b"data");
    data.extend_from_slice(&(smf.len() as u32).to_le_bytes());
    data.extend_from_slice(smf);
    let mut out = Vec::new();
    out.extend_from_slice(b"RIFF");
    out.extend_from_slice(&(data.len() as u32).to_le_bytes());
    out.extend_from_slice(&data);
    out
}

#[test]
fn header_tag_inside_track_data_is_not_a_header() {
    // A text event holding "MThd" with 0x80 twelve bytes later.
    let mut text = vec![0xFF, 0x01, 14, 0x4D, 0x54, 0x68, 0x64];
    text.extend_from_slice(&[1, 2, 3, 4, 5, 6, 7, 8, 0x80, 9]);
    let raw = make_midi(DIV_480, &[(0, text), (0, vec![0x90, 60, 100])]);
    let midi = MidiFile::parse(&raw, 64_000).expect("valid file");
    assert_eq!(midi.sequence.events, vec![ev(0, 0, MidiEvent::NoteOn { key: 60, vel: 100 })]);
}

#[test]
fn rmid_files_are_read_and_checked() {
    let raw = make_midi(DIV_480, &[(960, vec![0x90, 60, 100])]);
    let midi = MidiFile::parse(&rmid(&raw), 64_000).expect("valid file");
    assert_eq!(midi.sequence.events, vec![ev(64_000, 0, MidiEvent::NoteOn { key: 60, vel: 100 })]);
    let bad: Vec<u8> = vec![b'M', b'T', b'h', b'd', 0, 0, 0, 6, 0, 0, 0, 1, 0x80, 0x00];
    assert!(matches!(MidiFile::parse(&rmid(&bad), 64_000), Err(MidiError::Parse(_))));
}

fn header_chunk(format: u8, timing_high: u8) -> Vec<u8> {
    let mut out = Vec::new();
    out.extend_from_slice(b"MThd");
    out.extend_from_slice(&[0, 0, 0, 6, 0, format, 0, 1, timing_high, 0x00]);
    out
}

#[test]
fn second_header_with_a_negative_frame_rate_is_refused() {
    let mut raw = make_midi(DIV_480, &[(0, vec![0x90, 60, 100])]);
    raw.extend_from_slice(&header_chunk(0, 0x80));
    assert!(matches!(MidiFile::parse(&raw, 64_000), Err(MidiError::Parse(_))));
}

#[test]
fn chunks_after_an_unreadable_header_are_not_read() {
    let mut raw = make_midi(DIV_480, &[(0, vec![0x90, 60, 100])]);
    raw.extend_from_slice(&header_chunk(7, 0x00));
    raw.extend_from_slice(&header_chunk(0, 0x80));
    let midi = MidiFile::parse(&raw, 64_000).expect("the first track is read");
    assert_eq!(midi.sequence.events, vec![ev(0, 0, MidiEvent::NoteOn { key: 60, vel: 100 })]);
}
