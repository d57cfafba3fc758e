use lumino_gpu_synth::error::MidiError;
use lumino_gpu_synth::midi::smf::{ChannelMessage, SmfData, SmfEvent, SmfEventKind, SmfTiming};
use lumino_gpu_synth::midi::stream::MidiStream;
use lumino_gpu_synth::midi::{MidiEvent, MidiFile, TimedEvent};

fn note_on(channel: u8, key: u8, delta: u32) -> SmfEvent {
    SmfEvent {
        delta,
        kind: SmfEventKind::Channel { channel, message: ChannelMessage::NoteOn { key, vel: 100 } },
    }
}

fn two_tracks() -> SmfData {
    SmfData {
        timing: SmfTiming::Metrical(480),
        tracks: vec![
            vec![note_on(0, 60, 0), note_on(0, 62, 960), SmfEvent { delta: 0, kind: SmfEventKind::EndOfTrack }],
            vec![
                SmfEvent { delta: 0, kind: SmfEventKind::OtherMeta },
                note_on(1, 40, 480),
                note_on(1, 41, 480),
            ],
        ],
    }
}

fn drain(stream: &mut MidiStream) -> Vec<TimedEvent> {
    let mut out = Vec::new();
    while let Some(e) = stream.next_event() {
        out.push(e);
    }
    out
}

fn on(sample: u64, channel: u8, key: u8) -> TimedEvent {
    TimedEvent { sample, channel, event: MidiEvent::NoteOn { key, vel: 100 } }
}

#[test]
fn stream_merges_tracks_in_sample_order() {
    let mut s = MidiStream::from_smf(two_tracks(), 64_000).expect("valid file");
    assert_eq!(s.sample_rate(), 64_000);
    assert_eq!(s.length_ticks(), 960);
    assert_eq!(s.end_sample(), 64_000);
    assert!(!s.is_exhausted());
    assert_eq!(
        drain(&mut s),
        vec![on(0, 0, 60), on(32_000, 1, 40), on(64_000, 0, 62), on(64_000, 1, 41)]
    );
    assert!(s.is_exhausted());
    assert_eq!(s.next_event(), None);
    assert_eq!(s.peek(), None);
}

#[test]
fn stream_agrees_with_the_whole_file_parse() {
    let data = two_tracks();
    let file = MidiFile::from_smf(&data, 44_100).expect("valid file");
    let mut s = MidiStream::from_smf(data, 44_100).expect("valid file");
    assert_eq!(drain(&mut s), file.sequence.events);
    assert_eq!(s.end_sample(), file.sequence.end_sample);
}

#[test]
fn stream_and_file_agree_on_ties() {
    // Equal samples on different channels in different tracks: both keep
    // the track order.
    let data = SmfData {
        timing: SmfTiming::Metrical(480),
        tracks: vec![
            vec![note_on(9, 1, 480), note_on(2, 2, 0)],
            vec![note_on(0, 3, 480), note_on(5, 4, 0)],
        ],
    };
    let file = MidiFile::from_smf(&data, 960).expect("valid file");
    let mut s = MidiStream::from_smf(data, 960).expect("valid file");
    let streamed = drain(&mut s);
    assert_eq!(streamed, file.sequence.events);
    assert_eq!(streamed, vec![on(480, 9, 1), on(480, 2, 2), on(480, 0, 3), on(480, 5, 4)]);
}

#[test]
fn peek_does_not_consume_and_next_is_next_event() {
    let mut s = MidiStream::from_smf(two_tracks(), 64_000).expect("valid file");
    assert_eq!(s.peek(), Some(on(0, 0, 60)));
    assert_eq!(s.peek(), Some(on(0, 0, 60)));
    assert_eq!(s.next(), Some(on(0, 0, 60)));
    assert_eq!(s.peek(), Some(on(32_000, 1, 40)));
}

#[test]
fn rewind_restarts_the_stream() {
    let mut s = MidiStream::from_smf(two_tracks(), 64_000).expect("valid file");
    let first = drain(&mut s);
    s.rewind();
    assert!(!s.is_exhausted());
    assert_eq!(drain(&mut s), first);
}

#[test]
fn stream_rejects_what_the_file_parse_rejects() {
    let smpte = SmfData { timing: SmfTiming::Timecode(25, 40), tracks: vec![] };
    assert_eq!(MidiStream::from_smf(smpte, 64_000).err(), Some(MidiError::SmpteTiming));
    let zero = SmfData { timing: SmfTiming::Metrical(0), tracks: vec![] };
    assert_eq!(MidiStream::from_smf(zero, 64_000).err(), Some(MidiError::ZeroTicksPerBeat));
    assert!(matches!(MidiStream::parse(b"nope", 64_000), Err(MidiError::Parse(_))));
}

#[test]
fn empty_file_stream_is_exhausted() {
    let data = SmfData { timing: SmfTiming::Metrical(96), tracks: vec![vec![], vec![]] };
    let mut s = MidiStream::from_smf(data, 48_000).expect("valid file");
    assert!(s.is_exhausted());
    assert_eq!(s.end_sample(), 0);
    assert_eq!(s.next_event(), None);
}

#[test]
fn stream_parses_raw_bytes() {
    let raw: Vec<u8> = vec![
        b'M', b'T', b'h', b'd', 0, 0, 0, 6, 0, 0, 0, 1, 0x01, 0xE0, b'M', b'T', b'r', b'k', 0, 0, 0, 8,
        0x00, 0x90, 60, 100, 0x00, 0xFF, 0x2F, 0x00,
    ];
    let mut s = MidiStream::parse(&raw, 64_000).expect("valid file");
    assert_eq!(drain(&mut s), vec![on(0, 0, 60)]);
}

#[test]
fn stream_roundtrip_small() {
    // Two tracks, a tempo change and a running-status note stream.
    let raw: Vec<u8> = vec![
        b'M', b'T', b'h', b'd', 0, 0, 0, 6, 0, 1, 0, 2, 0x01, 0xE0, // format 1, 2 tracks, 480 tpb
        b'M', b'T', b'r', b'k', 0, 0, 0, 11, //
        0x00, 0xFF, 0x51, 0x03, 0x07, 0xA1, 0x20, // tempo 500000
        0x00, 0xFF, 0x2F, 0x00, //
        b'M', b'T', b'r', b'k', 0, 0, 0, 23, //
        0x00, 0x90, 60, 100, // note on
        0x60, 62, 90, // running status, 96 ticks later
        0x83, 0x60, 0x80, 60, 0, // note off 480 ticks later
        0x00, 62, 0, // running status note off
        0x00, 0x90, 64, 0, // note on velocity 0
        0x00, 0xFF, 0x2F, 0x00,
    ];
    let midi = MidiStream::parse(&raw, 64_000).unwrap();
    assert!(midi.end_sample() > 0);
    assert!(!midi.is_exhausted());
    let mut s = midi;
    let mut last_sample = 0u64;
    let mut count = 0usize;
    while let Some(ev) = s.next_event() {
        assert!(ev.sample >= last_sample, "stream must be sorted");
        last_sample = ev.sample;
        count += 1;
    }
    assert!(count > 0);
    assert_eq!(count, 5);
    assert!(s.is_exhausted());
}

#[test]
fn remaining_events_drain_the_file_schedule() {
    let data = two_tracks();
    let file = MidiFile::from_smf(&data, 48_000).expect("valid file");
    let mut s = MidiStream::from_smf(data, 48_000).expect("valid file");
    let first = s.next_event().expect("an event");
    let mut all = vec![first];
    all.extend(s.remaining_events());
    assert_eq!(all, file.sequence.events);
    assert!(s.is_exhausted());
    assert_eq!(s.remaining_events(), vec![]);
}
