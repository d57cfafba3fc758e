//! Writing a schedule back as a standard MIDI file.
//!
//! A [`MidiFile`] keeps its events at output samples, not at ticks. It is
//! written as a one-track file whose timing makes one tick exactly one
//! output sample: `ticks per beat × 1 000 000 = tempo × sample rate`, with
//! that tempo set at tick 0. Scheduling that file at the same sample rate
//! gives the same events at the same samples and the same end: this is
//! proved of the decoded file ([`encoded_file`]). That `lumino-midly`
//! writes it as bytes that it decodes back to that file is the outside
//! crate's part; it is tested, not proved.

use crate::midi::parser::{
    file_events, file_length, file_tempos, file_tpb, schedule, smf_rejection, tick_after, ticks_fit,
    timed, timing_order, track_events, track_tempos, MidiFile,
};
use crate::error::MidiError;
use crate::midi::smf::{ChannelMessage, SmfData, SmfEvent, SmfEventKind, SmfTiming};
use crate::midi::sort::{lemma_stable_order_sorted, stable_order, tagged};
use crate::midi::tempo::{
    beat_time, changes_up_to, clamp_u64, round_div, seg_start, seg_tempo, tick_to_sample, time_at_change,
};
use crate::midi::{midi_event_of, MidiEvent, TimedEvent};
use vstd::prelude::*;

verus! {

/// The channel message that reads back as `e`.
pub open spec fn message_for(e: MidiEvent) -> ChannelMessage {
    match e {
        MidiEvent::NoteOn { key, vel } => ChannelMessage::NoteOn { key, vel },
        MidiEvent::NoteOff { key } => ChannelMessage::NoteOff { key, vel: 0 },
        MidiEvent::ControlChange { controller, value } => ChannelMessage::Controller { controller, value },
        MidiEvent::ProgramChange { program } => ChannelMessage::ProgramChange { program },
        MidiEvent::PitchBend { value } => ChannelMessage::PitchBend { bend: value },
    }
}

/// The sample of the event before event `i` (0 before the first).
pub open spec fn sample_before(evs: Seq<TimedEvent>, i: int) -> int {
    if i <= 0 {
        0
    } else {
        evs[i - 1].sample as int
    }
}

/// The sample of the last event (0 without events).
pub open spec fn last_sample(evs: Seq<TimedEvent>) -> int {
    sample_before(evs, evs.len() as int)
}

/// Events that a one-track file can carry: in sample order, gaps (and the
/// gap to `end`) within a `u32` delta, no note-on of velocity 0 (it would
/// read back as a note-off).
#[verifier::opaque]
pub open spec fn encodable(evs: Seq<TimedEvent>, end: u64) -> bool {
    &&& forall|i: int, j: int| 0 <= i < j < evs.len() ==> (#[trigger] evs[i]).sample <= (#[trigger] evs[j]).sample
    &&& forall|i: int| 0 <= i < evs.len() ==> (#[trigger] evs[i]).sample - sample_before(evs, i) <= u32::MAX
    &&& last_sample(evs) <= end
    &&& end - last_sample(evs) <= u32::MAX
    &&& forall|i: int| 0 <= i < evs.len() ==> !((#[trigger] evs[i]).event matches MidiEvent::NoteOn { vel, .. } && vel == 0)
}

/// Ticks per beat `tpb` make one tick one sample at `sample_rate` Hz with
/// a tempo (in µs per beat) that fits the 24-bit tempo field.
pub open spec fn timing_fits(sample_rate: u32, tpb: int) -> bool {
    &&& sample_rate > 0
    &&& 1 <= tpb <= 32767
    &&& (1_000_000 * tpb) % (sample_rate as int) == 0
    &&& (1_000_000 * tpb) / (sample_rate as int) <= 0xFF_FFFF
}

/// The smallest ticks per beat that fit `sample_rate` (see
/// [`timing_fits`]) with its tempo, if any fits.
pub open spec fn rate_timing(sample_rate: u32) -> Option<(u16, u32)> {
    if exists|t: int| timing_fits(sample_rate, t) {
        let t0 = choose|t: int| timing_fits(sample_rate, t) && forall|u: int| 1 <= u < t ==> !timing_fits(sample_rate, u);
        Some((t0 as u16, ((1_000_000 * t0) / (sample_rate as int)) as u32))
    } else {
        None
    }
}

/// The track written for `evs` ending at `end`: the tempo at tick 0, one
/// channel event per event, the end of track at `end`.
pub open spec fn encoded_track(evs: Seq<TimedEvent>, end: u64, tempo: u32) -> Seq<SmfEvent> {
    seq![SmfEvent { delta: 0, kind: SmfEventKind::Tempo(tempo) }] + Seq::new(
        evs.len(),
        |i: int|
            SmfEvent {
                delta: (evs[i].sample - sample_before(evs, i)) as u32,
                kind: SmfEventKind::Channel { channel: evs[i].channel, message: message_for(evs[i].event) },
            },
    ) + seq![SmfEvent { delta: (end - last_sample(evs)) as u32, kind: SmfEventKind::EndOfTrack }]
}

/// The file written for `evs` ending at `end`.
pub open spec fn encoded_file(evs: Seq<TimedEvent>, end: u64, tpb: u16, tempo: u32) -> (SmfTiming, Seq<Seq<SmfEvent>>) {
    (SmfTiming::Metrical(tpb), seq![encoded_track(evs, end, tempo)])
}

proof fn lemma_encoded_ticks(evs: Seq<TimedEvent>, end: u64, tempo: u32, k: int)
    requires
        encodable(evs, end),
        0 <= k <= evs.len() + 2,
    ensures
        tick_after(encoded_track(evs, end, tempo), k) == if k <= 1 {
            0
        } else if k <= evs.len() + 1 {
            evs[k - 2].sample as int
        } else {
            end as int
        },
    decreases k,
{
    reveal(encodable);
    let tr = encoded_track(evs, end, tempo);
    if k > 0 {
        lemma_encoded_ticks(evs, end, tempo, k - 1);
        if k >= 2 && k <= evs.len() + 1 {
            assert(tr[k - 1].delta == evs[k - 2].sample - sample_before(evs, k - 2));
        } else if k == evs.len() + 2 {
            assert(tr[k - 1].delta == end - last_sample(evs));
        }
    }
}

proof fn lemma_encoded_events(evs: Seq<TimedEvent>, end: u64, tempo: u32, k: int)
    requires
        encodable(evs, end),
        0 <= k <= evs.len() + 2,
    ensures
        track_events(encoded_track(evs, end, tempo), k) == Seq::new(
            (if k <= 1 { 0 } else if k <= evs.len() + 1 { k - 1 } else { evs.len() as int }) as nat,
            |i: int| (evs[i].sample, evs[i].channel, evs[i].event),
        ),
        track_tempos(encoded_track(evs, end, tempo), k) == if k == 0 {
            Seq::<(u64, u32)>::empty()
        } else {
            seq![(0u64, tempo)]
        },
    decreases k,
{
    reveal(encodable);
    let tr = encoded_track(evs, end, tempo);
    if k > 0 {
        lemma_encoded_events(evs, end, tempo, k - 1);
        lemma_encoded_ticks(evs, end, tempo, k);
        if k >= 2 && k <= evs.len() + 1 {
            let e = evs[k - 2];
            assert(tr[k - 1].kind == SmfEventKind::Channel { channel: e.channel, message: message_for(e.event) });
            assert(midi_event_of(message_for(e.event)) == Some(e.event));
        }
        let f = |i: int| (evs[i].sample, evs[i].channel, evs[i].event);
        let cur = track_events(tr, k);
        let m: int = if k <= 1 { 0 } else if k <= evs.len() + 1 { k - 1 } else { evs.len() as int };
        assert(cur =~= Seq::new(m as nat, f));
        if k == 1 {
            assert(track_tempos(tr, 1) =~= seq![(0u64, tempo)]);
        }
    }
}

/// Without tempo map detail: one tempo `tempo` at tick 0 with
/// `tempo × rate = 1 000 000 × tpb` places every tick on its own sample.
proof fn lemma_tick_is_sample(tempo: u32, tpb: nat, sample_rate: nat, x: nat)
    requires
        tpb > 0,
        tempo as nat * sample_rate == 1_000_000 * tpb,
        x <= u64::MAX,
    ensures
        tick_to_sample(seq![(0u64, tempo)], tpb, sample_rate, x) == x,
{
    let t = seq![(0u64, tempo)];
    assert(changes_up_to(t.drop_last(), x) == 0);
    assert(changes_up_to(t, x) == 1);
    assert(time_at_change(t, 0) == 0);
    assert(seg_start(t, 1) == 0 && seg_start(t, 0) == 0);
    assert(crate::midi::tempo::nat_sub(seg_start(t, 1), seg_start(t, 0)) == 0);
    assert(time_at_change(t, 1) == 0);
    assert(seg_tempo(t, 1) == tempo);
    assert(beat_time(t, x) == x * tempo);
    let k = 1_000_000 * tpb;
    assert(x * tempo * sample_rate == x * k) by (nonlinear_arith)
        requires
            tempo as nat * sample_rate == k,
    ;
    assert((2 * (x * k) + k) / (2 * k) == x) by (nonlinear_arith)
        requires
            k > 0,
    ;
}

proof fn lemma_single_tempo_order(tempo: u32)
    ensures
        timing_order(seq![(0u64, tempo)]) == seq![(0u64, tempo)],
{
    let s = seq![(0u64, tempo)].map_values(|p: (u64, u32)| (p.0 as u128, p.1));
    lemma_stable_order_sorted(s);
    assert(tagged(s) =~= seq![(0u128, 0usize, tempo)]);
    assert(timing_order(seq![(0u64, tempo)]) =~= seq![(0u64, tempo)]);
}

/// The written file reads back as the schedule it was written from: the
/// same events at the same samples, and the same end.
pub proof fn lemma_encoded_reads_back(evs: Seq<TimedEvent>, end: u64, tpb: u16, tempo: u32, sample_rate: u32)
    requires
        encodable(evs, end),
        evs.len() <= usize::MAX,
        tpb > 0,
        tempo as nat * sample_rate as nat == 1_000_000 * tpb,
    ensures
        ({
            let c = encoded_file(evs, end, tpb, tempo);
            let order = timing_order(file_tempos(c.1, 1));
            &&& smf_rejection(c) is None
            &&& schedule(timed(file_events(c.1, 1), order, tpb as nat, sample_rate as nat)) == evs
            &&& tick_to_sample(order, tpb as nat, sample_rate as nat, file_length(c.1, 1)) == end
        }),
{
    reveal(encodable);
    let c = encoded_file(evs, end, tpb, tempo);
    let tr = encoded_track(evs, end, tempo);
    let n = tr.len() as int;
    assert(n == evs.len() + 2);
    lemma_encoded_ticks(evs, end, tempo, n);
    lemma_encoded_events(evs, end, tempo, n);
    assert(c.1[0] == tr);
    assert(ticks_fit(c.1));
    assert(file_events(c.1, 0) =~= Seq::<(u64, u8, MidiEvent)>::empty());
    assert(file_tempos(c.1, 0) =~= Seq::<(u64, u32)>::empty());
    assert(file_events(c.1, 1) =~= track_events(tr, n));
    assert(file_tempos(c.1, 1) =~= seq![(0u64, tempo)]);
    assert(c.1[0].len() == n);
    assert(tick_after(c.1[0], n) == end);
    assert(file_length(c.1, 0) == 0);
    assert(file_length(c.1, 1) == end);
    lemma_single_tempo_order(tempo);
    let order = seq![(0u64, tempo)];
    let te = timed(file_events(c.1, 1), order, tpb as nat, sample_rate as nat);
    assert forall|i: int| 0 <= i < evs.len() implies #[trigger] te[i] == evs[i] by {
        lemma_tick_is_sample(tempo, tpb as nat, sample_rate as nat, evs[i].sample as nat);
    }
    assert(te =~= evs);
    lemma_tick_is_sample(tempo, tpb as nat, sample_rate as nat, end as nat);
    let keyed = evs.map_values(|e: TimedEvent| (crate::midi::parser::event_key(e), e));
    assert forall|i: int, j: int| 0 <= i < j < keyed.len() implies (#[trigger] keyed[i]).0 <= (#[trigger] keyed[j]).0 by {
        assert(evs[i].sample <= evs[j].sample);
    }
    lemma_stable_order_sorted(keyed);
    assert(schedule(evs) =~= evs);
}

/// Every schedule of the written file is the schedule it was written from.
pub proof fn lemma_encoded_schedules(evs: Seq<TimedEvent>, end: u64, tpb: u16, tempo: u32, sample_rate: u32)
    requires
        encodable(evs, end),
        evs.len() <= usize::MAX,
        tpb > 0,
        tempo as nat * sample_rate as nat == 1_000_000 * tpb,
    ensures
        smf_rejection(encoded_file(evs, end, tpb, tempo)) is None,
        forall|g: MidiFile|
            #[trigger] g.is_schedule_of(encoded_file(evs, end, tpb, tempo), sample_rate) ==> g.sequence.events@
                == evs && g.sequence.end_sample == end,
{
    let c = encoded_file(evs, end, tpb, tempo);
    lemma_encoded_reads_back(evs, end, tpb, tempo, sample_rate);
    assert(c.1.len() == 1);
    assert(file_tpb(c) == tpb);
}

fn message_of_event(e: MidiEvent) -> (m: ChannelMessage)
    ensures
        m == message_for(e),
{
    match e {
        MidiEvent::NoteOn { key, vel } => ChannelMessage::NoteOn { key, vel },
        MidiEvent::NoteOff { key } => ChannelMessage::NoteOff { key, vel: 0 },
        MidiEvent::ControlChange { controller, value } => ChannelMessage::Controller { controller, value },
        MidiEvent::ProgramChange { program } => ChannelMessage::ProgramChange { program },
        MidiEvent::PitchBend { value } => ChannelMessage::PitchBend { bend: value },
    }
}

/// The smallest ticks per beat that make one tick one sample at
/// `sample_rate` Hz, with its tempo.
pub fn timing_for_rate(sample_rate: u32) -> (r: Option<(u16, u32)>)
    ensures
        r == rate_timing(sample_rate),
        r is None <==> forall|t: int| !timing_fits(sample_rate, t),
        r matches Some((tpb, tempo)) ==> {
            &&& timing_fits(sample_rate, tpb as int)
            &&& tempo as int == (1_000_000 * tpb) / (sample_rate as int)
            &&& tempo as nat * sample_rate as nat == 1_000_000 * tpb
        },
{
    if sample_rate == 0 {
        return None;
    }
    let mut tpb: u64 = 1;
    while tpb <= 32767
        invariant
            sample_rate > 0,
            1 <= tpb <= 32768,
            forall|t: int| 1 <= t < tpb ==> !timing_fits(sample_rate, t),
        decreases 32768 - tpb,
    {
        let num: u64 = 1_000_000 * tpb;
        if num % (sample_rate as u64) == 0 {
            let tempo: u64 = num / (sample_rate as u64);
            if tempo <= 0xFF_FFFF {
                let ghost ni: int = num as int;
                let ghost si: int = sample_rate as int;
                assert(tempo * si == ni) by (nonlinear_arith)
                    requires
                        ni % si == 0,
                        tempo == ni / si,
                        si > 0,
                ;
                assert(timing_fits(sample_rate, tpb as int));
                proof {
                    let t0 = choose|t: int|
                        timing_fits(sample_rate, t) && forall|u: int| 1 <= u < t ==> !timing_fits(sample_rate, u);
                    assert(timing_fits(sample_rate, tpb as int) && forall|u: int| 1 <= u < tpb ==> !timing_fits(sample_rate, u));
                    if t0 < tpb {
                    } else if t0 > tpb {
                        assert(!timing_fits(sample_rate, tpb as int));
                    }
                    assert(t0 == tpb);
                }
                return Some((tpb as u16, tempo as u32));
            }
        }
        tpb = tpb + 1;
    }
    None
}

/// Whether `evs` ending at `end` can be written (see [`encodable`]).
#[verifier::rlimit(40)]
fn check_encodable(evs: &Vec<TimedEvent>, end: u64) -> (r: bool)
    ensures
        r == encodable(evs@, end),
{
    reveal(encodable);
    let ghost s = evs@;
    let n = evs.len();
    let mut prev: u64 = 0;
    let mut i: usize = 0;
    while i < n
        invariant
            s == evs@,
            n == s.len(),
            i <= n,
            prev == sample_before(s, i as int),
            forall|a: int, b: int| 0 <= a < b < i ==> (#[trigger] s[a]).sample <= (#[trigger] s[b]).sample,
            forall|a: int| 0 <= a < i ==> (#[trigger] s[a]).sample - sample_before(s, a) <= u32::MAX,
            forall|a: int| 0 <= a < i ==> !((#[trigger] s[a]).event matches MidiEvent::NoteOn { vel, .. } && vel == 0),
        decreases n - i,
    {
        proof {
            reveal(encodable);
        }
        let e = evs[i];
        if e.sample < prev {
            proof {
                assert(s[i - 1].sample > s[i as int].sample);
            }
            return false;
        }
        if e.sample - prev > 0xFFFF_FFFF {
            proof {
                assert(s[i as int].sample - sample_before(s, i as int) > u32::MAX);
            }
            return false;
        }
        if let MidiEvent::NoteOn { vel, .. } = e.event {
            if vel == 0 {
                proof {
                    assert(s[i as int].event matches MidiEvent::NoteOn { vel, .. } && vel == 0);
                }
                return false;
            }
        }
        proof {
            assert forall|a: int, b: int| 0 <= a < b < i + 1 implies (#[trigger] s[a]).sample <= (
            #[trigger] s[b]).sample by {
                if b == i && a < i as int - 1 {
                    assert(s[a].sample <= s[i - 1].sample);
                }
            }
        }
        prev = e.sample;
        i = i + 1;
    }
    end >= prev && end - prev <= 0xFFFF_FFFF
}

/// The channel events of the written track.
fn build_events(evs: &Vec<TimedEvent>, end: u64) -> (r: Vec<SmfEvent>)
    requires
        encodable(evs@, end),
    ensures
        r@ == encoded_track(evs@, end, 0).subrange(1, evs@.len() as int + 1),
{
    reveal(encodable);
    let ghost s = evs@;
    let n = evs.len();
    let mut track: Vec<SmfEvent> = Vec::new();
    let mut prev: u64 = 0;
    let mut i: usize = 0;
    while i < n
        invariant
            s == evs@,
            n == s.len(),
            i <= n,
            encodable(s, end),
            prev == sample_before(s, i as int),
            track@ =~= encoded_track(s, end, 0).subrange(1, i + 1),
        decreases n - i,
    {
        let e = evs[i];
        proof {
            reveal(encodable);
            if i > 0 {
                assert(s[i - 1].sample <= s[i as int].sample);
            }
            assert(s[i as int].sample - sample_before(s, i as int) <= u32::MAX);
        }
        track.push(SmfEvent {
            delta: (e.sample - prev) as u32,
            kind: SmfEventKind::Channel { channel: e.channel, message: message_of_event(e.event) },
        });
        prev = e.sample;
        i = i + 1;
    }
    track
}

/// The variable-length quantity of `x` (below 2^28): seven bits per byte,
/// most significant first, every byte but the last with its top bit set.
pub open spec fn varint(x: nat) -> Seq<u8> {
    if x < 0x80 {
        seq![x as u8]
    } else if x < 0x4000 {
        seq![(x / 0x80 + 0x80) as u8, (x % 0x80) as u8]
    } else if x < 0x20_0000 {
        seq![(x / 0x4000 + 0x80) as u8, ((x / 0x80) % 0x80 + 0x80) as u8, (x % 0x80) as u8]
    } else {
        seq![
            (x / 0x20_0000 + 0x80) as u8,
            ((x / 0x4000) % 0x80 + 0x80) as u8,
            ((x / 0x80) % 0x80 + 0x80) as u8,
            (x % 0x80) as u8,
        ]
    }
}

/// A channel message that a file can hold: data bytes below 128, a bend
/// below 16384, and a message kind the scheduler reads.
pub open spec fn message_writable(m: ChannelMessage) -> bool {
    match m {
        ChannelMessage::NoteOff { key, vel } => key < 128 && vel < 128,
        ChannelMessage::NoteOn { key, vel } => key < 128 && vel < 128,
        ChannelMessage::Controller { controller, value } => controller < 128 && value < 128,
        ChannelMessage::ProgramChange { program } => program < 128,
        ChannelMessage::PitchBend { bend } => bend < 0x4000,
        _ => false,
    }
}

/// An event that a file can hold: a delta below 2^28, and a channel event
/// on channels 0-15, a tempo below 2^24 or the end of track.
pub open spec fn event_writable(e: SmfEvent) -> bool {
    &&& e.delta < 0x1000_0000
    &&& match e.kind {
        SmfEventKind::Channel { channel, message } => channel < 16 && message_writable(message),
        SmfEventKind::Tempo(t) => t < 0x100_0000,
        SmfEventKind::EndOfTrack => true,
        _ => false,
    }
}

/// The bytes of an event's payload.
pub open spec fn kind_bytes(k: SmfEventKind) -> Seq<u8> {
    match k {
        SmfEventKind::Channel { channel, message } => match message {
            ChannelMessage::NoteOff { key, vel } => seq![(0x80 + channel) as u8, key, vel],
            ChannelMessage::NoteOn { key, vel } => seq![(0x90 + channel) as u8, key, vel],
            ChannelMessage::Controller { controller, value } => seq![(0xB0 + channel) as u8, controller, value],
            ChannelMessage::ProgramChange { program } => seq![(0xC0 + channel) as u8, program],
            ChannelMessage::PitchBend { bend } => seq![(0xE0 + channel) as u8, (bend % 0x80) as u8, (bend / 0x80) as u8],
            _ => seq![],
        },
        SmfEventKind::Tempo(t) => seq![0xFFu8, 0x51u8, 0x03u8, (t / 0x1_0000) as u8, ((t / 0x100) % 0x100) as u8, (t % 0x100) as u8],
        SmfEventKind::EndOfTrack => seq![0xFFu8, 0x2Fu8, 0x00u8],
        _ => seq![],
    }
}

/// The bytes of a track's events: each delta, then its payload.
pub open spec fn track_bytes(tr: Seq<SmfEvent>) -> Seq<u8>
    decreases tr.len(),
{
    if tr.len() == 0 {
        seq![]
    } else {
        track_bytes(tr.drop_last()) + varint(tr.last().delta as nat) + kind_bytes(tr.last().kind)
    }
}

/// `x` as four big-endian bytes.
pub open spec fn be32(x: nat) -> Seq<u8> {
    seq![(x / 0x100_0000) as u8, ((x / 0x1_0000) % 0x100) as u8, ((x / 0x100) % 0x100) as u8, (x % 0x100) as u8]
}

/// A one-track (format 0) standard MIDI file with `tpb` ticks per beat.
pub open spec fn file_bytes(tpb: u16, tr: Seq<SmfEvent>) -> Seq<u8> {
    seq![0x4Du8, 0x54u8, 0x68u8, 0x64u8, 0u8, 0u8, 0u8, 6u8, 0u8, 0u8, 0u8, 1u8, (tpb / 0x100) as u8, (tpb % 0x100) as u8]
        + seq![0x4Du8, 0x54u8, 0x72u8, 0x6Bu8] + be32(track_bytes(tr).len()) + track_bytes(tr)
}

/// A decoded file that [`write_smf`] can write: metrical timing below
/// 32768 ticks per beat, one track, writable events, a track below 4 GiB.
pub open spec fn smf_writable(c: (SmfTiming, Seq<Seq<SmfEvent>>)) -> bool {
    &&& c.0 matches SmfTiming::Metrical(tpb) && tpb < 0x8000
    &&& c.1.len() == 1
    &&& forall|i: int| 0 <= i < c.1[0].len() ==> event_writable(#[trigger] c.1[0][i])
    &&& track_bytes(c.1[0]).len() <= u32::MAX
}

fn push_varint(out: &mut Vec<u8>, x: u32)
    requires
        x < 0x1000_0000,
    ensures
        final(out)@ == old(out)@ + varint(x as nat),
{
    let ghost before = out@;
    if x < 0x80 {
        out.push(x as u8);
    } else if x < 0x4000 {
        out.push((x / 0x80 + 0x80) as u8);
        out.push((x % 0x80) as u8);
    } else if x < 0x20_0000 {
        out.push((x / 0x4000 + 0x80) as u8);
        out.push(((x / 0x80) % 0x80 + 0x80) as u8);
        out.push((x % 0x80) as u8);
    } else {
        out.push((x / 0x20_0000 + 0x80) as u8);
        out.push(((x / 0x4000) % 0x80 + 0x80) as u8);
        out.push(((x / 0x80) % 0x80 + 0x80) as u8);
        out.push((x % 0x80) as u8);
    }
    assert(out@ =~= before + varint(x as nat));
}

fn push_kind(out: &mut Vec<u8>, k: SmfEventKind)
    ensures
        final(out)@ == old(out)@ + kind_bytes(k),
{
    let ghost before = out@;
    match k {
        SmfEventKind::Channel { channel, message } => {
            let ch = channel as u16;
            match message {
                ChannelMessage::NoteOff { key, vel } => {
                    out.push((0x80 + ch) as u8);
                    out.push(key);
                    out.push(vel);
                },
                ChannelMessage::NoteOn { key, vel } => {
                    out.push((0x90 + ch) as u8);
                    out.push(key);
                    out.push(vel);
                },
                ChannelMessage::Controller { controller, value } => {
                    out.push((0xB0 + ch) as u8);
                    out.push(controller);
                    out.push(value);
                },
                ChannelMessage::ProgramChange { program } => {
                    out.push((0xC0 + ch) as u8);
                    out.push(program);
                },
                ChannelMessage::PitchBend { bend } => {
                    out.push((0xE0 + ch) as u8);
                    out.push((bend % 0x80) as u8);
                    out.push((bend / 0x80) as u8);
                },
                _ => {},
            }
        },
        SmfEventKind::Tempo(t) => {
            out.push(0xFF);
            out.push(0x51);
            out.push(0x03);
            out.push((t / 0x1_0000) as u8);
            out.push(((t / 0x100) % 0x100) as u8);
            out.push((t % 0x100) as u8);
        },
        SmfEventKind::EndOfTrack => {
            out.push(0xFF);
            out.push(0x2F);
            out.push(0x00);
        },
        _ => {},
    }
    assert(out@ =~= before + kind_bytes(k));
}

fn check_event(e: SmfEvent) -> (r: bool)
    ensures
        r == event_writable(e),
{
    if e.delta >= 0x1000_0000 {
        return false;
    }
    match e.kind {
        SmfEventKind::Channel { channel, message } => channel < 16 && match message {
            ChannelMessage::NoteOff { key, vel } => key < 128 && vel < 128,
            ChannelMessage::NoteOn { key, vel } => key < 128 && vel < 128,
            ChannelMessage::Controller { controller, value } => controller < 128 && value < 128,
            ChannelMessage::ProgramChange { program } => program < 128,
            ChannelMessage::PitchBend { bend } => bend < 0x4000,
            _ => false,
        },
        SmfEventKind::Tempo(t) => t < 0x100_0000,
        SmfEventKind::EndOfTrack => true,
        _ => false,
    }
}

/// The bytes of a decoded one-track file (see [`file_bytes`]); `None`
/// when it cannot be written (see [`smf_writable`]).
pub fn write_smf(d: &SmfData) -> (r: Option<Vec<u8>>)
    ensures
        r is Some <==> smf_writable(d@),
        r matches Some(b) ==> d@.0 matches SmfTiming::Metrical(tpb) && b@ == file_bytes(tpb, d@.1[0]),
{
    let tpb = match d.timing {
        SmfTiming::Metrical(t) => t,
        SmfTiming::Timecode(_, _) => {
            return None;
        },
    };
    if tpb >= 0x8000 || d.tracks.len() != 1 {
        return None;
    }
    let tr = &d.tracks[0];
    let ghost t = tr@;
    assert(t == d@.1[0]);
    let mut body: Vec<u8> = Vec::new();
    let mut i: usize = 0;
    while i < tr.len()
        invariant
            t == tr@,
            t == d@.1[0],
            d@.1.len() == 1,
            i <= t.len(),
            body@ == track_bytes(t.take(i as int)),
            forall|j: int| 0 <= j < i ==> event_writable(#[trigger] t[j]),
        decreases t.len() - i,
    {
        let e = tr[i];
        if !check_event(e) {
            proof {
                assert(t[i as int] == e);
                assert(!event_writable(d@.1[0][i as int]));
            }
            return None;
        }
        push_varint(&mut body, e.delta);
        push_kind(&mut body, e.kind);
        proof {
            assert(t.take(i + 1).drop_last() =~= t.take(i as int));
        }
        i = i + 1;
    }
    proof {
        assert(t.take(t.len() as int) =~= t);
    }
    if body.len() > 0xFFFF_FFFF {
        return None;
    }
    let len = body.len() as u64;
    let mut out: Vec<u8> = Vec::new();
    out.push(0x4D);
    out.push(0x54);
    out.push(0x68);
    out.push(0x64);
    out.push(0);
    out.push(0);
    out.push(0);
    out.push(6);
    out.push(0);
    out.push(0);
    out.push(0);
    out.push(1);
    out.push((tpb / 0x100) as u8);
    out.push((tpb % 0x100) as u8);
    out.push(0x4D);
    out.push(0x54);
    out.push(0x72);
    out.push(0x6B);
    out.push((len / 0x100_0000) as u8);
    out.push(((len / 0x1_0000) % 0x100) as u8);
    out.push(((len / 0x100) % 0x100) as u8);
    out.push((len % 0x100) as u8);
    let ghost head = out@;
    out.append(&mut body);
    assert(out@ =~= file_bytes(tpb, t));
    Some(out)
}

/// The written track (see [`encoded_track`]).
fn build_track(evs: &Vec<TimedEvent>, end: u64, tempo: u32) -> (r: Vec<SmfEvent>)
    requires
        encodable(evs@, end),
    ensures
        r@ == encoded_track(evs@, end, tempo),
{
    reveal(encodable);
    let ghost s = evs@;
    let mut body = build_events(evs, end);
    let last: u64 = if evs.len() == 0 {
        0
    } else {
        evs[evs.len() - 1].sample
    };
    let mut full: Vec<SmfEvent> = Vec::new();
    full.push(SmfEvent { delta: 0, kind: SmfEventKind::Tempo(tempo) });
    full.append(&mut body);
    full.push(SmfEvent { delta: (end - last) as u32, kind: SmfEventKind::EndOfTrack });
    proof {
        let tr = encoded_track(s, end, tempo);
        assert forall|k: int| 1 <= k <= s.len() implies #[trigger] tr[k] == encoded_track(s, end, 0)[k] by {}
        assert(full@ =~= tr);
    }
    full
}

impl MidiFile {
    /// The schedule as a one-track file in which one tick is one output
    /// sample (see the module documentation). `None` when its events cannot
    /// be carried (see [`encodable`]) or no timing fits the sample rate.
    #[verifier::spinoff_prover]
    #[verifier::rlimit(60)]
    pub fn to_smf(&self) -> (r: Option<SmfData>)
        ensures
            r is Some <==> encodable(self.sequence.events@, self.sequence.end_sample) && exists|t: int|
                timing_fits(self.sample_rate, t),
            r matches Some(d) ==> {
                &&& rate_timing(self.sample_rate) matches Some((tpb, tempo)) && d@ == encoded_file(
                    self.sequence.events@,
                    self.sequence.end_sample,
                    tpb,
                    tempo,
                )
                &&& smf_rejection(d@) is None
                &&& forall|g: MidiFile|
                    #[trigger] g.is_schedule_of(d@, self.sample_rate) ==> g.sequence.events@
                        == self.sequence.events@ && g.sequence.end_sample == self.sequence.end_sample
            },
    {
        let evs = &self.sequence.events;
        let end = self.sequence.end_sample;
        if !check_encodable(evs, end) {
            return None;
        }
        let (tpb, tempo) = match timing_for_rate(self.sample_rate) {
            None => {
                return None;
            },
            Some(t) => t,
        };
        let full = build_track(evs, end, tempo);
        let mut tracks: Vec<Vec<SmfEvent>> = Vec::new();
        tracks.push(full);
        let d = SmfData { timing: SmfTiming::Metrical(tpb), tracks };
        proof {
            let ghost s = evs@;
            assert(s.len() == evs.len());
            assert(d@.1 =~= encoded_file(s, end, tpb, tempo).1);
            assert(d@ == encoded_file(s, end, tpb, tempo));
            lemma_encoded_schedules(s, end, tpb, tempo, self.sample_rate);
        }
        Some(d)
    }

    /// Writes this schedule back as standard MIDI file bytes: one track in
    /// which one tick is one output sample (see the module documentation).
    /// The bytes are what `lumino-midly` writes for [`MidiFile::to_smf`],
    /// whose file schedules as the same events at the same samples; that
    /// the bytes decode back to that file rests on the outside crate. Fails
    /// with [`MidiError::Unwritable`] when no timing fits the sample rate
    /// or an event cannot be carried by a file.
    pub fn save(&self) -> (res: Result<Vec<u8>, MidiError>)
        ensures
            match rate_timing(self.sample_rate) {
                None => res == Err::<Vec<u8>, MidiError>(MidiError::Unwritable),
                Some((tpb, tempo)) => if encodable(self.sequence.events@, self.sequence.end_sample)
                    && smf_writable(encoded_file(self.sequence.events@, self.sequence.end_sample, tpb, tempo)) {
                    res matches Ok(b) && b@ == file_bytes(
                        tpb,
                        encoded_track(self.sequence.events@, self.sequence.end_sample, tempo),
                    )
                } else {
                    res == Err::<Vec<u8>, MidiError>(MidiError::Unwritable)
                },
            },
    {
        match self.to_smf() {
            None => Err(MidiError::Unwritable),
            Some(d) => match write_smf(&d) {
                None => Err(MidiError::Unwritable),
                Some(b) => Ok(b),
            },
        }
    }
}

} // verus!
