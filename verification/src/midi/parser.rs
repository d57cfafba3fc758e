//! Sample-accurate scheduling of a standard MIDI file.
//!
//! [`MidiFile`] turns a decoded file into a [`MidiSequence`]: the channel
//! events of every track, placed at their output sample through the tempo
//! map and merged in ascending sample order.

use crate::error::MidiError;
use crate::midi::smf::{decode, decoded, SmfData, SmfEvent, SmfEventKind, SmfTiming};
use crate::midi::sort::{
    is_stable_order, lemma_map_multiset, lemma_order_member, lemma_stable_order_exists,
    lemma_stable_order_len, lemma_stable_order_min_first, stable_order, stable_sort, tagged,
};
use crate::midi::tempo::{seg_holds, tempos_sorted, tick_to_sample, TempoMap};
use crate::midi::{midi_event_from, midi_event_of, MidiEvent, MidiSequence, TimedEvent};
use vstd::prelude::*;

verus! {

broadcast use vstd::seq_lib::group_to_multiset_ensures;

/// Absolute tick after the first `n` events of `track`.
pub open spec fn tick_after(track: Seq<SmfEvent>, n: int) -> nat
    decreases n,
{
    if n <= 0 {
        0
    } else {
        tick_after(track, n - 1) + track[n - 1].delta as nat
    }
}

/// `(tick, channel, event)` of the synthesizer events among the first `n`
/// events of `track`.
pub open spec fn track_events(track: Seq<SmfEvent>, n: int) -> Seq<(u64, u8, MidiEvent)>
    decreases n,
{
    if n <= 0 {
        seq![]
    } else {
        let prev = track_events(track, n - 1);
        match track[n - 1].kind {
            SmfEventKind::Channel { channel, message } => match midi_event_of(message) {
                Some(e) => prev.push((tick_after(track, n) as u64, channel, e)),
                None => prev,
            },
            _ => prev,
        }
    }
}

/// `(tick, µs per quarter note)` of the tempo changes among the first `n`
/// events of `track`.
pub open spec fn track_tempos(track: Seq<SmfEvent>, n: int) -> Seq<(u64, u32)>
    decreases n,
{
    if n <= 0 {
        seq![]
    } else {
        let prev = track_tempos(track, n - 1);
        match track[n - 1].kind {
            SmfEventKind::Tempo(us) => prev.push((tick_after(track, n) as u64, us)),
            _ => prev,
        }
    }
}

/// Synthesizer events of the first `k` tracks, track after track.
pub open spec fn file_events(tracks: Seq<Seq<SmfEvent>>, k: int) -> Seq<(u64, u8, MidiEvent)>
    decreases k,
{
    if k <= 0 {
        seq![]
    } else {
        file_events(tracks, k - 1) + track_events(tracks[k - 1], tracks[k - 1].len() as int)
    }
}

/// Tempo changes of the first `k` tracks, track after track.
pub open spec fn file_tempos(tracks: Seq<Seq<SmfEvent>>, k: int) -> Seq<(u64, u32)>
    decreases k,
{
    if k <= 0 {
        seq![]
    } else {
        file_tempos(tracks, k - 1) + track_tempos(tracks[k - 1], tracks[k - 1].len() as int)
    }
}

/// The largest absolute tick of the first `k` tracks.
pub open spec fn file_length(tracks: Seq<Seq<SmfEvent>>, k: int) -> nat
    decreases k,
{
    if k <= 0 {
        0
    } else {
        let a = file_length(tracks, k - 1);
        let b = tick_after(tracks[k - 1], tracks[k - 1].len() as int);
        if a >= b { a } else { b }
    }
}

/// Every absolute tick of every track fits in a `u64`.
pub open spec fn ticks_fit(tracks: Seq<Seq<SmfEvent>>) -> bool {
    forall|t: int| 0 <= t < tracks.len() ==> tick_after(#[trigger] tracks[t], tracks[t].len() as int) <= u64::MAX
}

/// The tempo changes ordered by tick; changes at the same tick keep their
/// file order (the last one holds from that tick on).
pub open spec fn timing_order(tempos: Seq<(u64, u32)>) -> Seq<(u64, u32)> {
    stable_order(tempos.map_values(|p: (u64, u32)| (p.0 as u128, p.1))).map_values(
        |x: (u128, usize, u32)| (x.0 as u64, x.2),
    )
}

/// An event at the output sample of its tick.
pub open spec fn timed_one(
    e: (u64, u8, MidiEvent),
    tempos: Seq<(u64, u32)>,
    ticks_per_beat: nat,
    sample_rate: nat,
) -> TimedEvent {
    TimedEvent {
        sample: tick_to_sample(tempos, ticks_per_beat, sample_rate, e.0 as nat),
        channel: e.1,
        event: e.2,
    }
}

/// Each event at the output sample of its tick.
pub open spec fn timed(
    evs: Seq<(u64, u8, MidiEvent)>,
    tempos: Seq<(u64, u32)>,
    ticks_per_beat: nat,
    sample_rate: nat,
) -> Seq<TimedEvent> {
    evs.map_values(|e: (u64, u8, MidiEvent)| timed_one(e, tempos, ticks_per_beat, sample_rate))
}

/// Ticks per quarter note of a decoded file (0 for timecode timing).
pub open spec fn file_tpb(c: (SmfTiming, Seq<Seq<SmfEvent>>)) -> nat {
    match c.0 {
        SmfTiming::Metrical(t) => t as nat,
        SmfTiming::Timecode(_, _) => 0,
    }
}

/// The ordering key of a scheduled event: its sample.
pub open spec fn event_key(e: TimedEvent) -> u128 {
    e.sample as u128
}

/// The events in ascending sample order, events at the same sample kept in
/// their order (a stable sort by sample).
pub open spec fn schedule(evs: Seq<TimedEvent>) -> Seq<TimedEvent> {
    stable_order(evs.map_values(|e: TimedEvent| (event_key(e), e))).map_values(
        |x: (u128, usize, TimedEvent)| x.2,
    )
}

/// Why the decoded file `c` cannot be scheduled, if it cannot.
pub open spec fn smf_rejection(c: (SmfTiming, Seq<Seq<SmfEvent>>)) -> Option<MidiError> {
    match c.0 {
        SmfTiming::Timecode(_, _) => Some(MidiError::SmpteTiming),
        SmfTiming::Metrical(tpb) => if tpb == 0 {
            Some(MidiError::ZeroTicksPerBeat)
        } else if !ticks_fit(c.1) {
            Some(MidiError::TickOverflow)
        } else {
            None
        },
    }
}

/// A parsed MIDI file.
#[derive(Debug, Clone)]
pub struct MidiFile {
    /// The parsed, sample-accurate event sequence.
    pub sequence: MidiSequence,
    /// The sample rate the sequence was computed for.
    pub sample_rate: u32,
    /// Tempo events (tick position, microseconds per quarter note), in file order.
    pub tempos: Vec<(u64, u32)>,
    /// Total length of the song in ticks.
    pub length_ticks: u64,
}

impl MidiFile {
    /// `self` is the schedule of the decoded file `c` at `sample_rate` Hz.
    pub open spec fn is_schedule_of(&self, c: (SmfTiming, Seq<Seq<SmfEvent>>), sample_rate: u32) -> bool {
        let tracks = c.1;
        let tpb = file_tpb(c);
        let tempos = file_tempos(tracks, tracks.len() as int);
        let order = timing_order(tempos);
        &&& self.sample_rate == sample_rate
        &&& self.tempos@ == tempos
        &&& self.length_ticks == file_length(tracks, tracks.len() as int)
        &&& self.sequence.events@ == schedule(
            timed(file_events(tracks, tracks.len() as int), order, tpb, sample_rate as nat),
        )
        &&& self.sequence.end_sample == tick_to_sample(order, tpb, sample_rate as nat, self.length_ticks as nat)
    }
}

/// Absolute ticks never decrease along a track.
pub proof fn lemma_tick_after_monotone(track: Seq<SmfEvent>, i: int, j: int)
    requires
        0 <= i <= j,
    ensures
        tick_after(track, i) <= tick_after(track, j),
    decreases j,
{
    if i < j {
        lemma_tick_after_monotone(track, i, j - 1);
    }
}

/// The events of a track prefix are a prefix of the events of a longer one.
pub proof fn lemma_track_events_prefix(track: Seq<SmfEvent>, c: int, n: int)
    requires
        0 <= c <= n,
    ensures
        track_events(track, c).len() <= track_events(track, n).len(),
        track_events(track, c) == track_events(track, n).take(track_events(track, c).len() as int),
    decreases n,
{
    if c < n {
        lemma_track_events_prefix(track, c, n - 1);
        let a = track_events(track, n - 1);
        let b = track_events(track, n);
        let l = track_events(track, c).len() as int;
        assert(b.take(l) =~= a.take(l));
    } else {
        assert(track_events(track, c) =~= track_events(track, c).take(track_events(track, c).len() as int));
    }
}

/// Within a track whose ticks fit, event ticks never decrease.
pub proof fn lemma_track_events_ticks(track: Seq<SmfEvent>, n: int)
    requires
        0 <= n,
        tick_after(track, n) <= u64::MAX,
    ensures
        forall|i: int, j: int|
            0 <= i < j < track_events(track, n).len() ==> (#[trigger] track_events(track, n)[i]).0
                <= (#[trigger] track_events(track, n)[j]).0,
        forall|i: int| 0 <= i < track_events(track, n).len() ==> (#[trigger] track_events(track, n)[i]).0 <= tick_after(track, n),
    decreases n,
{
    if n > 0 {
        lemma_tick_after_monotone(track, n - 1, n);
        lemma_track_events_ticks(track, n - 1);
        let a = track_events(track, n - 1);
        let b = track_events(track, n);
        assert(b.len() == a.len() || b.len() == a.len() + 1);
        assert forall|i: int| 0 <= i < a.len() implies #[trigger] b[i] == a[i] by {}
        if b.len() == a.len() + 1 {
            assert(b[a.len() as int].0 == tick_after(track, n));
        }
        assert forall|i: int, j: int| 0 <= i < j < b.len() implies (#[trigger] b[i]).0 <= (#[trigger] b[j]).0 by {
            if j < a.len() {
                assert(a[i].0 <= a[j].0);
            } else {
                assert(a[i].0 <= tick_after(track, n - 1));
            }
        }
        assert forall|i: int| 0 <= i < b.len() implies (#[trigger] b[i]).0 <= tick_after(track, n) by {
            if i < a.len() {
                assert(a[i].0 <= tick_after(track, n - 1));
            }
        }
    }
}

/// Orders tempo changes by tick, keeping the file order of equal ticks.
pub(crate) fn order_tempos(tempos: &Vec<(u64, u32)>) -> (r: Vec<(u64, u32)>)
    ensures
        r@ == timing_order(tempos@),
        tempos_sorted(r@),
{
    let mut keyed: Vec<(u128, u32)> = Vec::new();
    let mut i: usize = 0;
    while i < tempos.len()
        invariant
            i <= tempos.len(),
            keyed@ =~= tempos@.take(i as int).map_values(|p: (u64, u32)| (p.0 as u128, p.1)),
        decreases tempos.len() - i,
    {
        let (tick, us) = tempos[i];
        keyed.push((tick as u128, us));
        i = i + 1;
    }
    proof {
        assert(tempos@.take(tempos.len() as int) =~= tempos@);
    }
    let sorted = stable_sort(&keyed);
    let mut r: Vec<(u64, u32)> = Vec::new();
    let mut j: usize = 0;
    while j < sorted.len()
        invariant
            j <= sorted.len(),
            is_stable_order(sorted@, keyed@),
            keyed@ == tempos@.map_values(|p: (u64, u32)| (p.0 as u128, p.1)),
            r@ =~= sorted@.take(j as int).map_values(|x: (u128, usize, u32)| (x.0 as u64, x.2)),
            forall|k: int| 0 <= k < j ==> r@[k].0 == sorted@[k].0,
        decreases sorted.len() - j,
    {
        let (key, _, us) = sorted[j];
        proof {
            lemma_order_member(sorted@, keyed@, j as int);
        }
        r.push((key as u64, us));
        j = j + 1;
    }
    proof {
        assert(sorted@.take(sorted.len() as int) =~= sorted@);
        assert forall|a: int, b: int| 0 <= a < b < r@.len() implies #[trigger] r@[a].0 <= #[trigger] r@[b].0 by {
            assert(crate::midi::sort::key_le(sorted@[a], sorted@[b]));
        }
    }
    r
}

/// Scheduled events are in ascending sample order.
pub proof fn lemma_schedule_ordered(evs: Seq<TimedEvent>)
    ensures
        forall|i: int, j: int|
            0 <= i < j < schedule(evs).len() ==> (#[trigger] schedule(evs)[i]).sample
                <= (#[trigger] schedule(evs)[j]).sample,
{
    let keyed = evs.map_values(|e: TimedEvent| (event_key(e), e));
    let r = stable_order(keyed);
    lemma_stable_order_exists(keyed);
    assert forall|i: int, j: int| 0 <= i < j < schedule(evs).len() implies (#[trigger] schedule(
        evs,
    )[i]).sample <= (#[trigger] schedule(evs)[j]).sample by {
        lemma_order_member(r, keyed, i);
        lemma_order_member(r, keyed, j);
        assert(crate::midi::sort::key_le(r[i], r[j]));
        let a = r[i].2;
        let b = r[j].2;
        assert(r[i].0 == event_key(a));
        assert(r[j].0 == event_key(b));
    }
}

/// An event earlier than every event before it and no later than every
/// event after it is scheduled first, ahead of the schedule of the others.
pub proof fn lemma_schedule_min_first(a: Seq<TimedEvent>, x: TimedEvent, b: Seq<TimedEvent>)
    requires
        a.len() + 1 + b.len() <= usize::MAX + 1,
        forall|i: int| 0 <= i < a.len() ==> x.sample < (#[trigger] a[i]).sample,
        forall|i: int| 0 <= i < b.len() ==> x.sample <= (#[trigger] b[i]).sample,
    ensures
        schedule(a + seq![x] + b) == seq![x] + schedule(a + b),
{
    let key = |e: TimedEvent| (event_key(e), e);
    let ka = a.map_values(key);
    let kb = b.map_values(key);
    assert((a + seq![x] + b).map_values(key) =~= ka + seq![key(x)] + kb);
    assert((a + b).map_values(key) =~= ka + kb);
    assert forall|i: int| 0 <= i < ka.len() implies key(x).0 < (#[trigger] ka[i]).0 by {
        assert(ka[i] == key(a[i]));
    }
    assert forall|i: int| 0 <= i < kb.len() implies key(x).0 <= (#[trigger] kb[i]).0 by {
        assert(kb[i] == key(b[i]));
    }
    lemma_stable_order_min_first(ka, key(x), kb);
}

/// Nothing to schedule gives an empty schedule.
pub proof fn lemma_schedule_empty(evs: Seq<TimedEvent>)
    requires
        evs.len() == 0,
    ensures
        schedule(evs).len() == 0,
{
    lemma_stable_order_len(evs.map_values(|e: TimedEvent| (event_key(e), e)));
}

/// Scheduling neither drops nor duplicates events.
pub proof fn lemma_schedule_permutation(evs: Seq<TimedEvent>)
    ensures
        schedule(evs).to_multiset() == evs.to_multiset(),
{
    let keyed = evs.map_values(|e: TimedEvent| (event_key(e), e));
    let r = stable_order(keyed);
    lemma_stable_order_exists(keyed);
    let strip = |x: (u128, usize, TimedEvent)| x.2;
    lemma_map_multiset(r, tagged(keyed), strip);
    assert(tagged(keyed).map_values(strip) =~= evs);
}

/// A parsed file lists its events in ascending sample order, and lists
/// every channel event of the file exactly once.
pub proof fn lemma_file_events_ordered(f: MidiFile, c: (SmfTiming, Seq<Seq<SmfEvent>>), sample_rate: u32)
    requires
        f.is_schedule_of(c, sample_rate),
    ensures
        forall|i: int, j: int|
            0 <= i < j < f.sequence.events@.len() ==> (#[trigger] f.sequence.events@[i]).sample
                <= (#[trigger] f.sequence.events@[j]).sample,
        f.sequence.events@.len() == file_events(c.1, c.1.len() as int).len(),
{
    let tpb = file_tpb(c);
    let te = timed(
        file_events(c.1, c.1.len() as int),
        timing_order(file_tempos(c.1, c.1.len() as int)),
        tpb,
        sample_rate as nat,
    );
    lemma_schedule_ordered(te);
    lemma_schedule_permutation(te);
    vstd::seq_lib::to_multiset_len(schedule(te));
    vstd::seq_lib::to_multiset_len(te);
}

/// Collects, track after track, the synthesizer events with their ticks, the
/// tempo changes, and the largest tick.
fn collect(data: &SmfData) -> (res: Result<(Vec<(u64, u8, MidiEvent)>, Vec<(u64, u32)>, u64), MidiError>)
    ensures
        match res {
            Ok((evs, tempos, length)) => {
                let tracks = data@.1;
                &&& ticks_fit(tracks)
                &&& evs@ == file_events(tracks, tracks.len() as int)
                &&& tempos@ == file_tempos(tracks, tracks.len() as int)
                &&& length == file_length(tracks, tracks.len() as int)
            },
            Err(e) => !ticks_fit(data@.1) && e == MidiError::TickOverflow,
        },
{
    let ghost tracks = data@.1;
    let mut evs: Vec<(u64, u8, MidiEvent)> = Vec::new();
    let mut tempos: Vec<(u64, u32)> = Vec::new();
    let mut length: u64 = 0;
    let mut t: usize = 0;
    while t < data.tracks.len()
        invariant
            tracks == data@.1,
            tracks.len() == data.tracks@.len(),
            t <= tracks.len(),
            evs@ == file_events(tracks, t as int),
            tempos@ == file_tempos(tracks, t as int),
            length == file_length(tracks, t as int),
            forall|u: int| 0 <= u < t ==> tick_after(#[trigger] tracks[u], tracks[u].len() as int) <= u64::MAX,
        decreases tracks.len() - t,
    {
        let track = &data.tracks[t];
        let ghost tr = tracks[t as int];
        assert(tr == track@);
        let mut tick: u64 = 0;
        let mut i: usize = 0;
        while i < track.len()
            invariant
                tracks == data@.1,
                tracks.len() == data.tracks@.len(),
                t < tracks.len(),
                tr == tracks[t as int],
                tr == track@,
                forall|u: int| 0 <= u < t ==> tick_after(#[trigger] tracks[u], tracks[u].len() as int) <= u64::MAX,
                i <= tr.len(),
                tick == tick_after(tr, i as int),
                evs@ == file_events(tracks, t as int) + track_events(tr, i as int),
                tempos@ == file_tempos(tracks, t as int) + track_tempos(tr, i as int),
                length == if file_length(tracks, t as int) >= tick_after(tr, i as int) {
                    file_length(tracks, t as int)
                } else {
                    tick_after(tr, i as int)
                },
            decreases tr.len() - i,
        {
            let ev = track[i];
            match tick.checked_add(ev.delta as u64) {
                Some(next) => {
                    tick = next;
                },
                None => {
                    proof {
                        lemma_tick_after_monotone(tr, i + 1, tr.len() as int);
                        assert(!ticks_fit(tracks)) by {
                            assert(tick_after(tracks[t as int], tracks[t as int].len() as int) > u64::MAX);
                        }
                    }
                    return Err(MidiError::TickOverflow);
                },
            }
            if tick > length {
                length = tick;
            }
            match ev.kind {
                SmfEventKind::Channel { channel, message } => {
                    if let Some(e) = midi_event_from(message) {
                        evs.push((tick, channel, e));
                    }
                },
                SmfEventKind::Tempo(us) => {
                    tempos.push((tick, us));
                },
                _ => {},
            }
            proof {
                assert(file_events(tracks, t as int) + track_events(tr, i + 1) =~= evs@);
                assert(file_tempos(tracks, t as int) + track_tempos(tr, i + 1) =~= tempos@);
            }
            i = i + 1;
        }
        proof {
            assert(file_events(tracks, t + 1) =~= evs@);
            assert(file_tempos(tracks, t + 1) =~= tempos@);
        }
        t = t + 1;
    }
    Ok((evs, tempos, length))
}

/// Places every event at its output sample and orders the result.
fn schedule_events(evs: &Vec<(u64, u8, MidiEvent)>, map: &TempoMap) -> (r: Vec<TimedEvent>)
    requires
        map.wf(),
    ensures
        r@ == schedule(timed(evs@, map.tempos@, map.ticks_per_beat as nat, map.sample_rate as nat)),
{
    let ghost tpb = map.ticks_per_beat as nat;
    let ghost sr = map.sample_rate as nat;
    let ghost all = timed(evs@, map.tempos@, tpb, sr);
    let mut keyed: Vec<(u128, TimedEvent)> = Vec::new();
    let mut k: usize = 0;
    let mut i: usize = 0;
    assert(map.segs@[0].start == 0);
    while i < evs.len()
        invariant
            map.wf(),
            all == timed(evs@, map.tempos@, tpb, sr),
            tpb == map.ticks_per_beat,
            sr == map.sample_rate,
            i <= evs.len(),
            k < map.segs@.len(),
            map.segs@[0].start == 0,
            keyed@ =~= all.take(i as int).map_values(|e: TimedEvent| (event_key(e), e)),
        decreases evs.len() - i,
    {
        let (tick, channel, event) = evs[i];
        if tick < map.segs[k].start {
            k = 0;
        }
        k = map.advance(k, tick);
        let sample = map.sample_in_seg(k, tick);
        let e = TimedEvent { sample, channel, event };
        assert(e == all[i as int]);
        keyed.push((sample as u128, e));
        i = i + 1;
    }
    proof {
        assert(all.take(evs.len() as int) =~= all);
    }
    let sorted = stable_sort(&keyed);
    let mut r: Vec<TimedEvent> = Vec::new();
    let mut j: usize = 0;
    while j < sorted.len()
        invariant
            j <= sorted.len(),
            r@ =~= sorted@.take(j as int).map_values(|x: (u128, usize, TimedEvent)| x.2),
        decreases sorted.len() - j,
    {
        r.push(sorted[j].2);
        j = j + 1;
    }
    proof {
        assert(sorted@.take(sorted.len() as int) =~= sorted@);
    }
    r
}

impl MidiFile {
    /// Schedules a decoded file at `sample_rate` Hz.
    ///
    /// Fails with [`MidiError::SmpteTiming`] for timecode timing, with
    /// [`MidiError::ZeroTicksPerBeat`] for zero ticks per beat, and with
    /// [`MidiError::TickOverflow`] when a tick position leaves the `u64` range.
    pub fn from_smf(data: &SmfData, sample_rate: u32) -> (res: Result<MidiFile, MidiError>)
        ensures
            match res {
                Ok(f) => smf_rejection(data@) is None && f.is_schedule_of(data@, sample_rate),
                Err(e) => smf_rejection(data@) == Some(e),
            },
    {
        let tpb = match data.timing {
            SmfTiming::Timecode(_, _) => {
                return Err(MidiError::SmpteTiming);
            },
            SmfTiming::Metrical(t) => t,
        };
        if tpb == 0 {
            return Err(MidiError::ZeroTicksPerBeat);
        }
        let (evs, tempos, length) = match collect(data) {
            Ok(c) => c,
            Err(e) => {
                return Err(e);
            },
        };
        let order = order_tempos(&tempos);
        let map = TempoMap::new(&order, tpb as u64, sample_rate);
        let events = schedule_events(&evs, &map);
        assert(map.segs@[0].start == 0);
        let k = map.advance(0, length);
        let end_sample = map.sample_in_seg(k, length);
        Ok(MidiFile { sequence: MidiSequence { events, end_sample }, sample_rate, tempos, length_ticks: length })
    }

    /// Parses a MIDI file from raw bytes at `sample_rate` Hz.
    ///
    /// Fails with [`MidiError::Parse`] when the bytes do not decode (see
    /// [`crate::midi::smf::decoded`]), otherwise as [`MidiFile::from_smf`]
    /// on the decoded file.
    pub fn parse(raw: &[u8], sample_rate: u32) -> (res: Result<MidiFile, MidiError>)
        ensures
            match decoded(raw@) {
                None => res matches Err(MidiError::Parse(_)),
                Some(c) => match res {
                    Ok(f) => smf_rejection(c) is None && f.is_schedule_of(c, sample_rate),
                    Err(e) => smf_rejection(c) == Some(e),
                },
            },
    {
        match decode(raw) {
            Ok(data) => MidiFile::from_smf(&data, sample_rate),
            Err(msg) => Err(MidiError::Parse(msg)),
        }
    }

}

} // verus!
