//! Streaming MIDI event source: yields events in sample order without ever
//! materialising the full event list.
//!
//! The decoded tracks are kept; each track has a cursor and at most one
//! pending "head" event, and the next event is the head with the least
//! sample (ties: the lowest track index).

use crate::error::MidiError;
use crate::midi::parser::{
    file_events, file_length, file_tempos, file_tpb, lemma_schedule_empty, lemma_schedule_min_first, lemma_schedule_ordered, lemma_schedule_permutation,
    lemma_file_events_ordered, lemma_tick_after_monotone, lemma_track_events_prefix, lemma_track_events_ticks, order_tempos,
    schedule, smf_rejection, tick_after, ticks_fit, timed, timed_one, timing_order, track_events,
    track_tempos, MidiFile,
};
use crate::midi::smf::{decode, decoded, SmfData, SmfEvent, SmfEventKind, SmfTiming};
use crate::midi::tempo::{lemma_tick_to_sample_monotone, seg_holds, tick_to_sample, TempoMap};
use crate::midi::{midi_event_from, TimedEvent};
use vstd::prelude::*;

verus! {

/// The schedule of track `t` of the decoded file `c` at `sample_rate` Hz:
/// its events at their output samples, in track order.
pub open spec fn track_schedule(c: (SmfTiming, Seq<Seq<SmfEvent>>), sample_rate: u32, t: int) -> Seq<TimedEvent> {
    timed(
        track_events(c.1[t], c.1[t].len() as int),
        timing_order(file_tempos(c.1, c.1.len() as int)),
        file_tpb(c),
        sample_rate as nat,
    )
}

/// Every track's full schedule.
pub open spec fn initial_pending(c: (SmfTiming, Seq<Seq<SmfEvent>>), sample_rate: u32) -> Seq<Seq<TimedEvent>> {
    Seq::new(c.1.len(), |t: int| track_schedule(c, sample_rate, t))
}

/// Track `t` holds the next event: its first pending event has the least
/// sample, ties going to the lowest track index.
pub open spec fn is_next_track(p: Seq<Seq<TimedEvent>>, t: int) -> bool {
    &&& 0 <= t < p.len()
    &&& p[t].len() > 0
    &&& forall|u: int|
        0 <= u < p.len() && #[trigger] p[u].len() > 0 ==> p[t][0].sample < p[u][0].sample || (
        p[t][0].sample == p[u][0].sample && t <= u)
}

/// No track has a pending event.
pub open spec fn all_drained(p: Seq<Seq<TimedEvent>>) -> bool {
    forall|t: int| 0 <= t < p.len() ==> (#[trigger] p[t]).len() == 0
}

/// Every track's pending events are in ascending sample order.
pub open spec fn rows_sorted(p: Seq<Seq<TimedEvent>>) -> bool {
    forall|t: int, i: int, j: int|
        0 <= t < p.len() && 0 <= i < j < p[t].len() ==> (#[trigger] p[t][i]).sample <= (#[trigger] p[t][j]).sample
}

/// The next event is no later than any pending event.
pub proof fn lemma_next_is_earliest(p: Seq<Seq<TimedEvent>>, t: int)
    requires
        rows_sorted(p),
        is_next_track(p, t),
    ensures
        forall|u: int, i: int| 0 <= u < p.len() && 0 <= i < p[u].len() ==> p[t][0].sample <= (#[trigger] p[u][i]).sample,
{
    assert forall|u: int, i: int| 0 <= u < p.len() && 0 <= i < p[u].len() implies p[t][0].sample <= (
    #[trigger] p[u][i]).sample by {
        assert(p[u].len() > 0);
        if i > 0 {
            assert(p[u][0].sample <= p[u][i].sample);
        }
    }
}

/// Events come out in ascending sample order: after the next event is
/// taken, the following one is no earlier.
pub proof fn lemma_stream_order(p: Seq<Seq<TimedEvent>>, t: int, t2: int)
    requires
        rows_sorted(p),
        is_next_track(p, t),
        is_next_track(p.update(t, p[t].drop_first()), t2),
    ensures
        p[t][0].sample <= p.update(t, p[t].drop_first())[t2][0].sample,
{
    lemma_next_is_earliest(p, t);
    let q = p.update(t, p[t].drop_first());
    if t2 == t {
        assert(q[t2][0] == p[t][1]);
    } else {
        assert(q[t2] == p[t2]);
    }
}

/// All pending events, track after track.
pub open spec fn flat(p: Seq<Seq<TimedEvent>>) -> Seq<TimedEvent>
    decreases p.len(),
{
    if p.len() == 0 {
        seq![]
    } else {
        flat(p.drop_last()) + p.last()
    }
}

/// Number of pending events over all tracks.
pub open spec fn total_len(p: Seq<Seq<TimedEvent>>) -> nat
    decreases p.len(),
{
    if p.len() == 0 {
        0
    } else {
        total_len(p.drop_last()) + p.last().len()
    }
}

/// Among the first `u` tracks, the one whose first pending event has the
/// least sample (the lowest index among equals), if any has one.
pub open spec fn best_track(p: Seq<Seq<TimedEvent>>, u: int) -> Option<int>
    decreases u,
{
    if u <= 0 {
        None
    } else {
        let b = best_track(p, u - 1);
        if p[u - 1].len() == 0 {
            b
        } else {
            match b {
                None => Some(u - 1),
                Some(i) => if p[u - 1][0].sample < p[i][0].sample {
                    Some(u - 1)
                } else {
                    Some(i)
                },
            }
        }
    }
}

proof fn lemma_best_track_prefix(p: Seq<Seq<TimedEvent>>, u: int)
    requires
        0 <= u <= p.len(),
    ensures
        best_track(p, u) is None <==> forall|v: int| 0 <= v < u ==> (#[trigger] p[v]).len() == 0,
        best_track(p, u) matches Some(t) ==> {
            &&& 0 <= t < u
            &&& p[t].len() > 0
            &&& forall|v: int|
                0 <= v < u && #[trigger] p[v].len() > 0 ==> p[t][0].sample < p[v][0].sample || (
                p[t][0].sample == p[v][0].sample && t <= v)
        },
    decreases u,
{
    if u > 0 {
        lemma_best_track_prefix(p, u - 1);
    }
}

/// The track [`best_track`] finds is the next track, and there is none
/// exactly when every track is drained.
pub proof fn lemma_best_track(p: Seq<Seq<TimedEvent>>)
    ensures
        best_track(p, p.len() as int) is None <==> all_drained(p),
        best_track(p, p.len() as int) matches Some(t) ==> is_next_track(p, t),
        forall|t: int| is_next_track(p, t) ==> best_track(p, p.len() as int) == Some(t),
{
    lemma_best_track_prefix(p, p.len() as int);
    assert forall|t: int| is_next_track(p, t) implies best_track(p, p.len() as int) == Some(t) by {
        let b = best_track(p, p.len() as int);
        assert(b is Some);
        let t2 = b->0;
        assert(p[t].len() > 0);
        assert(p[t2].len() > 0);
    }
}

/// Replacing one track's pending events changes the total by the
/// difference in length.
pub proof fn lemma_total_len_update(p: Seq<Seq<TimedEvent>>, t: int, r: Seq<TimedEvent>)
    requires
        0 <= t < p.len(),
    ensures
        total_len(p.update(t, r)) == total_len(p) - p[t].len() + r.len(),
    decreases p.len(),
{
    let q = p.update(t, r);
    if t < p.len() - 1 {
        assert(q.drop_last() =~= p.drop_last().update(t, r));
        lemma_total_len_update(p.drop_last(), t, r);
    } else {
        assert(q.drop_last() =~= p.drop_last());
    }
}

/// The order in which a stream with pending events `p` hands them out: the
/// first event of the next track, then the order of what is left.
pub open spec fn merge(p: Seq<Seq<TimedEvent>>) -> Seq<TimedEvent>
    decreases total_len(p),
{
    match best_track(p, p.len() as int) {
        None => seq![],
        Some(t) => if 0 <= t < p.len() && p[t].len() > 0 {
            proof {
                lemma_total_len_update(p, t, p[t].drop_first());
            }
            seq![p[t][0]] + merge(p.update(t, p[t].drop_first()))
        } else {
            seq![]
        },
    }
}

/// The merge order holds every pending event.
pub proof fn lemma_merge_len(p: Seq<Seq<TimedEvent>>)
    ensures
        merge(p).len() == total_len(p),
    decreases total_len(p),
{
    lemma_best_track(p);
    match best_track(p, p.len() as int) {
        None => {
            lemma_merge_drained(p);
            lemma_total_drained(p);
        },
        Some(t) => {
            lemma_total_len_update(p, t, p[t].drop_first());
            lemma_merge_len(p.update(t, p[t].drop_first()));
        },
    }
}

proof fn lemma_total_drained(p: Seq<Seq<TimedEvent>>)
    requires
        all_drained(p),
    ensures
        total_len(p) == 0,
    decreases p.len(),
{
    if p.len() > 0 {
        lemma_total_drained(p.drop_last());
    }
}

proof fn lemma_flat_len(p: Seq<Seq<TimedEvent>>)
    ensures
        flat(p).len() == total_len(p),
    decreases p.len(),
{
    if p.len() > 0 {
        lemma_flat_len(p.drop_last());
    }
}

/// Taking the next event takes the first event of the merge order.
pub proof fn lemma_merge_step(p: Seq<Seq<TimedEvent>>, t: int)
    requires
        is_next_track(p, t),
    ensures
        merge(p) == seq![p[t][0]] + merge(p.update(t, p[t].drop_first())),
{
    lemma_best_track(p);
}

/// With every track drained the merge order is empty.
pub proof fn lemma_merge_drained(p: Seq<Seq<TimedEvent>>)
    requires
        all_drained(p),
    ensures
        merge(p).len() == 0,
{
    lemma_best_track(p);
}

proof fn lemma_flat_concat(x: Seq<Seq<TimedEvent>>, y: Seq<Seq<TimedEvent>>)
    ensures
        flat(x + y) == flat(x) + flat(y),
    decreases y.len(),
{
    if y.len() == 0 {
        assert(x + y =~= x);
        assert(flat(x) + flat(y) =~= flat(x));
    } else {
        assert((x + y).drop_last() =~= x + y.drop_last());
        lemma_flat_concat(x, y.drop_last());
        assert(flat(x + y) =~= flat(x) + flat(y));
    }
}

proof fn lemma_flat_split(p: Seq<Seq<TimedEvent>>, t: int)
    requires
        0 <= t < p.len(),
    ensures
        flat(p) == flat(p.take(t)) + p[t] + flat(p.skip(t + 1)),
{
    assert(p =~= p.take(t) + seq![p[t]] + p.skip(t + 1));
    lemma_flat_concat(p.take(t) + seq![p[t]], p.skip(t + 1));
    lemma_flat_concat(p.take(t), seq![p[t]]);
    let one = seq![p[t]];
    assert(one.drop_last() =~= Seq::<Seq<TimedEvent>>::empty());
    assert(flat(one.drop_last()) =~= Seq::<TimedEvent>::empty());
    assert(one.last() == p[t]);
    assert(flat(one) =~= p[t]);
}

proof fn lemma_flat_member(p: Seq<Seq<TimedEvent>>, i: int)
    requires
        0 <= i < flat(p).len(),
    ensures
        exists|u: int, j: int| 0 <= u < p.len() && 0 <= j < p[u].len() && flat(p)[i] == #[trigger] p[u][j],
    decreases p.len(),
{
    let d = flat(p.drop_last());
    if i < d.len() {
        lemma_flat_member(p.drop_last(), i);
        let (u, j) = choose|u: int, j: int|
            0 <= u < p.drop_last().len() && 0 <= j < p.drop_last()[u].len() && d[i] == #[trigger] p.drop_last()[u][j];
        assert(flat(p)[i] == p[u][j]);
    } else {
        assert(flat(p)[i] == p[p.len() - 1][i - d.len()]);
    }
}

proof fn lemma_flat_drained(p: Seq<Seq<TimedEvent>>)
    requires
        all_drained(p),
    ensures
        flat(p).len() == 0,
    decreases p.len(),
{
    if p.len() > 0 {
        lemma_flat_drained(p.drop_last());
    }
}

/// Taking the next event of the stream takes the first event of the stable
/// sample order of everything pending.
pub proof fn lemma_next_is_scheduled_first(p: Seq<Seq<TimedEvent>>, t: int)
    requires
        rows_sorted(p),
        is_next_track(p, t),
        flat(p).len() <= usize::MAX + 1,
    ensures
        schedule(flat(p)) == seq![p[t][0]] + schedule(flat(p.update(t, p[t].drop_first()))),
        flat(p.update(t, p[t].drop_first())).len() + 1 == flat(p).len(),
{
    let q = p.update(t, p[t].drop_first());
    let x = p[t][0];
    let rest = p[t].drop_first();
    let fa = flat(p.take(t));
    let ff = flat(p.skip(t + 1));
    lemma_flat_split(p, t);
    lemma_flat_split(q, t);
    assert(q.take(t) =~= p.take(t));
    assert(q.skip(t + 1) =~= p.skip(t + 1));
    assert(p[t] =~= seq![x] + rest);
    assert(flat(p) =~= fa + seq![x] + (rest + ff));
    assert(flat(q) =~= fa + (rest + ff));
    lemma_next_is_earliest(p, t);
    assert forall|i: int| 0 <= i < fa.len() implies x.sample < (#[trigger] fa[i]).sample by {
        lemma_flat_member(p.take(t), i);
        let (u, j) = choose|u: int, j: int|
            0 <= u < p.take(t).len() && 0 <= j < p.take(t)[u].len() && fa[i] == #[trigger] p.take(t)[u][j];
        assert(p[u].len() > 0);
        assert(p[u][0].sample <= p[u][j].sample);
    }
    let b = rest + ff;
    assert forall|i: int| 0 <= i < b.len() implies x.sample <= (#[trigger] b[i]).sample by {
        if i < rest.len() {
            assert(b[i] == p[t][i + 1]);
        } else {
            lemma_flat_member(p.skip(t + 1), i - rest.len());
            let (u, j) = choose|u: int, j: int|
                0 <= u < p.skip(t + 1).len() && 0 <= j < p.skip(t + 1)[u].len() && ff[i - rest.len()]
                    == #[trigger] p.skip(t + 1)[u][j];
            assert(b[i] == p[u + t + 1][j]);
        }
    }
    lemma_schedule_min_first(fa, x, b);
}

/// The stream hands its pending events out in exactly their stable sample
/// order.
pub proof fn lemma_merge_is_schedule(p: Seq<Seq<TimedEvent>>)
    requires
        rows_sorted(p),
        flat(p).len() <= usize::MAX + 1,
    ensures
        merge(p) == schedule(flat(p)),
    decreases total_len(p),
{
    lemma_best_track(p);
    match best_track(p, p.len() as int) {
        None => {
            lemma_flat_drained(p);
            lemma_schedule_empty(flat(p));
            assert(merge(p) =~= schedule(flat(p)));
        },
        Some(t) => {
            let q = p.update(t, p[t].drop_first());
            lemma_next_is_scheduled_first(p, t);
            lemma_total_len_update(p, t, p[t].drop_first());
            assert(rows_sorted(q)) by {
                assert forall|u: int, i: int, j: int|
                    0 <= u < q.len() && 0 <= i < j < q[u].len() implies (#[trigger] q[u][i]).sample <= (
                    #[trigger] q[u][j]).sample by {
                    if u == t {
                        assert(q[u][i] == p[t][i + 1] && q[u][j] == p[t][j + 1]);
                    }
                }
            }
            lemma_merge_is_schedule(q);
        },
    }
}

/// Per-track schedules, one after the other, are the file's events placed
/// at their samples.
proof fn lemma_flat_initial(c: (SmfTiming, Seq<Seq<SmfEvent>>), sample_rate: u32, k: int)
    requires
        0 <= k <= c.1.len(),
    ensures
        flat(Seq::new(k as nat, |t: int| track_schedule(c, sample_rate, t))) == timed(
            file_events(c.1, k),
            timing_order(file_tempos(c.1, c.1.len() as int)),
            file_tpb(c),
            sample_rate as nat,
        ),
    decreases k,
{
    let order = timing_order(file_tempos(c.1, c.1.len() as int));
    let f = |t: int| track_schedule(c, sample_rate, t);
    if k == 0 {
        assert(timed(file_events(c.1, 0), order, file_tpb(c), sample_rate as nat) =~= seq![]);
    } else {
        lemma_flat_initial(c, sample_rate, k - 1);
        assert(Seq::new(k as nat, f).drop_last() =~= Seq::new((k - 1) as nat, f));
        let a = file_events(c.1, k - 1);
        let b = track_events(c.1[k - 1], c.1[k - 1].len() as int);
        assert(timed(a + b, order, file_tpb(c), sample_rate as nat) =~= timed(
            a,
            order,
            file_tpb(c),
            sample_rate as nat,
        ) + timed(b, order, file_tpb(c), sample_rate as nat));
    }
}

/// A streaming, sample-accurate MIDI event source.
pub struct MidiStream {
    sample_rate: u32,
    map: TempoMap,
    end_sample: u64,
    length_ticks: u64,
    tracks: Vec<Vec<SmfEvent>>,
    cursors: Vec<usize>,
    ticks: Vec<u64>,
    segs: Vec<usize>,
    heads: Vec<Option<TimedEvent>>,
    source: Ghost<(SmfTiming, Seq<Seq<SmfEvent>>)>,
}

impl MidiStream {
    /// The decoded file the stream reads.
    pub closed spec fn source(&self) -> (SmfTiming, Seq<Seq<SmfEvent>>) {
        self.source@
    }

    /// The sample rate the stream was built for.
    pub closed spec fn rate(&self) -> u32 {
        self.sample_rate
    }

    /// The output sample of the file's last tick.
    pub closed spec fn end(&self) -> u64 {
        self.end_sample
    }

    /// The file's length in ticks.
    pub closed spec fn length(&self) -> u64 {
        self.length_ticks
    }

    spec fn track(&self, t: int) -> Seq<SmfEvent> {
        self.tracks@[t]@
    }

    /// Events of track `t` already handed out.
    spec fn emitted(&self, t: int) -> int {
        track_events(self.track(t), self.cursors@[t] as int).len() - if self.heads@[t] is Some {
            1int
        } else {
            0int
        }
    }

    /// Events not yet handed out, per track, in track order.
    pub closed spec fn pending(&self) -> Seq<Seq<TimedEvent>> {
        Seq::new(
            self.tracks@.len(),
            |t: int| track_schedule(self.source@, self.sample_rate, t).skip(self.emitted(t)),
        )
    }

    spec fn base_wf(&self) -> bool {
        let c = self.source@;
        &&& c.1 == self.tracks@.map_values(|t: Vec<SmfEvent>| t@)
        &&& smf_rejection(c) is None
        &&& self.map.wf()
        &&& self.map.tempos@ == timing_order(file_tempos(c.1, c.1.len() as int))
        &&& self.map.ticks_per_beat == file_tpb(c)
        &&& self.map.sample_rate == self.sample_rate
        &&& self.cursors@.len() == self.tracks@.len()
        &&& self.ticks@.len() == self.tracks@.len()
        &&& self.segs@.len() == self.tracks@.len()
        &&& self.heads@.len() == self.tracks@.len()
    }

    spec fn track_wf(&self, t: int) -> bool {
        let tr = self.track(t);
        let c = self.cursors@[t] as int;
        &&& c <= tr.len()
        &&& self.ticks@[t] == tick_after(tr, c)
        &&& self.segs@[t] < self.map.segs@.len()
        &&& self.map.segs@[self.segs@[t] as int].start <= self.ticks@[t]
        &&& match self.heads@[t] {
            None => c == tr.len(),
            Some(e) => track_events(tr, c).len() > 0 && e == timed_one(
                track_events(tr, c).last(),
                self.map.tempos@,
                self.map.ticks_per_beat as nat,
                self.sample_rate as nat,
            ),
        }
    }

    /// The stream's internal state is consistent.
    pub closed spec fn wf(&self) -> bool {
        &&& self.base_wf()
        &&& forall|t: int| 0 <= t < self.tracks@.len() ==> #[trigger] self.track_wf(t)
    }

    /// Same file, map and tracks.
    spec fn same_base(&self, other: &MidiStream) -> bool {
        &&& self.sample_rate == other.sample_rate
        &&& self.map == other.map
        &&& self.end_sample == other.end_sample
        &&& self.length_ticks == other.length_ticks
        &&& self.tracks == other.tracks
        &&& self.source == other.source
    }

    proof fn lemma_head(&self, t: int)
        requires
            self.wf(),
            0 <= t < self.tracks@.len(),
        ensures
            self.pending()[t].len() > 0 <==> self.heads@[t] is Some,
            self.heads@[t] matches Some(e) ==> self.pending()[t][0] == e,
            self.emitted(t) >= 0,
            self.emitted(t) <= track_schedule(self.source@, self.sample_rate, t).len(),
    {
        assert(self.track_wf(t));
        let tr = self.track(t);
        let c = self.cursors@[t] as int;
        assert(self.source@.1[t] == tr);
        lemma_track_events_prefix(tr, c, tr.len() as int);
        let full = track_events(tr, tr.len() as int);
        let sched = track_schedule(self.source@, self.sample_rate, t);
        assert(sched == timed(full, self.map.tempos@, self.map.ticks_per_beat as nat, self.sample_rate as nat));
        if let Some(e) = self.heads@[t] {
            let pre = track_events(tr, c);
            assert(pre.last() == full[pre.len() - 1]);
        }
    }

    /// Scans track `t` from its cursor to its next channel event and makes it
    /// the track's head (none when the track ends first).
    fn advance_track(&mut self, t: usize)
        requires
            old(self).base_wf(),
            t < old(self).tracks@.len(),
            old(self).cursors@[t as int] <= old(self).track(t as int).len(),
            old(self).ticks@[t as int] == tick_after(old(self).track(t as int), old(self).cursors@[t as int] as int),
            old(self).segs@[t as int] < old(self).map.segs@.len(),
            old(self).map.segs@[old(self).segs@[t as int] as int].start <= old(self).ticks@[t as int],
            old(self).heads@[t as int] is None,
        ensures
            final(self).base_wf(),
            final(self).track_wf(t as int),
            final(self).same_base(old(self)),
            final(self).emitted(t as int) == track_events(
                old(self).track(t as int),
                old(self).cursors@[t as int] as int,
            ).len(),
            forall|u: int|
                0 <= u < old(self).tracks@.len() && u != t ==> {
                    &&& final(self).cursors@[u] == old(self).cursors@[u]
                    &&& final(self).ticks@[u] == old(self).ticks@[u]
                    &&& final(self).segs@[u] == old(self).segs@[u]
                    &&& final(self).heads@[u] == old(self).heads@[u]
                },
    {
        let ghost tr = self.track(t as int);
        let ghost c0 = self.cursors@[t as int] as int;
        let ghost l0 = track_events(tr, c0).len();
        proof {
            assert(self.source@.1[t as int] == tr);
            assert(tick_after(tr, tr.len() as int) <= u64::MAX);
        }
        let len = self.tracks[t].len();
        let mut c = self.cursors[t];
        let mut tick = self.ticks[t];
        let mut k = self.segs[t];
        let mut found: Option<TimedEvent> = None;
        while found.is_none() && c < len
            invariant
                self.base_wf(),
                tr == self.track(t as int),
                tr == self.tracks@[t as int]@,
                t < self.tracks@.len(),
                len == tr.len(),
                tick_after(tr, tr.len() as int) <= u64::MAX,
                c0 <= c <= len,
                tick == tick_after(tr, c as int),
                k < self.map.segs@.len(),
                self.map.segs@[k as int].start <= tick,
                match found {
                    None => track_events(tr, c as int).len() == l0,
                    Some(e) => track_events(tr, c as int).len() == l0 + 1 && e == timed_one(
                        track_events(tr, c as int).last(),
                        self.map.tempos@,
                        self.map.ticks_per_beat as nat,
                        self.sample_rate as nat,
                    ),
                },
            decreases len - c,
        {
            let ev = self.tracks[t][c];
            proof {
                lemma_tick_after_monotone(tr, c + 1, tr.len() as int);
            }
            tick = tick + ev.delta as u64;
            c = c + 1;
            if let SmfEventKind::Channel { channel, message } = ev.kind {
                if let Some(e) = midi_event_from(message) {
                    k = self.map.advance(k, tick);
                    let sample = self.map.sample_in_seg(k, tick);
                    found = Some(TimedEvent { sample, channel, event: e });
                }
            }
        }
        self.cursors.set(t, c);
        self.ticks.set(t, tick);
        self.segs.set(t, k);
        self.heads.set(t, found);
    }

    /// Builds a stream over a decoded file at `sample_rate` Hz.
    ///
    /// Fails exactly as [`crate::midi::MidiFile::from_smf`] does.
    pub fn from_smf(data: SmfData, sample_rate: u32) -> (res: Result<MidiStream, MidiError>)
        ensures
            match res {
                Ok(s) => {
                    &&& smf_rejection(data@) is None
                    &&& s.wf()
                    &&& s.source() == data@
                    &&& s.rate() == sample_rate
                    &&& s.length() == file_length(data@.1, data@.1.len() as int)
                    &&& s.end() == tick_to_sample(
                        timing_order(file_tempos(data@.1, data@.1.len() as int)),
                        file_tpb(data@),
                        sample_rate as nat,
                        s.length() as nat,
                    )
                    &&& s.pending() == initial_pending(data@, sample_rate)
                },
                Err(e) => smf_rejection(data@) == Some(e),
            },
    {
        let tpb = match data.timing {
            SmfTiming::Timecode(_, _) => {
                return Err(MidiError::SmpteTiming);
            },
            SmfTiming::Metrical(t) => t,
        };
        if tpb == 0 {
            return Err(MidiError::ZeroTicksPerBeat);
        }
        let (tempos, length) = match scan_tempos(&data) {
            Ok(r) => r,
            Err(e) => {
                return Err(e);
            },
        };
        let order = order_tempos(&tempos);
        let map = TempoMap::new(&order, tpb as u64, sample_rate);
        assert(map.segs@[0].start == 0);
        let k = map.advance(0, length);
        let end_sample = map.sample_in_seg(k, length);
        let ghost c = data@;
        let n = data.tracks.len();
        let mut cursors: Vec<usize> = Vec::new();
        let mut ticks: Vec<u64> = Vec::new();
        let mut segs: Vec<usize> = Vec::new();
        let mut heads: Vec<Option<TimedEvent>> = Vec::new();
        let mut i: usize = 0;
        while i < n
            invariant
                i <= n,
                cursors@ =~= Seq::new(i as nat, |j: int| 0usize),
                ticks@ =~= Seq::new(i as nat, |j: int| 0u64),
                segs@ =~= Seq::new(i as nat, |j: int| 0usize),
                heads@ =~= Seq::new(i as nat, |j: int| None::<TimedEvent>),
            decreases n - i,
        {
            cursors.push(0);
            ticks.push(0);
            segs.push(0);
            heads.push(None);
            i = i + 1;
        }
        let mut s = MidiStream {
            sample_rate,
            map,
            end_sample,
            length_ticks: length,
            tracks: data.tracks,
            cursors,
            ticks,
            segs,
            heads,
            source: Ghost(c),
        };
        s.prime();
        Ok(s)
    }

    /// Parses `raw` SMF bytes at `sample_rate` Hz.
    ///
    /// Fails with [`MidiError::Parse`] when the bytes do not decode (see
    /// [`crate::midi::smf::decoded`]), otherwise as [`MidiStream::from_smf`]
    /// on the decoded file.
    pub fn parse(raw: &[u8], sample_rate: u32) -> (res: Result<MidiStream, MidiError>)
        ensures
            match decoded(raw@) {
                None => res matches Err(MidiError::Parse(_)),
                Some(c) => match res {
                    Ok(s) => {
                        &&& smf_rejection(c) is None
                        &&& s.wf()
                        &&& s.source() == c
                        &&& s.rate() == sample_rate
                        &&& s.length() == file_length(c.1, c.1.len() as int)
                        &&& s.end() == tick_to_sample(
                            timing_order(file_tempos(c.1, c.1.len() as int)),
                            file_tpb(c),
                            sample_rate as nat,
                            s.length() as nat,
                        )
                        &&& s.pending() == initial_pending(c, sample_rate)
                    },
                    Err(e) => smf_rejection(c) == Some(e),
                },
            },
    {
        match decode(raw) {
            Ok(data) => MidiStream::from_smf(data, sample_rate),
            Err(msg) => Err(MidiError::Parse(msg)),
        }
    }

    /// Sample rate this stream was built for.
    pub fn sample_rate(&self) -> (r: u32)
        ensures
            r == self.rate(),
    {
        self.sample_rate
    }

    /// Sample position of the last MIDI tick.
    pub fn end_sample(&self) -> (r: u64)
        ensures
            r == self.end(),
    {
        self.end_sample
    }

    /// Total ticks.
    pub fn length_ticks(&self) -> (r: u64)
        ensures
            r == self.length(),
    {
        self.length_ticks
    }

    /// Whether the stream is exhausted (no more events).
    pub fn is_exhausted(&self) -> (r: bool)
        requires
            self.wf(),
        ensures
            r == all_drained(self.pending()),
    {
        let n = self.heads.len();
        let mut t: usize = 0;
        while t < n
            invariant
                self.wf(),
                n == self.tracks@.len(),
                t <= n,
                forall|u: int| 0 <= u < t ==> (#[trigger] self.pending()[u]).len() == 0,
            decreases n - t,
        {
            proof {
                self.lemma_head(t as int);
            }
            if self.heads[t].is_some() {
                return false;
            }
            t = t + 1;
        }
        true
    }

    /// The track holding the next event, if any.
    fn next_track(&self) -> (r: Option<usize>)
        requires
            self.wf(),
        ensures
            match r {
                None => all_drained(self.pending()),
                Some(t) => is_next_track(self.pending(), t as int),
            },
    {
        let n = self.heads.len();
        let mut best: Option<usize> = None;
        let mut best_sample: u64 = 0;
        let mut t: usize = 0;
        while t < n
            invariant
                self.wf(),
                n == self.tracks@.len(),
                t <= n,
                self.pending().len() == n,
                match best {
                    None => forall|u: int| 0 <= u < t ==> (#[trigger] self.pending()[u]).len() == 0,
                    Some(b) => {
                        &&& b < t
                        &&& self.pending()[b as int].len() > 0
                        &&& self.pending()[b as int][0].sample == best_sample
                        &&& forall|u: int|
                            0 <= u < t && #[trigger] self.pending()[u].len() > 0 ==> best_sample
                                < self.pending()[u][0].sample || (best_sample == self.pending()[u][0].sample
                                && b <= u)
                    },
                },
            decreases n - t,
        {
            proof {
                self.lemma_head(t as int);
            }
            if let Some(e) = self.heads[t] {
                let better = match best {
                    None => true,
                    Some(_) => e.sample < best_sample,
                };
                if better {
                    best = Some(t);
                    best_sample = e.sample;
                }
            }
            t = t + 1;
        }
        best
    }

    /// Peeks the next event without consuming it.
    pub fn peek(&self) -> (r: Option<TimedEvent>)
        requires
            self.wf(),
        ensures
            match r {
                None => all_drained(self.pending()),
                Some(e) => exists|t: int| is_next_track(self.pending(), t) && e == self.pending()[t][0],
            },
            r == (if merge(self.pending()).len() == 0 {
                None
            } else {
                Some(merge(self.pending())[0])
            }),
    {
        match self.next_track() {
            None => {
                proof {
                    lemma_merge_drained(self.pending());
                }
                None
            },
            Some(t) => {
                proof {
                    self.lemma_head(t as int);
                    lemma_merge_step(self.pending(), t as int);
                }
                self.heads[t]
            },
        }
    }

    /// Pops the next event in sample order (ties: lowest track index).
    pub fn next_event(&mut self) -> (r: Option<TimedEvent>)
        requires
            old(self).wf(),
        ensures
            final(self).wf(),
            final(self).source() == old(self).source(),
            final(self).rate() == old(self).rate(),
            final(self).end() == old(self).end(),
            final(self).length() == old(self).length(),
            match r {
                None => all_drained(old(self).pending()) && final(self).pending() == old(self).pending(),
                Some(e) => exists|t: int|
                    {
                        &&& is_next_track(old(self).pending(), t)
                        &&& e == old(self).pending()[t][0]
                        &&& final(self).pending() == old(self).pending().update(t, old(self).pending()[t].drop_first())
                    },
            },
            match r {
                None => merge(old(self).pending()).len() == 0,
                Some(e) => merge(old(self).pending()) == seq![e] + merge(final(self).pending()),
            },
    {
        match self.next_track() {
            None => {
                proof {
                    lemma_merge_drained(self.pending());
                }
                None
            },
            Some(t) => {
                proof {
                    self.lemma_head(t as int);
                    lemma_merge_step(self.pending(), t as int);
                }
                let e = self.heads[t];
                let ghost before = *self;
                assert(before.track_wf(t as int));
                self.heads.set(t, None);
                self.advance_track(t);
                proof {
                    assert forall|u: int| 0 <= u < self.tracks@.len() implies #[trigger] self.track_wf(u) by {
                        if u != t {
                            assert(before.track_wf(u));
                        }
                    }
                    let p0 = before.pending();
                    let p1 = self.pending();
                    assert(p1 =~= p0.update(t as int, p0[t as int].drop_first())) by {
                        assert forall|u: int| 0 <= u < p1.len() implies #[trigger] p1[u] == p0.update(
                            t as int,
                            p0[t as int].drop_first(),
                        )[u] by {
                            let sched = track_schedule(self.source@, self.sample_rate, u);
                            if u == t {
                                assert(self.emitted(u) == before.emitted(u) + 1);
                                assert(sched.skip(before.emitted(u) + 1) =~= sched.skip(before.emitted(u)).drop_first());
                            } else {
                                assert(self.emitted(u) == before.emitted(u));
                            }
                        }
                    }
                }
                e
            },
        }
    }

    /// Compatibility alias for [`MidiStream::next_event`].
    pub fn next(&mut self) -> (r: Option<TimedEvent>)
        requires
            old(self).wf(),
        ensures
            final(self).wf(),
            final(self).source() == old(self).source(),
            final(self).rate() == old(self).rate(),
            final(self).end() == old(self).end(),
            final(self).length() == old(self).length(),
            match r {
                None => all_drained(old(self).pending()) && final(self).pending() == old(self).pending(),
                Some(e) => exists|t: int|
                    {
                        &&& is_next_track(old(self).pending(), t)
                        &&& e == old(self).pending()[t][0]
                        &&& final(self).pending() == old(self).pending().update(t, old(self).pending()[t].drop_first())
                    },
            },
            match r {
                None => merge(old(self).pending()).len() == 0,
                Some(e) => merge(old(self).pending()) == seq![e] + merge(final(self).pending()),
            },
    {
        self.next_event()
    }

    /// Hands out every remaining event, one [`MidiStream::next_event`] at a
    /// time, leaving the stream exhausted. From a fresh (or rewound) stream
    /// that is the whole file's schedule: every channel event of the file
    /// once, in ascending sample order, ties in file order.
    pub fn remaining_events(&mut self) -> (r: Vec<TimedEvent>)
        requires
            old(self).wf(),
        ensures
            final(self).wf(),
            final(self).source() == old(self).source(),
            final(self).rate() == old(self).rate(),
            r@ == merge(old(self).pending()),
            all_drained(final(self).pending()),
            old(self).pending() == initial_pending(old(self).source(), old(self).rate()) ==> {
                let evs = timed(
                    file_events(old(self).source().1, old(self).source().1.len() as int),
                    timing_order(file_tempos(old(self).source().1, old(self).source().1.len() as int)),
                    file_tpb(old(self).source()),
                    old(self).rate() as nat,
                );
                &&& r@ == schedule(evs)
                &&& r@.to_multiset() == evs.to_multiset()
                &&& forall|i: int, j: int| 0 <= i < j < r@.len() ==> (#[trigger] r@[i]).sample <= (#[trigger] r@[j]).sample
            },
    {
        let ghost fresh = old(self).pending() == initial_pending(old(self).source(), old(self).rate());
        proof {
            if fresh {
                let c = old(self).source();
                let n = c.1.len() as int;
                old(self).lemma_pending_sorted();
                lemma_flat_initial(c, old(self).rate(), n);
                assert(initial_pending(c, old(self).rate()) =~= Seq::new(
                    n as nat,
                    |t: int| track_schedule(c, old(self).rate(), t),
                ));
            }
        }
        let mut out: Vec<TimedEvent> = Vec::new();
        let ghost whole = merge(self.pending());
        loop
            invariant
                self.wf(),
                self.source() == old(self).source(),
                self.rate() == old(self).rate(),
                whole == merge(old(self).pending()),
                out@ + merge(self.pending()) == whole,
            ensures
                self.wf(),
                self.source() == old(self).source(),
                self.rate() == old(self).rate(),
                out@ == whole,
                all_drained(self.pending()),
            decreases total_len(self.pending()),
        {
            let ghost p0 = self.pending();
            match self.next_event() {
                None => {
                    proof {
                        lemma_merge_drained(p0);
                        assert(out@ + merge(self.pending()) =~= out@);
                    }
                    break;
                },
                Some(e) => {
                    proof {
                        let t = choose|t: int|
                            is_next_track(p0, t) && e == p0[t][0] && self.pending() == p0.update(t, p0[t].drop_first());
                        lemma_total_len_update(p0, t, p0[t].drop_first());
                        assert((out@.push(e)) + merge(self.pending()) =~= out@ + merge(p0));
                    }
                    out.push(e);
                },
            }
        }
        proof {
            if fresh {
                lemma_merge_len(old(self).pending());
                lemma_flat_len(old(self).pending());
                assert(out@.len() == out.len());
                lemma_merge_is_schedule(old(self).pending());
                let c = old(self).source();
                let evs = timed(
                    file_events(c.1, c.1.len() as int),
                    timing_order(file_tempos(c.1, c.1.len() as int)),
                    file_tpb(c),
                    old(self).rate() as nat,
                );
                lemma_schedule_permutation(evs);
                lemma_schedule_ordered(evs);
            }
        }
        out
    }

    /// Resets the stream to the beginning without decoding the file again.
    pub fn rewind(&mut self)
        requires
            old(self).wf(),
        ensures
            final(self).wf(),
            final(self).source() == old(self).source(),
            final(self).rate() == old(self).rate(),
            final(self).end() == old(self).end(),
            final(self).length() == old(self).length(),
            final(self).pending() == initial_pending(old(self).source(), old(self).rate()),
    {
        let n = self.tracks.len();
        let mut t: usize = 0;
        let ghost s0 = *self;
        while t < n
            invariant
                self.base_wf(),
                self.same_base(&s0),
                n == self.tracks@.len(),
                t <= n,
                forall|u: int| 0 <= u < t ==> #[trigger] self.cursors@[u] == 0,
                forall|u: int| 0 <= u < t ==> #[trigger] self.ticks@[u] == 0,
                forall|u: int| 0 <= u < t ==> #[trigger] self.segs@[u] == 0,
                forall|u: int| 0 <= u < t ==> #[trigger] self.heads@[u] is None,
            decreases n - t,
        {
            self.cursors.set(t, 0);
            self.ticks.set(t, 0);
            self.segs.set(t, 0);
            self.heads.set(t, None);
            t = t + 1;
        }
        self.prime();
    }

    /// Each track's pending events are in ascending sample order.
    pub proof fn lemma_pending_sorted(&self)
        requires
            self.wf(),
        ensures
            rows_sorted(self.pending()),
    {
        let p = self.pending();
        assert forall|t: int, i: int, j: int|
            0 <= t < p.len() && 0 <= i < j < p[t].len() implies (#[trigger] p[t][i]).sample <= (
            #[trigger] p[t][j]).sample by {
            let tr = self.track(t);
            assert(self.source@.1[t] == tr);
            let full = track_events(tr, tr.len() as int);
            lemma_track_events_ticks(tr, tr.len() as int);
            let k = self.emitted(t);
            self.lemma_head(t);
            assert(full[i + k].0 <= full[j + k].0);
            lemma_tick_to_sample_monotone(
                self.map.tempos@,
                self.map.ticks_per_beat as nat,
                self.sample_rate as nat,
                full[i + k].0 as nat,
                full[j + k].0 as nat,
            );
        }
    }

    /// Resets every track to its start and loads each track's first event.
    fn prime(&mut self)
        requires
            old(self).base_wf(),
            forall|t: int| 0 <= t < old(self).tracks@.len() ==> old(self).cursors@[t] == 0,
            forall|t: int| 0 <= t < old(self).tracks@.len() ==> old(self).ticks@[t] == 0,
            forall|t: int| 0 <= t < old(self).tracks@.len() ==> old(self).segs@[t] == 0,
            forall|t: int| 0 <= t < old(self).tracks@.len() ==> old(self).heads@[t] is None,
        ensures
            final(self).wf(),
            final(self).same_base(old(self)),
            final(self).pending() == initial_pending(old(self).source@, old(self).sample_rate),
    {
        let n = self.tracks.len();
        let ghost s0 = *self;
        assert(self.map.segs@[0].start == 0);
        let mut t: usize = 0;
        while t < n
            invariant
                self.base_wf(),
                self.same_base(&s0),
                n == self.tracks@.len(),
                t <= n,
                self.map.segs@[0].start == 0,
                forall|u: int| 0 <= u < t ==> #[trigger] self.track_wf(u),
                forall|u: int| 0 <= u < t ==> #[trigger] self.emitted(u) == 0,
                forall|u: int| t <= u < n ==> #[trigger] self.cursors@[u] == 0,
                forall|u: int| t <= u < n ==> #[trigger] self.ticks@[u] == 0,
                forall|u: int| t <= u < n ==> #[trigger] self.segs@[u] == 0,
                forall|u: int| t <= u < n ==> #[trigger] self.heads@[u] is None,
            decreases n - t,
        {
            proof {
                assert(self.cursors@[t as int] == 0);
                assert(self.ticks@[t as int] == 0);
                assert(self.segs@[t as int] == 0);
                assert(self.heads@[t as int] is None);
            }
            let ghost before = *self;
            self.advance_track(t);
            proof {
                assert forall|u: int| 0 <= u < t + 1 implies #[trigger] self.track_wf(u) by {
                    if u < t {
                        assert(before.track_wf(u));
                    }
                }
                assert forall|u: int| 0 <= u < t + 1 implies #[trigger] self.emitted(u) == 0 by {
                    if u < t {
                        assert(before.emitted(u) == 0);
                        assert(self.cursors@[u] == before.cursors@[u]);
                        assert(self.heads@[u] == before.heads@[u]);
                    }
                }
                assert forall|u: int| t + 1 <= u < n implies #[trigger] self.cursors@[u] == 0 by {
                    assert(before.cursors@[u] == 0);
                }
                assert forall|u: int| t + 1 <= u < n implies #[trigger] self.ticks@[u] == 0 by {
                    assert(before.ticks@[u] == 0);
                }
                assert forall|u: int| t + 1 <= u < n implies #[trigger] self.segs@[u] == 0 by {
                    assert(before.segs@[u] == 0);
                }
                assert forall|u: int| t + 1 <= u < n implies #[trigger] self.heads@[u] is None by {
                    assert(before.heads@[u] is None);
                }
            }
            t = t + 1;
        }
        proof {
            assert(self.pending() =~= initial_pending(self.source@, self.sample_rate)) by {
                assert forall|u: int| 0 <= u < n implies #[trigger] self.pending()[u] == initial_pending(
                    self.source@,
                    self.sample_rate,
                )[u] by {
                    assert(self.emitted(u) == 0);
                    let sched = track_schedule(self.source@, self.sample_rate, u);
                    assert(sched.skip(0) =~= sched);
                }
            }
        }
    }
}

/// A stream yields exactly the events of the parsed file, in the same
/// order: the stable sample order of every track's events.
pub proof fn lemma_stream_matches_file(s: MidiStream, f: MidiFile)
    requires
        s.wf(),
        s.pending() == initial_pending(s.source(), s.rate()),
        f.is_schedule_of(s.source(), s.rate()),
    ensures
        merge(s.pending()) == f.sequence.events@,
{
    let c = s.source();
    let sr = s.rate();
    let n = c.1.len() as int;
    s.lemma_pending_sorted();
    lemma_flat_initial(c, sr, n);
    assert(initial_pending(c, sr) =~= Seq::new(n as nat, |t: int| track_schedule(c, sr, t)));
    lemma_file_events_ordered(f, c, sr);
    assert(f.sequence.events.len() == f.sequence.events@.len());
    lemma_merge_is_schedule(s.pending());
}

/// Collects the tempo changes and the largest tick, without the events.
fn scan_tempos(data: &SmfData) -> (res: Result<(Vec<(u64, u32)>, u64), MidiError>)
    ensures
        match res {
            Ok((tempos, length)) => {
                let tracks = data@.1;
                &&& ticks_fit(tracks)
                &&& tempos@ == file_tempos(tracks, tracks.len() as int)
                &&& length == file_length(tracks, tracks.len() as int)
            },
            Err(e) => !ticks_fit(data@.1) && e == MidiError::TickOverflow,
        },
{
    let ghost tracks = data@.1;
    let mut tempos: Vec<(u64, u32)> = Vec::new();
    let mut length: u64 = 0;
    let mut t: usize = 0;
    while t < data.tracks.len()
        invariant
            tracks == data@.1,
            tracks.len() == data.tracks@.len(),
            t <= tracks.len(),
            tempos@ == file_tempos(tracks, t as int),
            length == crate::midi::parser::file_length(tracks, t as int),
            forall|u: int| 0 <= u < t ==> tick_after(#[trigger] tracks[u], tracks[u].len() as int) <= u64::MAX,
        decreases tracks.len() - t,
    {
        let track = &data.tracks[t];
        let ghost tr = tracks[t as int];
        assert(tr == track@);
        let mut tick: u64 = 0;
        let mut i: usize = 0;
        while i < track.len()
            invariant
                tracks == data@.1,
                tracks.len() == data.tracks@.len(),
                t < tracks.len(),
                tr == tracks[t as int],
                tr == track@,
                forall|u: int| 0 <= u < t ==> tick_after(#[trigger] tracks[u], tracks[u].len() as int) <= u64::MAX,
                i <= tr.len(),
                tick == tick_after(tr, i as int),
                tempos@ == file_tempos(tracks, t as int) + track_tempos(tr, i as int),
                length == if file_length(tracks, t as int) >= tick_after(tr, i as int) {
                    file_length(tracks, t as int)
                } else {
                    tick_after(tr, i as int)
                },
            decreases tr.len() - i,
        {
            let ev = track[i];
            match tick.checked_add(ev.delta as u64) {
                Some(next) => {
                    tick = next;
                },
                None => {
                    proof {
                        lemma_tick_after_monotone(tr, i + 1, tr.len() as int);
                        assert(tick_after(tracks[t as int], tracks[t as int].len() as int) > u64::MAX);
                    }
                    return Err(MidiError::TickOverflow);
                },
            }
            if tick > length {
                length = tick;
            }
            if let SmfEventKind::Tempo(us) = ev.kind {
                tempos.push((tick, us));
            }
            proof {
                assert(file_tempos(tracks, t as int) + track_tempos(tr, i + 1) =~= tempos@);
            }
            i = i + 1;
        }
        proof {
            assert(file_tempos(tracks, t + 1) =~= tempos@);
        }
        t = t + 1;
    }
    Ok((tempos, length))
}

} // verus!
