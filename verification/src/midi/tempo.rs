//! Tempo maps: conversion of MIDI ticks to output sample positions.
//!
//! A tempo map is the list of tempo changes `(tick, µs per quarter note)`
//! ordered by tick; before the first change the tempo is 500 000 µs per
//! quarter note (120 BPM). Elapsed time is tracked exactly, in units of
//! `µs × ticks` (so that seconds = value / (1 000 000 × ticks per beat)),
//! and a tick is mapped to the nearest output sample (halves round up).

use vstd::prelude::*;

verus! {

/// Tempo before the first tempo change: 500 000 µs per quarter note.
pub const DEFAULT_TEMPO: u32 = 500_000;

/// `a - b`, or 0 when `b > a`.
pub open spec fn nat_sub(a: nat, b: nat) -> nat {
    if a >= b { (a - b) as nat } else { 0 }
}

/// Tempo changes are ordered by tick.
pub open spec fn tempos_sorted(t: Seq<(u64, u32)>) -> bool {
    forall|i: int, j: int| 0 <= i < j < t.len() ==> #[trigger] t[i].0 <= #[trigger] t[j].0
}

/// First tick of the `k`-th tempo segment (segment 0 starts the file).
pub open spec fn seg_start(t: Seq<(u64, u32)>, k: nat) -> nat {
    if k == 0 { 0 } else { t[k - 1].0 as nat }
}

/// µs per quarter note in the `k`-th tempo segment.
pub open spec fn seg_tempo(t: Seq<(u64, u32)>, k: nat) -> nat {
    if k == 0 { DEFAULT_TEMPO as nat } else { t[k - 1].1 as nat }
}

/// Elapsed time (µs × ticks) at the start of the `k`-th tempo segment.
pub open spec fn time_at_change(t: Seq<(u64, u32)>, k: nat) -> nat
    decreases k,
{
    if k == 0 {
        0
    } else {
        time_at_change(t, (k - 1) as nat) + nat_sub(seg_start(t, k), seg_start(t, (k - 1) as nat))
            * seg_tempo(t, (k - 1) as nat)
    }
}

/// Number of tempo changes at or before `tick`.
pub open spec fn changes_up_to(t: Seq<(u64, u32)>, tick: nat) -> nat
    decreases t.len(),
{
    if t.len() == 0 {
        0
    } else {
        changes_up_to(t.drop_last(), tick) + if t.last().0 <= tick { 1nat } else { 0nat }
    }
}

/// Elapsed time (µs × ticks) at `tick`: the time at the latest tempo change
/// at or before `tick`, plus the ticks since then at that tempo.
pub open spec fn beat_time(t: Seq<(u64, u32)>, tick: nat) -> nat {
    let k = changes_up_to(t, tick);
    time_at_change(t, k) + nat_sub(tick, seg_start(t, k)) * seg_tempo(t, k)
}

/// `n / d` rounded to the nearest integer, halves rounded up.
pub open spec fn round_div(n: nat, d: nat) -> nat {
    ((2 * n + d) / (2 * d)) as nat
}

/// `x`, saturated to the `u64` range.
pub open spec fn clamp_u64(x: nat) -> u64 {
    if x > u64::MAX { u64::MAX } else { x as u64 }
}

/// The output sample nearest to `tick` at `sample_rate` Hz, saturated to `u64`.
pub open spec fn tick_to_sample(t: Seq<(u64, u32)>, ticks_per_beat: nat, sample_rate: nat, tick: nat) -> u64 {
    clamp_u64(round_div(beat_time(t, tick) * sample_rate, 1_000_000 * ticks_per_beat))
}

/// Without tempo changes every quarter note lasts 500 000 µs (120 BPM): a
/// tick lands on `tick × 500 000 × rate / (1 000 000 × ticks per beat)`,
/// rounded to the nearest sample.
pub proof fn lemma_default_tempo(ticks_per_beat: nat, sample_rate: nat, tick: nat)
    ensures
        tick_to_sample(seq![], ticks_per_beat, sample_rate, tick) == clamp_u64(
            round_div(tick * 500_000 * sample_rate, 1_000_000 * ticks_per_beat),
        ),
{
    let t: Seq<(u64, u32)> = seq![];
    assert(changes_up_to(t, tick) == 0);
    assert(beat_time(t, tick) == tick * 500_000);
}

/// Between two tempo changes time runs at the tempo of the last change: if
/// no change lies in `(a, b]`, the elapsed time from tick `a` to tick `b`
/// is `b - a` ticks at that tempo.
pub proof fn lemma_tempo_segment_rate(t: Seq<(u64, u32)>, a: nat, b: nat)
    requires
        tempos_sorted(t),
        a <= b,
        changes_up_to(t, a) == changes_up_to(t, b),
    ensures
        beat_time(t, b) == beat_time(t, a) + (b - a) * seg_tempo(t, changes_up_to(t, a)),
{
    lemma_changes_up_to_bounds(t, a);
    let k = changes_up_to(t, a);
    let s = seg_start(t, k);
    let u = seg_tempo(t, k);
    assert(s <= a);
    assert(nat_sub(b, s) * u == nat_sub(a, s) * u + (b - a) * u) by (nonlinear_arith)
        requires
            nat_sub(b, s) == nat_sub(a, s) + (b - a),
    ;
}

/// One tempo segment: its first tick, the elapsed time there, its tempo.
#[derive(Debug, Clone, Copy, PartialEq, Eq)]
pub struct TempoSeg {
    pub start: u64,
    pub time: u128,
    pub tempo: u32,
}

/// A tempo map ready for tick to sample conversion.
pub struct TempoMap {
    pub ticks_per_beat: u64,
    pub sample_rate: u32,
    pub segs: Vec<TempoSeg>,
    pub tempos: Ghost<Seq<(u64, u32)>>,
}

/// Segments are the tempo changes of `t`, each with its elapsed time.
pub open spec fn segs_match(segs: Seq<TempoSeg>, t: Seq<(u64, u32)>) -> bool {
    &&& segs.len() == t.len() + 1
    &&& forall|k: int|
        0 <= k < segs.len() ==> {
            &&& (#[trigger] segs[k]).start == seg_start(t, k as nat)
            &&& segs[k].time == time_at_change(t, k as nat)
            &&& segs[k].tempo == seg_tempo(t, k as nat)
        }
}

/// `k` is the segment holding `tick`.
pub open spec fn seg_holds(segs: Seq<TempoSeg>, k: int, tick: nat) -> bool {
    &&& 0 <= k < segs.len()
    &&& segs[k].start <= tick
    &&& (k + 1 == segs.len() || tick < segs[k + 1].start)
}

/// Elapsed time at a tempo change is at most its tick times the largest
/// possible tempo.
pub proof fn lemma_time_bound(t: Seq<(u64, u32)>, k: nat)
    requires
        tempos_sorted(t),
        k <= t.len(),
    ensures
        time_at_change(t, k) <= seg_start(t, k) * 0x1_0000_0000,
    decreases k,
{
    if k > 0 {
        lemma_time_bound(t, (k - 1) as nat);
        let a = seg_start(t, (k - 1) as nat);
        let b = seg_start(t, k);
        let u = seg_tempo(t, (k - 1) as nat);
        if k >= 2 {
            assert(t[k - 2].0 <= t[k - 1].0);
        }
        assert(a <= b);
        assert(u < 0x1_0000_0000);
        assert(nat_sub(b, a) * u <= nat_sub(b, a) * 0x1_0000_0000) by (nonlinear_arith)
            requires u < 0x1_0000_0000;
        assert(a * 0x1_0000_0000 + nat_sub(b, a) * 0x1_0000_0000 == b * 0x1_0000_0000) by (nonlinear_arith)
            requires nat_sub(b, a) == b - a;
    }
}

/// With sorted changes, `k` changes are at or before `tick` when the first
/// `k` are and the rest are not.
pub proof fn lemma_changes_up_to(t: Seq<(u64, u32)>, tick: nat, k: nat)
    requires
        tempos_sorted(t),
        k <= t.len(),
        k == 0 || t[k - 1].0 <= tick,
        k == t.len() || tick < t[k as int].0,
    ensures
        changes_up_to(t, tick) == k,
    decreases t.len(),
{
    if t.len() > 0 {
        let d = t.drop_last();
        assert(tempos_sorted(d));
        if t.len() > k {
            assert(t[k as int].0 <= t.last().0);
            lemma_changes_up_to(d, tick, k);
        } else {
            if k >= 2 {
                assert(t[k - 2].0 <= t[k - 1].0);
            }
            lemma_changes_up_to(d, tick, (k - 1) as nat);
        }
    }
}

/// The segment holding `tick` is the one counted by `changes_up_to`.
pub proof fn lemma_seg_holds(segs: Seq<TempoSeg>, t: Seq<(u64, u32)>, k: int, tick: nat)
    requires
        tempos_sorted(t),
        segs_match(segs, t),
        seg_holds(segs, k, tick),
    ensures
        changes_up_to(t, tick) == k,
{
    assert(segs[k].start == seg_start(t, k as nat));
    if k + 1 < segs.len() {
        assert(segs[k + 1].start == seg_start(t, (k + 1) as nat));
    }
    lemma_changes_up_to(t, tick, k as nat);
}

/// `changes_up_to` counts a prefix: the changes before it are at or before
/// `tick`, the next one is after it.
pub proof fn lemma_changes_up_to_bounds(t: Seq<(u64, u32)>, tick: nat)
    requires
        tempos_sorted(t),
    ensures
        changes_up_to(t, tick) <= t.len(),
        changes_up_to(t, tick) > 0 ==> t[changes_up_to(t, tick) - 1].0 <= tick,
        changes_up_to(t, tick) < t.len() ==> tick < t[changes_up_to(t, tick) as int].0,
    decreases t.len(),
{
    if t.len() > 0 {
        let d = t.drop_last();
        assert(tempos_sorted(d));
        lemma_changes_up_to_bounds(d, tick);
        let k = changes_up_to(d, tick);
        if t.last().0 <= tick {
            if k < d.len() {
                assert(t[k as int].0 <= t.last().0);
            }
        } else {
            if k > 0 {
                assert(d[k - 1] == t[k - 1]);
            }
            if k < d.len() {
                assert(d[k as int] == t[k as int]);
            }
        }
    }
}

/// Elapsed time at tempo changes grows with the change index.
pub proof fn lemma_time_at_change_monotone(t: Seq<(u64, u32)>, i: nat, j: nat)
    requires
        i <= j,
    ensures
        time_at_change(t, i) <= time_at_change(t, j),
    decreases j,
{
    if i < j {
        lemma_time_at_change_monotone(t, i, (j - 1) as nat);
    }
}

/// Elapsed time grows with the tick.
pub proof fn lemma_beat_time_monotone(t: Seq<(u64, u32)>, a: nat, b: nat)
    requires
        tempos_sorted(t),
        a <= b,
    ensures
        beat_time(t, a) <= beat_time(t, b),
{
    let ka = changes_up_to(t, a);
    let kb = changes_up_to(t, b);
    lemma_changes_up_to_bounds(t, a);
    lemma_changes_up_to_bounds(t, b);
    if kb < ka {
        assert(t[kb as int].0 <= t[ka - 1].0);
        assert(false);
    }
    let sa = seg_start(t, ka);
    let ua = seg_tempo(t, ka);
    if ka == kb {
        assert(nat_sub(a, sa) * ua <= nat_sub(b, sa) * ua) by (nonlinear_arith)
            requires nat_sub(a, sa) <= nat_sub(b, sa);
    } else {
        let next = seg_start(t, ka + 1);
        if ka > 0 {
            assert(t[ka - 1].0 <= t[ka as int].0);
        }
        assert(sa <= a < next);
        assert(nat_sub(a, sa) * ua <= nat_sub(next, sa) * ua) by (nonlinear_arith)
            requires nat_sub(a, sa) <= nat_sub(next, sa);
        assert(time_at_change(t, ka + 1) == time_at_change(t, ka) + nat_sub(next, sa) * ua);
        lemma_time_at_change_monotone(t, ka + 1, kb);
    }
}

/// Later ticks map to later (or equal) samples.
pub proof fn lemma_tick_to_sample_monotone(t: Seq<(u64, u32)>, tpb: nat, sr: nat, a: nat, b: nat)
    requires
        tempos_sorted(t),
        tpb > 0,
        a <= b,
    ensures
        tick_to_sample(t, tpb, sr, a) <= tick_to_sample(t, tpb, sr, b),
{
    lemma_beat_time_monotone(t, a, b);
    let x = beat_time(t, a);
    let y = beat_time(t, b);
    assert(x * sr <= y * sr) by (nonlinear_arith)
        requires x <= y;
    let na = x * sr;
    let nb = y * sr;
    let d = 1_000_000 * tpb;
    vstd::arithmetic::div_mod::lemma_div_is_ordered((2 * na + d) as int, (2 * nb + d) as int, (2 * d) as int);
}

/// Adding whole multiples of the divisor before rounding.
proof fn lemma_round_split(n: nat, s: nat, d: nat, q: nat, r: nat)
    requires
        d > 0,
        n == q * d + r,
        r < d,
    ensures
        round_div(n * s, d) == q * s + (2 * r * s + d) / (2 * d),
{
    assert(2 * (n * s) + d == (2 * r * s + d) + (q * s) * (2 * d)) by (nonlinear_arith)
        requires n == q * d + r;
    vstd::arithmetic::div_mod::lemma_hoist_over_denominator((2 * r * s + d) as int, (q * s) as int, (2 * d) as nat);
    assert((2 * r * s + d) / (2 * d) >= 0) by (nonlinear_arith)
        requires d > 0;
}

impl TempoMap {
    /// The map is built from the sorted tempo changes it was made from.
    pub open spec fn wf(&self) -> bool {
        &&& 0 < self.ticks_per_beat <= 0xFFFF
        &&& tempos_sorted(self.tempos@)
        &&& segs_match(self.segs@, self.tempos@)
    }

    /// The output sample of `tick`.
    pub open spec fn sample_of(&self, tick: nat) -> u64 {
        tick_to_sample(self.tempos@, self.ticks_per_beat as nat, self.sample_rate as nat, tick)
    }

    /// Builds the map for tempo changes `t` (ordered by tick).
    pub fn new(t: &Vec<(u64, u32)>, ticks_per_beat: u64, sample_rate: u32) -> (m: TempoMap)
        requires
            tempos_sorted(t@),
            0 < ticks_per_beat <= 0xFFFF,
        ensures
            m.wf(),
            m.tempos@ == t@,
            m.ticks_per_beat == ticks_per_beat,
            m.sample_rate == sample_rate,
    {
        let mut segs: Vec<TempoSeg> = Vec::new();
        segs.push(TempoSeg { start: 0, time: 0, tempo: DEFAULT_TEMPO });
        let mut i: usize = 0;
        while i < t.len()
            invariant
                tempos_sorted(t@),
                i <= t.len(),
                segs@.len() == i + 1,
                forall|k: int|
                    0 <= k < segs@.len() ==> {
                        &&& (#[trigger] segs@[k]).start == seg_start(t@, k as nat)
                        &&& segs@[k].time == time_at_change(t@, k as nat)
                        &&& segs@[k].tempo == seg_tempo(t@, k as nat)
                    },
            decreases t.len() - i,
        {
            let prev = segs[i];
            let (tick, us) = t[i];
            proof {
                if i > 0 {
                    assert(t@[i - 1].0 <= t@[i as int].0);
                }
                lemma_time_bound(t@, (i + 1) as nat);
                assert(seg_start(t@, (i + 1) as nat) * 0x1_0000_0000 <= u64::MAX as nat * 0x1_0000_0000)
                    by (nonlinear_arith)
                    requires seg_start(t@, (i + 1) as nat) <= u64::MAX;
            }
            let time = prev.time + ((tick - prev.start) as u128) * (prev.tempo as u128);
            segs.push(TempoSeg { start: tick, time, tempo: us });
            i = i + 1;
        }
        TempoMap { ticks_per_beat, sample_rate, segs, tempos: Ghost(t@) }
    }

    /// The output sample of `tick`, given the segment `k` that holds it.
    pub fn sample_in_seg(&self, k: usize, tick: u64) -> (s: u64)
        requires
            self.wf(),
            seg_holds(self.segs@, k as int, tick as nat),
        ensures
            s == self.sample_of(tick as nat),
    {
        let seg = self.segs[k];
        proof {
            lemma_seg_holds(self.segs@, self.tempos@, k as int, tick as nat);
            lemma_time_bound(self.tempos@, k as nat);
            assert(seg.start as nat * 0x1_0000_0000 <= u64::MAX as nat * 0x1_0000_0000) by (nonlinear_arith)
                requires seg.start <= u64::MAX;
            let a: nat = (tick - seg.start) as nat;
            let b: nat = seg.tempo as nat;
            assert(a * b <= u64::MAX as nat * 0x1_0000_0000) by (nonlinear_arith)
                requires a <= u64::MAX, b < 0x1_0000_0000;
        }
        let n: u128 = seg.time + ((tick - seg.start) as u128) * (seg.tempo as u128);
        let d: u128 = 1_000_000u128 * (self.ticks_per_beat as u128);
        let q: u128 = n / d;
        let r: u128 = n % d;
        let sr: u128 = self.sample_rate as u128;
        proof {
            assert(n as nat == beat_time(self.tempos@, tick as nat));
            vstd::arithmetic::div_mod::lemma_fundamental_div_mod(n as int, d as int);
            assert(n == d * q + r);
            lemma_round_split(n as nat, sr as nat, d as nat, q as nat, r as nat);
        }
        if sr == 0 {
            proof {
                assert(round_div(0, d as nat) == 0) by {
                    vstd::arithmetic::div_mod::lemma_basic_div(d as int, (2 * d) as int);
                }
                assert(n as nat * 0 == 0);
            }
            return 0;
        }
        if q > u64::MAX as u128 {
            proof {
                assert(q as nat * sr as nat >= q as nat) by (nonlinear_arith)
                    requires sr >= 1;
            }
            return u64::MAX;
        }
        proof {
            assert(2 * (r as nat) * (sr as nat) + d as nat <= 2 * (d as nat) * 0x1_0000_0000 + d as nat)
                by (nonlinear_arith)
                requires r < d, sr <= 0x1_0000_0000;
            assert(q as nat * sr as nat <= 0x1_0000_0000_0000_0000 * 0x1_0000_0000) by (nonlinear_arith)
                requires q <= u64::MAX, sr <= 0x1_0000_0000;
        }
        let whole: u128 = q * sr;
        let frac: u128 = (2 * r * sr + d) / (2 * d);
        proof {
            vstd::arithmetic::div_mod::lemma_div_is_ordered(
                (2 * r * sr + d) as int,
                (2 * d * 0x1_0000_0000 + d) as int,
                (2 * d) as int,
            );
            assert((2 * d * 0x1_0000_0000 + d) / (2 * d) <= 0x1_0000_0000) by (nonlinear_arith)
                requires d > 0;
        }
        let total = whole + frac;
        if total > u64::MAX as u128 {
            u64::MAX
        } else {
            total as u64
        }
    }

    /// Moves segment index `k` forward to the segment holding `tick`.
    pub fn advance(&self, k: usize, tick: u64) -> (r: usize)
        requires
            self.wf(),
            k < self.segs@.len(),
            self.segs@[k as int].start <= tick,
        ensures
            seg_holds(self.segs@, r as int, tick as nat),
            k <= r,
    {
        let n = self.segs.len();
        let mut j = k;
        while j < n - 1 && self.segs[j + 1].start <= tick
            invariant
                self.wf(),
                n == self.segs@.len(),
                k <= j < n,
                self.segs@[j as int].start <= tick,
            decreases self.segs@.len() - j,
        {
            j = j + 1;
        }
        j
    }
}

} // verus!
