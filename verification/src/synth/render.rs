//! Decisions of the offline render loop, and the event clock that feeds the
//! engine one block at a time.
//!
//! The loop that renders a MIDI file alternates GPU work with decisions:
//! the GPU renders a block, the decisions say whether that block is kept and
//! what the loop does next. The decisions live here as a state machine; the
//! caller performs each block and reports what it saw.

use crate::midi::{MidiEvent, TimedEvent};
use vstd::prelude::*;

verus! {

/// Hard ceiling for a single offline render, in frames (about 9.3 hours at
/// 64 kHz); well below the 2^32 frame range of the GPU timestamps.
pub const MAX_RENDER_FRAMES: u64 = 2147483648;

/// The frame at which an offline render gives up while sound still plays:
/// the last event plus the tail budget, never past [`MAX_RENDER_FRAMES`].
pub open spec fn horizon(events_end: u64, tail_frames: u64) -> int {
    let wanted: int = events_end + tail_frames;
    if wanted < MAX_RENDER_FRAMES {
        wanted
    } else {
        MAX_RENDER_FRAMES as int
    }
}

/// Computes [`horizon`].
pub fn render_horizon(events_end: u64, tail_frames: u64) -> (h: u64)
    ensures
        h == horizon(events_end, tail_frames),
{
    let wanted: u64 = events_end.saturating_add(tail_frames);
    if wanted < MAX_RENDER_FRAMES {
        wanted
    } else {
        MAX_RENDER_FRAMES
    }
}

/// Where an offline render stands.
#[derive(Debug, Clone, Copy, PartialEq, Eq, Structural)]
pub enum RenderPhase {
    /// Events are still being applied, or voices are still sounding.
    Events,
    /// All events are applied: render until a block is silent.
    Tail,
    /// One more block drains the pipeline; it is kept unless silent.
    Flush,
    /// The render is complete.
    Finished,
    /// The horizon was reached with sound still playing.
    TimedOut,
}

/// Order of the phases: each transition moves to a lower rank.
pub open spec fn phase_rank(p: RenderPhase) -> nat {
    match p {
        RenderPhase::Events => 3,
        RenderPhase::Tail => 2,
        RenderPhase::Flush => 1,
        _ => 0,
    }
}

/// A phase in which blocks are still rendered.
pub open spec fn running(p: RenderPhase) -> bool {
    p == RenderPhase::Events || p == RenderPhase::Tail || p == RenderPhase::Flush
}

/// The phase after the check made before a block: once the events are
/// applied and no voice is left, the render goes straight to its tail.
pub open spec fn phase_before_block(p: RenderPhase, events_done: bool, voices_empty: bool) -> RenderPhase {
    if p == RenderPhase::Events && events_done && voices_empty {
        RenderPhase::Tail
    } else {
        p
    }
}

/// The phase of a full render after a block that ended at `frame`.
pub open spec fn phase_after_block(
    p: RenderPhase,
    events_done: bool,
    silent: bool,
    frame: u64,
    horizon: u64,
) -> RenderPhase {
    match p {
        RenderPhase::Events => if events_done && silent {
            RenderPhase::Tail
        } else if frame >= horizon {
            RenderPhase::TimedOut
        } else {
            RenderPhase::Events
        },
        RenderPhase::Tail => if silent {
            RenderPhase::Flush
        } else if frame >= horizon {
            RenderPhase::TimedOut
        } else {
            RenderPhase::Tail
        },
        RenderPhase::Flush => RenderPhase::Finished,
        _ => p,
    }
}

/// How many frames of a block of `block` frames that ended at `frame` a
/// full render keeps: all of them or none.
pub open spec fn block_kept(
    p: RenderPhase,
    events_done: bool,
    silent: bool,
    frame: u64,
    block: u64,
    horizon: u64,
) -> int {
    match p {
        RenderPhase::Events => if (events_done && silent) || frame >= horizon {
            0
        } else {
            block as int
        },
        RenderPhase::Tail => if silent || frame >= horizon {
            0
        } else {
            block as int
        },
        RenderPhase::Flush => if silent {
            0
        } else {
            block as int
        },
        _ => 0,
    }
}

/// The decisions of one offline render.
#[derive(Debug, Clone, Copy, PartialEq, Eq, Structural)]
pub struct OfflineRender {
    /// Where the render stands.
    pub phase: RenderPhase,
    /// The frame at which the render gives up while sound plays.
    pub horizon: u64,
    /// The number of output frames requested, if any: the output is then
    /// the first that many frames of the full render.
    pub limit: Option<u64>,
    /// Output frames kept so far (counted when a limit is set).
    pub kept: u64,
}

/// A render with a limit has kept at most that many frames.
pub open spec fn render_wf(m: OfflineRender) -> bool {
    m.limit matches Some(n) ==> m.kept <= n
}

/// The render after the check made before a block; a render that has
/// kept all the frames it was asked for is complete.
pub open spec fn step_before(m: OfflineRender, events_done: bool, voices_empty: bool) -> OfflineRender {
    let p = phase_before_block(m.phase, events_done, voices_empty);
    let done = match m.limit {
        Some(n) => m.kept >= n,
        None => false,
    };
    OfflineRender { phase: if done && running(p) { RenderPhase::Finished } else { p }, ..m }
}

/// The render after a block, and the number of leading frames of the
/// block that belong to the output. With a limit, the full render's
/// decision is cut to the frames still wanted; the render is complete once
/// they are kept, or where the full render would give up.
pub open spec fn step_after(
    m: OfflineRender,
    events_done: bool,
    silent: bool,
    frame: u64,
    block: u64,
) -> (OfflineRender, int) {
    let q = phase_after_block(m.phase, events_done, silent, frame, m.horizon);
    let k = block_kept(m.phase, events_done, silent, frame, block, m.horizon);
    match m.limit {
        None => (OfflineRender { phase: q, ..m }, k),
        Some(n) => {
            let keep = if k < n - m.kept { k } else { n - m.kept };
            let total = m.kept + keep;
            let q2 = if total >= n || q == RenderPhase::TimedOut { RenderPhase::Finished } else { q };
            (OfflineRender { phase: q2, kept: total as u64, ..m }, keep)
        },
    }
}

impl OfflineRender {
    /// Starts a render of events that end at `events_end`, allowing
    /// `tail_frames` of decay after them; with `limit`, only the first
    /// `limit` output frames are wanted.
    pub fn new(events_end: u64, tail_frames: u64, limit: Option<u64>) -> (r: OfflineRender)
        ensures
            r.phase == RenderPhase::Events,
            r.horizon == horizon(events_end, tail_frames),
            r.limit == limit,
            r.kept == 0,
            render_wf(r),
    {
        OfflineRender {
            phase: RenderPhase::Events,
            horizon: render_horizon(events_end, tail_frames),
            limit,
            kept: 0,
        }
    }

    /// The check made before each block. Returns whether a block is to be
    /// rendered now.
    pub fn before_block(&mut self, events_done: bool, voices_empty: bool) -> (render: bool)
        ensures
            *final(self) == step_before(*old(self), events_done, voices_empty),
            render == running(final(self).phase),
    {
        if events_done && voices_empty && self.phase == RenderPhase::Events {
            self.phase = RenderPhase::Tail;
        }
        let done = match self.limit {
            Some(n) => self.kept >= n,
            None => false,
        };
        let run = match self.phase {
            RenderPhase::Events | RenderPhase::Tail | RenderPhase::Flush => true,
            _ => false,
        };
        if done && run {
            self.phase = RenderPhase::Finished;
        }
        run && !done
    }

    /// Records a block of `block` frames that ended at `frame` and was (or
    /// was not) silent. Returns how many of its leading frames belong to
    /// the output.
    pub fn after_block(&mut self, events_done: bool, silent: bool, frame: u64, block: u64) -> (keep: u64)
        requires
            render_wf(*old(self)),
        ensures
            (*final(self), keep as int) == step_after(*old(self), events_done, silent, frame, block),
            render_wf(*final(self)),
            keep <= block,
            old(self).limit is None && old(self).phase == RenderPhase::Events && !events_done && frame
                < old(self).horizon ==> keep == block && final(self).phase == RenderPhase::Events,
            old(self).limit is None && keep > 0 && old(self).phase != RenderPhase::Flush ==> frame
                < old(self).horizon,
    {
        let q = match self.phase {
            RenderPhase::Events => if events_done && silent {
                RenderPhase::Tail
            } else if frame >= self.horizon {
                RenderPhase::TimedOut
            } else {
                RenderPhase::Events
            },
            RenderPhase::Tail => if silent {
                RenderPhase::Flush
            } else if frame >= self.horizon {
                RenderPhase::TimedOut
            } else {
                RenderPhase::Tail
            },
            RenderPhase::Flush => RenderPhase::Finished,
            other => other,
        };
        let k: u64 = match self.phase {
            RenderPhase::Events => if (events_done && silent) || frame >= self.horizon {
                0
            } else {
                block
            },
            RenderPhase::Tail => if silent || frame >= self.horizon {
                0
            } else {
                block
            },
            RenderPhase::Flush => if silent {
                0
            } else {
                block
            },
            _ => 0,
        };
        match self.limit {
            None => {
                self.phase = q;
                k
            },
            Some(n) => {
                let left = n - self.kept;
                let keep = if k < left { k } else { left };
                self.kept = self.kept + keep;
                self.phase = if self.kept >= n || q == RenderPhase::TimedOut {
                    RenderPhase::Finished
                } else {
                    q
                };
                keep
            },
        }
    }

    /// The render is over, complete or failed.
    pub fn is_done(&self) -> (r: bool)
        ensures
            r == !running(self.phase),
    {
        match self.phase {
            RenderPhase::Finished | RenderPhase::TimedOut => true,
            _ => false,
        }
    }

    /// The render ended because the horizon was reached with sound playing.
    pub fn timed_out(&self) -> (r: bool)
        ensures
            r == (self.phase == RenderPhase::TimedOut),
    {
        match self.phase {
            RenderPhase::TimedOut => true,
            _ => false,
        }
    }
}

/// What is left of a render whose last block ended at `frame`: the phases
/// still to go, then the frames up to the horizon.
pub open spec fn render_measure(p: RenderPhase, horizon: u64, frame: u64) -> nat {
    let left: nat = if frame < horizon {
        (horizon - frame) as nat
    } else {
        0
    };
    phase_rank(p) * (horizon as nat + 1) + left
}

/// Every step of a render brings it closer to its end: the check before a
/// block never adds work, and a block that ends later than the one before
/// strictly shrinks what is left. So a render whose blocks advance the frame
/// ends after finitely many blocks.
pub proof fn lemma_render_progress(
    m: OfflineRender,
    events_done: bool,
    voices_empty: bool,
    silent: bool,
    prev_frame: u64,
    frame: u64,
    block: u64,
)
    requires
        running(m.phase),
        prev_frame < frame,
    ensures
        render_measure(step_before(m, events_done, voices_empty).phase, m.horizon, prev_frame)
            <= render_measure(m.phase, m.horizon, prev_frame),
        render_measure(step_after(m, events_done, silent, frame, block).0.phase, m.horizon, frame)
            < render_measure(m.phase, m.horizon, prev_frame),
{
    let h1 = m.horizon as nat + 1;
    let p = m.phase;
    let q = step_after(m, events_done, silent, frame, block).0.phase;
    assert(phase_rank(q) <= phase_rank(p));
    if phase_rank(q) < phase_rank(p) {
        assert(phase_rank(q) * h1 + h1 <= phase_rank(p) * h1) by (nonlinear_arith)
            requires
                phase_rank(q) + 1 <= phase_rank(p),
        ;
    }
    let b = step_before(m, events_done, voices_empty).phase;
    assert(phase_rank(b) * h1 <= phase_rank(p) * h1) by (nonlinear_arith)
        requires
            phase_rank(b) <= phase_rank(p),
    ;
}

/// A render with a requested frame count never fails: where the full render
/// would give up, it completes with what it has.
pub proof fn lemma_limited_never_times_out(
    m: OfflineRender,
    events_done: bool,
    silent: bool,
    frame: u64,
    block: u64,
)
    requires
        m.limit is Some,
        m.phase != RenderPhase::TimedOut,
    ensures
        step_after(m, events_done, silent, frame, block).0.phase != RenderPhase::TimedOut,
{
}

/// A full render that reaches its horizon while its blocks still sound
/// fails; one that falls silent after its events first never does.
pub proof fn lemma_timeout_exactly_when_sounding(
    p: RenderPhase,
    horizon: u64,
    events_done: bool,
    silent: bool,
    frame: u64,
)
    requires
        p == RenderPhase::Events || p == RenderPhase::Tail,
    ensures
        phase_after_block(p, events_done, silent, frame, horizon) == RenderPhase::TimedOut
            <==> frame >= horizon && !silent || (frame >= horizon && p == RenderPhase::Events
            && !events_done),
{
}

/// What a block reports to the render: events applied, no voice left,
/// silent, the frame it ended at, its length.
pub type BlockReport = (bool, bool, bool, u64, u64);

/// The frames each block of a run keeps, for the blocks rendered before the
/// render ends.
pub open spec fn run_kept(m: OfflineRender, blocks: Seq<BlockReport>) -> Seq<int>
    decreases blocks.len(),
{
    if blocks.len() == 0 {
        seq![]
    } else {
        let b = blocks[0];
        let m1 = step_before(m, b.0, b.1);
        if !running(m1.phase) {
            seq![]
        } else {
            let (m2, k) = step_after(m1, b.0, b.2, b.3, b.4);
            seq![k] + run_kept(m2, blocks.drop_first())
        }
    }
}

/// The sum of `s`.
pub open spec fn total(s: Seq<int>) -> int
    decreases s.len(),
{
    if s.len() == 0 {
        0
    } else {
        s[0] + total(s.drop_first())
    }
}

/// A render with a limit is a prefix of the full render: on the same
/// blocks it keeps, block by block, what the full render keeps, cut where
/// the requested frames are reached, and so `min(limit, full output)`
/// frames in all. (Started from the same state, a limit of `n` of which
/// `kept` frames are already kept.)
pub proof fn lemma_limited_is_prefix(f: OfflineRender, n: u64, kept: u64, blocks: Seq<BlockReport>)
    requires
        f.limit is None,
        kept <= n,
    ensures
        ({
            let l = OfflineRender { limit: Some(n), kept, ..f };
            let full = run_kept(f, blocks);
            let lim = run_kept(l, blocks);
            &&& lim.len() <= full.len()
            &&& forall|i: int|
                0 <= i < lim.len() ==> #[trigger] lim[i] == if full[i] < n - kept - total(full.take(i)) {
                    full[i]
                } else {
                    n - kept - total(full.take(i))
                }
            &&& total(lim) == if total(full) < n - kept {
                total(full)
            } else {
                n - kept
            }
        }),
    decreases blocks.len(),
{
    let l = OfflineRender { limit: Some(n), kept, ..f };
    let full = run_kept(f, blocks);
    let lim = run_kept(l, blocks);
    lemma_run_nonneg(f, blocks);
    if blocks.len() > 0 {
        let b = blocks[0];
        let f1 = step_before(f, b.0, b.1);
        let l1 = step_before(l, b.0, b.1);
        if kept >= n {
            assert(lim =~= Seq::<int>::empty());
        } else if running(f1.phase) {
            assert(l1 == OfflineRender { limit: Some(n), kept, ..f1 });
            let (f2, k) = step_after(f1, b.0, b.2, b.3, b.4);
            let (l2, keep) = step_after(l1, b.0, b.2, b.3, b.4);
            let rest = blocks.drop_first();
            let fr = run_kept(f2, rest);
            let lr = run_kept(l2, rest);
            assert(full == seq![k] + fr);
            assert(lim == seq![keep] + lr);
            assert(full.drop_first() =~= fr);
            assert(lim.drop_first() =~= lr);
            assert(k >= 0);
            lemma_run_nonneg(f2, rest);
            if l2.phase == RenderPhase::Finished {
                assert(lr =~= Seq::<int>::empty()) by {
                    if rest.len() > 0 {
                        assert(!running(step_before(l2, rest[0].0, rest[0].1).phase));
                    }
                }
                if f2.phase == RenderPhase::TimedOut {
                    assert(fr =~= Seq::<int>::empty()) by {
                        if rest.len() > 0 {
                            assert(!running(step_before(f2, rest[0].0, rest[0].1).phase));
                        }
                    }
                }
            } else {
                assert(keep == k);
                assert(l2 == OfflineRender { limit: Some(n), kept: (kept + k) as u64, ..f2 });
                lemma_limited_is_prefix(f2, n, (kept + k) as u64, rest);
                assert forall|i: int| 0 <= i < lim.len() implies #[trigger] lim[i] == if full[i] < n - kept
                    - total(full.take(i)) {
                    full[i]
                } else {
                    n - kept - total(full.take(i))
                } by {
                    if i > 0 {
                        assert(lim[i] == lr[i - 1]);
                        assert(full[i] == fr[i - 1]);
                        assert(full.take(i).drop_first() =~= fr.take(i - 1));
                        assert(full.take(i)[0] == k);
                    } else {
                        assert(full.take(0) =~= Seq::<int>::empty());
                    }
                }
            }
            if l2.phase == RenderPhase::Finished {
                assert forall|i: int| 0 <= i < lim.len() implies #[trigger] lim[i] == if full[i] < n - kept
                    - total(full.take(i)) {
                    full[i]
                } else {
                    n - kept - total(full.take(i))
                } by {
                    assert(i == 0);
                    assert(full.take(0) =~= Seq::<int>::empty());
                }
                assert(lr.len() == 0);
                assert(total(lr) == 0);
            }
        } else {
            assert(!running(l1.phase));
        }
    }
}

/// A rest before the last event is part of the song: in the events phase,
/// while events are pending and the horizon is ahead, whether a block is
/// silent changes nothing, and the block is kept whole (up to the frames a
/// limit still wants) with the render staying in its events phase.
pub proof fn lemma_rests_are_kept(m: OfflineRender, silent: bool, frame: u64, block: u64)
    requires
        m.phase == RenderPhase::Events,
        frame < m.horizon,
        render_wf(m),
    ensures
        step_after(m, false, silent, frame, block) == step_after(m, false, !silent, frame, block),
        m.limit is None ==> step_after(m, false, silent, frame, block) == (m, block as int),
        m.limit matches Some(n) ==> step_after(m, false, silent, frame, block).1 == if block < n - m.kept {
            block as int
        } else {
            n - m.kept
        },
{
}

/// A queued event carries the frame it was sent at and the event itself;
/// its channel is the one it was sent on, clamped to 15.
pub proof fn lemma_sent_event_stamped(frame: u64, channel: u8, event: MidiEvent)
    ensures
        sent_event(frame, channel, event).sample == frame,
        sent_event(frame, channel, event).event == event,
        sent_event(frame, channel, event).channel <= 15,
        channel <= 15 ==> sent_event(frame, channel, event).channel == channel,
{
}

/// Each block of `blocks` starts where the one before ended, the first at
/// `start`, and none is longer than `bmax`.
pub open spec fn contiguous(start: u64, bmax: u64, blocks: Seq<BlockReport>) -> bool
    decreases blocks.len(),
{
    blocks.len() > 0 ==> {
        &&& blocks[0].3 == start + blocks[0].4
        &&& blocks[0].4 <= bmax
        &&& contiguous(blocks[0].3, bmax, blocks.drop_first())
    }
}

/// A full render keeps no frame past its horizon but for one last block:
/// rendering contiguous blocks from `start`, it keeps at most the frames
/// from `start` to the horizon, plus the flush block.
pub proof fn lemma_full_render_bounded(m: OfflineRender, start: u64, bmax: u64, blocks: Seq<BlockReport>)
    requires
        m.limit is None,
        contiguous(start, bmax, blocks),
    ensures
        total(run_kept(m, blocks)) <= (if start < m.horizon {
            m.horizon - start
        } else {
            0
        }) + bmax,
    decreases blocks.len(),
{
    lemma_run_nonneg(m, blocks);
    if blocks.len() > 0 {
        let b = blocks[0];
        let m1 = step_before(m, b.0, b.1);
        if running(m1.phase) {
            let (m2, k) = step_after(m1, b.0, b.2, b.3, b.4);
            let rest = blocks.drop_first();
            let r = run_kept(m, blocks);
            assert(r.drop_first() =~= run_kept(m2, rest));
            lemma_run_nonneg(m2, rest);
            if m1.phase == RenderPhase::Flush {
                assert(run_kept(m2, rest) =~= Seq::<int>::empty()) by {
                    if rest.len() > 0 {
                        assert(!running(step_before(m2, rest[0].0, rest[0].1).phase));
                    }
                }
            } else {
                lemma_full_render_bounded(m2, b.3, bmax, rest);
            }
        }
    }
}

proof fn lemma_run_nonneg(m: OfflineRender, blocks: Seq<BlockReport>)
    ensures
        forall|i: int| 0 <= i < run_kept(m, blocks).len() ==> #[trigger] run_kept(m, blocks)[i] >= 0,
        total(run_kept(m, blocks)) >= 0,
    decreases blocks.len(),
{
    if blocks.len() > 0 {
        let b = blocks[0];
        let m1 = step_before(m, b.0, b.1);
        if running(m1.phase) {
            let (m2, k) = step_after(m1, b.0, b.2, b.3, b.4);
            lemma_run_nonneg(m2, blocks.drop_first());
            let r = run_kept(m, blocks);
            assert(r.drop_first() =~= run_kept(m2, blocks.drop_first()));
            assert(forall|i: int| 1 <= i < r.len() ==> r[i] == run_kept(m2, blocks.drop_first())[i - 1]);
        }
    }
}

/// What the clock holds, as values.
pub struct ClockView {
    /// Frames rendered so far.
    pub frame: u64,
    /// Events sent in real time, not applied yet, oldest first.
    pub pending: Seq<TimedEvent>,
    /// The scheduled events of the file being rendered.
    pub offline: Seq<TimedEvent>,
    /// How many of the scheduled events were handed out.
    pub cursor: nat,
}

/// The engine's timeline: the frame count, the events sent in real time and
/// the scheduled events of an offline render, handed out block by block.
pub struct EventClock {
    frame: u64,
    pending: Vec<TimedEvent>,
    offline: Vec<TimedEvent>,
    cursor: usize,
}

impl View for EventClock {
    type V = ClockView;

    closed spec fn view(&self) -> ClockView {
        ClockView {
            frame: self.frame,
            pending: self.pending@,
            offline: self.offline@,
            cursor: self.cursor as nat,
        }
    }
}

/// The event that [`EventClock::send_event`] queues.
pub open spec fn sent_event(frame: u64, channel: u8, event: MidiEvent) -> TimedEvent {
    TimedEvent { sample: frame, channel: if channel < 15 { channel } else { 15 }, event }
}

/// The two 7-bit halves of a 14-bit controller value, most significant
/// first; bits above the fourteenth are dropped.
pub open spec fn split14(value: u16) -> (u8, u8) {
    (((value as int / 128) % 128) as u8, (value as int % 128) as u8)
}

/// Computes [`split14`].
pub fn split_14bit(value: u16) -> (r: (u8, u8))
    ensures
        r == split14(value),
{
    let hi: u16 = (value >> 7u16) & 0x7Fu16;
    let lo: u16 = value & 0x7Fu16;
    assert(hi == (value / 128) % 128) by (bit_vector)
        requires
            hi == (value >> 7u16) & 0x7Fu16,
    ;
    assert(lo == value % 128) by (bit_vector)
        requires
            lo == value & 0x7Fu16,
    ;
    (hi as u8, lo as u8)
}

/// A 14-bit value survives the split: the halves put back together give it.
pub proof fn lemma_split14_lossless(value: u16)
    requires
        value < 16384,
    ensures
        split14(value).0 as int * 128 + split14(value).1 as int == value as int,
{
}

/// The events queued by [`EventClock::control_change_14bit`].
pub open spec fn cc14_events(frame: u64, channel: u8, msb: u8, lsb: u8, value: u16) -> Seq<TimedEvent> {
    seq![
        sent_event(frame, channel, MidiEvent::ControlChange { controller: msb, value: split14(value).0 }),
        sent_event(frame, channel, MidiEvent::ControlChange { controller: lsb, value: split14(value).1 }),
    ]
}

impl EventClock {
    /// Handed-out events never run past the schedule.
    pub open spec fn wf(&self) -> bool {
        self@.cursor <= self@.offline.len()
    }

    /// A clock at frame 0 with nothing queued.
    pub fn new() -> (c: EventClock)
        ensures
            c@.frame == 0,
            c@.pending == Seq::<TimedEvent>::empty(),
            c@.offline == Seq::<TimedEvent>::empty(),
            c@.cursor == 0,
            c.wf(),
    {
        EventClock { frame: 0, pending: Vec::new(), offline: Vec::new(), cursor: 0 }
    }

    /// The number of frames rendered so far.
    pub fn rendered_frames(&self) -> (r: u64)
        ensures
            r == self@.frame,
    {
        self.frame
    }

    /// Queues an event for the next block, stamped with the current frame;
    /// channels above 15 are clamped to 15.
    pub fn send_event(&mut self, channel: u8, event: MidiEvent)
        requires
            old(self).wf(),
        ensures
            final(self)@.pending == old(self)@.pending.push(sent_event(old(self)@.frame, channel, event)),
            final(self)@.pending.last().sample == old(self)@.frame,
            final(self)@.pending.last().event == event,
            final(self)@.frame == old(self)@.frame,
            final(self)@.offline == old(self)@.offline,
            final(self)@.cursor == old(self)@.cursor,
            final(self).wf(),
    {
        let ch: u8 = if channel < 15 { channel } else { 15 };
        self.pending.push(TimedEvent { sample: self.frame, channel: ch, event });
    }

    /// Queues a note-on.
    pub fn note_on(&mut self, channel: u8, key: u8, vel: u8)
        requires
            old(self).wf(),
        ensures
            final(self)@ == (ClockView {
                pending: old(self)@.pending.push(
                    sent_event(old(self)@.frame, channel, MidiEvent::NoteOn { key, vel }),
                ),
                ..old(self)@
            }),
            final(self).wf(),
    {
        self.send_event(channel, MidiEvent::NoteOn { key, vel });
    }

    /// Queues a note-off.
    pub fn note_off(&mut self, channel: u8, key: u8)
        requires
            old(self).wf(),
        ensures
            final(self)@ == (ClockView {
                pending: old(self)@.pending.push(
                    sent_event(old(self)@.frame, channel, MidiEvent::NoteOff { key }),
                ),
                ..old(self)@
            }),
            final(self).wf(),
    {
        self.send_event(channel, MidiEvent::NoteOff { key });
    }

    /// Queues a control change.
    pub fn control_change(&mut self, channel: u8, controller: u8, value: u8)
        requires
            old(self).wf(),
        ensures
            final(self)@ == (ClockView {
                pending: old(self)@.pending.push(
                    sent_event(
                        old(self)@.frame,
                        channel,
                        MidiEvent::ControlChange { controller, value },
                    ),
                ),
                ..old(self)@
            }),
            final(self).wf(),
    {
        self.send_event(channel, MidiEvent::ControlChange { controller, value });
    }

    /// Queues a program change (instrument selection).
    pub fn program_change(&mut self, channel: u8, program: u8)
        requires
            old(self).wf(),
        ensures
            final(self)@ == (ClockView {
                pending: old(self)@.pending.push(sent_event(old(self)@.frame, channel, MidiEvent::ProgramChange { program })),
                ..old(self)@
            }),
            final(self).wf(),
    {
        self.send_event(channel, MidiEvent::ProgramChange { program });
    }

    /// Queues a pitch bend; `value` is the raw 14-bit value (8192 = center).
    pub fn pitch_bend(&mut self, channel: u8, value: u16)
        requires
            old(self).wf(),
        ensures
            final(self)@ == (ClockView {
                pending: old(self)@.pending.push(sent_event(old(self)@.frame, channel, MidiEvent::PitchBend { value })),
                ..old(self)@
            }),
            final(self).wf(),
    {
        self.send_event(channel, MidiEvent::PitchBend { value });
    }

    /// Queues the damper pedal (CC64): 127 when pressed, 0 when lifted.
    pub fn damper(&mut self, channel: u8, down: bool)
        requires
            old(self).wf(),
        ensures
            final(self)@ == (ClockView {
                pending: old(self)@.pending.push(sent_event(old(self)@.frame, channel, MidiEvent::ControlChange { controller: 0x40, value: if down { 127 } else { 0 } })),
                ..old(self)@
            }),
            final(self).wf(),
    {
        self.send_event(channel, MidiEvent::ControlChange { controller: 0x40, value: if down { 127 } else { 0 } });
    }

    /// Queues all notes off (CC123): releases every note of the channel.
    pub fn all_notes_off(&mut self, channel: u8)
        requires
            old(self).wf(),
        ensures
            final(self)@ == (ClockView {
                pending: old(self)@.pending.push(sent_event(old(self)@.frame, channel, MidiEvent::ControlChange { controller: 0x7B, value: 0 })),
                ..old(self)@
            }),
            final(self).wf(),
    {
        self.send_event(channel, MidiEvent::ControlChange { controller: 0x7B, value: 0 });
    }

    /// Queues all sounds off (CC120): silences the channel at once.
    pub fn all_sounds_off(&mut self, channel: u8)
        requires
            old(self).wf(),
        ensures
            final(self)@ == (ClockView {
                pending: old(self)@.pending.push(sent_event(old(self)@.frame, channel, MidiEvent::ControlChange { controller: 0x78, value: 0 })),
                ..old(self)@
            }),
            final(self).wf(),
    {
        self.send_event(channel, MidiEvent::ControlChange { controller: 0x78, value: 0 });
    }

    /// Queues reset all controllers (CC121).
    pub fn reset_controllers(&mut self, channel: u8)
        requires
            old(self).wf(),
        ensures
            final(self)@ == (ClockView {
                pending: old(self)@.pending.push(sent_event(old(self)@.frame, channel, MidiEvent::ControlChange { controller: 0x79, value: 0 })),
                ..old(self)@
            }),
            final(self).wf(),
    {
        self.send_event(channel, MidiEvent::ControlChange { controller: 0x79, value: 0 });
    }

    /// Queues a 14-bit control change as two events: the high seven bits to
    /// controller `msb`, then the low seven bits to controller `lsb`.
    pub fn control_change_14bit(&mut self, channel: u8, msb: u8, lsb: u8, value: u16)
        requires
            old(self).wf(),
        ensures
            final(self)@ == (ClockView {
                pending: old(self)@.pending + cc14_events(old(self)@.frame, channel, msb, lsb, value),
                ..old(self)@
            }),
            final(self).wf(),
    {
        let (hi, lo) = split_14bit(value);
        self.control_change(channel, msb, hi);
        self.control_change(channel, lsb, lo);
        assert(self@.pending == old(self)@.pending + cc14_events(
            old(self)@.frame,
            channel,
            msb,
            lsb,
            value,
        ));
    }

    /// Starts an offline render of `events` from frame 0. Events sent in
    /// real time stay queued.
    pub fn load_offline(&mut self, events: Vec<TimedEvent>)
        requires
            old(self).wf(),
        ensures
            final(self)@.frame == 0,
            final(self)@.pending == old(self)@.pending,
            final(self)@.offline == events@,
            final(self)@.cursor == 0,
            final(self).wf(),
    {
        self.offline = events;
        self.cursor = 0;
        self.frame = 0;
    }

    /// Every scheduled event has been handed out.
    pub fn events_done(&self) -> (r: bool)
        ensures
            r == (self@.cursor >= self@.offline.len()),
    {
        self.cursor >= self.offline.len()
    }

    /// The frame of the last scheduled event, or 0 when there is none.
    pub fn events_end(&self) -> (r: u64)
        ensures
            r == (if self@.offline.len() == 0 { 0 } else { self@.offline.last().sample }),
    {
        let n = self.offline.len();
        if n == 0 {
            0
        } else {
            self.offline[n - 1].sample
        }
    }

    /// Hands out the events of a block that ends (exclusively) at `end`:
    /// first everything sent in real time, then the scheduled events from
    /// where the last block stopped, up to the first one at or after `end`.
    pub fn due_events(&mut self, end: u64) -> (r: Vec<TimedEvent>)
        requires
            old(self).wf(),
        ensures
            old(self)@.cursor <= final(self)@.cursor <= old(self)@.offline.len(),
            r@ == old(self)@.pending + old(self)@.offline.subrange(
                old(self)@.cursor as int,
                final(self)@.cursor as int,
            ),
            forall|i: int|
                old(self)@.cursor <= i < final(self)@.cursor ==> #[trigger] old(self)@.offline[i].sample
                    < end,
            final(self)@.cursor == old(self)@.offline.len()
                || old(self)@.offline[final(self)@.cursor as int].sample >= end,
            final(self)@.pending == Seq::<TimedEvent>::empty(),
            final(self)@.offline == old(self)@.offline,
            final(self)@.frame == old(self)@.frame,
            final(self).wf(),
    {
        let mut out: Vec<TimedEvent> = Vec::new();
        std::mem::swap(&mut out, &mut self.pending);
        let ghost start = self.cursor as int;
        let ghost queued = out@;
        let n = self.offline.len();
        while self.cursor < n
            invariant
                start <= self.cursor <= n,
                start <= n,
                n == self.offline.len(),
                self.offline@ == old(self).offline@,
                self.pending@ == Seq::<TimedEvent>::empty(),
                self.frame == old(self).frame,
                start == old(self).cursor,
                queued == old(self).pending@,
                out@ == queued + self.offline@.subrange(start, self.cursor as int),
                forall|i: int| start <= i < self.cursor ==> #[trigger] self.offline@[i].sample < end,
            ensures
                self.cursor == n || self.offline@[self.cursor as int].sample >= end,
            decreases n - self.cursor,
        {
            let ev = self.offline[self.cursor];
            if ev.sample >= end {
                break;
            }
            out.push(ev);
            proof {
                assert(self.offline@.subrange(start, self.cursor + 1) == self.offline@.subrange(
                    start,
                    self.cursor as int,
                ).push(ev));
            }
            self.cursor = self.cursor + 1;
        }
        out
    }

    /// Moves the clock past a rendered block of `frames` frames.
    pub fn advance(&mut self, frames: u64)
        requires
            old(self).wf(),
            old(self)@.frame + frames <= u64::MAX,
        ensures
            final(self)@ == (ClockView { frame: (old(self)@.frame + frames) as u64, ..old(self)@ }),
            final(self).wf(),
    {
        self.frame = self.frame + frames;
    }
}

} // verus!
