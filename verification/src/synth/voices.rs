//! The voice state machine: note-on allocation with per-key polyphony
//! stealing, FIFO note release, the damper pedal and the channel
//! controllers that act on voices.
//!
//! Voices are kept in spawn order. A voice is "listed" while it belongs to
//! the per-key index that note-on and note-off consult; voices killed by a
//! steal leave the index at once and the voice list at the next prune.

use crate::midi::sort::{stable_order, stable_sort};
use crate::midi::MidiEvent;
use vstd::prelude::*;

verus! {

/// Number of MIDI channels.
pub const NUM_CHANNELS: usize = 16;

/// `release_at` of a voice whose release is not scheduled.
pub const NO_RELEASE: u64 = u64::MAX;

/// Damper pedal (CC64).
pub const CC_DAMPER: u8 = 0x40;
/// Release time (CC72).
pub const CC_RELEASE: u8 = 0x48;
/// Attack time (CC73).
pub const CC_ATTACK: u8 = 0x49;
/// All sounds off (CC120).
pub const CC_ALL_SOUNDS_OFF: u8 = 0x78;
/// Reset all controllers (CC121).
pub const CC_RESET: u8 = 0x79;
/// All notes off (CC123).
pub const CC_ALL_NOTES_OFF: u8 = 0x7B;

/// The channel mix controllers (volume, expression, pan, balance): applied
/// at their exact frame by the mix stage instead of at once.
pub open spec fn is_mix_cc(controller: u8) -> bool {
    controller == 0x07 || controller == 0x0B || controller == 0x0A || controller == 0x08
}

/// What the engine does with an incoming event.
#[derive(Debug, Clone, Copy, PartialEq, Eq, Structural)]
pub enum EventAction {
    /// Nothing (a note-on of velocity 0 or 1).
    Ignore,
    /// Start a note: look up its zones and spawn voices.
    Spawn { key: u8, vel: u8 },
    /// Release the oldest sounding note of `key`.
    Release { key: u8 },
    /// Defer a mix controller to the mix stage.
    MixController { controller: u8, value: u8 },
    /// Apply a controller to the channel and its voices now.
    Controller { controller: u8, value: u8 },
    /// Select a program (clamped to 127).
    Program { program: u8 },
    /// Bend the channel's pitch.
    PitchBend { value: u16 },
}

/// How an event is routed.
pub open spec fn action_of(e: MidiEvent) -> EventAction {
    match e {
        MidiEvent::NoteOn { key, vel } => if vel <= 1 {
            EventAction::Ignore
        } else {
            EventAction::Spawn { key, vel }
        },
        MidiEvent::NoteOff { key } => EventAction::Release { key },
        MidiEvent::ControlChange { controller, value } => if is_mix_cc(controller) {
            EventAction::MixController { controller, value }
        } else {
            EventAction::Controller { controller, value }
        },
        MidiEvent::ProgramChange { program } => EventAction::Program {
            program: if program > 127 { 127 } else { program },
        },
        MidiEvent::PitchBend { value } => EventAction::PitchBend { value },
    }
}

/// Routes an event: note-ons of velocity 0 or 1 are dropped (velocity 1 is
/// inaudible), the mix controllers are deferred, program numbers clamped.
pub fn route_event(e: MidiEvent) -> (r: EventAction)
    ensures
        r == action_of(e),
{
    match e {
        MidiEvent::NoteOn { key, vel } => if vel <= 1 {
            EventAction::Ignore
        } else {
            EventAction::Spawn { key, vel }
        },
        MidiEvent::NoteOff { key } => EventAction::Release { key },
        MidiEvent::ControlChange { controller, value } => if controller == 0x07 || controller == 0x0B
            || controller == 0x0A || controller == 0x08 {
            EventAction::MixController { controller, value }
        } else {
            EventAction::Controller { controller, value }
        },
        MidiEvent::ProgramChange { program } => EventAction::Program {
            program: if program > 127 { 127 } else { program },
        },
        MidiEvent::PitchBend { value } => EventAction::PitchBend { value },
    }
}

/// A voice as the state machine sees it.
#[derive(Debug, Clone, Copy, PartialEq, Eq, Structural)]
pub struct VoiceRec {
    /// Unique for the lifetime of the pool.
    pub id: u32,
    /// Shared by every zone voice of one note-on.
    pub note_id: u64,
    pub channel: u8,
    pub key: u8,
    pub vel: u8,
    /// Exclusive class of the zone (a new voice of a class kills the others).
    pub exclusive_class: Option<u8>,
    /// The renderer reported the voice finished.
    pub released: bool,
    /// Frame at which the release starts ([`NO_RELEASE`] when not scheduled).
    pub release_at: u64,
    /// The voice has ended (by the renderer or killed by a steal).
    pub ended: bool,
    /// CC73 value in effect for this voice.
    pub env_attack: Option<u8>,
    /// CC72 value in effect for this voice.
    pub env_release: Option<u8>,
    /// The voice is in the per-key index.
    pub listed: bool,
    /// Its note-off came while the damper was down: only the pedal holds it.
    pub held: bool,
}

/// The voice is releasing: the renderer reported it, or a release is
/// scheduled.
pub open spec fn releasing(v: VoiceRec) -> bool {
    v.released || v.release_at != NO_RELEASE
}

impl VoiceRec {
    /// The word the mix stage reads for this voice: the channel, with bit 7
    /// set while the voice is releasing.
    pub fn channel_word(&self) -> (r: u32)
        ensures
            r == (self.channel as u32 | (if releasing(*self) { 128u32 } else { 0u32 })),
            self.channel < 128 ==> r == self.channel + (if releasing(*self) { 128int } else { 0int }),
    {
        let flag: u32 = if self.released || self.release_at != NO_RELEASE {
            1
        } else {
            0
        };
        let ch: u32 = self.channel as u32;
        let r: u32 = ch | (flag << 7u32);
        assert(flag == 1 ==> r == ch | 128u32 && (ch < 128 ==> r == ch + 128)) by (bit_vector)
            requires
                r == ch | (flag << 7u32),
        ;
        assert(flag == 0 ==> r == ch | 0u32 && r == ch) by (bit_vector)
            requires
                r == ch | (flag << 7u32),
        ;
        r
    }
}

/// Per-channel controller state.
#[derive(Debug, Clone, Copy, PartialEq, Eq, Structural)]
pub struct ChannelCtl {
    pub program: u8,
    pub damper: bool,
    pub env_attack: Option<u8>,
    pub env_release: Option<u8>,
}

/// The controller state of a channel after reset.
pub open spec fn default_channel() -> ChannelCtl {
    ChannelCtl { program: 0, damper: false, env_attack: None, env_release: None }
}

fn new_channel() -> (c: ChannelCtl)
    ensures
        c == default_channel(),
{
    ChannelCtl { program: 0, damper: false, env_attack: None, env_release: None }
}

/// A mix controller change deferred to the mix stage.
#[derive(Debug, Clone, Copy, PartialEq, Eq, Structural)]
pub struct MixCc {
    pub sample: u64,
    pub channel: u8,
    pub controller: u8,
    pub value: u8,
}

/// A zone voice a note-on will start.
#[derive(Debug, Clone, Copy, PartialEq, Eq, Structural)]
pub struct NewVoice {
    pub exclusive_class: Option<u8>,
}

/// The voice state machine of the engine.
pub struct VoicePool {
    pub max_voices_per_key: usize,
    pub channels: Vec<ChannelCtl>,
    pub voices: Vec<VoiceRec>,
    pub note_counter: u64,
    pub next_voice_id: u32,
    pub pending_mix: Vec<MixCc>,
}

/// `v` belongs to `key` on channel `ch` and is in the per-key index.
pub open spec fn in_key(v: VoiceRec, ch: u8, key: u8) -> bool {
    v.listed && v.channel == ch && v.key == key
}

/// `v` may be released by a note-off of its key: in the index, not
/// finished, no release scheduled, its note-off not yet received.
pub open spec fn awaits_release(v: VoiceRec, ch: u8, key: u8) -> bool {
    in_key(v, ch, key) && !v.released && v.release_at == NO_RELEASE && !v.held
}

/// Position of the oldest voice of the key awaiting release.
pub open spec fn oldest_awaiting(vs: Seq<VoiceRec>, ch: u8, key: u8) -> Option<int>
    decreases vs.len(),
{
    if vs.len() == 0 {
        None
    } else {
        match oldest_awaiting(vs.drop_last(), ch, key) {
            Some(i) => Some(i),
            None => if awaits_release(vs.last(), ch, key) {
                Some(vs.len() - 1)
            } else {
                None
            },
        }
    }
}

/// A voice of the note a note-off reaches: released at `at`, or, with the
/// damper down, left sounding and marked as held by the pedal.
pub open spec fn note_off_applied(v: VoiceRec, at: u64, damper: bool) -> VoiceRec {
    if damper {
        VoiceRec { held: true, ..v }
    } else {
        VoiceRec { release_at: at, ..v }
    }
}

/// The voices after a note-off of `key` on channel `ch` at frame `at`: the
/// oldest note awaiting release has all its voices of the key released at
/// `at`, or, with the damper down, held by the pedal.
pub open spec fn released_voices(vs: Seq<VoiceRec>, ch: u8, key: u8, at: u64, damper: bool) -> Seq<VoiceRec> {
    match oldest_awaiting(vs, ch, key) {
        Some(i) => vs.map_values(
            |v: VoiceRec|
                if in_key(v, ch, key) && v.note_id == vs[i].note_id {
                    note_off_applied(v, at, damper)
                } else {
                    v
                },
        ),
        None => vs,
    }
}

/// Voices are on valid channels and in spawn order: ids strictly
/// increasing, note ids non-decreasing, the voices of one note sharing
/// channel, key and velocity.
pub open spec fn voices_ordered(vs: Seq<VoiceRec>) -> bool {
    &&& forall|i: int| 0 <= i < vs.len() ==> (#[trigger] vs[i]).channel < NUM_CHANNELS
    &&& forall|i: int, j: int| 0 <= i < j < vs.len() ==> (#[trigger] vs[i]).id < (#[trigger] vs[j]).id
    &&& forall|i: int, j: int| 0 <= i < j < vs.len() ==> (#[trigger] vs[i]).note_id <= (#[trigger] vs[j]).note_id
    &&& forall|i: int, j: int|
        0 <= i < vs.len() && 0 <= j < vs.len() && (#[trigger] vs[i]).note_id == (#[trigger] vs[j]).note_id
            ==> vs[i].channel == vs[j].channel && vs[i].key == vs[j].key && vs[i].vel == vs[j].vel
}

/// `v` sounds on `key` of channel `ch`.
pub open spec fn sounding_in(v: VoiceRec, ch: u8, key: u8) -> bool {
    v.channel == ch && v.key == key && !v.ended
}

/// A voice that left the per-key index has ended.
pub open spec fn unlisted_ended(vs: Seq<VoiceRec>) -> bool {
    forall|i: int| 0 <= i < vs.len() && !(#[trigger] vs[i]).listed ==> vs[i].ended
}

/// Voice ids are below `next_id`, note ids at most `notes`.
pub open spec fn voices_below(vs: Seq<VoiceRec>, next_id: u32, notes: u64) -> bool {
    &&& forall|i: int| 0 <= i < vs.len() ==> (#[trigger] vs[i]).id < next_id
    &&& forall|i: int| 0 <= i < vs.len() ==> (#[trigger] vs[i]).note_id <= notes
}

/// `v`, back in the per-key index.
pub open spec fn relisted(v: VoiceRec) -> VoiceRec {
    VoiceRec { listed: true, ..v }
}

/// Which voices a removal keeps.
#[derive(Debug, Clone, Copy, PartialEq, Eq, Structural)]
pub enum Keep {
    /// Voices not on the channel.
    OffChannel(u8),
    /// Voices not of the exclusive class.
    OutsideClass(u8),
    /// Voices that have not ended.
    Sounding,
}

/// Whether `rule` keeps `v`.
pub open spec fn keeps(rule: Keep, v: VoiceRec) -> bool {
    match rule {
        Keep::OffChannel(ch) => v.channel != ch,
        Keep::OutsideClass(c) => v.exclusive_class != Some(c),
        Keep::Sounding => !v.ended,
    }
}

/// The voices `rule` keeps, in order, all back in the per-key index.
pub open spec fn retained(vs: Seq<VoiceRec>, rule: Keep) -> Seq<VoiceRec>
    decreases vs.len(),
{
    if vs.len() == 0 {
        seq![]
    } else {
        let p = retained(vs.drop_last(), rule);
        if keeps(rule, vs.last()) {
            p.push(relisted(vs.last()))
        } else {
            p
        }
    }
}

proof fn lemma_retained_members(vs: Seq<VoiceRec>, rule: Keep)
    ensures
        retained(vs, rule).len() <= vs.len(),
        forall|i: int|
            0 <= i < retained(vs, rule).len() ==> exists|k: int|
                0 <= k < vs.len() && #[trigger] retained(vs, rule)[i] == relisted(vs[k]) && keeps(rule, vs[k]),
    decreases vs.len(),
{
    if vs.len() > 0 {
        let d = vs.drop_last();
        lemma_retained_members(d, rule);
        let p = retained(d, rule);
        let r = retained(vs, rule);
        assert forall|i: int| 0 <= i < r.len() implies exists|k: int|
            0 <= k < vs.len() && #[trigger] r[i] == relisted(vs[k]) && keeps(rule, vs[k]) by {
            if i < p.len() {
                let k = choose|k: int| 0 <= k < d.len() && #[trigger] p[i] == relisted(d[k]) && keeps(rule, d[k]);
                assert(r[i] == relisted(vs[k]));
            } else {
                assert(r[i] == relisted(vs[vs.len() - 1]));
            }
        }
    }
}

/// Removal keeps the voice order and bounds.
proof fn lemma_retained_ordered(vs: Seq<VoiceRec>, rule: Keep, next_id: u32, notes: u64)
    requires
        voices_ordered(vs),
        voices_below(vs, next_id, notes),
    ensures
        voices_ordered(retained(vs, rule)),
        voices_below(retained(vs, rule), next_id, notes),
    decreases vs.len(),
{
    if vs.len() > 0 {
        let d = vs.drop_last();
        assert(voices_ordered(d));
        lemma_retained_ordered(d, rule, next_id, notes);
        lemma_retained_members(d, rule);
        lemma_retained_members(vs, rule);
        let p = retained(d, rule);
        let r = retained(vs, rule);
        if keeps(rule, vs.last()) {
            let l = vs.len() - 1;
            assert forall|i: int| 0 <= i < p.len() implies #[trigger] p[i].id < vs[l].id && p[i].note_id
                <= vs[l].note_id by {
                let k = choose|k: int| 0 <= k < d.len() && #[trigger] p[i] == relisted(d[k]) && keeps(rule, d[k]);
                assert(vs[k] == d[k]);
            }
            assert forall|i: int| 0 <= i < p.len() && p[i].note_id == vs[l].note_id implies #[trigger] p[i].channel
                == vs[l].channel && p[i].key == vs[l].key && p[i].vel == vs[l].vel by {
                let k = choose|k: int| 0 <= k < d.len() && #[trigger] p[i] == relisted(d[k]) && keeps(rule, d[k]);
                assert(vs[k] == d[k]);
            }
            assert(voices_ordered(r)) by {
                assert forall|i: int, j: int| 0 <= i < j < r.len() implies (#[trigger] r[i]).id < (#[trigger] r[j]).id by {
                    if j < p.len() {
                        assert(r[i] == p[i] && r[j] == p[j]);
                    } else {
                        assert(r[i] == p[i]);
                    }
                }
                assert forall|i: int, j: int| 0 <= i < j < r.len() implies (#[trigger] r[i]).note_id <= (
                #[trigger] r[j]).note_id by {
                    if j < p.len() {
                        assert(r[i] == p[i] && r[j] == p[j]);
                    } else {
                        assert(r[i] == p[i]);
                    }
                }
                assert forall|i: int, j: int|
                    0 <= i < r.len() && 0 <= j < r.len() && (#[trigger] r[i]).note_id == (#[trigger] r[j]).note_id
                    implies r[i].channel == r[j].channel && r[i].key == r[j].key && r[i].vel == r[j].vel by {
                    if i < p.len() && j < p.len() {
                        assert(r[i] == p[i] && r[j] == p[j]);
                    } else if i < p.len() {
                        assert(r[i] == p[i]);
                    } else if j < p.len() {
                        assert(r[j] == p[j]);
                    }
                }
                assert forall|i: int| 0 <= i < r.len() implies (#[trigger] r[i]).channel < NUM_CHANNELS by {
                    let k = choose|k: int| 0 <= k < vs.len() && #[trigger] r[i] == relisted(vs[k]) && keeps(rule, vs[k]);
                }
            }
        }
        assert(voices_below(r, next_id, notes)) by {
            assert forall|i: int| 0 <= i < r.len() implies (#[trigger] r[i]).id < next_id && r[i].note_id <= notes by {
                let k = choose|k: int| 0 <= k < vs.len() && #[trigger] r[i] == relisted(vs[k]) && keeps(rule, vs[k]);
            }
        }
    }
}

fn count_older_in(members: &Vec<VoiceRec>, v: &VoiceRec) -> (r: usize)
    ensures
        r == count_older(members@, *v),
{
    let ghost ms = members@;
    let mut c: usize = 0;
    let mut j: usize = 0;
    while j < members.len()
        invariant
            ms == members@,
            j <= ms.len(),
            c == count_older(ms.take(j as int), *v),
            c <= j,
        decreases ms.len() - j,
    {
        proof {
            assert(ms.take(j + 1).drop_last() =~= ms.take(j as int));
        }
        let w = members[j];
        if !w.ended && w.note_id < v.note_id {
            c = c + 1;
        }
        j = j + 1;
    }
    proof {
        assert(ms.take(ms.len() as int) =~= ms);
    }
    c
}

fn first_class_of(b: &Vec<NewVoice>) -> (r: Option<u8>)
    ensures
        r == first_class(b@),
{
    let mut i: usize = 0;
    assert(b@.skip(0) =~= b@);
    while i < b.len()
        invariant
            i <= b@.len(),
            first_class(b@) == first_class(b@.skip(i as int)),
        decreases b@.len() - i,
    {
        proof {
            assert(b@.skip(i as int).drop_first() =~= b@.skip(i + 1));
        }
        if let Some(c) = b[i].exclusive_class {
            return Some(c);
        }
        i = i + 1;
    }
    None
}

/// The end flag the renderer reported for voice `id`, if it reported one.
pub open spec fn report_of(reports: Seq<(u32, bool)>, id: u32) -> Option<bool> {
    if exists|i: int| 0 <= i < reports.len() && (#[trigger] reports[i]).0 == id {
        Some(reports[choose|i: int| 0 <= i < reports.len() && (#[trigger] reports[i]).0 == id].1)
    } else {
        None
    }
}

/// `v` after the renderer reported its end flag `r`: a voice reported
/// ended is finished; an ended voice stays ended.
pub open spec fn synced(v: VoiceRec, r: Option<bool>) -> VoiceRec {
    match r {
        Some(e) => VoiceRec { ended: v.ended || e, released: v.released || e, ..v },
        None => v,
    }
}

/// Report ids are strictly increasing.
pub open spec fn reports_ordered(reports: Seq<(u32, bool)>) -> bool {
    forall|i: int, j: int| 0 <= i < j < reports.len() ==> (#[trigger] reports[i]).0 < (#[trigger] reports[j]).0
}

/// The mix controller changes before output sample `end`, in arrival order.
pub open spec fn mix_due(p: Seq<MixCc>, end: u64) -> Seq<MixCc>
    decreases p.len(),
{
    if p.len() == 0 {
        seq![]
    } else if p.last().sample < end {
        mix_due(p.drop_last(), end).push(p.last())
    } else {
        mix_due(p.drop_last(), end)
    }
}

/// The mix controller changes at or after output sample `end`, in order.
pub open spec fn mix_later(p: Seq<MixCc>, end: u64) -> Seq<MixCc>
    decreases p.len(),
{
    if p.len() == 0 {
        seq![]
    } else if p.last().sample < end {
        mix_later(p.drop_last(), end)
    } else {
        mix_later(p.drop_last(), end).push(p.last())
    }
}

/// Changes ordered by sample, changes at the same sample in arrival order.
pub open spec fn by_sample(p: Seq<MixCc>) -> Seq<MixCc> {
    stable_order(p.map_values(|e: MixCc| (e.sample as u128, e))).map_values(|x: (u128, usize, MixCc)| x.2)
}

/// A change applied to every voice of one channel.
#[derive(Debug, Clone, Copy, PartialEq, Eq, Structural)]
pub enum VoiceOp {
    /// CC72: the release time value.
    SetRelease(u8),
    /// CC73: the attack time value.
    SetAttack(u8),
    /// Damper lifted: release, at the frame, every voice still held.
    ReleaseHeld(u64),
    /// All notes off: release every voice at the frame.
    ReleaseAll(u64),
}

/// `v` after `op` on channel `ch`.
pub open spec fn op_applied(op: VoiceOp, ch: u8, v: VoiceRec) -> VoiceRec {
    if v.channel != ch {
        v
    } else {
        match op {
            VoiceOp::SetRelease(x) => VoiceRec { env_release: Some(x), ..v },
            VoiceOp::SetAttack(x) => VoiceRec { env_attack: Some(x), ..v },
            VoiceOp::ReleaseHeld(at) => if v.held && !v.released && v.release_at == NO_RELEASE && !v.ended {
                VoiceRec { release_at: at, held: false, ..v }
            } else {
                v
            },
            VoiceOp::ReleaseAll(at) => VoiceRec { release_at: at, ..v },
        }
    }
}

/// The voices after controller `controller` = `value` on channel `ch`
/// (not a mix controller) at frame `now`, the damper having been down or not.
pub open spec fn voices_after_cc(
    vs: Seq<VoiceRec>,
    ch: u8,
    controller: u8,
    value: u8,
    now: u64,
    damper_was_down: bool,
) -> Seq<VoiceRec> {
    if controller == CC_RELEASE {
        vs.map_values(|v: VoiceRec| op_applied(VoiceOp::SetRelease(value), ch, v))
    } else if controller == CC_ATTACK {
        vs.map_values(|v: VoiceRec| op_applied(VoiceOp::SetAttack(value), ch, v))
    } else if controller == CC_DAMPER && damper_was_down && value < 64 {
        vs.map_values(|v: VoiceRec| op_applied(VoiceOp::ReleaseHeld(now), ch, v))
    } else if controller == CC_ALL_NOTES_OFF {
        vs.map_values(|v: VoiceRec| op_applied(VoiceOp::ReleaseAll(now), ch, v))
    } else if controller == CC_ALL_SOUNDS_OFF {
        retained(vs, Keep::OffChannel(ch))
    } else {
        vs
    }
}

/// A channel's controller state after controller `controller` = `value`.
pub open spec fn channel_after_cc(c: ChannelCtl, controller: u8, value: u8) -> ChannelCtl {
    if controller == CC_RELEASE {
        ChannelCtl { env_release: Some(value), ..c }
    } else if controller == CC_ATTACK {
        ChannelCtl { env_attack: Some(value), ..c }
    } else if controller == CC_DAMPER {
        ChannelCtl { damper: value >= 64, ..c }
    } else if controller == CC_RESET {
        default_channel()
    } else {
        c
    }
}

fn keeps_voice(rule: Keep, v: &VoiceRec) -> (r: bool)
    ensures
        r == keeps(rule, *v),
{
    match rule {
        Keep::OffChannel(ch) => v.channel != ch,
        Keep::OutsideClass(c) => match v.exclusive_class {
            Some(x) => x != c,
            None => true,
        },
        Keep::Sounding => !v.ended,
    }
}

fn apply_op(op: VoiceOp, ch: u8, v: VoiceRec) -> (r: VoiceRec)
    ensures
        r == op_applied(op, ch, v),
{
    if v.channel != ch {
        return v;
    }
    match op {
        VoiceOp::SetRelease(x) => VoiceRec { env_release: Some(x), ..v },
        VoiceOp::SetAttack(x) => VoiceRec { env_attack: Some(x), ..v },
        VoiceOp::ReleaseHeld(at) => if v.held && !v.released && v.release_at == NO_RELEASE && !v.ended {
            VoiceRec { release_at: at, held: false, ..v }
        } else {
            v
        },
        VoiceOp::ReleaseAll(at) => VoiceRec { release_at: at, ..v },
    }
}

/// The voices of `key` on channel `ch` in the per-key index, in order.
pub open spec fn key_members(vs: Seq<VoiceRec>, ch: u8, key: u8) -> Seq<VoiceRec>
    decreases vs.len(),
{
    if vs.len() == 0 {
        seq![]
    } else {
        let p = key_members(vs.drop_last(), ch, key);
        if in_key(vs.last(), ch, key) {
            p.push(vs.last())
        } else {
            p
        }
    }
}

/// `w` is stolen before `v`: it belongs to an older note.
pub open spec fn older(w: VoiceRec, v: VoiceRec) -> bool {
    w.note_id < v.note_id
}

/// Number of voices of `ms` that have not ended.
pub open spec fn count_live(ms: Seq<VoiceRec>) -> nat
    decreases ms.len(),
{
    if ms.len() == 0 {
        0
    } else {
        count_live(ms.drop_last()) + if !ms.last().ended { 1nat } else { 0nat }
    }
}

/// Number of voices of `ms` that have not ended and are older than `v`.
pub open spec fn count_older(ms: Seq<VoiceRec>, v: VoiceRec) -> nat
    decreases ms.len(),
{
    if ms.len() == 0 {
        0
    } else {
        count_older(ms.drop_last(), v) + if !ms.last().ended && older(ms.last(), v) {
            1nat
        } else {
            0nat
        }
    }
}

/// `a - b`, or 0 when `b > a`.
pub open spec fn sat_sub(a: nat, b: nat) -> nat {
    if a >= b { (a - b) as nat } else { 0 }
}

/// How many sounding voices of the key a note-on of `zones` zones must
/// free to keep the key at `limit` layers.
pub open spec fn steal_quota(members: Seq<VoiceRec>, limit: nat, zones: nat) -> nat {
    sat_sub(count_live(members), sat_sub(limit, zones))
}

/// The sounding voice `v` of the key is stolen: fewer sounding voices of
/// the key are older than it than the quota asks for, so whole notes go
/// oldest first.
pub open spec fn is_stolen(members: Seq<VoiceRec>, limit: nat, zones: nat, v: VoiceRec) -> bool {
    !v.ended && count_older(members, v) < steal_quota(members, limit, zones)
}

/// The voices after the per-key limit makes room for a note-on of `zones`
/// zones on `key`, channel `ch`: stolen voices end, and they and the voices
/// of the key that already ended leave the index. No limit (0): no change.
pub open spec fn after_steal(vs: Seq<VoiceRec>, ch: u8, key: u8, limit: nat, zones: nat) -> Seq<VoiceRec> {
    let members = key_members(vs, ch, key);
    vs.map_values(
        |v: VoiceRec|
            if limit > 0 && in_key(v, ch, key) && (v.ended || is_stolen(members, limit, zones, v)) {
                VoiceRec { ended: true, listed: false, ..v }
            } else {
                v
            },
    )
}

/// The exclusive class of a note: that of its first zone that has one.
pub open spec fn first_class(b: Seq<NewVoice>) -> Option<u8>
    decreases b.len(),
{
    if b.len() == 0 {
        None
    } else {
        match b[0].exclusive_class {
            Some(c) => Some(c),
            None => first_class(b.drop_first()),
        }
    }
}

/// The voice a zone of a new note starts as.
pub open spec fn fresh_voice(nv: NewVoice, id: int, note_id: u64, ch: u8, key: u8, vel: u8, c: ChannelCtl) -> VoiceRec {
    VoiceRec {
        id: id as u32,
        note_id,
        channel: ch,
        key,
        vel,
        exclusive_class: nv.exclusive_class,
        released: false,
        release_at: NO_RELEASE,
        ended: false,
        env_attack: c.env_attack,
        env_release: c.env_release,
        listed: true,
        held: false,
    }
}

/// The voices of a new note, ids counting up from `first_id`.
pub open spec fn fresh_voices(
    b: Seq<NewVoice>,
    first_id: u32,
    note_id: u64,
    ch: u8,
    key: u8,
    vel: u8,
    c: ChannelCtl,
) -> Seq<VoiceRec> {
    Seq::new(b.len(), |i: int| fresh_voice(b[i], first_id + i, note_id, ch, key, vel, c))
}

/// The voices after the exclusive-class kill of a note with zones `b`.
pub open spec fn after_class_kill(vs: Seq<VoiceRec>, b: Seq<NewVoice>) -> Seq<VoiceRec> {
    match first_class(b) {
        Some(c) => retained(vs, Keep::OutsideClass(c)),
        None => vs,
    }
}

impl VoicePool {
    /// Makes room on `key`, channel `ch`, for a note-on of `zones` zones
    /// (see [`after_steal`]).
    fn steal(&mut self, ch: u8, key: u8, zones: usize)
        requires
            old(self).wf(),
            old(self).max_voices_per_key > 0,
        ensures
            final(self).wf(),
            final(self).voices@ == after_steal(
                old(self).voices@,
                ch,
                key,
                old(self).max_voices_per_key as nat,
                zones as nat,
            ),
            final(self).channels == old(self).channels,
            final(self).pending_mix == old(self).pending_mix,
            final(self).note_counter == old(self).note_counter,
            final(self).next_voice_id == old(self).next_voice_id,
            final(self).max_voices_per_key == old(self).max_voices_per_key,
    {
        let ghost vs = self.voices@;
        let limit = self.max_voices_per_key;
        let n = self.voices.len();
        let mut members: Vec<VoiceRec> = Vec::new();
        let mut i: usize = 0;
        while i < n
            invariant
                vs == self.voices@,
                n == vs.len(),
                i <= n,
                members@ == key_members(vs.take(i as int), ch, key),
            decreases n - i,
        {
            let v = self.voices[i];
            proof {
                assert(vs.take(i + 1).drop_last() =~= vs.take(i as int));
            }
            if v.listed && v.channel == ch && v.key == key {
                members.push(v);
            }
            i = i + 1;
        }
        proof {
            assert(vs.take(n as int) =~= vs);
        }
        let ghost ms = members@;
        let mut live: usize = 0;
        let mut j: usize = 0;
        while j < members.len()
            invariant
                ms == members@,
                j <= ms.len(),
                live == count_live(ms.take(j as int)),
                live <= j,
            decreases ms.len() - j,
        {
            proof {
                assert(ms.take(j + 1).drop_last() =~= ms.take(j as int));
            }
            if !members[j].ended {
                live = live + 1;
            }
            j = j + 1;
        }
        proof {
            assert(ms.take(ms.len() as int) =~= ms);
        }
        let free = if limit >= zones { limit - zones } else { 0 };
        let quota = if live >= free { live - free } else { 0 };
        let mut p: usize = 0;
        while p < n
            invariant
                ms == key_members(vs, ch, key),
                ms == members@,
                quota == steal_quota(ms, limit as nat, zones as nat),
                n == vs.len(),
                vs == old(self).voices@,
                old(self).wf(),
                limit == old(self).max_voices_per_key,
                limit > 0,
                self.voices@.len() == n,
                self.channels == old(self).channels,
                self.pending_mix == old(self).pending_mix,
                self.note_counter == old(self).note_counter,
                self.next_voice_id == old(self).next_voice_id,
                self.max_voices_per_key == old(self).max_voices_per_key,
                p <= n,
                forall|k: int|
                    0 <= k < n ==> #[trigger] self.voices@[k] == if k < p && in_key(vs[k], ch, key) && (vs[k].ended
                        || is_stolen(ms, limit as nat, zones as nat, vs[k])) {
                        VoiceRec { ended: true, listed: false, ..vs[k] }
                    } else {
                        vs[k]
                    },
            decreases n - p,
        {
            let v = self.voices[p];
            if v.listed && v.channel == ch && v.key == key {
                let stolen = if v.ended {
                    true
                } else {
                    count_older_in(&members, &v) < quota
                };
                if stolen {
                    self.voices.set(p, VoiceRec { ended: true, listed: false, ..v });
                }
            }
            p = p + 1;
        }
        proof {
            assert(self.voices@ =~= after_steal(vs, ch, key, limit as nat, zones as nat));
        }
    }

    /// Starts a note: `key` at velocity `vel` on channel `ch`, whose
    /// instrument has `zone_count` zones for it, of which the zones `built`
    /// produce voices. A note with no voice changes nothing. Otherwise the
    /// note takes the next note id; if one of its zones has an exclusive
    /// class, every voice of that class is removed; with a per-key limit,
    /// the oldest voices of the key make room (see [`after_steal`]); then one
    /// voice per built zone is appended, with fresh ids and the channel's
    /// attack/release values.
    pub fn note_on(&mut self, ch: u8, key: u8, vel: u8, zone_count: usize, built: &Vec<NewVoice>)
        requires
            old(self).wf(),
            ch < NUM_CHANNELS,
            built@.len() <= zone_count,
            old(self).note_counter < u64::MAX,
            old(self).next_voice_id + built@.len() <= u32::MAX,
        ensures
            final(self).wf(),
            final(self).channels == old(self).channels,
            final(self).pending_mix == old(self).pending_mix,
            final(self).max_voices_per_key == old(self).max_voices_per_key,
            built@.len() == 0 ==> {
                &&& final(self).voices == old(self).voices
                &&& final(self).note_counter == old(self).note_counter
                &&& final(self).next_voice_id == old(self).next_voice_id
            },
            built@.len() > 0 ==> {
                &&& final(self).note_counter == old(self).note_counter + 1
                &&& final(self).next_voice_id == old(self).next_voice_id + built@.len()
                &&& final(self).voices@ == after_steal(
                    after_class_kill(old(self).voices@, built@),
                    ch,
                    key,
                    old(self).max_voices_per_key as nat,
                    zone_count as nat,
                ) + fresh_voices(
                    built@,
                    old(self).next_voice_id,
                    (old(self).note_counter + 1) as u64,
                    ch,
                    key,
                    vel,
                    old(self).channels@[ch as int],
                )
            },
            built@.len() > 0 && old(self).max_voices_per_key > 0 ==> count_where(
                final(self).voices@,
                |v: VoiceRec| sounding_in(v, ch, key),
            ) <= if old(self).max_voices_per_key >= zone_count {
                old(self).max_voices_per_key as nat
            } else {
                zone_count as nat
            },
    {
        if built.len() == 0 {
            return;
        }
        match first_class_of(built) {
            Some(c) => self.retain(Keep::OutsideClass(c)),
            None => {},
        }
        if self.max_voices_per_key > 0 {
            self.steal(ch, key, zone_count);
        }
        let ghost base = self.voices@;
        self.note_counter = self.note_counter + 1;
        let note_id = self.note_counter;
        let chan = self.channels[ch as usize];
        let first_id = self.next_voice_id;
        let mut i: usize = 0;
        while i < built.len()
            invariant
                self.channels == old(self).channels,
                self.pending_mix == old(self).pending_mix,
                self.max_voices_per_key == old(self).max_voices_per_key,
                self.channels@.len() == NUM_CHANNELS,
                chan == self.channels@[ch as int],
                ch < NUM_CHANNELS,
                self.note_counter == note_id,
                note_id == old(self).note_counter + 1,
                first_id == old(self).next_voice_id,
                first_id + built@.len() <= u32::MAX,
                i <= built@.len(),
                self.next_voice_id == first_id + i,
                voices_ordered(base),
                voices_below(base, first_id, (note_id - 1) as u64),
                self.voices@ == base + fresh_voices(built@.take(i as int), first_id, note_id, ch, key, vel, chan),
            decreases built@.len() - i,
        {
            let nv = built[i];
            let v = VoiceRec {
                id: self.next_voice_id,
                note_id,
                channel: ch,
                key,
                vel,
                exclusive_class: nv.exclusive_class,
                released: false,
                release_at: NO_RELEASE,
                ended: false,
                env_attack: chan.env_attack,
                env_release: chan.env_release,
                listed: true,
                held: false,
            };
            self.voices.push(v);
            self.next_voice_id = self.next_voice_id + 1;
            proof {
                assert(fresh_voices(built@.take(i + 1), first_id, note_id, ch, key, vel, chan) =~= fresh_voices(
                    built@.take(i as int),
                    first_id,
                    note_id,
                    ch,
                    key,
                    vel,
                    chan,
                ).push(v));
            }
            i = i + 1;
        }
        proof {
            assert(built@.take(built@.len() as int) =~= built@);
            let vs = self.voices@;
            assert(voices_ordered(vs)) by {
                assert forall|a: int, b: int| 0 <= a < b < vs.len() implies (#[trigger] vs[a]).id < (#[trigger] vs[b]).id by {
                    if b >= base.len() && a < base.len() {
                        assert(base[a].id < first_id);
                    }
                }
                assert forall|a: int, b: int| 0 <= a < b < vs.len() implies (#[trigger] vs[a]).note_id <= (
                #[trigger] vs[b]).note_id by {
                    if b >= base.len() && a < base.len() {
                        assert(base[a].note_id < note_id);
                    }
                }
                assert forall|a: int, b: int|
                    0 <= a < vs.len() && 0 <= b < vs.len() && (#[trigger] vs[a]).note_id == (#[trigger] vs[b]).note_id
                    implies vs[a].channel == vs[b].channel && vs[a].key == vs[b].key && vs[a].vel == vs[b].vel by {
                    if a < base.len() {
                        assert(base[a].note_id < note_id);
                    }
                    if b < base.len() {
                        assert(base[b].note_id < note_id);
                    }
                }
            }
            assert(unlisted_ended(vs));
            lemma_sounding_indexed(vs, ch, key);
            if old(self).max_voices_per_key > 0 {
                lemma_note_on_layers(
                    old(self).voices@,
                    built@,
                    ch,
                    key,
                    vel,
                    old(self).max_voices_per_key as nat,
                    zone_count as nat,
                    first_id,
                    note_id,
                    chan,
                );
            }
        }
    }

    /// Applies the end flags the renderer reported (`(voice id, ended)`, in
    /// upload order): an ended voice is marked finished.
    pub fn sync_ended(&mut self, reports: &Vec<(u32, bool)>)
        requires
            old(self).wf(),
            reports_ordered(reports@),
        ensures
            final(self).wf(),
            final(self).voices@ == old(self).voices@.map_values(|v: VoiceRec| synced(v, report_of(reports@, v.id))),
            final(self).channels == old(self).channels,
            final(self).pending_mix == old(self).pending_mix,
            final(self).note_counter == old(self).note_counter,
            final(self).next_voice_id == old(self).next_voice_id,
            final(self).max_voices_per_key == old(self).max_voices_per_key,
    {
        let ghost vs = self.voices@;
        let ghost rs = reports@;
        let n = self.voices.len();
        let m = reports.len();
        let mut r: usize = 0;
        let mut k: usize = 0;
        while k < n
            invariant
                n == vs.len(),
                vs == old(self).voices@,
                rs == reports@,
                m == rs.len(),
                reports_ordered(rs),
                old(self).wf(),
                self.voices@.len() == n,
                self.channels == old(self).channels,
                self.pending_mix == old(self).pending_mix,
                self.note_counter == old(self).note_counter,
                self.next_voice_id == old(self).next_voice_id,
                self.max_voices_per_key == old(self).max_voices_per_key,
                k <= n,
                r <= m,
                k < n ==> forall|i: int| 0 <= i < r ==> (#[trigger] rs[i]).0 < vs[k as int].id,
                forall|j: int|
                    0 <= j < n ==> #[trigger] self.voices@[j] == if j < k {
                        synced(vs[j], report_of(rs, vs[j].id))
                    } else {
                        vs[j]
                    },
            decreases n - k,
        {
            let v = self.voices[k];
            while r < m && reports[r].0 < v.id
                invariant
                    r <= m,
                    m == rs.len(),
                    rs == reports@,
                    v == vs[k as int],
                    reports_ordered(rs),
                    forall|i: int| 0 <= i < r ==> (#[trigger] rs[i]).0 < v.id,
                decreases m - r,
            {
                r = r + 1;
            }
            proof {
                if r < m && rs[r as int].0 == v.id {
                    assert(report_of(rs, v.id) == Some(rs[r as int].1)) by {
                        let c = choose|i: int| 0 <= i < rs.len() && (#[trigger] rs[i]).0 == v.id;
                        if c < r {
                            assert(rs[c].0 < v.id);
                        } else if c > r {
                            assert(rs[r as int].0 < rs[c].0);
                        }
                    }
                } else {
                    assert(report_of(rs, v.id) is None) by {
                        if exists|i: int| 0 <= i < rs.len() && (#[trigger] rs[i]).0 == v.id {
                            let c = choose|i: int| 0 <= i < rs.len() && (#[trigger] rs[i]).0 == v.id;
                            if c >= r {
                                assert(rs[r as int].0 <= rs[c].0);
                            }
                        }
                    }
                }
            }
            if r < m && reports[r].0 == v.id {
                let e = reports[r].1;
                self.voices.set(k, VoiceRec { ended: v.ended || e, released: v.released || e, ..v });
            }
            proof {
                if k + 1 < n {
                    assert(vs[k as int].id < vs[k + 1].id);
                }
            }
            k = k + 1;
        }
        proof {
            assert(self.voices@ =~= vs.map_values(|v: VoiceRec| synced(v, report_of(rs, v.id))));
        }
    }

    /// Takes the mix controller changes due before output sample `end`,
    /// ordered by sample (arrival order at equal samples); later ones stay.
    pub fn take_mix_events(&mut self, end: u64) -> (r: Vec<MixCc>)
        requires
            old(self).wf(),
        ensures
            final(self).wf(),
            r@ == by_sample(mix_due(old(self).pending_mix@, end)),
            final(self).pending_mix@ == mix_later(old(self).pending_mix@, end),
            final(self).voices == old(self).voices,
            final(self).channels == old(self).channels,
            final(self).note_counter == old(self).note_counter,
            final(self).next_voice_id == old(self).next_voice_id,
            final(self).max_voices_per_key == old(self).max_voices_per_key,
    {
        let ghost p = self.pending_mix@;
        let mut due: Vec<(u128, MixCc)> = Vec::new();
        let mut later: Vec<MixCc> = Vec::new();
        let mut i: usize = 0;
        while i < self.pending_mix.len()
            invariant
                p == self.pending_mix@,
                i <= p.len(),
                due@ == mix_due(p.take(i as int), end).map_values(|e: MixCc| (e.sample as u128, e)),
                later@ == mix_later(p.take(i as int), end),
            decreases p.len() - i,
        {
            let e = self.pending_mix[i];
            proof {
                assert(p.take(i + 1).drop_last() =~= p.take(i as int));
            }
            if e.sample < end {
                due.push((e.sample as u128, e));
                proof {
                    assert(due@ =~= mix_due(p.take(i + 1), end).map_values(|e: MixCc| (e.sample as u128, e)));
                }
            } else {
                later.push(e);
            }
            i = i + 1;
        }
        proof {
            assert(p.take(p.len() as int) =~= p);
        }
        let sorted = stable_sort(&due);
        let mut r: Vec<MixCc> = Vec::new();
        let mut j: usize = 0;
        while j < sorted.len()
            invariant
                j <= sorted.len(),
                r@ =~= sorted@.take(j as int).map_values(|x: (u128, usize, MixCc)| x.2),
            decreases sorted.len() - j,
        {
            r.push(sorted[j].2);
            j = j + 1;
        }
        proof {
            assert(sorted@.take(sorted.len() as int) =~= sorted@);
        }
        self.pending_mix = later;
        r
    }

    /// Removes the voices `rule` does not keep; the rest return to the
    /// per-key index.
    pub fn retain(&mut self, rule: Keep)
        requires
            old(self).wf(),
        ensures
            final(self).wf(),
            final(self).voices@ == retained(old(self).voices@, rule),
            final(self).channels == old(self).channels,
            final(self).pending_mix == old(self).pending_mix,
            final(self).note_counter == old(self).note_counter,
            final(self).next_voice_id == old(self).next_voice_id,
            final(self).max_voices_per_key == old(self).max_voices_per_key,
    {
        let ghost vs = self.voices@;
        let n = self.voices.len();
        let mut kept: Vec<VoiceRec> = Vec::new();
        let mut i: usize = 0;
        while i < n
            invariant
                vs == self.voices@,
                n == vs.len(),
                i <= n,
                kept@ == retained(vs.take(i as int), rule),
            decreases n - i,
        {
            let v = self.voices[i];
            proof {
                assert(vs.take(i + 1).drop_last() =~= vs.take(i as int));
            }
            if keeps_voice(rule, &v) {
                kept.push(VoiceRec { listed: true, ..v });
            }
            i = i + 1;
        }
        proof {
            assert(vs.take(n as int) =~= vs);
            lemma_retained_ordered(vs, rule, self.next_voice_id, self.note_counter);
            lemma_retained_members(vs, rule);
            let r = retained(vs, rule);
            assert forall|i: int| 0 <= i < r.len() implies (#[trigger] r[i]).listed by {
                let k = choose|k: int| 0 <= k < vs.len() && #[trigger] r[i] == relisted(vs[k]) && keeps(rule, vs[k]);
            }
        }
        self.voices = kept;
    }

    /// Drops the voices that have ended (before a block is uploaded).
    pub fn prune_ended(&mut self)
        requires
            old(self).wf(),
        ensures
            final(self).wf(),
            final(self).voices@ == retained(old(self).voices@, Keep::Sounding),
            final(self).channels == old(self).channels,
            final(self).pending_mix == old(self).pending_mix,
            final(self).note_counter == old(self).note_counter,
            final(self).next_voice_id == old(self).next_voice_id,
            final(self).max_voices_per_key == old(self).max_voices_per_key,
    {
        self.retain(Keep::Sounding);
    }

    fn apply_to_channel(&mut self, op: VoiceOp, ch: u8)
        requires
            old(self).wf(),
        ensures
            final(self).wf(),
            final(self).voices@ == old(self).voices@.map_values(|v: VoiceRec| op_applied(op, ch, v)),
            final(self).channels == old(self).channels,
            final(self).pending_mix == old(self).pending_mix,
            final(self).note_counter == old(self).note_counter,
            final(self).next_voice_id == old(self).next_voice_id,
            final(self).max_voices_per_key == old(self).max_voices_per_key,
    {
        let ghost vs = self.voices@;
        let n = self.voices.len();
        let mut j: usize = 0;
        while j < n
            invariant
                n == vs.len(),
                vs == old(self).voices@,
                old(self).wf(),
                self.voices@.len() == n,
                self.channels == old(self).channels,
                self.pending_mix == old(self).pending_mix,
                self.note_counter == old(self).note_counter,
                self.next_voice_id == old(self).next_voice_id,
                self.max_voices_per_key == old(self).max_voices_per_key,
                j <= n,
                forall|k: int|
                    0 <= k < n ==> #[trigger] self.voices@[k] == if k < j {
                        op_applied(op, ch, vs[k])
                    } else {
                        vs[k]
                    },
            decreases n - j,
        {
            let v = self.voices[j];
            self.voices.set(j, apply_op(op, ch, v));
            j = j + 1;
        }
        proof {
            assert(self.voices@ =~= vs.map_values(|v: VoiceRec| op_applied(op, ch, v)));
        }
    }

    /// Applies controller `controller` = `value` on channel `ch`, arriving at
    /// output sample `sample` while the engine is at frame `now`: the mix
    /// controllers are queued for the mix stage; CC72/CC73 set the channel's
    /// release/attack value on it and its voices; CC64 sets the damper and,
    /// when lifted, releases every held voice of the channel; CC120 kills
    /// the channel's voices; CC121 resets the channel; CC123 releases every
    /// voice of the channel; other controllers change nothing.
    pub fn control_change(&mut self, ch: u8, controller: u8, value: u8, sample: u64, now: u64)
        requires
            old(self).wf(),
            ch < NUM_CHANNELS,
        ensures
            final(self).wf(),
            final(self).note_counter == old(self).note_counter,
            final(self).next_voice_id == old(self).next_voice_id,
            final(self).max_voices_per_key == old(self).max_voices_per_key,
            is_mix_cc(controller) ==> {
                &&& final(self).pending_mix@ == old(self).pending_mix@.push(
                    MixCc { sample, channel: ch, controller, value },
                )
                &&& final(self).voices == old(self).voices
                &&& final(self).channels == old(self).channels
            },
            !is_mix_cc(controller) ==> {
                &&& final(self).pending_mix == old(self).pending_mix
                &&& final(self).voices@ == voices_after_cc(
                    old(self).voices@,
                    ch,
                    controller,
                    value,
                    now,
                    old(self).channels@[ch as int].damper,
                )
                &&& final(self).channels@ == old(self).channels@.update(
                    ch as int,
                    channel_after_cc(old(self).channels@[ch as int], controller, value),
                )
            },
    {
        if controller == 0x07 || controller == 0x0B || controller == 0x0A || controller == 0x08 {
            self.pending_mix.push(MixCc { sample, channel: ch, controller, value });
            return;
        }
        let c = self.channels[ch as usize];
        if controller == CC_RELEASE {
            self.channels.set(ch as usize, ChannelCtl { env_release: Some(value), ..c });
            self.apply_to_channel(VoiceOp::SetRelease(value), ch);
        } else if controller == CC_ATTACK {
            self.channels.set(ch as usize, ChannelCtl { env_attack: Some(value), ..c });
            self.apply_to_channel(VoiceOp::SetAttack(value), ch);
        } else if controller == CC_DAMPER {
            let down = value >= 64;
            self.channels.set(ch as usize, ChannelCtl { damper: down, ..c });
            if c.damper && !down {
                self.apply_to_channel(VoiceOp::ReleaseHeld(now), ch);
            }
        } else if controller == CC_RESET {
            self.channels.set(ch as usize, new_channel());
        } else if controller == CC_ALL_NOTES_OFF {
            self.apply_to_channel(VoiceOp::ReleaseAll(now), ch);
        } else if controller == CC_ALL_SOUNDS_OFF {
            self.retain(Keep::OffChannel(ch));
        }
    }

    /// Selects `program` (clamped to 127) on channel `ch`.
    pub fn program_change(&mut self, ch: u8, program: u8)
        requires
            old(self).wf(),
            ch < NUM_CHANNELS,
        ensures
            final(self).wf(),
            final(self).channels@ == old(self).channels@.update(
                ch as int,
                ChannelCtl { program: if program > 127 { 127 } else { program }, ..old(self).channels@[ch as int] },
            ),
            final(self).voices == old(self).voices,
            final(self).pending_mix == old(self).pending_mix,
            final(self).note_counter == old(self).note_counter,
            final(self).next_voice_id == old(self).next_voice_id,
            final(self).max_voices_per_key == old(self).max_voices_per_key,
    {
        let c = self.channels[ch as usize];
        let p = if program > 127 { 127 } else { program };
        self.channels.set(ch as usize, ChannelCtl { program: p, ..c });
    }
    /// Pool invariant: 16 channels; voices on valid channels, in spawn
    /// order with strictly increasing ids below `next_voice_id`, note ids
    /// non-decreasing and at most `note_counter`, the voices of one note
    /// sharing channel, key and velocity.
    pub open spec fn wf(&self) -> bool {
        &&& self.channels@.len() == NUM_CHANNELS
        &&& voices_ordered(self.voices@)
        &&& voices_below(self.voices@, self.next_voice_id, self.note_counter)
        &&& unlisted_ended(self.voices@)
    }

    /// An empty pool with `max_voices_per_key` layers per key (0: no limit).
    pub fn new(max_voices_per_key: usize) -> (p: VoicePool)
        ensures
            p.wf(),
            p.max_voices_per_key == max_voices_per_key,
            p.voices@.len() == 0,
            p.pending_mix@.len() == 0,
            p.channels@ == Seq::new(NUM_CHANNELS as nat, |i: int| default_channel()),
            p.note_counter == 0,
            p.next_voice_id == 0,
    {
        let mut channels: Vec<ChannelCtl> = Vec::new();
        let mut i: usize = 0;
        while i < NUM_CHANNELS
            invariant
                i <= NUM_CHANNELS,
                channels@ =~= Seq::new(i as nat, |j: int| default_channel()),
            decreases NUM_CHANNELS - i,
        {
            channels.push(new_channel());
            i = i + 1;
        }
        VoicePool {
            max_voices_per_key,
            channels,
            voices: Vec::new(),
            note_counter: 0,
            next_voice_id: 0,
            pending_mix: Vec::new(),
        }
    }

    /// Number of voices held.
    pub fn voice_count(&self) -> (r: usize)
        ensures
            r == self.voices@.len(),
    {
        self.voices.len()
    }

    /// `(voices, releasing, ended)`: how many voices are held, how many are
    /// releasing, and how many have ended.
    pub fn lifecycle_counts(&self) -> (r: (usize, usize, usize))
        ensures
            r.0 == self.voices@.len(),
            r.1 == count_where(self.voices@, |v: VoiceRec| releasing(v)),
            r.2 == count_where(self.voices@, |v: VoiceRec| v.ended),
    {
        let n = self.voices.len();
        let mut rel: usize = 0;
        let mut end: usize = 0;
        let mut i: usize = 0;
        while i < n
            invariant
                n == self.voices@.len(),
                i <= n,
                rel <= i,
                end <= i,
                rel == count_where(self.voices@.take(i as int), |v: VoiceRec| releasing(v)),
                end == count_where(self.voices@.take(i as int), |v: VoiceRec| v.ended),
            decreases n - i,
        {
            let v = self.voices[i];
            proof {
                assert(self.voices@.take(i + 1).drop_last() =~= self.voices@.take(i as int));
                assert(self.voices@.take(i + 1).last() == v);
            }
            if v.released || v.release_at != NO_RELEASE {
                rel = rel + 1;
            }
            if v.ended {
                end = end + 1;
            }
            i = i + 1;
        }
        proof {
            assert(self.voices@.take(n as int) =~= self.voices@);
        }
        (n, rel, end)
    }

    /// Releases the oldest note of `key` on channel `ch` that is not yet
    /// releasing (every zone voice of that note at once), unless the damper
    /// is down.
    pub fn note_off(&mut self, ch: u8, key: u8, at: u64)
        requires
            old(self).wf(),
            ch < NUM_CHANNELS,
        ensures
            final(self).wf(),
            final(self).voices@ == released_voices(
                old(self).voices@,
                ch,
                key,
                at,
                old(self).channels@[ch as int].damper,
            ),
            final(self).channels == old(self).channels,
            final(self).pending_mix == old(self).pending_mix,
            final(self).note_counter == old(self).note_counter,
            final(self).next_voice_id == old(self).next_voice_id,
            final(self).max_voices_per_key == old(self).max_voices_per_key,
    {
        let damper = self.channels[ch as usize].damper;
        let ghost vs = self.voices@;
        let n = self.voices.len();
        let mut found: Option<u64> = None;
        let ghost mut idx: int = 0;
        let mut i: usize = 0;
        while i < n && found.is_none()
            invariant
                n == vs.len(),
                vs == self.voices@,
                i <= n,
                found is None ==> oldest_awaiting(vs.take(i as int), ch, key) is None,
                found matches Some(nid) ==> oldest_awaiting(vs, ch, key) == Some(idx) && 0 <= idx < n
                    && vs[idx].note_id == nid,
            decreases n - i + if found is None { 1int } else { 0int },
        {
            let v = self.voices[i];
            proof {
                assert(vs.take(i + 1).drop_last() =~= vs.take(i as int));
            }
            if v.listed && v.channel == ch && v.key == key && !v.released && v.release_at == NO_RELEASE
                && !v.held {
                found = Some(v.note_id);
                proof {
                    assert(oldest_awaiting(vs.take(i + 1), ch, key) == Some(i as int));
                    lemma_oldest_prefix(vs, i + 1, ch, key);
                    idx = i as int;
                }
            } else {
                i = i + 1;
            }
        }
        proof {
            if found is None {
                assert(vs.take(n as int) =~= vs);
            }
        }
        if let Some(nid) = found {
            let mut j: usize = 0;
            while j < n
                invariant
                    n == vs.len(),
                    vs == old(self).voices@,
                    old(self).wf(),
                    self.voices@.len() == n,
                    self.channels == old(self).channels,
                    self.pending_mix == old(self).pending_mix,
                    self.note_counter == old(self).note_counter,
                    self.next_voice_id == old(self).next_voice_id,
                    self.max_voices_per_key == old(self).max_voices_per_key,
                    j <= n,
                    forall|k: int|
                        0 <= k < n ==> #[trigger] self.voices@[k] == if k < j && in_key(vs[k], ch, key)
                            && vs[k].note_id == nid {
                            note_off_applied(vs[k], at, damper)
                        } else {
                            vs[k]
                        },
                decreases n - j,
            {
                let v = self.voices[j];
                if v.listed && v.channel == ch && v.key == key && v.note_id == nid {
                    if damper {
                        self.voices.set(j, VoiceRec { held: true, ..v });
                    } else {
                        self.voices.set(j, VoiceRec { release_at: at, ..v });
                    }
                }
                j = j + 1;
            }
            proof {
                assert(self.voices@ =~= released_voices(vs, ch, key, at, damper));
            }
        }
    }
}

/// Number of voices of `s` satisfying `p`.
pub open spec fn count_where(s: Seq<VoiceRec>, p: spec_fn(VoiceRec) -> bool) -> nat
    decreases s.len(),
{
    if s.len() == 0 {
        0
    } else {
        count_where(s.drop_last(), p) + if p(s.last()) { 1nat } else { 0nat }
    }
}

proof fn lemma_count_ext(s: Seq<VoiceRec>, p: spec_fn(VoiceRec) -> bool, q: spec_fn(VoiceRec) -> bool)
    requires
        forall|i: int| 0 <= i < s.len() ==> p(#[trigger] s[i]) == q(s[i]),
    ensures
        count_where(s, p) == count_where(s, q),
    decreases s.len(),
{
    if s.len() > 0 {
        lemma_count_ext(s.drop_last(), p, q);
        assert(p(s[s.len() - 1]) == q(s[s.len() - 1]));
    }
}

proof fn lemma_count_mono(s: Seq<VoiceRec>, p: spec_fn(VoiceRec) -> bool, q: spec_fn(VoiceRec) -> bool)
    requires
        forall|i: int| 0 <= i < s.len() && p(#[trigger] s[i]) ==> q(s[i]),
    ensures
        count_where(s, p) <= count_where(s, q),
        (exists|i: int| 0 <= i < s.len() && q(#[trigger] s[i]) && !p(s[i])) ==> count_where(s, p) < count_where(s, q),
    decreases s.len(),
{
    if s.len() > 0 {
        let d = s.drop_last();
        lemma_count_mono(d, p, q);
        assert(p(s[s.len() - 1]) ==> q(s[s.len() - 1]));
        if exists|i: int| 0 <= i < s.len() && q(#[trigger] s[i]) && !p(s[i]) {
            let i = choose|i: int| 0 <= i < s.len() && q(#[trigger] s[i]) && !p(s[i]);
            if i < d.len() {
                assert(d[i] == s[i]);
            }
        }
    }
}

proof fn lemma_count_split(s: Seq<VoiceRec>, p: spec_fn(VoiceRec) -> bool, q: spec_fn(VoiceRec) -> bool)
    ensures
        count_where(s, p) == count_where(s, |x: VoiceRec| p(x) && q(x)) + count_where(s, |x: VoiceRec| p(x) && !q(x)),
    decreases s.len(),
{
    if s.len() > 0 {
        lemma_count_split(s.drop_last(), p, q);
    }
}

proof fn lemma_count_witness(s: Seq<VoiceRec>, p: spec_fn(VoiceRec) -> bool)
    requires
        count_where(s, p) > 0,
    ensures
        exists|i: int| 0 <= i < s.len() && p(#[trigger] s[i]),
    decreases s.len(),
{
    if p(s.last()) {
        assert(p(s[s.len() - 1]));
    } else {
        lemma_count_witness(s.drop_last(), p);
        let i = choose|i: int| 0 <= i < s.drop_last().len() && p(#[trigger] s.drop_last()[i]);
        assert(s[i] == s.drop_last()[i]);
    }
}

/// Among the voices satisfying `p` there is one no other is older than.
#[verifier::spinoff_prover]
#[verifier::rlimit(40)]
proof fn lemma_oldest_exists(s: Seq<VoiceRec>, p: spec_fn(VoiceRec) -> bool)
    requires
        exists|i: int| 0 <= i < s.len() && p(#[trigger] s[i]),
    ensures
        exists|i: int|
            0 <= i < s.len() && p(#[trigger] s[i]) && forall|j: int|
                0 <= j < s.len() && p(#[trigger] s[j]) ==> !older(s[j], s[i]),
    decreases s.len(),
{
    let d = s.drop_last();
    let l = s.len() - 1;
    if exists|i: int| 0 <= i < d.len() && p(#[trigger] d[i]) {
        lemma_oldest_exists(d, p);
        let m = choose|i: int|
            0 <= i < d.len() && p(#[trigger] d[i]) && forall|j: int| 0 <= j < d.len() && p(#[trigger] d[j]) ==> !older(d[j], d[i]);
        if p(s[l]) && older(s[l], d[m]) {
            assert forall|j: int| 0 <= j < s.len() && p(#[trigger] s[j]) implies !older(s[j], s[l]) by {
                if j < l {
                    assert(d[j] == s[j]);
                    assert(!older(d[j], d[m]));
                }
            }
            assert(p(s[l]) && forall|j: int| 0 <= j < s.len() && p(#[trigger] s[j]) ==> !older(s[j], s[l]));
        } else {
            assert(s[m] == d[m]);
            assert forall|j: int| 0 <= j < s.len() && p(#[trigger] s[j]) implies !older(s[j], s[m]) by {
                if j < l {
                    assert(d[j] == s[j]);
                }
            }
            assert(p(s[m]) && forall|j: int| 0 <= j < s.len() && p(#[trigger] s[j]) ==> !older(s[j], s[m]));
        }
    } else {
        let w = choose|i: int| 0 <= i < s.len() && p(#[trigger] s[i]);
        if w < l {
            assert(d[w] == s[w]);
        }
        assert(p(s[l]));
        assert forall|j: int| 0 <= j < s.len() && p(#[trigger] s[j]) implies !older(s[j], s[l]) by {
            if j < l {
                assert(d[j] == s[j]);
            }
        }
        assert(p(s[l]) && forall|j: int| 0 <= j < s.len() && p(#[trigger] s[j]) ==> !older(s[j], s[l]));
    }
}

proof fn lemma_count_live_where(s: Seq<VoiceRec>)
    ensures
        count_live(s) == count_where(s, |w: VoiceRec| !w.ended),
    decreases s.len(),
{
    if s.len() > 0 {
        lemma_count_live_where(s.drop_last());
    }
}

proof fn lemma_count_older_where(s: Seq<VoiceRec>, v: VoiceRec)
    ensures
        count_older(s, v) == count_where(s, |w: VoiceRec| !w.ended && older(w, v)),
    decreases s.len(),
{
    if s.len() > 0 {
        lemma_count_older_where(s.drop_last(), v);
    }
}

/// The stolen voices number at least the quota (or every sounding voice
/// of the key, when there are fewer).
proof fn lemma_enough_stolen(m: Seq<VoiceRec>, limit: nat, zones: nat)
    ensures
        ({
            let q = steal_quota(m, limit, zones);
            let stolen = count_where(m, |v: VoiceRec| is_stolen(m, limit, zones, v));
            stolen >= q || stolen >= count_live(m)
        }),
{
    let q = steal_quota(m, limit, zones);
    let st = |v: VoiceRec| is_stolen(m, limit, zones, v);
    let live = |v: VoiceRec| !v.ended;
    let kept = |v: VoiceRec| !v.ended && !is_stolen(m, limit, zones, v);
    lemma_count_live_where(m);
    lemma_count_split(m, live, st);
    lemma_count_ext(m, |x: VoiceRec| live(x) && st(x), st);
    lemma_count_ext(m, |x: VoiceRec| live(x) && !st(x), kept);
    let a = count_where(m, st);
    if a < q && a < count_live(m) {
        assert(count_where(m, kept) > 0);
        lemma_count_witness(m, kept);
        lemma_oldest_exists(m, kept);
        let i = choose|i: int|
            0 <= i < m.len() && kept(#[trigger] m[i]) && forall|j: int| 0 <= j < m.len() && kept(#[trigger] m[j]) ==> !older(m[j], m[i]);
        let v = m[i];
        let qv = |w: VoiceRec| !w.ended && older(w, v);
        assert forall|j: int| 0 <= j < m.len() && qv(#[trigger] m[j]) implies st(m[j]) by {
            assert(!kept(m[j]));
        }
        lemma_count_mono(m, qv, st);
        lemma_count_older_where(m, v);
        assert(count_older(m, v) <= a);
        assert(is_stolen(m, limit, zones, v));
        assert(false);
    }
}

proof fn lemma_members_in_key(vs: Seq<VoiceRec>, ch: u8, key: u8)
    ensures
        forall|i: int| 0 <= i < key_members(vs, ch, key).len() ==> in_key(#[trigger] key_members(vs, ch, key)[i], ch, key),
    decreases vs.len(),
{
    if vs.len() > 0 {
        lemma_members_in_key(vs.drop_last(), ch, key);
        let p = key_members(vs.drop_last(), ch, key);
        let r = key_members(vs, ch, key);
        assert forall|i: int| 0 <= i < r.len() implies in_key(#[trigger] r[i], ch, key) by {
            if i < p.len() {
                assert(r[i] == p[i]);
            }
        }
    }
}

proof fn lemma_members_after_map(vs: Seq<VoiceRec>, f: spec_fn(VoiceRec) -> VoiceRec, ch: u8, key: u8)
    requires
        forall|v: VoiceRec| in_key(#[trigger] f(v), ch, key) ==> in_key(v, ch, key),
    ensures
        key_members(vs.map_values(f), ch, key).len() == count_where(
            key_members(vs, ch, key),
            |v: VoiceRec| in_key(f(v), ch, key),
        ),
    decreases vs.len(),
{
    if vs.len() > 0 {
        let d = vs.drop_last();
        assert(vs.map_values(f).drop_last() =~= d.map_values(f));
        lemma_members_after_map(d, f, ch, key);
        assert(vs.map_values(f).last() == f(vs.last()));
        if in_key(vs.last(), ch, key) {
            assert(key_members(vs, ch, key).drop_last() =~= key_members(d, ch, key));
        }
    }
}

proof fn lemma_members_concat(a: Seq<VoiceRec>, b: Seq<VoiceRec>, ch: u8, key: u8)
    ensures
        key_members(a + b, ch, key) == key_members(a, ch, key) + key_members(b, ch, key),
    decreases b.len(),
{
    if b.len() == 0 {
        assert(a + b =~= a);
        assert(key_members(a, ch, key) + key_members(b, ch, key) =~= key_members(a, ch, key));
    } else {
        assert((a + b).drop_last() =~= a + b.drop_last());
        lemma_members_concat(a, b.drop_last(), ch, key);
        if in_key(b.last(), ch, key) {
            assert(key_members(a, ch, key) + key_members(b, ch, key) =~= (key_members(a, ch, key) + key_members(
                b.drop_last(),
                ch,
                key,
            )).push(b.last()));
        }
    }
}

proof fn lemma_members_all(b: Seq<VoiceRec>, ch: u8, key: u8)
    requires
        forall|i: int| 0 <= i < b.len() ==> in_key(#[trigger] b[i], ch, key),
    ensures
        key_members(b, ch, key) == b,
    decreases b.len(),
{
    if b.len() == 0 {
        assert(key_members(b, ch, key) =~= b);
    } else {
        lemma_members_all(b.drop_last(), ch, key);
        assert(b.drop_last().push(b.last()) =~= b);
    }
}

/// After a steal the key keeps at most `limit - zones` voices in its index.
proof fn lemma_steal_leaves(vs: Seq<VoiceRec>, ch: u8, key: u8, limit: nat, zones: nat)
    requires
        limit > 0,
    ensures
        key_members(after_steal(vs, ch, key, limit, zones), ch, key).len() <= sat_sub(limit, zones),
{
    let m = key_members(vs, ch, key);
    let f = |v: VoiceRec|
        if limit > 0 && in_key(v, ch, key) && (v.ended || is_stolen(m, limit, zones, v)) {
            VoiceRec { ended: true, listed: false, ..v }
        } else {
            v
        };
    assert(after_steal(vs, ch, key, limit, zones) == vs.map_values(f));
    lemma_members_after_map(vs, f, ch, key);
    lemma_members_in_key(vs, ch, key);
    let st = |v: VoiceRec| is_stolen(m, limit, zones, v);
    let live = |v: VoiceRec| !v.ended;
    let kept = |v: VoiceRec| !v.ended && !is_stolen(m, limit, zones, v);
    lemma_count_ext(m, |v: VoiceRec| in_key(f(v), ch, key), kept);
    lemma_count_live_where(m);
    lemma_count_split(m, live, st);
    lemma_count_ext(m, |x: VoiceRec| live(x) && st(x), st);
    lemma_count_ext(m, |x: VoiceRec| live(x) && !st(x), kept);
    lemma_enough_stolen(m, limit, zones);
}

/// All sounds off (CC120) leaves no voice on the channel, and keeps every
/// voice of the other channels.
pub proof fn lemma_all_sounds_off(vs: Seq<VoiceRec>, ch: u8, value: u8, now: u64, damper: bool)
    ensures
        forall|i: int|
            0 <= i < voices_after_cc(vs, ch, CC_ALL_SOUNDS_OFF, value, now, damper).len() ==> (
            #[trigger] voices_after_cc(vs, ch, CC_ALL_SOUNDS_OFF, value, now, damper)[i]).channel
                != ch,
        count_where(voices_after_cc(vs, ch, CC_ALL_SOUNDS_OFF, value, now, damper), |v: VoiceRec| true)
            == count_where(vs, |v: VoiceRec| v.channel != ch),
{
    lemma_retained_members(vs, Keep::OffChannel(ch));
    lemma_retained_count(vs, Keep::OffChannel(ch));
    lemma_count_ext(vs, |v: VoiceRec| keeps(Keep::OffChannel(ch), v), |v: VoiceRec| v.channel != ch);
}

proof fn lemma_retained_count(vs: Seq<VoiceRec>, rule: Keep)
    ensures
        count_where(retained(vs, rule), |v: VoiceRec| true) == count_where(vs, |v: VoiceRec| keeps(rule, v)),
    decreases vs.len(),
{
    if vs.len() > 0 {
        lemma_retained_count(vs.drop_last(), rule);
        let p = retained(vs.drop_last(), rule);
        if keeps(rule, vs.last()) {
            assert(retained(vs, rule).drop_last() =~= p);
        }
    }
}

/// While the damper is down a note-off releases nothing (the note is
/// marked as held by the pedal); lifting the damper releases, at that
/// frame, exactly the voices the pedal held, and leaves the notes whose key
/// is still down sounding.
pub proof fn lemma_damper_holds(vs: Seq<VoiceRec>, ch: u8, key: u8, at: u64, now: u64)
    ensures
        forall|i: int|
            0 <= i < vs.len() ==> (#[trigger] released_voices(vs, ch, key, at, true)[i]).release_at
                == vs[i].release_at,
        forall|i: int|
            0 <= i < vs.len() && vs[i].channel == ch && vs[i].held && !vs[i].released
                && vs[i].release_at == NO_RELEASE && !vs[i].ended ==> (#[trigger] voices_after_cc(
                vs,
                ch,
                CC_DAMPER,
                0,
                now,
                true,
            )[i]).release_at == now,
        forall|i: int|
            0 <= i < vs.len() && !vs[i].held ==> (#[trigger] voices_after_cc(vs, ch, CC_DAMPER, 0, now, true)[i])
                == vs[i],
{
}

/// Every voice that sounds on a key is in the key's index, so the index
/// bounds the sounding voices of the key.
pub proof fn lemma_sounding_indexed(vs: Seq<VoiceRec>, ch: u8, key: u8)
    requires
        unlisted_ended(vs),
    ensures
        count_where(vs, |v: VoiceRec| sounding_in(v, ch, key)) <= key_members(vs, ch, key).len(),
    decreases vs.len(),
{
    if vs.len() > 0 {
        let d = vs.drop_last();
        assert forall|i: int| 0 <= i < d.len() && !(#[trigger] d[i]).listed implies d[i].ended by {
            assert(d[i] == vs[i]);
        }
        lemma_sounding_indexed(d, ch, key);
        assert(!vs.last().listed ==> vs.last().ended);
    }
}

/// Per-key polyphony: after a note-on under a per-key limit, the key holds
/// at most `max(limit, zone count)` voices in its index; the voices stolen
/// to make room, and those that had ended, have left it.
pub proof fn lemma_note_on_layers(
    vs: Seq<VoiceRec>,
    b: Seq<NewVoice>,
    ch: u8,
    key: u8,
    vel: u8,
    limit: nat,
    zones: nat,
    first_id: u32,
    note_id: u64,
    c: ChannelCtl,
)
    requires
        limit > 0,
        b.len() <= zones,
    ensures
        key_members(
            after_steal(after_class_kill(vs, b), ch, key, limit, zones) + fresh_voices(b, first_id, note_id, ch, key, vel, c),
            ch,
            key,
        ).len() <= if limit >= zones { limit } else { zones },
{
    let a = after_steal(after_class_kill(vs, b), ch, key, limit, zones);
    let fr = fresh_voices(b, first_id, note_id, ch, key, vel, c);
    lemma_steal_leaves(after_class_kill(vs, b), ch, key, limit, zones);
    lemma_members_concat(a, fr, ch, key);
    lemma_members_all(fr, ch, key);
}

/// Stolen voices go oldest first: a voice stolen by a note-on belongs to an
/// older note than every voice of the key that keeps sounding; so a note's
/// voices are stolen together.
pub proof fn lemma_steal_oldest(vs: Seq<VoiceRec>, ch: u8, key: u8, limit: nat, zones: nat, x: VoiceRec, y: VoiceRec)
    requires
        key_members(vs, ch, key).contains(x),
        key_members(vs, ch, key).contains(y),
        is_stolen(key_members(vs, ch, key), limit, zones, x),
        !y.ended,
        !is_stolen(key_members(vs, ch, key), limit, zones, y),
    ensures
        older(x, y),
{
    let m = key_members(vs, ch, key);
    if !older(x, y) {
        let qx = |w: VoiceRec| !w.ended && older(w, x);
        let qy = |w: VoiceRec| !w.ended && older(w, y);
        lemma_count_older_where(m, x);
        lemma_count_older_where(m, y);
        let j = choose|j: int| 0 <= j < m.len() && m[j] == y;
        if older(y, x) {
            assert(qx(m[j]) && !qy(m[j]));
        }
        lemma_count_mono(m, qy, qx);
        assert(false);
    }
}

proof fn lemma_none_awaiting(vs: Seq<VoiceRec>, ch: u8, key: u8)
    requires
        oldest_awaiting(vs, ch, key) is None,
    ensures
        forall|k: int| 0 <= k < vs.len() ==> !awaits_release(#[trigger] vs[k], ch, key),
    decreases vs.len(),
{
    if vs.len() > 0 {
        let d = vs.drop_last();
        lemma_none_awaiting(d, ch, key);
        assert forall|k: int| 0 <= k < vs.len() implies !awaits_release(#[trigger] vs[k], ch, key) by {
            if k < d.len() {
                assert(vs[k] == d[k]);
            }
        }
    }
}

/// Note-off is first in, first out: the note it releases is the oldest
/// awaiting release on its key; every other voice of the key awaiting
/// release comes later and belongs to a note no older.
pub proof fn lemma_note_off_oldest(vs: Seq<VoiceRec>, ch: u8, key: u8)
    requires
        voices_ordered(vs),
        oldest_awaiting(vs, ch, key) is Some,
    ensures
        ({
            let i = oldest_awaiting(vs, ch, key)->0;
            &&& 0 <= i < vs.len()
            &&& awaits_release(vs[i], ch, key)
            &&& forall|k: int|
                0 <= k < vs.len() && awaits_release(#[trigger] vs[k], ch, key) ==> i <= k && vs[i].note_id
                    <= vs[k].note_id
        }),
    decreases vs.len(),
{
    let d = vs.drop_last();
    let i = oldest_awaiting(vs, ch, key)->0;
    assert(voices_ordered(d));
    match oldest_awaiting(d, ch, key) {
        Some(j) => {
            lemma_note_off_oldest(d, ch, key);
            assert(i == j);
            assert(vs[i] == d[i]);
            assert forall|k: int| 0 <= k < vs.len() && awaits_release(#[trigger] vs[k], ch, key) implies i <= k
                && vs[i].note_id <= vs[k].note_id by {
                if k < d.len() {
                    assert(vs[k] == d[k]);
                }
            }
        },
        None => {
            lemma_none_awaiting(d, ch, key);
            assert forall|k: int| 0 <= k < vs.len() && awaits_release(#[trigger] vs[k], ch, key) implies i <= k
                && vs[i].note_id <= vs[k].note_id by {
                if k < d.len() {
                    assert(vs[k] == d[k]);
                }
            }
        },
    }
}

/// Voice ids are unique.
pub proof fn lemma_ids_unique(p: VoicePool)
    requires
        p.wf(),
    ensures
        forall|i: int, j: int|
            0 <= i < p.voices@.len() && 0 <= j < p.voices@.len() && i != j ==> (#[trigger] p.voices@[i]).id
                != (#[trigger] p.voices@[j]).id,
{
    assert forall|i: int, j: int|
        0 <= i < p.voices@.len() && 0 <= j < p.voices@.len() && i != j implies (#[trigger] p.voices@[i]).id
            != (#[trigger] p.voices@[j]).id by {
        if i < j {
            assert(p.voices@[i].id < p.voices@[j].id);
        } else {
            assert(p.voices@[j].id < p.voices@[i].id);
        }
    }
}

/// The oldest awaiting voice of a prefix is the oldest of the whole list.
proof fn lemma_oldest_prefix(vs: Seq<VoiceRec>, m: int, ch: u8, key: u8)
    requires
        0 <= m <= vs.len(),
        oldest_awaiting(vs.take(m), ch, key) is Some,
    ensures
        oldest_awaiting(vs, ch, key) == oldest_awaiting(vs.take(m), ch, key),
    decreases vs.len() - m,
{
    if m < vs.len() {
        assert(vs.take(m + 1).drop_last() =~= vs.take(m));
        lemma_oldest_prefix(vs, m + 1, ch, key);
    } else {
        assert(vs.take(m) =~= vs);
    }
}

/// A controller acts on its own channel only. Except all sounds off (which
/// removes the channel's voices), it keeps the voice list's length, and
/// every voice of another channel comes out of it exactly as it went in:
/// lifting the damper on one channel leaves the voices that another
/// channel's pedal holds held.
pub proof fn lemma_cc_other_channels_unchanged(
    vs: Seq<VoiceRec>,
    ch: u8,
    controller: u8,
    value: u8,
    now: u64,
    damper_was_down: bool,
)
    requires
        controller != CC_ALL_SOUNDS_OFF,
    ensures
        voices_after_cc(vs, ch, controller, value, now, damper_was_down).len() == vs.len(),
        forall|i: int|
            0 <= i < vs.len() && vs[i].channel != ch ==> #[trigger] voices_after_cc(
                vs,
                ch,
                controller,
                value,
                now,
                damper_was_down,
            )[i] == vs[i],
{
}

/// A damper that was up, or that stays down, releases nothing; only its
/// lift does.
pub proof fn lemma_damper_without_lift(vs: Seq<VoiceRec>, ch: u8, value: u8, now: u64, damper_was_down: bool)
    requires
        !damper_was_down || value >= 64,
    ensures
        voices_after_cc(vs, ch, CC_DAMPER, value, now, damper_was_down) == vs,
{
}

/// A note-on appends, after the voices that survive the class kill and the
/// stealing, one voice per built zone, in zone order: each on the note's
/// channel and key, at the note-on's velocity, under the note's id, with
/// consecutive fresh ids, the zone's exclusive class and the channel's
/// attack and release values, sounding and not released.
pub proof fn lemma_note_on_new_voices(
    vs: Seq<VoiceRec>,
    b: Seq<NewVoice>,
    ch: u8,
    key: u8,
    vel: u8,
    limit: nat,
    zones: nat,
    first_id: u32,
    note_id: u64,
    c: ChannelCtl,
)
    requires
        first_id + b.len() <= u32::MAX,
    ensures
        ({
            let kept = after_steal(after_class_kill(vs, b), ch, key, limit, zones);
            let r = kept + fresh_voices(b, first_id, note_id, ch, key, vel, c);
            &&& r.len() == kept.len() + b.len()
            &&& forall|i: int| 0 <= i < kept.len() ==> r[i] == kept[i]
            &&& forall|i: int|
                0 <= i < b.len() ==> {
                    let v = #[trigger] r[kept.len() + i];
                    &&& v.channel == ch
                    &&& v.key == key
                    &&& v.vel == vel
                    &&& v.note_id == note_id
                    &&& v.id == first_id + i
                    &&& v.exclusive_class == b[i].exclusive_class
                    &&& v.env_attack == c.env_attack
                    &&& v.env_release == c.env_release
                    &&& !v.released && !v.ended && !v.held && v.listed
                    &&& v.release_at == NO_RELEASE
                }
        }),
{
}

/// Routing keeps what an event says: a note-on of velocity 2 or more
/// spawns that key at that velocity, a note-off releases its key, a
/// controller keeps its number and value (deferred exactly for the mix
/// controllers), a program change selects the program it names when that
/// is a valid program (0 to 127) and 127 above, and a pitch bend keeps its
/// value.
pub proof fn lemma_route_keeps_values(e: MidiEvent)
    ensures
        match e {
            MidiEvent::NoteOn { key, vel } => if vel >= 2 {
                action_of(e) == EventAction::Spawn { key, vel }
            } else {
                action_of(e) == EventAction::Ignore
            },
            MidiEvent::NoteOff { key } => action_of(e) == EventAction::Release { key },
            MidiEvent::ControlChange { controller, value } => if is_mix_cc(controller) {
                action_of(e) == EventAction::MixController { controller, value }
            } else {
                action_of(e) == EventAction::Controller { controller, value }
            },
            MidiEvent::ProgramChange { program } => action_of(e) matches EventAction::Program { program: p } && p
                <= 127 && (program <= 127 ==> p == program) && (program > 127 ==> p == 127),
            MidiEvent::PitchBend { value } => action_of(e) == EventAction::PitchBend { value },
        },
{
}

} // verus!
