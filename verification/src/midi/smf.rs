//! The boundary to the `lumino-midly` Standard MIDI File decoder.
//!
//! `lumino-midly` decodes the raw bytes; the decoded file is read back, event
//! by event, into [`SmfData`], a plain copy of what the scheduler needs.

use lumino_midly::{MetaMessage, MidiMessage, TrackEventKind};
use vstd::prelude::*;

verus! {

/// `lumino_midly::Smf`, a decoded file; opaque here.
#[verifier::external_type_specification]
#[verifier::external_body]
pub struct ExSmf<'a>(lumino_midly::Smf<'a>);

/// `lumino_midly::Error`, a decoding failure; opaque here.
#[verifier::external_type_specification]
#[verifier::external_body]
pub struct ExMidlyError(lumino_midly::Error);

/// Timing header of a standard MIDI file.
#[derive(Debug, Clone, Copy, PartialEq, Eq, Structural)]
pub enum SmfTiming {
    /// Ticks per quarter note.
    Metrical(u16),
    /// SMPTE frames per second and subframes per frame.
    Timecode(u8, u8),
}

/// A channel voice message.
#[allow(inconsistent_fields)]
#[derive(Debug, Clone, Copy, PartialEq, Eq, Structural)]
pub enum ChannelMessage {
    NoteOff { key: u8, vel: u8 },
    NoteOn { key: u8, vel: u8 },
    /// Polyphonic key pressure (not used by the synthesizer).
    Aftertouch,
    Controller { controller: u8, value: u8 },
    ProgramChange { program: u8 },
    /// Channel pressure (not used by the synthesizer).
    ChannelAftertouch,
    PitchBend { bend: u16 },
}

/// What a track event carries.
#[derive(Debug, Clone, Copy, PartialEq, Eq, Structural)]
pub enum SmfEventKind {
    /// A channel message on `channel` (0-15).
    Channel { channel: u8, message: ChannelMessage },
    /// A system exclusive message.
    SysEx,
    /// An escape sequence.
    Escape,
    /// A tempo change: microseconds per quarter note.
    Tempo(u32),
    /// The end of the track.
    EndOfTrack,
    /// Any other meta message.
    OtherMeta,
}

/// A track event: ticks since the previous event of its track, and payload.
#[derive(Debug, Clone, Copy, PartialEq, Eq, Structural)]
pub struct SmfEvent {
    pub delta: u32,
    pub kind: SmfEventKind,
}

/// A decoded standard MIDI file: the timing header and every track.
#[derive(Debug, Clone)]
pub struct SmfData {
    pub timing: SmfTiming,
    pub tracks: Vec<Vec<SmfEvent>>,
}

impl View for SmfData {
    type V = (SmfTiming, Seq<Seq<SmfEvent>>);

    open spec fn view(&self) -> (SmfTiming, Seq<Seq<SmfEvent>>) {
        (self.timing, self.tracks@.map_values(|t: Vec<SmfEvent>| t@))
    }
}

/// What `lumino-midly` decodes from `raw`, or `None` when it rejects it.
pub uninterp spec fn midly_decode(raw: Seq<u8>) -> Option<(SmfTiming, Seq<Seq<SmfEvent>>)>;

/// The timing header and tracks held by a decoded file.
pub uninterp spec fn smf_contents(smf: lumino_midly::Smf<'static>) -> (SmfTiming, Seq<Seq<SmfEvent>>);

/// Kind of a track event, without the channel message.
#[derive(Debug, Clone, Copy, PartialEq, Eq, Structural)]
pub enum EventHead {
    Channel(u8),
    SysEx,
    Escape,
    Tempo(u32),
    EndOfTrack,
    OtherMeta,
}

/// The kind of `k`, without its channel message.
pub open spec fn head_of(k: SmfEventKind) -> EventHead {
    match k {
        SmfEventKind::Channel { channel, .. } => EventHead::Channel(channel),
        SmfEventKind::SysEx => EventHead::SysEx,
        SmfEventKind::Escape => EventHead::Escape,
        SmfEventKind::Tempo(us) => EventHead::Tempo(us),
        SmfEventKind::EndOfTrack => EventHead::EndOfTrack,
        SmfEventKind::OtherMeta => EventHead::OtherMeta,
    }
}

/// The channel message of a channel event.
pub open spec fn message_of(k: SmfEventKind) -> ChannelMessage {
    match k {
        SmfEventKind::Channel { message, .. } => message,
        _ => ChannelMessage::ChannelAftertouch,
    }
}

/// `lumino_midly::Smf::parse`, then `make_static`: decodes `raw`; on
/// success the decoded file holds what `midly_decode` names, on failure
/// `midly_decode` is `None`. Byte-string payloads (SysEx, text) are dropped
/// by `make_static`; they are not part of the named contents.
/// The decoder negates the high byte of a header's timing word as an `i8`,
/// which overflows (a panic with overflow checks) when that byte is 0x80;
/// inputs where it reads such a word (see [`timing_hazard`]) are not handed
/// to it.
#[verifier::external_body]
fn smf_parse(raw: &[u8]) -> (res: Result<lumino_midly::Smf<'static>, lumino_midly::Error>)
    requires
        !timing_hazard(raw@),
    ensures
        match res {
            Ok(smf) => midly_decode(raw@) == Some(smf_contents(smf)),
            Err(_) => midly_decode(raw@) is None,
        },
{
    let smf = lumino_midly::Smf::parse(raw)?;
    Ok(smf.make_static())
}

/// `Error`'s `Display` text. Nothing is stated of the text.
#[verifier::external_body]
fn midly_error_text(e: &lumino_midly::Error) -> String {
    format!("{e}")
}

/// Reads `smf.header.timing` (`Timing::Metrical` / `Timing::Timecode`).
#[verifier::external_body]
fn smf_timing(smf: &lumino_midly::Smf<'static>) -> (res: SmfTiming)
    ensures
        res == smf_contents(*smf).0,
{
    match smf.header.timing {
        lumino_midly::Timing::Metrical(ppq) => SmfTiming::Metrical(ppq.as_int()),
        lumino_midly::Timing::Timecode(fps, sub) => SmfTiming::Timecode(fps.as_int(), sub),
    }
}

/// The number of tracks, `smf.tracks.len()`.
#[verifier::external_body]
fn smf_track_count(smf: &lumino_midly::Smf<'static>) -> (res: usize)
    ensures
        res == smf_contents(*smf).1.len(),
{
    smf.tracks.len()
}

/// The number of events of track `t`, `smf.tracks[t].len()`.
#[verifier::external_body]
fn smf_track_len(smf: &lumino_midly::Smf<'static>, t: usize) -> (res: usize)
    requires
        t < smf_contents(*smf).1.len(),
    ensures
        res == smf_contents(*smf).1[t as int].len(),
{
    smf.tracks[t].len()
}

/// Delta time (`u28::as_int`) and kind of event `i` of track `t`; meta
/// messages other than `Tempo` and `EndOfTrack` are not told apart.
#[verifier::external_body]
fn smf_event_head(smf: &lumino_midly::Smf<'static>, t: usize, i: usize) -> (res: (u32, EventHead))
    requires
        t < smf_contents(*smf).1.len(),
        i < smf_contents(*smf).1[t as int].len(),
    ensures
        res.0 == smf_contents(*smf).1[t as int][i as int].delta,
        res.1 == head_of(smf_contents(*smf).1[t as int][i as int].kind),
{
    let ev = &smf.tracks[t][i];
    let head = match ev.kind {
        TrackEventKind::Midi { channel, .. } => EventHead::Channel(channel.as_int()),
        TrackEventKind::SysEx(_) => EventHead::SysEx,
        TrackEventKind::Escape(_) => EventHead::Escape,
        TrackEventKind::Meta(MetaMessage::Tempo(us)) => EventHead::Tempo(us.as_int()),
        TrackEventKind::Meta(MetaMessage::EndOfTrack) => EventHead::EndOfTrack,
        TrackEventKind::Meta(_) => EventHead::OtherMeta,
    };
    (ev.delta.as_int(), head)
}

/// The `MidiMessage` of channel event `i` of track `t`, field for field.
#[verifier::external_body]
fn smf_channel_message(smf: &lumino_midly::Smf<'static>, t: usize, i: usize) -> (res: ChannelMessage)
    requires
        t < smf_contents(*smf).1.len(),
        i < smf_contents(*smf).1[t as int].len(),
        head_of(smf_contents(*smf).1[t as int][i as int].kind) is Channel,
    ensures
        res == message_of(smf_contents(*smf).1[t as int][i as int].kind),
{
    let TrackEventKind::Midi { message, .. } = smf.tracks[t][i].kind else {
        return ChannelMessage::ChannelAftertouch;
    };
    match message {
        MidiMessage::NoteOff { key, vel } => ChannelMessage::NoteOff { key, vel: vel.as_int() },
        MidiMessage::NoteOn { key, vel } => ChannelMessage::NoteOn { key, vel: vel.as_int() },
        MidiMessage::Aftertouch { .. } => ChannelMessage::Aftertouch,
        MidiMessage::Controller { controller, value } => ChannelMessage::Controller { controller: controller.as_int(), value: value.as_int() },
        MidiMessage::ProgramChange { program } => ChannelMessage::ProgramChange { program: program.as_int() },
        MidiMessage::ChannelAftertouch { .. } => ChannelMessage::ChannelAftertouch,
        MidiMessage::PitchBend { bend } => ChannelMessage::PitchBend { bend: bend.0.as_int() },
    }
}

/// Reads event `i` of track `t` of a decoded file.
fn read_event(smf: &lumino_midly::Smf<'static>, t: usize, i: usize) -> (e: SmfEvent)
    requires
        t < smf_contents(*smf).1.len(),
        i < smf_contents(*smf).1[t as int].len(),
    ensures
        e == smf_contents(*smf).1[t as int][i as int],
{
    let (delta, head) = smf_event_head(smf, t, i);
    let kind = match head {
        EventHead::Channel(channel) => {
            let message = smf_channel_message(smf, t, i);
            SmfEventKind::Channel { channel, message }
        },
        EventHead::SysEx => SmfEventKind::SysEx,
        EventHead::Escape => SmfEventKind::Escape,
        EventHead::Tempo(us) => SmfEventKind::Tempo(us),
        EventHead::EndOfTrack => SmfEventKind::EndOfTrack,
        EventHead::OtherMeta => SmfEventKind::OtherMeta,
    };
    SmfEvent { delta, kind }
}

/// Copies the contents of a decoded file.
fn read_contents(smf: &lumino_midly::Smf<'static>) -> (d: SmfData)
    ensures
        d@ == smf_contents(*smf),
{
    let timing = smf_timing(smf);
    let n = smf_track_count(smf);
    let mut tracks: Vec<Vec<SmfEvent>> = Vec::new();
    let mut t: usize = 0;
    while t < n
        invariant
            n == smf_contents(*smf).1.len(),
            t <= n,
            tracks@.len() == t,
            forall|k: int| 0 <= k < t ==> (#[trigger] tracks@[k])@ == smf_contents(*smf).1[k],
        decreases n - t,
    {
        let len = smf_track_len(smf, t);
        let mut track: Vec<SmfEvent> = Vec::new();
        let mut i: usize = 0;
        while i < len
            invariant
                n == smf_contents(*smf).1.len(),
                t < n,
                len == smf_contents(*smf).1[t as int].len(),
                i <= len,
                track@ == smf_contents(*smf).1[t as int].take(i as int),
            decreases len - i,
        {
            let e = read_event(smf, t, i);
            track.push(e);
            proof {
                assert(smf_contents(*smf).1[t as int].take(i + 1) =~= smf_contents(*smf).1[t as int].take(
                    i as int,
                ).push(e));
            }
            i = i + 1;
        }
        proof {
            assert(smf_contents(*smf).1[t as int].take(len as int) =~= smf_contents(*smf).1[t as int]);
        }
        tracks.push(track);
        t = t + 1;
    }
    let d = SmfData { timing, tracks };
    proof {
        assert(d@.1 =~= smf_contents(*smf).1);
    }
    d
}

/// Bytes `i..i + 4` of `raw` are the tag `t`.
pub open spec fn tag_at(raw: Seq<u8>, i: int, t: Seq<u8>) -> bool {
    raw[i] == t[0] && raw[i + 1] == t[1] && raw[i + 2] == t[2] && raw[i + 3] == t[3]
}

/// The big-endian 32-bit number at `i`.
pub open spec fn be32_at(raw: Seq<u8>, i: int) -> int {
    raw[i] * 0x100_0000 + raw[i + 1] * 0x1_0000 + raw[i + 2] * 0x100 + raw[i + 3]
}

/// The little-endian 32-bit number at `i`.
pub open spec fn le32_at(raw: Seq<u8>, i: int) -> int {
    raw[i] + raw[i + 1] * 0x100 + raw[i + 2] * 0x1_0000 + raw[i + 3] * 0x100_0000
}

/// The tag `MThd`.
pub open spec fn mthd() -> Seq<u8> {
    seq![0x4Du8, 0x54u8, 0x68u8, 0x64u8]
}

/// The data of a header chunk at `d..e` holds a valid format (0, 1 or 2)
/// and a timing word whose high byte is 0x80: reading it negates -128.
pub open spec fn header_hazard(raw: Seq<u8>, d: int, e: int) -> bool {
    d + 6 <= e && raw[d] == 0 && raw[d + 1] <= 2 && raw[d + 4] == 0x80
}

/// The data of a header chunk at `d..e` reads as a header: six bytes, a
/// valid format, and a timing word that is metrical or names 24, 25, 29 or
/// 30 frames per second (its high byte is minus that number).
pub open spec fn header_reads(raw: Seq<u8>, d: int, e: int) -> bool {
    &&& d + 6 <= e
    &&& raw[d] == 0 && raw[d + 1] <= 2
    &&& raw[d + 4] < 0x80 || raw[d + 4] == 0xE8 || raw[d + 4] == 0xE7 || raw[d + 4] == 0xE3
        || raw[d + 4] == 0xE2
}

/// Walking the chunks of a standard MIDI file from `p` to `end` (an id and
/// a big-endian length, then the data, cut at `end`) meets a header chunk
/// with that timing word. The walk stops where fewer than 8 bytes are left,
/// where a chunk runs past `end`, and at a header chunk that does not read.
pub open spec fn chunk_walk_hazard(raw: Seq<u8>, p: int, end: int) -> bool
    decreases end - p,
{
    if p < 0 || end > raw.len() || end - p < 8 {
        false
    } else {
        let len = be32_at(raw, p + 4);
        let d = p + 8;
        let e = if d + len <= end { d + len } else { end };
        let header = tag_at(raw, p, mthd());
        (header && header_hazard(raw, d, e)) || ((!header || header_reads(raw, d, e)) && d + len <= end
            && chunk_walk_hazard(raw, d + len, end))
    }
}

/// The data chunk found walking the chunks of an RMID file from `q` to
/// `end` (an id and a little-endian length, then the data, cut at `end`,
/// padded to an even length).
pub open spec fn riff_find(raw: Seq<u8>, q: int, end: int) -> Option<(int, int)>
    decreases end - q,
{
    if q < 0 || end > raw.len() || end - q < 8 {
        None
    } else {
        let len = le32_at(raw, q + 4);
        let d = q + 8;
        let e = if d + len <= end { d + len } else { end };
        if tag_at(raw, q, seq![0x64u8, 0x61u8, 0x74u8, 0x61u8]) {
            Some((d, e))
        } else {
            let r = if len % 2 == 1 && e < end { e + 1 } else { e };
            riff_find(raw, r, end)
        }
    }
}

/// Where the standard MIDI file of an RMID file lies: the data chunk of
/// the `RIFF` chunk of form `RMID`.
pub open spec fn riff_data(raw: Seq<u8>) -> Option<(int, int)> {
    if raw.len() < 8 {
        None
    } else {
        let len = le32_at(raw, 4);
        let b = if 8 + len <= raw.len() { 8 + len } else { raw.len() as int };
        if b < 12 || !tag_at(raw, 8, seq![0x52u8, 0x4Du8, 0x49u8, 0x44u8]) {
            None
        } else {
            riff_find(raw, 12, b)
        }
    }
}

/// Decoding `raw` would read a header timing word whose high byte is 0x80:
/// one of the header chunks met walking the file's chunks (inside the
/// data chunk for an RMID file).
pub open spec fn timing_hazard(raw: Seq<u8>) -> bool {
    if raw.len() >= 4 && tag_at(raw, 0, seq![0x52u8, 0x49u8, 0x46u8, 0x46u8]) {
        match riff_data(raw) {
            Some((a, b)) => chunk_walk_hazard(raw, a, b),
            None => false,
        }
    } else if raw.len() >= 4 && tag_at(raw, 0, mthd()) {
        chunk_walk_hazard(raw, 0, raw.len() as int)
    } else {
        false
    }
}

/// What decoding `raw` gives: nothing for a timing word that starts with
/// 0x80, else what `lumino-midly` decodes.
pub open spec fn decoded(raw: Seq<u8>) -> Option<(SmfTiming, Seq<Seq<SmfEvent>>)> {
    if timing_hazard(raw) {
        None
    } else {
        midly_decode(raw)
    }
}

fn be32(raw: &[u8], i: usize) -> (r: u64)
    requires
        i + 4 <= raw@.len(),
    ensures
        r == be32_at(raw@, i as int),
{
    (raw[i] as u64) * 0x100_0000 + (raw[i + 1] as u64) * 0x1_0000 + (raw[i + 2] as u64) * 0x100 + (raw[i + 3] as u64)
}

fn le32(raw: &[u8], i: usize) -> (r: u64)
    requires
        i + 4 <= raw@.len(),
    ensures
        r == le32_at(raw@, i as int),
{
    (raw[i] as u64) + (raw[i + 1] as u64) * 0x100 + (raw[i + 2] as u64) * 0x1_0000 + (raw[i + 3] as u64) * 0x100_0000
}

fn is_tag(raw: &[u8], i: usize, a: u8, b: u8, c: u8, d: u8) -> (r: bool)
    requires
        i + 4 <= raw@.len(),
    ensures
        r == tag_at(raw@, i as int, seq![a, b, c, d]),
{
    raw[i] == a && raw[i + 1] == b && raw[i + 2] == c && raw[i + 3] == d
}

fn walk_hazard(raw: &[u8], start: usize, end: usize) -> (r: bool)
    requires
        start <= end <= raw@.len(),
    ensures
        r == chunk_walk_hazard(raw@, start as int, end as int),
{
    let mut p: usize = start;
    while end - p >= 8
        invariant
            start <= p <= end <= raw@.len(),
            chunk_walk_hazard(raw@, start as int, end as int) == chunk_walk_hazard(raw@, p as int, end as int),
        decreases end - p,
    {
        let len = be32(raw, p + 4);
        let d = p + 8;
        let room = (end - d) as u64;
        let e: usize = if len <= room { d + len as usize } else { end };
        let header = is_tag(raw, p, 0x4D, 0x54, 0x68, 0x64);
        assert(mthd() =~= seq![0x4Du8, 0x54u8, 0x68u8, 0x64u8]);
        if header && e - d >= 6 && raw[d] == 0 && raw[d + 1] <= 2 {
            let t = raw[d + 4];
            if t == 0x80 {
                return true;
            }
            if !(t < 0x80 || t == 0xE8 || t == 0xE7 || t == 0xE3 || t == 0xE2) {
                return false;
            }
        } else if header {
            return false;
        }
        if len > room {
            return false;
        }
        p = d + len as usize;
    }
    false
}

fn riff_find_exec(raw: &[u8], start: usize, end: usize) -> (r: Option<(usize, usize)>)
    requires
        start <= end <= raw@.len(),
    ensures
        match r {
            None => riff_find(raw@, start as int, end as int) is None,
            Some((a, b)) => riff_find(raw@, start as int, end as int) == Some((a as int, b as int)) && start <= a
                <= b <= end,
        },
{
    let mut q: usize = start;
    while end - q >= 8
        invariant
            start <= q <= end <= raw@.len(),
            riff_find(raw@, start as int, end as int) == riff_find(raw@, q as int, end as int),
        decreases end - q,
    {
        let len = le32(raw, q + 4);
        let d = q + 8;
        let room = (end - d) as u64;
        let e: usize = if len <= room { d + len as usize } else { end };
        if is_tag(raw, q, 0x64, 0x61, 0x74, 0x61) {
            return Some((d, e));
        }
        q = if len % 2 == 1 && e < end { e + 1 } else { e };
    }
    None
}

fn has_timing_hazard(raw: &[u8]) -> (r: bool)
    ensures
        r == timing_hazard(raw@),
{
    let n = raw.len();
    if n < 4 {
        return false;
    }
    if is_tag(raw, 0, 0x52, 0x49, 0x46, 0x46) {
        if n < 8 {
            return false;
        }
        let len = le32(raw, 4);
        let b: usize = if len <= (n - 8) as u64 { 8 + len as usize } else { n };
        if b < 12 || !is_tag(raw, 8, 0x52, 0x4D, 0x49, 0x44) {
            return false;
        }
        assert(riff_data(raw@) == riff_find(raw@, 12, b as int));
        match riff_find_exec(raw, 12, b) {
            Some((a, e)) => walk_hazard(raw, a, e),
            None => false,
        }
    } else if is_tag(raw, 0, 0x4D, 0x54, 0x68, 0x64) {
        assert(mthd() =~= seq![0x4Du8, 0x54u8, 0x68u8, 0x64u8]);
        walk_hazard(raw, 0, n)
    } else {
        false
    }
}

/// Decodes `raw` with `lumino-midly`; the error holds the decoder's message.
/// A header timing word starting with 0x80 is refused before decoding.
pub fn decode(raw: &[u8]) -> (res: Result<SmfData, String>)
    ensures
        res is Ok <==> decoded(raw@) is Some,
        res matches Ok(d) ==> decoded(raw@) == Some(d@),
{
    if has_timing_hazard(raw) {
        return Err(String::from_str("invalid smpte fps"));
    }
    match smf_parse(raw) {
        Ok(smf) => Ok(read_contents(&smf)),
        Err(e) => Err(midly_error_text(&e)),
    }
}

} // verus!
