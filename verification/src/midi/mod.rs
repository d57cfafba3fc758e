//! MIDI event types shared by the parser, the scheduler and the engine.

pub mod parser;
pub mod smf;
pub mod sort;
pub mod stream;
pub mod tempo;
pub mod writer;

pub use parser::MidiFile;

use crate::midi::smf::ChannelMessage;
use vstd::prelude::*;

verus! {

/// A MIDI event as understood by the synthesizer (channel-scoped).
#[allow(inconsistent_fields)]
#[derive(Debug, Clone, Copy, PartialEq, Eq, Structural)]
pub enum MidiEvent {
    /// A note starts. `vel` is the MIDI velocity (1-127).
    NoteOn { key: u8, vel: u8 },
    /// A note stops.
    NoteOff { key: u8 },
    /// A control change. `controller` is the CC number (0-127).
    ControlChange { controller: u8, value: u8 },
    /// A program change (instrument selection).
    ProgramChange { program: u8 },
    /// A pitch bend. `value` is the raw 14-bit value (0-16383, 8192 = center).
    PitchBend { value: u16 },
}

impl MidiEvent {
    /// Returns `true` if this event is a note-on with zero velocity, which
    /// by the MIDI convention is equivalent to a note-off.
    pub fn is_zero_velocity_note_on(&self) -> (res: bool)
        ensures
            res == (*self matches MidiEvent::NoteOn { vel, .. } && vel == 0),
    {
        match self {
            MidiEvent::NoteOn { vel, .. } => *vel == 0,
            _ => false,
        }
    }
}

/// The synthesizer event of a channel message, if it has one: a note-on of
/// velocity 0 is a note-off; aftertouch messages are dropped.
pub open spec fn midi_event_of(m: ChannelMessage) -> Option<MidiEvent> {
    match m {
        ChannelMessage::NoteOn { key, vel } => if vel == 0 {
            Some(MidiEvent::NoteOff { key })
        } else {
            Some(MidiEvent::NoteOn { key, vel })
        },
        ChannelMessage::NoteOff { key, .. } => Some(MidiEvent::NoteOff { key }),
        ChannelMessage::Controller { controller, value } => Some(
            MidiEvent::ControlChange { controller, value },
        ),
        ChannelMessage::ProgramChange { program } => Some(MidiEvent::ProgramChange { program }),
        ChannelMessage::PitchBend { bend } => Some(MidiEvent::PitchBend { value: bend }),
        _ => None,
    }
}

/// The synthesizer event of a channel message (see [`midi_event_of`]).
pub fn midi_event_from(m: ChannelMessage) -> (r: Option<MidiEvent>)
    ensures
        r == midi_event_of(m),
{
    match m {
        ChannelMessage::NoteOn { key, vel } => if vel == 0 {
            Some(MidiEvent::NoteOff { key })
        } else {
            Some(MidiEvent::NoteOn { key, vel })
        },
        ChannelMessage::NoteOff { key, .. } => Some(MidiEvent::NoteOff { key }),
        ChannelMessage::Controller { controller, value } => Some(
            MidiEvent::ControlChange { controller, value },
        ),
        ChannelMessage::ProgramChange { program } => Some(MidiEvent::ProgramChange { program }),
        ChannelMessage::PitchBend { bend } => Some(MidiEvent::PitchBend { value: bend }),
        _ => None,
    }
}

/// A MIDI event bound to an absolute sample position in the output stream.
#[derive(Debug, Clone, Copy, PartialEq, Eq, Structural)]
pub struct TimedEvent {
    /// Absolute output sample index at which this event is applied.
    pub sample: u64,
    /// The MIDI channel (0-15) this event belongs to.
    pub channel: u8,
    /// The event payload.
    pub event: MidiEvent,
}

/// A parsed MIDI sequence: the full event stream with sample-accurate
/// timestamps, ready to be consumed by the engine.
#[derive(Debug, Clone, PartialEq)]
pub struct MidiSequence {
    /// All events in ascending sample order (events from every track and
    /// channel are merged).
    pub events: Vec<TimedEvent>,
    /// The output sample position of the last event (the MIDI's end).
    pub end_sample: u64,
}

} // verus!
