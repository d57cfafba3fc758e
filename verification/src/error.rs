//! Errors reported by the library.

use vstd::prelude::*;

verus! {

/// Why a MIDI file cannot be scheduled.
#[derive(Debug, Clone, PartialEq, Eq)]
pub enum MidiError {
    /// `lumino-midly` rejected the bytes; its message.
    Parse(String),
    /// The file uses SMPTE timecode timing, which is not supported.
    SmpteTiming,
    /// The file declares zero ticks per beat.
    ZeroTicksPerBeat,
    /// A track's absolute tick position exceeds the `u64` range.
    TickOverflow,
    /// The schedule cannot be written as a standard MIDI file.
    Unwritable,
}

/// Why a configuration is unusable.
#[derive(Debug, Clone, Copy, PartialEq, Eq, Structural)]
pub enum ConfigError {
    /// `sample_rate` is zero.
    ZeroSampleRate,
    /// `max_voices` is outside `1..=65536` (the value given).
    MaxVoices(usize),
    /// `block_size` is not a power of two of at least 16 (the value given).
    BlockSize(usize),
    /// `render_silence_threshold` is not a positive finite number.
    SilenceThreshold,
    /// `max_tail_seconds` is not a positive finite number.
    TailSeconds,
}

} // verus!
