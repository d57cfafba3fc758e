//! GPU MIDI synthesizer: the verified core.
//!
//! MIDI file decoding and sample-accurate event scheduling, streaming
//! event merge, configuration checks, the CPU-side voice state machine,
//! the offline render decisions and the sizing of the GPU buffers.

pub mod buffers;
pub mod config;
pub mod error;
pub mod midi;
pub mod synth;
