//! The CPU side of the engine: event routing, the voice state machine, the
//! placement of sample data and the offline render loop decisions.

pub mod render;
pub mod samples;
pub mod voices;
