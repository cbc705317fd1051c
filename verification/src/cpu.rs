//! CPU protocol library for µScope traces: opening and querying CPU pipeline
//! traces on top of the transport layer.

pub mod buffer_laws;
pub mod buffers;
pub mod builder;
pub mod counter_laws;
pub mod counters;
pub mod decode;
pub mod downsample;
pub mod life_laws;
pub mod load;
pub mod open_laws;
pub mod resolve;
pub mod session_laws;
pub mod stage_laws;
pub mod trace;
pub mod types;
