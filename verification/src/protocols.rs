//! Protocols on top of the transport layer.

pub mod cpu;
pub mod cpu_laws;
