//! Reading, writing and analysing µScope hardware traces.
//!
//! A trace is held in memory as a byte image. The modules below state what
//! every byte of that image means and prove that what is written is what is
//! read back.
#![allow(unused_imports)]

pub mod analysis;
pub mod bytes;
pub mod chars;
pub mod checkpoint;
pub mod commands;
pub mod compress;
pub mod cpu;
pub mod density;
pub mod embed;
pub mod error;
pub mod frame;
pub mod generate;
pub mod konata;
pub mod konata_emit;
pub mod konata_laws;
pub mod layout_laws;
pub mod leb128;
pub mod log_laws;
pub mod mipmap;
pub mod mipmap_laws;
pub mod numeral_laws;
pub mod numerals;
pub mod protocols;
pub mod query;
pub mod reader;
pub mod reading_laws;
pub mod report;
pub mod roundtrip;
pub mod rpc;
pub mod schema;
pub mod segment;
pub mod sort;
pub mod state;
pub mod storage_laws;
pub mod string_pool;
pub mod summarize;
pub mod summary;
pub mod tally;
pub mod text;
pub mod tools;
pub mod trace;
pub mod types;
pub mod wire;
pub mod writer;
pub mod writer_laws;
