//! The error type shared by every fallible operation of the crate.

use vstd::prelude::*;
use vstd::string::StringExecFns;
use crate::numerals::{hex, to_hex};

verus! {

/// Why a LEB128 value could not be decoded.
#[derive(Debug, Clone, Copy, PartialEq, Eq, Structural)]
pub enum DecodeError {
    /// Not enough bytes to complete the LEB128 value.
    Incomplete,
    /// Value would overflow u64.
    Overflow,
}

impl DecodeError {
    /// The message shown to a user.
    pub open spec fn text(self) -> Seq<char> {
        match self {
            DecodeError::Incomplete => "incomplete LEB128 encoding"@,
            DecodeError::Overflow => "LEB128 value overflows u64"@,
        }
    }

    /// The message shown to a user.
    pub fn message(&self) -> (s: &'static str)
        ensures
            s@ == self.text(),
    {
        match self {
            DecodeError::Incomplete => "incomplete LEB128 encoding",
            DecodeError::Overflow => "LEB128 value overflows u64",
        }
    }
}

/// Why a trace could not be read, written or analysed.
#[derive(Debug, PartialEq, Eq)]
pub enum TraceError {
    /// The input ends before the value does.
    UnexpectedEof,
    /// The file does not start with the µScope magic.
    InvalidMagic,
    /// A segment does not start with the segment magic.
    InvalidSegmentMagic,
    /// A checkpoint is too small to hold the mask of its valid slots.
    CheckpointMaskTooSmall,
    /// A checkpoint ends within a valid slot.
    CheckpointTruncated,
    /// A checkpoint is too small for a dense storage.
    CheckpointTooSmall,
    /// The string pool of a schema starts behind its end.
    StringPoolOutOfRange,
    /// A delta blob cannot be decompressed.
    Decompress,
    /// The chain of segments goes round in circles.
    SegmentChainLoop,
    /// A cycle has more items than a frame can hold.
    FrameTooLarge,
    /// The frames or the checkpoint of a segment are too large.
    SegmentTooLarge,
    /// The preamble of a trace is too large.
    PreambleTooLarge,
    /// The slots of a storage do not fit in memory.
    StorageTooLarge,
    /// The strings of a trace are too large.
    StringsTooLarge,
    /// A trace is too large for another segment.
    TraceTooLarge,
    /// A summary starts with an unknown magic.
    InvalidSummaryMagic,
    /// The name of a counter in a summary is not valid UTF-8.
    InvalidCounterName,
    /// A string lies outside the string table.
    StringTableOutOfRange,
    /// A trace has no schema.
    MissingSchema,
    /// A trace has no description of the design under test.
    MissingDut,
    /// A trace has no configuration.
    MissingConfig,
    /// No segment covers a time.
    NoSegmentForTime,
    /// There is no segment with that number.
    SegmentOutOfRange,
    /// The time of a frame is not valid LEB128.
    Leb128(DecodeError),
    /// The time of a frame does not fit in 64 bits.
    TimeOverflow,
    /// A frame holds an item of an unknown kind.
    UnknownItemTag(u8),
    /// An operation addresses a field or a property outside its storage.
    OpOutOfRange,
    /// The clock period is zero.
    ZeroPeriod,
    /// The instructions or the deltas of a counter are too many to be added up.
    SummaryTooLarge,
    /// A trace has no section table.
    NotFinalized,
    /// No scope follows the CPU protocol.
    NoCpuScope,
    /// The CPU scope has no entities storage.
    NoEntitiesStorage,
    /// A storage has no field of that name.
    FieldNotFound,
    /// The entities have no field "entity_id".
    NoEntityIdField,
    /// The entities have no field "pc".
    NoPcField,
    /// There is no "stage_transition" event.
    NoStageTransitionEvent,
    /// There is no "annotate" event.
    NoAnnotateEvent,
    /// There is no "dependency" event.
    NoDependencyEvent,
    /// There is no "flush" event.
    NoFlushEvent,
    /// There is no enumeration of pipeline stages.
    NoPipelineStageEnum,
    /// There are too many instructions to be numbered.
    TooManyInstructions,
    /// A gzip stream cannot be decompressed.
    Gunzip,
    /// A line of a log is not valid UTF-8.
    InvalidUtf8,
    /// The time of a log goes backwards.
    TimeBackwards,
    /// The names of a schema do not fit in its string pool.
    StringPoolFull,
    /// The clock period does not fit in 32 bits.
    PeriodTooLarge,
    /// No instruction has that ID.
    EntityNotFound,
    /// A range of cycles ends before it starts.
    EmptyRange,
}

impl TraceError {
    /// The message shown to a user.
    pub open spec fn text(self) -> Seq<char> {
        match self {
            TraceError::Leb128(e) => e.text(),
            TraceError::UnknownItemTag(tag) => "unknown item tag: 0x"@ + hex(tag as nat, 2),
            TraceError::UnexpectedEof => "failed to fill whole buffer"@,
            TraceError::InvalidMagic => "invalid magic"@,
            TraceError::InvalidSegmentMagic => "invalid segment magic"@,
            TraceError::CheckpointMaskTooSmall => "checkpoint too small for valid mask"@,
            TraceError::CheckpointTruncated => "checkpoint truncated"@,
            TraceError::CheckpointTooSmall => "checkpoint too small for dense storage"@,
            TraceError::StringPoolOutOfRange => "string pool out of range"@,
            TraceError::Decompress => "LZ4 decompress"@,
            TraceError::SegmentChainLoop => "segment chain goes round in circles"@,
            TraceError::FrameTooLarge => "too many items in a cycle"@,
            TraceError::SegmentTooLarge => "segment too large"@,
            TraceError::PreambleTooLarge => "preamble too large"@,
            TraceError::StorageTooLarge => "storage too large"@,
            TraceError::StringsTooLarge => "strings too large"@,
            TraceError::TraceTooLarge => "trace too large"@,
            TraceError::InvalidSummaryMagic => "invalid trace summary magic (expected TSUM or CSUM)"@,
            TraceError::InvalidCounterName => "invalid UTF-8 counter name"@,
            TraceError::StringTableOutOfRange => "string outside the string table"@,
            TraceError::MissingSchema => "missing schema chunk"@,
            TraceError::MissingDut => "missing DUT descriptor chunk"@,
            TraceError::MissingConfig => "missing trace config chunk"@,
            TraceError::NoSegmentForTime => "no segment for time"@,
            TraceError::SegmentOutOfRange => "segment index out of range"@,
            TraceError::TimeOverflow => "frame time overflows u64"@,
            TraceError::OpOutOfRange => "operation outside its storage"@,
            TraceError::ZeroPeriod => "period_ps must be > 0"@,
            TraceError::SummaryTooLarge => "too many instructions or deltas to add up"@,
            TraceError::NotFinalized => "file has no section table (not finalized?)"@,
            TraceError::NoCpuScope => "no CPU protocol scope found"@,
            TraceError::NoEntitiesStorage => "no entities storage found"@,
            TraceError::FieldNotFound => "field not found in entities"@,
            TraceError::NoEntityIdField => "field 'entity_id' not found in entities"@,
            TraceError::NoPcField => "field 'pc' not found in entities"@,
            TraceError::NoStageTransitionEvent => "no 'stage_transition' event found"@,
            TraceError::NoAnnotateEvent => "no 'annotate' event found"@,
            TraceError::NoDependencyEvent => "no 'dependency' event found"@,
            TraceError::NoFlushEvent => "no 'flush' event found"@,
            TraceError::NoPipelineStageEnum => "no pipeline_stage enum found"@,
            TraceError::TooManyInstructions => "too many instructions"@,
            TraceError::Gunzip => "invalid gzip stream"@,
            TraceError::InvalidUtf8 => "stream did not contain valid UTF-8"@,
            TraceError::TimeBackwards => "time must be monotonically increasing"@,
            TraceError::StringPoolFull => "string pool overflow"@,
            TraceError::PeriodTooLarge => "clock period too large"@,
            TraceError::EntityNotFound => "entity not found in trace"@,
            TraceError::EmptyRange => "start_cycle must be less than end_cycle"@,
        }
    }

    /// The message shown to a user.
    pub fn message(&self) -> (s: String)
        ensures
            s@ == self.text(),
    {
        let s: &'static str = match self {
            TraceError::Leb128(e) => e.message(),
            TraceError::UnknownItemTag(tag) => {
                let mut s: String = "unknown item tag: 0x".to_owned();
                s.append(to_hex(*tag as u64, 2).as_str());
                return s;
            },
            TraceError::UnexpectedEof => "failed to fill whole buffer",
            TraceError::InvalidMagic => "invalid magic",
            TraceError::InvalidSegmentMagic => "invalid segment magic",
            TraceError::CheckpointMaskTooSmall => "checkpoint too small for valid mask",
            TraceError::CheckpointTruncated => "checkpoint truncated",
            TraceError::CheckpointTooSmall => "checkpoint too small for dense storage",
            TraceError::StringPoolOutOfRange => "string pool out of range",
            TraceError::Decompress => "LZ4 decompress",
            TraceError::SegmentChainLoop => "segment chain goes round in circles",
            TraceError::FrameTooLarge => "too many items in a cycle",
            TraceError::SegmentTooLarge => "segment too large",
            TraceError::PreambleTooLarge => "preamble too large",
            TraceError::StorageTooLarge => "storage too large",
            TraceError::StringsTooLarge => "strings too large",
            TraceError::TraceTooLarge => "trace too large",
            TraceError::InvalidSummaryMagic => "invalid trace summary magic (expected TSUM or CSUM)",
            TraceError::InvalidCounterName => "invalid UTF-8 counter name",
            TraceError::StringTableOutOfRange => "string outside the string table",
            TraceError::MissingSchema => "missing schema chunk",
            TraceError::MissingDut => "missing DUT descriptor chunk",
            TraceError::MissingConfig => "missing trace config chunk",
            TraceError::NoSegmentForTime => "no segment for time",
            TraceError::SegmentOutOfRange => "segment index out of range",
            TraceError::TimeOverflow => "frame time overflows u64",
            TraceError::OpOutOfRange => "operation outside its storage",
            TraceError::ZeroPeriod => "period_ps must be > 0",
            TraceError::SummaryTooLarge => "too many instructions or deltas to add up",
            TraceError::NotFinalized => "file has no section table (not finalized?)",
            TraceError::NoCpuScope => "no CPU protocol scope found",
            TraceError::NoEntitiesStorage => "no entities storage found",
            TraceError::FieldNotFound => "field not found in entities",
            TraceError::NoEntityIdField => "field 'entity_id' not found in entities",
            TraceError::NoPcField => "field 'pc' not found in entities",
            TraceError::NoStageTransitionEvent => "no 'stage_transition' event found",
            TraceError::NoAnnotateEvent => "no 'annotate' event found",
            TraceError::NoDependencyEvent => "no 'dependency' event found",
            TraceError::NoFlushEvent => "no 'flush' event found",
            TraceError::NoPipelineStageEnum => "no pipeline_stage enum found",
            TraceError::TooManyInstructions => "too many instructions",
            TraceError::Gunzip => "invalid gzip stream",
            TraceError::InvalidUtf8 => "stream did not contain valid UTF-8",
            TraceError::TimeBackwards => "time must be monotonically increasing",
            TraceError::StringPoolFull => "string pool overflow",
            TraceError::PeriodTooLarge => "clock period too large",
            TraceError::EntityNotFound => "entity not found in trace",
            TraceError::EmptyRange => "start_cycle must be less than end_cycle",
        };
        s.to_owned()
    }
}

} // verus!
