//! A crash-durable, append-only write-ahead log.
//!
//! Logical records are suffixed with their sequence number, split into
//! checksummed frames that never cross a page boundary, appended to the
//! active segment, and recovered by a scan that stops quietly at the first
//! frame that is torn or fails its checksum.
use vstd::prelude::*;

pub mod bytes;
pub mod codec;
pub mod layout;
pub mod naming;
pub mod payload;
pub mod recovery;
pub mod segment;
pub mod storage;
pub mod wal;

verus! {

/// Errors of the log.
#[derive(Debug, Clone, Copy, PartialEq, Eq, Structural)]
pub enum WalError {
    /// A frame's stored checksum does not match its payload, or the frame is cut short.
    InvalidFrameData,
    /// The storage refused to append the frames of a record.
    AppendFailed,
    /// A segment or a record is past the largest size a segment may reach.
    SegmentFull,
    /// The last eight bytes of a segment could not be read as a sequence number.
    CorruptSegmentTail,
    /// Any other failure of the storage.
    Storage,
    /// The sequence counter has reached its largest value.
    SequenceExhausted,
}

} // verus!
