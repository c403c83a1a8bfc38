//! The errors the engine reports.

use vstd::prelude::*;

verus! {

#[derive(Clone, Copy, Debug, PartialEq, Eq, Structural)]
pub enum DbError {
    /// The checksum recomputed over a record's key and value did not match
    /// the stored one; carries the position just past the record and both
    /// checksum values.
    CorruptRecord { position: u64, expected: u32, found: u32 },
    /// A record frame starting at `position` runs past the end of the file.
    TruncatedRecord { position: u64 },
    /// A clean record boundary at the end of the file; used only to end the
    /// replay loop, never surfaced to callers.
    EndOfStream,
    /// A segment file too short to hold its 16-byte header, or an
    /// `initial_segment` marker too short to hold a name.
    InvalidHeader,
    /// A next-segment link names a segment that the directory does not hold.
    MissingSegment { name: u64 },
    /// Following next-segment links never reached a tail segment.
    BrokenChain,
}

} // verus!
