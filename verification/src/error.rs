//! Errors of the library.

use vstd::prelude::*;

verus! {

/// What can go wrong when naming, building, reading or checking tables.
#[derive(Clone, Debug, PartialEq, Eq)]
pub enum EgtError {
    /// The endgame name (e.g. "KQ_KPc") is malformed.
    InvalidEndgameName { name: String, reason: &'static str },
    /// A piece set is not supported (too many pieces, missing king, too many
    /// pawns on a file, a table too large to be indexed).
    InvalidPieceConfig(&'static str),
    /// A position could not be parsed or is illegal.
    InvalidPosition(String),
    /// An index is out of range for the table or file.
    IndexOutOfRange { index: u64, range: u64 },
    /// A position does not map to a valid index in the table.
    PositionNotInTable { table: String },
    /// An outcome value read from a table is corrupted.
    CorruptedOutcome { value: u16, index: u64 },
    /// A table file expected to exist was not found.
    FileNotFound(String),
    /// A consistency check failed during verification.
    ConsistencyCheckFailed { endgame: String, index: u64, detail: String },
    /// The frame is compressed on disk and has to be read before use.
    FrameOnFile { frame: u64 },
    /// Reading or writing a file failed.
    Io,
    /// Compressing or decompressing a frame failed.
    Compression,
    /// An internal invariant was violated.
    Internal(&'static str),
}

} // verus!
