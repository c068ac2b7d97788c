//! Chess endgame tablebases measured in distance to conversion (DTC).
//!
//! The library holds the verified core: the encoding of stored outcomes, the
//! ordering of outcomes, the bit-sliced frame layout, the endgame naming
//! rules, the indexing of positions, the files of tables with their frames,
//! and the decisions of retrograde analysis and of the consistency check.

pub mod outcome;
pub mod stored;
pub mod frame;
pub mod piece_set;
pub mod words;
pub mod names;
pub mod combinatorics;
pub mod compaction;
pub mod kings;
pub mod board;
pub mod indexer;
pub mod error;
pub mod radix;
pub mod encoding;
pub mod egt;
pub mod tables;
pub mod egt_file;
pub mod retrograde;
pub mod consistency;
pub mod digest;
pub mod pawn_files;

pub use outcome::{ConversionType, DtcOutcome};
pub use stored::MaybeDtcOutcome;
pub use egt_file::{EgtFile, FrameState};
pub use egt::Egt;
pub use error::EgtError;
pub use consistency::get_endgame;

use vstd::prelude::*;

verus! {

/// Generates tables into a directory.
pub struct EgtGenerator {
    pub base_path: std::path::PathBuf,
    pub assigned_memory: Option<usize>,
}

#[verifier::external_type_specification]
#[verifier::external_body]
pub struct ExPathBuf(std::path::PathBuf);

impl EgtGenerator {
    /// A generator writing its tables under `path`, with no memory limit set.
    pub fn new(path: std::path::PathBuf) -> (r: Self)
        ensures
            r.base_path == path,
            r.assigned_memory is None,
    {
        EgtGenerator { base_path: path, assigned_memory: None }
    }

    /// Sets the amount of memory the generator may use.
    pub fn with_assigned_memory(&mut self, n: usize)
        ensures
            final(self).assigned_memory == Some(n),
            final(self).base_path == old(self).base_path,
    {
        self.assigned_memory = Some(n);
    }
}

} // verus!
