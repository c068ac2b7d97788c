//! The decisions of retrograde analysis. Positions are first marked as
//! invalid, checkmated, stalemated or unknown with a counter of the moves not
//! yet refuted; then, ply by ply, a position one of whose moves leads to a
//! loss of the opponent becomes a win, and a position all of whose moves lead
//! to wins of the opponent becomes a loss (its counter reaches zero). The
//! positions still unknown at the end are draws.
//!
//! Generating the predecessors of a position (retro moves) is done by the
//! caller, which feeds the queues of the next ply.

use vstd::prelude::*;
use crate::error::EgtError;
use crate::egt_file::{EgtFile, ranges_sum, frame_in_memory};
use crate::outcome::ConversionType;
use crate::stored::{MaybeDtcOutcome, status, payload, win_status, loss_status};
use crate::board::{BoardPosition, Piece, Role};
use crate::egt::{PieceEntry, file_of};
use crate::piece_set::{EgtRole, EgtSide, File, file_index, role_index};
use crate::tables::{PawnKey, is_canonical, reflect_files, repeat_file, key_of, canonical, reflected};
use crate::names::{all_ascii, ascii_chars, string_from_ascii};
use vstd::string::StringSliceAdditionalSpecFns;

verus! {

/// A table of a file handled by the solver.
#[derive(Clone, Debug, PartialEq, Eq)]
pub struct EgtHandle {
    pub name: String,
    pub file_idx: usize,
    pub egt_idx: usize,
}

/// The positions to process at the next ply: wins and losses to record, by
/// conversion type.
pub struct DepthQueues {
    pub win_checkmate: Vec<u64>,
    pub win_capture: Vec<u64>,
    pub win_promotion: Vec<u64>,
    pub loss_checkmate: Vec<u64>,
    pub loss_capture: Vec<u64>,
    pub loss_promotion: Vec<u64>,
}

/// Every queue is empty.
pub open spec fn queues_empty(q: DepthQueues) -> bool {
    q.win_checkmate@.len() == 0 && q.win_capture@.len() == 0 && q.win_promotion@.len() == 0 && q.loss_checkmate@.len() == 0
        && q.loss_capture@.len() == 0 && q.loss_promotion@.len() == 0
}

impl DepthQueues {
    pub fn new() -> (r: Self)
        ensures
            r.win_checkmate@ == Seq::<u64>::empty(),
            r.win_capture@ == Seq::<u64>::empty(),
            r.win_promotion@ == Seq::<u64>::empty(),
            r.loss_checkmate@ == Seq::<u64>::empty(),
            r.loss_capture@ == Seq::<u64>::empty(),
            r.loss_promotion@ == Seq::<u64>::empty(),
    {
        DepthQueues {
            win_checkmate: Vec::new(),
            win_capture: Vec::new(),
            win_promotion: Vec::new(),
            loss_checkmate: Vec::new(),
            loss_capture: Vec::new(),
            loss_promotion: Vec::new(),
        }
    }

    /// Whether every queue is empty.
    pub fn is_empty(&self) -> (r: bool)
        ensures
            r == (self.win_checkmate@.len() == 0 && self.win_capture@.len() == 0 && self.win_promotion@.len() == 0
                && self.loss_checkmate@.len() == 0 && self.loss_capture@.len() == 0 && self.loss_promotion@.len() == 0),
    {
        self.win_checkmate.len() == 0 && self.win_capture.len() == 0 && self.win_promotion.len() == 0
            && self.loss_checkmate.len() == 0 && self.loss_capture.len() == 0 && self.loss_promotion.len() == 0
    }

    /// Queues a position to become a win by `ct`.
    pub fn push_win(&mut self, idx: u64, ct: ConversionType)
        ensures
            final(self).win_checkmate@ == (if ct is Checkmate { old(self).win_checkmate@.push(idx) } else { old(self).win_checkmate@ }),
            final(self).win_capture@ == (if ct is Capture { old(self).win_capture@.push(idx) } else { old(self).win_capture@ }),
            final(self).win_promotion@ == (if ct is Promotion { old(self).win_promotion@.push(idx) } else { old(self).win_promotion@ }),
            final(self).loss_checkmate@ == old(self).loss_checkmate@,
            final(self).loss_capture@ == old(self).loss_capture@,
            final(self).loss_promotion@ == old(self).loss_promotion@,
    {
        match ct {
            ConversionType::Checkmate => self.win_checkmate.push(idx),
            ConversionType::Capture => self.win_capture.push(idx),
            ConversionType::Promotion => self.win_promotion.push(idx),
        }
    }

    /// Queues a position whose counter drops by one move leading to a win by `ct`.
    pub fn push_loss(&mut self, idx: u64, ct: ConversionType)
        ensures
            final(self).loss_checkmate@ == (if ct is Checkmate { old(self).loss_checkmate@.push(idx) } else { old(self).loss_checkmate@ }),
            final(self).loss_capture@ == (if ct is Capture { old(self).loss_capture@.push(idx) } else { old(self).loss_capture@ }),
            final(self).loss_promotion@ == (if ct is Promotion { old(self).loss_promotion@.push(idx) } else { old(self).loss_promotion@ }),
            final(self).win_checkmate@ == old(self).win_checkmate@,
            final(self).win_capture@ == old(self).win_capture@,
            final(self).win_promotion@ == old(self).win_promotion@,
    {
        match ct {
            ConversionType::Checkmate => self.loss_checkmate.push(idx),
            ConversionType::Capture => self.loss_capture.push(idx),
            ConversionType::Promotion => self.loss_promotion.push(idx),
        }
    }

    /// Moves the queued positions of `other` to the end of these queues.
    pub fn merge(&mut self, other: &mut Self)
        ensures
            final(self).win_checkmate@ == old(self).win_checkmate@ + old(other).win_checkmate@,
            final(self).win_capture@ == old(self).win_capture@ + old(other).win_capture@,
            final(self).win_promotion@ == old(self).win_promotion@ + old(other).win_promotion@,
            final(self).loss_checkmate@ == old(self).loss_checkmate@ + old(other).loss_checkmate@,
            final(self).loss_capture@ == old(self).loss_capture@ + old(other).loss_capture@,
            final(self).loss_promotion@ == old(self).loss_promotion@ + old(other).loss_promotion@,
            final(other).win_checkmate@.len() == 0,
            final(other).win_capture@.len() == 0,
            final(other).win_promotion@.len() == 0,
            final(other).loss_checkmate@.len() == 0,
            final(other).loss_capture@.len() == 0,
            final(other).loss_promotion@.len() == 0,
    {
        self.win_checkmate.append(&mut other.win_checkmate);
        self.win_capture.append(&mut other.win_capture);
        self.win_promotion.append(&mut other.win_promotion);
        self.loss_checkmate.append(&mut other.loss_checkmate);
        self.loss_capture.append(&mut other.loss_capture);
        self.loss_promotion.append(&mut other.loss_promotion);
    }
}

/// What the analysis of a pair of tables does at the next ply.
#[derive(Clone, Copy, Debug, PartialEq, Eq, Structural)]
pub enum PlyAction {
    /// Propagate the queued positions of a table into its own next queues.
    PropagateWithin,
    /// Propagate the queued positions of each table into the next queues of
    /// the other (the side to move alternates between the twin tables).
    PropagateAcross,
    /// Nothing is queued any more: the positions still unknown are draws.
    MarkDraws,
}

/// The next step of the analysis of a table and its twin (`same_table` when
/// the endgame is its own twin), given the queues of the current ply.
pub fn ply_action(queues_a: &DepthQueues, queues_b: &DepthQueues, same_table: bool) -> (r: PlyAction)
    ensures
        r == (if queues_empty(*queues_a) && queues_empty(*queues_b) {
            PlyAction::MarkDraws
        } else if same_table {
            PlyAction::PropagateWithin
        } else {
            PlyAction::PropagateAcross
        }),
{
    if queues_a.is_empty() && queues_b.is_empty() {
        PlyAction::MarkDraws
    } else if same_table {
        PlyAction::PropagateWithin
    } else {
        PlyAction::PropagateAcross
    }
}

/// The ply after `plies`; fails when the depth no longer fits in 16 bits.
pub fn next_ply(plies: u16) -> (r: Result<u16, EgtError>)
    ensures
        plies < u16::MAX ==> r == Ok::<u16, EgtError>((plies + 1) as u16),
        plies == u16::MAX ==> r == Err::<u16, EgtError>(EgtError::Internal("depth out of range")),
{
    if plies < u16::MAX {
        Ok(plies + 1)
    } else {
        Err(EgtError::Internal("depth out of range"))
    }
}

/// The files being solved: the endgame and, unless it is symmetric, its
/// twin with the sides swapped.
pub struct RetrogradeSolver {
    pub files: Vec<EgtFile>,
    pub is_symmetric: bool,
}

/// The global index of a local index of the table of a handle.
pub open spec fn global_index(files: Seq<EgtFile>, h: EgtHandle, local: int) -> int {
    ranges_sum(files[h.file_idx as int].egts@, h.egt_idx as int) + local
}

/// The stored value of a local index of the table of a handle.
pub open spec fn stored_at(files: Seq<EgtFile>, h: EgtHandle, local: int) -> MaybeDtcOutcome {
    files[h.file_idx as int].stored(global_index(files, h, local))
}

/// A stored value of a position still being solved.
pub open spec fn is_unknown_value(v: MaybeDtcOutcome) -> bool {
    status(v.0) == 0 && payload(v.0) != 0
}

impl RetrogradeSolver {
    pub open spec fn wf(&self) -> bool {
        forall|f: int| 0 <= f < self.files@.len() ==> (#[trigger] self.files@[f]).wf()
    }

    /// The handle names a table of the solver.
    pub open spec fn handle_ok(&self, h: EgtHandle) -> bool {
        &&& h.file_idx < self.files@.len()
        &&& h.egt_idx < self.files@[h.file_idx as int].egts@.len()
    }

    /// Number of indexes of the table of a handle.
    pub open spec fn table_size(&self, h: EgtHandle) -> u64 {
        self.files@[h.file_idx as int].egts@[h.egt_idx as int].indexer.index_range
    }

    /// The solver of a file and, unless the endgame is symmetric, its twin.
    pub fn new(file_a: EgtFile, file_b: Option<EgtFile>) -> (r: Self)
        ensures
            r.is_symmetric == file_b is None,
            r.files@ == (match file_b {
                Some(b) => seq![file_a, b],
                None => seq![file_a],
            }),
    {
        let is_symmetric = file_b.is_none();
        let mut files: Vec<EgtFile> = Vec::new();
        files.push(file_a);
        match file_b {
            Some(fb) => files.push(fb),
            None => {},
        }
        RetrogradeSolver { files, is_symmetric }
    }

    /// Reads the stored value of a local index of a table.
    pub fn read_outcome(&mut self, handle: &EgtHandle, local_index: u64) -> (r: Result<MaybeDtcOutcome, EgtError>)
        requires
            old(self).wf(),
            old(self).handle_ok(*handle),
            local_index < old(self).table_size(*handle),
        ensures
            final(self).wf(),
            final(self).files@.len() == old(self).files@.len(),
            forall|f: int| 0 <= f < final(self).files@.len() ==> (#[trigger] final(self).files@[f]).same_data(&old(self).files@[f]),
            forall|f: int| 0 <= f < final(self).files@.len() && f != handle.file_idx ==> #[trigger] final(self).files@[f]
                == old(self).files@[f],
            r matches Ok(v) ==> v == stored_at(old(self).files@, *handle, local_index as int),
            old(self).files@[handle.file_idx as int].in_memory_at(global_index(old(self).files@, *handle, local_index as int)) ==> r is Ok,
            final(self).files@[handle.file_idx as int].keeps_in_memory(&old(self).files@[handle.file_idx as int]),
    {
        let ghost before = self.files@;
        let fi = handle.file_idx;
        proof {
            let egts = self.files@[fi as int].egts@;
            crate::egt_file::lemma_ranges_mono(egts, handle.egt_idx as int + 1, egts.len() as int);
        }
        let global = self.files[fi].get_global_index(handle.egt_idx, local_index);
        let r = {
            let file = &mut self.files[fi];
            file.read_from_index(global)
        };
        proof {
            assert forall|f: int| 0 <= f < self.files@.len() implies (#[trigger] self.files@[f]).wf() && self.files@[f].same_data(&before[f]) by {
                if f != fi {
                    assert(self.files@[f] == before[f]);
                }
            }
        }
        r
    }

    /// Writes the stored value of a local index of a table.
    pub fn write_outcome(&mut self, handle: &EgtHandle, local_index: u64, outcome: MaybeDtcOutcome) -> (r: Result<(), EgtError>)
        requires
            old(self).wf(),
            old(self).handle_ok(*handle),
            local_index < old(self).table_size(*handle),
        ensures
            final(self).wf(),
            final(self).files@.len() == old(self).files@.len(),
            forall|f: int| 0 <= f < final(self).files@.len() && f != handle.file_idx ==> #[trigger] final(self).files@[f]
                == old(self).files@[f],
            r is Err ==> final(self).files@[handle.file_idx as int].same_data(&old(self).files@[handle.file_idx as int]),
            r is Ok ==> ({
                let before = old(self).files@[handle.file_idx as int];
                let after = final(self).files@[handle.file_idx as int];
                let g = global_index(old(self).files@, *handle, local_index as int);
                &&& after.contents@ == before.contents@.update(before.frame_of(g), before.contents@[before.frame_of(g)].update(before.offset_of(g), outcome))
                &&& after.frame_size == before.frame_size
                &&& after.index_range == before.index_range
                &&& after.egt_keys@ == before.egt_keys@
                &&& after.egts@.len() == before.egts@.len()
                &&& forall|e: int| 0 <= e < after.egts@.len() ==> (#[trigger] after.egts@[e]).indexer == before.egts@[e].indexer
            }),
            r is Ok ==> stored_at(final(self).files@, *handle, local_index as int) == outcome,
            old(self).files@[handle.file_idx as int].in_memory_at(global_index(old(self).files@, *handle, local_index as int)) ==> r is Ok,
            final(self).files@[handle.file_idx as int].keeps_in_memory(&old(self).files@[handle.file_idx as int]),
    {
        let ghost before = self.files@;
        let fi = handle.file_idx;
        proof {
            let egts = self.files@[fi as int].egts@;
            crate::egt_file::lemma_ranges_mono(egts, handle.egt_idx as int + 1, egts.len() as int);
        }
        let global = self.files[fi].get_global_index(handle.egt_idx, local_index);
        let r = {
            let file = &mut self.files[fi];
            file.write_to_index(global, outcome)
        };
        proof {
            assert forall|f: int| 0 <= f < self.files@.len() implies (#[trigger] self.files@[f]).wf() by {
                if f != fi {
                    assert(self.files@[f] == before[f]);
                }
            }
            crate::egt_file::lemma_ranges_same(self.files@[fi as int].egts@, before[fi as int].egts@, handle.egt_idx as int);
        }
        r
    }
}

/// Distinct global indexes are stored at distinct places.
proof fn lemma_distinct_places(n: int, i: int, j: int)
    requires
        n > 0,
        0 <= i,
        0 <= j,
        i != j,
    ensures
        i / n != j / n || i % n != j % n,
{
    assert(i == (i / n) * n + i % n) by (nonlinear_arith)
        requires
            n > 0,
    ;
    assert(j == (j / n) * n + j % n) by (nonlinear_arith)
        requires
            n > 0,
    ;
}

/// A local index of a table is a global index of its file.
proof fn lemma_global_in_range(files: Seq<EgtFile>, h: EgtHandle, local: int)
    requires
        h.file_idx < files.len(),
        files[h.file_idx as int].wf(),
        h.egt_idx < files[h.file_idx as int].egts@.len(),
        0 <= local < files[h.file_idx as int].egts@[h.egt_idx as int].indexer.index_range,
    ensures
        0 <= global_index(files, h, local) < files[h.file_idx as int].index_range,
{
    let egts = files[h.file_idx as int].egts@;
    crate::egt_file::lemma_ranges_mono(egts, h.egt_idx as int + 1, egts.len() as int);
}

/// A frame that was open stays open when the file keeps its open frames.
proof fn lemma_in_memory_kept(a: EgtFile, b: EgtFile, g: int)
    requires
        a.wf(),
        b.keeps_in_memory(&a),
        b.frame_size == a.frame_size,
        0 <= g < a.index_range,
        a.in_memory_at(g),
    ensures
        b.in_memory_at(g),
{
    a.lemma_frame_of(g);
}

/// Keeping open frames is transitive.
proof fn lemma_keeps_in_memory_trans(a: EgtFile, b: EgtFile, c: EgtFile)
    requires
        b.keeps_in_memory(&a),
        c.keeps_in_memory(&b),
    ensures
        c.keeps_in_memory(&a),
{
    assert forall|g: int| 0 <= g < c.frames@.len() && frame_in_memory(#[trigger] a.frames@[g]) implies frame_in_memory(c.frames@[g]) by {
        assert(frame_in_memory(b.frames@[g]));
    }
}

/// Two solver states with the same data store the same values.
proof fn lemma_stored_same(a: Seq<EgtFile>, b: Seq<EgtFile>, h: EgtHandle, local: int)
    requires
        h.file_idx < a.len(),
        a.len() == b.len(),
        b[h.file_idx as int].same_data(&a[h.file_idx as int]),
        h.egt_idx <= a[h.file_idx as int].egts@.len(),
    ensures
        global_index(a, h, local) == global_index(b, h, local),
        stored_at(a, h, local) == stored_at(b, h, local),
{
    crate::egt_file::lemma_ranges_same(b[h.file_idx as int].egts@, a[h.file_idx as int].egts@, h.egt_idx as int);
}

/// Records a win by `ct` in `plies` plies for a position of `table` that is
/// still unknown, and says whether it did; a decided position is left as it
/// is. The caller then queues the predecessors of a new win as losses.
pub fn propagate_loss_to_win(solver: &mut RetrogradeSolver, table: &EgtHandle, idx: u64, plies: u16, ct: ConversionType) -> (r: Result<bool, EgtError>)
    requires
        old(solver).wf(),
        old(solver).handle_ok(*table),
        idx < old(solver).table_size(*table),
    ensures
        final(solver).wf(),
        final(solver).files@.len() == old(solver).files@.len(),
        final(solver).handle_ok(*table),
        final(solver).table_size(*table) == old(solver).table_size(*table),
        forall|f: int| 0 <= f < final(solver).files@.len() && f != table.file_idx ==> #[trigger] final(solver).files@[f]
            == old(solver).files@[f],
        old(solver).files@[table.file_idx as int].in_memory_at(global_index(old(solver).files@, *table, idx as int)) ==> r is Ok,
        final(solver).files@[table.file_idx as int].keeps_in_memory(&old(solver).files@[table.file_idx as int]),
        r matches Ok(true) ==> is_unknown_value(stored_at(old(solver).files@, *table, idx as int)) && status(
            stored_at(final(solver).files@, *table, idx as int).0,
        ) == win_status(ct) && payload(stored_at(final(solver).files@, *table, idx as int).0) == plies % 8192,
        r matches Ok(false) ==> !is_unknown_value(stored_at(old(solver).files@, *table, idx as int))
            && final(solver).files@[table.file_idx as int].same_data(&old(solver).files@[table.file_idx as int]),
{
    let ghost before = solver.files@;
    let v = match solver.read_outcome(table, idx) {
        Ok(v) => v,
        Err(e) => return Err(e),
    };
    let ghost mid = solver.files@;
    proof {
        lemma_stored_same(before, mid, *table, idx as int);
        let g = global_index(before, *table, idx as int);
        lemma_global_in_range(before, *table, idx as int);
        if before[table.file_idx as int].in_memory_at(g) {
            lemma_in_memory_kept(before[table.file_idx as int], mid[table.file_idx as int], g);
        }
    }
    if v.is_unknown() {
        let w = MaybeDtcOutcome::new_win(ct, plies);
        match solver.write_outcome(table, idx, w) {
            Ok(()) => {},
            Err(e) => return Err(e),
        }
        Ok(true)
    } else {
        Ok(false)
    }
}

/// Refutes one move of a position of `table` that is still unknown: the move
/// leads to a win (by `ct`) of the opponent. When it was its last move, the
/// position becomes a loss by `ct` in `plies` plies and the result is true;
/// otherwise its counter drops by one. A decided position is left as it is.
/// The caller then queues the predecessors of a new loss as wins.
pub fn propagate_win_to_loss(solver: &mut RetrogradeSolver, table: &EgtHandle, idx: u64, plies: u16, ct: ConversionType) -> (r: Result<bool, EgtError>)
    requires
        old(solver).wf(),
        old(solver).handle_ok(*table),
        idx < old(solver).table_size(*table),
    ensures
        final(solver).wf(),
        final(solver).files@.len() == old(solver).files@.len(),
        final(solver).handle_ok(*table),
        final(solver).table_size(*table) == old(solver).table_size(*table),
        forall|f: int| 0 <= f < final(solver).files@.len() && f != table.file_idx ==> #[trigger] final(solver).files@[f]
            == old(solver).files@[f],
        old(solver).files@[table.file_idx as int].in_memory_at(global_index(old(solver).files@, *table, idx as int)) ==> r is Ok,
        final(solver).files@[table.file_idx as int].keeps_in_memory(&old(solver).files@[table.file_idx as int]),
        r matches Ok(true) ==> is_unknown_value(stored_at(old(solver).files@, *table, idx as int)) && payload(
            stored_at(old(solver).files@, *table, idx as int).0,
        ) == 1 && status(stored_at(final(solver).files@, *table, idx as int).0) == loss_status(ct) && payload(
            stored_at(final(solver).files@, *table, idx as int).0,
        ) == plies % 8192,
        r matches Ok(false) ==> (!is_unknown_value(stored_at(old(solver).files@, *table, idx as int))
            && final(solver).files@[table.file_idx as int].same_data(&old(solver).files@[table.file_idx as int])) || (
        is_unknown_value(stored_at(old(solver).files@, *table, idx as int)) && payload(
            stored_at(old(solver).files@, *table, idx as int).0,
        ) > 1 && is_unknown_value(stored_at(final(solver).files@, *table, idx as int)) && payload(
            stored_at(final(solver).files@, *table, idx as int).0,
        ) == payload(stored_at(old(solver).files@, *table, idx as int).0) - 1),
{
    let ghost before = solver.files@;
    let v = match solver.read_outcome(table, idx) {
        Ok(v) => v,
        Err(e) => return Err(e),
    };
    let ghost mid = solver.files@;
    proof {
        lemma_stored_same(before, mid, *table, idx as int);
        let g = global_index(before, *table, idx as int);
        lemma_global_in_range(before, *table, idx as int);
        if before[table.file_idx as int].in_memory_at(g) {
            lemma_in_memory_kept(before[table.file_idx as int], mid[table.file_idx as int], g);
        }
    }
    if v.is_unknown() {
        let counter = v.get_unknown_counter();
        if counter == 1 {
            let l = MaybeDtcOutcome::new_loss(ct, plies);
            match solver.write_outcome(table, idx, l) {
                Ok(()) => {},
                Err(e) => return Err(e),
            }
            Ok(true)
        } else {
            let u = MaybeDtcOutcome::new_unknown(counter - 1);
            match solver.write_outcome(table, idx, u) {
                Ok(()) => {},
                Err(e) => return Err(e),
            }
            proof {
                assert(counter < 8192) by {
                    assert(payload(v.0) == v.0 / 8);
                }
            }
            Ok(false)
        }
    } else {
        Ok(false)
    }
}

/// The value a position keeps when the remaining unknown positions become draws.
pub open spec fn settled(v: MaybeDtcOutcome) -> MaybeDtcOutcome {
    if is_unknown_value(v) {
        MaybeDtcOutcome(1)
    } else {
        v
    }
}

/// Only the positions still unknown (status 0 with a move counter left)
/// become draws when the analysis ends: a decided position (draw, win or
/// loss) and an invalid one keep their stored value.
pub proof fn lemma_settled(v: MaybeDtcOutcome)
    ensures
        v.0 % 8 == 0 && v.0 / 8 != 0 ==> settled(v) == MaybeDtcOutcome(1),
        !(v.0 % 8 == 0 && v.0 / 8 != 0) ==> settled(v) == v,
{
}

/// Marks the positions of `table` that are still unknown as draws; the
/// others keep their value.
pub fn mark_remaining_draws(solver: &mut RetrogradeSolver, table: &EgtHandle) -> (r: Result<(), EgtError>)
    requires
        old(solver).wf(),
        old(solver).handle_ok(*table),
    ensures
        final(solver).wf(),
        final(solver).files@.len() == old(solver).files@.len(),
        final(solver).handle_ok(*table),
        final(solver).table_size(*table) == old(solver).table_size(*table),
        forall|f: int| 0 <= f < final(solver).files@.len() && f != table.file_idx ==> #[trigger] final(solver).files@[f]
            == old(solver).files@[f],
        r is Ok ==> forall|l: int| 0 <= l < old(solver).table_size(*table) ==> #[trigger] stored_at(final(solver).files@, *table, l)
            == settled(stored_at(old(solver).files@, *table, l)),
        r is Ok ==> forall|l: int|
            0 <= l < old(solver).table_size(*table) && !(stored_at(old(solver).files@, *table, l).0 % 8 == 0 && stored_at(
                old(solver).files@,
                *table,
                l,
            ).0 / 8 != 0) ==> #[trigger] stored_at(final(solver).files@, *table, l) == stored_at(old(solver).files@, *table, l),
        (forall|l: int| 0 <= l < old(solver).table_size(*table) ==> #[trigger] old(solver).files@[table.file_idx as int].in_memory_at(
            global_index(old(solver).files@, *table, l),
        )) ==> r is Ok,
        final(solver).files@[table.file_idx as int].keeps_in_memory(&old(solver).files@[table.file_idx as int]),
{
    let ghost orig = solver.files@;
    let ghost all_open = forall|l: int| 0 <= l < old(solver).table_size(*table) ==> #[trigger] old(solver).files@[table.file_idx as int].in_memory_at(
        global_index(old(solver).files@, *table, l),
    );
    let fi = table.file_idx;
    let size = solver.files[fi].egts[table.egt_idx].indexer.index_range;
    let mut idx: u64 = 0;
    while idx < size
        invariant
            0 <= idx <= size,
            solver.wf(),
            orig == old(solver).files@,
            solver.files@.len() == orig.len(),
            fi == table.file_idx,
            solver.handle_ok(*table),
            size == solver.table_size(*table),
            forall|f: int| 0 <= f < solver.files@.len() && f != fi ==> #[trigger] solver.files@[f] == orig[f],
            solver.files@[fi as int].frame_size == orig[fi as int].frame_size,
            solver.files@[fi as int].index_range == orig[fi as int].index_range,
            solver.files@[fi as int].egts@.len() == orig[fi as int].egts@.len(),
            forall|e: int| 0 <= e < orig[fi as int].egts@.len() ==> (#[trigger] solver.files@[fi as int].egts@[e]).indexer
                == orig[fi as int].egts@[e].indexer,
            size == orig[fi as int].egts@[table.egt_idx as int].indexer.index_range,
            forall|l: int| 0 <= l < size ==> #[trigger] stored_at(solver.files@, *table, l) == (if l < idx {
                settled(stored_at(orig, *table, l))
            } else {
                stored_at(orig, *table, l)
            }),
            solver.files@[fi as int].keeps_in_memory(&orig[fi as int]),
            orig[fi as int].wf(),
            all_open == (forall|l: int| 0 <= l < size ==> #[trigger] orig[fi as int].in_memory_at(global_index(orig, *table, l))),
        decreases size - idx,
    {
        let ghost cur = solver.files@;
        proof {
            let g = global_index(orig, *table, idx as int);
            crate::egt_file::lemma_ranges_same(cur[fi as int].egts@, orig[fi as int].egts@, table.egt_idx as int);
            assert(global_index(cur, *table, idx as int) == g);
            lemma_global_in_range(orig, *table, idx as int);
            assert(cur[fi as int].wf());
            if all_open {
                assert(orig[fi as int].in_memory_at(g));
                lemma_in_memory_kept(orig[fi as int], cur[fi as int], g);
            }
        }
        let v = match solver.read_outcome(table, idx) {
            Ok(v) => v,
            Err(e) => return Err(e),
        };
        let ghost mid = solver.files@;
        proof {
            assert forall|l: int| 0 <= l < size implies #[trigger] stored_at(mid, *table, l) == stored_at(cur, *table, l) by {
                lemma_stored_same(cur, mid, *table, l);
            }
            lemma_keeps_in_memory_trans(orig[fi as int], cur[fi as int], mid[fi as int]);
            let g = global_index(orig, *table, idx as int);
            crate::egt_file::lemma_ranges_same(mid[fi as int].egts@, orig[fi as int].egts@, table.egt_idx as int);
            assert(global_index(mid, *table, idx as int) == g);
            if all_open {
                lemma_in_memory_kept(cur[fi as int], mid[fi as int], g);
            }
        }
        if v.is_unknown() {
            match solver.write_outcome(table, idx, MaybeDtcOutcome::draw()) {
                Ok(()) => {},
                Err(e) => return Err(e),
            }
            proof {
                lemma_keeps_in_memory_trans(orig[fi as int], mid[fi as int], solver.files@[fi as int]);
                let file_before = mid[fi as int];
                let n = file_before.frame_size as int;
                let g = global_index(mid, *table, idx as int);
                assert forall|l: int| 0 <= l < size implies #[trigger] stored_at(solver.files@, *table, l) == (if l < idx + 1 {
                    settled(stored_at(orig, *table, l))
                } else {
                    stored_at(orig, *table, l)
                }) by {
                    crate::egt_file::lemma_ranges_same(solver.files@[fi as int].egts@, mid[fi as int].egts@, table.egt_idx as int);
                    let gl = global_index(mid, *table, l);
                    assert(global_index(solver.files@, *table, l) == gl);
                    assert(stored_at(mid, *table, l) == stored_at(cur, *table, l));
                    assert(mid[fi as int].wf());
                    crate::egt_file::lemma_ranges_mono(file_before.egts@, table.egt_idx as int + 1, file_before.egts@.len() as int);
                    assert(gl < file_before.index_range);
                    assert(g < file_before.index_range);
                    file_before.lemma_frame_of(gl);
                    file_before.lemma_frame_of(g);
                    if l != idx {
                        lemma_distinct_places(n, g, gl);
                        let after = solver.files@[fi as int];
                        let fg = file_before.frame_of(g);
                        let fl = file_before.frame_of(gl);
                        assert(after.frame_of(gl) == fl);
                        assert(after.offset_of(gl) == file_before.offset_of(gl));
                        if fl != fg {
                            assert(after.contents@[fl] == file_before.contents@[fl]);
                        } else {
                            assert(after.contents@[fl] == file_before.contents@[fg].update(file_before.offset_of(g), MaybeDtcOutcome(1)));
                        }
                        assert(after.stored(gl) == file_before.stored(gl));
                    } else {
                        assert(stored_at(cur, *table, l) == stored_at(orig, *table, l));
                    }
                }
            }
        }
        idx += 1;
    }
    proof {
        assert forall|l: int|
            0 <= l < size && !(stored_at(orig, *table, l).0 % 8 == 0 && stored_at(orig, *table, l).0 / 8 != 0) implies #[trigger] stored_at(
            solver.files@,
            *table,
            l,
        ) == stored_at(orig, *table, l) by {
            lemma_settled(stored_at(orig, *table, l));
        }
    }
    Ok(())
}

/// The first stored value of a position of a table: invalid for an index
/// that stands for no legal position, a loss by checkmate in 0 plies for a
/// checkmated position, a draw for a stalemate, and otherwise unknown with
/// its move counter.
pub fn initial_outcome(valid: bool, n_legal_moves: usize, in_check: bool, counter: u16) -> (r: MaybeDtcOutcome)
    ensures
        !valid ==> r.0 == 0,
        valid && n_legal_moves == 0 && in_check ==> status(r.0) == loss_status(ConversionType::Checkmate) && payload(r.0) == 0,
        valid && n_legal_moves == 0 && !in_check ==> r.0 == 1,
        valid && n_legal_moves > 0 ==> status(r.0) == 0 && payload(r.0) == counter % 8192,
{
    if !valid {
        MaybeDtcOutcome::invalid()
    } else if n_legal_moves == 0 {
        if in_check {
            MaybeDtcOutcome::new_loss(ConversionType::Checkmate, 0)
        } else {
            MaybeDtcOutcome::draw()
        }
    } else {
        MaybeDtcOutcome::new_unknown(counter)
    }
}

/// Weight of a move in the counter of a pawnless position: a quiet move from
/// a position standing for 8 positions to one with both kings on the diagonal
/// (standing for 4) counts twice, as its reflection leads to the other
/// representative.
pub open spec fn move_weight(current_on_diagonal: bool, m: (bool, bool)) -> nat {
    if m.0 {
        1
    } else if !current_on_diagonal && m.1 {
        2
    } else {
        1
    }
}

/// Sum of the weights of the first `k` moves.
pub open spec fn counter_of(current_on_diagonal: bool, moves: Seq<(bool, bool)>, k: int) -> nat
    decreases k,
{
    if k <= 0 {
        0
    } else {
        counter_of(current_on_diagonal, moves, k - 1) + move_weight(current_on_diagonal, moves[k - 1])
    }
}

/// The move counter of a pawnless position: each legal move, given as
/// (is a capture or promotion, leads to both kings on the diagonal), counts
/// once, except the moves of `move_weight` that count twice.
pub fn symmetry_adjusted_move_counter(current_on_diagonal: bool, moves: &Vec<(bool, bool)>) -> (r: u16)
    requires
        moves@.len() <= 16000,
    ensures
        r == counter_of(current_on_diagonal, moves@, moves@.len() as int),
{
    let mut counter: u16 = 0;
    let mut i: usize = 0;
    while i < moves.len()
        invariant
            0 <= i <= moves@.len() <= 16000,
            counter == counter_of(current_on_diagonal, moves@, i as int),
            counter <= 2 * i,
        decreases moves.len() - i,
    {
        let (conversion, to_diagonal) = moves[i];
        if conversion {
            counter += 1;
        } else if !current_on_diagonal && to_diagonal {
            counter += 2;
        } else {
            counter += 1;
        }
        i += 1;
    }
    counter
}

/// A square holding a king.
pub open spec fn is_king(o: Option<Piece>) -> bool {
    match o {
        Some(p) => p.role == Role::King,
        None => false,
    }
}

/// The rank and file of every king of the position satisfy `pred`.
pub open spec fn kings_all(squares: Seq<Option<Piece>>, pred: spec_fn(int, int) -> bool) -> bool {
    forall|s: int| 0 <= s < 64 && is_king(#[trigger] squares[s]) ==> pred(s / 8, s % 8)
}

/// Both kings stand on the a1-h8 diagonal, or both on the h1-a8 diagonal
/// (which becomes the first after reflecting the board).
pub open spec fn kings_on_long_diagonal(squares: Seq<Option<Piece>>) -> bool {
    kings_all(squares, |r: int, f: int| r == f) || kings_all(squares, |r: int, f: int| r + f == 7)
}

/// Whether both kings stand on one long diagonal.
pub fn both_kings_on_diagonal(position: &BoardPosition) -> (r: bool)
    requires
        position.wf(),
    ensures
        r == kings_on_long_diagonal(position.squares@),
{
    let mut main = true;
    let mut anti = true;
    let mut s: usize = 0;
    while s < 64
        invariant
            0 <= s <= 64,
            position.wf(),
            main == (forall|t: int| 0 <= t < s && is_king(#[trigger] position.squares@[t]) ==> t / 8 == t % 8),
            anti == (forall|t: int| 0 <= t < s && is_king(#[trigger] position.squares@[t]) ==> t / 8 + t % 8 == 7),
        decreases 64 - s,
    {
        match position.squares[s] {
            Some(p) => {
                if p.role == Role::King {
                    if s / 8 != s % 8 {
                        main = false;
                    }
                    if s / 8 + s % 8 != 7 {
                        anti = false;
                    }
                }
            },
            None => {},
        }
        s += 1;
    }
    main || anti
}

/// Queues a position with a capture or promotion into a table already
/// solved: a win when the position reached is lost for the opponent, a
/// refuted move when it is won; a draw queues nothing.
pub fn record_conversion(queues: &mut DepthQueues, idx: u64, is_capture: bool, dep_outcome: MaybeDtcOutcome)
    ensures
        ({
            let ct = if is_capture { ConversionType::Capture } else { ConversionType::Promotion };
            let lost = status(dep_outcome.0) != 1 && status(dep_outcome.0) % 2 == 1;
            let won = status(dep_outcome.0) != 0 && status(dep_outcome.0) % 2 == 0;
            &&& final(queues).win_checkmate@ == old(queues).win_checkmate@
            &&& final(queues).loss_checkmate@ == old(queues).loss_checkmate@
            &&& final(queues).win_capture@ == (if lost && ct is Capture { old(queues).win_capture@.push(idx) } else { old(queues).win_capture@ })
            &&& final(queues).win_promotion@ == (if lost && ct is Promotion { old(queues).win_promotion@.push(idx) } else { old(queues).win_promotion@ })
            &&& final(queues).loss_capture@ == (if won && ct is Capture { old(queues).loss_capture@.push(idx) } else { old(queues).loss_capture@ })
            &&& final(queues).loss_promotion@ == (if won && ct is Promotion { old(queues).loss_promotion@.push(idx) } else { old(queues).loss_promotion@ })
        }),
{
    let ct = if is_capture { ConversionType::Capture } else { ConversionType::Promotion };
    if dep_outcome.is_loss() {
        queues.push_win(idx, ct);
    } else if dep_outcome.is_win() {
        queues.push_loss(idx, ct);
    }
}

/// Number of pawns of `side` on file `f` in the first `k` entries.
pub open spec fn entry_pawns(pieces: Seq<PieceEntry>, side: EgtSide, f: nat, k: int) -> nat
    decreases k,
{
    if k <= 0 {
        0
    } else {
        entry_pawns(pieces, side, f, k - 1) + (if pieces[k - 1].0 is Pawn && role_index(pieces[k - 1].0) == f
            && pieces[k - 1].1 == side {
            pieces[k - 1].2 as nat
        } else {
            0nat
        })
    }
}

/// The files of the pawns of `side`, by increasing file, for files below `g`.
pub open spec fn side_pawn_files(pieces: Seq<PieceEntry>, side: EgtSide, g: nat) -> Seq<File>
    decreases g,
{
    if g == 0 {
        Seq::empty()
    } else {
        side_pawn_files(pieces, side, (g - 1) as nat) + repeat_file(
            file_of((g - 1) as nat),
            entry_pawns(pieces, side, (g - 1) as nat, pieces.len() as int),
        )
    }
}

/// The files of the pawns of each side, by increasing file.
pub fn get_pawn_files(pieces: &Vec<PieceEntry>) -> (r: (Vec<File>, Vec<File>))
    requires
        crate::indexer::pieces_total(pieces@, pieces@.len() as int) <= usize::MAX,
    ensures
        r.0@ == side_pawn_files(pieces@, EgtSide::SideToMove, 8),
        r.1@ == side_pawn_files(pieces@, EgtSide::SideNotToMove, 8),
        r.0@.len() + r.1@.len() <= crate::indexer::pieces_total(pieces@, pieces@.len() as int),
{
    let stm = side_files(pieces, EgtSide::SideToMove);
    let sntm = side_files(pieces, EgtSide::SideNotToMove);
    proof {
        lemma_side_files_total(pieces@, 8);
    }
    (stm, sntm)
}

pub(crate) proof fn lemma_repeat_len(x: File, n: nat)
    ensures
        repeat_file(x, n).len() == n,
    decreases n,
{
    if n > 0 {
        lemma_repeat_len(x, (n - 1) as nat);
    }
}

/// Pawn counts of both sides add up to at most the number of pieces.
proof fn lemma_side_files_total(pieces: Seq<PieceEntry>, g: nat)
    requires
        g <= 8,
    ensures
        side_pawn_files(pieces, EgtSide::SideToMove, g).len() + side_pawn_files(pieces, EgtSide::SideNotToMove, g).len()
            <= pawns_below(pieces, g, pieces.len() as int),
        pawns_below(pieces, g, pieces.len() as int) <= crate::indexer::pieces_total(pieces, pieces.len() as int),
    decreases g,
{
    lemma_pawns_below_total(pieces, g, pieces.len() as int);
    if g > 0 {
        lemma_side_files_total(pieces, (g - 1) as nat);
        let f = (g - 1) as nat;
        lemma_repeat_len(file_of(f), entry_pawns(pieces, EgtSide::SideToMove, f, pieces.len() as int));
        lemma_repeat_len(file_of(f), entry_pawns(pieces, EgtSide::SideNotToMove, f, pieces.len() as int));
        lemma_pawns_split(pieces, f, pieces.len() as int);
    }
}

/// Pawns (of both sides) on files below `g` in the first `k` entries.
pub open spec fn pawns_below(pieces: Seq<PieceEntry>, g: nat, k: int) -> nat
    decreases k,
{
    if k <= 0 {
        0
    } else {
        pawns_below(pieces, g, k - 1) + (if pieces[k - 1].0 is Pawn && role_index(pieces[k - 1].0) < g {
            pieces[k - 1].2 as nat
        } else {
            0nat
        })
    }
}

proof fn lemma_pawns_split(pieces: Seq<PieceEntry>, f: nat, k: int)
    requires
        0 <= k <= pieces.len(),
    ensures
        pawns_below(pieces, f + 1, k) == pawns_below(pieces, f, k) + entry_pawns(pieces, EgtSide::SideToMove, f, k)
            + entry_pawns(pieces, EgtSide::SideNotToMove, f, k),
    decreases k,
{
    if k > 0 {
        lemma_pawns_split(pieces, f, k - 1);
    }
}

proof fn lemma_pawns_below_total(pieces: Seq<PieceEntry>, g: nat, k: int)
    requires
        0 <= k <= pieces.len(),
    ensures
        pawns_below(pieces, g, k) <= crate::indexer::pieces_total(pieces, k),
    decreases k,
{
    if k > 0 {
        lemma_pawns_below_total(pieces, g, k - 1);
    }
}

fn side_files(pieces: &Vec<PieceEntry>, side: EgtSide) -> (r: Vec<File>)
    requires
        crate::indexer::pieces_total(pieces@, pieces@.len() as int) <= usize::MAX,
    ensures
        r@ == side_pawn_files(pieces@, side, 8),
{
    let mut out: Vec<File> = Vec::new();
    let mut g: usize = 0;
    while g < 8
        invariant
            0 <= g <= 8,
            crate::indexer::pieces_total(pieces@, pieces@.len() as int) <= usize::MAX,
            out@ == side_pawn_files(pieces@, side, g as nat),
            out@.len() <= pawns_below(pieces@, g as nat, pieces@.len() as int),
        decreases 8 - g,
    {
        let x = File::new(g);
        proof {
            assert(file_of(g as nat) == x);
        }
        // Pawns of this side on file g.
        let mut count: usize = 0;
        let mut e: usize = 0;
        while e < pieces.len()
            invariant
                0 <= e <= pieces@.len(),
                g < 8,
                count == entry_pawns(pieces@, side, g as nat, e as int),
                count <= crate::indexer::pieces_total(pieces@, e as int),
                crate::indexer::pieces_total(pieces@, pieces@.len() as int) <= usize::MAX,
            decreases pieces.len() - e,
        {
            proof {
                crate::indexer::lemma_pieces_total_mono(pieces@, e as int + 1, pieces@.len() as int);
            }
            let (role, sd, m) = pieces[e];
            let matches = match role {
                EgtRole::Pawn(f) => f.to_usize() == g && sd == side,
                _ => false,
            };
            if matches {
                count = count + m;
            }
            e += 1;
        }
        let ghost start = out@;
        let mut t: usize = 0;
        while t < count
            invariant
                0 <= t <= count,
                out@ == start + repeat_file(x, t as nat),
            decreases count - t,
        {
            out.push(x);
            t += 1;
            assert(out@ =~= start + repeat_file(x, t as nat));
        }
        proof {
            lemma_repeat_len(x, count as nat);
            lemma_pawns_split(pieces@, g as nat, pieces@.len() as int);
        }
        g += 1;
    }
    out
}

/// Whether the pawns of the twin table are the mirror image of those of the
/// table with the sides swapped (the predecessors of its positions are then
/// reflected before being encoded).
pub fn twin_is_mirrored(stm_a: &Vec<File>, sntm_a: &Vec<File>, stm_b: &Vec<File>, sntm_b: &Vec<File>) -> (r: bool)
    ensures
        r == (stm_b@ != sntm_a@ || sntm_b@ != stm_a@),
{
    !files_eq(stm_b, sntm_a) || !files_eq(sntm_b, stm_a)
}

fn files_eq(a: &Vec<File>, b: &Vec<File>) -> (r: bool)
    ensures
        r == (a@ == b@),
{
    if a.len() != b.len() {
        return false;
    }
    let mut i: usize = 0;
    while i < a.len()
        invariant
            0 <= i <= a@.len() == b@.len(),
            forall|k: int| 0 <= k < i ==> a@[k] == b@[k],
        decreases a.len() - i,
    {
        if a[i] != b[i] {
            return false;
        }
        i += 1;
    }
    assert(a@ =~= b@);
    true
}

/// The name of the twin endgame, with the sides swapped (`KQ_KR` gives
/// `KR_KQ`). Fails unless the name has exactly one `_` and is ASCII.
pub fn twin_endgame(endgame: &str) -> (r: Result<String, EgtError>)
    ensures
        ({
            let b = endgame.spec_bytes();
            let u = crate::tables::underscore_pos(b);
            let ok = u < b.len() && all_ascii(b) && crate::tables::count_byte(b, 95u8) == 1;
            &&& r is Ok <==> ok
            &&& r matches Ok(s) ==> s@ == ascii_chars(b.subrange(u + 1, b.len() as int) + seq![95u8] + b.subrange(0, u))
        }),
{
    let b = endgame.as_bytes();
    let n = b.len();
    proof {
        crate::tables::lemma_underscore_pos(b@);
    }
    let mut u: usize = 0;
    while u < n && b[u] != 95u8
        invariant
            0 <= u <= n == b@.len(),
            forall|j: int| 0 <= j < u ==> b@[j] != 95u8,
        decreases n - u,
    {
        u += 1;
    }
    assert(u == crate::tables::underscore_pos(b@)) by {
        if u < crate::tables::underscore_pos(b@) {
            assert(b@[u as int] != 95u8);
        }
    }
    let underscores = crate::tables::count_in(b, 0, n, 95u8);
    assert(b@.subrange(0, n as int) =~= b@);
    let mut ascii = true;
    let mut i: usize = 0;
    while i < n
        invariant
            0 <= i <= n == b@.len(),
            ascii == (forall|j: int| 0 <= j < i ==> b@[j] < 128),
        decreases n - i,
    {
        if b[i] >= 128 {
            ascii = false;
        }
        i += 1;
    }
    if underscores != 1 || !ascii || u == n {
        return Err(EgtError::InvalidEndgameName { name: endgame.to_owned(), reason: "expected one '_' separator" });
    }
    let mut out: Vec<u8> = Vec::new();
    let mut k: usize = u + 1;
    while k < n
        invariant
            u < n == b@.len(),
            u + 1 <= k <= n,
            out@ == b@.subrange(u + 1, k as int),
        decreases n - k,
    {
        out.push(b[k]);
        k += 1;
        assert(out@ =~= b@.subrange(u + 1, k as int));
    }
    out.push(95u8);
    let mut k: usize = 0;
    while k < u
        invariant
            u < n == b@.len(),
            0 <= k <= u,
            out@ == b@.subrange(u + 1, n as int) + seq![95u8] + b@.subrange(0, k as int),
        decreases u - k,
    {
        out.push(b[k]);
        k += 1;
        assert(out@ =~= b@.subrange(u + 1, n as int) + seq![95u8] + b@.subrange(0, k as int));
    }
    proof {
        assert forall|j: int| 0 <= j < out@.len() implies out@[j] < 128 by {
            if j < n - u - 1 {
                assert(out@[j] == b@[u + 1 + j]);
            } else if j > n - u - 1 {
                assert(out@[j] == b@[j - (n - u)]);
            }
        }
    }
    Ok(string_from_ascii(out))
}

/// The pawn files of the twin of a table whose sides have the pawns on
/// `stm` and `sntm`: the sides swapped, reflected when that is not canonical.
pub open spec fn twin_files(stm: Seq<File>, sntm: Seq<File>) -> (Seq<File>, Seq<File>) {
    if canonical(sntm, stm) {
        (sntm, stm)
    } else {
        (reflected(sntm), reflected(stm))
    }
}

/// The key of the twin of a table with the entries `pieces`.
pub open spec fn twin_key_of(pieces: Seq<PieceEntry>) -> Seq<u8> {
    let tw = twin_files(side_pawn_files(pieces, EgtSide::SideToMove, 8), side_pawn_files(pieces, EgtSide::SideNotToMove, 8));
    key_of(tw.0, tw.1)
}

/// No table of `file` has the key of the twin of a table with the entries `pieces`.
pub open spec fn twin_missing(file: EgtFile, pieces: Seq<PieceEntry>) -> bool {
    forall|y: int| 0 <= y < file.egt_keys@.len() ==> #[trigger] file.egt_keys@[y].files@ != twin_key_of(pieces)
}

/// Table `x` of the first file has its pair listed in `pairs`, or the file
/// is that of a symmetric endgame and the twin of `x` comes before it.
pub open spec fn listed_or_after_twin(file: EgtFile, symmetric: bool, pairs: Seq<(EgtHandle, EgtHandle)>, x: int) -> bool {
    ||| exists|k: int| 0 <= k < pairs.len() && (#[trigger] pairs[k]).0.egt_idx == x
    ||| symmetric && exists|y: int| 0 <= y < x && #[trigger] file.egt_keys@[y].files@ == twin_key_of(file.egts@[x].pieces@)
}

/// Pairs each table of the first file with its twin (the table of the same
/// pieces with the sides swapped), in the second file or, for a symmetric
/// endgame, in the first (each pair listed once). Fails when a twin is
/// missing.
pub fn pair_tables(solver: &RetrogradeSolver) -> (r: Result<Vec<(EgtHandle, EgtHandle)>, EgtError>)
    requires
        solver.wf(),
        solver.files@.len() == (if solver.is_symmetric { 1int } else { 2int }),
    ensures
        r matches Ok(pairs) ==> forall|k: int| 0 <= k < pairs@.len() ==> {
            let (a, b) = #[trigger] pairs@[k];
            &&& a.file_idx == 0
            &&& solver.handle_ok(a)
            &&& solver.handle_ok(b)
            &&& b.file_idx == (if solver.is_symmetric { 0usize } else { 1usize })
            &&& solver.is_symmetric ==> a.egt_idx <= b.egt_idx
            &&& ({
                let pieces = solver.files@[0].egts@[a.egt_idx as int].pieces@;
                let tw = twin_files(side_pawn_files(pieces, EgtSide::SideToMove, 8), side_pawn_files(pieces, EgtSide::SideNotToMove, 8));
                solver.files@[b.file_idx as int].egt_keys@[b.egt_idx as int].files@ == key_of(tw.0, tw.1)
            })
        },
        r matches Ok(pairs) ==> forall|x: int| 0 <= x < solver.files@[0].egts@.len() ==> #[trigger] listed_or_after_twin(
            solver.files@[0],
            solver.is_symmetric,
            pairs@,
            x,
        ),
        r is Err ==> exists|x: int| 0 <= x < solver.files@[0].egts@.len() && twin_missing(
            solver.files@[if solver.is_symmetric { 0int } else { 1int }],
            (#[trigger] solver.files@[0].egts@[x]).pieces@,
        ),
{
    let mut pairs: Vec<(EgtHandle, EgtHandle)> = Vec::new();
    let twin_file: usize = if solver.is_symmetric { 0 } else { 1 };
    let n = solver.files[0].egts.len();
    let mut a: usize = 0;
    while a < n
        invariant
            0 <= a <= n == solver.files@[0].egts@.len(),
            solver.wf(),
            solver.files@.len() == (if solver.is_symmetric { 1int } else { 2int }),
            twin_file == (if solver.is_symmetric { 0usize } else { 1usize }),
            forall|k: int| 0 <= k < pairs@.len() ==> {
                let (x, y) = #[trigger] pairs@[k];
                &&& x.file_idx == 0
                &&& solver.handle_ok(x)
                &&& solver.handle_ok(y)
                &&& y.file_idx == twin_file
                &&& solver.is_symmetric ==> x.egt_idx <= y.egt_idx
                &&& ({
                    let pieces = solver.files@[0].egts@[x.egt_idx as int].pieces@;
                    let tw = twin_files(side_pawn_files(pieces, EgtSide::SideToMove, 8), side_pawn_files(pieces, EgtSide::SideNotToMove, 8));
                    solver.files@[y.file_idx as int].egt_keys@[y.egt_idx as int].files@ == key_of(tw.0, tw.1)
                })
            },
            forall|x: int| 0 <= x < a ==> #[trigger] listed_or_after_twin(solver.files@[0], solver.is_symmetric, pairs@, x),
        decreases n - a,
    {
        let egt_a = &solver.files[0].egts[a];
        proof {
            assert(solver.files@[0].wf());
            assert(egt_a.wf());
            crate::egt::lemma_egt_pieces_total(egt_a);
        }
        let (stm_files, sntm_files) = get_pawn_files(&egt_a.pieces);
        let (twin_stm, twin_sntm) = if is_canonical(&sntm_files, &stm_files) {
            (sntm_files, stm_files)
        } else {
            (reflect_files(&sntm_files), reflect_files(&stm_files))
        };
        proof {
            crate::pawn_files::lemma_reflected_len(stm_files@);
            crate::pawn_files::lemma_reflected_len(sntm_files@);
        }
        if twin_stm.len() > 8 || twin_sntm.len() > 8 - twin_stm.len() {
            return Err(EgtError::Internal("too many pawns"));
        }
        let key = PawnKey::new(&twin_stm, &twin_sntm);
        let b = match solver.files[twin_file].egt_index(&key) {
            Some(b) => b,
            None => {
                proof {
                    assert(key.files@ == twin_key_of(solver.files@[0].egts@[a as int].pieces@));
                    assert(twin_missing(solver.files@[twin_file as int], solver.files@[0].egts@[a as int].pieces@));
                }
                return Err(EgtError::Internal("missing twin table"));
            },
        };
        proof {
            assert(solver.files@[twin_file as int].wf());
        }
        if solver.is_symmetric && a > b {
            proof {
                assert(solver.files@[0].egt_keys@[b as int].files@ == twin_key_of(solver.files@[0].egts@[a as int].pieces@));
                assert(listed_or_after_twin(solver.files@[0], solver.is_symmetric, pairs@, a as int));
            }
            a += 1;
            continue;
        }
        let table_a = EgtHandle { name: egt_a.tablename.clone(), file_idx: 0, egt_idx: a };
        let table_b = EgtHandle { name: solver.files[twin_file].egts[b].tablename.clone(), file_idx: twin_file, egt_idx: b };
        let ghost old_pairs = pairs@;
        pairs.push((table_a, table_b));
        proof {
            assert forall|x: int| 0 <= x < a + 1 implies #[trigger] listed_or_after_twin(solver.files@[0], solver.is_symmetric, pairs@, x) by {
                if x == a {
                    assert(pairs@[old_pairs.len() as int].0.egt_idx == x);
                } else {
                    assert(listed_or_after_twin(solver.files@[0], solver.is_symmetric, old_pairs, x));
                    if exists|k: int| 0 <= k < old_pairs.len() && (#[trigger] old_pairs[k]).0.egt_idx == x {
                        let k = choose|k: int| 0 <= k < old_pairs.len() && (#[trigger] old_pairs[k]).0.egt_idx == x;
                        assert(pairs@[k] == old_pairs[k]);
                    }
                }
            }
        }
        a += 1;
    }
    Ok(pairs)
}

} // verus!
