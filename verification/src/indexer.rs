//! Conversion between positions of an endgame and compact table indexes.
//!
//! A table is described by its set of pieces: each element gives a role (pawns
//! with their file), a side and a multiplicity. A position is encoded by:
//! - reducing pawnless positions by the symmetries of the board,
//! - numbering the squares of each piece among the squares left free by the
//!   pieces before it (compaction),
//! - numbering the two kings of pawnless positions together (462 canonical pairs),
//! - numbering each group of identical pieces as a subset (combinatorial number system),
//! - combining the numbers of all groups in mixed radix.
//!
//! Positions where en passant is possible are numbered in separate index
//! ranges, one per file on which a pawn of the side not to move can be taken.

use vstd::prelude::*;
use crate::combinatorics::{npow, binom, is_binomial_table, initialize_nchoosek, binom_at, MAX_PIECES};
use crate::kings::{is_kings_map, initialize_kings_map};
use crate::piece_set::{EgtRole, EgtSide, role_index, side_index};
use crate::error::EgtError;

verus! {

/// An element of the set of pieces appearing in an endgame.
#[derive(Clone, Copy, Debug, PartialEq, Eq)]
pub struct PieceSetElement {
    /// The piece role appearing in the endgame position.
    pub role: EgtRole,
    /// Whether the piece is for the side-to-move or the side-not-to-move.
    pub side: EgtSide,
    /// How many instances of this piece appear in the endgame.
    pub multiplicity: u64,
    /// The number of squares that these pieces can occupy.
    pub n_squares: u64,
    /// The number of ways to put the pieces on the available squares.
    pub combinations: u64,
    /// The indexes (begin, end) where information about these pieces is
    /// stored in the buffers; `end - begin` exceeds the multiplicity by one
    /// for the pawns of which one can be taken en passant (that pawn is not
    /// encoded).
    pub span: (usize, usize),
}

/// One option for the en passant status of positions, with the range of
/// indexes of the positions that have it.
#[derive(Clone, Copy, Debug, PartialEq, Eq)]
pub struct EnpassantOption {
    /// The square (on the fifth rank) of the pawn that can be taken en passant, or None.
    pub square: Option<u64>,
    /// The element of the pawns (side not to move) on the file of that pawn.
    pub pawn_idx_sntm: Option<usize>,
    /// The element of the pawns (side to move) on the file of that pawn.
    pub pawn_idx_stm: Option<usize>,
    /// Start of the range of indexes of positions with this status.
    pub range_start: u64,
    /// End of the range of indexes of positions with this status.
    pub range_end: u64,
}

/// Number of pieces in the elements before `e`.
pub open spec fn mult_before(ps: Seq<PieceSetElement>, e: int) -> int
    decreases e,
{
    if e <= 0 {
        0
    } else {
        mult_before(ps, e - 1) + ps[e - 1].multiplicity
    }
}

/// Number of pawns on the file of the pawn element `e` in the elements before it.
pub open spec fn file_mult_before(ps: Seq<PieceSetElement>, e: int, file: nat) -> int
    decreases e,
{
    if e <= 0 {
        0
    } else {
        file_mult_before(ps, e - 1, file) + (if ps[e - 1].role is Pawn && role_index(ps[e - 1].role) == file {
            ps[e - 1].multiplicity as int
        } else {
            0
        })
    }
}

/// No element is a pawn.
pub open spec fn pawnless(ps: Seq<PieceSetElement>) -> bool {
    forall|e: int| 0 <= e < ps.len() ==> !(#[trigger] ps[e].role is Pawn)
}

/// The squares, combinations and span of element `e` as laid out by
/// `compute_piece_squares` (before the special numbering of two kings).
pub open spec fn laid_out(ps: Seq<PieceSetElement>, e: int) -> bool {
    let p = ps[e];
    let start = mult_before(ps, e);
    &&& p.n_squares == (if p.role is Pawn {
        6 - file_mult_before(ps, e, role_index(p.role))
    } else {
        64 - start
    })
    &&& p.span.0 == start
    &&& p.span.1 == start + p.multiplicity
    &&& p.combinations == binom(p.n_squares as nat, p.multiplicity as nat)
    &&& p.multiplicity <= p.n_squares
}

/// Layout of all elements, with the two kings of pawnless sets numbered
/// together (462 pairs for the first element, 1 for the second).
pub open spec fn is_laid_out(before: Seq<PieceSetElement>, ps: Seq<PieceSetElement>) -> bool {
    &&& ps.len() == before.len()
    &&& forall|e: int|
        0 <= e < ps.len() ==> (#[trigger] ps[e]).role == before[e].role && ps[e].side == before[e].side
            && ps[e].multiplicity == before[e].multiplicity
    &&& if pawnless(ps) {
        &&& ps.len() >= 2
        &&& ps[0].multiplicity == 1 && ps[1].multiplicity == 1
        &&& ps[0].n_squares == 462 && ps[0].combinations == 462 && ps[0].span == (0usize, 1usize)
        &&& ps[1].n_squares == 1 && ps[1].combinations == 1 && ps[1].span == (1usize, 2usize)
        &&& forall|e: int| 2 <= e < ps.len() ==> laid_out(ps, e)
    } else {
        forall|e: int| 0 <= e < ps.len() ==> laid_out(ps, e)
    }
}

proof fn lemma_mult_before_step(ps: Seq<PieceSetElement>, qs: Seq<PieceSetElement>, e: int)
    requires
        0 <= e <= ps.len(),
        ps.len() == qs.len(),
        forall|k: int| 0 <= k < e ==> (#[trigger] qs[k]).multiplicity == ps[k].multiplicity && qs[k].role == ps[k].role,
    ensures
        mult_before(qs, e) == mult_before(ps, e),
        forall|f: nat| file_mult_before(qs, e, f) == file_mult_before(ps, e, f),
    decreases e,
{
    if e > 0 {
        lemma_mult_before_step(ps, qs, e - 1);
        assert forall|f: nat| file_mult_before(qs, e, f) == file_mult_before(ps, e, f) by {
            assert(file_mult_before(qs, e - 1, f) == file_mult_before(ps, e - 1, f));
        }
    }
}

proof fn lemma_file_mult_le(ps: Seq<PieceSetElement>, e: int, f: nat)
    requires
        0 <= e <= ps.len(),
    ensures
        0 <= file_mult_before(ps, e, f) <= mult_before(ps, e),
    decreases e,
{
    if e > 0 {
        lemma_file_mult_le(ps, e - 1, f);
    }
}

/// The number of placements without en passant of a laid out set is at most
/// 462 times 64 to the power of the number of pieces.
proof fn lemma_comb_product_bound(before: Seq<PieceSetElement>, ps: Seq<PieceSetElement>, e: int)
    requires
        is_laid_out(before, ps),
        0 <= e <= ps.len(),
    ensures
        comb_product(ps, e) <= 462 * npow(64, mult_before(ps, e) as nat),
    decreases e,
{
    if e > 0 {
        lemma_comb_product_bound(before, ps, e - 1);
        let p = ps[e - 1];
        let k = p.multiplicity as nat;
        let m0 = mult_before(ps, e - 1) as nat;
        lemma_mult_before_mono(ps, 0, e - 1);
        crate::combinatorics::lemma_npow_add(64, m0, k);
        let prev = comb_product(ps, e - 1);
        let a = npow(64, m0);
        let b = npow(64, k);
        if pawnless(ps) && e - 1 <= 1 {
            if e == 1 {
                assert(npow(64, 1) == 64) by {
                    reveal_with_fuel(npow, 2);
                }
                assert(comb_product(ps, 0) == 1);
                assert(ps[0].combinations == 462);
                assert(comb_product(ps, 1) == 462);
            } else {
                assert(npow(64, 2) == 4096) by {
                    reveal_with_fuel(npow, 3);
                }
                assert(comb_product(ps, 0) == 1);
                assert(ps[0].combinations == 462 && ps[1].combinations == 1);
                assert(comb_product(ps, 1) == 462);
                assert(comb_product(ps, 2) == 462);
            }
        } else {
            assert(laid_out(ps, e - 1));
            let n = p.n_squares as nat;
            if p.role is Pawn {
                lemma_file_mult_le(ps, e - 1, role_index(p.role));
            }
            assert(n <= 64);
            crate::combinatorics::lemma_choose_le_pow(n, k);
            crate::combinatorics::lemma_npow_mono_base(n, 64, k);
            let c = p.combinations as nat;
            assert(prev * c <= 462 * (a * b)) by (nonlinear_arith)
                requires
                    prev <= 462 * a,
                    c <= b,
            ;
        }
    }
}

/// The elements listed by `pieces`, before they are laid out.
pub open spec fn listed_elements(pieces: Seq<(EgtRole, EgtSide, usize)>) -> Seq<PieceSetElement> {
    Seq::new(
        pieces.len(),
        |e: int|
            PieceSetElement {
                role: pieces[e].0,
                side: pieces[e].1,
                multiplicity: pieces[e].2 as u64,
                n_squares: 0,
                combinations: 0,
                span: (0usize, 0usize),
            },
    )
}

/// Element `i` holds pawns of the side not to move, with pawns of the side
/// to move on a neighbouring file: one of them may be taken en passant.
pub open spec fn listed_ep_candidate(ps: Seq<PieceSetElement>, i: int) -> bool {
    &&& 0 <= i < ps.len()
    &&& ps[i].role is Pawn
    &&& ps[i].side == EgtSide::SideNotToMove
    &&& exists|j: int| 0 <= j < ps.len() && (#[trigger] ps[j]).role is Pawn && ps[j].side == EgtSide::SideToMove && adjacent_files(ps, i, j)
}

/// Every element of pawns that may be taken en passant leaves three squares
/// of its file free of the pawns listed before it (for the pawn on the fifth
/// rank and the squares behind it), and so does the element of the other
/// side's pawns on that file listed right before it.
pub open spec fn ep_fit(pieces: Seq<(EgtRole, EgtSide, usize)>) -> bool {
    let ps = listed_elements(pieces);
    forall|i: int| #[trigger] listed_ep_candidate(ps, i) ==> 6 - file_mult_before(ps, i, role_index(ps[i].role)) >= 3 && (ep_stm_index(
        ps,
        i,
    ) matches Some(x) ==> 6 - file_mult_before(ps, x as int, role_index(ps[i].role)) >= 3)
}

/// The number of placements without en passant of a laid out set of at
/// most eight pieces is at most 462 * 2^48.
proof fn lemma_table_size_bound(before: Seq<PieceSetElement>, ps: Seq<PieceSetElement>, e: int)
    requires
        is_laid_out(before, ps),
        0 <= e <= ps.len(),
        mult_before(ps, ps.len() as int) <= MAX_PIECES,
    ensures
        comb_product(ps, e) <= 130041439240323072,
{
    lemma_comb_product_bound(before, ps, e);
    lemma_mult_before_mono(ps, e, ps.len() as int);
    lemma_mult_before_mono(ps, 0, e);
    crate::combinatorics::lemma_npow_mono_exp(64, mult_before(ps, e) as nat, 8);
    crate::combinatorics::lemma_npow_64_8();
}

/// The en passant candidates of a laid out set whose listing fits
/// (`ep_fit`) have room for en passant.
proof fn lemma_ep_rooms(pieces: Seq<(EgtRole, EgtSide, usize)>, listed: Seq<PieceSetElement>, ps: Seq<PieceSetElement>, nup: int)
    requires
        listed == listed_elements(pieces),
        is_laid_out(listed, ps),
        ep_fit(pieces),
        0 <= nup <= ps.len() <= usize::MAX,
        forall|e: int| 0 <= e < ps.len() ==> ((#[trigger] ps[e]).role is Pawn <==> e < nup),
    ensures
        forall|i: int| #[trigger] ep_candidate(ps, nup, i) ==> ep_room(ps, i),
{
    assert forall|i: int| #[trigger] ep_candidate(ps, nup, i) implies ep_room(ps, i) by {
        let j = choose|j: int| 0 <= j < nup && #[trigger] ps[j].side == EgtSide::SideToMove && adjacent_files(ps, i, j);
        assert(ps[i].role is Pawn && ps[j].role is Pawn);
        assert(ps[i].role == listed[i].role && ps[i].side == listed[i].side);
        assert(ps[j].role == listed[j].role && ps[j].side == listed[j].side);
        assert(listed[j].role is Pawn && listed[j].side == EgtSide::SideToMove && adjacent_files(listed, i, j));
        assert(listed_ep_candidate(listed, i));
        assert(!pawnless(ps));
        assert(laid_out(ps, i));
        lemma_mult_before_step(listed, ps, i);
        let f = role_index(ps[i].role);
        assert(file_mult_before(ps, i, f) == file_mult_before(listed, i, f));
        assert(6 - file_mult_before(listed, i, f) >= 3);
        assert(ps[i].n_squares == 6 - file_mult_before(ps, i, f));
        assert(ep_stm_index(ps, i) == ep_stm_index(listed, i));
        if i > 0 && ps[i - 1].role == ps[i].role {
            assert(laid_out(ps, i - 1));
            lemma_mult_before_step(listed, ps, i - 1);
            assert(file_mult_before(ps, i - 1, f) == file_mult_before(listed, i - 1, f));
            assert(6 - file_mult_before(listed, i - 1, f) >= 3);
            assert(ps[i - 1].n_squares == 6 - file_mult_before(ps, i - 1, f));
        }
    }
}

/// The pawns of each file (of both sides) fit in its six squares.
pub open spec fn files_fit(ps: Seq<PieceSetElement>) -> bool {
    forall|f: nat| f < 8 ==> #[trigger] file_mult_before(ps, ps.len() as int, f) <= 6
}

/// A set without pawns starts with two single pieces (the kings).
pub open spec fn kings_first(ps: Seq<PieceSetElement>) -> bool {
    pawnless(ps) ==> ps.len() >= 2 && ps[0].multiplicity == 1 && ps[1].multiplicity == 1
}

/// Counting the pawns of a file over more elements counts at least as many.
proof fn lemma_file_mult_mono(ps: Seq<PieceSetElement>, a: int, b: int, f: nat)
    requires
        0 <= a <= b <= ps.len(),
    ensures
        file_mult_before(ps, a, f) <= file_mult_before(ps, b, f),
    decreases b,
{
    if a < b {
        lemma_file_mult_mono(ps, a, b - 1, f);
    }
}

/// Lays out the elements: squares available to each group, number of
/// combinations and position in the buffers. Returns false (leaving the
/// elements unspecified) when a file holds more than six pawns or a pawnless
/// set does not start with two single kings.
fn compute_piece_squares(piece_set: &mut Vec<PieceSetElement>, binomials: &Vec<Vec<u64>>) -> (ok: bool)
    requires
        is_binomial_table(binomials@),
        mult_before(old(piece_set)@, old(piece_set)@.len() as int) <= MAX_PIECES,
        forall|e: int| 0 <= e < old(piece_set)@.len() ==> (#[trigger] old(piece_set)@[e]).multiplicity <= MAX_PIECES,
    ensures
        ok ==> is_laid_out(old(piece_set)@, final(piece_set)@),
        ok <==> files_fit(old(piece_set)@) && kings_first(old(piece_set)@),
{
    let ghost orig = piece_set@;
    let mut available_pawn_squares: Vec<u64> = vec![6u64; 8];
    let mut available_squares: u64 = 64;
    let mut pawnless_set = true;
    let mut span_end: usize = 0;
    let mut e: usize = 0;
    while e < piece_set.len()
        invariant
            is_binomial_table(binomials@),
            0 <= e <= piece_set.len(),
            piece_set@.len() == orig.len(),
            mult_before(orig, orig.len() as int) <= MAX_PIECES,
            forall|k: int| 0 <= k < orig.len() ==> (#[trigger] orig[k]).multiplicity <= MAX_PIECES,
            forall|k: int|
                e <= k < piece_set.len() ==> #[trigger] piece_set@[k] == orig[k],
            forall|k: int|
                0 <= k < piece_set.len() ==> (#[trigger] piece_set@[k]).role == orig[k].role
                    && piece_set@[k].side == orig[k].side && piece_set@[k].multiplicity == orig[k].multiplicity,
            forall|k: int| 0 <= k < e ==> laid_out(piece_set@, k),
            span_end == mult_before(orig, e as int),
            available_squares == 64 - mult_before(orig, e as int),
            available_pawn_squares.len() == 8,
            forall|f: int| 0 <= f < 8 ==> #[trigger] available_pawn_squares@[f] == 6 - file_mult_before(orig, e as int, f as nat),
            pawnless_set == (forall|k: int| 0 <= k < e ==> !(#[trigger] orig[k].role is Pawn)),
            orig == old(piece_set)@,
        decreases piece_set.len() - e,
    {
        proof {
            lemma_mult_before_step(orig, piece_set@, e as int);
            lemma_mult_before_step(orig, orig, orig.len() as int);
            assert(mult_before(orig, e + 1) <= mult_before(orig, orig.len() as int)) by {
                lemma_mult_before_mono(orig, e + 1, orig.len() as int);
            }
            assert forall|f: nat| f < 8 implies 0 <= #[trigger] file_mult_before(orig, e as int, f) <= mult_before(orig, e as int) by {
                lemma_file_mult_le(orig, e as int, f);
            }
        }
        let mut p = piece_set[e];
        let k = p.multiplicity;
        if p.role.is_pawn() {
            pawnless_set = false;
            let f = p.role.to_index();
            p.n_squares = available_pawn_squares[f];
            if p.n_squares < k {
                proof {
                    let fi = role_index(p.role);
                    assert(file_mult_before(orig, e as int + 1, fi) == file_mult_before(orig, e as int, fi) + k);
                    lemma_file_mult_mono(orig, e as int + 1, orig.len() as int, fi);
                    assert(!files_fit(orig));
                }
                return false;
            }
            available_pawn_squares.set(f, available_pawn_squares[f] - k);
        } else {
            p.n_squares = available_squares;
        }
        available_squares = available_squares - k;
        p.combinations = binom_at(binomials, p.n_squares, k as usize);
        p.span = (span_end, span_end + k as usize);
        span_end = span_end + k as usize;
        let ghost before = piece_set@;
        piece_set.set(e, p);
        proof {
            lemma_mult_before_step(orig, piece_set@, e as int);
            assert forall|kk: int| 0 <= kk < e + 1 implies laid_out(piece_set@, kk) by {
                lemma_mult_before_step(before, piece_set@, kk);
                lemma_mult_before_step(orig, piece_set@, kk);
                lemma_mult_before_step(orig, before, kk);
                if kk < e {
                    assert(laid_out(before, kk));
                    assert(piece_set@[kk] == before[kk]);
                    assert(file_mult_before(piece_set@, kk, role_index(before[kk].role)) == file_mult_before(before, kk, role_index(before[kk].role)));
                } else {
                    assert(piece_set@[kk] == p);
                    assert(mult_before(piece_set@, kk) == p.span.0);
                    if p.role is Pawn {
                        assert(file_mult_before(piece_set@, kk, role_index(p.role)) == file_mult_before(orig, kk, role_index(p.role)));
                    }
                }
            }
            assert forall|ff: int| 0 <= ff < 8 implies #[trigger] available_pawn_squares@[ff] == 6 - file_mult_before(orig, e + 1, ff as nat) by {
            }
        }
        e += 1;
    }
    proof {
        assert(files_fit(orig)) by {
            assert forall|f: nat| f < 8 implies #[trigger] file_mult_before(orig, orig.len() as int, f) <= 6 by {
                assert(available_pawn_squares@[f as int] == 6 - file_mult_before(orig, e as int, f));
            }
        }
        if !pawnless_set {
            let k = choose|k: int| 0 <= k < e && (#[trigger] orig[k].role is Pawn);
            assert(piece_set@[k].role is Pawn);
            assert(!pawnless(piece_set@));
        } else {
            assert forall|k: int| 0 <= k < piece_set@.len() implies !(#[trigger] piece_set@[k].role is Pawn) by {
                assert(piece_set@[k].role == orig[k].role);
            }
        }
    }
    if pawnless_set {
        if piece_set.len() < 2 {
            return false;
        }
        if piece_set[0].multiplicity != 1 || piece_set[1].multiplicity != 1 {
            return false;
        }
        let ghost laid = piece_set@;
        let mut p0 = piece_set[0];
        p0.n_squares = 462;
        p0.combinations = 462;
        piece_set.set(0, p0);
        let mut p1 = piece_set[1];
        p1.n_squares = 1;
        p1.combinations = 1;
        piece_set.set(1, p1);
        proof {
            let ps = piece_set@;
            assert forall|k: int| 0 <= k < ps.len() implies !(#[trigger] ps[k].role is Pawn) by {
                assert(ps[k].role == laid[k].role);
            }
            assert(pawnless(ps));
            assert(laid_out(laid, 0));
            assert(laid_out(laid, 1));
            assert(mult_before(laid, 0) == 0);
            assert(mult_before(laid, 1) == 1);
            assert forall|kk: int| 2 <= kk < ps.len() implies laid_out(ps, kk) by {
                assert(laid_out(laid, kk));
                lemma_mult_before_step(laid, ps, kk);
                assert(ps[kk] == laid[kk]);
            }
        }
    }
    true
}

proof fn lemma_mult_before_mono(ps: Seq<PieceSetElement>, a: int, b: int)
    requires
        0 <= a <= b <= ps.len(),
    ensures
        mult_before(ps, a) <= mult_before(ps, b),
    decreases b,
{
    if a < b {
        lemma_mult_before_mono(ps, a, b - 1);
    }
}

/// Pawn elements `i` and `j` are on neighbouring files.
pub open spec fn adjacent_files(ps: Seq<PieceSetElement>, i: int, j: int) -> bool {
    role_index(ps[i].role) == role_index(ps[j].role) + 1 || role_index(ps[i].role) + 1 == role_index(ps[j].role)
}

/// Among the first `np` elements (the pawns), `i` belongs to the side not to
/// move and some pawn of the side to move is on a neighbouring file, so a pawn
/// of element `i` may be taken en passant.
pub open spec fn ep_candidate(ps: Seq<PieceSetElement>, np: int, i: int) -> bool {
    &&& 0 <= i < np
    &&& ps[i].side == EgtSide::SideNotToMove
    &&& exists|j: int| 0 <= j < np && #[trigger] ps[j].side == EgtSide::SideToMove && adjacent_files(ps, i, j)
}

/// The element of side-to-move pawns on the same file as element `i`, if any
/// (it comes right before `i`).
pub open spec fn ep_stm_index(ps: Seq<PieceSetElement>, i: int) -> Option<usize> {
    if i > 0 && ps[i - 1].role == ps[i].role {
        Some((i - 1) as usize)
    } else {
        None
    }
}

/// Number of positions where a pawn of element `i` can be taken en passant:
/// that pawn is on the fifth rank and not encoded, the other pawns of the file
/// (of both sides) cannot stand on the fifth, sixth or seventh rank.
pub open spec fn ep_combinations(ps: Seq<PieceSetElement>, i: int, comb: nat) -> nat {
    let k = ps[i].multiplicity as nat;
    let n = ps[i].n_squares as nat;
    let c1 = comb / binom(n, k) * binom((n - 3) as nat, (k - 1) as nat);
    match ep_stm_index(ps, i) {
        Some(x) => c1 / binom(ps[x as int].n_squares as nat, ps[x as int].multiplicity as nat) * binom(
            (ps[x as int].n_squares - 3) as nat,
            ps[x as int].multiplicity as nat,
        ),
        None => c1,
    }
}

/// The en passant option of the element `i`, given where its range starts.
pub open spec fn ep_option_of(ps: Seq<PieceSetElement>, i: int, start: nat, comb: nat) -> EnpassantOption {
    EnpassantOption {
        square: Some((32 + role_index(ps[i].role)) as u64),
        pawn_idx_sntm: Some(i as usize),
        pawn_idx_stm: ep_stm_index(ps, i),
        range_start: start as u64,
        range_end: (start + ep_combinations(ps, i, comb)) as u64,
    }
}

/// `opts` lists the option without en passant (indexes `0..comb`) followed by
/// one option per candidate element, in increasing order, with contiguous ranges.
#[verifier::opaque]
pub open spec fn is_ep_option_list(ps: Seq<PieceSetElement>, np: int, comb: nat, opts: Seq<EnpassantOption>) -> bool {
    &&& opts.len() >= 1
    &&& opts[0] == EnpassantOption {
        square: None,
        pawn_idx_sntm: None,
        pawn_idx_stm: None,
        range_start: 0,
        range_end: comb as u64,
    }
    &&& forall|t: int|
        1 <= t < opts.len() ==> (#[trigger] opts[t]).pawn_idx_sntm is Some && ep_candidate(ps, np, opts[t].pawn_idx_sntm->0 as int)
            && opts[t] == ep_option_of(ps, opts[t].pawn_idx_sntm->0 as int, opts[t].range_start as nat, comb)
            && opts[t].range_end as nat == opts[t].range_start + ep_combinations(ps, opts[t].pawn_idx_sntm->0 as int, comb)
    &&& forall|u: int, t: int|
        #![trigger opts[u], opts[t]]
        0 <= u && t == u + 1 && t < opts.len() ==> opts[t].range_start == opts[u].range_end
    &&& forall|t: int, u: int|
        1 <= t < u < opts.len() ==> (#[trigger] opts[t]).pawn_idx_sntm->0 < (#[trigger] opts[u]).pawn_idx_sntm->0
    &&& forall|i: int| #[trigger] ep_candidate(ps, np, i) ==> exists|t: int|
        1 <= t < opts.len() && #[trigger] opts[t].pawn_idx_sntm == Some(i as usize)
    &&& forall|t: int| 1 <= t < opts.len() ==> ep_room(ps, (#[trigger] opts[t]).pawn_idx_sntm->0 as int)
}

/// The file of the pawn element `i` (and of the side-to-move pawns on it)
/// keeps at least three free squares, so its pawns can be kept off the fifth,
/// sixth and seventh ranks.
pub open spec fn ep_room(ps: Seq<PieceSetElement>, i: int) -> bool {
    &&& ps[i].n_squares >= 3
    &&& ep_stm_index(ps, i) matches Some(x) ==> ps[x as int].n_squares >= 3
}

/// The pawn elements, laid out with at least as many squares as pawns.
pub open spec fn pawns_laid_out(ps: Seq<PieceSetElement>, np: int) -> bool {
    &&& 0 <= np <= ps.len()
    &&& forall|i: int| 0 <= i < np ==> (#[trigger] ps[i]).role is Pawn
    &&& forall|i: int|
        0 <= i < np ==> 1 <= (#[trigger] ps[i]).multiplicity <= ps[i].n_squares <= 6
}

/// Whether some pawn element of the side to move is on a file next to element `i`.
fn has_adjacent_stm_pawn(ps: &Vec<PieceSetElement>, np: usize, i: usize) -> (r: bool)
    requires
        np <= ps.len(),
        i < np,
    ensures
        r == exists|j: int| 0 <= j < np && #[trigger] ps@[j].side == EgtSide::SideToMove && adjacent_files(ps@, i as int, j),
{
    let fi = ps[i].role.to_index();
    let mut j: usize = 0;
    while j < np
        invariant
            np <= ps.len(),
            i < np,
            fi == role_index(ps@[i as int].role),
            0 <= j <= np,
            forall|jj: int| 0 <= jj < j ==> !(#[trigger] ps@[jj].side == EgtSide::SideToMove && adjacent_files(ps@, i as int, jj)),
        decreases np - j,
    {
        if ps[j].side == EgtSide::SideToMove {
            let fj = ps[j].role.to_index();
            if fi == fj + 1 || fi + 1 == fj {
                return true;
            }
        }
        j += 1;
    }
    false
}

/// The en passant option of the candidate element `i`, whose range starts at
/// `start`; None when its file has fewer than three free squares or the
/// range would not fit in 64 bits.
fn ep_option_at(
    ps: &Vec<PieceSetElement>,
    np: usize,
    i: usize,
    start: u64,
    comb: u64,
    binomials: &Vec<Vec<u64>>,
) -> (r: Option<EnpassantOption>)
    requires
        is_binomial_table(binomials@),
        pawns_laid_out(ps@, np as int),
        np <= MAX_PIECES,
        i < np,
        forall|i2: int| 0 <= i2 < np ==> (#[trigger] ps@[i2]).combinations == binom(ps@[i2].n_squares as nat, ps@[i2].multiplicity as nat),
    ensures
        r matches Some(o) ==> o == ep_option_of(ps@, i as int, start as nat, comb as nat)
            && start + ep_combinations(ps@, i as int, comb as nat) <= u64::MAX && ep_room(ps@, i as int),
        r matches Some(o) ==> o.range_end <= start + comb,
        start + comb <= u64::MAX && ep_room(ps@, i as int) ==> r is Some,
{
    let istm: Option<usize> = if i > 0 && ps[i - 1].role == ps[i].role {
        Some(i - 1)
    } else {
        None
    };
    let k = ps[i].multiplicity;
    let n = ps[i].n_squares;
    if n < 3 {
        return None;
    }
    proof {
        crate::combinatorics::lemma_choose_positive(n as nat, k as nat);
    }
    let c0 = comb / ps[i].combinations;
    let b1 = binom_at(binomials, n - 3, (k - 1) as usize);
    proof {
        crate::combinatorics::lemma_choose_mono((n - 3) as nat, (n - 1) as nat, (k - 1) as nat);
        assert(binom(n as nat, k as nat) == binom((n - 1) as nat, (k - 1) as nat) + binom((n - 1) as nat, k as nat));
        let cc = ps@[i as int].combinations as int;
        assert(c0 * b1 <= comb) by (nonlinear_arith)
            requires
                cc >= 1,
                c0 == comb as int / cc,
                b1 <= cc,
        ;
    }
    let c = match c0.checked_mul(b1) {
        Some(v) => v,
        None => return None,
    };
    let c = match istm {
        Some(x) => {
            let kx = ps[x].multiplicity;
            let nx = ps[x].n_squares;
            if nx < 3 {
                return None;
            }
            proof {
                crate::combinatorics::lemma_choose_positive(nx as nat, kx as nat);
            }
            let c2 = c / ps[x].combinations;
            let b2 = binom_at(binomials, nx - 3, kx as usize);
            proof {
                crate::combinatorics::lemma_choose_mono((nx - 3) as nat, nx as nat, kx as nat);
                let cx = ps@[x as int].combinations as int;
                assert(c2 * b2 <= c) by (nonlinear_arith)
                    requires
                        cx >= 1,
                        c2 == c as int / cx,
                        b2 <= cx,
                ;
            }
            match c2.checked_mul(b2) {
                Some(v) => v,
                None => return None,
            }
        },
        None => c,
    };
    let range_end = match start.checked_add(c) {
        Some(v) => v,
        None => return None,
    };
    let file = ps[i].role.to_index() as u64;
    assert(ep_stm_index(ps@, i as int) == istm);
    Some(EnpassantOption {
        square: Some(32 + file),
        pawn_idx_sntm: Some(i),
        pawn_idx_stm: istm,
        range_start: start,
        range_end,
    })
}

/// Allocates one index range per file on which a pawn of the side not to move
/// can be taken en passant. Returns None when a file has too few free squares
/// for such positions (fewer than three) or when a range would overflow.
#[verifier::rlimit(30)]
#[verifier::spinoff_prover]
fn setup_ep_options(ps: &Vec<PieceSetElement>, np: usize, combinations_without_ep: u64, binomials: &Vec<Vec<u64>>) -> (r: Option<Vec<EnpassantOption>>)
    requires
        is_binomial_table(binomials@),
        pawns_laid_out(ps@, np as int),
        np <= MAX_PIECES,
        forall|i: int| 0 <= i < np ==> (#[trigger] ps@[i]).combinations == binom(ps@[i].n_squares as nat, ps@[i].multiplicity as nat),
    ensures
        r matches Some(opts) ==> is_ep_option_list(ps@, np as int, combinations_without_ep as nat, opts@)
            && opts@.len() >= 1,
        (np + 1) * combinations_without_ep <= u64::MAX && (forall|i: int| #[trigger] ep_candidate(ps@, np as int, i) ==> ep_room(ps@, i))
            ==> r is Some,
{
    let ghost comb = combinations_without_ep as nat;
    let mut opts: Vec<EnpassantOption> = Vec::new();
    opts.push(EnpassantOption {
        square: None,
        pawn_idx_sntm: None,
        pawn_idx_stm: None,
        range_start: 0,
        range_end: combinations_without_ep,
    });
    let mut range_start: u64 = combinations_without_ep;
    let mut i: usize = 0;
    while i < np
        invariant
            is_binomial_table(binomials@),
            pawns_laid_out(ps@, np as int),
            np <= MAX_PIECES,
            forall|i2: int| 0 <= i2 < np ==> (#[trigger] ps@[i2]).combinations == binom(ps@[i2].n_squares as nat, ps@[i2].multiplicity as nat),
            0 <= i <= np,
            comb == combinations_without_ep,
            opts.len() >= 1,
            opts@[0] == (EnpassantOption {
                square: None,
                pawn_idx_sntm: None,
                pawn_idx_stm: None,
                range_start: 0,
                range_end: combinations_without_ep,
            }),
            range_start == opts@[opts.len() - 1].range_end,
            forall|t: int|
                1 <= t < opts.len() ==> (#[trigger] opts@[t]).pawn_idx_sntm is Some && ep_candidate(ps@, np as int, opts@[t].pawn_idx_sntm->0 as int)
                    && opts@[t] == ep_option_of(ps@, opts@[t].pawn_idx_sntm->0 as int, opts@[t - 1].range_end as nat, comb)
                    && opts@[t].range_end as nat == opts@[t].range_start + ep_combinations(ps@, opts@[t].pawn_idx_sntm->0 as int, comb)
                    && (opts@[t].pawn_idx_sntm->0) < i && ep_room(ps@, opts@[t].pawn_idx_sntm->0 as int),
            forall|t: int, u: int|
                1 <= t < u < opts.len() ==> (#[trigger] opts@[t]).pawn_idx_sntm->0 < (#[trigger] opts@[u]).pawn_idx_sntm->0,
            forall|i2: int| #[trigger] ep_candidate(ps@, np as int, i2) && i2 < i ==> exists|t: int|
                1 <= t < opts.len() && #[trigger] opts@[t].pawn_idx_sntm == Some(i2 as usize),
            opts.len() <= i + 1,
            range_start <= opts.len() * combinations_without_ep,
        decreases np - i,
    {
        if ps[i].side == EgtSide::SideNotToMove && has_adjacent_stm_pawn(ps, np, i) {
            let opt = match ep_option_at(ps, np, i, range_start, combinations_without_ep, binomials) {
                Some(o) => o,
                None => {
                    proof {
                        let c = combinations_without_ep as int;
                        let l = opts@.len() as int;
                        if (np + 1) * c <= u64::MAX && (forall|i3: int| #[trigger] ep_candidate(ps@, np as int, i3) ==> ep_room(ps@, i3)) {
                            assert(ep_candidate(ps@, np as int, i as int));
                            assert(range_start + c <= u64::MAX) by (nonlinear_arith)
                                requires
                                    range_start <= l * c,
                                    l <= np,
                                    (np + 1) * c <= u64::MAX,
                                    c >= 0,
                            ;
                        }
                    }
                    return None;
                },
            };
            let ghost prev = opts@;
            let ghost prev_start = range_start;
            opts.push(opt);
            range_start = opt.range_end;
            proof {
                let c = combinations_without_ep as int;
                let l = prev.len() as int;
                assert(range_start <= (l + 1) * c) by (nonlinear_arith)
                    requires
                        prev_start <= l * c,
                        range_start <= prev_start + c,
                ;
            }
            proof {
                assert(ep_candidate(ps@, np as int, i as int));
                assert forall|t: int| 1 <= t < opts.len() implies (#[trigger] opts@[t]).pawn_idx_sntm is Some && ep_candidate(ps@, np as int, opts@[t].pawn_idx_sntm->0 as int)
                    && opts@[t] == ep_option_of(ps@, opts@[t].pawn_idx_sntm->0 as int, opts@[t - 1].range_end as nat, comb)
                    && opts@[t].range_end as nat == opts@[t].range_start + ep_combinations(ps@, opts@[t].pawn_idx_sntm->0 as int, comb)
                    && (opts@[t].pawn_idx_sntm->0) < i + 1 && ep_room(ps@, opts@[t].pawn_idx_sntm->0 as int) by {
                    if t < prev.len() {
                        assert(opts@[t] == prev[t]);
                        assert(opts@[t - 1] == prev[t - 1]);
                    }
                }
                assert forall|t: int, u: int| 1 <= t < u < opts.len() implies (#[trigger] opts@[t]).pawn_idx_sntm->0 < (#[trigger] opts@[u]).pawn_idx_sntm->0 by {
                    assert(opts@[t] == prev[t]);
                    if u < prev.len() {
                        assert(opts@[u] == prev[u]);
                    }
                }
                assert forall|i2: int| #[trigger] ep_candidate(ps@, np as int, i2) && i2 < i + 1 implies exists|t: int|
                    1 <= t < opts.len() && #[trigger] opts@[t].pawn_idx_sntm == Some(i2 as usize) by {
                    if i2 == i {
                        assert(opts@[opts.len() - 1].pawn_idx_sntm == Some(i2 as usize));
                    } else {
                        let t = choose|t: int| 1 <= t < prev.len() && #[trigger] prev[t].pawn_idx_sntm == Some(i2 as usize);
                        assert(opts@[t] == prev[t]);
                    }
                }
            }
        } else {
            proof {
                assert(!ep_candidate(ps@, np as int, i as int));
            }
        }
        i += 1;
    }
    proof {
        reveal(is_ep_option_list);
        assert forall|t: int| 1 <= t < opts.len() implies (#[trigger] opts@[t]) == ep_option_of(ps@, opts@[t].pawn_idx_sntm->0 as int, opts@[t].range_start as nat, comb) by {
            assert(opts@[t] == ep_option_of(ps@, opts@[t].pawn_idx_sntm->0 as int, opts@[t - 1].range_end as nat, comb));
        }
        assert forall|u: int, t: int| 0 <= u && t == u + 1 && t < opts.len() implies #[trigger] opts@[t].range_start == #[trigger] opts@[u].range_end by {
            assert(opts@[t] == ep_option_of(ps@, opts@[t].pawn_idx_sntm->0 as int, opts@[t - 1].range_end as nat, comb));
        }
    }
    Some(opts)
}

/// Product of the numbers of combinations of the first `e` elements.
pub open spec fn comb_product(ps: Seq<PieceSetElement>, e: int) -> nat
    decreases e,
{
    if e <= 0 {
        1
    } else {
        comb_product(ps, e - 1) * (ps[e - 1].combinations as nat)
    }
}

/// Total multiplicity of the first `e` entries of a piece list.
pub open spec fn pieces_total(pieces: Seq<(EgtRole, EgtSide, usize)>, e: int) -> int
    decreases e,
{
    if e <= 0 {
        0
    } else {
        pieces_total(pieces, e - 1) + pieces[e - 1].2
    }
}

/// No two elements have the same role and side.
pub open spec fn distinct_entries(ps: Seq<PieceSetElement>) -> bool {
    forall|a: int, b: int|
        0 <= a < b < ps.len() ==> !((#[trigger] ps[a]).role == (#[trigger] ps[b]).role && ps[a].side == ps[b].side)
}

/// The numbering of king pairs, with its 462 pairs.
#[verifier::opaque]
pub open spec fn kings_ok(from: Seq<(u64, u64)>, to: Seq<Vec<u64>>) -> bool {
    is_kings_map(from, to) && from.len() == 462
}

/// The elements are laid out, with their pawns first.
#[verifier::opaque]
pub open spec fn layout_ok(ps: Seq<PieceSetElement>, nup: int, n_pieces: int, n_pawns: int) -> bool {
    &&& is_laid_out(ps, ps)
    &&& distinct_entries(ps)
    &&& forall|e: int| 0 <= e < ps.len() ==> 1 <= (#[trigger] ps[e]).multiplicity
    &&& n_pieces == mult_before(ps, ps.len() as int)
    &&& 0 <= nup <= ps.len()
    &&& forall|e: int| 0 <= e < ps.len() ==> ((#[trigger] ps[e]).role is Pawn <==> e < nup)
    &&& n_pawns == mult_before(ps, nup)
    &&& pawns_laid_out(ps, nup)
}

/// The en passant options of the elements, and the total index range.
#[verifier::opaque]
pub open spec fn options_ok(ps: Seq<PieceSetElement>, nup: int, opts: Seq<EnpassantOption>, index_range: u64) -> bool {
    &&& is_ep_option_list(ps, nup, comb_product(ps, ps.len() as int), opts)
    &&& index_range == opts.last().range_end
    &&& comb_product(ps, ps.len() as int) <= u64::MAX
}

/// A listing of pieces that `Indexer::from_pieces` may accept: at most eight
/// pieces, no empty entry, the pawns first, no role listed twice for a side,
/// and, without pawns, two single pieces first (the kings).
pub open spec fn listing_ok(pieces: Seq<(EgtRole, EgtSide, usize)>) -> bool {
    &&& pieces_total(pieces, pieces.len() as int) <= MAX_PIECES
    &&& forall|e: int| 0 <= e < pieces.len() ==> (#[trigger] pieces[e]).2 >= 1
    &&& forall|a: int, b: int| 0 <= a < b < pieces.len() && (#[trigger] pieces[b]).0 is Pawn ==> (#[trigger] pieces[a]).0 is Pawn
    &&& forall|a: int, b: int|
        0 <= a < b < pieces.len() ==> !((#[trigger] pieces[a]).0 == (#[trigger] pieces[b]).0 && pieces[a].1 == pieces[b].1)
    &&& (forall|e: int| 0 <= e < pieces.len() ==> !((#[trigger] pieces[e]).0 is Pawn)) ==> pieces.len() >= 2 && pieces[0].2 == 1
        && pieces[1].2 == 1
}

/// Converts positions of an endgame to table indexes and back.
#[derive(Clone, Debug)]
pub struct Indexer {
    /// The set of pieces appearing in this endgame table.
    pub piece_set: Vec<PieceSetElement>,
    /// The number of pieces in the endgame.
    pub n_pieces: usize,
    /// The number of pawns in the endgame.
    pub n_pawns: usize,
    /// The number of pawn elements (pawns of one side on one file count once).
    pub n_unique_pawns: usize,
    /// The total number of positions indexed in this endgame table.
    pub index_range: u64,
    /// The en passant options and their index ranges.
    pub ep_options: Vec<EnpassantOption>,
    /// The numbered canonical king pairs of pawnless tables.
    pub kings_map_from_index: Vec<(u64, u64)>,
    pub kings_map_to_index: Vec<Vec<u64>>,
    /// The binomial coefficients C(n, k) as `binomials[k][n]`.
    pub binomials: Vec<Vec<u64>>,
}

impl Indexer {
    /// The layout computed by `from_pieces`.
    pub open spec fn wf(&self) -> bool {
        &&& is_binomial_table(self.binomials@)
        &&& kings_ok(self.kings_map_from_index@, self.kings_map_to_index@)
        &&& layout_ok(self.piece_set@, self.n_unique_pawns as int, self.n_pieces as int, self.n_pawns as int)
        &&& options_ok(self.piece_set@, self.n_unique_pawns as int, self.ep_options@, self.index_range)
        &&& self.n_pieces <= MAX_PIECES
        &&& self.n_unique_pawns <= self.piece_set@.len()
        &&& self.ep_options@.len() >= 1
    }

    /// Sets up the indexer of the pieces (role, side, multiplicity), listed
    /// pawns first. Fails on more than eight pieces, on a list that does not
    /// start with its pawns or holds an empty entry, on more than six pawns of
    /// a file, on a pawnless set that does not start with the two kings, and on
    /// a table too large to be indexed in 64 bits.
    pub fn from_pieces(pieces: &Vec<(EgtRole, EgtSide, usize)>) -> (r: Result<Indexer, EgtError>)
        ensures
            pieces_total(pieces@, pieces@.len() as int) > MAX_PIECES ==> r == Err::<Indexer, EgtError>(
                EgtError::InvalidPieceConfig("too many pieces"),
            ),
            r matches Ok(ix) ==> ix.wf() && ix.piece_set@.len() == pieces@.len() && forall|e: int|
                0 <= e < pieces@.len() ==> (#[trigger] ix.piece_set@[e]).role == pieces@[e].0
                    && ix.piece_set@[e].side == pieces@[e].1 && ix.piece_set@[e].multiplicity == pieces@[e].2,
            !listing_ok(pieces@) ==> r is Err,
            listing_ok(pieces@) && files_fit(listed_elements(pieces@)) && ep_fit(pieces@) ==> r is Ok,
    {
        // Count the pieces, stopping as soon as there are too many.
        let mut total: usize = 0;
        let mut e: usize = 0;
        while e < pieces.len()
            invariant
                0 <= e <= pieces.len(),
                total == pieces_total(pieces@, e as int),
                total <= MAX_PIECES,
            decreases pieces.len() - e,
        {
            if pieces[e].2 > MAX_PIECES - total {
                proof {
                    lemma_pieces_total_mono(pieces@, e as int + 1, pieces@.len() as int);
                }
                return Err(EgtError::InvalidPieceConfig("too many pieces"));
            }
            total = total + pieces[e].2;
            e += 1;
        }
        let mut piece_set: Vec<PieceSetElement> = Vec::new();
        let mut n_unique_pawns: usize = 0;
        let mut n_pawns: usize = 0;
        let mut e: usize = 0;
        while e < pieces.len()
            invariant
                0 <= e <= pieces.len(),
                pieces_total(pieces@, pieces@.len() as int) <= MAX_PIECES,
                piece_set.len() == e,
                n_unique_pawns <= e,
                forall|k: int| 0 <= k < e ==> ((#[trigger] piece_set@[k]).role is Pawn <==> k < n_unique_pawns),
                n_unique_pawns < e ==> !(pieces@[e - 1].0 is Pawn),
                n_pawns == mult_before(piece_set@, n_unique_pawns as int),
                n_pawns <= MAX_PIECES,
                n_unique_pawns <= n_pawns,
                mult_before(piece_set@, e as int) == pieces_total(pieces@, e as int),
                forall|k: int| 0 <= k < e ==> 1 <= (#[trigger] piece_set@[k]).multiplicity <= MAX_PIECES,
                forall|k: int|
                    0 <= k < e ==> (#[trigger] piece_set@[k]).role == pieces@[k].0 && piece_set@[k].side == pieces@[k].1
                        && piece_set@[k].multiplicity == pieces@[k].2,
                forall|k: int| 0 <= k < e ==> #[trigger] piece_set@[k] == listed_elements(pieces@)[k],
            decreases pieces.len() - e,
        {
            let (role, side, mult) = pieces[e];
            proof {
                lemma_pieces_total_mono(pieces@, e as int + 1, pieces@.len() as int);
                lemma_mult_before_mono(piece_set@, n_unique_pawns as int, e as int);
            }
            if mult == 0 {
                proof {
                    assert(pieces@[e as int].2 == 0);
                }
                return Err(EgtError::InvalidPieceConfig("empty piece entry"));
            }
            if role.is_pawn() {
                if n_unique_pawns < e {
                    proof {
                        assert(pieces@[e as int].0 is Pawn && !(pieces@[e - 1].0 is Pawn));
                    }
                    return Err(EgtError::InvalidPieceConfig("pawns must come first"));
                }
                n_unique_pawns = n_unique_pawns + 1;
                n_pawns = n_pawns + mult;
            }
            let ghost before = piece_set@;
            piece_set.push(PieceSetElement {
                role,
                side,
                multiplicity: mult as u64,
                n_squares: 0,
                combinations: 0,
                span: (0, 0),
            });
            proof {
                lemma_mult_before_step_any(before, piece_set@, e as int);
                if role is Pawn {
                    lemma_mult_before_step_any(before, piece_set@, (n_unique_pawns - 1) as int);
                } else {
                    lemma_mult_before_step_any(before, piece_set@, n_unique_pawns as int);
                }
            }
            e += 1;
        }
        assert(piece_set@ =~= listed_elements(pieces@));
        // No role may be listed twice for a side.
        let mut a: usize = 0;
        while a < piece_set.len()
            invariant
                0 <= a <= piece_set.len(),
                pieces_total(pieces@, pieces@.len() as int) <= MAX_PIECES,
                forall|x: int, y: int|
                    0 <= x < a && x < y < piece_set@.len() ==> !((#[trigger] piece_set@[x]).role == (#[trigger] piece_set@[y]).role
                        && piece_set@[x].side == piece_set@[y].side),
                piece_set@ == listed_elements(pieces@),
            decreases piece_set.len() - a,
        {
            let mut b: usize = a + 1;
            while b < piece_set.len()
                invariant
                    a < piece_set.len(),
                    a + 1 <= b <= piece_set.len(),
                    pieces_total(pieces@, pieces@.len() as int) <= MAX_PIECES,
                    forall|x: int, y: int|
                        0 <= x < a && x < y < piece_set@.len() ==> !((#[trigger] piece_set@[x]).role == (#[trigger] piece_set@[y]).role
                            && piece_set@[x].side == piece_set@[y].side),
                    forall|y: int|
                        a < y < b ==> !((#[trigger] piece_set@[y]).role == piece_set@[a as int].role && piece_set@[y].side == piece_set@[a as int].side),
                    piece_set@ == listed_elements(pieces@),
                decreases piece_set.len() - b,
            {
                if piece_set[a].role == piece_set[b].role && piece_set[a].side == piece_set[b].side {
                    proof {
                        assert(piece_set@[a as int] == listed_elements(pieces@)[a as int]);
                        assert(piece_set@[b as int] == listed_elements(pieces@)[b as int]);
                        assert(pieces@[a as int].0 == pieces@[b as int].0 && pieces@[a as int].1 == pieces@[b as int].1);
                    }
                    return Err(EgtError::InvalidPieceConfig("repeated piece entry"));
                }
                b += 1;
            }
            a += 1;
        }
        let binomials = initialize_nchoosek();
        let ghost listed = piece_set@;
        proof {
            lemma_mult_before_step(listed, listed, listed.len() as int);
        }
        if !compute_piece_squares(&mut piece_set, &binomials) {
            proof {
                if listing_ok(pieces@) {
                    if pawnless(listed) {
                        assert forall|e: int| 0 <= e < pieces@.len() implies !((#[trigger] pieces@[e]).0 is Pawn) by {
                            assert(listed[e].role == pieces@[e].0);
                        }
                    }
                    assert(kings_first(listed));
                }
            }
            return Err(EgtError::InvalidPieceConfig("too many pawns on a file, or missing kings"));
        }
        proof {
            lemma_mult_before_step(listed, piece_set@, listed.len() as int);
        }
        // Number of placements without en passant.
        let mut comb: u64 = 1;
        let mut e: usize = 0;
        while e < piece_set.len()
            invariant
                0 <= e <= piece_set.len(),
                comb == comb_product(piece_set@, e as int),
                pieces_total(pieces@, pieces@.len() as int) <= MAX_PIECES,
                is_laid_out(listed, piece_set@),
                mult_before(piece_set@, piece_set@.len() as int) <= MAX_PIECES,
            decreases piece_set.len() - e,
        {
            comb = match comb.checked_mul(piece_set[e].combinations) {
                Some(v) => v,
                None => {
                    proof {
                        lemma_table_size_bound(listed, piece_set@, e as int + 1);
                    }
                    return Err(EgtError::InvalidPieceConfig("table too large"));
                },
            };
            e += 1;
        }
        proof {
            lemma_table_size_bound(listed, piece_set@, piece_set@.len() as int);
        }
        proof {
            lemma_mult_before_step(listed, piece_set@, listed.len() as int);
            lemma_mult_before_step(listed, piece_set@, n_unique_pawns as int);
            assert forall|i: int| 0 <= i < n_unique_pawns implies 1 <= (#[trigger] piece_set@[i]).multiplicity <= piece_set@[i].n_squares <= 6 by {
                assert(piece_set@[i].role is Pawn);
                assert(laid_out(piece_set@, i));
                lemma_file_mult_le(piece_set@, i, role_index(piece_set@[i].role));
            }
            assert forall|i: int| 0 <= i < n_unique_pawns implies (#[trigger] piece_set@[i]).combinations == binom(piece_set@[i].n_squares as nat, piece_set@[i].multiplicity as nat) by {
                assert(laid_out(piece_set@, i));
            }
        }
        let ep_options = match setup_ep_options(&piece_set, n_unique_pawns, comb, &binomials) {
            Some(o) => o,
            None => {
                proof {
                    if ep_fit(pieces@) {
                        lemma_ep_rooms(pieces@, listed, piece_set@, n_unique_pawns as int);
                        assert((n_unique_pawns + 1) * comb <= u64::MAX) by (nonlinear_arith)
                            requires
                                n_unique_pawns <= 8,
                                comb <= 130041439240323072u64,
                        ;
                    }
                }
                return Err(EgtError::InvalidPieceConfig("too many pawns on an en passant file, or table too large"));
            },
        };
        let index_range = ep_options[ep_options.len() - 1].range_end;
        let (kings_map_from_index, kings_map_to_index) = initialize_kings_map();
        if kings_map_from_index.len() != 462 {
            return Err(EgtError::Internal("unexpected number of king pairs"));
        }
        proof {
            reveal(kings_ok);
            reveal(layout_ok);
            reveal(options_ok);
            lemma_mult_before_step(listed, piece_set@, listed.len() as int);
            lemma_mult_before_step(listed, piece_set@, n_unique_pawns as int);
            let ps = piece_set@;
            let pl = pieces@;
            assert forall|a: int, b: int| 0 <= a < b < pl.len() && (#[trigger] pl[b]).0 is Pawn implies (#[trigger] pl[a]).0 is Pawn by {
                assert(ps[b].role == pl[b].0 && ps[a].role == pl[a].0);
            }
            assert forall|a: int, b: int| 0 <= a < b < pl.len() implies !((#[trigger] pl[a]).0 == (#[trigger] pl[b]).0 && pl[a].1 == pl[b].1) by {
                assert(ps[b].role == pl[b].0 && ps[a].role == pl[a].0 && ps[a].side == pl[a].1 && ps[b].side == pl[b].1);
                assert(!(ps[a].role == ps[b].role && ps[a].side == ps[b].side));
            }
            assert forall|e: int| 0 <= e < pl.len() implies (#[trigger] pl[e]).2 >= 1 by {
                assert(ps[e].multiplicity == pl[e].2);
            }
            if forall|e: int| 0 <= e < pl.len() ==> !((#[trigger] pl[e]).0 is Pawn) {
                assert forall|e: int| 0 <= e < ps.len() implies !(#[trigger] ps[e].role is Pawn) by {
                    assert(ps[e].role == pl[e].0);
                }
                assert(pawnless(ps));
            }
            assert(listing_ok(pl));
        }
        Ok(Indexer {
            piece_set,
            n_pieces: total,
            n_pawns,
            n_unique_pawns,
            index_range,
            ep_options,
            kings_map_from_index,
            kings_map_to_index,
            binomials,
        })
    }
}

/// The element of pawns of the side not to move on the en passant file,
/// with the pawn that can be taken left out and the others kept off the
/// fifth, sixth and seventh ranks.
pub open spec fn reduced_sntm(p: PieceSetElement) -> PieceSetElement {
    PieceSetElement {
        multiplicity: (p.multiplicity - 1) as u64,
        n_squares: (p.n_squares - 3) as u64,
        combinations: binom((p.n_squares - 3) as nat, (p.multiplicity - 1) as nat) as u64,
        ..p
    }
}

/// The element of pawns of the side to move on the en passant file, kept off
/// the fifth, sixth and seventh ranks.
pub open spec fn reduced_stm(p: PieceSetElement) -> PieceSetElement {
    PieceSetElement {
        n_squares: (p.n_squares - 3) as u64,
        combinations: binom((p.n_squares - 3) as nat, p.multiplicity as nat) as u64,
        ..p
    }
}

/// The elements as used to encode positions with the en passant status `o`.
pub open spec fn with_ep_option(ps: Seq<PieceSetElement>, o: EnpassantOption) -> Seq<PieceSetElement> {
    let ps1 = match o.pawn_idx_sntm {
        Some(i) => ps.update(i as int, reduced_sntm(ps[i as int])),
        None => ps,
    };
    match o.pawn_idx_stm {
        Some(x) => ps1.update(x as int, reduced_stm(ps1[x as int])),
        None => ps1,
    }
}

/// Working state used to encode and decode positions.
#[derive(Clone, Debug)]
pub struct IndexerScratch {
    /// The elements, adjusted to the current en passant option.
    pub piece_set: Vec<PieceSetElement>,
    /// The en passant option the elements are adjusted to.
    pub current_ep_option: EnpassantOption,
    /// (rank, file) of each piece.
    pub buffer_coord: Vec<(u64, u64)>,
    /// Square indexes (or compacted indexes) of each piece.
    pub buffer_pidx: Vec<u64>,
}

fn copy_elements(v: &Vec<PieceSetElement>) -> (r: Vec<PieceSetElement>)
    ensures
        r@ == v@,
{
    let mut r: Vec<PieceSetElement> = Vec::new();
    let mut i: usize = 0;
    while i < v.len()
        invariant
            0 <= i <= v.len(),
            r@ == v@.take(i as int),
        decreases v.len() - i,
    {
        r.push(v[i]);
        i += 1;
        assert(r@ =~= v@.take(i as int));
    }
    assert(v@.take(v.len() as int) =~= v@);
    r
}

impl Indexer {
    /// The scratch belongs to this indexer: its elements are the indexer's,
    /// adjusted to one of its en passant options, and its buffers hold one
    /// entry per piece.
    pub open spec fn scratch_wf(&self, sc: &IndexerScratch) -> bool {
        &&& self.ep_options@.contains(sc.current_ep_option)
        &&& sc.piece_set@ == with_ep_option(self.piece_set@, sc.current_ep_option)
        &&& sc.buffer_coord@.len() == self.n_pieces
        &&& sc.buffer_pidx@.len() == self.n_pieces
    }

    /// A scratch set to the option without en passant.
    pub fn create_scratch(&self) -> (sc: IndexerScratch)
        requires
            self.wf(),
        ensures
            self.scratch_wf(&sc),
            sc.current_ep_option == self.ep_options@[0],
    {
        let sc = IndexerScratch {
            piece_set: copy_elements(&self.piece_set),
            current_ep_option: self.ep_options[0],
            buffer_coord: vec![(0u64, 0u64); self.n_pieces],
            buffer_pidx: vec![0u64; self.n_pieces],
        };
        proof {
            reveal(options_ok);
            lemma_option_square(self.piece_set@, self.n_unique_pawns as int, comb_product(self.piece_set@, self.piece_set@.len() as int), self.ep_options@, 0);
        }
        assert(self.ep_options@.contains(self.ep_options@[0]));
        assert(with_ep_option(self.piece_set@, self.ep_options@[0]) == self.piece_set@);
        sc
    }

    pub(crate) proof fn lemma_option_fields(&self, o: EnpassantOption)
        requires
            self.wf(),
            self.ep_options@.contains(o),
        ensures
            o.pawn_idx_sntm matches Some(i) ==> i < self.n_unique_pawns && 1 <= self.piece_set@[i as int].multiplicity
                && ep_room(self.piece_set@, i as int) && o.pawn_idx_stm == ep_stm_index(self.piece_set@, i as int),
            o.pawn_idx_sntm is None ==> o.pawn_idx_stm is None,
            o.range_start <= o.range_end <= self.index_range,
    {
        reveal(layout_ok);
        reveal(options_ok);
        let opts = self.ep_options@;
        let t = choose|t: int| 0 <= t < opts.len() && opts[t] == o;
        lemma_option_square(self.piece_set@, self.n_unique_pawns as int, comb_product(self.piece_set@, self.piece_set@.len() as int), opts, t);
        lemma_ranges_ordered(self.piece_set@, self.n_unique_pawns as int, comb_product(self.piece_set@, self.piece_set@.len() as int), opts, t);
    }

    /// The elements of a scratch are distinct entries.
    pub(crate) proof fn lemma_scratch_distinct(&self, sc: &IndexerScratch)
        requires
            self.wf(),
            self.scratch_wf(sc),
        ensures
            distinct_entries(sc.piece_set@),
            distinct_entries(self.piece_set@),
    {
        reveal(layout_ok);
        self.lemma_scratch_elements(sc);
        let qs = sc.piece_set@;
        let ps = self.piece_set@;
        assert forall|a: int, b: int| 0 <= a < b < qs.len() implies !((#[trigger] qs[a]).role == (#[trigger] qs[b]).role
            && qs[a].side == qs[b].side) by {
            assert(!(ps[a].role == ps[b].role && ps[a].side == ps[b].side));
        }
    }

    /// Two options of the table with the same square are the same.
    pub(crate) proof fn lemma_option_by_square(&self, a: EnpassantOption, b: EnpassantOption)
        requires
            self.wf(),
            self.ep_options@.contains(a),
            self.ep_options@.contains(b),
            a.square == b.square,
        ensures
            a == b,
    {
        reveal(layout_ok);
        reveal(options_ok);
        lemma_squares_identify(self.piece_set@, self.n_unique_pawns as int, comb_product(self.piece_set@, self.piece_set@.len() as int), self.ep_options@, a, b);
    }

    /// Two options of the table whose ranges hold one index are the same.
    pub(crate) proof fn lemma_option_by_index(&self, a: EnpassantOption, b: EnpassantOption, index: u64)
        requires
            self.wf(),
            self.ep_options@.contains(a),
            self.ep_options@.contains(b),
            a.range_start <= index < a.range_end,
            b.range_start <= index < b.range_end,
        ensures
            a == b,
    {
        reveal(options_ok);
        let ps = self.piece_set@;
        let np = self.n_unique_pawns as int;
        let comb = comb_product(ps, ps.len() as int);
        let opts = self.ep_options@;
        let t = choose|t: int| 0 <= t < opts.len() && opts[t] == a;
        let u = choose|u: int| 0 <= u < opts.len() && opts[u] == b;
        if t < u {
            lemma_ranges_chain(ps, np, comb, opts, t, u);
        } else if u < t {
            lemma_ranges_chain(ps, np, comb, opts, u, t);
        }
    }

    /// The square of an option of the table, when it has one, is on the
    /// fifth rank.
    pub(crate) proof fn lemma_option_on_fifth(&self, o: EnpassantOption)
        requires
            self.wf(),
            self.ep_options@.contains(o),
        ensures
            o.square matches Some(s) ==> 32 <= s < 40,
    {
        reveal(layout_ok);
        reveal(options_ok);
        let opts = self.ep_options@;
        let t = choose|t: int| 0 <= t < opts.len() && opts[t] == o;
        lemma_option_square(self.piece_set@, self.n_unique_pawns as int, comb_product(self.piece_set@, self.piece_set@.len() as int), opts, t);
        if t >= 1 {
            let i = o.pawn_idx_sntm->0 as int;
            assert(self.piece_set@[i].role is Pawn);
        }
    }

    /// Each element spans as many entries as it has pieces.
    pub(crate) proof fn lemma_spans_hold_multiplicity(&self)
        requires
            self.wf(),
        ensures
            forall|e: int| 0 <= e < self.piece_set@.len() ==> (#[trigger] self.piece_set@[e]).span.1 - self.piece_set@[e].span.0
                == self.piece_set@[e].multiplicity,
    {
        reveal(layout_ok);
        let ps = self.piece_set@;
        assert forall|e: int| 0 <= e < ps.len() implies (#[trigger] ps[e]).span.1 - ps[e].span.0 == ps[e].multiplicity by {
            if !pawnless(ps) || e >= 2 {
                assert(laid_out(ps, e));
            }
        }
    }

    /// A pawnless table has one en passant option: none, over all its indexes.
    pub(crate) proof fn lemma_pawnless_options(&self)
        requires
            self.wf(),
            self.n_pawns == 0,
        ensures
            self.ep_options@.len() == 1,
            self.ep_options@[0].square is None,
            self.ep_options@[0].pawn_idx_sntm is None,
            self.ep_options@[0].pawn_idx_stm is None,
            self.ep_options@[0].range_start == 0,
            self.ep_options@[0].range_end == self.index_range,
            with_ep_option(self.piece_set@, self.ep_options@[0]) == self.piece_set@,
            self.n_unique_pawns == 0,
            self.index_range == comb_product(self.piece_set@, self.piece_set@.len() as int),
    {
        reveal(layout_ok);
        reveal(options_ok);
        reveal(is_ep_option_list);
        let ps = self.piece_set@;
        lemma_layout_elements(ps, self.n_unique_pawns as int, self.n_pieces as int, self.n_pawns as int);
        let opts = self.ep_options@;
        if opts.len() > 1 {
            assert(ep_candidate(ps, self.n_unique_pawns as int, opts[1].pawn_idx_sntm->0 as int));
            assert(false);
        }
    }

    /// Restores the elements of the current en passant option to their
    /// values without en passant.
    fn unapply_ep_option(&self, sc: &mut IndexerScratch)
        requires
            self.wf(),
            self.ep_options@.contains(old(sc).current_ep_option),
            old(sc).piece_set@ == with_ep_option(self.piece_set@, old(sc).current_ep_option),
        ensures
            final(sc).piece_set@ == self.piece_set@,
            final(sc).current_ep_option == old(sc).current_ep_option,
            final(sc).buffer_coord == old(sc).buffer_coord,
            final(sc).buffer_pidx == old(sc).buffer_pidx,
    {
        proof {
            self.lemma_option_fields(sc.current_ep_option);
        }
        let ghost o = sc.current_ep_option;
        if let Some(i) = sc.current_ep_option.pawn_idx_sntm {
            sc.piece_set.set(i, self.piece_set[i]);
        }
        if let Some(x) = sc.current_ep_option.pawn_idx_stm {
            sc.piece_set.set(x, self.piece_set[x]);
        }
        assert(sc.piece_set@ =~= self.piece_set@);
    }

    /// Adjusts the elements to the current en passant option.
    fn apply_ep_option(&self, sc: &mut IndexerScratch)
        requires
            self.wf(),
            self.ep_options@.contains(old(sc).current_ep_option),
            old(sc).piece_set@ == self.piece_set@,
        ensures
            final(sc).piece_set@ == with_ep_option(self.piece_set@, old(sc).current_ep_option),
            final(sc).current_ep_option == old(sc).current_ep_option,
            final(sc).buffer_coord == old(sc).buffer_coord,
            final(sc).buffer_pidx == old(sc).buffer_pidx,
    {
        proof {
            self.lemma_option_fields(sc.current_ep_option);
        }
        if let Some(i) = sc.current_ep_option.pawn_idx_sntm {
            let mut p = sc.piece_set[i];
            proof {
                reveal(layout_ok);
                assert(pawns_laid_out(self.piece_set@, self.n_unique_pawns as int));
                assert(1 <= self.piece_set@[i as int].multiplicity <= self.piece_set@[i as int].n_squares <= 6);
            }
            p.multiplicity = p.multiplicity - 1;
            p.n_squares = p.n_squares - 3;
            p.combinations = binom_at(&self.binomials, p.n_squares, p.multiplicity as usize);
            sc.piece_set.set(i, p);
        }
        if let Some(x) = sc.current_ep_option.pawn_idx_stm {
            let mut p = sc.piece_set[x];
            proof {
                reveal(layout_ok);
                assert(1 <= self.piece_set@[x as int].multiplicity <= self.piece_set@[x as int].n_squares <= 6);
            }
            p.n_squares = p.n_squares - 3;
            p.combinations = binom_at(&self.binomials, p.n_squares, p.multiplicity as usize);
            sc.piece_set.set(x, p);
        }
        assert(sc.piece_set@ =~= with_ep_option(self.piece_set@, sc.current_ep_option));
    }

    /// Switches the scratch to the en passant option of the position (given
    /// by the square of the pawn that can be taken, on the fifth rank) and
    /// returns where its index range starts; None when the table has no such
    /// option.
    pub(crate) fn adjust_ep_from_position(&self, sc: &mut IndexerScratch, ep_square: Option<u64>) -> (r: Option<u64>)
        requires
            self.wf(),
            self.scratch_wf(old(sc)),
        ensures
            self.scratch_wf(final(sc)),
            final(sc).buffer_coord == old(sc).buffer_coord,
            final(sc).buffer_pidx == old(sc).buffer_pidx,
            r matches Some(start) ==> final(sc).current_ep_option.square == ep_square
                && start == final(sc).current_ep_option.range_start,
            r is None ==> forall|t: int| 0 <= t < self.ep_options@.len() ==> (#[trigger] self.ep_options@[t]).square != ep_square,
    {
        if sc.current_ep_option.square != ep_square {
            let mut t: usize = 0;
            while t < self.ep_options.len() && self.ep_options[t].square != ep_square
                invariant
                    0 <= t <= self.ep_options.len(),
                    forall|u: int| 0 <= u < t ==> (#[trigger] self.ep_options@[u]).square != ep_square,
                decreases self.ep_options.len() - t,
            {
                t += 1;
            }
            if t == self.ep_options.len() {
                return None;
            }
            self.unapply_ep_option(sc);
            sc.current_ep_option = self.ep_options[t];
            assert(self.ep_options@.contains(self.ep_options@[t as int]));
            self.apply_ep_option(sc);
        }
        Some(sc.current_ep_option.range_start)
    }

    /// Switches the scratch to the en passant option whose index range holds
    /// `index` and returns where that range starts.
    pub(crate) fn adjust_ep_from_index(&self, sc: &mut IndexerScratch, index: u64) -> (r: u64)
        requires
            self.wf(),
            self.scratch_wf(old(sc)),
            index < self.index_range,
        ensures
            self.scratch_wf(final(sc)),
            final(sc).buffer_coord == old(sc).buffer_coord,
            final(sc).buffer_pidx == old(sc).buffer_pidx,
            r == final(sc).current_ep_option.range_start,
            r <= index < final(sc).current_ep_option.range_end,
    {
        let ghost opts = self.ep_options@;
        proof {
            reveal(options_ok);
            reveal(layout_ok);
        }
        let mut t: usize = 0;
        while t < self.ep_options.len() && self.ep_options[t].range_end <= index
            invariant
                0 <= t <= self.ep_options.len(),
                forall|u: int| 0 <= u < t ==> (#[trigger] self.ep_options@[u]).range_end <= index,
            decreases self.ep_options.len() - t,
        {
            t += 1;
        }
        proof {
            if t == opts.len() {
                assert(opts[opts.len() - 1].range_end <= index);
                assert(false);
            }
            if t > 0 {
                assert(opts[t as int - 1].range_end <= index);
                lemma_ranges_contiguous(self.piece_set@, self.n_unique_pawns as int, comb_product(self.piece_set@, self.piece_set@.len() as int), opts, t as int);
            } else {
                lemma_option_square(self.piece_set@, self.n_unique_pawns as int, comb_product(self.piece_set@, self.piece_set@.len() as int), opts, 0);
            }
        }
        let new_option = self.ep_options[t];
        if sc.current_ep_option.square != new_option.square {
            self.unapply_ep_option(sc);
            sc.current_ep_option = new_option;
            assert(self.ep_options@.contains(self.ep_options@[t as int]));
            self.apply_ep_option(sc);
        } else {
            proof {
                assert(opts.contains(new_option));
                lemma_squares_identify(self.piece_set@, self.n_unique_pawns as int, comb_product(self.piece_set@, self.piece_set@.len() as int), opts, sc.current_ep_option, new_option);
            }
        }
        sc.current_ep_option.range_start
    }
}

/// Facts about one element, as adjusted to an en passant option, that the
/// encoding relies on.
pub open spec fn element_ok(p: PieceSetElement, n: int) -> bool {
    &&& p.span.0 <= p.span.1 <= n
    &&& p.multiplicity <= p.span.1 - p.span.0 <= p.multiplicity + 1
    &&& p.multiplicity <= MAX_PIECES
    &&& p.combinations == binom(p.n_squares as nat, p.multiplicity as nat)
    &&& p.multiplicity >= 2 ==> p.n_squares <= 64
    &&& p.n_squares <= 462
}

/// Facts about the adjusted elements that the encoding relies on: the spans
/// are ordered within the buffers, the pawns come first, and the two kings of
/// a pawnless table are numbered together.
pub open spec fn elements_ok(ps: Seq<PieceSetElement>, n: int, n_pawns: int, nup: int) -> bool {
    &&& forall|e: int| 0 <= e < ps.len() ==> element_ok(#[trigger] ps[e], n)
    &&& forall|a: int, b: int| 0 <= a < b < ps.len() ==> (#[trigger] ps[a]).span.1 <= (#[trigger] ps[b]).span.0
    &&& 0 <= nup <= ps.len()
    &&& forall|e: int| 0 <= e < nup ==> (#[trigger] ps[e]).role is Pawn && ps[e].span.1 <= n_pawns && ps[e].n_squares <= 6
    &&& forall|e: int| nup <= e < ps.len() ==> !((#[trigger] ps[e]).role is Pawn) && n_pawns <= ps[e].span.0
    &&& n_pawns == 0 ==> nup == 0 && ps.len() >= 2 && ps[0].span == (0usize, 1usize) && ps[1].span == (1usize, 2usize)
        && ps[0].n_squares == 462 && ps[0].multiplicity == 1 && ps[1].multiplicity == 1 && ps[1].n_squares == 1
    &&& n_pawns <= n <= MAX_PIECES
    &&& ps.len() == 0 ==> n == 0
    &&& ps.len() > 0 ==> ps[0].span.0 == 0 && ps[ps.len() - 1].span.1 == n
    &&& forall|a: int, b: int| #![trigger ps[a], ps[b]] 0 <= a && b == a + 1 && b < ps.len() ==> ps[a].span.1 == ps[b].span.0
}

impl Indexer {
    /// The elements of a scratch that belongs to this indexer satisfy `elements_ok`.
    pub(crate) proof fn lemma_scratch_elements(&self, sc: &IndexerScratch)
        requires
            self.wf(),
            self.scratch_wf(sc),
        ensures
            elements_ok(sc.piece_set@, self.n_pieces as int, self.n_pawns as int, self.n_unique_pawns as int),
            sc.piece_set@.len() == self.piece_set@.len(),
            forall|e: int| 0 <= e < sc.piece_set@.len() ==> (#[trigger] sc.piece_set@[e]).role == self.piece_set@[e].role
                && sc.piece_set@[e].side == self.piece_set@[e].side && sc.piece_set@[e].span == self.piece_set@[e].span,
    {
        let ps = self.piece_set@;
        let o = sc.current_ep_option;
        self.lemma_option_fields(o);
        lemma_layout_elements(ps, self.n_unique_pawns as int, self.n_pieces as int, self.n_pawns as int);
        reveal(layout_ok);
        lemma_adjusted_elements(ps, o, self.n_unique_pawns as int, self.n_pieces as int, self.n_pawns as int);
    }
}

pub(crate) proof fn lemma_layout_elements(ps: Seq<PieceSetElement>, nup: int, n: int, n_pawns: int)
    requires
        layout_ok(ps, nup, n, n_pawns),
        n <= MAX_PIECES,
    ensures
        elements_ok(ps, n, n_pawns, nup),
        forall|e: int| 0 <= e < ps.len() ==> (#[trigger] ps[e]).span.1 - ps[e].span.0 == ps[e].multiplicity,
{
    reveal(layout_ok);
    lemma_file_mult_all(ps);
    let pawnless_set = pawnless(ps);
    assert forall|e: int| 0 <= e < ps.len() implies element_ok(#[trigger] ps[e], n) && ps[e].span.0 == mult_before(ps, e)
        && ps[e].span.1 == mult_before(ps, e + 1) by {
        lemma_mult_before_mono(ps, e + 1, ps.len() as int);
        if pawnless_set && e < 2 {
            crate::combinatorics::lemma_choose_one(462);
            crate::combinatorics::lemma_choose_one(1);
            assert(mult_before(ps, 0) == 0);
            assert(mult_before(ps, 1) == 1);
            assert(mult_before(ps, 2) == 2);
        } else {
            assert(laid_out(ps, e));
        }
    }
    assert forall|a: int, b: int| 0 <= a < b < ps.len() implies (#[trigger] ps[a]).span.1 <= (#[trigger] ps[b]).span.0 by {
        lemma_mult_before_mono(ps, a + 1, b);
    }
    assert forall|e: int| 0 <= e < nup implies (#[trigger] ps[e]).role is Pawn && ps[e].span.1 <= n_pawns && ps[e].n_squares <= 6 by {
        lemma_mult_before_mono(ps, e + 1, nup);
    }
    assert forall|e: int| nup <= e < ps.len() implies !((#[trigger] ps[e]).role is Pawn) && n_pawns <= ps[e].span.0 by {
        lemma_mult_before_mono(ps, nup, e);
    }
    lemma_mult_before_mono(ps, nup, ps.len() as int);
    assert forall|a: int, b: int| #![trigger ps[a], ps[b]] 0 <= a && b == a + 1 && b < ps.len() implies ps[a].span.1 == ps[b].span.0 by {
        assert(ps[a].span.1 == mult_before(ps, a + 1));
        assert(ps[b].span.0 == mult_before(ps, b));
    }
    if ps.len() > 0 {
        assert(ps[ps.len() - 1].span.1 == mult_before(ps, ps.len() as int));
        assert(ps[0].span.0 == mult_before(ps, 0));
    }
    if n_pawns == 0 {
        if nup > 0 {
            assert(ps[0].role is Pawn);
            lemma_mult_before_mono(ps, 1, nup);
            assert(false);
        }
        assert(pawnless_set);
    }
}

#[verifier::rlimit(60)]
pub(crate) proof fn lemma_adjusted_elements(ps: Seq<PieceSetElement>, o: EnpassantOption, nup: int, n: int, n_pawns: int)
    requires
        elements_ok(ps, n, n_pawns, nup),
        forall|e: int| 0 <= e < ps.len() ==> (#[trigger] ps[e]).span.1 - ps[e].span.0 == ps[e].multiplicity,
        pawns_laid_out(ps, nup),
        forall|e: int| 0 <= e < ps.len() ==> 1 <= (#[trigger] ps[e]).multiplicity,
        o.pawn_idx_sntm matches Some(i) ==> i < nup && ep_room(ps, i as int) && o.pawn_idx_stm == ep_stm_index(ps, i as int),
        o.pawn_idx_sntm is None ==> o.pawn_idx_stm is None,
    ensures
        elements_ok(with_ep_option(ps, o), n, n_pawns, nup),
        with_ep_option(ps, o).len() == ps.len(),
        forall|e: int| 0 <= e < ps.len() ==> (#[trigger] with_ep_option(ps, o)[e]).role == ps[e].role
            && with_ep_option(ps, o)[e].side == ps[e].side && with_ep_option(ps, o)[e].span == ps[e].span,
{
    let qs = with_ep_option(ps, o);
    assert(qs.len() == ps.len());
    assert forall|e: int| 0 <= e < qs.len() implies (#[trigger] qs[e]).role == ps[e].role && qs[e].side == ps[e].side
        && qs[e].span == ps[e].span by {
    }
    assert forall|e: int| 0 <= e < qs.len() implies element_ok(#[trigger] qs[e], n) by {
        assert(element_ok(ps[e], n));
        if o.pawn_idx_sntm is Some && o.pawn_idx_sntm->0 == e {
            let k = ps[e].multiplicity;
            let m = ps[e].n_squares;
            assert(e < nup);
            assert(ps[e].role is Pawn && ps[e].n_squares <= 6);
            lemma_binom_small((m - 3) as nat, (k - 1) as nat);
        } else if o.pawn_idx_stm is Some && o.pawn_idx_stm->0 == e {
            let k = ps[e].multiplicity;
            let m = ps[e].n_squares;
            let i = o.pawn_idx_sntm->0 as int;
            assert(i > 0 && ps[i - 1].role == ps[i].role);
            assert(e == i - 1);
            assert(e < nup);
            assert(ps[e].role is Pawn && ps[e].n_squares <= 6);
            lemma_binom_small((m - 3) as nat, k as nat);
        } else {
            assert(qs[e] == ps[e]);
        }
    }
    assert forall|a: int, b: int| 0 <= a < b < qs.len() implies (#[trigger] qs[a]).span.1 <= (#[trigger] qs[b]).span.0 by {
        assert(ps[a].span.1 <= ps[b].span.0);
    }
    assert forall|e: int| 0 <= e < nup implies (#[trigger] qs[e]).role is Pawn && qs[e].span.1 <= n_pawns && qs[e].n_squares <= 6 by {
        assert(ps[e].role is Pawn);
    }
    assert forall|e: int| nup <= e < qs.len() implies !((#[trigger] qs[e]).role is Pawn) && n_pawns <= qs[e].span.0 by {
        assert(!(ps[e].role is Pawn));
    }
    assert forall|a: int, b: int| #![trigger qs[a], qs[b]] 0 <= a && b == a + 1 && b < qs.len() implies qs[a].span.1 == qs[b].span.0 by {
        assert(ps[a].span.1 == ps[b].span.0);
    }
    if qs.len() > 0 {
        assert(qs[0].span == ps[0].span);
        assert(qs[qs.len() - 1].span == ps[ps.len() - 1].span);
    }
    if n_pawns == 0 {
        assert(qs == ps);
    }
}

/// Coefficients of at most three squares fit in 8 bits.
proof fn lemma_binom_small(n: nat, k: nat)
    requires
        n <= 3,
    ensures
        binom(n, k) <= 8,
        binom(n, k) as u64 == binom(n, k),
{
    if n == 0 {
        if k > 0 {
            crate::combinatorics::lemma_choose_zero_above(0, k);
        }
    } else {
        crate::combinatorics::lemma_choose_bound(n, k);
        assert(crate::combinatorics::pow2(0) == 1);
        assert(crate::combinatorics::pow2(1) == 2);
        assert(crate::combinatorics::pow2(2) == 4);
        assert(crate::combinatorics::pow2(3) == 8);
    }
}

proof fn lemma_file_mult_all(ps: Seq<PieceSetElement>)
    ensures
        forall|e: int, f: nat| 0 <= e <= ps.len() ==> 0 <= #[trigger] file_mult_before(ps, e, f) <= mult_before(ps, e),
{
    assert forall|e: int, f: nat| 0 <= e <= ps.len() implies 0 <= #[trigger] file_mult_before(ps, e, f) <= mult_before(ps, e) by {
        lemma_file_mult_le(ps, e, f);
    }
}

/// Each option's range starts where the previous one ends.
proof fn lemma_ranges_contiguous(ps: Seq<PieceSetElement>, np: int, comb: nat, opts: Seq<EnpassantOption>, t: int)
    requires
        is_ep_option_list(ps, np, comb, opts),
        1 <= t < opts.len(),
    ensures
        opts[t].range_start == opts[t - 1].range_end,
        opts[t].range_start <= opts[t].range_end,
{
    reveal(is_ep_option_list);
    assert(opts[t] == ep_option_of(ps, opts[t].pawn_idx_sntm->0 as int, opts[t].range_start as nat, comb));
    assert(opts[t].range_start == opts[t - 1].range_end);
}

/// An earlier range ends before a later one starts.
proof fn lemma_ranges_chain(ps: Seq<PieceSetElement>, np: int, comb: nat, opts: Seq<EnpassantOption>, t: int, u: int)
    requires
        is_ep_option_list(ps, np, comb, opts),
        0 <= t < u < opts.len(),
    ensures
        opts[t].range_end <= opts[u].range_start,
    decreases u - t,
{
    lemma_ranges_contiguous(ps, np, comb, opts, u);
    if u - 1 > t {
        lemma_ranges_chain(ps, np, comb, opts, t, u - 1);
        lemma_ranges_contiguous(ps, np, comb, opts, u - 1);
    }
}

/// Ranges are ordered: each ends no later than the last one.
proof fn lemma_ranges_ordered(ps: Seq<PieceSetElement>, np: int, comb: nat, opts: Seq<EnpassantOption>, t: int)
    requires
        is_ep_option_list(ps, np, comb, opts),
        0 <= t < opts.len(),
    ensures
        opts[t].range_start <= opts[t].range_end <= opts[opts.len() - 1].range_end,
    decreases opts.len() - t,
{
    if t + 1 < opts.len() {
        lemma_ranges_ordered(ps, np, comb, opts, t + 1);
        lemma_ranges_contiguous(ps, np, comb, opts, t + 1);
    }
    if t >= 1 {
        lemma_ranges_contiguous(ps, np, comb, opts, t);
    } else {
        lemma_option_square(ps, np, comb, opts, 0);
    }
}

/// What an option of a list says of its element.
#[verifier::rlimit(60)]
proof fn lemma_option_square(ps: Seq<PieceSetElement>, np: int, comb: nat, opts: Seq<EnpassantOption>, t: int)
    requires
        is_ep_option_list(ps, np, comb, opts),
        0 <= t < opts.len(),
    ensures
        t == 0 ==> opts[t].square is None,
        t >= 1 ==> opts[t].pawn_idx_sntm is Some && ep_candidate(ps, np, opts[t].pawn_idx_sntm->0 as int)
            && opts[t].square == Some((32 + role_index(ps[opts[t].pawn_idx_sntm->0 as int].role)) as u64),
        t == 0 ==> opts[t].pawn_idx_sntm is None && opts[t].pawn_idx_stm is None && opts[t].range_start == 0
            && opts[t].range_end == comb as u64,
        t >= 1 ==> opts[t] == ep_option_of(ps, opts[t].pawn_idx_sntm->0 as int, opts[t].range_start as nat, comb)
            && ep_room(ps, opts[t].pawn_idx_sntm->0 as int) && opts[t].range_start == opts[t - 1].range_end,
{
    reveal(is_ep_option_list);
    if t >= 1 {
        assert(opts[t] == ep_option_of(ps, opts[t].pawn_idx_sntm->0 as int, opts[t].range_start as nat, comb));
        assert(opts[t].range_start == opts[t - 1].range_end);
    }
}

/// Later options of a list belong to later elements.
proof fn lemma_option_order(ps: Seq<PieceSetElement>, np: int, comb: nat, opts: Seq<EnpassantOption>, t: int, u: int)
    requires
        is_ep_option_list(ps, np, comb, opts),
        1 <= t < u < opts.len(),
    ensures
        opts[t].pawn_idx_sntm->0 < opts[u].pawn_idx_sntm->0,
{
    reveal(is_ep_option_list);
}

/// Two options of a list with the same square are the same option.
#[verifier::rlimit(30)]
proof fn lemma_squares_identify(ps: Seq<PieceSetElement>, np: int, comb: nat, opts: Seq<EnpassantOption>, a: EnpassantOption, b: EnpassantOption)
    requires
        is_ep_option_list(ps, np, comb, opts),
        opts.contains(a),
        opts.contains(b),
        a.square == b.square,
        0 <= np <= ps.len(),
        forall|i: int| 0 <= i < np ==> (#[trigger] ps[i]).role is Pawn,
        distinct_entries(ps),
    ensures
        a == b,
{
    let ta = choose|t: int| 0 <= t < opts.len() && opts[t] == a;
    let tb = choose|t: int| 0 <= t < opts.len() && opts[t] == b;
    lemma_option_square(ps, np, comb, opts, ta);
    lemma_option_square(ps, np, comb, opts, tb);
    if ta != tb && ta >= 1 && tb >= 1 {
        let ia = opts[ta].pawn_idx_sntm->0 as int;
        let ib = opts[tb].pawn_idx_sntm->0 as int;
        if ta < tb {
            lemma_option_order(ps, np, comb, opts, ta, tb);
        } else {
            lemma_option_order(ps, np, comb, opts, tb, ta);
        }
        assert(role_index(ps[ia].role) == role_index(ps[ib].role));
        crate::piece_set::lemma_role_index_injective(ps[ia].role, ps[ib].role);
        assert(ps[ia].side == ps[ib].side);
        if ia < ib {
            assert(!(ps[ia].role == ps[ib].role && ps[ia].side == ps[ib].side));
        } else {
            assert(!(ps[ib].role == ps[ia].role && ps[ib].side == ps[ia].side));
        }
    }
}

pub proof fn lemma_pieces_total_mono(pieces: Seq<(EgtRole, EgtSide, usize)>, a: int, b: int)
    requires
        0 <= a <= b <= pieces.len(),
    ensures
        pieces_total(pieces, a) <= pieces_total(pieces, b),
    decreases b,
{
    if a < b {
        lemma_pieces_total_mono(pieces, a, b - 1);
    }
}

proof fn lemma_mult_before_step_any(ps: Seq<PieceSetElement>, qs: Seq<PieceSetElement>, e: int)
    requires
        0 <= e <= ps.len(),
        e <= qs.len(),
        forall|k: int| 0 <= k < e ==> (#[trigger] qs[k]) == ps[k],
    ensures
        mult_before(qs, e) == mult_before(ps, e),
    decreases e,
{
    if e > 0 {
        lemma_mult_before_step_any(ps, qs, e - 1);
    }
}

} // verus!
