//! Encoding of positions as table indexes and decoding of indexes as
//! positions, stage by stage:
//! coordinates of the pieces, reduction by symmetry, sorting of identical
//! pieces, square indexes, compaction, numbering of the king pair and of the
//! pawns, and the mixed-radix combination of the subset ranks of all groups.

use vstd::prelude::*;
use crate::board::{BoardPosition, Color, Piece, Role, opposite, fen_of, fen_legal_ep};
use crate::combinatorics::{binom, binom_at, largest_binom_at_most, subset_rank, strictly_decreasing, is_binomial_table, MAX_PIECES,
    head_rank, lemma_head_rank_push, lemma_head_rank_split};
use crate::compaction::{compact_pidx, uncompact_cpidx, all_below, all_distinct, compact, uncompact};
use crate::indexer::{Indexer, IndexerScratch, PieceSetElement, EnpassantOption, elements_ok, element_ok, comb_product, pawnless, distinct_entries,
    with_ep_option};
use crate::radix::{group_cpidx, group_valid, groups_valid, valid_cpidx, same_groups, mixed_index, mixed_from, comb_range, counts_subsets,
    lemma_comb_range_split, lemma_mixed_from_prepend, lemma_comb_product_range, lemma_mixed_from_frame, lemma_mixed_index_from,
    lemma_mixed_from_bound, lemma_mixed_index_injective};
use crate::piece_set::{EgtRole, EgtSide, role_index};

verus! {

/// The board role of an endgame role.
pub open spec fn board_role(r: EgtRole) -> Role {
    match r {
        EgtRole::Pawn(_) => Role::Pawn,
        EgtRole::King => Role::King,
        EgtRole::Queen => Role::Queen,
        EgtRole::Rook => Role::Rook,
        EgtRole::Bishop => Role::Bishop,
        EgtRole::Knight => Role::Knight,
    }
}

/// The color of a side when `turn` is to move.
pub open spec fn side_color(s: EgtSide, turn: Color) -> Color {
    match s {
        EgtSide::SideToMove => turn,
        EgtSide::SideNotToMove => opposite(turn),
    }
}

/// The piece of an element when `turn` is to move.
pub open spec fn element_piece(p: PieceSetElement, turn: Color) -> Piece {
    Piece { color: side_color(p.side, turn), role: board_role(p.role) }
}

/// Square `sq` of the position holds a piece of element `p` (a pawn on its file).
pub open spec fn holds_element(pos: BoardPosition, sq: int, p: PieceSetElement) -> bool {
    &&& pos.squares@[sq] == Some(element_piece(p, pos.turn))
    &&& p.role is Pawn ==> sq % 8 == role_index(p.role)
}

/// The en passant target square of the positions of an option (given by the
/// square of its pawn on the fifth rank) with `turn` to move.
pub open spec fn option_ep_square(square: Option<u64>, turn: Color) -> Option<u8> {
    match square {
        Some(sq) => Some(((if turn == Color::White { 5u8 } else { 2u8 }) * 8 + sq % 8) as u8),
        None => None,
    }
}

/// The square of each coordinate pair, with ranks counted from the other
/// side of the board when `flip` holds.
pub open spec fn abs_squares(cs: Seq<(u64, u64)>, flip: bool) -> Seq<u64> {
    Seq::new(cs.len(), |i: int| if flip { ((7 - cs[i].0) * 8 + cs[i].1) as u64 } else { (cs[i].0 * 8 + cs[i].1) as u64 })
}

/// The square index of each coordinate pair.
pub open spec fn coord_squares(cs: Seq<(u64, u64)>) -> Seq<u64> {
    Seq::new(cs.len(), |i: int| (cs[i].0 * 8 + cs[i].1) as u64)
}

/// The square of entry `i` holds the piece of element `e`.
pub open spec fn placed(ps: Seq<PieceSetElement>, sqs: Seq<u64>, turn: Color, squares: Seq<Option<Piece>>, e: int, i: int) -> bool {
    squares[sqs[i] as int] == Some(element_piece(ps[e], turn))
}

/// The board `squares` holds the piece of each element on the square of each
/// of its entries, and nothing on the other squares.
pub open spec fn places(ps: Seq<PieceSetElement>, sqs: Seq<u64>, turn: Color, squares: Seq<Option<Piece>>) -> bool {
    &&& squares.len() == 64
    &&& all_below(sqs, 64)
    &&& forall|e: int, i: int| 0 <= e < ps.len() && ps[e].span.0 <= i < ps[e].span.1 ==> #[trigger] placed(ps, sqs, turn, squares, e, i)
    &&& forall|s: int| 0 <= s < 64 && (#[trigger] squares[s]) is Some ==> exists|i: int| 0 <= i < sqs.len() && sqs[i] == s
}

/// Some board places the entries on the squares `sqs` and `shakmaty` accepts
/// it with `turn` to move and en passant square `ep`.
pub open spec fn legal_placement(ps: Seq<PieceSetElement>, sqs: Seq<u64>, turn: Color, ep: Option<u8>) -> bool {
    exists|sq: Seq<Option<Piece>>| #[trigger] places(ps, sqs, turn, sq) && fen_legal_ep(fen_of(sq, turn, ep)) == Some(ep)
}

/// Spans that follow one another and are not empty start at or after
/// their element's position.
proof fn lemma_span_starts(ps: Seq<PieceSetElement>, e: int)
    requires
        0 <= e < ps.len(),
        ps[0].span.0 == 0,
        forall|k: int| 0 <= k < ps.len() ==> (#[trigger] ps[k]).span.1 - ps[k].span.0 == ps[k].multiplicity,
        forall|k: int| 0 <= k < ps.len() ==> 1 <= (#[trigger] ps[k]).multiplicity,
        forall|a: int, b: int| #![trigger ps[a], ps[b]] 0 <= a && b == a + 1 && b < ps.len() ==> ps[a].span.1 == ps[b].span.0,
    ensures
        ps[e].span.0 >= e,
    decreases e,
{
    if e > 0 {
        lemma_span_starts(ps, e - 1);
        assert(ps[e - 1].span.1 == ps[e].span.0);
    }
}

/// A board is determined by the squares of the entries when the spans of the
/// elements cover all of them.
proof fn lemma_places_unique(ps: Seq<PieceSetElement>, sqs: Seq<u64>, turn: Color, a: Seq<Option<Piece>>, b: Seq<Option<Piece>>, n: int, np: int, nup: int)
    requires
        places(ps, sqs, turn, a),
        places(ps, sqs, turn, b),
        sqs.len() == n,
        elements_ok(ps, n, np, nup),
    ensures
        a == b,
{
    assert forall|s: int| 0 <= s < 64 implies a[s] == b[s] by {
        if a[s] is Some || b[s] is Some {
            let i = if a[s] is Some {
                choose|i: int| 0 <= i < sqs.len() && sqs[i] == s
            } else {
                choose|i: int| 0 <= i < sqs.len() && sqs[i] == s
            };
            assert(0 <= i < n && sqs[i] == s);
            lemma_spans_cover(ps, n, np, nup, i);
            let k = choose|k: int| 0 <= k < ps.len() && (#[trigger] ps[k]).span.0 <= i < ps[k].span.1;
            assert(placed(ps, sqs, turn, a, k, i));
            assert(placed(ps, sqs, turn, b, k, i));
        }
    }
    assert(a =~= b);
}

/// The squares of the pieces of a pawnless table from its compacted indexes
/// `b`: the number of the king pair gives the two king squares (the second
/// one compacted), then each index skips the squares taken before it.
pub open spec fn pawnless_squares(from: Seq<(u64, u64)>, b: Seq<u64>) -> Seq<u64> {
    uncompact(kings_unmapped(from, b))
}

/// The compacted indexes with the number of the king pair replaced by the
/// two king squares (the second one compacted).
pub open spec fn kings_unmapped(from: Seq<(u64, u64)>, b: Seq<u64>) -> Seq<u64> {
    b.update(0, from[b[0] as int].0).update(1, from[b[0] as int].1)
}

impl Indexer {
    /// `p` is the position, with `p.turn` to move, that `index` stands for
    /// in this pawnless table: the groups that the index numbers put the
    /// pieces of each element on their squares, there is no en passant square,
    /// and `shakmaty` accepts the position.
    pub open spec fn decodes_pawnless(&self, index: u64, p: BoardPosition) -> bool {
        exists|b: Seq<u64>| #[trigger] self.decodes_with(index, p, b)
    }

    /// `p` is the position that `index` stands for, through the compacted
    /// indexes `b` of its groups (see `decodes_pawnless`).
    pub open spec fn decodes_with(&self, index: u64, p: BoardPosition, b: Seq<u64>) -> bool {
        &&& b.len() == self.n_pieces
        &&& valid_cpidx(self.piece_set@, b)
        &&& mixed_index(self.piece_set@, b, self.piece_set@.len() as int) == index
        &&& index < self.index_range
        &&& places(self.piece_set@, pawnless_squares(self.kings_map_from_index@, b), p.turn, p.squares@)
        &&& p.ep_square is None
        &&& fen_legal_ep(fen_of(p.squares@, p.turn, p.ep_square)) == Some(p.ep_square)
    }
}

/// The number of occupied squares below `k`.
pub open spec fn occupied(pos: BoardPosition, k: int) -> nat
    decreases k,
{
    if k <= 0 {
        0
    } else {
        occupied(pos, k - 1) + (if pos.squares@[k - 1] is Some { 1nat } else { 0nat })
    }
}

/// The squares below `k` that hold a piece of element `p`, in increasing order.
pub open spec fn holding(pos: BoardPosition, p: PieceSetElement, k: int) -> Seq<u64>
    decreases k,
{
    if k <= 0 {
        Seq::empty()
    } else {
        holding(pos, p, k - 1) + (if holds_element(pos, k - 1, p) { seq![(k - 1) as u64] } else { Seq::empty() })
    }
}

proof fn lemma_holding_len_mono(pos: BoardPosition, p: PieceSetElement, a: int, b: int)
    requires
        0 <= a <= b,
    ensures
        holding(pos, p, a).len() <= holding(pos, p, b).len(),
    decreases b - a,
{
    if a < b {
        lemma_holding_len_mono(pos, p, a, b - 1);
    }
}

/// The squares of `holding` are increasing, below `k`, and exactly those
/// that hold a piece of the element.
pub(crate) proof fn lemma_holding(pos: BoardPosition, p: PieceSetElement, k: int)
    requires
        0 <= k <= 64,
    ensures
        forall|x: u64| #[trigger] holding(pos, p, k).contains(x) <==> (x < k && holds_element(pos, x as int, p)),
        forall|a: int, b: int| 0 <= a < b < holding(pos, p, k).len() ==> holding(pos, p, k)[a] < holding(pos, p, k)[b],
        forall|a: int| 0 <= a < holding(pos, p, k).len() ==> holding(pos, p, k)[a] < k,
    decreases k,
{
    if k > 0 {
        lemma_holding(pos, p, k - 1);
        let h = holding(pos, p, k - 1);
        let t = holding(pos, p, k);
        if holds_element(pos, k - 1, p) {
            assert(t == h.push((k - 1) as u64));
            assert forall|x: u64| #[trigger] t.contains(x) <==> (x < k && holds_element(pos, x as int, p)) by {
                if x == k - 1 {
                    assert(t[h.len() as int] == x);
                } else if t.contains(x) {
                    let i = choose|i: int| 0 <= i < t.len() && t[i] == x;
                    assert(h[i] == x);
                    assert(h.contains(x));
                } else if x < k - 1 && holds_element(pos, x as int, p) {
                    assert(h.contains(x));
                    let i = choose|i: int| 0 <= i < h.len() && h[i] == x;
                    assert(t[i] == x);
                }
            }
        } else {
            assert(t =~= h);
        }
    }
}

/// Two strictly decreasing sequences with the same values are equal.
proof fn lemma_sorted_set_equal(a: Seq<u64>, b: Seq<u64>)
    requires
        strictly_decreasing(a),
        strictly_decreasing(b),
        forall|x: u64| a.contains(x) <==> b.contains(x),
    ensures
        a == b,
    decreases a.len(),
{
    if a.len() == 0 {
        if b.len() > 0 {
            assert(b.contains(b[0]));
        }
        assert(a =~= b);
    } else {
        assert(a.contains(a[0]));
        assert(b.len() > 0);
        assert(b.contains(b[0]));
        let ia = choose|i: int| 0 <= i < b.len() && b[i] == a[0];
        let ib = choose|i: int| 0 <= i < a.len() && a[i] == b[0];
        if ia > 0 {
            assert(b[0] > b[ia]);
        }
        if ib > 0 {
            assert(a[0] > a[ib]);
        }
        assert(a[0] == b[0]);
        let ra = a.drop_first();
        let rb = b.drop_first();
        assert forall|x: u64| ra.contains(x) <==> rb.contains(x) by {
            if ra.contains(x) {
                let i = choose|i: int| 0 <= i < ra.len() && ra[i] == x;
                assert(a[i + 1] == x);
                assert(a.contains(x));
                let j = choose|j: int| 0 <= j < b.len() && b[j] == x;
                assert(x < a[0]);
                assert(j != 0);
                assert(rb[j - 1] == x);
            }
            if rb.contains(x) {
                let i = choose|i: int| 0 <= i < rb.len() && rb[i] == x;
                assert(b[i + 1] == x);
                assert(b.contains(x));
                let j = choose|j: int| 0 <= j < a.len() && a[j] == x;
                assert(x < b[0]);
                assert(j != 0);
                assert(ra[j - 1] == x);
            }
        }
        lemma_sorted_set_equal(ra, rb);
        assert(a =~= seq![a[0]] + ra);
        assert(b =~= seq![b[0]] + rb);
    }
}

/// Every buffer entry belongs to the span of some element.
proof fn lemma_spans_cover(ps: Seq<PieceSetElement>, n: int, n_pawns: int, nup: int, i: int)
    requires
        elements_ok(ps, n, n_pawns, nup),
        0 <= i < n,
    ensures
        exists|e: int| 0 <= e < ps.len() && (#[trigger] ps[e]).span.0 <= i < ps[e].span.1,
{
    if ps.len() == 0 {
        assert(false);
    }
    let last = ps.len() - 1;
    lemma_spans_cover_upto(ps, n, n_pawns, nup, i, last);
}

proof fn lemma_spans_cover_upto(ps: Seq<PieceSetElement>, n: int, n_pawns: int, nup: int, i: int, e: int)
    requires
        elements_ok(ps, n, n_pawns, nup),
        0 <= e < ps.len(),
        0 <= i < ps[e].span.1,
    ensures
        exists|e2: int| 0 <= e2 <= e && (#[trigger] ps[e2]).span.0 <= i < ps[e2].span.1,
    decreases e,
{
    if i >= ps[e].span.0 {
        assert(ps[e].span.0 <= i < ps[e].span.1);
    } else {
        if e == 0 {
            assert(false);
        }
        assert(ps[e - 1].span.1 == ps[e].span.0);
        lemma_spans_cover_upto(ps, n, n_pawns, nup, i, e - 1);
    }
}

/// The number of values of `s` below `k`.
pub open spec fn count_below(s: Seq<u64>, k: int) -> nat
    decreases s.len(),
{
    if s.len() == 0 {
        0
    } else {
        count_below(s.drop_last(), k) + (if s.last() < k { 1nat } else { 0nat })
    }
}

proof fn lemma_count_below_step(s: Seq<u64>, k: int)
    requires
        all_distinct(s),
        0 <= k < 64,
    ensures
        count_below(s, k + 1) == count_below(s, k) + (if s.contains(k as u64) { 1nat } else { 0nat }),
    decreases s.len(),
{
    if s.len() > 0 {
        let t = s.drop_last();
        let kk = k as u64;
        assert(all_distinct(t));
        lemma_count_below_step(t, k);
        if s.last() == kk {
            if t.contains(kk) {
                let i = choose|i: int| 0 <= i < t.len() && t[i] == kk;
                assert(s[i] == s[s.len() - 1]);
            }
            assert(s[s.len() - 1] == kk);
        } else {
            assert(s.contains(kk) <==> t.contains(kk)) by {
                if s.contains(kk) {
                    let i = choose|i: int| 0 <= i < s.len() && s[i] == kk;
                    assert(i != s.len() - 1);
                    assert(t[i] == kk);
                }
                if t.contains(kk) {
                    let i = choose|i: int| 0 <= i < t.len() && t[i] == kk;
                    assert(s[i] == kk);
                }
            }
        }
    }
}

proof fn lemma_count_below_all(s: Seq<u64>, k: int)
    requires
        all_below(s, k as u64),
        0 <= k <= u64::MAX,
    ensures
        count_below(s, k) == s.len(),
    decreases s.len(),
{
    if s.len() > 0 {
        lemma_count_below_all(s.drop_last(), k);
    }
}

/// The occupied squares are those of a sequence of distinct squares: their
/// number is its length.
proof fn lemma_occupied_count(pos: BoardPosition, sqs: Seq<u64>, k: int)
    requires
        0 <= k <= 64,
        pos.squares@.len() == 64,
        all_distinct(sqs),
        forall|x: int| 0 <= x < 64 ==> (pos.squares@[x] is Some <==> sqs.contains(x as u64)),
    ensures
        occupied(pos, k) == count_below(sqs, k),
    decreases k,
{
    if k > 0 {
        lemma_occupied_count(pos, sqs, k - 1);
        lemma_count_below_step(sqs, k - 1);
    } else {
        lemma_count_below_zero(sqs);
    }
}

proof fn lemma_count_below_zero(s: Seq<u64>)
    ensures
        count_below(s, 0) == 0,
    decreases s.len(),
{
    if s.len() > 0 {
        lemma_count_below_zero(s.drop_last());
    }
}

/// The squares holding an element are those of a sequence of distinct
/// squares: their number is its length.
proof fn lemma_holding_count(pos: BoardPosition, p: PieceSetElement, sqs: Seq<u64>, k: int)
    requires
        0 <= k <= 64,
        all_distinct(sqs),
        forall|x: int| 0 <= x < 64 ==> (holds_element(pos, x, p) <==> sqs.contains(x as u64)),
    ensures
        holding(pos, p, k).len() == count_below(sqs, k),
    decreases k,
{
    if k > 0 {
        lemma_holding_count(pos, p, sqs, k - 1);
        lemma_count_below_step(sqs, k - 1);
    } else {
        lemma_count_below_zero(sqs);
    }
}

/// The pieces of the elements of a pawnless table differ.
proof fn lemma_pawnless_pieces_differ(ps: Seq<PieceSetElement>, turn: Color, e1: int, e2: int)
    requires
        pawnless(ps),
        distinct_entries(ps),
        0 <= e1 < ps.len(),
        0 <= e2 < ps.len(),
        e1 != e2,
    ensures
        element_piece(ps[e1], turn) != element_piece(ps[e2], turn),
{
    assert(!(ps[e1].role is Pawn));
    assert(!(ps[e2].role is Pawn));
    if e1 < e2 {
        assert(!(ps[e1].role == ps[e2].role && ps[e1].side == ps[e2].side));
    } else {
        assert(!(ps[e2].role == ps[e1].role && ps[e2].side == ps[e1].side));
    }
}

/// On a board that `places` distinct squares, a square holds a piece of a
/// pawnless element exactly when it is the square of one of its entries.
proof fn lemma_decoded_holding(
    ps: Seq<PieceSetElement>,
    n: int,
    np: int,
    nup: int,
    sqs: Seq<u64>,
    pos: BoardPosition,
    e: int,
)
    requires
        elements_ok(ps, n, np, nup),
        pawnless(ps),
        distinct_entries(ps),
        sqs.len() == n,
        all_distinct(sqs),
        places(ps, sqs, pos.turn, pos.squares@),
        0 <= e < ps.len(),
    ensures
        forall|x: int| 0 <= x < 64 ==> (holds_element(pos, x, ps[e]) <==> sqs.subrange(
            ps[e].span.0 as int,
            ps[e].span.1 as int,
        ).contains(x as u64)),
{
    let lo = ps[e].span.0 as int;
    let hi = ps[e].span.1 as int;
    assert(element_ok(ps[e], n));
    let g = sqs.subrange(lo, hi);
    assert forall|x: int| 0 <= x < 64 implies (holds_element(pos, x, ps[e]) <==> g.contains(x as u64)) by {
        assert(!(ps[e].role is Pawn));
        if g.contains(x as u64) {
            let k = choose|k: int| 0 <= k < g.len() && g[k] == x as u64;
            assert(placed(ps, sqs, pos.turn, pos.squares@, e, lo + k));
        }
        if holds_element(pos, x, ps[e]) {
            assert(pos.squares@[x] is Some);
            let i = choose|i: int| 0 <= i < sqs.len() && sqs[i] == x;
            lemma_spans_cover(ps, n, np, nup, i);
            let e2 = choose|e2: int| 0 <= e2 < ps.len() && (#[trigger] ps[e2]).span.0 <= i < ps[e2].span.1;
            assert(placed(ps, sqs, pos.turn, pos.squares@, e2, i));
            if e2 != e {
                lemma_pawnless_pieces_differ(ps, pos.turn, e, e2);
            }
            assert(g[i - lo] == x);
        }
    }
}

/// A group of coordinates sorted from the highest, with the same values as
/// the increasing squares `h`, has the squares of the decreasing `t` that
/// holds the same squares as `h`.
proof fn lemma_group_squares_equal(a: Seq<(u64, u64)>, b: Seq<(u64, u64)>, h: Seq<u64>, t: Seq<u64>)
    requires
        same_elements(a, b),
        on_board(a),
        on_board(b),
        coord_squares(a) == h,
        forall|i: int, j: int| 0 <= i < j < h.len() ==> h[i] < h[j],
        sorted_desc(b, 0, b.len() as int),
        strictly_decreasing(t),
        forall|x: u64| h.contains(x) <==> t.contains(x),
    ensures
        coord_squares(b) == t,
{
    assert(a.no_duplicates()) by {
        assert forall|i: int, j: int| 0 <= i < a.len() && 0 <= j < a.len() && i != j implies a[i] != a[j] by {
            if i < j {
                assert(h[i] < h[j]);
            } else {
                assert(h[j] < h[i]);
            }
        }
    }
    assert(b.no_duplicates());
    let sb = coord_squares(b);
    assert(strictly_decreasing(sb)) by {
        assert forall|i: int, j: int| 0 <= i < j < sb.len() implies sb[i] > sb[j] by {
            assert(coord_ge(b[i], b[j]));
            assert(b[i] != b[j]);
            assert(b[i].0 < 8 && b[i].1 < 8 && b[j].0 < 8 && b[j].1 < 8);
        }
    }
    assert forall|x: u64| sb.contains(x) <==> t.contains(x) by {
        if sb.contains(x) {
            let i = choose|i: int| 0 <= i < sb.len() && sb[i] == x;
            assert(b.contains(b[i]));
            assert(a.contains(b[i]));
            let j = choose|j: int| 0 <= j < a.len() && a[j] == b[i];
            assert(h[j] == x);
            assert(h.contains(x));
        }
        if t.contains(x) {
            assert(h.contains(x));
            let j = choose|j: int| 0 <= j < h.len() && h[j] == x;
            assert(a.contains(a[j]));
            assert(b.contains(a[j]));
            let i = choose|i: int| 0 <= i < b.len() && b[i] == a[j];
            assert(sb[i] == x);
        }
    }
    lemma_sorted_set_equal(sb, t);
}

impl Indexer {
    /// What a pawnless position decoded from the compacted indexes `b` is
    /// made of: distinct squares, as many pieces as the table, each element
    /// on the squares of its entries in decreasing order, canonical kings.
    #[verifier::rlimit(50)]
    #[verifier::spinoff_prover]
    proof fn lemma_decoded_facts(&self, pos: BoardPosition, b: Seq<u64>)
        requires
            self.wf(),
            self.n_pawns == 0,
            pos.squares@.len() == 64,
            b.len() == self.n_pieces,
            valid_cpidx(self.piece_set@, b),
            places(self.piece_set@, pawnless_squares(self.kings_map_from_index@, b), pos.turn, pos.squares@),
        ensures
            ({
                let ps = self.piece_set@;
                let n = self.n_pieces as int;
                let from = self.kings_map_from_index@;
                let b1 = kings_unmapped(from, b);
                let sq = pawnless_squares(from, b);
                &&& sq.len() == n
                &&& all_distinct(sq)
                &&& all_below(sq, 64)
                &&& all_below(b1, 0x1_0000_0000)
                &&& b1.len() == n
                &&& compact(sq) == b1
                &&& n >= 2 && ps.len() >= 2
                &&& ps[0].span == (0usize, 1usize) && ps[1].span == (1usize, 2usize)
                &&& b[0] < 462 && b[1] == 0
                &&& b1[0] < 64 && b1[1] < 63
                &&& self.kings_map_to_index@[b1[0] as int]@[b1[1] as int] == b[0]
                &&& occupied(pos, 64) == n
                &&& forall|e: int| 0 <= e < ps.len() ==> (#[trigger] holding(pos, ps[e], 64)).len() == ps[e].span.1 - ps[e].span.0
                &&& forall|e: int, x: u64| 0 <= e < ps.len() ==> (#[trigger] holding(pos, ps[e], 64).contains(x) <==> sq.subrange(
                    ps[e].span.0 as int,
                    ps[e].span.1 as int,
                ).contains(x))
                &&& forall|e: int| 0 <= e < ps.len() ==> strictly_decreasing(sq.subrange((#[trigger] ps[e]).span.0 as int, ps[e].span.1 as int))
                &&& sq[0] / 8 <= 3 && sq[0] % 8 <= 3
                &&& !(sq[0] / 8 > sq[0] % 8 || (sq[0] / 8 == sq[0] % 8 && sq[1] / 8 > sq[1] % 8))
            }),
    {
        reveal(crate::indexer::layout_ok);
        reveal(crate::indexer::kings_ok);
        let ps = self.piece_set@;
        let n = self.n_pieces as int;
        let np = self.n_pawns as int;
        let nup = self.n_unique_pawns as int;
        let from = self.kings_map_from_index@;
        let b1 = kings_unmapped(from, b);
        let sq = pawnless_squares(from, b);
        crate::indexer::lemma_layout_elements(ps, nup, n, np);
        assert(nup == 0);
        assert(pawnless(ps));
        assert(group_valid(ps[0], b));
        assert(group_valid(ps[1], b));
        assert(group_cpidx(ps[0], b)[0] == b[0]);
        assert(group_cpidx(ps[1], b)[0] == b[1]);
        // Every entry of an element's span is in its group, below its squares.
        assert forall|e: int, i: int| #![trigger ps[e], b[i]] 0 <= e < ps.len() && ps[e].span.0 <= i < ps[e].span.1 implies b[i] <= 462
            && group_cpidx(ps[e], b)[i - ps[e].span.0] == b[i] by {
            assert(element_ok(ps[e], n));
            assert(group_valid(ps[e], b));
            let g = group_cpidx(ps[e], b);
            assert(g[i - ps[e].span.0] == b[i]);
            if i > ps[e].span.0 {
                assert(g[0] > g[i - ps[e].span.0]);
            }
        }
        assert(all_below(b1, 0x1_0000_0000)) by {
            assert forall|i: int| 0 <= i < b1.len() implies b1[i] < 0x1_0000_0000 by {
                if i >= 2 {
                    lemma_spans_cover(ps, n, np, nup, i);
                    let e = choose|e: int| 0 <= e < ps.len() && (#[trigger] ps[e]).span.0 <= i < ps[e].span.1;
                    assert(b1[i] == b[i]);
                }
            }
        }
        crate::compaction::lemma_uncompact_len(b1);
        crate::compaction::lemma_uncompact_distinct(b1);
        crate::compaction::lemma_compact_uncompact(b1);
        // The first two squares are the kings.
        let rest = b1.drop_first();
        crate::compaction::lemma_uncompact_len(rest);
        assert(uncompact(rest)[0] == rest[0]);
        assert(sq[0] == b1[0]);
        assert(sq[1] == crate::kings::expand_second(b1[0], b1[1]));
        assert(crate::kings::is_canonical_pair((from[b[0] as int].0, crate::kings::expand_second(from[b[0] as int].0, from[b[0] as int].1))));
        crate::kings::lemma_canonical_coords(sq[0], sq[1]);
        // The squares of each element.
        assert forall|e: int| 0 <= e < ps.len() implies (#[trigger] holding(pos, ps[e], 64)).len() == ps[e].span.1 - ps[e].span.0
            && (forall|x: u64| #[trigger] holding(pos, ps[e], 64).contains(x) <==> sq.subrange(ps[e].span.0 as int, ps[e].span.1 as int).contains(x))
            && strictly_decreasing(sq.subrange(ps[e].span.0 as int, ps[e].span.1 as int)) by {
            assert(element_ok(ps[e], n));
            let g = sq.subrange(ps[e].span.0 as int, ps[e].span.1 as int);
            lemma_decoded_holding(ps, n, np, nup, sq, pos, e);
            lemma_holding(pos, ps[e], 64);
            assert(all_distinct(g));
            assert(all_below(g, 64));
            lemma_holding_count(pos, ps[e], g, 64);
            lemma_count_below_all(g, 64);
            assert forall|x: u64| #[trigger] holding(pos, ps[e], 64).contains(x) <==> g.contains(x) by {
                if g.contains(x) {
                    let k = choose|k: int| 0 <= k < g.len() && g[k] == x;
                    assert(x < 64);
                }
            }
            if e >= 2 {
                assert(ps[1].span.1 <= ps[e].span.0);
                assert forall|a: int, c: int| ps[e].span.0 <= a < c < ps[e].span.1 implies b1[a] > b1[c] by {
                    let gc = group_cpidx(ps[e], b);
                    assert(gc[a - ps[e].span.0] == b[a]);
                    assert(gc[c - ps[e].span.0] == b[c]);
                }
                crate::compaction::lemma_uncompact_decreasing(b1, ps[e].span.0 as int, ps[e].span.1 as int);
            }
        }
        // The occupied squares.
        assert forall|x: int| 0 <= x < 64 implies (pos.squares@[x] is Some <==> sq.contains(x as u64)) by {
            if sq.contains(x as u64) {
                let i = choose|i: int| 0 <= i < sq.len() && sq[i] == x as u64;
                lemma_spans_cover(ps, n, np, nup, i);
                let e = choose|e: int| 0 <= e < ps.len() && (#[trigger] ps[e]).span.0 <= i < ps[e].span.1;
                assert(placed(ps, sq, pos.turn, pos.squares@, e, i));
            }
        }
        lemma_occupied_count(pos, sq, 64);
        lemma_count_below_all(sq, 64);
        assert(sq.len() == n);
        assert(all_distinct(sq));
        assert(all_below(sq, 64));
        assert(b1.len() == n);
        assert(compact(sq) == b1);
        assert(n >= 2 && ps.len() >= 2);
        assert(ps[0].span == (0usize, 1usize) && ps[1].span == (1usize, 2usize));
        assert(b[0] < 462 && b[1] == 0);
        assert(b1[0] < 64 && b1[1] < 63);
        assert(self.kings_map_to_index@[b1[0] as int]@[b1[1] as int] == b[0]);
        assert(occupied(pos, 64) == n);
        assert forall|e: int| 0 <= e < ps.len() implies strictly_decreasing(sq.subrange((#[trigger] ps[e]).span.0 as int, ps[e].span.1 as int)) by {
            assert(holding(pos, ps[e], 64).len() == ps[e].span.1 - ps[e].span.0);
        }
        assert forall|e: int, x: u64| 0 <= e < ps.len() implies (#[trigger] holding(pos, ps[e], 64).contains(x) <==> sq.subrange(
            ps[e].span.0 as int,
            ps[e].span.1 as int,
        ).contains(x)) by {
            assert(holding(pos, ps[e], 64).len() == ps[e].span.1 - ps[e].span.0);
        }
        assert(sq[0] / 8 <= 3 && sq[0] % 8 <= 3);
    }
}

impl Indexer {
    /// The coordinates read from a decoded pawnless position are already
    /// reduced by the symmetries of the board.
    proof fn lemma_decoded_reduced(&self, pos: BoardPosition, a: Seq<(u64, u64)>, b: Seq<u64>)
        requires
            self.wf(),
            self.n_pawns == 0,
            pos.squares@.len() == 64,
            b.len() == self.n_pieces,
            valid_cpidx(self.piece_set@, b),
            places(self.piece_set@, pawnless_squares(self.kings_map_from_index@, b), pos.turn, pos.squares@),
            a.len() == self.n_pieces,
            on_board(a),
            forall|e: int| 0 <= e < self.piece_set@.len() ==> coord_squares(a).subrange(
                (#[trigger] self.piece_set@[e]).span.0 as int,
                self.piece_set@[e].span.1 as int,
            ) == holding(pos, self.piece_set@[e], 64),
        ensures
            reduce_all(a) == a,
    {
        self.lemma_decoded_facts(pos, b);
        let ps = self.piece_set@;
        let sq = pawnless_squares(self.kings_map_from_index@, b);
        assert forall|k: int| 0 <= k < 2 implies a[k] == (sq[k] / 8, sq[k] % 8) by {
            let h = holding(pos, ps[k], 64);
            assert(coord_squares(a).subrange(ps[k].span.0 as int, ps[k].span.1 as int) == h);
            assert(h.len() == 1);
            assert(sq.subrange(k, k + 1).contains(sq[k])) by {
                assert(sq.subrange(k, k + 1)[0] == sq[k]);
            }
            assert(h.contains(sq[k]));
            assert(h[0] == sq[k]);
            assert(coord_squares(a)[k] == sq[k]);
            assert(a[k].0 < 8 && a[k].1 < 8);
        }
    }

    /// The coordinates read from a decoded pawnless position, sorted within
    /// each element, are the squares of the decoded entries.
    proof fn lemma_decoded_sorted(&self, pos: BoardPosition, a: Seq<(u64, u64)>, c: Seq<(u64, u64)>, b: Seq<u64>)
        requires
            self.wf(),
            self.n_pawns == 0,
            pos.squares@.len() == 64,
            b.len() == self.n_pieces,
            valid_cpidx(self.piece_set@, b),
            places(self.piece_set@, pawnless_squares(self.kings_map_from_index@, b), pos.turn, pos.squares@),
            a.len() == self.n_pieces,
            c.len() == self.n_pieces,
            on_board(a),
            on_board(c),
            forall|e: int| 0 <= e < self.piece_set@.len() ==> coord_squares(a).subrange(
                (#[trigger] self.piece_set@[e]).span.0 as int,
                self.piece_set@[e].span.1 as int,
            ) == holding(pos, self.piece_set@[e], 64),
            forall|e: int| 0 <= e < self.piece_set@.len() ==> sorted_desc(c,
                (#[trigger] self.piece_set@[e]).span.0 as int, self.piece_set@[e].span.1 as int),
            forall|e: int| 0 <= e < self.piece_set@.len() ==> same_elements(
                a.subrange((#[trigger] self.piece_set@[e]).span.0 as int, self.piece_set@[e].span.1 as int),
                c.subrange(self.piece_set@[e].span.0 as int, self.piece_set@[e].span.1 as int),
            ),
        ensures
            coord_squares(c) == pawnless_squares(self.kings_map_from_index@, b),
    {
        self.lemma_decoded_facts(pos, b);
        reveal(crate::indexer::layout_ok);
        let ps = self.piece_set@;
        let n = self.n_pieces as int;
        let sq = pawnless_squares(self.kings_map_from_index@, b);
        crate::indexer::lemma_layout_elements(ps, self.n_unique_pawns as int, n, self.n_pawns as int);
        assert forall|e: int| 0 <= e < ps.len() implies coord_squares(c).subrange(
            (#[trigger] ps[e]).span.0 as int,
            ps[e].span.1 as int,
        ) == sq.subrange(ps[e].span.0 as int, ps[e].span.1 as int) by {
            assert(element_ok(ps[e], n));
            let lo = ps[e].span.0 as int;
            let hi = ps[e].span.1 as int;
            let asub = a.subrange(lo, hi);
            let csub = c.subrange(lo, hi);
            let h = holding(pos, ps[e], 64);
            lemma_holding(pos, ps[e], 64);
            assert(coord_squares(asub) =~= coord_squares(a).subrange(lo, hi));
            assert(coord_squares(csub) =~= coord_squares(c).subrange(lo, hi));
            assert(on_board(asub));
            assert(on_board(csub));
            assert(sorted_desc(csub, 0, csub.len() as int)) by {
                assert forall|x: int, y: int| 0 <= x < y < csub.len() implies coord_ge(#[trigger] csub[x], #[trigger] csub[y]) by {
                    assert(coord_ge(c[lo + x], c[lo + y]));
                }
            }
            assert(forall|x: u64| h.contains(x) <==> sq.subrange(lo, hi).contains(x));
            lemma_group_squares_equal(asub, csub, h, sq.subrange(lo, hi));
        }
        assert forall|i: int| 0 <= i < n implies coord_squares(c)[i] == sq[i] by {
            lemma_spans_cover(ps, n, self.n_pawns as int, self.n_unique_pawns as int, i);
            let e = choose|e: int| 0 <= e < ps.len() && (#[trigger] ps[e]).span.0 <= i < ps[e].span.1;
            let lo = ps[e].span.0 as int;
            assert(coord_squares(c).subrange(lo, ps[e].span.1 as int)[i - lo] == sq.subrange(lo, ps[e].span.1 as int)[i - lo]);
        }
        assert(coord_squares(c) =~= sq);
    }
}

/// The entries of pawn element `p` went from their indexes in `0..6` in `b0`
/// to the square indexes (rank from the side to move, and file) in `buf`,
/// with their coordinates in `coords`.
pub open spec fn pawn_converted(p: PieceSetElement, b0: Seq<u64>, buf: Seq<u64>, coords: Seq<(u64, u64)>) -> bool {
    forall|k: int|
        p.span.0 <= k < p.span.1 ==> b0[k] < 7 && #[trigger] buf[k] == (b0[k] + 1) * 8 + role_index(p.role) && coords[k] == (
            (b0[k] + 1) as u64,
            role_index(p.role) as u64,
        )
}

/// Elements `e - 1` and `e` are the pawns of both sides of one file.
pub open spec fn file_pair(ps: Seq<PieceSetElement>, nup: int, e: int) -> bool {
    1 <= e < nup && ps[e - 1].role == ps[e].role
}

/// Entry `i` belongs to the pawns of a file pair before `upto`.
pub open spec fn in_file_pair(ps: Seq<PieceSetElement>, nup: int, i: int, upto: int) -> bool {
    exists|e: int| #![trigger file_pair(ps, nup, e)] e < upto && file_pair(ps, nup, e) && ps[e - 1].span.0 <= i < ps[e].span.1
}

/// `new` is `old` with the entries of each file pair before `upto` replaced
/// by `f` of them.
pub open spec fn pairs_mapped(
    ps: Seq<PieceSetElement>,
    nup: int,
    old: Seq<u64>,
    new: Seq<u64>,
    upto: int,
    f: spec_fn(Seq<u64>) -> Seq<u64>,
) -> bool {
    &&& new.len() == old.len()
    &&& forall|e: int| e < upto && #[trigger] file_pair(ps, nup, e) ==> new.subrange(ps[e - 1].span.0 as int, ps[e].span.1 as int)
        == f(old.subrange(ps[e - 1].span.0 as int, ps[e].span.1 as int))
    &&& forall|i: int| 0 <= i < old.len() && !in_file_pair(ps, nup, i, upto) ==> new[i] == old[i]
}

/// No three consecutive elements share a role.
proof fn lemma_no_triple(ps: Seq<PieceSetElement>, a: int)
    requires
        distinct_entries(ps),
        0 <= a,
        a + 2 < ps.len(),
    ensures
        !(ps[a].role == ps[a + 1].role && ps[a + 1].role == ps[a + 2].role),
{
    assert(!(ps[a].role == ps[a + 1].role && ps[a].side == ps[a + 1].side));
    assert(!(ps[a + 1].role == ps[a + 2].role && ps[a + 1].side == ps[a + 2].side));
    assert(!(ps[a].role == ps[a + 2].role && ps[a].side == ps[a + 2].side));
}

/// The entries of two file pairs do not overlap.
proof fn lemma_file_pairs_apart(ps: Seq<PieceSetElement>, n: int, np: int, nup: int, e1: int, e2: int)
    requires
        elements_ok(ps, n, np, nup),
        distinct_entries(ps),
        file_pair(ps, nup, e1),
        file_pair(ps, nup, e2),
        e1 < e2,
    ensures
        ps[e1].span.1 <= ps[e2 - 1].span.0,
{
    if e1 == e2 - 1 {
        lemma_no_triple(ps, e1 - 1);
    } else {
        assert(ps[e1].span.1 <= ps[e2 - 1].span.0);
    }
}

/// Maps the entries of the file pair `e` by `f`, extending `pairs_mapped`.
#[verifier::rlimit(30)]
#[verifier::spinoff_prover]
proof fn lemma_pairs_mapped_step(
    ps: Seq<PieceSetElement>,
    n: int,
    np: int,
    nup: int,
    b0: Seq<u64>,
    cur: Seq<u64>,
    next: Seq<u64>,
    e: int,
    f: spec_fn(Seq<u64>) -> Seq<u64>,
)
    requires
        elements_ok(ps, n, np, nup),
        distinct_entries(ps),
        b0.len() == n,
        pairs_mapped(ps, nup, b0, cur, e, f),
        1 <= e,
        file_pair(ps, nup, e) ==> next == cur.subrange(0, ps[e - 1].span.0 as int) + f(cur.subrange(ps[e - 1].span.0 as int, ps[e].span.1 as int))
            + cur.subrange(ps[e].span.1 as int, n),
        file_pair(ps, nup, e) ==> f(cur.subrange(ps[e - 1].span.0 as int, ps[e].span.1 as int)).len() == ps[e].span.1 - ps[e - 1].span.0,
        !file_pair(ps, nup, e) ==> next == cur,
    ensures
        pairs_mapped(ps, nup, b0, next, e + 1, f),
{
    if file_pair(ps, nup, e) {
        let lo = ps[e - 1].span.0 as int;
        let hi = ps[e].span.1 as int;
        assert(element_ok(ps[e - 1], n));
        assert(element_ok(ps[e], n));
        assert(ps[e - 1].span.1 <= ps[e].span.0);
        // The entries of this pair were not touched before.
        assert forall|i: int| lo <= i < hi implies cur[i] == b0[i] by {
            if in_file_pair(ps, nup, i, e) {
                let e1 = choose|e1: int| #![trigger file_pair(ps, nup, e1)] e1 < e && file_pair(ps, nup, e1) && ps[e1 - 1].span.0 <= i < ps[e1].span.1;
                lemma_file_pairs_apart(ps, n, np, nup, e1, e);
            }
        }
        assert(cur.subrange(lo, hi) =~= b0.subrange(lo, hi));
        assert forall|e1: int| e1 < e + 1 && #[trigger] file_pair(ps, nup, e1) implies next.subrange(ps[e1 - 1].span.0 as int, ps[e1].span.1 as int)
            == f(b0.subrange(ps[e1 - 1].span.0 as int, ps[e1].span.1 as int)) by {
            if e1 < e {
                lemma_file_pairs_apart(ps, n, np, nup, e1, e);
                assert(element_ok(ps[e1 - 1], n));
                assert(element_ok(ps[e1], n));
                assert(next.subrange(ps[e1 - 1].span.0 as int, ps[e1].span.1 as int) =~= cur.subrange(ps[e1 - 1].span.0 as int, ps[e1].span.1 as int));
            } else {
                assert(next.subrange(lo, hi) =~= f(cur.subrange(lo, hi)));
            }
        }
        assert forall|i: int| 0 <= i < b0.len() && !in_file_pair(ps, nup, i, e + 1) implies next[i] == b0[i] by {
            if lo <= i < hi {
                assert(file_pair(ps, nup, e));
                assert(in_file_pair(ps, nup, i, e + 1));
            }
            if in_file_pair(ps, nup, i, e) {
                let e1 = choose|e1: int| #![trigger file_pair(ps, nup, e1)] e1 < e && file_pair(ps, nup, e1) && ps[e1 - 1].span.0 <= i < ps[e1].span.1;
                assert(in_file_pair(ps, nup, i, e + 1));
            }
        }
    } else {
        assert forall|i: int| 0 <= i < b0.len() && !in_file_pair(ps, nup, i, e + 1) implies next[i] == b0[i] by {
            if in_file_pair(ps, nup, i, e) {
                let e1 = choose|e1: int| #![trigger file_pair(ps, nup, e1)] e1 < e && file_pair(ps, nup, e1) && ps[e1 - 1].span.0 <= i < ps[e1].span.1;
                assert(in_file_pair(ps, nup, i, e + 1));
            }
        }
        assert forall|e1: int| e1 < e + 1 && #[trigger] file_pair(ps, nup, e1) implies next.subrange(ps[e1 - 1].span.0 as int, ps[e1].span.1 as int)
            == f(b0.subrange(ps[e1 - 1].span.0 as int, ps[e1].span.1 as int)) by {
            assert(e1 != e);
        }
    }
}

/// Compacting again the entries of the file pairs that were uncompacted
/// gives the entries back.
proof fn lemma_pairs_inverse(ps: Seq<PieceSetElement>, n: int, np: int, nup: int, b: Seq<u64>, c: Seq<u64>, fin: Seq<u64>)
    requires
        elements_ok(ps, n, np, nup),
        b.len() == n,
        all_below(b, 0x1_0000_0000),
        pairs_mapped(ps, nup, b, c, nup, |s: Seq<u64>| uncompact(s)),
        pairs_mapped(ps, nup, c, fin, nup, |s: Seq<u64>| compact(s)),
    ensures
        fin == b,
{
    assert forall|i: int| 0 <= i < n implies fin[i] == b[i] by {
        if in_file_pair(ps, nup, i, nup) {
            let e = choose|e: int| #![trigger file_pair(ps, nup, e)] e < nup && file_pair(ps, nup, e) && ps[e - 1].span.0 <= i < ps[e].span.1;
            let lo = ps[e - 1].span.0 as int;
            let hi = ps[e].span.1 as int;
            assert(element_ok(ps[e - 1], n));
            assert(element_ok(ps[e], n));
            let bs = b.subrange(lo, hi);
            assert(c.subrange(lo, hi) == uncompact(bs));
            assert(fin.subrange(lo, hi) == compact(c.subrange(lo, hi)));
            crate::compaction::lemma_compact_uncompact(bs);
            assert(fin.subrange(lo, hi)[i - lo] == bs[i - lo]);
        }
    }
    assert(fin =~= b);
}

/// The spans of the pawn elements end where the pawns end.
proof fn lemma_pawn_spans(ps: Seq<PieceSetElement>, n: int, np: int, nup: int)
    requires
        elements_ok(ps, n, np, nup),
        0 <= np,
    ensures
        nup > 0 ==> ps[nup - 1].span.1 == np,
        nup == 0 ==> np == 0,
{
    if nup > 0 {
        assert(ps[nup - 1].span.1 <= np);
        if nup < ps.len() {
            assert(ps[nup - 1].span.1 == ps[nup].span.0);
        }
    } else if ps.len() > 0 {
        assert(np <= ps[0].span.0);
    } else {
        assert(n == 0);
    }
}

/// The entry left for the pawn that can be taken en passant (when the
/// element has one) holds the element's number of squares.
pub open spec fn slot_set(p: PieceSetElement, buf: Seq<u64>) -> bool {
    p.span.1 - p.span.0 > p.multiplicity ==> buf[p.span.0 as int] == p.n_squares
}

/// `slot_set` for the elements of `lo..hi`.
pub open spec fn slots_set(ps: Seq<PieceSetElement>, buf: Seq<u64>, lo: int, hi: int) -> bool {
    forall|e: int| lo <= e < hi ==> slot_set(#[trigger] ps[e], buf)
}

/// The entries of pawn element `p` hold in `d` the square indexes (rank from
/// the side to move) of the pawns whose indexes in `0..6` are in `c`.
pub open spec fn pawn_square_entries(p: PieceSetElement, c: Seq<u64>, d: Seq<u64>) -> bool {
    forall|k: int| p.span.0 <= k < p.span.1 ==> (#[trigger] c[k]) < 7 && d[k] == (c[k] + 1) * 8 + role_index(p.role)
}

/// `d` is `c` with the indexes in `0..6` of the pawns replaced by their square indexes.
pub open spec fn pawn_squares_of(ps: Seq<PieceSetElement>, nup: int, np: int, c: Seq<u64>, d: Seq<u64>) -> bool {
    &&& d.len() == c.len()
    &&& forall|e: int| 0 <= e < nup ==> pawn_square_entries(#[trigger] ps[e], c, d)
    &&& forall|k: int| np <= k < c.len() ==> #[trigger] d[k] == c[k]
}

/// The squares, ranks counted from the side to move, of the pieces of a
/// table with pawns, given the squares `d` of its pawns: every other index
/// skips the squares taken before it.
pub open spec fn pawn_table_squares(np: int, d: Seq<u64>) -> Seq<u64> {
    uncompact(compact(d.subrange(0, np)) + d.subrange(np, d.len() as int))
}

/// The squares with their ranks counted from the other side when `flip` holds.
pub open spec fn flip_squares(s: Seq<u64>, flip: bool) -> Seq<u64> {
    Seq::new(s.len(), |i: int| if flip { ((7 - s[i] / 8) * 8 + s[i] % 8) as u64 } else { s[i] })
}

/// The pawn elements of one file come one after the other.
pub open spec fn files_grouped(ps: Seq<PieceSetElement>, nup: int) -> bool {
    forall|a: int, b: int| 0 <= a < b < nup && (#[trigger] ps[a]).role == (#[trigger] ps[b]).role ==> b == a + 1
}

/// A valid group with its en passant entry is strictly decreasing over the
/// element's whole span.
proof fn lemma_span_decreasing(p: PieceSetElement, b: Seq<u64>, n: int)
    requires
        element_ok(p, n),
        b.len() == n,
        group_valid(p, b),
        slot_set(p, b),
    ensures
        forall|x: int, y: int| p.span.0 <= x < y < p.span.1 ==> b[x] > b[y],
{
    let lo = p.span.1 - p.multiplicity;
    let g = group_cpidx(p, b);
    assert forall|x: int, y: int| p.span.0 <= x < y < p.span.1 implies b[x] > b[y] by {
        assert(g[y - lo] == b[y]);
        if x >= lo {
            assert(g[x - lo] == b[x]);
        } else {
            assert(x == p.span.0);
            assert(g[0] == b[lo]);
            if y > lo {
                assert(g[0] > g[y - lo]);
            }
        }
    }
}

/// Entry `k` of a pair of file elements `q` (elements `q - 1` and `q`).
pub open spec fn in_pair_segment(ps: Seq<PieceSetElement>, q: int, k: int) -> bool {
    ps[q - 1].span.0 <= k < ps[q].span.1
}

/// The pawns of a table whose pawn elements of one file come one after the
/// other stand on distinct squares.
#[verifier::rlimit(80)]
#[verifier::spinoff_prover]
proof fn lemma_pawn_squares_distinct(
    ps: Seq<PieceSetElement>,
    n: int,
    np: int,
    nup: int,
    b: Seq<u64>,
    c: Seq<u64>,
    d: Seq<u64>,
)
    requires
        elements_ok(ps, n, np, nup),
        distinct_entries(ps),
        files_grouped(ps, nup),
        0 <= np,
        b.len() == n,
        all_below(b, 463),
        valid_cpidx(ps, b),
        slots_set(ps, b, 0, ps.len() as int),
        pairs_mapped(ps, nup, b, c, nup, |s: Seq<u64>| uncompact(s)),
        pawn_squares_of(ps, nup, np, c, d),
    ensures
        all_distinct(d.subrange(0, np)),
{
    let ds = d.subrange(0, np);
    assert forall|i: int, j: int| 0 <= i < j < ds.len() implies ds[i] != ds[j] by {
        lemma_spans_cover(ps, n, np, nup, i);
        lemma_spans_cover(ps, n, np, nup, j);
        let ei = choose|e: int| 0 <= e < ps.len() && (#[trigger] ps[e]).span.0 <= i < ps[e].span.1;
        let ej = choose|e: int| 0 <= e < ps.len() && (#[trigger] ps[e]).span.0 <= j < ps[e].span.1;
        assert(ei < nup) by {
            if ei >= nup {
                assert(np <= ps[ei].span.0);
            }
        }
        assert(ej < nup) by {
            if ej >= nup {
                assert(np <= ps[ej].span.0);
            }
        }
        assert(pawn_square_entries(ps[ei], c, d));
        assert(pawn_square_entries(ps[ej], c, d));
        assert(c[i] < 7 && d[i] == (c[i] + 1) * 8 + role_index(ps[ei].role));
        assert(c[j] < 7 && d[j] == (c[j] + 1) * 8 + role_index(ps[ej].role));
        let fi = role_index(ps[ei].role);
        let fj = role_index(ps[ej].role);
        assert(ps[ei].role is Pawn && ps[ej].role is Pawn);
        assert(fi < 8 && fj < 8);
        if fi != fj {
            assert(((c[i] + 1) * 8 + fi) % 8 == fi);
            assert(((c[j] + 1) * 8 + fj) % 8 == fj);
        } else {
            crate::piece_set::lemma_role_index_injective(ps[ei].role, ps[ej].role);
            if c[i] == c[j] {
                lemma_same_file_index_differ(ps, n, np, nup, b, c, i, j, ei, ej);
            }
        }
    }
}

/// Two entries of pawn elements of the same file have different indexes in
/// `0..6` after the pawns of the file are uncompacted together.
#[verifier::rlimit(80)]
#[verifier::spinoff_prover]
proof fn lemma_same_file_index_differ(
    ps: Seq<PieceSetElement>,
    n: int,
    np: int,
    nup: int,
    b: Seq<u64>,
    c: Seq<u64>,
    i: int,
    j: int,
    ei: int,
    ej: int,
)
    requires
        elements_ok(ps, n, np, nup),
        distinct_entries(ps),
        files_grouped(ps, nup),
        b.len() == n,
        all_below(b, 463),
        valid_cpidx(ps, b),
        slots_set(ps, b, 0, ps.len() as int),
        pairs_mapped(ps, nup, b, c, nup, |s: Seq<u64>| uncompact(s)),
        0 <= i < j,
        0 <= ei < nup,
        0 <= ej < nup,
        ps[ei].span.0 <= i < ps[ei].span.1,
        ps[ej].span.0 <= j < ps[ej].span.1,
        ps[ei].role == ps[ej].role,
    ensures
        c[i] != c[j],
{
    let f = |s: Seq<u64>| uncompact(s);
    if in_file_pair(ps, nup, i, nup) {
        let q = choose|q: int| #![trigger file_pair(ps, nup, q)] q < nup && file_pair(ps, nup, q) && ps[q - 1].span.0 <= i < ps[q].span.1;
        assert(ps[q - 1].span.1 == ps[q].span.0);
        // Entry `i` is in element `q - 1` or `q`, and so is entry `j`.
        assert(ei == q - 1 || ei == q) by {
            if ei < q - 1 {
                assert(ps[ei].span.1 <= ps[q - 1].span.0);
            } else if ei > q {
                assert(ps[q].span.1 <= ps[ei].span.0);
            }
        }
        assert(ej == q - 1 || ej == q) by {
            if ej < q - 1 {
                assert(ps[ej].role == ps[q - 1].role);
            } else if ej > q {
                assert(ps[q].role == ps[ej].role);
            }
        }
        let lo = ps[q - 1].span.0 as int;
        let hi = ps[q].span.1 as int;
        assert(element_ok(ps[q - 1], n));
        assert(element_ok(ps[q], n));
        assert(ps[ej].span.1 <= hi);
        let seg = b.subrange(lo, hi);
        assert(c.subrange(lo, hi) == f(seg));
        assert(all_below(seg, 0x1_0000_0000)) by {
            assert forall|k: int| 0 <= k < seg.len() implies seg[k] < 0x1_0000_0000 by {
                assert(seg[k] == b[lo + k]);
            }
        }
        crate::compaction::lemma_uncompact_distinct(seg);
        assert(c.subrange(lo, hi)[i - lo] == c[i]);
        assert(c.subrange(lo, hi)[j - lo] == c[j]);
    } else {
        if ei != ej {
            let q = if ei < ej { ej } else { ei };
            if ei < ej {
                assert(ej == ei + 1);
            } else {
                assert(ei == ej + 1);
            }
            assert(file_pair(ps, nup, q));
            assert(ps[q - 1].span.1 <= ps[q].span.0);
            assert(in_file_pair(ps, nup, i, nup));
        }
        assert(!in_file_pair(ps, nup, j, nup)) by {
            if in_file_pair(ps, nup, j, nup) {
                let q = choose|q: int| #![trigger file_pair(ps, nup, q)] q < nup && file_pair(ps, nup, q) && ps[q - 1].span.0 <= j < ps[q].span.1;
                assert(ps[q - 1].span.1 == ps[q].span.0);
                assert(ej == q - 1 || ej == q) by {
                    if ej < q - 1 {
                        assert(ps[ej].span.1 <= ps[q - 1].span.0);
                    } else if ej > q {
                        assert(ps[q].span.1 <= ps[ej].span.0);
                    }
                }
                assert(ps[q - 1].span.0 <= i);
                assert(in_file_pair(ps, nup, i, nup));
            }
        }
        assert(c[i] == b[i]);
        assert(c[j] == b[j]);
        assert(element_ok(ps[ei], n));
        assert(group_valid(ps[ei], b));
        assert(slot_set(ps[ei], b));
        lemma_span_decreasing(ps[ei], b, n);
    }
}

impl Indexer {
    /// `p` is the position that `index` stands for in this table (see
    /// `decodes_pawnless` and `decodes_pawns`).
    pub open spec fn decodes(&self, index: u64, p: BoardPosition) -> bool {
        if self.n_pawns == 0 {
            self.decodes_pawnless(index, p)
        } else {
            self.decodes_pawns(index, p)
        }
    }

    /// `p` is the position, with `p.turn` to move, that `index` stands for
    /// in this table with pawns: the groups that the index numbers, with the
    /// pawns of each file uncompacted together, put the pieces of each
    /// element on their squares (ranks counted from the side to move), the en
    /// passant square is that of the index's option, and `shakmaty` accepts
    /// the position.
    pub open spec fn decodes_pawns(&self, index: u64, p: BoardPosition) -> bool {
        exists|o: EnpassantOption, b: Seq<u64>, c: Seq<u64>, d: Seq<u64>| #[trigger] self.decodes_pawns_with(index, p, o, b, c, d)
    }

    /// `p` is the position that `index` stands for through the option `o`,
    /// the compacted indexes `b` of its groups, the indexes `c` of its pawns
    /// in `0..6` and the square indexes `d` of its pawns (see `decodes_pawns`).
    pub open spec fn decodes_pawns_with(
        &self,
        index: u64,
        p: BoardPosition,
        o: EnpassantOption,
        b: Seq<u64>,
        c: Seq<u64>,
        d: Seq<u64>,
    ) -> bool {
        let ps = with_ep_option(self.piece_set@, o);
        let nup = self.n_unique_pawns as int;
        let np = self.n_pawns as int;
        &&& self.ep_options@.contains(o)
        &&& o.range_start <= index < o.range_end
        &&& b.len() == self.n_pieces
        &&& all_below(b, 463)
        &&& valid_cpidx(ps, b)
        &&& slots_set(ps, b, 0, ps.len() as int)
        &&& mixed_index(ps, b, ps.len() as int) == index - o.range_start
        &&& pairs_mapped(ps, nup, b, c, nup, |s: Seq<u64>| uncompact(s))
        &&& pawn_squares_of(ps, nup, np, c, d)
        &&& all_distinct(d.subrange(0, np))
        &&& all_below(pawn_table_squares(np, d), 64)
        &&& places(ps, flip_squares(pawn_table_squares(np, d), np > 0 && p.turn == Color::Black), p.turn, p.squares@)
        &&& p.ep_square == option_ep_square(o.square, p.turn)
        &&& fen_legal_ep(fen_of(p.squares@, p.turn, p.ep_square)) == Some(p.ep_square)
    }

    /// The elements adjusted to an option keep the order of the table's elements.
    proof fn lemma_adjusted_facts(&self, o: EnpassantOption)
        requires
            self.wf(),
            self.ep_options@.contains(o),
        ensures
            elements_ok(with_ep_option(self.piece_set@, o), self.n_pieces as int, self.n_pawns as int, self.n_unique_pawns as int),
            distinct_entries(with_ep_option(self.piece_set@, o)),
            with_ep_option(self.piece_set@, o).len() == self.piece_set@.len(),
            files_grouped(self.piece_set@, self.n_unique_pawns as int) ==> files_grouped(
                with_ep_option(self.piece_set@, o),
                self.n_unique_pawns as int,
            ),
    {
        let ps = with_ep_option(self.piece_set@, o);
        let n = self.n_pieces as int;
        let np = self.n_pawns as int;
        let nup = self.n_unique_pawns as int;
        self.lemma_option_fields(o);
        reveal(crate::indexer::layout_ok);
        crate::indexer::lemma_layout_elements(self.piece_set@, nup, n, np);
        crate::indexer::lemma_adjusted_elements(self.piece_set@, o, nup, n, np);
        assert forall|a: int, bb: int| 0 <= a < bb < ps.len() implies !((#[trigger] ps[a]).role == (#[trigger] ps[bb]).role
            && ps[a].side == ps[bb].side) by {
            assert(!(self.piece_set@[a].role == self.piece_set@[bb].role && self.piece_set@[a].side == self.piece_set@[bb].side));
        }
        if files_grouped(self.piece_set@, nup) {
            assert forall|a: int, bb: int| 0 <= a < bb < nup && (#[trigger] ps[a]).role == (#[trigger] ps[bb]).role implies bb == a + 1 by {
                assert(self.piece_set@[a].role == self.piece_set@[bb].role);
            }
        }
    }

    /// The facts gathered while decoding an index of a table with pawns make
    /// the position one that the index stands for.
    #[verifier::rlimit(60)]
    #[verifier::spinoff_prover]
    proof fn lemma_decoded_pawns(
        &self,
        index: u64,
        p: BoardPosition,
        o: EnpassantOption,
        b: Seq<u64>,
        c: Seq<u64>,
        d: Seq<u64>,
        cs1: Seq<(u64, u64)>,
        w: Seq<u64>,
        rel: Seq<u64>,
        cs: Seq<(u64, u64)>,
    )
        requires
            self.wf(),
            self.n_pawns > 0,
            files_grouped(self.piece_set@, self.n_unique_pawns as int),
            self.ep_options@.contains(o),
            o.range_start <= index < o.range_end,
            b.len() == self.n_pieces,
            all_below(b, 463),
            valid_cpidx(with_ep_option(self.piece_set@, o), b),
            slots_set(with_ep_option(self.piece_set@, o), b, 0, self.piece_set@.len() as int),
            mixed_index(with_ep_option(self.piece_set@, o), b, self.piece_set@.len() as int) == index - o.range_start,
            pairs_mapped(with_ep_option(self.piece_set@, o), self.n_unique_pawns as int, b, c, self.n_unique_pawns as int,
                |s: Seq<u64>| uncompact(s)),
            d.len() == self.n_pieces,
            forall|i: int| self.n_pawns <= i < self.n_pieces ==> #[trigger] d[i] == c[i],
            forall|e: int| 0 <= e < self.n_unique_pawns ==> pawn_converted(#[trigger] with_ep_option(self.piece_set@, o)[e], c, d, cs1),
            w == d.subrange(0, 0) + compact(d.subrange(0, self.n_pawns as int)) + d.subrange(self.n_pawns as int, self.n_pieces as int),
            rel == w.subrange(0, 0) + uncompact(w.subrange(0, self.n_pieces as int)) + w.subrange(self.n_pieces as int, self.n_pieces as int),
            cs.len() == self.n_pieces,
            forall|i: int| self.n_pawns <= i < self.n_pieces ==> #[trigger] cs[i] == (rel[i] / 8, rel[i] % 8),
            forall|i: int| 0 <= i < self.n_pawns && i < self.n_pieces ==> #[trigger] cs[i] == cs1[i],
            on_board(cs),
            all_distinct(abs_squares(cs, p.turn == Color::Black)) ==> places(
                with_ep_option(self.piece_set@, o),
                abs_squares(cs, p.turn == Color::Black),
                p.turn,
                p.squares@,
            ),
            p.ep_square == option_ep_square(o.square, p.turn),
            fen_legal_ep(fen_of(p.squares@, p.turn, p.ep_square)) == Some(p.ep_square),
        ensures
            self.decodes_pawns(index, p),
    {
        let ps = with_ep_option(self.piece_set@, o);
        let n = self.n_pieces as int;
        let np = self.n_pawns as int;
        let nup = self.n_unique_pawns as int;
        let flip = p.turn == Color::Black;
        self.lemma_adjusted_facts(o);
        // The square indexes of the pawns.
        assert(pawn_squares_of(ps, nup, np, c, d)) by {
            assert forall|e: int| 0 <= e < nup implies pawn_square_entries(#[trigger] ps[e], c, d) by {
                assert(pawn_converted(ps[e], c, d, cs1));
                assert forall|k: int| ps[e].span.0 <= k < ps[e].span.1 implies (#[trigger] c[k]) < 7 && d[k] == (c[k] + 1) * 8 + role_index(ps[e].role) by {
                    assert(d[k] == (c[k] + 1) * 8 + role_index(ps[e].role));
                }
            }
            assert(c.len() == b.len());
        }
        lemma_pawn_squares_distinct(ps, n, np, nup, b, c, d);
        let pd = d.subrange(0, np);
        let q = d.subrange(np, n);
        crate::compaction::lemma_compact_len(pd);
        assert(w =~= compact(pd) + q);
        assert(w.subrange(0, n) =~= w);
        crate::compaction::lemma_uncompact_len(w);
        assert(rel =~= uncompact(w));
        assert(rel == pawn_table_squares(np, d));
        // The pawns keep their squares.
        crate::compaction::lemma_compact_len(pd);
        crate::compaction::lemma_uncompact_prefix(compact(pd), q);
        crate::compaction::lemma_uncompact_compact(pd);
        assert forall|i: int| 0 <= i < n implies #[trigger] cs[i] == (rel[i] / 8, rel[i] % 8) by {
            if i < np {
                assert(compact(pd).len() == np);
                assert(uncompact(w).subrange(0, np)[i] == uncompact(w)[i]);
                assert(rel[i] == uncompact(compact(pd))[i]);
                assert(rel[i] == d[i]);
                lemma_spans_cover(ps, n, np, nup, i);
                let e = choose|e: int| 0 <= e < ps.len() && (#[trigger] ps[e]).span.0 <= i < ps[e].span.1;
                assert(e < nup) by {
                    if e >= nup {
                        assert(np <= ps[e].span.0);
                    }
                }
                assert(pawn_converted(ps[e], c, d, cs1));
                assert(d[i] == (c[i] + 1) * 8 + role_index(ps[e].role));
                assert(ps[e].role is Pawn);
                assert(role_index(ps[e].role) < 8);
                assert(cs1[i] == ((c[i] + 1) as u64, role_index(ps[e].role) as u64));
            }
        }
        assert(abs_squares(cs, flip) =~= flip_squares(rel, np > 0 && flip)) by {
            assert forall|i: int| 0 <= i < n implies abs_squares(cs, flip)[i] == flip_squares(rel, np > 0 && flip)[i] by {
                assert(cs[i] == (rel[i] / 8, rel[i] % 8));
                assert(cs[i].0 < 8 && cs[i].1 < 8);
                assert(rel[i] == (rel[i] / 8) * 8 + rel[i] % 8);
            }
        }
        // The squares are distinct.
        assert(all_below(w, 0x1_0000_0000)) by {
            assert(all_below(pd, 64)) by {
                assert forall|i: int| 0 <= i < pd.len() implies pd[i] < 64 by {
                    lemma_spans_cover(ps, n, np, nup, i);
                    let e = choose|e: int| 0 <= e < ps.len() && (#[trigger] ps[e]).span.0 <= i < ps[e].span.1;
                    assert(e < nup) by {
                        if e >= nup {
                            assert(np <= ps[e].span.0);
                        }
                    }
                    assert(pawn_converted(ps[e], c, d, cs1));
                    assert(ps[e].role is Pawn);
                    assert(role_index(ps[e].role) < 8);
                    assert(d[i] == (c[i] + 1) * 8 + role_index(ps[e].role));
                }
            }
            crate::compaction::lemma_compact_bound(pd, 64);
            assert forall|i: int| 0 <= i < w.len() implies w[i] < 0x1_0000_0000 by {
                if i >= np {
                    assert(w[i] == d[i]);
                    assert(d[i] == c[i]);
                    assert(!in_file_pair(ps, nup, i, nup)) by {
                        if in_file_pair(ps, nup, i, nup) {
                            let qq = choose|qq: int| #![trigger file_pair(ps, nup, qq)] qq < nup && file_pair(ps, nup, qq) && ps[qq - 1].span.0 <= i < ps[qq].span.1;
                            assert(ps[qq].span.1 <= np);
                        }
                    }
                    assert(c[i] == b[i]);
                }
            }
        }
        crate::compaction::lemma_uncompact_distinct(w);
        assert(all_below(rel, 64)) by {
            assert forall|i: int| 0 <= i < rel.len() implies rel[i] < 64 by {
                assert(cs[i] == (rel[i] / 8, rel[i] % 8));
                assert(cs[i].0 < 8);
            }
        }
        assert(all_distinct(flip_squares(rel, np > 0 && flip))) by {
            let fs = flip_squares(rel, np > 0 && flip);
            assert forall|i: int, j: int| 0 <= i < j < fs.len() implies fs[i] != fs[j] by {
                assert(cs[i].0 < 8 && cs[i].1 < 8 && cs[j].0 < 8 && cs[j].1 < 8);
                assert(rel[i] != rel[j]);
            }
        }
        assert(self.decodes_pawns_with(index, p, o, b, c, d));
    }
}

/// Two elements with the same piece are pawns of different files.
proof fn lemma_pieces_differ_files(ps: Seq<PieceSetElement>, turn: Color, e1: int, e2: int)
    requires
        distinct_entries(ps),
        0 <= e1 < ps.len(),
        0 <= e2 < ps.len(),
        e1 != e2,
        element_piece(ps[e1], turn) == element_piece(ps[e2], turn),
    ensures
        ps[e1].role is Pawn,
        ps[e2].role is Pawn,
        role_index(ps[e1].role) != role_index(ps[e2].role),
{
    if e1 < e2 {
        assert(!(ps[e1].role == ps[e2].role && ps[e1].side == ps[e2].side));
    } else {
        assert(!(ps[e2].role == ps[e1].role && ps[e2].side == ps[e1].side));
    }
    assert(ps[e1].side == ps[e2].side);
    if role_index(ps[e1].role) == role_index(ps[e2].role) {
        crate::piece_set::lemma_role_index_injective(ps[e1].role, ps[e2].role);
    }
}

/// On a board that `places` distinct squares, with the pawns of each element
/// on its file, a square holds a piece of an element exactly when it is the
/// square of one of its entries.
proof fn lemma_decoded_holding_files(
    ps: Seq<PieceSetElement>,
    n: int,
    np: int,
    nup: int,
    sqs: Seq<u64>,
    pos: BoardPosition,
    e: int,
)
    requires
        elements_ok(ps, n, np, nup),
        distinct_entries(ps),
        sqs.len() == n,
        all_distinct(sqs),
        places(ps, sqs, pos.turn, pos.squares@),
        forall|e2: int, k: int|
            #![trigger ps[e2], sqs[k]]
            0 <= e2 < ps.len() && ps[e2].span.0 <= k < ps[e2].span.1 && ps[e2].role is Pawn ==> sqs[k] % 8 == role_index(ps[e2].role),
        0 <= e < ps.len(),
    ensures
        forall|x: int| 0 <= x < 64 ==> (holds_element(pos, x, ps[e]) <==> sqs.subrange(
            ps[e].span.0 as int,
            ps[e].span.1 as int,
        ).contains(x as u64)),
{
    let lo = ps[e].span.0 as int;
    let hi = ps[e].span.1 as int;
    assert(element_ok(ps[e], n));
    let g = sqs.subrange(lo, hi);
    assert forall|x: int| 0 <= x < 64 implies (holds_element(pos, x, ps[e]) <==> g.contains(x as u64)) by {
        if g.contains(x as u64) {
            let k = choose|k: int| 0 <= k < g.len() && g[k] == x as u64;
            assert(placed(ps, sqs, pos.turn, pos.squares@, e, lo + k));
            if ps[e].role is Pawn {
                assert(sqs[lo + k] % 8 == role_index(ps[e].role));
            }
        }
        if holds_element(pos, x, ps[e]) {
            assert(pos.squares@[x] is Some);
            let i = choose|i: int| 0 <= i < sqs.len() && sqs[i] == x;
            lemma_spans_cover(ps, n, np, nup, i);
            let e2 = choose|e2: int| 0 <= e2 < ps.len() && (#[trigger] ps[e2]).span.0 <= i < ps[e2].span.1;
            assert(placed(ps, sqs, pos.turn, pos.squares@, e2, i));
            if e2 != e {
                lemma_pieces_differ_files(ps, pos.turn, e, e2);
                assert(sqs[i] % 8 == role_index(ps[e2].role));
            }
            assert(g[i - lo] == x);
        }
    }
}

/// The indexes in `0..6` of the pawns of an element decrease over its span,
/// and so do the compacted indexes of the other elements.
#[verifier::rlimit(80)]
#[verifier::spinoff_prover]
proof fn lemma_c_span_decreasing(
    ps: Seq<PieceSetElement>,
    n: int,
    np: int,
    nup: int,
    b: Seq<u64>,
    c: Seq<u64>,
    e: int,
)
    requires
        elements_ok(ps, n, np, nup),
        distinct_entries(ps),
        b.len() == n,
        all_below(b, 463),
        valid_cpidx(ps, b),
        slots_set(ps, b, 0, ps.len() as int),
        pairs_mapped(ps, nup, b, c, nup, |s: Seq<u64>| uncompact(s)),
        0 <= e < ps.len(),
    ensures
        forall|x: int, y: int| ps[e].span.0 <= x < y < ps[e].span.1 ==> c[x] > c[y],
{
    let f = |s: Seq<u64>| uncompact(s);
    assert(element_ok(ps[e], n));
    assert(group_valid(ps[e], b));
    assert(slot_set(ps[e], b));
    lemma_span_decreasing(ps[e], b, n);
    let q: int = if file_pair(ps, nup, e) { e } else if file_pair(ps, nup, e + 1) { e + 1 } else { -1 };
    if q >= 0 {
        assert(file_pair(ps, nup, q));
        let lo = ps[q - 1].span.0 as int;
        let hi = ps[q].span.1 as int;
        assert(element_ok(ps[q - 1], n));
        assert(element_ok(ps[q], n));
        assert(ps[q - 1].span.1 <= ps[q].span.0);
        let seg = b.subrange(lo, hi);
        assert(c.subrange(lo, hi) == f(seg));
        assert(all_below(seg, 0x1_0000_0000)) by {
            assert forall|k: int| 0 <= k < seg.len() implies seg[k] < 0x1_0000_0000 by {
                assert(seg[k] == b[lo + k]);
            }
        }
        let a0 = ps[e].span.0 - lo;
        let a1 = ps[e].span.1 - lo;
        assert(0 <= a0 <= a1 <= seg.len());
        assert forall|x: int, y: int| a0 <= x < y < a1 implies seg[x] > seg[y] by {
            assert(seg[x] == b[lo + x]);
            assert(seg[y] == b[lo + y]);
        }
        crate::compaction::lemma_uncompact_decreasing(seg, a0, a1);
        assert forall|x: int, y: int| ps[e].span.0 <= x < y < ps[e].span.1 implies c[x] > c[y] by {
            assert(c[x] == c.subrange(lo, hi)[x - lo]);
            assert(c[y] == c.subrange(lo, hi)[y - lo]);
        }
    } else {
        assert forall|x: int| ps[e].span.0 <= x < ps[e].span.1 implies c[x] == b[x] by {
            if in_file_pair(ps, nup, x, nup) {
                let qq = choose|qq: int| #![trigger file_pair(ps, nup, qq)] qq < nup && file_pair(ps, nup, qq) && ps[qq - 1].span.0 <= x < ps[qq].span.1;
                assert(ps[qq - 1].span.1 == ps[qq].span.0);
                if e < qq - 1 {
                    assert(ps[e].span.1 <= ps[qq - 1].span.0);
                } else if e > qq {
                    assert(ps[qq].span.1 <= ps[e].span.0);
                }
            }
        }
    }
}

/// The square with its rank counted from the other side.
pub open spec fn flip_square(s: u64) -> u64 {
    ((7 - s / 8) * 8 + s % 8) as u64
}

impl Indexer {
    /// What a position decoded from an index of a table with pawns is made
    /// of: distinct squares, as many pieces as the table, the pieces of each
    /// element on the squares of its entries, in decreasing order of the
    /// squares counted from the side to move.
    #[verifier::rlimit(80)]
    #[verifier::spinoff_prover]
    proof fn lemma_decoded_pawn_facts(
        &self,
        index: u64,
        pos: BoardPosition,
        o: EnpassantOption,
        b: Seq<u64>,
        c: Seq<u64>,
        d: Seq<u64>,
    )
        requires
            self.wf(),
            self.n_pawns > 0,
            files_grouped(self.piece_set@, self.n_unique_pawns as int),
            pos.squares@.len() == 64,
            self.decodes_pawns_with(index, pos, o, b, c, d),
        ensures
            ({
                let ps = with_ep_option(self.piece_set@, o);
                let n = self.n_pieces as int;
                let np = self.n_pawns as int;
                let rel = pawn_table_squares(np, d);
                let abs = flip_squares(rel, pos.turn == Color::Black);
                let w = compact(d.subrange(0, np)) + d.subrange(np, n);
                &&& rel.len() == n
                &&& all_distinct(rel)
                &&& all_below(rel, 64)
                &&& all_distinct(abs)
                &&& w.len() == n
                &&& all_below(w, 0x1_0000_0000)
                &&& compact(rel) == w
                &&& c.len() == n
                &&& forall|k: int| 0 <= k < np ==> #[trigger] rel[k] == d[k] && rel[k] / 8 == c[k] + 1
                &&& forall|k: int| np <= k < n ==> #[trigger] w[k] == c[k]
                &&& occupied(pos, 64) == n
                &&& forall|e: int| 0 <= e < ps.len() ==> (#[trigger] holding(pos, ps[e], 64)).len() == ps[e].span.1 - ps[e].span.0
                &&& forall|e: int, x: u64| 0 <= e < ps.len() ==> (#[trigger] holding(pos, ps[e], 64).contains(x) <==> abs.subrange(
                    ps[e].span.0 as int,
                    ps[e].span.1 as int,
                ).contains(x))
                &&& forall|e: int| 0 <= e < ps.len() ==> strictly_decreasing(rel.subrange((#[trigger] ps[e]).span.0 as int, ps[e].span.1 as int))
                &&& forall|k: int| 0 <= k < n ==> #[trigger] abs[k] == flip_squares(rel, pos.turn == Color::Black)[k]
            }),
    {
        let ps = with_ep_option(self.piece_set@, o);
        let n = self.n_pieces as int;
        let np = self.n_pawns as int;
        let nup = self.n_unique_pawns as int;
        let flip = pos.turn == Color::Black;
        self.lemma_adjusted_facts(o);
        let pd = d.subrange(0, np);
        let q = d.subrange(np, n);
        let w = compact(pd) + q;
        crate::compaction::lemma_compact_len(pd);
        assert(d.len() == c.len());
        let rel = pawn_table_squares(np, d);
        assert(rel == uncompact(w));
        crate::compaction::lemma_uncompact_len(w);
        // The pawns keep their squares.
        crate::compaction::lemma_uncompact_prefix(compact(pd), q);
        crate::compaction::lemma_uncompact_compact(pd);
        assert forall|k: int| 0 <= k < np implies #[trigger] rel[k] == d[k] && rel[k] / 8 == c[k] + 1 by {
            assert(uncompact(w).subrange(0, np)[k] == uncompact(w)[k]);
            lemma_spans_cover(ps, n, np, nup, k);
            let e = choose|e: int| 0 <= e < ps.len() && (#[trigger] ps[e]).span.0 <= k < ps[e].span.1;
            assert(e < nup) by {
                if e >= nup {
                    assert(np <= ps[e].span.0);
                }
            }
            assert(pawn_square_entries(ps[e], c, d));
            assert(c[k] < 7 && d[k] == (c[k] + 1) * 8 + role_index(ps[e].role));
            assert(ps[e].role is Pawn);
            assert(role_index(ps[e].role) < 8);
        }
        // The other entries keep their compacted indexes.
        assert forall|k: int| np <= k < n implies #[trigger] w[k] == c[k] && c[k] == b[k] by {
            assert(w[k] == d[k]);
            assert(!in_file_pair(ps, nup, k, nup)) by {
                if in_file_pair(ps, nup, k, nup) {
                    let qq = choose|qq: int| #![trigger file_pair(ps, nup, qq)] qq < nup && file_pair(ps, nup, qq) && ps[qq - 1].span.0 <= k < ps[qq].span.1;
                    assert(ps[qq].span.1 <= np);
                }
            }
        }
        assert(all_below(w, 0x1_0000_0000)) by {
            assert(all_below(pd, 64)) by {
                assert forall|k: int| 0 <= k < pd.len() implies pd[k] < 64 by {
                    assert(rel[k] == d[k]);
                }
            }
            crate::compaction::lemma_compact_bound(pd, 64);
            assert forall|k: int| 0 <= k < w.len() implies w[k] < 0x1_0000_0000 by {
                if k >= np {
                    assert(w[k] == b[k]);
                }
            }
        }
        crate::compaction::lemma_uncompact_distinct(w);
        crate::compaction::lemma_compact_uncompact(w);
        let abs = flip_squares(rel, flip);
        assert(all_distinct(abs)) by {
            assert forall|i: int, j: int| 0 <= i < j < abs.len() implies abs[i] != abs[j] by {
                assert(rel[i] < 64 && rel[j] < 64);
                assert(rel[i] != rel[j]);
            }
        }
        // The pawns of each element stand on its file.
        assert forall|e2: int, k: int|
            #![trigger ps[e2], abs[k]]
            0 <= e2 < ps.len() && ps[e2].span.0 <= k < ps[e2].span.1 && ps[e2].role is Pawn implies abs[k] % 8 == role_index(ps[e2].role) by {
            assert(e2 < nup);
            assert(element_ok(ps[e2], n));
            assert(ps[e2].span.1 <= np);
            assert(pawn_square_entries(ps[e2], c, d));
            assert(c[k] < 7 && d[k] == (c[k] + 1) * 8 + role_index(ps[e2].role));
            assert(rel[k] == d[k]);
            assert(role_index(ps[e2].role) < 8);
        }
        assert(np > 0 && flip == (np > 0 && flip));
        assert forall|e: int| 0 <= e < ps.len() implies (#[trigger] holding(pos, ps[e], 64)).len() == ps[e].span.1 - ps[e].span.0
            && (forall|x: u64| #[trigger] holding(pos, ps[e], 64).contains(x) <==> abs.subrange(ps[e].span.0 as int, ps[e].span.1 as int).contains(x))
            && strictly_decreasing(rel.subrange(ps[e].span.0 as int, ps[e].span.1 as int)) by {
            assert(element_ok(ps[e], n));
            let g = abs.subrange(ps[e].span.0 as int, ps[e].span.1 as int);
            lemma_decoded_holding_files(ps, n, np, nup, abs, pos, e);
            lemma_holding(pos, ps[e], 64);
            assert(all_distinct(g));
            assert(all_below(g, 64));
            lemma_holding_count(pos, ps[e], g, 64);
            lemma_count_below_all(g, 64);
            assert forall|x: u64| #[trigger] holding(pos, ps[e], 64).contains(x) <==> g.contains(x) by {
                if g.contains(x) {
                    let k = choose|k: int| 0 <= k < g.len() && g[k] == x;
                    assert(x < 64);
                }
            }
            lemma_c_span_decreasing(ps, n, np, nup, b, c, e);
            let rs = rel.subrange(ps[e].span.0 as int, ps[e].span.1 as int);
            if e < nup {
                assert(ps[e].span.1 <= np);
                assert forall|x: int, y: int| 0 <= x < y < rs.len() implies rs[x] > rs[y] by {
                    let kx = ps[e].span.0 + x;
                    let ky = ps[e].span.0 + y;
                    assert(c[kx] > c[ky]);
                    assert(pawn_square_entries(ps[e], c, d));
                    assert(d[kx] == (c[kx] + 1) * 8 + role_index(ps[e].role));
                    assert(d[ky] == (c[ky] + 1) * 8 + role_index(ps[e].role));
                    assert(rel[kx] == d[kx]);
                    assert(rel[ky] == d[ky]);
                }
            } else {
                assert(np <= ps[e].span.0);
                assert forall|x: int, y: int| ps[e].span.0 <= x < y < ps[e].span.1 implies w[x] > w[y] by {
                    assert(w[x] == c[x]);
                    assert(w[y] == c[y]);
                }
                crate::compaction::lemma_uncompact_decreasing(w, ps[e].span.0 as int, ps[e].span.1 as int);
            }
        }
        // The occupied squares.
        assert forall|x: int| 0 <= x < 64 implies (pos.squares@[x] is Some <==> abs.contains(x as u64)) by {
            if abs.contains(x as u64) {
                let i = choose|i: int| 0 <= i < abs.len() && abs[i] == x as u64;
                lemma_spans_cover(ps, n, np, nup, i);
                let e = choose|e: int| 0 <= e < ps.len() && (#[trigger] ps[e]).span.0 <= i < ps[e].span.1;
                assert(placed(ps, abs, pos.turn, pos.squares@, e, i));
            }
        }
        lemma_occupied_count(pos, abs, 64);
        lemma_count_below_all(abs, 64);
        assert forall|e: int| 0 <= e < ps.len() implies strictly_decreasing(rel.subrange((#[trigger] ps[e]).span.0 as int, ps[e].span.1 as int)) by {
            assert(holding(pos, ps[e], 64).len() == ps[e].span.1 - ps[e].span.0);
        }
        assert forall|e: int, x: u64| 0 <= e < ps.len() implies (#[trigger] holding(pos, ps[e], 64).contains(x) <==> abs.subrange(
            ps[e].span.0 as int,
            ps[e].span.1 as int,
        ).contains(x)) by {
            assert(holding(pos, ps[e], 64).len() == ps[e].span.1 - ps[e].span.0);
        }
    }
}

/// A group of coordinates sorted from the highest, with the same values as
/// coordinates `a` whose squares (ranks from the other side when `flip`
/// holds) are the increasing `h`, has the squares of the decreasing `t` that
/// `h` holds the squares of.
#[verifier::rlimit(40)]
#[verifier::spinoff_prover]
proof fn lemma_group_match_flip(a: Seq<(u64, u64)>, bb: Seq<(u64, u64)>, h: Seq<u64>, t: Seq<u64>, flip: bool)
    requires
        same_elements(a, bb),
        on_board(a),
        on_board(bb),
        abs_squares(a, flip) == h,
        forall|i: int, j: int| 0 <= i < j < h.len() ==> h[i] < h[j],
        sorted_desc(bb, 0, bb.len() as int),
        strictly_decreasing(t),
        all_below(t, 64),
        forall|x: u64| h.contains(x) <==> flip_squares(t, flip).contains(x),
    ensures
        coord_squares(bb) == t,
{
    assert(a.no_duplicates()) by {
        assert forall|i: int, j: int| 0 <= i < a.len() && 0 <= j < a.len() && i != j implies a[i] != a[j] by {
            if i < j {
                assert(h[i] < h[j]);
            } else {
                assert(h[j] < h[i]);
            }
        }
    }
    assert(bb.no_duplicates());
    let sb = coord_squares(bb);
    assert(strictly_decreasing(sb)) by {
        assert forall|i: int, j: int| 0 <= i < j < sb.len() implies sb[i] > sb[j] by {
            assert(coord_ge(bb[i], bb[j]));
            assert(bb[i] != bb[j]);
            assert(bb[i].0 < 8 && bb[i].1 < 8 && bb[j].0 < 8 && bb[j].1 < 8);
        }
    }
    let ft = flip_squares(t, flip);
    assert forall|x: u64| sb.contains(x) <==> t.contains(x) by {
        if sb.contains(x) {
            let i = choose|i: int| 0 <= i < sb.len() && sb[i] == x;
            assert(bb.contains(bb[i]));
            assert(a.contains(bb[i]));
            let j = choose|j: int| 0 <= j < a.len() && a[j] == bb[i];
            assert(bb[i].0 < 8 && bb[i].1 < 8);
            assert(h.contains(h[j]));
            assert(ft.contains(h[j]));
            let m = choose|m: int| 0 <= m < ft.len() && ft[m] == h[j];
            assert(t[m] < 64);
            assert(t[m] == x);
            assert(t.contains(x));
        }
        if t.contains(x) {
            let m = choose|m: int| 0 <= m < t.len() && t[m] == x;
            assert(ft.contains(ft[m]));
            assert(h.contains(ft[m]));
            let j = choose|j: int| 0 <= j < h.len() && h[j] == ft[m];
            assert(a[j].0 < 8 && a[j].1 < 8);
            assert(x < 64);
            assert(a.contains(a[j]));
            assert(bb.contains(a[j]));
            let i = choose|i: int| 0 <= i < bb.len() && bb[i] == a[j];
            assert(sb[i] == x);
        }
    }
    lemma_sorted_set_equal(sb, t);
}

impl Indexer {
    /// The coordinates read from a position that an index of a table with
    /// pawns stands for, sorted within each element, are the squares of the
    /// decoded entries (ranks counted from the side to move).
    #[verifier::rlimit(60)]
    #[verifier::spinoff_prover]
    proof fn lemma_encoded_pawn_coords(
        &self,
        index: u64,
        pos: BoardPosition,
        o: EnpassantOption,
        b: Seq<u64>,
        c: Seq<u64>,
        d: Seq<u64>,
        a: Seq<(u64, u64)>,
        cc: Seq<(u64, u64)>,
    )
        requires
            self.wf(),
            self.n_pawns > 0,
            files_grouped(self.piece_set@, self.n_unique_pawns as int),
            pos.squares@.len() == 64,
            self.decodes_pawns_with(index, pos, o, b, c, d),
            a.len() == self.n_pieces,
            cc.len() == self.n_pieces,
            on_board(a),
            on_board(cc),
            forall|e: int| 0 <= e < with_ep_option(self.piece_set@, o).len() ==> abs_squares(a, pos.turn == Color::Black).subrange(
                (#[trigger] with_ep_option(self.piece_set@, o)[e]).span.0 as int,
                with_ep_option(self.piece_set@, o)[e].span.1 as int,
            ) == holding(pos, with_ep_option(self.piece_set@, o)[e], 64),
            forall|e: int| 0 <= e < with_ep_option(self.piece_set@, o).len() ==> sorted_desc(cc,
                (#[trigger] with_ep_option(self.piece_set@, o)[e]).span.0 as int, with_ep_option(self.piece_set@, o)[e].span.1 as int),
            forall|e: int| 0 <= e < with_ep_option(self.piece_set@, o).len() ==> same_elements(
                a.subrange((#[trigger] with_ep_option(self.piece_set@, o)[e]).span.0 as int, with_ep_option(self.piece_set@, o)[e].span.1 as int),
                cc.subrange(with_ep_option(self.piece_set@, o)[e].span.0 as int, with_ep_option(self.piece_set@, o)[e].span.1 as int),
            ),
        ensures
            coord_squares(cc) == pawn_table_squares(self.n_pawns as int, d),
            forall|k: int| 0 <= k < self.n_pawns ==> (#[trigger] cc[k]).0 >= 1 && cc[k].0 - 1 == c[k],
            forall|k: int| self.n_pawns <= k < self.n_pieces ==> #[trigger] compact(coord_squares(cc))[k] == c[k],
    {
        self.lemma_decoded_pawn_facts(index, pos, o, b, c, d);
        self.lemma_adjusted_facts(o);
        let ps = with_ep_option(self.piece_set@, o);
        let n = self.n_pieces as int;
        let np = self.n_pawns as int;
        let nup = self.n_unique_pawns as int;
        let flip = pos.turn == Color::Black;
        let rel = pawn_table_squares(np, d);
        let abs = flip_squares(rel, flip);
        assert forall|e: int| 0 <= e < ps.len() implies coord_squares(cc).subrange(
            (#[trigger] ps[e]).span.0 as int,
            ps[e].span.1 as int,
        ) == rel.subrange(ps[e].span.0 as int, ps[e].span.1 as int) by {
            assert(element_ok(ps[e], n));
            let lo = ps[e].span.0 as int;
            let hi = ps[e].span.1 as int;
            let asub = a.subrange(lo, hi);
            let csub = cc.subrange(lo, hi);
            let h = holding(pos, ps[e], 64);
            let t = rel.subrange(lo, hi);
            lemma_holding(pos, ps[e], 64);
            assert(abs_squares(asub, flip) =~= abs_squares(a, flip).subrange(lo, hi));
            assert(coord_squares(csub) =~= coord_squares(cc).subrange(lo, hi));
            assert(on_board(asub));
            assert(on_board(csub));
            assert(sorted_desc(csub, 0, csub.len() as int)) by {
                assert forall|x: int, y: int| 0 <= x < y < csub.len() implies coord_ge(#[trigger] csub[x], #[trigger] csub[y]) by {
                    assert(coord_ge(cc[lo + x], cc[lo + y]));
                }
            }
            assert(all_below(t, 64));
            assert(flip_squares(t, flip) =~= abs.subrange(lo, hi));
            assert forall|x: u64| h.contains(x) <==> flip_squares(t, flip).contains(x) by {
                assert(holding(pos, ps[e], 64).contains(x) <==> abs.subrange(lo, hi).contains(x));
            }
            lemma_group_match_flip(asub, csub, h, t, flip);
        }
        assert forall|i: int| 0 <= i < n implies coord_squares(cc)[i] == rel[i] by {
            lemma_spans_cover(ps, n, np, nup, i);
            let e = choose|e: int| 0 <= e < ps.len() && (#[trigger] ps[e]).span.0 <= i < ps[e].span.1;
            let lo = ps[e].span.0 as int;
            assert(coord_squares(cc).subrange(lo, ps[e].span.1 as int)[i - lo] == rel.subrange(lo, ps[e].span.1 as int)[i - lo]);
        }
        assert(coord_squares(cc) =~= rel);
        assert forall|k: int| 0 <= k < np implies (#[trigger] cc[k]).0 >= 1 && cc[k].0 - 1 == c[k] by {
            assert(rel[k] / 8 == c[k] + 1);
            assert(cc[k].0 < 8 && cc[k].1 < 8);
            assert(coord_squares(cc)[k] == cc[k].0 * 8 + cc[k].1);
        }
    }
}

impl Indexer {
    /// Encoding a position that an index of a table with pawns stands for
    /// finds the option of that index and the compacted indexes of its groups.
    #[verifier::rlimit(60)]
    #[verifier::spinoff_prover]
    proof fn lemma_encoded_pawns(
        &self,
        index: u64,
        pos: BoardPosition,
        o: EnpassantOption,
        b: Seq<u64>,
        cw: Seq<u64>,
        d: Seq<u64>,
        cur: EnpassantOption,
        legal: Option<u8>,
        a: Seq<(u64, u64)>,
        cc: Seq<(u64, u64)>,
        cb: Seq<u64>,
        fin: Seq<u64>,
    )
        requires
            self.wf(),
            self.n_pawns > 0,
            files_grouped(self.piece_set@, self.n_unique_pawns as int),
            pos.squares@.len() == 64,
            self.decodes_pawns_with(index, pos, o, b, cw, d),
            self.ep_options@.contains(cur),
            fen_legal_ep(fen_of(pos.squares@, pos.turn, pos.ep_square)) == Some(legal),
            cur.square == ep_key(legal),
            a.len() == self.n_pieces,
            cc.len() == self.n_pieces,
            on_board(a),
            on_board(cc),
            forall|e: int| 0 <= e < with_ep_option(self.piece_set@, cur).len() ==> abs_squares(a, pos.turn == Color::Black).subrange(
                (#[trigger] with_ep_option(self.piece_set@, cur)[e]).span.0 as int,
                with_ep_option(self.piece_set@, cur)[e].span.1 as int,
            ) == holding(pos, with_ep_option(self.piece_set@, cur)[e], 64),
            forall|e: int| 0 <= e < with_ep_option(self.piece_set@, cur).len() ==> sorted_desc(cc,
                (#[trigger] with_ep_option(self.piece_set@, cur)[e]).span.0 as int, with_ep_option(self.piece_set@, cur)[e].span.1 as int),
            forall|e: int| 0 <= e < with_ep_option(self.piece_set@, cur).len() ==> same_elements(
                a.subrange((#[trigger] with_ep_option(self.piece_set@, cur)[e]).span.0 as int, with_ep_option(self.piece_set@, cur)[e].span.1 as int),
                cc.subrange(with_ep_option(self.piece_set@, cur)[e].span.0 as int, with_ep_option(self.piece_set@, cur)[e].span.1 as int),
            ),
            cb.len() == self.n_pieces,
            forall|i: int| 0 <= i < self.n_pawns ==> #[trigger] cb[i] == cc[i].0 - 1,
            forall|i: int| self.n_pawns <= i < self.n_pieces ==> #[trigger] cb[i] == compact(coord_squares(cc))[i],
            pairs_mapped(with_ep_option(self.piece_set@, cur), self.n_unique_pawns as int, cb, fin,
                self.n_unique_pawns as int, |s: Seq<u64>| compact(s)),
        ensures
            o == cur,
            fin == b,
    {
        self.lemma_option_on_fifth(o);
        assert(o.square == cur.square);
        self.lemma_option_by_square(cur, o);
        self.lemma_encoded_pawn_coords(index, pos, o, b, cw, d, a, cc);
        self.lemma_decoded_pawn_facts(index, pos, o, b, cw, d);
        assert(cb =~= cw);
        self.lemma_adjusted_facts(o);
        lemma_pairs_inverse(
            with_ep_option(self.piece_set@, o),
            self.n_pieces as int,
            self.n_pawns as int,
            self.n_unique_pawns as int,
            b,
            cw,
            fin,
        );
    }
}

impl Indexer {
    /// The pawns of a color on a file of a position that an index stands for
    /// are those of the element of that color and file, if the table has one,
    /// and there are none otherwise.
    pub proof fn lemma_decoded_pawn_files(&self, index: u64, p: BoardPosition, color: Color, f: int)
        requires
            self.wf(),
            p.squares@.len() == 64,
            0 <= f < 8,
            self.n_pawns > 0 ==> files_grouped(self.piece_set@, self.n_unique_pawns as int),
            self.decodes(index, p),
        ensures
            forall|e: int| 0 <= e < self.piece_set@.len() && (#[trigger] self.piece_set@[e]).role == EgtRole::Pawn(crate::egt::file_of(f as nat))
                && side_color(self.piece_set@[e].side, p.turn) == color ==> crate::egt_file::pawns_on_file(p.squares@, color, f, 8)
                == self.piece_set@[e].multiplicity,
            (forall|e: int| 0 <= e < self.piece_set@.len() ==> !((#[trigger] self.piece_set@[e]).role == EgtRole::Pawn(crate::egt::file_of(f as nat))
                && side_color(self.piece_set@[e].side, p.turn) == color)) ==> crate::egt_file::pawns_on_file(p.squares@, color, f, 8) == 0,
    {
        self.lemma_spans_hold_multiplicity();
        if self.n_pawns == 0 {
            let b = choose|b: Seq<u64>| #[trigger] self.decodes_with(index, p, b);
            self.lemma_pawnless_counts(index, p, b, color, f);
            self.lemma_pawnless_options();
            reveal(crate::indexer::layout_ok);
            assert forall|e: int| 0 <= e < self.piece_set@.len() implies !((#[trigger] self.piece_set@[e]).role is Pawn) by {}
        } else {
            let (o, b, c, d): (EnpassantOption, Seq<u64>, Seq<u64>, Seq<u64>) = choose|
                o: EnpassantOption,
                b: Seq<u64>,
                c: Seq<u64>,
                d: Seq<u64>,
            | #[trigger] self.decodes_pawns_with(index, p, o, b, c, d);
            self.lemma_pawn_table_counts(index, p, o, b, c, d, color, f);
            self.lemma_option_fields(o);
            let ps = self.piece_set@;
            let q = with_ep_option(ps, o);
            let fl = crate::egt::file_of(f as nat);
            assert forall|e: int| 0 <= e < ps.len() && (#[trigger] ps[e]).role == EgtRole::Pawn(fl) && side_color(ps[e].side, p.turn) == color
                implies crate::egt_file::pawns_on_file(p.squares@, color, f, 8) == ps[e].multiplicity by {
                assert(q[e].role == ps[e].role && q[e].side == ps[e].side && q[e].span == ps[e].span);
            }
            if forall|e: int| 0 <= e < ps.len() ==> !((#[trigger] ps[e]).role == EgtRole::Pawn(fl) && side_color(ps[e].side, p.turn) == color) {
                assert forall|e: int| 0 <= e < q.len() implies !((#[trigger] q[e]).role == EgtRole::Pawn(fl) && side_color(q[e].side, p.turn) == color) by {
                    assert(q[e].role == ps[e].role && q[e].side == ps[e].side);
                }
            }
        }
    }

    /// A position that an index stands for has 64 squares and an en passant
    /// square on the board.
    pub proof fn lemma_decodes_board(&self, index: u64, p: BoardPosition)
        requires
            self.decodes(index, p),
        ensures
            p.squares@.len() == 64,
            p.ep_square matches Some(s) ==> s < 64,
    {
        if self.n_pawns == 0 {
            let b = choose|b: Seq<u64>| #[trigger] self.decodes_with(index, p, b);
        } else {
            let (o, b, c, d): (EnpassantOption, Seq<u64>, Seq<u64>, Seq<u64>) = choose|
                o: EnpassantOption,
                b: Seq<u64>,
                c: Seq<u64>,
                d: Seq<u64>,
            | #[trigger] self.decodes_pawns_with(index, p, o, b, c, d);
        }
    }

    /// Positions with the same squares, side to move and en passant square
    /// stand for the same indexes.
    pub proof fn lemma_decodes_same_position(&self, index: u64, p: BoardPosition, q: BoardPosition)
        requires
            p.squares@ == q.squares@,
            p.turn == q.turn,
            p.ep_square == q.ep_square,
            self.decodes(index, p),
        ensures
            self.decodes(index, q),
    {
        if self.n_pawns == 0 {
            let b = choose|b: Seq<u64>| #[trigger] self.decodes_with(index, p, b);
            assert(self.decodes_with(index, q, b));
        } else {
            let (o, b, c, d): (EnpassantOption, Seq<u64>, Seq<u64>, Seq<u64>) = choose|
                o: EnpassantOption,
                b: Seq<u64>,
                c: Seq<u64>,
                d: Seq<u64>,
            | #[trigger] self.decodes_pawns_with(index, p, o, b, c, d);
            assert(self.decodes_pawns_with(index, q, o, b, c, d));
        }
    }

    /// `lemma_decoded_pawn_files` for a pawnless table.
    #[verifier::spinoff_prover]
    proof fn lemma_pawnless_counts(&self, index: u64, p: BoardPosition, b: Seq<u64>, color: Color, f: int)
        requires
            self.wf(),
            self.n_pawns == 0,
            p.squares@.len() == 64,
            0 <= f < 8,
            self.decodes_with(index, p, b),
        ensures
            forall|e: int| 0 <= e < self.piece_set@.len() && (#[trigger] self.piece_set@[e]).role == EgtRole::Pawn(crate::egt::file_of(f as nat))
                && side_color(self.piece_set@[e].side, p.turn) == color ==> crate::egt_file::pawns_on_file(p.squares@, color, f, 8)
                == holding(p, self.piece_set@[e], 64).len(),
            (forall|e: int| 0 <= e < self.piece_set@.len() ==> !((#[trigger] self.piece_set@[e]).role == EgtRole::Pawn(crate::egt::file_of(f as nat))
                && side_color(self.piece_set@[e].side, p.turn) == color)) ==> crate::egt_file::pawns_on_file(p.squares@, color, f, 8) == 0,
    {
        reveal(crate::indexer::layout_ok);
        let n = self.n_pieces as int;
        let np = self.n_pawns as int;
        let nup = self.n_unique_pawns as int;
        self.lemma_decoded_facts(p, b);
        let ps = self.piece_set@;
        let sq = pawnless_squares(self.kings_map_from_index@, b);
        crate::indexer::lemma_layout_elements(ps, nup, n, np);
        assert forall|i: int| 0 <= i < sq.len() implies #[trigger] crate::pawn_files::in_some_span(ps, i) by {
            lemma_spans_cover(ps, n, np, nup, i);
        }
        assert forall|e: int| 0 <= e < ps.len() implies (#[trigger] ps[e]).span.0 <= ps[e].span.1 <= sq.len() by {
            assert(element_ok(ps[e], n));
        }
        crate::pawn_files::lemma_pawn_counts(ps, sq, p, color, f);
    }

    /// `lemma_decoded_pawn_files` for a table with pawns, over the elements
    /// adjusted to the option of the index.
    #[verifier::spinoff_prover]
    proof fn lemma_pawn_table_counts(
        &self,
        index: u64,
        p: BoardPosition,
        o: EnpassantOption,
        b: Seq<u64>,
        c: Seq<u64>,
        d: Seq<u64>,
        color: Color,
        f: int,
    )
        requires
            self.wf(),
            self.n_pawns > 0,
            files_grouped(self.piece_set@, self.n_unique_pawns as int),
            p.squares@.len() == 64,
            0 <= f < 8,
            self.decodes_pawns_with(index, p, o, b, c, d),
        ensures
            forall|e: int| 0 <= e < with_ep_option(self.piece_set@, o).len() && (#[trigger] with_ep_option(self.piece_set@, o)[e]).role
                == EgtRole::Pawn(crate::egt::file_of(f as nat)) && side_color(with_ep_option(self.piece_set@, o)[e].side, p.turn) == color
                ==> crate::egt_file::pawns_on_file(p.squares@, color, f, 8) == with_ep_option(self.piece_set@, o)[e].span.1
                - with_ep_option(self.piece_set@, o)[e].span.0,
            (forall|e: int| 0 <= e < with_ep_option(self.piece_set@, o).len() ==> !((#[trigger] with_ep_option(self.piece_set@, o)[e]).role
                == EgtRole::Pawn(crate::egt::file_of(f as nat)) && side_color(with_ep_option(self.piece_set@, o)[e].side, p.turn) == color))
                ==> crate::egt_file::pawns_on_file(p.squares@, color, f, 8) == 0,
            with_ep_option(self.piece_set@, o).len() == self.piece_set@.len(),
    {
        let n = self.n_pieces as int;
        let np = self.n_pawns as int;
        let nup = self.n_unique_pawns as int;
        self.lemma_decoded_pawn_facts(index, p, o, b, c, d);
        self.lemma_adjusted_facts(o);
        let ps = with_ep_option(self.piece_set@, o);
        let flip = p.turn == Color::Black;
        let abs = flip_squares(pawn_table_squares(np, d), flip);
        assert(np > 0 && flip == (np > 0 && flip));
        assert forall|i: int| 0 <= i < abs.len() implies #[trigger] crate::pawn_files::in_some_span(ps, i) by {
            lemma_spans_cover(ps, n, np, nup, i);
        }
        assert forall|e: int| 0 <= e < ps.len() implies (#[trigger] ps[e]).span.0 <= ps[e].span.1 <= abs.len() by {
            assert(element_ok(ps[e], n));
        }
        crate::pawn_files::lemma_pawn_counts(ps, abs, p, color, f);
    }
}

/// The square reflected across the a1-h8 diagonal.
pub open spec fn transpose_square(s: int) -> int {
    (s % 8) * 8 + s / 8
}

/// `q` is `p` reflected across the a1-h8 diagonal.
pub open spec fn transposed(q: BoardPosition, p: BoardPosition) -> bool {
    &&& q.turn == p.turn
    &&& q.ep_square == p.ep_square
    &&& q.squares@.len() == 64
    &&& forall|s: int| 0 <= s < 64 ==> #[trigger] q.squares@[s] == p.squares@[transpose_square(s)]
}

impl Indexer {
    /// The index of valid compacted indexes of a pawnless table is in range.
    proof fn lemma_index_in_range(&self, buf: Seq<u64>)
        requires
            self.wf(),
            self.n_pawns == 0,
            valid_cpidx(self.piece_set@, buf),
            buf.len() == self.n_pieces,
        ensures
            mixed_index(self.piece_set@, buf, self.piece_set@.len() as int) < self.index_range,
    {
        let ps = self.piece_set@;
        let n = self.n_pieces as int;
        let len = ps.len() as int;
        self.lemma_pawnless_options();
        crate::indexer::lemma_layout_elements(ps, self.n_unique_pawns as int, n, self.n_pawns as int);
        assert(counts_subsets(ps)) by {
            assert forall|e: int| 0 <= e < ps.len() implies (#[trigger] ps[e]).combinations == binom(ps[e].n_squares as nat, ps[e].multiplicity as nat) by {
                assert(element_ok(ps[e], n));
            }
        }
        assert forall|e: int| 0 <= e < len implies 0 <= (#[trigger] ps[e]).span.1 - ps[e].multiplicity && ps[e].span.1 <= buf.len() by {
            assert(element_ok(ps[e], n));
        }
        lemma_mixed_index_from(ps, buf, len);
        lemma_mixed_from_bound(ps, buf, 0, len);
        lemma_comb_product_range(ps, len);
    }

    /// Reflecting across the a1-h8 diagonal is its own inverse, and keeps the
    /// kings of a pawnless table on that diagonal: so `diagonal_symmetric`
    /// of the reflected index gives back the first index.
    pub proof fn lemma_diagonal_involution(&self, p: BoardPosition, q: BoardPosition)
        requires
            self.wf(),
            self.n_pawns == 0,
            p.squares@.len() == 64,
            transposed(q, p),
        ensures
            transposed(p, q),
            self.kings_on_diagonal(p) ==> self.kings_on_diagonal(q),
    {
        reveal(crate::indexer::layout_ok);
        let ps = self.piece_set@;
        assert forall|s: int| 0 <= s < 64 implies #[trigger] p.squares@[s] == q.squares@[transpose_square(s)] by {
            let t = transpose_square(s);
            assert(0 <= t < 64);
            assert(transpose_square(t) == s);
        }
        if self.kings_on_diagonal(p) {
            self.lemma_pawnless_options();
            crate::indexer::lemma_layout_elements(ps, self.n_unique_pawns as int, self.n_pieces as int, self.n_pawns as int);
            assert(ps.len() >= 2);
            assert(!(ps[0].role is Pawn) && !(ps[1].role is Pawn));
            assert forall|s: int|
                #![trigger q.squares@[s]]
                0 <= s < 64 && (holds_element(q, s, ps[0]) || holds_element(q, s, ps[1])) implies s / 8 == s % 8 by {
                let t = transpose_square(s);
                assert(q.squares@[s] == p.squares@[t]);
                assert(p.squares@[t] == q.squares@[s]);
                assert(holds_element(p, t, ps[0]) || holds_element(p, t, ps[1]));
                assert(t / 8 == t % 8);
            }
        }
    }

    /// A position whose pieces all stand on the a1-h8 diagonal is its own
    /// reflection: `diagonal_symmetric` gives back its own index.
    pub proof fn lemma_diagonal_fixed(&self, p: BoardPosition)
        requires
            p.squares@.len() == 64,
            forall|s: int| 0 <= s < 64 && (#[trigger] p.squares@[s]) is Some ==> s / 8 == s % 8,
        ensures
            transposed(p, p),
    {
        assert forall|s: int| 0 <= s < 64 implies #[trigger] p.squares@[s] == p.squares@[transpose_square(s)] by {
            let t = transpose_square(s);
            if s / 8 == s % 8 {
                assert(t == s);
            } else {
                assert(t / 8 != t % 8);
                if p.squares@[s] is Some {
                    assert(false);
                }
                if p.squares@[t] is Some {
                    assert(t / 8 == t % 8);
                }
            }
        }
    }

    /// The pieces of the first two elements of `p` (the kings of a pawnless
    /// table) stand on the a1-h8 diagonal.
    pub open spec fn kings_on_diagonal(&self, p: BoardPosition) -> bool {
        forall|s: int|
            #![trigger p.squares@[s]]
            0 <= s < 64 && (holds_element(p, s, self.piece_set@[0]) || holds_element(p, s, self.piece_set@[1])) ==> s / 8 == s % 8
    }

    /// The compacted indexes of an index of a pawnless table are those of
    /// every position it stands for.
    proof fn lemma_pawnless_buffer(&self, index: u64, p: BoardPosition, bp: Seq<u64>, b: Seq<u64>)
        requires
            self.wf(),
            self.n_pawns == 0,
            self.decodes_with(index, p, bp),
            b.len() == self.n_pieces,
            valid_cpidx(self.piece_set@, b),
            mixed_index(self.piece_set@, b, self.piece_set@.len() as int) == index,
        ensures
            b == bp,
    {
        let ps = self.piece_set@;
        let n = self.n_pieces as int;
        self.lemma_pawnless_options();
        reveal(crate::indexer::layout_ok);
        crate::indexer::lemma_layout_elements(ps, self.n_unique_pawns as int, n, self.n_pawns as int);
        assert(counts_subsets(ps)) by {
            assert forall|e: int| 0 <= e < ps.len() implies (#[trigger] ps[e]).combinations == binom(ps[e].n_squares as nat, ps[e].multiplicity as nat) by {
                assert(element_ok(ps[e], n));
            }
        }
        assert forall|e: int| 0 <= e < ps.len() implies 0 <= (#[trigger] ps[e]).span.1 - ps[e].multiplicity && ps[e].span.1 <= b.len()
            && ps[e].span.1 <= bp.len() by {
            assert(element_ok(ps[e], n));
        }
        crate::radix::lemma_mixed_index_injective(ps, b, bp);
        assert forall|i: int| 0 <= i < n implies b[i] == bp[i] by {
            lemma_spans_cover(ps, n, self.n_pawns as int, self.n_unique_pawns as int, i);
            let e = choose|e: int| 0 <= e < ps.len() && (#[trigger] ps[e]).span.0 <= i < ps[e].span.1;
            let lo = ps[e].span.0 as int;
            assert(group_cpidx(ps[e], b) == group_cpidx(ps[e], bp));
            assert(group_cpidx(ps[e], b)[i - lo] == b[i]);
            assert(group_cpidx(ps[e], bp)[i - lo] == bp[i]);
        }
        assert(b =~= bp);
    }

    /// The kings of a position that an index of a pawnless table stands for
    /// are on the diagonal exactly when its first two squares are.
    proof fn lemma_kings_diagonal(&self, index: u64, p: BoardPosition, bp: Seq<u64>)
        requires
            self.wf(),
            self.n_pawns == 0,
            self.decodes_with(index, p, bp),
        ensures
            ({
                let sq = pawnless_squares(self.kings_map_from_index@, bp);
                self.kings_on_diagonal(p) <==> (sq[0] / 8 == sq[0] % 8 && sq[1] / 8 == sq[1] % 8)
            }),
    {
        let ps = self.piece_set@;
        let sq = pawnless_squares(self.kings_map_from_index@, bp);
        self.lemma_decoded_facts(p, bp);
        lemma_holding(p, ps[0], 64);
        lemma_holding(p, ps[1], 64);
        assert(sq.subrange(0, 1)[0] == sq[0]);
        assert(sq.subrange(1, 2)[0] == sq[1]);
        assert(holding(p, ps[0], 64).contains(sq[0]));
        assert(holding(p, ps[1], 64).contains(sq[1]));
        assert(holds_element(p, sq[0] as int, ps[0]));
        assert(holds_element(p, sq[1] as int, ps[1]));
        assert(p.squares@[sq[0] as int] == p.squares@[sq[0] as int]);
        assert(p.squares@[sq[1] as int] == p.squares@[sq[1] as int]);
        if sq[0] / 8 == sq[0] % 8 && sq[1] / 8 == sq[1] % 8 {
            assert forall|s: int|
                #![trigger p.squares@[s]]
                0 <= s < 64 && (holds_element(p, s, ps[0]) || holds_element(p, s, ps[1])) implies s / 8 == s % 8 by {
                if holds_element(p, s, ps[0]) {
                    assert(holding(p, ps[0], 64).contains(s as u64));
                    assert(sq.subrange(0, 1).contains(s as u64));
                } else {
                    assert(holding(p, ps[1], 64).contains(s as u64));
                    assert(sq.subrange(1, 2).contains(s as u64));
                }
            }
        }
    }
}

/// A group of distinct coordinates sorted from the highest, with the same
/// values as coordinates `a` whose squares are those of the decreasing `t`,
/// has the squares of `t`.
#[verifier::rlimit(40)]
#[verifier::spinoff_prover]
proof fn lemma_group_match_set(a: Seq<(u64, u64)>, bb: Seq<(u64, u64)>, t: Seq<u64>)
    requires
        same_elements(a, bb),
        on_board(a),
        on_board(bb),
        a.no_duplicates(),
        sorted_desc(bb, 0, bb.len() as int),
        strictly_decreasing(t),
        forall|x: u64| coord_squares(a).contains(x) <==> t.contains(x),
    ensures
        coord_squares(bb) == t,
{
    assert(bb.no_duplicates());
    let sa = coord_squares(a);
    let sb = coord_squares(bb);
    assert(strictly_decreasing(sb)) by {
        assert forall|i: int, j: int| 0 <= i < j < sb.len() implies sb[i] > sb[j] by {
            assert(coord_ge(bb[i], bb[j]));
            assert(bb[i] != bb[j]);
            assert(bb[i].0 < 8 && bb[i].1 < 8 && bb[j].0 < 8 && bb[j].1 < 8);
        }
    }
    assert forall|x: u64| sb.contains(x) <==> t.contains(x) by {
        if sb.contains(x) {
            let i = choose|i: int| 0 <= i < sb.len() && sb[i] == x;
            assert(bb.contains(bb[i]));
            assert(a.contains(bb[i]));
            let j = choose|j: int| 0 <= j < a.len() && a[j] == bb[i];
            assert(sa[j] == x);
            assert(sa.contains(x));
        }
        if t.contains(x) {
            assert(sa.contains(x));
            let j = choose|j: int| 0 <= j < sa.len() && sa[j] == x;
            assert(a.contains(a[j]));
            assert(bb.contains(a[j]));
            let i = choose|i: int| 0 <= i < bb.len() && bb[i] == a[j];
            assert(sb[i] == x);
        }
    }
    lemma_sorted_set_equal(sb, t);
}

/// One element of `lemma_transposed_sorted`.
#[verifier::rlimit(40)]
#[verifier::spinoff_prover]
proof fn lemma_transposed_group(
    p: BoardPosition,
    q: BoardPosition,
    pe: PieceSetElement,
    sq: Seq<u64>,
    sq2: Seq<u64>,
    a: Seq<(u64, u64)>,
    c: Seq<(u64, u64)>,
)
    requires
        transposed(q, p),
        p.squares@.len() == 64,
        !(pe.role is Pawn),
        pe.span.0 <= pe.span.1 <= sq.len() == sq2.len() == a.len() == c.len(),
        all_below(sq, 64),
        strictly_decreasing(sq.subrange(pe.span.0 as int, pe.span.1 as int)),
        strictly_decreasing(sq2.subrange(pe.span.0 as int, pe.span.1 as int)),
        forall|x: u64| #[trigger] holding(p, pe, 64).contains(x) <==> sq.subrange(pe.span.0 as int, pe.span.1 as int).contains(x),
        forall|x: u64| #[trigger] holding(q, pe, 64).contains(x) <==> sq2.subrange(pe.span.0 as int, pe.span.1 as int).contains(x),
        on_board(c),
        forall|k: int| 0 <= k < a.len() ==> #[trigger] a[k] == (sq[k] % 8, sq[k] / 8),
        sorted_desc(c, pe.span.0 as int, pe.span.1 as int),
        same_elements(a.subrange(pe.span.0 as int, pe.span.1 as int), c.subrange(pe.span.0 as int, pe.span.1 as int)),
    ensures
        coord_squares(c).subrange(pe.span.0 as int, pe.span.1 as int) == sq2.subrange(pe.span.0 as int, pe.span.1 as int),
{
    let lo = pe.span.0 as int;
    let hi = pe.span.1 as int;
    let asub = a.subrange(lo, hi);
    let csub = c.subrange(lo, hi);
    let t = sq2.subrange(lo, hi);
    lemma_holding(p, pe, 64);
    lemma_holding(q, pe, 64);
    assert(coord_squares(csub) =~= coord_squares(c).subrange(lo, hi));
    assert(on_board(asub)) by {
        assert forall|k: int| 0 <= k < asub.len() implies (#[trigger] asub[k]).0 < 8 && asub[k].1 < 8 by {
            assert(asub[k] == a[lo + k]);
            assert(sq[lo + k] < 64);
        }
    }
    assert(on_board(csub));
    assert(sorted_desc(csub, 0, csub.len() as int)) by {
        assert forall|x: int, y: int| 0 <= x < y < csub.len() implies coord_ge(#[trigger] csub[x], #[trigger] csub[y]) by {
            assert(coord_ge(c[lo + x], c[lo + y]));
        }
    }
    assert(asub.no_duplicates()) by {
        assert forall|x: int, y: int| 0 <= x < asub.len() && 0 <= y < asub.len() && x != y implies asub[x] != asub[y] by {
            assert(asub[x] == a[lo + x] && asub[y] == a[lo + y]);
            assert(sq.subrange(lo, hi)[x] == sq[lo + x] && sq.subrange(lo, hi)[y] == sq[lo + y]);
            assert(sq[lo + x] != sq[lo + y]);
            assert(sq[lo + x] < 64 && sq[lo + y] < 64);
        }
    }
    assert forall|x: u64| coord_squares(asub).contains(x) <==> t.contains(x) by {
        if coord_squares(asub).contains(x) {
            let k = choose|k: int| 0 <= k < coord_squares(asub).len() && coord_squares(asub)[k] == x;
            let y = sq[lo + k];
            assert(asub[k] == a[lo + k]);
            assert(y < 64);
            assert(x == (y % 8) * 8 + y / 8);
            assert(sq.subrange(lo, hi)[k] == y);
            assert(holding(p, pe, 64).contains(y));
            assert(holds_element(p, y as int, pe));
            assert(transpose_square(x as int) == y);
            assert(q.squares@[x as int] == p.squares@[y as int]);
            assert(holds_element(q, x as int, pe));
            assert(holding(q, pe, 64).contains(x));
        }
        if t.contains(x) {
            assert(holding(q, pe, 64).contains(x));
            assert(holds_element(q, x as int, pe));
            let y = transpose_square(x as int);
            assert(0 <= y < 64);
            assert(q.squares@[x as int] == p.squares@[y]);
            assert(holds_element(p, y, pe));
            assert(holding(p, pe, 64).contains(y as u64));
            assert(sq.subrange(lo, hi).contains(y as u64));
            let k = choose|k: int| 0 <= k < hi - lo && sq.subrange(lo, hi)[k] == y as u64;
            assert(asub[k] == a[lo + k]);
            assert(coord_squares(asub)[k] == x);
        }
    }
    lemma_group_match_set(asub, csub, t);
}

impl Indexer {
    /// The coordinates of the entries of a pawnless position reflected across
    /// the a1-h8 diagonal, sorted within each element, are the squares of the
    /// entries of any decoding of the reflected position.
    #[verifier::rlimit(80)]
    #[verifier::spinoff_prover]
    proof fn lemma_transposed_sorted(
        &self,
        index: u64,
        p: BoardPosition,
        bp: Seq<u64>,
        i2: u64,
        q: BoardPosition,
        b2: Seq<u64>,
        a: Seq<(u64, u64)>,
        c: Seq<(u64, u64)>,
    )
        requires
            self.wf(),
            self.n_pawns == 0,
            self.decodes_with(index, p, bp),
            self.decodes_with(i2, q, b2),
            transposed(q, p),
            a.len() == self.n_pieces,
            c.len() == self.n_pieces,
            on_board(c),
            forall|k: int| 0 <= k < a.len() ==> #[trigger] a[k] == (
                pawnless_squares(self.kings_map_from_index@, bp)[k] % 8,
                pawnless_squares(self.kings_map_from_index@, bp)[k] / 8,
            ),
            forall|e: int| 0 <= e < self.piece_set@.len() ==> sorted_desc(c,
                (#[trigger] self.piece_set@[e]).span.0 as int, self.piece_set@[e].span.1 as int),
            forall|e: int| 0 <= e < self.piece_set@.len() ==> same_elements(
                a.subrange((#[trigger] self.piece_set@[e]).span.0 as int, self.piece_set@[e].span.1 as int),
                c.subrange(self.piece_set@[e].span.0 as int, self.piece_set@[e].span.1 as int),
            ),
        ensures
            coord_squares(c) == pawnless_squares(self.kings_map_from_index@, b2),
    {
        self.lemma_decoded_facts(p, bp);
        self.lemma_decoded_facts(q, b2);
        reveal(crate::indexer::layout_ok);
        let ps = self.piece_set@;
        let n = self.n_pieces as int;
        let sq = pawnless_squares(self.kings_map_from_index@, bp);
        let sq2 = pawnless_squares(self.kings_map_from_index@, b2);
        crate::indexer::lemma_layout_elements(ps, self.n_unique_pawns as int, n, self.n_pawns as int);
        self.lemma_pawnless_options();
        assert forall|e: int| 0 <= e < ps.len() implies coord_squares(c).subrange(
            (#[trigger] ps[e]).span.0 as int,
            ps[e].span.1 as int,
        ) == sq2.subrange(ps[e].span.0 as int, ps[e].span.1 as int) by {
            assert(element_ok(ps[e], n));
            lemma_transposed_group(p, q, ps[e], sq, sq2, a, c);
        }
        assert forall|i: int| 0 <= i < n implies coord_squares(c)[i] == sq2[i] by {
            lemma_spans_cover(ps, n, self.n_pawns as int, self.n_unique_pawns as int, i);
            let e = choose|e: int| 0 <= e < ps.len() && (#[trigger] ps[e]).span.0 <= i < ps[e].span.1;
            let lo = ps[e].span.0 as int;
            assert(coord_squares(c).subrange(lo, ps[e].span.1 as int)[i - lo] == sq2.subrange(lo, ps[e].span.1 as int)[i - lo]);
        }
        assert(coord_squares(c) =~= sq2);
    }
}

impl Indexer {
    /// Encoding the reflection across the a1-h8 diagonal of a pawnless
    /// position, whose coordinates were read from its index, finds the
    /// compacted indexes of any decoding of the reflected position.
    #[verifier::rlimit(40)]
    #[verifier::spinoff_prover]
    proof fn lemma_diagonal_encoded(
        &self,
        index: u64,
        p: BoardPosition,
        bp: Seq<u64>,
        i2: u64,
        q: BoardPosition,
        b2: Seq<u64>,
        a: Seq<(u64, u64)>,
        c: Seq<(u64, u64)>,
        cpidx: Seq<u64>,
    )
        requires
            self.wf(),
            self.n_pawns == 0,
            self.decodes_with(index, p, bp),
            self.decodes_with(i2, q, b2),
            transposed(q, p),
            a.len() == self.n_pieces,
            c.len() == self.n_pieces,
            on_board(c),
            forall|k: int| 0 <= k < a.len() ==> #[trigger] a[k] == (
                pawnless_squares(self.kings_map_from_index@, bp)[k] % 8,
                pawnless_squares(self.kings_map_from_index@, bp)[k] / 8,
            ),
            forall|e: int| 0 <= e < self.piece_set@.len() ==> sorted_desc(c,
                (#[trigger] self.piece_set@[e]).span.0 as int, self.piece_set@[e].span.1 as int),
            forall|e: int| 0 <= e < self.piece_set@.len() ==> same_elements(
                a.subrange((#[trigger] self.piece_set@[e]).span.0 as int, self.piece_set@[e].span.1 as int),
                c.subrange(self.piece_set@[e].span.0 as int, self.piece_set@[e].span.1 as int),
            ),
            cpidx == compact(coord_squares(c)),
        ensures
            cpidx == kings_unmapped(self.kings_map_from_index@, b2),
            cpidx.len() == self.n_pieces,
            cpidx[0] < 64 && cpidx[1] < 63,
            self.kings_map_to_index@[cpidx[0] as int]@[cpidx[1] as int] == b2[0],
            b2[1] == 0,
    {
        self.lemma_transposed_sorted(index, p, bp, i2, q, b2, a, c);
        self.lemma_decoded_facts(q, b2);
    }

    /// What `diagonal_symmetric` computes for a position `p` that its index
    /// stands for, with the kings on the diagonal, and a decoding `i2` of the
    /// reflection `q` of `p`: the king pair can be numbered, and numbering it
    /// gives the compacted indexes of `i2`.
    #[verifier::rlimit(40)]
    #[verifier::spinoff_prover]
    proof fn lemma_diagonal_witness(
        &self,
        index: u64,
        b: Seq<u64>,
        a: Seq<(u64, u64)>,
        c: Seq<(u64, u64)>,
        cpidx: Seq<u64>,
        fin: Seq<u64>,
        numbered: bool,
        i2: u64,
        p: BoardPosition,
        q: BoardPosition,
    )
        requires
            self.wf(),
            self.n_pawns == 0,
            b.len() == self.n_pieces,
            valid_cpidx(self.piece_set@, b),
            mixed_index(self.piece_set@, b, self.piece_set@.len() as int) == index,
            a.len() == self.n_pieces,
            c.len() == self.n_pieces,
            on_board(c),
            forall|k: int| 0 <= k < a.len() ==> #[trigger] a[k] == (
                pawnless_squares(self.kings_map_from_index@, b)[k] % 8,
                pawnless_squares(self.kings_map_from_index@, b)[k] / 8,
            ),
            forall|e: int| 0 <= e < self.piece_set@.len() ==> sorted_desc(c,
                (#[trigger] self.piece_set@[e]).span.0 as int, self.piece_set@[e].span.1 as int),
            forall|e: int| 0 <= e < self.piece_set@.len() ==> same_elements(
                a.subrange((#[trigger] self.piece_set@[e]).span.0 as int, self.piece_set@[e].span.1 as int),
                c.subrange(self.piece_set@[e].span.0 as int, self.piece_set@[e].span.1 as int),
            ),
            cpidx == compact(coord_squares(c)),
            numbered ==> cpidx.len() >= 2 && fin == cpidx.update(
                0,
                self.kings_map_to_index@[cpidx[0] as int]@[cpidx[1] as int],
            ).update(1, 0),
            self.decodes_pawnless(index, p),
            self.kings_on_diagonal(p),
            transposed(q, p),
            self.decodes_pawnless(i2, q),
        ensures
            cpidx[0] < 64 && cpidx[1] < 64,
            numbered ==> valid_cpidx(self.piece_set@, fin) && mixed_index(self.piece_set@, fin, self.piece_set@.len() as int) == i2,
    {
        let bp = choose|bb: Seq<u64>| #[trigger] self.decodes_with(index, p, bb);
        let b2 = choose|bb: Seq<u64>| #[trigger] self.decodes_with(i2, q, bb);
        self.lemma_pawnless_buffer(index, p, bp, b);
        self.lemma_diagonal_encoded(index, p, bp, i2, q, b2, a, c, cpidx);
        if numbered {
            assert(fin =~= b2);
        }
    }
}

/// Appending a value below the last one keeps a sequence strictly decreasing.
proof fn lemma_push_decreasing(w: Seq<u64>, c: u64, last: u64)
    requires
        strictly_decreasing(w),
        w.len() > 0 ==> w[w.len() - 1] == last,
        c < last,
    ensures
        strictly_decreasing(w.push(c)),
{
    let s = w.push(c);
    assert forall|i: int, j: int| 0 <= i < j < s.len() implies s[i] > s[j] by {
        if j == w.len() {
            if i < w.len() - 1 {
                assert(w[i] > w[w.len() - 1]);
            }
        }
    }
}

/// Where the buffer entries of element `e` start (`n` past the last element).
pub open spec fn span_start(ps: Seq<PieceSetElement>, e: int, n: int) -> int {
    if e < ps.len() {
        ps[e].span.0 as int
    } else {
        n
    }
}

/// The coordinates reflected across the middle rank.
pub open spec fn flip_ranks(c: Seq<(u64, u64)>) -> Seq<(u64, u64)> {
    c.map_values(|p: (u64, u64)| ((7 - p.0) as u64, p.1))
}

/// The coordinates reflected across the middle file.
pub open spec fn flip_files(c: Seq<(u64, u64)>) -> Seq<(u64, u64)> {
    c.map_values(|p: (u64, u64)| (p.0, (7 - p.1) as u64))
}

/// The coordinates reflected across the a1-h8 diagonal.
pub open spec fn swap_coords(c: Seq<(u64, u64)>) -> Seq<(u64, u64)> {
    c.map_values(|p: (u64, u64)| (p.1, p.0))
}

/// The canonical form of a pawnless position under the symmetries of the
/// board: the first king on ranks 1-4, files a-d, on or below the diagonal;
/// with the first king on the diagonal, the second king decides.
pub open spec fn reduce_all(c: Seq<(u64, u64)>) -> Seq<(u64, u64)> {
    let c1 = if c[0].0 > 3 { flip_ranks(c) } else { c };
    let c2 = if c1[0].1 > 3 { flip_files(c1) } else { c1 };
    if c2[0].0 > c2[0].1 || (c2[0].0 == c2[0].1 && c2[1].0 > c2[1].1) {
        swap_coords(c2)
    } else {
        c2
    }
}

/// All coordinates are on the board.
pub open spec fn on_board(c: Seq<(u64, u64)>) -> bool {
    forall|i: int| 0 <= i < c.len() ==> (#[trigger] c[i]).0 < 8 && c[i].1 < 8
}

/// `a` comes after `b` in (rank, file) order.
pub open spec fn coord_gt(a: (u64, u64), b: (u64, u64)) -> bool {
    a.0 > b.0 || (a.0 == b.0 && a.1 > b.1)
}

/// The scratch keeps its elements and option; only the buffers change.
pub open spec fn same_setup(a: IndexerScratch, b: IndexerScratch) -> bool {
    &&& a.piece_set == b.piece_set
    &&& a.current_ep_option == b.current_ep_option
    &&& a.buffer_coord@.len() == b.buffer_coord@.len()
    &&& a.buffer_pidx@.len() == b.buffer_pidx@.len()
}

impl EgtRole {
    /// The board role of this role.
    pub fn to_role(&self) -> (r: Role)
        ensures
            r == board_role(*self),
    {
        match self {
            EgtRole::Pawn(_) => Role::Pawn,
            EgtRole::King => Role::King,
            EgtRole::Queen => Role::Queen,
            EgtRole::Rook => Role::Rook,
            EgtRole::Bishop => Role::Bishop,
            EgtRole::Knight => Role::Knight,
        }
    }
}

fn piece_of(p: &PieceSetElement, turn: Color) -> (r: Piece)
    ensures
        r == element_piece(*p, turn),
{
    let color = match p.side {
        EgtSide::SideToMove => turn,
        EgtSide::SideNotToMove => turn.other(),
    };
    Piece { color, role: p.role.to_role() }
}

fn same_piece(a: Option<Piece>, b: Piece) -> (r: bool)
    ensures
        r == (a == Some(b)),
{
    match a {
        Some(p) => p.color == b.color && p.role == b.role,
        None => false,
    }
}

impl Indexer {
    /// Reads the coordinates of the pieces of each element, ranks counted from
    /// the side to move when there are pawns. Returns false when the position
    /// does not have the pieces of this table.
    fn position_to_coord(&self, sc: &mut IndexerScratch, position: &BoardPosition) -> (ok: bool)
        requires
            self.wf(),
            self.scratch_wf(old(sc)),
            position.wf(),
        ensures
            same_setup(*final(sc), *old(sc)),
            ok ==> on_board(final(sc).buffer_coord@),
            ok <==> (occupied(*position, 64) == self.n_pieces && forall|e: int| 0 <= e < old(sc).piece_set@.len()
                ==> (#[trigger] holding(*position, old(sc).piece_set@[e], 64)).len() == old(sc).piece_set@[e].span.1
                - old(sc).piece_set@[e].span.0),
            ok && !(self.n_pawns > 0 && position.turn == Color::Black) ==> forall|e: int| 0 <= e < old(sc).piece_set@.len()
                ==> coord_squares(final(sc).buffer_coord@).subrange(
                (#[trigger] old(sc).piece_set@[e]).span.0 as int,
                old(sc).piece_set@[e].span.1 as int,
            ) == holding(*position, old(sc).piece_set@[e], 64),
            ok ==> forall|e: int| 0 <= e < old(sc).piece_set@.len() ==> abs_squares(
                final(sc).buffer_coord@,
                self.n_pawns > 0 && position.turn == Color::Black,
            ).subrange((#[trigger] old(sc).piece_set@[e]).span.0 as int, old(sc).piece_set@[e].span.1 as int) == holding(
                *position,
                old(sc).piece_set@[e],
                64,
            ),
    {
        proof {
            self.lemma_scratch_elements(sc);
        }
        let ghost ps = sc.piece_set@;
        let ghost pos = *position;
        let n = self.n_pieces;
        // The position has as many pieces as the table.
        let mut count: usize = 0;
        let mut sq: usize = 0;
        while sq < 64
            invariant
                0 <= sq <= 64,
                count == occupied(pos, sq as int),
                count <= sq,
                position.wf(),
                pos == *position,
            decreases 64 - sq,
        {
            if position.squares[sq].is_some() {
                count += 1;
            }
            sq += 1;
        }
        if count != n {
            return false;
        }
        let ghost orig = *sc;
        let mut e: usize = 0;
        while e < sc.piece_set.len()
            invariant
                0 <= e <= sc.piece_set.len(),
                same_setup(*sc, *old(sc)),
                sc.piece_set@ == ps,
                elements_ok(ps, n as int, self.n_pawns as int, self.n_unique_pawns as int),
                sc.buffer_coord@.len() == n,
                position.wf(),
                pos == *position,
                occupied(pos, 64) == n,
                forall|i: int| 0 <= i < span_start(ps, e as int, n as int) ==> (#[trigger] sc.buffer_coord@[i]).0 < 8
                    && sc.buffer_coord@[i].1 < 8,
                forall|e2: int| 0 <= e2 < e ==> (#[trigger] holding(pos, ps[e2], 64)).len() == ps[e2].span.1 - ps[e2].span.0,
                forall|e2: int| 0 <= e2 < e ==> coord_squares(sc.buffer_coord@).subrange(
                    (#[trigger] ps[e2]).span.0 as int,
                    ps[e2].span.1 as int,
                ) == holding(pos, ps[e2], 64),
            decreases sc.piece_set.len() - e,
        {
            let p = sc.piece_set[e];
            proof {
                assert(element_ok(ps[e as int], n as int));
                if e + 1 < ps.len() {
                    assert(ps[e as int].span.1 == ps[e + 1].span.0);
                }
            }
            let ghost before = sc.buffer_coord@;
            let piece = piece_of(&p, position.turn);
            let mut c: usize = p.span.0;
            let mut sq: usize = 0;
            proof {
                assert(coord_squares(sc.buffer_coord@).subrange(p.span.0 as int, c as int) =~= holding(pos, p, 0));
            }
            while sq < 64
                invariant
                    0 <= sq <= 64,
                    p.span.0 <= c <= p.span.1 <= n,
                    p == ps[e as int],
                    0 <= e < ps.len(),
                    piece == element_piece(p, position.turn),
                    sc.buffer_coord@.len() == n,
                    same_setup(*sc, *old(sc)),
                    sc.piece_set@ == ps,
                    position.wf(),
                    pos == *position,
                    c - p.span.0 == holding(pos, p, sq as int).len(),
                    coord_squares(sc.buffer_coord@).subrange(p.span.0 as int, c as int) == holding(pos, p, sq as int),
                    forall|i: int| 0 <= i < n && (i < p.span.0 || p.span.1 <= i) ==> #[trigger] sc.buffer_coord@[i] == before[i],
                    forall|i: int| 0 <= i < n && i < c ==> (#[trigger] sc.buffer_coord@[i]).0 < 8 && sc.buffer_coord@[i].1 < 8
                        || i < p.span.0 && before[i] == sc.buffer_coord@[i],
                decreases 64 - sq,
            {
                let file_ok = match p.role {
                    EgtRole::Pawn(f) => sq % 8 == f.to_usize(),
                    _ => true,
                };
                let ghost b2 = sc.buffer_coord@;
                proof {
                    assert(file_ok && position.squares@[sq as int] == Some(piece) <==> holds_element(pos, sq as int, p));
                }
                if file_ok && same_piece(position.squares[sq], piece) {
                    if c >= p.span.1 {
                        proof {
                            lemma_holding_len_mono(pos, p, sq + 1, 64);
                        }
                        return false;
                    }
                    sc.buffer_coord.set(c, ((sq / 8) as u64, (sq % 8) as u64));
                    proof {
                        assert(coord_squares(sc.buffer_coord@).subrange(p.span.0 as int, c + 1) =~= holding(pos, p, sq + 1)) by {
                            assert(holding(pos, p, sq + 1) == holding(pos, p, sq as int) + seq![sq as u64]);
                            assert(coord_squares(sc.buffer_coord@)[c as int] == sq);
                            assert forall|k: int| p.span.0 <= k < c implies coord_squares(sc.buffer_coord@)[k] == coord_squares(b2)[k] by {}
                        }
                    }
                    c += 1;
                } else {
                    proof {
                        assert(holding(pos, p, sq + 1) == holding(pos, p, sq as int));
                    }
                }
                sq += 1;
            }
            if c != p.span.1 {
                return false;
            }
            proof {
                assert forall|e2: int| 0 <= e2 < e implies coord_squares(sc.buffer_coord@).subrange(
                    (#[trigger] ps[e2]).span.0 as int,
                    ps[e2].span.1 as int,
                ) == holding(pos, ps[e2], 64) by {
                    assert(ps[e2].span.1 <= ps[e as int].span.0);
                    assert(element_ok(ps[e2], n as int));
                    assert(coord_squares(sc.buffer_coord@).subrange(ps[e2].span.0 as int, ps[e2].span.1 as int) =~= coord_squares(
                        before,
                    ).subrange(ps[e2].span.0 as int, ps[e2].span.1 as int));
                }
                assert forall|i: int| 0 <= i < span_start(ps, e + 1, n as int) implies (#[trigger] sc.buffer_coord@[i]).0 < 8
                    && sc.buffer_coord@[i].1 < 8 by {
                    if i < p.span.0 {
                        assert(sc.buffer_coord@[i] == before[i]);
                    }
                }
            }
            e += 1;
        }
        proof {
            if ps.len() == 0 {
                assert(n == 0);
            }
        }
        let ghost gathered = sc.buffer_coord@;
        proof {
            assert(on_board(gathered));
            assert(abs_squares(gathered, false) =~= coord_squares(gathered));
        }
        if self.n_pawns > 0 && position.turn == Color::Black {
            // Count the ranks from the side to move.
            let mut i: usize = 0;
            while i < n
                invariant
                    0 <= i <= n,
                    sc.buffer_coord@.len() == n,
                    gathered.len() == n,
                    on_board(gathered),
                    same_setup(*sc, *old(sc)),
                    on_board(sc.buffer_coord@),
                    forall|k: int| 0 <= k < i ==> #[trigger] sc.buffer_coord@[k] == ((7 - gathered[k].0) as u64, gathered[k].1),
                    forall|k: int| i <= k < n ==> #[trigger] sc.buffer_coord@[k] == gathered[k],
                decreases n - i,
            {
                let (r, f) = sc.buffer_coord[i];
                sc.buffer_coord.set(i, (7 - r, f));
                i += 1;
            }
            proof {
                assert(abs_squares(sc.buffer_coord@, true) =~= coord_squares(gathered)) by {
                    assert forall|k: int| 0 <= k < n implies abs_squares(sc.buffer_coord@, true)[k] == coord_squares(gathered)[k] by {
                        assert(sc.buffer_coord@[k] == ((7 - gathered[k].0) as u64, gathered[k].1));
                        assert(gathered[k].0 < 8);
                    }
                }
            }
        }
        true
    }

    /// Reduces a pawnless position by the symmetries of the board.
    fn reduce_symmetries(&self, sc: &mut IndexerScratch)
        requires
            old(sc).buffer_coord@.len() >= 2,
            on_board(old(sc).buffer_coord@),
        ensures
            same_setup(*final(sc), *old(sc)),
            final(sc).buffer_coord@ == reduce_all(old(sc).buffer_coord@),
            on_board(final(sc).buffer_coord@),
    {
        let ghost c0 = sc.buffer_coord@;
        let n = sc.buffer_coord.len();
        let ghost orig = *sc;
        if sc.buffer_coord[0].0 > 3 {
            let mut i: usize = 0;
            while i < n
                invariant
                    0 <= i <= n == sc.buffer_coord@.len(),
                    same_setup(*sc, *old(sc)),
                    on_board(c0),
                    c0.len() == n,
                    forall|k: int| 0 <= k < i ==> #[trigger] sc.buffer_coord@[k] == ((7 - c0[k].0) as u64, c0[k].1),
                    forall|k: int| i <= k < n ==> #[trigger] sc.buffer_coord@[k] == c0[k],
                decreases n - i,
            {
                let (r, f) = sc.buffer_coord[i];
                sc.buffer_coord.set(i, (7 - r, f));
                i += 1;
            }
            assert(sc.buffer_coord@ =~= flip_ranks(c0));
        }
        let ghost c1 = sc.buffer_coord@;
        assert(c1 == (if c0[0].0 > 3 { flip_ranks(c0) } else { c0 }));
        assert(on_board(c1));
        if sc.buffer_coord[0].1 > 3 {
            let mut i: usize = 0;
            while i < n
                invariant
                    0 <= i <= n == sc.buffer_coord@.len(),
                    same_setup(*sc, *old(sc)),
                    on_board(c1),
                    c1.len() == n,
                    forall|k: int| 0 <= k < i ==> #[trigger] sc.buffer_coord@[k] == (c1[k].0, (7 - c1[k].1) as u64),
                    forall|k: int| i <= k < n ==> #[trigger] sc.buffer_coord@[k] == c1[k],
                decreases n - i,
            {
                let (r, f) = sc.buffer_coord[i];
                sc.buffer_coord.set(i, (r, 7 - f));
                i += 1;
            }
            assert(sc.buffer_coord@ =~= flip_files(c1));
        }
        let ghost c2 = sc.buffer_coord@;
        assert(on_board(c2));
        let a = sc.buffer_coord[0];
        let b = sc.buffer_coord[1];
        if a.0 > a.1 || (a.0 == a.1 && b.0 > b.1) {
            let mut i: usize = 0;
            while i < n
                invariant
                    0 <= i <= n == sc.buffer_coord@.len(),
                    same_setup(*sc, *old(sc)),
                    on_board(c2),
                    c2.len() == n,
                    forall|k: int| 0 <= k < i ==> #[trigger] sc.buffer_coord@[k] == (c2[k].1, c2[k].0),
                    forall|k: int| i <= k < n ==> #[trigger] sc.buffer_coord@[k] == c2[k],
                decreases n - i,
            {
                let (r, f) = sc.buffer_coord[i];
                sc.buffer_coord.set(i, (f, r));
                i += 1;
            }
            assert(sc.buffer_coord@ =~= swap_coords(c2));
        }
    }
}

/// `a` is at or after `b` in (rank, file) order.
pub open spec fn coord_ge(a: (u64, u64), b: (u64, u64)) -> bool {
    !coord_gt(b, a)
}

/// `v[lo..hi]` is sorted from the highest coordinate to the lowest.
pub open spec fn sorted_desc(v: Seq<(u64, u64)>, lo: int, hi: int) -> bool {
    forall|a: int, b: int| lo <= a < b < hi ==> coord_ge(#[trigger] v[a], #[trigger] v[b])
}

/// Sorts `v[lo..hi]` from the highest coordinate to the lowest (insertion sort).
fn sort_desc(v: &mut Vec<(u64, u64)>, lo: usize, hi: usize)
    requires
        lo <= hi <= old(v)@.len(),
        on_board(old(v)@),
    ensures
        final(v)@.len() == old(v)@.len(),
        on_board(final(v)@),
        forall|k: int| 0 <= k < old(v)@.len() && (k < lo || hi <= k) ==> #[trigger] final(v)@[k] == old(v)@[k],
        sorted_desc(final(v)@, lo as int, hi as int),
        same_elements(old(v)@.subrange(lo as int, hi as int), final(v)@.subrange(lo as int, hi as int)),
{
    if hi - lo <= 1 {
        return;
    }
    let ghost orig = v@;
    let ghost osub = orig.subrange(lo as int, hi as int);
    let mut i: usize = lo + 1;
    while i < hi
        invariant
            lo < i <= hi <= v@.len(),
            v@.len() == orig.len(),
            on_board(v@),
            forall|k: int| 0 <= k < orig.len() && (k < lo || hi <= k) ==> #[trigger] v@[k] == orig[k],
            sorted_desc(v@, lo as int, i as int),
            osub == orig.subrange(lo as int, hi as int),
            same_elements(osub, v@.subrange(lo as int, hi as int)),
        decreases hi - i,
    {
        let mut j: usize = i;
        while j > lo && coord_after(v[j], v[j - 1])
            invariant
                lo <= j <= i < hi <= v@.len(),
                v@.len() == orig.len(),
                on_board(v@),
                forall|k: int| 0 <= k < orig.len() && (k < lo || hi <= k) ==> #[trigger] v@[k] == orig[k],
                forall|a: int, b: int|
                    lo <= a < b <= i && a != j && b != j ==> coord_ge(#[trigger] v@[a], #[trigger] v@[b]),
                forall|b: int| j < b <= i ==> coord_gt(v@[j as int], #[trigger] v@[b]),
                osub == orig.subrange(lo as int, hi as int),
                same_elements(osub, v@.subrange(lo as int, hi as int)),
            decreases j,
        {
            let ghost before = v@;
            let x = v[j - 1];
            let y = v[j];
            v.set(j - 1, y);
            v.set(j, x);
            proof {
                let bs = before.subrange(lo as int, hi as int);
                assert(v@.subrange(lo as int, hi as int) =~= bs.update(j - 1 - lo, bs[j - lo]).update(j - lo, bs[j - 1 - lo]));
                lemma_swap_same_elements(bs, j - 1 - lo, j - lo);
                lemma_same_elements_trans(osub, bs, v@.subrange(lo as int, hi as int));
            }
            j -= 1;
        }
        i += 1;
    }
}

/// Both sequences hold the same values, and the second has no repeated
/// value where the first has none.
pub open spec fn same_elements<A>(a: Seq<A>, b: Seq<A>) -> bool {
    &&& a.len() == b.len()
    &&& forall|x: A| a.contains(x) <==> b.contains(x)
    &&& a.no_duplicates() ==> b.no_duplicates()
}

proof fn lemma_swap_same_elements<A>(s: Seq<A>, a: int, b: int)
    requires
        0 <= a < s.len(),
        0 <= b < s.len(),
    ensures
        same_elements(s, s.update(a, s[b]).update(b, s[a])),
{
    let t = s.update(a, s[b]).update(b, s[a]);
    assert forall|x: A| s.contains(x) <==> t.contains(x) by {
        if s.contains(x) {
            let k = choose|k: int| 0 <= k < s.len() && s[k] == x;
            let k2 = if k == a { b } else if k == b { a } else { k };
            assert(t[k2] == x);
        }
        if t.contains(x) {
            let k = choose|k: int| 0 <= k < t.len() && t[k] == x;
            let k2 = if k == a { b } else if k == b { a } else { k };
            assert(s[k2] == x);
        }
    }
    if s.no_duplicates() {
        assert forall|i: int, j: int| 0 <= i < t.len() && 0 <= j < t.len() && i != j implies t[i] != t[j] by {
            let i2 = if i == a { b } else if i == b { a } else { i };
            let j2 = if j == a { b } else if j == b { a } else { j };
            assert(t[i] == s[i2]);
            assert(t[j] == s[j2]);
        }
    }
}

proof fn lemma_same_elements_trans<A>(a: Seq<A>, b: Seq<A>, c: Seq<A>)
    requires
        same_elements(a, b),
        same_elements(b, c),
    ensures
        same_elements(a, c),
{
}

fn coord_after(a: (u64, u64), b: (u64, u64)) -> (r: bool)
    ensures
        r == coord_gt(a, b),
{
    a.0 > b.0 || (a.0 == b.0 && a.1 > b.1)
}

impl Indexer {
    /// Sorts the coordinates of the pieces of each element from highest to lowest.
    fn sort_coord_repeated_pieces(&self, sc: &mut IndexerScratch)
        requires
            self.wf(),
            self.scratch_wf(old(sc)),
            on_board(old(sc).buffer_coord@),
        ensures
            same_setup(*final(sc), *old(sc)),
            on_board(final(sc).buffer_coord@),
            forall|e: int| 0 <= e < final(sc).piece_set@.len() ==> sorted_desc(final(sc).buffer_coord@,
                (#[trigger] final(sc).piece_set@[e]).span.0 as int, final(sc).piece_set@[e].span.1 as int),
            forall|e: int| 0 <= e < final(sc).piece_set@.len() ==> same_elements(
                old(sc).buffer_coord@.subrange((#[trigger] final(sc).piece_set@[e]).span.0 as int, final(sc).piece_set@[e].span.1 as int),
                final(sc).buffer_coord@.subrange(final(sc).piece_set@[e].span.0 as int, final(sc).piece_set@[e].span.1 as int),
            ),
    {
        proof {
            self.lemma_scratch_elements(sc);
        }
        let ghost ps = sc.piece_set@;
        let ghost c0 = sc.buffer_coord@;
        let n = self.n_pieces;
        let mut e: usize = 0;
        while e < sc.piece_set.len()
            invariant
                0 <= e <= sc.piece_set.len(),
                same_setup(*sc, *old(sc)),
                sc.piece_set@ == ps,
                c0 == old(sc).buffer_coord@,
                elements_ok(ps, n as int, self.n_pawns as int, self.n_unique_pawns as int),
                sc.buffer_coord@.len() == n,
                on_board(sc.buffer_coord@),
                forall|e2: int| 0 <= e2 < e ==> sorted_desc(sc.buffer_coord@, (#[trigger] ps[e2]).span.0 as int, ps[e2].span.1 as int),
                forall|e2: int| 0 <= e2 < e ==> same_elements(
                    c0.subrange((#[trigger] ps[e2]).span.0 as int, ps[e2].span.1 as int),
                    sc.buffer_coord@.subrange(ps[e2].span.0 as int, ps[e2].span.1 as int),
                ),
                forall|i: int| span_start(ps, e as int, n as int) <= i < n ==> #[trigger] sc.buffer_coord@[i] == c0[i],
            decreases sc.piece_set.len() - e,
        {
            let p = sc.piece_set[e];
            proof {
                assert(element_ok(ps[e as int], n as int));
                if e + 1 < ps.len() {
                    assert(ps[e as int].span.1 == ps[e + 1].span.0);
                }
            }
            let ghost before = sc.buffer_coord@;
            proof {
                assert(before.subrange(p.span.0 as int, p.span.1 as int) =~= c0.subrange(p.span.0 as int, p.span.1 as int));
            }
            if p.span.1 - p.span.0 > 1 {
                sort_desc(&mut sc.buffer_coord, p.span.0, p.span.1);
            }
            proof {
                assert forall|e2: int| 0 <= e2 < e + 1 implies sorted_desc(sc.buffer_coord@, (#[trigger] ps[e2]).span.0 as int, ps[e2].span.1 as int)
                    && same_elements(
                    c0.subrange(ps[e2].span.0 as int, ps[e2].span.1 as int),
                    sc.buffer_coord@.subrange(ps[e2].span.0 as int, ps[e2].span.1 as int),
                ) by {
                    if e2 < e {
                        assert(ps[e2].span.1 <= ps[e as int].span.0);
                        assert(element_ok(ps[e2], n as int));
                        assert forall|a: int, b: int| ps[e2].span.0 <= a < b < ps[e2].span.1 implies coord_ge(#[trigger] sc.buffer_coord@[a], #[trigger] sc.buffer_coord@[b]) by {
                            assert(sc.buffer_coord@[a] == before[a]);
                            assert(sc.buffer_coord@[b] == before[b]);
                        }
                        assert(sc.buffer_coord@.subrange(ps[e2].span.0 as int, ps[e2].span.1 as int) =~= before.subrange(ps[e2].span.0 as int, ps[e2].span.1 as int));
                    } else if p.span.1 - p.span.0 <= 1 {
                        assert(sc.buffer_coord@ == before);
                    }
                }
                assert forall|i: int| span_start(ps, e + 1, n as int) <= i < n implies #[trigger] sc.buffer_coord@[i] == c0[i] by {
                    assert(sc.buffer_coord@[i] == before[i]);
                }
            }
            e += 1;
        }
    }

    /// Square index `rank * 8 + file` of each piece.
    fn coord_to_pidx(&self, sc: &mut IndexerScratch)
        requires
            old(sc).buffer_coord@.len() == old(sc).buffer_pidx@.len(),
            on_board(old(sc).buffer_coord@),
        ensures
            same_setup(*final(sc), *old(sc)),
            final(sc).buffer_coord == old(sc).buffer_coord,
            forall|i: int| 0 <= i < final(sc).buffer_pidx@.len() ==> #[trigger] final(sc).buffer_pidx@[i]
                == old(sc).buffer_coord@[i].0 * 8 + old(sc).buffer_coord@[i].1,
            all_below(final(sc).buffer_pidx@, 64),
    {
        let n = sc.buffer_pidx.len();
        let mut i: usize = 0;
        while i < n
            invariant
                0 <= i <= n == sc.buffer_pidx@.len() == sc.buffer_coord@.len(),
                same_setup(*sc, *old(sc)),
                sc.buffer_coord == old(sc).buffer_coord,
                on_board(sc.buffer_coord@),
                forall|k: int| 0 <= k < i ==> #[trigger] sc.buffer_pidx@[k] == sc.buffer_coord@[k].0 * 8 + sc.buffer_coord@[k].1,
                forall|k: int| 0 <= k < i ==> #[trigger] sc.buffer_pidx@[k] < 64,
            decreases n - i,
        {
            let (r, f) = sc.buffer_coord[i];
            sc.buffer_pidx.set(i, r * 8 + f);
            i += 1;
        }
    }

    /// Pawn indexes in `0..6` (rank 2 to rank 7) in place of square indexes.
    /// Returns false when a pawn stands on the first rank.
    #[verifier::rlimit(60)]
    #[verifier::spinoff_prover]
    fn pawn_pidx_to_cpidx(&self, sc: &mut IndexerScratch) -> (ok: bool)
        requires
            self.wf(),
            self.scratch_wf(old(sc)),
            on_board(old(sc).buffer_coord@),
        ensures
            same_setup(*final(sc), *old(sc)),
            final(sc).buffer_coord == old(sc).buffer_coord,
            forall|i: int| self.n_pawns <= i < self.n_pieces ==> #[trigger] final(sc).buffer_pidx@[i] == old(sc).buffer_pidx@[i],
            ok ==> forall|i: int| 0 <= i < self.n_pawns ==> #[trigger] final(sc).buffer_pidx@[i] == old(sc).buffer_coord@[i].0 - 1,
            ok <==> forall|i: int| 0 <= i < self.n_pawns ==> #[trigger] old(sc).buffer_coord@[i].0 >= 1,
    {
        proof {
            self.lemma_scratch_elements(sc);
        }
        let ghost ps = sc.piece_set@;
        let ghost nup = self.n_unique_pawns as int;
        let ghost np = self.n_pawns as int;
        let n = self.n_pieces;
        proof {
            lemma_pawn_spans(ps, n as int, np, nup);
        }
        let mut e: usize = 0;
        while e < self.n_unique_pawns
            invariant
                0 <= e <= self.n_unique_pawns <= sc.piece_set@.len(),
                nup == self.n_unique_pawns,
                np == self.n_pawns,
                n == self.n_pieces,
                same_setup(*sc, *old(sc)),
                sc.buffer_coord == old(sc).buffer_coord,
                sc.piece_set@ == ps,
                elements_ok(ps, n as int, self.n_pawns as int, self.n_unique_pawns as int),
                sc.buffer_coord@.len() == n,
                sc.buffer_pidx@.len() == n,
                nup > 0 ==> ps[nup - 1].span.1 == np,
                forall|k: int| 0 <= k < span_start(ps, e as int, np) ==> #[trigger] sc.buffer_pidx@[k] == old(sc).buffer_coord@[k].0 - 1
                    && old(sc).buffer_coord@[k].0 >= 1,
                forall|k: int| np <= k < n ==> #[trigger] sc.buffer_pidx@[k] == old(sc).buffer_pidx@[k],
                e < nup ==> ps[e as int].span.0 < np || ps[e as int].span.0 == ps[e as int].span.1,
            decreases self.n_unique_pawns - e,
        {
            let p = sc.piece_set[e];
            proof {
                assert(element_ok(ps[e as int], n as int));
                if e + 1 < nup {
                    assert(ps[e as int].span.1 == ps[e + 1].span.0);
                }
                assert(span_start(ps, e as int, np) == p.span.0);
            }
            let mut i: usize = p.span.0;
            while i < p.span.1
                invariant
                    p.span.0 <= i <= p.span.1 <= np <= n,
                    np == self.n_pawns,
                    n == self.n_pieces,
                    e < nup,
                    nup == self.n_unique_pawns,
                    p == ps[e as int],
                    same_setup(*sc, *old(sc)),
                    sc.buffer_coord == old(sc).buffer_coord,
                    sc.piece_set@ == ps,
                    sc.buffer_coord@.len() == n,
                    sc.buffer_pidx@.len() == n,
                    forall|k: int| 0 <= k < i ==> #[trigger] sc.buffer_pidx@[k] == old(sc).buffer_coord@[k].0 - 1
                        && old(sc).buffer_coord@[k].0 >= 1,
                    forall|k: int| np <= k < n ==> #[trigger] sc.buffer_pidx@[k] == old(sc).buffer_pidx@[k],
                decreases p.span.1 - i,
            {
                let r = sc.buffer_coord[i].0;
                if r == 0 {
                    return false;
                }
                let ghost before = sc.buffer_pidx@;
                sc.buffer_pidx.set(i, r - 1);
                proof {
                    assert forall|k: int| 0 <= k < i + 1 implies #[trigger] sc.buffer_pidx@[k] == old(sc).buffer_coord@[k].0 - 1
                        && old(sc).buffer_coord@[k].0 >= 1 by {
                        if k < i {
                            assert(sc.buffer_pidx@[k] == before[k]);
                        } else {
                            assert(old(sc).buffer_coord@[k].0 == r);
                        }
                    }
                }
                i += 1;
            }
            proof {
                if e + 1 == nup && nup < ps.len() {
                    assert(ps[e as int].span.1 == ps[e + 1].span.0);
                }
                assert(span_start(ps, e + 1, np) == p.span.1);
            }
            e += 1;
        }
        proof {
            if nup < ps.len() {
                if nup > 0 {
                    assert(ps[nup - 1].span.1 == ps[nup].span.0);
                } else {
                    assert(ps[0].span.0 == 0);
                }
            }
            assert(span_start(ps, nup, np) == np);
            assert forall|i: int| 0 <= i < self.n_pawns implies #[trigger] old(sc).buffer_coord@[i].0 >= 1 by {
                assert(sc.buffer_pidx@[i] == old(sc).buffer_coord@[i].0 - 1);
            }
        }
        true
    }

    /// Compacts the indexes of the pawns of both sides on each file with
    /// pawns of both sides.
    fn compact_pawn_files(&self, sc: &mut IndexerScratch)
        requires
            self.wf(),
            self.scratch_wf(old(sc)),
        ensures
            same_setup(*final(sc), *old(sc)),
            final(sc).buffer_coord == old(sc).buffer_coord,
            pairs_mapped(old(sc).piece_set@, self.n_unique_pawns as int, old(sc).buffer_pidx@, final(sc).buffer_pidx@,
                self.n_unique_pawns as int, |s: Seq<u64>| compact(s)),
    {
        proof {
            self.lemma_scratch_elements(sc);
            self.lemma_scratch_distinct(sc);
        }
        let ghost ps = sc.piece_set@;
        let ghost b0 = sc.buffer_pidx@;
        let ghost nup = self.n_unique_pawns as int;
        let ghost f = |s: Seq<u64>| compact(s);
        let n = self.n_pieces;
        let mut e: usize = 1;
        proof {
            assert forall|i: int| 0 <= i < b0.len() && !in_file_pair(ps, nup, i, 1) implies sc.buffer_pidx@[i] == b0[i] by {}
        }
        while e < self.n_unique_pawns
            invariant
                1 <= e,
                e <= self.n_unique_pawns || self.n_unique_pawns == 0,
                self.n_unique_pawns <= sc.piece_set@.len(),
                nup == self.n_unique_pawns,
                same_setup(*sc, *old(sc)),
                sc.buffer_coord == old(sc).buffer_coord,
                sc.piece_set@ == ps,
                ps == old(sc).piece_set@,
                b0 == old(sc).buffer_pidx@,
                b0.len() == n,
                f == (|s: Seq<u64>| compact(s)),
                elements_ok(ps, n as int, self.n_pawns as int, self.n_unique_pawns as int),
                distinct_entries(ps),
                sc.buffer_pidx@.len() == n,
                pairs_mapped(ps, nup, b0, sc.buffer_pidx@, e as int, f),
            decreases self.n_unique_pawns - e,
        {
            let ghost cur = sc.buffer_pidx@;
            if sc.piece_set[e - 1].role == sc.piece_set[e].role {
                proof {
                    assert(element_ok(ps[e - 1], n as int));
                    assert(element_ok(ps[e as int], n as int));
                    assert(ps[e - 1].span.1 <= ps[e as int].span.0);
                }
                let lo = sc.piece_set[e - 1].span.0;
                let hi = sc.piece_set[e].span.1;
                compact_pidx(&mut sc.buffer_pidx, lo, hi);
                proof {
                    crate::compaction::lemma_compact_len(cur.subrange(lo as int, hi as int));
                }
            }
            proof {
                lemma_pairs_mapped_step(ps, n as int, self.n_pawns as int, nup, b0, cur, sc.buffer_pidx@, e as int, f);
            }
            e += 1;
        }
        proof {
            if self.n_unique_pawns == 0 {
                assert forall|i: int| 0 <= i < b0.len() && !in_file_pair(ps, nup, i, nup) implies sc.buffer_pidx@[i] == b0[i] by {
                    assert(!in_file_pair(ps, nup, i, 1)) by {
                        if in_file_pair(ps, nup, i, nup) {
                            let e1 = choose|e1: int| #![trigger file_pair(ps, nup, e1)] e1 < nup && file_pair(ps, nup, e1) && ps[e1 - 1].span.0 <= i < ps[e1].span.1;
                        }
                    }
                }
            }
        }
    }

    /// Numbers the two kings of a pawnless position together: the first index
    /// becomes the number of the pair, the second 0. Returns false when the
    /// squares are not those of a canonical pair.
    fn map_kings(&self, sc: &mut IndexerScratch) -> (ok: bool)
        requires
            self.wf(),
            old(sc).buffer_pidx@.len() >= 2,
        ensures
            same_setup(*final(sc), *old(sc)),
            final(sc).buffer_coord == old(sc).buffer_coord,
            ok <==> old(sc).buffer_pidx@[0] < 64 && old(sc).buffer_pidx@[1] < 64,
            ok ==> old(sc).buffer_pidx@[0] < 64 && old(sc).buffer_pidx@[1] < 64 && final(sc).buffer_pidx@ == old(sc).buffer_pidx@.update(
                0,
                self.kings_map_to_index@[old(sc).buffer_pidx@[0] as int]@[old(sc).buffer_pidx@[1] as int],
            ).update(1, 0),
    {
        proof {
            reveal(crate::indexer::kings_ok);
        }
        let a = sc.buffer_pidx[0];
        let b = sc.buffer_pidx[1];
        if a >= 64 || b >= 64 {
            return false;
        }
        assert(self.kings_map_to_index@[a as int].len() == 64);
        let code = self.kings_map_to_index[a as usize][b as usize];
        sc.buffer_pidx.set(0, code);
        sc.buffer_pidx.set(1, 0);
        true
    }

    /// Combines the subset ranks of the groups in mixed radix. Returns None
    /// when an index is out of its range, the indexes of a group do not
    /// decrease, or the result does not fit in 64 bits.
    pub fn cpidx_to_index(&self, sc: &IndexerScratch) -> (r: Option<u64>)
        requires
            self.wf(),
            self.scratch_wf(sc),
        ensures
            r is Some <==> valid_cpidx(sc.piece_set@, sc.buffer_pidx@) && mixed_index(
                sc.piece_set@,
                sc.buffer_pidx@,
                sc.piece_set@.len() as int,
            ) <= u64::MAX,
            r matches Some(v) ==> v == mixed_index(sc.piece_set@, sc.buffer_pidx@, sc.piece_set@.len() as int),
    {
        proof {
            self.lemma_scratch_elements(sc);
        }
        let ghost ps = sc.piece_set@;
        let ghost buf = sc.buffer_pidx@;
        let ghost len = ps.len() as int;
        let ghost total = mixed_index(ps, buf, len);
        let ghost fits = valid_cpidx(ps, buf) && total <= u64::MAX;
        let n = self.n_pieces;
        proof {
            lemma_mixed_index_from(ps, buf, len);
            if fits {
                assert forall|e2: int| 0 <= e2 < len implies (#[trigger] ps[e2]).combinations >= 1 by {
                    assert(element_ok(ps[e2], n as int));
                    assert(group_valid(ps[e2], buf));
                    crate::radix::lemma_group_rank_bound(ps[e2], buf);
                }
            }
        }
        let mut index: u64 = 0;
        let mut e: usize = 0;
        while e < sc.piece_set.len()
            invariant
                0 <= e <= sc.piece_set.len(),
                len == ps.len(),
                sc.piece_set@ == ps,
                sc.buffer_pidx@ == buf,
                buf.len() == n,
                is_binomial_table(self.binomials@),
                elements_ok(ps, n as int, self.n_pawns as int, self.n_unique_pawns as int),
                index == mixed_index(ps, buf, e as int),
                groups_valid(ps, buf, 0, e as int),
                total == mixed_from(ps, buf, 0, len),
                total == mixed_index(ps, buf, len),
                fits == (valid_cpidx(ps, buf) && total <= u64::MAX),
                fits ==> forall|e2: int| 0 <= e2 < len ==> (#[trigger] ps[e2]).combinations >= 1,
            decreases sc.piece_set.len() - e,
        {
            let p = sc.piece_set[e];
            let ghost rank = subset_rank(group_cpidx(p, buf));
            proof {
                assert(element_ok(ps[e as int], n as int));
                if fits {
                    lemma_mixed_index_from(ps, buf, e as int);
                    lemma_mixed_index_from(ps, buf, e + 1);
                    crate::radix::lemma_mixed_from_mono(ps, buf, 0, e + 1, len);
                    assert(mixed_from(ps, buf, 0, e + 1) == index * p.combinations + rank);
                }
            }
            let mut acc: u64 = match index.checked_mul(p.combinations) {
                Some(v) => v,
                None => {
                    proof {
                        if fits {
                            assert(index * p.combinations <= index * p.combinations + rank);
                        }
                    }
                    return None;
                },
            };
            let ghost base = acc as nat;
            let mut k: usize = 1;
            let mut i: usize = p.span.1;
            proof {
                assert(buf.subrange(i as int, p.span.1 as int) =~= Seq::<u64>::empty());
            }
            while k <= p.multiplicity as usize
                invariant
                    1 <= k <= p.multiplicity + 1,
                    p.multiplicity <= MAX_PIECES,
                    i == p.span.1 - (k - 1),
                    p.span.1 - p.multiplicity >= p.span.0,
                    p.span.1 <= n,
                    p == ps[e as int],
                    element_ok(p, n as int),
                    sc.buffer_pidx@ == buf,
                    buf.len() == n,
                    is_binomial_table(self.binomials@),
                    p.multiplicity >= 2 ==> p.n_squares <= 64,
                    acc == base + subset_rank(buf.subrange(i as int, p.span.1 as int)),
                    strictly_decreasing(buf.subrange(i as int, p.span.1 as int)),
                    forall|j: int| i <= j < p.span.1 ==> #[trigger] buf[j] < p.n_squares,
                    fits == (valid_cpidx(ps, buf) && total <= u64::MAX),
                    total == mixed_index(ps, buf, len),
                    len == ps.len(),
                    sc.piece_set@ == ps,
                    fits ==> base + rank <= u64::MAX,
                    fits ==> group_valid(p, buf),
                    rank == subset_rank(group_cpidx(p, buf)),
                decreases p.multiplicity + 1 - k,
            {
                i = i - 1;
                let x = sc.buffer_pidx[i];
                let ghost g = group_cpidx(p, buf);
                let ghost lo: int = p.span.1 - p.multiplicity;
                proof {
                    if fits {
                        assert(g[i - lo] == buf[i as int]);
                        assert(g[0] >= g[i - lo]);
                        if k >= 2 {
                            assert(g[i + 1 - lo] == buf[i + 1]);
                        }
                    }
                }
                if x >= p.n_squares {
                    return None;
                }
                let term: u64 = if k == 1 {
                    proof {
                        crate::combinatorics::lemma_choose_one(x as nat);
                    }
                    x
                } else {
                    if x <= sc.buffer_pidx[i + 1] {
                        return None;
                    }
                    binom_at(&self.binomials, x, k)
                };
                let ghost s = buf.subrange(i as int, p.span.1 as int);
                proof {
                    assert(s.drop_first() =~= buf.subrange(i + 1, p.span.1 as int));
                    assert(s.len() == k);
                    assert(strictly_decreasing(s)) by {
                        let t = buf.subrange(i + 1, p.span.1 as int);
                        assert forall|a: int, b: int| 0 <= a < b < s.len() implies s[a] > s[b] by {
                            assert(s[b] == t[b - 1]);
                            if a >= 1 {
                                assert(s[a] == t[a - 1]);
                            } else {
                                assert(s[0] == x);
                                assert(s[1] == t[0]);
                                assert(t[0] == buf[i + 1]);
                                if b >= 2 {
                                    assert(t[0] > t[b - 1]);
                                }
                            }
                        }
                    }
                    if fits {
                        assert(g.subrange(i - lo, g.len() as int) =~= s);
                        crate::combinatorics::lemma_rank_suffix_le(g, i - lo);
                    }
                }
                acc = match acc.checked_add(term) {
                    Some(v) => v,
                    None => return None,
                };
                k += 1;
            }
            proof {
                assert(buf.subrange(i as int, p.span.1 as int) =~= group_cpidx(p, buf));
                assert(group_valid(p, buf)) by {
                    if p.multiplicity > 0 {
                        assert(group_cpidx(p, buf)[0] == buf[i as int]);
                    }
                }
            }
            index = acc;
            e += 1;
        }
        Some(index)
    }
}

/// Whether every value of `v` is below `bound`.
fn all_below_exec(v: &Vec<u64>, bound: u64) -> (r: bool)
    ensures
        r == all_below(v@, bound),
{
    let mut i: usize = 0;
    while i < v.len()
        invariant
            0 <= i <= v.len(),
            forall|k: int| 0 <= k < i ==> v@[k] < bound,
        decreases v.len() - i,
    {
        if v[i] >= bound {
            return false;
        }
        i += 1;
    }
    true
}

/// The legal en passant target square of a position, if any, as the key of
/// an en passant option: the square of the file on the fifth rank.
pub open spec fn ep_key(target: Option<u8>) -> Option<u64> {
    match target {
        Some(sq) => Some((32 + sq % 8) as u64),
        None => None,
    }
}

impl Indexer {
    /// Encodes a position as an index, which stands for the position up to the
    /// symmetries of the table. Returns None when `shakmaty` does not accept
    /// the position, or it does not have the pieces of this table (or its en
    /// passant status has no range in the table).
    #[verifier::rlimit(100)]
    #[verifier::spinoff_prover]
    pub fn position_to_index(&self, sc: &mut IndexerScratch, position: &BoardPosition) -> (r: Option<u64>)
        requires
            self.wf(),
            self.scratch_wf(old(sc)),
            position.wf(),
        ensures
            self.scratch_wf(final(sc)),
            r matches Some(i) ==> i < self.index_range && fen_legal_ep(
                fen_of(position.squares@, position.turn, position.ep_square),
            ) is Some,
            r matches Some(i) ==> final(sc).current_ep_option.square == ep_key(
                fen_legal_ep(fen_of(position.squares@, position.turn, position.ep_square))->0,
            ) && final(sc).current_ep_option.range_start <= i < final(sc).current_ep_option.range_end,
            forall|i: u64| self.n_pawns == 0 && #[trigger] self.decodes_pawnless(i, *position) ==> r == Some(i),
            forall|i: u64| self.n_pawns > 0 && files_grouped(self.piece_set@, self.n_unique_pawns as int)
                && #[trigger] self.decodes_pawns(i, *position) ==> r == Some(i),
    {
        let ghost pos = *position;
        let ghost decp = self.n_pawns > 0 && files_grouped(self.piece_set@, self.n_unique_pawns as int)
            && exists|i: u64| #[trigger] self.decodes_pawns(i, pos);
        let ghost pi: u64 = choose|i: u64| #[trigger] self.decodes_pawns(i, pos);
        let ghost (po, pb, pc, pd): (EnpassantOption, Seq<u64>, Seq<u64>, Seq<u64>) = choose|
            o: EnpassantOption,
            b: Seq<u64>,
            c: Seq<u64>,
            d: Seq<u64>,
        | #[trigger] self.decodes_pawns_with(pi, pos, o, b, c, d);
        proof {
            if decp {
                assert(self.decodes_pawns_with(pi, pos, po, pb, pc, pd));
                self.lemma_option_on_fifth(po);
            }
        }
        let ghost dec = self.n_pawns == 0 && exists|i: u64| #[trigger] self.decodes_pawnless(i, pos);
        let ghost gi: u64 = choose|i: u64| #[trigger] self.decodes_pawnless(i, pos);
        let ghost gb: Seq<u64> = choose|b: Seq<u64>| #[trigger] self.decodes_with(gi, pos, b);
        proof {
            if dec {
                assert(self.decodes_with(gi, pos, gb));
                self.lemma_pawnless_options();
            }
        }
        let legal = match position.legal_ep() {
            Some(e) => e,
            None => return None,
        };
        let ep_pawn_square: Option<u64> = match legal {
            Some(sq) => Some(32 + (sq % 8) as u64),
            None => None,
        };
        proof {
            assert(ep_pawn_square == ep_key(legal));
            if decp {
                assert(ep_pawn_square == po.square);
            }
        }
        let offset = match self.adjust_ep_from_position(sc, ep_pawn_square) {
            Some(o) => o,
            None => {
                proof {
                    if dec {
                        assert(self.ep_options@[0].square != ep_pawn_square);
                    }
                    if decp {
                        let t = choose|t: int| 0 <= t < self.ep_options@.len() && self.ep_options@[t] == po;
                        assert(self.ep_options@[t].square != ep_pawn_square);
                    }
                }
                return None;
            },
        };
        let ghost cur = sc.current_ep_option;
        proof {
            self.lemma_scratch_elements(sc);
            self.lemma_option_fields(sc.current_ep_option);
            if decp {
                self.lemma_option_by_square(cur, po);
            }
            if dec {
                let t = choose|t: int| 0 <= t < self.ep_options@.len() && self.ep_options@[t] == sc.current_ep_option;
                assert(t == 0);
                assert(sc.piece_set@ == self.piece_set@);
                assert(offset == 0);
            }
        }
        if !self.position_to_coord(sc, position) {
            proof {
                if decp {
                    self.lemma_decoded_pawn_facts(pi, pos, po, pb, pc, pd);
                }
                if dec {
                    self.lemma_decoded_facts(pos, gb);
                }
            }
            return None;
        }
        let ghost a = sc.buffer_coord@;
        if self.n_pawns == 0 {
            proof {
                if dec {
                    self.lemma_decoded_reduced(pos, a, gb);
                }
            }
            self.reduce_symmetries(sc);
        }
        let ghost a2 = sc.buffer_coord@;
        self.sort_coord_repeated_pieces(sc);
        let ghost c = sc.buffer_coord@;
        self.coord_to_pidx(sc);
        let ghost pidx = sc.buffer_pidx@;
        let n = self.n_pieces;
        compact_pidx(&mut sc.buffer_pidx, 0, n);
        let ghost cpidx = sc.buffer_pidx@;
        proof {
            assert(pidx =~= coord_squares(c));
            assert(pidx.subrange(0, n as int) =~= pidx);
            assert(cpidx =~= compact(pidx)) by {
                crate::compaction::lemma_compact_len(pidx);
                assert(pidx.subrange(0, 0) + compact(pidx.subrange(0, n as int)) + pidx.subrange(n as int, n as int) =~= compact(pidx));
            }
        }
        proof {
            if dec {
                assert(a2 == a);
                self.lemma_decoded_sorted(pos, a, c, gb);
            }
        }
        let ghost mut cb: Seq<u64> = Seq::empty();
        if self.n_pawns > 0 {
            if !self.pawn_pidx_to_cpidx(sc) {
                proof {
                    if decp {
                        self.lemma_encoded_pawn_coords(pi, pos, po, pb, pc, pd, a, c);
                    }
                }
                return None;
            }
            proof {
                cb = sc.buffer_pidx@;
            }
            self.compact_pawn_files(sc);
        } else {
            if !self.map_kings(sc) {
                proof {
                    if dec {
                        self.lemma_decoded_facts(pos, gb);
                    }
                }
                return None;
            }
        }
        let ghost fin = sc.buffer_pidx@;
        proof {
            if dec {
                assert(fin =~= gb) by {
                    self.lemma_decoded_facts(pos, gb);
                    reveal(crate::indexer::kings_ok);
                }
            }
            if decp {
                self.lemma_encoded_pawns(pi, pos, po, pb, pc, pd, cur, legal, a, c, cb, fin);
            }
        }
        let local = match self.cpidx_to_index(sc) {
            Some(v) => v,
            None => return None,
        };
        let size = sc.current_ep_option.range_end - sc.current_ep_option.range_start;
        if local >= size {
            return None;
        }
        proof {
            if self.n_pawns == 0 {
                assert forall|i: u64| #[trigger] self.decodes_pawnless(i, pos) implies local == i by {
                    let b = choose|b: Seq<u64>| #[trigger] self.decodes_with(i, pos, b);
                    self.lemma_decoded_facts(pos, b);
                    self.lemma_decoded_reduced(pos, a, b);
                    assert(a2 == a);
                    self.lemma_decoded_sorted(pos, a, c, b);
                    reveal(crate::indexer::kings_ok);
                    assert(fin =~= b);
                }
            }
            if self.n_pawns > 0 && files_grouped(self.piece_set@, self.n_unique_pawns as int) {
                assert forall|i: u64| #[trigger] self.decodes_pawns(i, pos) implies offset + local == i by {
                    let (o, b, cw, d): (EnpassantOption, Seq<u64>, Seq<u64>, Seq<u64>) = choose|
                        o: EnpassantOption,
                        b: Seq<u64>,
                        c: Seq<u64>,
                        d: Seq<u64>,
                    | #[trigger] self.decodes_pawns_with(i, pos, o, b, c, d);
                    self.lemma_encoded_pawns(i, pos, o, b, cw, d, cur, legal, a, c, cb, fin);
                }
            }
        }
        Some(offset + local)
    }

    /// Decodes the compacted indexes of all groups from an index in mixed
    /// radix. Returns false when the index is out of range for the elements.
    #[verifier::rlimit(40)]
    #[verifier::spinoff_prover]
    fn index_to_cpidx(&self, sc: &mut IndexerScratch, index: u64) -> (ok: bool)
        requires
            self.wf(),
            self.scratch_wf(old(sc)),
        ensures
            same_setup(*final(sc), *old(sc)),
            final(sc).buffer_coord == old(sc).buffer_coord,
            ok <==> index < comb_product(old(sc).piece_set@, old(sc).piece_set@.len() as int),
            ok ==> all_below(final(sc).buffer_pidx@, 463),
            ok ==> valid_cpidx(final(sc).piece_set@, final(sc).buffer_pidx@),
            ok ==> mixed_index(final(sc).piece_set@, final(sc).buffer_pidx@, final(sc).piece_set@.len() as int) == index,
            ok ==> slots_set(final(sc).piece_set@, final(sc).buffer_pidx@, 0, final(sc).piece_set@.len() as int),
    {
        proof {
            self.lemma_scratch_elements(sc);
        }
        let ghost ps = sc.piece_set@;
        let ghost len = ps.len() as int;
        let n = self.n_pieces;
        let mut v = index;
        let mut e: usize = sc.piece_set.len();
        proof {
            assert(comb_range(ps, len, len) == 1);
            assert(mixed_from(ps, sc.buffer_pidx@, len, len) == 0);
            assert(index * 1 == index) by (nonlinear_arith);
        }
        while e > 0
            invariant
                0 <= e <= len == sc.piece_set@.len(),
                same_setup(*sc, *old(sc)),
                sc.buffer_coord == old(sc).buffer_coord,
                sc.piece_set@ == ps,
                elements_ok(ps, n as int, self.n_pawns as int, self.n_unique_pawns as int),
                sc.buffer_pidx@.len() == n,
                is_binomial_table(self.binomials@),
                index == v * comb_range(ps, e as int, len) + mixed_from(ps, sc.buffer_pidx@, e as int, len),
                groups_valid(ps, sc.buffer_pidx@, e as int, len),
                slots_set(ps, sc.buffer_pidx@, e as int, len),
                forall|i: int| span_start(ps, e as int, n as int) <= i < n ==> #[trigger] sc.buffer_pidx@[i] < 463,
            decreases e,
        {
            e -= 1;
            let p = sc.piece_set[e];
            proof {
                assert(element_ok(ps[e as int], n as int));
                if e + 1 < len {
                    assert(ps[e as int].span.1 == ps[e + 1].span.0);
                }
            }
            if p.combinations == 0 {
                proof {
                    lemma_comb_range_split(ps, 0, e as int, len);
                    lemma_mixed_from_prepend(ps, sc.buffer_pidx@, e as int, len);
                    lemma_comb_product_range(ps, len);
                    assert(comb_range(ps, e as int, len) == 0);
                    assert(comb_range(ps, 0, len) == 0) by (nonlinear_arith)
                        requires
                            comb_range(ps, 0, len) == comb_range(ps, 0, e as int) * comb_range(ps, e as int, len),
                            comb_range(ps, e as int, len) == 0,
                    ;
                }
                return false;
            }
            let ghost b0 = sc.buffer_pidx@;
            let ghost v0 = v;
            let mut x = v % p.combinations;
            v = v / p.combinations;
            proof {
                assert(v0 == v * p.combinations + x) by (nonlinear_arith)
                    requires
                        p.combinations > 0,
                        x == v0 % p.combinations,
                        v == v0 / p.combinations,
                ;
            }
            let ghost x0 = x;
            let mut m = p.n_squares;
            if p.span.1 - p.span.0 > p.multiplicity as usize {
                // The pawn that can be taken en passant is not encoded.
                sc.buffer_pidx.set(p.span.0, p.n_squares);
            }
            let ghost lo: int = p.span.1 - p.multiplicity;
            let mut k: usize = p.multiplicity as usize;
            proof {
                if k >= 1 {
                    assert(x < binom(m as nat, k as nat));
                }
                assert(sc.buffer_pidx@.subrange(lo, p.span.1 - k) =~= Seq::<u64>::empty());
            }
            while k >= 1
                invariant
                    0 <= k <= p.multiplicity <= MAX_PIECES,
                    p == ps[e as int],
                    element_ok(p, n as int),
                    lo == p.span.1 - p.multiplicity,
                    p.span.1 <= n,
                    same_setup(*sc, *old(sc)),
                    sc.buffer_coord == old(sc).buffer_coord,
                    sc.piece_set@ == ps,
                    sc.buffer_pidx@.len() == n,
                    is_binomial_table(self.binomials@),
                    k >= 2 ==> m <= 64,
                    m <= p.n_squares,
                    k >= 1 ==> x < binom(m as nat, k as nat),
                    x0 == head_rank(sc.buffer_pidx@.subrange(lo, p.span.1 - k), p.multiplicity as nat) + (if k >= 1 {
                        x as nat
                    } else {
                        0
                    }),
                    strictly_decreasing(sc.buffer_pidx@.subrange(lo, p.span.1 - k)),
                    k >= 1 && k < p.multiplicity ==> sc.buffer_pidx@[p.span.1 - k - 1] == m,
                    k < p.multiplicity ==> sc.buffer_pidx@[lo] < p.n_squares,
                    k == p.multiplicity ==> m == p.n_squares,
                    forall|i: int| 0 <= i < n && (i < p.span.0 || p.span.1 <= i) ==> #[trigger] sc.buffer_pidx@[i] == b0[i],
                    forall|i: int| p.span.0 <= i < lo ==> #[trigger] sc.buffer_pidx@[i] <= 462,
                    p.span.1 - p.span.0 > p.multiplicity ==> sc.buffer_pidx@[p.span.0 as int] == p.n_squares,
                decreases k,
            {
                let ghost before = sc.buffer_pidx@;
                let ghost w = before.subrange(lo, p.span.1 - k);
                if k == 1 {
                    proof {
                        crate::combinatorics::lemma_choose_one(m as nat);
                    }
                    sc.buffer_pidx.set(p.span.1 - 1, x);
                    proof {
                        assert(sc.buffer_pidx@.subrange(lo, p.span.1 - (k - 1)) =~= w.push(x));
                        lemma_head_rank_push(w, x, p.multiplicity as nat);
                        crate::combinatorics::lemma_choose_one(x as nat);
                        lemma_push_decreasing(w, x, m);
                    }
                } else {
                    let ghost before_m = m;
                    let c = largest_binom_at_most(&self.binomials, k, m, x);
                    let b = binom_at(&self.binomials, c, k);
                    proof {
                        assert(binom(c as nat + 1, k as nat) == binom(c as nat, (k - 1) as nat) + binom(c as nat, k as nat));
                    }
                    x = x - b;
                    m = c;
                    sc.buffer_pidx.set(p.span.1 - k, c);
                    proof {
                        assert(sc.buffer_pidx@.subrange(lo, p.span.1 - (k - 1)) =~= w.push(c));
                        lemma_head_rank_push(w, c, p.multiplicity as nat);
                        lemma_push_decreasing(w, c, before_m);
                    }
                }
                k -= 1;
            }
            proof {
                let buf = sc.buffer_pidx@;
                let g = group_cpidx(p, buf);
                assert(buf.subrange(lo, p.span.1 as int) =~= g);
                lemma_head_rank_split(g, Seq::<u64>::empty());
                assert(g + Seq::<u64>::empty() =~= g);
                assert(group_valid(p, buf));
                // The later groups are unchanged.
                assert(same_groups(ps, buf, b0, e + 1, len)) by {
                    assert forall|e2: int| e + 1 <= e2 < len implies group_cpidx(#[trigger] ps[e2], buf) == group_cpidx(ps[e2], b0) by {
                        assert(ps[e as int].span.1 <= ps[e2].span.0);
                        assert(element_ok(ps[e2], n as int));
                        assert(group_cpidx(ps[e2], buf) =~= group_cpidx(ps[e2], b0));
                    }
                }
                lemma_mixed_from_frame(ps, buf, b0, e + 1, len);
                assert forall|e2: int| e <= e2 < len implies group_valid(#[trigger] ps[e2], buf) by {
                    if e2 > e {
                        assert(group_valid(ps[e2], b0));
                        assert(group_cpidx(ps[e2], buf) == group_cpidx(ps[e2], b0));
                    }
                }
                assert forall|e2: int| e <= e2 < len implies slot_set(#[trigger] ps[e2], buf) by {
                    if e2 == e && p.span.1 - p.span.0 > p.multiplicity {
                        assert(buf[p.span.0 as int] == p.n_squares);
                    }
                    if e2 > e {
                        assert(slot_set(ps[e2], b0));
                        assert(ps[e as int].span.1 <= ps[e2].span.0);
                        assert(element_ok(ps[e2], n as int));
                    }
                }
                lemma_mixed_from_prepend(ps, buf, e as int, len);
                let cr = comb_range(ps, e + 1, len);
                let mf = mixed_from(ps, buf, e + 1, len);
                assert(index == v * comb_range(ps, e as int, len) + mixed_from(ps, buf, e as int, len)) by (nonlinear_arith)
                    requires
                        index == v0 * cr + mf,
                        v0 == v * p.combinations + x0,
                        comb_range(ps, e as int, len) == (p.combinations as nat) * cr,
                        mixed_from(ps, buf, e as int, len) == x0 * cr + mf,
                ;
                assert forall|i: int| span_start(ps, e as int, n as int) <= i < n implies #[trigger] buf[i] < 463 by {
                    if i >= p.span.1 {
                        assert(buf[i] == b0[i]);
                    } else if i >= lo {
                        assert(g[i - lo] == buf[i]);
                        assert(g[0] >= g[i - lo]);
                    }
                }
            }
        }
        proof {
            let buf = sc.buffer_pidx@;
            lemma_mixed_index_from(ps, buf, len);
            lemma_comb_product_range(ps, len);
            assert forall|e2: int| 0 <= e2 < len implies (#[trigger] ps[e2]).combinations == binom(ps[e2].n_squares as nat, ps[e2].multiplicity as nat)
                && 0 <= ps[e2].span.1 - ps[e2].multiplicity && ps[e2].span.1 <= buf.len() by {
                assert(element_ok(ps[e2], n as int));
            }
            lemma_mixed_from_bound(ps, buf, 0, len);
            let cr = comb_range(ps, 0, len);
            let mf = mixed_from(ps, buf, 0, len);
            assert(v == 0 <==> index < cr) by (nonlinear_arith)
                requires
                    index == v * cr + mf,
                    mf < cr,
            {
                if v > 0 {
                    assert(v * cr >= cr);
                }
            }
            if len == 0 {
                assert(n == 0);
            }
        }
        if v != 0 {
            return false;
        }
        all_below_exec(&sc.buffer_pidx, 463)
    }

    /// Gives back the squares of the two kings of a pawnless position from the
    /// number of their pair. Returns false for a number out of range.
    fn unmap_kings(&self, sc: &mut IndexerScratch) -> (ok: bool)
        requires
            self.wf(),
            old(sc).buffer_pidx@.len() >= 2,
        ensures
            same_setup(*final(sc), *old(sc)),
            final(sc).buffer_coord == old(sc).buffer_coord,
            ok ==> final(sc).buffer_pidx@ == old(sc).buffer_pidx@.update(
                0,
                self.kings_map_from_index@[old(sc).buffer_pidx@[0] as int].0,
            ).update(1, self.kings_map_from_index@[old(sc).buffer_pidx@[0] as int].1),
            ok ==> final(sc).buffer_pidx@[0] < 64 && final(sc).buffer_pidx@[1] < 63,
            ok <==> old(sc).buffer_pidx@[0] < 462,
    {
        proof {
            reveal(crate::indexer::kings_ok);
        }
        let a = sc.buffer_pidx[0];
        if a >= 462 {
            return false;
        }
        let (w, b) = self.kings_map_from_index[a as usize];
        sc.buffer_pidx.set(0, w);
        sc.buffer_pidx.set(1, b);
        true
    }

    /// Square indexes and coordinates of the pawns from their indexes in
    /// `0..6`. Returns false for an index out of range.
    #[verifier::spinoff_prover]
    fn pawn_cpidx_to_pidx(&self, sc: &mut IndexerScratch) -> (ok: bool)
        requires
            self.wf(),
            self.scratch_wf(old(sc)),
        ensures
            same_setup(*final(sc), *old(sc)),
            ok ==> forall|i: int| 0 <= i < self.n_pawns ==> #[trigger] final(sc).buffer_pidx@[i] < 64,
            ok <==> forall|i: int| 0 <= i < self.n_pawns ==> #[trigger] old(sc).buffer_pidx@[i] < 7,
            forall|i: int| self.n_pawns <= i < self.n_pieces ==> #[trigger] final(sc).buffer_pidx@[i] == old(sc).buffer_pidx@[i],
            forall|i: int| self.n_pawns <= i < self.n_pieces ==> #[trigger] final(sc).buffer_coord@[i] == old(sc).buffer_coord@[i],
            ok ==> forall|e: int| 0 <= e < self.n_unique_pawns ==> pawn_converted(
                #[trigger] old(sc).piece_set@[e],
                old(sc).buffer_pidx@,
                final(sc).buffer_pidx@,
                final(sc).buffer_coord@,
            ),
    {
        proof {
            self.lemma_scratch_elements(sc);
        }
        let ghost ps = sc.piece_set@;
        let ghost b0 = sc.buffer_pidx@;
        let n = self.n_pieces;
        let mut e: usize = 0;
        while e < self.n_unique_pawns
            invariant
                0 <= e <= self.n_unique_pawns <= sc.piece_set@.len(),
                n == self.n_pieces,
                same_setup(*sc, *old(sc)),
                sc.piece_set@ == ps,
                ps == old(sc).piece_set@,
                b0 == old(sc).buffer_pidx@,
                elements_ok(ps, n as int, self.n_pawns as int, self.n_unique_pawns as int),
                sc.buffer_coord@.len() == n,
                sc.buffer_pidx@.len() == n,
                forall|i: int| 0 <= i < (if e < self.n_unique_pawns { ps[e as int].span.0 as int } else { self.n_pawns as int })
                    ==> #[trigger] sc.buffer_pidx@[i] < 64,
                forall|i: int| 0 <= i < n && (if e < self.n_unique_pawns { ps[e as int].span.0 as int } else { self.n_pawns as int }) <= i
                    ==> #[trigger] sc.buffer_pidx@[i] == b0[i],
                forall|i: int| self.n_pawns <= i < n ==> #[trigger] sc.buffer_coord@[i] == old(sc).buffer_coord@[i],
                forall|e2: int| 0 <= e2 < e ==> pawn_converted(#[trigger] ps[e2], b0, sc.buffer_pidx@, sc.buffer_coord@),
                forall|k: int| 0 <= k < (if e < self.n_unique_pawns { ps[e as int].span.0 as int } else { self.n_pawns as int })
                    ==> #[trigger] b0[k] < 7,
            decreases self.n_unique_pawns - e,
        {
            let p = sc.piece_set[e];
            proof {
                assert(element_ok(ps[e as int], n as int));
                if e + 1 < self.n_unique_pawns {
                    assert(ps[e as int].span.1 == ps[e + 1].span.0);
                } else {
                    assert(ps[e as int].span.1 <= self.n_pawns);
                    if self.n_unique_pawns < ps.len() {
                        assert(ps[e as int].span.1 == ps[e + 1].span.0);
                        assert(self.n_pawns <= ps[e + 1].span.0);
                    } else {
                        assert(ps[e as int].span.1 == n);
                    }
                }
            }
            let file = p.role.to_index() as u64;
            proof {
                assert(p.role is Pawn);
            }
            let ghost bufe = sc.buffer_pidx@;
            let ghost coe = sc.buffer_coord@;
            let mut i: usize = p.span.0;
            while i < p.span.1
                invariant
                    p.span.0 <= i <= p.span.1 <= self.n_pawns <= n,
                    n == self.n_pieces,
                    p == ps[e as int],
                    e < self.n_unique_pawns,
                    file == role_index(p.role),
                    file < 8,
                    same_setup(*sc, *old(sc)),
                    sc.piece_set@ == ps,
                    b0 == old(sc).buffer_pidx@,
                    sc.buffer_coord@.len() == n,
                    sc.buffer_pidx@.len() == n,
                    forall|k: int| 0 <= k < i ==> #[trigger] sc.buffer_pidx@[k] < 64,
                    forall|k: int| 0 <= k < n && i <= k ==> #[trigger] sc.buffer_pidx@[k] == b0[k],
                    forall|k: int| 0 <= k < n && (k < p.span.0 || i <= k) ==> #[trigger] sc.buffer_pidx@[k] == bufe[k],
                    forall|k: int| 0 <= k < n && (k < p.span.0 || i <= k) ==> #[trigger] sc.buffer_coord@[k] == coe[k],
                    forall|k: int| self.n_pawns <= k < n ==> #[trigger] sc.buffer_coord@[k] == old(sc).buffer_coord@[k],
                    forall|k: int| 0 <= k < i ==> #[trigger] b0[k] < 7,
                    forall|k: int| p.span.0 <= k < i ==> #[trigger] sc.buffer_pidx@[k] == (b0[k] + 1) * 8 + file
                        && sc.buffer_coord@[k] == ((b0[k] + 1) as u64, file),
                decreases p.span.1 - i,
            {
                let x = sc.buffer_pidx[i];
                if x >= 7 {
                    proof {
                        assert(old(sc).buffer_pidx@[i as int] >= 7);
                    }
                    return false;
                }
                let ghost bb = sc.buffer_pidx@;
                let ghost cc = sc.buffer_coord@;
                assert(x == b0[i as int]);
                sc.buffer_coord.set(i, (x + 1, file));
                sc.buffer_pidx.set(i, (x + 1) * 8 + file);
                proof {
                    assert forall|k: int| 0 <= k < i + 1 implies #[trigger] b0[k] < 7 by {}
                    assert forall|k: int| p.span.0 <= k < i + 1 implies #[trigger] sc.buffer_pidx@[k] == (b0[k] + 1) * 8 + file
                        && sc.buffer_coord@[k] == ((b0[k] + 1) as u64, file) by {
                        if k < i {
                            assert(sc.buffer_pidx@[k] == bb[k]);
                            assert(sc.buffer_coord@[k] == cc[k]);
                        }
                    }
                }
                i += 1;
            }
            proof {
                assert(pawn_converted(ps[e as int], b0, sc.buffer_pidx@, sc.buffer_coord@)) by {
                    assert forall|k: int| ps[e as int].span.0 <= k < ps[e as int].span.1 implies b0[k] < 7
                        && #[trigger] sc.buffer_pidx@[k] == (b0[k] + 1) * 8 + role_index(ps[e as int].role)
                        && sc.buffer_coord@[k] == ((b0[k] + 1) as u64, role_index(ps[e as int].role) as u64) by {
                        assert(sc.buffer_pidx@[k] == (b0[k] + 1) * 8 + file);
                        assert(b0[k] < 7);
                    }
                }
                assert forall|e2: int| 0 <= e2 < e + 1 implies pawn_converted(#[trigger] ps[e2], b0, sc.buffer_pidx@, sc.buffer_coord@) by {
                    if e2 < e {
                        assert(ps[e2].span.1 <= ps[e as int].span.0);
                        assert(element_ok(ps[e2], n as int));
                        assert(pawn_converted(ps[e2], b0, bufe, coe));
                        assert forall|k: int| ps[e2].span.0 <= k < ps[e2].span.1 implies b0[k] < 7
                            && #[trigger] sc.buffer_pidx@[k] == (b0[k] + 1) * 8 + role_index(ps[e2].role)
                            && sc.buffer_coord@[k] == ((b0[k] + 1) as u64, role_index(ps[e2].role) as u64) by {
                            assert(sc.buffer_pidx@[k] == bufe[k]);
                            assert(sc.buffer_coord@[k] == coe[k]);
                            assert(k < p.span.0);
                            assert(b0[k] < 7);
                        }
                    }
                }
            }
            e += 1;
        }
        true
    }

    /// Coordinates of the pieces other than pawns from their square indexes.
    fn nonpawn_pidx_to_coord(&self, sc: &mut IndexerScratch)
        requires
            old(sc).buffer_coord@.len() == old(sc).buffer_pidx@.len(),
            self.n_pieces == old(sc).buffer_pidx@.len(),
        ensures
            same_setup(*final(sc), *old(sc)),
            final(sc).buffer_pidx == old(sc).buffer_pidx,
            forall|i: int| self.n_pawns <= i < self.n_pieces ==> #[trigger] final(sc).buffer_coord@[i] == (
                old(sc).buffer_pidx@[i] / 8,
                old(sc).buffer_pidx@[i] % 8,
            ),
            forall|i: int| 0 <= i < self.n_pawns && i < self.n_pieces ==> #[trigger] final(sc).buffer_coord@[i] == old(sc).buffer_coord@[i],
    {
        let mut i: usize = self.n_pawns;
        while i < self.n_pieces
            invariant
                self.n_pieces == sc.buffer_pidx@.len() == sc.buffer_coord@.len(),
                same_setup(*sc, *old(sc)),
                sc.buffer_pidx == old(sc).buffer_pidx,
                self.n_pawns <= i || self.n_pieces <= i,
                forall|j: int| self.n_pawns <= j < i && j < self.n_pieces ==> #[trigger] sc.buffer_coord@[j] == (
                    old(sc).buffer_pidx@[j] / 8,
                    old(sc).buffer_pidx@[j] % 8,
                ),
                forall|j: int| 0 <= j < self.n_pieces && (j < self.n_pawns || i <= j) ==> #[trigger] sc.buffer_coord@[j] == old(sc).buffer_coord@[j],
            decreases self.n_pieces - i,
        {
            let x = sc.buffer_pidx[i];
            sc.buffer_coord.set(i, (x / 8, x % 8));
            i += 1;
        }
    }
}

/// Uncompacts `v[lo..hi]` when all values of `v` are below 2^32; returns
/// whether it did.
fn uncompact_checked(v: &mut Vec<u64>, lo: usize, hi: usize) -> (ok: bool)
    requires
        lo <= hi <= old(v)@.len() <= MAX_PIECES,
    ensures
        final(v)@.len() == old(v)@.len(),
        ok ==> final(v)@ == old(v)@.subrange(0, lo as int) + crate::compaction::uncompact(
            old(v)@.subrange(lo as int, hi as int),
        ) + old(v)@.subrange(hi as int, old(v)@.len() as int),
        !ok ==> final(v)@ == old(v)@,
        ok <==> all_below(old(v)@, 0x1_0000_0000),
{
    if !all_below_exec(v, 0x1_0000_0000) {
        return false;
    }
    proof {
        let sub = v@.subrange(lo as int, hi as int);
        assert forall|i: int| 0 <= i < sub.len() implies sub[i] < 0x1_0000_0000 by {
            assert(sub[i] == v@[lo + i]);
        }
    }
    uncompact_cpidx(v, lo, hi);
    true
}

impl Indexer {
    /// Places the pieces on their coordinates and asks `shakmaty` whether the
    /// position is legal with the en passant square of the current option.
    fn coord_to_position(&self, sc: &mut IndexerScratch, side_to_move: Color) -> (r: Option<BoardPosition>)
        requires
            self.wf(),
            self.scratch_wf(old(sc)),
        ensures
            same_setup(*final(sc), *old(sc)),
            r matches Some(p) ==> p.wf() && p.turn == side_to_move && fen_legal_ep(fen_of(p.squares@, p.turn, p.ep_square))
                == Some(p.ep_square),
            r matches Some(p) ==> p.ep_square == option_ep_square(old(sc).current_ep_option.square, side_to_move),
            r matches Some(p) ==> on_board(old(sc).buffer_coord@) && (all_distinct(
                abs_squares(old(sc).buffer_coord@, self.n_pawns > 0 && side_to_move == Color::Black),
            ) ==> places(
                old(sc).piece_set@,
                abs_squares(old(sc).buffer_coord@, self.n_pawns > 0 && side_to_move == Color::Black),
                side_to_move,
                p.squares@,
            )),
            on_board(old(sc).buffer_coord@) && all_distinct(
                abs_squares(old(sc).buffer_coord@, self.n_pawns > 0 && side_to_move == Color::Black),
            ) ==> (r is Some <==> legal_placement(
                old(sc).piece_set@,
                abs_squares(old(sc).buffer_coord@, self.n_pawns > 0 && side_to_move == Color::Black),
                side_to_move,
                option_ep_square(old(sc).current_ep_option.square, side_to_move),
            )),
    {
        proof {
            self.lemma_scratch_elements(sc);
        }
        let ghost ps = sc.piece_set@;
        let ghost cs = sc.buffer_coord@;
        let ghost flipped = self.n_pawns > 0 && side_to_move == Color::Black;
        let n = self.n_pieces;
        if self.n_pawns > 0 && side_to_move == Color::Black {
            // Ranks were counted from the side to move.
            let mut i: usize = 0;
            while i < n
                invariant
                    0 <= i <= n,
                    n == sc.buffer_coord@.len() == cs.len(),
                    cs == old(sc).buffer_coord@,
                    same_setup(*sc, *old(sc)),
                    forall|k: int| 0 <= k < i ==> (#[trigger] cs[k]).0 < 8 && sc.buffer_coord@[k] == ((7 - cs[k].0) as u64, cs[k].1),
                    forall|k: int| i <= k < n ==> #[trigger] sc.buffer_coord@[k] == cs[k],
                decreases n - i,
            {
                let (r, f) = sc.buffer_coord[i];
                if r >= 8 {
                    proof {
                        assert(cs[i as int].0 >= 8);
                    }
                    return None;
                }
                let ghost before = sc.buffer_coord@;
                sc.buffer_coord.set(i, (7 - r, f));
                proof {
                    assert(before[i as int] == cs[i as int]);
                    assert forall|k: int| 0 <= k < i + 1 implies (#[trigger] cs[k]).0 < 8 && sc.buffer_coord@[k] == ((7 - cs[k].0) as u64, cs[k].1) by {
                        if k < i {
                            assert(sc.buffer_coord@[k] == before[k]);
                        }
                    }
                }
                i += 1;
            }
        }
        let ghost cs2 = sc.buffer_coord@;
        let ghost sqs = coord_squares(cs2);
        let ghost dist = all_distinct(sqs);
        proof {
            if flipped {
                assert(forall|k: int| 0 <= k < n ==> (#[trigger] cs[k]).0 < 8 && cs2[k] == ((7 - cs[k].0) as u64, cs[k].1));
            } else {
                assert(cs2 == cs);
            }
            if on_board(cs) {
                assert forall|k: int| 0 <= k < cs2.len() implies (#[trigger] cs2[k]).0 < 8 && cs2[k].1 < 8 by {
                    assert(cs[k].0 < 8 && cs[k].1 < 8);
                }
            }
        }
        let mut squares: Vec<Option<Piece>> = Vec::new();
        let mut k: usize = 0;
        while k < 64
            invariant
                0 <= k <= 64,
                squares@.len() == k,
                forall|s: int| 0 <= s < k ==> squares@[s] is None,
            decreases 64 - k,
        {
            squares.push(None);
            k += 1;
        }
        let mut e: usize = 0;
        while e < sc.piece_set.len()
            invariant
                0 <= e <= sc.piece_set@.len(),
                sc.piece_set@ == ps,
                n == sc.buffer_coord@.len() == cs2.len(),
                elements_ok(ps, n as int, self.n_pawns as int, self.n_unique_pawns as int),
                on_board(cs) ==> on_board(cs2),
                cs == old(sc).buffer_coord@,
                squares@.len() == 64,
                same_setup(*sc, *old(sc)),
                sc.buffer_coord@ == cs2,
                sqs == coord_squares(cs2),
                dist == all_distinct(sqs),
                forall|i: int| 0 <= i < span_start(ps, e as int, n as int) ==> (#[trigger] cs2[i]).0 < 8 && cs2[i].1 < 8,
                dist ==> forall|e2: int, i: int|
                    0 <= e2 < e && ps[e2].span.0 <= i < ps[e2].span.1 ==> #[trigger] placed(ps, sqs, side_to_move, squares@, e2, i),
                forall|s: int| 0 <= s < 64 && (#[trigger] squares@[s]) is Some ==> exists|i: int|
                    0 <= i < span_start(ps, e as int, n as int) && sqs[i] == s,
            decreases sc.piece_set@.len() - e,
        {
            let p = sc.piece_set[e];
            proof {
                assert(element_ok(ps[e as int], n as int));
                if e + 1 < ps.len() {
                    assert(ps[e as int].span.1 == ps[e + 1].span.0);
                }
            }
            let piece = piece_of(&p, side_to_move);
            let mut i: usize = p.span.0;
            while i < p.span.1
                invariant
                    p.span.0 <= i <= p.span.1 <= n == sc.buffer_coord@.len() == cs2.len(),
                    p == ps[e as int],
                    0 <= e < ps.len(),
                    piece == element_piece(p, side_to_move),
                    squares@.len() == 64,
                    same_setup(*sc, *old(sc)),
                    sc.buffer_coord@ == cs2,
                    sqs == coord_squares(cs2),
                    dist == all_distinct(sqs),
                    elements_ok(ps, n as int, self.n_pawns as int, self.n_unique_pawns as int),
                    on_board(cs) ==> on_board(cs2),
                    cs == old(sc).buffer_coord@,
                    forall|j: int| 0 <= j < i ==> (#[trigger] cs2[j]).0 < 8 && cs2[j].1 < 8,
                    dist ==> forall|e2: int, j: int|
                        0 <= e2 < e && ps[e2].span.0 <= j < ps[e2].span.1 ==> #[trigger] placed(ps, sqs, side_to_move, squares@, e2, j),
                    dist ==> forall|j: int| p.span.0 <= j < i ==> #[trigger] placed(ps, sqs, side_to_move, squares@, e as int, j),
                    forall|s: int| 0 <= s < 64 && (#[trigger] squares@[s]) is Some ==> exists|j: int| 0 <= j < i && sqs[j] == s,
                decreases p.span.1 - i,
            {
                let (r, f) = sc.buffer_coord[i];
                if r >= 8 || f >= 8 {
                    proof {
                        assert(!on_board(cs2)) by {
                            assert(cs2[i as int] == (r, f));
                        }
                    }
                    return None;
                }
                let ghost before = squares@;
                squares.set((r * 8 + f) as usize, Some(piece));
                proof {
                    assert(sqs[i as int] == r * 8 + f);
                    assert forall|s: int| 0 <= s < 64 && (#[trigger] squares@[s]) is Some implies exists|j: int| 0 <= j < i + 1 && sqs[j] == s by {
                        if s != r * 8 + f {
                            assert(before[s] is Some);
                        }
                    }
                    if dist {
                        assert forall|e2: int, j: int|
                            0 <= e2 < e && ps[e2].span.0 <= j < ps[e2].span.1 implies #[trigger] placed(ps, sqs, side_to_move, squares@, e2, j) by {
                            assert(placed(ps, sqs, side_to_move, before, e2, j));
                            assert(ps[e2].span.1 <= ps[e as int].span.0);
                            assert(sqs[j] != sqs[i as int]);
                        }
                        assert forall|j: int| p.span.0 <= j < i + 1 implies #[trigger] placed(ps, sqs, side_to_move, squares@, e as int, j) by {
                            if j < i {
                                assert(placed(ps, sqs, side_to_move, before, e as int, j));
                                assert(sqs[j] != sqs[i as int]);
                            }
                        }
                    }
                }
                i += 1;
            }
            e += 1;
        }
        let ep_square: Option<u8> = match sc.current_ep_option.square {
            Some(sq) => {
                let file = (sq % 8) as u8;
                let rank: u8 = match side_to_move {
                    Color::White => 5,
                    Color::Black => 2,
                };
                Some(rank * 8 + file)
            },
            None => None,
        };
        let position = BoardPosition { turn: side_to_move, squares, ep_square };
        proof {
            if ps.len() == 0 {
                assert(n == 0);
            }
            assert(on_board(cs2));
            assert(sqs =~= abs_squares(cs, flipped)) by {
                assert forall|k: int| 0 <= k < n implies sqs[k] == abs_squares(cs, flipped)[k] by {
                    if flipped {
                        assert(cs2[k] == ((7 - cs[k].0) as u64, cs[k].1));
                    }
                }
            }
            assert(on_board(cs)) by {
                assert forall|k: int| 0 <= k < cs.len() implies (#[trigger] cs[k]).0 < 8 && cs[k].1 < 8 by {
                    if flipped {
                        assert(cs2[k] == ((7 - cs[k].0) as u64, cs[k].1));
                    } else {
                        assert(cs2[k] == cs[k]);
                    }
                }
            }
            if dist {
                assert forall|e2: int, i: int|
                    0 <= e2 < ps.len() && ps[e2].span.0 <= i < ps[e2].span.1 implies #[trigger] placed(ps, sqs, side_to_move, position.squares@, e2, i) by {
                }
                assert(all_below(sqs, 64)) by {
                    assert forall|i: int| 0 <= i < sqs.len() implies sqs[i] < 64 by {
                        assert(cs2[i].0 < 8 && cs2[i].1 < 8);
                    }
                }
                assert(places(ps, sqs, side_to_move, position.squares@));
            }
        }
        let ghost ep = option_ep_square(old(sc).current_ep_option.square, side_to_move);
        assert(ep_square == ep);
        proof {
            if dist && fen_legal_ep(fen_of(position.squares@, side_to_move, ep)) != Some(ep) {
                assert forall|sq: Seq<Option<Piece>>| #[trigger] places(ps, sqs, side_to_move, sq) implies fen_legal_ep(
                    fen_of(sq, side_to_move, ep),
                ) != Some(ep) by {
                    lemma_places_unique(ps, sqs, side_to_move, sq, position.squares@, n as int, self.n_pawns as int, self.n_unique_pawns as int);
                }
            }
        }
        match position.legal_ep() {
            Some(legal) => {
                if legal == ep_square {
                    Some(position)
                } else {
                    None
                }
            },
            None => None,
        }
    }

    /// An index that a position of a table with pawns stands for lies in the
    /// range of the option it decodes through, counted from its start.
    proof fn lemma_pawn_decode_range(&self, index: u64, p: BoardPosition, opt: EnpassantOption)
        requires
            self.wf(),
            self.n_pawns > 0,
            self.decodes_pawns(index, p),
            self.ep_options@.contains(opt),
            opt.range_start <= index < opt.range_end,
        ensures
            index - opt.range_start < comb_product(with_ep_option(self.piece_set@, opt), self.piece_set@.len() as int),
    {
        let (o, b, c, d): (EnpassantOption, Seq<u64>, Seq<u64>, Seq<u64>) = choose|
            o: EnpassantOption,
            b: Seq<u64>,
            c: Seq<u64>,
            d: Seq<u64>,
        | #[trigger] self.decodes_pawns_with(index, p, o, b, c, d);
        self.lemma_option_by_index(o, opt, index);
        self.lemma_adjusted_facts(o);
        let ps = with_ep_option(self.piece_set@, o);
        let n = self.n_pieces as int;
        let len = ps.len() as int;
        assert(counts_subsets(ps)) by {
            assert forall|e: int| 0 <= e < ps.len() implies (#[trigger] ps[e]).combinations == binom(ps[e].n_squares as nat, ps[e].multiplicity as nat) by {
                assert(element_ok(ps[e], n));
            }
        }
        assert forall|e: int| 0 <= e < len implies 0 <= (#[trigger] ps[e]).span.1 - ps[e].multiplicity && ps[e].span.1 <= b.len() by {
            assert(element_ok(ps[e], n));
        }
        lemma_mixed_index_from(ps, b, len);
        lemma_mixed_from_bound(ps, b, 0, len);
        lemma_comb_product_range(ps, len);
    }

    /// Decoding an index of a table with pawns through the option `opt`: the
    /// compacted indexes and the pawn indexes in `0..6` found are those of
    /// every position the index stands for.
    #[verifier::rlimit(60)]
    #[verifier::spinoff_prover]
    proof fn lemma_pawn_decode_pairs(&self, index: u64, p: BoardPosition, opt: EnpassantOption, bb: Seq<u64>, cc: Seq<u64>)
        requires
            self.wf(),
            self.n_pawns > 0,
            self.decodes_pawns(index, p),
            self.ep_options@.contains(opt),
            opt.range_start <= index < opt.range_end,
            bb.len() == self.n_pieces,
            valid_cpidx(with_ep_option(self.piece_set@, opt), bb),
            slots_set(with_ep_option(self.piece_set@, opt), bb, 0, self.piece_set@.len() as int),
            mixed_index(with_ep_option(self.piece_set@, opt), bb, self.piece_set@.len() as int) == index - opt.range_start,
            pairs_mapped(with_ep_option(self.piece_set@, opt), self.n_unique_pawns as int, bb, cc, self.n_unique_pawns as int,
                |s: Seq<u64>| uncompact(s)),
        ensures
            exists|d: Seq<u64>| #[trigger] self.decodes_pawns_with(index, p, opt, bb, cc, d),
            forall|k: int| 0 <= k < self.n_pawns ==> #[trigger] cc[k] < 7,
    {
        let (o, b, c, d): (EnpassantOption, Seq<u64>, Seq<u64>, Seq<u64>) = choose|
            o: EnpassantOption,
            b: Seq<u64>,
            c: Seq<u64>,
            d: Seq<u64>,
        | #[trigger] self.decodes_pawns_with(index, p, o, b, c, d);
        self.lemma_option_by_index(o, opt, index);
        self.lemma_adjusted_facts(o);
        let ps = with_ep_option(self.piece_set@, o);
        let n = self.n_pieces as int;
        let np = self.n_pawns as int;
        let nup = self.n_unique_pawns as int;
        let len = ps.len() as int;
        assert(counts_subsets(ps)) by {
            assert forall|e: int| 0 <= e < ps.len() implies (#[trigger] ps[e]).combinations == binom(ps[e].n_squares as nat, ps[e].multiplicity as nat) by {
                assert(element_ok(ps[e], n));
            }
        }
        assert forall|e: int| 0 <= e < len implies 0 <= (#[trigger] ps[e]).span.1 - ps[e].multiplicity && ps[e].span.1 <= b.len()
            && ps[e].span.1 <= bb.len() by {
            assert(element_ok(ps[e], n));
        }
        lemma_mixed_index_injective(ps, bb, b);
        assert forall|i: int| 0 <= i < n implies bb[i] == b[i] by {
            lemma_spans_cover(ps, n, np, nup, i);
            let k = choose|k: int| 0 <= k < ps.len() && (#[trigger] ps[k]).span.0 <= i < ps[k].span.1;
            assert(element_ok(ps[k], n));
            assert(slot_set(ps[k], bb) && slot_set(ps[k], b));
            if i >= ps[k].span.1 - ps[k].multiplicity {
                let j = i - (ps[k].span.1 - ps[k].multiplicity);
                assert(group_cpidx(ps[k], bb) == group_cpidx(ps[k], b));
                assert(group_cpidx(ps[k], bb)[j] == bb[i]);
                assert(group_cpidx(ps[k], b)[j] == b[i]);
            }
        }
        assert(bb =~= b);
        assert forall|i: int| 0 <= i < n implies cc[i] == c[i] by {
            if in_file_pair(ps, nup, i, nup) {
                let q = choose|q: int| #![trigger file_pair(ps, nup, q)] q < nup && file_pair(ps, nup, q) && ps[q - 1].span.0 <= i < ps[q].span.1;
                let lo = ps[q - 1].span.0 as int;
                let hi = ps[q].span.1 as int;
                assert(element_ok(ps[q - 1], n) && element_ok(ps[q], n));
                assert(cc.subrange(lo, hi) == uncompact(bb.subrange(lo, hi)));
                assert(c.subrange(lo, hi) == uncompact(b.subrange(lo, hi)));
                assert(cc.subrange(lo, hi)[i - lo] == cc[i]);
                assert(c.subrange(lo, hi)[i - lo] == c[i]);
            }
        }
        assert(cc =~= c);
        assert(self.decodes_pawns_with(index, p, opt, bb, cc, d));
        assert forall|k: int| 0 <= k < np implies #[trigger] cc[k] < 7 by {
            lemma_spans_cover(ps, n, np, nup, k);
            let e = choose|e: int| 0 <= e < ps.len() && (#[trigger] ps[e]).span.0 <= k < ps[e].span.1;
            if e >= nup {
                assert(np <= ps[e].span.0);
            }
            assert(pawn_square_entries(ps[e], c, d));
        }
    }

    /// The square indexes of the pawns found while decoding are those of
    /// every position the index stands for, and their compaction fits.
    #[verifier::spinoff_prover]
    proof fn lemma_pawn_decode_squares(
        &self,
        index: u64,
        p: BoardPosition,
        opt: EnpassantOption,
        bb: Seq<u64>,
        cc: Seq<u64>,
        dd: Seq<u64>,
        cs1: Seq<(u64, u64)>,
        ww: Seq<u64>,
    )
        requires
            self.wf(),
            self.n_pawns > 0,
            files_grouped(self.piece_set@, self.n_unique_pawns as int),
            self.ep_options@.contains(opt),
            exists|d: Seq<u64>| #[trigger] self.decodes_pawns_with(index, p, opt, bb, cc, d),
            dd.len() == self.n_pieces,
            forall|i: int| self.n_pawns <= i < self.n_pieces ==> #[trigger] dd[i] == cc[i],
            forall|e: int| 0 <= e < self.n_unique_pawns ==> pawn_converted(#[trigger] with_ep_option(self.piece_set@, opt)[e], cc, dd, cs1),
            ww == dd.subrange(0, 0) + compact(dd.subrange(0, self.n_pawns as int)) + dd.subrange(self.n_pawns as int, self.n_pieces as int),
        ensures
            self.decodes_pawns_with(index, p, opt, bb, cc, dd),
            all_below(ww, 0x1_0000_0000),
    {
        let d = choose|d: Seq<u64>| #[trigger] self.decodes_pawns_with(index, p, opt, bb, cc, d);
        self.lemma_adjusted_facts(opt);
        let ps = with_ep_option(self.piece_set@, opt);
        let n = self.n_pieces as int;
        let np = self.n_pawns as int;
        let nup = self.n_unique_pawns as int;
        assert(d.len() == n && cc.len() == n);
        assert forall|k: int| 0 <= k < n implies dd[k] == d[k] by {
            if k < np {
                lemma_spans_cover(ps, n, np, nup, k);
                let e = choose|e: int| 0 <= e < ps.len() && (#[trigger] ps[e]).span.0 <= k < ps[e].span.1;
                if e >= nup {
                    assert(np <= ps[e].span.0);
                }
                assert(pawn_square_entries(ps[e], cc, d));
                assert(pawn_converted(ps[e], cc, dd, cs1));
            }
        }
        assert(dd =~= d);
        assert(p.squares@.len() == 64);
        self.lemma_decoded_pawn_facts(index, p, opt, bb, cc, dd);
        assert(ww =~= compact(dd.subrange(0, np)) + dd.subrange(np, n));
    }

    /// The coordinates found while decoding place the pieces where every
    /// position the index stands for has them, so that `shakmaty` is asked
    /// about that position.
    #[verifier::rlimit(60)]
    #[verifier::spinoff_prover]
    proof fn lemma_pawn_decode_board(
        &self,
        index: u64,
        p: BoardPosition,
        opt: EnpassantOption,
        bb: Seq<u64>,
        cc: Seq<u64>,
        dd: Seq<u64>,
        cs1: Seq<(u64, u64)>,
        ww: Seq<u64>,
        rel: Seq<u64>,
        cs: Seq<(u64, u64)>,
    )
        requires
            self.wf(),
            self.n_pawns > 0,
            files_grouped(self.piece_set@, self.n_unique_pawns as int),
            self.ep_options@.contains(opt),
            self.decodes_pawns_with(index, p, opt, bb, cc, dd),
            forall|e: int| 0 <= e < self.n_unique_pawns ==> pawn_converted(#[trigger] with_ep_option(self.piece_set@, opt)[e], cc, dd, cs1),
            ww == dd.subrange(0, 0) + compact(dd.subrange(0, self.n_pawns as int)) + dd.subrange(self.n_pawns as int, self.n_pieces as int),
            rel == ww.subrange(0, 0) + uncompact(ww.subrange(0, self.n_pieces as int)) + ww.subrange(self.n_pieces as int, self.n_pieces as int),
            cs.len() == self.n_pieces,
            forall|i: int| self.n_pawns <= i < self.n_pieces ==> #[trigger] cs[i] == (rel[i] / 8, rel[i] % 8),
            forall|i: int| 0 <= i < self.n_pawns && i < self.n_pieces ==> #[trigger] cs[i] == cs1[i],
        ensures
            on_board(cs),
            all_distinct(abs_squares(cs, p.turn == Color::Black)),
            legal_placement(
                with_ep_option(self.piece_set@, opt),
                abs_squares(cs, p.turn == Color::Black),
                p.turn,
                option_ep_square(opt.square, p.turn),
            ),
    {
        self.lemma_adjusted_facts(opt);
        let ps = with_ep_option(self.piece_set@, opt);
        let n = self.n_pieces as int;
        let np = self.n_pawns as int;
        let nup = self.n_unique_pawns as int;
        let flip = p.turn == Color::Black;
        assert(p.squares@.len() == 64);
        self.lemma_decoded_pawn_facts(index, p, opt, bb, cc, dd);
        let w = compact(dd.subrange(0, np)) + dd.subrange(np, n);
        assert(ww =~= w);
        assert(ww.subrange(0, n) =~= ww);
        assert(rel =~= uncompact(w));
        let relf = pawn_table_squares(np, dd);
        assert(rel == relf);
        assert forall|i: int| 0 <= i < n implies #[trigger] cs[i] == (rel[i] / 8, rel[i] % 8) by {
            if i < np {
                lemma_spans_cover(ps, n, np, nup, i);
                let e = choose|e: int| 0 <= e < ps.len() && (#[trigger] ps[e]).span.0 <= i < ps[e].span.1;
                if e >= nup {
                    assert(np <= ps[e].span.0);
                }
                assert(pawn_converted(ps[e], cc, dd, cs1));
                assert(pawn_square_entries(ps[e], cc, dd));
                assert(ps[e].role is Pawn);
                assert(role_index(ps[e].role) < 8);
                assert(rel[i] == dd[i]);
            }
        }
        assert(on_board(cs)) by {
            assert forall|i: int| 0 <= i < cs.len() implies (#[trigger] cs[i]).0 < 8 && cs[i].1 < 8 by {
                assert(cs[i] == (rel[i] / 8, rel[i] % 8));
                assert(rel[i] < 64);
            }
        }
        assert(abs_squares(cs, flip) =~= flip_squares(rel, flip)) by {
            assert forall|i: int| 0 <= i < n implies abs_squares(cs, flip)[i] == flip_squares(rel, flip)[i] by {
                assert(cs[i] == (rel[i] / 8, rel[i] % 8));
                assert(rel[i] < 64);
                assert((rel[i] / 8) * 8 + rel[i] % 8 == rel[i]);
            }
        }
        assert(places(ps, abs_squares(cs, flip), p.turn, p.squares@));
    }

    /// A table has no more elements than pieces.
    proof fn lemma_few_elements(&self)
        requires
            self.wf(),
        ensures
            self.piece_set@.len() <= self.n_pieces,
            self.n_unique_pawns <= 8,
    {
        let ps = self.piece_set@;
        let n = self.n_pieces as int;
        crate::indexer::lemma_layout_elements(ps, self.n_unique_pawns as int, n, self.n_pawns as int);
        reveal(crate::indexer::layout_ok);
        if ps.len() > 0 {
            lemma_span_starts(ps, ps.len() as int - 1);
        }
    }

    /// In a pawnless table, the compacted indexes that give an index are
    /// those of every position the index stands for.
    proof fn lemma_pawnless_buffer_unique(&self, index: u64, p: BoardPosition, bb: Seq<u64>)
        requires
            self.wf(),
            self.n_pawns == 0,
            self.decodes_pawnless(index, p),
            bb.len() == self.n_pieces,
            valid_cpidx(self.piece_set@, bb),
            mixed_index(self.piece_set@, bb, self.piece_set@.len() as int) == index,
        ensures
            places(self.piece_set@, pawnless_squares(self.kings_map_from_index@, bb), p.turn, p.squares@),
            p.ep_square is None,
            fen_legal_ep(fen_of(p.squares@, p.turn, p.ep_square)) == Some(p.ep_square),
    {
        let ps = self.piece_set@;
        let n = self.n_pieces as int;
        crate::indexer::lemma_layout_elements(ps, self.n_unique_pawns as int, n, self.n_pawns as int);
        let b = choose|b: Seq<u64>| #[trigger] self.decodes_with(index, p, b);
        assert(counts_subsets(ps)) by {
            assert forall|e: int| 0 <= e < ps.len() implies (#[trigger] ps[e]).combinations == binom(ps[e].n_squares as nat, ps[e].multiplicity as nat) by {
                assert(element_ok(ps[e], n));
            }
        }
        assert forall|e: int| 0 <= e < ps.len() implies 0 <= (#[trigger] ps[e]).span.1 - ps[e].multiplicity && ps[e].span.1 <= bb.len()
            && ps[e].span.1 <= b.len() by {
            assert(element_ok(ps[e], n));
        }
        lemma_mixed_index_injective(ps, bb, b);
        assert forall|i: int| 0 <= i < n implies bb[i] == b[i] by {
            lemma_spans_cover(ps, n, self.n_pawns as int, self.n_unique_pawns as int, i);
            let k = choose|k: int| 0 <= k < ps.len() && (#[trigger] ps[k]).span.0 <= i < ps[k].span.1;
            assert(group_cpidx(ps[k], bb) == group_cpidx(ps[k], b));
            assert(group_cpidx(ps[k], bb)[i - ps[k].span.0] == bb[i]);
            assert(group_cpidx(ps[k], b)[i - ps[k].span.0] == b[i]);
        }
        assert(bb =~= b);
    }

    /// Decodes an index as a position of this table with the given side to
    /// move (a representative of the positions the index stands for). Returns
    /// None when the index stands for no legal position.
    #[verifier::rlimit(100)]
    #[verifier::spinoff_prover]
    pub fn position_from_index(&self, sc: &mut IndexerScratch, index: u64, side_to_move: Color) -> (r: Option<BoardPosition>)
        requires
            self.wf(),
            self.scratch_wf(old(sc)),
            index < self.index_range,
        ensures
            self.scratch_wf(final(sc)),
            index < final(sc).current_ep_option.range_end,
            final(sc).current_ep_option.range_start <= index,
            r matches Some(p) ==> p.wf() && p.turn == side_to_move && fen_legal_ep(fen_of(p.squares@, p.turn, p.ep_square))
                == Some(p.ep_square),
            r matches Some(p) ==> (self.n_pawns == 0 ==> self.decodes_pawnless(index, p)),
            r matches Some(p) ==> (self.n_pawns > 0 && files_grouped(self.piece_set@, self.n_unique_pawns as int)
                ==> self.decodes_pawns(index, p)),
            self.n_pawns == 0 && (exists|p: BoardPosition| #[trigger] self.decodes_pawnless(index, p) && p.turn == side_to_move)
                ==> r is Some,
            self.n_pawns > 0 && files_grouped(self.piece_set@, self.n_unique_pawns as int) && (exists|p: BoardPosition|
                #[trigger] self.decodes_pawns(index, p) && p.turn == side_to_move) ==> r is Some,
    {
        let offset = self.adjust_ep_from_index(sc, index);
        let ghost opt = sc.current_ep_option;
        proof {
            if self.n_pawns == 0 {
                self.lemma_pawnless_options();
                assert(opt == self.ep_options@[0]);
                assert(index - offset < comb_product(sc.piece_set@, sc.piece_set@.len() as int));
            } else if exists|p: BoardPosition| #[trigger] self.decodes_pawns(index, p) && p.turn == side_to_move {
                let p = choose|p: BoardPosition| #[trigger] self.decodes_pawns(index, p) && p.turn == side_to_move;
                self.lemma_pawn_decode_range(index, p, opt);
                assert(sc.piece_set@ == with_ep_option(self.piece_set@, opt));
                self.lemma_adjusted_facts(opt);
                assert(sc.piece_set@.len() == self.piece_set@.len());
                assert(index - offset < comb_product(sc.piece_set@, sc.piece_set@.len() as int));
            }
        }
        if !self.index_to_cpidx(sc, index - offset) {
            return None;
        }
        proof {
            self.lemma_scratch_elements(sc);
            self.lemma_scratch_distinct(sc);
        }
        let ghost ps = sc.piece_set@;
        let ghost b = sc.buffer_pidx@;
        let ghost nup = self.n_unique_pawns as int;
        let ghost np = self.n_pawns as int;
        let ghost f_un = |s: Seq<u64>| uncompact(s);
        let n = self.n_pieces;
        if self.n_pawns > 0 {
            proof {
                assert forall|i: int| 0 <= i < b.len() && !in_file_pair(ps, nup, i, 1) implies sc.buffer_pidx@[i] == b[i] by {}
                self.lemma_few_elements();
            }
            let mut e: usize = 1;
            while e < self.n_unique_pawns
                invariant
                    1 <= e,
                    e <= self.n_unique_pawns || self.n_unique_pawns == 0,
                    self.n_unique_pawns <= sc.piece_set@.len(),
                    nup == self.n_unique_pawns,
                    np == self.n_pawns,
                    sc.piece_set@ == ps,
                    b.len() == n,
                    f_un == (|s: Seq<u64>| uncompact(s)),
                    elements_ok(ps, n as int, self.n_pawns as int, self.n_unique_pawns as int),
                    distinct_entries(ps),
                    self.scratch_wf(sc),
                    sc.current_ep_option == opt,
                    opt.range_start <= index < opt.range_end,
                    n == self.n_pieces,
                    pairs_mapped(ps, nup, b, sc.buffer_pidx@, e as int, f_un),
                    forall|i: int| 0 <= i < sc.buffer_pidx@.len() ==> #[trigger] sc.buffer_pidx@[i] < 463 + 8 * e,
                    self.n_unique_pawns <= 8,
                decreases self.n_unique_pawns - e,
            {
                let ghost cur = sc.buffer_pidx@;
                if sc.piece_set[e - 1].role == sc.piece_set[e].role {
                    proof {
                        assert(element_ok(ps[e - 1], n as int));
                        assert(element_ok(ps[e as int], n as int));
                        assert(ps[e - 1].span.1 <= ps[e as int].span.0);
                    }
                    let lo = sc.piece_set[e - 1].span.0;
                    let hi = sc.piece_set[e].span.1;
                    proof {
                        assert(e <= 8);
                        assert(all_below(cur, 0x1_0000_0000)) by {
                            assert forall|i: int| 0 <= i < cur.len() implies cur[i] < 0x1_0000_0000 by {
                                assert(cur[i] < 463 + 8 * e);
                            }
                        }
                    }
                    if !uncompact_checked(&mut sc.buffer_pidx, lo, hi) {
                        return None;
                    }
                    proof {
                        let sub = cur.subrange(lo as int, hi as int);
                        crate::compaction::lemma_uncompact_len(sub);
                        crate::compaction::lemma_uncompact_bound(sub, (463 + 8 * e) as u64);
                        assert forall|i: int| 0 <= i < sc.buffer_pidx@.len() implies #[trigger] sc.buffer_pidx@[i] < 463 + 8 * (e + 1) by {
                            if lo <= i < hi {
                                assert(sc.buffer_pidx@[i] == uncompact(sub)[i - lo]);
                            } else {
                                assert(sc.buffer_pidx@[i] == cur[i]);
                            }
                        }
                    }
                }
                proof {
                    lemma_pairs_mapped_step(ps, n as int, np, nup, b, cur, sc.buffer_pidx@, e as int, f_un);
                }
                e += 1;
            }
            let ghost c = sc.buffer_pidx@;
            proof {
                if nup == 0 {
                    assert forall|i: int| 0 <= i < b.len() && !in_file_pair(ps, nup, i, nup) implies c[i] == b[i] by {
                        assert(!in_file_pair(ps, nup, i, 1)) by {
                            if in_file_pair(ps, nup, i, nup) {
                                let q = choose|q: int| #![trigger file_pair(ps, nup, q)] q < nup && file_pair(ps, nup, q) && ps[q - 1].span.0 <= i < ps[q].span.1;
                            }
                        }
                    }
                }
                assert(pairs_mapped(ps, nup, b, c, nup, f_un));
            }
            let ghost decp = files_grouped(self.piece_set@, nup) && exists|p: BoardPosition| #[trigger] self.decodes_pawns(index, p)
                && p.turn == side_to_move;
            let ghost pp = choose|p: BoardPosition| #[trigger] self.decodes_pawns(index, p) && p.turn == side_to_move;
            proof {
                if decp {
                    self.lemma_pawn_decode_pairs(index, pp, opt, b, c);
                }
            }
            if !self.pawn_cpidx_to_pidx(sc) {
                return None;
            }
            let ghost d = sc.buffer_pidx@;
            let ghost cs1 = sc.buffer_coord@;
            compact_pidx(&mut sc.buffer_pidx, 0, self.n_pawns);
            let ghost w = sc.buffer_pidx@;
            proof {
                if decp {
                    assert(w == d.subrange(0, 0) + compact(d.subrange(0, np)) + d.subrange(np, n as int));
                    self.lemma_pawn_decode_squares(index, pp, opt, b, c, d, cs1, w);
                }
            }
            if !uncompact_checked(&mut sc.buffer_pidx, 0, n) {
                return None;
            }
            let ghost rel = sc.buffer_pidx@;
            self.nonpawn_pidx_to_coord(sc);
            let ghost cs = sc.buffer_coord@;
            proof {
                if decp {
                    self.lemma_pawn_decode_board(index, pp, opt, b, c, d, cs1, w, rel, cs);
                }
            }
            let r = self.coord_to_position(sc, side_to_move);
            proof {
                if r is Some && files_grouped(self.piece_set@, nup) {
                    let p = r->0;
                    self.lemma_decoded_pawns(index, p, opt, b, c, d, cs1, w, rel, cs);
                }
            }
            return r;
        } else {
            proof {
                self.lemma_pawnless_options();
                assert(opt == self.ep_options@[0]);
                assert(ps == self.piece_set@);
                assert(b[0] < 462) by {
                    crate::indexer::lemma_layout_elements(ps, nup, n as int, np);
                    reveal(crate::indexer::layout_ok);
                    assert(group_valid(ps[0], b));
                    assert(group_cpidx(ps[0], b)[0] == b[0]);
                }
            }
            if !self.unmap_kings(sc) {
                return None;
            }
            let ghost from = self.kings_map_from_index@;
            let ghost b1 = sc.buffer_pidx@;
            assert(all_below(b1, 0x1_0000_0000)) by {
                assert forall|i: int| 0 <= i < b1.len() implies b1[i] < 0x1_0000_0000 by {
                    if i >= 2 {
                        assert(b1[i] == b[i]);
                    }
                }
            }
            if !uncompact_checked(&mut sc.buffer_pidx, 0, n) {
                return None;
            }
            let ghost sqs = sc.buffer_pidx@;
            proof {
                reveal(crate::indexer::kings_ok);
                assert(b1 == kings_unmapped(from, b));
                assert(b1.subrange(0, n as int) =~= b1);
                assert(b1.subrange(0, 0) + uncompact(b1) + b1.subrange(n as int, n as int) =~= uncompact(b1));
                assert(sqs == pawnless_squares(from, b));
                assert(all_below(b1, 0x1_0000_0000)) by {
                    assert forall|i: int| 0 <= i < b1.len() implies b1[i] < 0x1_0000_0000 by {
                        if i >= 2 {
                            assert(b1[i] == b[i]);
                        }
                    }
                }
                crate::compaction::lemma_uncompact_distinct(b1);
            }
            self.nonpawn_pidx_to_coord(sc);
            let ghost cs = sc.buffer_coord@;
            proof {
                if exists|p: BoardPosition| #[trigger] self.decodes_pawnless(index, p) && p.turn == side_to_move {
                    let p = choose|p: BoardPosition| #[trigger] self.decodes_pawnless(index, p) && p.turn == side_to_move;
                    self.lemma_pawnless_buffer_unique(index, p, b);
                    assert(all_below(sqs, 64));
                    assert(on_board(cs)) by {
                        assert forall|i: int| 0 <= i < cs.len() implies (#[trigger] cs[i]).0 < 8 && cs[i].1 < 8 by {
                            assert(cs[i] == (sqs[i] / 8, sqs[i] % 8));
                            assert(sqs[i] < 64);
                        }
                    }
                    assert(abs_squares(cs, false) =~= sqs) by {
                        assert forall|i: int| 0 <= i < n implies abs_squares(cs, false)[i] == sqs[i] by {
                            assert(cs[i] == (sqs[i] / 8, sqs[i] % 8));
                        }
                    }
                    assert(places(ps, abs_squares(cs, false), side_to_move, p.squares@));
                    assert(legal_placement(ps, abs_squares(cs, false), side_to_move, option_ep_square(opt.square, side_to_move)));
                }
            }
            let r = self.coord_to_position(sc, side_to_move);
            proof {
                if r is Some {
                    let p = r->0;
                    assert(abs_squares(cs, false) =~= sqs) by {
                        assert forall|i: int| 0 <= i < n implies abs_squares(cs, false)[i] == sqs[i] by {
                            assert(cs[i] == (sqs[i] / 8, sqs[i] % 8));
                        }
                    }
                    assert(places(ps, pawnless_squares(from, b), p.turn, p.squares@));
                    assert(self.decodes_with(index, p, b));
                }
            }
            return r;
        }
    }

    /// For a pawnless table, the index of the reflection across the a1-h8
    /// diagonal of the position of `index` when both kings stand on that
    /// diagonal (`index` itself when every piece does), and `Ok(None)` when
    /// they do not or the table has pawns. Such indexes stand for 4 positions
    /// instead of 8. Fails when the index does not decode.
    pub fn diagonal_symmetric(&self, sc: &mut IndexerScratch, index: u64) -> (r: Result<Option<u64>, crate::error::EgtError>)
        requires
            self.wf(),
            self.scratch_wf(old(sc)),
        ensures
            self.scratch_wf(final(sc)),
            self.n_pawns != 0 ==> r == Ok::<Option<u64>, crate::error::EgtError>(None),
            r matches Ok(Some(v)) ==> v == mixed_index(final(sc).piece_set@, final(sc).buffer_pidx@, final(sc).piece_set@.len() as int),
            forall|p: BoardPosition| self.n_pawns == 0 && #[trigger] self.decodes_pawnless(index, p) && !self.kings_on_diagonal(p)
                ==> r == Ok::<Option<u64>, crate::error::EgtError>(None),
            forall|i2: u64, p: BoardPosition, q: BoardPosition| self.n_pawns == 0 && #[trigger] self.decodes_pawnless(index, p)
                && self.kings_on_diagonal(p) && transposed(q, p) && #[trigger] self.decodes_pawnless(i2, q)
                ==> r == Ok::<Option<u64>, crate::error::EgtError>(Some(i2)),
            self.n_pawns == 0 && index >= self.index_range ==> r is Err,
            r matches Ok(Some(v)) ==> v < self.index_range,
    {
        if self.n_pawns != 0 {
            return Ok(None);
        }
        let ghost dec = exists|p: BoardPosition| #[trigger] self.decodes_pawnless(index, p);
        let ghost gp: BoardPosition = choose|p: BoardPosition| #[trigger] self.decodes_pawnless(index, p);
        let ghost gbp: Seq<u64> = choose|b: Seq<u64>| #[trigger] self.decodes_with(index, gp, b);
        proof {
            self.lemma_scratch_elements(sc);
            self.lemma_pawnless_options();
            let t = choose|t: int| 0 <= t < self.ep_options@.len() && self.ep_options@[t] == sc.current_ep_option;
            assert(t == 0);
            assert(sc.piece_set@ == self.piece_set@);
            if dec {
                assert(self.decodes_with(index, gp, gbp));
                self.lemma_decoded_facts(gp, gbp);
                reveal(crate::indexer::options_ok);
            }
        }
        let n = self.n_pieces;
        if !self.index_to_cpidx(sc, index) {
            return Err(crate::error::EgtError::Internal("index out of range"));
        }
        let ghost b = sc.buffer_pidx@;
        proof {
            if dec {
                self.lemma_pawnless_buffer(index, gp, gbp, b);
            }
        }
        if !self.unmap_kings(sc) {
            proof {
                if dec {
                    assert(group_cpidx(sc.piece_set@[0], b)[0] == b[0]);
                }
            }
            return Err(crate::error::EgtError::Internal("index out of range"));
        }
        let ghost b1 = sc.buffer_pidx@;
        if !uncompact_checked(&mut sc.buffer_pidx, 0, n) {
            proof {
                if dec {
                    assert(b1 == kings_unmapped(self.kings_map_from_index@, gbp));
                }
            }
            return Err(crate::error::EgtError::Internal("index out of range"));
        }
        let ghost sqv = sc.buffer_pidx@;
        proof {
            assert(b1.subrange(0, 0) + crate::compaction::uncompact(b1.subrange(0, n as int)) + b1.subrange(n as int, n as int)
                =~= crate::compaction::uncompact(b1)) by {
                assert(b1.subrange(0, n as int) =~= b1);
                crate::compaction::lemma_uncompact_len(b1);
            }
        }
        self.nonpawn_pidx_to_coord(sc);
        let ghost c0 = sc.buffer_coord@;
        let k0 = sc.buffer_coord[0];
        let k1 = sc.buffer_coord[1];
        proof {
            assert forall|p: BoardPosition| #[trigger] self.decodes_pawnless(index, p) implies (self.kings_on_diagonal(p) <==> (
            k0.0 == k0.1 && k1.0 == k1.1)) by {
                let bp = choose|bb: Seq<u64>| #[trigger] self.decodes_with(index, p, bb);
                self.lemma_pawnless_buffer(index, p, bp, b);
                self.lemma_kings_diagonal(index, p, bp);
            }
        }
        proof {
            if dec {
                assert forall|k: int| 0 <= k < n implies (#[trigger] c0[k]).0 < 8 && c0[k].1 < 8 by {
                    assert(c0[k] == (sqv[k] / 8, sqv[k] % 8));
                    assert(sqv[k] < 64);
                }
            }
        }
        if k0.0 == k0.1 && k1.0 == k1.1 {
            // Reflect across the diagonal and encode again.
            let mut i: usize = 0;
            while i < n
                invariant
                    0 <= i <= n == sc.buffer_coord@.len() == c0.len(),
                    self.scratch_wf(sc),
                    self.n_pawns == 0,
                    forall|k: int| 0 <= k < i ==> (#[trigger] sc.buffer_coord@[k]).0 < 8 && sc.buffer_coord@[k].1 < 8,
                    forall|k: int| 0 <= k < i ==> #[trigger] sc.buffer_coord@[k] == (c0[k].1, c0[k].0),
                    forall|k: int| i <= k < n ==> #[trigger] sc.buffer_coord@[k] == c0[k],
                    dec ==> forall|k: int| 0 <= k < n ==> (#[trigger] c0[k]).0 < 8 && c0[k].1 < 8,
                    dec == exists|p: BoardPosition| #[trigger] self.decodes_pawnless(index, p),
                decreases n - i,
            {
                let (r, f) = sc.buffer_coord[i];
                if r >= 8 || f >= 8 {
                    return Err(crate::error::EgtError::Internal("index out of range"));
                }
                sc.buffer_coord.set(i, (f, r));
                i += 1;
            }
            let ghost a = sc.buffer_coord@;
            self.sort_coord_repeated_pieces(sc);
            let ghost c = sc.buffer_coord@;
            self.coord_to_pidx(sc);
            let ghost pidx = sc.buffer_pidx@;
            compact_pidx(&mut sc.buffer_pidx, 0, n);
            let ghost cpidx = sc.buffer_pidx@;
            proof {
                assert(pidx =~= coord_squares(c));
                assert(pidx.subrange(0, n as int) =~= pidx);
                assert(cpidx =~= compact(pidx)) by {
                    crate::compaction::lemma_compact_len(pidx);
                    assert(pidx.subrange(0, 0) + compact(pidx.subrange(0, n as int)) + pidx.subrange(n as int, n as int) =~= compact(pidx));
                }
            }
            proof {
                assert forall|k: int| 0 <= k < a.len() implies #[trigger] a[k] == (
                    pawnless_squares(self.kings_map_from_index@, b)[k] % 8,
                    pawnless_squares(self.kings_map_from_index@, b)[k] / 8,
                ) by {
                    assert(c0[k] == (sqv[k] / 8, sqv[k] % 8));
                }
            }
            if !self.map_kings(sc) {
                proof {
                    if exists|i2: u64, p: BoardPosition, q: BoardPosition| #[trigger] self.decodes_pawnless(index, p)
                        && self.kings_on_diagonal(p) && transposed(q, p) && #[trigger] self.decodes_pawnless(i2, q) {
                        let (i2, p, q): (u64, BoardPosition, BoardPosition) = choose|i2: u64, p: BoardPosition, q: BoardPosition|
                            #[trigger] self.decodes_pawnless(index, p) && self.kings_on_diagonal(p) && transposed(q, p)
                            && #[trigger] self.decodes_pawnless(i2, q);
                        self.lemma_diagonal_witness(index, b, a, c, cpidx, cpidx, false, i2, p, q);
                    }
                }
                return Err(crate::error::EgtError::Internal("index out of range"));
            }
            let ghost fin = sc.buffer_pidx@;
            match self.cpidx_to_index(sc) {
                Some(v) => {
                    proof {
                        self.lemma_index_in_range(sc.buffer_pidx@);
                        assert forall|i2: u64, p: BoardPosition, q: BoardPosition| #[trigger] self.decodes_pawnless(index, p)
                            && self.kings_on_diagonal(p) && transposed(q, p) && #[trigger] self.decodes_pawnless(i2, q) implies v == i2 by {
                            self.lemma_diagonal_witness(index, b, a, c, cpidx, fin, true, i2, p, q);
                        }
                    }
                    Ok(Some(v))
                },
                None => {
                    proof {
                        if exists|i2: u64, p: BoardPosition, q: BoardPosition| #[trigger] self.decodes_pawnless(index, p)
                            && self.kings_on_diagonal(p) && transposed(q, p) && #[trigger] self.decodes_pawnless(i2, q) {
                            let (i2, p, q): (u64, BoardPosition, BoardPosition) = choose|i2: u64, p: BoardPosition, q: BoardPosition|
                                #[trigger] self.decodes_pawnless(index, p) && self.kings_on_diagonal(p) && transposed(q, p)
                                && #[trigger] self.decodes_pawnless(i2, q);
                            self.lemma_diagonal_witness(index, b, a, c, cpidx, fin, true, i2, p, q);
                        }
                    }
                    Err(crate::error::EgtError::Internal("index out of range"))
                },
            }
        } else {
            Ok(None)
        }
    }
}

} // verus!
