//! The index of the compacted square indexes of all groups of identical
//! pieces: the subset rank of each group in the combinatorial number system,
//! combined in mixed radix with the number of combinations of each element.

use vstd::prelude::*;
use crate::combinatorics::{binom, subset_rank, strictly_decreasing, lemma_rank_bound, lemma_rank_injective};
use crate::indexer::{PieceSetElement, comb_product};

verus! {

/// The compacted indexes of the encoded pieces of an element (its last
/// `multiplicity` buffer entries).
pub open spec fn group_cpidx(p: PieceSetElement, buf: Seq<u64>) -> Seq<u64> {
    buf.subrange(p.span.1 - p.multiplicity, p.span.1 as int)
}

/// The encoded pieces of an element have strictly decreasing indexes below
/// the element's number of squares.
pub open spec fn group_valid(p: PieceSetElement, buf: Seq<u64>) -> bool {
    &&& strictly_decreasing(group_cpidx(p, buf))
    &&& p.multiplicity > 0 ==> group_cpidx(p, buf)[0] < p.n_squares
}

/// Every element of `lo..hi` has a valid group.
pub open spec fn groups_valid(ps: Seq<PieceSetElement>, buf: Seq<u64>, lo: int, hi: int) -> bool {
    forall|e: int| lo <= e < hi ==> group_valid(#[trigger] ps[e], buf)
}

/// Every element has a valid group.
pub open spec fn valid_cpidx(ps: Seq<PieceSetElement>, buf: Seq<u64>) -> bool {
    groups_valid(ps, buf, 0, ps.len() as int)
}

/// The groups of the elements of `lo..hi` are the same in both buffers.
pub open spec fn same_groups(ps: Seq<PieceSetElement>, a: Seq<u64>, b: Seq<u64>, lo: int, hi: int) -> bool {
    forall|e: int| lo <= e < hi ==> group_cpidx(#[trigger] ps[e], a) == group_cpidx(ps[e], b)
}

/// The index of the first `e` elements: the subset ranks of their groups
/// combined in mixed radix, the last element varying fastest.
pub open spec fn mixed_index(ps: Seq<PieceSetElement>, buf: Seq<u64>, e: int) -> nat
    decreases e,
{
    if e <= 0 {
        0
    } else {
        mixed_index(ps, buf, e - 1) * (ps[e - 1].combinations as nat) + subset_rank(group_cpidx(ps[e - 1], buf))
    }
}

/// The index of the elements of `lo..hi` alone.
pub open spec fn mixed_from(ps: Seq<PieceSetElement>, buf: Seq<u64>, lo: int, hi: int) -> nat
    decreases hi - lo,
{
    if hi <= lo {
        0
    } else {
        mixed_from(ps, buf, lo, hi - 1) * (ps[hi - 1].combinations as nat) + subset_rank(group_cpidx(ps[hi - 1], buf))
    }
}

/// The product of the numbers of combinations of the elements of `lo..hi`.
pub open spec fn comb_range(ps: Seq<PieceSetElement>, lo: int, hi: int) -> nat
    decreases hi - lo,
{
    if hi <= lo {
        1
    } else {
        comb_range(ps, lo, hi - 1) * (ps[hi - 1].combinations as nat)
    }
}

/// Each element counts the subsets of its size among its squares.
pub open spec fn counts_subsets(ps: Seq<PieceSetElement>) -> bool {
    forall|e: int| 0 <= e < ps.len() ==> (#[trigger] ps[e]).combinations == binom(ps[e].n_squares as nat, ps[e].multiplicity as nat)
}

pub proof fn lemma_mixed_index_from(ps: Seq<PieceSetElement>, buf: Seq<u64>, e: int)
    requires
        0 <= e,
    ensures
        mixed_index(ps, buf, e) == mixed_from(ps, buf, 0, e),
    decreases e,
{
    if e > 0 {
        lemma_mixed_index_from(ps, buf, e - 1);
    }
}

pub proof fn lemma_comb_product_range(ps: Seq<PieceSetElement>, e: int)
    requires
        0 <= e,
    ensures
        comb_product(ps, e) == comb_range(ps, 0, e),
    decreases e,
{
    if e > 0 {
        lemma_comb_product_range(ps, e - 1);
    }
}

/// Splitting the product of a range at `m`.
pub proof fn lemma_comb_range_split(ps: Seq<PieceSetElement>, lo: int, m: int, hi: int)
    requires
        lo <= m <= hi,
    ensures
        comb_range(ps, lo, hi) == comb_range(ps, lo, m) * comb_range(ps, m, hi),
    decreases hi - m,
{
    if hi > m {
        lemma_comb_range_split(ps, lo, m, hi - 1);
        let a = comb_range(ps, lo, m);
        let b = comb_range(ps, m, hi - 1);
        let c = ps[hi - 1].combinations as nat;
        assert(comb_range(ps, lo, hi) == comb_range(ps, lo, hi - 1) * c);
        assert(comb_range(ps, m, hi) == b * c);
        assert(a * b * c == a * (b * c)) by (nonlinear_arith);
    } else {
        let a = comb_range(ps, lo, m);
        assert(comb_range(ps, m, hi) == 1);
        assert(a * 1 == a) by (nonlinear_arith);
    }
}

/// The first element of a range varies slowest.
pub proof fn lemma_mixed_from_prepend(ps: Seq<PieceSetElement>, buf: Seq<u64>, lo: int, hi: int)
    requires
        lo < hi,
    ensures
        mixed_from(ps, buf, lo, hi) == subset_rank(group_cpidx(ps[lo], buf)) * comb_range(ps, lo + 1, hi) + mixed_from(
            ps,
            buf,
            lo + 1,
            hi,
        ),
        comb_range(ps, lo, hi) == (ps[lo].combinations as nat) * comb_range(ps, lo + 1, hi),
    decreases hi - lo,
{
    if hi > lo + 1 {
        lemma_mixed_from_prepend(ps, buf, lo, hi - 1);
        let r = subset_rank(group_cpidx(ps[lo], buf));
        let p = comb_range(ps, lo + 1, hi - 1);
        let m = mixed_from(ps, buf, lo + 1, hi - 1);
        let c = ps[hi - 1].combinations as nat;
        let c0 = ps[lo].combinations as nat;
        let t = subset_rank(group_cpidx(ps[hi - 1], buf));
        assert(mixed_from(ps, buf, lo, hi) == mixed_from(ps, buf, lo, hi - 1) * c + t);
        assert(mixed_from(ps, buf, lo + 1, hi) == m * c + t);
        assert(comb_range(ps, lo + 1, hi) == p * c);
        assert(comb_range(ps, lo, hi) == comb_range(ps, lo, hi - 1) * c);
        assert((r * p + m) * c + t == r * (p * c) + (m * c + t)) by (nonlinear_arith);
        assert((c0 * p) * c == c0 * (p * c)) by (nonlinear_arith);
    } else {
        let c0 = ps[lo].combinations as nat;
        let r = subset_rank(group_cpidx(ps[lo], buf));
        assert(mixed_from(ps, buf, lo, lo) == 0);
        assert(comb_range(ps, lo, lo) == 1);
        assert(mixed_from(ps, buf, lo, hi) == mixed_from(ps, buf, lo, lo) * c0 + r);
        assert(comb_range(ps, lo, hi) == comb_range(ps, lo, lo) * c0);
        assert(comb_range(ps, lo + 1, hi) == 1);
        assert(mixed_from(ps, buf, lo + 1, hi) == 0);
        assert(0 * c0 == 0 && 1 * c0 == c0 && r * 1 == r && c0 * 1 == c0) by (nonlinear_arith);
    }
}

/// The index of a range depends on the groups of its elements alone.
pub proof fn lemma_mixed_from_frame(ps: Seq<PieceSetElement>, a: Seq<u64>, b: Seq<u64>, lo: int, hi: int)
    requires
        same_groups(ps, a, b, lo, hi),
    ensures
        mixed_from(ps, a, lo, hi) == mixed_from(ps, b, lo, hi),
    decreases hi - lo,
{
    if hi > lo {
        lemma_mixed_from_frame(ps, a, b, lo, hi - 1);
        assert(group_cpidx(ps[hi - 1], a) == group_cpidx(ps[hi - 1], b));
    }
}

/// A valid group has a rank below the element's number of combinations.
pub proof fn lemma_group_rank_bound(p: PieceSetElement, buf: Seq<u64>)
    requires
        group_valid(p, buf),
        p.combinations == binom(p.n_squares as nat, p.multiplicity as nat),
        0 <= p.span.1 - p.multiplicity <= p.span.1 <= buf.len(),
    ensures
        subset_rank(group_cpidx(p, buf)) < p.combinations,
{
    lemma_rank_bound(group_cpidx(p, buf), p.n_squares as nat);
}

/// Valid groups give an index below the product of the numbers of combinations.
pub proof fn lemma_mixed_from_bound(ps: Seq<PieceSetElement>, buf: Seq<u64>, lo: int, hi: int)
    requires
        0 <= lo,
        hi <= ps.len(),
        groups_valid(ps, buf, lo, hi),
        counts_subsets(ps),
        forall|e: int| lo <= e < hi ==> 0 <= (#[trigger] ps[e]).span.1 - ps[e].multiplicity && ps[e].span.1 <= buf.len(),
    ensures
        mixed_from(ps, buf, lo, hi) < comb_range(ps, lo, hi),
    decreases hi - lo,
{
    if hi > lo {
        lemma_mixed_from_bound(ps, buf, lo, hi - 1);
        let p = ps[hi - 1];
        assert(group_valid(p, buf));
        lemma_group_rank_bound(p, buf);
        let m = mixed_from(ps, buf, lo, hi - 1);
        let q = comb_range(ps, lo, hi - 1);
        let c = p.combinations as nat;
        let r = subset_rank(group_cpidx(p, buf));
        assert(m * c + r < q * c) by (nonlinear_arith)
            requires
                m < q,
                r < c,
        ;
    }
}

/// The index of a range does not decrease as the range grows at its end,
/// when every element has at least one combination.
pub proof fn lemma_mixed_from_mono(ps: Seq<PieceSetElement>, buf: Seq<u64>, lo: int, a: int, b: int)
    requires
        lo <= a <= b,
        forall|e: int| a <= e < b ==> (#[trigger] ps[e]).combinations >= 1,
    ensures
        mixed_from(ps, buf, lo, a) <= mixed_from(ps, buf, lo, b),
    decreases b - a,
{
    if b > a {
        lemma_mixed_from_mono(ps, buf, lo, a, b - 1);
        let m = mixed_from(ps, buf, lo, b - 1);
        let c = ps[b - 1].combinations as nat;
        assert(m <= m * c) by (nonlinear_arith)
            requires
                c >= 1,
        ;
    }
}

/// Law: the index determines the groups. Two buffers whose groups are valid
/// and that have the same index hold the same compacted indexes in every
/// group.
pub proof fn lemma_mixed_index_injective(ps: Seq<PieceSetElement>, a: Seq<u64>, b: Seq<u64>)
    requires
        valid_cpidx(ps, a),
        valid_cpidx(ps, b),
        counts_subsets(ps),
        forall|e: int| 0 <= e < ps.len() ==> 0 <= (#[trigger] ps[e]).span.1 - ps[e].multiplicity && ps[e].span.1 <= a.len() && ps[e].span.1
            <= b.len(),
        mixed_index(ps, a, ps.len() as int) == mixed_index(ps, b, ps.len() as int),
    ensures
        same_groups(ps, a, b, 0, ps.len() as int),
{
    lemma_mixed_index_from(ps, a, ps.len() as int);
    lemma_mixed_index_from(ps, b, ps.len() as int);
    lemma_mixed_from_injective(ps, a, b, ps.len() as int);
}

proof fn lemma_mixed_from_injective(ps: Seq<PieceSetElement>, a: Seq<u64>, b: Seq<u64>, hi: int)
    requires
        0 <= hi <= ps.len(),
        groups_valid(ps, a, 0, hi),
        groups_valid(ps, b, 0, hi),
        counts_subsets(ps),
        forall|e: int| 0 <= e < ps.len() ==> 0 <= (#[trigger] ps[e]).span.1 - ps[e].multiplicity && ps[e].span.1 <= a.len() && ps[e].span.1
            <= b.len(),
        mixed_from(ps, a, 0, hi) == mixed_from(ps, b, 0, hi),
    ensures
        same_groups(ps, a, b, 0, hi),
    decreases hi,
{
    if hi > 0 {
        let p = ps[hi - 1];
        assert(group_valid(p, a));
        assert(group_valid(p, b));
        lemma_group_rank_bound(p, a);
        lemma_group_rank_bound(p, b);
        let ma = mixed_from(ps, a, 0, hi - 1);
        let mb = mixed_from(ps, b, 0, hi - 1);
        let ra = subset_rank(group_cpidx(p, a));
        let rb = subset_rank(group_cpidx(p, b));
        let c = p.combinations as nat;
        assert(ma == mb && ra == rb) by (nonlinear_arith)
            requires
                ma * c + ra == mb * c + rb,
                ra < c,
                rb < c,
        {
            if ma < mb {
                assert(ma * c + ra < (ma + 1) * c);
                assert((ma + 1) * c <= mb * c);
            } else if mb < ma {
                assert(mb * c + rb < (mb + 1) * c);
                assert((mb + 1) * c <= ma * c);
            }
        }
        lemma_mixed_from_injective(ps, a, b, hi - 1);
        lemma_rank_injective(group_cpidx(p, a), group_cpidx(p, b));
    }
}

} // verus!
