//! The pairs of king squares of pawnless tables, reduced by the symmetries
//! of the board: each pair is mapped to a canonical representative (the
//! first king in the a1-d1-d4 triangle), and the canonical pairs are numbered.

use vstd::prelude::*;

verus! {

/// Rank (0..8) of a square index.
pub open spec fn sq_rank(s: u64) -> u64 {
    s / 8
}

/// File (0..8) of a square index.
pub open spec fn sq_file(s: u64) -> u64 {
    s % 8
}

pub open spec fn abs_diff(a: u64, b: u64) -> u64 {
    if a >= b { (a - b) as u64 } else { (b - a) as u64 }
}

/// Whether two squares are the same or next to each other.
pub open spec fn adjacent_or_same(a: u64, b: u64) -> bool {
    abs_diff(sq_rank(a), sq_rank(b)) <= 1 && abs_diff(sq_file(a), sq_file(b)) <= 1
}

/// Square index of a (rank, file) pair.
pub open spec fn sq_of(c: (u64, u64)) -> u64 {
    (c.0 * 8 + c.1) as u64
}

/// The canonical representative of a pair of king squares given as
/// (rank, file) coordinates: reflect the board so that the first king is on
/// ranks 1-4, then on files a-d, then on or below the a1-h8 diagonal; when
/// the first king is on the diagonal, the second king decides the diagonal
/// reflection.
pub open spec fn reduce_coords(w: (u64, u64), b: (u64, u64)) -> ((u64, u64), (u64, u64)) {
    let (w1, b1) = if w.0 > 3 { (((7 - w.0) as u64, w.1), ((7 - b.0) as u64, b.1)) } else { (w, b) };
    let (w2, b2) = if w1.1 > 3 { ((w1.0, (7 - w1.1) as u64), (b1.0, (7 - b1.1) as u64)) } else { (w1, b1) };
    if w2.0 > w2.1 || (w2.0 == w2.1 && b2.0 > b2.1) {
        ((w2.1, w2.0), (b2.1, b2.0))
    } else {
        (w2, b2)
    }
}

/// The canonical representative of a pair of king squares (see `reduce_coords`).
pub open spec fn reduce_pair(wk: u64, bk: u64) -> (u64, u64) {
    let (w, b) = reduce_coords((sq_rank(wk), sq_file(wk)), (sq_rank(bk), sq_file(bk)));
    (sq_of(w), sq_of(b))
}

/// The second square, compacted with respect to the first (it cannot be equal).
pub open spec fn compact_second(wk: u64, bk: u64) -> u64 {
    if wk <= bk { (bk - 1) as u64 } else { bk }
}

/// Undoes `compact_second`.
pub open spec fn expand_second(wk: u64, bk: u64) -> u64 {
    if wk <= bk { (bk + 1) as u64 } else { bk }
}

/// `p` is the canonical form of some pair of non-adjacent king squares.
pub open spec fn is_canonical_pair(p: (u64, u64)) -> bool {
    exists|wk: u64, bk: u64|
        wk < 64 && bk < 64 && !adjacent_or_same(wk, bk) && #[trigger] reduce_pair(wk, bk) == p
}

/// A canonical pair has its first king on ranks 1-4, files a-d, on or below
/// the a1-h8 diagonal, and on the diagonal the second king on or below it.
pub proof fn lemma_canonical_coords(w: u64, b: u64)
    requires
        is_canonical_pair((w, b)),
    ensures
        w < 64,
        b < 64,
        w / 8 <= 3,
        w % 8 <= 3,
        !(w / 8 > w % 8 || (w / 8 == w % 8 && b / 8 > b % 8)),
{
    let (wk, bk) = choose|wk: u64, bk: u64| wk < 64 && bk < 64 && !adjacent_or_same(wk, bk) && #[trigger] reduce_pair(wk, bk) == (w, b);
    let wc = (sq_rank(wk), sq_file(wk));
    let bc = (sq_rank(bk), sq_file(bk));
    lemma_reduce_coords_canonical(wc, bc);
    let rc = reduce_coords(wc, bc);
    lemma_sq_coords(rc.0.0, rc.0.1);
    lemma_sq_coords(rc.1.0, rc.1.1);
}

proof fn lemma_reduce_coords_canonical(w: (u64, u64), b: (u64, u64))
    requires
        w.0 < 8 && w.1 < 8 && b.0 < 8 && b.1 < 8,
    ensures
        ({
            let (rw, rb) = reduce_coords(w, b);
            &&& rw.0 < 8 && rw.1 < 8 && rb.0 < 8 && rb.1 < 8
            &&& rw.0 <= 3 && rw.1 <= 3
            &&& !(rw.0 > rw.1 || (rw.0 == rw.1 && rb.0 > rb.1))
        }),
{
}

proof fn lemma_sq_coords(r: u64, f: u64)
    requires
        r < 8,
        f < 8,
    ensures
        sq_of((r, f)) == r * 8 + f,
        sq_of((r, f)) / 8 == r,
        sq_of((r, f)) % 8 == f,
{
    assert((r * 8 + f) / 8 == r && (r * 8 + f) % 8 == f) by (nonlinear_arith)
        requires
            r < 8,
            f < 8,
    ;
}

pub open spec fn pair_code(p: (u64, u64)) -> u64 {
    (p.0 * 64 + p.1) as u64
}

/// Whether two squares are the same or next to each other.
pub fn kings_adjacent_or_same(a: u64, b: u64) -> (r: bool)
    requires
        a < 64,
        b < 64,
    ensures
        r == adjacent_or_same(a, b),
{
    let ar = a / 8;
    let af = a % 8;
    let br = b / 8;
    let bf = b % 8;
    let dr = if ar >= br { ar - br } else { br - ar };
    let df = if af >= bf { af - bf } else { bf - af };
    dr <= 1 && df <= 1
}

/// The canonical representative of a pair of king squares (see `reduce_pair`).
pub fn reduce_king_pair(wk: u64, bk: u64) -> (r: (u64, u64))
    requires
        wk < 64,
        bk < 64,
    ensures
        r == reduce_pair(wk, bk),
        r.0 < 64,
        r.1 < 64,
{
    let ghost w0 = (wk / 8, wk % 8);
    let ghost b0 = (bk / 8, bk % 8);
    let mut w = (wk / 8, wk % 8);
    let mut b = (bk / 8, bk % 8);
    if w.0 > 3 {
        w = (7 - w.0, w.1);
        b = (7 - b.0, b.1);
    }
    if w.1 > 3 {
        w = (w.0, 7 - w.1);
        b = (b.0, 7 - b.1);
    }
    if w.0 > w.1 || (w.0 == w.1 && b.0 > b.1) {
        w = (w.1, w.0);
        b = (b.1, b.0);
    }
    assert((w, b) == reduce_coords(w0, b0));
    (w.0 * 8 + w.1, b.0 * 8 + b.1)
}

/// Inserts `x` in a strictly increasing list unless it is already there.
fn insert_sorted(list: &mut Vec<u64>, x: u64)
    requires
        forall|i: int, j: int| 0 <= i < j < old(list).len() ==> old(list)@[i] < old(list)@[j],
    ensures
        forall|i: int, j: int| 0 <= i < j < final(list).len() ==> final(list)@[i] < final(list)@[j],
        forall|y: u64| final(list)@.contains(y) <==> (old(list)@.contains(y) || y == x),
{
    let mut i: usize = 0;
    while i < list.len() && list[i] < x
        invariant
            0 <= i <= list.len(),
            list@ == old(list)@,
            forall|k: int| 0 <= k < i ==> list@[k] < x,
        decreases list.len() - i,
    {
        i += 1;
    }
    if i < list.len() && list[i] == x {
        assert forall|y: u64| list@.contains(y) <==> (old(list)@.contains(y) || y == x) by {
            if y == x {
                assert(list@[i as int] == y);
            }
        }
        return;
    }
    let ghost before = list@;
    assert(before == old(list)@);
    list.insert(i, x);
    assert forall|a: int, b: int| 0 <= a < b < list.len() implies list@[a] < list@[b] by {
        if a < i && b > i {
            assert(before[b - 1] > before[a]);
        }
    }
    assert forall|y: u64| list@.contains(y) <==> (old(list)@.contains(y) || y == x) by {
        if before.contains(y) {
            let k = choose|k: int| 0 <= k < before.len() && before[k] == y;
            if k < i {
                assert(list@[k] == y);
            } else {
                assert(list@[k + 1] == y);
            }
        }
        if y == x {
            assert(list@[i as int] == y);
        }
        if list@.contains(y) {
            let k = choose|k: int| 0 <= k < list@.len() && list@[k] == y;
            if k < i {
                assert(before[k] == y);
            } else if k > i {
                assert(before[k - 1] == y);
            }
        }
    }
}

proof fn lemma_code_order(p: (u64, u64), q: (u64, u64))
    requires
        p.0 < 64,
        p.1 < 64,
        q.0 < 64,
        q.1 < 64,
    ensures
        pair_code(p) < pair_code(q) <==> (p.0 < q.0 || (p.0 == q.0 && p.1 < q.1)),
        pair_code(p) == pair_code(q) <==> p == q,
        pair_code(p) / 64 == p.0,
        pair_code(p) % 64 == p.1,
{
}

/// The numbered canonical king pairs: `from[i]` is the `i`-th canonical pair
/// (in increasing order) with its second square compacted, and
/// `to[w][b] == i` for `from[i] == (w, b)`; the other entries of `to` are 999.
pub open spec fn is_kings_map(from: Seq<(u64, u64)>, to: Seq<Vec<u64>>) -> bool {
    &&& to.len() == 64
    &&& forall|w: int| 0 <= w < 64 ==> #[trigger] to[w].len() == 64
    &&& forall|i: int| 0 <= i < from.len() ==> from[i].0 < 64 && from[i].1 < 63
    &&& forall|i: int| 0 <= i < from.len() ==> to[from[i].0 as int]@[from[i].1 as int] == i
    &&& forall|w: int, b: int|
        0 <= w < 64 && 0 <= b < 64 && to[w]@[b] != 999 ==> exists|i: int|
            0 <= i < from.len() && #[trigger] from[i] == (w as u64, b as u64)
    &&& forall|i: int|
        0 <= i < from.len() ==> is_canonical_pair((from[i].0, expand_second(from[i].0, #[trigger] from[i].1)))
    &&& forall|wk: u64, bk: u64|
        wk < 64 && bk < 64 && !adjacent_or_same(wk, bk) ==> exists|i: int|
            0 <= i < from.len() && #[trigger] from[i] == (
                reduce_pair(wk, bk).0,
                compact_second(reduce_pair(wk, bk).0, reduce_pair(wk, bk).1),
            )
    &&& forall|i: int, j: int| 0 <= i < j < from.len() ==> from[i].0 < from[j].0 || (from[i].0 == from[j].0 && from[i].1 < from[j].1)
}

/// The canonical form of a pair of distinct squares has distinct squares.
proof fn lemma_reduce_distinct(wk: u64, bk: u64)
    requires
        wk < 64,
        bk < 64,
        wk != bk,
    ensures
        reduce_pair(wk, bk).0 != reduce_pair(wk, bk).1,
        reduce_pair(wk, bk).0 < 64,
        reduce_pair(wk, bk).1 < 64,
{
    let w = (sq_rank(wk), sq_file(wk));
    let b = (sq_rank(bk), sq_file(bk));
    assert(w != b);
    let (rw, rb) = reduce_coords(w, b);
    assert(rw != rb);
    assert(rw.0 < 8 && rw.1 < 8 && rb.0 < 8 && rb.1 < 8);
}

/// Distance between two integers.
pub open spec fn dist(a: int, b: int) -> int {
    if a >= b { a - b } else { b - a }
}

/// `c` is the code `64 * w + b` of a canonical pair of non-adjacent king
/// squares, read off the coordinates: the first king on ranks 1-4, files a-d,
/// on or below the a1-h8 diagonal, and when on it the second king on or
/// below it too.
pub open spec fn canonical_code(c: int) -> bool {
    let w = c / 64;
    let b = c % 64;
    let wr = w / 8;
    let wf = w % 8;
    let br = b / 8;
    let bf = b % 8;
    &&& wr <= 3 && wf <= 3 && wr <= wf
    &&& !(wr == wf && br > bf)
    &&& !(dist(wr, br) <= 1 && dist(wf, bf) <= 1)
}

/// Number of canonical codes below `n`.
pub open spec fn canonical_count(n: int) -> nat
    decreases n,
{
    if n <= 0 {
        0
    } else {
        canonical_count(n - 1) + if canonical_code(n - 1) { 1nat } else { 0nat }
    }
}

/// Number of canonical codes `64 * w + b` with `b < k`.
pub open spec fn row_count(w: int, k: int) -> nat
    decreases k,
{
    if k <= 0 {
        0
    } else {
        row_count(w, k - 1) + if canonical_code(64 * w + k - 1) { 1nat } else { 0nat }
    }
}

/// Number of canonical codes whose first square is below `w`.
pub open spec fn rows_count(w: int) -> nat
    decreases w,
{
    if w <= 0 {
        0
    } else {
        rows_count(w - 1) + row_count(w - 1, 64)
    }
}

proof fn lemma_count_split(w: int, k: int)
    requires
        0 <= w,
        0 <= k <= 64,
    ensures
        canonical_count(64 * w + k) == rows_count(w) + row_count(w, k),
    decreases w, k,
{
    if k > 0 {
        lemma_count_split(w, k - 1);
    } else if w > 0 {
        lemma_count_split(w - 1, 64);
    }
}

/// A first square outside the a1-d1-d4 triangle starts no canonical code.
proof fn lemma_row_zero(w: int, k: int)
    requires
        0 <= w < 64,
        0 <= k <= 64,
        !(w / 8 <= 3 && w % 8 <= 3 && w / 8 <= w % 8),
    ensures
        row_count(w, k) == 0,
    decreases k,
{
    if k > 0 {
        lemma_row_zero(w, k - 1);
        let c = 64 * w + k - 1;
        assert(c / 64 == w);
    }
}

/// The canonical codes whose first king is on the first rank.
#[verifier::rlimit(100)]
#[verifier::spinoff_prover]
proof fn lemma_rows_first_rank()
    ensures
        row_count(0, 64) == 33,
        row_count(1, 64) == 58,
        row_count(2, 64) == 58,
        row_count(3, 64) == 58,
{
    reveal_with_fuel(row_count, 65);
}

/// The canonical codes whose first king is on b2.
#[verifier::rlimit(100)]
#[verifier::spinoff_prover]
proof fn lemma_row_b2()
    ensures
        row_count(9, 64) == 30,
{
    reveal_with_fuel(row_count, 65);
}

/// The canonical codes whose first king is on c2.
#[verifier::rlimit(100)]
#[verifier::spinoff_prover]
proof fn lemma_row_c2()
    ensures
        row_count(10, 64) == 55,
{
    assert(row_count(10, 16) == 10) by {
        reveal_with_fuel(row_count, 17);
    }
    assert(row_count(10, 32) == 23) by {
        reveal_with_fuel(row_count, 17);
    }
    assert(row_count(10, 48) == 39) by {
        reveal_with_fuel(row_count, 17);
    }
    assert(row_count(10, 64) == 55) by {
        reveal_with_fuel(row_count, 17);
    }
}

/// The canonical codes whose first king is on d2.
#[verifier::rlimit(100)]
#[verifier::spinoff_prover]
proof fn lemma_row_d2()
    ensures
        row_count(11, 64) == 55,
{
    assert(row_count(11, 16) == 10) by {
        reveal_with_fuel(row_count, 17);
    }
    assert(row_count(11, 32) == 23) by {
        reveal_with_fuel(row_count, 17);
    }
    assert(row_count(11, 48) == 39) by {
        reveal_with_fuel(row_count, 17);
    }
    assert(row_count(11, 64) == 55) by {
        reveal_with_fuel(row_count, 17);
    }
}

/// The canonical codes whose first king is on c3.
#[verifier::rlimit(100)]
#[verifier::spinoff_prover]
proof fn lemma_row_c3()
    ensures
        row_count(18, 64) == 30,
{
    reveal_with_fuel(row_count, 65);
}

/// The canonical codes whose first king is on d3.
#[verifier::rlimit(100)]
#[verifier::spinoff_prover]
proof fn lemma_row_d3()
    ensures
        row_count(19, 64) == 55,
{
    assert(row_count(19, 16) == 13) by {
        reveal_with_fuel(row_count, 17);
    }
    assert(row_count(19, 32) == 23) by {
        reveal_with_fuel(row_count, 17);
    }
    assert(row_count(19, 48) == 39) by {
        reveal_with_fuel(row_count, 17);
    }
    assert(row_count(19, 64) == 55) by {
        reveal_with_fuel(row_count, 17);
    }
}

/// The canonical codes whose first king is on d4.
#[verifier::rlimit(100)]
#[verifier::spinoff_prover]
proof fn lemma_row_d4()
    ensures
        row_count(27, 64) == 30,
{
    reveal_with_fuel(row_count, 65);
}

/// There are 462 canonical pairs of king squares, the first with code 2
/// (kings on a1 and c1).
proof fn lemma_canonical_count()
    ensures
        canonical_count(4096) == 462,
        !canonical_code(0),
        !canonical_code(1),
        canonical_code(2),
{
    lemma_rows_first_rank();
    lemma_row_b2();
    lemma_row_c2();
    lemma_row_d2();
    lemma_row_c3();
    lemma_row_d3();
    lemma_row_d4();
    assert forall|w: int| 0 <= w < 64 && !(w / 8 <= 3 && w % 8 <= 3 && w / 8 <= w % 8) implies #[trigger] row_count(w, 64) == 0 by {
        lemma_row_zero(w, 64);
    }
    assert(rows_count(64) == 462) by {
        reveal_with_fuel(rows_count, 65);
    }
    lemma_count_split(64, 0);
}

/// The canonical codes of non-adjacent pairs are exactly those of
/// `canonical_code`.
proof fn lemma_canonical_code(wk: u64, bk: u64)
    requires
        wk < 64,
        bk < 64,
        !adjacent_or_same(wk, bk),
    ensures
        canonical_code(pair_code(reduce_pair(wk, bk)) as int),
        pair_code(reduce_pair(wk, bk)) < 4096,
{
    let w = (sq_rank(wk), sq_file(wk));
    let b = (sq_rank(bk), sq_file(bk));
    lemma_reduce_coords_canonical(w, b);
    let (rw, rb) = reduce_coords(w, b);
    lemma_sq_coords(rw.0, rw.1);
    lemma_sq_coords(rb.0, rb.1);
    let p = reduce_pair(wk, bk);
    lemma_code_order(p, p);
    assert(!(dist(rw.0 as int, rb.0 as int) <= 1 && dist(rw.1 as int, rb.1 as int) <= 1));
}

/// A canonical code is the code of the reduction of its own pair.
proof fn lemma_code_canonical(c: u64)
    requires
        c < 4096,
        canonical_code(c as int),
    ensures
        c / 64 < 64,
        c % 64 < 64,
        !adjacent_or_same(c / 64, c % 64),
        pair_code(reduce_pair(c / 64, c % 64)) == c,
{
    let wk = c / 64;
    let bk = c % 64;
    let w = (sq_rank(wk), sq_file(wk));
    let b = (sq_rank(bk), sq_file(bk));
    assert(reduce_coords(w, b) == (w, b));
    lemma_sq_coords(w.0, w.1);
    lemma_sq_coords(b.0, b.1);
    assert(sq_of(w) == wk && sq_of(b) == bk);
}

/// A strictly increasing list of the canonical codes below `n` has
/// `canonical_count(n)` entries.
proof fn lemma_sorted_codes_len(s: Seq<u64>, n: int)
    requires
        0 <= n,
        forall|i: int, j: int| 0 <= i < j < s.len() ==> s[i] < s[j],
        forall|i: int| 0 <= i < s.len() ==> s[i] < n,
        forall|c: int| 0 <= c < n ==> (s.contains(c as u64) <==> canonical_code(c)),
    ensures
        s.len() == canonical_count(n),
    decreases n,
{
    if n == 0 {
        if s.len() > 0 {
            assert(s[0] < n);
        }
    } else {
        if canonical_code(n - 1) {
            assert(s.contains((n - 1) as u64));
            let j = choose|j: int| 0 <= j < s.len() && s[j] == (n - 1) as u64;
            let last = s.len() - 1;
            if j < last {
                assert(s[j] < s[last]);
            }
            let t = s.drop_last();
            assert forall|c: int| 0 <= c < n - 1 implies (t.contains(c as u64) <==> canonical_code(c)) by {
                if s.contains(c as u64) {
                    let k = choose|k: int| 0 <= k < s.len() && s[k] == c as u64;
                    assert(k != last);
                    assert(t[k] == s[k]);
                }
                if t.contains(c as u64) {
                    let k = choose|k: int| 0 <= k < t.len() && t[k] == c as u64;
                    assert(s[k] == t[k]);
                }
            }
            assert forall|i: int| 0 <= i < t.len() implies t[i] < n - 1 by {
                assert(s[i] < s[last]);
            }
            lemma_sorted_codes_len(t, n - 1);
        } else {
            assert forall|i: int| 0 <= i < s.len() implies s[i] < n - 1 by {
                if s[i] == n - 1 {
                    assert(s.contains((n - 1) as u64));
                }
            }
            lemma_sorted_codes_len(s, n - 1);
        }
    }
}

/// `c` is the code of the canonical form of a non-adjacent pair `(wk, bk)`
/// visited before `(w, b)` in row-major order.
spec fn visited_code(c: u64, w: u64, b: u64) -> bool {
    exists|wk: u64, bk: u64|
        wk < 64 && bk < 64 && (wk < w || (wk == w && bk < b)) && !adjacent_or_same(wk, bk)
            && #[trigger] pair_code(reduce_pair(wk, bk)) == c
}

/// `c` encodes a canonical pair of distinct squares.
spec fn good_code(c: u64) -> bool {
    &&& c / 64 < 64 && c % 64 < 64 && c / 64 != c % 64
    &&& is_canonical_pair((c / 64, c % 64))
}

/// The codes of the canonical forms of all non-adjacent pairs, in
/// increasing order, are the 462 canonical codes, the first being 2.
proof fn lemma_codes_canonical(codes: Seq<u64>)
    requires
        forall|i: int, j: int| 0 <= i < j < codes.len() ==> codes[i] < codes[j],
        forall|c: u64| codes.contains(c) <==> visited_code(c, 64, 0),
    ensures
        codes.len() == 462,
        codes[0] == 2,
{
    assert forall|i: int| 0 <= i < codes.len() implies codes[i] < 4096 by {
        let c = codes[i];
        assert(codes.contains(c));
        let (wk2, bk2) = choose|wk2: u64, bk2: u64|
            wk2 < 64 && bk2 < 64 && (wk2 < 64 || (wk2 == 64 && bk2 < 0)) && !adjacent_or_same(wk2, bk2)
                && #[trigger] pair_code(reduce_pair(wk2, bk2)) == c;
        lemma_canonical_code(wk2, bk2);
    }
    assert forall|c: int| 0 <= c < 4096 implies (codes.contains(c as u64) <==> canonical_code(c)) by {
        if codes.contains(c as u64) {
            let (wk2, bk2) = choose|wk2: u64, bk2: u64|
                wk2 < 64 && bk2 < 64 && (wk2 < 64 || (wk2 == 64 && bk2 < 0)) && !adjacent_or_same(wk2, bk2)
                    && #[trigger] pair_code(reduce_pair(wk2, bk2)) == c as u64;
            lemma_canonical_code(wk2, bk2);
        }
        if canonical_code(c) {
            let cu = c as u64;
            lemma_code_canonical(cu);
            assert(pair_code(reduce_pair(cu / 64, cu % 64)) == cu);
            assert(visited_code(cu, 64, 0));
        }
    }
    lemma_sorted_codes_len(codes, 4096);
    lemma_canonical_count();
    assert(codes.contains(2u64));
    let j = choose|j: int| 0 <= j < codes.len() && codes[j] == 2u64;
    if j > 0 {
        assert(codes[0] < codes[j]);
    }
    assert(codes[0] == 2) by {
        if codes[0] < 2 {
            assert(codes.contains(codes[0]));
            assert(canonical_code(codes[0] as int));
        }
    }
}

/// Builds the numbering of canonical king pairs (see `is_kings_map`).
pub fn initialize_kings_map() -> (r: (Vec<(u64, u64)>, Vec<Vec<u64>>))
    ensures
        is_kings_map(r.0@, r.1@),
        r.0@.len() == 462,
        r.0@[0] == (0u64, 1u64),
{
    let mut codes: Vec<u64> = Vec::new();
    let mut wk: u64 = 0;
    while wk < 64
        invariant
            0 <= wk <= 64,
            forall|i: int, j: int| 0 <= i < j < codes.len() ==> codes@[i] < codes@[j],
            forall|c: u64| codes@.contains(c) <==> visited_code(c, wk, 0),
        decreases 64 - wk,
    {
        let mut bk: u64 = 0;
        while bk < 64
            invariant
                0 <= wk < 64,
                0 <= bk <= 64,
                forall|i: int, j: int| 0 <= i < j < codes.len() ==> codes@[i] < codes@[j],
                forall|c: u64| codes@.contains(c) <==> visited_code(c, wk, bk),
            decreases 64 - bk,
        {
            let ghost before = codes@;
            if !kings_adjacent_or_same(wk, bk) {
                let (a, b) = reduce_king_pair(wk, bk);
                insert_sorted(&mut codes, a * 64 + b);
            }
            assert forall|c: u64| codes@.contains(c) <==> visited_code(c, wk, (bk + 1) as u64) by {
                if codes@.contains(c) && !before.contains(c) {
                    assert(pair_code(reduce_pair(wk, bk)) == c);
                }
                if visited_code(c, wk, (bk + 1) as u64) {
                    let (wk2, bk2) = choose|wk2: u64, bk2: u64|
                        wk2 < 64 && bk2 < 64 && (wk2 < wk || (wk2 == wk && bk2 < bk + 1)) && !adjacent_or_same(wk2, bk2)
                            && #[trigger] pair_code(reduce_pair(wk2, bk2)) == c;
                    if !(wk2 == wk && bk2 == bk) {
                        assert(visited_code(c, wk, bk));
                    }
                }
                if visited_code(c, wk, bk) {
                    let (wk2, bk2) = choose|wk2: u64, bk2: u64|
                        wk2 < 64 && bk2 < 64 && (wk2 < wk || (wk2 == wk && bk2 < bk)) && !adjacent_or_same(wk2, bk2)
                            && #[trigger] pair_code(reduce_pair(wk2, bk2)) == c;
                    assert(visited_code(c, wk, (bk + 1) as u64));
                }
            }
            bk += 1;
        }
        assert forall|c: u64| visited_code(c, wk, 64) <==> visited_code(c, (wk + 1) as u64, 0) by {
            if visited_code(c, wk, 64) {
                let (wk2, bk2) = choose|wk2: u64, bk2: u64|
                    wk2 < 64 && bk2 < 64 && (wk2 < wk || (wk2 == wk && bk2 < 64)) && !adjacent_or_same(wk2, bk2)
                        && #[trigger] pair_code(reduce_pair(wk2, bk2)) == c;
                assert(visited_code(c, (wk + 1) as u64, 0));
            }
            if visited_code(c, (wk + 1) as u64, 0) {
                let (wk2, bk2) = choose|wk2: u64, bk2: u64|
                    wk2 < 64 && bk2 < 64 && (wk2 < wk + 1 || (wk2 == wk + 1 && bk2 < 0)) && !adjacent_or_same(wk2, bk2)
                        && #[trigger] pair_code(reduce_pair(wk2, bk2)) == c;
                assert(visited_code(c, wk, 64));
            }
        }
        wk += 1;
    }
    // The codes are the 462 canonical codes, the first being that of a1-c1.
    proof {
        lemma_codes_canonical(codes@);
    }
    // Every code is the code of a canonical pair of distinct squares.
    assert forall|i: int| 0 <= i < codes.len() implies good_code(#[trigger] codes@[i]) by {
        let c = codes@[i];
        assert(codes@.contains(c));
        let (wk2, bk2) = choose|wk2: u64, bk2: u64|
            wk2 < 64 && bk2 < 64 && (wk2 < 64 || (wk2 == 64 && bk2 < 0)) && !adjacent_or_same(wk2, bk2)
                && #[trigger] pair_code(reduce_pair(wk2, bk2)) == c;
        lemma_reduce_distinct(wk2, bk2);
        lemma_code_order(reduce_pair(wk2, bk2), reduce_pair(wk2, bk2));
        assert((c / 64, c % 64) == reduce_pair(wk2, bk2));
    }
    let mut from: Vec<(u64, u64)> = Vec::new();
    let mut i: usize = 0;
    while i < codes.len()
        invariant
            0 <= i <= codes.len(),
            from.len() == i,
            forall|k: int| 0 <= k < i ==> #[trigger] from@[k] == (codes@[k] / 64, compact_second(codes@[k] / 64, codes@[k] % 64)),
            forall|k: int| 0 <= k < codes.len() ==> good_code(#[trigger] codes@[k]),
        decreases codes.len() - i,
    {
        let c = codes[i];
        let w = c / 64;
        let b = c % 64;
        let bc = if w <= b { b - 1 } else { b };
        from.push((w, bc));
        i += 1;
    }
    let mut to: Vec<Vec<u64>> = Vec::new();
    let mut w: u64 = 0;
    while w < 64
        invariant
            0 <= w <= 64,
            to.len() == w,
            from.len() == codes.len(),
            forall|k: int| 0 <= k < from.len() ==> #[trigger] from@[k] == (codes@[k] / 64, compact_second(codes@[k] / 64, codes@[k] % 64)),
            forall|k: int| 0 <= k < codes.len() ==> good_code(#[trigger] codes@[k]),
            forall|i: int, j: int| 0 <= i < j < codes.len() ==> codes@[i] < codes@[j],
            forall|w2: int| 0 <= w2 < w ==> #[trigger] to@[w2].len() == 64,
            forall|w2: int, b: int| 0 <= w2 < w && 0 <= b < 64 ==> (#[trigger] to@[w2]@[b] == 999 || (
                to@[w2]@[b] < from.len() && from@[to@[w2]@[b] as int] == (w2 as u64, b as u64))),
            forall|k: int| 0 <= k < from.len() && from@[k].0 < w ==> #[trigger] to@[from@[k].0 as int]@[from@[k].1 as int] == k,
        decreases 64 - w,
    {
        let mut row: Vec<u64> = vec![999u64; 64];
        let mut k: usize = 0;
        while k < from.len()
            invariant
                0 <= w < 64,
                0 <= k <= from.len(),
                row.len() == 64,
                from.len() == codes.len(),
                forall|k2: int| 0 <= k2 < from.len() ==> #[trigger] from@[k2] == (codes@[k2] / 64, compact_second(codes@[k2] / 64, codes@[k2] % 64)),
                forall|k2: int| 0 <= k2 < codes.len() ==> good_code(#[trigger] codes@[k2]),
                forall|b: int| 0 <= b < 64 ==> (#[trigger] row@[b] == 999 || (row@[b] < k && from@[row@[b] as int] == (w, b as u64))),
                forall|k2: int| 0 <= k2 < k && from@[k2].0 == w ==> #[trigger] row@[from@[k2].1 as int] == k2,
                forall|i: int, j: int| 0 <= i < j < codes.len() ==> codes@[i] < codes@[j],
            decreases from.len() - k,
        {
            let (fw, fb) = from[k];
            if fw == w {
                let ghost prev = row@;
                row.set(fb as usize, k as u64);
                assert forall|k2: int| 0 <= k2 < k + 1 && from@[k2].0 == w implies #[trigger] row@[from@[k2].1 as int] == k2 by {
                    if k2 < k && from@[k2].1 == fb {
                        // two codes with the same first square and compacted second square
                        let c1 = codes@[k2];
                        let c2 = codes@[k as int];
                        assert(c1 < c2);
                        assert(false);
                    }
                }
            }
            k += 1;
        }
        to.push(row);
        w += 1;
    }
    proof {
        let f = from@;
        let t = to@;
        assert forall|i: int| 0 <= i < f.len() implies f[i].0 < 64 && f[i].1 < 63 by {}
        assert forall|i: int| 0 <= i < f.len() implies t[f[i].0 as int]@[f[i].1 as int] == i by {}
        assert forall|w2: int, b: int| 0 <= w2 < 64 && 0 <= b < 64 && t[w2]@[b] != 999 implies exists|i: int|
            0 <= i < f.len() && #[trigger] f[i] == (w2 as u64, b as u64) by {
            let i = t[w2]@[b] as int;
            assert(f[i] == (w2 as u64, b as u64));
        }
        assert forall|i: int| 0 <= i < f.len() implies is_canonical_pair((f[i].0, expand_second(f[i].0, #[trigger] f[i].1))) by {
            let c = codes@[i];
            assert(good_code(codes@[i]));
            let p = (c / 64, c % 64);
            assert((f[i].0, expand_second(f[i].0, f[i].1)) == p);
        }
        assert(t.len() == 64);
        assert forall|w2: int| 0 <= w2 < 64 implies #[trigger] t[w2].len() == 64 by {}
        assert forall|wk2: u64, bk2: u64| wk2 < 64 && bk2 < 64 && !adjacent_or_same(wk2, bk2) implies exists|i: int|
            0 <= i < f.len() && #[trigger] f[i] == (
                reduce_pair(wk2, bk2).0,
                compact_second(reduce_pair(wk2, bk2).0, reduce_pair(wk2, bk2).1),
            ) by {
            let p = reduce_pair(wk2, bk2);
            lemma_reduce_distinct(wk2, bk2);
            let c = pair_code(p);
            assert(visited_code(c, 64, 0));
            assert(codes@.contains(c));
            let i = choose|i: int| 0 <= i < codes.len() && codes@[i] == c;
            lemma_code_order(p, p);
            assert(f[i] == (p.0, compact_second(p.0, p.1)));
        }
        assert forall|i: int, j: int| 0 <= i < j < f.len() implies f[i].0 < f[j].0 || (f[i].0 == f[j].0 && f[i].1 < f[j].1) by {
            let ci = codes@[i];
            let cj = codes@[j];
            assert(ci < cj);
        }
        assert(is_kings_map(f, t));
    }
    (from, to)
}

} // verus!
