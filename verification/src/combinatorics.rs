//! Binomial coefficients and the combinatorial number system, which ranks
//! the `k`-element subsets of `0..n` by the integers `0..C(n, k)`.

use vstd::prelude::*;

verus! {

/// The largest number of pieces a table may hold.
pub const MAX_PIECES: usize = 8;

/// The binomial coefficient C(n, k), by Pascal's rule.
pub open spec fn binom(n: nat, k: nat) -> nat
    decreases n,
{
    if k == 0 {
        1
    } else if n == 0 {
        0
    } else {
        binom((n - 1) as nat, (k - 1) as nat) + binom((n - 1) as nat, k)
    }
}

/// 2^n.
pub open spec fn pow2(n: nat) -> nat
    decreases n,
{
    if n == 0 {
        1
    } else {
        2 * pow2((n - 1) as nat)
    }
}

pub proof fn lemma_choose_zero_above(n: nat, k: nat)
    requires
        k > n,
    ensures
        binom(n, k) == 0,
    decreases n,
{
    if n > 0 {
        lemma_choose_zero_above((n - 1) as nat, (k - 1) as nat);
        lemma_choose_zero_above((n - 1) as nat, k);
    }
}

pub proof fn lemma_choose_one(n: nat)
    ensures
        binom(n, 1) == n,
    decreases n,
{
    if n > 0 {
        lemma_choose_one((n - 1) as nat);
        assert(binom((n - 1) as nat, 0) == 1);
    }
}

proof fn lemma_pow2_positive(n: nat)
    ensures
        pow2(n) >= 1,
    decreases n,
{
    if n > 0 {
        lemma_pow2_positive((n - 1) as nat);
    }
}

/// C(n, k) < 2^n for n >= 1, so every coefficient with n <= 64 fits in 64 bits.
pub proof fn lemma_choose_bound(n: nat, k: nat)
    requires
        n >= 1,
    ensures
        binom(n, k) < pow2(n),
    decreases n,
{
    lemma_pow2_positive((n - 1) as nat);
    if n == 1 {
        assert(pow2(1) == 2 * pow2(0));
        if k > 1 {
            lemma_choose_zero_above(0, (k - 1) as nat);
            lemma_choose_zero_above(0, k);
        } else if k == 1 {
            assert(binom(0, 0) == 1);
            assert(binom(0, 1) == 0);
        }
    } else if k > 0 {
        lemma_choose_bound((n - 1) as nat, (k - 1) as nat);
        lemma_choose_bound((n - 1) as nat, k);
    }
}

proof fn lemma_pow2_add8(n: nat)
    ensures
        pow2(n + 8) == 256 * pow2(n),
{
    assert(pow2(n + 1) == 2 * pow2(n));
    assert(pow2(n + 2) == 2 * pow2(n + 1));
    assert(pow2(n + 3) == 2 * pow2(n + 2));
    assert(pow2(n + 4) == 2 * pow2(n + 3));
    assert(pow2(n + 5) == 2 * pow2(n + 4));
    assert(pow2(n + 6) == 2 * pow2(n + 5));
    assert(pow2(n + 7) == 2 * pow2(n + 6));
    assert(pow2(n + 8) == 2 * pow2(n + 7));
}

pub proof fn lemma_pow2_64()
    ensures
        pow2(64) == 0x1_0000_0000_0000_0000,
{
    lemma_pow2_add8(0);
    lemma_pow2_add8(8);
    lemma_pow2_add8(16);
    lemma_pow2_add8(24);
    lemma_pow2_add8(32);
    lemma_pow2_add8(40);
    lemma_pow2_add8(48);
    lemma_pow2_add8(56);
}

pub proof fn lemma_pow2_mono(a: nat, b: nat)
    requires
        a <= b,
    ensures
        pow2(a) <= pow2(b),
    decreases b,
{
    if a < b {
        lemma_pow2_mono(a, (b - 1) as nat);
    }
}

/// C(n, k) does not decrease as n grows.
pub proof fn lemma_choose_mono(a: nat, b: nat, k: nat)
    requires
        a <= b,
    ensures
        binom(a, k) <= binom(b, k),
    decreases b,
{
    if a < b {
        lemma_choose_mono(a, (b - 1) as nat, k);
    }
}

pub proof fn lemma_choose_positive(n: nat, k: nat)
    requires
        k <= n,
    ensures
        binom(n, k) >= 1,
    decreases n,
{
    if k > 0 && n > 0 {
        if k - 1 <= n - 1 {
            lemma_choose_positive((n - 1) as nat, (k - 1) as nat);
        }
    }
}

/// b^e.
pub open spec fn npow(b: nat, e: nat) -> nat
    decreases e,
{
    if e == 0 {
        1
    } else {
        b * npow(b, (e - 1) as nat)
    }
}

/// Powers grow with their base.
pub proof fn lemma_npow_mono_base(a: nat, b: nat, e: nat)
    requires
        a <= b,
    ensures
        npow(a, e) <= npow(b, e),
    decreases e,
{
    if e > 0 {
        lemma_npow_mono_base(a, b, (e - 1) as nat);
        let x = npow(a, (e - 1) as nat);
        let y = npow(b, (e - 1) as nat);
        assert(a * x <= b * y) by (nonlinear_arith)
            requires
                a <= b,
                x <= y,
        ;
    }
}

/// Powers of a base at least one grow with their exponent.
pub proof fn lemma_npow_mono_exp(b: nat, x: nat, y: nat)
    requires
        b >= 1,
        x <= y,
    ensures
        npow(b, x) <= npow(b, y),
    decreases y,
{
    if x < y {
        lemma_npow_mono_exp(b, x, (y - 1) as nat);
        let p = npow(b, (y - 1) as nat);
        assert(p <= b * p) by (nonlinear_arith)
            requires
                b >= 1,
        ;
    }
}

/// b^(x + y) == b^x * b^y.
pub proof fn lemma_npow_add(b: nat, x: nat, y: nat)
    ensures
        npow(b, x + y) == npow(b, x) * npow(b, y),
    decreases x,
{
    if x == 0 {
        assert(x + y == y);
        assert(npow(b, x) == 1);
        assert(npow(b, x + y) == npow(b, x) * npow(b, y));
    } else {
        let x1 = (x - 1) as nat;
        lemma_npow_add(b, x1, y);
        let p = npow(b, x1);
        let q = npow(b, y);
        let s = (x + y) as nat;
        assert((s - 1) as nat == x1 + y);
        assert(npow(b, s) == b * npow(b, (s - 1) as nat));
        assert(npow(b, x) == b * p);
        assert(b * (p * q) == (b * p) * q) by (nonlinear_arith);
        assert(npow(b, s) == npow(b, x) * npow(b, y));
    }
}

/// C(n, k) <= n^k.
pub proof fn lemma_choose_le_pow(n: nat, k: nat)
    ensures
        binom(n, k) <= npow(n, k),
    decreases n,
{
    if k > 0 && n > 0 {
        let m = (n - 1) as nat;
        let j = (k - 1) as nat;
        lemma_choose_le_pow(m, j);
        lemma_choose_le_pow(m, k);
        lemma_npow_mono_base(m, n, j);
        let p = npow(m, j);
        let q = npow(n, j);
        assert(npow(m, k) == m * p);
        assert(p + m * p <= n * q) by (nonlinear_arith)
            requires
                n == m + 1,
                p <= q,
        ;
    }
}

/// 64^8 == 2^48.
pub proof fn lemma_npow_64_8()
    ensures
        npow(64, 8) == 0x1_0000_0000_0000,
{
    assert(npow(64, 8) == 0x1_0000_0000_0000) by {
        reveal_with_fuel(npow, 9);
    }
}

/// The table `t[k][n] == C(n, k)` for `k <= 8` and `n <= 64`.
pub open spec fn is_binomial_table(t: Seq<Vec<u64>>) -> bool {
    &&& t.len() == MAX_PIECES + 1
    &&& forall|k: int| 0 <= k < t.len() ==> #[trigger] t[k].len() == 65
    &&& forall|k: int, n: int| 0 <= k < t.len() && 0 <= n < 65 ==> #[trigger] t[k]@[n] == binom(n as nat, k as nat)
}

/// Precomputes the binomial coefficients C(n, k) for `k <= 8`, `n <= 64`,
/// stored as `t[k][n]`.
pub fn initialize_nchoosek() -> (t: Vec<Vec<u64>>)
    ensures
        is_binomial_table(t@),
{
    let mut t: Vec<Vec<u64>> = Vec::new();
    let mut first: Vec<u64> = Vec::new();
    let mut n: usize = 0;
    while n < 65
        invariant
            0 <= n <= 65,
            first.len() == n,
            forall|i: int| 0 <= i < n ==> first@[i] == 1,
        decreases 65 - n,
    {
        first.push(1);
        n += 1;
    }
    assert forall|i: int| 0 <= i < 65 implies first@[i] == binom(i as nat, 0) by {}
    t.push(first);
    let mut k: usize = 1;
    while k < MAX_PIECES + 1
        invariant
            1 <= k <= MAX_PIECES + 1,
            t.len() == k,
            forall|kk: int| 0 <= kk < k ==> #[trigger] t@[kk].len() == 65,
            forall|kk: int, nn: int| 0 <= kk < k && 0 <= nn < 65 ==> #[trigger] t@[kk]@[nn] == binom(nn as nat, kk as nat),
        decreases MAX_PIECES + 1 - k,
    {
        let mut row: Vec<u64> = Vec::new();
        row.push(0);
        let mut n: usize = 1;
        while n < 65
            invariant
                1 <= k <= MAX_PIECES,
                1 <= n <= 65,
                t.len() == k,
                row.len() == n,
                forall|kk: int| 0 <= kk < k ==> #[trigger] t@[kk].len() == 65,
                forall|kk: int, nn: int| 0 <= kk < k && 0 <= nn < 65 ==> #[trigger] t@[kk]@[nn] == binom(nn as nat, kk as nat),
                forall|nn: int| 0 <= nn < n ==> #[trigger] row@[nn] == binom(nn as nat, k as nat),
            decreases 65 - n,
        {
            assert(t@[k - 1].len() == 65);
            let a = t[k - 1][n - 1];
            let b = row[n - 1];
            proof {
                lemma_choose_bound(n as nat, k as nat);
                lemma_pow2_mono(n as nat, 64);
                lemma_pow2_64();
                assert(a == binom((n - 1) as nat, (k - 1) as nat));
                assert(binom(n as nat, k as nat) == a + b);
            }
            row.push(a + b);
            n += 1;
        }
        t.push(row);
        k += 1;
    }
    t
}

/// `s` is strictly decreasing.
pub open spec fn strictly_decreasing(s: Seq<u64>) -> bool {
    forall|i: int, j: int| 0 <= i < j < s.len() ==> s[i] > s[j]
}

/// Rank of the set `{s[0] > s[1] > ... }` of size `m = s.len()` in the
/// combinatorial number system: `C(s[0], m) + C(s[1], m - 1) + ... + C(s[m-1], 1)`.
pub open spec fn subset_rank(s: Seq<u64>) -> nat
    decreases s.len(),
{
    if s.len() == 0 {
        0
    } else {
        binom(s[0] as nat, s.len()) + subset_rank(s.drop_first())
    }
}

/// The part of the rank of a set of size `len` that its leading entries `p`
/// contribute: `C(p[0], len) + C(p[1], len - 1) + ...`.
pub open spec fn head_rank(p: Seq<u64>, len: nat) -> nat
    decreases p.len(),
{
    if p.len() == 0 {
        0
    } else {
        binom(p[0] as nat, len) + head_rank(p.drop_first(), (len - 1) as nat)
    }
}

/// The rank of `p + q` is the contribution of `p` plus the rank of `q`.
pub proof fn lemma_head_rank_split(p: Seq<u64>, q: Seq<u64>)
    ensures
        subset_rank(p + q) == head_rank(p, (p + q).len()) + subset_rank(q),
    decreases p.len(),
{
    if p.len() == 0 {
        assert(p + q =~= q);
    } else {
        let s = p + q;
        assert(s.drop_first() =~= p.drop_first() + q);
        lemma_head_rank_split(p.drop_first(), q);
    }
}

/// Appending `c` to the leading entries adds `C(c, len - p.len())`.
pub proof fn lemma_head_rank_push(p: Seq<u64>, c: u64, len: nat)
    requires
        p.len() < len,
    ensures
        head_rank(p.push(c), len) == head_rank(p, len) + binom(c as nat, (len - p.len()) as nat),
    decreases p.len(),
{
    let q = p.push(c);
    if p.len() == 0 {
        assert(q.drop_first() =~= Seq::<u64>::empty());
        assert(head_rank(q.drop_first(), (len - 1) as nat) == 0);
        assert(q[0] == c);
    } else {
        assert(q.drop_first() =~= p.drop_first().push(c));
        lemma_head_rank_push(p.drop_first(), c, (len - 1) as nat);
        assert(q[0] == p[0]);
        assert(head_rank(q, len) == binom(p[0] as nat, len) + head_rank(p.drop_first().push(c), (len - 1) as nat));
    }
}

/// The rank of a suffix is at most the rank of the whole.
pub proof fn lemma_rank_suffix_le(s: Seq<u64>, j: int)
    requires
        0 <= j <= s.len(),
    ensures
        subset_rank(s.subrange(j, s.len() as int)) <= subset_rank(s),
    decreases j,
{
    if j > 0 {
        assert(s.drop_first().subrange(j - 1, s.drop_first().len() as int) =~= s.subrange(j, s.len() as int));
        lemma_rank_suffix_le(s.drop_first(), j - 1);
    } else {
        assert(s.subrange(0, s.len() as int) =~= s);
    }
}

/// A strictly decreasing sequence below `n` has a rank below `C(n, m)`.
pub proof fn lemma_rank_bound(s: Seq<u64>, n: nat)
    requires
        strictly_decreasing(s),
        s.len() > 0 ==> s[0] < n,
    ensures
        subset_rank(s) < binom(n, s.len()),
    decreases s.len(),
{
    let m = s.len();
    if m == 0 {
    } else {
        let rest = s.drop_first();
        assert(strictly_decreasing(rest));
        let top = s[0] as nat;
        lemma_rank_bound(rest, top);
        // C(top, m) + C(top, m - 1) == C(top + 1, m) <= C(n, m)
        assert(binom(top + 1, m) == binom(top, (m - 1) as nat) + binom(top, m));
        lemma_choose_mono(top + 1, n, m);
    }
}

/// Distinct strictly decreasing sequences of the same length have distinct ranks.
pub proof fn lemma_rank_injective(s: Seq<u64>, t: Seq<u64>)
    requires
        strictly_decreasing(s),
        strictly_decreasing(t),
        s.len() == t.len(),
        subset_rank(s) == subset_rank(t),
    ensures
        s == t,
    decreases s.len(),
{
    let m = s.len();
    if m > 0 {
        let rs = s.drop_first();
        let rt = t.drop_first();
        assert(strictly_decreasing(rs));
        assert(strictly_decreasing(rt));
        if s[0] < t[0] {
            lemma_rank_bound(rs, s[0] as nat);
            assert(binom(s[0] as nat + 1, m) == binom(s[0] as nat, (m - 1) as nat) + binom(s[0] as nat, m));
            lemma_choose_mono(s[0] as nat + 1, t[0] as nat, m);
            assert(false);
        } else if t[0] < s[0] {
            lemma_rank_bound(rt, t[0] as nat);
            assert(binom(t[0] as nat + 1, m) == binom(t[0] as nat, (m - 1) as nat) + binom(t[0] as nat, m));
            lemma_choose_mono(t[0] as nat + 1, s[0] as nat, m);
            assert(false);
        } else {
            lemma_rank_injective(rs, rt);
            assert(s =~= seq![s[0]] + rs);
            assert(t =~= seq![t[0]] + rt);
        }
    } else {
        assert(s =~= t);
    }
}

/// Reads `C(n, k)` from the table.
pub fn binom_at(table: &Vec<Vec<u64>>, n: u64, k: usize) -> (r: u64)
    requires
        is_binomial_table(table@),
        n <= 64,
        k <= MAX_PIECES,
    ensures
        r == binom(n as nat, k as nat),
{
    assert(table@[k as int].len() == 65);
    assert(table@[k as int]@[n as int] == binom(n as nat, k as nat));
    table[k][n as usize]
}

/// The largest `c < n` with `C(c, k) <= x`, found by bisection.
pub fn largest_binom_at_most(table: &Vec<Vec<u64>>, k: usize, n: u64, x: u64) -> (r: u64)
    requires
        is_binomial_table(table@),
        1 <= k <= MAX_PIECES,
        n <= 64,
        x < binom(n as nat, k as nat),
    ensures
        r < n,
        binom(r as nat, k as nat) <= x,
        x < binom(r as nat + 1, k as nat),
{
    proof {
        lemma_choose_zero_above(0, k as nat);
        if n == 0 {
            lemma_choose_zero_above(0, k as nat);
        }
    }
    let mut lo: u64 = 0;
    let mut hi: u64 = n;
    while hi - lo > 1
        invariant
            is_binomial_table(table@),
            1 <= k <= MAX_PIECES,
            lo < hi <= n <= 64,
            binom(lo as nat, k as nat) <= x,
            x < binom(hi as nat, k as nat),
        decreases hi - lo,
    {
        let mid = lo + (hi - lo) / 2;
        if binom_at(table, mid, k) <= x {
            lo = mid;
        } else {
            hi = mid;
        }
    }
    lo
}

} // verus!
