//! Enumeration of multisets as nondecreasing sequences of symbol indices.
//!
//! Multisets of pieces (or of pawn files) are written as nondecreasing words
//! over an alphabet `0..m`. `words(k, s, m)` lists the nondecreasing words of
//! length `k` over `s..m`, in lexicographic order.

use vstd::prelude::*;

verus! {

/// A word of length `k`, over symbols `s..m`, whose symbols never decrease.
pub open spec fn is_word(w: Seq<u8>, k: nat, s: nat, m: nat) -> bool {
    &&& w.len() == k
    &&& forall|i: int| 0 <= i < w.len() ==> s <= #[trigger] w[i] < m
    &&& forall|i: int, j: int| 0 <= i <= j < w.len() ==> w[i] <= w[j]
}

/// Nondecreasing words of length `k` over `s..m`, in lexicographic order.
pub open spec fn words(k: nat, s: nat, m: nat) -> Seq<Seq<u8>>
    decreases k, 1nat, 0nat,
{
    if k == 0 {
        seq![Seq::<u8>::empty()]
    } else {
        words_range(k, s, m, m)
    }
}

/// Prefixes every word with the symbol `first`.
pub open spec fn prefixed(first: nat, ws: Seq<Seq<u8>>) -> Seq<Seq<u8>> {
    ws.map_values(|w: Seq<u8>| seq![first as u8] + w)
}

/// Nondecreasing words of length `k > 0` over `..m` whose first symbol is in
/// `lo..hi`, in lexicographic order.
pub open spec fn words_range(k: nat, lo: nat, hi: nat, m: nat) -> Seq<Seq<u8>>
    decreases k, 0nat, hi,
{
    if k == 0 || hi <= lo {
        Seq::empty()
    } else {
        words_range(k, lo, (hi - 1) as nat, m) + prefixed(
            (hi - 1) as nat,
            words((k - 1) as nat, (hi - 1) as nat, m),
        )
    }
}

/// Every listed word is a nondecreasing word of the right length and alphabet.
pub proof fn lemma_words_sound(k: nat, s: nat, m: nat, w: Seq<u8>)
    requires
        m <= 256,
        words(k, s, m).contains(w),
    ensures
        is_word(w, k, s, m),
    decreases k, 1nat, 0nat,
{
    if k > 0 {
        lemma_words_range_sound(k, s, m, m, w);
    }
}

proof fn lemma_words_range_sound(k: nat, lo: nat, hi: nat, m: nat, w: Seq<u8>)
    requires
        m <= 256,
        hi <= m,
        k > 0,
        words_range(k, lo, hi, m).contains(w),
    ensures
        is_word(w, k, lo, m),
    decreases k, 0nat, hi,
{
    if hi > lo {
        let left = words_range(k, lo, (hi - 1) as nat, m);
        let inner = words((k - 1) as nat, (hi - 1) as nat, m);
        let right = prefixed((hi - 1) as nat, inner);
        let idx = choose|idx: int| 0 <= idx < (left + right).len() && (left + right)[idx] == w;
        if idx < left.len() {
            assert(left.contains(w)) by {
                assert(left[idx] == w);
            }
            lemma_words_range_sound(k, lo, (hi - 1) as nat, m, w);
        } else {
            let j = idx - left.len();
            let v = inner[j];
            assert(right[j] == w);
            assert(inner.contains(v));
            lemma_words_sound((k - 1) as nat, (hi - 1) as nat, m, v);
            assert(w == seq![(hi - 1) as u8] + v);
            assert forall|i: int, i2: int| 0 <= i <= i2 < w.len() implies w[i] <= w[i2] by {
                if i > 0 {
                    assert(w[i] == v[i - 1]);
                }
                assert(w[i2] == if i2 == 0 { (hi - 1) as u8 } else { v[i2 - 1] });
            }
            assert forall|i: int| 0 <= i < w.len() implies lo <= #[trigger] w[i] < m by {
                if i > 0 {
                    assert(w[i] == v[i - 1]);
                }
            }
        }
    }
}

/// A listed word whose first symbol is in `lo..hi` starts below `hi`.
proof fn lemma_words_range_first(k: nat, lo: nat, hi: nat, m: nat, w: Seq<u8>)
    requires
        m <= 256,
        hi <= m,
        k > 0,
        words_range(k, lo, hi, m).contains(w),
    ensures
        w.len() > 0,
        w[0] < hi,
    decreases hi,
{
    if hi > lo {
        let left = words_range(k, lo, (hi - 1) as nat, m);
        let inner = words((k - 1) as nat, (hi - 1) as nat, m);
        let right = prefixed((hi - 1) as nat, inner);
        let idx = choose|idx: int| 0 <= idx < (left + right).len() && (left + right)[idx] == w;
        if idx < left.len() {
            assert(left[idx] == w);
            lemma_words_range_first(k, lo, (hi - 1) as nat, m, w);
        } else {
            assert(right[idx - left.len()] == w);
        }
    }
}

/// No word is listed twice.
pub proof fn lemma_words_distinct(k: nat, s: nat, m: nat)
    requires
        m <= 256,
    ensures
        forall|i: int, j: int| 0 <= i < j < words(k, s, m).len() ==> #[trigger] words(k, s, m)[i] != #[trigger] words(k, s, m)[j],
    decreases k, 1nat, 0nat,
{
    if k > 0 {
        lemma_words_range_distinct(k, s, m, m);
        assert(words(k, s, m) == words_range(k, s, m, m));
    }
}

proof fn lemma_words_range_distinct(k: nat, lo: nat, hi: nat, m: nat)
    requires
        m <= 256,
        hi <= m,
        k > 0,
    ensures
        forall|i: int, j: int| 0 <= i < j < words_range(k, lo, hi, m).len() ==> #[trigger] words_range(k, lo, hi, m)[i]
            != #[trigger] words_range(k, lo, hi, m)[j],
    decreases k, 0nat, hi,
{
    if hi > lo {
        let left = words_range(k, lo, (hi - 1) as nat, m);
        let inner = words((k - 1) as nat, (hi - 1) as nat, m);
        let right = prefixed((hi - 1) as nat, inner);
        let all = left + right;
        assert(words_range(k, lo, hi, m) == all);
        lemma_words_range_distinct(k, lo, (hi - 1) as nat, m);
        lemma_words_distinct((k - 1) as nat, (hi - 1) as nat, m);
        assert forall|i: int, j: int| 0 <= i < j < all.len() implies #[trigger] all[i] != #[trigger] all[j] by {
            if j < left.len() {
                assert(left[i] != left[j]);
            } else if i >= left.len() {
                let i2 = i - left.len();
                let j2 = j - left.len();
                assert(inner[i2] != inner[j2]);
                assert(all[i] == seq![(hi - 1) as u8] + inner[i2]);
                assert(all[j] == seq![(hi - 1) as u8] + inner[j2]);
                if all[i] == all[j] {
                    assert(all[i].drop_first() =~= inner[i2]);
                    assert(all[j].drop_first() =~= inner[j2]);
                }
            } else {
                assert(left.contains(all[i])) by {
                    assert(left[i] == all[i]);
                }
                lemma_words_range_first(k, lo, (hi - 1) as nat, m, all[i]);
                assert(all[j][0] == (hi - 1) as u8);
            }
        }
    }
}

/// Every nondecreasing word of the right length and alphabet is listed.
pub proof fn lemma_words_complete(k: nat, s: nat, m: nat, w: Seq<u8>)
    requires
        m <= 256,
        is_word(w, k, s, m),
    ensures
        words(k, s, m).contains(w),
    decreases k, 1nat, 0nat,
{
    if k == 0 {
        assert(w =~= Seq::<u8>::empty());
        assert(words(k, s, m)[0] == w);
    } else {
        lemma_words_range_complete(k, s, m, m, w);
    }
}

proof fn lemma_words_range_complete(k: nat, lo: nat, hi: nat, m: nat, w: Seq<u8>)
    requires
        m <= 256,
        hi <= m,
        k > 0,
        is_word(w, k, lo, m),
        w[0] < hi,
    ensures
        words_range(k, lo, hi, m).contains(w),
    decreases k, 0nat, hi,
{
    let left = words_range(k, lo, (hi - 1) as nat, m);
    let inner = words((k - 1) as nat, (hi - 1) as nat, m);
    let right = prefixed((hi - 1) as nat, inner);
    assert(words_range(k, lo, hi, m) == left + right);
    if w[0] < hi - 1 {
        lemma_words_range_complete(k, lo, (hi - 1) as nat, m, w);
        let idx = choose|idx: int| 0 <= idx < left.len() && left[idx] == w;
        assert((left + right)[idx] == w);
    } else {
        let v = w.drop_first();
        assert forall|i: int| 0 <= i < v.len() implies (hi - 1) <= #[trigger] v[i] < m by {
            assert(v[i] == w[i + 1]);
        }
        assert forall|i: int, j: int| 0 <= i <= j < v.len() implies v[i] <= v[j] by {
            assert(v[i] == w[i + 1]);
            assert(v[j] == w[j + 1]);
        }
        lemma_words_complete((k - 1) as nat, (hi - 1) as nat, m, v);
        let idx = choose|idx: int| 0 <= idx < inner.len() && inner[idx] == v;
        assert(w =~= seq![(hi - 1) as u8] + v);
        assert(right[idx] == w);
        assert((left + right)[left.len() + idx] == w);
    }
}

/// Appends to `results`, in order, `current` followed by each listed word of
/// length `k - current.len()` over `start..m`.
fn extend_words(k: usize, start: u8, m: u8, current: &mut Vec<u8>, results: &mut Vec<Vec<u8>>)
    requires
        old(current).len() <= k,
        start <= m,
    ensures
        final(current)@ == old(current)@,
        final(results)@.map_values(|v: Vec<u8>| v@) == old(results)@.map_values(|v: Vec<u8>| v@)
            + words((k - old(current).len()) as nat, start as nat, m as nat).map_values(
            |w: Seq<u8>| old(current)@ + w,
        ),
    decreases k - old(current).len(),
{
    let ghost cur0 = current@;
    let ghost res0 = results@.map_values(|v: Vec<u8>| v@);
    let ghost kk = (k - cur0.len()) as nat;
    if current.len() == k {
        results.push(current.clone());
        assert(results@.map_values(|v: Vec<u8>| v@) =~= res0 + words(kk, start as nat, m as nat).map_values(
            |w: Seq<u8>| cur0 + w,
        )) by {
            assert(cur0 + Seq::<u8>::empty() =~= cur0);
        }
        return;
    }
    let mut idx: u8 = start;
    while idx < m
        invariant
            start <= idx <= m,
            current@ == cur0,
            cur0 == old(current)@,
            cur0.len() < k,
            kk == k - cur0.len(),
            results@.map_values(|v: Vec<u8>| v@) == res0 + words_range(kk, start as nat, idx as nat, m as nat).map_values(
                |w: Seq<u8>| cur0 + w,
            ),
        decreases m - idx,
    {
        let ghost before = results@.map_values(|v: Vec<u8>| v@);
        current.push(idx);
        extend_words(k, idx, m, current, results);
        current.pop();
        assert(current@ =~= cur0);
        let ghost inner = words((kk - 1) as nat, idx as nat, m as nat);
        assert(results@.map_values(|v: Vec<u8>| v@) == before + inner.map_values(
            |w: Seq<u8>| cur0.push(idx) + w,
        ));
        assert(inner.map_values(|w: Seq<u8>| cur0.push(idx) + w) =~= prefixed(idx as nat, inner).map_values(
            |w: Seq<u8>| cur0 + w,
        )) by {
            assert forall|i: int| 0 <= i < inner.len() implies cur0.push(idx) + inner[i] =~= cur0 + (seq![idx] + inner[i]) by {
            }
        }
        assert(words_range(kk, start as nat, (idx + 1) as nat, m as nat) == words_range(kk, start as nat, idx as nat, m as nat)
            + prefixed(idx as nat, inner));
        assert(words_range(kk, start as nat, (idx + 1) as nat, m as nat).map_values(|w: Seq<u8>| cur0 + w) =~=
            words_range(kk, start as nat, idx as nat, m as nat).map_values(|w: Seq<u8>| cur0 + w)
            + prefixed(idx as nat, inner).map_values(|w: Seq<u8>| cur0 + w));
        idx += 1;
    }
    assert(words(kk, start as nat, m as nat) == words_range(kk, start as nat, m as nat, m as nat));
}

/// The nondecreasing words of length `k` over `0..m`, in lexicographic order.
pub fn nondecreasing_words(k: usize, m: u8) -> (r: Vec<Vec<u8>>)
    ensures
        r@.map_values(|v: Vec<u8>| v@) == words(k as nat, 0, m as nat),
{
    let mut results: Vec<Vec<u8>> = Vec::new();
    let mut current: Vec<u8> = Vec::new();
    extend_words(k, 0, m, &mut current, &mut results);
    assert(results@.map_values(|v: Vec<u8>| v@) =~= words(k as nat, 0, m as nat)) by {
        let ws = words(k as nat, 0, m as nat);
        assert(ws.map_values(|w: Seq<u8>| Seq::<u8>::empty() + w) =~= ws) by {
            assert forall|i: int| 0 <= i < ws.len() implies Seq::<u8>::empty() + ws[i] =~= ws[i] by {}
        }
    }
    results
}

} // verus!
