//! Compaction of square indexes: after compaction, the index of each piece
//! counts only the squares not taken by the pieces placed before it, so the
//! `j`-th piece of a board with distinct squares gets an index below `64 - j`.

use vstd::prelude::*;

verus! {

/// Lowers by one every value above `x` (the square `x` is taken).
pub open spec fn drop_taken(x: u64, s: Seq<u64>) -> Seq<u64> {
    s.map_values(|y: u64| if x < y { (y - 1) as u64 } else { y })
}

/// Raises by one every value at or above `x` (skipping the taken square `x`).
pub open spec fn skip_taken(x: u64, s: Seq<u64>) -> Seq<u64> {
    s.map_values(|y: u64| if x <= y { (y + 1) as u64 } else { y })
}

/// Compaction: each value is lowered by the number of earlier squares below it.
pub open spec fn compact(s: Seq<u64>) -> Seq<u64>
    decreases s.len(),
{
    if s.len() == 0 {
        s
    } else {
        seq![s[0]] + compact(drop_taken(s[0], s.drop_first()))
    }
}

/// The inverse of compaction.
pub open spec fn uncompact(s: Seq<u64>) -> Seq<u64>
    decreases s.len(),
{
    if s.len() == 0 {
        s
    } else {
        seq![s[0]] + skip_taken(s[0], uncompact(s.drop_first()))
    }
}

pub open spec fn all_distinct(s: Seq<u64>) -> bool {
    forall|i: int, j: int| 0 <= i < j < s.len() ==> s[i] != s[j]
}

pub open spec fn all_below(s: Seq<u64>, bound: u64) -> bool {
    forall|i: int| 0 <= i < s.len() ==> s[i] < bound
}

pub proof fn lemma_compact_len(s: Seq<u64>)
    ensures
        compact(s).len() == s.len(),
    decreases s.len(),
{
    if s.len() > 0 {
        lemma_compact_len(drop_taken(s[0], s.drop_first()));
    }
}

pub proof fn lemma_uncompact_len(s: Seq<u64>)
    ensures
        uncompact(s).len() == s.len(),
    decreases s.len(),
{
    if s.len() > 0 {
        lemma_uncompact_len(s.drop_first());
    }
}

/// Values below `bound` stay below `bound + len` after uncompaction.
pub proof fn lemma_uncompact_bound(s: Seq<u64>, bound: u64)
    requires
        all_below(s, bound),
        bound + s.len() <= u64::MAX,
    ensures
        all_below(uncompact(s), (bound + s.len()) as u64),
    decreases s.len(),
{
    if s.len() > 0 {
        let rest = s.drop_first();
        lemma_uncompact_bound(rest, bound);
        lemma_uncompact_len(rest);
    }
}

/// Compaction never raises a value.
pub proof fn lemma_compact_bound(s: Seq<u64>, bound: u64)
    requires
        all_below(s, bound),
    ensures
        all_below(compact(s), bound),
    decreases s.len(),
{
    if s.len() > 0 {
        let d = drop_taken(s[0], s.drop_first());
        assert(all_below(d, bound));
        lemma_compact_bound(d, bound);
        lemma_compact_len(d);
        assert(compact(s) =~= seq![s[0]] + compact(d));
    }
}

/// Compaction undoes uncompaction.
pub proof fn lemma_compact_uncompact(s: Seq<u64>)
    requires
        all_below(s, 0x1_0000_0000),
        s.len() < 0x1_0000_0000,
    ensures
        compact(uncompact(s)) == s,
    decreases s.len(),
{
    if s.len() > 0 {
        let x = s[0];
        let rest = s.drop_first();
        let u = uncompact(rest);
        lemma_uncompact_len(rest);
        lemma_uncompact_bound(rest, 0x1_0000_0000);
        assert(uncompact(s).drop_first() == skip_taken(x, u));
        assert(drop_taken(x, skip_taken(x, u)) =~= u);
        lemma_compact_uncompact(rest);
        assert(compact(uncompact(s)) =~= seq![x] + compact(u));
        assert(s =~= seq![x] + rest);
    }
}

/// Uncompaction undoes compaction on distinct values.
pub proof fn lemma_uncompact_compact(s: Seq<u64>)
    requires
        all_distinct(s),
    ensures
        uncompact(compact(s)) == s,
    decreases s.len(),
{
    if s.len() > 0 {
        let x = s[0];
        let rest = s.drop_first();
        let d = drop_taken(x, rest);
        assert(all_distinct(d)) by {
            assert forall|i: int, j: int| 0 <= i < j < d.len() implies d[i] != d[j] by {
                assert(rest[i] != x && rest[j] != x && rest[i] != rest[j]);
            }
        }
        lemma_uncompact_compact(d);
        lemma_compact_len(d);
        assert(compact(s).drop_first() =~= compact(d));
        assert(skip_taken(x, d) =~= rest) by {
            assert forall|i: int| 0 <= i < rest.len() implies skip_taken(x, d)[i] == rest[i] by {
                assert(rest[i] != x);
            }
        }
        assert(uncompact(compact(s)) =~= seq![x] + skip_taken(x, uncompact(compact(d))));
        assert(s =~= seq![x] + rest);
    }
}

/// Uncompaction gives distinct values.
pub proof fn lemma_uncompact_distinct(s: Seq<u64>)
    requires
        all_below(s, 0x1_0000_0000),
        s.len() < 0x1_0000_0000,
    ensures
        all_distinct(uncompact(s)),
    decreases s.len(),
{
    if s.len() > 0 {
        let x = s[0];
        let rest = s.drop_first();
        let u = uncompact(rest);
        lemma_uncompact_distinct(rest);
        lemma_uncompact_len(rest);
        lemma_uncompact_bound(rest, 0x1_0000_0000);
        let t = skip_taken(x, u);
        let r = uncompact(s);
        assert(r == seq![x] + t);
        assert forall|i: int, j: int| 0 <= i < j < r.len() implies r[i] != r[j] by {
            if i == 0 {
                assert(r[j] == t[j - 1]);
            } else {
                assert(r[i] == t[i - 1]);
                assert(r[j] == t[j - 1]);
                assert(u[i - 1] != u[j - 1]);
            }
        }
    }
}

/// Where a compacted value is above the next one, so is the uncompacted value.
pub proof fn lemma_uncompact_step(s: Seq<u64>, i: int)
    requires
        all_below(s, 0x1_0000_0000),
        s.len() < 0x1_0000_0000,
        0 <= i,
        i + 1 < s.len(),
        s[i] > s[i + 1],
    ensures
        uncompact(s)[i] > uncompact(s)[i + 1],
    decreases i,
{
    let x = s[0];
    let rest = s.drop_first();
    let u = uncompact(rest);
    lemma_uncompact_len(rest);
    lemma_uncompact_bound(rest, 0x1_0000_0000);
    let t = skip_taken(x, u);
    assert(uncompact(s) == seq![x] + t);
    if i == 0 {
        assert(u[0] == rest[0]);
    } else {
        lemma_uncompact_step(rest, i - 1);
    }
}

/// Uncompaction keeps the entries of `lo..hi` strictly decreasing when the
/// compacted values there are.
pub proof fn lemma_uncompact_decreasing(s: Seq<u64>, lo: int, hi: int)
    requires
        all_below(s, 0x1_0000_0000),
        s.len() < 0x1_0000_0000,
        0 <= lo <= hi <= s.len(),
        forall|a: int, b: int| lo <= a < b < hi ==> s[a] > s[b],
    ensures
        forall|a: int, b: int| lo <= a < b < hi ==> uncompact(s)[a] > uncompact(s)[b],
    decreases hi - lo,
{
    lemma_uncompact_len(s);
    if hi - lo >= 2 {
        lemma_uncompact_decreasing(s, lo + 1, hi);
        lemma_uncompact_step(s, lo);
        assert forall|a: int, b: int| lo <= a < b < hi implies uncompact(s)[a] > uncompact(s)[b] by {
            if a == lo && b > lo + 1 {
                assert(uncompact(s)[lo + 1] > uncompact(s)[b]);
            }
        }
    }
}

/// The first values of an uncompaction depend on the first values alone.
pub proof fn lemma_uncompact_prefix(x: Seq<u64>, y: Seq<u64>)
    ensures
        uncompact(x + y).subrange(0, x.len() as int) == uncompact(x),
    decreases x.len(),
{
    lemma_uncompact_len(x + y);
    lemma_uncompact_len(x);
    if x.len() > 0 {
        let a = x[0];
        let xr = x.drop_first();
        assert((x + y).drop_first() =~= xr + y);
        lemma_uncompact_prefix(xr, y);
        lemma_uncompact_len(xr + y);
        lemma_uncompact_len(xr);
        let u = uncompact(xr + y);
        let v = uncompact(xr);
        assert(uncompact(x + y) == seq![a] + skip_taken(a, u));
        assert(uncompact(x) == seq![a] + skip_taken(a, v));
        assert(u.subrange(0, xr.len() as int) == v);
        assert(uncompact(x + y).subrange(0, x.len() as int) =~= uncompact(x)) by {
            assert forall|k: int| 0 <= k < x.len() implies uncompact(x + y)[k] == uncompact(x)[k] by {
                if k > 0 {
                    assert(u[k - 1] == v[k - 1]);
                }
            }
        }
    } else {
        assert(uncompact(x) =~= x);
    }
}

/// A state of the compaction loop: the first `i` values are final and
/// compacting the rest completes the work.
spec fn compact_progress(orig: Seq<u64>, cur: Seq<u64>, i: int) -> bool {
    &&& cur.len() == orig.len()
    &&& 0 <= i <= orig.len()
    &&& compact(orig) == cur.subrange(0, i) + compact(cur.subrange(i, cur.len() as int))
}

/// Compacts `v[lo..hi]` in place.
pub fn compact_pidx(v: &mut Vec<u64>, lo: usize, hi: usize)
    requires
        lo <= hi <= old(v).len(),
    ensures
        final(v)@.len() == old(v)@.len(),
        final(v)@ == old(v)@.subrange(0, lo as int) + compact(old(v)@.subrange(lo as int, hi as int)) + old(v)@.subrange(
            hi as int,
            old(v)@.len() as int,
        ),
{
    let ghost orig = v@.subrange(lo as int, hi as int);
    let ghost before = v@;
    if hi - lo <= 1 {
        assert(compact(orig) =~= orig) by {
            if orig.len() == 1 {
                assert(drop_taken(orig[0], orig.drop_first()) =~= Seq::<u64>::empty());
                assert(compact(Seq::<u64>::empty()) =~= Seq::<u64>::empty());
            }
        }
        assert(v@ =~= before.subrange(0, lo as int) + orig + before.subrange(hi as int, before.len() as int));
        return;
    }
    let mut i: usize = lo;
    proof {
        let cur = v@.subrange(lo as int, hi as int);
        assert(cur =~= orig);
        assert(cur.subrange(0, cur.len() as int) =~= orig);
        assert(cur.subrange(0, 0) + compact(orig) =~= compact(orig));
    }
    while i < hi - 1
        invariant
            lo <= i < hi,
            hi <= v.len(),
            v.len() == before.len(),
            orig == before.subrange(lo as int, hi as int),
            forall|k: int| 0 <= k < lo ==> v@[k] == before[k],
            forall|k: int| hi <= k < v.len() ==> v@[k] == before[k],
            compact_progress(orig, v@.subrange(lo as int, hi as int), i - lo),
        decreases hi - i,
    {
        let ghost cur = v@.subrange(lo as int, hi as int);
        let ghost tail = cur.subrange(i - lo, cur.len() as int);
        let x = v[i];
        let mut j: usize = i + 1;
        while j < hi
            invariant
                lo <= i < j <= hi,
                hi <= v.len(),
                v.len() == before.len(),
                x == v@[i as int],
                forall|k: int| 0 <= k < lo ==> v@[k] == before[k],
                forall|k: int| hi <= k < v.len() ==> v@[k] == before[k],
                forall|k: int| lo <= k <= i ==> v@[k] == cur[k - lo],
                forall|k: int| i < k < j ==> v@[k] == (if x < cur[k - lo] { (cur[k - lo] - 1) as u64 } else { cur[k - lo] }),
                forall|k: int| j <= k < hi ==> v@[k] == cur[k - lo],
            decreases hi - j,
        {
            let y = v[j];
            if x < y {
                v.set(j, y - 1);
            }
            j += 1;
        }
        proof {
            let newcur = v@.subrange(lo as int, hi as int);
            assert(tail[0] == x);
            assert(newcur.subrange(i - lo + 1, newcur.len() as int) =~= drop_taken(x, tail.drop_first()));
            assert(compact(tail) == seq![x] + compact(drop_taken(x, tail.drop_first())));
            assert(newcur.subrange(0, i - lo + 1) =~= cur.subrange(0, i - lo).push(x));
            assert(cur.subrange(0, i - lo) + compact(tail) =~= cur.subrange(0, i - lo).push(x) + compact(drop_taken(x, tail.drop_first())));
        }
        i += 1;
    }
    proof {
        let cur = v@.subrange(lo as int, hi as int);
        let last = cur.subrange(i - lo, cur.len() as int);
        assert(last.len() == 1);
        assert(compact(last) =~= last) by {
            assert(drop_taken(last[0], last.drop_first()) =~= Seq::<u64>::empty());
            assert(compact(Seq::<u64>::empty()) =~= Seq::<u64>::empty());
        }
        assert(cur.subrange(0, i - lo) + last =~= cur);
        assert(v@ =~= before.subrange(0, lo as int) + compact(orig) + before.subrange(hi as int, before.len() as int));
    }
}

/// Undoes `compact_pidx` on `v[lo..hi]`; the values stay below 2^32.
pub fn uncompact_cpidx(v: &mut Vec<u64>, lo: usize, hi: usize)
    requires
        lo <= hi <= old(v).len(),
        hi - lo < 0x1_0000_0000,
        all_below(old(v)@.subrange(lo as int, hi as int), 0x1_0000_0000),
    ensures
        final(v)@.len() == old(v)@.len(),
        final(v)@ == old(v)@.subrange(0, lo as int) + uncompact(old(v)@.subrange(lo as int, hi as int)) + old(v)@.subrange(
            hi as int,
            old(v)@.len() as int,
        ),
{
    let ghost orig = v@.subrange(lo as int, hi as int);
    let ghost before = v@;
    if hi - lo <= 1 {
        assert(uncompact(orig) =~= orig) by {
            if orig.len() == 1 {
                assert(uncompact(orig.drop_first()) =~= orig.drop_first());
                assert(skip_taken(orig[0], Seq::<u64>::empty()) =~= Seq::<u64>::empty());
            }
        }
        assert(v@ =~= before.subrange(0, lo as int) + orig + before.subrange(hi as int, before.len() as int));
        return;
    }
    // Process positions from hi - 2 down to lo; `i` is one past the position.
    let mut i: usize = hi - 1;
    proof {
        let last = orig.subrange(i - lo, orig.len() as int);
        assert(uncompact(last) =~= last) by {
            assert(uncompact(last.drop_first()) =~= last.drop_first());
            assert(skip_taken(last[0], Seq::<u64>::empty()) =~= Seq::<u64>::empty());
        }
    }
    while i > lo
        invariant
            lo <= i < hi,
            hi <= v.len(),
            v.len() == before.len(),
            orig == before.subrange(lo as int, hi as int),
            all_below(orig, 0x1_0000_0000),
            hi - lo < 0x1_0000_0000,
            forall|k: int| 0 <= k < i ==> v@[k] == before[k],
            forall|k: int| hi <= k < v.len() ==> v@[k] == before[k],
            v@.subrange(i as int, hi as int) == uncompact(orig.subrange(i - lo, orig.len() as int)),
        decreases i,
    {
        let p = i - 1;
        let ghost done = v@.subrange(i as int, hi as int);
        proof {
            let rest = orig.subrange(i - lo, orig.len() as int);
            assert(all_below(rest, 0x1_0000_0000));
            lemma_uncompact_bound(rest, 0x1_0000_0000);
        }
        let x = v[p];
        let mut j: usize = i;
        while j < hi
            invariant
                lo <= p < i <= j <= hi,
                i == p + 1,
                hi <= v.len(),
                v.len() == before.len(),
                x == before[p as int],
                done.len() == hi - i,
                all_below(done, (0x1_0000_0000 + (hi - i)) as u64),
                hi - lo < 0x1_0000_0000,
                forall|k: int| 0 <= k < i ==> v@[k] == before[k],
                forall|k: int| hi <= k < v.len() ==> v@[k] == before[k],
                forall|k: int| i <= k < j ==> v@[k] == (if x <= done[k - i] { (done[k - i] + 1) as u64 } else { done[k - i] }),
                forall|k: int| j <= k < hi ==> v@[k] == done[k - i],
            decreases hi - j,
        {
            let y = v[j];
            if x <= y {
                v.set(j, y + 1);
            }
            j += 1;
        }
        proof {
            let seg = orig.subrange(p - lo, orig.len() as int);
            assert(seg[0] == x);
            assert(seg.drop_first() =~= orig.subrange(i - lo, orig.len() as int));
            assert(v@.subrange(p as int, hi as int) =~= seq![x] + skip_taken(x, done));
        }
        i = p;
    }
    proof {
        assert(orig.subrange(0, orig.len() as int) =~= orig);
        assert(v@ =~= before.subrange(0, lo as int) + uncompact(orig) + before.subrange(hi as int, before.len() as int));
    }
}

} // verus!
