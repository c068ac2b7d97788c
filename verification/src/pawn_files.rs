//! The pawn files of a position: how many pawns of a color stand on each
//! file, and the list of their files by increasing file, which is what picks
//! the table of a file of tables.

use vstd::prelude::*;
use crate::board::{BoardPosition, Color, Piece, Role};
use crate::egt::file_of;
use crate::egt_file::{pawns_on_file, pawn_files_upto};
use crate::encoding::{holding, holds_element, places, placed, element_piece, side_color};
use crate::indexer::{PieceSetElement, distinct_entries};
use crate::piece_set::{EgtRole, File, file_index, role_index};
use crate::tables::{count_file, repeat_file, reflected_upto, reflected, canonical, file_indexes};
use crate::board::{mirrored, mirror_square};
use crate::names::lex_lt;

verus! {

/// Number of squares below `k` that satisfy `q`.
pub open spec fn count_squares(q: spec_fn(int) -> bool, k: int) -> nat
    decreases k,
{
    if k <= 0 {
        0
    } else {
        count_squares(q, k - 1) + (if q(k - 1) { 1nat } else { 0nat })
    }
}

/// Counting squares depends only on the squares below the bound.
proof fn lemma_count_squares_ext(q1: spec_fn(int) -> bool, q2: spec_fn(int) -> bool, k: int)
    requires
        forall|s: int| 0 <= s < k ==> #[trigger] q1(s) == q2(s),
    ensures
        count_squares(q1, k) == count_squares(q2, k),
    decreases k,
{
    if k > 0 {
        lemma_count_squares_ext(q1, q2, k - 1);
    }
}

/// No square satisfies `q`: the count is zero.
proof fn lemma_count_squares_none(q: spec_fn(int) -> bool, k: int)
    requires
        forall|s: int| 0 <= s < k ==> !#[trigger] q(s),
    ensures
        count_squares(q, k) == 0,
    decreases k,
{
    if k > 0 {
        lemma_count_squares_none(q, k - 1);
    }
}

/// The squares holding a piece of an element are counted by `holds_element`.
proof fn lemma_holding_count_squares(pos: BoardPosition, p: PieceSetElement, k: int)
    requires
        0 <= k,
    ensures
        holding(pos, p, k).len() == count_squares(|s: int| holds_element(pos, s, p), k),
    decreases k,
{
    if k > 0 {
        lemma_holding_count_squares(pos, p, k - 1);
    }
}

/// A pawn of `color` on file `f` stands on square `s`.
pub open spec fn pawn_at(squares: Seq<Option<Piece>>, color: Color, f: int, s: int) -> bool {
    s % 8 == f && squares[s] == Some(Piece { color, role: Role::Pawn })
}

/// The pawns of a file counted rank by rank are the squares that hold them.
proof fn lemma_pawns_on_file_count(squares: Seq<Option<Piece>>, color: Color, f: int, r: int)
    requires
        0 <= f < 8,
        0 <= r <= 8,
    ensures
        pawns_on_file(squares, color, f, r) == count_squares(|s: int| pawn_at(squares, color, f, s), 8 * r),
    decreases r,
{
    if r > 0 {
        lemma_pawns_on_file_count(squares, color, f, r - 1);
        let q = |s: int| pawn_at(squares, color, f, s);
        let k = 8 * (r - 1);
        assert forall|s: int| k <= s < k + 8 && s != k + f implies !#[trigger] q(s) by {
            assert(s % 8 == s - k);
        }
        assert((k + f) % 8 == f);
        assert(count_squares(q, k + 8) == count_squares(q, k) + (if q(k + f) { 1nat } else { 0nat })) by {
            reveal_with_fuel(count_squares, 9);
        }
    }
}

/// Entry `i` belongs to the span of some element.
pub open spec fn in_some_span(ps: Seq<PieceSetElement>, i: int) -> bool {
    exists|e: int| 0 <= e < ps.len() && (#[trigger] ps[e]).span.0 <= i < ps[e].span.1
}

/// The file of index `f` has index `f`.
pub proof fn lemma_file_of_index(f: nat)
    requires
        f < 8,
    ensures
        file_index(file_of(f)) == f,
{
}

/// In a position whose entries `sq` put the pieces of the elements `ps`
/// (the spans of the elements cover the entries, and each element holds the
/// squares of its span), the pawns of a color on a file are the pieces of
/// the element of that color and file, and there are none without one.
pub proof fn lemma_pawn_counts(ps: Seq<PieceSetElement>, sq: Seq<u64>, pos: BoardPosition, color: Color, f: int)
    requires
        pos.squares@.len() == 64,
        0 <= f < 8,
        distinct_entries(ps),
        places(ps, sq, pos.turn, pos.squares@),
        forall|i: int| 0 <= i < sq.len() ==> #[trigger] in_some_span(ps, i),
        forall|e: int| 0 <= e < ps.len() ==> (#[trigger] ps[e]).span.0 <= ps[e].span.1 <= sq.len(),
        forall|e: int, x: u64| 0 <= e < ps.len() ==> (#[trigger] holding(pos, ps[e], 64).contains(x) <==> sq.subrange(
            ps[e].span.0 as int,
            ps[e].span.1 as int,
        ).contains(x)),
    ensures
        forall|e: int| 0 <= e < ps.len() && (#[trigger] ps[e]).role == EgtRole::Pawn(file_of(f as nat)) && side_color(ps[e].side, pos.turn) == color
            ==> pawns_on_file(pos.squares@, color, f, 8) == holding(pos, ps[e], 64).len(),
        (forall|e: int| 0 <= e < ps.len() ==> !((#[trigger] ps[e]).role == EgtRole::Pawn(file_of(f as nat)) && side_color(ps[e].side, pos.turn) == color))
            ==> pawns_on_file(pos.squares@, color, f, 8) == 0,
{
    let squares = pos.squares@;
    let q = |s: int| pawn_at(squares, color, f, s);
    let fl = file_of(f as nat);
    lemma_pawns_on_file_count(squares, color, f, 8);
    lemma_file_of_index(f as nat);
    // A pawn of the color on the file belongs to an element of that color on that file.
    assert forall|s: int| 0 <= s < 64 && #[trigger] q(s) implies exists|e: int| 0 <= e < ps.len() && (#[trigger] ps[e]).role
        == EgtRole::Pawn(fl) && side_color(ps[e].side, pos.turn) == color && holds_element(pos, s, ps[e]) by {
        assert(squares[s] is Some);
        let i = choose|i: int| 0 <= i < sq.len() && sq[i] == s;
        assert(in_some_span(ps, i));
        let e = choose|e: int| 0 <= e < ps.len() && (#[trigger] ps[e]).span.0 <= i < ps[e].span.1;
        assert(placed(ps, sq, pos.turn, squares, e, i));
        let lo = ps[e].span.0 as int;
        let hi = ps[e].span.1 as int;
        assert(sq.subrange(lo, hi)[i - lo] == s as u64);
        assert(holding(pos, ps[e], 64).contains(s as u64));
        crate::encoding::lemma_holding(pos, ps[e], 64);
        assert(holds_element(pos, s, ps[e]));
        assert(element_piece(ps[e], pos.turn) == Piece { color, role: Role::Pawn });
        let g = ps[e].role->0;
        assert(ps[e].role == EgtRole::Pawn(g));
        assert(file_index(g) == f);
        crate::piece_set::lemma_file_index_injective(g, fl);
    }
    assert forall|e: int| 0 <= e < ps.len() && (#[trigger] ps[e]).role == EgtRole::Pawn(fl) && side_color(ps[e].side, pos.turn) == color
        implies pawns_on_file(pos.squares@, color, f, 8) == holding(pos, ps[e], 64).len() by {
        let h = |s: int| holds_element(pos, s, ps[e]);
        assert forall|s: int| 0 <= s < 64 implies #[trigger] q(s) == h(s) by {
            if q(s) {
                let e2 = choose|e2: int| 0 <= e2 < ps.len() && (#[trigger] ps[e2]).role == EgtRole::Pawn(fl) && side_color(ps[e2].side, pos.turn)
                    == color && holds_element(pos, s, ps[e2]);
                if e2 != e {
                    assert(ps[e2].side == ps[e].side);
                    if e2 < e {
                        assert(!(ps[e2].role == ps[e].role && ps[e2].side == ps[e].side));
                    } else {
                        assert(!(ps[e].role == ps[e2].role && ps[e].side == ps[e2].side));
                    }
                }
            }
        }
        lemma_count_squares_ext(q, h, 64);
        lemma_holding_count_squares(pos, ps[e], 64);
    }
    if forall|e: int| 0 <= e < ps.len() ==> !((#[trigger] ps[e]).role == EgtRole::Pawn(fl) && side_color(ps[e].side, pos.turn) == color) {
        assert forall|s: int| 0 <= s < 64 implies !#[trigger] q(s) by {
            if q(s) {
                let e2 = choose|e2: int| 0 <= e2 < ps.len() && (#[trigger] ps[e2]).role == EgtRole::Pawn(fl) && side_color(ps[e2].side, pos.turn)
                    == color && holds_element(pos, s, ps[e2]);
            }
        }
        lemma_count_squares_none(q, 64);
    }
}

/// The files of `s` below `g`, listed by increasing file.
pub open spec fn sorted_files_upto(s: Seq<File>, g: nat) -> Seq<File>
    decreases g,
{
    if g == 0 {
        Seq::empty()
    } else {
        sorted_files_upto(s, (g - 1) as nat) + repeat_file(file_of((g - 1) as nat), count_file(s, (g - 1) as nat))
    }
}

/// The file indexes of `s` never decrease.
pub open spec fn files_nondecreasing(s: Seq<File>) -> bool {
    forall|i: int, j: int| 0 <= i <= j < s.len() ==> file_index(#[trigger] s[i]) <= file_index(#[trigger] s[j])
}

/// The pawns of a color listed by increasing file are the listing of `s`
/// when `s` has as many files of each index as there are pawns on that file.
pub proof fn lemma_pawn_files_sorted(squares: Seq<Option<Piece>>, color: Color, s: Seq<File>, g: nat)
    requires
        g <= 8,
        forall|f: int| 0 <= f < g ==> #[trigger] pawns_on_file(squares, color, f, 8) == count_file(s, f as nat),
    ensures
        pawn_files_upto(squares, color, g) == sorted_files_upto(s, g),
    decreases g,
{
    if g > 0 {
        lemma_pawn_files_sorted(squares, color, s, (g - 1) as nat);
        assert(pawns_on_file(squares, color, g - 1, 8) == count_file(s, (g - 1) as nat));
    }
}

/// Lists with as many files of each index below `g` have the same listing below `g`.
proof fn lemma_sorted_same_counts(s1: Seq<File>, s2: Seq<File>, g: nat)
    requires
        forall|f: nat| f < g ==> #[trigger] count_file(s1, f) == count_file(s2, f),
    ensures
        sorted_files_upto(s1, g) == sorted_files_upto(s2, g),
    decreases g,
{
    if g > 0 {
        lemma_sorted_same_counts(s1, s2, (g - 1) as nat);
        assert(count_file(s1, (g - 1) as nat) == count_file(s2, (g - 1) as nat));
    }
}

/// Files without pieces add nothing to the listing.
proof fn lemma_sorted_skip(s: Seq<File>, g0: nat, g: nat)
    requires
        g0 <= g,
        forall|f: nat| g0 <= f < g ==> #[trigger] count_file(s, f) == 0,
    ensures
        sorted_files_upto(s, g) == sorted_files_upto(s, g0),
    decreases g,
{
    if g > g0 {
        lemma_sorted_skip(s, g0, (g - 1) as nat);
        assert(count_file(s, (g - 1) as nat) == 0);
        assert(repeat_file(file_of((g - 1) as nat), 0) =~= Seq::<File>::empty());
        assert(sorted_files_upto(s, g) =~= sorted_files_upto(s, (g - 1) as nat));
    }
}

/// A file index that `s` does not hold is counted zero times.
proof fn lemma_count_file_absent(s: Seq<File>, f: nat)
    requires
        forall|i: int| 0 <= i < s.len() ==> file_index(#[trigger] s[i]) != f,
    ensures
        count_file(s, f) == 0,
    decreases s.len(),
{
    if s.len() > 0 {
        let t = s.drop_last();
        assert forall|i: int| 0 <= i < t.len() implies file_index(#[trigger] t[i]) != f by {
            assert(t[i] == s[i]);
        }
        lemma_count_file_absent(t, f);
    }
}

/// A file index is counted at most as many times as there are files.
pub proof fn lemma_count_file_le(s: Seq<File>, f: nat)
    ensures
        count_file(s, f) <= s.len(),
    decreases s.len(),
{
    if s.len() > 0 {
        lemma_count_file_le(s.drop_last(), f);
    }
}

/// The file of the index of a file is that file.
proof fn lemma_index_file(x: File)
    ensures
        file_of(file_index(x)) == x,
{
}

/// A list of files by increasing file is the listing of its files.
pub proof fn lemma_sorted_files(s: Seq<File>)
    requires
        files_nondecreasing(s),
    ensures
        sorted_files_upto(s, 8) == s,
    decreases s.len(),
{
    if s.len() == 0 {
        lemma_sorted_skip(s, 0, 8);
        assert(sorted_files_upto(s, 0) =~= s);
    } else {
        let t = s.drop_last();
        let x = s.last();
        let fx = file_index(x);
        assert(files_nondecreasing(t)) by {
            assert forall|i: int, j: int| 0 <= i <= j < t.len() implies file_index(#[trigger] t[i]) <= file_index(#[trigger] t[j]) by {
                assert(t[i] == s[i] && t[j] == s[j]);
            }
        }
        lemma_sorted_files(t);
        assert(fx < 8);
        // The files above `x` are absent from `s` and from `t`.
        assert forall|f: nat| fx < f < 8 implies #[trigger] count_file(s, f) == 0 by {
            assert forall|i: int| 0 <= i < s.len() implies file_index(#[trigger] s[i]) != f by {
                assert(file_index(s[i]) <= file_index(s[s.len() - 1]));
            }
            lemma_count_file_absent(s, f);
        }
        assert forall|f: nat| fx < f < 8 implies #[trigger] count_file(t, f) == 0 by {
            assert(count_file(s, f) == 0);
            assert(count_file(s, f) == count_file(t, f) + (if file_index(x) == f { 1nat } else { 0nat }));
        }
        lemma_sorted_skip(s, fx + 1, 8);
        lemma_sorted_skip(t, fx + 1, 8);
        assert forall|f: nat| f < fx implies #[trigger] count_file(s, f) == count_file(t, f) by {
            assert(count_file(s, f) == count_file(t, f) + (if file_index(x) == f { 1nat } else { 0nat }));
        }
        lemma_sorted_same_counts(s, t, fx);
        assert(count_file(s, fx) == count_file(t, fx) + 1);
        lemma_index_file(x);
        let n = count_file(t, fx);
        assert(repeat_file(file_of(fx), n + 1) == repeat_file(file_of(fx), n) + seq![x]);
        assert(sorted_files_upto(s, fx + 1) == sorted_files_upto(s, fx) + repeat_file(file_of(fx), n + 1));
        assert(sorted_files_upto(t, fx + 1) == sorted_files_upto(t, fx) + repeat_file(file_of(fx), n));
        assert(s =~= t + seq![x]);
    }
}

/// The files listed by increasing file, with `cnt(f)` files of index `f`
/// for the indexes below `g`.
pub open spec fn listing(cnt: spec_fn(nat) -> nat, g: nat) -> Seq<File>
    decreases g,
{
    if g == 0 {
        Seq::empty()
    } else {
        listing(cnt, (g - 1) as nat) + repeat_file(file_of((g - 1) as nat), cnt((g - 1) as nat))
    }
}

/// Counting the files of a concatenation.
proof fn lemma_count_file_concat(a: Seq<File>, b: Seq<File>, f: nat)
    ensures
        count_file(a + b, f) == count_file(a, f) + count_file(b, f),
    decreases b.len(),
{
    if b.len() > 0 {
        assert((a + b).drop_last() =~= a + b.drop_last());
        lemma_count_file_concat(a, b.drop_last(), f);
    } else {
        assert(a + b =~= a);
    }
}

/// Counting the files of a repetition.
proof fn lemma_count_file_repeat(x: File, n: nat, f: nat)
    ensures
        count_file(repeat_file(x, n), f) == (if file_index(x) == f { n } else { 0 }),
    decreases n,
{
    if n > 0 {
        lemma_count_file_repeat(x, (n - 1) as nat, f);
        assert(repeat_file(x, n).drop_last() =~= repeat_file(x, (n - 1) as nat));
    }
}

/// A listing holds `cnt(f)` files of each index `f` below `g`.
proof fn lemma_count_listing(cnt: spec_fn(nat) -> nat, g: nat, f: nat)
    requires
        g <= 8,
        f < 8,
    ensures
        count_file(listing(cnt, g), f) == (if f < g { cnt(f) } else { 0 }),
    decreases g,
{
    if g > 0 {
        let h = (g - 1) as nat;
        lemma_count_listing(cnt, h, f);
        lemma_count_file_concat(listing(cnt, h), repeat_file(file_of(h), cnt(h)), f);
        lemma_count_file_repeat(file_of(h), cnt(h), f);
        lemma_file_of_index(h);
    }
}

/// Listings with the same counts below `g` are equal.
proof fn lemma_listing_ext(c1: spec_fn(nat) -> nat, c2: spec_fn(nat) -> nat, g: nat)
    requires
        forall|f: nat| f < g ==> #[trigger] c1(f) == c2(f),
    ensures
        listing(c1, g) == listing(c2, g),
    decreases g,
{
    if g > 0 {
        lemma_listing_ext(c1, c2, (g - 1) as nat);
        assert(c1((g - 1) as nat) == c2((g - 1) as nat));
    }
}

/// The pawn files of a color are a listing.
proof fn lemma_pawn_files_listing(squares: Seq<Option<Piece>>, color: Color, g: nat)
    ensures
        pawn_files_upto(squares, color, g) == listing(|f: nat| pawns_on_file(squares, color, f as int, 8), g),
    decreases g,
{
    if g > 0 {
        lemma_pawn_files_listing(squares, color, (g - 1) as nat);
    }
}

/// The reflected files are a listing.
proof fn lemma_reflected_listing(s: Seq<File>, g: nat)
    ensures
        reflected_upto(s, g) == listing(|f: nat| count_file(s, (7 - f) as nat), g),
    decreases g,
{
    if g > 0 {
        lemma_reflected_listing(s, (g - 1) as nat);
    }
}

/// The files sorted by increasing file are a listing.
proof fn lemma_sorted_listing(s: Seq<File>, g: nat)
    ensures
        sorted_files_upto(s, g) == listing(|f: nat| count_file(s, f), g),
    decreases g,
{
    if g > 0 {
        lemma_sorted_listing(s, (g - 1) as nat);
    }
}

/// Reflecting a list of files by increasing file twice gives it back.
pub proof fn lemma_reflected_twice(s: Seq<File>)
    requires
        files_nondecreasing(s),
    ensures
        reflected(reflected(s)) == s,
{
    let r1 = |f: nat| count_file(s, (7 - f) as nat);
    let rs = reflected(s);
    lemma_reflected_listing(s, 8);
    lemma_reflected_listing(rs, 8);
    assert forall|f: nat| f < 8 implies #[trigger] count_file(rs, (7 - f) as nat) == count_file(s, f) by {
        lemma_count_listing(r1, 8, (7 - f) as nat);
    }
    lemma_listing_ext(|f: nat| count_file(rs, (7 - f) as nat), |f: nat| count_file(s, f), 8);
    lemma_sorted_listing(s, 8);
    lemma_sorted_files(s);
}

/// The pawns of a file of the mirrored board are those of the reflected file.
proof fn lemma_pawns_on_mirrored_file(squares: Seq<Option<Piece>>, color: Color, f: int, r: int)
    requires
        squares.len() == 64,
        0 <= f < 8,
        0 <= r <= 8,
    ensures
        pawns_on_file(mirrored(squares), color, f, r) == pawns_on_file(squares, color, 7 - f, r),
    decreases r,
{
    if r > 0 {
        lemma_pawns_on_mirrored_file(squares, color, f, r - 1);
        let x = (r - 1) * 8 + f;
        assert(x / 8 == r - 1 && x % 8 == f);
        assert(mirror_square(x as u8) == (r - 1) * 8 + 7 - f);
        assert(mirrored(squares)[x] == squares[(r - 1) * 8 + (7 - f)]);
    }
}

/// The pawn files of a color on the mirrored board are the reflection of
/// those on the board.
pub proof fn lemma_mirrored_pawn_files(squares: Seq<Option<Piece>>, color: Color)
    requires
        squares.len() == 64,
    ensures
        pawn_files_upto(mirrored(squares), color, 8) == reflected(pawn_files_upto(squares, color, 8)),
{
    let m = mirrored(squares);
    let p = pawn_files_upto(squares, color, 8);
    let cp = |f: nat| pawns_on_file(squares, color, f as int, 8);
    lemma_pawn_files_listing(m, color, 8);
    lemma_pawn_files_listing(squares, color, 8);
    lemma_reflected_listing(p, 8);
    assert forall|f: nat| f < 8 implies #[trigger] pawns_on_file(m, color, f as int, 8) == count_file(p, (7 - f) as nat) by {
        lemma_pawns_on_mirrored_file(squares, color, f as int, 8);
        lemma_count_listing(cp, 8, (7 - f) as nat);
    }
    lemma_listing_ext(|f: nat| pawns_on_file(m, color, f as int, 8), |f: nat| count_file(p, (7 - f) as nat), 8);
}

/// Lists of files with the same file indexes are the same.
proof fn lemma_file_indexes_injective(a: Seq<File>, b: Seq<File>)
    requires
        file_indexes(a) == file_indexes(b),
    ensures
        a == b,
{
    assert(a.len() == file_indexes(a).len() && b.len() == file_indexes(b).len());
    assert forall|i: int| 0 <= i < a.len() implies a[i] == b[i] by {
        assert(file_indexes(a)[i] == file_indexes(b)[i]);
        assert(file_indexes(a)[i] == file_index(a[i]) as u8);
        assert(file_indexes(b)[i] == file_index(b[i]) as u8);
        assert(file_index(a[i]) < 8 && file_index(b[i]) < 8);
        crate::piece_set::lemma_file_index_injective(a[i], b[i]);
    }
    assert(a =~= b);
}

/// The reflection of a canonical configuration of pawn files (listed by
/// increasing file) that is not its own reflection is not canonical.
pub proof fn lemma_reflection_not_canonical(stm: Seq<File>, sntm: Seq<File>)
    requires
        files_nondecreasing(stm),
        files_nondecreasing(sntm),
        canonical(stm, sntm),
        !(reflected(stm) == stm && reflected(sntm) == sntm),
    ensures
        !canonical(reflected(stm), reflected(sntm)),
{
    lemma_reflected_twice(stm);
    lemma_reflected_twice(sntm);
    let a = file_indexes(stm);
    let ra = file_indexes(reflected(stm));
    let b = file_indexes(sntm);
    let rb = file_indexes(reflected(sntm));
    crate::names::lemma_lex_irreflexive(a);
    if lex_lt(a, ra) {
        crate::names::lemma_lex_asymmetric(a, ra);
    } else {
        lemma_file_indexes_injective(stm, reflected(stm));
        if b == rb {
            lemma_file_indexes_injective(sntm, reflected(sntm));
        }
        crate::names::lemma_lex_total(b, rb);
    }
}

/// Sum of `c(f)` over the file indexes below `g`.
pub open spec fn count_sum(c: spec_fn(nat) -> nat, g: nat) -> nat
    decreases g,
{
    if g == 0 {
        0
    } else {
        count_sum(c, (g - 1) as nat) + c((g - 1) as nat)
    }
}

/// A listing is as long as the sum of its counts.
proof fn lemma_listing_len(c: spec_fn(nat) -> nat, g: nat)
    ensures
        listing(c, g).len() == count_sum(c, g),
    decreases g,
{
    if g > 0 {
        lemma_listing_len(c, (g - 1) as nat);
        crate::retrograde::lemma_repeat_len(file_of((g - 1) as nat), c((g - 1) as nat));
    }
}

/// A list of files is as long as the sum of its counts over the eight files.
proof fn lemma_len_counts(s: Seq<File>)
    ensures
        s.len() == count_sum(|f: nat| count_file(s, f), 8),
    decreases s.len(),
{
    let c = |f: nat| count_file(s, f);
    if s.len() == 0 {
        assert(count_sum(c, 8) == 0) by {
            reveal_with_fuel(count_sum, 9);
        }
    } else {
        let t = s.drop_last();
        lemma_len_counts(t);
        let ct = |f: nat| count_file(t, f);
        assert(file_index(s.last()) < 8);
        assert(count_sum(c, 8) == count_sum(ct, 8) + 1) by {
            reveal_with_fuel(count_sum, 9);
        }
    }
}

/// Reflecting a list of files keeps its length.
pub proof fn lemma_reflected_len(s: Seq<File>)
    ensures
        reflected(s).len() == s.len(),
{
    let c = |f: nat| count_file(s, (7 - f) as nat);
    lemma_reflected_listing(s, 8);
    lemma_listing_len(c, 8);
    lemma_len_counts(s);
    assert(count_sum(c, 8) == count_sum(|f: nat| count_file(s, f), 8)) by {
        reveal_with_fuel(count_sum, 9);
    }
}

} // verus!
