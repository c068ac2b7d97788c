//! Endgame names such as `KQ_KR`: the pieces of the side to move, an
//! underscore, then the pieces of the other side, each side written as `K`
//! followed by its other pieces in the order Q, R, B, N, P.

use vstd::prelude::*;
use crate::words::{is_word, words, nondecreasing_words, lemma_words_complete, lemma_words_sound};
use crate::EgtGenerator;

verus! {

/// ASCII letters used in names.
pub open spec fn letter_k() -> u8 { 75u8 }
pub open spec fn underscore() -> u8 { 95u8 }
pub open spec fn letter_p() -> u8 { 80u8 }

/// Letter of the non-king piece with the given index: Q, R, B, N, P.
pub open spec fn piece_letter(i: u8) -> u8 {
    if i == 0 {
        81u8
    } else if i == 1 {
        82u8
    } else if i == 2 {
        66u8
    } else if i == 3 {
        78u8
    } else {
        80u8
    }
}

/// The letters of a word of piece indices.
pub open spec fn letters(w: Seq<u8>) -> Seq<u8> {
    w.map_values(|i: u8| piece_letter(i))
}

/// One side of a name: the king followed by the letters of its other pieces.
pub open spec fn side_word(w: Seq<u8>) -> Seq<u8> {
    seq![letter_k()] + letters(w)
}

/// Strict lexicographic order on byte strings (as `str` compares them).
pub open spec fn lex_lt(a: Seq<u8>, b: Seq<u8>) -> bool
    decreases a.len(),
{
    if a.len() == 0 {
        b.len() > 0
    } else if b.len() == 0 {
        false
    } else if a[0] < b[0] {
        true
    } else if a[0] > b[0] {
        false
    } else {
        lex_lt(a.drop_first(), b.drop_first())
    }
}

/// Number of `P` letters (pawns) in a name.
pub open spec fn pawn_count(s: Seq<u8>) -> nat
    decreases s.len(),
{
    if s.len() == 0 {
        0
    } else {
        (if s[0] == letter_p() { 1nat } else { 0nat }) + pawn_count(s.drop_first())
    }
}

/// The order in which endgames are listed: fewer pawns first, then lexicographic.
pub open spec fn listing_lt(a: Seq<u8>, b: Seq<u8>) -> bool {
    pawn_count(a) < pawn_count(b) || (pawn_count(a) == pawn_count(b) && lex_lt(a, b))
}

/// The name built from the pieces of both sides.
pub open spec fn endgame_of_words(wa: Seq<u8>, wb: Seq<u8>) -> Seq<u8> {
    side_word(wa) + seq![underscore()] + side_word(wb)
}

/// `name` is one of the endgames with `n` pieces in total whose first side is
/// at least as strong, by name, as the second (so each pair of opposite
/// endgames is listed once).
pub open spec fn is_listed_endgame(name: Seq<u8>, n: int) -> bool {
    exists|wa: Seq<u8>, wb: Seq<u8>|
        #![trigger endgame_of_words(wa, wb)]
        is_word(wa, wa.len(), 0, 5) && is_word(wb, wb.len(), 0, 5) && wa.len() + wb.len() == n - 2
            && !lex_lt(side_word(wa), side_word(wb)) && name == endgame_of_words(wa, wb)
}

/// Characters of an ASCII byte string.
pub open spec fn ascii_chars(b: Seq<u8>) -> Seq<char> {
    b.map_values(|x: u8| x as char)
}

/// Bytes of a string of ASCII characters.
pub open spec fn ascii_bytes(s: Seq<char>) -> Seq<u8> {
    s.map_values(|c: char| c as u8)
}

pub open spec fn all_ascii(b: Seq<u8>) -> bool {
    forall|i: int| 0 <= i < b.len() ==> b[i] < 128
}

/// Calls `String::from_utf8`, which cannot fail on ASCII bytes; the string
/// holds one character per byte, with the same code.
#[verifier::external_body]
pub(crate) fn string_from_ascii(bytes: Vec<u8>) -> (s: String)
    requires
        all_ascii(bytes@),
    ensures
        s@ == ascii_chars(bytes@),
{
    String::from_utf8(bytes).unwrap()
}

proof fn lemma_ascii_round_trip(b: Seq<u8>)
    ensures
        ascii_bytes(ascii_chars(b)) == b,
{
    assert forall|i: int| 0 <= i < b.len() implies ascii_bytes(ascii_chars(b))[i] == b[i] by {
        let c = b[i] as char;
        assert(c as u8 == b[i]);
    }
    assert(ascii_bytes(ascii_chars(b)) =~= b);
}

pub(crate) proof fn lemma_lex_irreflexive(a: Seq<u8>)
    ensures
        !lex_lt(a, a),
    decreases a.len(),
{
    if a.len() > 0 {
        lemma_lex_irreflexive(a.drop_first());
    }
}

pub(crate) proof fn lemma_lex_total(a: Seq<u8>, b: Seq<u8>)
    ensures
        a == b || lex_lt(a, b) || lex_lt(b, a),
    decreases a.len(),
{
    if a.len() > 0 && b.len() > 0 && a[0] == b[0] {
        lemma_lex_total(a.drop_first(), b.drop_first());
        if a.drop_first() == b.drop_first() {
            assert(a =~= seq![a[0]] + a.drop_first());
            assert(b =~= seq![b[0]] + b.drop_first());
        }
    } else if a.len() == 0 && b.len() == 0 {
        assert(a =~= b);
    }
}

pub(crate) proof fn lemma_lex_transitive(a: Seq<u8>, b: Seq<u8>, c: Seq<u8>)
    requires
        lex_lt(a, b),
        lex_lt(b, c),
    ensures
        lex_lt(a, c),
    decreases a.len(),
{
    if a.len() > 0 && b.len() > 0 && c.len() > 0 && a[0] == b[0] && b[0] == c[0] {
        lemma_lex_transitive(a.drop_first(), b.drop_first(), c.drop_first());
    }
}

pub(crate) proof fn lemma_lex_asymmetric(a: Seq<u8>, b: Seq<u8>)
    requires
        lex_lt(a, b),
    ensures
        !lex_lt(b, a),
    decreases a.len(),
{
    if a.len() > 0 && b.len() > 0 && a[0] == b[0] {
        lemma_lex_asymmetric(a.drop_first(), b.drop_first());
    }
}

/// Listing order is a strict total order on names.
pub proof fn lemma_listing_order(a: Seq<u8>, b: Seq<u8>, c: Seq<u8>)
    ensures
        !listing_lt(a, a),
        a == b || listing_lt(a, b) || listing_lt(b, a),
        listing_lt(a, b) ==> !listing_lt(b, a),
        listing_lt(a, b) && listing_lt(b, c) ==> listing_lt(a, c),
{
    lemma_lex_irreflexive(a);
    lemma_lex_total(a, b);
    if lex_lt(a, b) {
        lemma_lex_asymmetric(a, b);
    }
    if lex_lt(b, a) {
        lemma_lex_asymmetric(b, a);
    }
    if lex_lt(a, b) && lex_lt(b, c) {
        lemma_lex_transitive(a, b, c);
    }
}

/// Compares byte strings lexicographically.
pub(crate) fn bytes_lt(a: &Vec<u8>, b: &Vec<u8>) -> (r: bool)
    ensures
        r == lex_lt(a@, b@),
{
    let mut i: usize = 0;
    assert(a@.subrange(0, a.len() as int) =~= a@);
    assert(b@.subrange(0, b.len() as int) =~= b@);
    while i < a.len() && i < b.len() && a[i] == b[i]
        invariant
            0 <= i <= a.len(),
            i <= b.len(),
            lex_lt(a@, b@) == lex_lt(a@.subrange(i as int, a.len() as int), b@.subrange(i as int, b.len() as int)),
        decreases a.len() - i,
    {
        let ghost sa = a@.subrange(i as int, a.len() as int);
        let ghost sb = b@.subrange(i as int, b.len() as int);
        assert(sa.drop_first() =~= a@.subrange(i + 1, a.len() as int));
        assert(sb.drop_first() =~= b@.subrange(i + 1, b.len() as int));
        i += 1;
    }
    let ghost sa = a@.subrange(i as int, a.len() as int);
    let ghost sb = b@.subrange(i as int, b.len() as int);
    if i == a.len() {
        i < b.len()
    } else if i == b.len() {
        false
    } else {
        a[i] < b[i]
    }
}

/// Counts the `P` letters of a byte string.
fn count_pawns(a: &Vec<u8>) -> (r: usize)
    ensures
        r == pawn_count(a@),
{
    let mut i: usize = a.len();
    let mut c: usize = 0;
    while i > 0
        invariant
            0 <= i <= a.len(),
            c == pawn_count(a@.subrange(i as int, a.len() as int)),
            c <= a.len() - i,
        decreases i,
    {
        i -= 1;
        let ghost s = a@.subrange(i as int, a.len() as int);
        assert(s.drop_first() =~= a@.subrange(i + 1, a.len() as int));
        if a[i] == 80u8 {
            c += 1;
        }
    }
    assert(a@.subrange(0, a.len() as int) =~= a@);
    c
}

fn listing_less(a: &Vec<u8>, b: &Vec<u8>) -> (r: bool)
    ensures
        r == listing_lt(a@, b@),
{
    let pa = count_pawns(a);
    let pb = count_pawns(b);
    pa < pb || (pa == pb && bytes_lt(a, b))
}

pub open spec fn views(list: Seq<Vec<u8>>) -> Seq<Seq<u8>> {
    list.map_values(|v: Vec<u8>| v@)
}

pub open spec fn strictly_listed(s: Seq<Seq<u8>>) -> bool {
    forall|i: int, j: int| 0 <= i < j < s.len() ==> listing_lt(#[trigger] s[i], #[trigger] s[j])
}

/// Inserts a name into a list kept strictly in listing order; a name already
/// present is not inserted again.
fn insert_listed(list: &mut Vec<Vec<u8>>, name: Vec<u8>)
    requires
        strictly_listed(views(old(list)@)),
    ensures
        strictly_listed(views(final(list)@)),
        forall|x: Seq<u8>| views(final(list)@).contains(x) <==> (views(old(list)@).contains(x) || x == name@),
{
    let ghost old_v = views(list@);
    let mut i: usize = 0;
    while i < list.len() && listing_less(&list[i], &name)
        invariant
            0 <= i <= list.len(),
            list@ == old(list)@,
            old_v == views(list@),
            forall|k: int| 0 <= k < i ==> listing_lt(#[trigger] old_v[k], name@),
        decreases list.len() - i,
    {
        i += 1;
    }
    if i < list.len() && !listing_less(&name, &list[i]) {
        proof {
            lemma_listing_order(old_v[i as int], name@, name@);
            assert(old_v[i as int] == name@);
            assert forall|x: Seq<u8>| views(list@).contains(x) <==> (old_v.contains(x) || x == name@) by {
                if x == name@ {
                    assert(old_v[i as int] == x);
                }
            }
        }
        return;
    }
    let ghost nv = name@;
    list.insert(i, name);
    proof {
        let new_v = views(list@);
        assert(new_v =~= old_v.insert(i as int, nv));
        assert forall|a: int, b: int| 0 <= a < b < new_v.len() implies listing_lt(#[trigger] new_v[a], #[trigger] new_v[b]) by {
            if b < i {
            } else if a < i && b == i {
            } else if a < i && b > i {
                lemma_listing_order(old_v[a], nv, old_v[b - 1]);
                if b - 1 > i {
                    lemma_listing_order(nv, old_v[i as int], old_v[b - 1]);
                }
                if i < old_v.len() {
                    lemma_listing_order(old_v[i as int], nv, nv);
                }
            } else if a == i {
                if i < old_v.len() {
                    lemma_listing_order(old_v[i as int], nv, nv);
                    if b - 1 > i {
                        lemma_listing_order(nv, old_v[i as int], old_v[b - 1]);
                    }
                }
            } else {
            }
        }
        assert forall|x: Seq<u8>| new_v.contains(x) <==> (old_v.contains(x) || x == nv) by {
            if old_v.contains(x) {
                let k = choose|k: int| 0 <= k < old_v.len() && old_v[k] == x;
                if k < i {
                    assert(new_v[k] == x);
                } else {
                    assert(new_v[k + 1] == x);
                }
            }
            if x == nv {
                assert(new_v[i as int] == x);
            }
            if new_v.contains(x) {
                let k = choose|k: int| 0 <= k < new_v.len() && new_v[k] == x;
                if k < i {
                    assert(old_v[k] == x);
                } else if k > i {
                    assert(old_v[k - 1] == x);
                }
            }
        }
    }
}

fn piece_letter_of(i: u8) -> (r: u8)
    ensures
        r == piece_letter(i),
{
    if i == 0 {
        81
    } else if i == 1 {
        82
    } else if i == 2 {
        66
    } else if i == 3 {
        78
    } else {
        80
    }
}

/// The bytes of one side of a name, for a word of piece indices.
fn side_bytes(w: &Vec<u8>) -> (r: Vec<u8>)
    ensures
        r@ == side_word(w@),
{
    let mut r: Vec<u8> = Vec::new();
    r.push(75u8);
    let mut i: usize = 0;
    while i < w.len()
        invariant
            0 <= i <= w.len(),
            r@ == seq![letter_k()] + letters(w@.subrange(0, i as int)),
        decreases w.len() - i,
    {
        r.push(piece_letter_of(w[i]));
        assert(letters(w@.subrange(0, i + 1)) =~= letters(w@.subrange(0, i as int)).push(piece_letter(w@[i as int])));
        i += 1;
    }
    assert(w@.subrange(0, w.len() as int) =~= w@);
    r
}

/// Concatenation `a + "_" + b`.
fn join_sides(a: &Vec<u8>, b: &Vec<u8>) -> (r: Vec<u8>)
    ensures
        r@ == a@ + seq![underscore()] + b@,
{
    let mut r: Vec<u8> = Vec::new();
    let mut i: usize = 0;
    while i < a.len()
        invariant
            0 <= i <= a.len(),
            r@ == a@.subrange(0, i as int),
        decreases a.len() - i,
    {
        r.push(a[i]);
        assert(a@.subrange(0, i + 1) =~= a@.subrange(0, i as int).push(a@[i as int]));
        i += 1;
    }
    r.push(95u8);
    let mut j: usize = 0;
    while j < b.len()
        invariant
            0 <= j <= b.len(),
            r@ == a@.subrange(0, a.len() as int) + seq![underscore()] + b@.subrange(0, j as int),
        decreases b.len() - j,
    {
        r.push(b[j]);
        assert(b@.subrange(0, j + 1) =~= b@.subrange(0, j as int).push(b@[j as int]));
        j += 1;
    }
    assert(a@.subrange(0, a.len() as int) =~= a@);
    assert(b@.subrange(0, b.len() as int) =~= b@);
    r
}

/// For the pair of sides `wa`, `wb`, the listed name is in `l` if there is one.
pub open spec fn pair_listed_in(l: Seq<Seq<u8>>, wa: Seq<u8>, wb: Seq<u8>) -> bool {
    !lex_lt(side_word(wa), side_word(wb)) ==> l.contains(endgame_of_words(wa, wb))
}

proof fn lemma_name_ascii(wa: Seq<u8>, wb: Seq<u8>)
    ensures
        all_ascii(endgame_of_words(wa, wb)),
{
    let s = endgame_of_words(wa, wb);
    assert forall|i: int| 0 <= i < s.len() implies s[i] < 128 by {
        let la = letters(wa);
        let lb = letters(wb);
        if 1 <= i < 1 + la.len() {
            assert(s[i] == la[i - 1]);
        } else if i >= 3 + la.len() {
            assert(s[i] == lb[i - 3 - la.len()]);
        }
    }
}

impl EgtGenerator {
    /// Lists the endgames with `n` pieces (kings included), one of each pair of
    /// opposite endgames (the one whose first side is greater by name), with
    /// pawnless endgames first, then by number of pawns, then by name.
    pub fn list_n_pieces_endgames(n: usize) -> (r: Vec<String>)
        requires
            n <= 8,
        ensures
            forall|i: int| 0 <= i < r.len() ==> is_listed_endgame(ascii_bytes(#[trigger] r@[i]@), n as int),
            forall|i: int| 0 <= i < r.len() ==> #[trigger] r@[i]@ == ascii_chars(ascii_bytes(r@[i]@)),
            forall|name: Seq<u8>| is_listed_endgame(name, n as int) ==> exists|i: int|
                0 <= i < r.len() && ascii_bytes(#[trigger] r@[i]@) == name,
            forall|i: int, j: int|
                0 <= i < j < r.len() ==> listing_lt(ascii_bytes(#[trigger] r@[i]@), ascii_bytes(#[trigger] r@[j]@)),
    {
        let mut list: Vec<Vec<u8>> = Vec::new();
        if n >= 2 {
            let m = n - 2;
            let mut a: usize = 0;
            while a <= m
                invariant
                    n <= 8,
                    m == n - 2,
                    0 <= a <= m + 1,
                    strictly_listed(views(list@)),
                    forall|x: Seq<u8>| views(list@).contains(x) ==> is_listed_endgame(x, n as int),
                    forall|wa: Seq<u8>, wb: Seq<u8>|
                        is_word(wa, wa.len(), 0, 5) && is_word(wb, wb.len(), 0, 5) && wa.len() + wb.len() == m
                            && wa.len() < a ==> #[trigger] pair_listed_in(views(list@), wa, wb),
                decreases m + 1 - a,
            {
                let b = m - a;
                let combos_a = nondecreasing_words(a, 5);
                let combos_b = nondecreasing_words(b, 5);
                let ghost wsa = words(a as nat, 0, 5);
                let ghost wsb = words(b as nat, 0, 5);
                assert(views(combos_a@) == wsa);
                assert(views(combos_b@) == wsb);
                let mut ia: usize = 0;
                while ia < combos_a.len()
                    invariant
                        n <= 8,
                        m == n - 2,
                        a <= m,
                        b == m - a,
                        views(combos_a@) == wsa,
                        views(combos_b@) == wsb,
                        wsa == words(a as nat, 0, 5),
                        wsb == words(b as nat, 0, 5),
                        0 <= ia <= combos_a.len(),
                        strictly_listed(views(list@)),
                        forall|x: Seq<u8>| views(list@).contains(x) ==> is_listed_endgame(x, n as int),
                        forall|wa: Seq<u8>, wb: Seq<u8>|
                            is_word(wa, wa.len(), 0, 5) && is_word(wb, wb.len(), 0, 5) && wa.len() + wb.len() == m
                                && wa.len() < a ==> #[trigger] pair_listed_in(views(list@), wa, wb),
                        forall|ka: int, wb: Seq<u8>|
                            0 <= ka < ia && wsb.contains(wb) ==> #[trigger] pair_listed_in(views(list@), wsa[ka], wb),
                    decreases combos_a.len() - ia,
                {
                    let sa = side_bytes(&combos_a[ia]);
                    let mut ib: usize = 0;
                    while ib < combos_b.len()
                        invariant
                            n <= 8,
                            m == n - 2,
                            a <= m,
                            b == m - a,
                            views(combos_a@) == wsa,
                            views(combos_b@) == wsb,
                            wsa == words(a as nat, 0, 5),
                            wsb == words(b as nat, 0, 5),
                            0 <= ia < combos_a.len(),
                            sa@ == side_word(wsa[ia as int]),
                            0 <= ib <= combos_b.len(),
                            strictly_listed(views(list@)),
                            forall|x: Seq<u8>| views(list@).contains(x) ==> is_listed_endgame(x, n as int),
                            forall|wa: Seq<u8>, wb: Seq<u8>|
                                is_word(wa, wa.len(), 0, 5) && is_word(wb, wb.len(), 0, 5) && wa.len() + wb.len() == m
                                    && wa.len() < a ==> #[trigger] pair_listed_in(views(list@), wa, wb),
                            forall|ka: int, wb: Seq<u8>|
                                0 <= ka < ia && wsb.contains(wb) ==> #[trigger] pair_listed_in(views(list@), wsa[ka], wb),
                            forall|kb: int|
                                0 <= kb < ib ==> #[trigger] pair_listed_in(views(list@), wsa[ia as int], wsb[kb]),
                        decreases combos_b.len() - ib,
                    {
                        let sb = side_bytes(&combos_b[ib]);
                        let ghost wa = wsa[ia as int];
                        let ghost wb = wsb[ib as int];
                        proof {
                            assert(wsa.contains(wa));
                            assert(wsb.contains(wb));
                            lemma_words_sound(a as nat, 0, 5, wa);
                            lemma_words_sound(b as nat, 0, 5, wb);
                        }
                        let ghost before = views(list@);
                        if !bytes_lt(&sa, &sb) {
                            let name = join_sides(&sa, &sb);
                            assert(name@ == endgame_of_words(wa, wb));
                            insert_listed(&mut list, name);
                            assert(views(list@).contains(endgame_of_words(wa, wb)));
                        }
                        proof {
                            let after = views(list@);
                            assert forall|x: Seq<u8>| before.contains(x) implies after.contains(x) by {}
                            assert forall|x: Seq<u8>| after.contains(x) implies is_listed_endgame(x, n as int) by {
                                if !before.contains(x) {
                                    assert(is_word(wa, wa.len(), 0, 5) && is_word(wb, wb.len(), 0, 5));
                                    assert(x == endgame_of_words(wa, wb));
                                }
                            }
                            assert forall|wa2: Seq<u8>, wb2: Seq<u8>|
                                is_word(wa2, wa2.len(), 0, 5) && is_word(wb2, wb2.len(), 0, 5) && wa2.len() + wb2.len() == m
                                    && wa2.len() < a implies #[trigger] pair_listed_in(after, wa2, wb2) by {
                                assert(pair_listed_in(before, wa2, wb2));
                            }
                            assert forall|ka: int, wb2: Seq<u8>|
                                0 <= ka < ia && wsb.contains(wb2) implies #[trigger] pair_listed_in(after, wsa[ka], wb2) by {
                                assert(pair_listed_in(before, wsa[ka], wb2));
                            }
                            assert forall|kb: int|
                                0 <= kb < ib + 1 implies #[trigger] pair_listed_in(after, wsa[ia as int], wsb[kb]) by {
                                if kb < ib {
                                    assert(pair_listed_in(before, wsa[ia as int], wsb[kb]));
                                }
                            }
                        }
                        ib += 1;
                    }
                    proof {
                        let l = views(list@);
                        assert forall|ka: int, wb: Seq<u8>|
                            0 <= ka < ia + 1 && wsb.contains(wb) implies #[trigger] pair_listed_in(l, wsa[ka], wb) by {
                            if ka == ia {
                                let kb = choose|kb: int| 0 <= kb < wsb.len() && wsb[kb] == wb;
                                assert(pair_listed_in(l, wsa[ia as int], wsb[kb]));
                            }
                        }
                    }
                    ia += 1;
                }
                proof {
                    let l = views(list@);
                    assert forall|wa: Seq<u8>, wb: Seq<u8>|
                        is_word(wa, wa.len(), 0, 5) && is_word(wb, wb.len(), 0, 5) && wa.len() + wb.len() == m
                            && wa.len() < a + 1 implies #[trigger] pair_listed_in(l, wa, wb) by {
                        if wa.len() == a {
                            lemma_words_complete(a as nat, 0, 5, wa);
                            lemma_words_complete(b as nat, 0, 5, wb);
                            let ka = choose|ka: int| 0 <= ka < wsa.len() && wsa[ka] == wa;
                            assert(pair_listed_in(l, wsa[ka], wb));
                        }
                    }
                }
                a += 1;
            }
        }
        let ghost names = views(list@);
        let mut result: Vec<String> = Vec::new();
        let mut k: usize = 0;
        while k < list.len()
            invariant
                0 <= k <= list.len(),
                names == views(list@),
                result.len() == k,
                forall|x: Seq<u8>| names.contains(x) ==> is_listed_endgame(x, n as int),
                forall|i: int| 0 <= i < k ==> ascii_bytes(#[trigger] result@[i]@) == names[i],
                forall|i: int| 0 <= i < k ==> #[trigger] result@[i]@ == ascii_chars(names[i]),
            decreases list.len() - k,
        {
            let bytes = list[k].clone();
            assert(bytes@ == names[k as int]);
            assert(names.contains(bytes@));
            proof {
                let (wa, wb) = choose|wa: Seq<u8>, wb: Seq<u8>|
                    is_word(wa, wa.len(), 0, 5) && is_word(wb, wb.len(), 0, 5) && wa.len() + wb.len() == n - 2
                        && !lex_lt(side_word(wa), side_word(wb)) && bytes@ == #[trigger] endgame_of_words(wa, wb);
                lemma_name_ascii(wa, wb);
                lemma_ascii_round_trip(bytes@);
            }
            result.push(string_from_ascii(bytes));
            k += 1;
        }
        proof {
            assert forall|name: Seq<u8>| is_listed_endgame(name, n as int) implies exists|i: int|
                0 <= i < result.len() && ascii_bytes(#[trigger] result@[i]@) == name by {
                let (wa, wb) = choose|wa: Seq<u8>, wb: Seq<u8>|
                    is_word(wa, wa.len(), 0, 5) && is_word(wb, wb.len(), 0, 5) && wa.len() + wb.len() == n - 2
                        && !lex_lt(side_word(wa), side_word(wb)) && name == #[trigger] endgame_of_words(wa, wb);
                assert(pair_listed_in(names, wa, wb));
                let i = choose|i: int| 0 <= i < names.len() && names[i] == name;
                assert(ascii_bytes(result@[i]@) == name);
            }
        }
        result
    }
}

} // verus!
