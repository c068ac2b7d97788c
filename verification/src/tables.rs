//! The tables of an endgame: one per assignment of files to the pawns of each
//! side, up to the reflection of the board across the middle file.

use vstd::prelude::*;
use vstd::string::StringSliceAdditionalSpecFns;
use crate::egt::PieceEntry;
use crate::error::EgtError;
use crate::piece_set::{EgtRole, EgtSide, File, file_index};
use crate::words::{words, nondecreasing_words};
use crate::names::{lex_lt, bytes_lt};
use crate::egt::file_of;

verus! {

/// Number of occurrences of `c` in `s`.
pub open spec fn count_byte(s: Seq<u8>, c: u8) -> nat
    decreases s.len(),
{
    if s.len() == 0 {
        0
    } else {
        count_byte(s.drop_last(), c) + (if s.last() == c { 1nat } else { 0nat })
    }
}

/// Position of the first `_` of `s`, or `s.len()` when there is none.
pub open spec fn underscore_pos(s: Seq<u8>) -> int
    decreases s.len(),
{
    if s.len() == 0 {
        0
    } else if s[0] == 95u8 {
        0
    } else {
        1 + underscore_pos(s.drop_first())
    }
}

/// The letters of a side of an endgame name: `K`, `Q`, `R`, `B`, `N`, `P`.
pub open spec fn is_piece_letter(c: u8) -> bool {
    c == 75u8 || c == 81u8 || c == 82u8 || c == 66u8 || c == 78u8 || c == 80u8
}

/// A side of an endgame name: piece letters only, with one king.
pub open spec fn valid_side(s: Seq<u8>) -> bool {
    &&& forall|i: int| 0 <= i < s.len() ==> is_piece_letter(#[trigger] s[i])
    &&& count_byte(s, 75u8) == 1
}

/// The entries of the pieces other than pawns of a side, for the roles
/// king, queen, rook, bishop and knight in that order, omitting absent roles.
pub open spec fn side_entries(s: Seq<u8>, side: EgtSide) -> Seq<PieceEntry> {
    role_entry(s, side, EgtRole::King, 75u8) + role_entry(s, side, EgtRole::Queen, 81u8) + role_entry(s, side, EgtRole::Rook, 82u8)
        + role_entry(s, side, EgtRole::Bishop, 66u8) + role_entry(s, side, EgtRole::Knight, 78u8)
}

/// The entry of the pieces of a role written with letter `c`, if present.
pub open spec fn role_entry(s: Seq<u8>, side: EgtSide, role: EgtRole, c: u8) -> Seq<PieceEntry> {
    if count_byte(s, c) > 0 {
        seq![(role, side, count_byte(s, c) as usize)]
    } else {
        Seq::<PieceEntry>::empty()
    }
}

pub(crate) fn count_in(s: &[u8], lo: usize, hi: usize, c: u8) -> (r: usize)
    requires
        lo <= hi <= s@.len(),
    ensures
        r == count_byte(s@.subrange(lo as int, hi as int), c),
{
    let mut r: usize = 0;
    let mut i: usize = lo;
    while i < hi
        invariant
            lo <= i <= hi <= s@.len(),
            r == count_byte(s@.subrange(lo as int, i as int), c),
            r <= i - lo,
        decreases hi - i,
    {
        let ghost before = s@.subrange(lo as int, i as int);
        if s[i] == c {
            r += 1;
        }
        i += 1;
        assert(s@.subrange(lo as int, i as int).drop_last() =~= before);
    }
    r
}

pub proof fn lemma_underscore_pos(s: Seq<u8>)
    ensures
        0 <= underscore_pos(s) <= s.len(),
        underscore_pos(s) < s.len() ==> s[underscore_pos(s)] == 95u8,
        forall|i: int| 0 <= i < underscore_pos(s) ==> s[i] != 95u8,
    decreases s.len(),
{
    if s.len() > 0 && s[0] != 95u8 {
        lemma_underscore_pos(s.drop_first());
        assert forall|i: int| 0 <= i < underscore_pos(s) implies s[i] != 95u8 by {
            if i > 0 {
                assert(s[i] == s.drop_first()[i - 1]);
            }
        }
    }
}

/// Parses an endgame name such as `KRP_KP`: the number of pawns of the side
/// to move, of the other side, and the entries of the other pieces.
pub fn parse_endgame_name(endgame: &str) -> (r: Result<(usize, usize, Vec<PieceEntry>), EgtError>)
    ensures
        ({
            let b = endgame.spec_bytes();
            let u = underscore_pos(b);
            let stm = b.subrange(0, u);
            let sntm = b.subrange(u + 1, b.len() as int);
            &&& r is Ok <==> (u < b.len() && valid_side(stm) && valid_side(sntm))
            &&& r matches Ok(t) ==> t.0 == count_byte(stm, 80u8) && t.1 == count_byte(sntm, 80u8) && t.2@ == side_entries(
                stm,
                EgtSide::SideToMove,
            ) + side_entries(sntm, EgtSide::SideNotToMove)
        }),
{
    let b = endgame.as_bytes();
    let n = b.len();
    proof {
        lemma_underscore_pos(b@);
    }
    let mut u: usize = 0;
    while u < n && b[u] != 95u8
        invariant
            0 <= u <= n == b@.len(),
            forall|i: int| 0 <= i < u ==> b@[i] != 95u8,
        decreases n - u,
    {
        u += 1;
    }
    assert(u == underscore_pos(b@)) by {
        lemma_underscore_pos(b@);
        if u < underscore_pos(b@) {
            assert(b@[u as int] != 95u8);
        }
    }
    if u == n {
        return Err(EgtError::InvalidEndgameName { name: endgame.to_owned(), reason: "missing '_' separator" });
    }
    let stm = parse_side(b, 0, u, EgtSide::SideToMove);
    let sntm = parse_side(b, u + 1, n, EgtSide::SideNotToMove);
    match (stm, sntm) {
        (Some((stm_pawns, mut stm_pieces)), Some((sntm_pawns, mut sntm_pieces))) => {
            stm_pieces.append(&mut sntm_pieces);
            Ok((stm_pawns, sntm_pawns, stm_pieces))
        },
        _ => Err(EgtError::InvalidEndgameName { name: endgame.to_owned(), reason: "invalid side" }),
    }
}

/// Parses the side `b[lo..hi]` of a name: its number of pawns and its other
/// entries; None when it has another letter or not exactly one king.
fn parse_side(b: &[u8], lo: usize, hi: usize, side: EgtSide) -> (r: Option<(usize, Vec<PieceEntry>)>)
    requires
        lo <= hi <= b@.len(),
    ensures
        r is Some <==> valid_side(b@.subrange(lo as int, hi as int)),
        r matches Some(t) ==> t.0 == count_byte(b@.subrange(lo as int, hi as int), 80u8) && t.1@ == side_entries(
            b@.subrange(lo as int, hi as int),
            side,
        ),
{
    let ghost s = b@.subrange(lo as int, hi as int);
    let mut i: usize = lo;
    while i < hi
        invariant
            lo <= i <= hi <= b@.len(),
            forall|k: int| 0 <= k < i - lo ==> is_piece_letter(#[trigger] s[k]),
            s == b@.subrange(lo as int, hi as int),
        decreases hi - i,
    {
        let c = b[i];
        if !(c == 75u8 || c == 81u8 || c == 82u8 || c == 66u8 || c == 78u8 || c == 80u8) {
            assert(!is_piece_letter(s[i - lo]));
            return None;
        }
        i += 1;
    }
    let kings = count_in(b, lo, hi, 75u8);
    if kings != 1 {
        return None;
    }
    let mut entries: Vec<PieceEntry> = Vec::new();
    let roles: [(EgtRole, u8); 5] = [
        (EgtRole::King, 75u8),
        (EgtRole::Queen, 81u8),
        (EgtRole::Rook, 82u8),
        (EgtRole::Bishop, 66u8),
        (EgtRole::Knight, 78u8),
    ];
    let mut k: usize = 0;
    while k < 5
        invariant
            0 <= k <= 5,
            lo <= hi <= b@.len(),
            s == b@.subrange(lo as int, hi as int),
            roles@ == seq![
                (EgtRole::King, 75u8),
                (EgtRole::Queen, 81u8),
                (EgtRole::Rook, 82u8),
                (EgtRole::Bishop, 66u8),
                (EgtRole::Knight, 78u8),
            ],
            entries@ == (if k == 0 {
                Seq::<PieceEntry>::empty()
            } else if k == 1 {
                role_entry(s, side, EgtRole::King, 75u8)
            } else if k == 2 {
                role_entry(s, side, EgtRole::King, 75u8) + role_entry(s, side, EgtRole::Queen, 81u8)
            } else if k == 3 {
                role_entry(s, side, EgtRole::King, 75u8) + role_entry(s, side, EgtRole::Queen, 81u8) + role_entry(s, side, EgtRole::Rook, 82u8)
            } else if k == 4 {
                role_entry(s, side, EgtRole::King, 75u8) + role_entry(s, side, EgtRole::Queen, 81u8) + role_entry(s, side, EgtRole::Rook, 82u8) + role_entry(s, side, EgtRole::Bishop, 66u8)
            } else {
                role_entry(s, side, EgtRole::King, 75u8) + role_entry(s, side, EgtRole::Queen, 81u8) + role_entry(s, side, EgtRole::Rook, 82u8) + role_entry(s, side, EgtRole::Bishop, 66u8)
                    + role_entry(s, side, EgtRole::Knight, 78u8)
            }),
        decreases 5 - k,
    {
        let (role, c) = roles[k];
        let m = count_in(b, lo, hi, c);
        let ghost before = entries@;
        assert(m == count_byte(s, c));
        assert(count_byte(s, c) as usize == m);
        if m > 0 {
            entries.push((role, side, m));
            assert(role_entry(s, side, role, c) == seq![(role, side, m)]);
        } else {
            assert(role_entry(s, side, role, c) == Seq::<PieceEntry>::empty());
        }
        assert(entries@ =~= before + role_entry(s, side, role, c));
        k += 1;
    }
    let pawns = count_in(b, lo, hi, 80u8);
    Some((pawns, entries))
}

/// All multisets of `k` files, each listed by increasing file, in
/// lexicographic order.
pub fn get_file_combinations(k: usize) -> (r: Vec<Vec<File>>)
    ensures
        r@.len() == words(k as nat, 0, 8).len(),
        forall|i: int| 0 <= i < r@.len() ==> (#[trigger] r@[i])@.map_values(|f: File| file_index(f) as u8) == words(k as nat, 0, 8)[i],
{
    let ws = nondecreasing_words(k, 8);
    let ghost wv = ws@.map_values(|v: Vec<u8>| v@);
    let mut r: Vec<Vec<File>> = Vec::new();
    let mut i: usize = 0;
    while i < ws.len()
        invariant
            0 <= i <= ws.len(),
            wv == ws@.map_values(|v: Vec<u8>| v@),
            wv == words(k as nat, 0, 8),
            r@.len() == i,
            forall|t: int| 0 <= t < i ==> (#[trigger] r@[t])@.map_values(|f: File| file_index(f) as u8) == wv[t],
        decreases ws.len() - i,
    {
        let w = &ws[i];
        proof {
            assert(wv[i as int] == w@);
            crate::words::lemma_words_sound(k as nat, 0, 8, w@);
            assert(words(k as nat, 0, 8).contains(w@)) by {
                assert(words(k as nat, 0, 8)[i as int] == w@);
            }
        }
        let mut files: Vec<File> = Vec::new();
        let mut j: usize = 0;
        while j < w.len()
            invariant
                0 <= j <= w@.len(),
                forall|t: int| 0 <= t < w@.len() ==> w@[t] < 8,
                files@.len() == j,
                forall|t: int| 0 <= t < j ==> file_index(#[trigger] files@[t]) as u8 == w@[t],
            decreases w.len() - j,
        {
            files.push(File::new(w[j] as usize));
            j += 1;
        }
        assert(files@.map_values(|f: File| file_index(f) as u8) =~= w@);
        r.push(files);
        i += 1;
    }
    r
}

/// Number of files of index `f` in `s`.
pub open spec fn count_file(s: Seq<File>, f: nat) -> nat
    decreases s.len(),
{
    if s.len() == 0 {
        0
    } else {
        count_file(s.drop_last(), f) + (if file_index(s.last()) == f { 1nat } else { 0nat })
    }
}

/// `x` repeated `n` times.
pub open spec fn repeat_file(x: File, n: nat) -> Seq<File>
    decreases n,
{
    if n == 0 {
        Seq::empty()
    } else {
        repeat_file(x, (n - 1) as nat) + seq![x]
    }
}

/// The files of `s` reflected across the middle of the board (file `f`
/// becomes `7 - f`), listed by increasing file, for the files below `g`.
pub open spec fn reflected_upto(s: Seq<File>, g: nat) -> Seq<File>
    decreases g,
{
    if g == 0 {
        Seq::empty()
    } else {
        reflected_upto(s, (g - 1) as nat) + repeat_file(file_of((g - 1) as nat), count_file(s, (7 - (g - 1)) as nat))
    }
}

/// The files of `s` reflected, by increasing file.
pub open spec fn reflected(s: Seq<File>) -> Seq<File> {
    reflected_upto(s, 8)
}

/// File indexes of a list of files.
pub open spec fn file_indexes(s: Seq<File>) -> Seq<u8> {
    s.map_values(|f: File| file_index(f) as u8)
}

/// A pawn configuration is canonical when its file indexes (side to move,
/// then other side) are at most those of its reflection, in lexicographic
/// order.
pub open spec fn canonical(stm: Seq<File>, sntm: Seq<File>) -> bool {
    let a = file_indexes(stm);
    let b = file_indexes(sntm);
    let ra = file_indexes(reflected(stm));
    let rb = file_indexes(reflected(sntm));
    lex_lt(a, ra) || (a == ra && !lex_lt(rb, b))
}

/// Counts the files of each index.
fn file_counts(files: &Vec<File>) -> (r: Vec<usize>)
    ensures
        r@.len() == 8,
        forall|f: int| 0 <= f < 8 ==> #[trigger] r@[f] == count_file(files@, f as nat),
        forall|f: int| 0 <= f < 8 ==> r@[f] <= files@.len(),
{
    let mut counts: Vec<usize> = vec![0usize; 8];
    let mut i: usize = 0;
    while i < files.len()
        invariant
            0 <= i <= files.len(),
            counts@.len() == 8,
            forall|f: int| 0 <= f < 8 ==> #[trigger] counts@[f] == count_file(files@.take(i as int), f as nat),
            forall|f: int| 0 <= f < 8 ==> counts@[f] <= i,
        decreases files.len() - i,
    {
        let f = files[i].to_usize();
        counts.set(f, counts[f] + 1);
        i += 1;
        proof {
            assert forall|g: int| 0 <= g < 8 implies #[trigger] counts@[g] == count_file(files@.take(i as int), g as nat) by {
                assert(files@.take(i as int).drop_last() =~= files@.take(i - 1));
            }
        }
    }
    assert(files@.take(files.len() as int) =~= files@);
    counts
}

/// Reflects a list of files across the middle of the board (file `f`
/// becomes `7 - f`) and lists them by increasing file.
pub fn reflect_files(files: &Vec<File>) -> (r: Vec<File>)
    ensures
        r@ == reflected(files@),
{
    let counts = file_counts(files);
    let mut r: Vec<File> = Vec::new();
    let mut g: usize = 0;
    while g < 8
        invariant
            0 <= g <= 8,
            counts@.len() == 8,
            forall|f: int| 0 <= f < 8 ==> #[trigger] counts@[f] == count_file(files@, f as nat),
            r@ == reflected_upto(files@, g as nat),
        decreases 8 - g,
    {
        let x = File::new(g);
        proof {
            assert(file_of(g as nat) == x);
        }
        let m = counts[7 - g];
        let ghost start = r@;
        let mut t: usize = 0;
        while t < m
            invariant
                0 <= t <= m,
                r@ == start + repeat_file(x, t as nat),
            decreases m - t,
        {
            r.push(x);
            t += 1;
            assert(r@ =~= start + repeat_file(x, t as nat));
        }
        g += 1;
    }
    r
}

fn indexes_of(files: &Vec<File>) -> (r: Vec<u8>)
    ensures
        r@ == file_indexes(files@),
{
    let mut r: Vec<u8> = Vec::new();
    let mut i: usize = 0;
    while i < files.len()
        invariant
            0 <= i <= files.len(),
            r@ == file_indexes(files@.take(i as int)),
        decreases files.len() - i,
    {
        r.push(files[i].to_usize() as u8);
        i += 1;
        assert(r@ =~= file_indexes(files@.take(i as int)));
    }
    assert(files@.take(files.len() as int) =~= files@);
    r
}

/// Whether a pawn configuration is canonical (at most its horizontal
/// reflection in lexicographic order).
pub fn is_canonical(stm_files: &Vec<File>, sntm_files: &Vec<File>) -> (r: bool)
    ensures
        r == canonical(stm_files@, sntm_files@),
{
    let stm_ref = reflect_files(stm_files);
    let sntm_ref = reflect_files(sntm_files);
    let a = indexes_of(stm_files);
    let b = indexes_of(sntm_files);
    let ra = indexes_of(&stm_ref);
    let rb = indexes_of(&sntm_ref);
    if bytes_lt(&a, &ra) {
        true
    } else if bytes_lt(&ra, &a) {
        proof {
            crate::names::lemma_lex_asymmetric(ra@, a@);
            crate::names::lemma_lex_irreflexive(a@);
        }
        false
    } else {
        proof {
            crate::names::lemma_lex_total(a@, ra@);
        }
        !bytes_lt(&rb, &b)
    }
}

/// The pawn entries of a side for the files below `g`: one entry per file
/// with pawns, by increasing file.
pub open spec fn pawn_entries(s: Seq<File>, side: EgtSide, g: nat) -> Seq<PieceEntry>
    decreases g,
{
    if g == 0 {
        Seq::empty()
    } else {
        let f = (g - 1) as nat;
        pawn_entries(s, side, f) + (if count_file(s, f) > 0 {
            seq![(EgtRole::Pawn(file_of(f)), side, count_file(s, f) as usize)]
        } else {
            Seq::<PieceEntry>::empty()
        })
    }
}

fn push_pawn_entries(out: &mut Vec<PieceEntry>, files: &Vec<File>, side: EgtSide)
    ensures
        final(out)@ == old(out)@ + pawn_entries(files@, side, 8),
{
    let counts = file_counts(files);
    let mut g: usize = 0;
    while g < 8
        invariant
            0 <= g <= 8,
            counts@.len() == 8,
            forall|f: int| 0 <= f < 8 ==> #[trigger] counts@[f] == count_file(files@, f as nat),
            out@ == old(out)@ + pawn_entries(files@, side, g as nat),
        decreases 8 - g,
    {
        let x = File::new(g);
        proof {
            assert(file_of(g as nat) == x);
        }
        if counts[g] > 0 {
            out.push((EgtRole::Pawn(x), side, counts[g]));
        }
        g += 1;
        assert(out@ =~= old(out)@ + pawn_entries(files@, side, g as nat));
    }
}

/// The entries of a table: the other pieces, then the pawns of the side to
/// move and of the other side, one entry per file.
pub fn build_pieces(stm_files: &Vec<File>, sntm_files: &Vec<File>, other_pieces: &Vec<PieceEntry>) -> (r: Vec<PieceEntry>)
    ensures
        r@ == other_pieces@ + pawn_entries(stm_files@, EgtSide::SideToMove, 8) + pawn_entries(
            sntm_files@,
            EgtSide::SideNotToMove,
            8,
        ),
{
    let mut pieces: Vec<PieceEntry> = Vec::new();
    let mut i: usize = 0;
    while i < other_pieces.len()
        invariant
            0 <= i <= other_pieces.len(),
            pieces@ == other_pieces@.take(i as int),
        decreases other_pieces.len() - i,
    {
        pieces.push(other_pieces[i]);
        i += 1;
        assert(pieces@ =~= other_pieces@.take(i as int));
    }
    assert(other_pieces@.take(other_pieces.len() as int) =~= other_pieces@);
    push_pawn_entries(&mut pieces, stm_files, EgtSide::SideToMove);
    push_pawn_entries(&mut pieces, sntm_files, EgtSide::SideNotToMove);
    pieces
}

/// The file assignment of the pawns of both sides, as a fixed-size key.
#[derive(Clone, Copy, Debug, PartialEq, Eq, Hash)]
pub struct PawnKey {
    /// File indexes of the pawns of the side to move, then those of the
    /// other side plus 8, padded with 255.
    pub files: [u8; 8],
}

/// The key of a pawn configuration.
pub open spec fn key_of(stm: Seq<File>, sntm: Seq<File>) -> Seq<u8> {
    file_indexes(stm) + file_indexes(sntm).map_values(|x: u8| (x + 8) as u8) + Seq::new(
        (8 - stm.len() - sntm.len()) as nat,
        |i: int| 255u8,
    )
}

impl PawnKey {
    /// The key of the pawns of the side to move on `stm` and of the other side
    /// on `sntm` (at most eight pawns).
    pub fn new(stm: &Vec<File>, sntm: &Vec<File>) -> (r: PawnKey)
        requires
            stm@.len() + sntm@.len() <= 8,
        ensures
            r.files@ == key_of(stm@, sntm@),
    {
        let mut arr: [u8; 8] = [255u8; 8];
        let mut i: usize = 0;
        while i < stm.len()
            invariant
                0 <= i <= stm.len(),
                stm@.len() + sntm@.len() <= 8,
                arr@.len() == 8,
                forall|k: int| 0 <= k < i ==> #[trigger] arr@[k] == file_index(stm@[k]) as u8,
                forall|k: int| i <= k < 8 ==> #[trigger] arr@[k] == 255u8,
            decreases stm.len() - i,
        {
            arr.set(i, stm[i].to_usize() as u8);
            i += 1;
        }
        let mut j: usize = 0;
        while j < sntm.len()
            invariant
                0 <= j <= sntm.len(),
                i == stm.len(),
                stm@.len() + sntm@.len() <= 8,
                arr@.len() == 8,
                forall|k: int| 0 <= k < i ==> #[trigger] arr@[k] == file_index(stm@[k]) as u8,
                forall|k: int| 0 <= k < j ==> #[trigger] arr@[i + k] == (file_index(sntm@[k]) + 8) as u8,
                forall|k: int| i + j <= k < 8 ==> #[trigger] arr@[k] == 255u8,
            decreases sntm.len() - j,
        {
            arr.set(i + j, sntm[j].to_usize() as u8 + 8);
            j += 1;
        }
        proof {
            let key = key_of(stm@, sntm@);
            let a = file_indexes(stm@);
            let b = file_indexes(sntm@).map_values(|x: u8| (x + 8) as u8);
            assert(key.len() == 8);
            assert forall|k: int| 0 <= k < 8 implies arr@[k] == key[k] by {
                if k < i {
                    assert(key[k] == a[k]);
                } else if k < i + j {
                    assert(key[k] == b[k - i]);
                    assert(arr@[i + (k - i)] == (file_index(sntm@[k - i]) + 8) as u8);
                } else {
                    assert(key[k] == 255u8);
                }
            }
        }
        assert(arr@ =~= key_of(stm@, sntm@));
        PawnKey { files: arr }
    }
}

/// Whether two keys are equal.
pub fn key_eq(a: &PawnKey, b: &PawnKey) -> (r: bool)
    ensures
        r == (a.files@ == b.files@),
{
    let mut i: usize = 0;
    while i < 8
        invariant
            0 <= i <= 8,
            a.files@.len() == 8,
            b.files@.len() == 8,
            forall|k: int| 0 <= k < i ==> a.files@[k] == b.files@[k],
        decreases 8 - i,
    {
        if a.files[i] != b.files[i] {
            return false;
        }
        i += 1;
    }
    assert(a.files@ =~= b.files@);
    true
}

/// Whether key `a` comes before key `b` in lexicographic order.
pub fn key_lt(a: &PawnKey, b: &PawnKey) -> (r: bool)
    ensures
        r == lex_lt(a.files@, b.files@),
{
    let va = key_bytes(a);
    let vb = key_bytes(b);
    bytes_lt(&va, &vb)
}

fn key_bytes(k: &PawnKey) -> (r: Vec<u8>)
    ensures
        r@ == k.files@,
{
    let mut r: Vec<u8> = Vec::new();
    let mut i: usize = 0;
    while i < 8
        invariant
            0 <= i <= 8,
            k.files@.len() == 8,
            r@ == k.files@.take(i as int),
        decreases 8 - i,
    {
        r.push(k.files[i]);
        i += 1;
        assert(r@ =~= k.files@.take(i as int));
    }
    assert(k.files@.take(8) =~= k.files@);
    r
}

} // verus!
