//! One endgame table: a set of pieces (pawns on given files), its name and
//! the indexer of its positions.

use vstd::prelude::*;
use crate::board::{BoardPosition, Color, fen_of, fen_legal_ep};
use crate::error::EgtError;
use crate::indexer::{Indexer, IndexerScratch, pieces_total, listing_ok, files_fit, listed_elements, ep_fit};
use crate::names::{ascii_chars, all_ascii, string_from_ascii};
use crate::piece_set::{EgtRole, EgtSide, File, role_index, side_index, file_index};
use crate::combinatorics::MAX_PIECES;
use crate::encoding::{files_grouped, side_color};

verus! {

/// A piece list entry: role, side and multiplicity.
pub type PieceEntry = (EgtRole, EgtSide, usize);

/// Entries are ordered by role, then side, then multiplicity (pawns first,
/// by file, then king, queen, rook, bishop, knight).
pub open spec fn entry_le(a: PieceEntry, b: PieceEntry) -> bool {
    ||| role_index(a.0) < role_index(b.0)
    ||| role_index(a.0) == role_index(b.0) && side_index(a.1) < side_index(b.1)
    ||| role_index(a.0) == role_index(b.0) && side_index(a.1) == side_index(b.1) && a.2 <= b.2
}

/// The entries are in increasing order.
pub open spec fn entries_sorted(s: Seq<PieceEntry>) -> bool {
    forall|a: int, b: int| 0 <= a < b < s.len() ==> entry_le(#[trigger] s[a], #[trigger] s[b])
}

/// `unit` repeated `n` times.
pub open spec fn repeat_bytes(unit: Seq<u8>, n: nat) -> Seq<u8>
    decreases n,
{
    if n == 0 {
        Seq::empty()
    } else {
        repeat_bytes(unit, (n - 1) as nat) + unit
    }
}

/// The text of the first `e` entries with the given role and side: `unit`
/// once per piece.
pub open spec fn entries_text(pieces: Seq<PieceEntry>, e: int, side: EgtSide, role: EgtRole, unit: Seq<u8>) -> Seq<u8>
    decreases e,
{
    if e <= 0 {
        Seq::empty()
    } else {
        entries_text(pieces, e - 1, side, role, unit) + (if pieces[e - 1].0 == role && pieces[e - 1].1 == side {
            repeat_bytes(unit, pieces[e - 1].2 as nat)
        } else {
            Seq::empty()
        })
    }
}

/// The name of a pawn on file `f`, such as `Pc`.
pub open spec fn pawn_unit(f: nat) -> Seq<u8> {
    seq![80u8, (97 + f) as u8]
}

/// The text of the pawns of a side on files below `f`, file by file.
pub open spec fn pawns_text(pieces: Seq<PieceEntry>, side: EgtSide, f: nat) -> Seq<u8>
    decreases f,
{
    if f == 0 {
        Seq::empty()
    } else {
        let g = (f - 1) as nat;
        pawns_text(pieces, side, g) + entries_text(pieces, pieces.len() as int, side, EgtRole::Pawn(file_of(g)), pawn_unit(g))
    }
}

/// The file with index `f` (`H` above 7).
pub open spec fn file_of(f: nat) -> File {
    if f == 0 {
        File::A
    } else if f == 1 {
        File::B
    } else if f == 2 {
        File::C
    } else if f == 3 {
        File::D
    } else if f == 4 {
        File::E
    } else if f == 5 {
        File::F
    } else if f == 6 {
        File::G
    } else {
        File::H
    }
}

/// The name of the pieces of one side: `K`, then queens, rooks, bishops,
/// knights, then pawns by file (`KRPbPc`).
pub open spec fn side_text(pieces: Seq<PieceEntry>, side: EgtSide) -> Seq<u8> {
    seq![75u8] + entries_text(pieces, pieces.len() as int, side, EgtRole::Queen, seq![81u8]) + entries_text(
        pieces,
        pieces.len() as int,
        side,
        EgtRole::Rook,
        seq![82u8],
    ) + entries_text(pieces, pieces.len() as int, side, EgtRole::Bishop, seq![66u8]) + entries_text(
        pieces,
        pieces.len() as int,
        side,
        EgtRole::Knight,
        seq![78u8],
    ) + pawns_text(pieces, side, 8)
}

/// The name of a table: the side to move, `_`, the other side (`KQ_KPa`).
pub open spec fn tablename_of(pieces: Seq<PieceEntry>) -> Seq<u8> {
    side_text(pieces, EgtSide::SideToMove) + seq![95u8] + side_text(pieces, EgtSide::SideNotToMove)
}

/// One endgame table with its indexer.
#[derive(Clone, Debug)]
pub struct Egt {
    /// The pieces appearing in this table, with their multiplicity.
    pub pieces: Vec<PieceEntry>,
    /// The indexer of the positions of this table.
    pub indexer: Indexer,
    /// Working state used to encode and decode positions.
    pub scratch: IndexerScratch,
    /// The name of this table (e.g. "KQ_KPa").
    pub tablename: String,
}

impl Egt {
    pub open spec fn wf(&self) -> bool {
        &&& self.indexer.wf()
        &&& self.indexer.scratch_wf(&self.scratch)
        &&& self.indexer.piece_set@.len() == self.pieces@.len()
        &&& forall|e: int| 0 <= e < self.pieces@.len() ==> (#[trigger] self.indexer.piece_set@[e]).role == self.pieces@[e].0
            && self.indexer.piece_set@[e].side == self.pieces@[e].1 && self.indexer.piece_set@[e].multiplicity == self.pieces@[e].2
        &&& self.tablename@ == ascii_chars(tablename_of(self.pieces@))
        &&& entries_sorted(self.pieces@)
    }

    /// The set of pieces appearing in this table, with their multiplicity.
    pub fn pieces(&self) -> (r: &Vec<PieceEntry>)
        ensures
            r == &self.pieces,
    {
        &self.pieces
    }

    /// The number of pawns.
    pub fn n_pawns(&self) -> (r: usize)
        ensures
            r == self.indexer.n_pawns,
    {
        self.indexer.n_pawns
    }

    /// Whether this is a pawnless endgame.
    pub fn is_pawnless(&self) -> (r: bool)
        ensures
            r == (self.indexer.n_pawns == 0),
    {
        self.indexer.n_pawns == 0
    }

    /// The total number of positions indexed in this table.
    pub fn index_range(&self) -> (r: u64)
        ensures
            r == self.indexer.index_range,
    {
        self.indexer.index_range
    }

    /// The name of this table (e.g. "KQ_KPa").
    pub fn tablename(&self) -> (r: &String)
        ensures
            r == &self.tablename,
    {
        &self.tablename
    }

    /// Sets up a table from a set of pieces, listed in any order.
    pub fn from_pieces(pieces: Vec<PieceEntry>) -> (r: Result<Egt, EgtError>)
        ensures
            pieces_total(pieces@, pieces@.len() as int) > MAX_PIECES ==> r == Err::<Egt, EgtError>(
                EgtError::InvalidPieceConfig("too many pieces"),
            ),
            r matches Ok(egt) ==> egt.wf() && egt.pieces@.to_multiset() == pieces@.to_multiset(),
            forall|s: Seq<PieceEntry>| #[trigger] s.to_multiset() == pieces@.to_multiset() && entries_sorted(s) && listing_ok(s)
                && files_fit(listed_elements(s)) && ep_fit(s) ==> r is Ok,
    {
        let ghost orig = pieces@;
        let mut pieces = pieces;
        sort_entries(&mut pieces);
        proof {
            assert forall|s: Seq<PieceEntry>| #[trigger] s.to_multiset() == orig.to_multiset() && entries_sorted(s) implies s
                == pieces@ by {
                lemma_sorted_unique(s, pieces@);
            }
        }
        let indexer = match Indexer::from_pieces(&pieces) {
            Ok(ix) => ix,
            Err(e) => return Err(e),
        };
        let tablename = compute_tablename(&pieces);
        let scratch = indexer.create_scratch();
        Ok(Egt { pieces, indexer, scratch, tablename })
    }

    /// Encodes a position as the index of this table that stands for it.
    /// Returns None when the position is not one of this table.
    pub fn position_to_index(&mut self, position: &BoardPosition) -> (r: Option<u64>)
        requires
            old(self).wf(),
            position.wf(),
        ensures
            final(self).wf(),
            final(self).indexer == old(self).indexer,
            final(self).pieces == old(self).pieces,
            final(self).tablename == old(self).tablename,
            r matches Some(i) ==> i < final(self).indexer.index_range && fen_legal_ep(
                fen_of(position.squares@, position.turn, position.ep_square),
            ) is Some,
            forall|i: u64| #[trigger] old(self).indexer.decodes(i, *position) ==> r == Some(i),
    {
        proof {
            self.lemma_files_grouped();
        }
        self.indexer.position_to_index(&mut self.scratch, position)
    }

    /// Decodes an index as a position of this table with the given side to
    /// move. Returns None when the index stands for no legal position.
    pub fn position_from_index(&mut self, index: u64, side_to_move: Color) -> (r: Option<BoardPosition>)
        requires
            old(self).wf(),
            index < old(self).indexer.index_range,
        ensures
            final(self).wf(),
            final(self).indexer == old(self).indexer,
            final(self).pieces == old(self).pieces,
            final(self).tablename == old(self).tablename,
            r matches Some(p) ==> p.wf() && p.turn == side_to_move && fen_legal_ep(fen_of(p.squares@, p.turn, p.ep_square))
                == Some(p.ep_square),
            r matches Some(p) ==> old(self).indexer.decodes(index, p),
            (exists|p: BoardPosition| #[trigger] old(self).indexer.decodes(index, p) && p.turn == side_to_move) ==> r is Some,
    {
        proof {
            self.lemma_files_grouped();
        }
        self.indexer.position_from_index(&mut self.scratch, index, side_to_move)
    }

    /// The pawns of a side on a file of a position that an index of the table
    /// stands for are the pawns of the table's entry of that side and file,
    /// and there are none when the table has no such entry.
    pub proof fn lemma_decoded_pawn_entries(&self, index: u64, p: BoardPosition, side: EgtSide, f: int)
        requires
            self.wf(),
            p.squares@.len() == 64,
            0 <= f < 8,
            self.indexer.decodes(index, p),
        ensures
            forall|e: int| 0 <= e < self.pieces@.len() && (#[trigger] self.pieces@[e]).0 == EgtRole::Pawn(file_of(f as nat))
                && self.pieces@[e].1 == side ==> crate::egt_file::pawns_on_file(p.squares@, side_color(side, p.turn), f, 8)
                == self.pieces@[e].2,
            (forall|e: int| 0 <= e < self.pieces@.len() ==> !((#[trigger] self.pieces@[e]).0 == EgtRole::Pawn(file_of(f as nat))
                && self.pieces@[e].1 == side)) ==> crate::egt_file::pawns_on_file(p.squares@, side_color(side, p.turn), f, 8) == 0,
    {
        self.lemma_files_grouped();
        let color = side_color(side, p.turn);
        self.indexer.lemma_decoded_pawn_files(index, p, color, f);
        let ps = self.indexer.piece_set@;
        assert forall|e: int| 0 <= e < ps.len() implies (side_color(ps[e].side, p.turn) == color <==> #[trigger] ps[e].side == side) by {
            match ps[e].side {
                EgtSide::SideToMove => {},
                EgtSide::SideNotToMove => {},
            }
            match side {
                EgtSide::SideToMove => {},
                EgtSide::SideNotToMove => {},
            }
            match p.turn {
                Color::White => {},
                Color::Black => {},
            }
        }
        assert forall|e: int| 0 <= e < self.pieces@.len() && (#[trigger] self.pieces@[e]).0 == EgtRole::Pawn(file_of(f as nat))
            && self.pieces@[e].1 == side implies crate::egt_file::pawns_on_file(p.squares@, color, f, 8) == self.pieces@[e].2 by {
            assert(ps[e].role == self.pieces@[e].0 && ps[e].side == self.pieces@[e].1 && ps[e].multiplicity == self.pieces@[e].2);
        }
        if forall|e: int| 0 <= e < self.pieces@.len() ==> !((#[trigger] self.pieces@[e]).0 == EgtRole::Pawn(file_of(f as nat))
            && self.pieces@[e].1 == side) {
            assert forall|e: int| 0 <= e < ps.len() implies !((#[trigger] ps[e]).role == EgtRole::Pawn(file_of(f as nat))
                && side_color(ps[e].side, p.turn) == color) by {
                assert(ps[e].role == self.pieces@[e].0 && ps[e].side == self.pieces@[e].1);
            }
        }
    }

    /// The pawn entries of one file of a table come one after the other.
    pub proof fn lemma_files_grouped(&self)
        requires
            self.wf(),
        ensures
            files_grouped(self.indexer.piece_set@, self.indexer.n_unique_pawns as int),
    {
        self.indexer.lemma_scratch_distinct(&self.scratch);
        let ps = self.indexer.piece_set@;
        let s = self.pieces@;
        let nup = self.indexer.n_unique_pawns as int;
        assert forall|a: int, b: int| 0 <= a < b < nup && (#[trigger] ps[a]).role == (#[trigger] ps[b]).role implies b == a + 1 by {
            if b > a + 1 {
                let m = a + 1;
                assert(entry_le(s[a], s[m]));
                assert(entry_le(s[m], s[b]));
                assert(entry_le(s[a], s[b]));
                assert(ps[m].role == s[m].0);
                crate::piece_set::lemma_role_index_injective(ps[a].role, ps[m].role);
                assert(!(ps[a].role == ps[m].role && ps[a].side == ps[m].side));
                assert(!(ps[m].role == ps[b].role && ps[m].side == ps[b].side));
                assert(!(ps[a].role == ps[b].role && ps[a].side == ps[b].side));
            }
        }
    }

    /// For a pawnless table, the index of the diagonal reflection of the
    /// position of `index` when both kings stand on the a1-h8 diagonal (see
    /// `Indexer::diagonal_symmetric`).
    pub fn diagonal_symmetric(&mut self, index: u64) -> (r: Result<Option<u64>, EgtError>)
        requires
            old(self).wf(),
        ensures
            final(self).wf(),
            final(self).indexer == old(self).indexer,
            final(self).pieces == old(self).pieces,
            final(self).tablename == old(self).tablename,
            old(self).indexer.n_pawns != 0 ==> r == Ok::<Option<u64>, EgtError>(None),
            forall|p: BoardPosition| old(self).indexer.n_pawns == 0 && #[trigger] old(self).indexer.decodes_pawnless(index, p)
                && !old(self).indexer.kings_on_diagonal(p) ==> r == Ok::<Option<u64>, EgtError>(None),
            forall|i2: u64, p: BoardPosition, q: BoardPosition| old(self).indexer.n_pawns == 0 && #[trigger] old(self).indexer.decodes_pawnless(
                index,
                p,
            ) && old(self).indexer.kings_on_diagonal(p) && crate::encoding::transposed(q, p) && #[trigger] old(
                self,
            ).indexer.decodes_pawnless(i2, q) ==> r == Ok::<Option<u64>, EgtError>(Some(i2)),
            old(self).indexer.n_pawns == 0 && index >= old(self).indexer.index_range ==> r is Err,
            r matches Ok(Some(v)) ==> v < old(self).indexer.index_range,
    {
        self.indexer.diagonal_symmetric(&mut self.scratch, index)
    }
}

/// The key of an entry, whose lexicographic order is the order of entries.
fn entry_less(a: &PieceEntry, b: &PieceEntry) -> (r: bool)
    ensures
        r == !entry_le(*b, *a),
{
    let ra = a.0.to_index();
    let rb = b.0.to_index();
    let sa: usize = match a.1 {
        EgtSide::SideToMove => 0,
        EgtSide::SideNotToMove => 1,
    };
    let sb: usize = match b.1 {
        EgtSide::SideToMove => 0,
        EgtSide::SideNotToMove => 1,
    };
    ra < rb || (ra == rb && (sa < sb || (sa == sb && a.2 < b.2)))
}

/// Entries in order are equal when they have the same value.
proof fn lemma_entry_le_antisymmetric(a: PieceEntry, b: PieceEntry)
    requires
        entry_le(a, b),
        entry_le(b, a),
    ensures
        a == b,
{
    crate::piece_set::lemma_role_index_injective(a.0, b.0);
    match a.1 {
        EgtSide::SideToMove => {},
        EgtSide::SideNotToMove => {},
    }
    match b.1 {
        EgtSide::SideToMove => {},
        EgtSide::SideNotToMove => {},
    }
}

/// Two sorted lists of the same entries are equal.
proof fn lemma_sorted_unique(s: Seq<PieceEntry>, t: Seq<PieceEntry>)
    requires
        entries_sorted(s),
        entries_sorted(t),
        s.to_multiset() == t.to_multiset(),
    ensures
        s == t,
    decreases s.len(),
{
    broadcast use vstd::seq_lib::group_to_multiset_ensures;

    assert(s.len() == s.to_multiset().len());
    assert(t.len() == t.to_multiset().len());
    if s.len() > 0 {
        let x = s[0];
        let y = t[0];
        assert(s.contains(x));
        assert(s.to_multiset().count(x) > 0);
        assert(t.contains(x));
        let j = choose|j: int| 0 <= j < t.len() && t[j] == x;
        if j > 0 {
            assert(entry_le(t[0], t[j]));
        }
        assert(entry_le(y, x));
        assert(t.to_multiset().count(y) > 0);
        assert(s.contains(y));
        let i = choose|i: int| 0 <= i < s.len() && s[i] == y;
        if i > 0 {
            assert(entry_le(s[0], s[i]));
        }
        assert(entry_le(x, y));
        lemma_entry_le_antisymmetric(x, y);
        let s1 = s.remove(0);
        let t1 = t.remove(0);
        assert(s1.to_multiset() =~= s.to_multiset().remove(x));
        assert(t1.to_multiset() =~= t.to_multiset().remove(y));
        assert(entries_sorted(s1)) by {
            assert forall|a: int, b: int| 0 <= a < b < s1.len() implies entry_le(#[trigger] s1[a], #[trigger] s1[b]) by {
                assert(s1[a] == s[a + 1] && s1[b] == s[b + 1]);
            }
        }
        assert(entries_sorted(t1)) by {
            assert forall|a: int, b: int| 0 <= a < b < t1.len() implies entry_le(#[trigger] t1[a], #[trigger] t1[b]) by {
                assert(t1[a] == t[a + 1] && t1[b] == t[b + 1]);
            }
        }
        lemma_sorted_unique(s1, t1);
        assert(s =~= seq![x] + s1);
        assert(t =~= seq![y] + t1);
    } else {
        assert(t.len() == 0);
        assert(s =~= t);
    }
}

/// Sorts the entries (insertion sort).
fn sort_entries(v: &mut Vec<PieceEntry>)
    ensures
        entries_sorted(final(v)@),
        final(v)@.to_multiset() == old(v)@.to_multiset(),
        final(v)@.len() == old(v)@.len(),
        pieces_total(final(v)@, final(v)@.len() as int) == pieces_total(old(v)@, old(v)@.len() as int),
{
    broadcast use vstd::seq_lib::group_to_multiset_ensures, vstd::multiset::group_multiset_properties;

    let n = v.len();
    if n <= 1 {
        return;
    }
    let mut i: usize = 1;
    while i < n
        invariant
            1 <= i <= n == v@.len(),
            v@.to_multiset() == old(v)@.to_multiset(),
            pieces_total(v@, n as int) == pieces_total(old(v)@, n as int),
            forall|a: int, b: int| 0 <= a < b < i ==> entry_le(#[trigger] v@[a], #[trigger] v@[b]),
        decreases n - i,
    {
        let mut j: usize = i;
        while j > 0 && entry_less(&v[j], &v[j - 1])
            invariant
                0 <= j <= i < n == v@.len(),
                v@.to_multiset() == old(v)@.to_multiset(),
                pieces_total(v@, n as int) == pieces_total(old(v)@, n as int),
                forall|a: int, b: int| 0 <= a < b <= i && a != j && b != j ==> entry_le(#[trigger] v@[a], #[trigger] v@[b]),
                forall|b: int| j < b <= i ==> entry_le(v@[j as int], #[trigger] v@[b]),
            decreases j,
        {
            let x = v[j - 1];
            let y = v[j];
            let ghost before = v@;
            v.set(j - 1, y);
            v.set(j, x);
            proof {
                assert(v@ == before.update(j - 1, before[j as int]).update(j as int, before[j - 1]));
                lemma_swap_multiset(before, j as int);
                lemma_total_swap(before, j as int, n as int);
            }
            j -= 1;
        }
        i += 1;
    }
}

/// Swapping two neighbouring entries keeps the total multiplicity.
proof fn lemma_total_swap(s: Seq<PieceEntry>, j: int, e: int)
    requires
        1 <= j < s.len(),
        0 <= e <= s.len(),
        e != j,
    ensures
        pieces_total(s.update(j - 1, s[j]).update(j, s[j - 1]), e) == pieces_total(s, e),
    decreases e,
{
    let t = s.update(j - 1, s[j]).update(j, s[j - 1]);
    if e < j {
        lemma_total_prefix(s, t, e);
    } else if e == j + 1 {
        lemma_total_prefix(s, t, j - 1);
        assert(pieces_total(t, j) == pieces_total(t, j - 1) + t[j - 1].2);
        assert(pieces_total(t, j + 1) == pieces_total(t, j) + t[j].2);
        assert(pieces_total(s, j) == pieces_total(s, j - 1) + s[j - 1].2);
        assert(pieces_total(s, j + 1) == pieces_total(s, j) + s[j].2);
    } else {
        lemma_total_swap(s, j, e - 1);
    }
}

/// Swapping two neighbouring entries keeps the multiset of entries.
proof fn lemma_swap_multiset(s: Seq<PieceEntry>, j: int)
    requires
        1 <= j < s.len(),
    ensures
        s.update(j - 1, s[j]).update(j, s[j - 1]).to_multiset() == s.to_multiset(),
{
    broadcast use vstd::multiset::group_multiset_axioms, vstd::multiset::group_multiset_properties;

    let x = s[j - 1];
    let y = s[j];
    let s1 = s.update(j - 1, y);
    let t = s1.update(j, x);
    vstd::seq_lib::to_multiset_update(s, j - 1, y);
    vstd::seq_lib::to_multiset_update(s1, j, x);
    assert(s1[j] == y);
    vstd::seq_lib::to_multiset_contains(s, x);
    assert(s.contains(x)) by {
        assert(s[j - 1] == x);
    }
    assert(t.to_multiset() =~= s.to_multiset());
}

proof fn lemma_total_prefix(s: Seq<PieceEntry>, t: Seq<PieceEntry>, e: int)
    requires
        0 <= e <= s.len(),
        e <= t.len(),
        forall|k: int| 0 <= k < e ==> s[k] == t[k],
    ensures
        pieces_total(s, e) == pieces_total(t, e),
    decreases e,
{
    if e > 0 {
        lemma_total_prefix(s, t, e - 1);
    }
}

/// Appends `unit` once per piece of the entries with the given role and side.
fn push_entries(out: &mut Vec<u8>, pieces: &Vec<PieceEntry>, side: EgtSide, role: EgtRole, unit: &Vec<u8>)
    requires
        all_ascii(old(out)@),
        all_ascii(unit@),
    ensures
        final(out)@ == old(out)@ + entries_text(pieces@, pieces@.len() as int, side, role, unit@),
        all_ascii(final(out)@),
{
    let mut e: usize = 0;
    while e < pieces.len()
        invariant
            0 <= e <= pieces.len(),
            all_ascii(unit@),
            all_ascii(out@),
            out@ == old(out)@ + entries_text(pieces@, e as int, side, role, unit@),
        decreases pieces.len() - e,
    {
        let (r, sd, m) = pieces[e];
        if r == role && sd == side {
            let ghost start = out@;
            let mut t: usize = 0;
            while t < m
                invariant
                    0 <= t <= m,
                    all_ascii(unit@),
                    all_ascii(out@),
                    out@ == start + repeat_bytes(unit@, t as nat),
                decreases m - t,
            {
                let ghost before = out@;
                let mut u: usize = 0;
                while u < unit.len()
                    invariant
                        0 <= u <= unit.len(),
                        all_ascii(unit@),
                        all_ascii(out@),
                        out@ == before + unit@.take(u as int),
                    decreases unit.len() - u,
                {
                    out.push(unit[u]);
                    u += 1;
                    assert(out@ =~= before + unit@.take(u as int));
                }
                assert(unit@.take(unit.len() as int) =~= unit@);
                t += 1;
                assert(out@ =~= start + repeat_bytes(unit@, t as nat));
            }
            assert(out@ =~= old(out)@ + entries_text(pieces@, e + 1, side, role, unit@));
        } else {
            assert(out@ =~= old(out)@ + entries_text(pieces@, e + 1, side, role, unit@));
        }
        e += 1;
    }
}

proof fn lemma_file_of(f: File)
    ensures
        file_of(file_index(f)) == f,
{
}

/// Appends the name of the pieces of one side (see `side_text`).
#[verifier::rlimit(40)]
#[verifier::spinoff_prover]
fn push_side(out: &mut Vec<u8>, pieces: &Vec<PieceEntry>, side: EgtSide)
    requires
        all_ascii(old(out)@),
    ensures
        final(out)@ == old(out)@ + side_text(pieces@, side),
        all_ascii(final(out)@),
{
    let ghost start = out@;
    let ghost len = pieces@.len() as int;
    out.push(75u8);
    let q: Vec<u8> = vec![81u8];
    let r: Vec<u8> = vec![82u8];
    let b: Vec<u8> = vec![66u8];
    let n: Vec<u8> = vec![78u8];
    assert(q@ =~= seq![81u8]);
    assert(r@ =~= seq![82u8]);
    assert(b@ =~= seq![66u8]);
    assert(n@ =~= seq![78u8]);
    push_entries(out, pieces, side, EgtRole::Queen, &q);
    push_entries(out, pieces, side, EgtRole::Rook, &r);
    push_entries(out, pieces, side, EgtRole::Bishop, &b);
    push_entries(out, pieces, side, EgtRole::Knight, &n);
    let ghost mid = out@;
    assert(mid =~= start + (seq![75u8] + entries_text(pieces@, len, side, EgtRole::Queen, seq![81u8]) + entries_text(
        pieces@,
        len,
        side,
        EgtRole::Rook,
        seq![82u8],
    ) + entries_text(pieces@, len, side, EgtRole::Bishop, seq![66u8]) + entries_text(
        pieces@,
        len,
        side,
        EgtRole::Knight,
        seq![78u8],
    )));
    let mut f: usize = 0;
    assert(mid + pawns_text(pieces@, side, 0) =~= mid);
    while f < 8
        invariant
            0 <= f <= 8,
            all_ascii(out@),
            out@ == mid + pawns_text(pieces@, side, f as nat),
        decreases 8 - f,
    {
        let file = File::new(f);
        proof {
            lemma_file_of(file);
        }
        let unit: Vec<u8> = vec![80u8, 97u8 + f as u8];
        assert(unit@ =~= pawn_unit(f as nat));
        push_entries(out, pieces, side, EgtRole::Pawn(file), &unit);
        f += 1;
        assert(out@ =~= mid + pawns_text(pieces@, side, f as nat));
    }
    assert(out@ =~= start + side_text(pieces@, side));
}

/// The name of the table of the pieces (see `tablename_of`).
fn compute_tablename(pieces: &Vec<PieceEntry>) -> (r: String)
    ensures
        r@ == ascii_chars(tablename_of(pieces@)),
{
    let mut out: Vec<u8> = Vec::new();
    push_side(&mut out, pieces, EgtSide::SideToMove);
    out.push(95u8);
    push_side(&mut out, pieces, EgtSide::SideNotToMove);
    assert(out@ =~= tablename_of(pieces@));
    string_from_ascii(out)
}

/// A table has at most eight pieces.
pub proof fn lemma_egt_pieces_total(egt: &Egt)
    requires
        egt.wf(),
    ensures
        crate::indexer::pieces_total(egt.pieces@, egt.pieces@.len() as int) <= MAX_PIECES,
{
    reveal(crate::indexer::layout_ok);
    lemma_total_is_mult(egt.pieces@, egt.indexer.piece_set@, egt.pieces@.len() as int);
}

proof fn lemma_total_is_mult(pieces: Seq<PieceEntry>, ps: Seq<crate::indexer::PieceSetElement>, k: int)
    requires
        0 <= k <= pieces.len(),
        ps.len() == pieces.len(),
        forall|e: int| 0 <= e < pieces.len() ==> (#[trigger] ps[e]).multiplicity == pieces[e].2,
    ensures
        pieces_total(pieces, k) == crate::indexer::mult_before(ps, k),
    decreases k,
{
    if k > 0 {
        lemma_total_is_mult(pieces, ps, k - 1);
    }
}

} // verus!
