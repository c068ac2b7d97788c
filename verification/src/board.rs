//! Plain-value chess positions: a board of 64 squares (index `rank * 8 + file`,
//! a1 = 0, h8 = 63), the side to move and the en passant target square.
//! Legality is decided by the `shakmaty` crate, through a FEN string.

use vstd::prelude::*;

verus! {

#[derive(Clone, Copy, Debug, PartialEq, Eq, Structural)]
pub enum Color {
    White,
    Black,
}

#[derive(Clone, Copy, Debug, PartialEq, Eq, Structural)]
pub enum Role {
    Pawn,
    Knight,
    Bishop,
    Rook,
    Queen,
    King,
}

#[derive(Clone, Copy, Debug, PartialEq, Eq, Structural)]
pub struct Piece {
    pub color: Color,
    pub role: Role,
}

/// A position given by its pieces, side to move and en passant target square
/// (castling rights are never present in endgame tables).
#[derive(Clone, Debug)]
pub struct BoardPosition {
    pub turn: Color,
    pub squares: Vec<Option<Piece>>,
    pub ep_square: Option<u8>,
}

impl BoardPosition {
    /// 64 squares and an en passant square on the board.
    pub open spec fn wf(&self) -> bool {
        &&& self.squares.len() == 64
        &&& self.ep_square matches Some(s) ==> s < 64
    }
}

pub open spec fn opposite(c: Color) -> Color {
    match c {
        Color::White => Color::Black,
        Color::Black => Color::White,
    }
}

impl Color {
    pub fn other(&self) -> (r: Color)
        ensures
            r == opposite(*self),
    {
        match self {
            Color::White => Color::Black,
            Color::Black => Color::White,
        }
    }
}

/// FEN letter of a piece: upper case for white, lower case for black.
pub open spec fn piece_char(p: Piece) -> u8 {
    let upper: u8 = match p.role {
        Role::Pawn => 80u8,
        Role::Knight => 78u8,
        Role::Bishop => 66u8,
        Role::Rook => 82u8,
        Role::Queen => 81u8,
        Role::King => 75u8,
    };
    match p.color {
        Color::White => upper,
        Color::Black => (upper + 32) as u8,
    }
}

/// FEN character of a square: the piece letter, or `1` for an empty square.
pub open spec fn square_char(s: Option<Piece>) -> u8 {
    match s {
        Some(p) => piece_char(p),
        None => 49u8,
    }
}

/// The FEN characters of the rank `r` (8 characters, files a to h).
pub open spec fn fen_rank(squares: Seq<Option<Piece>>, r: int) -> Seq<u8> {
    Seq::new(8, |f: int| square_char(squares[r * 8 + f]))
}

/// The FEN board of the ranks `8 .. r` down to rank index `r` (ranks written
/// from the eighth down, separated by `/`).
pub open spec fn fen_board_from(squares: Seq<Option<Piece>>, r: int) -> Seq<u8>
    decreases 8 - r,
{
    if r >= 8 {
        Seq::empty()
    } else if r == 7 {
        fen_rank(squares, 7)
    } else {
        fen_board_from(squares, r + 1) + seq![47u8] + fen_rank(squares, r)
    }
}

/// The algebraic name of a square (`e3` for 20).
pub open spec fn square_name(s: u8) -> Seq<u8> {
    seq![(97 + s % 8) as u8, (49 + s / 8) as u8]
}

/// FEN of a position: board, side to move, no castling rights, en passant square.
pub open spec fn fen_of(squares: Seq<Option<Piece>>, turn: Color, ep: Option<u8>) -> Seq<u8> {
    fen_board_from(squares, 0) + seq![32u8] + (match turn {
        Color::White => seq![119u8],
        Color::Black => seq![98u8],
    }) + seq![32u8, 45u8, 32u8] + (match ep {
        Some(s) => square_name(s),
        None => seq![45u8],
    })
}

/// Whether `shakmaty` accepts the FEN as a legal standard chess position and,
/// if so, the legal en passant target square of that position.
pub uninterp spec fn fen_legal_ep(fen: Seq<u8>) -> Option<Option<u8>>;

/// Parses the FEN with `shakmaty::fen::Fen::from_ascii`, builds a standard
/// chess position with `Fen::into_position::<Chess>`, and reports its
/// `legal_ep_square`. The contract only names the result: `None` when either
/// step fails, else the legal en passant square.
#[verifier::external_body]
fn legal_ep_of_fen(fen: &[u8]) -> (r: Option<Option<u8>>)
    ensures
        r == fen_legal_ep(fen@),
{
    match shakmaty::fen::Fen::from_ascii(fen) {
        Ok(f) => match f.into_position::<shakmaty::Chess>(shakmaty::CastlingMode::Standard) {
            Ok(pos) => match shakmaty::Position::legal_ep_square(&pos) {
                Some(sq) => Some(Some(u8::from(sq))),
                None => Some(None),
            },
            Err(_) => None,
        },
        Err(_) => None,
    }
}

fn piece_char_of(p: Piece) -> (r: u8)
    ensures
        r == piece_char(p),
{
    let upper: u8 = match p.role {
        Role::Pawn => 80,
        Role::Knight => 78,
        Role::Bishop => 66,
        Role::Rook => 82,
        Role::Queen => 81,
        Role::King => 75,
    };
    match p.color {
        Color::White => upper,
        Color::Black => upper + 32,
    }
}

fn push_rank(out: &mut Vec<u8>, squares: &Vec<Option<Piece>>, r: usize)
    requires
        squares.len() == 64,
        r < 8,
    ensures
        final(out)@ == old(out)@ + fen_rank(squares@, r as int),
{
    let ghost start = out@;
    let mut f: usize = 0;
    while f < 8
        invariant
            0 <= f <= 8,
            r < 8,
            squares.len() == 64,
            out@ == start + fen_rank(squares@, r as int).subrange(0, f as int),
        decreases 8 - f,
    {
        let c = match squares[r * 8 + f] {
            Some(p) => piece_char_of(p),
            None => 49u8,
        };
        out.push(c);
        assert(fen_rank(squares@, r as int).subrange(0, f + 1) =~= fen_rank(squares@, r as int).subrange(0, f as int).push(c));
        f += 1;
    }
    assert(fen_rank(squares@, r as int).subrange(0, 8) =~= fen_rank(squares@, r as int));
}

impl BoardPosition {
    /// The FEN of the position (`1` for each empty square, no castling
    /// rights, no move counters).
    pub fn fen(&self) -> (r: Vec<u8>)
        requires
            self.wf(),
        ensures
            r@ == fen_of(self.squares@, self.turn, self.ep_square),
    {
        let mut out: Vec<u8> = Vec::new();
        push_rank(&mut out, &self.squares, 7);
        let mut r: usize = 7;
        while r > 0
            invariant
                0 <= r <= 7,
                self.wf(),
                out@ == fen_board_from(self.squares@, r as int),
            decreases r,
        {
            r -= 1;
            out.push(47u8);
            push_rank(&mut out, &self.squares, r);
        }
        out.push(32u8);
        match self.turn {
            Color::White => out.push(119u8),
            Color::Black => out.push(98u8),
        }
        out.push(32u8);
        out.push(45u8);
        out.push(32u8);
        match self.ep_square {
            Some(s) => {
                out.push(97 + s % 8);
                out.push(49 + s / 8);
            },
            None => out.push(45u8),
        }
        proof {
            let b = fen_board_from(self.squares@, 0);
            let t = match self.turn {
                Color::White => seq![119u8],
                Color::Black => seq![98u8],
            };
            let e = match self.ep_square {
                Some(s) => square_name(s),
                None => seq![45u8],
            };
            assert(out@ =~= b + seq![32u8] + t + seq![32u8, 45u8, 32u8] + e);
        }
        out
    }

    /// Asks `shakmaty` whether the position is legal, and if so for its legal
    /// en passant square.
    pub fn legal_ep(&self) -> (r: Option<Option<u8>>)
        requires
            self.wf(),
        ensures
            r == fen_legal_ep(fen_of(self.squares@, self.turn, self.ep_square)),
    {
        let fen = self.fen();
        legal_ep_of_fen(fen.as_slice())
    }
}

/// The square reflected across the line between the d and e files.
pub open spec fn mirror_square(s: u8) -> u8 {
    ((s / 8) * 8 + (7 - s % 8)) as u8
}

/// The position reflected across the line between the d and e files.
pub open spec fn mirrored(squares: Seq<Option<Piece>>) -> Seq<Option<Piece>> {
    Seq::new(64, |i: int| squares[mirror_square(i as u8) as int])
}

/// Mirrors a position horizontally (file a becomes h, and so on).
pub fn mirror_horizontally(position: &BoardPosition) -> (r: BoardPosition)
    requires
        position.wf(),
    ensures
        r.wf(),
        r.turn == position.turn,
        r.squares@ == mirrored(position.squares@),
        r.ep_square == (match position.ep_square {
            Some(s) => Some(mirror_square(s)),
            None => None,
        }),
{
    let mut squares: Vec<Option<Piece>> = Vec::new();
    let mut i: usize = 0;
    while i < 64
        invariant
            0 <= i <= 64,
            position.wf(),
            squares.len() == i,
            forall|k: int| 0 <= k < i ==> #[trigger] squares@[k] == position.squares@[mirror_square(k as u8) as int],
        decreases 64 - i,
    {
        let s = i as u8;
        let m = (s / 8) * 8 + (7 - s % 8);
        squares.push(position.squares[m as usize]);
        i += 1;
    }
    assert(squares@ =~= mirrored(position.squares@));
    let ep_square = match position.ep_square {
        Some(s) => Some((s / 8) * 8 + (7 - s % 8)),
        None => None,
    };
    BoardPosition { turn: position.turn, squares, ep_square }
}

/// Reflecting twice gives the position back.
pub proof fn lemma_mirror_involution(squares: Seq<Option<Piece>>)
    requires
        squares.len() == 64,
    ensures
        mirrored(mirrored(squares)) == squares,
{
    assert forall|i: int| 0 <= i < 64 implies mirrored(mirrored(squares))[i] == squares[i] by {
        let m = mirror_square(i as u8);
        assert(m < 64);
        assert(mirror_square(m) == i);
    }
    assert(mirrored(mirrored(squares)) =~= squares);
}

impl BoardPosition {
    /// A copy of the position.
    pub fn copy(&self) -> (r: BoardPosition)
        ensures
            r.turn == self.turn,
            r.squares@ == self.squares@,
            r.ep_square == self.ep_square,
    {
        let mut squares: Vec<Option<Piece>> = Vec::new();
        let mut i: usize = 0;
        while i < self.squares.len()
            invariant
                0 <= i <= self.squares.len(),
                squares@ == self.squares@.take(i as int),
            decreases self.squares.len() - i,
        {
            squares.push(self.squares[i]);
            i += 1;
            assert(squares@ =~= self.squares@.take(i as int));
        }
        assert(self.squares@.take(self.squares.len() as int) =~= self.squares@);
        BoardPosition { turn: self.turn, squares, ep_square: self.ep_square }
    }
}

} // verus!
