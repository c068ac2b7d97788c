//! Naming the endgame of a position, and checking a solved table against the
//! outcomes of the positions its moves lead to.

use vstd::prelude::*;
use crate::board::{BoardPosition, Color, Piece, Role, opposite};
use crate::error::EgtError;
use crate::names::{ascii_chars, string_from_ascii};
use crate::outcome::{ConversionType, DtcOutcome, outcome_score};
use crate::stored::{MaybeDtcOutcome, decoded_outcome};
use crate::tables::{count_byte, underscore_pos, valid_side, is_piece_letter};

verus! {

/// Number of pieces `p` on the squares below `s`.
pub open spec fn piece_count(squares: Seq<Option<Piece>>, p: Piece, s: int) -> nat
    decreases s,
{
    if s <= 0 {
        0
    } else {
        piece_count(squares, p, s - 1) + (if squares[s - 1] == Some(p) { 1nat } else { 0nat })
    }
}

/// `c` repeated `n` times.
pub open spec fn repeat_letter(c: u8, n: nat) -> Seq<u8>
    decreases n,
{
    if n == 0 {
        Seq::empty()
    } else {
        repeat_letter(c, (n - 1) as nat) + seq![c]
    }
}

/// The name of the pieces of `color`: `K`, then one letter per queen, rook,
/// bishop, knight and pawn.
pub open spec fn side_name(squares: Seq<Option<Piece>>, color: Color) -> Seq<u8> {
    seq![75u8] + repeat_letter(81u8, piece_count(squares, Piece { color, role: Role::Queen }, 64)) + repeat_letter(
        82u8,
        piece_count(squares, Piece { color, role: Role::Rook }, 64),
    ) + repeat_letter(66u8, piece_count(squares, Piece { color, role: Role::Bishop }, 64)) + repeat_letter(
        78u8,
        piece_count(squares, Piece { color, role: Role::Knight }, 64),
    ) + repeat_letter(80u8, piece_count(squares, Piece { color, role: Role::Pawn }, 64))
}

/// The name of the endgame of a position: the side to move, `_`, the other side.
pub open spec fn endgame_name(position: BoardPosition) -> Seq<u8> {
    side_name(position.squares@, position.turn) + seq![95u8] + side_name(position.squares@, opposite(position.turn))
}

fn count_pieces(position: &BoardPosition, p: Piece) -> (r: usize)
    requires
        position.wf(),
    ensures
        r == piece_count(position.squares@, p, 64),
        r <= 64,
{
    let mut r: usize = 0;
    let mut s: usize = 0;
    while s < 64
        invariant
            0 <= s <= 64,
            position.wf(),
            r == piece_count(position.squares@, p, s as int),
            r <= s,
        decreases 64 - s,
    {
        match position.squares[s] {
            Some(q) => {
                if q.color == p.color && q.role == p.role {
                    r += 1;
                }
            },
            None => {},
        }
        s += 1;
    }
    r
}

fn push_repeated(out: &mut Vec<u8>, c: u8, n: usize)
    ensures
        final(out)@ == old(out)@ + repeat_letter(c, n as nat),
{
    let mut t: usize = 0;
    while t < n
        invariant
            0 <= t <= n,
            out@ == old(out)@ + repeat_letter(c, t as nat),
        decreases n - t,
    {
        out.push(c);
        t += 1;
        assert(out@ =~= old(out)@ + repeat_letter(c, t as nat));
    }
}

fn push_side_name(out: &mut Vec<u8>, position: &BoardPosition, color: Color)
    requires
        position.wf(),
    ensures
        final(out)@ == old(out)@ + side_name(position.squares@, color),
{
    out.push(75u8);
    let roles: [(Role, u8); 5] = [(Role::Queen, 81u8), (Role::Rook, 82u8), (Role::Bishop, 66u8), (Role::Knight, 78u8), (Role::Pawn, 80u8)];
    let ghost start = out@;
    let q = count_pieces(position, Piece { color, role: Role::Queen });
    push_repeated(out, 81u8, q);
    let r = count_pieces(position, Piece { color, role: Role::Rook });
    push_repeated(out, 82u8, r);
    let b = count_pieces(position, Piece { color, role: Role::Bishop });
    push_repeated(out, 66u8, b);
    let n = count_pieces(position, Piece { color, role: Role::Knight });
    push_repeated(out, 78u8, n);
    let p = count_pieces(position, Piece { color, role: Role::Pawn });
    push_repeated(out, 80u8, p);
    assert(out@ =~= old(out)@ + side_name(position.squares@, color));
}

proof fn lemma_repeat_ascii(c: u8, n: nat)
    requires
        c < 128,
    ensures
        forall|i: int| 0 <= i < repeat_letter(c, n).len() ==> repeat_letter(c, n)[i] == c,
    decreases n,
{
    if n > 0 {
        lemma_repeat_ascii(c, (n - 1) as nat);
        let prev = repeat_letter(c, (n - 1) as nat);
        assert forall|i: int| 0 <= i < repeat_letter(c, n).len() implies repeat_letter(c, n)[i] == c by {
            if i < prev.len() {
                assert(repeat_letter(c, n)[i] == prev[i]);
            }
        }
    }
}

/// The name of the endgame of a position, such as `KQ_KP` (kings are not
/// counted: each side is written with one).
pub fn get_endgame(position: &BoardPosition) -> (r: String)
    requires
        position.wf(),
    ensures
        r@ == ascii_chars(endgame_name(*position)),
{
    let mut out: Vec<u8> = Vec::new();
    push_side_name(&mut out, position, position.turn);
    out.push(95u8);
    let other = position.turn.other();
    push_side_name(&mut out, position, other);
    assert(out@ =~= endgame_name(*position));
    proof {
        assert forall|i: int| 0 <= i < out@.len() implies out@[i] < 128 by {
            lemma_repeat_ascii(81u8, piece_count(position.squares@, Piece { color: position.turn, role: Role::Queen }, 64));
            lemma_repeat_ascii(82u8, piece_count(position.squares@, Piece { color: position.turn, role: Role::Rook }, 64));
            lemma_repeat_ascii(66u8, piece_count(position.squares@, Piece { color: position.turn, role: Role::Bishop }, 64));
            lemma_repeat_ascii(78u8, piece_count(position.squares@, Piece { color: position.turn, role: Role::Knight }, 64));
            lemma_repeat_ascii(80u8, piece_count(position.squares@, Piece { color: position.turn, role: Role::Pawn }, 64));
            lemma_repeat_ascii(81u8, piece_count(position.squares@, Piece { color: other, role: Role::Queen }, 64));
            lemma_repeat_ascii(82u8, piece_count(position.squares@, Piece { color: other, role: Role::Rook }, 64));
            lemma_repeat_ascii(66u8, piece_count(position.squares@, Piece { color: other, role: Role::Bishop }, 64));
            lemma_repeat_ascii(78u8, piece_count(position.squares@, Piece { color: other, role: Role::Knight }, 64));
            lemma_repeat_ascii(80u8, piece_count(position.squares@, Piece { color: other, role: Role::Pawn }, 64));
            let s1 = side_name(position.squares@, position.turn);
            let s2 = side_name(position.squares@, other);
            if i < s1.len() {
                assert(out@[i] == s1[i]);
            } else if i > s1.len() {
                assert(out@[i] == s2[i - s1.len() - 1]);
            }
        }
    }
    string_from_ascii(out)
}

/// The value of a move for the side to move, given the outcome of the
/// position it leads to (for the opponent): a capture or promotion starts a
/// new count at one ply, another move adds a ply. None when the distance does
/// not fit in 16 bits.
pub open spec fn move_value_spec(successor: DtcOutcome, is_capture: bool, is_promotion: bool) -> Option<DtcOutcome> {
    if is_capture || is_promotion {
        let ct = if is_capture { ConversionType::Capture } else { ConversionType::Promotion };
        Some(
            match successor {
                DtcOutcome::Loss(_, _) => DtcOutcome::Win(ct, 1),
                DtcOutcome::Draw => DtcOutcome::Draw,
                DtcOutcome::Win(_, _) => DtcOutcome::Loss(ct, 1),
            },
        )
    } else {
        match successor {
            DtcOutcome::Loss(ct, n) => if n < 65535 { Some(DtcOutcome::Win(ct, (n + 1) as u16)) } else { None },
            DtcOutcome::Draw => Some(DtcOutcome::Draw),
            DtcOutcome::Win(ct, n) => if n < 65535 { Some(DtcOutcome::Loss(ct, (n + 1) as u16)) } else { None },
        }
    }
}

/// The value of a move (see `move_value_spec`).
pub fn move_value(successor: DtcOutcome, is_capture: bool, is_promotion: bool) -> (r: Option<DtcOutcome>)
    ensures
        r == move_value_spec(successor, is_capture, is_promotion),
{
    if is_capture || is_promotion {
        let ct = if is_capture { ConversionType::Capture } else { ConversionType::Promotion };
        Some(
            match successor {
                DtcOutcome::Loss(_, _) => DtcOutcome::Win(ct, 1),
                DtcOutcome::Draw => DtcOutcome::Draw,
                DtcOutcome::Win(_, _) => DtcOutcome::Loss(ct, 1),
            },
        )
    } else {
        match successor {
            DtcOutcome::Loss(ct, n) => if n < 65535 { Some(DtcOutcome::Win(ct, n + 1)) } else { None },
            DtcOutcome::Draw => Some(DtcOutcome::Draw),
            DtcOutcome::Win(ct, n) => if n < 65535 { Some(DtcOutcome::Loss(ct, n + 1)) } else { None },
        }
    }
}

/// The best of the values of the moves (the first among equals), or None
/// when there is none.
pub fn best_value(values: &Vec<DtcOutcome>) -> (r: Option<DtcOutcome>)
    ensures
        values@.len() == 0 <==> r is None,
        r matches Some(b) ==> values@.contains(b) && forall|i: int| 0 <= i < values@.len() ==> outcome_score(
            #[trigger] values@[i],
        ) <= outcome_score(b),
{
    if values.len() == 0 {
        return None;
    }
    let mut best = values[0];
    let mut i: usize = 1;
    while i < values.len()
        invariant
            1 <= i <= values@.len(),
            values@.contains(best),
            forall|k: int| 0 <= k < i ==> outcome_score(#[trigger] values@[k]) <= outcome_score(best),
        decreases values.len() - i,
    {
        if values[i].is_better(&best) {
            best = values[i];
        }
        i += 1;
    }
    Some(best)
}

/// The check of one index of a solved table: an index that stands for no
/// legal position is stored as invalid; a legal position is decided, a
/// checkmated one as a loss by checkmate in 0 plies, a stalemated one as a
/// draw, and any other with the best value of its moves.
pub open spec fn index_consistent(valid: bool, stored: MaybeDtcOutcome, in_check: bool, values: Seq<DtcOutcome>) -> bool {
    if !valid {
        stored.0 == 0
    } else {
        match decoded_outcome(stored.0) {
            None => false,
            Some(o) => if values.len() == 0 {
                if in_check {
                    o == DtcOutcome::Loss(ConversionType::Checkmate, 0)
                } else {
                    o == DtcOutcome::Draw
                }
            } else {
                (forall|i: int| 0 <= i < values.len() ==> outcome_score(#[trigger] values[i]) <= outcome_score(o))
                    && values.contains(o)
            },
        }
    }
}

/// Checks one index of a solved table (see `index_consistent`): `valid`
/// says whether the index stands for a legal position, `in_check` whether
/// its side to move is in check and `values` are the values of its legal
/// moves.
pub fn check_index(endgame: &String, index: u64, valid: bool, stored: MaybeDtcOutcome, in_check: bool, values: &Vec<DtcOutcome>) -> (r: Result<(), EgtError>)
    ensures
        r is Ok <==> index_consistent(valid, stored, in_check, values@),
{
    if !valid {
        if stored.is_invalid() {
            return Ok(());
        }
        return Err(EgtError::ConsistencyCheckFailed { endgame: endgame.clone(), index, detail: String::new() });
    }
    let outcome = match stored.to_outcome() {
        Ok(o) => o,
        Err(_) => return Err(EgtError::ConsistencyCheckFailed { endgame: endgame.clone(), index, detail: String::new() }),
    };
    let expected = match best_value(values) {
        Some(b) => b,
        None => if in_check {
            DtcOutcome::Loss(ConversionType::Checkmate, 0)
        } else {
            DtcOutcome::Draw
        },
    };
    if outcome == expected {
        Ok(())
    } else {
        proof {
            if values@.len() > 0 && index_consistent(valid, stored, in_check, values@) {
                crate::outcome::lemma_score_injective(outcome, expected);
            }
        }
        Err(EgtError::ConsistencyCheckFailed { endgame: endgame.clone(), index, detail: String::new() })
    }
}


/// Order of the letters of a side of an endgame name: the king, then queens,
/// rooks, bishops, knights and pawns.
pub open spec fn letter_rank(c: u8) -> int {
    if c == 75u8 {
        0
    } else if c == 81u8 {
        1
    } else if c == 82u8 {
        2
    } else if c == 66u8 {
        3
    } else if c == 78u8 {
        4
    } else if c == 80u8 {
        5
    } else {
        6
    }
}

/// The letters of `s` never go back in `letter_rank` order.
pub open spec fn letters_in_order(s: Seq<u8>) -> bool {
    forall|i: int, j: int| 0 <= i < j < s.len() ==> letter_rank(#[trigger] s[i]) <= letter_rank(#[trigger] s[j])
}

proof fn lemma_repeat_letter(c: u8, n: nat)
    ensures
        repeat_letter(c, n).len() == n,
        forall|k: int| 0 <= k < n ==> #[trigger] repeat_letter(c, n)[k] == c,
    decreases n,
{
    if n > 0 {
        lemma_repeat_letter(c, (n - 1) as nat);
    }
}

proof fn lemma_count_concat(a: Seq<u8>, b: Seq<u8>, c: u8)
    ensures
        count_byte(a + b, c) == count_byte(a, c) + count_byte(b, c),
    decreases b.len(),
{
    if b.len() > 0 {
        assert((a + b).drop_last() =~= a + b.drop_last());
        lemma_count_concat(a, b.drop_last(), c);
    } else {
        assert(a + b =~= a);
    }
}

proof fn lemma_count_repeat(x: u8, n: nat, c: u8)
    ensures
        count_byte(repeat_letter(x, n), c) == (if x == c { n } else { 0 }),
    decreases n,
{
    if n > 0 {
        lemma_count_repeat(x, (n - 1) as nat, c);
        lemma_repeat_letter(x, n);
        assert(repeat_letter(x, n).drop_last() =~= repeat_letter(x, (n - 1) as nat));
    } else {
        assert(repeat_letter(x, n).len() == 0);
    }
}

/// Appending letters of rank `r` to letters in order of rank at most `r`.
proof fn lemma_append_in_order(a: Seq<u8>, x: u8, n: nat)
    requires
        letters_in_order(a),
        forall|i: int| 0 <= i < a.len() ==> letter_rank(#[trigger] a[i]) <= letter_rank(x),
    ensures
        letters_in_order(a + repeat_letter(x, n)),
        forall|i: int| 0 <= i < (a + repeat_letter(x, n)).len() ==> letter_rank(#[trigger] (a + repeat_letter(x, n))[i]) <= letter_rank(x),
        forall|i: int| 0 <= i < (a + repeat_letter(x, n)).len() && is_piece_letter(x) && (forall|k: int| 0 <= k < a.len() ==> is_piece_letter(#[trigger] a[k]))
            ==> is_piece_letter(#[trigger] (a + repeat_letter(x, n))[i]),
{
    lemma_repeat_letter(x, n);
    let s = a + repeat_letter(x, n);
    assert forall|i: int, j: int| 0 <= i < j < s.len() implies letter_rank(#[trigger] s[i]) <= letter_rank(#[trigger] s[j]) by {
        if j >= a.len() {
            assert(s[j] == x);
            if i >= a.len() {
                assert(s[i] == x);
            }
        }
    }
    assert forall|i: int| 0 <= i < s.len() implies letter_rank(#[trigger] s[i]) <= letter_rank(x) by {
        if i >= a.len() {
            assert(s[i] == x);
        }
    }
}

/// The name of a side lists a king, then the queens, rooks, bishops,
/// knights and pawns of that side, one letter each and in that order: it is a
/// valid side of an endgame name whose letters count the side's pieces.
pub proof fn lemma_side_name(squares: Seq<Option<Piece>>, color: Color)
    ensures
        side_name(squares, color)[0] == 75u8,
        letters_in_order(side_name(squares, color)),
        valid_side(side_name(squares, color)),
        count_byte(side_name(squares, color), 81u8) == piece_count(squares, Piece { color, role: Role::Queen }, 64),
        count_byte(side_name(squares, color), 82u8) == piece_count(squares, Piece { color, role: Role::Rook }, 64),
        count_byte(side_name(squares, color), 66u8) == piece_count(squares, Piece { color, role: Role::Bishop }, 64),
        count_byte(side_name(squares, color), 78u8) == piece_count(squares, Piece { color, role: Role::Knight }, 64),
        count_byte(side_name(squares, color), 80u8) == piece_count(squares, Piece { color, role: Role::Pawn }, 64),
{
    let q = piece_count(squares, Piece { color, role: Role::Queen }, 64);
    let r = piece_count(squares, Piece { color, role: Role::Rook }, 64);
    let b = piece_count(squares, Piece { color, role: Role::Bishop }, 64);
    let n = piece_count(squares, Piece { color, role: Role::Knight }, 64);
    let p = piece_count(squares, Piece { color, role: Role::Pawn }, 64);
    let s0 = seq![75u8];
    let s1 = s0 + repeat_letter(81u8, q);
    let s2 = s1 + repeat_letter(82u8, r);
    let s3 = s2 + repeat_letter(66u8, b);
    let s4 = s3 + repeat_letter(78u8, n);
    let s5 = s4 + repeat_letter(80u8, p);
    assert(s5 == side_name(squares, color));
    assert(letters_in_order(s0));
    lemma_append_in_order(s0, 81u8, q);
    lemma_append_in_order(s1, 82u8, r);
    lemma_append_in_order(s2, 66u8, b);
    lemma_append_in_order(s3, 78u8, n);
    lemma_append_in_order(s4, 80u8, p);
    assert forall|i: int| 0 <= i < s5.len() implies is_piece_letter(#[trigger] s5[i]) by {
        assert(forall|k: int| 0 <= k < s0.len() ==> is_piece_letter(#[trigger] s0[k]));
        assert(forall|k: int| 0 <= k < s1.len() ==> is_piece_letter(#[trigger] s1[k]));
        assert(forall|k: int| 0 <= k < s2.len() ==> is_piece_letter(#[trigger] s2[k]));
        assert(forall|k: int| 0 <= k < s3.len() ==> is_piece_letter(#[trigger] s3[k]));
        assert(forall|k: int| 0 <= k < s4.len() ==> is_piece_letter(#[trigger] s4[k]));
    }
    lemma_repeat_letter(81u8, q);
    assert(s5[0] == 75u8);
    let letters = seq![75u8, 81u8, 82u8, 66u8, 78u8, 80u8];
    assert forall|k: int| 0 <= k < 6 implies count_byte(s5, #[trigger] letters[k]) == (if k == 0 { 1 } else if k == 1 { q } else if k == 2 {
        r
    } else if k == 3 {
        b
    } else if k == 4 {
        n
    } else {
        p
    }) by {
        let c = letters[k];
        assert(count_byte(s0, c) == (if c == 75u8 { 1nat } else { 0nat })) by {
            reveal_with_fuel(count_byte, 2);
        }
        lemma_count_concat(s0, repeat_letter(81u8, q), c);
        lemma_count_concat(s1, repeat_letter(82u8, r), c);
        lemma_count_concat(s2, repeat_letter(66u8, b), c);
        lemma_count_concat(s3, repeat_letter(78u8, n), c);
        lemma_count_concat(s4, repeat_letter(80u8, p), c);
        lemma_count_repeat(81u8, q, c);
        lemma_count_repeat(82u8, r, c);
        lemma_count_repeat(66u8, b, c);
        lemma_count_repeat(78u8, n, c);
        lemma_count_repeat(80u8, p, c);
    }
    assert(count_byte(s5, letters[0]) == 1);
    assert(count_byte(s5, letters[1]) == q);
    assert(count_byte(s5, letters[2]) == r);
    assert(count_byte(s5, letters[3]) == b);
    assert(count_byte(s5, letters[4]) == n);
    assert(count_byte(s5, letters[5]) == p);
}

proof fn lemma_underscore_after(a: Seq<u8>, c: Seq<u8>)
    requires
        forall|i: int| 0 <= i < a.len() ==> a[i] != 95u8,
    ensures
        underscore_pos(a + seq![95u8] + c) == a.len(),
    decreases a.len(),
{
    if a.len() > 0 {
        assert((a + seq![95u8] + c).drop_first() =~= a.drop_first() + seq![95u8] + c);
        lemma_underscore_after(a.drop_first(), c);
    } else {
        assert((a + seq![95u8] + c)[0] == 95u8);
    }
}

/// The name of a position's endgame is the name of the side to move, `_`,
/// and the name of the other side: parsing it at its `_` gives back each
/// side's pieces (see `lemma_side_name`).
pub proof fn lemma_endgame_name(position: BoardPosition)
    ensures
        ({
            let b = endgame_name(position);
            let u = underscore_pos(b);
            &&& u < b.len()
            &&& b.subrange(0, u) == side_name(position.squares@, position.turn)
            &&& b.subrange(u + 1, b.len() as int) == side_name(position.squares@, opposite(position.turn))
        }),
{
    let a = side_name(position.squares@, position.turn);
    let c = side_name(position.squares@, opposite(position.turn));
    lemma_side_name(position.squares@, position.turn);
    assert forall|i: int| 0 <= i < a.len() implies a[i] != 95u8 by {
        assert(is_piece_letter(a[i]));
    }
    lemma_underscore_after(a, c);
    let b = endgame_name(position);
    assert(b == a + seq![95u8] + c);
    assert(b.subrange(0, a.len() as int) =~= a);
    assert(b.subrange(a.len() as int + 1, b.len() as int) =~= c);
}


/// What a move is worth, from the outcome of the position it leads to: a
/// drawn position gives a draw whatever the move; a lost position (for the
/// opponent) gives a win and a won one a loss, one ply further for a quiet
/// move and at one ply, converted by the capture or promotion, otherwise.
/// Only a quiet move into a win or loss at distance 65535 has no value.
pub proof fn lemma_move_value(successor: DtcOutcome, is_capture: bool, is_promotion: bool)
    ensures
        successor == DtcOutcome::Draw ==> move_value_spec(successor, is_capture, is_promotion) == Some(DtcOutcome::Draw),
        move_value_spec(successor, is_capture, is_promotion) is None <==> (!is_capture && !is_promotion && match successor {
            DtcOutcome::Win(_, n) => n == 65535,
            DtcOutcome::Loss(_, n) => n == 65535,
            DtcOutcome::Draw => false,
        }),
        is_capture ==> match successor {
            DtcOutcome::Loss(_, _) => move_value_spec(successor, is_capture, is_promotion) == Some(DtcOutcome::Win(ConversionType::Capture, 1)),
            DtcOutcome::Win(_, _) => move_value_spec(successor, is_capture, is_promotion) == Some(DtcOutcome::Loss(ConversionType::Capture, 1)),
            DtcOutcome::Draw => true,
        },
        !is_capture && is_promotion ==> match successor {
            DtcOutcome::Loss(_, _) => move_value_spec(successor, is_capture, is_promotion) == Some(DtcOutcome::Win(ConversionType::Promotion, 1)),
            DtcOutcome::Win(_, _) => move_value_spec(successor, is_capture, is_promotion) == Some(DtcOutcome::Loss(ConversionType::Promotion, 1)),
            DtcOutcome::Draw => true,
        },
        !is_capture && !is_promotion ==> match successor {
            DtcOutcome::Loss(ct, n) => n < 65535 ==> move_value_spec(successor, is_capture, is_promotion) == Some(DtcOutcome::Win(ct, (n + 1) as u16)),
            DtcOutcome::Win(ct, n) => n < 65535 ==> move_value_spec(successor, is_capture, is_promotion) == Some(DtcOutcome::Loss(ct, (n + 1) as u16)),
            DtcOutcome::Draw => true,
        },
{
}

} // verus!
