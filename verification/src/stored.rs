//! The 16-bit encoding in which tables store outcomes.
//!
//! Layout of a stored value: the low three bits hold the status, the high
//! thirteen bits hold a distance (for decided positions) or a move counter
//! (for positions still being solved).
//!
//! | low bits | meaning |
//! |----------|---------|
//! | `000` with counter 0 | invalid position |
//! | `000` with counter > 0 | unknown, with a move counter |
//! | `001` | draw |
//! | `010` / `100` / `110` | win by checkmate / capture / promotion |
//! | `011` / `101` / `111` | loss by checkmate / capture / promotion |

use vstd::prelude::*;
use crate::outcome::{ConversionType, DtcOutcome};

verus! {

/// Status held in the low three bits of a stored value.
pub open spec fn status(v: u16) -> u16 {
    v % 8
}

/// Distance or move counter held in the high thirteen bits of a stored value.
pub open spec fn payload(v: u16) -> u16 {
    v / 8
}

/// Status bits of a win by the given conversion type.
pub open spec fn win_status(ct: ConversionType) -> u16 {
    match ct {
        ConversionType::Checkmate => 2,
        ConversionType::Capture => 4,
        ConversionType::Promotion => 6,
    }
}

/// Status bits of a loss by the given conversion type.
pub open spec fn loss_status(ct: ConversionType) -> u16 {
    (win_status(ct) + 1) as u16
}

/// Conversion type named by bits 1 and 2 of a status (`01`, `10`, `11`).
pub open spec fn status_conversion(s: u16) -> ConversionType {
    if s / 2 == 1 {
        ConversionType::Checkmate
    } else if s / 2 == 2 {
        ConversionType::Capture
    } else {
        ConversionType::Promotion
    }
}

/// The outcome that a stored value decodes to, if it holds a decided position.
pub open spec fn decoded_outcome(v: u16) -> Option<DtcOutcome> {
    let s = status(v);
    let n = payload(v);
    if s == 0 {
        None
    } else if s == 1 {
        Some(DtcOutcome::Draw)
    } else if s % 2 == 0 {
        Some(DtcOutcome::Win(status_conversion(s), n))
    } else {
        Some(DtcOutcome::Loss(status_conversion(s), n))
    }
}

/// A stored table entry: an outcome, a pending move counter, or the marker of
/// an invalid position.
#[derive(Debug, Clone, Copy, PartialEq, Eq, Structural)]
pub struct MaybeDtcOutcome(pub u16);

proof fn lemma_low_high(v: u16)
    ensures
        v & 7 == v % 8,
        v >> 3 == v / 8,
        v & 6 == (v % 8) / 2 * 2,
{
    assert(v & 7 == v % 8) by (bit_vector);
    assert(v >> 3 == v / 8) by (bit_vector);
    assert(v & 6 == (v % 8) / 2 * 2) by (bit_vector);
}

proof fn lemma_compose(bits: u16, d: u16)
    requires
        bits < 8,
    ensures
        (bits | (d << 3)) % 8 == bits,
        (bits | (d << 3)) / 8 == d % 8192,
{
    assert((bits | (d << 3)) % 8 == bits) by (bit_vector)
        requires
            bits < 8,
    ;
    assert((bits | (d << 3)) / 8 == d % 8192) by (bit_vector)
        requires
            bits < 8,
    ;
}

impl MaybeDtcOutcome {
    /// The marker of an index that does not stand for a legal position.
    pub fn invalid() -> (r: Self)
        ensures
            r.0 == 0,
    {
        MaybeDtcOutcome(0)
    }

    /// The stored value of a draw.
    pub fn draw() -> (r: Self)
        ensures
            r.0 == 1,
    {
        MaybeDtcOutcome(1)
    }

    pub fn from_u16(value: u16) -> (r: Self)
        ensures
            r.0 == value,
    {
        MaybeDtcOutcome(value)
    }

    pub fn to_u16(&self) -> (r: u16)
        ensures
            r == self.0,
    {
        self.0
    }

    /// Whether the entry holds a decided outcome (draw, win or loss).
    pub fn is_assigned(&self) -> (r: bool)
        ensures
            r == (status(self.0) != 0),
    {
        proof {
            lemma_low_high(self.0);
        }
        (self.0 & 0b111) != 0b000
    }

    pub fn is_invalid(&self) -> (r: bool)
        ensures
            r == (self.0 == 0),
    {
        self.0 == 0b000
    }

    /// Whether the entry is a position still being solved (status 0, counter > 0).
    pub fn is_unknown(&self) -> (r: bool)
        ensures
            r == (status(self.0) == 0 && payload(self.0) != 0),
    {
        proof {
            lemma_low_high(self.0);
        }
        (self.0 & 0b111) == 0b000 && (self.0 >> 3) != 0
    }

    /// The high thirteen bits: the move counter of an unknown entry.
    pub fn get_unknown_counter(&self) -> (r: u16)
        ensures
            r == payload(self.0),
    {
        proof {
            lemma_low_high(self.0);
        }
        self.0 >> 3
    }

    /// The conversion type of a win or loss entry.
    pub fn conversion_type(&self) -> (r: ConversionType)
        requires
            status(self.0) / 2 != 0,
        ensures
            r == status_conversion(status(self.0)),
    {
        proof {
            lemma_low_high(self.0);
        }
        match self.0 & 0b110 {
            0b010 => ConversionType::Checkmate,
            0b100 => ConversionType::Capture,
            _ => ConversionType::Promotion,
        }
    }

    pub fn is_draw(&self) -> (r: bool)
        ensures
            r == (self.0 == 1),
    {
        self.0 == 0b001
    }

    pub fn is_win(&self) -> (r: bool)
        ensures
            r == (status(self.0) != 0 && status(self.0) % 2 == 0),
    {
        proof {
            lemma_low_high(self.0);
        }
        match self.0 & 0b111 {
            0b010 | 0b100 | 0b110 => true,
            _ => false,
        }
    }

    pub fn is_loss(&self) -> (r: bool)
        ensures
            r == (status(self.0) != 1 && status(self.0) % 2 == 1),
    {
        proof {
            lemma_low_high(self.0);
        }
        match self.0 & 0b111 {
            0b011 | 0b101 | 0b111 => true,
            _ => false,
        }
    }

    /// A win by `ct` in `distance` plies; the distance is kept modulo 2^13.
    pub fn new_win(ct: ConversionType, distance: u16) -> (r: Self)
        ensures
            status(r.0) == win_status(ct),
            payload(r.0) == distance % 8192,
    {
        let bits: u16 = match ct {
            ConversionType::Checkmate => 0b010,
            ConversionType::Capture => 0b100,
            ConversionType::Promotion => 0b110,
        };
        proof {
            lemma_compose(bits, distance);
        }
        MaybeDtcOutcome(bits | (distance << 3))
    }

    /// A loss by `ct` in `distance` plies; the distance is kept modulo 2^13.
    pub fn new_loss(ct: ConversionType, distance: u16) -> (r: Self)
        ensures
            status(r.0) == loss_status(ct),
            payload(r.0) == distance % 8192,
    {
        let bits: u16 = match ct {
            ConversionType::Checkmate => 0b011,
            ConversionType::Capture => 0b101,
            ConversionType::Promotion => 0b111,
        };
        proof {
            lemma_compose(bits, distance);
        }
        MaybeDtcOutcome(bits | (distance << 3))
    }

    /// An undecided entry with the given move counter (kept modulo 2^13).
    pub fn new_unknown(moves_counter: u16) -> (r: Self)
        ensures
            status(r.0) == 0,
            payload(r.0) == moves_counter % 8192,
    {
        proof {
            lemma_compose(0, moves_counter);
            assert(0u16 | (moves_counter << 3) == moves_counter << 3) by (bit_vector);
        }
        MaybeDtcOutcome(moves_counter << 3)
    }

    /// Decodes a decided entry; invalid and unknown entries are refused.
    pub fn to_outcome(self) -> (r: Result<DtcOutcome, ()>)
        ensures
            match decoded_outcome(self.0) {
                Some(o) => r == Ok::<DtcOutcome, ()>(o),
                None => r is Err,
            },
    {
        proof {
            lemma_low_high(self.0);
        }
        let n = self.0 >> 3;
        match self.0 & 0b111 {
            0b001 => Ok(DtcOutcome::Draw),
            0b010 => Ok(DtcOutcome::Win(ConversionType::Checkmate, n)),
            0b100 => Ok(DtcOutcome::Win(ConversionType::Capture, n)),
            0b110 => Ok(DtcOutcome::Win(ConversionType::Promotion, n)),
            0b011 => Ok(DtcOutcome::Loss(ConversionType::Checkmate, n)),
            0b101 => Ok(DtcOutcome::Loss(ConversionType::Capture, n)),
            0b111 => Ok(DtcOutcome::Loss(ConversionType::Promotion, n)),
            _ => Err(()),
        }
    }
}

/// The classes invalid, unknown, draw, win and loss are pairwise exclusive, and
/// every stored value other than a draw status with a nonzero payload (a value
/// no constructor builds) falls in one of them.
pub proof fn lemma_status_partition(v: u16)
    ensures
        status(v) != 1 || v == 1 ==> (v == 0) || (status(v) == 0 && payload(v) != 0) || v == 1
            || (status(v) != 0 && status(v) % 2 == 0) || (status(v) != 1 && status(v) % 2 == 1),
        v == 0 ==> !(status(v) == 0 && payload(v) != 0),
        v == 0 || (status(v) == 0 && payload(v) != 0) ==> status(v) == 0,
        v == 1 ==> status(v) == 1,
        status(v) == 0 <==> decoded_outcome(v) is None,
        status(v) == 1 <==> decoded_outcome(v) == Some(DtcOutcome::Draw),
{
    assert(v == 0 ==> v % 8 == 0 && v / 8 == 0);
    assert(v == 1 ==> v % 8 == 1);
    assert(status(v) == 0 && payload(v) == 0 ==> v == 0);
}

/// Decoding a win or a loss gives back the conversion type and the distance
/// it was built with, for every distance that fits in thirteen bits.
pub proof fn lemma_decode_encode(ct: ConversionType, d: u16, w: MaybeDtcOutcome, l: MaybeDtcOutcome)
    requires
        d < 8192,
        status(w.0) == win_status(ct),
        payload(w.0) == d,
        status(l.0) == loss_status(ct),
        payload(l.0) == d,
    ensures
        decoded_outcome(w.0) == Some(DtcOutcome::Win(ct, d)),
        decoded_outcome(l.0) == Some(DtcOutcome::Loss(ct, d)),
{
}

} // verus!
