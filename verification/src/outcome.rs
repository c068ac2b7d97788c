//! Game-theoretic outcomes of positions and their ordering.

use vstd::prelude::*;

verus! {

/// The kind of event that ends a DTC count.
#[derive(Debug, Clone, Copy, PartialEq, Eq, Structural)]
pub enum ConversionType {
    Promotion,
    Capture,
    Checkmate,
}

/// Game-theoretic value of a position with the distance to conversion in plies.
#[derive(Debug, Clone, Copy, PartialEq, Eq, Structural)]
pub enum DtcOutcome {
    Win(ConversionType, u16),
    Draw,
    Loss(ConversionType, u16),
}

/// Rank of a conversion type in the declared order Promotion < Capture < Checkmate.
pub open spec fn ct_rank(ct: ConversionType) -> int {
    match ct {
        ConversionType::Promotion => 0,
        ConversionType::Capture => 1,
        ConversionType::Checkmate => 2,
    }
}

/// A numeric score such that comparing outcomes is comparing scores:
/// every win beats a draw, which beats every loss; a shorter win is better
/// and, at equal distance, a win by checkmate beats one by capture, which
/// beats one by promotion; a longer loss is better and, at equal distance,
/// the order of conversion types is reversed.
pub open spec fn outcome_score(o: DtcOutcome) -> int {
    match o {
        DtcOutcome::Win(ct, n) => 2 * 0x100000 + (65535 - n) * 4 + ct_rank(ct),
        DtcOutcome::Draw => 0x100000,
        DtcOutcome::Loss(ct, n) => n * 4 + (2 - ct_rank(ct)),
    }
}

/// Three-way comparison of integers, expressed with the std ordering.
pub open spec fn int_order(a: int, b: int) -> std::cmp::Ordering {
    if a < b {
        std::cmp::Ordering::Less
    } else if a == b {
        std::cmp::Ordering::Equal
    } else {
        std::cmp::Ordering::Greater
    }
}

fn compare_u16(a: u16, b: u16) -> (r: std::cmp::Ordering)
    ensures
        r is Less <==> a < b,
        r is Equal <==> a == b,
        r is Greater <==> a > b,
{
    if a < b {
        std::cmp::Ordering::Less
    } else if a == b {
        std::cmp::Ordering::Equal
    } else {
        std::cmp::Ordering::Greater
    }
}

impl ConversionType {
    /// Compares two conversion types in the declared order.
    pub fn compare(&self, other: &Self) -> (r: std::cmp::Ordering)
        ensures
            r == int_order(ct_rank(*self), ct_rank(*other)),
    {
        let a: u16 = match self {
            ConversionType::Promotion => 0,
            ConversionType::Capture => 1,
            ConversionType::Checkmate => 2,
        };
        let b: u16 = match other {
            ConversionType::Promotion => 0,
            ConversionType::Capture => 1,
            ConversionType::Checkmate => 2,
        };
        compare_u16(a, b)
    }
}

impl DtcOutcome {
    /// Compares two outcomes from the point of view of the side to move:
    /// `Greater` means that `self` is the better outcome.
    pub fn compare(&self, other: &Self) -> (r: std::cmp::Ordering)
        ensures
            r == int_order(outcome_score(*self), outcome_score(*other)),
    {
        match (self, other) {
            (DtcOutcome::Win(ct1, n1), DtcOutcome::Win(ct2, n2)) => {
                if *n1 == *n2 {
                    ct1.compare(ct2)
                } else {
                    compare_u16(*n2, *n1)
                }
            },
            (DtcOutcome::Draw, DtcOutcome::Draw) => std::cmp::Ordering::Equal,
            (DtcOutcome::Loss(ct1, n1), DtcOutcome::Loss(ct2, n2)) => {
                if *n1 == *n2 {
                    ct2.compare(ct1)
                } else {
                    compare_u16(*n1, *n2)
                }
            },
            (DtcOutcome::Win(_, _), DtcOutcome::Draw) => std::cmp::Ordering::Greater,
            (DtcOutcome::Draw, DtcOutcome::Win(_, _)) => std::cmp::Ordering::Less,
            (DtcOutcome::Win(_, _), DtcOutcome::Loss(_, _)) => std::cmp::Ordering::Greater,
            (DtcOutcome::Loss(_, _), DtcOutcome::Win(_, _)) => std::cmp::Ordering::Less,
            (DtcOutcome::Draw, DtcOutcome::Loss(_, _)) => std::cmp::Ordering::Greater,
            (DtcOutcome::Loss(_, _), DtcOutcome::Draw) => std::cmp::Ordering::Less,
        }
    }
}

impl DtcOutcome {
    /// Whether `self` is a strictly better outcome than `other` for the side
    /// to move.
    pub fn is_better(&self, other: &Self) -> (r: bool)
        ensures
            r == (outcome_score(*self) > outcome_score(*other)),
    {
        match self.compare(other) {
            std::cmp::Ordering::Greater => true,
            _ => false,
        }
    }
}

/// Outcomes are compared by their scores, and distinct outcomes have distinct
/// scores: `compare` is a total order in which only equal outcomes compare equal.
pub proof fn lemma_score_injective(a: DtcOutcome, b: DtcOutcome)
    requires
        outcome_score(a) == outcome_score(b),
    ensures
        a == b,
{
}

/// Every win is better than a draw, and a draw is better than every loss.
pub proof fn lemma_win_draw_loss_order(ct1: ConversionType, n1: u16, ct2: ConversionType, n2: u16)
    ensures
        outcome_score(DtcOutcome::Win(ct1, n1)) > outcome_score(DtcOutcome::Draw),
        outcome_score(DtcOutcome::Draw) > outcome_score(DtcOutcome::Loss(ct2, n2)),
{
}

/// Among wins, the shorter one is better; among losses, the longer one is better.
pub proof fn lemma_distance_order(ct1: ConversionType, ct2: ConversionType, n1: u16, n2: u16)
    requires
        n1 < n2,
    ensures
        outcome_score(DtcOutcome::Win(ct1, n1)) > outcome_score(DtcOutcome::Win(ct2, n2)),
        outcome_score(DtcOutcome::Loss(ct1, n1)) < outcome_score(DtcOutcome::Loss(ct2, n2)),
{
}

} // verus!
