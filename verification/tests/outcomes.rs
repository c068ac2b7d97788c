use chess_egt::{ConversionType, DtcOutcome, MaybeDtcOutcome};
use chess_egt::frame::{transpose_frame, detranspose_frame};
use chess_egt::combinatorics::initialize_nchoosek;
use chess_egt::kings::{initialize_kings_map, kings_adjacent_or_same, reduce_king_pair};
use chess_egt::compaction::{compact_pidx, uncompact_cpidx};
use chess_egt::piece_set::EgtSide;
use std::cmp::Ordering;

#[test]
fn stored_outcome_classes() {
    let invalid = MaybeDtcOutcome::invalid();
    assert!(invalid.is_invalid() && !invalid.is_assigned() && !invalid.is_unknown());
    let draw = MaybeDtcOutcome::draw();
    assert!(draw.is_draw() && draw.is_assigned() && !draw.is_win() && !draw.is_loss());
    let unknown = MaybeDtcOutcome::new_unknown(17);
    assert!(unknown.is_unknown() && !unknown.is_invalid());
    assert_eq!(unknown.get_unknown_counter(), 17);
    assert_eq!(unknown.to_u16(), 17 << 3);
    let win = MaybeDtcOutcome::new_win(ConversionType::Capture, 5);
    assert!(win.is_win() && !win.is_loss());
    assert_eq!(win.to_u16(), 0b100 | (5 << 3));
    assert_eq!(win.conversion_type(), ConversionType::Capture);
    let loss = MaybeDtcOutcome::new_loss(ConversionType::Promotion, 9);
    assert!(loss.is_loss() && !loss.is_win());
    assert_eq!(loss.to_u16(), 0b111 | (9 << 3));
    assert_eq!(loss.conversion_type(), ConversionType::Promotion);
    assert_eq!(MaybeDtcOutcome::from_u16(0b011).conversion_type(), ConversionType::Checkmate);
}

#[test]
fn stored_outcome_decodes() {
    assert_eq!(MaybeDtcOutcome::draw().to_outcome(), Ok(DtcOutcome::Draw));
    assert_eq!(MaybeDtcOutcome::new_win(ConversionType::Checkmate, 12).to_outcome(), Ok(DtcOutcome::Win(ConversionType::Checkmate, 12)));
    assert_eq!(MaybeDtcOutcome::new_loss(ConversionType::Capture, 0).to_outcome(), Ok(DtcOutcome::Loss(ConversionType::Capture, 0)));
    assert_eq!(MaybeDtcOutcome::invalid().to_outcome(), Err(()));
    assert_eq!(MaybeDtcOutcome::new_unknown(3).to_outcome(), Err(()));
    // Distances are kept modulo 2^13.
    assert_eq!(MaybeDtcOutcome::new_win(ConversionType::Checkmate, 8192 + 4).to_outcome(), Ok(DtcOutcome::Win(ConversionType::Checkmate, 4)));
}

#[test]
fn outcome_order() {
    let w1 = DtcOutcome::Win(ConversionType::Promotion, 1);
    let w3 = DtcOutcome::Win(ConversionType::Checkmate, 3);
    let w3c = DtcOutcome::Win(ConversionType::Capture, 3);
    let l2 = DtcOutcome::Loss(ConversionType::Checkmate, 2);
    let l7 = DtcOutcome::Loss(ConversionType::Checkmate, 7);
    let l7p = DtcOutcome::Loss(ConversionType::Promotion, 7);
    assert_eq!(w1.compare(&w3), Ordering::Greater);
    assert_eq!(w3.compare(&w3c), Ordering::Greater);
    assert_eq!(w3.compare(&DtcOutcome::Draw), Ordering::Greater);
    assert_eq!(DtcOutcome::Draw.compare(&l7), Ordering::Greater);
    assert_eq!(l7.compare(&l2), Ordering::Greater);
    assert_eq!(l7p.compare(&l7), Ordering::Greater);
    assert_eq!(l2.compare(&l2), Ordering::Equal);
    assert!(w1.is_better(&w3));
    assert!(!l2.is_better(&l7));
    assert_eq!(ConversionType::Promotion.compare(&ConversionType::Checkmate), Ordering::Less);
}

#[test]
fn frame_round_trip() {
    let values: Vec<MaybeDtcOutcome> = (0..64u16)
        .map(|i| MaybeDtcOutcome::from_u16(i.wrapping_mul(40503)))
        .collect();
    let t = transpose_frame(&values);
    assert_eq!(t.len(), 128);
    let back = detranspose_frame(&t, 64);
    assert_eq!(back, values);
}

#[test]
fn frame_bit_slices() {
    // One value per frame of 8: the low bit of each value goes to the first slice.
    let values: Vec<MaybeDtcOutcome> = vec![1, 0, 1, 0, 0, 0, 0, 1].into_iter().map(MaybeDtcOutcome::from_u16).collect();
    let t = transpose_frame(&values);
    assert_eq!(t[0], 0b1000_0101);
    assert!(t[1..].iter().all(|&b| b == 0));
}

#[test]
fn binomial_table() {
    let t = initialize_nchoosek();
    assert_eq!(t.len(), 9);
    assert_eq!(t[0][0], 1);
    assert_eq!(t[1][64], 64);
    assert_eq!(t[2][10], 45);
    assert_eq!(t[3][61], 35990);
    assert_eq!(t[8][64], 4426165368);
    assert_eq!(t[5][4], 0);
}

#[test]
fn king_pairs() {
    assert!(kings_adjacent_or_same(0, 9));
    assert!(kings_adjacent_or_same(27, 27));
    assert!(!kings_adjacent_or_same(0, 2));
    assert!(!kings_adjacent_or_same(7, 8));
    // e8/e1 reduces to d1/d8: reflect ranks, then files.
    assert_eq!(reduce_king_pair(60, 4), (3, 59));
    // b1/a3 (below diagonal after reflection) is reflected across the diagonal.
    assert_eq!(reduce_king_pair(8, 16), (1, 2));
    let (from, to) = initialize_kings_map();
    assert_eq!(from.len(), 462);
    assert_eq!(from[0], (0, 1));
    assert_eq!(to[from[0].0 as usize][from[0].1 as usize], 0);
    assert_eq!(to[from[461].0 as usize][from[461].1 as usize], 461);
}

#[test]
fn compaction_round_trip() {
    let mut v = vec![9u64, 3, 40, 10, 2];
    compact_pidx(&mut v, 0, 5);
    assert_eq!(v, vec![9, 3, 38, 8, 2]);
    uncompact_cpidx(&mut v, 0, 5);
    assert_eq!(v, vec![9, 3, 40, 10, 2]);
    let mut w = vec![5u64, 7, 6, 1];
    compact_pidx(&mut w, 1, 3);
    assert_eq!(w, vec![5, 7, 6, 1]);
}

#[test]
fn side_reverse() {
    assert_eq!(EgtSide::SideToMove.reverse(), EgtSide::SideNotToMove);
    assert_eq!(EgtSide::SideNotToMove.reverse(), EgtSide::SideToMove);
}
