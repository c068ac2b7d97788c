use chess_egt::egt::{Egt, PieceEntry};
use chess_egt::board::Color;
use chess_egt::piece_set::{EgtRole, EgtSide, File, all_egt_roles};
use chess_egt::EgtError;

fn pawn_file(c: Option<char>) -> Option<File> {
    match c {
        Some('a') => Some(File::A),
        Some('b') => Some(File::B),
        Some('c') => Some(File::C),
        Some('d') => Some(File::D),
        Some('e') => Some(File::E),
        Some('f') => Some(File::F),
        Some('g') => Some(File::G),
        Some('h') => Some(File::H),
        _ => None,
    }
}

// Sets up a table from a name such as "KQ_KRPb".
fn from_tablename(tablename: &str) -> Result<Egt, EgtError> {
    let (stm, sntm) = tablename.split_once('_').expect("missing '_' separator");
    let mut pieces: Vec<PieceEntry> = vec![];
    for (s, side) in [(stm, EgtSide::SideToMove), (sntm, EgtSide::SideNotToMove)] {
        let mut count = [0usize; 13];
        let mut it = s.chars();
        while let Some(c) = it.next() {
            let piece = match c {
                'P' => EgtRole::Pawn(pawn_file(it.next()).expect("invalid pawn file specifier")),
                'K' => EgtRole::King,
                'Q' => EgtRole::Queen,
                'R' => EgtRole::Rook,
                'B' => EgtRole::Bishop,
                'N' => EgtRole::Knight,
                _ => panic!("invalid piece character"),
            };
            count[piece.to_index()] += 1;
        }
        assert_eq!(count[EgtRole::King.to_index()], 1, "each side must have exactly one king");
        for piece in all_egt_roles() {
            let multiplicity = count[piece.to_index()];
            if multiplicity > 0 {
                pieces.push((piece, side, multiplicity));
            }
        }
    }
    Egt::from_pieces(pieces)
}

fn assert_round_trip(egt: &mut Egt, i: u64, side_to_move: Color) {
    if let Some(position) = egt.position_from_index(i, side_to_move) {
        assert_eq!(Some(i), egt.position_to_index(&position));
    }
}

fn round_trip_all(name: &str) {
    let mut egt = from_tablename(name).unwrap();
    for i in 0..egt.index_range() {
        assert_round_trip(&mut egt, i, Color::White);
        assert_round_trip(&mut egt, i, Color::Black);
    }
}

#[test]
fn test_diagonal_symmetric() {
    let mut egt = from_tablename("KR_K").unwrap();

    for i in [10, 100, 2100] {
        assert_eq!(egt.diagonal_symmetric(i), Ok(None));
    }

    assert_eq!(egt.diagonal_symmetric(773), Ok(Some(801)));
    assert_eq!(egt.diagonal_symmetric(801), Ok(Some(773)));

    assert_eq!(egt.diagonal_symmetric(805), Ok(Some(805)));

    let mut egt_p = from_tablename("KPd_K").unwrap();
    assert_eq!(egt_p.diagonal_symmetric(0), Ok(None));
}

#[test]
fn egt_decode_encode_kpa_k() {
    round_trip_all("KPa_K");
}

#[test]
fn egt_decode_encode_kb_k() {
    round_trip_all("KB_K");
}

#[test]
fn index_to_cpidx_min() {
    // If all pieces occupy the first available square, the index is 0.
    let mut egt = from_tablename("KQR_KQQQ").unwrap();
    egt.scratch.buffer_pidx = vec![0, 0, 0, 2, 1, 0, 0];
    assert_eq!(egt.indexer.cpidx_to_index(&egt.scratch), Some(0));
}

#[test]
fn index_to_cpidx_max() {
    // If all pieces occupy the last available square, the index is index_range-1.
    let mut egt = from_tablename("KQR_KQQQ").unwrap();
    egt.scratch.buffer_pidx = egt.indexer.piece_set.iter()
        .flat_map(|p| (1..=p.multiplicity).map(move |k| p.n_squares - k))
        .collect();
    assert_eq!(egt.indexer.cpidx_to_index(&egt.scratch), Some(egt.indexer.index_range - 1));
}

#[test]
fn tablename_lists_pieces_in_order() {
    let egt = from_tablename("KRPb_KQPaPa").unwrap();
    assert_eq!(egt.tablename(), "KRPb_KQPaPa");
    let egt = from_tablename("KQ_K").unwrap();
    assert_eq!(egt.tablename(), "KQ_K");
}

#[test]
fn pieces_are_sorted_pawns_first() {
    let egt = Egt::from_pieces(vec![
        (EgtRole::Queen, EgtSide::SideToMove, 1),
        (EgtRole::King, EgtSide::SideNotToMove, 1),
        (EgtRole::Pawn(File::C), EgtSide::SideNotToMove, 1),
        (EgtRole::King, EgtSide::SideToMove, 1),
    ]).unwrap();
    assert_eq!(egt.pieces()[0], (EgtRole::Pawn(File::C), EgtSide::SideNotToMove, 1));
    assert_eq!(egt.pieces()[1], (EgtRole::King, EgtSide::SideToMove, 1));
    assert_eq!(egt.pieces()[2], (EgtRole::King, EgtSide::SideNotToMove, 1));
    assert_eq!(egt.pieces()[3], (EgtRole::Queen, EgtSide::SideToMove, 1));
    assert_eq!(egt.tablename(), "KQ_KPc");
    assert_eq!(egt.n_pawns(), 1);
    assert!(!egt.is_pawnless());
}

#[test]
fn too_many_pieces_are_refused() {
    let r = Egt::from_pieces(vec![
        (EgtRole::King, EgtSide::SideToMove, 1),
        (EgtRole::Queen, EgtSide::SideToMove, 7),
        (EgtRole::King, EgtSide::SideNotToMove, 1),
    ]);
    assert_eq!(r.err(), Some(EgtError::InvalidPieceConfig("too many pieces")));
}

#[test]
fn pawnless_table_sizes() {
    // 462 king pairs.
    let egt = from_tablename("K_K").unwrap();
    assert_eq!(egt.index_range(), 462);
    assert!(egt.is_pawnless());
    // One more piece on the 62 free squares.
    let egt = from_tablename("KR_K").unwrap();
    assert_eq!(egt.index_range(), 462 * 62);
}

#[test]
fn pawn_table_size_without_en_passant() {
    // A pawn on the a-file (6 squares), then two kings on the 63 and 62 other squares.
    let egt = from_tablename("KPa_K").unwrap();
    assert_eq!(egt.index_range(), 6 * 63 * 62);
}

#[test]
fn en_passant_ranges_follow() {
    // White pawn on d, black pawn on e: positions where the e-pawn can be
    // taken en passant are numbered after the others.
    let egt = from_tablename("KPd_KPe").unwrap();
    let without = 6 * 6 * 62 * 61;
    assert!(egt.index_range() > without);
    assert_eq!(egt.indexer.ep_options[0].range_end, without);
    assert_eq!(egt.indexer.ep_options.len(), 2);
    assert_eq!(egt.indexer.ep_options[1].square, Some(32 + 4));
}

// Walking every index of these tables takes minutes; the tests walk an
// evenly spread set of at most 250,000 indexes of each, with both sides to
// move, which fits the time a test may take.
const SAMPLE: u64 = 250_000;

fn sample_stride(range: u64) -> u64 {
    let stride = (range + SAMPLE - 1) / SAMPLE;
    if stride % 2 == 0 { stride + 1 } else { stride.max(1) }
}

fn round_trip_sampled(name: &str) {
    let mut egt = from_tablename(name).unwrap();
    let stride = sample_stride(egt.index_range());
    let mut i = 0;
    while i < egt.index_range() {
        assert_round_trip(&mut egt, i, Color::White);
        assert_round_trip(&mut egt, i, Color::Black);
        i += stride;
    }
    let last = egt.index_range() - 1;
    assert_round_trip(&mut egt, last, Color::White);
    assert_round_trip(&mut egt, last, Color::Black);
}

#[test]
fn decode_encode_sampled_kq_kr() {
    round_trip_sampled("KQ_KR");
}

#[test]
fn decode_encode_sampled_kqqq_k() {
    round_trip_sampled("KQQQ_K");
}

#[test]
fn decode_encode_sampled_kpdpe_kpepepe() {
    round_trip_sampled("KPdPe_KPePePe");
}

#[test]
fn decode_encode_sampled_kpdpepf_kpepe() {
    round_trip_sampled("KPdPePf_KPePe");
}

#[test]
fn decode_encode_sampled_kpepe_kpdpf() {
    round_trip_sampled("KPePe_KPdPf");
}

#[test]
fn decoded_positions_have_the_table_pieces() {
    // Every decoded KR_K position has the two kings and the rook on distinct squares.
    let mut egt = from_tablename("KR_K").unwrap();
    let mut found = 0;
    for i in (0..egt.index_range()).step_by(101) {
        if let Some(p) = egt.position_from_index(i, Color::White) {
            let pieces: Vec<_> = p.squares.iter().filter(|s| s.is_some()).collect();
            assert_eq!(pieces.len(), 3);
            found += 1;
        }
    }
    assert!(found > 0);
}

fn indexer_round_trip_all(name: &str) {
    let egt = from_tablename(name).unwrap();
    let indexer = egt.indexer.clone();
    let mut scratch = indexer.create_scratch();
    for i in 0..indexer.index_range {
        for side in [Color::White, Color::Black] {
            if let Some(position) = indexer.position_from_index(&mut scratch, i, side) {
                assert_eq!(Some(i), indexer.position_to_index(&mut scratch, &position));
            }
        }
    }
}

#[test]
fn indexer_decode_encode_kpa_k() {
    indexer_round_trip_all("KPa_K");
}

#[test]
fn indexer_decode_encode_kb_k() {
    indexer_round_trip_all("KB_K");
}

fn indexer_round_trip_sampled(name: &str) {
    let egt = from_tablename(name).unwrap();
    let indexer = egt.indexer.clone();
    let mut scratch = indexer.create_scratch();
    let stride = sample_stride(indexer.index_range);
    let mut i = 0;
    while i < indexer.index_range {
        for side in [Color::White, Color::Black] {
            if let Some(position) = indexer.position_from_index(&mut scratch, i, side) {
                assert_eq!(Some(i), indexer.position_to_index(&mut scratch, &position));
            }
        }
        i += stride;
    }
}

#[test]
fn indexer_decode_encode_sampled_kq_kr() {
    indexer_round_trip_sampled("KQ_KR");
}

#[test]
fn indexer_decode_encode_sampled_kqqq_k() {
    indexer_round_trip_sampled("KQQQ_K");
}

#[test]
fn indexer_decode_encode_sampled_kpdpe_kpepepe() {
    indexer_round_trip_sampled("KPdPe_KPePePe");
}

#[test]
fn indexer_decode_encode_sampled_kpdpepf_kpepe() {
    indexer_round_trip_sampled("KPdPePf_KPePe");
}

#[test]
fn indexer_decode_encode_sampled_kpepe_kpdpf() {
    indexer_round_trip_sampled("KPePe_KPdPf");
}

