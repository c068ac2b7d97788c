use chess_egt::board::{BoardPosition, Color, Piece, Role};
use chess_egt::egt_file::{EgtFile, FrameState};
use chess_egt::piece_set::{EgtRole, EgtSide, File};
use chess_egt::tables::{parse_endgame_name, get_file_combinations, is_canonical, reflect_files, PawnKey};
use chess_egt::{ConversionType, MaybeDtcOutcome};
use std::path::PathBuf;

// A position from (square, color, role) triples, squares numbered a1 = 0 .. h8 = 63.
fn position(pieces: &[(usize, Color, Role)], turn: Color) -> BoardPosition {
    let mut squares = vec![None; 64];
    for &(sq, color, role) in pieces {
        squares[sq] = Some(Piece { color, role });
    }
    BoardPosition { turn, squares, ep_square: None }
}

// 8/8/8/8/8/8/P7/K6k w - - 0 1
fn canonical_kp_k() -> BoardPosition {
    position(&[(8, Color::White, Role::Pawn), (0, Color::White, Role::King), (7, Color::Black, Role::King)], Color::White)
}

// 8/8/8/8/8/8/7P/k6K w - - 0 1
fn mirrored_kp_k() -> BoardPosition {
    position(&[(15, Color::White, Role::Pawn), (7, Color::White, Role::King), (0, Color::Black, Role::King)], Color::White)
}

#[test]
fn test_parse_endgame_name() {
    let (stm_pawns, sntm_pawns, other_pieces) = parse_endgame_name("KRP_KP").unwrap();
    assert_eq!(stm_pawns, 1);
    assert_eq!(sntm_pawns, 1);
    assert_eq!(other_pieces.len(), 3); // King STM, King SNTM, Rook STM
    assert!(other_pieces.contains(&(EgtRole::King, EgtSide::SideToMove, 1)));
    assert!(other_pieces.contains(&(EgtRole::Rook, EgtSide::SideToMove, 1)));
    assert!(other_pieces.contains(&(EgtRole::King, EgtSide::SideNotToMove, 1)));
}

#[test]
fn test_get_file_combinations() {
    let combos_1 = get_file_combinations(1);
    assert_eq!(combos_1.len(), 8);

    let combos_2 = get_file_combinations(2);
    assert_eq!(combos_2.len(), 36);
}

#[test]
fn test_is_canonical() {
    // [a] vs [c] is canonical
    assert!(is_canonical(&vec![File::A], &vec![File::C]));
    // [h] vs [f] is not canonical (reflection is [a] vs [c])
    assert!(!is_canonical(&vec![File::H], &vec![File::F]));
}

#[test]
fn test_egt_file_creation() {
    let path = PathBuf::from("test_kp_k.egt");
    let egt_file = EgtFile::new(&path, "KP_K").unwrap();

    // KP_K has 1 pawn for STM, 0 for SNTM.
    // Files for STM pawn: a, b, c, d are canonical. e, f, g, h are reflected.
    // So we expect exactly 4 Egts: KPa_K, KPb_K, KPc_K, KPd_K
    assert_eq!(egt_file.egts.len(), 4);
    assert!(egt_file.egt_index(&PawnKey::new(&vec![File::A], &vec![])).is_some());
    assert!(egt_file.egt_index(&PawnKey::new(&vec![File::B], &vec![])).is_some());
    assert!(egt_file.egt_index(&PawnKey::new(&vec![File::C], &vec![])).is_some());
    assert!(egt_file.egt_index(&PawnKey::new(&vec![File::D], &vec![])).is_some());
}

#[test]
fn egt_file_probing_canonical() {
    let path = PathBuf::from("test_kp_k.egt");
    let mut egt_file = EgtFile::new(&path, "KP_K").unwrap();

    // A canonical position: White pawn on a2, White king on a1, Black king on h8
    let position = canonical_kp_k();

    // Probing should succeed (returns Invalid because the frame is initialized to 0/invalid)
    let outcome = egt_file.probe(&position);
    assert_eq!(outcome, Ok(MaybeDtcOutcome::invalid()));

    // Write an outcome
    let expected_outcome = MaybeDtcOutcome::new_win(ConversionType::Checkmate, 12);
    let idx = egt_file.map_position_to_index(&position).unwrap();
    egt_file.write_to_index(idx, expected_outcome).unwrap();

    // Probe again
    let outcome = egt_file.probe(&position);
    assert_eq!(outcome, Ok(expected_outcome));
}

#[test]
fn egt_file_probing_mirrored() {
    let path = PathBuf::from("test_kp_k.egt");
    let mut egt_file = EgtFile::new(&path, "KP_K").unwrap();

    // A mirrored (non-canonical) position: White pawn on h2, White king on h1, Black king on a1
    let position_mirrored = mirrored_kp_k();
    let position_canonical = canonical_kp_k();

    // Write to the canonical position
    let expected_outcome = MaybeDtcOutcome::new_win(ConversionType::Checkmate, 12);
    let idx_canonical = egt_file.map_position_to_index(&position_canonical).unwrap();
    egt_file.write_to_index(idx_canonical, expected_outcome).unwrap();

    // Probing the mirrored position should return the same outcome because it gets canonicalized/mirrored
    let outcome = egt_file.probe(&position_mirrored);
    assert_eq!(outcome, Ok(expected_outcome));
}

fn run_round_trip_test(endgame: &str, stride: u64) {
    let path = PathBuf::from(".");
    let mut egt_file = EgtFile::new(&path, endgame).unwrap();

    let mut offset = 0;
    let num_egts = egt_file.egts.len();
    for egt_idx in 0..num_egts {
        let range = egt_file.egts[egt_idx].index_range();
        let mut local_index = 0;
        while local_index < range {
            let global_index = offset + local_index;
            if let Some(position) = egt_file.egts[egt_idx].position_from_index(local_index, Color::White) {
                let mapped_global_index = egt_file.map_position_to_index(&position).unwrap();
                assert_eq!(global_index, mapped_global_index);
            }
            local_index += stride;
        }
        offset += range;
    }
}

#[test]
fn egt_file_decode_encode_kpp_kpp() {
    // KPP_KPP has 2.35 billion positions across 656 sub-tables.
    run_round_trip_test("KPP_KPP", 100_000);
}

#[test]
fn egt_file_decode_encode_kq_kr() {
    // KQ_KR has 1.7 million positions across 1 sub-table.
    run_round_trip_test("KQ_KR", 100);
}

#[test]
fn egt_file_decode_encode_kppp_k() {
    // KPPP_K has ~5 million positions across 56 sub-tables.
    run_round_trip_test("KPPP_K", 100);
}

#[test]
fn egt_file_decode_encode_kpp_kp() {
    // KPP_KP has ~15 million positions across 156 sub-tables.
    run_round_trip_test("KPP_KP", 500);
}

#[test]
fn egt_memory_compression_decompression() {
    let path = PathBuf::from(".");
    let mut egt_file = EgtFile::new(&path, "KP_K").unwrap();

    // Sample a position
    let position = canonical_kp_k();
    let outcome = MaybeDtcOutcome::new_win(ConversionType::Checkmate, 987);
    let idx = egt_file.map_position_to_index(&position).unwrap();
    egt_file.write_to_index(idx, outcome).unwrap();
    assert_eq!(egt_file.probe(&position), Ok(outcome));

    for f in 0..egt_file.frames.len() {
        egt_file.ensure_compressed(f).unwrap();
        match egt_file.frames[f] {
            FrameState::Compressed(_) => {},
            _ => panic!(),
        }
    }

    // Probe again (triggers decompression from memory)
    let loaded_outcome = egt_file.probe(&position);
    assert_eq!(loaded_outcome, Ok(outcome));
}

#[test]
fn reflected_files_are_sorted() {
    assert_eq!(reflect_files(&vec![File::A, File::C, File::C]), vec![File::F, File::F, File::H]);
    assert_eq!(reflect_files(&vec![File::H, File::A]), vec![File::A, File::H]);
    assert_eq!(reflect_files(&vec![]), vec![]);
}

#[test]
fn bad_endgame_names_are_refused() {
    assert!(parse_endgame_name("KQK").is_err());
    assert!(parse_endgame_name("KX_K").is_err());
    assert!(parse_endgame_name("Q_K").is_err());
    assert!(parse_endgame_name("KK_K").is_err());
    assert!(EgtFile::new(&PathBuf::from("."), "KQ-K").is_err());
}

#[test]
fn read_and_write_out_of_range() {
    let mut egt_file = EgtFile::new(&PathBuf::from("."), "K_K").unwrap();
    assert_eq!(egt_file.index_range, 462);
    assert!(egt_file.read_from_index(462).is_err());
    assert!(egt_file.write_to_index(462, MaybeDtcOutcome::draw()).is_err());
    assert_eq!(egt_file.read_from_index(461), Ok(MaybeDtcOutcome::invalid()));
    egt_file.write_to_index(461, MaybeDtcOutcome::draw()).unwrap();
    assert_eq!(egt_file.read_from_index(461), Ok(MaybeDtcOutcome::draw()));
    assert_eq!(egt_file.read_from_index(460), Ok(MaybeDtcOutcome::invalid()));
}

#[test]
fn counting_outcomes() {
    let mut egt_file = EgtFile::new(&PathBuf::from("."), "K_K").unwrap();
    egt_file.write_to_index(0, MaybeDtcOutcome::draw()).unwrap();
    egt_file.write_to_index(1, MaybeDtcOutcome::new_win(ConversionType::Capture, 3)).unwrap();
    egt_file.write_to_index(2, MaybeDtcOutcome::new_loss(ConversionType::Promotion, 4)).unwrap();
    egt_file.write_to_index(3, MaybeDtcOutcome::new_unknown(5)).unwrap();
    // One frame of 16384 entries; all the others are invalid.
    assert_eq!(egt_file.count_outcomes(), Ok((1, 1, 1, 16384 - 4)));
}

#[test]
fn frames_on_disk_must_be_installed() {
    let mut egt_file = EgtFile::new(&PathBuf::from("."), "K_K").unwrap();
    egt_file.write_to_index(5, MaybeDtcOutcome::draw()).unwrap();
    let bytes = egt_file.transposed_frame(0).unwrap();
    egt_file.set_frames_on_file();
    assert!(egt_file.read_from_index(5).is_err());
    egt_file.install_frame(0, &bytes).unwrap();
    assert_eq!(egt_file.read_from_index(5), Ok(MaybeDtcOutcome::draw()));
    assert_eq!(egt_file.read_from_index(6), Ok(MaybeDtcOutcome::invalid()));
}

#[test]
fn global_indexes_follow_the_tables() {
    let egt_file = EgtFile::new(&PathBuf::from("test_kp_k.egt"), "KP_K").unwrap();
    assert_eq!(egt_file.index_range, 4 * 23436);
    assert_eq!(egt_file.get_global_index(0, 5), 5);
    assert_eq!(egt_file.get_global_index(2, 7), 2 * 23436 + 7);
    // Past the last table: the sum of all ranges.
    assert_eq!(egt_file.get_global_index(4, 0), egt_file.index_range);
}

#[test]
fn compressed_frames_read_back() {
    let mut egt_file = EgtFile::new(&PathBuf::from("test_kp_k.egt"), "KP_K").unwrap();
    let outcome = MaybeDtcOutcome::new_win(ConversionType::Checkmate, 987);
    assert_eq!(egt_file.write_to_index(12345, outcome), Ok(()));
    for k in 0..egt_file.frames.len() {
        assert_eq!(egt_file.ensure_compressed(k), Ok(()));
        assert!(matches!(egt_file.frames[k], FrameState::Compressed(_)));
    }
    assert_eq!(egt_file.read_from_index(12345), Ok(outcome));
    assert_eq!(egt_file.read_from_index(12346), Ok(MaybeDtcOutcome::invalid()));
}
