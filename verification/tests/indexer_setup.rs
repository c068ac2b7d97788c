use chess_egt::indexer::Indexer;
use chess_egt::piece_set::{EgtRole, EgtSide, File};
use chess_egt::EgtError;

const STM: EgtSide = EgtSide::SideToMove;
const SNTM: EgtSide = EgtSide::SideNotToMove;

fn setup_error(pieces: Vec<(EgtRole, EgtSide, usize)>) -> Option<EgtError> {
    Indexer::from_pieces(&pieces).err()
}

#[test]
fn indexer_accepts_kings_and_a_queen() {
    let ix = Indexer::from_pieces(&vec![(EgtRole::King, STM, 1), (EgtRole::King, SNTM, 1), (EgtRole::Queen, STM, 1)]).unwrap();
    assert_eq!(ix.n_pieces, 3);
    assert_eq!(ix.n_pawns, 0);
    assert_eq!(ix.index_range, 462 * 62);
}

#[test]
fn indexer_refuses_an_empty_entry() {
    let e = setup_error(vec![(EgtRole::King, STM, 1), (EgtRole::King, SNTM, 1), (EgtRole::Rook, STM, 0)]);
    assert_eq!(e, Some(EgtError::InvalidPieceConfig("empty piece entry")));
}

#[test]
fn indexer_refuses_pawns_after_pieces() {
    let e = setup_error(vec![(EgtRole::King, STM, 1), (EgtRole::Pawn(File::A), STM, 1), (EgtRole::King, SNTM, 1)]);
    assert_eq!(e, Some(EgtError::InvalidPieceConfig("pawns must come first")));
}

#[test]
fn indexer_refuses_a_repeated_entry() {
    let e = setup_error(vec![(EgtRole::King, STM, 1), (EgtRole::King, SNTM, 1), (EgtRole::Rook, STM, 1), (EgtRole::Rook, STM, 1)]);
    assert_eq!(e, Some(EgtError::InvalidPieceConfig("repeated piece entry")));
}

#[test]
fn indexer_refuses_seven_pawns_on_a_file() {
    let e = setup_error(vec![
        (EgtRole::Pawn(File::C), STM, 4),
        (EgtRole::Pawn(File::C), SNTM, 3),
        (EgtRole::King, STM, 1),
    ]);
    assert_eq!(e, Some(EgtError::InvalidPieceConfig("too many pawns on a file, or missing kings")));
}

#[test]
fn indexer_refuses_a_pawnless_set_without_single_kings_first() {
    let e = setup_error(vec![(EgtRole::Queen, STM, 2), (EgtRole::King, STM, 1), (EgtRole::King, SNTM, 1)]);
    assert_eq!(e, Some(EgtError::InvalidPieceConfig("too many pawns on a file, or missing kings")));
}

#[test]
fn indexer_refuses_no_room_for_en_passant() {
    // Four pawns of the side to move on the d file leave the pawns of the
    // other side there fewer than three squares.
    let e = setup_error(vec![
        (EgtRole::Pawn(File::D), STM, 4),
        (EgtRole::Pawn(File::D), SNTM, 1),
        (EgtRole::Pawn(File::E), STM, 1),
        (EgtRole::King, STM, 1),
        (EgtRole::King, SNTM, 1),
    ]);
    assert_eq!(e, Some(EgtError::InvalidPieceConfig("too many pawns on an en passant file, or table too large")));
}

#[test]
fn indexer_refuses_too_many_pieces() {
    let e = setup_error(vec![(EgtRole::King, STM, 1), (EgtRole::King, SNTM, 1), (EgtRole::Queen, STM, 7)]);
    assert_eq!(e, Some(EgtError::InvalidPieceConfig("too many pieces")));
}
