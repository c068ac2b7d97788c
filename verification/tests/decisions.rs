use chess_egt::board::{BoardPosition, Color, Piece, Role};
use chess_egt::consistency::{best_value, check_index, move_value};
use chess_egt::digest::compute_sha256;
use chess_egt::egt_file::EgtFile;
use chess_egt::piece_set::{EgtRole, EgtSide, File};
use chess_egt::retrograde::{
    both_kings_on_diagonal, get_pawn_files, initial_outcome, mark_remaining_draws, pair_tables,
    propagate_loss_to_win, propagate_win_to_loss, record_conversion, symmetry_adjusted_move_counter,
    twin_endgame, twin_is_mirrored, DepthQueues, EgtHandle, RetrogradeSolver, ply_action, next_ply, PlyAction,
};
use chess_egt::{get_endgame, ConversionType, DtcOutcome, EgtError, EgtGenerator, MaybeDtcOutcome};
use std::path::PathBuf;

fn position(pieces: &[(usize, Color, Role)], turn: Color) -> BoardPosition {
    let mut squares = vec![None; 64];
    for &(sq, color, role) in pieces {
        squares[sq] = Some(Piece { color, role });
    }
    BoardPosition { turn, squares, ep_square: None }
}

fn handle(name: &str, file_idx: usize, egt_idx: usize) -> EgtHandle {
    EgtHandle { name: name.to_string(), file_idx, egt_idx }
}

#[test]
fn generator_settings() {
    let mut g = EgtGenerator::new(PathBuf::from("tables"));
    assert_eq!(g.assigned_memory, None);
    g.with_assigned_memory(1 << 20);
    assert_eq!(g.assigned_memory, Some(1 << 20));
    assert_eq!(g.base_path, PathBuf::from("tables"));
}

#[test]
fn queues() {
    let mut q = DepthQueues::new();
    assert!(q.is_empty());
    q.push_win(3, ConversionType::Checkmate);
    q.push_loss(4, ConversionType::Capture);
    q.push_win(5, ConversionType::Promotion);
    assert!(!q.is_empty());
    assert_eq!(q.win_checkmate, vec![3]);
    assert_eq!(q.loss_capture, vec![4]);
    assert_eq!(q.win_promotion, vec![5]);
    let mut other = DepthQueues::new();
    other.push_win(7, ConversionType::Checkmate);
    q.merge(&mut other);
    assert_eq!(q.win_checkmate, vec![3, 7]);
    assert!(other.is_empty());
}

#[test]
fn first_outcomes() {
    assert_eq!(initial_outcome(false, 3, false, 3), MaybeDtcOutcome::invalid());
    assert_eq!(initial_outcome(true, 0, true, 0), MaybeDtcOutcome::new_loss(ConversionType::Checkmate, 0));
    assert_eq!(initial_outcome(true, 0, false, 0), MaybeDtcOutcome::draw());
    assert_eq!(initial_outcome(true, 5, false, 6), MaybeDtcOutcome::new_unknown(6));
}

#[test]
fn move_counters() {
    // Quiet moves to both kings on the diagonal count twice from off the diagonal.
    let moves = vec![(false, false), (false, true), (true, true)];
    assert_eq!(symmetry_adjusted_move_counter(false, &moves), 4);
    assert_eq!(symmetry_adjusted_move_counter(true, &moves), 3);
    assert_eq!(symmetry_adjusted_move_counter(false, &vec![]), 0);
}

#[test]
fn kings_on_diagonals() {
    let a1h8 = position(&[(0, Color::White, Role::King), (63, Color::Black, Role::King), (1, Color::White, Role::Rook)], Color::White);
    assert!(both_kings_on_diagonal(&a1h8));
    let h1a8 = position(&[(7, Color::White, Role::King), (14, Color::Black, Role::King)], Color::White);
    assert!(both_kings_on_diagonal(&h1a8));
    let off = position(&[(0, Color::White, Role::King), (14, Color::Black, Role::King)], Color::White);
    assert!(!both_kings_on_diagonal(&off));
}

#[test]
fn conversions_feed_queues() {
    let mut q = DepthQueues::new();
    record_conversion(&mut q, 10, true, MaybeDtcOutcome::new_loss(ConversionType::Checkmate, 4));
    record_conversion(&mut q, 11, false, MaybeDtcOutcome::new_win(ConversionType::Capture, 2));
    record_conversion(&mut q, 12, true, MaybeDtcOutcome::draw());
    assert_eq!(q.win_capture, vec![10]);
    assert_eq!(q.loss_promotion, vec![11]);
    assert!(q.win_checkmate.is_empty() && q.loss_capture.is_empty());
}

#[test]
fn pawn_files_of_pieces() {
    let pieces = vec![
        (EgtRole::Pawn(File::E), EgtSide::SideToMove, 2),
        (EgtRole::Pawn(File::B), EgtSide::SideToMove, 1),
        (EgtRole::King, EgtSide::SideToMove, 1),
        (EgtRole::Pawn(File::A), EgtSide::SideNotToMove, 1),
        (EgtRole::King, EgtSide::SideNotToMove, 1),
    ];
    let (stm, sntm) = get_pawn_files(&pieces);
    assert_eq!(stm, vec![File::B, File::E, File::E]);
    assert_eq!(sntm, vec![File::A]);
    assert!(!twin_is_mirrored(&stm, &sntm, &sntm, &stm));
    assert!(twin_is_mirrored(&stm, &sntm, &vec![File::H], &stm));
}

#[test]
fn twin_names() {
    assert_eq!(twin_endgame("KQ_KR"), Ok("KR_KQ".to_string()));
    assert_eq!(twin_endgame("K_K"), Ok("K_K".to_string()));
    assert!(twin_endgame("KQKR").is_err());
    assert!(twin_endgame("K_Q_K").is_err());
}

#[test]
fn endgame_of_position() {
    let p = position(&[
        (0, Color::White, Role::King), (63, Color::Black, Role::King),
        (1, Color::White, Role::Rook), (9, Color::White, Role::Pawn), (50, Color::Black, Role::Queen),
    ], Color::Black);
    assert_eq!(get_endgame(&p), "KQ_KRP");
}

#[test]
fn move_values() {
    let w = DtcOutcome::Win(ConversionType::Checkmate, 3);
    let l = DtcOutcome::Loss(ConversionType::Checkmate, 4);
    assert_eq!(move_value(l, false, false), Some(DtcOutcome::Win(ConversionType::Checkmate, 5)));
    assert_eq!(move_value(w, false, false), Some(DtcOutcome::Loss(ConversionType::Checkmate, 4)));
    assert_eq!(move_value(l, true, false), Some(DtcOutcome::Win(ConversionType::Capture, 1)));
    assert_eq!(move_value(w, false, true), Some(DtcOutcome::Loss(ConversionType::Promotion, 1)));
    assert_eq!(move_value(DtcOutcome::Draw, true, true), Some(DtcOutcome::Draw));
    assert_eq!(move_value(DtcOutcome::Win(ConversionType::Capture, 65535), false, false), None);
    assert_eq!(best_value(&vec![]), None);
    assert_eq!(best_value(&vec![DtcOutcome::Draw, w, l]), Some(w));
}

#[test]
fn consistency_of_an_index() {
    let name = "KQ_K".to_string();
    assert_eq!(check_index(&name, 0, false, MaybeDtcOutcome::invalid(), false, &vec![]), Ok(()));
    assert!(check_index(&name, 0, false, MaybeDtcOutcome::draw(), false, &vec![]).is_err());
    assert!(check_index(&name, 0, true, MaybeDtcOutcome::invalid(), false, &vec![]).is_err());
    assert_eq!(check_index(&name, 0, true, MaybeDtcOutcome::new_loss(ConversionType::Checkmate, 0), true, &vec![]), Ok(()));
    assert_eq!(check_index(&name, 0, true, MaybeDtcOutcome::draw(), false, &vec![]), Ok(()));
    let values = vec![DtcOutcome::Draw, DtcOutcome::Win(ConversionType::Checkmate, 3)];
    assert_eq!(check_index(&name, 0, true, MaybeDtcOutcome::new_win(ConversionType::Checkmate, 3), false, &values), Ok(()));
    assert_eq!(
        check_index(&name, 7, true, MaybeDtcOutcome::draw(), false, &values),
        Err(EgtError::ConsistencyCheckFailed { endgame: name.clone(), index: 7, detail: String::new() })
    );
}

#[test]
fn sha256_of_bytes() {
    assert_eq!(compute_sha256(b"abc"), "ba7816bf8f01cfea414140de5dae2223b00361a396177a9cb410ff61f20015ad");
    assert_eq!(compute_sha256(b""), "e3b0c44298fc1c149afbf4c8996fb92427ae41e4649b934ca495991b7852b855");
}

#[test]
fn solver_propagation() {
    let file = EgtFile::new(&PathBuf::from("."), "K_K").unwrap();
    let mut solver = RetrogradeSolver::new(file, None);
    assert!(solver.is_symmetric);
    let pairs = pair_tables(&solver).unwrap();
    assert_eq!(pairs.len(), 1);
    assert_eq!(pairs[0].0, pairs[0].1);
    let t = handle("K_K", 0, 0);
    solver.write_outcome(&t, 0, MaybeDtcOutcome::new_unknown(2)).unwrap();
    solver.write_outcome(&t, 1, MaybeDtcOutcome::new_unknown(1)).unwrap();
    solver.write_outcome(&t, 2, MaybeDtcOutcome::draw()).unwrap();
    solver.write_outcome(&t, 3, MaybeDtcOutcome::new_unknown(4)).unwrap();
    // A refuted move lowers the counter; the last one makes a loss.
    assert_eq!(propagate_win_to_loss(&mut solver, &t, 0, 5, ConversionType::Checkmate), Ok(false));
    assert_eq!(solver.read_outcome(&t, 0), Ok(MaybeDtcOutcome::new_unknown(1)));
    assert_eq!(propagate_win_to_loss(&mut solver, &t, 1, 5, ConversionType::Capture), Ok(true));
    assert_eq!(solver.read_outcome(&t, 1), Ok(MaybeDtcOutcome::new_loss(ConversionType::Capture, 5)));
    // Decided positions keep their value.
    assert_eq!(propagate_loss_to_win(&mut solver, &t, 2, 6, ConversionType::Checkmate), Ok(false));
    assert_eq!(solver.read_outcome(&t, 2), Ok(MaybeDtcOutcome::draw()));
    assert_eq!(propagate_win_to_loss(&mut solver, &t, 1, 7, ConversionType::Checkmate), Ok(false));
    assert_eq!(propagate_loss_to_win(&mut solver, &t, 0, 6, ConversionType::Promotion), Ok(true));
    assert_eq!(solver.read_outcome(&t, 0), Ok(MaybeDtcOutcome::new_win(ConversionType::Promotion, 6)));
    // The remaining unknown positions become draws.
    mark_remaining_draws(&mut solver, &t).unwrap();
    assert_eq!(solver.read_outcome(&t, 3), Ok(MaybeDtcOutcome::draw()));
    assert_eq!(solver.read_outcome(&t, 0), Ok(MaybeDtcOutcome::new_win(ConversionType::Promotion, 6)));
    assert_eq!(solver.read_outcome(&t, 4), Ok(MaybeDtcOutcome::invalid()));
}

#[test]
fn twin_tables_are_paired() {
    let a = EgtFile::new(&PathBuf::from("."), "KP_K").unwrap();
    let b = EgtFile::new(&PathBuf::from("."), "K_KP").unwrap();
    let solver = RetrogradeSolver::new(a, Some(b));
    let pairs = pair_tables(&solver).unwrap();
    assert_eq!(pairs.len(), 4);
    for (x, y) in &pairs {
        assert_eq!(x.file_idx, 0);
        assert_eq!(y.file_idx, 1);
        assert_eq!(x.egt_idx, y.egt_idx);
    }
    assert_eq!(pairs[0].0.name, "KPa_K");
    assert_eq!(pairs[0].1.name, "K_KPa");
}

#[test]
fn ply_steps() {
    let mut a = DepthQueues::new();
    let b = DepthQueues::new();
    assert_eq!(ply_action(&a, &b, true), PlyAction::MarkDraws);
    assert_eq!(ply_action(&a, &b, false), PlyAction::MarkDraws);
    a.push_win(3, ConversionType::Capture);
    assert_eq!(ply_action(&a, &b, true), PlyAction::PropagateWithin);
    assert_eq!(ply_action(&a, &b, false), PlyAction::PropagateAcross);
    assert_eq!(next_ply(1), Ok(2));
    assert_eq!(next_ply(u16::MAX), Err(EgtError::Internal("depth out of range")));
}
