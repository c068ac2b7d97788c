use chess_egt::EgtGenerator;

#[test]
fn test_list_n_pieces_endgames() {
    let all_three = EgtGenerator::list_n_pieces_endgames(3);
    assert_eq!(all_three, vec![
        "KB_K".to_string(),
        "KN_K".to_string(),
        "KQ_K".to_string(),
        "KR_K".to_string(),
        "KP_K".to_string(),
    ]);

    let all_two = EgtGenerator::list_n_pieces_endgames(2);
    assert_eq!(all_two, vec!["K_K".to_string()]);

    let all_four = EgtGenerator::list_n_pieces_endgames(4);
    // Ensure pawnless endgames are first, then 1 pawn, then 2 pawns
    let mut max_pawns = 0;
    for eg in all_four {
        let pawns = eg.chars().filter(|&c| c == 'P').count();
        assert!(pawns >= max_pawns, "Endgame {} with {} pawns came after an endgame with more pawns", eg, pawns);
        max_pawns = pawns;
    }
}

#[test]
fn list_small_piece_counts_are_empty() {
    assert!(EgtGenerator::list_n_pieces_endgames(0).is_empty());
    assert!(EgtGenerator::list_n_pieces_endgames(1).is_empty());
}

#[test]
fn list_four_pieces_exact() {
    let all_four = EgtGenerator::list_n_pieces_endgames(4);
    assert_eq!(all_four.len(), 30);
    assert_eq!(all_four[0], "KBB_K");
    // A side is listed first when its name is not smaller than the other's.
    assert!(all_four.contains(&"KR_KQ".to_string()));
    assert!(!all_four.contains(&"KQ_KR".to_string()));
    assert!(all_four.contains(&"KQ_KQ".to_string()));
    assert_eq!(all_four.last().unwrap(), "KP_KP");
}
