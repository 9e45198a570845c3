use meeko::board::{Board, FenError};
use meeko::engine::{position_parts, relative_value_evaluation, split_words, ChessEngine, PositionError};
use meeko::legalmoves::{algebraic_to_move, alg_move, Move, MoveError, Piece};

#[test]
fn material_is_counted_from_the_mover_side() {
    let white = Board::new(Some("4k3/8/8/3q4/8/8/3QR3/4K3 w - - 0 1"));
    assert_eq!(relative_value_evaluation(&white), 5);
    let black = Board::new(Some("4k3/8/8/3q4/8/8/3QR3/4K3 b - - 0 1"));
    assert_eq!(relative_value_evaluation(&black), -5);
}

#[test]
fn search_takes_the_free_queen() {
    let mut engine = ChessEngine::new();
    engine.set_position(Some("4k3/8/8/3q4/8/8/3Q4/4K3 w - - 0 1"), &vec![]).unwrap();
    let best = engine.find_best_move_alpha_beta(2).unwrap();
    assert_eq!(best.alg_move(), "d2d5");
    let best = engine.find_best_move_minimax(2).unwrap();
    assert_eq!(best.alg_move(), "d2d5");
    assert_eq!(engine.alpha_beta(1, i32::MIN + 1, i32::MAX).0, 9);
}

#[test]
fn no_moves_gives_no_best_move() {
    let mut engine = ChessEngine::new();
    assert_eq!(engine.find_best_move_alpha_beta(3), None);
    assert_eq!(engine.find_best_move("go"), "no legal moves");
}

#[test]
fn best_move_is_played_and_named() {
    let mut engine = ChessEngine::new();
    engine.set_position(Some("4k3/8/8/3q4/8/8/3Q4/4K3 w - - 0 1"), &vec![]).unwrap();
    let reply = engine.find_best_move("go depth 5");
    assert_eq!(reply, "d2d5");
    assert_eq!(engine.board().bitboards[10], 0);
}

#[test]
fn position_commands_replay_moves() {
    let mut engine = ChessEngine::new();
    engine.set_position(None, &vec!["e2e4", "e7e5", "g1f3"]).unwrap();
    let board = engine.board();
    assert_eq!(board.current_state.turn, meeko::board::Turn::Black);
    assert_eq!(board.bitboards[0] & (1u64 << 36), 1u64 << 36);
    assert_eq!(board.bitboards[3] & (1u64 << 45), 1u64 << 45);
    assert_eq!(board.state_history.len(), 4);
    let err = engine.set_position(None, &vec!["e2e4", "e3e4"]);
    assert_eq!(err, Err(PositionError::Move(1, MoveError::NoPiece)));
    assert_eq!(engine.board().state_history.len(), 4);
    let err = engine.set_position(Some("8/8/8/8/8/8/8/8 z - -"), &vec![]);
    assert_eq!(err, Err(PositionError::Fen(FenError::Side)));
}

#[test]
fn new_game_resets_to_the_opening() {
    let mut engine = ChessEngine::new();
    engine.new_game();
    assert_eq!(engine.board().occupied(), 0xFFFF_0000_0000_FFFF);
}

#[test]
fn move_text_is_read_against_the_board() {
    let board = Board::new(Some("r3k2r/1P6/8/3pP3/8/8/8/R3K2R w KQkq d6 0 1"));
    let castle = algebraic_to_move(&board, "e1g1").unwrap();
    assert_eq!((castle.from, castle.to, castle.piece, castle.castled), (63, 61, Piece::Rook, true));
    assert_eq!(castle.alg_move(), "e1g1");
    let long = algebraic_to_move(&board, "e1c1").unwrap();
    assert_eq!(alg_move(&long), "e1c1");
    let ep = algebraic_to_move(&board, "e5d6").unwrap();
    assert!(ep.en_passant_capture);
    assert_eq!(ep.captured, Some(Piece::Pawn));
    let promo = algebraic_to_move(&board, "b7a8n").unwrap();
    assert_eq!(promo.promotion, Some(Piece::Knight));
    assert_eq!(promo.captured, Some(Piece::Rook));
    assert_eq!(promo.alg_move(), "b7a8n");
    assert_eq!(algebraic_to_move(&board, "b7b8"), Err(MoveError::MissingPromotion));
    assert_eq!(algebraic_to_move(&board, "z9a1"), Err(MoveError::BadSquare));
    assert_eq!(algebraic_to_move(&board, "e1"), Err(MoveError::BadSquare));
}

#[test]
fn black_castling_names() {
    let m = Move {
        from: 0,
        to: 3,
        piece: Piece::Rook,
        promotion: None,
        captured: None,
        castled: true,
        en_passant_capture: false,
    };
    assert_eq!(m.alg_move(), "e8c8");
    let k = Move { from: 7, to: 5, ..m };
    assert_eq!(k.alg_move(), "e8g8");
    let q = Move { from: 56, to: 59, ..m };
    assert_eq!(q.alg_move(), "e1c1");
}

#[test]
fn a_position_without_moves_scores_its_material() {
    let mut engine = ChessEngine::new();
    engine.set_position(Some("k7/8/1Q6/8/8/8/8/7K b - - 0 1"), &vec![]).unwrap();
    assert_eq!(engine.alpha_beta(3, i32::MIN + 1, i32::MAX), (-9, None));
    assert_eq!(engine.find_best_move_minimax(2), None);
}

#[test]
fn position_command_parts() {
    let words = vec!["position", "startpos", "moves", "e2e4", "e7e5"];
    assert_eq!(position_parts(&words), Some((None, 3)));
    let words = vec!["position", "fen", "8/8/8/8/8/8/8/8", "w", "-", "-", "moves", "a2a3"];
    assert_eq!(position_parts(&words), Some((Some((2, 6)), 7)));
    let words = vec!["position", "fen", "8/8/8/8/8/8/8/8", "w", "-", "-"];
    assert_eq!(position_parts(&words), Some((Some((2, 6)), 6)));
    assert_eq!(position_parts(&vec!["position", "startpos"]), Some((None, 2)));
    assert_eq!(position_parts(&vec!["go", "depth", "5"]), None);
    assert_eq!(position_parts(&vec!["position"]), None);
}

#[test]
fn command_lines_split_into_words() {
    assert_eq!(split_words("position startpos"), vec![(0, 8), (9, 17)]);
    assert_eq!(split_words("  go\tdepth  5 "), vec![(2, 4), (5, 10), (12, 13)]);
    assert_eq!(split_words(""), vec![]);
    assert_eq!(split_words("   "), vec![]);
}

#[test]
fn odd_castled_records_keep_their_squares() {
    let m = Move {
        from: 63,
        to: 55,
        piece: Piece::Rook,
        promotion: None,
        captured: None,
        castled: true,
        en_passant_capture: false,
    };
    assert_eq!(m.alg_move(), "h1h2");
}
