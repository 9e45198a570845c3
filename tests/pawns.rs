use meeko::board::Board;
use meeko::legalmoves::{self, generate_legal_moves, make_move, unmake_move, Move, Piece};
use meeko::utils::{self, algebraic_to_square};

fn pawn_move(from: &str, to: &str, captured: Option<Piece>, promotion: Option<Piece>, ep: bool) -> Move {
    Move {
        from: algebraic_to_square(from).unwrap(),
        to: algebraic_to_square(to).unwrap(),
        piece: Piece::Pawn,
        captured,
        promotion,
        castled: false,
        en_passant_capture: ep,
    }
}

#[test]
fn test_white_pawn_normal_capture_generation() {
    let mut board = Board::new(Some("rnbqkbnr/pppppppp/8/4p3/3P4/8/PPPPPPPP/RNBQKBNR w KQkq - 0 1"));
    let pawn_capture = pawn_move("d4", "e5", Some(Piece::Pawn), None, false);
    let moves = generate_legal_moves(&mut board);
    assert!(moves.contains(&pawn_capture));
}

#[test]
fn test_white_pawn_normal_capture() {
    let mut board = Board::new(Some("8/8/8/4p3/3P4/8/8/8 w KQkq - 0 1"));
    let pawn_capture = pawn_move("d4", "e5", Some(Piece::Pawn), None, false);
    make_move(&mut board, &pawn_capture, true);
    assert_ne!(board.bitboards[0], 0);
    assert_eq!(board.bitboards[6], 0);
}

#[test]
fn test_white_pawn_normal_capture_and_undo() {
    let mut board = Board::new(Some("8/8/8/4p3/3P4/8/8/8 w KQkq - 0 1"));
    let pawn_capture = pawn_move("d4", "e5", Some(Piece::Pawn), None, false);
    make_move(&mut board, &pawn_capture, true);
    assert_ne!(board.bitboards[0], 0);
    assert_eq!(board.bitboards[6], 0);
    unmake_move(&mut board, &pawn_capture, true);
    assert_ne!(board.bitboards[0], 0);
    assert_ne!(board.bitboards[6], 0);
}

#[test]
fn test_white_pawn_normal_capture_double() {
    let mut board = Board::new(Some("rnbqkbnr/pppppppp/8/2p1p3/3P4/8/PPPPPPPP/RNBQKBNR w KQkq - 0 1"));
    let pawn_capture_1 = pawn_move("d4", "e5", Some(Piece::Pawn), None, false);
    let pawn_capture_2 = pawn_move("d4", "c5", Some(Piece::Pawn), None, false);
    let moves = generate_legal_moves(&mut board);
    assert!(moves.contains(&pawn_capture_1));
    assert!(moves.contains(&pawn_capture_2));
}

#[test]
fn test_black_pawn_normal_capture() {
    let mut board = Board::new(Some("rnbqkbnr/pppppppp/8/4p3/3P4/8/PPPPPPPP/RNBQKBNR b KQkq - 0 1"));
    let pawn_capture = pawn_move("e5", "d4", Some(Piece::Pawn), None, false);
    let moves = generate_legal_moves(&mut board);
    assert!(moves.contains(&pawn_capture));
}

#[test]
fn test_white_pawn_promotion_queen() {
    let mut board = Board::new(Some("8/1P6/8/8/8/8/8/8 w KQkq - 0 1"));
    let move_str = "b7b8";
    let from = algebraic_to_square(&move_str[0..2]).unwrap();
    let to = algebraic_to_square(&move_str[2..4]).unwrap();
    let promotion_move = Move {
        from,
        to,
        piece: Piece::Pawn,
        captured: None,
        promotion: Some(Piece::Queen),
        castled: false,
        en_passant_capture: false,
    };
    make_move(&mut board, &promotion_move, true);
    assert_eq!(board.bitboards[4], utils::mask(to));
    assert_eq!(board.bitboards[0], 0);
}

#[test]
fn test_white_pawn_promotion_queen_and_unmake() {
    let mut board = Board::new(Some("8/1P6/8/8/8/8/8/8 w KQkq - 0 1"));
    let move_str = "b7b8";
    let from = algebraic_to_square(&move_str[0..2]).unwrap();
    let to = algebraic_to_square(&move_str[2..4]).unwrap();
    let promotion_move = Move {
        from,
        to,
        piece: Piece::Pawn,
        captured: None,
        promotion: Some(Piece::Queen),
        castled: false,
        en_passant_capture: false,
    };
    make_move(&mut board, &promotion_move, true);
    assert_eq!(board.bitboards[4], utils::mask(to));
    assert_eq!(board.bitboards[0], 0);
    unmake_move(&mut board, &promotion_move, true);
    assert_eq!(board.bitboards[0], utils::mask(from));
    assert_eq!(board.bitboards[4], 0);
}

#[test]
fn test_black_pawn_promotion_queen() {
    let mut board = Board::new(Some("8/8/8/8/8/8/1p6/8 b KQkq - 0 1"));
    let move_str = "b2b1";
    let from = algebraic_to_square(&move_str[0..2]).unwrap();
    let to = algebraic_to_square(&move_str[2..4]).unwrap();
    let promotion_move = Move {
        from,
        to,
        piece: Piece::Pawn,
        captured: None,
        promotion: Some(Piece::Queen),
        castled: false,
        en_passant_capture: false,
    };
    make_move(&mut board, &promotion_move, true);
    assert_eq!(board.bitboards[10], utils::mask(to));
    assert_eq!(board.bitboards[6], 0);
}

#[test]
fn test_white_pawn_promotion_bishop() {
    let mut board = Board::new(Some("8/1P6/8/8/8/8/8/8 w KQkq - 0 1"));
    let move_str = "b7b8";
    let from = algebraic_to_square(&move_str[0..2]).unwrap();
    let to = algebraic_to_square(&move_str[2..4]).unwrap();
    let promotion_move = Move {
        from,
        to,
        piece: Piece::Pawn,
        captured: None,
        promotion: Some(Piece::Bishop),
        castled: false,
        en_passant_capture: false,
    };
    make_move(&mut board, &promotion_move, true);
    assert_eq!(board.bitboards[5], utils::mask(to));
    assert_eq!(board.bitboards[0], 0);
}

#[test]
fn promotion_generates_four_records() {
    let mut board = Board::new(Some("8/1P6/8/8/8/8/8/8 w - - 0 1"));
    let moves = generate_legal_moves(&mut board);
    assert_eq!(moves.len(), 4);
    let kinds: Vec<Option<Piece>> = moves.iter().map(|m| m.promotion).collect();
    assert_eq!(
        kinds,
        vec![Some(Piece::Queen), Some(Piece::Bishop), Some(Piece::Rook), Some(Piece::Knight)]
    );
}

#[test]
fn test_white_en_passant_capture() {
    let mut board = Board::new(Some("8/8/8/3pP3/8/8/8/8 w KQkq d6 0 1"));
    let en_passant_move = pawn_move("e5", "d6", Some(Piece::Pawn), None, true);
    let to = en_passant_move.to;
    make_move(&mut board, &en_passant_move, true);
    assert_eq!(board.bitboards[0], utils::mask(to));
    assert_eq!(board.bitboards[6], 0)
}

#[test]
fn test_white_en_passant_capture_and_unmake() {
    let mut board = Board::new(Some("8/8/8/3pP3/8/8/8/8 w KQkq d6 0 1"));
    let en_passant_move = pawn_move("e5", "d6", Some(Piece::Pawn), None, true);
    let from = en_passant_move.from;
    make_move(&mut board, &en_passant_move, true);
    unmake_move(&mut board, &en_passant_move, true);
    assert_eq!(board.bitboards[0], utils::mask(from));
    assert_eq!(board.bitboards[6], utils::mask(algebraic_to_square("d5").unwrap()));
}

#[test]
fn test_black_en_passant_capture() {
    let mut board = Board::new(Some("8/8/8/8/3Pp3/8/8/8 b KQkq d3 0 1"));
    let en_passant_move = pawn_move("e4", "d3", Some(Piece::Pawn), None, true);
    let to = en_passant_move.to;
    make_move(&mut board, &en_passant_move, true);
    assert_eq!(board.bitboards[6], utils::mask(to));
    assert_eq!(board.bitboards[0], 0);
}

#[test]
fn test_black_en_passant_capture_and_unmake() {
    let mut board = Board::new(Some("8/8/8/8/3Pp3/8/8/8 b KQkq d3 0 1"));
    let en_passant_move = pawn_move("e4", "d3", Some(Piece::Pawn), None, true);
    let from = en_passant_move.from;
    make_move(&mut board, &en_passant_move, true);
    unmake_move(&mut board, &en_passant_move, true);
    assert_eq!(board.bitboards[6], utils::mask(from));
    assert_eq!(board.bitboards[0], utils::mask(algebraic_to_square("d4").unwrap()));
}

#[test]
fn test_generate_white_en_passant_move() {
    let mut board = Board::new(Some("8/8/8/3pP3/8/8/8/8 w KQkq d6 0 1"));
    let en_passant_move = pawn_move("e5", "d6", Some(Piece::Pawn), None, true);
    let moves = legalmoves::generate_legal_moves(&mut board);
    assert!(moves.contains(&en_passant_move), "En passant move not generated for white.");
}

#[test]
fn test_dont_generate_white_en_passant_move() {
    let mut board = Board::new(Some("8/8/8/r2pP1K/8/8/8/8 w KQkq d6 0 1"));
    let en_passant_move = pawn_move("e5", "d6", Some(Piece::Pawn), None, true);
    let moves = legalmoves::generate_legal_moves(&mut board);
    assert!(!moves.contains(&en_passant_move), "King is in check.");
}

#[test]
fn test_generate_black_en_passant_move() {
    let mut board = Board::new(Some("8/8/8/8/3Pp3/8/8/8 b KQkq d3 0 1"));
    let moves = legalmoves::generate_legal_moves(&mut board);
    let en_passant_move = pawn_move("e4", "d3", Some(Piece::Pawn), None, true);
    assert!(moves.contains(&en_passant_move), "En passant move not generated for black.");
}

#[test]
fn test_white_en_passant_capture_on_a_file() {
    let mut board = Board::new(Some("8/8/8/pP6/8/8/8/8 w - a6 0 1"));
    let moves = legalmoves::generate_legal_moves(&mut board);
    let en_passant_move = pawn_move("b5", "a6", Some(Piece::Pawn), None, true);
    assert!(moves.contains(&en_passant_move), "En passant move not generated on a-file for white.");
}

#[test]
fn test_black_en_passant_capture_on_h_file() {
    let mut board = Board::new(Some("8/8/8/8/5Pp1/8/8/8 b - f3 0 1"));
    let moves = legalmoves::generate_legal_moves(&mut board);
    let en_passant_move = pawn_move("g4", "f3", Some(Piece::Pawn), None, true);
    assert!(moves.contains(&en_passant_move), "En passant move not generated on h-file for black.");
}

#[test]
fn test_en_passant_not_available_after_one_move() {
    let mut board = Board::new(Some("8/8/8/3pP3/8/8/8/8 w - d6 0 1"));
    let _moves = legalmoves::generate_legal_moves(&mut board);
    let non_ep_move = pawn_move("e5", "e6", None, None, true);
    make_move(&mut board, &non_ep_move, true);
    let black_moves = legalmoves::generate_legal_moves(&mut board);
    let invalid_ep_move = pawn_move("d5", "e6", Some(Piece::Pawn), None, true);
    assert!(
        !black_moves.contains(&invalid_ep_move),
        "En passant move should not be available after one move."
    );
}

#[test]
fn test_en_passant_capture_updates_board_state() {
    let mut board = Board::new(Some("8/8/8/3pP3/8/8/8/8 w - d6 0 1"));
    let ep_move = pawn_move("e5", "d6", Some(Piece::Pawn), None, true);
    make_move(&mut board, &ep_move, true);
    assert_eq!(
        board.bitboards[0],
        utils::mask(algebraic_to_square("d6").unwrap()),
        "White pawn should be on d6"
    );
    assert_eq!(
        board.bitboards[6] & utils::mask(algebraic_to_square("d5").unwrap()),
        0,
        "Black pawn should be removed from d5"
    );
    assert_eq!(board.current_state.en_passant, None, "En passant square should be reset after capture");
}

#[test]
fn test_en_passant_state_generation() {
    let mut board = Board::new(Some("r3k2r/p1ppqpb1/bn2pnp1/3PN3/1p2P3/2N2Q1p/PPPBBPPP/R3K2R w KQkq - "));
    let pawn_move = pawn_move("g2", "g4", None, None, false);
    make_move(&mut board, &pawn_move, true);
    assert_ne!(board.current_state.en_passant, None, "G2 should be the ep square");
    assert_eq!(board.current_state.en_passant, algebraic_to_square("g3"));
}

#[test]
fn test_en_passant_capture_in_check() {
    let mut board = Board::new(Some("8/8/8/3pP3/7k/7R/8/7K w - d6 0 1"));
    let moves = legalmoves::generate_legal_moves(&mut board);
    let ep_move = pawn_move("e5", "d6", Some(Piece::Pawn), None, true);
    assert!(moves.contains(&ep_move), "En passant capture should be allowed when not in check.");
    let mut board = Board::new(Some("8/8/8/3pP3/7k/8/8/r6K w - d6 0 1"));
    let moves = legalmoves::generate_legal_moves(&mut board);
    assert!(!moves.contains(&ep_move), "En passant capture should not be allowed when in check.");
}
