use meeko::board::Board;
use meeko::legalmoves::{generate_legal_moves, make_move, unmake_move, Move, Piece};
use meeko::utils;

#[test]
fn start_from_check() {
    let mut board: Board =
        Board::new(Some("r3k2r/Pppp1ppp/1b3nbN/nP6/BBP1P3/q4N2/Pp1P2PP/R2Q1RK1 w kq - 0 1"));
    let legalmoves = generate_legal_moves(&mut board);
    assert_eq!(legalmoves.len(), 6, "6 possible moves to get out of check");
}

#[test]
fn undo_counts() {
    let mut board = Board::new(Some("8/8/3p4/KPp4r/R4p1k/8/4P1P1/8 w - c6 0 2 1"));
    let m = Move {
        from: 32,
        to: 37,
        piece: Piece::Rook,
        promotion: None,
        castled: false,
        en_passant_capture: false,
        captured: Some(Piece::Pawn),
    };
    let before_count = utils::count_pieces(&board);
    make_move(&mut board, &m, true);
    unmake_move(&mut board, &m, true);
    let after_count = utils::count_pieces(&board);
    assert_eq!(before_count, after_count, "count before and after unmaking are not the same.");
}

#[test]
fn opening_has_twenty_moves_with_both_pushes() {
    let mut board = Board::new(Some("rnbqkbnr/pppppppp/8/8/8/8/PPPPPPPP/RNBQKBNR w KQkq -"));
    let moves = generate_legal_moves(&mut board);
    assert_eq!(moves.len(), 20);
    let names: Vec<String> = moves.iter().map(|m| m.alg_move()).collect();
    assert!(names.contains(&"a2a3".to_string()));
    assert!(names.contains(&"a2a4".to_string()));
    assert_eq!(names[0], "a2a4");
}

#[test]
fn generation_leaves_the_board_alone() {
    let mut board = Board::new(Some("r3k2r/p1ppqpb1/bn2pnp1/3PN3/1p2P3/2N2Q1p/PPPBBPPP/R3K2R w KQkq - "));
    let bits = *board.bitboards;
    let state = board.current_state;
    let history = board.state_history.clone();
    let first = generate_legal_moves(&mut board);
    assert_eq!(*board.bitboards, bits);
    assert_eq!(board.current_state, state);
    assert_eq!(board.state_history, history);
    let second = generate_legal_moves(&mut board);
    assert_eq!(first, second);
    assert_eq!(first.len(), 48);
}
