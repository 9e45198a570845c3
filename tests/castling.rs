use meeko::board::{Board, Turn};
use meeko::legalmoves::{self, make_move, unmake_move, Move, Piece};

fn rook_castle(from: u8, to: u8) -> Move {
    Move {
        from,
        to,
        piece: Piece::Rook,
        captured: None,
        promotion: None,
        castled: true,
        en_passant_capture: false,
    }
}

#[test]
fn generate_castling_white() {
    let mut board = Board::new(Some("8/8/8/8/8/8/8/R3K2R w KQkq - 0 1"));
    let rook_move = rook_castle(63, 61);
    let moves = legalmoves::generate_legal_moves(&mut board);
    assert!(moves.contains(&rook_move), "Kingside castling move not generated");
}

#[test]
fn rooks_threatened_white() {
    let mut board = Board::new(Some("r3k2r/8/8/8/8/8/8/R3K2R w KQkq - 0 1"));
    let rook_move = rook_castle(63, 61);
    let moves = legalmoves::generate_legal_moves(&mut board);
    assert!(moves.contains(&rook_move), "Doesn't matter if rooks are threatened  ");
}

#[test]
fn king_in_check() {
    let mut board = Board::new(Some("r3k2r/8/8/4r3/8/8/8/R3K2R w KQkq - 0 1"));
    let rook_move = rook_castle(63, 61);
    let moves = legalmoves::generate_legal_moves(&mut board);
    assert!(!moves.contains(&rook_move), "Doesn't matter if rooks are threatened  ");
}

#[test]
fn rooks_threatened_back() {
    let mut board = Board::new(Some("r3k2r/8/8/8/8/8/8/R3K2R b kq - 0 1"));
    let rook_move = rook_castle(0, 3);
    let moves = legalmoves::generate_legal_moves(&mut board);
    assert!(moves.contains(&rook_move), "Doesn't matter if rooks are threatened");
}

#[test]
fn rooks_path_threatened() {
    let mut board = Board::new(Some("r3k2r/8/8/8/8/8/8/1R2K2R b kq - 0 1"));
    let rook_move = rook_castle(0, 3);
    let moves = legalmoves::generate_legal_moves(&mut board);
    assert!(moves.contains(&rook_move), "rook path being threatened is not relevant");
}

#[test]
fn kings_path_threatened() {
    let mut board = Board::new(Some("r3k2r/8/8/8/8/8/8/3RKR2 b kq - 0 1"));
    let rook_move = rook_castle(0, 3);
    let moves = legalmoves::generate_legal_moves(&mut board);
    assert!(!moves.contains(&rook_move), "kings path is threatened");
    assert!(!moves.contains(&rook_castle(7, 5)), "kings path is threatened");
    assert!(moves.iter().all(|m| !m.castled));
}

#[test]
fn generate_castling_black() {
    let mut board = Board::new(Some("r3k2r/8/8/8/8/8/8/8 b kqKQ - 0 1"));
    let rook_move = rook_castle(0, 3);
    let moves = legalmoves::generate_legal_moves(&mut board);
    assert!(moves.contains(&rook_move));
}

#[test]
fn test_non_castling_move_loses_castling_rights_king() {
    let mut board = Board::new(Some("r3k2r/8/8/8/8/8/8/R3K2R b KQ - 0 1"));
    let king_move = Move {
        from: 4,
        to: 12,
        piece: Piece::King,
        captured: None,
        promotion: None,
        castled: false,
        en_passant_capture: false,
    };
    legalmoves::make_move(&mut board, &king_move, true);
    assert_eq!(board.current_state.castling_rights & 0b0011, 0b0000);
}

#[test]
fn test_non_castling_move_loses_castling_rights_rook() {
    let mut board: Board = Board::new(Some("r3k2r/8/8/8/8/8/8/R3K2R w KQ - 0 1"));
    assert_eq!(board.current_state.castling_rights, 0b1100);
    let rook_move = Move {
        from: 63,
        to: 55,
        piece: Piece::Rook,
        captured: None,
        promotion: None,
        castled: false,
        en_passant_capture: false,
    };
    make_move(&mut board, &rook_move, true);
    assert_eq!(board.current_state.castling_rights & 0b1000, 0b0000);
    assert_eq!(board.current_state.castling_rights & 0b0100, 0b0100);
}

#[test]
fn test_castling_rights_after_castling_move() {
    let mut board: Board = Board::new(Some("r3k2r/8/8/8/8/8/8/R3K2R w KQ - 0 1"));
    let rook_move = rook_castle(63, 61);
    make_move(&mut board, &rook_move, true);
    assert_eq!(board.current_state.castling_rights & 0b1100, 0b0000);
}

#[test]
fn test_make_and_unmake_castling_move() {
    let mut board: Board = Board::new(Some("r3k2r/8/8/8/8/8/8/R3K2R w KQ - 0 1"));
    let rook_move = rook_castle(63, 61);
    let (_king_move, _) = legalmoves::reconstruct_king_move(&rook_move, &board);
    make_move(&mut board, &rook_move, true);
    assert_eq!(board.current_state.castling_rights, 0b0000);
    unmake_move(&mut board, &rook_move, true);
    assert_eq!(board.current_state.castling_rights, 0b1100);
    assert_eq!(board.current_state.turn, Turn::White);
}

#[test]
fn test_double_check_castling_rights() {
    let mut board: Board = Board::new(Some("r3k2r/8/8/8/8/8/8/R3K2R w KQ - 0 1"));
    let rook_move = rook_castle(56, 59);
    let (_king_move, _) = legalmoves::reconstruct_king_move(&rook_move, &board);
    make_move(&mut board, &rook_move, true);
    assert_eq!(board.current_state.castling_rights & 0b1100, 0b0000);
    unmake_move(&mut board, &rook_move, true);
    assert_eq!(board.current_state.castling_rights, 0b1100);
    assert_eq!(board.current_state.turn, Turn::White);
}

#[test]
fn castling_moves_king_and_rook() {
    let mut board: Board = Board::new(Some("r3k2r/8/8/8/8/8/8/R3K2R w KQ - 0 1"));
    make_move(&mut board, &rook_castle(63, 61), true);
    assert_eq!(board.bitboards[2], 1u64 << 62);
    assert_eq!(board.bitboards[1], (1u64 << 56) | (1u64 << 61));
    assert_eq!(board.current_state.turn, Turn::Black);
}

#[test]
fn reconstructs_each_king_move() {
    let board: Board = Board::new(Some("r3k2r/8/8/8/8/8/8/R3K2R w KQkq - 0 1"));
    let (k, right) = legalmoves::reconstruct_king_move(&rook_castle(63, 61), &board);
    assert_eq!((k.from, k.to, k.piece, right), (60, 62, Piece::King, 0b1000));
    let (k, right) = legalmoves::reconstruct_king_move(&rook_castle(56, 59), &board);
    assert_eq!((k.from, k.to, right), (60, 58, 0b0100));
    let black: Board = Board::new(Some("r3k2r/8/8/8/8/8/8/R3K2R b KQkq - 0 1"));
    let (k, right) = legalmoves::reconstruct_king_move(&rook_castle(7, 5), &black);
    assert_eq!((k.from, k.to, right), (4, 6, 0b0010));
    let (k, right) = legalmoves::reconstruct_king_move(&rook_castle(0, 3), &black);
    assert_eq!((k.from, k.to, right), (4, 2, 0b0001));
}

#[test]
fn queenside_castling_needs_the_knight_square_empty() {
    let mut board = Board::new(Some("r3k2r/8/8/8/8/8/8/RN2K2R w KQkq - 0 1"));
    let moves = legalmoves::generate_legal_moves(&mut board);
    assert!(!moves.contains(&rook_castle(56, 59)));
    assert!(moves.contains(&rook_castle(63, 61)));
}

#[test]
fn castling_rights_checked_per_side() {
    let board = Board::new(Some("r3k2r/8/8/8/8/8/8/R3K2R w K - 0 1"));
    assert!(board.current_state.can_castle_kingside());
    assert!(!board.current_state.can_castle_queenside());
    let board = Board::new(Some("r3k2r/8/8/8/8/8/8/R3K2R b q - 0 1"));
    assert!(!board.current_state.can_castle_kingside());
    assert!(board.current_state.can_castle_queenside());
}

#[test]
fn capturing_a_home_rook_clears_its_right() {
    let mut board = Board::new(Some("r3k2r/8/8/8/8/8/8/R3K2R w KQkq - 0 1"));
    let capture = Move {
        from: 56,
        to: 0,
        piece: Piece::Rook,
        captured: Some(Piece::Rook),
        promotion: None,
        castled: false,
        en_passant_capture: false,
    };
    assert!(legalmoves::generate_legal_moves(&mut board).contains(&capture));
    make_move(&mut board, &capture, true);
    assert_eq!(board.current_state.castling_rights, 0b1010);
    let replies = legalmoves::generate_legal_moves(&mut board);
    assert!(!replies.contains(&rook_castle(0, 3)));
    unmake_move(&mut board, &capture, true);
    assert_eq!(board.current_state.castling_rights, 0b1111);
}
