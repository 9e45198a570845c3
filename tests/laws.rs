use meeko::board::{Board, FenError, Turn};
use meeko::legalmoves::{attacks, generate_legal_moves, make_move, perft, unmake_move, Move, Piece};

fn snapshot(board: &Board) -> ([u64; 12], meeko::board::State, Vec<meeko::board::State>) {
    (*board.bitboards, board.current_state, board.state_history.clone())
}

fn disjoint(bbs: &[u64; 12]) -> bool {
    for i in 0..12 {
        for j in (i + 1)..12 {
            if bbs[i] & bbs[j] != 0 {
                return false;
            }
        }
    }
    true
}

#[test]
fn every_legal_move_keeps_boards_disjoint_and_kings_single() {
    let mut board = Board::new(Some("r3k2r/p1ppqpb1/bn2pnp1/3PN3/1p2P3/2N2Q1p/PPPBBPPP/R3K2R w KQkq - "));
    for m in generate_legal_moves(&mut board) {
        make_move(&mut board, &m, true);
        assert!(disjoint(&board.bitboards));
        assert_eq!(board.bitboards[2].count_ones(), 1);
        assert_eq!(board.bitboards[8].count_ones(), 1);
        for reply in generate_legal_moves(&mut board) {
            make_move(&mut board, &reply, true);
            assert!(disjoint(&board.bitboards));
            assert_eq!(board.bitboards[2].count_ones(), 1);
            assert_eq!(board.bitboards[8].count_ones(), 1);
            unmake_move(&mut board, &reply, true);
        }
        unmake_move(&mut board, &m, true);
    }
}

#[test]
fn castling_rights_never_grow_under_make() {
    let mut board = Board::new(Some("r3k2r/8/8/8/8/8/8/R3K2R w KQkq - 0 1"));
    let before = board.current_state.castling_rights;
    for m in generate_legal_moves(&mut board) {
        make_move(&mut board, &m, true);
        assert_eq!(board.current_state.castling_rights & !before, 0);
        unmake_move(&mut board, &m, true);
        assert_eq!(board.current_state.castling_rights, before);
    }
}

#[test]
fn make_then_unmake_restores_everything() {
    let mut board = Board::new(Some("rnbq1k1r/pp1Pbppp/2p5/8/2B5/8/PPP1NnPP/RNBQK2R w KQ - 1 8"));
    let start = snapshot(&board);
    for m in generate_legal_moves(&mut board) {
        make_move(&mut board, &m, true);
        assert_ne!(snapshot(&board), start);
        unmake_move(&mut board, &m, true);
        assert_eq!(snapshot(&board), start);
        make_move(&mut board, &m, false);
        unmake_move(&mut board, &m, false);
        assert_eq!(snapshot(&board), start);
    }
}

#[test]
fn sequence_of_moves_unwinds_to_the_start() {
    let mut board = Board::new(Some("rnbqkbnr/pppppppp/8/8/8/8/PPPPPPPP/RNBQKBNR w KQkq - 0 1"));
    let start = snapshot(&board);
    let mut played: Vec<Move> = Vec::new();
    for k in 0..8 {
        let moves = generate_legal_moves(&mut board);
        let m = moves[(k * 7) % moves.len()];
        make_move(&mut board, &m, true);
        played.push(m);
    }
    assert_eq!(board.state_history.len(), 9);
    for m in played.iter().rev() {
        unmake_move(&mut board, m, true);
    }
    assert_eq!(snapshot(&board), start);
}

#[test]
fn legal_list_is_stable_under_refiltering() {
    let mut board = Board::new(Some("r3k2r/Pppp1ppp/1b3nbN/nP6/BBP1P3/q4N2/Pp1P2PP/R2Q1RK1 w kq - 0 1"));
    let legal = generate_legal_moves(&mut board);
    for m in &legal {
        make_move(&mut board, m, false);
        let checked = attacks(&board, board.current_state.turn) & board.bitboards[2];
        assert_eq!(checked, 0);
        unmake_move(&mut board, m, false);
    }
    assert_eq!(generate_legal_moves(&mut board), legal);
}

#[test]
fn attack_set_matches_capturability() {
    let mut board = Board::new(Some("8/8/8/8/8/8/8/R3K3 b - - 0 1"));
    let white_attacks = attacks(&board, Turn::Black);
    for t in 0u8..64 {
        if board.bitboards.iter().any(|b| b & (1u64 << t) != 0) {
            continue;
        }
        board.bitboards[9] |= 1u64 << t;
        board.current_state.turn = Turn::White;
        let moves = generate_legal_moves(&mut board);
        let capturable = moves.iter().any(|m| m.to == t && m.captured == Some(Piece::Knight));
        board.bitboards[9] &= !(1u64 << t);
        board.current_state.turn = Turn::Black;
        assert_eq!(white_attacks & (1u64 << t) != 0, capturable, "square {}", t);
    }
}

#[test]
fn promotion_places_one_queen_and_unmakes() {
    let mut board = Board::new(Some("8/1P6/8/8/8/8/8/8 w - -"));
    let start = snapshot(&board);
    let m = Move {
        from: 9,
        to: 1,
        piece: Piece::Pawn,
        promotion: Some(Piece::Queen),
        captured: None,
        castled: false,
        en_passant_capture: false,
    };
    assert!(generate_legal_moves(&mut board).contains(&m));
    make_move(&mut board, &m, true);
    assert_eq!(board.bitboards[4], 1u64 << 1);
    assert_eq!(board.bitboards[0], 0);
    unmake_move(&mut board, &m, true);
    assert_eq!(snapshot(&board), start);
}

#[test]
fn en_passant_removes_the_pawn_behind() {
    let mut board = Board::new(Some("8/8/8/3pP3/8/8/8/8 w - d6"));
    let moves = generate_legal_moves(&mut board);
    let m = *moves.iter().find(|m| m.alg_move() == "e5d6").unwrap();
    assert!(m.en_passant_capture);
    make_move(&mut board, &m, true);
    assert_eq!(board.bitboards[6], 0);
    assert_eq!(board.bitboards[0], 1u64 << 19);
}

#[test]
fn en_passant_exposing_the_king_is_not_listed() {
    let mut board = Board::new(Some("8/8/8/3pP3/7k/8/8/r6K w - d6"));
    let moves = generate_legal_moves(&mut board);
    assert!(moves.iter().all(|m| m.alg_move() != "e5d6"));
}

#[test]
fn perft_of_zero_depth_is_one() {
    let mut board = Board::new(Some("8/8/8/8/8/8/8/8 w - -"));
    assert_eq!(perft(&mut board, 0), 1);
    assert_eq!(perft(&mut board, 3), 0);
}

#[test]
fn malformed_descriptors_are_refused() {
    assert_eq!(Board::from_fen("8/8/8/8/8/8/8/8 x - -").err(), Some(FenError::Side));
    assert_eq!(Board::from_fen("9/8/8/8/8/8/8/8 w - -").err(), Some(FenError::UnknownPiece));
    assert_eq!(Board::from_fen("ppppppppp/8/8/8/8/8/8/8 w - -").err(), Some(FenError::OverlongRank));
    assert_eq!(Board::from_fen("8/8/8/8/8/8/8/8 w").err(), Some(FenError::MissingField));
    assert_eq!(Board::from_fen("8/8/8/8/8/8/8/x7 w - -").err(), Some(FenError::UnknownPiece));
    assert_eq!(Board::from_fen("8/8/8/8/8/8/8/8 w - e4").err(), Some(FenError::EnPassant));
    assert!(Board::from_fen("8/8/8/8/8/8/8/8 B - -").is_ok());
}

#[test]
fn descriptor_fields_are_read() {
    let board = Board::from_fen("r3k2r/8/8/8/8/8/8/R3K2R b Kq e3 0 1").unwrap();
    assert_eq!(board.current_state.turn, Turn::Black);
    assert_eq!(board.current_state.castling_rights, 0b1001);
    assert_eq!(board.current_state.en_passant, Some(44));
    assert_eq!(board.bitboards[1], (1u64 << 56) | (1u64 << 63));
    assert_eq!(board.bitboards[8], 1u64 << 4);
    assert_eq!(board.state_history, vec![board.current_state]);
}

#[test]
fn standard_start_matches_its_descriptor() {
    let a = meeko::board::standard_start();
    let b = Board::new(Some("rnbqkbnr/pppppppp/8/8/8/8/PPPPPPPP/RNBQKBNR w KQkq - 0 1"));
    assert_eq!(*a.bitboards, *b.bitboards);
    assert_eq!(a.current_state, b.current_state);
    assert_eq!(a.all_white(), 0xFFFF_0000_0000_0000);
    assert_eq!(a.all_black(), 0xFFFF);
    assert_eq!(a.occupied(), 0xFFFF_0000_0000_FFFF);
}
