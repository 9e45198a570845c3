use meeko::board::{Board, State};
use meeko::utils::{
    algebraic_to_square, bitset, count_pieces, find_bitboard, get_square, mask, move_piece,
    square_to_algebraic, BitIter,
};

#[test]
fn test_mask() {
    assert_eq!(mask(0), 1);
    assert_eq!(mask(1), 2);
    assert_eq!(mask(7), 128);
}

#[test]
fn test_bitset() {
    let bb: u64 = 0b0000_0000_0000_0001;
    assert_eq!(bitset(&bb, 0), true);
    assert_eq!(bitset(&bb, 1), false);
}

#[test]
fn test_get_square() {
    assert_eq!(get_square(0).unwrap(), 1);
    assert_eq!(get_square(63).unwrap(), 0x8000_0000_0000_0000);
}

#[test]
fn get_square_past_the_board_is_an_error() {
    assert!(get_square(64).is_err());
}

#[test]
fn test_find_bitboard() {
    let bitboards = Board {
        bitboards: Box::new([
            0b0000_0000_0000_0001,
            0b0000_0000_0000_0010,
            0b0000_0000_0000_0100,
            0b0000_0000_0000_1000,
            0b0000_0000_0001_0000,
            0b0000_0000_0010_0000,
            0b0000_0000_0100_0000,
            0b0000_0000_1000_0000,
            0b0000_0001_0000_0000,
            0b0000_0010_0000_0000,
            0b0000_0100_0000_0000,
            0b0000_1000_0000_0000,
        ]),
        current_state: State::new(None),
        state_history: vec![State::new(None)],
    };
    assert_eq!(find_bitboard(&bitboards, 0), Some(0));
    assert_eq!(find_bitboard(&bitboards, 1), Some(1));
    assert_eq!(find_bitboard(&bitboards, 2), Some(2));
    assert_eq!(find_bitboard(&bitboards, 3), Some(3));
    assert_eq!(find_bitboard(&bitboards, 4), Some(4));
    assert_eq!(find_bitboard(&bitboards, 5), Some(5));
    assert_eq!(find_bitboard(&bitboards, 6), Some(6));
    assert_eq!(find_bitboard(&bitboards, 7), Some(7));
    assert_eq!(find_bitboard(&bitboards, 8), Some(8));
    assert_eq!(find_bitboard(&bitboards, 9), Some(9));
    assert_eq!(find_bitboard(&bitboards, 10), Some(10));
    assert_eq!(find_bitboard(&bitboards, 11), Some(11));
    assert_eq!(find_bitboard(&bitboards, 12), None);
}

#[test]
fn test_move_piece() {
    let mut bitboard: u64 = 0b0000_0000_0000_0000;
    move_piece(&mut bitboard, 0, 1);
    assert_eq!(bitboard, 0b0000_0000_0000_0011);
}

#[test]
fn bit_iter_yields_ascending_squares() {
    let mut it = BitIter::new(0b1010_0100);
    assert_eq!(it.next(), Some(2));
    assert_eq!(it.next(), Some(5));
    assert_eq!(it.next(), Some(7));
    assert_eq!(it.next(), None);
}

#[test]
fn counts_pieces_of_the_opening() {
    let board = Board::new(Some("rnbqkbnr/pppppppp/8/8/8/8/PPPPPPPP/RNBQKBNR w KQkq - 0 1"));
    assert_eq!(count_pieces(&board), 32);
}

#[test]
fn algebraic_round_trip() {
    assert_eq!(algebraic_to_square("a8"), Some(0));
    assert_eq!(algebraic_to_square("h1"), Some(63));
    assert_eq!(algebraic_to_square("e4"), Some(36));
    assert_eq!(algebraic_to_square("-"), None);
    assert_eq!(algebraic_to_square("i4"), None);
    assert_eq!(algebraic_to_square("e9"), None);
    assert_eq!(algebraic_to_square("e44"), None);
    assert_eq!(square_to_algebraic(&36), "e4");
    assert_eq!(square_to_algebraic(&0), "a8");
    assert_eq!(square_to_algebraic(&63), "h1");
}
