use meeko::board::Board;
use meeko::legalmoves::{
    bishop_attacks, get_negative_ray_attacks, get_positive_ray_attacks, init_ray_attacks,
    pawn_captures, queen_attacks, ray_attacks, rook_attacks, Direction,
};

#[test]
fn ray_tables_stop_at_the_edge() {
    assert_eq!(ray_attacks(Direction::North, 0), 0x0101010101010100);
    assert_eq!(ray_attacks(Direction::East, 0), 0xFE);
    assert_eq!(ray_attacks(Direction::West, 0), 0);
    assert_eq!(ray_attacks(Direction::NorthEast, 0), 0x8040201008040200);
    assert_eq!(ray_attacks(Direction::South, 63), 0x0080808080808080);
    assert_eq!(ray_attacks(Direction::NorthWest, 7), 0x0102040810204000);
    let tables = init_ray_attacks();
    assert_eq!(tables[1][0], 0x0101010101010100);
    assert_eq!(tables[7][63], 0x7F00000000000000);
}

#[test]
fn sliders_stop_at_the_first_blocker() {
    let occupied: u64 = 1 << 24;
    assert_eq!(get_positive_ray_attacks(occupied, Direction::North, 0), (1 << 8) | (1 << 16) | (1 << 24));
    assert_eq!(get_negative_ray_attacks(1 << 2, Direction::West, 5), (1 << 4) | (1 << 3) | (1 << 2));
    let rook = rook_attacks(occupied, 0, 0);
    assert_eq!(rook, (1 << 8) | (1 << 16) | (1 << 24) | 0xFE);
    assert_eq!(rook_attacks(occupied, 1 << 24, 0), (1 << 8) | (1 << 16) | 0xFE);
    assert_eq!(bishop_attacks(0, 0, 0), 0x8040201008040200);
    assert_eq!(queen_attacks(0, 0, 0), 0x8040201008040200 | 0x0101010101010100 | 0xFE);
}

#[test]
fn pawn_captures_need_a_target() {
    let board = Board::new(Some("8/8/8/4p3/3P4/8/8/8 w - - 0 1"));
    assert_eq!(pawn_captures(&board, 35, false), 1u64 << 28);
    let empty = Board::new(Some("8/8/8/8/3P4/8/8/8 w - - 0 1"));
    assert_eq!(pawn_captures(&empty, 35, false), 0);
}
