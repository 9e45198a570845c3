use vstd::prelude::*;
use crate::board::{Board, Position, State, Turn, opposite, white_bits, black_bits, occupied_bits, ep_ok, kingside_bit, queenside_bit};
use vstd::string::StringSliceAdditionalSpecFns;
use crate::utils::{square_of_algebraic, sq_mask, has_bit, lowest_bit, squares_of, first_holder, lemma_squares_bounds, mask, square_to_algebraic, algebraic_of};

verus! {

/// Kind of a chess piece.
#[derive(PartialEq, Eq, Structural, Debug, Clone, Copy)]
pub enum Piece {
    Pawn,
    Rook,
    Bishop,
    Knight,
    King,
    Queen,
}

/// The eight compass directions of the ray tables. Directions that step to a
/// higher square index (north-west, north, north-east, east) are positive.
#[derive(PartialEq, Eq, Structural, Debug, Clone, Copy)]
pub enum Direction {
    NorthWest,
    North,
    NorthEast,
    East,
    SouthEast,
    South,
    SouthWest,
    West,
}

/// A move: from and to squares, the moving piece, an optional promotion and
/// captured kind, whether it is a castling (stored as the rook's move), and
/// whether it captures en passant.
#[derive(PartialEq, Eq, Structural, Debug, Clone, Copy)]
pub struct Move {
    pub from: u8,
    pub to: u8,
    pub piece: Piece,
    pub promotion: Option<Piece>,
    pub captured: Option<Piece>,
    pub castled: bool,
    pub en_passant_capture: bool,
}

// ---------------------------------------------------------------------------
// Geometry

/// The square one step from `sq` in direction `d`, if it is on the board.
pub open spec fn step(d: Direction, sq: int) -> Option<int> {
    let f = sq % 8;
    let r = sq / 8;
    match d {
        Direction::NorthWest => if r < 7 && f > 0 { Some(sq + 7) } else { None },
        Direction::North => if r < 7 { Some(sq + 8) } else { None },
        Direction::NorthEast => if r < 7 && f < 7 { Some(sq + 9) } else { None },
        Direction::East => if f < 7 { Some(sq + 1) } else { None },
        Direction::SouthEast => if r > 0 && f < 7 { Some(sq - 7) } else { None },
        Direction::South => if r > 0 { Some(sq - 8) } else { None },
        Direction::SouthWest => if r > 0 && f > 0 { Some(sq - 9) } else { None },
        Direction::West => if f > 0 { Some(sq - 1) } else { None },
    }
}

/// The squares reached from `sq` by up to `n` steps in direction `d`.
pub open spec fn ray_steps(d: Direction, sq: int, n: nat) -> u64
    decreases n,
{
    if n == 0 {
        0
    } else {
        match step(d, sq) {
            Some(t) => sq_mask(t) | ray_steps(d, t, (n - 1) as nat),
            None => 0,
        }
    }
}

/// The ray from `sq` in direction `d`: every square strictly beyond `sq` up
/// to the edge of the board.
pub open spec fn ray(d: Direction, sq: int) -> u64 {
    ray_steps(d, sq, 7)
}

fn step_exec(d: Direction, sq: u8) -> (r: Option<u8>)
    requires
        sq < 64,
    ensures
        r matches Some(t) ==> step(d, sq as int) == Some(t as int) && t < 64,
        r is None ==> step(d, sq as int) is None,
{
    let f = sq % 8;
    let r = sq / 8;
    match d {
        Direction::NorthWest => if r < 7 && f > 0 { Some(sq + 7) } else { None },
        Direction::North => if r < 7 { Some(sq + 8) } else { None },
        Direction::NorthEast => if r < 7 && f < 7 { Some(sq + 9) } else { None },
        Direction::East => if f < 7 { Some(sq + 1) } else { None },
        Direction::SouthEast => if r > 0 && f < 7 { Some(sq - 7) } else { None },
        Direction::South => if r > 0 { Some(sq - 8) } else { None },
        Direction::SouthWest => if r > 0 && f > 0 { Some(sq - 9) } else { None },
        Direction::West => if f > 0 { Some(sq - 1) } else { None },
    }
}

fn ray_walk(d: Direction, sq: u8, n: u8) -> (r: u64)
    requires
        sq < 64,
    ensures
        r == ray_steps(d, sq as int, n as nat),
    decreases n,
{
    if n == 0 {
        0
    } else {
        match step_exec(d, sq) {
            Some(t) => mask(t) | ray_walk(d, t, n - 1),
            None => 0,
        }
    }
}

/// The ray table entry for direction `dir` and square `square`.
pub fn ray_attacks(dir: Direction, square: usize) -> (r: u64)
    requires
        square < 64,
    ensures
        r == ray(dir, square as int),
{
    ray_walk(dir, square as u8, 7)
}

/// Every ray table, indexed by direction (north-west, north, north-east,
/// east, south-east, south, south-west, west) and square.
pub fn init_ray_attacks() -> (r: [[u64; 64]; 8])
    ensures
        forall|s: int| 0 <= s < 64 ==> r[0][s] == ray(Direction::NorthWest, s) && r[1][s] == ray(
            Direction::North,
            s,
        ) && r[2][s] == ray(Direction::NorthEast, s) && r[3][s] == ray(Direction::East, s)
            && r[4][s] == ray(Direction::SouthEast, s) && r[5][s] == ray(Direction::South, s)
            && r[6][s] == ray(Direction::SouthWest, s) && r[7][s] == ray(Direction::West, s),
{
    let mut res: [[u64; 64]; 8] = [[0u64; 64]; 8];
    res[0] = direction_rays(Direction::NorthWest);
    res[1] = direction_rays(Direction::North);
    res[2] = direction_rays(Direction::NorthEast);
    res[3] = direction_rays(Direction::East);
    res[4] = direction_rays(Direction::SouthEast);
    res[5] = direction_rays(Direction::South);
    res[6] = direction_rays(Direction::SouthWest);
    res[7] = direction_rays(Direction::West);
    res
}

fn direction_rays(d: Direction) -> (r: [u64; 64])
    ensures
        forall|s: int| 0 <= s < 64 ==> r[s] == ray(d, s),
{
    let mut res: [u64; 64] = [0u64; 64];
    let mut i: usize = 0;
    while i < 64
        invariant
            i <= 64,
            forall|s: int| 0 <= s < i ==> res[s] == ray(d, s),
        decreases 64 - i,
    {
        res[i] = ray_attacks(d, i);
        i = i + 1;
    }
    res
}

/// Knight jumps from the squares of `b`, wrap-around suppressed by file masks.
pub open spec fn knight_pattern(b: u64) -> u64 {
    let l1 = (b >> 1u64) & 0x7f7f7f7f7f7f7f7fu64;
    let l2 = (b >> 2u64) & 0x3f3f3f3f3f3f3f3fu64;
    let r1 = (b << 1u64) & 0xfefefefefefefefeu64;
    let r2 = (b << 2u64) & 0xfcfcfcfcfcfcfcfcu64;
    let h1 = l1 | r1;
    let h2 = l2 | r2;
    (h1 << 16u64) | (h1 >> 16u64) | (h2 << 8u64) | (h2 >> 8u64)
}

/// Single king steps from the squares of `b`.
pub open spec fn king_pattern(b: u64) -> u64 {
    let a = ((b << 1u64) & !0x0101010101010101u64) | ((b >> 1u64) & !0x8080808080808080u64);
    let k = b | a;
    a | (k << 8u64) | (k >> 8u64)
}

/// Squares a knight attacks from the squares of `knight_bb`.
fn knight_attacks(knight_bb: u64) -> (r: u64)
    ensures
        r == knight_pattern(knight_bb),
{
    let l1 = (knight_bb >> 1) & 0x7f7f7f7f7f7f7f7f;
    let l2 = (knight_bb >> 2) & 0x3f3f3f3f3f3f3f3f;
    let r1 = (knight_bb << 1) & 0xfefefefefefefefe;
    let r2 = (knight_bb << 2) & 0xfcfcfcfcfcfcfcfc;
    let h1 = l1 | r1;
    let h2 = l2 | r2;
    (h1 << 16) | (h1 >> 16) | (h2 << 8) | (h2 >> 8)
}

fn east_one(bitboard: u64) -> (r: u64)
    ensures
        r == (bitboard << 1u64) & !0x0101010101010101u64,
{
    (bitboard << 1) & !0x0101010101010101u64
}

fn west_one(bitboard: u64) -> (r: u64)
    ensures
        r == (bitboard >> 1u64) & !0x8080808080808080u64,
{
    (bitboard >> 1) & !0x8080808080808080u64
}

fn north_one(bitboard: u64) -> (r: u64)
    ensures
        r == bitboard << 8u64,
{
    bitboard << 8
}

fn south_one(bitboard: u64) -> (r: u64)
    ensures
        r == bitboard >> 8u64,
{
    bitboard >> 8
}

/// Squares a king attacks from the squares of `king_set`.
fn king_attacks(king_set: u64) -> (r: u64)
    ensures
        r == king_pattern(king_set),
{
    let attacks = east_one(king_set) | west_one(king_set);
    let k = king_set | attacks;
    attacks | north_one(k) | south_one(k)
}

/// The knight table entry of a square.
pub open spec fn knight_table(sq: int) -> u64 {
    knight_pattern(sq_mask(sq))
}

/// The king table entry of a square.
pub open spec fn king_table(sq: int) -> u64 {
    king_pattern(sq_mask(sq))
}

fn knight_moves(square: usize) -> (r: u64)
    requires
        square < 64,
    ensures
        r == knight_table(square as int),
{
    knight_attacks(mask(square as u8))
}

fn king_moves(square: usize) -> (r: u64)
    requires
        square < 64,
    ensures
        r == king_table(square as int),
{
    king_attacks(mask(square as u8))
}

/// The knight table: the knight jumps from every square.
pub fn init_knight_tables() -> (r: [u64; 64])
    ensures
        forall|s: int| 0 <= s < 64 ==> r[s] == knight_table(s),
{
    let mut res: [u64; 64] = [0u64; 64];
    let mut i: usize = 0;
    while i < 64
        invariant
            i <= 64,
            forall|s: int| 0 <= s < i ==> res[s] == knight_table(s),
        decreases 64 - i,
    {
        res[i] = knight_moves(i);
        i = i + 1;
    }
    res
}

/// The king table: the king steps from every square.
pub fn init_king_tables() -> (r: [u64; 64])
    ensures
        forall|s: int| 0 <= s < 64 ==> r[s] == king_table(s),
{
    let mut res: [u64; 64] = [0u64; 64];
    let mut i: usize = 0;
    while i < 64
        invariant
            i <= 64,
            forall|s: int| 0 <= s < i ==> res[s] == king_table(s),
        decreases 64 - i,
    {
        res[i] = king_moves(i);
        i = i + 1;
    }
    res
}

// ---------------------------------------------------------------------------
// Sliding attacks

/// Index of the highest set bit of a non-empty word.
pub open spec fn highest_bit(b: u64) -> int {
    63 - vstd::std_specs::bits::u64_leading_zeros(b)
}

/// A positive ray cut after its first blocker (the lowest set bit).
pub open spec fn positive_ray(occupied: u64, d: Direction, sq: int) -> u64 {
    let a = ray(d, sq);
    let blocker = a & occupied;
    if blocker != 0 {
        a ^ ray(d, lowest_bit(blocker))
    } else {
        a
    }
}

/// A negative ray cut after its first blocker (the highest set bit).
pub open spec fn negative_ray(occupied: u64, d: Direction, sq: int) -> u64 {
    let a = ray(d, sq);
    let blocker = a & occupied;
    if blocker != 0 {
        a ^ ray(d, highest_bit(blocker))
    } else {
        a
    }
}

pub open spec fn bishop_spec(occupied: u64, own: u64, sq: int) -> u64 {
    (positive_ray(occupied, Direction::NorthWest, sq) | positive_ray(
        occupied,
        Direction::NorthEast,
        sq,
    ) | negative_ray(occupied, Direction::SouthWest, sq) | negative_ray(
        occupied,
        Direction::SouthEast,
        sq,
    )) & !own
}

pub open spec fn rook_spec(occupied: u64, own: u64, sq: int) -> u64 {
    (positive_ray(occupied, Direction::North, sq) | positive_ray(occupied, Direction::East, sq)
        | negative_ray(occupied, Direction::West, sq) | negative_ray(
        occupied,
        Direction::South,
        sq,
    )) & !own
}

pub open spec fn queen_spec(occupied: u64, own: u64, sq: int) -> u64 {
    rook_spec(occupied, own, sq) | bishop_spec(occupied, own, sq)
}

/// Reachable squares along a positive ray: the ray with everything beyond
/// the first blocker removed.
pub fn get_positive_ray_attacks(occupied: u64, dir: Direction, square: usize) -> (r: u64)
    requires
        square < 64,
    ensures
        r == positive_ray(occupied, dir, square as int),
{
    let attacks = ray_attacks(dir, square);
    let blocker = attacks & occupied;
    if blocker != 0 {
        proof {
            vstd::std_specs::bits::axiom_u64_trailing_zeros(blocker);
        }
        let sq = blocker.trailing_zeros();
        attacks ^ ray_attacks(dir, sq as usize)
    } else {
        attacks
    }
}

/// Reachable squares along a negative ray: the ray with everything beyond
/// the first blocker removed.
pub fn get_negative_ray_attacks(occupied: u64, dir: Direction, square: usize) -> (r: u64)
    requires
        square < 64,
    ensures
        r == negative_ray(occupied, dir, square as int),
{
    let attacks = ray_attacks(dir, square);
    let blocker = attacks & occupied;
    if blocker != 0 {
        proof {
            vstd::std_specs::bits::axiom_u64_leading_zeros(blocker);
        }
        let lz = blocker.leading_zeros();
        let sq = 63 - lz as usize;
        attacks ^ ray_attacks(dir, sq)
    } else {
        attacks
    }
}

/// Bishop destinations: the four diagonal rays, without own pieces.
pub fn bishop_attacks(occupied: u64, own: u64, square: usize) -> (r: u64)
    requires
        square < 64,
    ensures
        r == bishop_spec(occupied, own, square as int),
{
    (get_positive_ray_attacks(occupied, Direction::NorthWest, square) | get_positive_ray_attacks(
        occupied,
        Direction::NorthEast,
        square,
    ) | get_negative_ray_attacks(occupied, Direction::SouthWest, square)
        | get_negative_ray_attacks(occupied, Direction::SouthEast, square)) & !own
}

/// Rook destinations: the four axial rays, without own pieces.
pub fn rook_attacks(occupied: u64, own: u64, square: usize) -> (r: u64)
    requires
        square < 64,
    ensures
        r == rook_spec(occupied, own, square as int),
{
    (get_positive_ray_attacks(occupied, Direction::North, square) | get_positive_ray_attacks(
        occupied,
        Direction::East,
        square,
    ) | get_negative_ray_attacks(occupied, Direction::West, square) | get_negative_ray_attacks(
        occupied,
        Direction::South,
        square,
    )) & !own
}

/// Queen destinations: rook and bishop destinations together.
pub fn queen_attacks(occupied: u64, own: u64, square: usize) -> (r: u64)
    requires
        square < 64,
    ensures
        r == queen_spec(occupied, own, square as int),
{
    rook_attacks(occupied, own, square) | bishop_attacks(occupied, own, square)
}

} // verus!

verus! {

// ---------------------------------------------------------------------------
// Bitboard slots

/// Column of a piece kind among a side's six bitboards.
pub open spec fn kind_index(p: Piece) -> int {
    match p {
        Piece::Pawn => 0,
        Piece::Rook => 1,
        Piece::King => 2,
        Piece::Knight => 3,
        Piece::Queen => 4,
        Piece::Bishop => 5,
    }
}

/// Bitboard slot of a side's piece kind: the kind's column, plus six for Black.
pub open spec fn slot(t: Turn, p: Piece) -> int {
    kind_index(p) + if t == Turn::Black { 6int } else { 0int }
}

/// The piece kind that bitboard slot `i` holds.
pub open spec fn kind_of_slot(i: int) -> Piece {
    let k = i % 6;
    if k == 0 {
        Piece::Pawn
    } else if k == 1 {
        Piece::Rook
    } else if k == 2 {
        Piece::King
    } else if k == 3 {
        Piece::Knight
    } else if k == 4 {
        Piece::Queen
    } else {
        Piece::Bishop
    }
}

/// All pieces of side `t`.
pub open spec fn own_bits(bbs: Seq<u64>, t: Turn) -> u64 {
    if t == Turn::White {
        white_bits(bbs)
    } else {
        black_bits(bbs)
    }
}

fn bitboard_from_piece_and_color(color: &Turn, piece: Piece) -> (r: usize)
    ensures
        r as int == slot(*color, piece),
        r < 12,
{
    let offset: usize = if *color == Turn::Black { 6 } else { 0 };
    match piece {
        Piece::Pawn => 0 + offset,
        Piece::Rook => 1 + offset,
        Piece::King => 2 + offset,
        Piece::Knight => 3 + offset,
        Piece::Queen => 4 + offset,
        Piece::Bishop => 5 + offset,
    }
}

fn bitboard_from_piece_and_board(board: &Board, piece: Piece) -> (r: usize)
    ensures
        r as int == slot(board.current_state.turn, piece),
        r < 12,
{
    bitboard_from_piece_and_color(&board.current_state.turn, piece)
}

fn piece_from_square(bb_index: u8) -> (r: Option<Piece>)
    ensures
        r == Some(kind_of_slot(bb_index as int)),
{
    match bb_index % 6 {
        0 => Some(Piece::Pawn),
        1 => Some(Piece::Rook),
        2 => Some(Piece::King),
        3 => Some(Piece::Knight),
        4 => Some(Piece::Queen),
        _ => Some(Piece::Bishop),
    }
}

fn own_pieces(board: &Board, t: Turn) -> (r: u64)
    ensures
        r == own_bits(board.bitboards@, t),
{
    match t {
        Turn::White => board.all_white(),
        Turn::Black => board.all_black(),
    }
}

// ---------------------------------------------------------------------------
// Pawns

const NOT_H_FILE: u64 = 0x7F7F7F7F7F7F7F7F;

const NOT_A_FILE: u64 = 0xFEFEFEFEFEFEFEFE;

/// The two diagonal-forward squares of a pawn of side `t` on `sq`.
pub open spec fn pawn_attack_pattern(t: Turn, sq: int) -> u64 {
    let s = sq_mask(sq);
    if t == Turn::White {
        (if s & 0x7F7F7F7F7F7F7F7Fu64 != 0 { s >> 7u64 } else { 0u64 }) | (if s
            & 0xFEFEFEFEFEFEFEFEu64 != 0 {
            s >> 9u64
        } else {
            0u64
        })
    } else {
        (if s & 0xFEFEFEFEFEFEFEFEu64 != 0 { s << 7u64 } else { 0u64 }) | (if s
            & 0x7F7F7F7F7F7F7F7Fu64 != 0 {
            s << 9u64
        } else {
            0u64
        })
    }
}

/// The en-passant target as a bitboard.
pub open spec fn ep_bits(st: State) -> u64 {
    match st.en_passant {
        Some(e) => if e < 64 {
            sq_mask(e as int)
        } else {
            0
        },
        None => 0,
    }
}

/// Pawn captures from `sq`: diagonal-forward squares holding an opposing
/// piece or equal to the en-passant target. With `reverse`, for the side not
/// to move.
pub open spec fn pawn_capture_spec(bbs: Seq<u64>, st: State, sq: int, reverse: bool) -> u64 {
    let side = if reverse { opposite(st.turn) } else { st.turn };
    pawn_attack_pattern(side, sq) & (own_bits(bbs, opposite(side)) | ep_bits(st))
}

/// Pawn pushes from `sq`: one square forward if empty, and two from the
/// starting rank if both are empty.
pub open spec fn pawn_push_spec(bbs: Seq<u64>, t: Turn, sq: int) -> u64 {
    let s = sq_mask(sq);
    let occ = occupied_bits(bbs);
    if t == Turn::White {
        if (s >> 8u64) & occ == 0 {
            if s & 0x00FF000000000000u64 != 0 && (s >> 16u64) & occ == 0 {
                (s >> 8u64) | (s >> 16u64)
            } else {
                s >> 8u64
            }
        } else {
            0
        }
    } else {
        if (s << 8u64) & occ == 0 {
            if s & 0xFF00u64 != 0 && (s << 16u64) & occ == 0 {
                (s << 8u64) | (s << 16u64)
            } else {
                s << 8u64
            }
        } else {
            0
        }
    }
}

/// Squares that a pawn on `square` of the side to move (of the other side
/// with `reverse_state`) can capture on.
pub fn pawn_captures(board: &Board, square: usize, reverse_state: bool) -> (r: u64)
    requires
        square < 64,
    ensures
        r == pawn_capture_spec(board.bitboards@, board.current_state, square as int, reverse_state),
{
    let s = mask(square as u8);
    let side = if reverse_state {
        match board.current_state.turn {
            Turn::White => Turn::Black,
            Turn::Black => Turn::White,
        }
    } else {
        board.current_state.turn
    };
    let opponent = match side {
        Turn::White => board.all_black(),
        Turn::Black => board.all_white(),
    };
    let ep = match board.current_state.en_passant {
        Some(e) => {
            if e < 64 {
                mask(e)
            } else {
                0
            }
        },
        None => 0,
    };
    pawn_pattern(side, s) & (opponent | ep)
}

fn pawn_pattern(t: Turn, s: u64) -> (r: u64)
    ensures
        forall|sq: int| 0 <= sq < 64 && s == sq_mask(sq) ==> r == pawn_attack_pattern(t, sq),
{
    match t {
        Turn::White => (if s & NOT_H_FILE != 0 { s >> 7 } else { 0 }) | (if s & NOT_A_FILE != 0 {
            s >> 9
        } else {
            0
        }),
        Turn::Black => (if s & NOT_A_FILE != 0 { s << 7 } else { 0 }) | (if s & NOT_H_FILE != 0 {
            s << 9
        } else {
            0
        }),
    }
}

fn pawn_square_pseudo_legal(board: &Board, square: usize) -> (r: u64)
    requires
        square < 64,
    ensures
        r == pawn_push_spec(board.bitboards@, board.current_state.turn, square as int),
{
    let s = mask(square as u8);
    let occ = board.occupied();
    match board.current_state.turn {
        Turn::White => {
            if (s >> 8) & occ == 0 {
                if s & 0x00FF000000000000 != 0 && (s >> 16) & occ == 0 {
                    (s >> 8) | (s >> 16)
                } else {
                    s >> 8
                }
            } else {
                0
            }
        },
        Turn::Black => {
            if (s << 8) & occ == 0 {
                if s & 0xFF00 != 0 && (s << 16) & occ == 0 {
                    (s << 8) | (s << 16)
                } else {
                    s << 8
                }
            } else {
                0
            }
        },
    }
}

fn knight_square_pseudo_legal(board: &Board, square: usize) -> (r: u64)
    requires
        square < 64,
    ensures
        r == knight_table(square as int) & !own_bits(board.bitboards@, board.current_state.turn),
{
    knight_moves(square) & !own_pieces(board, board.current_state.turn)
}

fn king_square_pseudo_legal(board: &Board, square: usize) -> (r: u64)
    requires
        square < 64,
    ensures
        r == king_table(square as int) & !own_bits(board.bitboards@, board.current_state.turn),
{
    king_moves(square) & !own_pieces(board, board.current_state.turn)
}

// ---------------------------------------------------------------------------
// Pseudo-legal moves

/// Destinations of a piece of the side to move standing on `sq`, own pieces
/// excluded.
pub open spec fn targets(bbs: Seq<u64>, st: State, piece: Piece, sq: int) -> u64 {
    let own = own_bits(bbs, st.turn);
    let occ = occupied_bits(bbs);
    match piece {
        Piece::Pawn => (pawn_push_spec(bbs, st.turn, sq) | pawn_capture_spec(bbs, st, sq, false))
            & !own,
        Piece::Rook => rook_spec(occ, own, sq),
        Piece::Bishop => bishop_spec(occ, own, sq),
        Piece::Queen => queen_spec(occ, own, sq),
        Piece::Knight => knight_table(sq) & !own,
        Piece::King => king_table(sq) & !own,
    }
}

/// The kind captured by moving onto `to`: that of the first bitboard
/// holding it.
pub open spec fn captured_at(bbs: Seq<u64>, to: int) -> Option<Piece> {
    match first_holder(bbs, to, 0) {
        Some(i) => Some(kind_of_slot(i as int)),
        None => None,
    }
}

/// Whether a move of `piece` onto `to` captures en passant.
pub open spec fn takes_en_passant(st: State, piece: Piece, to: int) -> bool {
    piece == Piece::Pawn && st.en_passant == Some(to as u8)
}

/// Whether a move of `piece` onto `to` promotes.
pub open spec fn promotes(t: Turn, piece: Piece, to: int) -> bool {
    piece == Piece::Pawn && ((t == Turn::White && to < 8) || (t == Turn::Black && to >= 56))
}

/// The move record from `from` to `to` with the given promotion.
pub open spec fn record(
    bbs: Seq<u64>,
    st: State,
    piece: Piece,
    from: int,
    to: int,
    promo: Option<Piece>,
) -> Move {
    Move {
        from: from as u8,
        to: to as u8,
        piece,
        promotion: promo,
        captured: if takes_en_passant(st, piece, to) {
            Some(Piece::Pawn)
        } else {
            captured_at(bbs, to)
        },
        castled: false,
        en_passant_capture: takes_en_passant(st, piece, to),
    }
}

/// The records of one destination: four promotions (queen, bishop, rook,
/// knight) on the far rank, one plain move otherwise.
pub open spec fn records_for(bbs: Seq<u64>, st: State, piece: Piece, from: int, to: int) -> Seq<
    Move,
> {
    if promotes(st.turn, piece, to) {
        seq![
            record(bbs, st, piece, from, to, Some(Piece::Queen)),
            record(bbs, st, piece, from, to, Some(Piece::Bishop)),
            record(bbs, st, piece, from, to, Some(Piece::Rook)),
            record(bbs, st, piece, from, to, Some(Piece::Knight)),
        ]
    } else {
        seq![record(bbs, st, piece, from, to, None)]
    }
}

/// The records of the first `n` destinations of `tos`.
pub open spec fn records_upto(
    bbs: Seq<u64>,
    st: State,
    piece: Piece,
    from: int,
    tos: Seq<int>,
    n: int,
) -> Seq<Move>
    decreases n,
{
    if n <= 0 {
        Seq::empty()
    } else {
        records_upto(bbs, st, piece, from, tos, n - 1) + records_for(bbs, st, piece, from, tos[n - 1])
    }
}

/// The records for every destination of `dests`, in ascending order.
pub open spec fn records_of(bbs: Seq<u64>, st: State, piece: Piece, from: int, dests: u64) -> Seq<
    Move,
> {
    records_upto(bbs, st, piece, from, squares_of(dests), squares_of(dests).len() as int)
}

/// The pseudo-legal moves of the pieces on the first `n` squares of `froms`.
pub open spec fn pseudo_upto(bbs: Seq<u64>, st: State, piece: Piece, froms: Seq<int>, n: int) -> Seq<
    Move,
>
    decreases n,
{
    if n <= 0 {
        Seq::empty()
    } else {
        pseudo_upto(bbs, st, piece, froms, n - 1) + records_of(
            bbs,
            st,
            piece,
            froms[n - 1],
            targets(bbs, st, piece, froms[n - 1]),
        )
    }
}

/// Pseudo-legal moves of one piece kind of the side to move, by ascending
/// origin, then ascending destination.
pub open spec fn pseudo_spec(bbs: Seq<u64>, st: State, piece: Piece) -> Seq<Move> {
    let froms = squares_of(bbs[slot(st.turn, piece)]);
    pseudo_upto(bbs, st, piece, froms, froms.len() as int)
}

fn promotes_exec(t: Turn, piece: Piece, to: u8) -> (r: bool)
    ensures
        r == promotes(t, piece, to as int),
{
    piece == Piece::Pawn && ((t == Turn::White && to < 8) || (t == Turn::Black && to >= 56))
}

fn make_record(board: &Board, piece: Piece, from: u8, to: u8, promo: Option<Piece>) -> (r: Move)
    requires
        to < 64,
    ensures
        r == record(board.bitboards@, board.current_state, piece, from as int, to as int, promo),
{
    proof {
        crate::utils::lemma_first_holder_range(board.bitboards@, to as int, 0);
    }
    let mut captured: Option<Piece> = match crate::utils::find_bitboard(board, to) {
        Some(i) => piece_from_square(i as u8),
        None => None,
    };
    let mut en_passant_capture = false;
    match board.current_state.en_passant {
        Some(e) => {
            if piece == Piece::Pawn && e == to {
                captured = Some(Piece::Pawn);
                en_passant_capture = true;
            }
        },
        None => {},
    }
    Move { from, to, piece, promotion: promo, captured, castled: false, en_passant_capture }
}

/// Move records for every destination of `bitboard`; promotions expand to
/// four records.
fn pseudo_legal_to_moves(board: &Board, bitboard: u64, from_square: u8, piece: Piece) -> (r: Vec<
    Move,
>)
    ensures
        r@ == records_of(board.bitboards@, board.current_state, piece, from_square as int, bitboard),
{
    let ghost tos = squares_of(bitboard);
    let mut moves: Vec<Move> = Vec::new();
    let mut rest: u64 = bitboard;
    let mut k: usize = 0;
    proof {
        lemma_squares_bounds(bitboard);
    }
    while rest != 0
        invariant
            tos == squares_of(bitboard),
            squares_of(rest) == tos.skip(k as int),
            k <= tos.len(),
            tos.len() <= 64,
            moves@ == records_upto(
                board.bitboards@,
                board.current_state,
                piece,
                from_square as int,
                tos,
                k as int,
            ),
        decreases tos.len() - k,
    {
        proof {
            crate::utils::lemma_advance(rest, tos, k as int);
        }
        let to = rest.trailing_zeros() as u8;
        rest = rest & (rest - 1);
        if promotes_exec(board.current_state.turn, piece, to) {
            moves.push(make_record(board, piece, from_square, to, Some(Piece::Queen)));
            moves.push(make_record(board, piece, from_square, to, Some(Piece::Bishop)));
            moves.push(make_record(board, piece, from_square, to, Some(Piece::Rook)));
            moves.push(make_record(board, piece, from_square, to, Some(Piece::Knight)));
        } else {
            moves.push(make_record(board, piece, from_square, to, None));
        }
        proof {
            assert(moves@ =~= records_upto(
                board.bitboards@,
                board.current_state,
                piece,
                from_square as int,
                tos,
                k as int + 1,
            ));
        }
        k = k + 1;
    }
    proof {
        crate::utils::lemma_empty_word(0);
    }
    moves
}

/// Destinations of a piece of the side to move on `square`.
fn piece_targets(board: &Board, piece: Piece, square: usize) -> (r: u64)
    requires
        square < 64,
    ensures
        r == targets(board.bitboards@, board.current_state, piece, square as int),
{
    let occupied = board.occupied();
    let own = own_pieces(board, board.current_state.turn);
    match piece {
        Piece::Pawn => (pawn_square_pseudo_legal(board, square) | pawn_captures(
            board,
            square,
            false,
        )) & !own,
        Piece::Rook => rook_attacks(occupied, own, square),
        Piece::Bishop => bishop_attacks(occupied, own, square),
        Piece::Knight => knight_square_pseudo_legal(board, square),
        Piece::King => king_square_pseudo_legal(board, square),
        Piece::Queen => queen_attacks(occupied, own, square),
    }
}

/// Pseudo-legal moves of one piece kind of the side to move.
fn pseudo_legal_moves(board: &Board, piece: Piece) -> (r: Vec<Move>)
    ensures
        r@ == pseudo_spec(board.bitboards@, board.current_state, piece),
{
    let bb_index = bitboard_from_piece_and_board(board, piece);
    let ghost froms = squares_of(board.bitboards@[bb_index as int]);
    let mut result: Vec<Move> = Vec::new();
    let mut rest: u64 = board.bitboards[bb_index];
    let mut k: usize = 0;
    proof {
        lemma_squares_bounds(rest);
    }
    while rest != 0
        invariant
            froms == squares_of(board.bitboards@[bb_index as int]),
            bb_index as int == slot(board.current_state.turn, piece),
            squares_of(rest) == froms.skip(k as int),
            k <= froms.len(),
            froms.len() <= 64,
            result@ == pseudo_upto(board.bitboards@, board.current_state, piece, froms, k as int),
        decreases froms.len() - k,
    {
        proof {
            crate::utils::lemma_advance(rest, froms, k as int);
        }
        let square = rest.trailing_zeros() as usize;
        rest = rest & (rest - 1);
        let dests = piece_targets(board, piece, square);
        let mut moves = pseudo_legal_to_moves(board, dests, square as u8, piece);
        result.append(&mut moves);
        proof {
            assert(result@ =~= pseudo_upto(
                board.bitboards@,
                board.current_state,
                piece,
                froms,
                k as int + 1,
            ));
        }
        k = k + 1;
    }
    proof {
        crate::utils::lemma_empty_word(0);
    }
    result
}

} // verus!

verus! {

// ---------------------------------------------------------------------------
// Attacked squares and check

/// Squares attacked by a piece of kind `kind` of side `attacker` on `sq`:
/// pawns their two diagonal-forward squares, sliders their rays cut at the
/// first blocker, knights and kings their tables.
pub open spec fn piece_attacks(kind: Piece, attacker: Turn, sq: int, occ: u64, own: u64) -> u64 {
    match kind {
        Piece::Pawn => pawn_attack_pattern(attacker, sq),
        Piece::Rook => rook_spec(occ, own, sq),
        Piece::Bishop => bishop_spec(occ, own, sq),
        Piece::Queen => queen_spec(occ, own, sq),
        Piece::Knight => knight_table(sq),
        Piece::King => king_table(sq),
    }
}

/// Union of the attacks of pieces on the first `n` squares of `sqs`.
pub open spec fn attacks_upto(
    kind: Piece,
    attacker: Turn,
    occ: u64,
    own: u64,
    sqs: Seq<int>,
    n: int,
) -> u64
    decreases n,
{
    if n <= 0 {
        0
    } else {
        attacks_upto(kind, attacker, occ, own, sqs, n - 1) | piece_attacks(
            kind,
            attacker,
            sqs[n - 1],
            occ,
            own,
        )
    }
}

/// Union of the attacks of every piece of one kind of side `attacker`.
pub open spec fn kind_attacks(bbs: Seq<u64>, attacker: Turn, kind: Piece, occ: u64) -> u64 {
    let sqs = squares_of(bbs[slot(attacker, kind)]);
    attacks_upto(kind, attacker, occ, own_bits(bbs, attacker), sqs, sqs.len() as int)
}

/// Squares attacked by side `attacker`, rays blocked by `occ`.
pub open spec fn attack_set(bbs: Seq<u64>, attacker: Turn, occ: u64) -> u64 {
    kind_attacks(bbs, attacker, Piece::Pawn, occ) | kind_attacks(bbs, attacker, Piece::Rook, occ)
        | kind_attacks(bbs, attacker, Piece::King, occ) | kind_attacks(
        bbs,
        attacker,
        Piece::Knight,
        occ,
    ) | kind_attacks(bbs, attacker, Piece::Queen, occ) | kind_attacks(
        bbs,
        attacker,
        Piece::Bishop,
        occ,
    )
}

/// Whether the king of side `t` is attacked; its own square is left out of
/// the occupancy so that it does not shadow a ray through it.
pub open spec fn in_check(bbs: Seq<u64>, t: Turn) -> bool {
    let king = bbs[slot(t, Piece::King)];
    king & attack_set(bbs, opposite(t), occupied_bits(bbs) & !king) != 0
}

fn flip(t: Turn) -> (r: Turn)
    ensures
        r == opposite(t),
{
    match t {
        Turn::White => Turn::Black,
        Turn::Black => Turn::White,
    }
}

fn single_attacks(kind: Piece, attacker: Turn, square: usize, occ: u64, own: u64) -> (r: u64)
    requires
        square < 64,
    ensures
        r == piece_attacks(kind, attacker, square as int, occ, own),
{
    match kind {
        Piece::Pawn => pawn_pattern(attacker, mask(square as u8)),
        Piece::Rook => rook_attacks(occ, own, square),
        Piece::Bishop => bishop_attacks(occ, own, square),
        Piece::Queen => queen_attacks(occ, own, square),
        Piece::Knight => knight_moves(square),
        Piece::King => king_moves(square),
    }
}

fn kind_attack_bits(board: &Board, attacker: Turn, kind: Piece, occ: u64) -> (r: u64)
    ensures
        r == kind_attacks(board.bitboards@, attacker, kind, occ),
{
    let own = own_pieces(board, attacker);
    let idx = bitboard_from_piece_and_color(&attacker, kind);
    let ghost sqs = squares_of(board.bitboards@[idx as int]);
    let mut rest: u64 = board.bitboards[idx];
    let mut acc: u64 = 0;
    let mut k: usize = 0;
    proof {
        lemma_squares_bounds(rest);
    }
    while rest != 0
        invariant
            sqs == squares_of(board.bitboards@[idx as int]),
            squares_of(rest) == sqs.skip(k as int),
            k <= sqs.len(),
            sqs.len() <= 64,
            own == own_bits(board.bitboards@, attacker),
            acc == attacks_upto(kind, attacker, occ, own, sqs, k as int),
        decreases sqs.len() - k,
    {
        proof {
            crate::utils::lemma_advance(rest, sqs, k as int);
        }
        let square = rest.trailing_zeros() as usize;
        rest = rest & (rest - 1);
        acc = acc | single_attacks(kind, attacker, square, occ, own);
        k = k + 1;
    }
    proof {
        crate::utils::lemma_empty_word(0);
    }
    acc
}

fn attack_union(board: &Board, attacker: Turn, occ: u64) -> (r: u64)
    ensures
        r == attack_set(board.bitboards@, attacker, occ),
{
    kind_attack_bits(board, attacker, Piece::Pawn, occ) | kind_attack_bits(
        board,
        attacker,
        Piece::Rook,
        occ,
    ) | kind_attack_bits(board, attacker, Piece::King, occ) | kind_attack_bits(
        board,
        attacker,
        Piece::Knight,
        occ,
    ) | kind_attack_bits(board, attacker, Piece::Queen, occ) | kind_attack_bits(
        board,
        attacker,
        Piece::Bishop,
        occ,
    )
}

/// Squares attacked by the opponent of `turn`.
pub fn attacks(board: &Board, turn: Turn) -> (r: u64)
    ensures
        r == attack_set(board.bitboards@, opposite(turn), occupied_bits(board.bitboards@)),
{
    attack_union(board, flip(turn), board.occupied())
}

/// Whether the side to move is in check.
fn check(board: &Board) -> (r: bool)
    ensures
        r == in_check(board.bitboards@, board.current_state.turn),
{
    let t = board.current_state.turn;
    let king = board.bitboards[bitboard_from_piece_and_color(&t, Piece::King)];
    let occupied = board.occupied() & !king;
    king & attack_union(board, flip(t), occupied) != 0
}

// ---------------------------------------------------------------------------
// Castling

/// Starting square of the king of side `t` as a bitboard.
pub open spec fn king_start(t: Turn) -> u64 {
    if t == Turn::White {
        0x1000000000000000u64
    } else {
        0x10u64
    }
}

/// Squares between king and rook on the kingside; the king crosses both.
pub open spec fn kingside_path(t: Turn) -> u64 {
    if t == Turn::White {
        0x6000000000000000u64
    } else {
        0x60u64
    }
}

/// Squares between king and rook on the queenside.
pub open spec fn queenside_between(t: Turn) -> u64 {
    if t == Turn::White {
        0x0E00000000000000u64
    } else {
        0x0Eu64
    }
}

/// Squares that the king crosses or lands on when castling queenside.
pub open spec fn queenside_path(t: Turn) -> u64 {
    if t == Turn::White {
        0x0C00000000000000u64
    } else {
        0x0Cu64
    }
}

/// The castling move record: the rook's move, flagged as castling.
pub open spec fn castle_move(from: int, to: int) -> Move {
    Move {
        from: from as u8,
        to: to as u8,
        piece: Piece::Rook,
        promotion: None,
        captured: None,
        castled: true,
        en_passant_capture: false,
    }
}

pub open spec fn kingside_move(t: Turn) -> Move {
    if t == Turn::White {
        castle_move(63, 61)
    } else {
        castle_move(7, 5)
    }
}

pub open spec fn queenside_move(t: Turn) -> Move {
    if t == Turn::White {
        castle_move(56, 59)
    } else {
        castle_move(0, 3)
    }
}

pub open spec fn kingside_rook(t: Turn) -> u64 {
    if t == Turn::White {
        0x8000000000000000u64
    } else {
        0x80u64
    }
}

pub open spec fn queenside_rook(t: Turn) -> u64 {
    if t == Turn::White {
        0x100000000000000u64
    } else {
        0x1u64
    }
}

/// Castling moves of the side to move: the right is held, king and rook sit
/// on their squares, the squares between them are empty, and neither the
/// king's square nor a square it crosses is attacked. Kingside first.
pub open spec fn castling_spec(occupied: u64, bbs: Seq<u64>, st: State) -> Seq<Move> {
    let t = st.turn;
    let enemy = attack_set(bbs, opposite(t), occupied_bits(bbs));
    let rooks = bbs[slot(t, Piece::Rook)];
    if bbs[slot(t, Piece::King)] & king_start(t) == 0 {
        Seq::empty()
    } else {
        let ks = st.castling_rights & kingside_bit(t) != 0 && occupied & kingside_path(t) == 0
            && rooks & kingside_rook(t) != 0 && kingside_path(t) & enemy == 0 && king_start(t)
            & enemy == 0;
        let qs = st.castling_rights & queenside_bit(t) != 0 && occupied & queenside_between(t)
            == 0 && rooks & queenside_rook(t) != 0 && queenside_path(t) & enemy == 0 && king_start(
            t,
        ) & enemy == 0;
        (if ks {
            seq![kingside_move(t)]
        } else {
            Seq::empty()
        }) + (if qs {
            seq![queenside_move(t)]
        } else {
            Seq::empty()
        })
    }
}

/// Castling moves of the side to move; `occupied` is the board's occupancy.
pub fn castling(occupied: u64, board: &Board) -> (r: Vec<Move>)
    ensures
        r@ == castling_spec(occupied, board.bitboards@, board.current_state),
{
    let mut result: Vec<Move> = Vec::new();
    let t = board.current_state.turn;
    let white = t == Turn::White;
    let king_sq: u64 = if white { 0x1000000000000000 } else { 0x10 };
    let rooks = board.bitboards[bitboard_from_piece_and_color(&t, Piece::Rook)];
    let king_bitboard = board.bitboards[bitboard_from_piece_and_color(&t, Piece::King)];
    if king_bitboard & king_sq == 0 {
        return result;
    }
    let enemy_attacks = attacks(board, t);
    let ks_path: u64 = if white { 0x6000000000000000 } else { 0x60 };
    let qs_between: u64 = if white { 0x0E00000000000000 } else { 0x0E };
    let qs_path: u64 = if white { 0x0C00000000000000 } else { 0x0C };
    let ks_rook: u64 = if white { 0x8000000000000000 } else { 0x80 };
    let qs_rook: u64 = if white { 0x100000000000000 } else { 0x1 };
    if board.current_state.can_castle_kingside() && occupied & ks_path == 0 && rooks & ks_rook != 0
        && ks_path & enemy_attacks == 0 && king_sq & enemy_attacks == 0 {
        result.push(
            Move {
                from: if white { 63 } else { 7 },
                to: if white { 61 } else { 5 },
                piece: Piece::Rook,
                promotion: None,
                captured: None,
                castled: true,
                en_passant_capture: false,
            },
        );
    }
    if board.current_state.can_castle_queenside() && occupied & qs_between == 0 && rooks & qs_rook
        != 0 && qs_path & enemy_attacks == 0 && king_sq & enemy_attacks == 0 {
        result.push(
            Move {
                from: if white { 56 } else { 0 },
                to: if white { 59 } else { 3 },
                piece: Piece::Rook,
                promotion: None,
                captured: None,
                castled: true,
                en_passant_capture: false,
            },
        );
    }
    proof {
        assert(result@ =~= castling_spec(occupied, board.bitboards@, board.current_state));
    }
    result
}

/// The four rook moves that stand for a castling.
pub open spec fn castle_shape(m: Move) -> bool {
    (m.from == 0 && m.to == 3) || (m.from == 7 && m.to == 5) || (m.from == 56 && m.to == 59) || (
    m.from == 63 && m.to == 61)
}

/// Where the king lands for a castling rook move.
pub open spec fn castle_king_to(m: Move) -> int {
    if m.from == 0 && m.to == 3 {
        2
    } else if m.from == 7 && m.to == 5 {
        6
    } else if m.from == 56 && m.to == 59 {
        58
    } else {
        62
    }
}

/// The castling right that a castling rook move uses.
pub open spec fn castle_right(m: Move) -> u8 {
    if m.from == 0 && m.to == 3 {
        0b0001
    } else if m.from == 7 && m.to == 5 {
        0b0010
    } else if m.from == 56 && m.to == 59 {
        0b0100
    } else {
        0b1000
    }
}

/// The king's companion move of a castling, for side `t`.
pub open spec fn king_companion(m: Move, t: Turn) -> Move {
    Move {
        from: if t == Turn::White { 60 } else { 4 },
        to: castle_king_to(m) as u8,
        piece: Piece::King,
        promotion: None,
        captured: None,
        castled: false,
        en_passant_capture: false,
    }
}

/// The king's companion move of a castling rook move, and the castling
/// right it uses.
pub fn reconstruct_king_move(rook_move: &Move, board: &Board) -> (r: (Move, u8))
    requires
        castle_shape(*rook_move),
    ensures
        r.0 == king_companion(*rook_move, board.current_state.turn),
        r.1 == castle_right(*rook_move),
{
    let from: u8 = if board.current_state.turn == Turn::White { 60 } else { 4 };
    let (to, permission_update): (u8, u8) = if rook_move.from == 0 && rook_move.to == 3 {
        (2, 0b0001)
    } else if rook_move.from == 7 && rook_move.to == 5 {
        (6, 0b0010)
    } else if rook_move.from == 56 && rook_move.to == 59 {
        (58, 0b0100)
    } else {
        (62, 0b1000)
    };
    let king_move = Move {
        from,
        to,
        piece: Piece::King,
        promotion: None,
        captured: None,
        castled: false,
        en_passant_capture: false,
    };
    (king_move, permission_update)
}

} // verus!

verus! {

// ---------------------------------------------------------------------------
// Make and unmake

/// A move record that make and unmake accept: squares on the board, and a
/// castling only as one of the four rook moves of a rook, capturing nothing,
/// promoting nothing.
pub open spec fn move_ok(m: Move) -> bool {
    &&& m.from < 64
    &&& m.to < 64
    &&& m.castled ==> castle_shape(m) && m.piece == Piece::Rook && m.captured is None
        && m.promotion is None && !m.en_passant_capture
}

/// Square of the captured piece: behind the destination for an en-passant
/// capture, the destination otherwise.
pub open spec fn capture_square(m: Move, st: State) -> int {
    if m.en_passant_capture {
        match st.en_passant {
            Some(e) => if st.turn == Turn::White {
                e + 8
            } else {
                e - 8
            },
            None => m.to as int,
        }
    } else {
        m.to as int
    }
}

pub open spec fn xor_slot(bbs: Seq<u64>, i: int, x: u64) -> Seq<u64> {
    bbs.update(i, bbs[i] ^ x)
}

/// Bit changes of one move (no castling companion): the captured piece off,
/// the mover from origin to destination, then a promotion swaps the pawn on
/// the destination for the promoted piece.
pub open spec fn apply_bits(bbs: Seq<u64>, st: State, m: Move) -> Seq<u64> {
    let b1 = match m.captured {
        Some(c) => xor_slot(bbs, slot(opposite(st.turn), c), sq_mask(capture_square(m, st))),
        None => bbs,
    };
    let i = slot(st.turn, m.piece);
    let b2 = xor_slot(xor_slot(b1, i, sq_mask(m.to as int)), i, sq_mask(m.from as int));
    match m.promotion {
        Some(p) => {
            let b3 = b2.update(i, b2[i] & !sq_mask(m.to as int));
            let j = slot(st.turn, p);
            b3.update(j, b3[j] | sq_mask(m.to as int))
        },
        None => b2,
    }
}

/// Bit changes that take one move (no castling companion) back.
pub open spec fn revert_bits(bbs: Seq<u64>, st: State, m: Move) -> Seq<u64> {
    let b1 = match m.captured {
        Some(c) => xor_slot(bbs, slot(opposite(st.turn), c), sq_mask(capture_square(m, st))),
        None => bbs,
    };
    let i = slot(st.turn, m.piece);
    let b2 = match m.promotion {
        Some(p) => {
            let a = b1.update(i, b1[i] | sq_mask(m.to as int));
            let j = slot(st.turn, p);
            a.update(j, a[j] & !sq_mask(m.to as int))
        },
        None => b1,
    };
    xor_slot(xor_slot(b2, i, sq_mask(m.to as int)), i, sq_mask(m.from as int))
}

/// Bitboards after a move; a castling first moves the king.
pub open spec fn make_bits(bbs: Seq<u64>, st: State, m: Move) -> Seq<u64> {
    if m.castled {
        apply_bits(apply_bits(bbs, st, king_companion(m, st.turn)), st, m)
    } else {
        apply_bits(bbs, st, m)
    }
}

/// Bitboards after taking a move back; a castling first takes back the king.
pub open spec fn unmake_bits(bbs: Seq<u64>, st: State, m: Move) -> Seq<u64> {
    if m.castled {
        revert_bits(revert_bits(bbs, st, king_companion(m, st.turn)), st, m)
    } else {
        revert_bits(bbs, st, m)
    }
}

/// Both castling rights of side `t`.
pub open spec fn both_rights(t: Turn) -> u8 {
    if t == Turn::White {
        0b1100u8
    } else {
        0b0011u8
    }
}

/// Rights after a non-castling move of `m.piece`: a king move drops both of
/// the mover's rights, a rook leaving a corner drops that corner's right.
pub open spec fn strip_rights(r: u8, t: Turn, m: Move) -> u8 {
    if m.piece == Piece::King {
        r & !both_rights(t)
    } else if m.piece == Piece::Rook {
        if t == Turn::White {
            if m.from == 63 {
                r & !0b1000u8
            } else if m.from == 56 {
                r & !0b0100u8
            } else {
                r
            }
        } else {
            if m.from == 7 {
                r & !0b0010u8
            } else if m.from == 0 {
                r & !0b0001u8
            } else {
                r
            }
        }
    } else {
        r
    }
}

/// Rights after move `m`: those of the mover that the move gives up, and
/// any right whose king or rook square the move leaves or lands on.
pub open spec fn rights_after(st: State, m: Move) -> u8 {
    let r0 = if m.castled {
        st.castling_rights & !both_rights(st.turn)
    } else {
        st.castling_rights
    };
    (strip_rights(r0, st.turn, m) & !home_rights(m.from as int)) & !home_rights(m.to as int)
}

/// The castling rights that rest on the piece of a king or rook home
/// square: leaving it or landing on it (a capture) ends them.
pub open spec fn home_rights(sq: int) -> u8 {
    if sq == 60 {
        0b1100u8
    } else if sq == 63 {
        0b1000u8
    } else if sq == 56 {
        0b0100u8
    } else if sq == 4 {
        0b0011u8
    } else if sq == 7 {
        0b0010u8
    } else if sq == 0 {
        0b0001u8
    } else {
        0u8
    }
}

fn home_rights_exec(sq: u8) -> (r: u8)
    ensures
        r == home_rights(sq as int),
{
    if sq == 60 {
        0b1100
    } else if sq == 63 {
        0b1000
    } else if sq == 56 {
        0b0100
    } else if sq == 4 {
        0b0011
    } else if sq == 7 {
        0b0010
    } else if sq == 0 {
        0b0001
    } else {
        0
    }
}

/// A pawn's double push from its starting rank.
pub open spec fn double_push(from: int, to: int, t: Turn) -> bool {
    if t == Turn::White {
        48 <= from < 56 && 32 <= to < 40
    } else {
        8 <= from < 16 && 24 <= to < 32
    }
}

/// The state after a committed move: the other side to move, rights
/// stripped, and the skipped square as target after a double push.
pub open spec fn next_state(st: State, m: Move) -> State {
    State {
        turn: opposite(st.turn),
        castling_rights: rights_after(st, m),
        en_passant: if m.piece == Piece::Pawn && double_push(m.from as int, m.to as int, st.turn) {
            Some(((m.from + m.to) / 2) as u8)
        } else {
            None
        },
    }
}

/// The position after `make_move`; with `commit`, the prior state is
/// stored and the next one installed.
pub open spec fn make_spec(p: Position, m: Move, commit: bool) -> Position {
    Position {
        bbs: make_bits(p.bbs, p.state, m),
        state: if commit {
            next_state(p.state, m)
        } else {
            p.state
        },
        history: if commit {
            p.history.push(p.state)
        } else {
            p.history
        },
    }
}

/// The position after `unmake_move`; with `commit`, the last stored state
/// is restored first and then tells whose pieces move back.
pub open spec fn unmake_spec(p: Position, m: Move, commit: bool) -> Position {
    let pop = commit && p.history.len() > 0;
    let st = if pop {
        p.history.last()
    } else {
        p.state
    };
    Position {
        bbs: unmake_bits(p.bbs, st, m),
        state: st,
        history: if pop {
            p.history.drop_last()
        } else {
            p.history
        },
    }
}

fn capture_square_exec(m: &Move, st: &State) -> (r: u8)
    requires
        m.to < 64,
        ep_ok(*st),
    ensures
        r as int == capture_square(*m, *st),
        r < 64,
{
    if m.en_passant_capture {
        match st.en_passant {
            Some(e) => if st.turn == Turn::White {
                e + 8
            } else {
                e - 8
            },
            None => m.to,
        }
    } else {
        m.to
    }
}

fn apply_move_bits(board: &mut Board, m: &Move)
    requires
        old(board).wf(),
        m.from < 64,
        m.to < 64,
    ensures
        final(board).bitboards@ == apply_bits(old(board).bitboards@, old(board).current_state, *m),
        final(board).current_state == old(board).current_state,
        final(board).state_history == old(board).state_history,
{
    let st = board.current_state;
    match m.captured {
        Some(c) => {
            let ci = bitboard_from_piece_and_color(&flip(st.turn), c);
            let csq = capture_square_exec(m, &st);
            board.bitboards[ci] = board.bitboards[ci] ^ mask(csq);
        },
        None => {},
    }
    let i = bitboard_from_piece_and_color(&st.turn, m.piece);
    board.bitboards[i] = board.bitboards[i] ^ mask(m.to);
    board.bitboards[i] = board.bitboards[i] ^ mask(m.from);
    match m.promotion {
        Some(p) => {
            board.bitboards[i] = board.bitboards[i] & !mask(m.to);
            let j = bitboard_from_piece_and_color(&st.turn, p);
            board.bitboards[j] = board.bitboards[j] | mask(m.to);
        },
        None => {},
    }
}

fn revert_move_bits(board: &mut Board, m: &Move)
    requires
        old(board).wf(),
        m.from < 64,
        m.to < 64,
    ensures
        final(board).bitboards@ == revert_bits(old(board).bitboards@, old(board).current_state, *m),
        final(board).current_state == old(board).current_state,
        final(board).state_history == old(board).state_history,
{
    let st = board.current_state;
    match m.captured {
        Some(c) => {
            let ci = bitboard_from_piece_and_color(&flip(st.turn), c);
            let csq = capture_square_exec(m, &st);
            board.bitboards[ci] = board.bitboards[ci] ^ mask(csq);
        },
        None => {},
    }
    let i = bitboard_from_piece_and_color(&st.turn, m.piece);
    match m.promotion {
        Some(p) => {
            board.bitboards[i] = board.bitboards[i] | mask(m.to);
            let j = bitboard_from_piece_and_color(&st.turn, p);
            board.bitboards[j] = board.bitboards[j] & !mask(m.to);
        },
        None => {},
    }
    board.bitboards[i] = board.bitboards[i] ^ mask(m.to);
    board.bitboards[i] = board.bitboards[i] ^ mask(m.from);
}

fn switch_turn(board: &mut Board)
    ensures
        final(board).current_state.turn == opposite(old(board).current_state.turn),
        final(board).current_state.castling_rights == old(board).current_state.castling_rights,
        final(board).current_state.en_passant == old(board).current_state.en_passant,
        final(board).bitboards == old(board).bitboards,
        final(board).state_history == old(board).state_history,
{
    board.current_state.turn = flip(board.current_state.turn);
}

/// Drops the castling rights that a king move, or a rook leaving its
/// corner, gives up.
fn remove_castling_rights(chess_move: &Move, state: &mut State)
    ensures
        final(state).castling_rights == strip_rights(
            old(state).castling_rights,
            old(state).turn,
            *chess_move,
        ),
        final(state).turn == old(state).turn,
        final(state).en_passant == old(state).en_passant,
{
    if chess_move.piece == Piece::King {
        state.castling_rights = state.castling_rights & if state.turn == Turn::White {
            !0b1100u8
        } else {
            !0b0011u8
        };
    } else if chess_move.piece == Piece::Rook {
        if state.turn == Turn::White {
            if chess_move.from == 63 {
                state.castling_rights = state.castling_rights & !0b1000u8;
            } else if chess_move.from == 56 {
                state.castling_rights = state.castling_rights & !0b0100u8;
            }
        } else {
            if chess_move.from == 7 {
                state.castling_rights = state.castling_rights & !0b0010u8;
            } else if chess_move.from == 0 {
                state.castling_rights = state.castling_rights & !0b0001u8;
            }
        }
    }
}

fn is_double_pawn_move(from: u8, to: u8, color: Turn) -> (r: bool)
    ensures
        r == double_push(from as int, to as int, color),
{
    match color {
        Turn::White => 48 <= from && from < 56 && 32 <= to && to < 40,
        Turn::Black => 8 <= from && from < 16 && 24 <= to && to < 32,
    }
}

/// Applies a move. With `update_state` the prior state is pushed onto the
/// history, and the next state (rights stripped, en-passant target set or
/// cleared, other side to move) installed.
pub fn make_move(board: &mut Board, chess_move: &Move, update_state: bool)
    requires
        old(board).wf(),
        move_ok(*chess_move),
    ensures
        final(board)@ == make_spec(old(board)@, *chess_move, update_state),
        final(board).wf(),
{
    let st = board.current_state;
    let mut new_state = st;
    if chess_move.castled {
        let (king_move, _) = reconstruct_king_move(chess_move, board);
        apply_move_bits(board, &king_move);
        new_state.castling_rights = new_state.castling_rights & if new_state.turn == Turn::White {
            !0b1100u8
        } else {
            !0b0011u8
        };
    }
    remove_castling_rights(chess_move, &mut new_state);
    new_state.castling_rights = (new_state.castling_rights & !home_rights_exec(chess_move.from))
        & !home_rights_exec(chess_move.to);
    apply_move_bits(board, chess_move);
    new_state.en_passant =
        if chess_move.piece == Piece::Pawn && is_double_pawn_move(
            chess_move.from,
            chess_move.to,
            st.turn,
        ) {
            Some(((chess_move.from + chess_move.to) / 2) as u8)
        } else {
            None
        };
    if update_state {
        board.state_history.push(st);
        board.current_state = new_state;
        switch_turn(board);
    }
    proof {
        assert(final(board)@.bbs == make_bits(old(board)@.bbs, old(board)@.state, *chess_move));
    }
}

/// Takes a move back. With `update_state` the last stored state is
/// restored first; it tells whose pieces move back.
pub fn unmake_move(board: &mut Board, chess_move: &Move, update_state: bool)
    requires
        old(board).wf(),
        move_ok(*chess_move),
    ensures
        final(board)@ == unmake_spec(old(board)@, *chess_move, update_state),
        final(board).wf(),
{
    if update_state {
        match board.state_history.pop() {
            Some(state) => {
                board.current_state = state;
            },
            None => {},
        }
    }
    if chess_move.castled {
        let (king_move, _) = reconstruct_king_move(chess_move, board);
        revert_move_bits(board, &king_move);
    }
    revert_move_bits(board, chess_move);
}

} // verus!

verus! {

// ---------------------------------------------------------------------------
// Make followed by unmake

/// What unmake needs to undo a promotion: the pawn and the promoted piece
/// have different bitboards, neither of which holds the destination, and
/// the pawn leaves a different square.
pub open spec fn undoable(bbs: Seq<u64>, st: State, m: Move) -> bool {
    match m.promotion {
        Some(p) => slot(st.turn, p) != slot(st.turn, m.piece) && m.from != m.to && !has_bit(
            bbs[slot(st.turn, m.piece)],
            m.to as int,
        ) && !has_bit(bbs[slot(st.turn, p)], m.to as int),
        None => true,
    }
}

/// A move that make and unmake accept and that unmake fully undoes.
pub open spec fn sound_move(bbs: Seq<u64>, st: State, m: Move) -> bool {
    move_ok(m) && undoable(bbs, st, m)
}

pub open spec fn all_sound(bbs: Seq<u64>, st: State, ms: Seq<Move>) -> bool {
    forall|k: int| 0 <= k < ms.len() ==> sound_move(bbs, st, #[trigger] ms[k])
}

proof fn lemma_xor_twice(x: u64, a: u64, b: u64)
    ensures
        (((x ^ a) ^ b) ^ a) ^ b == x,
        (x ^ a) ^ a == x,
{
    assert((((x ^ a) ^ b) ^ a) ^ b == x) by (bit_vector);
    assert((x ^ a) ^ a == x) by (bit_vector);
}

proof fn lemma_promotion_bits(x: u64, w: u64, t: u64, f: u64)
    requires
        t < 64,
        f < 64,
        t != f,
        x & (1u64 << t) == 0,
        w & (1u64 << t) == 0,
    ensures
        (((((x ^ (1u64 << t)) ^ (1u64 << f)) & !(1u64 << t)) | (1u64 << t)) ^ (1u64 << t)) ^ (1u64
            << f) == x,
        (w | (1u64 << t)) & !(1u64 << t) == w,
{
    assert(t < 64 && f < 64 && t != f && x & (1u64 << t) == 0 ==> (((((x ^ (1u64 << t)) ^ (1u64
        << f)) & !(1u64 << t)) | (1u64 << t)) ^ (1u64 << t)) ^ (1u64 << f) == x) by (bit_vector);
    assert(t < 64 && w & (1u64 << t) == 0 ==> (w | (1u64 << t)) & !(1u64 << t) == w)
        by (bit_vector);
}

proof fn lemma_revert_apply(bbs: Seq<u64>, st: State, m: Move)
    requires
        bbs.len() == 12,
        sound_move(bbs, st, m),
    ensures
        revert_bits(apply_bits(bbs, st, m), st, m) == bbs,
{
    let i = slot(st.turn, m.piece);
    let mt = sq_mask(m.to as int);
    let mf = sq_mask(m.from as int);
    let b1 = match m.captured {
        Some(c) => xor_slot(bbs, slot(opposite(st.turn), c), sq_mask(capture_square(m, st))),
        None => bbs,
    };
    match m.captured {
        Some(c) => {
            let ci = slot(opposite(st.turn), c);
            lemma_xor_twice(bbs[ci], sq_mask(capture_square(m, st)), 0);
        },
        None => {},
    }
    lemma_xor_twice(b1[i], mt, mf);
    match m.promotion {
        Some(p) => {
            let j = slot(st.turn, p);
            lemma_promotion_bits(b1[i], b1[j], m.to as u64, m.from as u64);
        },
        None => {},
    }
    assert(revert_bits(apply_bits(bbs, st, m), st, m) =~= bbs);
}

/// Unmake after make, with the same move and the same `commit`, gives back
/// the position: bitboards, state and history.
pub proof fn lemma_make_unmake(p: Position, m: Move, commit: bool)
    requires
        p.bbs.len() == 12,
        sound_move(p.bbs, p.state, m),
    ensures
        unmake_spec(make_spec(p, m, commit), m, commit) == p,
{
    let q = make_spec(p, m, commit);
    let st = p.state;
    if commit {
        assert(q.history.last() == st);
        assert(q.history.drop_last() =~= p.history);
    }
    if m.castled {
        let k = king_companion(m, st.turn);
        let a = apply_bits(p.bbs, st, k);
        let ki = slot(st.turn, Piece::King);
        let ri = slot(st.turn, Piece::Rook);
        lemma_xor_twice(p.bbs[ki], sq_mask(k.to as int), sq_mask(k.from as int));
        lemma_xor_twice(p.bbs[ri], sq_mask(m.to as int), sq_mask(m.from as int));
        assert(unmake_bits(make_bits(p.bbs, st, m), st, m) =~= p.bbs);
    } else {
        lemma_revert_apply(p.bbs, st, m);
    }
    assert(unmake_spec(q, m, commit).history =~= p.history);
}

// ---------------------------------------------------------------------------
// Generated moves are sound

proof fn lemma_concat_sound(bbs: Seq<u64>, st: State, a: Seq<Move>, b: Seq<Move>)
    requires
        all_sound(bbs, st, a),
        all_sound(bbs, st, b),
    ensures
        all_sound(bbs, st, a + b),
{
    assert forall|k: int| 0 <= k < (a + b).len() implies sound_move(bbs, st, #[trigger] (a + b)[k]) by {
        if k < a.len() {
            assert((a + b)[k] == a[k]);
        } else {
            assert((a + b)[k] == b[k - a.len()]);
        }
    }
}

proof fn lemma_and_not(x: u64, y: u64, o: u64, t: u64)
    requires
        t < 64,
    ensures
        (x & !o) & (1u64 << t) != 0 ==> o & (1u64 << t) == 0,
        ((x & !o) | (y & !o)) & (1u64 << t) != 0 ==> o & (1u64 << t) == 0,
{
    assert(t < 64 ==> ((x & !o) & (1u64 << t) != 0 ==> o & (1u64 << t) == 0)) by (bit_vector);
    assert(t < 64 ==> (((x & !o) | (y & !o)) & (1u64 << t) != 0 ==> o & (1u64 << t) == 0))
        by (bit_vector);
}

proof fn lemma_own_parts(a: u64, b: u64, c: u64, d: u64, e: u64, f: u64, m: u64)
    requires
        (a | b | c | d | e | f) & m == 0,
    ensures
        a & m == 0,
        b & m == 0,
        c & m == 0,
        d & m == 0,
        e & m == 0,
        f & m == 0,
{
    assert((a | b | c | d | e | f) & m == 0 ==> a & m == 0 && b & m == 0 && c & m == 0 && d & m
        == 0 && e & m == 0 && f & m == 0) by (bit_vector);
}

pub proof fn lemma_not_own(bbs: Seq<u64>, t: Turn, sq: int)
    requires
        !has_bit(own_bits(bbs, t), sq),
    ensures
        forall|p: Piece| !has_bit(bbs[#[trigger] slot(t, p)], sq),
{
    let m = sq_mask(sq);
    if t == Turn::White {
        lemma_own_parts(bbs[0], bbs[1], bbs[2], bbs[3], bbs[4], bbs[5], m);
    } else {
        lemma_own_parts(bbs[6], bbs[7], bbs[8], bbs[9], bbs[10], bbs[11], m);
    }
}

pub proof fn lemma_targets_free(bbs: Seq<u64>, st: State, piece: Piece, from: int, to: int)
    requires
        0 <= to < 64,
        has_bit(targets(bbs, st, piece, from), to),
    ensures
        !has_bit(own_bits(bbs, st.turn), to),
{
    let own = own_bits(bbs, st.turn);
    let occ = occupied_bits(bbs);
    let m = to as u64;
    match piece {
        Piece::Pawn => lemma_and_not(
            pawn_push_spec(bbs, st.turn, from) | pawn_capture_spec(bbs, st, from, false),
            0,
            own,
            m,
        ),
        Piece::Knight => lemma_and_not(knight_table(from), 0, own, m),
        Piece::King => lemma_and_not(king_table(from), 0, own, m),
        Piece::Rook => lemma_and_not(
            positive_ray(occ, Direction::North, from) | positive_ray(occ, Direction::East, from)
                | negative_ray(occ, Direction::West, from) | negative_ray(occ, Direction::South, from),
            0,
            own,
            m,
        ),
        Piece::Bishop => lemma_and_not(
            positive_ray(occ, Direction::NorthWest, from) | positive_ray(
                occ,
                Direction::NorthEast,
                from,
            ) | negative_ray(occ, Direction::SouthWest, from) | negative_ray(
                occ,
                Direction::SouthEast,
                from,
            ),
            0,
            own,
            m,
        ),
        Piece::Queen => lemma_and_not(
            positive_ray(occ, Direction::North, from) | positive_ray(occ, Direction::East, from)
                | negative_ray(occ, Direction::West, from) | negative_ray(occ, Direction::South, from),
            positive_ray(occ, Direction::NorthWest, from) | positive_ray(
                occ,
                Direction::NorthEast,
                from,
            ) | negative_ray(occ, Direction::SouthWest, from) | negative_ray(
                occ,
                Direction::SouthEast,
                from,
            ),
            own,
            m,
        ),
    }
}

proof fn lemma_records_sound(bbs: Seq<u64>, st: State, piece: Piece, from: int, n: int)
    requires
        bbs.len() == 12,
        0 <= from < 64,
        has_bit(bbs[slot(st.turn, piece)], from),
        0 <= n <= squares_of(targets(bbs, st, piece, from)).len(),
    ensures
        all_sound(
            bbs,
            st,
            records_upto(bbs, st, piece, from, squares_of(targets(bbs, st, piece, from)), n),
        ),
    decreases n,
{
    let dests = targets(bbs, st, piece, from);
    let tos = squares_of(dests);
    if n > 0 {
        lemma_records_sound(bbs, st, piece, from, n - 1);
        lemma_squares_bounds(dests);
        let to = tos[n - 1];
        lemma_targets_free(bbs, st, piece, from, to);
        lemma_not_own(bbs, st.turn, to);
        let rs = records_for(bbs, st, piece, from, to);
        assert(!has_bit(bbs[slot(st.turn, piece)], to));
        assert(from != to);
        assert forall|k: int| 0 <= k < rs.len() implies sound_move(bbs, st, #[trigger] rs[k]) by {
            assert(!has_bit(bbs[slot(st.turn, Piece::Queen)], to));
            assert(!has_bit(bbs[slot(st.turn, Piece::Bishop)], to));
            assert(!has_bit(bbs[slot(st.turn, Piece::Rook)], to));
            assert(!has_bit(bbs[slot(st.turn, Piece::Knight)], to));
        }
        lemma_concat_sound(bbs, st, records_upto(bbs, st, piece, from, tos, n - 1), rs);
    }
}

proof fn lemma_pseudo_upto_sound(bbs: Seq<u64>, st: State, piece: Piece, n: int)
    requires
        bbs.len() == 12,
        0 <= n <= squares_of(bbs[slot(st.turn, piece)]).len(),
    ensures
        all_sound(bbs, st, pseudo_upto(bbs, st, piece, squares_of(bbs[slot(st.turn, piece)]), n)),
    decreases n,
{
    let froms = squares_of(bbs[slot(st.turn, piece)]);
    if n > 0 {
        lemma_pseudo_upto_sound(bbs, st, piece, n - 1);
        lemma_squares_bounds(bbs[slot(st.turn, piece)]);
        let from = froms[n - 1];
        lemma_records_sound(
            bbs,
            st,
            piece,
            from,
            squares_of(targets(bbs, st, piece, from)).len() as int,
        );
        lemma_concat_sound(
            bbs,
            st,
            pseudo_upto(bbs, st, piece, froms, n - 1),
            records_of(bbs, st, piece, from, targets(bbs, st, piece, from)),
        );
    }
}

/// Every pseudo-legal move is one that unmake fully undoes.
pub proof fn lemma_pseudo_sound(bbs: Seq<u64>, st: State, piece: Piece)
    requires
        bbs.len() == 12,
    ensures
        all_sound(bbs, st, pseudo_spec(bbs, st, piece)),
{
    lemma_pseudo_upto_sound(bbs, st, piece, squares_of(bbs[slot(st.turn, piece)]).len() as int);
}

// ---------------------------------------------------------------------------
// Legal moves

/// A move is kept when, once made, the mover's king is not attacked.
pub open spec fn keeps(bbs: Seq<u64>, st: State, m: Move) -> bool {
    !in_check(make_bits(bbs, st, m), st.turn)
}

/// The kept moves among the first `n` of `ms`, in order.
pub open spec fn legal_upto(bbs: Seq<u64>, st: State, ms: Seq<Move>, n: int) -> Seq<Move>
    decreases n,
{
    if n <= 0 {
        Seq::empty()
    } else {
        let r = legal_upto(bbs, st, ms, n - 1);
        if keeps(bbs, st, ms[n - 1]) {
            r.push(ms[n - 1])
        } else {
            r
        }
    }
}

/// The kept moves of `ms`, in order.
pub open spec fn legal_filter(bbs: Seq<u64>, st: State, ms: Seq<Move>) -> Seq<Move> {
    legal_upto(bbs, st, ms, ms.len() as int)
}

/// Every legal move of the side to move: pawns, rooks, bishops, king,
/// knights, queens, each filtered, then the castling moves.
#[verifier::opaque]
pub open spec fn legal_moves_spec(bbs: Seq<u64>, st: State) -> Seq<Move> {
    legal_of(bbs, st, Piece::Pawn) + legal_of(bbs, st, Piece::Rook) + legal_of(
        bbs,
        st,
        Piece::Bishop,
    ) + legal_of(bbs, st, Piece::King) + legal_of(bbs, st, Piece::Knight) + legal_of(
        bbs,
        st,
        Piece::Queen,
    ) + castling_spec(occupied_bits(bbs), bbs, st)
}

proof fn lemma_legal_upto_sound(bbs: Seq<u64>, st: State, ms: Seq<Move>, n: int)
    requires
        all_sound(bbs, st, ms),
        n <= ms.len(),
    ensures
        all_sound(bbs, st, legal_upto(bbs, st, ms, n)),
    decreases n,
{
    if n > 0 {
        lemma_legal_upto_sound(bbs, st, ms, n - 1);
        let r = legal_upto(bbs, st, ms, n - 1);
        assert(sound_move(bbs, st, ms[n - 1]));
        assert forall|k: int| 0 <= k < r.push(ms[n - 1]).len() implies sound_move(
            bbs,
            st,
            #[trigger] r.push(ms[n - 1])[k],
        ) by {
            if k < r.len() {
                assert(r.push(ms[n - 1])[k] == r[k]);
            }
        }
    }
}

/// The legal moves of one piece kind.
pub open spec fn legal_of(bbs: Seq<u64>, st: State, piece: Piece) -> Seq<Move> {
    legal_filter(bbs, st, pseudo_spec(bbs, st, piece))
}

proof fn lemma_piece_legal_sound(bbs: Seq<u64>, st: State, piece: Piece)
    requires
        bbs.len() == 12,
    ensures
        all_sound(bbs, st, legal_of(bbs, st, piece)),
{
    lemma_pseudo_sound(bbs, st, piece);
    lemma_legal_upto_sound(
        bbs,
        st,
        pseudo_spec(bbs, st, piece),
        pseudo_spec(bbs, st, piece).len() as int,
    );
}

proof fn lemma_castling_sound(bbs: Seq<u64>, st: State)
    ensures
        all_sound(bbs, st, castling_spec(occupied_bits(bbs), bbs, st)),
{
    let g = castling_spec(occupied_bits(bbs), bbs, st);
    assert forall|k: int| 0 <= k < g.len() implies sound_move(bbs, st, #[trigger] g[k]) by {
        let t = st.turn;
        assert(g[k] == kingside_move(t) || g[k] == queenside_move(t));
    }
}

proof fn lemma_concat7_sound(
    bbs: Seq<u64>,
    st: State,
    a: Seq<Move>,
    b: Seq<Move>,
    c: Seq<Move>,
    d: Seq<Move>,
    e: Seq<Move>,
    f: Seq<Move>,
    g: Seq<Move>,
)
    requires
        all_sound(bbs, st, a),
        all_sound(bbs, st, b),
        all_sound(bbs, st, c),
        all_sound(bbs, st, d),
        all_sound(bbs, st, e),
        all_sound(bbs, st, f),
        all_sound(bbs, st, g),
    ensures
        all_sound(bbs, st, a + b + c + d + e + f + g),
{
    lemma_concat_sound(bbs, st, a, b);
    lemma_concat_sound(bbs, st, a + b, c);
    lemma_concat_sound(bbs, st, a + b + c, d);
    lemma_concat_sound(bbs, st, a + b + c + d, e);
    lemma_concat_sound(bbs, st, a + b + c + d + e, f);
    lemma_concat_sound(bbs, st, a + b + c + d + e + f, g);
}

/// Every legal move is one that unmake fully undoes.
pub proof fn lemma_legal_sound(bbs: Seq<u64>, st: State)
    requires
        bbs.len() == 12,
    ensures
        all_sound(bbs, st, legal_moves_spec(bbs, st)),
{
    let a = legal_of(bbs, st, Piece::Pawn);
    let b = legal_of(bbs, st, Piece::Rook);
    let c = legal_of(bbs, st, Piece::Bishop);
    let d = legal_of(bbs, st, Piece::King);
    let e = legal_of(bbs, st, Piece::Knight);
    let f = legal_of(bbs, st, Piece::Queen);
    let g = castling_spec(occupied_bits(bbs), bbs, st);
    lemma_piece_legal_sound(bbs, st, Piece::Pawn);
    lemma_piece_legal_sound(bbs, st, Piece::Rook);
    lemma_piece_legal_sound(bbs, st, Piece::Bishop);
    lemma_piece_legal_sound(bbs, st, Piece::King);
    lemma_piece_legal_sound(bbs, st, Piece::Knight);
    lemma_piece_legal_sound(bbs, st, Piece::Queen);
    lemma_castling_sound(bbs, st);
    lemma_concat7_sound(bbs, st, a, b, c, d, e, f, g);
    reveal(legal_moves_spec);
}

/// The legal moves of one piece kind: each pseudo-legal move is made without
/// committing, kept when the mover is not in check, and unmade.
fn legal_moves(board: &mut Board, piece: Piece) -> (r: Vec<Move>)
    requires
        old(board).wf(),
    ensures
        final(board)@ == old(board)@,
        final(board).wf(),
        r@ == legal_of(old(board).bitboards@, old(board).current_state, piece),
{
    let ghost p = board@;
    let moves = pseudo_legal_moves(board, piece);
    proof {
        lemma_pseudo_sound(p.bbs, p.state, piece);
    }
    let mut result: Vec<Move> = Vec::new();
    let mut i: usize = 0;
    while i < moves.len()
        invariant
            board@ == p,
            board.wf(),
            p.bbs.len() == 12,
            i <= moves@.len(),
            moves@ == pseudo_spec(p.bbs, p.state, piece),
            all_sound(p.bbs, p.state, moves@),
            result@ == legal_upto(p.bbs, p.state, moves@, i as int),
        decreases moves@.len() - i,
    {
        let chess_move = moves[i];
        assert(sound_move(p.bbs, p.state, moves@[i as int]));
        make_move(board, &chess_move, false);
        if !check(board) {
            result.push(chess_move);
        }
        unmake_move(board, &chess_move, false);
        proof {
            lemma_make_unmake(p, chess_move, false);
        }
        i = i + 1;
    }
    result
}

/// Every legal move of the side to move; the board is left as it was.
pub fn generate_legal_moves(board: &mut Board) -> (r: Vec<Move>)
    requires
        old(board).wf(),
    ensures
        final(board)@ == old(board)@,
        final(board).wf(),
        r@ == legal_moves_spec(old(board).bitboards@, old(board).current_state),
{
    let mut result = legal_moves(board, Piece::Pawn);
    let mut v = legal_moves(board, Piece::Rook);
    result.append(&mut v);
    let mut v = legal_moves(board, Piece::Bishop);
    result.append(&mut v);
    let mut v = legal_moves(board, Piece::King);
    result.append(&mut v);
    let mut v = legal_moves(board, Piece::Knight);
    result.append(&mut v);
    let mut v = legal_moves(board, Piece::Queen);
    result.append(&mut v);
    let occupied = board.occupied();
    let mut v = castling(occupied, board);
    result.append(&mut v);
    proof {
        reveal(legal_moves_spec);
    }
    result
}

} // verus!

verus! {

// ---------------------------------------------------------------------------
// Laws of make, unmake and the filter

/// Every move that the filter keeps passes the king-safety test.
proof fn lemma_filter_keeps(bbs: Seq<u64>, st: State, ms: Seq<Move>, n: int)
    requires
        n <= ms.len(),
    ensures
        forall|k: int| 0 <= k < legal_upto(bbs, st, ms, n).len() ==> keeps(
            bbs,
            st,
            #[trigger] legal_upto(bbs, st, ms, n)[k],
        ),
    decreases n,
{
    if n > 0 {
        lemma_filter_keeps(bbs, st, ms, n - 1);
        let r = legal_upto(bbs, st, ms, n - 1);
        if keeps(bbs, st, ms[n - 1]) {
            assert forall|k: int| 0 <= k < r.push(ms[n - 1]).len() implies keeps(
                bbs,
                st,
                #[trigger] r.push(ms[n - 1])[k],
            ) by {
                if k < r.len() {
                    assert(r.push(ms[n - 1])[k] == r[k]);
                }
            }
        }
    }
}

/// Filtering a list whose moves all pass keeps its first `n` moves.
proof fn lemma_filter_all_kept(bbs: Seq<u64>, st: State, ms: Seq<Move>, n: int)
    requires
        0 <= n <= ms.len(),
        forall|k: int| 0 <= k < ms.len() ==> keeps(bbs, st, #[trigger] ms[k]),
    ensures
        legal_upto(bbs, st, ms, n) == ms.take(n),
    decreases n,
{
    if n > 0 {
        lemma_filter_all_kept(bbs, st, ms, n - 1);
        assert(ms.take(n) =~= ms.take(n - 1).push(ms[n - 1]));
    } else {
        assert(ms.take(0) =~= Seq::<Move>::empty());
    }
}

/// Filtering an already filtered list gives the same list.
pub proof fn lemma_filter_idempotent(bbs: Seq<u64>, st: State, ms: Seq<Move>)
    ensures
        legal_filter(bbs, st, legal_filter(bbs, st, ms)) == legal_filter(bbs, st, ms),
{
    let once = legal_filter(bbs, st, ms);
    lemma_filter_keeps(bbs, st, ms, ms.len() as int);
    lemma_filter_all_kept(bbs, st, once, once.len() as int);
    assert(once.take(once.len() as int) =~= once);
}

/// A move survives a second filtering of a generated list when it is a
/// castling (passed through) or leaves the mover's king safe.
pub open spec fn passes(bbs: Seq<u64>, st: State, m: Move) -> bool {
    m.castled || keeps(bbs, st, m)
}

/// The moves among the first `n` of `ms` that survive a second filtering.
pub open spec fn refilter_upto(bbs: Seq<u64>, st: State, ms: Seq<Move>, n: int) -> Seq<Move>
    decreases n,
{
    if n <= 0 {
        Seq::empty()
    } else {
        let r = refilter_upto(bbs, st, ms, n - 1);
        if passes(bbs, st, ms[n - 1]) {
            r.push(ms[n - 1])
        } else {
            r
        }
    }
}

proof fn lemma_refilter_all(bbs: Seq<u64>, st: State, ms: Seq<Move>, n: int)
    requires
        0 <= n <= ms.len(),
        forall|k: int| 0 <= k < ms.len() ==> passes(bbs, st, #[trigger] ms[k]),
    ensures
        refilter_upto(bbs, st, ms, n) == ms.take(n),
    decreases n,
{
    if n > 0 {
        lemma_refilter_all(bbs, st, ms, n - 1);
        assert(ms.take(n) =~= ms.take(n - 1).push(ms[n - 1]));
    } else {
        assert(ms.take(0) =~= Seq::<Move>::empty());
    }
}

proof fn lemma_concat_passes(bbs: Seq<u64>, st: State, a: Seq<Move>, b: Seq<Move>)
    requires
        forall|k: int| 0 <= k < a.len() ==> passes(bbs, st, #[trigger] a[k]),
        forall|k: int| 0 <= k < b.len() ==> passes(bbs, st, #[trigger] b[k]),
    ensures
        forall|k: int| 0 <= k < (a + b).len() ==> passes(bbs, st, #[trigger] (a + b)[k]),
{
    assert forall|k: int| 0 <= k < (a + b).len() implies passes(bbs, st, #[trigger] (a + b)[k]) by {
        if k < a.len() {
            assert((a + b)[k] == a[k]);
        } else {
            assert((a + b)[k] == b[k - a.len()]);
        }
    }
}

proof fn lemma_piece_passes(bbs: Seq<u64>, st: State, piece: Piece)
    ensures
        forall|k: int|
            0 <= k < legal_of(bbs, st, piece).len() ==> passes(
                bbs,
                st,
                #[trigger] legal_of(bbs, st, piece)[k],
            ),
{
    let ms = pseudo_spec(bbs, st, piece);
    lemma_filter_keeps(bbs, st, ms, ms.len() as int);
}

/// Filtering the generated legal list a second time, castling moves passed
/// through, gives the same list: same moves, same order.
pub proof fn lemma_generated_list_refilters(bbs: Seq<u64>, st: State)
    ensures
        refilter_upto(
            bbs,
            st,
            legal_moves_spec(bbs, st),
            legal_moves_spec(bbs, st).len() as int,
        ) == legal_moves_spec(bbs, st),
{
    reveal(legal_moves_spec);
    let a = legal_of(bbs, st, Piece::Pawn);
    let b = legal_of(bbs, st, Piece::Rook);
    let c = legal_of(bbs, st, Piece::Bishop);
    let d = legal_of(bbs, st, Piece::King);
    let e = legal_of(bbs, st, Piece::Knight);
    let f = legal_of(bbs, st, Piece::Queen);
    let g = castling_spec(occupied_bits(bbs), bbs, st);
    lemma_piece_passes(bbs, st, Piece::Pawn);
    lemma_piece_passes(bbs, st, Piece::Rook);
    lemma_piece_passes(bbs, st, Piece::Bishop);
    lemma_piece_passes(bbs, st, Piece::King);
    lemma_piece_passes(bbs, st, Piece::Knight);
    lemma_piece_passes(bbs, st, Piece::Queen);
    assert forall|k: int| 0 <= k < g.len() implies passes(bbs, st, #[trigger] g[k]) by {
        assert(g[k] == kingside_move(st.turn) || g[k] == queenside_move(st.turn));
    }
    lemma_concat_passes(bbs, st, a, b);
    lemma_concat_passes(bbs, st, a + b, c);
    lemma_concat_passes(bbs, st, a + b + c, d);
    lemma_concat_passes(bbs, st, a + b + c + d, e);
    lemma_concat_passes(bbs, st, a + b + c + d + e, f);
    lemma_concat_passes(bbs, st, a + b + c + d + e + f, g);
    let all = a + b + c + d + e + f + g;
    lemma_refilter_all(bbs, st, all, all.len() as int);
    assert(all.take(all.len() as int) =~= all);
}

/// A committed make never sets a castling right that was not set before.
pub proof fn lemma_rights_shrink(p: Position, m: Move, commit: bool)
    ensures
        make_spec(p, m, commit).state.castling_rights & !p.state.castling_rights == 0,
{
    let r = p.state.castling_rights;
    let b = both_rights(p.state.turn);
    assert((r & !r == 0) && ((r & !b) & !r == 0) && (forall|x: u8| #![auto] (r & !x) & !r == 0) && (
    forall|x: u8| #![auto] ((r & !b) & !x) & !r == 0)) by (bit_vector);
    if commit {
        let s0 = strip_rights(
            if m.castled {
                r & !b
            } else {
                r
            },
            p.state.turn,
            m,
        );
        let h1 = home_rights(m.from as int);
        let h2 = home_rights(m.to as int);
        assert(s0 & !r == 0 ==> ((s0 & !h1) & !h2) & !r == 0) by (bit_vector);
    }
}

/// The position after making each move of `ms` in turn, committed.
pub open spec fn make_all(p: Position, ms: Seq<Move>) -> Position
    decreases ms.len(),
{
    if ms.len() == 0 {
        p
    } else {
        make_all(make_spec(p, ms[0], true), ms.drop_first())
    }
}

/// The position after unmaking the moves of `ms`, committed, last move
/// first.
pub open spec fn unmake_all(p: Position, ms: Seq<Move>) -> Position
    decreases ms.len(),
{
    if ms.len() == 0 {
        p
    } else {
        unmake_spec(unmake_all(p, ms.drop_first()), ms[0], true)
    }
}

/// Each move of `ms` is legal in the position that the moves before it
/// reach.
pub open spec fn playable(p: Position, ms: Seq<Move>) -> bool
    decreases ms.len(),
{
    ms.len() == 0 || (legal_moves_spec(p.bbs, p.state).contains(ms[0]) && playable(
        make_spec(p, ms[0], true),
        ms.drop_first(),
    ))
}

/// Making a sequence of legal moves and unmaking them in reverse order gives
/// back the position, state and history.
pub proof fn lemma_sequence_round_trip(p: Position, ms: Seq<Move>)
    requires
        p.bbs.len() == 12,
        playable(p, ms),
    ensures
        unmake_all(make_all(p, ms), ms) == p,
    decreases ms.len(),
{
    if ms.len() > 0 {
        let m = ms[0];
        lemma_legal_sound(p.bbs, p.state);
        let k = choose|k: int| 0 <= k < legal_moves_spec(p.bbs, p.state).len() && legal_moves_spec(p.bbs, p.state)[k] == m;
        assert(sound_move(p.bbs, p.state, legal_moves_spec(p.bbs, p.state)[k]));
        let q = make_spec(p, m, true);
        lemma_sequence_round_trip(q, ms.drop_first());
        lemma_make_unmake(p, m, true);
    }
}

// ---------------------------------------------------------------------------
// Perft

/// Number of leaves of the legal move tree of depth `depth`.
pub open spec fn perft_spec(p: Position, depth: nat) -> int
    decreases depth + 1, 0int,
{
    if depth == 0 {
        1
    } else {
        let ms = legal_moves_spec(p.bbs, p.state);
        perft_sum(p, ms, depth, ms.len() as int)
    }
}

/// Leaves below the first `n` moves of `ms`.
pub open spec fn perft_sum(p: Position, ms: Seq<Move>, depth: nat, n: int) -> int
    decreases depth, n,
{
    if n <= 0 || depth == 0 {
        0
    } else {
        perft_sum(p, ms, depth, n - 1) + perft_spec(make_spec(p, ms[n - 1], true), (depth - 1) as nat)
    }
}

proof fn lemma_perft_nonneg(p: Position, depth: nat)
    ensures
        perft_spec(p, depth) >= 0,
    decreases depth + 1, 0int,
{
    if depth > 0 {
        let ms = legal_moves_spec(p.bbs, p.state);
        lemma_perft_sum_mono(p, ms, depth, ms.len() as int, ms.len() as int);
    }
}

proof fn lemma_perft_sum_mono(p: Position, ms: Seq<Move>, depth: nat, k: int, n: int)
    requires
        0 <= k <= n,
    ensures
        0 <= perft_sum(p, ms, depth, k) <= perft_sum(p, ms, depth, n),
    decreases depth, n,
{
    if n > 0 && depth > 0 {
        if k < n {
            lemma_perft_sum_mono(p, ms, depth, k, n - 1);
        } else {
            lemma_perft_sum_mono(p, ms, depth, k - 1, n - 1);
        }
        lemma_perft_nonneg(make_spec(p, ms[n - 1], true), (depth - 1) as nat);
    }
}

/// `x`, or the largest `u64` when `x` exceeds it.
pub open spec fn capped(x: int) -> int {
    if x > u64::MAX {
        u64::MAX as int
    } else {
        x
    }
}

proof fn lemma_perft_one(p: Position, ms: Seq<Move>, n: int)
    requires
        0 <= n,
    ensures
        perft_sum(p, ms, 1, n) == n,
    decreases n,
{
    if n > 0 {
        lemma_perft_one(p, ms, n - 1);
        assert(perft_spec(make_spec(p, ms[n - 1], true), 0) == 1);
    }
}

/// Counts the leaves of the legal move tree to `depth` (capped at the largest
/// `u64`); the board is left as it was.
pub fn perft(board: &mut Board, depth: u32) -> (r: u64)
    requires
        old(board).wf(),
    ensures
        r as int == capped(perft_spec(old(board)@, depth as nat)),
        final(board)@ == old(board)@,
        final(board).wf(),
    decreases depth,
{
    if depth == 0 {
        return 1;
    }
    let ghost p = board@;
    let moves = generate_legal_moves(board);
    if depth == 1 {
        proof {
            lemma_perft_one(p, moves@, moves@.len() as int);
        }
        return moves.len() as u64;
    }
    proof {
        lemma_legal_sound(p.bbs, p.state);
    }
    let mut num_moves: u64 = 0;
    let mut i: usize = 0;
    while i < moves.len()
        invariant
            board@ == p,
            board.wf(),
            p.bbs.len() == 12,
            depth > 1,
            i <= moves@.len(),
            moves@ == legal_moves_spec(p.bbs, p.state),
            all_sound(p.bbs, p.state, moves@),
            perft_spec(p, depth as nat) == perft_sum(p, moves@, depth as nat, moves@.len() as int),
            num_moves as int == capped(perft_sum(p, moves@, depth as nat, i as int)),
        decreases moves@.len() - i,
    {
        let m = moves[i];
        assert(sound_move(p.bbs, p.state, moves@[i as int]));
        proof {
            lemma_perft_sum_mono(p, moves@, depth as nat, i as int, i as int);
            lemma_perft_nonneg(make_spec(p, m, true), (depth - 1) as nat);
        }
        make_move(board, &m, true);
        let sub = perft(board, depth - 1);
        unmake_move(board, &m, true);
        proof {
            lemma_make_unmake(p, m, true);
        }
        num_moves = if num_moves > u64::MAX - sub {
            u64::MAX
        } else {
            num_moves + sub
        };
        i = i + 1;
    }
    num_moves
}

} // verus!

verus! {

// ---------------------------------------------------------------------------
// Long algebraic notation

/// Name of the origin square; one of the four castling records names the
/// king's square.
pub open spec fn from_name(m: Move) -> Seq<char> {
    if m.castled && castle_shape(m) {
        if m.from >= 56 {
            seq!['e', '1']
        } else {
            seq!['e', '8']
        }
    } else {
        algebraic_of(m.from as int)
    }
}

/// Name of the destination square; one of the four castling records names
/// the king's landing square.
pub open spec fn to_name(m: Move) -> Seq<char> {
    if m.castled && castle_shape(m) {
        if m.to == 61 {
            seq!['g', '1']
        } else if m.to == 59 {
            seq!['c', '1']
        } else if m.to == 5 {
            seq!['g', '8']
        } else {
            seq!['c', '8']
        }
    } else {
        algebraic_of(m.to as int)
    }
}

/// Promotion letter, if any.
pub open spec fn promotion_name(p: Option<Piece>) -> Seq<char> {
    match p {
        Some(Piece::Rook) => seq!['r'],
        Some(Piece::Queen) => seq!['q'],
        Some(Piece::Knight) => seq!['n'],
        Some(Piece::Bishop) => seq!['b'],
        _ => Seq::empty(),
    }
}

/// A move in long algebraic notation, such as `e2e4`, `b7b8q`, or `e1g1`
/// for castling.
pub open spec fn move_name(m: Move) -> Seq<char> {
    from_name(m) + to_name(m) + promotion_name(m.promotion)
}

fn literal(s: &'static str) -> (r: String)
    ensures
        r@ == s@,
{
    s.to_owned()
}

impl Move {
    /// The move in long algebraic notation.
    pub fn alg_move(&self) -> (r: String)
        requires
            self.from < 64,
            self.to < 64,
        ensures
            r@ == move_name(*self),
    {
        let pair = self.castled && ((self.from == 0 && self.to == 3) || (self.from == 7 && self.to
            == 5) || (self.from == 56 && self.to == 59) || (self.from == 63 && self.to == 61));
        let mut name = if pair && self.from >= 56 {
            proof {
                reveal_strlit("e1");
            }
            literal("e1")
        } else if pair {
            proof {
                reveal_strlit("e8");
            }
            literal("e8")
        } else {
            square_to_algebraic(&self.from)
        };
        if pair && self.to == 61 {
            proof {
                reveal_strlit("g1");
            }
            name.append("g1");
        } else if pair && self.to == 59 {
            proof {
                reveal_strlit("c1");
            }
            name.append("c1");
        } else if pair && self.to == 5 {
            proof {
                reveal_strlit("g8");
            }
            name.append("g8");
        } else if pair {
            proof {
                reveal_strlit("c8");
            }
            name.append("c8");
        } else {
            let to = square_to_algebraic(&self.to);
            name.append(to.as_str());
        }
        match self.promotion {
            Some(Piece::Rook) => {
                proof {
                    reveal_strlit("r");
                }
                name.append("r");
            },
            Some(Piece::Queen) => {
                proof {
                    reveal_strlit("q");
                }
                name.append("q");
            },
            Some(Piece::Knight) => {
                proof {
                    reveal_strlit("n");
                }
                name.append("n");
            },
            Some(Piece::Bishop) => {
                proof {
                    reveal_strlit("b");
                }
                name.append("b");
            },
            _ => {},
        }
        proof {
            assert(name@ =~= move_name(*self));
        }
        name
    }
}

/// The move in long algebraic notation.
pub fn alg_move(chess_move: &Move) -> (r: String)
    requires
        chess_move.from < 64,
        chess_move.to < 64,
    ensures
        r@ == move_name(*chess_move),
{
    chess_move.alg_move()
}

/// Why a move text names no move.
#[derive(PartialEq, Eq, Structural, Debug, Clone, Copy)]
pub enum MoveError {
    /// The text does not start with two square names.
    BadSquare,
    /// No piece stands on the origin square.
    NoPiece,
    /// A pawn reaches the far rank and no promotion letter follows.
    MissingPromotion,
}

/// The promotion kind of a letter.
pub open spec fn promotion_of(c: u8) -> Option<Piece> {
    if c == 113u8 {
        Some(Piece::Queen)
    } else if c == 114u8 {
        Some(Piece::Rook)
    } else if c == 98u8 {
        Some(Piece::Bishop)
    } else if c == 110u8 {
        Some(Piece::Knight)
    } else {
        None
    }
}

/// The castling record of a king's two-square move from its start square.
pub open spec fn castle_of(from: int, to: int) -> Option<Move> {
    if from == 60 && to == 62 {
        Some(castle_move(63, 61))
    } else if from == 60 && to == 58 {
        Some(castle_move(56, 59))
    } else if from == 4 && to == 6 {
        Some(castle_move(7, 5))
    } else if from == 4 && to == 2 {
        Some(castle_move(0, 3))
    } else {
        None
    }
}

/// The move that a long algebraic text names on the given board: the mover
/// is the piece on the origin, the captured kind is read off the board (a
/// pawn for an en-passant capture), and a king's castling step becomes the
/// castling record.
pub open spec fn move_of_text(bbs: Seq<u64>, st: State, s: Seq<u8>) -> Result<Move, MoveError> {
    if s.len() < 4 {
        Err(MoveError::BadSquare)
    } else {
        match (square_of_algebraic(s.subrange(0, 2)), square_of_algebraic(s.subrange(2, 4))) {
            (Some(f), Some(t)) => match first_holder(bbs, f as int, 0) {
                None => Err(MoveError::NoPiece),
                Some(i) => {
                    let piece = kind_of_slot(i as int);
                    let letter = if s.len() > 4 {
                        promotion_of(s[4])
                    } else {
                        None
                    };
                    if piece == Piece::King && castle_of(f as int, t as int) is Some {
                        Ok(castle_of(f as int, t as int).unwrap())
                    } else if promotes(st.turn, piece, t as int) && letter is None {
                        Err(MoveError::MissingPromotion)
                    } else {
                        Ok(
                            record(
                                bbs,
                                st,
                                piece,
                                f as int,
                                t as int,
                                if promotes(st.turn, piece, t as int) {
                                    letter
                                } else {
                                    None
                                },
                            ),
                        )
                    }
                },
            },
            _ => Err(MoveError::BadSquare),
        }
    }
}

fn promotion_letter(c: u8) -> (r: Option<Piece>)
    ensures
        r == promotion_of(c),
{
    if c == 113u8 {
        Some(Piece::Queen)
    } else if c == 114u8 {
        Some(Piece::Rook)
    } else if c == 98u8 {
        Some(Piece::Bishop)
    } else if c == 110u8 {
        Some(Piece::Knight)
    } else {
        None
    }
}

/// Whether a move text starts with the name of a square that holds no
/// piece: an unmatched move, which is fatal.
pub open spec fn origin_empty(bbs: Seq<u64>, s: Seq<u8>) -> bool {
    s.len() >= 2 && match square_of_algebraic(s.subrange(0, 2)) {
        Some(f) => first_holder(bbs, f as int, 0) is None,
        None => false,
    }
}

/// The move that a long algebraic text such as `e2e4` or `b7b8q` names on
/// this board. A text whose origin square holds no piece is fatal and left
/// out; a missing promotion letter or a text without square names is
/// reported as an error.
pub fn algebraic_to_move(board: &Board, algebraic_string: &str) -> (r: Result<Move, MoveError>)
    requires
        !origin_empty(board.bitboards@, algebraic_string.spec_bytes()),
    ensures
        r == move_of_text(board.bitboards@, board.current_state, algebraic_string.spec_bytes()),
        r matches Ok(m) ==> move_ok(m),
{
    let s = algebraic_string.as_bytes();
    if s.len() < 4 {
        return Err(MoveError::BadSquare);
    }
    let from = crate::utils::square_from_bytes(s, 0, 2);
    let to = crate::utils::square_from_bytes(s, 2, 4);
    let (f, t) = match (from, to) {
        (Some(f), Some(t)) => (f, t),
        _ => {
            return Err(MoveError::BadSquare);
        },
    };
    proof {
        crate::utils::lemma_first_holder_range(board.bitboards@, f as int, 0);
    }
    let piece = match crate::utils::find_bitboard(board, f) {
        None => {
            return Err(MoveError::NoPiece);
        },
        Some(i) => piece_from_square(i as u8).unwrap(),
    };
    let letter = if s.len() > 4 {
        promotion_letter(s[4])
    } else {
        None
    };
    if piece == Piece::King && ((f == 60 && (t == 62 || t == 58)) || (f == 4 && (t == 6 || t
        == 2))) {
        let (rook_from, rook_to): (u8, u8) = if f == 60 && t == 62 {
            (63, 61)
        } else if f == 60 {
            (56, 59)
        } else if t == 6 {
            (7, 5)
        } else {
            (0, 3)
        };
        return Ok(
            Move {
                from: rook_from,
                to: rook_to,
                piece: Piece::Rook,
                promotion: None,
                captured: None,
                castled: true,
                en_passant_capture: false,
            },
        );
    }
    let promoting = promotes_exec(board.current_state.turn, piece, t);
    if promoting && letter.is_none() {
        return Err(MoveError::MissingPromotion);
    }
    Ok(make_record(board, piece, f, t, if promoting { letter } else { None }))
}

} // verus!
