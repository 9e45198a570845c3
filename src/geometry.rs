use vstd::prelude::*;
use crate::legalmoves::{Direction, step, ray_steps, ray};
use crate::utils::{has_bit, sq_mask, lowest_bit, lemma_bit_shift_equiv};
use crate::legalmoves::{highest_bit, positive_ray, negative_ray, Piece, piece_attacks, pawn_attack_pattern, knight_table, king_table};
use crate::board::Turn;

verus! {

/// How many steps a ray from `sq` in direction `d` can take before it
/// leaves the board.
pub open spec fn steps_left(d: Direction, sq: int) -> int {
    let f = sq % 8;
    let r = sq / 8;
    match d {
        Direction::NorthWest => if 7 - r < f { 7 - r } else { f },
        Direction::North => 7 - r,
        Direction::NorthEast => if 7 - r < 7 - f { 7 - r } else { 7 - f },
        Direction::East => 7 - f,
        Direction::SouthEast => if r < 7 - f { r } else { 7 - f },
        Direction::South => r,
        Direction::SouthWest => if r < f { r } else { f },
        Direction::West => f,
    }
}

/// Whether direction `d` steps to higher square indices.
pub open spec fn positive(d: Direction) -> bool {
    d == Direction::NorthWest || d == Direction::North || d == Direction::NorthEast || d
        == Direction::East
}

proof fn lemma_step_left(d: Direction, sq: int)
    requires
        0 <= sq < 64,
    ensures
        0 <= steps_left(d, sq) <= 7,
        (step(d, sq) is Some) == (steps_left(d, sq) > 0),
        step(d, sq) matches Some(u) ==> 0 <= u < 64 && steps_left(d, u) == steps_left(d, sq) - 1
            && (positive(d) ==> u > sq) && (!positive(d) ==> u < sq),
{
    let f = sq % 8;
    let r = sq / 8;
    assert(sq == 8 * r + f);
    match step(d, sq) {
        Some(u) => {
            let du = u - sq;
            assert(u == 8 * (r + (if du >= 7 { 1int } else if du <= -7 { -1int } else { 0int }))
                + (f + (du - 8 * (if du >= 7 { 1int } else if du <= -7 { -1int } else { 0int }))));
        },
        None => {},
    }
}

/// A ray's walk stops by itself once the board's edge is reached.
proof fn lemma_budget(d: Direction, sq: int, n: nat)
    requires
        0 <= sq < 64,
        n >= steps_left(d, sq),
    ensures
        ray_steps(d, sq, n) == ray_steps(d, sq, steps_left(d, sq) as nat),
    decreases n,
{
    lemma_step_left(d, sq);
    if steps_left(d, sq) > 0 {
        let u = step(d, sq).unwrap();
        lemma_budget(d, u, (n - 1) as nat);
        lemma_budget(d, u, (steps_left(d, sq) - 1) as nat);
    }
}

} // verus!

verus! {

proof fn lemma_bits(x: u64, y: u64, m: u64, u: int, t: int)
    requires
        0 <= u < 64,
        0 <= t < 64,
    ensures
        has_bit(sq_mask(u), t) == (u == t),
        has_bit(x | y, t) == (has_bit(x, t) || has_bit(y, t)),
        has_bit(x ^ y, t) == (has_bit(x, t) != has_bit(y, t)),
        !has_bit(0u64, t),
{
    let uu = u as u64;
    let tt = t as u64;
    assert(uu < 64 && tt < 64 ==> ((((1u64 << uu) & (1u64 << tt)) != 0) == (uu == tt)) && ((((x
        | y) & (1u64 << tt)) != 0) == (((x & (1u64 << tt)) != 0) || ((y & (1u64 << tt)) != 0)))
        && ((((x ^ y) & (1u64 << tt)) != 0) == (((x & (1u64 << tt)) != 0) != ((y & (1u64 << tt))
        != 0))) && (0u64 & (1u64 << tt)) == 0) by (bit_vector);
}

/// Every square of a ray lies beyond its origin, in index order.
proof fn lemma_ray_beyond(d: Direction, sq: int, n: nat, t: int)
    requires
        0 <= sq < 64,
        0 <= t < 64,
    ensures
        has_bit(ray_steps(d, sq, n), t) ==> if positive(d) {
            t > sq
        } else {
            t < sq
        },
    decreases n,
{
    lemma_step_left(d, sq);
    if n > 0 {
        match step(d, sq) {
            Some(u) => {
                lemma_ray_beyond(d, u, (n - 1) as nat, t);
                lemma_bits(sq_mask(u), ray_steps(d, u, (n - 1) as nat), 0, u, t);
            },
            None => {
                lemma_bits(0, 0, 0, 0, t);
            },
        }
    } else {
        lemma_bits(0, 0, 0, 0, t);
    }
}

/// The lowest set bit is the one below which nothing is set.
proof fn lemma_lowest_is(x: u64, u: int)
    requires
        0 <= u < 64,
        has_bit(x, u),
        forall|j: int| 0 <= j < u ==> !has_bit(x, j),
    ensures
        lowest_bit(x) == u,
{
    vstd::std_specs::bits::axiom_u64_trailing_zeros(x);
    let t = lowest_bit(x);
    lemma_bit_shift_equiv(x, u as u64);
    assert(x != 0) by {
        let uu = u as u64;
        assert(x & (1u64 << uu) != 0 ==> x != 0) by (bit_vector);
    }
    assert(0 <= t < 64);
    lemma_bit_shift_equiv(x, t as u64);
    if t < u {
        assert(!has_bit(x, t));
    }
    if t > u {
        assert((x >> (u as u64)) & 1u64 == 0u64);
    }
}

/// The highest set bit is the one above which nothing is set.
proof fn lemma_highest_is(x: u64, u: int)
    requires
        0 <= u < 64,
        has_bit(x, u),
        forall|j: int| u < j < 64 ==> !has_bit(x, j),
    ensures
        highest_bit(x) == u,
{
    vstd::std_specs::bits::axiom_u64_leading_zeros(x);
    let lz = vstd::std_specs::bits::u64_leading_zeros(x);
    lemma_bit_shift_equiv(x, u as u64);
    assert(x != 0) by {
        let uu = u as u64;
        assert(x & (1u64 << uu) != 0 ==> x != 0) by (bit_vector);
    }
    let h = 63 - lz;
    assert(0 <= h < 64);
    lemma_bit_shift_equiv(x, h as u64);
    if h > u {
        assert(!has_bit(x, h));
    }
    if h < u {
        assert(64 - lz <= u);
        assert((x >> (u as u64)) & 1u64 == 0u64);
    }
}

} // verus!

verus! {

/// The squares a slider on `sq` reaches in direction `d` within `n` steps:
/// every square of the ray up to and including the first occupied one, so
/// that every square strictly between `sq` and a reached square is empty.
pub open spec fn reach(occ: u64, d: Direction, sq: int, n: nat) -> u64
    decreases n,
{
    if n == 0 {
        0
    } else {
        match step(d, sq) {
            Some(u) => sq_mask(u) | (if has_bit(occ, u) {
                0u64
            } else {
                reach(occ, d, u, (n - 1) as nat)
            }),
            None => 0,
        }
    }
}

proof fn lemma_reach_budget(occ: u64, d: Direction, sq: int, n: nat)
    requires
        0 <= sq < 64,
        n >= steps_left(d, sq),
    ensures
        reach(occ, d, sq, n) == reach(occ, d, sq, steps_left(d, sq) as nat),
    decreases n,
{
    lemma_step_left(d, sq);
    if steps_left(d, sq) > 0 {
        let u = step(d, sq).unwrap();
        lemma_reach_budget(occ, d, u, (n - 1) as nat);
        lemma_reach_budget(occ, d, u, (steps_left(d, sq) - 1) as nat);
    }
}

proof fn lemma_slide_algebra(m: u64, r: u64, x: u64, occ: u64)
    ensures
        r & m == 0 ==> (m | r) ^ r == m,
        m | 0u64 == m,
        occ & m == 0 ==> (m | r) & occ == r & occ,
        r & m == 0 && x & m == 0 ==> (m | r) ^ x == m | (r ^ x),
        0u64 & occ == 0,
        (m | r) & occ == (m & occ) | (r & occ),
{
    assert((r & m == 0 ==> (m | r) ^ r == m) && m | 0u64 == m && (occ & m == 0 ==> (m | r) & occ
        == r & occ) && (r & m == 0 && x & m == 0 ==> (m | r) ^ x == m | (r ^ x)) && 0u64 & occ == 0
        && (m | r) & occ == (m & occ) | (r & occ)) by (bit_vector);
}

proof fn lemma_and_bit(x: u64, y: u64, t: int)
    requires
        0 <= t < 64,
    ensures
        has_bit(x & y, t) == (has_bit(x, t) && has_bit(y, t)),
{
    let tt = t as u64;
    assert(tt < 64 ==> (((x & y) & (1u64 << tt)) != 0) == (((x & (1u64 << tt)) != 0) && ((y & (1u64
        << tt)) != 0))) by (bit_vector);
}

/// A ray cut at its first blocker is the slider's reach: the blocker is the
/// lowest set square of a positive ray, the highest of a negative one.
pub proof fn lemma_slide(occ: u64, d: Direction, sq: int)
    requires
        0 <= sq < 64,
    ensures
        positive(d) ==> positive_ray(occ, d, sq) == reach(occ, d, sq, 7),
        !positive(d) ==> negative_ray(occ, d, sq) == reach(occ, d, sq, 7),
    decreases steps_left(d, sq),
{
    lemma_step_left(d, sq);
    lemma_budget(d, sq, 7);
    lemma_reach_budget(occ, d, sq, 7);
    let a = ray(d, sq);
    lemma_slide_algebra(0, 0, 0, occ);
    match step(d, sq) {
        None => {
            assert(a == 0);
            assert(reach(occ, d, sq, 7) == 0);
        },
        Some(u) => {
            lemma_budget(d, u, 6);
            lemma_budget(d, u, 7);
            lemma_reach_budget(occ, d, u, 6);
            lemma_reach_budget(occ, d, u, 7);
            let ru = ray(d, u);
            let m = sq_mask(u);
            assert(a == m | ru);
            lemma_ray_beyond(d, u, 7, u);
            assert(!has_bit(ru, u));
            let b = a & occ;
            if has_bit(occ, u) {
                lemma_slide_algebra(m, ru, 0, occ);
                assert forall|j: int| 0 <= j < 64 && has_bit(b, j) implies j == u || (positive(d) && j > u)
                    || (!positive(d) && j < u) by {
                    lemma_and_bit(a, occ, j);
                    lemma_bits(m, ru, 0, u, j);
                    lemma_ray_beyond(d, u, 7, j);
                }
                lemma_and_bit(a, occ, u);
                lemma_bits(m, ru, 0, u, u);
                if positive(d) {
                    lemma_lowest_is(b, u);
                } else {
                    lemma_highest_is(b, u);
                }
                assert(reach(occ, d, sq, 7) == m | 0u64);
            } else {
                lemma_slide(occ, d, u);
                lemma_slide_algebra(m, ru, 0, occ);
                assert(b == ru & occ);
                assert(reach(occ, d, sq, 7) == m | reach(occ, d, u, 7));
                if b != 0 {
                    let lo = if positive(d) {
                        lowest_bit(b)
                    } else {
                        highest_bit(b)
                    };
                    if positive(d) {
                        crate::utils::lemma_pop_lowest(b);
                    } else {
                        vstd::std_specs::bits::axiom_u64_leading_zeros(b);
                        lemma_bit_shift_equiv(b, lo as u64);
                    }
                    assert(0 <= lo < 64 && has_bit(b, lo));
                    lemma_and_bit(ru, occ, lo);
                    lemma_ray_beyond(d, u, 7, lo);
                    lemma_ray_beyond(d, lo, 7, u);
                    lemma_slide_algebra(m, ru, ray(d, lo), occ);
                }
            }
        },
    }
}

} // verus!

verus! {

/// Whether a piece of kind `p` of side `a` on `sq` could capture a piece
/// standing on `t`: a pawn on a diagonal-forward square, a knight or king by
/// its table, a slider along one of its lines with every square strictly
/// between empty. The reach of a slider holds its first occupied square, so
/// placing a piece on `t` does not change the answer.
pub open spec fn could_capture(p: Piece, a: Turn, sq: int, t: int, occ: u64) -> bool {
    let rook = reach(occ, Direction::North, sq, 7) | reach(occ, Direction::East, sq, 7) | reach(
        occ,
        Direction::West,
        sq,
        7,
    ) | reach(occ, Direction::South, sq, 7);
    let bishop = reach(occ, Direction::NorthWest, sq, 7) | reach(occ, Direction::NorthEast, sq, 7)
        | reach(occ, Direction::SouthWest, sq, 7) | reach(occ, Direction::SouthEast, sq, 7);
    match p {
        Piece::Pawn => has_bit(pawn_attack_pattern(a, sq), t),
        Piece::Knight => has_bit(knight_table(sq), t),
        Piece::King => has_bit(king_table(sq), t),
        Piece::Rook => has_bit(rook, t),
        Piece::Bishop => has_bit(bishop, t),
        Piece::Queen => has_bit(rook | bishop, t),
    }
}

proof fn lemma_masked(x: u64, own: u64, t: int)
    requires
        0 <= t < 64,
        !has_bit(own, t),
    ensures
        has_bit(x & !own, t) == has_bit(x, t),
{
    let tt = t as u64;
    assert(tt < 64 && own & (1u64 << tt) == 0 ==> (((x & !own) & (1u64 << tt)) != 0) == ((x & (1u64
        << tt)) != 0)) by (bit_vector);
}

/// A piece's attack pattern on a square free of the attacker's pieces is
/// what it could capture there.
pub proof fn lemma_pattern_geometry(p: Piece, a: Turn, sq: int, t: int, occ: u64, own: u64)
    requires
        0 <= sq < 64,
        0 <= t < 64,
        !has_bit(own, t),
    ensures
        has_bit(piece_attacks(p, a, sq, occ, own), t) == could_capture(p, a, sq, t, occ),
{
    lemma_slide(occ, Direction::North, sq);
    lemma_slide(occ, Direction::East, sq);
    lemma_slide(occ, Direction::West, sq);
    lemma_slide(occ, Direction::South, sq);
    lemma_slide(occ, Direction::NorthWest, sq);
    lemma_slide(occ, Direction::NorthEast, sq);
    lemma_slide(occ, Direction::SouthWest, sq);
    lemma_slide(occ, Direction::SouthEast, sq);
    let rook = reach(occ, Direction::North, sq, 7) | reach(occ, Direction::East, sq, 7) | reach(
        occ,
        Direction::West,
        sq,
        7,
    ) | reach(occ, Direction::South, sq, 7);
    let bishop = reach(occ, Direction::NorthWest, sq, 7) | reach(occ, Direction::NorthEast, sq, 7)
        | reach(occ, Direction::SouthWest, sq, 7) | reach(occ, Direction::SouthEast, sq, 7);
    lemma_masked(rook, own, t);
    lemma_masked(bishop, own, t);
    lemma_bits(rook & !own, bishop & !own, 0, 0, t);
    lemma_bits(rook, bishop, 0, 0, t);
}

} // verus!

verus! {

proof fn lemma_reach_placed(occ: u64, d: Direction, sq: int, n: nat, t: int)
    requires
        0 <= sq < 64,
        0 <= t < 64,
    ensures
        has_bit(reach(occ | sq_mask(t), d, sq, n), t) == has_bit(reach(occ, d, sq, n), t),
    decreases n,
{
    lemma_bits(0, 0, 0, 0, t);
    if n > 0 {
        lemma_step_left(d, sq);
        match step(d, sq) {
            Some(u) => {
                lemma_reach_placed(occ, d, u, (n - 1) as nat, t);
                lemma_bits(occ, sq_mask(t), 0, t, u);
                lemma_bits(sq_mask(u), reach(occ | sq_mask(t), d, u, (n - 1) as nat), 0, u, t);
                lemma_bits(sq_mask(u), reach(occ, d, u, (n - 1) as nat), 0, u, t);
                lemma_bits(sq_mask(u), 0, 0, u, t);
            },
            None => {},
        }
    }
}

/// Placing a piece on `t` does not change whether a piece could capture
/// there.
pub proof fn lemma_could_capture_placed(p: Piece, a: Turn, sq: int, t: int, occ: u64)
    requires
        0 <= sq < 64,
        0 <= t < 64,
    ensures
        could_capture(p, a, sq, t, occ | sq_mask(t)) == could_capture(p, a, sq, t, occ),
{
    let o2 = occ | sq_mask(t);
    lemma_reach_placed(occ, Direction::North, sq, 7, t);
    lemma_reach_placed(occ, Direction::East, sq, 7, t);
    lemma_reach_placed(occ, Direction::West, sq, 7, t);
    lemma_reach_placed(occ, Direction::South, sq, 7, t);
    lemma_reach_placed(occ, Direction::NorthWest, sq, 7, t);
    lemma_reach_placed(occ, Direction::NorthEast, sq, 7, t);
    lemma_reach_placed(occ, Direction::SouthWest, sq, 7, t);
    lemma_reach_placed(occ, Direction::SouthEast, sq, 7, t);
    let rk = |o: u64| reach(o, Direction::North, sq, 7) | reach(o, Direction::East, sq, 7) | reach(o, Direction::West, sq, 7) | reach(o, Direction::South, sq, 7);
    let bk = |o: u64| reach(o, Direction::NorthWest, sq, 7) | reach(o, Direction::NorthEast, sq, 7) | reach(o, Direction::SouthWest, sq, 7) | reach(o, Direction::SouthEast, sq, 7);
    let o = occ;
    lemma_bits(reach(o, Direction::North, sq, 7), reach(o, Direction::East, sq, 7), 0, 0, t);
    lemma_bits(reach(o, Direction::North, sq, 7) | reach(o, Direction::East, sq, 7), reach(o, Direction::West, sq, 7), 0, 0, t);
    lemma_bits(reach(o, Direction::North, sq, 7) | reach(o, Direction::East, sq, 7) | reach(o, Direction::West, sq, 7), reach(o, Direction::South, sq, 7), 0, 0, t);
    lemma_bits(reach(o2, Direction::North, sq, 7), reach(o2, Direction::East, sq, 7), 0, 0, t);
    lemma_bits(reach(o2, Direction::North, sq, 7) | reach(o2, Direction::East, sq, 7), reach(o2, Direction::West, sq, 7), 0, 0, t);
    lemma_bits(reach(o2, Direction::North, sq, 7) | reach(o2, Direction::East, sq, 7) | reach(o2, Direction::West, sq, 7), reach(o2, Direction::South, sq, 7), 0, 0, t);
    lemma_bits(reach(o, Direction::NorthWest, sq, 7), reach(o, Direction::NorthEast, sq, 7), 0, 0, t);
    lemma_bits(reach(o, Direction::NorthWest, sq, 7) | reach(o, Direction::NorthEast, sq, 7), reach(o, Direction::SouthWest, sq, 7), 0, 0, t);
    lemma_bits(reach(o, Direction::NorthWest, sq, 7) | reach(o, Direction::NorthEast, sq, 7) | reach(o, Direction::SouthWest, sq, 7), reach(o, Direction::SouthEast, sq, 7), 0, 0, t);
    lemma_bits(reach(o2, Direction::NorthWest, sq, 7), reach(o2, Direction::NorthEast, sq, 7), 0, 0, t);
    lemma_bits(reach(o2, Direction::NorthWest, sq, 7) | reach(o2, Direction::NorthEast, sq, 7), reach(o2, Direction::SouthWest, sq, 7), 0, 0, t);
    lemma_bits(reach(o2, Direction::NorthWest, sq, 7) | reach(o2, Direction::NorthEast, sq, 7) | reach(o2, Direction::SouthWest, sq, 7), reach(o2, Direction::SouthEast, sq, 7), 0, 0, t);
    lemma_bits(rk(o), bk(o), 0, 0, t);
    lemma_bits(rk(o2), bk(o2), 0, 0, t);
}

} // verus!
