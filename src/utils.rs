use vstd::prelude::*;
use crate::board::Board;
use vstd::string::StringSliceAdditionalSpecFns;

verus! {

/// The word with only bit `sq` set.
pub open spec fn sq_mask(sq: int) -> u64 {
    1u64 << (sq as u64)
}

/// Whether square `sq` is set in bitboard `b`.
pub open spec fn has_bit(b: u64, sq: int) -> bool {
    b & sq_mask(sq) != 0
}

/// Index of the lowest set bit (64 for the empty word).
pub open spec fn lowest_bit(b: u64) -> int {
    vstd::std_specs::bits::u64_trailing_zeros(b) as int
}

/// The set squares of `b` from `i` upward, in ascending order.
pub open spec fn bits_from(b: u64, i: int) -> Seq<int>
    decreases 64 - i,
{
    if i < 0 || i >= 64 {
        Seq::empty()
    } else if has_bit(b, i) {
        seq![i].add(bits_from(b, i + 1))
    } else {
        bits_from(b, i + 1)
    }
}

/// The set squares of `b` in ascending order.
pub open spec fn squares_of(b: u64) -> Seq<int> {
    bits_from(b, 0)
}

/// Number of set bits of `b`.
pub open spec fn popcount(b: u64) -> int {
    squares_of(b).len() as int
}

/// Total number of set bits over the first `n` words of `bbs`.
pub open spec fn pieces_upto(bbs: Seq<u64>, n: int) -> int
    decreases n,
{
    if n <= 0 {
        0
    } else {
        pieces_upto(bbs, n - 1) + popcount(bbs[n - 1])
    }
}

/// Index of the first of the twelve words that holds square `sq`, if any.
pub open spec fn first_holder(bbs: Seq<u64>, sq: int, from: int) -> Option<usize>
    decreases 12 - from,
{
    if from < 0 || from >= 12 {
        None
    } else if has_bit(bbs[from], sq) {
        Some(from as usize)
    } else {
        first_holder(bbs, sq, from + 1)
    }
}

pub proof fn lemma_bit_shift_equiv(x: u64, j: u64)
    requires
        j < 64,
    ensures
        ((x >> j) & 1u64 == 0u64) == (x & (1u64 << j) == 0),
        ((x >> j) & 1u64 == 1u64) == (x & (1u64 << j) != 0),
{
    assert(j < 64 ==> (((x >> j) & 1u64 == 0u64) == (x & (1u64 << j) == 0))) by (bit_vector);
    assert(j < 64 ==> (((x >> j) & 1u64 == 1u64) == (x & (1u64 << j) != 0))) by (bit_vector);
}

pub proof fn lemma_bits_from_same(x: u64, y: u64, i: int)
    requires
        forall|j: int| i <= j < 64 ==> has_bit(x, j) == has_bit(y, j),
    ensures
        bits_from(x, i) == bits_from(y, i),
    decreases 64 - i,
{
    if 0 <= i < 64 {
        lemma_bits_from_same(x, y, i + 1);
    } else if i < 0 {
    }
}

pub proof fn lemma_bits_from_skip(x: u64, i: int, t: int)
    requires
        0 <= i <= t,
        forall|j: int| i <= j < t ==> !has_bit(x, j),
    ensures
        bits_from(x, i) == bits_from(x, t),
    decreases t - i,
{
    if i < t {
        lemma_bits_from_skip(x, i + 1, t);
    }
}

/// Taking off the lowest set bit takes off the first square of the list.
pub proof fn lemma_pop_lowest(x: u64)
    requires
        x != 0,
    ensures
        0 <= lowest_bit(x) < 64,
        has_bit(x, lowest_bit(x)),
        x & vstd::prelude::sub(x, 1) == x ^ sq_mask(lowest_bit(x)),
        squares_of(x) == seq![lowest_bit(x)].add(squares_of(x & vstd::prelude::sub(x, 1))),
        popcount(x) == popcount(x & vstd::prelude::sub(x, 1)) + 1,
{
    vstd::std_specs::bits::axiom_u64_trailing_zeros(x);
    let t = vstd::std_specs::bits::u64_trailing_zeros(x) as u64;
    assert(t < 64);
    lemma_bit_shift_equiv(x, t);
    let y = x & vstd::prelude::sub(x, 1);
    assert(t < 64 && (x >> t) & 1u64 == 1u64 && x << vstd::prelude::sub(64, t) == 0 ==> x & vstd::prelude::sub(x, 1) == x ^ (
    1u64 << t)) by (bit_vector);
    assert forall|j: int| 0 <= j < t implies !has_bit(x, j) by {
        lemma_bit_shift_equiv(x, j as u64);
    }
    assert forall|j: int| 0 <= j <= t implies !has_bit(y, j) by {
        let jj = j as u64;
        lemma_bit_shift_equiv(x, jj);
        assert(jj <= t && t < 64 && x & (1u64 << t) != 0 && (jj < t ==> x & (1u64 << jj) == 0) ==> (x ^ (1u64 << t)) & (
        1u64 << jj) == 0) by (bit_vector);
    }
    assert forall|j: int| t < j < 64 implies has_bit(y, j) == has_bit(x, j) by {
        let jj = j as u64;
        assert(t < jj && jj < 64 ==> (((x ^ (1u64 << t)) & (1u64 << jj) != 0) == (x & (1u64
            << jj) != 0))) by (bit_vector);
    }
    lemma_bits_from_skip(x, 0, t as int);
    lemma_bits_from_skip(y, 0, t as int + 1);
    lemma_bits_from_same(x, y, t as int + 1);
    assert(bits_from(x, t as int) == seq![t as int].add(bits_from(x, t as int + 1)));
}

/// Walking the set bits of a word one at a time follows its square list.
pub proof fn lemma_advance(rest: u64, all: Seq<int>, k: int)
    requires
        rest != 0,
        0 <= k <= all.len(),
        squares_of(rest) == all.skip(k),
    ensures
        k < all.len(),
        all[k] == lowest_bit(rest),
        0 <= lowest_bit(rest) < 64,
        squares_of(rest & vstd::prelude::sub(rest, 1)) == all.skip(k + 1),
{
    lemma_pop_lowest(rest);
    let s = squares_of(rest);
    assert(s.len() >= 1);
    assert(s[0] == lowest_bit(rest));
    assert(all.skip(k)[0] == all[k]);
    assert(squares_of(rest & vstd::prelude::sub(rest, 1)) =~= s.skip(1));
    assert(all.skip(k + 1) =~= all.skip(k).skip(1));
}

/// The slot that `first_holder` names is one of the twelve.
pub proof fn lemma_first_holder_range(bbs: Seq<u64>, sq: int, from: int)
    ensures
        first_holder(bbs, sq, from) matches Some(i) ==> from <= i < 12 && has_bit(bbs[i as int], sq),
    decreases 12 - from,
{
    if 0 <= from < 12 {
        lemma_first_holder_range(bbs, sq, from + 1);
    }
}

pub proof fn lemma_bits_from_bounds(x: u64, i: int)
    ensures
        forall|k: int| 0 <= k < bits_from(x, i).len() ==> i <= #[trigger] bits_from(x, i)[k] < 64
            && 0 <= bits_from(x, i)[k] && has_bit(x, bits_from(x, i)[k]),
        i <= 64 ==> bits_from(x, i).len() <= 64 - i,
    decreases 64 - i,
{
    if 0 <= i < 64 {
        lemma_bits_from_bounds(x, i + 1);
    }
}

pub proof fn lemma_empty_word(i: int)
    ensures
        bits_from(0u64, i) == Seq::<int>::empty(),
    decreases 64 - i,
{
    if 0 <= i < 64 {
        assert(0u64 & sq_mask(i) == 0) by (bit_vector);
        lemma_empty_word(i + 1);
    }
}

pub proof fn lemma_squares_bounds(x: u64)
    ensures
        popcount(x) <= 64,
        forall|k: int| 0 <= k < squares_of(x).len() ==> 0 <= #[trigger] squares_of(x)[k] < 64
            && has_bit(x, squares_of(x)[k]),
{
    lemma_bits_from_bounds(x, 0);
}

/// Creates a mask from a given index.
pub fn mask(index: u8) -> (r: u64)
    requires
        index < 64,
    ensures
        r == sq_mask(index as int),
{
    1u64 << index
}

/// Whether the bit at `index` is set in `bb`.
pub fn bitset(bb: &u64, index: u8) -> (r: bool)
    requires
        index < 64,
    ensures
        r == has_bit(*bb, index as int),
{
    *bb & mask(index) != 0
}

/// Why `get_square` gave no square.
#[derive(Debug, Clone, Copy, PartialEq, Eq)]
pub struct OutOfRange;

/// Bitboard with the single bit `index` set, or an error past the last square.
pub fn get_square(index: u8) -> (r: Result<u64, OutOfRange>)
    ensures
        index < 64 ==> r == Ok::<u64, OutOfRange>(sq_mask(index as int)),
        index >= 64 ==> r.is_err(),
{
    if index < 64 {
        Ok(1u64 << index)
    } else {
        Err(OutOfRange)
    }
}

/// Number of set bits of `bb`, by removing the lowest set bit until none is left.
pub fn count_bits(bb: u64) -> (r: u32)
    ensures
        r as int == popcount(bb),
{
    let mut rest: u64 = bb;
    let mut n: u32 = 0;
    proof {
        lemma_squares_bounds(bb);
    }
    while rest != 0
        invariant
            n as int + popcount(rest) == popcount(bb),
            popcount(bb) <= 64,
        decreases popcount(rest),
    {
        proof {
            lemma_pop_lowest(rest);
        }
        rest = rest & (rest - 1);
        n = n + 1;
    }
    proof {
        lemma_empty_word(0);
    }
    n
}

/// Total number of pieces on the board.
pub fn count_pieces(board: &Board) -> (r: i32)
    ensures
        r as int == pieces_upto(board.bitboards@, 12),
{
    let mut result: i32 = 0;
    let mut i: usize = 0;
    while i < 12
        invariant
            i <= 12,
            result as int == pieces_upto(board.bitboards@, i as int),
            0 <= result <= 64 * i,
        decreases 12 - i,
    {
        proof {
            lemma_squares_bounds(board.bitboards[i as int]);
        }
        let c = count_bits(board.bitboards[i]);
        result = result + c as i32;
        i = i + 1;
    }
    result
}

/// Index of the first bitboard that holds square `index`, if any.
pub fn find_bitboard(bitboards: &Board, index: u8) -> (r: Option<usize>)
    requires
        index < 64,
    ensures
        r == first_holder(bitboards.bitboards@, index as int, 0),
{
    let mut i: usize = 0;
    while i < 12
        invariant
            i <= 12,
            index < 64,
            first_holder(bitboards.bitboards@, index as int, 0) == first_holder(
                bitboards.bitboards@,
                index as int,
                i as int,
            ),
        decreases 12 - i,
    {
        if bitset(&bitboards.bitboards[i], index) {
            return Some(i);
        }
        i = i + 1;
    }
    None
}

/// Moves a piece within one bitboard: toggles the origin and destination bits.
pub fn move_piece(bitboard: &mut u64, to_index: u8, from_index: u8)
    requires
        to_index < 64,
        from_index < 64,
    ensures
        *final(bitboard) == *old(bitboard) ^ sq_mask(to_index as int) ^ sq_mask(
            from_index as int,
        ),
{
    *bitboard = *bitboard ^ mask(to_index);
    *bitboard = *bitboard ^ mask(from_index);
}

/// Walks the set bits of a word from the lowest up.
pub struct BitIter(pub u64);

impl BitIter {
    pub fn new(bitboard: u64) -> (r: Self)
        ensures
            r.0 == bitboard,
    {
        BitIter(bitboard)
    }

    /// The lowest remaining set bit, which is then cleared.
    pub fn next(&mut self) -> (r: Option<u32>)
        ensures
            old(self).0 == 0 ==> r.is_none() && final(self).0 == 0,
            old(self).0 != 0 ==> r == Some(lowest_bit(old(self).0) as u32) && final(self).0
                == old(self).0 & vstd::prelude::sub(old(self).0, 1),
            old(self).0 != 0 ==> squares_of(old(self).0) == seq![r.unwrap() as int].add(
                squares_of(final(self).0),
            ),
    {
        if self.0 == 0 {
            None
        } else {
            proof {
                lemma_pop_lowest(self.0);
            }
            let r = self.0.trailing_zeros();
            self.0 = self.0 & (self.0 - 1);
            Some(r)
        }
    }
}

/// Character of a file, 'a' to 'h'.
pub open spec fn file_char(f: int) -> char {
    (f + 97) as char
}

/// Character of a rank, '1' to '8'.
pub open spec fn rank_char(r: int) -> char {
    (r + 49) as char
}

/// Algebraic name of a square: square 0 is a8, square 63 is h1.
pub open spec fn algebraic_of(sq: int) -> Seq<char> {
    seq![file_char(sq % 8), rank_char(7 - sq / 8)]
}

fn file_str(f: u8) -> (r: &'static str)
    requires
        f < 8,
    ensures
        r@ == seq![file_char(f as int)],
{
    match f {
        0 => {
            proof {
                reveal_strlit("a");
            }
            "a"
        },
        1 => {
            proof {
                reveal_strlit("b");
            }
            "b"
        },
        2 => {
            proof {
                reveal_strlit("c");
            }
            "c"
        },
        3 => {
            proof {
                reveal_strlit("d");
            }
            "d"
        },
        4 => {
            proof {
                reveal_strlit("e");
            }
            "e"
        },
        5 => {
            proof {
                reveal_strlit("f");
            }
            "f"
        },
        6 => {
            proof {
                reveal_strlit("g");
            }
            "g"
        },
        _ => {
            proof {
                reveal_strlit("h");
            }
            "h"
        },
    }
}

fn rank_str(r: u8) -> (s: &'static str)
    requires
        r < 8,
    ensures
        s@ == seq![rank_char(r as int)],
{
    match r {
        0 => {
            proof {
                reveal_strlit("1");
            }
            "1"
        },
        1 => {
            proof {
                reveal_strlit("2");
            }
            "2"
        },
        2 => {
            proof {
                reveal_strlit("3");
            }
            "3"
        },
        3 => {
            proof {
                reveal_strlit("4");
            }
            "4"
        },
        4 => {
            proof {
                reveal_strlit("5");
            }
            "5"
        },
        5 => {
            proof {
                reveal_strlit("6");
            }
            "6"
        },
        6 => {
            proof {
                reveal_strlit("7");
            }
            "7"
        },
        _ => {
            proof {
                reveal_strlit("8");
            }
            "8"
        },
    }
}

/// Algebraic name of a square, such as "e4".
pub fn square_to_algebraic(square: &u8) -> (r: String)
    requires
        *square < 64,
    ensures
        r@ == algebraic_of(*square as int),
{
    let mut s = String::new();
    s.append(file_str(*square % 8));
    s.append(rank_str(7 - *square / 8));
    s
}

/// The square that an algebraic name denotes, when it is one.
pub open spec fn square_of_algebraic(s: Seq<u8>) -> Option<u8> {
    if s.len() == 2 && 97 <= s[0] <= 104 && 49 <= s[1] <= 56 {
        Some(((s[0] - 97) + 8 * (7 - (s[1] - 49))) as u8)
    } else {
        None
    }
}

/// Square index of an algebraic name such as "e4"; `None` for anything else.
pub fn algebraic_to_square(algebraic: &str) -> (r: Option<u8>)
    ensures
        r == square_of_algebraic(algebraic.spec_bytes()),
{
    let bytes = algebraic.as_bytes();
    square_from_bytes(bytes, 0, bytes.len())
}

/// Square index of the algebraic name held in `bytes[start..end]`.
pub fn square_from_bytes(bytes: &[u8], start: usize, end: usize) -> (r: Option<u8>)
    requires
        start <= end <= bytes@.len(),
    ensures
        r == square_of_algebraic(bytes@.subrange(start as int, end as int)),
{
    if end - start != 2 {
        return None;
    }
    let f = bytes[start];
    let k = bytes[start + 1];
    if f < 97 || f > 104 || k < 49 || k > 56 {
        return None;
    }
    Some((f - 97) + 8 * (7 - (k - 49)))
}

} // verus!
