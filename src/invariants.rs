use vstd::prelude::*;
use crate::board::{Position, State, Turn, ep_ok, opposite, white_bits, black_bits, occupied_bits};
use crate::legalmoves::{
    Move, Piece, apply_bits, capture_square, captured_at, castle_king_to, castling_spec, kind_of_slot,
    king_companion, kingside_move, legal_moves_spec, legal_of, legal_upto,
    lemma_not_own, lemma_targets_free, make_bits, make_spec, move_ok, own_bits, pseudo_spec,
    pseudo_upto, queenside_move, promotes, pawn_push_spec, pawn_capture_spec, pawn_attack_pattern,
    double_push, make_all, playable, rights_after, strip_rights, home_rights, both_rights, attack_set, attacks_upto, kind_attacks,
    piece_attacks, records_for, records_of, records_upto, slot, targets, xor_slot,
};
use crate::utils::{
    first_holder, has_bit, lemma_pop_lowest, lemma_squares_bounds, lowest_bit, sq_mask, squares_of,
};

verus! {

/// The twelve bitboards are pairwise disjoint.
pub open spec fn disjoint(bbs: Seq<u64>) -> bool {
    forall|i: int, j: int|
        0 <= i < 12 && 0 <= j < 12 && i != j ==> #[trigger] (bbs[i] & bbs[j]) == 0
}

/// No square is held by two bitboards.
pub open spec fn one_holder(bbs: Seq<u64>) -> bool {
    forall|s: int, i: int, j: int|
        0 <= s < 64 && 0 <= i < 12 && 0 <= j < 12 && #[trigger] has_bit(bbs[i], s) && #[trigger] has_bit(
            bbs[j],
            s,
        ) ==> i == j
}

/// No bitboard holds square `s`.
pub open spec fn empty_at(bbs: Seq<u64>, s: int) -> bool {
    forall|k: int| 0 <= k < 12 ==> !#[trigger] has_bit(bbs[k], s)
}

proof fn lemma_bit_ops(x: u64, t: int, s: int)
    requires
        0 <= t < 64,
        0 <= s < 64,
    ensures
        has_bit(x ^ sq_mask(t), s) == (has_bit(x, s) != (s == t)),
        has_bit(x & !sq_mask(t), s) == (has_bit(x, s) && s != t),
        has_bit(x | sq_mask(t), s) == (has_bit(x, s) || s == t),
{
    let tt = t as u64;
    let ss = s as u64;
    assert(tt < 64 && ss < 64 ==> (((x ^ (1u64 << tt)) & (1u64 << ss) != 0) == ((x & (1u64 << ss)
        != 0) != (ss == tt))) && (((x & !(1u64 << tt)) & (1u64 << ss) != 0) == ((x & (1u64 << ss)
        != 0) && ss != tt)) && (((x | (1u64 << tt)) & (1u64 << ss) != 0) == ((x & (1u64 << ss) != 0)
        || ss == tt))) by (bit_vector);
}

proof fn lemma_disjoint_one_holder(bbs: Seq<u64>)
    requires
        bbs.len() == 12,
    ensures
        disjoint(bbs) <==> one_holder(bbs),
{
    if disjoint(bbs) {
        assert forall|s: int, i: int, j: int|
            0 <= s < 64 && 0 <= i < 12 && 0 <= j < 12 && #[trigger] has_bit(bbs[i], s)
                && #[trigger] has_bit(bbs[j], s) implies i == j by {
            if i != j {
                let x = bbs[i];
                let y = bbs[j];
                let ss = s as u64;
                assert(x & y == 0);
                assert(ss < 64 && x & y == 0 && x & (1u64 << ss) != 0 ==> y & (1u64 << ss) == 0)
                    by (bit_vector);
            }
        }
    }
    if one_holder(bbs) {
        assert forall|i: int, j: int| 0 <= i < 12 && 0 <= j < 12 && i != j implies #[trigger] (
        bbs[i] & bbs[j]) == 0 by {
            let x = bbs[i];
            let y = bbs[j];
            let z = x & y;
            if z != 0 {
                lemma_pop_lowest(z);
                let t = lowest_bit(z);
                let tt = t as u64;
                assert(tt < 64 && (x & y) & (1u64 << tt) != 0 ==> x & (1u64 << tt) != 0 && y & (1u64
                    << tt) != 0) by (bit_vector);
                assert(has_bit(bbs[i], t) && has_bit(bbs[j], t));
            }
        }
    }
}

/// Taking a piece off square `s0` of bitboard `c`.
proof fn lemma_remove(b: Seq<u64>, c: int, s0: int)
    requires
        b.len() == 12,
        one_holder(b),
        0 <= c < 12,
        0 <= s0 < 64,
        has_bit(b[c], s0),
    ensures
        one_holder(xor_slot(b, c, sq_mask(s0))),
        empty_at(xor_slot(b, c, sq_mask(s0)), s0),
        forall|k: int, s: int|
            0 <= k < 12 && 0 <= s < 64 && s != s0 ==> #[trigger] has_bit(xor_slot(b, c, sq_mask(s0))[k], s) == has_bit(b[k], s),
{
    let r = xor_slot(b, c, sq_mask(s0));
    assert forall|k: int, s: int| 0 <= k < 12 && 0 <= s < 64 implies #[trigger] has_bit(r[k], s)
        == (has_bit(b[k], s) && !(k == c && s == s0)) by {
        if k == c {
            lemma_bit_ops(b[c], s0, s);
        }
    }
}

/// Moving a piece of bitboard `i` from `f` to the empty square `t`.
proof fn lemma_move(b: Seq<u64>, i: int, f: int, t: int)
    requires
        b.len() == 12,
        one_holder(b),
        0 <= i < 12,
        0 <= f < 64,
        0 <= t < 64,
        f != t,
        has_bit(b[i], f),
        empty_at(b, t),
    ensures
        one_holder(xor_slot(xor_slot(b, i, sq_mask(t)), i, sq_mask(f))),
        empty_at(xor_slot(xor_slot(b, i, sq_mask(t)), i, sq_mask(f)), f),
        forall|k: int|
            0 <= k < 12 ==> #[trigger] has_bit(xor_slot(xor_slot(b, i, sq_mask(t)), i, sq_mask(f))[k], t) == (k == i),
        forall|k: int, s: int|
            0 <= k < 12 && 0 <= s < 64 && s != f && s != t ==> #[trigger] has_bit(xor_slot(xor_slot(b, i, sq_mask(t)), i, sq_mask(f))[k], s) == has_bit(b[k], s),
{
    let r = xor_slot(xor_slot(b, i, sq_mask(t)), i, sq_mask(f));
    assert forall|k: int, s: int| 0 <= k < 12 && 0 <= s < 64 implies #[trigger] has_bit(r[k], s)
        == if k == i && s == t {
        true
    } else if k == i && s == f {
        false
    } else {
        has_bit(b[k], s)
    } by {
        if k == i {
            lemma_bit_ops(b[i], t, s);
            lemma_bit_ops(b[i] ^ sq_mask(t), f, s);
        }
    }
}

/// Replacing the piece of bitboard `i` on `t` by one of bitboard `j`.
proof fn lemma_swap(b: Seq<u64>, i: int, j: int, t: int)
    requires
        b.len() == 12,
        one_holder(b),
        0 <= i < 12,
        0 <= j < 12,
        i != j,
        0 <= t < 64,
        forall|k: int| 0 <= k < 12 ==> has_bit(#[trigger] b[k], t) == (k == i),
    ensures
        one_holder(b.update(i, b[i] & !sq_mask(t)).update(j, b[j] | sq_mask(t))),
        forall|k: int|
            0 <= k < 12 ==> #[trigger] has_bit(b.update(i, b[i] & !sq_mask(t)).update(j, b[j] | sq_mask(t))[k], t) == (k == j),
        forall|k: int, s: int|
            0 <= k < 12 && 0 <= s < 64 && s != t ==> #[trigger] has_bit(b.update(i, b[i] & !sq_mask(t)).update(j, b[j] | sq_mask(t))[k], s) == has_bit(b[k], s),
{
    let a = b.update(i, b[i] & !sq_mask(t));
    let r = a.update(j, a[j] | sq_mask(t));
    assert(a[j] == b[j]);
    assert forall|k: int, s: int| 0 <= k < 12 && 0 <= s < 64 implies #[trigger] has_bit(r[k], s)
        == if s == t {
        k == j
    } else {
        has_bit(b[k], s)
    } by {
        if k == i {
            lemma_bit_ops(b[i], t, s);
        }
        if k == j {
            lemma_bit_ops(b[j], t, s);
        }
    }
}

} // verus!

verus! {

/// The en-passant target, if any, is empty, and the pawn that skipped it
/// stands right behind it.
pub open spec fn ep_consistent(bbs: Seq<u64>, st: State) -> bool {
    match st.en_passant {
        Some(e) => empty_at(bbs, e as int) && if st.turn == Turn::White {
            e + 8 < 64 && has_bit(bbs[slot(Turn::Black, Piece::Pawn)], e + 8)
        } else {
            e >= 8 && has_bit(bbs[slot(Turn::White, Piece::Pawn)], e - 8)
        },
        None => true,
    }
}

/// The invariants of a position: twelve disjoint bitboards and a consistent
/// en-passant target.
pub open spec fn pos_ok(p: Position) -> bool {
    &&& p.bbs.len() == 12
    &&& disjoint(p.bbs)
    &&& ep_ok(p.state)
    &&& ep_consistent(p.bbs, p.state)
}

/// Exactly one bit of `b` is set.
pub open spec fn single(b: u64) -> bool {
    b != 0 && b & vstd::prelude::sub(b, 1) == 0
}

/// Each side has exactly one king.
pub open spec fn kings_single(bbs: Seq<u64>) -> bool {
    single(bbs[slot(Turn::White, Piece::King)]) && single(bbs[slot(Turn::Black, Piece::King)])
}

/// How a generated move sits on the board: a castling with king and rook on
/// their squares and both landing squares empty; any other move leaves a
/// square of the mover for one of its destinations, which holds no piece of
/// the mover, and names what it captures.
pub open spec fn placed(bbs: Seq<u64>, st: State, m: Move) -> bool {
    let t = st.turn;
    if m.castled {
        &&& (m == kingside_move(t) || m == queenside_move(t))
        &&& has_bit(bbs[slot(t, Piece::King)], king_companion(m, t).from as int)
        &&& has_bit(bbs[slot(t, Piece::Rook)], m.from as int)
        &&& empty_at(bbs, m.to as int)
        &&& empty_at(bbs, castle_king_to(m))
    } else {
        &&& has_bit(bbs[slot(t, m.piece)], m.from as int)
        &&& has_bit(targets(bbs, st, m.piece, m.from as int), m.to as int)
        &&& !has_bit(own_bits(bbs, t), m.to as int)
        &&& (m.en_passant_capture ==> st.en_passant == Some(m.to) && m.captured == Some(
            Piece::Pawn,
        ))
        &&& (!m.en_passant_capture ==> m.captured == captured_at(bbs, m.to as int))
        &&& (m.promotion matches Some(p) ==> m.piece == Piece::Pawn && p != Piece::Pawn && p
            != Piece::King && promotes(t, m.piece, m.to as int))
    }
}

pub open spec fn all_placed(bbs: Seq<u64>, st: State, ms: Seq<Move>) -> bool {
    forall|k: int| 0 <= k < ms.len() ==> placed(bbs, st, #[trigger] ms[k]) && move_ok(ms[k])
}

proof fn lemma_concat_placed(bbs: Seq<u64>, st: State, a: Seq<Move>, b: Seq<Move>)
    requires
        all_placed(bbs, st, a),
        all_placed(bbs, st, b),
    ensures
        all_placed(bbs, st, a + b),
{
    assert forall|k: int| 0 <= k < (a + b).len() implies placed(bbs, st, #[trigger] (a + b)[k])
        && move_ok((a + b)[k]) by {
        if k < a.len() {
            assert((a + b)[k] == a[k]);
        } else {
            assert((a + b)[k] == b[k - a.len()]);
        }
    }
}

proof fn lemma_records_placed(bbs: Seq<u64>, st: State, piece: Piece, from: int, n: int)
    requires
        bbs.len() == 12,
        0 <= from < 64,
        has_bit(bbs[slot(st.turn, piece)], from),
        0 <= n <= squares_of(targets(bbs, st, piece, from)).len(),
    ensures
        all_placed(
            bbs,
            st,
            records_upto(bbs, st, piece, from, squares_of(targets(bbs, st, piece, from)), n),
        ),
    decreases n,
{
    let dests = targets(bbs, st, piece, from);
    let tos = squares_of(dests);
    if n > 0 {
        lemma_records_placed(bbs, st, piece, from, n - 1);
        lemma_squares_bounds(dests);
        let to = tos[n - 1];
        lemma_targets_free(bbs, st, piece, from, to);
        let rs = records_for(bbs, st, piece, from, to);
        assert forall|k: int| 0 <= k < rs.len() implies placed(bbs, st, #[trigger] rs[k])
            && move_ok(rs[k]) by {
            assert(rs[k].to == to as u8);
            assert(rs[k].from == from as u8);
        }
        lemma_concat_placed(bbs, st, records_upto(bbs, st, piece, from, tos, n - 1), rs);
    }
}

proof fn lemma_pseudo_upto_placed(bbs: Seq<u64>, st: State, piece: Piece, n: int)
    requires
        bbs.len() == 12,
        0 <= n <= squares_of(bbs[slot(st.turn, piece)]).len(),
    ensures
        all_placed(bbs, st, pseudo_upto(bbs, st, piece, squares_of(bbs[slot(st.turn, piece)]), n)),
    decreases n,
{
    let froms = squares_of(bbs[slot(st.turn, piece)]);
    if n > 0 {
        lemma_pseudo_upto_placed(bbs, st, piece, n - 1);
        lemma_squares_bounds(bbs[slot(st.turn, piece)]);
        let from = froms[n - 1];
        lemma_records_placed(
            bbs,
            st,
            piece,
            from,
            squares_of(targets(bbs, st, piece, from)).len() as int,
        );
        lemma_concat_placed(
            bbs,
            st,
            pseudo_upto(bbs, st, piece, froms, n - 1),
            records_of(bbs, st, piece, from, targets(bbs, st, piece, from)),
        );
    }
}

proof fn lemma_filter_placed(bbs: Seq<u64>, st: State, ms: Seq<Move>, n: int)
    requires
        all_placed(bbs, st, ms),
        n <= ms.len(),
    ensures
        all_placed(bbs, st, legal_upto(bbs, st, ms, n)),
    decreases n,
{
    if n > 0 {
        lemma_filter_placed(bbs, st, ms, n - 1);
        let r = legal_upto(bbs, st, ms, n - 1);
        assert(placed(bbs, st, ms[n - 1]) && move_ok(ms[n - 1]));
        assert forall|k: int| 0 <= k < r.push(ms[n - 1]).len() implies placed(
            bbs,
            st,
            #[trigger] r.push(ms[n - 1])[k],
        ) && move_ok(r.push(ms[n - 1])[k]) by {
            if k < r.len() {
                assert(r.push(ms[n - 1])[k] == r[k]);
            }
        }
    }
}

proof fn lemma_piece_placed(bbs: Seq<u64>, st: State, piece: Piece)
    requires
        bbs.len() == 12,
    ensures
        all_placed(bbs, st, legal_of(bbs, st, piece)),
{
    lemma_pseudo_upto_placed(bbs, st, piece, squares_of(bbs[slot(st.turn, piece)]).len() as int);
    lemma_filter_placed(
        bbs,
        st,
        pseudo_spec(bbs, st, piece),
        pseudo_spec(bbs, st, piece).len() as int,
    );
}

} // verus!

verus! {

proof fn lemma_empty_from_occupied(bbs: Seq<u64>, s: int)
    requires
        0 <= s < 64,
        !has_bit(occupied_bits(bbs), s),
    ensures
        empty_at(bbs, s),
{
    let b = black_bits(bbs);
    let w = white_bits(bbs);
    let m = sq_mask(s);
    assert((b | w) & m == 0 ==> b & m == 0 && w & m == 0) by (bit_vector);
    lemma_not_own(bbs, Turn::White, s);
    lemma_not_own(bbs, Turn::Black, s);
    assert forall|k: int| 0 <= k < 12 implies !#[trigger] has_bit(bbs[k], s) by {
        if k == 0 {
            assert(k == slot(Turn::White, Piece::Pawn));
        } else if k == 1 {
            assert(k == slot(Turn::White, Piece::Rook));
        } else if k == 2 {
            assert(k == slot(Turn::White, Piece::King));
        } else if k == 3 {
            assert(k == slot(Turn::White, Piece::Knight));
        } else if k == 4 {
            assert(k == slot(Turn::White, Piece::Queen));
        } else if k == 5 {
            assert(k == slot(Turn::White, Piece::Bishop));
        } else if k == 6 {
            assert(k == slot(Turn::Black, Piece::Pawn));
        } else if k == 7 {
            assert(k == slot(Turn::Black, Piece::Rook));
        } else if k == 8 {
            assert(k == slot(Turn::Black, Piece::King));
        } else if k == 9 {
            assert(k == slot(Turn::Black, Piece::Knight));
        } else if k == 10 {
            assert(k == slot(Turn::Black, Piece::Queen));
        } else {
            assert(k == slot(Turn::Black, Piece::Bishop));
        }
    }
}

proof fn lemma_castling_placed(bbs: Seq<u64>, st: State)
    requires
        bbs.len() == 12,
    ensures
        all_placed(bbs, st, castling_spec(occupied_bits(bbs), bbs, st)),
{
    let g = castling_spec(occupied_bits(bbs), bbs, st);
    let o = occupied_bits(bbs);
    let kb = bbs[slot(st.turn, Piece::King)];
    let rb = bbs[slot(st.turn, Piece::Rook)];
    assert((kb & 0x1000000000000000u64 != 0 ==> kb & (1u64 << 60u64) != 0) && (kb & 0x10u64 != 0
        ==> kb & (1u64 << 4u64) != 0) && (rb & 0x8000000000000000u64 != 0 ==> rb & (1u64 << 63u64)
        != 0) && (rb & 0x100000000000000u64 != 0 ==> rb & (1u64 << 56u64) != 0) && (rb & 0x80u64
        != 0 ==> rb & (1u64 << 7u64) != 0) && (rb & 0x1u64 != 0 ==> rb & (1u64 << 0u64) != 0) && (o
        & 0x6000000000000000u64 == 0 ==> o & (1u64 << 61u64) == 0 && o & (1u64 << 62u64) == 0) && (o
        & 0x0E00000000000000u64 == 0 ==> o & (1u64 << 58u64) == 0 && o & (1u64 << 59u64) == 0) && (o
        & 0x60u64 == 0 ==> o & (1u64 << 5u64) == 0 && o & (1u64 << 6u64) == 0) && (o & 0x0Eu64 == 0
        ==> o & (1u64 << 2u64) == 0 && o & (1u64 << 3u64) == 0)) by (bit_vector);
    assert forall|k: int| 0 <= k < g.len() implies placed(bbs, st, #[trigger] g[k]) && move_ok(
        g[k],
    ) by {
        let m = g[k];
        assert(m == kingside_move(st.turn) || m == queenside_move(st.turn));
        if !has_bit(o, m.to as int) {
            lemma_empty_from_occupied(bbs, m.to as int);
        }
        if !has_bit(o, castle_king_to(m)) {
            lemma_empty_from_occupied(bbs, castle_king_to(m));
        }
    }
}

/// Every legal move sits on the board as `placed` says.
proof fn lemma_legal_placed(bbs: Seq<u64>, st: State)
    requires
        bbs.len() == 12,
    ensures
        all_placed(bbs, st, legal_moves_spec(bbs, st)),
{
    reveal(legal_moves_spec);
    let a = legal_of(bbs, st, Piece::Pawn);
    let b = legal_of(bbs, st, Piece::Rook);
    let c = legal_of(bbs, st, Piece::Bishop);
    let d = legal_of(bbs, st, Piece::King);
    let e = legal_of(bbs, st, Piece::Knight);
    let f = legal_of(bbs, st, Piece::Queen);
    let g = castling_spec(occupied_bits(bbs), bbs, st);
    lemma_piece_placed(bbs, st, Piece::Pawn);
    lemma_piece_placed(bbs, st, Piece::Rook);
    lemma_piece_placed(bbs, st, Piece::Bishop);
    lemma_piece_placed(bbs, st, Piece::King);
    lemma_piece_placed(bbs, st, Piece::Knight);
    lemma_piece_placed(bbs, st, Piece::Queen);
    lemma_castling_placed(bbs, st);
    lemma_concat_placed(bbs, st, a, b);
    lemma_concat_placed(bbs, st, a + b, c);
    lemma_concat_placed(bbs, st, a + b + c, d);
    lemma_concat_placed(bbs, st, a + b + c + d, e);
    lemma_concat_placed(bbs, st, a + b + c + d + e, f);
    lemma_concat_placed(bbs, st, a + b + c + d + e + f, g);
}

} // verus!

verus! {

proof fn lemma_first_holder_none(bbs: Seq<u64>, s: int, from: int)
    requires
        0 <= from,
        first_holder(bbs, s, from) is None,
    ensures
        forall|k: int| from <= k < 12 ==> !#[trigger] has_bit(bbs[k], s),
    decreases 12 - from,
{
    if from < 12 {
        lemma_first_holder_none(bbs, s, from + 1);
    }
}

proof fn lemma_slot_of_index(k: int)
    requires
        0 <= k < 12,
    ensures
        k < 6 ==> slot(Turn::White, kind_of_slot(k)) == k,
        k >= 6 ==> slot(Turn::Black, kind_of_slot(k)) == k,
{
}

/// The square that a placed capture takes a piece from holds an opposing
/// piece of the captured kind, and a placed non-capture lands on an empty
/// square.
proof fn lemma_capture_target(bbs: Seq<u64>, st: State, m: Move)
    requires
        bbs.len() == 12,
        one_holder(bbs),
        ep_consistent(bbs, st),
        placed(bbs, st, m),
        move_ok(m),
        !m.castled,
    ensures
        m.captured matches Some(c) ==> 0 <= capture_square(m, st) < 64 && has_bit(
            bbs[slot(opposite(st.turn), c)],
            capture_square(m, st),
        ) && (capture_square(m, st) == m.to || empty_at(bbs, m.to as int)),
        m.captured is None ==> empty_at(bbs, m.to as int),
{
    let t = st.turn;
    let to = m.to as int;
    lemma_not_own(bbs, t, to);
    if !m.en_passant_capture {
        crate::utils::lemma_first_holder_range(bbs, to, 0);
        match first_holder(bbs, to, 0) {
            Some(k) => {
                let k = k as int;
                lemma_slot_of_index(k);
                if t == Turn::White {
                    if k < 6 {
                        assert(!has_bit(bbs[slot(t, kind_of_slot(k))], to));
                    }
                } else {
                    if k >= 6 {
                        assert(!has_bit(bbs[slot(t, kind_of_slot(k))], to));
                    }
                }
            },
            None => {
                lemma_first_holder_none(bbs, to, 0);
            },
        }
    }
}

/// Applying one placed move other than a castling keeps every square held
/// by at most one bitboard.
proof fn lemma_apply_one_holder(bbs: Seq<u64>, st: State, m: Move)
    requires
        bbs.len() == 12,
        one_holder(bbs),
        ep_consistent(bbs, st),
        placed(bbs, st, m),
        move_ok(m),
        !m.castled,
    ensures
        apply_bits(bbs, st, m).len() == 12,
        one_holder(apply_bits(bbs, st, m)),
{
    let t = st.turn;
    let i = slot(t, m.piece);
    let f = m.from as int;
    let to = m.to as int;
    lemma_capture_target(bbs, st, m);
    lemma_not_own(bbs, t, to);
    assert(f != to);
    let b1 = match m.captured {
        Some(c) => xor_slot(bbs, slot(opposite(t), c), sq_mask(capture_square(m, st))),
        None => bbs,
    };
    match m.captured {
        Some(c) => {
            lemma_remove(bbs, slot(opposite(t), c), capture_square(m, st));
        },
        None => {},
    }
    assert(b1[i] == bbs[i]);
    assert(empty_at(b1, to));
    lemma_move(b1, i, f, to);
    let b2 = xor_slot(xor_slot(b1, i, sq_mask(to)), i, sq_mask(f));
    match m.promotion {
        Some(p) => {
            lemma_swap(b2, i, slot(t, p), to);
        },
        None => {},
    }
}

/// Making a castling keeps every square held by at most one bitboard.
proof fn lemma_castle_one_holder(bbs: Seq<u64>, st: State, m: Move)
    requires
        bbs.len() == 12,
        one_holder(bbs),
        placed(bbs, st, m),
        move_ok(m),
        m.castled,
    ensures
        one_holder(make_bits(bbs, st, m)),
        make_bits(bbs, st, m)[slot(st.turn, Piece::King)] == (bbs[slot(st.turn, Piece::King)] ^ sq_mask(
            castle_king_to(m),
        )) ^ sq_mask(king_companion(m, st.turn).from as int),
        forall|k: int|
            0 <= k < 12 && k != slot(st.turn, Piece::King) && k != slot(st.turn, Piece::Rook)
                ==> #[trigger] make_bits(bbs, st, m)[k] == bbs[k],
{
    let t = st.turn;
    let k = king_companion(m, t);
    let ki = slot(t, Piece::King);
    let ri = slot(t, Piece::Rook);
    lemma_move(bbs, ki, k.from as int, k.to as int);
    let b1 = apply_bits(bbs, st, k);
    assert(b1[ri] == bbs[ri]);
    assert(empty_at(b1, m.to as int));
    lemma_move(b1, ri, m.from as int, m.to as int);
}

/// After a committed legal move from a position whose bitboards are
/// disjoint and whose en-passant target is consistent, the bitboards are
/// still pairwise disjoint.
pub proof fn lemma_make_keeps_disjoint(p: Position, m: Move)
    requires
        pos_ok(p),
        legal_moves_spec(p.bbs, p.state).contains(m),
    ensures
        disjoint(make_spec(p, m, true).bbs),
{
    lemma_legal_placed(p.bbs, p.state);
    let ms = legal_moves_spec(p.bbs, p.state);
    let k = choose|k: int| 0 <= k < ms.len() && ms[k] == m;
    assert(placed(p.bbs, p.state, ms[k]) && move_ok(ms[k]));
    lemma_disjoint_one_holder(p.bbs);
    if m.castled {
        lemma_castle_one_holder(p.bbs, p.state, m);
    } else {
        lemma_apply_one_holder(p.bbs, p.state, m);
    }
    lemma_disjoint_one_holder(make_spec(p, m, true).bbs);
}

} // verus!

verus! {

proof fn lemma_single_step(x: u64, f: int, t: int)
    requires
        single(x),
        has_bit(x, f),
        0 <= f < 64,
        0 <= t < 64,
    ensures
        single((x ^ sq_mask(t)) ^ sq_mask(f)),
{
    let ff = f as u64;
    let tt = t as u64;
    assert(ff < 64 && tt < 64 && x != 0 && x & vstd::prelude::sub(x, 1) == 0 && x & (1u64 << ff)
        != 0 ==> ((x ^ (1u64 << tt)) ^ (1u64 << ff)) == (1u64 << tt)) by (bit_vector);
    assert(tt < 64 ==> (1u64 << tt) != 0 && (1u64 << tt) & vstd::prelude::sub(1u64 << tt, 1) == 0)
        by (bit_vector);
}

/// After a committed legal move that captures no king, from a position with
/// disjoint bitboards, a consistent en-passant target and one king on each
/// side, each side still has exactly one king.
pub proof fn lemma_make_keeps_kings(p: Position, m: Move)
    requires
        pos_ok(p),
        kings_single(p.bbs),
        legal_moves_spec(p.bbs, p.state).contains(m),
        m.captured != Some(Piece::King),
    ensures
        kings_single(make_spec(p, m, true).bbs),
{
    lemma_legal_placed(p.bbs, p.state);
    let ms = legal_moves_spec(p.bbs, p.state);
    let k = choose|k: int| 0 <= k < ms.len() && ms[k] == m;
    assert(placed(p.bbs, p.state, ms[k]) && move_ok(ms[k]));
    lemma_disjoint_one_holder(p.bbs);
    let t = p.state.turn;
    let bbs = p.bbs;
    let own_king = slot(t, Piece::King);
    let their_king = slot(opposite(t), Piece::King);
    let after = make_spec(p, m, true).bbs;
    if m.castled {
        lemma_castle_one_holder(bbs, p.state, m);
        lemma_single_step(
            bbs[own_king],
            king_companion(m, t).from as int,
            castle_king_to(m),
        );
        assert(after[their_king] == bbs[their_king]);
    } else {
        let i = slot(t, m.piece);
        assert(after[their_king] == bbs[their_king]);
        if m.piece == Piece::King {
            lemma_single_step(bbs[own_king], m.from as int, m.to as int);
        } else {
            assert(after[own_king] == bbs[own_king]);
        }
    }
    if t == Turn::White {
        assert(kings_single(after));
    } else {
        assert(kings_single(after));
    }
}

} // verus!

verus! {

proof fn lemma_or_and_bits(x: u64, y: u64, t: int)
    requires
        0 <= t < 64,
    ensures
        has_bit(x | y, t) == (has_bit(x, t) || has_bit(y, t)),
        has_bit(x & y, t) == (has_bit(x, t) && has_bit(y, t)),
        has_bit(x & !y, t) == (has_bit(x, t) && !has_bit(y, t)),
        !has_bit(0u64, t),
{
    let tt = t as u64;
    assert(tt < 64 ==> (((x | y) & (1u64 << tt) != 0) == ((x & (1u64 << tt) != 0) || (y & (1u64
        << tt) != 0))) && (((x & y) & (1u64 << tt) != 0) == ((x & (1u64 << tt) != 0) && (y & (1u64
        << tt) != 0))) && (((x & !y) & (1u64 << tt) != 0) == ((x & (1u64 << tt) != 0) && !(y & (1u64
        << tt) != 0))) && 0u64 & (1u64 << tt) == 0) by (bit_vector);
}

proof fn lemma_shift_bits(f: int, t: int)
    requires
        0 <= f < 64,
        0 <= t < 64,
    ensures
        has_bit(sq_mask(f) >> 7u64, t) ==> t + 7 == f,
        has_bit(sq_mask(f) >> 9u64, t) ==> t + 9 == f,
        has_bit(sq_mask(f) >> 8u64, t) ==> t + 8 == f,
        has_bit(sq_mask(f) >> 16u64, t) ==> t + 16 == f,
        has_bit(sq_mask(f) << 7u64, t) ==> t == f + 7,
        has_bit(sq_mask(f) << 9u64, t) ==> t == f + 9,
        has_bit(sq_mask(f) << 8u64, t) ==> t == f + 8,
        has_bit(sq_mask(f) << 16u64, t) ==> t == f + 16,
        f >= 8 ==> sq_mask(f) >> 8u64 == sq_mask(f - 8),
        f < 56 ==> sq_mask(f) << 8u64 == sq_mask(f + 8),
        f >= 16 ==> sq_mask(f) >> 16u64 == sq_mask(f - 16),
        f < 48 ==> sq_mask(f) << 16u64 == sq_mask(f + 16),
        has_bit(sq_mask(f), f),
        f == 48 ==> sq_mask(f) & 0xFEFEFEFEFEFEFEFEu64 == 0,
        f == 15 ==> sq_mask(f) & 0x7F7F7F7F7F7F7F7Fu64 == 0,
{
    let ff = f as u64;
    let tt = t as u64;
    assert(ff < 64 && tt < 64 ==> (((1u64 << ff) >> 7u64) & (1u64 << tt) != 0 ==> tt + 7 == ff) && ((
    (1u64 << ff) >> 9u64) & (1u64 << tt) != 0 ==> tt + 9 == ff) && (((1u64 << ff) >> 8u64) & (1u64
        << tt) != 0 ==> tt + 8 == ff) && (((1u64 << ff) >> 16u64) & (1u64 << tt) != 0 ==> tt + 16
        == ff) && (((1u64 << ff) << 7u64) & (1u64 << tt) != 0 ==> tt == ff + 7) && (((1u64 << ff)
        << 9u64) & (1u64 << tt) != 0 ==> tt == ff + 9) && (((1u64 << ff) << 8u64) & (1u64 << tt)
        != 0 ==> tt == ff + 8) && (((1u64 << ff) << 16u64) & (1u64 << tt) != 0 ==> tt == ff + 16)
        && (8 <= ff ==> (1u64 << ff) >> 8u64 == 1u64 << vstd::prelude::sub(ff, 8)) && (ff < 56 ==> (
    1u64 << ff) << 8u64 == 1u64 << vstd::prelude::add(ff, 8)) && (16 <= ff ==> (1u64 << ff) >> 16u64
        == 1u64 << vstd::prelude::sub(ff, 16)) && (ff < 48 ==> (1u64 << ff) << 16u64 == 1u64
        << vstd::prelude::add(ff, 16)) && (1u64 << ff) & (1u64 << ff) != 0 && (1u64 << 48u64)
        & 0xFEFEFEFEFEFEFEFEu64 == 0 && (1u64 << 15u64) & 0x7F7F7F7F7F7F7F7Fu64 == 0)
        by (bit_vector);
}

/// A pawn double push of a generated move goes straight two ranks ahead
/// over an empty square onto an empty square.
proof fn lemma_double_push(bbs: Seq<u64>, st: State, f: int, to: int)
    requires
        0 <= f < 64,
        0 <= to < 64,
        has_bit(targets(bbs, st, Piece::Pawn, f), to),
        double_push(f, to, st.turn),
    ensures
        st.turn == Turn::White ==> to == f - 16 && !has_bit(occupied_bits(bbs), f - 8) && !has_bit(
            occupied_bits(bbs),
            to,
        ),
        st.turn == Turn::Black ==> to == f + 16 && !has_bit(occupied_bits(bbs), f + 8) && !has_bit(
            occupied_bits(bbs),
            to,
        ),
{
    let own = own_bits(bbs, st.turn);
    let push = pawn_push_spec(bbs, st.turn, f);
    let cap = pawn_capture_spec(bbs, st, f, false);
    let occ = occupied_bits(bbs);
    let s = sq_mask(f);
    lemma_or_and_bits(push | cap, own, to);
    lemma_or_and_bits(push, cap, to);
    lemma_shift_bits(f, to);
    let pat = pawn_attack_pattern(st.turn, f);
    lemma_or_and_bits(pat, cap, to);
    assert(has_bit(cap, to) ==> has_bit(pat, to)) by {
        let other = own_bits(bbs, opposite(st.turn)) | crate::legalmoves::ep_bits(st);
        lemma_or_and_bits(pat, other, to);
    }
    if st.turn == Turn::White {
        let a = if s & 0x7F7F7F7F7F7F7F7Fu64 != 0 { s >> 7u64 } else { 0u64 };
        let b = if s & 0xFEFEFEFEFEFEFEFEu64 != 0 { s >> 9u64 } else { 0u64 };
        lemma_or_and_bits(a, b, to);
        lemma_or_and_bits(0u64, 0u64, to);
        assert(!has_bit(pat, to));
        assert(has_bit(push, to));
        assert((s >> 8u64) & occ == 0);
        lemma_or_and_bits(s >> 8u64, s >> 16u64, to);
        lemma_or_and_bits(s >> 8u64, occ, f - 8);
        lemma_or_and_bits(s >> 16u64, occ, to);
        assert(to == f - 16);
        lemma_shift_bits(f - 8, f - 8);
        assert(s & 0x00FF000000000000u64 != 0 && (s >> 16u64) & occ == 0);
        lemma_shift_bits(to, to);
        assert(sq_mask(f) >> 16u64 == sq_mask(to));
    } else {
        let a = if s & 0xFEFEFEFEFEFEFEFEu64 != 0 { s << 7u64 } else { 0u64 };
        let b = if s & 0x7F7F7F7F7F7F7F7Fu64 != 0 { s << 9u64 } else { 0u64 };
        lemma_or_and_bits(a, b, to);
        lemma_or_and_bits(0u64, 0u64, to);
        assert(!has_bit(pat, to));
        assert(has_bit(push, to));
        assert((s << 8u64) & occ == 0);
        lemma_or_and_bits(s << 8u64, s << 16u64, to);
        lemma_or_and_bits(s << 8u64, occ, f + 8);
        lemma_or_and_bits(s << 16u64, occ, to);
        assert(to == f + 16);
        lemma_shift_bits(f + 8, f + 8);
        assert(s & 0xFF00u64 != 0 && (s << 16u64) & occ == 0);
        lemma_shift_bits(to, to);
        assert(sq_mask(f) << 16u64 == sq_mask(to));
    }
}

} // verus!

verus! {

/// A committed legal move keeps the position invariants: disjoint
/// bitboards, and an en-passant target on rank three or six, empty, with
/// the pawn that skipped it right behind.
pub proof fn lemma_make_keeps_pos_ok(p: Position, m: Move)
    requires
        pos_ok(p),
        legal_moves_spec(p.bbs, p.state).contains(m),
    ensures
        pos_ok(make_spec(p, m, true)),
{
    lemma_make_keeps_disjoint(p, m);
    lemma_legal_placed(p.bbs, p.state);
    let ms = legal_moves_spec(p.bbs, p.state);
    let k = choose|k: int| 0 <= k < ms.len() && ms[k] == m;
    assert(placed(p.bbs, p.state, ms[k]) && move_ok(ms[k]));
    let st = p.state;
    let t = st.turn;
    let bbs = p.bbs;
    let q = make_spec(p, m, true);
    if m.piece == Piece::Pawn && double_push(m.from as int, m.to as int, t) {
        let f = m.from as int;
        let to = m.to as int;
        assert(!m.castled);
        lemma_double_push(bbs, st, f, to);
        lemma_empty_from_occupied(bbs, to);
        let mid = if t == Turn::White { f - 8 } else { f + 8 };
        lemma_empty_from_occupied(bbs, mid);
        assert(!m.en_passant_capture);
        crate::utils::lemma_first_holder_range(bbs, to, 0);
        assert(m.captured is None);
        assert(m.promotion is None);
        lemma_disjoint_one_holder(bbs);
        let i = slot(t, Piece::Pawn);
        lemma_move(bbs, i, f, to);
        assert(q.bbs == xor_slot(xor_slot(bbs, i, sq_mask(to)), i, sq_mask(f)));
        assert(q.state.en_passant == Some(mid as u8));
        assert(empty_at(q.bbs, mid));
        assert(has_bit(q.bbs[i], to));
    }
}

} // verus!

verus! {

/// Along any sequence of legal moves, committed one after another, the
/// bitboards stay pairwise disjoint.
pub proof fn lemma_play_keeps_disjoint(p: Position, ms: Seq<Move>)
    requires
        pos_ok(p),
        playable(p, ms),
    ensures
        pos_ok(make_all(p, ms)),
        disjoint(make_all(p, ms).bbs),
    decreases ms.len(),
{
    if ms.len() > 0 {
        lemma_make_keeps_pos_ok(p, ms[0]);
        lemma_play_keeps_disjoint(make_spec(p, ms[0], true), ms.drop_first());
    }
}

/// Along any sequence of legal moves none of which captures a king, each
/// side keeps exactly one king.
pub proof fn lemma_play_keeps_kings(p: Position, ms: Seq<Move>)
    requires
        pos_ok(p),
        kings_single(p.bbs),
        playable(p, ms),
        forall|k: int| 0 <= k < ms.len() ==> #[trigger] ms[k].captured != Some(Piece::King),
    ensures
        kings_single(make_all(p, ms).bbs),
    decreases ms.len(),
{
    if ms.len() > 0 {
        assert(ms[0].captured != Some(Piece::King));
        lemma_make_keeps_kings(p, ms[0]);
        lemma_make_keeps_pos_ok(p, ms[0]);
        let rest = ms.drop_first();
        assert forall|k: int| 0 <= k < rest.len() implies #[trigger] rest[k].captured != Some(
            Piece::King,
        ) by {
            assert(rest[k] == ms[k + 1]);
        }
        lemma_play_keeps_kings(make_spec(p, ms[0], true), rest);
    }
}

} // verus!

verus! {

proof fn lemma_bits_from_has(x: u64, i: int, sq: int)
    requires
        0 <= i <= sq < 64,
        has_bit(x, sq),
    ensures
        crate::utils::bits_from(x, i).contains(sq),
    decreases sq - i,
{
    if i < sq {
        lemma_bits_from_has(x, i + 1, sq);
        let r = crate::utils::bits_from(x, i + 1);
        let k = choose|k: int| 0 <= k < r.len() && r[k] == sq;
        if has_bit(x, i) {
            assert(crate::utils::bits_from(x, i)[k + 1] == sq);
        }
    } else {
        assert(crate::utils::bits_from(x, i)[0] == sq);
    }
}

/// A union over squares holds `t` exactly when one square's pattern does.
proof fn lemma_attacks_upto_has(
    kind: Piece,
    attacker: Turn,
    occ: u64,
    own: u64,
    sqs: Seq<int>,
    n: int,
    t: int,
)
    requires
        0 <= n <= sqs.len(),
        0 <= t < 64,
    ensures
        has_bit(attacks_upto(kind, attacker, occ, own, sqs, n), t) <==> exists|k: int|
            0 <= k < n && #[trigger] has_bit(piece_attacks(kind, attacker, sqs[k], occ, own), t),
    decreases n,
{
    if n > 0 {
        lemma_attacks_upto_has(kind, attacker, occ, own, sqs, n - 1, t);
        lemma_or_and_bits(
            attacks_upto(kind, attacker, occ, own, sqs, n - 1),
            piece_attacks(kind, attacker, sqs[n - 1], occ, own),
            t,
        );
    } else {
        lemma_or_and_bits(0, 0, t);
    }
}

} // verus!

verus! {

/// Every castling right still held has its king and its rook on their home
/// squares.
pub open spec fn rights_ok(bbs: Seq<u64>, st: State) -> bool {
    let r = st.castling_rights;
    &&& (r & 8 != 0 ==> has_bit(bbs[2], 60) && has_bit(bbs[1], 63))
    &&& (r & 4 != 0 ==> has_bit(bbs[2], 60) && has_bit(bbs[1], 56))
    &&& (r & 2 != 0 ==> has_bit(bbs[8], 4) && has_bit(bbs[7], 7))
    &&& (r & 1 != 0 ==> has_bit(bbs[8], 4) && has_bit(bbs[7], 0))
}

/// Applying one move changes no bitboard on a square other than its
/// origin, its destination and the square it captures on.
proof fn lemma_apply_unchanged(bbs: Seq<u64>, st: State, m: Move, s: int)
    requires
        bbs.len() == 12,
        0 <= s < 64,
        move_ok(m),
        s != m.from,
        s != m.to,
        m.captured is Some ==> 0 <= capture_square(m, st) < 64 && s != capture_square(m, st),
    ensures
        forall|k: int| 0 <= k < 12 ==> #[trigger] has_bit(apply_bits(bbs, st, m)[k], s) == has_bit(bbs[k], s),
{
    let t = st.turn;
    let i = slot(t, m.piece);
    let mt = sq_mask(m.to as int);
    let mf = sq_mask(m.from as int);
    let b1 = match m.captured {
        Some(c) => xor_slot(bbs, slot(opposite(t), c), sq_mask(capture_square(m, st))),
        None => bbs,
    };
    assert forall|k: int| 0 <= k < 12 implies #[trigger] has_bit(b1[k], s) == has_bit(bbs[k], s) by {
        match m.captured {
            Some(c) => lemma_bit_ops(bbs[k], capture_square(m, st), s),
            None => {},
        }
    }
    let b2 = xor_slot(xor_slot(b1, i, mt), i, mf);
    assert forall|k: int| 0 <= k < 12 implies #[trigger] has_bit(b2[k], s) == has_bit(b1[k], s) by {
        lemma_bit_ops(b1[k], m.to as int, s);
        lemma_bit_ops(b1[k] ^ mt, m.from as int, s);
    }
    match m.promotion {
        Some(p) => {
            let j = slot(t, p);
            let b3 = b2.update(i, b2[i] & !mt);
            assert forall|k: int| 0 <= k < 12 implies #[trigger] has_bit(
                b3.update(j, b3[j] | mt)[k],
                s,
            ) == has_bit(b2[k], s) by {
                lemma_bit_ops(b2[k], m.to as int, s);
                lemma_bit_ops(b3[k], m.to as int, s);
            }
        },
        None => {},
    }
}

proof fn lemma_right_bits(r0: u8, x: u8, h1: u8, h2: u8, b: u8)
    requires
        b == 8 || b == 4 || b == 2 || b == 1,
    ensures
        ((x & !h1) & !h2) & b != 0 ==> x & b != 0 && h1 & b == 0 && h2 & b == 0,
        (r0 & !x) & b != 0 ==> r0 & b != 0 && x & b == 0,
        12u8 & 8 != 0 && 12u8 & 4 != 0 && 3u8 & 2 != 0 && 3u8 & 1 != 0 && 8u8 & 8 != 0 && 4u8 & 4
            != 0 && 2u8 & 2 != 0 && 1u8 & 1 != 0,
        12u8 & 2 == 0 && 12u8 & 1 == 0 && 3u8 & 8 == 0 && 3u8 & 4 == 0,
        0u8 & b == 0,
{
    assert((b == 8 || b == 4 || b == 2 || b == 1) ==> ((((x & !h1) & !h2) & b != 0 ==> x & b != 0
        && h1 & b == 0 && h2 & b == 0) && ((r0 & !x) & b != 0 ==> r0 & b != 0 && x & b == 0) && 12u8
        & 8 != 0 && 12u8 & 4 != 0 && 3u8 & 2 != 0 && 3u8 & 1 != 0 && 8u8 & 8 != 0 && 4u8 & 4 != 0
        && 2u8 & 2 != 0 && 1u8 & 1 != 0 && 12u8 & 2 == 0 && 12u8 & 1 == 0 && 3u8 & 8 == 0 && 3u8
        & 4 == 0 && 0u8 & b == 0)) by (bit_vector);
}

} // verus!

verus! {

proof fn lemma_right_kept(
    p: Position,
    m: Move,
    b: u8,
    owner: Turn,
    kslot: int,
    ksq: int,
    rslot: int,
    rsq: int,
)
    requires
        pos_ok(p),
        placed(p.bbs, p.state, m),
        move_ok(m),
        b == 8 || b == 4 || b == 2 || b == 1,
        0 <= kslot < 12,
        0 <= rslot < 12,
        ksq == 60 || ksq == 4,
        rsq == 63 || rsq == 56 || rsq == 7 || rsq == 0,
        owner == Turn::White <==> ksq == 60,
        owner == Turn::White <==> (rsq == 63 || rsq == 56),
        home_rights(ksq) & b != 0,
        home_rights(rsq) & b != 0,
        both_rights(owner) & b != 0,
        both_rights(opposite(owner)) & b == 0,
        p.state.castling_rights & b != 0 ==> has_bit(p.bbs[kslot], ksq) && has_bit(
            p.bbs[rslot],
            rsq,
        ),
    ensures
        make_spec(p, m, true).state.castling_rights & b != 0 ==> has_bit(
            make_spec(p, m, true).bbs[kslot],
            ksq,
        ) && has_bit(make_spec(p, m, true).bbs[rslot], rsq),
{
    let st = p.state;
    let t = st.turn;
    let bbs = p.bbs;
    let q = make_spec(p, m, true);
    let r = st.castling_rights;
    let r0 = if m.castled {
        r & !both_rights(t)
    } else {
        r
    };
    let x = strip_rights(r0, t, m);
    let h1 = home_rights(m.from as int);
    let h2 = home_rights(m.to as int);
    lemma_right_bits(r0, x, h1, h2, b);
    lemma_right_bits(r, both_rights(t), 0, 0, b);
    if m.piece == Piece::King {
        lemma_right_bits(r0, both_rights(t), 0, 0, b);
    } else if m.piece == Piece::Rook {
        lemma_right_bits(r0, 8, 0, 0, b);
        lemma_right_bits(r0, 4, 0, 0, b);
        lemma_right_bits(r0, 2, 0, 0, b);
        lemma_right_bits(r0, 1, 0, 0, b);
    }
    if q.state.castling_rights & b != 0 {
        assert(x & b != 0 && h1 & b == 0 && h2 & b == 0);
        assert(r0 & b != 0);
        assert(r & b != 0);
        assert(m.from as int != ksq && m.from as int != rsq);
        assert(m.to as int != ksq && m.to as int != rsq);
        if m.castled {
            assert(t != owner);
            let k = king_companion(m, t);
            lemma_apply_unchanged(bbs, st, k, ksq);
            lemma_apply_unchanged(bbs, st, k, rsq);
            let a = apply_bits(bbs, st, k);
            lemma_apply_unchanged(a, st, m, ksq);
            lemma_apply_unchanged(a, st, m, rsq);
            assert(has_bit(a[kslot], ksq) && has_bit(a[rslot], rsq));
        } else {
            lemma_apply_unchanged(bbs, st, m, ksq);
            lemma_apply_unchanged(bbs, st, m, rsq);
        }
    }
}

/// A committed legal move keeps every remaining castling right backed by its
/// king and rook on their home squares.
pub proof fn lemma_make_keeps_rights(p: Position, m: Move)
    requires
        pos_ok(p),
        rights_ok(p.bbs, p.state),
        legal_moves_spec(p.bbs, p.state).contains(m),
    ensures
        rights_ok(make_spec(p, m, true).bbs, make_spec(p, m, true).state),
{
    lemma_legal_placed(p.bbs, p.state);
    let ms = legal_moves_spec(p.bbs, p.state);
    let k = choose|k: int| 0 <= k < ms.len() && ms[k] == m;
    assert(placed(p.bbs, p.state, ms[k]) && move_ok(ms[k]));
    lemma_right_bits(0, 0, 0, 0, 8);
    lemma_right_kept(p, m, 8, Turn::White, 2, 60, 1, 63);
    lemma_right_kept(p, m, 4, Turn::White, 2, 60, 1, 56);
    lemma_right_kept(p, m, 2, Turn::Black, 8, 4, 7, 7);
    lemma_right_kept(p, m, 1, Turn::Black, 8, 4, 7, 0);
}

} // verus!

verus! {

/// Whether some piece of side `a` could capture a piece standing on `t`.
pub open spec fn attacked_by(bbs: Seq<u64>, a: Turn, t: int) -> bool {
    exists|p: Piece, sq: int|
        0 <= sq < 64 && #[trigger] has_bit(bbs[slot(a, p)], sq) && crate::geometry::could_capture(
            p,
            a,
            sq,
            t,
            occupied_bits(bbs),
        )
}

proof fn lemma_kind_geometry(bbs: Seq<u64>, a: Turn, p: Piece, t: int)
    requires
        bbs.len() == 12,
        0 <= t < 64,
        !has_bit(own_bits(bbs, a), t),
    ensures
        has_bit(kind_attacks(bbs, a, p, occupied_bits(bbs)), t) <==> exists|sq: int|
            0 <= sq < 64 && #[trigger] has_bit(bbs[slot(a, p)], sq)
                && crate::geometry::could_capture(p, a, sq, t, occupied_bits(bbs)),
{
    let x = bbs[slot(a, p)];
    let sqs = squares_of(x);
    let own = own_bits(bbs, a);
    let occ = occupied_bits(bbs);
    lemma_attacks_upto_has(p, a, occ, own, sqs, sqs.len() as int, t);
    lemma_squares_bounds(x);
    if has_bit(kind_attacks(bbs, a, p, occ), t) {
        let k = choose|k: int|
            0 <= k < sqs.len() && #[trigger] has_bit(piece_attacks(p, a, sqs[k], occ, own), t);
        crate::geometry::lemma_pattern_geometry(p, a, sqs[k], t, occ, own);
        assert(has_bit(x, sqs[k]));
    }
    if exists|sq: int|
        0 <= sq < 64 && #[trigger] has_bit(bbs[slot(a, p)], sq) && crate::geometry::could_capture(
            p,
            a,
            sq,
            t,
            occ,
        ) {
        let sq = choose|sq: int|
            0 <= sq < 64 && #[trigger] has_bit(bbs[slot(a, p)], sq)
                && crate::geometry::could_capture(p, a, sq, t, occ);
        lemma_bits_from_has(x, 0, sq);
        let k = choose|k: int| 0 <= k < sqs.len() && sqs[k] == sq;
        crate::geometry::lemma_pattern_geometry(p, a, sq, t, occ, own);
        assert(has_bit(piece_attacks(p, a, sqs[k], occ, own), t));
    }
}

/// Attack-set symmetry: a square free of side `a`'s pieces is in `a`'s
/// attack set exactly when some piece of `a` could capture a piece placed
/// there: a pawn diagonally forward, a knight or king by its table, a
/// rook, bishop or queen along a line with every square strictly between
/// empty.
pub proof fn lemma_attack_set_geometry(bbs: Seq<u64>, a: Turn, t: int)
    requires
        bbs.len() == 12,
        0 <= t < 64,
        !has_bit(own_bits(bbs, a), t),
    ensures
        has_bit(attack_set(bbs, a, occupied_bits(bbs)), t) <==> attacked_by(bbs, a, t),
{
    let occ = occupied_bits(bbs);
    lemma_kind_geometry(bbs, a, Piece::Pawn, t);
    lemma_kind_geometry(bbs, a, Piece::Rook, t);
    lemma_kind_geometry(bbs, a, Piece::King, t);
    lemma_kind_geometry(bbs, a, Piece::Knight, t);
    lemma_kind_geometry(bbs, a, Piece::Queen, t);
    lemma_kind_geometry(bbs, a, Piece::Bishop, t);
    let k0 = kind_attacks(bbs, a, Piece::Pawn, occ);
    let k1 = kind_attacks(bbs, a, Piece::Rook, occ);
    let k2 = kind_attacks(bbs, a, Piece::King, occ);
    let k3 = kind_attacks(bbs, a, Piece::Knight, occ);
    let k4 = kind_attacks(bbs, a, Piece::Queen, occ);
    let k5 = kind_attacks(bbs, a, Piece::Bishop, occ);
    lemma_or_and_bits(k0, k1, t);
    lemma_or_and_bits(k0 | k1, k2, t);
    lemma_or_and_bits(k0 | k1 | k2, k3, t);
    lemma_or_and_bits(k0 | k1 | k2 | k3, k4, t);
    lemma_or_and_bits(k0 | k1 | k2 | k3 | k4, k5, t);
    if attacked_by(bbs, a, t) {
        let (p, sq) = choose|p: Piece, sq: int|
            0 <= sq < 64 && #[trigger] has_bit(bbs[slot(a, p)], sq)
                && crate::geometry::could_capture(p, a, sq, t, occ);
        assert(has_bit(bbs[slot(a, p)], sq));
    }
}

} // verus!
