use vstd::prelude::*;
use vstd::string::StringSliceAdditionalSpecFns;
use crate::board::{Board, FenError, Position, Turn, standard_start, fen_spec, start_bits, initial_state};
use crate::legalmoves::{
    Move, MoveError, algebraic_to_move, move_of_text, move_name, all_sound, generate_legal_moves, legal_moves_spec, lemma_legal_sound, lemma_make_unmake,
    make_move, make_spec, sound_move, unmake_move,
};
use crate::utils::{count_bits, find_bitboard, lemma_squares_bounds, popcount, square_from_bytes};

verus! {

/// Material weight of bitboard column `k`: pawn 1, rook 5, king 0,
/// knight 3, queen 9, bishop 3.
pub open spec fn weight(k: int) -> int {
    if k == 0 {
        1
    } else if k == 1 {
        5
    } else if k == 2 {
        0
    } else if k == 3 {
        3
    } else if k == 4 {
        9
    } else {
        3
    }
}

/// Weighted piece count of the first `n` columns of one side, whose
/// bitboards start at slot `base`.
pub open spec fn material_upto(bbs: Seq<u64>, base: int, n: int) -> int
    decreases n,
{
    if n <= 0 {
        0
    } else {
        material_upto(bbs, base, n - 1) + weight(n - 1) * popcount(bbs[base + n - 1])
    }
}

/// Material balance from the viewpoint of side `t`.
pub open spec fn evaluation(bbs: Seq<u64>, t: Turn) -> int {
    let white = material_upto(bbs, 0, 6);
    let black = material_upto(bbs, 6, 6);
    if t == Turn::White {
        white - black
    } else {
        black - white
    }
}

/// Score bounds: the lowest score is one above the least `i32`, so that its
/// negation fits.
pub open spec fn score_ok(v: int) -> bool {
    i32::MIN < v <= i32::MAX
}

/// Negamax with alpha-beta pruning to `depth`: the score of the position for
/// the side to move and the move that reached it. A position without legal
/// moves scores its evaluation.
pub open spec fn ab_spec(p: Position, depth: nat, alpha: int, beta: int) -> (int, Option<Move>)
    decreases depth + 1, 0int,
{
    let ms = legal_moves_spec(p.bbs, p.state);
    if depth == 0 || ms.len() == 0 {
        (evaluation(p.bbs, p.state.turn), None)
    } else {
        ab_loop(p, ms, depth, 0, alpha, beta, None)
    }
}

/// The alpha-beta loop over the moves of `ms` from index `i` on.
pub open spec fn ab_loop(
    p: Position,
    ms: Seq<Move>,
    depth: nat,
    i: int,
    alpha: int,
    beta: int,
    best: Option<Move>,
) -> (int, Option<Move>)
    decreases depth, ms.len() - i,
{
    if i < 0 || i >= ms.len() || depth == 0 {
        (alpha, best)
    } else {
        let score = -ab_spec(make_spec(p, ms[i], true), (depth - 1) as nat, -beta, -alpha).0;
        let a2 = if score > alpha {
            score
        } else {
            alpha
        };
        let b2 = if score > alpha {
            Some(ms[i])
        } else {
            best
        };
        if a2 >= beta {
            (a2, b2)
        } else {
            ab_loop(p, ms, depth, i + 1, a2, beta, b2)
        }
    }
}

/// Plain negamax to `depth`: the best score for the side to move and a move
/// that reaches it (the first one, in generation order). A position without
/// legal moves scores its evaluation.
pub open spec fn mm_spec(p: Position, depth: nat) -> (int, Option<Move>)
    decreases depth + 1, 0int,
{
    let ms = legal_moves_spec(p.bbs, p.state);
    if depth == 0 || ms.len() == 0 {
        (evaluation(p.bbs, p.state.turn), None)
    } else {
        mm_loop(p, ms, depth, 0, i32::MIN + 1, None)
    }
}

/// The negamax loop over the moves of `ms` from index `i` on.
pub open spec fn mm_loop(
    p: Position,
    ms: Seq<Move>,
    depth: nat,
    i: int,
    max: int,
    best: Option<Move>,
) -> (int, Option<Move>)
    decreases depth, ms.len() - i,
{
    if i < 0 || i >= ms.len() || depth == 0 {
        (max, best)
    } else {
        let score = -mm_spec(make_spec(p, ms[i], true), (depth - 1) as nat).0;
        if score > max {
            mm_loop(p, ms, depth, i + 1, score, Some(ms[i]))
        } else {
            mm_loop(p, ms, depth, i + 1, max, best)
        }
    }
}

proof fn lemma_material_range(bbs: Seq<u64>, base: int, n: int)
    requires
        0 <= n <= 6,
    ensures
        0 <= material_upto(bbs, base, n) <= 576 * n,
    decreases n,
{
    if n > 0 {
        lemma_material_range(bbs, base, n - 1);
        lemma_squares_bounds(bbs[base + n - 1]);
        assert(0 <= weight(n - 1) * popcount(bbs[base + n - 1]) <= 576) by (nonlinear_arith)
            requires
                0 <= weight(n - 1) <= 9,
                0 <= popcount(bbs[base + n - 1]) <= 64,
        ;
    }
}

proof fn lemma_eval_range(bbs: Seq<u64>, t: Turn)
    ensures
        -3456 <= evaluation(bbs, t) <= 3456,
{
    lemma_material_range(bbs, 0, 6);
    lemma_material_range(bbs, 6, 6);
}

proof fn lemma_ab_range(p: Position, depth: nat, alpha: int, beta: int)
    requires
        score_ok(alpha),
        score_ok(beta),
    ensures
        score_ok(ab_spec(p, depth, alpha, beta).0),
    decreases depth + 1, 0int,
{
    let ms = legal_moves_spec(p.bbs, p.state);
    if depth == 0 || ms.len() == 0 {
        lemma_eval_range(p.bbs, p.state.turn);
    } else {
        lemma_ab_loop_range(p, ms, depth, 0, alpha, beta, None);
    }
}

proof fn lemma_ab_loop_range(
    p: Position,
    ms: Seq<Move>,
    depth: nat,
    i: int,
    alpha: int,
    beta: int,
    best: Option<Move>,
)
    requires
        score_ok(alpha),
        score_ok(beta),
    ensures
        score_ok(ab_loop(p, ms, depth, i, alpha, beta, best).0),
    decreases depth, ms.len() - i,
{
    if !(i < 0 || i >= ms.len() || depth == 0) {
        lemma_ab_range(make_spec(p, ms[i], true), (depth - 1) as nat, -beta, -alpha);
        let score = -ab_spec(make_spec(p, ms[i], true), (depth - 1) as nat, -beta, -alpha).0;
        let a2 = if score > alpha {
            score
        } else {
            alpha
        };
        let b2 = if score > alpha {
            Some(ms[i])
        } else {
            best
        };
        if a2 < beta {
            lemma_ab_loop_range(p, ms, depth, i + 1, a2, beta, b2);
        }
    }
}

proof fn lemma_mm_range(p: Position, depth: nat)
    ensures
        score_ok(mm_spec(p, depth).0),
    decreases depth + 1, 0int,
{
    let ms = legal_moves_spec(p.bbs, p.state);
    if depth == 0 || ms.len() == 0 {
        lemma_eval_range(p.bbs, p.state.turn);
    } else {
        lemma_mm_loop_range(p, ms, depth, 0, i32::MIN + 1, None);
    }
}

proof fn lemma_mm_loop_range(p: Position, ms: Seq<Move>, depth: nat, i: int, max: int, best: Option<Move>)
    requires
        score_ok(max),
    ensures
        score_ok(mm_loop(p, ms, depth, i, max, best).0),
    decreases depth, ms.len() - i,
{
    if !(i < 0 || i >= ms.len() || depth == 0) {
        lemma_mm_range(make_spec(p, ms[i], true), (depth - 1) as nat);
        let score = -mm_spec(make_spec(p, ms[i], true), (depth - 1) as nat).0;
        if score > max {
            lemma_mm_loop_range(p, ms, depth, i + 1, score, Some(ms[i]));
        } else {
            lemma_mm_loop_range(p, ms, depth, i + 1, max, best);
        }
    }
}

fn literal_reply() -> (r: String)
    ensures
        r@ == "no legal moves"@,
{
    "no legal moves".to_owned()
}

/// The move that an alpha-beta search returns is a legal move of the
/// position, hence one that make accepts.
proof fn lemma_best_move_ok(p: Position, m: Move)
    requires
        ab_spec(p, 5, i32::MIN + 1, i32::MAX as int).1 == Some(m),
        p.bbs.len() == 12,
    ensures
        crate::legalmoves::move_ok(m),
{
    lemma_ab_best_legal(p, 5, i32::MIN + 1, i32::MAX as int);
    lemma_legal_sound(p.bbs, p.state);
}

/// The move that an alpha-beta search returns, if any, is one of the legal
/// moves of the position.
proof fn lemma_ab_best_legal(p: Position, depth: nat, alpha: int, beta: int)
    ensures
        ab_spec(p, depth, alpha, beta).1 matches Some(m) ==> legal_moves_spec(p.bbs, p.state).contains(m),
{
    let ms = legal_moves_spec(p.bbs, p.state);
    if depth > 0 && ms.len() > 0 {
        lemma_ab_loop_best(p, ms, depth, 0, alpha, beta, None);
    }
}

proof fn lemma_ab_loop_best(
    p: Position,
    ms: Seq<Move>,
    depth: nat,
    i: int,
    alpha: int,
    beta: int,
    best: Option<Move>,
)
    requires
        best matches Some(b) ==> ms.contains(b),
    ensures
        ab_loop(p, ms, depth, i, alpha, beta, best).1 matches Some(m) ==> ms.contains(m),
    decreases depth, ms.len() - i,
{
    if !(i < 0 || i >= ms.len() || depth == 0) {
        let score = -ab_spec(make_spec(p, ms[i], true), (depth - 1) as nat, -beta, -alpha).0;
        let a2 = if score > alpha {
            score
        } else {
            alpha
        };
        let b2 = if score > alpha {
            Some(ms[i])
        } else {
            best
        };
        assert(b2 matches Some(b) ==> ms.contains(b));
        if a2 < beta {
            lemma_ab_loop_best(p, ms, depth, i + 1, a2, beta, b2);
        }
    }
}

/// Material balance of the board from the side to move's viewpoint.
pub fn relative_value_evaluation(board: &Board) -> (r: i32)
    ensures
        r as int == evaluation(board.bitboards@, board.current_state.turn),
{
    let weights: [i32; 6] = [1, 5, 0, 3, 9, 3];
    let mut white_value: i32 = 0;
    let mut black_value: i32 = 0;
    let mut k: usize = 0;
    while k < 6
        invariant
            k <= 6,
            weights@ == seq![1i32, 5i32, 0i32, 3i32, 9i32, 3i32],
            white_value as int == material_upto(board.bitboards@, 0, k as int),
            black_value as int == material_upto(board.bitboards@, 6, k as int),
            0 <= white_value <= 576 * k,
            0 <= black_value <= 576 * k,
        decreases 6 - k,
    {
        proof {
            lemma_material_range(board.bitboards@, 0, k as int + 1);
            lemma_material_range(board.bitboards@, 6, k as int + 1);
            lemma_squares_bounds(board.bitboards@[k as int]);
            lemma_squares_bounds(board.bitboards@[k as int + 6]);
        }
        let w = weights[k];
        assert(w as int == weight(k as int));
        let cw = count_bits(board.bitboards[k]) as i32;
        let cb = count_bits(board.bitboards[k + 6]) as i32;
        assert(0 <= w * cw <= 576) by (nonlinear_arith)
            requires
                0 <= w <= 9,
                0 <= cw <= 64,
        ;
        assert(0 <= w * cb <= 576) by (nonlinear_arith)
            requires
                0 <= w <= 9,
                0 <= cb <= 64,
        ;
        white_value = white_value + w * cw;
        black_value = black_value + w * cb;
        k = k + 1;
    }
    match board.current_state.turn {
        Turn::White => white_value - black_value,
        Turn::Black => black_value - white_value,
    }
}

/// Why a position command was refused.
#[derive(PartialEq, Eq, Structural, Debug, Clone, Copy)]
pub enum PositionError {
    /// The root descriptor is malformed.
    Fen(FenError),
    /// A listed move names no move; its index in the list.
    Move(usize, MoveError),
}

/// The root position: the standard opening, or the one a descriptor gives.
pub open spec fn root_of(fen: Option<Seq<u8>>) -> Result<Position, FenError> {
    match fen {
        None => Ok(Position { bbs: start_bits(), state: initial_state(), history: seq![initial_state()] }),
        Some(s) => match fen_spec(s) {
            Ok(p) => Ok(Position { bbs: p.0, state: p.1, history: seq![p.1] }),
            Err(e) => Err(e),
        },
    }
}

/// The position after applying the moves named by `texts` from index `i`
/// on, each committed, or the first move that names none.
pub open spec fn replay(p: Position, texts: Seq<Seq<u8>>, i: int) -> Result<Position, (usize, MoveError)>
    decreases texts.len() - i,
{
    if i < 0 || i >= texts.len() {
        Ok(p)
    } else {
        match move_of_text(p.bbs, p.state, texts[i]) {
            Ok(m) => replay(make_spec(p, m, true), texts, i + 1),
            Err(e) => Err((i as usize, e)),
        }
    }
}

pub open spec fn texts_of(moves: Seq<&str>) -> Seq<Seq<u8>> {
    moves.map_values(|t: &str| t.spec_bytes())
}

/// What the engine answers to a search request: the chosen move in long
/// algebraic notation, or `no legal moves`.
pub open spec fn reply_of(best: Option<Move>) -> Seq<char> {
    match best {
        Some(m) => move_name(m),
        None => "no legal moves"@,
    }
}

/// A byte that separates words: space, tab, line feed or carriage return.
pub open spec fn is_blank(c: u8) -> bool {
    c == 32 || c == 9 || c == 10 || c == 13
}

/// The start and end of each word of `s` from index `i` on, where `start` is
/// where the word being read began, if one is.
pub open spec fn word_spans(s: Seq<u8>, i: int, start: Option<usize>) -> Seq<(usize, usize)>
    decreases s.len() - i,
{
    if i < 0 || i >= s.len() {
        match start {
            Some(a) => seq![(a, s.len() as usize)],
            None => Seq::empty(),
        }
    } else if is_blank(s[i]) {
        match start {
            Some(a) => seq![(a, i as usize)] + word_spans(s, i + 1, None),
            None => word_spans(s, i + 1, None),
        }
    } else {
        word_spans(
            s,
            i + 1,
            match start {
                Some(a) => Some(a),
                None => Some(i as usize),
            },
        )
    }
}

/// Where the words of a command line start and end, as byte indices.
pub fn split_words(text: &str) -> (r: Vec<(usize, usize)>)
    ensures
        r@ == word_spans(text.spec_bytes(), 0, None),
{
    let s = text.as_bytes();
    let mut spans: Vec<(usize, usize)> = Vec::new();
    let mut start: Option<usize> = None;
    let mut i: usize = 0;
    while i < s.len()
        invariant
            i <= s@.len(),
            s@ == text.spec_bytes(),
            start matches Some(a) ==> a < i,
            spans@ + word_spans(s@, i as int, start) == word_spans(s@, 0, None),
        decreases s@.len() - i,
    {
        let c = s[i];
        if c == 32 || c == 9 || c == 10 || c == 13 {
            match start {
                Some(a) => {
                    proof {
                        assert(spans@.push((a, i)) + word_spans(s@, i + 1, None) =~= spans@ + (seq![
                            (a, i),
                        ] + word_spans(s@, i + 1, None)));
                    }
                    spans.push((a, i));
                },
                None => {},
            }
            start = None;
        } else if start.is_none() {
            start = Some(i);
        }
        i = i + 1;
    }
    match start {
        Some(a) => {
            proof {
                assert(spans@.push((a, s@.len() as usize)) =~= spans@ + seq![(a, s@.len() as usize)]);
            }
            spans.push((a, s.len()));
        },
        None => {
            proof {
                assert(spans@ + Seq::<(usize, usize)>::empty() =~= spans@);
            }
        },
    }
    spans
}

/// The bytes of `position`, `startpos`, `fen` and `moves`.
pub open spec fn word_position() -> Seq<u8> {
    seq![112u8, 111u8, 115u8, 105u8, 116u8, 105u8, 111u8, 110u8]
}

pub open spec fn word_startpos() -> Seq<u8> {
    seq![115u8, 116u8, 97u8, 114u8, 116u8, 112u8, 111u8, 115u8]
}

pub open spec fn word_fen() -> Seq<u8> {
    seq![102u8, 101u8, 110u8]
}

pub open spec fn word_moves() -> Seq<u8> {
    seq![109u8, 111u8, 118u8, 101u8, 115u8]
}

/// Index of the first word `moves` at or after `i`, or the number of words.
pub open spec fn moves_index(ws: Seq<Seq<u8>>, i: int) -> int
    decreases ws.len() - i,
{
    if i < 0 || i >= ws.len() {
        ws.len() as int
    } else if ws[i] == word_moves() {
        i
    } else {
        moves_index(ws, i + 1)
    }
}

/// The parts of a `position startpos [moves ...]` or `position fen <fields>
/// [moves ...]` command split into words: the word range of the descriptor
/// (none for the start position) and the index of the first move.
pub open spec fn position_parts_spec(ws: Seq<Seq<u8>>) -> Option<(Option<(usize, usize)>, usize)> {
    if ws.len() < 2 || ws[0] != word_position() {
        None
    } else {
        let mi = moves_index(ws, 2);
        let first_move = if mi < ws.len() {
            mi + 1
        } else {
            mi
        };
        if ws[1] == word_startpos() {
            Some((None, first_move as usize))
        } else if ws[1] == word_fen() {
            Some((Some((2usize, mi as usize)), first_move as usize))
        } else {
            None
        }
    }
}

fn bytes_equal(a: &[u8], b: &[u8]) -> (r: bool)
    ensures
        r == (a@ == b@),
{
    if a.len() != b.len() {
        return false;
    }
    let mut i: usize = 0;
    while i < a.len()
        invariant
            i <= a@.len(),
            a@.len() == b@.len(),
            forall|j: int| 0 <= j < i ==> a@[j] == b@[j],
        decreases a@.len() - i,
    {
        if a[i] != b[i] {
            return false;
        }
        i = i + 1;
    }
    assert(a@ =~= b@);
    true
}

/// Reads the words of a position command: where the descriptor's words are
/// (none for `startpos`) and where the moves begin; `None` for anything but
/// a position command.
pub fn position_parts(words: &Vec<&str>) -> (r: Option<(Option<(usize, usize)>, usize)>)
    ensures
        r == position_parts_spec(texts_of(words@)),
{
    let ghost ws = texts_of(words@);
    let position: [u8; 8] = [112, 111, 115, 105, 116, 105, 111, 110];
    let startpos: [u8; 8] = [115, 116, 97, 114, 116, 112, 111, 115];
    let fen: [u8; 3] = [102, 101, 110];
    let moves: [u8; 5] = [109, 111, 118, 101, 115];
    proof {
        assert(position@ =~= word_position());
        assert(startpos@ =~= word_startpos());
        assert(fen@ =~= word_fen());
        assert(moves@ =~= word_moves());
    }
    if words.len() < 2 {
        return None;
    }
    assert(ws[0] == words@[0].spec_bytes());
    if !bytes_equal(words[0].as_bytes(), position.as_slice()) {
        return None;
    }
    let mut mi: usize = 2;
    while mi < words.len()
        invariant
            2 <= mi <= words@.len(),
            ws == texts_of(words@),
            moves@ == word_moves(),
            moves_index(ws, 2) == moves_index(ws, mi as int),
        ensures
            2 <= mi <= words@.len(),
            moves_index(ws, 2) == mi as int,
        decreases words@.len() - mi,
    {
        assert(ws[mi as int] == words@[mi as int].spec_bytes());
        if bytes_equal(words[mi].as_bytes(), moves.as_slice()) {
            break;
        }
        mi = mi + 1;
    }
    let first_move = if mi < words.len() {
        mi + 1
    } else {
        mi
    };
    assert(ws[1] == words@[1].spec_bytes());
    if bytes_equal(words[1].as_bytes(), startpos.as_slice()) {
        Some((None, first_move))
    } else if bytes_equal(words[1].as_bytes(), fen.as_slice()) {
        Some((Some((2, mi)), first_move))
    } else {
        None
    }
}

/// The search engine: one position, mutated in place by the searches.
pub struct ChessEngine {
    board: Board,
    starting_pos_set: bool,
    color: Turn,
}

impl ChessEngine {
    /// The engine's board is well formed.
    pub closed spec fn wf(&self) -> bool {
        self.board.wf()
    }

    /// The position the engine holds.
    pub closed spec fn position(&self) -> Position {
        self.board@
    }

    /// An engine on an empty board with the start state.
    pub fn new() -> (r: Self)
        ensures
            r.wf(),
            r.position().bbs == Seq::new(12, |i: int| 0u64),
            r.position().state == initial_state(),
            r.position().history == seq![initial_state()],
    {
        ChessEngine { board: Board::new(None), starting_pos_set: false, color: Turn::White }
    }

    /// Resets the engine to the standard opening position.
    pub fn new_game(&mut self)
        ensures
            final(self).wf(),
            final(self).position().bbs == crate::board::start_bits(),
            final(self).position().state == crate::board::initial_state(),
            final(self).position().history == seq![crate::board::initial_state()],
    {
        self.board = standard_start();
        self.starting_pos_set = false;
    }

    /// The board the engine holds.
    pub fn board(&self) -> (r: &Board)
        ensures
            r@ == self.position(),
            r.wf() == self.wf(),
    {
        &self.board
    }

    /// Installs the root (the standard opening when `fen` is `None`) and
    /// applies the listed moves in order. On an error the engine is left as
    /// it was.
    pub fn set_position(&mut self, fen: Option<&str>, moves: &Vec<&str>) -> (r: Result<
        (),
        PositionError,
    >)
        requires
            old(self).wf(),
        ensures
            final(self).wf(),
            match root_of(
                match fen {
                    Some(f) => Some(f.spec_bytes()),
                    None => None,
                },
            ) {
                Err(e) => r == Err::<(), PositionError>(PositionError::Fen(e))
                    && final(self).position() == old(self).position(),
                Ok(p0) => match replay(p0, texts_of(moves@), 0) {
                    Ok(p) => r is Ok && final(self).position() == p,
                    Err(e) => r == Err::<(), PositionError>(PositionError::Move(e.0, e.1))
                        && final(self).position() == old(self).position(),
                },
            },
    {
        let mut board = match fen {
            None => standard_start(),
            Some(f) => match Board::from_fen(f) {
                Ok(b) => b,
                Err(e) => {
                    return Err(PositionError::Fen(e));
                },
            },
        };
        let ghost p0 = board@;
        let ghost texts = texts_of(moves@);
        let ghost fen_b = match fen {
            Some(f) => Some(f.spec_bytes()),
            None => None,
        };
        proof {
            assert(p0.history =~= seq![p0.state]);
        }
        let mut i: usize = 0;
        while i < moves.len()
            invariant
                board.wf(),
                self.wf(),
                self.position() == old(self).position(),
                fen_b == match fen {
                    Some(f) => Some(f.spec_bytes()),
                    None => None,
                },
                root_of(fen_b) == Ok::<Position, FenError>(p0),
                i <= moves@.len(),
                texts == texts_of(moves@),
                texts.len() == moves@.len(),
                replay(p0, texts, 0) == replay(board@, texts, i as int),
            decreases moves@.len() - i,
        {
            assert(texts[i as int] == moves@[i as int].spec_bytes());
            let text = moves[i].as_bytes();
            if text.len() >= 2 {
                match square_from_bytes(text, 0, 2) {
                    Some(f) => {
                        proof {
                            crate::utils::lemma_first_holder_range(board.bitboards@, f as int, 0);
                        }
                        if find_bitboard(&board, f).is_none() {
                            if text.len() < 4 || square_from_bytes(text, 2, 4).is_none() {
                                return Err(PositionError::Move(i, MoveError::BadSquare));
                            }
                            return Err(PositionError::Move(i, MoveError::NoPiece));
                        }
                    },
                    None => {},
                }
            }
            match algebraic_to_move(&board, moves[i]) {
                Ok(m) => {
                    make_move(&mut board, &m, true);
                },
                Err(e) => {
                    return Err(PositionError::Move(i, e));
                },
            }
            i = i + 1;
        }
        self.color = board.current_state.turn;
        self.board = board;
        self.starting_pos_set = true;
        Ok(())
    }

    /// Searches to depth five, plays the chosen move, and names it; `no
    /// legal moves` when there is none.
    pub fn find_best_move(&mut self, _command: &str) -> (r: String)
        requires
            old(self).wf(),
        ensures
            final(self).wf(),
            r@ == reply_of(ab_spec(old(self).position(), 5, i32::MIN + 1, i32::MAX as int).1),
            match ab_spec(old(self).position(), 5, i32::MIN + 1, i32::MAX as int).1 {
                Some(m) => final(self).position() == make_spec(old(self).position(), m, true),
                None => final(self).position() == old(self).position(),
            },
    {
        let ghost p = self.board@;
        let best_move = self.find_best_move_alpha_beta(5);
        match best_move {
            Some(m) => {
                proof {
                    lemma_best_move_ok(p, m);
                }
                make_move(&mut self.board, &m, true);
                m.alg_move()
            },
            None => {
                proof {
                    reveal_strlit("no legal moves");
                }
                literal_reply()
            },
        }
    }

    fn minimax(&mut self, depth: u32) -> (r: (i32, Option<Move>))
        requires
            old(self).wf(),
        ensures
            final(self).wf(),
            final(self).position() == old(self).position(),
            (r.0 as int, r.1) == mm_spec(old(self).position(), depth as nat),
        decreases depth,
    {
        if depth == 0 {
            return (relative_value_evaluation(&self.board), None);
        }
        let ghost p = self.board@;
        let mut max_value: i32 = i32::MIN + 1;
        let mut best_move: Option<Move> = None;
        let moves = generate_legal_moves(&mut self.board);
        proof {
            lemma_legal_sound(p.bbs, p.state);
        }
        if moves.len() == 0 {
            return (relative_value_evaluation(&self.board), None);
        }
        let mut i: usize = 0;
        while i < moves.len()
            invariant
                self.board@ == p,
                self.wf(),
                p.bbs.len() == 12,
                depth > 0,
                i <= moves@.len(),
                moves@ == legal_moves_spec(p.bbs, p.state),
                all_sound(p.bbs, p.state, moves@),
                score_ok(max_value as int),
                mm_spec(p, depth as nat) == mm_loop(
                    p,
                    moves@,
                    depth as nat,
                    i as int,
                    max_value as int,
                    best_move,
                ),
            decreases moves@.len() - i,
        {
            let m = moves[i];
            assert(sound_move(p.bbs, p.state, moves@[i as int]));
            make_move(&mut self.board, &m, true);
            let (child, _) = self.minimax(depth - 1);
            proof {
                lemma_mm_range(make_spec(p, m, true), (depth - 1) as nat);
            }
            let score = -child;
            unmake_move(&mut self.board, &m, true);
            proof {
                lemma_make_unmake(p, m, true);
            }
            if score > max_value {
                max_value = score;
                best_move = Some(m);
            }
            i = i + 1;
        }
        (max_value, best_move)
    }

    /// The move that plain negamax to `depth` picks, if any.
    pub fn find_best_move_minimax(&mut self, depth: u32) -> (r: Option<Move>)
        requires
            old(self).wf(),
        ensures
            final(self).wf(),
            final(self).position() == old(self).position(),
            r == mm_spec(old(self).position(), depth as nat).1,
    {
        let (_, best_move) = self.minimax(depth);
        best_move
    }

    /// Negamax with alpha-beta pruning: the score for the side to move and
    /// the principal move; the board is left as it was.
    pub fn alpha_beta(&mut self, depth: u32, alpha: i32, beta: i32) -> (r: (i32, Option<Move>))
        requires
            old(self).wf(),
            alpha > i32::MIN,
            beta > i32::MIN,
        ensures
            final(self).wf(),
            final(self).position() == old(self).position(),
            (r.0 as int, r.1) == ab_spec(old(self).position(), depth as nat, alpha as int, beta as int),
        decreases depth,
    {
        if depth == 0 {
            return (relative_value_evaluation(&self.board), None);
        }
        let ghost p = self.board@;
        let ghost alpha_init = alpha;
        let mut alpha = alpha;
        let mut best_move: Option<Move> = None;
        let moves = generate_legal_moves(&mut self.board);
        proof {
            lemma_legal_sound(p.bbs, p.state);
        }
        if moves.len() == 0 {
            return (relative_value_evaluation(&self.board), None);
        }
        let mut i: usize = 0;
        let mut cut = false;
        while i < moves.len() && !cut
            invariant
                self.board@ == p,
                self.wf(),
                p.bbs.len() == 12,
                depth > 0,
                i <= moves@.len(),
                moves@ == legal_moves_spec(p.bbs, p.state),
                all_sound(p.bbs, p.state, moves@),
                score_ok(alpha as int),
                score_ok(beta as int),
                cut ==> ab_spec(p, depth as nat, alpha_init as int, beta as int) == (
                    alpha as int,
                    best_move,
                ),
                !cut ==> ab_spec(p, depth as nat, alpha_init as int, beta as int) == ab_loop(
                    p,
                    moves@,
                    depth as nat,
                    i as int,
                    alpha as int,
                    beta as int,
                    best_move,
                ),
            decreases moves@.len() - i,
        {
            let m = moves[i];
            assert(sound_move(p.bbs, p.state, moves@[i as int]));
            make_move(&mut self.board, &m, true);
            let (child, _) = self.alpha_beta(depth - 1, -beta, -alpha);
            proof {
                lemma_ab_range(make_spec(p, m, true), (depth - 1) as nat, -beta as int, -alpha as int);
            }
            let score = -child;
            unmake_move(&mut self.board, &m, true);
            proof {
                lemma_make_unmake(p, m, true);
            }
            if score > alpha {
                alpha = score;
                best_move = Some(m);
            }
            if alpha >= beta {
                cut = true;
            }
            i = i + 1;
        }
        (alpha, best_move)
    }

    /// The principal move of an alpha-beta search to `depth` with the widest
    /// window.
    pub fn find_best_move_alpha_beta(&mut self, depth: u32) -> (r: Option<Move>)
        requires
            old(self).wf(),
        ensures
            final(self).wf(),
            final(self).position() == old(self).position(),
            r == ab_spec(old(self).position(), depth as nat, i32::MIN + 1, i32::MAX as int).1,
    {
        let (_, best_move) = self.alpha_beta(depth, i32::MIN + 1, i32::MAX);
        best_move
    }
}

} // verus!
