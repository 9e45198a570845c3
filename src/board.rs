use vstd::prelude::*;
use vstd::string::StringSliceAdditionalSpecFns;
use crate::utils::{sq_mask, square_of_algebraic, square_from_bytes};

verus! {

/// Side to move.
#[derive(PartialEq, Eq, Structural, Debug, Clone, Copy)]
pub enum Turn {
    White,
    Black,
}

pub open spec fn opposite(t: Turn) -> Turn {
    match t {
        Turn::White => Turn::Black,
        Turn::Black => Turn::White,
    }
}

/// Side to move, castling rights and en-passant target.
///
/// Castling rights, one bit each: 0b1000 White kingside, 0b0100 White
/// queenside, 0b0010 Black kingside, 0b0001 Black queenside.
#[derive(PartialEq, Eq, Structural, Debug, Clone, Copy)]
pub struct State {
    pub turn: Turn,
    pub castling_rights: u8,
    pub en_passant: Option<u8>,
}

/// The en-passant target, if any, lies on rank three or rank six.
pub open spec fn ep_ok(st: State) -> bool {
    match st.en_passant {
        Some(e) => (16 <= e < 24) || (40 <= e < 48),
        None => true,
    }
}

/// The state at the start of a game.
pub open spec fn initial_state() -> State {
    State { turn: Turn::White, castling_rights: 0b1111, en_passant: None }
}

/// Whether byte sequence `s` holds byte `c`.
pub open spec fn holds_byte(s: Seq<u8>, c: u8) -> bool {
    exists|i: int| 0 <= i < s.len() && s[i] == c
}

/// The side that a side field names: "w" or "b", in either case.
pub open spec fn side_of(s: Seq<u8>) -> Option<Turn> {
    if s =~= seq![119u8] || s =~= seq![87u8] {
        Some(Turn::White)
    } else if s =~= seq![98u8] || s =~= seq![66u8] {
        Some(Turn::Black)
    } else {
        None
    }
}

/// Castling rights from a field holding any of `K`, `Q`, `k`, `q`.
pub open spec fn rights_of(s: Seq<u8>) -> u8 {
    ((if holds_byte(s, 75u8) { 8u8 } else { 0u8 }) | (if holds_byte(s, 81u8) { 4u8 } else { 0u8 })
        | (if holds_byte(s, 107u8) { 2u8 } else { 0u8 }) | (if holds_byte(s, 113u8) { 1u8 } else {
        0u8
    })) as u8
}

/// The state that three descriptor fields give, when the side is valid.
pub open spec fn state_of(side: Seq<u8>, castling: Seq<u8>, ep: Seq<u8>) -> Option<State> {
    match side_of(side) {
        Some(t) => Some(
            State { turn: t, castling_rights: rights_of(castling), en_passant: square_of_algebraic(ep) },
        ),
        None => None,
    }
}

impl State {
    /// The state given by the side, castling and en-passant fields of a
    /// position descriptor, or the start state.
    pub fn new(state_fen: Option<(&str, &str, &str)>) -> (r: State)
        requires
            state_fen matches Some(f) ==> side_of(f.0.spec_bytes()) is Some,
        ensures
            state_fen is None ==> r == initial_state(),
            state_fen matches Some(f) ==> Some(r) == state_of(
                f.0.spec_bytes(),
                f.1.spec_bytes(),
                f.2.spec_bytes(),
            ),
    {
        match state_fen {
            None => State { turn: Turn::White, castling_rights: 0b1111, en_passant: None },
            Some(f) => {
                let side = f.0.as_bytes();
                let castling = f.1.as_bytes();
                let ep = f.2.as_bytes();
                let turn = parse_side(side, 0, side.len()).unwrap();
                let rights = parse_rights(castling, 0, castling.len());
                proof {
                    assert(side@.subrange(0, side@.len() as int) =~= side@);
                    assert(castling@.subrange(0, castling@.len() as int) =~= castling@);
                    assert(ep@.subrange(0, ep@.len() as int) =~= ep@);
                }
                let en_passant = square_from_bytes(ep, 0, ep.len());
                State { turn, castling_rights: rights, en_passant }
            },
        }
    }

    /// Whether the side to move still has its kingside castling right.
    pub fn can_castle_kingside(&self) -> (r: bool)
        ensures
            r == (self.castling_rights & kingside_bit(self.turn) != 0),
    {
        match self.turn {
            Turn::White => (self.castling_rights & 0b1000) != 0,
            Turn::Black => (self.castling_rights & 0b0010) != 0,
        }
    }

    /// Whether the side to move still has its queenside castling right.
    pub fn can_castle_queenside(&self) -> (r: bool)
        ensures
            r == (self.castling_rights & queenside_bit(self.turn) != 0),
    {
        match self.turn {
            Turn::White => (self.castling_rights & 0b0100) != 0,
            Turn::Black => (self.castling_rights & 0b0001) != 0,
        }
    }
}

pub open spec fn kingside_bit(t: Turn) -> u8 {
    match t {
        Turn::White => 0b1000u8,
        Turn::Black => 0b0010u8,
    }
}

pub open spec fn queenside_bit(t: Turn) -> u8 {
    match t {
        Turn::White => 0b0100u8,
        Turn::Black => 0b0001u8,
    }
}

fn parse_side(s: &[u8], start: usize, end: usize) -> (r: Option<Turn>)
    requires
        start <= end <= s@.len(),
    ensures
        r == side_of(s@.subrange(start as int, end as int)),
{
    let ghost f = s@.subrange(start as int, end as int);
    if end - start != 1 {
        proof {
            assert(f.len() != 1);
            assert(!(f =~= seq![119u8]) && !(f =~= seq![87u8]) && !(f =~= seq![98u8]) && !(f
                =~= seq![66u8]));
        }
        return None;
    }
    let c = s[start];
    proof {
        assert(f[0] == c);
    }
    if c == 119u8 || c == 87u8 {
        proof {
            if c == 119u8 {
                assert(f =~= seq![119u8]);
            } else {
                assert(f =~= seq![87u8]);
            }
        }
        Some(Turn::White)
    } else if c == 98u8 || c == 66u8 {
        proof {
            assert(!(f =~= seq![119u8]) && !(f =~= seq![87u8]));
            if c == 98u8 {
                assert(f =~= seq![98u8]);
            } else {
                assert(f =~= seq![66u8]);
            }
        }
        Some(Turn::Black)
    } else {
        proof {
            assert(!(f =~= seq![119u8]) && !(f =~= seq![87u8]) && !(f =~= seq![98u8]) && !(f
                =~= seq![66u8]));
        }
        None
    }
}

fn holds(s: &[u8], start: usize, end: usize, c: u8) -> (r: bool)
    requires
        start <= end <= s@.len(),
    ensures
        r == holds_byte(s@.subrange(start as int, end as int), c),
{
    let ghost f = s@.subrange(start as int, end as int);
    let mut i: usize = start;
    while i < end
        invariant
            start <= i <= end <= s@.len(),
            f == s@.subrange(start as int, end as int),
            forall|j: int| 0 <= j < i - start ==> f[j] != c,
        decreases end - i,
    {
        if s[i] == c {
            proof {
                assert(f[i - start] == c);
            }
            return true;
        }
        i = i + 1;
    }
    false
}

fn parse_rights(s: &[u8], start: usize, end: usize) -> (r: u8)
    requires
        start <= end <= s@.len(),
    ensures
        r == rights_of(s@.subrange(start as int, end as int)),
{
    let k: u8 = if holds(s, start, end, 75u8) { 0b1000 } else { 0 };
    let q: u8 = if holds(s, start, end, 81u8) { 0b0100 } else { 0 };
    let bk: u8 = if holds(s, start, end, 107u8) { 0b0010 } else { 0 };
    let bq: u8 = if holds(s, start, end, 113u8) { 0b0001 } else { 0 };
    k | q | bk | bq
}

/// The bitboard slot of a piece letter: `PRKNQB` for White 0 to 5, lower case
/// for Black 6 to 11.
pub open spec fn slot_of(c: u8) -> Option<int> {
    if c == 80u8 {
        Some(0)
    } else if c == 82u8 {
        Some(1)
    } else if c == 75u8 {
        Some(2)
    } else if c == 78u8 {
        Some(3)
    } else if c == 81u8 {
        Some(4)
    } else if c == 66u8 {
        Some(5)
    } else if c == 112u8 {
        Some(6)
    } else if c == 114u8 {
        Some(7)
    } else if c == 107u8 {
        Some(8)
    } else if c == 110u8 {
        Some(9)
    } else if c == 113u8 {
        Some(10)
    } else if c == 98u8 {
        Some(11)
    } else {
        None
    }
}

/// Why a position descriptor was refused.
#[derive(PartialEq, Eq, Structural, Debug, Clone, Copy)]
pub enum FenError {
    /// Fewer than four space-separated fields.
    MissingField,
    /// The side field is neither `w` nor `b`.
    Side,
    /// A rank holds more than eight squares, or the board more than sixty-four.
    OverlongRank,
    /// A character of the piece layout is neither a piece letter, a digit
    /// from 1 to 8, nor `/`.
    UnknownPiece,
    /// The en-passant field names a square off ranks three and six.
    EnPassant,
}

/// Places the pieces of a layout field, from `s[i]` on, onto `bbs`; `sq` is
/// the next square, `file` the number of squares already filled in this rank.
pub open spec fn place(s: Seq<u8>, i: int, sq: int, file: int, bbs: Seq<u64>) -> Result<
    Seq<u64>,
    FenError,
>
    decreases s.len() - i,
{
    if i < 0 || i >= s.len() {
        Ok(bbs)
    } else {
        let c = s[i];
        if c == 47u8 {
            place(s, i + 1, sq, 0, bbs)
        } else if 49u8 <= c <= 56u8 {
            let d = c - 48;
            if file + d > 8 || sq + d > 64 {
                Err(FenError::OverlongRank)
            } else {
                place(s, i + 1, sq + d, file + d, bbs)
            }
        } else {
            match slot_of(c) {
                Some(k) => if file + 1 > 8 || sq + 1 > 64 {
                    Err(FenError::OverlongRank)
                } else {
                    place(s, i + 1, sq + 1, file + 1, bbs.update(k, bbs[k] | sq_mask(sq)))
                },
                None => Err(FenError::UnknownPiece),
            }
        }
    }
}

/// Index of the first space in `s` at or after `i`, or the length of `s`.
pub open spec fn next_space(s: Seq<u8>, i: int) -> int
    decreases s.len() - i,
{
    if i < 0 || i >= s.len() {
        s.len() as int
    } else if s[i] == 32u8 {
        i
    } else {
        next_space(s, i + 1)
    }
}

/// A position descriptor read into twelve bitboards and a state.
pub open spec fn fen_spec(s: Seq<u8>) -> Result<(Seq<u64>, State), FenError> {
    let e0 = next_space(s, 0);
    let e1 = next_space(s, e0 + 1);
    let e2 = next_space(s, e1 + 1);
    let e3 = next_space(s, e2 + 1);
    if e0 >= s.len() || e1 >= s.len() || e2 >= s.len() {
        Err(FenError::MissingField)
    } else {
        match place(s.subrange(0, e0), 0, 0, 0, Seq::new(12, |i: int| 0u64)) {
            Err(e) => Err(e),
            Ok(bbs) => match state_of(
                s.subrange(e0 + 1, e1),
                s.subrange(e1 + 1, e2),
                s.subrange(e2 + 1, e3),
            ) {
                None => Err(FenError::Side),
                Some(st) => if ep_ok(st) {
                    Ok((bbs, st))
                } else {
                    Err(FenError::EnPassant)
                },
            },
        }
    }
}

/// The twelve bitboards of the standard opening position.
pub open spec fn start_bits() -> Seq<u64> {
    seq![
        0x00FF000000000000u64,
        0x8100000000000000u64,
        0x1000000000000000u64,
        0x4200000000000000u64,
        0x0800000000000000u64,
        0x2400000000000000u64,
        0xFF00u64,
        0x81u64,
        0x10u64,
        0x42u64,
        0x08u64,
        0x24u64,
    ]
}

/// Creates a standard starting board.
pub fn standard_start() -> (r: Board)
    ensures
        r.wf(),
        r.bitboards@ == start_bits(),
        r.current_state == initial_state(),
        r.state_history@ == seq![initial_state()],
{
    let st = State { turn: Turn::White, castling_rights: 0b1111, en_passant: None };
    let b = Board {
        bitboards: Box::new(
            [
                0x00FF000000000000u64,
                0x8100000000000000u64,
                0x1000000000000000u64,
                0x4200000000000000u64,
                0x0800000000000000u64,
                0x2400000000000000u64,
                0xFF00u64,
                0x81u64,
                0x10u64,
                0x42u64,
                0x08u64,
                0x24u64,
            ],
        ),
        state_history: vec![st],
        current_state: st,
    };
    proof {
        assert(b.bitboards@ =~= start_bits());
        assert(b.state_history@ =~= seq![initial_state()]);
    }
    b
}

/// Twelve piece bitboards (White pawn, rook, king, knight, queen, bishop at
/// 0 to 5, Black's at 6 to 11), the current state, and the states that
/// committed moves replaced, oldest first.
pub struct Board {
    pub bitboards: Box<[u64; 12]>,
    pub state_history: Vec<State>,
    pub current_state: State,
}

/// What a board holds: the twelve bitboards, the current state and the
/// stored states.
pub struct Position {
    pub bbs: Seq<u64>,
    pub state: State,
    pub history: Seq<State>,
}

impl View for Board {
    type V = Position;

    open spec fn view(&self) -> Position {
        Position { bbs: self.bitboards@, state: self.current_state, history: self.state_history@ }
    }
}

pub open spec fn white_bits(bbs: Seq<u64>) -> u64 {
    bbs[0] | bbs[1] | bbs[2] | bbs[3] | bbs[4] | bbs[5]
}

pub open spec fn black_bits(bbs: Seq<u64>) -> u64 {
    bbs[6] | bbs[7] | bbs[8] | bbs[9] | bbs[10] | bbs[11]
}

pub open spec fn occupied_bits(bbs: Seq<u64>) -> u64 {
    black_bits(bbs) | white_bits(bbs)
}

impl Board {
    /// The en-passant target of the current state and of every stored state
    /// lies on rank three or six.
    pub open spec fn wf(&self) -> bool {
        &&& ep_ok(self.current_state)
        &&& forall|k: int| 0 <= k < self.state_history@.len() ==> ep_ok(
            #[trigger] self.state_history@[k],
        )
    }

    /// An empty board with the start state, or the position a descriptor gives.
    pub fn new(fen_string: Option<&str>) -> (r: Self)
        requires
            fen_string matches Some(f) ==> fen_spec(f.spec_bytes()) is Ok,
        ensures
            r.wf(),
            fen_string is None ==> r.bitboards@ == Seq::new(12, |i: int| 0u64)
                && r.current_state == initial_state() && r.state_history@ == seq![initial_state()],
            fen_string matches Some(f) ==> (fen_spec(f.spec_bytes()) matches Ok(p)
                && r.bitboards@ == p.0 && r.current_state == p.1 && r.state_history@ == seq![p.1]),
    {
        match fen_string {
            Some(f) => match Board::from_fen(f) {
                Ok(b) => b,
                Err(_) => empty_board(),
            },
            None => empty_board(),
        }
    }

    /// Reads a position descriptor: layout, side, castling, en passant; any
    /// further fields are ignored.
    pub fn from_fen(fen: &str) -> (r: Result<Board, FenError>)
        ensures
            match fen_spec(fen.spec_bytes()) {
                Ok(p) => r matches Ok(b) && b.bitboards@ == p.0 && b.current_state == p.1
                    && b.state_history@ == seq![p.1] && b.wf(),
                Err(e) => r == Err::<Board, FenError>(e),
            },
    {
        let s = fen.as_bytes();
        let e0 = find_space(s, 0);
        if e0 >= s.len() {
            return Err(FenError::MissingField);
        }
        let e1 = find_space(s, e0 + 1);
        if e1 >= s.len() {
            return Err(FenError::MissingField);
        }
        let e2 = find_space(s, e1 + 1);
        if e2 >= s.len() {
            return Err(FenError::MissingField);
        }
        let e3 = find_space(s, e2 + 1);
        let mut board = Board {
            bitboards: Box::new([0u64; 12]),
            state_history: Vec::new(),
            current_state: State { turn: Turn::White, castling_rights: 0b1111, en_passant: None },
        };
        proof {
            assert(board.bitboards@ =~= Seq::new(12, |i: int| 0u64));
        }
        match place_pieces(s, e0, &mut board.bitboards) {
            Err(e) => {
                return Err(e);
            },
            Ok(()) => {},
        }
        let side = parse_side(s, e0 + 1, e1);
        let turn = match side {
            None => {
                return Err(FenError::Side);
            },
            Some(t) => t,
        };
        let rights = parse_rights(s, e1 + 1, e2);
        let en_passant = square_from_bytes(s, e2 + 1, e3);
        let st = State { turn, castling_rights: rights, en_passant };
        match en_passant {
            Some(e) => {
                if !((16 <= e && e < 24) || (40 <= e && e < 48)) {
                    return Err(FenError::EnPassant);
                }
            },
            None => {},
        }
        board.current_state = st;
        board.state_history = vec![st];
        proof {
            assert(board.state_history@ =~= seq![st]);
        }
        Ok(board)
    }

    /// Places the pieces of a layout field onto the bitboards.
    pub fn parse_fen(&mut self, fenstring: &str) -> (r: Result<(), FenError>)
        ensures
            final(self).state_history == old(self).state_history,
            final(self).current_state == old(self).current_state,
            match place(fenstring.spec_bytes(), 0, 0, 0, old(self).bitboards@) {
                Ok(bbs) => r is Ok && final(self).bitboards@ == bbs,
                Err(e) => r == Err::<(), FenError>(e) && final(self).bitboards@ == old(
                    self,
                ).bitboards@,
            },
    {
        let s = fenstring.as_bytes();
        proof {
            assert(s@.subrange(0, s@.len() as int) =~= s@);
        }
        place_pieces(s, s.len(), &mut self.bitboards)
    }

    /// All White pieces.
    pub fn all_white(&self) -> (r: u64)
        ensures
            r == white_bits(self.bitboards@),
    {
        let b = &self.bitboards;
        b[0] | b[1] | b[2] | b[3] | b[4] | b[5]
    }

    /// All Black pieces.
    pub fn all_black(&self) -> (r: u64)
        ensures
            r == black_bits(self.bitboards@),
    {
        let b = &self.bitboards;
        b[6] | b[7] | b[8] | b[9] | b[10] | b[11]
    }

    /// All occupied squares.
    pub fn occupied(&self) -> (r: u64)
        ensures
            r == occupied_bits(self.bitboards@),
    {
        self.all_black() | self.all_white()
    }
}

fn empty_board() -> (r: Board)
    ensures
        r.wf(),
        r.bitboards@ == Seq::new(12, |i: int| 0u64),
        r.current_state == initial_state(),
        r.state_history@ == seq![initial_state()],
{
    let start = State { turn: Turn::White, castling_rights: 0b1111, en_passant: None };
    let b = Board {
        bitboards: Box::new([0u64; 12]),
        state_history: vec![start],
        current_state: start,
    };
    proof {
        assert(b.bitboards@ =~= Seq::new(12, |i: int| 0u64));
        assert(b.state_history@ =~= seq![initial_state()]);
    }
    b
}

fn find_space(s: &[u8], start: usize) -> (r: usize)
    requires
        start <= s@.len(),
    ensures
        r == next_space(s@, start as int),
        start <= r <= s@.len(),
{
    let mut i: usize = start;
    while i < s.len()
        invariant
            start <= i <= s@.len(),
            next_space(s@, start as int) == next_space(s@, i as int),
        decreases s@.len() - i,
    {
        if s[i] == 32u8 {
            return i;
        }
        i = i + 1;
    }
    i
}

fn slot(c: u8) -> (r: Option<usize>)
    ensures
        r matches Some(k) ==> slot_of(c) == Some(k as int) && k < 12,
        r is None ==> slot_of(c) is None,
{
    if c == 80u8 {
        Some(0)
    } else if c == 82u8 {
        Some(1)
    } else if c == 75u8 {
        Some(2)
    } else if c == 78u8 {
        Some(3)
    } else if c == 81u8 {
        Some(4)
    } else if c == 66u8 {
        Some(5)
    } else if c == 112u8 {
        Some(6)
    } else if c == 114u8 {
        Some(7)
    } else if c == 107u8 {
        Some(8)
    } else if c == 110u8 {
        Some(9)
    } else if c == 113u8 {
        Some(10)
    } else if c == 98u8 {
        Some(11)
    } else {
        None
    }
}

/// Places the layout held in `s[..end]` onto `bbs`, which is left as it was
/// when the layout is refused.
fn place_pieces(s: &[u8], end: usize, bbs: &mut Box<[u64; 12]>) -> (r: Result<(), FenError>)
    requires
        end <= s@.len(),
    ensures
        match place(s@.subrange(0, end as int), 0, 0, 0, old(bbs)@) {
            Ok(b) => r is Ok && final(bbs)@ == b,
            Err(e) => r == Err::<(), FenError>(e) && final(bbs)@ == old(bbs)@,
        },
{
    let ghost f = s@.subrange(0, end as int);
    let mut work: [u64; 12] = **bbs;
    let mut i: usize = 0;
    let mut sq: usize = 0;
    let mut file: usize = 0;
    while i < end
        invariant
            i <= end <= s@.len(),
            f == s@.subrange(0, end as int),
            sq <= 64,
            file <= 8,
            place(f, 0, 0, 0, bbs@) == place(f, i as int, sq as int, file as int, work@),
        decreases end - i,
    {
        let c = s[i];
        assert(f[i as int] == c);
        if c == 47u8 {
            file = 0;
        } else if 49u8 <= c && c <= 56u8 {
            let d = (c - 48) as usize;
            if file + d > 8 || sq + d > 64 {
                return Err(FenError::OverlongRank);
            }
            sq = sq + d;
            file = file + d;
        } else {
            match slot(c) {
                Some(k) => {
                    if file + 1 > 8 || sq + 1 > 64 {
                        return Err(FenError::OverlongRank);
                    }
                    let m = 1u64 << (sq as u64);
                    work[k] = work[k] | m;
                    sq = sq + 1;
                    file = file + 1;
                },
                None => {
                    return Err(FenError::UnknownPiece);
                },
            }
        }
        i = i + 1;
    }
    **bbs = work;
    Ok(())
}

} // verus!
