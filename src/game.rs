use vstd::prelude::*;

verus! {

/// A cell of the 3x3 grid.
#[derive(Clone, Copy, Debug, PartialEq, Eq, Hash, Structural)]
pub enum Square {
    TopLeft,
    TopMiddle,
    TopRight,
    MiddleLeft,
    MiddleMiddle,
    MiddleRight,
    BottomLeft,
    BottomMiddle,
    BottomRight,
}

/// One of the two players.
#[derive(Clone, Copy, Debug, PartialEq, Eq, Structural)]
pub enum Side {
    X,
    O,
}

/// How a finished game ended.
#[derive(Clone, Copy, Debug, PartialEq, Eq, Structural)]
pub enum Outcome {
    Draw,
    XWin,
    OWin,
}

/// Why a mark could not be placed.
#[derive(Clone, Copy, Debug, PartialEq, Eq, Structural)]
pub enum GameError {
    GameIsOver(Outcome),
    SquareIsNotEmpty(Square),
}

/// A single bit of the bitboard: one square marked by one side.
#[derive(Clone, Copy, Debug, PartialEq, Eq, Structural)]
pub enum BitboardSquare {
    TopLeftX,
    TopMiddleX,
    TopRightX,
    MiddleLeftX,
    MiddleMiddleX,
    MiddleRightX,
    BottomLeftX,
    BottomMiddleX,
    BottomRightX,
    TopLeftO,
    TopMiddleO,
    TopRightO,
    MiddleLeftO,
    MiddleMiddleO,
    MiddleRightO,
    BottomLeftO,
    BottomMiddleO,
    BottomRightO,
}

/// Bits 0..9 hold the X marks (row by row from the top left), bits 9..18 the O marks.
pub type Bitboard = u32;

/// Whether bit `i` of `bb` is set.
pub open spec fn marked(bb: u32, i: u32) -> bool {
    bb & (1u32 << i) != 0
}

/// What occupies cell `i` of the grid encoded by `bb`.
pub open spec fn mark_at(bb: u32, i: int) -> Option<Side> {
    if marked(bb, i as u32) {
        Some(Side::X)
    } else if marked(bb, (i + 9) as u32) {
        Some(Side::O)
    } else {
        None
    }
}

/// No cell carries both marks.
pub open spec fn disjoint_marks(bb: u32) -> bool {
    forall|i: u32| i < 9 ==> !(#[trigger] marked(bb, i) && marked(bb, (i + 9) as u32))
}

/// `s` holds cells `i`, `j` and `k`.
pub open spec fn owns(b: Seq<Option<Side>>, s: Side, i: int, j: int, k: int) -> bool {
    b[i] == Some(s) && b[j] == Some(s) && b[k] == Some(s)
}

/// Bits `o + i`, `o + j` and `o + k` are all set.
pub open spec fn bits_own(bb: u32, o: u32, i: u32, j: u32, k: u32) -> bool {
    marked(bb, (o + i) as u32) && marked(bb, (o + j) as u32) && marked(bb, (o + k) as u32)
}

/// The marks at bit offset `o` complete a line.
pub open spec fn bits_line(bb: u32, o: u32) -> bool {
    bits_own(bb, o, 0, 1, 2) || bits_own(bb, o, 3, 4, 5) || bits_own(bb, o, 6, 7, 8) || bits_own(bb, o, 0, 3, 6)
        || bits_own(bb, o, 1, 4, 7) || bits_own(bb, o, 2, 5, 8) || bits_own(bb, o, 0, 4, 8) || bits_own(bb, o, 2, 4, 6)
}

/// `s` holds a complete row, column or diagonal.
pub open spec fn has_line(b: Seq<Option<Side>>, s: Side) -> bool {
    owns(b, s, 0, 1, 2) || owns(b, s, 3, 4, 5) || owns(b, s, 6, 7, 8) || owns(b, s, 0, 3, 6)
        || owns(b, s, 1, 4, 7) || owns(b, s, 2, 5, 8) || owns(b, s, 0, 4, 8) || owns(b, s, 2, 4, 6)
}

/// Every cell is occupied.
pub open spec fn is_full(b: Seq<Option<Side>>) -> bool {
    forall|i: int| 0 <= i < 9 ==> (#[trigger] b[i]).is_some()
}

/// The outcome that a grid shows: a line wins, else a full grid is a draw.
pub open spec fn outcome_of(b: Seq<Option<Side>>) -> Option<Outcome> {
    if has_line(b, Side::X) {
        Some(Outcome::XWin)
    } else if has_line(b, Side::O) {
        Some(Outcome::OWin)
    } else if is_full(b) {
        Some(Outcome::Draw)
    } else {
        None
    }
}

/// Number of cells of `b` that hold `m`.
pub open spec fn count_of(b: Seq<Option<Side>>, m: Option<Side>) -> nat
    decreases b.len(),
{
    if b.len() == 0 {
        0
    } else {
        count_of(b.drop_last(), m) + if b.last() == m {
            1nat
        } else {
            0nat
        }
    }
}

/// Number of empty cells.
pub open spec fn empty_count(b: Seq<Option<Side>>) -> nat {
    count_of(b, None)
}

/// The order in which empty squares are listed: center, corners, edges.
pub open spec fn search_order() -> Seq<Square> {
    seq![
        Square::MiddleMiddle,
        Square::TopLeft,
        Square::TopRight,
        Square::BottomLeft,
        Square::BottomRight,
        Square::TopMiddle,
        Square::MiddleLeft,
        Square::MiddleRight,
        Square::BottomMiddle,
    ]
}

/// The squares of `order` that are empty in `b`, in that order.
pub open spec fn empties_in(b: Seq<Option<Side>>, order: Seq<Square>) -> Seq<Square>
    decreases order.len(),
{
    if order.len() == 0 {
        seq![]
    } else {
        let rest = empties_in(b, order.drop_last());
        if b[order.last().index()] is None {
            rest.push(order.last())
        } else {
            rest
        }
    }
}

/// The legal moves of a grid, in search order.
pub open spec fn legal_moves(b: Seq<Option<Side>>) -> Seq<Square> {
    empties_in(b, search_order())
}

/// The abstract state of a game.
pub struct GameView {
    pub board: Seq<Option<Side>>,
    pub side: Side,
    pub outcome: Option<Outcome>,
}

/// A position reachable by alternating play from the empty grid: X moved as often as O or
/// once more, the side to move follows from that, and the outcome is the one the grid shows.
pub open spec fn valid(v: GameView) -> bool {
    &&& v.board.len() == 9
    &&& (count_of(v.board, Some(Side::X)) == count_of(v.board, Some(Side::O)) || count_of(
        v.board,
        Some(Side::X),
    ) == count_of(v.board, Some(Side::O)) + 1)
    &&& v.side == if count_of(v.board, Some(Side::X)) == count_of(v.board, Some(Side::O)) {
        Side::X
    } else {
        Side::O
    }
    &&& v.outcome == outcome_of(v.board)
}

/// The empty grid with X to move.
pub open spec fn initial() -> GameView {
    GameView { board: Seq::new(9, |i: int| None), side: Side::X, outcome: None }
}

/// The position after the side to move marks `sq`.
pub open spec fn play(v: GameView, sq: Square) -> GameView {
    let board = v.board.update(sq.index(), Some(v.side));
    GameView { board, side: v.side.opponent(), outcome: outcome_of(board) }
}

/// Placing a mark on `sq` is allowed in `v`.
pub open spec fn is_legal(v: GameView, sq: Square) -> bool {
    v.outcome is None && v.board[sq.index()] is None
}

impl Side {
    pub open spec fn opponent(self) -> Side {
        match self {
            Side::X => Side::O,
            Side::O => Side::X,
        }
    }

    pub fn switch(&mut self)
        ensures
            *final(self) == old(self).opponent(),
    {
        *self = match self {
            Side::X => Side::O,
            Side::O => Side::X,
        };
    }
}

impl Square {
    pub const COUNT: u8 = 9;

    /// Cell index, row by row from the top left.
    pub open spec fn index(self) -> int {
        match self {
            Square::TopLeft => 0,
            Square::TopMiddle => 1,
            Square::TopRight => 2,
            Square::MiddleLeft => 3,
            Square::MiddleMiddle => 4,
            Square::MiddleRight => 5,
            Square::BottomLeft => 6,
            Square::BottomMiddle => 7,
            Square::BottomRight => 8,
        }
    }

    pub fn get_bitboard_square(&self, side: &Side) -> (r: BitboardSquare)
        ensures
            r.bit() == self.index() + if *side == Side::X {
                0int
            } else {
                9int
            },
    {
        match side {
            Side::X => match self {
                Square::TopLeft => BitboardSquare::TopLeftX,
                Square::TopMiddle => BitboardSquare::TopMiddleX,
                Square::TopRight => BitboardSquare::TopRightX,
                Square::MiddleLeft => BitboardSquare::MiddleLeftX,
                Square::MiddleMiddle => BitboardSquare::MiddleMiddleX,
                Square::MiddleRight => BitboardSquare::MiddleRightX,
                Square::BottomLeft => BitboardSquare::BottomLeftX,
                Square::BottomMiddle => BitboardSquare::BottomMiddleX,
                Square::BottomRight => BitboardSquare::BottomRightX,
            },
            Side::O => match self {
                Square::TopLeft => BitboardSquare::TopLeftO,
                Square::TopMiddle => BitboardSquare::TopMiddleO,
                Square::TopRight => BitboardSquare::TopRightO,
                Square::MiddleLeft => BitboardSquare::MiddleLeftO,
                Square::MiddleMiddle => BitboardSquare::MiddleMiddleO,
                Square::MiddleRight => BitboardSquare::MiddleRightO,
                Square::BottomLeft => BitboardSquare::BottomLeftO,
                Square::BottomMiddle => BitboardSquare::BottomMiddleO,
                Square::BottomRight => BitboardSquare::BottomRightO,
            },
        }
    }

    fn cell(&self) -> (r: u32)
        ensures
            r as int == self.index(),
    {
        match self {
            Square::TopLeft => 0,
            Square::TopMiddle => 1,
            Square::TopRight => 2,
            Square::MiddleLeft => 3,
            Square::MiddleMiddle => 4,
            Square::MiddleRight => 5,
            Square::BottomLeft => 6,
            Square::BottomMiddle => 7,
            Square::BottomRight => 8,
        }
    }

    /// Both bits of this square: its X bit and its O bit.
    pub fn get_bitboard(&self) -> (r: Bitboard)
        ensures
            r == (1u32 << (self.index() as u32)) | (1u32 << ((self.index() + 9) as u32)),
    {
        let i = self.cell();
        (1u32 << i) | (1u32 << (i + 9))
    }
}

impl BitboardSquare {
    /// Bit index of this mark in the bitboard.
    pub open spec fn bit(self) -> int {
        match self {
            BitboardSquare::TopLeftX => 0,
            BitboardSquare::TopMiddleX => 1,
            BitboardSquare::TopRightX => 2,
            BitboardSquare::MiddleLeftX => 3,
            BitboardSquare::MiddleMiddleX => 4,
            BitboardSquare::MiddleRightX => 5,
            BitboardSquare::BottomLeftX => 6,
            BitboardSquare::BottomMiddleX => 7,
            BitboardSquare::BottomRightX => 8,
            BitboardSquare::TopLeftO => 9,
            BitboardSquare::TopMiddleO => 10,
            BitboardSquare::TopRightO => 11,
            BitboardSquare::MiddleLeftO => 12,
            BitboardSquare::MiddleMiddleO => 13,
            BitboardSquare::MiddleRightO => 14,
            BitboardSquare::BottomLeftO => 15,
            BitboardSquare::BottomMiddleO => 16,
            BitboardSquare::BottomRightO => 17,
        }
    }

    pub fn get_bitboard(&self) -> (r: Bitboard)
        ensures
            r == 1u32 << (self.bit() as u32),
    {
        let shift: u32 = match self {
            BitboardSquare::TopLeftX => 0,
            BitboardSquare::TopMiddleX => 1,
            BitboardSquare::TopRightX => 2,
            BitboardSquare::MiddleLeftX => 3,
            BitboardSquare::MiddleMiddleX => 4,
            BitboardSquare::MiddleRightX => 5,
            BitboardSquare::BottomLeftX => 6,
            BitboardSquare::BottomMiddleX => 7,
            BitboardSquare::BottomRightX => 8,
            BitboardSquare::TopLeftO => 9,
            BitboardSquare::TopMiddleO => 10,
            BitboardSquare::TopRightO => 11,
            BitboardSquare::MiddleLeftO => 12,
            BitboardSquare::MiddleMiddleO => 13,
            BitboardSquare::MiddleRightO => 14,
            BitboardSquare::BottomLeftO => 15,
            BitboardSquare::BottomMiddleO => 16,
            BitboardSquare::BottomRightO => 17,
        };
        1u32 << shift
    }
}

proof fn lemma_set_bit(bb: u32, k: u32, i: u32)
    requires
        k < 32,
        i < 32,
    ensures
        marked(bb | (1u32 << k), i) == (i == k || marked(bb, i)),
{
    assert((bb | (1u32 << k)) & (1u32 << i) != 0 <==> (i == k || bb & (1u32 << i) != 0))
        by (bit_vector)
        requires
            k < 32,
            i < 32,
    ;
}

proof fn lemma_square_bits(bb: u32, k: u32)
    requires
        k < 9,
    ensures
        (bb & ((1u32 << k) | (1u32 << (k + 9) as u32)) == 0) == (!marked(bb, k) && !marked(
            bb,
            (k + 9) as u32,
        )),
{
    let j = (k + 9) as u32;
    assert((bb & ((1u32 << k) | (1u32 << j)) == 0) == (bb & (1u32 << k) == 0 && bb & (1u32 << j)
        == 0)) by (bit_vector)
        requires
            k < 9,
            j < 18,
    ;
}

proof fn lemma_line_bits(bb: u32, a: u32, b: u32, c: u32)
    requires
        a < 32,
        b < 32,
        c < 32,
    ensures
        (bb & ((1u32 << a) | (1u32 << b) | (1u32 << c)) == (1u32 << a) | (1u32 << b) | (1u32
            << c)) == (marked(bb, a) && marked(bb, b) && marked(bb, c)),
{
    assert((bb & ((1u32 << a) | (1u32 << b) | (1u32 << c)) == (1u32 << a) | (1u32 << b) | (1u32
        << c)) == (bb & (1u32 << a) != 0 && bb & (1u32 << b) != 0 && bb & (1u32 << c) != 0))
        by (bit_vector)
        requires
            a < 32,
            b < 32,
            c < 32,
    ;
}

proof fn lemma_full_bits(bb: u32)
    ensures
        ((bb | (bb >> 9u32)) & 0x1ffu32 == 0x1ffu32) == (forall|i: u32|
            i < 9 ==> #[trigger] marked(bb, i) || marked(bb, (i + 9) as u32)),
{
    assert(((bb | (bb >> 9u32)) & 0x1ffu32 == 0x1ffu32) == ((bb & (1u32 << 0u32) != 0 || bb & (1u32
        << 9u32) != 0) && (bb & (1u32 << 1u32) != 0 || bb & (1u32 << 10u32) != 0) && (bb & (1u32
        << 2u32) != 0 || bb & (1u32 << 11u32) != 0) && (bb & (1u32 << 3u32) != 0 || bb & (1u32
        << 12u32) != 0) && (bb & (1u32 << 4u32) != 0 || bb & (1u32 << 13u32) != 0) && (bb & (1u32
        << 5u32) != 0 || bb & (1u32 << 14u32) != 0) && (bb & (1u32 << 6u32) != 0 || bb & (1u32
        << 15u32) != 0) && (bb & (1u32 << 7u32) != 0 || bb & (1u32 << 16u32) != 0) && (bb & (1u32
        << 8u32) != 0 || bb & (1u32 << 17u32) != 0))) by (bit_vector);
    if forall|i: u32| i < 9 ==> #[trigger] marked(bb, i) || marked(bb, (i + 9) as u32) {
        assert(marked(bb, 0) || marked(bb, 9));
        assert(marked(bb, 1) || marked(bb, 10));
        assert(marked(bb, 2) || marked(bb, 11));
        assert(marked(bb, 3) || marked(bb, 12));
        assert(marked(bb, 4) || marked(bb, 13));
        assert(marked(bb, 5) || marked(bb, 14));
        assert(marked(bb, 6) || marked(bb, 15));
        assert(marked(bb, 7) || marked(bb, 16));
        assert(marked(bb, 8) || marked(bb, 17));
    }
}

proof fn lemma_empty_bits(i: u32)
    ensures
        !marked(0, i),
{
    assert(0u32 & (1u32 << i) == 0) by (bit_vector);
}

/// Changing one cell changes the counts of its old and its new content by one each.
pub proof fn lemma_count_update(b: Seq<Option<Side>>, i: int, v: Option<Side>, m: Option<Side>)
    requires
        0 <= i < b.len(),
    ensures
        count_of(b.update(i, v), m) + (if b[i] == m {
            1int
        } else {
            0int
        }) == count_of(b, m) + (if v == m {
            1int
        } else {
            0int
        }),
    decreases b.len(),
{
    let u = b.update(i, v);
    if i == b.len() - 1 {
        assert(u.drop_last() =~= b.drop_last());
    } else {
        assert(u.drop_last() =~= b.drop_last().update(i, v));
        lemma_count_update(b.drop_last(), i, v, m);
    }
}

/// A grid with no occupied cell counts no mark.
pub proof fn lemma_count_none(b: Seq<Option<Side>>, s: Side)
    requires
        forall|i: int| 0 <= i < b.len() ==> b[i] is None,
    ensures
        count_of(b, Some(s)) == 0,
    decreases b.len(),
{
    if b.len() > 0 {
        lemma_count_none(b.drop_last(), s);
    }
}

/// The square whose cell index is `i`.
pub open spec fn square_at(i: int) -> Square {
    if i == 0 {
        Square::TopLeft
    } else if i == 1 {
        Square::TopMiddle
    } else if i == 2 {
        Square::TopRight
    } else if i == 3 {
        Square::MiddleLeft
    } else if i == 4 {
        Square::MiddleMiddle
    } else if i == 5 {
        Square::MiddleRight
    } else if i == 6 {
        Square::BottomLeft
    } else if i == 7 {
        Square::BottomMiddle
    } else {
        Square::BottomRight
    }
}

proof fn lemma_empties_in(b: Seq<Option<Side>>, order: Seq<Square>)
    requires
        b.len() == 9,
    ensures
        forall|j: int|
            0 <= j < empties_in(b, order).len() ==> b[(#[trigger] empties_in(b, order)[j]).index()] is None,
        forall|j: int|
            0 <= j < order.len() && b[(#[trigger] order[j]).index()] is None ==> empties_in(
                b,
                order,
            ).contains(order[j]),
    decreases order.len(),
{
    if order.len() > 0 {
        let rest = order.drop_last();
        lemma_empties_in(b, rest);
        assert forall|j: int|
            0 <= j < order.len() && b[(#[trigger] order[j]).index()] is None implies empties_in(
            b,
            order,
        ).contains(order[j]) by {
            if j < order.len() - 1 {
                assert(rest[j] == order[j]);
                let k = choose|k: int| 0 <= k < empties_in(b, rest).len() && empties_in(b, rest)[k] == order[j];
                if b[order.last().index()] is None {
                    assert(empties_in(b, order)[k] == order[j]);
                }
            } else {
                assert(empties_in(b, order).last() == order[j]);
            }
        }
    }
}

/// The legal moves are exactly the empty cells, and there are none on a full grid.
pub proof fn lemma_legal_moves(b: Seq<Option<Side>>)
    requires
        b.len() == 9,
    ensures
        forall|j: int|
            0 <= j < legal_moves(b).len() ==> b[(#[trigger] legal_moves(b)[j]).index()] is None,
        forall|sq: Square| b[sq.index()] is None ==> #[trigger] legal_moves(b).contains(sq),
        (legal_moves(b).len() == 0) == is_full(b),
{
    lemma_empties_in(b, search_order());
    let o = search_order();
    assert forall|sq: Square| b[sq.index()] is None implies #[trigger] legal_moves(b).contains(sq) by {
        let j: int = match sq {
            Square::MiddleMiddle => 0,
            Square::TopLeft => 1,
            Square::TopRight => 2,
            Square::BottomLeft => 3,
            Square::BottomRight => 4,
            Square::TopMiddle => 5,
            Square::MiddleLeft => 6,
            Square::MiddleRight => 7,
            Square::BottomMiddle => 8,
        };
        assert(o[j] == sq);
    }
    if !is_full(b) {
        let i = choose|i: int| 0 <= i < 9 && !(#[trigger] b[i]).is_some();
        assert(square_at(i).index() == i);
        assert(legal_moves(b).contains(square_at(i)));
    }
    if legal_moves(b).len() > 0 {
        assert(b[legal_moves(b)[0].index()] is None);
    }
}

/// The outcome in which `s` wins.
pub open spec fn win_for(s: Side) -> Outcome {
    match s {
        Side::X => Outcome::XWin,
        Side::O => Outcome::OWin,
    }
}

/// Whether every move of `moves`, played in turn from `v`, is legal.
pub open spec fn all_legal(v: GameView, moves: Seq<Square>) -> bool
    decreases moves.len(),
{
    moves.len() == 0 || (is_legal(v, moves[0]) && all_legal(
        play(v, moves[0]),
        moves.subrange(1, moves.len() as int),
    ))
}

/// The position after playing `moves` in turn from `v`.
pub open spec fn play_all(v: GameView, moves: Seq<Square>) -> GameView
    decreases moves.len(),
{
    if moves.len() == 0 {
        v
    } else {
        play_all(play(v, moves[0]), moves.subrange(1, moves.len() as int))
    }
}

/// A legal move keeps a position valid, passes the turn and adds one mark of the mover.
pub proof fn lemma_play_valid(v: GameView, sq: Square)
    requires
        valid(v),
        is_legal(v, sq),
    ensures
        valid(play(v, sq)),
        play(v, sq).side == v.side.opponent(),
        count_of(play(v, sq).board, Some(v.side)) == count_of(v.board, Some(v.side)) + 1,
        count_of(play(v, sq).board, Some(v.side.opponent())) == count_of(
            v.board,
            Some(v.side.opponent()),
        ),
        empty_count(play(v, sq).board) + 1 == empty_count(v.board),
{
    lemma_count_update(v.board, sq.index(), Some(v.side), Some(Side::X));
    lemma_count_update(v.board, sq.index(), Some(v.side), Some(Side::O));
    lemma_count_update(v.board, sq.index(), Some(v.side), None);
}

/// A legal move never completes a line of the side that did not move.
pub proof fn lemma_no_opponent_line(v: GameView, sq: Square)
    requires
        valid(v),
        is_legal(v, sq),
    ensures
        !has_line(play(v, sq).board, v.side.opponent()),
{
    let b = play(v, sq).board;
    let o = v.side.opponent();
    assert forall|i: int| 0 <= i < 9 && b[i] == Some(o) implies v.board[i] == Some(o) by {}
    assert(!has_line(v.board, o));
}

/// No cell count exceeds the number of cells.
pub proof fn lemma_count_le(b: Seq<Option<Side>>, m: Option<Side>)
    ensures
        count_of(b, m) <= b.len(),
    decreases b.len(),
{
    if b.len() > 0 {
        lemma_count_le(b.drop_last(), m);
    }
}

/// Extending a legal sequence by a move legal after it gives a legal sequence ending in the
/// position after that move.
pub proof fn lemma_play_all_push(v: GameView, moves: Seq<Square>, sq: Square)
    requires
        all_legal(v, moves),
        is_legal(play_all(v, moves), sq),
    ensures
        all_legal(v, moves.push(sq)),
        play_all(v, moves.push(sq)) == play(play_all(v, moves), sq),
    decreases moves.len(),
{
    if moves.len() > 0 {
        let rest = moves.subrange(1, moves.len() as int);
        lemma_play_all_push(play(v, moves[0]), rest, sq);
        assert(moves.push(sq).subrange(1, moves.len() as int + 1) =~= rest.push(sq));
        assert(moves.push(sq)[0] == moves[0]);
    } else {
        let one = moves.push(sq);
        assert(one.subrange(1, 1) =~= Seq::<Square>::empty());
        assert(one[0] == sq);
        assert(play_all(play(v, sq), one.subrange(1, 1)) == play(v, sq));
        assert(all_legal(play(v, sq), one.subrange(1, 1)));
    }
}

/// Sides strictly alternate, starting with X: after any sequence of legal placements from
/// the empty grid the position is valid, the side to move is X exactly after an even number
/// of placements, and X has as many marks as O or one more.
pub proof fn law_sides_alternate(moves: Seq<Square>)
    requires
        all_legal(initial(), moves),
    ensures
        valid(play_all(initial(), moves)),
        play_all(initial(), moves).side == if moves.len() % 2 == 0 {
            Side::X
        } else {
            Side::O
        },
        count_of(play_all(initial(), moves).board, Some(Side::X)) == count_of(
            play_all(initial(), moves).board,
            Some(Side::O),
        ) + moves.len() % 2,
{
    let v = initial();
    lemma_count_none(v.board, Side::X);
    lemma_count_none(v.board, Side::O);
    assert(!is_full(v.board)) by {
        assert(v.board[0] is None);
    }
    lemma_alternation(v, moves);
}

proof fn lemma_alternation(v: GameView, moves: Seq<Square>)
    requires
        valid(v),
        all_legal(v, moves),
    ensures
        valid(play_all(v, moves)),
        play_all(v, moves).side == if moves.len() % 2 == 0 {
            v.side
        } else {
            v.side.opponent()
        },
    decreases moves.len(),
{
    if moves.len() > 0 {
        lemma_play_valid(v, moves[0]);
        lemma_alternation(play(v, moves[0]), moves.subrange(1, moves.len() as int));
    }
}

/// A decided position admits no placement: the outcome, once set, never changes.
pub proof fn law_decided_is_final(v: GameView, sq: Square)
    requires
        v.outcome is Some,
    ensures
        !is_legal(v, sq),
{
}

/// After a legal placement, a completed line of the mover is the mover's win, and a full grid
/// without any completed line is a draw.
pub proof fn law_outcome_detection(v: GameView, sq: Square)
    requires
        valid(v),
        is_legal(v, sq),
    ensures
        has_line(play(v, sq).board, v.side) ==> play(v, sq).outcome == Some(win_for(v.side)),
        is_full(play(v, sq).board) && !has_line(play(v, sq).board, Side::X) && !has_line(
            play(v, sq).board,
            Side::O,
        ) ==> play(v, sq).outcome == Some(Outcome::Draw),
{
    let b = play(v, sq).board;
    let o = v.side.opponent();
    assert forall|i: int| 0 <= i < 9 && b[i] == Some(o) implies v.board[i] == Some(o) by {}
    assert(!has_line(v.board, o));
}

/// Two equal positions that receive the same placements stay equal, outcome and side to
/// move included.
pub proof fn law_copies_agree(v1: GameView, v2: GameView, moves: Seq<Square>)
    requires
        v1 == v2,
    ensures
        play_all(v1, moves) == play_all(v2, moves),
        play_all(v1, moves).outcome == play_all(v2, moves).outcome,
        play_all(v1, moves).side == play_all(v2, moves).side,
{
}

/// Whether a square holds a mark.
#[derive(Clone, Copy, Debug, PartialEq, Eq, Structural)]
pub enum SquareState {
    Empty,
    Occupied,
}

/// The square at `i` in search order.
fn search_square(i: usize) -> (r: Square)
    requires
        i < 9,
    ensures
        r == search_order()[i as int],
{
    match i {
        0 => Square::MiddleMiddle,
        1 => Square::TopLeft,
        2 => Square::TopRight,
        3 => Square::BottomLeft,
        4 => Square::BottomRight,
        5 => Square::TopMiddle,
        6 => Square::MiddleLeft,
        7 => Square::MiddleRight,
        _ => Square::BottomMiddle,
    }
}

/// Whether bits `a`, `b` and `c` are all set.
fn covers(bitboard: Bitboard, a: u32, b: u32, c: u32) -> (r: bool)
    requires
        a < 32,
        b < 32,
        c < 32,
    ensures
        r == (marked(bitboard, a) && marked(bitboard, b) && marked(bitboard, c)),
{
    let mask = (1u32 << a) | (1u32 << b) | (1u32 << c);
    proof {
        lemma_line_bits(bitboard, a, b, c);
    }
    bitboard & mask == mask
}

/// Whether the marks at bit offset `offset` (0 for X, 9 for O) complete a line.
fn completes_line(bitboard: Bitboard, offset: u32) -> (r: bool)
    requires
        offset <= 9,
    ensures
        r == bits_line(bitboard, offset),
{
    covers(bitboard, offset, offset + 1, offset + 2) || covers(bitboard, offset + 3, offset + 4, offset + 5)
        || covers(bitboard, offset + 6, offset + 7, offset + 8) || covers(bitboard, offset, offset + 3, offset + 6)
        || covers(bitboard, offset + 1, offset + 4, offset + 7) || covers(bitboard, offset + 2, offset + 5, offset + 8)
        || covers(bitboard, offset, offset + 4, offset + 8) || covers(bitboard, offset + 2, offset + 4, offset + 6)
}

/// The position of a game of tic-tac-toe, stored as a bitboard.
#[derive(Clone, Copy, Debug)]
pub struct Game {
    outcome: Option<Outcome>,
    side: Side,
    bitboard: Bitboard,
}

impl View for Game {
    type V = GameView;

    closed spec fn view(&self) -> GameView {
        GameView {
            board: Seq::new(9, |i: int| mark_at(self.bitboard, i)),
            side: self.side,
            outcome: self.outcome,
        }
    }
}

impl Game {
    /// The bitboard encodes a valid position.
    pub closed spec fn wf(&self) -> bool {
        valid(self@) && disjoint_marks(self.bitboard)
    }

    /// A well-formed game shows a valid position.
    pub proof fn lemma_valid(&self)
        requires
            self.wf(),
        ensures
            valid(self@),
    {
    }

    pub fn new() -> (r: Self)
        ensures
            r.wf(),
            r@ == initial(),
    {
        let r = Game { outcome: None, side: Side::X, bitboard: 0 };
        proof {
            assert forall|i: u32| true implies !marked(0, i) by {
                lemma_empty_bits(i);
            }
            assert(r@.board =~= initial().board);
            lemma_count_none(r@.board, Side::X);
            lemma_count_none(r@.board, Side::O);
            assert(!is_full(r@.board) ) by {
                assert(r@.board[0] is None);
            }
        }
        r
    }

    /// The marks of the two sides are on distinct cells.
    pub closed spec fn marks_disjoint(&self) -> bool {
        disjoint_marks(self.bitboard)
    }

    proof fn lemma_cells(&self)
        requires
            self.marks_disjoint(),
        ensures
            forall|i: int|
                0 <= i < 9 ==> (#[trigger] self@.board[i] == Some(Side::X)) == marked(
                    self.bitboard,
                    i as u32,
                ) && (self@.board[i] == Some(Side::O)) == marked(self.bitboard, (i + 9) as u32),
            bits_line(self.bitboard, 0) == has_line(self@.board, Side::X),
            bits_line(self.bitboard, 9) == has_line(self@.board, Side::O),
    {
        let b = self@.board;
        assert forall|i: int| 0 <= i < 9 implies (#[trigger] b[i] == Some(Side::X)) == marked(
            self.bitboard,
            i as u32,
        ) && (b[i] == Some(Side::O)) == marked(self.bitboard, (i + 9) as u32) by {
            assert(!(marked(self.bitboard, i as u32) && marked(self.bitboard, (i as u32 + 9) as u32)));
        }
        assert(b[0] == Some(Side::X) || b[0] != Some(Side::X));
        assert(b[1] == Some(Side::X) || b[1] != Some(Side::X));
        assert(b[2] == Some(Side::X) || b[2] != Some(Side::X));
        assert(b[3] == Some(Side::X) || b[3] != Some(Side::X));
        assert(b[4] == Some(Side::X) || b[4] != Some(Side::X));
        assert(b[5] == Some(Side::X) || b[5] != Some(Side::X));
        assert(b[6] == Some(Side::X) || b[6] != Some(Side::X));
        assert(b[7] == Some(Side::X) || b[7] != Some(Side::X));
        assert(b[8] == Some(Side::X) || b[8] != Some(Side::X));
    }

    pub fn is_square_empty(&self, square: &Square) -> (r: SquareState)
        ensures
            (r == SquareState::Empty) == (self@.board[square.index()] is None),
    {
        proof {
            lemma_square_bits(self.bitboard, square.index() as u32);
        }
        if self.bitboard & square.get_bitboard() == 0 {
            SquareState::Empty
        } else {
            SquareState::Occupied
        }
    }

    /// Sets one bit of the bitboard: the cell `bitboard_square.bit() % 9` gets the mark of
    /// the side that the bit belongs to.
    pub fn mark(&mut self, bitboard_square: &BitboardSquare)
        requires
            old(self).marks_disjoint(),
            old(self)@.board[bitboard_square.bit() % 9] is None,
        ensures
            final(self).marks_disjoint(),
            final(self)@.board == old(self)@.board.update(
                bitboard_square.bit() % 9,
                Some(
                    if bitboard_square.bit() < 9 {
                        Side::X
                    } else {
                        Side::O
                    },
                ),
            ),
            final(self)@.side == old(self)@.side,
            final(self)@.outcome == old(self)@.outcome,
    {
        let ghost old_bb = self.bitboard;
        let ghost k = bitboard_square.bit() as u32;
        self.bitboard = self.bitboard | bitboard_square.get_bitboard();
        proof {
            let c = bitboard_square.bit() % 9;
            let m = Some(
                if bitboard_square.bit() < 9 {
                    Side::X
                } else {
                    Side::O
                },
            );
            assert(!marked(old_bb, c as u32) && !marked(old_bb, (c + 9) as u32));
            assert forall|i: u32| i < 32 implies #[trigger] marked(self.bitboard, i) == (i == k
                || marked(old_bb, i)) by {
                lemma_set_bit(old_bb, k, i);
            }
            assert(self@.board =~= old(self)@.board.update(c, m)) by {
                assert forall|i: int| 0 <= i < 9 implies self@.board[i] == old(self)@.board.update(
                    c,
                    m,
                )[i] by {
                    assert(marked(self.bitboard, i as u32) == (i as u32 == k || marked(old_bb, i as u32)));
                    assert(marked(self.bitboard, (i + 9) as u32) == ((i + 9) as u32 == k || marked(
                        old_bb,
                        (i + 9) as u32,
                    )));
                }
            }
            assert forall|i: u32| i < 9 implies !(#[trigger] marked(self.bitboard, i) && marked(
                self.bitboard,
                (i + 9) as u32,
            )) by {
                assert(marked(self.bitboard, i) == (i == k || marked(old_bb, i)));
                assert(marked(self.bitboard, (i + 9) as u32) == ((i + 9) as u32 == k || marked(
                    old_bb,
                    (i + 9) as u32,
                )));
                assert(!(marked(old_bb, i) && marked(old_bb, (i + 9) as u32)));
            }
        }
    }

    /// Sets the outcome when the grid shows one.
    pub fn update_outcome_if_necessary(&mut self)
        requires
            old(self).marks_disjoint(),
            old(self)@.board.len() == 9,
        ensures
            final(self).marks_disjoint(),
            final(self)@.board == old(self)@.board,
            final(self)@.side == old(self)@.side,
            final(self)@.outcome == if outcome_of(old(self)@.board) is Some {
                outcome_of(old(self)@.board)
            } else {
                old(self)@.outcome
            },
    {
        proof {
            self.lemma_cells();
            lemma_full_bits(self.bitboard);
            let b = self@.board;
            if forall|i: u32| i < 9 ==> #[trigger] marked(self.bitboard, i) || marked(self.bitboard, (i + 9) as u32) {
                assert forall|i: int| 0 <= i < 9 implies (#[trigger] b[i]).is_some() by {
                    assert(marked(self.bitboard, i as u32) || marked(self.bitboard, (i as u32 + 9) as u32));
                }
            }
            if is_full(b) {
                assert forall|i: u32| i < 9 implies #[trigger] marked(self.bitboard, i) || marked(self.bitboard, (i + 9) as u32) by {
                    assert(b[i as int].is_some());
                }
            }
        }
        if completes_line(self.bitboard, 0) {
            self.outcome = Some(Outcome::XWin);
        } else if completes_line(self.bitboard, 9) {
            self.outcome = Some(Outcome::OWin);
        } else if (self.bitboard | self.bitboard >> 9) & 0x1ff == 0x1ff {
            self.outcome = Some(Outcome::Draw);
        }
    }

    /// Marks `square` for the side to move, then records the outcome and passes the turn.
    pub fn place_mark(&mut self, square: &Square) -> (r: Result<(), GameError>)
        requires
            old(self).wf(),
        ensures
            final(self).wf(),
            old(self)@.outcome is Some ==> r == Err::<(), GameError>(
                GameError::GameIsOver(old(self)@.outcome->0),
            ) && final(self)@ == old(self)@,
            old(self)@.outcome is None && old(self)@.board[square.index()] is Some ==> r == Err::<
                (),
                GameError,
            >(GameError::SquareIsNotEmpty(*square)) && final(self)@ == old(self)@,
            is_legal(old(self)@, *square) ==> r is Ok && final(self)@ == play(old(self)@, *square),
    {
        if let Some(outcome) = &self.outcome {
            return Err(GameError::GameIsOver(*outcome));
        }
        if self.is_square_empty(square) == SquareState::Occupied {
            return Err(GameError::SquareIsNotEmpty(*square));
        }
        let ghost before = self@;
        let bitboard_square = square.get_bitboard_square(&self.side);
        self.mark(&bitboard_square);
        self.update_outcome_if_necessary();
        self.side.switch();
        proof {
            let nb = before.board.update(square.index(), Some(before.side));
            assert(self@.board == nb);
            lemma_count_update(before.board, square.index(), Some(before.side), Some(Side::X));
            lemma_count_update(before.board, square.index(), Some(before.side), Some(Side::O));
            assert(self@ == play(before, *square));
        }
        Ok(())
    }

    /// The empty squares in search order: center, corners, edges.
    pub fn get_empty_squares(&self) -> (r: Vec<Square>)
        ensures
            r@ == legal_moves(self@.board),
    {
        let mut squares: Vec<Square> = Vec::with_capacity(Square::COUNT as usize);
        let mut i: usize = 0;
        while i < 9
            invariant
                i <= 9,
                squares@ == empties_in(self@.board, search_order().take(i as int)),
            decreases 9 - i,
        {
            let square = search_square(i);
            proof {
                assert(search_order().take(i + 1).drop_last() =~= search_order().take(i as int));
            }
            if self.is_square_empty(&square) == SquareState::Empty {
                squares.push(square);
            }
            i += 1;
        }
        proof {
            assert(search_order().take(9) =~= search_order());
        }
        squares
    }

    /// The mark on `square`, if any.
    pub fn get_mark(&self, square: &Square) -> (r: Option<Side>)
        requires
            self.wf(),
        ensures
            r == self@.board[square.index()],
    {
        let i = square.cell();
        if self.bitboard & (1u32 << i) != 0 {
            Some(Side::X)
        } else if self.bitboard & (1u32 << (i + 9)) != 0 {
            Some(Side::O)
        } else {
            None
        }
    }

    pub fn get_side_to_move(&self) -> (r: &Side)
        ensures
            *r == self@.side,
    {
        &self.side
    }

    pub fn get_outcome(&self) -> (r: &Option<Outcome>)
        ensures
            *r == self@.outcome,
    {
        &self.outcome
    }
}

} // verus!
