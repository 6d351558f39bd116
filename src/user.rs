use crate::game::{legal_moves, Game, Square};
use vstd::prelude::*;

verus! {

/// The square that key `key` of a numeric keypad stands for: 1 to 3 the bottom row, 4 to 6
/// the middle row, 7 to 9 the top row, each from left to right.
pub open spec fn keypad_square(key: u8) -> Option<Square> {
    match key {
        1 => Some(Square::BottomLeft),
        2 => Some(Square::BottomMiddle),
        3 => Some(Square::BottomRight),
        4 => Some(Square::MiddleLeft),
        5 => Some(Square::MiddleMiddle),
        6 => Some(Square::MiddleRight),
        7 => Some(Square::TopLeft),
        8 => Some(Square::TopMiddle),
        9 => Some(Square::TopRight),
        _ => None,
    }
}

/// The square for keypad key `key`, if there is one.
pub fn square_for_key(key: u8) -> (r: Option<Square>)
    ensures
        r == keypad_square(key),
{
    match key {
        1 => Some(Square::BottomLeft),
        2 => Some(Square::BottomMiddle),
        3 => Some(Square::BottomRight),
        4 => Some(Square::MiddleLeft),
        5 => Some(Square::MiddleMiddle),
        6 => Some(Square::MiddleRight),
        7 => Some(Square::TopLeft),
        8 => Some(Square::TopMiddle),
        9 => Some(Square::TopRight),
        _ => None,
    }
}

/// How a keypad answer of a human player is taken.
#[derive(Clone, Copy, Debug, PartialEq, Eq, Structural)]
pub enum Answer {
    /// The key names an empty square: the move.
    Move(Square),
    /// The key is not between 1 and 9.
    OutOfRange,
    /// The key names a square that is already marked.
    NotEmpty(Square),
}

/// A human player: the squares open to the answer being awaited.
pub struct User {
    empty_squares: Vec<Square>,
}

impl User {
    /// The squares that an answer may name.
    pub closed spec fn open_squares(&self) -> Seq<Square> {
        self.empty_squares@
    }

    pub fn new() -> (r: Self)
        ensures
            r.open_squares() == Seq::<Square>::empty(),
    {
        User { empty_squares: Vec::with_capacity(Square::COUNT as usize) }
    }

    /// Opens the empty squares of `game` to the next answer.
    pub fn prepare(&mut self, game: &Game)
        ensures
            final(self).open_squares() == legal_moves(game@.board),
    {
        self.empty_squares = game.get_empty_squares();
    }

    /// Takes keypad key `key` as an answer.
    pub fn answer(&self, key: u8) -> (r: Answer)
        ensures
            r == match keypad_square(key) {
                None => Answer::OutOfRange,
                Some(sq) => if self.open_squares().contains(sq) {
                    Answer::Move(sq)
                } else {
                    Answer::NotEmpty(sq)
                },
            },
    {
        match square_for_key(key) {
            None => Answer::OutOfRange,
            Some(square) => {
                let mut i: usize = 0;
                while i < self.empty_squares.len()
                    invariant
                        i <= self.empty_squares@.len(),
                        keypad_square(key) == Some(square),
                        forall|j: int| 0 <= j < i ==> self.empty_squares@[j] != square,
                    decreases self.empty_squares@.len() - i,
                {
                    if self.empty_squares[i] == square {
                        proof {
                            assert(self.empty_squares@[i as int] == square);
                        }
                        return Answer::Move(square);
                    }
                    i += 1;
                }
                Answer::NotEmpty(square)
            },
        }
    }
}

} // verus!
