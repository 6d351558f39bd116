use crate::chance::choose_from;
use crate::game::{lemma_legal_moves, legal_moves, Game, Square};
use rand::rngs::ThreadRng;
use vstd::prelude::*;

verus! {

/// Why the random agent could not pick a move.
#[derive(Clone, Copy, Debug, PartialEq, Eq, Structural)]
pub enum RandomError {
    UnableToChooseMove,
}

/// An agent that plays a uniformly random legal move.
pub struct Random {
    random: ThreadRng,
}

impl Random {
    pub fn new() -> Self {
        Random { random: rand::thread_rng() }
    }

    /// One of the empty squares of `game`, drawn at random.
    pub fn get_move(&mut self, game: &Game) -> (r: Result<Square, RandomError>)
        requires
            game.wf(),
        ensures
            (legal_moves(game@.board).len() == 0) == (r is Err),
            r matches Ok(sq) ==> legal_moves(game@.board).contains(sq),
            r matches Ok(sq) ==> game@.board[sq.index()] is None,
            legal_moves(game@.board).len() == 1 ==> r == Ok::<Square, RandomError>(
                legal_moves(game@.board)[0],
            ),
    {
        let squares = game.get_empty_squares();
        match choose_from(squares.as_slice(), &mut self.random) {
            Some(square) => {
                proof {
                    game.lemma_valid();
                    lemma_legal_moves(game@.board);
                }
                Ok(square)
            },
            None => Err(RandomError::UnableToChooseMove),
        }
    }
}

} // verus!
