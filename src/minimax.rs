use crate::game::{
    empty_count, is_legal, lemma_count_le, lemma_legal_moves, lemma_no_opponent_line,
    lemma_play_valid, legal_moves, play, valid, Game, GameError, GameView, Outcome, Side, Square,
};
use vstd::prelude::*;

verus! {

/// Why minimax could not pick a move.
#[derive(Clone, Copy, Debug, PartialEq, Eq, Structural)]
pub enum MinimaxError {
    Game(GameError),
    NoEmptySquares,
}

/// Plies from the queried position.
pub type Depth = u8;

/// Position value on the scale from an O win to an X win.
pub type Value = u8;

pub const X_WIN: Value = 32;

pub const DRAW: Value = 16;

pub const O_WIN: Value = 0;

/// Value of a finished game reached `depth` plies below the queried position: quicker wins
/// score better for the winner.
pub open spec fn value_of(outcome: Outcome, depth: int) -> int {
    match outcome {
        Outcome::Draw => DRAW as int,
        Outcome::XWin => X_WIN - depth,
        Outcome::OWin => O_WIN + depth,
    }
}

/// Value of the child of `v` reached by `sq`, where `v` is a maximizing node when
/// `maximizing` holds and a minimizing one otherwise; `fuel` bounds the plies left.
pub open spec fn child_value(v: GameView, sq: Square, depth: int, fuel: nat, maximizing: bool) -> int
    decreases fuel, 0nat, 0nat,
{
    let c = play(v, sq);
    match c.outcome {
        Some(o) => value_of(o, depth),
        None => if fuel == 0 {
            if maximizing {
                X_WIN as int
            } else {
                O_WIN as int
            }
        } else {
            search_value(c, depth + 1, (fuel - 1) as nat, !maximizing)
        },
    }
}

/// Best child value over the first `n` legal moves of `v`.
pub open spec fn fold_value(v: GameView, depth: int, fuel: nat, maximizing: bool, n: nat) -> int
    decreases fuel, 1nat, n,
{
    if n == 0 {
        if maximizing {
            O_WIN as int
        } else {
            X_WIN as int
        }
    } else {
        let prev = fold_value(v, depth, fuel, maximizing, (n - 1) as nat);
        let cv = if n <= legal_moves(v.board).len() {
            child_value(v, legal_moves(v.board)[n - 1], depth, fuel, maximizing)
        } else {
            prev
        };
        if maximizing {
            if cv > prev {
                cv
            } else {
                prev
            }
        } else {
            if cv < prev {
                cv
            } else {
                prev
            }
        }
    }
}

/// Value of `v` searched exhaustively, maximizing or minimizing over its legal moves.
pub open spec fn search_value(v: GameView, depth: int, fuel: nat, maximizing: bool) -> int
    decreases fuel, 2nat, 0nat,
{
    fold_value(v, depth, fuel, maximizing, legal_moves(v.board).len())
}

/// Value of `v` for the maximizing side X, searched from `depth`.
pub open spec fn max_value(v: GameView, depth: int) -> int {
    search_value(v, depth, empty_count(v.board), true)
}

/// Value of `v` for the minimizing side O, searched from `depth`.
pub open spec fn min_value(v: GameView, depth: int) -> int {
    search_value(v, depth, empty_count(v.board), false)
}

/// Value of playing `sq` from `v`, from a maximizing root when `maximizing` holds.
pub open spec fn move_value(v: GameView, sq: Square, maximizing: bool) -> int {
    let c = play(v, sq);
    match c.outcome {
        Some(o) => value_of(o, 0),
        None => if maximizing {
            min_value(c, 1)
        } else {
            max_value(c, 1)
        },
    }
}

/// `a` is better than `b` for the side that maximizes when `maximizing` holds.
pub open spec fn better(a: int, b: int, maximizing: bool) -> bool {
    if maximizing {
        a > b
    } else {
        a < b
    }
}

/// `sq` is the first legal move of `v` with the best value: no move is better and every
/// earlier one is worse.
pub open spec fn is_first_best(v: GameView, sq: Square, maximizing: bool) -> bool {
    let moves = legal_moves(v.board);
    exists|j: int|
        0 <= j < moves.len() && moves[j] == sq && (forall|k: int|
            0 <= k < moves.len() ==> !better(
                #[trigger] move_value(v, moves[k], maximizing),
                move_value(v, sq, maximizing),
                maximizing,
            )) && (forall|k: int|
            0 <= k < j ==> better(
                move_value(v, sq, maximizing),
                #[trigger] move_value(v, moves[k], maximizing),
                maximizing,
            ))
}

pub fn get_value(outcome: &Outcome, depth: &Depth) -> (r: Value)
    requires
        *outcome == Outcome::XWin ==> *depth <= X_WIN,
    ensures
        r as int == value_of(*outcome, *depth as int),
{
    match outcome {
        Outcome::Draw => DRAW,
        Outcome::XWin => X_WIN - *depth,
        Outcome::OWin => O_WIN + *depth,
    }
}

proof fn lemma_search_bounds(v: GameView, depth: int, fuel: nat, maximizing: bool)
    requires
        valid(v),
        v.outcome is None,
        fuel == empty_count(v.board),
        1 <= depth,
        depth + fuel <= 10,
        maximizing == (v.side == Side::X),
    ensures
        depth <= search_value(v, depth, fuel, maximizing) <= X_WIN - depth,
    decreases fuel, 1nat, 0nat,
{
    lemma_legal_moves(v.board);
    lemma_fold_bounds(v, depth, fuel, maximizing, legal_moves(v.board).len());
}

proof fn lemma_fold_bounds(v: GameView, depth: int, fuel: nat, maximizing: bool, n: nat)
    requires
        valid(v),
        v.outcome is None,
        fuel == empty_count(v.board),
        1 <= depth,
        depth + fuel <= 10,
        maximizing == (v.side == Side::X),
        1 <= n <= legal_moves(v.board).len(),
    ensures
        depth <= fold_value(v, depth, fuel, maximizing, n) <= X_WIN - depth,
    decreases fuel, 0nat, n,
{
    if n > 1 {
        lemma_fold_bounds(v, depth, fuel, maximizing, (n - 1) as nat);
    }
    lemma_legal_moves(v.board);
    let sq = legal_moves(v.board)[n - 1];
    lemma_play_valid(v, sq);
    lemma_no_opponent_line(v, sq);
    let c = play(v, sq);
    if c.outcome is None {
        lemma_search_bounds(c, depth + 1, (fuel - 1) as nat, !maximizing);
    }
    let cv = child_value(v, sq, depth, fuel, maximizing);
    let prev = fold_value(v, depth, fuel, maximizing, (n - 1) as nat);
    assert(depth <= cv <= X_WIN - depth);
    assert(fold_value(v, depth, fuel, maximizing, n) == if better(cv, prev, maximizing) {
        cv
    } else {
        prev
    });
}

/// From a valid undecided position, every move scores strictly inside the value scale in
/// favour of the side to move: above an O win for X, below an X win for O.
proof fn lemma_move_value_bounds(v: GameView, sq: Square)
    requires
        valid(v),
        is_legal(v, sq),
    ensures
        v.side == Side::X ==> move_value(v, sq, true) > O_WIN,
        v.side == Side::O ==> move_value(v, sq, false) < X_WIN,
{
    lemma_play_valid(v, sq);
    lemma_no_opponent_line(v, sq);
    lemma_count_le(v.board, None);
    let c = play(v, sq);
    if c.outcome is None {
        lemma_search_bounds(c, 1, empty_count(c.board), c.side == Side::X);
    }
}

/// The value of `node` for X to maximize, `depth` plies below the queried position.
pub fn max(node: &Game, depth: &Depth) -> (r: Result<Value, MinimaxError>)
    requires
        node.wf(),
        node@.outcome is None,
        *depth as int + empty_count(node@.board) <= 9,
    ensures
        r matches Ok(value) && value as int == max_value(node@, *depth as int),
    decreases empty_count(node@.board),
{
    let ghost v = node@;
    let ghost fuel = empty_count(v.board);
    proof {
        node.lemma_valid();
        lemma_legal_moves(v.board);
    }
    let squares = node.get_empty_squares();
    let mut value: Value = O_WIN;
    let mut i: usize = 0;
    while i < squares.len()
        invariant
            node.wf(),
            v == node@,
            valid(v),
            v.outcome is None,
            fuel == empty_count(v.board),
            *depth as int + fuel <= 9,
            squares@ == legal_moves(v.board),
            forall|j: int| 0 <= j < squares@.len() ==> v.board[(#[trigger] squares@[j]).index()] is None,
            i <= squares.len(),
            value as int == fold_value(v, *depth as int, fuel, true, i as nat),
        decreases squares.len() - i,
    {
        let square = squares[i];
        let mut game = *node;
        match game.place_mark(&square) {
            Ok(()) => {},
            Err(e) => {
                return Err(MinimaxError::Game(e));
            },
        }
        proof {
            lemma_play_valid(v, square);
            assert(game@ == play(v, square));
        }
        let child = match game.get_outcome() {
            Some(outcome) => get_value(outcome, depth),
            None => {
                let next: Depth = *depth + 1;
                let result = min(&game, &next);
                match result {
                    Ok(x) => x,
                    Err(e) => {
                        return Err(e);
                    },
                }
            },
        };
        proof {
            assert(child as int == child_value(v, square, *depth as int, fuel, true));
        }
        if child > value {
            value = child;
        }
        i += 1;
    }
    Ok(value)
}

/// The value of `node` for O to minimize, `depth` plies below the queried position.
pub fn min(node: &Game, depth: &Depth) -> (r: Result<Value, MinimaxError>)
    requires
        node.wf(),
        node@.outcome is None,
        *depth as int + empty_count(node@.board) <= 9,
    ensures
        r matches Ok(value) && value as int == min_value(node@, *depth as int),
    decreases empty_count(node@.board),
{
    let ghost v = node@;
    let ghost fuel = empty_count(v.board);
    proof {
        node.lemma_valid();
        lemma_legal_moves(v.board);
    }
    let squares = node.get_empty_squares();
    let mut value: Value = X_WIN;
    let mut i: usize = 0;
    while i < squares.len()
        invariant
            node.wf(),
            v == node@,
            valid(v),
            v.outcome is None,
            fuel == empty_count(v.board),
            *depth as int + fuel <= 9,
            squares@ == legal_moves(v.board),
            forall|j: int| 0 <= j < squares@.len() ==> v.board[(#[trigger] squares@[j]).index()] is None,
            i <= squares.len(),
            value as int == fold_value(v, *depth as int, fuel, false, i as nat),
        decreases squares.len() - i,
    {
        let square = squares[i];
        let mut game = *node;
        match game.place_mark(&square) {
            Ok(()) => {},
            Err(e) => {
                return Err(MinimaxError::Game(e));
            },
        }
        proof {
            lemma_play_valid(v, square);
            assert(game@ == play(v, square));
        }
        let child = match game.get_outcome() {
            Some(outcome) => get_value(outcome, depth),
            None => {
                let next: Depth = *depth + 1;
                let result = max(&game, &next);
                match result {
                    Ok(x) => x,
                    Err(e) => {
                        return Err(e);
                    },
                }
            },
        };
        proof {
            assert(child as int == child_value(v, square, *depth as int, fuel, false));
        }
        if child < value {
            value = child;
        }
        i += 1;
    }
    Ok(value)
}


fn best_square(game: &Game, maximizing: bool) -> (r: Result<Square, MinimaxError>)
    requires
        game.wf(),
    ensures
        legal_moves(game@.board).len() == 0 ==> r == Err::<Square, MinimaxError>(
            MinimaxError::NoEmptySquares,
        ),
        legal_moves(game@.board).len() > 0 && game@.outcome is Some ==> r == Err::<
            Square,
            MinimaxError,
        >(MinimaxError::Game(GameError::GameIsOver(game@.outcome->0))),
        legal_moves(game@.board).len() > 0 && game@.outcome is None ==> (r matches Ok(sq)
            && is_first_best(game@, sq, maximizing) && better(
            move_value(game@, sq, maximizing),
            if maximizing {
                O_WIN as int
            } else {
                X_WIN as int
            },
            maximizing,
        )) || (r == Err::<Square, MinimaxError>(MinimaxError::NoEmptySquares) && forall|k: int|
            0 <= k < legal_moves(game@.board).len() ==> !better(
                #[trigger] move_value(game@, legal_moves(game@.board)[k], maximizing),
                if maximizing {
                    O_WIN as int
                } else {
                    X_WIN as int
                },
                maximizing,
            )),
{
    let ghost v = game@;
    let ghost moves = legal_moves(v.board);
    proof {
        game.lemma_valid();
        lemma_legal_moves(v.board);
        lemma_count_le(v.board, None);
    }
    let squares = game.get_empty_squares();
    let mut best: Option<Square> = None;
    let mut best_value: Value = if maximizing {
        O_WIN
    } else {
        X_WIN
    };
    let ghost mut bj: int = 0;
    let mut i: usize = 0;
    while i < squares.len()
        invariant
            game.wf(),
            v == game@,
            valid(v),
            squares@ == moves,
            moves == legal_moves(v.board),
            forall|j: int| 0 <= j < moves.len() ==> v.board[(#[trigger] moves[j]).index()] is None,
            empty_count(v.board) <= 9,
            i <= squares.len(),
            i > 0 ==> v.outcome is None,
            best is None ==> best_value == (if maximizing {
                O_WIN
            } else {
                X_WIN
            }) && forall|k: int|
                0 <= k < i ==> !better(
                    #[trigger] move_value(v, moves[k], maximizing),
                    best_value as int,
                    maximizing,
                ),
            best is Some ==> 0 <= bj < i && best == Some(moves[bj]) && best_value as int
                == move_value(v, moves[bj], maximizing) && better(
                best_value as int,
                if maximizing {
                    O_WIN as int
                } else {
                    X_WIN as int
                },
                maximizing,
            ) && (forall|k: int|
                0 <= k < i ==> !better(
                    #[trigger] move_value(v, moves[k], maximizing),
                    best_value as int,
                    maximizing,
                )) && (forall|k: int|
                0 <= k < bj ==> better(
                    best_value as int,
                    #[trigger] move_value(v, moves[k], maximizing),
                    maximizing,
                )),
        decreases squares.len() - i,
    {
        let square = squares[i];
        let mut node = *game;
        match node.place_mark(&square) {
            Ok(()) => {},
            Err(e) => {
                return Err(MinimaxError::Game(e));
            },
        }
        proof {
            lemma_play_valid(v, square);
        }
        let value = match node.get_outcome() {
            Some(outcome) => get_value(outcome, &0),
            None => {
                let result = if maximizing {
                    min(&node, &1)
                } else {
                    max(&node, &1)
                };
                match result {
                    Ok(x) => x,
                    Err(e) => {
                        return Err(e);
                    },
                }
            },
        };
        proof {
            assert(value as int == move_value(v, square, maximizing));
        }
        if (maximizing && value > best_value) || (!maximizing && value < best_value) {
            best_value = value;
            best = Some(square);
            proof {
                bj = i as int;
            }
        }
        i += 1;
    }
    match best {
        Some(square) => {
            proof {
                assert(moves[bj] == square);
            }
            Ok(square)
        },
        None => Err(MinimaxError::NoEmptySquares),
    }
}

/// The first legal move with the greatest value for X.
pub fn get_best_square_max(game: &Game) -> (r: Result<Square, MinimaxError>)
    requires
        game.wf(),
    ensures
        legal_moves(game@.board).len() == 0 ==> r == Err::<Square, MinimaxError>(
            MinimaxError::NoEmptySquares,
        ),
        legal_moves(game@.board).len() > 0 && game@.outcome is Some ==> r == Err::<
            Square,
            MinimaxError,
        >(MinimaxError::Game(GameError::GameIsOver(game@.outcome->0))),
        legal_moves(game@.board).len() > 0 && game@.outcome is None ==> (r matches Ok(sq)
            && is_first_best(game@, sq, true) && move_value(game@, sq, true) > O_WIN) || (r
            == Err::<Square, MinimaxError>(MinimaxError::NoEmptySquares) && forall|k: int|
            0 <= k < legal_moves(game@.board).len() ==> #[trigger] move_value(
                game@,
                legal_moves(game@.board)[k],
                true,
            ) <= O_WIN),
{
    best_square(game, true)
}

/// The first legal move with the smallest value, the best for O.
pub fn get_best_square_min(game: &Game) -> (r: Result<Square, MinimaxError>)
    requires
        game.wf(),
    ensures
        legal_moves(game@.board).len() == 0 ==> r == Err::<Square, MinimaxError>(
            MinimaxError::NoEmptySquares,
        ),
        legal_moves(game@.board).len() > 0 && game@.outcome is Some ==> r == Err::<
            Square,
            MinimaxError,
        >(MinimaxError::Game(GameError::GameIsOver(game@.outcome->0))),
        legal_moves(game@.board).len() > 0 && game@.outcome is None ==> (r matches Ok(sq)
            && is_first_best(game@, sq, false) && move_value(game@, sq, false) < X_WIN) || (r
            == Err::<Square, MinimaxError>(MinimaxError::NoEmptySquares) && forall|k: int|
            0 <= k < legal_moves(game@.board).len() ==> #[trigger] move_value(
                game@,
                legal_moves(game@.board)[k],
                false,
            ) >= X_WIN),
{
    best_square(game, false)
}

/// The minimax choice for the side to move: X maximizes, O minimizes, and ties keep the
/// move found first.
pub fn get_move(game: &Game) -> (r: Result<Square, MinimaxError>)
    requires
        game.wf(),
    ensures
        legal_moves(game@.board).len() == 0 ==> r == Err::<Square, MinimaxError>(
            MinimaxError::NoEmptySquares,
        ),
        legal_moves(game@.board).len() > 0 && game@.outcome is Some ==> r == Err::<
            Square,
            MinimaxError,
        >(MinimaxError::Game(GameError::GameIsOver(game@.outcome->0))),
        legal_moves(game@.board).len() > 0 && game@.outcome is None ==> (r matches Ok(sq)
            && is_first_best(game@, sq, game@.side == Side::X)),
{
    proof {
        game.lemma_valid();
        lemma_legal_moves(game@.board);
        if legal_moves(game@.board).len() > 0 && game@.outcome is None {
            assert forall|k: int| 0 <= k < legal_moves(game@.board).len() implies is_legal(
                game@,
                #[trigger] legal_moves(game@.board)[k],
            ) by {}
            let sq0 = legal_moves(game@.board)[0];
            lemma_move_value_bounds(game@, sq0);
        }
    }
    if *game.get_side_to_move() == Side::X {
        get_best_square_max(game)
    } else {
        get_best_square_min(game)
    }
}

} // verus!
