use std::collections::HashMap;
use tic_tac_toe::game::{Game, GameError, Outcome, Square};
use tic_tac_toe::mcts::{Mcts, MctsError};
use tic_tac_toe::random::{Random, RandomError};
use tic_tac_toe::user::{square_for_key, Answer, User};

fn play(moves: &[Square]) -> Game {
    let mut game = Game::new();
    for square in moves {
        game.place_mark(square).unwrap();
    }
    game
}

fn one_square_left() -> Game {
    play(&[
        Square::TopLeft,
        Square::TopMiddle,
        Square::TopRight,
        Square::MiddleMiddle,
        Square::MiddleLeft,
        Square::BottomLeft,
        Square::BottomMiddle,
        Square::MiddleRight,
    ])
}

fn uct(stats: (u32, u32), parent_playouts: u32) -> f64 {
    let wins = stats.0 as f64 / 2.0;
    let playouts = stats.1 as f64;
    wins / playouts + std::f64::consts::SQRT_2 * ((parent_playouts as f64).ln() / playouts).sqrt()
}

fn uct_greater(a: (u32, u32), b: (u32, u32), parent_playouts: u32) -> bool {
    uct(a, parent_playouts) > uct(b, parent_playouts)
}

#[test]
fn random_agent_takes_the_only_square() {
    let game = one_square_left();
    let mut random = Random::new();
    for _ in 0..1000 {
        assert_eq!(random.get_move(&game), Ok(Square::BottomRight));
    }
}

#[test]
fn random_agent_is_roughly_uniform() {
    let game = Game::new();
    let mut random = Random::new();
    let mut counts: HashMap<Square, u32> = HashMap::new();
    for _ in 0..9000 {
        *counts.entry(random.get_move(&game).unwrap()).or_insert(0) += 1;
    }
    assert_eq!(counts.len(), 9);
    for count in counts.values() {
        assert!(*count > 750 && *count < 1250, "count {}", count);
    }
}

#[test]
fn random_agent_fails_on_full_board() {
    let mut game = one_square_left();
    game.place_mark(&Square::BottomRight).unwrap();
    let mut random = Random::new();
    assert_eq!(random.get_move(&game), Err(RandomError::UnableToChooseMove));
}

#[test]
fn mcts_completes_a_winning_diagonal() {
    let game = play(&[
        Square::TopLeft,
        Square::TopMiddle,
        Square::MiddleMiddle,
        Square::TopRight,
    ]);
    let mut mcts = Mcts::new();
    let mut wins = 0;
    let runs = 20;
    for _ in 0..runs {
        if mcts.get_move(&game, &uct_greater) == Ok(Square::BottomRight) {
            wins += 1;
        }
    }
    assert!(wins * 100 > runs * 95, "{} of {}", wins, runs);
}

#[test]
fn mcts_returns_the_only_square() {
    let game = one_square_left();
    let mut mcts = Mcts::new();
    assert_eq!(mcts.get_move(&game, &uct_greater), Ok(Square::BottomRight));
}

#[test]
fn mcts_fails_without_legal_moves() {
    let mut game = one_square_left();
    game.place_mark(&Square::BottomRight).unwrap();
    let mut mcts = Mcts::new();
    assert_eq!(
        mcts.get_move(&game, &uct_greater),
        Err(MctsError::ChildNodesIndexesSliceEmpty)
    );
}

#[test]
fn mcts_fails_on_decided_board() {
    let game = play(&[
        Square::TopLeft,
        Square::MiddleLeft,
        Square::TopMiddle,
        Square::MiddleMiddle,
        Square::TopRight,
    ]);
    let mut mcts = Mcts::new();
    assert_eq!(
        mcts.get_move(&game, &uct_greater),
        Err(MctsError::Game(GameError::GameIsOver(Outcome::XWin)))
    );
}

#[test]
fn keypad_maps_bottom_to_top() {
    assert_eq!(square_for_key(1), Some(Square::BottomLeft));
    assert_eq!(square_for_key(5), Some(Square::MiddleMiddle));
    assert_eq!(square_for_key(9), Some(Square::TopRight));
    assert_eq!(square_for_key(0), None);
    assert_eq!(square_for_key(10), None);
}

#[test]
fn user_answers_are_checked_against_empty_squares() {
    let game = play(&[Square::MiddleMiddle]);
    let mut user = User::new();
    user.prepare(&game);
    assert_eq!(user.answer(5), Answer::NotEmpty(Square::MiddleMiddle));
    assert_eq!(user.answer(7), Answer::Move(Square::TopLeft));
    assert_eq!(user.answer(0), Answer::OutOfRange);
}
