use tic_tac_toe::game::{Game, GameError, Outcome, Side, Square};
use tic_tac_toe::minimax::{self, MinimaxError};

fn play(moves: &[Square]) -> Game {
    let mut game = Game::new();
    for square in moves {
        game.place_mark(square).unwrap();
    }
    game
}

fn play_out_with_minimax(mut game: Game) -> Outcome {
    loop {
        if let Some(outcome) = game.get_outcome() {
            return *outcome;
        }
        let square = minimax::get_move(&game).unwrap();
        game.place_mark(&square).unwrap();
    }
}

#[test]
fn terminal_values_prefer_quick_wins() {
    assert_eq!(minimax::get_value(&Outcome::XWin, &0), 32);
    assert_eq!(minimax::get_value(&Outcome::XWin, &3), 29);
    assert_eq!(minimax::get_value(&Outcome::OWin, &3), 3);
    assert_eq!(minimax::get_value(&Outcome::Draw, &5), 16);
}

#[test]
fn optimal_play_after_center_opening_is_a_draw() {
    let game = play(&[Square::MiddleMiddle]);
    assert_eq!(play_out_with_minimax(game), Outcome::Draw);
}

#[test]
fn minimax_from_empty_board_does_not_lose() {
    let game = Game::new();
    let square = minimax::get_move(&game).unwrap();
    let mut next = game;
    next.place_mark(&square).unwrap();
    let outcome = play_out_with_minimax(next);
    assert!(outcome == Outcome::Draw || outcome == Outcome::XWin);
}

#[test]
fn minimax_for_o_blocks_the_row() {
    let game = play(&[Square::TopLeft, Square::MiddleMiddle, Square::TopMiddle]);
    assert_eq!(*game.get_side_to_move(), Side::O);
    assert_eq!(minimax::get_move(&game), Ok(Square::TopRight));
    assert_eq!(minimax::get_best_square_min(&game), Ok(Square::TopRight));
}

#[test]
fn minimax_for_x_completes_the_diagonal() {
    let game = play(&[
        Square::TopLeft,
        Square::TopMiddle,
        Square::MiddleMiddle,
        Square::TopRight,
    ]);
    assert_eq!(minimax::get_move(&game), Ok(Square::BottomRight));
    let mut next = game;
    next.place_mark(&Square::BottomRight).unwrap();
    assert_eq!(*next.get_outcome(), Some(Outcome::XWin));
}

#[test]
fn minimax_values_of_a_won_position() {
    let game = play(&[
        Square::TopLeft,
        Square::TopMiddle,
        Square::MiddleMiddle,
        Square::TopRight,
    ]);
    assert_eq!(minimax::max(&game, &0), Ok(32));
}

#[test]
fn minimax_on_full_board_has_no_square() {
    let game = play(&[
        Square::TopLeft,
        Square::TopMiddle,
        Square::TopRight,
        Square::MiddleMiddle,
        Square::MiddleLeft,
        Square::BottomLeft,
        Square::BottomMiddle,
        Square::MiddleRight,
        Square::BottomRight,
    ]);
    assert_eq!(minimax::get_move(&game), Err(MinimaxError::NoEmptySquares));
}

#[test]
fn minimax_on_decided_board_reports_game_over() {
    let game = play(&[
        Square::TopLeft,
        Square::MiddleLeft,
        Square::TopMiddle,
        Square::MiddleMiddle,
        Square::TopRight,
    ]);
    assert_eq!(
        minimax::get_move(&game),
        Err(MinimaxError::Game(GameError::GameIsOver(Outcome::XWin)))
    );
}
