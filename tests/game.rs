use tic_tac_toe::game::{BitboardSquare, Game, GameError, Outcome, Side, Square};

fn play(moves: &[Square]) -> Game {
    let mut game = Game::new();
    for square in moves {
        game.place_mark(square).unwrap();
    }
    game
}

fn drawn_board_but_last() -> Vec<Square> {
    vec![
        Square::TopLeft,
        Square::TopMiddle,
        Square::TopRight,
        Square::MiddleMiddle,
        Square::MiddleLeft,
        Square::BottomLeft,
        Square::BottomMiddle,
        Square::MiddleRight,
    ]
}

#[test]
fn new_game_is_empty_with_x_to_move() {
    let game = Game::new();
    assert_eq!(*game.get_side_to_move(), Side::X);
    assert_eq!(*game.get_outcome(), None);
    assert_eq!(
        game.get_empty_squares(),
        vec![
            Square::MiddleMiddle,
            Square::TopLeft,
            Square::TopRight,
            Square::BottomLeft,
            Square::BottomRight,
            Square::TopMiddle,
            Square::MiddleLeft,
            Square::MiddleRight,
            Square::BottomMiddle,
        ]
    );
}

#[test]
fn sides_alternate_starting_with_x() {
    let mut game = Game::new();
    let mut expected = Side::X;
    for square in drawn_board_but_last() {
        assert_eq!(*game.get_side_to_move(), expected);
        game.place_mark(&square).unwrap();
        expected = if expected == Side::X { Side::O } else { Side::X };
    }
    assert_eq!(*game.get_side_to_move(), Side::X);
    assert_eq!(game.get_empty_squares(), vec![Square::BottomRight]);
}

#[test]
fn placed_square_is_no_longer_empty() {
    let game = play(&[Square::MiddleMiddle, Square::TopLeft]);
    let empty = game.get_empty_squares();
    assert_eq!(empty.len(), 7);
    assert!(!empty.contains(&Square::MiddleMiddle));
    assert!(!empty.contains(&Square::TopLeft));
    assert_eq!(empty[0], Square::TopRight);
}

#[test]
fn occupied_square_is_rejected_for_either_side() {
    let mut game = play(&[Square::MiddleMiddle]);
    assert_eq!(
        game.place_mark(&Square::MiddleMiddle),
        Err(GameError::SquareIsNotEmpty(Square::MiddleMiddle))
    );
    assert_eq!(*game.get_side_to_move(), Side::O);
    game.place_mark(&Square::TopLeft).unwrap();
    assert_eq!(
        game.place_mark(&Square::TopLeft),
        Err(GameError::SquareIsNotEmpty(Square::TopLeft))
    );
    assert_eq!(*game.get_side_to_move(), Side::X);
}

#[test]
fn row_of_x_wins_and_game_is_over() {
    let mut game = play(&[
        Square::TopLeft,
        Square::MiddleLeft,
        Square::TopMiddle,
        Square::MiddleMiddle,
        Square::TopRight,
    ]);
    assert_eq!(*game.get_outcome(), Some(Outcome::XWin));
    assert_eq!(
        game.place_mark(&Square::BottomLeft),
        Err(GameError::GameIsOver(Outcome::XWin))
    );
    assert_eq!(
        game.place_mark(&Square::TopLeft),
        Err(GameError::GameIsOver(Outcome::XWin))
    );
    assert_eq!(*game.get_outcome(), Some(Outcome::XWin));
}

#[test]
fn column_of_o_wins() {
    let game = play(&[
        Square::TopLeft,
        Square::TopRight,
        Square::MiddleMiddle,
        Square::MiddleRight,
        Square::BottomMiddle,
        Square::BottomRight,
    ]);
    assert_eq!(*game.get_outcome(), Some(Outcome::OWin));
    let mut over = game;
    assert_eq!(
        over.place_mark(&Square::BottomLeft),
        Err(GameError::GameIsOver(Outcome::OWin))
    );
}

#[test]
fn diagonal_of_x_wins() {
    let game = play(&[
        Square::TopRight,
        Square::TopLeft,
        Square::MiddleMiddle,
        Square::TopMiddle,
        Square::BottomLeft,
    ]);
    assert_eq!(*game.get_outcome(), Some(Outcome::XWin));
}

#[test]
fn full_board_without_line_is_a_draw() {
    let mut game = play(&drawn_board_but_last());
    assert_eq!(*game.get_outcome(), None);
    game.place_mark(&Square::BottomRight).unwrap();
    assert_eq!(*game.get_outcome(), Some(Outcome::Draw));
    assert!(game.get_empty_squares().is_empty());
    assert_eq!(
        game.place_mark(&Square::BottomRight),
        Err(GameError::GameIsOver(Outcome::Draw))
    );
}

#[test]
fn win_on_last_square_is_a_win_not_a_draw() {
    let game = play(&[
        Square::TopLeft,
        Square::TopMiddle,
        Square::TopRight,
        Square::MiddleLeft,
        Square::MiddleMiddle,
        Square::MiddleRight,
        Square::BottomMiddle,
        Square::BottomLeft,
        Square::BottomRight,
    ]);
    assert_eq!(*game.get_outcome(), Some(Outcome::XWin));
}

#[test]
fn copies_given_the_same_moves_agree() {
    let original = play(&[Square::MiddleMiddle, Square::TopLeft]);
    let mut a = original.clone();
    let mut b = original.clone();
    for square in [Square::TopRight, Square::BottomLeft, Square::BottomRight] {
        assert_eq!(a.place_mark(&square), b.place_mark(&square));
        assert_eq!(*a.get_side_to_move(), *b.get_side_to_move());
        assert_eq!(*a.get_outcome(), *b.get_outcome());
        assert_eq!(a.get_empty_squares(), b.get_empty_squares());
    }
    assert_eq!(original.get_empty_squares().len(), 7);
    assert_eq!(a.get_empty_squares().len(), 4);
}

#[test]
fn bitboard_encoding() {
    assert_eq!(Square::TopLeft.get_bitboard(), 0b1_0000_0000_1);
    assert_eq!(Square::BottomRight.get_bitboard(), (1 << 8) | (1 << 17));
    assert_eq!(BitboardSquare::TopLeftX.get_bitboard(), 1);
    assert_eq!(BitboardSquare::BottomRightO.get_bitboard(), 1 << 17);
    assert_eq!(
        Square::MiddleMiddle.get_bitboard_square(&Side::X),
        BitboardSquare::MiddleMiddleX
    );
    assert_eq!(
        Square::MiddleMiddle.get_bitboard_square(&Side::O),
        BitboardSquare::MiddleMiddleO
    );
}

#[test]
fn switch_flips_the_side() {
    let mut side = Side::X;
    side.switch();
    assert_eq!(side, Side::O);
    side.switch();
    assert_eq!(side, Side::X);
}
