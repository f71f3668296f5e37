use tetris::colors::Color;
use tetris::moves::{draw_game_over_brick, is_game_over, move_bottom, move_left, move_right};
use tetris::tetromino::{Brick, Kind, Tetromino};
use tetris::types::Matrix;

fn falling() -> Option<Brick> {
    Some(Brick::new(Color::from_rgb(1000, 1000, 0), true))
}

fn settled() -> Option<Brick> {
    Some(Brick::new(Color::from_rgb(1000, 1000, 0), false))
}

fn grid(rows: usize, bricks: &[(usize, usize, Option<Brick>)]) -> Matrix {
    let mut game_space: Matrix = vec![vec![None; 10]; rows];
    for &(r, c, brick) in bricks {
        game_space[r][c] = brick;
    }
    game_space
}

fn o_piece_at(row: usize, col: usize) -> Vec<(usize, usize, Option<Brick>)> {
    vec![
        (row, col, falling()),
        (row, col + 1, falling()),
        (row + 1, col, falling()),
        (row + 1, col + 1, falling()),
    ]
}

#[test]
fn test_move_left_o_piece() {
    let mut game_space = grid(3, &o_piece_at(1, 4));

    move_left(&mut game_space);

    assert_eq!(game_space, grid(3, &o_piece_at(1, 3)));
}

#[test]
fn test_move_left_o_piece_rejected() {
    let mut bricks = o_piece_at(1, 4);
    bricks.push((1, 3, settled()));
    let mut game_space = grid(3, &bricks);
    let expected = game_space.clone();

    move_left(&mut game_space);

    assert_eq!(game_space, expected);
}

#[test]
fn test_move_left_rejected_at_the_edge() {
    let mut game_space = grid(3, &o_piece_at(0, 0));
    let expected = game_space.clone();

    move_left(&mut game_space);

    assert_eq!(game_space, expected);
}

#[test]
fn test_move_right_o_piece() {
    let mut game_space = grid(3, &o_piece_at(1, 4));

    move_right(&mut game_space);

    assert_eq!(game_space, grid(3, &o_piece_at(1, 5)));
}

#[test]
fn test_move_right_rejected_at_the_edge() {
    let mut game_space = grid(3, &o_piece_at(1, 8));
    let expected = game_space.clone();

    move_right(&mut game_space);

    assert_eq!(game_space, expected);
}

#[test]
fn test_move_right_rejected_when_one_brick_is_blocked() {
    let mut bricks = o_piece_at(0, 4);
    bricks.push((1, 6, settled()));
    let mut game_space = grid(3, &bricks);
    let expected = game_space.clone();

    move_right(&mut game_space);

    assert_eq!(game_space, expected);
}

#[test]
fn test_move_right_without_falling_piece() {
    let mut game_space = grid(3, &[(2, 9, settled()), (2, 0, settled())]);
    let expected = game_space.clone();

    move_right(&mut game_space);

    assert_eq!(game_space, expected);
}

#[test]
fn test_move_keeps_each_colour() {
    let red = Some(Brick::new(Color::from_rgb(1000, 0, 0), true));
    let blue = Some(Brick::new(Color::from_rgb(0, 0, 1000), true));
    let mut game_space = grid(2, &[(0, 3, red), (0, 4, blue)]);

    move_left(&mut game_space);
    assert_eq!(game_space, grid(2, &[(0, 2, red), (0, 3, blue)]));

    move_right(&mut game_space);
    move_right(&mut game_space);
    assert_eq!(game_space, grid(2, &[(0, 4, red), (0, 5, blue)]));

    assert!(move_bottom(&mut game_space));
    assert_eq!(game_space, grid(2, &[(1, 4, red), (1, 5, blue)]));
}

#[test]
fn test_move_bottom_returns_true_and_moves() {
    let mut game_space = grid(4, &o_piece_at(0, 4));

    assert!(move_bottom(&mut game_space));

    assert_eq!(game_space, grid(4, &o_piece_at(1, 4)));
}

#[test]
fn test_move_bottom_locks_at_the_floor() {
    let mut game_space = grid(3, &o_piece_at(1, 4));

    assert!(!move_bottom(&mut game_space));

    let expected = grid(
        3,
        &[(1, 4, settled()), (1, 5, settled()), (2, 4, settled()), (2, 5, settled())],
    );
    assert_eq!(game_space, expected);
}

#[test]
fn test_move_bottom_locks_on_a_brick_at_rest() {
    let mut bricks = o_piece_at(0, 4);
    bricks.push((2, 5, settled()));
    let mut game_space = grid(4, &bricks);

    assert!(!move_bottom(&mut game_space));

    let expected = grid(
        4,
        &[
            (0, 4, settled()),
            (0, 5, settled()),
            (1, 4, settled()),
            (1, 5, settled()),
            (2, 5, settled()),
        ],
    );
    assert_eq!(game_space, expected);
}

#[test]
fn test_move_bottom_without_falling_piece() {
    let mut game_space = grid(3, &[(2, 1, settled())]);
    let expected = game_space.clone();

    assert!(move_bottom(&mut game_space));

    assert_eq!(game_space, expected);
}

#[test]
fn test_game_over_empty_grid() {
    let game_space = grid(4, &[]);
    assert_eq!(is_game_over(&game_space, &Tetromino::create_i()), (false, 4));
    assert_eq!(is_game_over(&game_space, &Tetromino::create_o()), (false, 2));
    assert_eq!(is_game_over(&game_space, &Tetromino::create_t()), (false, 2));
    assert_eq!(is_game_over(&game_space, &Tetromino::create_l()), (false, 3));
}

#[test]
fn test_game_over_brick_beside_the_piece() {
    let game_space = grid(4, &[(0, 4, settled()), (1, 6, settled()), (2, 3, settled())]);
    assert_eq!(is_game_over(&game_space, &Tetromino::create_i()), (false, 4));
}

#[test]
fn test_game_over_only_bricks_at_rest_collide() {
    let game_space = grid(4, &[(0, 5, falling())]);
    assert_eq!(is_game_over(&game_space, &Tetromino::create_i()), (false, 4));
    let game_space = grid(4, &[(0, 5, settled())]);
    assert_eq!(is_game_over(&game_space, &Tetromino::create_i()), (true, 0));
}

#[test]
fn test_game_over_s_second_row() {
    let game_space = grid(4, &[(1, 4, settled())]);
    assert_eq!(is_game_over(&game_space, &Tetromino::create_s()), (true, 1));
}

#[test]
fn test_draw_game_over_brick_last_row_of_s() {
    let mut game_space = grid(3, &[(1, 4, settled())]);

    draw_game_over_brick(&mut game_space, 4, 1, &Tetromino::create_s());

    let b = Some(Brick::new(Kind::S.color(), false));
    let expected = grid(3, &[(0, 4, b), (0, 5, b), (1, 4, settled())]);
    assert_eq!(game_space, expected);
}

#[test]
fn test_draw_game_over_brick_two_rows_of_l() {
    let mut game_space = grid(4, &[(2, 5, settled())]);

    draw_game_over_brick(&mut game_space, 4, 2, &Tetromino::create_l());

    let b = Some(Brick::new(Kind::L.color(), false));
    let expected = grid(4, &[(0, 5, b), (1, 5, b), (1, 6, b), (2, 5, settled())]);
    assert_eq!(game_space, expected);
}

#[test]
fn test_draw_game_over_brick_writes_over_bricks() {
    let mut game_space = grid(2, &[(0, 4, falling()), (0, 5, settled())]);

    draw_game_over_brick(&mut game_space, 4, 1, &Tetromino::create_o());

    let b = Some(Brick::new(Kind::O.color(), false));
    let expected = grid(2, &[(0, 4, b), (0, 5, b)]);
    assert_eq!(game_space, expected);
}

#[test]
fn test_draw_game_over_brick_skips_rows_without_bricks() {
    let mut game_space = grid(3, &[]);

    draw_game_over_brick(&mut game_space, 0, 3, &Tetromino::create_t());

    let b = Some(Brick::new(Kind::T.color(), false));
    let expected = grid(3, &[(0, 0, b), (0, 1, b), (0, 2, b), (1, 1, b)]);
    assert_eq!(game_space, expected);
}
