use tetris::colors::Color;
use tetris::tetromino::{Brick, Tetromino};
use tetris::types::Matrix;
use tetris::utils::{rotate_clockwise, rotate_counterclockwise, turn_clockwise, turn_counterclockwise};

fn brick(n: u16) -> Option<Brick> {
    Some(Brick::new(Color::from_rgb(n, 0, 0), false))
}

#[test]
fn test_turn_clockwise_moves_each_cell() {
    let matrix: Matrix = vec![
        vec![brick(1), brick(2), brick(3)],
        vec![brick(4), None, brick(6)],
        vec![brick(7), brick(8), brick(9)],
    ];
    let expected: Matrix = vec![
        vec![brick(7), brick(4), brick(1)],
        vec![brick(8), None, brick(2)],
        vec![brick(9), brick(6), brick(3)],
    ];
    assert_eq!(turn_clockwise(&matrix), expected);
}

#[test]
fn test_turn_counterclockwise_moves_each_cell() {
    let matrix: Matrix = vec![
        vec![brick(1), brick(2), brick(3)],
        vec![brick(4), None, brick(6)],
        vec![brick(7), brick(8), brick(9)],
    ];
    let expected: Matrix = vec![
        vec![brick(3), brick(6), brick(9)],
        vec![brick(2), None, brick(8)],
        vec![brick(1), brick(4), brick(7)],
    ];
    assert_eq!(turn_counterclockwise(&matrix), expected);
}

#[test]
fn test_rotate_clockwise_l_piece() {
    let mut shape = Tetromino::create_l();
    let b = shape.matrix[0][1];
    let e = None;
    rotate_clockwise(&mut shape);
    let expected: Matrix = vec![vec![e, e, e], vec![b, b, b], vec![b, e, e]];
    assert_eq!(shape.matrix, expected);
}

#[test]
fn test_rotate_counterclockwise_l_piece() {
    let mut shape = Tetromino::create_l();
    let b = shape.matrix[0][1];
    let e = None;
    rotate_counterclockwise(&mut shape);
    let expected: Matrix = vec![vec![e, e, b], vec![b, b, b], vec![e, e, e]];
    assert_eq!(shape.matrix, expected);
}

#[test]
fn test_rotate_clockwise_i_piece() {
    let mut shape = Tetromino::create_i();
    let b = shape.matrix[0][1];
    let e = None;
    rotate_clockwise(&mut shape);
    let expected: Matrix =
        vec![vec![e, e, e, e], vec![b, b, b, b], vec![e, e, e, e], vec![e, e, e, e]];
    assert_eq!(shape.matrix, expected);
}

fn all_pieces() -> Vec<Tetromino> {
    vec![
        Tetromino::create_o(),
        Tetromino::create_i(),
        Tetromino::create_s(),
        Tetromino::create_z(),
        Tetromino::create_t(),
        Tetromino::create_l(),
        Tetromino::create_j(),
    ]
}

#[test]
fn test_four_clockwise_turns_give_the_piece_back() {
    for start in all_pieces() {
        let mut shape = start.clone();
        for _ in 0..4 {
            rotate_clockwise(&mut shape);
        }
        assert_eq!(shape, start);
    }
}

#[test]
fn test_four_counterclockwise_turns_give_the_piece_back() {
    for start in all_pieces() {
        let mut shape = start.clone();
        for _ in 0..4 {
            rotate_counterclockwise(&mut shape);
        }
        assert_eq!(shape, start);
    }
}

#[test]
fn test_turn_and_turn_back_give_the_piece_back() {
    for start in all_pieces() {
        let mut shape = start.clone();
        rotate_clockwise(&mut shape);
        rotate_counterclockwise(&mut shape);
        assert_eq!(shape, start);
        rotate_counterclockwise(&mut shape);
        rotate_clockwise(&mut shape);
        assert_eq!(shape, start);
    }
}

#[test]
fn test_turn_of_an_empty_square() {
    let matrix: Matrix = Vec::new();
    assert_eq!(turn_clockwise(&matrix), matrix);
    assert_eq!(turn_counterclockwise(&matrix), matrix);
}
