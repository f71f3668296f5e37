use tetris::colors::Color;
use tetris::tetromino::{Brick, Kind, Tetromino};
use tetris::types::{copy_matrix, new_matrix, new_row, Matrix};

fn falling(kind: Kind) -> Option<Brick> {
    Some(Brick::new(kind.color(), true))
}

#[test]
fn test_kind_colours() {
    assert_eq!(Kind::O.color(), Color::from_rgb(1000, 1000, 0));
    assert_eq!(Kind::I.color(), Color::from_rgb(0, 1000, 1000));
    assert_eq!(Kind::S.color(), Color::from_rgb(0, 1000, 0));
    assert_eq!(Kind::Z.color(), Color::from_rgb(1000, 0, 0));
    assert_eq!(Kind::T.color(), Color::from_rgb(500, 0, 500));
    assert_eq!(Kind::L.color(), Color::from_rgb(1000, 500, 0));
    assert_eq!(Kind::J.color(), Color::from_rgb(0, 0, 1000));
}

#[test]
fn test_color_from_rgb_keeps_each_part() {
    let color = Color::from_rgb(1, 2, 3);
    assert_eq!(color.r, 1);
    assert_eq!(color.g, 2);
    assert_eq!(color.b, 3);
}

#[test]
fn test_brick_new_keeps_its_parts() {
    let brick = Brick::new(Color::from_rgb(9, 8, 7), true);
    assert_eq!(brick.color, Color::from_rgb(9, 8, 7));
    assert!(brick.moving);
}

#[test]
fn test_create_by_kind() {
    assert_eq!(Tetromino::create(Kind::O), Tetromino::create_o());
    assert_eq!(Tetromino::create(Kind::I), Tetromino::create_i());
    assert_eq!(Tetromino::create(Kind::S), Tetromino::create_s());
    assert_eq!(Tetromino::create(Kind::Z), Tetromino::create_z());
    assert_eq!(Tetromino::create(Kind::T), Tetromino::create_t());
    assert_eq!(Tetromino::create(Kind::L), Tetromino::create_l());
    assert_eq!(Tetromino::create(Kind::J), Tetromino::create_j());
}

#[test]
fn test_catalogue_shapes() {
    let e: Option<Brick> = None;
    let b = Some(Brick::new(Kind::O.color(), false));
    assert_eq!(Tetromino::create_o().matrix, vec![vec![b, b], vec![b, b]]);
    let b = Some(Brick::new(Kind::I.color(), false));
    assert_eq!(
        Tetromino::create_i().matrix,
        vec![vec![e, b, e, e], vec![e, b, e, e], vec![e, b, e, e], vec![e, b, e, e]]
    );
    let b = Some(Brick::new(Kind::S.color(), false));
    assert_eq!(Tetromino::create_s().matrix, vec![vec![e, e, e], vec![e, b, b], vec![b, b, e]]);
    let b = Some(Brick::new(Kind::Z.color(), false));
    assert_eq!(Tetromino::create_z().matrix, vec![vec![e, e, e], vec![b, b, e], vec![e, b, b]]);
    let b = Some(Brick::new(Kind::T.color(), false));
    assert_eq!(Tetromino::create_t().matrix, vec![vec![e, e, e], vec![b, b, b], vec![e, b, e]]);
    let b = Some(Brick::new(Kind::L.color(), false));
    assert_eq!(Tetromino::create_l().matrix, vec![vec![e, b, e], vec![e, b, e], vec![e, b, b]]);
    let b = Some(Brick::new(Kind::J.color(), false));
    assert_eq!(Tetromino::create_j().matrix, vec![vec![e, b, e], vec![e, b, e], vec![b, b, e]]);
}

#[test]
fn test_clone_copies_the_cells() {
    let piece = Tetromino::create_t();
    let copy = piece.clone();
    assert_eq!(copy, piece);
    assert_eq!(copy.matrix.len(), 3);
}

#[test]
fn test_new_keeps_the_matrix() {
    let matrix: Matrix = vec![vec![None, falling(Kind::O)], vec![None, None]];
    let piece = Tetromino::new(matrix.clone());
    assert_eq!(piece.matrix, matrix);
}

#[test]
fn test_set_default_position_o() {
    let mut game_space: Matrix = vec![vec![None; 10]; 4];
    let mut piece = Tetromino::create_o();

    piece.set_default_position(&mut game_space);

    let b = falling(Kind::O);
    let mut expected: Matrix = vec![vec![None; 10]; 4];
    expected[0][4] = b;
    expected[0][5] = b;
    expected[1][4] = b;
    expected[1][5] = b;
    assert_eq!(game_space, expected);
    assert_eq!(piece, Tetromino::create_o());
}

#[test]
fn test_set_default_position_skips_rows_without_bricks() {
    let mut game_space: Matrix = vec![vec![None; 10]; 4];
    let mut piece = Tetromino::create_s();

    piece.set_default_position(&mut game_space);

    let b = falling(Kind::S);
    let mut expected: Matrix = vec![vec![None; 10]; 4];
    expected[0][5] = b;
    expected[0][6] = b;
    expected[1][4] = b;
    expected[1][5] = b;
    assert_eq!(game_space, expected);
}

#[test]
fn test_set_default_position_i() {
    let mut game_space: Matrix = vec![vec![None; 10]; 5];
    let mut piece = Tetromino::create_i();

    piece.set_default_position(&mut game_space);

    let b = falling(Kind::I);
    let mut expected: Matrix = vec![vec![None; 10]; 5];
    for r in 0..4 {
        expected[r][5] = b;
    }
    assert_eq!(game_space, expected);
}

#[test]
fn test_set_default_position_leaves_out_what_is_outside() {
    let mut game_space: Matrix = vec![vec![None; 10]; 2];
    let mut piece = Tetromino::create_i();

    piece.set_default_position(&mut game_space);

    let b = falling(Kind::I);
    let mut expected: Matrix = vec![vec![None; 10]; 2];
    expected[0][5] = b;
    expected[1][5] = b;
    assert_eq!(game_space, expected);
}

#[test]
fn test_set_default_position_on_a_narrow_grid() {
    let mut game_space: Matrix = vec![vec![None; 2]; 3];
    let mut piece = Tetromino::create_t();

    piece.set_default_position(&mut game_space);

    let b = falling(Kind::T);
    let expected: Matrix = vec![vec![b, b], vec![None, b], vec![None, None]];
    assert_eq!(game_space, expected);
}

#[test]
fn test_set_default_position_keeps_other_cells() {
    let settled = Some(Brick::new(Color::from_rgb(1, 1, 1), false));
    let mut game_space: Matrix = vec![vec![None; 10]; 4];
    game_space[3][0] = settled;
    game_space[0][0] = settled;
    let mut piece = Tetromino::create_j();

    piece.set_default_position(&mut game_space);

    let b = falling(Kind::J);
    let mut expected: Matrix = vec![vec![None; 10]; 4];
    expected[3][0] = settled;
    expected[0][0] = settled;
    expected[0][5] = b;
    expected[1][5] = b;
    expected[2][4] = b;
    expected[2][5] = b;
    assert_eq!(game_space, expected);
}

#[test]
fn test_new_row_and_new_matrix_are_empty() {
    assert_eq!(new_row(3), vec![None, None, None]);
    assert_eq!(new_row(0), Vec::<Option<Brick>>::new());
    let expected: Matrix = vec![vec![None; 4]; 2];
    assert_eq!(new_matrix(2, 4), expected);
    assert_eq!(new_matrix(0, 4), Matrix::new());
}

#[test]
fn test_copy_matrix() {
    let matrix: Matrix = vec![vec![None, falling(Kind::L)], vec![falling(Kind::J)], vec![]];
    assert_eq!(copy_matrix(&matrix), matrix);
}
