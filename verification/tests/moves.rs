use tetris::colors::Color;
use tetris::moves::{draw_game_over_brick, is_game_over, move_bottom, move_left, move_right};
use tetris::tetromino::{Brick, Tetromino};
use tetris::types::Matrix;

#[test]
fn test_game_over_i() {
    let moving_brick = Some(Brick::new(Color::from_rgb(1000, 1000, 0), false));
    let shape = Tetromino::create_i();

    let game_space: Matrix = vec![
        vec![
            None,
            None,
            None,
            moving_brick,
            moving_brick,
            moving_brick,
            moving_brick,
            None,
            None,
            None,
        ],
        vec![
            None,
            None,
            None,
            moving_brick,
            moving_brick,
            moving_brick,
            moving_brick,
            None,
            None,
            None,
        ],
        vec![None; 10],
    ];

    let (game_over, rows_to_render) = is_game_over(&game_space, &shape);

    assert_eq!(game_over, true);
    assert_eq!(rows_to_render, 0);
}

#[test]
fn test_game_over_o() {
    let moving_brick = Some(Brick::new(Color::from_rgb(1000, 1000, 0), false));
    let shape = Tetromino::create_o();

    let game_space: Matrix = vec![
        vec![None; 10],
        vec![
            None,
            None,
            None,
            moving_brick,
            moving_brick,
            moving_brick,
            moving_brick,
            None,
            None,
            None,
        ],
        vec![
            None,
            None,
            None,
            moving_brick,
            moving_brick,
            moving_brick,
            moving_brick,
            None,
            None,
            None,
        ],
    ];

    let (game_over, rows_to_render) = is_game_over(&game_space, &shape);

    assert_eq!(game_over, true);
    assert_eq!(rows_to_render, 1);
}

#[test]
fn test_game_over_l() {
    let moving_brick = Some(Brick::new(Color::from_rgb(1000, 1000, 0), false));
    let shape = Tetromino::create_l();

    let game_space: Matrix = vec![
        vec![None; 10],
        vec![None; 10],
        vec![
            None,
            moving_brick,
            moving_brick,
            moving_brick,
            moving_brick,
            moving_brick,
            moving_brick,
            None,
            None,
            None,
        ],
        vec![
            None,
            moving_brick,
            moving_brick,
            moving_brick,
            moving_brick,
            moving_brick,
            moving_brick,
            None,
            None,
            None,
        ],
        vec![None; 10],
    ];

    let (game_over, rows_to_render) = is_game_over(&game_space, &shape);

    assert_eq!(game_over, true);
    assert_eq!(rows_to_render, 2);
}

#[test]
fn test_game_over_z() {
    let moving_brick = Some(Brick::new(Color::from_rgb(1000, 1000, 0), false));
    let shape = Tetromino::create_z();

    let game_space: Matrix = vec![
        vec![None; 10],
        vec![None; 10],
        vec![
            None,
            None,
            moving_brick,
            None,
            None,
            None,
            None,
            None,
            None,
            None,
        ],
        vec![None; 10],
        vec![None; 10],
    ];

    let (game_over, rows_to_render) = is_game_over(&game_space, &shape);

    assert_eq!(game_over, false);
    assert_eq!(rows_to_render, 2);
}

#[test]
fn test_empty_game_space() {
    let mut game_space: Matrix = vec![vec![None; 10], vec![None; 10], vec![None; 10]];

    move_left(&mut game_space);

    let expected_game_space: Matrix = vec![vec![None; 10], vec![None; 10], vec![None; 10]];

    assert_eq!(game_space, expected_game_space);
}

#[test]
fn test_left_only_non_moving_bricks() {
    let non_moving_brick = Some(Brick::new(Color::from_rgb(1000, 1000, 0), false));

    let mut game_space: Matrix = vec![
        vec![None; 10],
        vec![
            None,
            None,
            non_moving_brick,
            None,
            None,
            None,
            None,
            None,
            None,
            None,
        ],
        vec![
            None,
            non_moving_brick,
            non_moving_brick,
            non_moving_brick,
            None,
            None,
            None,
            None,
            None,
            None,
        ],
        vec![None; 10],
    ];

    move_left(&mut game_space);

    let expected_game_space: Matrix = vec![
        vec![None; 10],
        vec![
            None,
            None,
            non_moving_brick,
            None,
            None,
            None,
            None,
            None,
            None,
            None,
        ],
        vec![
            None,
            non_moving_brick,
            non_moving_brick,
            non_moving_brick,
            None,
            None,
            None,
            None,
            None,
            None,
        ],
        vec![None; 10],
    ];

    assert_eq!(game_space, expected_game_space);
}

#[test]
fn test_left_moving_bricks() {
    let brick = Some(Brick::new(Color::from_rgb(1000, 1000, 0), true));

    let mut game_space: Matrix = vec![
        vec![None; 10],
        vec![None, None, brick, None, None, None, None, None, None, None],
        vec![
            None, None, brick, brick, brick, None, None, None, None, None,
        ],
        vec![None; 10],
    ];

    move_left(&mut game_space);

    let expected_game_space: Matrix = vec![
        vec![None; 10],
        vec![None, brick, None, None, None, None, None, None, None, None],
        vec![
            None, brick, brick, brick, None, None, None, None, None, None,
        ],
        vec![None; 10],
    ];

    assert_eq!(game_space, expected_game_space);
}

#[test]
fn test_left_collision_case() {
    let brick = Some(Brick::new(Color::from_rgb(1000, 1000, 0), true));
    let non_moving_brick = Some(Brick::new(Color::from_rgb(1000, 1000, 0), false));

    let mut game_space: Matrix = vec![
        vec![None; 10],
        vec![
            None,
            non_moving_brick,
            brick,
            None,
            None,
            None,
            None,
            None,
            None,
            None,
        ],
        vec![None, None, brick, brick, None, None, None, None, None, None],
        vec![None; 10],
    ];

    move_left(&mut game_space);

    let expected_game_space: Matrix = vec![
        vec![None; 10],
        vec![
            None,
            non_moving_brick,
            brick,
            None,
            None,
            None,
            None,
            None,
            None,
            None,
        ],
        vec![None, None, brick, brick, None, None, None, None, None, None],
        vec![None; 10],
    ];

    assert_eq!(game_space, expected_game_space);
}

#[test]
fn test_right_moving_bricks() {
    let brick = Some(Brick::new(Color::from_rgb(1000, 1000, 0), true));
    let non_moving_brick = Some(Brick::new(Color::from_rgb(1000, 1000, 0), false));

    let mut game_space: Matrix = vec![
        vec![None; 10],
        vec![None, brick, None, None, None, None, None, None, None, None],
        vec![
            None, brick, brick, brick, None, None, None, None, None, None,
        ],
        vec![None; 10],
        vec![
            non_moving_brick,
            non_moving_brick,
            None,
            None,
            None,
            None,
            None,
            None,
            None,
            None,
        ],
        vec![
            non_moving_brick,
            non_moving_brick,
            None,
            None,
            None,
            None,
            None,
            None,
            None,
            None,
        ],
    ];

    move_right(&mut game_space);

    let expected_game_space: Matrix = vec![
        vec![None; 10],
        vec![None, None, brick, None, None, None, None, None, None, None],
        vec![
            None, None, brick, brick, brick, None, None, None, None, None,
        ],
        vec![None; 10],
        vec![
            non_moving_brick,
            non_moving_brick,
            None,
            None,
            None,
            None,
            None,
            None,
            None,
            None,
        ],
        vec![
            non_moving_brick,
            non_moving_brick,
            None,
            None,
            None,
            None,
            None,
            None,
            None,
            None,
        ],
    ];

    assert_eq!(game_space, expected_game_space);

    move_right(&mut game_space);

    let expected_game_space: Matrix = vec![
        vec![None; 10],
        vec![None, None, None, brick, None, None, None, None, None, None],
        vec![
            None, None, None, brick, brick, brick, None, None, None, None,
        ],
        vec![None; 10],
        vec![
            non_moving_brick,
            non_moving_brick,
            None,
            None,
            None,
            None,
            None,
            None,
            None,
            None,
        ],
        vec![
            non_moving_brick,
            non_moving_brick,
            None,
            None,
            None,
            None,
            None,
            None,
            None,
            None,
        ],
    ];

    assert_eq!(game_space, expected_game_space);
}

#[test]
fn test_right_collision_case() {
    let brick = Some(Brick::new(Color::from_rgb(1000, 1000, 0), true));
    let non_moving_brick = Some(Brick::new(Color::from_rgb(1000, 1000, 0), false));

    let mut game_space: Matrix = vec![
        vec![None; 10],
        vec![
            None,
            None,
            brick,
            non_moving_brick,
            None,
            None,
            None,
            None,
            None,
            None,
        ],
        vec![None, None, brick, brick, None, None, None, None, None, None],
        vec![None; 10],
    ];

    move_right(&mut game_space);

    let expected_game_space: Matrix = vec![
        vec![None; 10],
        vec![
            None,
            None,
            brick,
            non_moving_brick,
            None,
            None,
            None,
            None,
            None,
            None,
        ],
        vec![None, None, brick, brick, None, None, None, None, None, None],
        vec![None; 10],
    ];

    assert_eq!(game_space, expected_game_space);
}

#[test]
fn test_bottom_collision_case() {
    let brick = Some(Brick::new(Color::from_rgb(1000, 1000, 0), true));
    let non_moving_brick = Some(Brick::new(Color::from_rgb(1000, 1000, 0), false));

    let mut game_space: Matrix = vec![
        vec![None; 10],
        vec![
            None,
            None,
            brick,
            non_moving_brick,
            None,
            None,
            None,
            None,
            None,
            None,
        ],
        vec![None, None, brick, brick, None, None, None, None, None, None],
        vec![
            None,
            non_moving_brick,
            non_moving_brick,
            non_moving_brick,
            None,
            None,
            None,
            None,
            None,
            None,
        ],
        vec![None; 10],
    ];

    move_right(&mut game_space);

    let expected_game_space: Matrix = vec![
        vec![None; 10],
        vec![
            None,
            None,
            brick,
            non_moving_brick,
            None,
            None,
            None,
            None,
            None,
            None,
        ],
        vec![None, None, brick, brick, None, None, None, None, None, None],
        vec![
            None,
            non_moving_brick,
            non_moving_brick,
            non_moving_brick,
            None,
            None,
            None,
            None,
            None,
            None,
        ],
        vec![None; 10],
    ];

    assert_eq!(game_space, expected_game_space);
}

#[test]
fn test_bottom_moving_bricks() {
    let brick = Some(Brick::new(Color::from_rgb(1000, 1000, 0), true));

    let mut game_space: Matrix = vec![
        vec![None; 10],
        vec![None, brick, None, None, None, None, None, None, None, None],
        vec![
            None, brick, brick, brick, None, None, None, None, None, None,
        ],
        vec![None; 10],
    ];

    move_bottom(&mut game_space);

    let expected_game_space: Matrix = vec![
        vec![None; 10],
        vec![None; 10],
        vec![None, brick, None, None, None, None, None, None, None, None],
        vec![
            None, brick, brick, brick, None, None, None, None, None, None,
        ],
    ];

    assert_eq!(game_space, expected_game_space);
}

#[test]
fn test_draw_game_over_brick_1() {
    let moving_brick = Some(Brick::new(Color::from_rgb(1000, 1000, 0), false));
    let shape = Tetromino::create_i();

    let mut game_space: Matrix = vec![vec![
        None,
        moving_brick,
        moving_brick,
        moving_brick,
        moving_brick,
        moving_brick,
        moving_brick,
        None,
        None,
        None,
    ]];

    draw_game_over_brick(&mut game_space, 5, 0, &shape);

    let expected_game_space: Matrix = vec![vec![
        None,
        moving_brick,
        moving_brick,
        moving_brick,
        moving_brick,
        moving_brick,
        moving_brick,
        None,
        None,
        None,
    ]];

    assert_eq!(game_space, expected_game_space);
}
