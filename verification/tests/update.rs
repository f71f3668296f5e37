use tetris::bag::Bag;
use tetris::colors::Color;
use tetris::enums::Direction;
use tetris::state::State;
use tetris::tetromino::{Brick, Kind, Tetromino};
use tetris::types::{Matrix, TimeLocal};
use tetris::update::{update, update_with, Message};

fn fresh() -> Vec<Kind> {
    vec![Kind::O, Kind::I, Kind::S, Kind::Z, Kind::T, Kind::L, Kind::J]
}

fn settled() -> Option<Brick> {
    Some(Brick::new(Color::from_rgb(1, 2, 3), false))
}

fn falling(kind: Kind) -> Option<Brick> {
    Some(Brick::new(kind.color(), true))
}

fn at_rest(kind: Kind) -> Option<Brick> {
    Some(Brick::new(kind.color(), false))
}

fn grid(bricks: &[(usize, usize, Option<Brick>)]) -> Matrix {
    let mut game_space: Matrix = vec![vec![None; 10]; 20];
    for &(r, c, brick) in bricks {
        game_space[r][c] = brick;
    }
    game_space
}

fn j_spawned() -> Vec<(usize, usize, Option<Brick>)> {
    let b = falling(Kind::J);
    vec![(0, 5, b), (1, 5, b), (2, 4, b), (2, 5, b)]
}

fn initialized() -> State {
    let mut state = State::new();
    update_with(&mut state, Message::Initialize, &fresh());
    state
}

fn running(game_space: Matrix, bag: &[Kind]) -> State {
    let mut state = State::new();
    state.game_space = game_space;
    state.bag = Bag::from_kinds(&bag.to_vec());
    state.is_running = true;
    state
}

#[test]
fn test_new_state_is_blank_and_paused() {
    let state = State::new();
    assert_eq!(state.bag.items.len(), 7);
    assert!(state.game_space.is_empty());
    assert_eq!(state.tick_rate_ms, 800);
    assert_eq!(state.level, 0);
    assert_eq!(state.rows_cleared, 0);
    assert_eq!(state.score, 0);
    assert!(!state.is_running);
    assert!(!state.game_over);
    assert_eq!(state.now, TimeLocal { secs: 0, nanos: 0 });
}

#[test]
fn test_initialize() {
    let state = initialized();

    assert_eq!(state.game_space, grid(&j_spawned()));
    assert_eq!(state.bag.items.len(), 6);
    assert_eq!(state.bag.peek_next(), Tetromino::create_l());
    assert_eq!(state.next_item, Tetromino::create_l());
    assert_eq!(state.score, 0);
    assert_eq!(state.level, 0);
    assert_eq!(state.rows_cleared, 0);
    assert_eq!(state.tick_rate_ms, 800);
    assert!(!state.is_running);
    assert!(!state.game_over);
}

#[test]
fn test_initialize_resets_a_game_in_progress() {
    let mut state = running(grid(&[(19, 0, settled())]), &[Kind::T]);
    state.score = 900;
    state.rows_cleared = 31;
    state.level = 3;
    state.tick_rate_ms = 550;
    state.game_over = true;

    update_with(&mut state, Message::Initialize, &fresh());

    assert_eq!(state.game_space, grid(&j_spawned()));
    assert_eq!(state.bag.items.len(), 6);
    assert_eq!(state.score, 0);
    assert_eq!(state.rows_cleared, 0);
    assert_eq!(state.level, 0);
    assert_eq!(state.tick_rate_ms, 800);
    assert!(!state.is_running);
    assert!(!state.game_over);
}

#[test]
fn test_initialize_with_random_bag() {
    let mut state = State::new();
    update(&mut state, Message::Initialize);

    assert_eq!(state.game_space.len(), 20);
    assert!(state.game_space.iter().all(|row| row.len() == 10));
    assert_eq!(state.bag.items.len(), 6);
    assert_eq!(state.next_item, state.bag.peek_next());
    let bricks = state.game_space.iter().flatten().filter(|cell| cell.is_some()).count();
    assert_eq!(bricks, 4);
    assert!(state.game_space.iter().flatten().flatten().all(|brick| brick.moving));
    assert!(!state.is_running);
}

#[test]
fn test_toggle_pause_flips_running() {
    let mut state = initialized();
    let game_space = state.game_space.clone();

    update_with(&mut state, Message::TogglePause, &fresh());
    assert!(state.is_running);
    assert_eq!(state.game_space, game_space);
    assert_eq!(state.bag.items.len(), 6);

    update_with(&mut state, Message::TogglePause, &fresh());
    assert!(!state.is_running);
    assert_eq!(state.game_space, game_space);
}

#[test]
fn test_commands_do_nothing_while_paused() {
    let mut state = initialized();
    let game_space = state.game_space.clone();

    update_with(&mut state, Message::Move(Direction::Left), &fresh());
    update_with(&mut state, Message::Move(Direction::Right), &fresh());
    update_with(&mut state, Message::Move(Direction::Bottom), &fresh());
    update_with(&mut state, Message::RotateClockwise, &fresh());
    update_with(&mut state, Message::Rotate, &fresh());

    assert_eq!(state.game_space, game_space);
    assert_eq!(state.bag.items.len(), 6);
    assert!(!state.is_running);
}

#[test]
fn test_tick_while_paused_only_sets_the_clock() {
    let mut state = initialized();
    let game_space = state.game_space.clone();
    let instant = TimeLocal { secs: 5, nanos: 1 };

    update_with(&mut state, Message::Tick(instant), &fresh());

    assert_eq!(state.now, instant);
    assert_eq!(state.game_space, game_space);
}

#[test]
fn test_moves_while_running() {
    let mut state = initialized();
    update_with(&mut state, Message::TogglePause, &fresh());
    let b = falling(Kind::J);

    update_with(&mut state, Message::Move(Direction::Left), &fresh());
    assert_eq!(state.game_space, grid(&[(0, 4, b), (1, 4, b), (2, 3, b), (2, 4, b)]));

    update_with(&mut state, Message::Move(Direction::Right), &fresh());
    update_with(&mut state, Message::Move(Direction::Right), &fresh());
    assert_eq!(state.game_space, grid(&[(0, 6, b), (1, 6, b), (2, 5, b), (2, 6, b)]));

    update_with(&mut state, Message::Move(Direction::Bottom), &fresh());
    assert_eq!(state.game_space, grid(&[(1, 6, b), (2, 6, b), (3, 5, b), (3, 6, b)]));
    assert_eq!(state.bag.items.len(), 6);
    assert!(state.is_running);
}

#[test]
fn test_rotations_while_running() {
    let mut state = initialized();
    update_with(&mut state, Message::TogglePause, &fresh());
    let b = falling(Kind::J);

    update_with(&mut state, Message::RotateClockwise, &fresh());
    assert_eq!(state.game_space, grid(&[(0, 4, b), (1, 4, b), (1, 5, b), (1, 6, b)]));

    update_with(&mut state, Message::Rotate, &fresh());
    assert_eq!(state.game_space, grid(&[(0, 5, b), (1, 5, b), (2, 4, b), (2, 5, b)]));
}

#[test]
fn test_tick_moves_down_once_per_instant() {
    let mut state = initialized();
    update_with(&mut state, Message::TogglePause, &fresh());
    let b = falling(Kind::J);
    let instant = TimeLocal { secs: 10, nanos: 0 };

    update_with(&mut state, Message::Tick(instant), &fresh());
    let moved = grid(&[(1, 5, b), (2, 5, b), (3, 4, b), (3, 5, b)]);
    assert_eq!(state.game_space, moved);
    assert_eq!(state.now, instant);

    update_with(&mut state, Message::Tick(instant), &fresh());
    assert_eq!(state.game_space, moved);

    update_with(&mut state, Message::Tick(TimeLocal { secs: 10, nanos: 1 }), &fresh());
    assert_eq!(state.game_space, grid(&[(2, 5, b), (3, 5, b), (4, 4, b), (4, 5, b)]));
}

#[test]
fn test_tick_at_the_first_instant_is_not_new() {
    let mut state = initialized();
    update_with(&mut state, Message::TogglePause, &fresh());
    let game_space = state.game_space.clone();

    update_with(&mut state, Message::Tick(TimeLocal { secs: 0, nanos: 0 }), &fresh());

    assert_eq!(state.game_space, game_space);
}

#[test]
fn test_lock_brings_the_next_piece() {
    let o = falling(Kind::O);
    let mut state = running(
        grid(&[(18, 0, o), (18, 1, o), (19, 0, o), (19, 1, o)]),
        &[Kind::S, Kind::Z, Kind::T],
    );

    update_with(&mut state, Message::Move(Direction::Bottom), &fresh());

    let rest = at_rest(Kind::O);
    let t = falling(Kind::T);
    let expected = grid(&[
        (18, 0, rest),
        (18, 1, rest),
        (19, 0, rest),
        (19, 1, rest),
        (0, 4, t),
        (0, 5, t),
        (0, 6, t),
        (1, 5, t),
    ]);
    assert_eq!(state.game_space, expected);
    assert_eq!(state.bag.items.len(), 2);
    assert_eq!(state.next_item, Tetromino::create_z());
    assert_eq!(state.score, 0);
    assert!(state.is_running);
    assert!(!state.game_over);
}

#[test]
fn test_lock_with_the_last_piece_fills_the_bag() {
    let o = falling(Kind::O);
    let mut state =
        running(grid(&[(18, 0, o), (18, 1, o), (19, 0, o), (19, 1, o)]), &[Kind::I]);

    update_with(&mut state, Message::Move(Direction::Bottom), &fresh());

    assert_eq!(state.bag.items.len(), 7);
    assert_eq!(state.next_item, Tetromino::create_j());
    assert_eq!(state.bag.items[0], Tetromino::create_o());
    assert_eq!(state.game_space[3][5], falling(Kind::I));
}

#[test]
fn test_lock_clears_a_completed_row() {
    let mut bricks = Vec::new();
    for c in 1..10 {
        bricks.push((19, c, settled()));
    }
    bricks.push((18, 9, settled()));
    bricks.push((19, 0, falling(Kind::I)));
    let mut state = running(grid(&bricks), &[Kind::S, Kind::O]);
    state.score = 50;
    state.rows_cleared = 9;

    update_with(&mut state, Message::Move(Direction::Bottom), &fresh());

    let o = falling(Kind::O);
    let expected = grid(&[(19, 9, settled()), (1, 4, o), (1, 5, o), (2, 4, o), (2, 5, o)]);
    assert_eq!(state.game_space, expected);
    assert_eq!(state.score, 150);
    assert_eq!(state.rows_cleared, 10);
    assert_eq!(state.level, 1);
    assert_eq!(state.tick_rate_ms, 720);
    assert_eq!(state.next_item, Tetromino::create_s());
    assert!(state.is_running);
}

#[test]
fn test_game_over_when_the_i_piece_cannot_come_in() {
    let mut bricks = Vec::new();
    for r in 0..2 {
        for c in 3..7 {
            bricks.push((r, c, settled()));
        }
    }
    bricks.push((19, 0, falling(Kind::O)));
    let mut state = running(grid(&bricks), &[Kind::T, Kind::I]);
    let preview = state.next_item.clone();

    update_with(&mut state, Message::Move(Direction::Bottom), &fresh());

    let mut expected = Vec::new();
    for r in 0..2 {
        for c in 3..7 {
            expected.push((r, c, settled()));
        }
    }
    expected.push((19, 0, at_rest(Kind::O)));
    assert_eq!(state.game_space, grid(&expected));
    assert!(state.game_over);
    assert!(!state.is_running);
    assert_eq!(state.bag.items.len(), 1);
    assert_eq!(state.next_item, preview);
}

#[test]
fn test_game_over_draws_the_rows_that_fit() {
    let mut state = running(
        grid(&[(1, 4, settled()), (19, 0, falling(Kind::Z))]),
        &[Kind::T, Kind::O],
    );

    update_with(&mut state, Message::Move(Direction::Bottom), &fresh());

    let o = at_rest(Kind::O);
    let expected =
        grid(&[(0, 4, o), (0, 5, o), (1, 4, settled()), (19, 0, at_rest(Kind::Z))]);
    assert_eq!(state.game_space, expected);
    assert!(state.game_over);
    assert!(!state.is_running);
}

#[test]
fn test_commands_do_nothing_when_the_game_is_over() {
    let mut state = running(
        grid(&[(0, 5, settled()), (19, 0, falling(Kind::Z))]),
        &[Kind::T, Kind::I],
    );
    update_with(&mut state, Message::Move(Direction::Bottom), &fresh());
    assert!(state.game_over);
    let game_space = state.game_space.clone();

    update_with(&mut state, Message::Move(Direction::Left), &fresh());
    update_with(&mut state, Message::Move(Direction::Bottom), &fresh());
    update_with(&mut state, Message::RotateClockwise, &fresh());
    update_with(&mut state, Message::Tick(TimeLocal { secs: 3, nanos: 0 }), &fresh());

    assert_eq!(state.game_space, game_space);
    assert!(state.game_over);
}

#[test]
fn test_toggle_pause_restarts_a_game_that_is_over() {
    let mut state = running(
        grid(&[(0, 5, settled()), (19, 0, falling(Kind::Z))]),
        &[Kind::T, Kind::I],
    );
    state.score = 1200;
    state.rows_cleared = 25;
    state.level = 2;
    state.tick_rate_ms = 630;
    update_with(&mut state, Message::Move(Direction::Bottom), &fresh());
    assert!(state.game_over);
    assert_eq!(state.score, 1200);

    update_with(&mut state, Message::TogglePause, &fresh());

    assert_eq!(state.game_space, grid(&j_spawned()));
    assert_eq!(state.bag.items.len(), 6);
    assert_eq!(state.next_item, Tetromino::create_l());
    assert_eq!(state.score, 0);
    assert_eq!(state.rows_cleared, 0);
    assert_eq!(state.level, 0);
    assert_eq!(state.tick_rate_ms, 800);
    assert!(state.is_running);
    assert!(!state.game_over);
}

#[test]
fn test_update_with_random_bag_plays_on() {
    let mut state = State::new();
    update(&mut state, Message::Initialize);
    update(&mut state, Message::TogglePause);
    for step in 0..400 {
        update(&mut state, Message::Tick(TimeLocal { secs: step + 1, nanos: 0 }));
        assert_eq!(state.game_space.len(), 20);
        assert!(state.game_space.iter().all(|row| row.len() == 10));
        assert!(!state.bag.items.is_empty());
        assert!(state.bag.items.len() <= 7);
    }
    assert!(state.game_over);
    assert!(!state.is_running);
}

fn falling_bricks(state: &State) -> Vec<(usize, usize, Brick)> {
    let mut found = Vec::new();
    for (r, row) in state.game_space.iter().enumerate() {
        for (c, cell) in row.iter().enumerate() {
            if let Some(brick) = cell {
                if brick.moving {
                    found.push((r, c, *brick));
                }
            }
        }
    }
    found
}

#[test]
fn test_the_falling_piece_stays_one_piece() {
    let commands = [
        Message::Move(Direction::Left),
        Message::RotateClockwise,
        Message::Move(Direction::Bottom),
        Message::Rotate,
        Message::Move(Direction::Right),
        Message::Move(Direction::Right),
        Message::RotateClockwise,
        Message::Move(Direction::Bottom),
        Message::Move(Direction::Bottom),
        Message::Move(Direction::Left),
        Message::Move(Direction::Left),
        Message::Move(Direction::Left),
        Message::Rotate,
    ];
    let mut state = State::new();
    update(&mut state, Message::Initialize);
    update(&mut state, Message::TogglePause);
    let mut step = 0;
    while !state.game_over && step < 5000 {
        update(&mut state, commands[step % commands.len()]);
        let found = falling_bricks(&state);
        if !state.game_over {
            assert_eq!(found.len(), 4);
            assert!(found.iter().all(|brick| brick.2.color == found[0].2.color));
            let top = found.iter().map(|brick| brick.0).min().unwrap();
            let bottom = found.iter().map(|brick| brick.0).max().unwrap();
            let left = found.iter().map(|brick| brick.1).min().unwrap();
            let right = found.iter().map(|brick| brick.1).max().unwrap();
            assert!(bottom - top < 4 && right - left < 4);
        } else {
            assert!(found.is_empty());
        }
        step += 1;
    }
    assert!(step > 0);
}
