use tetris::bag::Bag;
use tetris::colors::Color;
use tetris::enums::Direction;
use tetris::state::{is_playable, State};
use tetris::tetromino::{Brick, Kind, Tetromino};
use tetris::types::{same_cells, Matrix, TimeLocal};
use tetris::update::{accepts, has_room, update_with, Message};

fn fresh() -> Vec<Kind> {
    vec![Kind::O, Kind::I, Kind::S, Kind::Z, Kind::T, Kind::L, Kind::J]
}

fn initialized() -> State {
    let mut state = State::new();
    update_with(&mut state, Message::Initialize, &fresh());
    state
}

#[test]
fn test_same_cells() {
    let b = Some(Brick::new(Color::from_rgb(1, 2, 3), true));
    let a: Matrix = vec![vec![None, b], vec![b, None]];
    assert!(same_cells(&a, &a.clone()));
    assert!(!same_cells(&a, &vec![vec![None, b]]));
    assert!(!same_cells(&a, &vec![vec![None, b], vec![b]]));
    assert!(!same_cells(&a, &vec![vec![None, b], vec![None, None]]));
    let settled = Some(Brick::new(Color::from_rgb(1, 2, 3), false));
    assert!(!same_cells(&a, &vec![vec![None, settled], vec![b, None]]));
    let other = Some(Brick::new(Color::from_rgb(1, 2, 4), true));
    assert!(!same_cells(&a, &vec![vec![None, other], vec![b, None]]));
    assert!(same_cells(&Matrix::new(), &Matrix::new()));
}

#[test]
fn test_kind_of_a_piece() {
    assert_eq!(Tetromino::create_o().kind(), Some(Kind::O));
    assert_eq!(Tetromino::create_i().kind(), Some(Kind::I));
    assert_eq!(Tetromino::create_s().kind(), Some(Kind::S));
    assert_eq!(Tetromino::create_z().kind(), Some(Kind::Z));
    assert_eq!(Tetromino::create_t().kind(), Some(Kind::T));
    assert_eq!(Tetromino::create_l().kind(), Some(Kind::L));
    assert_eq!(Tetromino::create_j().kind(), Some(Kind::J));
    assert_eq!(Tetromino::new(Vec::new()).kind(), None);
    let mut falling = Tetromino::create_o();
    falling.matrix[0][0] = Some(Brick::new(Kind::O.color(), true));
    assert_eq!(falling.kind(), None);
}

#[test]
fn test_bag_is_well_formed() {
    assert!(Bag::new().is_well_formed());
    assert!(Bag::from_kinds(&vec![Kind::T]).is_well_formed());
    assert!(Bag::from_kinds(&vec![Kind::T, Kind::O, Kind::J]).is_well_formed());
    assert!(!Bag::from_kinds(&Vec::new()).is_well_formed());
    assert!(!Bag::from_kinds(&vec![Kind::T, Kind::O, Kind::T]).is_well_formed());
    let mut bag = Bag::from_kinds(&vec![Kind::S, Kind::Z]);
    bag.items[1].matrix[0][0] = Some(Brick::new(Kind::Z.color(), false));
    assert!(!bag.is_well_formed());
}

#[test]
fn test_is_playable() {
    assert!(is_playable(&vec![vec![None; 10]; 20]));
    assert!(is_playable(&vec![vec![None; 4]; 4]));
    assert!(!is_playable(&vec![vec![None; 4]; 3]));
    assert!(!is_playable(&vec![vec![None; 3]; 4]));
    assert!(!is_playable(&Matrix::new()));
    let mut ragged: Matrix = vec![vec![None; 10]; 20];
    ragged[7].pop();
    assert!(!is_playable(&ragged));
}

#[test]
fn test_state_is_well_formed() {
    assert!(!State::new().is_well_formed());
    assert!(initialized().is_well_formed());
    let mut state = initialized();
    state.bag = Bag::from_kinds(&Vec::new());
    assert!(!state.is_well_formed());
}

#[test]
fn test_has_room() {
    let mut state = initialized();
    assert!(has_room(&state));
    state.score = u32::MAX - 2800;
    assert!(has_room(&state));
    state.score = u32::MAX - 2799;
    assert!(!has_room(&state));
    state.score = 0;
    state.rows_cleared = u32::MAX - 20;
    assert!(has_room(&state));
    state.rows_cleared = u32::MAX - 19;
    assert!(!has_room(&state));
}

#[test]
fn test_accepts() {
    let blank = State::new();
    assert!(accepts(&blank, Message::Initialize));
    assert!(accepts(&blank, Message::TogglePause));
    assert!(accepts(&blank, Message::Move(Direction::Left)));

    let mut running = State::new();
    running.is_running = true;
    assert!(accepts(&running, Message::Initialize));
    assert!(accepts(&running, Message::TogglePause));
    assert!(accepts(&running, Message::Tick(TimeLocal { secs: 0, nanos: 0 })));
    assert!(!accepts(&running, Message::Tick(TimeLocal { secs: 1, nanos: 0 })));
    assert!(!accepts(&running, Message::Move(Direction::Bottom)));
    assert!(!accepts(&running, Message::RotateClockwise));
    assert!(!accepts(&running, Message::Rotate));

    let mut state = initialized();
    state.is_running = true;
    assert!(accepts(&state, Message::Move(Direction::Bottom)));
    assert!(accepts(&state, Message::Rotate));
    state.score = u32::MAX;
    assert!(!accepts(&state, Message::Move(Direction::Bottom)));
}
