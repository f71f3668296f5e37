//! The state of a game, as one value that every command is applied to.

use vstd::prelude::*;
use crate::bag::Bag;
use crate::constants::DEFAULT_LEVEL;
use crate::level::{get_speed_by_level, tick_interval_ms};
use crate::tetromino::Tetromino;
use crate::types::{cells, playable, Cells, Matrix, TimeLocal};

verus! {

/// A game in progress.
#[derive(Debug, Default)]
pub struct State {
    /// The instant of the last tick that was seen.
    pub now: TimeLocal,
    pub bag: Bag,
    /// The play field.
    pub game_space: Matrix,
    /// Milliseconds between two ticks at the current level.
    pub tick_rate_ms: u64,
    pub level: u32,
    /// Rows cleared since the game began.
    pub rows_cleared: u32,
    pub score: u32,
    pub is_running: bool,
    pub game_over: bool,
    /// The piece that comes after the falling one, for the preview.
    pub next_item: Tetromino,
}

/// A game as contracts see it: the grid and every piece as sequences of
/// cells, the numbers as integers.
pub struct Game {
    pub now: TimeLocal,
    pub bag: Seq<Cells>,
    pub grid: Cells,
    pub tick_rate_ms: int,
    pub level: int,
    pub rows_cleared: int,
    pub score: int,
    pub is_running: bool,
    pub game_over: bool,
    pub next_item: Cells,
}

impl View for State {
    type V = Game;

    open spec fn view(&self) -> Game {
        Game {
            now: self.now,
            bag: self.bag.pieces(),
            grid: cells(&self.game_space),
            tick_rate_ms: self.tick_rate_ms as int,
            level: self.level as int,
            rows_cleared: self.rows_cleared as int,
            score: self.score as int,
            is_running: self.is_running,
            game_over: self.game_over,
            next_item: self.next_item.cells(),
        }
    }
}

/// Whether the grid is a rectangle of at least four rows and four columns.
pub fn is_playable(game_space: &Matrix) -> (fit: bool)
    ensures
        fit == playable(cells(game_space)),
{
    if game_space.len() < 4 {
        return false;
    }
    let cols = game_space[0].len();
    if cols < 4 {
        return false;
    }
    let mut r: usize = 0;
    while r < game_space.len()
        invariant
            r <= game_space@.len(),
            game_space@.len() >= 4,
            cols == cells(game_space)[0].len(),
            cols >= 4,
            forall|i: int| 0 <= i < r ==> (#[trigger] cells(game_space)[i]).len() == cols,
        decreases game_space@.len() - r,
    {
        if game_space[r].len() != cols {
            assert(cells(game_space)[r as int].len() != cols);
            return false;
        }
        r += 1;
    }
    true
}

impl State {
    /// The grid is playable and the bag can be drawn from.
    pub open spec fn well_formed(&self) -> bool {
        playable(cells(&self.game_space)) && self.bag.well_formed()
    }

    /// Whether the grid is playable and the bag can be drawn from.
    pub fn is_well_formed(&self) -> (sound: bool)
        ensures
            sound == self.well_formed(),
    {
        is_playable(&self.game_space) && self.bag.is_well_formed()
    }

    /// A game before its first command: paused, with a full bag, no grid
    /// and no points. The command to initialize makes it playable.
    pub fn new() -> (state: Self)
        ensures
            state.bag.is_full(),
            state.game_space@.len() == 0,
            state.next_item.matrix@.len() == 0,
            state.now == (TimeLocal { secs: 0, nanos: 0 }),
            state.tick_rate_ms == tick_interval_ms(DEFAULT_LEVEL as nat),
            state.level == DEFAULT_LEVEL,
            state.rows_cleared == 0,
            state.score == 0,
            !state.is_running,
            !state.game_over,
    {
        State {
            now: TimeLocal { secs: 0, nanos: 0 },
            bag: Bag::new(),
            game_space: Vec::new(),
            tick_rate_ms: get_speed_by_level(DEFAULT_LEVEL),
            level: DEFAULT_LEVEL,
            rows_cleared: 0,
            score: 0,
            is_running: false,
            game_over: false,
            next_item: Tetromino::new(Vec::new()),
        }
    }
}

} // verus!
