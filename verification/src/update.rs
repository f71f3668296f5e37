//! The controller: one command at a time is applied to the state of a game.

use vstd::prelude::*;
use crate::bag::{after_draw, each_kind_once, lemma_each_kind_once, shapes_of, shuffled_kinds};
use crate::constants::{DEFAULT_LEVEL, NUM_OF_SQUARES_X, NUM_OF_SQUARES_Y};
use crate::enums::Direction;
use crate::level::{get_level, get_speed_by_level, level_of, tick_interval_ms};
use crate::moves::{
    can_shift,
    draw_game_over_brick,
    fitting_rows,
    is_game_over,
    lemma_fresh_piece_fits,
    locked,
    move_bottom,
    move_left,
    move_right,
    shifted,
};
use crate::rotations::{lifted, rotate_clockwise, rotate_counterclockwise, rotated_by};
use crate::score::{
    clear_rows,
    cleared,
    complete_rows,
    lemma_cleared_dims,
    lemma_complete_rows_bound,
    line_score,
};
use crate::state::{Game, State};
use crate::tetromino::{
    solid_rows,
    spawn_col,
    stamped,
    Kind,
};
use crate::types::{cells, empty_cells, new_matrix, playable, TimeLocal};
use crate::utils::{turned_clockwise, turned_counterclockwise};

verus! {

/// A command to the game.
#[derive(Debug, Clone, Copy)]
pub enum Message {
    /// Start afresh: a new grid, a new bag, the first piece on the grid.
    Initialize,
    /// Time has passed: the instant of the tick.
    Tick(TimeLocal),
    Move(Direction),
    RotateClockwise,
    /// Turn the falling piece counterclockwise.
    Rotate,
    TogglePause,
}

/// The game after a new start with a bag filled in the order `fresh`: an
/// empty grid of the standard size with the first piece drawn on it, the bag
/// without that piece, the piece to come in the preview, and score, rows and
/// level at their beginning. The clock and the pause stay as they are.
pub open spec fn restarted(s: Game, fresh: Seq<Kind>) -> Game {
    let supply = shapes_of(fresh);
    let empty = empty_cells(NUM_OF_SQUARES_Y as int, NUM_OF_SQUARES_X as int);
    Game {
        bag: supply.drop_last(),
        grid: stamped(empty, solid_rows(supply.last()), spawn_col(empty), true),
        tick_rate_ms: tick_interval_ms(DEFAULT_LEVEL as nat) as int,
        level: DEFAULT_LEVEL as int,
        rows_cleared: 0,
        score: 0,
        game_over: false,
        next_item: supply.drop_last().last(),
        ..s
    }
}

/// The game after the falling piece was told to go down one row. Where it
/// can, it does. Where it cannot, it locks and the next piece is drawn; an
/// emptied bag is filled in the order `fresh`. Where the new piece collides
/// with bricks at rest the game is over, and what fits of the piece is drawn
/// at rest. Else the piece is put on the grid, the piece to come goes to
/// the preview, the complete rows are cleared and score, rows and level
/// follow.
pub open spec fn descended(s: Game, fresh: Seq<Kind>) -> Game {
    if can_shift(s.grid, 1, 0) {
        Game { grid: shifted(s.grid, 1, 0), ..s }
    } else {
        let settled = locked(s.grid);
        let piece = s.bag.last();
        let bag = after_draw(s.bag, shapes_of(fresh));
        let solid = solid_rows(piece);
        let col = spawn_col(settled);
        let fit = fitting_rows(settled, solid, col);
        if fit < solid.len() {
            Game {
                grid: stamped(settled, solid_rows(piece.skip(piece.len() - fit)), col, false),
                bag,
                is_running: false,
                game_over: true,
                ..s
            }
        } else {
            let spawned = stamped(settled, solid, col, true);
            let count = complete_rows(spawned).len();
            let rows_cleared = s.rows_cleared + count;
            Game {
                grid: cleared(spawned),
                bag,
                next_item: bag.last(),
                score: s.score + line_score(count),
                rows_cleared,
                level: level_of(rows_cleared as nat) as int,
                tick_rate_ms: tick_interval_ms(level_of(rows_cleared as nat)) as int,
                ..s
            }
        }
    }
}

/// The game after `message`. A bag that the command fills is filled in the
/// order `fresh`.
pub open spec fn next_state(s: Game, message: Message, fresh: Seq<Kind>) -> Game {
    match message {
        Message::Initialize => Game { is_running: false, ..restarted(s, fresh) },
        Message::TogglePause => {
            if s.game_over {
                Game { is_running: !s.is_running, ..restarted(s, fresh) }
            } else {
                Game { is_running: !s.is_running, ..s }
            }
        },
        Message::Tick(instant) => {
            if instant == s.now {
                s
            } else if s.is_running {
                descended(Game { now: instant, ..s }, fresh)
            } else {
                Game { now: instant, ..s }
            }
        },
        Message::Move(direction) => {
            if !s.is_running {
                s
            } else {
                match direction {
                    Direction::Right => Game {
                        grid: if can_shift(s.grid, 0, 1) {
                            shifted(s.grid, 0, 1)
                        } else {
                            s.grid
                        },
                        ..s
                    },
                    Direction::Left => Game {
                        grid: if can_shift(s.grid, 0, -1) {
                            shifted(s.grid, 0, -1)
                        } else {
                            s.grid
                        },
                        ..s
                    },
                    Direction::Bottom => descended(s, fresh),
                }
            }
        },
        Message::RotateClockwise => {
            if s.is_running {
                Game { grid: rotated_by(s.grid, turned_clockwise(lifted(s.grid))), ..s }
            } else {
                s
            }
        },
        Message::Rotate => {
            if s.is_running {
                Game { grid: rotated_by(s.grid, turned_counterclockwise(lifted(s.grid))), ..s }
            } else {
                s
            }
        },
    }
}

/// The command makes the falling piece go down: a move down, or a tick at a
/// new instant, while the game runs.
pub open spec fn descends(s: Game, message: Message) -> bool {
    s.is_running && match message {
        Message::Move(direction) => direction == Direction::Bottom,
        Message::Tick(instant) => instant != s.now,
        _ => false,
    }
}

/// The command works on the grid as it stands: a move, a turn, or a tick at
/// a new instant, while the game runs.
pub open spec fn plays(s: Game, message: Message) -> bool {
    s.is_running && match message {
        Message::Move(_) => true,
        Message::RotateClockwise => true,
        Message::Rotate => true,
        Message::Tick(instant) => instant != s.now,
        _ => false,
    }
}

/// The command starts the game afresh: the command to initialize, or the
/// end of a pause when the game is over.
pub open spec fn restarts(s: Game, message: Message) -> bool {
    message is Initialize || (message is TogglePause && s.game_over)
}

/// Score and rows cleared still fit their counters after `message`. What
/// they come to does not depend on how a bag is filled.
pub open spec fn counters_fit(s: Game, message: Message) -> bool {
    descends(s, message) ==> {
        let after = descended(s, Seq::empty());
        after.score <= u32::MAX && after.rows_cleared <= u32::MAX
    }
}

/// The score can take the points for clearing every row of the grid, with
/// 800 to spare, and the rows cleared can take every row of the grid.
pub open spec fn has_room_for_all(state: &State) -> bool {
    &&& state.score + state.game_space@.len() * 100 + 800 <= u32::MAX
    &&& state.rows_cleared + state.game_space@.len() <= u32::MAX
}

/// Whether score and rows cleared have room for whatever one more command
/// can bring: the points and the count for clearing every row of the grid.
pub fn has_room(state: &State) -> (room: bool)
    ensures
        room == has_room_for_all(state),
        room ==> forall|message: Message| counters_fit(state@, message),
{
    let rows = state.game_space.len() as u128;
    let room = state.score as u128 + rows * 100 + 800 <= u32::MAX as u128
        && state.rows_cleared as u128 + rows <= u32::MAX as u128;
    proof {
        if room {
            let s = state@;
            let settled = locked(s.grid);
            let spawned = stamped(settled, solid_rows(s.bag.last()), spawn_col(settled), true);
            lemma_complete_rows_bound(spawned);
            assert(spawned.len() == rows);
            assert forall|message: Message| counters_fit(s, message) by {
                let after = descended(s, Seq::empty());
                assert(after.score <= s.score + rows * 100 + 800);
                assert(after.rows_cleared <= s.rows_cleared + rows);
            }
        }
    }
    room
}

/// Whether the game can take the command: where the command works on the
/// grid the state is well formed, and the counters have room.
pub fn accepts(state: &State, message: Message) -> (ready: bool)
    ensures
        ready ==> (plays(state@, message) ==> state.well_formed()) && counters_fit(
            state@,
            message,
        ),
        ready == ((plays(state@, message) ==> state.well_formed()) && has_room_for_all(state)),
{
    let plays = state.is_running && match message {
        Message::Move(_) => true,
        Message::RotateClockwise => true,
        Message::Rotate => true,
        Message::Tick(instant) => instant != state.now,
        _ => false,
    };
    (!plays || state.is_well_formed()) && has_room(state)
}

/// Starts the game afresh with a bag filled in the order `fresh`.
fn restart(state: &mut State, fresh: &Vec<Kind>)
    requires
        each_kind_once(fresh@),
    ensures
        final(state)@ == restarted(old(state)@, fresh@),
        final(state).well_formed(),
{
    proof {
        lemma_each_kind_once(fresh@);
    }
    state.game_space = new_matrix(NUM_OF_SQUARES_Y, NUM_OF_SQUARES_X);
    state.game_over = false;
    state.bag.refill_with(fresh);
    state.score = 0;
    state.rows_cleared = 0;
    state.level = DEFAULT_LEVEL;
    state.tick_rate_ms = get_speed_by_level(state.level);

    proof {
        state.bag.lemma_full_is_well_formed();
    }
    let (mut item, next_item) = state.bag.draw(fresh);
    state.next_item = next_item;

    item.set_default_position(&mut state.game_space);
}

/// Sends the falling piece down one row; where it cannot go, locks it and
/// brings in the next piece, which ends the game where it collides and
/// otherwise is followed by line clearing.
fn descend(state: &mut State, fresh: &Vec<Kind>)
    requires
        each_kind_once(fresh@),
        old(state).well_formed(),
        descended(old(state)@, Seq::empty()).score <= u32::MAX,
        descended(old(state)@, Seq::empty()).rows_cleared <= u32::MAX,
    ensures
        final(state)@ == descended(old(state)@, fresh@),
        final(state).well_formed(),
{
    proof {
        lemma_each_kind_once(fresh@);
    }
    let moved = move_bottom(&mut state.game_space);

    if !moved {
        let ghost settled = cells(&state.game_space);
        let ghost kind = state.bag.kinds().last();
        proof {
            assert(state.bag.pieces().last() == shapes_of(state.bag.kinds()).last());
            assert(playable(settled));
            lemma_fresh_piece_fits(settled, kind);
        }
        let (mut item, next_item) = state.bag.draw(fresh);

        let (game_over, rows_to_render) = is_game_over(&state.game_space, &item);

        if game_over {
            let x_pos = state.game_space[0].len() / 2 - 1;
            draw_game_over_brick(&mut state.game_space, x_pos, rows_to_render, &item);

            state.is_running = false;
            state.game_over = true;
        } else {
            state.next_item = next_item;
            item.set_default_position(&mut state.game_space);
            proof {
                lemma_cleared_dims(cells(&state.game_space));
            }

            let cleared_rows = clear_rows(&mut state.game_space, &mut state.score);
            state.rows_cleared += cleared_rows;
            state.level = get_level(state.rows_cleared);
            state.tick_rate_ms = get_speed_by_level(state.level);
        }
    }
}

/// Applies one command to the game. A bag that the command fills is filled
/// in the order `fresh`, so that the outcome is fixed by what is handed in.
pub fn update_with(state: &mut State, message: Message, fresh: &Vec<Kind>)
    requires
        each_kind_once(fresh@),
        plays(old(state)@, message) ==> old(state).well_formed(),
        counters_fit(old(state)@, message),
    ensures
        final(state)@ == next_state(old(state)@, message, fresh@),
        old(state).well_formed() || restarts(old(state)@, message) ==> final(state).well_formed(),
{
    match message {
        Message::TogglePause => {
            if state.game_over {
                restart(state, fresh);
            }
            state.is_running = !state.is_running;
        },
        Message::Move(dir) => {
            if !state.is_running {
                return ;
            }
            if dir == Direction::Right {
                move_right(&mut state.game_space);
            } else if dir == Direction::Left {
                move_left(&mut state.game_space);
            } else {
                descend(state, fresh);
            }
        },
        Message::Initialize => {
            restart(state, fresh);
            state.is_running = false;
        },
        Message::Tick(local_time) => {
            let now = local_time;

            if now != state.now {
                state.now = now;
                if state.is_running {
                    descend(state, fresh);
                }
            }
        },
        Message::RotateClockwise => {
            if state.is_running {
                rotate_clockwise(&mut state.game_space);
            }
        },
        Message::Rotate => {
            if state.is_running {
                rotate_counterclockwise(&mut state.game_space);
            }
        },
    }
}

/// Applies one command to the game. A bag that the command fills is filled
/// in a random order: the outcome is that of [`update_with`] for some order
/// that holds each kind once.
pub fn update(state: &mut State, message: Message)
    requires
        plays(old(state)@, message) ==> old(state).well_formed(),
        counters_fit(old(state)@, message),
    ensures
        exists|fresh: Seq<Kind>|
            each_kind_once(fresh) && final(state)@ == #[trigger] next_state(
                old(state)@,
                message,
                fresh,
            ),
        old(state).well_formed() || restarts(old(state)@, message) ==> final(state).well_formed(),
{
    let fresh = shuffled_kinds();
    update_with(state, message, &fresh);
}

} // verus!
