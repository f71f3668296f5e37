//! The falling piece stays one piece: whatever the commands, the falling
//! bricks on the grid are those of one piece of the catalogue, turned some
//! number of quarters and laid somewhere on the grid.

use vstd::prelude::*;
use crate::moves::{can_shift, locked, moving_at, open_at, shifted};
use crate::score::{cleared, complete_rows, is_complete, lemma_cleared_below_top};
use crate::rotation_laws::{
    after_turn,
    lemma_moving_after_turn,
    lemma_piece_has_edges,
    source,
    turn_taken,
    turned,
};
use crate::rotations::{box_size, col_has_moving, has_moving, left, row_has_moving, top};
use crate::tetromino::{
    has_brick,
    lemma_fresh_piece,
    lemma_solid_rows_concat,
    solid_rows,
    spawn_col,
    stamped,
    Brick,
    Kind,
};
use crate::bag::{each_kind_once, kinds_of, lemma_each_kind_once, shapes_of};
use crate::constants::{NUM_OF_SQUARES_X, NUM_OF_SQUARES_Y};
use crate::enums::Direction;
use crate::moves::fitting_rows;
use crate::state::Game;
use crate::types::{empty_cells, is_moving, playable, rectangular, width, Cells};
use crate::update::{descended, next_state, plays, restarted, Message};
use crate::utils::{
    is_square,
    lemma_turned_is_square,
    turned_clockwise,
    turned_counterclockwise,
};

verus! {

/// The square `m` turned `q` quarters clockwise.
pub open spec fn turned_times(m: Cells, q: nat) -> Cells
    decreases q,
{
    if q == 0 {
        m
    } else {
        turned_clockwise(turned_times(m, (q - 1) as nat))
    }
}

/// The falling bricks of `g` are the bricks of the square `m`, laid with
/// its top left corner on row `dr` and column `dc`: where the square has a
/// brick the grid has a falling brick of that colour, and it has no other
/// falling brick. The corner may lie off the grid, the bricks do not.
pub open spec fn falls_as(g: Cells, m: Cells, dr: int, dc: int) -> bool {
    &&& forall|r: int, c: int| #[trigger]
        moving_at(g, r, c) ==> {
            &&& 0 <= r - dr < m.len()
            &&& 0 <= c - dc < m.len()
            &&& m[r - dr][c - dc] matches Some(brick)
            &&& g[r][c]->0.color == brick.color
        }
    &&& forall|i: int, j: int|
        0 <= i < m.len() && 0 <= j < m.len() && (#[trigger] m[i][j]) is Some ==> moving_at(
            g,
            dr + i,
            dc + j,
        )
}

/// The falling bricks of `g`, if there are any, are one piece: a fresh
/// piece of some kind, turned some number of quarters, laid somewhere.
pub open spec fn one_piece_falls(g: Cells) -> bool {
    has_moving(g) ==> exists|kind: Kind, q: nat, dr: int, dc: int| #[trigger]
        falls_as(g, turned_times(kind.shape(), q), dr, dc)
}

/// Turned any number of quarters, a fresh piece keeps its square.
pub proof fn lemma_turned_times_is_square(kind: Kind, q: nat)
    ensures
        is_square(turned_times(kind.shape(), q)),
        turned_times(kind.shape(), q).len() == kind.shape().len(),
    decreases q,
{
    if q > 0 {
        lemma_turned_times_is_square(kind, (q - 1) as nat);
        lemma_turned_is_square(turned_times(kind.shape(), (q - 1) as nat));
    }
}

/// A step that is taken carries the piece along.
pub proof fn lemma_falls_after_step(g: Cells, m: Cells, dr: int, dc: int, by_rows: int, by_cols: int)
    requires
        falls_as(g, m, dr, dc),
        can_shift(g, by_rows, by_cols),
    ensures
        falls_as(shifted(g, by_rows, by_cols), m, dr + by_rows, dc + by_cols),
{
    let after = shifted(g, by_rows, by_cols);
    assert forall|r: int, c: int| #[trigger] moving_at(after, r, c) implies {
        &&& 0 <= r - (dr + by_rows) < m.len()
        &&& 0 <= c - (dc + by_cols) < m.len()
        &&& m[r - (dr + by_rows)][c - (dc + by_cols)] matches Some(brick)
        &&& after[r][c]->0.color == brick.color
    } by {
        assert(moving_at(g, r - by_rows, c - by_cols));
    }
    assert forall|i: int, j: int|
        0 <= i < m.len() && 0 <= j < m.len() && (#[trigger] m[i][j]) is Some implies moving_at(
        after,
        dr + by_rows + i,
        dc + by_cols + j,
    ) by {
        assert(moving_at(g, dr + i, dc + j));
        assert(open_at(g, dr + i + by_rows, dc + j + by_cols));
    }
}

/// Once the piece has locked nothing falls.
pub proof fn lemma_nothing_falls_locked(g: Cells)
    ensures
        !has_moving(locked(g)),
{
    assert forall|r: int, c: int| !moving_at(locked(g), r, c) by {}
}

/// The row of the grid on which the corner of the piece's own square lies
/// after a turn.
pub open spec fn corner_row_after_turn(g: Cells, n: int, dr: int, dc: int, clockwise: bool) -> int {
    if clockwise {
        top(g) - left(g) + dc
    } else {
        top(g) + left(g) + box_size(g) - n - dc
    }
}

/// The column of the grid on which the corner of the piece's own square
/// lies after a turn.
pub open spec fn corner_col_after_turn(g: Cells, n: int, dr: int, dc: int, clockwise: bool) -> int {
    if clockwise {
        left(g) + top(g) + box_size(g) - n - dr
    } else {
        left(g) - top(g) + dr
    }
}

/// After a turn that is taken, every falling brick is a brick of the
/// piece's square turned a quarter the same way.
proof fn lemma_turned_brick_is_of_piece(
    g: Cells,
    m: Cells,
    dr: int,
    dc: int,
    clockwise: bool,
    r: int,
    c: int,
)
    requires
        rectangular(g),
        is_square(m),
        falls_as(g, m, dr, dc),
        turn_taken(g, clockwise),
        moving_at(after_turn(g, clockwise), r, c),
    ensures
        0 <= r - corner_row_after_turn(g, m.len() as int, dr, dc, clockwise) < m.len(),
        0 <= c - corner_col_after_turn(g, m.len() as int, dr, dc, clockwise) < m.len(),
        turned(m, clockwise)[r - corner_row_after_turn(g, m.len() as int, dr, dc, clockwise)][c
            - corner_col_after_turn(g, m.len() as int, dr, dc, clockwise)] matches Some(brick)
            && after_turn(g, clockwise)[r][c]->0.color == brick.color,
{
    let n = m.len() as int;
    let size = box_size(g);
    let t = top(g);
    let l = left(g);
    lemma_moving_after_turn(g, clockwise, r, c);
    let (i, j) = source(size, clockwise, r - t, c - l);
    assert(moving_at(g, t + i, l + j));
    let a = t + i - dr;
    let b = l + j - dc;
    assert(0 <= a < n && 0 <= b < n);
    assert(m[a].len() == n);
    assert(m[a][b] is Some);
    if clockwise {
        assert(turned_clockwise(m)[b][n - 1 - a] == m[a][b]);
    } else {
        assert(turned_counterclockwise(m)[n - 1 - b][a] == m[a][b]);
    }
}

/// After a turn that is taken, every brick of the piece's square turned a
/// quarter the same way is a falling brick of the grid.
proof fn lemma_brick_of_piece_is_turned(
    g: Cells,
    m: Cells,
    dr: int,
    dc: int,
    clockwise: bool,
    a: int,
    b: int,
)
    requires
        rectangular(g),
        is_square(m),
        falls_as(g, m, dr, dc),
        turn_taken(g, clockwise),
        0 <= a < m.len(),
        0 <= b < m.len(),
        turned(m, clockwise)[a][b] is Some,
    ensures
        moving_at(
            after_turn(g, clockwise),
            corner_row_after_turn(g, m.len() as int, dr, dc, clockwise) + a,
            corner_col_after_turn(g, m.len() as int, dr, dc, clockwise) + b,
        ),
{
    let n = m.len() as int;
    let size = box_size(g);
    let t = top(g);
    let l = left(g);
    let (i, j) = if clockwise {
        (n - 1 - b, a)
    } else {
        (b, n - 1 - a)
    };
    assert(m[i].len() == n);
    assert(m[i][j] is Some) by {
        if clockwise {
            assert(turned_clockwise(m)[a][b] == m[n - 1 - b][a]);
        } else {
            assert(turned_counterclockwise(m)[a][b] == m[b][n - 1 - a]);
        }
    }
    assert(moving_at(g, dr + i, dc + j));
    lemma_within_square(g, dr + i, dc + j);
    lemma_moving_after_turn(
        g,
        clockwise,
        corner_row_after_turn(g, n, dr, dc, clockwise) + a,
        corner_col_after_turn(g, n, dr, dc, clockwise) + b,
    );
}

/// A falling brick lies inside the smallest square that holds the piece.
proof fn lemma_within_square(g: Cells, r: int, c: int)
    requires
        rectangular(g),
        moving_at(g, r, c),
    ensures
        0 <= r - top(g) < box_size(g),
        0 <= c - left(g) < box_size(g),
{
    assert(has_moving(g));
    lemma_piece_has_edges(g);
    assert(row_has_moving(g, r));
    assert(col_has_moving(g, c));
}

/// A turn that is taken turns the piece: the falling bricks are then those
/// of the piece's square turned a quarter the same way.
pub proof fn lemma_falls_after_turn(g: Cells, m: Cells, dr: int, dc: int, clockwise: bool)
    requires
        rectangular(g),
        is_square(m),
        falls_as(g, m, dr, dc),
        turn_taken(g, clockwise),
    ensures
        falls_as(
            after_turn(g, clockwise),
            turned(m, clockwise),
            corner_row_after_turn(g, m.len() as int, dr, dc, clockwise),
            corner_col_after_turn(g, m.len() as int, dr, dc, clockwise),
        ),
{
    let n = m.len() as int;
    let after = after_turn(g, clockwise);
    let turn = turned(m, clockwise);
    let row = corner_row_after_turn(g, n, dr, dc, clockwise);
    let col = corner_col_after_turn(g, n, dr, dc, clockwise);
    assert(turn.len() == n);
    assert forall|r: int, c: int| #[trigger] moving_at(after, r, c) implies {
        &&& 0 <= r - row < turn.len()
        &&& 0 <= c - col < turn.len()
        &&& turn[r - row][c - col] matches Some(brick)
        &&& after[r][c]->0.color == brick.color
    } by {
        lemma_turned_brick_is_of_piece(g, m, dr, dc, clockwise, r, c);
    }
    assert forall|a: int, b: int|
        0 <= a < turn.len() && 0 <= b < turn.len() && (#[trigger] turn[a][b]) is Some implies moving_at(
        after,
        row + a,
        col + b,
    ) by {
        lemma_brick_of_piece_is_turned(g, m, dr, dc, clockwise, a, b);
    }
}

/// A quarter turn counterclockwise is three quarter turns clockwise.
pub proof fn lemma_counterclockwise_is_three_clockwise(m: Cells)
    requires
        is_square(m),
    ensures
        turned_counterclockwise(m) == turned_clockwise(turned_clockwise(turned_clockwise(m))),
{
    let n = m.len() as int;
    let once = turned_clockwise(m);
    let twice = turned_clockwise(once);
    let thrice = turned_clockwise(twice);
    let other = turned_counterclockwise(m);
    assert forall|r: int, c: int| 0 <= r < n && 0 <= c < n implies #[trigger] thrice[r][c]
        == other[r][c] by {
        assert(thrice[r][c] == twice[n - 1 - c][r]);
        assert(twice[n - 1 - c][r] == once[n - 1 - r][n - 1 - c]);
        assert(once[n - 1 - r][n - 1 - c] == m[c][n - 1 - r]);
    }
    assert(thrice =~~= other);
}

/// A fresh piece turned some quarters clockwise and then one more quarter,
/// either way, is the fresh piece turned some quarters clockwise.
proof fn lemma_one_more_turn(kind: Kind, q: nat, clockwise: bool)
    ensures
        turned(turned_times(kind.shape(), q), clockwise) == turned_times(
            kind.shape(),
            if clockwise {
                q + 1
            } else {
                q + 3
            },
        ),
{
    let m = turned_times(kind.shape(), q);
    if clockwise {
        assert(turned_times(kind.shape(), q + 1) == turned_clockwise(m));
    } else {
        lemma_turned_times_is_square(kind, q);
        lemma_counterclockwise_is_three_clockwise(m);
        assert(turned_times(kind.shape(), q + 1) == turned_clockwise(m));
        assert(turned_times(kind.shape(), q + 2) == turned_clockwise(
            turned_times(kind.shape(), q + 1),
        ));
        assert(turned_times(kind.shape(), q + 3) == turned_clockwise(
            turned_times(kind.shape(), q + 2),
        ));
    }
}

/// The command to turn the falling piece leaves it one piece, whether the
/// turn is taken or not.
pub proof fn lemma_one_piece_after_turn(g: Cells, clockwise: bool)
    requires
        rectangular(g),
        one_piece_falls(g),
    ensures
        one_piece_falls(after_turn(g, clockwise)),
{
    if turn_taken(g, clockwise) {
        let (kind, q, dr, dc) = choose|kind: Kind, q: nat, dr: int, dc: int| #[trigger]
            falls_as(g, turned_times(kind.shape(), q), dr, dc);
        let m = turned_times(kind.shape(), q);
        lemma_turned_times_is_square(kind, q);
        lemma_falls_after_turn(g, m, dr, dc, clockwise);
        lemma_one_more_turn(kind, q, clockwise);
        let more: nat = if clockwise {
            q + 1
        } else {
            q + 3
        };
        assert(falls_as(
            after_turn(g, clockwise),
            turned_times(kind.shape(), more),
            corner_row_after_turn(g, m.len() as int, dr, dc, clockwise),
            corner_col_after_turn(g, m.len() as int, dr, dc, clockwise),
        ));
    }
}

/// Rows without a brick at the top of a fresh piece's square.
pub open spec fn lead_rows(kind: Kind) -> int {
    match kind {
        Kind::S => 1,
        Kind::Z => 1,
        Kind::T => 1,
        _ => 0,
    }
}

/// Where every row holds a brick, every row is a solid row.
proof fn lemma_solid_rows_when_all(piece: Cells)
    requires
        forall|i: int| 0 <= i < piece.len() ==> has_brick(#[trigger] piece[i]),
    ensures
        solid_rows(piece) == piece,
    decreases piece.len(),
{
    if piece.len() > 0 {
        assert forall|i: int| 0 <= i < piece.drop_last().len() implies has_brick(
            #[trigger] piece.drop_last()[i],
        ) by {
            assert(piece.drop_last()[i] == piece[i]);
        }
        lemma_solid_rows_when_all(piece.drop_last());
        assert(piece.drop_last().push(piece.last()) =~= piece);
    } else {
        assert(solid_rows(piece) =~= piece);
    }
}

/// The rows of a fresh piece that hold a brick are all its rows but the
/// leading ones.
pub proof fn lemma_solid_rows_of_fresh(kind: Kind)
    ensures
        solid_rows(kind.shape()) == kind.shape().skip(lead_rows(kind)),
        forall|i: int| 0 <= i < lead_rows(kind) ==> !has_brick(#[trigger] kind.shape()[i]),
        forall|i: int|
            lead_rows(kind) <= i < kind.shape().len() ==> has_brick(#[trigger] kind.shape()[i]),
        is_square(kind.shape()),
        0 <= lead_rows(kind) < kind.shape().len(),
{
    let p = kind.shape();
    let lead = lead_rows(kind);
    let rest = p.skip(lead);
    assert forall|i: int| lead <= i < p.len() implies has_brick(#[trigger] p[i]) by {
        match kind {
            Kind::O => {
                assert(p[i][0] is Some);
            },
            Kind::I => {
                assert(p[i][1] is Some);
            },
            Kind::S => {
                assert(p[i][1] is Some);
            },
            Kind::Z => {
                assert(p[i][1] is Some);
            },
            Kind::T => {
                assert(p[i][1] is Some);
            },
            Kind::L => {
                assert(p[i][1] is Some);
            },
            Kind::J => {
                assert(p[i][1] is Some);
            },
        }
    }
    assert forall|i: int| 0 <= i < rest.len() implies has_brick(#[trigger] rest[i]) by {
        assert(rest[i] == p[lead + i]);
    }
    lemma_solid_rows_when_all(rest);
    if lead == 1 {
        let first = seq![p[0]];
        assert(p =~= first + rest);
        lemma_solid_rows_concat(first, rest);
        assert(!has_brick(p[0]));
        assert(first.drop_last() =~= Seq::<Seq<Option<Brick>>>::empty());
        assert(first.last() == p[0]);
        assert(solid_rows(first) =~= Seq::<Seq<Option<Brick>>>::empty()) by {
            reveal_with_fuel(solid_rows, 2);
        }
        assert(solid_rows(p) =~= rest);
    } else {
        assert(rest =~= p);
    }
}

/// A fresh piece put on a playable grid on which nothing falls is the
/// falling piece, whole.
pub proof fn lemma_falls_after_spawn(g: Cells, kind: Kind)
    requires
        playable(g),
        !has_moving(g),
    ensures
        falls_as(
            stamped(g, solid_rows(kind.shape()), spawn_col(g), true),
            kind.shape(),
            -lead_rows(kind),
            spawn_col(g),
        ),
{
    let p = kind.shape();
    let n = p.len() as int;
    let lead = lead_rows(kind);
    let solid = solid_rows(p);
    let col = spawn_col(g);
    let after = stamped(g, solid, col, true);
    lemma_solid_rows_of_fresh(kind);
    lemma_fresh_piece(kind);
    assert forall|r: int, c: int| #[trigger] moving_at(after, r, c) implies {
        &&& 0 <= r + lead < n
        &&& 0 <= c - col < n
        &&& p[r + lead][c - col] matches Some(brick)
        &&& after[r][c]->0.color == brick.color
    } by {
        assert(!moving_at(g, r, c));
        assert(r < solid.len());
        assert(solid[r] == p[r + lead]);
        assert(p[r + lead].len() == n);
    }
    assert forall|i: int, j: int|
        0 <= i < n && 0 <= j < n && (#[trigger] p[i][j]) is Some implies moving_at(
        after,
        -lead + i,
        col + j,
    ) by {
        assert(p[i].len() == n);
        assert(has_brick(p[i]));
        assert(i >= lead);
        assert(solid[i - lead] == p[i]);
        assert(g[i - lead].len() == width(g));
    }
}

/// The rows that the falling piece came in on, `low` of them, each hold a
/// falling brick, and no row below them does.
pub open spec fn falls_in_top_rows(g: Cells, low: int) -> bool {
    &&& 0 <= low <= g.len()
    &&& forall|i: int| 0 <= i < low ==> #[trigger] row_has_moving(g, i)
    &&& forall|r: int, c: int| #[trigger] moving_at(g, r, c) ==> r < low
}

/// Line clearing right after a piece has come in carries the piece down
/// with the rows it lies on, by the number of rows cleared.
pub proof fn lemma_falls_after_clear(g: Cells, m: Cells, dr: int, dc: int, low: int)
    requires
        rectangular(g),
        falls_as(g, m, dr, dc),
        falls_in_top_rows(g, low),
    ensures
        falls_as(cleared(g), m, dr + complete_rows(g).len(), dc),
{
    let count = complete_rows(g).len() as int;
    let after = cleared(g);
    assert forall|i: int| 0 <= i < low implies !is_complete(#[trigger] g[i]) by {
        assert(row_has_moving(g, i));
        let c = choose|c: int| moving_at(g, i, c);
        assert(is_moving(g[i][c]));
    }
    lemma_cleared_below_top(g, low);
    assert forall|r: int, c: int| #[trigger] moving_at(after, r, c) implies {
        &&& 0 <= r - (dr + count) < m.len()
        &&& 0 <= c - dc < m.len()
        &&& m[r - (dr + count)][c - dc] matches Some(brick)
        &&& after[r][c]->0.color == brick.color
    } by {
        if r < count {
            assert(after[r] == crate::types::empty_row(width(g)));
        } else if r < count + low {
            assert(after[count + (r - count)] == g[r - count]);
            assert(moving_at(g, r - count, c));
        } else {
            let i = choose|i: int| low <= i < g.len() && g[i] == after[r];
            assert(moving_at(g, i, c));
        }
    }
    assert forall|i: int, j: int|
        0 <= i < m.len() && 0 <= j < m.len() && (#[trigger] m[i][j]) is Some implies moving_at(
        after,
        dr + count + i,
        dc + j,
    ) by {
        assert(moving_at(g, dr + i, dc + j));
        assert(after[count + (dr + i)] == g[dr + i]);
    }
}

/// A step that is taken leaves the falling piece one piece.
pub proof fn lemma_one_piece_after_step(g: Cells, by_rows: int, by_cols: int)
    requires
        one_piece_falls(g),
        can_shift(g, by_rows, by_cols),
    ensures
        one_piece_falls(shifted(g, by_rows, by_cols)),
{
    let after = shifted(g, by_rows, by_cols);
    if has_moving(after) {
        let (r, c) = choose|r: int, c: int| moving_at(after, r, c);
        assert(moving_at(g, r - by_rows, c - by_cols));
        let (kind, q, dr, dc) = choose|kind: Kind, q: nat, dr: int, dc: int| #[trigger]
            falls_as(g, turned_times(kind.shape(), q), dr, dc);
        lemma_falls_after_step(g, turned_times(kind.shape(), q), dr, dc, by_rows, by_cols);
        assert(falls_as(after, turned_times(kind.shape(), q), dr + by_rows, dc + by_cols));
    }
}

/// A fresh piece that has come in on a playable grid on which nothing fell,
/// and the line clearing that follows, leave one falling piece.
pub proof fn lemma_one_piece_after_spawn(g: Cells, kind: Kind)
    requires
        playable(g),
        !has_moving(g),
    ensures
        one_piece_falls(stamped(g, solid_rows(kind.shape()), spawn_col(g), true)),
        one_piece_falls(cleared(stamped(g, solid_rows(kind.shape()), spawn_col(g), true))),
{
    let p = kind.shape();
    let solid = solid_rows(p);
    let lead = lead_rows(kind);
    let col = spawn_col(g);
    let spawned = stamped(g, solid, col, true);
    lemma_falls_after_spawn(g, kind);
    lemma_solid_rows_of_fresh(kind);
    assert(turned_times(p, 0) == p);
    assert(falls_as(spawned, turned_times(p, 0), -lead, col));
    assert(rectangular(spawned)) by {
        assert forall|r: int| 0 <= r < spawned.len() implies (#[trigger] spawned[r]).len() == width(
            g,
        ) by {
            assert(g[r].len() == width(g));
        }
    }
    let low = solid.len() as int;
    assert(falls_in_top_rows(spawned, low)) by {
        assert forall|i: int| 0 <= i < low implies #[trigger] row_has_moving(spawned, i) by {
            assert(solid[i] == p[i + lead]);
            assert(has_brick(p[i + lead]));
            let j = choose|j: int| 0 <= j < p[i + lead].len() && (#[trigger] p[i + lead][j]) is Some;
            assert(p[i + lead].len() == p.len());
            assert(moving_at(spawned, -lead + (i + lead), col + j));
        }
    }
    lemma_falls_after_clear(spawned, p, -lead, col, low);
    assert(falls_as(cleared(spawned), turned_times(p, 0), -lead + complete_rows(spawned).len(), col));
}

/// The bag holds at least one piece, and only fresh pieces.
pub open spec fn holds_fresh_pieces(bag: Seq<Cells>) -> bool {
    bag.len() >= 1 && bag == shapes_of(kinds_of(bag))
}

/// Whatever the command, the falling piece stays one piece: where the
/// falling bricks were those of one piece before the command, or none, they
/// are so after it.
pub proof fn lemma_one_piece_keeps_falling(s: Game, message: Message, fresh: Seq<Kind>)
    requires
        one_piece_falls(s.grid),
        each_kind_once(fresh),
        plays(s, message) ==> playable(s.grid) && holds_fresh_pieces(s.bag),
    ensures
        one_piece_falls(next_state(s, message, fresh).grid),
{
    let g = s.grid;
    match message {
        Message::Initialize => {
            lemma_one_piece_restarted(s, fresh);
        },
        Message::TogglePause => {
            if s.game_over {
                lemma_one_piece_restarted(s, fresh);
            }
        },
        Message::Tick(instant) => {
            if instant != s.now && s.is_running {
                lemma_one_piece_descended(Game { now: instant, ..s }, fresh);
            }
        },
        Message::Move(direction) => {
            if s.is_running {
                match direction {
                    Direction::Right => {
                        if can_shift(g, 0, 1) {
                            lemma_one_piece_after_step(g, 0, 1);
                        }
                    },
                    Direction::Left => {
                        if can_shift(g, 0, -1) {
                            lemma_one_piece_after_step(g, 0, -1);
                        }
                    },
                    Direction::Bottom => {
                        lemma_one_piece_descended(s, fresh);
                    },
                }
            }
        },
        Message::RotateClockwise => {
            if s.is_running {
                lemma_one_piece_after_turn(g, true);
            }
        },
        Message::Rotate => {
            if s.is_running {
                lemma_one_piece_after_turn(g, false);
            }
        },
    }
}

/// A new start leaves one falling piece: the first piece drawn.
proof fn lemma_one_piece_restarted(s: Game, fresh: Seq<Kind>)
    requires
        each_kind_once(fresh),
    ensures
        one_piece_falls(restarted(s, fresh).grid),
{
    lemma_each_kind_once(fresh);
    let empty = empty_cells(NUM_OF_SQUARES_Y as int, NUM_OF_SQUARES_X as int);
    let kind = fresh.last();
    assert(shapes_of(fresh).last() == kind.shape());
    assert(playable(empty)) by {
        assert(empty[0].len() == 10);
        assert forall|r: int| 0 <= r < empty.len() implies (#[trigger] empty[r]).len() == 10 by {}
    }
    assert(!has_moving(empty)) by {
        assert forall|r: int, c: int| !moving_at(empty, r, c) by {}
    }
    lemma_one_piece_after_spawn(empty, kind);
}

/// Going down leaves one falling piece: the piece a row lower, or nothing
/// where the game ends, or the next piece.
proof fn lemma_one_piece_descended(s: Game, fresh: Seq<Kind>)
    requires
        one_piece_falls(s.grid),
        playable(s.grid),
        holds_fresh_pieces(s.bag),
    ensures
        one_piece_falls(descended(s, fresh).grid),
{
    let g = s.grid;
    if can_shift(g, 1, 0) {
        lemma_one_piece_after_step(g, 1, 0);
    } else {
        let settled = locked(g);
        lemma_nothing_falls_locked(g);
        let kind = kinds_of(s.bag).last();
        assert(s.bag.last() == shapes_of(kinds_of(s.bag)).last());
        assert(s.bag.last() == kind.shape());
        let solid = solid_rows(kind.shape());
        let col = spawn_col(settled);
        assert(playable(settled)) by {
            assert(settled[0].len() == g[0].len());
            assert forall|r: int| 0 <= r < settled.len() implies (#[trigger] settled[r]).len()
                == width(g) by {
                assert(g[r].len() == width(g));
            }
        }
        if fitting_rows(settled, solid, col) < solid.len() {
            let piece = kind.shape();
            let fit = fitting_rows(settled, solid, col);
            let drawn = stamped(settled, solid_rows(piece.skip(piece.len() - fit)), col, false);
            assert forall|r: int, c: int| !moving_at(drawn, r, c) by {
                assert(!moving_at(settled, r, c));
            }
        } else {
            lemma_one_piece_after_spawn(settled, kind);
        }
    }
}

} // verus!
