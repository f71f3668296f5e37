//! What holds of turning the falling piece on the grid.
//!
//! A turn happens inside the smallest square that holds the piece, with the
//! square's corner on the piece's topmost row and leftmost column. A piece
//! that is at least as tall as it is wide fills that square from top to
//! bottom, and a clockwise turn leaves the square where it is; so does a
//! counterclockwise turn of a piece that is at least as wide as it is tall.
//! A turn the other way then brings the piece back. A piece that is wider
//! than tall, turned clockwise, comes to lie further right, and the square
//! of the next turn with it.

use vstd::prelude::*;
use crate::moves::{moving_at, open_at};
use crate::rotations::{
    bottom,
    box_size,
    col_has_moving,
    fits_at,
    has_moving,
    is_bottom,
    is_left,
    is_right,
    is_top,
    left,
    lemma_edges_are_unique,
    lifted,
    lifted_at,
    placed_at,
    right,
    rotated_by,
    row_has_moving,
    top,
    without_moving,
};
use crate::types::{rectangular, width, Cells};
use crate::utils::{
    is_square,
    lemma_four_clockwise_turns,
    lemma_four_counterclockwise_turns,
    lemma_turn_and_turn_back,
    turned_clockwise,
    turned_counterclockwise,
};

verus! {

/// Rows of the grid that the falling piece spans.
pub open spec fn piece_height(g: Cells) -> int {
    bottom(g) - top(g) + 1
}

/// Columns of the grid that the falling piece spans.
pub open spec fn piece_width(g: Cells) -> int {
    right(g) - left(g) + 1
}

/// Among the integers from `lo` up to `hi` that meet `p` there is a least.
proof fn lemma_least(p: spec_fn(int) -> bool, lo: int, hi: int)
    requires
        exists|i: int| lo <= i < hi && #[trigger] p(i),
    ensures
        exists|m: int| lo <= m < hi && #[trigger] p(m) && forall|i: int| lo <= i < m ==> !#[trigger] p(i),
    decreases hi - lo,
{
    if p(lo) {
        assert(lo <= lo < hi && p(lo) && forall|i: int| lo <= i < lo ==> !#[trigger] p(i));
    } else {
        let w = choose|i: int| lo <= i < hi && #[trigger] p(i);
        assert(lo + 1 <= w < hi && p(w));
        lemma_least(p, lo + 1, hi);
        let m = choose|m: int|
            lo + 1 <= m < hi && #[trigger] p(m) && forall|i: int| lo + 1 <= i < m ==> !#[trigger] p(i);
        assert(lo <= m < hi && p(m) && forall|i: int| lo <= i < m ==> !#[trigger] p(i));
    }
}

/// Among the integers from `lo` up to `hi` that meet `p` there is a greatest.
proof fn lemma_greatest(p: spec_fn(int) -> bool, lo: int, hi: int)
    requires
        exists|i: int| lo <= i < hi && #[trigger] p(i),
    ensures
        exists|m: int| lo <= m < hi && #[trigger] p(m) && forall|i: int| m < i < hi ==> !#[trigger] p(i),
    decreases hi - lo,
{
    if p(hi - 1) {
        assert(lo <= hi - 1 < hi && p(hi - 1) && forall|i: int| hi - 1 < i < hi ==> !#[trigger] p(i));
    } else {
        let w = choose|i: int| lo <= i < hi && #[trigger] p(i);
        assert(lo <= w < hi - 1 && p(w));
        lemma_greatest(p, lo, hi - 1);
        let m = choose|m: int|
            lo <= m < hi - 1 && #[trigger] p(m) && forall|i: int| m < i < hi - 1 ==> !#[trigger] p(i);
        assert(lo <= m < hi && p(m) && forall|i: int| m < i < hi ==> !#[trigger] p(i));
    }
}

/// A falling piece has a topmost and a lowest row, a leftmost and a
/// rightmost column, all of them on the grid.
pub proof fn lemma_piece_has_edges(g: Cells)
    requires
        rectangular(g),
        has_moving(g),
    ensures
        is_top(g, top(g)),
        is_bottom(g, bottom(g)),
        is_left(g, left(g)),
        is_right(g, right(g)),
        0 <= top(g) <= bottom(g) < g.len(),
        0 <= left(g) <= right(g) < width(g),
        0 < box_size(g),
{
    let (r0, c0) = choose|r: int, c: int| moving_at(g, r, c);
    assert(moving_at(g, r0, c0));
    assert(g[r0].len() == width(g));
    assert(row_has_moving(g, r0));
    assert(col_has_moving(g, c0));
    let by_row = |q: int| row_has_moving(g, q);
    let by_col = |q: int| col_has_moving(g, q);
    assert(by_row(r0));
    assert(by_col(c0));

    lemma_least(by_row, 0, g.len() as int);
    let t = choose|m: int|
        0 <= m < g.len() && #[trigger] by_row(m) && forall|i: int| 0 <= i < m ==> !#[trigger] by_row(i);
    assert(is_top(g, t)) by {
        assert forall|q: int| #[trigger] row_has_moving(g, q) implies t <= q by {
            let c = choose|c: int| moving_at(g, q, c);
            assert(moving_at(g, q, c));
            if q < t {
                assert(!by_row(q));
            }
        }
    }
    lemma_greatest(by_row, 0, g.len() as int);
    let b = choose|m: int|
        0 <= m < g.len() && #[trigger] by_row(m) && forall|i: int| m < i < g.len() ==> !#[trigger] by_row(i);
    assert(is_bottom(g, b)) by {
        assert forall|q: int| #[trigger] row_has_moving(g, q) implies q <= b by {
            let c = choose|c: int| moving_at(g, q, c);
            assert(moving_at(g, q, c));
            if q > b {
                assert(!by_row(q));
            }
        }
    }
    lemma_least(by_col, 0, width(g));
    let l = choose|m: int|
        0 <= m < width(g) && #[trigger] by_col(m) && forall|i: int| 0 <= i < m ==> !#[trigger] by_col(i);
    assert(is_left(g, l)) by {
        assert forall|q: int| #[trigger] col_has_moving(g, q) implies l <= q by {
            let r = choose|r: int| moving_at(g, r, q);
            assert(moving_at(g, r, q));
            if q < l {
                assert(!by_col(q));
            }
        }
    }
    lemma_greatest(by_col, 0, width(g));
    let rt = choose|m: int|
        0 <= m < width(g) && #[trigger] by_col(m) && forall|i: int| m < i < width(g) ==> !#[trigger] by_col(i);
    assert(is_right(g, rt)) by {
        assert forall|q: int| #[trigger] col_has_moving(g, q) implies q <= rt by {
            let r = choose|r: int| moving_at(g, r, q);
            assert(moving_at(g, r, q));
            assert(g[r].len() == width(g));
            if q > rt {
                assert(!by_col(q));
            }
        }
    }
    lemma_edges_are_unique(g, t, l, b, rt);
    assert(row_has_moving(g, t) && row_has_moving(g, b));
    assert(col_has_moving(g, l) && col_has_moving(g, rt));
}

/// The square `m` turned a quarter, clockwise or counterclockwise.
pub open spec fn turned(m: Cells, clockwise: bool) -> Cells {
    if clockwise {
        turned_clockwise(m)
    } else {
        turned_counterclockwise(m)
    }
}

/// The grid after the command to turn the falling piece a quarter,
/// clockwise or counterclockwise.
pub open spec fn after_turn(g: Cells, clockwise: bool) -> Cells {
    rotated_by(g, turned(lifted(g), clockwise))
}

/// The turn is taken: a piece is falling and, turned, finds open cells.
pub open spec fn turn_taken(g: Cells, clockwise: bool) -> bool {
    has_moving(g) && fits_at(g, turned(lifted(g), clockwise), top(g), left(g))
}

/// The turn leaves the piece's square where it is: the piece is at least as
/// tall as wide and turns clockwise, or at least as wide as tall and turns
/// counterclockwise.
pub open spec fn stays_in_square(g: Cells, clockwise: bool) -> bool {
    if clockwise {
        piece_height(g) >= piece_width(g)
    } else {
        piece_width(g) >= piece_height(g)
    }
}

/// Where a brick of the piece's square comes from in a turn: the row and
/// column in the square that held the brick which the turn brings to row
/// `x` and column `y`.
pub open spec fn source(size: int, clockwise: bool, x: int, y: int) -> (int, int) {
    if clockwise {
        (size - 1 - y, x)
    } else {
        (y, size - 1 - x)
    }
}

/// After a turn that is taken, the falling bricks are those of the turned
/// square: a cell holds one exactly where the turn brings one, and it is
/// that brick.
pub proof fn lemma_moving_after_turn(g: Cells, clockwise: bool, r: int, c: int)
    requires
        rectangular(g),
        turn_taken(g, clockwise),
    ensures
        moving_at(after_turn(g, clockwise), r, c) <==> {
            &&& 0 <= r - top(g) < box_size(g)
            &&& 0 <= c - left(g) < box_size(g)
            &&& moving_at(
                g,
                top(g) + source(box_size(g), clockwise, r - top(g), c - left(g)).0,
                left(g) + source(box_size(g), clockwise, r - top(g), c - left(g)).1,
            )
        },
        moving_at(after_turn(g, clockwise), r, c) ==> after_turn(g, clockwise)[r][c] == g[top(g)
            + source(box_size(g), clockwise, r - top(g), c - left(g)).0][left(g) + source(
            box_size(g),
            clockwise,
            r - top(g),
            c - left(g),
        ).1],
        after_turn(g, clockwise).len() == g.len(),
        0 <= r < g.len() ==> after_turn(g, clockwise)[r].len() == g[r].len(),
{
    lemma_piece_has_edges(g);
    let size = box_size(g);
    let t = top(g);
    let l = left(g);
    let lift = lifted(g);
    let turn = turned(lift, clockwise);
    let after = after_turn(g, clockwise);
    assert(after == placed_at(g, turn, t, l));
    assert(turn.len() == size);
    let x = r - t;
    let y = c - l;
    if 0 <= x < size && 0 <= y < size {
        assert(turn[x].len() == size);
        let (i, j) = source(size, clockwise, x, y);
        assert(turn[x][y] == lift[i][j]);
        if turn[x][y] is Some {
            assert(open_at(g, t + x, l + y));
        }
    }
}

/// After a turn in the square the piece still begins on the same row.
proof fn lemma_top_after_turn(g: Cells, clockwise: bool)
    requires
        rectangular(g),
        turn_taken(g, clockwise),
        stays_in_square(g, clockwise),
    ensures
        is_top(after_turn(g, clockwise), top(g)),
{
    lemma_piece_has_edges(g);
    let size = box_size(g);
    let t = top(g);
    let l = left(g);
    let after = after_turn(g, clockwise);
    // the brick that the turn brings to the top row
    let at = if clockwise {
        let row = choose|r: int| moving_at(g, r, l);
        assert(moving_at(g, row, l));
        assert(row_has_moving(g, row));
        l + (t + size - 1 - row)
    } else {
        let row = choose|r: int| moving_at(g, r, right(g));
        assert(moving_at(g, row, right(g)));
        assert(row_has_moving(g, row));
        l + (row - t)
    };
    lemma_moving_after_turn(g, clockwise, t, at);
    assert(moving_at(after, t, at));
    assert(row_has_moving(after, t));
    assert forall|q: int| #[trigger] row_has_moving(after, q) implies t <= q by {
        let c = choose|c: int| moving_at(after, q, c);
        lemma_moving_after_turn(g, clockwise, q, c);
    }
}

/// After a turn in the square the piece still begins on the same column.
proof fn lemma_left_after_turn(g: Cells, clockwise: bool)
    requires
        rectangular(g),
        turn_taken(g, clockwise),
        stays_in_square(g, clockwise),
    ensures
        is_left(after_turn(g, clockwise), left(g)),
{
    lemma_piece_has_edges(g);
    let size = box_size(g);
    let t = top(g);
    let l = left(g);
    let after = after_turn(g, clockwise);
    let at = if clockwise {
        let col = choose|c: int| moving_at(g, bottom(g), c);
        assert(moving_at(g, bottom(g), col));
        assert(col_has_moving(g, col));
        t + (col - l)
    } else {
        let col = choose|c: int| moving_at(g, t, c);
        assert(moving_at(g, t, col));
        assert(col_has_moving(g, col));
        t + (l + size - 1 - col)
    };
    lemma_moving_after_turn(g, clockwise, at, l);
    assert(moving_at(after, at, l));
    assert(col_has_moving(after, l));
    assert forall|q: int| #[trigger] col_has_moving(after, q) implies l <= q by {
        let r = choose|r: int| moving_at(after, r, q);
        lemma_moving_after_turn(g, clockwise, r, q);
    }
}

/// After a turn in the square the piece is as tall as it was wide.
proof fn lemma_bottom_after_turn(g: Cells, clockwise: bool)
    requires
        rectangular(g),
        turn_taken(g, clockwise),
        stays_in_square(g, clockwise),
    ensures
        is_bottom(after_turn(g, clockwise), top(g) + piece_width(g) - 1),
{
    lemma_piece_has_edges(g);
    let size = box_size(g);
    let t = top(g);
    let l = left(g);
    let after = after_turn(g, clockwise);
    let low = t + piece_width(g) - 1;
    let at = if clockwise {
        let row = choose|r: int| moving_at(g, r, right(g));
        assert(moving_at(g, row, right(g)));
        assert(row_has_moving(g, row));
        l + (t + size - 1 - row)
    } else {
        let row = choose|r: int| moving_at(g, r, l);
        assert(moving_at(g, row, l));
        assert(row_has_moving(g, row));
        l + (row - t)
    };
    lemma_moving_after_turn(g, clockwise, low, at);
    assert(moving_at(after, low, at));
    assert(row_has_moving(after, low));
    assert forall|q: int| #[trigger] row_has_moving(after, q) implies q <= low by {
        let c = choose|c: int| moving_at(after, q, c);
        lemma_moving_after_turn(g, clockwise, q, c);
        let (i, j) = source(size, clockwise, q - t, c - l);
        assert(moving_at(g, t + i, l + j));
        assert(col_has_moving(g, l + j));
    }
}

/// After a turn in the square the piece is as wide as it was tall.
proof fn lemma_right_after_turn(g: Cells, clockwise: bool)
    requires
        rectangular(g),
        turn_taken(g, clockwise),
        stays_in_square(g, clockwise),
    ensures
        is_right(after_turn(g, clockwise), left(g) + piece_height(g) - 1),
{
    lemma_piece_has_edges(g);
    let size = box_size(g);
    let t = top(g);
    let l = left(g);
    let after = after_turn(g, clockwise);
    let far = l + piece_height(g) - 1;
    let at = if clockwise {
        let col = choose|c: int| moving_at(g, t, c);
        assert(moving_at(g, t, col));
        assert(col_has_moving(g, col));
        t + (col - l)
    } else {
        let col = choose|c: int| moving_at(g, bottom(g), c);
        assert(moving_at(g, bottom(g), col));
        assert(col_has_moving(g, col));
        t + (l + size - 1 - col)
    };
    lemma_moving_after_turn(g, clockwise, at, far);
    assert(moving_at(after, at, far));
    assert(col_has_moving(after, far));
    assert forall|q: int| #[trigger] col_has_moving(after, q) implies q <= far by {
        let r = choose|r: int| moving_at(after, r, q);
        lemma_moving_after_turn(g, clockwise, r, q);
        let (i, j) = source(size, clockwise, r - t, q - l);
        assert(moving_at(g, t + i, l + j));
        assert(row_has_moving(g, t + i));
    }
}

/// A turn takes nothing but the falling piece off the grid and puts nothing
/// but the falling piece on it.
proof fn lemma_rest_after_turn(g: Cells, clockwise: bool)
    requires
        rectangular(g),
        turn_taken(g, clockwise),
    ensures
        without_moving(after_turn(g, clockwise)) == without_moving(g),
{
    lemma_piece_has_edges(g);
    let size = box_size(g);
    let t = top(g);
    let l = left(g);
    let turn = turned(lifted(g), clockwise);
    let after = after_turn(g, clockwise);
    assert(after == placed_at(g, turn, t, l));
    assert forall|r: int, c: int|
        0 <= r < g.len() && 0 <= c < g[r].len() implies #[trigger] without_moving(after)[r][c]
        == without_moving(g)[r][c] by {
        lemma_moving_after_turn(g, clockwise, r, c);
        let x = r - t;
        let y = c - l;
        if 0 <= x < size && 0 <= y < size {
            assert(turn[x].len() == size);
            if turn[x][y] is Some {
                assert(open_at(g, t + x, l + y));
            }
        }
    }
    assert(without_moving(after) =~~= without_moving(g));
}

/// A turn that is taken and leaves the piece's square where it is: the
/// grid keeps its size, the piece is still falling, its square has the same
/// corner and side, its height and width have changed places, the square
/// holds the turned piece, and nothing else on the grid has changed.
pub proof fn lemma_turn_in_square(g: Cells, clockwise: bool)
    requires
        rectangular(g),
        turn_taken(g, clockwise),
        stays_in_square(g, clockwise),
    ensures
        rectangular(after_turn(g, clockwise)),
        after_turn(g, clockwise).len() == g.len(),
        width(after_turn(g, clockwise)) == width(g),
        has_moving(after_turn(g, clockwise)),
        top(after_turn(g, clockwise)) == top(g),
        left(after_turn(g, clockwise)) == left(g),
        box_size(after_turn(g, clockwise)) == box_size(g),
        piece_height(after_turn(g, clockwise)) == piece_width(g),
        piece_width(after_turn(g, clockwise)) == piece_height(g),
        lifted(after_turn(g, clockwise)) == turned(lifted(g), clockwise),
        without_moving(after_turn(g, clockwise)) == without_moving(g),
{
    lemma_piece_has_edges(g);
    let size = box_size(g);
    let t = top(g);
    let l = left(g);
    let turn = turned(lifted(g), clockwise);
    let after = after_turn(g, clockwise);
    assert(after == placed_at(g, turn, t, l));
    assert(rectangular(after)) by {
        assert forall|r: int| 0 <= r < after.len() implies (#[trigger] after[r]).len() == width(g) by {
            assert(g[r].len() == width(g));
        }
    }
    lemma_top_after_turn(g, clockwise);
    lemma_left_after_turn(g, clockwise);
    lemma_bottom_after_turn(g, clockwise);
    lemma_right_after_turn(g, clockwise);
    lemma_edges_are_unique(
        after,
        t,
        l,
        t + piece_width(g) - 1,
        l + piece_height(g) - 1,
    );
    assert(has_moving(after)) by {
        let c = choose|c: int| moving_at(after, t, c);
        assert(moving_at(after, t, c));
    }
    lemma_rest_after_turn(g, clockwise);
    lemma_lifted_after_turn(g, clockwise);
}

/// After a turn in the square, the square holds the turned piece.
proof fn lemma_lifted_after_turn(g: Cells, clockwise: bool)
    requires
        rectangular(g),
        turn_taken(g, clockwise),
    ensures
        lifted_at(after_turn(g, clockwise), box_size(g), top(g), left(g)) == turned(
            lifted(g),
            clockwise,
        ),
{
    lemma_piece_has_edges(g);
    let size = box_size(g);
    let t = top(g);
    let l = left(g);
    let lift = lifted(g);
    let turn = turned(lift, clockwise);
    let after = after_turn(g, clockwise);
    let again = lifted_at(after, size, t, l);
    assert(turn.len() == size);
    assert forall|x: int, y: int| 0 <= x < size && 0 <= y < size implies again[x][y]
        == #[trigger] turn[x][y] by {
        lemma_moving_after_turn(g, clockwise, t + x, l + y);
        assert(turn[x].len() == size);
        let (i, j) = source(size, clockwise, x, y);
        assert(turn[x][y] == lift[i][j]);
    }
    assert forall|x: int| 0 <= x < size implies #[trigger] again[x] =~= turn[x] by {
        assert(turn[x].len() == size);
        assert forall|y: int| 0 <= y < size implies again[x][y] == turn[x][y] by {
            assert(again[x][y] == turn[x][y]);
        }
    }
    assert(again =~= turn);
}

/// A grid is its falling piece, in its square, put down on the rest.
proof fn lemma_grid_from_parts(g: Cells)
    requires
        rectangular(g),
        has_moving(g),
    ensures
        g == placed_at(without_moving(g), lifted(g), top(g), left(g)),
{
    lemma_piece_has_edges(g);
    let size = box_size(g);
    let t = top(g);
    let l = left(g);
    let lift = lifted(g);
    let whole = placed_at(without_moving(g), lift, t, l);
    assert(whole.len() == g.len());
    assert forall|r: int| 0 <= r < g.len() implies #[trigger] whole[r] =~= g[r] by {
        assert forall|c: int| 0 <= c < g[r].len() implies whole[r][c] == g[r][c] by {
            if moving_at(g, r, c) {
                assert(row_has_moving(g, r));
                assert(col_has_moving(g, c));
                assert(lift[r - t].len() == size);
                assert(lift[r - t][c - l] == g[r][c]);
            } else if 0 <= r - t < size {
                assert(lift[r - t].len() == size);
            }
        }
    }
    assert(whole =~= g);
}

/// Putting a square down on a grid takes the falling piece away first, so
/// it comes to the same as putting it down on the rest of the grid.
proof fn lemma_placed_on_rest(g: Cells, m: Cells, t: int, l: int)
    ensures
        placed_at(g, m, t, l) == placed_at(without_moving(g), m, t, l),
{
    let a = placed_at(g, m, t, l);
    let b = placed_at(without_moving(g), m, t, l);
    assert(a.len() == b.len());
    assert forall|r: int| 0 <= r < g.len() implies #[trigger] a[r] =~= b[r] by {
        assert forall|c: int| 0 <= c < g[r].len() implies a[r][c] == b[r][c] by {}
    }
    assert(a =~= b);
}

/// After a turn that is taken, the piece as it was finds open cells where
/// it was.
proof fn lemma_old_place_is_open(g: Cells, clockwise: bool)
    requires
        rectangular(g),
        turn_taken(g, clockwise),
    ensures
        fits_at(after_turn(g, clockwise), lifted(g), top(g), left(g)),
{
    lemma_piece_has_edges(g);
    let size = box_size(g);
    let t = top(g);
    let l = left(g);
    let lift = lifted(g);
    let turn = turned(lift, clockwise);
    let after = after_turn(g, clockwise);
    assert(after == placed_at(g, turn, t, l));
    assert forall|x: int, y: int|
        0 <= x < lift.len() && 0 <= y < lift[x].len() && (#[trigger] lift[x][y]) is Some implies open_at(
        after,
        t + x,
        l + y,
    ) by {
        assert(lift[x].len() == size);
        assert(moving_at(g, t + x, l + y));
        assert(turn[x].len() == size);
        let (i, j) = source(size, clockwise, x, y);
        assert(turn[x][y] == lift[i][j]);
    }
}

/// Turning back: a quarter turn followed by a quarter turn the other way
/// gives the grid back exactly, where the first turn is taken and leaves
/// the piece's square where it is (the turn back is then always taken),
/// and where neither turn is taken.
pub proof fn lemma_turn_back_on_grid(g: Cells, clockwise: bool)
    requires
        rectangular(g),
        turn_taken(g, clockwise) ==> stays_in_square(g, clockwise),
        !turn_taken(g, clockwise) ==> !turn_taken(g, !clockwise),
    ensures
        turn_taken(g, clockwise) ==> turn_taken(after_turn(g, clockwise), !clockwise),
        after_turn(after_turn(g, clockwise), !clockwise) == g,
{
    if turn_taken(g, clockwise) {
        lemma_turn_in_square(g, clockwise);
        let lift = lifted(g);
        let after = after_turn(g, clockwise);
        assert(is_square(lift)) by {
            assert forall|x: int| 0 <= x < lift.len() implies (#[trigger] lift[x]).len()
                == lift.len() by {}
        }
        lemma_turn_and_turn_back(lift);
        assert(turned(lifted(after), !clockwise) == lift);
        lemma_old_place_is_open(g, clockwise);
        lemma_placed_on_rest(after, lift, top(g), left(g));
        lemma_grid_from_parts(g);
    }
}

/// Four turns: four quarter turns the same way give the grid back exactly,
/// where the falling piece is as tall as it is wide and each of the four
/// turns is taken, and where the first turn is not taken.
pub proof fn lemma_four_turns_on_grid(g: Cells, clockwise: bool)
    requires
        rectangular(g),
        turn_taken(g, clockwise) ==> {
            &&& piece_height(g) == piece_width(g)
            &&& turn_taken(after_turn(g, clockwise), clockwise)
            &&& turn_taken(after_turn(after_turn(g, clockwise), clockwise), clockwise)
            &&& turn_taken(
                after_turn(after_turn(after_turn(g, clockwise), clockwise), clockwise),
                clockwise,
            )
        },
    ensures
        after_turn(
            after_turn(after_turn(after_turn(g, clockwise), clockwise), clockwise),
            clockwise,
        ) == g,
{
    if turn_taken(g, clockwise) {
        let once = after_turn(g, clockwise);
        let twice = after_turn(once, clockwise);
        let thrice = after_turn(twice, clockwise);
        let back = after_turn(thrice, clockwise);
        lemma_turn_in_square(g, clockwise);
        lemma_turn_in_square(once, clockwise);
        lemma_turn_in_square(twice, clockwise);
        lemma_turn_in_square(thrice, clockwise);
        let lift = lifted(g);
        assert(is_square(lift)) by {
            assert forall|x: int| 0 <= x < lift.len() implies (#[trigger] lift[x]).len()
                == lift.len() by {}
        }
        if clockwise {
            lemma_four_clockwise_turns(lift);
        } else {
            lemma_four_counterclockwise_turns(lift);
        }
        assert(lifted(back) == lift);
        lemma_grid_from_parts(g);
        lemma_grid_from_parts(back);
    }
}

} // verus!
