//! Rotation of the falling piece in place: a quarter turn inside the smallest
//! square that holds it, taken only where every turned brick finds an open
//! cell.

use vstd::prelude::*;
use crate::moves::{moving_at, open_at};
use crate::tetromino::Brick;
use crate::types::{
    cells,
    empty_cells,
    is_moving,
    new_matrix,
    rectangular,
    same_size,
    width,
    Cells,
    Matrix,
};
use crate::utils::{is_square, turn_clockwise, turn_counterclockwise, turned_clockwise, turned_counterclockwise};

verus! {

/// Some cell of `g` holds a brick of the falling piece.
pub open spec fn has_moving(g: Cells) -> bool {
    exists|r: int, c: int| moving_at(g, r, c)
}

/// Row `r` of `g` holds a brick of the falling piece.
pub open spec fn row_has_moving(g: Cells, r: int) -> bool {
    exists|c: int| moving_at(g, r, c)
}

/// Column `c` of `g` holds a brick of the falling piece.
pub open spec fn col_has_moving(g: Cells, c: int) -> bool {
    exists|r: int| moving_at(g, r, c)
}

/// `r` is the topmost row with a brick of the falling piece.
pub open spec fn is_top(g: Cells, r: int) -> bool {
    row_has_moving(g, r) && forall|q: int| #[trigger] row_has_moving(g, q) ==> r <= q
}

/// `r` is the lowest row with a brick of the falling piece.
pub open spec fn is_bottom(g: Cells, r: int) -> bool {
    row_has_moving(g, r) && forall|q: int| #[trigger] row_has_moving(g, q) ==> q <= r
}

/// `c` is the leftmost column with a brick of the falling piece.
pub open spec fn is_left(g: Cells, c: int) -> bool {
    col_has_moving(g, c) && forall|q: int| #[trigger] col_has_moving(g, q) ==> c <= q
}

/// `c` is the rightmost column with a brick of the falling piece.
pub open spec fn is_right(g: Cells, c: int) -> bool {
    col_has_moving(g, c) && forall|q: int| #[trigger] col_has_moving(g, q) ==> q <= c
}

/// The topmost row with a brick of the falling piece.
pub open spec fn top(g: Cells) -> int {
    choose|r: int| is_top(g, r)
}

/// The lowest row with a brick of the falling piece.
pub open spec fn bottom(g: Cells) -> int {
    choose|r: int| is_bottom(g, r)
}

/// The leftmost column with a brick of the falling piece.
pub open spec fn left(g: Cells) -> int {
    choose|c: int| is_left(g, c)
}

/// The rightmost column with a brick of the falling piece.
pub open spec fn right(g: Cells) -> int {
    choose|c: int| is_right(g, c)
}

/// Side of the smallest square that holds the falling piece: the larger of
/// its height and its width.
pub open spec fn box_size(g: Cells) -> int {
    let height = bottom(g) - top(g) + 1;
    let width = right(g) - left(g) + 1;
    if height >= width {
        height
    } else {
        width
    }
}

/// The square of side `size` whose top left corner lies on cell
/// `(top, left)` of `g`, holding the falling bricks found there and nothing
/// else.
pub open spec fn lifted_at(g: Cells, size: int, top: int, left: int) -> Cells {
    Seq::new(
        size as nat,
        |r: int|
            Seq::new(
                size as nat,
                |c: int|
                    if moving_at(g, top + r, left + c) {
                        g[top + r][left + c]
                    } else {
                        None
                    },
            ),
    )
}

/// The falling piece in the smallest square that holds it, the square's top
/// left corner on the piece's topmost row and leftmost column.
pub open spec fn lifted(g: Cells) -> Cells {
    lifted_at(g, box_size(g), top(g), left(g))
}

/// Every brick of the square `m`, laid with its top left corner on cell
/// `(top, left)` of `g`, comes to lie on an open cell.
pub open spec fn fits_at(g: Cells, m: Cells, top: int, left: int) -> bool {
    forall|r: int, c: int|
        0 <= r < m.len() && 0 <= c < m[r].len() && (#[trigger] m[r][c]) is Some ==> open_at(
            g,
            top + r,
            left + c,
        )
}

/// The grid with the falling piece taken away and the bricks of the square
/// `m` put down, the square's top left corner on cell `(top, left)`.
pub open spec fn placed_at(g: Cells, m: Cells, top: int, left: int) -> Cells {
    Seq::new(
        g.len(),
        |r: int|
            Seq::new(
                g[r].len(),
                |c: int|
                    if 0 <= r - top < m.len() && 0 <= c - left < m[r - top].len() && m[r - top][c
                        - left] is Some {
                        m[r - top][c - left]
                    } else if is_moving(g[r][c]) {
                        None
                    } else {
                        g[r][c]
                    },
            ),
    )
}

/// The grid after the command to turn the falling piece by the square
/// `turned`, which is the piece's square after a quarter turn: the piece in
/// its turned form where all of it fits, else the grid as it was.
pub open spec fn rotated_by(g: Cells, turned: Cells) -> Cells {
    if has_moving(g) && fits_at(g, turned, top(g), left(g)) {
        placed_at(g, turned, top(g), left(g))
    } else {
        g
    }
}

/// The grid without the falling piece.
pub open spec fn without_moving(g: Cells) -> Cells {
    Seq::new(
        g.len(),
        |r: int|
            Seq::new(
                g[r].len(),
                |c: int|
                    if is_moving(g[r][c]) {
                        None
                    } else {
                        g[r][c]
                    },
            ),
    )
}

/// Rows and columns that meet the description of an edge are that edge.
pub proof fn lemma_edges_are_unique(g: Cells, t: int, l: int, b: int, r: int)
    requires
        is_top(g, t),
        is_left(g, l),
        is_bottom(g, b),
        is_right(g, r),
    ensures
        top(g) == t,
        left(g) == l,
        bottom(g) == b,
        right(g) == r,
{
    assert(row_has_moving(g, top(g)) && row_has_moving(g, bottom(g)));
    assert(col_has_moving(g, left(g)) && col_has_moving(g, right(g)));
}

/// Side and top left corner of the smallest square that holds the falling
/// piece; nothing where no piece is falling.
fn find_size(rows: usize, cols: usize, game_space: &Matrix) -> (found: Option<(usize, usize, usize)>)
    requires
        rectangular(cells(game_space)),
        rows == cells(game_space).len(),
        cols == width(cells(game_space)),
    ensures
        found is Some <==> has_moving(cells(game_space)),
        found matches Some((size, min_row, min_col)) ==> {
            &&& size == box_size(cells(game_space))
            &&& min_row == top(cells(game_space))
            &&& min_col == left(cells(game_space))
            &&& 0 < size
            &&& min_row < rows
            &&& min_col < cols
        },
{
    let ghost g = cells(game_space);
    let mut min_row = rows;
    let mut min_col = cols;
    let mut max_row: usize = 0;
    let mut max_col: usize = 0;
    let ghost mut seen = false;
    let ghost mut top_col: int = 0;
    let ghost mut bottom_col: int = 0;
    let ghost mut left_row: int = 0;
    let ghost mut right_row: int = 0;

    let mut row: usize = 0;
    while row < rows
        invariant
            rectangular(g),
            g == cells(game_space),
            rows == g.len(),
            cols == width(g),
            row <= rows,
            forall|r: int, c: int| #[trigger]
                moving_at(g, r, c) && r < row ==> seen && min_row <= r <= max_row && min_col <= c
                    <= max_col,
            seen ==> moving_at(g, min_row as int, top_col) && moving_at(g, max_row as int, bottom_col)
                && moving_at(g, left_row, min_col as int) && moving_at(g, right_row, max_col as int),
            !seen ==> min_row == rows && min_col == cols && max_row == 0 && max_col == 0,
        decreases rows - row,
    {
        let mut col: usize = 0;
        while col < cols
            invariant
                rectangular(g),
                g == cells(game_space),
                rows == g.len(),
                cols == width(g),
                row < rows,
                col <= cols,
                forall|r: int, c: int| #[trigger]
                    moving_at(g, r, c) && (r < row || (r == row && c < col)) ==> seen && min_row
                        <= r <= max_row && min_col <= c <= max_col,
                seen ==> moving_at(g, min_row as int, top_col) && moving_at(
                    g,
                    max_row as int,
                    bottom_col,
                ) && moving_at(g, left_row, min_col as int) && moving_at(g, right_row, max_col as int),
                !seen ==> min_row == rows && min_col == cols && max_row == 0 && max_col == 0,
            decreases cols - col,
        {
            assert(g[row as int].len() == cols);
            if let Some(brick) = &game_space[row][col] {
                if brick.moving {
                    assert(moving_at(g, row as int, col as int));
                    if row < min_row {
                        min_row = row;
                        proof {
                            top_col = col as int;
                        }
                    }
                    if col < min_col {
                        min_col = col;
                        proof {
                            left_row = row as int;
                        }
                    }
                    if row >= max_row {
                        max_row = row;
                        proof {
                            bottom_col = col as int;
                        }
                    }
                    if col >= max_col {
                        max_col = col;
                        proof {
                            right_row = row as int;
                        }
                    }
                    proof {
                        seen = true;
                    }
                }
            }
            col += 1;
        }
        row += 1;
    }

    if min_row > max_row || min_col > max_col {
        proof {
            if seen {
                assert(min_row <= max_row && min_col <= max_col);
            }
            assert(!has_moving(g));
        }
        return None;
    }
    proof {
        assert(seen);
        assert(is_top(g, min_row as int)) by {
            assert forall|q: int| #[trigger] row_has_moving(g, q) implies min_row <= q by {
                let c = choose|c: int| moving_at(g, q, c);
                assert(moving_at(g, q, c));
            }
        }
        assert(is_bottom(g, max_row as int)) by {
            assert forall|q: int| #[trigger] row_has_moving(g, q) implies q <= max_row by {
                let c = choose|c: int| moving_at(g, q, c);
                assert(moving_at(g, q, c));
            }
        }
        assert(is_left(g, min_col as int)) by {
            assert forall|q: int| #[trigger] col_has_moving(g, q) implies min_col <= q by {
                let r = choose|r: int| moving_at(g, r, q);
                assert(moving_at(g, r, q));
            }
        }
        assert(is_right(g, max_col as int)) by {
            assert forall|q: int| #[trigger] col_has_moving(g, q) implies q <= max_col by {
                let r = choose|r: int| moving_at(g, r, q);
                assert(moving_at(g, r, q));
            }
        }
        lemma_edges_are_unique(g, min_row as int, min_col as int, max_row as int, max_col as int);
    }

    let piece_height = max_row - min_row + 1;
    let piece_width = max_col - min_col + 1;
    let size = if piece_height >= piece_width {
        piece_height
    } else {
        piece_width
    };

    Some((size, min_row, min_col))
}

/// Copies the falling bricks inside the square of side `size` at
/// `(min_row, min_col)` into `matrix_shape`, an empty square of that side.
fn lift_moving(
    size: usize,
    rows: usize,
    cols: usize,
    min_row: usize,
    min_col: usize,
    game_space: &Matrix,
    matrix_shape: &mut Matrix,
)
    requires
        rectangular(cells(game_space)),
        rows == cells(game_space).len(),
        cols == width(cells(game_space)),
        min_row <= rows,
        min_col <= cols,
        cells(old(matrix_shape)) == empty_cells(size as int, size as int),
    ensures
        cells(final(matrix_shape)) == lifted_at(
            cells(game_space),
            size as int,
            min_row as int,
            min_col as int,
        ),
{
    let ghost g = cells(game_space);
    let mut row: usize = 0;
    while row < size
        invariant
            rectangular(g),
            g == cells(game_space),
            rows == g.len(),
            cols == width(g),
            min_row <= rows,
            min_col <= cols,
            row <= size,
            cells(matrix_shape).len() == size,
            forall|r: int| 0 <= r < size ==> (#[trigger] cells(matrix_shape)[r]).len() == size,
            forall|r: int, c: int|
                0 <= r < size && 0 <= c < size ==> #[trigger] cells(matrix_shape)[r][c] == if r < row
                    && moving_at(g, min_row + r, min_col + c) {
                    g[min_row + r][min_col + c]
                } else {
                    None
                },
        decreases size - row,
    {
        let mut col: usize = 0;
        while col < size
            invariant
                rectangular(g),
                g == cells(game_space),
                rows == g.len(),
                cols == width(g),
                min_row <= rows,
                min_col <= cols,
                row < size,
                col <= size,
                cells(matrix_shape).len() == size,
                forall|r: int| 0 <= r < size ==> (#[trigger] cells(matrix_shape)[r]).len() == size,
                forall|r: int, c: int|
                    0 <= r < size && 0 <= c < size ==> #[trigger] cells(matrix_shape)[r][c] == if (r
                        < row || (r == row && c < col)) && moving_at(g, min_row + r, min_col + c) {
                        g[min_row + r][min_col + c]
                    } else {
                        None
                    },
            decreases size - col,
        {
            if row < rows - min_row && col < cols - min_col {
                let game_row = min_row + row;
                let game_col = min_col + col;
                assert(g[game_row as int].len() == cols);
                if let Some(brick) = &game_space[game_row][game_col] {
                    if brick.moving {
                        let ghost before = cells(matrix_shape);
                        assert(before[row as int].len() == size);
                        matrix_shape[row][col] = game_space[game_row][game_col];
                        assert forall|r: int, c: int| 0 <= r < size && 0 <= c < size && !(r == row
                            && c == col) implies #[trigger] cells(matrix_shape)[r][c]
                            == before[r][c] by {}
                        assert forall|r: int| 0 <= r < size implies (#[trigger] cells(
                            matrix_shape,
                        )[r]).len() == size by {
                            assert(before[r].len() == size);
                        }
                    }
                }
            }
            col += 1;
        }
        row += 1;
    }
    assert(cells(matrix_shape) =~~= lifted_at(g, size as int, min_row as int, min_col as int));
}

/// Lifts the falling piece out of the grid into `matrix_shape` and returns
/// it turned a quarter clockwise.
fn rotate_clockwise_matrix(
    size: usize,
    rows: usize,
    cols: usize,
    min_row: usize,
    min_col: usize,
    game_space: &Matrix,
    matrix_shape: &mut Matrix,
) -> (rotated: Matrix)
    requires
        rectangular(cells(game_space)),
        rows == cells(game_space).len(),
        cols == width(cells(game_space)),
        min_row <= rows,
        min_col <= cols,
        cells(old(matrix_shape)) == empty_cells(size as int, size as int),
    ensures
        cells(final(matrix_shape)) == lifted_at(
            cells(game_space),
            size as int,
            min_row as int,
            min_col as int,
        ),
        cells(&rotated) == turned_clockwise(cells(final(matrix_shape))),
{
    lift_moving(size, rows, cols, min_row, min_col, game_space, matrix_shape);
    turn_clockwise(matrix_shape)
}

/// Lifts the falling piece out of the grid into `matrix_shape` and returns
/// it turned a quarter counterclockwise.
fn rotate_counterclockwise_matrix(
    size: usize,
    rows: usize,
    cols: usize,
    min_row: usize,
    min_col: usize,
    game_space: &Matrix,
    matrix_shape: &mut Matrix,
) -> (rotated: Matrix)
    requires
        rectangular(cells(game_space)),
        rows == cells(game_space).len(),
        cols == width(cells(game_space)),
        min_row <= rows,
        min_col <= cols,
        cells(old(matrix_shape)) == empty_cells(size as int, size as int),
    ensures
        cells(final(matrix_shape)) == lifted_at(
            cells(game_space),
            size as int,
            min_row as int,
            min_col as int,
        ),
        cells(&rotated) == turned_counterclockwise(cells(final(matrix_shape))),
{
    lift_moving(size, rows, cols, min_row, min_col, game_space, matrix_shape);
    turn_counterclockwise(matrix_shape)
}

/// Whether every brick of the turned piece finds a cell of the grid that
/// holds no brick at rest.
fn can_rotate(
    size: usize,
    rows: usize,
    cols: usize,
    min_row: usize,
    min_col: usize,
    game_space: &Matrix,
    rotated: &Matrix,
) -> (can_rotate: bool)
    requires
        rectangular(cells(game_space)),
        rows == cells(game_space).len(),
        cols == width(cells(game_space)),
        min_row <= rows,
        min_col <= cols,
        cells(rotated).len() == size,
        is_square(cells(rotated)),
    ensures
        can_rotate == fits_at(cells(game_space), cells(rotated), min_row as int, min_col as int),
{
    let ghost g = cells(game_space);
    let ghost m = cells(rotated);
    let mut can_rotate = true;

    let mut row: usize = 0;
    while row < size && can_rotate
        invariant
            rectangular(g),
            g == cells(game_space),
            m == cells(rotated),
            rows == g.len(),
            cols == width(g),
            min_row <= rows,
            min_col <= cols,
            m.len() == size,
            is_square(m),
            row <= size,
            can_rotate ==> forall|r: int, c: int|
                0 <= r < row && 0 <= c < size && (#[trigger] m[r][c]) is Some ==> open_at(
                    g,
                    min_row + r,
                    min_col + c,
                ),
            !can_rotate ==> !fits_at(g, m, min_row as int, min_col as int),
        decreases size - row, can_rotate as int,
    {
        let mut col: usize = 0;
        while col < size && can_rotate
            invariant
                rectangular(g),
                g == cells(game_space),
                m == cells(rotated),
                rows == g.len(),
                cols == width(g),
                min_row <= rows,
                min_col <= cols,
                m.len() == size,
                is_square(m),
                row < size,
                col <= size,
                can_rotate ==> forall|r: int, c: int|
                    (0 <= r < row || (r == row && c < col)) && 0 <= c < size && (
                    #[trigger] m[r][c]) is Some ==> open_at(g, min_row + r, min_col + c),
                !can_rotate ==> !fits_at(g, m, min_row as int, min_col as int),
            decreases size - col, can_rotate as int,
        {
            assert(m[row as int].len() == size);
            if rotated[row][col].is_some() {
                if row >= rows - min_row || col >= cols - min_col {
                    assert(!open_at(g, min_row + row, min_col + col));
                    can_rotate = false;
                } else {
                    let game_row = min_row + row;
                    let game_col = min_col + col;
                    assert(g[game_row as int].len() == cols);
                    if let Some(brick) = &game_space[game_row][game_col] {
                        if !brick.moving {
                            assert(!open_at(g, min_row + row, min_col + col));
                            can_rotate = false;
                        }
                    }
                }
            }
            if can_rotate {
                col += 1;
            }
        }
        if can_rotate {
            row += 1;
        }
    }
    proof {
        if can_rotate {
            assert forall|r: int, c: int|
                0 <= r < m.len() && 0 <= c < m[r].len() && (#[trigger] m[r][c]) is Some implies open_at(
                g,
                min_row + r,
                min_col + c,
            ) by {
                assert(m[r].len() == size);
            }
        }
    }
    can_rotate
}

/// Takes the falling piece off the grid and puts the bricks of `rotated`
/// down, the square's top left corner on `(min_row, min_col)`.
fn put_rotated(
    size: usize,
    rows: usize,
    cols: usize,
    min_row: usize,
    min_col: usize,
    game_space: &mut Matrix,
    rotated: &Matrix,
)
    requires
        rectangular(cells(old(game_space))),
        rows == cells(old(game_space)).len(),
        cols == width(cells(old(game_space))),
        min_row <= rows,
        min_col <= cols,
        cells(rotated).len() == size,
        is_square(cells(rotated)),
        fits_at(cells(old(game_space)), cells(rotated), min_row as int, min_col as int),
    ensures
        cells(final(game_space)) == placed_at(
            cells(old(game_space)),
            cells(rotated),
            min_row as int,
            min_col as int,
        ),
{
    let ghost g = cells(game_space);
    let ghost m = cells(rotated);
    let mut row: usize = 0;
    while row < rows
        invariant
            rectangular(g),
            rows == g.len(),
            cols == width(g),
            row <= rows,
            cells(game_space).len() == rows,
            forall|r: int| 0 <= r < rows ==> (#[trigger] cells(game_space)[r]).len() == cols,
            forall|r: int, c: int|
                0 <= r < rows && 0 <= c < cols ==> #[trigger] cells(game_space)[r][c] == if r < row {
                    without_moving(g)[r][c]
                } else {
                    g[r][c]
                },
        decreases rows - row,
    {
        let mut col: usize = 0;
        while col < cols
            invariant
                rectangular(g),
                rows == g.len(),
                cols == width(g),
                row < rows,
                col <= cols,
                cells(game_space).len() == rows,
                forall|r: int| 0 <= r < rows ==> (#[trigger] cells(game_space)[r]).len() == cols,
                forall|r: int, c: int|
                    0 <= r < rows && 0 <= c < cols ==> #[trigger] cells(game_space)[r][c] == if r
                        < row || (r == row && c < col) {
                        without_moving(g)[r][c]
                    } else {
                        g[r][c]
                    },
            decreases cols - col,
        {
            let ghost before = cells(game_space);
            assert(before[row as int].len() == cols);
            assert(g[row as int].len() == cols);
            assert(before[row as int][col as int] == g[row as int][col as int]);
            if let Some(brick) = &game_space[row][col] {
                if brick.moving {
                    game_space[row][col] = None;
                }
            }
            assert forall|r: int, c: int| 0 <= r < rows && 0 <= c < cols && !(r == row && c
                == col) implies #[trigger] cells(game_space)[r][c] == before[r][c] by {}
            assert forall|r: int| 0 <= r < rows implies (#[trigger] cells(game_space)[r]).len()
                == cols by {
                assert(before[r].len() == cols);
            }
            col += 1;
        }
        row += 1;
    }

    let mut row: usize = 0;
    while row < size
        invariant
            rectangular(g),
            rows == g.len(),
            cols == width(g),
            min_row <= rows,
            min_col <= cols,
            m == cells(rotated),
            m.len() == size,
            is_square(m),
            fits_at(g, m, min_row as int, min_col as int),
            row <= size,
            cells(game_space).len() == rows,
            forall|r: int| 0 <= r < rows ==> (#[trigger] cells(game_space)[r]).len() == cols,
            forall|r: int, c: int|
                0 <= r < rows && 0 <= c < cols ==> #[trigger] cells(game_space)[r][c] == if r
                    - min_row < row {
                    placed_at(g, m, min_row as int, min_col as int)[r][c]
                } else {
                    without_moving(g)[r][c]
                },
        decreases size - row,
    {
        let mut col: usize = 0;
        while col < size
            invariant
                rectangular(g),
                rows == g.len(),
                cols == width(g),
                min_row <= rows,
                min_col <= cols,
                m == cells(rotated),
                m.len() == size,
                is_square(m),
                fits_at(g, m, min_row as int, min_col as int),
                row < size,
                col <= size,
                cells(game_space).len() == rows,
                forall|r: int| 0 <= r < rows ==> (#[trigger] cells(game_space)[r]).len() == cols,
                forall|r: int, c: int|
                    0 <= r < rows && 0 <= c < cols ==> #[trigger] cells(game_space)[r][c] == if r
                        - min_row < row || (r - min_row == row && c - min_col < col) {
                        placed_at(g, m, min_row as int, min_col as int)[r][c]
                    } else {
                        without_moving(g)[r][c]
                    },
            decreases size - col,
        {
            let ghost before = cells(game_space);
            assert(m[row as int].len() == size);
            if let Some(_) = &rotated[row][col] {
                assert(m[row as int][col as int] is Some);
                assert(open_at(g, min_row + row, min_col + col));
                let game_row = min_row + row;
                let game_col = min_col + col;

                if game_row < rows && game_col < cols {
                    assert(before[game_row as int].len() == cols);
                    game_space[game_row][game_col] = rotated[row][col];
                    assert forall|r: int, c: int| 0 <= r < rows && 0 <= c < cols && !(r == game_row
                        && c == game_col) implies #[trigger] cells(game_space)[r][c]
                        == before[r][c] by {}
                    assert forall|r: int| 0 <= r < rows implies (#[trigger] cells(
                        game_space,
                    )[r]).len() == cols by {
                        assert(before[r].len() == cols);
                    }
                }
            }
            col += 1;
        }
        row += 1;
    }
    assert forall|r: int, c: int| 0 <= r < rows && 0 <= c < cols implies #[trigger] cells(
        game_space,
    )[r][c] == placed_at(g, m, min_row as int, min_col as int)[r][c] by {
        if r - min_row >= size {
        } else if r - min_row >= 0 {
            assert(m[r - min_row].len() == size);
        }
    }
    assert(cells(game_space) =~~= placed_at(g, m, min_row as int, min_col as int));
}

/// Turns the falling piece a quarter clockwise inside the smallest square
/// that holds it. Where a turned brick would leave the grid or lie on a
/// brick at rest, the grid stays exactly as it is; so it does where no piece
/// is falling.
pub fn rotate_clockwise(game_space: &mut Vec<Vec<Option<Brick>>>)
    requires
        rectangular(cells(old(game_space))),
    ensures
        cells(final(game_space)) == rotated_by(
            cells(old(game_space)),
            turned_clockwise(lifted(cells(old(game_space)))),
        ),
        same_size(cells(final(game_space)), cells(old(game_space))),
{
    let rows = game_space.len();
    let cols = game_space[0].len();

    if let Some((size, min_row, min_col)) = find_size(rows, cols, game_space) {
        let mut matrix_shape = new_matrix(size, size);

        let rotated = rotate_clockwise_matrix(
            size,
            rows,
            cols,
            min_row,
            min_col,
            game_space,
            &mut matrix_shape,
        );

        let can_rotate = can_rotate(size, rows, cols, min_row, min_col, game_space, &rotated);

        if can_rotate {
            put_rotated(size, rows, cols, min_row, min_col, game_space, &rotated);
        }
    }
}

/// Turns the falling piece a quarter counterclockwise inside the smallest
/// square that holds it. Where a turned brick would leave the grid or lie on
/// a brick at rest, the grid stays exactly as it is; so it does where no
/// piece is falling.
pub fn rotate_counterclockwise(game_space: &mut Vec<Vec<Option<Brick>>>)
    requires
        rectangular(cells(old(game_space))),
    ensures
        cells(final(game_space)) == rotated_by(
            cells(old(game_space)),
            turned_counterclockwise(lifted(cells(old(game_space)))),
        ),
        same_size(cells(final(game_space)), cells(old(game_space))),
{
    let rows = game_space.len();
    let cols = game_space[0].len();

    if let Some((size, min_row, min_col)) = find_size(rows, cols, game_space) {
        let mut matrix_shape = new_matrix(size, size);

        let rotated = rotate_counterclockwise_matrix(
            size,
            rows,
            cols,
            min_row,
            min_col,
            game_space,
            &mut matrix_shape,
        );

        let can_rotate = can_rotate(size, rows, cols, min_row, min_col, game_space, &rotated);

        if can_rotate {
            put_rotated(size, rows, cols, min_row, min_col, game_space, &rotated);
        }
    }
}

} // verus!
