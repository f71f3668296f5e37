//! Movement of the falling piece: one step left, right or down, and the lock
//! that ends a fall.

use vstd::prelude::*;
use crate::tetromino::{
    has_brick,
    lemma_fresh_piece,
    lemma_solid_rows_are_rows,
    lemma_solid_rows_concat,
    lemma_solid_rows_len,
    solid_rows,
    spawn_col,
    stamp_rows,
    stamped,
    Brick,
    Kind,
    Tetromino,
};
use crate::types::{
    cells,
    in_grid,
    is_moving,
    is_settled,
    playable,
    rectangular,
    same_size,
    width,
    Cells,
    Matrix,
};

verus! {

/// `(r, c)` is a cell of `g` that holds a brick of the falling piece.
pub open spec fn moving_at(g: Cells, r: int, c: int) -> bool {
    in_grid(g, r, c) && is_moving(g[r][c])
}

/// `(r, c)` is a cell of `g` that a falling brick may enter: it lies in the
/// grid and holds no brick at rest.
pub open spec fn open_at(g: Cells, r: int, c: int) -> bool {
    in_grid(g, r, c) && !is_settled(g[r][c])
}

/// Every brick of the falling piece may step by `(dr, dc)`.
pub open spec fn can_shift(g: Cells, dr: int, dc: int) -> bool {
    forall|r: int, c: int| #[trigger] moving_at(g, r, c) ==> open_at(g, r + dr, c + dc)
}

/// What cell `(r, c)` holds once the falling piece has stepped by `(dr, dc)`:
/// the falling brick that arrives there, else nothing where a falling brick
/// has left, else what it held.
pub open spec fn shifted_cell(g: Cells, dr: int, dc: int, r: int, c: int) -> Option<Brick> {
    if moving_at(g, r - dr, c - dc) {
        g[r - dr][c - dc]
    } else if is_moving(g[r][c]) {
        None
    } else {
        g[r][c]
    }
}

/// The grid once the falling piece has stepped by `(dr, dc)`.
pub open spec fn shifted(g: Cells, dr: int, dc: int) -> Cells {
    Seq::new(g.len(), |r: int| Seq::new(g[r].len(), |c: int| shifted_cell(g, dr, dc, r, c)))
}

/// The cell with its brick, if any, at rest.
pub open spec fn settled_cell(cell: Option<Brick>) -> Option<Brick> {
    match cell {
        Some(brick) => Some(Brick { color: brick.color, moving: false }),
        None => None,
    }
}

/// The grid with every brick at rest: the falling piece has locked.
pub open spec fn locked(g: Cells) -> Cells {
    Seq::new(g.len(), |r: int| Seq::new(g[r].len(), |c: int| settled_cell(g[r][c])))
}

/// The grid while a step by `(dr, dc)` is under way: the falling bricks at the
/// cells in `done` have stepped, the others have not.
spec fn partly_shifted(g: Cells, dr: int, dc: int, done: Set<(int, int)>) -> Cells {
    Seq::new(
        g.len(),
        |r: int|
            Seq::new(
                g[r].len(),
                |c: int|
                    if done.contains((r - dr, c - dc)) && moving_at(g, r - dr, c - dc) {
                        g[r - dr][c - dc]
                    } else if done.contains((r, c)) && is_moving(g[r][c]) {
                        None
                    } else {
                        g[r][c]
                    },
            ),
    )
}

/// The grid with cell `(r, c)` replaced.
spec fn with_cell(g: Cells, r: int, c: int, cell: Option<Brick>) -> Cells {
    g.update(r, g[r].update(c, cell))
}

/// Before any brick has stepped the grid is as it was.
proof fn lemma_none_shifted(g: Cells, dr: int, dc: int)
    ensures
        partly_shifted(g, dr, dc, Set::empty()) == g,
{
    assert(partly_shifted(g, dr, dc, Set::empty()) =~~= g);
}

/// Once every falling brick has stepped the step is complete.
proof fn lemma_all_shifted(g: Cells, dr: int, dc: int, done: Set<(int, int)>)
    requires
        forall|r: int, c: int| #[trigger] moving_at(g, r, c) ==> done.contains((r, c)),
    ensures
        partly_shifted(g, dr, dc, done) == shifted(g, dr, dc),
{
    assert forall|r: int, c: int| in_grid(g, r, c) implies #[trigger] partly_shifted(
        g,
        dr,
        dc,
        done,
    )[r][c] == shifted(g, dr, dc)[r][c] by {
        if moving_at(g, r - dr, c - dc) {
            assert(done.contains((r - dr, c - dc)));
        }
        if is_moving(g[r][c]) {
            assert(moving_at(g, r, c));
        }
    }
    assert(partly_shifted(g, dr, dc, done) =~~= shifted(g, dr, dc));
}

/// Moving one more falling brick, from `(r, c)` to the cell next to it, takes
/// the grid from one stage of the step to the next. The brick that would
/// arrive at `(r, c)` has not stepped yet, and a falling brick that stood at
/// the target has already left it.
proof fn lemma_shift_one(g: Cells, dr: int, dc: int, done: Set<(int, int)>, r: int, c: int)
    requires
        dr != 0 || dc != 0,
        moving_at(g, r, c),
        open_at(g, r + dr, c + dc),
        !done.contains((r, c)),
        !(done.contains((r - dr, c - dc)) && moving_at(g, r - dr, c - dc)),
        moving_at(g, r + dr, c + dc) ==> done.contains((r + dr, c + dc)),
    ensures
        partly_shifted(g, dr, dc, done)[r][c] == g[r][c],
        with_cell(
            with_cell(partly_shifted(g, dr, dc, done), r, c, None),
            r + dr,
            c + dc,
            g[r][c],
        ) == partly_shifted(g, dr, dc, done.insert((r, c))),
{
    let before = partly_shifted(g, dr, dc, done);
    let after = with_cell(with_cell(before, r, c, None), r + dr, c + dc, g[r][c]);
    let goal = partly_shifted(g, dr, dc, done.insert((r, c)));
    assert(after.len() == goal.len());
    assert forall|i: int| 0 <= i < after.len() implies #[trigger] after[i] =~= goal[i] by {
        assert forall|j: int| 0 <= j < after[i].len() implies after[i][j] == goal[i][j] by {
            if i == r + dr && j == c + dc {
            } else if i == r && j == c {
            } else {
                assert((i - dr, j - dc) != (r, c));
                assert((i, j) != (r, c));
            }
        }
    }
    assert(after =~= goal);
}

/// `a` comes before `b` when the cells are read column by column, each
/// column from the top. Both are given as `(row, column)`.
spec fn column_major_before(a: (int, int), b: (int, int)) -> bool {
    a.1 < b.1 || (a.1 == b.1 && a.0 < b.0)
}

/// The place `(row, column)` that a listed pair of indices names.
spec fn place(p: (usize, usize)) -> (int, int) {
    (p.0 as int, p.1 as int)
}

/// `list` names exactly the cells of `g` that hold a falling brick, each once,
/// column by column and each column from the top.
spec fn lists_moving(list: Seq<(usize, usize)>, g: Cells) -> bool {
    &&& forall|k: int| 0 <= k < list.len() ==> moving_at(g, (#[trigger] list[k]).0 as int, list[k].1 as int)
    &&& forall|r: int, c: int| #[trigger]
        moving_at(g, r, c) ==> exists|k: int| 0 <= k < list.len() && #[trigger] place(list[k]) == (r, c)
    &&& forall|i: int, j: int|
        0 <= i < j < list.len() ==> column_major_before(
            #[trigger] place(list[i]),
            #[trigger] place(list[j]),
        )
}

/// The places of the falling bricks, column by column.
fn moving_bricks(game_space: &Matrix) -> (list: Vec<(usize, usize)>)
    requires
        rectangular(cells(game_space)),
    ensures
        lists_moving(list@, cells(game_space)),
{
    let ghost g = cells(game_space);
    let rows = game_space.len();
    let cols = game_space[0].len();
    let mut list: Vec<(usize, usize)> = Vec::new();
    let mut col: usize = 0;
    while col < cols
        invariant
            rectangular(g),
            g == cells(game_space),
            rows == g.len(),
            cols == width(g),
            col <= cols,
            forall|k: int|
                0 <= k < list@.len() ==> moving_at(g, (#[trigger] list@[k]).0 as int, list@[k].1 as int)
                    && list@[k].1 < col,
            forall|r: int, c: int| #[trigger]
                moving_at(g, r, c) && c < col ==> exists|k: int|
                    0 <= k < list@.len() && #[trigger] place(list@[k]) == (r, c),
            forall|i: int, j: int|
                0 <= i < j < list@.len() ==> column_major_before(
                    #[trigger] place(list@[i]),
                    #[trigger] place(list@[j]),
                ),
        decreases cols - col,
    {
        let mut row: usize = 0;
        while row < rows
            invariant
                rectangular(g),
                g == cells(game_space),
                rows == g.len(),
                cols == width(g),
                col < cols,
                row <= rows,
                forall|k: int|
                    0 <= k < list@.len() ==> moving_at(
                        g,
                        (#[trigger] list@[k]).0 as int,
                        list@[k].1 as int,
                    ) && (list@[k].1 < col || (list@[k].1 == col && list@[k].0 < row)),
                forall|r: int, c: int| #[trigger]
                    moving_at(g, r, c) && (c < col || (c == col && r < row)) ==> exists|k: int|
                        0 <= k < list@.len() && #[trigger] place(list@[k]) == (r, c),
                forall|i: int, j: int|
                    0 <= i < j < list@.len() ==> column_major_before(
                        #[trigger] place(list@[i]),
                        #[trigger] place(list@[j]),
                    ),
            decreases rows - row,
        {
            assert(g[row as int].len() == cols);
            if let Some(brick) = &game_space[row][col] {
                if brick.moving {
                    let ghost before = list@;
                    list.push((row, col));
                    proof {
                        let last = before.len() as int;
                        assert(place(list@[last]) == (row as int, col as int));
                        assert forall|r: int, c: int| #[trigger]
                            moving_at(g, r, c) && (c < col || (c == col && r < row + 1)) implies exists|
                            k: int,
                        |
                            0 <= k < list@.len() && #[trigger] place(list@[k]) == (r, c) by {
                            if r == row && c == col {
                                assert(place(list@[last]) == (r, c));
                            } else {
                                let k = choose|k: int|
                                    0 <= k < before.len() && #[trigger] place(before[k]) == (r, c);
                                assert(place(list@[k]) == (r, c));
                            }
                        }
                        assert forall|i: int, j: int| 0 <= i < j < list@.len() implies column_major_before(
                        #[trigger] place(list@[i]), #[trigger] place(list@[j])) by {
                            if j < last {
                                assert(column_major_before(place(before[i]), place(before[j])));
                            } else {
                                assert(list@[i] == before[i]);
                            }
                        }
                    }
                }
            }
            row += 1;
        }
        col += 1;
    }
    list
}

/// Whether the falling piece can step one column sideways: to the right, or
/// else to the left. `list` names its bricks.
fn can_step_sideways(game_space: &Matrix, list: &Vec<(usize, usize)>, right: bool) -> (can_move:
    bool)
    requires
        rectangular(cells(game_space)),
        lists_moving(list@, cells(game_space)),
    ensures
        can_move == can_shift(cells(game_space), 0, if right { 1int } else { -1int }),
{
    let ghost g = cells(game_space);
    let ghost dc = if right { 1int } else { -1int };
    let cols = game_space[0].len();
    let mut can_move = true;
    let mut k: usize = 0;
    while k < list.len() && can_move
        invariant
            rectangular(g),
            g == cells(game_space),
            lists_moving(list@, g),
            cols == width(g),
            dc == if right { 1int } else { -1int },
            k <= list@.len(),
            can_move ==> forall|i: int|
                0 <= i < k ==> open_at(g, (#[trigger] list@[i]).0 as int, list@[i].1 + dc),
            !can_move ==> !can_shift(g, 0, dc),
        decreases list@.len() - k, can_move as int,
    {
        let (row, col) = list[k];
        assert(moving_at(g, list@[k as int].0 as int, list@[k as int].1 as int));
        assert(g[row as int].len() == cols);
        if right {
            if col + 1 >= cols || (game_space[row][col + 1].is_some() && !game_space[row][col
                + 1].as_ref().unwrap().moving) {
                can_move = false;
            }
        } else {
            if col == 0 || (game_space[row][col - 1].is_some() && !game_space[row][col
                - 1].as_ref().unwrap().moving) {
                can_move = false;
            }
        }
        if can_move {
            k += 1;
        }
    }
    proof {
        if can_move {
            assert forall|r: int, c: int| #[trigger] moving_at(g, r, c) implies open_at(
                g,
                r,
                c + dc,
            ) by {
                let i = choose|i: int| 0 <= i < list@.len() && #[trigger] place(list@[i]) == (r, c);
                assert(open_at(g, list@[i].0 as int, list@[i].1 + dc));
            }
        }
    }
    can_move
}

/// Moves the falling piece one column to the right. Where any of its bricks
/// would leave the grid or run into a brick at rest, the grid stays exactly
/// as it is.
pub fn move_right(game_space: &mut Matrix)
    requires
        rectangular(cells(old(game_space))),
    ensures
        cells(final(game_space)) == if can_shift(cells(old(game_space)), 0, 1) {
            shifted(cells(old(game_space)), 0, 1)
        } else {
            cells(old(game_space))
        },
        same_size(cells(final(game_space)), cells(old(game_space))),
{
    let ghost g = cells(game_space);
    let moving_bricks = moving_bricks(game_space);

    if moving_bricks.is_empty() {
        proof {
            assert(can_shift(g, 0, 1));
            lemma_none_shifted(g, 0, 1);
            lemma_all_shifted(g, 0, 1, Set::empty());
        }
        return ;
    }
    let can_move = can_step_sideways(game_space, &moving_bricks, true);

    if can_move {
        let ghost list = moving_bricks@;
        let ghost mut done: Set<(int, int)> = Set::empty();
        proof {
            lemma_none_shifted(g, 0, 1);
        }
        let mut k: usize = moving_bricks.len();
        while k > 0
            invariant
                rectangular(g),
                can_shift(g, 0, 1),
                lists_moving(list, g),
                list == moving_bricks@,
                k <= list.len(),
                cells(game_space) == partly_shifted(g, 0, 1, done),
                forall|r: int, c: int|
                    #[trigger] done.contains((r, c)) <==> moving_at(g, r, c) && (k == 0
                        || column_major_before(place(list[k - 1]), (r, c))),
            decreases k,
        {
            k -= 1;
            let (row, col) = moving_bricks[k];
            proof {
                lemma_step_listed(g, list, k as int, done, 1);
                lemma_shift_one(g, 0, 1, done, row as int, col as int);
                assert(open_at(g, row as int, col + 1));
                assert(cells(game_space).len() == g.len());
                assert(cells(game_space)[row as int].len() == g[row as int].len());
                assert(game_space@[row as int].len() == g[row as int].len());
            }
            game_space[row][col + 1] = game_space[row][col].take();
            proof {
                assert(cells(game_space) =~~= with_cell(
                    with_cell(partly_shifted(g, 0, 1, done), row as int, col as int, None),
                    row as int,
                    col + 1,
                    g[row as int][col as int],
                ));
                done = done.insert((row as int, col as int));
            }
        }
        proof {
            lemma_all_shifted(g, 0, 1, done);
        }
    }
}

/// Moves the falling piece one column to the left. Where any of its bricks
/// would leave the grid or run into a brick at rest, the grid stays exactly
/// as it is.
pub fn move_left(game_space: &mut Matrix)
    requires
        rectangular(cells(old(game_space))),
    ensures
        cells(final(game_space)) == if can_shift(cells(old(game_space)), 0, -1) {
            shifted(cells(old(game_space)), 0, -1)
        } else {
            cells(old(game_space))
        },
        same_size(cells(final(game_space)), cells(old(game_space))),
{
    let ghost g = cells(game_space);
    let moving_bricks = moving_bricks(game_space);

    if moving_bricks.is_empty() {
        proof {
            assert(can_shift(g, 0, -1));
            lemma_none_shifted(g, 0, -1);
            lemma_all_shifted(g, 0, -1, Set::empty());
        }
        return ;
    }
    let can_move = can_step_sideways(game_space, &moving_bricks, false);

    if can_move {
        let ghost list = moving_bricks@;
        let ghost mut done: Set<(int, int)> = Set::empty();
        proof {
            lemma_none_shifted(g, 0, -1);
        }
        let mut k: usize = 0;
        while k < moving_bricks.len()
            invariant
                rectangular(g),
                can_shift(g, 0, -1),
                lists_moving(list, g),
                list == moving_bricks@,
                k <= list.len(),
                cells(game_space) == partly_shifted(g, 0, -1, done),
                forall|r: int, c: int|
                    #[trigger] done.contains((r, c)) <==> moving_at(g, r, c) && (k == list.len()
                        || column_major_before((r, c), place(list[k as int]))),
            decreases list.len() - k,
        {
            let (row, col) = moving_bricks[k];
            proof {
                lemma_step_listed(g, list, k as int, done, -1);
                lemma_shift_one(g, 0, -1, done, row as int, col as int);
                assert(cells(game_space).len() == g.len());
                assert(cells(game_space)[row as int].len() == g[row as int].len());
            }
            game_space[row][col - 1] = game_space[row][col].take();
            proof {
                assert(cells(game_space) =~~= with_cell(
                    with_cell(partly_shifted(g, 0, -1, done), row as int, col as int, None),
                    row as int,
                    col - 1,
                    g[row as int][col as int],
                ));
                done = done.insert((row as int, col as int));
            }
            k += 1;
        }
        proof {
            lemma_all_shifted(g, 0, -1, done);
        }
    }
}

/// While the listed bricks step sideways one after the other, those nearest
/// the side they step to first, the brick at index `k` can take its step: it
/// has not stepped, the brick behind it has not stepped, the cell before it is
/// open and a falling brick that stood there has stepped already. After its
/// step the bricks that have stepped are again those on the far side of the
/// next one. Stepping left (`dc` is -1) the bricks before index `k` have
/// stepped; stepping right (`dc` is 1) those after it.
proof fn lemma_step_listed(g: Cells, list: Seq<(usize, usize)>, k: int, done: Set<(int, int)>, dc: int)
    requires
        dc == 1 || dc == -1,
        rectangular(g),
        can_shift(g, 0, dc),
        lists_moving(list, g),
        0 <= k < list.len(),
        dc == -1 ==> forall|r: int, c: int|
            #[trigger] done.contains((r, c)) <==> moving_at(g, r, c) && column_major_before(
                (r, c),
                place(list[k]),
            ),
        dc == 1 ==> forall|r: int, c: int|
            #[trigger] done.contains((r, c)) <==> moving_at(g, r, c) && column_major_before(
                place(list[k]),
                (r, c),
            ),
    ensures
        moving_at(g, list[k].0 as int, list[k].1 as int),
        open_at(g, list[k].0 as int, list[k].1 + dc),
        !done.contains(place(list[k])),
        !(done.contains((list[k].0 as int, list[k].1 - dc)) && moving_at(
            g,
            list[k].0 as int,
            list[k].1 - dc,
        )),
        moving_at(g, list[k].0 as int, list[k].1 + dc) ==> done.contains(
            (list[k].0 as int, list[k].1 + dc),
        ),
        dc == -1 ==> forall|r: int, c: int|
            #[trigger] done.insert(place(list[k])).contains((r, c)) <==> moving_at(g, r, c) && (k
                + 1 == list.len() || column_major_before((r, c), place(list[k + 1]))),
        dc == 1 ==> forall|r: int, c: int|
            #[trigger] done.insert(place(list[k])).contains((r, c)) <==> moving_at(g, r, c) && (k
                == 0 || column_major_before(place(list[k - 1]), (r, c))),
{
    let here = place(list[k]);
    assert(moving_at(g, list[k].0 as int, list[k].1 as int));
    assert forall|r: int, c: int| moving_at(g, r, c) implies (column_major_before((r, c), here)
        || (r, c) == here || column_major_before(here, (r, c))) by {}
    if dc == -1 {
        assert forall|r: int, c: int| #[trigger]
            done.insert(here).contains((r, c)) <==> moving_at(g, r, c) && (k + 1 == list.len()
                || column_major_before((r, c), place(list[k + 1]))) by {
            if k + 1 < list.len() {
                assert(column_major_before(place(list[k]), place(list[k + 1])));
            }
            if moving_at(g, r, c) {
                let m = choose|m: int| 0 <= m < list.len() && #[trigger] place(list[m]) == (r, c);
                if m < k {
                    assert(column_major_before(place(list[m]), place(list[k])));
                } else if m > k {
                    assert(column_major_before(place(list[k]), place(list[m])));
                    if m > k + 1 {
                        assert(column_major_before(place(list[k + 1]), place(list[m])));
                    }
                }
            }
        }
    } else {
        assert forall|r: int, c: int| #[trigger]
            done.insert(here).contains((r, c)) <==> moving_at(g, r, c) && (k == 0
                || column_major_before(place(list[k - 1]), (r, c))) by {
            if k > 0 {
                assert(column_major_before(place(list[k - 1]), place(list[k])));
            }
            if moving_at(g, r, c) {
                let m = choose|m: int| 0 <= m < list.len() && #[trigger] place(list[m]) == (r, c);
                if m > k {
                    assert(column_major_before(place(list[k]), place(list[m])));
                } else if m < k {
                    assert(column_major_before(place(list[m]), place(list[k])));
                    if m < k - 1 {
                        assert(column_major_before(place(list[m]), place(list[k - 1])));
                    }
                }
            }
        }
    }
}

/// Moves the falling piece one row down. Where any of its bricks would leave
/// the grid or land on a brick at rest, none moves and the piece locks
/// instead: every brick of the grid is then at rest. Returns whether the
/// piece moved.
pub fn move_bottom(game_space: &mut Matrix) -> (moved: bool)
    requires
        rectangular(cells(old(game_space))),
    ensures
        moved == can_shift(cells(old(game_space)), 1, 0),
        moved ==> cells(final(game_space)) == shifted(cells(old(game_space)), 1, 0),
        !moved ==> cells(final(game_space)) == locked(cells(old(game_space))),
        same_size(cells(final(game_space)), cells(old(game_space))),
{
    let rows = game_space.len();
    let cols = game_space[0].len();
    let ghost g = cells(game_space);
    let mut can_move = true;

    let mut row: usize = 0;
    while row < rows && can_move
        invariant
            rectangular(g),
            g == cells(game_space),
            rows == g.len(),
            cols == width(g),
            row <= rows,
            can_move ==> forall|r: int, c: int|
                #[trigger] moving_at(g, r, c) && r < row ==> open_at(g, r + 1, c),
            !can_move ==> !can_shift(g, 1, 0),
        decreases rows - row, can_move as int,
    {
        let mut col: usize = 0;
        while col < cols && can_move
            invariant
                rectangular(g),
                g == cells(game_space),
                rows == g.len(),
                cols == width(g),
                row < rows,
                col <= cols,
                can_move ==> forall|r: int, c: int|
                    #[trigger] moving_at(g, r, c) && (r < row || (r == row && c < col))
                        ==> open_at(g, r + 1, c),
                !can_move ==> !can_shift(g, 1, 0),
            decreases cols - col, can_move as int,
        {
            assert(g[row as int].len() == cols);
            if let Some(brick) = &game_space[row][col] {
                if brick.moving {
                    assert(moving_at(g, row as int, col as int));
                    if row + 1 >= rows {
                        can_move = false;
                    } else {
                        assert(g[row + 1].len() == cols);
                        if let Some(other_brick) = &game_space[row + 1][col] {
                            if !other_brick.moving {
                                can_move = false;
                            }
                        }
                    }
                }
            }
            if can_move {
                col += 1;
            }
        }
        if can_move {
            row += 1;
        }
    }

    if !can_move {
        lock(game_space);
        return false;
    }
    assert(can_shift(g, 1, 0));

    let ghost mut done: Set<(int, int)> = Set::empty();
    proof {
        lemma_none_shifted(g, 1, 0);
    }
    let mut below: usize = rows - 1;
    while below > 0
        invariant
            rectangular(g),
            can_shift(g, 1, 0),
            rows == g.len(),
            cols == width(g),
            below < rows,
            cells(game_space) == partly_shifted(g, 1, 0, done),
            forall|r: int, c: int|
                #[trigger] done.contains((r, c)) <==> below <= r < rows - 1 && in_grid(g, r, c),
        decreases below,
    {
        let row = below - 1;
        let mut col: usize = 0;
        while col < cols
            invariant
                rectangular(g),
                can_shift(g, 1, 0),
                rows == g.len(),
                cols == width(g),
                below < rows,
                row == below - 1,
                col <= cols,
                cells(game_space) == partly_shifted(g, 1, 0, done),
                forall|r: int, c: int|
                    #[trigger] done.contains((r, c)) <==> (below <= r < rows - 1 || (r == row && c
                        < col)) && in_grid(g, r, c),
            decreases cols - col,
        {
            assert(g[row as int].len() == cols && g[below as int].len() == cols);
            assert(cells(game_space).len() == rows);
            assert(cells(game_space)[row as int].len() == cols);
            assert(cells(game_space)[below as int].len() == cols);
            proof {
                if moving_at(g, row as int, col as int) {
                    assert(open_at(g, row + 1, col as int));
                    if moving_at(g, row + 1, col as int) {
                        assert(open_at(g, row + 2, col as int));
                    }
                    lemma_shift_one(g, 1, 0, done, row as int, col as int);
                }
            }
            if let Some(brick) = &game_space[row][col] {
                if brick.moving {
                    let brick = game_space[row][col].take();
                    game_space[row + 1][col] = brick;
                    assert(cells(game_space) =~~= with_cell(
                        with_cell(partly_shifted(g, 1, 0, done), row as int, col as int, None),
                        row + 1,
                        col as int,
                        g[row as int][col as int],
                    ));
                }
            }
            proof {
                done = done.insert((row as int, col as int));
                if !moving_at(g, row as int, col as int) {
                    assert(partly_shifted(g, 1, 0, done) =~~= cells(game_space));
                }
            }
            col += 1;
        }
        below = row;
    }
    proof {
        assert forall|r: int, c: int| #[trigger] moving_at(g, r, c) implies done.contains(
            (r, c),
        ) by {
            assert(open_at(g, r + 1, c));
        }
        lemma_all_shifted(g, 1, 0, done);
    }
    true
}

/// A lock moves no brick: every cell holds a brick after it exactly where
/// it held one before, of the same colour, and every brick is at rest.
pub proof fn lemma_lock_moves_nothing(g: Cells)
    ensures
        same_size(locked(g), g),
        forall|r: int, c: int|
            in_grid(g, r, c) ==> match (#[trigger] locked(g)[r][c]) {
                Some(brick) => g[r][c] is Some && brick.color == g[r][c]->0.color && !brick.moving,
                None => g[r][c] is None,
            },
{
}

/// Brings every brick of the grid to rest.
fn lock(game_space: &mut Matrix)
    ensures
        cells(final(game_space)) == locked(cells(old(game_space))),
{
    let ghost g = cells(game_space);
    let rows = game_space.len();
    let mut row: usize = 0;
    while row < rows
        invariant
            rows == g.len(),
            row <= rows,
            cells(game_space).len() == rows,
            forall|r: int|
                0 <= r < rows ==> #[trigger] cells(game_space)[r] == if r < row {
                    locked(g)[r]
                } else {
                    g[r]
                },
        decreases rows - row,
    {
        assert(cells(game_space)[row as int] == g[row as int]);
        let cols = game_space[row].len();
        let mut col: usize = 0;
        while col < cols
            invariant
                rows == g.len(),
                row < rows,
                cols == g[row as int].len(),
                col <= cols,
                cells(game_space).len() == rows,
                forall|r: int|
                    0 <= r < rows && r != row ==> #[trigger] cells(game_space)[r] == if r < row {
                        locked(g)[r]
                    } else {
                        g[r]
                    },
                cells(game_space)[row as int].len() == cols,
                forall|c: int|
                    0 <= c < cols ==> #[trigger] cells(game_space)[row as int][c] == if c < col {
                        settled_cell(g[row as int][c])
                    } else {
                        g[row as int][c]
                    },
            decreases cols - col,
        {
            let ghost before = cells(game_space);
            if let Some(brick) = &mut game_space[row][col] {
                if brick.moving {
                    brick.moving = false;
                }
            }
            assert forall|r: int| 0 <= r < rows && r != row implies #[trigger] cells(
                game_space,
            )[r] == before[r] by {}
            assert forall|c: int| 0 <= c < cols && c != col implies #[trigger] cells(
                game_space,
            )[row as int][c] == before[row as int][c] by {}
            col += 1;
        }
        assert(cells(game_space)[row as int] =~= locked(g)[row as int]);
        row += 1;
    }
    assert(cells(game_space) =~= locked(g));
}

/// `(r, c)` is a cell of `g` that holds a brick at rest.
pub open spec fn settled_at(g: Cells, r: int, c: int) -> bool {
    in_grid(g, r, c) && is_settled(g[r][c])
}

/// Some brick of `row`, laid on row `r` of the grid with its first cell on
/// column `col`, comes to lie on a brick at rest.
pub open spec fn row_collides(g: Cells, row: Seq<Option<Brick>>, r: int, col: int) -> bool {
    exists|j: int| 0 <= j < row.len() && (#[trigger] row[j]) is Some && settled_at(g, r, col + j)
}

/// How many of `rows`, counted from the first, can be laid on the grid one
/// below the other from its top row, each with its first cell on column
/// `col`, before one of them comes to lie on a brick at rest.
pub open spec fn fitting_rows(g: Cells, rows: Cells, col: int) -> int
    decreases rows.len(),
{
    if rows.len() == 0 {
        0
    } else {
        let above = fitting_rows(g, rows.drop_last(), col);
        if above == rows.len() - 1 && !row_collides(g, rows.last(), rows.len() - 1, col) {
            above + 1
        } else {
            above
        }
    }
}

/// Every brick of `rows`, laid with the first cell of each row on column
/// `col`, lies on a column of the grid.
pub open spec fn within_columns(g: Cells, rows: Cells, col: int) -> bool {
    forall|k: int, j: int|
        0 <= k < rows.len() && 0 <= j < rows[k].len() && (#[trigger] rows[k][j]) is Some ==> col + j
            < width(g)
}

/// The rows of the grid that are looked at to find how many of `rows` fit
/// are rows of the grid: the rows that fit and, where one does not, that one.
pub open spec fn examined_in_grid(g: Cells, rows: Cells, col: int) -> bool {
    if fitting_rows(g, rows, col) < rows.len() {
        fitting_rows(g, rows, col) < g.len()
    } else {
        rows.len() <= g.len()
    }
}

/// No more rows fit than there are.
pub proof fn lemma_fitting_rows_bound(g: Cells, rows: Cells, col: int)
    ensures
        0 <= fitting_rows(g, rows, col) <= rows.len(),
    decreases rows.len(),
{
    if rows.len() > 0 {
        lemma_fitting_rows_bound(g, rows.drop_last(), col);
    }
}

/// Once a row does not fit, rows after it do not change the count.
proof fn lemma_fitting_rows_stops(g: Cells, a: Cells, b: Cells, col: int)
    requires
        fitting_rows(g, a, col) < a.len(),
    ensures
        fitting_rows(g, a + b, col) == fitting_rows(g, a, col),
    decreases b.len(),
{
    if b.len() == 0 {
        assert(a + b =~= a);
    } else {
        assert((a + b).drop_last() =~= a + b.drop_last());
        lemma_fitting_rows_stops(g, a, b.drop_last(), col);
    }
}

/// A fresh piece can be looked at and put where pieces come in on any
/// playable grid.
pub proof fn lemma_fresh_piece_fits(g: Cells, kind: Kind)
    requires
        playable(g),
    ensures
        within_columns(g, solid_rows(kind.shape()), spawn_col(g)),
        examined_in_grid(g, solid_rows(kind.shape()), spawn_col(g)),
        fitting_rows(g, solid_rows(kind.shape()), spawn_col(g)) <= solid_rows(kind.shape()).len()
            <= kind.shape().len() <= 4,
        0 <= fitting_rows(g, solid_rows(kind.shape()), spawn_col(g)),
{
    let piece = kind.shape();
    let solid = solid_rows(piece);
    let col = spawn_col(g);
    lemma_fresh_piece(kind);
    lemma_solid_rows_len(piece);
    lemma_solid_rows_are_rows(piece);
    lemma_fitting_rows_bound(g, solid, col);
    assert forall|k: int, j: int|
        0 <= k < solid.len() && 0 <= j < solid[k].len() && (#[trigger] solid[k][j]) is Some implies col
        + j < width(g) by {
        let i = choose|i: int| 0 <= i < piece.len() && piece[i] == solid[k];
        assert(piece[i][j] is Some);
    }
}

/// Whether a new piece collides with bricks at rest where it would be put
/// on the grid, and how many of its rows that hold a brick fit above the
/// first that collides. The piece's rows that hold a brick are laid one
/// below the other from the top row of the grid, in the columns from the
/// spawn column on.
pub fn is_game_over(game_space: &Matrix, item: &Tetromino) -> (result: (bool, u32))
    requires
        rectangular(cells(game_space)),
        width(cells(game_space)) >= 2,
        item.matrix@.len() <= u32::MAX,
        within_columns(
            cells(game_space),
            solid_rows(item.cells()),
            spawn_col(cells(game_space)),
        ),
        examined_in_grid(
            cells(game_space),
            solid_rows(item.cells()),
            spawn_col(cells(game_space)),
        ),
    ensures
        result.1 == fitting_rows(
            cells(game_space),
            solid_rows(item.cells()),
            spawn_col(cells(game_space)),
        ),
        result.0 == (result.1 < solid_rows(item.cells()).len()),
{
    let ghost g = cells(game_space);
    let ghost piece = item.cells();
    let ghost solid = solid_rows(piece);
    let rows = game_space.len();
    let cols = game_space[0].len();
    let start_col = cols / 2 - 1;
    let mut rows_to_render: usize = 0;

    let mut i: usize = 0;
    proof {
        assert(piece.take(0) =~= Seq::<Seq<Option<Brick>>>::empty());
    }
    while i < item.matrix.len()
        invariant
            rectangular(g),
            g == cells(game_space),
            rows == g.len(),
            cols == width(g),
            cols >= 2,
            start_col == spawn_col(g),
            piece == item.cells(),
            solid == solid_rows(piece),
            within_columns(g, solid, start_col as int),
            examined_in_grid(g, solid, start_col as int),
            piece.len() == item.matrix@.len(),
            piece.len() <= u32::MAX,
            i <= piece.len(),
            rows_to_render <= i,
            rows_to_render == solid_rows(piece.take(i as int)).len(),
            fitting_rows(g, solid_rows(piece.take(i as int)), start_col as int) == rows_to_render,
        decreases piece.len() - i,
    {
        let ghost above = solid_rows(piece.take(i as int));
        let ghost row = piece[i as int];
        let ghost rest = solid_rows(piece.skip(i + 1));
        proof {
            assert(row == item.matrix@[i as int]@);
            assert(piece.take(i + 1).drop_last() =~= piece.take(i as int));
            assert(piece.take(i + 1).last() == row);
            assert(piece =~= piece.take(i + 1) + piece.skip(i + 1));
            lemma_solid_rows_concat(piece.take(i + 1), piece.skip(i + 1));
            lemma_solid_rows_len(piece.take(i as int));
            if has_brick(row) {
                let through = above.push(row);
                assert(through.drop_last() =~= above);
                assert(through.last() == row);
                assert(solid == through + rest);
                assert(solid[rows_to_render as int] == row);
                lemma_fitting_rows_bound(g, through, start_col as int);
                if fitting_rows(g, through, start_col as int) < through.len() {
                    lemma_fitting_rows_stops(g, through, rest, start_col as int);
                } else {
                    lemma_fitting_rows_grows(g, through, rest, start_col as int);
                }
                assert(rows_to_render < rows);
            }
        }
        let mut seen = false;
        let mut j: usize = 0;
        while j < item.matrix[i].len()
            invariant
                rectangular(g),
                g == cells(game_space),
                rows == g.len(),
                cols == width(g),
                start_col < cols,
                i < item.matrix@.len(),
                row == item.matrix@[i as int]@,
                j <= row.len(),
                start_col == spawn_col(g),
                solid == solid_rows(item.cells()),
                rows_to_render <= u32::MAX,
                above.len() == rows_to_render,
                fitting_rows(g, above, start_col as int) == rows_to_render,
                has_brick(row) ==> solid == above.push(row) + rest,
                has_brick(row) ==> rows_to_render < rows,
                has_brick(row) ==> forall|k: int|
                    0 <= k < row.len() && (#[trigger] row[k]) is Some ==> start_col + k < cols,
                seen <==> exists|k: int| 0 <= k < j && (#[trigger] row[k]) is Some,
                forall|k: int|
                    0 <= k < j && (#[trigger] row[k]) is Some ==> !settled_at(
                        g,
                        rows_to_render as int,
                        start_col + k,
                    ),
            decreases row.len() - j,
        {
            if let Some(_) = &item.matrix[i][j] {
                assert(row[j as int] is Some);
                seen = true;
                let game_row = rows_to_render;
                let game_col = start_col + j;
                assert(g[game_row as int].len() == cols);

                if let Some(brick) = &game_space[game_row][game_col] {
                    if !brick.moving {
                        proof {
                            assert(settled_at(g, game_row as int, start_col + j));
                            let through = above.push(row);
                            assert(through.drop_last() =~= above);
                            assert(through.last() == row);
                            assert(row_collides(g, row, rows_to_render as int, start_col as int));
                            assert(fitting_rows(g, through, start_col as int) == rows_to_render);
                            lemma_fitting_rows_stops(g, through, rest, start_col as int);
                        }
                        return (true, rows_to_render as u32);
                    }
                }
            }
            j += 1;
        }
        proof {
            assert(seen == has_brick(row));
            if seen {
                let through = above.push(row);
                assert(through.drop_last() =~= above);
                assert(through.last() == row);
                assert(!row_collides(g, row, rows_to_render as int, start_col as int));
            }
        }
        if seen {
            rows_to_render += 1;
        }
        i += 1;
    }
    assert(piece.take(piece.len() as int) =~= piece);

    (false, rows_to_render as u32)
}

/// While every row fits, the count is taken over the rows that follow too.
proof fn lemma_fitting_rows_grows(g: Cells, a: Cells, b: Cells, col: int)
    requires
        fitting_rows(g, a, col) == a.len(),
    ensures
        fitting_rows(g, a + b, col) >= a.len(),
    decreases b.len(),
{
    if b.len() == 0 {
        assert(a + b =~= a);
    } else {
        assert((a + b).drop_last() =~= a + b.drop_last());
        lemma_fitting_rows_grows(g, a, b.drop_last(), col);
    }
}

/// Draws what is seen of a piece that could not be put on the grid: the
/// piece's last `rows_to_render` rows, those of them that hold a brick, one
/// below the other from the top row of the grid with the first cell of each
/// on column `start_col`. The bricks are drawn at rest, over whatever the
/// cells held; bricks that would lie outside the grid are left out.
pub fn draw_game_over_brick(
    game_space: &mut Matrix,
    start_col: usize,
    rows_to_render: u32,
    item: &Tetromino,
)
    requires
        rectangular(cells(old(game_space))),
        rows_to_render <= item.matrix@.len(),
    ensures
        cells(final(game_space)) == stamped(
            cells(old(game_space)),
            solid_rows(item.cells().skip(item.matrix@.len() - rows_to_render)),
            start_col as int,
            false,
        ),
        same_size(cells(final(game_space)), cells(old(game_space))),
{
    let rows_to_skip = item.matrix.len() - rows_to_render as usize;
    stamp_rows(game_space, &item.matrix, rows_to_skip, start_col, false);
}

} // verus!
