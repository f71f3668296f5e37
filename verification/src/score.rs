//! Line clearing and its score.

use vstd::prelude::*;
use crate::types::{
    cells,
    empty_cells,
    empty_row,
    is_settled,
    rectangular,
    same_size,
    width,
    Cells,
    Matrix,
};
use crate::tetromino::Brick;

verus! {

/// A row is complete when every cell holds a brick at rest. A row with an
/// empty cell, or with a brick of the falling piece, is not.
pub open spec fn is_complete(row: Seq<Option<Brick>>) -> bool {
    forall|c: int| 0 <= c < row.len() ==> is_settled(#[trigger] row[c])
}

/// The indices of the complete rows of `g`, from the top.
pub open spec fn complete_rows(g: Cells) -> Seq<int>
    decreases g.len(),
{
    if g.len() == 0 {
        Seq::empty()
    } else if is_complete(g.last()) {
        complete_rows(g.drop_last()).push(g.len() - 1)
    } else {
        complete_rows(g.drop_last())
    }
}

/// The rows of `g` that are not complete, in their order.
pub open spec fn kept_rows(g: Cells) -> Cells
    decreases g.len(),
{
    if g.len() == 0 {
        Seq::empty()
    } else if is_complete(g.last()) {
        kept_rows(g.drop_last())
    } else {
        kept_rows(g.drop_last()).push(g.last())
    }
}

/// The grid after line clearing: the complete rows are gone, the rows above
/// each of them have moved down, and as many empty rows have come in at the
/// top.
pub open spec fn cleared(g: Cells) -> Cells {
    empty_cells(complete_rows(g).len() as int, width(g)) + kept_rows(g)
}

/// Points for clearing `n` rows at once.
pub open spec fn line_score(n: nat) -> nat {
    if n == 0 {
        0
    } else if n == 1 {
        100
    } else if n == 2 {
        300
    } else if n == 3 {
        500
    } else if n == 4 {
        800
    } else {
        n * 100
    }
}

/// The grid without row `i`: the rows above it have moved down by one and an
/// empty row has come in at the top.
pub open spec fn without_row(g: Cells, i: int) -> Cells {
    seq![empty_row(width(g))] + g.remove(i)
}

/// What [`complete_rows`] lists: the complete rows, each once, from the top.
proof fn lemma_complete_rows(g: Cells)
    ensures
        complete_rows(g).len() <= g.len(),
        complete_rows(g).len() + kept_rows(g).len() == g.len(),
        forall|k: int|
            0 <= k < complete_rows(g).len() ==> 0 <= (#[trigger] complete_rows(g)[k]) < g.len()
                && is_complete(g[complete_rows(g)[k]]),
        forall|i: int, j: int|
            0 <= i < j < complete_rows(g).len() ==> complete_rows(g)[i] < complete_rows(g)[j],
        forall|r: int|
            0 <= r < g.len() && is_complete(#[trigger] g[r]) ==> complete_rows(g).contains(r),
    decreases g.len(),
{
    if g.len() > 0 {
        let above = g.drop_last();
        lemma_complete_rows(above);
        let list = complete_rows(g);
        if is_complete(g.last()) {
            assert(list[list.len() - 1] == g.len() - 1);
            assert forall|r: int| 0 <= r < g.len() && is_complete(#[trigger] g[r]) implies list.contains(
                r,
            ) by {
                if r < g.len() - 1 {
                    assert(above[r] == g[r]);
                    let k = choose|k: int|
                        0 <= k < complete_rows(above).len() && complete_rows(above)[k] == r;
                    assert(list[k] == r);
                } else {
                    assert(list[list.len() - 1] == r);
                }
            }
        } else {
            assert forall|r: int| 0 <= r < g.len() && is_complete(#[trigger] g[r]) implies list.contains(
                r,
            ) by {
                assert(above[r] == g[r]);
            }
        }
    }
}

/// Keeping the rows that are not complete goes part by part.
proof fn lemma_kept_rows_concat(a: Cells, b: Cells)
    ensures
        kept_rows(a + b) == kept_rows(a) + kept_rows(b),
    decreases b.len(),
{
    if b.len() == 0 {
        assert(a + b =~= a);
        assert(kept_rows(a) + kept_rows(b) =~= kept_rows(a));
    } else {
        assert((a + b).drop_last() =~= a + b.drop_last());
        assert((a + b).last() == b.last());
        lemma_kept_rows_concat(a, b.drop_last());
        if is_complete(b.last()) {
        } else {
            assert(kept_rows(a + b) =~= kept_rows(a) + kept_rows(b));
        }
    }
}

/// Where no row is complete every row is kept.
proof fn lemma_kept_rows_all(g: Cells)
    requires
        forall|r: int| 0 <= r < g.len() ==> !is_complete(#[trigger] g[r]),
    ensures
        kept_rows(g) == g,
    decreases g.len(),
{
    if g.len() > 0 {
        assert forall|r: int| 0 <= r < g.drop_last().len() implies !is_complete(
            #[trigger] g.drop_last()[r],
        ) by {
            assert(g.drop_last()[r] == g[r]);
        }
        lemma_kept_rows_all(g.drop_last());
        assert(g.drop_last().push(g.last()) =~= g);
    } else {
        assert(kept_rows(g) =~= g);
    }
}

/// Takes row `row_to_clear` out of the grid: empties it, then hands every row
/// above it down by one, which leaves the top row empty.
fn remove_row(game_space: &mut Matrix, row_to_clear: usize)
    requires
        rectangular(cells(old(game_space))),
        row_to_clear < old(game_space)@.len(),
    ensures
        cells(final(game_space)) == without_row(cells(old(game_space)), row_to_clear as int),
{
    let ghost g = cells(game_space);
    let ghost rows = g.len();
    let cols = game_space[0].len();

    let mut col: usize = 0;
    while col < cols
        invariant
            rectangular(g),
            cols == width(g),
            row_to_clear < rows,
            rows == g.len(),
            col <= cols,
            cells(game_space).len() == rows,
            forall|r: int| 0 <= r < rows && r != row_to_clear ==> #[trigger] cells(game_space)[r] == g[r],
            cells(game_space)[row_to_clear as int].len() == cols,
            forall|c: int|
                0 <= c < col ==> #[trigger] cells(game_space)[row_to_clear as int][c] == None::<Brick>,
        decreases cols - col,
    {
        let ghost before = cells(game_space);
        game_space[row_to_clear][col] = None;
        assert forall|r: int| 0 <= r < rows && r != row_to_clear implies #[trigger] cells(
            game_space,
        )[r] == before[r] by {}
        assert forall|c: int| 0 <= c < cols && c != col implies #[trigger] cells(
            game_space,
        )[row_to_clear as int][c] == before[row_to_clear as int][c] by {}
        col += 1;
    }
    assert(cells(game_space)[row_to_clear as int] =~= empty_row(cols as int));

    let mut row: usize = row_to_clear;
    while row > 0
        invariant
            rectangular(g),
            cols == width(g),
            row <= row_to_clear < rows,
            rows == g.len(),
            cells(game_space).len() == rows,
            forall|r: int|
                0 <= r < rows ==> #[trigger] cells(game_space)[r] == if r < row {
                    g[r]
                } else if r == row {
                    empty_row(cols as int)
                } else if r <= row_to_clear {
                    g[r - 1]
                } else {
                    g[r]
                },
        decreases row,
    {
        assert(cells(game_space)[row as int] == empty_row(cols as int));
        assert(cells(game_space)[row - 1] == g[row - 1]);
        let ghost at_row = cells(game_space);
        let mut col: usize = 0;
        while col < cols
            invariant
                rectangular(g),
                cols == width(g),
                0 < row <= row_to_clear < rows,
                rows == g.len(),
                col <= cols,
                cells(game_space).len() == rows,
                forall|r: int|
                    0 <= r < rows && r != row && r != row - 1 ==> #[trigger] cells(game_space)[r]
                        == at_row[r],
                cells(game_space)[row as int].len() == cols,
                cells(game_space)[row - 1].len() == cols,
                forall|c: int|
                    0 <= c < cols ==> #[trigger] cells(game_space)[row as int][c] == if c < col {
                        g[row - 1][c]
                    } else {
                        None
                    },
                forall|c: int|
                    0 <= c < cols ==> #[trigger] cells(game_space)[row - 1][c] == if c < col {
                        None
                    } else {
                        g[row - 1][c]
                    },
            decreases cols - col,
        {
            let ghost before = cells(game_space);
            game_space[row][col] = game_space[row - 1][col].take();
            assert forall|r: int| 0 <= r < rows && r != row && r != row - 1 implies #[trigger] cells(
                game_space,
            )[r] == before[r] by {}
            assert forall|c: int| 0 <= c < cols && c != col implies #[trigger] cells(
                game_space,
            )[row as int][c] == before[row as int][c] by {}
            assert forall|c: int| 0 <= c < cols && c != col implies #[trigger] cells(
                game_space,
            )[row - 1][c] == before[row - 1][c] by {}
            col += 1;
        }
        assert(cells(game_space)[row as int] =~= g[row - 1]);
        assert(cells(game_space)[row - 1] =~= empty_row(cols as int));
        row -= 1;
    }
    assert(cells(game_space) =~= without_row(g, row_to_clear as int));
}

/// Whether every cell of row `row` holds a brick at rest.
fn is_complete_row(game_space: &Matrix, row: usize) -> (complete: bool)
    requires
        row < game_space@.len(),
    ensures
        complete == is_complete(cells(game_space)[row as int]),
{
    let cols = game_space[row].len();
    let mut is_complete = true;
    let mut col: usize = 0;
    while col < cols && is_complete
        invariant
            row < game_space@.len(),
            cols == cells(game_space)[row as int].len(),
            col <= cols,
            is_complete ==> forall|c: int|
                0 <= c < col ==> is_settled(#[trigger] cells(game_space)[row as int][c]),
            !is_complete ==> !self::is_complete(cells(game_space)[row as int]),
        decreases cols - col, is_complete as int,
    {
        if game_space[row][col].is_none() || (game_space[row][col].is_some()
            && game_space[row][col].unwrap().moving) {
            assert(!is_settled(cells(game_space)[row as int][col as int]));
            is_complete = false;
        } else {
            col += 1;
        }
    }
    is_complete
}

/// Clears the complete rows: each is taken out, the rows above it move down
/// and an empty row comes in at the top. Adds the points for the number of
/// rows cleared at once to `score` and returns that number.
pub fn clear_rows(game_space: &mut Matrix, score: &mut u32) -> (count: u32)
    requires
        rectangular(cells(old(game_space))),
        *old(score) + line_score(complete_rows(cells(old(game_space))).len()) <= u32::MAX,
    ensures
        count == complete_rows(cells(old(game_space))).len(),
        *final(score) == *old(score) + line_score(count as nat),
        cells(final(game_space)) == cleared(cells(old(game_space))),
        same_size(cells(final(game_space)), cells(old(game_space))),
{
    let ghost g = cells(game_space);
    let rows = game_space.len();

    let mut rows_to_clear: Vec<usize> = Vec::new();

    let mut row: usize = 0;
    while row < rows
        invariant
            g == cells(game_space),
            rows == g.len(),
            row <= rows,
            rows_to_clear@.len() == complete_rows(g.take(row as int)).len(),
            forall|k: int|
                0 <= k < rows_to_clear@.len() ==> #[trigger] rows_to_clear@[k] == complete_rows(
                    g.take(row as int),
                )[k],
        decreases rows - row,
    {
        assert(g.take(row + 1).drop_last() =~= g.take(row as int));
        assert(g.take(row + 1).last() == g[row as int]);
        if is_complete_row(game_space, row) {
            rows_to_clear.push(row);
        }
        row += 1;
    }
    assert(g.take(rows as int) =~= g);
    let ghost list = complete_rows(g);
    proof {
        lemma_complete_rows(g);
    }

    if !rows_to_clear.is_empty() {
        let points: usize = match rows_to_clear.len() {
            1 => 100,
            2 => 300,
            3 => 500,
            4 => 800,
            n => {
                assert(n * 100 <= u32::MAX) by (nonlinear_arith)
                    requires
                        n >= 5,
                        line_score(n as nat) == n * 100,
                        line_score(n as nat) <= u32::MAX,
                ;
                n * 100
            },
        };

        *score += points as u32;

        let count = rows_to_clear.len();
        let mut left: usize = count;
        proof {
            lemma_clearing_starts(g);
        }
        while left > 0
            invariant
                rectangular(g),
                rows == g.len(),
                list == complete_rows(g),
                count == list.len(),
                rows_to_clear@.len() == count,
                forall|k: int| 0 <= k < count ==> #[trigger] rows_to_clear@[k] == list[k],
                left <= count,
                cells(game_space) == cleared_below(g, left as int),
            decreases left,
        {
            left -= 1;
            let row_to_clear = rows_to_clear[left];
            proof {
                lemma_clearing_step(g, left as int);
                assert(cells(game_space).len() == game_space@.len());
            }
            remove_row(game_space, row_to_clear + (count - left - 1));
        }
        proof {
            lemma_clearing_ends(g);
            lemma_cleared_dims(g);
            assert forall|r: int| 0 <= r < g.len() implies (#[trigger] cleared(g)[r]).len()
                == g[r].len() by {
                assert(g[r].len() == width(g));
            }
        }

        return rows_to_clear.len() as u32;
    }
    proof {
        lemma_clearing_starts(g);
        lemma_clearing_ends(g);
    }

    0
}

/// The rows that are kept are as wide as the rows they are taken from.
proof fn lemma_kept_rows_dims(g: Cells, cols: int)
    requires
        forall|r: int| 0 <= r < g.len() ==> (#[trigger] g[r]).len() == cols,
    ensures
        forall|r: int| 0 <= r < kept_rows(g).len() ==> (#[trigger] kept_rows(g)[r]).len() == cols,
    decreases g.len(),
{
    if g.len() > 0 {
        assert forall|r: int| 0 <= r < g.drop_last().len() implies (#[trigger] g.drop_last()[r]).len()
            == cols by {
            assert(g.drop_last()[r] == g[r]);
        }
        lemma_kept_rows_dims(g.drop_last(), cols);
        let above = kept_rows(g.drop_last());
        assert forall|r: int| 0 <= r < kept_rows(g).len() implies (#[trigger] kept_rows(g)[r]).len()
            == cols by {
            if r < above.len() {
                assert(kept_rows(g)[r] == above[r]);
            } else {
                assert(kept_rows(g)[r] == g[g.len() - 1]);
            }
        }
    }
}

/// The row from which on the complete rows have been taken out, once all but
/// the first `left` of them have: the next complete row that was taken out,
/// or the end of the grid.
spec fn cleared_from(g: Cells, left: int) -> int {
    if left < complete_rows(g).len() {
        complete_rows(g)[left]
    } else {
        g.len() as int
    }
}

/// Every row that is kept is a row of the grid.
proof fn lemma_kept_rows_are_rows(g: Cells)
    ensures
        forall|k: int|
            0 <= k < kept_rows(g).len() ==> exists|i: int|
                0 <= i < g.len() && g[i] == #[trigger] kept_rows(g)[k],
    decreases g.len(),
{
    if g.len() > 0 {
        let above = g.drop_last();
        lemma_kept_rows_are_rows(above);
        assert forall|k: int| 0 <= k < kept_rows(g).len() implies exists|i: int|
            0 <= i < g.len() && g[i] == #[trigger] kept_rows(g)[k] by {
            if k < kept_rows(above).len() {
                let i = choose|i: int| 0 <= i < above.len() && above[i] == kept_rows(above)[k];
                assert(g[i] == kept_rows(g)[k]);
            } else {
                assert(g[g.len() - 1] == kept_rows(g)[k]);
            }
        }
    }
}

/// Where none of the first `low` rows is complete, line clearing moves
/// them down together by the number of rows cleared, and every row that
/// then stands above or below them is empty or a row that stood below them.
pub proof fn lemma_cleared_below_top(g: Cells, low: int)
    requires
        0 <= low <= g.len(),
        forall|i: int| 0 <= i < low ==> !is_complete(#[trigger] g[i]),
    ensures
        cleared(g).len() == g.len(),
        complete_rows(g).len() + low <= g.len(),
        forall|i: int| 0 <= i < low ==> #[trigger] cleared(g)[complete_rows(g).len() + i] == g[i],
        forall|r: int|
            0 <= r < complete_rows(g).len() ==> #[trigger] cleared(g)[r] == empty_row(width(g)),
        forall|r: int|
            complete_rows(g).len() + low <= r < g.len() ==> exists|i: int|
                low <= i < g.len() && g[i] == #[trigger] cleared(g)[r],
{
    let top = g.take(low);
    let rest = g.skip(low);
    let count = complete_rows(g).len() as int;
    assert(g =~= top + rest);
    lemma_kept_rows_concat(top, rest);
    lemma_kept_rows_all(top);
    lemma_complete_rows(g);
    lemma_complete_rows(rest);
    lemma_kept_rows_are_rows(rest);
    let kept = kept_rows(rest);
    assert(kept_rows(g) == top + kept);
    assert(count + low + kept.len() == g.len());
    assert forall|i: int| 0 <= i < low implies #[trigger] cleared(g)[count + i] == g[i] by {
        assert(kept_rows(g)[i] == top[i]);
    }
    assert forall|r: int| count + low <= r < g.len() implies exists|i: int|
        low <= i < g.len() && g[i] == #[trigger] cleared(g)[r] by {
        let k = r - count - low;
        assert(cleared(g)[r] == kept[k]);
        let i = choose|i: int| 0 <= i < rest.len() && rest[i] == kept[k];
        assert(g[low + i] == cleared(g)[r]);
    }
}

/// No more rows are complete than there are rows.
pub proof fn lemma_complete_rows_bound(g: Cells)
    ensures
        complete_rows(g).len() <= g.len(),
{
    lemma_complete_rows(g);
}

/// Line clearing keeps the size of the grid.
pub proof fn lemma_cleared_dims(g: Cells)
    requires
        rectangular(g),
    ensures
        cleared(g).len() == g.len(),
        forall|r: int| 0 <= r < cleared(g).len() ==> (#[trigger] cleared(g)[r]).len() == width(g),
        complete_rows(g).len() <= g.len(),
{
    lemma_complete_rows(g);
    lemma_kept_rows_dims(g, width(g));
    let count = complete_rows(g).len() as int;
    assert forall|r: int| 0 <= r < cleared(g).len() implies (#[trigger] cleared(g)[r]).len()
        == width(g) by {
        if r >= count {
            assert(cleared(g)[r] == kept_rows(g)[r - count]);
        }
    }
}

/// The grid while its complete rows are taken out from the bottom up, when
/// all but the first `left` of them have been: above stand as many empty rows
/// as were taken out, then the rows down to the last one taken out, then the
/// rows below that were kept.
spec fn cleared_below(g: Cells, left: int) -> Cells {
    empty_cells(complete_rows(g).len() - left, width(g)) + g.take(cleared_from(g, left))
        + kept_rows(g.skip(cleared_from(g, left)))
}

/// Before any row is taken out the grid is as it was.
proof fn lemma_clearing_starts(g: Cells)
    ensures
        cleared_below(g, complete_rows(g).len() as int) == g,
{
    let n = g.len() as int;
    assert(g.take(n) =~= g);
    assert(g.skip(n) =~= Seq::<Seq<Option<Brick>>>::empty());
    assert(cleared_below(g, complete_rows(g).len() as int) =~= g);
}

/// Taking out the next complete row from the bottom, which by now stands
/// lower by the number of rows taken out below it, leads to the next stage.
proof fn lemma_clearing_step(g: Cells, left: int)
    requires
        rectangular(g),
        0 <= left < complete_rows(g).len(),
    ensures
        0 <= complete_rows(g)[left] < g.len(),
        complete_rows(g)[left] + (complete_rows(g).len() - left - 1) < g.len(),
        cleared_below(g, left + 1).len() == g.len(),
        rectangular(cleared_below(g, left + 1)),
        without_row(
            cleared_below(g, left + 1),
            complete_rows(g)[left] + (complete_rows(g).len() - left - 1),
        ) == cleared_below(g, left),
{
    let list = complete_rows(g);
    let count = list.len() as int;
    let w = width(g);
    let bound = cleared_from(g, left + 1);
    let i = list[left];
    let below = count - left - 1;
    let before = cleared_below(g, left + 1);
    let empty = Seq::<Seq<Option<Brick>>>::empty();
    lemma_complete_rows(g);
    assert(i < bound) by {
        if left + 1 < count {
            assert(list[left] < list[left + 1]);
        }
    }
    let between = g.subrange(i + 1, bound);
    assert forall|r: int| 0 <= r < between.len() implies !is_complete(#[trigger] between[r]) by {
        if is_complete(g[i + 1 + r]) {
            let k = choose|k: int| 0 <= k < list.len() && list[k] == i + 1 + r;
            if k < left {
                assert(list[k] < list[left]);
            } else if k > left + 1 {
                assert(list[left + 1] < list[k]);
            }
        }
    }
    lemma_kept_rows_all(between);
    assert(g.skip(i) =~= seq![g[i]] + between + g.skip(bound));
    lemma_kept_rows_concat(seq![g[i]] + between, g.skip(bound));
    lemma_kept_rows_concat(seq![g[i]], between);
    assert(kept_rows(seq![g[i]]) =~= empty) by {
        assert(seq![g[i]].drop_last() =~= empty);
        assert(seq![g[i]].last() == g[i]);
        reveal_with_fuel(kept_rows, 2);
    }
    let kept = kept_rows(g.skip(bound));
    assert(kept_rows(g.skip(i)) =~= between + kept);
    // count the rows below the bound
    lemma_suffix_counts(g, left + 1);
    assert(kept.len() == g.len() - bound - below);
    assert(before.len() == g.len());
    assert(g.skip(bound).len() == g.len() - bound);
    assert forall|r: int| 0 <= r < g.skip(bound).len() implies (#[trigger] g.skip(bound)[r]).len()
        == w by {
        assert(g.skip(bound)[r] == g[bound + r]);
    }
    lemma_kept_rows_dims(g.skip(bound), w);
    assert forall|r: int| 0 <= r < before.len() implies (#[trigger] before[r]).len() == w by {
        if r < below {
        } else if r < below + bound {
            assert(before[r] == g[r - below]);
        } else {
            assert(before[r] == kept[r - below - bound]);
        }
    }
    assert(rectangular(before));
    assert(width(before) == w);
    let after = without_row(before, i + below);
    let goal = cleared_below(g, left);
    assert(goal =~= empty_cells(below + 1, w) + g.take(i) + (between + kept));
    assert(after.len() == goal.len());
    assert forall|r: int| 0 <= r < after.len() implies #[trigger] after[r] == goal[r] by {
        if r == 0 {
        } else if r <= below {
            assert(after[r] == before[r - 1]);
        } else if r <= below + i {
            assert(after[r] == before[r - 1]);
            assert(before[r - 1] == g[r - 1 - below]);
        } else {
            assert(after[r] == before[r]);
            if r < below + bound {
                assert(before[r] == g[r - below]);
                assert(between[r - below - i - 1] == g[r - below]);
            } else {
                assert(before[r] == kept[r - below - bound]);
            }
        }
    }
    assert(after =~= goal);
}

/// Below the last complete row that is still to be taken out, the rows kept
/// and the rows taken out make up all the rows.
proof fn lemma_suffix_counts(g: Cells, left: int)
    requires
        0 <= left <= complete_rows(g).len(),
    ensures
        0 <= cleared_from(g, left) <= g.len(),
        kept_rows(g.skip(cleared_from(g, left))).len() == g.len() - cleared_from(g, left) - (
        complete_rows(g).len() - left),
    decreases complete_rows(g).len() - left,
{
    let list = complete_rows(g);
    lemma_complete_rows(g);
    let empty = Seq::<Seq<Option<Brick>>>::empty();
    if left == list.len() {
        assert(g.skip(g.len() as int) =~= empty);
    } else {
        lemma_suffix_counts(g, left + 1);
        let i = list[left];
        let bound = cleared_from(g, left + 1);
        assert(i < bound) by {
            if left + 1 < list.len() {
                assert(list[left] < list[left + 1]);
            }
        }
        let between = g.subrange(i + 1, bound);
        assert forall|r: int| 0 <= r < between.len() implies !is_complete(#[trigger] between[r]) by {
            if is_complete(g[i + 1 + r]) {
                let k = choose|k: int| 0 <= k < list.len() && list[k] == i + 1 + r;
                if k < left {
                    assert(list[k] < list[left]);
                } else if k > left + 1 {
                    assert(list[left + 1] < list[k]);
                }
            }
        }
        lemma_kept_rows_all(between);
        assert(g.skip(i) =~= seq![g[i]] + between + g.skip(bound));
        lemma_kept_rows_concat(seq![g[i]] + between, g.skip(bound));
        lemma_kept_rows_concat(seq![g[i]], between);
        assert(kept_rows(seq![g[i]]) =~= empty) by {
            assert(seq![g[i]].drop_last() =~= empty);
            assert(seq![g[i]].last() == g[i]);
            reveal_with_fuel(kept_rows, 2);
        }
    }
}

/// Once every complete row has been taken out the grid is cleared.
proof fn lemma_clearing_ends(g: Cells)
    ensures
        cleared_below(g, 0) == cleared(g),
{
    let list = complete_rows(g);
    lemma_complete_rows(g);
    let bound = cleared_from(g, 0);
    let top = g.take(bound);
    assert forall|r: int| 0 <= r < top.len() implies !is_complete(#[trigger] top[r]) by {
        if is_complete(g[r]) {
            let k = choose|k: int| 0 <= k < list.len() && list[k] == r;
            if k > 0 {
                assert(list[0] < list[k]);
            }
        }
    }
    lemma_kept_rows_all(top);
    assert(g =~= top + g.skip(bound));
    lemma_kept_rows_concat(top, g.skip(bound));
}

} // verus!
