//! Quarter turns of a square of cells.

use vstd::prelude::*;
use crate::types::{cells, new_matrix, Cells, Matrix, Shape};

verus! {

/// `m` has as many columns in every row as it has rows.
pub open spec fn is_square(m: Cells) -> bool {
    forall|r: int| 0 <= r < m.len() ==> (#[trigger] m[r]).len() == m.len()
}

/// The square `m` turned a quarter clockwise: what stood in row `i` and
/// column `j` stands in row `j` and column `n - 1 - i`, for `n` rows.
pub open spec fn turned_clockwise(m: Cells) -> Cells {
    Seq::new(m.len(), |r: int| Seq::new(m.len(), |c: int| m[m.len() - 1 - c][r]))
}

/// The square `m` turned a quarter counterclockwise: what stood in row `i`
/// and column `j` stands in row `n - 1 - j` and column `i`, for `n` rows.
pub open spec fn turned_counterclockwise(m: Cells) -> Cells {
    Seq::new(m.len(), |r: int| Seq::new(m.len(), |c: int| m[c][m.len() - 1 - r]))
}

/// The square of cells `matrix`, turned a quarter clockwise.
pub fn turn_clockwise(matrix: &Matrix) -> (rotated: Matrix)
    requires
        is_square(cells(matrix)),
    ensures
        cells(&rotated) == turned_clockwise(cells(matrix)),
{
    let ghost m = cells(matrix);
    let n = matrix.len();
    let mut rotated = new_matrix(n, n);

    let mut i: usize = 0;
    while i < n
        invariant
            is_square(m),
            m == cells(matrix),
            n == m.len(),
            i <= n,
            cells(&rotated).len() == n,
            forall|r: int| 0 <= r < n ==> (#[trigger] cells(&rotated)[r]).len() == n,
            forall|r: int, c: int|
                0 <= r < n && 0 <= c < n ==> #[trigger] cells(&rotated)[r][c] == if n - 1 - c < i {
                    m[n - 1 - c][r]
                } else {
                    None
                },
        decreases n - i,
    {
        let mut j: usize = 0;
        while j < n
            invariant
                is_square(m),
                m == cells(matrix),
                n == m.len(),
                i < n,
                j <= n,
                cells(&rotated).len() == n,
                forall|r: int| 0 <= r < n ==> (#[trigger] cells(&rotated)[r]).len() == n,
                forall|r: int, c: int|
                    0 <= r < n && 0 <= c < n ==> #[trigger] cells(&rotated)[r][c] == if n - 1 - c
                        < i || (n - 1 - c == i && r < j) {
                        m[n - 1 - c][r]
                    } else {
                        None
                    },
            decreases n - j,
        {
            let ghost before = cells(&rotated);
            assert(m[i as int].len() == n);
            assert(before[j as int].len() == n);
            rotated[j][n - 1 - i] = matrix[i][j];
            assert forall|r: int, c: int| 0 <= r < n && 0 <= c < n && !(r == j && c == n - 1
                - i) implies #[trigger] cells(&rotated)[r][c] == before[r][c] by {}
            assert forall|r: int| 0 <= r < n implies (#[trigger] cells(&rotated)[r]).len() == n by {
                assert(before[r].len() == n);
            }
            j += 1;
        }
        i += 1;
    }
    assert(cells(&rotated) =~~= turned_clockwise(m));
    rotated
}

/// The square of cells `matrix`, turned a quarter counterclockwise.
pub fn turn_counterclockwise(matrix: &Matrix) -> (rotated: Matrix)
    requires
        is_square(cells(matrix)),
    ensures
        cells(&rotated) == turned_counterclockwise(cells(matrix)),
{
    let ghost m = cells(matrix);
    let n = matrix.len();
    let mut rotated = new_matrix(n, n);

    let mut i: usize = 0;
    while i < n
        invariant
            is_square(m),
            m == cells(matrix),
            n == m.len(),
            i <= n,
            cells(&rotated).len() == n,
            forall|r: int| 0 <= r < n ==> (#[trigger] cells(&rotated)[r]).len() == n,
            forall|r: int, c: int|
                0 <= r < n && 0 <= c < n ==> #[trigger] cells(&rotated)[r][c] == if c < i {
                    m[c][n - 1 - r]
                } else {
                    None
                },
        decreases n - i,
    {
        let mut j: usize = 0;
        while j < n
            invariant
                is_square(m),
                m == cells(matrix),
                n == m.len(),
                i < n,
                j <= n,
                cells(&rotated).len() == n,
                forall|r: int| 0 <= r < n ==> (#[trigger] cells(&rotated)[r]).len() == n,
                forall|r: int, c: int|
                    0 <= r < n && 0 <= c < n ==> #[trigger] cells(&rotated)[r][c] == if c < i || (c
                        == i && n - 1 - r < j) {
                        m[c][n - 1 - r]
                    } else {
                        None
                    },
            decreases n - j,
        {
            let ghost before = cells(&rotated);
            assert(m[i as int].len() == n);
            assert(before[n - 1 - j].len() == n);
            rotated[n - 1 - j][i] = matrix[i][j];
            assert forall|r: int, c: int| 0 <= r < n && 0 <= c < n && !(r == n - 1 - j && c
                == i) implies #[trigger] cells(&rotated)[r][c] == before[r][c] by {}
            assert forall|r: int| 0 <= r < n implies (#[trigger] cells(&rotated)[r]).len() == n by {
                assert(before[r].len() == n);
            }
            j += 1;
        }
        i += 1;
    }
    assert(cells(&rotated) =~~= turned_counterclockwise(m));
    rotated
}

/// Turns the piece a quarter clockwise in its own square.
pub fn rotate_clockwise(shape: &mut Shape)
    requires
        is_square(old(shape).cells()),
    ensures
        final(shape).cells() == turned_clockwise(old(shape).cells()),
{
    let rotated = turn_clockwise(&shape.matrix);
    shape.matrix = rotated;
}

/// Turns the piece a quarter counterclockwise in its own square.
pub fn rotate_counterclockwise(shape: &mut Shape)
    requires
        is_square(old(shape).cells()),
    ensures
        final(shape).cells() == turned_counterclockwise(old(shape).cells()),
{
    let rotated = turn_counterclockwise(&shape.matrix);
    shape.matrix = rotated;
}

/// A quarter turn of a square is a square of the same size.
pub proof fn lemma_turned_is_square(m: Cells)
    ensures
        is_square(turned_clockwise(m)),
        is_square(turned_counterclockwise(m)),
        turned_clockwise(m).len() == m.len(),
        turned_counterclockwise(m).len() == m.len(),
{
}

/// Four quarter turns clockwise bring every cell of a square back to where
/// it was.
pub proof fn lemma_four_clockwise_turns(m: Cells)
    requires
        is_square(m),
    ensures
        turned_clockwise(turned_clockwise(turned_clockwise(turned_clockwise(m)))) == m,
{
    let once = turned_clockwise(m);
    let twice = turned_clockwise(once);
    let thrice = turned_clockwise(twice);
    let back = turned_clockwise(thrice);
    let n = m.len() as int;
    assert forall|r: int, c: int| 0 <= r < n && 0 <= c < n implies #[trigger] back[r][c]
        == m[r][c] by {
        assert(back[r][c] == thrice[n - 1 - c][r]);
        assert(thrice[n - 1 - c][r] == twice[n - 1 - r][n - 1 - c]);
        assert(twice[n - 1 - r][n - 1 - c] == once[c][n - 1 - r]);
        assert(once[c][n - 1 - r] == m[r][c]);
    }
    assert(back =~~= m);
}

/// Four quarter turns counterclockwise bring every cell of a square back to
/// where it was.
pub proof fn lemma_four_counterclockwise_turns(m: Cells)
    requires
        is_square(m),
    ensures
        turned_counterclockwise(
            turned_counterclockwise(turned_counterclockwise(turned_counterclockwise(m))),
        ) == m,
{
    let once = turned_counterclockwise(m);
    let twice = turned_counterclockwise(once);
    let thrice = turned_counterclockwise(twice);
    let back = turned_counterclockwise(thrice);
    let n = m.len() as int;
    assert forall|r: int, c: int| 0 <= r < n && 0 <= c < n implies #[trigger] back[r][c]
        == m[r][c] by {
        assert(back[r][c] == thrice[c][n - 1 - r]);
        assert(thrice[c][n - 1 - r] == twice[n - 1 - r][n - 1 - c]);
        assert(twice[n - 1 - r][n - 1 - c] == once[n - 1 - c][r]);
        assert(once[n - 1 - c][r] == m[r][c]);
    }
    assert(back =~~= m);
}

/// A quarter turn one way and then a quarter turn the other way, in either
/// order, bring every cell of a square back to where it was.
pub proof fn lemma_turn_and_turn_back(m: Cells)
    requires
        is_square(m),
    ensures
        turned_counterclockwise(turned_clockwise(m)) == m,
        turned_clockwise(turned_counterclockwise(m)) == m,
{
    let n = m.len() as int;
    let there = turned_clockwise(m);
    let back = turned_counterclockwise(there);
    assert forall|r: int, c: int| 0 <= r < n && 0 <= c < n implies #[trigger] back[r][c]
        == m[r][c] by {
        assert(back[r][c] == there[c][n - 1 - r]);
    }
    assert(back =~~= m);
    let other = turned_counterclockwise(m);
    let again = turned_clockwise(other);
    assert forall|r: int, c: int| 0 <= r < n && 0 <= c < n implies #[trigger] again[r][c]
        == m[r][c] by {
        assert(again[r][c] == other[n - 1 - c][r]);
    }
    assert(again =~~= m);
}

} // verus!
