//! The grid and its mathematical model.
//!
//! A grid is a vector of rows, each a vector of cells; a cell is empty or
//! holds one brick. Contracts speak of a grid through [`cells`], its rows as
//! sequences, with rows counted from the top and columns from the left.

use vstd::prelude::*;
use crate::tetromino::{Brick, Tetromino};

verus! {

/// A grid of cells: the play field, or a piece's own small square.
pub type Matrix = Vec<Vec<Option<Brick>>>;

/// Pieces in a row, as a bag holds them.
pub type Tetrominos = Vec<Tetromino>;

/// A piece, by the name the bag and the preview use for it.
pub type Shape = Tetromino;

/// Pieces in a row, under that name.
pub type Shapes = Vec<Shape>;

/// What a [`Matrix`] holds, as contracts see it.
pub type Cells = Seq<Seq<Option<Brick>>>;

/// An instant, as whole seconds since the Unix epoch and the nanoseconds
/// into that second. Two instants are the same when both parts agree.
#[derive(Clone, Copy, Debug, Default, PartialEq, Eq, Structural)]
pub struct TimeLocal {
    pub secs: i64,
    pub nanos: u32,
}

/// The rows of `m` as sequences of cells.
pub open spec fn cells(m: &Matrix) -> Cells {
    Seq::new(m@.len(), |r: int| m@[r]@)
}

/// The cell holds a brick of the falling piece.
pub open spec fn is_moving(cell: Option<Brick>) -> bool {
    cell matches Some(brick) && brick.moving
}

/// The cell holds a brick that has come to rest.
pub open spec fn is_settled(cell: Option<Brick>) -> bool {
    cell matches Some(brick) && !brick.moving
}

/// Every row of `g` has `cols` cells.
pub open spec fn has_width(g: Cells, cols: int) -> bool {
    forall|r: int| 0 <= r < g.len() ==> (#[trigger] g[r]).len() == cols
}

/// `g` has at least one row and one column, and all its rows are equally long.
pub open spec fn rectangular(g: Cells) -> bool {
    &&& g.len() > 0
    &&& g[0].len() > 0
    &&& has_width(g, g[0].len() as int)
}

/// Number of columns of a rectangular grid.
pub open spec fn width(g: Cells) -> int {
    g[0].len() as int
}

/// The grid is a rectangle with room for every kind of piece where pieces
/// come in: at least four rows and four columns.
pub open spec fn playable(g: Cells) -> bool {
    rectangular(g) && g.len() >= 4 && width(g) >= 4
}

/// `(r, c)` names a cell of `g`.
pub open spec fn in_grid(g: Cells, r: int, c: int) -> bool {
    0 <= r < g.len() && 0 <= c < g[r].len()
}

/// `a` has as many rows as `b`, and row by row as many cells.
pub open spec fn same_size(a: Cells, b: Cells) -> bool {
    &&& a.len() == b.len()
    &&& forall|r: int| 0 <= r < a.len() ==> (#[trigger] a[r]).len() == b[r].len()
}

/// A row of `cols` empty cells.
pub open spec fn empty_row(cols: int) -> Seq<Option<Brick>> {
    Seq::new(cols as nat, |c: int| None)
}

/// A grid of `rows` by `cols` empty cells.
pub open spec fn empty_cells(rows: int, cols: int) -> Cells {
    Seq::new(rows as nat, |r: int| empty_row(cols))
}

/// Builds a row of `cols` empty cells.
pub fn new_row(cols: usize) -> (row: Vec<Option<Brick>>)
    ensures
        row@ == empty_row(cols as int),
{
    let mut row: Vec<Option<Brick>> = Vec::new();
    let mut c: usize = 0;
    while c < cols
        invariant
            c <= cols,
            row@ == empty_row(c as int),
        decreases cols - c,
    {
        row.push(None);
        c += 1;
        assert(row@ =~= empty_row(c as int));
    }
    row
}

/// Builds a grid of `rows` by `cols` empty cells.
pub fn new_matrix(rows: usize, cols: usize) -> (m: Matrix)
    ensures
        cells(&m) == empty_cells(rows as int, cols as int),
{
    let mut m: Matrix = Vec::new();
    let mut r: usize = 0;
    while r < rows
        invariant
            r <= rows,
            m@.len() == r,
            cells(&m) == empty_cells(r as int, cols as int),
        decreases rows - r,
    {
        let ghost before = cells(&m);
        m.push(new_row(cols));
        r += 1;
        assert forall|i: int| 0 <= i < r implies #[trigger] cells(&m)[i] == empty_row(
            cols as int,
        ) by {
            if i < r - 1 {
                assert(cells(&m)[i] == before[i]);
            }
        }
        assert(cells(&m) =~= empty_cells(r as int, cols as int));
    }
    m
}

/// Copies a grid cell by cell.
pub fn copy_matrix(m: &Matrix) -> (copy: Matrix)
    ensures
        cells(&copy) == cells(m),
{
    let mut copy: Matrix = Vec::new();
    let mut r: usize = 0;
    while r < m.len()
        invariant
            r <= m@.len(),
            copy@.len() == r,
            forall|i: int| 0 <= i < r ==> (#[trigger] copy@[i])@ == m@[i]@,
        decreases m@.len() - r,
    {
        let mut row: Vec<Option<Brick>> = Vec::new();
        let mut c: usize = 0;
        while c < m[r].len()
            invariant
                r < m@.len(),
                c <= m@[r as int]@.len(),
                row@ == m@[r as int]@.take(c as int),
            decreases m@[r as int]@.len() - c,
        {
            row.push(m[r][c]);
            c += 1;
            assert(row@ =~= m@[r as int]@.take(c as int));
        }
        assert(row@ =~= m@[r as int]@);
        copy.push(row);
        r += 1;
    }
    assert(cells(&copy) =~= cells(m));
    copy
}

/// Whether two grids hold the same cells.
pub fn same_cells(a: &Matrix, b: &Matrix) -> (same: bool)
    ensures
        same == (cells(a) == cells(b)),
{
    if a.len() != b.len() {
        assert(cells(a).len() != cells(b).len());
        return false;
    }
    let mut r: usize = 0;
    while r < a.len()
        invariant
            a@.len() == b@.len(),
            r <= a@.len(),
            forall|i: int| 0 <= i < r ==> (#[trigger] cells(a)[i]) == cells(b)[i],
        decreases a@.len() - r,
    {
        if a[r].len() != b[r].len() {
            assert(cells(a)[r as int].len() != cells(b)[r as int].len());
            return false;
        }
        let mut c: usize = 0;
        while c < a[r].len()
            invariant
                r < a@.len(),
                a@.len() == b@.len(),
                a@[r as int]@.len() == b@[r as int]@.len(),
                c <= a@[r as int]@.len(),
                forall|j: int| 0 <= j < c ==> a@[r as int]@[j] == b@[r as int]@[j],
            decreases a@[r as int]@.len() - c,
        {
            let same = match (a[r][c], b[r][c]) {
                (Some(x), Some(y)) => x == y,
                (None, None) => true,
                _ => false,
            };
            if !same {
                assert(cells(a)[r as int][c as int] != cells(b)[r as int][c as int]);
                return false;
            }
            c += 1;
        }
        assert(cells(a)[r as int] =~= cells(b)[r as int]);
        r += 1;
    }
    assert(cells(a) =~= cells(b));
    true
}

} // verus!
