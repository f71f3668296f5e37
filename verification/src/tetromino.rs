//! Bricks, the seven kinds of piece, and the catalogue of their shapes.

use vstd::prelude::*;
use crate::colors::Color;
use crate::types::{
    cells,
    copy_matrix,
    rectangular,
    same_cells,
    same_size,
    width,
    Cells,
    Matrix,
};

verus! {

/// One filled cell: its colour, and whether it belongs to the falling piece
/// (`moving`) or has come to rest.
#[derive(Clone, Copy, Debug, PartialEq, Eq, Structural)]
pub struct Brick {
    pub color: Color,
    pub moving: bool,
}

impl Brick {
    /// A brick of the given colour, falling or at rest.
    pub fn new(color: Color, moving: bool) -> (brick: Self)
        ensures
            brick == (Brick { color, moving }),
    {
        Brick { color, moving }
    }
}

/// The seven kinds of piece.
#[derive(Clone, Copy, Debug, PartialEq, Eq, Hash, Structural)]
pub enum Kind {
    O,
    I,
    S,
    Z,
    T,
    L,
    J,
}

impl Kind {
    /// The colour of every brick of a piece of this kind.
    pub open spec fn spec_color(self) -> Color {
        match self {
            Kind::O => Color { r: 1000, g: 1000, b: 0 },
            Kind::I => Color { r: 0, g: 1000, b: 1000 },
            Kind::S => Color { r: 0, g: 1000, b: 0 },
            Kind::Z => Color { r: 1000, g: 0, b: 0 },
            Kind::T => Color { r: 500, g: 0, b: 500 },
            Kind::L => Color { r: 1000, g: 500, b: 0 },
            Kind::J => Color { r: 0, g: 0, b: 1000 },
        }
    }

    /// The colour of every brick of a piece of this kind.
    #[verifier::when_used_as_spec(spec_color)]
    pub fn color(self) -> (color: Color)
        ensures
            color == self.spec_color(),
    {
        match self {
            Kind::O => Color::from_rgb(1000, 1000, 0),
            Kind::I => Color::from_rgb(0, 1000, 1000),
            Kind::S => Color::from_rgb(0, 1000, 0),
            Kind::Z => Color::from_rgb(1000, 0, 0),
            Kind::T => Color::from_rgb(500, 0, 500),
            Kind::L => Color::from_rgb(1000, 500, 0),
            Kind::J => Color::from_rgb(0, 0, 1000),
        }
    }

    /// The shape of a fresh piece of this kind: a square of cells whose
    /// bricks are at rest and carry the kind's colour.
    pub open spec fn shape(self) -> Cells {
        let b = Some(Brick { color: self.spec_color(), moving: false });
        let e = None::<Brick>;
        match self {
            Kind::O => seq![seq![b, b], seq![b, b]],
            Kind::I => seq![seq![e, b, e, e], seq![e, b, e, e], seq![e, b, e, e], seq![e, b, e, e]],
            Kind::S => seq![seq![e, e, e], seq![e, b, b], seq![b, b, e]],
            Kind::Z => seq![seq![e, e, e], seq![b, b, e], seq![e, b, b]],
            Kind::T => seq![seq![e, e, e], seq![b, b, b], seq![e, b, e]],
            Kind::L => seq![seq![e, b, e], seq![e, b, e], seq![e, b, b]],
            Kind::J => seq![seq![e, b, e], seq![e, b, e], seq![b, b, e]],
        }
    }
}

/// A piece: a small square grid of cells.
#[derive(Default, Debug, PartialEq)]
pub struct Tetromino {
    pub matrix: Matrix,
}

impl Clone for Tetromino {
    /// A piece with the same cells.
    fn clone(&self) -> (copy: Self)
        ensures
            copy.cells() == self.cells(),
    {
        Tetromino { matrix: copy_matrix(&self.matrix) }
    }
}

impl Tetromino {
    /// The cells of the piece, row by row.
    pub open spec fn cells(&self) -> Cells {
        cells(&self.matrix)
    }

    /// The piece is a fresh piece of `kind`.
    pub open spec fn is_kind(&self, kind: Kind) -> bool {
        self.cells() == kind.shape()
    }

    /// The piece with the given cells.
    pub fn new(matrix: Vec<Vec<Option<Brick>>>) -> (piece: Self)
        ensures
            piece.matrix == matrix,
    {
        Self { matrix }
    }

    /// The kind of which this is a fresh piece, if it is one.
    pub fn kind(&self) -> (kind: Option<Kind>)
        ensures
            match kind {
                Some(found) => self.is_kind(found),
                None => forall|any: Kind| !self.is_kind(any),
            },
    {
        if same_cells(&self.matrix, &Self::create_o().matrix) {
            Some(Kind::O)
        } else if same_cells(&self.matrix, &Self::create_i().matrix) {
            Some(Kind::I)
        } else if same_cells(&self.matrix, &Self::create_s().matrix) {
            Some(Kind::S)
        } else if same_cells(&self.matrix, &Self::create_z().matrix) {
            Some(Kind::Z)
        } else if same_cells(&self.matrix, &Self::create_t().matrix) {
            Some(Kind::T)
        } else if same_cells(&self.matrix, &Self::create_l().matrix) {
            Some(Kind::L)
        } else if same_cells(&self.matrix, &Self::create_j().matrix) {
            Some(Kind::J)
        } else {
            None
        }
    }

    /// A fresh piece of `kind`.
    pub fn create(kind: Kind) -> (piece: Self)
        ensures
            piece.is_kind(kind),
    {
        match kind {
            Kind::O => Self::create_o(),
            Kind::I => Self::create_i(),
            Kind::S => Self::create_s(),
            Kind::Z => Self::create_z(),
            Kind::T => Self::create_t(),
            Kind::L => Self::create_l(),
            Kind::J => Self::create_j(),
        }
    }

    /// A fresh O piece: a square of two by two bricks.
    pub fn create_o() -> (piece: Self)
        ensures
            piece.is_kind(Kind::O),
    {
        let b = Some(Brick::new(Kind::O.color(), false));
        let piece = Self::new(vec![vec![b, b], vec![b, b]]);
        assert(piece.cells() =~~= Kind::O.shape());
        piece
    }

    /// A fresh I piece: four bricks in a column.
    pub fn create_i() -> (piece: Self)
        ensures
            piece.is_kind(Kind::I),
    {
        let b = Some(Brick::new(Kind::I.color(), false));
        let e = None;
        let piece = Self::new(
            vec![vec![e, b, e, e], vec![e, b, e, e], vec![e, b, e, e], vec![e, b, e, e]],
        );
        assert(piece.cells() =~~= Kind::I.shape());
        piece
    }

    /// A fresh S piece.
    pub fn create_s() -> (piece: Self)
        ensures
            piece.is_kind(Kind::S),
    {
        let b = Some(Brick::new(Kind::S.color(), false));
        let e = None;
        let piece = Self::new(vec![vec![e, e, e], vec![e, b, b], vec![b, b, e]]);
        assert(piece.cells() =~~= Kind::S.shape());
        piece
    }

    /// A fresh Z piece.
    pub fn create_z() -> (piece: Self)
        ensures
            piece.is_kind(Kind::Z),
    {
        let b = Some(Brick::new(Kind::Z.color(), false));
        let e = None;
        let piece = Self::new(vec![vec![e, e, e], vec![b, b, e], vec![e, b, b]]);
        assert(piece.cells() =~~= Kind::Z.shape());
        piece
    }

    /// A fresh T piece.
    pub fn create_t() -> (piece: Self)
        ensures
            piece.is_kind(Kind::T),
    {
        let b = Some(Brick::new(Kind::T.color(), false));
        let e = None;
        let piece = Self::new(vec![vec![e, e, e], vec![b, b, b], vec![e, b, e]]);
        assert(piece.cells() =~~= Kind::T.shape());
        piece
    }

    /// A fresh L piece.
    pub fn create_l() -> (piece: Self)
        ensures
            piece.is_kind(Kind::L),
    {
        let b = Some(Brick::new(Kind::L.color(), false));
        let e = None;
        let piece = Self::new(vec![vec![e, b, e], vec![e, b, e], vec![e, b, b]]);
        assert(piece.cells() =~~= Kind::L.shape());
        piece
    }

    /// A fresh J piece.
    pub fn create_j() -> (piece: Self)
        ensures
            piece.is_kind(Kind::J),
    {
        let b = Some(Brick::new(Kind::J.color(), false));
        let e = None;
        let piece = Self::new(vec![vec![e, b, e], vec![e, b, e], vec![b, b, e]]);
        assert(piece.cells() =~~= Kind::J.shape());
        piece
    }

    /// Puts the piece on the grid as the falling piece: its rows that hold a
    /// brick, one below the other from the top row, in the columns from the
    /// spawn column on. Bricks that would lie outside the grid are left out.
    pub fn set_default_position(&mut self, game_space: &mut Matrix)
        requires
            rectangular(cells(old(game_space))),
            width(cells(old(game_space))) >= 2,
        ensures
            *final(self) == *old(self),
            cells(final(game_space)) == stamped(
                cells(old(game_space)),
                solid_rows(old(self).cells()),
                spawn_col(cells(old(game_space))),
                true,
            ),
            same_size(cells(final(game_space)), cells(old(game_space))),
    {
        let start_col = game_space[0].len() / 2 - 1;
        stamp_rows(game_space, &self.matrix, 0, start_col, true);
        assert(self.cells().skip(0) =~= self.cells());
    }
}

/// The row holds a brick.
pub open spec fn has_brick(row: Seq<Option<Brick>>) -> bool {
    exists|j: int| 0 <= j < row.len() && (#[trigger] row[j]) is Some
}

/// The rows of `piece` that hold a brick, in their order.
pub open spec fn solid_rows(piece: Cells) -> Cells
    decreases piece.len(),
{
    if piece.len() == 0 {
        Seq::empty()
    } else if has_brick(piece.last()) {
        solid_rows(piece.drop_last()).push(piece.last())
    } else {
        solid_rows(piece.drop_last())
    }
}

/// The column of the grid on which the left edge of a new piece is laid.
pub open spec fn spawn_col(g: Cells) -> int {
    width(g) / 2 - 1
}

/// The grid with the bricks of `rows` written over it: row `k` of `rows` on
/// row `k` of the grid, its first cell on column `col`, each brick with its
/// colour and with `moving` as given. Cells on which no brick comes to lie
/// stay as they are, and bricks that would lie outside the grid are left out.
pub open spec fn stamped(g: Cells, rows: Cells, col: int, moving: bool) -> Cells {
    Seq::new(
        g.len(),
        |r: int|
            Seq::new(
                g[r].len(),
                |c: int|
                    if r < rows.len() && 0 <= c - col < rows[r].len() && rows[r][c - col] is Some {
                        Some(Brick { color: rows[r][c - col]->0.color, moving })
                    } else {
                        g[r][c]
                    },
            ),
    )
}

/// No more rows hold a brick than there are rows.
pub proof fn lemma_solid_rows_len(piece: Cells)
    ensures
        solid_rows(piece).len() <= piece.len(),
    decreases piece.len(),
{
    if piece.len() > 0 {
        lemma_solid_rows_len(piece.drop_last());
    }
}

/// The rows that hold a brick are found part by part.
pub proof fn lemma_solid_rows_concat(a: Cells, b: Cells)
    ensures
        solid_rows(a + b) == solid_rows(a) + solid_rows(b),
    decreases b.len(),
{
    if b.len() == 0 {
        assert(a + b =~= a);
        assert(solid_rows(a) + solid_rows(b) =~= solid_rows(a));
    } else {
        assert((a + b).drop_last() =~= a + b.drop_last());
        assert((a + b).last() == b.last());
        lemma_solid_rows_concat(a, b.drop_last());
        if has_brick(b.last()) {
            assert(solid_rows(a + b) =~= solid_rows(a) + solid_rows(b));
        }
    }
}

/// Every row that holds a brick is a row of the piece.
pub proof fn lemma_solid_rows_are_rows(piece: Cells)
    ensures
        forall|k: int|
            0 <= k < solid_rows(piece).len() ==> exists|i: int|
                0 <= i < piece.len() && piece[i] == #[trigger] solid_rows(piece)[k],
    decreases piece.len(),
{
    if piece.len() > 0 {
        let above = piece.drop_last();
        lemma_solid_rows_are_rows(above);
        assert forall|k: int| 0 <= k < solid_rows(piece).len() implies exists|i: int|
            0 <= i < piece.len() && piece[i] == #[trigger] solid_rows(piece)[k] by {
            if k < solid_rows(above).len() {
                let i = choose|i: int| 0 <= i < above.len() && above[i] == solid_rows(above)[k];
                assert(piece[i] == solid_rows(piece)[k]);
            } else {
                assert(piece[piece.len() - 1] == solid_rows(piece)[k]);
            }
        }
    }
}

/// A fresh piece has at most four rows, and its bricks stand in the first
/// three columns of its square.
pub proof fn lemma_fresh_piece(kind: Kind)
    ensures
        kind.shape().len() <= 4,
        forall|i: int, j: int|
            0 <= i < kind.shape().len() && 0 <= j < kind.shape()[i].len() && (
            #[trigger] kind.shape()[i][j]) is Some ==> j <= 2,
{
}

/// Writes the bricks of `matrix`, from its row `first` on, over the grid:
/// the rows that hold a brick, one below the other from the top row of the
/// grid, each row's first cell on column `start_col`. Bricks that would lie
/// outside the grid are left out.
pub(crate) fn stamp_rows(
    game_space: &mut Matrix,
    matrix: &Matrix,
    first: usize,
    start_col: usize,
    moving: bool,
)
    requires
        rectangular(cells(old(game_space))),
        first <= matrix@.len(),
    ensures
        cells(final(game_space)) == stamped(
            cells(old(game_space)),
            solid_rows(cells(matrix).skip(first as int)),
            start_col as int,
            moving,
        ),
{
    let ghost g = cells(game_space);
    let ghost piece = cells(matrix).skip(first as int);
    let rows = game_space.len();
    let cols = game_space[0].len();
    let mut start_row: usize = 0;
    let mut i: usize = first;
    proof {
        assert(piece.take(0) =~= Seq::<Seq<Option<Brick>>>::empty());
        assert(cells(game_space) =~~= stamped(g, solid_rows(piece.take(0)), start_col as int, moving));
    }
    while i < matrix.len()
        invariant
            rectangular(g),
            rows == g.len(),
            cols == width(g),
            piece == cells(matrix).skip(first as int),
            first <= i <= matrix@.len(),
            start_row == solid_rows(piece.take(i - first)).len(),
            cells(game_space) == stamped(
                g,
                solid_rows(piece.take(i - first)),
                start_col as int,
                moving,
            ),
        decreases matrix@.len() - i,
    {
        let ghost above = solid_rows(piece.take(i - first));
        let ghost row = piece[i - first];
        proof {
            assert(row == matrix@[i as int]@);
            assert(piece.take(i - first + 1).drop_last() =~= piece.take(i - first));
            assert(piece.take(i - first + 1).last() == row);
            lemma_solid_rows_len(piece.take(i - first));
        }
        let mut seen = false;
        let mut j: usize = 0;
        while j < matrix[i].len()
            invariant
                rectangular(g),
                rows == g.len(),
                cols == width(g),
                i < matrix@.len(),
                row == matrix@[i as int]@,
                j <= row.len(),
                start_row == above.len(),
                seen <==> exists|k: int| 0 <= k < j && (#[trigger] row[k]) is Some,
                cells(game_space).len() == rows,
                forall|r: int| 0 <= r < rows ==> (#[trigger] cells(game_space)[r]).len() == cols,
                forall|r: int, c: int|
                    0 <= r < rows && 0 <= c < cols ==> #[trigger] cells(game_space)[r][c] == if r
                        == start_row && 0 <= c - start_col < j && row[c - start_col] is Some {
                        Some(Brick { color: row[c - start_col]->0.color, moving })
                    } else {
                        stamped(g, above, start_col as int, moving)[r][c]
                    },
            decreases row.len() - j,
        {
            if let Some(brick) = &matrix[i][j] {
                seen = true;
                let x = start_row;
                if x < rows && start_col < cols && j < cols - start_col {
                    let y = start_col + j;
                    let mut new_brick = *brick;
                    new_brick.moving = moving;
                    let ghost before = cells(game_space);
                    assert(before[x as int].len() == cols);
                    game_space[x][y] = Some(new_brick);
                    assert forall|r: int, c: int| 0 <= r < rows && 0 <= c < cols && !(r == x && c
                        == y) implies #[trigger] cells(game_space)[r][c] == before[r][c] by {}
                    assert forall|r: int| 0 <= r < rows implies (#[trigger] cells(
                        game_space,
                    )[r]).len() == cols by {
                        assert(before[r].len() == cols);
                    }
                }
            }
            j += 1;
        }
        proof {
            assert(seen == has_brick(row));
            let below = solid_rows(piece.take(i - first + 1));
            assert forall|r: int, c: int| 0 <= r < rows && 0 <= c < cols implies #[trigger] cells(
                game_space,
            )[r][c] == stamped(g, below, start_col as int, moving)[r][c] by {
                if seen {
                    assert(below == above.push(row));
                    if r < above.len() {
                        assert(below[r] == above[r]);
                    }
                }
            }
            assert(cells(game_space) =~~= stamped(g, below, start_col as int, moving));
        }
        if seen {
            start_row += 1;
        }
        i += 1;
    }
    assert(piece.take(matrix@.len() - first) =~= piece);
}

} // verus!
