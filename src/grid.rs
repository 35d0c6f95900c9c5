//! An immutable rectangular matrix of non-negative traversal costs.

use vstd::prelude::*;

verus! {

/// Why a grid could not be built or read.
#[derive(PartialEq, Eq, Structural, Clone, Copy, Debug)]
pub enum GridError {
    /// No rows, empty rows, or rows of different lengths.
    InvalidGrid,
    /// A cell outside the grid was asked for.
    OutOfBounds,
}

/// Whether a matrix of rows is a non-empty rectangle.
pub open spec fn is_rectangular(rows: Seq<Seq<u32>>) -> bool {
    &&& rows.len() > 0
    &&& rows[0].len() > 0
    &&& forall|i: int| 0 <= i < rows.len() ==> #[trigger] rows[i].len() == rows[0].len()
}

/// Whether the cell at column `x` and row `y` lies in the matrix.
pub open spec fn in_grid(rows: Seq<Seq<u32>>, x: int, y: int) -> bool {
    0 <= y < rows.len() && 0 <= x < rows[y].len()
}

/// The cost of entering cell (`x`, `y`).
pub open spec fn cell_cost(rows: Seq<Seq<u32>>, x: int, y: int) -> int {
    rows[y][x] as int
}

/// The contents of rows of vectors.
pub open spec fn rows_view(rows: Seq<Vec<u32>>) -> Seq<Seq<u32>> {
    Seq::new(rows.len(), |j: int| rows[j]@)
}

/// A cost grid; every value of this type is a non-empty rectangle.
pub struct Grid {
    rows: Vec<Vec<u32>>,
}

impl View for Grid {
    type V = Seq<Seq<u32>>;

    closed spec fn view(&self) -> Seq<Seq<u32>> {
        rows_view(self.rows@)
    }
}

impl Grid {
    /// The grid's invariant: a non-empty rectangle.
    pub open spec fn wf(&self) -> bool {
        is_rectangular(self@)
    }

    /// Builds a grid from its rows, top row first.
    pub fn new(rows: Vec<Vec<u32>>) -> (r: Result<Grid, GridError>)
        ensures
            match r {
                Ok(g) => g.wf() && g@ == rows_view(rows@),
                Err(e) => e == GridError::InvalidGrid && !is_rectangular(
                    rows_view(rows@),
                ),
            },
    {
        let ghost view = rows_view(rows@);
        if rows.len() == 0 || rows[0].len() == 0 {
            return Err(GridError::InvalidGrid);
        }
        let width = rows[0].len();
        let mut i: usize = 0;
        while i < rows.len()
            invariant
                0 <= i <= rows.len(),
                width == rows@[0].len(),
                view == rows_view(rows@),
                forall|j: int| 0 <= j < i ==> #[trigger] view[j].len() == width,
            decreases rows.len() - i,
        {
            if rows[i].len() != width {
                assert(view[i as int].len() != view[0].len());
                return Err(GridError::InvalidGrid);
            }
            i = i + 1;
        }
        let g = Grid { rows };
        assert(g@ =~= view);
        Ok(g)
    }

    /// Number of columns.
    pub fn width(&self) -> (r: usize)
        requires
            self.wf(),
        ensures
            r == self@[0].len(),
    {
        self.rows[0].len()
    }

    /// Number of rows.
    pub fn height(&self) -> (r: usize)
        requires
            self.wf(),
        ensures
            r == self@.len(),
    {
        self.rows.len()
    }

    /// Whether (`x`, `y`) names a cell of the grid.
    pub fn in_bounds(&self, x: usize, y: usize) -> (r: bool)
        requires
            self.wf(),
        ensures
            r == in_grid(self@, x as int, y as int),
    {
        y < self.rows.len() && x < self.rows[y].len()
    }

    /// The cost of entering a cell known to lie in the grid.
    pub fn cost(&self, x: usize, y: usize) -> (r: u32)
        requires
            self.wf(),
            in_grid(self@, x as int, y as int),
        ensures
            r as int == cell_cost(self@, x as int, y as int),
    {
        self.rows[y][x]
    }

    /// The cost of entering cell (`x`, `y`), or `OutOfBounds` outside the grid.
    pub fn cost_at(&self, x: usize, y: usize) -> (r: Result<u32, GridError>)
        requires
            self.wf(),
        ensures
            match r {
                Ok(c) => in_grid(self@, x as int, y as int) && c as int == cell_cost(
                    self@,
                    x as int,
                    y as int,
                ),
                Err(e) => e == GridError::OutOfBounds && !in_grid(self@, x as int, y as int),
            },
    {
        if self.in_bounds(x, y) {
            Ok(self.cost(x, y))
        } else {
            Err(GridError::OutOfBounds)
        }
    }
}

} // verus!
