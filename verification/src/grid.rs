//! The grid of colour codes that moves are played on.

use crate::board::{is_square, rows_of, with_cell, Board};
use crate::error::GridError;
use crate::region::colors_within;
use vstd::prelude::*;

verus! {

/// A square grid of colour codes between 0 and the colour count `k`.
///
/// Side and colour count are fixed when the grid is made.
pub struct Grid {
    k: usize,
    cells: Board<usize>,
}

impl View for Grid {
    type V = Seq<Seq<usize>>;

    /// The rows of the grid, top to bottom.
    closed spec fn view(&self) -> Seq<Seq<usize>> {
        self.cells@
    }
}

impl Grid {
    /// The colour count `k` that the grid was made with.
    pub closed spec fn colors(&self) -> usize {
        self.k
    }

    /// The grid is square and every cell holds a colour code of at most `k`.
    pub closed spec fn wf(&self) -> bool {
        &&& self.cells.wf()
        &&& colors_within(self.cells@, self.k)
    }

    /// What a well-formed grid is known to be: square, with colours within
    /// the colour count, and with a number of cells that fits a `usize`.
    pub proof fn lemma_valid(&self)
        requires
            self.wf(),
        ensures
            is_square(self@, self@.len() as int),
            colors_within(self@, self.colors()),
            self@.len() * self@.len() <= usize::MAX,
    {
        self.cells.lemma_shape();
    }

    /// Makes the grid of side `n` and colour count `k` whose rows are `rows`.
    ///
    /// Fails with `InvalidDimension` where `rows` is not `n` rows of `n`
    /// cells, and otherwise with `InvalidColor` where a cell is above `k`.
    pub fn new(n: usize, k: usize, rows: Vec<Vec<usize>>) -> (res: Result<Grid, GridError>)
        ensures
            match res {
                Ok(g) => {
                    &&& is_square(rows_of(rows@), n as int)
                    &&& colors_within(rows_of(rows@), k)
                    &&& g.wf()
                    &&& g@ == rows_of(rows@)
                    &&& g.colors() == k
                },
                Err(e) => if !is_square(rows_of(rows@), n as int) {
                    e == GridError::InvalidDimension
                } else {
                    e == GridError::InvalidColor && !colors_within(rows_of(rows@), k)
                },
            },
    {
        let cells = match Board::from_rows(n, &rows) {
            Some(cells) => cells,
            None => {
                return Err(GridError::InvalidDimension);
            },
        };
        let mut r: usize = 0;
        while r < n
            invariant
                cells.wf(),
                cells@ == rows_of(rows@),
                is_square(cells@, n as int),
                r <= n,
                forall|i: int, j: int| 0 <= i < r && 0 <= j < n ==> #[trigger] cells@[i][j] <= k,
            decreases n - r,
        {
            let mut c: usize = 0;
            while c < n
                invariant
                    cells.wf(),
                    cells@ == rows_of(rows@),
                    is_square(cells@, n as int),
                    r < n,
                    c <= n,
                    forall|i: int, j: int|
                        0 <= i < r && 0 <= j < n ==> #[trigger] cells@[i][j] <= k,
                    forall|j: int| 0 <= j < c ==> #[trigger] cells@[r as int][j] <= k,
                decreases n - c,
            {
                if cells.get(r, c) > k {
                    assert(!(cells@[r as int][c as int] <= k));
                    return Err(GridError::InvalidColor);
                }
                c += 1;
            }
            r += 1;
        }
        Ok(Grid { k, cells })
    }

    /// The side of the grid.
    pub fn n(&self) -> (n: usize)
        ensures
            n == self@.len(),
    {
        self.cells.side()
    }

    /// The colour count of the grid.
    pub fn k(&self) -> (k: usize)
        ensures
            k == self.colors(),
    {
        self.k
    }

    /// The colour of the cell at `(row, col)`, or `OutOfBounds`.
    pub fn get(&self, row: usize, col: usize) -> (res: Result<usize, GridError>)
        requires
            self.wf(),
        ensures
            res == if row < self@.len() && col < self@.len() {
                Ok::<usize, GridError>(self@[row as int][col as int])
            } else {
                Err::<usize, GridError>(GridError::OutOfBounds)
            },
    {
        let n = self.cells.side();
        if row < n && col < n {
            Ok(self.cells.get(row, col))
        } else {
            Err(GridError::OutOfBounds)
        }
    }

    /// Writes `color` to the cell at `(row, col)`.
    ///
    /// Fails with `OutOfBounds` where the cell is not on the grid, and
    /// otherwise with `InvalidColor` where `color` is above the colour count.
    /// A failure changes nothing.
    pub fn set(&mut self, row: usize, col: usize, color: usize) -> (res: Result<(), GridError>)
        requires
            old(self).wf(),
        ensures
            final(self).wf(),
            final(self).colors() == old(self).colors(),
            res == if !(row < old(self)@.len() && col < old(self)@.len()) {
                Err::<(), GridError>(GridError::OutOfBounds)
            } else if color > old(self).colors() {
                Err::<(), GridError>(GridError::InvalidColor)
            } else {
                Ok::<(), GridError>(())
            },
            res is Ok ==> final(self)@ == with_cell(old(self)@, row as int, col as int, color),
            res is Err ==> *final(self) == *old(self),
    {
        let n = self.cells.side();
        if !(row < n && col < n) {
            return Err(GridError::OutOfBounds);
        }
        if color > self.k {
            return Err(GridError::InvalidColor);
        }
        self.paint(row, col, color);
        Ok(())
    }

    /// The colour of a cell that is known to be on the grid.
    pub(crate) fn cell(&self, row: usize, col: usize) -> (color: usize)
        requires
            self.wf(),
            row < self@.len(),
            col < self@.len(),
        ensures
            color == self@[row as int][col as int],
            color <= self.colors(),
    {
        self.cells.get(row, col)
    }

    /// Writes a colour within the colour count to a cell that is known to be
    /// on the grid.
    pub(crate) fn paint(&mut self, row: usize, col: usize, color: usize)
        requires
            old(self).wf(),
            row < old(self)@.len(),
            col < old(self)@.len(),
            color <= old(self).colors(),
        ensures
            final(self).wf(),
            final(self).colors() == old(self).colors(),
            final(self)@ == with_cell(old(self)@, row as int, col as int, color),
    {
        proof {
            self.cells.lemma_shape();
        }
        self.cells.set(row, col, color);
    }

    /// A board of the grid's side with no cell marked.
    pub(crate) fn blank_marks(&self) -> (marks: Board<bool>)
        requires
            self.wf(),
        ensures
            marks.wf(),
            is_square(marks@, self@.len() as int),
            forall|r: int, c: int|
                0 <= r < self@.len() && 0 <= c < self@.len() ==> !(#[trigger] marks@[r][c]),
    {
        Board::uniform_like(&self.cells, false)
    }

    /// The rows of the grid as plain colour codes.
    pub fn rows(&self) -> (rows: Vec<Vec<usize>>)
        requires
            self.wf(),
        ensures
            rows_of(rows@) == self@,
    {
        self.cells.to_rows()
    }
}

impl Clone for Grid {
    /// An independent copy of the grid.
    fn clone(&self) -> (g: Grid)
        ensures
            g@ == self@,
            g.colors() == self.colors(),
            self.wf() ==> g.wf(),
    {
        Grid { k: self.k, cells: self.cells.duplicate() }
    }
}

} // verus!
