//! Square boards stored row by row in one vector, and the geometry of their cells.

use vstd::prelude::*;

verus! {

/// The cells of a square of side `n`, as (row, column) pairs.
pub open spec fn square(n: int) -> Set<(int, int)> {
    Set::new(|p: (int, int)| 0 <= p.0 < n && 0 <= p.1 < n)
}

/// The first `cols` cells of row `r`.
pub open spec fn row_segment(r: int, cols: int) -> Set<(int, int)> {
    Set::new(|p: (int, int)| p.0 == r && 0 <= p.1 < cols)
}

/// The cells of the first `rows` rows of a board of side `n`.
pub open spec fn block(rows: int, n: int) -> Set<(int, int)> {
    Set::new(|p: (int, int)| 0 <= p.0 < rows && 0 <= p.1 < n)
}

/// A row segment of `cols` cells has `cols` elements.
pub proof fn lemma_row_segment_len(r: int, cols: int)
    requires
        0 <= cols,
    ensures
        row_segment(r, cols).finite(),
        row_segment(r, cols).len() == cols,
    decreases cols,
{
    if cols == 0 {
        assert(row_segment(r, cols) =~= Set::<(int, int)>::empty());
    } else {
        lemma_row_segment_len(r, cols - 1);
        assert(row_segment(r, cols) =~= row_segment(r, cols - 1).insert((r, cols - 1)));
    }
}

/// A block of `rows` rows of `n` cells has `rows * n` elements.
pub proof fn lemma_block_len(rows: int, n: int)
    requires
        0 <= rows,
        0 <= n,
    ensures
        block(rows, n).finite(),
        block(rows, n).len() == rows * n,
    decreases rows,
{
    if rows == 0 {
        assert(block(rows, n) =~= Set::<(int, int)>::empty());
        assert(rows * n == 0) by (nonlinear_arith)
            requires
                rows == 0,
        ;
    } else {
        lemma_block_len(rows - 1, n);
        lemma_row_segment_len(rows - 1, n);
        let upper = block(rows - 1, n);
        let last = row_segment(rows - 1, n);
        assert(block(rows, n) =~= upper.union(last));
        assert(upper.disjoint(last));
        vstd::set_lib::lemma_set_disjoint_lens(upper, last);
        assert((rows - 1) * n + n == rows * n) by (nonlinear_arith);
    }
}

/// A square of side `n` has `n * n` cells.
pub proof fn lemma_square_len(n: int)
    requires
        0 <= n,
    ensures
        square(n).finite(),
        square(n).len() == n * n,
{
    lemma_block_len(n, n);
    assert(square(n) =~= block(n, n));
}

/// A set of cells of a square has at most as many elements as the square.
pub proof fn lemma_cells_bounded(s: Set<(int, int)>, n: int)
    requires
        0 <= n,
        s.subset_of(square(n)),
    ensures
        s.finite(),
        s.len() <= n * n,
{
    lemma_square_len(n);
    vstd::set_lib::lemma_len_subset(s, square(n));
}

/// Row-major position of a cell: rows of length `n` laid end to end.
pub open spec fn offset(n: int, r: int, c: int) -> int {
    r * n + c
}

/// The position of a cell lies within the `n * n` entries.
pub proof fn lemma_offset_bound(n: int, r: int, c: int)
    requires
        0 <= r < n,
        0 <= c < n,
    ensures
        0 <= offset(n, r, c) < n * n,
        r * n + n <= n * n,
{
    assert(0 <= r * n) by (nonlinear_arith)
        requires
            0 <= r,
            0 <= n,
    ;
    assert(r * n + n <= n * n) by (nonlinear_arith)
        requires
            r + 1 <= n,
            0 <= n,
    ;
}

/// Cells at the same position are the same cell.
pub proof fn lemma_offset_injective(n: int, r1: int, c1: int, r2: int, c2: int)
    requires
        0 <= c1 < n,
        0 <= c2 < n,
        offset(n, r1, c1) == offset(n, r2, c2),
    ensures
        r1 == r2,
        c1 == c2,
{
    if r1 < r2 {
        assert(r1 * n + n <= r2 * n) by (nonlinear_arith)
            requires
                r1 + 1 <= r2,
                0 <= n,
        ;
    } else if r2 < r1 {
        assert(r2 * n + n <= r1 * n) by (nonlinear_arith)
            requires
                r2 + 1 <= r1,
                0 <= n,
        ;
    }
}

/// Whether `rows` holds `n` rows of `n` entries each.
pub open spec fn is_square<T>(rows: Seq<Seq<T>>, n: int) -> bool {
    &&& rows.len() == n
    &&& forall|r: int| 0 <= r < n ==> (#[trigger] rows[r]).len() == n
}

/// The rows of a nested vector, each taken by its view.
pub open spec fn rows_of<T>(rows: Seq<Vec<T>>) -> Seq<Seq<T>> {
    Seq::new(rows.len(), |r: int| rows[r]@)
}

/// `rows` with the entry at `(r, c)` replaced by `value`.
pub open spec fn with_cell<T>(rows: Seq<Seq<T>>, r: int, c: int, value: T) -> Seq<Seq<T>> {
    rows.update(r, rows[r].update(c, value))
}

/// A square board of side `n`, kept as `n * n` entries in row-major order.
pub(crate) struct Board<T> {
    n: usize,
    cells: Vec<T>,
}

impl<T: Copy> Board<T> {
    /// The storage holds exactly one entry per cell.
    pub(crate) closed spec fn wf(&self) -> bool {
        self.cells.len() == self.n * self.n
    }

    /// The board as a sequence of rows.
    pub(crate) closed spec fn view(&self) -> Seq<Seq<T>> {
        Seq::new(
            self.n as nat,
            |r: int| Seq::new(self.n as nat, |c: int| self.cells@[offset(self.n as int, r, c)]),
        )
    }

    /// A well-formed board is square, and its cells can be counted in a `usize`.
    pub(crate) proof fn lemma_shape(&self)
        requires
            self.wf(),
        ensures
            is_square(self@, self@.len() as int),
            self@.len() * self@.len() <= usize::MAX,
    {
        assert(self@.len() == self.n);
    }

    /// The side of the board.
    pub(crate) fn side(&self) -> (n: usize)
        ensures
            n == self@.len(),
    {
        self.n
    }

    /// Builds the board whose rows are `rows`, or nothing where they are not
    /// `n` rows of `n` entries.
    pub(crate) fn from_rows(n: usize, rows: &Vec<Vec<T>>) -> (res: Option<Board<T>>)
        ensures
            res is Some <==> is_square(rows_of(rows@), n as int),
            res matches Some(b) ==> b.wf() && b@ == rows_of(rows@),
    {
        if rows.len() != n {
            return None;
        }
        let mut r: usize = 0;
        while r < n
            invariant
                r <= n,
                rows@.len() == n,
                forall|i: int| 0 <= i < r ==> (#[trigger] rows@[i])@.len() == n,
            decreases n - r,
        {
            if rows[r].len() != n {
                assert(rows_of(rows@)[r as int].len() != n);
                return None;
            }
            r += 1;
        }
        let mut cells: Vec<T> = Vec::new();
        let mut r: usize = 0;
        while r < n
            invariant
                r <= n,
                rows@.len() == n,
                forall|i: int| 0 <= i < n ==> (#[trigger] rows@[i])@.len() == n,
                cells@.len() == r * n,
                forall|i: int, j: int|
                    0 <= i < r && 0 <= j < n ==> cells@[#[trigger] offset(n as int, i, j)]
                        == rows@[i]@[j],
            decreases n - r,
        {
            let row = &rows[r];
            let mut c: usize = 0;
            while c < n
                invariant
                    r < n,
                    c <= n,
                    row@.len() == n,
                    row@ == rows@[r as int]@,
                    cells@.len() == r * n + c,
                    forall|i: int, j: int|
                        0 <= i < r && 0 <= j < n ==> cells@[#[trigger] offset(n as int, i, j)]
                            == rows@[i]@[j],
                    forall|j: int|
                        0 <= j < c ==> cells@[#[trigger] offset(n as int, r as int, j)] == row@[j],
                decreases n - c,
            {
                let ghost before = cells@;
                cells.push(row[c]);
                proof {
                    assert forall|i: int, j: int| 0 <= i < r && 0 <= j < n implies cells@[#[trigger] offset(
                        n as int,
                        i,
                        j,
                    )] == rows@[i]@[j] by {
                        lemma_offset_bound(n as int, i, j);
                        assert(i * n + n <= r * n) by (nonlinear_arith)
                            requires
                                i + 1 <= r,
                                0 <= n,
                        ;
                        assert(cells@[offset(n as int, i, j)] == before[offset(n as int, i, j)]);
                    }
                }
                c += 1;
            }
            proof {
                assert(r * n + n == (r + 1) * n) by (nonlinear_arith);
            }
            r += 1;
        }
        let board = Board { n, cells };
        proof {
            assert(board@ =~~= rows_of(rows@));
        }
        Some(board)
    }

    /// A board of the same side as `other`, with `value` in every cell.
    pub(crate) fn uniform_like<U: Copy>(other: &Board<U>, value: T) -> (b: Board<T>)
        requires
            other.wf(),
        ensures
            b.wf(),
            is_square(b@, other@.len() as int),
            forall|r: int, c: int|
                0 <= r < other@.len() && 0 <= c < other@.len() ==> #[trigger] b@[r][c] == value,
    {
        let n = other.n;
        let mut cells: Vec<T> = Vec::new();
        let total = other.cells.len();
        let mut i: usize = 0;
        while i < total
            invariant
                i <= total,
                cells@.len() == i,
                forall|j: int| 0 <= j < i ==> cells@[j] == value,
            decreases total - i,
        {
            cells.push(value);
            i += 1;
        }
        let b = Board { n, cells };
        proof {
            assert forall|r: int, c: int| 0 <= r < n && 0 <= c < n implies #[trigger] b@[r][c]
                == value by {
                lemma_offset_bound(n as int, r, c);
            }
        }
        b
    }

    /// The entry at row `r` and column `c`.
    pub(crate) fn get(&self, r: usize, c: usize) -> (value: T)
        requires
            self.wf(),
            r < self@.len(),
            c < self@.len(),
        ensures
            value == self@[r as int][c as int],
    {
        proof {
            lemma_offset_bound(self.n as int, r as int, c as int);
            assert(r * self.n <= offset(self.n as int, r as int, c as int));
        }
        self.cells[r * self.n + c]
    }

    /// Puts `value` at row `r` and column `c`; every other entry stays.
    pub(crate) fn set(&mut self, r: usize, c: usize, value: T)
        requires
            old(self).wf(),
            r < old(self)@.len(),
            c < old(self)@.len(),
        ensures
            final(self).wf(),
            final(self)@ == with_cell(old(self)@, r as int, c as int, value),
    {
        proof {
            lemma_offset_bound(self.n as int, r as int, c as int);
            assert(r * self.n <= offset(self.n as int, r as int, c as int));
        }
        let i: usize = r * self.n + c;
        self.cells.set(i, value);
        proof {
            let n = self.n as int;
            let want = with_cell(old(self)@, r as int, c as int, value);
            assert(self@.len() == want.len());
            assert forall|a: int| 0 <= a < n implies #[trigger] self@[a] =~= want[a] by {
                assert forall|b: int| 0 <= b < n implies self@[a][b] == want[a][b] by {
                    lemma_offset_bound(n, a, b);
                    if offset(n, a, b) == offset(n, r as int, c as int) {
                        lemma_offset_injective(n, a, b, r as int, c as int);
                    }
                }
            }
            assert(self@ =~= want);
        }
    }

    /// A second board with the same entries.
    pub(crate) fn duplicate(&self) -> (b: Board<T>)
        ensures
            self.wf() ==> b.wf(),
            b@ == self@,
    {
        let total = self.cells.len();
        let mut cells: Vec<T> = Vec::new();
        let mut i: usize = 0;
        while i < total
            invariant
                total == self.cells@.len(),
                i <= total,
                cells@.len() == i,
                forall|j: int| 0 <= j < i ==> cells@[j] == self.cells@[j],
            decreases total - i,
        {
            cells.push(self.cells[i]);
            i += 1;
        }
        proof {
            assert(cells@ =~= self.cells@);
        }
        Board { n: self.n, cells }
    }

    /// The rows of the board as a nested vector.
    pub(crate) fn to_rows(&self) -> (rows: Vec<Vec<T>>)
        requires
            self.wf(),
        ensures
            rows_of(rows@) == self@,
    {
        let n = self.n;
        let mut rows: Vec<Vec<T>> = Vec::new();
        let mut r: usize = 0;
        while r < n
            invariant
                self.wf(),
                n == self.n,
                r <= n,
                rows@.len() == r,
                forall|i: int| 0 <= i < r ==> (#[trigger] rows@[i])@ == self@[i],
            decreases n - r,
        {
            let mut row: Vec<T> = Vec::new();
            let mut c: usize = 0;
            while c < n
                invariant
                    self.wf(),
                    n == self.n,
                    r < n,
                    c <= n,
                    row@.len() == c,
                    forall|j: int| 0 <= j < c ==> row@[j] == self@[r as int][j],
                decreases n - c,
            {
                row.push(self.get(r, c));
                c += 1;
            }
            proof {
                assert(row@ =~= self@[r as int]);
            }
            rows.push(row);
            r += 1;
        }
        proof {
            assert(rows_of(rows@) =~= self@);
        }
        rows
    }
}

} // verus!
