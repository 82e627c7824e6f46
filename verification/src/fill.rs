//! The paint-bucket move: a breadth-first search that repaints one region.

use crate::board::{is_square, lemma_cells_bounded, square, with_cell, Board};
use crate::error::GridError;
use crate::grid::Grid;
use crate::region::{
    adjacent, closed_under_steps, color_at, connected, filled, in_grid,
    lemma_closed_marks_cover_region, lemma_connected_self, lemma_connected_step,
    lemma_fill_same_color, marked, region,
};
use std::collections::VecDeque;
use vstd::prelude::*;

verus! {

/// A queue entry as a cell.
pub open spec fn cell_of(entry: (usize, usize)) -> (int, int) {
    (entry.0 as int, entry.1 as int)
}

/// Whether the cell `p` waits in the queue `q`.
pub open spec fn queued(q: Seq<(usize, usize)>, p: (int, int)) -> bool {
    exists|i: int| 0 <= i < q.len() && cell_of(#[trigger] q[i]) == p
}

/// The marked cells of a board of side `n`.
pub open spec fn marked_cells(marks: Seq<Seq<bool>>, n: int) -> Set<(int, int)> {
    Set::new(|p: (int, int)| 0 <= p.0 < n && 0 <= p.1 < n && marked(marks, p))
}

/// What holds between two rounds of the search that repaints the region of
/// `start` in `g0` with `color`: `now` is the grid so far, `marks` the cells
/// already repainted, `q` the cells still to be looked at.
pub open spec fn search_inv(
    g0: Seq<Seq<usize>>,
    start: (int, int),
    color: usize,
    now: Seq<Seq<usize>>,
    marks: Seq<Seq<bool>>,
    q: Seq<(usize, usize)>,
) -> bool {
    &&& is_square(now, g0.len() as int)
    &&& is_square(marks, g0.len() as int)
    &&& forall|r: int, c: int|
        0 <= r < g0.len() && 0 <= c < g0.len() ==> #[trigger] now[r][c] == if marks[r][c] {
            color
        } else {
            g0[r][c]
        }
    &&& forall|p: (int, int)|
        in_grid(g0, p) && #[trigger] marked(marks, p) ==> connected(g0, start, p)
    &&& forall|i: int|
        0 <= i < q.len() ==> in_grid(g0, cell_of(#[trigger] q[i])) && connected(
            g0,
            start,
            cell_of(q[i]),
        )
    &&& forall|a: (int, int), b: (int, int)|
        #![trigger marked(marks, a), adjacent(a, b)]
        in_grid(g0, a) && marked(marks, a) && in_grid(g0, b) && adjacent(a, b) && color_at(g0, b)
            == color_at(g0, start) ==> marked(marks, b) || queued(q, b)
    &&& marked(marks, start) || queued(q, start)
}

/// The queue after a neighbour was offered: it joins the queue where it is
/// unmarked and still carries the colour the search started from.
pub open spec fn offered(
    q: Seq<(usize, usize)>,
    now: Seq<Seq<usize>>,
    marks: Seq<Seq<bool>>,
    base: usize,
    entry: (usize, usize),
) -> Seq<(usize, usize)> {
    if !marked(marks, cell_of(entry)) && color_at(now, cell_of(entry)) == base {
        q.push(entry)
    } else {
        q
    }
}

/// What waits in a queue still waits when an entry joins, and so does the
/// entry.
proof fn lemma_queued_push(q: Seq<(usize, usize)>, entry: (usize, usize), p: (int, int))
    ensures
        queued(q, p) ==> queued(q.push(entry), p),
        cell_of(entry) == p ==> queued(q.push(entry), p),
{
    let longer = q.push(entry);
    if queued(q, p) {
        let i = choose|i: int| 0 <= i < q.len() && cell_of(#[trigger] q[i]) == p;
        assert(cell_of(longer[i]) == p);
    }
    if cell_of(entry) == p {
        assert(cell_of(longer[q.len() as int]) == p);
    }
}

/// What waits in a queue, but not at its head, still waits when the head
/// leaves.
proof fn lemma_queued_tail(q: Seq<(usize, usize)>, p: (int, int))
    requires
        q.len() > 0,
        queued(q, p),
        cell_of(q[0]) != p,
    ensures
        queued(q.subrange(1, q.len() as int), p),
{
    let tail = q.subrange(1, q.len() as int);
    let i = choose|i: int| 0 <= i < q.len() && cell_of(#[trigger] q[i]) == p;
    assert(cell_of(tail[i - 1]) == p);
}

/// Dropping a queue entry whose cell is already marked keeps the search sound.
proof fn lemma_skip_marked(
    g0: Seq<Seq<usize>>,
    start: (int, int),
    color: usize,
    now: Seq<Seq<usize>>,
    marks: Seq<Seq<bool>>,
    q: Seq<(usize, usize)>,
)
    requires
        search_inv(g0, start, color, now, marks, q),
        q.len() > 0,
        marked(marks, cell_of(q[0])),
    ensures
        search_inv(g0, start, color, now, marks, q.subrange(1, q.len() as int)),
{
    let tail = q.subrange(1, q.len() as int);
    assert forall|i: int| 0 <= i < tail.len() implies in_grid(g0, cell_of(#[trigger] tail[i]))
        && connected(g0, start, cell_of(tail[i])) by {
        assert(tail[i] == q[i + 1]);
    }
    assert forall|a: (int, int), b: (int, int)|
        #![trigger marked(marks, a), adjacent(a, b)]
        in_grid(g0, a) && marked(marks, a) && in_grid(g0, b) && adjacent(a, b) && color_at(g0, b)
            == color_at(g0, start) implies marked(marks, b) || queued(tail, b) by {
        if !marked(marks, b) {
            lemma_queued_tail(q, b);
        }
    }
    if !marked(marks, start) {
        lemma_queued_tail(q, start);
    }
}

/// The four neighbours that a cell can have, each offered only where it lies
/// on the grid.
pub open spec fn after_offers(
    q: Seq<(usize, usize)>,
    now: Seq<Seq<usize>>,
    marks: Seq<Seq<bool>>,
    base: usize,
    r: usize,
    c: usize,
) -> Seq<(usize, usize)> {
    let n = now.len();
    let q1 = if r > 0 {
        offered(q, now, marks, base, ((r - 1) as usize, c))
    } else {
        q
    };
    let q2 = if r + 1 < n {
        offered(q1, now, marks, base, ((r + 1) as usize, c))
    } else {
        q1
    };
    let q3 = if c > 0 {
        offered(q2, now, marks, base, (r, (c - 1) as usize))
    } else {
        q2
    };
    if c + 1 < n {
        offered(q3, now, marks, base, (r, (c + 1) as usize))
    } else {
        q3
    }
}

/// Every entry of the queue after the offers was there before or is a
/// neighbour that was taken; every earlier entry and every taken neighbour
/// is in it.
proof fn lemma_after_offers(
    q: Seq<(usize, usize)>,
    now: Seq<Seq<usize>>,
    marks: Seq<Seq<bool>>,
    base: usize,
    r: usize,
    c: usize,
)
    requires
        r < now.len(),
        c < now.len(),
        now.len() <= usize::MAX,
    ensures
        forall|i: int|
            0 <= i < after_offers(q, now, marks, base, r, c).len() ==> {
                let e = #[trigger] after_offers(q, now, marks, base, r, c)[i];
                ||| (i < q.len() && e == q[i])
                ||| (in_grid(now, cell_of(e)) && adjacent(cell_of((r, c)), cell_of(e)) && !marked(
                    marks,
                    cell_of(e),
                ) && color_at(now, cell_of(e)) == base)
            },
        forall|p: (int, int)| queued(q, p) ==> queued(after_offers(q, now, marks, base, r, c), p),
        forall|p: (int, int)|
            in_grid(now, p) && adjacent(cell_of((r, c)), p) && !marked(marks, p) && color_at(now, p)
                == base ==> queued(after_offers(q, now, marks, base, r, c), p),
{
    let n = now.len();
    let up = ((r - 1) as usize, c);
    let down = ((r + 1) as usize, c);
    let left = (r, (c - 1) as usize);
    let right = (r, (c + 1) as usize);
    let q1 = if r > 0 {
        offered(q, now, marks, base, up)
    } else {
        q
    };
    let q2 = if r + 1 < n {
        offered(q1, now, marks, base, down)
    } else {
        q1
    };
    let q3 = if c > 0 {
        offered(q2, now, marks, base, left)
    } else {
        q2
    };
    let q4 = after_offers(q, now, marks, base, r, c);
    assert forall|p: (int, int)| queued(q, p) implies queued(q4, p) by {
        lemma_queued_push(q, up, p);
        lemma_queued_push(q1, down, p);
        lemma_queued_push(q2, left, p);
        lemma_queued_push(q3, right, p);
    }
    assert forall|p: (int, int)|
        in_grid(now, p) && adjacent(cell_of((r, c)), p) && !marked(marks, p) && color_at(now, p)
            == base implies queued(q4, p) by {
        lemma_queued_push(q, up, p);
        lemma_queued_push(q1, down, p);
        lemma_queued_push(q2, left, p);
        lemma_queued_push(q3, right, p);
        lemma_queued_push(q1, up, p);
        assert(p == cell_of(up) || p == cell_of(down) || p == cell_of(left) || p == cell_of(right));
        if r > 0 && p == cell_of(up) {
            assert(queued(q1, p));
            assert(queued(q2, p));
            assert(queued(q3, p));
        } else if r + 1 < n && p == cell_of(down) {
            assert(queued(q2, p));
            assert(queued(q3, p));
        } else if c > 0 && p == cell_of(left) {
            assert(queued(q3, p));
        }
    }
}

/// Marking and repainting the cell at the head of the queue, then offering its
/// neighbours, keeps the search sound.
proof fn lemma_visit(
    g0: Seq<Seq<usize>>,
    start: (int, int),
    color: usize,
    now: Seq<Seq<usize>>,
    marks: Seq<Seq<bool>>,
    q: Seq<(usize, usize)>,
)
    requires
        search_inv(g0, start, color, now, marks, q),
        is_square(g0, g0.len() as int),
        g0.len() <= usize::MAX,
        q.len() > 0,
        !marked(marks, cell_of(q[0])),
    ensures
        ({
            let r = q[0].0;
            let c = q[0].1;
            let now2 = with_cell(now, r as int, c as int, color);
            let marks2 = with_cell(marks, r as int, c as int, true);
            let tail = q.subrange(1, q.len() as int);
            &&& search_inv(
                g0,
                start,
                color,
                now2,
                marks2,
                after_offers(tail, now2, marks2, color_at(g0, start), r, c),
            )
            &&& marked_cells(marks2, g0.len() as int) == marked_cells(marks, g0.len() as int).insert(
                cell_of(q[0]),
            )
            &&& !marked_cells(marks, g0.len() as int).contains(cell_of(q[0]))
        }),
{
    let n = g0.len() as int;
    let r = q[0].0;
    let c = q[0].1;
    let x = cell_of(q[0]);
    let base = color_at(g0, start);
    let now2 = with_cell(now, r as int, c as int, color);
    let marks2 = with_cell(marks, r as int, c as int, true);
    let tail = q.subrange(1, q.len() as int);
    let q2 = after_offers(tail, now2, marks2, base, r, c);
    assert(in_grid(g0, x) && connected(g0, start, x));
    crate::region::lemma_connected_same_color(g0, start, x);
    lemma_after_offers(tail, now2, marks2, base, r, c);

    assert(is_square(now2, n));
    assert(is_square(marks2, n));
    assert forall|p: (int, int)| in_grid(g0, p) implies (marked(marks2, p) <==> (p == x || marked(
        marks,
        p,
    ))) by {}
    assert forall|i: int, j: int| 0 <= i < n && 0 <= j < n implies #[trigger] now2[i][j] == if marks2[i][j] {
        color
    } else {
        g0[i][j]
    } by {
        assert(now[i][j] == if marks[i][j] {
            color
        } else {
            g0[i][j]
        });
    }
    assert forall|p: (int, int)| in_grid(g0, p) && #[trigger] marked(marks2, p) implies connected(
        g0,
        start,
        p,
    ) by {
        if p != x {
            assert(marked(marks, p));
        }
    }
    assert forall|i: int| 0 <= i < q2.len() implies in_grid(g0, cell_of(#[trigger] q2[i]))
        && connected(g0, start, cell_of(q2[i])) by {
        let e = q2[i];
        if i < tail.len() && e == tail[i] {
            assert(tail[i] == q[i + 1]);
        } else {
            let p = cell_of(e);
            assert(in_grid(now2, p) && adjacent(x, p) && !marked(marks2, p) && color_at(now2, p)
                == base);
            assert(now2[p.0][p.1] == g0[p.0][p.1]);
            lemma_connected_step(g0, start, x, p);
        }
    }
    assert forall|a: (int, int), b: (int, int)|
        #![trigger marked(marks2, a), adjacent(a, b)]
        in_grid(g0, a) && marked(marks2, a) && in_grid(g0, b) && adjacent(a, b) && color_at(g0, b)
            == base implies marked(marks2, b) || queued(q2, b) by {
        if !marked(marks2, b) {
            assert(now2[b.0][b.1] == g0[b.0][b.1]);
            if a == x {
                assert(queued(q2, b));
            } else {
                assert(marked(marks, a));
                assert(adjacent(a, b));
                assert(marked(marks, b) || queued(q, b));
                lemma_queued_tail(q, b);
                assert(queued(q2, b));
            }
        }
    }
    if !marked(marks2, start) {
        lemma_queued_tail(q, start);
        assert(queued(q2, start));
    }
    assert(marked_cells(marks2, n) =~= marked_cells(marks, n).insert(x));
}

/// When the queue has run empty, the marked cells are the region of `start`
/// and the grid is the one that the move was to produce.
proof fn lemma_search_done(
    g0: Seq<Seq<usize>>,
    start: (int, int),
    color: usize,
    now: Seq<Seq<usize>>,
    marks: Seq<Seq<bool>>,
)
    requires
        search_inv(g0, start, color, now, marks, Seq::<(usize, usize)>::empty()),
        in_grid(g0, start),
    ensures
        now == filled(g0, start, color),
        marked_cells(marks, g0.len() as int) == region(g0, start),
{
    let n = g0.len() as int;
    let none = Seq::<(usize, usize)>::empty();
    assert(forall|p: (int, int)| !queued(none, p));
    assert(closed_under_steps(g0, color_at(g0, start), marks)) by {
        assert forall|a: (int, int), b: (int, int)|
            #![trigger marked(marks, a), adjacent(a, b)]
            in_grid(g0, a) && marked(marks, a) && in_grid(g0, b) && adjacent(a, b) && color_at(
                g0,
                b,
            ) == color_at(g0, start) implies marked(marks, b) by {
            assert(marked(marks, b) || queued(none, b));
        }
    }
    assert forall|p: (int, int)| in_grid(g0, p) implies (marked(marks, p) <==> connected(
        g0,
        start,
        p,
    )) by {
        if connected(g0, start, p) {
            lemma_closed_marks_cover_region(g0, start, marks, p);
        }
    }
    let want = filled(g0, start, color);
    assert forall|r: int| 0 <= r < n implies #[trigger] now[r] =~= want[r] by {
        assert forall|c: int| 0 <= c < n implies now[r][c] == want[r][c] by {
            assert(in_grid(g0, (r, c)));
            assert(marked(marks, (r, c)) == marks[r][c]);
        }
    }
    assert(now =~= want);
    assert forall|p: (int, int)| region(g0, start).contains(p) implies in_grid(g0, p) by {
        crate::region::lemma_connected_same_color(g0, start, p);
    }
    assert(marked_cells(marks, n) =~= region(g0, start));
}

/// Adds the cell `(r, c)` to the queue where it is unmarked and still carries
/// the colour `base`.
fn offer(
    grid: &Grid,
    marks: &Board<bool>,
    queue: &mut VecDeque<(usize, usize)>,
    r: usize,
    c: usize,
    base: usize,
)
    requires
        grid.wf(),
        marks.wf(),
        marks@.len() == grid@.len(),
        r < grid@.len(),
        c < grid@.len(),
    ensures
        final(queue)@ == offered(old(queue)@, grid@, marks@, base, (r, c)),
{
    if !marks.get(r, c) && grid.cell(r, c) == base {
        queue.push_back((r, c));
    }
}

impl Grid {
    /// Repaints with `color` the region of the cell at `(row, col)`: every
    /// cell that can be reached from it by steps up, down, left and right
    /// through cells of its colour. Returns how many cells the region has.
    ///
    /// Fails with `OutOfBounds` where the cell is not on the grid, and
    /// otherwise with `InvalidColor` where `color` is above the colour count.
    /// A failure changes nothing; so does painting a region with the colour
    /// it already has.
    pub fn flood_fill(&mut self, row: usize, col: usize, color: usize) -> (res: Result<
        usize,
        GridError,
    >)
        requires
            old(self).wf(),
        ensures
            final(self).wf(),
            final(self).colors() == old(self).colors(),
            match res {
                Ok(count) => {
                    &&& row < old(self)@.len() && col < old(self)@.len()
                    &&& color <= old(self).colors()
                    &&& final(self)@ == filled(old(self)@, (row as int, col as int), color)
                    &&& count == region(old(self)@, (row as int, col as int)).len()
                    &&& count >= 1
                },
                Err(e) => {
                    &&& *final(self) == *old(self)
                    &&& if !(row < old(self)@.len() && col < old(self)@.len()) {
                        e == GridError::OutOfBounds
                    } else {
                        e == GridError::InvalidColor && color > old(self).colors()
                    }
                },
            },
            res is Ok && color == old(self)@[row as int][col as int] ==> final(self)@ == old(
                self,
            )@,
    {
        let n = self.n();
        if !(row < n && col < n) {
            return Err(GridError::OutOfBounds);
        }
        if color > self.k() {
            return Err(GridError::InvalidColor);
        }
        let ghost g0 = self@;
        let ghost start = (row as int, col as int);
        proof {
            self.lemma_valid();
            lemma_connected_self(g0, start);
            lemma_fill_same_color(g0, start);
        }
        let base = self.cell(row, col);
        let mut marks = self.blank_marks();
        let mut queue: VecDeque<(usize, usize)> = VecDeque::new();
        queue.push_back((row, col));
        let mut count: usize = 0;
        proof {
            assert(cell_of(queue@[0]) == start);
            assert(marked_cells(marks@, n as int) =~= Set::<(int, int)>::empty());
        }
        loop
            invariant
                self.wf(),
                self.colors() == old(self).colors(),
                color <= self.colors(),
                marks.wf(),
                n == g0.len(),
                is_square(g0, n as int),
                n * n <= usize::MAX,
                in_grid(g0, start),
                base == color_at(g0, start),
                search_inv(g0, start, color, self@, marks@, queue@),
                marked_cells(marks@, n as int).finite(),
                marked_cells(marks@, n as int).len() == count,
            ensures
                queue@.len() == 0,
            decreases n * n - count, queue@.len(),
        {
            let ghost q = queue@;
            let ghost now = self@;
            let ghost before = marks@;
            let (r, c) = match queue.pop_front() {
                Some(entry) => entry,
                None => {
                    break ;
                },
            };
            assert(in_grid(g0, cell_of(q[0])));
            if marks.get(r, c) {
                proof {
                    lemma_skip_marked(g0, start, color, now, before, q);
                    assert(marked_cells(before, n as int).subset_of(square(n as int)));
                    lemma_cells_bounded(marked_cells(before, n as int), n as int);
                }
            } else {
                marks.set(r, c, true);
                self.paint(r, c, color);
                proof {
                    lemma_visit(g0, start, color, now, before, q);
                    assert(marked_cells(marks@, n as int).subset_of(square(n as int)));
                    lemma_cells_bounded(marked_cells(marks@, n as int), n as int);
                }
                count += 1;
                if r > 0 {
                    offer(self, &marks, &mut queue, r - 1, c, base);
                }
                if r + 1 < n {
                    offer(self, &marks, &mut queue, r + 1, c, base);
                }
                if c > 0 {
                    offer(self, &marks, &mut queue, r, c - 1, base);
                }
                if c + 1 < n {
                    offer(self, &marks, &mut queue, r, c + 1, base);
                }
            }
        }
        proof {
            assert(queue@ =~= Seq::<(usize, usize)>::empty());
            lemma_search_done(g0, start, color, self@, marks@);
            assert(region(g0, start).contains(start));
        }
        Ok(count)
    }
}

} // verus!
