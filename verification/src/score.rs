//! The score of a position: how often its most frequent colour occurs, less
//! one point for every move made.
//!
//! Only the colours 1 to `k` are counted, and a colour counts wherever it
//! stands: its cells need not touch.

use crate::board::{is_square, lemma_cells_bounded, square};
use crate::grid::Grid;
use crate::region::{
    color_at, connected, filled, in_grid, lemma_connected_same_color, lemma_fill_region,
    lemma_region_finite, region,
};
use vstd::prelude::*;

verus! {

/// The cells of `g` that hold `color`.
pub open spec fn cells_of_color(g: Seq<Seq<usize>>, color: usize) -> Set<(int, int)> {
    Set::new(|p: (int, int)| in_grid(g, p) && color_at(g, p) == color)
}

/// How many cells of `g` hold `color`.
pub open spec fn color_count(g: Seq<Seq<usize>>, color: usize) -> nat {
    cells_of_color(g, color).len()
}

/// The largest of the counts of the colours 1 to `k`; 0 where `k` is 0.
pub open spec fn max_color_count(g: Seq<Seq<usize>>, k: nat) -> nat
    decreases k,
{
    if k == 0 {
        0
    } else {
        let rest = max_color_count(g, (k - 1) as nat);
        let here = color_count(g, k as usize);
        if here > rest {
            here
        } else {
            rest
        }
    }
}

/// The score of the position `g` with colours 1 to `k` after `moves` moves.
pub open spec fn score_of(g: Seq<Seq<usize>>, k: nat, moves: nat) -> int {
    max_color_count(g, k) - moves
}

/// The cells of `color` that come before `(r, c)` when `g` is read row by row.
pub open spec fn counted(g: Seq<Seq<usize>>, color: usize, r: int, c: int) -> Set<(int, int)> {
    Set::new(
        |p: (int, int)|
            in_grid(g, p) && color_at(g, p) == color && (p.0 < r || (p.0 == r && p.1 < c)),
    )
}

/// The count of a colour is at most the number of cells.
pub proof fn lemma_color_count_bounded(g: Seq<Seq<usize>>, color: usize)
    ensures
        cells_of_color(g, color).finite(),
        color_count(g, color) <= g.len() * g.len(),
{
    assert(cells_of_color(g, color).subset_of(square(g.len() as int)));
    lemma_cells_bounded(cells_of_color(g, color), g.len() as int);
}

/// The largest count is reached by none of the colours 1 to `k` exceeded, and
/// is the count of one of them where there is any.
pub proof fn lemma_max_color_count(g: Seq<Seq<usize>>, k: nat)
    requires
        k <= usize::MAX,
    ensures
        forall|color: usize| 1 <= color <= k ==> color_count(g, color) <= max_color_count(g, k),
        k >= 1 ==> exists|color: usize|
            1 <= color <= k && #[trigger] color_count(g, color) == max_color_count(g, k),
        max_color_count(g, k) <= g.len() * g.len(),
    decreases k,
{
    if k > 0 {
        lemma_max_color_count(g, (k - 1) as nat);
        lemma_color_count_bounded(g, k as usize);
        let rest = max_color_count(g, (k - 1) as nat);
        let here = color_count(g, k as usize);
        if here > rest || k == 1 {
            assert(color_count(g, k as usize) == max_color_count(g, k));
        } else {
            let color = choose|color: usize|
                1 <= color <= k - 1 && #[trigger] color_count(g, color) == rest;
            assert(1 <= color <= k && color_count(g, color) == max_color_count(g, k));
        }
    } else {
        assert(0 <= g.len() * g.len()) by (nonlinear_arith);
    }
}

/// A move with a colour other than the region's own gives the cells of the
/// region to the new colour, takes them from the old one, and leaves the
/// count of every other colour as it was.
pub proof fn lemma_fill_counts(g: Seq<Seq<usize>>, start: (int, int), color: usize, other: usize)
    requires
        is_square(g, g.len() as int),
        in_grid(g, start),
        color != color_at(g, start),
    ensures
        color_count(filled(g, start, color), color) == color_count(g, color) + region(g, start).len(),
        color_count(filled(g, start, color), color_at(g, start)) == color_count(
            g,
            color_at(g, start),
        ) - region(g, start).len(),
        other != color && other != color_at(g, start) ==> color_count(
            filled(g, start, color),
            other,
        ) == color_count(g, other),
{
    let after = filled(g, start, color);
    let base = color_at(g, start);
    let reg = region(g, start);
    lemma_region_finite(g, start);
    lemma_color_count_bounded(g, color);
    lemma_color_count_bounded(g, base);
    lemma_color_count_bounded(after, base);
    assert forall|p: (int, int)| in_grid(g, p) implies color_at(after, p) == if connected(
        g,
        start,
        p,
    ) {
        color
    } else {
        color_at(g, p)
    } by {
        lemma_fill_region(g, start, color, p);
    }
    assert forall|p: (int, int)| reg.contains(p) implies in_grid(g, p) && color_at(g, p)
        == base by {
        lemma_connected_same_color(g, start, p);
    }
    assert(cells_of_color(after, color) =~= cells_of_color(g, color).union(reg));
    assert(cells_of_color(g, color).disjoint(reg));
    vstd::set_lib::lemma_set_disjoint_lens(cells_of_color(g, color), reg);
    assert(cells_of_color(g, base) =~= cells_of_color(after, base).union(reg));
    assert(cells_of_color(after, base).disjoint(reg));
    vstd::set_lib::lemma_set_disjoint_lens(cells_of_color(after, base), reg);
    if other != color && other != base {
        assert(cells_of_color(after, other) =~= cells_of_color(g, other));
    }
}

impl Grid {
    /// How many cells hold `color`.
    pub fn count_color(&self, color: usize) -> (count: usize)
        requires
            self.wf(),
        ensures
            count == color_count(self@, color),
    {
        let n = self.n();
        let ghost g = self@;
        proof {
            self.lemma_valid();
        }
        let mut count: usize = 0;
        let mut r: usize = 0;
        proof {
            assert(counted(g, color, 0, 0) =~= Set::<(int, int)>::empty());
        }
        while r < n
            invariant
                self.wf(),
                g == self@,
                n == g.len(),
                n * n <= usize::MAX,
                r <= n,
                counted(g, color, r as int, 0).finite(),
                count == counted(g, color, r as int, 0).len(),
            decreases n - r,
        {
            let mut c: usize = 0;
            while c < n
                invariant
                    self.wf(),
                    g == self@,
                    n == g.len(),
                    n * n <= usize::MAX,
                    r < n,
                    c <= n,
                    counted(g, color, r as int, c as int).finite(),
                    count == counted(g, color, r as int, c as int).len(),
                decreases n - c,
            {
                let ghost before = counted(g, color, r as int, c as int);
                let ghost after = counted(g, color, r as int, c + 1);
                if self.cell(r, c) == color {
                    proof {
                        assert(after =~= before.insert((r as int, c as int)));
                        assert(after.subset_of(square(n as int)));
                        lemma_cells_bounded(after, n as int);
                    }
                    count += 1;
                } else {
                    proof {
                        assert(after =~= before);
                    }
                }
                c += 1;
            }
            proof {
                assert(counted(g, color, r as int, n as int) =~= counted(g, color, r + 1, 0));
            }
            r += 1;
        }
        proof {
            assert(counted(g, color, n as int, 0) =~= cells_of_color(g, color));
        }
        count
    }

    /// The largest of the counts of the colours 1 to `k`.
    pub fn max_color_count(&self) -> (most: usize)
        requires
            self.wf(),
        ensures
            most == max_color_count(self@, self.colors() as nat),
    {
        let k = self.k();
        let mut most: usize = 0;
        let mut color: usize = 0;
        while color < k
            invariant
                self.wf(),
                k == self.colors(),
                color <= k,
                most == max_color_count(self@, color as nat),
            decreases k - color,
        {
            color += 1;
            let here = self.count_color(color);
            if here > most {
                most = here;
            }
        }
        most
    }

    /// The score of this position after `moves` moves: the largest colour
    /// count less the number of moves. It is negative where more moves were
    /// made than the most frequent colour has cells.
    pub fn score(&self, moves: usize) -> (score: i128)
        requires
            self.wf(),
        ensures
            score == score_of(self@, self.colors() as nat, moves as nat),
    {
        let most = self.max_color_count();
        most as i128 - moves as i128
    }
}

} // verus!
