//! What a paint-bucket move does, stated over the rows of a grid.
//!
//! Two cells are connected when a walk of up/down/left/right steps leads from
//! one to the other through cells that all carry the colour of the first.

use crate::board::{is_square, square};
use vstd::prelude::*;

verus! {

/// Whether `p` is a cell of the square grid `g`.
pub open spec fn in_grid(g: Seq<Seq<usize>>, p: (int, int)) -> bool {
    0 <= p.0 < g.len() && 0 <= p.1 < g.len()
}

/// The colour of cell `p`.
pub open spec fn color_at(g: Seq<Seq<usize>>, p: (int, int)) -> usize {
    g[p.0][p.1]
}

/// Whether `a` and `b` share an edge: one step up, down, left or right.
pub open spec fn adjacent(a: (int, int), b: (int, int)) -> bool {
    ||| a.0 == b.0 && (a.1 == b.1 + 1 || b.1 == a.1 + 1)
    ||| a.1 == b.1 && (a.0 == b.0 + 1 || b.0 == a.0 + 1)
}

/// Whether `path` is a walk through cells of `g` that all carry `color`,
/// each step going to an adjacent cell.
pub open spec fn is_path(g: Seq<Seq<usize>>, path: Seq<(int, int)>, color: usize) -> bool {
    &&& path.len() > 0
    &&& forall|i: int|
        0 <= i < path.len() ==> in_grid(g, #[trigger] path[i]) && color_at(g, path[i]) == color
    &&& forall|i: int| 0 <= i < path.len() - 1 ==> adjacent(#[trigger] path[i], path[i + 1])
}

/// Whether `path` leads from `a` to `b` through cells of `a`'s colour.
pub open spec fn joins(g: Seq<Seq<usize>>, path: Seq<(int, int)>, a: (int, int), b: (int, int)) -> bool {
    &&& is_path(g, path, color_at(g, a))
    &&& path[0] == a
    &&& path.last() == b
}

/// Whether `b` can be reached from `a` through cells of `a`'s colour.
pub open spec fn connected(g: Seq<Seq<usize>>, a: (int, int), b: (int, int)) -> bool {
    exists|path: Seq<(int, int)>| joins(g, path, a, b)
}

/// The cells that a move on `start` repaints.
pub open spec fn region(g: Seq<Seq<usize>>, start: (int, int)) -> Set<(int, int)> {
    Set::new(|p: (int, int)| connected(g, start, p))
}

/// The grid after a move on `start` with `color`: the region of `start`
/// carries `color`, every other cell keeps what it had.
pub open spec fn filled(g: Seq<Seq<usize>>, start: (int, int), color: usize) -> Seq<Seq<usize>> {
    Seq::new(
        g.len(),
        |r: int|
            Seq::new(
                g.len(),
                |c: int|
                    if connected(g, start, (r, c)) {
                        color
                    } else {
                        g[r][c]
                    },
            ),
    )
}

/// Whether every cell of `g` holds a colour code of at most `k`.
pub open spec fn colors_within(g: Seq<Seq<usize>>, k: usize) -> bool {
    forall|r: int, c: int| 0 <= r < g.len() && 0 <= c < g.len() ==> #[trigger] g[r][c] <= k
}

/// Every cell of the grid is connected to itself.
pub proof fn lemma_connected_self(g: Seq<Seq<usize>>, a: (int, int))
    requires
        in_grid(g, a),
    ensures
        connected(g, a, a),
{
    let path = seq![a];
    assert(joins(g, path, a, a));
}

/// What is connected to `a` lies in the grid and carries `a`'s colour.
pub proof fn lemma_connected_same_color(g: Seq<Seq<usize>>, a: (int, int), b: (int, int))
    requires
        connected(g, a, b),
    ensures
        in_grid(g, a),
        in_grid(g, b),
        color_at(g, b) == color_at(g, a),
{
    let path = choose|path: Seq<(int, int)>| joins(g, path, a, b);
    assert(in_grid(g, path[0]));
    assert(in_grid(g, path[path.len() - 1]));
}

/// A walk can be extended by one step to an adjacent cell of the same colour.
pub proof fn lemma_connected_step(g: Seq<Seq<usize>>, a: (int, int), b: (int, int), c: (int, int))
    requires
        connected(g, a, b),
        in_grid(g, c),
        adjacent(b, c),
        color_at(g, c) == color_at(g, a),
    ensures
        connected(g, a, c),
{
    let path = choose|path: Seq<(int, int)>| joins(g, path, a, b);
    let longer = path.push(c);
    assert forall|i: int| 0 <= i < longer.len() - 1 implies adjacent(
        #[trigger] longer[i],
        longer[i + 1],
    ) by {
        if i < path.len() - 1 {
            assert(adjacent(path[i], path[i + 1]));
        }
    }
    assert forall|i: int| 0 <= i < longer.len() implies in_grid(g, #[trigger] longer[i])
        && color_at(g, longer[i]) == color_at(g, a) by {
        if i < path.len() {
            assert(in_grid(g, path[i]));
        }
    }
    assert(joins(g, longer, a, c));
}

/// The region of a cell is a finite set of cells of the grid.
pub proof fn lemma_region_finite(g: Seq<Seq<usize>>, start: (int, int))
    ensures
        region(g, start).finite(),
        region(g, start).subset_of(square(g.len() as int)),
        region(g, start).len() <= g.len() * g.len(),
{
    assert forall|p: (int, int)| region(g, start).contains(p) implies square(
        g.len() as int,
    ).contains(p) by {
        lemma_connected_same_color(g, start, p);
    }
    crate::board::lemma_cells_bounded(region(g, start), g.len() as int);
}

/// Whether the cell `p` is marked in `marks`.
pub open spec fn marked(marks: Seq<Seq<bool>>, p: (int, int)) -> bool {
    marks[p.0][p.1]
}

/// Whether every cell of `color` next to a marked cell is marked too.
pub open spec fn closed_under_steps(g: Seq<Seq<usize>>, color: usize, marks: Seq<Seq<bool>>) -> bool {
    forall|a: (int, int), b: (int, int)|
        #![trigger marked(marks, a), adjacent(a, b)]
        in_grid(g, a) && marked(marks, a) && in_grid(g, b) && adjacent(a, b) && color_at(g, b)
            == color ==> marked(marks, b)
}

/// Every cell of a walk that starts at a marked cell is marked, where the
/// marks are closed under steps.
proof fn lemma_marked_along(
    g: Seq<Seq<usize>>,
    start: (int, int),
    marks: Seq<Seq<bool>>,
    path: Seq<(int, int)>,
    i: int,
)
    requires
        is_path(g, path, color_at(g, start)),
        path[0] == start,
        0 <= i < path.len(),
        marked(marks, start),
        closed_under_steps(g, color_at(g, start), marks),
    ensures
        marked(marks, path[i]),
    decreases i,
{
    if i > 0 {
        lemma_marked_along(g, start, marks, path, i - 1);
        assert(in_grid(g, path[i - 1]));
        assert(in_grid(g, path[i]));
        assert(adjacent(path[i - 1], path[i]));
    }
}

/// A set of marks that holds `start` and is closed under steps through cells of
/// `start`'s colour holds the whole region of `start`.
pub proof fn lemma_closed_marks_cover_region(
    g: Seq<Seq<usize>>,
    start: (int, int),
    marks: Seq<Seq<bool>>,
    p: (int, int),
)
    requires
        marked(marks, start),
        closed_under_steps(g, color_at(g, start), marks),
        connected(g, start, p),
    ensures
        marked(marks, p),
{
    let path = choose|path: Seq<(int, int)>| joins(g, path, start, p);
    lemma_marked_along(g, start, marks, path, path.len() - 1);
}

/// Painting a region with the colour it already has changes nothing.
pub proof fn lemma_fill_same_color(g: Seq<Seq<usize>>, start: (int, int))
    requires
        is_square(g, g.len() as int),
    ensures
        filled(g, start, color_at(g, start)) == g,
{
    let f = filled(g, start, color_at(g, start));
    assert forall|r: int| 0 <= r < g.len() implies #[trigger] f[r] =~= g[r] by {
        assert forall|c: int| 0 <= c < g.len() implies f[r][c] == g[r][c] by {
            if connected(g, start, (r, c)) {
                lemma_connected_same_color(g, start, (r, c));
            }
        }
    }
    assert(f =~= g);
}

/// After a move, every cell of the region of `start` carries the new colour,
/// and every other cell carries what it carried before.
pub proof fn lemma_fill_region(g: Seq<Seq<usize>>, start: (int, int), color: usize, p: (int, int))
    requires
        in_grid(g, p),
    ensures
        filled(g, start, color).len() == g.len(),
        filled(g, start, color)[p.0].len() == g.len(),
        connected(g, start, p) ==> color_at(filled(g, start, color), p) == color,
        !connected(g, start, p) ==> color_at(filled(g, start, color), p) == color_at(g, p),
{
}

} // verus!
