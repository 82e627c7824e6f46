//! Replaying a list of moves from an initial grid, one prefix at a time.

use crate::error::GridError;
use crate::grid::Grid;
use crate::region::{filled, region};
use crate::score::{max_color_count, score_of};
use vstd::prelude::*;

verus! {

/// One move: repaint the region of the cell at (`row`, `col`) with `color`.
/// Rows and columns count from 0.
#[derive(Clone, Copy, Debug, PartialEq, Eq, Structural)]
pub struct Operation {
    pub row: usize,
    pub col: usize,
    pub color: usize,
}

/// Where and why a replay stopped, with the grid as the moves before
/// `index` left it.
pub struct ReplayFailure {
    pub index: usize,
    pub reason: GridError,
    pub grid: Grid,
}

/// Whether `op` can be played on a grid of side `n` with colour count `k`.
pub open spec fn op_valid(n: nat, k: usize, op: Operation) -> bool {
    op.row < n && op.col < n && op.color <= k
}

/// The failure that a move which cannot be played is turned down with.
pub open spec fn op_error(n: nat, op: Operation) -> GridError {
    if !(op.row < n && op.col < n) {
        GridError::OutOfBounds
    } else {
        GridError::InvalidColor
    }
}

/// Whether each of the first `t` moves can be played.
pub open spec fn valid_prefix(n: nat, k: usize, ops: Seq<Operation>, t: nat) -> bool {
    &&& t <= ops.len()
    &&& forall|i: int| 0 <= i < t ==> op_valid(n, k, #[trigger] ops[i])
}

/// The grid after the move `op`.
pub open spec fn played(g: Seq<Seq<usize>>, op: Operation) -> Seq<Seq<usize>> {
    filled(g, (op.row as int, op.col as int), op.color)
}

/// The grid after the first `t` moves of `ops`, played in order from `g0`.
pub open spec fn state_after(g0: Seq<Seq<usize>>, ops: Seq<Operation>, t: nat) -> Seq<Seq<usize>>
    decreases t,
{
    if t == 0 {
        g0
    } else {
        played(state_after(g0, ops, (t - 1) as nat), ops[t - 1])
    }
}

/// The score after the first `t` moves of `ops`.
pub open spec fn score_after(g0: Seq<Seq<usize>>, k: nat, ops: Seq<Operation>, t: nat) -> int {
    score_of(state_after(g0, ops, t), k, t)
}

/// What a replay of the first `t` moves of `ops` from `g0` comes to.
///
/// It succeeds where there are `t` moves and each can be played, and then
/// holds the grid after them. Otherwise it stops at the first move that
/// cannot be played, or at the end of the list where `t` lies beyond it,
/// and reports the index it stopped at, the reason, and the grid reached.
pub open spec fn is_replay_of(
    g0: Seq<Seq<usize>>,
    k: usize,
    ops: Seq<Operation>,
    t: nat,
    res: Result<Grid, ReplayFailure>,
) -> bool {
    match res {
        Ok(g) => {
            &&& valid_prefix(g0.len(), k, ops, t)
            &&& g@ == state_after(g0, ops, t)
            &&& g.colors() == k
            &&& g.wf()
        },
        Err(f) => {
            &&& f.index <= t
            &&& valid_prefix(g0.len(), k, ops, f.index as nat)
            &&& f.grid@ == state_after(g0, ops, f.index as nat)
            &&& f.grid.colors() == k
            &&& f.grid.wf()
            &&& if f.index < ops.len() {
                &&& f.index < t
                &&& !op_valid(g0.len(), k, ops[f.index as int])
                &&& f.reason == op_error(g0.len(), ops[f.index as int])
            } else {
                &&& t > ops.len()
                &&& f.reason == GridError::ReplayExhausted
            }
        },
    }
}

/// How many of the first `t` moves can be played before one cannot or the
/// list ends.
pub open spec fn playable(n: nat, k: usize, ops: Seq<Operation>, t: nat) -> nat
    decreases t,
{
    if t == 0 {
        0
    } else {
        let before = playable(n, k, ops, (t - 1) as nat);
        if before == t - 1 && t - 1 < ops.len() && op_valid(n, k, ops[t - 1]) {
            t
        } else {
            before
        }
    }
}

/// The reason for which a replay stops at `index`.
pub open spec fn stop_reason(n: nat, ops: Seq<Operation>, index: nat) -> GridError {
    if index < ops.len() {
        op_error(n, ops[index as int])
    } else {
        GridError::ReplayExhausted
    }
}

/// The moves counted by `playable` can each be played, and the next one
/// cannot where fewer than `t` are counted.
pub proof fn lemma_playable(n: nat, k: usize, ops: Seq<Operation>, t: nat)
    ensures
        playable(n, k, ops, t) <= t,
        valid_prefix(n, k, ops, playable(n, k, ops, t)),
        playable(n, k, ops, t) < t && playable(n, k, ops, t) < ops.len() ==> !op_valid(
            n,
            k,
            ops[playable(n, k, ops, t) as int],
        ),
    decreases t,
{
    if t > 0 {
        lemma_playable(n, k, ops, (t - 1) as nat);
    }
}

/// A replay succeeds where all `t` moves are playable, and otherwise stops
/// after the playable ones, for the reason that `stop_reason` gives.
pub proof fn lemma_replay_stops(
    g0: Seq<Seq<usize>>,
    k: usize,
    ops: Seq<Operation>,
    t: nat,
    res: Result<Grid, ReplayFailure>,
)
    requires
        is_replay_of(g0, k, ops, t, res),
    ensures
        match res {
            Ok(_) => playable(g0.len(), k, ops, t) == t,
            Err(f) => f.index == playable(g0.len(), k, ops, t) && f.index < t && f.reason
                == stop_reason(g0.len(), ops, f.index as nat),
        },
{
    let n = g0.len();
    let m = playable(n, k, ops, t);
    lemma_playable(n, k, ops, t);
    match res {
        Ok(_) => {
            if m < t {
                assert(op_valid(n, k, ops[m as int]));
            }
        },
        Err(f) => {
            if f.index < m {
                assert(op_valid(n, k, ops[f.index as int]));
            } else if m < f.index {
                assert(op_valid(n, k, ops[m as int]));
            }
        },
    }
}

/// Moves after the first `t` have no part in what the first `t` come to:
/// two lists that agree on their first `t` moves reach the same grid, and
/// the same number of them can be played.
pub proof fn lemma_replay_prefix(
    g0: Seq<Seq<usize>>,
    k: usize,
    first: Seq<Operation>,
    second: Seq<Operation>,
    t: nat,
)
    requires
        t <= first.len(),
        t <= second.len(),
        forall|i: int| 0 <= i < t ==> first[i] == second[i],
    ensures
        state_after(g0, first, t) == state_after(g0, second, t),
        playable(g0.len(), k, first, t) == playable(g0.len(), k, second, t),
    decreases t,
{
    if t > 0 {
        lemma_replay_prefix(g0, k, first, second, (t - 1) as nat);
    }
}

/// Playing moves keeps the side of the grid.
pub proof fn lemma_state_side(g0: Seq<Seq<usize>>, ops: Seq<Operation>, t: nat)
    ensures
        state_after(g0, ops, t).len() == g0.len(),
    decreases t,
{
    if t > 0 {
        lemma_state_side(g0, ops, (t - 1) as nat);
    }
}

/// With no move played, the grid is the initial grid and the score is its
/// largest colour count.
pub proof fn lemma_no_moves(g0: Seq<Seq<usize>>, k: nat, ops: Seq<Operation>)
    ensures
        state_after(g0, ops, 0) == g0,
        score_after(g0, k, ops, 0) == max_color_count(g0, k),
{
}

/// One more move changes the score by the change of the largest colour
/// count, less one.
pub proof fn lemma_score_step(g0: Seq<Seq<usize>>, k: nat, ops: Seq<Operation>, t: nat)
    ensures
        score_after(g0, k, ops, t + 1) - score_after(g0, k, ops, t) == (max_color_count(
            state_after(g0, ops, t + 1),
            k,
        ) - max_color_count(state_after(g0, ops, t), k)) - 1,
        state_after(g0, ops, t + 1) == played(state_after(g0, ops, t), ops[t as int]),
{
}

/// Two replays of the same moves from the same grid agree: both succeed with
/// the same grid and score, or both stop at the same index, for the same
/// reason, on the same grid.
pub proof fn lemma_replay_deterministic(
    g0: Seq<Seq<usize>>,
    k: usize,
    ops: Seq<Operation>,
    t: nat,
    first: Result<Grid, ReplayFailure>,
    second: Result<Grid, ReplayFailure>,
)
    requires
        is_replay_of(g0, k, ops, t, first),
        is_replay_of(g0, k, ops, t, second),
    ensures
        match (first, second) {
            (Ok(a), Ok(b)) => a@ == b@ && score_of(a@, k as nat, t) == score_of(b@, k as nat, t),
            (Err(a), Err(b)) => a.index == b.index && a.reason == b.reason && a.grid@ == b.grid@,
            _ => false,
        },
{
    match (first, second) {
        (Ok(a), Ok(b)) => {},
        (Err(a), Err(b)) => {
            if a.index < b.index {
                assert(op_valid(g0.len(), k, ops[a.index as int]));
            } else if b.index < a.index {
                assert(op_valid(g0.len(), k, ops[b.index as int]));
            }
        },
        (Ok(a), Err(b)) => {
            if b.index < ops.len() {
                assert(op_valid(g0.len(), k, ops[b.index as int]));
            }
        },
        (Err(a), Ok(b)) => {
            if a.index < ops.len() {
                assert(op_valid(g0.len(), k, ops[a.index as int]));
            }
        },
    }
}

/// Replays the first `t` moves of `ops` on a copy of `initial`.
pub fn replay(initial: &Grid, ops: &Vec<Operation>, t: usize) -> (res: Result<Grid, ReplayFailure>)
    requires
        initial.wf(),
    ensures
        is_replay_of(initial@, initial.colors(), ops@, t as nat, res),
{
    let ghost g0 = initial@;
    let ghost k = initial.colors();
    let mut grid = initial.clone();
    let mut i: usize = 0;
    while i < t
        invariant
            g0 == initial@,
            k == initial.colors(),
            i <= t,
            grid.wf(),
            grid.colors() == k,
            grid@ == state_after(g0, ops@, i as nat),
            grid@.len() == g0.len(),
            valid_prefix(g0.len(), k, ops@, i as nat),
        decreases t - i,
    {
        if i >= ops.len() {
            return Err(ReplayFailure { index: i, reason: GridError::ReplayExhausted, grid });
        }
        let op = ops[i];
        match grid.flood_fill(op.row, op.col, op.color) {
            Ok(_) => {},
            Err(reason) => {
                return Err(ReplayFailure { index: i, reason, grid });
            },
        }
        i += 1;
    }
    Ok(grid)
}

/// A replay in progress: the initial grid, the moves, and the grid after the
/// moves played so far.
pub struct Replay {
    initial: Grid,
    ops: Vec<Operation>,
    grid: Grid,
    index: usize,
}

impl View for Replay {
    type V = Seq<Seq<usize>>;

    /// The rows of the current grid.
    closed spec fn view(&self) -> Seq<Seq<usize>> {
        self.grid@
    }
}

impl Replay {
    /// The rows of the grid that the replay started from.
    pub closed spec fn start(&self) -> Seq<Seq<usize>> {
        self.initial@
    }

    /// The moves to replay.
    pub closed spec fn moves(&self) -> Seq<Operation> {
        self.ops@
    }

    /// How many moves have been played.
    pub closed spec fn prefix(&self) -> nat {
        self.index as nat
    }

    /// The colour count of the grid.
    pub closed spec fn colors(&self) -> usize {
        self.initial.colors()
    }

    /// The current grid is the initial grid after the moves played so far,
    /// each of which could be played.
    pub closed spec fn wf(&self) -> bool {
        &&& self.initial.wf()
        &&& self.grid.wf()
        &&& self.grid.colors() == self.initial.colors()
        &&& valid_prefix(self.initial@.len(), self.initial.colors(), self.ops@, self.index as nat)
        &&& self.grid@ == state_after(self.initial@, self.ops@, self.index as nat)
    }

    /// What a well-formed replay is known to be.
    pub proof fn lemma_valid(&self)
        requires
            self.wf(),
        ensures
            valid_prefix(self.start().len(), self.colors(), self.moves(), self.prefix()),
            self@ == state_after(self.start(), self.moves(), self.prefix()),
            self@.len() == self.start().len(),
    {
        lemma_state_side(self.initial@, self.ops@, self.index as nat);
    }

    /// Starts a replay of `ops` from `initial`, with no move played.
    pub fn new(initial: Grid, ops: Vec<Operation>) -> (replay: Replay)
        requires
            initial.wf(),
        ensures
            replay.wf(),
            replay.start() == initial@,
            replay.colors() == initial.colors(),
            replay.moves() == ops@,
            replay.prefix() == 0,
            replay@ == initial@,
    {
        let grid = initial.clone();
        Replay { initial, ops, grid, index: 0 }
    }

    /// How many moves have been played.
    pub fn prefix_index(&self) -> (index: usize)
        ensures
            index == self.prefix(),
    {
        self.index
    }

    /// How many moves there are.
    pub fn len(&self) -> (len: usize)
        ensures
            len == self.moves().len(),
    {
        self.ops.len()
    }

    /// Whether every move has been played.
    pub fn is_finished(&self) -> (done: bool)
        requires
            self.wf(),
        ensures
            done == (self.prefix() == self.moves().len()),
    {
        self.index == self.ops.len()
    }

    /// The current grid.
    pub fn grid(&self) -> (grid: &Grid)
        requires
            self.wf(),
        ensures
            grid.wf(),
            grid@ == self@,
            grid.colors() == self.colors(),
    {
        &self.grid
    }

    /// Plays the next move and returns how many cells it repainted.
    ///
    /// Fails with `ReplayExhausted` where every move has been played, with
    /// `OutOfBounds` where the move names a cell off the grid, and otherwise
    /// with `InvalidColor` where it names a colour above the colour count.
    /// A failure changes nothing.
    pub fn advance(&mut self) -> (res: Result<usize, GridError>)
        requires
            old(self).wf(),
        ensures
            final(self).wf(),
            final(self).start() == old(self).start(),
            final(self).moves() == old(self).moves(),
            final(self).colors() == old(self).colors(),
            match res {
                Ok(count) => {
                    let op = old(self).moves()[old(self).prefix() as int];
                    &&& old(self).prefix() < old(self).moves().len()
                    &&& op_valid(old(self)@.len(), old(self).colors(), op)
                    &&& final(self).prefix() == old(self).prefix() + 1
                    &&& final(self)@ == played(old(self)@, op)
                    &&& count == region(old(self)@, (op.row as int, op.col as int)).len()
                },
                Err(e) => {
                    &&& final(self).prefix() == old(self).prefix()
                    &&& final(self)@ == old(self)@
                    &&& if old(self).prefix() == old(self).moves().len() {
                        e == GridError::ReplayExhausted
                    } else {
                        let op = old(self).moves()[old(self).prefix() as int];
                        !op_valid(old(self)@.len(), old(self).colors(), op) && e == op_error(
                            old(self)@.len(),
                            op,
                        )
                    }
                },
            },
    {
        proof {
            lemma_state_side(self.initial@, self.ops@, self.index as nat);
        }
        if self.index >= self.ops.len() {
            return Err(GridError::ReplayExhausted);
        }
        let op = self.ops[self.index];
        let count = self.grid.flood_fill(op.row, op.col, op.color)?;
        self.index += 1;
        Ok(count)
    }

    /// The score of the current grid after the moves played so far.
    pub fn score(&self) -> (score: i128)
        requires
            self.wf(),
        ensures
            score == score_after(self.start(), self.colors() as nat, self.moves(), self.prefix()),
    {
        self.grid.score(self.index)
    }

    /// The grid after the first `t` moves, replayed from the initial grid.
    /// The replay in progress is left as it is.
    pub fn state_after(&self, t: usize) -> (res: Result<Grid, ReplayFailure>)
        requires
            self.wf(),
        ensures
            is_replay_of(self.start(), self.colors(), self.moves(), t as nat, res),
    {
        replay(&self.initial, &self.ops, t)
    }

    /// The score after the first `t` moves, replayed from the initial grid.
    pub fn score_after(&self, t: usize) -> (res: Result<i128, ReplayFailure>)
        requires
            self.wf(),
        ensures
            match res {
                Ok(score) => {
                    &&& valid_prefix(self.start().len(), self.colors(), self.moves(), t as nat)
                    &&& score == score_after(
                        self.start(),
                        self.colors() as nat,
                        self.moves(),
                        t as nat,
                    )
                },
                Err(f) => is_replay_of(
                    self.start(),
                    self.colors(),
                    self.moves(),
                    t as nat,
                    Err::<Grid, ReplayFailure>(f),
                ),
            },
    {
        match replay(&self.initial, &self.ops, t) {
            Ok(grid) => Ok(grid.score(t)),
            Err(f) => Err(f),
        }
    }

    /// The grids after every prefix of the moves, the initial grid first,
    /// made in one pass over the moves.
    pub fn trace(&self) -> (res: Result<Vec<Grid>, ReplayFailure>)
        requires
            self.wf(),
        ensures
            match res {
                Ok(grids) => {
                    &&& valid_prefix(
                        self.start().len(),
                        self.colors(),
                        self.moves(),
                        self.moves().len(),
                    )
                    &&& grids@.len() == self.moves().len() + 1
                    &&& forall|t: int|
                        0 <= t <= self.moves().len() ==> {
                            &&& (#[trigger] grids@[t]).wf()
                            &&& grids@[t].colors() == self.colors()
                            &&& grids@[t]@ == state_after(self.start(), self.moves(), t as nat)
                        }
                },
                Err(f) => f.index < self.moves().len() && is_replay_of(
                    self.start(),
                    self.colors(),
                    self.moves(),
                    self.moves().len(),
                    Err::<Grid, ReplayFailure>(f),
                ),
            },
    {
        let ghost g0 = self.initial@;
        let ghost k = self.initial.colors();
        let total = self.ops.len();
        let mut grid = self.initial.clone();
        let mut grids: Vec<Grid> = Vec::new();
        grids.push(grid.clone());
        let mut i: usize = 0;
        while i < total
            invariant
                total == self.ops@.len(),
                g0 == self.initial@,
                k == self.initial.colors(),
                i <= total,
                grid.wf(),
                grid.colors() == k,
                grid@ == state_after(g0, self.ops@, i as nat),
                grid@.len() == g0.len(),
                valid_prefix(g0.len(), k, self.ops@, i as nat),
                grids@.len() == i + 1,
                forall|t: int|
                    0 <= t <= i ==> {
                        &&& (#[trigger] grids@[t]).wf()
                        &&& grids@[t].colors() == k
                        &&& grids@[t]@ == state_after(g0, self.ops@, t as nat)
                    },
            decreases total - i,
        {
            let op = self.ops[i];
            match grid.flood_fill(op.row, op.col, op.color) {
                Ok(_) => {},
                Err(reason) => {
                    return Err(ReplayFailure { index: i, reason, grid });
                },
            }
            i += 1;
            grids.push(grid.clone());
        }
        Ok(grids)
    }
}

} // verus!
