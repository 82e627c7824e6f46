//! Judging and drawing a list of moves against a puzzle.

use crate::canvas::{
    add_cell, built_flat, canvas_attrs, cell_attrs, doc_attrs, doc_children, document_text,
    new_canvas, no_attrs, svg_text, text_rule, Shape,
};
use crate::error::{grid_error_text, GridError};
use crate::gen::{gen, is_generated, lemma_generated_reads_back};
use crate::grid::Grid;
use crate::io::{
    fault_text, grid_of_input, input_of_tokens, input_text, moves_of_output, output_of_tokens,
    outputs_from, parse_input, parse_output, parse_outputs, Input, InputView, Output, OutputView,
    TokenFault, TokenParseError,
};
use crate::replay::{
    lemma_playable, lemma_replay_prefix, lemma_replay_stops, lemma_state_side, playable, replay,
    score_after, state_after, stop_reason,
};
use crate::text::{decimal_text, push_number, tokens};
use svg::node::element::SVG;
use vstd::prelude::*;
use vstd::string::StringExecFns;

verus! {

/// The width and height of the drawing.
pub const CANVAS: usize = 800;

/// The width and height of a drawn cell.
pub const CELL: usize = 8;

/// The largest side of a grid that fits the drawing.
pub const MAX_SIDE: usize = 100;

/// Which position to draw: the one after the first `turn` moves.
#[derive(Clone, Copy, Debug)]
pub struct VisOption {
    pub turn: usize,
}

/// A judged and drawn position.
pub struct VisResult {
    pub score: i128,
    pub svg: SVG,
}

/// Why a list of moves could not be judged or drawn.
#[derive(Clone, Debug)]
pub enum VisError {
    /// The text of the puzzle cannot be read.
    Input(TokenParseError),
    /// The text of the moves cannot be read.
    Output(TokenParseError),
    /// The puzzle describes no grid.
    Grid(GridError),
    /// The replay stopped at the move with this index, for this reason.
    Replay(usize, GridError),
    /// The grid, of this side, is too large for the drawing.
    TooLarge(usize),
    /// The palette has no fill for this colour code.
    Palette(usize),
}

/// A failure with its text as sequences of characters.
pub enum VisFault {
    Input(TokenFault),
    Output(TokenFault),
    Grid(GridError),
    Replay(usize, GridError),
    TooLarge(usize),
    Palette(usize),
}

impl View for VisError {
    type V = VisFault;

    open spec fn view(&self) -> VisFault {
        match self {
            VisError::Input(e) => VisFault::Input(e@),
            VisError::Output(e) => VisFault::Output(e@),
            VisError::Grid(e) => VisFault::Grid(*e),
            VisError::Replay(i, e) => VisFault::Replay(*i, *e),
            VisError::TooLarge(n) => VisFault::TooLarge(*n),
            VisError::Palette(c) => VisFault::Palette(*c),
        }
    }
}

/// The failure in words.
pub open spec fn vis_fault_text(f: VisFault) -> Seq<char> {
    match f {
        VisFault::Input(e) => "Failed to parse Input: "@ + fault_text(e),
        VisFault::Output(e) => "Failed to parse Output: "@ + fault_text(e),
        VisFault::Grid(e) => "Invalid grid: "@ + grid_error_text(e),
        VisFault::Replay(i, e) => "Replay stopped at move "@ + decimal_text(i as nat) + ": "@
            + grid_error_text(e),
        VisFault::TooLarge(n) => "Grid too large to draw: "@ + decimal_text(n as nat),
        VisFault::Palette(c) => "No fill for colour "@ + decimal_text(c as nat),
    }
}

impl VisError {
    /// The failure in words.
    pub fn message(&self) -> (text: String)
        ensures
            text@ == vis_fault_text(self@),
    {
        match self {
            VisError::Input(e) => {
                let mut text = String::from_str("Failed to parse Input: ");
                text.append(e.message().as_str());
                text
            },
            VisError::Output(e) => {
                let mut text = String::from_str("Failed to parse Output: ");
                text.append(e.message().as_str());
                text
            },
            VisError::Grid(e) => {
                let mut text = String::from_str("Invalid grid: ");
                text.append(e.message().as_str());
                text
            },
            VisError::Replay(i, e) => {
                let mut text = String::from_str("Replay stopped at move ");
                push_number(&mut text, *i);
                text.append(": ");
                text.append(e.message().as_str());
                text
            },
            VisError::TooLarge(n) => {
                let mut text = String::from_str("Grid too large to draw: ");
                push_number(&mut text, *n);
                text
            },
            VisError::Palette(c) => {
                let mut text = String::from_str("No fill for colour ");
                push_number(&mut text, *c);
                text
            },
        }
    }
}

/// The fills of a palette, each taken by its view.
pub open spec fn fills(palette: Seq<String>) -> Seq<Seq<char>> {
    Seq::new(palette.len(), |i: int| palette[i]@)
}

/// The cell at row `y` and column `x` as it is drawn: row 0 lies at the
/// bottom of the canvas.
pub open spec fn cell_shape(g: Seq<Seq<usize>>, fills: Seq<Seq<char>>, y: int, x: int) -> Shape {
    (
        "rect"@,
        cell_attrs(
            (x * CELL) as nat,
            (CANVAS - (y + 1) * CELL) as nat,
            CELL as nat,
            CELL as nat,
            fills[g[y][x] as int],
        ),
        Seq::<char>::empty(),
    )
}

/// The first `count` cells of row `y`, left to right.
pub open spec fn row_shapes(g: Seq<Seq<usize>>, fills: Seq<Seq<char>>, y: int, count: nat) -> Seq<
    Shape,
> {
    Seq::new(count, |x: int| cell_shape(g, fills, y, x))
}

/// The cells of the first `rows` rows, row after row.
pub open spec fn grid_shapes(g: Seq<Seq<usize>>, fills: Seq<Seq<char>>, rows: nat) -> Seq<Shape>
    decreases rows,
{
    if rows == 0 {
        Seq::empty()
    } else {
        grid_shapes(g, fills, (rows - 1) as nat) + row_shapes(g, fills, rows - 1, g.len())
    }
}

/// The children of the drawing of `g`: the rule for text, then every cell.
pub open spec fn frame_shapes(g: Seq<Seq<usize>>, fills: Seq<Seq<char>>) -> Seq<Shape> {
    seq![("style"@, no_attrs(), text_rule())] + grid_shapes(g, fills, g.len())
}

/// The number of moves to replay: the turn asked for, or all of them.
pub open spec fn turn_of(option: Option<VisOption>, moves: nat) -> nat {
    match option {
        Some(o) => o.turn as nat,
        None => moves,
    }
}

/// The score and the grid that the moves of `output` lead to on the puzzle
/// `input`, or why there is none.
///
/// The puzzle must describe a grid, and the moves up to the turn must be
/// playable; the first of these that fails decides. Moves after the turn
/// have no part in it, and a move that writes its row or column as 0 is one
/// that cannot be played.
pub open spec fn judged(input: InputView, output: OutputView, option: Option<VisOption>) -> Result<
    (int, Seq<Seq<usize>>),
    VisFault,
> {
    match grid_of_input(input) {
        Err(e) => Err(VisFault::Grid(e)),
        Ok(g0) => {
            let ops = moves_of_output(output);
            let t = turn_of(option, ops.len());
            let m = playable(input.n as nat, input.k, ops, t);
            if m == t {
                Ok((score_after(g0, input.k as nat, ops, t), state_after(g0, ops, t)))
            } else {
                Err(VisFault::Replay(m as usize, stop_reason(input.n as nat, ops, m)))
            }
        },
    }
}

/// Moves after the turn have no effect: two lists of moves that agree up to
/// the turn are judged alike at that turn.
pub proof fn lemma_judged_ignores_later_moves(
    input: InputView,
    first: OutputView,
    second: OutputView,
    turn: usize,
)
    requires
        turn <= first.yxc.len(),
        turn <= second.yxc.len(),
        forall|i: int| 0 <= i < turn ==> first.yxc[i] == second.yxc[i],
    ensures
        judged(input, first, Some(VisOption { turn })) == judged(
            input,
            second,
            Some(VisOption { turn }),
        ),
{
    match grid_of_input(input) {
        Err(_) => {},
        Ok(g0) => {
            let a = moves_of_output(first);
            let b = moves_of_output(second);
            lemma_state_side(g0, a, turn as nat);
            assert(g0.len() == input.n);
            lemma_replay_prefix(g0, input.k, a, b, turn as nat);
            lemma_playable(input.n as nat, input.k, a, turn as nat);
        },
    }
}

/// What `judged` gives where the position can be drawn: the grid must fit the
/// drawing, and the palette must hold a fill for every colour code up to the
/// colour count.
pub open spec fn vis_outcome(
    input: InputView,
    output: OutputView,
    option: Option<VisOption>,
    fills: Seq<Seq<char>>,
) -> Result<(int, Seq<Seq<usize>>), VisFault> {
    match judged(input, output, option) {
        Err(e) => Err(e),
        Ok(frame) => if input.n > MAX_SIDE {
            Err(VisFault::TooLarge(input.n))
        } else if fills.len() <= input.k {
            Err(VisFault::Palette(input.k))
        } else {
            Ok(frame)
        },
    }
}

/// Replays the moves of `output` on the puzzle `input` up to the turn that
/// `option` asks for, or to the end where it asks for none, and returns the
/// score with the grid reached.
pub fn judge(input: &Input, output: &Output, option: Option<VisOption>) -> (res: Result<
    (i128, Grid),
    VisError,
>)
    ensures
        match res {
            Ok(r) => judged(input@, output@, option) == Ok::<(int, Seq<Seq<usize>>), VisFault>(
                (r.0 as int, r.1@),
            ) && r.1.wf() && r.1@.len() == input.n && r.1.colors() == input.k,
            Err(e) => judged(input@, output@, option) == Err::<(int, Seq<Seq<usize>>), VisFault>(
                e@,
            ),
        },
{
    let initial = match input.grid() {
        Ok(g) => g,
        Err(e) => {
            return Err(VisError::Grid(e));
        },
    };
    let ops = output.operations();
    let turn = match option {
        Some(o) => o.turn,
        None => ops.len(),
    };
    let outcome = replay(&initial, &ops, turn);
    proof {
        lemma_replay_stops(initial@, initial.colors(), ops@, turn as nat, outcome);
        lemma_state_side(initial@, ops@, turn as nat);
    }
    match outcome {
        Ok(grid) => {
            let score = grid.score(turn);
            Ok((score, grid))
        },
        Err(f) => Err(VisError::Replay(f.index, f.reason)),
    }
}

/// The score of the puzzle `input` after all the moves of `output`.
pub fn calc_score(input: &Input, output: &Output) -> (res: Result<i128, VisError>)
    ensures
        match res {
            Ok(score) => judged(input@, output@, None) matches Ok(frame) && score == frame.0,
            Err(e) => judged(input@, output@, None) == Err::<(int, Seq<Seq<usize>>), VisFault>(e@),
        },
{
    match judge(input, output, None) {
        Ok(r) => Ok(r.0),
        Err(e) => Err(e),
    }
}

/// Draws the grid: one outlined square for every cell, filled with the
/// palette's entry for the cell's colour code.
pub fn draw_grid(grid: &Grid, palette: &Vec<String>) -> (d: SVG)
    requires
        grid.wf(),
        grid@.len() <= MAX_SIDE,
        grid.colors() < palette@.len(),
    ensures
        built_flat(d),
        doc_attrs(d) == canvas_attrs(CANVAS as nat, CANVAS as nat),
        doc_children(d) == frame_shapes(grid@, fills(palette@)),
{
    let n = grid.n();
    let ghost g = grid@;
    let ghost f = fills(palette@);
    let ghost head = seq![("style"@, no_attrs(), text_rule())];
    let mut d = new_canvas(CANVAS, CANVAS);
    let mut y: usize = 0;
    proof {
        assert(head + grid_shapes(g, f, 0) =~= head);
    }
    while y < n
        invariant
            grid.wf(),
            g == grid@,
            f == fills(palette@),
            head == seq![("style"@, no_attrs(), text_rule())],
            n == g.len(),
            n <= MAX_SIDE,
            grid.colors() < palette@.len(),
            y <= n,
            built_flat(d),
            doc_attrs(d) == canvas_attrs(CANVAS as nat, CANVAS as nat),
            doc_children(d) == head + grid_shapes(g, f, y as nat),
        decreases n - y,
    {
        let mut x: usize = 0;
        proof {
            assert(row_shapes(g, f, y as int, 0) =~= Seq::<Shape>::empty());
            assert(head + grid_shapes(g, f, y as nat) + Seq::<Shape>::empty() =~= head
                + grid_shapes(g, f, y as nat));
        }
        while x < n
            invariant
                grid.wf(),
                g == grid@,
                f == fills(palette@),
                n == g.len(),
                n <= MAX_SIDE,
                grid.colors() < palette@.len(),
                y < n,
                x <= n,
                built_flat(d),
                doc_attrs(d) == canvas_attrs(CANVAS as nat, CANVAS as nat),
                doc_children(d) == head + grid_shapes(g, f, y as nat) + row_shapes(
                    g,
                    f,
                    y as int,
                    x as nat,
                ),
            decreases n - x,
        {
            let color = grid.cell(y, x);
            let fill = palette[color].as_str();
            d = add_cell(d, x * CELL, CANVAS - (y + 1) * CELL, CELL, CELL, fill);
            proof {
                assert(row_shapes(g, f, y as int, (x + 1) as nat) =~= row_shapes(
                    g,
                    f,
                    y as int,
                    x as nat,
                ).push(cell_shape(g, f, y as int, x as int)));
                assert(doc_children(d) =~= head + grid_shapes(g, f, y as nat) + row_shapes(
                    g,
                    f,
                    y as int,
                    (x + 1) as nat,
                ));
            }
            x += 1;
        }
        proof {
            assert(head + grid_shapes(g, f, y as nat) + row_shapes(g, f, y as int, n as nat)
                =~= head + grid_shapes(g, f, (y + 1) as nat));
        }
        y += 1;
    }
    d
}

/// Replays the moves of `output` on the puzzle `input` up to the turn that
/// `option` asks for, or to the end where it asks for none, and returns the
/// score with the drawing of the grid reached. The fill of a cell is the
/// palette's entry for its colour code.
pub fn vis(input: &Input, output: &Output, option: Option<VisOption>, palette: &Vec<String>) -> (res:
    Result<VisResult, VisError>)
    ensures
        match res {
            Ok(r) => vis_outcome(input@, output@, option, fills(palette@)) matches Ok(frame)
                && r.score == frame.0 && built_flat(r.svg) && doc_attrs(r.svg) == canvas_attrs(
                CANVAS as nat,
                CANVAS as nat,
            ) && doc_children(r.svg) == frame_shapes(frame.1, fills(palette@)),
            Err(e) => vis_outcome(input@, output@, option, fills(palette@)) == Err::<
                (int, Seq<Seq<usize>>),
                VisFault,
            >(e@),
        },
{
    let (score, grid) = judge(input, output, option)?;
    if input.n > MAX_SIDE {
        return Err(VisError::TooLarge(input.n));
    }
    if palette.len() <= input.k {
        return Err(VisError::Palette(input.k));
    }
    let svg = draw_grid(&grid, palette);
    Ok(VisResult { score, svg })
}

/// The score and the text of the drawing that the two texts lead to at
/// `turn`, or why there is none. The puzzle is read before the moves.
pub open spec fn visualize_outcome(
    input: Seq<char>,
    output: Seq<char>,
    turn: usize,
    fills: Seq<Seq<char>>,
) -> Result<(int, Seq<char>), VisFault> {
    match input_of_tokens(tokens(input)) {
        Err(e) => Err(VisFault::Input(e)),
        Ok(iv) => match output_of_tokens(tokens(output)) {
            Err(e) => Err(VisFault::Output(e)),
            Ok(ov) => match vis_outcome(iv, ov, Some(VisOption { turn }), fills) {
                Err(e) => Err(e),
                Ok(frame) => Ok(
                    (
                        frame.0,
                        svg_text(
                            canvas_attrs(CANVAS as nat, CANVAS as nat),
                            frame_shapes(frame.1, fills),
                        ),
                    ),
                ),
            },
        },
    }
}

/// Reads a puzzle and a list of moves, replays the first `turn` moves, and
/// returns the score, an empty note, and the drawing as SVG text. A failure
/// comes back as its message.
pub fn visualize(input: &str, output: &str, turn: usize, palette: &Vec<String>) -> (res: Result<
    (i128, String, String),
    String,
>)
    ensures
        match res {
            Ok(r) => visualize_outcome(input@, output@, turn, fills(palette@)) == Ok::<
                (int, Seq<char>),
                VisFault,
            >((r.0 as int, r.2@)) && r.1@.len() == 0,
            Err(text) => visualize_outcome(input@, output@, turn, fills(palette@)) matches Err(f)
                && text@ == vis_fault_text(f),
        },
{
    let parsed = match parse_input(input) {
        Ok(v) => v,
        Err(e) => {
            return Err(VisError::Input(e).message());
        },
    };
    let moves = match parse_output(output) {
        Ok(v) => v,
        Err(e) => {
            return Err(VisError::Output(e).message());
        },
    };
    match vis(&parsed, &moves, Some(VisOption { turn }), palette) {
        Ok(r) => Ok((r.score, String::new(), document_text(&r.svg))),
        Err(e) => Err(e.message()),
    }
}

/// The number of moves that the text `output` writes, or 0 where it cannot
/// be read. The puzzle is not looked at.
pub fn calc_max_turn(input: &str, output: &str) -> (turns: usize)
    ensures
        turns == match output_of_tokens(tokens(output@)) {
            Ok(v) => v.q,
            Err(_) => 0usize,
        },
{
    match parse_output(output) {
        Ok(v) => v.q,
        Err(_) => 0,
    }
}

/// The last turn that can be shown where `output` holds one list of moves
/// for every turn: the number of lists less one, or 0 where there is none
/// or where one of the two texts cannot be read.
pub fn max_turn(input: &str, output: &str) -> (turns: usize)
    ensures
        turns == match (input_of_tokens(tokens(input@)), outputs_from(tokens(output@), 0)) {
            (Ok(_), Ok(v)) => if v.len() == 0 {
                0
            } else {
                v.len() - 1
            },
            _ => 0,
        },
{
    match parse_input(input) {
        Err(_) => 0,
        Ok(_) => match parse_outputs(output) {
            Err(_) => 0,
            Ok(outputs) => if outputs.len() == 0 {
                0
            } else {
                outputs.len() - 1
            },
        },
    }
}

/// The text of a random puzzle that `seed` decides. The problem's name has
/// no part in it.
pub fn generate(seed: i32, problem_id: &str) -> (text: String)
    ensures
        exists|v: InputView|
            {
                &&& is_generated(v)
                &&& text@ == #[trigger] input_text(v)
                &&& input_of_tokens(tokens(text@)) == Ok::<InputView, TokenFault>(v)
            },
{
    let input = gen(widen(seed));
    proof {
        lemma_generated_reads_back(input@);
    }
    input.to_text()
}

/// The seed as an unsigned 64-bit number: a seed below 0 wraps around, so
/// that -1 becomes the largest number.
pub open spec fn wrapped_seed(seed: i32) -> int {
    if seed >= 0 {
        seed as int
    } else {
        seed + 0x1_0000_0000_0000_0000
    }
}

/// The seed as an unsigned number: negative seeds wrap around.
fn widen(seed: i32) -> (wide: u64)
    ensures
        wide == wrapped_seed(seed),
{
    let wide = #[verifier::truncate]
    (seed as u64);
    assert(wide == (if seed >= 0i32 {
        seed as int
    } else {
        seed + 0x1_0000_0000_0000_0000
    })) by (bit_vector)
        requires
            wide == #[verifier::truncate]
            (seed as u64),
    ;
    wide
}

} // verus!
