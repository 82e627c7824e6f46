//! Random puzzles from a seed.
//!
//! The numbers come from the ChaCha generator of `rand_chacha`, drawn through
//! `rand`. Its state is opaque here, so a draw is known by its bounds only.

use crate::board::is_square;
use crate::error::GridError;
use crate::io::{
    all_digits, cell_rows, grid_of_input, input_of_tokens, input_text, lemma_input_round_trip,
    Input, InputView, TokenFault,
};
use crate::region::colors_within;
use crate::text::{digit_char, digit_str, is_digit, is_space, is_word, tokens};
use rand::{Rng, SeedableRng};
use rand_chacha::ChaCha20Rng;
use vstd::prelude::*;
use vstd::string::StringExecFns;

verus! {

#[verifier::external_type_specification]
#[verifier::external_body]
pub struct ExChaCha20Rng(rand_chacha::ChaCha20Rng);

/// `ChaCha20Rng::seed_from_u64`: a generator that `seed` decides.
#[verifier::external_body]
fn seeded(seed: u64) -> ChaCha20Rng {
    ChaCha20Rng::seed_from_u64(seed)
}

/// `Rng::gen_range`: a number from `low` up to, but not including, `high`.
/// The call panics where `low` is not below `high`.
#[verifier::external_body]
fn draw(rng: &mut ChaCha20Rng, low: usize, high: usize) -> (v: usize)
    requires
        low < high,
    ensures
        low <= v < high,
{
    rng.gen_range(low, high)
}

/// The side of a generated puzzle.
pub const GEN_SIDE: usize = 100;

/// The colour count of a generated puzzle.
pub const GEN_COLORS: usize = 9;

/// What every generated puzzle is: number 0, of side 100, with 9 colours,
/// and every cell one of the digits 1 to 9.
pub open spec fn is_generated(v: InputView) -> bool {
    &&& v.id == 0
    &&& v.n == GEN_SIDE
    &&& v.k == GEN_COLORS
    &&& is_square(v.s, GEN_SIDE as int)
    &&& forall|r: int, c: int|
        0 <= r < GEN_SIDE && 0 <= c < GEN_SIDE ==> '1' <= #[trigger] v.s[r][c] <= '9'
}

/// A generated puzzle describes a grid, and reads back from its text.
pub proof fn lemma_generated_reads_back(v: InputView)
    requires
        is_generated(v),
    ensures
        input_of_tokens(tokens(input_text(v))) == Ok::<InputView, TokenFault>(v),
        grid_of_input(v) == Ok::<Seq<Seq<usize>>, GridError>(cell_rows(v.s)),
{
    assert forall|i: int| 0 <= i < v.s.len() implies is_word(#[trigger] v.s[i]) by {
        assert forall|j: int| 0 <= j < v.s[i].len() implies !is_space(#[trigger] v.s[i][j]) by {
            assert('1' <= v.s[i][j] <= '9');
        }
    }
    lemma_input_round_trip(v);
    assert(all_digits(v.s)) by {
        assert forall|r: int, c: int| 0 <= r < v.s.len() && 0 <= c < v.s[r].len() implies is_digit(
            #[trigger] v.s[r][c],
        ) by {
            assert('1' <= v.s[r][c] <= '9');
        }
    }
    assert(colors_within(cell_rows(v.s), v.k)) by {
        assert forall|r: int, c: int|
            0 <= r < cell_rows(v.s).len() && 0 <= c < cell_rows(v.s).len() implies #[trigger] cell_rows(
            v.s,
        )[r][c] <= v.k by {
            assert('1' <= v.s[r][c] <= '9');
        }
    }
}

/// Whether `draws` can fill a puzzle: one number from 1 to 9 for every cell.
pub open spec fn valid_draws(draws: Seq<usize>) -> bool {
    &&& draws.len() == GEN_SIDE * GEN_SIDE
    &&& forall|i: int| 0 <= i < draws.len() ==> 1 <= #[trigger] draws[i] <= GEN_COLORS
}

/// The puzzle that a sequence of draws fills, row by row: the cell at row
/// `r` and column `c` holds the digit of the draw at `r * 100 + c`.
pub open spec fn puzzle_of(draws: Seq<usize>) -> InputView {
    InputView {
        id: 0,
        n: GEN_SIDE,
        k: GEN_COLORS,
        s: Seq::new(
            GEN_SIDE as nat,
            |r: int| Seq::new(GEN_SIDE as nat, |c: int| digit_char(draws[r * GEN_SIDE + c] as nat)),
        ),
    }
}

/// The puzzle of valid draws is a generated puzzle.
pub proof fn lemma_puzzle_generated(draws: Seq<usize>)
    requires
        valid_draws(draws),
    ensures
        is_generated(puzzle_of(draws)),
{
    let v = puzzle_of(draws);
    assert forall|r: int, c: int| 0 <= r < GEN_SIDE && 0 <= c < GEN_SIDE implies '1'
        <= #[trigger] v.s[r][c] <= '9' by {
        let d = draws[r * GEN_SIDE + c];
        assert(1 <= d <= GEN_COLORS);
    }
}

/// Fills a puzzle with draws that are known to be valid.
fn fill_puzzle(draws: &Vec<usize>) -> (input: Input)
    requires
        valid_draws(draws@),
    ensures
        input@ == puzzle_of(draws@),
{
    let n = GEN_SIDE;
    let mut s: Vec<String> = Vec::new();
    let mut r: usize = 0;
    while r < n
        invariant
            n == GEN_SIDE,
            valid_draws(draws@),
            r <= n,
            s@.len() == r,
            forall|i: int| 0 <= i < r ==> (#[trigger] s@[i])@ == puzzle_of(draws@).s[i],
        decreases n - r,
    {
        let mut row = String::new();
        let mut c: usize = 0;
        while c < n
            invariant
                n == GEN_SIDE,
                valid_draws(draws@),
                r < n,
                c <= n,
                row@.len() == c,
                forall|j: int|
                    0 <= j < c ==> row@[j] == digit_char(draws@[r * GEN_SIDE + j] as nat),
            decreases n - c,
        {
            row.append(digit_str(draws[r * n + c]));
            c += 1;
        }
        proof {
            assert(row@ =~= puzzle_of(draws@).s[r as int]);
        }
        s.push(row);
        r += 1;
    }
    let input = Input { id: 0, n, k: GEN_COLORS, s };
    proof {
        assert(input@.s =~= puzzle_of(draws@).s);
    }
    input
}

/// The puzzle that `draws` fills row by row, or nothing where they are not
/// one number from 1 to 9 for every cell.
pub fn puzzle_of_draws(draws: &Vec<usize>) -> (res: Option<Input>)
    ensures
        res is Some <==> valid_draws(draws@),
        res matches Some(input) ==> input@ == puzzle_of(draws@),
{
    if draws.len() != GEN_SIDE * GEN_SIDE {
        return None;
    }
    let mut i: usize = 0;
    while i < draws.len()
        invariant
            i <= draws@.len(),
            forall|j: int| 0 <= j < i ==> 1 <= #[trigger] draws@[j] <= GEN_COLORS,
        decreases draws@.len() - i,
    {
        if draws[i] < 1 || draws[i] > GEN_COLORS {
            return None;
        }
        i += 1;
    }
    Some(fill_puzzle(draws))
}

/// A random puzzle that `seed` decides: one draw for every cell, row by row.
pub fn gen(seed: u64) -> (input: Input)
    ensures
        is_generated(input@),
{
    let mut rng = seeded(seed);
    let total = GEN_SIDE * GEN_SIDE;
    let mut draws: Vec<usize> = Vec::new();
    while draws.len() < total
        invariant
            total == GEN_SIDE * GEN_SIDE,
            draws@.len() <= total,
            forall|i: int| 0 <= i < draws@.len() ==> 1 <= #[trigger] draws@[i] <= GEN_COLORS,
        decreases total - draws@.len(),
    {
        let color = draw(&mut rng, 1, GEN_COLORS + 1);
        draws.push(color);
    }
    proof {
        lemma_puzzle_generated(draws@);
    }
    fill_puzzle(&draws)
}

/// What a puzzle is generated from.
#[derive(Clone, Copy, Debug)]
pub struct GenOption {
    pub seed: u64,
}

impl Input {
    /// A random puzzle that the seed of `option` decides.
    pub fn gen(option: GenOption) -> (input: Input)
        ensures
            is_generated(input@),
    {
        gen(option.seed)
    }
}

} // verus!
