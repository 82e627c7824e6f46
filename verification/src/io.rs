//! The text formats of a puzzle and of a list of moves.
//!
//! A puzzle is written as three numbers, `id n k`, and then `n` rows of `n`
//! digits. A list of moves is written as its length `q` and then `q` triples
//! `y x c`: row and column, counted from 1, and the colour. Tokens are
//! separated by whitespace; what follows the tokens that are read is ignored.

use crate::board::{is_square, rows_of};
use crate::error::GridError;
use crate::grid::Grid;
use crate::minmax::{lemma_outside_numbers, out_of_range};
use crate::region::colors_within;
use crate::replay::{op_error, op_valid, Operation};
use crate::text::{
    chars_of, decimal_text, digit_value, ends_tokens, is_digit, is_space, is_word,
    lemma_decimal_text_value, lemma_tokens_concat, lemma_tokens_word, number_of, parse_number,
    push_number, split_tokens, string_of, token_views, tokens,
};
use vstd::prelude::*;
use vstd::string::StringExecFns;

verus! {

/// Why a token could not be read.
#[derive(Clone, Debug)]
pub enum TokenParseError {
    /// The token writes a number outside the bounds asked for.
    OutOfRange(usize),
    /// The token writes no number.
    ParseError(String),
    /// There is no token left.
    UnexpectedEOF,
}

/// A token failure with its text as a sequence of characters.
pub enum TokenFault {
    OutOfRange(usize),
    ParseError(Seq<char>),
    UnexpectedEOF,
}

impl View for TokenParseError {
    type V = TokenFault;

    open spec fn view(&self) -> TokenFault {
        match self {
            TokenParseError::OutOfRange(v) => TokenFault::OutOfRange(*v),
            TokenParseError::ParseError(s) => TokenFault::ParseError(s@),
            TokenParseError::UnexpectedEOF => TokenFault::UnexpectedEOF,
        }
    }
}

/// The message of a token failure.
pub open spec fn fault_text(fault: TokenFault) -> Seq<char> {
    match fault {
        TokenFault::OutOfRange(v) => "Out of range: "@ + decimal_text(v as nat),
        TokenFault::ParseError(s) => "Parse error: "@ + s,
        TokenFault::UnexpectedEOF => "Unexpected EOF"@,
    }
}

impl TokenParseError {
    /// The failure in words.
    pub fn message(&self) -> (text: String)
        ensures
            text@ == fault_text(self@),
    {
        match self {
            TokenParseError::OutOfRange(v) => {
                let mut text = String::from_str("Out of range: ");
                push_number(&mut text, *v);
                text
            },
            TokenParseError::ParseError(s) => {
                let mut text = String::from_str("Parse error: ");
                text.append(s.as_str());
                text
            },
            TokenParseError::UnexpectedEOF => String::from_str("Unexpected EOF"),
        }
    }
}

/// What reading `token` as a number between `lb` and `ub` comes to.
pub open spec fn read_token(token: Option<Seq<char>>, lb: usize, ub: usize) -> Result<
    usize,
    TokenFault,
> {
    match token {
        None => Err(TokenFault::UnexpectedEOF),
        Some(t) => match number_of(t) {
            None => Err(TokenFault::ParseError(t)),
            Some(v) => if v < lb || ub < v {
                Err(TokenFault::OutOfRange(v))
            } else {
                Ok(v)
            },
        },
    }
}

/// A result with its failure taken by its view.
pub open spec fn with_fault<T>(res: Result<T, TokenParseError>) -> Result<T, TokenFault> {
    match res {
        Ok(v) => Ok(v),
        Err(e) => Err(e@),
    }
}

/// The characters of a token that may be missing.
pub open spec fn token_chars(token: Option<&str>) -> Option<Seq<char>> {
    match token {
        Some(t) => Some(t@),
        None => None,
    }
}

/// Reads a token as a number between `lb` and `ub`, both included.
///
/// Fails with `UnexpectedEOF` where there is no token, with `ParseError` and
/// the token where it writes no number that fits, and with `OutOfRange` and
/// the number where that lies outside the bounds.
pub fn read(token: Option<&str>, lb: usize, ub: usize) -> (res: Result<usize, TokenParseError>)
    ensures
        with_fault(res) == read_token(token_chars(token), lb, ub),
{
    match token {
        None => Err(TokenParseError::UnexpectedEOF),
        Some(t) => {
            let chars = chars_of(t);
            match parse_number(&chars) {
                None => Err(TokenParseError::ParseError(String::from_str(t))),
                Some(v) => {
                    proof {
                        lemma_outside_numbers(v, lb, ub);
                    }
                    if out_of_range(v, lb, ub) {
                        Err(TokenParseError::OutOfRange(v))
                    } else {
                        Ok(v)
                    }
                },
            }
        },
    }
}

/// The token at position `i`, where there is one.
pub open spec fn token_at(toks: Seq<Seq<char>>, i: int) -> Option<Seq<char>> {
    if 0 <= i < toks.len() {
        Some(toks[i])
    } else {
        None
    }
}

/// What reading the token at position `i` as any number comes to.
pub open spec fn number_at(toks: Seq<Seq<char>>, i: int) -> Result<usize, TokenFault> {
    read_token(token_at(toks, i), 0, usize::MAX)
}

/// Reads the token at position `i` as any number.
fn read_at(toks: &Vec<Vec<char>>, i: usize) -> (res: Result<usize, TokenParseError>)
    ensures
        with_fault(res) == number_at(token_views(toks@), i as int),
        res is Ok ==> i < toks.len(),
{
    if i >= toks.len() {
        return Err(TokenParseError::UnexpectedEOF);
    }
    match parse_number(&toks[i]) {
        None => Err(TokenParseError::ParseError(string_of(&toks[i]))),
        Some(v) => Ok(v),
    }
}

/// A puzzle as it is written: its number, the side `n`, the colour count
/// `k`, and the rows as strings of digits.
#[derive(Clone, Debug)]
pub struct Input {
    pub id: usize,
    pub n: usize,
    pub k: usize,
    pub s: Vec<String>,
}

/// A puzzle with its rows as sequences of characters.
pub struct InputView {
    pub id: usize,
    pub n: usize,
    pub k: usize,
    pub s: Seq<Seq<char>>,
}

impl View for Input {
    type V = InputView;

    open spec fn view(&self) -> InputView {
        InputView {
            id: self.id,
            n: self.n,
            k: self.k,
            s: Seq::new(self.s@.len(), |i: int| self.s@[i]@),
        }
    }
}

/// The puzzle that the tokens `toks` write.
pub open spec fn input_of_tokens(toks: Seq<Seq<char>>) -> Result<InputView, TokenFault> {
    match number_at(toks, 0) {
        Err(e) => Err(e),
        Ok(id) => match number_at(toks, 1) {
            Err(e) => Err(e),
            Ok(n) => match number_at(toks, 2) {
                Err(e) => Err(e),
                Ok(k) => if toks.len() < 3 + n {
                    Err(TokenFault::UnexpectedEOF)
                } else {
                    Ok(InputView { id, n, k, s: toks.subrange(3, 3 + n) })
                },
            },
        },
    }
}

/// A result with its value and its failure taken by their views.
pub open spec fn input_result(res: Result<Input, TokenParseError>) -> Result<
    InputView,
    TokenFault,
> {
    match res {
        Ok(v) => Ok(v@),
        Err(e) => Err(e@),
    }
}

/// Reads a puzzle: `id n k` and `n` rows.
///
/// Fails with `UnexpectedEOF` where a token is missing and with `ParseError`
/// where one of the three numbers is none. The rows are taken as they stand.
pub fn parse_input(f: &str) -> (res: Result<Input, TokenParseError>)
    ensures
        input_result(res) == input_of_tokens(tokens(f@)),
{
    let chars = chars_of(f);
    let toks = split_tokens(&chars);
    let id = read_at(&toks, 0)?;
    let n = read_at(&toks, 1)?;
    let k = read_at(&toks, 2)?;
    if toks.len() - 3 < n {
        return Err(TokenParseError::UnexpectedEOF);
    }
    let ghost want = token_views(toks@).subrange(3, 3 + n);
    let mut s: Vec<String> = Vec::new();
    let mut i: usize = 0;
    while i < n
        invariant
            i <= n,
            3 + n <= toks.len(),
            want == token_views(toks@).subrange(3, 3 + n),
            s@.len() == i,
            forall|j: int| 0 <= j < i ==> (#[trigger] s@[j])@ == want[j],
        decreases n - i,
    {
        s.push(string_of(&toks[3 + i]));
        i += 1;
    }
    let input = Input { id, n, k, s };
    proof {
        assert(input@.s =~= want);
    }
    Ok(input)
}

/// The rows as colour codes: every character by the value that it writes as
/// a digit.
pub open spec fn cell_rows(s: Seq<Seq<char>>) -> Seq<Seq<usize>> {
    Seq::new(s.len(), |r: int| Seq::new(s[r].len(), |c: int| digit_value(s[r][c]) as usize))
}

/// Whether every character of the rows is a digit.
pub open spec fn all_digits(s: Seq<Seq<char>>) -> bool {
    forall|r: int, c: int| 0 <= r < s.len() && 0 <= c < s[r].len() ==> is_digit(#[trigger] s[r][c])
}

/// The rows of the grid that the puzzle describes, or why it describes none.
pub open spec fn grid_of_input(v: InputView) -> Result<Seq<Seq<usize>>, GridError> {
    if !is_square(v.s, v.n as int) {
        Err(GridError::InvalidDimension)
    } else if !(all_digits(v.s) && colors_within(cell_rows(v.s), v.k)) {
        Err(GridError::InvalidColor)
    } else {
        Ok(cell_rows(v.s))
    }
}

/// The rows, each followed by a line feed.
pub open spec fn lines_text(s: Seq<Seq<char>>) -> Seq<char>
    decreases s.len(),
{
    if s.len() == 0 {
        Seq::empty()
    } else {
        lines_text(s.drop_last()) + s.last() + seq!['\n']
    }
}

/// A puzzle as it is written: a line `id n k`, then one line for each of
/// the first `n` rows.
pub open spec fn input_text(v: InputView) -> Seq<char> {
    decimal_text(v.id as nat) + seq![' '] + decimal_text(v.n as nat) + seq![' '] + decimal_text(
        v.k as nat,
    ) + seq!['\n'] + lines_text(v.s.take(v.n as int))
}

/// The digits of a number are one token.
pub proof fn lemma_decimal_word(v: nat)
    ensures
        is_word(decimal_text(v)),
{
    lemma_decimal_text_value(v);
    let text = decimal_text(v);
    assert forall|i: int| 0 <= i < text.len() implies !is_space(#[trigger] text[i]) by {
        assert(is_digit(text[i]));
    }
}

/// Rows that are words are the tokens of their lines.
pub proof fn lemma_lines_tokens(s: Seq<Seq<char>>)
    requires
        forall|i: int| 0 <= i < s.len() ==> is_word(#[trigger] s[i]),
    ensures
        tokens(lines_text(s)) == s,
        ends_tokens(lines_text(s)),
    decreases s.len(),
{
    if s.len() == 0 {
        assert(tokens(lines_text(s)) =~= s);
    } else {
        let init = s.drop_last();
        assert forall|i: int| 0 <= i < init.len() implies is_word(#[trigger] init[i]) by {
            assert(init[i] == s[i]);
        }
        lemma_lines_tokens(init);
        let line = s.last().push('\n');
        assert(is_word(s[s.len() - 1]));
        lemma_tokens_word(s.last(), '\n');
        lemma_tokens_concat(lines_text(init), line);
        assert(lines_text(s) =~= lines_text(init) + line);
        assert(init + seq![s.last()] =~= s);
    }
}

/// What is written of a puzzle reads back as the same puzzle, where it has
/// as many rows as its side says and every row can stand as one token.
pub proof fn lemma_input_round_trip(v: InputView)
    requires
        v.s.len() == v.n,
        forall|i: int| 0 <= i < v.s.len() ==> is_word(#[trigger] v.s[i]),
    ensures
        input_of_tokens(tokens(input_text(v))) == Ok::<InputView, TokenFault>(v),
{
    let id = decimal_text(v.id as nat);
    let n = decimal_text(v.n as nat);
    let k = decimal_text(v.k as nat);
    let lines = lines_text(v.s);
    lemma_decimal_word(v.id as nat);
    lemma_decimal_word(v.n as nat);
    lemma_decimal_word(v.k as nat);
    lemma_decimal_text_value(v.id as nat);
    lemma_decimal_text_value(v.n as nat);
    lemma_decimal_text_value(v.k as nat);
    lemma_lines_tokens(v.s);
    lemma_tokens_word(id, ' ');
    lemma_tokens_word(n, ' ');
    lemma_tokens_word(k, '\n');
    let tail2 = k.push('\n') + lines;
    let tail1 = n.push(' ') + tail2;
    lemma_tokens_concat(k.push('\n'), lines);
    lemma_tokens_concat(n.push(' '), tail2);
    lemma_tokens_concat(id.push(' '), tail1);
    assert(v.s.take(v.n as int) =~= v.s);
    assert(input_text(v) =~= id.push(' ') + tail1);
    let toks = tokens(input_text(v));
    assert(toks =~= seq![id, n, k] + v.s);
    assert(toks[0] == id && toks[1] == n && toks[2] == k);
    assert(toks.subrange(3, 3 + v.n) =~= v.s);
}

impl Input {
    /// The puzzle as text: the line `id n k` and the first `n` rows, of
    /// which there must be that many.
    pub fn to_text(&self) -> (text: String)
        requires
            self.n <= self.s@.len(),
        ensures
            text@ == input_text(self@),
    {
        proof {
            reveal_strlit(" ");
            reveal_strlit("\n");
        }
        let mut text = String::new();
        push_number(&mut text, self.id);
        text.append(" ");
        push_number(&mut text, self.n);
        text.append(" ");
        push_number(&mut text, self.k);
        text.append("\n");
        let ghost head = text@;
        proof {
            assert(head =~= decimal_text(self.id as nat) + seq![' '] + decimal_text(self.n as nat)
                + seq![' '] + decimal_text(self.k as nat) + seq!['\n']);
            assert(self@.s.take(0) =~= Seq::<Seq<char>>::empty());
            assert(head + lines_text(self@.s.take(0)) =~= head);
        }
        let mut i: usize = 0;
        while i < self.n
            invariant
                i <= self.n <= self.s@.len(),
                text@ == head + lines_text(self@.s.take(i as int)),
            decreases self.n - i,
        {
            text.append(self.s[i].as_str());
            text.append("\n");
            proof {
                reveal_strlit("\n");
                let next = self@.s.take(i + 1);
                assert(next.drop_last() =~= self@.s.take(i as int));
                assert(next.last() == self.s@[i as int]@);
                assert(text@ =~= head + lines_text(next));
            }
            i += 1;
        }
        text
    }

    /// The grid that the puzzle describes.
    ///
    /// Fails with `InvalidDimension` where the rows are not `n` rows of `n`
    /// characters, and otherwise with `InvalidColor` where a character is no
    /// digit or writes a colour above `k`.
    pub fn grid(&self) -> (res: Result<Grid, GridError>)
        ensures
            match res {
                Ok(g) => {
                    &&& grid_of_input(self@) == Ok::<Seq<Seq<usize>>, GridError>(g@)
                    &&& g.wf()
                    &&& g@.len() == self.n
                    &&& g.colors() == self.k
                },
                Err(e) => grid_of_input(self@) == Err::<Seq<Seq<usize>>, GridError>(e),
            },
    {
        let n = self.n;
        if self.s.len() != n {
            return Err(GridError::InvalidDimension);
        }
        let mut lines: Vec<Vec<char>> = Vec::new();
        let mut r: usize = 0;
        while r < n
            invariant
                n == self.n,
                self.s@.len() == n,
                r <= n,
                lines@.len() == r,
                forall|i: int| 0 <= i < r ==> (#[trigger] lines@[i])@ == self@.s[i],
                forall|i: int| 0 <= i < r ==> (#[trigger] self@.s[i]).len() == n,
            decreases n - r,
        {
            let line = chars_of(self.s[r].as_str());
            if line.len() != n {
                assert(self@.s[r as int].len() != n);
                return Err(GridError::InvalidDimension);
            }
            lines.push(line);
            r += 1;
        }
        let mut rows: Vec<Vec<usize>> = Vec::new();
        let mut r: usize = 0;
        while r < n
            invariant
                n == self.n,
                is_square(self@.s, n as int),
                lines@.len() == n,
                forall|i: int| 0 <= i < n ==> (#[trigger] lines@[i])@ == self@.s[i],
                r <= n,
                rows@.len() == r,
                forall|i: int| 0 <= i < r ==> (#[trigger] rows@[i])@ == cell_rows(self@.s)[i],
                forall|i: int, j: int|
                    0 <= i < r && 0 <= j < n ==> is_digit(#[trigger] self@.s[i][j]),
            decreases n - r,
        {
            let line = &lines[r];
            let mut row: Vec<usize> = Vec::new();
            let mut c: usize = 0;
            while c < n
                invariant
                    n == self.n,
                    is_square(self@.s, n as int),
                    r < n,
                    line@ == self@.s[r as int],
                    c <= n,
                    row@.len() == c,
                    forall|j: int| 0 <= j < c ==> row@[j] == digit_value(line@[j]) as usize,
                    forall|j: int| 0 <= j < c ==> is_digit(#[trigger] line@[j]),
                decreases n - c,
            {
                let ch = line[c];
                if !('0' <= ch && ch <= '9') {
                    assert(!is_digit(self@.s[r as int][c as int]));
                    return Err(GridError::InvalidColor);
                }
                row.push((ch as u32 - '0' as u32) as usize);
                c += 1;
            }
            proof {
                assert(row@ =~= cell_rows(self@.s)[r as int]);
            }
            rows.push(row);
            r += 1;
        }
        proof {
            assert(rows_of(rows@) =~= cell_rows(self@.s));
        }
        Grid::new(n, self.k, rows)
    }
}

/// A list of moves as it is written: its length and the triples `y x c`,
/// with row `y` and column `x` counted from 1.
#[derive(Clone, Debug)]
pub struct Output {
    pub q: usize,
    pub yxc: Vec<(usize, usize, usize)>,
}

/// A list of moves as plain values.
pub struct OutputView {
    pub q: usize,
    pub yxc: Seq<(usize, usize, usize)>,
}

impl View for Output {
    type V = OutputView;

    open spec fn view(&self) -> OutputView {
        OutputView { q: self.q, yxc: self.yxc@ }
    }
}

/// The triple that the three tokens from position `at` on write.
pub open spec fn triple_at(toks: Seq<Seq<char>>, at: int) -> Result<
    (usize, usize, usize),
    TokenFault,
> {
    match number_at(toks, at) {
        Err(e) => Err(e),
        Ok(y) => match number_at(toks, at + 1) {
            Err(e) => Err(e),
            Ok(x) => match number_at(toks, at + 2) {
                Err(e) => Err(e),
                Ok(c) => Ok((y, x, c)),
            },
        },
    }
}

/// The `count` triples from position `from` on, or the failure of the first
/// token that cannot be read.
pub open spec fn triples_of(toks: Seq<Seq<char>>, from: int, count: nat) -> Result<
    Seq<(usize, usize, usize)>,
    TokenFault,
>
    decreases count,
{
    if count == 0 {
        Ok(Seq::empty())
    } else {
        match triples_of(toks, from, (count - 1) as nat) {
            Err(e) => Err(e),
            Ok(before) => match triple_at(toks, from + 3 * (count - 1)) {
                Err(e) => Err(e),
                Ok(t) => Ok(before.push(t)),
            },
        }
    }
}

/// The list of moves that the tokens from position `at` on write.
pub open spec fn output_at(toks: Seq<Seq<char>>, at: int) -> Result<OutputView, TokenFault> {
    match number_at(toks, at) {
        Err(e) => Err(e),
        Ok(q) => match triples_of(toks, at + 1, q as nat) {
            Err(e) => Err(e),
            Ok(yxc) => Ok(OutputView { q, yxc }),
        },
    }
}

/// The list of moves that the tokens `toks` write.
pub open spec fn output_of_tokens(toks: Seq<Seq<char>>) -> Result<OutputView, TokenFault> {
    output_at(toks, 0)
}

/// The lists of moves that the tokens from position `at` on write, one
/// after the other until the tokens end.
pub open spec fn outputs_from(toks: Seq<Seq<char>>, at: int) -> Result<Seq<OutputView>, TokenFault>
    decreases toks.len() - at,
{
    if at < 0 || at >= toks.len() {
        Ok(Seq::empty())
    } else {
        match output_at(toks, at) {
            Err(e) => Err(e),
            Ok(first) => {
                let next = at + 1 + 3 * first.q;
                if next <= toks.len() {
                    match outputs_from(toks, next) {
                        Err(e) => Err(e),
                        Ok(rest) => Ok(seq![first] + rest),
                    }
                } else {
                    Ok(seq![first])
                }
            },
        }
    }
}

/// A result with its value and its failure taken by their views.
pub open spec fn output_result(res: Result<Output, TokenParseError>) -> Result<
    OutputView,
    TokenFault,
> {
    match res {
        Ok(v) => Ok(v@),
        Err(e) => Err(e@),
    }
}

/// The lists of moves of a vector, each taken by its view.
pub open spec fn output_views(outputs: Seq<Output>) -> Seq<OutputView> {
    Seq::new(outputs.len(), |i: int| outputs[i]@)
}

/// Once a triple cannot be read, no longer list can.
proof fn lemma_triples_fail(toks: Seq<Seq<char>>, from: int, done: nat, count: nat)
    requires
        done < count,
        triples_of(toks, from, done) is Ok,
        triple_at(toks, from + 3 * (done as int)) is Err,
    ensures
        triples_of(toks, from, count) is Err,
        triples_of(toks, from, count)->Err_0 == triple_at(toks, from + 3 * (done as int))->Err_0,
    decreases count,
{
    if count > done + 1 {
        lemma_triples_fail(toks, from, done, (count - 1) as nat);
    }
}

/// Reads the three tokens from position `at` on as a triple.
fn read_triple(toks: &Vec<Vec<char>>, at: usize) -> (res: Result<
    (usize, usize, usize),
    TokenParseError,
>)
    ensures
        with_fault(res) == triple_at(token_views(toks@), at as int),
        res is Ok ==> at + 2 < toks.len(),
{
    let y = read_at(toks, at)?;
    let x = read_at(toks, at + 1)?;
    let c = read_at(toks, at + 2)?;
    Ok((y, x, c))
}

/// Reads the list of moves that starts at position `start`, and returns it
/// with the position after it.
fn read_output(toks: &Vec<Vec<char>>, start: usize) -> (res: Result<(Output, usize), TokenParseError>)
    ensures
        match res {
            Ok(r) => output_at(token_views(toks@), start as int) == Ok::<OutputView, TokenFault>(
                r.0@,
            ) && r.1 == start + 1 + 3 * r.0.q && r.1 <= toks.len(),
            Err(e) => output_at(token_views(toks@), start as int) == Err::<OutputView, TokenFault>(
                e@,
            ),
        },
{
    let ghost views = token_views(toks@);
    let q = read_at(toks, start)?;
    let mut yxc: Vec<(usize, usize, usize)> = Vec::new();
    let mut i: usize = 0;
    let mut at: usize = start + 1;
    while i < q
        invariant
            views == token_views(toks@),
            number_at(views, start as int) == Ok::<usize, TokenFault>(q),
            i <= q,
            at == start + 1 + 3 * i,
            at <= toks.len(),
            triples_of(views, start + 1, i as nat) == Ok::<Seq<(usize, usize, usize)>, TokenFault>(
                yxc@,
            ),
        decreases q - i,
    {
        match read_triple(toks, at) {
            Ok(t) => {
                yxc.push(t);
            },
            Err(e) => {
                proof {
                    lemma_triples_fail(views, start + 1, i as nat, q as nat);
                }
                return Err(e);
            },
        }
        i += 1;
        at += 3;
    }
    Ok((Output { q, yxc }, at))
}

/// Reads a list of moves: `q` and `q` triples `y x c`.
///
/// Fails with `UnexpectedEOF` where a token is missing and with `ParseError`
/// where one is no number; the first such token decides.
pub fn parse_output(f: &str) -> (res: Result<Output, TokenParseError>)
    ensures
        output_result(res) == output_of_tokens(tokens(f@)),
{
    let chars = chars_of(f);
    let toks = split_tokens(&chars);
    match read_output(&toks, 0) {
        Ok(r) => Ok(r.0),
        Err(e) => Err(e),
    }
}

/// Reads lists of moves, one after the other, until the tokens end.
///
/// Fails as `parse_output` does, on the first list that cannot be read.
pub fn parse_outputs(f: &str) -> (res: Result<Vec<Output>, TokenParseError>)
    ensures
        match res {
            Ok(outputs) => outputs_from(tokens(f@), 0) == Ok::<Seq<OutputView>, TokenFault>(
                output_views(outputs@),
            ),
            Err(e) => outputs_from(tokens(f@), 0) == Err::<Seq<OutputView>, TokenFault>(e@),
        },
{
    let chars = chars_of(f);
    let toks = split_tokens(&chars);
    let ghost views = token_views(toks@);
    let mut outputs: Vec<Output> = Vec::new();
    let mut at: usize = 0;
    while at < toks.len()
        invariant
            views == token_views(toks@),
            views == tokens(f@),
            at <= toks.len(),
            outputs_from(views, 0) == match outputs_from(views, at as int) {
                Ok(rest) => Ok::<Seq<OutputView>, TokenFault>(output_views(outputs@) + rest),
                Err(e) => Err::<Seq<OutputView>, TokenFault>(e),
            },
        decreases toks.len() - at,
    {
        let ghost before = output_views(outputs@);
        match read_output(&toks, at) {
            Ok(r) => {
                proof {
                    let rest = outputs_from(views, r.1 as int);
                    assert(output_views(outputs@.push(r.0)) =~= before.push(r.0@));
                    if rest is Ok {
                        assert(before + (seq![r.0@] + rest->Ok_0) =~= before.push(r.0@)
                            + rest->Ok_0);
                    }
                }
                outputs.push(r.0);
                at = r.1;
            },
            Err(e) => {
                return Err(e);
            },
        }
    }
    proof {
        assert(output_views(outputs@) + Seq::<OutputView>::empty() =~= output_views(outputs@));
    }
    Ok(outputs)
}

/// A written row or column as the core counts it, from 0. What is written
/// as 0 names no row and no column: it becomes the largest number, which
/// lies on no grid.
pub open spec fn shifted(v: usize) -> usize {
    if v == 0 {
        usize::MAX
    } else {
        (v - 1) as usize
    }
}

/// The move that a written triple stands for, with row and column counted
/// from 0.
pub open spec fn operation_of(t: (usize, usize, usize)) -> Operation {
    Operation { row: shifted(t.0), col: shifted(t.1), color: t.2 }
}

/// The moves that the triples stand for, one for each triple.
pub open spec fn moves_of_output(v: OutputView) -> Seq<Operation> {
    Seq::new(v.yxc.len(), |i: int| operation_of(v.yxc[i]))
}

/// A triple that writes its row or its column as 0 stands for a move that
/// can be played on no grid, and that is turned down as out of bounds.
pub proof fn lemma_written_zero_unplayable(t: (usize, usize, usize), n: usize, k: usize)
    requires
        t.0 == 0 || t.1 == 0,
    ensures
        !op_valid(n as nat, k, operation_of(t)),
        op_error(n as nat, operation_of(t)) == GridError::OutOfBounds,
{
}

/// A triple that writes row and column from 1 on stands for the move on the
/// cell one row and one column before.
pub proof fn lemma_written_from_one(t: (usize, usize, usize))
    requires
        t.0 >= 1,
        t.1 >= 1,
    ensures
        operation_of(t).row == t.0 - 1,
        operation_of(t).col == t.1 - 1,
        operation_of(t).color == t.2,
{
}

/// A written row or column as the core counts it.
fn shift(v: usize) -> (out: usize)
    ensures
        out == shifted(v),
{
    if v == 0 {
        usize::MAX
    } else {
        v - 1
    }
}

impl Output {
    /// The moves with rows and columns counted from 0. A row or a column
    /// written as 0 gives a move that lies off every grid.
    pub fn operations(&self) -> (ops: Vec<Operation>)
        ensures
            ops@ == moves_of_output(self@),
    {
        let mut ops: Vec<Operation> = Vec::new();
        let mut i: usize = 0;
        while i < self.yxc.len()
            invariant
                i <= self.yxc@.len(),
                ops@ == Seq::new(i as nat, |j: int| operation_of(self.yxc@[j])),
            decreases self.yxc@.len() - i,
        {
            let (y, x, c) = self.yxc[i];
            ops.push(Operation { row: shift(y), col: shift(x), color: c });
            proof {
                assert(ops@ =~= Seq::new((i + 1) as nat, |j: int| operation_of(self.yxc@[j])));
            }
            i += 1;
        }
        ops
    }
}

} // verus!
