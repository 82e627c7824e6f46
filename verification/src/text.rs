//! Text as characters: splitting at whitespace, reading and writing decimal
//! numbers.

use vstd::prelude::*;
use vstd::string::StringExecFns;

verus! {

/// Whether `c` separates tokens: whether it is white space as Unicode has
/// it. These are the tab, the line feed, the vertical tab, the form feed,
/// the carriage return, the blank, the next-line mark, the no-break space,
/// the Ogham space mark, the spaces from en quad to hair space, the line and
/// the paragraph separator, the narrow no-break space, the medium
/// mathematical space and the ideographic space.
pub open spec fn is_space(c: char) -> bool {
    ||| '\u{9}' <= c <= '\u{d}'
    ||| c == ' '
    ||| c == '\u{85}'
    ||| c == '\u{a0}'
    ||| c == '\u{1680}'
    ||| '\u{2000}' <= c <= '\u{200a}'
    ||| c == '\u{2028}'
    ||| c == '\u{2029}'
    ||| c == '\u{202f}'
    ||| c == '\u{205f}'
    ||| c == '\u{3000}'
}

/// The first position from `i` on that holds no separator, or the length.
pub open spec fn skip_spaces(s: Seq<char>, i: int) -> int
    decreases s.len() - i,
{
    if 0 <= i < s.len() && is_space(s[i]) {
        skip_spaces(s, i + 1)
    } else {
        i
    }
}

/// The first position from `i` on that holds a separator, or the length.
pub open spec fn token_end(s: Seq<char>, i: int) -> int
    decreases s.len() - i,
{
    if 0 <= i < s.len() && !is_space(s[i]) {
        token_end(s, i + 1)
    } else {
        i
    }
}

/// The tokens of `s` from position `i` on: the maximal runs of characters
/// that are no separators, in the order in which they stand.
pub open spec fn tokens_from(s: Seq<char>, i: int) -> Seq<Seq<char>>
    decreases s.len() - i, 1int,
{
    let begin = skip_spaces(s, i);
    if 0 <= i <= begin < s.len() {
        let end = token_end(s, begin);
        if begin < end <= s.len() {
            seq![s.subrange(begin, end)] + tokens_from(s, end)
        } else {
            Seq::empty()
        }
    } else {
        Seq::empty()
    }
}

/// The tokens of `s`.
pub open spec fn tokens(s: Seq<char>) -> Seq<Seq<char>> {
    tokens_from(s, 0)
}

/// Skipping separators stops inside the text on a character that is none,
/// or at its end.
pub proof fn lemma_skip_spaces(s: Seq<char>, i: int)
    requires
        0 <= i <= s.len(),
    ensures
        i <= skip_spaces(s, i) <= s.len(),
        skip_spaces(s, i) < s.len() ==> !is_space(s[skip_spaces(s, i)]),
    decreases s.len() - i,
{
    if i < s.len() && is_space(s[i]) {
        lemma_skip_spaces(s, i + 1);
    }
}

/// A token that starts at `i` ends behind `i`, and holds no separator.
pub proof fn lemma_token_end(s: Seq<char>, i: int)
    requires
        0 <= i <= s.len(),
    ensures
        i <= token_end(s, i) <= s.len(),
        i < s.len() && !is_space(s[i]) ==> i < token_end(s, i),
        forall|j: int| i <= j < token_end(s, i) ==> !is_space(#[trigger] s[j]),
    decreases s.len() - i,
{
    if i < s.len() && !is_space(s[i]) {
        lemma_token_end(s, i + 1);
    }
}

/// Whether `w` can stand as one token: it is not empty and holds no separator.
pub open spec fn is_word(w: Seq<char>) -> bool {
    w.len() > 0 && forall|i: int| 0 <= i < w.len() ==> !is_space(#[trigger] w[i])
}

/// Whether `a` is empty or ends with a separator.
pub open spec fn ends_tokens(a: Seq<char>) -> bool {
    a.len() == 0 || is_space(a.last())
}

/// Searching in `r` gives what searching behind a prefix `p` gives.
proof fn lemma_skip_spaces_shift(p: Seq<char>, r: Seq<char>, i: int)
    requires
        0 <= i <= r.len(),
    ensures
        skip_spaces(p + r, p.len() + i) == p.len() + skip_spaces(r, i),
    decreases r.len() - i,
{
    if i < r.len() {
        assert((p + r)[p.len() + i] == r[i]);
        if is_space(r[i]) {
            lemma_skip_spaces_shift(p, r, i + 1);
        }
    }
}

/// Searching in `r` gives what searching behind a prefix `p` gives.
proof fn lemma_token_end_shift(p: Seq<char>, r: Seq<char>, i: int)
    requires
        0 <= i <= r.len(),
    ensures
        token_end(p + r, p.len() + i) == p.len() + token_end(r, i),
    decreases r.len() - i,
{
    if i < r.len() {
        assert((p + r)[p.len() + i] == r[i]);
        if !is_space(r[i]) {
            lemma_token_end_shift(p, r, i + 1);
        }
    }
}

/// The tokens of `p + r` from a position in `r` on are the tokens of `r`
/// from that position on.
pub proof fn lemma_tokens_shift(p: Seq<char>, r: Seq<char>, i: int)
    requires
        0 <= i <= r.len(),
    ensures
        tokens_from(p + r, p.len() + i) == tokens_from(r, i),
    decreases r.len() - i,
{
    let s = p + r;
    lemma_skip_spaces_shift(p, r, i);
    lemma_skip_spaces(r, i);
    let begin = skip_spaces(r, i);
    if begin < r.len() {
        lemma_token_end_shift(p, r, begin);
        lemma_token_end(r, begin);
        let end = token_end(r, begin);
        assert(s.subrange(p.len() + begin, p.len() + end) =~= r.subrange(begin, end));
        lemma_tokens_shift(p, r, end);
    }
}

/// Where only separators stand between `i` and `j`, the tokens from `i` on
/// are the tokens from `j` on.
proof fn lemma_tokens_skip(s: Seq<char>, i: int, j: int)
    requires
        0 <= i <= j <= s.len(),
        skip_spaces(s, i) == skip_spaces(s, j),
    ensures
        tokens_from(s, i) == tokens_from(s, j),
{
    lemma_skip_spaces(s, j);
}

/// In front of more text, a search that stops inside `a` stops at the same
/// place, and one that reaches the end of `a` goes on from there.
proof fn lemma_skip_spaces_prefix(a: Seq<char>, b: Seq<char>, i: int)
    requires
        0 <= i <= a.len(),
    ensures
        skip_spaces(a, i) < a.len() ==> skip_spaces(a + b, i) == skip_spaces(a, i),
        skip_spaces(a, i) >= a.len() ==> skip_spaces(a + b, i) == skip_spaces(
            a + b,
            a.len() as int,
        ),
    decreases a.len() - i,
{
    if i < a.len() {
        assert((a + b)[i] == a[i]);
        if is_space(a[i]) {
            lemma_skip_spaces_prefix(a, b, i + 1);
        }
    }
}

/// In front of more text, a token that ends inside `a` ends at the same place.
proof fn lemma_token_end_prefix(a: Seq<char>, b: Seq<char>, i: int)
    requires
        0 <= i <= a.len(),
        token_end(a, i) < a.len(),
    ensures
        token_end(a + b, i) == token_end(a, i),
    decreases a.len() - i,
{
    if i < a.len() {
        assert((a + b)[i] == a[i]);
        if !is_space(a[i]) {
            lemma_token_end_prefix(a, b, i + 1);
        }
    }
}

/// The tokens of `a + b` from a position in `a` on are those of `a` from
/// there on, then those of `b`.
proof fn lemma_tokens_concat_from(a: Seq<char>, b: Seq<char>, i: int)
    requires
        0 <= i <= a.len(),
        ends_tokens(a),
    ensures
        tokens_from(a + b, i) == tokens_from(a, i) + tokens(b),
    decreases a.len() - i,
{
    let s = a + b;
    lemma_skip_spaces(a, i);
    lemma_skip_spaces_prefix(a, b, i);
    let begin = skip_spaces(a, i);
    if begin < a.len() {
        lemma_token_end(a, begin);
        let end = token_end(a, begin);
        if end >= a.len() {
            assert(!is_space(a[a.len() - 1]));
        }
        lemma_token_end_prefix(a, b, begin);
        assert(s.subrange(begin, end) =~= a.subrange(begin, end));
        lemma_tokens_concat_from(a, b, end);
        assert(seq![a.subrange(begin, end)] + (tokens_from(a, end) + tokens(b)) =~= (seq![
            a.subrange(begin, end),
        ] + tokens_from(a, end)) + tokens(b));
    } else {
        lemma_skip_spaces(s, a.len() as int);
        lemma_tokens_skip(s, i, a.len() as int);
        lemma_tokens_shift(a, b, 0);
        assert(tokens_from(a, i) =~= Seq::<Seq<char>>::empty());
        assert(Seq::<Seq<char>>::empty() + tokens(b) =~= tokens(b));
    }
}

/// Text that ends with a separator keeps its tokens when more text follows:
/// the tokens of the whole are those of the first part, then those of the
/// second.
pub proof fn lemma_tokens_concat(a: Seq<char>, b: Seq<char>)
    requires
        ends_tokens(a),
    ensures
        tokens(a + b) == tokens(a) + tokens(b),
{
    lemma_tokens_concat_from(a, b, 0);
}

/// A word followed by a separator is one token.
pub proof fn lemma_tokens_word(w: Seq<char>, sep: char)
    requires
        is_word(w),
        is_space(sep),
    ensures
        tokens(w.push(sep)) == seq![w],
        ends_tokens(w.push(sep)),
{
    let s = w.push(sep);
    lemma_word_end(w, sep, 0);
    assert(s.subrange(0, w.len() as int) =~= w);
    assert(skip_spaces(s, w.len() as int) == s.len()) by {
        reveal_with_fuel(skip_spaces, 2);
    }
    assert(tokens_from(s, w.len() as int) =~= Seq::<Seq<char>>::empty());
    assert(seq![w] + Seq::<Seq<char>>::empty() =~= seq![w]);
}

/// A word ends where the separator behind it stands.
proof fn lemma_word_end(w: Seq<char>, sep: char, i: int)
    requires
        is_word(w),
        is_space(sep),
        0 <= i <= w.len(),
    ensures
        token_end(w.push(sep), i) == w.len(),
    decreases w.len() - i,
{
    if i < w.len() {
        assert(w.push(sep)[i] == w[i]);
        lemma_word_end(w, sep, i + 1);
    }
}

/// Whether `c` separates tokens.
pub fn is_separator(c: char) -> (b: bool)
    ensures
        b == is_space(c),
{
    ('\u{9}' <= c && c <= '\u{d}') || c == ' ' || c == '\u{85}' || c == '\u{a0}' || c
        == '\u{1680}' || ('\u{2000}' <= c && c <= '\u{200a}') || c == '\u{2028}' || c
        == '\u{2029}' || c == '\u{202f}' || c == '\u{205f}' || c == '\u{3000}'
}

/// The characters of `s`, one vector entry each.
pub fn chars_of(s: &str) -> (chars: Vec<char>)
    ensures
        chars@ == s@,
{
    let mut chars: Vec<char> = Vec::new();
    for c in it: s.chars()
        invariant
            it.seq() == s@,
            chars@ == s@.take(it.index() as int),
    {
        chars.push(c);
        proof {
            assert(s@.take(it.index() + 1) =~= s@.take(it.index() as int).push(c));
        }
    }
    proof {
        assert(s@.take(s@.len() as int) =~= s@);
    }
    chars
}

/// The tokens of a nested vector, each taken by its view.
pub open spec fn token_views(tokens: Seq<Vec<char>>) -> Seq<Seq<char>> {
    Seq::new(tokens.len(), |i: int| tokens[i]@)
}

/// Splits `chars` into its tokens.
pub fn split_tokens(chars: &Vec<char>) -> (out: Vec<Vec<char>>)
    ensures
        token_views(out@) == tokens(chars@),
{
    let ghost s = chars@;
    let len = chars.len();
    let mut out: Vec<Vec<char>> = Vec::new();
    let mut i: usize = 0;
    loop
        invariant
            s == chars@,
            len == s.len(),
            i <= len,
            tokens(s) == token_views(out@) + tokens_from(s, i as int),
        ensures
            token_views(out@) == tokens(s),
        decreases len - i,
    {
        let ghost start = i as int;
        while i < len && is_separator(chars[i])
            invariant
                s == chars@,
                len == s.len(),
                start <= i <= len,
                skip_spaces(s, i as int) == skip_spaces(s, start),
            decreases len - i,
        {
            i += 1;
        }
        if i >= len {
            proof {
                assert(tokens_from(s, start) =~= Seq::<Seq<char>>::empty());
                assert(token_views(out@) + Seq::<Seq<char>>::empty() =~= token_views(out@));
            }
            break;
        }
        let begin = i;
        let mut token: Vec<char> = Vec::new();
        while i < len && !is_separator(chars[i])
            invariant
                s == chars@,
                len == s.len(),
                begin <= i <= len,
                token_end(s, i as int) == token_end(s, begin as int),
                token@ == s.subrange(begin as int, i as int),
            decreases len - i,
        {
            token.push(chars[i]);
            proof {
                assert(s.subrange(begin as int, i + 1) =~= s.subrange(begin as int, i as int).push(
                    s[i as int],
                ));
            }
            i += 1;
        }
        proof {
            lemma_token_end(s, begin as int);
            let before = token_views(out@);
            let rest = tokens_from(s, i as int);
            assert(tokens_from(s, start) == seq![token@] + rest);
            assert(token_views(out@.push(token)) =~= before.push(token@));
            assert(before + (seq![token@] + rest) =~= before.push(token@) + rest);
        }
        out.push(token);
    }
    out
}

/// Whether `c` is one of the digits 0 to 9.
pub open spec fn is_digit(c: char) -> bool {
    '0' <= c <= '9'
}

/// The value of the digit `c`.
pub open spec fn digit_value(c: char) -> nat {
    (c as u32 - '0' as u32) as nat
}

/// Whether `s` is a non-empty run of digits.
pub open spec fn is_decimal(s: Seq<char>) -> bool {
    s.len() > 0 && forall|i: int| 0 <= i < s.len() ==> is_digit(#[trigger] s[i])
}

/// The number that the digits `s` write in base ten.
pub open spec fn decimal_value(s: Seq<char>) -> nat
    decreases s.len(),
{
    if s.len() == 0 {
        0
    } else {
        10 * decimal_value(s.drop_last()) + digit_value(s.last())
    }
}

/// The digits of a number token: the token without a leading plus sign.
pub open spec fn unsigned_part(s: Seq<char>) -> Seq<char> {
    if s.len() > 0 && s[0] == '+' {
        s.subrange(1, s.len() as int)
    } else {
        s
    }
}

/// The number that the token `s` writes, where it writes one that fits a
/// `usize`: digits only, after an optional plus sign.
pub open spec fn number_of(s: Seq<char>) -> Option<usize> {
    let digits = unsigned_part(s);
    if is_decimal(digits) && decimal_value(digits) <= usize::MAX {
        Some(decimal_value(digits) as usize)
    } else {
        None
    }
}

/// A longer run of digits writes no smaller number.
pub proof fn lemma_decimal_prefix(s: Seq<char>, i: int)
    requires
        0 <= i <= s.len(),
    ensures
        decimal_value(s.take(i)) <= decimal_value(s),
    decreases s.len() - i,
{
    if i < s.len() {
        lemma_decimal_prefix(s, i + 1);
        assert(s.take(i + 1).drop_last() =~= s.take(i));
    } else {
        assert(s.take(i) =~= s);
    }
}

/// Reads the number that `token` writes.
pub fn parse_number(token: &Vec<char>) -> (res: Option<usize>)
    ensures
        res == number_of(token@),
{
    let len = token.len();
    let mut i: usize = 0;
    if len > 0 && token[0] == '+' {
        i = 1;
    }
    let ghost digits = unsigned_part(token@);
    let ghost shift = i as int;
    if i >= len {
        return None;
    }
    proof {
        assert(digits =~= token@.subrange(shift, len as int));
        assert(digits.take(0) =~= Seq::<char>::empty());
    }
    let mut value: usize = 0;
    while i < len
        invariant
            len == token@.len(),
            digits == unsigned_part(token@),
            digits == token@.subrange(shift, len as int),
            0 <= shift <= i <= len,
            forall|j: int| 0 <= j < i - shift ==> is_digit(#[trigger] digits[j]),
            value == decimal_value(digits.take(i - shift)),
        decreases len - i,
    {
        let c = token[i];
        if !('0' <= c && c <= '9') {
            assert(!is_digit(digits[i - shift]));
            return None;
        }
        let d: usize = (c as u32 - '0' as u32) as usize;
        proof {
            let longer = digits.take(i - shift + 1);
            assert(longer.drop_last() =~= digits.take(i - shift));
            assert(longer.last() == c);
            lemma_decimal_prefix(digits, i - shift + 1);
        }
        if value > (usize::MAX - d) / 10 {
            assert(decimal_value(digits.take(i - shift + 1)) > usize::MAX);
            return None;
        }
        value = value * 10 + d;
        i += 1;
    }
    proof {
        assert(digits.take(len - shift) =~= digits);
    }
    Some(value)
}

/// The character that writes a digit.
pub open spec fn digit_char(d: nat) -> char {
    if d == 0 {
        '0'
    } else if d == 1 {
        '1'
    } else if d == 2 {
        '2'
    } else if d == 3 {
        '3'
    } else if d == 4 {
        '4'
    } else if d == 5 {
        '5'
    } else if d == 6 {
        '6'
    } else if d == 7 {
        '7'
    } else if d == 8 {
        '8'
    } else {
        '9'
    }
}

/// The digits that write `v` in base ten, without leading zeros.
pub open spec fn decimal_text(v: nat) -> Seq<char>
    decreases v,
{
    if v < 10 {
        seq![digit_char(v)]
    } else {
        decimal_text(v / 10).push(digit_char(v % 10))
    }
}

/// What is written in base ten reads back as the same number.
pub proof fn lemma_decimal_text_value(v: nat)
    ensures
        is_decimal(decimal_text(v)),
        decimal_value(decimal_text(v)) == v,
        unsigned_part(decimal_text(v)) == decimal_text(v),
    decreases v,
{
    let text = decimal_text(v);
    if v < 10 {
        assert(text.drop_last() =~= Seq::<char>::empty());
        assert(decimal_value(text.drop_last()) == 0);
    } else {
        lemma_decimal_text_value(v / 10);
        assert(text.drop_last() =~= decimal_text(v / 10));
        assert(text[0] == decimal_text(v / 10)[0]);
    }
}

/// The digit `d` as a one-character string slice.
pub fn digit_str(d: usize) -> (s: &'static str)
    requires
        d < 10,
    ensures
        s@ == seq![digit_char(d as nat)],
{
    proof {
        reveal_strlit("0");
        reveal_strlit("1");
        reveal_strlit("2");
        reveal_strlit("3");
        reveal_strlit("4");
        reveal_strlit("5");
        reveal_strlit("6");
        reveal_strlit("7");
        reveal_strlit("8");
        reveal_strlit("9");
    }
    let s = if d == 0 {
        "0"
    } else if d == 1 {
        "1"
    } else if d == 2 {
        "2"
    } else if d == 3 {
        "3"
    } else if d == 4 {
        "4"
    } else if d == 5 {
        "5"
    } else if d == 6 {
        "6"
    } else if d == 7 {
        "7"
    } else if d == 8 {
        "8"
    } else {
        "9"
    };
    assert(s@ =~= seq![digit_char(d as nat)]);
    s
}

/// Appends to `out` the digits that write `v` in base ten.
pub fn push_number(out: &mut String, v: usize)
    ensures
        final(out)@ == old(out)@ + decimal_text(v as nat),
    decreases v,
{
    if v >= 10 {
        push_number(out, v / 10);
    }
    out.append(digit_str(v % 10));
    proof {
        if v >= 10 {
            assert(old(out)@ + decimal_text((v / 10) as nat) + seq![digit_char((v % 10) as nat)]
                =~= old(out)@ + decimal_text(v as nat));
        } else {
            assert(old(out)@ + seq![digit_char((v % 10) as nat)] =~= old(out)@ + decimal_text(
                v as nat,
            ));
        }
    }
}

/// The string that holds the characters of `chars`.
pub fn string_of(chars: &Vec<char>) -> (s: String)
    ensures
        s@ == chars@,
{
    let mut s = String::new();
    let mut i: usize = 0;
    while i < chars.len()
        invariant
            i <= chars@.len(),
            s@ == chars@.take(i as int),
        decreases chars@.len() - i,
    {
        push_char(&mut s, chars[i]);
        proof {
            assert(chars@.take(i + 1) =~= chars@.take(i as int).push(chars@[i as int]));
        }
        i += 1;
    }
    proof {
        assert(chars@.take(chars@.len() as int) =~= chars@);
    }
    s
}

/// Appends one character to a string.
///
/// This is `String::push` of the standard library, which puts the character
/// at the end of the string and changes nothing else.
#[verifier::external_body]
pub(crate) fn push_char(out: &mut String, c: char)
    ensures
        final(out)@ == old(out)@.push(c),
{
    out.push(c);
}

} // verus!
