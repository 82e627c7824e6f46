use paint_bucket::error::GridError;
use paint_bucket::io::{parse_input, parse_output, read, Input, Output, TokenParseError};
use paint_bucket::replay::Operation;
use paint_bucket::text::{chars_of, parse_number, split_tokens, string_of};

fn chars(s: &str) -> Vec<char> {
    s.chars().collect()
}

#[test]
fn chars_and_strings_round_trip() {
    assert_eq!(chars_of("a b\u{e9}"), vec!['a', ' ', 'b', '\u{e9}']);
    assert_eq!(chars_of(""), Vec::<char>::new());
    assert_eq!(string_of(&chars("x1\n")), "x1\n");
}

#[test]
fn split_tokens_at_whitespace() {
    assert_eq!(
        split_tokens(&chars("  12 abc\n\t7\r\nx ")),
        vec![chars("12"), chars("abc"), chars("7"), chars("x")]
    );
    assert_eq!(split_tokens(&chars("")), Vec::<Vec<char>>::new());
    assert_eq!(split_tokens(&chars(" \n\t ")), Vec::<Vec<char>>::new());
    assert_eq!(split_tokens(&chars("one")), vec![chars("one")]);
}

#[test]
fn parse_number_reads_decimal_digits() {
    assert_eq!(parse_number(&chars("0")), Some(0));
    assert_eq!(parse_number(&chars("007")), Some(7));
    assert_eq!(parse_number(&chars("1234567890")), Some(1234567890));
    assert_eq!(parse_number(&chars("+15")), Some(15));
    assert_eq!(parse_number(&chars(&usize::MAX.to_string())), Some(usize::MAX));
}

#[test]
fn parse_number_rejects_what_is_no_number() {
    assert_eq!(parse_number(&chars("")), None);
    assert_eq!(parse_number(&chars("+")), None);
    assert_eq!(parse_number(&chars("-1")), None);
    assert_eq!(parse_number(&chars("++1")), None);
    assert_eq!(parse_number(&chars("1+")), None);
    assert_eq!(parse_number(&chars("12a")), None);
    assert_eq!(parse_number(&chars("1.5")), None);
    assert_eq!(parse_number(&chars("\u{0661}")), None);
}

#[test]
fn parse_number_rejects_what_does_not_fit() {
    let mut big = usize::MAX.to_string();
    big.push('0');
    assert_eq!(parse_number(&chars(&big)), None);
    let max = usize::MAX as u128;
    assert_eq!(parse_number(&chars(&(max + 1).to_string())), None);
    assert_eq!(parse_number(&chars(&(max - 1).to_string())), Some(usize::MAX - 1));
}

#[test]
fn parse_number_agrees_with_the_standard_parser() {
    for s in ["0", "9", "10", "+3", "+", "", "-0", "00", "18446744073709551615", "18446744073709551616", "9 ", " 9", "1_0"] {
        assert_eq!(parse_number(&chars(s)), s.parse::<usize>().ok(), "{:?}", s);
    }
}

#[test]
fn read_within_bounds() {
    assert_eq!(read(Some("5"), 0, 10).ok(), Some(5));
    assert_eq!(read(Some("0"), 0, 10).ok(), Some(0));
    assert_eq!(read(Some("10"), 0, 10).ok(), Some(10));
}

#[test]
fn read_out_of_range() {
    assert!(matches!(read(Some("11"), 0, 10), Err(TokenParseError::OutOfRange(11))));
    assert!(matches!(read(Some("2"), 3, 10), Err(TokenParseError::OutOfRange(2))));
}

#[test]
fn read_parse_error_keeps_the_token() {
    match read(Some("1x"), 0, 10) {
        Err(TokenParseError::ParseError(s)) => assert_eq!(s, "1x"),
        _ => panic!("expected a parse error"),
    }
}

#[test]
fn read_without_token() {
    assert!(matches!(read(None, 0, 10), Err(TokenParseError::UnexpectedEOF)));
}

#[test]
fn token_error_messages() {
    assert_eq!(TokenParseError::OutOfRange(120).message(), "Out of range: 120");
    assert_eq!(TokenParseError::OutOfRange(0).message(), "Out of range: 0");
    assert_eq!(TokenParseError::ParseError("ab".to_string()).message(), "Parse error: ab");
    assert_eq!(TokenParseError::UnexpectedEOF.message(), "Unexpected EOF");
}

#[test]
fn parse_input_reads_header_and_rows() {
    let input = parse_input("7 3 2\n112\n122\n222\n").ok().unwrap();
    assert_eq!(input.id, 7);
    assert_eq!(input.n, 3);
    assert_eq!(input.k, 2);
    assert_eq!(input.s, vec!["112", "122", "222"]);
}

#[test]
fn parse_input_ignores_what_follows() {
    let input = parse_input("0 1 1 1 extra tokens").ok().unwrap();
    assert_eq!(input.s, vec!["1"]);
}

#[test]
fn parse_input_takes_rows_as_they_stand() {
    let input = parse_input("0 2 2 1x 22222").ok().unwrap();
    assert_eq!(input.s, vec!["1x", "22222"]);
    assert_eq!(input.grid().err(), Some(GridError::InvalidDimension));
}

#[test]
fn parse_input_failures() {
    assert!(matches!(parse_input(""), Err(TokenParseError::UnexpectedEOF)));
    assert!(matches!(parse_input("1 2"), Err(TokenParseError::UnexpectedEOF)));
    assert!(matches!(parse_input("0 3 2 112 122"), Err(TokenParseError::UnexpectedEOF)));
    match parse_input("0 n 2") {
        Err(TokenParseError::ParseError(s)) => assert_eq!(s, "n"),
        _ => panic!("expected a parse error"),
    }
    match parse_input("-1 1 2 1") {
        Err(TokenParseError::ParseError(s)) => assert_eq!(s, "-1"),
        _ => panic!("expected a parse error"),
    }
}

#[test]
fn input_grid_reads_digits() {
    let input = parse_input("0 3 2\n112\n122\n202\n").ok().unwrap();
    let g = input.grid().ok().unwrap();
    assert_eq!(g.n(), 3);
    assert_eq!(g.k(), 2);
    assert_eq!(g.rows(), vec![vec![1, 1, 2], vec![1, 2, 2], vec![2, 0, 2]]);
}

#[test]
fn input_grid_failures() {
    let input = Input { id: 0, n: 2, k: 2, s: vec!["12".to_string()] };
    assert_eq!(input.grid().err(), Some(GridError::InvalidDimension));
    let input = Input { id: 0, n: 2, k: 2, s: vec!["12".to_string(), "1".to_string()] };
    assert_eq!(input.grid().err(), Some(GridError::InvalidDimension));
    let input = Input { id: 0, n: 2, k: 2, s: vec!["12".to_string(), "13".to_string()] };
    assert_eq!(input.grid().err(), Some(GridError::InvalidColor));
    let input = Input { id: 0, n: 2, k: 2, s: vec!["12".to_string(), "1a".to_string()] };
    assert_eq!(input.grid().err(), Some(GridError::InvalidColor));
    let input = Input { id: 0, n: 2, k: 9, s: vec!["1\u{e9}".to_string(), "11".to_string()] };
    assert_eq!(input.grid().err(), Some(GridError::InvalidColor));
    let input = Input { id: 0, n: 2, k: 2, s: vec!["9a".to_string(), "133".to_string()] };
    assert_eq!(input.grid().err(), Some(GridError::InvalidDimension));
}

#[test]
fn input_to_text_writes_header_and_rows() {
    let input = Input { id: 12, n: 2, k: 9, s: vec!["19".to_string(), "91".to_string()] };
    assert_eq!(input.to_text(), "12 2 9\n19\n91\n");
    let input = Input { id: 0, n: 0, k: 0, s: vec![] };
    assert_eq!(input.to_text(), "0 0 0\n");
}

#[test]
fn input_text_reads_back() {
    let input = Input { id: 3, n: 3, k: 4, s: vec!["123".to_string(), "412".to_string(), "341".to_string()] };
    let back = parse_input(&input.to_text()).ok().unwrap();
    assert_eq!((back.id, back.n, back.k), (3, 3, 4));
    assert_eq!(back.s, input.s);
}

#[test]
fn parse_output_reads_moves() {
    let out = parse_output("2\n1 1 2\n3 2 1\n").ok().unwrap();
    assert_eq!(out.q, 2);
    assert_eq!(out.yxc, vec![(1, 1, 2), (3, 2, 1)]);
    let out = parse_output("0").ok().unwrap();
    assert_eq!(out.q, 0);
    assert_eq!(out.yxc, vec![]);
    let out = parse_output("1 4 5 6 7 8 9").ok().unwrap();
    assert_eq!(out.yxc, vec![(4, 5, 6)]);
}

#[test]
fn parse_output_failures() {
    assert!(matches!(parse_output(""), Err(TokenParseError::UnexpectedEOF)));
    assert!(matches!(parse_output("  \n"), Err(TokenParseError::UnexpectedEOF)));
    assert!(matches!(parse_output("2 1 1 2 3 2"), Err(TokenParseError::UnexpectedEOF)));
    match parse_output("2 1 1 2 3 x 1") {
        Err(TokenParseError::ParseError(s)) => assert_eq!(s, "x"),
        _ => panic!("expected a parse error"),
    }
    match parse_output("q") {
        Err(TokenParseError::ParseError(s)) => assert_eq!(s, "q"),
        _ => panic!("expected a parse error"),
    }
    match parse_output("3 1 a 2 3 b") {
        Err(TokenParseError::ParseError(s)) => assert_eq!(s, "a"),
        _ => panic!("expected a parse error"),
    }
}

#[test]
fn operations_count_from_zero() {
    let out = Output { q: 2, yxc: vec![(1, 1, 2), (3, 2, 0)] };
    assert_eq!(
        out.operations(),
        vec![Operation { row: 0, col: 0, color: 2 }, Operation { row: 2, col: 1, color: 0 }]
    );
    let out = Output { q: 0, yxc: vec![] };
    assert_eq!(out.operations(), vec![]);
}

#[test]
fn operations_put_a_written_zero_off_every_grid() {
    let out = Output { q: 3, yxc: vec![(1, 1, 2), (0, 2, 1), (4, 0, 3)] };
    assert_eq!(
        out.operations(),
        vec![
            Operation { row: 0, col: 0, color: 2 },
            Operation { row: usize::MAX, col: 1, color: 1 },
            Operation { row: 3, col: usize::MAX, color: 3 },
        ]
    );
}

#[test]
fn separators_are_the_white_space_of_the_standard_library() {
    let mut seen = 0;
    for code in 0..=0x10ffffu32 {
        if let Some(c) = char::from_u32(code) {
            assert_eq!(paint_bucket::text::is_separator(c), c.is_whitespace(), "{:x}", code);
            seen += 1;
        }
    }
    assert_eq!(seen, 0x110000 - 0x800);
}

#[test]
fn split_tokens_agrees_with_split_whitespace() {
    for s in [
        "a\u{b}b\u{c}c",
        "1\u{a0}2\u{2003}3\u{3000}4",
        "\u{85}x\u{2028}y\u{2029}",
        "\u{1680}\u{202f}\u{205f}",
        "no\u{200b}break",
        " 0 3 2\r\n112\t122\n222 ",
    ] {
        let expect: Vec<Vec<char>> = s.split_whitespace().map(|t| t.chars().collect()).collect();
        assert_eq!(split_tokens(&chars(s)), expect, "{:?}", s);
    }
    let input = parse_input("7\u{c}1\u{b}1\u{2003}1").ok().unwrap();
    assert_eq!((input.id, input.n, input.k), (7, 1, 1));
    assert_eq!(input.s, vec!["1"]);
}

#[test]
fn input_to_text_writes_the_first_n_rows() {
    let input = Input {
        id: 1,
        n: 2,
        k: 3,
        s: vec!["12".to_string(), "31".to_string(), "23".to_string()],
    };
    assert_eq!(input.to_text(), "1 2 3\n12\n31\n");
    let input = Input { id: 1, n: 0, k: 3, s: vec!["12".to_string()] };
    assert_eq!(input.to_text(), "1 0 3\n");
}

#[test]
fn parse_outputs_reads_lists_until_the_tokens_end() {
    let outs = paint_bucket::io::parse_outputs("1 1 1 2\n0\n2 1 2 3 4 5 6\n").ok().unwrap();
    assert_eq!(outs.len(), 3);
    assert_eq!(outs[0].yxc, vec![(1, 1, 2)]);
    assert_eq!(outs[1].q, 0);
    assert_eq!(outs[2].yxc, vec![(1, 2, 3), (4, 5, 6)]);
    assert_eq!(paint_bucket::io::parse_outputs("").ok().unwrap().len(), 0);
    assert_eq!(paint_bucket::io::parse_outputs(" \n ").ok().unwrap().len(), 0);
}

#[test]
fn parse_outputs_fails_on_the_first_bad_list() {
    assert!(matches!(
        paint_bucket::io::parse_outputs("1 1 1 2 2 1 1"),
        Err(TokenParseError::UnexpectedEOF)
    ));
    match paint_bucket::io::parse_outputs("0 z") {
        Err(TokenParseError::ParseError(s)) => assert_eq!(s, "z"),
        _ => panic!("expected a parse error"),
    }
}
