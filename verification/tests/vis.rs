use paint_bucket::canvas::rect;
use paint_bucket::error::GridError;
use paint_bucket::gen::{gen, puzzle_of_draws};
use paint_bucket::io::{parse_input, Input, Output, TokenParseError};
use paint_bucket::vis::{
    calc_max_turn, generate, max_turn, vis, visualize, VisError, VisOption,
};

fn palette() -> Vec<String> {
    vec!["#000000", "#FF0000", "#00FF00", "#0000FF"].into_iter().map(String::from).collect()
}

const HEAD: &str = "<svg height=\"810\" id=\"vis\" style=\"background-color:white\" viewBox=\"-5 -5 810 810\" width=\"810\" xmlns=\"http://www.w3.org/2000/svg\">\n<style>\ntext {text-anchor: middle;dominant-baseline: central; font-size: 6}\n</style>\n";

fn cell(x: usize, y: usize, fill: &str) -> String {
    format!(
        "<rect class=\"box\" fill=\"{}\" height=\"8\" stroke=\"black\" stroke-width=\"1\" width=\"8\" x=\"{}\" y=\"{}\"/>\n",
        fill, x, y
    )
}

#[test]
fn rect_holds_position_size_and_fill() {
    assert_eq!(
        rect(16, 792, 8, 9, "red").to_string(),
        "<rect fill=\"red\" height=\"9\" width=\"8\" x=\"16\" y=\"792\"/>"
    );
}

#[test]
fn visualize_draws_the_grid_after_the_turn() {
    let r = visualize("0 2 2\n12\n21\n", "1\n1 1 2\n", 1, &palette()).ok().unwrap();
    assert_eq!(r.0, 2);
    assert_eq!(r.1, "");
    let expect = format!(
        "{}{}{}{}{}</svg>",
        HEAD,
        cell(0, 792, "#00FF00"),
        cell(8, 792, "#00FF00"),
        cell(0, 784, "#00FF00"),
        cell(8, 784, "#FF0000")
    );
    assert_eq!(r.2, expect);
}

#[test]
fn visualize_at_turn_zero_draws_the_puzzle() {
    let r = visualize("0 2 2\n12\n21\n", "1\n1 1 2\n", 0, &palette()).ok().unwrap();
    assert_eq!(r.0, 2);
    let expect = format!(
        "{}{}{}{}{}</svg>",
        HEAD,
        cell(0, 792, "#FF0000"),
        cell(8, 792, "#00FF00"),
        cell(0, 784, "#00FF00"),
        cell(8, 784, "#FF0000")
    );
    assert_eq!(r.2, expect);
}

#[test]
fn visualize_three_by_three_scenario() {
    let r = visualize("0 3 2\n112\n122\n222\n", "1\n1 1 2\n", 1, &palette()).ok().unwrap();
    assert_eq!(r.0, 8);
    assert_eq!(r.2.matches("fill=\"#00FF00\"").count(), 9);
    assert_eq!(r.2.matches("<rect").count(), 9);
}

#[test]
fn visualize_score_can_be_negative() {
    let r = visualize("0 1 1 1", "3 1 1 1 1 1 1 1 1 1", 3, &palette()).ok().unwrap();
    assert_eq!(r.0, -2);
}

#[test]
fn visualize_failures_come_as_messages() {
    let p = palette();
    assert_eq!(
        visualize("0 2", "0", 0, &p).err().unwrap(),
        "Failed to parse Input: Unexpected EOF"
    );
    assert_eq!(
        visualize("0 x 2", "0", 0, &p).err().unwrap(),
        "Failed to parse Input: Parse error: x"
    );
    assert_eq!(
        visualize("0 1 1 1", "", 0, &p).err().unwrap(),
        "Failed to parse Output: Unexpected EOF"
    );
    assert_eq!(
        visualize("0 2 2 12 2", "0", 0, &p).err().unwrap(),
        "Invalid grid: invalid dimension"
    );
    assert_eq!(
        visualize("0 2 2 12 23", "0", 0, &p).err().unwrap(),
        "Invalid grid: invalid color"
    );
    assert_eq!(
        visualize("0 1 1 1", "1 0 1 1", 1, &p).err().unwrap(),
        "Replay stopped at move 0: out of bounds"
    );
    assert_eq!(
        visualize("0 1 1 1", "1 1 0 1", 1, &p).err().unwrap(),
        "Replay stopped at move 0: out of bounds"
    );
    assert_eq!(
        visualize("0 1 1 1", "2 1 1 1 2 1 1", 2, &p).err().unwrap(),
        "Replay stopped at move 1: out of bounds"
    );
    assert_eq!(
        visualize("0 1 1 1", "1 1 1 2", 1, &p).err().unwrap(),
        "Replay stopped at move 0: invalid color"
    );
    assert_eq!(
        visualize("0 1 1 1", "1 1 1 1", 2, &p).err().unwrap(),
        "Replay stopped at move 1: replay exhausted"
    );
    assert_eq!(
        visualize("0 1 4 1", "0", 0, &p).err().unwrap(),
        "No fill for colour 4"
    );
}

#[test]
fn visualize_refuses_a_grid_that_does_not_fit() {
    let row = "1".repeat(101);
    let mut text = String::from("0 101 1\n");
    for _ in 0..101 {
        text.push_str(&row);
        text.push('\n');
    }
    assert_eq!(
        visualize(&text, "0", 0, &palette()).err().unwrap(),
        "Grid too large to draw: 101"
    );
}

#[test]
fn vis_without_option_replays_every_move() {
    let input = Input { id: 0, n: 2, k: 2, s: vec!["12".to_string(), "21".to_string()] };
    let output = Output { q: 2, yxc: vec![(1, 1, 2), (1, 1, 1)] };
    let r = vis(&input, &output, None, &palette()).ok().unwrap();
    assert_eq!(r.score, 4 - 2);
    assert_eq!(r.svg.to_string().matches("fill=\"#FF0000\"").count(), 4);
    let r = vis(&input, &output, Some(VisOption { turn: 1 }), &palette()).ok().unwrap();
    assert_eq!(r.score, 3 - 1);
}

#[test]
fn vis_reports_where_the_replay_stopped() {
    let input = Input { id: 0, n: 2, k: 2, s: vec!["12".to_string(), "21".to_string()] };
    let output = Output { q: 2, yxc: vec![(1, 1, 2), (3, 1, 1)] };
    match vis(&input, &output, None, &palette()) {
        Err(VisError::Replay(1, GridError::OutOfBounds)) => {}
        _ => panic!("expected the replay to stop at move 1"),
    }
    match vis(&input, &output, Some(VisOption { turn: 3 }), &palette()) {
        Err(VisError::Replay(1, GridError::OutOfBounds)) => {}
        _ => panic!("expected the replay to stop at move 1"),
    }
    assert!(vis(&input, &output, Some(VisOption { turn: 1 }), &palette()).is_ok());
}

#[test]
fn vis_error_messages() {
    assert_eq!(
        VisError::Input(TokenParseError::OutOfRange(3)).message(),
        "Failed to parse Input: Out of range: 3"
    );
    assert_eq!(VisError::TooLarge(250).message(), "Grid too large to draw: 250");
    assert_eq!(
        VisError::Replay(12, GridError::ReplayExhausted).message(),
        "Replay stopped at move 12: replay exhausted"
    );
}

#[test]
fn calc_max_turn_counts_the_moves() {
    assert_eq!(calc_max_turn("", "3\n1 1 1\n2 2 2\n3 3 3\n"), 3);
    assert_eq!(calc_max_turn("anything", "0"), 0);
    assert_eq!(calc_max_turn("0 1 1 1", "1 5 5 5"), 1);
}

#[test]
fn calc_max_turn_is_zero_for_unreadable_moves() {
    assert_eq!(calc_max_turn("", ""), 0);
    assert_eq!(calc_max_turn("", "   \n "), 0);
    assert_eq!(calc_max_turn("", "2 1 1 1"), 0);
    assert_eq!(calc_max_turn("", "x"), 0);
}

#[test]
fn gen_makes_a_full_grid_of_the_digits_one_to_nine() {
    let input = gen(5);
    assert_eq!((input.id, input.n, input.k), (0, 100, 9));
    assert_eq!(input.s.len(), 100);
    for row in &input.s {
        assert_eq!(row.len(), 100);
        assert!(row.chars().all(|c| ('1'..='9').contains(&c)));
    }
    let g = input.grid().ok().unwrap();
    assert_eq!(g.n(), 100);
    let total: usize = (1..=9).map(|c| g.count_color(c)).sum();
    assert_eq!(total, 10000);
    assert!((1..=9).all(|c| g.count_color(c) > 0));
}

#[test]
fn gen_is_decided_by_the_seed() {
    assert_eq!(gen(42).s, Input::gen(paint_bucket::gen::GenOption { seed: 42 }).s);
    assert_eq!(gen(42).s, gen(42).s);
    assert_ne!(gen(42).s, gen(43).s);
}

#[test]
fn generate_writes_a_puzzle_that_reads_back() {
    let text = generate(1, "a");
    assert!(text.starts_with(
        "0 100 9\n2946368344364173267447693371944721451719185249963382153326465329775972369897614499368192333875227213\n"
    ));
    assert_eq!(text, generate(1, "b"));
    assert_eq!(text, gen(1).to_text());
    assert_ne!(text, generate(2, "a"));
    assert_ne!(generate(-1, "a"), generate(1, "a"));
    let input = parse_input(&text).ok().unwrap();
    assert_eq!((input.id, input.n, input.k), (0, 100, 9));
    assert!(input.grid().is_ok());
    assert_eq!(text.len(), 8 + 100 * 101);
}

#[test]
fn judge_returns_score_and_grid() {
    let input = Input { id: 0, n: 3, k: 2, s: vec!["112".to_string(), "122".to_string(), "222".to_string()] };
    let output = Output { q: 1, yxc: vec![(1, 1, 2)] };
    let (score, grid) = paint_bucket::vis::judge(&input, &output, None).ok().unwrap();
    assert_eq!(score, 8);
    assert_eq!(grid.rows(), vec![vec![2, 2, 2], vec![2, 2, 2], vec![2, 2, 2]]);
    let (score, grid) =
        paint_bucket::vis::judge(&input, &output, Some(VisOption { turn: 0 })).ok().unwrap();
    assert_eq!(score, 6);
    assert_eq!(grid.rows(), vec![vec![1, 1, 2], vec![1, 2, 2], vec![2, 2, 2]]);
}

#[test]
fn calc_score_plays_every_move() {
    let input = Input { id: 0, n: 3, k: 2, s: vec!["112".to_string(), "122".to_string(), "222".to_string()] };
    let output = Output { q: 2, yxc: vec![(1, 1, 2), (3, 3, 1)] };
    assert_eq!(paint_bucket::vis::calc_score(&input, &output).ok(), Some(9 - 2));
    let output = Output { q: 1, yxc: vec![(4, 1, 2)] };
    match paint_bucket::vis::calc_score(&input, &output) {
        Err(VisError::Replay(0, GridError::OutOfBounds)) => {}
        _ => panic!("expected the replay to stop at move 0"),
    }
    let bad = Input { id: 0, n: 3, k: 2, s: vec![] };
    match paint_bucket::vis::calc_score(&bad, &output) {
        Err(VisError::Grid(GridError::InvalidDimension)) => {}
        _ => panic!("expected an invalid grid"),
    }
}

#[test]
fn judge_does_not_need_a_drawable_grid() {
    let n = 120;
    let input = Input { id: 0, n, k: 1, s: vec!["1".repeat(n); n] };
    let output = Output { q: 0, yxc: vec![] };
    assert_eq!(paint_bucket::vis::calc_score(&input, &output).ok(), Some((n * n) as i128));
    match vis(&input, &output, None, &palette()) {
        Err(VisError::TooLarge(120)) => {}
        _ => panic!("expected a grid too large to draw"),
    }
}

#[test]
fn moves_after_the_turn_have_no_effect() {
    let p = palette();
    let plain = visualize("0 1 1 1", "1 1 1 1", 1, &p).ok().unwrap();
    let r = visualize("0 1 1 1", "2 1 1 1 0 1 1", 1, &p).ok().unwrap();
    assert_eq!(r, plain);
    assert_eq!(r.0, 0);
    let r = visualize("0 1 1 1", "2 1 1 1 1 0 1", 1, &p).ok().unwrap();
    assert_eq!(r, plain);
    let r = visualize("0 1 1 1", "2 1 1 1 9 9 9", 1, &p).ok().unwrap();
    assert_eq!(r, plain);
    assert_eq!(
        visualize("0 1 1 1", "2 1 1 1 0 1 1", 2, &p).err().unwrap(),
        "Replay stopped at move 1: out of bounds"
    );
    let r = visualize("0 1 1 1", "1 0 1 1", 0, &p).ok().unwrap();
    assert_eq!(r.0, 1);
}

#[test]
fn judge_stops_at_a_move_written_with_zero() {
    let input = Input { id: 0, n: 2, k: 2, s: vec!["12".to_string(), "21".to_string()] };
    let output = Output { q: 3, yxc: vec![(1, 1, 2), (0, 1, 1), (1, 1, 1)] };
    let (score, grid) =
        paint_bucket::vis::judge(&input, &output, Some(VisOption { turn: 1 })).ok().unwrap();
    assert_eq!(score, 3 - 1);
    assert_eq!(grid.rows(), vec![vec![2, 2], vec![2, 1]]);
    match paint_bucket::vis::judge(&input, &output, Some(VisOption { turn: 2 })) {
        Err(VisError::Replay(1, GridError::OutOfBounds)) => {}
        _ => panic!("expected the replay to stop at move 1"),
    }
    match paint_bucket::vis::calc_score(&input, &output) {
        Err(VisError::Replay(1, GridError::OutOfBounds)) => {}
        _ => panic!("expected the replay to stop at move 1"),
    }
}

#[test]
fn max_turn_is_the_number_of_lists_less_one() {
    assert_eq!(max_turn("0 1 1 1", "1 1 1 1\n0\n2 1 1 1 1 1 1\n"), 2);
    assert_eq!(max_turn("0 1 1 1", "1 1 1 1"), 0);
    assert_eq!(max_turn("0 1 1 1", "0 0"), 1);
    assert_eq!(max_turn("0 1 1 1", ""), 0);
}

#[test]
fn max_turn_is_zero_where_a_text_cannot_be_read() {
    assert_eq!(max_turn("", "0 0 0"), 0);
    assert_eq!(max_turn("0 2 1 11", "0 0 0"), 0);
    assert_eq!(max_turn("0 1 1 1", "0 0 1 1 1"), 0);
    assert_eq!(max_turn("0 1 1 1", "0 x"), 0);
}

#[test]
fn puzzle_of_draws_fills_row_by_row() {
    let draws: Vec<usize> = (0..10000).map(|i| 1 + (i * 7 + i / 100) % 9).collect();
    let input = puzzle_of_draws(&draws).unwrap();
    assert_eq!((input.id, input.n, input.k), (0, 100, 9));
    assert_eq!(input.s.len(), 100);
    for r in 0..100 {
        let row: Vec<char> = input.s[r].chars().collect();
        assert_eq!(row.len(), 100);
        for c in 0..100 {
            assert_eq!(row[c].to_digit(10), Some(draws[r * 100 + c] as u32));
        }
    }
    assert!(input.s[0].starts_with("18642975318"));
}

#[test]
fn puzzle_of_draws_refuses_what_cannot_fill_a_puzzle() {
    assert!(puzzle_of_draws(&vec![]).is_none());
    assert!(puzzle_of_draws(&vec![1; 9999]).is_none());
    assert!(puzzle_of_draws(&vec![1; 10001]).is_none());
    let mut draws = vec![5; 10000];
    assert!(puzzle_of_draws(&draws).is_some());
    draws[9999] = 0;
    assert!(puzzle_of_draws(&draws).is_none());
    draws[9999] = 10;
    assert!(puzzle_of_draws(&draws).is_none());
    draws[9999] = 9;
    assert!(puzzle_of_draws(&draws).is_some());
}
