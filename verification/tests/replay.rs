use paint_bucket::error::GridError;
use paint_bucket::grid::Grid;
use paint_bucket::replay::{replay, Operation, Replay};

fn start() -> Grid {
    Grid::new(3, 3, vec![vec![1, 1, 2], vec![1, 2, 2], vec![3, 3, 2]]).unwrap()
}

fn op(row: usize, col: usize, color: usize) -> Operation {
    Operation { row, col, color }
}

fn moves() -> Vec<Operation> {
    vec![op(0, 0, 2), op(2, 0, 2), op(1, 1, 1)]
}

#[test]
fn zero_moves_return_the_initial_grid() {
    let r = Replay::new(start(), moves());
    assert_eq!(r.prefix_index(), 0);
    assert_eq!(r.len(), 3);
    assert_eq!(r.grid().rows(), start().rows());
    assert_eq!(r.score(), 4);
    let g = r.state_after(0).ok().unwrap();
    assert_eq!(g.rows(), start().rows());
    assert_eq!(r.score_after(0).ok(), Some(4));
}

#[test]
fn zero_moves_on_an_empty_list() {
    let r = Replay::new(start(), vec![]);
    assert!(r.is_finished());
    assert_eq!(r.score(), 4);
    assert_eq!(r.trace().ok().unwrap().len(), 1);
}

#[test]
fn advance_plays_moves_in_order() {
    let mut r = Replay::new(start(), moves());
    assert_eq!(r.advance(), Ok(3));
    assert_eq!(r.prefix_index(), 1);
    assert_eq!(r.grid().rows(), vec![vec![2, 2, 2], vec![2, 2, 2], vec![3, 3, 2]]);
    assert_eq!(r.score(), 7 - 1);
    assert!(!r.is_finished());
    assert_eq!(r.advance(), Ok(2));
    assert_eq!(r.grid().rows(), vec![vec![2, 2, 2], vec![2, 2, 2], vec![2, 2, 2]]);
    assert_eq!(r.score(), 9 - 2);
    assert_eq!(r.advance(), Ok(9));
    assert_eq!(r.grid().rows(), vec![vec![1, 1, 1], vec![1, 1, 1], vec![1, 1, 1]]);
    assert_eq!(r.score(), 9 - 3);
    assert!(r.is_finished());
}

#[test]
fn advance_past_the_end_is_exhausted() {
    let mut r = Replay::new(start(), vec![op(0, 0, 3)]);
    assert_eq!(r.advance(), Ok(3));
    let rows = r.grid().rows();
    assert_eq!(r.advance(), Err(GridError::ReplayExhausted));
    assert_eq!(r.advance(), Err(GridError::ReplayExhausted));
    assert_eq!(r.prefix_index(), 1);
    assert_eq!(r.grid().rows(), rows);
}

#[test]
fn advance_refuses_a_move_off_the_grid() {
    let mut r = Replay::new(start(), vec![op(0, 0, 2), op(3, 0, 1), op(0, 0, 1)]);
    assert_eq!(r.advance(), Ok(3));
    let rows = r.grid().rows();
    assert_eq!(r.advance(), Err(GridError::OutOfBounds));
    assert_eq!(r.prefix_index(), 1);
    assert_eq!(r.grid().rows(), rows);
    assert_eq!(r.advance(), Err(GridError::OutOfBounds));
}

#[test]
fn advance_refuses_a_colour_above_the_count() {
    let mut r = Replay::new(start(), vec![op(0, 0, 4)]);
    assert_eq!(r.advance(), Err(GridError::InvalidColor));
    assert_eq!(r.prefix_index(), 0);
    assert_eq!(r.grid().rows(), start().rows());
}

#[test]
fn state_after_every_prefix() {
    let r = Replay::new(start(), moves());
    let expect = vec![
        vec![vec![1, 1, 2], vec![1, 2, 2], vec![3, 3, 2]],
        vec![vec![2, 2, 2], vec![2, 2, 2], vec![3, 3, 2]],
        vec![vec![2, 2, 2], vec![2, 2, 2], vec![2, 2, 2]],
        vec![vec![1, 1, 1], vec![1, 1, 1], vec![1, 1, 1]],
    ];
    for t in 0..=3 {
        assert_eq!(r.state_after(t).ok().unwrap().rows(), expect[t]);
    }
    assert_eq!(r.prefix_index(), 0);
    let trace = r.trace().ok().unwrap();
    assert_eq!(trace.len(), 4);
    for t in 0..=3 {
        assert_eq!(trace[t].rows(), expect[t]);
    }
}

#[test]
fn state_after_does_not_disturb_the_replay_in_progress() {
    let mut r = Replay::new(start(), moves());
    r.advance().unwrap();
    let rows = r.grid().rows();
    let _ = r.state_after(3);
    assert_eq!(r.prefix_index(), 1);
    assert_eq!(r.grid().rows(), rows);
}

#[test]
fn state_after_beyond_the_moves_is_exhausted() {
    let r = Replay::new(start(), moves());
    let f = r.state_after(4).err().unwrap();
    assert_eq!(f.index, 3);
    assert_eq!(f.reason, GridError::ReplayExhausted);
    assert_eq!(f.grid.rows(), vec![vec![1, 1, 1], vec![1, 1, 1], vec![1, 1, 1]]);
    assert!(r.score_after(4).is_err());
}

#[test]
fn replay_stops_at_the_first_bad_move_with_the_state_reached() {
    let ops = vec![op(0, 0, 2), op(0, 9, 1), op(0, 0, 1)];
    let f = replay(&start(), &ops, 3).err().unwrap();
    assert_eq!(f.index, 1);
    assert_eq!(f.reason, GridError::OutOfBounds);
    assert_eq!(f.grid.rows(), vec![vec![2, 2, 2], vec![2, 2, 2], vec![3, 3, 2]]);
    let g = replay(&start(), &ops, 1).ok().unwrap();
    assert_eq!(g.rows(), vec![vec![2, 2, 2], vec![2, 2, 2], vec![3, 3, 2]]);
    let f = replay(&start(), &ops, 2).err().unwrap();
    assert_eq!(f.index, 1);
    let r = Replay::new(start(), ops);
    let f = r.trace().err().unwrap();
    assert_eq!(f.index, 1);
    assert_eq!(f.reason, GridError::OutOfBounds);
}

#[test]
fn replay_reports_an_invalid_colour() {
    let ops = vec![op(0, 0, 9)];
    let f = replay(&start(), &ops, 1).err().unwrap();
    assert_eq!(f.index, 0);
    assert_eq!(f.reason, GridError::InvalidColor);
    assert_eq!(f.grid.rows(), start().rows());
}

#[test]
fn score_changes_by_the_change_of_the_largest_count_less_one() {
    let r = Replay::new(start(), moves());
    let trace = r.trace().ok().unwrap();
    for t in 0..3 {
        let before = r.score_after(t).ok().unwrap();
        let after = r.score_after(t + 1).ok().unwrap();
        let delta = trace[t + 1].max_color_count() as i128 - trace[t].max_color_count() as i128;
        assert_eq!(after - before, delta - 1);
    }
    assert_eq!(r.score_after(1).ok(), Some(6));
    assert_eq!(r.score_after(2).ok(), Some(7));
    assert_eq!(r.score_after(3).ok(), Some(6));
}

#[test]
fn replaying_twice_gives_the_same_grids_and_scores() {
    let a = Replay::new(start(), moves());
    let b = Replay::new(start(), moves());
    for t in 0..=3 {
        assert_eq!(a.state_after(t).ok().unwrap().rows(), b.state_after(t).ok().unwrap().rows());
        assert_eq!(a.score_after(t).ok(), b.score_after(t).ok());
    }
    let fa = a.state_after(7).err().unwrap();
    let fb = b.state_after(7).err().unwrap();
    assert_eq!(fa.index, fb.index);
    assert_eq!(fa.reason, fb.reason);
    assert_eq!(fa.grid.rows(), fb.grid.rows());
}

#[test]
fn advancing_agrees_with_replaying_from_the_start() {
    let mut r = Replay::new(start(), moves());
    for t in 1..=3 {
        r.advance().unwrap();
        assert_eq!(r.grid().rows(), r.state_after(t).ok().unwrap().rows());
        assert_eq!(Some(r.score()), r.score_after(t).ok());
    }
}
