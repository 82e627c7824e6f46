use paint_bucket::grid::Grid;

fn grid(k: usize, rows: Vec<Vec<usize>>) -> Grid {
    Grid::new(rows.len(), k, rows).unwrap()
}

#[test]
fn count_color_counts_cells_anywhere() {
    let g = grid(3, vec![vec![1, 2, 1], vec![2, 1, 2], vec![1, 2, 1]]);
    assert_eq!(g.count_color(1), 5);
    assert_eq!(g.count_color(2), 4);
    assert_eq!(g.count_color(3), 0);
    assert_eq!(g.count_color(0), 0);
    assert_eq!(g.count_color(77), 0);
}

#[test]
fn max_color_count_takes_the_most_frequent_colour() {
    let g = grid(3, vec![vec![1, 2, 1], vec![2, 1, 2], vec![1, 2, 1]]);
    assert_eq!(g.max_color_count(), 5);
    let g = grid(2, vec![vec![1, 1, 2], vec![1, 2, 2], vec![2, 2, 2]]);
    assert_eq!(g.max_color_count(), 6);
}

#[test]
fn colour_zero_is_not_scored() {
    let g = grid(2, vec![vec![0, 0], vec![0, 1]]);
    assert_eq!(g.count_color(0), 3);
    assert_eq!(g.max_color_count(), 1);
    assert_eq!(g.score(0), 1);
}

#[test]
fn no_colours_score_nothing() {
    let g = grid(0, vec![vec![0, 0], vec![0, 0]]);
    assert_eq!(g.max_color_count(), 0);
    assert_eq!(g.score(2), -2);
}

#[test]
fn score_is_largest_count_less_moves() {
    let g = grid(2, vec![vec![1, 1, 2], vec![1, 2, 2], vec![2, 2, 2]]);
    assert_eq!(g.score(0), 6);
    assert_eq!(g.score(1), 5);
    assert_eq!(g.score(6), 0);
}

#[test]
fn score_can_be_negative() {
    let g = grid(2, vec![vec![1, 2], vec![2, 1]]);
    assert_eq!(g.score(5), -3);
    assert_eq!(g.score(usize::MAX), 2 - (usize::MAX as i128));
}
