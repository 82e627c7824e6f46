use paint_bucket::error::GridError;
use paint_bucket::grid::Grid;

fn grid(k: usize, rows: Vec<Vec<usize>>) -> Grid {
    Grid::new(rows.len(), k, rows).unwrap()
}

#[test]
fn fill_corner_region_of_three_by_three() {
    let mut g = grid(2, vec![vec![1, 1, 2], vec![1, 2, 2], vec![2, 2, 2]]);
    assert_eq!(g.flood_fill(0, 0, 2), Ok(3));
    assert_eq!(g.rows(), vec![vec![2, 2, 2], vec![2, 2, 2], vec![2, 2, 2]]);
    assert_eq!(g.score(1), 8);
}

#[test]
fn fill_isolated_cell_changes_one_cell() {
    let mut g = grid(3, vec![vec![1, 2, 1], vec![2, 1, 2], vec![1, 2, 1]]);
    assert_eq!(g.flood_fill(1, 1, 3), Ok(1));
    assert_eq!(g.rows(), vec![vec![1, 2, 1], vec![2, 3, 2], vec![1, 2, 1]]);
}

#[test]
fn fill_with_own_colour_changes_nothing() {
    let rows = vec![vec![1, 1, 2], vec![1, 2, 2], vec![2, 2, 2]];
    let mut g = grid(2, rows.clone());
    assert_eq!(g.flood_fill(0, 0, 1), Ok(3));
    assert_eq!(g.rows(), rows);
    assert_eq!(g.flood_fill(2, 2, 2), Ok(6));
    assert_eq!(g.rows(), rows);
}

#[test]
fn fill_does_not_cross_diagonals() {
    let mut g = grid(2, vec![vec![1, 2], vec![2, 1]]);
    assert_eq!(g.flood_fill(0, 0, 0), Ok(1));
    assert_eq!(g.rows(), vec![vec![0, 2], vec![2, 1]]);
}

#[test]
fn fill_stops_at_cells_that_already_have_the_new_colour() {
    let mut g = grid(2, vec![vec![1, 2], vec![2, 2]]);
    assert_eq!(g.flood_fill(0, 0, 2), Ok(1));
    assert_eq!(g.rows(), vec![vec![2, 2], vec![2, 2]]);
}

#[test]
fn fill_follows_a_winding_region() {
    let mut g = grid(
        3,
        vec![
            vec![1, 1, 1, 1],
            vec![2, 2, 2, 1],
            vec![1, 1, 1, 1],
            vec![1, 2, 2, 2],
        ],
    );
    assert_eq!(g.flood_fill(3, 0, 3), Ok(10));
    assert_eq!(
        g.rows(),
        vec![
            vec![3, 3, 3, 3],
            vec![2, 2, 2, 3],
            vec![3, 3, 3, 3],
            vec![3, 2, 2, 2],
        ]
    );
}

#[test]
fn fill_leaves_other_regions_of_the_same_colour() {
    let mut g = grid(2, vec![vec![1, 2, 1], vec![1, 2, 1], vec![1, 2, 1]]);
    assert_eq!(g.flood_fill(0, 0, 0), Ok(3));
    assert_eq!(g.rows(), vec![vec![0, 2, 1], vec![0, 2, 1], vec![0, 2, 1]]);
}

#[test]
fn fill_whole_grid() {
    let mut g = grid(1, vec![vec![1, 1], vec![1, 1]]);
    assert_eq!(g.flood_fill(1, 1, 0), Ok(4));
    assert_eq!(g.rows(), vec![vec![0, 0], vec![0, 0]]);
}

#[test]
fn fill_single_cell_grid() {
    let mut g = grid(5, vec![vec![4]]);
    assert_eq!(g.flood_fill(0, 0, 5), Ok(1));
    assert_eq!(g.rows(), vec![vec![5]]);
}

#[test]
fn fill_out_of_bounds_changes_nothing() {
    let rows = vec![vec![1, 1, 2], vec![1, 2, 2], vec![2, 2, 2]];
    let mut g = grid(2, rows.clone());
    assert_eq!(g.flood_fill(3, 0, 1), Err(GridError::OutOfBounds));
    assert_eq!(g.flood_fill(0, 3, 1), Err(GridError::OutOfBounds));
    assert_eq!(g.flood_fill(usize::MAX, 0, 1), Err(GridError::OutOfBounds));
    assert_eq!(g.rows(), rows);
}

#[test]
fn fill_out_of_bounds_comes_before_invalid_colour() {
    let mut g = grid(2, vec![vec![1]]);
    assert_eq!(g.flood_fill(1, 0, 7), Err(GridError::OutOfBounds));
}

#[test]
fn fill_invalid_colour_changes_nothing() {
    let rows = vec![vec![1, 1], vec![1, 2]];
    let mut g = grid(2, rows.clone());
    assert_eq!(g.flood_fill(0, 0, 3), Err(GridError::InvalidColor));
    assert_eq!(g.rows(), rows);
}

#[test]
fn fill_large_uniform_grid() {
    let n = 60;
    let mut g = grid(9, vec![vec![7; n]; n]);
    assert_eq!(g.flood_fill(30, 30, 9), Ok(n * n));
    assert_eq!(g.rows(), vec![vec![9; n]; n]);
    assert_eq!(g.count_color(9), n * n);
}

#[test]
fn fill_moves_the_region_from_one_colour_count_to_the_other() {
    let mut g = grid(3, vec![vec![1, 1, 2], vec![1, 2, 2], vec![3, 1, 2]]);
    let before: Vec<usize> = (0..=3).map(|c| g.count_color(c)).collect();
    let size = g.flood_fill(0, 0, 3).unwrap();
    assert_eq!(size, 3);
    assert_eq!(g.count_color(3), before[3] + size);
    assert_eq!(g.count_color(1), before[1] - size);
    assert_eq!(g.count_color(2), before[2]);
    assert_eq!(g.count_color(0), before[0]);
}
