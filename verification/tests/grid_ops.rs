use fontpad::grid::Grid;
use fontpad::grid::GridError;

fn grid_with(width: usize, height: usize, on: &[usize]) -> Grid {
    let mut cells = vec![false; width * height];
    for &i in on {
        cells[i] = true;
    }
    Grid::from_parts(width, height, cells).expect("valid grid")
}

#[test]
fn new_grid_is_five_by_five_all_off() {
    let g = Grid::new();
    assert_eq!(g.width(), 5);
    assert_eq!(g.height(), 5);
    assert_eq!(g.cell_count(), 25);
    assert!(g.cells().iter().all(|&b| !b));
}

#[test]
fn from_parts_validates_bounds_and_length() {
    assert!(Grid::from_parts(3, 5, vec![false; 15]).is_none());
    assert!(Grid::from_parts(25, 5, vec![false; 125]).is_none());
    assert!(Grid::from_parts(5, 5, vec![false; 24]).is_none());
    assert!(Grid::from_parts(4, 24, vec![false; 96]).is_some());
}

#[test]
fn toggle_flips_and_reports_out_of_range() {
    let mut g = Grid::new();
    assert_eq!(g.toggle(12), Ok(()));
    assert!(g.get(12));
    assert_eq!(g.toggle(12), Ok(()));
    assert!(!g.get(12));
    let before = g.cells_snapshot();
    assert_eq!(g.toggle(25), Err(GridError::OutOfRange));
    assert_eq!(g.cells_snapshot(), before);
}

#[test]
fn clear_and_fill_set_every_cell() {
    let mut g = Grid::new();
    g.fill();
    assert!(g.cells().iter().all(|&b| b));
    g.clear();
    assert!(g.cells().iter().all(|&b| !b));
}

#[test]
fn resize_width_grows_within_bounds_and_clears() {
    let mut g = grid_with(5, 5, &[0, 12]);
    g.resize_width(1);
    assert_eq!(g.width(), 6);
    assert_eq!(g.height(), 5);
    assert_eq!(g.cell_count(), 30);
    assert!(g.cells().iter().all(|&b| !b));
}

#[test]
fn resize_width_at_maximum_is_a_no_op_on_width_but_clears() {
    let mut g = grid_with(24, 5, &[3, 40]);
    g.resize_width(1);
    assert_eq!(g.width(), 24);
    assert_eq!(g.height(), 5);
    assert!(g.cells().iter().all(|&b| !b));
}

#[test]
fn resize_at_minimum_is_a_no_op_on_size_but_clears() {
    let mut g = grid_with(4, 4, &[1]);
    g.resize_width(-1);
    assert_eq!(g.width(), 4);
    assert!(g.cells().iter().all(|&b| !b));
    let mut g = grid_with(4, 4, &[1]);
    g.resize_height(-1);
    assert_eq!(g.height(), 4);
    assert!(g.cells().iter().all(|&b| !b));
}

#[test]
fn resize_height_shrinks_within_bounds_and_clears() {
    let mut g = grid_with(5, 6, &[7]);
    g.resize_height(-1);
    assert_eq!(g.width(), 5);
    assert_eq!(g.height(), 5);
    assert!(g.cells().iter().all(|&b| !b));
}

#[test]
fn flip_horizontal_mirrors_each_row() {
    // 5 wide, 4 tall; one mark at column 1 of row 2
    let mut g = grid_with(5, 4, &[11]);
    g.flip_horizontal();
    assert!(g.get(13));
    assert!(!g.get(11));
}

#[test]
fn flip_vertical_mirrors_the_rows() {
    let mut g = grid_with(5, 4, &[11]);
    g.flip_vertical();
    // row 2 of 4 maps to row 1, same column 1
    assert!(g.get(6));
    assert!(!g.get(11));
}

#[test]
fn flip_horizontal_twice_restores_the_grid() {
    let mut g = grid_with(6, 4, &[0, 7, 13, 22]);
    let before = g.cells_snapshot();
    g.flip_horizontal();
    g.flip_horizontal();
    assert_eq!(g.cells_snapshot(), before);
}

#[test]
fn flip_vertical_twice_restores_the_grid() {
    let mut g = grid_with(6, 5, &[1, 8, 17, 29]);
    let before = g.cells_snapshot();
    g.flip_vertical();
    g.flip_vertical();
    assert_eq!(g.cells_snapshot(), before);
}

#[test]
fn shift_up_wraps_the_top_row_to_the_bottom() {
    let mut g = grid_with(4, 4, &[1, 5]);
    g.shift_up();
    // old row 1 becomes row 0; old row 0 wraps to row 3
    assert!(g.get(1));
    assert!(g.get(13));
    assert!(!g.get(5));
}

#[test]
fn shift_down_wraps_the_bottom_row_to_the_top() {
    let mut g = grid_with(4, 4, &[13, 1]);
    g.shift_down();
    assert!(g.get(1));
    assert!(g.get(5));
    assert!(!g.get(13));
}

#[test]
fn shift_up_then_down_restores_the_grid() {
    let mut g = grid_with(5, 4, &[0, 6, 12, 18, 19]);
    let before = g.cells_snapshot();
    g.shift_up();
    g.shift_down();
    assert_eq!(g.cells_snapshot(), before);
    g.shift_down();
    g.shift_up();
    assert_eq!(g.cells_snapshot(), before);
}

#[test]
fn shift_left_rotates_the_first_four_cells_of_each_row() {
    // row 0 of a 6-wide grid: cells 0..6
    let mut g = grid_with(6, 4, &[0, 4]);
    g.shift_left();
    // first cell moves three places in; cells at offset 1..=3 step back one
    assert!(g.get(3));
    assert!(g.get(4));
    assert!(!g.get(0));
}

#[test]
fn shift_right_rotates_the_first_four_cells_back() {
    let mut g = grid_with(6, 4, &[3, 4]);
    g.shift_right();
    assert!(g.get(0));
    assert!(g.get(4));
    assert!(!g.get(3));
}

#[test]
fn shift_left_then_right_restores_the_grid() {
    let mut g = grid_with(7, 5, &[0, 3, 9, 16, 24, 30]);
    let before = g.cells_snapshot();
    g.shift_left();
    g.shift_right();
    assert_eq!(g.cells_snapshot(), before);
}
