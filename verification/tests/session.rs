use fontpad::addressing::cell_at;
use fontpad::addressing::pointer_toggle;
use fontpad::grid::Grid;
use fontpad::history::HistoryTrack;

// A 240 by 240 region and a 5 by 5 grid: the scaled smaller side is 235,
// one cell caps at 20 pixels, so the drawn grid is 100 by 100 starting at
// (70, 70).

#[test]
fn cell_at_finds_corner_and_center_cells() {
    let g = Grid::new();
    assert_eq!(cell_at(&g, 0, 0, 240, 240, 70, 70), Some(0));
    assert_eq!(cell_at(&g, 0, 0, 240, 240, 89, 89), Some(0));
    assert_eq!(cell_at(&g, 0, 0, 240, 240, 90, 90), Some(6));
    assert_eq!(cell_at(&g, 0, 0, 240, 240, 110, 110), Some(12));
    assert_eq!(cell_at(&g, 0, 0, 240, 240, 169, 169), Some(24));
}

#[test]
fn cell_at_outside_the_drawn_grid_is_none() {
    let g = Grid::new();
    assert_eq!(cell_at(&g, 0, 0, 240, 240, 69, 70), None);
    assert_eq!(cell_at(&g, 0, 0, 240, 240, 70, 69), None);
    assert_eq!(cell_at(&g, 0, 0, 240, 240, 170, 70), None);
    assert_eq!(cell_at(&g, 0, 0, 240, 240, 70, 170), None);
    assert_eq!(cell_at(&g, 0, 0, 240, 240, 0, 0), None);
}

#[test]
fn cell_at_follows_a_moved_region() {
    let g = Grid::new();
    // the same drawn grid, shifted by the region's position
    assert_eq!(cell_at(&g, 60, 4, 240, 240, 130, 74), Some(0));
    assert_eq!(cell_at(&g, 60, 4, 240, 240, 129, 74), None);
}

#[test]
fn pointer_toggle_flips_once_per_cell_during_a_drag() {
    let mut g = Grid::new();
    let hit = pointer_toggle(&mut g, 0, 0, 240, 240, 75, 75, None);
    assert_eq!(hit, Some(0));
    assert!(g.get(0));
    // still on the same cell: the drag must not re-toggle it
    let again = pointer_toggle(&mut g, 0, 0, 240, 240, 76, 76, Some(0));
    assert_eq!(again, None);
    assert!(g.get(0));
    // coming back from another cell toggles it off again
    let back = pointer_toggle(&mut g, 0, 0, 240, 240, 75, 75, Some(3));
    assert_eq!(back, Some(0));
    assert!(!g.get(0));
}

#[test]
fn pointer_toggle_off_the_grid_changes_nothing() {
    let mut g = Grid::new();
    let before = g.cells_snapshot();
    assert_eq!(pointer_toggle(&mut g, 0, 0, 240, 240, 10, 10, None), None);
    assert_eq!(g.cells_snapshot(), before);
}

#[test]
fn repeated_commits_of_an_unchanged_grid_push_one_entry() {
    let mut g = Grid::new();
    g.toggle(12).unwrap();
    let mut track = HistoryTrack::new(&g, 56);
    track.observe(&g);
    track.commit();
    track.commit();
    track.commit();
    assert_eq!(track.len(), 1);
    assert_eq!(*track.entry(0), g.cells_snapshot());
}

#[test]
fn observe_after_a_resize_clears_the_history() {
    let mut g = Grid::new();
    let mut track = HistoryTrack::new(&g, 56);
    track.commit();
    assert_eq!(track.len(), 1);
    g.resize_width(1);
    track.observe(&g);
    assert_eq!(track.len(), 0);
}

#[test]
fn observe_with_the_same_size_keeps_the_history() {
    let mut g = Grid::new();
    let mut track = HistoryTrack::new(&g, 56);
    track.commit();
    g.toggle(3).unwrap();
    track.observe(&g);
    assert_eq!(track.len(), 1);
    track.commit();
    assert_eq!(track.len(), 2);
}

#[test]
fn commits_evict_the_oldest_entries_once_over_budget() {
    // 5 cells per snapshot, room for two snapshots only
    let mut g = Grid::new();
    let mut track = HistoryTrack::new(&g, 12);
    g.toggle(0).unwrap();
    track.observe(&g);
    track.commit();
    let first = g.cells_snapshot();
    g.toggle(1).unwrap();
    track.observe(&g);
    track.commit();
    let second = g.cells_snapshot();
    assert_eq!(track.len(), 2);
    assert_eq!(*track.entry(0), first);
    g.toggle(2).unwrap();
    track.observe(&g);
    track.commit();
    let third = g.cells_snapshot();
    assert_eq!(track.len(), 2);
    assert_eq!(*track.entry(0), second);
    assert_eq!(*track.entry(1), third);
}
