use sway::broadphase::{
    broadphase_pairs, find_potential_pairs, generate_grid_entries, should_resolve, sort_by_cell, CellRange,
};
use sway::cell::CellEntry;

fn range(min_x: i32, max_x: i32, min_y: i32, max_y: i32) -> CellRange {
    CellRange { min_x, max_x, min_y, max_y }
}

fn sorted(mut v: Vec<(usize, usize)>) -> Vec<(usize, usize)> {
    v.sort();
    v
}

#[test]
fn grid_entries_cover_every_cell_of_each_collider() {
    let es = generate_grid_entries(&vec![range(0, 1, 0, 0), range(-1, -1, 2, 3)]);
    let rows: Vec<(i32, i32, usize)> = es.iter().map(|c| (c.cell_x, c.cell_y, c.collider_index)).collect();
    assert_eq!(rows, vec![(0, 0, 0), (1, 0, 0), (-1, 2, 1), (-1, 3, 1)]);
}

#[test]
fn empty_range_has_no_entries() {
    assert!(generate_grid_entries(&vec![range(1, 0, 0, 0)]).is_empty());
}

#[test]
fn entries_sorted_by_cell() {
    let es = vec![
        CellEntry { cell_x: 1, cell_y: 0, collider_index: 0 },
        CellEntry { cell_x: 0, cell_y: 5, collider_index: 1 },
        CellEntry { cell_x: 0, cell_y: -2, collider_index: 2 },
    ];
    let s = sort_by_cell(&es);
    let cells: Vec<(i32, i32)> = s.iter().map(|c| (c.cell_x, c.cell_y)).collect();
    assert_eq!(cells, vec![(0, -2), (0, 5), (1, 0)]);
}

#[test]
fn pairs_come_from_shared_cells() {
    let s = vec![
        CellEntry { cell_x: 0, cell_y: 0, collider_index: 2 },
        CellEntry { cell_x: 0, cell_y: 0, collider_index: 0 },
        CellEntry { cell_x: 0, cell_y: 1, collider_index: 1 },
        CellEntry { cell_x: 0, cell_y: 1, collider_index: 2 },
    ];
    assert_eq!(sorted(find_potential_pairs(&s)), vec![(0, 2), (1, 2)]);
}

#[test]
fn broadphase_pairs_overlapping_ranges_once() {
    // 0 and 1 share two cells; 2 is apart; 3 touches 1 at a corner
    let ranges = vec![range(0, 1, 0, 1), range(1, 2, 0, 1), range(5, 6, 5, 6), range(2, 3, 1, 2)];
    assert_eq!(sorted(broadphase_pairs(&ranges)), vec![(0, 1), (1, 3)]);
}

#[test]
fn broadphase_without_colliders() {
    assert!(broadphase_pairs(&vec![]).is_empty());
}

#[test]
fn same_group_is_not_resolved() {
    assert!(!should_resolve(Some(1), Some(1)));
    assert!(should_resolve(Some(1), Some(2)));
    assert!(should_resolve(None, Some(2)));
    assert!(should_resolve(None, None));
}

#[test]
fn cell_comparisons() {
    let a = CellEntry { cell_x: 0, cell_y: 3, collider_index: 9 };
    let b = CellEntry { cell_x: 0, cell_y: 3, collider_index: 1 };
    let c = CellEntry { cell_x: 1, cell_y: -7, collider_index: 1 };
    assert!(a.same_cell(&b));
    assert!(!a.cell_before(&b));
    assert!(a.cell_before(&c));
    assert!(!c.cell_before(&a));
    // equality and order go by the cell alone
    assert!(a == b);
    assert!(a != c);
    assert!(a < c);
    assert!(c > b);
    assert_eq!(a.partial_cmp(&b), Some(std::cmp::Ordering::Equal));
}
