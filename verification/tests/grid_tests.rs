use hashring::grid::HashRingGrid;

#[test]
fn grid_has_fixed_size() {
    let grid = HashRingGrid::new(3);
    assert_eq!(grid.size(), 3);
    assert!(grid.ring(0).is_some());
    assert!(grid.ring(2).is_some());
    assert!(grid.ring(3).is_none());
}

#[test]
fn empty_grid_is_legal() {
    let grid = HashRingGrid::new(0);
    assert_eq!(grid.size(), 0);
    assert!(grid.ring(0).is_none());
    // No usable slots: both operations are silent no-ops.
    grid.add_to_ring(0, 1);
    grid.delete_from_ring(0, 1);
}

#[test]
fn out_of_range_index_is_silent_noop() {
    // index == size (one past the end) and a huge index: no observable
    // state change, no error.
    let grid = HashRingGrid::new(2);
    grid.add_to_ring(2, 5);
    grid.add_to_ring(usize::MAX, 5);
    assert_eq!(grid.ring(0).unwrap().get(5), None);
    assert_eq!(grid.ring(1).unwrap().get(5), None);
    grid.delete_from_ring(2, 5);
    grid.delete_from_ring(usize::MAX, 5);
    assert_eq!(grid.ring(0).unwrap().get(5), None);
    assert_eq!(grid.ring(1).unwrap().get(5), None);
}

#[test]
fn rings_in_a_grid_are_independent() {
    let grid = HashRingGrid::new(2);
    grid.add_to_ring(0, 8);
    assert_eq!(grid.ring(0).unwrap().get(8), Some(8));
    assert_eq!(grid.ring(1).unwrap().get(8), None);
}

#[test]
fn three_ring_scenario() {
    // Items carry the bit patterns of the decimal values 1.23, 4.56 and
    // 7.89, one per ring; each ring holds a single entry, so any lookup
    // against it resolves to that entry.
    let a = f64::to_bits(1.23);
    let b = f64::to_bits(4.56);
    let c = f64::to_bits(7.89);
    let grid = HashRingGrid::new(3);
    grid.add_to_ring(0, a);
    grid.add_to_ring(1, b);
    grid.add_to_ring(2, c);
    assert_eq!(grid.ring(0).unwrap().get(a), Some(a));
    assert_eq!(grid.ring(1).unwrap().get(a), Some(b));
    assert_eq!(grid.ring(2).unwrap().get(a), Some(c));
    assert_eq!(f64::from_bits(grid.ring(0).unwrap().get(a).unwrap()), 1.23);
    assert_eq!(f64::from_bits(grid.ring(1).unwrap().get(a).unwrap()), 4.56);
    assert_eq!(f64::from_bits(grid.ring(2).unwrap().get(a).unwrap()), 7.89);
    grid.delete_from_ring(0, a);
    assert_eq!(grid.ring(0).unwrap().get(a), None);
    assert_eq!(grid.ring(1).unwrap().get(a), Some(b));
    assert_eq!(grid.ring(2).unwrap().get(a), Some(c));
}
