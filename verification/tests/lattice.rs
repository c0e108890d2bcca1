use percolation::lattice::{cell_count, is_in_bounds, Lattice};

#[test]
fn cell_count_is_the_cube_of_the_side() {
    assert_eq!(cell_count(0), Some(0));
    assert_eq!(cell_count(1), Some(1));
    assert_eq!(cell_count(2), Some(8));
    assert_eq!(cell_count(20), Some(8000));
}

#[test]
fn cell_count_refuses_a_cube_that_does_not_fit() {
    assert_eq!(cell_count(usize::MAX), None);
    assert_eq!(cell_count(usize::MAX / 2), None);
}

#[test]
fn uniform_lattice_holds_one_value_everywhere() {
    for value in [false, true] {
        let lattice = Lattice::uniform(3, value).unwrap();
        assert_eq!(lattice.side(), 3);
        for x in 0..3 {
            for y in 0..3 {
                for z in 0..3 {
                    assert_eq!(lattice.get(x, y, z), value);
                }
            }
        }
    }
}

#[test]
fn uniform_lattice_of_side_zero_has_no_cells() {
    let lattice = Lattice::uniform(0, true).unwrap();
    assert_eq!(lattice.side(), 0);
}

#[test]
fn uniform_refuses_a_side_whose_cube_does_not_fit() {
    assert!(Lattice::uniform(usize::MAX, false).is_none());
}

#[test]
fn from_cells_reads_the_values_in_scan_order() {
    let mut cells = vec![false; 27];
    // (x, y, z) stands at (x * 3 + y) * 3 + z
    cells[(1 * 3 + 2) * 3 + 0] = true;
    cells[(2 * 3 + 0) * 3 + 1] = true;
    let lattice = Lattice::from_cells(3, cells).unwrap();
    for x in 0..3 {
        for y in 0..3 {
            for z in 0..3 {
                let expected = (x, y, z) == (1, 2, 0) || (x, y, z) == (2, 0, 1);
                assert_eq!(lattice.get(x, y, z), expected);
            }
        }
    }
}

#[test]
fn from_cells_refuses_a_wrong_number_of_values() {
    assert!(Lattice::from_cells(2, vec![false; 7]).is_none());
    assert!(Lattice::from_cells(2, vec![false; 9]).is_none());
    assert!(Lattice::from_cells(2, vec![false; 8]).is_some());
    assert!(Lattice::from_cells(0, vec![]).is_some());
    assert!(Lattice::from_cells(usize::MAX, vec![false; 1]).is_none());
}

#[test]
fn set_changes_one_cell_and_no_other() {
    let mut lattice = Lattice::uniform(3, false).unwrap();
    lattice.set(2, 1, 0, true);
    for x in 0..3 {
        for y in 0..3 {
            for z in 0..3 {
                assert_eq!(lattice.get(x, y, z), (x, y, z) == (2, 1, 0));
            }
        }
    }
    lattice.set(2, 1, 0, false);
    assert!(!lattice.get(2, 1, 0));
}

#[test]
fn in_bounds_takes_each_axis_from_zero_to_the_side() {
    assert!(is_in_bounds(20, 0, 0, 0));
    assert!(is_in_bounds(20, 19, 19, 19));
    assert!(is_in_bounds(20, 5, 0, 19));
    assert!(!is_in_bounds(20, 20, 0, 0));
    assert!(!is_in_bounds(20, 0, 20, 0));
    assert!(!is_in_bounds(20, 0, 0, 20));
    assert!(!is_in_bounds(20, -1, 0, 0));
    assert!(!is_in_bounds(20, 0, -1, 0));
    assert!(!is_in_bounds(20, 0, 0, -1));
    assert!(!is_in_bounds(0, 0, 0, 0));
    assert!(is_in_bounds(1, 0, 0, 0));
    assert!(!is_in_bounds(1, isize::MAX, 0, 0));
    assert!(!is_in_bounds(1, isize::MIN, 0, 0));
}
