use percolation::component::find_largest_connected_component;
use percolation::lattice::Lattice;

fn lattice_with(side: usize, occupied: &[(usize, usize, usize)]) -> Lattice {
    let mut lattice = Lattice::uniform(side, false).unwrap();
    for &(x, y, z) in occupied {
        lattice.set(x, y, z, true);
    }
    lattice
}

fn sorted(mut cells: Vec<(usize, usize, usize)>) -> Vec<(usize, usize, usize)> {
    cells.sort();
    cells
}

fn count_holding(lattice: &Lattice, value: bool) -> usize {
    let side = lattice.side();
    let mut n = 0;
    for x in 0..side {
        for y in 0..side {
            for z in 0..side {
                if lattice.get(x, y, z) == value {
                    n += 1;
                }
            }
        }
    }
    n
}

fn face_neighbours(a: (usize, usize, usize), b: (usize, usize, usize)) -> bool {
    let d = a.0.abs_diff(b.0) + a.1.abs_diff(b.1) + a.2.abs_diff(b.2);
    d == 1
}

#[test]
fn two_adjacent_occupied_cells_in_a_lattice_of_side_two() {
    let lattice = lattice_with(2, &[(0, 0, 0), (1, 0, 0)]);
    let occupied = find_largest_connected_component(&lattice, true);
    assert_eq!(occupied, vec![(0, 0, 0), (1, 0, 0)]);
    let empty = find_largest_connected_component(&lattice, false);
    assert_eq!(empty.len(), 6);
    assert_eq!(
        sorted(empty),
        vec![(0, 0, 1), (0, 1, 0), (0, 1, 1), (1, 0, 1), (1, 1, 0), (1, 1, 1)]
    );
}

#[test]
fn no_cell_of_the_kind_gives_an_empty_component() {
    let full = Lattice::uniform(3, true).unwrap();
    assert!(find_largest_connected_component(&full, false).is_empty());
    let empty = Lattice::uniform(3, false).unwrap();
    assert!(find_largest_connected_component(&empty, true).is_empty());
}

#[test]
fn lattice_of_side_one() {
    let occupied = Lattice::uniform(1, true).unwrap();
    assert_eq!(find_largest_connected_component(&occupied, true), vec![(0, 0, 0)]);
    assert!(find_largest_connected_component(&occupied, false).is_empty());
    let empty = Lattice::uniform(1, false).unwrap();
    assert_eq!(find_largest_connected_component(&empty, false), vec![(0, 0, 0)]);
    assert!(find_largest_connected_component(&empty, true).is_empty());
}

#[test]
fn lattice_of_side_zero_has_no_component() {
    let lattice = Lattice::uniform(0, true).unwrap();
    assert!(find_largest_connected_component(&lattice, true).is_empty());
    assert!(find_largest_connected_component(&lattice, false).is_empty());
}

#[test]
fn full_lattice_is_one_component_in_breadth_first_order() {
    let lattice = Lattice::uniform(2, true).unwrap();
    let component = find_largest_connected_component(&lattice, true);
    assert_eq!(
        component,
        vec![
            (0, 0, 0),
            (1, 0, 0),
            (0, 1, 0),
            (0, 0, 1),
            (1, 1, 0),
            (1, 0, 1),
            (0, 1, 1),
            (1, 1, 1)
        ]
    );
}

#[test]
fn neighbours_are_looked_at_in_the_order_of_the_six_directions() {
    // the middle cell of a cross: +x, -x, +y, -y, +z, -z
    let lattice = lattice_with(
        3,
        &[(1, 1, 1), (2, 1, 1), (0, 1, 1), (1, 2, 1), (1, 0, 1), (1, 1, 2), (1, 1, 0)],
    );
    let component = find_largest_connected_component(&lattice, true);
    // the scan meets (0, 1, 1) first, whose only neighbour is the middle
    assert_eq!(
        component,
        vec![(0, 1, 1), (1, 1, 1), (2, 1, 1), (1, 2, 1), (1, 0, 1), (1, 1, 2), (1, 1, 0)]
    );
}

#[test]
fn diagonal_cells_are_not_connected() {
    let lattice = lattice_with(2, &[(0, 0, 0), (1, 1, 0)]);
    assert_eq!(find_largest_connected_component(&lattice, true), vec![(0, 0, 0)]);
    let lattice = lattice_with(2, &[(0, 0, 0), (1, 1, 1)]);
    assert_eq!(find_largest_connected_component(&lattice, true), vec![(0, 0, 0)]);
    let lattice = lattice_with(3, &[(1, 1, 1), (2, 2, 1), (2, 1, 2), (1, 2, 2), (0, 0, 1)]);
    assert_eq!(find_largest_connected_component(&lattice, true), vec![(0, 0, 1)]);
}

#[test]
fn each_of_the_six_face_neighbours_is_connected() {
    for other in [(2, 1, 1), (0, 1, 1), (1, 2, 1), (1, 0, 1), (1, 1, 2), (1, 1, 0)] {
        let lattice = lattice_with(3, &[(1, 1, 1), other]);
        let component = find_largest_connected_component(&lattice, true);
        assert_eq!(sorted(component), sorted(vec![(1, 1, 1), other]));
    }
}

#[test]
fn the_lattice_does_not_wrap_around() {
    let lattice = lattice_with(3, &[(0, 1, 1), (2, 1, 1)]);
    assert_eq!(find_largest_connected_component(&lattice, true), vec![(0, 1, 1)]);
}

#[test]
fn of_two_components_of_equal_size_the_first_found_is_kept() {
    let lattice = lattice_with(4, &[(3, 3, 3), (3, 3, 2), (0, 2, 0), (0, 3, 0)]);
    assert_eq!(
        find_largest_connected_component(&lattice, true),
        vec![(0, 2, 0), (0, 3, 0)]
    );
}

#[test]
fn a_larger_component_found_later_replaces_the_earlier_one() {
    let lattice = lattice_with(4, &[(0, 0, 0), (2, 2, 2), (3, 2, 2), (2, 3, 2)]);
    assert_eq!(
        find_largest_connected_component(&lattice, true),
        vec![(2, 2, 2), (3, 2, 2), (2, 3, 2)]
    );
}

#[test]
fn searching_twice_gives_the_same_component() {
    let lattice = lattice_with(
        3,
        &[(0, 0, 0), (0, 0, 1), (0, 1, 1), (2, 2, 2), (2, 2, 1), (1, 0, 2), (2, 0, 0)],
    );
    for value in [false, true] {
        let first = find_largest_connected_component(&lattice, value);
        let second = find_largest_connected_component(&lattice, value);
        assert_eq!(first, second);
    }
}

#[test]
fn the_component_is_no_larger_than_the_number_of_cells_of_its_kind() {
    let split = lattice_with(3, &[(0, 0, 0), (0, 0, 1), (2, 2, 2)]);
    let component = find_largest_connected_component(&split, true);
    assert_eq!(component.len(), 2);
    assert!(component.len() < count_holding(&split, true));
    let joined = lattice_with(3, &[(0, 0, 0), (0, 0, 1), (0, 0, 2)]);
    let component = find_largest_connected_component(&joined, true);
    assert_eq!(component.len(), 3);
    assert_eq!(component.len(), count_holding(&joined, true));
    let rest = find_largest_connected_component(&joined, false);
    assert_eq!(rest.len(), 24);
    assert_eq!(rest.len(), count_holding(&joined, false));
}

#[test]
fn the_components_cover_the_cells_of_their_kind_without_overlap() {
    let cells = [(0, 0, 0), (0, 0, 1), (0, 1, 1), (2, 2, 2), (2, 2, 1), (1, 0, 2), (2, 0, 0)];
    let mut lattice = lattice_with(3, &cells);
    let mut seen: Vec<(usize, usize, usize)> = Vec::new();
    let mut sizes = Vec::new();
    loop {
        let component = find_largest_connected_component(&lattice, true);
        if component.is_empty() {
            break;
        }
        sizes.push(component.len());
        for &c in &component {
            assert!(!seen.contains(&c));
            seen.push(c);
            lattice.set(c.0, c.1, c.2, false);
        }
    }
    assert_eq!(sizes, vec![3, 2, 1, 1]);
    assert_eq!(sorted(seen), sorted(cells.to_vec()));
}

#[test]
fn every_cell_but_the_first_follows_a_face_neighbour() {
    let lattice = lattice_with(
        3,
        &[(0, 0, 0), (0, 0, 1), (0, 1, 1), (1, 1, 1), (2, 1, 1), (2, 2, 1), (2, 2, 2)],
    );
    for value in [false, true] {
        let component = find_largest_connected_component(&lattice, value);
        for i in 1..component.len() {
            assert!((0..i).any(|j| face_neighbours(component[j], component[i])));
        }
        for i in 0..component.len() {
            let (x, y, z) = component[i];
            assert_eq!(lattice.get(x, y, z), value);
            assert!(!component[..i].contains(&component[i]));
        }
    }
}

#[test]
fn a_lattice_of_the_usual_size_with_one_wall() {
    let mut lattice = Lattice::uniform(20, false).unwrap();
    for y in 0..20 {
        for z in 0..20 {
            lattice.set(7, y, z, true);
        }
    }
    assert_eq!(find_largest_connected_component(&lattice, true).len(), 400);
    // the wall parts the empty cells into 7 * 400 and 12 * 400
    let empty = find_largest_connected_component(&lattice, false);
    assert_eq!(empty.len(), 4800);
    assert_eq!(empty[0], (8, 0, 0));
}
