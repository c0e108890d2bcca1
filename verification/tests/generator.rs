use percolation::generator::generate_percolation_lattice;
use percolation::lattice::Lattice;
use rand::rngs::StdRng;
use rand::SeedableRng;

fn count_occupied(lattice: &Lattice) -> usize {
    let side = lattice.side();
    let mut n = 0;
    for x in 0..side {
        for y in 0..side {
            for z in 0..side {
                if lattice.get(x, y, z) {
                    n += 1;
                }
            }
        }
    }
    n
}

fn same_cells(a: &Lattice, b: &Lattice) -> bool {
    let side = a.side();
    if b.side() != side {
        return false;
    }
    for x in 0..side {
        for y in 0..side {
            for z in 0..side {
                if a.get(x, y, z) != b.get(x, y, z) {
                    return false;
                }
            }
        }
    }
    true
}

#[test]
fn probability_zero_gives_the_empty_lattice() {
    let mut rng = StdRng::seed_from_u64(1);
    for side in [0, 1, 2, 5] {
        let lattice = generate_percolation_lattice(side, 0, 20, &mut rng).unwrap();
        assert_eq!(lattice.side(), side);
        assert_eq!(count_occupied(&lattice), 0);
    }
}

#[test]
fn probability_one_gives_the_full_lattice() {
    let mut rng = StdRng::seed_from_u64(1);
    for side in [0, 1, 2, 5] {
        let lattice = generate_percolation_lattice(side, 20, 20, &mut rng).unwrap();
        assert_eq!(lattice.side(), side);
        assert_eq!(count_occupied(&lattice), side * side * side);
    }
}

#[test]
fn probability_above_one_gives_the_full_lattice() {
    let mut rng = StdRng::seed_from_u64(1);
    let lattice = generate_percolation_lattice(3, 7, 2, &mut rng).unwrap();
    assert_eq!(count_occupied(&lattice), 27);
}

#[test]
fn the_same_seed_gives_the_same_lattice() {
    let mut first = StdRng::seed_from_u64(42);
    let mut second = StdRng::seed_from_u64(42);
    let a = generate_percolation_lattice(20, 3, 20, &mut first).unwrap();
    let b = generate_percolation_lattice(20, 3, 20, &mut second).unwrap();
    assert!(same_cells(&a, &b));
}

#[test]
fn a_probability_between_zero_and_one_gives_cells_of_both_kinds() {
    let mut rng = StdRng::seed_from_u64(7);
    let lattice = generate_percolation_lattice(20, 1, 2, &mut rng).unwrap();
    let occupied = count_occupied(&lattice);
    assert!(occupied > 3000);
    assert!(occupied < 5000);
}

#[test]
fn a_side_whose_cube_does_not_fit_gives_no_lattice() {
    let mut rng = StdRng::seed_from_u64(1);
    assert!(generate_percolation_lattice(usize::MAX, 3, 20, &mut rng).is_none());
}
