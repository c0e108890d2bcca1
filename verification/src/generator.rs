//! The random lattice: each cell occupied with a given probability,
//! independently of the others.

use vstd::prelude::*;
use rand::rngs::StdRng;
use rand::Rng;
use crate::lattice::{cell_count, cell_in, flat_index, lemma_flat_index_bounds, Cell, Lattice};

verus! {

/// The standard generator of `rand`, carried through as an opaque value.
#[verifier::external_type_specification]
#[verifier::external_body]
pub struct ExStdRng(StdRng);

/// One draw of `rand::Rng::gen_ratio`: `true` with probability
/// `numerator / denominator`. Which value comes back depends on the state of
/// the generator; the contract states only what `rand` documents of every
/// draw: with a numerator of zero it is `false`, with numerator and
/// denominator equal it is `true`. `gen_ratio` panics on a denominator of
/// zero and on a numerator above the denominator, which `requires` leaves out.
#[verifier::external_body]
fn draw(rng: &mut StdRng, numerator: u32, denominator: u32) -> (hit: bool)
    requires
        0 < denominator,
        numerator <= denominator,
    ensures
        numerator == 0 ==> !hit,
        numerator == denominator ==> hit,
{
    rng.gen_ratio(numerator, denominator)
}

/// A lattice of the given side in which each cell is occupied with
/// probability `numerator / denominator`, drawn from `rng` cell by cell in
/// scan order. A probability of zero gives the empty lattice; a probability
/// of one or more gives the full one, and draws nothing. `None` where the
/// number of cells does not fit the machine.
pub fn generate_percolation_lattice(
    side: usize,
    numerator: u32,
    denominator: u32,
    rng: &mut StdRng,
) -> (r: Option<Lattice>)
    requires
        0 < denominator,
    ensures
        r is Some <==> side * side * side <= usize::MAX,
        r matches Some(l) ==> l.well_formed() && l.extent() == side,
        r matches Some(l) ==> (numerator == 0 ==> forall|c: Cell|
            l.has_cell(c) ==> !l.occupied(c)),
        r matches Some(l) ==> (numerator >= denominator ==> forall|c: Cell|
            l.has_cell(c) ==> l.occupied(c)),
{
    let n = match cell_count(side) {
        Some(n) => n,
        None => { return None; },
    };
    let mut cells: Vec<bool> = Vec::new();
    while cells.len() < n
        invariant
            0 < denominator,
            cells@.len() <= n,
            numerator == 0 ==> forall|i: int| 0 <= i < cells@.len() ==> !cells@[i],
            numerator >= denominator ==> forall|i: int| 0 <= i < cells@.len() ==> cells@[i],
        decreases n - cells@.len(),
    {
        let hit = if numerator >= denominator {
            true
        } else {
            draw(rng, numerator, denominator)
        };
        cells.push(hit);
    }
    proof {
        assert forall|c: Cell| cell_in(side as int, c) implies 0 <= flat_index(side as int, c)
            < cells@.len() by {
            lemma_flat_index_bounds(side as int, c);
        }
    }
    Lattice::from_cells(side, cells)
}

} // verus!
