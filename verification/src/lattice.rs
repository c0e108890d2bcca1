//! The cubic lattice: `side * side * side` cells, each occupied or empty,
//! stored in one buffer in scan order (x outermost, z innermost).

use vstd::prelude::*;
use vstd::arithmetic::div_mod::lemma_fundamental_div_mod_converse;
use vstd::set_lib::{lemma_int_range, lemma_len_subset, lemma_map_size_bound, set_int_range};

verus! {

/// A cell of the lattice, by its coordinates `(x, y, z)`.
pub type Cell = (usize, usize, usize);

/// Whether every coordinate of `c` lies in `[0, side)`.
pub open spec fn cell_in(side: int, c: Cell) -> bool {
    c.0 < side && c.1 < side && c.2 < side
}

/// The place of `c` in scan order: `(x * side + y) * side + z`.
pub open spec fn flat_index(side: int, c: Cell) -> int {
    (c.0 * side + c.1) * side + c.2
}

/// The cell that stands at place `i` of the scan order.
pub open spec fn cell_at(side: int, i: int) -> Cell {
    (((i / side) / side) as usize, ((i / side) % side) as usize, (i % side) as usize)
}

/// All cells of a lattice of the given side.
pub open spec fn cells_of(side: int) -> Set<Cell> {
    Set::new(|c: Cell| cell_in(side, c))
}

/// The place of a cell of the lattice lies inside the buffer.
pub proof fn lemma_flat_index_bounds(side: int, c: Cell)
    requires
        cell_in(side, c),
    ensures
        0 <= flat_index(side, c) < side * side * side,
{
    let (x, y, z) = (c.0 as int, c.1 as int, c.2 as int);
    assert(0 <= (x * side + y) * side + z < side * side * side) by (nonlinear_arith)
        requires
            0 <= x < side,
            0 <= y < side,
            0 <= z < side,
    ;
}

/// The cell at the place of `c` is `c` again.
pub proof fn lemma_cell_at_flat_index(side: int, c: Cell)
    requires
        cell_in(side, c),
    ensures
        cell_at(side, flat_index(side, c)) == c,
{
    let (x, y, z) = (c.0 as int, c.1 as int, c.2 as int);
    let i = flat_index(side, c);
    lemma_fundamental_div_mod_converse(i, side, x * side + y, z);
    lemma_fundamental_div_mod_converse(x * side + y, side, x, y);
}

/// Two cells of the lattice with the same place are the same cell.
pub proof fn lemma_flat_index_injective(side: int, a: Cell, b: Cell)
    requires
        cell_in(side, a),
        cell_in(side, b),
        flat_index(side, a) == flat_index(side, b),
    ensures
        a == b,
{
    lemma_cell_at_flat_index(side, a);
    lemma_cell_at_flat_index(side, b);
}

/// A lattice has finitely many cells, at most `side * side * side`.
pub proof fn lemma_cells_of_finite(side: int)
    requires
        0 <= side,
    ensures
        cells_of(side).finite(),
        cells_of(side).len() <= side * side * side,
{
    let n = side * side * side;
    assert(0 <= n) by (nonlinear_arith)
        requires
            0 <= side,
            n == side * side * side,
    ;
    let places = set_int_range(0, n);
    let f = |i: int| cell_at(side, i);
    lemma_int_range(0, n);
    lemma_map_size_bound(places, places.map(f), f);
    assert forall|c: Cell| cells_of(side).contains(c) implies places.map(f).contains(c) by {
        lemma_flat_index_bounds(side, c);
        lemma_cell_at_flat_index(side, c);
        let i = flat_index(side, c);
        assert(places.contains(i) && c == f(i));
    }
    lemma_len_subset(cells_of(side), places.map(f));
}

/// A sequence of distinct cells of a lattice is no longer than the lattice is large.
pub proof fn lemma_distinct_cells_bounded(side: int, s: Seq<Cell>)
    requires
        0 <= side,
        s.no_duplicates(),
        forall|i: int| 0 <= i < s.len() ==> cell_in(side, #[trigger] s[i]),
    ensures
        s.len() <= side * side * side,
{
    lemma_cells_of_finite(side);
    s.unique_seq_to_set();
    assert forall|c: Cell| s.to_set().contains(c) implies cells_of(side).contains(c) by {
        let i = choose|i: int| 0 <= i < s.len() && s[i] == c;
        assert(cell_in(side, s[i]));
    }
    lemma_len_subset(s.to_set(), cells_of(side));
}

/// A cube that fits the machine has a side below `2^31`, so that a
/// coordinate and its two neighbours along an axis fit a signed word.
pub proof fn lemma_side_small(side: int)
    requires
        0 <= side,
        side * side * side <= usize::MAX,
    ensures
        side < 0x8000_0000,
        side < isize::MAX,
{
    assert(usize::MAX <= 0xffff_ffff_ffff_ffff);
    assert(isize::MAX >= 0x7fff_ffff);
    assert(side < 0x7fff_ffff) by (nonlinear_arith)
        requires
            0 <= side,
            side * side * side <= 0xffff_ffff_ffff_ffff,
    ;
}

/// A cubic lattice of occupied and empty cells.
pub struct Lattice {
    side: usize,
    cells: Vec<bool>,
}

impl Lattice {
    /// The buffer holds exactly one value for each cell.
    pub closed spec fn well_formed(&self) -> bool {
        self.cells@.len() == self.side * self.side * self.side
    }

    /// The number of cells along each axis.
    pub closed spec fn extent(&self) -> int {
        self.side as int
    }

    /// Whether the cell `c` is occupied.
    pub closed spec fn occupied(&self, c: Cell) -> bool {
        self.cells@[flat_index(self.side as int, c)]
    }

    /// Whether `c` is a cell of this lattice.
    pub open spec fn has_cell(&self, c: Cell) -> bool {
        cell_in(self.extent(), c)
    }

    /// The side of a well-formed lattice is small enough for signed
    /// arithmetic on its coordinates, and its cube fits the machine.
    pub proof fn lemma_extent_small(&self)
        requires
            self.well_formed(),
        ensures
            0 <= self.extent() < isize::MAX,
            self.extent() * self.extent() * self.extent() <= usize::MAX,
    {
        assert(self.cells@.len() == self.cells.len());
        lemma_side_small(self.side as int);
    }

    /// A lattice whose cells all hold `value`, or `None` where the number of
    /// cells does not fit the machine.
    pub fn uniform(side: usize, value: bool) -> (r: Option<Lattice>)
        ensures
            r is Some <==> side * side * side <= usize::MAX,
            r matches Some(l) ==> l.well_formed() && l.extent() == side && forall|c: Cell|
                l.has_cell(c) ==> l.occupied(c) == value,
    {
        let n = match cell_count(side) {
            Some(n) => n,
            None => { return None; },
        };
        let mut cells: Vec<bool> = Vec::new();
        while cells.len() < n
            invariant
                cells@.len() <= n,
                forall|i: int| 0 <= i < cells@.len() ==> cells@[i] == value,
            decreases n - cells@.len(),
        {
            cells.push(value);
        }
        let l = Lattice { side, cells };
        proof {
            assert forall|c: Cell| l.has_cell(c) implies l.occupied(c) == value by {
                lemma_flat_index_bounds(side as int, c);
            }
        }
        Some(l)
    }

    /// The lattice whose cells are the values of `cells`, taken in scan order,
    /// or `None` where their number is not `side * side * side`.
    pub fn from_cells(side: usize, cells: Vec<bool>) -> (r: Option<Lattice>)
        ensures
            r is Some <==> cells@.len() == side * side * side,
            r matches Some(l) ==> l.well_formed() && l.extent() == side && forall|c: Cell|
                l.has_cell(c) ==> l.occupied(c) == cells@[flat_index(side as int, c)],
    {
        let len = cells.len();
        match cell_count(side) {
            Some(n) => {
                if len == n {
                    Some(Lattice { side, cells })
                } else {
                    None
                }
            },
            None => None,
        }
    }

    /// The number of cells along each axis.
    pub fn side(&self) -> (r: usize)
        ensures
            r == self.extent(),
    {
        self.side
    }

    /// The value of the cell `(x, y, z)`.
    pub fn get(&self, x: usize, y: usize, z: usize) -> (r: bool)
        requires
            self.well_formed(),
            self.has_cell((x, y, z)),
        ensures
            r == self.occupied((x, y, z)),
    {
        assert(self.cells@.len() == self.cells.len());
        let i = place(self.side, x, y, z);
        self.cells[i]
    }

    /// Gives the cell `(x, y, z)` the value `value` and leaves the others as they were.
    pub fn set(&mut self, x: usize, y: usize, z: usize, value: bool)
        requires
            old(self).well_formed(),
            old(self).has_cell((x, y, z)),
        ensures
            final(self).well_formed(),
            final(self).extent() == old(self).extent(),
            final(self).occupied((x, y, z)) == value,
            forall|c: Cell|
                old(self).has_cell(c) && c != (x, y, z) ==> final(self).occupied(c) == old(
                    self,
                ).occupied(c),
    {
        assert(self.cells@.len() == self.cells.len());
        let i = place(self.side, x, y, z);
        self.cells.set(i, value);
        proof {
            let side = self.side as int;
            assert forall|c: Cell| cell_in(side, c) && c != (x, y, z) implies flat_index(side, c)
                != i by {
                if flat_index(side, c) == i {
                    lemma_flat_index_injective(side, c, (x, y, z));
                }
            }
            assert forall|c: Cell| cell_in(side, c) implies 0 <= flat_index(side, c)
                < self.cells@.len() by {
                lemma_flat_index_bounds(side, c);
            }
        }
    }
}

/// The number of cells of a lattice of the given side, `side * side * side`,
/// or `None` where it does not fit the machine.
pub fn cell_count(side: usize) -> (r: Option<usize>)
    ensures
        r is Some <==> side * side * side <= usize::MAX,
        r matches Some(n) ==> n == side * side * side,
{
    match side.checked_mul(side) {
        Some(square) => {
            proof {
                assert(side * square == side * side * side) by (nonlinear_arith)
                    requires
                        square == side * side,
                ;
            }
            side.checked_mul(square)
        },
        None => {
            proof {
                assert(side * side * side > usize::MAX) by (nonlinear_arith)
                    requires
                        side * side > usize::MAX,
                        side >= 0,
                ;
            }
            None
        },
    }
}

/// The place of the cell `(x, y, z)` in the buffer of a lattice of the given side.
fn place(side: usize, x: usize, y: usize, z: usize) -> (i: usize)
    requires
        side * side * side <= usize::MAX,
        cell_in(side as int, (x, y, z)),
    ensures
        i == flat_index(side as int, (x, y, z)),
        i < side * side * side,
{
    proof {
        lemma_flat_index_bounds(side as int, (x, y, z));
        let (s, a, b) = (side as int, x as int, y as int);
        assert(0 <= a * s <= a * s + b <= (a * s + b) * s) by (nonlinear_arith)
            requires
                0 <= a < s,
                0 <= b < s,
        ;
    }
    (x * side + y) * side + z
}

/// Whether `(x, y, z)` is a cell of a lattice of the given side.
pub fn is_in_bounds(side: usize, x: isize, y: isize, z: isize) -> (r: bool)
    ensures
        r == (0 <= x < side && 0 <= y < side && 0 <= z < side),
{
    x >= 0 && y >= 0 && z >= 0 && (x as usize) < side && (y as usize) < side && (z as usize) < side
}

} // verus!
