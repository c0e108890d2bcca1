//! Geometry of the cells to draw: which cells of a lattice hold a value, and
//! the mesh of unit cubes, one hexahedron of eight corners for each cell.

use vstd::prelude::*;
use crate::component::{cells_holding, holds, scanned, scans_before};
use crate::lattice::{Cell, Lattice};

verus! {

/// The number of corners of a cube.
pub const CORNERS: usize = 8;

/// The code of the cell type "hexahedron" in a mesh file.
pub const HEXAHEDRON: usize = 12;

/// The corner `k` of the unit cube whose origin is `c`: the four corners of
/// the lower face counter-clockwise from the origin, then those of the upper
/// face in the same order.
pub open spec fn corner(c: Cell, k: int) -> (int, int, int) {
    let dx: int = if k == 1 || k == 2 || k == 5 || k == 6 { 1 } else { 0 };
    let dy: int = if k == 2 || k == 3 || k == 6 || k == 7 { 1 } else { 0 };
    let dz: int = if k >= 4 { 1 } else { 0 };
    (c.0 + dx, c.1 + dy, c.2 + dz)
}

/// The entry of cube `i` in the list of cells of a mesh: the number of its
/// corners, then the places of its eight points, `8 * i` to `8 * i + 7`.
pub open spec fn connectivity(i: int) -> Seq<int> {
    Seq::new(9, |j: int| if j == 0 { 8 } else { 8 * i + j - 1 })
}

/// A mesh of hexahedra: the points, eight for each cube and shared with no
/// other cube, and for each cube the list that names its points.
pub struct Mesh {
    pub points: Vec<Cell>,
    pub cells: Vec<Vec<usize>>,
}

impl Mesh {
    /// Whether this is the mesh of the unit cubes at `cubes`, in their order.
    pub open spec fn is_mesh_of(&self, cubes: Seq<Cell>) -> bool {
        &&& self.points@.len() == 8 * cubes.len()
        &&& self.cells@.len() == cubes.len()
        &&& forall|j: int|
            0 <= j < self.points@.len() ==> point_as_ints(#[trigger] self.points@[j]) == corner(
                cubes[j / 8],
                j % 8,
            )
        &&& forall|i: int|
            0 <= i < self.cells@.len() ==> (#[trigger] self.cells@[i])@.map_values(
                |p: usize| p as int,
            ) == connectivity(i)
    }

    /// The number of integers in the list of cells: nine for each cube.
    pub fn total_int_count(&self) -> (n: Option<usize>)
        ensures
            n is Some <==> 9 * self.cells@.len() <= usize::MAX,
            n matches Some(n) ==> n == 9 * self.cells@.len(),
    {
        self.cells.len().checked_mul(9)
    }
}

/// The coordinates of a point as integers.
pub open spec fn point_as_ints(p: Cell) -> (int, int, int) {
    (p.0 as int, p.1 as int, p.2 as int)
}

/// The eight corners of the unit cube at `c`, added to `points`.
fn push_corners(points: &mut Vec<Cell>, c: Cell)
    requires
        c.0 < usize::MAX,
        c.1 < usize::MAX,
        c.2 < usize::MAX,
    ensures
        final(points)@.len() == old(points)@.len() + 8,
        forall|j: int| 0 <= j < old(points)@.len() ==> final(points)@[j] == old(points)@[j],
        forall|k: int|
            0 <= k < 8 ==> point_as_ints(#[trigger] final(points)@[old(points)@.len() + k])
                == corner(c, k),
{
    let (x, y, z) = c;
    points.push((x, y, z));
    points.push((x + 1, y, z));
    points.push((x + 1, y + 1, z));
    points.push((x, y + 1, z));
    points.push((x, y, z + 1));
    points.push((x + 1, y, z + 1));
    points.push((x + 1, y + 1, z + 1));
    points.push((x, y + 1, z + 1));
}

/// The entry of cube `i` in the list of cells.
fn cube_entry(i: usize) -> (entry: Vec<usize>)
    requires
        8 * i + 7 <= usize::MAX,
    ensures
        entry@.map_values(|p: usize| p as int) == connectivity(i as int),
{
    let base = i * 8;
    let mut entry: Vec<usize> = Vec::new();
    entry.push(8);
    entry.push(base);
    entry.push(base + 1);
    entry.push(base + 2);
    entry.push(base + 3);
    entry.push(base + 4);
    entry.push(base + 5);
    entry.push(base + 6);
    entry.push(base + 7);
    assert(entry@.map_values(|p: usize| p as int) =~= connectivity(i as int));
    entry
}

/// The mesh of the unit cubes at `cubes`: for each cube, in order, its eight
/// corners and the entry that names them. `None` where a coordinate or the
/// number of points does not fit the machine.
pub fn hexahedron_mesh(cubes: &Vec<Cell>) -> (r: Option<Mesh>)
    ensures
        r is Some <==> 8 * cubes@.len() <= usize::MAX && forall|i: int|
            0 <= i < cubes@.len() ==> (#[trigger] cubes@[i]).0 < usize::MAX && cubes@[i].1
                < usize::MAX && cubes@[i].2 < usize::MAX,
        r matches Some(mesh) ==> mesh.is_mesh_of(cubes@),
{
    if cubes.len() > usize::MAX / 8 {
        return None;
    }
    let mut mesh = Mesh { points: Vec::new(), cells: Vec::new() };
    let mut i: usize = 0;
    while i < cubes.len()
        invariant
            0 <= i <= cubes@.len(),
            8 * cubes@.len() <= usize::MAX,
            mesh.is_mesh_of(cubes@.take(i as int)),
            forall|j: int|
                0 <= j < i ==> (#[trigger] cubes@[j]).0 < usize::MAX && cubes@[j].1 < usize::MAX
                    && cubes@[j].2 < usize::MAX,
        decreases cubes@.len() - i,
    {
        let c = cubes[i];
        if c.0 == usize::MAX || c.1 == usize::MAX || c.2 == usize::MAX {
            return None;
        }
        let ghost before = mesh;
        push_corners(&mut mesh.points, c);
        let entry = cube_entry(i);
        mesh.cells.push(entry);
        proof {
            let done = cubes@.take(i as int);
            let now = cubes@.take(i + 1);
            assert forall|j: int| 0 <= j < mesh.points@.len() implies point_as_ints(
                #[trigger] mesh.points@[j],
            ) == corner(now[j / 8], j % 8) by {
                if j < 8 * i {
                    assert(mesh.points@[j] == before.points@[j]);
                    assert(now[j / 8] == done[j / 8]);
                } else {
                    let k = j - 8 * i;
                    assert(mesh.points@[before.points@.len() + k] == mesh.points@[j]);
                    assert(j / 8 == i && j % 8 == k);
                }
            }
            assert forall|n: int| 0 <= n < mesh.cells@.len() implies (
            #[trigger] mesh.cells@[n])@.map_values(|p: usize| p as int) == connectivity(n) by {
                if n < i {
                    assert(mesh.cells@[n] == before.cells@[n]);
                }
            }
        }
        i = i + 1;
    }
    assert(cubes@.take(i as int) =~= cubes@);
    Some(mesh)
}

/// What holds of the selection when the scan stands before the place `(x, y, z)`.
spec fn selection_state(
    lattice: &Lattice,
    v: bool,
    chosen: Seq<Cell>,
    x: int,
    y: int,
    z: int,
) -> bool {
    &&& forall|i: int|
        0 <= i < chosen.len() ==> holds(lattice, v, #[trigger] chosen[i]) && scanned(
            chosen[i],
            x,
            y,
            z,
        )
    &&& forall|i: int, j: int|
        0 <= i < j < chosen.len() ==> scans_before(#[trigger] chosen[i], #[trigger] chosen[j])
    &&& forall|c: Cell| #[trigger] holds(lattice, v, c) && scanned(c, x, y, z) ==> chosen.contains(c)
}

/// Whether `chosen` lists the cells of the lattice that hold `v`, each once,
/// in scan order.
pub open spec fn is_selection(lattice: &Lattice, v: bool, chosen: Seq<Cell>) -> bool {
    &&& chosen.to_set() == cells_holding(lattice, v)
    &&& forall|i: int, j: int|
        0 <= i < j < chosen.len() ==> scans_before(#[trigger] chosen[i], #[trigger] chosen[j])
}

/// The cells of the lattice that hold `occupied`, in scan order (x
/// outermost, z innermost).
pub fn cells_with_value(lattice: &Lattice, occupied: bool) -> (chosen: Vec<Cell>)
    requires
        lattice.well_formed(),
    ensures
        is_selection(lattice, occupied, chosen@),
{
    let side = lattice.side();
    let mut chosen: Vec<Cell> = Vec::new();
    let mut x: usize = 0;
    while x < side
        invariant
            lattice.well_formed(),
            side == lattice.extent(),
            x <= side,
            selection_state(lattice, occupied, chosen@, x as int, 0, 0),
        decreases side - x,
    {
        let mut y: usize = 0;
        while y < side
            invariant
                lattice.well_formed(),
                side == lattice.extent(),
                x < side,
                y <= side,
                selection_state(lattice, occupied, chosen@, x as int, y as int, 0),
            decreases side - y,
        {
            let mut z: usize = 0;
            while z < side
                invariant
                    lattice.well_formed(),
                    side == lattice.extent(),
                    x < side,
                    y < side,
                    z <= side,
                    selection_state(lattice, occupied, chosen@, x as int, y as int, z as int),
                decreases side - z,
            {
                if lattice.get(x, y, z) == occupied {
                    let ghost before = chosen@;
                    chosen.push((x, y, z));
                    proof {
                        assert forall|c: Cell| #[trigger]
                            holds(lattice, occupied, c) && scanned(
                                c,
                                x as int,
                                y as int,
                                z + 1,
                            ) implies chosen@.contains(c) by {
                            if c == (x, y, z) {
                                assert(chosen@[before.len() as int] == c);
                            } else {
                                assert(before.contains(c));
                                let i = choose|i: int| 0 <= i < before.len() && before[i] == c;
                                assert(chosen@[i] == c);
                            }
                        }
                    }
                }
                z = z + 1;
            }
            y = y + 1;
        }
        x = x + 1;
    }
    proof {
        assert forall|c: Cell| cells_holding(lattice, occupied).contains(c) implies chosen@.to_set().contains(
            c,
        ) by {
            assert(holds(lattice, occupied, c) && scanned(c, side as int, 0, 0));
        }
        assert(chosen@.to_set() =~= cells_holding(lattice, occupied));
    }
    chosen
}

} // verus!
