//! Grid cells and the cells around them.

use vstd::prelude::*;

verus! {

/// Integer coordinates of one grid cell. The grid is unbounded: a cell is
/// named by the number of cell edges between it and the origin on each axis.
#[derive(Clone, Copy, Debug, PartialEq, Eq, Structural)]
pub struct Cell {
    pub x: i64,
    pub y: i64,
    pub z: i64,
}

/// Moves one coordinate by `d`, wrapping around at the ends of `i64`.
pub open spec fn moved(c: i64, d: int) -> i64 {
    if c + d > i64::MAX {
        (c + d - 0x1_0000_0000_0000_0000) as i64
    } else if c + d < i64::MIN {
        (c + d + 0x1_0000_0000_0000_0000) as i64
    } else {
        (c + d) as i64
    }
}

impl Cell {
    /// The cell `dx`, `dy` and `dz` steps away.
    pub open spec fn shifted(self, dx: int, dy: int, dz: int) -> Cell {
        Cell { x: moved(self.x, dx), y: moved(self.y, dy), z: moved(self.z, dz) }
    }

    /// The `k`-th cell of the block around `self`, for `k` from 0 to 26.
    /// The block is walked with `x` slowest and `z` fastest, each axis from
    /// one step below to one step above.
    pub open spec fn neighbor(self, k: int) -> Cell {
        self.shifted(k / 9 - 1, (k / 3) % 3 - 1, k % 3 - 1)
    }

    /// `other` lies in the block around `self`.
    pub open spec fn touches(self, other: Cell) -> bool {
        exists|k: int| 0 <= k < 27 && #[trigger] self.neighbor(k) == other
    }

    /// The cell with the given coordinates.
    pub fn new(x: i64, y: i64, z: i64) -> (c: Cell)
        ensures
            c == (Cell { x, y, z }),
    {
        Cell { x, y, z }
    }

    /// Computes the `k`-th cell of the block around `self`.
    pub fn neighbor_at(self, k: usize) -> (c: Cell)
        requires
            k < 27,
        ensures
            c == self.neighbor(k as int),
    {
        let dx: i64 = (k / 9) as i64 - 1;
        let dy: i64 = ((k / 3) % 3) as i64 - 1;
        let dz: i64 = (k % 3) as i64 - 1;
        Cell {
            x: self.x.wrapping_add(dx),
            y: self.y.wrapping_add(dy),
            z: self.z.wrapping_add(dz),
        }
    }
}

/// A cell whose coordinates differ from those of `a` by at most one on
/// every axis lies in the block around `a`.
pub proof fn lemma_adjacent_cells_touch(a: Cell, b: Cell)
    requires
        -1 <= b.x - a.x <= 1,
        -1 <= b.y - a.y <= 1,
        -1 <= b.z - a.z <= 1,
    ensures
        a.touches(b),
{
    let k = (b.x - a.x + 1) * 9 + (b.y - a.y + 1) * 3 + (b.z - a.z + 1);
    assert(0 <= k < 27);
    assert(k / 9 - 1 == b.x - a.x);
    assert((k / 3) % 3 - 1 == b.y - a.y);
    assert(k % 3 - 1 == b.z - a.z);
    assert(a.neighbor(k) == b);
}

/// Away from the ends of the coordinates, a cell in the block around `a`
/// differs from `a` by at most one on every axis.
pub proof fn lemma_touching_cells_adjacent(a: Cell, b: Cell)
    requires
        a.touches(b),
        i64::MIN < a.x < i64::MAX,
        i64::MIN < a.y < i64::MAX,
        i64::MIN < a.z < i64::MAX,
    ensures
        -1 <= b.x - a.x <= 1,
        -1 <= b.y - a.y <= 1,
        -1 <= b.z - a.z <= 1,
{
    let k = choose|k: int| 0 <= k < 27 && #[trigger] a.neighbor(k) == b;
    assert(-1 <= k / 9 - 1 <= 1);
    assert(-1 <= (k / 3) % 3 - 1 <= 1);
    assert(-1 <= k % 3 - 1 <= 1);
}

/// The twenty-seven cells of a block are pairwise different.
pub proof fn lemma_neighbors_distinct(a: Cell, j: int, k: int)
    requires
        0 <= j < 27,
        0 <= k < 27,
        a.neighbor(j) == a.neighbor(k),
    ensures
        j == k,
{
    assert(j / 9 == k / 9);
    assert((j / 3) % 3 == (k / 3) % 3);
    assert(j % 3 == k % 3);
}

} // verus!
