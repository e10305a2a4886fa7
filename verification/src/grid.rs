//! The spatial index: particles grouped by the bucket of their grid cell.

use crate::bucket::{bucket_keys, bucket_of, spec_bucket_keys};
use crate::cell::{lemma_adjacent_cells_touch, lemma_neighbors_distinct, Cell};
use crate::grouping::{
    group_by_key, grouped, lemma_count_below_bounds, lemma_count_below_monotone,
    lemma_grouped_is_permutation, lemma_positions_ascending, lemma_positions_contains,
    lemma_positions_entry, lemma_slot_in_run, positions, slot_of,
};
use vstd::prelude::*;

verus! {

/// What an index holds, as mathematical sequences.
pub ghost struct IndexView {
    /// The cell of every particle, by particle number.
    pub cells: Seq<Cell>,
    /// Where the run of each bucket starts; one entry more than buckets.
    pub offsets: Seq<usize>,
    /// The particle numbers, bucket after bucket.
    pub particle_indices: Seq<usize>,
}

impl IndexView {
    /// The index is the grouped layout of its particles by bucket, in a
    /// table with as many buckets as there are particles, and the
    /// population is one that a vector can hold.
    pub open spec fn wf(self) -> bool {
        &&& self.cells.len() <= usize::MAX
        &&& grouped(spec_bucket_keys(self.cells), self.offsets, self.particle_indices)
    }
}

/// A snapshot of where the particles are, built once for a whole step.
///
/// Particle `i` lies in `cells[i]`. The particles of one bucket are
/// contiguous in `particle_indices`; two cells may share a bucket, so a
/// query compares cells before it reports a particle.
pub struct SpatialIndex {
    cells: Vec<Cell>,
    offsets: Vec<usize>,
    particle_indices: Vec<usize>,
}

impl View for SpatialIndex {
    type V = IndexView;

    closed spec fn view(&self) -> IndexView {
        IndexView {
            cells: self.cells@,
            offsets: self.offsets@,
            particle_indices: self.particle_indices@,
        }
    }
}

/// The particles in the block of cells around `c`: for each of the first
/// `upto` cells of the block, in the order of `Cell::neighbor`, the
/// particles that lie in it, in ascending order.
pub open spec fn spec_neighbors(cells: Seq<Cell>, c: Cell, upto: int) -> Seq<usize>
    decreases upto,
{
    if upto <= 0 {
        Seq::empty()
    } else {
        spec_neighbors(cells, c, upto - 1) + positions(
            cells,
            c.neighbor(upto - 1),
            cells.len() as int,
        )
    }
}

impl SpatialIndex {
    /// Builds the index of a population from the cell of each particle.
    pub fn build(cells: Vec<Cell>) -> (idx: SpatialIndex)
        ensures
            idx@.wf(),
            idx@.cells == cells@,
    {
        let keys = bucket_keys(&cells);
        let (offsets, particle_indices) = group_by_key(&keys);
        assert(cells@.len() == keys.len());
        SpatialIndex { cells, offsets, particle_indices }
    }

    /// The number of particles.
    pub fn len(&self) -> (n: usize)
        ensures
            n == self@.cells.len(),
    {
        self.cells.len()
    }

    /// The cell of every particle.
    pub fn cells(&self) -> (r: &Vec<Cell>)
        ensures
            r@ == self@.cells,
    {
        &self.cells
    }

    /// The table of bucket offsets.
    pub fn offsets(&self) -> (r: &Vec<usize>)
        ensures
            r@ == self@.offsets,
    {
        &self.offsets
    }

    /// The particle numbers, bucket after bucket.
    pub fn particle_indices(&self) -> (r: &Vec<usize>)
        ensures
            r@ == self@.particle_indices,
    {
        &self.particle_indices
    }

    /// Appends to `out` the particles that lie in cell `c`, in ascending
    /// order.
    pub fn append_residents(&self, c: Cell, out: &mut Vec<usize>)
        requires
            self@.wf(),
        ensures
            final(out)@ == old(out)@ + positions(self@.cells, c, self@.cells.len() as int),
    {
        let n = self.cells.len();
        let ghost cells = self.cells@;
        let ghost keys = spec_bucket_keys(cells);
        if n == 0 {
            assert(out@ =~= old(out)@ + positions(cells, c, 0));
            return ;
        }
        let b = bucket_of(c, n);
        let start = self.offsets[b];
        let end = self.offsets[b + 1];
        let ghost run = positions(keys, b, n as int);
        proof {
            assert(self.particle_indices@.subrange(start as int, end as int) == run);
            assert(self.particle_indices@.subrange(start as int, end as int).len() == run.len());
            lemma_count_below_bounds(keys, b + 1, n as int);
            lemma_count_below_monotone(keys, b as int, b + 1, n as int);
        }
        let mut t = start;
        while t < end
            invariant
                self@.wf(),
                n == self.cells@.len(),
                cells == self.cells@,
                keys == spec_bucket_keys(cells),
                b < n,
                start <= t <= end <= n,
                run == positions(keys, b, n as int),
                run == self.particle_indices@.subrange(start as int, end as int),
                out@ == old(out)@ + kept(run, cells, c, t - start),
            decreases end - t,
        {
            let j = self.particle_indices[t];
            proof {
                assert(run[t - start] == j);
                lemma_positions_entry(keys, b, n as int, t - start);
            }
            if self.cells[j] == c {
                out.push(j);
            }
            proof {
                assert(out@ =~= old(out)@ + kept(run, cells, c, t + 1 - start));
            }
            t += 1;
        }
        proof {
            assert forall|i: int| 0 <= i < cells.len() && cells[i] == c implies keys[i] == b by {}
            lemma_kept_of_run(cells, keys, b, c, n as int);
        }
    }

    /// The particles that lie in cell `c`, in ascending order.
    pub fn residents(&self, c: Cell) -> (r: Vec<usize>)
        requires
            self@.wf(),
        ensures
            r@ == positions(self@.cells, c, self@.cells.len() as int),
    {
        let mut r: Vec<usize> = Vec::new();
        self.append_residents(c, &mut r);
        r
    }

    /// Appends to `out` the particles that lie in the block of
    /// twenty-seven cells around `c`: each of them once, and no other
    /// particle.
    pub fn append_neighbors(&self, c: Cell, out: &mut Vec<usize>)
        requires
            self@.wf(),
        ensures
            final(out)@ == old(out)@ + spec_neighbors(self@.cells, c, 27),
    {
        let mut k: usize = 0;
        assert(out@ =~= old(out)@ + spec_neighbors(self@.cells, c, 0));
        while k < 27
            invariant
                self@.wf(),
                k <= 27,
                out@ == old(out)@ + spec_neighbors(self@.cells, c, k as int),
            decreases 27 - k,
        {
            let near = c.neighbor_at(k);
            self.append_residents(near, out);
            assert(out@ =~= old(out)@ + spec_neighbors(self@.cells, c, k + 1));
            k += 1;
        }
    }

    /// The particles that lie in the block of twenty-seven cells around
    /// `c`: each of them once, and no other particle.
    pub fn neighbors(&self, c: Cell) -> (r: Vec<usize>)
        requires
            self@.wf(),
        ensures
            r@ == spec_neighbors(self@.cells, c, 27),
            r@.no_duplicates(),
            forall|j: usize|
                r@.contains(j) <==> j < self@.cells.len() && c.touches(self@.cells[j as int]),
    {
        let mut r: Vec<usize> = Vec::new();
        self.append_neighbors(c, &mut r);
        proof {
            lemma_neighbors_no_duplicates(self@.cells, c);
            assert forall|j: usize|
                r@.contains(j) <==> j < self@.cells.len() && c.touches(self@.cells[j as int]) by {
                lemma_neighbors_exact(self@.cells, c, j);
            }
        }
        r
    }
}

/// An index neither loses a particle nor holds one twice: the particle
/// numbers of its layout are the numbers below the size of the population,
/// each of them once.
pub proof fn lemma_index_holds_each_particle_once(v: IndexView)
    requires
        v.wf(),
    ensures
        v.particle_indices.len() == v.cells.len(),
        v.particle_indices.no_duplicates(),
        forall|j: usize| v.particle_indices.contains(j) <==> j < v.cells.len(),
{
    let keys = spec_bucket_keys(v.cells);
    lemma_grouped_is_permutation(keys, v.offsets, v.particle_indices);
    assert forall|j: usize| j < v.cells.len() implies v.particle_indices.contains(j) by {
        lemma_slot_in_run(keys, j as int);
        assert(v.particle_indices[slot_of(keys, j as int)] == j);
    }
}

/// A particle is reported for the first `upto` cells of a block exactly if
/// it lies in one of them.
pub proof fn lemma_neighbors_membership(cells: Seq<Cell>, c: Cell, upto: int, j: usize)
    requires
        cells.len() <= usize::MAX,
        0 <= upto,
    ensures
        spec_neighbors(cells, c, upto).contains(j) <==> j < cells.len() && exists|k: int|
            0 <= k < upto && #[trigger] c.neighbor(k) == cells[j as int],
    decreases upto,
{
    if upto > 0 {
        let n = cells.len() as int;
        let before = spec_neighbors(cells, c, upto - 1);
        let last = positions(cells, c.neighbor(upto - 1), n);
        let all = spec_neighbors(cells, c, upto);
        lemma_neighbors_membership(cells, c, upto - 1, j);
        lemma_positions_contains(cells, c.neighbor(upto - 1), n, j);
        if before.contains(j) {
            let t = choose|t: int| 0 <= t < before.len() && before[t] == j;
            assert(all[t] == j);
        }
        if last.contains(j) {
            let t = choose|t: int| 0 <= t < last.len() && last[t] == j;
            assert(all[before.len() + t] == j);
        }
        if all.contains(j) {
            let t = choose|t: int| 0 <= t < all.len() && all[t] == j;
            if t < before.len() {
                assert(before[t] == j);
            } else {
                assert(last[t - before.len()] == j);
            }
        }
    }
}

/// The particles reported for a block are exactly those that lie in a cell
/// of the block.
pub proof fn lemma_neighbors_exact(cells: Seq<Cell>, c: Cell, j: usize)
    requires
        cells.len() <= usize::MAX,
    ensures
        spec_neighbors(cells, c, 27).contains(j) <==> j < cells.len() && c.touches(
            cells[j as int],
        ),
{
    lemma_neighbors_membership(cells, c, 27, j);
}

/// The search around a cell is complete: a particle whose cell is at most
/// one step away from `c` on every axis is among those reported for `c`.
pub proof fn lemma_neighbors_complete(cells: Seq<Cell>, c: Cell, j: usize)
    requires
        cells.len() <= usize::MAX,
        j < cells.len(),
        -1 <= cells[j as int].x - c.x <= 1,
        -1 <= cells[j as int].y - c.y <= 1,
        -1 <= cells[j as int].z - c.z <= 1,
    ensures
        spec_neighbors(cells, c, 27).contains(j),
{
    lemma_adjacent_cells_touch(c, cells[j as int]);
    lemma_neighbors_exact(cells, c, j);
}

/// No particle is reported twice for a block.
pub proof fn lemma_neighbors_no_duplicates(cells: Seq<Cell>, c: Cell)
    requires
        cells.len() <= usize::MAX,
    ensures
        spec_neighbors(cells, c, 27).no_duplicates(),
{
    lemma_neighbors_prefix_no_duplicates(cells, c, 27);
}

/// No particle is reported twice for the first `upto` cells of a block.
proof fn lemma_neighbors_prefix_no_duplicates(cells: Seq<Cell>, c: Cell, upto: int)
    requires
        cells.len() <= usize::MAX,
        0 <= upto <= 27,
    ensures
        spec_neighbors(cells, c, upto).no_duplicates(),
    decreases upto,
{
    if upto > 0 {
        let n = cells.len() as int;
        let before = spec_neighbors(cells, c, upto - 1);
        let last = positions(cells, c.neighbor(upto - 1), n);
        lemma_neighbors_prefix_no_duplicates(cells, c, upto - 1);
        assert forall|q: int, r: int| 0 <= q < r < last.len() implies last[q] != last[r] by {
            lemma_positions_ascending(cells, c.neighbor(upto - 1), n, q, r);
        }
        assert forall|q: int, r: int| 0 <= q < before.len() && 0 <= r < last.len() implies before[q]
            != last[r] by {
            let j = before[q];
            if j == last[r] {
                assert(before.contains(j));
                assert(last.contains(j));
                lemma_neighbors_membership(cells, c, upto - 1, j);
                lemma_positions_contains(cells, c.neighbor(upto - 1), n, j);
                let k = choose|k: int| 0 <= k < upto - 1 && #[trigger] c.neighbor(k) == cells[j as int];
                lemma_neighbors_distinct(c, k, upto - 1);
            }
        }
        vstd::seq_lib::lemma_no_dup_in_concat(before, last);
    }
}

/// The entries `run[t]`, for `t` below `upto`, whose particle lies in `c`.
spec fn kept(run: Seq<usize>, cells: Seq<Cell>, c: Cell, upto: int) -> Seq<usize>
    decreases upto,
{
    if upto <= 0 {
        Seq::empty()
    } else if cells[run[upto - 1] as int] == c {
        kept(run, cells, c, upto - 1).push(run[upto - 1])
    } else {
        kept(run, cells, c, upto - 1)
    }
}

proof fn lemma_kept_prefix(a: Seq<usize>, b: Seq<usize>, cells: Seq<Cell>, c: Cell, upto: int)
    requires
        0 <= upto <= a.len(),
        upto <= b.len(),
        forall|t: int| 0 <= t < upto ==> a[t] == b[t],
    ensures
        kept(a, cells, c, upto) == kept(b, cells, c, upto),
    decreases upto,
{
    if upto > 0 {
        lemma_kept_prefix(a, b, cells, c, upto - 1);
    }
}

/// Walking the run of a bucket and keeping the particles of one cell of
/// that bucket gives the particles of the cell, in ascending order.
proof fn lemma_kept_of_run(cells: Seq<Cell>, keys: Seq<usize>, b: usize, c: Cell, upto: int)
    requires
        keys.len() == cells.len(),
        0 <= upto <= cells.len() <= usize::MAX,
        forall|i: int| 0 <= i < cells.len() && cells[i] == c ==> keys[i] == b,
    ensures
        kept(positions(keys, b, upto), cells, c, positions(keys, b, upto).len() as int)
            == positions(cells, c, upto),
    decreases upto,
{
    if upto > 0 {
        lemma_kept_of_run(cells, keys, b, c, upto - 1);
        let shorter = positions(keys, b, upto - 1);
        if keys[upto - 1] == b {
            let longer = shorter.push((upto - 1) as usize);
            lemma_kept_prefix(longer, shorter, cells, c, shorter.len() as int);
            assert(longer[longer.len() - 1] == upto - 1);
        }
    }
}

} // verus!
