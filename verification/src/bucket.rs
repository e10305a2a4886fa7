//! The hash that sends a grid cell to a bucket of the index.

use crate::cell::Cell;
use rayon::iter::{IntoParallelRefIterator, ParallelIterator};
use std::collections::hash_map::DefaultHasher;
use std::hash::Hasher;
use vstd::bytes::{spec_u64_to_le_bytes, u64_to_le_bytes};
use vstd::prelude::*;
use vstd::std_specs::hash::DefaultHasherAdditionalSpecFns;

verus! {

/// The eight bytes that stand for one coordinate in the hash: its
/// two's-complement value, least significant byte first.
pub open spec fn coord_bytes(c: i64) -> Seq<u8> {
    spec_u64_to_le_bytes(c as u64)
}

/// The hash of a cell: what a fresh `DefaultHasher` returns after the three
/// coordinates were written to it, `x` first.
pub open spec fn spec_cell_hash(c: Cell) -> u64 {
    DefaultHasher::spec_finish(seq![coord_bytes(c.x), coord_bytes(c.y), coord_bytes(c.z)])
}

/// The bucket of a cell in a table of `n` buckets.
pub open spec fn spec_bucket(c: Cell, n: int) -> int {
    (spec_cell_hash(c) as int) % n
}

/// The bucket of every cell of `cells`, in a table with one bucket for
/// each of them.
pub open spec fn spec_bucket_keys(cells: Seq<Cell>) -> Seq<usize> {
    Seq::new(cells.len(), |i: int| spec_bucket(cells[i], cells.len() as int) as usize)
}

/// Hashes a cell. Equal cells have equal hashes; the hash does not depend
/// on anything but the three coordinates.
pub fn cell_hash(c: Cell) -> (h: u64)
    ensures
        h == spec_cell_hash(c),
{
    let mut hasher = DefaultHasher::new();
    let bx = u64_to_le_bytes(#[verifier::truncate] (c.x as u64));
    hasher.write(bx.as_slice());
    let by = u64_to_le_bytes(#[verifier::truncate] (c.y as u64));
    hasher.write(by.as_slice());
    let bz = u64_to_le_bytes(#[verifier::truncate] (c.z as u64));
    hasher.write(bz.as_slice());
    assert(hasher@ == seq![coord_bytes(c.x), coord_bytes(c.y), coord_bytes(c.z)]);
    hasher.finish()
}

/// The bucket of a cell in a table of `n` buckets.
pub fn bucket_of(c: Cell, n: usize) -> (b: usize)
    requires
        n > 0,
    ensures
        b == spec_bucket(c, n as int),
        b < n,
{
    let h = cell_hash(c);
    (h % (n as u64)) as usize
}

/// Computes the bucket of every cell with rayon's `par_iter`, `map` and
/// `collect`, which hand the cells out to worker threads. Trusted: that the
/// collected vector has one entry for each cell, in the order of the cells,
/// and that each entry is what `bucket_of` returns for its cell.
#[verifier::external_body]
fn bucket_keys_parallel(cells: &Vec<Cell>, n: usize) -> (keys: Vec<usize>)
    requires
        n > 0,
    ensures
        keys@.len() == cells@.len(),
        forall|i: int| 0 <= i < cells@.len() ==> keys@[i] == spec_bucket(#[trigger] cells@[i], n as int),
{
    cells.par_iter().map(|c| bucket_of(*c, n)).collect()
}

/// The bucket of every cell of `cells`, in a table with one bucket for
/// each of them. Nothing is hashed where there are no cells.
pub fn bucket_keys(cells: &Vec<Cell>) -> (keys: Vec<usize>)
    ensures
        keys@ == spec_bucket_keys(cells@),
        forall|i: int| 0 <= i < keys@.len() ==> #[trigger] keys@[i] < cells@.len(),
{
    let n = cells.len();
    if n == 0 {
        return Vec::new();
    }
    let keys = bucket_keys_parallel(cells, n);
    assert(keys@ =~= spec_bucket_keys(cells@));
    keys
}

} // verus!
