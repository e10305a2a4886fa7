//! Layout of the table of attraction coefficients.
//!
//! Every ordered pair of particle types has a coefficient of its own: the
//! one that acts on a particle of type `a` because of a neighbor of type
//! `b` is entry `a * id_count + b` of a flat table with `id_count` times
//! `id_count` entries. The table need not be symmetric.

use vstd::prelude::*;

verus! {

/// The entry of the ordered pair `(a, b)` in a table for `id_count` types.
pub open spec fn spec_slot(a: u32, b: u32, id_count: u32) -> int {
    a * id_count + b
}

/// The shape of a table that has been checked against its number of types.
#[derive(Clone, Copy, Debug)]
pub struct AttractionLayout {
    id_count: u32,
    entries: usize,
}

impl AttractionLayout {
    /// The number of particle types.
    pub closed spec fn types(self) -> u32 {
        self.id_count
    }

    /// The table has one entry for every ordered pair of types.
    pub closed spec fn wf(self) -> bool {
        self.entries == self.id_count * self.id_count
    }

    /// Accepts a table of `entries` coefficients for `id_count` types, if
    /// it has exactly one entry for every ordered pair of types.
    pub fn new(id_count: u32, entries: usize) -> (r: Option<AttractionLayout>)
        ensures
            r is Some <==> entries == id_count * id_count,
            r is Some ==> r->0.wf() && r->0.types() == id_count,
    {
        assert(id_count * id_count <= u64::MAX) by (nonlinear_arith)
            requires
                id_count <= u32::MAX,
        ;
        let want: u64 = (id_count as u64) * (id_count as u64);
        if entries as u64 == want {
            Some(AttractionLayout { id_count, entries })
        } else {
            None
        }
    }

    /// The number of particle types.
    pub fn id_count(&self) -> (n: u32)
        ensures
            n == self.types(),
    {
        self.id_count
    }

    /// The number of entries of the table.
    pub fn len(&self) -> (n: usize)
        requires
            self.wf(),
        ensures
            n == self.types() * self.types(),
    {
        self.entries
    }

    /// Whether every particle type of `ids` is one of the table's types.
    pub fn covers(&self, ids: &Vec<u32>) -> (ok: bool)
        ensures
            ok <==> forall|i: int| 0 <= i < ids@.len() ==> ids@[i] < self.types(),
    {
        let mut i: usize = 0;
        while i < ids.len()
            invariant
                i <= ids@.len(),
                forall|k: int| 0 <= k < i ==> ids@[k] < self.types(),
            decreases ids@.len() - i,
        {
            if ids[i] >= self.id_count {
                return false;
            }
            i += 1;
        }
        true
    }

    /// The entry of the coefficient that acts on a particle of type `a`
    /// because of a neighbor of type `b`.
    pub fn slot(&self, a: u32, b: u32) -> (s: usize)
        requires
            self.wf(),
            a < self.types(),
            b < self.types(),
        ensures
            s == spec_slot(a, b, self.types()),
            s < self.types() * self.types(),
    {
        proof {
            lemma_slot_in_table(a, b, self.id_count);
            assert(a * self.id_count <= spec_slot(a, b, self.id_count));
        }
        (a as usize) * (self.id_count as usize) + (b as usize)
    }
}

/// The entry of a pair of known types lies inside the table.
pub proof fn lemma_slot_in_table(a: u32, b: u32, id_count: u32)
    requires
        a < id_count,
        b < id_count,
    ensures
        0 <= spec_slot(a, b, id_count) < id_count * id_count,
{
    assert(a * id_count + id_count <= id_count * id_count) by (nonlinear_arith)
        requires
            0 <= a < id_count,
    ;
    assert(0 <= a * id_count) by (nonlinear_arith)
        requires
            0 <= a,
            0 <= id_count,
    ;
}

/// Different ordered pairs of types have different entries. In particular
/// the coefficient that acts on `a` because of `b` is stored apart from the
/// one that acts on `b` because of `a`, so that the two may differ.
pub proof fn lemma_slots_differ(a: u32, b: u32, c: u32, d: u32, id_count: u32)
    requires
        a < id_count,
        b < id_count,
        c < id_count,
        d < id_count,
        a != c || b != d,
    ensures
        spec_slot(a, b, id_count) != spec_slot(c, d, id_count),
{
    if a < c {
        assert(a * id_count + id_count <= c * id_count) by (nonlinear_arith)
            requires
                a < c,
                0 <= id_count,
        ;
    } else if c < a {
        assert(c * id_count + id_count <= a * id_count) by (nonlinear_arith)
            requires
                c < a,
                0 <= id_count,
        ;
    }
}

} // verus!
