//! The conditions that a step of the simulation meets before anything moves.
//!
//! A step is refused as a whole when the world is narrower than two effect
//! radii, when the table of attraction coefficients does not have one entry
//! for every ordered pair of types, or when a particle has a type that the
//! table does not know. The search for neighbors looks at one periodic
//! image per axis, and the coefficient of a pair of types is read at an
//! entry that only a table of the right shape has, so none of the three
//! can be let through.

use crate::attraction::AttractionLayout;
use vstd::prelude::*;

verus! {

/// Why a step was refused.
#[derive(Clone, Copy, Debug, PartialEq, Eq, Structural)]
pub enum Refusal {
    /// The world is narrower than two effect radii.
    WorldTooSmall,
    /// The table of coefficients does not have `id_count` times `id_count`
    /// entries.
    TableShape,
    /// Some particle has a type that is not below `id_count`.
    UnknownType,
}

/// Admits or refuses a step.
///
/// `world_holds_two_radii` says whether the edge of the world is at least
/// twice the effect radius; `entries` is the length of the table of
/// coefficients; `ids` holds the type of every particle. The checks are
/// made in that order, and the first that fails names the refusal. An
/// admitted step gets the layout of the table.
pub fn admit_tick(world_holds_two_radii: bool, id_count: u32, entries: usize, ids: &Vec<u32>) -> (r:
    Result<AttractionLayout, Refusal>)
    ensures
        r is Ok <==> world_holds_two_radii && entries == id_count * id_count && (forall|i: int|
            0 <= i < ids@.len() ==> ids@[i] < id_count),
        r is Ok ==> r->Ok_0.wf() && r->Ok_0.types() == id_count,
        !world_holds_two_radii ==> r matches Err(Refusal::WorldTooSmall),
        world_holds_two_radii && entries != id_count * id_count ==> r matches Err(
            Refusal::TableShape,
        ),
        world_holds_two_radii && entries == id_count * id_count && (exists|i: int|
            0 <= i < ids@.len() && ids@[i] >= id_count) ==> r matches Err(Refusal::UnknownType),
{
    if !world_holds_two_radii {
        return Err(Refusal::WorldTooSmall);
    }
    match AttractionLayout::new(id_count, entries) {
        None => Err(Refusal::TableShape),
        Some(layout) => {
            if layout.covers(ids) {
                Ok(layout)
            } else {
                Err(Refusal::UnknownType)
            }
        },
    }
}

} // verus!
