//! Entity identifiers as the library sees them.

use vstd::prelude::*;

verus! {

/// The slot index that Bevy reads from the identifier `bits` of an entity
/// (`Entity::try_from_bits`, then `Entity::index_u32`): none when the low 32
/// bits are 0, else their complement, as the slot is held inverted there.
pub open spec fn entity_slot(bits: u64) -> Option<u32> {
    let low: int = bits as int % 0x1_0000_0000;
    if low == 0 {
        None
    } else {
        Some((0xffff_ffff - low) as u32)
    }
}

/// Bevy's `Entity::try_from_bits`, with the slot index of the entity read
/// off by `Entity::index_u32`. Bevy's documentation calls the bits opaque;
/// the contract states what the source of the version in use does with them
/// (the slot is a `NonMaxU32`, stored as its complement).
#[verifier::external_body]
fn slot_of_bits(bits: u64) -> (r: Option<u32>)
    ensures
        r == entity_slot(bits),
{
    bevy::ecs::entity::Entity::try_from_bits(bits).map(|e| e.index_u32())
}

/// An entity of the simulation world, held as plain values.
///
/// `bits` is the entity's full identifier; two entities are the same exactly
/// when their identifiers are, and entities are ordered by `bits`.
/// `index` is the entity's slot index, the number by which the engine picks
/// a stable colour for a group of nodes; for an identifier built by
/// [`EntityId::from_bits`] it is the one Bevy reads from the bits.
#[derive(Clone, Copy, Debug, PartialEq, Eq, Structural)]
pub struct EntityId {
    pub bits: u64,
    pub index: u32,
}

impl EntityId {
    /// The identifier of the entity whose bits are `bits`, with its slot
    /// index; none when `bits` are no entity's identifier.
    pub fn from_bits(bits: u64) -> (r: Option<EntityId>)
        ensures
            match r {
                Some(e) => e.bits == bits && entity_slot(bits) == Some(e.index),
                None => entity_slot(bits) is None,
            },
    {
        match slot_of_bits(bits) {
            Some(index) => Some(EntityId { bits, index }),
            None => None,
        }
    }
}

} // verus!
