//! Versioned instance handles.

use vstd::prelude::*;

verus! {

/// The reserved instance id that addresses every instance of a swarm at once.
pub const BROADCAST_INSTANCE_ID: u32 = 0xFFFF_FFFF;

/// An opaque, versioned handle to one instance of an actor kind.
///
/// `instance_id` is the slot-map key; `version` counts reuses of that key,
/// so a handle kept across the death of its instance is inert: the stored
/// version no longer matches and the swarm drops messages sent through it.
/// The version counter is deliberately wide enough that wrap-around is not
/// a practical concern; it saturates at its maximum instead of wrapping.
#[derive(Clone, Copy, PartialEq, Eq, Structural, Debug)]
pub struct RawID {
    /// Identity of the actor kind this handle belongs to.
    pub type_id: u16,
    /// Originating node; opaque to the swarm.
    pub machine: u8,
    /// Reuse counter of `instance_id`; must match the slot map's record.
    pub version: u32,
    /// Key into the slot map, or `BROADCAST_INSTANCE_ID`.
    pub instance_id: u32,
}

impl RawID {
    /// Assemble a handle from its parts.
    pub fn new(type_id: u16, instance_id: u32, machine: u8, version: u32) -> (r: RawID)
        ensures
            r == (RawID { type_id, machine, version, instance_id }),
    {
        RawID { type_id, machine, version, instance_id }
    }

    /// Does this handle address every instance rather than a single one?
    pub fn is_broadcast(&self) -> (r: bool)
        ensures
            r <==> self.instance_id == BROADCAST_INSTANCE_ID,
    {
        self.instance_id == BROADCAST_INSTANCE_ID
    }
}

} // verus!
