//! The thin surface towards the enclosing runtime: registering an actor
//! kind so its swarm takes part in dispatch, and asking for a singleton
//! instance to be spawned.

use vstd::prelude::*;
use crate::instance::InstanceState;
use crate::messaging::World;

verus! {

/// The enclosing system's record of which actor kinds are registered.
pub struct ActorSystem {
    registered: Vec<u16>,
}

impl ActorSystem {
    /// The registered kind identities, in registration order.
    pub closed spec fn registered(self) -> Seq<u16> {
        self.registered@
    }

    /// A system with nothing registered yet.
    pub fn new() -> (r: ActorSystem)
        ensures
            r.registered() == Seq::<u16>::empty(),
    {
        ActorSystem { registered: Vec::new() }
    }

    /// Is an actor kind registered?
    pub fn is_registered(&self, kind: u16) -> (r: bool)
        ensures
            r <==> self.registered().contains(kind),
    {
        let n = self.registered.len();
        let mut i: usize = 0;
        while i < n
            invariant
                i <= n,
                n == self.registered().len(),
                forall|k: int| 0 <= k < i ==> self.registered()[k] != kind,
            decreases n - i,
        {
            if self.registered[i] == kind {
                return true;
            }
            i += 1;
        }
        false
    }
}

/// Register one actor kind with the enclosing system, so that packets for
/// it are routed to its swarm.
pub fn setup(system: &mut ActorSystem, kind: u16)
    ensures
        final(system).registered() == old(system).registered().push(kind),
{
    system.registered.push(kind);
}

/// Ask for the spawn of one instance with an empty initial state; the
/// request is honoured by the next dispatch that drains the world.
pub fn spawn(world: &mut World)
    ensures
        final(world)@ == old(world)@.push(Seq::<u64>::empty()),
{
    let st = InstanceState::empty();
    proof {
        assert(st@ =~= Seq::<u64>::empty());
    }
    world.request_spawn(st);
}

} // verus!
