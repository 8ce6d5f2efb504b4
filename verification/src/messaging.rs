//! Packets, handler outcomes, and the context handed to handlers.

use vstd::prelude::*;
use crate::id::RawID;
use crate::instance::InstanceState;

verus! {

/// What a handler decides about the instance it just ran on.
#[derive(Clone, Copy, PartialEq, Eq, Structural, Debug)]
pub enum Fate {
    /// The instance stays alive.
    Live,
    /// The instance is destroyed and its handle freed.
    Die,
}

/// A message together with the handle it is addressed to.  A recipient whose
/// `instance_id` is `BROADCAST_INSTANCE_ID` addresses every instance.
pub struct Packet<M> {
    /// Whom the message is for.
    pub recipient_id: RawID,
    /// The message itself; the swarm never reads it.
    pub message: M,
}

/// The context a handler runs in.  The swarm itself only uses it as the
/// conduit for spawn requests: a handler may ask for new instances to be
/// created, and the swarm emplaces them right after the handler returns —
/// during the very broadcast walk, if one is in progress.
pub struct World {
    /// Initial states of the instances whose creation handlers requested.
    pub(crate) spawn_requests: Vec<InstanceState>,
}

impl View for World {
    type V = Seq<Seq<u64>>;

    closed spec fn view(&self) -> Seq<Seq<u64>> {
        self.spawn_requests@.map_values(|s: InstanceState| s@)
    }
}

impl World {
    /// A context with no pending spawn requests.
    pub fn new() -> (r: World)
        ensures
            r@ == Seq::<Seq<u64>>::empty(),
    {
        let r = World { spawn_requests: Vec::new() };
        proof {
            assert(r@ =~= Seq::<Seq<u64>>::empty());
        }
        r
    }

    /// Ask the swarm to create a new instance with the given initial state.
    pub fn request_spawn(&mut self, initial_state: InstanceState)
        ensures
            final(self)@ == old(self)@.push(initial_state@),
    {
        self.spawn_requests.push(initial_state);
        proof {
            assert(self@ =~= old(self)@.push(initial_state@));
        }
    }

    /// Hand the oldest pending spawn request over to the swarm.
    pub(crate) fn take_next(&mut self) -> (r: Option<InstanceState>)
        ensures
            old(self)@.len() == 0 ==> r is None && final(self)@ == old(self)@,
            old(self)@.len() > 0 ==> r is Some && r->0@ == old(self)@[0] && final(self)@ == old(
                self,
            )@.drop_first(),
    {
        if self.spawn_requests.len() > 0 {
            let st = self.spawn_requests.remove(0);
            proof {
                assert(self@ =~= old(self)@.drop_first());
            }
            Some(st)
        } else {
            None
        }
    }

    /// How many spawn requests are pending.
    pub fn pending_spawns(&self) -> (r: usize)
        ensures
            r == self@.len(),
    {
        self.spawn_requests.len()
    }
}

/// A message handler: the user-supplied behaviour the swarm dispatches to.
///
/// The three spec functions declare, per message and per received state,
/// what the handler leaves behind, what fate it returns, and which spawns
/// it requests; `handle` is held to exactly that.  The swarm's dispatch
/// contracts are stated over these functions, so whatever is proved about a
/// dispatch holds for every handler implementation that meets its own
/// declaration.
pub trait Handler<M> {
    /// The state the handler leaves in place of `s` on message `m`.
    spec fn out_state(&self, m: M, s: Seq<u64>) -> Seq<u64>;

    /// The fate the handler returns for state `s` on message `m`.
    spec fn out_fate(&self, m: M, s: Seq<u64>) -> Fate;

    /// The spawn requests the handler files for state `s` on message `m`.
    spec fn out_spawns(&self, m: M, s: Seq<u64>) -> Seq<Seq<u64>>;

    /// Run the handler on one instance's state.
    fn handle(&self, m: &M, state: &mut InstanceState, world: &mut World) -> (f: Fate)
        ensures
            final(state)@ == self.out_state(*m, old(state)@),
            f == self.out_fate(*m, old(state)@),
            final(world)@ == old(world)@ + self.out_spawns(*m, old(state)@),
    ;
}

/// A handler that rewrites nothing, returns `Live`, and spawns nothing,
/// whatever the message and state.
pub open spec fn is_noop_handler<M, H: Handler<M>>(h: H) -> bool {
    forall|m: M, s: Seq<u64>|
        #![auto]
        h.out_state(m, s) == s && h.out_fate(m, s) == Fate::Live && h.out_spawns(m, s)
            == Seq::<Seq<u64>>::empty()
}

/// A handler that always lets its receiver live, never spawns, and never
/// grows the payload.  Under such a handler nothing relocates, so a
/// broadcast is exactly one handler application per instance.
pub open spec fn is_gentle_handler<M, H: Handler<M>>(h: H) -> bool {
    forall|m: M, s: Seq<u64>|
        #![auto]
        h.out_fate(m, s) == Fate::Live && h.out_spawns(m, s) == Seq::<Seq<u64>>::empty()
            && h.out_state(m, s).len() <= s.len()
}

/// A handler that never spawns and never grows the payload, but may kill
/// its receiver.  Under such a handler instances stay in their bins, and a
/// broadcast delivers to every instance exactly once, killed or kept.
pub open spec fn is_lean_handler<M, H: Handler<M>>(h: H) -> bool {
    forall|m: M, s: Seq<u64>|
        #![auto]
        h.out_spawns(m, s) == Seq::<Seq<u64>>::empty() && h.out_state(m, s).len() <= s.len()
}

/// A handler that always lets its receiver live and never grows it, but
/// may spawn sub-instances freely.  Under such a handler a broadcast
/// delivers to every original exactly once, and what it creates are
/// exactly the requested sub-instances, none of them delivered to.
pub open spec fn is_spawner_handler<M, H: Handler<M>>(h: H) -> bool {
    forall|m: M, s: Seq<u64>|
        #![auto]
        h.out_fate(m, s) == Fate::Live && h.out_state(m, s).len() <= s.len()
}

/// A handler that always lets its receiver live, with no other restraint:
/// it may grow the receiver out of its size class and spawn freely.  Under
/// such a handler a broadcast still delivers to every original exactly
/// once — re-homing the ones that outgrow their class mid-walk — and
/// creates nothing beyond the requested sub-instances, none delivered to.
pub open spec fn is_live_handler<M, H: Handler<M>>(h: H) -> bool {
    forall|m: M, s: Seq<u64>| #![auto] h.out_fate(m, s) == Fate::Live
}

} // verus!
