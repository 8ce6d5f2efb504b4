//! Ready-made handlers.
//!
//! They follow one payload convention: word 0 is a tag that selects which
//! instances a broadcast acts on, and word 1 — where present — is a
//! delivery counter the handler bumps on every visit, so a test can read
//! off exactly how many times each instance received a message.

use vstd::prelude::*;
use crate::instance::InstanceState;
use crate::messaging::{Fate, Handler, World};

verus! {

/// `w + 1`, saturating at the maximum.
pub open spec fn bump_word(w: u64) -> u64 {
    if w == u64::MAX {
        w
    } else {
        (w + 1) as u64
    }
}

/// A payload with its delivery counter (word 1) bumped, where it has one.
pub open spec fn counted(s: Seq<u64>) -> Seq<u64> {
    if s.len() > 1 {
        s.update(1, bump_word(s[1]))
    } else {
        s
    }
}

/// `n` zero words.
pub open spec fn zero_words(n: nat) -> Seq<u64> {
    Seq::new(n, |i: int| 0u64)
}

/// Does the payload carry the given tag in word 0?
pub open spec fn has_tag(s: Seq<u64>, tag: u64) -> bool {
    s.len() > 0 && s[0] == tag
}

/// Bump the delivery counter of a state, if it has one.
fn bump_counter(state: &mut InstanceState)
    ensures
        final(state)@ == counted(old(state)@),
{
    if state.len() > 1 {
        let w = state.word(1);
        let bumped = if w == u64::MAX {
            w
        } else {
            w + 1
        };
        state.set_word(1, bumped);
    }
}

/// Leaves every instance exactly as it was: no rewrite, `Live`, no spawns.
pub struct NoopHandler;

impl<M> Handler<M> for NoopHandler {
    open spec fn out_state(&self, m: M, s: Seq<u64>) -> Seq<u64> {
        s
    }

    open spec fn out_fate(&self, m: M, s: Seq<u64>) -> Fate {
        Fate::Live
    }

    open spec fn out_spawns(&self, m: M, s: Seq<u64>) -> Seq<Seq<u64>> {
        Seq::empty()
    }

    fn handle(&self, m: &M, state: &mut InstanceState, world: &mut World) -> (f: Fate) {
        proof {
            assert(world@ + Seq::<Seq<u64>>::empty() =~= world@);
        }
        Fate::Live
    }
}

/// Bumps each visited instance's delivery counter and lets it live.
pub struct CountHandler;

impl<M> Handler<M> for CountHandler {
    open spec fn out_state(&self, m: M, s: Seq<u64>) -> Seq<u64> {
        counted(s)
    }

    open spec fn out_fate(&self, m: M, s: Seq<u64>) -> Fate {
        Fate::Live
    }

    open spec fn out_spawns(&self, m: M, s: Seq<u64>) -> Seq<Seq<u64>> {
        Seq::empty()
    }

    fn handle(&self, m: &M, state: &mut InstanceState, world: &mut World) -> (f: Fate) {
        bump_counter(state);
        proof {
            assert(world@ + Seq::<Seq<u64>>::empty() =~= world@);
        }
        Fate::Live
    }
}

/// Bumps the counter, and returns `Die` for instances carrying its tag.
pub struct KillTagHandler {
    /// The tag whose bearers are killed.
    pub tag: u64,
}

impl<M> Handler<M> for KillTagHandler {
    open spec fn out_state(&self, m: M, s: Seq<u64>) -> Seq<u64> {
        counted(s)
    }

    open spec fn out_fate(&self, m: M, s: Seq<u64>) -> Fate {
        if has_tag(s, self.tag) {
            Fate::Die
        } else {
            Fate::Live
        }
    }

    open spec fn out_spawns(&self, m: M, s: Seq<u64>) -> Seq<Seq<u64>> {
        Seq::empty()
    }

    fn handle(&self, m: &M, state: &mut InstanceState, world: &mut World) -> (f: Fate) {
        let tagged = state.len() > 0 && state.word(0) == self.tag;
        bump_counter(state);
        proof {
            assert(world@ + Seq::<Seq<u64>>::empty() =~= world@);
        }
        if tagged {
            Fate::Die
        } else {
            Fate::Live
        }
    }
}

/// Bumps the counter, and grows instances carrying its tag by a run of
/// zero words — enough of them, and the instance outgrows its size class.
pub struct GrowTagHandler {
    /// The tag whose bearers are grown.
    pub tag: u64,
    /// How many zero words to append.
    pub extra: usize,
}

impl<M> Handler<M> for GrowTagHandler {
    open spec fn out_state(&self, m: M, s: Seq<u64>) -> Seq<u64> {
        if has_tag(s, self.tag) {
            counted(s) + zero_words(self.extra as nat)
        } else {
            counted(s)
        }
    }

    open spec fn out_fate(&self, m: M, s: Seq<u64>) -> Fate {
        Fate::Live
    }

    open spec fn out_spawns(&self, m: M, s: Seq<u64>) -> Seq<Seq<u64>> {
        Seq::empty()
    }

    fn handle(&self, m: &M, state: &mut InstanceState, world: &mut World) -> (f: Fate) {
        let ghost s0 = state@;
        let tagged = state.len() > 0 && state.word(0) == self.tag;
        bump_counter(state);
        if tagged {
            let mut i: usize = 0;
            while i < self.extra
                invariant
                    i <= self.extra,
                    state@ == counted(s0) + zero_words(i as nat),
                decreases self.extra - i,
            {
                state.push_word(0);
                i += 1;
                proof {
                    assert(state@ =~= counted(s0) + zero_words(i as nat));
                }
            }
        }
        proof {
            assert(world@ + Seq::<Seq<u64>>::empty() =~= world@);
        }
        Fate::Live
    }
}

/// Bumps the counter, and for instances carrying its tag both grows them
/// by a run of zero words and files one spawn request — the combination
/// that makes a broadcast re-home the receiver while a fresh sub-instance
/// sits at the tail it vacates.
pub struct GrowSpawnTagHandler {
    /// The tag whose bearers grow and spawn.
    pub tag: u64,
    /// How many zero words to append to the bearer.
    pub extra: usize,
    /// The initial state of the spawned sub-instance.
    pub child: InstanceState,
}

impl<M> Handler<M> for GrowSpawnTagHandler {
    open spec fn out_state(&self, m: M, s: Seq<u64>) -> Seq<u64> {
        if has_tag(s, self.tag) {
            counted(s) + zero_words(self.extra as nat)
        } else {
            counted(s)
        }
    }

    open spec fn out_fate(&self, m: M, s: Seq<u64>) -> Fate {
        Fate::Live
    }

    open spec fn out_spawns(&self, m: M, s: Seq<u64>) -> Seq<Seq<u64>> {
        if has_tag(s, self.tag) {
            seq![self.child@]
        } else {
            Seq::empty()
        }
    }

    fn handle(&self, m: &M, state: &mut InstanceState, world: &mut World) -> (f: Fate) {
        let ghost s0 = state@;
        let tagged = state.len() > 0 && state.word(0) == self.tag;
        bump_counter(state);
        if tagged {
            let mut i: usize = 0;
            while i < self.extra
                invariant
                    i <= self.extra,
                    state@ == counted(s0) + zero_words(i as nat),
                decreases self.extra - i,
            {
                state.push_word(0);
                i += 1;
                proof {
                    assert(state@ =~= counted(s0) + zero_words(i as nat));
                }
            }
            world.request_spawn(self.child.duplicate());
            proof {
                assert(world@ =~= old(world)@ + seq![self.child@]);
            }
        } else {
            proof {
                assert(world@ + Seq::<Seq<u64>>::empty() =~= world@);
            }
        }
        Fate::Live
    }
}

/// Bumps the counter, and files one spawn request — a copy of `child` —
/// for each visited instance carrying its tag.
pub struct SpawnTagHandler {
    /// The tag whose bearers spawn.
    pub tag: u64,
    /// The initial state of the spawned sub-instance.
    pub child: InstanceState,
}

impl<M> Handler<M> for SpawnTagHandler {
    open spec fn out_state(&self, m: M, s: Seq<u64>) -> Seq<u64> {
        counted(s)
    }

    open spec fn out_fate(&self, m: M, s: Seq<u64>) -> Fate {
        Fate::Live
    }

    open spec fn out_spawns(&self, m: M, s: Seq<u64>) -> Seq<Seq<u64>> {
        if has_tag(s, self.tag) {
            seq![self.child@]
        } else {
            Seq::empty()
        }
    }

    fn handle(&self, m: &M, state: &mut InstanceState, world: &mut World) -> (f: Fate) {
        let tagged = state.len() > 0 && state.word(0) == self.tag;
        bump_counter(state);
        if tagged {
            world.request_spawn(self.child.duplicate());
            proof {
                assert(world@ =~= old(world)@ + seq![self.child@]);
            }
        } else {
            proof {
                assert(world@ + Seq::<Seq<u64>>::empty() =~= world@);
            }
        }
        Fate::Live
    }
}

} // verus!
