//! The swarm's model of one actor instance.
//!
//! An instance is a fixed header followed by a run of inline words whose
//! length may change while the instance lives.  The swarm never interprets
//! the words; all it reads is the current footprint in bytes, which decides
//! the size class the instance is stored in.

use vstd::prelude::*;
use crate::id::RawID;

verus! {

/// Bytes of the fixed prefix every instance carries.
pub const INSTANCE_HEADER_BYTES: usize = 16;

/// Bytes per inline payload word.
pub const BYTES_PER_WORD: usize = 8;

/// Footprint in bytes of an instance with `len` payload words, saturating
/// at `usize::MAX` (a footprint that large is unrealizable anyway).
pub open spec fn spec_size_for_len(len: nat) -> nat {
    if INSTANCE_HEADER_BYTES + BYTES_PER_WORD * len <= usize::MAX {
        (INSTANCE_HEADER_BYTES + BYTES_PER_WORD * len) as nat
    } else {
        usize::MAX as nat
    }
}

/// The user-visible part of an instance: its inline, variable-length data.
/// Handlers may read and rewrite it freely; the swarm re-homes the instance
/// when the footprint outgrows its size class.
pub struct InstanceState {
    /// The inline words.
    pub payload: Vec<u64>,
}

impl View for InstanceState {
    type V = Seq<u64>;

    open spec fn view(&self) -> Seq<u64> {
        self.payload@
    }
}

impl InstanceState {
    /// Current footprint of this state, as a mathematical value.
    pub open spec fn spec_size(self) -> nat {
        spec_size_for_len(self@.len())
    }

    /// A state with no payload words.
    pub fn empty() -> (r: InstanceState)
        ensures
            r@ == Seq::<u64>::empty(),
    {
        InstanceState { payload: Vec::new() }
    }

    /// Wrap a prepared payload.
    pub fn from_payload(payload: Vec<u64>) -> (r: InstanceState)
        ensures
            r@ == payload@,
    {
        InstanceState { payload }
    }

    /// Number of payload words.
    pub fn len(&self) -> (r: usize)
        ensures
            r == self@.len(),
    {
        self.payload.len()
    }

    /// Read one payload word.
    pub fn word(&self, i: usize) -> (r: u64)
        requires
            i < self@.len(),
        ensures
            r == self@[i as int],
    {
        self.payload[i]
    }

    /// Overwrite one payload word.
    pub fn set_word(&mut self, i: usize, w: u64)
        requires
            i < old(self)@.len(),
        ensures
            final(self)@ == old(self)@.update(i as int, w),
    {
        self.payload.remove(i);
        self.payload.insert(i, w);
        proof {
            assert(self@ =~= old(self)@.update(i as int, w));
        }
    }

    /// Append one payload word, growing the footprint.
    pub fn push_word(&mut self, w: u64)
        ensures
            final(self)@ == old(self)@.push(w),
    {
        self.payload.push(w);
    }

    /// Current footprint in bytes: the fixed header plus the inline words,
    /// saturating at `usize::MAX`.
    pub fn total_size_bytes(&self) -> (r: usize)
        ensures
            r == self.spec_size(),
    {
        let len = self.payload.len();
        if len <= (usize::MAX - INSTANCE_HEADER_BYTES) / BYTES_PER_WORD {
            proof {
                assert(BYTES_PER_WORD * len <= usize::MAX - INSTANCE_HEADER_BYTES) by (nonlinear_arith)
                    requires
                        len <= (usize::MAX - INSTANCE_HEADER_BYTES) / BYTES_PER_WORD as int,
                ;
            }
            INSTANCE_HEADER_BYTES + BYTES_PER_WORD * len
        } else {
            proof {
                assert(INSTANCE_HEADER_BYTES + BYTES_PER_WORD * len > usize::MAX) by (nonlinear_arith)
                    requires
                        len > (usize::MAX - INSTANCE_HEADER_BYTES) / BYTES_PER_WORD as int,
                ;
            }
            usize::MAX
        }
    }

    /// A deep copy of this state.
    pub fn duplicate(&self) -> (r: InstanceState)
        ensures
            r@ == self@,
    {
        let mut payload: Vec<u64> = Vec::new();
        let n = self.payload.len();
        let mut i: usize = 0;
        while i < n
            invariant
                i <= n,
                n == self@.len(),
                payload@ == self@.subrange(0, i as int),
            decreases n - i,
        {
            payload.push(self.payload[i]);
            i += 1;
            proof {
                assert(payload@ =~= self@.subrange(0, i as int));
            }
        }
        proof {
            assert(payload@ =~= self@);
        }
        InstanceState { payload }
    }
}

/// One stored actor instance: its installed identity and its state.
pub struct Instance {
    /// The versioned handle the swarm installed when it emplaced the instance.
    pub id: RawID,
    /// The user-visible state.
    pub state: InstanceState,
}

impl Instance {
    /// Footprint of the whole instance.
    pub open spec fn spec_size(self) -> nat {
        self.state.spec_size()
    }
}

} // verus!
