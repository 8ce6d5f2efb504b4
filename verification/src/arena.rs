//! The multi-bin arena: packed, size-classed storage of instances.
//!
//! Bin `c` holds instances whose footprint is at most `class_cap(base, c)`,
//! where capacities start at the actor kind's typical size and double per
//! class (saturating at `usize::MAX`, so every footprint has a home).  Each
//! bin is a dense run of slots: appending goes to the tail, and removal
//! swaps the tail slot into the vacated one, so slots `0..len` are always
//! populated.

use vstd::prelude::*;
use crate::id::RawID;
use crate::instance::{Instance, InstanceState};
use crate::slot_map::SlotIndices;

verus! {

/// `x` doubled, saturating at `usize::MAX`.
pub open spec fn sat_double(x: nat) -> nat {
    if 2 * x <= usize::MAX {
        2 * x
    } else {
        usize::MAX as nat
    }
}

/// Capacity of size class `c` over base capacity `base`: `base` doubled `c`
/// times, saturating at `usize::MAX`.
pub open spec fn class_cap(base: nat, c: nat) -> nat
    decreases c,
{
    if c == 0 {
        base
    } else {
        sat_double(class_cap(base, (c - 1) as nat))
    }
}

/// A capacity never exceeds `usize::MAX` if the base does not.
pub proof fn lemma_class_cap_le_max(base: nat, c: nat)
    requires
        base <= usize::MAX,
    ensures
        class_cap(base, c) <= usize::MAX,
    decreases c,
{
    if c > 0 {
        lemma_class_cap_le_max(base, (c - 1) as nat);
    }
}

/// Capacities never shrink as the class index grows.
pub proof fn lemma_class_cap_monotone(base: nat, c1: nat, c2: nat)
    requires
        base <= usize::MAX,
        c1 <= c2,
    ensures
        class_cap(base, c1) <= class_cap(base, c2),
    decreases c2,
{
    if c1 < c2 {
        lemma_class_cap_monotone(base, c1, (c2 - 1) as nat);
        lemma_class_cap_le_max(base, (c2 - 1) as nat);
    }
}

/// The arena: one vector of instances per size class, created on demand.
pub struct Arena {
    base: usize,
    bins: Vec<Vec<Instance>>,
}

/// Total number of instances across a sequence of bins.
pub open spec fn sum_lens(bins: Seq<Seq<Instance>>) -> nat
    decreases bins.len(),
{
    if bins.len() == 0 {
        0
    } else {
        sum_lens(bins.drop_last()) + bins.last().len()
    }
}

/// Replacing one bin changes the total by the difference in that bin's length.
pub proof fn lemma_sum_lens_update(bins: Seq<Seq<Instance>>, b: int, nb: Seq<Instance>)
    requires
        0 <= b < bins.len(),
    ensures
        sum_lens(bins.update(b, nb)) == sum_lens(bins) + nb.len() - bins[b].len(),
    decreases bins.len(),
{
    let upd = bins.update(b, nb);
    if b == bins.len() - 1 {
        assert(upd.drop_last() =~= bins.drop_last());
    } else {
        assert(upd.last() == bins.last());
        assert(upd.drop_last() =~= bins.drop_last().update(b, nb));
        lemma_sum_lens_update(bins.drop_last(), b, nb);
    }
}

/// A zero total means every bin is empty.
pub proof fn lemma_sum_lens_zero(bins: Seq<Seq<Instance>>, b: int)
    requires
        sum_lens(bins) == 0,
        0 <= b < bins.len(),
    ensures
        bins[b].len() == 0,
    decreases bins.len(),
{
    if b == bins.len() - 1 {
        assert(bins.last() == bins[b]);
    } else {
        lemma_sum_lens_zero(bins.drop_last(), b);
    }
}

/// Appending a bin adds its length to the total.
pub proof fn lemma_sum_lens_push(bins: Seq<Seq<Instance>>, nb: Seq<Instance>)
    ensures
        sum_lens(bins.push(nb)) == sum_lens(bins) + nb.len(),
{
    assert(bins.push(nb).drop_last() =~= bins);
}

impl Arena {
    /// The bins, as mathematical sequences.
    pub closed spec fn bins(self) -> Seq<Seq<Instance>> {
        self.bins@.map_values(|b: Vec<Instance>| b@)
    }

    /// The capacity of size class 0.
    pub closed spec fn base(self) -> usize {
        self.base
    }

    /// The arena is usable: the base capacity is positive.
    pub open spec fn wf(self) -> bool {
        self.base() >= 1
    }

    /// An empty arena whose smallest size class holds `typical_size` bytes.
    pub fn new(typical_size: usize) -> (r: Arena)
        requires
            typical_size >= 1,
        ensures
            r.wf(),
            r.base() == typical_size,
            r.bins() == Seq::<Seq<Instance>>::empty(),
    {
        let r = Arena { base: typical_size, bins: Vec::new() };
        proof {
            assert(r.bins() =~= Seq::<Seq<Instance>>::empty());
        }
        r
    }

    /// How many bins exist (some may be empty).
    pub fn bin_count(&self) -> (r: usize)
        ensures
            r == self.bins().len(),
    {
        self.bins.len()
    }

    /// Current length of bin `b`, or 0 for a bin that does not exist yet.
    pub fn bin_len(&self, b: usize) -> (r: usize)
        ensures
            r == if b < self.bins().len() {
                self.bins()[b as int].len()
            } else {
                0
            },
    {
        if b < self.bins.len() {
            self.bins[b].len()
        } else {
            0
        }
    }

    /// The capacity of size class `c`.
    pub fn capacity_of_class(&self, c: usize) -> (r: usize)
        requires
            self.wf(),
        ensures
            r == class_cap(self.base() as nat, c as nat),
    {
        let mut cap: usize = self.base;
        let mut i: usize = 0;
        while i < c
            invariant
                i <= c,
                cap == class_cap(self.base() as nat, i as nat),
            decreases c - i,
        {
            cap = if cap <= usize::MAX / 2 {
                2 * cap
            } else {
                usize::MAX
            };
            i += 1;
        }
        cap
    }

    /// The size class an instance of footprint `size` belongs in: the
    /// smallest class whose capacity holds it.
    pub fn class_for_size(&self, size: usize) -> (r: usize)
        requires
            self.wf(),
        ensures
            size <= class_cap(self.base() as nat, r as nat),
            r > 0 ==> size > class_cap(self.base() as nat, (r - 1) as nat),
    {
        let mut cap: usize = self.base;
        let mut c: usize = 0;
        while cap < size
            invariant
                self.wf(),
                cap == class_cap(self.base() as nat, c as nat),
                c > 0 ==> size > class_cap(self.base() as nat, (c - 1) as nat),
                cap >= 1,
                cap >= c,
            decreases usize::MAX - cap,
        {
            cap = if cap <= usize::MAX / 2 {
                2 * cap
            } else {
                usize::MAX
            };
            c += 1;
        }
        c
    }

    /// Append `inst` to the tail of the bin of its size class, creating the
    /// bin (and any smaller ones) if it does not exist yet.  Returns the
    /// position the instance now occupies.
    pub fn push(&mut self, inst: Instance) -> (r: SlotIndices)
        requires
            old(self).wf(),
        ensures
            final(self).wf(),
            final(self).base() == old(self).base(),
            r.bin < final(self).bins().len(),
            final(self).bins().len() >= old(self).bins().len(),
            inst.spec_size() <= class_cap(old(self).base() as nat, r.bin as nat),
            r.bin > 0 ==> inst.spec_size() > class_cap(old(self).base() as nat, (r.bin - 1) as nat),
            r.slot == if (r.bin as int) < old(self).bins().len() {
                old(self).bins()[r.bin as int].len() as int
            } else {
                0
            },
            final(self).bins()[r.bin as int] == (if (r.bin as int) < old(self).bins().len() {
                old(self).bins()[r.bin as int]
            } else {
                Seq::<Instance>::empty()
            }).push(inst),
            forall|b: int|
                0 <= b < final(self).bins().len() && b != r.bin ==> final(self).bins()[b] == (if b
                    < old(self).bins().len() {
                    old(self).bins()[b]
                } else {
                    Seq::<Instance>::empty()
                }),
            sum_lens(final(self).bins()) == sum_lens(old(self).bins()) + 1,
    {
        let size = inst.state.total_size_bytes();
        let c = self.class_for_size(size);
        while self.bins.len() <= c
            invariant
                self.base == old(self).base,
                forall|b: int|
                    0 <= b < self.bins().len() ==> self.bins()[b] == (if b < old(
                        self,
                    ).bins().len() {
                        old(self).bins()[b]
                    } else {
                        Seq::<Instance>::empty()
                    }),
                sum_lens(self.bins()) == sum_lens(old(self).bins()),
                self.bins().len() >= old(self).bins().len(),
            decreases c + 1 - self.bins.len(),
        {
            let ghost prev = *self;
            self.bins.push(Vec::new());
            proof {
                assert(self.bins() =~= prev.bins().push(Seq::<Instance>::empty()));
                lemma_sum_lens_push(prev.bins(), Seq::<Instance>::empty());
            }
        }
        let ghost mid = *self;
        let slot = self.bins[c].len();
        let mut bin = self.bins.remove(c);
        bin.push(inst);
        self.bins.insert(c, bin);
        proof {
            assert(self.bins() =~= mid.bins().update(c as int, mid.bins()[c as int].push(inst)));
            lemma_sum_lens_update(mid.bins(), c as int, mid.bins()[c as int].push(inst));
        }
        SlotIndices { bin: c, slot }
    }

    /// Remove the slot at `indices` by swapping the bin's tail slot into its
    /// place.  Returns the handle of the instance that was moved down, or
    /// `None` if the removed slot was itself the tail.
    pub fn swap_remove_within_bin(&mut self, indices: SlotIndices) -> (r: Option<RawID>)
        requires
            old(self).wf(),
            (indices.bin as int) < old(self).bins().len(),
            (indices.slot as int) < old(self).bins()[indices.bin as int].len(),
        ensures
            final(self).wf(),
            final(self).base() == old(self).base(),
            final(self).bins().len() == old(self).bins().len(),
            final(self).bins()[indices.bin as int] == old(self).bins()[indices.bin as int].update(
                indices.slot as int,
                old(self).bins()[indices.bin as int].last(),
            ).drop_last(),
            forall|b: int|
                0 <= b < final(self).bins().len() && b != indices.bin ==> final(self).bins()[b]
                    == old(self).bins()[b],
            r == if (indices.slot as int) < old(self).bins()[indices.bin as int].len() - 1 {
                Some(old(self).bins()[indices.bin as int].last().id)
            } else {
                None::<RawID>
            },
            sum_lens(final(self).bins()) == sum_lens(old(self).bins()) - 1,
    {
        let mut bin = self.bins.remove(indices.bin);
        let _removed = bin.swap_remove(indices.slot);
        let r = if indices.slot < bin.len() {
            Some(bin[indices.slot].id)
        } else {
            None
        };
        self.bins.insert(indices.bin, bin);
        proof {
            assert(self.bins() =~= old(self).bins().update(
                indices.bin as int,
                old(self).bins()[indices.bin as int].update(
                    indices.slot as int,
                    old(self).bins()[indices.bin as int].last(),
                ).drop_last(),
            ));
            lemma_sum_lens_update(
                old(self).bins(),
                indices.bin as int,
                old(self).bins()[indices.bin as int].update(
                    indices.slot as int,
                    old(self).bins()[indices.bin as int].last(),
                ).drop_last(),
            );
        }
        r
    }

    /// Take the instance at `indices` out of its bin, shifting the slots
    /// after it down; the caller must put one back with `put_at` before the
    /// arena is used as storage again.
    pub fn take_at(&mut self, indices: SlotIndices) -> (r: Instance)
        requires
            old(self).wf(),
            (indices.bin as int) < old(self).bins().len(),
            (indices.slot as int) < old(self).bins()[indices.bin as int].len(),
        ensures
            final(self).wf(),
            final(self).base() == old(self).base(),
            final(self).bins().len() == old(self).bins().len(),
            r == old(self).bins()[indices.bin as int][indices.slot as int],
            final(self).bins()[indices.bin as int] == old(self).bins()[indices.bin as int].remove(
                indices.slot as int,
            ),
            forall|b: int|
                0 <= b < final(self).bins().len() && b != indices.bin ==> final(self).bins()[b]
                    == old(self).bins()[b],
    {
        let mut bin = self.bins.remove(indices.bin);
        let inst = bin.remove(indices.slot);
        self.bins.insert(indices.bin, bin);
        proof {
            assert(self.bins() =~= old(self).bins().update(
                indices.bin as int,
                old(self).bins()[indices.bin as int].remove(indices.slot as int),
            ));
        }
        inst
    }

    /// Put an instance back at the position `take_at` vacated.
    pub fn put_at(&mut self, indices: SlotIndices, inst: Instance)
        requires
            old(self).wf(),
            (indices.bin as int) < old(self).bins().len(),
            (indices.slot as int) <= old(self).bins()[indices.bin as int].len(),
        ensures
            final(self).wf(),
            final(self).base() == old(self).base(),
            final(self).bins().len() == old(self).bins().len(),
            final(self).bins()[indices.bin as int] == old(self).bins()[indices.bin as int].insert(
                indices.slot as int,
                inst,
            ),
            forall|b: int|
                0 <= b < final(self).bins().len() && b != indices.bin ==> final(self).bins()[b]
                    == old(self).bins()[b],
    {
        let mut bin = self.bins.remove(indices.bin);
        bin.insert(indices.slot, inst);
        self.bins.insert(indices.bin, bin);
        proof {
            assert(self.bins() =~= old(self).bins().update(
                indices.bin as int,
                old(self).bins()[indices.bin as int].insert(indices.slot as int, inst),
            ));
        }
    }

    /// The handle of the instance at `indices`.
    pub fn id_at(&self, indices: SlotIndices) -> (r: RawID)
        requires
            (indices.bin as int) < self.bins().len(),
            (indices.slot as int) < self.bins()[indices.bin as int].len(),
        ensures
            r == self.bins()[indices.bin as int][indices.slot as int].id,
    {
        self.bins[indices.bin][indices.slot].id
    }

    /// A deep copy of the state of the instance at `indices`.
    pub fn state_copy_at(&self, indices: SlotIndices) -> (r: InstanceState)
        requires
            (indices.bin as int) < self.bins().len(),
            (indices.slot as int) < self.bins()[indices.bin as int].len(),
        ensures
            r@ == self.bins()[indices.bin as int][indices.slot as int].state@,
    {
        self.bins[indices.bin][indices.slot].state.duplicate()
    }

    /// A snapshot of each bin's current length, indexed by bin.
    pub fn bin_lens(&self) -> (r: Vec<usize>)
        ensures
            r@.len() == self.bins().len(),
            forall|b: int| 0 <= b < r@.len() ==> r@[b] == self.bins()[b].len(),
    {
        let mut lens: Vec<usize> = Vec::new();
        let n = self.bins.len();
        let mut b: usize = 0;
        while b < n
            invariant
                b <= n,
                n == self.bins().len(),
                lens@.len() == b,
                forall|i: int| 0 <= i < b ==> lens@[i] == self.bins()[i].len(),
            decreases n - b,
        {
            lens.push(self.bins[b].len());
            b += 1;
        }
        lens
    }

    /// The bins that hold at least one instance, with their lengths, in bin
    /// order, at the moment of the call.
    pub fn populated_bin_indices_and_lens(&self) -> (r: Vec<(usize, usize)>)
        ensures
            forall|k: int|
                0 <= k < r@.len() ==> (#[trigger] r@[k]).0 < self.bins().len() && r@[k].1
                    == self.bins()[r@[k].0 as int].len() && r@[k].1 > 0,
            forall|k1: int, k2: int| 0 <= k1 < k2 < r@.len() ==> r@[k1].0 < r@[k2].0,
            forall|b: int|
                0 <= b < self.bins().len() && self.bins()[b].len() > 0 ==> exists|k: int|
                    0 <= k < r@.len() && (#[trigger] r@[k]).0 == b,
    {
        let mut r: Vec<(usize, usize)> = Vec::new();
        let n = self.bins.len();
        let mut b: usize = 0;
        while b < n
            invariant
                b <= n,
                n == self.bins().len(),
                forall|k: int|
                    0 <= k < r@.len() ==> (#[trigger] r@[k]).0 < b && r@[k].1 == self.bins()[r@[k].0 as int].len()
                        && r@[k].1 > 0,
                forall|k1: int, k2: int| 0 <= k1 < k2 < r@.len() ==> r@[k1].0 < r@[k2].0,
                forall|bb: int|
                    0 <= bb < b && self.bins()[bb].len() > 0 ==> exists|k: int|
                        0 <= k < r@.len() && (#[trigger] r@[k]).0 == bb,
            decreases n - b,
        {
            let len = self.bins[b].len();
            let ghost prev = r@;
            if len > 0 {
                r.push((b, len));
            }
            proof {
                assert forall|bb: int|
                    0 <= bb < b + 1 && self.bins()[bb].len() > 0 implies exists|k: int|
                    0 <= k < r@.len() && (#[trigger] r@[k]).0 == bb by {
                    if bb == b {
                        assert(r@[r@.len() - 1].0 == bb);
                    } else {
                        let k = choose|k: int| 0 <= k < prev.len() && (#[trigger] prev[k]).0 == bb;
                        assert(r@[k].0 == bb);
                    }
                }
            }
            b += 1;
        }
        r
    }
}

} // verus!
