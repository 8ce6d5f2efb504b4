//! The swarm: compact storage of many instances of one actor kind, with
//! versioned identity and message dispatch — including broadcasts that stay
//! correct while handlers grow, kill, or spawn instances mid-walk.

use vstd::prelude::*;
use crate::arena::{
    Arena, class_cap, sum_lens, lemma_sum_lens_update, lemma_class_cap_monotone,
};
use crate::id::{RawID, BROADCAST_INSTANCE_ID};
use crate::instance::{Instance, InstanceState};
use crate::messaging::{
    Fate, Handler, Packet, World, is_gentle_handler, is_lean_handler, is_live_handler,
    is_noop_handler, is_spawner_handler,
};
use crate::slot_map::{
    MAX_ENTRIES, SlotEntry, SlotIndices, SlotMap, bump_version, lemma_occupied_count_le_len,
    lemma_occupied_count_push, lemma_occupied_count_update, occupied_count,
};

verus! {

/// The abstract contents after a run of spawns: each id of `ids` inserted
/// in order, carrying its version from `vers` and its payload from `pls`.
pub open spec fn spawned_into(
    base: Map<int, (u32, Seq<u64>)>,
    ids: Seq<int>,
    vers: Seq<u32>,
    pls: Seq<Seq<u64>>,
) -> Map<int, (u32, Seq<u64>)>
    decreases pls.len(),
{
    if pls.len() == 0 || ids.len() != pls.len() || vers.len() != pls.len() {
        base
    } else {
        spawned_into(
            base.insert(ids[0], (vers[0], pls[0])),
            ids.drop_first(),
            vers.drop_first(),
            pls.drop_first(),
        )
    }
}

/// Adding one more spawn at the end inserts it into the accumulated map.
pub proof fn lemma_spawned_into_push(
    base: Map<int, (u32, Seq<u64>)>,
    ids: Seq<int>,
    vers: Seq<u32>,
    pls: Seq<Seq<u64>>,
    i: int,
    v: u32,
    p: Seq<u64>,
)
    requires
        ids.len() == pls.len(),
        vers.len() == pls.len(),
    ensures
        spawned_into(base, ids.push(i), vers.push(v), pls.push(p)) == spawned_into(
            base,
            ids,
            vers,
            pls,
        ).insert(i, (v, p)),
    decreases pls.len(),
{
    if pls.len() == 0 {
        assert(ids.push(i)[0] == i);
        assert(vers.push(v)[0] == v);
        assert(pls.push(p)[0] == p);
        assert(ids.push(i).drop_first() =~= Seq::<int>::empty());
        assert(vers.push(v).drop_first() =~= Seq::<u32>::empty());
        assert(pls.push(p).drop_first() =~= Seq::<Seq<u64>>::empty());
        assert(spawned_into(base, ids.push(i), vers.push(v), pls.push(p)) == spawned_into(
            base.insert(i, (v, p)),
            ids.push(i).drop_first(),
            vers.push(v).drop_first(),
            pls.push(p).drop_first(),
        ));
        assert(spawned_into(base, ids.push(i), vers.push(v), pls.push(p)) == base.insert(
            i,
            (v, p),
        ));
    } else {
        assert(ids.push(i).drop_first() =~= ids.drop_first().push(i));
        assert(vers.push(v).drop_first() =~= vers.drop_first().push(v));
        assert(pls.push(p).drop_first() =~= pls.drop_first().push(p));
        lemma_spawned_into_push(
            base.insert(ids[0], (vers[0], pls[0])),
            ids.drop_first(),
            vers.drop_first(),
            pls.drop_first(),
            i,
            v,
            p,
        );
    }
}

/// What each key maps to after a run of spawns: base keys keep their
/// values, and each spawned id carries its own version and payload.
pub proof fn lemma_spawned_into_lookup(
    base: Map<int, (u32, Seq<u64>)>,
    ids: Seq<int>,
    vers: Seq<u32>,
    pls: Seq<Seq<u64>>,
)
    requires
        ids.len() == pls.len(),
        vers.len() == pls.len(),
        forall|k: int| 0 <= k < ids.len() ==> !base.dom().contains(#[trigger] ids[k]),
        forall|k1: int, k2: int|
            0 <= k1 < k2 < ids.len() ==> #[trigger] ids[k1] != #[trigger] ids[k2],
    ensures
        forall|id: int|
            base.dom().contains(id) ==> spawned_into(base, ids, vers, pls).dom().contains(id)
                && spawned_into(base, ids, vers, pls)[id] == base[id],
        forall|id: int|
            spawned_into(base, ids, vers, pls).dom().contains(id) ==> base.dom().contains(id)
                || exists|k: int| 0 <= k < ids.len() && #[trigger] ids[k] == id,
        forall|k: int|
            0 <= k < ids.len() ==> spawned_into(base, ids, vers, pls).dom().contains(
                #[trigger] ids[k],
            ) && spawned_into(base, ids, vers, pls)[ids[k]] == (vers[k], pls[k]),
    decreases pls.len(),
{
    if pls.len() > 0 {
        let base2 = base.insert(ids[0], (vers[0], pls[0]));
        lemma_spawned_into_lookup(base2, ids.drop_first(), vers.drop_first(), pls.drop_first());
        assert(spawned_into(base, ids, vers, pls) == spawned_into(
            base2,
            ids.drop_first(),
            vers.drop_first(),
            pls.drop_first(),
        ));
        assert forall|id: int|
            base.dom().contains(id) implies #[trigger] spawned_into(
            base,
            ids,
            vers,
            pls,
        ).dom().contains(id) && spawned_into(base, ids, vers, pls)[id] == base[id] by {
            assert(id != ids[0]);
            assert(base2.dom().contains(id) && base2[id] == base[id]);
            assert(spawned_into(base2, ids.drop_first(), vers.drop_first(), pls.drop_first()).dom().contains(id));
        }
        assert forall|k: int|
            0 <= k < ids.len() implies spawned_into(base, ids, vers, pls).dom().contains(
            #[trigger] ids[k],
        ) && spawned_into(base, ids, vers, pls)[ids[k]] == (vers[k], pls[k]) by {
            if k > 0 {
                assert(ids.drop_first()[k - 1] == ids[k]);
                assert(vers.drop_first()[k - 1] == vers[k]);
                assert(pls.drop_first()[k - 1] == pls[k]);
            } else {
                assert(base2.dom().contains(ids[0]) && base2[ids[0]] == (vers[0], pls[0]));
                assert(forall|k2: int|
                    0 <= k2 < ids.drop_first().len() ==> #[trigger] ids.drop_first()[k2]
                        != ids[0]);
            }
        }
        assert forall|id: int|
            spawned_into(base, ids, vers, pls).dom().contains(id) implies base.dom().contains(id)
            || exists|k: int| 0 <= k < ids.len() && #[trigger] ids[k] == id by {
            if !base.dom().contains(id) {
                if id == ids[0] {
                    assert(ids[0] == id);
                } else {
                    assert(spawned_into(
                        base2,
                        ids.drop_first(),
                        vers.drop_first(),
                        pls.drop_first(),
                    ).dom().contains(id));
                    assert(!base2.dom().contains(id));
                    let k = choose|k: int|
                        0 <= k < ids.drop_first().len() && #[trigger] ids.drop_first()[k] == id;
                    assert(0 <= k < ids.drop_first().len() && ids.drop_first()[k] == id);
                    assert(ids[k + 1] == id);
                }
            }
        }
    } else {
        assert(spawned_into(base, ids, vers, pls) == base);
    }
}

/// How many spawn requests the handler files across one bin's instances.
pub open spec fn spawn_requests_in_bin<M, H: Handler<M>>(h: H, m: M, bin: Seq<Instance>) -> nat
    decreases bin.len(),
{
    if bin.len() == 0 {
        0
    } else {
        spawn_requests_in_bin(h, m, bin.drop_last()) + h.out_spawns(m, bin.last().state@).len()
    }
}

/// How many spawn requests the handler files across a run of bins.
pub open spec fn spawn_requests_total<M, H: Handler<M>>(
    h: H,
    m: M,
    bins: Seq<Seq<Instance>>,
) -> nat
    decreases bins.len(),
{
    if bins.len() == 0 {
        0
    } else {
        spawn_requests_total(h, m, bins.drop_last()) + spawn_requests_in_bin(h, m, bins.last())
    }
}

/// One more instance adds its own request count to a bin's tally.
pub proof fn lemma_srib_step<M, H: Handler<M>>(h: H, m: M, bin: Seq<Instance>, j: int)
    requires
        0 <= j < bin.len(),
    ensures
        spawn_requests_in_bin(h, m, bin.take(j + 1)) == spawn_requests_in_bin(h, m, bin.take(j))
            + h.out_spawns(m, bin[j].state@).len(),
{
    assert(bin.take(j + 1).drop_last() =~= bin.take(j));
    assert(bin.take(j + 1).last() == bin[j]);
}

/// A prefix of a bin never files more requests than the whole bin.
pub proof fn lemma_srib_take_le<M, H: Handler<M>>(h: H, m: M, bin: Seq<Instance>, j: int)
    requires
        0 <= j <= bin.len(),
    ensures
        spawn_requests_in_bin(h, m, bin.take(j)) <= spawn_requests_in_bin(h, m, bin),
    decreases bin.len(),
{
    if j == bin.len() {
        assert(bin.take(j) =~= bin);
    } else {
        assert(bin.drop_last().take(j) =~= bin.take(j));
        lemma_srib_take_le(h, m, bin.drop_last(), j);
    }
}

/// One more bin adds its own tally to the total.
pub proof fn lemma_srt_step<M, H: Handler<M>>(h: H, m: M, bins: Seq<Seq<Instance>>, bi: int)
    requires
        0 <= bi < bins.len(),
    ensures
        spawn_requests_total(h, m, bins.take(bi + 1)) == spawn_requests_total(
            h,
            m,
            bins.take(bi),
        ) + spawn_requests_in_bin(h, m, bins[bi]),
{
    assert(bins.take(bi + 1).drop_last() =~= bins.take(bi));
    assert(bins.take(bi + 1).last() == bins[bi]);
}

/// A prefix of the bins never files more requests than all of them.
pub proof fn lemma_srt_take_le<M, H: Handler<M>>(h: H, m: M, bins: Seq<Seq<Instance>>, bi: int)
    requires
        0 <= bi <= bins.len(),
    ensures
        spawn_requests_total(h, m, bins.take(bi)) <= spawn_requests_total(h, m, bins),
    decreases bins.len(),
{
    if bi == bins.len() {
        assert(bins.take(bi) =~= bins);
    } else {
        assert(bins.drop_last().take(bi) =~= bins.take(bi));
        lemma_srt_take_le(h, m, bins.drop_last(), bi);
    }
}

/// Removing a key that none of the spawned ids reuses commutes with the
/// spawns.
pub proof fn lemma_spawned_into_remove(
    base: Map<int, (u32, Seq<u64>)>,
    ids: Seq<int>,
    vers: Seq<u32>,
    pls: Seq<Seq<u64>>,
    t: int,
)
    requires
        ids.len() == pls.len(),
        vers.len() == pls.len(),
        forall|k: int| 0 <= k < ids.len() ==> #[trigger] ids[k] != t,
    ensures
        spawned_into(base, ids, vers, pls).remove(t) == spawned_into(
            base.remove(t),
            ids,
            vers,
            pls,
        ),
    decreases pls.len(),
{
    if pls.len() > 0 {
        assert(ids[0] != t);
        assert(base.insert(ids[0], (vers[0], pls[0])).remove(t) =~= base.remove(t).insert(
            ids[0],
            (vers[0], pls[0]),
        ));
        lemma_spawned_into_remove(
            base.insert(ids[0], (vers[0], pls[0])),
            ids.drop_first(),
            vers.drop_first(),
            pls.drop_first(),
            t,
        );
    }
}

/// A position a broadcast walk will not visit again, given the walk's
/// current bin `bi`, cursor `sl`, watermark `ia`, and the snapshot of bin
/// lengths: in the current bin, below the cursor or at or past the
/// watermark; in a bin the walk has not reached, at or past that bin's
/// snapshot length; anywhere in a bin already walked or outside the
/// snapshot.  Instances already delivered to, and newcomers, only ever sit
/// at such positions — which is what keeps delivery exactly-once.
pub open spec fn off_walk(e: SlotEntry, bi: int, sl: int, ia: int, lens: Seq<usize>) -> bool {
    &&& ((e.bin() as int) == bi && bi < lens.len() ==> (e.slot() as int) < sl || (e.slot() as int)
        >= ia)
    &&& (bi < (e.bin() as int) && (e.bin() as int) < lens.len() ==> (e.slot() as int)
        >= lens[e.bin() as int])
}

/// Two swarms that cannot be told apart: same slot map, same counter, same
/// bin layout, and instances equal in identity and payload.
pub open spec fn same_state(a: Swarm, b: Swarm) -> bool {
    &&& a.entries() == b.entries()
    &&& a.free_list() == b.free_list()
    &&& a.spec_n() == b.spec_n()
    &&& a.spec_arena().base() == b.spec_arena().base()
    &&& a.spec_type_id() == b.spec_type_id()
    &&& a.spec_machine() == b.spec_machine()
    &&& a.bins().len() == b.bins().len()
    &&& forall|b2: int|
        0 <= b2 < a.bins().len() ==> #[trigger] a.bins()[b2].len() == b.bins()[b2].len()
    &&& forall|b2: int, s2: int|
        0 <= b2 < a.bins().len() && 0 <= s2 < a.bins()[b2].len() ==> (#[trigger] a.bins()[b2][s2]).id
            == b.bins()[b2][s2].id && a.bins()[b2][s2].state@ == b.bins()[b2][s2].state@
}

/// The recipient's contents after an accepted unicast, before spawns: the
/// handler's output state replaces the recipient's, or the recipient is
/// gone if the handler said `Die`.
pub open spec fn unicast_reconciled<M, H: Handler<M>>(pre: Swarm, h: H, m: M, rid: RawID) -> Map<
    int,
    (u32, Seq<u64>),
> {
    let tid = rid.instance_id as int;
    let st0 = pre.live()[tid].1;
    if h.out_fate(m, st0) is Live {
        pre.live().insert(tid, (rid.version, h.out_state(m, st0)))
    } else {
        pre.live().remove(tid)
    }
}

/// The spawn part of an accepted unicast, for one choice of the allocated
/// ids and their versions: every spawn the handler filed is emplaced under
/// a fresh, distinct id, in request order — all of them whenever the id
/// space allows it, which it always does in practice.
pub open spec fn unicast_spawns_ok<M, H: Handler<M>>(
    pre: Swarm,
    post: Swarm,
    h: H,
    m: M,
    rid: RawID,
    ids: Seq<int>,
    vers: Seq<u32>,
) -> bool {
    let st0 = pre.live()[rid.instance_id as int].1;
    let sp = h.out_spawns(m, st0);
    let mid_live = unicast_reconciled(pre, h, m, rid);
    &&& ids.len() <= sp.len()
    &&& vers.len() == ids.len()
    &&& (forall|k: int| 0 <= k < ids.len() ==> !mid_live.dom().contains(#[trigger] ids[k]))
    &&& (forall|k1: int, k2: int|
        0 <= k1 < k2 < ids.len() ==> #[trigger] ids[k1] != #[trigger] ids[k2])
    &&& post.live() == spawned_into(mid_live, ids, vers, sp.take(ids.len() as int))
    &&& (pre.entries().len() + sp.len() <= MAX_ENTRIES ==> ids.len() == sp.len())
}

/// Indistinguishability of swarms is transitive.
pub proof fn lemma_same_state_trans(a: Swarm, b: Swarm, c: Swarm)
    requires
        same_state(a, b),
        same_state(b, c),
    ensures
        same_state(a, c),
{
    assert forall|b2: int, s2: int|
        0 <= b2 < a.bins().len() && 0 <= s2 < a.bins()[b2].len() implies (
    #[trigger] a.bins()[b2][s2]).id == c.bins()[b2][s2].id && a.bins()[b2][s2].state@
        == c.bins()[b2][s2].state@ by {
        assert(a.bins()[b2].len() == b.bins()[b2].len());
    }
}

/// The frame of an accepted unicast that reconciles to "no action": when
/// the handler keeps its receiver, files no spawns, and leaves the state
/// within the recipient's current size class, nothing relocates — the slot
/// map, the free list, the counter and the whole bin layout stay put, and
/// only the recipient's own state is rewritten.
pub open spec fn unicast_frame<M, H: Handler<M>>(
    pre: Swarm,
    post: Swarm,
    h: H,
    m: M,
    rid: RawID,
) -> bool {
    let tid = rid.instance_id as int;
    let b = pre.entries()[tid].bin() as int;
    let s = pre.entries()[tid].slot() as int;
    &&& post.entries() == pre.entries()
    &&& post.free_list() == pre.free_list()
    &&& post.spec_n() == pre.spec_n()
    &&& post.bins().len() == pre.bins().len()
    &&& (forall|b2: int|
        0 <= b2 < pre.bins().len() ==> (#[trigger] post.bins()[b2]).len()
            == pre.bins()[b2].len())
    &&& (forall|b2: int, s2: int|
        0 <= b2 < pre.bins().len() && 0 <= s2 < pre.bins()[b2].len() && !(b2 == b && s2 == s)
            ==> (#[trigger] post.bins()[b2][s2]).id == pre.bins()[b2][s2].id
            && post.bins()[b2][s2].state@ == pre.bins()[b2][s2].state@)
    &&& post.bins()[b][s].id == pre.bins()[b][s].id
    &&& post.bins()[b][s].state@ == h.out_state(m, pre.live()[tid].1)
}

/// The condition under which the frame applies: fate `Live`, no spawn
/// requests, and an output footprint still within the recipient's class.
pub open spec fn stays_compact<M, H: Handler<M>>(pre: Swarm, h: H, m: M, rid: RawID) -> bool {
    let tid = rid.instance_id as int;
    let st0 = pre.live()[tid].1;
    &&& h.out_fate(m, st0) is Live
    &&& h.out_spawns(m, st0) == Seq::<Seq<u64>>::empty()
    &&& crate::instance::spec_size_for_len(h.out_state(m, st0).len()) <= class_cap(
        pre.spec_arena().base() as nat,
        pre.entries()[tid].bin() as nat,
    )
}

/// What one accepted unicast leaves behind.
pub open spec fn unicast_post<M, H: Handler<M>>(
    pre: Swarm,
    post: Swarm,
    h: H,
    m: M,
    rid: RawID,
) -> bool {
    let tid = rid.instance_id as int;
    let f = h.out_fate(m, pre.live()[tid].1);
    &&& (f is Die ==> post.version_of(tid) == bump_version(rid.version) && post.entries()[tid]
        is Free)
    &&& (f is Live ==> post.version_of(tid) == rid.version)
    &&& exists|ids: Seq<int>, vers: Seq<u32>|
        unicast_spawns_ok(pre, post, h, m, rid, ids, vers)
}

/// A container-like actor housing many instances of identical behaviour,
/// with efficient storage of and broadcasting to its instances.
pub struct Swarm {
    type_id: u16,
    machine: u8,
    arena: Arena,
    slot_map: SlotMap,
    n_instances: usize,
}

impl Swarm {
    /// The arena component, for specification purposes.
    pub closed spec fn spec_arena(self) -> Arena {
        self.arena
    }

    /// The slot-map component, for specification purposes.
    pub closed spec fn spec_slot_map(self) -> SlotMap {
        self.slot_map
    }

    /// The stored instance counter.
    pub closed spec fn spec_n(self) -> usize {
        self.n_instances
    }

    /// The actor kind identity stamped on spawned handles.
    pub closed spec fn spec_type_id(self) -> u16 {
        self.type_id
    }

    /// The node identity stamped on spawned handles.
    pub closed spec fn spec_machine(self) -> u8 {
        self.machine
    }

    /// The arena's bins.
    pub open spec fn bins(self) -> Seq<Seq<Instance>> {
        self.spec_arena().bins()
    }

    /// The slot map's entries.
    pub open spec fn entries(self) -> Seq<SlotEntry> {
        self.spec_slot_map().entries()
    }

    /// The slot map's stack of freed ids.
    pub open spec fn free_list(self) -> Seq<usize> {
        self.spec_slot_map().free_list()
    }

    /// An occupied entry points at an existing slot whose instance carries
    /// the entry's key and version.
    pub open spec fn entry_links_ok(self, id: int) -> bool {
        let e = self.entries()[id];
        e is Occupied ==> {
            &&& (e.bin() as int) < self.bins().len()
            &&& (e.slot() as int) < self.bins()[e.bin() as int].len()
            &&& self.bins()[e.bin() as int][e.slot() as int].id.instance_id == id
            &&& self.bins()[e.bin() as int][e.slot() as int].id.version == e.version()
        }
    }

    /// A populated slot's instance is indexed by an occupied entry that
    /// points right back at it.
    pub open spec fn slot_links_ok(self, b: int, s: int) -> bool {
        let rid = self.bins()[b][s].id;
        &&& (rid.instance_id as int) < self.entries().len()
        &&& self.entries()[rid.instance_id as int] is Occupied
        &&& self.entries()[rid.instance_id as int].bin() == b
        &&& self.entries()[rid.instance_id as int].slot() == s
        &&& self.entries()[rid.instance_id as int].version() == rid.version
    }

    /// The instance at `(b, s)` fits its bin's size class.
    pub open spec fn slot_fits(self, b: int, s: int) -> bool {
        self.bins()[b][s].spec_size() <= class_cap(self.spec_arena().base() as nat, b as nat)
    }

    /// Everything except the size classes: components well-formed, the
    /// entry/slot correspondence a bijection, and the instance counter equal
    /// to both the occupied-entry count and the bin-length total.
    pub open spec fn links_ok(self) -> bool {
        &&& self.spec_arena().wf()
        &&& self.spec_slot_map().wf()
        &&& forall|id: int| 0 <= id < self.entries().len() ==> #[trigger] self.entry_links_ok(id)
        &&& forall|b: int, s: int|
            0 <= b < self.bins().len() && 0 <= s < self.bins()[b].len()
                ==> #[trigger] self.slot_links_ok(b, s)
        &&& self.spec_n() == occupied_count(self.entries())
        &&& self.spec_n() == sum_lens(self.bins())
    }

    /// Every stored instance fits its bin's size class.
    pub open spec fn sizes_ok(self) -> bool {
        forall|b: int, s: int|
            0 <= b < self.bins().len() && 0 <= s < self.bins()[b].len()
                ==> #[trigger] self.slot_fits(b, s)
    }

    /// Every stored instance fits its size class, except possibly the one at
    /// `(eb, es)` — the state a handler leaves behind before the dispatcher
    /// reconciles it.
    pub open spec fn sizes_ok_except(self, eb: int, es: int) -> bool {
        forall|b: int, s: int|
            0 <= b < self.bins().len() && 0 <= s < self.bins()[b].len() && !(b == eb && s == es)
                ==> #[trigger] self.slot_fits(b, s)
    }

    /// The swarm's full invariant; holds between public operations.
    pub open spec fn wf(self) -> bool {
        self.links_ok() && self.sizes_ok()
    }

    /// The abstract contents: each live id, with its current version and the
    /// payload of its instance.
    pub open spec fn live(self) -> Map<int, (u32, Seq<u64>)> {
        Map::new(
            |id: int| 0 <= id < self.entries().len() && self.entries()[id] is Occupied,
            |id: int|
                (
                    self.entries()[id].version(),
                    self.bins()[self.entries()[id].bin() as int][self.entries()[id].slot() as int].state@,
                ),
        )
    }

    /// The version currently recorded for an id.
    pub open spec fn version_of(self, id: int) -> u32 {
        self.entries()[id].version()
    }

    /// Where an id's instance currently sits, if the id is live.
    pub open spec fn slot_of(self, id: int) -> Option<(usize, usize)> {
        if 0 <= id < self.entries().len() && self.entries()[id] is Occupied {
            Some((self.entries()[id].bin(), self.entries()[id].slot()))
        } else {
            None
        }
    }

    /// An instance a broadcast has delivered to and kept: still occupied in
    /// its bin, version unchanged, state rewritten to the handler's output.
    pub open spec fn lean_done<M, H: Handler<M>>(self, pre: Swarm, h: H, m: M, id: int) -> bool {
        &&& self.entries()[id] is Occupied
        &&& self.entries()[id].bin() == pre.entries()[id].bin()
        &&& self.entries()[id].version() == pre.entries()[id].version()
        &&& self.live()[id] == (pre.entries()[id].version(), h.out_state(m, pre.live()[id].1))
    }

    /// An instance a broadcast has delivered to and destroyed: its entry is
    /// freed with the version bumped.
    pub open spec fn lean_dead(self, pre: Swarm, id: int) -> bool {
        &&& self.entries()[id] is Free
        &&& self.entries()[id].version() == bump_version(pre.entries()[id].version())
    }

    /// Under a handler that neither spawns nor grows, every original ends a
    /// broadcast in the state its own handler run decided: rewritten and
    /// kept, or destroyed.
    pub open spec fn lean_outcome<M, H: Handler<M>>(self, pre: Swarm, h: H, m: M, id: int) -> bool {
        if h.out_fate(m, pre.live()[id].1) is Live {
            self.lean_done(pre, h, m, id)
        } else {
            self.lean_dead(pre, id)
        }
    }

    /// An original a broadcast walk has not reached yet: untouched, sitting
    /// in its bin at a slot within `[lo, hi)` — the walk's pending range.
    pub open spec fn lean_pending(self, pre: Swarm, id: int, lo: int, hi: int) -> bool {
        &&& self.entries()[id] is Occupied
        &&& self.entries()[id].bin() == pre.entries()[id].bin()
        &&& lo <= self.entries()[id].slot() as int
        &&& (self.entries()[id].slot() as int) < hi
        &&& self.entries()[id].version() == pre.entries()[id].version()
        &&& self.live()[id] == pre.live()[id]
    }

    /// An instance a broadcast has delivered to and kept, wherever it now
    /// sits — possibly re-homed into a larger bin after growing out of its
    /// class: still occupied, version unchanged, state equal to exactly one
    /// handler application.
    pub open spec fn delivered_live<M, H: Handler<M>>(
        self,
        pre: Swarm,
        h: H,
        m: M,
        id: int,
    ) -> bool {
        &&& self.entries()[id] is Occupied
        &&& self.entries()[id].version() == pre.entries()[id].version()
        &&& self.live()[id] == (pre.entries()[id].version(), h.out_state(m, pre.live()[id].1))
    }

    /// A newcomer created during a broadcast holds exactly a payload some
    /// original's handler run requested — never a handler-rewritten state:
    /// newcomers are not delivered to.
    pub open spec fn spawned_from<M, H: Handler<M>>(self, pre: Swarm, h: H, m: M, id: int) -> bool {
        exists|j: int, k: int|
            #![auto]
            0 <= j < pre.entries().len() && pre.entries()[j] is Occupied && 0 <= k && k < h.out_spawns(
                m,
                pre.live()[j].1,
            ).len() && self.live()[id].1 == h.out_spawns(m, pre.live()[j].1)[k]
    }

    /// A handle is accepted exactly when its id maps to an occupied entry
    /// whose version matches.
    pub open spec fn accepts(self, rid: RawID) -> bool {
        &&& (rid.instance_id as int) < self.entries().len()
        &&& self.entries()[rid.instance_id as int] is Occupied
        &&& self.entries()[rid.instance_id as int].version() == rid.version
    }

    /// Create an empty swarm for one actor kind.  `typical_size` is the
    /// size-class hint: the capacity in bytes of the smallest bin class.
    pub fn new(type_id: u16, machine: u8, typical_size: usize) -> (r: Swarm)
        requires
            typical_size >= 1,
        ensures
            r.wf(),
            r.live() == Map::<int, (u32, Seq<u64>)>::empty(),
            r.spec_n() == 0,
            r.entries().len() == 0,
            r.free_list().len() == 0,
            r.bins().len() == 0,
            r.spec_arena().base() == typical_size,
            r.spec_type_id() == type_id,
            r.spec_machine() == machine,
    {
        let r = Swarm {
            type_id,
            machine,
            arena: Arena::new(typical_size),
            slot_map: SlotMap::new(),
            n_instances: 0,
        };
        proof {
            assert(r.live() =~= Map::<int, (u32, Seq<u64>)>::empty());
        }
        r
    }

    /// How many instances the swarm currently holds.
    pub fn instance_count(&self) -> (r: usize)
        ensures
            r == self.spec_n(),
    {
        self.n_instances
    }

    /// Allocate an instance handle for later use when manually adding an
    /// instance (see `add_manually_with_id`).  The returned handle carries
    /// `base_id`'s kind and node, a fresh (or recycled) id, and the id's
    /// current version; the id stays unused until it is associated.  The
    /// most recently freed id is the one handed out (last in, first out);
    /// only with no freed id at hand does the entry table grow.
    pub fn allocate_id(&mut self, base_id: RawID) -> (r: RawID)
        requires
            old(self).wf(),
            old(self).spec_slot_map().can_allocate(),
        ensures
            final(self).wf(),
            r.type_id == base_id.type_id,
            r.machine == base_id.machine,
            r.instance_id != BROADCAST_INSTANCE_ID,
            if old(self).free_list().len() > 0 {
                r.instance_id as usize == old(self).free_list().last() && final(self).entries()
                    == old(self).entries() && final(self).free_list() == old(
                    self,
                ).free_list().drop_last()
            } else {
                r.instance_id as int == old(self).entries().len() && final(self).entries() == old(
                    self,
                ).entries().push((SlotEntry::Free { version: 0u32 })) && final(self).free_list()
                    == old(self).free_list() && r.version == 0
            },
            old(self).free_list().len() > 0 ==> r.version == old(self).version_of(
                r.instance_id as int,
            ),
            (r.instance_id as int) < final(self).entries().len(),
            final(self).entries()[r.instance_id as int] is Free,
            final(self).version_of(r.instance_id as int) == r.version,
            forall|i: int|
                0 <= i < final(self).free_list().len() ==> (#[trigger] final(self).free_list()[i])
                    != r.instance_id as usize,
            final(self).live() == old(self).live(),
            final(self).spec_arena() == old(self).spec_arena(),
            final(self).spec_n() == old(self).spec_n(),
            final(self).spec_type_id() == old(self).spec_type_id(),
            final(self).spec_machine() == old(self).spec_machine(),
            forall|id: int|
                0 <= id < old(self).entries().len() ==> final(self).entries()[id] == old(
                    self,
                ).entries()[id],
            final(self).entries().len() >= old(self).entries().len(),
    {
        let (instance_id, version) = self.slot_map.allocate_id();
        proof {
            if old(self).free_list().len() > 0 {
                assert(self.entries() == old(self).entries());
            } else {
                lemma_occupied_count_push(old(self).entries(), (SlotEntry::Free { version: 0u32 }));
            }
            assert forall|id: int| 0 <= id < self.entries().len() implies #[trigger] self.entry_links_ok(id) by {
                if id < old(self).entries().len() {
                    assert(old(self).entry_links_ok(id));
                }
            }
            assert forall|b: int, s: int|
                0 <= b < self.bins().len() && 0 <= s < self.bins()[b].len() implies #[trigger] self.slot_links_ok(b, s) by {
                assert(old(self).slot_links_ok(b, s));
            }
            assert forall|b: int, s: int|
                0 <= b < self.bins().len() && 0 <= s < self.bins()[b].len() implies #[trigger] self.slot_fits(b, s) by {
                assert(old(self).slot_fits(b, s));
            }
            assert(self.live() =~= old(self).live());
        }
        RawID::new(base_id.type_id, instance_id as u32, base_id.machine, version)
    }

    /// Emplace a prepared instance under an allocated handle and point the
    /// slot map at it.  Leaves the instance counter untouched: `resize_at`
    /// moves an existing instance through this path.
    fn add_with_id(&mut self, initial_state: InstanceState, id: RawID) -> (r: SlotIndices)
        requires
            old(self).spec_arena().wf(),
            old(self).spec_slot_map().wf(),
            (id.instance_id as int) < old(self).entries().len(),
            old(self).entries()[id.instance_id as int] is Occupied || forall|i: int|
                0 <= i < old(self).free_list().len() ==> (#[trigger] old(self).free_list()[i])
                    != id.instance_id as usize,
        ensures
            final(self).spec_arena().wf(),
            final(self).spec_slot_map().wf(),
            final(self).spec_n() == old(self).spec_n(),
            final(self).spec_type_id() == old(self).spec_type_id(),
            final(self).spec_machine() == old(self).spec_machine(),
            final(self).spec_arena().base() == old(self).spec_arena().base(),
            final(self).free_list() == old(self).free_list(),
            // the slot map update
            final(self).entries() == old(self).entries().update(
                id.instance_id as int,
                (SlotEntry::Occupied {
                    bin: r.bin,
                    slot: r.slot,
                    version: old(self).entries()[id.instance_id as int].version(),
                }),
            ),
            // the arena update
            r.bin < final(self).bins().len(),
            final(self).bins().len() >= old(self).bins().len(),
            initial_state.spec_size() <= class_cap(old(self).spec_arena().base() as nat, r.bin as nat),
            r.bin > 0 ==> initial_state.spec_size() > class_cap(
                old(self).spec_arena().base() as nat,
                (r.bin - 1) as nat,
            ),
            r.slot == if (r.bin as int) < old(self).bins().len() {
                old(self).bins()[r.bin as int].len() as int
            } else {
                0
            },
            final(self).bins()[r.bin as int] == (if (r.bin as int) < old(self).bins().len() {
                old(self).bins()[r.bin as int]
            } else {
                Seq::<Instance>::empty()
            }).push((Instance { id, state: initial_state })),
            forall|b: int|
                0 <= b < final(self).bins().len() && b != r.bin ==> final(self).bins()[b] == (if b
                    < old(self).bins().len() {
                    old(self).bins()[b]
                } else {
                    Seq::<Instance>::empty()
                }),
            sum_lens(final(self).bins()) == sum_lens(old(self).bins()) + 1,
    {
        let indices = self.arena.push(Instance { id, state: initial_state });
        proof {
            assert(self.free_list() == old(self).free_list());
            assert(self.entries() == old(self).entries());
        }
        self.slot_map.associate(id.instance_id as usize, indices);
        indices
    }

    /// Emplace a prepared instance at a handle previously returned by
    /// `allocate_id`; the swarm installs the handle as the instance's
    /// identity.  Increments the instance count.
    pub fn add_manually_with_id(&mut self, initial_state: InstanceState, id: RawID)
        requires
            old(self).wf(),
            (id.instance_id as int) < old(self).entries().len(),
            old(self).entries()[id.instance_id as int] is Free,
            old(self).version_of(id.instance_id as int) == id.version,
            forall|i: int|
                0 <= i < old(self).free_list().len() ==> (#[trigger] old(self).free_list()[i])
                    != id.instance_id as usize,
        ensures
            final(self).wf(),
            final(self).live() == old(self).live().insert(
                id.instance_id as int,
                (id.version, initial_state@),
            ),
            final(self).spec_n() == old(self).spec_n() + 1,
            final(self).slot_of(id.instance_id as int) is Some,
            final(self).version_of(id.instance_id as int) == id.version,
            final(self).spec_type_id() == old(self).spec_type_id(),
            final(self).spec_machine() == old(self).spec_machine(),
    {
        proof {
            lemma_occupied_count_le_len(old(self).entries());
            lemma_occupied_count_update(
                old(self).entries(),
                id.instance_id as int,
                (SlotEntry::Occupied { bin: 0, slot: 0, version: id.version }),
            );
            lemma_occupied_count_le_len(
                old(self).entries().update(
                    id.instance_id as int,
                    (SlotEntry::Occupied { bin: 0, slot: 0, version: id.version }),
                ),
            );
        }
        let ghost pre = *self;
        let indices = self.add_with_id(initial_state, id);
        self.n_instances = self.n_instances + 1;
        proof {
            let tid = id.instance_id as int;
            lemma_occupied_count_update(
                pre.entries(),
                tid,
                (SlotEntry::Occupied {
                    bin: indices.bin,
                    slot: indices.slot,
                    version: id.version,
                }),
            );
            self.lemma_wf_after_emplace(pre, indices, id, initial_state, (-1, 0));
            assert forall|b2: int, s2: int|
                0 <= b2 < self.bins().len() && 0 <= s2 < self.bins()[b2].len() implies #[trigger] self.slot_fits(b2, s2) by {
                assert(!(b2 == -1 && s2 == 0));
            }
        }
    }

    /// Destroy the instance at `indices` (whose handle is `id`): the bin's
    /// tail slot is swapped into its place, the moved neighbour's slot-map
    /// entry is updated, and the id is freed with its version bumped.
    fn remove_at_index(&mut self, indices: SlotIndices, id: RawID)
        requires
            old(self).links_ok(),
            old(self).sizes_ok_except(indices.bin as int, indices.slot as int),
            (indices.bin as int) < old(self).bins().len(),
            (indices.slot as int) < old(self).bins()[indices.bin as int].len(),
            old(self).bins()[indices.bin as int][indices.slot as int].id == id,
        ensures
            final(self).wf(),
            final(self).live() == old(self).live().remove(id.instance_id as int),
            final(self).spec_n() == old(self).spec_n() - 1,
            final(self).version_of(id.instance_id as int) == bump_version(id.version),
            final(self).entries()[id.instance_id as int] is Free,
            final(self).spec_arena().base() == old(self).spec_arena().base(),
            final(self).spec_type_id() == old(self).spec_type_id(),
            final(self).spec_machine() == old(self).spec_machine(),
            final(self).entries().len() == old(self).entries().len(),
            final(self).bins().len() == old(self).bins().len(),
            final(self).bins()[indices.bin as int] == old(self).bins()[indices.bin as int].update(
                indices.slot as int,
                old(self).bins()[indices.bin as int].last(),
            ).drop_last(),
            forall|b: int|
                0 <= b < final(self).bins().len() && b != indices.bin ==> final(self).bins()[b]
                    == old(self).bins()[b],
            forall|eid: int|
                0 <= eid < old(self).entries().len() && eid != id.instance_id as int
                    ==> final(self).version_of(eid) == old(self).version_of(eid),
            forall|eid: int|
                0 <= eid < old(self).entries().len() && eid != id.instance_id as int && ((
                indices.slot as int) == old(self).bins()[indices.bin as int].len() - 1 || eid != old(
                    self,
                ).bins()[indices.bin as int].last().id.instance_id as int)
                    ==> final(self).entries()[eid] == old(self).entries()[eid],
            (indices.slot as int) < old(self).bins()[indices.bin as int].len() - 1
                ==> final(self).entries()[old(self).bins()[indices.bin as int].last().id.instance_id as int]
                == (SlotEntry::Occupied {
                bin: indices.bin,
                slot: indices.slot,
                version: old(self).entries()[old(self).bins()[indices.bin as int].last().id.instance_id as int].version(),
            }),
    {
        let ghost pre = *self;
        let ghost b = indices.bin as int;
        let ghost s = indices.slot as int;
        let ghost t = id.instance_id as int;
        let ghost len0 = pre.bins()[b].len() as int;
        proof {
            assert(pre.slot_links_ok(b, s));
            assert(pre.entry_links_ok(t));
            assert(pre.slot_links_ok(b, len0 - 1));
        }
        let survivor = self.arena.swap_remove_within_bin(indices);
        match survivor {
            Some(srid) => {
                proof {
                    // the survivor came from the tail, a different slot, so
                    // its id differs from the removed one's
                    assert(pre.entries()[srid.instance_id as int].slot() == len0 - 1);
                    assert(srid.instance_id as int != t);
                }
                self.slot_map.associate(srid.instance_id as usize, indices);
            },
            None => {},
        }
        proof {
            assert(self.entries()[t] == pre.entries()[t]);
            lemma_occupied_count_update(
                self.entries(),
                t,
                (SlotEntry::Free { version: bump_version(id.version) }),
            );
        }
        let ghost mid = *self;
        self.slot_map.free(id.instance_id as usize, id.version);
        self.n_instances = self.n_instances - 1;
        proof {
            if survivor is Some {
                let sr = survivor->0.instance_id as int;
                assert(mid.entries() == pre.entries().update(
                    sr,
                    (SlotEntry::Occupied {
                        bin: indices.bin,
                        slot: indices.slot,
                        version: pre.entries()[sr].version(),
                    }),
                ));
                lemma_occupied_count_update(
                    pre.entries(),
                    sr,
                    (SlotEntry::Occupied {
                        bin: indices.bin,
                        slot: indices.slot,
                        version: pre.entries()[sr].version(),
                    }),
                );
            }
            let post = *self;
            assert forall|eid: int| 0 <= eid < post.entries().len() implies #[trigger] post.entry_links_ok(eid) by {
                if eid != t {
                    assert(pre.entry_links_ok(eid));
                    let e = post.entries()[eid];
                    if e is Occupied {
                        if survivor is Some && eid == survivor->0.instance_id as int {
                            assert(post.bins()[b][s] == pre.bins()[b].last());
                        } else {
                            let b2 = pre.entries()[eid].bin() as int;
                            let s2 = pre.entries()[eid].slot() as int;
                            assert(pre.slot_links_ok(b2, s2));
                            if b2 == b {
                                assert(s2 != s) by {
                                    if s2 == s {
                                        assert(pre.bins()[b][s].id.instance_id == eid);
                                    }
                                }
                                assert(s2 != len0 - 1) by {
                                    if s2 == len0 - 1 {
                                        assert(pre.bins()[b][s2].id.instance_id == eid);
                                    }
                                }
                                assert(post.bins()[b2][s2] == pre.bins()[b2][s2]);
                            }
                        }
                    }
                }
            }
            assert forall|b2: int, s2: int|
                0 <= b2 < post.bins().len() && 0 <= s2 < post.bins()[b2].len() implies #[trigger] post.slot_links_ok(b2, s2) by {
                if b2 == b && s2 == s && s < len0 - 1 {
                    assert(post.bins()[b][s] == pre.bins()[b].last());
                    assert(pre.slot_links_ok(b, len0 - 1));
                } else {
                    assert(post.bins()[b2][s2] == pre.bins()[b2][s2]);
                    assert(pre.slot_links_ok(b2, s2));
                    let eid = pre.bins()[b2][s2].id.instance_id as int;
                    assert(eid != t) by {
                        if eid == t {
                            assert(pre.entries()[t].bin() == b2 && pre.entries()[t].slot() == s2);
                            assert(pre.entry_links_ok(t));
                        }
                    }
                    if survivor is Some && eid == survivor->0.instance_id as int {
                        assert(pre.entries()[eid].slot() == len0 - 1);
                        assert(s2 == len0 - 1 && b2 == b);
                        assert(false);
                    }
                }
            }
            assert forall|b2: int, s2: int|
                0 <= b2 < post.bins().len() && 0 <= s2 < post.bins()[b2].len() implies #[trigger] post.slot_fits(b2, s2) by {
                if b2 == b && s2 == s && s < len0 - 1 {
                    assert(pre.slot_fits(b, len0 - 1));
                } else {
                    assert(post.bins()[b2][s2] == pre.bins()[b2][s2]);
                    assert(pre.slot_fits(b2, s2));
                }
            }
            let m1 = post.live();
            let m2 = pre.live().remove(t);
            assert forall|i: int| m1.dom().contains(i) implies m2.dom().contains(i) && m1[i] == m2[i] by {
                assert(pre.entry_links_ok(i));
                if survivor is Some && i == survivor->0.instance_id as int {
                    assert(post.bins()[b][s] == pre.bins()[b].last());
                    assert(pre.entries()[i].bin() == b && pre.entries()[i].slot() == len0 - 1);
                } else {
                    let b2 = pre.entries()[i].bin() as int;
                    let s2 = pre.entries()[i].slot() as int;
                    if b2 == b {
                        assert(s2 != s) by {
                            if s2 == s {
                                assert(pre.slot_links_ok(b, s));
                            }
                        }
                        assert(s2 != len0 - 1) by {
                            if s2 == len0 - 1 {
                                assert(pre.slot_links_ok(b, s2));
                            }
                        }
                        assert(post.bins()[b2][s2] == pre.bins()[b2][s2]);
                    }
                }
            }
            assert(m1 =~= m2);
        }
    }

    /// Run the handler on the instance at `indices`: its state is rewritten
    /// to the handler's output, its identity and everything else stay put.
    /// Returns the fate, the instance's handle, and the new footprint; the
    /// world afterwards holds exactly the spawn requests the handler filed.
    fn run_handler_at<M, H: Handler<M>>(
        &mut self,
        indices: SlotIndices,
        message: &M,
        handler: &H,
        world: &mut World,
    ) -> (r: (Fate, RawID, usize))
        requires
            old(self).wf(),
            old(world)@.len() == 0,
            (indices.bin as int) < old(self).bins().len(),
            (indices.slot as int) < old(self).bins()[indices.bin as int].len(),
        ensures
            final(self).links_ok(),
            final(self).sizes_ok_except(indices.bin as int, indices.slot as int),
            final(self).spec_arena().base() == old(self).spec_arena().base(),
            final(self).spec_type_id() == old(self).spec_type_id(),
            final(self).spec_machine() == old(self).spec_machine(),
            final(self).spec_slot_map() == old(self).spec_slot_map(),
            final(self).spec_n() == old(self).spec_n(),
            final(self).bins().len() == old(self).bins().len(),
            forall|b2: int|
                0 <= b2 < final(self).bins().len() && b2 != indices.bin ==> final(self).bins()[b2]
                    == old(self).bins()[b2],
            final(self).bins()[indices.bin as int].len() == old(
                self,
            ).bins()[indices.bin as int].len(),
            forall|s2: int|
                0 <= s2 < final(self).bins()[indices.bin as int].len() && s2 != indices.slot
                    ==> final(self).bins()[indices.bin as int][s2] == old(
                    self,
                ).bins()[indices.bin as int][s2],
            final(self).bins()[indices.bin as int][indices.slot as int].id == old(
                self,
            ).bins()[indices.bin as int][indices.slot as int].id,
            final(self).bins()[indices.bin as int][indices.slot as int].state@ == handler.out_state(
                *message,
                old(self).bins()[indices.bin as int][indices.slot as int].state@,
            ),
            r.0 == handler.out_fate(
                *message,
                old(self).bins()[indices.bin as int][indices.slot as int].state@,
            ),
            r.1 == old(self).bins()[indices.bin as int][indices.slot as int].id,
            r.2 == crate::instance::spec_size_for_len(
                handler.out_state(
                    *message,
                    old(self).bins()[indices.bin as int][indices.slot as int].state@,
                ).len(),
            ),
            final(world)@ == handler.out_spawns(
                *message,
                old(self).bins()[indices.bin as int][indices.slot as int].state@,
            ),
            final(self).live() == old(self).live().insert(
                r.1.instance_id as int,
                (
                    r.1.version,
                    handler.out_state(
                        *message,
                        old(self).bins()[indices.bin as int][indices.slot as int].state@,
                    ),
                ),
            ),
    {
        let ghost pre = *self;
        let ghost b = indices.bin as int;
        let ghost s = indices.slot as int;
        let mut inst = self.arena.take_at(indices);
        let f = handler.handle(message, &mut inst.state, world);
        let iid = inst.id;
        let new_size = inst.state.total_size_bytes();
        self.arena.put_at(indices, inst);
        proof {
            let post = *self;
            assert(post.bins()[b] =~= pre.bins()[b].update(s, post.bins()[b][s]));
            assert(pre.slot_links_ok(b, s));
            assert(pre.entry_links_ok(iid.instance_id as int));
            assert forall|eid: int| 0 <= eid < post.entries().len() implies #[trigger] post.entry_links_ok(eid) by {
                assert(pre.entry_links_ok(eid));
                let e = post.entries()[eid];
                if e is Occupied {
                    let b2 = e.bin() as int;
                    let s2 = e.slot() as int;
                    if b2 == b && s2 == s {
                        assert(post.bins()[b][s].id == pre.bins()[b][s].id);
                    } else {
                        assert(post.bins()[b2][s2] == pre.bins()[b2][s2]);
                    }
                }
            }
            assert forall|b2: int, s2: int|
                0 <= b2 < post.bins().len() && 0 <= s2 < post.bins()[b2].len() implies #[trigger] post.slot_links_ok(b2, s2) by {
                assert(pre.slot_links_ok(b2, s2));
                if b2 == b && s2 == s {
                    assert(post.bins()[b][s].id == pre.bins()[b][s].id);
                } else {
                    assert(post.bins()[b2][s2] == pre.bins()[b2][s2]);
                }
            }
            assert forall|b2: int, s2: int|
                0 <= b2 < post.bins().len() && 0 <= s2 < post.bins()[b2].len() && !(b2 == b && s2
                    == s) implies #[trigger] post.slot_fits(b2, s2) by {
                assert(pre.slot_fits(b2, s2));
                assert(post.bins()[b2][s2] == pre.bins()[b2][s2]);
            }
            assert(post.bins() =~= pre.bins().update(b, post.bins()[b]));
            lemma_sum_lens_update(pre.bins(), b, post.bins()[b]);
            let tid = iid.instance_id as int;
            let m1 = post.live();
            let m2 = pre.live().insert(
                tid,
                (iid.version, handler.out_state(*message, pre.bins()[b][s].state@)),
            );
            assert forall|i: int| m1.dom().contains(i) implies m1[i] == m2[i] by {
                assert(pre.entry_links_ok(i));
                if i != tid {
                    let b2 = pre.entries()[i].bin() as int;
                    let s2 = pre.entries()[i].slot() as int;
                    assert(!(b2 == b && s2 == s)) by {
                        if b2 == b && s2 == s {
                            assert(pre.bins()[b][s].id.instance_id == i);
                        }
                    }
                    assert(post.bins()[b2][s2] == pre.bins()[b2][s2]);
                }
            }
            assert(m1 =~= m2);
        }
        (f, iid, new_size)
    }

    /// Receive a message addressed to one instance: look the recipient up
    /// strictly (dropping the message if the handle is stale), run the
    /// handler, then reconcile — emplace requested spawns, re-home the
    /// instance if it outgrew its size class, or destroy it if the handler
    /// said `Die`.
    fn receive_instance<M, H: Handler<M>>(
        &mut self,
        packet: &Packet<M>,
        handler: &H,
        world: &mut World,
    )
        requires
            old(self).wf(),
            old(world)@.len() == 0,
        ensures
            final(self).wf(),
            final(world)@.len() == 0,
            final(self).spec_arena().base() == old(self).spec_arena().base(),
            final(self).spec_type_id() == old(self).spec_type_id(),
            final(self).spec_machine() == old(self).spec_machine(),
            !old(self).accepts(packet.recipient_id) ==> *final(self) == *old(self) && *final(world)
                == *old(world),
            old(self).accepts(packet.recipient_id) ==> unicast_post(
                *old(self),
                *final(self),
                *handler,
                packet.message,
                packet.recipient_id,
            ),
            old(self).accepts(packet.recipient_id) && stays_compact(
                *old(self),
                *handler,
                packet.message,
                packet.recipient_id,
            ) ==> unicast_frame(
                *old(self),
                *final(self),
                *handler,
                packet.message,
                packet.recipient_id,
            ),
            is_noop_handler::<M, H>(*handler) ==> same_state(*final(self), *old(self)),
    {
        let rid = packet.recipient_id;
        match self.slot_map.indices_of(rid.instance_id as usize, rid.version) {
            None => {
                // stale recipient: wrong version or freed id; drop the message
            },
            Some(indices) => {
                let ghost pre = *self;
                let ghost b = indices.bin as int;
                let ghost s = indices.slot as int;
                let ghost tid = rid.instance_id as int;
                proof {
                    assert(pre.entry_links_ok(tid));
                }
                let (f, iid, new_size) = self.run_handler_at(
                    indices,
                    &packet.message,
                    handler,
                    world,
                );
                let ghost st0 = pre.bins()[b][s].state@;
                let ghost st1 = handler.out_state(packet.message, st0);
                let ghost sp = handler.out_spawns(packet.message, st0);
                let ghost mid = *self;
                proof {
                    assert(iid.instance_id == rid.instance_id && iid.version == rid.version);
                    assert(st0 == pre.live()[tid].1);
                }
                self.drain_spawns(world, Ghost((b, s)));
                let ghost post_drain = *self;
                proof {
                    assert(post_drain.bins()[b][s] == mid.bins()[b][s]);
                }
                let cap = self.arena.capacity_of_class(indices.bin);
                let is_still_compact = new_size <= cap;
                match f {
                    Fate::Live => {
                        if !is_still_compact {
                            self.resize_at_index(indices);
                        }
                    },
                    Fate::Die => {
                        self.remove_at_index(indices, iid);
                    },
                }
                proof {
                    let post = *self;
                    let mid_live = if f is Live {
                        pre.live().insert(tid, (rid.version, st1))
                    } else {
                        pre.live().remove(tid)
                    };
                    let (ids, vers): (Seq<int>, Seq<u32>) = choose|ids: Seq<int>, vers: Seq<u32>|
                        {
                            &&& ids.len() <= sp.len()
                            &&& vers.len() == ids.len()
                            &&& (forall|k: int|
                                0 <= k < ids.len() ==> !mid.live().dom().contains(
                                    #[trigger] ids[k],
                                ))
                            &&& (forall|k1: int, k2: int|
                                0 <= k1 < k2 < ids.len() ==> #[trigger] ids[k1]
                                    != #[trigger] ids[k2])
                            &&& post_drain.live() == spawned_into(
                                mid.live(),
                                ids,
                                vers,
                                sp.take(ids.len() as int),
                            )
                            &&& post_drain.spec_n() == mid.spec_n() + ids.len()
                            &&& (mid.entries().len() + sp.len() <= MAX_ENTRIES ==> ids.len()
                                == sp.len())
                        };
                    if f is Live {
                        assert(post.live() == post_drain.live());
                        assert(post.version_of(tid) == rid.version);
                        if new_size <= cap {
                            assert forall|b2: int, s2: int|
                                0 <= b2 < post.bins().len() && 0 <= s2 < post.bins()[b2].len() implies #[trigger] post.slot_fits(b2, s2) by {
                                if b2 == b && s2 == s {
                                    assert(post.bins()[b][s].state@ == st1);
                                } else {
                                    assert(post_drain.sizes_ok_except(b, s));
                                }
                            }
                        }
                    } else {
                        assert(post.live() == post_drain.live().remove(tid));
                        assert forall|k: int| 0 <= k < ids.len() implies #[trigger] ids[k] != tid by {
                            assert(mid.live().dom().contains(tid));
                        }
                        lemma_spawned_into_remove(
                            mid.live(),
                            ids,
                            vers,
                            sp.take(ids.len() as int),
                            tid,
                        );
                        assert(mid.live().remove(tid) =~= pre.live().remove(tid));
                    }
                    assert(mid_live == unicast_reconciled(pre, *handler, packet.message, rid));
                    assert(unicast_spawns_ok(pre, post, *handler, packet.message, rid, ids, vers));
                    assert(unicast_post(pre, post, *handler, packet.message, rid));
                    if stays_compact(pre, *handler, packet.message, rid) {
                        assert(sp == Seq::<Seq<u64>>::empty());
                        assert(post_drain == mid);
                        assert(new_size <= cap);
                        assert(post == mid);
                        assert(unicast_frame(pre, post, *handler, packet.message, rid));
                    }
                    if is_noop_handler::<M, H>(*handler) {
                        assert(st1 == st0);
                        assert(sp == Seq::<Seq<u64>>::empty());
                        assert(post_drain == mid);
                        assert(pre.slot_fits(b, s));
                        assert(new_size <= cap);
                        assert(same_state(post, pre));
                    }
                }
            },
        }
    }

    /// Deliver a broadcast: walk a snapshot of the bins taken at the start.
    ///
    /// During the walk, receivers may be resized (and so removed from a bin,
    /// swapping in either another receiver that has not been delivered to
    /// yet, or a resized or freshly spawned instance that must not be), or
    /// killed, or spawn sub-instances.  Per bin the cursor runs for the
    /// snapshot count of iterations; `index_after_last_recipient` tracks
    /// the boundary between pending originals and newcomers.  When a
    /// swap-remove drops the bin below that boundary, the element pulled
    /// into the cursor's slot is a pending original, so the slot is visited
    /// again; otherwise the pulled-in element is a newcomer and is skipped.
    /// The only assumption is that no spawned sub-instance is destroyed
    /// again within the same broadcast — nothing can, since handlers only
    /// decide their own fate.
    #[verifier::rlimit(100)]
    #[verifier::spinoff_prover]
    fn receive_broadcast<M, H: Handler<M>>(
        &mut self,
        packet: &Packet<M>,
        handler: &H,
        world: &mut World,
    )
        requires
            old(self).wf(),
            old(world)@.len() == 0,
        ensures
            final(self).wf(),
            final(world)@.len() == 0,
            final(self).spec_arena().base() == old(self).spec_arena().base(),
            final(self).spec_type_id() == old(self).spec_type_id(),
            final(self).spec_machine() == old(self).spec_machine(),
            old(self).spec_n() == 0 ==> *final(self) == *old(self),
            is_noop_handler::<M, H>(*handler) ==> same_state(*final(self), *old(self)),
            is_gentle_handler::<M, H>(*handler) ==> final(self).entries() == old(self).entries()
                && final(self).live() == old(self).live().map_values(
                (|p: (u32, Seq<u64>)| (p.0, handler.out_state(packet.message, p.1))),
            ),
            is_lean_handler::<M, H>(*handler) ==> final(self).entries().len() == old(
                self,
            ).entries().len() && (forall|id: int|
                0 <= id < old(self).entries().len() && old(self).entries()[id] is Occupied
                    ==> #[trigger] final(self).lean_outcome(
                    *old(self),
                    *handler,
                    packet.message,
                    id,
                )) && (forall|id: int|
                0 <= id < final(self).entries().len() && (#[trigger] final(self).entries()[id])
                    is Occupied ==> old(self).entries()[id] is Occupied) && (forall|id: int|
                0 <= id < old(self).entries().len() && (#[trigger] old(self).entries()[id])
                    is Free ==> final(self).entries()[id] == old(self).entries()[id]) && (
            forall|id: int|
                0 <= id < old(self).entries().len() && old(self).entries()[id] is Occupied && (
                #[trigger] final(self).entries()[id]) is Occupied
                    ==> final(self).entries()[id].slot() <= old(self).entries()[id].slot()),
            is_spawner_handler::<M, H>(*handler) ==> (forall|id: int|
                0 <= id < old(self).entries().len() && old(self).entries()[id] is Occupied
                    ==> #[trigger] final(self).lean_done(
                    *old(self),
                    *handler,
                    packet.message,
                    id,
                )) && (forall|id: int|
                0 <= id < final(self).entries().len() && (#[trigger] final(self).entries()[id])
                    is Occupied && !(id < old(self).entries().len() && old(self).entries()[id]
                    is Occupied) ==> final(self).spawned_from(
                    *old(self),
                    *handler,
                    packet.message,
                    id,
                )),
            is_live_handler::<M, H>(*handler) ==> (forall|id: int|
                0 <= id < old(self).entries().len() && old(self).entries()[id] is Occupied
                    ==> #[trigger] final(self).delivered_live(
                    *old(self),
                    *handler,
                    packet.message,
                    id,
                )) && (forall|id: int|
                0 <= id < final(self).entries().len() && (#[trigger] final(self).entries()[id])
                    is Occupied && !(id < old(self).entries().len() && old(self).entries()[id]
                    is Occupied) ==> final(self).spawned_from(
                    *old(self),
                    *handler,
                    packet.message,
                    id,
                )),
            is_spawner_handler::<M, H>(*handler) && old(self).entries().len()
                + spawn_requests_total(*handler, packet.message, old(self).bins()) <= MAX_ENTRIES
                ==> final(self).spec_n() == old(self).spec_n() + spawn_requests_total(
                *handler,
                packet.message,
                old(self).bins(),
            ),
    {
        let ghost pre = *self;
        let lens = self.arena.bin_lens();
        let nbins = lens.len();
        let mut bin_index: usize = 0;
        while bin_index < nbins
            invariant
                self.wf(),
                world@.len() == 0,
                nbins == lens@.len(),
                lens@.len() == pre.bins().len(),
                forall|b2: int| 0 <= b2 < lens@.len() ==> lens@[b2] == pre.bins()[b2].len(),
                bin_index <= nbins,
                self.bins().len() >= pre.bins().len(),
                forall|b2: int|
                    bin_index <= b2 < nbins ==> (#[trigger] self.bins()[b2]).len() >= lens@[b2],
                pre.wf(),
                pre.spec_n() == 0 ==> *self == pre,
                is_noop_handler::<M, H>(*handler) ==> same_state(*self, pre),
                is_lean_handler::<M, H>(*handler) ==> {
                    &&& self.entries().len() == pre.entries().len()
                    &&& self.bins().len() == pre.bins().len()
                    &&& (forall|id: int|
                        0 <= id < pre.entries().len() && (#[trigger] pre.entries()[id]) is Free
                            ==> self.entries()[id] == pre.entries()[id])
                    &&& (forall|id: int|
                        0 <= id < pre.entries().len() && pre.entries()[id] is Occupied && (
                        #[trigger] self.entries()[id]) is Occupied ==> self.entries()[id].slot()
                            <= pre.entries()[id].slot())
                    &&& (forall|b2: int|
                        bin_index <= b2 < self.bins().len() ==> (#[trigger] self.bins()[b2]).len()
                            == pre.bins()[b2].len())
                    &&& (forall|id: int|
                        0 <= id < self.entries().len() && (#[trigger] self.entries()[id])
                            is Occupied ==> pre.entries()[id] is Occupied)
                    &&& (forall|id: int|
                        0 <= id < pre.entries().len() && (#[trigger] pre.entries()[id])
                            is Occupied ==> {
                            if (pre.entries()[id].bin() as int) < bin_index {
                                self.lean_outcome(pre, *handler, packet.message, id)
                            } else {
                                self.entries()[id] == pre.entries()[id] && self.live()[id]
                                    == pre.live()[id]
                            }
                        })
                },
                is_live_handler::<M, H>(*handler) ==> {
                    &&& self.entries().len() >= pre.entries().len()
                    &&& (forall|id: int|
                        0 <= id < pre.entries().len() && (#[trigger] pre.entries()[id])
                            is Occupied ==> {
                            if (pre.entries()[id].bin() as int) < bin_index {
                                self.delivered_live(pre, *handler, packet.message, id)
                                    && off_walk(
                                    self.entries()[id],
                                    bin_index as int,
                                    0,
                                    (if (bin_index as int) < lens@.len() {
                                        lens@[bin_index as int] as int
                                    } else {
                                        0
                                    }),
                                    lens@,
                                )
                            } else {
                                self.entries()[id] == pre.entries()[id] && self.live()[id]
                                    == pre.live()[id]
                            }
                        })
                    &&& (forall|id: int|
                        0 <= id < self.entries().len() && (#[trigger] self.entries()[id])
                            is Occupied && !(id < pre.entries().len() && pre.entries()[id]
                            is Occupied) ==> self.spawned_from(pre, *handler, packet.message, id)
                            && off_walk(
                            self.entries()[id],
                            bin_index as int,
                            0,
                            (if (bin_index as int) < lens@.len() {
                                lens@[bin_index as int] as int
                            } else {
                                0
                            }),
                            lens@,
                        ))
                },
                is_spawner_handler::<M, H>(*handler) ==> {
                    &&& self.entries().len() >= pre.entries().len()
                    &&& (pre.entries().len() + spawn_requests_total(
                        *handler,
                        packet.message,
                        pre.bins(),
                    ) <= MAX_ENTRIES ==> self.spec_n() == pre.spec_n() + spawn_requests_total(
                        *handler,
                        packet.message,
                        pre.bins().take(bin_index as int),
                    ) && self.entries().len() + pre.spec_n() <= pre.entries().len()
                        + self.spec_n())
                    &&& (forall|b2: int|
                        0 <= b2 < pre.bins().len() ==> (#[trigger] self.bins()[b2]).len()
                            >= pre.bins()[b2].len())
                    &&& (forall|id: int|
                        0 <= id < pre.entries().len() && (#[trigger] pre.entries()[id])
                            is Occupied ==> self.entries()[id] == pre.entries()[id])
                    &&& (forall|b2: int, s2: int|
                        0 <= b2 < pre.bins().len() && 0 <= s2 < pre.bins()[b2].len() ==> (
                        #[trigger] self.bins()[b2][s2]).id == pre.bins()[b2][s2].id)
                    &&& (forall|b2: int, s2: int|
                        0 <= b2 < pre.bins().len() && 0 <= s2 < pre.bins()[b2].len() && b2
                            < bin_index ==> (#[trigger] self.bins()[b2][s2]).state@
                            == handler.out_state(packet.message, pre.bins()[b2][s2].state@))
                    &&& (forall|b2: int, s2: int|
                        0 <= b2 < pre.bins().len() && 0 <= s2 < pre.bins()[b2].len() && b2
                            >= bin_index ==> (#[trigger] self.bins()[b2][s2]).state@
                            == pre.bins()[b2][s2].state@)
                    &&& (forall|id: int|
                        0 <= id < self.entries().len() && (#[trigger] self.entries()[id])
                            is Occupied && !(id < pre.entries().len() && pre.entries()[id]
                            is Occupied) ==> self.spawned_from(pre, *handler, packet.message, id))
                },
                is_gentle_handler::<M, H>(*handler) ==> {
                    &&& self.entries() == pre.entries()
                    &&& self.bins().len() == pre.bins().len()
                    &&& (forall|b2: int|
                        0 <= b2 < pre.bins().len() ==> (#[trigger] self.bins()[b2]).len()
                            == pre.bins()[b2].len())
                    &&& (forall|b2: int, s2: int|
                        0 <= b2 < pre.bins().len() && 0 <= s2 < pre.bins()[b2].len() ==> (
                        #[trigger] self.bins()[b2][s2]).id == pre.bins()[b2][s2].id)
                    &&& (forall|b2: int, s2: int|
                        0 <= b2 < pre.bins().len() && 0 <= s2 < pre.bins()[b2].len() && b2
                            < bin_index ==> (#[trigger] self.bins()[b2][s2]).state@
                            == handler.out_state(packet.message, pre.bins()[b2][s2].state@))
                    &&& (forall|b2: int, s2: int|
                        0 <= b2 < pre.bins().len() && 0 <= s2 < pre.bins()[b2].len() && b2
                            >= bin_index ==> (#[trigger] self.bins()[b2][s2]).state@
                            == pre.bins()[b2][s2].state@)
                },
                self.spec_arena().base() == pre.spec_arena().base(),
                self.spec_type_id() == pre.spec_type_id(),
                self.spec_machine() == pre.spec_machine(),
            decreases nbins - bin_index,
        {
            let recipients_todo = lens[bin_index];
            let mut slot: usize = 0;
            let mut index_after_last_recipient = recipients_todo;
            let mut iter: usize = 0;
            proof {
                if is_lean_handler::<M, H>(*handler) {
                    assert forall|id: int|
                        0 <= id < pre.entries().len() && (#[trigger] pre.entries()[id])
                            is Occupied && (pre.entries()[id].bin() as int)
                            == bin_index implies self.lean_pending(
                        pre,
                        id,
                        0,
                        recipients_todo as int,
                    ) by {
                        assert(self.entries()[id] == pre.entries()[id]);
                        assert(self.entry_links_ok(id));
                    }
                }
                if is_live_handler::<M, H>(*handler) {
                    assert forall|id: int|
                        0 <= id < pre.entries().len() && (#[trigger] pre.entries()[id])
                            is Occupied && (pre.entries()[id].bin() as int)
                            == bin_index implies self.lean_pending(
                        pre,
                        id,
                        0,
                        recipients_todo as int,
                    ) by {
                        assert(self.entries()[id] == pre.entries()[id]);
                        assert(self.entry_links_ok(id));
                        assert(pre.entry_links_ok(id));
                    }
                }
                if is_spawner_handler::<M, H>(*handler) {
                    assert(pre.bins()[bin_index as int].take(0) =~= Seq::<Instance>::empty());
                }
            }
            while iter < recipients_todo
                invariant
                    self.wf(),
                    world@.len() == 0,
                    nbins == lens@.len(),
                    lens@.len() == pre.bins().len(),
                    forall|b2: int| 0 <= b2 < lens@.len() ==> lens@[b2] == pre.bins()[b2].len(),
                    bin_index < nbins,
                    recipients_todo == lens@[bin_index as int],
                    iter <= recipients_todo,
                    (bin_index as int) < self.bins().len(),
                    slot + (recipients_todo - iter) == index_after_last_recipient,
                    index_after_last_recipient <= self.bins()[bin_index as int].len(),
                    self.bins().len() >= pre.bins().len(),
                    forall|b2: int|
                        bin_index < b2 < nbins ==> (#[trigger] self.bins()[b2]).len() >= lens@[b2],
                    pre.wf(),
                    pre.spec_n() == 0 ==> *self == pre,
                    is_noop_handler::<M, H>(*handler) ==> same_state(*self, pre),
                    is_lean_handler::<M, H>(*handler) ==> {
                        &&& self.entries().len() == pre.entries().len()
                        &&& self.bins().len() == pre.bins().len()
                        &&& (forall|id: int|
                            0 <= id < pre.entries().len() && (#[trigger] pre.entries()[id])
                                is Free ==> self.entries()[id] == pre.entries()[id])
                        &&& (forall|id: int|
                            0 <= id < pre.entries().len() && pre.entries()[id] is Occupied && (
                            #[trigger] self.entries()[id]) is Occupied
                                ==> self.entries()[id].slot() <= pre.entries()[id].slot())
                        &&& index_after_last_recipient == self.bins()[bin_index as int].len()
                        &&& (forall|b2: int|
                            bin_index < b2 < self.bins().len() ==> (
                            #[trigger] self.bins()[b2]).len() == pre.bins()[b2].len())
                        &&& (forall|id: int|
                            0 <= id < self.entries().len() && (#[trigger] self.entries()[id])
                                is Occupied ==> pre.entries()[id] is Occupied)
                        &&& (forall|id: int|
                            0 <= id < pre.entries().len() && (#[trigger] pre.entries()[id])
                                is Occupied ==> {
                                let b0 = pre.entries()[id].bin() as int;
                                if b0 < bin_index {
                                    self.lean_outcome(pre, *handler, packet.message, id)
                                } else if b0 == bin_index {
                                    (self.lean_outcome(pre, *handler, packet.message, id) && (
                                    self.entries()[id] is Occupied ==> (
                                    self.entries()[id].slot() as int) < slot))
                                        || self.lean_pending(
                                        pre,
                                        id,
                                        slot as int,
                                        index_after_last_recipient as int,
                                    )
                                } else {
                                    self.entries()[id] == pre.entries()[id] && self.live()[id]
                                        == pre.live()[id]
                                }
                            })
                    },
                    is_live_handler::<M, H>(*handler) ==> {
                        &&& self.entries().len() >= pre.entries().len()
                        &&& (forall|id: int|
                            0 <= id < pre.entries().len() && (#[trigger] pre.entries()[id])
                                is Occupied ==> {
                                let b0 = pre.entries()[id].bin() as int;
                                if b0 < bin_index {
                                    self.delivered_live(pre, *handler, packet.message, id)
                                        && off_walk(
                                        self.entries()[id],
                                        bin_index as int,
                                        slot as int,
                                        index_after_last_recipient as int,
                                        lens@,
                                    )
                                } else if b0 == bin_index {
                                    (self.delivered_live(pre, *handler, packet.message, id)
                                        && off_walk(
                                        self.entries()[id],
                                        bin_index as int,
                                        slot as int,
                                        index_after_last_recipient as int,
                                        lens@,
                                    )) || self.lean_pending(
                                        pre,
                                        id,
                                        slot as int,
                                        index_after_last_recipient as int,
                                    )
                                } else {
                                    self.entries()[id] == pre.entries()[id] && self.live()[id]
                                        == pre.live()[id]
                                }
                            })
                        &&& (forall|id: int|
                            0 <= id < self.entries().len() && (#[trigger] self.entries()[id])
                                is Occupied && !(id < pre.entries().len() && pre.entries()[id]
                                is Occupied) ==> self.spawned_from(
                                pre,
                                *handler,
                                packet.message,
                                id,
                            ) && off_walk(
                                self.entries()[id],
                                bin_index as int,
                                slot as int,
                                index_after_last_recipient as int,
                                lens@,
                            ))
                    },
                    is_spawner_handler::<M, H>(*handler) ==> {
                        &&& slot == iter
                        &&& index_after_last_recipient == recipients_todo
                        &&& self.entries().len() >= pre.entries().len()
                        &&& (pre.entries().len() + spawn_requests_total(
                            *handler,
                            packet.message,
                            pre.bins(),
                        ) <= MAX_ENTRIES ==> self.spec_n() == pre.spec_n()
                            + spawn_requests_total(
                            *handler,
                            packet.message,
                            pre.bins().take(bin_index as int),
                        ) + spawn_requests_in_bin(
                            *handler,
                            packet.message,
                            pre.bins()[bin_index as int].take(slot as int),
                        ) && self.entries().len() + pre.spec_n() <= pre.entries().len()
                            + self.spec_n())
                        &&& (forall|b2: int|
                            0 <= b2 < pre.bins().len() ==> (#[trigger] self.bins()[b2]).len()
                                >= pre.bins()[b2].len())
                        &&& (forall|id: int|
                            0 <= id < pre.entries().len() && (#[trigger] pre.entries()[id])
                                is Occupied ==> self.entries()[id] == pre.entries()[id])
                        &&& (forall|b2: int, s2: int|
                            0 <= b2 < pre.bins().len() && 0 <= s2 < pre.bins()[b2].len() ==> (
                            #[trigger] self.bins()[b2][s2]).id == pre.bins()[b2][s2].id)
                        &&& (forall|b2: int, s2: int|
                            0 <= b2 < pre.bins().len() && 0 <= s2 < pre.bins()[b2].len() && b2
                                < bin_index ==> (#[trigger] self.bins()[b2][s2]).state@
                                == handler.out_state(packet.message, pre.bins()[b2][s2].state@))
                        &&& (forall|s2: int|
                            0 <= s2 < slot ==> (#[trigger] self.bins()[bin_index as int][s2]).state@
                                == handler.out_state(
                                packet.message,
                                pre.bins()[bin_index as int][s2].state@,
                            ))
                        &&& (forall|s2: int|
                            slot <= s2 < pre.bins()[bin_index as int].len() ==> (
                            #[trigger] self.bins()[bin_index as int][s2]).state@
                                == pre.bins()[bin_index as int][s2].state@)
                        &&& (forall|b2: int, s2: int|
                            0 <= b2 < pre.bins().len() && 0 <= s2 < pre.bins()[b2].len() && b2
                                > bin_index ==> (#[trigger] self.bins()[b2][s2]).state@
                                == pre.bins()[b2][s2].state@)
                        &&& (forall|id: int|
                            0 <= id < self.entries().len() && (#[trigger] self.entries()[id])
                                is Occupied && !(id < pre.entries().len() && pre.entries()[id]
                                is Occupied) ==> self.spawned_from(
                                pre,
                                *handler,
                                packet.message,
                                id,
                            ))
                    },
                    is_gentle_handler::<M, H>(*handler) ==> {
                        &&& slot == iter
                        &&& self.entries() == pre.entries()
                        &&& self.bins().len() == pre.bins().len()
                        &&& (forall|b2: int|
                            0 <= b2 < pre.bins().len() ==> (#[trigger] self.bins()[b2]).len()
                                == pre.bins()[b2].len())
                        &&& (forall|b2: int, s2: int|
                            0 <= b2 < pre.bins().len() && 0 <= s2 < pre.bins()[b2].len() ==> (
                            #[trigger] self.bins()[b2][s2]).id == pre.bins()[b2][s2].id)
                        &&& (forall|b2: int, s2: int|
                            0 <= b2 < pre.bins().len() && 0 <= s2 < pre.bins()[b2].len() && b2
                                < bin_index ==> (#[trigger] self.bins()[b2][s2]).state@
                                == handler.out_state(packet.message, pre.bins()[b2][s2].state@))
                        &&& (forall|s2: int|
                            0 <= s2 < slot ==> (#[trigger] self.bins()[bin_index as int][s2]).state@
                                == handler.out_state(
                                packet.message,
                                pre.bins()[bin_index as int][s2].state@,
                            ))
                        &&& (forall|s2: int|
                            slot <= s2 < pre.bins()[bin_index as int].len() ==> (
                            #[trigger] self.bins()[bin_index as int][s2]).state@
                                == pre.bins()[bin_index as int][s2].state@)
                        &&& (forall|b2: int, s2: int|
                            0 <= b2 < pre.bins().len() && 0 <= s2 < pre.bins()[b2].len() && b2
                                > bin_index ==> (#[trigger] self.bins()[b2][s2]).state@
                                == pre.bins()[b2][s2].state@)
                    },
                    self.spec_arena().base() == pre.spec_arena().base(),
                    self.spec_type_id() == pre.spec_type_id(),
                    self.spec_machine() == pre.spec_machine(),
                decreases recipients_todo - iter,
            {
                proof {
                    if pre.spec_n() == 0 {
                        crate::arena::lemma_sum_lens_zero(pre.bins(), bin_index as int);
                        assert(false);
                    }
                }
                let indices = SlotIndices { bin: bin_index, slot };
                let ghost it_pre = *self;
                let ghost b = bin_index as int;
                let ghost sl = slot as int;
                let (f, iid, new_size) = self.run_handler_at(
                    indices,
                    &packet.message,
                    handler,
                    world,
                );
                let ghost st0 = it_pre.bins()[b][sl].state@;
                let ghost mid = *self;
                self.drain_spawns(world, Ghost((b, sl)));
                let ghost post_drain = *self;
                proof {
                    assert(post_drain.bins()[b][sl] == mid.bins()[b][sl]);
                }
                let cap = self.arena.capacity_of_class(bin_index);
                proof {
                    if is_gentle_handler::<M, H>(*handler) {
                        assert(it_pre.bins()[b].len() == pre.bins()[b].len());
                        assert(sl < pre.bins()[b].len());
                        assert(st0 == pre.bins()[b][sl].state@);
                        assert(handler.out_state(packet.message, st0).len() <= st0.len());
                        assert(pre.slot_fits(b, sl));
                        assert(new_size <= cap);
                        assert(post_drain == mid);
                    }
                    if is_spawner_handler::<M, H>(*handler) {
                        assert(sl < pre.bins()[b].len());
                        assert(st0 == pre.bins()[b][sl].state@);
                        assert(handler.out_state(packet.message, st0).len() <= st0.len());
                        assert(pre.slot_fits(b, sl));
                        assert(new_size <= cap);
                    }
                    if is_live_handler::<M, H>(*handler) {
                        // the cursor's occupant is an untouched original of
                        // this bin: everything else is off the walk
                        let tid_s = iid.instance_id as int;
                        assert(it_pre.slot_links_ok(b, sl));
                        if !(tid_s < pre.entries().len() && pre.entries()[tid_s] is Occupied) {
                            assert(off_walk(
                                it_pre.entries()[tid_s],
                                b,
                                sl,
                                index_after_last_recipient as int,
                                lens@,
                            ));
                            assert(false);
                        }
                        let b0 = pre.entries()[tid_s].bin() as int;
                        if b0 < b {
                            assert(off_walk(
                                it_pre.entries()[tid_s],
                                b,
                                sl,
                                index_after_last_recipient as int,
                                lens@,
                            ));
                            assert(false);
                        }
                        if b0 > b {
                            assert(it_pre.entries()[tid_s] == pre.entries()[tid_s]);
                            assert(false);
                        }
                        if !it_pre.lean_pending(pre, tid_s, sl, index_after_last_recipient as int) {
                            assert(off_walk(
                                it_pre.entries()[tid_s],
                                b,
                                sl,
                                index_after_last_recipient as int,
                                lens@,
                            ));
                            assert(false);
                        }
                        assert(st0 == pre.live()[tid_s].1);
                        assert(f is Live);
                    }
                    if is_lean_handler::<M, H>(*handler) {
                        let tid_s = iid.instance_id as int;
                        assert(it_pre.slot_links_ok(b, sl));
                        assert(pre.entries()[tid_s] is Occupied);
                        let b0 = pre.entries()[tid_s].bin() as int;
                        if b0 != b {
                            // an original of another bin can never sit under
                            // this bin's cursor: nothing migrates
                            assert(false);
                        }
                        if it_pre.lean_outcome(pre, *handler, packet.message, tid_s) && (
                        it_pre.entries()[tid_s] is Occupied ==> (
                        it_pre.entries()[tid_s].slot() as int) < sl) {
                            assert(false);
                        }
                        assert(it_pre.lean_pending(
                            pre,
                            tid_s,
                            sl,
                            index_after_last_recipient as int,
                        ));
                        assert(st0 == pre.live()[tid_s].1);
                        let s0 = pre.entries()[tid_s].slot() as int;
                        assert(pre.entry_links_ok(tid_s));
                        assert(pre.live()[tid_s].1 == pre.bins()[b][s0].state@);
                        assert(pre.slot_fits(b, s0));
                        assert(handler.out_state(packet.message, st0).len() <= st0.len());
                        assert(new_size <= cap);
                        assert(post_drain == mid);
                    }
                }
                let ghost o_ia = index_after_last_recipient as int;
                let ghost mut moved_to = SlotIndices { bin: 0, slot: 0 };
                let is_still_compact = new_size <= cap;
                let repeat_slot: bool = match f {
                    Fate::Live => {
                        if is_still_compact {
                            proof {
                                assert forall|b2: int, s2: int|
                                    0 <= b2 < post_drain.bins().len() && 0 <= s2
                                        < post_drain.bins()[b2].len() implies #[trigger] post_drain.slot_fits(b2, s2) by {
                                    if b2 == b && s2 == sl {
                                        assert(post_drain.bins()[b][sl].state@
                                            == handler.out_state(packet.message, st0));
                                    } else {
                                        assert(post_drain.sizes_ok_except(b, sl));
                                    }
                                }
                            }
                            false
                        } else {
                            let new_loc = self.resize_at_index(indices);
                            proof {
                                moved_to = new_loc;
                            }
                            let swapped_in_another_receiver = self.arena.bin_len(bin_index)
                                < index_after_last_recipient;
                            if swapped_in_another_receiver {
                                index_after_last_recipient = index_after_last_recipient - 1;
                                true
                            } else {
                                false
                            }
                        }
                    },
                    Fate::Die => {
                        self.remove_at_index(indices, iid);
                        let swapped_in_another_receiver = self.arena.bin_len(bin_index)
                            < index_after_last_recipient;
                        if swapped_in_another_receiver {
                            index_after_last_recipient = index_after_last_recipient - 1;
                            true
                        } else {
                            false
                        }
                    },
                };
                if !repeat_slot {
                    slot = slot + 1;
                }
                iter = iter + 1;
                proof {
                    let post = *self;
                    assert forall|b2: int|
                        bin_index < b2 < nbins implies (#[trigger] post.bins()[b2]).len()
                        >= lens@[b2] by {
                        assert(it_pre.bins()[b2].len() >= lens@[b2]);
                        assert(mid.bins()[b2] == it_pre.bins()[b2]);
                        assert(post_drain.bins()[b2].len() >= mid.bins()[b2].len());
                    }
                    if is_noop_handler::<M, H>(*handler) {
                        assert(handler.out_state(packet.message, st0) == st0);
                        assert(handler.out_spawns(packet.message, st0) == Seq::<Seq<u64>>::empty());
                        assert(post_drain == mid);
                        assert(it_pre.slot_fits(b, sl));
                        assert(new_size <= cap);
                        assert(same_state(post, it_pre)) by {
                            assert forall|b2: int, s2: int|
                                0 <= b2 < post.bins().len() && 0 <= s2
                                    < post.bins()[b2].len() implies (#[trigger] post.bins()[b2][s2]).id
                                == it_pre.bins()[b2][s2].id && post.bins()[b2][s2].state@
                                == it_pre.bins()[b2][s2].state@ by {
                                if !(b2 == b && s2 == sl) {
                                    if b2 == b {
                                        assert(post.bins()[b][s2] == it_pre.bins()[b][s2]);
                                    } else {
                                        assert(post.bins()[b2] == it_pre.bins()[b2]);
                                    }
                                }
                            }
                        }
                        lemma_same_state_trans(post, it_pre, pre);
                    }
                    if is_live_handler::<M, H>(*handler) {
                        let tid_s = iid.instance_id as int;
                        let lmid = mid.bins()[b].len() as int;
                        let lpd = post_drain.bins()[b].len() as int;
                        let w0 = handler.out_spawns(packet.message, st0);
                        let (sids2, svers2): (Seq<int>, Seq<u32>) = choose|
                            sids2: Seq<int>,
                            svers2: Seq<u32>,
                        |
                            {
                                &&& sids2.len() <= w0.len()
                                &&& svers2.len() == sids2.len()
                                &&& (forall|k: int|
                                    0 <= k < sids2.len() ==> !mid.live().dom().contains(
                                        #[trigger] sids2[k],
                                    ))
                                &&& (forall|k1: int, k2: int|
                                    0 <= k1 < k2 < sids2.len() ==> #[trigger] sids2[k1]
                                        != #[trigger] sids2[k2])
                                &&& post_drain.live() == spawned_into(
                                    mid.live(),
                                    sids2,
                                    svers2,
                                    w0.take(sids2.len() as int),
                                )
                                &&& post_drain.spec_n() == mid.spec_n() + sids2.len()
                                &&& (mid.entries().len() + w0.len() <= MAX_ENTRIES
                                    ==> sids2.len() == w0.len())
                            };
                        lemma_spawned_into_lookup(
                            mid.live(),
                            sids2,
                            svers2,
                            w0.take(sids2.len() as int),
                        );
                        // fresh newcomers sit past every pre-existing slot
                        assert forall|id: int|
                            0 <= id < post_drain.entries().len() && (
                            #[trigger] post_drain.entries()[id]) is Occupied && !(id
                                < mid.entries().len() && mid.entries()[id] is Occupied) implies ((
                        post_drain.entries()[id].bin() as int) < mid.bins().len() ==> (
                        post_drain.entries()[id].slot() as int)
                            >= mid.bins()[post_drain.entries()[id].bin() as int].len()) by {
                            assert(post_drain.entry_links_ok(id));
                            let eb = post_drain.entries()[id].bin() as int;
                            let es = post_drain.entries()[id].slot() as int;
                            if eb < mid.bins().len() && es < mid.bins()[eb].len() {
                                assert(post_drain.bins()[eb][es] == mid.bins()[eb][es]);
                                assert(mid.slot_links_ok(eb, es));
                                assert(mid.bins()[eb][es].id.instance_id == id);
                                assert(mid.entries()[id] is Occupied);
                                assert(false);
                            }
                        }
                        let resized = !(new_size <= cap);
                        let has_sr = resized && sl < lpd - 1;
                        let sr = if has_sr {
                            post_drain.bins()[b][lpd - 1].id.instance_id as int
                        } else {
                            tid_s
                        };
                        assert(o_ia <= lmid);
                        assert(lpd >= lmid);
                        if resized {
                            assert(post.live() == post_drain.live());
                            if has_sr {
                                assert(post.entries()[sr] == (SlotEntry::Occupied {
                                    bin: indices.bin,
                                    slot: indices.slot,
                                    version: post_drain.bins()[b].last().id.version,
                                }));
                            }
                        } else {
                            assert(post == post_drain);
                        }
                        assert forall|id: int|
                            0 <= id < pre.entries().len() && (#[trigger] pre.entries()[id])
                                is Occupied implies {
                            let b0 = pre.entries()[id].bin() as int;
                            if b0 < bin_index as int {
                                post.delivered_live(pre, *handler, packet.message, id)
                                    && off_walk(
                                    post.entries()[id],
                                    bin_index as int,
                                    slot as int,
                                    index_after_last_recipient as int,
                                    lens@,
                                )
                            } else if b0 == bin_index as int {
                                (post.delivered_live(pre, *handler, packet.message, id)
                                    && off_walk(
                                    post.entries()[id],
                                    bin_index as int,
                                    slot as int,
                                    index_after_last_recipient as int,
                                    lens@,
                                )) || post.lean_pending(
                                    pre,
                                    id,
                                    slot as int,
                                    index_after_last_recipient as int,
                                )
                            } else {
                                post.entries()[id] == pre.entries()[id] && post.live()[id]
                                    == pre.live()[id]
                            }
                        } by {
                            let b0 = pre.entries()[id].bin() as int;
                            assert(mid.entries()[id] == it_pre.entries()[id]);
                            if id == tid_s {
                                assert(mid.live()[id] == (iid.version, handler.out_state(
                                    packet.message,
                                    st0,
                                )));
                                if resized {
                                    assert(post.entries()[id] == (SlotEntry::Occupied {
                                        bin: moved_to.bin,
                                        slot: moved_to.slot,
                                        version: iid.version,
                                    }));
                                    assert(post.live()[id] == post_drain.live()[id]);
                                    assert(post_drain.live()[id] == mid.live()[id]);
                                    if (moved_to.bin as int) < lens@.len() {
                                        assert(it_pre.bins()[moved_to.bin as int].len()
                                            >= lens@[moved_to.bin as int]);
                                        assert(post_drain.bins()[moved_to.bin as int].len()
                                            >= mid.bins()[moved_to.bin as int].len());
                                    }
                                } else {
                                    assert(post.entries()[id] == it_pre.entries()[id]);
                                    assert(post.live()[id] == mid.live()[id]);
                                }
                                assert(post.delivered_live(pre, *handler, packet.message, id));
                            } else if has_sr && id == sr {
                                assert(lpd - 1 >= sl + 1);
                                if lpd - 1 < lmid {
                                    assert(post_drain.bins()[b][lpd - 1] == mid.bins()[b][lpd
                                        - 1]);
                                    assert(mid.bins()[b][lpd - 1] == it_pre.bins()[b][lpd - 1]);
                                    assert(it_pre.slot_links_ok(b, lpd - 1));
                                    assert(post.live()[id] == post_drain.live()[id]);
                                    assert(post_drain.live()[id] == mid.live()[id]);
                                    assert(mid.live()[id] == it_pre.live()[id]);
                                    if lpd == o_ia {
                                        // repeat: the pulled-down tail was a
                                        // pending original; it stays pending
                                        if !it_pre.lean_pending(pre, id, sl, o_ia) {
                                            if b0 < b {
                                                assert(off_walk(
                                                    it_pre.entries()[id],
                                                    b,
                                                    sl,
                                                    o_ia,
                                                    lens@,
                                                ));
                                                assert(false);
                                            } else if b0 > b {
                                                assert(it_pre.entries()[id]
                                                    == pre.entries()[id]);
                                                assert(false);
                                            } else {
                                                assert(off_walk(
                                                    it_pre.entries()[id],
                                                    b,
                                                    sl,
                                                    o_ia,
                                                    lens@,
                                                ));
                                                assert(false);
                                            }
                                        }
                                        assert(post.lean_pending(
                                            pre,
                                            id,
                                            slot as int,
                                            index_after_last_recipient as int,
                                        ));
                                    } else {
                                        // skip: the tail was already off the
                                        // walk: delivered (to stay so) or a
                                        // newcomer (but then not listed here)
                                        assert(lpd - 1 >= o_ia);
                                        if b0 > b {
                                            assert(it_pre.entries()[id] == pre.entries()[id]);
                                            assert(false);
                                        }
                                        if b0 == b && it_pre.lean_pending(pre, id, sl, o_ia) {
                                            assert(false);
                                        }
                                        assert(it_pre.delivered_live(
                                            pre,
                                            *handler,
                                            packet.message,
                                            id,
                                        ));
                                        assert(post.delivered_live(
                                            pre,
                                            *handler,
                                            packet.message,
                                            id,
                                        ));
                                    }
                                } else {
                                    // the tail cannot be a fresh spawn: this
                                    // id existed before the iteration, and
                                    // its untouched entry points below the
                                    // pre-drain length
                                    assert(it_pre.entries()[id] is Occupied);
                                    assert(post_drain.entries()[id] == it_pre.entries()[id]);
                                    assert(post_drain.slot_links_ok(b, lpd - 1));
                                    assert(it_pre.entry_links_ok(id));
                                    assert(false);
                                }
                            } else {
                                // untouched by this iteration's reconciliation
                                assert(post.entries()[id] == it_pre.entries()[id]);
                                assert(it_pre.entries()[id] is Occupied);
                                assert(post.live()[id] == post_drain.live()[id]);
                                assert(post_drain.live()[id] == mid.live()[id]);
                                assert(mid.live()[id] == it_pre.live()[id]);
                                if b0 == bin_index as int && it_pre.lean_pending(
                                    pre,
                                    id,
                                    sl,
                                    o_ia,
                                ) {
                                    let es = it_pre.entries()[id].slot() as int;
                                    assert(es != sl) by {
                                        if es == sl {
                                            assert(it_pre.entry_links_ok(id));
                                            assert(it_pre.bins()[b][sl].id.instance_id == id);
                                        }
                                    }
                                    if resized && lpd - 1 < lmid {
                                        assert(es != lpd - 1) by {
                                            if es == lpd - 1 {
                                                assert(it_pre.entry_links_ok(id));
                                                assert(it_pre.bins()[b][lpd - 1].id.instance_id
                                                    == id);
                                            }
                                        }
                                    }
                                    assert(post.lean_pending(
                                        pre,
                                        id,
                                        slot as int,
                                        index_after_last_recipient as int,
                                    ));
                                }
                            }
                        }
                        assert forall|id: int|
                            0 <= id < post.entries().len() && (#[trigger] post.entries()[id])
                                is Occupied && !(id < pre.entries().len() && pre.entries()[id]
                                is Occupied) implies post.spawned_from(
                            pre,
                            *handler,
                            packet.message,
                            id,
                        ) && off_walk(
                            post.entries()[id],
                            bin_index as int,
                            slot as int,
                            index_after_last_recipient as int,
                            lens@,
                        ) by {
                            if id < mid.entries().len() && mid.entries()[id] is Occupied {
                                // a newcomer from an earlier iteration
                                assert(it_pre.entries()[id] is Occupied);
                                assert(it_pre.spawned_from(pre, *handler, packet.message, id));
                                assert(post.live()[id] == post_drain.live()[id]);
                                assert(post_drain.live()[id] == mid.live()[id]);
                                assert(mid.live()[id] == it_pre.live()[id]);
                                let (j, k): (int, int) = choose|j: int, k: int|
                                    #![auto]
                                    0 <= j < pre.entries().len() && pre.entries()[j] is Occupied
                                        && 0 <= k && k < handler.out_spawns(
                                        packet.message,
                                        pre.live()[j].1,
                                    ).len() && it_pre.live()[id].1 == handler.out_spawns(
                                        packet.message,
                                        pre.live()[j].1,
                                    )[k];
                                assert(post.live()[id].1 == handler.out_spawns(
                                    packet.message,
                                    pre.live()[j].1,
                                )[k]);
                                if has_sr && id == sr {
                                    assert(lpd - 1 < lmid) by {
                                        if lpd - 1 >= lmid {
                                            assert(post_drain.entries()[id]
                                                == it_pre.entries()[id]);
                                            assert(post_drain.slot_links_ok(b, lpd - 1));
                                            assert(it_pre.entry_links_ok(id));
                                        }
                                    }
                                    assert(lpd - 1 >= o_ia) by {
                                        if lpd - 1 < o_ia {
                                            assert(it_pre.slot_links_ok(b, lpd - 1));
                                            assert(off_walk(
                                                it_pre.entries()[id],
                                                b,
                                                sl,
                                                o_ia,
                                                lens@,
                                            ));
                                        }
                                    }
                                    // the pulled-down newcomer now sits below
                                    // the advanced cursor
                                    assert(slot as int == sl + 1);
                                    assert(post.entries()[id] == (SlotEntry::Occupied {
                                        bin: indices.bin,
                                        slot: indices.slot,
                                        version: post_drain.bins()[b].last().id.version,
                                    }));
                                } else {
                                    assert(post.entries()[id] == it_pre.entries()[id]);
                                }
                            } else {
                                // a fresh spawn of this iteration
                                assert(post_drain.entries()[id] is Occupied);
                                assert(post.live()[id] == post_drain.live()[id]);
                                assert(post_drain.live().dom().contains(id));
                                assert(!mid.live().dom().contains(id));
                                let k = choose|k: int|
                                    0 <= k < sids2.len() && #[trigger] sids2[k] == id;
                                assert(post_drain.live()[id] == (svers2[k], w0.take(
                                    sids2.len() as int,
                                )[k]));
                                assert(w0.take(sids2.len() as int)[k] == w0[k]);
                                assert(post.live()[id].1 == handler.out_spawns(
                                    packet.message,
                                    pre.live()[tid_s].1,
                                )[k]);
                                if has_sr && id == sr {
                                    // a fresh spawn pulled down into the
                                    // vacated slot: the cursor moved past it
                                    assert(lpd - 1 >= lmid) by {
                                        if lpd - 1 < lmid {
                                            assert(post_drain.bins()[b][lpd - 1]
                                                == mid.bins()[b][lpd - 1]);
                                            assert(mid.slot_links_ok(b, lpd - 1));
                                        }
                                    }
                                    assert(lpd - 1 >= o_ia);
                                    assert(slot as int == sl + 1);
                                    assert(post.entries()[id] == (SlotEntry::Occupied {
                                        bin: indices.bin,
                                        slot: indices.slot,
                                        version: post_drain.bins()[b].last().id.version,
                                    }));
                                } else {
                                    assert(post.entries()[id] == post_drain.entries()[id]);
                                    let eb = post_drain.entries()[id].bin() as int;
                                    if eb < mid.bins().len() {
                                        assert((post_drain.entries()[id].slot() as int)
                                            >= mid.bins()[eb].len());
                                        if eb == b {
                                            assert(mid.bins()[b].len() >= o_ia);
                                        } else if b < eb && eb < lens@.len() {
                                            assert(it_pre.bins()[eb].len() >= lens@[eb]);
                                        }
                                    }
                                }
                            }
                        }
                    }
                    if is_spawner_handler::<M, H>(*handler) {
                        assert(post == post_drain);
                        let tid_s = iid.instance_id as int;
                        assert(pre.slot_links_ok(b, sl));
                        assert(iid == pre.bins()[b][sl].id);
                        assert(pre.live()[tid_s].1 == st0);
                        let w0 = handler.out_spawns(packet.message, st0);
                        if pre.entries().len() + spawn_requests_total(
                            *handler,
                            packet.message,
                            pre.bins(),
                        ) <= MAX_ENTRIES {
                            // every request of this original still fits the
                            // id space, so all of them are emplaced
                            lemma_srib_step(*handler, packet.message, pre.bins()[b], sl);
                            lemma_srib_take_le(*handler, packet.message, pre.bins()[b], sl + 1);
                            lemma_srt_step(*handler, packet.message, pre.bins(), b);
                            lemma_srt_take_le(*handler, packet.message, pre.bins(), b + 1);
                            assert(st0 == pre.bins()[b][sl].state@);
                            assert(mid.entries().len() + w0.len() <= MAX_ENTRIES);
                        }
                        let (sids, svers): (Seq<int>, Seq<u32>) = choose|
                            sids: Seq<int>,
                            svers: Seq<u32>,
                        |
                            {
                                &&& sids.len() <= w0.len()
                                &&& svers.len() == sids.len()
                                &&& (forall|k: int|
                                    0 <= k < sids.len() ==> !mid.live().dom().contains(
                                        #[trigger] sids[k],
                                    ))
                                &&& (forall|k1: int, k2: int|
                                    0 <= k1 < k2 < sids.len() ==> #[trigger] sids[k1]
                                        != #[trigger] sids[k2])
                                &&& post_drain.live() == spawned_into(
                                    mid.live(),
                                    sids,
                                    svers,
                                    w0.take(sids.len() as int),
                                )
                                &&& post_drain.spec_n() == mid.spec_n() + sids.len()
                                &&& (mid.entries().len() + w0.len() <= MAX_ENTRIES ==> sids.len()
                                    == w0.len())
                            };
                        lemma_spawned_into_lookup(mid.live(), sids, svers, w0.take(sids.len() as int));
                        assert forall|id: int|
                            0 <= id < post.entries().len() && (#[trigger] post.entries()[id])
                                is Occupied && !(id < pre.entries().len() && pre.entries()[id]
                                is Occupied) implies post.spawned_from(
                            pre,
                            *handler,
                            packet.message,
                            id,
                        ) by {
                            if mid.live().dom().contains(id) {
                                // an earlier newcomer: its value is untouched
                                assert(post.live()[id] == mid.live()[id]);
                                assert(id != tid_s);
                                assert(mid.live()[id] == it_pre.live()[id]);
                                assert(it_pre.entries()[id] is Occupied);
                                assert(it_pre.spawned_from(pre, *handler, packet.message, id));
                                let (j, k): (int, int) = choose|j: int, k: int|
                                    #![auto]
                                    0 <= j < pre.entries().len() && pre.entries()[j] is Occupied
                                        && 0 <= k && k < handler.out_spawns(
                                        packet.message,
                                        pre.live()[j].1,
                                    ).len() && it_pre.live()[id].1 == handler.out_spawns(
                                        packet.message,
                                        pre.live()[j].1,
                                    )[k];
                                assert(post.live()[id].1 == handler.out_spawns(
                                    packet.message,
                                    pre.live()[j].1,
                                )[k]);
                            } else {
                                // created by this iteration's drain
                                assert(post.live().dom().contains(id));
                                let k = choose|k: int|
                                    0 <= k < sids.len() && #[trigger] sids[k] == id;
                                assert(post.live()[id] == (svers[k], w0.take(sids.len() as int)[k]));
                                assert(w0.take(sids.len() as int)[k] == w0[k]);
                                assert(post.live()[id].1 == handler.out_spawns(
                                    packet.message,
                                    pre.live()[tid_s].1,
                                )[k]);
                            }
                        }
                        assert forall|id: int|
                            0 <= id < pre.entries().len() && (#[trigger] pre.entries()[id])
                                is Occupied implies post.entries()[id] == pre.entries()[id] by {
                            assert(it_pre.entries()[id] == pre.entries()[id]);
                        }
                        assert forall|b2: int, s2: int|
                            0 <= b2 < pre.bins().len() && 0 <= s2
                                < pre.bins()[b2].len() implies (#[trigger] post.bins()[b2][s2]).id
                            == pre.bins()[b2][s2].id && (!(b2 == b && s2 == sl)
                            ==> post.bins()[b2][s2].state@ == it_pre.bins()[b2][s2].state@) by {
                            assert(it_pre.bins()[b2].len() >= pre.bins()[b2].len());
                            assert(mid.bins()[b2].len() == it_pre.bins()[b2].len());
                            assert(post.bins()[b2][s2] == mid.bins()[b2][s2]);
                            if !(b2 == b && s2 == sl) {
                                assert(mid.bins()[b2][s2] == it_pre.bins()[b2][s2]);
                            }
                        }
                        assert(post.bins()[b][sl].state@ == handler.out_state(
                            packet.message,
                            pre.bins()[b][sl].state@,
                        ));
                    }
                    if is_lean_handler::<M, H>(*handler) {
                        let tid_s = iid.instance_id as int;
                        let fl = handler.out_fate(packet.message, st0);
                        let len_mid = mid.bins()[b].len() as int;
                        if fl is Live {
                            assert(post == mid);
                            assert(post.entries() == it_pre.entries());
                        } else {
                            assert(sl < len_mid - 1 ==> post.entries()[mid.bins()[b].last().id.instance_id as int]
                                == (SlotEntry::Occupied {
                                bin: bin_index,
                                slot: sl as usize,
                                version: mid.entries()[mid.bins()[b].last().id.instance_id as int].version(),
                            }));
                        }
                        assert forall|id: int|
                            0 <= id < pre.entries().len() && (#[trigger] pre.entries()[id])
                                is Occupied implies {
                            let b0 = pre.entries()[id].bin() as int;
                            if b0 < bin_index as int {
                                post.lean_outcome(pre, *handler, packet.message, id)
                            } else if b0 == bin_index as int {
                                (post.lean_outcome(pre, *handler, packet.message, id) && (
                                post.entries()[id] is Occupied ==> (
                                post.entries()[id].slot() as int) < slot))
                                    || post.lean_pending(
                                    pre,
                                    id,
                                    slot as int,
                                    index_after_last_recipient as int,
                                )
                            } else {
                                post.entries()[id] == pre.entries()[id] && post.live()[id]
                                    == pre.live()[id]
                            }
                        } by {
                            let b0 = pre.entries()[id].bin() as int;
                            if id == tid_s {
                                if fl is Live {
                                    assert(post.lean_done(pre, *handler, packet.message, id));
                                } else {
                                    assert(post.lean_dead(pre, id));
                                }
                            } else if fl is Die && sl < len_mid - 1 && id
                                == mid.bins()[b].last().id.instance_id as int {
                                // the tail original pulled down into the
                                // cursor's slot: still pending there
                                assert(it_pre.slot_links_ok(b, len_mid - 1));
                                assert(it_pre.lean_pending(pre, id, sl, len_mid));
                                assert(post.entries()[id] is Occupied
                                    && post.entries()[id].bin() == bin_index
                                    && post.entries()[id].slot() == sl as usize);
                                assert(post.live()[id] == mid.live()[id]);
                                assert(mid.live()[id] == it_pre.live()[id]);
                                assert(post.lean_pending(
                                    pre,
                                    id,
                                    slot as int,
                                    index_after_last_recipient as int,
                                ));
                            } else {
                                // untouched by this iteration's reconciliation
                                assert(post.entries()[id] == it_pre.entries()[id]);
                                if it_pre.entries()[id] is Occupied {
                                    assert(post.live().dom().contains(id));
                                    assert(post.live()[id] == it_pre.live()[id]) by {
                                        assert(it_pre.entry_links_ok(id));
                                        let eb = it_pre.entries()[id].bin() as int;
                                        let es = it_pre.entries()[id].slot() as int;
                                        assert(!(eb == b && es == sl)) by {
                                            if eb == b && es == sl {
                                                assert(it_pre.bins()[b][sl].id.instance_id == id);
                                            }
                                        }
                                        if fl is Die {
                                            assert(!(eb == b && es == len_mid - 1)) by {
                                                if eb == b && es == len_mid - 1 {
                                                    assert(it_pre.bins()[b][es].id.instance_id
                                                        == id);
                                                }
                                            }
                                            assert(post.bins()[eb][es] == mid.bins()[eb][es]);
                                        }
                                        assert(mid.bins()[eb][es] == it_pre.bins()[eb][es]);
                                    }
                                }
                                if b0 == bin_index as int && it_pre.lean_pending(
                                    pre,
                                    id,
                                    sl,
                                    len_mid,
                                ) {
                                    assert((it_pre.entries()[id].slot() as int) != sl) by {
                                        if (it_pre.entries()[id].slot() as int) == sl {
                                            assert(it_pre.entry_links_ok(id));
                                            assert(it_pre.bins()[b][sl].id.instance_id == id);
                                        }
                                    }
                                    if fl is Die {
                                        assert((it_pre.entries()[id].slot() as int) != len_mid
                                            - 1) by {
                                            if (it_pre.entries()[id].slot() as int) == len_mid
                                                - 1 {
                                                assert(it_pre.entry_links_ok(id));
                                                assert(it_pre.bins()[b][len_mid - 1].id.instance_id
                                                    == id);
                                            }
                                        }
                                    }
                                    assert(post.lean_pending(
                                        pre,
                                        id,
                                        slot as int,
                                        index_after_last_recipient as int,
                                    ));
                                }
                            }
                        }
                        assert forall|id: int|
                            0 <= id < post.entries().len() && (#[trigger] post.entries()[id])
                                is Occupied implies pre.entries()[id] is Occupied by {
                            if fl is Die && sl < len_mid - 1 && id
                                == mid.bins()[b].last().id.instance_id as int {
                                assert(it_pre.slot_links_ok(b, len_mid - 1));
                            } else if id != tid_s {
                                assert(post.entries()[id] == it_pre.entries()[id]);
                            }
                        }
                    }
                    if is_gentle_handler::<M, H>(*handler) {
                        assert(post == mid);
                        assert forall|b2: int, s2: int|
                            0 <= b2 < pre.bins().len() && 0 <= s2
                                < pre.bins()[b2].len() implies (#[trigger] post.bins()[b2][s2]).id
                            == pre.bins()[b2][s2].id by {
                            if !(b2 == b && s2 == sl) {
                                assert(post.bins()[b2][s2] == it_pre.bins()[b2][s2]);
                            }
                        }
                        assert forall|b2: int, s2: int|
                            0 <= b2 < pre.bins().len() && 0 <= s2 < pre.bins()[b2].len() && !(b2
                                == b && s2 == sl) implies (#[trigger] post.bins()[b2][s2]).state@
                            == it_pre.bins()[b2][s2].state@ by {
                            assert(post.bins()[b2][s2] == it_pre.bins()[b2][s2]);
                        }
                        assert(post.bins()[b][sl].state@ == handler.out_state(
                            packet.message,
                            pre.bins()[b][sl].state@,
                        ));
                    }
                }
            }
            proof {
                if is_spawner_handler::<M, H>(*handler) {
                    if pre.entries().len() + spawn_requests_total(
                        *handler,
                        packet.message,
                        pre.bins(),
                    ) <= MAX_ENTRIES {
                        assert(pre.bins()[bin_index as int].take(
                            lens@[bin_index as int] as int,
                        ) =~= pre.bins()[bin_index as int]);
                        lemma_srt_step(*handler, packet.message, pre.bins(), bin_index as int);
                    }
                }
                if is_live_handler::<M, H>(*handler) {
                    let nbi = bin_index as int + 1;
                    let nia: int = if nbi < lens@.len() {
                        lens@[nbi] as int
                    } else {
                        0
                    };
                    assert forall|id: int|
                        0 <= id < pre.entries().len() && (#[trigger] pre.entries()[id])
                            is Occupied && (pre.entries()[id].bin() as int)
                            < nbi implies self.delivered_live(pre, *handler, packet.message, id)
                        && off_walk(self.entries()[id], nbi, 0, nia, lens@) by {
                        assert(!self.lean_pending(
                            pre,
                            id,
                            slot as int,
                            index_after_last_recipient as int,
                        ));
                    }
                    assert forall|id: int|
                        0 <= id < self.entries().len() && (#[trigger] self.entries()[id])
                            is Occupied && !(id < pre.entries().len() && pre.entries()[id]
                            is Occupied) implies off_walk(self.entries()[id], nbi, 0, nia, lens@) by {
                    }
                }
            }
            bin_index = bin_index + 1;
        }
        proof {
            if is_live_handler::<M, H>(*handler) {
                assert forall|id: int|
                    0 <= id < pre.entries().len() && pre.entries()[id]
                        is Occupied implies #[trigger] self.delivered_live(
                    pre,
                    *handler,
                    packet.message,
                    id,
                ) by {
                    assert(pre.entry_links_ok(id));
                }
            }
            if is_lean_handler::<M, H>(*handler) {
                assert forall|id: int|
                    0 <= id < pre.entries().len() && pre.entries()[id]
                        is Occupied implies #[trigger] self.lean_outcome(
                    pre,
                    *handler,
                    packet.message,
                    id,
                ) by {
                    assert(pre.entry_links_ok(id));
                }
            }
            if is_spawner_handler::<M, H>(*handler) {
                assert(pre.bins().take(nbins as int) =~= pre.bins());
                assert forall|id: int|
                    0 <= id < pre.entries().len() && pre.entries()[id]
                        is Occupied implies #[trigger] self.lean_done(
                    pre,
                    *handler,
                    packet.message,
                    id,
                ) by {
                    assert(pre.entry_links_ok(id));
                    let b2 = pre.entries()[id].bin() as int;
                    let s2 = pre.entries()[id].slot() as int;
                    assert(self.entries()[id] == pre.entries()[id]);
                    assert(self.bins()[b2][s2].state@ == handler.out_state(
                        packet.message,
                        pre.bins()[b2][s2].state@,
                    ));
                }
            }
            if is_gentle_handler::<M, H>(*handler) {
                let post = *self;
                let m1 = post.live();
                let m2 = pre.live().map_values(
                    (|p: (u32, Seq<u64>)| (p.0, handler.out_state(packet.message, p.1))),
                );
                assert forall|i: int| m1.dom().contains(i) implies m2.dom().contains(i) && m1[i]
                    == m2[i] by {
                    assert(pre.entry_links_ok(i));
                    let e = pre.entries()[i];
                    let b2 = e.bin() as int;
                    let s2 = e.slot() as int;
                    assert(post.bins()[b2].len() == pre.bins()[b2].len());
                    assert(post.bins()[b2][s2].state@ == handler.out_state(
                        packet.message,
                        pre.bins()[b2][s2].state@,
                    ));
                }
                assert forall|i: int| m2.dom().contains(i) implies m1.dom().contains(i) by {}
                assert(m1 =~= m2);
            }
        }
    }

    /// The sole message entry point: route a packet either to the one
    /// instance it addresses — dropping it if the handle is stale — or, if
    /// the recipient id is the reserved broadcast id, to every instance
    /// present when the broadcast starts.
    ///
    /// The contract, clause by clause: the invariant always holds
    /// afterwards; a stale unicast changes nothing; an accepted unicast
    /// ends in `unicast_post` (handler output in place or recipient gone,
    /// spawns emplaced fresh), and in `unicast_frame` (nothing relocated)
    /// whenever the handler keeps the recipient compact; a broadcast on an
    /// empty swarm is a no-op; under a handler that never kills
    /// (`is_live_handler` — growth and spawns free) a broadcast leaves
    /// every original `delivered_live` exactly once and newcomers
    /// `spawned_from`; under one that neither spawns nor grows
    /// (`is_lean_handler` — kills free) every original ends in its own
    /// `lean_outcome`, freed ids stay put, and survivors only move down
    /// their bins; under one that spawns but neither grows nor kills
    /// (`is_spawner_handler`) additionally the instance count grows by
    /// exactly the requests filed; and a no-op handler leaves the swarm
    /// indistinguishable.
    pub fn dispatch_packet<M, H: Handler<M>>(
        &mut self,
        packet: &Packet<M>,
        handler: &H,
        world: &mut World,
    )
        requires
            old(self).wf(),
            old(world)@.len() == 0,
        ensures
            final(self).wf(),
            final(world)@.len() == 0,
            final(self).spec_arena().base() == old(self).spec_arena().base(),
            final(self).spec_type_id() == old(self).spec_type_id(),
            final(self).spec_machine() == old(self).spec_machine(),
            packet.recipient_id.instance_id != BROADCAST_INSTANCE_ID && !old(self).accepts(
                packet.recipient_id,
            ) ==> *final(self) == *old(self) && *final(world) == *old(world),
            packet.recipient_id.instance_id != BROADCAST_INSTANCE_ID && old(self).accepts(
                packet.recipient_id,
            ) ==> unicast_post(
                *old(self),
                *final(self),
                *handler,
                packet.message,
                packet.recipient_id,
            ),
            packet.recipient_id.instance_id != BROADCAST_INSTANCE_ID && old(self).accepts(
                packet.recipient_id,
            ) && stays_compact(*old(self), *handler, packet.message, packet.recipient_id)
                ==> unicast_frame(
                *old(self),
                *final(self),
                *handler,
                packet.message,
                packet.recipient_id,
            ),
            packet.recipient_id.instance_id == BROADCAST_INSTANCE_ID && old(self).spec_n() == 0
                ==> *final(self) == *old(self),
            packet.recipient_id.instance_id == BROADCAST_INSTANCE_ID && is_gentle_handler::<
                M,
                H,
            >(*handler) ==> final(self).entries() == old(self).entries() && final(self).live()
                == old(self).live().map_values(
                (|p: (u32, Seq<u64>)| (p.0, handler.out_state(packet.message, p.1))),
            ),
            packet.recipient_id.instance_id == BROADCAST_INSTANCE_ID && is_lean_handler::<M, H>(
                *handler,
            ) ==> final(self).entries().len() == old(self).entries().len() && (forall|id: int|
                0 <= id < old(self).entries().len() && old(self).entries()[id] is Occupied
                    ==> #[trigger] final(self).lean_outcome(
                    *old(self),
                    *handler,
                    packet.message,
                    id,
                )) && (forall|id: int|
                0 <= id < final(self).entries().len() && (#[trigger] final(self).entries()[id])
                    is Occupied ==> old(self).entries()[id] is Occupied) && (forall|id: int|
                0 <= id < old(self).entries().len() && (#[trigger] old(self).entries()[id])
                    is Free ==> final(self).entries()[id] == old(self).entries()[id]) && (
            forall|id: int|
                0 <= id < old(self).entries().len() && old(self).entries()[id] is Occupied && (
                #[trigger] final(self).entries()[id]) is Occupied
                    ==> final(self).entries()[id].slot() <= old(self).entries()[id].slot()),
            packet.recipient_id.instance_id == BROADCAST_INSTANCE_ID && is_live_handler::<M, H>(
                *handler,
            ) ==> (forall|id: int|
                0 <= id < old(self).entries().len() && old(self).entries()[id] is Occupied
                    ==> #[trigger] final(self).delivered_live(
                    *old(self),
                    *handler,
                    packet.message,
                    id,
                )) && (forall|id: int|
                0 <= id < final(self).entries().len() && (#[trigger] final(self).entries()[id])
                    is Occupied && !(id < old(self).entries().len() && old(self).entries()[id]
                    is Occupied) ==> final(self).spawned_from(
                    *old(self),
                    *handler,
                    packet.message,
                    id,
                )),
            packet.recipient_id.instance_id == BROADCAST_INSTANCE_ID && is_spawner_handler::<
                M,
                H,
            >(*handler) ==> (forall|id: int|
                0 <= id < old(self).entries().len() && old(self).entries()[id] is Occupied
                    ==> #[trigger] final(self).lean_done(
                    *old(self),
                    *handler,
                    packet.message,
                    id,
                )) && (forall|id: int|
                0 <= id < final(self).entries().len() && (#[trigger] final(self).entries()[id])
                    is Occupied && !(id < old(self).entries().len() && old(self).entries()[id]
                    is Occupied) ==> final(self).spawned_from(
                    *old(self),
                    *handler,
                    packet.message,
                    id,
                )),
            packet.recipient_id.instance_id == BROADCAST_INSTANCE_ID && is_spawner_handler::<
                M,
                H,
            >(*handler) && old(self).entries().len() + spawn_requests_total(
                *handler,
                packet.message,
                old(self).bins(),
            ) <= MAX_ENTRIES ==> final(self).spec_n() == old(self).spec_n()
                + spawn_requests_total(*handler, packet.message, old(self).bins()),
            is_noop_handler::<M, H>(*handler) ==> same_state(*final(self), *old(self)),
    {
        if packet.recipient_id.is_broadcast() {
            self.receive_broadcast(packet, handler, world);
        } else {
            self.receive_instance(packet, handler, world);
        }
    }

    /// A copy of the state of the instance an id/version pair addresses, or
    /// `None` if the handle is stale.
    pub fn state_of(&self, id: u32, version: u32) -> (r: Option<InstanceState>)
        requires
            self.wf(),
        ensures
            r is Some <==> self.live().dom().contains(id as int) && self.live()[id as int].0
                == version,
            r is Some ==> r->0@ == self.live()[id as int].1,
    {
        match self.slot_map.indices_of(id as usize, version) {
            Some(indices) => {
                proof {
                    assert(self.entry_links_ok(id as int));
                }
                Some(self.arena.state_copy_at(indices))
            },
            None => None,
        }
    }

    /// Where an id's instance currently sits, or `None` if the id is not
    /// live.  For inspection and tests; positions move under churn.
    pub fn current_location(&self, id: u32) -> (r: Option<(usize, usize)>)
        ensures
            r == self.slot_of(id as int),
    {
        let idu = id as usize;
        if idu < self.slot_map.len() {
            let indices = match self.slot_map.indices_of_no_version_check_or_none(idu) {
                Some(i) => Some((i.bin, i.slot)),
                None => None,
            };
            indices
        } else {
            None
        }
    }

    /// The version currently recorded for an id, or `None` for an id that
    /// was never allocated.
    pub fn current_version(&self, id: u32) -> (r: Option<u32>)
        ensures
            r is Some <==> (id as int) < self.entries().len(),
            r is Some ==> r->0 == self.version_of(id as int),
    {
        self.slot_map.version_at(id as usize)
    }

    /// How many bins the arena currently has (some may be empty).
    pub fn bin_count(&self) -> (r: usize)
        ensures
            r == self.bins().len(),
    {
        self.arena.bin_count()
    }

    /// The current length of one bin; 0 for a bin that does not exist.
    pub fn bin_len(&self, b: usize) -> (r: usize)
        ensures
            r == if (b as int) < self.bins().len() {
                self.bins()[b as int].len() as int
            } else {
                0
            },
    {
        self.arena.bin_len(b)
    }

    /// The handle of the instance stored at a physical position, or `None`
    /// if the position is not populated.
    pub fn id_at(&self, b: usize, s: usize) -> (r: Option<RawID>)
        ensures
            r is Some <==> (b as int) < self.bins().len() && (s as int)
                < self.bins()[b as int].len(),
            r is Some ==> r->0 == self.bins()[b as int][s as int].id,
    {
        if b < self.arena.bin_count() && s < self.arena.bin_len(b) {
            Some(self.arena.id_at(SlotIndices { bin: b, slot: s }))
        } else {
            None
        }
    }
}

/// The instance counter always equals both the number of occupied slot-map
/// entries and the total of the bin lengths: no instance is lost and none
/// is counted twice, after every operation that maintains the invariant.
pub proof fn law_counts_agree(s: Swarm)
    requires
        s.wf(),
    ensures
        s.spec_n() == occupied_count(s.entries()),
        s.spec_n() == sum_lens(s.bins()),
{
}

/// Every occupied slot-map entry points at a populated slot whose instance
/// carries exactly the entry's key and version.
pub proof fn law_occupied_entry_matches(s: Swarm, id: int)
    requires
        s.wf(),
        0 <= id < s.entries().len(),
        s.entries()[id] is Occupied,
    ensures
        (s.entries()[id].bin() as int) < s.bins().len(),
        (s.entries()[id].slot() as int) < s.bins()[s.entries()[id].bin() as int].len(),
        s.bins()[s.entries()[id].bin() as int][s.entries()[id].slot() as int].id.instance_id == id,
        s.bins()[s.entries()[id].bin() as int][s.entries()[id].slot() as int].id.version
            == s.entries()[id].version(),
{
    assert(s.entry_links_ok(id));
}

/// Every slot below a bin's length is populated by a live instance — no
/// holes: the instance's own slot-map entry is occupied and points right
/// back at that position.
pub proof fn law_slots_populated(s: Swarm, b: int, slot: int)
    requires
        s.wf(),
        0 <= b < s.bins().len(),
        0 <= slot < s.bins()[b].len(),
    ensures
        (s.bins()[b][slot].id.instance_id as int) < s.entries().len(),
        s.entries()[s.bins()[b][slot].id.instance_id as int] is Occupied,
        s.entries()[s.bins()[b][slot].id.instance_id as int].bin() == b,
        s.entries()[s.bins()[b][slot].id.instance_id as int].slot() == slot,
        s.live().dom().contains(s.bins()[b][slot].id.instance_id as int),
{
    assert(s.slot_links_ok(b, slot));
}

/// A handle whose version does not match the slot map's current record is
/// rejected, as is one whose id is freed or was never allocated; `accepts`
/// is exactly the condition under which a unicast reaches a handler.
pub proof fn law_stale_handle_rejected(s: Swarm, rid: RawID)
    requires
        s.wf(),
        (rid.instance_id as int) >= s.entries().len() || s.entries()[rid.instance_id as int]
            is Free || s.version_of(rid.instance_id as int) != rid.version,
    ensures
        !s.accepts(rid),
{
}

/// After an instance dies, its old handle can never be accepted again: the
/// entry is free, and even once the id is reused, the bumped version keeps
/// every handle carrying the old version inert.
pub proof fn law_dead_handle_stays_stale(s: Swarm, rid: RawID)
    requires
        s.wf(),
        (rid.instance_id as int) < s.entries().len(),
        s.version_of(rid.instance_id as int) == bump_version(rid.version),
        rid.version < u32::MAX,
    ensures
        !s.accepts(rid),
{
}

impl Swarm {
    /// Emplace every instance whose creation handlers requested through the
    /// world, allocating a fresh handle for each, in request order.  Runs
    /// while the slot at `ex` may still be unreconciled; never touches it.
    /// A request is refused only if the id space is exhausted.
    fn drain_spawns(&mut self, world: &mut World, Ghost(ex): Ghost<(int, int)>)
        requires
            old(self).links_ok(),
            old(self).sizes_ok_except(ex.0, ex.1),
            0 <= ex.0 < old(self).bins().len(),
            0 <= ex.1 < old(self).bins()[ex.0].len(),
        ensures
            final(self).links_ok(),
            final(self).sizes_ok_except(ex.0, ex.1),
            final(world)@.len() == 0,
            final(self).spec_arena().base() == old(self).spec_arena().base(),
            final(self).spec_type_id() == old(self).spec_type_id(),
            final(self).spec_machine() == old(self).spec_machine(),
            final(self).bins().len() >= old(self).bins().len(),
            final(self).entries().len() >= old(self).entries().len(),
            forall|b2: int|
                0 <= b2 < old(self).bins().len() ==> final(self).bins()[b2].len() >= old(
                    self,
                ).bins()[b2].len(),
            forall|b2: int, s2: int|
                0 <= b2 < old(self).bins().len() && 0 <= s2 < old(self).bins()[b2].len()
                    ==> final(self).bins()[b2][s2] == old(self).bins()[b2][s2],
            forall|eid: int|
                0 <= eid < old(self).entries().len() && old(self).entries()[eid] is Occupied
                    ==> final(self).entries()[eid] == old(self).entries()[eid],
            forall|eid: int|
                0 <= eid < old(self).entries().len()
                    ==> final(self).version_of(eid) == old(self).version_of(eid),
            old(world)@.len() == 0 ==> *final(self) == *old(self),
            final(self).entries().len() + old(self).spec_n() <= old(self).entries().len()
                + final(self).spec_n(),
            exists|ids: Seq<int>, vers: Seq<u32>|
                {
                    &&& ids.len() <= old(world)@.len()
                    &&& vers.len() == ids.len()
                    &&& (forall|k: int|
                        0 <= k < ids.len() ==> !old(self).live().dom().contains(
                            #[trigger] ids[k],
                        ))
                    &&& (forall|k1: int, k2: int|
                        0 <= k1 < k2 < ids.len() ==> #[trigger] ids[k1] != #[trigger] ids[k2])
                    &&& final(self).live() == spawned_into(
                        old(self).live(),
                        ids,
                        vers,
                        old(world)@.take(ids.len() as int),
                    )
                    &&& final(self).spec_n() == old(self).spec_n() + ids.len()
                    &&& (old(self).entries().len() + old(world)@.len() <= MAX_ENTRIES
                        ==> ids.len() == old(world)@.len())
                },
    {
        let ghost base = *self;
        let ghost w0 = old(world)@;
        let ghost mut j: int = 0;
        let ghost mut ids: Seq<int> = Seq::empty();
        let ghost mut vers: Seq<u32> = Seq::empty();
        while world.pending_spawns() > 0
            invariant
                self.links_ok(),
                self.sizes_ok_except(ex.0, ex.1),
                0 <= ex.0 < base.bins().len(),
                0 <= ex.1 < base.bins()[ex.0].len(),
                w0.len() == 0 ==> *self == base,
                0 <= j <= w0.len(),
                world@ == w0.skip(j),
                ids.len() == vers.len(),
                ids.len() <= j,
                ids.len() < j ==> !self.spec_slot_map().can_allocate(),
                forall|k: int|
                    0 <= k < ids.len() ==> !base.live().dom().contains(#[trigger] ids[k]),
                forall|k: int|
                    0 <= k < ids.len() ==> self.live().dom().contains(#[trigger] ids[k]),
                forall|k1: int, k2: int|
                    0 <= k1 < k2 < ids.len() ==> #[trigger] ids[k1] != #[trigger] ids[k2],
                self.live() == spawned_into(base.live(), ids, vers, w0.take(ids.len() as int)),
                self.spec_n() == base.spec_n() + ids.len(),
                self.entries().len() <= base.entries().len() + ids.len(),
                self.entries().len() >= base.entries().len(),
                self.spec_arena().base() == base.spec_arena().base(),
                self.spec_type_id() == base.spec_type_id(),
                self.spec_machine() == base.spec_machine(),
                self.bins().len() >= base.bins().len(),
                forall|b2: int|
                    0 <= b2 < base.bins().len() ==> self.bins()[b2].len() >= base.bins()[b2].len(),
                forall|b2: int, s2: int|
                    0 <= b2 < base.bins().len() && 0 <= s2 < base.bins()[b2].len()
                        ==> self.bins()[b2][s2] == base.bins()[b2][s2],
                forall|eid: int|
                    0 <= eid < base.entries().len() && base.entries()[eid] is Occupied
                        ==> self.entries()[eid] == base.entries()[eid],
                forall|eid: int|
                    0 <= eid < base.entries().len()
                        ==> self.version_of(eid) == base.version_of(eid),
            decreases world@.len(),
        {
            let st_opt = world.take_next();
            let st = match st_opt {
                Some(st) => st,
                None => {
                    proof {
                        assert(false);
                    }
                    InstanceState::empty()
                },
            };
            proof {
                assert(st@ == w0[j]);
                assert(world@ =~= w0.skip(j + 1));
            }
            if self.slot_map.can_allocate_now() {
                proof {
                    assert(ids.len() == j);
                }
                let ghost mid0 = *self;
                let (iid, ver) = self.slot_map.allocate_id();
                let rid = RawID::new(self.type_id, iid as u32, self.machine, ver);
                let ghost mid1 = *self;
                proof {
                    if mid0.free_list().len() == 0 {
                        lemma_occupied_count_push(
                            mid0.entries(),
                            (SlotEntry::Free { version: 0u32 }),
                        );
                    }
                    assert forall|eid: int| 0 <= eid < mid1.entries().len() implies #[trigger] mid1.entry_links_ok(eid) by {
                        if eid < mid0.entries().len() {
                            assert(mid0.entry_links_ok(eid));
                        }
                    }
                    assert forall|b2: int, s2: int|
                        0 <= b2 < mid1.bins().len() && 0 <= s2 < mid1.bins()[b2].len() implies #[trigger] mid1.slot_links_ok(b2, s2) by {
                        assert(mid0.slot_links_ok(b2, s2));
                    }
                    assert forall|b2: int, s2: int|
                        0 <= b2 < mid1.bins().len() && 0 <= s2 < mid1.bins()[b2].len() && !(b2
                            == ex.0 && s2 == ex.1) implies #[trigger] mid1.slot_fits(b2, s2) by {
                        assert(mid0.slot_fits(b2, s2));
                    }
                    assert(mid1.live() =~= mid0.live());
                    lemma_occupied_count_update(
                        mid1.entries(),
                        iid as int,
                        (SlotEntry::Occupied { bin: 0, slot: 0, version: ver }),
                    );
                    lemma_occupied_count_le_len(
                        mid1.entries().update(
                            iid as int,
                            (SlotEntry::Occupied { bin: 0, slot: 0, version: ver }),
                        ),
                    );
                }
                let indices = self.add_with_id(st, rid);
                self.n_instances = self.n_instances + 1;
                proof {
                    lemma_occupied_count_update(
                        mid1.entries(),
                        iid as int,
                        (SlotEntry::Occupied {
                            bin: indices.bin,
                            slot: indices.slot,
                            version: ver,
                        }),
                    );
                    assert(!(indices.bin as int == ex.0 && indices.slot as int == ex.1)) by {
                        if indices.bin as int == ex.0 {
                            assert(mid1.bins()[ex.0].len() >= base.bins()[ex.0].len());
                        }
                    }
                    self.lemma_wf_after_emplace(mid1, indices, rid, st, ex);
                    lemma_spawned_into_push(
                        base.live(),
                        ids,
                        vers,
                        w0.take(ids.len() as int),
                        iid as int,
                        ver,
                        st@,
                    );
                    assert(w0.take(ids.len() as int).push(st@) =~= w0.take(ids.len() as int + 1));
                    assert(!base.live().dom().contains(iid as int)) by {
                        if base.live().dom().contains(iid as int) {
                            assert(base.entries()[iid as int] is Occupied);
                            assert(mid1.entries()[iid as int] == base.entries()[iid as int]);
                        }
                    }
                    assert(!mid1.live().dom().contains(iid as int));
                    assert forall|k: int| 0 <= k < ids.len() implies #[trigger] ids[k] != iid as int by {
                        assert(mid0.live().dom().contains(ids[k]));
                    }
                    ids = ids.push(iid as int);
                    vers = vers.push(ver);
                    j = j + 1;
                }
            } else {
                proof {
                    j = j + 1;
                }
            }
        }
        proof {
            assert(world@ =~= Seq::<Seq<u64>>::empty());
            assert(j == w0.len());
            if base.entries().len() + w0.len() <= MAX_ENTRIES && ids.len() < w0.len() {
                assert(!self.spec_slot_map().can_allocate());
                assert(self.entries().len() < MAX_ENTRIES);
                assert(false);
            }
            assert({
                &&& ids.len() <= w0.len()
                &&& vers.len() == ids.len()
                &&& (forall|k: int|
                    0 <= k < ids.len() ==> !base.live().dom().contains(#[trigger] ids[k]))
                &&& (forall|k1: int, k2: int|
                    0 <= k1 < k2 < ids.len() ==> #[trigger] ids[k1] != #[trigger] ids[k2])
                &&& self.live() == spawned_into(
                    base.live(),
                    ids,
                    vers,
                    w0.take(ids.len() as int),
                )
                &&& self.spec_n() == base.spec_n() + ids.len()
                &&& (base.entries().len() + w0.len() <= MAX_ENTRIES ==> ids.len() == w0.len())
            });
        }
    }

    /// Re-home the instance at `old_i`, which has outgrown its size class:
    /// emplace it at the tail of the bin of its current footprint, then
    /// swap-remove its old slot, updating the slot map for both the moved
    /// instance and the neighbour pulled into the vacated slot.  Returns
    /// the position the instance now occupies.
    fn resize_at_index(&mut self, old_i: SlotIndices) -> (r: SlotIndices)
        requires
            old(self).links_ok(),
            old(self).sizes_ok_except(old_i.bin as int, old_i.slot as int),
            (old_i.bin as int) < old(self).bins().len(),
            (old_i.slot as int) < old(self).bins()[old_i.bin as int].len(),
            old(self).bins()[old_i.bin as int][old_i.slot as int].spec_size() > class_cap(
                old(self).spec_arena().base() as nat,
                old_i.bin as nat,
            ),
        ensures
            final(self).wf(),
            final(self).live() == old(self).live(),
            final(self).spec_n() == old(self).spec_n(),
            final(self).spec_arena().base() == old(self).spec_arena().base(),
            final(self).spec_type_id() == old(self).spec_type_id(),
            final(self).spec_machine() == old(self).spec_machine(),
            final(self).entries().len() == old(self).entries().len(),
            final(self).free_list() == old(self).free_list(),
            forall|eid: int|
                0 <= eid < old(self).entries().len()
                    ==> final(self).version_of(eid) == old(self).version_of(eid),
            forall|eid: int|
                0 <= eid < old(self).entries().len() && old(self).entries()[eid] is Free
                    ==> final(self).entries()[eid] == old(self).entries()[eid],
            final(self).bins().len() >= old(self).bins().len(),
            final(self).bins()[old_i.bin as int] == old(self).bins()[old_i.bin as int].update(
                old_i.slot as int,
                old(self).bins()[old_i.bin as int].last(),
            ).drop_last(),
            forall|b2: int|
                0 <= b2 < final(self).bins().len() && b2 != old_i.bin
                    ==> final(self).bins()[b2].len() >= (if b2 < old(self).bins().len() {
                    old(self).bins()[b2].len() as int
                } else {
                    0
                }),
            forall|b2: int, s2: int|
                0 <= b2 < final(self).bins().len() && b2 != old_i.bin && 0 <= s2 && s2 < (if b2
                    < old(self).bins().len() {
                    old(self).bins()[b2].len() as int
                } else {
                    0
                }) ==> final(self).bins()[b2][s2] == old(self).bins()[b2][s2],
            // where the instance went
            r.bin > old_i.bin,
            (r.bin as int) < final(self).bins().len(),
            r.slot as int == (if (r.bin as int) < old(self).bins().len() {
                old(self).bins()[r.bin as int].len() as int
            } else {
                0
            }),
            final(self).bins()[r.bin as int].len() == r.slot + 1,
            final(self).bins()[r.bin as int][r.slot as int].id == old(
                self,
            ).bins()[old_i.bin as int][old_i.slot as int].id,
            final(self).bins()[r.bin as int][r.slot as int].state@ == old(
                self,
            ).bins()[old_i.bin as int][old_i.slot as int].state@,
            final(self).entries()[old(self).bins()[old_i.bin as int][old_i.slot as int].id.instance_id as int]
                == (SlotEntry::Occupied {
                bin: r.bin,
                slot: r.slot,
                version: old(self).bins()[old_i.bin as int][old_i.slot as int].id.version,
            }),
            // the pulled-down neighbour's entry, and everyone else's
            (old_i.slot as int) < old(self).bins()[old_i.bin as int].len() - 1
                ==> final(self).entries()[old(self).bins()[old_i.bin as int].last().id.instance_id as int]
                == (SlotEntry::Occupied {
                bin: old_i.bin,
                slot: old_i.slot,
                version: old(self).bins()[old_i.bin as int].last().id.version,
            }),
            forall|eid: int|
                0 <= eid < old(self).entries().len() && eid != old(
                    self,
                ).bins()[old_i.bin as int][old_i.slot as int].id.instance_id as int && ((
                old_i.slot as int) == old(self).bins()[old_i.bin as int].len() - 1 || eid != old(
                    self,
                ).bins()[old_i.bin as int].last().id.instance_id as int)
                    ==> final(self).entries()[eid] == old(self).entries()[eid],
    {
        let ghost pre = *self;
        let ghost b = old_i.bin as int;
        let ghost s = old_i.slot as int;
        let ghost len0 = pre.bins()[b].len() as int;
        let rid = self.arena.id_at(old_i);
        let ghost t = rid.instance_id as int;
        let state_copy = self.arena.state_copy_at(old_i);
        proof {
            assert(pre.slot_links_ok(b, s));
            assert(pre.entry_links_ok(t));
            assert(pre.slot_links_ok(b, len0 - 1));
        }
        let new_i = self.add_with_id(state_copy, rid);
        let ghost mid = *self;
        let ghost nb = new_i.bin as int;
        let ghost ns = new_i.slot as int;
        proof {
            assert(state_copy.spec_size() == pre.bins()[b][s].spec_size());
            if nb <= b {
                lemma_class_cap_monotone(pre.spec_arena().base() as nat, nb as nat, b as nat);
                assert(false);
            }
            assert(mid.bins()[b] == pre.bins()[b]);
        }
        let survivor = self.arena.swap_remove_within_bin(old_i);
        match survivor {
            Some(srid) => {
                proof {
                    assert(pre.slot_links_ok(b, len0 - 1));
                    assert(srid == pre.bins()[b].last().id);
                    assert(pre.entries()[srid.instance_id as int].slot() == len0 - 1);
                    assert(srid.instance_id as int != t);
                }
                self.slot_map.associate(srid.instance_id as usize, old_i);
            },
            None => {},
        }
        proof {
            let post = *self;
            let occ_t = SlotEntry::Occupied {
                bin: new_i.bin,
                slot: new_i.slot,
                version: pre.entries()[t].version(),
            };
            lemma_occupied_count_update(pre.entries(), t, occ_t);
            if survivor is Some {
                let sr = survivor->0.instance_id as int;
                let occ_sr = SlotEntry::Occupied {
                    bin: old_i.bin,
                    slot: old_i.slot,
                    version: mid.entries()[sr].version(),
                };
                lemma_occupied_count_update(mid.entries(), sr, occ_sr);
            }
            assert(post.bins()[nb][ns] == (Instance { id: rid, state: state_copy }));
            assert forall|eid: int| 0 <= eid < post.entries().len() implies #[trigger] post.entry_links_ok(eid) by {
                if eid == t {
                    assert(post.bins()[nb][ns].id == rid);
                } else {
                    assert(pre.entry_links_ok(eid));
                    let e = post.entries()[eid];
                    if e is Occupied {
                        if survivor is Some && eid == survivor->0.instance_id as int {
                            assert(post.bins()[b][s] == pre.bins()[b].last());
                        } else {
                            let b2 = pre.entries()[eid].bin() as int;
                            let s2 = pre.entries()[eid].slot() as int;
                            assert(pre.slot_links_ok(b2, s2));
                            if b2 == b {
                                assert(s2 != s) by {
                                    if s2 == s {
                                        assert(pre.bins()[b][s].id.instance_id == eid);
                                    }
                                }
                                assert(s2 != len0 - 1) by {
                                    if s2 == len0 - 1 {
                                        assert(pre.bins()[b][s2].id.instance_id == eid);
                                    }
                                }
                                assert(post.bins()[b2][s2] == pre.bins()[b2][s2]);
                            } else {
                                assert(post.bins()[b2][s2] == pre.bins()[b2][s2]);
                            }
                        }
                    }
                }
            }
            assert forall|b2: int, s2: int|
                0 <= b2 < post.bins().len() && 0 <= s2 < post.bins()[b2].len() implies #[trigger] post.slot_links_ok(b2, s2) by {
                if b2 == nb && s2 == ns {
                    assert(post.entries()[t] == occ_t);
                } else if b2 == b && s2 == s && s < len0 - 1 {
                    assert(post.bins()[b][s] == pre.bins()[b].last());
                    assert(pre.slot_links_ok(b, len0 - 1));
                } else {
                    assert(post.bins()[b2][s2] == pre.bins()[b2][s2]);
                    assert(pre.slot_links_ok(b2, s2));
                    let eid = pre.bins()[b2][s2].id.instance_id as int;
                    assert(eid != t) by {
                        if eid == t {
                            assert(pre.entry_links_ok(t));
                        }
                    }
                    if survivor is Some && eid == survivor->0.instance_id as int {
                        assert(pre.entries()[eid].slot() == len0 - 1);
                        assert(b2 == b && s2 == len0 - 1);
                        assert(false);
                    }
                }
            }
            assert forall|b2: int, s2: int|
                0 <= b2 < post.bins().len() && 0 <= s2 < post.bins()[b2].len() implies #[trigger] post.slot_fits(b2, s2) by {
                if b2 == nb && s2 == ns {
                } else if b2 == b && s2 == s && s < len0 - 1 {
                    assert(pre.slot_fits(b, len0 - 1));
                } else {
                    assert(post.bins()[b2][s2] == pre.bins()[b2][s2]);
                    if b2 < pre.bins().len() && s2 < pre.bins()[b2].len() {
                        assert(pre.slot_fits(b2, s2));
                    } else {
                        assert(b2 == nb && s2 == ns);
                    }
                }
            }
            let m1 = post.live();
            let m2 = pre.live();
            assert forall|i: int| m1.dom().contains(i) implies m2.dom().contains(i) && m1[i] == m2[i] by {
                assert(pre.entry_links_ok(i));
                if i == t {
                    assert(post.bins()[nb][ns].state@ == pre.bins()[b][s].state@);
                } else if survivor is Some && i == survivor->0.instance_id as int {
                    assert(post.bins()[b][s] == pre.bins()[b].last());
                    assert(pre.entries()[i].bin() == b && pre.entries()[i].slot() == len0 - 1);
                } else {
                    let b2 = pre.entries()[i].bin() as int;
                    let s2 = pre.entries()[i].slot() as int;
                    assert(pre.slot_links_ok(b2, s2));
                    if b2 == b {
                        assert(s2 != s) by {
                            if s2 == s {
                                assert(pre.bins()[b][s].id.instance_id == i);
                            }
                        }
                        assert(s2 != len0 - 1) by {
                            if s2 == len0 - 1 {
                                assert(pre.bins()[b][s2].id.instance_id == i);
                            }
                        }
                        assert(post.bins()[b2][s2] == pre.bins()[b2][s2]);
                    }
                }
            }
            assert forall|i: int| m2.dom().contains(i) implies m1.dom().contains(i) by {}
            assert(m1 =~= m2);
            assert(pre.bins()[b][s].id == rid);
            assert(post.entries()[t] == occ_t);
            if survivor is Some {
                let sr = survivor->0.instance_id as int;
                assert(pre.slot_links_ok(b, len0 - 1));
                assert(post.entries()[sr] == (SlotEntry::Occupied {
                    bin: old_i.bin,
                    slot: old_i.slot,
                    version: pre.bins()[b].last().id.version,
                }));
            }
            assert(post.bins()[nb][ns] == (Instance { id: rid, state: state_copy }));
            assert(post.bins()[nb].len() == ns + 1);
        }
        new_i
    }

    /// After an emplacement of a fresh (previously free) id, the invariant
    /// holds again — still modulo the one slot `ex` a handler may have left
    /// oversize, which the emplacement never touches.
    proof fn lemma_wf_after_emplace(
        self,
        pre: Swarm,
        indices: SlotIndices,
        id: RawID,
        initial_state: InstanceState,
        ex: (int, int),
    )
        requires
            pre.links_ok(),
            pre.sizes_ok_except(ex.0, ex.1),
            !(indices.bin as int == ex.0 && indices.slot as int == ex.1),
            (id.instance_id as int) < pre.entries().len(),
            pre.entries()[id.instance_id as int] is Free,
            pre.version_of(id.instance_id as int) == id.version,
            self.spec_arena().wf(),
            self.spec_slot_map().wf(),
            self.spec_arena().base() == pre.spec_arena().base(),
            self.entries() == pre.entries().update(
                id.instance_id as int,
                (SlotEntry::Occupied {
                    bin: indices.bin,
                    slot: indices.slot,
                    version: id.version,
                }),
            ),
            indices.bin < self.bins().len(),
            self.bins().len() >= pre.bins().len(),
            initial_state.spec_size() <= class_cap(
                pre.spec_arena().base() as nat,
                indices.bin as nat,
            ),
            indices.slot == if (indices.bin as int) < pre.bins().len() {
                pre.bins()[indices.bin as int].len() as int
            } else {
                0
            },
            self.bins()[indices.bin as int] == (if (indices.bin as int) < pre.bins().len() {
                pre.bins()[indices.bin as int]
            } else {
                Seq::<Instance>::empty()
            }).push((Instance { id, state: initial_state })),
            forall|b: int|
                0 <= b < self.bins().len() && b != indices.bin ==> self.bins()[b] == (if b
                    < pre.bins().len() {
                    pre.bins()[b]
                } else {
                    Seq::<Instance>::empty()
                }),
            sum_lens(self.bins()) == sum_lens(pre.bins()) + 1,
            self.spec_n() == pre.spec_n() + 1,
            self.spec_n() == occupied_count(self.entries()),
        ensures
            self.links_ok(),
            self.sizes_ok_except(ex.0, ex.1),
            self.live() == pre.live().insert(id.instance_id as int, (id.version, initial_state@)),
    {
        let tid = id.instance_id as int;
        let nb = indices.bin as int;
        let ns = indices.slot as int;
        assert forall|eid: int| 0 <= eid < self.entries().len() implies #[trigger] self.entry_links_ok(eid) by {
            if eid == tid {
                assert(self.bins()[nb][ns] == (Instance { id, state: initial_state }));
            } else {
                assert(pre.entry_links_ok(eid));
                let e = self.entries()[eid];
                if e is Occupied {
                    let b = e.bin() as int;
                    let s = e.slot() as int;
                    if b == nb {
                        assert(self.bins()[b][s] == pre.bins()[b][s]);
                    }
                }
            }
        }
        assert forall|b: int, s: int|
            0 <= b < self.bins().len() && 0 <= s < self.bins()[b].len() implies #[trigger] self.slot_links_ok(b, s) by {
            if b == nb && s == ns {
                assert(self.bins()[b][s] == (Instance { id, state: initial_state }));
            } else {
                if b < pre.bins().len() && s < pre.bins()[b].len() {
                    assert(pre.slot_links_ok(b, s));
                    assert(self.bins()[b][s] == pre.bins()[b][s]);
                    assert(pre.bins()[b][s].id.instance_id != tid) by {
                        assert(pre.entries()[pre.bins()[b][s].id.instance_id as int] is Occupied);
                    }
                } else {
                    // the only position beyond pre's bins is the new slot
                    assert(b == nb && s == ns);
                }
            }
        }
        assert forall|b: int, s: int|
            0 <= b < self.bins().len() && 0 <= s < self.bins()[b].len() && !(b == ex.0 && s
                == ex.1) implies #[trigger] self.slot_fits(b, s) by {
            if b == nb && s == ns {
                assert(self.bins()[b][s].spec_size() == initial_state.spec_size());
            } else if b < pre.bins().len() && s < pre.bins()[b].len() {
                assert(pre.slot_fits(b, s));
                assert(self.bins()[b][s] == pre.bins()[b][s]);
            } else {
                assert(b == nb && s == ns);
            }
        }
        let m1 = self.live();
        let m2 = pre.live().insert(tid, (id.version, initial_state@));
        assert forall|i: int| m1.dom().contains(i) implies m2.dom().contains(i) && m1[i] == m2[i] by {
            if i == tid {
                assert(self.bins()[nb][ns] == (Instance { id, state: initial_state }));
            } else {
                assert(pre.entry_links_ok(i));
                let e = pre.entries()[i];
                let b = e.bin() as int;
                let s = e.slot() as int;
                if b == nb {
                    assert(self.bins()[b][s] == pre.bins()[b][s]);
                }
            }
        }
        assert forall|i: int| m2.dom().contains(i) implies m1.dom().contains(i) by {}
        assert(m1 =~= m2);
    }
}

} // verus!
