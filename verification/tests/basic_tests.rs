use swarm::handlers::{CountHandler, KillTagHandler, NoopHandler};
use swarm::id::{RawID, BROADCAST_INSTANCE_ID};
use swarm::instance::InstanceState;
use swarm::messaging::{Packet, World};
use swarm::swarm::Swarm;
use swarm::system::{setup, spawn, ActorSystem};

fn add_instance(sw: &mut Swarm, payload: Vec<u64>) -> RawID {
    let rid = sw.allocate_id(RawID::new(7, 0, 0, 0));
    sw.add_manually_with_id(InstanceState::from_payload(payload), rid);
    rid
}

fn unicast(rid: RawID) -> Packet<()> {
    Packet { recipient_id: rid, message: () }
}

fn broadcast(kind: u16) -> Packet<()> {
    Packet { recipient_id: RawID::new(kind, BROADCAST_INSTANCE_ID, 0, 0), message: () }
}

fn counter_of(sw: &Swarm, rid: RawID) -> u64 {
    let st = sw.state_of(rid.instance_id, rid.version).expect("instance should be live");
    st.payload[1]
}

#[test]
fn new_swarm_is_empty() {
    let sw = Swarm::new(7, 0, 32);
    assert_eq!(sw.instance_count(), 0);
    assert_eq!(sw.bin_count(), 0);
}

#[test]
fn add_manually_with_id_places_instance() {
    let mut sw = Swarm::new(7, 0, 32);
    let rid = add_instance(&mut sw, vec![5, 0]);
    assert_eq!(sw.instance_count(), 1);
    assert_eq!(rid.instance_id, 0);
    assert_eq!(rid.version, 0);
    assert_eq!(rid.type_id, 7);
    // a 2-word payload (32 bytes) fits the smallest size class
    assert_eq!(sw.current_location(rid.instance_id), Some((0, 0)));
    let st = sw.state_of(rid.instance_id, rid.version).unwrap();
    assert_eq!(st.payload, vec![5, 0]);
}

#[test]
fn allocated_ids_are_sequential_then_lifo_reused() {
    let mut sw = Swarm::new(7, 0, 32);
    let a = add_instance(&mut sw, vec![1, 0]);
    let b = add_instance(&mut sw, vec![2, 0]);
    assert_eq!((a.instance_id, b.instance_id), (0, 1));

    // kill a, then b's id stays; the freed id is handed out next (LIFO),
    // with its version bumped
    let mut world = World::new();
    sw.dispatch_packet(&unicast(a), &KillTagHandler { tag: 1 }, &mut world);
    assert_eq!(sw.instance_count(), 1);
    let c = sw.allocate_id(RawID::new(7, 0, 0, 0));
    assert_eq!(c.instance_id, a.instance_id);
    assert_eq!(c.version, 1);
    sw.add_manually_with_id(InstanceState::from_payload(vec![3, 0]), c);
    assert_eq!(sw.instance_count(), 2);
}

#[test]
fn instance_count_matches_bin_lengths() {
    let mut sw = Swarm::new(7, 0, 32);
    for i in 0..5 {
        add_instance(&mut sw, vec![i, 0]);
    }
    add_instance(&mut sw, vec![9, 0, 0, 0]); // 4 words: a larger size class
    let mut total = 0;
    for b in 0..sw.bin_count() {
        total += sw.bin_len(b);
    }
    assert_eq!(total, sw.instance_count());
    assert_eq!(sw.instance_count(), 6);
}

#[test]
fn slots_hold_live_instances_that_point_back() {
    let mut sw = Swarm::new(7, 0, 32);
    for i in 0..4 {
        add_instance(&mut sw, vec![i, 0]);
    }
    for b in 0..sw.bin_count() {
        for s in 0..sw.bin_len(b) {
            let rid = sw.id_at(b, s).expect("populated slot");
            assert_eq!(sw.current_location(rid.instance_id), Some((b, s)));
            assert_eq!(sw.current_version(rid.instance_id), Some(rid.version));
        }
    }
}

#[test]
fn unicast_noop_leaves_swarm_identical() {
    let mut sw = Swarm::new(7, 0, 32);
    let a = add_instance(&mut sw, vec![1, 0]);
    let b = add_instance(&mut sw, vec![2, 7]);
    let mut world = World::new();
    sw.dispatch_packet(&unicast(a), &NoopHandler, &mut world);
    assert_eq!(sw.instance_count(), 2);
    assert_eq!(sw.state_of(a.instance_id, a.version).unwrap().payload, vec![1, 0]);
    assert_eq!(sw.state_of(b.instance_id, b.version).unwrap().payload, vec![2, 7]);
    assert_eq!(sw.current_location(a.instance_id), Some((0, 0)));
    assert_eq!(sw.current_location(b.instance_id), Some((0, 1)));
}

#[test]
fn unicast_delivers_exactly_once() {
    let mut sw = Swarm::new(7, 0, 32);
    let a = add_instance(&mut sw, vec![1, 0]);
    let b = add_instance(&mut sw, vec![2, 0]);
    let mut world = World::new();
    sw.dispatch_packet(&unicast(a), &CountHandler, &mut world);
    assert_eq!(counter_of(&sw, a), 1);
    assert_eq!(counter_of(&sw, b), 0);
}

#[test]
fn stale_version_unicast_is_dropped() {
    let mut sw = Swarm::new(7, 0, 32);
    let a = add_instance(&mut sw, vec![1, 0]);
    let wrong = RawID::new(a.type_id, a.instance_id, a.machine, a.version + 1);
    let mut world = World::new();
    sw.dispatch_packet(&unicast(wrong), &CountHandler, &mut world);
    // no handler ran: the counter is untouched
    assert_eq!(counter_of(&sw, a), 0);
    assert_eq!(sw.instance_count(), 1);
}

#[test]
fn stale_id_rejection_after_kill() {
    // kill instance (id=7, v=0); a later unicast to (id=7, v=0) is dropped
    let mut sw = Swarm::new(7, 0, 32);
    let mut ids = Vec::new();
    for i in 0..8 {
        ids.push(add_instance(&mut sw, vec![i, 0]));
    }
    let seven = ids[7];
    assert_eq!(seven.instance_id, 7);
    let mut world = World::new();
    sw.dispatch_packet(&unicast(seven), &KillTagHandler { tag: 7 }, &mut world);
    assert_eq!(sw.instance_count(), 7);
    assert_eq!(sw.current_version(7), Some(1));

    sw.dispatch_packet(&unicast(seven), &CountHandler, &mut world);
    assert_eq!(sw.instance_count(), 7);
    assert!(sw.state_of(7, 0).is_none());
    for i in 0..7 {
        assert_eq!(counter_of(&sw, ids[i as usize]), 0);
    }
}

#[test]
fn die_then_unicast_to_same_id_drops_second_message() {
    let mut sw = Swarm::new(7, 0, 32);
    let a = add_instance(&mut sw, vec![3, 0]);
    let mut world = World::new();
    sw.dispatch_packet(&unicast(a), &KillTagHandler { tag: 3 }, &mut world);
    assert_eq!(sw.instance_count(), 0);
    assert_eq!(sw.current_version(a.instance_id), Some(1));
    // second dispatch to the dead handle: dropped, nothing changes
    sw.dispatch_packet(&unicast(a), &KillTagHandler { tag: 3 }, &mut world);
    assert_eq!(sw.instance_count(), 0);
    assert_eq!(sw.current_version(a.instance_id), Some(1));
}

#[test]
fn unicast_resize_updates_both_slot_map_entries() {
    // growing an instance out of its class relocates it and swaps its
    // neighbour into the vacated slot, both entries updated
    let mut sw = Swarm::new(7, 0, 32);
    let a = add_instance(&mut sw, vec![1, 0]);
    let b = add_instance(&mut sw, vec![2, 0]);
    let c = add_instance(&mut sw, vec![3, 0]);
    assert_eq!(sw.current_location(a.instance_id), Some((0, 0)));
    let mut world = World::new();
    // 5 extra words: 2 + 5 = 7 words, 72 bytes > 64 = class-1 capacity
    sw.dispatch_packet(
        &unicast(a),
        &swarm::handlers::GrowTagHandler { tag: 1, extra: 5 },
        &mut world,
    );
    assert_eq!(sw.instance_count(), 3);
    assert_eq!(sw.current_location(a.instance_id), Some((2, 0)));
    // the tail instance (c) was pulled down into a's old slot
    assert_eq!(sw.current_location(c.instance_id), Some((0, 0)));
    assert_eq!(sw.current_location(b.instance_id), Some((0, 1)));
    assert_eq!(sw.state_of(a.instance_id, a.version).unwrap().payload, vec![1, 1, 0, 0, 0, 0, 0]);
}

#[test]
fn world_carries_spawn_requests() {
    let mut world = World::new();
    assert_eq!(world.pending_spawns(), 0);
    world.request_spawn(InstanceState::from_payload(vec![4, 0]));
    assert_eq!(world.pending_spawns(), 1);
}

#[test]
fn setup_registers_actor_kind() {
    let mut system = ActorSystem::new();
    assert!(!system.is_registered(7));
    setup(&mut system, 7);
    assert!(system.is_registered(7));
    assert!(!system.is_registered(8));
}

#[test]
fn spawn_files_one_request() {
    let mut world = World::new();
    spawn(&mut world);
    assert_eq!(world.pending_spawns(), 1);
}

#[test]
fn broadcast_reaches_instance_without_counter_word() {
    // a 1-word payload has no counter; the count handler leaves it alone
    let mut sw = Swarm::new(7, 0, 32);
    let a = add_instance(&mut sw, vec![5]);
    let mut world = World::new();
    sw.dispatch_packet(&broadcast(7), &CountHandler, &mut world);
    assert_eq!(sw.state_of(a.instance_id, a.version).unwrap().payload, vec![5]);
    assert_eq!(sw.instance_count(), 1);
}
