use swarm::handlers::{
    CountHandler, GrowSpawnTagHandler, GrowTagHandler, KillTagHandler, NoopHandler,
    SpawnTagHandler,
};
use swarm::id::{RawID, BROADCAST_INSTANCE_ID};
use swarm::instance::InstanceState;
use swarm::messaging::{Packet, World};
use swarm::swarm::Swarm;

fn add_instance(sw: &mut Swarm, payload: Vec<u64>) -> RawID {
    let rid = sw.allocate_id(RawID::new(7, 0, 0, 0));
    sw.add_manually_with_id(InstanceState::from_payload(payload), rid);
    rid
}

fn broadcast(kind: u16) -> Packet<()> {
    Packet { recipient_id: RawID::new(kind, BROADCAST_INSTANCE_ID, 0, 0), message: () }
}

fn counter_of(sw: &Swarm, rid: RawID) -> u64 {
    let st = sw.state_of(rid.instance_id, rid.version).expect("instance should be live");
    st.payload[1]
}

#[test]
fn broadcast_on_empty_swarm_is_noop() {
    let mut sw = Swarm::new(7, 0, 32);
    let mut world = World::new();
    sw.dispatch_packet(&broadcast(7), &CountHandler, &mut world);
    assert_eq!(sw.instance_count(), 0);
    assert_eq!(sw.bin_count(), 0);
}

#[test]
fn broadcast_noop_leaves_swarm_identical() {
    let mut sw = Swarm::new(7, 0, 32);
    let a = add_instance(&mut sw, vec![1, 0]);
    let b = add_instance(&mut sw, vec![2, 0, 0, 0]);
    let mut world = World::new();
    sw.dispatch_packet(&broadcast(7), &NoopHandler, &mut world);
    assert_eq!(sw.instance_count(), 2);
    assert_eq!(sw.state_of(a.instance_id, a.version).unwrap().payload, vec![1, 0]);
    assert_eq!(sw.state_of(b.instance_id, b.version).unwrap().payload, vec![2, 0, 0, 0]);
}

#[test]
fn broadcast_delivers_exactly_once_per_original() {
    let mut sw = Swarm::new(7, 0, 32);
    let mut ids = Vec::new();
    for i in 0..5 {
        ids.push(add_instance(&mut sw, vec![i, 0]));
    }
    let mut world = World::new();
    sw.dispatch_packet(&broadcast(7), &CountHandler, &mut world);
    let mut total = 0;
    for rid in &ids {
        let c = counter_of(&sw, *rid);
        assert_eq!(c, 1);
        total += c;
    }
    assert_eq!(total, 5);
}

#[test]
fn two_bin_broadcast_with_mixed_fates() {
    // 3 instances in bin 0 (2-word payloads, class 0), 2 in bin 1
    // (4-word payloads, class 1); the instance at bin 0 slot 1 dies
    let mut sw = Swarm::new(7, 0, 32);
    let a0 = add_instance(&mut sw, vec![10, 0]);
    let a1 = add_instance(&mut sw, vec![11, 0]);
    let a2 = add_instance(&mut sw, vec![12, 0]);
    let b0 = add_instance(&mut sw, vec![20, 0, 0, 0]);
    let b1 = add_instance(&mut sw, vec![21, 0, 0, 0]);
    assert_eq!(sw.current_location(a1.instance_id), Some((0, 1)));
    assert_eq!(sw.current_location(b0.instance_id), Some((1, 0)));

    let mut world = World::new();
    sw.dispatch_packet(&broadcast(7), &KillTagHandler { tag: 11 }, &mut world);

    assert_eq!(sw.instance_count(), 4);
    assert_eq!(sw.bin_len(0), 2);
    assert_eq!(sw.bin_len(1), 2);
    // the original slot-2 instance was pulled down into slot 1
    assert_eq!(sw.current_location(a2.instance_id), Some((0, 1)));
    // each of the four survivors received the message exactly once
    for rid in [a0, a2, b0, b1] {
        assert_eq!(counter_of(&sw, rid), 1);
    }
    // the dead instance's id is free with its version bumped
    assert!(sw.state_of(a1.instance_id, a1.version).is_none());
    assert_eq!(sw.current_version(a1.instance_id), Some(a1.version + 1));
}

#[test]
fn self_resize_during_broadcast() {
    // one instance whose handler enlarges it past its class
    let mut sw = Swarm::new(7, 0, 32);
    let a = add_instance(&mut sw, vec![1, 0]);
    assert_eq!(sw.current_location(a.instance_id), Some((0, 0)));
    let mut world = World::new();
    // 2 + 5 = 7 words, 72 bytes: past class 1 (64), into class 2 (128)
    sw.dispatch_packet(&broadcast(7), &GrowTagHandler { tag: 1, extra: 5 }, &mut world);
    assert_eq!(sw.instance_count(), 1);
    assert_eq!(sw.bin_len(0), 0);
    assert_eq!(sw.current_location(a.instance_id), Some((2, 0)));
    // delivered exactly once
    assert_eq!(counter_of(&sw, a), 1);
}

#[test]
fn spawn_during_broadcast_is_not_delivered_to() {
    // three originals in bin 0; the handler for the tagged one emplaces a
    // new instance, which lands in bin 0 slot 3 (same size class)
    let mut sw = Swarm::new(7, 0, 32);
    let a0 = add_instance(&mut sw, vec![1, 0]);
    let a1 = add_instance(&mut sw, vec![2, 0]);
    let a2 = add_instance(&mut sw, vec![3, 0]);
    let mut world = World::new();
    let handler = SpawnTagHandler { tag: 1, child: InstanceState::from_payload(vec![99, 0]) };
    sw.dispatch_packet(&broadcast(7), &handler, &mut world);

    assert_eq!(sw.instance_count(), 4);
    assert_eq!(sw.bin_len(0), 4);
    // the three originals received the broadcast exactly once
    for rid in [a0, a1, a2] {
        assert_eq!(counter_of(&sw, rid), 1);
    }
    // the sub-instance did not: its counter is untouched
    let child_id = sw.id_at(0, 3).unwrap();
    assert_eq!(sw.state_of(child_id.instance_id, child_id.version).unwrap().payload, vec![99, 0]);
}

#[test]
fn spawn_causes_neighbor_swap_and_all_originals_delivered() {
    // three originals in bin 0; the handler for slot 0 enlarges it into a
    // larger bin, and swap-remove pulls the slot-2 original into slot 0;
    // the walk revisits slot 0, so every original is delivered to
    let mut sw = Swarm::new(7, 0, 32);
    let a0 = add_instance(&mut sw, vec![1, 0]);
    let a1 = add_instance(&mut sw, vec![2, 0]);
    let a2 = add_instance(&mut sw, vec![3, 0]);
    let mut world = World::new();
    sw.dispatch_packet(&broadcast(7), &GrowTagHandler { tag: 1, extra: 5 }, &mut world);

    assert_eq!(sw.instance_count(), 3);
    assert_eq!(sw.bin_len(0), 2);
    assert_eq!(sw.current_location(a0.instance_id), Some((2, 0)));
    assert_eq!(sw.current_location(a2.instance_id), Some((0, 0)));
    assert_eq!(sw.current_location(a1.instance_id), Some((0, 1)));
    // delivery count is 3: one per original, none missed, none doubled
    for rid in [a0, a1, a2] {
        assert_eq!(counter_of(&sw, rid), 1);
    }
}

#[test]
fn kill_does_not_starve_next_original_in_bin() {
    // the instance at slot 0 dies; the tail original pulled into its place
    // still receives the broadcast
    let mut sw = Swarm::new(7, 0, 32);
    let a0 = add_instance(&mut sw, vec![5, 0]);
    let a1 = add_instance(&mut sw, vec![6, 0]);
    let a2 = add_instance(&mut sw, vec![7, 0]);
    let mut world = World::new();
    sw.dispatch_packet(&broadcast(7), &KillTagHandler { tag: 5 }, &mut world);
    assert_eq!(sw.instance_count(), 2);
    assert!(sw.state_of(a0.instance_id, a0.version).is_none());
    assert_eq!(counter_of(&sw, a1), 1);
    assert_eq!(counter_of(&sw, a2), 1);
}

#[test]
fn grow_and_spawn_in_one_walk() {
    // the only original grows out of its class and spawns a child; the
    // child is appended behind it and then pulled down into the vacated
    // slot — without ever being delivered to
    let mut sw = Swarm::new(7, 0, 32);
    let a = add_instance(&mut sw, vec![1, 0]);
    let mut world = World::new();
    let handler = GrowSpawnTagHandler {
        tag: 1,
        extra: 5,
        child: InstanceState::from_payload(vec![99, 0]),
    };
    sw.dispatch_packet(&broadcast(7), &handler, &mut world);
    assert_eq!(sw.instance_count(), 2);
    // the original moved to the larger class, delivered exactly once
    assert_eq!(sw.current_location(a.instance_id), Some((2, 0)));
    assert_eq!(counter_of(&sw, a), 1);
    // the child took over the vacated slot with its requested state
    assert_eq!(sw.bin_len(0), 1);
    let child_id = sw.id_at(0, 0).unwrap();
    assert_ne!(child_id.instance_id, a.instance_id);
    assert_eq!(sw.state_of(child_id.instance_id, child_id.version).unwrap().payload, vec![99, 0]);
}

#[test]
fn resized_instance_is_not_delivered_to_twice() {
    // the growing instance moves to a bin past the cursor's; it must not
    // be visited again there
    let mut sw = Swarm::new(7, 0, 32);
    let a = add_instance(&mut sw, vec![1, 0]);
    let b = add_instance(&mut sw, vec![2, 0]);
    let mut world = World::new();
    sw.dispatch_packet(&broadcast(7), &GrowTagHandler { tag: 1, extra: 5 }, &mut world);
    assert_eq!(counter_of(&sw, a), 1);
    assert_eq!(counter_of(&sw, b), 1);
}
