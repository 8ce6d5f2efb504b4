use swarm::handlers::{CountHandler, KillTagHandler};
use swarm::id::{RawID, BROADCAST_INSTANCE_ID};
use swarm::instance::InstanceState;
use swarm::messaging::{Packet, World};
use swarm::swarm::Swarm;

struct Lcg(u64);

impl Lcg {
    fn next(&mut self) -> u64 {
        self.0 = self.0.wrapping_mul(6364136223846793005).wrapping_add(1442695040888963407);
        self.0 >> 33
    }
}

fn check_invariants(sw: &Swarm, live: &[(RawID, bool)]) {
    // the instance count equals the total of the bin lengths
    let mut total = 0;
    for b in 0..sw.bin_count() {
        total += sw.bin_len(b);
    }
    assert_eq!(total, sw.instance_count());
    // every populated slot holds an instance whose slot-map entry points
    // right back at it
    for b in 0..sw.bin_count() {
        for s in 0..sw.bin_len(b) {
            let rid = sw.id_at(b, s).expect("populated slot");
            assert_eq!(sw.current_location(rid.instance_id), Some((b, s)));
            assert_eq!(sw.current_version(rid.instance_id), Some(rid.version));
        }
    }
    // killed handles stay inert
    for (rid, alive) in live {
        if !alive {
            assert!(sw.state_of(rid.instance_id, rid.version).is_none());
        }
    }
}

#[test]
fn churn_stress_keeps_invariants() {
    let mut sw = Swarm::new(7, 0, 32);
    let mut world = World::new();
    let mut rng = Lcg(0x5eed);
    // (handle, known-alive) — killed handles must stay rejected
    let mut handles: Vec<(RawID, bool)> = Vec::new();

    for step in 0..10_000u32 {
        match rng.next() % 10 {
            0..=3 => {
                // add a fresh instance; its tag is its own id
                let rid = sw.allocate_id(RawID::new(7, 0, 0, 0));
                let tag = rid.instance_id as u64;
                let words = 2 + (rng.next() % 6);
                let mut payload = vec![tag, 0];
                for _ in 2..words {
                    payload.push(rng.next());
                }
                sw.add_manually_with_id(InstanceState::from_payload(payload), rid);
                handles.push((rid, true));
            },
            4..=6 => {
                // unicast a count to a random known handle (possibly stale)
                if !handles.is_empty() {
                    let k = (rng.next() as usize) % handles.len();
                    let packet = Packet { recipient_id: handles[k].0, message: () };
                    sw.dispatch_packet(&packet, &CountHandler, &mut world);
                }
            },
            7..=8 => {
                // unicast that kills its recipient (the tag matches by
                // construction), if the handle is still fresh
                if !handles.is_empty() {
                    let k = (rng.next() as usize) % handles.len();
                    let (rid, alive) = handles[k];
                    let packet = Packet { recipient_id: rid, message: () };
                    let handler = KillTagHandler { tag: rid.instance_id as u64 };
                    sw.dispatch_packet(&packet, &handler, &mut world);
                    if alive {
                        handles[k].1 = false;
                    }
                }
            },
            _ => {
                // periodic broadcast
                let packet = Packet {
                    recipient_id: RawID::new(7, BROADCAST_INSTANCE_ID, 0, 0),
                    message: (),
                };
                sw.dispatch_packet(&packet, &CountHandler, &mut world);
            },
        }
        if step % 500 == 0 {
            check_invariants(&sw, &handles);
        }
    }
    check_invariants(&sw, &handles);
}
