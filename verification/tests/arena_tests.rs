use swarm::arena::Arena;
use swarm::id::RawID;
use swarm::instance::{Instance, InstanceState};
use swarm::slot_map::SlotIndices;

fn inst(id: u32, words: usize) -> Instance {
    Instance {
        id: RawID::new(7, id, 0, 0),
        state: InstanceState::from_payload(vec![0; words]),
    }
}

#[test]
fn push_selects_size_class_by_footprint() {
    let mut arena = Arena::new(32);
    // 2 words = 32 bytes: class 0 (capacity 32)
    let a = arena.push(inst(0, 2));
    assert_eq!((a.bin, a.slot), (0, 0));
    // 4 words = 48 bytes: class 1 (capacity 64)
    let b = arena.push(inst(1, 4));
    assert_eq!((b.bin, b.slot), (1, 0));
    // 7 words = 72 bytes: class 2 (capacity 128)
    let c = arena.push(inst(2, 7));
    assert_eq!((c.bin, c.slot), (2, 0));
    let d = arena.push(inst(3, 1));
    assert_eq!((d.bin, d.slot), (0, 1));
}

#[test]
fn swap_remove_within_bin_reports_moved_neighbour() {
    let mut arena = Arena::new(32);
    arena.push(inst(0, 2));
    arena.push(inst(1, 2));
    arena.push(inst(2, 2));
    // removing the head pulls the tail into its place
    let moved = arena.swap_remove_within_bin(SlotIndices { bin: 0, slot: 0 });
    assert_eq!(moved.map(|r| r.instance_id), Some(2));
    assert_eq!(arena.bin_len(0), 2);
    assert_eq!(arena.id_at(SlotIndices { bin: 0, slot: 0 }).instance_id, 2);
    // removing the tail moves nothing
    let moved = arena.swap_remove_within_bin(SlotIndices { bin: 0, slot: 1 });
    assert!(moved.is_none());
    assert_eq!(arena.bin_len(0), 1);
}

#[test]
fn populated_bin_indices_and_lens_lists_nonempty_bins_in_order() {
    let mut arena = Arena::new(32);
    assert_eq!(arena.populated_bin_indices_and_lens(), vec![]);
    arena.push(inst(0, 2));
    arena.push(inst(1, 2));
    arena.push(inst(2, 7)); // creates (empty) bin 1 and bin 2
    assert_eq!(arena.populated_bin_indices_and_lens(), vec![(0, 2), (2, 1)]);
    arena.swap_remove_within_bin(SlotIndices { bin: 2, slot: 0 });
    assert_eq!(arena.populated_bin_indices_and_lens(), vec![(0, 2)]);
}
