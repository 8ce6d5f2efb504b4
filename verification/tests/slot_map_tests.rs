use swarm::slot_map::{SlotIndices, SlotMap};

#[test]
fn allocate_grows_then_reuses_lifo() {
    let mut sm = SlotMap::new();
    assert_eq!(sm.len(), 0);
    let (a, va) = sm.allocate_id();
    let (b, vb) = sm.allocate_id();
    assert_eq!((a, va), (0, 0));
    assert_eq!((b, vb), (1, 0));
    sm.associate(a, SlotIndices { bin: 0, slot: 0 });
    sm.associate(b, SlotIndices { bin: 0, slot: 1 });
    sm.free(a, 0);
    sm.free(b, 0);
    // last freed is first reused, with its version bumped
    let (c, vc) = sm.allocate_id();
    assert_eq!((c, vc), (b, 1));
    let (d, vd) = sm.allocate_id();
    assert_eq!((d, vd), (a, 1));
    assert_eq!(sm.len(), 2);
}

#[test]
fn indices_of_is_strict_about_versions() {
    let mut sm = SlotMap::new();
    let (id, version) = sm.allocate_id();
    sm.associate(id, SlotIndices { bin: 2, slot: 5 });
    assert_eq!(sm.indices_of(id, version), Some(SlotIndices { bin: 2, slot: 5 }));
    assert_eq!(sm.indices_of(id, version + 1), None);
    assert_eq!(sm.indices_of(id + 1, version), None);
    // the unchecked lookup ignores the version
    assert_eq!(sm.indices_of_no_version_check(id), SlotIndices { bin: 2, slot: 5 });
    sm.free(id, version);
    assert_eq!(sm.indices_of(id, version), None);
    assert_eq!(sm.version_at(id), Some(version + 1));
}

#[test]
fn associate_relocates_without_touching_version() {
    let mut sm = SlotMap::new();
    let (id, version) = sm.allocate_id();
    sm.associate(id, SlotIndices { bin: 0, slot: 3 });
    sm.associate(id, SlotIndices { bin: 1, slot: 0 });
    assert_eq!(sm.indices_of(id, version), Some(SlotIndices { bin: 1, slot: 0 }));
    assert_eq!(sm.version_at(id), Some(version));
}
