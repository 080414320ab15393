use crdt_data_types::compaction::compact_capnp_bytes;
use crdt_data_types::{
    FWWRegister, GSet, LWWMap, LWWRegister, LWWSet, MVRegister, ORMap, ORSet, PNCounter, Replica,
    VectorClock,
};
use std::collections::hash_map::DefaultHasher;
use std::hash::{Hash, Hasher};
use std::time::Duration;

#[test]
fn test_vector_clock_happens_before() {
    let mut vc1 = VectorClock::new();
    let mut vc2 = VectorClock::new();

    // Empty clocks are equal: neither precedes the other.
    assert!(!vc1.happens_before(&vc2));
    assert!(!vc2.happens_before(&vc1));

    // vc1: {A: 1}
    vc1.increment("A");
    assert!(!vc1.happens_before(&vc2));
    assert!(vc2.happens_before(&vc1));

    // vc2: {A: 1}
    vc2.merge(&vc1);
    assert!(!vc1.happens_before(&vc2));

    // vc2: {A: 1, B: 1}
    vc2.increment("B");
    assert!(vc1.happens_before(&vc2));

    // vc1: {A: 2}: concurrent with vc2.
    vc1.increment("A");
    assert!(!vc1.happens_before(&vc2));
    assert!(!vc2.happens_before(&vc1));
}

#[test]
fn test_vector_clock_stability() {
    let mut vc = VectorClock::new();

    assert!(!vc.is_stable_for(Duration::from_secs(1)));

    vc.increment("A");

    assert!(!vc.is_stable_for(Duration::from_secs(10)));

    let old_ts = std::time::SystemTime::now()
        .duration_since(std::time::UNIX_EPOCH)
        .unwrap()
        .as_secs()
        - 100;

    vc.clocks.insert("B".to_string(), (1, old_ts));

    // "A" is still recent.
    assert!(!vc.is_stable_for(Duration::from_secs(10)));

    // With only the old entry left the clock is stable.
    vc.clocks.remove(&"A".to_string());
    assert!(vc.is_stable_for(Duration::from_secs(10)));
}

#[test]
fn test_vector_clock_hashing() {
    let mut vc1 = VectorClock::new();
    vc1.increment("A");
    vc1.increment("B");

    let mut vc2 = VectorClock::new();
    vc2.increment("B");
    vc2.increment("A");

    let mut h1 = DefaultHasher::new();
    vc1.hash(&mut h1);

    let mut h2 = DefaultHasher::new();
    vc2.hash(&mut h2);

    let ts = 1000;
    vc1.clocks.insert("A".to_string(), (1, ts));
    vc1.clocks.insert("B".to_string(), (1, ts));

    vc2.clocks.insert("A".to_string(), (1, ts));
    vc2.clocks.insert("B".to_string(), (1, ts));

    let mut h1 = DefaultHasher::new();
    vc1.hash(&mut h1);

    let mut h2 = DefaultHasher::new();
    vc2.hash(&mut h2);

    assert_eq!(h1.finish(), h2.finish());
}

#[test]
fn test_compact_capnp_all_types() {
    let mut gset = GSet::new();
    gset.insert("node", "val".to_string());
    let bytes = gset.to_capnp_bytes();
    let res = compact_capnp_bytes("GSet", &[&bytes]).unwrap();
    assert!(!res.is_empty());

    let mut orset = ORSet::new();
    orset.insert("node", "val".to_string());
    let bytes = orset.to_capnp_bytes();
    let res = compact_capnp_bytes("ORSet", &[&bytes]).unwrap();
    assert!(!res.is_empty());

    let mut pn = PNCounter::new();
    pn.increment("node", 1);
    let bytes = pn.to_capnp_bytes();
    let res = compact_capnp_bytes("PNCounter", &[&bytes]).unwrap();
    assert!(!res.is_empty());

    let lww = LWWRegister::new("val".to_string(), 1, "node");
    let bytes = lww.to_capnp_bytes();
    let res = compact_capnp_bytes("LWWRegister", &[&bytes]).unwrap();
    assert!(!res.is_empty());

    let fww = FWWRegister::new("val".to_string(), 1, "node");
    let bytes = fww.to_capnp_bytes();
    let res = compact_capnp_bytes("FWWRegister", &[&bytes]).unwrap();
    assert!(!res.is_empty());

    let mut mv = MVRegister::new();
    mv.set("node", "val".to_string());
    let bytes = mv.to_capnp_bytes();
    let res = compact_capnp_bytes("MVRegister", &[&bytes]).unwrap();
    assert!(!res.is_empty());

    let mut lwwmap = LWWMap::new();
    lwwmap.insert("node", "key".to_string(), "val".to_string(), 100);
    let bytes = lwwmap.to_capnp_bytes();
    let res = compact_capnp_bytes("LWWMap", &[&bytes]).unwrap();
    assert!(!res.is_empty());

    let mut ormap = ORMap::new();
    ormap.insert("node", "key".to_string(), "val".to_string());
    let bytes = ormap.to_capnp_bytes();
    let res = compact_capnp_bytes("ORMap", &[&bytes]).unwrap();
    assert!(!res.is_empty());

    let mut lwwset = LWWSet::new();
    lwwset.insert("node", "val".to_string(), 100);
    let bytes = lwwset.to_capnp_bytes();
    let res = compact_capnp_bytes("LWWSet", &[&bytes]).unwrap();
    assert!(!res.is_empty());
}
