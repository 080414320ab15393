use crdt_data_types::bridge::{apply_batch_capnp_deltas, apply_capnp_delta};
use crdt_data_types::{
    CrdtError, CrdtType, Delta, FWWRegister, GCounter, GCounterDelta, GSet, GSetDelta, LWWMap,
    LWWMapDelta, LWWRegister, LWWRegisterDelta, LWWSet, LWWSetDelta, MVRegister, MVRegisterDelta,
    ORMap, ORMapDelta, ORSet, ORSetDelta, PNCounter, PNCounterDelta, Replica, SerdeCapnpBridge,
};

fn texts(items: &[&str]) -> Vec<String> {
    items.iter().map(|s| s.to_string()).collect()
}

#[test]
fn a_counter_delta_is_applied_to_a_fresh_state() {
    let delta = Delta::GCounter(GCounterDelta::Direct(10));
    assert_eq!(delta.kind(), CrdtType::GCounter);
    let bytes = apply_capnp_delta(CrdtType::GCounter, None, &delta, "node1").unwrap();
    let counter = GCounter::from_bytes(&bytes).unwrap();
    assert_eq!(counter.count("node1"), 10);
    assert_eq!(counter.value(), 10);

    let more = Delta::GCounter(GCounterDelta::Object { increment: 5 });
    let bytes =
        SerdeCapnpBridge::apply_capnp_delta(CrdtType::GCounter, Some(&bytes), &more, "node2")
            .unwrap();
    let counter = GCounter::from_bytes(&bytes).unwrap();
    assert_eq!(counter.value(), 15);
    assert_eq!(counter.count("node2"), 5);
}

#[test]
fn a_set_delta_is_applied_to_a_fresh_state() {
    let delta = Delta::GSet(GSetDelta::List(texts(&["A", "B"])));
    let bytes = apply_capnp_delta(CrdtType::GSet, None, &delta, "node1").unwrap();
    let set = GSet::<String>::from_bytes(&bytes).unwrap();
    assert!(set.contains(&"A".to_string()));
    assert!(set.contains(&"B".to_string()));
    assert_eq!(set.len(), 2);
}

#[test]
fn a_register_delta_is_applied_to_a_fresh_state() {
    let delta =
        Delta::LWWRegister(LWWRegisterDelta { value: "hello".to_string(), timestamp: 100 });
    let bytes = apply_capnp_delta(CrdtType::LWWRegister, None, &delta, "node1").unwrap();
    let register = LWWRegister::<String>::from_bytes(&bytes).unwrap();
    assert_eq!(register.value, "hello");
    assert_eq!(register.timestamp, 100);
    assert_eq!(register.node_id, "node1");

    let delta = Delta::FWWRegister(crdt_data_types::FWWRegisterDelta {
        value: "first".to_string(),
        timestamp: 100,
    });
    let bytes = apply_capnp_delta(CrdtType::FWWRegister, None, &delta, "node1").unwrap();
    let register = FWWRegister::<String>::from_bytes(&bytes).unwrap();
    assert_eq!(register.value, "first");
    assert_eq!(register.timestamp, 100);
}

#[test]
fn a_delta_of_another_kind_is_refused() {
    let delta = Delta::GSet(GSetDelta::List(texts(&["A"])));
    let r = apply_capnp_delta(CrdtType::GCounter, None, &delta, "node1");
    assert!(matches!(r, Err(CrdtError::InvalidInput(_))));
    // The kind is looked at before the buffer is.
    let r = apply_capnp_delta(CrdtType::GCounter, Some(&[1, 2, 3]), &delta, "node1");
    assert!(matches!(r, Err(CrdtError::InvalidInput(_))));
    let fitting = Delta::GCounter(GCounterDelta::Direct(1));
    let r = apply_capnp_delta(CrdtType::GCounter, Some(&[1, 2, 3]), &fitting, "node1");
    assert!(matches!(r, Err(CrdtError::Deserialization(_))));
}

#[test]
fn a_batch_of_counter_deltas_adds_up() {
    let deltas = vec![
        Delta::GCounter(GCounterDelta::Direct(10)),
        Delta::GCounter(GCounterDelta::Direct(20)),
        Delta::GCounter(GCounterDelta::Direct(30)),
    ];
    let bytes = apply_batch_capnp_deltas(CrdtType::GCounter, None, &deltas, "node1").unwrap();
    let counter = GCounter::from_bytes(&bytes).unwrap();
    assert_eq!(counter.value(), 60);
    assert_eq!(counter.vclock.counter("node1"), 3);

    let more = vec![Delta::GCounter(GCounterDelta::Direct(1))];
    let bytes = SerdeCapnpBridge::apply_batch_capnp_deltas(
        CrdtType::GCounter,
        Some(&bytes),
        &more,
        "node2",
    )
    .unwrap();
    assert_eq!(GCounter::from_bytes(&bytes).unwrap().value(), 61);

    // No delta leaves the state as it is.
    let same = apply_batch_capnp_deltas(CrdtType::GCounter, Some(&bytes), &[], "node2").unwrap();
    assert_eq!(same, bytes);
    let fresh = apply_batch_capnp_deltas(CrdtType::GCounter, None, &[], "node2").unwrap();
    assert_eq!(GCounter::from_bytes(&fresh).unwrap(), GCounter::new());
}

#[test]
fn a_batch_stops_at_the_first_refused_delta() {
    let deltas = vec![
        Delta::GCounter(GCounterDelta::Direct(10)),
        Delta::PNCounter(PNCounterDelta::Direct(20)),
        Delta::GCounter(GCounterDelta::Direct(30)),
    ];
    let r = apply_batch_capnp_deltas(CrdtType::GCounter, None, &deltas, "node1");
    assert!(matches!(r, Err(CrdtError::InvalidInput(_))));
    let too_much = vec![
        Delta::GCounter(GCounterDelta::Direct(i64::MAX)),
        Delta::GCounter(GCounterDelta::Direct(1)),
    ];
    let r = apply_batch_capnp_deltas(CrdtType::GCounter, None, &too_much, "node1");
    assert!(matches!(r, Err(CrdtError::InvalidInput(_))));
    let r = apply_batch_capnp_deltas(CrdtType::GCounter, Some(&[7]), &[], "node1");
    assert!(matches!(r, Err(CrdtError::Deserialization(_))));
}

#[test]
fn every_kind_takes_its_delta() {
    let pairs = vec![("k".to_string(), "v".to_string())];
    let cases: Vec<(CrdtType, Delta)> = vec![
        (CrdtType::PNCounter, Delta::PNCounter(PNCounterDelta::Direct(-4))),
        (
            CrdtType::ORSet,
            Delta::ORSet(ORSetDelta { add: Some(texts(&["a", "b"])), remove: Some(texts(&["a"])) }),
        ),
        (
            CrdtType::LWWSet,
            Delta::LWWSet(LWWSetDelta { add: Some(texts(&["a"])), remove: None, timestamp: 3 }),
        ),
        (CrdtType::MVRegister, Delta::MVRegister(MVRegisterDelta::Direct("x".to_string()))),
        (
            CrdtType::LWWMap,
            Delta::LWWMap(LWWMapDelta { set: Some(pairs.clone()), remove: None, timestamp: 3 }),
        ),
        (CrdtType::ORMap, Delta::ORMap(ORMapDelta { set: Some(pairs), remove: None })),
    ];
    let mut outs = Vec::new();
    for (kind, delta) in &cases {
        assert_eq!(delta.kind(), *kind);
        outs.push(apply_capnp_delta(*kind, None, delta, "n").unwrap());
    }
    assert_eq!(PNCounter::from_bytes(&outs[0]).unwrap().value(), -4);
    assert_eq!(ORSet::<String>::from_bytes(&outs[1]).unwrap().iter(), texts(&["b"]));
    assert!(LWWSet::<String>::from_bytes(&outs[2]).unwrap().contains(&"a".to_string()));
    assert_eq!(MVRegister::<String>::from_bytes(&outs[3]).unwrap().versions(), texts(&["x"]));
    let map = LWWMap::<String, String>::from_bytes(&outs[4]).unwrap();
    assert_eq!(map.get(&"k".to_string()), Some(&"v".to_string()));
    let map = ORMap::<String, String>::from_bytes(&outs[5]).unwrap();
    assert_eq!(map.get_concurrent(&"k".to_string()), texts(&["v"]));
}
