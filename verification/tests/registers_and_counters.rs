use crdt_data_types::{
    Crdt, FWWRegister, FWWRegisterReader, PNCounter, PNCounterReader, Replica,
};

#[test]
fn test_fww_register_logic() {
    let mut reg = FWWRegister::new("initial".to_string(), 100, "node_a");

    // A higher timestamp loses: the first write wins.
    reg.set("newer".to_string(), 200, "node_a");
    assert_eq!(reg.value, "initial");
    assert_eq!(reg.timestamp, 100);

    // A lower timestamp wins.
    reg.set("older".to_string(), 50, "node_a");
    assert_eq!(reg.value, "older");
    assert_eq!(reg.timestamp, 50);

    // Same timestamp: the lower node wins.
    reg.set("tie_loser".to_string(), 50, "node_z");
    assert_eq!(reg.value, "older");

    reg.set("tie_winner".to_string(), 50, "node_0");
    assert_eq!(reg.value, "tie_winner");
    assert_eq!(reg.node_id, "node_0");
}

#[test]
fn test_fww_register_capnp_roundtrip() {
    let reg = FWWRegister::new("data".to_string(), 12345, "node_x");
    let bytes = reg.to_capnp_bytes();

    let reader = FWWRegisterReader::<String>::new(&bytes);
    let decoded = FWWRegister::<String>::merge_from_readers(&[reader]).unwrap();

    assert_eq!(decoded.value, "data");
    assert_eq!(decoded.timestamp, 12345);
    assert_eq!(decoded.node_id, "node_x");
}

#[test]
fn test_pn_counter_negative_deltas() {
    let mut pn = PNCounter::new();

    // A negative increment is a decrement.
    pn.increment("node_a", -10);
    assert_eq!(pn.value(), -10);
    assert_eq!(pn.negative.value(), 10);
    assert_eq!(pn.positive.value(), 0);

    // A negative decrement is an increment.
    pn.decrement("node_a", -5);
    assert_eq!(pn.value(), -5);
    assert_eq!(pn.positive.value(), 5);
}

#[test]
fn test_pn_counter_capnp_roundtrip() {
    let mut pn = PNCounter::new();
    pn.increment("node_a", 100);
    pn.decrement("node_b", 50);

    let bytes = pn.to_capnp_bytes();
    let reader = PNCounterReader::new(&bytes);
    let decoded = PNCounter::merge_from_readers(&[reader]).unwrap();

    assert_eq!(decoded.value(), 50);
    assert_eq!(decoded.positive.value(), 100);
    assert_eq!(decoded.negative.value(), 50);
}
