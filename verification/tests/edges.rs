use crdt_data_types::{
    Crdt, CrdtError, CrdtReader, CrdtType, FWWRegister, FWWRegisterReader, GCounter,
    GCounterReader, GSet, GSetReader, LWWMap, LWWRegister, LWWRegisterReader, LWWSet, MVRegister,
    ORMap, ORSet, PNCounter, ProbabilisticCrdtType, Replica, VectorClock,
};
use std::str::FromStr;
use std::time::Duration;

#[test]
fn grow_only_counter_ignores_negative_increments() {
    let mut c = GCounter::new();
    c.increment("a", 7);
    let before = c.clone();
    c.increment("a", -3);
    assert_eq!(c, before);
    assert_eq!(c.value(), 7);
    assert_eq!(c.count("a"), 7);
    assert_eq!(c.count("b"), 0);
    assert_eq!(c.vclock.counter("a"), 1);
    c.increment("a", 0);
    assert_eq!(c.value(), 7);
    assert_eq!(c.vclock.counter("a"), 2);
}

#[test]
fn decrement_of_a_negative_is_an_increment() {
    let mut via_decrement = PNCounter::new();
    via_decrement.decrement("a", -9);
    let mut via_increment = PNCounter::new();
    via_increment.increment("a", 9);
    assert_eq!(via_decrement.value(), 9);
    assert_eq!(via_decrement.positive, via_increment.positive);
    assert_eq!(via_decrement.negative, via_increment.negative);
    assert_eq!(via_decrement.vclock.counter("a"), 1);

    let mut down = PNCounter::new();
    down.increment("a", -4);
    let mut also_down = PNCounter::new();
    also_down.decrement("a", 4);
    assert_eq!(down.value(), -4);
    assert_eq!(down.negative, also_down.negative);
    assert!(down.positive.is_empty());
}

#[test]
fn clock_increment_returns_the_new_entry() {
    let mut vc = VectorClock::new();
    assert!(vc.is_empty());
    assert_eq!(vc.counter("a"), 0);
    assert_eq!(vc.increment_at("a", 77), (1, 77));
    assert_eq!(vc.increment_at("a", 78), (2, 78));
    assert_eq!(vc.increment_at("b", 5), (1, 5));
    assert_eq!(vc.counter("a"), 2);
    assert_eq!(vc.counter("b"), 1);
    assert!(!vc.is_empty());
    let (counter, seconds) = vc.increment("a");
    assert_eq!(counter, 3);
    // The wall clock is well past the year 2020.
    assert!(seconds > 1_577_836_800);
}

#[test]
fn clock_stability_is_decided_by_the_cutoff() {
    let mut vc = VectorClock::new();
    assert!(!vc.is_stable_at(u64::MAX));
    vc.increment_at("a", 100);
    vc.increment_at("b", 200);
    assert!(vc.is_stable_at(201));
    assert!(!vc.is_stable_at(200));
    assert!(!vc.is_stable_at(0));
    // Both entries are decades old.
    assert!(vc.is_stable_for(Duration::from_secs(60)));
    // No second lies before the epoch.
    assert!(!vc.is_stable_for(Duration::from_secs(u64::MAX / 4)));
}

#[test]
fn equal_clocks_do_not_precede_each_other() {
    let mut a = VectorClock::new();
    a.increment_at("n", 1);
    let mut b = VectorClock::new();
    b.increment_at("n", 9);
    assert!(!a.happens_before(&b));
    assert!(!b.happens_before(&a));
}

#[test]
fn lww_set_takes_only_a_strictly_better_write() {
    let mut r = LWWRegister::new("m".to_string(), 10, "n5");
    r.set("z".to_string(), 9, "n9");
    assert_eq!(r.value, "m");
    r.set("z".to_string(), 10, "n4");
    assert_eq!(r.value, "m");
    r.set("a".to_string(), 10, "n5");
    assert_eq!(r.value, "m");
    r.set("m".to_string(), 10, "n5");
    assert_eq!(r.vclock.counter("n5"), 1);
    r.set("n".to_string(), 10, "n5");
    assert_eq!(r.value, "n");
    assert_eq!(r.vclock.counter("n5"), 2);
    r.set("a".to_string(), 10, "n6");
    assert_eq!((r.value.as_str(), r.node_id.as_str()), ("a", "n6"));
    r.set("b".to_string(), 11, "n0");
    assert_eq!((r.value.as_str(), r.timestamp), ("b", 11));
}

#[test]
fn fww_set_breaks_full_ties_by_the_lower_value() {
    let mut r = FWWRegister::new("m".to_string(), 10, "n5");
    r.set("z".to_string(), 10, "n5");
    assert_eq!(r.value, "m");
    r.set("a".to_string(), 10, "n5");
    assert_eq!(r.value, "a");
}

#[test]
fn registers_start_empty_at_their_extreme_timestamp() {
    let lww: LWWRegister<String> = LWWRegister::default();
    assert_eq!(lww.timestamp, 0);
    assert!(lww.is_empty());
    let fww: FWWRegister<String> = FWWRegister::default();
    assert_eq!(fww.timestamp, u64::MAX);
    assert!(fww.is_empty());
    // Any real write wins against the empty first-write-wins register.
    let mut fww = fww;
    fww.set("first".to_string(), u64::MAX - 1, "n");
    assert_eq!(fww.value, "first");
    assert!(!fww.is_empty());

    let none: [LWWRegisterReader<String>; 0] = [];
    let r = LWWRegister::<String>::merge_from_readers(&none).unwrap();
    assert_eq!(r, LWWRegister::default());
    let none: [FWWRegisterReader<String>; 0] = [];
    let r = FWWRegister::<String>::merge_from_readers(&none).unwrap();
    assert_eq!(r.timestamp, u64::MAX);
}

#[test]
fn lww_map_remove_forgets_and_a_merge_brings_back() {
    let mut a = LWWMap::new();
    a.insert("n1", "k".to_string(), "v".to_string(), 5);
    let b = a.clone();
    a.remove(&"k".to_string());
    assert_eq!(a.get(&"k".to_string()), None);
    assert!(a.is_empty());
    // The removal left no marker: the peer's entry comes back.
    a.merge(&b);
    assert_eq!(a.get(&"k".to_string()), Some(&"v".to_string()));
}

#[test]
fn lww_map_insert_takes_only_a_strictly_better_write() {
    let mut m = LWWMap::new();
    m.insert("n5", "k".to_string(), "m".to_string(), 10);
    m.insert("n9", "k".to_string(), "z".to_string(), 9);
    assert_eq!(m.get(&"k".to_string()), Some(&"m".to_string()));
    m.insert("n4", "k".to_string(), "z".to_string(), 10);
    assert_eq!(m.get(&"k".to_string()), Some(&"m".to_string()));
    m.insert("n5", "k".to_string(), "a".to_string(), 10);
    assert_eq!(m.get(&"k".to_string()), Some(&"m".to_string()));
    assert_eq!(m.vclock.counter("n5"), 1);
    m.insert("n5", "k".to_string(), "n".to_string(), 10);
    assert_eq!(m.get(&"k".to_string()), Some(&"n".to_string()));
    m.insert("n6", "k".to_string(), "a".to_string(), 10);
    assert_eq!(m.get(&"k".to_string()), Some(&"a".to_string()));
}

#[test]
fn lww_set_presence_follows_the_tags() {
    let mut s = LWWSet::new();
    assert!(s.is_empty());
    s.insert("n1", "x".to_string(), 5);
    assert!(s.contains(&"x".to_string()));
    s.remove("n1", "x".to_string(), 5);
    // Equal tags: the add does not rank strictly above the remove.
    assert!(!s.contains(&"x".to_string()));
    s.insert("n2", "x".to_string(), 5);
    assert!(s.contains(&"x".to_string()));
    s.remove("n1", "x".to_string(), 6);
    assert!(!s.contains(&"x".to_string()));
    s.insert("n1", "x".to_string(), 4);
    assert!(!s.contains(&"x".to_string()));
    assert_eq!(s.iter(), Vec::<String>::new());
    assert!(!s.is_empty());
    assert!(!s.contains(&"y".to_string()));
}

#[test]
fn grow_only_set_ticks_only_for_new_elements() {
    let mut s = GSet::new();
    s.insert("n", 4u64);
    s.insert("n", 4u64);
    s.insert("n", 2u64);
    assert_eq!(s.len(), 2);
    assert_eq!(s.iter(), vec![2, 4]);
    assert_eq!(s.vclock.counter("n"), 2);
    assert!(!s.contains(&3));
}

#[test]
fn observed_remove_map_write_replaces_seen_values() {
    let mut m = ORMap::new();
    assert!(m.is_empty());
    m.insert("n", "k".to_string(), "v1".to_string());
    m.insert("n", "k".to_string(), "v2".to_string());
    assert_eq!(m.get_concurrent(&"k".to_string()), vec!["v2".to_string()]);
    assert_eq!(m.vclock.counter("n"), 2);
    assert_eq!(m.elements.vclock.counter("n"), 2);
    m.remove(&"k".to_string());
    assert_eq!(m.get_concurrent(&"k".to_string()), Vec::<String>::new());
    assert!(m.is_empty());
}

#[test]
fn multi_value_register_write_mints_the_next_dot() {
    let mut r = MVRegister::new();
    assert!(r.is_empty());
    r.set("n", 7i64);
    r.set("n", 8i64);
    assert_eq!(r.versions(), vec![8]);
    assert_eq!(r.entries.keys(), vec![(8i64, ("n".to_string(), 2u64))]);
}

#[test]
fn observed_remove_set_insert_mints_the_next_dot() {
    let mut s = ORSet::new();
    s.insert("n", "x".to_string());
    s.insert("n", "x".to_string());
    s.insert("m", "x".to_string());
    assert_eq!(
        s.elements.keys(),
        vec![
            ("x".to_string(), ("m".to_string(), 1u64)),
            ("x".to_string(), ("n".to_string(), 1u64)),
            ("x".to_string(), ("n".to_string(), 2u64)),
        ]
    );
    assert_eq!(s.len(), 1);
    assert_eq!(s.iter(), vec!["x".to_string()]);
}

#[test]
fn malformed_buffers_are_reported() {
    let mut c = GCounter::new();
    c.increment("node", 3);
    let bytes = c.to_capnp_bytes();

    let truncated = &bytes[..bytes.len() - 1];
    assert!(matches!(GCounter::from_bytes(truncated), Err(CrdtError::Deserialization(_))));
    let mut longer = bytes.clone();
    longer.push(0);
    assert!(matches!(GCounter::from_bytes(&longer), Err(CrdtError::Deserialization(_))));
    assert!(matches!(GCounter::from_bytes(&[]), Err(CrdtError::Deserialization(_))));

    let good = GCounterReader::new(&bytes);
    let bad = GCounterReader::new(truncated);
    assert_eq!(good.is_empty().unwrap(), false);
    assert!(matches!(bad.is_empty(), Err(CrdtError::Deserialization(_))));
    let r = GCounter::merge_from_readers(&[good, bad]);
    assert!(matches!(r, Err(CrdtError::Deserialization(_))));

    let empty = GCounter::new().to_capnp_bytes();
    assert_eq!(GCounterReader::new(&empty).is_empty().unwrap(), true);
    assert_eq!(GCounterReader::new(&empty).to_gcounter().unwrap(), GCounter::new());
}

#[test]
fn entries_out_of_order_are_malformed() {
    let mut s = GSet::new();
    s.insert("n", 1u64);
    s.insert("n", 2u64);
    let bytes = s.to_capnp_bytes();
    // Two elements follow the count; swap them.
    let mut swapped = bytes.clone();
    for i in 0..8 {
        swapped.swap(8 + i, 16 + i);
    }
    assert!(GSet::<u64>::from_bytes(&bytes).is_ok());
    assert!(matches!(GSet::<u64>::from_bytes(&swapped), Err(CrdtError::Deserialization(_))));
    // The same element twice does not ascend either.
    let mut twice = bytes.clone();
    for i in 0..8 {
        twice[16 + i] = twice[8 + i];
    }
    assert!(matches!(GSet::<u64>::from_bytes(&twice), Err(CrdtError::Deserialization(_))));
}

#[test]
fn text_round_trips_and_bad_utf8_is_malformed() {
    let mut s = GSet::new();
    s.insert("nœud", "grüße, 世界".to_string());
    s.insert("nœud", "".to_string());
    let bytes = s.to_capnp_bytes();
    let back = GSet::<String>::from_bytes(&bytes).unwrap();
    assert_eq!(back, s);
    assert!(back.contains(&"grüße, 世界".to_string()));
    assert_eq!(back.vclock.counter("nœud"), 2);

    let mut one = GSet::new();
    one.insert("n", "ab".to_string());
    let mut bytes = one.to_capnp_bytes();
    // Count, then the length of "ab", then its two bytes.
    assert_eq!(&bytes[16..18], b"ab");
    bytes[16] = 0xff;
    let reader = GSetReader::<String>::new(&bytes);
    assert!(matches!(reader.to_gset(), Err(CrdtError::Deserialization(_))));
}

#[test]
fn negative_counts_are_malformed_and_invalid() {
    let mut c = GCounter::new();
    c.increment("n", 1);
    assert!(c.validate().is_ok());
    c.counters.insert("n".to_string(), -1);
    assert!(matches!(c.validate(), Err(CrdtError::Validation(_))));
    let bytes = c.to_capnp_bytes();
    assert!(matches!(GCounter::from_bytes(&bytes), Err(CrdtError::Deserialization(_))));

    let mut pn = PNCounter::new();
    pn.increment("n", 1);
    assert!(pn.validate().is_ok());
    pn.negative.counters.insert("n".to_string(), -1);
    assert!(matches!(pn.validate(), Err(CrdtError::Validation(_))));
}

#[test]
fn signed_numbers_keep_their_value_on_the_wire() {
    let mut s = GSet::new();
    s.insert("n", i64::MIN);
    s.insert("n", -1i64);
    s.insert("n", 0i64);
    s.insert("n", i64::MAX);
    let back = GSet::<i64>::from_bytes(&s.to_capnp_bytes()).unwrap();
    assert_eq!(back.iter(), vec![i64::MIN, -1, 0, i64::MAX]);
}

#[test]
fn kinds_are_found_by_name() {
    assert_eq!(CrdtType::parse("GCounter").unwrap(), CrdtType::GCounter);
    assert_eq!(CrdtType::parse("g_counter").unwrap(), CrdtType::GCounter);
    assert_eq!(CrdtType::parse("LWW_Register").unwrap(), CrdtType::LWWRegister);
    assert_eq!(CrdtType::parse("ORMAP").unwrap(), CrdtType::ORMap);
    assert_eq!(CrdtType::from_str("mv_register").unwrap(), CrdtType::MVRegister);
    assert!(matches!(CrdtType::parse("counter"), Err(CrdtError::InvalidInput(_))));
    assert_eq!(CrdtType::from_normalized("gcounter"), Some(CrdtType::GCounter));
    assert_eq!(CrdtType::from_normalized("GCounter"), None);
    assert_eq!(CrdtType::from_exact("FWWRegister"), Some(CrdtType::FWWRegister));
    assert_eq!(CrdtType::from_exact("fwwregister"), None);
    assert_eq!(CrdtType::PNCounter.to_string(), "PNCounter");
    assert_eq!(CrdtType::LWWSet.as_str(), "LWWSet");

    assert_eq!(
        ProbabilisticCrdtType::parse("Hyper_Log_Log").unwrap(),
        ProbabilisticCrdtType::HyperLogLog
    );
    assert_eq!(ProbabilisticCrdtType::parse("topk").unwrap(), ProbabilisticCrdtType::TopK);
    assert!(matches!(ProbabilisticCrdtType::parse("bloom"), Err(CrdtError::InvalidInput(_))));
    assert_eq!(ProbabilisticCrdtType::TDigest.to_string(), "TDigest");
}

#[test]
fn errors_read_as_their_kind_and_cause() {
    assert_eq!(
        CrdtError::Serialization("a".to_string()).to_string(),
        "Serialization error: a"
    );
    assert_eq!(
        CrdtError::Deserialization("b".to_string()).to_string(),
        "Deserialization error: b"
    );
    assert_eq!(CrdtError::Merge("c".to_string()).to_string(), "Merge error: c");
    assert_eq!(CrdtError::Validation("d".to_string()).to_string(), "Validation error: d");
    assert_eq!(CrdtError::InvalidInput("e".to_string()).to_string(), "Invalid input: e");
    assert_eq!(CrdtError::Internal("f".to_string()).to_string(), "Internal error: f");
    match CrdtType::parse("nope") {
        Err(e) => assert_eq!(e.to_string(), "Invalid input: Unknown CRDT type: nope"),
        Ok(_) => panic!("an unknown name was accepted"),
    }
}

#[test]
fn merge_reader_leaves_the_clock_alone_on_failure() {
    let mut vc = VectorClock::new();
    vc.increment_at("a", 1);
    let before = vc.clone();
    let bad = [9u8, 9, 9];
    let r = vc.merge_reader(&crdt_data_types::VectorClockReader::new(&bad));
    assert!(matches!(r, Err(CrdtError::Deserialization(_))));
    assert_eq!(vc, before);

    let mut other = VectorClock::new();
    other.increment_at("b", 2);
    let bytes = other.to_capnp_bytes();
    vc.merge_reader(&crdt_data_types::VectorClockReader::new(&bytes)).unwrap();
    assert_eq!(vc.counter("a"), 1);
    assert_eq!(vc.counter("b"), 1);
}
