use crdt_data_types::{
    CrdtError, FWWRegister, FWWRegisterDelta, GCounter, GCounterDelta, GSet, GSetDelta, LWWMap,
    LWWMapDelta, LWWRegister, LWWRegisterDelta, LWWSet, LWWSetDelta, MVRegister, MVRegisterDelta,
    ORMap, ORMapDelta, ORSet, ORSetDelta, PNCounter, PNCounterDelta, Patch, VectorClock,
};

fn texts(items: &[&str]) -> Vec<String> {
    items.iter().map(|s| s.to_string()).collect()
}

#[test]
fn counter_deltas_add_their_amount() {
    let mut c = GCounter::new();
    assert_eq!(GCounterDelta::Direct(5).amount(), 5);
    assert_eq!(GCounterDelta::Object { increment: 7 }.amount(), 7);
    GCounterDelta::Direct(5).apply(&mut c, "n").unwrap();
    GCounterDelta::Object { increment: 7 }.apply(&mut c, "n").unwrap();
    assert_eq!(c.value(), 12);
    assert_eq!(c.vclock.counter("n"), 2);
    // A negative amount changes nothing.
    GCounterDelta::Direct(-1).apply(&mut c, "n").unwrap();
    assert_eq!(c.value(), 12);
    assert_eq!(c.vclock.counter("n"), 2);

    let mut pn = PNCounter::new();
    PNCounterDelta::Direct(5).apply(&mut pn, "n").unwrap();
    PNCounterDelta::Object { increment: -8 }.apply(&mut pn, "n").unwrap();
    assert_eq!(pn.value(), -3);
    assert_eq!(pn.positive.value(), 5);
    assert_eq!(pn.negative.value(), 8);
}

#[test]
fn counter_deltas_without_room_are_refused() {
    let mut c = GCounter::new();
    c.increment("n", i64::MAX - 1);
    let before = c.clone();
    let r = GCounterDelta::Direct(2).apply(&mut c, "n");
    assert!(matches!(r, Err(CrdtError::InvalidInput(_))));
    assert_eq!(c, before);
    GCounterDelta::Direct(1).apply(&mut c, "n").unwrap();
    assert_eq!(c.count("n"), i64::MAX);
    assert!(c.try_increment("n", 1).is_err());
    assert!(c.try_increment("m", 0).is_ok());

    let mut pn = PNCounter::new();
    let r = PNCounterDelta::Direct(i64::MIN).apply(&mut pn, "n");
    assert!(matches!(r, Err(CrdtError::InvalidInput(_))));
    assert_eq!(pn, PNCounter::new());
    pn.decrement("n", i64::MAX);
    assert!(pn.try_increment("n", -1).is_err());
    assert!(pn.try_increment("n", 1).is_ok());
    assert_eq!(pn.value(), 1 - i64::MAX);
}

#[test]
fn exhausted_clocks_refuse_deltas() {
    let mut clock = VectorClock::new();
    clock.clocks.insert("n".to_string(), (u64::MAX - 1, 0));
    assert!(clock.has_room("n", 1));
    assert!(!clock.has_room("n", 2));
    assert!(clock.has_room("m", usize::MAX));

    let mut s: GSet<String> = GSet::new();
    s.vclock = clock.clone();
    let before = s.clone();
    let r = GSetDelta::List(texts(&["a", "b"])).apply(&mut s, "n");
    assert!(matches!(r, Err(CrdtError::InvalidInput(_))));
    assert_eq!(s, before);
    GSetDelta::List(texts(&["a"])).apply(&mut s, "n").unwrap();
    assert_eq!(s.vclock.counter("n"), u64::MAX);

    let mut r: MVRegister<String> = MVRegister::new();
    r.vclock.clocks.insert("n".to_string(), (u64::MAX, 0));
    let out = MVRegisterDelta::Direct("x".to_string()).apply(&mut r, "n");
    assert!(matches!(out, Err(CrdtError::InvalidInput(_))));
    assert!(r.is_empty());
}

#[test]
fn set_deltas_add_and_remove() {
    let mut g: GSet<String> = GSet::new();
    g.insert("n", "a".to_string());
    GSetDelta::List(texts(&["b", "a", "b"])).apply(&mut g, "n").unwrap();
    GSetDelta::Object { add: texts(&["c"]) }.apply(&mut g, "m").unwrap();
    assert_eq!(g.iter(), texts(&["a", "b", "c"]));
    // One tick for each element that was new.
    assert_eq!(g.vclock.counter("n"), 2);
    assert_eq!(g.vclock.counter("m"), 1);

    let mut o: ORSet<String> = ORSet::new();
    o.insert("n", "a".to_string());
    let delta = ORSetDelta { add: Some(texts(&["b", "c"])), remove: Some(texts(&["a", "c"])) };
    delta.apply(&mut o, "n").unwrap();
    assert_eq!(o.iter(), texts(&["b"]));
    assert_eq!(o.elements.keys(), vec![("b".to_string(), ("n".to_string(), 2u64))]);
    assert_eq!(o.vclock.counter("n"), 3);
    ORSetDelta { add: None, remove: None }.apply(&mut o, "n").unwrap();
    assert_eq!(o.iter(), texts(&["b"]));

    let mut l: LWWSet<String> = LWWSet::new();
    let delta = LWWSetDelta {
        add: Some(texts(&["a", "b", "a"])),
        remove: Some(texts(&["b"])),
        timestamp: 9,
    };
    delta.apply(&mut l, "n").unwrap();
    // The remove of b has the tag of its add, so the add does not outrank it.
    assert_eq!(l.iter(), texts(&["a"]));
    assert_eq!(l.vclock.counter("n"), 3);
    let later = LWWSetDelta { add: Some(texts(&["b"])), remove: None, timestamp: 10 };
    later.apply(&mut l, "n").unwrap();
    assert_eq!(l.iter(), texts(&["a", "b"]));
}

#[test]
fn register_deltas_offer_their_write() {
    let mut lww = LWWRegister::new("a".to_string(), 5, "n");
    LWWRegisterDelta { value: "b".to_string(), timestamp: 4 }.apply(&mut lww, "n").unwrap();
    assert_eq!(lww.value, "a");
    LWWRegisterDelta { value: "c".to_string(), timestamp: 6 }.apply(&mut lww, "m").unwrap();
    assert_eq!((lww.value.as_str(), lww.timestamp, lww.node_id.as_str()), ("c", 6, "m"));

    let mut fww = FWWRegister::new("a".to_string(), 5, "n");
    FWWRegisterDelta { value: "b".to_string(), timestamp: 6 }.apply(&mut fww, "n").unwrap();
    assert_eq!(fww.value, "a");
    FWWRegisterDelta { value: "c".to_string(), timestamp: 4 }.apply(&mut fww, "m").unwrap();
    assert_eq!((fww.value.as_str(), fww.timestamp, fww.node_id.as_str()), ("c", 4, "m"));

    let mut mv: MVRegister<String> = MVRegister::new();
    MVRegisterDelta::Direct("x".to_string()).apply(&mut mv, "n").unwrap();
    MVRegisterDelta::Object { value: "y".to_string() }.apply(&mut mv, "n").unwrap();
    assert_eq!(mv.versions(), texts(&["y"]));
}

#[test]
fn map_deltas_write_and_remove() {
    let pairs = |items: &[(&str, &str)]| -> Vec<(String, String)> {
        items.iter().map(|(k, v)| (k.to_string(), v.to_string())).collect()
    };
    let mut l: LWWMap<String, String> = LWWMap::new();
    let delta = LWWMapDelta {
        set: Some(pairs(&[("k1", "a"), ("k2", "b"), ("k1", "c")])),
        remove: Some(texts(&["k2"])),
        timestamp: 7,
    };
    delta.apply(&mut l, "n").unwrap();
    // Same timestamp and node: the higher value of k1 wins.
    assert_eq!(l.get(&"k1".to_string()), Some(&"c".to_string()));
    assert_eq!(l.get(&"k2".to_string()), None);
    assert_eq!(l.vclock.counter("n"), 3);
    let stale = LWWMapDelta { set: Some(pairs(&[("k1", "z")])), remove: None, timestamp: 6 };
    stale.apply(&mut l, "n").unwrap();
    assert_eq!(l.get(&"k1".to_string()), Some(&"c".to_string()));
    assert_eq!(l.vclock.counter("n"), 3);

    let mut o: ORMap<String, String> = ORMap::new();
    let delta = ORMapDelta {
        set: Some(pairs(&[("k1", "a"), ("k2", "b"), ("k1", "c")])),
        remove: Some(texts(&["k2"])),
    };
    delta.apply(&mut o, "n").unwrap();
    assert_eq!(o.get_concurrent(&"k1".to_string()), texts(&["c"]));
    assert_eq!(o.get_concurrent(&"k2".to_string()), Vec::<String>::new());
    assert_eq!(o.vclock.counter("n"), 3);
    assert_eq!(o.elements.vclock.counter("n"), 3);
    assert_eq!(
        o.elements.elements.keys(),
        vec![(("k1".to_string(), "c".to_string()), ("n".to_string(), 3u64))]
    );
}

#[test]
fn counters_add_up_state_by_state() {
    let mut a = GCounter::new();
    a.increment("node1", 10);
    let mut b = GCounter::new();
    b.increment("node1", 5);
    b.increment("node2", 2);
    assert!(a.check_add(&b));
    a.add_state(&b);
    assert_eq!(a.count("node1"), 15);
    assert_eq!(a.count("node2"), 2);
    assert_eq!(a.value(), 17);

    let mut full = GCounter::new();
    full.increment("node1", i64::MAX);
    assert!(!full.check_add(&b));
    let mut other = GCounter::new();
    other.increment("node3", 1);
    assert!(full.check_add(&other));

    let mut p = PNCounter::new();
    p.increment("node1", 10);
    p.decrement("node1", 2);
    let mut q = PNCounter::new();
    q.increment("node1", 5);
    q.decrement("node1", 1);
    p.add_state(&q);
    assert_eq!(p.positive.count("node1"), 15);
    assert_eq!(p.negative.count("node1"), 3);
    assert_eq!(p.value(), 12);
}
