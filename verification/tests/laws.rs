use crdt_data_types::{
    Crdt, FWWRegister, FWWRegisterReader, GCounter, GCounterReader, GSet, GSetReader, LWWMap,
    LWWMapReader, LWWRegister, LWWRegisterReader, LWWSet, LWWSetReader, MVRegister,
    MVRegisterReader, ORMap, ORMapReader, ORSet, ORSetReader, PNCounter, PNCounterReader, Replica,
    VectorClock, VectorClockReader,
};

fn clocks() -> (VectorClock, VectorClock, VectorClock) {
    let mut a = VectorClock::new();
    a.increment_at("n1", 10);
    a.increment_at("n1", 30);
    a.increment_at("n2", 20);
    let mut b = VectorClock::new();
    b.increment_at("n2", 25);
    b.increment_at("n3", 5);
    let mut c = VectorClock::new();
    c.increment_at("n1", 40);
    c.increment_at("n4", 50);
    (a, b, c)
}

fn counters() -> (GCounter, GCounter, GCounter) {
    let mut a = GCounter::new();
    a.increment("n1", 5);
    a.increment("n2", 1);
    let mut b = GCounter::new();
    b.increment("n1", 2);
    b.increment("n3", 9);
    let mut c = GCounter::new();
    c.increment("n2", 4);
    c.increment("n2", 4);
    (a, b, c)
}

fn signed() -> (PNCounter, PNCounter, PNCounter) {
    let mut a = PNCounter::new();
    a.increment("n1", 5);
    a.decrement("n2", 1);
    let mut b = PNCounter::new();
    b.decrement("n1", 2);
    b.increment("n3", 9);
    let mut c = PNCounter::new();
    c.increment("n2", -4);
    c.decrement("n2", -7);
    (a, b, c)
}

fn gsets() -> (GSet<String>, GSet<String>, GSet<String>) {
    let mut a = GSet::new();
    a.insert("n1", "x".to_string());
    a.insert("n1", "y".to_string());
    let mut b = GSet::new();
    b.insert("n2", "y".to_string());
    b.insert("n2", "z".to_string());
    let mut c = GSet::new();
    c.insert("n3", "w".to_string());
    (a, b, c)
}

fn orsets() -> (ORSet<String>, ORSet<String>, ORSet<String>) {
    let mut a = ORSet::new();
    a.insert("n1", "x".to_string());
    a.insert("n1", "y".to_string());
    let mut b = a.clone();
    b.remove(&"x".to_string());
    b.insert("n2", "z".to_string());
    a.insert("n1", "x".to_string());
    let mut c = b.clone();
    c.remove(&"y".to_string());
    c.insert("n3", "x".to_string());
    (a, b, c)
}

fn ormaps() -> (ORMap<String, i64>, ORMap<String, i64>, ORMap<String, i64>) {
    let mut a = ORMap::new();
    a.insert("n1", "k1".to_string(), 1);
    a.insert("n1", "k2".to_string(), 2);
    let mut b = a.clone();
    b.insert("n2", "k1".to_string(), 10);
    a.insert("n1", "k1".to_string(), 11);
    let mut c = b.clone();
    c.remove(&"k2".to_string());
    c.insert("n3", "k3".to_string(), 3);
    (a, b, c)
}

fn mvregs() -> (MVRegister<String>, MVRegister<String>, MVRegister<String>) {
    let mut a = MVRegister::new();
    a.set("n1", "x".to_string());
    let mut b = a.clone();
    b.set("n2", "y".to_string());
    a.set("n1", "z".to_string());
    let mut c = MVRegister::new();
    c.set("n3", "x".to_string());
    (a, b, c)
}

fn lwwregs() -> (LWWRegister<String>, LWWRegister<String>, LWWRegister<String>) {
    let a = LWWRegister::new("x".to_string(), 7, "n1");
    let b = LWWRegister::new("y".to_string(), 7, "n2");
    let mut c = LWWRegister::new("z".to_string(), 3, "n3");
    c.set("w".to_string(), 7, "n2");
    (a, b, c)
}

fn fwwregs() -> (FWWRegister<String>, FWWRegister<String>, FWWRegister<String>) {
    let a = FWWRegister::new("x".to_string(), 7, "n1");
    let b = FWWRegister::new("y".to_string(), 7, "n2");
    let mut c = FWWRegister::new("z".to_string(), 9, "n3");
    c.set("w".to_string(), 7, "n1");
    (a, b, c)
}

fn lwwmaps() -> (LWWMap<String, String>, LWWMap<String, String>, LWWMap<String, String>) {
    let mut a = LWWMap::new();
    a.insert("n1", "k1".to_string(), "a".to_string(), 5);
    a.insert("n1", "k2".to_string(), "b".to_string(), 5);
    let mut b = LWWMap::new();
    b.insert("n2", "k1".to_string(), "c".to_string(), 5);
    b.insert("n2", "k3".to_string(), "d".to_string(), 1);
    let mut c = LWWMap::new();
    c.insert("n1", "k1".to_string(), "e".to_string(), 5);
    c.insert("n3", "k2".to_string(), "f".to_string(), 9);
    (a, b, c)
}

fn lwwsets() -> (LWWSet<String>, LWWSet<String>, LWWSet<String>) {
    let mut a = LWWSet::new();
    a.insert("n1", "x".to_string(), 5);
    a.remove("n1", "y".to_string(), 6);
    let mut b = LWWSet::new();
    b.insert("n2", "y".to_string(), 6);
    b.remove("n2", "x".to_string(), 4);
    let mut c = LWWSet::new();
    c.insert("n3", "y".to_string(), 7);
    c.remove("n3", "x".to_string(), 5);
    (a, b, c)
}

#[test]
fn clock_merge_is_a_semilattice() {
    let (a, b, c) = clocks();
    let mut aa = a.clone();
    aa.merge(&a);
    assert_eq!(aa, a);
    let mut ab = a.clone();
    ab.merge(&b);
    let mut ba = b.clone();
    ba.merge(&a);
    assert_eq!(ab, ba);
    assert_eq!(ab.counter("n1"), 2);
    assert_eq!(ab.counter("n2"), 1);
    assert_eq!(ab.counter("n3"), 1);
    let mut ab_c = ab.clone();
    ab_c.merge(&c);
    let mut bc = b.clone();
    bc.merge(&c);
    let mut a_bc = a.clone();
    a_bc.merge(&bc);
    assert_eq!(ab_c, a_bc);
    // Timestamps merge by maximum too.
    assert_eq!(ab.clocks.get(&"n2".to_string()), Some(&(1u64, 25u64)));
}

#[test]
fn counter_merge_is_a_semilattice() {
    let (a, b, c) = counters();
    let mut aa = a.clone();
    aa.merge(&a);
    assert_eq!(aa, a);
    let mut ab = a.clone();
    ab.merge(&b);
    let mut ba = b.clone();
    ba.merge(&a);
    assert_eq!(ab, ba);
    // Per node the larger count, not the sum: 5, 1, 9.
    assert_eq!(ab.value(), 15);
    let mut ab_c = ab.clone();
    ab_c.merge(&c);
    let mut bc = b.clone();
    bc.merge(&c);
    let mut a_bc = a.clone();
    a_bc.merge(&bc);
    assert_eq!(ab_c, a_bc);
    assert_eq!(ab_c.value(), 22);
}

#[test]
fn signed_counter_merge_is_a_semilattice() {
    let (a, b, c) = signed();
    let mut aa = a.clone();
    aa.merge(&a);
    assert_eq!(aa, a);
    let mut ab = a.clone();
    ab.merge(&b);
    let mut ba = b.clone();
    ba.merge(&a);
    assert_eq!(ab, ba);
    assert_eq!(ab.value(), 14 - 3);
    let mut ab_c = ab.clone();
    ab_c.merge(&c);
    let mut bc = b.clone();
    bc.merge(&c);
    let mut a_bc = a.clone();
    a_bc.merge(&bc);
    assert_eq!(ab_c, a_bc);
}

#[test]
fn gset_merge_is_a_semilattice() {
    let (a, b, c) = gsets();
    let mut aa = a.clone();
    aa.merge(&a);
    assert_eq!(aa, a);
    let mut ab = a.clone();
    ab.merge(&b);
    let mut ba = b.clone();
    ba.merge(&a);
    assert_eq!(ab, ba);
    assert_eq!(ab.iter(), vec!["x".to_string(), "y".to_string(), "z".to_string()]);
    assert_eq!(ab.len(), 3);
    let mut ab_c = ab.clone();
    ab_c.merge(&c);
    let mut bc = b.clone();
    bc.merge(&c);
    let mut a_bc = a.clone();
    a_bc.merge(&bc);
    assert_eq!(ab_c, a_bc);
}

#[test]
fn orset_merge_is_a_semilattice() {
    let (a, b, c) = orsets();
    let mut aa = a.clone();
    aa.merge(&a);
    assert_eq!(aa, a);
    let mut ab = a.clone();
    ab.merge(&b);
    let mut ba = b.clone();
    ba.merge(&a);
    assert_eq!(ab, ba);
    assert_eq!(ab.iter(), vec!["x".to_string(), "y".to_string(), "z".to_string()]);
    let mut ab_c = ab.clone();
    ab_c.merge(&c);
    let mut bc = b.clone();
    bc.merge(&c);
    let mut a_bc = a.clone();
    a_bc.merge(&bc);
    assert_eq!(ab_c, a_bc);
    // c removed "y" after seeing it, and nobody added it again.
    assert!(!ab_c.contains(&"y".to_string()));
    assert!(ab_c.contains(&"x".to_string()));
}

#[test]
fn ormap_merge_is_a_semilattice() {
    let (a, b, c) = ormaps();
    let mut aa = a.clone();
    aa.merge(&a);
    assert_eq!(aa, a);
    let mut ab = a.clone();
    ab.merge(&b);
    let mut ba = b.clone();
    ba.merge(&a);
    assert_eq!(ab, ba);
    // Two writes to k1 that did not see each other both stay.
    assert_eq!(ab.get_concurrent(&"k1".to_string()), vec![10, 11]);
    assert_eq!(ab.get_concurrent(&"k2".to_string()), vec![2]);
    let mut ab_c = ab.clone();
    ab_c.merge(&c);
    let mut bc = b.clone();
    bc.merge(&c);
    let mut a_bc = a.clone();
    a_bc.merge(&bc);
    assert_eq!(ab_c, a_bc);
    assert_eq!(ab_c.get_concurrent(&"k2".to_string()), Vec::<i64>::new());
    assert_eq!(ab_c.get_concurrent(&"k3".to_string()), vec![3]);
}

#[test]
fn mvregister_merge_is_a_semilattice() {
    let (a, b, c) = mvregs();
    let mut aa = a.clone();
    aa.merge(&a);
    assert_eq!(aa, a);
    let mut ab = a.clone();
    ab.merge(&b);
    let mut ba = b.clone();
    ba.merge(&a);
    assert_eq!(ab, ba);
    assert_eq!(ab.versions(), vec!["y".to_string(), "z".to_string()]);
    let mut ab_c = ab.clone();
    ab_c.merge(&c);
    let mut bc = b.clone();
    bc.merge(&c);
    let mut a_bc = a.clone();
    a_bc.merge(&bc);
    assert_eq!(ab_c, a_bc);
}

#[test]
fn lwwregister_merge_is_a_semilattice() {
    let (a, b, c) = lwwregs();
    let mut aa = a.clone();
    aa.merge(&a);
    assert_eq!(aa, a);
    let mut ab = a.clone();
    ab.merge(&b);
    let mut ba = b.clone();
    ba.merge(&a);
    assert_eq!(ab, ba);
    // Same timestamp: the higher node wins.
    assert_eq!(ab.value, "y");
    let mut ab_c = ab.clone();
    ab_c.merge(&c);
    let mut bc = b.clone();
    bc.merge(&c);
    let mut a_bc = a.clone();
    a_bc.merge(&bc);
    assert_eq!(ab_c, a_bc);
    // Same timestamp and node: the higher value wins.
    assert_eq!(ab_c.value, "y");
    assert_eq!(bc.value, "y");
}

#[test]
fn fwwregister_merge_is_a_semilattice() {
    let (a, b, c) = fwwregs();
    let mut aa = a.clone();
    aa.merge(&a);
    assert_eq!(aa, a);
    let mut ab = a.clone();
    ab.merge(&b);
    let mut ba = b.clone();
    ba.merge(&a);
    assert_eq!(ab, ba);
    // Same timestamp: the lower node wins.
    assert_eq!(ab.value, "x");
    let mut ab_c = ab.clone();
    ab_c.merge(&c);
    let mut bc = b.clone();
    bc.merge(&c);
    let mut a_bc = a.clone();
    a_bc.merge(&bc);
    assert_eq!(ab_c, a_bc);
    // Same timestamp and node: the lower value wins.
    assert_eq!(ab_c.value, "w");
    let mut ac = a.clone();
    ac.merge(&c);
    let mut ca = c.clone();
    ca.merge(&a);
    assert_eq!(ac, ca);
}

#[test]
fn lwwmap_merge_is_a_semilattice() {
    let (a, b, c) = lwwmaps();
    let mut aa = a.clone();
    aa.merge(&a);
    assert_eq!(aa, a);
    let mut ab = a.clone();
    ab.merge(&b);
    let mut ba = b.clone();
    ba.merge(&a);
    assert_eq!(ab, ba);
    assert_eq!(ab.get(&"k1".to_string()), Some(&"c".to_string()));
    let mut ab_c = ab.clone();
    ab_c.merge(&c);
    let mut bc = b.clone();
    bc.merge(&c);
    let mut a_bc = a.clone();
    a_bc.merge(&bc);
    assert_eq!(ab_c, a_bc);
    assert_eq!(ab_c.get(&"k1".to_string()), Some(&"c".to_string()));
    assert_eq!(ab_c.get(&"k2".to_string()), Some(&"f".to_string()));
    assert_eq!(ab_c.get(&"k3".to_string()), Some(&"d".to_string()));
    // Same timestamp and node: the higher value wins.
    let mut ac = a.clone();
    ac.merge(&c);
    assert_eq!(ac.get(&"k1".to_string()), Some(&"e".to_string()));
}

#[test]
fn lwwset_merge_is_a_semilattice() {
    let (a, b, c) = lwwsets();
    let mut aa = a.clone();
    aa.merge(&a);
    assert_eq!(aa, a);
    let mut ab = a.clone();
    ab.merge(&b);
    let mut ba = b.clone();
    ba.merge(&a);
    assert_eq!(ab, ba);
    // x: add 5 against remove 4. y: add (6, n2) against remove (6, n1).
    assert_eq!(ab.iter(), vec!["x".to_string(), "y".to_string()]);
    let mut ab_c = ab.clone();
    ab_c.merge(&c);
    let mut bc = b.clone();
    bc.merge(&c);
    let mut a_bc = a.clone();
    a_bc.merge(&bc);
    assert_eq!(ab_c, a_bc);
    // x: add (5, n1) against remove (5, n3): the remove ranks higher.
    assert_eq!(ab_c.iter(), vec!["y".to_string()]);
    assert!(!ab_c.contains(&"x".to_string()));
}

#[test]
fn encodings_round_trip() {
    let (a, _, _) = clocks();
    assert_eq!(VectorClock::from_bytes(&a.to_capnp_bytes()).unwrap(), a);
    let (a, _, _) = counters();
    assert_eq!(GCounter::from_bytes(&a.to_capnp_bytes()).unwrap(), a);
    let (a, _, _) = signed();
    assert_eq!(PNCounter::from_bytes(&a.to_capnp_bytes()).unwrap(), a);
    let (a, _, _) = gsets();
    assert_eq!(GSet::<String>::from_bytes(&a.to_capnp_bytes()).unwrap(), a);
    let (a, _, _) = orsets();
    assert_eq!(ORSet::<String>::from_bytes(&a.to_capnp_bytes()).unwrap(), a);
    let (a, _, _) = ormaps();
    assert_eq!(ORMap::<String, i64>::from_bytes(&a.to_capnp_bytes()).unwrap(), a);
    let (a, _, _) = mvregs();
    assert_eq!(MVRegister::<String>::from_bytes(&a.to_capnp_bytes()).unwrap(), a);
    let (a, _, _) = lwwregs();
    assert_eq!(LWWRegister::<String>::from_bytes(&a.to_capnp_bytes()).unwrap(), a);
    let (a, _, _) = fwwregs();
    assert_eq!(FWWRegister::<String>::from_bytes(&a.to_capnp_bytes()).unwrap(), a);
    let (a, _, _) = lwwmaps();
    assert_eq!(LWWMap::<String, String>::from_bytes(&a.to_capnp_bytes()).unwrap(), a);
    let (a, _, _) = lwwsets();
    assert_eq!(LWWSet::<String>::from_bytes(&a.to_capnp_bytes()).unwrap(), a);
}

#[test]
fn merging_from_buffers_agrees_with_merging_values() {
    let (a, b, _) = clocks();
    let (x, y) = (a.to_capnp_bytes(), b.to_capnp_bytes());
    let mut want = a.clone();
    want.merge(&b);
    let got = VectorClock::merge_from_readers(&[
        VectorClockReader::new(&x),
        VectorClockReader::new(&y),
    ]);
    assert_eq!(got.unwrap(), want);

    let (a, b, _) = counters();
    let (x, y) = (a.to_capnp_bytes(), b.to_capnp_bytes());
    let mut want = a.clone();
    want.merge(&b);
    let got = GCounter::merge_from_readers(&[GCounterReader::new(&x), GCounterReader::new(&y)]);
    assert_eq!(got.unwrap(), want);

    let (a, b, _) = signed();
    let (x, y) = (a.to_capnp_bytes(), b.to_capnp_bytes());
    let mut want = a.clone();
    want.merge(&b);
    let got = PNCounter::merge_from_readers(&[PNCounterReader::new(&x), PNCounterReader::new(&y)]);
    assert_eq!(got.unwrap(), want);

    let (a, b, _) = gsets();
    let (x, y) = (a.to_capnp_bytes(), b.to_capnp_bytes());
    let mut want = a.clone();
    want.merge(&b);
    let got = GSet::merge_from_readers(&[GSetReader::new(&x), GSetReader::new(&y)]);
    assert_eq!(got.unwrap(), want);

    let (a, b, _) = orsets();
    let (x, y) = (a.to_capnp_bytes(), b.to_capnp_bytes());
    let mut want = a.clone();
    want.merge(&b);
    let got = ORSet::merge_from_readers(&[ORSetReader::new(&x), ORSetReader::new(&y)]);
    assert_eq!(got.unwrap(), want);

    let (a, b, _) = ormaps();
    let (x, y) = (a.to_capnp_bytes(), b.to_capnp_bytes());
    let mut want = a.clone();
    want.merge(&b);
    let got = ORMap::merge_from_readers(&[ORMapReader::new(&x), ORMapReader::new(&y)]);
    assert_eq!(got.unwrap(), want);

    let (a, b, _) = mvregs();
    let (x, y) = (a.to_capnp_bytes(), b.to_capnp_bytes());
    let mut want = a.clone();
    want.merge(&b);
    let got = MVRegister::merge_from_readers(&[
        MVRegisterReader::new(&x),
        MVRegisterReader::new(&y),
    ]);
    assert_eq!(got.unwrap(), want);

    let (a, b, _) = lwwregs();
    let (x, y) = (a.to_capnp_bytes(), b.to_capnp_bytes());
    let mut want = a.clone();
    want.merge(&b);
    let got = LWWRegister::merge_from_readers(&[
        LWWRegisterReader::new(&x),
        LWWRegisterReader::new(&y),
    ]);
    assert_eq!(got.unwrap(), want);

    let (a, b, _) = fwwregs();
    let (x, y) = (a.to_capnp_bytes(), b.to_capnp_bytes());
    let mut want = a.clone();
    want.merge(&b);
    let got = FWWRegister::merge_from_readers(&[
        FWWRegisterReader::new(&x),
        FWWRegisterReader::new(&y),
    ]);
    assert_eq!(got.unwrap(), want);

    let (a, b, _) = lwwmaps();
    let (x, y) = (a.to_capnp_bytes(), b.to_capnp_bytes());
    let mut want = a.clone();
    want.merge(&b);
    let got = LWWMap::merge_from_readers(&[LWWMapReader::new(&x), LWWMapReader::new(&y)]);
    assert_eq!(got.unwrap(), want);

    let (a, b, _) = lwwsets();
    let (x, y) = (a.to_capnp_bytes(), b.to_capnp_bytes());
    let mut want = a.clone();
    want.merge(&b);
    let got = LWWSet::merge_from_readers(&[LWWSetReader::new(&x), LWWSetReader::new(&y)]);
    assert_eq!(got.unwrap(), want);
}
