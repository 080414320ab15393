use crdt_data_types::{
    FWWRegister, GCounter, LWWRegister, MVRegister, ORSet, VectorClock,
};

#[test]
fn counter_scenario_sums_and_stays() {
    let mut a = GCounter::new();
    a.increment("a", 5);
    let mut b = GCounter::new();
    b.increment("b", 3);

    let mut merged = a.clone();
    merged.merge(&b);
    assert_eq!(merged.value(), 8);

    let mut again = merged.clone();
    again.merge(&a);
    assert_eq!(again.value(), 8);
    again.merge(&b);
    assert_eq!(again.value(), 8);
    assert_eq!(again, merged);
}

#[test]
fn orset_scenario_fresh_dot_survives_remove() {
    let mut r1 = ORSet::new();
    r1.insert("n1", "apple".to_string());
    // Replica 2 forks before the remove.
    let mut r2 = r1.clone();
    r1.remove(&"apple".to_string());
    // Replica 2 adds again under a dot that replica 1 has not seen.
    r2.insert("n1", "apple".to_string());

    let mut one_way = r2.clone();
    one_way.merge(&r1);
    let mut other_way = r1.clone();
    other_way.merge(&r2);

    assert!(one_way.contains(&"apple".to_string()));
    assert!(other_way.contains(&"apple".to_string()));
    assert_eq!(one_way, other_way);
    assert_eq!(one_way.len(), 1);
}

#[test]
fn orset_scenario_seen_dot_stays_removed() {
    let mut r1 = ORSet::new();
    r1.insert("n1", "apple".to_string());
    r1.remove(&"apple".to_string());
    // Replica 2 never saw replica 1 and mints the same dot.
    let mut r2 = ORSet::new();
    r2.insert("n1", "apple".to_string());

    let mut one_way = r2.clone();
    one_way.merge(&r1);
    let mut other_way = r1.clone();
    other_way.merge(&r2);

    assert!(!one_way.contains(&"apple".to_string()));
    assert!(!other_way.contains(&"apple".to_string()));
    assert_eq!(one_way.len(), 0);
    assert!(one_way.is_empty());
    assert_eq!(one_way.elements, other_way.elements);
}

#[test]
fn lww_scenario_higher_timestamp_wins_both_ways() {
    let a = LWWRegister::new("v1".to_string(), 100, "a");
    let b = LWWRegister::new("v2".to_string(), 200, "b");

    let mut ab = a.clone();
    ab.merge(&b);
    assert_eq!(ab.value, "v2");
    assert_eq!(ab.timestamp, 200);
    assert_eq!(ab.node_id, "b");

    let mut ba = b.clone();
    ba.merge(&a);
    assert_eq!(ba.value, "v2");
    assert_eq!(ab, ba);
}

#[test]
fn fww_scenario_lower_timestamp_wins() {
    let mut a = FWWRegister::new("v1".to_string(), 100, "a");
    let b = FWWRegister::new("v2".to_string(), 50, "b");
    a.merge(&b);
    assert_eq!(a.value, "v2");
    assert_eq!(a.timestamp, 50);

    let mut c = FWWRegister::new("value1".to_string(), 100, "node_a");
    let d = FWWRegister::new("value2".to_string(), 200, "node_b");
    c.merge(&d);
    assert_eq!(c.value, "value1");
}

#[test]
fn mv_scenario_concurrent_writes_stay_until_overwritten() {
    let mut a = MVRegister::new();
    a.set("a", "x".to_string());
    let mut b = MVRegister::new();
    b.set("b", "y".to_string());

    a.merge(&b);
    assert_eq!(a.versions(), vec!["x".to_string(), "y".to_string()]);

    let mut on_a = a.clone();
    on_a.set("a", "z".to_string());
    assert_eq!(on_a.versions(), vec!["z".to_string()]);

    let mut on_b = b.clone();
    on_b.merge(&a);
    assert_eq!(on_b.versions(), vec!["x".to_string(), "y".to_string()]);
    on_b.set("b", "w".to_string());
    assert_eq!(on_b.versions(), vec!["w".to_string()]);
}

#[test]
fn clock_scenario_precedes_and_concurrent() {
    let mut a1 = VectorClock::new();
    a1.increment("a");
    let mut a1b1 = a1.clone();
    a1b1.increment("b");
    assert!(a1.happens_before(&a1b1));
    assert!(!a1b1.happens_before(&a1));

    let mut a2 = a1.clone();
    a2.increment("a");
    assert!(!a2.happens_before(&a1b1));
    assert!(!a1b1.happens_before(&a2));
}
