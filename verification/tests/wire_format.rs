use crdt_data_types::{Element, GCounter, LWWRegister, ORSet, OrderedMap, Replica, VectorClock};

fn encoded<T: Element>(value: &T) -> Vec<u8> {
    let mut out = Vec::new();
    value.encode(&mut out);
    out
}

#[test]
fn elements_have_the_bytes_that_bincode_gives_them() {
    for v in [0u64, 1, 255, 256, u64::MAX] {
        assert_eq!(encoded(&v), bincode::serialize(&v).unwrap());
    }
    for v in [0i64, 1, -1, i64::MIN, i64::MAX, -256] {
        assert_eq!(encoded(&v), bincode::serialize(&v).unwrap());
    }
    for v in ["", "a", "node_1", "grüße, 世界"] {
        let text = v.to_string();
        assert_eq!(encoded(&text), bincode::serialize(&text).unwrap());
    }
    let pair = ("key".to_string(), (7u64, "value".to_string()));
    assert_eq!(encoded(&pair), bincode::serialize(&pair).unwrap());
    assert_eq!(encoded(&()), bincode::serialize(&()).unwrap());
}

#[test]
fn elements_are_read_from_the_bytes_that_bincode_writes() {
    let text = "grüße".to_string();
    let bytes = bincode::serialize(&text).unwrap();
    assert_eq!(String::decode(&bytes, 0), Some((text, bytes.len())));
    let bytes = bincode::serialize(&-5i64).unwrap();
    assert_eq!(i64::decode(&bytes, 0), Some((-5, 8)));
    let pair = (3u64, "x".to_string());
    let bytes = bincode::serialize(&pair).unwrap();
    assert_eq!(<(u64, String)>::decode(&bytes, 0), Some((pair, bytes.len())));
}

#[test]
fn a_map_has_the_bytes_of_its_list_of_entries() {
    let entries = vec![("a".to_string(), 1i64), ("b".to_string(), -2)];
    let map = OrderedMap::from_entries(entries.clone()).unwrap();
    let mut out = Vec::new();
    map.encode(&mut out);
    assert_eq!(out, bincode::serialize(&entries).unwrap());
}

#[test]
fn states_have_the_bytes_of_their_parts_in_order() {
    let mut clock = VectorClock::new();
    clock.increment_at("a", 10);
    clock.increment_at("b", 20);
    let as_list = vec![("a".to_string(), (1u64, 10u64)), ("b".to_string(), (1u64, 20u64))];
    assert_eq!(clock.to_capnp_bytes(), bincode::serialize(&as_list).unwrap());

    let mut counter = GCounter::new();
    counter.increment("a", 5);
    let clock_list: Vec<(String, (u64, u64))> = counter
        .vclock
        .clocks
        .keys()
        .into_iter()
        .map(|node| {
            let entry = *counter.vclock.clocks.get(&node).unwrap();
            (node, entry)
        })
        .collect();
    let parts = (vec![("a".to_string(), 5i64)], clock_list);
    assert_eq!(counter.to_capnp_bytes(), bincode::serialize(&parts).unwrap());

    let mut register = LWWRegister::new("v".to_string(), 9, "n");
    register.vclock = VectorClock::new();
    let parts = ("v".to_string(), 9u64, "n".to_string(), Vec::<(String, (u64, u64))>::new());
    assert_eq!(register.to_capnp_bytes(), bincode::serialize(&parts).unwrap());

    let mut set: ORSet<String> = ORSet::new();
    set.insert("n", "x".to_string());
    set.vclock = VectorClock::new();
    let parts = (
        vec![(("x".to_string(), ("n".to_string(), 1u64)), ())],
        Vec::<(String, (u64, u64))>::new(),
    );
    assert_eq!(set.to_capnp_bytes(), bincode::serialize(&parts).unwrap());
}
