use crdt_data_types::maximum::{raise, Greatest};
use crdt_data_types::text::{bytes_less, text_less, text_same};
use crdt_data_types::{Element, OrderedMap};

#[test]
fn entries_stand_in_key_order() {
    let mut m: OrderedMap<String, u64> = OrderedMap::new();
    assert!(m.is_empty());
    for (k, v) in [("m", 1u64), ("c", 2), ("x", 3), ("a", 4), ("q", 5), ("c", 6)] {
        m.insert(k.to_string(), v);
    }
    assert_eq!(m.len(), 5);
    assert_eq!(m.keys(), vec!["a", "c", "m", "q", "x"]);
    assert_eq!(m.key_at(1), "c");
    assert_eq!(*m.value_at(1), 6);
    assert_eq!(m.get(&"q".to_string()), Some(&5));
    assert_eq!(m.get(&"b".to_string()), None);
    assert!(m.contains_key(&"x".to_string()));
    assert!(!m.contains_key(&"z".to_string()));
    assert!(m.check());

    assert!(m.remove(&"m".to_string()));
    assert!(!m.remove(&"m".to_string()));
    assert_eq!(m.keys(), vec!["a", "c", "q", "x"]);
    m.clear();
    assert!(m.is_empty());
    assert_eq!(m, OrderedMap::new());
}

#[test]
fn a_map_is_made_only_of_ascending_entries() {
    let good = vec![(1u64, 10u64), (2, 20), (5, 50)];
    let m = OrderedMap::from_entries(good).unwrap();
    assert_eq!(m.keys(), vec![1, 2, 5]);
    assert!(OrderedMap::from_entries(vec![(2u64, 0u64), (1, 0)]).is_none());
    assert!(OrderedMap::from_entries(vec![(1u64, 0u64), (1, 0)]).is_none());
    assert!(OrderedMap::<u64, u64>::from_entries(vec![]).is_some());
}

#[test]
fn join_keeps_the_greater_value_of_shared_keys() {
    let mut a = OrderedMap::from_entries(vec![(1u64, 5i64), (3, 1), (4, 9)]).unwrap();
    let b = OrderedMap::from_entries(vec![(0u64, 2i64), (3, 7), (4, 3), (8, 1)]).unwrap();
    a.join::<Greatest>(&b);
    let want = OrderedMap::from_entries(vec![(0u64, 2i64), (1, 5), (3, 7), (4, 9), (8, 1)]);
    assert_eq!(a, want.unwrap());
    let mut empty: OrderedMap<u64, i64> = OrderedMap::new();
    empty.join::<Greatest>(&b);
    assert_eq!(empty, b);
    let before = a.clone();
    a.join::<Greatest>(&OrderedMap::new());
    assert_eq!(a, before);
}

#[test]
fn raise_takes_only_a_greater_value() {
    let mut m: OrderedMap<u64, u64> = OrderedMap::new();
    assert!(raise(&mut m, 1, 10));
    assert!(!raise(&mut m, 1, 10));
    assert!(!raise(&mut m, 1, 9));
    assert!(raise(&mut m, 1, 11));
    assert_eq!(m.get(&1), Some(&11));
}

#[test]
fn the_wire_form_of_a_map_is_its_count_and_entries() {
    let m = OrderedMap::from_entries(vec![(1u64, 2u64), (3, 4)]).unwrap();
    let mut out = Vec::new();
    m.encode(&mut out);
    let mut want: Vec<u8> = Vec::new();
    for word in [2u64, 1, 2, 3, 4] {
        want.extend_from_slice(&word.to_le_bytes());
    }
    assert_eq!(out, want);
    let (back, end) = OrderedMap::<u64, u64>::decode(&out, 0).unwrap();
    assert_eq!((back, end), (m, 40));
    assert!(OrderedMap::<u64, u64>::decode(&out[..39], 0).is_none());
    // A count that promises more entries than there are.
    let mut short = out.clone();
    short[0] = 3;
    assert!(OrderedMap::<u64, u64>::decode(&short, 0).is_none());
}

#[test]
fn elements_encode_as_words_and_counted_text() {
    let mut out = Vec::new();
    7u64.encode(&mut out);
    assert_eq!(out, 7u64.to_le_bytes());
    let mut out = Vec::new();
    (-1i64).encode(&mut out);
    assert_eq!(out, [0xffu8; 8]);
    let mut out = Vec::new();
    "hé".to_string().encode(&mut out);
    assert_eq!(out, vec![3, 0, 0, 0, 0, 0, 0, 0, b'h', 0xc3, 0xa9]);
    assert_eq!(String::decode(&out, 0), Some(("hé".to_string(), 11)));
    assert_eq!(String::decode(&out[..10], 0), None);
    let mut out = Vec::new();
    ("a".to_string(), 1u64).encode(&mut out);
    assert_eq!(<(String, u64)>::decode(&out, 0), Some((("a".to_string(), 1), 17)));
    assert_eq!(i64::decode(&[0u8; 8], 0), Some((0, 8)));
    assert_eq!(i64::decode(&[0, 0, 0, 0, 0, 0, 0, 0x80], 0), Some((i64::MIN, 8)));
}

#[test]
fn elements_are_ordered() {
    assert!(1u64.less(&2));
    assert!(!2u64.less(&2));
    assert!((-5i64).less(&3));
    assert!("a".to_string().less(&"b".to_string()));
    assert!("a".to_string().less(&"aa".to_string()));
    assert!(!"b".to_string().less(&"aa".to_string()));
    assert!((1u64, "z".to_string()).less(&(2u64, "a".to_string())));
    assert!((1u64, "a".to_string()).less(&(1u64, "b".to_string())));
    assert!(!(1u64, "b".to_string()).less(&(1u64, "b".to_string())));
    assert!((1u64, "b".to_string()).same(&(1u64, "b".to_string())));
    assert_eq!((3u64, "b".to_string()).duplicate(), (3u64, "b".to_string()));
    assert!(!().less(&()));

    assert!(bytes_less(b"", b"a"));
    assert!(!bytes_less(b"a", b""));
    assert!(bytes_less(b"ab", b"b"));
    assert!(text_less("node_0", "node_a"));
    assert!(!text_less("node_a", "node_a"));
    assert!(text_same("é", "é"));
    assert!(!text_same("e", "é"));
}
