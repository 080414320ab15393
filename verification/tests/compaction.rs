use crdt_data_types::compaction::compact_capnp_bytes;
use crdt_data_types::{Crdt, CrdtError, GCounter, GCounterReader, Replica};

#[test]
fn test_compact_capnp_gcounter() {
    let mut gc1 = GCounter::new();
    gc1.increment("node_a", 10);
    let bytes1 = gc1.to_capnp_bytes();

    let mut gc2 = GCounter::new();
    gc2.increment("node_b", 20);
    let bytes2 = gc2.to_capnp_bytes();

    let compacted = compact_capnp_bytes("GCounter", &[&bytes1, &bytes2]).unwrap();
    assert!(!compacted.is_empty());

    let reader = GCounterReader::new(&compacted);
    let merged = GCounter::merge_from_readers(&[reader]).unwrap();
    assert_eq!(merged.value(), 30);
}

#[test]
fn test_compact_empty() {
    let bytes = compact_capnp_bytes("GCounter", &[]).unwrap();
    assert!(bytes.is_empty());
}

#[test]
fn compaction_rejects_an_unknown_kind() {
    let gc = GCounter::new();
    let bytes = gc.to_capnp_bytes();
    let r = compact_capnp_bytes("Nothing", &[&bytes]);
    assert!(matches!(r, Err(CrdtError::InvalidInput(_))));
    // The names are exact: case matters here.
    let r = compact_capnp_bytes("gcounter", &[&bytes]);
    assert!(matches!(r, Err(CrdtError::InvalidInput(_))));
}

#[test]
fn compaction_reports_a_malformed_buffer() {
    let gc = GCounter::new();
    let good = gc.to_capnp_bytes();
    let bad: Vec<u8> = vec![1, 2, 3];
    let r = compact_capnp_bytes("GCounter", &[&good, &bad]);
    assert!(matches!(r, Err(CrdtError::Deserialization(_))));
}
