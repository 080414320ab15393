use crdt_data_types::{
    Crdt, CrdtError, CrdtReader, FWWRegister, FWWRegisterReader, GCounter, GCounterReader, GSet,
    GSetReader, LWWMap, LWWMapReader, LWWRegister, LWWRegisterReader, LWWSet, LWWSetReader,
    MVRegister, MVRegisterReader, ORMap, ORMapReader, ORSet, ORSetReader, PNCounter,
    PNCounterReader, Replica, VectorClock, VectorClockReader,
};

#[test]
fn readers_decode_what_was_encoded() {
    let mut clock = VectorClock::new();
    clock.increment_at("n", 4);
    let bytes = clock.to_capnp_bytes();
    let reader = VectorClockReader::new(&bytes);
    assert_eq!(reader.buffer(), &bytes[..]);
    assert_eq!(reader.to_vclock().unwrap(), clock);
    assert_eq!(reader.is_empty().unwrap(), false);

    let mut pn = PNCounter::new();
    pn.increment("n", 4);
    let bytes = pn.to_capnp_bytes();
    assert_eq!(PNCounterReader::new(&bytes).to_pncounter().unwrap(), pn);
    assert_eq!(PNCounterReader::new(&bytes).is_empty().unwrap(), false);

    let mut or: ORSet<String> = ORSet::new();
    or.insert("n", "x".to_string());
    let bytes = or.to_capnp_bytes();
    assert_eq!(ORSetReader::<String>::new(&bytes).to_orset().unwrap(), or);
    assert_eq!(ORSetReader::<String>::new(&bytes).is_empty().unwrap(), false);

    let mut mv: MVRegister<String> = MVRegister::new();
    mv.set("n", "x".to_string());
    let bytes = mv.to_capnp_bytes();
    assert_eq!(MVRegisterReader::<String>::new(&bytes).to_register().unwrap(), mv);

    let lww = LWWRegister::new("x".to_string(), 3, "n");
    let bytes = lww.to_capnp_bytes();
    assert_eq!(LWWRegisterReader::<String>::new(&bytes).to_register().unwrap(), lww);
    assert_eq!(LWWRegisterReader::<String>::new(&bytes).is_empty().unwrap(), false);

    let fww = FWWRegister::new("x".to_string(), 3, "n");
    let bytes = fww.to_capnp_bytes();
    assert_eq!(FWWRegisterReader::<String>::new(&bytes).to_register().unwrap(), fww);

    let mut map: LWWMap<String, String> = LWWMap::new();
    map.insert("n", "k".to_string(), "v".to_string(), 3);
    let bytes = map.to_capnp_bytes();
    assert_eq!(LWWMapReader::<String, String>::new(&bytes).to_map().unwrap(), map);

    let mut set: LWWSet<String> = LWWSet::new();
    set.insert("n", "x".to_string(), 3);
    let bytes = set.to_capnp_bytes();
    assert_eq!(LWWSetReader::<String>::new(&bytes).to_set().unwrap(), set);

    let mut om: ORMap<String, String> = ORMap::new();
    om.insert("n", "k".to_string(), "v".to_string());
    let bytes = om.to_capnp_bytes();
    assert_eq!(ORMapReader::<String, String>::new(&bytes).to_map().unwrap(), om);
    assert_eq!(ORMapReader::<String, String>::new(&bytes).is_empty().unwrap(), false);
}

#[test]
fn readers_tell_an_empty_state() {
    let bytes = VectorClock::new().to_capnp_bytes();
    assert!(VectorClockReader::new(&bytes).is_empty().unwrap());
    let bytes = GCounter::new().to_capnp_bytes();
    assert!(GCounterReader::new(&bytes).is_empty().unwrap());
    let bytes = PNCounter::new().to_capnp_bytes();
    assert!(PNCounterReader::new(&bytes).is_empty().unwrap());
    let bytes = GSet::<String>::new().to_capnp_bytes();
    assert!(GSetReader::<String>::new(&bytes).is_empty().unwrap());
    let bytes = ORSet::<String>::new().to_capnp_bytes();
    assert!(ORSetReader::<String>::new(&bytes).is_empty().unwrap());
    let bytes = MVRegister::<String>::new().to_capnp_bytes();
    assert!(MVRegisterReader::<String>::new(&bytes).is_empty().unwrap());
    let bytes = LWWRegister::<String>::default().to_capnp_bytes();
    assert!(LWWRegisterReader::<String>::new(&bytes).is_empty().unwrap());
    let bytes = FWWRegister::<String>::default().to_capnp_bytes();
    assert!(FWWRegisterReader::<String>::new(&bytes).is_empty().unwrap());
    let bytes = LWWMap::<String, String>::new().to_capnp_bytes();
    assert!(LWWMapReader::<String, String>::new(&bytes).is_empty().unwrap());
    let bytes = LWWSet::<String>::new().to_capnp_bytes();
    assert!(LWWSetReader::<String>::new(&bytes).is_empty().unwrap());
    let bytes = ORMap::<String, String>::new().to_capnp_bytes();
    assert!(ORMapReader::<String, String>::new(&bytes).is_empty().unwrap());
}

#[test]
fn no_reader_gives_a_fresh_value() {
    let none: [GCounterReader; 0] = [];
    assert_eq!(GCounter::merge_from_readers(&none).unwrap(), GCounter::new());
    assert_eq!(GCounter::fresh(), GCounter::new());
    let none: [ORSetReader<String>; 0] = [];
    assert!(ORSet::<String>::merge_from_readers(&none).unwrap().is_empty());
}

#[test]
fn a_reader_over_garbage_reports_it() {
    let garbage = [0xffu8; 5];
    assert!(matches!(
        VectorClockReader::new(&garbage).to_vclock(),
        Err(CrdtError::Deserialization(_))
    ));
    assert!(matches!(
        ORMapReader::<String, String>::new(&garbage).is_empty(),
        Err(CrdtError::Deserialization(_))
    ));
    assert!(matches!(
        LWWSetReader::<String>::new(&garbage).to_set(),
        Err(CrdtError::Deserialization(_))
    ));
    let three = [
        MVRegisterReader::<String>::new(&garbage),
        MVRegisterReader::<String>::new(&garbage),
        MVRegisterReader::<String>::new(&garbage),
    ];
    assert!(matches!(
        MVRegister::<String>::merge_from_readers(&three),
        Err(CrdtError::Deserialization(_))
    ));
}

#[test]
fn every_fresh_value_is_valid() {
    assert!(VectorClock::new().validate().is_ok());
    assert!(GCounter::new().validate().is_ok());
    assert!(PNCounter::new().validate().is_ok());
    assert!(GSet::<u64>::new().validate().is_ok());
    assert!(ORSet::<u64>::new().validate().is_ok());
    assert!(MVRegister::<u64>::new().validate().is_ok());
    assert!(LWWRegister::<u64>::default().validate().is_ok());
    assert!(FWWRegister::<u64>::default().validate().is_ok());
    assert!(LWWMap::<u64, u64>::new().validate().is_ok());
    assert!(LWWSet::<u64>::new().validate().is_ok());
    assert!(ORMap::<u64, u64>::new().validate().is_ok());
}
