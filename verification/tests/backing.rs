use vm_proto::abi::debug;
use vm_proto::{AbiStorage, AbiStore, DebugLog, Store};

#[test]
fn store_round_trip_and_stability() {
    let mut store = AbiStore::new();

    let id_a = store.put_bytes(b"alpha");
    assert_eq!(store.get_bytes(id_a).unwrap().as_slice(), b"alpha");

    let id_b = store.put_bytes(b"beta");
    assert_eq!(store.get_bytes(id_b).unwrap().as_slice(), b"beta");

    // an identifier keeps resolving to the very bytes that were stored
    assert_eq!(store.get_bytes(id_a).unwrap().as_slice(), b"alpha");
    assert_eq!(store.len(), 9);
}

#[test]
fn store_refuses_out_of_range_identifiers() {
    let mut store = AbiStore::new();
    let id = store.put_bytes(b"x");

    let dangling = vm_proto::Ident { ofs: id.ofs + 5, len: 1 };
    assert!(store.get_bytes(dangling).is_none());
}

#[test]
fn storage_is_an_append_only_arena() {
    let mut storage = AbiStorage::new();
    assert_eq!(storage.pos(), 0);

    storage.write(b"ab");
    storage.write(b"cd");
    assert_eq!(storage.pos(), 4);
    assert_eq!(storage.read(1, 2).unwrap().as_slice(), b"bc");
    assert!(storage.read(3, 2).is_none());
}

#[test]
fn debug_log_keeps_reports_in_order() {
    let mut log = DebugLog::new();
    debug(&mut log, "first");
    debug(&mut log, "second");

    assert_eq!(log.entry_count(), 2);
    assert_eq!(log.entry(0).unwrap().as_slice(), b"first");
    assert_eq!(log.entry(1).unwrap().as_slice(), b"second");
    assert!(log.entry(2).is_none());
}
