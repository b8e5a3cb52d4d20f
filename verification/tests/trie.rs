use vm_proto::Hamt;

#[test]
fn map_upsert_law() {
    let mut map: Hamt<u32> = Hamt::new();

    assert_eq!(map.insert(5, 10), None);
    assert_eq!(map.insert(5, 20), Some(10));
    assert_eq!(map.get(5), Some(&20));
    assert_eq!(map.get(6), None);
}

#[test]
fn map_separates_colliding_keys() {
    let mut map: Hamt<&'static str> = Hamt::new();

    // these keys agree on their fifteen low nibbles
    let k1: u64 = 1;
    let k2: u64 = 1 + (1u64 << 60);

    assert_eq!(map.insert(k1, "one"), None);
    assert_eq!(map.insert(k2, "other"), None);
    assert_eq!(map.get(k1), Some(&"one"));
    assert_eq!(map.get(k2), Some(&"other"));
}

#[test]
fn map_holds_many_bindings() {
    let mut map: Hamt<u64> = Hamt::new();

    let mut k: u64 = 0;
    while k < 200 {
        assert_eq!(map.insert(k * 0x9e3779b9, k), None);
        k += 1;
    }

    let mut k: u64 = 0;
    while k < 200 {
        assert_eq!(map.get(k * 0x9e3779b9), Some(&k));
        assert_eq!(map.insert(k * 0x9e3779b9, k + 1), Some(k));
        k += 1;
    }

    assert_eq!(map.get(0x12345), None);
}
