use vm_proto::{Counter, Increment, Mint, Plutocracy, Push, Scratch, Wire};

#[test]
fn u32_round_trip() {
    let v: u32 = 0x01020304;
    let bytes = v.encode();
    assert_eq!(bytes.as_slice(), &[0x04, 0x03, 0x02, 0x01]);
    assert_eq!(u32::decode(bytes.as_slice()), Some(v));
}

#[test]
fn u64_round_trip() {
    let v: u64 = 0x0102030405060708;
    let bytes = v.encode();
    assert_eq!(bytes.len(), 8);
    assert_eq!(u64::decode(bytes.as_slice()), Some(v));
}

#[test]
fn i32_round_trip() {
    let values: [i32; 5] = [0, 1, -1, i32::MIN, i32::MAX];
    let mut i: usize = 0;
    while i < values.len() {
        let v = values[i];
        let bytes = v.encode();
        assert_eq!(bytes.len(), 4);
        assert_eq!(i32::decode(bytes.as_slice()), Some(v));
        i += 1;
    }
}

#[test]
fn option_round_trip() {
    let none: Option<i32> = None;
    let bytes = none.encode();
    assert_eq!(bytes.as_slice(), &[0, 0, 0, 0, 0]);
    assert_eq!(<Option<i32> as Wire>::decode(bytes.as_slice()), Some(None));

    let some: Option<i32> = Some(-5);
    let bytes = some.encode();
    assert_eq!(bytes.len(), 5);
    assert_eq!(bytes[0], 1);
    assert_eq!(<Option<i32> as Wire>::decode(bytes.as_slice()), Some(Some(-5)));
}

#[test]
fn option_rejects_bad_archives() {
    // an unknown tag
    assert_eq!(<Option<i32> as Wire>::decode(&[2, 0, 0, 0, 0]), None);
    // a non-canonical absent value
    assert_eq!(<Option<i32> as Wire>::decode(&[0, 1, 0, 0, 0]), None);
    // the wrong footprint
    assert_eq!(<Option<i32> as Wire>::decode(&[1, 0, 0, 0]), None);
}

#[test]
fn contract_state_round_trips() {
    let c = Counter::new(9);
    let bytes = c.encode();
    assert_eq!(bytes.as_slice(), &[9, 0, 0, 0]);
    let back = Counter::decode(bytes.as_slice()).unwrap();
    assert_eq!(back.encode().as_slice(), bytes.as_slice());

    let p = Plutocracy::new();
    let bytes = p.encode();
    assert_eq!(bytes.as_slice(), &[0, 0, 0, 0, 0, 0, 0, 0]);
    assert!(Plutocracy::decode(bytes.as_slice()).is_some());

    let m = Mint { amount: 300 };
    let bytes = m.encode();
    assert_eq!(Mint::decode(bytes.as_slice()).unwrap().amount, 300);

    let t = Increment(77);
    let bytes = t.encode();
    assert_eq!(Increment::decode(bytes.as_slice()).unwrap().0, 77);

    let q = Push(-3);
    let bytes = q.encode();
    assert_eq!(Push::decode(bytes.as_slice()).unwrap().0, -3);
}

#[test]
fn scratch_holds_the_archive() {
    let s = Scratch::write(&7u32);
    assert_eq!(s.as_slice(), &[7, 0, 0, 0]);
}
