use vm_proto::linked_list::{ArchivedChild, LinkedList};
use vm_proto::{AbiStore, Cardinality, Child, Compound, Store};

#[test]
fn list_lifo_order() {
    let store = AbiStore::new();
    let mut list: LinkedList<i32, ()> = LinkedList::new();

    assert_eq!(list.pop(&store), None);

    let mut i: i32 = 0;
    while i < 5 {
        list.push(i);
        i += 1;
    }

    let mut expected: i32 = 4;
    while expected >= 0 {
        assert_eq!(list.pop(&store), Some(expected));
        expected -= 1;
    }

    assert_eq!(list.pop(&store), None);
}

#[test]
fn list_persist_restore() {
    let mut store = AbiStore::new();
    let mut list: LinkedList<i32, ()> = LinkedList::new();
    list.push(1);
    list.push(2);
    list.push(3);

    let bytes = list.to_state_bytes(&mut store);
    let mut restored = LinkedList::<i32, ()>::from_state_bytes(bytes.as_slice(), &store).unwrap();

    assert_eq!(restored.pop(&store), Some(3));
    assert_eq!(restored.pop(&store), Some(2));
    assert_eq!(restored.pop(&store), Some(1));
    assert_eq!(restored.pop(&store), None);
}

#[test]
fn list_archived_child_enumeration() {
    let mut store = AbiStore::new();
    let mut list: LinkedList<i32, ()> = LinkedList::new();
    list.push(10);
    list.push(20);

    let id = list.persist(&mut store);

    match LinkedList::<i32, ()>::archived_child(&store, id, 0).unwrap() {
        ArchivedChild::Leaf(v) => assert_eq!(v, 20),
        _ => panic!("index 0 of a node is its stored value"),
    }
    let tail = match LinkedList::<i32, ()>::archived_child(&store, id, 1).unwrap() {
        ArchivedChild::Node(tail_id, _) => tail_id,
        _ => panic!("index 1 of a node is its tail link"),
    };
    match LinkedList::<i32, ()>::archived_child(&store, id, 2).unwrap() {
        ArchivedChild::EndOfNode => {},
        _ => panic!("enumeration ends after the tail link"),
    }
    match LinkedList::<i32, ()>::archived_child(&store, tail, 0).unwrap() {
        ArchivedChild::Leaf(v) => assert_eq!(v, 10),
        _ => panic!("the tail node holds the earlier value"),
    }
}

#[test]
fn list_child_enumeration() {
    let mut list: LinkedList<i32, ()> = LinkedList::new();
    list.push(10);

    match list.child(0) {
        Child::Leaf(v) => assert_eq!(*v, 10),
        _ => panic!("index 0 of a node is its stored value"),
    }
    match list.child(1) {
        Child::Node(_) => {},
        _ => panic!("index 1 of a node is its tail link"),
    }
    match list.child(2) {
        Child::EndOfNode => {},
        _ => panic!("enumeration ends after the tail link"),
    }

    let empty: LinkedList<i32, ()> = LinkedList::new();
    match empty.child(0) {
        Child::EndOfNode => {},
        _ => panic!("an empty list has no children"),
    }
}

#[test]
fn list_rejects_corrupt_archives() {
    let store = AbiStore::new();

    // an unknown tag
    let bad = vec![2u8, 0, 0, 0, 0, 0, 0, 0, 0, 0, 0, 0, 0];
    assert!(LinkedList::<i32, ()>::decode_node(bad.as_slice()).is_none());

    // a non-canonical empty node
    let bad = vec![0u8, 1, 0, 0, 0, 0, 0, 0, 0, 0, 0, 0, 0];
    assert!(LinkedList::<i32, ()>::decode_node(bad.as_slice()).is_none());

    // a node whose tail identifier points outside the store
    let mut bad = vec![1u8, 5, 0, 0, 0];
    bad.extend_from_slice(&[200, 0, 0, 0]);
    bad.extend_from_slice(&[13, 0, 0, 0]);
    assert!(LinkedList::<i32, ()>::decode_node(bad.as_slice()).is_some());
    assert!(LinkedList::<i32, ()>::from_state_bytes(bad.as_slice(), &store).is_none());
}

#[test]
fn list_annotation_counts_leaves() {
    let store = AbiStore::new();
    let mut list: LinkedList<i32, Cardinality> = LinkedList::new();
    assert_eq!(list.annotation_of().count, 0);

    list.push(7);
    list.push(8);
    list.push(9);
    assert_eq!(list.annotation_of().count, 3);

    list.pop(&store);
    assert_eq!(list.annotation_of().count, 2);
}

#[test]
fn list_annotation_survives_the_store() {
    let mut store = AbiStore::new();
    let mut list: LinkedList<i32, Cardinality> = LinkedList::new();
    list.push(1);
    list.push(2);

    let bytes = list.to_state_bytes(&mut store);
    let restored =
        LinkedList::<i32, Cardinality>::from_state_bytes(bytes.as_slice(), &store).unwrap();

    assert_eq!(restored.annotation_of().count, 2);
}
