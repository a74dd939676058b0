use bstore::BTree;
use bstore::StoreError;

#[test]
fn new_blank_file() {
    let btree = BTree::<u8, u8>::new(String::from("/tmp/x.btr"), 1, 1).unwrap();

    assert!(btree.tree_len() == 8);
    assert!(btree.wal_len() == 0);
}

#[test]
fn new_existing_file() {
    let first = BTree::<u8, u8>::new(String::from("/tmp/x.btr"), 1, 1).unwrap();
    let tree_bytes = first.tree_bytes().clone();
    let wal_bytes = first.wal_bytes().clone();

    let btree =
        BTree::<u8, u8>::open(String::from("/tmp/x.btr"), 1, 1, Some(tree_bytes), Some(wal_bytes))
            .unwrap();

    assert!(btree.tree_len() == 8);
    assert!(btree.wal_len() == 0);
}

#[test]
fn insert_new_u8() {
    let mut btree = BTree::<u8, u8>::new(String::from("/tmp/x.btr"), 1, 1).unwrap();

    btree.insert(2, 3).unwrap();

    assert!(btree.wal_len() == 2);
    assert!(btree.contains_key(&2));
}

#[test]
fn insert_new_str() {
    let mut btree = BTree::<String, String>::new(String::from("/tmp/y.btr"), 15, 15).unwrap();

    btree.insert(String::from("Hello"), String::from("World")).unwrap();

    assert!(!btree.wal_is_empty());
    assert!(btree.contains_key(&String::from("Hello")));
}

#[test]
fn insert_multiple() {
    let mut btree = BTree::<String, String>::new(String::from("/tmp/y.btr"), 15, 15).unwrap();

    btree.insert(String::from("Hello"), String::from("World")).unwrap();
    assert!(!btree.wal_is_empty());

    btree.insert(String::from("Hello"), String::from("Everyone")).unwrap();
    assert!(!btree.wal_is_empty());
}

#[test]
fn lookup_after_insert_u8() {
    let mut btree = BTree::<u8, u8>::new(String::from("/tmp/x.btr"), 1, 1).unwrap();

    btree.insert(2, 3).unwrap();

    assert_eq!(btree.wal_len(), 2);
    assert_eq!(btree.lookup(&2).unwrap(), Some(3));
    assert_eq!(btree.lookup(&7).unwrap(), None);
}

#[test]
fn second_version_wins() {
    let mut btree = BTree::<String, String>::new(String::from("/tmp/y.btr"), 15, 15).unwrap();

    btree.insert(String::from("Hello"), String::from("World")).unwrap();
    btree.insert(String::from("Hello"), String::from("Everyone")).unwrap();

    // one fixed-size slot per write, with no dedup at the log layer
    assert_eq!(btree.wal_len(), 60);
    assert_eq!(btree.lookup(&String::from("Hello")).unwrap(), Some(String::from("Everyone")));
}

#[test]
fn reopen_replays_log() {
    let mut btree = BTree::<String, String>::new(String::from("/tmp/y.btr"), 15, 15).unwrap();
    btree.insert(String::from("Hello"), String::from("World")).unwrap();
    btree.insert(String::from("Hello"), String::from("Everyone")).unwrap();

    let tree_bytes = btree.tree_bytes().clone();
    let wal_bytes = btree.wal_bytes().clone();
    let reopened = BTree::<String, String>::open(
        String::from("/tmp/y.btr"),
        15,
        15,
        Some(tree_bytes),
        Some(wal_bytes),
    )
    .unwrap();

    assert_eq!(reopened.wal_len(), 60);
    assert!(reopened.contains_key(&String::from("Hello")));
    assert_eq!(reopened.lookup(&String::from("Hello")).unwrap(), Some(String::from("Everyone")));
}

#[test]
fn oversize_rejected_and_nothing_changes() {
    let mut btree = BTree::<String, String>::new(String::from("/tmp/y.btr"), 4, 4).unwrap();

    let r = btree.insert(String::from("much too long"), String::from("v"));

    assert_eq!(r, Err(StoreError::EncodingError));
    assert_eq!(btree.wal_len(), 0);
    assert_eq!(btree.tree_len(), 8);
    assert!(!btree.contains_key(&String::from("much too long")));
}

#[test]
fn bad_header_rejected() {
    let r = BTree::<u8, u8>::open(
        String::from("/tmp/x.btr"),
        1,
        1,
        Some(vec![0u8, 0, 0, 0, 0, 0, 0, 0]),
        None,
    );

    assert_eq!(r.err(), Some(StoreError::FormatError));
}

#[test]
fn torn_log_rejected() {
    let r = BTree::<u8, u8>::open(String::from("/tmp/x.btr"), 1, 1, None, Some(vec![9u8]));

    assert_eq!(r.err(), Some(StoreError::CorruptionError));
}

#[test]
fn undecodable_log_rejected() {
    // fifteen 0xff bytes are no valid length-prefixed string
    let slot = vec![255u8; 30];
    let r = BTree::<String, String>::open(String::from("/tmp/y.btr"), 15, 15, None, Some(slot));

    assert_eq!(r.err(), Some(StoreError::CorruptionError));
}

#[test]
fn string_slots_are_length_prefixed() {
    let mut btree = BTree::<String, String>::new(String::from("/tmp/y.btr"), 15, 15).unwrap();
    btree.insert(String::from("Hello"), String::from("World")).unwrap();

    let wal = btree.wal_bytes();
    // the key's slot starts with its encoding: a length prefix, then UTF-8
    assert_eq!(wal[0], 5);
    assert_eq!(wal[1], b'H');
    assert_eq!(wal[5], b'o');
    // the value's half of the slot starts at the key budget
    assert_eq!(wal[15], 5);
    assert_eq!(wal[16], b'W');
}

#[test]
fn u8_slots_hold_the_bytes() {
    let mut btree = BTree::<u8, u8>::new(String::from("/tmp/x.btr"), 1, 1).unwrap();
    btree.insert(2, 3).unwrap();
    btree.insert(2, 4).unwrap();

    assert_eq!(btree.wal_bytes().as_slice(), &[2u8, 3, 2, 4]);
    assert_eq!(btree.lookup(&2).unwrap(), Some(4));
}

#[test]
fn compact_then_lookup() {
    let mut btree = BTree::<String, String>::new(String::from("/tmp/y.btr"), 15, 15).unwrap();
    btree.insert(String::from("Hello"), String::from("World")).unwrap();
    btree.insert(String::from("Hello"), String::from("Everyone")).unwrap();

    btree.compact().unwrap();

    assert_eq!(btree.wal_len(), 0);
    assert!(btree.tree_len() > 8);
    // the buffer was folded into the tree, and reads are unchanged
    assert!(!btree.contains_key(&String::from("Hello")));
    assert_eq!(btree.lookup(&String::from("Hello")).unwrap(), Some(String::from("Everyone")));
}

#[test]
fn compact_then_reopen() {
    let mut btree = BTree::<String, String>::new(String::from("/tmp/y.btr"), 15, 15).unwrap();
    btree.insert(String::from("Hello"), String::from("World")).unwrap();
    btree.insert(String::from("Hello"), String::from("Everyone")).unwrap();
    btree.compact().unwrap();

    let tree_bytes = btree.tree_bytes().clone();
    let wal_bytes = btree.wal_bytes().clone();
    let reopened = BTree::<String, String>::open(
        String::from("/tmp/y.btr"),
        15,
        15,
        Some(tree_bytes),
        Some(wal_bytes),
    )
    .unwrap();

    assert_eq!(reopened.wal_len(), 0);
    assert_eq!(reopened.lookup(&String::from("Hello")).unwrap(), Some(String::from("Everyone")));
}

#[test]
fn compact_keeps_every_key() {
    let mut btree = BTree::<u8, u8>::new(String::from("/tmp/x.btr"), 1, 1).unwrap();
    // enough keys for several leaf pages under one internal root
    for k in 0..80u8 {
        btree.insert(k, k.wrapping_add(1)).unwrap();
    }
    btree.compact().unwrap();
    assert_eq!(btree.wal_len(), 0);
    for k in 0..80u8 {
        assert_eq!(btree.lookup(&k).unwrap(), Some(k.wrapping_add(1)));
    }
    assert_eq!(btree.lookup(&200).unwrap(), None);

    // fresh writes after compaction shadow the tree
    btree.insert(5, 99).unwrap();
    assert_eq!(btree.lookup(&5).unwrap(), Some(99));
    assert_eq!(btree.lookup(&6).unwrap(), Some(7));

    // a second compaction folds the shadowing write in
    btree.compact().unwrap();
    assert_eq!(btree.lookup(&5).unwrap(), Some(99));
    assert_eq!(btree.lookup(&6).unwrap(), Some(7));
}
