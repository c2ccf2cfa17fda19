//! End-to-end tests of the trie engine over the in-memory backing store.
use trie_index::store::Store;
use trie_index::trie::Trie;
use trie_index::TrieError;

fn fresh_trie(prefix: &[u8]) -> Trie {
    Trie::new(Store::new(), prefix.to_vec()).unwrap()
}

#[test]
fn ok_start_trie_from_scratch() {
    let mut t = fresh_trie(b"sometrie");

    t.insert(&b"Item 1".to_vec(), &b"42".to_vec()).unwrap();
    t.insert(&b"Item 2".to_vec(), &b"43".to_vec()).unwrap();

    // Get existing item
    let items = t.get(&b"Item 1".to_vec()).unwrap();
    assert!(items.len() == 1);
    assert!(matches!(items.as_str().next(), Some(s) if s == "42"));

    // Get item that do not exist
    let items = t.get(&b"Item 3".to_vec()).unwrap();
    assert!(items.len() == 0);
}

#[test]
fn ok_trie_restarting_from_store() {
    let store = {
        let mut t = fresh_trie(b"sometrie");
        t.insert(&b"Item 1".to_vec(), &b"42".to_vec()).unwrap();
        t.flush().unwrap();
        t.into_store()
    };

    let mut t = Trie::new(store, b"sometrie".to_vec()).unwrap();

    // Get existing item
    let items = t.get(&b"Item 1".to_vec()).unwrap();
    assert!(items.len() == 1);
    assert!(matches!(items.as_str().next(), Some(s) if s == "42"));

    // Get item that do not exist
    let items = t.get(&b"Item 3".to_vec()).unwrap();
    assert!(items.len() == 0);
}

#[test]
fn insert_appends_value_as_last_element() {
    let mut t = fresh_trie(b"ns");
    t.insert(&b"key".to_vec(), &b"first".to_vec()).unwrap();
    t.insert(&b"other".to_vec(), &b"noise".to_vec()).unwrap();
    t.insert(&b"key".to_vec(), &b"second".to_vec()).unwrap();

    let items = t.get(&b"key".to_vec()).unwrap();
    assert_eq!(items.len(), 2);
    assert_eq!(items.record(0), &b"first".to_vec());
    assert_eq!(items.record(1), &b"second".to_vec());
}

#[test]
fn accumulation_keeps_insertion_order() {
    let mut t = fresh_trie(b"ns");
    t.insert(&b"a".to_vec(), &b"x".to_vec()).unwrap();
    t.insert(&b"a".to_vec(), &b"y".to_vec()).unwrap();

    let items = t.get(&b"a".to_vec()).unwrap();
    assert_eq!(items.len(), 2);
    assert_eq!(items.record(0), &b"x".to_vec());
    assert_eq!(items.record(1), &b"y".to_vec());
}

#[test]
fn unknown_key_yields_empty() {
    let mut t = fresh_trie(b"ns");
    let items = t.get(&b"never inserted".to_vec()).unwrap();
    assert_eq!(items.len(), 0);

    t.insert(&b"present".to_vec(), &b"v".to_vec()).unwrap();
    let items = t.get(&b"absent".to_vec()).unwrap();
    assert_eq!(items.len(), 0);
}

#[test]
fn empty_key_is_a_key_of_its_own() {
    let mut t = fresh_trie(b"ns");
    t.insert(&Vec::new(), &b"root value".to_vec()).unwrap();
    let items = t.get(&Vec::new()).unwrap();
    assert_eq!(items.len(), 1);
    assert_eq!(items.record(0), &b"root value".to_vec());
    assert_eq!(t.node_count(), 0);
}

#[test]
fn prefix_independence_shares_parent_nodes() {
    let mut t = fresh_trie(b"ns");
    t.insert(&b"ab".to_vec(), &b"1".to_vec()).unwrap();
    t.insert(&b"ac".to_vec(), &b"2".to_vec()).unwrap();

    // two terminal nodes share the parent for "a": three nodes, not four
    assert_eq!(t.node_count(), 3);

    // a non-terminal prefix with no value of its own yields empty
    let items = t.get(&b"a".to_vec()).unwrap();
    assert_eq!(items.len(), 0);

    let items = t.get(&b"ab".to_vec()).unwrap();
    assert_eq!(items.len(), 1);
    assert_eq!(items.record(0), &b"1".to_vec());
    let items = t.get(&b"ac".to_vec()).unwrap();
    assert_eq!(items.len(), 1);
    assert_eq!(items.record(0), &b"2".to_vec());
}

#[test]
fn persistence_across_reopen() {
    let store = {
        let mut t = fresh_trie(b"ns");
        t.insert(&b"alpha".to_vec(), &b"1".to_vec()).unwrap();
        t.insert(&b"alpha".to_vec(), &b"2".to_vec()).unwrap();
        t.insert(&b"beta".to_vec(), &b"3".to_vec()).unwrap();
        t.flush().unwrap();
        t.into_store()
    };
    let mut t = Trie::new(store, b"ns".to_vec()).unwrap();
    let items = t.get(&b"alpha".to_vec()).unwrap();
    assert_eq!(items.len(), 2);
    assert_eq!(items.record(0), &b"1".to_vec());
    assert_eq!(items.record(1), &b"2".to_vec());
    let items = t.get(&b"beta".to_vec()).unwrap();
    assert_eq!(items.len(), 1);
    assert_eq!(items.record(0), &b"3".to_vec());

    // reopening keeps allocating fresh indices: new keys still work
    t.insert(&b"gamma".to_vec(), &b"4".to_vec()).unwrap();
    let items = t.get(&b"gamma".to_vec()).unwrap();
    assert_eq!(items.len(), 1);
    let items = t.get(&b"alpha".to_vec()).unwrap();
    assert_eq!(items.len(), 2);
}

#[test]
fn namespace_isolation_over_one_store() {
    // engine A writes under its prefix
    let mut ta = Trie::new(Store::new(), b"left".to_vec()).unwrap();
    ta.insert(&b"shared key".to_vec(), &b"A's value".to_vec()).unwrap();
    let store = ta.into_store();

    // engine B over the same store, different prefix: sees nothing of A
    let mut tb = Trie::new(store, b"right".to_vec()).unwrap();
    let items = tb.get(&b"shared key".to_vec()).unwrap();
    assert_eq!(items.len(), 0);
    tb.insert(&b"shared key".to_vec(), &b"B's value".to_vec()).unwrap();
    let store = tb.into_store();

    // back under A's prefix: A's values are intact and B's stay invisible
    let mut ta = Trie::new(store, b"left".to_vec()).unwrap();
    let items = ta.get(&b"shared key".to_vec()).unwrap();
    assert_eq!(items.len(), 1);
    assert_eq!(items.record(0), &b"A's value".to_vec());
}

#[test]
fn namespace_too_long_fails_before_io() {
    let prefix = vec![7u8; 1010];
    let r = Trie::new(Store::new(), prefix);
    assert!(matches!(r, Err(TrieError::NamespaceTooLong)));

    let prefix = vec![7u8; 1009];
    assert!(Trie::new(Store::new(), prefix).is_ok());
}

#[test]
fn corrupt_metadata_is_reported() {
    let mut store = Store::new();
    // a metadata record of the wrong width under the bare namespace key
    store.put(b"ns".to_vec(), vec![1u8, 2u8, 3u8]);
    let r = Trie::new(store, b"ns".to_vec());
    assert!(matches!(r, Err(TrieError::CorruptRecord)));
}

#[test]
fn corrupt_root_record_is_reported() {
    let mut store = Store::new();
    let root_key = trie_index::keys::node_key(&b"ns".to_vec(), 0);
    store.put(root_key, vec![0u8; 10]);
    let r = Trie::new(store, b"ns".to_vec());
    assert!(matches!(r, Err(TrieError::CorruptRecord)));
}

#[test]
fn values_survive_draining_the_write_log() {
    let mut t = fresh_trie(b"ns");
    t.insert(&b"k".to_vec(), &b"v".to_vec()).unwrap();
    let writes = t.take_writes();
    assert!(writes.len() > 0);
    let items = t.get(&b"k".to_vec()).unwrap();
    assert_eq!(items.len(), 1);
    let writes = t.take_writes();
    assert_eq!(writes.len(), 0);
}

#[test]
fn reinserting_an_existing_path_allocates_nothing() {
    let mut t = fresh_trie(b"ns");
    t.insert(&b"ab".to_vec(), &b"1".to_vec()).unwrap();
    assert_eq!(t.node_count(), 2);
    t.insert(&b"ac".to_vec(), &b"2".to_vec()).unwrap();
    assert_eq!(t.node_count(), 3);
    t.insert(&b"ab".to_vec(), &b"3".to_vec()).unwrap();
    assert_eq!(t.node_count(), 3);
    let items = t.get(&b"ab".to_vec()).unwrap();
    assert_eq!(items.len(), 2);
}

#[test]
fn replaying_the_log_rebuilds_the_store() {
    // everything an engine wrote, drained oldest first, rebuilds the same
    // index on a fresh store: what a disk mirror replays is complete
    let mut t = fresh_trie(b"ns");
    t.insert(&b"one".to_vec(), &b"1".to_vec()).unwrap();
    t.insert(&b"two".to_vec(), &b"2".to_vec()).unwrap();
    let writes = t.take_writes();
    assert!(writes.len() > 0);
    assert!(writes.iter().any(|(k, _)| k == &b"ns".to_vec()));

    let mut mirror = Store::new();
    for (k, v) in writes {
        mirror.put(k, v);
    }
    let mut t2 = Trie::new(mirror, b"ns".to_vec()).unwrap();
    let items = t2.get(&b"one".to_vec()).unwrap();
    assert_eq!(items.len(), 1);
    assert_eq!(items.record(0), &b"1".to_vec());
    let items = t2.get(&b"two".to_vec()).unwrap();
    assert_eq!(items.len(), 1);
    assert_eq!(items.record(0), &b"2".to_vec());
}

#[test]
fn as_str_reads_utf8_and_skips_invalid() {
    let mut t = fresh_trie(b"ns");
    t.insert(&b"k".to_vec(), &b"hello".to_vec()).unwrap();
    t.insert(&b"k".to_vec(), &vec![0xffu8, 0xfe], ).unwrap();
    t.insert(&b"k".to_vec(), &b"world".to_vec()).unwrap();

    let items = t.get(&b"k".to_vec()).unwrap();
    assert_eq!(items.len(), 3);
    let mut it = items.as_str();
    assert_eq!(it.next(), Some("hello".to_string()));
    assert_eq!(it.next(), None);
    assert_eq!(it.next(), Some("world".to_string()));
    assert_eq!(it.next(), None);
}
