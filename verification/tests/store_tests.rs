//! End-to-end behavior of the store: point reads, writes, deletes,
//! persistence across reopen, and boundary cases.

use kvs::{Bitcask, KvStore, KvsError, Storage};

fn open_empty() -> KvStore {
    KvStore::open(Vec::new()).unwrap()
}

fn reopen(store: &KvStore) -> KvStore {
    KvStore::open(store.data().clone()).unwrap()
}

// An empty store knows no keys.
#[test]
fn get_non_existent_key() {
    let mut store = open_empty();
    assert_eq!(store.get("key".to_owned()).unwrap(), None);
}

// Two keys set once each are both readable.
#[test]
fn get_stored_values() {
    let mut store = open_empty();
    store.set("key1".to_owned(), "value1".to_owned()).unwrap();
    store.set("key2".to_owned(), "value2".to_owned()).unwrap();
    assert_eq!(store.get("key1".to_owned()).unwrap(), Some("value1".to_owned()));
    assert_eq!(store.get("key2".to_owned()).unwrap(), Some("value2".to_owned()));
}

// Removing an absent key fails with KeyNotFound; removing a live key
// makes it absent again.
#[test]
fn remove_semantics() {
    let mut store = open_empty();
    assert!(matches!(store.remove("absent".to_owned()), Err(KvsError::KeyNotFound)));
    store.set("k".to_owned(), "v".to_owned()).unwrap();
    store.remove("k".to_owned()).unwrap();
    assert_eq!(store.get("k".to_owned()).unwrap(), None);
    assert!(matches!(store.remove("k".to_owned()), Err(KvsError::KeyNotFound)));
}

// Setting an existing key replaces the value and charges the wasted
// counter with exactly the superseded record's encoded size.
#[test]
fn overwrite_increments_wasted_counter() {
    let mut store = open_empty();
    store.set("k".to_owned(), "v1".to_owned()).unwrap();
    assert_eq!(store.storage.compaction, 0);
    store.set("k".to_owned(), "v22".to_owned()).unwrap();
    // superseded record: 17-byte header + 1 key byte + 2 value bytes
    assert_eq!(store.storage.compaction, 20);
    store.set("k".to_owned(), "v".to_owned()).unwrap();
    // plus 17 + 1 + 3 for the second record
    assert_eq!(store.storage.compaction, 41);
    assert_eq!(store.get("k".to_owned()).unwrap(), Some("v".to_owned()));
}

// A removal writes no record and leaves the wasted counter alone.
#[test]
fn remove_appends_tombstone_only() {
    let mut store = open_empty();
    store.set("k".to_owned(), "vvv".to_owned()).unwrap();
    let before = store.data().len();
    store.remove("k".to_owned()).unwrap();
    // one DEL record: header + 1 key byte + empty value
    assert_eq!(store.data().len(), before + 18);
    assert_eq!(store.storage.compaction, 0);
}

// Reopening a directory shows the state as of the last operation.
#[test]
fn reopen_replays_history() {
    let mut store = open_empty();
    store.set("a".to_owned(), "1".to_owned()).unwrap();
    store.set("b".to_owned(), "2".to_owned()).unwrap();
    store.set("a".to_owned(), "1'".to_owned()).unwrap();
    store.remove("b".to_owned()).unwrap();
    let mut fresh = reopen(&store);
    assert_eq!(fresh.get("a".to_owned()).unwrap(), Some("1'".to_owned()));
    assert_eq!(fresh.get("b".to_owned()).unwrap(), None);
}

// Round trip: a fresh store on the same bytes answers every get the
// same way.
#[test]
fn round_trip_many_operations() {
    let mut store = open_empty();
    for i in 0..50 {
        store.set(format!("key{}", i), format!("value{}", i)).unwrap();
    }
    for i in 0..25 {
        store.remove(format!("key{}", 2 * i)).unwrap();
    }
    for i in 0..10 {
        store.set(format!("key{}", i), format!("fresh{}", i)).unwrap();
    }
    let mut fresh = reopen(&store);
    for i in 0..50 {
        let key = format!("key{}", i);
        let expected = if i < 10 {
            Some(format!("fresh{}", i))
        } else if i % 2 == 0 {
            None
        } else {
            Some(format!("value{}", i))
        };
        assert_eq!(fresh.get(key.clone()).unwrap(), expected);
        assert_eq!(store.get(key).unwrap(), expected);
    }
}

// Compaction changes no observable get result, shrinks the file, and
// leaves it at exactly the total encoded size of the live records.
#[test]
fn compaction_preserves_semantics_and_shrinks() {
    let mut store = open_empty();
    for i in 0..20 {
        store.set("stable".to_owned(), format!("version{}", i)).unwrap();
    }
    store.set("other".to_owned(), "kept".to_owned()).unwrap();
    store.set("gone".to_owned(), "dropped".to_owned()).unwrap();
    store.remove("gone".to_owned()).unwrap();
    let before = store.data().len();
    store.storage.compact();
    let after = store.data().len();
    assert!(after <= before);
    // live records: ("stable", "version19") and ("other", "kept")
    let expected = (17 + 6 + 9) + (17 + 5 + 4);
    assert_eq!(after, expected);
    assert_eq!(store.storage.compaction, 0);
    assert_eq!(store.get("stable".to_owned()).unwrap(), Some("version19".to_owned()));
    assert_eq!(store.get("other".to_owned()).unwrap(), Some("kept".to_owned()));
    assert_eq!(store.get("gone".to_owned()).unwrap(), None);
    let mut fresh = reopen(&store);
    assert_eq!(fresh.get("stable".to_owned()).unwrap(), Some("version19".to_owned()));
}

// Enough superseded bytes trigger compaction from within set; the
// file then holds exactly one PUT record for the single live key.
#[test]
fn compaction_triggered_by_threshold() {
    let mut store = open_empty();
    let value = "x".repeat(1024);
    // each overwrite wastes 17 + 1 + 1024 bytes; the 64th set makes
    // the counter 63 * 1042 = 65646 >= 65536
    for _ in 0..64 {
        store.set("k".to_owned(), value.clone()).unwrap();
    }
    assert_eq!(store.storage.compaction, 0);
    assert_eq!(store.data().len(), 17 + 1 + 1024);
    assert_eq!(store.get("k".to_owned()).unwrap(), Some(value));
}

// An empty value is accepted and comes back as the empty string.
#[test]
fn empty_value_round_trips() {
    let mut store = open_empty();
    store.set("k".to_owned(), String::new()).unwrap();
    assert_eq!(store.get("k".to_owned()).unwrap(), Some(String::new()));
    let mut fresh = reopen(&store);
    assert_eq!(fresh.get("k".to_owned()).unwrap(), Some(String::new()));
}

// Keys and values of a mebibyte round-trip, in memory and on reopen.
#[test]
fn large_key_and_value_round_trip() {
    let mut store = open_empty();
    let big_key = "k".repeat(1 << 20);
    let big_value = "v".repeat(1 << 20);
    store.set(big_key.clone(), big_value.clone()).unwrap();
    store.set("small".to_owned(), "s".to_owned()).unwrap();
    assert_eq!(store.get(big_key.clone()).unwrap(), Some(big_value.clone()));
    let mut fresh = reopen(&store);
    assert_eq!(fresh.get(big_key).unwrap(), Some(big_value));
    assert_eq!(fresh.get("small".to_owned()).unwrap(), Some("s".to_owned()));
}

// Values outside ASCII survive the byte round trip exactly.
#[test]
fn non_ascii_round_trip() {
    let mut store = open_empty();
    store.set("gr\u{00fc}\u{00df}e".to_owned(), "h\u{00e9}llo \u{2713}".to_owned()).unwrap();
    assert_eq!(
        store.get("gr\u{00fc}\u{00df}e".to_owned()).unwrap(),
        Some("h\u{00e9}llo \u{2713}".to_owned())
    );
    let mut fresh = reopen(&store);
    assert_eq!(
        fresh.get("gr\u{00fc}\u{00df}e".to_owned()).unwrap(),
        Some("h\u{00e9}llo \u{2713}".to_owned())
    );
}

// The engine behind the façade answers through the Storage
// capability the same way.
#[test]
fn storage_trait_on_bitcask() {
    let mut engine = Bitcask::open(Vec::new()).unwrap();
    engine.set("k".to_owned(), "v".to_owned()).unwrap();
    assert_eq!(engine.get("k".to_owned()).unwrap(), Some("v".to_owned()));
    engine.remove("k".to_owned()).unwrap();
    assert_eq!(engine.get("k".to_owned()).unwrap(), None);
    assert!(matches!(engine.remove("k".to_owned()), Err(KvsError::KeyNotFound)));
}

#[test]
fn test() {
}
