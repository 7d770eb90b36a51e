use sled_store::{counter_key_bytes, LogError, SledStore};
use std::collections::BTreeMap;

const EXTERNAL: u32 = 0;

fn changeset(entries: &[(u32, u32)]) -> BTreeMap<u32, u32> {
    entries.iter().cloned().collect()
}

fn test_changesets() -> Vec<BTreeMap<u32, u32>> {
    vec![changeset(&[(EXTERNAL, 42)]), changeset(&[(EXTERNAL, 43)])]
}

fn encode(c: &BTreeMap<u32, u32>) -> Vec<u8> {
    bincode::serialize(c).unwrap()
}

fn append(store: &mut SledStore, c: &BTreeMap<u32, u32>) -> Result<(), LogError> {
    store.append_changeset(&encode(c), c.is_empty())
}

fn load(store: &SledStore) -> Vec<BTreeMap<u32, u32>> {
    store
        .load_changesets()
        .unwrap()
        .iter()
        .map(|b| bincode::deserialize(b).unwrap())
        .collect()
}

fn new_tree() -> sled::Tree {
    let db: sled::Db = sled::Config::new().temporary(true).open().unwrap();
    db.open_tree(b"abra").unwrap()
}

fn stored_counter(store: &SledStore) -> Option<Vec<u8>> {
    store.stored("counter".as_bytes()).unwrap()
}

#[test]
fn works() {
    let tree = new_tree();

    let mut store = SledStore::new(tree).unwrap();
    assert_eq!(store.counter(), 0);

    for (i, changeset) in test_changesets().into_iter().enumerate() {
        append(&mut store, &changeset).expect("Should apply");

        assert_eq!(store.counter(), i as u64 + 1);
        assert_eq!(
            stored_counter(&store).unwrap(),
            store.counter().to_le_bytes().to_vec()
        );
    }

    assert_eq!(
        bincode::serialize(&test_changesets()).unwrap(),
        bincode::serialize(&load(&store)).unwrap()
    );
}

#[test]
fn restores_counter() {
    let tree = new_tree();
    tree.insert("counter", &42u64.to_le_bytes()).unwrap();

    let store = SledStore::new(tree).unwrap();
    assert_eq!(store.counter(), 42);
}

#[test]
fn counter_key_is_the_literal() {
    assert_eq!(counter_key_bytes(), b"counter".to_vec());
}

#[test]
fn fresh_log_starts_at_zero_and_loads_nothing() {
    let store = SledStore::new(new_tree()).unwrap();
    assert_eq!(store.counter(), 0);
    assert_eq!(stored_counter(&store), None);
    assert!(store.load_changesets().unwrap().is_empty());
}

#[test]
fn round_trip_in_order() {
    let mut store = SledStore::new(new_tree()).unwrap();
    let cs: Vec<BTreeMap<u32, u32>> = (0..10u32).map(|i| changeset(&[(i % 2, i * 7)])).collect();
    for c in &cs {
        append(&mut store, c).unwrap();
    }
    assert_eq!(load(&store), cs);
    assert_eq!(store.counter(), 10);
}

#[test]
fn round_trip_of_256_entries() {
    let mut store = SledStore::new(new_tree()).unwrap();
    let cs: Vec<BTreeMap<u32, u32>> = (0..256u32).map(|i| changeset(&[(1, i)])).collect();
    for c in &cs {
        append(&mut store, c).unwrap();
    }
    assert_eq!(load(&store), cs);
}

#[test]
fn empty_changeset_is_not_stored() {
    let tree = new_tree();
    let mut store = SledStore::new(tree.clone()).unwrap();
    append(&mut store, &changeset(&[(EXTERNAL, 1)])).unwrap();
    let len_before = tree.len();
    append(&mut store, &changeset(&[])).unwrap();
    assert_eq!(tree.len(), len_before);
    assert_eq!(store.counter(), 1);
    assert_eq!(stored_counter(&store).unwrap(), 1u64.to_le_bytes().to_vec());
    assert_eq!(load(&store), vec![changeset(&[(EXTERNAL, 1)])]);
}

#[test]
fn empty_changeset_on_fresh_log_writes_nothing() {
    let tree = new_tree();
    let mut store = SledStore::new(tree.clone()).unwrap();
    append(&mut store, &changeset(&[])).unwrap();
    assert_eq!(tree.len(), 0);
    assert_eq!(store.counter(), 0);
}

#[test]
fn reopen_continues_the_sequence() {
    let tree = new_tree();
    let mut store = SledStore::new(tree.clone()).unwrap();
    for i in 0..3u32 {
        append(&mut store, &changeset(&[(EXTERNAL, i)])).unwrap();
    }
    drop(store);

    let mut reopened = SledStore::new(tree.clone()).unwrap();
    assert_eq!(reopened.counter(), 3);
    append(&mut reopened, &changeset(&[(EXTERNAL, 99)])).unwrap();
    assert_eq!(
        reopened.stored(&3u64.to_le_bytes()).unwrap(),
        Some(encode(&changeset(&[(EXTERNAL, 99)])))
    );
    assert_eq!(
        reopened.stored(&0u64.to_le_bytes()).unwrap(),
        Some(encode(&changeset(&[(EXTERNAL, 0)])))
    );
    assert_eq!(load(&reopened).len(), 4);
}

#[test]
fn restored_counter_places_next_entry() {
    let tree = new_tree();
    tree.insert("counter", &42u64.to_le_bytes()).unwrap();
    let mut store = SledStore::new(tree).unwrap();
    append(&mut store, &changeset(&[(EXTERNAL, 5)])).unwrap();
    assert_eq!(
        store.stored(&42u64.to_le_bytes()).unwrap(),
        Some(encode(&changeset(&[(EXTERNAL, 5)])))
    );
    assert_eq!(store.counter(), 43);
    assert_eq!(stored_counter(&store).unwrap(), 43u64.to_le_bytes().to_vec());
}

#[test]
fn short_counter_is_corrupt() {
    let tree = new_tree();
    tree.insert("counter", &[1u8, 2, 3]).unwrap();
    assert!(matches!(SledStore::new(tree), Err(LogError::CorruptState)));
}

#[test]
fn long_counter_is_corrupt() {
    let tree = new_tree();
    tree.insert("counter", &[0u8; 9]).unwrap();
    assert!(matches!(SledStore::new(tree), Err(LogError::CorruptState)));
}

#[test]
fn empty_counter_is_corrupt() {
    let tree = new_tree();
    tree.insert("counter", &[] as &[u8]).unwrap();
    assert!(matches!(SledStore::new(tree), Err(LogError::CorruptState)));
}

#[test]
fn load_twice_gives_the_same() {
    let mut store = SledStore::new(new_tree()).unwrap();
    for c in test_changesets() {
        append(&mut store, &c).unwrap();
    }
    let first = store.load_changesets().unwrap();
    let second = store.load_changesets().unwrap();
    assert_eq!(first, second);
    assert_eq!(store.counter(), 2);
}

#[test]
fn two_changesets_stored_at_zero_and_one() {
    let mut store = SledStore::new(new_tree()).unwrap();
    let [a, b]: [BTreeMap<u32, u32>; 2] = test_changesets().try_into().unwrap();
    append(&mut store, &a).unwrap();
    append(&mut store, &b).unwrap();
    assert_eq!(store.stored(&0u64.to_le_bytes()).unwrap(), Some(encode(&a)));
    assert_eq!(store.stored(&1u64.to_le_bytes()).unwrap(), Some(encode(&b)));
    assert_eq!(load(&store), vec![a, b]);
}

#[test]
fn stored_reads_an_absent_key() {
    let store = SledStore::new(new_tree()).unwrap();
    assert_eq!(store.stored(b"missing").unwrap(), None);
}
