use xuehua::query::database::{Database, Fallible, InMemory, NoOp, Persist};
use xuehua::query::evict::{Evict, LRU};
use xuehua::query::store::Store;
use xuehua::query::{Difference, Fingerprint, KeyIndex};

#[test]
fn in_memory_test_eviction() {
    let mut database = InMemory::<(), usize>::new();
    let idx = database.index(&(), KeyIndex(0));

    database.pass_value(idx, 0);
    database.eviction().evict_iter(vec![idx]);

    assert_eq!(database.key(idx), None);
    assert_eq!(database.value(idx), None);
}

#[test]
fn in_memory_finds_keys_again() {
    let mut database = InMemory::<&str, u8>::new();
    let a = database.index(&"a", KeyIndex(5));
    assert_eq!(a, KeyIndex(5));
    assert_eq!(database.index(&"a", KeyIndex(9)), KeyIndex(5));
    assert_eq!(database.index(&"b", KeyIndex(6)), KeyIndex(6));
    assert_eq!(database.key(KeyIndex(5)), Some("a"));
    assert_eq!(database.key(KeyIndex(6)), Some("b"));
    assert_eq!(database.key(KeyIndex(7)), None);
}

#[test]
fn in_memory_reports_differences() {
    let mut database = InMemory::<u8, &str>::new();
    let idx = database.index(&1, KeyIndex(0));
    assert_eq!(database.value(idx), None);
    assert!(matches!(database.pass_value(idx, "hello"), ("hello", Difference::Changed)));
    assert!(matches!(database.pass_value(idx, "hello"), ("hello", Difference::Unchanged)));
    assert!(matches!(database.pass_value(idx, "world"), ("world", Difference::Changed)));
    assert_eq!(database.value(idx), Some("world"));
    assert!(database.evict_garbage().is_empty());
}

#[test]
fn in_memory_eviction_forgets_the_key() {
    let mut database = InMemory::<u8, u8>::new();
    let idx = database.index(&3, KeyIndex(0));
    database.pass_value(idx, 9);
    database.evict_iter(vec![idx]);
    // the key is new again, and gets a new index
    assert_eq!(database.index(&3, KeyIndex(1)), KeyIndex(1));
    assert_eq!(database.value(KeyIndex(1)), None);
}

#[test]
fn fallible_passes_errors_through_as_changed() {
    let mut database: Fallible<String, InMemory<u8, u8>> = Fallible::new(InMemory::new());
    let idx = database.index(&1, KeyIndex(0));
    assert!(matches!(database.pass_value(idx, Ok(4)), (Ok(4), Difference::Changed)));
    assert!(matches!(database.pass_value(idx, Ok(4)), (Ok(4), Difference::Unchanged)));
    match database.pass_value(idx, Err("broken".to_string())) {
        (Err(message), Difference::Changed) => assert_eq!(message, "broken"),
        _ => panic!("an error always counts as changed"),
    }
    // the error was not stored
    assert!(matches!(database.value(idx), Some(Ok(4))));
    assert_eq!(database.persistence().fingerprint(&Err("x".to_string())), None);
    assert_eq!(database.persistence().fingerprint(&Ok(4)), None);
}

#[test]
fn no_persistence_keeps_nothing() {
    let persist: NoOp<u8> = NoOp::new();
    assert_eq!(persist.fingerprint(&1), None::<Fingerprint>);
    assert_eq!(persist.serialize(&1), None);
    assert_eq!(persist.deserialize(&vec![1, 2]), None);
}

#[test]
fn lru_database_evicts_the_least_recently_used_value() {
    let mut database = LRU::new(InMemory::<u8, u8>::new());
    database.resize(1);
    let a = database.index(&1, KeyIndex(0));
    let b = database.index(&2, KeyIndex(1));
    database.pass_value(a, 10);
    database.pass_value(b, 20);
    let evicted = database.eviction().evict_garbage();
    assert_eq!(evicted, vec![a]);
    assert_eq!(database.value(a), None);
    assert_eq!(database.value(b), Some(20));
}

#[test]
fn store_gives_each_new_key_a_memo() {
    let mut store = Store::new();
    let mut database = InMemory::<&str, u8>::new();
    assert_eq!(store.index_of(&mut database, &"a"), KeyIndex(0));
    assert_eq!(store.memos.len(), 1);
    assert_eq!(store.index_of(&mut database, &"a"), KeyIndex(0));
    assert_eq!(store.memos.len(), 1);
    assert_eq!(store.index_of(&mut database, &"b"), KeyIndex(1));
    assert_eq!(store.memos.len(), 2);
    assert_eq!(database.key(KeyIndex(1)), Some("b"));
}

#[test]
fn lru_database_keeps_the_most_recent_values() {
    let mut database = LRU::new(InMemory::<u64, u64>::new());
    for i in 0..1024u64 {
        let idx = database.index(&i, KeyIndex(i as usize));
        database.pass_value(idx, i * 10);
    }
    let mut evicted = database.eviction().evict_garbage();
    evicted.sort_by_key(|k| k.0);
    assert_eq!(evicted, (0..512).map(KeyIndex).collect::<Vec<_>>());
    // nothing over capacity: nothing more goes
    assert!(database.eviction().evict_garbage().is_empty());
    assert_eq!(database.value(KeyIndex(3)), None);
    assert_eq!(database.value(KeyIndex(700)), Some(7000));
    // the evicted key is new again
    assert_eq!(database.index(&3, KeyIndex(2000)), KeyIndex(2000));
}
