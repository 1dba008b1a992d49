use xuehua::query::evict::{Evict, NoOp, DEFAULT_CAPACITY, LRU};
use xuehua::query::graph::{discover, evaluation_order};
use xuehua::query::store::{record_dependency, Memo, MemoSyncState, RootStep, Step, Store};
use xuehua::query::{Difference, Fingerprint, KeyIndex};

#[test]
fn fingerprint_roundtrip() {
    let mut memo = Memo::new();
    assert_eq!(memo.load_fingerprint(), None);
    memo.store_fingerprint(Some(Fingerprint(42)));
    assert_eq!(memo.load_fingerprint(), Some(Fingerprint(42)));
    memo.store_fingerprint(None);
    assert_eq!(memo.load_fingerprint(), None);
    // zero bits stand for "none"
    memo.store_fingerprint(Some(Fingerprint(0)));
    assert_eq!(memo.load_fingerprint(), None);
}

#[test]
fn sync_state_codes() {
    for code in 0u8..=2 {
        assert_eq!(MemoSyncState::from_u8(code).to_u8(), code);
    }
    assert_eq!(MemoSyncState::from_u8(1), MemoSyncState::Transitioning);
}

/// text -> length -> even, as in an early-cutoff scenario
fn chain() -> (Store, KeyIndex, KeyIndex, KeyIndex) {
    let mut store = Store::new();
    let text = store.new_memo();
    let length = store.new_memo();
    let even = store.new_memo();
    store.update(text);
    store.set_dependencies(length, vec![text]);
    store.post_compute(length, Difference::Changed);
    store.set_dependencies(even, vec![length]);
    store.post_compute(even, Difference::Changed);
    (store, text, length, even)
}

#[test]
fn test_early_cutoff_steps() {
    let (mut store, text, length, even) = chain();
    assert_eq!(store.evaluate_step(even), Step::Verified);
    store.advance_revision();
    store.update(text);
    // the length read the text, which changed
    assert_eq!(store.evaluate_step(length), Step::Recompute);
    // the length came out the same: the even check is cut off
    store.post_compute(length, Difference::Unchanged);
    assert_eq!(store.evaluate_step(even), Step::Unchanged);
    store.post_compute(even, Difference::Unchanged);
    assert_eq!(store.evaluate_step(even), Step::Verified);
}

#[test]
fn changed_dependency_forces_recompute() {
    let (mut store, text, length, even) = chain();
    store.advance_revision();
    store.update(text);
    store.post_compute(length, Difference::Changed);
    assert_eq!(store.evaluate_step(even), Step::Recompute);
    assert!(store.should_recompute(even, 1));
    assert!(store.should_recompute(even, 0));
}

#[test]
fn new_memo_is_never_verified() {
    let mut store = Store::new();
    let key = store.new_memo();
    assert_eq!(key, KeyIndex(0));
    assert_eq!(store.evaluate_step(key), Step::Recompute);
    assert_eq!(store.revision, 1);
}

#[test]
fn recording_dependencies_keeps_them_distinct() {
    let mut deps = Vec::new();
    record_dependency(&mut deps, KeyIndex(3));
    record_dependency(&mut deps, KeyIndex(1));
    record_dependency(&mut deps, KeyIndex(3));
    assert_eq!(deps, vec![KeyIndex(3), KeyIndex(1)]);
}

#[test]
fn discovery_orders_dependencies_first() {
    let (mut store, text, length, even) = chain();
    store.advance_revision();
    store.update(text);
    let mut plan = discover(&store, even);
    // the text is checked already; the length waits for nothing
    let leaves = plan.leaves(&store);
    assert_eq!(leaves, vec![length]);
    let ready = plan.complete(&store, length);
    // the root is left to the query
    assert!(ready.is_empty());
}

#[test]
fn discovery_waits_for_every_dependency() {
    let mut store = Store::new();
    let a = store.new_memo();
    let b = store.new_memo();
    let c = store.new_memo();
    let root = store.new_memo();
    store.set_dependencies(c, vec![a, b]);
    store.set_dependencies(root, vec![c]);
    let mut plan = discover(&store, root);
    let mut leaves = plan.leaves(&store);
    leaves.sort_by_key(|k| k.0);
    assert_eq!(leaves, vec![a, b]);
    assert!(plan.complete(&store, a).is_empty());
    assert_eq!(plan.complete(&store, b), vec![c]);
    assert!(plan.complete(&store, c).is_empty());
}

#[test]
fn lru_test_eviction() {
    let mut lru = LRU::new(NoOp);
    lru.resize(2);
    for i in 0..4 {
        lru.update(KeyIndex(i));
    }
    lru.update(KeyIndex(0));
    let mut evicted = lru.evict_garbage();
    evicted.sort_by_key(|k| k.0);
    assert_eq!(evicted, vec![KeyIndex(1), KeyIndex(2)]);
    assert!(lru.evict_garbage().is_empty());
}

#[test]
fn lru_keeps_everything_under_capacity() {
    let mut lru = LRU::new(NoOp);
    for i in 0..DEFAULT_CAPACITY {
        lru.update(KeyIndex(i));
    }
    assert!(lru.evict_garbage().is_empty());
}

#[test]
fn noop_evicts_nothing() {
    let mut noop = NoOp;
    assert!(noop.evict_garbage().is_empty());
    noop.evict_iter(vec![KeyIndex(1)]);
}

#[test]
fn an_updated_input_is_used_without_a_compute() {
    let (mut store, text, length, _even) = chain();
    store.advance_revision();
    store.update(text);
    assert_eq!(store.evaluate_step(text), Step::Verified);
    let verified_at = store.memos[text.0].verified_at;
    assert!(matches!(store.root_step(text, verified_at, true), RootStep::UseValue));
    // what read the input is computed again
    assert_eq!(store.evaluate_step(length), Step::Recompute);
}

#[test]
fn evaluation_order_lists_dependencies_first() {
    let mut store = Store::new();
    let a = store.new_memo();
    let b = store.new_memo();
    let c = store.new_memo();
    let root = store.new_memo();
    store.set_dependencies(c, vec![a, b]);
    store.set_dependencies(root, vec![c]);
    let order = evaluation_order(&store, root);
    assert_eq!(order.len(), 3);
    assert_eq!(order[2], c);
    assert!(order.contains(&a) && order.contains(&b));
    assert!(!order.contains(&root));
}

#[test]
fn evaluation_order_skips_checked_memos() {
    let (mut store, text, length, even) = chain();
    store.advance_revision();
    store.update(text);
    assert_eq!(evaluation_order(&store, even), vec![length]);
}

#[test]
fn evaluation_order_leaves_out_a_cycle_through_the_root() {
    let mut store = Store::new();
    let a = store.new_memo();
    let root = store.new_memo();
    store.set_dependencies(a, vec![root]);
    store.set_dependencies(root, vec![a]);
    assert!(evaluation_order(&store, root).is_empty());
}

#[test]
fn upcoming_revision_evicts_from_every_database() {
    let (mut store, _text, _length, _even) = chain();
    let mut databases = vec![LRU::new(NoOp), LRU::new(NoOp)];
    databases[0].resize(1);
    databases[1].resize(1);
    for database in databases.iter_mut() {
        database.update(KeyIndex(0));
        database.update(KeyIndex(1));
    }
    let revision = store.revision;
    store.upcoming(&mut databases);
    assert_eq!(store.revision, revision + 1);
    assert_eq!(databases.len(), 2);
    // each database already dropped its least recently used key
    for database in databases.iter_mut() {
        assert!(database.evict_garbage().is_empty());
    }
}
