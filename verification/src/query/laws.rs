//! What holds of the query engine across its operations.
use vstd::prelude::*;

use crate::query::graph::{deps, Plan};
use crate::query::store::{
    changed_after, fingerprint_bits, fingerprint_from_bits, pending, root_step_of, step_of, sync_state_code,
    MemoSyncState, RootStep, Step, Store,
};
use crate::query::{Fingerprint, KeyIndex};

verus! {

/// A stored fingerprint reads back as it was stored, for every fingerprint
/// but `Fingerprint(0)`, whose bits mean "none".
pub proof fn law_fingerprint_roundtrip(value: Option<Fingerprint>)
    requires
        value != Some(Fingerprint(0)),
    ensures
        fingerprint_from_bits(fingerprint_bits(value)) == value,
{
}

/// Each synchronization state has its own code, and every code is at most 2:
/// decoding an encoded state gives it back.
pub proof fn law_sync_state_codes(a: MemoSyncState, b: MemoSyncState)
    ensures
        sync_state_code(a) <= 2,
        sync_state_code(a) == sync_state_code(b) ==> a == b,
{
}

/// A memo already checked in this revision is not checked again.
pub proof fn law_checked_once(store: &Store, key: KeyIndex)
    requires
        store.wf(),
        key.0 < store.memos@.len(),
        store.memos@[key.0 as int].verified_at == store.revision,
    ensures
        step_of(store, key) == Step::Verified,
{
}

/// Early cutoff: a memo computed before, none of whose dependencies changed
/// after it was last checked, is not computed again.
pub proof fn law_early_cutoff(store: &Store, key: KeyIndex)
    requires
        store.wf(),
        key.0 < store.memos@.len(),
        store.memos@[key.0 as int].verified_at != store.revision,
        store.memos@[key.0 as int].verified_at != 0,
        forall|j: int|
            0 <= j < deps(store, key).len() ==> !changed_after(
                store,
                #[trigger] deps(store, key)[j],
                store.memos@[key.0 as int].verified_at,
            ),
    ensures
        step_of(store, key) == Step::Unchanged,
{
    let verified_at = store.memos@[key.0 as int].verified_at;
    if exists|j: int|
        0 <= j < store.memos@[key.0 as int].dependencies@.len() && changed_after(
            store,
            #[trigger] store.memos@[key.0 as int].dependencies@[j],
            verified_at,
        ) {
        let j = choose|j: int|
            0 <= j < store.memos@[key.0 as int].dependencies@.len() && changed_after(
                store,
                #[trigger] store.memos@[key.0 as int].dependencies@[j],
                verified_at,
            );
        assert(deps(store, key)[j] == store.memos@[key.0 as int].dependencies@[j]);
    }
}

/// A memo that read a key which changed in the current revision, and was not
/// checked yet in it, is computed again.
pub proof fn law_change_propagates(store: &Store, key: KeyIndex, j: int)
    requires
        store.wf(),
        key.0 < store.memos@.len(),
        0 <= j < deps(store, key).len(),
        store.memos@[deps(store, key)[j].0 as int].changed_at == store.revision,
        store.memos@[key.0 as int].verified_at != store.revision,
    ensures
        step_of(store, key) == Step::Recompute,
{
    let input = deps(store, key)[j];
    assert(changed_after(store, input, store.memos@[key.0 as int].verified_at));
}

/// A discovered memo that waits for nothing has every unchecked dependency
/// finished: no memo is checked before what it read.
pub proof fn law_ready_after_dependencies(store: &Store, plan: &Plan, key: KeyIndex)
    requires
        store.wf(),
        plan.wf(store),
        plan.order().contains(key),
        pending(store, key),
        plan.remaining(key.0 as int) == 0,
    ensures
        forall|j: int|
            0 <= j < deps(store, key).len() && pending(store, #[trigger] deps(store, key)[j])
                ==> plan.finished()[deps(store, key)[j].0 as int],
{
    let i = choose|i: int| 0 <= i < plan.order().len() && plan.order()[i] == key;
    assert(key.0 < store.memos@.len());
    assert(KeyIndex(key.0 as usize) == key);
    assert forall|j: int|
        0 <= j < deps(store, key).len() && pending(store, #[trigger] deps(store, key)[j]) implies plan.finished()[deps(
        store,
        key,
    )[j].0 as int] by {
        let d = deps(store, key)[j];
        let p = crate::query::graph::is_outstanding(*store, plan.finished());
        if !plan.finished()[d.0 as int] {
            deps(store, key).lemma_filter_contains(p, j);
        }
    }
}

/// Setting an input (what [`Store::update`] does in the current revision)
/// hands it out as set: a query of the input uses the stored value and
/// computes nothing, and a memo that read the input and was not checked in
/// this revision is computed again.
pub proof fn law_input_update(before: &Store, after: &Store, key: KeyIndex, reader: KeyIndex, j: int)
    requires
        before.wf(),
        key.0 < before.memos@.len(),
        after.wf(),
        after.revision == before.revision,
        after.memos@.len() == before.memos@.len(),
        after.memos@[key.0 as int].verified_at == before.revision,
        after.memos@[key.0 as int].changed_at == before.revision,
    ensures
        step_of(after, key) == Step::Verified,
        root_step_of(after, key, after.memos@[key.0 as int].verified_at, true) == RootStep::UseValue,
        reader.0 < after.memos@.len() && 0 <= j < deps(after, reader).len() && deps(after, reader)[j] == key
            && after.memos@[reader.0 as int].verified_at != after.revision ==> step_of(after, reader)
            == Step::Recompute,
{
    if reader.0 < after.memos@.len() && 0 <= j < deps(after, reader).len() && deps(after, reader)[j] == key
        && after.memos@[reader.0 as int].verified_at != after.revision {
        law_change_propagates(after, reader, j);
    }
}

/// The values of every key at revision `r`, as a function of the key.
pub open spec fn values_at<V>(history: spec_fn(KeyIndex, int) -> V, r: int) -> spec_fn(KeyIndex) -> V {
    |d: KeyIndex| history(d, r)
}

/// Memoization never changes a result. Let `history(k, r)` be the value a
/// key has when computed from scratch on the inputs of revision `r`, and let
/// memo `key` be computed by `compute` from the values it reads, reading only
/// its recorded dependencies. When the step for `key` reuses its value
/// (nothing it read changed after it was last checked), each of its
/// dependencies is checked in this revision, and each dependency's value has
/// stayed the same since the revision it last changed, then the value stored
/// when `key` was last checked is its value from scratch now, and it was its
/// value in every revision since.
pub proof fn law_reuse_matches_scratch<V>(
    store: &Store,
    key: KeyIndex,
    history: spec_fn(KeyIndex, int) -> V,
    compute: spec_fn(spec_fn(KeyIndex) -> V) -> V,
    stored: V,
)
    requires
        store.wf(),
        key.0 < store.memos@.len(),
        step_of(store, key) == Step::Unchanged,
        stored == history(key, store.memos@[key.0 as int].verified_at as int),
        forall|r: int| #[trigger] history(key, r) == compute(values_at(history, r)),
        forall|f1: spec_fn(KeyIndex) -> V, f2: spec_fn(KeyIndex) -> V|
            (forall|j: int| 0 <= j < deps(store, key).len() ==> f1(#[trigger] deps(store, key)[j]) == f2(
                deps(store, key)[j],
            )) ==> #[trigger] compute(f1) == #[trigger] compute(f2),
        forall|j: int|
            0 <= j < deps(store, key).len() ==> store.memos@[(#[trigger] deps(store, key)[j]).0 as int].verified_at
                == store.revision,
        forall|j: int, r: int|
            0 <= j < deps(store, key).len() && store.memos@[(#[trigger] deps(store, key)[j]).0 as int].changed_at
                <= r <= store.revision ==> #[trigger] history(deps(store, key)[j], r) == history(
                deps(store, key)[j],
                store.revision as int,
            ),
    ensures
        stored == history(key, store.revision as int),
        forall|r: int|
            store.memos@[key.0 as int].verified_at <= r <= store.revision ==> #[trigger] history(key, r)
                == stored,
{
    let v = store.memos@[key.0 as int].verified_at as int;
    let now = store.revision as int;
    let ds = deps(store, key);
    assert forall|j: int| 0 <= j < ds.len() implies !changed_after(store, #[trigger] ds[j], v as usize) by {
        assert(ds[j] == store.memos@[key.0 as int].dependencies@[j]);
    }
    assert forall|r: int| v <= r <= now implies #[trigger] history(key, r) == history(key, now) by {
        let f1 = values_at(history, r);
        let f2 = values_at(history, now);
        assert forall|j: int| 0 <= j < ds.len() implies f1(#[trigger] ds[j]) == f2(ds[j]) by {
            assert(!changed_after(store, ds[j], v as usize));
            assert(history(ds[j], r) == history(ds[j], now));
        }
        assert(compute(f1) == compute(f2));
    }
    assert(history(key, v) == history(key, now));
}

/// Some dependency of memo `key` changed after revision `verified_at`.
pub open spec fn dependency_changed_after(store: &Store, key: KeyIndex, verified_at: usize) -> bool {
    exists|j: int|
        0 <= j < deps(store, key).len() && verified_at < store.memos@[(#[trigger] deps(
            store,
            key,
        )[j]).0 as int].changed_at
}

/// What the root of a query calls for, given the revision `verified_at` at
/// which it was last checked and whether its value is at hand: checked in
/// this revision, its value is used (or computed, unrecorded, when it is
/// gone); otherwise, when it was never checked or some dependency changed
/// after `verified_at`, it is computed again and recorded; only when nothing
/// it read changed since, and its value is at hand, is that value kept.
pub proof fn law_root_step(store: &Store, key: KeyIndex, verified_at: usize, has_value: bool)
    requires
        store.wf(),
        key.0 < store.memos@.len(),
    ensures
        verified_at == store.revision && has_value ==> root_step_of(store, key, verified_at, has_value)
            == RootStep::UseValue,
        verified_at == store.revision && !has_value ==> root_step_of(store, key, verified_at, has_value)
            == (RootStep::Compute { record: false }),
        verified_at != store.revision && (verified_at == 0 || dependency_changed_after(store, key, verified_at))
            ==> root_step_of(store, key, verified_at, has_value) == (RootStep::Compute { record: true }),
        verified_at != store.revision && verified_at != 0 && !dependency_changed_after(store, key, verified_at)
            && has_value ==> root_step_of(store, key, verified_at, has_value) == RootStep::Unchanged,
        verified_at != store.revision && !has_value ==> root_step_of(store, key, verified_at, has_value)
            == (RootStep::Compute { record: true }),
{
    let ds = deps(store, key);
    if dependency_changed_after(store, key, verified_at) {
        let j = choose|j: int|
            0 <= j < ds.len() && verified_at < store.memos@[(#[trigger] ds[j]).0 as int].changed_at;
        assert(changed_after(store, store.memos@[key.0 as int].dependencies@[j], verified_at));
    } else {
        assert forall|j: int| 0 <= j < store.memos@[key.0 as int].dependencies@.len() implies !changed_after(
            store,
            #[trigger] store.memos@[key.0 as int].dependencies@[j],
            verified_at,
        ) by {
            assert(ds[j] == store.memos@[key.0 as int].dependencies@[j]);
        }
    }
}

} // verus!
