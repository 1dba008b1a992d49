//! Memos and the store that holds them.
//!
//! Revision `0` is never a live revision: a memo whose `verified_at` is `0`
//! has never been computed.
use vstd::prelude::*;

use crate::query::database::Database;
use crate::query::evict::Evict;
use crate::query::{Difference, Fingerprint, KeyIndex};

verus! {

/// The stored bits that stand for an optional fingerprint: `0` is "none".
pub open spec fn fingerprint_bits(value: Option<Fingerprint>) -> u64 {
    match value {
        Some(fingerprint) => fingerprint.0,
        None => 0,
    }
}

/// The optional fingerprint that stored bits stand for.
pub open spec fn fingerprint_from_bits(bits: u64) -> Option<Fingerprint> {
    if bits == 0 {
        None
    } else {
        Some(Fingerprint(bits))
    }
}

/// Bookkeeping of one memoized key.
#[derive(Debug)]
pub struct Memo {
    /// The keys read by the last computation of this key (no key twice).
    pub dependencies: Vec<KeyIndex>,
    /// The revision in which this memo was last checked.
    pub verified_at: usize,
    /// The revision in which this memo's value last changed.
    pub changed_at: usize,
    /// The fingerprint of the memoized value; `0` stands for none.
    pub fingerprint: u64,
}

impl Memo {
    /// A memo that has never been computed.
    pub fn new() -> (memo: Memo)
        ensures
            memo.dependencies@ == Seq::<KeyIndex>::empty(),
            memo.verified_at == 0,
            memo.changed_at == 0,
            memo.fingerprint == 0,
    {
        Memo { dependencies: Vec::new(), verified_at: 0, changed_at: 0, fingerprint: 0 }
    }

    /// Loads the fingerprint of the memoized value, if one was stored.
    pub fn load_fingerprint(&self) -> (r: Option<Fingerprint>)
        ensures
            r == fingerprint_from_bits(self.fingerprint),
    {
        if self.fingerprint == 0 {
            None
        } else {
            Some(Fingerprint(self.fingerprint))
        }
    }

    /// Stores the fingerprint of the memoized value (`None` clears it).
    pub fn store_fingerprint(&mut self, value: Option<Fingerprint>)
        ensures
            final(self).fingerprint == fingerprint_bits(value),
            final(self).dependencies == old(self).dependencies,
            final(self).verified_at == old(self).verified_at,
            final(self).changed_at == old(self).changed_at,
    {
        self.fingerprint = match value {
            Some(fingerprint) => fingerprint.0,
            None => 0,
        };
    }
}

/// Initialization state of a lazily filled memo slot.
#[derive(Debug, Clone, Copy, PartialEq, Eq, Structural)]
pub enum MemoSyncState {
    Uninitialized,
    Transitioning,
    Initialized,
}

/// The number that encodes a [`MemoSyncState`].
pub open spec fn sync_state_code(state: MemoSyncState) -> u8 {
    match state {
        MemoSyncState::Uninitialized => 0,
        MemoSyncState::Transitioning => 1,
        MemoSyncState::Initialized => 2,
    }
}

impl MemoSyncState {
    /// Decodes a state; only `0`, `1` and `2` are states.
    pub fn from_u8(value: u8) -> (state: MemoSyncState)
        requires
            value <= 2,
        ensures
            sync_state_code(state) == value,
    {
        match value {
            0 => MemoSyncState::Uninitialized,
            1 => MemoSyncState::Transitioning,
            _ => MemoSyncState::Initialized,
        }
    }

    /// Encodes a state.
    pub fn to_u8(self) -> (value: u8)
        ensures
            value == sync_state_code(self),
    {
        match self {
            MemoSyncState::Uninitialized => 0,
            MemoSyncState::Transitioning => 1,
            MemoSyncState::Initialized => 2,
        }
    }
}

/// The memos of every key the engine has seen, and the current revision.
#[derive(Debug)]
pub struct Store {
    pub memos: Vec<Memo>,
    pub revision: usize,
}

/// Whether memo `i` of `store` was last checked before the current revision.
pub open spec fn pending(store: &Store, key: KeyIndex) -> bool {
    store.memos@[key.0 as int].verified_at != store.revision
}

/// Whether `key` has changed after revision `verified_at`.
pub open spec fn changed_after(store: &Store, key: KeyIndex, verified_at: usize) -> bool {
    store.memos@[key.0 as int].changed_at > verified_at
}

impl Store {
    /// Well-formedness: the revision is live, no memo is ahead of it, a memo's
    /// value never changed after it was last checked, and every dependency is
    /// the index of a memo and occurs once.
    pub open spec fn wf(&self) -> bool {
        &&& self.revision >= 1
        &&& forall|i: int|
            #![trigger self.memos@[i]]
            0 <= i < self.memos@.len() ==> {
                let memo = self.memos@[i];
                &&& memo.changed_at <= memo.verified_at <= self.revision
                &&& memo.dependencies@.no_duplicates()
                &&& forall|j: int|
                    0 <= j < memo.dependencies@.len() ==> (#[trigger] memo.dependencies@[j]).0
                        < self.memos@.len()
            }
    }

    /// An empty store at the first revision.
    pub fn new() -> (store: Store)
        ensures
            store.wf(),
            store.revision == 1,
            store.memos@.len() == 0,
    {
        Store { memos: Vec::new(), revision: 1 }
    }

    /// The index of `key` in `database`: a key the database has not seen
    /// gets the next index, with a new memo for it.
    pub fn index_of<D: Database>(&mut self, database: &mut D, key: &D::Key) -> (idx: KeyIndex)
        requires
            old(self).wf(),
        ensures
            final(self).wf(),
            final(self).revision == old(self).revision,
            idx.0 == old(self).memos@.len() ==> {
                &&& final(self).memos@.len() == old(self).memos@.len() + 1
                &&& final(self).memos@.drop_last() == old(self).memos@
                &&& final(self).memos@[idx.0 as int].verified_at == 0
                &&& final(self).memos@[idx.0 as int].changed_at == 0
                &&& final(self).memos@[idx.0 as int].dependencies@.len() == 0
                &&& final(self).memos@[idx.0 as int].fingerprint == 0
            },
            idx.0 != old(self).memos@.len() ==> final(self).memos@ == old(self).memos@,
            exists|m: &mut D|
                mut_ref_current(m) == *old(database) && mut_ref_future(m) == *final(database)
                    && #[trigger] call_ensures(D::index, (m, key, KeyIndex(old(self).memos@.len() as usize)), idx),
    {
        let fresh = KeyIndex(self.memos.len());
        proof {
            assert(fresh == KeyIndex(old(self).memos@.len() as usize));
        }
        let idx = database.index(key, fresh);
        if idx.0 == fresh.0 {
            let _ = self.new_memo();
            proof {
                assert(self.memos@.drop_last() =~= old(self).memos@);
            }
        }
        idx
    }

    /// Adds a memo for a key seen for the first time, and returns its index.
    pub fn new_memo(&mut self) -> (key: KeyIndex)
        requires
            old(self).wf(),
        ensures
            final(self).wf(),
            key.0 == old(self).memos@.len(),
            final(self).revision == old(self).revision,
            final(self).memos@.len() == old(self).memos@.len() + 1,
            forall|i: int|
                0 <= i < old(self).memos@.len() ==> final(self).memos@[i] == old(self).memos@[i],
            final(self).memos@[key.0 as int].verified_at == 0,
            final(self).memos@[key.0 as int].changed_at == 0,
            final(self).memos@[key.0 as int].dependencies@.len() == 0,
            final(self).memos@[key.0 as int].fingerprint == 0,
    {
        let key = KeyIndex(self.memos.len());
        self.memos.push(Memo::new());
        proof {
            assert forall|i: int| #![trigger self.memos@[i]] 0 <= i < self.memos@.len() implies {
                let memo = self.memos@[i];
                &&& memo.changed_at <= memo.verified_at <= self.revision
                &&& memo.dependencies@.no_duplicates()
                &&& forall|j: int|
                    0 <= j < memo.dependencies@.len() ==> (#[trigger] memo.dependencies@[j]).0
                        < self.memos@.len()
            } by {
                if i < old(self).memos@.len() {
                    assert(self.memos@[i] == old(self).memos@[i]);
                }
            }
        }
        key
    }

    /// Opens the next revision, before inputs are updated.
    pub fn advance_revision(&mut self)
        requires
            old(self).wf(),
            old(self).revision < usize::MAX,
        ensures
            final(self).wf(),
            final(self).revision == old(self).revision + 1,
            final(self).memos == old(self).memos,
    {
        self.revision = self.revision + 1;
    }

    /// Opens the next revision and lets every database evict its garbage,
    /// once each; the keys each one evicts are dropped, and each database
    /// keeps its place.
    pub fn upcoming<E: Evict>(&mut self, databases: &mut Vec<E>)
        requires
            old(self).wf(),
            old(self).revision < usize::MAX,
        ensures
            final(self).wf(),
            final(self).revision == old(self).revision + 1,
            final(self).memos == old(self).memos,
            final(databases)@.len() == old(databases)@.len(),
            forall|i: int|
                #![trigger old(databases)@[i]]
                0 <= i < old(databases)@.len() ==> exists|m: &mut E, evicted: Vec<KeyIndex>|
                    mut_ref_current(m) == old(databases)@[i] && mut_ref_future(m) == final(databases)@[i]
                        && #[trigger] call_ensures(E::evict_garbage, (m,), evicted),
        decreases old(databases)@.len(),
    {
        let ghost start = databases@;
        if databases.len() == 0 {
            self.advance_revision();
        } else {
            let mut last = databases.pop().unwrap();
            let _evicted = last.evict_garbage();
            let ghost rest = databases@;
            self.upcoming(databases);
            let ghost evicted_rest = databases@;
            databases.push(last);
            proof {
                assert forall|i: int| #![trigger start[i]] 0 <= i < start.len() - 1 implies rest[i] == start[i]
                    && databases@[i] == evicted_rest[i] by {}
            }
        }
    }

    /// Records that input `key` was set in the current revision: it is verified
    /// and changed now, and depends on nothing.
    pub fn update(&mut self, key: KeyIndex)
        requires
            old(self).wf(),
            key.0 < old(self).memos@.len(),
        ensures
            final(self).wf(),
            final(self).revision == old(self).revision,
            final(self).memos@.len() == old(self).memos@.len(),
            final(self).memos@[key.0 as int].verified_at == old(self).revision,
            final(self).memos@[key.0 as int].changed_at == old(self).revision,
            final(self).memos@[key.0 as int].dependencies@.len() == 0,
            final(self).memos@[key.0 as int].fingerprint == old(self).memos@[key.0 as int].fingerprint,
            forall|i: int|
                0 <= i < old(self).memos@.len() && i != key.0 ==> final(self).memos@[i]
                    == old(self).memos@[i],
    {
        let revision = self.revision;
        let mut memo = self.memos.remove(key.0);
        memo.verified_at = revision;
        memo.changed_at = revision;
        memo.dependencies = Vec::new();
        self.memos.insert(key.0, memo);
        proof {
            assert forall|i: int|
                0 <= i < old(self).memos@.len() && i != key.0 implies self.memos@[i]
                == old(self).memos@[i] by {}
            assert forall|i: int| #![trigger self.memos@[i]] 0 <= i < self.memos@.len() implies {
                let memo = self.memos@[i];
                &&& memo.changed_at <= memo.verified_at <= self.revision
                &&& memo.dependencies@.no_duplicates()
                &&& forall|j: int|
                    0 <= j < memo.dependencies@.len() ==> (#[trigger] memo.dependencies@[j]).0
                        < self.memos@.len()
            } by {
                if i != key.0 {
                    assert(self.memos@[i] == old(self).memos@[i]);
                }
            }
        }
    }

    /// Marks memo `key` as checked in the current revision, and as changed
    /// too when `diff` says so.
    pub fn post_compute(&mut self, key: KeyIndex, diff: Difference)
        requires
            old(self).wf(),
            key.0 < old(self).memos@.len(),
        ensures
            final(self).wf(),
            final(self).revision == old(self).revision,
            final(self).memos@.len() == old(self).memos@.len(),
            final(self).memos@[key.0 as int].verified_at == old(self).revision,
            final(self).memos@[key.0 as int].changed_at == (if diff == Difference::Changed {
                old(self).revision
            } else {
                old(self).memos@[key.0 as int].changed_at
            }),
            final(self).memos@[key.0 as int].dependencies
                == old(self).memos@[key.0 as int].dependencies,
            final(self).memos@[key.0 as int].fingerprint == old(self).memos@[key.0 as int].fingerprint,
            forall|i: int|
                0 <= i < old(self).memos@.len() && i != key.0 ==> final(self).memos@[i]
                    == old(self).memos@[i],
    {
        let revision = self.revision;
        let mut memo = self.memos.remove(key.0);
        memo.verified_at = revision;
        if diff == Difference::Changed {
            memo.changed_at = revision;
        }
        self.memos.insert(key.0, memo);
        proof {
            assert forall|i: int|
                0 <= i < old(self).memos@.len() && i != key.0 implies self.memos@[i]
                == old(self).memos@[i] by {}
            assert forall|i: int| #![trigger self.memos@[i]] 0 <= i < self.memos@.len() implies {
                let memo = self.memos@[i];
                &&& memo.changed_at <= memo.verified_at <= self.revision
                &&& memo.dependencies@.no_duplicates()
                &&& forall|j: int|
                    0 <= j < memo.dependencies@.len() ==> (#[trigger] memo.dependencies@[j]).0
                        < self.memos@.len()
            } by {
                if i != key.0 {
                    assert(self.memos@[i] == old(self).memos@[i]);
                }
            }
        }
    }

    /// Replaces the dependencies recorded for memo `key`.
    pub fn set_dependencies(&mut self, key: KeyIndex, dependencies: Vec<KeyIndex>)
        requires
            old(self).wf(),
            key.0 < old(self).memos@.len(),
            dependencies@.no_duplicates(),
            forall|j: int|
                0 <= j < dependencies@.len() ==> (#[trigger] dependencies@[j]).0 < old(
                    self,
                ).memos@.len(),
        ensures
            final(self).wf(),
            final(self).revision == old(self).revision,
            final(self).memos@.len() == old(self).memos@.len(),
            final(self).memos@[key.0 as int].dependencies@ == dependencies@,
            final(self).memos@[key.0 as int].verified_at
                == old(self).memos@[key.0 as int].verified_at,
            final(self).memos@[key.0 as int].changed_at
                == old(self).memos@[key.0 as int].changed_at,
            final(self).memos@[key.0 as int].fingerprint == old(self).memos@[key.0 as int].fingerprint,
            forall|i: int|
                0 <= i < old(self).memos@.len() && i != key.0 ==> final(self).memos@[i]
                    == old(self).memos@[i],
    {
        let mut memo = self.memos.remove(key.0);
        memo.dependencies = dependencies;
        self.memos.insert(key.0, memo);
        proof {
            assert forall|i: int|
                0 <= i < old(self).memos@.len() && i != key.0 implies self.memos@[i]
                == old(self).memos@[i] by {}
            assert forall|i: int| #![trigger self.memos@[i]] 0 <= i < self.memos@.len() implies {
                let memo = self.memos@[i];
                &&& memo.changed_at <= memo.verified_at <= self.revision
                &&& memo.dependencies@.no_duplicates()
                &&& forall|j: int|
                    0 <= j < memo.dependencies@.len() ==> (#[trigger] memo.dependencies@[j]).0
                        < self.memos@.len()
            } by {
                if i != key.0 {
                    assert(self.memos@[i] == old(self).memos@[i]);
                }
            }
        }
    }

    /// Whether memo `key`, last checked at `verified_at`, must be computed
    /// again: it never was, or one of its dependencies changed after that.
    pub fn should_recompute(&self, key: KeyIndex, verified_at: usize) -> (r: bool)
        requires
            self.wf(),
            key.0 < self.memos@.len(),
        ensures
            r == (verified_at == 0 || exists|j: int|
                0 <= j < self.memos@[key.0 as int].dependencies@.len() && changed_after(
                    self,
                    #[trigger] self.memos@[key.0 as int].dependencies@[j],
                    verified_at,
                )),
    {
        if verified_at == 0 {
            return true;
        }
        let memo = &self.memos[key.0];
        let mut j: usize = 0;
        while j < memo.dependencies.len()
            invariant
                self.wf(),
                key.0 < self.memos@.len(),
                memo == self.memos@[key.0 as int],
                j <= memo.dependencies@.len(),
                forall|k: int|
                    0 <= k < j ==> !changed_after(self, #[trigger] memo.dependencies@[k], verified_at),
            decreases memo.dependencies@.len() - j,
        {
            let dependency = memo.dependencies[j];
            if self.memos[dependency.0].changed_at > verified_at {
                return true;
            }
            j = j + 1;
        }
        false
    }

    /// What checking memo `key` in the current revision calls for.
    pub fn evaluate_step(&self, key: KeyIndex) -> (step: Step)
        requires
            self.wf(),
            key.0 < self.memos@.len(),
        ensures
            step == step_of(self, key),
    {
        let verified_at = self.memos[key.0].verified_at;
        if verified_at == self.revision {
            Step::Verified
        } else if self.should_recompute(key, verified_at) {
            Step::Recompute
        } else {
            Step::Unchanged
        }
    }
}

/// What a query does with its root memo, once the memos below it are
/// checked.
#[derive(Debug, Clone, Copy, PartialEq, Eq, Structural)]
pub enum RootStep {
    /// Hand out the stored value.
    UseValue,
    /// Mark the memo checked, unchanged, and hand out the stored value.
    Unchanged,
    /// Compute the value; when `record` holds, then mark the memo checked
    /// and record what it read.
    Compute { record: bool },
}

impl Store {
    /// What the query does with its root memo `key`, checked last at
    /// `verified_at`, when the database does (`has_value`) or does not hold
    /// its value: a memo checked in this revision hands out its value, or is
    /// computed without being recorded again; otherwise a memo none of whose
    /// dependencies changed is marked unchanged if its value is there, and
    /// any other is computed and recorded.
    pub fn root_step(&self, key: KeyIndex, verified_at: usize, has_value: bool) -> (step: RootStep)
        requires
            self.wf(),
            key.0 < self.memos@.len(),
        ensures
            step == root_step_of(self, key, verified_at, has_value),
    {
        if verified_at == self.revision {
            if has_value {
                RootStep::UseValue
            } else {
                RootStep::Compute { record: false }
            }
        } else if !self.should_recompute(key, verified_at) && has_value {
            RootStep::Unchanged
        } else {
            RootStep::Compute { record: true }
        }
    }
}

/// What a query does with its root memo `key`, checked last at
/// `verified_at`, when the database does (`has_value`) or does not hold
/// its value.
pub open spec fn root_step_of(store: &Store, key: KeyIndex, verified_at: usize, has_value: bool) -> RootStep {
    if verified_at == store.revision {
        if has_value {
            RootStep::UseValue
        } else {
            RootStep::Compute { record: false }
        }
    } else if !(verified_at == 0 || exists|j: int|
        0 <= j < store.memos@[key.0 as int].dependencies@.len() && changed_after(
            store,
            #[trigger] store.memos@[key.0 as int].dependencies@[j],
            verified_at,
        )) && has_value {
        RootStep::Unchanged
    } else {
        RootStep::Compute { record: true }
    }
}

/// What checking a memo calls for.
#[derive(Debug, Clone, Copy, PartialEq, Eq, Structural)]
pub enum Step {
    /// It was already checked in this revision.
    Verified,
    /// Its value must be computed again.
    Recompute,
    /// Nothing it read changed: mark it checked, with its value unchanged.
    Unchanged,
}

/// The step that checking memo `key` calls for.
pub open spec fn step_of(store: &Store, key: KeyIndex) -> Step {
    let verified_at = store.memos@[key.0 as int].verified_at;
    if verified_at == store.revision {
        Step::Verified
    } else if verified_at == 0 || exists|j: int|
        0 <= j < store.memos@[key.0 as int].dependencies@.len() && changed_after(
            store,
            #[trigger] store.memos@[key.0 as int].dependencies@[j],
            verified_at,
        ) {
        Step::Recompute
    } else {
        Step::Unchanged
    }
}

/// Adds `key` to the keys a computation has read, unless it is there already.
pub fn record_dependency(dependencies: &mut Vec<KeyIndex>, key: KeyIndex)
    requires
        old(dependencies)@.no_duplicates(),
    ensures
        final(dependencies)@.no_duplicates(),
        final(dependencies)@ == (if old(dependencies)@.contains(key) {
            old(dependencies)@
        } else {
            old(dependencies)@.push(key)
        }),
{
    let mut found = false;
    let mut j: usize = 0;
    while j < dependencies.len()
        invariant
            dependencies@ == old(dependencies)@,
            j <= dependencies@.len(),
            found <==> exists|k: int| 0 <= k < j && dependencies@[k] == key,
        decreases dependencies@.len() - j,
    {
        if dependencies[j] == key {
            found = true;
        }
        j = j + 1;
    }
    if !found {
        dependencies.push(key);
    }
}

} // verus!
