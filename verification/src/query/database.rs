//! Storage of computed values, and the adapters that wrap a database.
use vstd::prelude::*;

use std::marker::PhantomData;
use vstd::std_specs::cmp::PartialEqSpec;

use crate::query::evict::{Evict, LRU};
use crate::query::{Difference, Fingerprint, KeyIndex};

verus! {

/// Database extension to support persisting values.
pub trait Persist {
    /// The values it persists.
    type Value;

    /// The fingerprint of a value, if it has one.
    fn fingerprint(&self, value: &Self::Value) -> Option<Fingerprint>;

    /// The bytes a value is stored as, if it can be stored.
    fn serialize(&self, value: &Self::Value) -> Option<Vec<u8>>;

    /// The value stored as `data`, if it can be read back.
    fn deserialize(&self, data: &Vec<u8>) -> Option<Self::Value>;
}

/// Persistence extension for a database that does not persist its values.
#[derive(Debug)]
pub struct NoOp<V> {
    marker: PhantomData<V>,
}

impl<V> NoOp<V> {
    /// The extension.
    pub fn new() -> Self {
        NoOp { marker: PhantomData }
    }
}

impl<V> Persist for NoOp<V> {
    type Value = V;

    fn fingerprint(&self, value: &V) -> (fingerprint: Option<Fingerprint>)
        ensures
            fingerprint is None,
    {
        None
    }

    fn serialize(&self, value: &V) -> (data: Option<Vec<u8>>)
        ensures
            data is None,
    {
        None
    }

    fn deserialize(&self, data: &Vec<u8>) -> (value: Option<V>)
        ensures
            value is None,
    {
        None
    }
}

/// Storage of computed values, by key index.
pub trait Database {
    /// The keys it handles.
    type Key;

    /// The values it takes in.
    type InputValue;

    /// The values it hands out.
    type OutputValue;

    /// Its eviction extension.
    type EvictionExtension: Evict;

    /// Its persistence extension.
    type PersistExtension: Persist<Value = Self::OutputValue>;

    /// The index of `key`; a key seen for the first time gets `new`.
    fn index(&mut self, key: &Self::Key, new: KeyIndex) -> KeyIndex;

    /// The key at `idx`, if any.
    fn key(&self, idx: KeyIndex) -> Option<Self::Key>;

    /// The value at `idx`, if any.
    fn value(&mut self, idx: KeyIndex) -> Option<Self::OutputValue>;

    /// Stores `value` at `idx`, and says whether it differs from the value
    /// stored there before.
    fn pass_value(&mut self, idx: KeyIndex, value: Self::InputValue) -> (Self::OutputValue, Difference);

    /// The persistence extension.
    fn persistence(&self) -> &Self::PersistExtension;

    /// The eviction extension.
    fn eviction(&mut self) -> &mut Self::EvictionExtension;
}

/// Database adapter that stores only `Ok` values: an `Err` is handed back
/// as it came, always counts as changed, and has no fingerprint.
#[derive(Debug)]
pub struct Fallible<E, D> {
    inner: D,
    marker: PhantomData<E>,
}

impl<E, D> Fallible<E, D> {
    /// The wrapped database.
    pub closed spec fn spec_inner(&self) -> D {
        self.inner
    }

    /// Wraps `inner`.
    pub fn new(inner: D) -> (fallible: Self)
        ensures
            fallible.spec_inner() == inner,
    {
        Fallible { inner, marker: PhantomData }
    }
}

impl<E, D: Database> Persist for Fallible<E, D> {
    type Value = Result<D::OutputValue, E>;

    /// The wrapped database's fingerprint of an `Ok` value; an `Err` has
    /// none.
    fn fingerprint(&self, value: &Result<D::OutputValue, E>) -> (fingerprint: Option<Fingerprint>)
        ensures
            match *value {
                Ok(v) => exists|p: &D::PersistExtension|
                    #[trigger] call_ensures(D::persistence, (&self.spec_inner(),), p) && call_ensures(
                        <D::PersistExtension as Persist>::fingerprint,
                        (p, &v),
                        fingerprint,
                    ),
                Err(_) => fingerprint is None,
            },
    {
        match value {
            Ok(value) => {
                let persistence = self.inner.persistence();
                proof {
                    assert(call_ensures(D::persistence, (&self.spec_inner(),), persistence));
                }
                persistence.fingerprint(value)
            },
            Err(_) => None,
        }
    }

    /// The wrapped database's bytes for an `Ok` value; an `Err` has none.
    fn serialize(&self, value: &Result<D::OutputValue, E>) -> (data: Option<Vec<u8>>)
        ensures
            match *value {
                Ok(v) => exists|p: &D::PersistExtension|
                    #[trigger] call_ensures(D::persistence, (&self.spec_inner(),), p) && call_ensures(
                        <D::PersistExtension as Persist>::serialize,
                        (p, &v),
                        data,
                    ),
                Err(_) => data is None,
            },
    {
        match value {
            Ok(value) => {
                let persistence = self.inner.persistence();
                proof {
                    assert(call_ensures(D::persistence, (&self.spec_inner(),), persistence));
                }
                persistence.serialize(value)
            },
            Err(_) => None,
        }
    }

    /// What the wrapped database reads back from `data`, as an `Ok` value.
    fn deserialize(&self, data: &Vec<u8>) -> (value: Option<Result<D::OutputValue, E>>)
        ensures
            exists|p: &D::PersistExtension, read: Option<D::OutputValue>|
                #[trigger] call_ensures(D::persistence, (&self.spec_inner(),), p) && #[trigger] call_ensures(
                    <D::PersistExtension as Persist>::deserialize,
                    (p, data),
                    read,
                ) && value == match read {
                    Some(v) => Some(Ok::<D::OutputValue, E>(v)),
                    None => None,
                },
    {
        let persistence = self.inner.persistence();
        let read = persistence.deserialize(data);
        proof {
            assert(call_ensures(D::persistence, (&self.spec_inner(),), persistence));
            assert(call_ensures(<D::PersistExtension as Persist>::deserialize, (persistence, data), read));
        }
        match read {
            Some(value) => Some(Ok(value)),
            None => None,
        }
    }
}

impl<E, D: Database> Database for Fallible<E, D> {
    type Key = D::Key;

    type InputValue = Result<D::InputValue, E>;

    type OutputValue = Result<D::OutputValue, E>;

    type EvictionExtension = D::EvictionExtension;

    type PersistExtension = Self;

    /// The wrapped database's index of `key`.
    fn index(&mut self, key: &D::Key, new: KeyIndex) -> (idx: KeyIndex)
        ensures
            exists|m: &mut D|
                mut_ref_current(m) == old(self).spec_inner() && mut_ref_future(m) == final(self).spec_inner()
                    && #[trigger] call_ensures(D::index, (m, key, new), idx),
    {
        self.inner.index(key, new)
    }

    /// The wrapped database's key at `idx`.
    fn key(&self, idx: KeyIndex) -> (key: Option<D::Key>)
        ensures
            call_ensures(D::key, (&self.spec_inner(), idx), key),
    {
        self.inner.key(idx)
    }

    /// The wrapped database's value at `idx`, as an `Ok` value.
    fn value(&mut self, idx: KeyIndex) -> (value: Option<Result<D::OutputValue, E>>)
        ensures
            exists|m: &mut D, read: Option<D::OutputValue>|
                mut_ref_current(m) == old(self).spec_inner() && mut_ref_future(m) == final(self).spec_inner()
                    && #[trigger] call_ensures(D::value, (m, idx), read) && value == match read {
                    Some(v) => Some(Ok::<D::OutputValue, E>(v)),
                    None => None,
                },
    {
        match self.inner.value(idx) {
            Some(value) => Some(Ok(value)),
            None => None,
        }
    }

    fn pass_value(&mut self, idx: KeyIndex, value: Result<D::InputValue, E>) -> (r: (
        Result<D::OutputValue, E>,
        Difference,
    ))
        ensures
            match value {
                Ok(v) => exists|m: &mut D, out: (D::OutputValue, Difference)|
                    mut_ref_current(m) == old(self).spec_inner() && mut_ref_future(m) == final(self).spec_inner()
                        && #[trigger] call_ensures(D::pass_value, (m, idx, v), out) && r == (
                        Ok::<D::OutputValue, E>(out.0),
                        out.1,
                    ),
                Err(e) => r == (Err::<D::OutputValue, E>(e), Difference::Changed) && final(self).spec_inner()
                    == old(self).spec_inner(),
            },
    {
        match value {
            Ok(value) => {
                let (value, diff) = self.inner.pass_value(idx, value);
                (Ok(value), diff)
            },
            Err(err) => (Err(err), Difference::Changed),
        }
    }

    /// The adapter itself.
    fn persistence(&self) -> (persistence: &Self)
        ensures
            *persistence == *self,
    {
        self
    }

    /// The wrapped database's eviction extension.
    fn eviction(&mut self) -> (eviction: &mut D::EvictionExtension)
        ensures
            exists|m: &mut D|
                mut_ref_current(m) == old(self).spec_inner() && mut_ref_future(m) == final(self).spec_inner()
                    && #[trigger] call_ensures(D::eviction, (m,), eviction),
    {
        self.inner.eviction()
    }
}

impl<D: Database + Evict> Database for LRU<D> {
    type Key = D::Key;

    type InputValue = D::InputValue;

    type OutputValue = D::OutputValue;

    type EvictionExtension = Self;

    type PersistExtension = D::PersistExtension;

    /// The wrapped database's index of `key`; the usage stamps stay.
    fn index(&mut self, key: &D::Key, new: KeyIndex) -> (idx: KeyIndex)
        ensures
            final(self).spec_usage() == old(self).spec_usage(),
            exists|m: &mut D|
                mut_ref_current(m) == old(self).spec_inner() && mut_ref_future(m) == final(self).spec_inner()
                    && #[trigger] call_ensures(D::index, (m, key, new), idx),
    {
        self.inner_mut().index(key, new)
    }

    /// The wrapped database's key at `idx`.
    fn key(&self, idx: KeyIndex) -> (key: Option<D::Key>)
        ensures
            call_ensures(D::key, (&self.spec_inner(), idx), key),
    {
        self.inner().key(idx)
    }

    /// Stamps `idx` as used now, then reads it from the wrapped database.
    fn value(&mut self, idx: KeyIndex) -> (value: Option<D::OutputValue>)
        ensures
            final(self).spec_usage().usage() == old(self).spec_usage().usage().insert(
                idx,
                old(self).spec_usage().spec_counter(),
            ),
            final(self).spec_usage().spec_counter() == (if old(self).spec_usage().spec_counter()
                == usize::MAX {
                0
            } else {
                old(self).spec_usage().spec_counter() + 1
            }),
            final(self).spec_usage().spec_capacity() == old(self).spec_usage().spec_capacity(),
            exists|m: &mut D|
                mut_ref_current(m) == old(self).spec_inner() && mut_ref_future(m) == final(self).spec_inner()
                    && #[trigger] call_ensures(D::value, (m, idx), value),
    {
        self.update(idx);
        self.inner_mut().value(idx)
    }

    /// Stamps `idx` as used now, then stores the value in the wrapped
    /// database, and hands back what it answers.
    fn pass_value(&mut self, idx: KeyIndex, value: D::InputValue) -> (r: (D::OutputValue, Difference))
        ensures
            final(self).spec_usage().usage() == old(self).spec_usage().usage().insert(
                idx,
                old(self).spec_usage().spec_counter(),
            ),
            final(self).spec_usage().spec_counter() == (if old(self).spec_usage().spec_counter()
                == usize::MAX {
                0
            } else {
                old(self).spec_usage().spec_counter() + 1
            }),
            final(self).spec_usage().spec_capacity() == old(self).spec_usage().spec_capacity(),
            exists|m: &mut D|
                mut_ref_current(m) == old(self).spec_inner() && mut_ref_future(m) == final(self).spec_inner()
                    && #[trigger] call_ensures(D::pass_value, (m, idx, value), r),
    {
        self.update(idx);
        self.inner_mut().pass_value(idx, value)
    }

    /// The wrapped database's persistence extension.
    fn persistence(&self) -> (persistence: &D::PersistExtension)
        ensures
            call_ensures(D::persistence, (&self.spec_inner(),), persistence),
    {
        self.inner().persistence()
    }

    /// The adapter itself: it evicts by usage.
    fn eviction(&mut self) -> (eviction: &mut Self)
        ensures
            *eviction == *old(self),
            *final(self) == *final(eviction),
    {
        self
    }
}

/// The entry for `idx` in a list of entries: the first one with that index.
pub open spec fn found<T>(entries: Seq<(KeyIndex, T)>, idx: KeyIndex) -> Option<T>
    decreases entries.len(),
{
    if entries.len() == 0 {
        None
    } else if entries[0].0 == idx {
        Some(entries[0].1)
    } else {
        found(entries.drop_first(), idx)
    }
}

/// The map from index to entry that a list of entries stands for.
pub open spec fn indexed<T>(entries: Seq<(KeyIndex, T)>) -> Map<KeyIndex, T> {
    Map::new(|idx: KeyIndex| found(entries, idx) is Some, |idx: KeyIndex| found(entries, idx)->0)
}

/// The predicate "the entry is not for `idx`".
pub open spec fn other_than<T>(idx: KeyIndex) -> spec_fn((KeyIndex, T)) -> bool {
    |e: (KeyIndex, T)| e.0 != idx
}

/// The entries without those for `idx`.
pub open spec fn without<T>(entries: Seq<(KeyIndex, T)>, idx: KeyIndex) -> Seq<(KeyIndex, T)> {
    entries.filter(other_than(idx))
}

/// The index of the first lookup entry whose key equals `key` (by the
/// key type's equality).
pub open spec fn first_key<K: PartialEq>(lookup: Seq<(K, KeyIndex)>, key: K) -> Option<KeyIndex>
    decreases lookup.len(),
{
    if lookup.len() == 0 {
        None
    } else if lookup[0].0.eq_spec(&key) {
        Some(lookup[0].1)
    } else {
        first_key(lookup.drop_first(), key)
    }
}

proof fn lemma_found_first<T>(entries: Seq<(KeyIndex, T)>, idx: KeyIndex, p: int)
    requires
        0 <= p <= entries.len(),
        forall|k: int| 0 <= k < p ==> (#[trigger] entries[k]).0 != idx,
    ensures
        p < entries.len() && entries[p].0 == idx ==> found(entries, idx) == Some(entries[p].1),
        p == entries.len() ==> found(entries, idx) is None,
    decreases p,
{
    if p > 0 {
        let rest = entries.drop_first();
        assert forall|k: int| 0 <= k < p - 1 implies (#[trigger] rest[k]).0 != idx by {
            assert(rest[k] == entries[k + 1]);
        }
        lemma_found_first(rest, idx, p - 1);
        assert(entries[0].0 != idx);
    }
}

proof fn lemma_found_update<T>(entries: Seq<(KeyIndex, T)>, p: int, idx: KeyIndex, v: T, j: KeyIndex)
    requires
        0 <= p < entries.len(),
        entries[p].0 == idx,
        forall|k: int| 0 <= k < p ==> (#[trigger] entries[k]).0 != idx,
    ensures
        found(entries.update(p, (idx, v)), j) == (if j == idx {
            Some(v)
        } else {
            found(entries, j)
        }),
    decreases p,
{
    let e2 = entries.update(p, (idx, v));
    if p == 0 {
        assert(e2.drop_first() =~= entries.drop_first());
    } else {
        let rest = entries.drop_first();
        assert forall|k: int| 0 <= k < p - 1 implies (#[trigger] rest[k]).0 != idx by {
            assert(rest[k] == entries[k + 1]);
        }
        lemma_found_update(rest, p - 1, idx, v, j);
        assert(e2.drop_first() =~= rest.update(p - 1, (idx, v)));
        assert(entries[0].0 != idx);
    }
}

proof fn lemma_found_push<T>(entries: Seq<(KeyIndex, T)>, idx: KeyIndex, v: T, j: KeyIndex)
    requires
        found(entries, idx) is None,
    ensures
        found(entries.push((idx, v)), j) == (if j == idx {
            Some(v)
        } else {
            found(entries, j)
        }),
    decreases entries.len(),
{
    let e2 = entries.push((idx, v));
    if entries.len() > 0 {
        assert(e2[0] == entries[0]);
        assert(e2.drop_first() =~= entries.drop_first().push((idx, v)));
        lemma_found_push(entries.drop_first(), idx, v, j);
    } else {
        assert(e2.drop_first() =~= entries);
    }
}

proof fn lemma_found_without<T>(entries: Seq<(KeyIndex, T)>, idx: KeyIndex, j: KeyIndex)
    ensures
        found(without(entries, idx), j) == (if j == idx {
            None
        } else {
            found(entries, j)
        }),
    decreases entries.len(),
{
    let p = other_than::<T>(idx);
    if entries.len() > 0 {
        let rest = entries.drop_first();
        lemma_found_without(rest, idx, j);
        assert(entries =~= seq![entries[0]] + rest);
        rest.lemma_filter_prepend(entries[0], p);
        assert(without(entries, idx) == (if p(entries[0]) {
            seq![entries[0]]
        } else {
            Seq::empty()
        }) + without(rest, idx));
        if p(entries[0]) {
            assert((seq![entries[0]] + without(rest, idx)).drop_first() =~= without(rest, idx));
        } else {
            assert(Seq::<(KeyIndex, T)>::empty() + without(rest, idx) =~= without(rest, idx));
        }
    } else {
        reveal(Seq::filter);
        assert(without(entries, idx) =~= Seq::<(KeyIndex, T)>::empty());
    }
}

/// The position of the first entry for `idx`, if any.
fn position<T>(entries: &Vec<(KeyIndex, T)>, idx: KeyIndex) -> (p: Option<usize>)
    ensures
        match p {
            Some(p) => p < entries@.len() && entries@[p as int].0 == idx && forall|k: int|
                0 <= k < p ==> (#[trigger] entries@[k]).0 != idx,
            None => forall|k: int| 0 <= k < entries@.len() ==> (#[trigger] entries@[k]).0 != idx,
        },
{
    let mut i: usize = 0;
    while i < entries.len()
        invariant
            i <= entries@.len(),
            forall|k: int| 0 <= k < i ==> (#[trigger] entries@[k]).0 != idx,
        decreases entries@.len() - i,
    {
        if entries[i].0.0 == idx.0 {
            return Some(i);
        }
        i = i + 1;
    }
    None
}

/// Stores `value` for `idx`, in place of an entry for `idx` if there is one.
fn store_entry<T>(entries: &mut Vec<(KeyIndex, T)>, idx: KeyIndex, value: T)
    ensures
        indexed(final(entries)@) == indexed(old(entries)@).insert(idx, value),
{
    let ghost before = entries@;
    match position(entries, idx) {
        Some(p) => {
            entries.set(p, (idx, value));
            proof {
                assert forall|j: KeyIndex| #[trigger] found(entries@, j) == (if j == idx {
                    Some(value)
                } else {
                    found(before, j)
                }) by {
                    lemma_found_update(before, p as int, idx, value, j);
                }
                assert(indexed(entries@) =~= indexed(before).insert(idx, value));
            }
        },
        None => {
            proof {
                lemma_found_first(before, idx, before.len() as int);
            }
            entries.push((idx, value));
            proof {
                assert forall|j: KeyIndex| #[trigger] found(entries@, j) == (if j == idx {
                    Some(value)
                } else {
                    found(before, j)
                }) by {
                    lemma_found_push(before, idx, value, j);
                }
                assert(indexed(entries@) =~= indexed(before).insert(idx, value));
            }
        },
    }
}

/// Drops every entry for `idx`.
fn drop_entries<T>(entries: &mut Vec<(KeyIndex, T)>, idx: KeyIndex)
    ensures
        final(entries)@ == without(old(entries)@, idx),
        indexed(final(entries)@) == indexed(old(entries)@).remove(idx),
{
    let ghost before = entries@;
    let mut kept: Vec<(KeyIndex, T)> = Vec::new();
    let mut rest: Vec<(KeyIndex, T)> = Vec::new();
    std::mem::swap(entries, &mut rest);
    let n = rest.len();
    let mut i: usize = 0;
    while i < n
        invariant
            n == before.len(),
            rest@ == before.subrange(i as int, n as int),
            kept@ == without(before.take(i as int), idx),
            i <= n,
        decreases n - i,
    {
        let entry = rest.remove(0);
        proof {
            assert(entry == before[i as int]);
            assert(rest@ =~= before.subrange(i as int + 1, n as int));
            assert(before.take(i as int + 1) =~= before.take(i as int).push(entry));
            before.take(i as int).lemma_filter_push(entry, other_than::<T>(idx));
        }
        if entry.0.0 != idx.0 {
            kept.push(entry);
        }
        i = i + 1;
    }
    proof {
        assert(before.take(n as int) =~= before);
        assert forall|j: KeyIndex| #[trigger] found(kept@, j) == (if j == idx {
            None
        } else {
            found(before, j)
        }) by {
            lemma_found_without(before, idx, j);
        }
        assert(indexed(kept@) =~= indexed(before).remove(idx));
    }
    *entries = kept;
}

proof fn lemma_first_key<K: PartialEq>(lookup: Seq<(K, KeyIndex)>, key: K, p: int)
    requires
        0 <= p <= lookup.len(),
        forall|k: int| 0 <= k < p ==> !(#[trigger] lookup[k]).0.eq_spec(&key),
    ensures
        p < lookup.len() && lookup[p].0.eq_spec(&key) ==> first_key(lookup, key) == Some(lookup[p].1),
        p == lookup.len() ==> first_key(lookup, key) is None,
    decreases p,
{
    if p > 0 {
        let rest = lookup.drop_first();
        assert forall|k: int| 0 <= k < p - 1 implies !(#[trigger] rest[k]).0.eq_spec(&key) by {
            assert(rest[k] == lookup[k + 1]);
        }
        lemma_first_key(rest, key, p - 1);
        assert(!lookup[0].0.eq_spec(&key));
    }
}

/// The position of the first lookup entry whose key equals `key`.
fn lookup_position<K: PartialEq>(lookup: &Vec<(K, KeyIndex)>, key: &K) -> (q: Option<usize>)
    ensures
        q matches Some(q) ==> q < lookup@.len(),
        K::obeys_eq_spec() ==> match q {
            Some(q) => first_key(lookup@, *key) == Some(lookup@[q as int].1),
            None => first_key(lookup@, *key) is None,
        },
{
    let mut i: usize = 0;
    while i < lookup.len()
        invariant
            i <= lookup@.len(),
            K::obeys_eq_spec() ==> forall|k: int| 0 <= k < i ==> !(#[trigger] lookup@[k]).0.eq_spec(key),
        decreases lookup@.len() - i,
    {
        if lookup[i].0 == *key {
            proof {
                if K::obeys_eq_spec() {
                    lemma_first_key(lookup@, *key, i as int);
                }
            }
            return Some(i);
        }
        i = i + 1;
    }
    proof {
        if K::obeys_eq_spec() {
            lemma_first_key(lookup@, *key, i as int);
        }
    }
    None
}

/// A simple generic in-memory database: keys are found again by their
/// equality, and values are compared by theirs.
#[derive(Debug)]
pub struct InMemory<K, V> {
    lookup: Vec<(K, KeyIndex)>,
    keys: Vec<(KeyIndex, K)>,
    values: Vec<(KeyIndex, V)>,
    persist: NoOp<V>,
}

impl<K, V> InMemory<K, V> {
    /// The keys seen, with their indices, in the order first seen.
    pub closed spec fn lookup_entries(&self) -> Seq<(K, KeyIndex)> {
        self.lookup@
    }

    /// The key at each index.
    pub closed spec fn key_map(&self) -> Map<KeyIndex, K> {
        indexed(self.keys@)
    }

    /// The value at each index.
    pub closed spec fn value_map(&self) -> Map<KeyIndex, V> {
        indexed(self.values@)
    }

    /// An empty database.
    pub fn new() -> (database: Self)
        ensures
            database.lookup_entries().len() == 0,
            database.key_map() == Map::<KeyIndex, K>::empty(),
            database.value_map() == Map::<KeyIndex, V>::empty(),
    {
        let database = InMemory { lookup: Vec::new(), keys: Vec::new(), values: Vec::new(), persist: NoOp::new() };
        proof {
            assert(database.key_map() =~= Map::<KeyIndex, K>::empty());
            assert(database.value_map() =~= Map::<KeyIndex, V>::empty());
        }
        database
    }
}

impl<K: PartialEq + Clone, V: PartialEq + Clone> Database for InMemory<K, V> {
    type Key = K;

    type InputValue = V;

    type OutputValue = V;

    type EvictionExtension = Self;

    type PersistExtension = NoOp<V>;

    /// The index of the first key seen that equals `key`; else `new`,
    /// recorded with a clone of `key`.
    fn index(&mut self, key: &K, new: KeyIndex) -> (r: KeyIndex)
        ensures
            final(self).value_map() == old(self).value_map(),
            K::obeys_eq_spec() ==> match first_key(old(self).lookup_entries(), *key) {
                Some(idx) => r == idx && final(self).lookup_entries() == old(self).lookup_entries()
                    && final(self).key_map() == old(self).key_map(),
                None => {
                    &&& r == new
                    &&& final(self).lookup_entries().drop_last() == old(self).lookup_entries()
                    &&& final(self).lookup_entries().len() == old(self).lookup_entries().len() + 1
                    &&& final(self).lookup_entries().last().1 == r
                    &&& cloned(*key, final(self).lookup_entries().last().0)
                    &&& final(self).key_map() == old(self).key_map().insert(r, final(self).key_map()[r])
                    &&& cloned(*key, final(self).key_map()[r])
                },
            },
    {
        match lookup_position(&self.lookup, key) {
            Some(q) => self.lookup[q].1,
            None => {
                let idx = new;
                let ghost before = self.lookup@;
                self.lookup.push((key.clone(), idx));
                proof {
                    assert(self.lookup@.drop_last() =~= before);
                }
                store_entry(&mut self.keys, idx, key.clone());
                idx
            },
        }
    }

    /// A clone of the key at `idx`, if any.
    fn key(&self, idx: KeyIndex) -> (key: Option<K>)
        ensures
            match key {
                Some(k) => self.key_map().contains_key(idx) && cloned(self.key_map()[idx], k),
                None => !self.key_map().contains_key(idx),
            },
    {
        match position(&self.keys, idx) {
            Some(p) => {
                proof {
                    lemma_found_first(self.keys@, idx, p as int);
                }
                Some(self.keys[p].1.clone())
            },
            None => {
                proof {
                    lemma_found_first(self.keys@, idx, self.keys@.len() as int);
                }
                None
            },
        }
    }

    /// A clone of the value at `idx`, if any.
    fn value(&mut self, idx: KeyIndex) -> (value: Option<V>)
        ensures
            final(self).value_map() == old(self).value_map(),
            final(self).key_map() == old(self).key_map(),
            final(self).lookup_entries() == old(self).lookup_entries(),
            match value {
                Some(v) => old(self).value_map().contains_key(idx) && cloned(old(self).value_map()[idx], v),
                None => !old(self).value_map().contains_key(idx),
            },
    {
        match position(&self.values, idx) {
            Some(p) => {
                proof {
                    lemma_found_first(self.values@, idx, p as int);
                }
                Some(self.values[p].1.clone())
            },
            None => {
                proof {
                    lemma_found_first(self.values@, idx, self.values@.len() as int);
                }
                None
            },
        }
    }

    /// Stores a clone of `value` at `idx` unless an equal value is there
    /// already, and hands `value` back with whether it changed.
    fn pass_value(&mut self, idx: KeyIndex, value: V) -> (r: (V, Difference))
        ensures
            r.0 == value,
            final(self).value_map().contains_key(idx),
            final(self).key_map() == old(self).key_map(),
            final(self).lookup_entries() == old(self).lookup_entries(),
            !old(self).value_map().contains_key(idx) ==> r.1 == Difference::Changed,
            r.1 == Difference::Changed ==> final(self).value_map() == old(self).value_map().insert(
                idx,
                final(self).value_map()[idx],
            ) && cloned(value, final(self).value_map()[idx]),
            r.1 == Difference::Unchanged ==> final(self).value_map() == old(self).value_map(),
            V::obeys_eq_spec() && old(self).value_map().contains_key(idx) ==> (r.1 == Difference::Unchanged
                <==> old(self).value_map()[idx].eq_spec(&value)),
    {
        match position(&self.values, idx) {
            Some(p) => {
                proof {
                    lemma_found_first(self.values@, idx, p as int);
                }
                if self.values[p].1 != value {
                    let copy = value.clone();
                    store_entry(&mut self.values, idx, copy);
                    (value, Difference::Changed)
                } else {
                    (value, Difference::Unchanged)
                }
            },
            None => {
                proof {
                    lemma_found_first(self.values@, idx, self.values@.len() as int);
                }
                let copy = value.clone();
                store_entry(&mut self.values, idx, copy);
                (value, Difference::Changed)
            },
        }
    }

    fn persistence(&self) -> &NoOp<V> {
        &self.persist
    }

    /// The database itself.
    fn eviction(&mut self) -> (eviction: &mut Self)
        ensures
            *eviction == *old(self),
            *final(self) == *final(eviction),
    {
        self
    }
}

impl<K: PartialEq + Clone, V: PartialEq + Clone> Evict for InMemory<K, V> {
    /// Nothing is garbage.
    fn evict_garbage(&mut self) -> (evicted: Vec<KeyIndex>)
        ensures
            evicted@.len() == 0,
    {
        Vec::new()
    }

    /// Drops the values and keys at `indices`, and the lookup entries that
    /// lead to them: a key evicted is new again to [`Database::index`].
    fn evict_iter(&mut self, indices: Vec<KeyIndex>)
        ensures
            final(self).value_map() == old(self).value_map().remove_keys(indices@.to_set()),
            final(self).key_map() == old(self).key_map().remove_keys(indices@.to_set()),
            final(self).lookup_entries() == old(self).lookup_entries().filter(not_evicted(indices@)),
    {
        let ghost start = *self;
        let mut i: usize = 0;
        proof {
            lemma_filter_all_kept(start.lookup_entries(), not_evicted::<K>(indices@.take(0)));
        }
        while i < indices.len()
            invariant
                i <= indices@.len(),
                self.value_map() == start.value_map().remove_keys(indices@.take(i as int).to_set()),
                self.key_map() == start.key_map().remove_keys(indices@.take(i as int).to_set()),
                self.lookup_entries() == start.lookup_entries().filter(not_evicted(indices@.take(i as int))),
            decreases indices@.len() - i,
        {
            let idx = indices[i];
            drop_entries(&mut self.values, idx);
            drop_entries(&mut self.keys, idx);
            drop_lookup(&mut self.lookup, idx);
            proof {
                let before = indices@.take(i as int).to_set();
                assert(indices@.take(i as int + 1) =~= indices@.take(i as int).push(idx));
                let grown = indices@.take(i as int + 1);
                let shorter = indices@.take(i as int);
                assert forall|x: KeyIndex| grown.contains(x) <==> shorter.contains(x) || x == idx by {
                    if grown.contains(x) {
                        let k = choose|k: int| 0 <= k < grown.len() && grown[k] == x;
                        if k < shorter.len() {
                            assert(shorter[k] == x);
                        }
                    }
                    if shorter.contains(x) {
                        let k = choose|k: int| 0 <= k < shorter.len() && shorter[k] == x;
                        assert(grown[k] == x);
                    }
                    if x == idx {
                        assert(grown[i as int] == x);
                    }
                }
                assert(grown.to_set() =~= before.insert(idx));
                lemma_filter_both(
                    start.lookup_entries(),
                    not_evicted::<K>(shorter),
                    lookup_other_than::<K>(idx),
                    not_evicted::<K>(grown),
                );
                assert(self.value_map() =~= start.value_map().remove_keys(before.insert(idx)));
                assert(self.key_map() =~= start.key_map().remove_keys(before.insert(idx)));
            }
            i = i + 1;
        }
        proof {
            assert(indices@.take(i as int) =~= indices@);
        }
    }
}

/// The predicate "the lookup entry leads to none of `indices`".
pub open spec fn not_evicted<K>(indices: Seq<KeyIndex>) -> spec_fn((K, KeyIndex)) -> bool {
    |e: (K, KeyIndex)| !indices.contains(e.1)
}

/// The predicate "the lookup entry does not lead to `idx`".
pub open spec fn lookup_other_than<K>(idx: KeyIndex) -> spec_fn((K, KeyIndex)) -> bool {
    |e: (K, KeyIndex)| e.1 != idx
}

/// Filtering by `p`, then by `q`, keeps what `r` keeps when `r` is both.
proof fn lemma_filter_both<A>(s: Seq<A>, p: spec_fn(A) -> bool, q: spec_fn(A) -> bool, r: spec_fn(A) -> bool)
    requires
        forall|e: A| #[trigger] r(e) == (p(e) && q(e)),
    ensures
        s.filter(p).filter(q) == s.filter(r),
    decreases s.len(),
{
    reveal(Seq::filter);
    if s.len() > 0 {
        let t = s.drop_last();
        lemma_filter_both(t, p, q, r);
        let x = s.last();
        assert(r(x) == (p(x) && q(x)));
        if p(x) {
            t.filter(p).lemma_filter_push(x, q);
        }
    }
}

/// Filtering by a predicate that keeps everything changes nothing.
proof fn lemma_filter_all_kept<K>(s: Seq<(K, KeyIndex)>, p: spec_fn((K, KeyIndex)) -> bool)
    requires
        forall|e: (K, KeyIndex)| #[trigger] p(e),
    ensures
        s.filter(p) == s,
    decreases s.len(),
{
    reveal(Seq::filter);
    if s.len() > 0 {
        lemma_filter_all_kept(s.drop_last(), p);
        assert(s.drop_last().push(s.last()) =~= s);
    }
}

/// Drops every lookup entry that leads to `idx`.
fn drop_lookup<K>(lookup: &mut Vec<(K, KeyIndex)>, idx: KeyIndex)
    ensures
        final(lookup)@ == old(lookup)@.filter(lookup_other_than(idx)),
{
    let ghost before = lookup@;
    let mut kept: Vec<(K, KeyIndex)> = Vec::new();
    let mut rest: Vec<(K, KeyIndex)> = Vec::new();
    std::mem::swap(lookup, &mut rest);
    let n = rest.len();
    let mut i: usize = 0;
    while i < n
        invariant
            n == before.len(),
            rest@ == before.subrange(i as int, n as int),
            kept@ == before.take(i as int).filter(lookup_other_than(idx)),
            i <= n,
        decreases n - i,
    {
        let entry = rest.remove(0);
        proof {
            assert(entry == before[i as int]);
            assert(rest@ =~= before.subrange(i as int + 1, n as int));
            assert(before.take(i as int + 1) =~= before.take(i as int).push(entry));
            before.take(i as int).lemma_filter_push(entry, lookup_other_than::<K>(idx));
        }
        if entry.1.0 != idx.0 {
            kept.push(entry);
        }
        i = i + 1;
    }
    proof {
        assert(before.take(n as int) =~= before);
    }
    *lookup = kept;
}

} // verus!
