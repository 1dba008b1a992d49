//! Value eviction (also known as garbage collection).
use vstd::prelude::*;

use crate::query::KeyIndex;

verus! {

broadcast use vstd::seq_lib::group_seq_properties;

/// Database extension to support value eviction.
pub trait Evict {
    /// Evicts all "garbage" from the database, and returns the keys evicted.
    fn evict_garbage(&mut self) -> Vec<KeyIndex>;

    /// Evicts the given keys from the database.
    ///
    /// The database may choose to keep some of them.
    fn evict_iter(&mut self, indices: Vec<KeyIndex>);
}

/// Eviction extension for a database that does not evict.
#[derive(Debug, Clone, Copy)]
pub struct NoOp;

impl Evict for NoOp {
    fn evict_garbage(&mut self) -> (evicted: Vec<KeyIndex>)
        ensures
            evicted@.len() == 0,
    {
        Vec::new()
    }

    fn evict_iter(&mut self, indices: Vec<KeyIndex>) {
    }
}

/// How many entries an [`LRU`] keeps by default.
pub const DEFAULT_CAPACITY: usize = 512;

/// Each key occurs in at most one entry.
pub open spec fn keys_unique(entries: Seq<(KeyIndex, usize)>) -> bool {
    forall|i: int, j: int|
        0 <= i < entries.len() && 0 <= j < entries.len() && (#[trigger] entries[i]).0 == (
        #[trigger] entries[j]).0 ==> i == j
}

/// The map from key to stamp that a list of entries stands for.
pub open spec fn entries_map(entries: Seq<(KeyIndex, usize)>) -> Map<KeyIndex, usize> {
    Map::new(
        |key: KeyIndex| exists|i: int| 0 <= i < entries.len() && (#[trigger] entries[i]).0 == key,
        |key: KeyIndex|
            entries[choose|i: int| 0 <= i < entries.len() && (#[trigger] entries[i]).0 == key].1,
    )
}

/// How many stamps are below `bound`.
pub open spec fn count_below(stamps: Seq<usize>, bound: int) -> nat {
    stamps.filter(|stamp: usize| stamp < bound).len()
}

/// How many stamps are at most `bound`.
pub open spec fn count_up_to(stamps: Seq<usize>, bound: int) -> nat {
    stamps.filter(|stamp: usize| stamp <= bound).len()
}

/// `threshold` is the stamp at position `k` of `stamps` sorted ascending.
pub open spec fn is_kth_smallest(stamps: Seq<usize>, k: int, threshold: usize) -> bool {
    &&& stamps.contains(threshold)
    &&& count_below(stamps, threshold as int) <= k < count_up_to(stamps, threshold as int)
}

/// The stamp at position `k` of `stamps` sorted ascending.
pub open spec fn kth_smallest_of(stamps: Seq<usize>, k: int) -> usize {
    choose|threshold: usize| is_kth_smallest(stamps, k, threshold)
}

/// The stamps of a list of entries.
pub open spec fn stamps_of(entries: Seq<(KeyIndex, usize)>) -> Seq<usize> {
    entries.map_values(|e: (KeyIndex, usize)| e.1)
}

/// The stamp up to which eviction drops entries: with `k` entries too many,
/// the `k`-th smallest stamp.
pub open spec fn eviction_threshold(entries: Seq<(KeyIndex, usize)>, capacity: usize) -> usize {
    kth_smallest_of(stamps_of(entries), entries.len() - capacity - 1)
}

proof fn lemma_kth_smallest_unique(stamps: Seq<usize>, k: int, t: usize)
    requires
        is_kth_smallest(stamps, k, t),
    ensures
        kth_smallest_of(stamps, k) == t,
{
    let u = kth_smallest_of(stamps, k);
    assert(is_kth_smallest(stamps, k, u));
    if u < t {
        lemma_filter_mono(stamps, |stamp: usize| stamp <= u as int, |stamp: usize| stamp < t as int, -1);
    } else if t < u {
        lemma_filter_mono(stamps, |stamp: usize| stamp <= t as int, |stamp: usize| stamp < u as int, -1);
    }
}

proof fn lemma_entries_map_at(entries: Seq<(KeyIndex, usize)>, i: int)
    requires
        keys_unique(entries),
        0 <= i < entries.len(),
    ensures
        entries_map(entries).contains_key(entries[i].0),
        entries_map(entries)[entries[i].0] == entries[i].1,
{
    let key = entries[i].0;
    assert(exists|j: int| 0 <= j < entries.len() && (#[trigger] entries[j]).0 == key);
    let j = choose|j: int| 0 <= j < entries.len() && (#[trigger] entries[j]).0 == key;
    assert(j == i);
}

proof fn lemma_filter_ext<A>(s: Seq<A>, p: spec_fn(A) -> bool, q: spec_fn(A) -> bool)
    requires
        forall|i: int| 0 <= i < s.len() ==> p(#[trigger] s[i]) == q(s[i]),
    ensures
        s.filter(p) == s.filter(q),
    decreases s.len(),
{
    reveal(Seq::filter);
    if s.len() > 0 {
        let t = s.drop_last();
        assert forall|i: int| 0 <= i < t.len() implies p(#[trigger] t[i]) == q(t[i]) by {
            assert(t[i] == s[i]);
        }
        lemma_filter_ext(t, p, q);
        assert(s.last() == s[s.len() - 1]);
    }
}

proof fn lemma_filter_mono<A>(s: Seq<A>, p: spec_fn(A) -> bool, q: spec_fn(A) -> bool, w: int)
    requires
        forall|i: int| 0 <= i < s.len() && p(#[trigger] s[i]) ==> q(s[i]),
    ensures
        s.filter(p).len() <= s.filter(q).len(),
        0 <= w < s.len() && q(s[w]) && !p(s[w]) ==> s.filter(p).len() < s.filter(q).len(),
    decreases s.len(),
{
    reveal(Seq::filter);
    if s.len() > 0 {
        let t = s.drop_last();
        assert forall|i: int| 0 <= i < t.len() && p(#[trigger] t[i]) implies q(t[i]) by {
            assert(t[i] == s[i]);
        }
        assert(s.last() == s[s.len() - 1]);
        if w == s.len() - 1 {
            lemma_filter_mono(t, p, q, -1);
        } else {
            lemma_filter_mono(t, p, q, w);
            if 0 <= w < s.len() {
                assert(t[w] == s[w]);
            }
        }
    }
}

/// The smallest stamp above `floor` (or the smallest stamp at all).
fn next_stamp(stamps: &Vec<usize>, floor: Option<usize>) -> (next: Option<usize>)
    ensures
        match next {
            Some(v) => {
                &&& stamps@.contains(v)
                &&& floor.is_some() ==> v > floor.unwrap()
                &&& forall|i: int|
                    0 <= i < stamps@.len() && (floor.is_none() || stamps@[i] > floor.unwrap())
                        ==> v <= #[trigger] stamps@[i]
            },
            None => stamps@.len() == 0 || (floor.is_some() && forall|i: int|
                0 <= i < stamps@.len() ==> #[trigger] stamps@[i] <= floor.unwrap()),
        },
{
    let mut best: Option<usize> = None;
    let mut i: usize = 0;
    while i < stamps.len()
        invariant
            i <= stamps@.len(),
            match best {
                Some(v) => {
                    &&& stamps@.contains(v)
                    &&& floor.is_some() ==> v > floor.unwrap()
                    &&& forall|j: int|
                        0 <= j < i && (floor.is_none() || stamps@[j] > floor.unwrap()) ==> v
                            <= #[trigger] stamps@[j]
                },
                None => i == 0 || (floor.is_some() && forall|j: int|
                    0 <= j < i ==> #[trigger] stamps@[j] <= floor.unwrap()),
            },
        decreases stamps@.len() - i,
    {
        let stamp = stamps[i];
        let above = match floor {
            Some(f) => stamp > f,
            None => true,
        };
        if above {
            match best {
                Some(v) => {
                    if stamp < v {
                        best = Some(stamp);
                    }
                },
                None => {
                    best = Some(stamp);
                },
            }
        }
        proof {
            assert(stamps@[i as int] == stamp);
        }
        i = i + 1;
    }
    proof {
        assert(stamps@.take(i as int) =~= stamps@);
    }
    best
}

/// The stamp at position `k` of `stamps` sorted ascending.
fn kth_smallest(stamps: &Vec<usize>, k: usize) -> (threshold: usize)
    requires
        k < stamps@.len(),
    ensures
        is_kth_smallest(stamps@, k as int, threshold),
{
    let ghost s = stamps@;
    let first = next_stamp(stamps, None);
    proof {
        assert(stamps@[0] == stamps@[0]);
    }
    let mut current = first.unwrap();
    proof {
        let none = |stamp: usize| stamp < current as int;
        assert forall|i: int| 0 <= i < s.len() implies none(#[trigger] s[i]) == false by {}
        lemma_filter_ext(s, none, |stamp: usize| false);
        lemma_filter_count_false(s);
    }
    let mut below: usize = 0;
    let mut up_to = count_at_most(stamps, current);
    while up_to <= k
        invariant
            k < s.len(),
            s == stamps@,
            s.contains(current),
            below <= k,
            below == count_below(s, current as int),
            up_to == count_up_to(s, current as int),
        decreases s.len() - up_to,
    {
        let next = next_stamp(stamps, Some(current));
        proof {
            if next.is_none() {
                let all = |stamp: usize| stamp <= current as int;
                assert forall|i: int| 0 <= i < s.len() implies all(#[trigger] s[i]) == true by {}
                lemma_filter_ext(s, all, |stamp: usize| true);
                lemma_filter_count_true(s);
            }
        }
        let v = next.unwrap();
        proof {
            let at_most = |stamp: usize| stamp <= current as int;
            let lt = |stamp: usize| stamp < v as int;
            assert forall|i: int| 0 <= i < s.len() implies at_most(#[trigger] s[i]) == lt(s[i]) by {}
            lemma_filter_ext(s, at_most, lt);
            let w = choose|w: int| 0 <= w < s.len() && s[w] == v;
            lemma_filter_mono(s, at_most, |stamp: usize| stamp <= v as int, w);
        }
        below = up_to;
        current = v;
        up_to = count_at_most(stamps, current);
    }
    current
}

proof fn lemma_filter_count_false(s: Seq<usize>)
    ensures
        s.filter(|stamp: usize| false).len() == 0,
    decreases s.len(),
{
    reveal(Seq::filter);
    if s.len() > 0 {
        lemma_filter_count_false(s.drop_last());
    }
}

proof fn lemma_filter_count_true(s: Seq<usize>)
    ensures
        s.filter(|stamp: usize| true).len() == s.len(),
    decreases s.len(),
{
    reveal(Seq::filter);
    if s.len() > 0 {
        lemma_filter_count_true(s.drop_last());
    }
}

/// How many stamps are at most `bound`.
fn count_at_most(stamps: &Vec<usize>, bound: usize) -> (count: usize)
    ensures
        count == count_up_to(stamps@, bound as int),
{
    let ghost pred = |stamp: usize| stamp <= bound as int;
    let mut count: usize = 0;
    let mut i: usize = 0;
    while i < stamps.len()
        invariant
            i <= stamps@.len(),
            count <= i,
            pred == (|stamp: usize| stamp <= bound as int),
            count == stamps@.take(i as int).filter(pred).len(),
        decreases stamps@.len() - i,
    {
        proof {
            assert(stamps@.take(i as int + 1) =~= stamps@.take(i as int).push(stamps@[i as int]));
            stamps@.take(i as int).lemma_filter_push(stamps@[i as int], pred);
        }
        if stamps[i] <= bound {
            count = count + 1;
        }
        i = i + 1;
    }
    proof {
        assert(stamps@.take(i as int) =~= stamps@);
    }
    count
}

/// Usage stamps of the keys an [`LRU`] tracks.
///
/// Each use of a key stamps it with the next value of a counter; eviction
/// drops the keys with the oldest stamps, down to the capacity.
#[derive(Debug)]
pub struct Usage {
    capacity: usize,
    counter: usize,
    usage: Vec<(KeyIndex, usize)>,
}

impl Usage {
    #[verifier::type_invariant]
    spec fn distinct_keys(&self) -> bool {
        keys_unique(self.usage@)
    }

    /// The tracked keys and their stamps, in the order they were first used.
    pub closed spec fn entries(&self) -> Seq<(KeyIndex, usize)> {
        self.usage@
    }

    /// The stamp of each tracked key.
    pub open spec fn usage(&self) -> Map<KeyIndex, usize> {
        entries_map(self.entries())
    }

    /// The capacity.
    pub closed spec fn spec_capacity(&self) -> usize {
        self.capacity
    }

    /// The stamp the next use of a key gets.
    pub closed spec fn spec_counter(&self) -> usize {
        self.counter
    }

    /// The default capacity, with no key used yet.
    pub fn new() -> (usage: Self)
        ensures
            usage.spec_capacity() == DEFAULT_CAPACITY,
            usage.spec_counter() == 0,
            usage.entries().len() == 0,
    {
        Usage { capacity: DEFAULT_CAPACITY, counter: 0, usage: Vec::new() }
    }

    /// Modifies the cache's capacity.
    pub fn resize(&mut self, capacity: usize)
        ensures
            final(self).spec_capacity() == capacity,
            final(self).spec_counter() == old(self).spec_counter(),
            final(self).entries() == old(self).entries(),
    {
        proof {
            use_type_invariant(&*self);
        }
        self.capacity = capacity;
    }

    /// Stamps `idx` as used now: the counter moves on (wrapping), and `idx`
    /// keeps its place among the entries, or is added at the end.
    pub fn update(&mut self, idx: KeyIndex)
        ensures
            final(self).usage() == old(self).usage().insert(idx, old(self).spec_counter()),
            final(self).spec_counter() == (if old(self).spec_counter() == usize::MAX {
                0
            } else {
                old(self).spec_counter() + 1
            }),
            final(self).spec_capacity() == old(self).spec_capacity(),
            final(self).entries().len() == old(self).entries().len() + (if old(
                self,
            ).usage().contains_key(idx) {
                0int
            } else {
                1int
            }),
    {
        proof {
            use_type_invariant(&*self);
        }
        let stamp = self.counter;
        let ghost before = self.usage@;
        let mut entries: Vec<(KeyIndex, usize)> = Vec::new();
        let mut found = false;
        let mut i: usize = 0;
        while i < self.usage.len()
            invariant
                before == self.usage@,
                keys_unique(before),
                i <= before.len(),
                entries@.len() == i,
                found <==> exists|j: int| 0 <= j < i && (#[trigger] before[j]).0 == idx,
                forall|j: int|
                    0 <= j < i ==> (#[trigger] entries@[j]) == (if before[j].0 == idx {
                        (idx, stamp)
                    } else {
                        before[j]
                    }),
            decreases before.len() - i,
        {
            let entry = self.usage[i];
            if entry.0 == idx {
                entries.push((idx, stamp));
                found = true;
            } else {
                entries.push(entry);
            }
            i = i + 1;
        }
        if !found {
            entries.push((idx, stamp));
        }
        proof {
            let after = entries@;
            assert(keys_unique(after)) by {
                assert forall|a: int, b: int|
                    0 <= a < after.len() && 0 <= b < after.len() && (#[trigger] after[a]).0 == (
                    #[trigger] after[b]).0 implies a == b by {
                    if a < before.len() && b < before.len() {
                        if before[a].0 == idx && before[b].0 == idx {
                        } else if before[a].0 == idx {
                        } else if before[b].0 == idx {
                        } else {
                        }
                    }
                }
            }
            assert(before.len() == i);
            let old_map = entries_map(before);
            let new_map = entries_map(after);
            assert(new_map =~= old_map.insert(idx, stamp)) by {
                assert forall|key: KeyIndex| #[trigger] new_map.contains_key(key) <==> old_map.insert(
                    idx,
                    stamp,
                ).contains_key(key) by {
                    if new_map.contains_key(key) {
                        let j = choose|j: int| 0 <= j < after.len() && (#[trigger] after[j]).0 == key;
                        if j < before.len() && key != idx {
                            lemma_entries_map_at(before, j);
                        }
                    }
                    if old_map.contains_key(key) && key != idx {
                        let j = choose|j: int| 0 <= j < before.len() && (#[trigger] before[j]).0 == key;
                        lemma_entries_map_at(after, j);
                    }
                    if key == idx {
                        if found {
                            let j = choose|j: int| 0 <= j < i && (#[trigger] before[j]).0 == idx;
                            lemma_entries_map_at(after, j);
                        } else {
                            lemma_entries_map_at(after, after.len() - 1);
                        }
                    }
                }
                assert forall|key: KeyIndex| #[trigger] new_map.contains_key(key) implies new_map[key]
                    == old_map.insert(idx, stamp)[key] by {
                    let j = choose|j: int| 0 <= j < after.len() && (#[trigger] after[j]).0 == key;
                    lemma_entries_map_at(after, j);
                    if j < before.len() && key != idx {
                        lemma_entries_map_at(before, j);
                    }
                }
            }
            if found {
                assert(old_map.contains_key(idx));
            } else {
                assert(!old_map.contains_key(idx));
            }
        }
        self.usage = entries;
        self.counter = self.counter.wrapping_add(1);
    }

    /// Drops the least recently used keys down to the capacity: with `k`
    /// keys too many, every key whose stamp is at most the `k`-th smallest
    /// stamp.
    pub fn evict_garbage(&mut self) -> (evicted: Vec<KeyIndex>)
        ensures
            final(self).spec_capacity() == old(self).spec_capacity(),
            final(self).spec_counter() == old(self).spec_counter(),
            old(self).entries().len() <= old(self).spec_capacity() ==> {
                &&& evicted@.len() == 0
                &&& final(self).entries() == old(self).entries()
            },
            old(self).entries().len() > old(self).spec_capacity() ==> {
                let threshold = eviction_threshold(old(self).entries(), old(self).spec_capacity());
                &&& evicted@ == old(self).entries().filter(
                    |e: (KeyIndex, usize)| e.1 <= threshold,
                ).map_values(|e: (KeyIndex, usize)| e.0)
                &&& final(self).entries() == old(self).entries().filter(
                    |e: (KeyIndex, usize)| e.1 > threshold,
                )
            },
            final(self).entries().len() <= final(self).spec_capacity(),
    {
        proof {
            use_type_invariant(&*self);
        }
        let len = self.usage.len();
        let evict_count = len.saturating_sub(self.capacity);
        if evict_count == 0 {
            return Vec::new();
        }
        let mut stamps: Vec<usize> = Vec::new();
        let mut i: usize = 0;
        while i < self.usage.len()
            invariant
                i <= self.usage@.len(),
                stamps@ == self.usage@.take(i as int).map_values(|e: (KeyIndex, usize)| e.1),
            decreases self.usage@.len() - i,
        {
            stamps.push(self.usage[i].1);
            proof {
                assert(self.usage@.take(i as int + 1) =~= self.usage@.take(i as int).push(
                    self.usage@[i as int],
                ));
            }
            i = i + 1;
        }
        proof {
            assert(self.usage@.take(i as int) =~= self.usage@);
        }
        let threshold = kth_smallest(&stamps, evict_count - 1);
        let ghost before = self.usage@;
        let ghost keep = |e: (KeyIndex, usize)| e.1 > threshold;
        let ghost drop = |e: (KeyIndex, usize)| e.1 <= threshold;
        let mut kept: Vec<(KeyIndex, usize)> = Vec::new();
        let mut evicted: Vec<KeyIndex> = Vec::new();
        let mut j: usize = 0;
        while j < self.usage.len()
            invariant
                before == self.usage@,
                keys_unique(before),
                j <= before.len(),
                keep == (|e: (KeyIndex, usize)| e.1 > threshold),
                drop == (|e: (KeyIndex, usize)| e.1 <= threshold),
                kept@ == before.take(j as int).filter(keep),
                evicted@ == before.take(j as int).filter(drop).map_values(
                    |e: (KeyIndex, usize)| e.0,
                ),
            decreases before.len() - j,
        {
            let entry = self.usage[j];
            proof {
                assert(before.take(j as int + 1) =~= before.take(j as int).push(entry));
                before.take(j as int).lemma_filter_push(entry, keep);
                before.take(j as int).lemma_filter_push(entry, drop);
            }
            if entry.1 <= threshold {
                evicted.push(entry.0);
            } else {
                kept.push(entry);
            }
            j = j + 1;
        }
        proof {
            assert(before.take(j as int) =~= before);
            assert(stamps_of(before) == stamps@);
            lemma_kth_smallest_unique(stamps@, evict_count - 1, threshold);
            // the dropped entries are at least `evict_count`
            assert(before.filter(drop).len() == count_up_to(stamps@, threshold as int)) by {
                lemma_filter_map_len(before, drop, |stamp: usize| stamp <= threshold as int);
            }
            assert(before.filter(keep).len() + before.filter(drop).len() == before.len()) by {
                lemma_filter_split(before, keep, drop);
            }
            assert(keys_unique(kept@)) by {
                lemma_filter_keys_unique(before, keep);
            }
        }
        self.usage = kept;
        evicted
    }

}

/// Database adapter using Least Recently Used (LRU) as an eviction policy.
#[derive(Debug)]
pub struct LRU<D> {
    inner: D,
    usage: Usage,
}

/// A copy of a list of keys.
fn copy_keys(keys: &Vec<KeyIndex>) -> (copy: Vec<KeyIndex>)
    ensures
        copy@ == keys@,
{
    let mut copy: Vec<KeyIndex> = Vec::new();
    let mut k: usize = 0;
    while k < keys.len()
        invariant
            k <= keys@.len(),
            copy@ == keys@.take(k as int),
        decreases keys@.len() - k,
    {
        copy.push(keys[k]);
        proof {
            assert(keys@.take(k as int + 1) =~= keys@.take(k as int).push(keys@[k as int]));
        }
        k = k + 1;
    }
    proof {
        assert(keys@.take(k as int) =~= keys@);
    }
    copy
}

impl<D> LRU<D> {
    /// The usage stamps.
    pub closed spec fn spec_usage(&self) -> Usage {
        self.usage
    }

    /// The wrapped database.
    pub closed spec fn spec_inner(&self) -> D {
        self.inner
    }

    /// Wraps `inner`, with the default capacity and no key used yet.
    pub fn new(inner: D) -> (lru: Self)
        ensures
            lru.spec_usage().spec_capacity() == DEFAULT_CAPACITY,
            lru.spec_usage().spec_counter() == 0,
            lru.spec_usage().entries().len() == 0,
            lru.spec_inner() == inner,
    {
        LRU { inner, usage: Usage::new() }
    }

    /// Modifies the cache's capacity.
    pub fn resize(&mut self, capacity: usize)
        ensures
            final(self).spec_usage().spec_capacity() == capacity,
            final(self).spec_usage().spec_counter() == old(self).spec_usage().spec_counter(),
            final(self).spec_usage().entries() == old(self).spec_usage().entries(),
            final(self).spec_inner() == old(self).spec_inner(),
    {
        self.usage.resize(capacity);
    }

    /// Stamps `idx` as used now.
    pub fn update(&mut self, idx: KeyIndex)
        ensures
            final(self).spec_usage().usage() == old(self).spec_usage().usage().insert(
                idx,
                old(self).spec_usage().spec_counter(),
            ),
            final(self).spec_usage().spec_counter() == (if old(self).spec_usage().spec_counter()
                == usize::MAX {
                0
            } else {
                old(self).spec_usage().spec_counter() + 1
            }),
            final(self).spec_usage().spec_capacity() == old(self).spec_usage().spec_capacity(),
            final(self).spec_inner() == old(self).spec_inner(),
    {
        self.usage.update(idx);
    }

    /// The wrapped database, to change.
    pub fn inner_mut(&mut self) -> (inner: &mut D)
        ensures
            *inner == old(self).spec_inner(),
            final(self).spec_inner() == *final(inner),
            final(self).spec_usage() == old(self).spec_usage(),
    {
        &mut self.inner
    }

    /// The wrapped database.
    pub fn inner(&self) -> (inner: &D)
        ensures
            *inner == self.spec_inner(),
    {
        &self.inner
    }
}

impl<D: Evict> Evict for LRU<D> {
    /// Drops the least recently used keys down to the capacity (see
    /// [`Usage::evict_garbage`]), and hands them to the wrapped database;
    /// with nothing over the capacity, the wrapped database is left alone.
    fn evict_garbage(&mut self) -> (evicted: Vec<KeyIndex>)
        ensures
            final(self).spec_usage().spec_capacity() == old(self).spec_usage().spec_capacity(),
            final(self).spec_usage().spec_counter() == old(self).spec_usage().spec_counter(),
            old(self).spec_usage().entries().len() <= old(self).spec_usage().spec_capacity() ==> {
                &&& evicted@.len() == 0
                &&& final(self).spec_usage().entries() == old(self).spec_usage().entries()
            },
            old(self).spec_usage().entries().len() > old(self).spec_usage().spec_capacity() ==> {
                let entries = old(self).spec_usage().entries();
                let threshold = eviction_threshold(entries, old(self).spec_usage().spec_capacity());
                &&& evicted@ == entries.filter(|e: (KeyIndex, usize)| e.1 <= threshold).map_values(
                    |e: (KeyIndex, usize)| e.0,
                )
                &&& final(self).spec_usage().entries() == entries.filter(
                    |e: (KeyIndex, usize)| e.1 > threshold,
                )
            },
            final(self).spec_usage().entries().len() <= final(self).spec_usage().spec_capacity(),
            old(self).spec_usage().entries().len() <= old(self).spec_usage().spec_capacity()
                ==> final(self).spec_inner() == old(self).spec_inner(),
            old(self).spec_usage().entries().len() > old(self).spec_usage().spec_capacity() ==> exists|
                m: &mut D,
                handed: Vec<KeyIndex>,
            |
                handed@ == evicted@ && mut_ref_current(m) == old(self).spec_inner() && mut_ref_future(m)
                    == final(self).spec_inner() && #[trigger] call_ensures(D::evict_iter, (m, handed), ()),
    {
        let over = self.usage.usage.len() > self.usage.capacity;
        let evicted = self.usage.evict_garbage();
        if over {
            let handed = copy_keys(&evicted);
            self.inner.evict_iter(handed);
        }
        evicted
    }

    /// Hands `indices` to the wrapped database; the usage stamps stay.
    fn evict_iter(&mut self, indices: Vec<KeyIndex>)
        ensures
            final(self).spec_usage() == old(self).spec_usage(),
            exists|m: &mut D|
                mut_ref_current(m) == old(self).spec_inner() && mut_ref_future(m) == final(self).spec_inner()
                    && #[trigger] call_ensures(D::evict_iter, (m, indices), ()),
    {
        self.inner.evict_iter(indices);
    }
}

proof fn lemma_filter_map_len(
    s: Seq<(KeyIndex, usize)>,
    p: spec_fn((KeyIndex, usize)) -> bool,
    q: spec_fn(usize) -> bool,
)
    requires
        forall|i: int| 0 <= i < s.len() ==> p(#[trigger] s[i]) == q(s[i].1),
    ensures
        s.filter(p).len() == s.map_values(|e: (KeyIndex, usize)| e.1).filter(q).len(),
    decreases s.len(),
{
    reveal(Seq::filter);
    let m = s.map_values(|e: (KeyIndex, usize)| e.1);
    if s.len() > 0 {
        let t = s.drop_last();
        assert forall|i: int| 0 <= i < t.len() implies p(#[trigger] t[i]) == q(t[i].1) by {
            assert(t[i] == s[i]);
        }
        lemma_filter_map_len(t, p, q);
        assert(m.drop_last() =~= t.map_values(|e: (KeyIndex, usize)| e.1));
        assert(s.last() == s[s.len() - 1]);
        assert(m.last() == s.last().1);
    }
}

proof fn lemma_filter_split(
    s: Seq<(KeyIndex, usize)>,
    p: spec_fn((KeyIndex, usize)) -> bool,
    q: spec_fn((KeyIndex, usize)) -> bool,
)
    requires
        forall|e: (KeyIndex, usize)| #[trigger] p(e) == !q(e),
    ensures
        s.filter(p).len() + s.filter(q).len() == s.len(),
    decreases s.len(),
{
    reveal(Seq::filter);
    if s.len() > 0 {
        lemma_filter_split(s.drop_last(), p, q);
    }
}

proof fn lemma_filter_keys_unique(s: Seq<(KeyIndex, usize)>, p: spec_fn((KeyIndex, usize)) -> bool)
    requires
        keys_unique(s),
    ensures
        keys_unique(s.filter(p)),
    decreases s.len(),
{
    reveal(Seq::filter);
    if s.len() > 0 {
        let t = s.drop_last();
        assert(keys_unique(t)) by {
            assert forall|a: int, b: int|
                0 <= a < t.len() && 0 <= b < t.len() && (#[trigger] t[a]).0 == (#[trigger] t[b]).0
                    implies a == b by {
                assert(t[a] == s[a] && t[b] == s[b]);
            }
        }
        lemma_filter_keys_unique(t, p);
        let f = t.filter(p);
        if p(s.last()) {
            let g = f.push(s.last());
            assert forall|a: int, b: int|
                0 <= a < g.len() && 0 <= b < g.len() && (#[trigger] g[a]).0 == (#[trigger] g[b]).0
                    implies a == b by {
                if a < f.len() && b == f.len() {
                    assert(t.filter(p).contains(f[a]));
                    t.lemma_filter_contains_rev(p, f[a]);
                    let x = choose|x: int| 0 <= x < t.len() && t[x] == f[a];
                    assert(s[x] == t[x]);
                    assert(s[s.len() - 1] == s.last());
                } else if b < f.len() && a == f.len() {
                    assert(t.filter(p).contains(f[b]));
                    t.lemma_filter_contains_rev(p, f[b]);
                    let x = choose|x: int| 0 <= x < t.len() && t[x] == f[b];
                    assert(s[x] == t[x]);
                    assert(s[s.len() - 1] == s.last());
                }
            }
        }
    }
}

} // verus!
