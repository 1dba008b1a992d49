//! The dependency graph of a query, and the order in which its memos are
//! checked.
//!
//! A query first discovers every memo below its root that was not checked in
//! the current revision, following recorded dependencies. Each such memo
//! waits for its own unchecked dependencies; it becomes ready once all of them
//! are finished, and the root itself is left to the query.
use vstd::prelude::*;

use crate::query::store::{pending, Store};
use crate::query::KeyIndex;

verus! {

broadcast use vstd::seq_lib::group_seq_properties;

/// The recorded dependencies of memo `key`.
pub open spec fn deps(store: &Store, key: KeyIndex) -> Seq<KeyIndex> {
    store.memos@[key.0 as int].dependencies@
}

/// The predicate "was not checked in the current revision".
pub open spec fn is_pending(store: Store) -> spec_fn(KeyIndex) -> bool {
    |d: KeyIndex| pending(&store, d)
}

/// The predicate "was not checked in the current revision, and is not
/// finished".
pub open spec fn is_outstanding(store: Store, finished: Seq<bool>) -> spec_fn(KeyIndex) -> bool {
    |d: KeyIndex| pending(&store, d) && !finished[d.0 as int]
}

/// The dependencies of memo `key` that were not checked in this revision.
pub open spec fn pending_deps(store: &Store, key: KeyIndex) -> Seq<KeyIndex> {
    deps(store, key).filter(is_pending(*store))
}

/// How many dependencies of memo `key` are unchecked and not finished.
pub open spec fn outstanding(store: &Store, finished: Seq<bool>, key: KeyIndex) -> nat {
    deps(store, key).filter(is_outstanding(*store, finished)).len()
}

/// `order[j]` is an unchecked dependency of an unchecked memo listed before it.
pub open spec fn found_through(store: &Store, order: Seq<KeyIndex>, j: int) -> bool {
    exists|i: int|
        0 <= i < j && pending(store, order[i]) && pending(store, order[j]) && deps(
            store,
            order[i],
        ).contains(order[j])
}

/// `order` lists exactly the memos reachable from `root`: it starts at the
/// root, lists each memo once, each later memo is an unchecked dependency of
/// an earlier unchecked memo, and every unchecked dependency of a listed
/// unchecked memo is listed.
pub open spec fn discovered(store: &Store, root: KeyIndex, order: Seq<KeyIndex>) -> bool {
    &&& order.len() >= 1
    &&& order[0] == root
    &&& order.no_duplicates()
    &&& forall|i: int| 0 <= i < order.len() ==> (#[trigger] order[i]).0 < store.memos@.len()
    &&& forall|j: int| 1 <= j < order.len() ==> #[trigger] found_through(store, order, j)
    &&& forall|i: int, m: int|
        0 <= i < order.len() && 0 <= m < deps(store, order[i]).len() && pending(store, order[i])
            && pending(store, #[trigger] deps(store, order[i])[m]) ==> order.contains(
            deps(store, order[i])[m],
        )
}

/// The discovered graph of one query and the progress of its evaluation.
#[derive(Debug)]
pub struct Plan {
    root: KeyIndex,
    order: Vec<KeyIndex>,
    indegree: Vec<usize>,
    dependents: Vec<Vec<KeyIndex>>,
    done: Vec<bool>,
}

impl Plan {
    /// The memo the query asked for.
    pub closed spec fn root(&self) -> KeyIndex {
        self.root
    }

    /// The discovered memos, in the order they were found.
    pub closed spec fn order(&self) -> Seq<KeyIndex> {
        self.order@
    }

    /// How many dependencies memo `x` still waits for.
    pub closed spec fn remaining(&self, x: int) -> int {
        self.indegree@[x] as int
    }

    /// Which memos have finished.
    pub closed spec fn finished(&self) -> Seq<bool> {
        self.done@
    }

    /// The discovered memos that wait for memo `x`.
    pub closed spec fn dependents_of(&self, x: int) -> Seq<KeyIndex> {
        self.dependents@[x]@
    }

    /// The tables are sized for `n` memos.
    pub closed spec fn sized(&self, n: nat) -> bool {
        &&& self.indegree@.len() == n
        &&& self.dependents@.len() == n
        &&& self.done@.len() == n
    }

    /// Well-formedness against the store the plan was made from.
    pub open spec fn wf(&self, store: &Store) -> bool {
        &&& self.sized(store.memos@.len())
        &&& discovered(store, self.root(), self.order())
        &&& forall|x: int|
            0 <= x < store.memos@.len() && #[trigger] self.order().contains(KeyIndex(x as usize))
                ==> self.remaining(x) == (if pending(store, KeyIndex(x as usize)) {
                outstanding(store, self.finished(), KeyIndex(x as usize)) as int
            } else {
                0
            })
        &&& forall|x: int|
            0 <= x < store.memos@.len() ==> (#[trigger] self.dependents_of(x)).no_duplicates()
        &&& forall|x: int, p: KeyIndex|
            0 <= x < store.memos@.len() ==> (#[trigger] self.dependents_of(x).contains(p) <==> (
            self.order().contains(p) && pending(store, p) && pending(store, KeyIndex(x as usize))
                && deps(store, p).contains(KeyIndex(x as usize))))
    }
}

proof fn lemma_filter_len_ext(s: Seq<KeyIndex>, p: spec_fn(KeyIndex) -> bool, q: spec_fn(KeyIndex) -> bool)
    requires
        forall|i: int| 0 <= i < s.len() ==> p(#[trigger] s[i]) == q(s[i]),
    ensures
        s.filter(p) == s.filter(q),
    decreases s.len(),
{
    reveal(Seq::filter);
    if s.len() > 0 {
        let t = s.drop_last();
        assert forall|i: int| 0 <= i < t.len() implies p(#[trigger] t[i]) == q(t[i]) by {
            assert(t[i] == s[i]);
        }
        lemma_filter_len_ext(t, p, q);
        assert(s.last() == s[s.len() - 1]);
    }
}

proof fn lemma_filter_len_flip(
    s: Seq<KeyIndex>,
    p: spec_fn(KeyIndex) -> bool,
    q: spec_fn(KeyIndex) -> bool,
    x: KeyIndex,
)
    requires
        s.no_duplicates(),
        forall|i: int| 0 <= i < s.len() && s[i] != x ==> #[trigger] p(s[i]) == q(s[i]),
        p(x),
        !q(x),
    ensures
        s.filter(q).len() + (if s.contains(x) {
            1int
        } else {
            0int
        }) == s.filter(p).len(),
    decreases s.len(),
{
    reveal(Seq::filter);
    if s.len() > 0 {
        let t = s.drop_last();
        assert(t.no_duplicates());
        assert forall|i: int| 0 <= i < t.len() && t[i] != x implies #[trigger] p(t[i]) == q(t[i]) by {
            assert(t[i] == s[i]);
        }
        lemma_filter_len_flip(t, p, q, x);
        assert(s =~= t.push(s.last()));
        assert(s.last() == s[s.len() - 1]);
        if s.last() == x {
            assert(!t.contains(x));
        } else {
            assert(s.contains(x) <==> t.contains(x));
        }
    }
}

proof fn lemma_filter_nonempty(s: Seq<KeyIndex>, p: spec_fn(KeyIndex) -> bool, x: KeyIndex)
    requires
        s.contains(x),
        p(x),
    ensures
        s.filter(p).len() >= 1,
{
    let i = choose|i: int| 0 <= i < s.len() && s[i] == x;
    s.lemma_filter_contains(p, i);
}

/// A sequence of distinct memo indices below `n` has at most `n` items.
proof fn lemma_distinct_bounded(s: Seq<KeyIndex>, n: nat)
    requires
        s.no_duplicates(),
        forall|i: int| 0 <= i < s.len() ==> (#[trigger] s[i]).0 < n,
    ensures
        s.len() <= n,
{
    let t = s.map_values(|key: KeyIndex| key.0 as int);
    assert(t.no_duplicates()) by {
        assert forall|i: int, j: int| 0 <= i < t.len() && 0 <= j < t.len() && i != j implies t[i]
            != t[j] by {
            if t[i] == t[j] {
                assert(s[i] == KeyIndex(s[i].0));
                assert(s[j] == KeyIndex(s[j].0));
            }
        }
    }
    t.unique_seq_to_set();
    vstd::set_lib::lemma_int_range(0, n as int);
    assert(t.to_set().subset_of(vstd::set_lib::set_int_range(0, n as int))) by {
        assert forall|v: int| t.to_set().contains(v) implies vstd::set_lib::set_int_range(
            0,
            n as int,
        ).contains(v) by {
            let i = choose|i: int| 0 <= i < t.len() && t[i] == v;
            assert(s[i].0 < n);
        }
    }
    vstd::set_lib::lemma_len_subset(t.to_set(), vstd::set_lib::set_int_range(0, n as int));
}

/// What holds of a discovery in progress: `order` starts at the root, lists
/// distinct memos, `visited` marks exactly the listed memos, and each later
/// memo is an unchecked dependency of an earlier unchecked one.
spec fn on_track(store: &Store, root: KeyIndex, order: Seq<KeyIndex>, visited: Seq<bool>) -> bool {
    &&& visited.len() == store.memos@.len()
    &&& order.len() >= 1
    &&& order.len() <= store.memos@.len()
    &&& order[0] == root
    &&& order.no_duplicates()
    &&& forall|i: int| 0 <= i < order.len() ==> (#[trigger] order[i]).0 < store.memos@.len()
    &&& forall|y: int|
        0 <= y < store.memos@.len() ==> (#[trigger] visited[y] <==> order.contains(
            KeyIndex(y as usize),
        ))
    &&& forall|j: int| 1 <= j < order.len() ==> #[trigger] found_through(store, order, j)
}

/// Lists `key`, an unchecked dependency of the unchecked memo `order[k]`
/// that is not listed yet.
fn visit(
    store: &Store,
    root: KeyIndex,
    order: &mut Vec<KeyIndex>,
    visited: &mut Vec<bool>,
    k: usize,
    key: KeyIndex,
)
    requires
        store.wf(),
        on_track(store, root, old(order)@, old(visited)@),
        k < old(order)@.len(),
        pending(store, old(order)@[k as int]),
        deps(store, old(order)@[k as int]).contains(key),
        pending(store, key),
        key.0 < store.memos@.len(),
        !old(visited)@[key.0 as int],
    ensures
        on_track(store, root, final(order)@, final(visited)@),
        final(order)@ == old(order)@.push(key),
{
    let n = store.memos.len();
    let ghost before = order@;
    visited.set(key.0, true);
    order.push(key);
    proof {
        assert(!before.contains(key)) by {
            assert(KeyIndex(key.0 as usize) == key);
        }
        assert(order@.no_duplicates());
        assert forall|i: int| 0 <= i < order@.len() implies (#[trigger] order@[i]).0
            < store.memos@.len() by {
            if i < before.len() {
                assert(order@[i] == before[i]);
            }
        }
        lemma_distinct_bounded(order@, store.memos@.len());
        assert forall|y: int| 0 <= y < store.memos@.len() implies (#[trigger] visited@[y]
            <==> order@.contains(KeyIndex(y as usize))) by {
            if y == key.0 {
                assert(KeyIndex(y as usize) == key);
                assert(order@[order@.len() - 1] == key);
            } else {
                assert(KeyIndex(y as usize).0 != key.0);
                if before.contains(KeyIndex(y as usize)) {
                    let i = choose|i: int| 0 <= i < before.len() && before[i] == KeyIndex(y as usize);
                    assert(order@[i] == before[i]);
                }
            }
        }
        assert forall|j: int| 1 <= j < order@.len() implies #[trigger] found_through(
            store,
            order@,
            j,
        ) by {
            if j == order@.len() - 1 {
                assert(order@[k as int] == before[k as int]);
                assert(order@[j] == key);
                assert(deps(store, order@[k as int]).contains(order@[j]));
            } else {
                assert(order@[j] == before[j]);
                assert(found_through(store, before, j));
                let i = choose|i: int|
                    0 <= i < j && pending(store, before[i]) && pending(store, before[j]) && deps(
                        store,
                        before[i],
                    ).contains(before[j]);
                assert(order@[i] == before[i]);
            }
        }
    }
}

/// Lists every memo reachable from `root` through unchecked memos.
fn discover_order(store: &Store, root: KeyIndex) -> (order: Vec<KeyIndex>)
    requires
        store.wf(),
        root.0 < store.memos@.len(),
    ensures
        discovered(store, root, order@),
{
    let n = store.memos.len();
    let mut visited: Vec<bool> = Vec::new();
    let mut x: usize = 0;
    while x < n
        invariant
            n == store.memos@.len(),
            x <= n,
            visited@.len() == x,
            forall|y: int| 0 <= y < x ==> (#[trigger] visited@[y]) == (y == root.0),
        decreases n - x,
    {
        visited.push(x == root.0);
        x = x + 1;
    }
    let mut order: Vec<KeyIndex> = Vec::new();
    order.push(root);
    proof {
        assert forall|y: int| 0 <= y < n implies (#[trigger] visited@[y] <==> order@.contains(
            KeyIndex(y as usize),
        )) by {
            if y == root.0 {
                assert(KeyIndex(y as usize) == root);
                assert(order@[0] == root);
            } else {
                assert(KeyIndex(y as usize) != root);
            }
        }
    }
    let mut k: usize = 0;
    while k < order.len()
        invariant
            store.wf(),
            n == store.memos@.len(),
            on_track(store, root, order@, visited@),
            k <= order@.len(),
            forall|i: int, m: int|
                0 <= i < k && 0 <= m < deps(store, order@[i]).len() && pending(store, order@[i])
                    && pending(store, #[trigger] deps(store, order@[i])[m]) ==> order@.contains(
                    deps(store, order@[i])[m],
                ),
        decreases n - k,
    {
        let current = order[k];
        if store.memos[current.0].verified_at != store.revision {
            let memo = &store.memos[current.0];
            let mut m: usize = 0;
            while m < memo.dependencies.len()
                invariant
                    store.wf(),
                    n == store.memos@.len(),
                    memo == store.memos@[current.0 as int],
                    on_track(store, root, order@, visited@),
                    k < order@.len(),
                    order@[k as int] == current,
                    pending(store, current),
                    m <= memo.dependencies@.len(),
                    forall|i: int, mm: int|
                        0 <= i < k && 0 <= mm < deps(store, order@[i]).len() && pending(
                            store,
                            order@[i],
                        ) && pending(store, #[trigger] deps(store, order@[i])[mm])
                            ==> order@.contains(deps(store, order@[i])[mm]),
                    forall|mm: int|
                        0 <= mm < m && pending(store, #[trigger] memo.dependencies@[mm])
                            ==> order@.contains(memo.dependencies@[mm]),
                decreases memo.dependencies@.len() - m,
            {
                let dependency = memo.dependencies[m];
                if store.memos[dependency.0].verified_at != store.revision && !visited[dependency.0] {
                    let ghost before = order@;
                    visit(store, root, &mut order, &mut visited, k, dependency);
                    proof {
                        assert forall|v: KeyIndex| before.contains(v) implies order@.contains(v) by {
                            let i = choose|i: int| 0 <= i < before.len() && before[i] == v;
                            assert(order@[i] == before[i]);
                        }
                        assert(order@[before.len() as int] == dependency);
                    }
                } else if store.memos[dependency.0].verified_at != store.revision {
                    proof {
                        assert(KeyIndex(dependency.0 as usize) == dependency);
                    }
                }
                m = m + 1;
            }
            proof {
                assert forall|i: int, mm: int|
                    0 <= i < k + 1 && 0 <= mm < deps(store, order@[i]).len() && pending(
                        store,
                        order@[i],
                    ) && pending(store, #[trigger] deps(store, order@[i])[mm]) implies order@.contains(
                    deps(store, order@[i])[mm],
                ) by {
                    if i == k {
                        assert(deps(store, order@[i])[mm] == memo.dependencies@[mm]);
                    }
                }
            }
        }
        k = k + 1;
    }
    proof {
        assert(order@.len() >= 1);
        assert(order@[0] == root);
        assert(order@.no_duplicates());
        assert(forall|i: int| 0 <= i < order@.len() ==> (#[trigger] order@[i]).0 < store.memos@.len());
        assert(k == order@.len());
        assert(forall|i: int, m: int|
        0 <= i < order@.len() && 0 <= m < deps(store, order@[i]).len() && pending(store, order@[i])
            && pending(store, #[trigger] deps(store, order@[i])[m]) ==> order@.contains(
            deps(store, order@[i])[m],
        ));
        assert(discovered(store, root, order@));
    }
    order
}

/// How many dependencies of memo `key` were not checked in this revision.
fn count_pending(store: &Store, key: KeyIndex) -> (count: usize)
    requires
        store.wf(),
        key.0 < store.memos@.len(),
    ensures
        count == pending_deps(store, key).len(),
{
    let memo = &store.memos[key.0];
    let mut count: usize = 0;
    let mut m: usize = 0;
    while m < memo.dependencies.len()
        invariant
            store.wf(),
            key.0 < store.memos@.len(),
            memo == store.memos@[key.0 as int],
            m <= memo.dependencies@.len(),
            count <= m,
            count == memo.dependencies@.take(m as int).filter(is_pending(*store)).len(),
        decreases memo.dependencies@.len() - m,
    {
        let dependency = memo.dependencies[m];
        proof {
            assert(memo.dependencies@.take(m as int + 1) =~= memo.dependencies@.take(m as int).push(
                dependency,
            ));
            memo.dependencies@.take(m as int).lemma_filter_push(dependency, is_pending(*store));
        }
        if store.memos[dependency.0].verified_at != store.revision {
            count = count + 1;
        }
        m = m + 1;
    }
    proof {
        assert(memo.dependencies@.take(m as int) =~= memo.dependencies@);
    }
    count
}

/// Adds `key` to the memos that wait for memo `target`.
fn link(dependents: &mut Vec<Vec<KeyIndex>>, target: KeyIndex, key: KeyIndex)
    requires
        target.0 < old(dependents)@.len(),
    ensures
        final(dependents)@.len() == old(dependents)@.len(),
        final(dependents)@[target.0 as int]@ == old(dependents)@[target.0 as int]@.push(key),
        forall|y: int|
            0 <= y < old(dependents)@.len() && y != target.0 ==> final(dependents)@[y]
                == old(dependents)@[y],
{
    let mut list: Vec<KeyIndex> = Vec::new();
    std::mem::swap(&mut list, &mut dependents[target.0]);
    list.push(key);
    dependents.set(target.0, list);
}

/// For each memo, the listed unchecked memos that wait for it.
fn link_dependents(store: &Store, root: KeyIndex, order: &Vec<KeyIndex>) -> (dependents: Vec<
    Vec<KeyIndex>,
>)
    requires
        store.wf(),
        discovered(store, root, order@),
    ensures
        dependents@.len() == store.memos@.len(),
        forall|y: int| 0 <= y < store.memos@.len() ==> (#[trigger] dependents@[y])@.no_duplicates(),
        forall|y: int, p: KeyIndex|
            0 <= y < store.memos@.len() ==> (#[trigger] dependents@[y]@.contains(p) <==> (
            order@.contains(p) && pending(store, p) && pending(store, KeyIndex(y as usize))
                && deps(store, p).contains(KeyIndex(y as usize)))),
{
    let n = store.memos.len();
    let mut dependents: Vec<Vec<KeyIndex>> = Vec::new();
    let mut x: usize = 0;
    while x < n
        invariant
            n == store.memos@.len(),
            x <= n,
            dependents@.len() == x,
            forall|y: int| 0 <= y < x ==> (#[trigger] dependents@[y])@.len() == 0,
        decreases n - x,
    {
        dependents.push(Vec::new());
        x = x + 1;
    }
    let mut i: usize = 0;
    while i < order.len()
        invariant
            store.wf(),
            n == store.memos@.len(),
            discovered(store, root, order@),
            dependents@.len() == n,
            i <= order@.len(),
            forall|y: int| 0 <= y < n ==> (#[trigger] dependents@[y])@.no_duplicates(),
            forall|y: int, p: KeyIndex|
                0 <= y < n ==> (#[trigger] dependents@[y]@.contains(p) <==> (order@.take(
                    i as int,
                ).contains(p) && pending(store, p) && pending(store, KeyIndex(y as usize)) && deps(
                    store,
                    p,
                ).contains(KeyIndex(y as usize)))),
        decreases order@.len() - i,
    {
        let parent = order[i];
        proof {
            assert(order@.take(i as int + 1) =~= order@.take(i as int).push(parent));
            assert(!order@.take(i as int).contains(parent)) by {
                if order@.take(i as int).contains(parent) {
                    let j = choose|j: int| 0 <= j < i && order@.take(i as int)[j] == parent;
                    assert(order@[j] == order@[i as int]);
                }
            }
        }
        if store.memos[parent.0].verified_at != store.revision {
            let memo = &store.memos[parent.0];
            let mut m: usize = 0;
            while m < memo.dependencies.len()
                invariant
                    store.wf(),
                    n == store.memos@.len(),
                    memo == store.memos@[parent.0 as int],
                    pending(store, parent),
                    parent.0 < n,
                    parent == order@[i as int],
                    i < order@.len(),
                    !order@.take(i as int).contains(parent),
                    dependents@.len() == n,
                    m <= memo.dependencies@.len(),
                    forall|y: int| 0 <= y < n ==> (#[trigger] dependents@[y])@.no_duplicates(),
                    forall|y: int, p: KeyIndex|
                        0 <= y < n ==> (#[trigger] dependents@[y]@.contains(p) <==> ((order@.take(
                            i as int,
                        ).contains(p) && pending(store, p) && pending(store, KeyIndex(y as usize))
                            && deps(store, p).contains(KeyIndex(y as usize))) || (p == parent
                            && pending(store, KeyIndex(y as usize)) && memo.dependencies@.take(
                            m as int,
                        ).contains(KeyIndex(y as usize))))),
                decreases memo.dependencies@.len() - m,
            {
                let dependency = memo.dependencies[m];
                let ghost before = dependents@;
                proof {
                    assert(memo.dependencies@.take(m as int + 1) =~= memo.dependencies@.take(
                        m as int,
                    ).push(dependency));
                    assert(KeyIndex(dependency.0 as usize) == dependency);
                }
                if store.memos[dependency.0].verified_at != store.revision {
                    proof {
                        assert(!before[dependency.0 as int]@.contains(parent)) by {
                            if before[dependency.0 as int]@.contains(parent) {
                                assert(memo.dependencies@.take(m as int).contains(dependency));
                                let j = choose|j: int|
                                    0 <= j < m && memo.dependencies@.take(m as int)[j]
                                        == dependency;
                                assert(memo.dependencies@[j] == memo.dependencies@[m as int]);
                            }
                        }
                    }
                    link(&mut dependents, dependency, parent);
                }
                proof {
                    assert forall|y: int| 0 <= y < n implies (
                    #[trigger] dependents@[y])@.no_duplicates() by {
                        if y != dependency.0 {
                            assert(dependents@[y] == before[y]);
                        }
                    }
                    assert forall|y: int, p: KeyIndex| 0 <= y < n implies (
                    #[trigger] dependents@[y]@.contains(p) <==> ((order@.take(i as int).contains(p)
                        && pending(store, p) && pending(store, KeyIndex(y as usize)) && deps(
                        store,
                        p,
                    ).contains(KeyIndex(y as usize))) || (p == parent && pending(
                        store,
                        KeyIndex(y as usize),
                    ) && memo.dependencies@.take(m as int + 1).contains(KeyIndex(y as usize)))))
                        by {
                        if y == dependency.0 {
                            assert(KeyIndex(y as usize) == dependency);
                        } else {
                            assert(dependents@[y] == before[y]);
                            assert(KeyIndex(y as usize) != dependency);
                        }
                    }
                }
                m = m + 1;
            }
            proof {
                assert(memo.dependencies@.take(m as int) =~= memo.dependencies@);
            }
        }
        i = i + 1;
    }
    proof {
        assert(order@.take(i as int) =~= order@);
    }
    dependents
}

/// Discovers the memos below `root` that were not checked in the current
/// revision, with how many unchecked dependencies each waits for and which
/// memos wait for each.
pub fn discover(store: &Store, root: KeyIndex) -> (plan: Plan)
    requires
        store.wf(),
        root.0 < store.memos@.len(),
    ensures
        plan.wf(store),
        plan.root() == root,
        plan.finished() == Seq::new(store.memos@.len(), |i: int| false),
        forall|x: int|
            0 <= x < store.memos@.len() && #[trigger] plan.order().contains(KeyIndex(x as usize))
                ==> plan.remaining(x) == (if pending(store, KeyIndex(x as usize)) {
                pending_deps(store, KeyIndex(x as usize)).len() as int
            } else {
                0
            }),
{
    let n = store.memos.len();
    let order = discover_order(store, root);
    let dependents = link_dependents(store, root, &order);
    let mut indegree: Vec<usize> = Vec::new();
    let mut done: Vec<bool> = Vec::new();
    let mut x: usize = 0;
    while x < n
        invariant
            store.wf(),
            n == store.memos@.len(),
            x <= n,
            indegree@.len() == x,
            done@.len() == x,
            forall|y: int|
                0 <= y < x ==> #[trigger] indegree@[y] == (if pending(store, KeyIndex(y as usize)) {
                    pending_deps(store, KeyIndex(y as usize)).len() as int
                } else {
                    0
                }),
            forall|y: int| 0 <= y < x ==> !(#[trigger] done@[y]),
        decreases n - x,
    {
        if store.memos[x].verified_at != store.revision {
            indegree.push(count_pending(store, KeyIndex(x)));
        } else {
            indegree.push(0);
        }
        done.push(false);
        x = x + 1;
    }
    let plan = Plan { root, order, indegree, dependents, done };
    proof {
        assert(plan.finished() =~= Seq::new(store.memos@.len(), |i: int| false));
        assert forall|y: int| 0 <= y < n implies #[trigger] outstanding(store, plan.finished(), KeyIndex(y as usize))
            == pending_deps(store, KeyIndex(y as usize)).len() by {
            let s = deps(store, KeyIndex(y as usize));
            assert forall|i: int| 0 <= i < s.len() implies is_outstanding(*store, plan.finished())(
                #[trigger] s[i],
            ) == is_pending(*store)(s[i]) by {
                assert(store.memos@[y].dependencies@[i].0 < n);
            }
            lemma_filter_len_ext(s, is_outstanding(*store, plan.finished()), is_pending(*store));
        }
    }
    plan
}

impl Plan {
    /// The discovered memos, other than the root, that wait for nothing: they
    /// can be checked at once.
    pub fn leaves(&self, store: &Store) -> (ready: Vec<KeyIndex>)
        requires
            store.wf(),
            self.wf(store),
        ensures
            ready@ == self.order().filter(
                |x: KeyIndex| self.remaining(x.0 as int) == 0 && x != self.root(),
            ),
    {
        let ghost pred = |x: KeyIndex| self.remaining(x.0 as int) == 0 && x != self.root();
        let mut ready: Vec<KeyIndex> = Vec::new();
        let mut i: usize = 0;
        while i < self.order.len()
            invariant
                store.wf(),
                self.wf(store),
                pred == (|x: KeyIndex| self.remaining(x.0 as int) == 0 && x != self.root()),
                i <= self.order@.len(),
                ready@ == self.order@.take(i as int).filter(pred),
            decreases self.order@.len() - i,
        {
            let key = self.order[i];
            proof {
                assert(self.order@.take(i as int + 1) =~= self.order@.take(i as int).push(key));
                self.order@.take(i as int).lemma_filter_push(key, pred);
            }
            if self.indegree[key.0] == 0 && key != self.root {
                ready.push(key);
            }
            i = i + 1;
        }
        proof {
            assert(self.order@.take(i as int) =~= self.order@);
        }
        ready
    }

    /// Records that memo `key` finished, and returns the memos that waited for
    /// it and wait for nothing more, other than the root.
    pub fn complete(&mut self, store: &Store, key: KeyIndex) -> (ready: Vec<KeyIndex>)
        requires
            store.wf(),
            old(self).wf(store),
            old(self).order().contains(key),
            !old(self).finished()[key.0 as int],
        ensures
            final(self).wf(store),
            final(self).root() == old(self).root(),
            final(self).order() == old(self).order(),
            final(self).finished() == old(self).finished().update(key.0 as int, true),
            forall|x: int|
                0 <= x < store.memos@.len() ==> #[trigger] final(self).remaining(x) == old(
                    self,
                ).remaining(x) - (if old(self).dependents_of(key.0 as int).contains(
                    KeyIndex(x as usize),
                ) {
                    1int
                } else {
                    0int
                }),
            ready@ == old(self).dependents_of(key.0 as int).filter(
                |p: KeyIndex| old(self).remaining(p.0 as int) == 1 && p != old(self).root(),
            ),
    {
        let n = store.memos.len();
        let ghost old_self = *self;
        let ghost pred = |p: KeyIndex| old_self.remaining(p.0 as int) == 1 && p != old_self.root();
        proof {
            assert(key.0 < n);
        }
        self.done.set(key.0, true);
        let ghost list = self.dependents@[key.0 as int]@;
        proof {
            assert(list == old_self.dependents_of(key.0 as int));
            assert(list.no_duplicates());
            assert forall|j: int| 0 <= j < list.len() implies old_self.remaining(
                (#[trigger] list[j]).0 as int,
            ) >= 1 && list[j].0 < n by {
                let p = list[j];
                assert(old_self.dependents_of(key.0 as int).contains(p));
                assert(KeyIndex(key.0 as usize) == key);
                assert(old_self.order().contains(p));
                let i = choose|i: int| 0 <= i < old_self.order().len() && old_self.order()[i] == p;
                assert(p.0 < n);
                assert(KeyIndex(p.0 as usize) == p);
                lemma_filter_nonempty(
                    deps(store, p),
                    is_outstanding(*store, old_self.finished()),
                    key,
                );
            }
        }
        let mut ready: Vec<KeyIndex> = Vec::new();
        let mut j: usize = 0;
        while j < self.dependents[key.0].len()
            invariant
                store.wf(),
                n == store.memos@.len(),
                key.0 < n,
                self.root == old_self.root,
                self.order == old_self.order,
                self.dependents == old_self.dependents,
                self.done@ == old_self.done@.update(key.0 as int, true),
                self.indegree@.len() == n,
                self.dependents@.len() == n,
                old_self.done@.len() == n,
                list == self.dependents@[key.0 as int]@,
                list.no_duplicates(),
                forall|jj: int|
                    0 <= jj < list.len() ==> old_self.remaining((#[trigger] list[jj]).0 as int) >= 1
                        && list[jj].0 < n,
                pred == (|p: KeyIndex| old_self.remaining(p.0 as int) == 1 && p
                    != old_self.root()),
                j <= list.len(),
                forall|x: int|
                    0 <= x < n ==> #[trigger] self.indegree@[x] == old_self.remaining(x) - (if list.take(
                        j as int,
                    ).contains(KeyIndex(x as usize)) {
                        1int
                    } else {
                        0int
                    }),
                ready@ == list.take(j as int).filter(pred),
            decreases list.len() - j,
        {
            let parent = self.dependents[key.0][j];
            proof {
                assert(list.take(j as int + 1) =~= list.take(j as int).push(parent));
                list.take(j as int).lemma_filter_push(parent, pred);
                assert(!list.take(j as int).contains(parent)) by {
                    if list.take(j as int).contains(parent) {
                        let jj = choose|jj: int| 0 <= jj < j && list.take(j as int)[jj] == parent;
                        assert(list[jj] == list[j as int]);
                    }
                }
                assert(KeyIndex(parent.0 as usize) == parent);
            }
            let count = self.indegree[parent.0] - 1;
            self.indegree.set(parent.0, count);
            if count == 0 && parent != self.root {
                ready.push(parent);
            }
            proof {
                assert forall|x: int| 0 <= x < n implies #[trigger] self.indegree@[x]
                    == old_self.remaining(x) - (if list.take(j as int + 1).contains(
                    KeyIndex(x as usize),
                ) {
                    1int
                } else {
                    0int
                }) by {
                    if x != parent.0 {
                        assert(KeyIndex(x as usize) != parent);
                    }
                }
            }
            j = j + 1;
        }
        proof {
            assert(list.take(j as int) =~= list);
            let new_self = *self;
            assert(new_self.sized(n as nat));
            assert(new_self.dependents_of(0) == old_self.dependents_of(0));
            assert forall|x: int|
                0 <= x < n && #[trigger] new_self.order().contains(KeyIndex(x as usize))
                    implies new_self.remaining(x) == (if pending(store, KeyIndex(x as usize)) {
                outstanding(store, new_self.finished(), KeyIndex(x as usize)) as int
            } else {
                0
            }) by {
                let y = KeyIndex(x as usize);
                let s = deps(store, y);
                let p = is_outstanding(*store, old_self.finished());
                let q = is_outstanding(*store, new_self.finished());
                assert forall|i: int| 0 <= i < s.len() && s[i] != key implies #[trigger] p(s[i])
                    == q(s[i]) by {
                    assert(s[i].0 < n);
                    assert(s[i].0 != key.0);
                }
                if pending(store, key) {
                    lemma_filter_len_flip(s, p, q, key);
                    assert(KeyIndex(key.0 as usize) == key);
                } else {
                    assert forall|i: int| 0 <= i < s.len() implies #[trigger] p(s[i]) == q(s[i]) by {
                        assert(s[i].0 < n);
                    }
                    lemma_filter_len_ext(s, p, q);
                    assert(KeyIndex(key.0 as usize) == key);
                    assert(!old_self.dependents_of(key.0 as int).contains(y));
                }
            }
            assert(discovered(store, new_self.root(), new_self.order()));
            assert forall|x: int| 0 <= x < store.memos@.len() implies (
            #[trigger] new_self.dependents_of(x)).no_duplicates() by {
                assert(new_self.dependents_of(x) == old_self.dependents_of(x));
            }
            assert forall|x: int, p: KeyIndex| 0 <= x < store.memos@.len() implies (
            #[trigger] new_self.dependents_of(x).contains(p) <==> (new_self.order().contains(p)
                && pending(store, p) && pending(store, KeyIndex(x as usize)) && deps(
                store,
                p,
            ).contains(KeyIndex(x as usize)))) by {
                assert(new_self.dependents_of(x) == old_self.dependents_of(x));
            }
        }
        ready
    }
}


/// A sequence without duplicates keeps none after filtering.
proof fn lemma_filter_distinct(s: Seq<KeyIndex>, p: spec_fn(KeyIndex) -> bool)
    requires
        s.no_duplicates(),
    ensures
        s.filter(p).no_duplicates(),
    decreases s.len(),
{
    if s.len() > 0 {
        let t = s.drop_last();
        lemma_filter_distinct(t, p);
        assert(s =~= t.push(s.last()));
        t.lemma_filter_push(s.last(), p);
        if p(s.last()) && t.filter(p).contains(s.last()) {
            t.lemma_filter_contains_rev(p, s.last());
            let i = choose|i: int| 0 <= i < t.len() && t[i] == s.last();
            assert(s[i] == s[s.len() - 1]);
        }
    }
}

/// Memo `x` has an unchecked dependency that `order` does not list.
pub open spec fn waits_outside(store: &Store, order: Seq<KeyIndex>, x: KeyIndex) -> bool {
    exists|m: int|
        0 <= m < deps(store, x).len() && pending(store, #[trigger] deps(store, x)[m])
            && !order.contains(deps(store, x)[m])
}

/// Every unchecked dependency of `order[i]` is listed before it.
pub open spec fn dependencies_first(store: &Store, order: Seq<KeyIndex>) -> bool {
    forall|i: int, m: int|
        0 <= i < order.len() && 0 <= m < deps(store, order[i]).len() && pending(
            store,
            #[trigger] deps(store, order[i])[m],
        ) ==> exists|j: int| 0 <= j < i && order[j] == deps(store, order[i])[m]
}

/// The order in which the memos below `root` that were not checked in this
/// revision are brought up to date: each memo after its own unchecked
/// dependencies, each once, the root left to the caller. A discovered memo
/// is left out only while it waits for an unchecked dependency that is
/// itself left out (as on a cycle through the root).
pub fn evaluation_order(store: &Store, root: KeyIndex) -> (order: Vec<KeyIndex>)
    requires
        store.wf(),
        root.0 < store.memos@.len(),
    ensures
        order@.no_duplicates(),
        dependencies_first(store, order@),
        exists|found: Seq<KeyIndex>|
            {
                &&& discovered(store, root, found)
                &&& forall|i: int|
                    0 <= i < order@.len() ==> found.contains(#[trigger] order@[i]) && order@[i]
                        != root
                &&& forall|x: KeyIndex|
                    #[trigger] found.contains(x) && x != root && !order@.contains(x)
                        ==> waits_outside(store, order@, x)
            },
{
    let n = store.memos.len();
    let mut plan = discover(store, root);
    let ghost found = plan.order();
    let mut ready = plan.leaves(store);
    let mut order: Vec<KeyIndex> = Vec::new();
    proof {
        let pred = |x: KeyIndex| plan.remaining(x.0 as int) == 0 && x != plan.root();
        lemma_filter_distinct(found, pred);
        assert forall|i: int| 0 <= i < ready@.len() implies found.contains(#[trigger] ready@[i])
            && ready@[i] != root && !plan.finished()[ready@[i].0 as int] && plan.remaining(
            ready@[i].0 as int,
        ) == 0 by {
            found.lemma_filter_pred(pred, i);
            found.lemma_filter_contains_rev(pred, ready@[i]);
            assert(ready@[i].0 < n);
        }
        assert forall|x: KeyIndex| #[trigger] found.contains(x) && x != root implies plan.remaining(x.0 as int) > 0
            || ready@.contains(x) by {
            let i = choose|i: int| 0 <= i < found.len() && found[i] == x;
            if plan.remaining(x.0 as int) <= 0 {
                found.lemma_filter_contains(|x: KeyIndex| plan.remaining(x.0 as int) == 0 && x != plan.root(), i);
                assert(KeyIndex(x.0 as usize) == x);
            }
        }
    }
    while ready.len() > 0
        invariant
            store.wf(),
            n == store.memos@.len(),
            plan.wf(store),
            plan.root() == root,
            plan.order() == found,
            discovered(store, root, found),
            forall|x: int| 0 <= x < n ==> (#[trigger] plan.finished()[x] <==> order@.contains(KeyIndex(x as usize))),
            forall|x: KeyIndex| #[trigger] found.contains(x) && plan.finished()[x.0 as int] ==> plan.remaining(x.0 as int) == 0,
            forall|i: int|
                0 <= i < ready@.len() ==> found.contains(#[trigger] ready@[i]) && ready@[i] != root
                    && !plan.finished()[ready@[i].0 as int] && plan.remaining(ready@[i].0 as int) == 0,
            ready@.no_duplicates(),
            order@.no_duplicates(),
            forall|i: int| 0 <= i < order@.len() ==> found.contains(#[trigger] order@[i]) && order@[i] != root,
            dependencies_first(store, order@),
            forall|x: KeyIndex|
                #[trigger] found.contains(x) && x != root ==> plan.finished()[x.0 as int]
                    || plan.remaining(x.0 as int) > 0 || ready@.contains(x),
            order@.len() <= n,
        decreases n - order@.len(),
    {
        let ghost ready0 = ready@;
        let key = ready.pop().unwrap();
        let ghost before = plan;
        let ghost waiting = ready@;
        proof {
            assert(found.contains(key));
            let k = choose|k: int| 0 <= k < found.len() && found[k] == key;
            assert(k != 0);
            assert(found_through(store, found, k));
            assert(pending(store, key));
            assert(key.0 < n);
            assert(KeyIndex(key.0 as usize) == key);
            let s = deps(store, key);
            assert forall|m: int| 0 <= m < s.len() && pending(store, #[trigger] s[m]) implies order@.contains(s[m]) by {
                assert(s[m].0 < n);
                if !before.finished()[s[m].0 as int] {
                    lemma_filter_nonempty(s, is_outstanding(*store, before.finished()), s[m]);
                }
                assert(KeyIndex(s[m].0 as usize) == s[m]);
            }
            assert(!order@.contains(key));
        }
        let newly = plan.complete(store, key);
        let ghost old_order = order@;
        order.push(key);
        let mut newly = newly;
        proof {
            lemma_filter_distinct(before.dependents_of(key.0 as int),
                |p: KeyIndex| before.remaining(p.0 as int) == 1 && p != before.root());
            assert forall|i: int| 0 <= i < newly@.len() implies found.contains(#[trigger] newly@[i])
                && newly@[i] != root && !plan.finished()[newly@[i].0 as int]
                && plan.remaining(newly@[i].0 as int) == 0 && before.remaining(newly@[i].0 as int) == 1 by {
                let p = newly@[i];
                before.dependents_of(key.0 as int).lemma_filter_pred(
                    |p: KeyIndex| before.remaining(p.0 as int) == 1 && p != before.root(), i);
                before.dependents_of(key.0 as int).lemma_filter_contains_rev(
                    |p: KeyIndex| before.remaining(p.0 as int) == 1 && p != before.root(), p);
                assert(p.0 < n);
                assert(KeyIndex(p.0 as usize) == p);
            }
            assert forall|i: int| 0 <= i < waiting.len() implies !plan.finished()[(#[trigger] waiting[i]).0 as int]
                && plan.remaining(waiting[i].0 as int) == 0 by {
                let r = waiting[i];
                assert(before.remaining(r.0 as int) == 0);
                assert(r != key) by {
                    assert(ready@.len() + 1 == waiting.len() + 1);
                }
                assert(r.0 < n);
                assert(KeyIndex(r.0 as usize) == r);
                assert(r.0 != key.0);
            }
        }
        let ghost added = newly@;
        ready.append(&mut newly);
        proof {
            assert(ready@ == waiting + added);
            assert forall|i: int, j: int| 0 <= i < waiting.len() && 0 <= j < added.len() implies waiting[i]
                != added[j] by {
                assert(before.remaining(waiting[i].0 as int) == 0);
                assert(before.remaining(added[j].0 as int) == 1);
            }
            vstd::seq_lib::lemma_no_dup_in_concat(waiting, added);
            assert forall|x: KeyIndex| #[trigger] found.contains(x) implies plan.remaining(x.0 as int) >= 0
                && plan.remaining(x.0 as int) <= before.remaining(x.0 as int) by {
                assert(x.0 < n);
                assert(KeyIndex(x.0 as usize) == x);
            }
            assert forall|x: int| 0 <= x < n implies (#[trigger] plan.finished()[x] <==> order@.contains(
                KeyIndex(x as usize),
            )) by {
                if x == key.0 {
                    assert(KeyIndex(x as usize) == key);
                } else {
                    assert(KeyIndex(x as usize) != key);
                    assert(order@ == old_order.push(key));
                    if old_order.contains(KeyIndex(x as usize)) {
                        assert(order@.contains(KeyIndex(x as usize)));
                    }
                    if order@.contains(KeyIndex(x as usize)) {
                        let j = choose|j: int| 0 <= j < order@.len() && order@[j] == KeyIndex(x as usize);
                        assert(j < old_order.len());
                        assert(old_order[j] == KeyIndex(x as usize));
                    }
                }
            }
            assert forall|x: KeyIndex| #[trigger] found.contains(x) && plan.finished()[x.0 as int] implies plan.remaining(
                x.0 as int,
            ) == 0 by {
                assert(x.0 < n);
                if x.0 != key.0 {
                    assert(before.finished()[x.0 as int]);
                }
            }
            assert forall|i: int| 0 <= i < ready@.len() implies found.contains(#[trigger] ready@[i]) && ready@[i]
                != root && !plan.finished()[ready@[i].0 as int] && plan.remaining(ready@[i].0 as int) == 0 by {
                if i < waiting.len() {
                    assert(ready@[i] == waiting[i]);
                } else {
                    assert(ready@[i] == added[i - waiting.len()]);
                }
            }
            assert forall|i: int| 0 <= i < order@.len() implies found.contains(#[trigger] order@[i]) && order@[i]
                != root by {
                if i < old_order.len() {
                    assert(order@[i] == old_order[i]);
                }
            }
            assert forall|i: int, m: int|
                0 <= i < order@.len() && 0 <= m < deps(store, order@[i]).len() && pending(
                    store,
                    #[trigger] deps(store, order@[i])[m],
                ) implies exists|j: int| 0 <= j < i && order@[j] == deps(store, order@[i])[m] by {
                if i < old_order.len() {
                    assert(order@[i] == old_order[i]);
                    let j = choose|j: int| 0 <= j < i && old_order[j] == deps(store, old_order[i])[m];
                    assert(order@[j] == old_order[j]);
                } else {
                    assert(order@[i] == key);
                    let d = deps(store, key)[m];
                    assert(old_order.contains(d));
                    let j = choose|j: int| 0 <= j < old_order.len() && old_order[j] == d;
                    assert(order@[j] == old_order[j]);
                }
            }
            assert forall|x: KeyIndex|
                #[trigger] found.contains(x) && x != root implies plan.finished()[x.0 as int] || plan.remaining(
                    x.0 as int,
                ) > 0 || ready@.contains(x) by {
                assert(x.0 < n);
                assert(KeyIndex(x.0 as usize) == x);
                if x.0 == key.0 {
                } else if before.finished()[x.0 as int] {
                } else if waiting.contains(x) || x == key {
                    if waiting.contains(x) {
                        let j = choose|j: int| 0 <= j < waiting.len() && waiting[j] == x;
                        assert(ready@[j] == x);
                    }
                } else if plan.remaining(x.0 as int) <= 0 {
                    assert(before.remaining(x.0 as int) > 0) by {
                        assert(ready0 =~= waiting.push(key));
                        if ready0.contains(x) {
                            let j = choose|j: int| 0 <= j < ready0.len() && ready0[j] == x;
                            if j < waiting.len() {
                                assert(waiting[j] == x);
                            }
                        }
                    }
                    assert(before.dependents_of(key.0 as int).contains(x));
                    let i = choose|i: int| 0 <= i < before.dependents_of(key.0 as int).len()
                        && before.dependents_of(key.0 as int)[i] == x;
                    before.dependents_of(key.0 as int).lemma_filter_contains(
                        |p: KeyIndex| before.remaining(p.0 as int) == 1 && p != before.root(), i);
                    let j = choose|j: int| 0 <= j < added.len() && added[j] == x;
                    assert(ready@[waiting.len() + j] == x);
                }
            }
            lemma_distinct_bounded(order@, n as nat);
        }
    }
    proof {
        assert forall|x: KeyIndex|
            #[trigger] found.contains(x) && x != root && !order@.contains(x) implies waits_outside(
            store,
            order@,
            x,
        ) by {
            assert(x.0 < n);
            assert(KeyIndex(x.0 as usize) == x);
            assert(!plan.finished()[x.0 as int]);
            assert(plan.remaining(x.0 as int) > 0);
            assert(pending(store, x));
            let s = deps(store, x);
            let q = is_outstanding(*store, plan.finished());
            s.lemma_filter_pred(q, 0);
            s.lemma_filter_contains_rev(q, s.filter(q)[0]);
            let e = s.filter(q)[0];
            let m = choose|m: int| 0 <= m < s.len() && s[m] == e;
            assert(e.0 < n);
            assert(KeyIndex(e.0 as usize) == e);
            assert(pending(store, s[m]) && !order@.contains(s[m]));
        }
    }
    order
}

} // verus!
