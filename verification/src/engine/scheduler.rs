//! The build scheduler: which packages of a plan can be built, and what
//! each build links against.
//!
//! Each package waits for its dependencies (its outgoing edges) to be built;
//! a package whose dependencies are all built is prepared: its run-time and
//! build-time closures are gathered from its dependencies, and it is handed
//! out to be built.
use vstd::prelude::*;

use crate::engine::graph::{incoming, outgoing, Plan};
use crate::engine::package::{LinkTime, Package};

verus! {

broadcast use vstd::seq_lib::group_seq_properties;

/// Where a package is in its build.
#[derive(Debug)]
pub enum PackageState<P> {
    /// Not built; waits for `remaining` dependency edges.
    Unbuilt { package: P, remaining: usize },
    /// Handed out to be built.
    Building,
    /// Built, with the run-time closure it was built with.
    Built { package: P, runtime: Vec<usize> },
}

/// A package handed out to be built, with its closures.
#[derive(Debug)]
pub struct BuildInfo<P> {
    pub node: usize,
    pub package: P,
    pub runtime: Vec<usize>,
    pub buildtime: Vec<usize>,
}

/// The run-time closure of a built package (nothing otherwise).
pub open spec fn runtime_of<P>(state: PackageState<P>) -> Seq<usize> {
    match state {
        PackageState::Built { runtime, .. } => runtime@,
        _ => Seq::empty(),
    }
}

/// The predicate "the edge's dependency is not built".
pub open spec fn leads_to_unbuilt<P>(states: Seq<PackageState<P>>) -> spec_fn((usize, LinkTime)) -> bool {
    |edge: (usize, LinkTime)| !(states[edge.0 as int] is Built)
}

/// How many of `edges` lead to a package that is not built.
pub open spec fn unbuilt_deps<P>(edges: Seq<(usize, LinkTime)>, states: Seq<PackageState<P>>) -> nat {
    edges.filter(leads_to_unbuilt(states)).len()
}

/// The predicate "the edge leads to `target`".
pub open spec fn edge_to(target: usize) -> spec_fn((usize, LinkTime)) -> bool {
    |edge: (usize, LinkTime)| edge.0 == target
}

/// The predicate "is `node`".
pub open spec fn is_node(node: usize) -> spec_fn(usize) -> bool {
    |n: usize| n == node
}

/// How many of `edges` lead to `target`.
pub open spec fn edge_count(edges: Seq<(usize, LinkTime)>, target: usize) -> nat {
    edges.filter(edge_to(target)).len()
}

/// How many times `node` occurs in `nodes`.
pub open spec fn occurrences(nodes: Seq<usize>, node: usize) -> nat {
    nodes.filter(is_node(node)).len()
}

/// The closure of the `time` edges among `edges`: for each, in order, the
/// run-time closure of its dependency, then the dependency.
pub open spec fn closure_of<P>(
    edges: Seq<(usize, LinkTime)>,
    states: Seq<PackageState<P>>,
    time: LinkTime,
) -> Seq<usize>
    decreases edges.len(),
{
    if edges.len() == 0 {
        Seq::empty()
    } else {
        let rest = closure_of(edges.drop_last(), states, time);
        let edge = edges.last();
        if edge.1 == time {
            rest + runtime_of(states[edge.0 as int]) + seq![edge.0]
        } else {
            rest
        }
    }
}

/// The state of every package of a plan, and the part of the plan being
/// built.
#[derive(Debug)]
pub struct Scheduler<P> {
    dependencies: Vec<Vec<(usize, LinkTime)>>,
    dependents: Vec<Vec<usize>>,
    state: Vec<PackageState<P>>,
    subset: Vec<bool>,
}

impl<P> Scheduler<P> {
    /// The dependency edges of each package, in the plan's order.
    pub closed spec fn deps(&self) -> Seq<Vec<(usize, LinkTime)>> {
        self.dependencies@
    }

    /// The packages with an edge to each package (once per edge).
    pub closed spec fn parents(&self) -> Seq<Vec<usize>> {
        self.dependents@
    }

    /// The state of each package.
    pub closed spec fn states(&self) -> Seq<PackageState<P>> {
        self.state@
    }

    /// The packages being built and their dependencies.
    pub closed spec fn subset(&self) -> Seq<bool> {
        self.subset@
    }

    /// The number of packages.
    pub open spec fn size(&self) -> nat {
        self.states().len()
    }

    /// What holds whatever is being updated: the tables are sized, edges
    /// stay in the plan, each edge is listed at both its ends, a package
    /// being built or built has all its dependencies built, and an unbuilt
    /// package waits for at least its unbuilt dependency edges.
    pub open spec fn frame_wf(&self) -> bool {
        &&& self.deps().len() == self.size()
        &&& self.parents().len() == self.size()
        &&& self.subset().len() == self.size()
        &&& forall|x: int, j: int|
            0 <= x < self.size() && 0 <= j < self.deps()[x]@.len() ==> (#[trigger] self.deps()[x]@[j]).0
                < self.size()
        &&& forall|x: int, j: int|
            0 <= x < self.size() && 0 <= j < self.parents()[x]@.len() ==> #[trigger] self.parents()[x]@[j]
                < self.size()
        &&& forall|p: int, c: int|
            0 <= p < self.size() && 0 <= c < self.size() ==> edge_count(
                #[trigger] self.deps()[p]@,
                c as usize,
            ) == occurrences(#[trigger] self.parents()[c]@, p as usize)
        &&& forall|x: int|
            0 <= x < self.size() && !(#[trigger] self.states()[x] is Unbuilt) ==> unbuilt_deps(
                self.deps()[x]@,
                self.states(),
            ) == 0
        &&& forall|x: int|
            0 <= x < self.size() && #[trigger] self.states()[x] is Unbuilt ==> self.states()[x]->remaining
                >= unbuilt_deps(self.deps()[x]@, self.states())
    }

    /// Well-formedness: besides [`Self::frame_wf`], an unbuilt package waits
    /// for exactly its unbuilt dependency edges.
    pub open spec fn wf(&self) -> bool {
        &&& self.frame_wf()
        &&& forall|x: int|
            0 <= x < self.size() && #[trigger] self.states()[x] is Unbuilt ==> self.states()[x]->remaining
                == unbuilt_deps(self.deps()[x]@, self.states())
    }
}

proof fn lemma_filter_all<A>(s: Seq<A>, p: spec_fn(A) -> bool)
    requires
        forall|i: int| 0 <= i < s.len() ==> p(#[trigger] s[i]),
    ensures
        s.filter(p).len() == s.len(),
    decreases s.len(),
{
    reveal(Seq::filter);
    if s.len() > 0 {
        let t = s.drop_last();
        assert forall|i: int| 0 <= i < t.len() implies p(#[trigger] t[i]) by {
            assert(t[i] == s[i]);
        }
        lemma_filter_all(t, p);
        assert(s.last() == s[s.len() - 1]);
    }
}

proof fn lemma_filter_ext<A>(s: Seq<A>, p: spec_fn(A) -> bool, q: spec_fn(A) -> bool)
    requires
        forall|i: int| 0 <= i < s.len() ==> p(#[trigger] s[i]) == q(s[i]),
    ensures
        s.filter(p) == s.filter(q),
    decreases s.len(),
{
    reveal(Seq::filter);
    if s.len() > 0 {
        let t = s.drop_last();
        assert forall|i: int| 0 <= i < t.len() implies p(#[trigger] t[i]) == q(t[i]) by {
            assert(t[i] == s[i]);
        }
        lemma_filter_ext(t, p, q);
        assert(s.last() == s[s.len() - 1]);
    }
}

/// Filtering by `p` counts what `q` counts and what `r` counts, when each
/// item satisfying `p` satisfies exactly one of `q` and `r`.
proof fn lemma_filter_split<A>(s: Seq<A>, p: spec_fn(A) -> bool, q: spec_fn(A) -> bool, r: spec_fn(A) -> bool)
    requires
        forall|i: int| 0 <= i < s.len() ==> (p(#[trigger] s[i]) <==> (q(s[i]) || r(s[i]))),
        forall|i: int| 0 <= i < s.len() ==> !(q(#[trigger] s[i]) && r(s[i])),
    ensures
        s.filter(p).len() == s.filter(q).len() + s.filter(r).len(),
    decreases s.len(),
{
    reveal(Seq::filter);
    if s.len() > 0 {
        let t = s.drop_last();
        assert forall|i: int| 0 <= i < t.len() implies (p(#[trigger] t[i]) <==> (q(t[i]) || r(
            t[i],
        ))) by {
            assert(t[i] == s[i]);
        }
        assert forall|i: int| 0 <= i < t.len() implies !(q(#[trigger] t[i]) && r(t[i])) by {
            assert(t[i] == s[i]);
        }
        lemma_filter_split(t, p, q, r);
        assert(s.last() == s[s.len() - 1]);
    }
}

/// Each edge `p -> c` is counted once among the edges leaving `p` and once
/// among the sources of the edges reaching `c`.
proof fn lemma_tables_agree(edges: Seq<(usize, usize, LinkTime)>, p: usize, c: usize)
    ensures
        edge_count(outgoing(edges, p), c) == occurrences(incoming(edges, c), p),
    decreases edges.len(),
{
    if edges.len() > 0 {
        let edge = edges.last();
        let rest = edges.drop_last();
        lemma_tables_agree(rest, p, c);
        outgoing(rest, p).lemma_filter_prepend((edge.1, edge.2), edge_to(c));
        incoming(rest, c).lemma_filter_prepend(edge.0, is_node(p));
    }
}

/// The edges leaving a node lead inside the plan when every edge does.
proof fn lemma_outgoing_in_range(edges: Seq<(usize, usize, LinkTime)>, node: usize, size: nat)
    requires
        forall|k: int| 0 <= k < edges.len() ==> (#[trigger] edges[k]).1 < size,
    ensures
        forall|j: int| 0 <= j < outgoing(edges, node).len() ==> (#[trigger] outgoing(edges, node)[j]).0 < size,
    decreases edges.len(),
{
    if edges.len() > 0 {
        let rest = edges.drop_last();
        assert forall|k: int| 0 <= k < rest.len() implies (#[trigger] rest[k]).1 < size by {
            assert(rest[k] == edges[k]);
        }
        lemma_outgoing_in_range(rest, node, size);
        let edge = edges[edges.len() - 1];
        let tail = outgoing(rest, node);
        if edge.0 == node {
            assert forall|j: int| 0 <= j < outgoing(edges, node).len() implies (#[trigger] outgoing(edges, node)[j]).0 < size by {
                if j > 0 {
                    assert(outgoing(edges, node)[j] == tail[j - 1]);
                }
            }
        }
    }
}

/// The sources of the edges reaching a node are inside the plan when every
/// edge starts there.
proof fn lemma_incoming_in_range(edges: Seq<(usize, usize, LinkTime)>, node: usize, size: nat)
    requires
        forall|k: int| 0 <= k < edges.len() ==> (#[trigger] edges[k]).0 < size,
    ensures
        forall|j: int| 0 <= j < incoming(edges, node).len() ==> #[trigger] incoming(edges, node)[j] < size,
    decreases edges.len(),
{
    if edges.len() > 0 {
        let rest = edges.drop_last();
        assert forall|k: int| 0 <= k < rest.len() implies (#[trigger] rest[k]).0 < size by {
            assert(rest[k] == edges[k]);
        }
        lemma_incoming_in_range(rest, node, size);
        let edge = edges[edges.len() - 1];
        let tail = incoming(rest, node);
        if edge.1 == node {
            assert forall|j: int| 0 <= j < incoming(edges, node).len() implies #[trigger] incoming(edges, node)[j] < size by {
                if j > 0 {
                    assert(incoming(edges, node)[j] == tail[j - 1]);
                }
            }
        }
    }
}

impl<R> Scheduler<Package<R>> {
    /// A scheduler for a frozen plan: every package unbuilt, waiting for all
    /// its dependency edges, and nothing being built.
    pub fn new(plan: Plan<R>) -> (scheduler: Self)
        ensures
            scheduler.wf(),
            scheduler.size() == plan.packages().len(),
            forall|x: int| 0 <= x < scheduler.size() ==> (#[trigger] scheduler.deps()[x])@ == outgoing(plan.edges(), x as usize),
            forall|x: int| 0 <= x < scheduler.size() ==> (#[trigger] scheduler.parents()[x])@ == incoming(plan.edges(), x as usize),
            forall|x: int|
                0 <= x < scheduler.size() ==> (#[trigger] scheduler.states()[x] matches PackageState::Unbuilt {
                    package,
                    remaining,
                } && package == plan.packages()[x] && remaining == outgoing(plan.edges(), x as usize).len()),
            forall|x: int| 0 <= x < scheduler.size() ==> !#[trigger] scheduler.subset()[x],
    {
        let ghost edges = plan.edges();
        let ghost size = plan.packages().len();
        let (packages, dependencies, dependents) = plan.into_tables();
        proof {
            assert forall|x: int, j: int|
                0 <= x < size && 0 <= j < dependencies@[x]@.len() implies (
                #[trigger] dependencies@[x]@[j]).0 < size by {
                lemma_outgoing_in_range(edges, x as usize, size);
            }
            assert forall|x: int, j: int|
                0 <= x < size && 0 <= j < dependents@[x]@.len() implies #[trigger] dependents@[x]@[j] < size by {
                lemma_incoming_in_range(edges, x as usize, size);
            }
            assert forall|p: int, c: int|
                0 <= p < size && 0 <= c < size implies edge_count(
                    #[trigger] dependencies@[p]@,
                    c as usize,
                ) == occurrences(#[trigger] dependents@[c]@, p as usize) by {
                lemma_tables_agree(edges, p as usize, c as usize);
            }
        }
        Self::from_tables(packages, dependencies, dependents)
    }
}

impl<P> Scheduler<P> {
    /// A scheduler for a plan of `packages`, with the dependency edges of
    /// each and the packages with an edge to each: every package unbuilt,
    /// waiting for all its edges, and nothing being built.
    pub fn from_tables(
        packages: Vec<P>,
        dependencies: Vec<Vec<(usize, LinkTime)>>,
        dependents: Vec<Vec<usize>>,
    ) -> (scheduler: Self)
        requires
            dependencies@.len() == packages@.len(),
            dependents@.len() == packages@.len(),
            forall|x: int, j: int|
                0 <= x < packages@.len() && 0 <= j < dependencies@[x]@.len() ==> (
                #[trigger] dependencies@[x]@[j]).0 < packages@.len(),
            forall|x: int, j: int|
                0 <= x < packages@.len() && 0 <= j < dependents@[x]@.len() ==> #[trigger] dependents@[x]@[j]
                    < packages@.len(),
            forall|p: int, c: int|
                0 <= p < packages@.len() && 0 <= c < packages@.len() ==> edge_count(
                    #[trigger] dependencies@[p]@,
                    c as usize,
                ) == occurrences(#[trigger] dependents@[c]@, p as usize),
        ensures
            scheduler.wf(),
            scheduler.deps() == dependencies@,
            scheduler.parents() == dependents@,
            scheduler.size() == packages@.len(),
            forall|x: int|
                0 <= x < packages@.len() ==> (#[trigger] scheduler.states()[x] matches PackageState::Unbuilt {
                    package,
                    remaining,
                } && package == packages@[x] && remaining == dependencies@[x]@.len()),
            forall|x: int| 0 <= x < packages@.len() ==> !#[trigger] scheduler.subset()[x],
    {
        let ghost all = packages@;
        let n = packages.len();
        let mut packages = packages;
        let mut state: Vec<PackageState<P>> = Vec::new();
        let mut subset: Vec<bool> = Vec::new();
        let mut x: usize = 0;
        while x < n
            invariant
                n == all.len(),
                dependencies@.len() == n,
                x <= n,
                packages@ == all.subrange(x as int, n as int),
                state@.len() == x,
                subset@.len() == x,
                forall|y: int|
                    0 <= y < x ==> (#[trigger] state@[y] matches PackageState::Unbuilt {
                        package,
                        remaining,
                    } && package == all[y] && remaining == dependencies@[y]@.len()),
                forall|y: int| 0 <= y < x ==> !#[trigger] subset@[y],
            decreases n - x,
        {
            let package = packages.remove(0);
            proof {
                assert(package == all[x as int]);
                assert(packages@ =~= all.subrange(x as int + 1, n as int));
            }
            state.push(PackageState::Unbuilt { package, remaining: dependencies[x].len() });
            subset.push(false);
            x = x + 1;
        }
        let scheduler = Scheduler { dependencies, dependents, state, subset };
        proof {
            assert forall|y: int| 0 <= y < n implies unbuilt_deps(
                #[trigger] scheduler.deps()[y]@,
                scheduler.states(),
            ) == scheduler.deps()[y]@.len() by {
                let edges = scheduler.deps()[y]@;
                assert forall|i: int| 0 <= i < edges.len() implies leads_to_unbuilt(
                    scheduler.states(),
                )(#[trigger] edges[i]) by {
                    assert(edges[i].0 < n);
                    assert(scheduler.states()[edges[i].0 as int] is Unbuilt);
                }
                lemma_filter_all(edges, leads_to_unbuilt(scheduler.states()));
            }
            assert forall|y: int|
                0 <= y < scheduler.size() && #[trigger] scheduler.states()[y] is Unbuilt implies scheduler.states()[y]->remaining
                    == unbuilt_deps(scheduler.deps()[y]@, scheduler.states()) by {
                assert(unbuilt_deps(scheduler.deps()[y]@, scheduler.states()) == scheduler.deps()[y]@.len());
            }
            assert forall|y: int| 0 <= y < scheduler.size() && !(#[trigger] scheduler.states()[y] is Unbuilt) implies unbuilt_deps(
                scheduler.deps()[y]@,
                scheduler.states(),
            ) == 0 by {
                assert(scheduler.states()[y] is Unbuilt);
            }
        }
        scheduler
    }

    /// Hands out `target` to be built if it is unbuilt and waits for
    /// nothing: it becomes `Building`, and its closures are gathered from its
    /// dependencies.
    pub fn prepare_info(&mut self, target: usize) -> (info: Option<BuildInfo<P>>)
        requires
            old(self).frame_wf(),
            target < old(self).size(),
        ensures
            final(self).frame_wf(),
            final(self).deps() == old(self).deps(),
            final(self).parents() == old(self).parents(),
            final(self).subset() == old(self).subset(),
            final(self).size() == old(self).size(),
            forall|x: int|
                0 <= x < old(self).size() && x != target ==> #[trigger] final(self).states()[x]
                    == old(self).states()[x],
            match info {
                Some(info) => {
                    &&& old(self).states()[target as int] matches PackageState::Unbuilt {
                        package,
                        remaining,
                    } && remaining == 0 && info.package == package
                    &&& final(self).states()[target as int] is Building
                    &&& info.node == target
                    &&& info.runtime@ == closure_of(
                        old(self).deps()[target as int]@,
                        old(self).states(),
                        LinkTime::Runtime,
                    )
                    &&& info.buildtime@ == closure_of(
                        old(self).deps()[target as int]@,
                        old(self).states(),
                        LinkTime::Buildtime,
                    )
                },
                None => {
                    &&& !(old(self).states()[target as int] matches PackageState::Unbuilt {
                        remaining,
                        ..
                    } && remaining == 0)
                    &&& final(self).states() == old(self).states()
                },
            },
    {
        let ghost before = self.state@;
        let ghost old_self = *self;
        let mut taken: PackageState<P> = PackageState::Building;
        std::mem::swap(&mut taken, &mut self.state[target]);
        let mut result: Option<BuildInfo<P>> = None;
        match taken {
            PackageState::Unbuilt { package, remaining } => {
                if remaining != 0 {
                    self.state.set(target, PackageState::Unbuilt { package, remaining });
                    proof {
                        assert(self.state@ =~= before);
                    }
                } else {
                    let ghost edges = self.dependencies@[target as int]@;
                    proof {
                        assert(unbuilt_deps(edges, before) == 0);
                        assert forall|j: int| 0 <= j < edges.len() implies (before[(
                        #[trigger] edges[j]).0 as int] is Built) by {
                            if !(before[edges[j].0 as int] is Built) {
                                edges.lemma_filter_contains(leads_to_unbuilt(before), j);
                            }
                        }
                    }
                    let mut runtime: Vec<usize> = Vec::new();
                    let mut buildtime: Vec<usize> = Vec::new();
                    let mut j: usize = 0;
                    while j < self.dependencies[target].len()
                        invariant
                            target < before.len(),
                            before[target as int] is Unbuilt,
                            self.dependencies@.len() == before.len(),
                            self.dependencies == old_self.dependencies,
                            self.state@ == before.update(target as int, PackageState::Building),
                            edges == self.dependencies@[target as int]@,
                            forall|jj: int|
                                0 <= jj < edges.len() ==> (before[(#[trigger] edges[jj]).0 as int] is Built),
                            forall|jj: int|
                                0 <= jj < edges.len() ==> (#[trigger] edges[jj]).0 < before.len(),
                            j <= edges.len(),
                            runtime@ == closure_of(edges.take(j as int), before, LinkTime::Runtime),
                            buildtime@ == closure_of(edges.take(j as int), before, LinkTime::Buildtime),
                        decreases edges.len() - j,
                    {
                        let (child, time) = self.dependencies[target][j];
                        proof {
                            assert(edges.take(j as int + 1).drop_last() =~= edges.take(j as int));
                            assert(edges.take(j as int + 1).last() == edges[j as int]);
                            assert(before[child as int] is Built);
                            if child == target {
                                assert(before[target as int] is Unbuilt);
                            }
                        }
                        match &self.state[child] {
                            PackageState::Built { runtime: dep_runtime, .. } => {
                                let ghost start_runtime = runtime@;
                                let ghost start_buildtime = buildtime@;
                                let mut k: usize = 0;
                                while k < dep_runtime.len()
                                    invariant
                                        k <= dep_runtime@.len(),
                                        time == LinkTime::Runtime ==> runtime@ == start_runtime
                                            + dep_runtime@.take(k as int) && buildtime@
                                            == start_buildtime,
                                        time == LinkTime::Buildtime ==> buildtime@
                                            == start_buildtime + dep_runtime@.take(k as int)
                                            && runtime@ == start_runtime,
                                    decreases dep_runtime@.len() - k,
                                {
                                    proof {
                                        assert(dep_runtime@.take(k as int + 1) =~= dep_runtime@.take(
                                            k as int,
                                        ).push(dep_runtime@[k as int]));
                                    }
                                    match time {
                                        LinkTime::Runtime => runtime.push(dep_runtime[k]),
                                        LinkTime::Buildtime => buildtime.push(dep_runtime[k]),
                                    }
                                    k = k + 1;
                                }
                                proof {
                                    assert(dep_runtime@.take(k as int) =~= dep_runtime@);
                                }
                                match time {
                                    LinkTime::Runtime => runtime.push(child),
                                    LinkTime::Buildtime => buildtime.push(child),
                                }
                            },
                            _ => {
                                proof {
                                    assert(false);
                                }
                            },
                        }
                        proof {
                            assert(runtime@ =~= closure_of(
                                edges.take(j as int + 1),
                                before,
                                LinkTime::Runtime,
                            ));
                            assert(buildtime@ =~= closure_of(
                                edges.take(j as int + 1),
                                before,
                                LinkTime::Buildtime,
                            ));
                        }
                        j = j + 1;
                    }
                    proof {
                        assert(edges.take(j as int) =~= edges);
                    }
                    result = Some(BuildInfo { node: target, package, runtime, buildtime });
                }
            },
            other => {
                self.state.set(target, other);
                proof {
                    assert(self.state@ =~= before);
                }
            },
        }
        proof {
            let new_self = *self;
            assert forall|x: int| 0 <= x < new_self.size() implies unbuilt_deps(
                #[trigger] new_self.deps()[x]@,
                new_self.states(),
            ) == unbuilt_deps(old_self.deps()[x]@, old_self.states()) by {
                let edges = new_self.deps()[x]@;
                assert forall|i: int| 0 <= i < edges.len() implies leads_to_unbuilt(
                    new_self.states(),
                )(#[trigger] edges[i]) == leads_to_unbuilt(old_self.states())(edges[i]) by {
                    assert(edges[i].0 < new_self.size());
                }
                lemma_filter_ext(edges, leads_to_unbuilt(new_self.states()), leads_to_unbuilt(old_self.states()));
            }
        }
        result
    }
}

proof fn lemma_closure_ext<P>(
    edges: Seq<(usize, LinkTime)>,
    s1: Seq<PackageState<P>>,
    s2: Seq<PackageState<P>>,
    time: LinkTime,
)
    requires
        forall|j: int| 0 <= j < edges.len() ==> s1[(#[trigger] edges[j]).0 as int] == s2[edges[j].0 as int],
    ensures
        closure_of(edges, s1, time) == closure_of(edges, s2, time),
    decreases edges.len(),
{
    if edges.len() > 0 {
        let t = edges.drop_last();
        assert forall|j: int| 0 <= j < t.len() implies s1[(#[trigger] t[j]).0 as int] == s2[t[j].0 as int] by {
            assert(t[j] == edges[j]);
        }
        lemma_closure_ext(t, s1, s2, time);
        assert(edges.last() == edges[edges.len() - 1]);
    }
}

impl<P> Scheduler<P> {
    /// Records the end of the build of `info`. A failed package goes back to
    /// unbuilt, waiting for nothing, and is not handed out again. A built
    /// package keeps its run-time closure, each package with an edge to it
    /// waits for one edge less per such edge, and those in the subset that
    /// wait for nothing more are handed out.
    pub fn finish(&mut self, info: BuildInfo<P>, success: bool) -> (ready: Vec<BuildInfo<P>>)
        requires
            old(self).wf(),
            info.node < old(self).size(),
            old(self).states()[info.node as int] is Building,
        ensures
            final(self).wf(),
            final(self).deps() == old(self).deps(),
            final(self).parents() == old(self).parents(),
            final(self).subset() == old(self).subset(),
            final(self).size() == old(self).size(),
            !success ==> {
                &&& ready@.len() == 0
                &&& final(self).states() == old(self).states().update(
                    info.node as int,
                    PackageState::Unbuilt { package: info.package, remaining: 0 },
                )
            },
            success ==> final(self).states()[info.node as int] == (PackageState::Built {
                package: info.package,
                runtime: info.runtime,
            }),
            success ==> forall|k: int|
                0 <= k < ready@.len() ==> {
                    let r = #[trigger] ready@[k];
                    &&& r.node < old(self).size()
                    &&& old(self).parents()[info.node as int]@.contains(r.node)
                    &&& old(self).subset()[r.node as int]
                    &&& old(self).states()[r.node as int] matches PackageState::Unbuilt {
                        package,
                        ..
                    } && r.package == package
                    &&& final(self).states()[r.node as int] is Building
                    &&& r.runtime@ == closure_of(
                        old(self).deps()[r.node as int]@,
                        final(self).states(),
                        LinkTime::Runtime,
                    )
                    &&& r.buildtime@ == closure_of(
                        old(self).deps()[r.node as int]@,
                        final(self).states(),
                        LinkTime::Buildtime,
                    )
                },
            success ==> forall|k1: int, k2: int|
                0 <= k1 < ready@.len() && 0 <= k2 < ready@.len() && k1 != k2 ==> (
                #[trigger] ready@[k1]).node != (#[trigger] ready@[k2]).node,
            success ==> forall|x: int|
                0 <= x < old(self).size() && x != info.node && !(exists|k: int|
                    0 <= k < ready@.len() && (#[trigger] ready@[k]).node == x) ==> {
                    ||| final(self).states()[x] == old(self).states()[x]
                    ||| (old(self).states()[x] matches PackageState::Unbuilt { package, .. }
                        && final(self).states()[x] matches PackageState::Unbuilt {
                        package: p2,
                        ..
                    } && package == p2)
                },
            success ==> forall|x: int|
                0 <= x < old(self).size() && old(self).parents()[info.node as int]@.contains(
                    x as usize,
                ) && old(self).subset()[x] && #[trigger] final(self).states()[x] is Unbuilt
                    ==> final(self).states()[x]->remaining > 0,
    {
        let ghost old_self = *self;
        let n = self.state.len();
        let node = info.node;
        if !success {
            self.state.set(node, PackageState::Unbuilt { package: info.package, remaining: 0 });
            proof {
                let new_self = *self;
                assert forall|x: int| 0 <= x < new_self.size() implies unbuilt_deps(
                    #[trigger] new_self.deps()[x]@,
                    new_self.states(),
                ) == unbuilt_deps(old_self.deps()[x]@, old_self.states()) by {
                    let edges = new_self.deps()[x]@;
                    assert forall|i: int| 0 <= i < edges.len() implies leads_to_unbuilt(
                        new_self.states(),
                    )(#[trigger] edges[i]) == leads_to_unbuilt(old_self.states())(edges[i]) by {
                        assert(edges[i].0 < new_self.size());
                    }
                    lemma_filter_ext(
                        edges,
                        leads_to_unbuilt(new_self.states()),
                        leads_to_unbuilt(old_self.states()),
                    );
                }
                assert(new_self.wf());
            }
            return Vec::new();
        }
        let BuildInfo { node, package, runtime, buildtime: _ } = info;
        self.state.set(node, PackageState::Built { package, runtime });
        let ghost mid = self.state@;
        let ghost parents = self.dependents@[node as int]@;
        proof {
            // one unbuilt edge less per edge to `node`
            assert forall|x: int| 0 <= x < old_self.size() implies unbuilt_deps(
                #[trigger] old_self.deps()[x]@,
                old_self.states(),
            ) == unbuilt_deps(old_self.deps()[x]@, mid) + edge_count(old_self.deps()[x]@, node) by {
                let edges = old_self.deps()[x]@;
                assert forall|i: int| 0 <= i < edges.len() implies (leads_to_unbuilt(old_self.states())(
                    #[trigger] edges[i],
                ) <==> (leads_to_unbuilt(mid)(edges[i]) || edges[i].0 == node)) by {
                    assert(edges[i].0 < old_self.size());
                }
                lemma_filter_split(
                    edges,
                    leads_to_unbuilt(old_self.states()),
                    leads_to_unbuilt(mid),
                    edge_to(node),
                );
            }
            // every package with an edge to `node` is unbuilt
            assert forall|x: int| 0 <= x < old_self.size() && occurrences(parents, x as usize) > 0 implies #[trigger] old_self.states()[x] is Unbuilt by {
                assert(edge_count(old_self.deps()[x]@, node) == occurrences(old_self.parents()[node as int]@, x as usize));
                if !(old_self.states()[x] is Unbuilt) {
                    assert(unbuilt_deps(old_self.deps()[x]@, old_self.states()) == 0);
                }
            }
        }
        let mut ready: Vec<BuildInfo<P>> = Vec::new();
        let mut j: usize = 0;
        proof {
            assert(parents.take(0) =~= Seq::<usize>::empty());
            assert forall|x: usize| occurrences(Seq::<usize>::empty(), x) == 0 by {
                reveal(Seq::filter);
            }
        }
        while j < self.dependents[node].len()
            invariant
                node < old_self.size(),
                n == old_self.size(),
                self.deps() == old_self.deps(),
                self.parents() == old_self.parents(),
                self.subset() == old_self.subset(),
                parents == old_self.parents()[node as int]@,
                mid.len() == old_self.size(),
                mid == old_self.states().update(node as int, mid[node as int]),
                mid[node as int] is Built,
                self.states().len() == old_self.size(),
                self.states()[node as int] == mid[node as int],
                self.frame_wf(),
                j <= parents.len(),
                forall|x: int|
                    0 <= x < old_self.size() ==> unbuilt_deps(
                        #[trigger] old_self.deps()[x]@,
                        old_self.states(),
                    ) == unbuilt_deps(old_self.deps()[x]@, mid) + edge_count(
                        old_self.deps()[x]@,
                        node,
                    ),
                forall|x: int|
                    0 <= x < old_self.size() ==> (#[trigger] self.states()[x] is Built) == (
                    mid[x] is Built),
                forall|x: int|
                    0 <= x < old_self.size() && #[trigger] self.states()[x] is Built ==> self.states()[x]
                        == mid[x],
                forall|x: usize|
                    x < old_self.size() && occurrences(parents, x) > occurrences(
                        parents.take(j as int),
                        x,
                    ) ==> #[trigger] self.states()[x as int] is Unbuilt,
                forall|x: usize|
                    x < old_self.size() && #[trigger] self.states()[x as int] is Unbuilt
                        ==> self.states()[x as int]->remaining + occurrences(parents.take(j as int), x)
                        == unbuilt_deps(old_self.deps()[x as int]@, mid) + occurrences(parents, x),
                forall|x: usize|
                    x < old_self.size() ==> occurrences(parents.take(j as int), x) <= #[trigger] occurrences(parents, x),
                forall|x: int|
                    0 <= x < old_self.size() && x != node && !(exists|k: int|
                        0 <= k < ready@.len() && (#[trigger] ready@[k]).node == x) ==> {
                        ||| self.states()[x] == old_self.states()[x]
                        ||| (old_self.states()[x] matches PackageState::Unbuilt { package, .. }
                            && self.states()[x] matches PackageState::Unbuilt {
                            package: p2,
                            ..
                        } && package == p2)
                    },
                forall|x: usize|
                    x < old_self.size() && parents.take(j as int).contains(x)
                        && occurrences(parents, x) == occurrences(parents.take(j as int), x)
                        && old_self.subset()[x as int] && #[trigger] self.states()[x as int] is Unbuilt
                        ==> self.states()[x as int]->remaining > 0,
                forall|k: int|
                    0 <= k < ready@.len() ==> {
                        let r = #[trigger] ready@[k];
                        &&& r.node < old_self.size()
                        &&& r.node != node
                        &&& parents.take(j as int).contains(r.node)
                        &&& old_self.subset()[r.node as int]
                        &&& old_self.states()[r.node as int] matches PackageState::Unbuilt {
                            package,
                            ..
                        } && r.package == package
                        &&& self.states()[r.node as int] is Building
                        &&& unbuilt_deps(old_self.deps()[r.node as int]@, mid) == 0
                        &&& r.runtime@ == closure_of(
                            old_self.deps()[r.node as int]@,
                            mid,
                            LinkTime::Runtime,
                        )
                        &&& r.buildtime@ == closure_of(
                            old_self.deps()[r.node as int]@,
                            mid,
                            LinkTime::Buildtime,
                        )
                    },
                forall|k1: int, k2: int|
                    0 <= k1 < ready@.len() && 0 <= k2 < ready@.len() && k1 != k2 ==> (
                    #[trigger] ready@[k1]).node != (#[trigger] ready@[k2]).node,
            decreases parents.len() - j,
        {
            let parent = self.dependents[node][j];
            let ghost s0 = *self;
            let ghost ready_before = ready@;
            let ghost prefix = parents.take(j as int);
            let ghost next = parents.take(j as int + 1);
            proof {
                assert(next =~= prefix.push(parent));
                assert(parents[j as int] == parent);
                assert(parent < old_self.size());
                assert forall|y: usize| #[trigger] occurrences(next, y) == occurrences(prefix, y) + (if y == parent { 1int } else { 0int }) by {
                    prefix.lemma_filter_push(parent, is_node(y));
                }
                lemma_occurrences_prefix(parents, parent, j as int);
                assert(occurrences(prefix, parent) < occurrences(parents, parent));
                assert forall|y: usize| y < old_self.size() implies occurrences(next, y) <= #[trigger] occurrences(parents, y) by {
                    if y == parent {
                        lemma_occurrences_prefix(parents, parent, j as int);
                    }
                }
                assert(s0.states()[parent as int] is Unbuilt);
            }
            let mut taken: PackageState<P> = PackageState::Building;
            std::mem::swap(&mut taken, &mut self.state[parent]);
            match taken {
                PackageState::Unbuilt { package, remaining } => {
                    proof {
                        assert(remaining + occurrences(prefix, parent) == unbuilt_deps(
                            old_self.deps()[parent as int]@,
                            mid,
                        ) + occurrences(parents, parent));
                    }
                    self.state.set(parent, PackageState::Unbuilt { package, remaining: remaining - 1 });
                },
                other => {
                    proof {
                        assert(false);
                    }
                    self.state.set(parent, other);
                },
            }
            let ghost s1 = *self;
            proof {
                assert(s1.states() =~= s0.states().update(parent as int, s1.states()[parent as int]));
                assert forall|x: int| 0 <= x < old_self.size() implies (#[trigger] s1.states()[x] is Built) == (
                    s0.states()[x] is Built) by {}
                lemma_same_built(old_self.deps(), s1.states(), s0.states());
                lemma_same_built(old_self.deps(), s1.states(), mid);
                assert forall|x: int|
                    0 <= x < s1.size() && #[trigger] s1.states()[x] is Unbuilt implies s1.states()[x]->remaining
                        >= unbuilt_deps(s1.deps()[x]@, s1.states()) by {
                    if x == parent as int {
                        assert(s1.states()[x]->remaining + 1 + occurrences(prefix, parent) == unbuilt_deps(
                            old_self.deps()[parent as int]@,
                            mid,
                        ) + occurrences(parents, parent));
                    } else {
                        assert(s1.states()[x] == s0.states()[x]);
                    }
                }
                assert forall|x: int|
                    0 <= x < s1.size() && !(#[trigger] s1.states()[x] is Unbuilt) implies unbuilt_deps(
                        s1.deps()[x]@,
                        s1.states(),
                    ) == 0 by {
                    assert(s1.states()[x] == s0.states()[x]);
                }
                assert(s1.frame_wf());
            }
            if self.subset[parent] {
                let prepared = self.prepare_info(parent);
                match prepared {
                    Some(built) => {
                        proof {
                            let edges = old_self.deps()[parent as int]@;
                            assert(unbuilt_deps(edges, s1.states()) == 0);
                            assert forall|i: int| 0 <= i < edges.len() implies s1.states()[(#[trigger] edges[i]).0 as int]
                                == mid[edges[i].0 as int] by {
                                if !(s1.states()[edges[i].0 as int] is Built) {
                                    edges.lemma_filter_contains(leads_to_unbuilt(s1.states()), i);
                                }
                            }
                            lemma_closure_ext(edges, s1.states(), mid, LinkTime::Runtime);
                            lemma_closure_ext(edges, s1.states(), mid, LinkTime::Buildtime);
                            assert(unbuilt_deps(edges, mid) == 0);
                        }
                        ready.push(built);
                    },
                    None => {},
                }
            }
            proof {
                let s2 = *self;
                assert(ready_before.len() <= ready@.len());
                assert forall|k: int| 0 <= k < ready_before.len() implies #[trigger] ready@[k] == ready_before[k] by {}
                assert forall|x: int|
                    0 <= x < old_self.size() && x != node && !(exists|k: int|
                        0 <= k < ready@.len() && (#[trigger] ready@[k]).node == x) implies {
                        ||| s2.states()[x] == old_self.states()[x]
                        ||| (old_self.states()[x] matches PackageState::Unbuilt { package, .. }
                            && s2.states()[x] matches PackageState::Unbuilt {
                            package: p2,
                            ..
                        } && package == p2)
                    } by {
                    assert(!(exists|k: int| 0 <= k < ready_before.len() && (#[trigger] ready_before[k]).node == x)) by {
                        if exists|k: int| 0 <= k < ready_before.len() && (#[trigger] ready_before[k]).node == x {
                            let k = choose|k: int| 0 <= k < ready_before.len() && (#[trigger] ready_before[k]).node == x;
                            assert(ready@[k] == ready_before[k]);
                        }
                    }
                    if x == parent as int {
                        if ready@.len() > ready_before.len() {
                            assert(ready@[ready@.len() - 1].node == parent);
                        }
                        assert(s2.states()[x] == s1.states()[x]);
                    } else {
                        assert(s2.states()[x] == s0.states()[x]);
                    }
                }
                lemma_same_built(old_self.deps(), s2.states(), s1.states());
                assert forall|x: int| 0 <= x < old_self.size() implies (#[trigger] s2.states()[x] is Built) == (
                    mid[x] is Built) by {}
            }
            j = j + 1;
        }
        proof {
            assert(parents.take(j as int) =~= parents);
            let fin = *self;
            lemma_same_built(old_self.deps(), fin.states(), mid);
            assert forall|x: int| 0 <= x < fin.size() && #[trigger] fin.states()[x] is Unbuilt implies fin.states()[x]->remaining
                == unbuilt_deps(fin.deps()[x]@, fin.states()) by {
                assert(fin.states()[(x as usize) as int] is Unbuilt);
            }
            assert forall|k: int| 0 <= k < ready@.len() implies {
                let r = #[trigger] ready@[k];
                &&& r.runtime@ == closure_of(old_self.deps()[r.node as int]@, fin.states(), LinkTime::Runtime)
                &&& r.buildtime@ == closure_of(old_self.deps()[r.node as int]@, fin.states(), LinkTime::Buildtime)
            } by {
                let r = ready@[k];
                let edges = old_self.deps()[r.node as int]@;
                assert forall|i: int| 0 <= i < edges.len() implies fin.states()[(#[trigger] edges[i]).0 as int]
                    == mid[edges[i].0 as int] by {
                    if !(mid[edges[i].0 as int] is Built) {
                        edges.lemma_filter_contains(leads_to_unbuilt(mid), i);
                    }
                }
                lemma_closure_ext(edges, fin.states(), mid, LinkTime::Runtime);
                lemma_closure_ext(edges, fin.states(), mid, LinkTime::Buildtime);
            }
        }
        ready
    }
}

/// `set` holds every target and every dependency of each of its packages.
pub open spec fn closed_over(
    deps: Seq<Vec<(usize, LinkTime)>>,
    targets: Seq<usize>,
    set: Set<usize>,
) -> bool {
    &&& forall|i: int| 0 <= i < targets.len() ==> set.contains(#[trigger] targets[i])
    &&& forall|x: usize, j: int|
        set.contains(x) && x < deps.len() && 0 <= j < deps[x as int]@.len() ==> set.contains(
            (#[trigger] deps[x as int]@[j]).0,
        )
}

/// The predicate "is not set".
pub open spec fn unset() -> spec_fn(bool) -> bool {
    |b: bool| !b
}

proof fn lemma_unset_count(s: Seq<bool>, i: int)
    requires
        0 <= i < s.len(),
        !s[i],
    ensures
        s.update(i, true).filter(unset()).len() + 1 == s.filter(unset()).len(),
    decreases s.len(),
{
    reveal(Seq::filter);
    let t = s.drop_last();
    let u = s.update(i, true);
    if i == s.len() - 1 {
        assert(u.drop_last() =~= t);
        assert(s.last() == s[i]);
    } else {
        lemma_unset_count(t, i);
        assert(u.drop_last() =~= t.update(i, true));
        assert(u.last() == s.last());
    }
}

/// The dependencies of `edges` not yet discovered, in order.
pub open spec fn undiscovered_children(edges: Seq<(usize, LinkTime)>, discovered: Seq<bool>) -> Seq<usize>
    decreases edges.len(),
{
    if edges.len() == 0 {
        Seq::empty()
    } else {
        let rest = undiscovered_children(edges.drop_last(), discovered);
        if discovered[edges.last().0 as int] {
            rest
        } else {
            rest.push(edges.last().0)
        }
    }
}

proof fn lemma_undiscovered_children_contains(edges: Seq<(usize, LinkTime)>, discovered: Seq<bool>, j: int)
    requires
        0 <= j < edges.len(),
        !discovered[edges[j].0 as int],
    ensures
        undiscovered_children(edges, discovered).contains(edges[j].0),
    decreases edges.len(),
{
    let t = edges.drop_last();
    if j == edges.len() - 1 {
        let u = undiscovered_children(edges, discovered);
        assert(u[u.len() - 1] == edges[j].0);
    } else {
        assert(t[j] == edges[j]);
        lemma_undiscovered_children_contains(t, discovered, j);
        let u = undiscovered_children(t, discovered);
        let i = choose|i: int| 0 <= i < u.len() && u[i] == edges[j].0;
        let v = undiscovered_children(edges, discovered);
        assert(v[i] == edges[j].0);
    }
}

proof fn lemma_undiscovered_children_from(edges: Seq<(usize, LinkTime)>, discovered: Seq<bool>, i: int)
    requires
        0 <= i < undiscovered_children(edges, discovered).len(),
    ensures
        exists|j: int| 0 <= j < edges.len() && edges[j].0 == undiscovered_children(edges, discovered)[i],
    decreases edges.len(),
{
    let t = edges.drop_last();
    let u = undiscovered_children(t, discovered);
    if i < u.len() {
        lemma_undiscovered_children_from(t, discovered, i);
        let j = choose|j: int| 0 <= j < t.len() && t[j].0 == u[i];
        assert(edges[j] == t[j]);
    } else {
        assert(edges[edges.len() - 1].0 == undiscovered_children(edges, discovered)[i]);
    }
}

/// Pushes the dependencies of `edges` not yet discovered, in order.
fn push_children(edges: &Vec<(usize, LinkTime)>, discovered: &Vec<bool>, stack: &mut Vec<usize>)
    requires
        forall|j: int| 0 <= j < edges@.len() ==> (#[trigger] edges@[j]).0 < discovered@.len(),
    ensures
        final(stack)@ == old(stack)@ + undiscovered_children(edges@, discovered@),
{
    let ghost start = stack@;
    let mut j: usize = 0;
    while j < edges.len()
        invariant
            j <= edges@.len(),
            forall|jj: int| 0 <= jj < edges@.len() ==> (#[trigger] edges@[jj]).0 < discovered@.len(),
            stack@ == start + undiscovered_children(edges@.take(j as int), discovered@),
        decreases edges@.len() - j,
    {
        proof {
            assert(edges@.take(j as int + 1).drop_last() =~= edges@.take(j as int));
            assert(edges@.take(j as int + 1).last() == edges@[j as int]);
        }
        let child = edges[j].0;
        if !discovered[child] {
            stack.push(child);
        }
        proof {
            assert(stack@ =~= start + undiscovered_children(edges@.take(j as int + 1), discovered@));
        }
        j = j + 1;
    }
    proof {
        assert(edges@.take(j as int) =~= edges@);
    }
}

impl<P> Scheduler<P> {
    /// Marks the packages reachable from `targets` through dependency edges
    /// as the subset being built, and hands out those that wait for nothing,
    /// in depth-first order.
    pub fn start(&mut self, targets: &Vec<usize>) -> (ready: Vec<BuildInfo<P>>)
        requires
            old(self).wf(),
            forall|i: int| 0 <= i < targets@.len() ==> #[trigger] targets@[i] < old(self).size(),
        ensures
            final(self).wf(),
            final(self).deps() == old(self).deps(),
            final(self).parents() == old(self).parents(),
            final(self).size() == old(self).size(),
            closed_over(
                final(self).deps(),
                targets@,
                Set::new(|x: usize| x < final(self).size() && final(self).subset()[x as int]),
            ),
            forall|set: Set<usize>|
                closed_over(final(self).deps(), targets@, set) ==> forall|x: usize|
                    x < final(self).size() && #[trigger] final(self).subset()[x as int] ==> set.contains(x),
            forall|k: int|
                0 <= k < ready@.len() ==> {
                    let r = #[trigger] ready@[k];
                    &&& r.node < old(self).size()
                    &&& final(self).subset()[r.node as int]
                    &&& old(self).states()[r.node as int] matches PackageState::Unbuilt {
                        package,
                        remaining,
                    } && remaining == 0 && r.package == package
                    &&& final(self).states()[r.node as int] is Building
                    &&& r.runtime@ == closure_of(
                        old(self).deps()[r.node as int]@,
                        final(self).states(),
                        LinkTime::Runtime,
                    )
                    &&& r.buildtime@ == closure_of(
                        old(self).deps()[r.node as int]@,
                        final(self).states(),
                        LinkTime::Buildtime,
                    )
                },
            forall|k1: int, k2: int|
                0 <= k1 < ready@.len() && 0 <= k2 < ready@.len() && k1 != k2 ==> (
                #[trigger] ready@[k1]).node != (#[trigger] ready@[k2]).node,
            forall|x: int|
                0 <= x < old(self).size() && !(exists|k: int|
                    0 <= k < ready@.len() && (#[trigger] ready@[k]).node == x)
                    ==> #[trigger] final(self).states()[x] == old(self).states()[x],
            forall|x: int|
                0 <= x < old(self).size() && final(self).subset()[x] && (old(self).states()[x] matches PackageState::Unbuilt { remaining, .. } && remaining == 0)
                    ==> #[trigger] final(self).states()[x] is Building,
    {
        let ghost old_self = *self;
        let n = self.state.len();
        let mut discovered: Vec<bool> = Vec::new();
        let mut x: usize = 0;
        while x < n
            invariant
                x <= n,
                discovered@.len() == x,
                forall|y: int| 0 <= y < x ==> !(#[trigger] discovered@[y]),
            decreases n - x,
        {
            discovered.push(false);
            x = x + 1;
        }
        let mut ready: Vec<BuildInfo<P>> = Vec::new();
        let mut t: usize = 0;
        while t < targets.len()
            invariant
                n == old_self.size(),
                self.deps() == old_self.deps(),
                self.parents() == old_self.parents(),
                self.subset() == old_self.subset(),
                self.size() == n,
                self.wf(),
                discovered@.len() == n,
                t <= targets@.len(),
                forall|i: int| 0 <= i < targets@.len() ==> #[trigger] targets@[i] < n,
                forall|i: int| 0 <= i < t ==> discovered@[#[trigger] targets@[i] as int],
                forall|y: usize, j: int|
                    y < n && discovered@[y as int] && 0 <= j < self.deps()[y as int]@.len()
                        ==> discovered@[(#[trigger] self.deps()[y as int]@[j]).0 as int],
                forall|set: Set<usize>|
                    closed_over(self.deps(), targets@, set) ==> forall|y: usize|
                        y < n && #[trigger] discovered@[y as int] ==> set.contains(y),
                forall|y: int|
                    0 <= y < n && discovered@[y] && (old_self.states()[y] matches PackageState::Unbuilt {
                        remaining,
                        ..
                    } && remaining == 0) ==> #[trigger] self.states()[y] is Building,
                forall|y: int|
                    0 <= y < n ==> (#[trigger] self.states()[y] is Built) == (old_self.states()[y] is Built),
                forall|k: int|
                    0 <= k < ready@.len() ==> {
                        let r = #[trigger] ready@[k];
                        &&& r.node < n
                        &&& discovered@[r.node as int]
                        &&& old_self.states()[r.node as int] matches PackageState::Unbuilt {
                            package,
                            remaining,
                        } && remaining == 0 && r.package == package
                        &&& self.states()[r.node as int] is Building
                        &&& r.runtime@ == closure_of(
                            old_self.deps()[r.node as int]@,
                            old_self.states(),
                            LinkTime::Runtime,
                        )
                        &&& r.buildtime@ == closure_of(
                            old_self.deps()[r.node as int]@,
                            old_self.states(),
                            LinkTime::Buildtime,
                        )
                    },
                forall|k1: int, k2: int|
                    0 <= k1 < ready@.len() && 0 <= k2 < ready@.len() && k1 != k2 ==> (
                    #[trigger] ready@[k1]).node != (#[trigger] ready@[k2]).node,
                forall|y: int|
                    0 <= y < n && !(exists|k: int|
                        0 <= k < ready@.len() && (#[trigger] ready@[k]).node == y) ==> #[trigger] self.states()[y]
                        == old_self.states()[y],
            decreases targets@.len() - t,
        {
            let mut stack: Vec<usize> = Vec::new();
            stack.push(targets[t]);
            let ghost mut undiscovered: nat = discovered@.filter(unset()).len();
            while stack.len() > 0
                invariant
                    n == old_self.size(),
                    self.deps() == old_self.deps(),
                    self.parents() == old_self.parents(),
                    self.subset() == old_self.subset(),
                    self.size() == n,
                    self.wf(),
                    discovered@.len() == n,
                    t < targets@.len(),
                    undiscovered == discovered@.filter(unset()).len(),
                    forall|i: int| 0 <= i < targets@.len() ==> #[trigger] targets@[i] < n,
                    forall|i: int| 0 <= i < stack@.len() ==> #[trigger] stack@[i] < n,
                    forall|i: int| 0 <= i < t ==> discovered@[#[trigger] targets@[i] as int],
                    discovered@[targets@[t as int] as int] || stack@.contains(targets@[t as int]),
                    forall|y: usize, j: int|
                        y < n && discovered@[y as int] && 0 <= j < self.deps()[y as int]@.len()
                            ==> discovered@[(#[trigger] self.deps()[y as int]@[j]).0 as int]
                            || stack@.contains(self.deps()[y as int]@[j].0),
                    forall|set: Set<usize>|
                        closed_over(self.deps(), targets@, set) ==> (forall|y: usize|
                            y < n && #[trigger] discovered@[y as int] ==> set.contains(y)) && (
                        forall|i: int| 0 <= i < stack@.len() ==> set.contains(#[trigger] stack@[i])),
                    forall|y: int|
                        0 <= y < n && discovered@[y] && (old_self.states()[y] matches PackageState::Unbuilt {
                            remaining,
                            ..
                        } && remaining == 0) ==> #[trigger] self.states()[y] is Building,
                    forall|y: int|
                        0 <= y < n ==> (#[trigger] self.states()[y] is Built) == (
                        old_self.states()[y] is Built),
                    forall|k: int|
                        0 <= k < ready@.len() ==> {
                            let r = #[trigger] ready@[k];
                            &&& r.node < n
                            &&& discovered@[r.node as int]
                            &&& old_self.states()[r.node as int] matches PackageState::Unbuilt {
                                package,
                                remaining,
                            } && remaining == 0 && r.package == package
                            &&& self.states()[r.node as int] is Building
                            &&& r.runtime@ == closure_of(
                                old_self.deps()[r.node as int]@,
                                old_self.states(),
                                LinkTime::Runtime,
                            )
                            &&& r.buildtime@ == closure_of(
                                old_self.deps()[r.node as int]@,
                                old_self.states(),
                                LinkTime::Buildtime,
                            )
                        },
                    forall|k1: int, k2: int|
                        0 <= k1 < ready@.len() && 0 <= k2 < ready@.len() && k1 != k2 ==> (
                        #[trigger] ready@[k1]).node != (#[trigger] ready@[k2]).node,
                    forall|y: int|
                        0 <= y < n && !(exists|k: int|
                            0 <= k < ready@.len() && (#[trigger] ready@[k]).node == y)
                            ==> #[trigger] self.states()[y] == old_self.states()[y],
                decreases undiscovered, stack@.len(),
            {
                let ghost stack_before = stack@;
                let node = stack.pop().unwrap();
                proof {
                    assert(stack_before =~= stack@.push(node));
                    assert forall|v: usize| stack_before.contains(v) && v != node implies stack@.contains(v) by {
                        let i = choose|i: int| 0 <= i < stack_before.len() && stack_before[i] == v;
                        assert(i < stack@.len());
                        assert(stack@[i] == v);
                    }
                }
                if !discovered[node] {
                    proof {
                        lemma_unset_count(discovered@, node as int);
                        undiscovered = (undiscovered - 1) as nat;
                    }
                    let ghost disc_before = discovered@;
                    discovered.set(node, true);
                    let ghost stack_mid = stack@;
                    push_children(&self.dependencies[node], &discovered, &mut stack);
                    let ghost s0 = *self;
                    let ghost ready_before = ready@;
                    let prepared = self.prepare_info(node);
                    match prepared {
                        Some(info) => {
                            proof {
                                let edges = old_self.deps()[node as int]@;
                                assert forall|i: int| 0 <= i < edges.len() implies s0.states()[(#[trigger] edges[i]).0 as int]
                                    == old_self.states()[edges[i].0 as int] by {
                                    assert(unbuilt_deps(edges, s0.states()) == 0);
                                    if !(s0.states()[edges[i].0 as int] is Built) {
                                        edges.lemma_filter_contains(leads_to_unbuilt(s0.states()), i);
                                    }
                                    let c = edges[i].0 as int;
                                    if !(exists|k: int| 0 <= k < ready_before.len() && (#[trigger] ready_before[k]).node == c) {
                                    } else {
                                        let k = choose|k: int| 0 <= k < ready_before.len() && (#[trigger] ready_before[k]).node == c;
                                        assert(s0.states()[c] is Building);
                                    }
                                }
                                lemma_closure_ext(edges, s0.states(), old_self.states(), LinkTime::Runtime);
                                lemma_closure_ext(edges, s0.states(), old_self.states(), LinkTime::Buildtime);
                                assert forall|k: int| 0 <= k < ready_before.len() implies (#[trigger] ready_before[k]).node != node by {
                                    assert(!disc_before[node as int]);
                                }
                                if !(s0.states()[node as int] == old_self.states()[node as int]) {
                                    let k = choose|k: int| 0 <= k < ready_before.len() && (#[trigger] ready_before[k]).node == node;
                                }
                            }
                            ready.push(info);
                        },
                        None => {},
                    }
                    proof {
                        let s2 = *self;
                        assert forall|k: int| 0 <= k < ready_before.len() implies #[trigger] ready@[k] == ready_before[k] by {}
                        assert forall|y: int|
                            0 <= y < n && !(exists|k: int| 0 <= k < ready@.len() && (#[trigger] ready@[k]).node == y)
                            implies #[trigger] s2.states()[y] == old_self.states()[y] by {
                            assert(!(exists|k: int| 0 <= k < ready_before.len() && (#[trigger] ready_before[k]).node == y)) by {
                                if exists|k: int| 0 <= k < ready_before.len() && (#[trigger] ready_before[k]).node == y {
                                    let k = choose|k: int| 0 <= k < ready_before.len() && (#[trigger] ready_before[k]).node == y;
                                    assert(ready@[k] == ready_before[k]);
                                }
                            }
                            if y == node as int {
                                if ready@.len() > ready_before.len() {
                                    assert(ready@[ready@.len() - 1].node == node);
                                }
                            }
                        }
                        assert forall|y: int|
                            0 <= y < n && discovered@[y] && (old_self.states()[y] matches PackageState::Unbuilt {
                                remaining,
                                ..
                            } && remaining == 0) implies #[trigger] s2.states()[y] is Building by {
                            if y == node as int {
                                if !(exists|k: int| 0 <= k < ready_before.len() && (#[trigger] ready_before[k]).node == y) {
                                    assert(s0.states()[y] == old_self.states()[y]);
                                } else {
                                    let k = choose|k: int| 0 <= k < ready_before.len() && (#[trigger] ready_before[k]).node == y;
                                    assert(!disc_before[node as int]);
                                }
                            } else {
                                assert(disc_before[y]);
                            }
                        }
                        assert forall|y: usize, j: int|
                            y < n && discovered@[y as int] && 0 <= j < s2.deps()[y as int]@.len()
                                implies discovered@[(#[trigger] s2.deps()[y as int]@[j]).0 as int]
                                || stack@.contains(s2.deps()[y as int]@[j].0) by {
                            let c = s2.deps()[y as int]@[j].0;
                            if y == node {
                                if !discovered@[c as int] {
                                    assert(undiscovered_children(old_self.deps()[node as int]@, discovered@).contains(c)) by {
                                        lemma_undiscovered_children_contains(old_self.deps()[node as int]@, discovered@, j);
                                    }
                                    let i = choose|i: int| 0 <= i < undiscovered_children(old_self.deps()[node as int]@, discovered@).len()
                                        && undiscovered_children(old_self.deps()[node as int]@, discovered@)[i] == c;
                                    assert(stack@[stack_mid.len() + i] == c);
                                }
                            } else {
                                assert(disc_before[y as int]);
                                if stack_before.contains(c) && c != node {
                                    let i = choose|i: int| 0 <= i < stack_mid.len() && stack_mid[i] == c;
                                    assert(stack@[i] == c);
                                }
                            }
                        }
                        assert forall|set: Set<usize>| closed_over(s2.deps(), targets@, set) implies (forall|y: usize|
                            y < n && #[trigger] discovered@[y as int] ==> set.contains(y)) && (
                            forall|i: int| 0 <= i < stack@.len() ==> set.contains(#[trigger] stack@[i])) by {
                            assert(set.contains(node)) by {
                                assert(stack_before[stack_before.len() - 1] == node);
                            }
                            assert forall|i: int| 0 <= i < stack@.len() implies set.contains(#[trigger] stack@[i]) by {
                                if i >= stack_mid.len() {
                                    lemma_undiscovered_children_from(old_self.deps()[node as int]@, discovered@, i - stack_mid.len());
                                    let j = choose|j: int| 0 <= j < old_self.deps()[node as int]@.len()
                                        && old_self.deps()[node as int]@[j].0 == stack@[i];
                                    assert(set.contains((s2.deps()[node as int]@[j]).0));
                                } else {
                                    assert(stack@[i] == stack_before[i]);
                                }
                            }
                        }
                        lemma_same_built(old_self.deps(), s2.states(), old_self.states());
                        lemma_same_built(old_self.deps(), s2.states(), s0.states());
                        assert forall|y: int|
                            0 <= y < s2.size() && #[trigger] s2.states()[y] is Unbuilt implies s2.states()[y]->remaining
                                == unbuilt_deps(s2.deps()[y]@, s2.states()) by {
                            assert(s2.states()[y] == s0.states()[y]);
                        }
                        assert forall|i: int| 0 <= i < stack@.len() implies #[trigger] stack@[i] < n by {
                            if i >= stack_mid.len() {
                                lemma_undiscovered_children_from(old_self.deps()[node as int]@, disc_before.update(node as int, true), i - stack_mid.len());
                                assert(discovered@ == disc_before.update(node as int, true));
                            } else {
                                assert(stack@[i] == stack_before[i]);
                            }
                        }
                    }
                } else {
                    proof {
                        assert forall|y: usize, j: int|
                            y < n && discovered@[y as int] && 0 <= j < self.deps()[y as int]@.len()
                                implies discovered@[(#[trigger] self.deps()[y as int]@[j]).0 as int]
                                || stack@.contains(self.deps()[y as int]@[j].0) by {
                            let c = self.deps()[y as int]@[j].0;
                            if stack_before.contains(c) && c != node {
                            }
                        }
                        assert forall|set: Set<usize>| closed_over(self.deps(), targets@, set) implies (
                            forall|i: int| 0 <= i < stack@.len() ==> set.contains(#[trigger] stack@[i])) by {
                            assert forall|i: int| 0 <= i < stack@.len() implies set.contains(#[trigger] stack@[i]) by {
                                assert(stack@[i] == stack_before[i]);
                            }
                        }
                    }
                }
            }
            t = t + 1;
        }
        self.subset = discovered;
        proof {
            let fin = *self;
            assert forall|k: int| 0 <= k < ready@.len() implies {
                let r = #[trigger] ready@[k];
                &&& r.runtime@ == closure_of(old_self.deps()[r.node as int]@, fin.states(), LinkTime::Runtime)
                &&& r.buildtime@ == closure_of(old_self.deps()[r.node as int]@, fin.states(), LinkTime::Buildtime)
            } by {
                let r = ready@[k];
                let edges = old_self.deps()[r.node as int]@;
                assert(unbuilt_deps(edges, old_self.states()) == 0);
                assert forall|i: int| 0 <= i < edges.len() implies fin.states()[(#[trigger] edges[i]).0 as int]
                    == old_self.states()[edges[i].0 as int] by {
                    let c = edges[i].0 as int;
                    if !(old_self.states()[c] is Built) {
                        edges.lemma_filter_contains(leads_to_unbuilt(old_self.states()), i);
                    }
                    if exists|kk: int| 0 <= kk < ready@.len() && (#[trigger] ready@[kk]).node == c {
                        let kk = choose|kk: int| 0 <= kk < ready@.len() && (#[trigger] ready@[kk]).node == c;
                        assert(old_self.states()[c] is Unbuilt);
                    }
                }
                lemma_closure_ext(edges, fin.states(), old_self.states(), LinkTime::Runtime);
                lemma_closure_ext(edges, fin.states(), old_self.states(), LinkTime::Buildtime);
            }
        }
        ready
    }
}

/// With the same packages built, the same dependency edges lead to unbuilt
/// packages.
proof fn lemma_same_built<P>(
    deps: Seq<Vec<(usize, LinkTime)>>,
    a: Seq<PackageState<P>>,
    b: Seq<PackageState<P>>,
)
    requires
        a.len() == deps.len(),
        b.len() == deps.len(),
        forall|x: int, j: int|
            0 <= x < deps.len() && 0 <= j < deps[x]@.len() ==> (#[trigger] deps[x]@[j]).0 < deps.len(),
        forall|x: int| 0 <= x < deps.len() ==> (#[trigger] a[x] is Built) == (b[x] is Built),
    ensures
        forall|x: int|
            0 <= x < deps.len() ==> unbuilt_deps(#[trigger] deps[x]@, a) == unbuilt_deps(deps[x]@, b),
{
    assert forall|x: int| 0 <= x < deps.len() implies unbuilt_deps(#[trigger] deps[x]@, a)
        == unbuilt_deps(deps[x]@, b) by {
        let edges = deps[x]@;
        assert forall|i: int| 0 <= i < edges.len() implies leads_to_unbuilt(a)(#[trigger] edges[i])
            == leads_to_unbuilt(b)(edges[i]) by {
            assert(edges[i].0 < deps.len());
        }
        lemma_filter_ext(edges, leads_to_unbuilt(a), leads_to_unbuilt(b));
    }
}

/// The occurrences in a prefix of `nodes` are at most all of them, and
/// fewer when the prefix stops before an occurrence.
proof fn lemma_occurrences_prefix(nodes: Seq<usize>, node: usize, j: int)
    requires
        0 <= j < nodes.len(),
        nodes[j] == node,
    ensures
        occurrences(nodes.take(j), node) < occurrences(nodes, node),
{
    assert(nodes =~= nodes.take(j) + nodes.skip(j));
    Seq::filter_distributes_over_add(nodes.take(j), nodes.skip(j), is_node(node));
    assert(nodes.skip(j)[0] == node);
    nodes.skip(j).lemma_filter_contains(is_node(node), 0);
}

} // verus!
