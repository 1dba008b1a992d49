//! The acyclic dependency graph of a plan, kept by `petgraph`.
use vstd::prelude::*;

use petgraph::acyclic::Acyclic;
use petgraph::graph::DiGraph;
use vstd::string::StrSliceExecFns;
use vstd::utf8::encode_utf8;

use crate::engine::package::{Dependency, DispatchRequest, LinkTime, Package, PackageName};
use crate::engine::planner::{copy_name, name_view, PlannerError};

verus! {

broadcast use vstd::seq_lib::group_seq_properties;

/// The dependency graph of a plan: a `petgraph` acyclic directed graph
/// whose edges carry link times.
#[verifier::external_body]
pub struct PlanGraph {
    graph: Acyclic<DiGraph<(), LinkTime>>,
}

/// The edges of a plan graph, as (from, to, link time), in the order they
/// were added.
pub uninterp spec fn plan_edges(graph: PlanGraph) -> Seq<(usize, usize, LinkTime)>;

/// The number of nodes of a plan graph.
pub uninterp spec fn plan_size(graph: PlanGraph) -> nat;

/// Whether `edges` holds an edge `from -> to`.
pub open spec fn has_edge(edges: Seq<(usize, usize, LinkTime)>, from: usize, to: usize) -> bool {
    exists|k: int| 0 <= k < edges.len() && #[trigger] edges[k].0 == from && edges[k].1 == to
}

/// Whether `path` is a walk along `edges`: each node to the next by an edge.
pub open spec fn is_walk(edges: Seq<(usize, usize, LinkTime)>, path: Seq<usize>) -> bool {
    &&& path.len() >= 1
    &&& forall|i: int| 0 <= i < path.len() - 1 ==> #[trigger] has_edge(edges, path[i], path[i + 1])
}

/// Whether `to` can be reached from `from` along `edges` (in zero or more
/// steps).
pub open spec fn reaches(edges: Seq<(usize, usize, LinkTime)>, from: usize, to: usize) -> bool {
    exists|path: Seq<usize>| #[trigger] is_walk(edges, path) && path[0] == from && path.last() == to
}

/// Whether no edge of `edges` can be followed back to where it starts:
/// the graph has no cycle.
pub open spec fn acyclic(edges: Seq<(usize, usize, LinkTime)>) -> bool {
    forall|k: int| 0 <= k < edges.len() ==> !#[trigger] reaches(edges, edges[k].1, edges[k].0)
}

/// An empty acyclic graph (`Acyclic::new`).
#[verifier::external_body]
fn graph_new() -> (graph: PlanGraph)
    ensures
        plan_size(graph) == 0,
        plan_edges(graph) == Seq::<(usize, usize, LinkTime)>::empty(),
{
    PlanGraph { graph: Acyclic::new() }
}

/// Adds a node (`Build::add_node` of `Acyclic`), and returns its index.
#[verifier::external_body]
fn graph_add_node(graph: &mut PlanGraph) -> (node: usize)
    requires
        plan_size(*old(graph)) < u32::MAX,
    ensures
        node == plan_size(*old(graph)),
        plan_size(*final(graph)) == plan_size(*old(graph)) + 1,
        plan_edges(*final(graph)) == plan_edges(*old(graph)),
{
    petgraph::data::Build::add_node(&mut graph.graph, ()).index()
}

/// Adds the edge `from -> to` (`Acyclic::try_add_edge`) unless it would
/// close a cycle, that is, unless `from` can be reached from `to`; says
/// whether it was added.
#[verifier::external_body]
fn graph_try_add_edge(
    graph: &mut PlanGraph,
    from: usize,
    to: usize,
    time: LinkTime,
) -> (added: bool)
    requires
        from < plan_size(*old(graph)),
        to < plan_size(*old(graph)),
        plan_size(*old(graph)) <= u32::MAX,
        plan_edges(*old(graph)).len() + 1 < u32::MAX,
    ensures
        added == !reaches(plan_edges(*old(graph)), to, from),
        plan_size(*final(graph)) == plan_size(*old(graph)),
        added ==> plan_edges(*final(graph)) == plan_edges(*old(graph)).push((from, to, time)),
        !added ==> plan_edges(*final(graph)) == plan_edges(*old(graph)),
{
    graph.graph.try_add_edge(
        petgraph::graph::NodeIndex::new(from),
        petgraph::graph::NodeIndex::new(to),
        time,
    ).is_ok()
}

/// The edges of the graph (`Graph::raw_edges`), in the order they were
/// added.
#[verifier::external_body]
fn graph_edges(graph: &PlanGraph) -> (edges: Vec<(usize, usize, LinkTime)>)
    ensures
        edges@ == plan_edges(*graph),
{
    graph.graph.inner().raw_edges().iter().map(|e| (e.source().index(), e.target().index(), e.weight)).collect()
}

/// The dependency edges of packages, in package order and then in
/// dependency order.
pub open spec fn all_edges<R>(packages: Seq<Package<R>>) -> Seq<(usize, usize, LinkTime)>
    decreases packages.len(),
{
    if packages.len() == 0 {
        Seq::empty()
    } else {
        let last = (packages.len() - 1) as usize;
        all_edges(packages.drop_last()) + packages.last().dependencies@.map_values(
            |d: Dependency| (last, d.node, d.time),
        )
    }
}

/// Whether edge `k` of `edges` would close a cycle in the graph of the
/// edges before it.
pub open spec fn closes_cycle(edges: Seq<(usize, usize, LinkTime)>, k: int) -> bool {
    reaches(edges.take(k), edges[k].1, edges[k].0)
}

/// The dependency edges leaving `node` among `edges`, newest first (the
/// order in which `petgraph` walks them), as (dependency, link time).
pub open spec fn outgoing(edges: Seq<(usize, usize, LinkTime)>, node: usize) -> Seq<(usize, LinkTime)>
    decreases edges.len(),
{
    if edges.len() == 0 {
        Seq::empty()
    } else {
        let edge = edges.last();
        let rest = outgoing(edges.drop_last(), node);
        if edge.0 == node {
            seq![(edge.1, edge.2)] + rest
        } else {
            rest
        }
    }
}

/// The packages with an edge to `node` among `edges`, once per edge, newest
/// first.
pub open spec fn incoming(edges: Seq<(usize, usize, LinkTime)>, node: usize) -> Seq<usize>
    decreases edges.len(),
{
    if edges.len() == 0 {
        Seq::empty()
    } else {
        let edge = edges.last();
        let rest = incoming(edges.drop_last(), node);
        if edge.1 == node {
            seq![edge.0] + rest
        } else {
            rest
        }
    }
}

/// A frozen plan: its packages, and the acyclic graph of their
/// dependencies.
pub struct Plan<R> {
    graph: PlanGraph,
    packages: Vec<Package<R>>,
}

impl<R> Plan<R> {
    /// The dependency edges, in the order they were added.
    pub closed spec fn edges(&self) -> Seq<(usize, usize, LinkTime)> {
        plan_edges(self.graph)
    }

    /// The number of nodes.
    pub closed spec fn size(&self) -> nat {
        plan_size(self.graph)
    }

    /// The packages, by node; their dependencies are the graph's edges.
    pub closed spec fn packages(&self) -> Seq<Package<R>> {
        self.packages@
    }

    /// Every edge joins two nodes of the plan, and each node has its package.
    #[verifier::type_invariant]
    closed spec fn well_formed(self) -> bool {
        &&& self.packages@.len() == plan_size(self.graph)
        &&& forall|i: int| 0 <= i < self.packages@.len() ==> (#[trigger] self.packages@[i]).dependencies@.len() == 0
        &&& forall|k: int|
            0 <= k < plan_edges(self.graph).len() ==> (#[trigger] plan_edges(self.graph)[k]).0
                < plan_size(self.graph) && plan_edges(self.graph)[k].1 < plan_size(self.graph)
    }

    /// Takes the plan apart into its packages and, for each node, its
    /// outgoing edges and the sources of its incoming edges, newest first.
    pub fn into_tables(self) -> (tables: (Vec<Package<R>>, Vec<Vec<(usize, LinkTime)>>, Vec<Vec<usize>>))
        ensures
            tables.0@ == self.packages(),
            tables.1@.len() == self.packages().len(),
            tables.2@.len() == self.packages().len(),
            self.size() == self.packages().len(),
            forall|k: int|
                0 <= k < self.edges().len() ==> (#[trigger] self.edges()[k]).0 < self.size()
                    && self.edges()[k].1 < self.size(),
            forall|x: int|
                0 <= x < self.packages().len() ==> (#[trigger] tables.1@[x])@ == outgoing(self.edges(), x as usize),
            forall|x: int|
                0 <= x < self.packages().len() ==> (#[trigger] tables.2@[x])@ == incoming(self.edges(), x as usize),
    {
        proof {
            use_type_invariant(&self);
        }
        let edges = graph_edges(&self.graph);
        let n = self.packages.len();
        let mut dependencies: Vec<Vec<(usize, LinkTime)>> = Vec::new();
        let mut dependents: Vec<Vec<usize>> = Vec::new();
        let mut x: usize = 0;
        while x < n
            invariant
                x <= n,
                dependencies@.len() == x,
                dependents@.len() == x,
                forall|y: int| 0 <= y < x ==> (#[trigger] dependencies@[y])@ == Seq::<(usize, LinkTime)>::empty(),
                forall|y: int| 0 <= y < x ==> (#[trigger] dependents@[y])@ == Seq::<usize>::empty(),
            decreases n - x,
        {
            dependencies.push(Vec::new());
            dependents.push(Vec::new());
            x = x + 1;
        }
        let mut k: usize = 0;
        while k < edges.len()
            invariant
                n == self.packages@.len(),
                n == plan_size(self.graph),
                edges@ == plan_edges(self.graph),
                forall|e: int| 0 <= e < edges@.len() ==> (#[trigger] edges@[e]).0 < n && edges@[e].1 < n,
                k <= edges@.len(),
                dependencies@.len() == n,
                dependents@.len() == n,
                forall|y: int| 0 <= y < n ==> (#[trigger] dependencies@[y])@ == outgoing(edges@.take(k as int), y as usize),
                forall|y: int| 0 <= y < n ==> (#[trigger] dependents@[y])@ == incoming(edges@.take(k as int), y as usize),
            decreases edges@.len() - k,
        {
            let edge = edges[k];
            let ghost before = edges@.take(k as int);
            proof {
                let after = edges@.take(k as int + 1);
                assert(after.drop_last() =~= before);
                assert(after.last() == edge);
            }
            let mut row: Vec<(usize, LinkTime)> = Vec::new();
            std::mem::swap(&mut dependencies[edge.0], &mut row);
            row.insert(0, (edge.1, edge.2));
            std::mem::swap(&mut dependencies[edge.0], &mut row);
            let mut sources: Vec<usize> = Vec::new();
            std::mem::swap(&mut dependents[edge.1], &mut sources);
            sources.insert(0, edge.0);
            std::mem::swap(&mut dependents[edge.1], &mut sources);
            proof {
                let after = edges@.take(k as int + 1);
                assert forall|y: int| 0 <= y < n implies (#[trigger] dependencies@[y])@ == outgoing(after, y as usize) by {
                    if y == edge.0 {
                        assert(dependencies@[y]@ =~= seq![(edge.1, edge.2)] + outgoing(before, y as usize));
                    }
                }
                assert forall|y: int| 0 <= y < n implies (#[trigger] dependents@[y])@ == incoming(after, y as usize) by {
                    if y == edge.1 {
                        assert(dependents@[y]@ =~= seq![edge.0] + incoming(before, y as usize));
                    }
                }
            }
            k = k + 1;
        }
        proof {
            assert(edges@.take(edges@.len() as int) =~= edges@);
        }
        (self.packages, dependencies, dependents)
    }

    /// The dependency edges, in the order they were added.
    pub fn edge_list(&self) -> (edges: Vec<(usize, usize, LinkTime)>)
        ensures
            edges@ == self.edges(),
    {
        graph_edges(&self.graph)
    }

    /// The package at `node`.
    pub fn package(&self, node: usize) -> (package: &Package<R>)
        requires
            node < self.packages().len(),
        ensures
            *package == self.packages()[node as int],
    {
        &self.packages[node]
    }
}

/// What freezing `packages` gives: a plan with their edges when no edge
/// closes a cycle, else the cycle error for the first edge that does.
pub open spec fn frozen_from<R, E>(packages: Seq<Package<R>>, r: Result<Plan<R>, PlannerError<E>>) -> bool {
    match r {
        Ok(plan) => {
            &&& forall|k: int| 0 <= k < all_edges(packages).len() ==> !#[trigger] closes_cycle(all_edges(packages), k)
            &&& plan.edges() == all_edges(packages)
            &&& plan.size() == packages.len()
            &&& plan.packages().len() == packages.len()
            &&& forall|i: int|
                0 <= i < packages.len() ==> (#[trigger] plan.packages()[i]).name == packages[i].name
                    && plan.packages()[i].requests == packages[i].requests
                    && plan.packages()[i].dependencies@.len() == 0
        },
        Err(error) => exists|k: int|
            0 <= k < all_edges(packages).len() && #[trigger] closes_cycle(all_edges(packages), k)
                && (forall|k2: int| 0 <= k2 < k ==> !closes_cycle(all_edges(packages), k2))
                && (error matches PlannerError::Cycle { from, to } && name_view(from) == name_view(
                packages[all_edges(packages)[k].0 as int].name,
            ) && name_view(to) == name_view(packages[all_edges(packages)[k].1 as int].name)),
    }
}

/// Freezes packages into a plan: each package becomes a node, then the
/// dependencies of each package, in order, become edges; the first edge
/// that would close a cycle is refused with the names of its two ends.
pub fn freeze<R, E>(packages: Vec<Package<R>>) -> (r: Result<Plan<R>, PlannerError<E>>)
    requires
        packages@.len() < u32::MAX,
        all_edges(packages@).len() + 1 < u32::MAX,
        forall|i: int, j: int|
            0 <= i < packages@.len() && 0 <= j < packages@[i].dependencies@.len() ==> (
            #[trigger] packages@[i].dependencies@[j]).node < packages@.len(),
    ensures
        frozen_from(packages@, r),
{
    let ghost input = packages@;
    let ghost all = all_edges(input);
    let n = packages.len();
    let mut graph = graph_new();
    let mut x: usize = 0;
    while x < n
        invariant
            x <= n,
            n < u32::MAX,
            plan_size(graph) == x,
            plan_edges(graph) == Seq::<(usize, usize, LinkTime)>::empty(),
        decreases n - x,
    {
        let _ = graph_add_node(&mut graph);
        x = x + 1;
    }
    let mut i: usize = 0;
    while i < n
        invariant
            n == input.len(),
            input == packages@,
            all == all_edges(input),
            all.len() + 1 < u32::MAX,
            i <= n,
            n < u32::MAX,
            plan_size(graph) == n,
            plan_edges(graph) == all_edges(input.take(i as int)),
            forall|ii: int, jj: int|
                0 <= ii < input.len() && 0 <= jj < input[ii].dependencies@.len() ==> (
                #[trigger] input[ii].dependencies@[jj]).node < input.len(),
            forall|k: int| 0 <= k < all_edges(input.take(i as int)).len() ==> !#[trigger] closes_cycle(all, k),
            forall|k: int|
                0 <= k < plan_edges(graph).len() ==> (#[trigger] plan_edges(graph)[k]).0 < n
                    && plan_edges(graph)[k].1 < n,
        decreases n - i,
    {
        let ghost f = |d: Dependency| (i, d.node, d.time);
        let ghost before = all_edges(input.take(i as int));
        proof {
            lemma_all_edges_step(input, i as int);
            lemma_all_edges_prefix(input, i as int + 1);
        }
        let mut j: usize = 0;
        while j < packages[i].dependencies.len()
            invariant
                n == input.len(),
                input == packages@,
                all == all_edges(input),
                all.len() + 1 < u32::MAX,
                i < n,
                n < u32::MAX,
                plan_size(graph) == n,
                all_edges(input.take(i as int + 1)).len() <= all.len(),
                f == (|d: Dependency| (i, d.node, d.time)),
                before == all_edges(input.take(i as int)),
                all_edges(input.take(i as int + 1)) == before + input[i as int].dependencies@.map_values(f),
                all.take(all_edges(input.take(i as int + 1)).len() as int) == all_edges(input.take(i as int + 1)),
                j <= input[i as int].dependencies@.len(),
                plan_edges(graph) == before + input[i as int].dependencies@.take(j as int).map_values(f),
                forall|ii: int, jj: int|
                    0 <= ii < input.len() && 0 <= jj < input[ii].dependencies@.len() ==> (
                    #[trigger] input[ii].dependencies@[jj]).node < input.len(),
                forall|k: int| 0 <= k < plan_edges(graph).len() ==> !#[trigger] closes_cycle(all, k),
                forall|k: int|
                    0 <= k < plan_edges(graph).len() ==> (#[trigger] plan_edges(graph)[k]).0 < n
                        && plan_edges(graph)[k].1 < n,
            decreases input[i as int].dependencies@.len() - j,
        {
            let dependency = packages[i].dependencies[j];
            let ghost k = plan_edges(graph).len() as int;
            proof {
                assert(input[i as int].dependencies@.take(j as int + 1).map_values(f) =~= input[i as int].dependencies@.take(
                    j as int,
                ).map_values(f).push(f(dependency)));
                assert(k < all_edges(input.take(i as int + 1)).len());
                assert(all_edges(input.take(i as int + 1))[k] == (i, dependency.node, dependency.time));
                assert(all[k] == (i, dependency.node, dependency.time));
                assert(all.take(k) =~= plan_edges(graph));
            }
            if !graph_try_add_edge(&mut graph, i, dependency.node, dependency.time) {
                proof {
                    assert(closes_cycle(all, k));
                }
                return Err(PlannerError::Cycle {
                    from: copy_name(&packages[i].name),
                    to: copy_name(&packages[dependency.node].name),
                });
            }
            proof {
                assert(!closes_cycle(all, k));
                assert(plan_edges(graph) =~= before + input[i as int].dependencies@.take(j as int + 1).map_values(f));
            }
            j = j + 1;
        }
        proof {
            assert(input[i as int].dependencies@.take(j as int) =~= input[i as int].dependencies@);
        }
        i = i + 1;
    }
    proof {
        assert(input.take(n as int) =~= input);
    }
    let mut packages = packages;
    let mut y: usize = 0;
    while y < n
        invariant
            n == input.len(),
            y <= n,
            packages@.len() == n,
            forall|z: int|
                0 <= z < n ==> (#[trigger] packages@[z]).name == input[z].name && packages@[z].requests
                    == input[z].requests,
            forall|z: int| 0 <= z < y ==> (#[trigger] packages@[z]).dependencies@.len() == 0,
            plan_size(graph) == n,
            forall|k: int|
                0 <= k < plan_edges(graph).len() ==> (#[trigger] plan_edges(graph)[k]).0 < n
                    && plan_edges(graph)[k].1 < n,
        decreases n - y,
    {
        let mut emptied: Vec<Dependency> = Vec::new();
        std::mem::swap(&mut packages[y].dependencies, &mut emptied);
        y = y + 1;
    }
    Ok(Plan { graph, packages })
}

proof fn lemma_all_edges_step<R>(packages: Seq<Package<R>>, i: int)
    requires
        0 <= i < packages.len(),
    ensures
        all_edges(packages.take(i + 1)) == all_edges(packages.take(i)) + packages[i].dependencies@.map_values(
            |d: Dependency| (i as usize, d.node, d.time),
        ),
{
    let t = packages.take(i + 1);
    assert(t.drop_last() =~= packages.take(i));
    assert(t.last() == packages[i]);
}

proof fn lemma_all_edges_prefix<R>(packages: Seq<Package<R>>, i: int)
    requires
        0 <= i <= packages.len(),
    ensures
        all_edges(packages.take(i)).len() <= all_edges(packages).len(),
        all_edges(packages).take(all_edges(packages.take(i)).len() as int) == all_edges(packages.take(i)),
    decreases packages.len() - i,
{
    if i == packages.len() {
        assert(packages.take(i) =~= packages);
        assert(all_edges(packages).take(all_edges(packages).len() as int) =~= all_edges(packages));
    } else {
        lemma_all_edges_prefix(packages, i + 1);
        lemma_all_edges_step(packages, i);
        let a = all_edges(packages.take(i));
        let b = all_edges(packages.take(i + 1));
        assert(b.take(a.len() as int) =~= a);
        assert(all_edges(packages).take(a.len() as int) =~= all_edges(packages).take(b.len() as int).take(a.len() as int));
    }
}

/// The edges of packages depend on their dependencies alone.
pub(crate) proof fn lemma_all_edges_same_dependencies<R>(a: Seq<Package<R>>, b: Seq<Package<R>>)
    requires
        a.len() == b.len(),
        forall|i: int| 0 <= i < a.len() ==> (#[trigger] a[i]).dependencies@ == b[i].dependencies@,
    ensures
        all_edges(a) == all_edges(b),
    decreases a.len(),
{
    if a.len() > 0 {
        lemma_all_edges_same_dependencies(a.drop_last(), b.drop_last());
        assert(a.last() == a[a.len() - 1]);
    }
}

/// The identity of a package: a BLAKE3 digest.
pub type PackageId = [u8; 32];

/// `blake3::Hasher`, an incremental BLAKE3 hash state; what was written into
/// it is seen only through [`hasher_input`].
#[verifier::external_type_specification]
#[verifier::external_body]
pub struct ExHasher(blake3::Hasher);

/// The bytes written so far into a BLAKE3 hasher.
pub uninterp spec fn hasher_input(hasher: blake3::Hasher) -> Seq<u8>;

/// The BLAKE3 digest of `input` (what `blake3::Hasher::finalize` gives).
pub uninterp spec fn blake3_digest(input: Seq<u8>) -> Seq<u8>;

/// A fresh hasher (`blake3::Hasher::new`): nothing written yet.
#[verifier::external_body]
fn hasher_new() -> (hasher: blake3::Hasher)
    ensures
        hasher_input(hasher) == Seq::<u8>::empty(),
{
    blake3::Hasher::new()
}

/// Writes `bytes` into the hasher (`blake3::Hasher::update`): writes
/// accumulate, so the digest is that of all the bytes written, in order.
#[verifier::external_body]
fn hasher_update(hasher: &mut blake3::Hasher, bytes: &[u8])
    ensures
        hasher_input(*final(hasher)) == hasher_input(*old(hasher)) + bytes@,
{
    hasher.update(bytes);
}

/// The digest of what was written (`blake3::Hasher::finalize`), as bytes.
#[verifier::external_body]
fn hasher_finalize(hasher: &blake3::Hasher) -> (digest: PackageId)
    ensures
        digest@ == blake3_digest(hasher_input(*hasher)),
{
    *hasher.finalize().as_bytes()
}

/// The run-time and build-time closures of a package.
#[derive(Debug)]
pub struct DependencyClosure {
    pub runtime: Vec<usize>,
    pub buildtime: Vec<usize>,
}

/// The bytes of namespace segments, one after the other.
pub open spec fn segments_input(segments: Seq<String>) -> Seq<u8>
    decreases segments.len(),
{
    if segments.len() == 0 {
        Seq::empty()
    } else {
        segments_input(segments.drop_last()) + encode_utf8(segments.last()@)
    }
}

/// The bytes of requests: for each, its executor's name and then what the
/// backend wrote for its payload.
pub open spec fn requests_input<V>(requests: Seq<DispatchRequest<V>>, payloads: Seq<Vec<u8>>) -> Seq<u8>
    decreases requests.len(),
{
    if requests.len() == 0 {
        Seq::empty()
    } else {
        requests_input(requests.drop_last(), payloads) + encode_utf8(requests.last().executor@)
            + payloads[requests.len() - 1]@
    }
}

/// What the identity of a package hashes: its identifier, its namespace
/// segments, then its requests.
pub open spec fn identity_input<V>(name: PackageName, requests: Seq<DispatchRequest<V>>, payloads: Seq<Vec<u8>>) -> Seq<u8> {
    encode_utf8(name.identifier@) + segments_input(name.namespace@) + requests_input(requests, payloads)
}

/// Whether `payloads` is what `hash_payload` can write for the first
/// requests of `requests`, in order.
pub open spec fn payloads_written<V, E, H: Fn(&V) -> Result<Vec<u8>, E>>(
    hash_payload: H,
    requests: Seq<DispatchRequest<V>>,
    payloads: Seq<Vec<u8>>,
) -> bool {
    &&& payloads.len() <= requests.len()
    &&& forall|i: int|
        0 <= i < payloads.len() ==> #[trigger] hash_payload.ensures(
            (&requests[i].payload,),
            Ok::<Vec<u8>, E>(payloads[i]),
        )
}

impl<V> Plan<DispatchRequest<V>> {
    /// The closures of `node`'s dependencies. A frozen package's own list
    /// of dependencies is empty (freezing moved its dependencies into the
    /// graph), so both closures are empty.
    pub fn closure(&self, node: usize) -> (closure: Option<DependencyClosure>)
        requires
            node < self.packages().len(),
        ensures
            closure matches Some(c) && c.runtime@.len() == 0 && c.buildtime@.len() == 0,
    {
        proof {
            use_type_invariant(self);
        }
        let dependencies = &self.packages[node].dependencies;
        let mut runtime: Vec<usize> = Vec::new();
        let mut buildtime: Vec<usize> = Vec::new();
        let mut i: usize = 0;
        while i < dependencies.len()
            invariant
                dependencies@.len() == 0,
                runtime@.len() == 0,
                buildtime@.len() == 0,
            decreases dependencies@.len() - i,
        {
            i = i + 1;
        }
        Some(DependencyClosure { runtime, buildtime })
    }

    /// The identity of `node`: the BLAKE3 digest of its package's
    /// identifier, its namespace segments and, for each request, the
    /// executor's name and what `hash_payload` writes for the payload (the
    /// packages of its closures, which are empty, add nothing). The first
    /// payload that cannot be hashed stops it with that error.
    pub fn identity<E, H: Fn(&V) -> Result<Vec<u8>, E>>(&self, node: usize, hash_payload: H) -> (r: Option<
        Result<PackageId, E>,
    >)
        requires
            node < self.packages().len(),
            forall|payload: &V| #[trigger] hash_payload.requires((payload,)),
        ensures
            match r {
                Some(Ok(id)) => exists|payloads: Seq<Vec<u8>>|
                    #[trigger] payloads_written::<V, E, H>(hash_payload, self.packages()[node as int].requests@, payloads)
                        && payloads.len() == self.packages()[node as int].requests@.len() && id@ == blake3_digest(
                        identity_input(
                            self.packages()[node as int].name,
                            self.packages()[node as int].requests@,
                            payloads,
                        ),
                    ),
                Some(Err(e)) => exists|payloads: Seq<Vec<u8>>|
                    #[trigger] payloads_written::<V, E, H>(hash_payload, self.packages()[node as int].requests@, payloads)
                        && payloads.len() < self.packages()[node as int].requests@.len()
                        && hash_payload.ensures(
                        (&self.packages()[node as int].requests@[payloads.len() as int].payload,),
                        Err::<Vec<u8>, E>(e),
                    ),
                None => false,
            },
    {
        proof {
            use_type_invariant(self);
        }
        let package = &self.packages[node];
        let ghost requests = package.requests@;
        let mut hasher = hasher_new();
        hasher_update(&mut hasher, package.name.identifier.as_str().as_bytes());
        let mut s: usize = 0;
        while s < package.name.namespace.len()
            invariant
                s <= package.name.namespace@.len(),
                hasher_input(hasher) == encode_utf8(package.name.identifier@) + segments_input(
                    package.name.namespace@.take(s as int),
                ),
            decreases package.name.namespace@.len() - s,
        {
            proof {
                let t = package.name.namespace@.take(s as int + 1);
                assert(t.drop_last() =~= package.name.namespace@.take(s as int));
            }
            hasher_update(&mut hasher, package.name.namespace[s].as_str().as_bytes());
            s = s + 1;
        }
        proof {
            assert(package.name.namespace@.take(s as int) =~= package.name.namespace@);
        }
        let ghost prefix = encode_utf8(package.name.identifier@) + segments_input(package.name.namespace@);
        let ghost mut payloads: Seq<Vec<u8>> = Seq::empty();
        let mut i: usize = 0;
        while i < package.requests.len()
            invariant
                node < self.packages().len(),
                requests == package.requests@,
                requests == self.packages()[node as int].requests@,
                i <= requests.len(),
                payloads.len() == i,
                payloads_written::<V, E, H>(hash_payload, requests, payloads),
                hasher_input(hasher) == prefix + requests_input(requests.take(i as int), payloads),
                forall|payload: &V| #[trigger] hash_payload.requires((payload,)),
            decreases requests.len() - i,
        {
            hasher_update(&mut hasher, package.requests[i].executor.as_str().as_bytes());
            match hash_payload(&package.requests[i].payload) {
                Err(e) => {
                    proof {
                        assert(payloads_written::<V, E, H>(hash_payload, requests, payloads));
                    }
                    return Some(Err(e));
                },
                Ok(bytes) => {
                    hasher_update(&mut hasher, bytes.as_slice());
                    proof {
                        let t = requests.take(i as int + 1);
                        assert(t.drop_last() =~= requests.take(i as int));
                        let grown = payloads.push(bytes);
                        lemma_requests_input_prefix(requests.take(i as int), payloads, grown);
                        payloads = grown;
                    }
                },
            }
            i = i + 1;
        }
        proof {
            assert(requests.take(i as int) =~= requests);
        }
        Some(Ok(hasher_finalize(&hasher)))
    }
}

/// The bytes of requests depend only on the payloads of those requests.
proof fn lemma_requests_input_prefix<V>(requests: Seq<DispatchRequest<V>>, a: Seq<Vec<u8>>, b: Seq<Vec<u8>>)
    requires
        requests.len() <= a.len(),
        requests.len() <= b.len(),
        forall|i: int| 0 <= i < requests.len() ==> a[i] == b[i],
    ensures
        requests_input(requests, a) == requests_input(requests, b),
    decreases requests.len(),
{
    if requests.len() > 0 {
        lemma_requests_input_prefix(requests.drop_last(), a, b);
    }
}

/// Every node reaches itself.
proof fn lemma_reaches_self(edges: Seq<(usize, usize, LinkTime)>, node: usize)
    ensures
        reaches(edges, node, node),
{
    let path = seq![node];
    assert(is_walk(edges, path));
}

/// An edge followed by a walk is a walk.
proof fn lemma_reaches_prepend(edges: Seq<(usize, usize, LinkTime)>, a: usize, b: usize, c: usize)
    requires
        has_edge(edges, a, b),
        reaches(edges, b, c),
    ensures
        reaches(edges, a, c),
{
    let path = choose|path: Seq<usize>| #[trigger] is_walk(edges, path) && path[0] == b && path.last() == c;
    let longer = seq![a] + path;
    assert forall|i: int| 0 <= i < longer.len() - 1 implies #[trigger] has_edge(edges, longer[i], longer[i + 1]) by {
        if i > 0 {
            let j = i - 1;
            assert(has_edge(edges, path[j], path[j + 1]));
            assert(longer[i] == path[j] && longer[i + 1] == path[j + 1]);
        } else {
            assert(longer[0] == a && longer[1] == path[0]);
        }
    }
    assert(is_walk(edges, longer));
}

/// A walk followed by an edge is a walk.
proof fn lemma_reaches_append(edges: Seq<(usize, usize, LinkTime)>, a: usize, b: usize, c: usize)
    requires
        reaches(edges, a, b),
        has_edge(edges, b, c),
    ensures
        reaches(edges, a, c),
{
    let path = choose|path: Seq<usize>| #[trigger] is_walk(edges, path) && path[0] == a && path.last() == b;
    let longer = path.push(c);
    assert forall|i: int| 0 <= i < longer.len() - 1 implies #[trigger] has_edge(edges, longer[i], longer[i + 1]) by {
        if i < path.len() - 1 {
            assert(longer[i] == path[i] && longer[i + 1] == path[i + 1]);
        } else {
            assert(longer[i] == b && longer[i + 1] == c);
        }
    }
    assert(is_walk(edges, longer));
}

/// Walks chain.
proof fn lemma_reaches_trans(edges: Seq<(usize, usize, LinkTime)>, a: usize, b: usize, c: usize)
    requires
        reaches(edges, a, b),
        reaches(edges, b, c),
    ensures
        reaches(edges, a, c),
{
    let p = choose|path: Seq<usize>| #[trigger] is_walk(edges, path) && path[0] == a && path.last() == b;
    let q = choose|path: Seq<usize>| #[trigger] is_walk(edges, path) && path[0] == b && path.last() == c;
    let joined = p + q.drop_first();
    assert forall|i: int| 0 <= i < joined.len() - 1 implies #[trigger] has_edge(edges, joined[i], joined[i + 1]) by {
        if i < p.len() - 1 {
            assert(joined[i] == p[i] && joined[i + 1] == p[i + 1]);
        } else {
            let j = i - (p.len() - 1);
            assert(joined[i] == q[j]);
            assert(joined[i + 1] == q[j + 1]);
        }
    }
    if q.len() == 1 {
        assert(joined =~= p);
    } else {
        assert(joined.last() == q.last());
    }
    assert(is_walk(edges, joined));
}

/// An edge of the first `k + 1` edges is an edge of the first `k`, or
/// edge `k` itself.
proof fn lemma_edge_of_prefix(edges: Seq<(usize, usize, LinkTime)>, k: int, a: usize, b: usize)
    requires
        0 <= k < edges.len(),
        has_edge(edges.take(k + 1), a, b),
    ensures
        has_edge(edges.take(k), a, b) || (a == edges[k].0 && b == edges[k].1),
{
    let t = edges.take(k + 1);
    let i = choose|i: int| 0 <= i < t.len() && #[trigger] t[i].0 == a && t[i].1 == b;
    if i < k {
        assert(edges.take(k)[i] == t[i]);
    } else {
        assert(t[i] == edges[k]);
    }
}

/// A walk along the first `k + 1` edges, from `a` to `b`, either keeps to
/// the first `k` edges, or starts with a walk along them from `a` to where
/// edge `k` starts.
proof fn lemma_walk_before_new_edge(edges: Seq<(usize, usize, LinkTime)>, k: int, path: Seq<usize>)
    requires
        0 <= k < edges.len(),
        is_walk(edges.take(k + 1), path),
    ensures
        reaches(edges.take(k), path[0], path.last()) || reaches(edges.take(k), path[0], edges[k].0),
    decreases path.len(),
{
    let small = edges.take(k);
    if path.len() == 1 {
        lemma_reaches_self(small, path[0]);
    } else {
        let rest = path.drop_first();
        assert(has_edge(edges.take(k + 1), path[0], path[1]));
        assert forall|i: int| 0 <= i < rest.len() - 1 implies #[trigger] has_edge(
            edges.take(k + 1),
            rest[i],
            rest[i + 1],
        ) by {
            assert(rest[i] == path[i + 1] && rest[i + 1] == path[i + 2]);
        }
        lemma_edge_of_prefix(edges, k, path[0], path[1]);
        if has_edge(small, path[0], path[1]) {
            lemma_walk_before_new_edge(edges, k, rest);
            assert(rest[0] == path[1] && rest.last() == path.last());
            if reaches(small, rest[0], rest.last()) {
                lemma_reaches_prepend(small, path[0], path[1], path.last());
            } else {
                lemma_reaches_prepend(small, path[0], path[1], edges[k].0);
            }
        } else {
            lemma_reaches_self(small, path[0]);
        }
    }
}

/// A walk along the first `k + 1` edges, from `a` to `b`, either keeps to
/// the first `k` edges, or ends with a walk along them from where edge `k`
/// ends to `b`.
proof fn lemma_walk_after_new_edge(edges: Seq<(usize, usize, LinkTime)>, k: int, path: Seq<usize>)
    requires
        0 <= k < edges.len(),
        is_walk(edges.take(k + 1), path),
    ensures
        reaches(edges.take(k), path[0], path.last()) || reaches(edges.take(k), edges[k].1, path.last()),
    decreases path.len(),
{
    let small = edges.take(k);
    if path.len() == 1 {
        lemma_reaches_self(small, path[0]);
    } else {
        let rest = path.drop_last();
        let n = path.len();
        let last_step = n - 2;
        assert(has_edge(edges.take(k + 1), path[last_step], path[last_step + 1]));
        assert(path[last_step + 1] == path[n - 1]);
        assert forall|i: int| 0 <= i < rest.len() - 1 implies #[trigger] has_edge(
            edges.take(k + 1),
            rest[i],
            rest[i + 1],
        ) by {
            assert(rest[i] == path[i] && rest[i + 1] == path[i + 1]);
        }
        lemma_edge_of_prefix(edges, k, path[n - 2], path[n - 1]);
        if has_edge(small, path[n - 2], path[n - 1]) {
            lemma_walk_after_new_edge(edges, k, rest);
            assert(rest[0] == path[0] && rest.last() == path[n - 2]);
            if reaches(small, rest[0], rest.last()) {
                lemma_reaches_append(small, path[0], path[n - 2], path.last());
            } else {
                lemma_reaches_append(small, edges[k].1, path[n - 2], path.last());
            }
        } else {
            lemma_reaches_self(small, path.last());
        }
    }
}

/// When no edge closed a cycle as it was added, the first `k` edges have
/// no cycle.
proof fn lemma_prefix_acyclic(edges: Seq<(usize, usize, LinkTime)>, k: int)
    requires
        0 <= k <= edges.len(),
        forall|j: int| 0 <= j < edges.len() ==> !#[trigger] closes_cycle(edges, j),
    ensures
        acyclic(edges.take(k)),
    decreases k,
{
    if k > 0 {
        let m = k - 1;
        lemma_prefix_acyclic(edges, m);
        let small = edges.take(m);
        let big = edges.take(k);
        assert(!closes_cycle(edges, m));
        assert forall|j: int| 0 <= j < big.len() implies !#[trigger] reaches(big, big[j].1, big[j].0) by {
            if reaches(big, big[j].1, big[j].0) {
                let path = choose|path: Seq<usize>|
                    #[trigger] is_walk(big, path) && path[0] == big[j].1 && path.last() == big[j].0;
                assert(big =~= edges.take(m + 1));
                lemma_walk_before_new_edge(edges, m, path);
                lemma_walk_after_new_edge(edges, m, path);
                assert(big[j] == edges[j]);
                if j < m {
                    assert(small[j] == edges[j]);
                    assert(!reaches(small, small[j].1, small[j].0));
                    if !reaches(small, edges[j].1, edges[j].0) {
                        // the walk leaves the old edges: edge m's end reaches edge j's
                        // start, edge j follows, and edge j's end reaches edge m's start
                        assert(has_edge(small, edges[j].0, edges[j].1));
                        lemma_reaches_append(small, edges[m].1, edges[j].0, edges[j].1);
                        lemma_reaches_trans(small, edges[m].1, edges[j].1, edges[m].0);
                    }
                }
            }
        }
    }
}

/// When no edge closed a cycle as it was added, the graph has no cycle.
pub(crate) proof fn lemma_no_closing_edge_acyclic(edges: Seq<(usize, usize, LinkTime)>)
    requires
        forall|j: int| 0 <= j < edges.len() ==> !#[trigger] closes_cycle(edges, j),
    ensures
        acyclic(edges),
{
    lemma_prefix_acyclic(edges, edges.len() as int);
    assert(edges.take(edges.len() as int) =~= edges);
}

} // verus!
