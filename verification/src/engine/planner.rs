//! The planner's registry of package configurations, by name and namespace.
use vstd::prelude::*;

use crate::engine::graph::{
    all_edges, blake3_digest, frozen_from, identity_input, lemma_all_edges_same_dependencies, payloads_written, DependencyClosure, PackageId, Plan,
};
use crate::engine::package::{DispatchRequest, Package, PackageName};
use crate::reports::render::lines_view;

verus! {

broadcast use vstd::seq_lib::group_seq_properties;

/// The text of a package name: its identifier and its namespace segments.
pub open spec fn name_view(name: PackageName) -> (Seq<char>, Seq<Seq<char>>) {
    (name.identifier@, lines_view(name.namespace@))
}

/// A copy of a list of strings.
fn copy_strings(strings: &Vec<String>) -> (copy: Vec<String>)
    ensures
        copy@ == strings@,
{
    let mut copy: Vec<String> = Vec::new();
    let mut i: usize = 0;
    while i < strings.len()
        invariant
            i <= strings@.len(),
            copy@ == strings@.take(i as int),
        decreases strings@.len() - i,
    {
        copy.push(strings[i].clone());
        proof {
            assert(copy@ =~= strings@.take(i as int + 1));
        }
        i = i + 1;
    }
    proof {
        assert(strings@.take(i as int) =~= strings@);
    }
    copy
}

/// A copy of a package name.
pub fn copy_name(name: &PackageName) -> (copy: PackageName)
    ensures
        name_view(copy) == name_view(*name),
{
    PackageName { identifier: name.identifier.clone(), namespace: copy_strings(&name.namespace) }
}

/// Whether two names have the same text.
pub fn same_name(a: &PackageName, b: &PackageName) -> (r: bool)
    ensures
        r == (name_view(*a) == name_view(*b)),
{
    if a.identifier != b.identifier || a.namespace.len() != b.namespace.len() {
        proof {
            if a.namespace.len() != b.namespace.len() {
                assert(lines_view(a.namespace@).len() != lines_view(b.namespace@).len());
            }
        }
        return false;
    }
    let mut i: usize = 0;
    while i < a.namespace.len()
        invariant
            a.namespace@.len() == b.namespace@.len(),
            i <= a.namespace@.len(),
            forall|j: int| 0 <= j < i ==> a.namespace@[j]@ == b.namespace@[j]@,
        decreases a.namespace@.len() - i,
    {
        if a.namespace[i] != b.namespace[i] {
            proof {
                assert(lines_view(a.namespace@)[i as int] != lines_view(b.namespace@)[i as int]);
            }
            return false;
        }
        i = i + 1;
    }
    proof {
        assert(lines_view(a.namespace@) =~= lines_view(b.namespace@));
    }
    true
}

/// The namespace segments that registrations are scoped under.
#[derive(Debug)]
pub struct NamespaceTracker {
    segments: Vec<String>,
}

impl NamespaceTracker {
    /// The segments, outermost first.
    pub closed spec fn view_segments(&self) -> Seq<String> {
        self.segments@
    }

    /// No segment.
    pub fn new() -> (tracker: Self)
        ensures
            tracker.view_segments().len() == 0,
    {
        NamespaceTracker { segments: Vec::new() }
    }

    /// The current segments.
    pub fn current(&self) -> (segments: Vec<String>)
        ensures
            segments@ == self.view_segments(),
    {
        copy_strings(&self.segments)
    }

    /// Enters a scope named `segment`.
    pub fn enter(&mut self, segment: String)
        ensures
            final(self).view_segments() == old(self).view_segments().push(segment),
    {
        self.segments.push(segment);
    }

    /// Leaves the innermost scope, if there is one.
    pub fn leave(&mut self)
        ensures
            final(self).view_segments() == (if old(self).view_segments().len() == 0 {
                old(self).view_segments()
            } else {
                old(self).view_segments().drop_last()
            }),
    {
        if self.segments.len() > 0 {
            let _ = self.segments.pop();
            proof {
                assert(self.segments@ =~= old(self).segments@.drop_last());
            }
        }
    }
}

/// A package configuration: its name, its current value and how to turn
/// the value into a package.
#[derive(Debug)]
pub struct Config<V, A> {
    pub name: PackageName,
    pub current: V,
    pub apply: A,
}

/// Why the planner refused a configuration.
#[derive(Debug)]
pub enum PlannerError<E> {
    /// Another configuration was registered under the same name.
    Conflict { package: PackageName },
    /// A dependency edge would close a cycle.
    Cycle { from: PackageName, to: PackageName },
    /// The backend failed.
    BackendError(E),
}

/// Configurations registered so far, and the names they can be resolved by.
#[derive(Debug)]
pub struct Planner<V, A> {
    configs: Vec<Config<V, A>>,
    namespace: NamespaceTracker,
    registered: Vec<(PackageName, usize)>,
}

/// The node registered under `name` in `registered`, if any: the first
/// entry with that name.
fn find_name(registered: &Vec<(PackageName, usize)>, name: &PackageName) -> (node: Option<usize>)
    ensures
        match node {
            Some(n) => exists|i: int|
                0 <= i < registered@.len() && name_view(#[trigger] registered@[i].0) == name_view(*name)
                    && registered@[i].1 == n,
            None => forall|i: int|
                0 <= i < registered@.len() ==> name_view(#[trigger] registered@[i].0) != name_view(*name),
        },
{
    let mut i: usize = 0;
    while i < registered.len()
        invariant
            i <= registered@.len(),
            forall|j: int| 0 <= j < i ==> name_view(#[trigger] registered@[j].0) != name_view(*name),
        decreases registered@.len() - i,
    {
        if same_name(&registered[i].0, name) {
            return Some(registered[i].1);
        }
        i = i + 1;
    }
    None
}

impl<V, A> Planner<V, A> {
    /// The configurations, by node.
    pub closed spec fn configs(&self) -> Seq<Config<V, A>> {
        self.configs@
    }

    /// The current namespace.
    pub closed spec fn current_namespace(&self) -> Seq<String> {
        self.namespace.view_segments()
    }

    /// The registered names and their nodes, in registration order.
    pub closed spec fn registry(&self) -> Seq<(PackageName, usize)> {
        self.registered@
    }

    /// Whether `name` is registered.
    pub open spec fn is_registered(&self, name: PackageName) -> bool {
        exists|i: int| 0 <= i < self.registry().len() && name_view(#[trigger] self.registry()[i].0) == name_view(name)
    }

    /// Well-formedness: no name is registered twice, and each registered
    /// node is a configuration with that name.
    pub open spec fn wf(&self) -> bool {
        &&& forall|i: int, j: int|
            0 <= i < self.registry().len() && 0 <= j < self.registry().len() && name_view(
                #[trigger] self.registry()[i].0,
            ) == name_view(#[trigger] self.registry()[j].0) ==> i == j
        &&& forall|i: int|
            0 <= i < self.registry().len() ==> (#[trigger] self.registry()[i]).1 < self.configs().len()
                && name_view(self.configs()[self.registry()[i].1 as int].name) == name_view(
                self.registry()[i].0,
            )
    }

    proof fn lemma_wf_same(&self, other: &Self)
        requires
            other.wf(),
            self.configs() == other.configs(),
            self.registry() == other.registry(),
        ensures
            self.wf(),
    {
        assert forall|i: int, j: int|
            0 <= i < self.registry().len() && 0 <= j < self.registry().len() && name_view(
                #[trigger] self.registry()[i].0,
            ) == name_view(#[trigger] self.registry()[j].0) implies i == j by {
            assert(other.registry()[i] == self.registry()[i]);
            assert(other.registry()[j] == self.registry()[j]);
        }
        assert forall|i: int| 0 <= i < self.registry().len() implies (#[trigger] self.registry()[i]).1
            < self.configs().len() && name_view(self.configs()[self.registry()[i].1 as int].name)
            == name_view(self.registry()[i].0) by {
            assert(other.registry()[i] == self.registry()[i]);
        }
    }

    /// An empty planner.
    pub fn new() -> (planner: Self)
        ensures
            planner.wf(),
            planner.configs().len() == 0,
            planner.registry().len() == 0,
            planner.current_namespace().len() == 0,
    {
        Planner { configs: Vec::new(), namespace: NamespaceTracker::new(), registered: Vec::new() }
    }

    /// The current namespace.
    pub fn namespace(&self) -> (segments: Vec<String>)
        ensures
            segments@ == self.current_namespace(),
    {
        self.namespace.current()
    }

    /// Enters a namespace scope.
    pub fn enter_scope(&mut self, segment: String)
        requires
            old(self).wf(),
        ensures
            final(self).wf(),
            final(self).current_namespace() == old(self).current_namespace().push(segment),
            final(self).configs() == old(self).configs(),
            final(self).registry() == old(self).registry(),
    {
        self.namespace.enter(segment);
        proof {
            self.lemma_wf_same(old(self));
        }
    }

    /// Leaves the innermost namespace scope.
    pub fn leave_scope(&mut self)
        requires
            old(self).wf(),
        ensures
            final(self).wf(),
            final(self).current_namespace() == (if old(self).current_namespace().len() == 0 {
                old(self).current_namespace()
            } else {
                old(self).current_namespace().drop_last()
            }),
            final(self).configs() == old(self).configs(),
            final(self).registry() == old(self).registry(),
    {
        self.namespace.leave();
        proof {
            self.lemma_wf_same(old(self));
        }
    }

    /// The value of configuration `source`, if there is one.
    pub fn config_value(&self, source: usize) -> (value: Option<&V>)
        ensures
            source < self.configs().len() ==> value == Some(&self.configs()[source as int].current),
            source >= self.configs().len() ==> value.is_none(),
    {
        if source < self.configs.len() {
            Some(&self.configs[source].current)
        } else {
            None
        }
    }

    /// `node` is what resolving `name` may give: a node registered under
    /// that name, or nothing when no such name is registered.
    pub open spec fn resolves_to(&self, name: PackageName, node: Option<usize>) -> bool {
        match node {
            Some(n) => exists|i: int|
                0 <= i < self.registry().len() && name_view(#[trigger] self.registry()[i].0)
                    == name_view(name) && self.registry()[i].1 == n,
            None => !self.is_registered(name),
        }
    }

    /// The node registered under `name`, if any.
    pub fn resolve(&self, name: &PackageName) -> (node: Option<usize>)
        ensures
            self.resolves_to(*name, node),
    {
        let node = find_name(&self.registered, name);
        proof {
            assert(self.registry() == self.registered@);
        }
        node
    }

    /// Registers `config` under its identifier in the current namespace,
    /// unless that name is registered already.
    pub fn register<E>(&mut self, config: Config<V, A>) -> (r: Result<usize, PlannerError<E>>)
        requires
            old(self).wf(),
        ensures
            final(self).wf(),
            final(self).current_namespace() == old(self).current_namespace(),
            ({
                let name = PackageName {
                    identifier: config.name.identifier,
                    namespace: config.name.namespace,
                };
                let scoped = (config.name.identifier@, lines_view(old(self).current_namespace()));
                match r {
                    Ok(node) => {
                        &&& !(exists|i: int| 0 <= i < old(self).registry().len() && name_view(
                            #[trigger] old(self).registry()[i].0,
                        ) == scoped)
                        &&& node == old(self).configs().len()
                        &&& final(self).configs().len() == old(self).configs().len() + 1
                        &&& final(self).configs().drop_last() == old(self).configs()
                        &&& name_view(final(self).configs().last().name) == scoped
                        &&& final(self).configs().last().current == config.current
                        &&& final(self).configs().last().apply == config.apply
                        &&& final(self).registry().len() == old(self).registry().len() + 1
                        &&& final(self).registry().drop_last() == old(self).registry()
                        &&& final(self).registry().last().1 == node
                    },
                    Err(error) => {
                        &&& exists|i: int| 0 <= i < old(self).registry().len() && name_view(
                            #[trigger] old(self).registry()[i].0,
                        ) == scoped
                        &&& error matches PlannerError::Conflict { package } && name_view(package)
                            == scoped
                        &&& final(self).configs() == old(self).configs()
                        &&& final(self).registry() == old(self).registry()
                    },
                }
            }),
    {
        let mut config = config;
        config.name.namespace = self.namespace.current();
        let ghost scoped = name_view(config.name);
        let mut conflict = false;
        let mut i: usize = 0;
        while i < self.registered.len()
            invariant
                i <= self.registry().len(),
                self.registry() == self.registered@,
                scoped == name_view(config.name),
                conflict <==> exists|j: int| 0 <= j < i && name_view(#[trigger] self.registry()[j].0) == scoped,
            decreases self.registry().len() - i,
        {
            if same_name(&self.registered[i].0, &config.name) {
                conflict = true;
            }
            i = i + 1;
        }
        if conflict {
            return Err(PlannerError::Conflict { package: config.name });
        }
        let node = self.configs.len();
        let name = copy_name(&config.name);
        self.configs.push(config);
        self.registered.push((name, node));
        proof {
            assert(self.configs@.drop_last() =~= old(self).configs@);
            assert(self.registered@.drop_last() =~= old(self).registered@);
            assert forall|a: int, b: int|
                0 <= a < self.registry().len() && 0 <= b < self.registry().len() && name_view(
                    #[trigger] self.registry()[a].0,
                ) == name_view(#[trigger] self.registry()[b].0) implies a == b by {
                if a < old(self).registry().len() && b < old(self).registry().len() {
                    assert(self.registry()[a] == old(self).registry()[a]);
                    assert(self.registry()[b] == old(self).registry()[b]);
                }
            }
            assert forall|a: int| 0 <= a < self.registry().len() implies (
            #[trigger] self.registry()[a]).1 < self.configs().len() && name_view(
                self.configs()[self.registry()[a].1 as int].name,
            ) == name_view(self.registry()[a].0) by {
                if a < old(self).registry().len() {
                    let e = old(self).registry()[a];
                    assert(self.registry()[a] == e);
                    assert(e.1 < old(self).configs().len());
                    assert(self.configs()[e.1 as int] == old(self).configs()[e.1 as int]);
                }
            }
        }
        Ok(node)
    }
}

impl<V: Clone, A: Clone> Planner<V, A> {
    /// Adds a configuration derived from configuration `source`: the value
    /// that `modify` makes of a clone of its value, the same apply function,
    /// and `identifier` in the current namespace. It is not registered by
    /// name. Nothing happens without a `source`; an error of `modify` adds
    /// nothing.
    pub fn configure<E, F: FnOnce(V) -> Result<V, E>>(&mut self, source: usize, identifier: String, modify: F) -> (r:
        Option<Result<usize, PlannerError<E>>>)
        requires
            old(self).wf(),
            forall|value: V| #[trigger] modify.requires((value,)),
        ensures
            final(self).wf(),
            final(self).registry() == old(self).registry(),
            final(self).current_namespace() == old(self).current_namespace(),
            source >= old(self).configs().len() ==> r.is_none() && final(self).configs() == old(
                self,
            ).configs(),
            source < old(self).configs().len() ==> exists|input: V, output: Result<V, E>|
                cloned::<V>(old(self).configs()[source as int].current, input) && #[trigger] modify.ensures(
                    (input,),
                    output,
                ) && match output {
                    Err(e) => r == Some(Err::<usize, PlannerError<E>>(PlannerError::BackendError(e)))
                        && final(self).configs() == old(self).configs(),
                    Ok(value) => {
                        &&& r == Some(Ok::<usize, PlannerError<E>>(old(self).configs().len() as usize))
                        &&& final(self).configs().len() == old(self).configs().len() + 1
                        &&& final(self).configs().drop_last() == old(self).configs()
                        &&& final(self).configs().last().current == value
                        &&& name_view(final(self).configs().last().name) == (identifier@, lines_view(
                            old(self).current_namespace(),
                        ))
                        &&& cloned::<A>(
                            old(self).configs()[source as int].apply,
                            final(self).configs().last().apply,
                        )
                    },
                },
    {
        if source >= self.configs.len() {
            return None;
        }
        let input = self.configs[source].current.clone();
        let ghost given = input;
        let output = modify(input);
        let ghost result = output;
        match output {
            Err(e) => Some(Err(PlannerError::BackendError(e))),
            Ok(value) => {
                let apply = self.configs[source].apply.clone();
                let name = PackageName { identifier, namespace: self.namespace.current() };
                let node = self.configs.len();
                self.configs.push(Config { name, current: value, apply });
                proof {
                    assert(self.configs@.drop_last() =~= old(self).configs@);
                    assert forall|a: int| 0 <= a < self.registry().len() implies (
                    #[trigger] self.registry()[a]).1 < self.configs().len() && name_view(
                        self.configs()[self.registry()[a].1 as int].name,
                    ) == name_view(self.registry()[a].0) by {
                        let e = old(self).registry()[a];
                        assert(self.registry()[a] == e);
                        assert(e.1 < old(self).configs().len());
                        assert(self.configs()[e.1 as int] == old(self).configs()[e.1 as int]);
                    }
                    assert forall|a: int, b: int|
                        0 <= a < self.registry().len() && 0 <= b < self.registry().len() && name_view(
                            #[trigger] self.registry()[a].0,
                        ) == name_view(#[trigger] self.registry()[b].0) implies a == b by {
                        assert(old(self).registry()[a] == self.registry()[a]);
                        assert(old(self).registry()[b] == self.registry()[b]);
                    }
                    assert(modify.ensures((given,), result));
                }
                Some(Ok(node))
            },
        }
    }
}

/// Whether `packages` is what `apply` can give, in order, for the first
/// configurations of `configs`.
pub open spec fn applied_prefix<V, A, R, E, F: Fn(&A, V) -> Result<Package<R>, E>>(
    apply: F,
    configs: Seq<Config<V, A>>,
    packages: Seq<Package<R>>,
) -> bool {
    &&& packages.len() <= configs.len()
    &&& forall|i: int|
        0 <= i < packages.len() ==> #[trigger] apply.ensures(
            (&configs[i].apply, configs[i].current),
            Ok::<Package<R>, E>(packages[i]),
        )
}

/// Whether `packages` is what `apply` can give for all of `configs`.
pub open spec fn applied<V, A, R, E, F: Fn(&A, V) -> Result<Package<R>, E>>(
    apply: F,
    configs: Seq<Config<V, A>>,
    packages: Seq<Package<R>>,
) -> bool {
    applied_prefix::<V, A, R, E, F>(apply, configs, packages) && packages.len() == configs.len()
}

/// `packages`, each under the name of its configuration.
pub open spec fn named<V, A, R>(configs: Seq<Config<V, A>>, packages: Seq<Package<R>>) -> Seq<Package<R>> {
    Seq::new(
        packages.len(),
        |i: int|
            Package {
                name: configs[i].name,
                requests: packages[i].requests,
                dependencies: packages[i].dependencies,
            },
    )
}

impl<V, A> Planner<V, A> {
    /// Turns each configuration, in order, into its package with `apply`
    /// on its value, named after the configuration, and freezes the
    /// packages into a plan (see [`crate::engine::graph::freeze`]); the
    /// first package that `apply` fails to give stops it with that error.
    pub fn freeze<R, E, F: Fn(&A, V) -> Result<Package<R>, E>>(self, apply: F) -> (r: Result<
        Frozen<R>,
        PlannerError<E>,
    >)
        requires
            self.configs().len() < u32::MAX,
            forall|i: int|
                0 <= i < self.configs().len() ==> #[trigger] apply.requires(
                    (&self.configs()[i].apply, self.configs()[i].current),
                ),
            forall|i: int, package: Package<R>|
                0 <= i < self.configs().len() && #[trigger] apply.ensures(
                    (&self.configs()[i].apply, self.configs()[i].current),
                    Ok::<Package<R>, E>(package),
                ) ==> forall|j: int|
                    0 <= j < package.dependencies@.len() ==> (#[trigger] package.dependencies@[j]).node
                        < self.configs().len(),
            forall|packages: Seq<Package<R>>|
                #[trigger] applied::<V, A, R, E, F>(apply, self.configs(), packages) ==> all_edges(packages).len()
                    + 1 < u32::MAX,
        ensures
            match r {
                Err(PlannerError::BackendError(e)) => exists|packages: Seq<Package<R>>|
                    #[trigger] applied_prefix::<V, A, R, E, F>(apply, self.configs(), packages)
                        && packages.len() < self.configs().len() && apply.ensures(
                        (&self.configs()[packages.len() as int].apply, self.configs()[packages.len() as int].current),
                        Err::<Package<R>, E>(e),
                    ),
                Err(error) => exists|packages: Seq<Package<R>>|
                    #[trigger] applied::<V, A, R, E, F>(apply, self.configs(), packages) && frozen_from(
                        named(self.configs(), packages),
                        Err::<Plan<R>, PlannerError<E>>(error),
                    ),
                Ok(frozen) => frozen.registry() == self.registry() && exists|packages: Seq<Package<R>>|
                    #[trigger] applied::<V, A, R, E, F>(apply, self.configs(), packages) && frozen_from(
                        named(self.configs(), packages),
                        Ok::<Plan<R>, PlannerError<E>>(frozen.plan()),
                    ),
            },
    {
        let ghost configs = self.configs();
        let registered = self.registered;
        let mut list = self.configs;
        let n = list.len();
        let mut packages: Vec<Package<R>> = Vec::new();
        let ghost mut raw: Seq<Package<R>> = Seq::empty();
        let mut i: usize = 0;
        while i < n
            invariant
                configs == self.configs(),
                n == configs.len(),
                i <= n,
                list@ == configs.subrange(i as int, n as int),
                raw.len() == i,
                applied_prefix::<V, A, R, E, F>(apply, configs, raw),
                packages@ == named(configs, raw),
                forall|k: int| 0 <= k < n ==> #[trigger] apply.requires((&configs[k].apply, configs[k].current)),
            decreases n - i,
        {
            let config = list.remove(0);
            proof {
                assert(config == configs[i as int]);
                assert(list@ =~= configs.subrange(i as int + 1, n as int));
            }
            match apply(&config.apply, config.current) {
                Err(e) => {
                    proof {
                        assert(apply.ensures(
                            (&configs[raw.len() as int].apply, configs[raw.len() as int].current),
                            Err::<Package<R>, E>(e),
                        ));
                        assert(applied_prefix::<V, A, R, E, F>(apply, configs, raw));
                    }
                    return Err(PlannerError::BackendError(e));
                },
                Ok(package) => {
                    proof {
                        raw = raw.push(package);
                    }
                    packages.push(
                        Package {
                            name: config.name,
                            requests: package.requests,
                            dependencies: package.dependencies,
                        },
                    );
                    proof {
                        assert(packages@ =~= named(configs, raw));
                    }
                },
            }
            i = i + 1;
        }
        proof {
            assert(applied::<V, A, R, E, F>(apply, configs, raw));
            lemma_all_edges_same_dependencies(packages@, raw);
            assert forall|x: int, j: int|
                0 <= x < packages@.len() && 0 <= j < packages@[x].dependencies@.len() implies (
                #[trigger] packages@[x].dependencies@[j]).node < packages@.len() by {
                assert(apply.ensures((&configs[x].apply, configs[x].current), Ok::<Package<R>, E>(raw[x])));
            }
        }
        match crate::engine::graph::freeze(packages) {
            Ok(plan) => Ok(Frozen { plan, registered }),
            Err(error) => Err(error),
        }
    }
}

/// A frozen planner: the plan, and the names registered before it froze.
pub struct Frozen<R> {
    plan: Plan<R>,
    registered: Vec<(PackageName, usize)>,
}

impl<R> Frozen<R> {
    /// The plan.
    pub closed spec fn plan(&self) -> Plan<R> {
        self.plan
    }

    /// The registered names and their nodes, in registration order.
    pub closed spec fn registry(&self) -> Seq<(PackageName, usize)> {
        self.registered@
    }

    /// The plan.
    pub fn graph(&self) -> (plan: &Plan<R>)
        ensures
            *plan == self.plan(),
    {
        &self.plan
    }

    /// The plan, without the names.
    pub fn into_graph(self) -> (plan: Plan<R>)
        ensures
            plan == self.plan(),
    {
        self.plan
    }

    /// The node registered under `name`, if any.
    pub fn resolve(&self, name: &PackageName) -> (node: Option<usize>)
        ensures
            match node {
                Some(n) => exists|i: int|
                    0 <= i < self.registry().len() && name_view(#[trigger] self.registry()[i].0)
                        == name_view(*name) && self.registry()[i].1 == n,
                None => forall|i: int|
                    0 <= i < self.registry().len() ==> name_view(#[trigger] self.registry()[i].0)
                        != name_view(*name),
            },
    {
        let node = find_name(&self.registered, name);
        proof {
            assert(self.registry() == self.registered@);
        }
        node
    }
}

impl<V> Frozen<DispatchRequest<V>> {
    /// The closures of `node`'s dependencies (see [`Plan::closure`]): both
    /// empty.
    pub fn closure(&self, node: usize) -> (closure: Option<DependencyClosure>)
        requires
            node < self.plan().packages().len(),
        ensures
            closure matches Some(c) && c.runtime@.len() == 0 && c.buildtime@.len() == 0,
    {
        self.plan.closure(node)
    }

    /// The identity of `node` (see [`Plan::identity`]).
    pub fn identity<E, H: Fn(&V) -> Result<Vec<u8>, E>>(&self, node: usize, hash_payload: H) -> (r: Option<
        Result<PackageId, E>,
    >)
        requires
            node < self.plan().packages().len(),
            forall|payload: &V| #[trigger] hash_payload.requires((payload,)),
        ensures
            match r {
                Some(Ok(id)) => exists|payloads: Seq<Vec<u8>>|
                    #[trigger] payloads_written::<V, E, H>(
                        hash_payload,
                        self.plan().packages()[node as int].requests@,
                        payloads,
                    ) && payloads.len() == self.plan().packages()[node as int].requests@.len() && id@
                        == blake3_digest(
                        identity_input(
                            self.plan().packages()[node as int].name,
                            self.plan().packages()[node as int].requests@,
                            payloads,
                        ),
                    ),
                Some(Err(e)) => exists|payloads: Seq<Vec<u8>>|
                    #[trigger] payloads_written::<V, E, H>(
                        hash_payload,
                        self.plan().packages()[node as int].requests@,
                        payloads,
                    ) && payloads.len() < self.plan().packages()[node as int].requests@.len()
                        && hash_payload.ensures(
                        (&self.plan().packages()[node as int].requests@[payloads.len() as int].payload,),
                        Err::<Vec<u8>, E>(e),
                    ),
                None => false,
            },
    {
        self.plan.identity(node, hash_payload)
    }
}

} // verus!
