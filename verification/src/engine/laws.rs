//! What holds of the engine's text forms and scheduling across operations.
use vstd::prelude::*;

use crate::engine::graph::{acyclic, frozen_from, lemma_no_closing_edge_acyclic, Plan};
use crate::engine::planner::{name_view, Planner, PlannerError};
use crate::engine::sandbox::{flagged, sandbox_arguments, setenv_flags, CommandRequest, Options};
use crate::reports::render::lines_view;
use crate::engine::scheduler::{closure_of, leads_to_unbuilt, runtime_of, PackageState, Scheduler};
use crate::engine::package::{
    join_with, link_time_text, name_text, parsed_identifier, parsed_namespace, pieces, LinkTime, Package,
    PackageName,
};

verus! {

broadcast use vstd::seq_lib::group_seq_properties;

/// Each link time has its own text, `runtime` or `buildtime`: parsing the
/// text of a link time gives it back.
pub proof fn law_link_time_text(time: LinkTime)
    ensures
        time == LinkTime::Runtime <==> link_time_text(time) == "runtime"@,
        time == LinkTime::Buildtime <==> link_time_text(time) == "buildtime"@,
{
    reveal_strlit("runtime");
    reveal_strlit("buildtime");
    assert("runtime"@.len() != "buildtime"@.len());
}

proof fn lemma_pieces_nonempty(text: Seq<char>, sep: char)
    ensures
        pieces(text, sep).len() >= 1,
    decreases text.len(),
{
    if text.len() > 0 {
        lemma_pieces_nonempty(text.drop_last(), sep);
    }
}

proof fn lemma_join_pieces(text: Seq<char>, sep: char)
    ensures
        join_with(pieces(text, sep), sep) == text,
    decreases text.len(),
{
    if text.len() > 0 {
        let t = text.drop_last();
        let c = text.last();
        lemma_join_pieces(t, sep);
        lemma_pieces_nonempty(t, sep);
        let p = pieces(t, sep);
        if c == sep {
            assert(pieces(text, sep).drop_last() =~= p);
            assert(text =~= t + seq![sep]);
        } else {
            let q = pieces(text, sep);
            if p.len() == 1 {
                assert(q =~= seq![p[0].push(c)]);
                assert(text =~= t.push(c));
            } else {
                assert(text =~= t.push(c));
                assert(q.last() == p.last().push(c));
                assert(q.drop_last() =~= p.drop_last());
                assert(join_with(q, sep) == join_with(q.drop_last(), sep) + seq![sep] + q.last());
                assert(join_with(p, sep) == join_with(p.drop_last(), sep) + seq![sep] + p.last());
                assert(text =~= join_with(p.drop_last(), sep) + seq![sep] + p.last().push(c));
            }
        }
    } else {
        assert(pieces(text, sep) =~= seq![Seq::<char>::empty()]);
        assert(text =~= Seq::<char>::empty());
    }
}

proof fn lemma_pieces_append_plain(x: Seq<char>, y: Seq<char>, sep: char)
    requires
        forall|j: int| 0 <= j < y.len() ==> y[j] != sep,
    ensures
        pieces(x + y, sep) == pieces(x, sep).update(
            pieces(x, sep).len() - 1,
            pieces(x, sep).last() + y,
        ),
    decreases y.len(),
{
    lemma_pieces_nonempty(x, sep);
    if y.len() == 0 {
        assert(x + y =~= x);
        assert(pieces(x, sep).last() + y =~= pieces(x, sep).last());
        assert(pieces(x, sep).update(pieces(x, sep).len() - 1, pieces(x, sep).last())
            =~= pieces(x, sep));
    } else {
        let z = y.drop_last();
        assert forall|j: int| 0 <= j < z.len() implies z[j] != sep by {
            assert(z[j] == y[j]);
        }
        lemma_pieces_append_plain(x, z, sep);
        assert((x + y).drop_last() =~= x + z);
        assert((x + y).last() == y[y.len() - 1]);
        lemma_pieces_nonempty(x + z, sep);
        let p = pieces(x + z, sep);
        let px = pieces(x, sep);
        assert(p.len() == px.len());
        assert(p.last() == px.last() + z);
        assert(y[y.len() - 1] != sep);
        assert((px.last() + z).push(y.last()) =~= px.last() + y);
        assert(pieces(x + y, sep) =~= pieces(x, sep).update(
            pieces(x, sep).len() - 1,
            pieces(x, sep).last() + y,
        ));
    }
}

proof fn lemma_pieces_join(parts: Seq<Seq<char>>, sep: char)
    requires
        parts.len() >= 1,
        forall|k: int, j: int|
            0 <= k < parts.len() && 0 <= j < parts[k].len() ==> #[trigger] parts[k][j] != sep,
    ensures
        pieces(join_with(parts, sep), sep) == parts,
    decreases parts.len(),
{
    if parts.len() == 1 {
        let only = parts[0];
        lemma_pieces_append_plain(Seq::<char>::empty(), only, sep);
        assert(Seq::<char>::empty() + only =~= only);
        assert(pieces(Seq::<char>::empty(), sep) =~= seq![Seq::<char>::empty()]);
        assert(Seq::<char>::empty() + only =~= only);
        assert(parts =~= seq![only]);
    } else {
        let rest = parts.drop_last();
        assert forall|k: int, j: int|
            0 <= k < rest.len() && 0 <= j < rest[k].len() implies #[trigger] rest[k][j] != sep by {
            assert(rest[k] == parts[k]);
        }
        lemma_pieces_join(rest, sep);
        let head = join_with(rest, sep) + seq![sep];
        assert(head.drop_last() =~= join_with(rest, sep));
        assert(head.last() == sep);
        assert(pieces(head, sep) == rest.push(Seq::<char>::empty()));
        let last = parts.last();
        assert forall|j: int| 0 <= j < last.len() implies last[j] != sep by {
            assert(parts[parts.len() - 1][j] != sep);
        }
        lemma_pieces_append_plain(head, last, sep);
        assert(Seq::<char>::empty() + last =~= last);
        assert(rest.push(Seq::<char>::empty()).update(rest.len() as int, last) =~= parts);
    }
}

proof fn lemma_single_piece(text: Seq<char>, sep: char)
    requires
        forall|j: int| 0 <= j < text.len() ==> text[j] != sep,
    ensures
        pieces(text, sep) == seq![text],
{
    lemma_pieces_append_plain(Seq::<char>::empty(), text, sep);
    assert(Seq::<char>::empty() + text =~= text);
    assert(pieces(Seq::<char>::empty(), sep) =~= seq![Seq::<char>::empty()]);
    assert(seq![Seq::<char>::empty()].update(0, Seq::<char>::empty() + text) =~= seq![text]);
}

proof fn lemma_first_piece(text: Seq<char>, sep: char, i: int)
    requires
        0 <= i < text.len(),
        text[i] == sep,
        forall|j: int| 0 <= j < i ==> text[j] != sep,
    ensures
        pieces(text, sep)[0] == text.take(i),
    decreases text.len(),
{
    let t = text.drop_last();
    lemma_pieces_nonempty(t, sep);
    if text.len() == i + 1 {
        assert forall|j: int| 0 <= j < t.len() implies t[j] != sep by {
            assert(t[j] == text[j]);
        }
        lemma_single_piece(t, sep);
        assert(text.last() == text[i]);
        assert(t =~= text.take(i));
    } else {
        assert(t[i] == text[i]);
        assert forall|j: int| 0 <= j < i implies t[j] != sep by {
            assert(t[j] == text[j]);
        }
        lemma_first_piece(t, sep, i);
        lemma_two_pieces(t, sep, i);
        assert(t.take(i) =~= text.take(i));
    }
}

proof fn lemma_two_pieces(text: Seq<char>, sep: char, i: int)
    requires
        0 <= i < text.len(),
        text[i] == sep,
    ensures
        pieces(text, sep).len() >= 2,
    decreases text.len(),
{
    let t = text.drop_last();
    lemma_pieces_nonempty(t, sep);
    if i < text.len() - 1 {
        assert(t[i] == text[i]);
        lemma_two_pieces(t, sep, i);
    } else {
        assert(text.last() == text[i]);
    }
}

proof fn lemma_first_occurrence(text: Seq<char>, c: char) -> (i: int)
    requires
        text.contains(c),
    ensures
        0 <= i < text.len(),
        text[i] == c,
        forall|j: int| 0 <= j < i ==> text[j] != c,
    decreases text.len(),
{
    if text[0] == c {
        0
    } else {
        let rest = text.subrange(1, text.len() as int);
        let k = choose|k: int| 0 <= k < text.len() && text[k] == c;
        assert(rest[k - 1] == c);
        let i = lemma_first_occurrence(rest, c);
        assert forall|j: int| 0 <= j < i + 1 implies text[j] != c by {
            if j > 0 {
                assert(text[j] == rest[j - 1]);
            }
        }
        i + 1
    }
}

/// Parsing the text of a package name gives the name back, when its
/// identifier has no `@`, its namespace has a segment, and no segment has a
/// `/`.
pub proof fn law_name_roundtrip(identifier: Seq<char>, namespace: Seq<Seq<char>>)
    requires
        forall|j: int| 0 <= j < identifier.len() ==> identifier[j] != '@',
        namespace.len() >= 1,
        forall|k: int, j: int|
            0 <= k < namespace.len() && 0 <= j < namespace[k].len() ==> #[trigger] namespace[k][j]
                != '/',
    ensures
        parsed_identifier(name_text(identifier, namespace)) == identifier,
        parsed_namespace(name_text(identifier, namespace)) == namespace,
{
    let text = name_text(identifier, namespace);
    let rest = join_with(namespace, '/');
    assert(text == identifier + seq!['@'] + rest);
    let i = identifier.len() as int;
    assert(text[i] == '@');
    assert forall|j: int| 0 <= j < i implies text[j] != '@' by {
        assert(text[j] == identifier[j]);
    }
    lemma_first_piece(text, '@', i);
    assert(text.take(i) =~= identifier);
    assert(text.subrange(i + 1, text.len() as int) =~= rest);
    lemma_pieces_join(namespace, '/');
}

/// Writing a parsed name gives the text back when it has an `@`, and the
/// text followed by `@` otherwise (its namespace is one empty segment).
pub proof fn law_text_roundtrip(text: Seq<char>)
    ensures
        name_text(parsed_identifier(text), parsed_namespace(text)) == (if text.contains('@') {
            text
        } else {
            text + seq!['@']
        }),
{
    if text.contains('@') {
        let i = lemma_first_occurrence(text, '@');
        lemma_first_piece(text, '@', i);
        let identifier = parsed_identifier(text);
        assert(identifier =~= text.take(i));
        let rest = text.subrange(i + 1, text.len() as int);
        lemma_pieces_nonempty(rest, '/');
        lemma_join_pieces(rest, '/');
        assert(text =~= text.take(i) + seq!['@'] + rest);
    } else {
        assert forall|j: int| 0 <= j < text.len() implies text[j] != '@' by {
            if text[j] == '@' {
                assert(text.contains('@'));
            }
        }
        lemma_single_piece(text, '@');
        assert(pieces(Seq::<char>::empty(), '/') =~= seq![Seq::<char>::empty()]);
        assert(join_with(seq![Seq::<char>::empty()], '/') =~= Seq::<char>::empty());
        assert(text + seq!['@'] + Seq::<char>::empty() =~= text + seq!['@']);
    }
}

/// A package handed out to be built, or built, has every dependency built:
/// no package is built before what it links against.
pub proof fn law_built_after_dependencies<P>(scheduler: &Scheduler<P>, x: int, j: int)
    requires
        scheduler.frame_wf(),
        0 <= x < scheduler.size(),
        !(scheduler.states()[x] is Unbuilt),
        0 <= j < scheduler.deps()[x]@.len(),
    ensures
        scheduler.states()[scheduler.deps()[x]@[j].0 as int] is Built,
{
    let edges = scheduler.deps()[x]@;
    if !(scheduler.states()[edges[j].0 as int] is Built) {
        edges.lemma_filter_contains(leads_to_unbuilt(scheduler.states()), j);
    }
}

/// An unbuilt package waits for nothing only when every dependency is
/// built: it is never handed out early.
pub proof fn law_ready_when_dependencies_built<P>(scheduler: &Scheduler<P>, x: int, j: int)
    requires
        scheduler.wf(),
        0 <= x < scheduler.size(),
        scheduler.states()[x] matches PackageState::Unbuilt { remaining, .. } && remaining == 0,
        0 <= j < scheduler.deps()[x]@.len(),
    ensures
        scheduler.states()[scheduler.deps()[x]@[j].0 as int] is Built,
{
    let edges = scheduler.deps()[x]@;
    if !(scheduler.states()[edges[j].0 as int] is Built) {
        edges.lemma_filter_contains(leads_to_unbuilt(scheduler.states()), j);
    }
}

/// Resolving a registered name finds the node it was registered under (as
/// `register` records it, last in the registry): in a well-formed planner,
/// every result that resolving a name of the same text may give is that node.
pub proof fn law_register_then_resolve<V, A>(
    planner: &Planner<V, A>,
    i: int,
    query: PackageName,
    found: Option<usize>,
)
    requires
        planner.wf(),
        0 <= i < planner.registry().len(),
        name_view(planner.registry()[i].0) == name_view(query),
        planner.resolves_to(query, found),
    ensures
        found == Some(planner.registry()[i].1),
{
    match found {
        Some(n) => {
            let k = choose|k: int|
                0 <= k < planner.registry().len() && name_view(#[trigger] planner.registry()[k].0)
                    == name_view(query) && planner.registry()[k].1 == n;
            assert(name_view(planner.registry()[k].0) == name_view(planner.registry()[i].0));
        },
        None => {
            assert(planner.is_registered(query));
        },
    }
}

/// Package `u` has a dependency edge to package `v`.
pub open spec fn depends_on<P>(scheduler: &Scheduler<P>, u: usize, v: usize) -> bool {
    exists|j: int|
        0 <= j < scheduler.deps()[u as int]@.len() && (#[trigger] scheduler.deps()[u as int]@[j]).0 == v
}

/// Each package of `path` has a dependency edge to the next one.
pub open spec fn dependency_path<P>(scheduler: &Scheduler<P>, path: Seq<usize>) -> bool
    decreases path.len(),
{
    path.len() >= 1 && (path.len() == 1 || (depends_on(scheduler, path[0], path[1])
        && dependency_path(scheduler, path.drop_first())))
}

/// A package that depends, through any chain of dependency edges, on a
/// package that is not built is itself unbuilt: nothing that depends on a
/// failed (or unfinished) build is handed out or built.
pub proof fn law_failure_contained<P>(scheduler: &Scheduler<P>, path: Seq<usize>)
    requires
        scheduler.frame_wf(),
        path.len() >= 2,
        forall|i: int| 0 <= i < path.len() ==> #[trigger] path[i] < scheduler.size(),
        dependency_path(scheduler, path),
        !(scheduler.states()[path.last() as int] is Built),
    ensures
        scheduler.states()[path[0] as int] is Unbuilt,
    decreases path.len(),
{
    let rest = path.drop_first();
    if rest.len() >= 2 {
        assert forall|i: int| 0 <= i < rest.len() implies #[trigger] rest[i] < scheduler.size() by {
            assert(rest[i] == path[i + 1]);
        }
        assert(rest.last() == path.last());
        law_failure_contained(scheduler, rest);
    } else {
        assert(path[1] == path.last());
    }
    assert(rest[0] == path[1]);
    let u = path[0];
    let j = choose|j: int|
        0 <= j < scheduler.deps()[u as int]@.len() && (#[trigger] scheduler.deps()[u as int]@[j]).0
            == path[1];
    if !(scheduler.states()[u as int] is Unbuilt) {
        law_built_after_dependencies(scheduler, u as int, j);
    }
}

/// A frozen plan has no cycle: no dependency edge can be followed back,
/// along the plan's edges, to the package it leaves.
pub proof fn law_frozen_plan_acyclic<R, E>(packages: Seq<Package<R>>, plan: Plan<R>)
    requires
        frozen_from(packages, Ok::<Plan<R>, PlannerError<E>>(plan)),
    ensures
        acyclic(plan.edges()),
{
    lemma_no_closing_edge_acyclic(plan.edges());
}

/// Every sandboxed command runs in a new session, with a cleared
/// environment and every namespace unshared: `bwrap` always gets
/// `--new-session`, `--clearenv` and `--unshare-all`, ahead of what the
/// options and the request add.
pub proof fn law_sandbox_isolated(environment: Seq<char>, options: Options, request: CommandRequest)
    ensures
        sandbox_arguments(environment, options, request).len() > 13,
        sandbox_arguments(environment, options, request)[10] == "--new-session"@,
        sandbox_arguments(environment, options, request)[12] == "--clearenv"@,
        sandbox_arguments(environment, options, request)[13] == "--unshare-all"@,
{
}

proof fn lemma_flagged(flag: Seq<char>, values: Seq<String>)
    ensures
        flagged(flag, values).len() == 2 * values.len(),
        forall|k: int|
            0 <= k < values.len() ==> #[trigger] flagged(flag, values)[2 * k] == flag && flagged(flag, values)[2
                * k + 1] == values[k]@,
    decreases values.len(),
{
    if values.len() > 0 {
        let init = values.drop_last();
        lemma_flagged(flag, init);
        assert forall|k: int| 0 <= k < values.len() implies #[trigger] flagged(flag, values)[2 * k] == flag
            && flagged(flag, values)[2 * k + 1] == values[k]@ by {
            if k < init.len() {
                assert(init[k] == values[k]);
            }
        }
    }
}

/// The capabilities reach `bwrap` as asked: right after the fixed
/// arguments, each capability to add follows its own `--cap-add`, then each
/// capability to drop follows its own `--cap-drop`, in the order given; no
/// capability to drop is ever passed after `--cap-add`.
pub proof fn law_capabilities_as_asked(environment: Seq<char>, options: Options, request: CommandRequest)
    ensures
        ({
            let args = sandbox_arguments(environment, options, request);
            let adds = options.add_capabilities@;
            let drops = options.drop_capabilities@;
            &&& args.len() >= 14 + 2 * adds.len() + 2 * drops.len()
            &&& forall|k: int|
                0 <= k < adds.len() ==> args[14 + 2 * k] == "--cap-add"@ && #[trigger] args[15 + 2 * k]
                    == adds[k]@
            &&& forall|k: int|
                0 <= k < drops.len() ==> args[14 + 2 * adds.len() + 2 * k] == "--cap-drop"@
                    && #[trigger] args[15 + 2 * adds.len() + 2 * k] == drops[k]@
        }),
{
    let args = sandbox_arguments(environment, options, request);
    let adds = options.add_capabilities@;
    let drops = options.drop_capabilities@;
    let fixed = seq![
        "--bind"@,
        environment,
        "/"@,
        "--ro-bind"@,
        "busybox-bootstrap"@,
        "/busybox"@,
        "--proc"@,
        "/proc"@,
        "--dev"@,
        "/dev"@,
        "--new-session"@,
        "--die-with-parent"@,
        "--clearenv"@,
        "--unshare-all"@,
    ];
    lemma_flagged("--cap-add"@, adds);
    lemma_flagged("--cap-drop"@, drops);
    let a = flagged("--cap-add"@, adds);
    let d = flagged("--cap-drop"@, drops);
    assert(fixed.len() == 14);
    assert forall|k: int| 0 <= k < adds.len() implies args[14 + 2 * k] == "--cap-add"@ && #[trigger] args[15 + 2
        * k] == adds[k]@ by {
        assert(args[14 + 2 * k] == a[2 * k]);
        assert(args[15 + 2 * k] == a[2 * k + 1]);
    }
    assert forall|k: int| 0 <= k < drops.len() implies args[14 + 2 * adds.len() + 2 * k] == "--cap-drop"@
        && #[trigger] args[15 + 2 * adds.len() + 2 * k] == drops[k]@ by {
        assert(args[14 + 2 * adds.len() + 2 * k] == d[2 * k]);
        assert(args[15 + 2 * adds.len() + 2 * k] == d[2 * k + 1]);
    }
}

/// How many nodes the closure of the `time` edges among `edges` lists: for
/// each such edge, its dependency's run-time closure and the dependency.
pub open spec fn closure_size<P>(edges: Seq<(usize, LinkTime)>, states: Seq<PackageState<P>>, time: LinkTime) -> nat
    decreases edges.len(),
{
    if edges.len() == 0 {
        0
    } else {
        closure_size(edges.drop_last(), states, time) + if edges.last().1 == time {
            runtime_of(states[edges.last().0 as int]).len() + 1
        } else {
            0
        }
    }
}

/// A closure of the `time` edges holds exactly the dependencies reached by
/// such an edge and everything in their own run-time closures. Edge by
/// edge, in order, each such edge adds one block, its dependency's run-time
/// closure followed by the dependency, right after the blocks of the edges
/// before it; nothing else is listed.
pub proof fn law_closure_holds_dependencies<P>(
    edges: Seq<(usize, LinkTime)>,
    states: Seq<PackageState<P>>,
    time: LinkTime,
    x: usize,
    j: int,
)
    ensures
        closure_of(edges, states, time).contains(x) <==> exists|i: int|
            0 <= i < edges.len() && (#[trigger] edges[i]).1 == time && (edges[i].0 == x || runtime_of(
                states[edges[i].0 as int],
            ).contains(x)),
        closure_of(edges, states, time).len() == closure_size(edges, states, time),
        0 <= j < edges.len() && edges[j].1 == time ==> closure_of(edges, states, time).subrange(
            closure_size(edges.take(j), states, time) as int,
            (closure_size(edges.take(j), states, time) + runtime_of(states[edges[j].0 as int]).len() + 1) as int,
        ) == runtime_of(states[edges[j].0 as int]) + seq![edges[j].0],
    decreases edges.len(),
{
    if edges.len() > 0 {
        let init = edges.drop_last();
        let e = edges.last();
        law_closure_holds_dependencies(init, states, time, x, j);
        let rest = closure_of(init, states, time);
        let block = runtime_of(states[e.0 as int]) + seq![e.0];
        if e.1 == time {
            assert(closure_of(edges, states, time) == rest + block);
        } else {
            assert(closure_of(edges, states, time) == rest);
        }
        let c = closure_of(edges, states, time);
        if c.contains(x) {
            if e.1 == time && !rest.contains(x) {
                let q = choose|q: int| 0 <= q < c.len() && c[q] == x;
                assert(q >= rest.len());
                let r = runtime_of(states[e.0 as int]);
                if q - rest.len() < r.len() {
                    assert(r[q - rest.len()] == x);
                }
                assert(edges[edges.len() - 1] == e);
            } else {
                let q = choose|q: int| 0 <= q < rest.len() && rest[q] == x;
                assert(c[q] == x);
                let i = choose|i: int|
                    0 <= i < init.len() && (#[trigger] init[i]).1 == time && (init[i].0 == x || runtime_of(
                        states[init[i].0 as int],
                    ).contains(x));
                assert(edges[i] == init[i]);
            }
        }
        if exists|i: int|
            0 <= i < edges.len() && (#[trigger] edges[i]).1 == time && (edges[i].0 == x || runtime_of(
                states[edges[i].0 as int],
            ).contains(x)) {
            let i = choose|i: int|
                0 <= i < edges.len() && (#[trigger] edges[i]).1 == time && (edges[i].0 == x || runtime_of(
                    states[edges[i].0 as int],
                ).contains(x));
            if i < init.len() {
                assert(init[i] == edges[i]);
                let q = choose|q: int| 0 <= q < rest.len() && rest[q] == x;
                assert(c[q] == x);
            } else {
                let r = runtime_of(states[e.0 as int]);
                if e.0 == x {
                    assert(c[(rest.len() + r.len()) as int] == x);
                } else {
                    let q = choose|q: int| 0 <= q < r.len() && r[q] == x;
                    assert(c[rest.len() + q] == x);
                }
            }
        }
        if 0 <= j < edges.len() && edges[j].1 == time {
            if j < init.len() {
                assert(init[j] == edges[j]);
                assert(init.take(j) =~= edges.take(j));
                let lo = closure_size(edges.take(j), states, time) as int;
                let hi = lo + runtime_of(states[edges[j].0 as int]).len() + 1;
                lemma_closure_size_prefix(init, states, time, j);
                assert(c.subrange(lo, hi) =~= rest.subrange(lo, hi));
            } else {
                assert(edges[j] == e);
                assert(edges.take(j) =~= init);
                assert(c.subrange(rest.len() as int, (rest.len() + block.len()) as int) =~= block);
            }
        }
    } else {
        assert(closure_of(edges, states, time).len() == 0);
    }
}

/// The blocks of the edges up to and including the one at `j` fit in all.
proof fn lemma_closure_size_prefix<P>(
    edges: Seq<(usize, LinkTime)>,
    states: Seq<PackageState<P>>,
    time: LinkTime,
    j: int,
)
    requires
        0 <= j < edges.len(),
        edges[j].1 == time,
    ensures
        closure_size(edges.take(j), states, time) + runtime_of(states[edges[j].0 as int]).len() + 1 <= closure_size(
            edges,
            states,
            time,
        ),
    decreases edges.len(),
{
    if j < edges.len() - 1 {
        let init = edges.drop_last();
        assert(init[j] == edges[j]);
        lemma_closure_size_prefix(init, states, time, j);
        assert(init.take(j) =~= edges.take(j));
    } else {
        assert(edges.take(j) =~= edges.drop_last());
    }
}

proof fn lemma_setenv_len(environment: Seq<(String, String)>)
    ensures
        setenv_flags(environment).len() == 3 * environment.len(),
    decreases environment.len(),
{
    if environment.len() > 0 {
        lemma_setenv_len(environment.drop_last());
    }
}

/// The variable at `k` is set by the three words from `3 * k` on.
proof fn lemma_setenv_at(environment: Seq<(String, String)>, k: int)
    requires
        0 <= k < environment.len(),
    ensures
        setenv_flags(environment)[3 * k] == "--setenv"@,
        setenv_flags(environment)[3 * k + 1] == environment[k].0@,
        setenv_flags(environment)[3 * k + 2] == environment[k].1@,
    decreases environment.len(),
{
    let init = environment.drop_last();
    let last = environment.last();
    lemma_setenv_len(init);
    let whole = setenv_flags(environment);
    let front = setenv_flags(init);
    assert(whole == front + seq!["--setenv"@, last.0@, last.1@]);
    if k < init.len() {
        lemma_setenv_at(init, k);
        assert(init[k] == environment[k]);
        assert(whole[3 * k] == front[3 * k]);
        assert(whole[3 * k + 1] == front[3 * k + 1]);
        assert(whole[3 * k + 2] == front[3 * k + 2]);
    } else {
        assert(environment[k] == last);
    }
}

/// The `bwrap` command line: the environment bound as the root, the
/// bootstrap tools, `/proc` and `/dev`, and the restrictions first; after
/// the capabilities: `--share-net` exactly when the network is allowed, then
/// `--chdir dir` for a working directory, then `--setenv key value` for each
/// variable in order, then `--`, the program and its arguments, which end
/// the line.
pub proof fn law_command_after_capabilities(environment: Seq<char>, options: Options, request: CommandRequest)
    ensures
        ({
            let args = sandbox_arguments(environment, options, request);
            let p0: int = (14 + 2 * options.add_capabilities@.len() + 2 * options.drop_capabilities@.len()) as int;
            let p1: int = if options.network {
                p0 + 1
            } else {
                p0
            };
            let p2: int = match request.working_dir {
                Some(_) => p1 + 2,
                None => p1,
            };
            let env = request.environment@;
            let p3: int = p2 + 3 * env.len();
            let rest = request.arguments@;
            &&& args.subrange(0, 14) == seq![
                "--bind"@,
                environment,
                "/"@,
                "--ro-bind"@,
                "busybox-bootstrap"@,
                "/busybox"@,
                "--proc"@,
                "/proc"@,
                "--dev"@,
                "/dev"@,
                "--new-session"@,
                "--die-with-parent"@,
                "--clearenv"@,
                "--unshare-all"@,
            ]
            &&& args.len() == p3 + 2 + rest.len()
            &&& options.network ==> args[p0] == "--share-net"@
            &&& (request.working_dir matches Some(dir) ==> args[p1] == "--chdir"@ && args[p1 + 1] == dir@)
            &&& forall|k: int|
                #![trigger env[k]]
                #![trigger args[p2 + 3 * k]]
                0 <= k < env.len() ==> args[p2 + 3 * k] == "--setenv"@ && args[p2 + 3 * k + 1] == env[k].0@
                    && args[p2 + 3 * k + 2] == env[k].1@
            &&& args[p3] == "--"@
            &&& args[p3 + 1] == request.program@
            &&& forall|k: int| 0 <= k < rest.len() ==> #[trigger] args[p3 + 2 + k] == rest[k]@
        }),
{
    let args = sandbox_arguments(environment, options, request);
    let adds = options.add_capabilities@;
    let drops = options.drop_capabilities@;
    lemma_flagged("--cap-add"@, adds);
    lemma_flagged("--cap-drop"@, drops);
    let env = request.environment@;
    reveal_strlit("--setenv");
    lemma_setenv_len(env);
    let fixed = seq![
        "--bind"@,
        environment,
        "/"@,
        "--ro-bind"@,
        "busybox-bootstrap"@,
        "/busybox"@,
        "--proc"@,
        "/proc"@,
        "--dev"@,
        "/dev"@,
        "--new-session"@,
        "--die-with-parent"@,
        "--clearenv"@,
        "--unshare-all"@,
    ];
    let net: Seq<Seq<char>> = if options.network {
        seq!["--share-net"@]
    } else {
        Seq::empty()
    };
    let dir: Seq<Seq<char>> = match request.working_dir {
        Some(d) => seq!["--chdir"@, d@],
        None => Seq::empty(),
    };
    let head = fixed + flagged("--cap-add"@, adds) + flagged("--cap-drop"@, drops);
    let sets = setenv_flags(env);
    let tail = seq!["--"@, request.program@] + lines_view(request.arguments@);
    assert(args == head + net + dir + sets + tail);
    let p0 = head.len() as int;
    let p1 = p0 + net.len();
    let p2 = p1 + dir.len();
    let p3 = p2 + sets.len();
    assert(args.subrange(0, 14) =~= fixed);
    assert(p0 == (14 + 2 * options.add_capabilities@.len() + 2 * options.drop_capabilities@.len()) as int);
    assert(p1 == if options.network {
        p0 + 1
    } else {
        p0
    });
    assert(p2 == match request.working_dir {
        Some(_) => p1 + 2,
        None => p1,
    });
    assert(p3 == p2 + 3 * env.len());
    assert forall|k: int| #![trigger env[k]] #![trigger args[p2 + 3 * k]] 0 <= k < env.len() implies args[p2 + 3 * k] == "--setenv"@ && args[p2
        + 3 * k + 1] == env[k].0@ && args[p2 + 3 * k + 2] == env[k].1@ by {
        lemma_setenv_at(env, k);
        assert(args[p2 + 3 * k] == sets[3 * k]);
        assert(args[p2 + 3 * k] == "--setenv"@);
        assert(args[p2 + 3 * k + 1] == sets[3 * k + 1]);
        assert(args[p2 + 3 * k + 2] == sets[3 * k + 2]);
    }
    assert forall|k: int| 0 <= k < request.arguments@.len() implies #[trigger] args[p3 + 2 + k]
        == request.arguments@[k]@ by {
        assert(args[p3 + 2 + k] == tail[2 + k]);
    }
}

} // verus!
