use xuehua::engine::graph::freeze;
use xuehua::engine::package::DispatchRequest;
use xuehua::engine::http::{download_path, HttpPathError};
use xuehua::engine::package::{Dependency, LinkTime, Package, PackageName};
use xuehua::engine::planner::{Config, Planner, PlannerError};
use xuehua::engine::scheduler::{PackageState, Scheduler};

fn name(identifier: &str) -> PackageName {
    PackageName { identifier: identifier.to_string(), namespace: vec![] }
}

fn config(identifier: &str, value: u32) -> Config<u32, u32> {
    Config { name: name(identifier), current: value, apply: 0 }
}

fn package(dependencies: Vec<Dependency>) -> Package<u8> {
    Package { name: name(""), requests: vec![], dependencies }
}

fn runtime(node: usize) -> Dependency {
    Dependency { node, time: LinkTime::Runtime }
}

fn buildtime(node: usize) -> Dependency {
    Dependency { node, time: LinkTime::Buildtime }
}

#[test]
fn register_refuses_a_name_twice_in_one_namespace() {
    let mut planner: Planner<u32, u32> = Planner::new();
    assert!(matches!(planner.register::<()>(config("gcc", 1)), Ok(0)));
    match planner.register::<()>(config("gcc", 2)) {
        Err(PlannerError::Conflict { package }) => {
            assert_eq!(package.identifier, "gcc");
            assert!(package.namespace.is_empty());
        }
        _ => panic!("a second gcc should conflict"),
    }
    planner.enter_scope("toolchain".to_string());
    assert!(matches!(planner.register::<()>(config("gcc", 3)), Ok(1)));
    planner.leave_scope();
    assert_eq!(planner.resolve(&name("gcc")), Some(0));
    let scoped = PackageName { identifier: "gcc".to_string(), namespace: vec!["toolchain".to_string()] };
    assert_eq!(planner.resolve(&scoped), Some(1));
    assert_eq!(planner.resolve(&name("clang")), None);
}

#[test]
fn configure_derives_from_a_source() {
    let mut planner: Planner<u32, u32> = Planner::new();
    planner.register::<()>(config("base", 10)).ok().unwrap();
    assert!(planner
        .configure(5, "missing".to_string(), |value: u32| -> Result<u32, ()> { Ok(value) })
        .is_none());
    let derived = planner.configure(0, "derived".to_string(), |value: u32| -> Result<u32, ()> { Ok(value + 1) });
    assert!(matches!(derived, Some(Ok(1))));
    assert_eq!(planner.config_value(1), Some(&11));
    // the source keeps its value
    assert_eq!(planner.config_value(0), Some(&10));
    let broken = planner.configure(0, "broken".to_string(), |_: u32| -> Result<u32, &str> { Err("no") });
    assert!(matches!(broken, Some(Err(PlannerError::BackendError("no")))));
    assert_eq!(planner.config_value(2), None);
    // a derived configuration is not registered by name
    assert_eq!(planner.resolve(&name("derived")), None);
}

#[test]
fn planner_freezes_into_a_plan() {
    let mut planner: Planner<u32, u32> = Planner::new();
    planner.register::<()>(config("a", 0)).ok().unwrap();
    planner.register::<()>(config("b", 1)).ok().unwrap();
    let frozen = planner
        .freeze(|_: &u32, value: u32| -> Result<Package<u8>, ()> {
            if value == 1 {
                Ok(package(vec![runtime(0)]))
            } else {
                Ok(package(vec![]))
            }
        })
        .ok()
        .unwrap();
    assert_eq!(frozen.resolve(&name("b")), Some(1));
    assert_eq!(frozen.resolve(&name("c")), None);
    let plan = frozen.graph();
    assert_eq!(plan.edge_list(), vec![(1, 0, LinkTime::Runtime)]);
    assert_eq!(plan.package(0).name.identifier, "a");
    assert_eq!(plan.package(1).name.identifier, "b");
    assert!(plan.package(1).dependencies.is_empty());
}

#[test]
fn planner_freeze_stops_at_the_first_backend_error() {
    let mut planner: Planner<u32, u32> = Planner::new();
    planner.register::<()>(config("a", 0)).ok().unwrap();
    planner.register::<()>(config("b", 1)).ok().unwrap();
    planner.register::<()>(config("c", 2)).ok().unwrap();
    let result = planner.freeze(|_: &u32, value: u32| -> Result<Package<u8>, u32> {
        if value >= 1 {
            Err(value)
        } else {
            Ok(package(vec![]))
        }
    });
    assert!(matches!(result, Err(PlannerError::BackendError(1))));
}

#[test]
fn freeze_refuses_a_cycle_at_the_edge_that_closes_it() {
    let mut packages = vec![package(vec![buildtime(1)]), package(vec![runtime(0)])];
    packages[0].name = name("a");
    packages[1].name = name("b");
    match freeze::<u8, ()>(packages) {
        Err(PlannerError::Cycle { from, to }) => {
            assert_eq!(from.identifier, "b");
            assert_eq!(to.identifier, "a");
        }
        _ => panic!("b -> a closes the cycle a -> b -> a"),
    }
}

#[test]
fn freeze_refuses_a_self_loop() {
    let mut packages = vec![package(vec![runtime(0)])];
    packages[0].name = name("a");
    assert!(matches!(freeze::<u8, ()>(packages), Err(PlannerError::Cycle { .. })));
}

#[test]
fn freeze_keeps_a_diamond() {
    let packages = vec![
        package(vec![runtime(1), buildtime(2)]),
        package(vec![runtime(3)]),
        package(vec![runtime(3)]),
        package(vec![]),
    ];
    let plan = freeze::<u8, ()>(packages).ok().unwrap();
    assert_eq!(
        plan.edge_list(),
        vec![
            (0, 1, LinkTime::Runtime),
            (0, 2, LinkTime::Buildtime),
            (1, 3, LinkTime::Runtime),
            (2, 3, LinkTime::Runtime),
        ]
    );
}

#[test]
fn plan_tables_list_edges_newest_first() {
    let packages = vec![package(vec![runtime(1), buildtime(2)]), package(vec![runtime(2)]), package(vec![])];
    let plan = freeze::<u8, ()>(packages).ok().unwrap();
    let (packages, dependencies, dependents) = plan.into_tables();
    assert_eq!(packages.len(), 3);
    assert_eq!(dependencies[0], vec![(2, LinkTime::Buildtime), (1, LinkTime::Runtime)]);
    assert_eq!(dependencies[1], vec![(2, LinkTime::Runtime)]);
    assert!(dependencies[2].is_empty());
    assert!(dependents[0].is_empty());
    assert_eq!(dependents[1], vec![0]);
    assert_eq!(dependents[2], vec![1, 0]);
}

#[test]
fn scheduler_from_a_plan_builds_leaves_first() {
    // c depends on b at build time, b on a at run time
    let packages = vec![package(vec![]), package(vec![runtime(0)]), package(vec![buildtime(1)])];
    let plan = freeze::<u8, ()>(packages).ok().unwrap();
    let mut scheduler = Scheduler::new(plan);
    let ready = scheduler.start(&vec![2]);
    assert_eq!(ready.iter().map(|info| info.node).collect::<Vec<_>>(), vec![0]);
    let a = ready.into_iter().next().unwrap();
    let b = scheduler.finish(a, true).into_iter().next().unwrap();
    assert_eq!(b.node, 1);
    assert_eq!(b.runtime, vec![0]);
    let c = scheduler.finish(b, true).into_iter().next().unwrap();
    assert_eq!(c.node, 2);
    assert_eq!(c.buildtime, vec![0, 1]);
    assert!(c.runtime.is_empty());
    assert!(scheduler.finish(c, true).is_empty());
}

#[test]
fn scheduler_from_a_plan_starts_all_unbuilt() {
    let packages = vec![package(vec![]), package(vec![runtime(0), buildtime(0)])];
    let plan = freeze::<u8, ()>(packages).ok().unwrap();
    let mut scheduler = Scheduler::new(plan);
    // node 1 waits for both of its edges to node 0
    let ready = scheduler.start(&vec![1]);
    assert_eq!(ready.len(), 1);
    assert_eq!(ready[0].node, 0);
    let a = ready.into_iter().next().unwrap();
    let ready = scheduler.finish(a, true);
    assert_eq!(ready.len(), 1);
    assert_eq!(ready[0].runtime, vec![0]);
    assert_eq!(ready[0].buildtime, vec![0]);
    let _: Option<PackageState<u8>> = None;
}

#[test]
fn download_paths_stay_inside_the_environment() {
    assert_eq!(download_path("/env", "src/file.tar").ok().unwrap(), "/env/src/file.tar");
    assert_eq!(download_path("/env/", "file").ok().unwrap(), "/env/file");
    assert_eq!(download_path("/env", "/abs/file").ok().unwrap(), "/abs/file");
    assert_eq!(download_path("/env", "a/../../etc"), Err(HttpPathError::InvalidPath));
    assert_eq!(download_path("/env", ".."), Err(HttpPathError::InvalidPath));
    assert_eq!(download_path("/env", "a..b/c").ok().unwrap(), "/env/a..b/c");
}

fn requested(identifier: &str, namespace: &[&str], requests: Vec<(&str, u8)>) -> Package<DispatchRequest<u8>> {
    Package {
        name: PackageName {
            identifier: identifier.to_string(),
            namespace: namespace.iter().map(|s| s.to_string()).collect(),
        },
        requests: requests
            .into_iter()
            .map(|(executor, payload)| DispatchRequest { executor: executor.to_string(), payload })
            .collect(),
        dependencies: vec![],
    }
}

#[test]
fn identity_hashes_name_and_requests() {
    let plan = freeze::<DispatchRequest<u8>, ()>(vec![
        requested("foo", &["a", "b"], vec![("bwrap", 7), ("http", 9)]),
        requested("bar", &[], vec![]),
    ])
    .ok()
    .unwrap();
    let id = plan.identity(0, |payload: &u8| -> Result<Vec<u8>, ()> { Ok(vec![*payload, 0]) });
    let expected = blake3::hash(b"fooabbwrap\x07\x00http\x09\x00");
    assert_eq!(id.unwrap().ok().unwrap(), *expected.as_bytes());
    let bare = plan.identity(1, |_: &u8| -> Result<Vec<u8>, ()> { Err(()) });
    assert_eq!(bare.unwrap().ok().unwrap(), *blake3::hash(b"bar").as_bytes());
}

#[test]
fn identity_stops_at_a_payload_that_cannot_be_hashed() {
    let plan = freeze::<DispatchRequest<u8>, ()>(vec![requested("foo", &[], vec![("bwrap", 1), ("http", 2)])])
        .ok()
        .unwrap();
    let id = plan.identity(0, |payload: &u8| -> Result<Vec<u8>, u8> {
        if *payload == 2 {
            Err(*payload)
        } else {
            Ok(vec![])
        }
    });
    assert_eq!(id.unwrap().err(), Some(2));
}

#[test]
fn closures_of_a_frozen_plan_are_empty() {
    let mut dependent = requested("b", &[], vec![]);
    dependent.dependencies = vec![runtime(0)];
    let plan = freeze::<DispatchRequest<u8>, ()>(vec![requested("a", &[], vec![]), dependent]).ok().unwrap();
    let closure = plan.closure(1).unwrap();
    assert!(closure.runtime.is_empty());
    assert!(closure.buildtime.is_empty());
}

#[test]
fn frozen_planner_identity_uses_the_configured_name() {
    let mut planner: Planner<u32, u32> = Planner::new();
    planner.register::<()>(config("foo", 7)).ok().unwrap();
    let frozen = planner
        .freeze(|_: &u32, value: u32| -> Result<Package<DispatchRequest<u8>>, ()> {
            Ok(Package {
                name: name("ignored"),
                requests: vec![DispatchRequest { executor: "bwrap".to_string(), payload: value as u8 }],
                dependencies: vec![],
            })
        })
        .ok()
        .unwrap();
    let id = frozen.identity(0, |payload: &u8| -> Result<Vec<u8>, ()> { Ok(vec![*payload]) });
    assert_eq!(id.unwrap().ok().unwrap(), *blake3::hash(b"foobwrap\x07").as_bytes());
    let closure = frozen.closure(0).unwrap();
    assert!(closure.runtime.is_empty() && closure.buildtime.is_empty());
}
