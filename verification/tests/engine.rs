use xuehua::engine::builder::{find_executor, route_requests, Builder, ExecutorPair, InitializeContext};
use xuehua::engine::package::{LinkTime, PackageName};
use xuehua::engine::sandbox::{command_line, BubblewrapExecutor, CommandRequest, Options};
use xuehua::engine::scheduler::{PackageState, Scheduler};

#[test]
fn link_time_text_roundtrip() {
    for time in [LinkTime::Runtime, LinkTime::Buildtime] {
        assert_eq!(LinkTime::parse(time.as_str()).ok(), Some(time));
    }
    assert_eq!(LinkTime::Runtime.as_str(), "runtime");
    assert_eq!(LinkTime::Buildtime.as_str(), "buildtime");
}

#[test]
fn link_time_parse_error() {
    let error = LinkTime::parse("sometimes").unwrap_err();
    assert_eq!(error.0, "sometimes");
    assert_eq!(
        error.message(),
        "could not parse link time (expected \"buildtime\" or \"runtime\", found: \"sometimes\")"
    );
}

#[test]
fn package_name_with_namespace() {
    let name = PackageName::parse("hello@xuehua/core");
    assert_eq!(name.identifier, "hello");
    assert_eq!(name.namespace, vec!["xuehua".to_string(), "core".to_string()]);
    assert_eq!(name.to_text(), "hello@xuehua/core");
}

#[test]
fn package_name_without_namespace() {
    let name = PackageName::parse("hello");
    assert_eq!(name.identifier, "hello");
    assert_eq!(name.namespace, vec!["".to_string()]);
    assert_eq!(name.to_text(), "hello@");
    let bare = PackageName { identifier: "hello".to_string(), namespace: vec![] };
    assert_eq!(bare.to_text(), "hello");
}

#[test]
fn package_name_splits_at_the_first_at() {
    let name = PackageName::parse("a@b@c/d");
    assert_eq!(name.identifier, "a");
    assert_eq!(name.namespace, vec!["b@c".to_string(), "d".to_string()]);
}

#[test]
fn sandbox_arguments() {
    let ctx = InitializeContext { environment: "/build/1".to_string() };
    let options = Options {
        network: false,
        add_capabilities: vec!["CAP_NET_ADMIN".to_string()],
        drop_capabilities: vec![],
    };
    let executor = BubblewrapExecutor::new(&ctx, options);
    let request = CommandRequest {
        program: "make".to_string(),
        working_dir: Some("/src".to_string()),
        arguments: vec!["-j4".to_string()],
        environment: vec![("CC".to_string(), "gcc".to_string())],
    };
    let expected: Vec<&str> = vec![
        "--bind", "/build/1", "/", "--ro-bind", "busybox-bootstrap", "/busybox", "--proc", "/proc",
        "--dev", "/dev", "--new-session", "--die-with-parent", "--clearenv", "--unshare-all",
        "--cap-add", "CAP_NET_ADMIN", "--chdir", "/src", "--setenv", "CC", "gcc", "--", "make", "-j4",
    ];
    assert_eq!(executor.arguments(&request), expected);
    assert_eq!(command_line(&request), "make -j4");
}

#[test]
fn default_options_share_the_network() {
    let executor = BubblewrapExecutor::new(&InitializeContext { environment: "/e".to_string() }, Options::default());
    let args = executor.arguments(&CommandRequest::default());
    assert!(args.contains(&"--share-net".to_string()));
    assert_eq!(args[args.len() - 2], "--");
}

#[test]
fn builder_environment_paths() {
    let builder = Builder::new("/var/xuehua".to_string(), ());
    assert_eq!(builder.environment_path(42), "/var/xuehua/42");
    let builder = Builder::new("/var/xuehua/".to_string(), ());
    assert_eq!(builder.environment_path(0), "/var/xuehua/0");
    let registered = builder.register(1u8);
    assert!(matches!(registered.executors, ExecutorPair((1u8, ExecutorPair(())))));
}

/// a <- b (runtime), b <- c (buildtime): c depends on b, b depends on a
fn line_scheduler() -> Scheduler<&'static str> {
    Scheduler::from_tables(
        vec!["a", "b", "c"],
        vec![vec![], vec![(0, LinkTime::Runtime)], vec![(1, LinkTime::Buildtime)]],
        vec![vec![1], vec![2], vec![]],
    )
}

#[test]
fn scheduler_builds_in_dependency_order() {
    let mut scheduler = line_scheduler();
    let ready = scheduler.start(&vec![2]);
    assert_eq!(ready.len(), 1);
    assert_eq!(ready[0].node, 0);
    let a = ready.into_iter().next().unwrap();
    let ready = scheduler.finish(a, true);
    assert_eq!(ready.len(), 1);
    assert_eq!(ready[0].node, 1);
    assert_eq!(ready[0].runtime, vec![0]);
    let b = ready.into_iter().next().unwrap();
    let ready = scheduler.finish(b, true);
    assert_eq!(ready.len(), 1);
    assert_eq!(ready[0].node, 2);
    assert_eq!(ready[0].buildtime, vec![0, 1]);
    assert!(ready[0].runtime.is_empty());
}

#[test]
fn scheduler_stops_after_a_failure() {
    let mut scheduler = line_scheduler();
    let ready = scheduler.start(&vec![2]);
    let a = ready.into_iter().next().unwrap();
    let ready = scheduler.finish(a, false);
    assert!(ready.is_empty());
}

#[test]
fn what_depends_on_a_failed_build_is_not_handed_out() {
    let mut scheduler = line_scheduler();
    let ready = scheduler.start(&vec![2]);
    let a = ready.into_iter().next().unwrap();
    assert!(scheduler.finish(a, false).is_empty());
    // only the failed package itself can be handed out again
    let ready = scheduler.start(&vec![2]);
    let nodes: Vec<usize> = ready.iter().map(|info| info.node).collect();
    assert_eq!(nodes, vec![0]);
}

#[test]
fn scheduler_ignores_packages_outside_the_targets() {
    let mut scheduler = line_scheduler();
    let ready = scheduler.start(&vec![0]);
    let a = ready.into_iter().next().unwrap();
    // b depends on a but was not asked for
    assert!(scheduler.finish(a, true).is_empty());
}

#[test]
fn package_states_start_unbuilt() {
    let scheduler = line_scheduler();
    let _ = &scheduler;
    let state: PackageState<u8> = PackageState::Unbuilt { package: 1, remaining: 0 };
    assert!(matches!(state, PackageState::Unbuilt { remaining: 0, .. }));
}

#[test]
fn requests_go_to_the_first_executor_of_that_name() {
    let names = vec!["http".to_string(), "bubblewrap".to_string(), "http".to_string()];
    assert_eq!(find_executor(&names, "http"), Some(0));
    assert_eq!(find_executor(&names, "bubblewrap"), Some(1));
    assert_eq!(find_executor(&names, "zstd"), None);
}

#[test]
fn routing_stops_at_the_first_unregistered_executor() {
    let names = vec!["http".to_string(), "bubblewrap".to_string()];
    let wanted = vec!["bubblewrap".to_string(), "http".to_string(), "zstd".to_string(), "http".to_string()];
    assert_eq!(route_requests(&names, &wanted), vec![1, 0]);
    let all = vec!["http".to_string(), "http".to_string()];
    assert_eq!(route_requests(&names, &all), vec![0, 0]);
    assert!(route_requests(&names, &vec![]).is_empty());
}
