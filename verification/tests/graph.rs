use levi::entities::{Dependency, Task};
use levi::graph::build;
use levi::resolve::{Resolution, ResolvedStatus, Status};
use levi::strmap::StrMap;

fn task(id: &str, project: &str) -> Task {
    Task {
        id: id.into(),
        project_id: project.into(),
        title: format!("task {id}"),
        body: String::new(),
        priority: Default::default(),
        labels: vec![],
        created_by_dev: "d".into(),
        created_by_machine: "m".into(),
        created: "2026-01-01T00:00:00Z".into(),
    }
}

fn dep(id: &str, blocker: &str, blocked: &str) -> Dependency {
    Dependency {
        id: id.into(),
        project_id: "p".into(),
        blocker_task_id: blocker.into(),
        blocked_task_id: blocked.into(),
        blocker_project_id: None,
        blocker_ref: None,
        via: None,
    }
}

fn open(id: &str) -> (String, ResolvedStatus) {
    (
        id.into(),
        ResolvedStatus {
            status: Status::Open,
            resolution: Resolution::Exact,
        },
    )
}

fn tasks_of(ts: Vec<Task>) -> StrMap<Task> {
    let mut m = StrMap::new();
    for t in ts {
        m.insert(t.id.clone(), t);
    }
    m
}

fn deps_of(ds: Vec<Dependency>) -> StrMap<Dependency> {
    let mut m = StrMap::new();
    for d in ds {
        m.insert(d.id.clone(), d);
    }
    m
}

fn statuses_of(v: Vec<(String, ResolvedStatus)>) -> StrMap<ResolvedStatus> {
    let mut m = StrMap::new();
    for (k, s) in v {
        m.insert(k, s);
    }
    m
}

#[test]
fn chain_layers_0_1_2() {
    let tasks = tasks_of(vec![task("a", "p"), task("b", "p"), task("c", "p")]);
    let deps = deps_of(vec![dep("d1", "a", "b"), dep("d2", "b", "c")]);
    let statuses = statuses_of(vec![open("a"), open("b"), open("c")]);
    let g = build(&tasks, &deps, &statuses);
    let layer = |id: &str| g.nodes.iter().find(|n| n.task_id == id).unwrap().layer;
    assert_eq!(layer("a"), 0);
    assert_eq!(layer("b"), 1);
    assert_eq!(layer("c"), 2);
    assert!(g.unconnected.is_empty());
    assert!(g.broken_cycles.is_empty());
}

#[test]
fn diamond_takes_longest_path() {
    let tasks = tasks_of(vec![task("a", "p"), task("b", "p"), task("c", "p"), task("d", "p")]);
    let deps = deps_of(vec![dep("1", "a", "b"), dep("2", "a", "c"), dep("3", "b", "d"), dep("4", "c", "d")]);
    let statuses = statuses_of(["a", "b", "c", "d"].iter().map(|i| open(i)).collect());
    let g = build(&tasks, &deps, &statuses);
    let layer = |id: &str| g.nodes.iter().find(|n| n.task_id == id).unwrap().layer;
    assert_eq!(layer("d"), 2);
}

#[test]
fn cycle_is_broken_and_recorded_without_hanging() {
    let tasks = tasks_of(vec![task("a", "p"), task("b", "p")]);
    let deps = deps_of(vec![dep("1", "a", "b"), dep("2", "b", "a")]);
    let statuses = statuses_of(vec![open("a"), open("b")]);
    let g = build(&tasks, &deps, &statuses);
    assert!(!g.broken_cycles.is_empty(), "cycle must be reported");
    assert_eq!(g.nodes.len(), 2, "both nodes still present");
}

#[test]
fn unconnected_tasks_are_excluded_from_nodes() {
    let tasks = tasks_of(vec![task("a", "p"), task("b", "p"), task("lonely", "p")]);
    let deps = deps_of(vec![dep("1", "a", "b")]);
    let statuses = statuses_of(["a", "b", "lonely"].iter().map(|i| open(i)).collect());
    let g = build(&tasks, &deps, &statuses);
    assert!(!g.nodes.iter().any(|n| n.task_id == "lonely"));
    assert_eq!(g.unconnected, vec!["lonely".to_string()]);
}

#[test]
fn closed_blocker_marks_edge_resolved() {
    let tasks = tasks_of(vec![task("a", "p"), task("b", "p")]);
    let deps = deps_of(vec![dep("1", "a", "b")]);
    let statuses = statuses_of(vec![
        (
            "a".to_string(),
            ResolvedStatus {
                status: Status::Closed,
                resolution: Resolution::Facts,
            },
        ),
        open("b"),
    ]);
    let g = build(&tasks, &deps, &statuses);
    assert!(g.edges[0].resolved);
}

#[test]
fn cross_project_edge_carries_project_and_via() {
    let tasks = tasks_of(vec![task("local", "downstream")]);
    let mut d = dep("1", "foreign", "local");
    d.blocker_project_id = Some("upstream".into());
    d.via = Some("cargo: crates.io myko >=4.24.4".into());
    let deps = deps_of(vec![d]);
    let statuses = statuses_of(vec![open("local")]);
    let g = build(&tasks, &deps, &statuses);
    assert_eq!(g.edges[0].blocker_project_id.as_deref(), Some("upstream"));
    assert_eq!(g.edges[0].via.as_deref(), Some("cargo: crates.io myko >=4.24.4"));
    let stub = g.nodes.iter().find(|n| n.task_id == "foreign").unwrap();
    assert!(stub.stub);
    assert_eq!(stub.project_id, "upstream");
}

#[test]
fn no_dependencies_yields_empty_graph_all_unconnected() {
    let tasks = tasks_of(vec![task("a", "p"), task("b", "p")]);
    let g = build(&tasks, &deps_of(vec![]), &statuses_of(vec![open("a"), open("b")]));
    assert!(g.nodes.is_empty());
    assert!(g.edges.is_empty());
    assert_eq!(g.unconnected.len(), 2);
}

#[test]
fn stub_title_is_the_first_eight_bytes_of_its_id() {
    let tasks = tasks_of(vec![task("local", "p")]);
    let deps = deps_of(vec![dep("1", "0123456789abcdef", "local")]);
    let g = build(&tasks, &deps, &statuses_of(vec![open("local")]));
    let stub = g.nodes.iter().find(|n| n.stub).unwrap();
    assert_eq!(stub.title, "lv-01234567");
    assert_eq!(stub.layer, 0);
    let local = g.nodes.iter().find(|n| n.task_id == "local").unwrap();
    assert_eq!(local.layer, 1);
    assert_eq!(local.title, "task local");
}

#[test]
fn edges_into_a_cycle_are_all_reported() {
    // a -> b -> c -> b : b and c sit on a cycle; a is settled at layer 0.
    let tasks = tasks_of(vec![task("a", "p"), task("b", "p"), task("c", "p")]);
    let deps = deps_of(vec![dep("1", "a", "b"), dep("2", "b", "c"), dep("3", "c", "b")]);
    let statuses = statuses_of(vec![open("a"), open("b"), open("c")]);
    let g = build(&tasks, &deps, &statuses);
    assert_eq!(g.nodes.len(), 3);
    let layer = |id: &str| g.nodes.iter().find(|n| n.task_id == id).unwrap().layer;
    assert_eq!(layer("a"), 0);
    assert!(g.broken_cycles.contains(&("b".to_string(), "c".to_string())));
    assert!(g.broken_cycles.contains(&("c".to_string(), "b".to_string())));
    // The edge from the settled blocker into the cycle is reported too.
    assert_eq!(
        g.broken_cycles,
        vec![
            ("a".to_string(), "b".to_string()),
            ("b".to_string(), "c".to_string()),
            ("c".to_string(), "b".to_string())
        ]
    );
}
