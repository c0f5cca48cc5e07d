use levi::browse::{
    branch_choices, browser_head, browser_rows, change_label, comment_line, created_date, dependency_labels,
    feed_order, feed_time, overview_head, project_card, task_comments, task_history, task_projects, FeedItem,
};
use levi::entities::{Comment, Dependency, Priority, RefFact, StatusChange, StatusKind, Task};
use levi::graph::{GraphEdge, GraphNode, IssueGraph};
use levi::graph_view::{
    card_id, color_for, cycles_note, graph_caption, nothing_blocked, project_colors, project_label,
    task_count_text, visible_graph,
};
use levi::resolve::{Resolution, ResolvedStatus, Status};
use levi::sections::{build_sections, components, plan_section};
use levi::strmap::StrMap;

fn rf(project: &str, branch: &str, head: &str) -> RefFact {
    RefFact {
        id: format!("{project}:{branch}"),
        project_id: project.into(),
        branch: branch.into(),
        head: head.into(),
        observed: "2026-07-01T00:00:00Z".into(),
    }
}

fn task(id: &str, project: &str, p: Priority, created: &str, title: &str, labels: &[&str]) -> Task {
    Task {
        id: id.into(),
        project_id: project.into(),
        title: title.into(),
        body: String::new(),
        priority: p,
        labels: labels.iter().map(|l| l.to_string()).collect(),
        created_by_dev: "d".into(),
        created_by_machine: "m".into(),
        created: created.into(),
    }
}

fn status(s: Status) -> ResolvedStatus {
    ResolvedStatus {
        status: s,
        resolution: Resolution::Exact,
    }
}

#[test]
fn overview_prefers_main_then_least_branch() {
    let refs = vec![rf("p", "zeta", "z1"), rf("q", "main", "q1"), rf("p", "alpha", "a1"), rf("p", "alpha", "a2")];
    assert_eq!(overview_head(&refs, "p").as_deref(), Some("a1"));
    assert_eq!(overview_head(&refs, "q").as_deref(), Some("q1"));
    assert_eq!(overview_head(&refs, "r"), None);
    let refs = vec![rf("p", "alpha", "a1"), rf("p", "main", "m1")];
    assert_eq!(overview_head(&refs, "p").as_deref(), Some("m1"));
}

#[test]
fn project_card_counts_and_lists_open_p0() {
    let tasks = vec![
        task("a", "p", Priority::P0, "2026-01-01", "urgent", &[]),
        task("b", "p", Priority::P0, "2026-01-02", "done", &[]),
        task("c", "p", Priority::P2, "2026-01-03", "later", &[]),
        task("d", "q", Priority::P0, "2026-01-04", "elsewhere", &[]),
    ];
    let mut st = StrMap::new();
    st.insert("a".to_string(), status(Status::Open));
    st.insert("b".to_string(), status(Status::Closed));
    st.insert("c".to_string(), status(Status::Open));
    let card = project_card(&tasks, &st, "p", Some("0123456789abcdef"));
    assert_eq!(card.open, 2);
    assert_eq!(card.closed, 1);
    assert_eq!(card.p0_titles, ["urgent"]);
    assert_eq!(card.head_badge, "@ 01234567");
    assert_eq!(project_card(&tasks, &st, "p", None).head_badge, "no branch facts");
}

#[test]
fn feed_is_newest_first_and_capped() {
    let item = |c: &str, w: &str| FeedItem {
        created: c.into(),
        kind: "Task".into(),
        what: w.into(),
    };
    let items: Vec<FeedItem> = (0..30).map(|i| item(&format!("2026-07-{:02}T00:00:00Z", i % 28 + 1), &i.to_string())).collect();
    let feed = feed_order(items);
    assert_eq!(feed.len(), 25);
    assert_eq!(feed[0].created, "2026-07-28T00:00:00Z");
    let two = feed_order(vec![item("2026-07-01T00:00:00Z", "a"), item("2026-07-02T00:00:00Z", "b"), item("2026-07-01T00:00:00Z", "c")]);
    let order: Vec<&str> = two.iter().map(|f| f.what.as_str()).collect();
    assert_eq!(order, ["b", "a", "c"]);
    assert_eq!(feed_time("2026-07-18T12:34:56.789Z"), "2026-07-18 12:34:56");
    assert_eq!(feed_time("short"), "");
}

#[test]
fn branch_selector_and_head() {
    let refs = vec![rf("p", "zeta", "z1"), rf("p", "main", "m1"), rf("q", "other", "o1"), rf("p", "alpha", "a1")];
    assert_eq!(branch_choices(&refs, "p"), ["main", "alpha", "zeta"]);
    assert_eq!(browser_head(&refs, "p", "").as_deref(), Some("m1"));
    assert_eq!(browser_head(&refs, "p", "zeta").as_deref(), Some("z1"));
    assert_eq!(browser_head(&refs, "p", "nope"), None);
    assert_eq!(browser_head(&refs, "r", ""), None);
}

#[test]
fn browser_rows_filter_and_order() {
    let tasks = vec![
        task("a", "p", Priority::P2, "2026-01-02", "Fix login", &["auth"]),
        task("b", "p", Priority::P0, "2026-01-03", "Crash on start", &[]),
        task("c", "p", Priority::P2, "2026-01-01", "Docs", &["AUTH-docs"]),
        task("d", "q", Priority::P1, "2026-01-01", "Other project", &[]),
    ];
    let mut st = StrMap::new();
    st.insert("a".to_string(), status(Status::Open));
    st.insert("b".to_string(), status(Status::Open));
    st.insert("c".to_string(), status(Status::Closed));
    st.insert("d".to_string(), status(Status::Open));
    assert_eq!(browser_rows(&tasks, &st, "p", false, "open", ""), [1usize, 0]);
    assert_eq!(browser_rows(&tasks, &st, "p", false, "all", ""), [1usize, 2, 0]);
    assert_eq!(browser_rows(&tasks, &st, "p", false, "closed", ""), [2usize]);
    assert_eq!(browser_rows(&tasks, &st, "p", false, "all", "Auth"), [2usize, 0]);
    assert_eq!(browser_rows(&tasks, &st, "p", true, "open", ""), [1usize, 3, 0]);
    assert!(browser_rows(&tasks, &st, "p", false, "all", "zzz").is_empty());
}

fn dep(blocker: &str, blocked: &str, project: Option<&str>, via: Option<&str>) -> Dependency {
    Dependency {
        id: format!("{blocker}->{blocked}"),
        project_id: "p".into(),
        blocker_task_id: blocker.into(),
        blocked_task_id: blocked.into(),
        blocker_project_id: project.map(str::to_string),
        blocker_ref: None,
        via: via.map(str::to_string),
    }
}

#[test]
fn drawer_lists_blockers_and_blocked() {
    let deps = vec![
        dep("aaaaaaaaaaaa", "t1", None, None),
        dep("bbbbbbbbbbbb", "t1", Some("0123456789"), Some("cargo")),
        dep("t1", "cccccccccccc", None, None),
        dep("x", "y", None, None),
    ];
    let (by, blocks) = dependency_labels(&deps, "t1");
    assert_eq!(by, ["aaaaaaaa", "01234567/bbbbbbbb (via: cargo)"]);
    assert_eq!(blocks, ["cccccccc"]);
}

fn sc(id: &str, task: &str, anchor: Option<&str>, at: &str, kind: StatusKind) -> StatusChange {
    StatusChange {
        id: id.into(),
        project_id: "p".into(),
        task_id: task.into(),
        to_status: kind,
        anchor_commit: anchor.map(str::to_string),
        created: at.into(),
        by_dev: "dev".into(),
        by_machine: "m".into(),
    }
}

#[test]
fn drawer_history_and_comments() {
    let changes = vec![
        sc("b", "t1", None, "2026-07-02T00:00:00Z", StatusKind::Reopened),
        sc("a", "t1", Some("0123456789abcdef"), "2026-07-01T00:00:00Z", StatusKind::Closed),
        sc("c", "t2", None, "2026-07-01T00:00:00Z", StatusKind::Closed),
    ];
    let h = task_history(&changes, "t1");
    let ids: Vec<&str> = h.iter().map(|c| c.id.as_str()).collect();
    assert_eq!(ids, ["a", "b"]);
    assert_eq!(levi::browse::history_line(&h[0]), "2026-07-01T00:00:00 @ 01234567 by dev");
    assert_eq!(levi::browse::history_line(&h[1]), "2026-07-02T00:00:00 (everywhere) by dev");
    assert_eq!(change_label(StatusKind::Reopened), "reopened");
    let cm = |id: &str, t: &str, at: &str| Comment {
        id: id.into(),
        project_id: "p".into(),
        task_id: t.into(),
        body: "b".into(),
        by_dev: "dev".into(),
        created: at.into(),
    };
    let comments = vec![cm("z", "t1", "2026-07-03T00:00:00Z"), cm("y", "t1", "2026-07-01T00:00:00Z"), cm("x", "t2", "2026-07-02T00:00:00Z")];
    assert_eq!(task_comments(&comments, "t1"), [1usize, 0]);
    assert_eq!(comment_line(&comments[1]), "2026-07-01T00:00:00 · dev");
    let t = task("t1", "p", Priority::P2, "2026-07-18T00:00:00Z", "x", &[]);
    assert_eq!(created_date(&t), "2026-07-18");
}

#[test]
fn projects_of_tasks_are_sorted_and_distinct() {
    let tasks = vec![
        task("a", "q", Priority::P2, "", "", &[]),
        task("b", "p", Priority::P2, "", "", &[]),
        task("c", "q", Priority::P2, "", "", &[]),
    ];
    assert_eq!(task_projects(&tasks), ["p", "q"]);
}

fn node(id: &str, project: &str, status: Status, layer: usize) -> GraphNode {
    GraphNode {
        task_id: id.into(),
        project_id: project.into(),
        title: id.into(),
        priority: Priority::P2,
        status,
        layer,
        stub: false,
    }
}

fn edge(a: &str, b: &str) -> GraphEdge {
    GraphEdge {
        blocker_task_id: a.into(),
        blocked_task_id: b.into(),
        blocker_project_id: None,
        via: None,
        resolved: false,
    }
}

#[test]
fn hiding_closed_drops_their_edges() {
    let g = IssueGraph {
        nodes: vec![node("a", "p", Status::Closed, 0), node("b", "p", Status::Open, 1), node("c", "q", Status::Open, 2)],
        edges: vec![edge("a", "b"), edge("b", "c")],
        unconnected: vec!["z".into()],
        broken_cycles: vec![],
    };
    let all = visible_graph(g.clone(), true);
    assert_eq!(all.nodes.len(), 3);
    let open = visible_graph(g, false);
    let ids: Vec<&str> = open.nodes.iter().map(|n| n.task_id.as_str()).collect();
    assert_eq!(ids, ["b", "c"]);
    assert_eq!(open.edges.len(), 1);
    assert_eq!(open.edges[0].blocker_task_id, "b");
    assert_eq!(open.unconnected, ["z"]);
    assert_eq!(graph_caption(&open), "2 tasks in the graph · 1 not blocked · dashed edge = blocker already closed");
}

#[test]
fn project_colors_are_assigned_in_sorted_order() {
    let nodes: Vec<GraphNode> = ["p9", "p1", "p3", "p2", "p5", "p4", "p6", "p7", "p8", "p1"]
        .iter()
        .map(|p| node("x", p, Status::Open, 0))
        .collect();
    let colors = project_colors(&nodes);
    assert_eq!(colors.len(), 9);
    assert_eq!(colors[0], ("p1".to_string(), "#3987e5".to_string()));
    assert_eq!(colors[6], ("p7".to_string(), "#9085e9".to_string()));
    assert_eq!(colors[7].1, "#7c7a86");
    assert_eq!(colors[8].1, "#7c7a86");
    assert_eq!(color_for(&colors, "p2"), "#d95926");
    assert_eq!(color_for(&colors, "nope"), "#7c7a86");
    let mut names = StrMap::new();
    names.insert("p1".to_string(), "levi".to_string());
    assert_eq!(project_label("p1", &names), "levi");
    assert_eq!(project_label("0123456789", &names), "01234567");
    assert_eq!(card_id("abcdef0123"), "lv-abcdef");
    assert_eq!(cycles_note(2), "2 dependency cycle(s) broken for layout");
    assert_eq!(nothing_blocked(3), "Nothing is blocked — 3 tasks across all projects, no dependencies between them.");
    assert_eq!(task_count_text(1), "1 task");
    assert_eq!(task_count_text(4), "4 tasks");
}

fn ids(v: &[&str]) -> Vec<String> {
    v.iter().map(|s| s.to_string()).collect()
}

fn pair(a: &str, b: &str) -> (String, String) {
    (a.to_string(), b.to_string())
}

#[test]
fn components_split_independent_webs() {
    let nodes = ids(&["a", "b", "c", "d", "e"]);
    let edges = vec![pair("a", "b"), pair("d", "c"), pair("c", "outside")];
    let comps = components(&nodes, &edges);
    assert_eq!(comps, vec![ids(&["a", "b"]), ids(&["c", "d"]), ids(&["e"])]);
}

#[test]
fn sections_order_columns_and_roots() {
    let nodes = ids(&["a", "b", "c", "d", "e", "f"]);
    let edges = vec![pair("a", "c"), pair("b", "c"), pair("c", "d"), pair("e", "f")];
    let mut layers = StrMap::new();
    let mut prios = StrMap::new();
    for (id, l, p) in [("a", 0usize, 2u8), ("b", 0, 1), ("c", 1, 2), ("d", 3, 2), ("e", 0, 0), ("f", 1, 3)] {
        layers.insert(id.to_string(), l);
        prios.insert(id.to_string(), p);
    }
    let plan = plan_section(ids(&["a", "b", "c", "d"]), &layers, &prios);
    assert_eq!(plan.layers, [0usize, 1, 3]);
    assert_eq!(plan.columns, vec![ids(&["b", "a"]), ids(&["c"]), ids(&["d"])]);
    assert_eq!(plan.root_ids, ids(&["b", "a"]));
    assert_eq!(plan.best_rank, 1);
    let sections = build_sections(&nodes, &edges, &layers, &prios);
    assert_eq!(sections.len(), 2);
    assert_eq!(sections[0].node_ids, ids(&["a", "b", "c", "d"]));
    assert_eq!(sections[1].node_ids, ids(&["e", "f"]));
    assert_eq!(sections[1].best_rank, 0);
}
