use levi::crossproject::{default_head, statuses_for_project, statuses_unanchored};
use levi::entities::{CommitFact, Priority, RefFact, StatusChange, StatusKind, Task};
use levi::resolve::{Resolution, Status};

fn task(id: &str, project: &str) -> Task {
    Task {
        id: id.into(),
        project_id: project.into(),
        title: format!("task {id}"),
        body: String::new(),
        priority: Default::default(),
        labels: vec![],
        created_by_dev: "d".into(),
        created_by_machine: "m".into(),
        created: "2026-01-01T00:00:00Z".into(),
    }
}

fn change(id: &str, task: &str, project: &str, to: StatusKind, at: &str) -> StatusChange {
    StatusChange {
        id: id.into(),
        project_id: project.into(),
        task_id: task.into(),
        to_status: to,
        anchor_commit: Some("deadbeef".into()),
        created: at.into(),
        by_dev: "d".into(),
        by_machine: "m".into(),
    }
}

fn ref_fact(id: &str, branch: &str, head: &str, observed: &str) -> RefFact {
    RefFact {
        id: id.into(),
        project_id: "p".into(),
        branch: branch.into(),
        head: head.into(),
        observed: observed.into(),
    }
}

#[test]
fn open_when_no_change() {
    let tasks = vec![task("t1", "p")];
    let got = statuses_unanchored(&tasks, &[], "p");
    assert_eq!(got.get("t1").unwrap().status, Status::Open);
    assert_eq!(got.get("t1").unwrap().resolution, Resolution::Exact);
}

#[test]
fn closed_is_partial_ignoring_anchors() {
    let tasks = vec![task("t1", "p")];
    let changes = vec![change("c1", "t1", "p", StatusKind::Closed, "2026-02-01T00:00:00Z")];
    let got = statuses_unanchored(&tasks, &changes, "p");
    assert_eq!(got.get("t1").unwrap().status, Status::Closed);
    assert_eq!(got.get("t1").unwrap().resolution, Resolution::Partial);
}

#[test]
fn latest_change_wins() {
    let tasks = vec![task("t1", "p")];
    let changes = vec![
        change("c1", "t1", "p", StatusKind::Closed, "2026-02-01T00:00:00Z"),
        change("c2", "t1", "p", StatusKind::Reopened, "2026-03-01T00:00:00Z"),
    ];
    let got = statuses_unanchored(&tasks, &changes, "p");
    assert_eq!(got.get("t1").unwrap().status, Status::Open);
    assert_eq!(got.get("t1").unwrap().resolution, Resolution::Partial);
}

#[test]
fn latest_change_wins_whatever_the_input_order() {
    let tasks = vec![task("t1", "p")];
    let changes = vec![
        change("c2", "t1", "p", StatusKind::Reopened, "2026-03-01T00:00:00Z"),
        change("c1", "t1", "p", StatusKind::Closed, "2026-02-01T00:00:00Z"),
    ];
    let got = statuses_unanchored(&tasks, &changes, "p");
    assert_eq!(got.get("t1").unwrap().status, Status::Open);
}

#[test]
fn other_projects_ignored() {
    let tasks = vec![task("t1", "p"), task("t2", "other")];
    let got = statuses_unanchored(&tasks, &[], "p");
    assert!(got.contains_key("t1"));
    assert!(!got.contains_key("t2"));
}

#[test]
fn default_head_prefers_main() {
    let refs = vec![
        ref_fact("p:feature", "feature", "aaaa", "2026-05-01T00:00:00Z"),
        ref_fact("p:main", "main", "bbbb", "2026-01-01T00:00:00Z"),
    ];
    assert_eq!(default_head(&refs, "p").as_deref(), Some("bbbb"));
}

#[test]
fn default_head_falls_back_to_latest_observed() {
    let refs = vec![
        ref_fact("p:a", "a", "aaaa", "2026-05-01T00:00:00Z"),
        ref_fact("p:b", "b", "bbbb", "2026-06-01T00:00:00Z"),
    ];
    assert_eq!(default_head(&refs, "p").as_deref(), Some("bbbb"));
}

#[test]
fn default_head_none_without_refs() {
    assert_eq!(default_head(&[], "p"), None);
}

#[test]
fn default_head_ignores_other_projects_refs() {
    let mut other_main = ref_fact("q:main", "main", "eeee", "2026-09-01T00:00:00Z");
    other_main.project_id = "q".into();
    let refs = vec![other_main, ref_fact("p:x", "x", "ffff", "2026-01-01T00:00:00Z")];
    assert_eq!(default_head(&refs, "p").as_deref(), Some("ffff"));
    assert_eq!(default_head(&refs, "q").as_deref(), Some("eeee"));
    assert_eq!(default_head(&refs, "r"), None);
}

fn commit(id: &str, project: &str, parents: &[&str]) -> CommitFact {
    CommitFact {
        id: id.into(),
        project_id: project.into(),
        parents: parents.iter().map(|p| p.to_string()).collect(),
        patch_id: None,
    }
}

#[test]
fn statuses_for_project_resolves_against_head_via_facts() {
    let tasks = vec![task("t1", "p")];
    let changes = vec![StatusChange {
        anchor_commit: Some("c2".into()),
        ..change("x1", "t1", "p", StatusKind::Closed, "2026-02-01T00:00:00Z")
    }];
    let facts = vec![commit("c1", "p", &[]), commit("c2", "p", &["c1"]), commit("c3", "p", &["c2"])];

    let at_c3 = statuses_for_project(&tasks, &changes, &facts, "p", Some("c3"));
    assert_eq!(at_c3.get("t1").unwrap().status, Status::Closed);
    assert_eq!(at_c3.get("t1").unwrap().resolution, Resolution::Facts);

    let at_c1 = statuses_for_project(&tasks, &changes, &facts, "p", Some("c1"));
    assert_eq!(at_c1.get("t1").unwrap().status, Status::Open);

    let no_head = statuses_for_project(&tasks, &changes, &facts, "p", None);
    assert_eq!(no_head.get("t1").unwrap().status, Status::Open);
    assert_eq!(no_head.get("t1").unwrap().resolution, Resolution::Partial);
}

#[test]
fn priority_orders_p0_first() {
    assert!(Priority::P0.rank() < Priority::P3.rank());
    assert_eq!(Priority::default(), Priority::P2);
}

#[test]
fn priority_parse_and_label() {
    assert_eq!(Priority::parse("p1"), Some(Priority::P1));
    assert_eq!(Priority::parse("P3"), Some(Priority::P3));
    assert_eq!(Priority::parse("p9"), None);
    assert_eq!(Priority::P0.label(), "P0");
}
