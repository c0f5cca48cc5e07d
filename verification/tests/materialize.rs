use levi::entities::{dependency_id, Claim, Comment, Dependency, Priority, Project, StatusChange, StatusKind, Task};
use levi::materialize::{change_from, materialize, EventChange, EventRecord, Instant, Item, ItemKind};

fn rec(oid: &str, item: Item, created_at: &str) -> EventRecord {
    EventRecord {
        id: oid.to_string(),
        created_at: created_at.to_string(),
        change: EventChange::Upsert(item),
    }
}

fn del(oid: &str, kind: ItemKind, id: &str, created_at: &str) -> EventRecord {
    EventRecord {
        id: oid.to_string(),
        created_at: created_at.to_string(),
        change: EventChange::Remove(kind, id.to_string()),
    }
}

fn instant(s: &str) -> Instant {
    let t = chrono::DateTime::parse_from_rfc3339(s).unwrap();
    Instant {
        secs: t.timestamp(),
        nanos: t.timestamp_subsec_nanos(),
    }
}

fn task(id: &str, title: &str) -> Task {
    Task {
        id: id.into(),
        project_id: "p".into(),
        title: title.into(),
        body: String::new(),
        priority: Priority::default(),
        labels: vec![],
        created_by_dev: "d".into(),
        created_by_machine: "m".into(),
        created: "2026-07-01T00:00:00Z".into(),
    }
}

fn claim(task_id: &str, created: &str, ttl_secs: u64) -> Claim {
    Claim {
        id: task_id.into(),
        project_id: "p".into(),
        task_id: task_id.into(),
        dev: "d".into(),
        machine: "m".into(),
        machine_id: String::new(),
        worktree: "/w".into(),
        git_ref: String::new(),
        created: created.into(),
        ttl_secs,
    }
}

#[test]
fn lww_by_created_at_regardless_of_arrival_order() {
    let w = materialize(vec![
        rec("bb", Item::Task(task("t1", "newer title")), "2026-07-02T00:00:00Z"),
        rec("aa", Item::Task(task("t1", "older title")), "2026-07-01T00:00:00Z"),
    ]);
    assert_eq!(w.tasks.get("t1").unwrap().title, "newer title");
}

#[test]
fn created_at_tie_broken_by_event_id() {
    let at = "2026-07-01T00:00:00Z";
    let w = materialize(vec![
        rec("ff", Item::Task(task("t1", "id ff wins")), at),
        rec("aa", Item::Task(task("t1", "id aa loses")), at),
    ]);
    assert_eq!(w.tasks.get("t1").unwrap().title, "id ff wins");
}

#[test]
fn del_removes_dependency() {
    let d = Dependency {
        id: dependency_id("a", "b"),
        project_id: "p".into(),
        blocker_task_id: "a".into(),
        blocked_task_id: "b".into(),
        blocker_project_id: None,
        blocker_ref: None,
        via: None,
    };
    let id = d.id.clone();
    let w = materialize(vec![
        rec("aa", Item::Dependency(d), "2026-07-01T00:00:00Z"),
        del("bb", ItemKind::Dependency, &id, "2026-07-02T00:00:00Z"),
    ]);
    assert!(w.deps.is_empty());
}

#[test]
fn del_before_set_does_not_remove_the_later_set() {
    let w = materialize(vec![
        rec("bb", Item::Task(task("t1", "kept")), "2026-07-02T00:00:00Z"),
        del("aa", ItemKind::Task, "t1", "2026-07-01T00:00:00Z"),
    ]);
    assert_eq!(w.tasks.get("t1").unwrap().title, "kept");
}

#[test]
fn claim_liveness_respects_ttl() {
    let c = claim("t1", "2026-07-01T00:00:00Z", 3600);
    let w = materialize(vec![rec("aa", Item::Claim(c), "2026-07-01T00:00:00Z")]);
    let live = instant("2026-07-01T00:30:00Z");
    let dead = instant("2026-07-01T02:00:00Z");
    assert!(w.live_claim("t1", live).is_some());
    assert!(w.live_claim("t1", dead).is_none());
}

#[test]
fn claim_expires_exactly_at_its_ttl() {
    let c = claim("t1", "2026-07-01T00:00:00Z", 3600);
    let w = materialize(vec![rec("aa", Item::Claim(c), "2026-07-01T00:00:00Z")]);
    assert!(w.live_claim("t1", instant("2026-07-01T00:59:59Z")).is_some());
    assert!(w.live_claim("t1", instant("2026-07-01T01:00:00Z")).is_none());
    assert!(w.live_claim("t2", instant("2026-07-01T00:00:00Z")).is_none());
}

#[test]
fn claim_with_unparsable_timestamp_is_never_live() {
    let c = claim("t1", "yesterday", 3600);
    let w = materialize(vec![rec("aa", Item::Claim(c), "2026-07-01T00:00:00Z")]);
    assert!(w.live_claim("t1", instant("2026-07-01T00:00:00Z")).is_none());
    assert_eq!(w.claim_history.len(), 1);
}

#[test]
fn project_and_sorted_append_only_sets() {
    let p = Project {
        id: "p".into(),
        name: "levi".into(),
        created_at: "2026-07-01T00:00:00Z".into(),
    };
    let c2 = Comment {
        id: "c2".into(),
        project_id: "p".into(),
        task_id: "t1".into(),
        body: "second".into(),
        by_dev: "d".into(),
        created: "2026-07-02T00:00:00Z".into(),
    };
    let c1 = Comment {
        id: "c1".into(),
        project_id: "p".into(),
        task_id: "t1".into(),
        body: "first".into(),
        by_dev: "d".into(),
        created: "2026-07-01T00:00:00Z".into(),
    };
    let w = materialize(vec![
        rec("cc", Item::Comment(c2), "2026-07-02T00:00:00Z"),
        rec("aa", Item::Project(p), "2026-07-01T00:00:00Z"),
        rec("bb", Item::Comment(c1), "2026-07-01T00:00:00Z"),
    ]);
    assert_eq!(w.project.as_ref().unwrap().name, "levi");
    let bodies: Vec<_> = w.comments.iter().map(|c| c.body.as_str()).collect();
    assert_eq!(bodies, ["first", "second"]);
}

#[test]
fn unknown_item_type_is_ignored() {
    let kind = ItemKind::from_name("FutureThing");
    assert_eq!(kind, None);
    let change = change_from(kind, true, Some(Item::Task(task("t1", "x"))), None);
    assert_eq!(change, EventChange::Ignored);
    let w = materialize(vec![EventRecord {
        id: "aa".into(),
        created_at: "2026-07-01T00:00:00Z".into(),
        change,
    }]);
    assert!(w.tasks.is_empty());
}

#[test]
fn item_type_names_map_to_kinds() {
    assert_eq!(ItemKind::from_name("Task"), Some(ItemKind::Task));
    assert_eq!(ItemKind::from_name("RefFact"), Some(ItemKind::RefFact));
    assert_eq!(ItemKind::from_name("task"), None);
    assert_eq!(ItemKind::CommitFact.name(), "CommitFact");
    assert_eq!(
        change_from(Some(ItemKind::Task), false, None, Some("t1".into())),
        EventChange::Remove(ItemKind::Task, "t1".into())
    );
    assert_eq!(change_from(Some(ItemKind::Task), false, None, None), EventChange::Ignored);
}

#[test]
fn replay_gives_the_same_world_for_any_arrival_order() {
    let a = rec("aa", Item::Task(task("t1", "one")), "2026-07-01T00:00:00Z");
    let b = rec("bb", Item::Task(task("t1", "two")), "2026-07-02T00:00:00Z");
    let c = del("cc", ItemKind::Task, "t2", "2026-07-03T00:00:00Z");
    let d = rec("dd", Item::Task(task("t2", "three")), "2026-07-04T00:00:00Z");
    let w1 = materialize(vec![a.clone(), b.clone(), c.clone(), d.clone()]);
    let w2 = materialize(vec![d, c, b, a]);
    assert_eq!(w1.tasks.get("t1").unwrap().title, "two");
    assert_eq!(w2.tasks.get("t1").unwrap().title, "two");
    assert_eq!(w1.tasks.get("t2").unwrap().title, "three");
    assert_eq!(w2.tasks.get("t2").unwrap().title, "three");
    assert_eq!(w1.tasks.len(), w2.tasks.len());
}

#[test]
fn changes_for_filters_by_task_in_order() {
    let sc = |id: &str, t: &str, at: &str| StatusChange {
        id: id.into(),
        project_id: "p".into(),
        task_id: t.into(),
        to_status: StatusKind::Closed,
        anchor_commit: None,
        created: at.into(),
        by_dev: "d".into(),
        by_machine: "m".into(),
    };
    let w = materialize(vec![
        rec("e3", Item::StatusChange(sc("s3", "t1", "2026-07-03T00:00:00Z")), "2026-07-03T00:00:00Z"),
        rec("e1", Item::StatusChange(sc("s1", "t1", "2026-07-01T00:00:00Z")), "2026-07-01T00:00:00Z"),
        rec("e2", Item::StatusChange(sc("s2", "t2", "2026-07-02T00:00:00Z")), "2026-07-02T00:00:00Z"),
    ]);
    let ids: Vec<&str> = w.changes_for("t1").iter().map(|c| c.id.as_str()).collect();
    assert_eq!(ids, ["s1", "s3"]);
}
