use levi::commands::{
    blockers_of_new_task, check_transition, claim_released_by_close, claim_to_drop, foreign_blocker_view,
    foreign_dep_to_remove, foreign_dependency, full_reason, local_dependency, ls_rows, new_claim, new_task,
    next_claim_admits, orphan_warning, rename_project, start_admits, status_line, task_anchors, DepError, DropError,
    ForeignDepError, LsFilter, Rename, RenameError, TransitionError,
};
use levi::edit::EditError;
use levi::entities::{Claim, Dependency, Priority, Project, StatusChange, StatusKind, Task};
use levi::foreign::ForeignInfo;
use levi::materialize::{Instant, World};
use levi::rank::Identity;
use levi::resolve::{Resolution, ResolvedStatus, Status};
use levi::strmap::StrMap;

fn me() -> Identity {
    Identity {
        dev: "me@x".into(),
        machine: "m1".into(),
        machine_id: String::new(),
        worktree: "/w1".into(),
    }
}

fn instant(s: &str) -> Instant {
    let t = chrono::DateTime::parse_from_rfc3339(s).unwrap();
    Instant {
        secs: t.timestamp(),
        nanos: t.timestamp_subsec_nanos(),
    }
}

fn claim(task: &str, dev: &str, machine: &str, worktree: &str, at: &str) -> Claim {
    Claim {
        id: task.into(),
        project_id: "p".into(),
        task_id: task.into(),
        dev: dev.into(),
        machine: machine.into(),
        machine_id: String::new(),
        worktree: worktree.into(),
        git_ref: "refs/heads/x".into(),
        created: at.into(),
        ttl_secs: 3600,
    }
}

fn task(id: &str, p: Priority, created: &str, labels: &[&str]) -> Task {
    Task {
        id: id.into(),
        project_id: "p".into(),
        title: format!("task {id}"),
        body: String::new(),
        priority: p,
        labels: labels.iter().map(|l| l.to_string()).collect(),
        created_by_dev: "d".into(),
        created_by_machine: "m".into(),
        created: created.into(),
    }
}

fn open() -> ResolvedStatus {
    ResolvedStatus {
        status: Status::Open,
        resolution: Resolution::Exact,
    }
}

fn closed() -> ResolvedStatus {
    ResolvedStatus {
        status: Status::Closed,
        resolution: Resolution::Exact,
    }
}

#[test]
fn start_and_drop_respect_live_claims() {
    let mut w = World::default();
    w.claims.insert("a".into(), claim("a", "other@x", "m2", "/w2", "2026-07-18T11:30:00Z"));
    w.claims.insert("b".into(), claim("b", "me@x", "m1", "/w1", "2026-07-18T11:30:00Z"));
    w.claims.insert("c".into(), claim("c", "other@x", "m2", "/w2", "2026-07-18T09:00:00Z"));
    let now = instant("2026-07-18T12:00:00Z");
    assert!(!start_admits(&w, "a", now, &me()));
    assert!(start_admits(&w, "b", now, &me()));
    assert!(start_admits(&w, "c", now, &me()));
    assert!(start_admits(&w, "d", now, &me()));
    assert_eq!(claim_to_drop(&w, "a", now, &me()).unwrap_err(), DropError::NotYours("other@x".into(), "m2".into()));
    assert_eq!(claim_to_drop(&w, "b", now, &me()).unwrap().dev, "me@x");
    assert_eq!(claim_to_drop(&w, "c", now, &me()).unwrap_err(), DropError::NotClaimed);
    assert_eq!(DropError::NotClaimed.message("lv-cccc"), "lv-cccc is not claimed");
    assert_eq!(
        DropError::NotYours("o".into(), "m2".into()).message("lv-a"),
        "lv-a is claimed by o on m2, not you (use `levi steal lv-a` to take it first)"
    );
    assert!(claim_released_by_close(&w, "b", now, &me(), false).is_some());
    assert!(claim_released_by_close(&w, "b", now, &me(), true).is_none());
    assert!(claim_released_by_close(&w, "a", now, &me(), false).is_none());
}

#[test]
fn next_claim_rechecks_the_reread_log() {
    let mut w = World::default();
    w.tasks.insert("a".into(), task("a", Priority::P2, "2026-07-01", &[]));
    w.tasks.insert("b".into(), task("b", Priority::P2, "2026-07-01", &[]));
    w.deps.insert(
        "a->b".into(),
        Dependency {
            id: "a->b".into(),
            project_id: "p".into(),
            blocker_task_id: "a".into(),
            blocked_task_id: "b".into(),
            blocker_project_id: None,
            blocker_ref: None,
            via: None,
        },
    );
    let mut st = StrMap::new();
    st.insert("a".to_string(), open());
    st.insert("b".to_string(), open());
    let now = instant("2026-07-18T12:00:00Z");
    assert!(next_claim_admits(&w, &st, "a", now, &me()));
    assert!(!next_claim_admits(&w, &st, "b", now, &me()));
    assert!(!next_claim_admits(&w, &st, "zzz", now, &me()));
    st.insert("a".to_string(), closed());
    assert!(!next_claim_admits(&w, &st, "a", now, &me()));
    assert!(next_claim_admits(&w, &st, "b", now, &me()));
    // A live claim by the same dev/machine/worktree is fine; anyone else's is not.
    w.claims.insert("b".into(), claim("b", "me@x", "m1", "/w1", "2026-07-18T11:30:00Z"));
    assert!(next_claim_admits(&w, &st, "b", now, &me()));
    w.claims.insert("b".into(), claim("b", "me@x", "m9", "/w1", "2026-07-18T11:30:00Z"));
    assert!(!next_claim_admits(&w, &st, "b", now, &me()));
}

#[test]
fn claims_carry_the_identity() {
    let c = new_claim(&me(), "t1", "p", "refs/heads/x", "2026-07-01T00:00:00Z", 60);
    assert_eq!(c.id, "t1");
    assert_eq!(c.task_id, "t1");
    assert_eq!(c.dev, "me@x");
    assert_eq!(c.worktree, "/w1");
    assert_eq!(c.git_ref, "refs/heads/x");
    assert_eq!(c.ttl_secs, 60);
}

#[test]
fn transitions_are_checked_unless_forced() {
    assert_eq!(check_transition(StatusKind::Closed, Status::Closed, false), Err(TransitionError::AlreadyClosed));
    assert_eq!(check_transition(StatusKind::Closed, Status::Closed, true), Ok(()));
    assert_eq!(check_transition(StatusKind::Reopened, Status::Open, false), Err(TransitionError::AlreadyOpen));
    assert_eq!(check_transition(StatusKind::Closed, Status::Open, false), Ok(()));
    assert_eq!(
        TransitionError::AlreadyOpen.message("lv-a"),
        "lv-a is already open on this checkout (use --force to reopen anyway)"
    );
    assert_eq!(status_line("lv-a", StatusKind::Closed, Some("0123456789abcdef")), "lv-a closed @ 01234567");
    assert_eq!(status_line("lv-a", StatusKind::Reopened, None), "lv-a reopened (everywhere)");
}

#[test]
fn dependencies_are_planned_and_matched() {
    assert_eq!(local_dependency("p", "a", "b", true).unwrap_err(), DepError::ViaOnLocal);
    assert_eq!(local_dependency("p", "a", "a", false).unwrap_err(), DepError::SelfBlock);
    assert_eq!(DepError::SelfBlock.message(), "a task cannot block itself");
    let d = local_dependency("p", "a", "b", false).unwrap();
    assert_eq!(d.id, "a->b");
    let f = foreign_dependency("p", "q", "ffff", "b", Some("release".into()), Some("cargo".into()));
    assert_eq!(f.id, "q/ffff->b");
    assert_eq!(f.blocker_project_id.as_deref(), Some("q"));
    let mut deps = StrMap::new();
    for d in [
        d,
        f,
        foreign_dependency("p", "q", "ff00", "b", None, None),
        foreign_dependency("p", "r", "eeee", "c", None, None),
    ] {
        deps.insert(d.id.clone(), d);
    }
    assert_eq!(foreign_dep_to_remove(&deps, "b", "ffff").unwrap().blocker_task_id, "ffff");
    assert_eq!(foreign_dep_to_remove(&deps, "b", "ff").unwrap_err(), ForeignDepError::Ambiguous);
    assert_eq!(foreign_dep_to_remove(&deps, "b", "ee").unwrap_err(), ForeignDepError::NoMatch);
    assert_eq!(foreign_dep_to_remove(&deps, "c", "ee").unwrap().id, "r/eeee->c");
}

#[test]
fn renames_trim_and_skip_no_ops() {
    let p = Some(Project {
        id: "pid".into(),
        name: "levi".into(),
        created_at: "2026-07-01T00:00:00Z".into(),
    });
    assert_eq!(rename_project(&None, "x"), Err(RenameError::NoProject));
    assert_eq!(rename_project(&p, "   "), Err(RenameError::EmptyName));
    assert_eq!(rename_project(&p, " levi "), Ok(Rename::Unchanged));
    match rename_project(&p, " levi2\n").unwrap() {
        Rename::Renamed(q) => {
            assert_eq!(q.name, "levi2");
            assert_eq!(q.id, "pid");
        }
        Rename::Unchanged => panic!("expected a rename"),
    }
}

#[test]
fn new_tasks_and_their_blockers() {
    let t = new_task("id1", "p", "Title".into(), None, None, vec!["x".into()], "d", "m", "2026-07-01T00:00:00Z").unwrap();
    assert_eq!(t.priority, Priority::P2);
    assert_eq!(t.body, "");
    assert_eq!(t.labels, ["x"]);
    let t = new_task("id1", "p", "Title".into(), Some("p0"), Some("b".into()), vec![], "d", "m", "now").unwrap();
    assert_eq!(t.priority, Priority::P0);
    assert_eq!(t.body, "b");
    assert_eq!(
        new_task("id1", "p", "T".into(), Some("urgent"), None, vec![], "d", "m", "now").unwrap_err(),
        EditError::InvalidPriority("urgent".into())
    );
    let deps = blockers_of_new_task("p", "new", &vec!["a".into(), "b".into()]);
    let ids: Vec<&str> = deps.iter().map(|d| d.id.as_str()).collect();
    assert_eq!(ids, ["a->new", "b->new"]);
}

#[test]
fn ls_filters_and_orders() {
    let mut w = World::default();
    w.tasks.insert("a".into(), task("a", Priority::P2, "2026-07-02", &["ui"]));
    w.tasks.insert("b".into(), task("b", Priority::P0, "2026-07-03", &[]));
    w.tasks.insert("c".into(), task("c", Priority::P2, "2026-07-01", &["ui"]));
    w.tasks.insert("d".into(), task("d", Priority::P1, "2026-07-01", &[]));
    w.claims.insert("d".into(), claim("d", "me@x", "m1", "/w1", "2026-07-18T11:30:00Z"));
    let mut st = StrMap::new();
    st.insert("a".to_string(), open());
    st.insert("b".to_string(), open());
    st.insert("c".to_string(), closed());
    st.insert("d".to_string(), open());
    let now = instant("2026-07-18T12:00:00Z");
    let f = |all, closed_, label: Option<&str>, mine| LsFilter {
        all,
        closed: closed_,
        label: label.map(str::to_string),
        mine,
    };
    assert_eq!(ls_rows(&w, &st, now, &me(), &f(false, false, None, false)), ["b", "d", "a"]);
    assert_eq!(ls_rows(&w, &st, now, &me(), &f(true, false, None, false)), ["b", "d", "c", "a"]);
    assert_eq!(ls_rows(&w, &st, now, &me(), &f(false, true, None, false)), ["c"]);
    assert_eq!(ls_rows(&w, &st, now, &me(), &f(true, false, Some("ui"), false)), ["c", "a"]);
    assert_eq!(ls_rows(&w, &st, now, &me(), &f(false, false, None, true)), ["d"]);
}

#[test]
fn show_and_warning_texts() {
    assert_eq!(full_reason("P2; ranked 1st of 1 eligible", None), "P2; ranked 1st of 1 eligible");
    assert_eq!(
        full_reason("P2", Some("fix exists on main @ 01234567".into())),
        "P2; note: fix exists on main @ 01234567 — consider merging it"
    );
    let info = ForeignInfo {
        status: Status::Closed,
        resolution: Resolution::Facts,
        observed: None,
        title: None,
    };
    assert_eq!(foreign_blocker_view("0123456789", "abcdef", Some(&info)), ("01234567/lv-abcd".to_string(), "closed", "facts"));
    assert_eq!(foreign_blocker_view("q", "ab", None), ("q/lv-ab".to_string(), "open", "partial"));
    assert_eq!(
        orphan_warning("0123456789", Some("abcdef0123")),
        "warning: anchor 01234567 was rewritten as abcdef01 (same patch-id); affected tasks may show as open here. Re-close with `levi close <id> --anchor abcdef01`."
    );
    assert!(orphan_warning("0123456789", None).starts_with("warning: anchor 01234567 is unreachable from any ref"));
}

#[test]
fn anchors_of_tasks_in_change_order() {
    let mut w = World::default();
    let sc = |id: &str, t: &str, a: Option<&str>| StatusChange {
        id: id.into(),
        project_id: "p".into(),
        task_id: t.into(),
        to_status: StatusKind::Closed,
        anchor_commit: a.map(str::to_string),
        created: "2026-07-01T00:00:00Z".into(),
        by_dev: "d".into(),
        by_machine: "m".into(),
    };
    w.status_changes = vec![sc("1", "a", Some("x1")), sc("2", "b", Some("y1")), sc("3", "a", None), sc("4", "a", Some("x2"))];
    assert_eq!(task_anchors(&w, &vec!["b".into(), "a".into()]), ["y1", "x1", "x2"]);
}
