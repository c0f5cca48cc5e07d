use levi::agent_docs::{init_instructions, onboard_instructions, update_block, BlockError, BEGIN, END};
use levi::config::{FileConfig, LeviConfig, DEFAULT_CLAIM_TTL_SECS, DEFAULT_PATCH_ID_WINDOW};
use levi::dep::would_cycle;
use levi::edit::{edit_task, EditError};
use levi::entities::{
    applied_id, dependency_id, foreign_dependency_id, foreign_key, ref_fact_id, Claim, Dependency, Priority, Task,
};
use levi::materialize::{Instant, World};
use levi::output::{elsewhere_hint, task_line, ElsewhereClose};
use levi::resolve::{Resolution, ResolvedStatus, Status};
use levi::strmap::StrMap;

fn task(id: &str, title: &str, labels: &[&str]) -> Task {
    Task {
        id: id.into(),
        project_id: "p".into(),
        title: title.into(),
        body: "body".into(),
        priority: Priority::P2,
        labels: labels.iter().map(|l| l.to_string()).collect(),
        created_by_dev: "d".into(),
        created_by_machine: "m".into(),
        created: "2026-07-01T00:00:00Z".into(),
    }
}

#[test]
fn entity_ids() {
    assert_eq!(dependency_id("a", "b"), "a->b");
    assert_eq!(foreign_dependency_id("q", "f", "b"), "q/f->b");
    assert_eq!(ref_fact_id("p", "main"), "p:main");
    assert_eq!(foreign_key("p", "t"), "p/t");
    assert_eq!(applied_id("Task", "t1"), "Task:t1");
}

#[test]
fn instruction_blocks_are_delimited() {
    let init = init_instructions();
    assert!(init.starts_with(BEGIN));
    assert!(init.ends_with(END));
    assert!(init.contains("## Task tracking (levi)"));
    let onboard = onboard_instructions();
    assert!(onboard.starts_with(BEGIN));
    assert!(onboard.ends_with(END));
}

#[test]
fn update_block_appends_replaces_and_refuses() {
    let block = format!("{BEGIN}\nnew\n{END}");
    assert_eq!(update_block("", &block).unwrap(), format!("{block}\n"));
    assert_eq!(update_block("# Notes", &block).unwrap(), format!("# Notes\n\n{block}\n"));
    assert_eq!(update_block("# Notes\n", &block).unwrap(), format!("# Notes\n\n{block}\n"));
    let current = format!("head\n{BEGIN}\nold\n{END}\ntail\n");
    assert_eq!(update_block(&current, &block).unwrap(), format!("head\n{block}\ntail\n"));
    assert_eq!(update_block(&format!("x {BEGIN} y"), &block), Err(BlockError::BrokenMarkers));
    assert_eq!(update_block(&format!("x {END} y"), &block), Err(BlockError::BrokenMarkers));
    assert_eq!(update_block(&format!("{END} x {BEGIN}"), &block), Err(BlockError::BrokenMarkers));
}

#[test]
fn update_block_is_idempotent() {
    let block = init_instructions();
    let once = update_block("# Readme\n", &block).unwrap();
    let twice = update_block(&once, &block).unwrap();
    assert_eq!(once, twice);
}

#[test]
fn config_layers_repo_over_global_over_defaults() {
    let repo = FileConfig {
        hub: Some("repo:1".into()),
        remote: None,
        claim_ttl_secs: None,
        patch_id_window: Some(10),
    };
    let global = FileConfig {
        hub: Some("global:2".into()),
        remote: Some("upstream".into()),
        claim_ttl_secs: None,
        patch_id_window: Some(20),
    };
    let c = LeviConfig::from_layers(&repo, &global);
    assert_eq!(c.hub.as_deref(), Some("repo:1"));
    assert_eq!(c.remote, "upstream");
    assert_eq!(c.claim_ttl_secs, DEFAULT_CLAIM_TTL_SECS);
    assert_eq!(c.claim_ttl_secs, 86400);
    assert_eq!(c.patch_id_window, 10);
    let d = LeviConfig::from_layers(&FileConfig::default(), &FileConfig::default());
    assert_eq!(d.hub, None);
    assert_eq!(d.remote, "origin");
    assert_eq!(d.patch_id_window, DEFAULT_PATCH_ID_WINDOW);
    assert_eq!(d.patch_id_window, 300);
}

fn dep(blocker: &str, blocked: &str) -> Dependency {
    Dependency {
        id: dependency_id(blocker, blocked),
        project_id: "p".into(),
        blocker_task_id: blocker.into(),
        blocked_task_id: blocked.into(),
        blocker_project_id: None,
        blocker_ref: None,
        via: None,
    }
}

#[test]
fn would_cycle_follows_existing_blocks() {
    let mut deps = StrMap::new();
    for d in [dep("a", "b"), dep("b", "c")] {
        deps.insert(d.id.clone(), d);
    }
    assert!(would_cycle(&deps, "c", "a"));
    assert!(would_cycle(&deps, "b", "a"));
    assert!(!would_cycle(&deps, "a", "c"));
    assert!(!would_cycle(&deps, "x", "y"));
    assert!(would_cycle(&deps, "x", "x"));
}

#[test]
fn edit_applies_priority_title_body_and_labels() {
    let t = task("t1", "old", &["a", "b"]);
    let labels = vec!["-a".to_string(), "+c".to_string(), "b".to_string(), "d".to_string()];
    let e = edit_task(&t, Some("P0"), Some("new".into()), &labels, Some("new body".into())).unwrap();
    assert_eq!(e.id, "t1");
    assert_eq!(e.priority, Priority::P0);
    assert_eq!(e.title, "new");
    assert_eq!(e.body, "new body");
    assert_eq!(e.labels, ["b", "c", "d"]);
    assert_eq!(e.created, t.created);
}

#[test]
fn edit_refuses_bad_priority_and_empty_edits() {
    let t = task("t1", "old", &[]);
    let err = edit_task(&t, Some("p7"), None, &vec![], None).unwrap_err();
    assert_eq!(err, EditError::InvalidPriority("p7".into()));
    assert_eq!(err.message(), "invalid priority 'p7' (use p0..p3)");
    let err = edit_task(&t, None, None, &vec![], None).unwrap_err();
    assert_eq!(err, EditError::NothingToEdit);
    assert_eq!(err.message(), "nothing to edit (use -p, --title, -b, or -l)");
}

fn elsewhere(anchor: &str, branches: &[&str]) -> ElsewhereClose {
    ElsewhereClose {
        anchor: anchor.into(),
        at: "2026-07-01T00:00:00Z".into(),
        by: "d".into(),
        branches: branches.iter().map(|b| b.to_string()).collect(),
    }
}

#[test]
fn elsewhere_hint_names_branches_and_short_anchor() {
    assert_eq!(elsewhere_hint(&[]), None);
    assert_eq!(
        elsewhere_hint(&[elsewhere("0123456789abcdef", &["main", "rel"])]).as_deref(),
        Some("fix exists on main, rel @ 01234567")
    );
    assert_eq!(elsewhere_hint(&[elsewhere("abc", &[])]).as_deref(), Some("fix exists @ abc"));
}

fn instant(s: &str) -> Instant {
    let t = chrono::DateTime::parse_from_rfc3339(s).unwrap();
    Instant {
        secs: t.timestamp(),
        nanos: t.timestamp_subsec_nanos(),
    }
}

#[test]
fn task_line_pads_columns_and_appends_notes() {
    let mut w = World::default();
    let t = task("aaaabbbb", "Fix it", &["x", "y"]);
    w.tasks.insert(t.id.clone(), t.clone());
    let open = ResolvedStatus {
        status: Status::Open,
        resolution: Resolution::Exact,
    };
    let now = instant("2026-07-01T01:00:00Z");
    assert_eq!(task_line(&w, &t, &open, now, &[]), "lv-aaaa      P2 open    Fix it  [x, y]");
    w.claims.insert(
        "aaaabbbb".into(),
        Claim {
            id: "aaaabbbb".into(),
            project_id: "p".into(),
            task_id: "aaaabbbb".into(),
            dev: "me@x".into(),
            machine: "m".into(),
            machine_id: String::new(),
            worktree: "/w".into(),
            git_ref: "refs/heads/x".into(),
            created: "2026-07-01T00:00:00Z".into(),
            ttl_secs: 86400,
        },
    );
    let partial = ResolvedStatus {
        status: Status::Closed,
        resolution: Resolution::Partial,
    };
    assert_eq!(
        task_line(&w, &t, &partial, now, &[elsewhere("0123456789", &["main"])]),
        "lv-aaaa      P2 closed  Fix it  [x, y]  (claimed by me@x)  ⚠ unknown anchor  (fix exists on main @ 01234567 — consider merging)"
    );
}
