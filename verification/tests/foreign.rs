use levi::entities::{CommitFact, Dependency, RefFact, StatusChange, StatusKind};
use levi::foreign::{
    foreign_blockers, hub_resolution, is_hex32, offline_target, parse_target, pick_head, resolve_one, status_map,
    ForeignInfo, SiblingAnswer,
};
use levi::resolve::{Resolution, ResolvedStatus, Status};
use levi::state::{ForeignStatus, ForeignStatusCache};
use levi::strmap::StrMap;

#[test]
fn parses_targets() {
    let t = parse_target("myko/lv-7c21").unwrap();
    assert_eq!(t.project, "myko");
    assert_eq!(t.task, "7c21");
    assert_eq!(t.refname, None);
    let t = parse_target("myko/7c21@release/2.x").unwrap();
    assert_eq!(t.refname.as_deref(), Some("release/2.x"));
    assert!(parse_target("no-slash").is_none());
    assert!(parse_target("/task").is_none());
    let full = parse_target(&format!("{}/{}", "a".repeat(32), "b".repeat(32))).unwrap();
    assert!(offline_target(&full).is_some());
    assert!(offline_target(&parse_target("myko/7c21").unwrap()).is_none());
}

#[test]
fn target_edge_cases() {
    assert!(parse_target("myko/").is_none());
    // An empty ref keeps the whole rest as the task.
    let t = parse_target("myko/7c21@").unwrap();
    assert_eq!(t.task, "7c21@");
    assert_eq!(t.refname, None);
    let t = parse_target("myko/@main").unwrap();
    assert_eq!(t.task, "@main");
    // Only the first slash splits project from task.
    let t = parse_target("a/b/c").unwrap();
    assert_eq!(t.project, "a");
    assert_eq!(t.task, "b/c");
}

#[test]
fn hex32_checks_length_and_digits() {
    assert!(is_hex32(&"0123456789abcdefABCDEF0123456789".to_string()));
    assert!(!is_hex32(&"a".repeat(31)));
    assert!(!is_hex32(&"g".repeat(32)));
    assert_eq!(
        offline_target(&parse_target(&format!("{}/{}", "a".repeat(32), "b".repeat(32))).unwrap()),
        Some(("a".repeat(32), "b".repeat(32)))
    );
}

fn cache_with(key: &str, status: &str, title: &str) -> ForeignStatusCache {
    let mut entries = StrMap::new();
    entries.insert(
        key.to_string(),
        ForeignStatus {
            status: status.into(),
            resolution: "facts".into(),
            observed: "2026-07-01T00:00:00Z".into(),
            title: title.into(),
        },
    );
    ForeignStatusCache::new("/tmp/cache.toml".into(), entries)
}

#[test]
fn ladder_prefers_sibling_then_cache_then_unknown() {
    let cache = cache_with("projB/ffff", "closed", "upstream fix");
    let sibling = SiblingAnswer {
        resolved: ResolvedStatus {
            status: Status::Open,
            resolution: Resolution::Exact,
        },
        title: Some("sibling title".into()),
    };
    let info = resolve_one(Some(sibling), &cache, "projB", "ffff");
    assert_eq!(info.status, Status::Open);
    assert_eq!(info.resolution, Resolution::Exact);
    assert_eq!(info.observed, None);
    assert_eq!(info.title.as_deref(), Some("sibling title"));

    let info = resolve_one(None, &cache, "projB", "ffff");
    assert_eq!(info.status, Status::Closed);
    assert_eq!(info.resolution, Resolution::Facts);
    assert_eq!(info.observed.as_deref(), Some("2026-07-01T00:00:00Z"));
    assert_eq!(info.title.as_deref(), Some("upstream fix"));

    let info = resolve_one(None, &cache, "projB", "eeee");
    assert_eq!(info.status, Status::Open);
    assert_eq!(info.resolution, Resolution::Partial);
    assert!(info.observed.is_none());
    assert!(info.title.is_none());
}

#[test]
fn cached_open_status_and_empty_title() {
    let cache = cache_with("projB/ffff", "open", "");
    let info = resolve_one(None, &cache, "projB", "ffff");
    assert_eq!(info.status, Status::Open);
    assert_eq!(info.resolution, Resolution::Facts);
    assert!(info.title.is_none());
}

#[test]
fn status_map_keeps_only_statuses() {
    let mut ladder = StrMap::new();
    ladder.insert(
        "p/a".to_string(),
        ForeignInfo {
            status: Status::Closed,
            resolution: Resolution::Facts,
            observed: None,
            title: None,
        },
    );
    ladder.insert(
        "p/b".to_string(),
        ForeignInfo {
            status: Status::Open,
            resolution: Resolution::Partial,
            observed: None,
            title: None,
        },
    );
    let m = status_map(&ladder);
    assert_eq!(m.len(), 2);
    assert_eq!(m.get("p/a"), Some(&Status::Closed));
    assert_eq!(m.get("p/b"), Some(&Status::Open));
}

fn fdep(id: &str, project: Option<&str>, blocker: &str, blocked: &str, r: Option<&str>) -> Dependency {
    Dependency {
        id: id.into(),
        project_id: "p".into(),
        blocker_task_id: blocker.into(),
        blocked_task_id: blocked.into(),
        blocker_project_id: project.map(str::to_string),
        blocker_ref: r.map(str::to_string),
        via: None,
    }
}

#[test]
fn foreign_blockers_are_distinct_and_skip_local_deps() {
    let mut deps = StrMap::new();
    for d in [
        fdep("a->b", None, "a", "b", None),
        fdep("q/f->b", Some("q"), "f", "b", Some("release")),
        fdep("q/f->c", Some("q"), "f", "c", None),
        fdep("r/g->c", Some("r"), "g", "c", None),
    ] {
        deps.insert(d.id.clone(), d);
    }
    let bs = foreign_blockers(&deps);
    let keys: Vec<&str> = bs.iter().map(|b| b.key.as_str()).collect();
    assert_eq!(keys, ["q/f", "r/g"]);
    assert_eq!(bs[0].project_id, "q");
    assert_eq!(bs[0].task_id, "f");
    assert_eq!(bs[0].blocker_ref.as_deref(), Some("release"));
    assert_eq!(bs[1].blocker_ref, None);
}

fn rf(branch: &str, head: &str, observed: &str) -> RefFact {
    RefFact {
        id: format!("q:{branch}"),
        project_id: "q".into(),
        branch: branch.into(),
        head: head.into(),
        observed: observed.into(),
    }
}

#[test]
fn pick_head_prefers_wanted_branch_then_latest() {
    let refs = vec![
        rf("main", "m1", "2026-01-01T00:00:00Z"),
        rf("release", "r1", "2026-02-01T00:00:00Z"),
        rf("dev", "d1", "2026-03-01T00:00:00Z"),
    ];
    assert_eq!(pick_head(&refs, "release").as_deref(), Some("r1"));
    assert_eq!(pick_head(&refs, "main").as_deref(), Some("m1"));
    assert_eq!(pick_head(&refs, "nope").as_deref(), Some("d1"));
    assert_eq!(pick_head(&[], "main"), None);
}

fn sc(id: &str, kind: StatusKind, anchor: Option<&str>, at: &str) -> StatusChange {
    StatusChange {
        id: id.into(),
        project_id: "q".into(),
        task_id: "f".into(),
        to_status: kind,
        anchor_commit: anchor.map(str::to_string),
        created: at.into(),
        by_dev: "d".into(),
        by_machine: "m".into(),
    }
}

fn cf(id: &str, parents: &[&str]) -> CommitFact {
    CommitFact {
        id: id.into(),
        project_id: "q".into(),
        parents: parents.iter().map(|p| p.to_string()).collect(),
        patch_id: None,
    }
}

#[test]
fn hub_resolution_resolves_against_the_consumed_branch() {
    let changes = vec![sc("x", StatusKind::Closed, Some("c2"), "2026-02-01T00:00:00Z")];
    let facts = vec![cf("c1", &[]), cf("c2", &["c1"]), cf("c3", &["c1"])];
    let refs = vec![rf("main", "c3", "2026-01-01T00:00:00Z"), rf("release", "c2", "2026-01-01T00:00:00Z")];
    // main (c3) does not contain the fix.
    let on_main = hub_resolution(&changes, &facts, &refs, None);
    assert_eq!(on_main.status, Status::Open);
    assert_eq!(on_main.resolution, Resolution::Facts);
    // release (c2) does.
    let on_release = hub_resolution(&changes, &facts, &refs, Some("release"));
    assert_eq!(on_release.status, Status::Closed);
    assert_eq!(on_release.resolution, Resolution::Facts);
    // No refs at all: the anchored close is unknown.
    let no_refs = hub_resolution(&changes, &facts, &[], None);
    assert_eq!(no_refs.status, Status::Open);
    assert_eq!(no_refs.resolution, Resolution::Partial);
}

#[test]
fn hub_resolution_orders_changes_by_time() {
    let changes = vec![
        sc("b", StatusKind::Reopened, None, "2026-03-01T00:00:00Z"),
        sc("a", StatusKind::Closed, None, "2026-02-01T00:00:00Z"),
    ];
    let r = hub_resolution(&changes, &[], &[], None);
    assert_eq!(r.status, Status::Open);
    assert_eq!(r.resolution, Resolution::Partial);
}
