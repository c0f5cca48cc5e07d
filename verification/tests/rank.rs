use levi::entities::{dependency_id, Claim, Dependency, Priority, Task};
use levi::ids::{resolve_prefix, short_id, PrefixError};
use levi::materialize::{Instant, World};
use levi::rank::{claim_is, ordinal, rank_next, transitive_unblocks, Identity};
use levi::resolve::{Resolution, ResolvedStatus, Status};
use levi::strmap::StrMap;

fn me() -> Identity {
    Identity {
        dev: "me@x".into(),
        machine: "m1".into(),
        machine_id: String::new(),
        worktree: "/w1".into(),
    }
}

fn instant(s: &str) -> Instant {
    let t = chrono::DateTime::parse_from_rfc3339(s).unwrap();
    Instant {
        secs: t.timestamp(),
        nanos: t.timestamp_subsec_nanos(),
    }
}

fn now() -> Instant {
    instant("2026-07-18T12:00:00Z")
}

fn world_with(tasks: &[(&str, Priority, &str)]) -> (World, StrMap<ResolvedStatus>) {
    let mut w = World::default();
    let mut statuses = StrMap::new();
    for (id, priority, created_at) in tasks {
        w.tasks.insert(
            id.to_string(),
            Task {
                id: (*id).into(),
                project_id: "p".into(),
                title: format!("task {id}"),
                body: String::new(),
                priority: *priority,
                labels: vec![],
                created_by_dev: "d".into(),
                created_by_machine: "m".into(),
                created: created_at.to_string(),
            },
        );
        statuses.insert(
            id.to_string(),
            ResolvedStatus {
                status: Status::Open,
                resolution: Resolution::Exact,
            },
        );
    }
    (w, statuses)
}

fn dep(w: &mut World, blocker: &str, blocked: &str) {
    let id = dependency_id(blocker, blocked);
    w.deps.insert(
        id.clone(),
        Dependency {
            id,
            project_id: "p".into(),
            blocker_task_id: blocker.into(),
            blocked_task_id: blocked.into(),
            blocker_project_id: None,
            blocker_ref: None,
            via: None,
        },
    );
}

fn close(statuses: &mut StrMap<ResolvedStatus>, id: &str) {
    statuses.insert(
        id.to_string(),
        ResolvedStatus {
            status: Status::Closed,
            resolution: Resolution::Exact,
        },
    );
}

fn claim(w: &mut World, task: &str, dev: &str, machine: &str, worktree: &str, at: &str) {
    w.claims.insert(
        task.to_string(),
        Claim {
            id: task.into(),
            project_id: "p".into(),
            task_id: task.into(),
            dev: dev.into(),
            machine: machine.into(),
            worktree: worktree.into(),
            machine_id: String::new(),
            git_ref: "refs/heads/test".into(),
            created: at.into(),
            ttl_secs: 86400,
        },
    );
}

fn no_foreign() -> StrMap<Status> {
    StrMap::new()
}

#[test]
fn priority_beats_unblock_count() {
    let (mut w, statuses) = world_with(&[
        ("aaaa", Priority::P1, "2026-07-01T00:00:00Z"),
        ("bbbb", Priority::P0, "2026-07-02T00:00:00Z"),
        ("cccc", Priority::P2, "2026-07-03T00:00:00Z"),
        ("dddd", Priority::P2, "2026-07-04T00:00:00Z"),
    ]);
    dep(&mut w, "aaaa", "cccc");
    dep(&mut w, "aaaa", "dddd");
    let ranked = rank_next(&w, &statuses, &no_foreign(), now(), &me());
    assert_eq!(ranked[0].task_id, "bbbb");
    assert_eq!(ranked[1].task_id, "aaaa");
    assert!(ranked[0].reason.starts_with("P0"));
}

#[test]
fn unblock_count_beats_age() {
    let (mut w, statuses) = world_with(&[
        ("aaaa", Priority::P2, "2026-07-01T00:00:00Z"),
        ("bbbb", Priority::P2, "2026-07-02T00:00:00Z"),
        ("cccc", Priority::P2, "2026-07-03T00:00:00Z"),
    ]);
    dep(&mut w, "bbbb", "cccc");
    let ranked = rank_next(&w, &statuses, &no_foreign(), now(), &me());
    assert_eq!(ranked[0].task_id, "bbbb");
    assert!(ranked[0].reason.contains("unblocks 1 open task"));
}

#[test]
fn transitive_unblocks_counts_chain_and_survives_cycles() {
    let (mut w, mut statuses) = world_with(&[
        ("aaaa", Priority::P2, "2026-07-01T00:00:00Z"),
        ("bbbb", Priority::P2, "2026-07-02T00:00:00Z"),
        ("cccc", Priority::P2, "2026-07-03T00:00:00Z"),
        ("dddd", Priority::P2, "2026-07-04T00:00:00Z"),
    ]);
    dep(&mut w, "aaaa", "bbbb");
    dep(&mut w, "bbbb", "cccc");
    dep(&mut w, "cccc", "aaaa");
    dep(&mut w, "aaaa", "dddd");
    close(&mut statuses, "dddd");
    let ranked = rank_next(&w, &statuses, &no_foreign(), now(), &me());
    assert!(ranked.is_empty());
    close(&mut statuses, "cccc");
    let ranked = rank_next(&w, &statuses, &no_foreign(), now(), &me());
    assert_eq!(ranked[0].task_id, "aaaa");
    assert_eq!(ranked[0].unblocks, 1);
}

#[test]
fn blocked_task_ineligible_until_blocker_closed() {
    let (mut w, mut statuses) = world_with(&[
        ("aaaa", Priority::P2, "2026-07-01T00:00:00Z"),
        ("bbbb", Priority::P0, "2026-07-02T00:00:00Z"),
    ]);
    dep(&mut w, "aaaa", "bbbb");
    let ranked = rank_next(&w, &statuses, &no_foreign(), now(), &me());
    assert_eq!(ranked.iter().map(|r| r.task_id.as_str()).collect::<Vec<_>>(), ["aaaa"]);
    close(&mut statuses, "aaaa");
    let ranked = rank_next(&w, &statuses, &no_foreign(), now(), &me());
    assert_eq!(ranked[0].task_id, "bbbb");
}

#[test]
fn foreign_live_claim_excludes_but_own_or_expired_does_not() {
    let (mut w, statuses) = world_with(&[
        ("aaaa", Priority::P2, "2026-07-01T00:00:00Z"),
        ("bbbb", Priority::P2, "2026-07-02T00:00:00Z"),
        ("cccc", Priority::P2, "2026-07-03T00:00:00Z"),
    ]);
    claim(&mut w, "aaaa", "other@x", "m2", "/w2", "2026-07-18T11:00:00Z");
    claim(&mut w, "bbbb", "me@x", "m1", "/w1", "2026-07-18T11:00:00Z");
    claim(&mut w, "cccc", "other@x", "m2", "/w2", "2026-07-01T00:00:00Z");
    let ranked: Vec<_> = rank_next(&w, &statuses, &no_foreign(), now(), &me())
        .into_iter()
        .map(|r| r.task_id)
        .collect();
    assert_eq!(ranked, ["bbbb", "cccc"]);
}

#[test]
fn short_ids_and_prefix_resolution() {
    let (w, _) = world_with(&[
        ("3f2a99aabbcc", Priority::P2, "2026-07-01T00:00:00Z"),
        ("3f2b00ddeeff", Priority::P2, "2026-07-02T00:00:00Z"),
    ]);
    assert_eq!(short_id(&w, "3f2a99aabbcc"), "lv-3f2a");
    assert_eq!(resolve_prefix(&w, "lv-3f2a").unwrap(), "3f2a99aabbcc");
    assert_eq!(resolve_prefix(&w, "3f2b").unwrap(), "3f2b00ddeeff");
    assert!(matches!(resolve_prefix(&w, "3f2"), Err(PrefixError::Ambiguous(..))));
    assert!(matches!(resolve_prefix(&w, "9999"), Err(PrefixError::NotFound(..))));
}

#[test]
fn short_id_lengthens_on_collision() {
    let (w, _) = world_with(&[
        ("3f2a99aabbcc", Priority::P2, "2026-07-01T00:00:00Z"),
        ("3f2a99ffeedd", Priority::P2, "2026-07-02T00:00:00Z"),
    ]);
    assert_eq!(short_id(&w, "3f2a99aabbcc"), "lv-3f2a99aa");
    let listed: Vec<String> = vec!["9b00".into(), "3f2a99ffeedd".into(), "3f2a99aabbcc".into()];
    for id in ["3f2a99aabbcc", "3f2a99ffeedd", "9b00"] {
        assert_eq!(levi::dash::short_id(&listed, id), short_id(&w, id));
    }
}

#[test]
fn prefix_error_messages() {
    let (w, _) = world_with(&[
        ("3f2a99aabbcc", Priority::P2, "2026-07-01T00:00:00Z"),
        ("3f2b00ddeeff", Priority::P2, "2026-07-02T00:00:00Z"),
    ]);
    assert_eq!(resolve_prefix(&w, "9999").unwrap_err().message(), "no task matches '9999'");
    assert_eq!(
        resolve_prefix(&w, "3f2").unwrap_err().message(),
        "'3f2' is ambiguous: matches lv-3f2a99aa, lv-3f2b00dd"
    );
}

#[test]
fn foreign_dep_blocks_until_ladder_says_closed() {
    let (mut w, statuses) = world_with(&[("aaaa", Priority::P0, "2026-07-01T00:00:00Z")]);
    w.deps.insert(
        "projB/ffff->aaaa".into(),
        Dependency {
            id: "projB/ffff->aaaa".into(),
            project_id: "p".into(),
            blocker_task_id: "ffff".into(),
            blocked_task_id: "aaaa".into(),
            blocker_project_id: Some("projB".into()),
            blocker_ref: None,
            via: Some("cargo: crates.io".into()),
        },
    );
    let ranked = rank_next(&w, &statuses, &no_foreign(), now(), &me());
    assert!(ranked.is_empty());
    let mut foreign = StrMap::new();
    foreign.insert("projB/ffff".to_string(), Status::Open);
    assert!(rank_next(&w, &statuses, &foreign, now(), &me()).is_empty());
    foreign.insert("projB/ffff".to_string(), Status::Closed);
    let ranked = rank_next(&w, &statuses, &foreign, now(), &me());
    assert_eq!(ranked[0].task_id, "aaaa");
}

#[test]
fn claim_is_prefers_machine_id_with_legacy_fallback() {
    let claim = |machine: &str, machine_id: &str| Claim {
        id: "t".into(),
        project_id: "p".into(),
        task_id: "t".into(),
        dev: "me@x".into(),
        machine: machine.into(),
        machine_id: machine_id.into(),
        worktree: "/w1".into(),
        git_ref: "refs/heads/test".into(),
        created: "2026-07-01T00:00:00Z".into(),
        ttl_secs: 86400,
    };
    let me_with = |machine_id: &str| Identity {
        dev: "me@x".into(),
        machine: "m1".into(),
        machine_id: machine_id.into(),
        worktree: "/w1".into(),
    };
    assert!(claim_is(&claim("other-name", "id-1"), &me_with("id-1")));
    assert!(!claim_is(&claim("m1", "id-2"), &me_with("id-1")));
    assert!(claim_is(&claim("m1", ""), &me_with("id-1")));
    assert!(claim_is(&claim("m1", "id-1"), &me_with("")));
    assert!(!claim_is(&claim("m2", ""), &me_with("id-1")));
}

#[test]
fn transitive_unblocks_counts_open_descendants_once() {
    let (mut w, mut statuses) = world_with(&[
        ("aaaa", Priority::P2, "2026-07-01T00:00:00Z"),
        ("bbbb", Priority::P2, "2026-07-02T00:00:00Z"),
        ("cccc", Priority::P2, "2026-07-03T00:00:00Z"),
        ("dddd", Priority::P2, "2026-07-04T00:00:00Z"),
    ]);
    // Diamond: aaaa -> {bbbb, cccc} -> dddd.
    dep(&mut w, "aaaa", "bbbb");
    dep(&mut w, "aaaa", "cccc");
    dep(&mut w, "bbbb", "dddd");
    dep(&mut w, "cccc", "dddd");
    assert_eq!(transitive_unblocks("aaaa", &w, &statuses), 3);
    assert_eq!(transitive_unblocks("dddd", &w, &statuses), 0);
    close(&mut statuses, "bbbb");
    assert_eq!(transitive_unblocks("aaaa", &w, &statuses), 2);
}

#[test]
fn ordinals() {
    assert_eq!(ordinal(1), "1st");
    assert_eq!(ordinal(2), "2nd");
    assert_eq!(ordinal(3), "3rd");
    assert_eq!(ordinal(4), "4th");
    assert_eq!(ordinal(11), "11th");
    assert_eq!(ordinal(12), "12th");
    assert_eq!(ordinal(13), "13th");
    assert_eq!(ordinal(21), "21st");
    assert_eq!(ordinal(112), "112th");
}

#[test]
fn reason_mentions_rank_among_candidates() {
    let (w, statuses) = world_with(&[
        ("aaaa", Priority::P2, "2026-07-01T00:00:00Z"),
        ("bbbb", Priority::P2, "2026-07-02T00:00:00Z"),
    ]);
    let ranked = rank_next(&w, &statuses, &no_foreign(), now(), &me());
    assert_eq!(ranked.len(), 2);
    assert_eq!(ranked[0].task_id, "aaaa");
    assert!(ranked[0].reason.starts_with("P2"));
}

#[test]
fn my_claim_survives_a_hostname_change() {
    let (mut w, statuses) = world_with(&[("aaaa", Priority::P2, "2026-07-01T00:00:00Z")]);
    claim(&mut w, "aaaa", "me@x", "old-hostname", "/w1", "2026-07-18T11:00:00Z");
    let mut c = w.claims.get("aaaa").unwrap().clone();
    c.machine_id = "uuid-1".into();
    w.claims.insert("aaaa".to_string(), c);
    let mut me_now = me();
    me_now.machine_id = "uuid-1".into();
    let ranked = rank_next(&w, &statuses, &no_foreign(), now(), &me_now);
    assert_eq!(ranked.len(), 1);
    assert_eq!(ranked[0].task_id, "aaaa");
    let mut other = me();
    other.machine_id = "uuid-2".into();
    other.machine = "old-hostname".into();
    assert!(rank_next(&w, &statuses, &no_foreign(), now(), &other).is_empty());
}

#[test]
fn a_display_id_resolves_back_to_its_task() {
    let (w, _) = world_with(&[
        ("3f2a99aabbcc", Priority::P2, "2026-07-01T00:00:00Z"),
        ("3f2a99ffeedd", Priority::P2, "2026-07-02T00:00:00Z"),
        ("9b00", Priority::P2, "2026-07-03T00:00:00Z"),
    ]);
    for id in ["3f2a99aabbcc", "3f2a99ffeedd", "9b00"] {
        let short = short_id(&w, id);
        assert_eq!(resolve_prefix(&w, &short).unwrap(), id);
    }
    assert_eq!(short_id(&w, "3f2a99aabbcc"), "lv-3f2a99aa");
    let listed: Vec<String> = vec!["9b00".into(), "3f2a99ffeedd".into(), "3f2a99aabbcc".into()];
    for id in ["3f2a99aabbcc", "3f2a99ffeedd", "9b00"] {
        assert_eq!(levi::dash::short_id(&listed, id), short_id(&w, id));
    }
}
