use levi::ancestors::repo_ancestry;
use levi::commands::claim_ref;
use levi::entities::{Claim, Comment, Dependency, LogEntry, Priority, StatusChange, StatusKind, Task};
use levi::graph::{build_from_live, GraphNode};
use levi::graph_view::{nodes_by_id, section_head};
use levi::hub_client::{wrap_for_hub, Encoded};
use levi::in_flight::{claim_row_names, dev_tally, in_flight, FlightRow};
use levi::init::{adopt_step, adopted, default_targets, AdoptStep};
use levi::materialize::World;
use levi::resolve::{Ancestry, MapAncestors, PartialMapAncestors};
use levi::sections::SectionPlan;
use levi::show::{applies_here, show_links, BlockerAt};
use levi::state::{pick_sibling, stored_machine_id, Checkout};
use levi::store::{append_message, append_needs_commit, cas_delay_ms, merge_message, merge_needs_commit, EventSet};
use levi::strmap::StrMap;
use levi::sync::{fetch_refspec, no_remote_report, tracking_ref, GitLeg, GitLegAction};
use levi::entities::{Applied, Project};
use levi::hub::apply_decision;

use levi::lookup::cross_project_rows;
use levi::lookup::{find_project, find_task, ProjectLookupError, TaskLookupError};
use levi::materialize::{materialize, EventChange, EventRecord, Item, ItemKind};
use levi::resolve::{effective_status, Resolution, ResolvedStatus, Status};

fn task(id: &str) -> Task {
    Task {
        id: id.into(),
        project_id: "p".into(),
        title: format!("task {id}"),
        body: String::new(),
        priority: Priority::P2,
        labels: vec![],
        created_by_dev: "d".into(),
        created_by_machine: "m".into(),
        created: "2026-07-01T00:00:00Z".into(),
    }
}

fn dep(blocker: &str, blocked: &str, project: Option<&str>) -> Dependency {
    Dependency {
        id: match project {
            Some(p) => format!("{p}/{blocker}->{blocked}"),
            None => format!("{blocker}->{blocked}"),
        },
        project_id: "p".into(),
        blocker_task_id: blocker.into(),
        blocked_task_id: blocked.into(),
        blocker_project_id: project.map(|p| p.to_string()),
        blocker_ref: None,
        via: project.map(|_| "cargo".to_string()),
    }
}

fn change(anchor: Option<&str>) -> StatusChange {
    StatusChange {
        id: "c".into(),
        project_id: "p".into(),
        task_id: "t".into(),
        to_status: StatusKind::Closed,
        anchor_commit: anchor.map(|a| a.to_string()),
        created: "2026-07-01T00:00:00Z".into(),
        by_dev: "d".into(),
        by_machine: "m".into(),
    }
}

#[test]
fn show_reports_where_each_change_applies() {
    let mut anc = PartialMapAncestors::new(vec!["aaaa".into()], vec!["cccc".into()]);
    assert_eq!(applies_here(&change(None), &mut anc), "yes");
    assert_eq!(applies_here(&change(Some("aaaa")), &mut anc), "yes");
    assert_eq!(applies_here(&change(Some("bbbb")), &mut anc), "no");
    assert_eq!(applies_here(&change(Some("cccc")), &mut anc), "unknown");
    let mut everywhere = MapAncestors::new(vec![]);
    assert_eq!(applies_here(&change(Some("aaaa")), &mut everywhere), "no");
}

#[test]
fn show_lists_blockers_blocked_and_comments() {
    let mut w = World::default();
    for id in ["a", "b", "c"] {
        w.tasks.insert(id.into(), task(id));
    }
    w.deps.insert("a->b".into(), dep("a", "b", None));
    w.deps.insert("b->c".into(), dep("b", "c", None));
    w.deps.insert("zz->b".into(), dep("zz", "b", None));
    w.deps.insert("q/f->b".into(), dep("f", "b", Some("q")));
    w.comments.push(Comment {
        id: "k1".into(),
        project_id: "p".into(),
        task_id: "b".into(),
        body: "hi".into(),
        by_dev: "d".into(),
        created: "2026-07-02T00:00:00Z".into(),
    });
    w.comments.push(Comment {
        id: "k2".into(),
        project_id: "p".into(),
        task_id: "a".into(),
        body: "other".into(),
        by_dev: "d".into(),
        created: "2026-07-03T00:00:00Z".into(),
    });
    let links = show_links(&w, "b");
    // Deps in key order: a->b, b->c, q/f->b, zz->b.
    assert_eq!(
        links.blocked_by,
        vec![BlockerAt { index: 0, foreign: false }, BlockerAt { index: 2, foreign: true }]
    );
    assert_eq!(links.blocks, vec![1]);
    assert_eq!(links.comments, vec![0]);
    let none = show_links(&w, "nope");
    assert!(none.blocked_by.is_empty() && none.blocks.is_empty() && none.comments.is_empty());
}

fn fclaim(task: &str, dev: &str, machine: &str, worktree: &str, at: &str) -> Claim {
    Claim {
        id: task.into(),
        project_id: "p".into(),
        task_id: task.into(),
        dev: dev.into(),
        machine: machine.into(),
        machine_id: String::new(),
        worktree: worktree.into(),
        git_ref: "refs/heads/x".into(),
        created: at.into(),
        ttl_secs: 3600,
    }
}

fn row(index: usize, live: bool, d: bool, m: bool, w: bool) -> FlightRow {
    FlightRow { index, live, new_dev: d, new_machine: m, new_worktree: w }
}

#[test]
fn in_flight_groups_by_dev_machine_worktree() {
    let claims = vec![
        fclaim("t0", "bob", "m1", "/w", "2026-07-01T00:00:00Z"),
        fclaim("t1", "alice", "m2", "/w", "2026-07-01T00:00:00Z"),
        fclaim("t2", "alice", "m1", "/x", "2026-07-01T00:00:00Z"),
        fclaim("t3", "alice", "m1", "/x", "2026-07-03T00:00:00Z"),
        fclaim("t4", "alice", "m1", "/x", "2026-07-05T00:00:00Z"),
    ];
    let live = vec![true, true, true, true, false];
    let rows = in_flight(&claims, &live);
    assert_eq!(
        rows,
        vec![
            // alice / m1 / x: live newest first, then the expired one.
            row(3, true, true, true, true),
            row(2, true, false, false, false),
            row(4, false, false, false, false),
            row(1, true, false, true, true),
            row(0, true, true, true, true),
        ]
    );
    assert_eq!(dev_tally(&claims, &live, "alice"), (3, 1));
    assert_eq!(dev_tally(&claims, &live, "bob"), (1, 0));
    assert_eq!(dev_tally(&claims, &live, "carol"), (0, 0));
    assert!(in_flight(&[], &[]).is_empty());
}

#[test]
fn claim_rows_name_the_task() {
    assert_eq!(
        claim_row_names("7c21abcdef", Some("Fix it".into())),
        ("lv-7c21ab".to_string(), "Fix it".to_string())
    );
    assert_eq!(claim_row_names("7c2", None), ("lv-7c2".to_string(), "lv-7c2".to_string()));
}

#[test]
fn repo_ancestry_reads_what_git_says() {
    let head = "aaaaaaaaaaaaaaaaaaaaaaaaaaaaaaaaaaaaaaaa";
    let other = "bbbbbbbbbbbbbbbbbbbbbbbbbbbbbbbbbbbbbbbb";
    assert_eq!(repo_ancestry(None, other, true, None), Ancestry::No);
    assert_eq!(repo_ancestry(Some(head), "not-a-sha", false, None), Ancestry::Unknown);
    assert_eq!(repo_ancestry(Some(head), other, false, None), Ancestry::Unknown);
    assert_eq!(repo_ancestry(Some(head), head, true, Some(head)), Ancestry::Yes);
    assert_eq!(repo_ancestry(Some(head), &head.to_uppercase(), true, None), Ancestry::Yes);
    assert_eq!(repo_ancestry(Some(head), other, true, Some(other)), Ancestry::Yes);
    assert_eq!(repo_ancestry(Some(head), other, true, Some(head)), Ancestry::No);
    assert_eq!(repo_ancestry(Some(head), other, true, None), Ancestry::No);
}

#[test]
fn git_leg_pushes_with_bounded_retries() {
    assert_eq!(tracking_ref("origin"), "refs/levi/remotes/origin/events");
    assert_eq!(fetch_refspec("origin"), "+refs/levi/events:refs/levi/remotes/origin/events");
    assert_eq!(no_remote_report("origin"), "no remote 'origin' configured; skipped");
    let (mut leg, first) = GitLeg::new("origin".into(), 4);
    assert_eq!(first, GitLegAction::Push);
    assert_eq!(leg.on_push(true), GitLegAction::Done("4 new event(s) fetched, pushed to origin".into()));

    let (mut leg, _) = GitLeg::new("origin".into(), 0);
    for attempt in 1..=3 {
        assert_eq!(leg.on_push(false), GitLegAction::Refetch);
        assert_eq!(leg.on_refetch(true, ""), GitLegAction::Merge);
        let next = leg.on_merged();
        if attempt < 3 {
            assert_eq!(next, GitLegAction::Push);
        } else {
            assert_eq!(next, GitLegAction::Fail("could not push refs/levi/events to origin after 3 attempts".into()));
        }
    }
    let (mut leg, _) = GitLeg::new("origin".into(), 0);
    assert_eq!(leg.on_push(false), GitLegAction::Refetch);
    assert_eq!(
        leg.on_refetch(false, "  rejected\n"),
        GitLegAction::Fail("push to origin failed and re-fetch failed: rejected".into())
    );
}

#[test]
fn init_adopts_only_what_the_remote_has() {
    assert_eq!(adopt_step(true, true, Some(0), "origin", ""), AdoptStep::Mint);
    assert_eq!(adopt_step(false, false, None, "origin", ""), AdoptStep::Mint);
    assert_eq!(adopt_step(false, true, Some(2), "origin", ""), AdoptStep::Mint);
    assert_eq!(adopt_step(false, true, Some(0), "origin", ""), AdoptStep::Fetch);
    assert_eq!(
        adopt_step(false, true, Some(128), "origin", " fatal: unreachable \n"),
        AdoptStep::Refuse(
            "cannot reach remote 'origin' to check for an existing levi project: fatal: unreachable\n\
             retry when online, or pass --no-sync to initialize a standalone project"
                .into()
        )
    );
    let p = Project {
        id: "pid".into(),
        name: "demo".into(),
        created_at: "2026-07-01T00:00:00Z".into(),
    };
    assert_eq!(adopted(Some(&p), "origin").unwrap().name, "demo");
    assert_eq!(
        adopted(None, "origin").unwrap_err(),
        "fetched events from 'origin' but found no project event; refusing to mint a new project over them"
    );
    let known = |guide: bool, agents: bool| [("GUIDE.md", guide), ("AGENTS.md", agents)];
    assert_eq!(default_targets(&known(false, false), "AGENTS.md"), vec!["AGENTS.md"]);
    assert_eq!(default_targets(&known(true, false), "AGENTS.md"), vec!["GUIDE.md"]);
    assert_eq!(default_targets(&known(false, true), "AGENTS.md"), vec!["AGENTS.md"]);
    assert_eq!(default_targets(&known(true, true), "AGENTS.md"), vec!["GUIDE.md", "AGENTS.md"]);
    assert_eq!(default_targets(&[], "AGENTS.md"), vec!["AGENTS.md"]);
}

#[test]
fn claims_need_a_branch() {
    assert_eq!(claim_ref(Some("refs/heads/main")).unwrap(), "refs/heads/main");
    assert_eq!(
        claim_ref(None).unwrap_err(),
        "cannot claim from detached HEAD; check out a branch first"
    );
    assert_eq!(
        claim_ref(Some("refs/tags/v1")).unwrap_err(),
        "cannot claim from non-branch Git ref 'refs/tags/v1'; check out a branch first"
    );
}

#[test]
fn event_sets_merge_by_union() {
    let ids = [
        "ab12000000000000000000000000000000000000",
        "ab34000000000000000000000000000000000000",
        "cd56000000000000000000000000000000000000",
    ];
    let mut ours = EventSet::new();
    assert!(ours.insert_blob(ids[0].into()));
    assert!(!ours.insert_blob(ids[0].into()));
    assert!(ours.insert_blob(ids[2].into()));
    let mut theirs = EventSet::new();
    theirs.insert_blob(ids[1].into());
    theirs.insert_blob(ids[2].into());
    assert_eq!(ours.merge(&theirs), 1);
    assert_eq!(ours.len(), 3);
    assert!(ours.contains(ids[1]));
    // Idempotent: merging the same history again adds nothing.
    assert_eq!(ours.merge(&theirs), 0);
    assert_eq!(ours.len(), 3);
    // Commutative: theirs ∪ ours holds the same events.
    let mut other = EventSet::new();
    other.insert_blob(ids[1].into());
    other.insert_blob(ids[2].into());
    assert_eq!(other.merge(&ours), 1);
    assert_eq!(other.len(), 3);
    assert_eq!(other.layout(), ours.layout());
    assert_eq!(
        ours.layout(),
        vec![
            (
                "ab".to_string(),
                vec!["12000000000000000000000000000000000000".to_string(), "34000000000000000000000000000000000000".to_string()]
            ),
            ("cd".to_string(), vec!["56000000000000000000000000000000000000".to_string()]),
        ]
    );
    assert!(EventSet::new().layout().is_empty());
}

#[test]
fn store_commit_decisions() {
    assert!(append_needs_commit(0, false));
    assert!(!append_needs_commit(0, true));
    assert!(append_needs_commit(2, true));
    assert!(merge_needs_commit(1, true));
    assert!(!merge_needs_commit(0, true));
    assert!(merge_needs_commit(0, false));
    assert_eq!(append_message(3), "levi: 3 event(s)");
    assert_eq!(merge_message(0), "levi: merge 0 event(s)");
    assert_eq!(cas_delay_ms(0), 0);
    assert_eq!(cas_delay_ms(4), 80);
}

#[test]
fn machine_ids_and_siblings() {
    assert_eq!(stored_machine_id("  abc123\n"), Some("abc123".to_string()));
    assert_eq!(stored_machine_id(" \n"), None);
    let cs = vec![
        Checkout { path: "/gone".into(), last_used: "2026-07-09".into(), exists: false },
        Checkout { path: "/old".into(), last_used: "2026-07-01".into(), exists: true },
        Checkout { path: "/new".into(), last_used: "2026-07-05".into(), exists: true },
        Checkout { path: "/tie".into(), last_used: "2026-07-05".into(), exists: true },
    ];
    assert_eq!(pick_sibling(&cs, "/elsewhere"), (Some(2), vec![0]));
    assert_eq!(pick_sibling(&cs, "/new"), (Some(3), vec![0]));
    assert_eq!(pick_sibling(&cs[..2], "/old"), (None, vec![0]));
}

#[test]
fn hub_writes_are_content_addressed() {
    // `git hash-object` of the blob "hello\n".
    let events = vec![Encoded { bytes: b"hello\n".to_vec(), created_at: "2026-07-01T00:00:00Z".into() }];
    let (ids, entries) = wrap_for_hub("proj", &events).unwrap();
    assert_eq!(ids, vec!["ce013625030ba8dba906f756967f9e9ca394464a".to_string()]);
    let e: &LogEntry = &entries[0];
    assert_eq!(e.id, ids[0]);
    assert_eq!(e.project_id, "proj");
    assert_eq!(e.cbor_b64, "aGVsbG8K");
    assert_eq!(e.event_bytes().unwrap(), b"hello\n".to_vec());
}

#[test]
fn section_headers_name_base_blockers_and_projects() {
    let node = |id: &str, project: &str| GraphNode {
        task_id: id.into(),
        project_id: project.into(),
        title: id.into(),
        priority: Priority::P2,
        status: levi::resolve::Status::Open,
        layer: 0,
        stub: false,
    };
    let nodes = vec![
        node("aaaaaaaa1", "p1"),
        node("bbbbbbbb2", "p2xxxxxxxxxx"),
        node("cccccccc3", "p1"),
        node("dddddddd4", "p1"),
        node("eeeeeeee5", "p1"),
    ];
    let by_id = nodes_by_id(&nodes);
    let plan = SectionPlan {
        node_ids: nodes.iter().map(|n| n.task_id.clone()).collect(),
        layers: vec![0],
        columns: vec![],
        root_ids: vec!["aaaaaaaa1".into(), "zz".into(), "bbbbbbbb2".into(), "cccccccc3".into(), "dddddddd4".into()],
        best_rank: 2,
    };
    let colors = vec![("p1".to_string(), "#111".to_string())];
    let mut names = StrMap::new();
    names.insert("p1".to_string(), "one".to_string());
    let head = section_head(&plan, &by_id, &colors, &names);
    assert_eq!(
        head.roots,
        vec![("lv-aaaaaa".to_string(), "#111".to_string()), ("lv-bbbbbb".to_string(), "#7c7a86".to_string())]
    );
    assert_eq!(head.extra, 2);
    assert_eq!(head.project_labels, vec!["one".to_string(), "p2xxxxxx".to_string()]);
    assert_eq!(head.projects, "one, p2xxxxxx");
}

#[test]
fn newest_claim_wins_and_a_delete_releases() {
    let set = |oid: &str, dev: &str, at: &str| EventRecord {
        id: oid.into(),
        created_at: at.into(),
        change: EventChange::Upsert(Item::Claim(fclaim("t1", dev, "m", "/w", at))),
    };
    // Arrival order does not matter: the later claim wins.
    let w = materialize(vec![
        set("e2", "bob", "2026-07-02T00:00:00Z"),
        set("e1", "alice", "2026-07-01T00:00:00Z"),
    ]);
    assert_eq!(w.claims.get("t1").unwrap().dev, "bob");
    let w = materialize(vec![
        set("e1", "alice", "2026-07-01T00:00:00Z"),
        EventRecord {
            id: "e3".into(),
            created_at: "2026-07-03T00:00:00Z".into(),
            change: EventChange::Remove(ItemKind::Claim, "t1".into()),
        },
    ]);
    assert!(w.claims.get("t1").is_none());
}

#[test]
fn a_close_anchored_in_ancestry_applies() {
    let c = change(Some("aaaa"));
    let mut here = MapAncestors::new(vec!["aaaa".into()]);
    assert_eq!(
        effective_status(&[&c], &mut here, Resolution::Exact),
        ResolvedStatus { status: Status::Closed, resolution: Resolution::Exact }
    );
    let mut elsewhere = MapAncestors::new(vec![]);
    assert_eq!(
        effective_status(&[&c], &mut elsewhere, Resolution::Exact),
        ResolvedStatus { status: Status::Open, resolution: Resolution::Exact }
    );
}

#[test]
fn hub_names_resolve_to_one_project_or_task() {
    let project = |id: &str, name: &str| Project { id: id.into(), name: name.into(), created_at: String::new() };
    let ps = vec![project("p1", "myko"), project("p2", "levi"), project("p3", "levi"), project("myko", "x")];
    assert_eq!(find_project(&ps, "p2"), Ok(1));
    // An id match wins over a name match.
    assert_eq!(find_project(&ps, "myko"), Ok(3));
    assert_eq!(find_project(&ps, "x"), Ok(3));
    assert_eq!(find_project(&ps, "nope"), Err(ProjectLookupError::NotFound("nope".into())));
    let amb = find_project(&ps, "levi").unwrap_err();
    assert_eq!(amb, ProjectLookupError::Ambiguous("levi".into(), vec!["p2".into(), "p3".into()]));
    assert_eq!(amb.message(), "project name 'levi' is ambiguous on the hub; use an id: p2, p3");
    assert_eq!(
        ProjectLookupError::NotFound("q".into()).message(),
        "no project named 'q' on the hub"
    );

    let ts = vec![task("7c21aaaabbbb"), task("7c29ccccdddd"), task("0000")];
    assert_eq!(find_task(&ts, "7c21"), Ok(0));
    assert_eq!(find_task(&ts, "ffff"), Err(TaskLookupError::NoMatch("ffff".into())));
    let amb = find_task(&ts, "7c2").unwrap_err();
    assert_eq!(amb.message(), "'7c2' is ambiguous in that project: lv-7c21aaaa, lv-7c29cccc");
}

#[test]
fn cross_project_listing_filters_and_orders() {
    let mk = |id: &str, project: &str, p: Priority| {
        let mut t = task(id);
        t.project_id = project.into();
        t.priority = p;
        t
    };
    let tasks = vec![
        mk("b1", "pb", Priority::P1),
        mk("a1", "pa", Priority::P2),
        mk("a2", "pa", Priority::P1),
        mk("a3", "pa", Priority::P0),
    ];
    let mut close = change(None);
    close.project_id = "pa".into();
    close.task_id = "a3".into();
    let changes = vec![close];
    let wanted = vec![("pa".to_string(), "alpha".to_string()), ("pb".to_string(), "beta".to_string())];
    let rows = cross_project_rows(&tasks, &changes, &wanted, false, false, None);
    let ids: Vec<&str> = rows.iter().map(|r| r.id.as_str()).collect();
    assert_eq!(ids, vec!["a2", "b1", "a1"]);
    let closed = cross_project_rows(&tasks, &changes, &wanted, false, true, None);
    assert_eq!(closed.len(), 1);
    assert_eq!(closed[0].id, "a3");
    assert_eq!(closed[0].status.resolution, levi::resolve::Resolution::Partial);
    let all = cross_project_rows(&tasks, &changes, &wanted[1..], true, false, None);
    assert_eq!(all.len(), 1);
    assert_eq!(all[0].name, "beta");
}

#[test]
fn unwrapping_applies_only_newer_events() {
    assert_eq!(
        apply_decision("LogEntry", Some("x"), None, "2026-07-01", "e1").unwrap_err(),
        "refusing to unwrap a nested LogEntry"
    );
    assert_eq!(apply_decision("Task", None, None, "2026-07-01", "e1").unwrap_err(), "wrapped event has no item id");
    let fresh = apply_decision("Task", Some("t1"), None, "2026-07-01", "e1").unwrap().unwrap();
    assert_eq!(fresh.id, "Task:t1");
    assert_eq!(fresh.event_created, "2026-07-01");
    assert_eq!(fresh.event_oid, "e1");
    let newer = Applied { id: "Task:t1".into(), event_created: "2026-07-02".into(), event_oid: "e2".into() };
    assert!(apply_decision("Task", Some("t1"), Some(&newer), "2026-07-01", "e1").unwrap().is_none());
    // Re-applying the same event converges.
    assert!(apply_decision("Task", Some("t1"), Some(&newer), "2026-07-02", "e2").unwrap().is_some());
}

#[test]
fn live_graph_draws_one_edge_and_lists_the_backlog() {
    let tasks = vec![task("aaaaaaaa1"), task("bbbbbbbb2"), task("cccccccc3")];
    let deps = vec![dep("aaaaaaaa1", "bbbbbbbb2", None)];
    let g = build_from_live(tasks, deps, &[]);
    assert_eq!(g.edges.len(), 1);
    assert_eq!(g.edges[0].blocker_task_id, "aaaaaaaa1");
    assert_eq!(g.edges[0].blocked_task_id, "bbbbbbbb2");
    assert!(!g.edges[0].resolved);
    let mut ids: Vec<&str> = g.nodes.iter().map(|n| n.task_id.as_str()).collect();
    ids.sort();
    assert_eq!(ids, vec!["aaaaaaaa1", "bbbbbbbb2"]);
    assert_eq!(g.unconnected, vec!["cccccccc3".to_string()]);
    let blocked = g.nodes.iter().find(|n| n.task_id == "bbbbbbbb2").unwrap();
    assert_eq!(blocked.layer, 1);
}

#[test]
fn task_lookup_cuts_only_the_ambiguous_matches() {
    let tasks = vec![task("aéééé"), task("abcd1234ffff"), task("abcd5678ffff")];
    match find_task(&tasks, "abcd") {
        Err(TaskLookupError::Ambiguous(p, shorts)) => {
            assert_eq!(p, "abcd");
            assert_eq!(shorts, vec!["lv-abcd1234".to_string(), "lv-abcd5678".to_string()]);
        }
        other => panic!("expected an ambiguous lookup, got {other:?}"),
    }
    assert_eq!(find_task(&tasks, "abcd5").unwrap(), 2);
    assert_eq!(find_task(&tasks, "aé").unwrap(), 0);
}
