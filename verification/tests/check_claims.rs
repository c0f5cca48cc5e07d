use levi::check_claims::{check_claims, normalize_branch_ref, BranchRefError};
use levi::entities::{Claim, Priority, Task};
use levi::materialize::World;
use levi::resolve::{Resolution, ResolvedStatus, Status};
use levi::strmap::StrMap;

#[test]
fn normalizes_short_branch_names() {
    assert_eq!(normalize_branch_ref("feature/x").unwrap(), "refs/heads/feature/x");
    assert_eq!(normalize_branch_ref("refs/heads/feature/x").unwrap(), "refs/heads/feature/x");
    assert!(normalize_branch_ref("refs/tags/v1").is_err());
    assert!(normalize_branch_ref("refs/heads/").is_err());
    assert!(normalize_branch_ref("bad branch").is_err());
    assert!(normalize_branch_ref("").is_err());
}

#[test]
fn branch_ref_errors_say_why() {
    assert_eq!(normalize_branch_ref("  main\n").unwrap(), "refs/heads/main");
    assert_eq!(normalize_branch_ref(" \t "), Err(BranchRefError::Empty));
    assert_eq!(normalize_branch_ref("refs/heads"), Err(BranchRefError::NotBranch("refs/heads".into())));
    assert_eq!(normalize_branch_ref("refs/heads//x"), Err(BranchRefError::NotBranch("refs/heads//x".into())));
    assert_eq!(normalize_branch_ref("refs/tags/v1"), Err(BranchRefError::NotHeads("refs/tags/v1".into())));
    assert_eq!(normalize_branch_ref("bad branch"), Err(BranchRefError::Invalid("bad branch".into())));
    assert_eq!(normalize_branch_ref("x..y"), Err(BranchRefError::Invalid("x..y".into())));
    assert_eq!(
        normalize_branch_ref("refs/tags/v1").unwrap_err().message(),
        "'refs/tags/v1' is not a branch ref; expected refs/heads/<branch>"
    );
    assert_eq!(BranchRefError::Empty.message(), "Git ref cannot be empty");
    assert_eq!(
        BranchRefError::Invalid("a b".into()).message(),
        "'a b' is not a valid Git branch ref"
    );
}

fn claim(task: &str, git_ref: &str) -> Claim {
    Claim {
        id: task.into(),
        project_id: "p".into(),
        task_id: task.into(),
        dev: "d".into(),
        machine: "m".into(),
        machine_id: String::new(),
        worktree: "/w".into(),
        git_ref: git_ref.into(),
        created: "2026-07-01T00:00:00Z".into(),
        ttl_secs: 86400,
    }
}

fn task(id: &str) -> Task {
    Task {
        id: id.into(),
        project_id: "p".into(),
        title: format!("task {id}"),
        body: String::new(),
        priority: Priority::P2,
        labels: vec![],
        created_by_dev: "d".into(),
        created_by_machine: "m".into(),
        created: "2026-07-01T00:00:00Z".into(),
    }
}

#[test]
fn claimed_tasks_must_be_closed_without_doubt() {
    let mut w = World::default();
    for id in ["aaaa1111", "bbbb2222", "cccc3333"] {
        w.tasks.insert(id.into(), task(id));
    }
    w.claim_history = vec![
        claim("cccc3333", "refs/heads/x"),
        claim("aaaa1111", "refs/heads/x"),
        claim("bbbb2222", "refs/heads/x"),
        claim("aaaa1111", "refs/heads/x"),
        claim("bbbb2222", "refs/heads/other"),
        claim("ffff9999", "refs/heads/x"),
    ];
    let mut statuses = StrMap::new();
    statuses.insert("aaaa1111".to_string(), ResolvedStatus { status: Status::Closed, resolution: Resolution::Exact });
    statuses.insert("bbbb2222".to_string(), ResolvedStatus { status: Status::Closed, resolution: Resolution::Partial });
    statuses.insert("cccc3333".to_string(), ResolvedStatus { status: Status::Open, resolution: Resolution::Exact });
    let r = check_claims(&w, &statuses, "refs/heads/x");
    let ids: Vec<&str> = r.tasks.iter().map(|t| t.id.as_str()).collect();
    assert_eq!(ids, ["aaaa1111", "bbbb2222", "cccc3333", "ffff9999"]);
    assert_eq!(r.open, ["bbbb2222", "cccc3333", "ffff9999"]);
    assert_eq!(r.tasks[0].short, "lv-aaaa");
    assert_eq!(r.tasks[0].title.as_deref(), Some("task aaaa1111"));
    assert_eq!(r.tasks[0].status, "closed");
    assert_eq!(r.tasks[0].resolution, "exact");
    assert_eq!(r.tasks[3].short, "lv-ffff");
    assert_eq!(r.tasks[3].title, None);
    assert_eq!(r.tasks[3].status, "unknown");
    assert_eq!(r.tasks[3].resolution, "partial");

    let other = check_claims(&w, &statuses, "refs/heads/other");
    assert_eq!(other.open, ["bbbb2222"]);
    let none = check_claims(&w, &statuses, "refs/heads/none");
    assert!(none.tasks.is_empty());
    assert!(none.open.is_empty());
}
