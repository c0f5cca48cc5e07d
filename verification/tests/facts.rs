use levi::entities::{StatusChange, StatusKind};
use levi::facts::{anchor_roots, branch_fact, FactWalk, DEPTH_CAP};
use levi::strmap::StrMap;

fn parents_of(sha: &str) -> Option<Vec<String>> {
    // c3 -> c2 -> c1 ; m -> {c2, x} ; x -> c1 ; "gone" is not a commit.
    let p: &[&str] = match sha {
        "c1" => &[],
        "c2" => &["c1"],
        "c3" => &["c2"],
        "m" => &["c2", "x"],
        "x" => &["c1"],
        _ => return None,
    };
    Some(p.iter().map(|s| s.to_string()).collect())
}

fn run(walk: &mut FactWalk) -> Vec<Vec<String>> {
    let mut layers = Vec::new();
    while !walk.done() {
        let targets = walk.layer_targets();
        let found: Vec<Option<Vec<String>>> = targets.iter().map(|t| parents_of(t)).collect();
        layers.push(targets);
        walk.finish_layer(found);
    }
    layers
}

#[test]
fn walk_visits_each_commit_once_layer_by_layer() {
    let roots = vec!["c3".to_string(), "m".to_string(), "c3".to_string(), "gone".to_string()];
    let mut walk = FactWalk::new("p".into(), roots, StrMap::new());
    let layers = run(&mut walk);
    assert_eq!(layers, vec![vec!["c3", "m", "gone"], vec!["c2", "x"], vec!["c1"]]);
    let ids: Vec<&str> = walk.facts.iter().map(|f| f.id.as_str()).collect();
    assert_eq!(ids, ["c3", "m", "c2", "x", "c1"]);
    assert_eq!(walk.facts[1].parents, ["c2", "x"]);
    assert!(walk.facts.iter().all(|f| f.project_id == "p" && f.patch_id.is_none()));
}

#[test]
fn published_commits_are_walked_through_but_not_republished() {
    let mut published = StrMap::new();
    published.insert("c2".to_string(), ());
    let mut walk = FactWalk::new("p".into(), vec!["c3".to_string()], published);
    run(&mut walk);
    let ids: Vec<&str> = walk.facts.iter().map(|f| f.id.as_str()).collect();
    assert_eq!(ids, ["c3", "c1"]);
}

#[test]
fn walk_with_no_roots_is_done_at_once() {
    let walk = FactWalk::new("p".into(), vec![], StrMap::new());
    assert!(walk.done());
    assert_eq!(DEPTH_CAP, 2000);
}

#[test]
fn anchors_that_are_object_ids_become_roots() {
    let sc = |anchor: Option<&str>| StatusChange {
        id: "s".into(),
        project_id: "p".into(),
        task_id: "t".into(),
        to_status: StatusKind::Closed,
        anchor_commit: anchor.map(str::to_string),
        created: "2026-07-01T00:00:00Z".into(),
        by_dev: "d".into(),
        by_machine: "m".into(),
    };
    let full = "0123456789abcdef0123456789abcdef01234567";
    let upper = "0123456789ABCDEF0123456789ABCDEF01234567";
    let changes = vec![sc(Some(full)), sc(None), sc(Some("deadbeef")), sc(Some(upper)), sc(Some("zz"))];
    assert_eq!(anchor_roots(&changes), [full, full]);
}

#[test]
fn branch_facts_strip_the_heads_prefix() {
    let f = branch_fact("p", "refs/heads/feature/x", "abcd", "2026-07-01T00:00:00Z");
    assert_eq!(f.id, "p:feature/x");
    assert_eq!(f.branch, "feature/x");
    assert_eq!(f.head, "abcd");
    assert_eq!(f.observed, "2026-07-01T00:00:00Z");
    assert_eq!(branch_fact("p", "refs/heads/refs/heads/x", "h", "t").branch, "x");
    assert_eq!(branch_fact("p", "main", "h", "t").branch, "main");
}
