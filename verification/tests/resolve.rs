use levi::entities::{CommitFact, StatusChange, StatusKind};
use levi::resolve::{
    effective_status, AncestorSet, Ancestry, ConstAncestry, FactsAncestors, MapAncestors, PartialMapAncestors, Resolution,
    ResolvedStatus, Status,
};
use levi::strmap::StrMap;

fn change(id: &str, kind: StatusKind, anchor: Option<&str>, at: &str) -> StatusChange {
    StatusChange {
        id: id.into(),
        project_id: "p".into(),
        task_id: "t1".into(),
        to_status: kind,
        anchor_commit: anchor.map(str::to_string),
        created: at.into(),
        by_dev: "d".into(),
        by_machine: "m".into(),
    }
}

fn resolve<A: AncestorSet>(changes: &[StatusChange], anc: &mut A) -> ResolvedStatus {
    let mut refs: Vec<&StatusChange> = changes.iter().collect();
    refs.sort_by(|a, b| (a.created.as_str(), a.id.as_str()).cmp(&(b.created.as_str(), b.id.as_str())));
    effective_status(&refs, anc, Resolution::Exact)
}

fn strings(v: &[&str]) -> Vec<String> {
    v.iter().map(|s| s.to_string()).collect()
}

#[test]
fn no_changes_means_open() {
    let r = resolve(&[], &mut MapAncestors::of([]));
    assert_eq!(
        r,
        ResolvedStatus {
            status: Status::Open,
            resolution: Resolution::Exact
        }
    );
}

#[test]
fn close_anchored_on_ancestor_closes_here_only() {
    let cs = [change("a", StatusKind::Closed, Some("sha1"), "2026-07-01T00:00:00Z")];
    assert_eq!(resolve(&cs, &mut MapAncestors::of(["sha1"])).status, Status::Closed);
    assert_eq!(resolve(&cs, &mut MapAncestors::of([])).status, Status::Open);
}

#[test]
fn close_then_reopen_both_in_ancestry() {
    let cs = [
        change("a", StatusKind::Closed, Some("sha1"), "2026-07-01T00:00:00Z"),
        change("b", StatusKind::Reopened, Some("sha2"), "2026-07-02T00:00:00Z"),
    ];
    assert_eq!(resolve(&cs, &mut MapAncestors::of(["sha1", "sha2"])).status, Status::Open);
    assert_eq!(resolve(&cs, &mut MapAncestors::of(["sha1"])).status, Status::Closed);
}

#[test]
fn unanchored_changes_apply_everywhere() {
    let closed_everywhere = [change("a", StatusKind::Closed, None, "2026-07-01T00:00:00Z")];
    assert_eq!(resolve(&closed_everywhere, &mut MapAncestors::of([])).status, Status::Closed);

    let reopened_everywhere = [
        change("a", StatusKind::Closed, Some("sha1"), "2026-07-01T00:00:00Z"),
        change("b", StatusKind::Reopened, None, "2026-07-02T00:00:00Z"),
    ];
    assert_eq!(resolve(&reopened_everywhere, &mut MapAncestors::of(["sha1"])).status, Status::Open);
}

#[test]
fn lww_tie_on_at_broken_by_change_id() {
    let at = "2026-07-01T00:00:00Z";
    let cs = [
        change("zz", StatusKind::Closed, None, at),
        change("aa", StatusKind::Reopened, None, at),
    ];
    assert_eq!(resolve(&cs, &mut MapAncestors::of([])).status, Status::Closed);
}

#[test]
fn unknown_anchor_treated_open_and_flagged() {
    let cs = [change("a", StatusKind::Closed, Some("ghost"), "2026-07-01T00:00:00Z")];
    let mut anc = PartialMapAncestors::new(vec![], strings(&["ghost"]));
    let r = resolve(&cs, &mut anc);
    assert_eq!(r.status, Status::Open);
    assert_eq!(r.resolution, Resolution::Partial);
}

#[test]
fn unknown_reopen_with_later_solid_close_stays_closed_but_partial() {
    let cs = [
        change("a", StatusKind::Reopened, Some("ghost"), "2026-07-01T00:00:00Z"),
        change("b", StatusKind::Closed, Some("sha1"), "2026-07-02T00:00:00Z"),
    ];
    let mut anc = PartialMapAncestors::new(strings(&["sha1"]), strings(&["ghost"]));
    let r = resolve(&cs, &mut anc);
    assert_eq!(r.status, Status::Closed);
    assert_eq!(r.resolution, Resolution::Partial);
}

fn fact(sha: &str, parents: &[&str], patch: Option<&str>) -> CommitFact {
    CommitFact {
        id: sha.into(),
        project_id: "p".into(),
        parents: strings(parents),
        patch_id: patch.map(str::to_string),
    }
}

fn facts(edges: &[(&str, &[&str])]) -> StrMap<CommitFact> {
    let mut m = StrMap::new();
    for (sha, parents) in edges {
        m.insert(sha.to_string(), fact(sha, parents, None));
    }
    m
}

fn fact_map(v: Vec<CommitFact>) -> StrMap<CommitFact> {
    let mut m = StrMap::new();
    for f in v {
        m.insert(f.id.clone(), f);
    }
    m
}

#[test]
fn facts_linear_chain() {
    let f = facts(&[("c1", &[]), ("c2", &["c1"]), ("c3", &["c2"])]);
    let mut anc = FactsAncestors::new(&f, "c3");
    assert_eq!(anc.contains("c1"), Ancestry::Yes);
    assert_eq!(anc.contains("c3"), Ancestry::Yes);
    let mut anc_at_c2 = FactsAncestors::new(&f, "c2");
    assert_eq!(anc_at_c2.contains("c3"), Ancestry::No);
}

#[test]
fn facts_diamond_merge() {
    let f = facts(&[("root", &[]), ("a", &["root"]), ("b", &["root"]), ("m", &["a", "b"])]);
    let mut anc = FactsAncestors::new(&f, "m");
    assert_eq!(anc.contains("a"), Ancestry::Yes);
    assert_eq!(anc.contains("b"), Ancestry::Yes);
    assert_eq!(anc.contains("root"), Ancestry::Yes);
}

#[test]
fn facts_incomplete_graph_answers_unknown_for_absent() {
    let f = facts(&[("c2", &["c1"]), ("c3", &["c2"])]);
    let mut anc = FactsAncestors::new(&f, "c3");
    assert_eq!(anc.contains("c2"), Ancestry::Yes);
    assert_eq!(anc.contains("other"), Ancestry::Unknown);
}

#[test]
fn facts_missing_head_is_all_unknown() {
    let f = facts(&[("c1", &[])]);
    let mut anc = FactsAncestors::new(&f, "nope");
    assert_eq!(anc.contains("c1"), Ancestry::Unknown);
    assert_eq!(anc.contains("nope"), Ancestry::Unknown);
}

#[test]
fn facts_patch_id_fallback_resolves_rewritten() {
    let facts = fact_map(vec![
        fact("c1", &[], Some("pX")),
        fact("c2", &["c1"], Some("pOther")),
        fact("X", &[], Some("pX")),
    ]);
    let mut anc = FactsAncestors::new(&facts, "c2");
    assert_eq!(anc.contains("c1"), Ancestry::Yes);
    assert_eq!(anc.contains("X"), Ancestry::Rewritten);
}

#[test]
fn facts_no_patch_match_is_no() {
    let facts = fact_map(vec![fact("c1", &[], Some("pA")), fact("X", &[], Some("pB"))]);
    let mut anc = FactsAncestors::new(&facts, "c1");
    assert_eq!(anc.contains("X"), Ancestry::No);
}

#[test]
fn facts_none_patch_never_matches() {
    let facts = fact_map(vec![fact("c1", &[], Some("pA")), fact("X", &[], None)]);
    let mut anc = FactsAncestors::new(&facts, "c1");
    assert_eq!(anc.contains("X"), Ancestry::No);
}

#[test]
fn resolution_weaken_orders_partial_below_squashed_below_exact() {
    assert_eq!(Resolution::Exact.weaken(Resolution::Squashed), Resolution::Squashed);
    assert_eq!(Resolution::Squashed.weaken(Resolution::Partial), Resolution::Partial);
    assert_eq!(Resolution::Facts.weaken(Resolution::Squashed), Resolution::Squashed);
    assert_eq!(Resolution::Squashed.weaken(Resolution::Exact), Resolution::Squashed);
}

#[test]
fn weaken_keeps_the_weaker_grade_on_every_pair() {
    let all = [Resolution::Exact, Resolution::Facts, Resolution::Partial, Resolution::Squashed];
    for a in all {
        assert_eq!(a.weaken(a), a);
        assert_eq!(a.weaken(Resolution::Partial), Resolution::Partial);
        assert_eq!(Resolution::Partial.weaken(a), Resolution::Partial);
    }
    // Equally strong grades keep the receiver.
    assert_eq!(Resolution::Exact.weaken(Resolution::Facts), Resolution::Exact);
    assert_eq!(Resolution::Facts.weaken(Resolution::Exact), Resolution::Facts);
}

#[test]
fn labels_of_status_and_resolution() {
    assert_eq!(Status::Open.label(), "open");
    assert_eq!(Status::Closed.label(), "closed");
    assert_eq!(Resolution::Squashed.label(), "squashed");
    assert_eq!(Resolution::Partial.label(), "partial");
}

#[test]
fn anchored_change_on_rewritten_commit_closes_squashed() {
    // X is not reachable from c2, but shares its patch-id with c1.
    let facts = fact_map(vec![
        fact("c1", &[], Some("pX")),
        fact("c2", &["c1"], None),
        fact("X", &[], Some("pX")),
    ]);
    let mut anc = FactsAncestors::new(&facts, "c2");
    let cs = [change("a", StatusKind::Closed, Some("X"), "2026-07-01T00:00:00Z")];
    let r = resolve(&cs, &mut anc);
    assert_eq!(r.status, Status::Closed);
    assert_eq!(r.resolution, Resolution::Squashed);
}

#[test]
fn rewritten_resolves_closed_squashed() {
    let ch = StatusChange {
        id: "c1".into(),
        project_id: "p".into(),
        task_id: "t".into(),
        to_status: StatusKind::Closed,
        anchor_commit: Some("deadbeef".into()),
        created: "2026-01-01T00:00:00Z".into(),
        by_dev: "d".into(),
        by_machine: "m".into(),
    };
    let got = effective_status(&[&ch], &mut ConstAncestry::new(Ancestry::Rewritten), Resolution::Exact);
    assert_eq!(got.status, Status::Closed);
    assert_eq!(got.resolution, Resolution::Squashed);
    assert_eq!(got.resolution.label(), "squashed");
}

#[test]
fn facts_walk_survives_a_parent_cycle() {
    let f = facts(&[("a", &["b"]), ("b", &["a"])]);
    let mut anc = FactsAncestors::new(&f, "a");
    assert_eq!(anc.contains("a"), Ancestry::Yes);
    assert_eq!(anc.contains("b"), Ancestry::Yes);
    assert_eq!(anc.contains("x"), Ancestry::No);
}

#[test]
fn cached_answers_match_the_inner_set() {
    let mut cached = levi::resolve::CachedAncestors::new(PartialMapAncestors::new(strings(&["y"]), strings(&["u"])));
    for _ in 0..2 {
        assert_eq!(cached.contains("y"), Ancestry::Yes);
        assert_eq!(cached.contains("u"), Ancestry::Unknown);
        assert_eq!(cached.contains("n"), Ancestry::No);
    }
}
