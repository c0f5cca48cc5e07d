//! Cross-project status resolution over hub entities.
//!
//! - [`statuses_unanchored`] resolves from status changes alone — no
//!   ancestry. A task with no close is open; one with a close is "closed
//!   somewhere" (`Partial`).
//! - [`statuses_for_project`] resolves exactly against a branch head by
//!   walking the CommitFact graph.

use vstd::prelude::*;

use crate::entities::{CommitFact, RefFact, StatusChange, StatusKind, Task};
use crate::resolve::{
    AncestorSet, answers_of, effective_status, fact_graph, fact_info, facts_answer, fold_status, target_status,
    Ancestry, FactInfo, FactsAncestors, NoAncestry, Resolution, ResolvedStatus, Status,
};
use crate::seqs::{lemma_filter_step, lemma_full_prefix};
use crate::sort::{sort_by_key, stable_sorted};
use crate::strmap::StrMap;
use crate::text::{copy_string, str_eq, str_le, str_le_exec, str_lt, lemma_str_le_total, lemma_str_le_trans, lemma_str_le_antisym};

verus! {

/// The change belongs to project `pid`.
pub open spec fn change_in_project(pid: Seq<char>) -> spec_fn(StatusChange) -> bool {
    |c: StatusChange| c.project_id@ == pid
}

/// The change is about task `tid`.
pub open spec fn change_of_task(tid: Seq<char>) -> spec_fn(StatusChange) -> bool {
    |c: StatusChange| c.task_id@ == tid
}

/// Status from changes alone (already in (created, id) order): the last
/// change decides open/closed; any close at all makes it `Partial`.
pub open spec fn unanchored_status(sorted: Seq<StatusChange>) -> ResolvedStatus {
    ResolvedStatus {
        status: if sorted.len() == 0 {
            Status::Open
        } else {
            target_status(sorted.last().to_status)
        },
        resolution: if exists|i: int| 0 <= i < sorted.len() && sorted[i].to_status == StatusKind::Closed {
            Resolution::Partial
        } else {
            Resolution::Exact
        },
    }
}

/// The unanchored status of task `tid` in project `pid`.
pub open spec fn unanchored_of(changes: Seq<StatusChange>, pid: Seq<char>, tid: Seq<char>) -> ResolvedStatus {
    unanchored_status(stable_sorted(changes.filter(change_in_project(pid)).filter(change_of_task(tid))))
}

/// Some task at index below `n` belongs to `pid` and has id `k`.
pub open spec fn project_task_before(tasks: Seq<Task>, pid: Seq<char>, k: Seq<char>, n: int) -> bool {
    exists|j: int| 0 <= j < n && tasks[j].project_id@ == pid && tasks[j].id@ == k
}

/// Copies of the changes that satisfy `keep`, in order.
fn project_changes(changes: &[StatusChange], pid: &str) -> (r: Vec<StatusChange>)
    ensures
        r@ == changes@.filter(change_in_project(pid@)),
{
    let mut out: Vec<StatusChange> = Vec::new();
    let mut i: usize = 0;
    proof {
        crate::seqs::lemma_filter_empty_prefix(changes@, change_in_project(pid@));
    }
    while i < changes.len()
        invariant
            i <= changes@.len(),
            out@ == changes@.subrange(0, i as int).filter(change_in_project(pid@)),
        decreases changes@.len() - i,
    {
        proof {
            lemma_filter_step(changes@, change_in_project(pid@), i as int);
        }
        if str_eq(changes[i].project_id.as_str(), pid) {
            out.push(changes[i].copy());
        }
        i = i + 1;
    }
    proof {
        lemma_full_prefix(changes@);
    }
    out
}

/// Copies of the changes about task `tid`, in order.
fn task_changes(changes: &Vec<StatusChange>, tid: &str) -> (r: Vec<StatusChange>)
    ensures
        r@ == changes@.filter(change_of_task(tid@)),
{
    let mut out: Vec<StatusChange> = Vec::new();
    let mut i: usize = 0;
    proof {
        crate::seqs::lemma_filter_empty_prefix(changes@, change_of_task(tid@));
    }
    while i < changes.len()
        invariant
            i <= changes@.len(),
            out@ == changes@.subrange(0, i as int).filter(change_of_task(tid@)),
        decreases changes@.len() - i,
    {
        proof {
            lemma_filter_step(changes@, change_of_task(tid@), i as int);
        }
        if str_eq(changes[i].task_id.as_str(), tid) {
            out.push(changes[i].copy());
        }
        i = i + 1;
    }
    proof {
        lemma_full_prefix(changes@);
    }
    out
}

/// References to the changes about task `tid`, in order.
fn task_change_refs<'a>(changes: &'a Vec<StatusChange>, tid: &str) -> (r: Vec<&'a StatusChange>)
    ensures
        r@.map_values(|c: &StatusChange| *c) == changes@.filter(change_of_task(tid@)),
{
    let mut out: Vec<&StatusChange> = Vec::new();
    let mut i: usize = 0;
    proof {
        crate::seqs::lemma_filter_empty_prefix(changes@, change_of_task(tid@));
    }
    while i < changes.len()
        invariant
            i <= changes@.len(),
            out@.map_values(|c: &StatusChange| *c) == changes@.subrange(0, i as int).filter(change_of_task(tid@)),
        decreases changes@.len() - i,
    {
        proof {
            lemma_filter_step(changes@, change_of_task(tid@), i as int);
        }
        let ghost before = out@;
        if str_eq(changes[i].task_id.as_str(), tid) {
            out.push(&changes[i]);
            proof {
                assert(out@.map_values(|c: &StatusChange| *c) =~= before.map_values(|c: &StatusChange| *c).push(changes@[i as int]));
            }
        }
        i = i + 1;
    }
    proof {
        lemma_full_prefix(changes@);
    }
    out
}

/// Status from status changes alone — no ancestry walk, no facts. Open when
/// a task has no close; Closed + `Partial` when it has one.
pub fn statuses_unanchored(tasks: &[Task], changes: &[StatusChange], project_id: &str) -> (r: StrMap<ResolvedStatus>)
    ensures
        forall|k: Seq<char>| #[trigger] r.map().dom().contains(k) <==> project_task_before(tasks@, project_id@, k, tasks@.len() as int),
        forall|k: Seq<char>| #[trigger] r.map().dom().contains(k) ==> r.map()[k] == unanchored_of(changes@, project_id@, k),
{
    let mine_project = project_changes(changes, project_id);
    let mut out: StrMap<ResolvedStatus> = StrMap::new();
    let mut i: usize = 0;
    while i < tasks.len()
        invariant
            i <= tasks@.len(),
            mine_project@ == changes@.filter(change_in_project(project_id@)),
            forall|k: Seq<char>| #[trigger] out.map().dom().contains(k) <==> project_task_before(tasks@, project_id@, k, i as int),
            forall|k: Seq<char>| #[trigger] out.map().dom().contains(k) ==> out.map()[k] == unanchored_of(changes@, project_id@, k),
        decreases tasks@.len() - i,
    {
        let t = &tasks[i];
        if str_eq(t.project_id.as_str(), project_id) {
            let mine = task_changes(&mine_project, t.id.as_str());
            let sorted = sort_by_key(mine);
            let mut status = Status::Open;
            let mut ever_closed = false;
            let mut j: usize = 0;
            while j < sorted.len()
                invariant
                    j <= sorted@.len(),
                    j == 0 ==> status == Status::Open,
                    j > 0 ==> status == target_status(sorted@[j - 1].to_status),
                    ever_closed == (exists|q: int| 0 <= q < j && sorted@[q].to_status == StatusKind::Closed),
                decreases sorted@.len() - j,
            {
                status = match sorted[j].to_status {
                    StatusKind::Closed => {
                        ever_closed = true;
                        Status::Closed
                    },
                    StatusKind::Reopened => Status::Open,
                };
                j = j + 1;
            }
            let resolution = if ever_closed {
                Resolution::Partial
            } else {
                Resolution::Exact
            };
            let rs = ResolvedStatus { status, resolution };
            let ghost before = out.map();
            out.insert(copy_string(&t.id), rs);
            proof {
                assert(rs == unanchored_of(changes@, project_id@, t.id@));
                assert forall|k: Seq<char>| #[trigger] out.map().dom().contains(k) <==> project_task_before(tasks@, project_id@, k, i + 1) by {
                    if k == t.id@ {
                        assert(tasks@[i as int].project_id@ == project_id@ && tasks@[i as int].id@ == k);
                    }
                    if project_task_before(tasks@, project_id@, k, i + 1) && k != t.id@ {
                        let j = choose|j: int| 0 <= j < i + 1 && tasks@[j].project_id@ == project_id@ && tasks@[j].id@ == k;
                        assert(j < i);
                    }
                }
            }
        } else {
            proof {
                assert forall|k: Seq<char>| #[trigger] out.map().dom().contains(k) <==> project_task_before(tasks@, project_id@, k, i + 1) by {
                    if project_task_before(tasks@, project_id@, k, i + 1) {
                        let j = choose|j: int| 0 <= j < i + 1 && tasks@[j].project_id@ == project_id@ && tasks@[j].id@ == k;
                        assert(j < i);
                    }
                }
            }
        }
        i = i + 1;
    }
    out
}

/// `refs[i]` is the first `main` RefFact of project `pid`.
pub open spec fn is_first_main(refs: Seq<RefFact>, pid: Seq<char>, i: int) -> bool {
    &&& 0 <= i < refs.len()
    &&& refs[i].project_id@ == pid
    &&& refs[i].branch@ == "main"@
    &&& forall|j: int| 0 <= j < i ==> !(refs[j].project_id@ == pid && #[trigger] refs[j].branch@ == "main"@)
}

/// `refs[i]` is the project's most recently observed RefFact (the last of
/// equally recent ones, as `max_by` picks).
pub open spec fn is_latest_observed(refs: Seq<RefFact>, pid: Seq<char>, i: int) -> bool {
    &&& 0 <= i < refs.len()
    &&& refs[i].project_id@ == pid
    &&& forall|j: int| 0 <= j < refs.len() && #[trigger] refs[j].project_id@ == pid ==> (
        if j <= i { str_le(refs[j].observed@, refs[i].observed@) } else { !str_le(refs[i].observed@, refs[j].observed@) })
}

/// The branch a project resolves against when none is named: its `main`
/// RefFact if present, else the most recently observed.
pub open spec fn default_head_spec(refs: Seq<RefFact>, pid: Seq<char>) -> Option<Seq<char>> {
    if exists|i: int| is_first_main(refs, pid, i) {
        Some(refs[choose|i: int| is_first_main(refs, pid, i)].head@)
    } else if exists|i: int| 0 <= i < refs.len() && refs[i].project_id@ == pid {
        Some(refs[choose|i: int| is_latest_observed(refs, pid, i)].head@)
    } else {
        None
    }
}

proof fn lemma_first_main_unique(refs: Seq<RefFact>, pid: Seq<char>, i: int, j: int)
    requires
        is_first_main(refs, pid, i),
        is_first_main(refs, pid, j),
    ensures
        i == j,
{
}

proof fn lemma_latest_unique(refs: Seq<RefFact>, pid: Seq<char>, i: int, j: int)
    requires
        is_latest_observed(refs, pid, i),
        is_latest_observed(refs, pid, j),
    ensures
        i == j,
{
    if i < j {
        assert(!str_le(refs[i].observed@, refs[j].observed@));
    } else if j < i {
        assert(!str_le(refs[j].observed@, refs[i].observed@));
    }
}

/// The branch a project resolves against when none is named: its `main`
/// RefFact if present, else the most recently observed.
pub fn default_head(refs: &[RefFact], project_id: &str) -> (r: Option<String>)
    ensures
        r.is_some() == default_head_spec(refs@, project_id@).is_some(),
        r.is_some() ==> r.unwrap()@ == default_head_spec(refs@, project_id@).unwrap(),
{
    proof {
        reveal_strlit("main");
    }
    let mut i: usize = 0;
    while i < refs.len()
        invariant
            i <= refs@.len(),
            forall|j: int| 0 <= j < i ==> !(refs@[j].project_id@ == project_id@ && #[trigger] refs@[j].branch@ == "main"@),
        decreases refs@.len() - i,
    {
        if str_eq(refs[i].project_id.as_str(), project_id) && str_eq(refs[i].branch.as_str(), "main") {
            proof {
                assert(is_first_main(refs@, project_id@, i as int));
                let c = choose|c: int| is_first_main(refs@, project_id@, c);
                lemma_first_main_unique(refs@, project_id@, i as int, c);
            }
            return Some(copy_string(&refs[i].head));
        }
        i = i + 1;
    }
    assert(!exists|c: int| is_first_main(refs@, project_id@, c));
    // No main: the last of the most recently observed.
    let mut best: Option<usize> = None;
    let mut i: usize = 0;
    while i < refs.len()
        invariant
            i <= refs@.len(),
            best.is_none() ==> forall|j: int| 0 <= j < i ==> #[trigger] refs@[j].project_id@ != project_id@,
            best.is_some() ==> is_latest_observed(refs@.subrange(0, i as int), project_id@, best.unwrap() as int),
        decreases refs@.len() - i,
    {
        if str_eq(refs[i].project_id.as_str(), project_id) {
            match best {
                None => {
                    best = Some(i);
                    proof {
                        let s = refs@.subrange(0, i + 1);
                        lemma_str_le_refl_obs(s[i as int].observed@);
                        assert forall|j: int| 0 <= j < s.len() && #[trigger] s[j].project_id@ == project_id@ implies (
                            if j <= i { str_le(s[j].observed@, s[i as int].observed@) } else { !str_le(s[i as int].observed@, s[j].observed@) }) by {
                            if j < i {
                                assert(refs@[j].project_id@ != project_id@);
                            }
                        }
                    }
                },
                Some(b) => {
                    // `max_by` keeps the later of equal elements.
                    let later = str_le_exec(refs[b].observed.as_str(), refs[i].observed.as_str());
                    if later {
                        best = Some(i);
                    }
                    proof {
                        let s = refs@.subrange(0, i + 1);
                        let s0 = refs@.subrange(0, i as int);
                        let nb = best.unwrap() as int;
                        lemma_str_le_total(refs@[b as int].observed@, refs@[i as int].observed@);
                        lemma_str_le_refl_obs(refs@[i as int].observed@);
                        assert forall|j: int| 0 <= j < s.len() && #[trigger] s[j].project_id@ == project_id@ implies (
                            if j <= nb { str_le(s[j].observed@, s[nb].observed@) } else { !str_le(s[nb].observed@, s[j].observed@) }) by {
                            if j < i {
                                assert(s0[j].project_id@ == project_id@);
                                if later {
                                    if j <= b {
                                        lemma_str_le_trans(s[j].observed@, refs@[b as int].observed@, refs@[i as int].observed@);
                                    } else {
                                        lemma_str_le_total(s[j].observed@, refs@[b as int].observed@);
                                        lemma_str_le_trans(s[j].observed@, refs@[b as int].observed@, refs@[i as int].observed@);
                                    }
                                }
                            } else if j == i && !later {
                                if s[j].observed@ == refs@[b as int].observed@ {
                                    lemma_str_le_refl_obs(s[j].observed@);
                                }
                            }
                        }
                    }
                },
            }
        }
        proof {
            if best.is_some() && refs@[i as int].project_id@ != project_id@ {
                let s = refs@.subrange(0, i + 1);
                let s0 = refs@.subrange(0, i as int);
                let nb = best.unwrap() as int;
                assert forall|j: int| 0 <= j < s.len() && #[trigger] s[j].project_id@ == project_id@ implies (
                    if j <= nb { str_le(s[j].observed@, s[nb].observed@) } else { !str_le(s[nb].observed@, s[j].observed@) }) by {
                    assert(s0[j].project_id@ == project_id@);
                }
            }
        }
        i = i + 1;
    }
    proof {
        lemma_full_prefix(refs@);
    }
    match best {
        Some(b) => {
            proof {
                let c = choose|c: int| is_latest_observed(refs@, project_id@, c);
                lemma_latest_unique(refs@, project_id@, b as int, c);
            }
            Some(copy_string(&refs[b].head))
        },
        None => None,
    }
}

proof fn lemma_str_le_refl_obs(a: Seq<char>)
    ensures
        str_le(a, a),
{
    crate::text::lemma_str_le_refl(a);
}

/// The commit graph recorded by the facts of project `pid`; a later fact
/// with the same sha replaces an earlier one.
pub open spec fn facts_graph_of(facts: Seq<CommitFact>, pid: Seq<char>) -> Map<Seq<char>, FactInfo>
    decreases facts.len(),
{
    if facts.len() == 0 {
        Map::empty()
    } else {
        let m = facts_graph_of(facts.drop_last(), pid);
        let f = facts.last();
        if f.project_id@ == pid {
            m.insert(f.id@, fact_info(f))
        } else {
            m
        }
    }
}

/// The view of an optional head sha.
pub open spec fn opt_view(h: Option<&str>) -> Option<Seq<char>> {
    match h {
        Some(s) => Some(s@),
        None => None,
    }
}

/// The ancestry answers against an optional head: the fact graph when a head
/// is known, `Unknown` for every anchor otherwise.
pub open spec fn head_answers(facts: Seq<CommitFact>, pid: Seq<char>, head: Option<Seq<char>>) -> spec_fn(Seq<char>) -> Ancestry {
    match head {
        Some(h) => |s: Seq<char>| facts_answer(facts_graph_of(facts, pid), h, s),
        None => |s: Seq<char>| Ancestry::Unknown,
    }
}

/// The grade resolution starts from: `Facts` with a head, `Partial` without.
pub open spec fn head_base(head: Option<Seq<char>>) -> Resolution {
    match head {
        Some(_) => Resolution::Facts,
        None => Resolution::Partial,
    }
}

/// The status of task `tid` of project `pid` against an optional head.
pub open spec fn for_project_of(
    changes: Seq<StatusChange>,
    facts: Seq<CommitFact>,
    pid: Seq<char>,
    head: Option<Seq<char>>,
    tid: Seq<char>,
) -> ResolvedStatus {
    fold_status(
        stable_sorted(changes.filter(change_in_project(pid))).filter(change_of_task(tid)),
        head_answers(facts, pid, head),
        head_base(head),
    )
}

/// Resolve every task of `pid` against `anc`, from the project's sorted changes.
fn resolve_tasks<A: AncestorSet>(tasks: &[Task], sorted: &Vec<StatusChange>, pid: &str, anc: &mut A, base: Resolution) -> (r: StrMap<ResolvedStatus>)
    ensures
        forall|k: Seq<char>| #[trigger] r.map().dom().contains(k) <==> project_task_before(tasks@, pid@, k, tasks@.len() as int),
        forall|k: Seq<char>| #[trigger] r.map().dom().contains(k) ==> r.map()[k] == fold_status(sorted@.filter(change_of_task(k)), answers_of(&*old(anc)), base),
        forall|s: Seq<char>| #[trigger] final(anc).answer(s) == old(anc).answer(s),
{
    let ghost ans = answers_of(&*anc);
    let mut out: StrMap<ResolvedStatus> = StrMap::new();
    let mut i: usize = 0;
    while i < tasks.len()
        invariant
            i <= tasks@.len(),
            ans == answers_of(&*old(anc)),
            forall|s: Seq<char>| #[trigger] anc.answer(s) == old(anc).answer(s),
            forall|k: Seq<char>| #[trigger] out.map().dom().contains(k) <==> project_task_before(tasks@, pid@, k, i as int),
            forall|k: Seq<char>| #[trigger] out.map().dom().contains(k) ==> out.map()[k] == fold_status(sorted@.filter(change_of_task(k)), ans, base),
        decreases tasks@.len() - i,
    {
        let t = &tasks[i];
        if str_eq(t.project_id.as_str(), pid) {
            let mine = task_change_refs(sorted, t.id.as_str());
            proof {
                assert(answers_of(&*anc) =~= ans);
            }
            let rs = effective_status(mine.as_slice(), anc, base);
            assert(rs == fold_status(sorted@.filter(change_of_task(t.id@)), ans, base));
            out.insert(copy_string(&t.id), rs);
            proof {
                assert forall|k: Seq<char>| #[trigger] out.map().dom().contains(k) <==> project_task_before(tasks@, pid@, k, i + 1) by {
                    if k == t.id@ {
                        assert(tasks@[i as int].project_id@ == pid@ && tasks@[i as int].id@ == k);
                    }
                    if project_task_before(tasks@, pid@, k, i + 1) && k != t.id@ {
                        let j = choose|j: int| 0 <= j < i + 1 && tasks@[j].project_id@ == pid@ && tasks@[j].id@ == k;
                        assert(j < i);
                    }
                }
            }
        } else {
            proof {
                assert forall|k: Seq<char>| #[trigger] out.map().dom().contains(k) <==> project_task_before(tasks@, pid@, k, i + 1) by {
                    if project_task_before(tasks@, pid@, k, i + 1) {
                        let j = choose|j: int| 0 <= j < i + 1 && tasks@[j].project_id@ == pid@ && tasks@[j].id@ == k;
                        assert(j < i);
                    }
                }
            }
        }
        i = i + 1;
    }
    out
}

/// Exact per-branch resolution over the CommitFact graph. A `None` head
/// resolves anchored changes as `Partial` rather than guessing.
pub fn statuses_for_project(
    tasks: &[Task],
    changes: &[StatusChange],
    facts: &[CommitFact],
    project_id: &str,
    head: Option<&str>,
) -> (r: StrMap<ResolvedStatus>)
    ensures
        forall|k: Seq<char>| #[trigger] r.map().dom().contains(k) <==> project_task_before(tasks@, project_id@, k, tasks@.len() as int),
        forall|k: Seq<char>| #[trigger] r.map().dom().contains(k) ==> r.map()[k] == for_project_of(changes@, facts@, project_id@, opt_view(head), k),
{
    let mut fact_map: StrMap<CommitFact> = StrMap::new();
    let mut i: usize = 0;
    proof {
        assert(facts@.subrange(0, 0) =~= Seq::<CommitFact>::empty());
        assert(fact_graph(fact_map.map()) =~= Map::<Seq<char>, FactInfo>::empty());
    }
    while i < facts.len()
        invariant
            i <= facts@.len(),
            fact_graph(fact_map.map()) == facts_graph_of(facts@.subrange(0, i as int), project_id@),
        decreases facts@.len() - i,
    {
        let f = &facts[i];
        proof {
            assert(facts@.subrange(0, i + 1).drop_last() =~= facts@.subrange(0, i as int));
            assert(facts@.subrange(0, i + 1).last() == *f);
        }
        if str_eq(f.project_id.as_str(), project_id) {
            let ghost before = fact_map.map();
            let c = f.copy();
            proof {
                assert(fact_info(c) == fact_info(*f));
            }
            fact_map.insert(copy_string(&f.id), c);
            proof {
                assert(fact_graph(fact_map.map()) =~= fact_graph(before).insert(f.id@, fact_info(*f)));
            }
        }
        i = i + 1;
    }
    proof {
        lemma_full_prefix(facts@);
    }
    let sorted = sort_by_key(project_changes(changes, project_id));
    match head {
        Some(h) => {
            let mut anc = FactsAncestors::new(&fact_map, h);
            proof {
                assert(answers_of(&anc) =~= head_answers(facts@, project_id@, opt_view(head)));
            }
            resolve_tasks(tasks, &sorted, project_id, &mut anc, Resolution::Facts)
        },
        None => {
            // No head to resolve against: unanchored changes apply,
            // anchored ones are unknown -> Partial.
            let mut none = NoAncestry::new();
            proof {
                assert(answers_of(&none) =~= head_answers(facts@, project_id@, opt_view(head)));
            }
            resolve_tasks(tasks, &sorted, project_id, &mut none, Resolution::Partial)
        },
    }
}

} // verus!
