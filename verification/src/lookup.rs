//! Reading names against what the hub holds: a project by id or name, a
//! foreign task by id prefix, and the rows of the cross-project listing
//! (`levi ls --project` / `--all-projects`), which resolves status from
//! status changes alone.

use vstd::prelude::*;

use crate::browse::{cuttable, first_bytes, head_bytes};
use crate::crossproject::{project_task_before, statuses_unanchored, unanchored_of};
use crate::entities::{lemma_pair_le_total, lemma_pair_le_trans, pair_le, pair_le_exec, priority_rank, Project, StatusChange, Task};
use crate::ids::{join, joined};
use crate::resolve::{listed, is_listed, ResolvedStatus, Status};
use crate::sort::{sort_by_key, stable_sorted, SortKey};
use crate::text::{bytes_of, concat, copy_string, is_prefix, starts_with, str_eq};

verus! {

/// The first project whose id is `x`.
pub open spec fn first_with_id(ps: Seq<Project>, x: Seq<char>) -> Option<int>
    decreases ps.len(),
{
    if ps.len() == 0 {
        None
    } else {
        match first_with_id(ps.drop_last(), x) {
            Some(i) => Some(i),
            None => if ps.last().id@ == x {
                Some(ps.len() - 1)
            } else {
                None
            },
        }
    }
}

/// The positions of the projects named `x`, in order.
pub open spec fn named(ps: Seq<Project>, x: Seq<char>) -> Seq<int>
    decreases ps.len(),
{
    if ps.len() == 0 {
        Seq::empty()
    } else if ps.last().name@ == x {
        named(ps.drop_last(), x).push(ps.len() - 1)
    } else {
        named(ps.drop_last(), x)
    }
}

/// Why a project could not be picked.
#[derive(Clone, Debug, PartialEq, Eq)]
pub enum ProjectLookupError {
    /// No project has this id or name.
    NotFound(String),
    /// Several projects have this name: their ids.
    Ambiguous(String, Vec<String>),
}

impl ProjectLookupError {
    /// The message shown.
    pub fn message(&self) -> (r: String)
        ensures
            r@ == match self {
                ProjectLookupError::NotFound(x) => "no project named '"@ + x@ + "' on the hub"@,
                ProjectLookupError::Ambiguous(x, ids) => "project name '"@ + x@ + "' is ambiguous on the hub; use an id: "@
                    + joined(ids@, ", "@),
            },
    {
        match self {
            ProjectLookupError::NotFound(x) => {
                let a = concat("no project named '", x.as_str());
                concat(a.as_str(), "' on the hub")
            },
            ProjectLookupError::Ambiguous(x, ids) => {
                let a = concat("project name '", x.as_str());
                let b = concat(a.as_str(), "' is ambiguous on the hub; use an id: ");
                concat(b.as_str(), join(ids, ", ").as_str())
            },
        }
    }
}

/// The project meant by `name_or_id`: the first whose id it is, else the one
/// project with that name; several with that name is ambiguous.
pub fn find_project(projects: &[Project], name_or_id: &str) -> (r: Result<usize, ProjectLookupError>)
    ensures
        match first_with_id(projects@, name_or_id@) {
            Some(i) => r == Ok::<usize, ProjectLookupError>(i as usize),
            None => {
                let ns = named(projects@, name_or_id@);
                if ns.len() == 0 {
                    r matches Err(ProjectLookupError::NotFound(x)) && x@ == name_or_id@
                } else if ns.len() == 1 {
                    r == Ok::<usize, ProjectLookupError>(ns[0] as usize)
                } else {
                    r matches Err(ProjectLookupError::Ambiguous(x, ids)) && x@ == name_or_id@
                        && ids@.map_values(|s: String| s@) == ns.map_values(|i: int| projects@[i].id@)
                }
            },
        },
{
    let mut i: usize = 0;
    while i < projects.len()
        invariant
            i <= projects@.len(),
            first_with_id(projects@.subrange(0, i as int), name_or_id@).is_none(),
        decreases projects@.len() - i,
    {
        proof {
            assert(projects@.subrange(0, i + 1).drop_last() =~= projects@.subrange(0, i as int));
        }
        if str_eq(projects[i].id.as_str(), name_or_id) {
            proof {
                lemma_first_with_id_prefix(projects@, name_or_id@, i as int);
            }
            return Ok(i);
        }
        i = i + 1;
    }
    assert(projects@.subrange(0, projects@.len() as int) =~= projects@);
    let mut hits: Vec<usize> = Vec::new();
    let mut ids: Vec<String> = Vec::new();
    let mut k: usize = 0;
    while k < projects.len()
        invariant
            k <= projects@.len(),
            hits@.map_values(|j: usize| j as int) == named(projects@.subrange(0, k as int), name_or_id@),
            ids@.map_values(|s: String| s@) == named(projects@.subrange(0, k as int), name_or_id@).map_values(
                |j: int| projects@[j].id@,
            ),
            forall|t: int| 0 <= t < named(projects@.subrange(0, k as int), name_or_id@).len() ==> 0
                <= #[trigger] named(projects@.subrange(0, k as int), name_or_id@)[t] < k,
        decreases projects@.len() - k,
    {
        proof {
            assert(projects@.subrange(0, k + 1).drop_last() =~= projects@.subrange(0, k as int));
            assert(projects@.subrange(0, k + 1).last() == projects@[k as int]);
        }
        if str_eq(projects[k].name.as_str(), name_or_id) {
            let ghost before_h = hits@;
            let ghost before_i = ids@;
            hits.push(k);
            ids.push(copy_string(&projects[k].id));
            proof {
                assert(hits@.map_values(|j: usize| j as int) =~= before_h.map_values(|j: usize| j as int).push(k as int));
                assert(ids@.map_values(|s: String| s@) =~= before_i.map_values(|s: String| s@).push(projects@[k as int].id@));
                assert(named(projects@.subrange(0, k + 1), name_or_id@) == named(projects@.subrange(0, k as int), name_or_id@).push(k as int));
                assert(named(projects@.subrange(0, k + 1), name_or_id@).map_values(|j: int| projects@[j].id@) =~= named(
                    projects@.subrange(0, k as int),
                    name_or_id@,
                ).map_values(|j: int| projects@[j].id@).push(projects@[k as int].id@));
            }
        }
        k = k + 1;
    }
    proof {
        assert(projects@.subrange(0, projects@.len() as int) =~= projects@);
    }
    if hits.len() == 0 {
        Err(ProjectLookupError::NotFound(name_or_id.to_owned()))
    } else if hits.len() == 1 {
        proof {
            assert(hits@.map_values(|j: usize| j as int)[0] == hits@[0] as int);
        }
        Ok(hits[0])
    } else {
        Err(ProjectLookupError::Ambiguous(name_or_id.to_owned(), ids))
    }
}

/// The first match among a prefix is the first match overall.
proof fn lemma_first_with_id_prefix(ps: Seq<Project>, x: Seq<char>, i: int)
    requires
        0 <= i < ps.len(),
        first_with_id(ps.subrange(0, i), x).is_none(),
        ps[i].id@ == x,
    ensures
        first_with_id(ps, x) == Some(i),
    decreases ps.len(),
{
    if ps.len() == i + 1 {
        assert(ps.drop_last() =~= ps.subrange(0, i));
    } else {
        assert(ps.drop_last().subrange(0, i) =~= ps.subrange(0, i));
        lemma_first_with_id_prefix(ps.drop_last(), x, i);
    }
}

/// The positions of the tasks whose id starts with `prefix`, in order.
pub open spec fn prefixed(ts: Seq<Task>, prefix: Seq<char>) -> Seq<int>
    decreases ts.len(),
{
    if ts.len() == 0 {
        Seq::empty()
    } else if is_prefix(bytes_of(prefix), bytes_of(ts.last().id@)) {
        prefixed(ts.drop_last(), prefix).push(ts.len() - 1)
    } else {
        prefixed(ts.drop_last(), prefix)
    }
}

/// Why a foreign task could not be picked.
#[derive(Clone, Debug, PartialEq, Eq)]
pub enum TaskLookupError {
    /// No task of the project starts with the prefix.
    NoMatch(String),
    /// Several do: their short names.
    Ambiguous(String, Vec<String>),
}

impl TaskLookupError {
    /// The message shown.
    pub fn message(&self) -> (r: String)
        ensures
            r@ == match self {
                TaskLookupError::NoMatch(p) => "no task matches '"@ + p@ + "' in that project"@,
                TaskLookupError::Ambiguous(p, shorts) => "'"@ + p@ + "' is ambiguous in that project: "@ + joined(shorts@, ", "@),
            },
    {
        match self {
            TaskLookupError::NoMatch(p) => {
                let a = concat("no task matches '", p.as_str());
                concat(a.as_str(), "' in that project")
            },
            TaskLookupError::Ambiguous(p, shorts) => {
                let a = concat("'", p.as_str());
                let b = concat(a.as_str(), "' is ambiguous in that project: ");
                concat(b.as_str(), join(shorts, ", ").as_str())
            },
        }
    }
}

/// Each position `prefixed` lists is a task whose id starts with `prefix`.
proof fn lemma_prefixed_members(ts: Seq<Task>, prefix: Seq<char>)
    ensures
        forall|k: int| 0 <= k < prefixed(ts, prefix).len() ==> 0 <= #[trigger] prefixed(ts, prefix)[k] < ts.len()
            && is_prefix(bytes_of(prefix), bytes_of(ts[prefixed(ts, prefix)[k]].id@)),
    decreases ts.len(),
{
    if ts.len() > 0 {
        lemma_prefixed_members(ts.drop_last(), prefix);
        assert forall|k: int| 0 <= k < prefixed(ts, prefix).len() implies 0 <= #[trigger] prefixed(ts, prefix)[k] < ts.len()
            && is_prefix(bytes_of(prefix), bytes_of(ts[prefixed(ts, prefix)[k]].id@)) by {
            if k < prefixed(ts.drop_last(), prefix).len() {
                let j = prefixed(ts.drop_last(), prefix)[k];
                assert(ts.drop_last()[j] == ts[j]);
            }
        }
    }
}

/// The task of a foreign project (its tasks as the hub lists them) whose
/// id starts with `prefix`; several is ambiguous, named by `lv-` and the
/// first eight bytes of each id.
pub fn find_task(tasks: &[Task], prefix: &str) -> (r: Result<usize, TaskLookupError>)
    requires
        prefixed(tasks@, prefix@).len() >= 2 ==> forall|i: int| 0 <= i < tasks@.len()
            && is_prefix(bytes_of(prefix@), bytes_of((#[trigger] tasks@[i]).id@)) ==> cuttable(tasks@[i].id@, 8),
    ensures
        ({
            let ms = prefixed(tasks@, prefix@);
            if ms.len() == 0 {
                r matches Err(TaskLookupError::NoMatch(p)) && p@ == prefix@
            } else if ms.len() == 1 {
                r == Ok::<usize, TaskLookupError>(ms[0] as usize)
            } else {
                r matches Err(TaskLookupError::Ambiguous(p, shorts)) && p@ == prefix@
                    && shorts@.map_values(|s: String| s@) == ms.map_values(|j: int| "lv-"@ + head_bytes(tasks@[j].id@, 8))
            }
        }),
{
    let ghost ms = prefixed(tasks@, prefix@);
    let mut hits: Vec<usize> = Vec::new();
    let mut k: usize = 0;
    while k < tasks.len()
        invariant
            k <= tasks@.len(),
            hits@.map_values(|j: usize| j as int) == prefixed(tasks@.subrange(0, k as int), prefix@),
        decreases tasks@.len() - k,
    {
        proof {
            assert(tasks@.subrange(0, k + 1).drop_last() =~= tasks@.subrange(0, k as int));
            assert(tasks@.subrange(0, k + 1).last() == tasks@[k as int]);
        }
        if starts_with(tasks[k].id.as_str(), prefix) {
            let ghost before_h = hits@;
            hits.push(k);
            proof {
                assert(hits@.map_values(|j: usize| j as int) =~= before_h.map_values(|j: usize| j as int).push(k as int));
            }
        }
        k = k + 1;
    }
    proof {
        assert(tasks@.subrange(0, tasks@.len() as int) =~= tasks@);
        lemma_prefixed_members(tasks@, prefix@);
    }
    if hits.len() == 0 {
        Err(TaskLookupError::NoMatch(prefix.to_owned()))
    } else if hits.len() == 1 {
        proof {
            assert(hits@.map_values(|j: usize| j as int)[0] == hits@[0] as int);
        }
        Ok(hits[0])
    } else {
        let mut shorts: Vec<String> = Vec::new();
        let mut j: usize = 0;
        while j < hits.len()
            invariant
                j <= hits@.len(),
                hits@.map_values(|x: usize| x as int) == ms,
                ms == prefixed(tasks@, prefix@),
                ms.len() >= 2,
                forall|i: int| 0 <= i < tasks@.len() && is_prefix(bytes_of(prefix@), bytes_of((#[trigger] tasks@[i]).id@))
                    ==> cuttable(tasks@[i].id@, 8),
                forall|q: int| 0 <= q < ms.len() ==> 0 <= #[trigger] ms[q] < tasks@.len()
                    && is_prefix(bytes_of(prefix@), bytes_of(tasks@[ms[q]].id@)),
                shorts@.map_values(|s: String| s@) == ms.subrange(0, j as int).map_values(|x: int| "lv-"@ + head_bytes(tasks@[x].id@, 8)),
            decreases hits@.len() - j,
        {
            let t = hits[j];
            proof {
                assert(ms[j as int] == t as int);
            }
            let ghost before_s = shorts@;
            shorts.push(concat("lv-", first_bytes(tasks[t].id.as_str(), 8)));
            proof {
                assert(shorts@.map_values(|s: String| s@) =~= before_s.map_values(|s: String| s@).push(
                    "lv-"@ + head_bytes(tasks@[t as int].id@, 8),
                ));
                assert(ms.subrange(0, j + 1).map_values(|x: int| "lv-"@ + head_bytes(tasks@[x].id@, 8)) =~= ms.subrange(0, j as int).map_values(
                    |x: int| "lv-"@ + head_bytes(tasks@[x].id@, 8),
                ).push("lv-"@ + head_bytes(tasks@[t as int].id@, 8)));
            }
            j = j + 1;
        }
        proof {
            assert(ms.subrange(0, ms.len() as int) =~= ms);
        }
        Err(TaskLookupError::Ambiguous(prefix.to_owned(), shorts))
    }
}

/// One row of the cross-project listing: which project (position in the
/// wanted list), which task (position in the hub's tasks), and its status.
#[derive(Clone, Debug)]
pub struct CrossRow {
    pub project: usize,
    pub task: usize,
    pub rank: u8,
    /// The project's name.
    pub name: String,
    pub id: String,
    pub status: ResolvedStatus,
}

impl SortKey for CrossRow {
    /// By priority, then project name, then task id.
    open spec fn key_le_spec(&self, other: &Self) -> bool {
        self.rank < other.rank || (self.rank == other.rank && pair_le(self.name@, self.id@, other.name@, other.id@))
    }

    proof fn lemma_key_le_total(a: &Self, b: &Self) {
        lemma_pair_le_total(a.name@, a.id@, b.name@, b.id@);
    }

    proof fn lemma_key_le_trans(a: &Self, b: &Self, c: &Self) {
        if a.rank == b.rank && b.rank == c.rank {
            lemma_pair_le_trans(a.name@, a.id@, b.name@, b.id@, c.name@, c.id@);
        }
    }

    fn key_le(&self, other: &Self) -> (r: bool) {
        if self.rank != other.rank {
            self.rank < other.rank
        } else {
            pair_le_exec(self.name.as_str(), self.id.as_str(), other.name.as_str(), other.id.as_str())
        }
    }
}

/// The listing's filters: every status, or closed ones, else open ones; and
/// an optional label.
pub open spec fn cross_shown(st: ResolvedStatus, t: Task, all: bool, closed: bool, label: Option<Seq<char>>) -> bool {
    &&& if all {
        true
    } else if closed {
        st.status == Status::Closed
    } else {
        st.status == Status::Open
    }
    &&& match label {
        Some(l) => listed(t.labels@, l),
        None => true,
    }
}

/// The rows for wanted project `p` among the first `n` tasks.
pub open spec fn project_rows(
    tasks: Seq<Task>,
    changes: Seq<StatusChange>,
    wanted: Seq<(String, String)>,
    p: int,
    all: bool,
    closed: bool,
    label: Option<Seq<char>>,
    n: int,
) -> Seq<CrossRow>
    decreases n,
{
    if n <= 0 {
        Seq::empty()
    } else {
        let prev = project_rows(tasks, changes, wanted, p, all, closed, label, n - 1);
        let t = tasks[n - 1];
        let st = unanchored_of(changes, wanted[p].0@, t.id@);
        if t.project_id@ == wanted[p].0@ && cross_shown(st, t, all, closed, label) {
            prev.push(CrossRow {
                project: p as usize,
                task: (n - 1) as usize,
                rank: priority_rank(t.priority),
                name: wanted[p].1,
                id: t.id,
                status: st,
            })
        } else {
            prev
        }
    }
}

/// The rows of the first `np` wanted projects, project by project.
pub open spec fn cross_candidates(
    tasks: Seq<Task>,
    changes: Seq<StatusChange>,
    wanted: Seq<(String, String)>,
    all: bool,
    closed: bool,
    label: Option<Seq<char>>,
    np: int,
) -> Seq<CrossRow>
    decreases np,
{
    if np <= 0 {
        Seq::empty()
    } else {
        cross_candidates(tasks, changes, wanted, all, closed, label, np - 1) + project_rows(
            tasks,
            changes,
            wanted,
            np - 1,
            all,
            closed,
            label,
            tasks.len() as int,
        )
    }
}

/// The label filter as a sequence.
pub open spec fn opt_label(label: Option<&str>) -> Option<Seq<char>> {
    match label {
        Some(l) => Some(l@),
        None => None,
    }
}

/// The cross-project listing over the hub's tasks and status changes, for
/// the wanted projects (id, name): each project's tasks that pass the
/// filters, with their unanchored status, by priority, project name and id.
pub fn cross_project_rows(
    tasks: &[Task],
    changes: &[StatusChange],
    wanted: &[(String, String)],
    all: bool,
    closed: bool,
    label: Option<&str>,
) -> (r: Vec<CrossRow>)
    ensures
        r@ == stable_sorted(cross_candidates(tasks@, changes@, wanted@, all, closed, opt_label(label), wanted@.len() as int)),
{
    let ghost lab = opt_label(label);
    let mut rows: Vec<CrossRow> = Vec::new();
    let mut p: usize = 0;
    while p < wanted.len()
        invariant
            p <= wanted@.len(),
            lab == opt_label(label),
            rows@ == cross_candidates(tasks@, changes@, wanted@, all, closed, lab, p as int),
        decreases wanted@.len() - p,
    {
        let pid = wanted[p].0.as_str();
        let statuses = statuses_unanchored(tasks, changes, pid);
        let ghost before = rows@;
        let mut i: usize = 0;
        while i < tasks.len()
            invariant
                i <= tasks@.len(),
                p < wanted@.len(),
                pid@ == wanted@[p as int].0@,
                lab == opt_label(label),
                forall|k: Seq<char>| #[trigger] statuses.map().dom().contains(k) <==> project_task_before(tasks@, pid@, k, tasks@.len() as int),
                forall|k: Seq<char>| #[trigger] statuses.map().dom().contains(k) ==> statuses.map()[k] == unanchored_of(changes@, pid@, k),
                rows@ == before + project_rows(tasks@, changes@, wanted@, p as int, all, closed, lab, i as int),
            decreases tasks@.len() - i,
        {
            let t = &tasks[i];
            if str_eq(t.project_id.as_str(), pid) {
                proof {
                    assert(project_task_before(tasks@, pid@, t.id@, tasks@.len() as int));
                }
                let st = match statuses.get(t.id.as_str()) {
                    Some(s) => *s,
                    None => {
                        proof {
                            assert(false);
                        }
                        ResolvedStatus { status: Status::Open, resolution: crate::resolve::Resolution::Exact }
                    },
                };
                let status_ok = if all {
                    true
                } else if closed {
                    st.status == Status::Closed
                } else {
                    st.status == Status::Open
                };
                let label_ok = match label {
                    Some(l) => is_listed(&t.labels, l),
                    None => true,
                };
                if status_ok && label_ok {
                    rows.push(CrossRow {
                        project: p,
                        task: i,
                        rank: t.priority.rank(),
                        name: copy_string(&wanted[p].1),
                        id: copy_string(&t.id),
                        status: st,
                    });
                }
            }
            i = i + 1;
        }
        p = p + 1;
    }
    sort_by_key(rows)
}

} // verus!
