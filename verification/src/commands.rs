//! What the CLI's commands decide between reading the log and appending to
//! it: who may claim, drop or close what, and which events a command makes.

use vstd::prelude::*;

use crate::entities::{dependency_id, foreign_dependency_id, parse_priority, Claim, Dependency, Priority, StatusKind, Task};
use crate::materialize::{claim_live_at, ttl_representable, Instant, World};
use crate::rank::{claim_is, claim_is_spec, law_claim_identity, Identity};
use crate::resolve::{ResolvedStatus, Status};
use crate::strmap::StrMap;
use crate::text::{bytes_of, concat, copy_opt_string, copy_string, is_prefix, starts_with, str_eq};

verus! {

/// The live claim on `task_id`, if any.
pub open spec fn live_claim_of(world: World, task_id: Seq<char>, now: Instant) -> Option<Claim> {
    if world.claims.map().dom().contains(task_id) && claim_live_at(world.claims.map()[task_id], now) {
        Some(world.claims.map()[task_id])
    } else {
        None
    }
}

/// The claim on `task_id` (if any) has a computable expiry.
pub open spec fn claim_checkable(world: World, task_id: Seq<char>) -> bool {
    world.claims.map().dom().contains(task_id) ==> ttl_representable(world.claims.map()[task_id])
}

/// `levi start` may claim the task: nobody holds a live claim on it, or `me` does.
pub fn start_admits(world: &World, task_id: &str, now: Instant, me: &Identity) -> (r: bool)
    requires
        claim_checkable(*world, task_id@),
    ensures
        r == match live_claim_of(*world, task_id@, now) {
            None => true,
            Some(c) => claim_is_spec(c, *me),
        },
{
    match world.live_claim(task_id, now) {
        None => true,
        Some(c) => claim_is(c, me),
    }
}

/// `levi next --claim` may still claim the task in the log as re-read: the
/// task exists and is open, no open known task blocks it, and any live claim
/// on it is this developer's on this machine and worktree.
pub open spec fn next_claim_admits_spec(
    world: World,
    statuses: Map<Seq<char>, ResolvedStatus>,
    task_id: Seq<char>,
    now: Instant,
    me: Identity,
) -> bool {
    &&& world.tasks.map().dom().contains(task_id)
    &&& statuses[task_id].status == Status::Open
    &&& !(exists|k: Seq<char>| #[trigger] world.deps.map().dom().contains(k) && world.deps.map()[k].blocked_task_id@ == task_id
        && world.tasks.map().dom().contains(world.deps.map()[k].blocker_task_id@)
        && statuses[world.deps.map()[k].blocker_task_id@].status == Status::Open)
    &&& match live_claim_of(world, task_id, now) {
        None => true,
        Some(c) => claim_is_spec(c, me),
    }
}

/// Whether `levi next --claim` may append its claim to the log as re-read
/// (`statuses` resolved over that log).
pub fn next_claim_admits(world: &World, statuses: &StrMap<ResolvedStatus>, task_id: &str, now: Instant, me: &Identity) -> (r: bool)
    requires
        claim_checkable(*world, task_id@),
        forall|k: Seq<char>| #[trigger] world.tasks.map().dom().contains(k) ==> statuses.map().dom().contains(k),
    ensures
        r == next_claim_admits_spec(*world, statuses.map(), task_id@, now, *me),
{
    if !world.tasks.contains_key(task_id) {
        return false;
    }
    if statuses.get(task_id).unwrap().status != Status::Open {
        return false;
    }
    let n = world.deps.len();
    let mut i: usize = 0;
    proof {
        crate::strmap::lemma_pairs_map_all(world.deps.pairs());
    }
    while i < n
        invariant
            i <= n,
            n == world.deps.pairs().len(),
            crate::strmap::strictly_sorted(world.deps.pairs()),
            forall|k: Seq<char>| #[trigger] world.tasks.map().dom().contains(k) ==> statuses.map().dom().contains(k),
            forall|j: int| #![trigger world.deps.pairs()[j]] 0 <= j < world.deps.pairs().len()
                ==> world.deps.map().dom().contains(world.deps.pairs()[j].0) && world.deps.map()[world.deps.pairs()[j].0] == world.deps.pairs()[j].1,
            forall|j: int| 0 <= j < i ==> !({
                let d = (#[trigger] world.deps.pairs()[j]).1;
                d.blocked_task_id@ == task_id@ && world.tasks.map().dom().contains(d.blocker_task_id@)
                    && statuses.map()[d.blocker_task_id@].status == Status::Open
            }),
        decreases n - i,
    {
        let d = world.deps.value_at(i);
        if str_eq(d.blocked_task_id.as_str(), task_id) && world.tasks.contains_key(d.blocker_task_id.as_str()) {
            if statuses.get(d.blocker_task_id.as_str()).unwrap().status == Status::Open {
                proof {
                    let k = world.deps.pairs()[i as int].0;
                    assert(world.deps.map().dom().contains(k));
                }
                return false;
            }
        }
        i = i + 1;
    }
    proof {
        assert forall|k: Seq<char>| #[trigger] world.deps.map().dom().contains(k) && world.deps.map()[k].blocked_task_id@ == task_id@
            && world.tasks.map().dom().contains(world.deps.map()[k].blocker_task_id@)
            implies statuses.map()[world.deps.map()[k].blocker_task_id@].status != Status::Open by {
            let j = choose|j: int| 0 <= j < world.deps.pairs().len() && world.deps.pairs()[j].0 == k;
            assert(world.deps.map()[k] == world.deps.pairs()[j].1);
        }
    }
    match world.live_claim(task_id, now) {
        None => true,
        Some(c) => claim_is(c, me),
    }
}

/// Why `levi drop` refused.
#[derive(Debug, Clone, PartialEq, Eq)]
pub enum DropError {
    /// No live claim on the task.
    NotClaimed,
    /// Someone else holds it: their developer and machine.
    NotYours(String, String),
}

impl DropError {
    /// The message shown, given the task's short id.
    pub fn message(&self, short: &str) -> (r: String)
        ensures
            r@ == match self {
                DropError::NotClaimed => short@ + " is not claimed"@,
                DropError::NotYours(dev, machine) => short@ + " is claimed by "@ + dev@ + " on "@ + machine@
                    + ", not you (use `levi steal "@ + short@ + "` to take it first)"@,
            },
    {
        match self {
            DropError::NotClaimed => concat(short, " is not claimed"),
            DropError::NotYours(dev, machine) => {
                let a = concat(short, " is claimed by ");
                let b = concat(a.as_str(), dev.as_str());
                let c = concat(b.as_str(), " on ");
                let d = concat(c.as_str(), machine.as_str());
                let e = concat(d.as_str(), ", not you (use `levi steal ");
                let f = concat(e.as_str(), short);
                concat(f.as_str(), "` to take it first)")
            },
        }
    }
}

/// The claim `levi drop` releases: the live claim on the task, when it is `me`'s.
pub fn claim_to_drop<'w>(world: &'w World, task_id: &str, now: Instant, me: &Identity) -> (r: Result<&'w Claim, DropError>)
    requires
        claim_checkable(*world, task_id@),
    ensures
        match live_claim_of(*world, task_id@, now) {
            None => r == Err::<&Claim, DropError>(DropError::NotClaimed),
            Some(c) => if claim_is_spec(c, *me) {
                (r matches Ok(x) && *x == c)
            } else {
                (r matches Err(DropError::NotYours(d, m)) && d@ == c.dev@ && m@ == c.machine@)
            },
        },
{
    match world.live_claim(task_id, now) {
        None => Err(DropError::NotClaimed),
        Some(c) => if claim_is(c, me) {
            Ok(c)
        } else {
            Err(DropError::NotYours(copy_string(&c.dev), copy_string(&c.machine)))
        },
    }
}

/// The claim a status change also releases: `me`'s live claim on the task,
/// unless told to keep it.
pub fn claim_released_by_close<'w>(world: &'w World, task_id: &str, now: Instant, me: &Identity, keep: bool) -> (r: Option<&'w Claim>)
    requires
        claim_checkable(*world, task_id@),
    ensures
        r.is_some() == (!keep && match live_claim_of(*world, task_id@, now) {
            Some(c) => claim_is_spec(c, *me),
            None => false,
        }),
        r.is_some() ==> *r.unwrap() == world.claims.map()[task_id@],
{
    if keep {
        return None;
    }
    match world.live_claim(task_id, now) {
        Some(c) => if claim_is(c, me) {
            Some(c)
        } else {
            None
        },
        None => None,
    }
}

/// A claim by `me` on `task_id`, taken on `git_ref` at `created`.
pub fn new_claim(me: &Identity, task_id: &str, project_id: &str, git_ref: &str, created: &str, ttl_secs: u64) -> (c: Claim)
    ensures
        c.id@ == task_id@,
        c.task_id@ == task_id@,
        c.project_id@ == project_id@,
        c.dev == me.dev,
        c.machine == me.machine,
        c.machine_id == me.machine_id,
        c.worktree == me.worktree,
        c.git_ref@ == git_ref@,
        c.created@ == created@,
        c.ttl_secs == ttl_secs,
{
    Claim {
        id: task_id.to_owned(),
        project_id: project_id.to_owned(),
        task_id: task_id.to_owned(),
        dev: copy_string(&me.dev),
        machine: copy_string(&me.machine),
        machine_id: copy_string(&me.machine_id),
        worktree: copy_string(&me.worktree),
        git_ref: git_ref.to_owned(),
        created: created.to_owned(),
        ttl_secs,
    }
}

/// Why a close or reopen was refused.
#[derive(Debug, Clone, Copy, PartialEq, Eq)]
pub enum TransitionError {
    AlreadyClosed,
    AlreadyOpen,
}

impl TransitionError {
    /// The message shown, given the task's short id.
    pub fn message(&self, short: &str) -> (r: String)
        ensures
            r@ == match self {
                TransitionError::AlreadyClosed => short@ + " is already closed on this checkout (use --force to close anyway)"@,
                TransitionError::AlreadyOpen => short@ + " is already open on this checkout (use --force to reopen anyway)"@,
            },
    {
        match self {
            TransitionError::AlreadyClosed => concat(short, " is already closed on this checkout (use --force to close anyway)"),
            TransitionError::AlreadyOpen => concat(short, " is already open on this checkout (use --force to reopen anyway)"),
        }
    }
}

/// A close of a task already closed here, or a reopen of one already open,
/// is refused unless forced.
pub fn check_transition(kind: StatusKind, current: Status, force: bool) -> (r: Result<(), TransitionError>)
    ensures
        r == (if !force && kind == StatusKind::Closed && current == Status::Closed {
            Err(TransitionError::AlreadyClosed)
        } else if !force && kind == StatusKind::Reopened && current == Status::Open {
            Err(TransitionError::AlreadyOpen)
        } else {
            Ok(())
        }),
{
    match (kind, current) {
        (StatusKind::Closed, Status::Closed) if !force => Err(TransitionError::AlreadyClosed),
        (StatusKind::Reopened, Status::Open) if !force => Err(TransitionError::AlreadyOpen),
        _ => Ok(()),
    }
}

/// The line a status change prints: where it is anchored, or that it
/// applies everywhere.
pub fn status_line(short: &str, kind: StatusKind, anchor: Option<&str>) -> (r: String)
    requires
        anchor matches Some(a) ==> crate::browse::cuttable(a@, 8),
    ensures
        r@ == short@ + " "@ + (match kind {
            StatusKind::Closed => "closed"@,
            StatusKind::Reopened => "reopened"@,
        }) + match anchor {
            Some(a) => " @ "@ + crate::browse::head_bytes(a@, 8),
            None => " (everywhere)"@,
        },
{
    let a = concat(short, " ");
    let b = concat(a.as_str(), crate::browse::change_label(kind));
    match anchor {
        Some(sha) => {
            let c = concat(" @ ", crate::browse::first_bytes(sha, 8));
            concat(b.as_str(), c.as_str())
        },
        None => concat(b.as_str(), " (everywhere)"),
    }
}

/// Why a dependency could not be recorded.
#[derive(Debug, Clone, Copy, PartialEq, Eq)]
pub enum DepError {
    /// `--via` was given for a same-project dependency.
    ViaOnLocal,
    /// A task was asked to block itself.
    SelfBlock,
}

impl DepError {
    /// The message shown.
    pub fn message(&self) -> (r: &'static str)
        ensures
            r@ == match self {
                DepError::ViaOnLocal => "--via is for cross-project deps (`--on project/lv-xxxx`)"@,
                DepError::SelfBlock => "a task cannot block itself"@,
            },
    {
        match self {
            DepError::ViaOnLocal => "--via is for cross-project deps (`--on project/lv-xxxx`)",
            DepError::SelfBlock => "a task cannot block itself",
        }
    }
}

/// The same-project dependency "`blocker` blocks `blocked`".
pub fn local_dependency(project_id: &str, blocker: &str, blocked: &str, via_given: bool) -> (r: Result<Dependency, DepError>)
    ensures
        via_given ==> r == Err::<Dependency, DepError>(DepError::ViaOnLocal),
        !via_given && blocker@ == blocked@ ==> r == Err::<Dependency, DepError>(DepError::SelfBlock),
        !via_given && blocker@ != blocked@ ==> (r matches Ok(d) && d.id@ == blocker@ + "->"@ + blocked@
            && d.project_id@ == project_id@ && d.blocker_task_id@ == blocker@ && d.blocked_task_id@ == blocked@
            && d.blocker_project_id.is_none() && d.blocker_ref.is_none() && d.via.is_none()),
{
    if via_given {
        return Err(DepError::ViaOnLocal);
    }
    if str_eq(blocker, blocked) {
        return Err(DepError::SelfBlock);
    }
    Ok(Dependency {
        id: dependency_id(blocker, blocked),
        project_id: project_id.to_owned(),
        blocker_task_id: blocker.to_owned(),
        blocked_task_id: blocked.to_owned(),
        blocker_project_id: None,
        blocker_ref: None,
        via: None,
    })
}

/// The cross-project dependency "task `blocker` of project `blocker_project`
/// blocks `blocked`", consumed on `refname` (when named) `via` the given note.
pub fn foreign_dependency(
    project_id: &str,
    blocker_project: &str,
    blocker: &str,
    blocked: &str,
    refname: Option<String>,
    via: Option<String>,
) -> (d: Dependency)
    ensures
        d.id@ == blocker_project@ + "/"@ + blocker@ + "->"@ + blocked@,
        d.project_id@ == project_id@,
        d.blocker_task_id@ == blocker@,
        d.blocked_task_id@ == blocked@,
        (d.blocker_project_id matches Some(p) && p@ == blocker_project@),
        d.blocker_ref == refname,
        d.via == via,
{
    Dependency {
        id: foreign_dependency_id(blocker_project, blocker, blocked),
        project_id: project_id.to_owned(),
        blocker_task_id: blocker.to_owned(),
        blocked_task_id: blocked.to_owned(),
        blocker_project_id: Some(blocker_project.to_owned()),
        blocker_ref: refname,
        via,
    }
}

/// Why a cross-project dependency could not be picked for removal.
#[derive(Debug, Clone, PartialEq, Eq)]
pub enum ForeignDepError {
    /// No cross-project dependency of the task matches.
    NoMatch,
    /// The prefix matches several.
    Ambiguous,
}

/// A cross-project dependency of `blocked` whose blocker id starts with `prefix`.
pub open spec fn foreign_dep_matches(d: Dependency, blocked: Seq<char>, prefix: Seq<char>) -> bool {
    d.blocked_task_id@ == blocked && d.blocker_project_id.is_some() && is_prefix(bytes_of(prefix), bytes_of(d.blocker_task_id@))
}

/// The cross-project dependency `levi dep rm` removes: the one dependency of
/// `blocked` on a foreign task whose id starts with `prefix`.
pub fn foreign_dep_to_remove<'a>(deps: &'a StrMap<Dependency>, blocked: &str, prefix: &str) -> (r: Result<&'a Dependency, ForeignDepError>)
    ensures
        ({
            let ms = deps.pairs().filter(|e: (Seq<char>, Dependency)| foreign_dep_matches(e.1, blocked@, prefix@));
            match r {
                Ok(d) => ms.len() == 1 && *d == ms[0].1,
                Err(ForeignDepError::NoMatch) => ms.len() == 0,
                Err(ForeignDepError::Ambiguous) => ms.len() >= 2,
            }
        }),
{
    let ghost p = |e: (Seq<char>, Dependency)| foreign_dep_matches(e.1, blocked@, prefix@);
    let n = deps.len();
    let mut found: Option<usize> = None;
    let mut count: usize = 0;
    let mut i: usize = 0;
    proof {
        crate::seqs::lemma_filter_empty_prefix(deps.pairs(), p);
    }
    while i < n
        invariant
            i <= n,
            n == deps.pairs().len(),
            p == (|e: (Seq<char>, Dependency)| foreign_dep_matches(e.1, blocked@, prefix@)),
            count <= 2,
            count == (if deps.pairs().subrange(0, i as int).filter(p).len() >= 2 { 2 } else {
                deps.pairs().subrange(0, i as int).filter(p).len()
            }),
            count >= 1 ==> found.is_some() && found.unwrap() < i && deps.pairs().subrange(0, i as int).filter(p)[0]
                == deps.pairs()[found.unwrap() as int],
        decreases n - i,
    {
        proof {
            crate::seqs::lemma_filter_step(deps.pairs(), p, i as int);
        }
        let d = deps.value_at(i);
        let m = str_eq(d.blocked_task_id.as_str(), blocked) && d.blocker_project_id.is_some()
            && starts_with(d.blocker_task_id.as_str(), prefix);
        proof {
            assert(m == p(deps.pairs()[i as int]));
        }
        if m {
            if count == 0 {
                found = Some(i);
            }
            if count < 2 {
                count = count + 1;
            }
        }
        i = i + 1;
    }
    proof {
        crate::seqs::lemma_full_prefix(deps.pairs());
    }
    if count == 0 {
        Err(ForeignDepError::NoMatch)
    } else if count == 1 {
        Ok(deps.value_at(found.unwrap()))
    } else {
        Err(ForeignDepError::Ambiguous)
    }
}

/// What `levi project rename` does.
#[derive(Debug, Clone, PartialEq, Eq)]
pub enum Rename {
    /// The project already has that name.
    Unchanged,
    /// The project record to append, renamed.
    Renamed(crate::entities::Project),
}

/// Why a rename was refused.
#[derive(Debug, Clone, Copy, PartialEq, Eq)]
pub enum RenameError {
    NoProject,
    EmptyName,
}

/// Rename the project to `name` (surrounding whitespace ignored).
pub fn rename_project(project: &Option<crate::entities::Project>, name: &str) -> (r: Result<Rename, RenameError>)
    ensures
        ({
            let n = crate::front_door::trim_ws(name@);
            match project {
                None => r == Err::<Rename, RenameError>(RenameError::NoProject),
                Some(p) => if n.len() == 0 {
                    r == Err::<Rename, RenameError>(RenameError::EmptyName)
                } else if p.name@ == n {
                    r == Ok::<Rename, RenameError>(Rename::Unchanged)
                } else {
                    (r matches Ok(Rename::Renamed(q)) && q.id == p.id && q.created_at == p.created_at && q.name@ == n)
                },
            }
        }),
{
    let p = match project {
        None => return Err(RenameError::NoProject),
        Some(p) => p,
    };
    let n = crate::front_door::trim_str(name);
    if n.as_str().is_empty() {
        return Err(RenameError::EmptyName);
    }
    if str_eq(p.name.as_str(), n.as_str()) {
        return Ok(Rename::Unchanged);
    }
    Ok(Rename::Renamed(crate::entities::Project { id: copy_string(&p.id), name: n, created_at: copy_string(&p.created_at) }))
}

/// A new task from `levi add`'s arguments: the priority given (P2 when
/// none), the body given (empty when none).
pub fn new_task(
    id: &str,
    project_id: &str,
    title: String,
    priority: Option<&str>,
    body: Option<String>,
    labels: Vec<String>,
    dev: &str,
    machine: &str,
    created: &str,
) -> (r: Result<Task, crate::edit::EditError>)
    ensures
        match priority {
            Some(p) if parse_priority(p@).is_none() => (r matches Err(crate::edit::EditError::InvalidPriority(x)) && x@ == p@),
            _ => (r matches Ok(t) && t.id@ == id@ && t.project_id@ == project_id@ && t.title == title
                && t.priority == (match priority {
                    Some(p) => parse_priority(p@).unwrap(),
                    None => Priority::P2,
                }) && t.body@ == (match body {
                    Some(b) => b@,
                    None => Seq::<char>::empty(),
                }) && t.labels == labels && t.created_by_dev@ == dev@ && t.created_by_machine@ == machine@
                && t.created@ == created@),
        },
{
    let pr = match priority {
        None => Priority::P2,
        Some(p) => match Priority::parse(p) {
            Some(x) => x,
            None => return Err(crate::edit::EditError::InvalidPriority(p.to_owned())),
        },
    };
    let b = match body {
        Some(b) => b,
        None => String::new(),
    };
    Ok(Task {
        id: id.to_owned(),
        project_id: project_id.to_owned(),
        title,
        body: b,
        priority: pr,
        labels,
        created_by_dev: dev.to_owned(),
        created_by_machine: machine.to_owned(),
        created: created.to_owned(),
    })
}

/// The dependencies `levi add --dep` records: each blocker blocks the new task.
pub fn blockers_of_new_task(project_id: &str, task_id: &str, blockers: &Vec<String>) -> (r: Vec<Dependency>)
    ensures
        r@.len() == blockers@.len(),
        forall|i: int| 0 <= i < r@.len() ==> {
            let d = #[trigger] r@[i];
            &&& d.id@ == blockers@[i]@ + "->"@ + task_id@
            &&& d.project_id@ == project_id@
            &&& d.blocker_task_id@ == blockers@[i]@
            &&& d.blocked_task_id@ == task_id@
            &&& d.blocker_project_id.is_none() && d.blocker_ref.is_none() && d.via.is_none()
        },
{
    let mut out: Vec<Dependency> = Vec::new();
    let mut i: usize = 0;
    while i < blockers.len()
        invariant
            i <= blockers@.len(),
            out@.len() == i,
            forall|j: int| 0 <= j < i ==> {
                let d = #[trigger] out@[j];
                &&& d.id@ == blockers@[j]@ + "->"@ + task_id@
                &&& d.project_id@ == project_id@
                &&& d.blocker_task_id@ == blockers@[j]@
                &&& d.blocked_task_id@ == task_id@
                &&& d.blocker_project_id.is_none() && d.blocker_ref.is_none() && d.via.is_none()
            },
        decreases blockers@.len() - i,
    {
        let b = blockers[i].as_str();
        out.push(Dependency {
            id: dependency_id(b, task_id),
            project_id: project_id.to_owned(),
            blocker_task_id: b.to_owned(),
            blocked_task_id: task_id.to_owned(),
            blocker_project_id: None,
            blocker_ref: None,
            via: None,
        });
        i = i + 1;
    }
    out
}

/// `levi ls`'s filters.
#[derive(Debug, Clone)]
pub struct LsFilter {
    /// Every status, not just open.
    pub all: bool,
    /// Closed tasks instead of open ones.
    pub closed: bool,
    /// Only tasks with this label.
    pub label: Option<String>,
    /// Only tasks `me` holds a live claim on.
    pub mine: bool,
}

/// Task `t` passes `levi ls`'s filters.
pub open spec fn ls_shown(world: World, st: Map<Seq<char>, ResolvedStatus>, t: Task, now: Instant, me: Identity, f: LsFilter) -> bool {
    &&& if f.all {
        true
    } else if f.closed {
        st[t.id@].status == Status::Closed
    } else {
        st[t.id@].status == Status::Open
    }
    &&& match f.label {
        Some(l) => crate::resolve::listed(t.labels@, l@),
        None => true,
    }
    &&& (!f.mine || match live_claim_of(world, t.id@, now) {
        Some(c) => claim_is_spec(c, me),
        None => false,
    })
}

/// The rows `levi ls` shows, in task-id order before sorting.
pub open spec fn ls_candidates(world: World, st: Map<Seq<char>, ResolvedStatus>, now: Instant, me: Identity, f: LsFilter, n: int) -> Seq<crate::browse::Row>
    decreases n,
{
    if n <= 0 {
        Seq::empty()
    } else {
        let prev = ls_candidates(world, st, now, me, f, n - 1);
        let t = world.tasks.pairs()[n - 1].1;
        if ls_shown(world, st, t, now, me, f) {
            prev.push(crate::browse::Row { index: (n - 1) as usize, rank: crate::entities::priority_rank(t.priority), created: t.created })
        } else {
            prev
        }
    }
}

/// The task ids `levi ls` lists: those passing the filters, by (priority,
/// created), ties in id order.
pub fn ls_rows(world: &World, statuses: &StrMap<ResolvedStatus>, now: Instant, me: &Identity, f: &LsFilter) -> (r: Vec<String>)
    requires
        forall|j: int| 0 <= j < world.tasks.pairs().len() ==> statuses.map().dom().contains((#[trigger] world.tasks.pairs()[j]).1.id@)
            && claim_checkable(*world, world.tasks.pairs()[j].1.id@),
    ensures
        r@.map_values(|s: String| s@) == crate::sort::stable_sorted(ls_candidates(*world, statuses.map(), now, *me, *f, world.tasks.pairs().len() as int))
            .map_values(|w: crate::browse::Row| world.tasks.pairs()[w.index as int].1.id@),
{
    let n = world.tasks.len();
    let mut rows: Vec<crate::browse::Row> = Vec::new();
    let mut i: usize = 0;
    proof {
        crate::strmap::lemma_pairs_map_all(world.tasks.pairs());
    }
    while i < n
        invariant
            i <= n,
            n == world.tasks.pairs().len(),
            forall|j: int| 0 <= j < world.tasks.pairs().len() ==> statuses.map().dom().contains((#[trigger] world.tasks.pairs()[j]).1.id@)
                && claim_checkable(*world, world.tasks.pairs()[j].1.id@),
            rows@ == ls_candidates(*world, statuses.map(), now, *me, *f, i as int),
            forall|t: int| 0 <= t < rows@.len() ==> (#[trigger] rows@[t]).index < i,
        decreases n - i,
    {
        let t = world.tasks.value_at(i);
        assert(statuses.map().dom().contains(world.tasks.pairs()[i as int].1.id@));
        let st = statuses.get(t.id.as_str()).unwrap().status;
        let status_ok = if f.all {
            true
        } else if f.closed {
            st == Status::Closed
        } else {
            st == Status::Open
        };
        let label_ok = match &f.label {
            Some(l) => crate::resolve::is_listed(&t.labels, l.as_str()),
            None => true,
        };
        let mine_ok = if f.mine {
            match world.live_claim(t.id.as_str(), now) {
                Some(c) => claim_is(c, me),
                None => false,
            }
        } else {
            true
        };
        if status_ok && label_ok && mine_ok {
            rows.push(crate::browse::Row { index: i, rank: t.priority.rank(), created: copy_string(&t.created) });
        }
        i = i + 1;
    }
    let ghost rs = rows@;
    let sorted = crate::sort::sort_by_key(rows);
    proof {
        broadcast use vstd::seq_lib::group_to_multiset_ensures;
        assert forall|t: int| 0 <= t < sorted@.len() implies (#[trigger] sorted@[t]).index < n by {
            assert(sorted@.to_multiset().count(sorted@[t]) > 0);
            assert(rs.to_multiset().count(sorted@[t]) > 0);
            assert(rs.contains(sorted@[t]));
        }
    }
    let mut out: Vec<String> = Vec::new();
    let mut k: usize = 0;
    while k < sorted.len()
        invariant
            k <= sorted@.len(),
            n == world.tasks.pairs().len(),
            sorted@ == crate::sort::stable_sorted(ls_candidates(*world, statuses.map(), now, *me, *f, n as int)),
            forall|t: int| 0 <= t < sorted@.len() ==> (#[trigger] sorted@[t]).index < n,
            out@.map_values(|s: String| s@) == sorted@.subrange(0, k as int).map_values(|w: crate::browse::Row| world.tasks.pairs()[w.index as int].1.id@),
        decreases sorted@.len() - k,
    {
        let idx = sorted[k].index;
        let ghost before = out@;
        let v = world.tasks.value_at(idx);
        assert(*v == world.tasks.pairs()[idx as int].1);
        out.push(copy_string(&v.id));
        assert(out@.map_values(|s: String| s@) =~= before.map_values(|s: String| s@).push(world.tasks.pairs()[sorted@[k as int].index as int].1.id@));
        assert(sorted@.subrange(0, k + 1).map_values(|w: crate::browse::Row| world.tasks.pairs()[w.index as int].1.id@)
            =~= sorted@.subrange(0, k as int).map_values(|w: crate::browse::Row| world.tasks.pairs()[w.index as int].1.id@).push(
            world.tasks.pairs()[sorted@[k as int].index as int].1.id@,
        ));
        assert(out@.map_values(|s: String| s@) =~= sorted@.subrange(0, k + 1).map_values(|w: crate::browse::Row| world.tasks.pairs()[w.index as int].1.id@));
        k = k + 1;
    }
    assert(sorted@.subrange(0, sorted@.len() as int) =~= sorted@);
    out
}

/// The reason `levi next` prints: the ranking reason, plus a note when a
/// fix exists on other ancestry.
pub fn full_reason(reason: &str, hint: Option<String>) -> (r: String)
    ensures
        r@ == match hint {
            Some(h) => reason@ + "; note: "@ + h@ + " — consider merging it"@,
            None => reason@,
        },
{
    match hint {
        Some(h) => {
            let a = concat(reason, "; note: ");
            let b = concat(a.as_str(), h.as_str());
            concat(b.as_str(), " — consider merging it")
        },
        None => reason.to_owned(),
    }
}

/// How `levi show` presents a cross-project blocker: its short name, and its
/// status and grade from the ladder (open and partial when unresolved).
pub fn foreign_blocker_view(
    blocker_project: &str,
    blocker_task: &str,
    info: Option<&crate::foreign::ForeignInfo>,
) -> (r: (String, &'static str, &'static str))
    requires
        crate::browse::cuttable(blocker_project@, 8),
        crate::browse::cuttable(blocker_task@, 4),
    ensures
        r.0@ == crate::browse::head_bytes(blocker_project@, 8) + "/lv-"@ + crate::browse::head_bytes(blocker_task@, 4),
        r.1@ == match info {
            Some(i) => crate::resolve::status_label(i.status),
            None => "open"@,
        },
        r.2@ == match info {
            Some(i) => crate::resolve::resolution_label(i.resolution),
            None => "partial"@,
        },
{
    let a = concat(crate::browse::first_bytes(blocker_project, 8), "/lv-");
    let short = concat(a.as_str(), crate::browse::first_bytes(blocker_task, 4));
    match info {
        Some(i) => (short, i.status.label(), i.resolution.label()),
        None => (short, "open", "partial"),
    }
}

/// The warning for an anchor no ref reaches: rewritten (same patch-id) as
/// another commit, or lost to a rebase.
pub fn orphan_warning(sha: &str, rewritten_as: Option<&str>) -> (r: String)
    requires
        crate::browse::cuttable(sha@, 8),
        rewritten_as matches Some(n) ==> crate::browse::cuttable(n@, 8),
    ensures
        r@ == match rewritten_as {
            Some(n) => "warning: anchor "@ + crate::browse::head_bytes(sha@, 8) + " was rewritten as "@
                + crate::browse::head_bytes(n@, 8) + " (same patch-id); affected tasks may show as open here. Re-close with `levi close <id> --anchor "@
                + crate::browse::head_bytes(n@, 8) + "`."@,
            None => "warning: anchor "@ + crate::browse::head_bytes(sha@, 8)
                + " is unreachable from any ref — likely rebased away; affected tasks may show as open here. Re-run `levi close <id>` at the new HEAD."@,
        },
{
    let a = concat("warning: anchor ", crate::browse::first_bytes(sha, 8));
    match rewritten_as {
        Some(n) => {
            let n8 = crate::browse::first_bytes(n, 8);
            let b = concat(a.as_str(), " was rewritten as ");
            let c = concat(b.as_str(), n8);
            let d = concat(c.as_str(), " (same patch-id); affected tasks may show as open here. Re-close with `levi close <id> --anchor ");
            let e = concat(d.as_str(), n8);
            concat(e.as_str(), "`.")
        },
        None => concat(
            a.as_str(),
            " is unreachable from any ref — likely rebased away; affected tasks may show as open here. Re-run `levi close <id>` at the new HEAD.",
        ),
    }
}

/// The anchors of the given tasks' status changes, task by task, each
/// task's in (created, id) order.
pub open spec fn anchors_spec(world: World, ids: Seq<String>) -> Seq<Seq<char>>
    decreases ids.len(),
{
    if ids.len() == 0 {
        Seq::empty()
    } else {
        anchors_spec(world, ids.drop_last()) + change_anchors(world.status_changes@.filter(crate::crossproject::change_of_task(ids.last()@)))
    }
}

/// The anchors of a list of changes, in order.
pub open spec fn change_anchors(cs: Seq<crate::entities::StatusChange>) -> Seq<Seq<char>>
    decreases cs.len(),
{
    if cs.len() == 0 {
        Seq::empty()
    } else {
        change_anchors(cs.drop_last()) + match cs.last().anchor_commit {
            Some(a) => seq![a@],
            None => Seq::<Seq<char>>::empty(),
        }
    }
}

/// The anchors whose reachability `levi ls` and `levi show` check.
pub fn task_anchors(world: &World, ids: &Vec<String>) -> (r: Vec<String>)
    ensures
        r@.map_values(|s: String| s@) == anchors_spec(*world, ids@),
{
    let mut out: Vec<String> = Vec::new();
    let mut i: usize = 0;
    while i < ids.len()
        invariant
            i <= ids@.len(),
            out@.map_values(|s: String| s@) == anchors_spec(*world, ids@.subrange(0, i as int)),
        decreases ids@.len() - i,
    {
        proof {
            assert(ids@.subrange(0, i + 1).drop_last() =~= ids@.subrange(0, i as int));
        }
        let changes = world.changes_for(ids[i].as_str());
        let ghost cs = changes@.map_values(|c: &crate::entities::StatusChange| *c);
        let ghost base = out@.map_values(|s: String| s@);
        let mut j: usize = 0;
        while j < changes.len()
            invariant
                j <= changes@.len(),
                cs == changes@.map_values(|c: &crate::entities::StatusChange| *c),
                out@.map_values(|s: String| s@) == base + change_anchors(cs.subrange(0, j as int)),
            decreases changes@.len() - j,
        {
            proof {
                assert(cs.subrange(0, j + 1).drop_last() =~= cs.subrange(0, j as int));
                assert(cs.subrange(0, j + 1).last() == *changes@[j as int]);
            }
            let ghost before = out@;
            match &changes[j].anchor_commit {
                Some(a) => {
                    out.push(copy_string(a));
                    assert(out@.map_values(|s: String| s@) =~= before.map_values(|s: String| s@).push(a@));
                    assert(change_anchors(cs.subrange(0, j + 1)) == change_anchors(cs.subrange(0, j as int)) + seq![a@]);
                    assert(out@.map_values(|s: String| s@) =~= base + change_anchors(cs.subrange(0, j + 1)));
                },
                None => {
                    assert(out@.map_values(|s: String| s@) =~= base + change_anchors(cs.subrange(0, j + 1)));
                },
            }
            j = j + 1;
        }
        assert(cs.subrange(0, cs.len() as int) =~= cs);
        i = i + 1;
    }
    assert(ids@.subrange(0, ids@.len() as int) =~= ids@);
    out
}

/// Once a live claim on a task is held by someone other than `me` (another
/// developer or worktree, or another machine by machine id where both sides
/// have one), `levi next --claim` does not hand that task out again.
pub proof fn law_next_claim_never_doubles(
    world: World,
    statuses: Map<Seq<char>, ResolvedStatus>,
    task_id: Seq<char>,
    now: Instant,
    me: Identity,
)
    requires
        live_claim_of(world, task_id, now) matches Some(c) && !claim_is_spec(c, me),
    ensures
        !next_claim_admits_spec(world, statuses, task_id, now, me),
{
}

/// `levi next --claim` refuses a task whose live claim was taken in another
/// worktree or by another developer, even on the same machine.
pub proof fn law_next_claim_refuses_other_worktree(
    world: World,
    statuses: Map<Seq<char>, ResolvedStatus>,
    task_id: Seq<char>,
    now: Instant,
    me: Identity,
)
    requires
        live_claim_of(world, task_id, now) matches Some(c) && (c.worktree@ != me.worktree@ || c.dev@ != me.dev@),
    ensures
        !next_claim_admits_spec(world, statuses, task_id, now, me),
{
    law_claim_identity(live_claim_of(world, task_id, now)->0, me);
}

/// The branch ref a claim is taken on: claims are branch-owned, so a
/// detached HEAD or a ref outside `refs/heads/` cannot claim.
pub fn claim_ref(head_name: Option<&str>) -> (r: Result<String, String>)
    ensures
        match head_name {
            None => r matches Err(m) && m@ == "cannot claim from detached HEAD; check out a branch first"@,
            Some(n) => if is_prefix(bytes_of("refs/heads/"@), bytes_of(n@)) {
                r matches Ok(x) && x@ == n@
            } else {
                r matches Err(m) && m@ == "cannot claim from non-branch Git ref '"@ + n@ + "'; check out a branch first"@
            },
        },
{
    match head_name {
        None => Err("cannot claim from detached HEAD; check out a branch first".to_owned()),
        Some(n) => if starts_with(n, "refs/heads/") {
            Ok(n.to_owned())
        } else {
            let a = concat("cannot claim from non-branch Git ref '", n);
            Err(concat(a.as_str(), "'; check out a branch first"))
        },
    }
}

} // verus!
