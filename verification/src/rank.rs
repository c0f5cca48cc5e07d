//! Ranking for `levi next`.
//!
//! Eligible = open on this checkout ∧ every blocker closed on this checkout ∧
//! no live claim by someone else. Order: priority (P0 first) → transitive
//! unblock count (closing this frees the most open work) → age (oldest
//! first) → task id. Deterministic and explainable.

use vstd::prelude::*;

use crate::entities::{
    foreign_key, lemma_pair_le_total, lemma_pair_le_trans, pair_le, pair_le_exec, priority_label,
    priority_rank, Claim, Dependency, Priority, Task,
};
use crate::materialize::{claim_live_at, ttl_representable, Instant, World};
use crate::resolve::{listed, ResolvedStatus, Status};
use crate::sort::{sort_by_key, sorted_by_key, SortKey};
use crate::strmap::{lemma_pairs_map_all, lemma_pairs_map_at, lemma_pairs_map_finite, strictly_sorted, StrMap};
use crate::text::{concat, copy_string, decimal, decimal_string, lemma_str_le_antisym, str_eq, str_le, str_lt};

verus! {

/// Who is asking: the developer, the machine and the worktree.
#[derive(Clone, Debug, PartialEq, Eq)]
pub struct Identity {
    pub dev: String,
    pub machine: String,
    /// Minted per-machine UUID. Empty = unknown.
    pub machine_id: String,
    pub worktree: String,
}

/// The claim is held by `me`: same developer and worktree, and the same
/// machine — by machine id when both sides have one, else by display name.
pub open spec fn claim_is_spec(c: Claim, me: Identity) -> bool {
    let machine_matches = if c.machine_id@.len() > 0 && me.machine_id@.len() > 0 {
        c.machine_id@ == me.machine_id@
    } else {
        c.machine@ == me.machine@
    };
    c.dev@ == me.dev@ && machine_matches && c.worktree@ == me.worktree@
}

/// Is this claim held by `me`? Compares by machine_id when both sides have
/// one; falls back to the display name for legacy events (pre-machine-id).
pub fn claim_is(claim: &Claim, me: &Identity) -> (r: bool)
    ensures
        r == claim_is_spec(*claim, *me),
{
    let machine_matches = if !claim.machine_id.as_str().is_empty() && !me.machine_id.as_str().is_empty() {
        str_eq(claim.machine_id.as_str(), me.machine_id.as_str())
    } else {
        str_eq(claim.machine.as_str(), me.machine.as_str())
    };
    str_eq(claim.dev.as_str(), me.dev.as_str()) && machine_matches && str_eq(claim.worktree.as_str(), me.worktree.as_str())
}

/// The task is open on this checkout (no resolved status counts as not open).
pub open spec fn is_open(statuses: Map<Seq<char>, ResolvedStatus>, id: Seq<char>) -> bool {
    statuses.dom().contains(id) && statuses[id].status == Status::Open
}

/// `d` is a same-project dependency between two existing tasks: `a` blocks `b`.
pub open spec fn local_block(d: Dependency, tids: Set<Seq<char>>, a: Seq<char>, b: Seq<char>) -> bool {
    &&& d.blocker_project_id is None
    &&& d.blocker_task_id@ == a
    &&& d.blocked_task_id@ == b
    &&& tids.contains(a)
    &&& tids.contains(b)
}

/// Some same-project dependency says `a` blocks `b`.
pub open spec fn blocks(deps: Map<Seq<char>, Dependency>, tids: Set<Seq<char>>, a: Seq<char>, b: Seq<char>) -> bool {
    exists|k: Seq<char>| #[trigger] deps.dom().contains(k) && local_block(deps[k], tids, a, b)
}

/// `d` is a cross-project dependency of `b` whose blocker is not known closed
/// (a missing status is unknown, and unknown still blocks).
pub open spec fn foreign_unmet(d: Dependency, foreign: Map<Seq<char>, Status>, b: Seq<char>) -> bool {
    match d.blocker_project_id {
        Some(p) => {
            let key = p@ + "/"@ + d.blocker_task_id@;
            d.blocked_task_id@ == b && !(foreign.dom().contains(key) && foreign[key] == Status::Closed)
        },
        None => false,
    }
}

/// Some cross-project blocker of `b` is not known closed.
pub open spec fn foreign_blocked(deps: Map<Seq<char>, Dependency>, foreign: Map<Seq<char>, Status>, b: Seq<char>) -> bool {
    exists|k: Seq<char>| #[trigger] deps.dom().contains(k) && foreign_unmet(deps[k], foreign, b)
}

/// Someone else holds a live claim on the task.
pub open spec fn claimed_by_other(claims: Map<Seq<char>, Claim>, id: Seq<char>, now: Instant, me: Identity) -> bool {
    claims.dom().contains(id) && claim_live_at(claims[id], now) && !claim_is_spec(claims[id], me)
}

/// The task can be picked up now.
#[verifier::opaque]
pub open spec fn eligible(
    w: World,
    statuses: Map<Seq<char>, ResolvedStatus>,
    foreign: Map<Seq<char>, Status>,
    now: Instant,
    me: Identity,
    id: Seq<char>,
) -> bool {
    let tids = w.tasks.map().dom();
    &&& tids.contains(id)
    &&& is_open(statuses, id)
    &&& forall|a: Seq<char>| #[trigger] blocks(w.deps.map(), tids, a, id) ==> !is_open(statuses, a)
    &&& !foreign_blocked(w.deps.map(), foreign, id)
    &&& !claimed_by_other(w.claims.map(), id, now, me)
}

/// `p` follows blocks edges.
pub open spec fn is_block_walk(deps: Map<Seq<char>, Dependency>, tids: Set<Seq<char>>, p: Seq<Seq<char>>) -> bool {
    p.len() > 0 && forall|i: int| 0 <= i < p.len() - 1 ==> #[trigger] blocks(deps, tids, p[i], p[i + 1])
}

/// A chain of one or more blocks edges leads from `id` to `x`.
pub open spec fn blocked_via(deps: Map<Seq<char>, Dependency>, tids: Set<Seq<char>>, id: Seq<char>, x: Seq<char>) -> bool {
    exists|p: Seq<Seq<char>>| #[trigger] is_block_walk(deps, tids, p) && p.len() >= 2 && p[0] == id && p.last() == x
}

/// The open tasks, other than `id`, that `id` transitively blocks.
pub open spec fn unblocked_by(
    deps: Map<Seq<char>, Dependency>,
    tids: Set<Seq<char>>,
    statuses: Map<Seq<char>, ResolvedStatus>,
    id: Seq<char>,
) -> Set<Seq<char>> {
    Set::new(|x: Seq<char>| x != id && blocked_via(deps, tids, id, x) && is_open(statuses, x))
}

/// How many open tasks closing `id` would (transitively) free.
pub open spec fn unblock_count(
    deps: Map<Seq<char>, Dependency>,
    tids: Set<Seq<char>>,
    statuses: Map<Seq<char>, ResolvedStatus>,
    id: Seq<char>,
) -> nat {
    unblocked_by(deps, tids, statuses, id).len()
}

proof fn lemma_blocked_via_edge(deps: Map<Seq<char>, Dependency>, tids: Set<Seq<char>>, id: Seq<char>, b: Seq<char>)
    requires
        blocks(deps, tids, id, b),
    ensures
        blocked_via(deps, tids, id, b),
{
    let p = seq![id, b];
    assert(is_block_walk(deps, tids, p));
}

proof fn lemma_blocked_via_step(deps: Map<Seq<char>, Dependency>, tids: Set<Seq<char>>, id: Seq<char>, x: Seq<char>, y: Seq<char>)
    requires
        blocked_via(deps, tids, id, x),
        blocks(deps, tids, x, y),
    ensures
        blocked_via(deps, tids, id, y),
{
    let p = choose|p: Seq<Seq<char>>| #[trigger] is_block_walk(deps, tids, p) && p.len() >= 2 && p[0] == id && p.last() == x;
    let q = p.push(y);
    assert forall|i: int| 0 <= i < q.len() - 1 implies #[trigger] blocks(deps, tids, q[i], q[i + 1]) by {
        if i < p.len() - 1 {
            assert(blocks(deps, tids, p[i], p[i + 1]));
        }
    }
    assert(is_block_walk(deps, tids, q));
}

proof fn lemma_block_walk_edge(deps: Map<Seq<char>, Dependency>, tids: Set<Seq<char>>, p: Seq<Seq<char>>, i: int)
    requires
        is_block_walk(deps, tids, p),
        0 <= i < p.len() - 1,
    ensures
        blocks(deps, tids, p[i], p[i + 1]),
{
}

proof fn lemma_walk_stays_in(deps: Map<Seq<char>, Dependency>, tids: Set<Seq<char>>, set: Set<Seq<char>>, p: Seq<Seq<char>>, i: int)
    requires
        is_block_walk(deps, tids, p),
        0 <= i < p.len(),
        set.contains(p[0]),
        forall|a: Seq<char>, b: Seq<char>| set.contains(a) && #[trigger] blocks(deps, tids, a, b) ==> set.contains(b),
    ensures
        set.contains(p[i]),
    decreases i,
{
    if i > 0 {
        lemma_walk_stays_in(deps, tids, set, p, i - 1);
        lemma_block_walk_edge(deps, tids, p, i - 1);
    }
}

/// The tasks `x` directly blocks, each listed once per dependency.
fn blocked_by_task(x: &str, tasks: &StrMap<Task>, deps: &StrMap<Dependency>) -> (r: Vec<String>)
    ensures
        forall|b: Seq<char>| blocks(deps.map(), tasks.map().dom(), x@, b) <==> #[trigger] listed(r@, b),
{
    let ghost tids = tasks.map().dom();
    let n = deps.len();
    let mut out: Vec<String> = Vec::new();
    let mut i: usize = 0;
    while i < n
        invariant
            i <= n,
            n == deps.pairs().len(),
            tids == tasks.map().dom(),
            forall|b: Seq<char>| #[trigger] listed(out@, b) <==> exists|j: int| 0 <= j < i && #[trigger] local_block(deps.pairs()[j].1, tids, x@, b),
        decreases n - i,
    {
        let d = deps.value_at(i);
        let ghost before = out@;
        if d.blocker_project_id.is_none() && str_eq(d.blocker_task_id.as_str(), x)
            && tasks.contains_key(d.blocker_task_id.as_str()) && tasks.contains_key(d.blocked_task_id.as_str()) {
            out.push(copy_string(&d.blocked_task_id));
        }
        proof {
            assert forall|b: Seq<char>| #[trigger] listed(out@, b) <==> exists|j: int| 0 <= j < i + 1 && #[trigger] local_block(deps.pairs()[j].1, tids, x@, b) by {
                if listed(out@, b) {
                    let k = choose|k: int| 0 <= k < out@.len() && out@[k]@ == b;
                    if k < before.len() {
                        assert(listed(before, b));
                    }
                }
                if local_block(deps.pairs()[i as int].1, tids, x@, b) {
                    assert(out@[out@.len() - 1]@ == b);
                }
                if listed(before, b) {
                    let k = choose|k: int| 0 <= k < before.len() && before[k]@ == b;
                    assert(out@[k] == before[k]);
                }
            }
        }
        i = i + 1;
    }
    proof {
        lemma_pairs_map_all(deps.pairs());
        assert forall|b: Seq<char>| blocks(deps.map(), tids, x@, b) <==> #[trigger] listed(out@, b) by {
            if blocks(deps.map(), tids, x@, b) {
                let k = choose|k: Seq<char>| #[trigger] deps.map().dom().contains(k) && local_block(deps.map()[k], tids, x@, b);
                let j = choose|j: int| 0 <= j < deps.pairs().len() && deps.pairs()[j].0 == k;
                assert(deps.map()[deps.pairs()[j].0] == deps.pairs()[j].1);
                assert(local_block(deps.pairs()[j].1, tids, x@, b));
            }
            if listed(out@, b) {
                let j = choose|j: int| 0 <= j < n && #[trigger] local_block(deps.pairs()[j].1, tids, x@, b);
                assert(deps.map().dom().contains(deps.pairs()[j].0));
            }
        }
    }
    out
}

/// Every same-project blocker of `id` is not open.
fn blockers_closed(id: &str, tasks: &StrMap<Task>, deps: &StrMap<Dependency>, statuses: &StrMap<ResolvedStatus>) -> (r: bool)
    ensures
        r == (forall|a: Seq<char>| #[trigger] blocks(deps.map(), tasks.map().dom(), a, id@) ==> !is_open(statuses.map(), a)),
{
    let ghost tids = tasks.map().dom();
    let n = deps.len();
    let mut i: usize = 0;
    proof {
        lemma_pairs_map_all(deps.pairs());
    }
    while i < n
        invariant
            i <= n,
            n == deps.pairs().len(),
            strictly_sorted(deps.pairs()),
            tids == tasks.map().dom(),
            forall|j: int, a: Seq<char>| 0 <= j < i && #[trigger] local_block(deps.pairs()[j].1, tids, a, id@) ==> !is_open(statuses.map(), a),
        decreases n - i,
    {
        let d = deps.value_at(i);
        if d.blocker_project_id.is_none() && str_eq(d.blocked_task_id.as_str(), id)
            && tasks.contains_key(d.blocker_task_id.as_str()) && tasks.contains_key(d.blocked_task_id.as_str()) {
            let open = match statuses.get(d.blocker_task_id.as_str()) {
                Some(s) => s.status == Status::Open,
                None => false,
            };
            if open {
                proof {
                    let a = d.blocker_task_id@;
                    assert(local_block(deps.pairs()[i as int].1, tids, a, id@));
                    lemma_pairs_map_at(deps.pairs(), i as int);
                    assert(blocks(deps.map(), tids, a, id@));
                }
                return false;
            }
        }
        i = i + 1;
    }
    proof {
        assert forall|a: Seq<char>| #[trigger] blocks(deps.map(), tids, a, id@) implies !is_open(statuses.map(), a) by {
            let k = choose|k: Seq<char>| #[trigger] deps.map().dom().contains(k) && local_block(deps.map()[k], tids, a, id@);
            let j = choose|j: int| 0 <= j < deps.pairs().len() && deps.pairs()[j].0 == k;
            assert(deps.map()[deps.pairs()[j].0] == deps.pairs()[j].1);
            assert(local_block(deps.pairs()[j].1, tids, a, id@));
        }
    }
    true
}

/// Some cross-project blocker of `id` is not known closed.
fn foreign_blocked_exec(id: &str, deps: &StrMap<Dependency>, foreign: &StrMap<Status>) -> (r: bool)
    ensures
        r == foreign_blocked(deps.map(), foreign.map(), id@),
{
    let n = deps.len();
    let mut i: usize = 0;
    proof {
        lemma_pairs_map_all(deps.pairs());
    }
    while i < n
        invariant
            i <= n,
            n == deps.pairs().len(),
            strictly_sorted(deps.pairs()),
            forall|j: int| 0 <= j < i ==> !foreign_unmet(#[trigger] deps.pairs()[j].1, foreign.map(), id@),
        decreases n - i,
    {
        let d = deps.value_at(i);
        if let Some(bp) = &d.blocker_project_id {
            if str_eq(d.blocked_task_id.as_str(), id) {
                let key = foreign_key(bp.as_str(), d.blocker_task_id.as_str());
                let closed = match foreign.get(key.as_str()) {
                    Some(s) => *s == Status::Closed,
                    None => false,
                };
                if !closed {
                    proof {
                        assert(foreign_unmet(deps.pairs()[i as int].1, foreign.map(), id@));
                        lemma_pairs_map_at(deps.pairs(), i as int);
                        assert(deps.map().dom().contains(deps.pairs()[i as int].0));
                    }
                    return true;
                }
            }
        }
        i = i + 1;
    }
    proof {
        if foreign_blocked(deps.map(), foreign.map(), id@) {
            let k = choose|k: Seq<char>| #[trigger] deps.map().dom().contains(k) && foreign_unmet(deps.map()[k], foreign.map(), id@);
            let j = choose|j: int| 0 <= j < deps.pairs().len() && deps.pairs()[j].0 == k;
            assert(deps.map()[deps.pairs()[j].0] == deps.pairs()[j].1);
            assert(!foreign_unmet(deps.pairs()[j].1, foreign.map(), id@));
        }
    }
    false
}

/// Count open tasks transitively blocked by `id` (cycle-safe).
pub fn transitive_unblocks(id: &str, world: &World, statuses: &StrMap<ResolvedStatus>) -> (r: usize)
    ensures
        r == unblock_count(world.deps.map(), world.tasks.map().dom(), statuses.map(), id@),
{
    let ghost deps = world.deps.map();
    let ghost tids = world.tasks.map().dom();
    let ghost st = statuses.map();
    let n = world.tasks.len();
    proof {
        lemma_pairs_map_finite(world.tasks.pairs());
    }
    let mut seen: StrMap<()> = StrMap::new();
    let ghost mut counted: Set<Seq<char>> = Set::empty();
    let mut stack = blocked_by_task(id, &world.tasks, &world.deps);
    proof {
        assert forall|i: int| 0 <= i < stack@.len() implies blocked_via(deps, tids, id@, #[trigger] stack@[i]@) && tids.contains(stack@[i]@) by {
            assert(listed(stack@, stack@[i]@));
            let k = choose|k: Seq<char>| #[trigger] deps.dom().contains(k) && local_block(deps[k], tids, id@, stack@[i]@);
            lemma_blocked_via_edge(deps, tids, id@, stack@[i]@);
        }
    }
    let mut count: usize = 0;
    while stack.len() > 0
        invariant
            deps == world.deps.map(),
            tids == world.tasks.map().dom(),
            st == statuses.map(),
            tids.finite(),
            tids.len() <= n,
            forall|x: Seq<char>| #[trigger] seen.map().dom().contains(x) ==> x != id@ && blocked_via(deps, tids, id@, x) && tids.contains(x),
            forall|i: int| 0 <= i < stack@.len() ==> blocked_via(deps, tids, id@, #[trigger] stack@[i]@) && tids.contains(stack@[i]@),
            forall|b: Seq<char>| #[trigger] blocks(deps, tids, id@, b) ==> b == id@ || seen.map().dom().contains(b) || listed(stack@, b),
            forall|a: Seq<char>, b: Seq<char>| seen.map().dom().contains(a) && #[trigger] blocks(deps, tids, a, b) ==> b == id@ || seen.map().dom().contains(b) || listed(stack@, b),
            forall|x: Seq<char>| #[trigger] counted.contains(x) <==> seen.map().dom().contains(x) && is_open(st, x),
            counted.finite(),
            count == counted.len(),
        decreases tids.difference(seen.map().dom()).len(), stack@.len(),
    {
        let ghost before_stack = stack@;
        let next = stack.pop().unwrap();
        proof {
            assert(before_stack =~= stack@.push(next));
            assert(blocked_via(deps, tids, id@, next@) && tids.contains(next@)) by {
                assert(before_stack[before_stack.len() - 1] == next);
            }
            assert forall|b: Seq<char>| listed(before_stack, b) && b != next@ implies listed(stack@, b) by {
                let i = choose|i: int| 0 <= i < before_stack.len() && before_stack[i]@ == b;
                assert(stack@[i]@ == b);
            }
        }
        if str_eq(next.as_str(), id) || seen.contains_key(next.as_str()) {
            continue;
        }
        let ghost before_seen = seen.map().dom();
        let ghost before_counted = counted;
        proof {
            tids.lemma_set_insert_diff_decreases(before_seen, next@);
        }
        seen.insert(copy_string(&next), ());
        assert(seen.map().dom() =~= before_seen.insert(next@));
        let open = match statuses.get(next.as_str()) {
            Some(s) => s.status == Status::Open,
            None => false,
        };
        if open {
            proof {
                counted = counted.insert(next@);
                assert forall|x: Seq<char>| counted.contains(x) implies tids.contains(x) by {}
                vstd::set_lib::lemma_len_subset(counted, tids);
            }
            count = count + 1;
        }
        proof {
            assert forall|x: Seq<char>| #[trigger] counted.contains(x) <==> seen.map().dom().contains(x) && is_open(st, x) by {}
        }
        let more = blocked_by_task(next.as_str(), &world.tasks, &world.deps);
        let ghost s0 = stack@;
        let mut j: usize = 0;
        while j < more.len()
            invariant
                j <= more@.len(),
                stack@.len() == s0.len() + j,
                forall|i: int| 0 <= i < s0.len() ==> #[trigger] stack@[i] == s0[i],
                forall|i: int| s0.len() <= i < stack@.len() ==> #[trigger] stack@[i] == more@[i - s0.len()],
            decreases more@.len() - j,
        {
            stack.push(copy_string(&more[j]));
            j = j + 1;
        }
        proof {
            assert forall|i: int| 0 <= i < stack@.len() implies blocked_via(deps, tids, id@, #[trigger] stack@[i]@) && tids.contains(stack@[i]@) by {
                if i >= s0.len() {
                    let b = stack@[i]@;
                    assert(b == more@[i - s0.len()]@);
                    assert(listed(more@, b));
                    lemma_blocked_via_step(deps, tids, id@, next@, b);
                    let k = choose|k: Seq<char>| #[trigger] deps.dom().contains(k) && local_block(deps[k], tids, next@, b);
                } else {
                    assert(stack@[i] == s0[i]);
                }
            }
            assert forall|b: Seq<char>| listed(s0, b) implies listed(stack@, b) by {
                let i = choose|i: int| 0 <= i < s0.len() && s0[i]@ == b;
                assert(stack@[i] == s0[i]);
            }
            assert forall|b: Seq<char>| listed(more@, b) implies listed(stack@, b) by {
                let i = choose|i: int| 0 <= i < more@.len() && more@[i]@ == b;
                assert(stack@[s0.len() + i] == more@[i]);
            }
        }
    }
    proof {
        let closed = seen.map().dom().insert(id@);
        assert forall|x: Seq<char>| #[trigger] unblocked_by(deps, tids, st, id@).contains(x) <==> counted.contains(x) by {
            if x != id@ && blocked_via(deps, tids, id@, x) {
                let p = choose|p: Seq<Seq<char>>| #[trigger] is_block_walk(deps, tids, p) && p.len() >= 2 && p[0] == id@ && p.last() == x;
                lemma_walk_stays_in(deps, tids, closed, p, p.len() - 1);
            }
        }
        assert(unblocked_by(deps, tids, st, id@) =~= counted);
    }
    count
}

/// A task eligible for `levi next`, with why it ranks where it does.
#[derive(Clone, Debug)]
pub struct RankedTask {
    pub task_id: String,
    pub priority: Priority,
    pub unblocks: usize,
    pub created: String,
    pub reason: String,
}

/// Rank order: priority (P0 first), then more unblocked work first, then
/// older first, then task id.
pub open spec fn rank_le(a: RankedTask, b: RankedTask) -> bool {
    ||| priority_rank(a.priority) < priority_rank(b.priority)
    ||| priority_rank(a.priority) == priority_rank(b.priority) && a.unblocks > b.unblocks
    ||| priority_rank(a.priority) == priority_rank(b.priority) && a.unblocks == b.unblocks
        && pair_le(a.created@, a.task_id@, b.created@, b.task_id@)
}

impl SortKey for RankedTask {
    open spec fn key_le_spec(&self, other: &Self) -> bool {
        rank_le(*self, *other)
    }

    proof fn lemma_key_le_total(a: &Self, b: &Self) {
        lemma_pair_le_total(a.created@, a.task_id@, b.created@, b.task_id@);
    }

    proof fn lemma_key_le_trans(a: &Self, b: &Self, c: &Self) {
        if priority_rank(a.priority) == priority_rank(b.priority) && priority_rank(b.priority) == priority_rank(c.priority)
            && a.unblocks == b.unblocks && b.unblocks == c.unblocks {
            lemma_pair_le_trans(a.created@, a.task_id@, b.created@, b.task_id@, c.created@, c.task_id@);
        }
    }

    fn key_le(&self, other: &Self) -> (r: bool) {
        let (pa, pb) = (self.priority.rank(), other.priority.rank());
        if pa != pb {
            pa < pb
        } else if self.unblocks != other.unblocks {
            self.unblocks > other.unblocks
        } else {
            pair_le_exec(self.created.as_str(), self.task_id.as_str(), other.created.as_str(), other.task_id.as_str())
        }
    }
}

/// The English ordinal suffix of `n`: 1st, 2nd, 3rd, 4th, 11th, 12th, 13th, 21st…
pub open spec fn ordinal_suffix(n: nat) -> Seq<char> {
    let (a, b) = (n % 10, n % 100);
    if (a == 1 && b == 11) || (a == 2 && b == 12) || (a == 3 && b == 13) {
        "th"@
    } else if a == 1 {
        "st"@
    } else if a == 2 {
        "nd"@
    } else if a == 3 {
        "rd"@
    } else {
        "th"@
    }
}

/// `n` as an English ordinal: "1st", "2nd", "11th", …
pub open spec fn ordinal_text(n: nat) -> Seq<char> {
    decimal(n) + ordinal_suffix(n)
}

/// `n` as an English ordinal: "1st", "2nd", "11th", …
pub fn ordinal(n: usize) -> (r: String)
    ensures
        r@ == ordinal_text(n as nat),
{
    let a = n % 10;
    let b = n % 100;
    let suffix = if (a == 1 && b == 11) || (a == 2 && b == 12) || (a == 3 && b == 13) {
        "th"
    } else if a == 1 {
        "st"
    } else if a == 2 {
        "nd"
    } else if a == 3 {
        "rd"
    } else {
        "th"
    };
    let d = decimal_string(n);
    concat(d.as_str(), suffix)
}

/// "; unblocks N open task(s)" when `unblocks > 0`, else nothing.
pub open spec fn unblocking_text(unblocks: nat) -> Seq<char> {
    if unblocks == 0 {
        Seq::empty()
    } else if unblocks == 1 {
        "; "@ + "unblocks "@ + decimal(unblocks) + " open task"@
    } else {
        "; "@ + "unblocks "@ + decimal(unblocks) + " open task"@ + "s"@
    }
}

/// "ranked 1st of N eligible", "ranked 2nd of N eligible", …; `pos` counts from 0.
pub open spec fn ranked_text(pos: nat, total: nat) -> Seq<char> {
    if pos == 0 {
        "ranked 1st of "@ + decimal(total) + " eligible"@
    } else {
        "ranked "@ + ordinal_text(pos + 1) + " of "@ + decimal(total) + " eligible"@
    }
}

/// Why a task ranks where it does: "P0; unblocks 2 open tasks; ranked 2nd of
/// 5 eligible". `pos` counts from 0.
pub open spec fn reason_text(p: Priority, unblocks: nat, pos: nat, total: nat) -> Seq<char> {
    priority_label(p) + unblocking_text(unblocks) + "; "@ + ranked_text(pos, total)
}

fn unblocking_string(unblocks: usize) -> (r: String)
    ensures
        r@ == unblocking_text(unblocks as nat),
{
    if unblocks == 0 {
        return String::new();
    }
    let a = concat("; ", "unblocks ");
    let n = decimal_string(unblocks);
    let b = concat(a.as_str(), n.as_str());
    let c = concat(b.as_str(), " open task");
    if unblocks == 1 {
        c
    } else {
        concat(c.as_str(), "s")
    }
}

fn ranked_string(pos: usize, total: usize) -> (r: String)
    requires
        pos < total,
    ensures
        r@ == ranked_text(pos as nat, total as nat),
{
    let t = decimal_string(total);
    if pos == 0 {
        let a = concat("ranked 1st of ", t.as_str());
        concat(a.as_str(), " eligible")
    } else {
        let o = ordinal(pos + 1);
        let a = concat("ranked ", o.as_str());
        let b = concat(a.as_str(), " of ");
        let c = concat(b.as_str(), t.as_str());
        concat(c.as_str(), " eligible")
    }
}

/// Build the reason text of `reason_text`.
fn reason_string(p: Priority, unblocks: usize, pos: usize, total: usize) -> (r: String)
    requires
        pos < total,
    ensures
        r@ == reason_text(p, unblocks as nat, pos as nat, total as nat),
{
    let u = unblocking_string(unblocks);
    let rk = ranked_string(pos, total);
    let a = concat(p.label(), u.as_str());
    let b = concat(a.as_str(), "; ");
    concat(b.as_str(), rk.as_str())
}

/// `c` describes eligible task `c.task_id` with its priority, unblock count
/// and creation time.
pub open spec fn describes(
    c: RankedTask,
    w: World,
    statuses: Map<Seq<char>, ResolvedStatus>,
    foreign: Map<Seq<char>, Status>,
    now: Instant,
    me: Identity,
) -> bool {
    let id = c.task_id@;
    &&& eligible(w, statuses, foreign, now, me, id)
    &&& c.priority == w.tasks.map()[id].priority
    &&& c.unblocks == unblock_count(w.deps.map(), w.tasks.map().dom(), statuses, id)
    &&& c.created@ == w.tasks.map()[id].created@
}

/// Is the task with id `id` (a task of `world`) eligible now?
fn is_eligible(
    id: &String,
    world: &World,
    statuses: &StrMap<ResolvedStatus>,
    foreign: &StrMap<Status>,
    now: Instant,
    me: &Identity,
) -> (r: bool)
    requires
        world.tasks.map().dom().contains(id@),
        world.claims.map().dom().contains(id@) ==> ttl_representable(world.claims.map()[id@]),
    ensures
        r == eligible(*world, statuses.map(), foreign.map(), now, *me, id@),
{
    reveal(eligible);
    let open = match statuses.get(id.as_str()) {
        Some(s) => s.status == Status::Open,
        None => false,
    };
    if !open || !blockers_closed(id.as_str(), &world.tasks, &world.deps, statuses)
        || foreign_blocked_exec(id.as_str(), &world.deps, foreign) {
        return false;
    }
    match world.live_claim(id.as_str(), now) {
        Some(claim) => claim_is(claim, me),
        None => true,
    }
}

/// The eligible tasks, in task-id order, each described.
#[verifier::rlimit(40)]
fn eligible_candidates(
    world: &World,
    statuses: &StrMap<ResolvedStatus>,
    foreign: &StrMap<Status>,
    now: Instant,
    me: &Identity,
) -> (r: Vec<RankedTask>)
    requires
        forall|k: Seq<char>|
            #[trigger] world.claims.map().dom().contains(k) && world.tasks.map().dom().contains(k)
                ==> ttl_representable(world.claims.map()[k]),
    ensures
        forall|j: int| 0 <= j < r@.len() ==> describes(#[trigger] r@[j], *world, statuses.map(), foreign.map(), now, *me),
        forall|a: int, b: int| 0 <= a < b < r@.len() ==> str_lt((#[trigger] r@[a]).task_id@, (#[trigger] r@[b]).task_id@),
        forall|id: Seq<char>| eligible(*world, statuses.map(), foreign.map(), now, *me, id)
            ==> exists|j: int| 0 <= j < r@.len() && (#[trigger] r@[j]).task_id@ == id,
{
    let ghost st = statuses.map();
    let ghost fm = foreign.map();
    let n = world.tasks.len();
    let mut cands: Vec<RankedTask> = Vec::new();
    let mut i: usize = 0;
    while i < n
        invariant
            i <= n,
            n == world.tasks.pairs().len(),
            strictly_sorted(world.tasks.pairs()),
            st == statuses.map(),
            fm == foreign.map(),
            forall|k: Seq<char>|
                #[trigger] world.claims.map().dom().contains(k) && world.tasks.map().dom().contains(k)
                    ==> ttl_representable(world.claims.map()[k]),
            forall|j: int| 0 <= j < cands@.len() ==> describes(#[trigger] cands@[j], *world, st, fm, now, *me),
            forall|j: int| 0 <= j < cands@.len() ==> exists|m: int| 0 <= m < i && (#[trigger] cands@[j]).task_id@ == world.tasks.pairs()[m].0,
            forall|a: int, b: int| 0 <= a < b < cands@.len() ==> str_lt((#[trigger] cands@[a]).task_id@, (#[trigger] cands@[b]).task_id@),
            forall|m: int| 0 <= m < i && eligible(*world, st, fm, now, *me, #[trigger] world.tasks.pairs()[m].0)
                ==> exists|j: int| 0 <= j < cands@.len() && cands@[j].task_id@ == world.tasks.pairs()[m].0,
        decreases n - i,
    {
        let id = world.tasks.key_at(i);
        let task = world.tasks.value_at(i);
        proof {
            lemma_pairs_map_at(world.tasks.pairs(), i as int);
        }
        let ghost before = cands@;
        if is_eligible(id, world, statuses, foreign, now, me) {
            let unblocks = transitive_unblocks(id.as_str(), world, statuses);
            cands.push(RankedTask {
                task_id: copy_string(id),
                priority: task.priority,
                unblocks,
                created: copy_string(&task.created),
                reason: String::new(),
            });
        }
        proof {
            assert forall|j: int| 0 <= j < cands@.len() implies exists|m: int| 0 <= m < i + 1 && (#[trigger] cands@[j]).task_id@ == world.tasks.pairs()[m].0 by {
                if j < before.len() {
                    assert(cands@[j] == before[j]);
                } else {
                    assert(cands@[j].task_id@ == world.tasks.pairs()[i as int].0);
                }
            }
            assert forall|a: int, b: int| 0 <= a < b < cands@.len() implies str_lt((#[trigger] cands@[a]).task_id@, (#[trigger] cands@[b]).task_id@) by {
                assert(cands@[a] == before[a]);
                if b < before.len() {
                    assert(cands@[b] == before[b]);
                } else {
                    let m = choose|m: int| 0 <= m < i && before[a].task_id@ == world.tasks.pairs()[m].0;
                    assert(str_lt(world.tasks.pairs()[m].0, world.tasks.pairs()[i as int].0));
                }
            }
            assert forall|m: int| 0 <= m < i + 1 && eligible(*world, st, fm, now, *me, #[trigger] world.tasks.pairs()[m].0)
                implies exists|j: int| 0 <= j < cands@.len() && cands@[j].task_id@ == world.tasks.pairs()[m].0 by {
                if m < i {
                    let j = choose|j: int| 0 <= j < before.len() && before[j].task_id@ == world.tasks.pairs()[m].0;
                    assert(cands@[j] == before[j]);
                } else {
                    assert(cands@[cands@.len() - 1].task_id@ == world.tasks.pairs()[m].0);
                }
            }
        }
        i = i + 1;
    }
    proof {
        lemma_pairs_map_all(world.tasks.pairs());
        assert forall|id: Seq<char>| eligible(*world, st, fm, now, *me, id)
            implies exists|j: int| 0 <= j < cands@.len() && (#[trigger] cands@[j]).task_id@ == id by {
            reveal(eligible);
            let m = choose|m: int| 0 <= m < n && world.tasks.pairs()[m].0 == id;
            assert(eligible(*world, st, fm, now, *me, world.tasks.pairs()[m].0));
        }
    }
    cands
}

/// The sorted candidates with their reasons filled in.
fn with_reasons(sorted: &Vec<RankedTask>) -> (r: Vec<RankedTask>)
    ensures
        r@.len() == sorted@.len(),
        forall|j: int| 0 <= j < r@.len() ==> (#[trigger] r@[j]).task_id@ == sorted@[j].task_id@ && r@[j].priority == sorted@[j].priority
            && r@[j].unblocks == sorted@[j].unblocks && r@[j].created@ == sorted@[j].created@
            && r@[j].reason@ == reason_text(sorted@[j].priority, sorted@[j].unblocks as nat, j as nat, sorted@.len()),
{
    let total = sorted.len();
    let mut out: Vec<RankedTask> = Vec::new();
    let mut k: usize = 0;
    while k < total
        invariant
            k <= total,
            total == sorted@.len(),
            out@.len() == k,
            forall|j: int| 0 <= j < k ==> (#[trigger] out@[j]).task_id@ == sorted@[j].task_id@ && out@[j].priority == sorted@[j].priority
                && out@[j].unblocks == sorted@[j].unblocks && out@[j].created@ == sorted@[j].created@
                && out@[j].reason@ == reason_text(sorted@[j].priority, sorted@[j].unblocks as nat, j as nat, total as nat),
        decreases total - k,
    {
        let c = &sorted[k];
        let reason = reason_string(c.priority, c.unblocks, k, total);
        out.push(RankedTask {
            task_id: copy_string(&c.task_id),
            priority: c.priority,
            unblocks: c.unblocks,
            created: copy_string(&c.created),
            reason,
        });
        k = k + 1;
    }
    out
}

/// Rank all eligible tasks, best first. `foreign` maps
/// "{project_id}/{task_id}" to the resolved status of cross-project
/// blockers (missing key = unknown = still blocking: never silently
/// unblocked).
pub fn rank_next(
    world: &World,
    statuses: &StrMap<ResolvedStatus>,
    foreign: &StrMap<Status>,
    now: Instant,
    me: &Identity,
) -> (r: Vec<RankedTask>)
    requires
        forall|k: Seq<char>|
            #[trigger] world.claims.map().dom().contains(k) && world.tasks.map().dom().contains(k)
                ==> ttl_representable(world.claims.map()[k]),
    ensures
        forall|i: int| 0 <= i < r@.len() ==> describes(#[trigger] r@[i], *world, statuses.map(), foreign.map(), now, *me),
        forall|id: Seq<char>| eligible(*world, statuses.map(), foreign.map(), now, *me, id)
            ==> exists|i: int| 0 <= i < r@.len() && (#[trigger] r@[i]).task_id@ == id,
        forall|i: int, j: int| 0 <= i < r@.len() && 0 <= j < r@.len() && i != j ==> (#[trigger] r@[i]).task_id@ != (#[trigger] r@[j]).task_id@,
        sorted_by_key(r@),
        forall|i: int| 0 <= i < r@.len() ==> (#[trigger] r@[i]).reason@ == reason_text(r@[i].priority, r@[i].unblocks as nat, i as nat, r@.len()),
{
    let ghost st = statuses.map();
    let ghost fm = foreign.map();
    let cands = eligible_candidates(world, statuses, foreign, now, me);
    let ghost cs = cands@;
    proof {
        assert forall|a: int, b: int| 0 <= a < cs.len() && 0 <= b < cs.len() && a != b implies cs[a] != cs[b] by {
            if a < b {
                assert(str_lt(cs[a].task_id@, cs[b].task_id@));
            } else {
                assert(str_lt(cs[b].task_id@, cs[a].task_id@));
            }
        }
        assert(cs.no_duplicates());
    }
    let sorted = sort_by_key(cands);
    proof {
        broadcast use vstd::seq_lib::group_to_multiset_ensures;
        cs.lemma_multiset_has_no_duplicates();
        sorted@.lemma_multiset_has_no_duplicates_conv();
        assert forall|j: int| 0 <= j < sorted@.len() implies cs.contains(#[trigger] sorted@[j]) by {
            assert(sorted@.contains(sorted@[j]));
            assert(sorted@.to_multiset().count(sorted@[j]) > 0);
        }
        assert forall|j: int| 0 <= j < cs.len() implies sorted@.contains(#[trigger] cs[j]) by {
            assert(cs.contains(cs[j]));
            assert(cs.to_multiset().count(cs[j]) > 0);
        }
    }
    let out = with_reasons(&sorted);
    proof {
        assert forall|j: int| 0 <= j < out@.len() implies describes(#[trigger] out@[j], *world, st, fm, now, *me) by {
            assert(cs.contains(sorted@[j]));
            let c = choose|c: int| 0 <= c < cs.len() && cs[c] == sorted@[j];
            assert(describes(cs[c], *world, st, fm, now, *me));
        }
        assert forall|id: Seq<char>| eligible(*world, st, fm, now, *me, id)
            implies exists|j: int| 0 <= j < out@.len() && (#[trigger] out@[j]).task_id@ == id by {
            let c = choose|c: int| 0 <= c < cs.len() && (#[trigger] cs[c]).task_id@ == id;
            assert(sorted@.contains(cs[c]));
            let j = choose|j: int| 0 <= j < sorted@.len() && sorted@[j] == cs[c];
            assert(out@[j].task_id@ == id);
        }
        assert forall|a: int, b: int| 0 <= a < out@.len() && 0 <= b < out@.len() && a != b
            implies (#[trigger] out@[a]).task_id@ != (#[trigger] out@[b]).task_id@ by {
            assert(cs.contains(sorted@[a]));
            assert(cs.contains(sorted@[b]));
            let ca = choose|c: int| 0 <= c < cs.len() && cs[c] == sorted@[a];
            let cb = choose|c: int| 0 <= c < cs.len() && cs[c] == sorted@[b];
            assert(sorted@[a] != sorted@[b]);
            if ca < cb {
                assert(str_lt(cs[ca].task_id@, cs[cb].task_id@));
            } else if cb < ca {
                assert(str_lt(cs[cb].task_id@, cs[ca].task_id@));
            }
        }
        assert forall|a: int, b: int| 0 <= a < b < out@.len() implies #[trigger] out@[a].key_le_spec(&out@[b]) by {
            assert(sorted@[a].key_le_spec(&sorted@[b]));
        }
    }
    out
}

/// A cross-project blocker whose status is unknown keeps its task out of
/// `levi next`: never silently unblocked.
pub proof fn law_unknown_foreign_blocker_blocks(
    w: World,
    statuses: Map<Seq<char>, ResolvedStatus>,
    foreign: Map<Seq<char>, Status>,
    now: Instant,
    me: Identity,
    k: Seq<char>,
)
    requires
        w.deps.map().dom().contains(k),
        w.deps.map()[k].blocker_project_id is Some,
        !foreign.dom().contains(w.deps.map()[k].blocker_project_id.unwrap()@ + "/"@ + w.deps.map()[k].blocker_task_id@),
    ensures
        !eligible(w, statuses, foreign, now, me, w.deps.map()[k].blocked_task_id@),
{
    reveal(eligible);
    assert(foreign_unmet(w.deps.map()[k], foreign, w.deps.map()[k].blocked_task_id@));
}

/// A task blocked by an open task of its project is not eligible until that
/// blocker closes.
pub proof fn law_open_blocker_blocks(
    w: World,
    statuses: Map<Seq<char>, ResolvedStatus>,
    foreign: Map<Seq<char>, Status>,
    now: Instant,
    me: Identity,
    a: Seq<char>,
    b: Seq<char>,
)
    requires
        blocks(w.deps.map(), w.tasks.map().dom(), a, b),
        is_open(statuses, a),
    ensures
        !eligible(w, statuses, foreign, now, me, b),
{
    reveal(eligible);
}

/// A task someone else holds a live claim on is not handed out.
pub proof fn law_claimed_elsewhere_not_eligible(
    w: World,
    statuses: Map<Seq<char>, ResolvedStatus>,
    foreign: Map<Seq<char>, Status>,
    now: Instant,
    me: Identity,
    id: Seq<char>,
)
    requires
        claimed_by_other(w.claims.map(), id, now, me),
    ensures
        !eligible(w, statuses, foreign, now, me, id),
{
    reveal(eligible);
}

/// Claim identity: a claim taken by another developer or in another
/// worktree is never the caller's, nor one taken on another machine when
/// both sides carry a machine id. With the same developer and worktree, the
/// machine id decides when both sides have one, the display name otherwise.
pub proof fn law_claim_identity(c: Claim, me: Identity)
    ensures
        c.dev@ != me.dev@ ==> !claim_is_spec(c, me),
        c.worktree@ != me.worktree@ ==> !claim_is_spec(c, me),
        c.machine_id@.len() > 0 && me.machine_id@.len() > 0 && c.machine_id@ != me.machine_id@ ==> !claim_is_spec(c, me),
        c.dev@ == me.dev@ && c.worktree@ == me.worktree@ && c.machine_id@.len() > 0 && c.machine_id@ == me.machine_id@
            ==> claim_is_spec(c, me),
        c.dev@ == me.dev@ && c.worktree@ == me.worktree@ && (c.machine_id@.len() == 0 || me.machine_id@.len() == 0)
            ==> (claim_is_spec(c, me) <==> c.machine@ == me.machine@),
{
}

/// A live claim taken in another worktree (or by another developer) keeps
/// the task out of `levi next`, even on the same machine.
pub proof fn law_other_worktree_claim_not_eligible(
    w: World,
    statuses: Map<Seq<char>, ResolvedStatus>,
    foreign: Map<Seq<char>, Status>,
    now: Instant,
    me: Identity,
    id: Seq<char>,
)
    requires
        w.claims.map().dom().contains(id),
        claim_live_at(w.claims.map()[id], now),
        w.claims.map()[id].worktree@ != me.worktree@ || w.claims.map()[id].dev@ != me.dev@,
    ensures
        !eligible(w, statuses, foreign, now, me, id),
{
    law_claim_identity(w.claims.map()[id], me);
    reveal(eligible);
}

/// Only an open, known task can be picked up; and one is, when every
/// same-project blocker is closed, every cross-project blocker is known
/// closed, and no live claim on it is held by someone else.
pub proof fn law_eligibility(
    w: World,
    statuses: Map<Seq<char>, ResolvedStatus>,
    foreign: Map<Seq<char>, Status>,
    now: Instant,
    me: Identity,
    id: Seq<char>,
)
    ensures
        !w.tasks.map().dom().contains(id) ==> !eligible(w, statuses, foreign, now, me, id),
        !(statuses.dom().contains(id) && statuses[id].status == Status::Open) ==> !eligible(w, statuses, foreign, now, me, id),
        ({
            &&& w.tasks.map().dom().contains(id)
            &&& statuses.dom().contains(id) && statuses[id].status == Status::Open
            &&& forall|k: Seq<char>| #[trigger] w.deps.map().dom().contains(k) && w.deps.map()[k].blocked_task_id@ == id
                && w.deps.map()[k].blocker_project_id is None ==> statuses.dom().contains(w.deps.map()[k].blocker_task_id@)
                && statuses[w.deps.map()[k].blocker_task_id@].status == Status::Closed
            &&& forall|k: Seq<char>| #[trigger] w.deps.map().dom().contains(k) && w.deps.map()[k].blocked_task_id@ == id
                && w.deps.map()[k].blocker_project_id is Some ==> ({
                    let key = w.deps.map()[k].blocker_project_id.unwrap()@ + "/"@ + w.deps.map()[k].blocker_task_id@;
                    foreign.dom().contains(key) && foreign[key] == Status::Closed
                })
            &&& w.claims.map().dom().contains(id) && claim_live_at(w.claims.map()[id], now) ==> ({
                    let c = w.claims.map()[id];
                    c.dev@ == me.dev@ && c.worktree@ == me.worktree@ && c.machine_id@.len() > 0 && c.machine_id@ == me.machine_id@
                })
        }) ==> eligible(w, statuses, foreign, now, me, id),
{
    reveal(eligible);
    if w.claims.map().dom().contains(id) {
        law_claim_identity(w.claims.map()[id], me);
    }
}

/// The order of `levi next`: a lower priority number first; then the task
/// that unblocks more; then the older task (by its `created` timestamp);
/// then the smaller task id. Each rule is strict: the later task never ranks
/// at or before the earlier one.
pub proof fn law_rank_order(a: RankedTask, b: RankedTask)
    ensures
        priority_rank(a.priority) < priority_rank(b.priority) ==> rank_le(a, b) && !rank_le(b, a),
        a.priority == b.priority && a.unblocks > b.unblocks ==> rank_le(a, b) && !rank_le(b, a),
        a.priority == b.priority && a.unblocks == b.unblocks && str_lt(a.created@, b.created@)
            ==> rank_le(a, b) && !rank_le(b, a),
        a.priority == b.priority && a.unblocks == b.unblocks && a.created@ == b.created@ && str_lt(a.task_id@, b.task_id@)
            ==> rank_le(a, b) && !rank_le(b, a),
{
    if str_le(b.created@, a.created@) && str_le(a.created@, b.created@) {
        lemma_str_le_antisym(a.created@, b.created@);
    }
    if str_le(b.task_id@, a.task_id@) && str_le(a.task_id@, b.task_id@) {
        lemma_str_le_antisym(a.task_id@, b.task_id@);
    }
}

/// In a ranked list (as `rank_next` returns it), a task that wins on
/// priority, then unblock count, then age, then id stands before the other.
pub proof fn law_ranked_list_order(r: Seq<RankedTask>, i: int, j: int)
    requires
        sorted_by_key(r),
        0 <= i < r.len(),
        0 <= j < r.len(),
        priority_rank(r[i].priority) < priority_rank(r[j].priority)
            || (r[i].priority == r[j].priority && r[i].unblocks > r[j].unblocks)
            || (r[i].priority == r[j].priority && r[i].unblocks == r[j].unblocks && str_lt(r[i].created@, r[j].created@))
            || (r[i].priority == r[j].priority && r[i].unblocks == r[j].unblocks && r[i].created@ == r[j].created@
                && str_lt(r[i].task_id@, r[j].task_id@)),
    ensures
        i < j,
{
    law_rank_order(r[i], r[j]);
    if j < i {
        assert(r[j].key_le_spec(&r[i]));
    }
}

} // verus!
