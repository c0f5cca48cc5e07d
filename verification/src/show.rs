//! What `levi show` reports about one task beyond its own fields: how each of
//! its status changes bears on this checkout, the tasks that block it and
//! that it blocks, and its comments.

use vstd::prelude::*;

use crate::entities::{Comment, Dependency, StatusChange, Task};
use crate::materialize::World;
use crate::resolve::{answers_of, AncestorSet, Ancestry};
use crate::text::str_eq;

verus! {

/// Whether a change applies on this checkout, as `levi show` words it: an
/// unanchored change applies everywhere; an anchored one applies when its
/// anchor (or a rewritten, patch-equivalent commit) is in this checkout's
/// ancestry, does not when it is outside it, and is "unknown" when ancestry
/// cannot be judged.
pub open spec fn applies_text(anchor: Option<String>, answer: spec_fn(Seq<char>) -> Ancestry) -> Seq<char> {
    match anchor {
        None => "yes"@,
        Some(sha) => match answer(sha@) {
            Ancestry::Yes => "yes"@,
            Ancestry::Rewritten => "yes"@,
            Ancestry::No => "no"@,
            Ancestry::Unknown => "unknown"@,
        },
    }
}

/// Does this change apply on the checkout `anc` answers for?
pub fn applies_here<A: AncestorSet>(change: &StatusChange, anc: &mut A) -> (r: &'static str)
    ensures
        r@ == applies_text(change.anchor_commit, answers_of(&*old(anc))),
        forall|s: Seq<char>| #[trigger] final(anc).answer(s) == old(anc).answer(s),
{
    match &change.anchor_commit {
        None => "yes",
        Some(sha) => match anc.contains(sha.as_str()) {
            Ancestry::Yes => "yes",
            Ancestry::Rewritten => "yes",
            Ancestry::No => "no",
            Ancestry::Unknown => "unknown",
        },
    }
}

/// One entry of a task's "blocked by" list: the position of the dependency
/// in the log's dependencies, and whether its blocker is in another project.
#[derive(Clone, Copy, Debug, PartialEq, Eq, Structural)]
pub struct BlockerAt {
    pub index: usize,
    pub foreign: bool,
}

/// The dependency's blocker lives in another project.
pub open spec fn is_foreign(d: Dependency) -> bool {
    d.blocker_project_id is Some
}

/// The "blocked by" entries among the first `ps.len()` dependencies: each
/// cross-project dependency on `task`, and each local one whose blocker is a
/// task of this log.
pub open spec fn blocked_by_spec(ps: Seq<(Seq<char>, Dependency)>, tasks: Map<Seq<char>, Task>, task: Seq<char>) -> Seq<BlockerAt>
    decreases ps.len(),
{
    if ps.len() == 0 {
        Seq::empty()
    } else {
        let prev = blocked_by_spec(ps.drop_last(), tasks, task);
        let d = ps.last().1;
        let i = (ps.len() - 1) as usize;
        if d.blocked_task_id@ == task && is_foreign(d) {
            prev.push(BlockerAt { index: i, foreign: true })
        } else if d.blocked_task_id@ == task && tasks.dom().contains(d.blocker_task_id@) {
            prev.push(BlockerAt { index: i, foreign: false })
        } else {
            prev
        }
    }
}

/// The positions, among the first `ps.len()` dependencies, of those by which
/// `task` blocks another task of this log.
pub open spec fn blocks_spec(ps: Seq<(Seq<char>, Dependency)>, tasks: Map<Seq<char>, Task>, task: Seq<char>) -> Seq<usize>
    decreases ps.len(),
{
    if ps.len() == 0 {
        Seq::empty()
    } else {
        let prev = blocks_spec(ps.drop_last(), tasks, task);
        let d = ps.last().1;
        let i = (ps.len() - 1) as usize;
        if !(d.blocked_task_id@ == task && is_foreign(d)) && d.blocker_task_id@ == task
            && tasks.dom().contains(d.blocked_task_id@) {
            prev.push(i)
        } else {
            prev
        }
    }
}

/// The positions of `task`'s comments among the first `cs.len()` comments.
pub open spec fn comments_spec(cs: Seq<Comment>, task: Seq<char>) -> Seq<usize>
    decreases cs.len(),
{
    if cs.len() == 0 {
        Seq::empty()
    } else {
        let prev = comments_spec(cs.drop_last(), task);
        if cs.last().task_id@ == task {
            prev.push((cs.len() - 1) as usize)
        } else {
            prev
        }
    }
}

/// A task's neighbourhood, as positions into the log's dependencies and
/// comments, in log order.
#[derive(Clone, Debug)]
pub struct ShowLinks {
    pub blocked_by: Vec<BlockerAt>,
    pub blocks: Vec<usize>,
    pub comments: Vec<usize>,
}

/// The tasks blocking `task_id` (cross-project blockers, and local blockers
/// the log knows), the tasks it blocks, and its comments.
pub fn show_links(world: &World, task_id: &str) -> (r: ShowLinks)
    ensures
        r.blocked_by@ == blocked_by_spec(world.deps.pairs(), world.tasks.map(), task_id@),
        r.blocks@ == blocks_spec(world.deps.pairs(), world.tasks.map(), task_id@),
        r.comments@ == comments_spec(world.comments@, task_id@),
{
    let ghost ps = world.deps.pairs();
    let n = world.deps.len();
    let mut blocked_by: Vec<BlockerAt> = Vec::new();
    let mut blocks: Vec<usize> = Vec::new();
    let mut i: usize = 0;
    while i < n
        invariant
            n == ps.len(),
            ps == world.deps.pairs(),
            i <= n,
            blocked_by@ == blocked_by_spec(ps.subrange(0, i as int), world.tasks.map(), task_id@),
            blocks@ == blocks_spec(ps.subrange(0, i as int), world.tasks.map(), task_id@),
        decreases n - i,
    {
        proof {
            assert(ps.subrange(0, i + 1).drop_last() =~= ps.subrange(0, i as int));
        }
        let d = world.deps.value_at(i);
        let blocked_here = str_eq(d.blocked_task_id.as_str(), task_id);
        let foreign = d.blocker_project_id.is_some();
        if blocked_here && foreign {
            blocked_by.push(BlockerAt { index: i, foreign: true });
        } else {
            if blocked_here && world.tasks.contains_key(d.blocker_task_id.as_str()) {
                blocked_by.push(BlockerAt { index: i, foreign: false });
            }
            if str_eq(d.blocker_task_id.as_str(), task_id) && world.tasks.contains_key(d.blocked_task_id.as_str()) {
                blocks.push(i);
            }
        }
        i = i + 1;
    }
    proof {
        assert(ps.subrange(0, n as int) =~= ps);
    }
    let mut comments: Vec<usize> = Vec::new();
    let mut k: usize = 0;
    while k < world.comments.len()
        invariant
            k <= world.comments@.len(),
            comments@ == comments_spec(world.comments@.subrange(0, k as int), task_id@),
        decreases world.comments@.len() - k,
    {
        proof {
            assert(world.comments@.subrange(0, k + 1).drop_last() =~= world.comments@.subrange(0, k as int));
        }
        if str_eq(world.comments[k].task_id.as_str(), task_id) {
            comments.push(k);
        }
        k = k + 1;
    }
    proof {
        assert(world.comments@.subrange(0, world.comments@.len() as int) =~= world.comments@);
    }
    ShowLinks { blocked_by, blocks, comments }
}

} // verus!
