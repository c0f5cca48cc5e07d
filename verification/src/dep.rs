//! Dependency bookkeeping for `levi dep`: whether a new blocks edge would
//! close a cycle.

use vstd::prelude::*;

use crate::entities::Dependency;
use crate::resolve::listed;
use crate::strmap::{lemma_pairs_map_all, lemma_pairs_map_at, lemma_pairs_map_finite, strictly_sorted, StrMap};
use crate::text::{copy_string, str_eq};

verus! {

/// Some dependency says `a` blocks `b`.
pub open spec fn dep_edge(deps: Map<Seq<char>, Dependency>, a: Seq<char>, b: Seq<char>) -> bool {
    exists|k: Seq<char>| #[trigger] deps.dom().contains(k) && deps[k].blocker_task_id@ == a && deps[k].blocked_task_id@ == b
}

/// `p` follows blocks edges.
pub open spec fn is_dep_walk(deps: Map<Seq<char>, Dependency>, p: Seq<Seq<char>>) -> bool {
    p.len() > 0 && forall|i: int| 0 <= i < p.len() - 1 ==> #[trigger] dep_edge(deps, p[i], p[i + 1])
}

/// A chain of zero or more blocks edges leads from `a` to `b`.
pub open spec fn dep_reaches(deps: Map<Seq<char>, Dependency>, a: Seq<char>, b: Seq<char>) -> bool {
    exists|p: Seq<Seq<char>>| #[trigger] is_dep_walk(deps, p) && p[0] == a && p.last() == b
}

proof fn lemma_dep_walk_edge(deps: Map<Seq<char>, Dependency>, p: Seq<Seq<char>>, i: int)
    requires
        is_dep_walk(deps, p),
        0 <= i < p.len() - 1,
    ensures
        dep_edge(deps, p[i], p[i + 1]),
{
}

proof fn lemma_dep_reaches_self(deps: Map<Seq<char>, Dependency>, a: Seq<char>)
    ensures
        dep_reaches(deps, a, a),
{
    assert(is_dep_walk(deps, seq![a]));
}

proof fn lemma_dep_reaches_step(deps: Map<Seq<char>, Dependency>, a: Seq<char>, x: Seq<char>, y: Seq<char>)
    requires
        dep_reaches(deps, a, x),
        dep_edge(deps, x, y),
    ensures
        dep_reaches(deps, a, y),
{
    let p = choose|p: Seq<Seq<char>>| #[trigger] is_dep_walk(deps, p) && p[0] == a && p.last() == x;
    let q = p.push(y);
    assert forall|i: int| 0 <= i < q.len() - 1 implies #[trigger] dep_edge(deps, q[i], q[i + 1]) by {
        if i < p.len() - 1 {
            lemma_dep_walk_edge(deps, p, i);
        }
    }
    assert(is_dep_walk(deps, q));
}

proof fn lemma_dep_walk_stays(deps: Map<Seq<char>, Dependency>, set: Set<Seq<char>>, p: Seq<Seq<char>>, i: int)
    requires
        is_dep_walk(deps, p),
        0 <= i < p.len(),
        set.contains(p[0]),
        forall|a: Seq<char>, b: Seq<char>| set.contains(a) && #[trigger] dep_edge(deps, a, b) ==> set.contains(b),
    ensures
        set.contains(p[i]),
    decreases i,
{
    if i > 0 {
        lemma_dep_walk_stays(deps, set, p, i - 1);
        lemma_dep_walk_edge(deps, p, i - 1);
    }
}

/// The tasks `x` blocks directly, per `deps`.
fn blocked_by(x: &str, deps: &StrMap<Dependency>) -> (r: Vec<String>)
    ensures
        forall|b: Seq<char>| dep_edge(deps.map(), x@, b) <==> #[trigger] listed(r@, b),
{
    let n = deps.len();
    let mut out: Vec<String> = Vec::new();
    let mut i: usize = 0;
    while i < n
        invariant
            i <= n,
            n == deps.pairs().len(),
            forall|b: Seq<char>| #[trigger] listed(out@, b) <==> exists|j: int| 0 <= j < i && deps.pairs()[j].1.blocker_task_id@ == x@
                && deps.pairs()[j].1.blocked_task_id@ == b,
        decreases n - i,
    {
        let d = deps.value_at(i);
        let ghost before = out@;
        if str_eq(d.blocker_task_id.as_str(), x) {
            out.push(copy_string(&d.blocked_task_id));
        }
        proof {
            assert forall|b: Seq<char>| #[trigger] listed(out@, b) <==> exists|j: int| 0 <= j < i + 1 && deps.pairs()[j].1.blocker_task_id@ == x@
                && deps.pairs()[j].1.blocked_task_id@ == b by {
                if listed(out@, b) {
                    let k = choose|k: int| 0 <= k < out@.len() && out@[k]@ == b;
                    if k < before.len() {
                        assert(listed(before, b));
                    }
                }
                if deps.pairs()[i as int].1.blocker_task_id@ == x@ && deps.pairs()[i as int].1.blocked_task_id@ == b {
                    assert(out@[out@.len() - 1]@ == b);
                }
                if listed(before, b) {
                    let k = choose|k: int| 0 <= k < before.len() && before[k]@ == b;
                    assert(out@[k] == before[k]);
                }
            }
        }
        i = i + 1;
    }
    proof {
        lemma_pairs_map_all(deps.pairs());
        assert forall|b: Seq<char>| dep_edge(deps.map(), x@, b) <==> #[trigger] listed(out@, b) by {
            if dep_edge(deps.map(), x@, b) {
                let k = choose|k: Seq<char>| #[trigger] deps.map().dom().contains(k) && deps.map()[k].blocker_task_id@ == x@
                    && deps.map()[k].blocked_task_id@ == b;
                let j = choose|j: int| 0 <= j < deps.pairs().len() && deps.pairs()[j].0 == k;
                assert(deps.map()[deps.pairs()[j].0] == deps.pairs()[j].1);
            }
            if listed(out@, b) {
                let j = choose|j: int| 0 <= j < n && deps.pairs()[j].1.blocker_task_id@ == x@ && deps.pairs()[j].1.blocked_task_id@ == b;
                assert(deps.map().dom().contains(deps.pairs()[j].0));
            }
        }
    }
    out
}

/// Would blocker -> blocked close a cycle? True iff `blocker` is reachable
/// from `blocked` along existing blocks edges (or is `blocked` itself).
pub fn would_cycle(deps: &StrMap<Dependency>, blocker: &str, blocked: &str) -> (r: bool)
    ensures
        r == dep_reaches(deps.map(), blocked@, blocker@),
{
    let ghost dm = deps.map();
    let ghost univ = deps.pairs().map_values(|e: (Seq<char>, Dependency)| e.1.blocked_task_id@).to_set().insert(blocked@);
    let _ = deps.len();
    let mut seen: StrMap<()> = StrMap::new();
    let mut stack: Vec<String> = Vec::new();
    stack.push(blocked.to_owned());
    proof {
        lemma_dep_reaches_self(dm, blocked@);
        assert(stack@[0]@ == blocked@);
        assert(univ.finite()) by {
            vstd::seq_lib::seq_to_set_is_finite(deps.pairs().map_values(|e: (Seq<char>, Dependency)| e.1.blocked_task_id@));
        }
    }
    while stack.len() > 0
        invariant
            dm == deps.map(),
            strictly_sorted(deps.pairs()),
            univ == deps.pairs().map_values(|e: (Seq<char>, Dependency)| e.1.blocked_task_id@).to_set().insert(blocked@),
            univ.finite(),
            forall|x: Seq<char>| #[trigger] seen.map().dom().contains(x) ==> x != blocker@ && dep_reaches(dm, blocked@, x) && univ.contains(x),
            forall|i: int| 0 <= i < stack@.len() ==> dep_reaches(dm, blocked@, #[trigger] stack@[i]@) && univ.contains(stack@[i]@),
            forall|a: Seq<char>, b: Seq<char>| seen.map().dom().contains(a) && #[trigger] dep_edge(dm, a, b) ==> seen.map().dom().contains(b) || listed(stack@, b),
            seen.map().dom().contains(blocked@) || listed(stack@, blocked@),
        decreases univ.difference(seen.map().dom()).len(), stack@.len(),
    {
        let ghost before = stack@;
        let next = stack.pop().unwrap();
        proof {
            assert(before =~= stack@.push(next));
            assert(dep_reaches(dm, blocked@, next@) && univ.contains(next@)) by {
                assert(before[before.len() - 1] == next);
            }
            assert forall|b: Seq<char>| listed(before, b) && b != next@ implies listed(stack@, b) by {
                let i = choose|i: int| 0 <= i < before.len() && before[i]@ == b;
                assert(stack@[i]@ == b);
            }
        }
        if str_eq(next.as_str(), blocker) {
            return true;
        }
        if !seen.contains_key(next.as_str()) {
            let ghost d0 = seen.map().dom();
            proof {
                univ.lemma_set_insert_diff_decreases(d0, next@);
            }
            seen.insert(copy_string(&next), ());
            assert(seen.map().dom() =~= d0.insert(next@));
            let more = blocked_by(next.as_str(), deps);
            let ghost s0 = stack@;
            let mut j: usize = 0;
            while j < more.len()
                invariant
                    j <= more@.len(),
                    stack@.len() == s0.len() + j,
                    forall|i: int| 0 <= i < s0.len() ==> #[trigger] stack@[i] == s0[i],
                    forall|i: int| s0.len() <= i < stack@.len() ==> #[trigger] stack@[i] == more@[i - s0.len()],
                decreases more@.len() - j,
            {
                stack.push(copy_string(&more[j]));
                j = j + 1;
            }
            proof {
                assert forall|i: int| 0 <= i < stack@.len() implies dep_reaches(dm, blocked@, #[trigger] stack@[i]@) && univ.contains(stack@[i]@) by {
                    if i >= s0.len() {
                        let b = stack@[i]@;
                        assert(b == more@[i - s0.len()]@);
                        assert(listed(more@, b));
                        lemma_dep_reaches_step(dm, blocked@, next@, b);
                        lemma_pairs_map_all(deps.pairs());
                        let k = choose|k: Seq<char>| #[trigger] dm.dom().contains(k) && dm[k].blocker_task_id@ == next@ && dm[k].blocked_task_id@ == b;
                        let jj = choose|jj: int| 0 <= jj < deps.pairs().len() && deps.pairs()[jj].0 == k;
                        assert(dm[deps.pairs()[jj].0] == deps.pairs()[jj].1);
                        assert(deps.pairs().map_values(|e: (Seq<char>, Dependency)| e.1.blocked_task_id@)[jj] == b);
                    } else {
                        assert(stack@[i] == s0[i]);
                    }
                }
                assert forall|b: Seq<char>| listed(s0, b) implies listed(stack@, b) by {
                    let i = choose|i: int| 0 <= i < s0.len() && s0[i]@ == b;
                    assert(stack@[i] == s0[i]);
                }
                assert forall|b: Seq<char>| listed(more@, b) implies listed(stack@, b) by {
                    let i = choose|i: int| 0 <= i < more@.len() && more@[i]@ == b;
                    assert(stack@[s0.len() + i] == more@[i]);
                }
            }
        }
    }
    proof {
        if dep_reaches(dm, blocked@, blocker@) {
            let p = choose|p: Seq<Seq<char>>| #[trigger] is_dep_walk(dm, p) && p[0] == blocked@ && p.last() == blocker@;
            lemma_dep_walk_stays(dm, seen.map().dom(), p, p.len() - 1);
        }
    }
    false
}

} // verus!
