//! What a command context computes from its materialized world.

use vstd::prelude::*;

use crate::crossproject::change_of_task;
use crate::materialize::World;
use crate::resolve::{answers_of, effective_status, fold_status, AncestorSet, Resolution, ResolvedStatus};
use crate::strmap::{lemma_pairs_map_all, lemma_pairs_map_at, strictly_sorted, StrMap};
use crate::text::copy_string;

verus! {

/// Resolve every task's status against the given ancestor set.
pub fn statuses<A: AncestorSet>(world: &World, anc: &mut A, base: Resolution) -> (r: StrMap<ResolvedStatus>)
    ensures
        r.map().dom() == world.tasks.map().dom(),
        forall|k: Seq<char>| #[trigger] r.map().dom().contains(k) ==> r.map()[k] == fold_status(
            world.status_changes@.filter(change_of_task(k)),
            answers_of(&*old(anc)),
            base,
        ),
        forall|s: Seq<char>| #[trigger] final(anc).answer(s) == old(anc).answer(s),
{
    let ghost ans = answers_of(&*anc);
    let n = world.tasks.len();
    let mut out: StrMap<ResolvedStatus> = StrMap::new();
    let mut i: usize = 0;
    while i < n
        invariant
            i <= n,
            n == world.tasks.pairs().len(),
            strictly_sorted(world.tasks.pairs()),
            ans == answers_of(&*old(anc)),
            forall|s: Seq<char>| #[trigger] anc.answer(s) == old(anc).answer(s),
            forall|k: Seq<char>| #[trigger] out.map().dom().contains(k) <==> exists|j: int| 0 <= j < i && world.tasks.pairs()[j].0 == k,
            forall|k: Seq<char>| #[trigger] out.map().dom().contains(k)
                ==> out.map()[k] == fold_status(world.status_changes@.filter(change_of_task(k)), ans, base),
        decreases n - i,
    {
        let id = world.tasks.key_at(i);
        let changes = world.changes_for(id.as_str());
        proof {
            assert(answers_of(&*anc) =~= ans);
        }
        let rs = effective_status(changes.as_slice(), anc, base);
        out.insert(copy_string(id), rs);
        proof {
            assert forall|k: Seq<char>| #[trigger] out.map().dom().contains(k) <==> exists|j: int| 0 <= j < i + 1 && world.tasks.pairs()[j].0 == k by {
                if k == id@ {
                    assert(world.tasks.pairs()[i as int].0 == k);
                }
            }
        }
        i = i + 1;
    }
    proof {
        lemma_pairs_map_all(world.tasks.pairs());
        assert forall|k: Seq<char>| out.map().dom().contains(k) <==> world.tasks.map().dom().contains(k) by {
            if out.map().dom().contains(k) {
                let j = choose|j: int| 0 <= j < n && world.tasks.pairs()[j].0 == k;
                assert(world.tasks.map().dom().contains(world.tasks.pairs()[j].0));
            }
        }
        assert(out.map().dom() =~= world.tasks.map().dom());
    }
    out
}

/// The default per-leg network timeout, in seconds.
pub fn leg_timeout() -> (secs: u64)
    ensures
        secs == 10,
{
    10
}

} // verus!
