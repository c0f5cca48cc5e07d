//! The cross-project blocking graph.
//!
//! Only tasks that participate in a dependency become nodes — with ~200
//! tasks and a handful of edges, drawing every task would be a cloud of
//! unconnected dots. Everything unconnected is returned separately for the
//! backlog list. Layout is a deterministic longest-path layering so a sparse
//! DAG renders identically every time instead of jittering.

use vstd::prelude::*;

use crate::entities::{
    lemma_pair_le_antisym, lemma_pair_le_total, lemma_pair_le_trans, pair_le, pair_le_exec, priority_rank, Dependency,
    Priority, Task,
};
use crate::ids::{short_id_of, short_id_of_text};
use crate::resolve::{ResolvedStatus, Status};
use crate::sort::{sort_by_key, sorted_by_key, SortKey};
use crate::browse::{cuttable, has_project, task_projects};
use crate::crossproject::{project_task_before, statuses_unanchored, unanchored_of};
use crate::entities::StatusChange;
use crate::resolve::listed;
use crate::strmap::{lemma_pairs_map_all, lemma_pairs_map_at, lemma_pairs_map_finite, pairs_map, strictly_sorted, StrMap};
use crate::text::{bytes_of, copy_opt_string, copy_string, str_eq, str_le, str_le_exec, str_lt};
use vstd::utf8::is_char_boundary;

verus! {

/// A blocking edge as two task ids: (blocker, blocked).
pub type IdPair = (Seq<char>, Seq<char>);

/// The edges as pairs of id views.
pub open spec fn pair_views(v: Seq<(String, String)>) -> Seq<IdPair> {
    v.map_values(|p: (String, String)| (p.0@, p.1@))
}

/// `x` is an end of some edge.
pub open spec fn endpoint(es: Seq<IdPair>, x: Seq<char>) -> bool {
    exists|i: int| 0 <= i < es.len() && (es[i].0 == x || es[i].1 == x)
}

/// Every blocker of `v` is itself settled within `k - 1` rounds: `v` has no
/// cycle behind it and its longest chain of blockers is shorter than `k`.
pub open spec fn settled_within(es: Seq<IdPair>, k: nat, v: Seq<char>) -> bool
    decreases k,
{
    if k == 0 {
        false
    } else {
        forall|i: int| #![trigger es[i]] 0 <= i < es.len() && es[i].1 == v ==> settled_within(es, (k - 1) as nat, es[i].0)
    }
}

/// No cycle lies behind `v`: layering can settle it.
pub open spec fn settled(es: Seq<IdPair>, v: Seq<char>) -> bool {
    exists|k: nat| #[trigger] settled_within(es, k, v)
}

/// The settled tasks.
pub open spec fn settled_set(es: Seq<IdPair>) -> Set<Seq<char>> {
    Set::new(|v: Seq<char>| settled(es, v))
}

/// One more than the deepest layer among the blockers of `v` that lie in `s`,
/// over the first `m` edges; 0 when there is none.
pub open spec fn pred_layer(es: Seq<IdPair>, s: Set<Seq<char>>, l: Map<Seq<char>, usize>, v: Seq<char>, m: int) -> int
    decreases m,
{
    if m <= 0 {
        0
    } else {
        let r = pred_layer(es, s, l, v, m - 1);
        let e = es[m - 1];
        if e.1 == v && s.contains(e.0) && l[e.0] + 1 > r {
            l[e.0] + 1
        } else {
            r
        }
    }
}

/// `l` gives every node its longest-path layer: one past its deepest settled
/// blocker (blockers behind a cycle never settle and do not count).
pub open spec fn is_layering(es: Seq<IdPair>, l: Map<Seq<char>, usize>) -> bool {
    &&& forall|v: Seq<char>| #[trigger] l.dom().contains(v) <==> endpoint(es, v)
    &&& forall|v: Seq<char>| #[trigger] l.dom().contains(v) ==> l[v] == pred_layer(es, settled_set(es), l, v, es.len() as int)
}

proof fn lemma_pred_layer_ge(es: Seq<IdPair>, s: Set<Seq<char>>, l: Map<Seq<char>, usize>, v: Seq<char>, m: int, j: int)
    requires
        0 <= j < m <= es.len(),
        es[j].1 == v,
        s.contains(es[j].0),
    ensures
        pred_layer(es, s, l, v, m) >= l[es[j].0] + 1,
    decreases m,
{
    if j < m - 1 {
        lemma_pred_layer_ge(es, s, l, v, m - 1, j);
    }
}

/// A blocker of a settled task is settled: no cycle lies behind either.
pub proof fn law_blockers_of_settled_are_settled(es: Seq<IdPair>, i: int)
    requires
        0 <= i < es.len(),
        settled(es, es[i].1),
    ensures
        settled(es, es[i].0),
{
    let k = choose|k: nat| #[trigger] settled_within(es, k, es[i].1);
    assert(settled_within(es, (k - 1) as nat, es[i].0));
}

/// Layers grow along every edge out of a settled blocker: the blocked task
/// is drawn in a later column than its blocker.
pub proof fn law_layers_increase_along_settled_edges(es: Seq<IdPair>, l: Map<Seq<char>, usize>, i: int)
    requires
        is_layering(es, l),
        0 <= i < es.len(),
        settled(es, es[i].0),
    ensures
        l.dom().contains(es[i].0),
        l.dom().contains(es[i].1),
        l[es[i].1] > l[es[i].0],
{
    assert(endpoint(es, es[i].0));
    assert(endpoint(es, es[i].1));
    assert(l.dom().contains(es[i].1));
    assert(settled_set(es).contains(es[i].0));
    lemma_pred_layer_ge(es, settled_set(es), l, es[i].1, es.len() as int, i);
}

/// The layering of the graph.
pub open spec fn graph_layers(es: Seq<IdPair>) -> Map<Seq<char>, usize> {
    choose|l: Map<Seq<char>, usize>| is_layering(es, l)
}

proof fn lemma_settled_within_mono(es: Seq<IdPair>, k: nat, v: Seq<char>)
    requires
        settled_within(es, k, v),
    ensures
        settled_within(es, k + 1, v),
    decreases k,
{
    assert forall|i: int| #![trigger es[i]] 0 <= i < es.len() && es[i].1 == v implies settled_within(es, k, es[i].0) by {
        lemma_settled_within_mono(es, (k - 1) as nat, es[i].0);
    }
}

/// `pred_layer` reads only the blockers of `v` that lie in `s`.
proof fn lemma_pred_layer_congruent(
    es: Seq<IdPair>,
    s1: Set<Seq<char>>,
    l1: Map<Seq<char>, usize>,
    s2: Set<Seq<char>>,
    l2: Map<Seq<char>, usize>,
    v: Seq<char>,
    m: int,
)
    requires
        m <= es.len(),
        forall|i: int| #![trigger es[i]] 0 <= i < m && es[i].1 == v ==> s1.contains(es[i].0) == s2.contains(es[i].0)
            && (s1.contains(es[i].0) ==> l1[es[i].0] == l2[es[i].0]),
    ensures
        pred_layer(es, s1, l1, v, m) == pred_layer(es, s2, l2, v, m),
    decreases m,
{
    if m > 0 {
        lemma_pred_layer_congruent(es, s1, l1, s2, l2, v, m - 1);
        assert(es[m - 1] == es[m - 1]);
    }
}

/// `pred_layer` is at most `bound` when every counted blocker's layer is below it.
proof fn lemma_pred_layer_bound(es: Seq<IdPair>, s: Set<Seq<char>>, l: Map<Seq<char>, usize>, v: Seq<char>, m: int, bound: int)
    requires
        m <= es.len(),
        bound >= 0,
        forall|u: Seq<char>| s.contains(u) ==> l[u] < bound,
    ensures
        0 <= pred_layer(es, s, l, v, m) <= bound,
    decreases m,
{
    if m > 0 {
        lemma_pred_layer_bound(es, s, l, v, m - 1, bound);
    }
}

/// A counted blocker sits at least one layer above.
proof fn lemma_pred_layer_above(es: Seq<IdPair>, s: Set<Seq<char>>, l: Map<Seq<char>, usize>, v: Seq<char>, m: int, i: int)
    requires
        0 <= i < m <= es.len(),
        es[i].1 == v,
        s.contains(es[i].0),
    ensures
        pred_layer(es, s, l, v, m) >= l[es[i].0] + 1,
    decreases m,
{
    if i < m - 1 {
        lemma_pred_layer_above(es, s, l, v, m - 1, i);
    }
}

/// Two layerings agree on every settled node.
proof fn lemma_layering_unique_settled(es: Seq<IdPair>, l1: Map<Seq<char>, usize>, l2: Map<Seq<char>, usize>, k: nat, v: Seq<char>)
    requires
        is_layering(es, l1),
        is_layering(es, l2),
        settled_within(es, k, v),
        endpoint(es, v),
    ensures
        l1[v] == l2[v],
    decreases k,
{
    let s = settled_set(es);
    assert forall|i: int| #![trigger es[i]] 0 <= i < es.len() && es[i].1 == v implies s.contains(es[i].0) == s.contains(es[i].0)
        && (s.contains(es[i].0) ==> l1[es[i].0] == l2[es[i].0]) by {
        assert(settled_within(es, (k - 1) as nat, es[i].0));
        assert(endpoint(es, es[i].0));
        lemma_layering_unique_settled(es, l1, l2, (k - 1) as nat, es[i].0);
    }
    assert(l1.dom().contains(v));
    assert(l2.dom().contains(v));
    lemma_pred_layer_congruent(es, s, l1, s, l2, v, es.len() as int);
}

/// A graph has exactly one layering.
proof fn lemma_layering_unique(es: Seq<IdPair>, l1: Map<Seq<char>, usize>, l2: Map<Seq<char>, usize>)
    requires
        is_layering(es, l1),
        is_layering(es, l2),
    ensures
        l1 == l2,
{
    let s = settled_set(es);
    assert forall|v: Seq<char>| #[trigger] l1.dom().contains(v) implies l1[v] == l2[v] by {
        assert(endpoint(es, v));
        assert(l2.dom().contains(v));
        assert forall|i: int| #![trigger es[i]] 0 <= i < es.len() && es[i].1 == v implies s.contains(es[i].0) == s.contains(es[i].0)
            && (s.contains(es[i].0) ==> l1[es[i].0] == l2[es[i].0]) by {
            if s.contains(es[i].0) {
                let k = choose|k: nat| #[trigger] settled_within(es, k, es[i].0);
                assert(endpoint(es, es[i].0));
                lemma_layering_unique_settled(es, l1, l2, k, es[i].0);
            }
        }
        lemma_pred_layer_congruent(es, s, l1, s, l2, v, es.len() as int);
    }
    assert(l1 =~= l2);
}

/// Whether every blocker of `v` is in `s`.
fn all_blockers_in(v: &str, pairs: &Vec<(String, String)>, s: &StrMap<()>) -> (r: bool)
    ensures
        r == forall|i: int| #![trigger pair_views(pairs@)[i]] 0 <= i < pairs@.len() && pair_views(pairs@)[i].1 == v@
            ==> s.map().dom().contains(pair_views(pairs@)[i].0),
{
    let ghost es = pair_views(pairs@);
    let mut i: usize = 0;
    while i < pairs.len()
        invariant
            i <= pairs@.len(),
            es == pair_views(pairs@),
            forall|j: int| #![trigger es[j]] 0 <= j < i && es[j].1 == v@ ==> s.map().dom().contains(es[j].0),
        decreases pairs@.len() - i,
    {
        let p = &pairs[i];
        assert(es[i as int] == (p.0@, p.1@));
        if crate::text::str_eq(p.1.as_str(), v) && !s.contains_key(p.0.as_str()) {
            return false;
        }
        i = i + 1;
    }
    true
}

/// `pred_layer` of `v` over the blockers in `s`.
fn max_blocker_layer(v: &str, pairs: &Vec<(String, String)>, s: &StrMap<()>, layers: &StrMap<usize>) -> (r: usize)
    requires
        forall|u: Seq<char>| s.map().dom().contains(u) ==> layers.map().dom().contains(u) && layers.map()[u] < usize::MAX,
    ensures
        r == pred_layer(pair_views(pairs@), s.map().dom(), layers.map(), v@, pairs@.len() as int),
{
    let ghost es = pair_views(pairs@);
    let mut best: usize = 0;
    let mut i: usize = 0;
    while i < pairs.len()
        invariant
            i <= pairs@.len(),
            es == pair_views(pairs@),
            forall|u: Seq<char>| s.map().dom().contains(u) ==> layers.map().dom().contains(u) && layers.map()[u] < usize::MAX,
            best == pred_layer(es, s.map().dom(), layers.map(), v@, i as int),
        decreases pairs@.len() - i,
    {
        let p = &pairs[i];
        assert(es[i as int] == (p.0@, p.1@));
        if crate::text::str_eq(p.1.as_str(), v) && s.contains_key(p.0.as_str()) {
            let l = match layers.get(p.0.as_str()) {
                Some(x) => *x,
                None => 0,
            };
            if l + 1 > best {
                best = l + 1;
            }
        }
        i = i + 1;
    }
    best
}

/// Longest-path layering. A node settles once all its blockers have; nodes
/// that never settle sit on or behind a cycle, and keep the longest path
/// that reached them from settled blockers. Returns the layers and the
/// settled nodes.
fn layer_nodes(in_graph: &StrMap<()>, pairs: &Vec<(String, String)>) -> (r: (StrMap<usize>, StrMap<()>))
    requires
        forall|x: Seq<char>| #[trigger] in_graph.map().dom().contains(x) <==> endpoint(pair_views(pairs@), x),
    ensures
        r.0.map() == graph_layers(pair_views(pairs@)),
        is_layering(pair_views(pairs@), r.0.map()),
        forall|x: Seq<char>| #[trigger] r.1.map().dom().contains(x) <==> endpoint(pair_views(pairs@), x) && settled(pair_views(pairs@), x),
{
    let ghost es = pair_views(pairs@);
    let ghost nodes = in_graph.map().dom();
    let n = in_graph.len();
    let mut done: StrMap<()> = StrMap::new();
    let mut layers: StrMap<usize> = StrMap::new();
    let ghost mut rounds: nat = 0;
    proof {
        lemma_pairs_map_finite(in_graph.pairs());
    }
    let mut changed = true;
    while changed
        invariant
            n == in_graph.pairs().len(),
            strictly_sorted(in_graph.pairs()),
            es == pair_views(pairs@),
            nodes == in_graph.map().dom(),
            nodes.finite(),
            forall|x: Seq<char>| #[trigger] nodes.contains(x) <==> endpoint(es, x),
            forall|v: Seq<char>| #[trigger] done.map().dom().contains(v) ==> nodes.contains(v) && settled_within(es, rounds, v),
            forall|v: Seq<char>| #[trigger] layers.map().dom().contains(v) <==> done.map().dom().contains(v),
            forall|v: Seq<char>, i: int| #![trigger done.map().dom().contains(v), es[i]] done.map().dom().contains(v) && 0 <= i < es.len() && es[i].1 == v
                ==> done.map().dom().contains(es[i].0),
            forall|v: Seq<char>| #[trigger] done.map().dom().contains(v)
                ==> layers.map()[v] == pred_layer(es, done.map().dom(), layers.map(), v, es.len() as int),
            forall|v: Seq<char>| #[trigger] done.map().dom().contains(v) ==> layers.map()[v] < done.map().dom().len(),
            done.map().dom().finite(),
            done.map().dom().len() <= done.pairs().len(),
            !changed ==> forall|v: Seq<char>| #[trigger] nodes.contains(v) && !done.map().dom().contains(v)
                ==> exists|i: int| 0 <= i < es.len() && es[i].1 == v && !done.map().dom().contains(es[i].0),
        decreases nodes.difference(done.map().dom()).len(), if changed { 1int } else { 0int },
    {
        changed = false;
        let ghost old_missing = nodes.difference(done.map().dom()).len();
        let mut j: usize = 0;
        while j < n
            invariant
                j <= n,
                n == in_graph.pairs().len(),
                strictly_sorted(in_graph.pairs()),
                es == pair_views(pairs@),
                nodes == in_graph.map().dom(),
                nodes.finite(),
                forall|x: Seq<char>| #[trigger] nodes.contains(x) <==> endpoint(es, x),
                forall|v: Seq<char>| #[trigger] done.map().dom().contains(v) ==> nodes.contains(v) && settled_within(es, rounds, v),
                forall|v: Seq<char>| #[trigger] layers.map().dom().contains(v) <==> done.map().dom().contains(v),
                forall|v: Seq<char>, i: int| #![trigger done.map().dom().contains(v), es[i]] done.map().dom().contains(v) && 0 <= i < es.len() && es[i].1 == v
                    ==> done.map().dom().contains(es[i].0),
                forall|v: Seq<char>| #[trigger] done.map().dom().contains(v)
                    ==> layers.map()[v] == pred_layer(es, done.map().dom(), layers.map(), v, es.len() as int),
                forall|v: Seq<char>| #[trigger] done.map().dom().contains(v) ==> layers.map()[v] < done.map().dom().len(),
                done.map().dom().finite(),
                done.map().dom().len() <= done.pairs().len(),
                changed ==> nodes.difference(done.map().dom()).len() < old_missing,
                !changed ==> nodes.difference(done.map().dom()).len() == old_missing,
                !changed ==> forall|t: int| 0 <= t < j && !done.map().dom().contains(#[trigger] in_graph.pairs()[t].0)
                    ==> exists|i: int| 0 <= i < es.len() && es[i].1 == in_graph.pairs()[t].0 && !done.map().dom().contains(es[i].0),
            decreases n - j,
        {
            let v = in_graph.key_at(j);
            proof {
                lemma_pairs_map_at(in_graph.pairs(), j as int);
            }
            if !done.contains_key(v.as_str()) && all_blockers_in(v.as_str(), pairs, &done) {
                let ghost d0 = done.map().dom();
                let ghost l0 = layers.map();
                let dn = done.len();
                proof {
                    assert forall|u: Seq<char>| d0.contains(u) implies layers.map().dom().contains(u) && layers.map()[u] < usize::MAX by {}
                }
                let l = max_blocker_layer(v.as_str(), pairs, &done, &layers);
                proof {
                    lemma_pred_layer_bound(es, d0, l0, v@, es.len() as int, d0.len() as int);
                    nodes.lemma_set_insert_diff_decreases(d0, v@);
                    assert forall|i: int| #![trigger es[i]] 0 <= i < es.len() && es[i].1 == v@ implies settled_within(es, rounds, es[i].0) by {
                        assert(d0.contains(es[i].0));
                    }
                    assert(settled_within(es, rounds + 1, v@));
                    assert forall|u: Seq<char>| #[trigger] d0.contains(u) implies settled_within(es, rounds + 1, u) by {
                        lemma_settled_within_mono(es, rounds, u);
                    }
                    rounds = rounds + 1;
                }
                done.insert(copy_string(v), ());
                layers.insert(copy_string(v), l);
                changed = true;
                proof {
                    let d1 = done.map().dom();
                    assert(d1 =~= d0.insert(v@));
                    assert(layers.map() =~= l0.insert(v@, l));
                    lemma_pairs_map_finite(done.pairs());
                    assert forall|w: Seq<char>| #[trigger] d1.contains(w)
                        implies layers.map()[w] == pred_layer(es, d1, layers.map(), w, es.len() as int) by {
                        assert forall|i: int| #![trigger es[i]] 0 <= i < es.len() && es[i].1 == w implies d0.contains(es[i].0) == d1.contains(es[i].0)
                            && (d0.contains(es[i].0) ==> l0[es[i].0] == layers.map()[es[i].0]) by {
                            if w == v@ {
                                assert(d0.contains(es[i].0));
                            } else {
                                assert(d0.contains(es[i].0));
                            }
                        }
                        lemma_pred_layer_congruent(es, d0, l0, d1, layers.map(), w, es.len() as int);
                    }
                }
            }
            j = j + 1;
        }
        proof {
            if !changed {
                lemma_pairs_map_all(in_graph.pairs());
                assert forall|v: Seq<char>| #[trigger] nodes.contains(v) && !done.map().dom().contains(v)
                    implies exists|i: int| 0 <= i < es.len() && es[i].1 == v && !done.map().dom().contains(es[i].0) by {
                    let t = choose|t: int| 0 <= t < n && in_graph.pairs()[t].0 == v;
                    assert(!done.map().dom().contains(in_graph.pairs()[t].0));
                }
            }
        }
    }
    proof {
        // Everything that can settle has.
        assert forall|v: Seq<char>| #[trigger] nodes.contains(v) && settled(es, v) implies done.map().dom().contains(v) by {
            let k = choose|k: nat| #[trigger] settled_within(es, k, v);
            lemma_fixpoint_holds_settled(es, nodes, done.map().dom(), in_graph.pairs(), k, v);
        }
        assert forall|v: Seq<char>| #[trigger] done.map().dom().contains(v) implies nodes.contains(v) && settled(es, v) by {
            assert(settled_within(es, rounds, v));
        }
    }
    // The unsettled nodes take one past their deepest settled blocker.
    let ghost sdone = done.map().dom();
    let ghost lsettled = layers.map();
    let dn = done.len();
    let mut j: usize = 0;
    while j < n
        invariant
            j <= n,
            n == in_graph.pairs().len(),
            strictly_sorted(in_graph.pairs()),
            es == pair_views(pairs@),
            nodes == in_graph.map().dom(),
            sdone == done.map().dom(),
            forall|x: Seq<char>| #[trigger] nodes.contains(x) <==> endpoint(es, x),
            forall|v: Seq<char>| #[trigger] sdone.contains(v) ==> nodes.contains(v) && settled(es, v),
            forall|v: Seq<char>| #[trigger] nodes.contains(v) && settled(es, v) ==> sdone.contains(v),
            forall|v: Seq<char>, i: int| #![trigger sdone.contains(v), es[i]] sdone.contains(v) && 0 <= i < es.len() && es[i].1 == v ==> sdone.contains(es[i].0),
            forall|v: Seq<char>| #[trigger] sdone.contains(v) ==> layers.map().dom().contains(v) && layers.map()[v] == lsettled[v],
            forall|v: Seq<char>| #[trigger] sdone.contains(v) ==> lsettled[v] == pred_layer(es, sdone, lsettled, v, es.len() as int),
            forall|v: Seq<char>| #[trigger] sdone.contains(v) ==> lsettled[v] < sdone.len(),
            sdone.finite(),
            sdone.len() <= done.pairs().len(),
            dn == done.pairs().len(),
            forall|v: Seq<char>| #[trigger] layers.map().dom().contains(v) ==> nodes.contains(v),
            forall|v: Seq<char>| #[trigger] layers.map().dom().contains(v) && !sdone.contains(v)
                ==> layers.map()[v] == pred_layer(es, sdone, lsettled, v, es.len() as int),
            forall|t: int| 0 <= t < j ==> layers.map().dom().contains(#[trigger] in_graph.pairs()[t].0),
        decreases n - j,
    {
        let v = in_graph.key_at(j);
        proof {
            lemma_pairs_map_at(in_graph.pairs(), j as int);
        }
        if !done.contains_key(v.as_str()) {
            let ghost lb = layers.map();
            proof {
                assert forall|u: Seq<char>| sdone.contains(u) implies layers.map().dom().contains(u) && layers.map()[u] < usize::MAX by {}
            }
            let l = max_blocker_layer(v.as_str(), pairs, &done, &layers);
            proof {
                assert forall|i: int| #![trigger es[i]] 0 <= i < es.len() && es[i].1 == v@ implies sdone.contains(es[i].0) == sdone.contains(es[i].0)
                    && (sdone.contains(es[i].0) ==> lb[es[i].0] == lsettled[es[i].0]) by {}
                lemma_pred_layer_congruent(es, sdone, lb, sdone, lsettled, v@, es.len() as int);
            }
            layers.insert(copy_string(v), l);
        }
        j = j + 1;
    }
    proof {
        let s = settled_set(es);
        let lm = layers.map();
        lemma_pairs_map_all(in_graph.pairs());
        assert forall|v: Seq<char>| #[trigger] lm.dom().contains(v) <==> endpoint(es, v) by {
            if endpoint(es, v) {
                assert(nodes.contains(v));
                let t = choose|t: int| 0 <= t < n && in_graph.pairs()[t].0 == v;
                assert(lm.dom().contains(in_graph.pairs()[t].0));
            }
        }
        assert forall|v: Seq<char>| #[trigger] lm.dom().contains(v) implies lm[v] == pred_layer(es, s, lm, v, es.len() as int) by {
            assert forall|i: int| #![trigger es[i]] 0 <= i < es.len() && es[i].1 == v implies sdone.contains(es[i].0) == s.contains(es[i].0)
                && (sdone.contains(es[i].0) ==> lsettled[es[i].0] == lm[es[i].0]) by {
                assert(endpoint(es, es[i].0));
                assert(nodes.contains(es[i].0));
            }
            lemma_pred_layer_congruent(es, sdone, lsettled, s, lm, v, es.len() as int);
        }
        assert(is_layering(es, lm));
        lemma_layering_unique(es, lm, graph_layers(es));
        assert forall|x: Seq<char>| #[trigger] done.map().dom().contains(x) <==> endpoint(es, x) && settled(es, x) by {
            if endpoint(es, x) {
                assert(nodes.contains(x));
            }
        }
    }
    (layers, done)
}

/// At a fixpoint — every unsettled node has an unsettled blocker — every node
/// settled within `k` rounds is in the settled set.
proof fn lemma_fixpoint_holds_settled(
    es: Seq<IdPair>,
    nodes: Set<Seq<char>>,
    done: Set<Seq<char>>,
    keys: Seq<(Seq<char>, ())>,
    k: nat,
    v: Seq<char>,
)
    requires
        forall|x: Seq<char>| #[trigger] nodes.contains(x) <==> endpoint(es, x),
        forall|x: Seq<char>| #[trigger] nodes.contains(x) && !done.contains(x)
            ==> exists|i: int| 0 <= i < es.len() && es[i].1 == x && !done.contains(es[i].0),
        settled_within(es, k, v),
        nodes.contains(v),
    ensures
        done.contains(v),
    decreases k,
{
    if !done.contains(v) {
        let i = choose|i: int| 0 <= i < es.len() && es[i].1 == v && !done.contains(es[i].0);
        assert(settled_within(es, (k - 1) as nat, es[i].0));
        assert(endpoint(es, es[i].0));
        lemma_fixpoint_holds_settled(es, nodes, done, keys, (k - 1) as nat, es[i].0);
    }
}

/// A node of the drawn graph.
#[derive(Debug, Clone, PartialEq)]
pub struct GraphNode {
    pub task_id: String,
    pub project_id: String,
    pub title: String,
    pub priority: Priority,
    pub status: Status,
    /// 0 = blocked by nothing in the graph; deepest-blocker + 1 otherwise.
    pub layer: usize,
    /// True when the task is referenced by an edge but was never seen (a
    /// foreign blocker not yet synced) — rendered as a stub.
    pub stub: bool,
}

/// A blocking edge of the drawn graph.
#[derive(Debug, Clone, PartialEq)]
pub struct GraphEdge {
    pub blocker_task_id: String,
    pub blocked_task_id: String,
    /// None = same project as the blocked task.
    pub blocker_project_id: Option<String>,
    pub via: Option<String>,
    /// The blocker is closed: this edge is the actionable "verify and start".
    pub resolved: bool,
}

/// The whole graph, as the dashboard draws it.
#[derive(Debug, Clone, PartialEq)]
pub struct IssueGraph {
    pub nodes: Vec<GraphNode>,
    pub edges: Vec<GraphEdge>,
    /// Task ids with no dependency edge — the backlog, not drawn in the graph.
    pub unconnected: Vec<String>,
    /// (blocker, blocked) edges into nodes on or behind a cycle, for the UI to flag.
    pub broken_cycles: Vec<(String, String)>,
}

impl Default for IssueGraph {
    /// The empty graph.
    fn default() -> (g: IssueGraph)
        ensures
            g.nodes@.len() == 0,
            g.edges@.len() == 0,
            g.unconnected@.len() == 0,
            g.broken_cycles@.len() == 0,
    {
        IssueGraph { nodes: Vec::new(), edges: Vec::new(), unconnected: Vec::new(), broken_cycles: Vec::new() }
    }
}

/// The (blocker, blocked) pair a dependency records.
pub open spec fn dep_pair(d: Dependency) -> IdPair {
    (d.blocker_task_id@, d.blocked_task_id@)
}

/// The dependencies that introduce a new (blocker, blocked) pair, in order:
/// the same block can be recorded more than once.
pub open spec fn kept_deps(ds: Seq<Dependency>) -> Seq<Dependency>
    decreases ds.len(),
{
    if ds.len() == 0 {
        Seq::empty()
    } else {
        let k = kept_deps(ds.drop_last());
        if k.map_values(|d: Dependency| dep_pair(d)).contains(dep_pair(ds.last())) {
            k
        } else {
            k.push(ds.last())
        }
    }
}

/// The graph's edges as id pairs.
pub open spec fn graph_pairs(ds: Seq<Dependency>) -> Seq<IdPair> {
    kept_deps(ds).map_values(|d: Dependency| dep_pair(d))
}

/// The task is known closed.
pub open spec fn known_closed(st: Map<Seq<char>, ResolvedStatus>, id: Seq<char>) -> bool {
    st.dom().contains(id) && st[id].status == Status::Closed
}

/// The first dependency, in order, whose blocker is `id`.
pub open spec fn first_blocker_dep(ds: Seq<Dependency>, id: Seq<char>) -> Option<Dependency>
    decreases ds.len(),
{
    if ds.len() == 0 {
        None
    } else if ds[0].blocker_task_id@ == id {
        Some(ds[0])
    } else {
        first_blocker_dep(ds.drop_first(), id)
    }
}

/// The blocker project the first dependency on blocker `id` names.
pub open spec fn blocker_project_spec(ds: Seq<Dependency>, id: Seq<char>) -> Option<String> {
    match first_blocker_dep(ds, id) {
        Some(d) => d.blocker_project_id,
        None => None,
    }
}

/// The dependency values of a map, in key order.
pub open spec fn dep_values(deps: Seq<(Seq<char>, Dependency)>) -> Seq<Dependency> {
    deps.map_values(|e: (Seq<char>, Dependency)| e.1)
}

/// The project the first dependency blocked by `task_id` says that blocker lives in.
pub fn blocker_project_of(task_id: &str, deps: &StrMap<Dependency>) -> (r: Option<String>)
    ensures
        r == blocker_project_spec(dep_values(deps.pairs()), task_id@),
{
    let ghost ds = dep_values(deps.pairs());
    let n = deps.len();
    let mut i: usize = 0;
    assert(ds.skip(0) =~= ds);
    while i < n
        invariant
            i <= n,
            n == deps.pairs().len(),
            ds == dep_values(deps.pairs()),
            first_blocker_dep(ds, task_id@) == first_blocker_dep(ds.skip(i as int), task_id@),
        decreases n - i,
    {
        let d = deps.value_at(i);
        assert(ds.skip(i as int)[0] == *d);
        if str_eq(d.blocker_task_id.as_str(), task_id) {
            return copy_opt_string(&d.blocker_project_id);
        }
        assert(ds.skip(i as int).drop_first() =~= ds.skip(i + 1));
        i = i + 1;
    }
    None
}

/// Node `nd` is what the graph shows for its task.
pub open spec fn node_shows(
    nd: GraphNode,
    tasks: Map<Seq<char>, Task>,
    ds: Seq<Dependency>,
    st: Map<Seq<char>, ResolvedStatus>,
) -> bool {
    let id = nd.task_id@;
    &&& endpoint(graph_pairs(ds), id)
    &&& nd.layer == graph_layers(graph_pairs(ds))[id]
    &&& if tasks.dom().contains(id) {
        &&& nd.project_id@ == tasks[id].project_id@
        &&& nd.title@ == tasks[id].title@
        &&& nd.priority == tasks[id].priority
        &&& nd.status == (if st.dom().contains(id) { st[id].status } else { Status::Open })
        &&& !nd.stub
    } else {
        &&& nd.project_id@ == (match blocker_project_spec(ds, id) {
            Some(p) => p@,
            None => Seq::empty(),
        })
        &&& nd.title@ == short_id_of_text(id)
        &&& nd.priority == Priority::P2
        &&& nd.status == Status::Open
        &&& nd.stub
    }
}

/// Render order: layer, then project, then priority, then id.
pub open spec fn node_le(a: GraphNode, b: GraphNode) -> bool {
    ||| a.layer < b.layer
    ||| a.layer == b.layer && str_lt(a.project_id@, b.project_id@)
    ||| a.layer == b.layer && a.project_id@ == b.project_id@ && priority_rank(a.priority) < priority_rank(b.priority)
    ||| a.layer == b.layer && a.project_id@ == b.project_id@ && priority_rank(a.priority) == priority_rank(b.priority)
        && str_le(a.task_id@, b.task_id@)
}

impl SortKey for GraphNode {
    open spec fn key_le_spec(&self, other: &Self) -> bool {
        node_le(*self, *other)
    }

    proof fn lemma_key_le_total(a: &Self, b: &Self) {
        crate::text::lemma_str_le_total(a.project_id@, b.project_id@);
        crate::text::lemma_str_le_total(a.task_id@, b.task_id@);
    }

    proof fn lemma_key_le_trans(a: &Self, b: &Self, c: &Self) {
        if str_lt(a.project_id@, b.project_id@) && str_lt(b.project_id@, c.project_id@) {
            crate::text::lemma_str_le_trans(a.project_id@, b.project_id@, c.project_id@);
            if a.project_id@ == c.project_id@ {
                crate::text::lemma_str_le_antisym(a.project_id@, b.project_id@);
            }
        }
        if str_le(a.task_id@, b.task_id@) && str_le(b.task_id@, c.task_id@) {
            crate::text::lemma_str_le_trans(a.task_id@, b.task_id@, c.task_id@);
        }
    }

    fn key_le(&self, other: &Self) -> (r: bool) {
        if self.layer != other.layer {
            return self.layer < other.layer;
        }
        if !str_eq(self.project_id.as_str(), other.project_id.as_str()) {
            return str_le_exec(self.project_id.as_str(), other.project_id.as_str());
        }
        let (pa, pb) = (self.priority.rank(), other.priority.rank());
        if pa != pb {
            return pa < pb;
        }
        str_le_exec(self.task_id.as_str(), other.task_id.as_str())
    }
}

impl SortKey for (String, String) {
    open spec fn key_le_spec(&self, other: &Self) -> bool {
        pair_le(self.0@, self.1@, other.0@, other.1@)
    }

    proof fn lemma_key_le_total(a: &Self, b: &Self) {
        lemma_pair_le_total(a.0@, a.1@, b.0@, b.1@);
    }

    proof fn lemma_key_le_trans(a: &Self, b: &Self, c: &Self) {
        lemma_pair_le_trans(a.0@, a.1@, b.0@, b.1@, c.0@, c.1@);
    }

    fn key_le(&self, other: &Self) -> (r: bool) {
        pair_le_exec(self.0.as_str(), self.1.as_str(), other.0.as_str(), other.1.as_str())
    }
}

/// Edge `e` draws dependency `d`.
pub open spec fn edge_of(e: GraphEdge, d: Dependency, st: Map<Seq<char>, ResolvedStatus>) -> bool {
    &&& e.blocker_task_id@ == d.blocker_task_id@
    &&& e.blocked_task_id@ == d.blocked_task_id@
    &&& e.blocker_project_id == d.blocker_project_id
    &&& e.via == d.via
    &&& e.resolved == known_closed(st, d.blocker_task_id@)
}

/// Whether (a, b) is already among `pairs`.
fn pair_listed(pairs: &Vec<(String, String)>, a: &str, b: &str) -> (r: bool)
    ensures
        r == pair_views(pairs@).contains((a@, b@)),
{
    let mut i: usize = 0;
    while i < pairs.len()
        invariant
            i <= pairs@.len(),
            forall|j: int| 0 <= j < i ==> pair_views(pairs@)[j] != (a@, b@),
        decreases pairs@.len() - i,
    {
        let p = &pairs[i];
        if str_eq(p.0.as_str(), a) && str_eq(p.1.as_str(), b) {
            assert(pair_views(pairs@)[i as int] == (a@, b@));
            return true;
        }
        i = i + 1;
    }
    false
}

/// The distinct edges, in dependency order, with their id pairs.
fn collect_edges(deps: &StrMap<Dependency>, statuses: &StrMap<ResolvedStatus>) -> (r: (Vec<GraphEdge>, Vec<(String, String)>))
    ensures
        pair_views(r.1@) == graph_pairs(dep_values(deps.pairs())),
        r.0@.len() == kept_deps(dep_values(deps.pairs())).len(),
        forall|i: int| 0 <= i < r.0@.len() ==> edge_of(#[trigger] r.0@[i], kept_deps(dep_values(deps.pairs()))[i], statuses.map()),
{
    let ghost ds = dep_values(deps.pairs());
    let n = deps.len();
    let mut edges: Vec<GraphEdge> = Vec::new();
    let mut pairs: Vec<(String, String)> = Vec::new();
    let mut i: usize = 0;
    proof {
        assert(ds.subrange(0, 0) =~= Seq::<Dependency>::empty());
        assert(pair_views(pairs@) =~= graph_pairs(ds.subrange(0, 0)));
    }
    while i < n
        invariant
            i <= n,
            n == deps.pairs().len(),
            ds == dep_values(deps.pairs()),
            pair_views(pairs@) == graph_pairs(ds.subrange(0, i as int)),
            edges@.len() == kept_deps(ds.subrange(0, i as int)).len(),
            forall|j: int| 0 <= j < edges@.len() ==> edge_of(#[trigger] edges@[j], kept_deps(ds.subrange(0, i as int))[j], statuses.map()),
        decreases n - i,
    {
        let d = deps.value_at(i);
        let ghost pre = ds.subrange(0, i as int);
        let ghost post = ds.subrange(0, i + 1);
        proof {
            assert(post.drop_last() =~= pre);
            assert(post.last() == *d);
        }
        if !pair_listed(&pairs, d.blocker_task_id.as_str(), d.blocked_task_id.as_str()) {
            let resolved = match statuses.get(d.blocker_task_id.as_str()) {
                Some(s) => s.status == Status::Closed,
                None => false,
            };
            let ghost pv0 = pair_views(pairs@);
            edges.push(GraphEdge {
                blocker_task_id: copy_string(&d.blocker_task_id),
                blocked_task_id: copy_string(&d.blocked_task_id),
                blocker_project_id: copy_opt_string(&d.blocker_project_id),
                via: copy_opt_string(&d.via),
                resolved,
            });
            pairs.push((copy_string(&d.blocker_task_id), copy_string(&d.blocked_task_id)));
            proof {
                assert(pair_views(pairs@) =~= pv0.push(dep_pair(*d)));
                assert(kept_deps(post) == kept_deps(pre).push(*d));
                assert(graph_pairs(post) =~= graph_pairs(pre).push(dep_pair(*d)));
            }
        } else {
            proof {
                assert(kept_deps(post) == kept_deps(pre));
            }
        }
        i = i + 1;
    }
    proof {
        assert(ds.subrange(0, n as int) =~= ds);
    }
    (edges, pairs)
}

/// The ends of the edges.
fn endpoint_set(pairs: &Vec<(String, String)>) -> (r: StrMap<()>)
    ensures
        forall|x: Seq<char>| #[trigger] r.map().dom().contains(x) <==> endpoint(pair_views(pairs@), x),
{
    let ghost es = pair_views(pairs@);
    let mut out: StrMap<()> = StrMap::new();
    let mut i: usize = 0;
    while i < pairs.len()
        invariant
            i <= pairs@.len(),
            es == pair_views(pairs@),
            forall|x: Seq<char>| #[trigger] out.map().dom().contains(x)
                <==> exists|j: int| 0 <= j < i && (es[j].0 == x || es[j].1 == x),
        decreases pairs@.len() - i,
    {
        let p = &pairs[i];
        assert(es[i as int] == (p.0@, p.1@));
        out.insert(copy_string(&p.0), ());
        out.insert(copy_string(&p.1), ());
        proof {
            assert forall|x: Seq<char>| #[trigger] out.map().dom().contains(x)
                <==> exists|j: int| 0 <= j < i + 1 && (es[j].0 == x || es[j].1 == x) by {
                if x == p.0@ || x == p.1@ {
                    assert(es[i as int].0 == x || es[i as int].1 == x);
                }
            }
        }
        i = i + 1;
    }
    out
}

/// Every stub id (an endpoint with no task) can be shortened to eight bytes.
pub open spec fn stubs_shortenable(tasks: Map<Seq<char>, Task>, es: Seq<IdPair>) -> bool {
    forall|x: Seq<char>| #[trigger] endpoint(es, x) && !tasks.dom().contains(x)
        ==> bytes_of(x).len() <= 8 || is_char_boundary(bytes_of(x), 8)
}

/// One node per endpoint, in id order.
#[verifier::rlimit(30)]
fn graph_nodes(
    in_graph: &StrMap<()>,
    layers: &StrMap<usize>,
    tasks: &StrMap<Task>,
    deps: &StrMap<Dependency>,
    statuses: &StrMap<ResolvedStatus>,
) -> (r: Vec<GraphNode>)
    requires
        forall|x: Seq<char>| #[trigger] in_graph.map().dom().contains(x) <==> endpoint(graph_pairs(dep_values(deps.pairs())), x),
        layers.map() == graph_layers(graph_pairs(dep_values(deps.pairs()))),
        is_layering(graph_pairs(dep_values(deps.pairs())), layers.map()),
        stubs_shortenable(tasks.map(), graph_pairs(dep_values(deps.pairs()))),
    ensures
        forall|i: int| 0 <= i < r@.len() ==> node_shows(#[trigger] r@[i], tasks.map(), dep_values(deps.pairs()), statuses.map()),
        forall|a: int, b: int| 0 <= a < b < r@.len() ==> str_lt((#[trigger] r@[a]).task_id@, (#[trigger] r@[b]).task_id@),
        forall|x: Seq<char>| endpoint(graph_pairs(dep_values(deps.pairs())), x)
            ==> exists|i: int| 0 <= i < r@.len() && (#[trigger] r@[i]).task_id@ == x,
{
    let ghost ds = dep_values(deps.pairs());
    let ghost es = graph_pairs(ds);
    let n = in_graph.len();
    let mut out: Vec<GraphNode> = Vec::new();
    let mut i: usize = 0;
    while i < n
        invariant
            i <= n,
            n == in_graph.pairs().len(),
            strictly_sorted(in_graph.pairs()),
            ds == dep_values(deps.pairs()),
            es == graph_pairs(ds),
            forall|x: Seq<char>| #[trigger] in_graph.map().dom().contains(x) <==> endpoint(es, x),
            layers.map() == graph_layers(es),
            is_layering(es, layers.map()),
            stubs_shortenable(tasks.map(), es),
            out@.len() == i,
            forall|j: int| 0 <= j < i ==> (#[trigger] out@[j]).task_id@ == in_graph.pairs()[j].0,
            forall|j: int| 0 <= j < i ==> node_shows(#[trigger] out@[j], tasks.map(), ds, statuses.map()),
        decreases n - i,
    {
        let id = in_graph.key_at(i);
        proof {
            lemma_pairs_map_at(in_graph.pairs(), i as int);
            assert(in_graph.map().dom().contains(id@));
            assert(endpoint(es, id@));
            assert(layers.map().dom().contains(id@));
        }
        let layer = match layers.get(id.as_str()) {
            Some(l) => *l,
            None => 0,
        };
        let node = match tasks.get(id.as_str()) {
            Some(t) => GraphNode {
                task_id: copy_string(id),
                project_id: copy_string(&t.project_id),
                title: copy_string(&t.title),
                priority: t.priority,
                status: match statuses.get(id.as_str()) {
                    Some(s) => s.status,
                    None => Status::Open,
                },
                layer,
                stub: false,
            },
            None => GraphNode {
                task_id: copy_string(id),
                project_id: match blocker_project_of(id.as_str(), deps) {
                    Some(p) => p,
                    None => String::new(),
                },
                title: short_id_of(id.as_str()),
                priority: Priority::P2,
                status: Status::Open,
                layer,
                stub: true,
            },
        };
        out.push(node);
        i = i + 1;
    }
    proof {
        lemma_pairs_map_all(in_graph.pairs());
        assert forall|x: Seq<char>| endpoint(es, x) implies exists|j: int| 0 <= j < out@.len() && (#[trigger] out@[j]).task_id@ == x by {
            assert(in_graph.map().dom().contains(x));
            let j = choose|j: int| 0 <= j < n && in_graph.pairs()[j].0 == x;
            assert(out@[j].task_id@ == x);
        }
        assert forall|a: int, b: int| 0 <= a < b < out@.len() implies str_lt((#[trigger] out@[a]).task_id@, (#[trigger] out@[b]).task_id@) by {
            assert(out@[a].task_id@ == in_graph.pairs()[a].0);
            assert(out@[b].task_id@ == in_graph.pairs()[b].0);
        }
    }
    out
}

/// The task ids that no edge touches, in id order.
fn unconnected_ids(tasks: &StrMap<Task>, in_graph: &StrMap<()>) -> (r: Vec<String>)
    ensures
        r@.map_values(|s: String| s@) == tasks.key_seq().filter(|k: Seq<char>| !in_graph.map().dom().contains(k)),
{
    let ghost keys = tasks.key_seq();
    let ghost pred = |k: Seq<char>| !in_graph.map().dom().contains(k);
    let n = tasks.len();
    let mut out: Vec<String> = Vec::new();
    let mut i: usize = 0;
    while i < n
        invariant
            i <= n,
            n == keys.len(),
            keys == tasks.key_seq(),
            pred == (|k: Seq<char>| !in_graph.map().dom().contains(k)),
            out@.map_values(|s: String| s@) == keys.subrange(0, i as int).filter(pred),
        decreases n - i,
    {
        let k = tasks.key_at(i);
        let ghost before = out@;
        proof {
            reveal(Seq::filter);
            assert(keys.subrange(0, i + 1).drop_last() =~= keys.subrange(0, i as int));
            assert(keys[i as int] == k@);
        }
        if !in_graph.contains_key(k.as_str()) {
            out.push(copy_string(k));
            assert(out@.map_values(|s: String| s@) =~= before.map_values(|s: String| s@).push(k@));
        }
        i = i + 1;
    }
    assert(keys.subrange(0, n as int) =~= keys);
    out
}

/// The graph's pairs have no repeats.
proof fn lemma_graph_pairs_distinct(ds: Seq<Dependency>)
    ensures
        graph_pairs(ds).no_duplicates(),
    decreases ds.len(),
{
    if ds.len() > 0 {
        lemma_graph_pairs_distinct(ds.drop_last());
        let k = kept_deps(ds.drop_last());
        if !k.map_values(|d: Dependency| dep_pair(d)).contains(dep_pair(ds.last())) {
            assert(graph_pairs(ds) =~= graph_pairs(ds.drop_last()).push(dep_pair(ds.last())));
        }
    }
}

/// The edges into unsettled nodes, sorted, each once.
fn cycle_edges(pairs: &Vec<(String, String)>, done: &StrMap<()>) -> (r: Vec<(String, String)>)
    requires
        pair_views(pairs@).no_duplicates(),
    ensures
        sorted_by_key(r@),
        pair_views(r@).no_duplicates(),
        forall|p: IdPair| pair_views(r@).contains(p) <==> pair_views(pairs@).contains(p) && !done.map().dom().contains(p.1),
{
    let ghost es = pair_views(pairs@);
    let mut hit: Vec<(String, String)> = Vec::new();
    let mut i: usize = 0;
    while i < pairs.len()
        invariant
            i <= pairs@.len(),
            es == pair_views(pairs@),
            es.no_duplicates(),
            forall|t: int| #![trigger pair_views(hit@)[t]] 0 <= t < hit@.len() ==> exists|j: int| 0 <= j < i && #[trigger] es[j] == pair_views(hit@)[t],
            forall|a: int, b: int| 0 <= a < b < hit@.len() ==> pair_views(hit@)[a] != pair_views(hit@)[b],
            forall|j: int| 0 <= j < i && !done.map().dom().contains(es[j].1) ==> pair_views(hit@).contains(#[trigger] es[j]),
            forall|t: int| 0 <= t < hit@.len() ==> !done.map().dom().contains(#[trigger] pair_views(hit@)[t].1),
            hit@.len() <= i,
        decreases pairs@.len() - i,
    {
        let p = &pairs[i];
        let ghost h0 = pair_views(hit@);
        assert(es[i as int] == (p.0@, p.1@));
        if !done.contains_key(p.1.as_str()) {
            hit.push((copy_string(&p.0), copy_string(&p.1)));
            proof {
                assert(pair_views(hit@) =~= h0.push(es[i as int]));
                assert forall|t: int| #![trigger pair_views(hit@)[t]] 0 <= t < hit@.len() implies exists|j: int| 0 <= j < i + 1 && #[trigger] es[j] == pair_views(hit@)[t] by {
                    if t < h0.len() {
                        let j = choose|j: int| 0 <= j < i && #[trigger] es[j] == h0[t];
                        assert(es[j] == pair_views(hit@)[t]);
                    } else {
                        assert(es[i as int] == pair_views(hit@)[t]);
                    }
                }
                assert forall|a: int, b: int| 0 <= a < b < hit@.len() implies pair_views(hit@)[a] != pair_views(hit@)[b] by {
                    if b == hit@.len() - 1 {
                        let j = choose|j: int| 0 <= j < i && #[trigger] es[j] == h0[a];
                        assert(es[j] != es[i as int]);
                    }
                }
                assert forall|j: int| 0 <= j < i + 1 && !done.map().dom().contains(es[j].1) implies pair_views(hit@).contains(#[trigger] es[j]) by {
                    if j < i {
                        let t = choose|t: int| 0 <= t < h0.len() && h0[t] == es[j];
                        assert(pair_views(hit@)[t] == es[j]);
                    } else {
                        assert(pair_views(hit@)[hit@.len() - 1] == es[j]);
                    }
                }
            }
        } else {
            proof {
                assert forall|j: int| 0 <= j < i + 1 && !done.map().dom().contains(es[j].1) implies pair_views(hit@).contains(#[trigger] es[j]) by {
                }
            }
        }
        i = i + 1;
    }
    let ghost hv = pair_views(hit@);
    let ghost h = hit@;
    proof {
        assert(hv.no_duplicates());
        assert forall|a: int, b: int| 0 <= a < h.len() && 0 <= b < h.len() && a != b implies h[a] != h[b] by {
            assert(hv[a] != hv[b]);
        }
        assert(h.no_duplicates());
    }
    let sorted = sort_by_key(hit);
    proof {
        broadcast use vstd::seq_lib::group_to_multiset_ensures;
        h.lemma_multiset_has_no_duplicates();
        sorted@.lemma_multiset_has_no_duplicates_conv();
        let sv = pair_views(sorted@);
        assert forall|j: int| 0 <= j < sorted@.len() implies h.contains(#[trigger] sorted@[j]) by {
            assert(sorted@.contains(sorted@[j]));
            assert(sorted@.to_multiset().count(sorted@[j]) > 0);
        }
        assert forall|j: int| 0 <= j < h.len() implies sorted@.contains(#[trigger] h[j]) by {
            assert(h.contains(h[j]));
            assert(h.to_multiset().count(h[j]) > 0);
        }
        assert forall|a: int, b: int| 0 <= a < sv.len() && 0 <= b < sv.len() && a != b implies sv[a] != sv[b] by {
            let ta = choose|t: int| 0 <= t < h.len() && h[t] == sorted@[a];
            let tb = choose|t: int| 0 <= t < h.len() && h[t] == sorted@[b];
            assert(sorted@[a] != sorted@[b]);
            assert(ta != tb);
            assert(hv[ta] != hv[tb]);
        }
        assert forall|p: IdPair| sv.contains(p) <==> es.contains(p) && !done.map().dom().contains(p.1) by {
            if sv.contains(p) {
                let j = choose|j: int| 0 <= j < sv.len() && sv[j] == p;
                let t = choose|t: int| 0 <= t < h.len() && h[t] == sorted@[j];
                assert(hv[t] == p);
                let k = choose|k: int| 0 <= k < pairs@.len() && #[trigger] es[k] == hv[t];
                assert(es.contains(p));
            }
            if es.contains(p) && !done.map().dom().contains(p.1) {
                let k = choose|k: int| 0 <= k < es.len() && es[k] == p;
                assert(hv.contains(es[k]));
                let t = choose|t: int| 0 <= t < hv.len() && hv[t] == p;
                assert(sorted@.contains(h[t]));
                let j = choose|j: int| 0 <= j < sorted@.len() && sorted@[j] == h[t];
                assert(sv[j] == p);
            }
        }
    }
    sorted
}

/// `g` is the graph of these tasks, dependencies and statuses: one edge per
/// distinct (blocker, blocked) pair in dependency order, one node per task
/// on an edge (stubs for unknown ones), each once and in node order, the
/// tasks on no edge listed in id order, the edges into cycles recorded, and
/// the nodes layered by longest blocker chain.
pub open spec fn built_from(g: IssueGraph, tasks: StrMap<Task>, deps: StrMap<Dependency>, statuses: StrMap<ResolvedStatus>) -> bool {
    let ds = dep_values(deps.pairs());
    let es = graph_pairs(ds);
    &&& g.edges@.len() == kept_deps(ds).len()
    &&& forall|i: int| 0 <= i < g.edges@.len() ==> edge_of(#[trigger] g.edges@[i], kept_deps(ds)[i], statuses.map())
    &&& forall|i: int| 0 <= i < g.nodes@.len() ==> node_shows(#[trigger] g.nodes@[i], tasks.map(), ds, statuses.map())
    &&& forall|x: Seq<char>| endpoint(es, x) ==> exists|i: int| 0 <= i < g.nodes@.len() && (#[trigger] g.nodes@[i]).task_id@ == x
    &&& forall|a: int, b: int| 0 <= a < g.nodes@.len() && 0 <= b < g.nodes@.len() && a != b
        ==> (#[trigger] g.nodes@[a]).task_id@ != (#[trigger] g.nodes@[b]).task_id@
    &&& sorted_by_key(g.nodes@)
    &&& g.unconnected@.map_values(|s: String| s@) == tasks.key_seq().filter(|k: Seq<char>| !endpoint(es, k))
    &&& sorted_by_key(g.broken_cycles@)
    &&& pair_views(g.broken_cycles@).no_duplicates()
    &&& forall|p: IdPair| pair_views(g.broken_cycles@).contains(p) <==> es.contains(p) && !settled(es, p.1)
    &&& is_layering(es, graph_layers(es))
}

/// An edge of the graph is drawn resolved exactly when its blocker has a
/// status and that status is closed: a blocker with no status (say a
/// cross-project task not yet synced) still blocks.
pub proof fn law_edge_resolved_iff_blocker_closed(
    g: IssueGraph,
    tasks: StrMap<Task>,
    deps: StrMap<Dependency>,
    statuses: StrMap<ResolvedStatus>,
    i: int,
)
    requires
        built_from(g, tasks, deps, statuses),
        0 <= i < g.edges@.len(),
    ensures
        g.edges@[i].resolved <==> (statuses.map().dom().contains(g.edges@[i].blocker_task_id@)
            && statuses.map()[g.edges@[i].blocker_task_id@].status == Status::Closed),
        !statuses.map().dom().contains(g.edges@[i].blocker_task_id@) ==> !g.edges@[i].resolved,
{
    assert(edge_of(g.edges@[i], kept_deps(dep_values(deps.pairs()))[i], statuses.map()));
}

/// Build the graph. `statuses` maps task id -> resolved status (any
/// precision; the graph only reads the open/closed bit). Tasks referenced by
/// an edge but absent from `tasks` become stub nodes rather than dropped edges.
pub fn build(tasks: &StrMap<Task>, deps: &StrMap<Dependency>, statuses: &StrMap<ResolvedStatus>) -> (g: IssueGraph)
    requires
        stubs_shortenable(tasks.map(), graph_pairs(dep_values(deps.pairs()))),
    ensures
        ({
            let ds = dep_values(deps.pairs());
            let es = graph_pairs(ds);
            &&& g.edges@.len() == kept_deps(ds).len()
            &&& forall|i: int| 0 <= i < g.edges@.len() ==> edge_of(#[trigger] g.edges@[i], kept_deps(ds)[i], statuses.map())
            &&& forall|i: int| 0 <= i < g.nodes@.len() ==> node_shows(#[trigger] g.nodes@[i], tasks.map(), ds, statuses.map())
            &&& forall|x: Seq<char>| endpoint(es, x) ==> exists|i: int| 0 <= i < g.nodes@.len() && (#[trigger] g.nodes@[i]).task_id@ == x
            &&& forall|a: int, b: int| 0 <= a < g.nodes@.len() && 0 <= b < g.nodes@.len() && a != b
                ==> (#[trigger] g.nodes@[a]).task_id@ != (#[trigger] g.nodes@[b]).task_id@
            &&& sorted_by_key(g.nodes@)
            &&& g.unconnected@.map_values(|s: String| s@) == tasks.key_seq().filter(|k: Seq<char>| !endpoint(es, k))
            &&& sorted_by_key(g.broken_cycles@)
            &&& pair_views(g.broken_cycles@).no_duplicates()
            &&& forall|p: IdPair| pair_views(g.broken_cycles@).contains(p) <==> es.contains(p) && !settled(es, p.1)
            &&& is_layering(es, graph_layers(es))
        }),
        built_from(g, *tasks, *deps, *statuses),
{
    let ghost ds = dep_values(deps.pairs());
    let ghost es = graph_pairs(ds);
    let (edges, pairs) = collect_edges(deps, statuses);
    let in_graph = endpoint_set(&pairs);
    let (layers, done) = layer_nodes(&in_graph, &pairs);
    let nodes0 = graph_nodes(&in_graph, &layers, tasks, deps, statuses);
    let ghost cs = nodes0@;
    proof {
        assert forall|a: int, b: int| 0 <= a < cs.len() && 0 <= b < cs.len() && a != b implies cs[a] != cs[b] by {
            if a < b {
                assert(str_lt(cs[a].task_id@, cs[b].task_id@));
            } else {
                assert(str_lt(cs[b].task_id@, cs[a].task_id@));
            }
        }
        assert(cs.no_duplicates());
    }
    let nodes = sort_by_key(nodes0);
    proof {
        broadcast use vstd::seq_lib::group_to_multiset_ensures;
        cs.lemma_multiset_has_no_duplicates();
        nodes@.lemma_multiset_has_no_duplicates_conv();
        assert forall|j: int| 0 <= j < nodes@.len() implies cs.contains(#[trigger] nodes@[j]) by {
            assert(nodes@.contains(nodes@[j]));
            assert(nodes@.to_multiset().count(nodes@[j]) > 0);
        }
        assert forall|j: int| 0 <= j < cs.len() implies nodes@.contains(#[trigger] cs[j]) by {
            assert(cs.contains(cs[j]));
            assert(cs.to_multiset().count(cs[j]) > 0);
        }
        assert forall|x: Seq<char>| endpoint(es, x) implies exists|i: int| 0 <= i < nodes@.len() && (#[trigger] nodes@[i]).task_id@ == x by {
            let c = choose|c: int| 0 <= c < cs.len() && (#[trigger] cs[c]).task_id@ == x;
            assert(nodes@.contains(cs[c]));
            let j = choose|j: int| 0 <= j < nodes@.len() && nodes@[j] == cs[c];
            assert(nodes@[j].task_id@ == x);
        }
        assert forall|a: int, b: int| 0 <= a < nodes@.len() && 0 <= b < nodes@.len() && a != b
            implies (#[trigger] nodes@[a]).task_id@ != (#[trigger] nodes@[b]).task_id@ by {
            assert(cs.contains(nodes@[a]));
            assert(cs.contains(nodes@[b]));
            let ca = choose|c: int| 0 <= c < cs.len() && cs[c] == nodes@[a];
            let cb = choose|c: int| 0 <= c < cs.len() && cs[c] == nodes@[b];
            assert(nodes@[a] != nodes@[b]);
            if ca < cb {
                assert(str_lt(cs[ca].task_id@, cs[cb].task_id@));
            } else if cb < ca {
                assert(str_lt(cs[cb].task_id@, cs[ca].task_id@));
            }
        }
        assert forall|i: int| 0 <= i < nodes@.len() implies node_shows(#[trigger] nodes@[i], tasks.map(), ds, statuses.map()) by {
            assert(cs.contains(nodes@[i]));
            let c = choose|c: int| 0 <= c < cs.len() && cs[c] == nodes@[i];
            assert(node_shows(cs[c], tasks.map(), ds, statuses.map()));
        }
    }
    let unconnected = unconnected_ids(tasks, &in_graph);
    proof {
        assert((|k: Seq<char>| !in_graph.map().dom().contains(k)) =~= (|k: Seq<char>| !endpoint(es, k)));
        lemma_graph_pairs_distinct(ds);
    }
    let broken_cycles = cycle_edges(&pairs, &done);
    proof {
        assert forall|p: IdPair| pair_views(broken_cycles@).contains(p) <==> es.contains(p) && !settled(es, p.1) by {
            if es.contains(p) {
                let i = choose|i: int| 0 <= i < es.len() && es[i] == p;
                assert(endpoint(es, p.1));
            }
        }
    }
    IssueGraph { nodes, edges, unconnected, broken_cycles }
}

/// Task id → task; of several tasks with one id, the last wins.
pub open spec fn tasks_by_id(ts: Seq<Task>) -> Map<Seq<char>, Task>
    decreases ts.len(),
{
    if ts.len() == 0 {
        Map::empty()
    } else {
        let rest = tasks_by_id(ts.drop_first());
        if rest.dom().contains(ts[0].id@) {
            rest
        } else {
            rest.insert(ts[0].id@, ts[0])
        }
    }
}

/// Dependency id → dependency; of several with one id, the last wins.
pub open spec fn deps_by_id(ds: Seq<Dependency>) -> Map<Seq<char>, Dependency>
    decreases ds.len(),
{
    if ds.len() == 0 {
        Map::empty()
    } else {
        let rest = deps_by_id(ds.drop_first());
        if rest.dom().contains(ds[0].id@) {
            rest
        } else {
            rest.insert(ds[0].id@, ds[0])
        }
    }
}

/// One project's statuses, from its status changes alone.
pub open spec fn project_statuses(tasks: Seq<Task>, changes: Seq<StatusChange>, pid: Seq<char>) -> Map<Seq<char>, ResolvedStatus> {
    Map::new(
        |k: Seq<char>| project_task_before(tasks, pid, k, tasks.len() as int),
        |k: Seq<char>| unanchored_of(changes, pid, k),
    )
}

/// The projects' statuses merged in the order given, a later project's
/// answer replacing an earlier one's.
pub open spec fn live_statuses(ps: Seq<String>, tasks: Seq<Task>, changes: Seq<StatusChange>) -> Map<Seq<char>, ResolvedStatus>
    decreases ps.len(),
{
    if ps.len() == 0 {
        Map::empty()
    } else {
        live_statuses(ps.drop_last(), tasks, changes).union_prefer_right(project_statuses(tasks, changes, ps.last()@))
    }
}

/// `ps` lists the tasks' projects, in order, each once.
pub open spec fn lists_projects(ps: Seq<String>, tasks: Seq<Task>) -> bool {
    &&& forall|x: Seq<char>| #[trigger] listed(ps, x) <==> has_project(tasks, x)
    &&& forall|a: int, b: int| 0 <= a < b < ps.len() ==> str_lt((#[trigger] ps[a])@, (#[trigger] ps[b])@)
}

/// Extending a prefix of a strictly sorted entry sequence by one entry adds
/// that entry to its map.
proof fn lemma_pairs_prefix_insert<V>(s: Seq<(Seq<char>, V)>, j: int)
    requires
        strictly_sorted(s),
        0 <= j < s.len(),
    ensures
        pairs_map(s.subrange(0, j + 1)) == pairs_map(s.subrange(0, j)).insert(s[j].0, s[j].1),
{
    let a = s.subrange(0, j);
    let b = s.subrange(0, j + 1);
    assert(strictly_sorted(a)) by {
        assert forall|x: int, y: int| 0 <= x < y < a.len() implies str_lt(a[x].0, a[y].0) by {
            assert(a[x] == s[x] && a[y] == s[y]);
        }
    }
    assert(strictly_sorted(b)) by {
        assert forall|x: int, y: int| 0 <= x < y < b.len() implies str_lt(b[x].0, b[y].0) by {
            assert(b[x] == s[x] && b[y] == s[y]);
        }
    }
    lemma_pairs_map_all(a);
    lemma_pairs_map_all(b);
    let m = pairs_map(a).insert(s[j].0, s[j].1);
    assert forall|k: Seq<char>| pairs_map(b).dom().contains(k) <==> m.dom().contains(k) by {
        crate::strmap::lemma_pairs_map_dom(a, k);
        crate::strmap::lemma_pairs_map_dom(b, k);
        if crate::strmap::has_key(b, k) {
            let i = choose|i: int| 0 <= i < b.len() && b[i].0 == k;
            if i < j {
                assert(a[i].0 == k);
            }
        }
        if crate::strmap::has_key(a, k) {
            let i = choose|i: int| 0 <= i < a.len() && a[i].0 == k;
            assert(b[i].0 == k);
        }
        if k == s[j].0 {
            assert(b[j].0 == k);
        }
    }
    assert forall|k: Seq<char>| #[trigger] pairs_map(b).dom().contains(k) implies pairs_map(b)[k] == m[k] by {
        crate::strmap::lemma_pairs_map_dom(b, k);
        let i = choose|i: int| 0 <= i < b.len() && b[i].0 == k;
        lemma_pairs_map_at(b, i);
        if i == j {
        } else {
            assert(a[i] == b[i]);
            lemma_pairs_map_at(a, i);
            assert(str_lt(s[i].0, s[j].0));
        }
    }
    assert(pairs_map(b) =~= m);
}

/// Every kept dependency is one of the dependencies.
proof fn lemma_kept_from(ds: Seq<Dependency>)
    ensures
        forall|i: int| 0 <= i < kept_deps(ds).len() ==> exists|j: int| 0 <= j < ds.len() && ds[j] == #[trigger] kept_deps(ds)[i],
    decreases ds.len(),
{
    if ds.len() > 0 {
        let p = ds.drop_last();
        lemma_kept_from(p);
        assert forall|i: int| 0 <= i < kept_deps(ds).len() implies exists|j: int| 0 <= j < ds.len() && ds[j] == #[trigger] kept_deps(ds)[i] by {
            if i < kept_deps(p).len() {
                let j = choose|j: int| 0 <= j < p.len() && p[j] == kept_deps(p)[i];
                assert(ds[j] == p[j]);
            } else {
                assert(ds[ds.len() - 1] == kept_deps(ds)[i]);
            }
        }
    }
}

/// Every dependency in the map is one of the input's.
proof fn lemma_deps_by_id_from(ds: Seq<Dependency>)
    ensures
        forall|k: Seq<char>| #[trigger] deps_by_id(ds).dom().contains(k) ==> exists|j: int| 0 <= j < ds.len() && ds[j] == deps_by_id(ds)[k],
    decreases ds.len(),
{
    if ds.len() > 0 {
        let r = ds.drop_first();
        lemma_deps_by_id_from(r);
        assert forall|k: Seq<char>| #[trigger] deps_by_id(ds).dom().contains(k) implies exists|j: int| 0 <= j < ds.len() && ds[j] == deps_by_id(ds)[k] by {
            if deps_by_id(r).dom().contains(k) && deps_by_id(ds)[k] == deps_by_id(r)[k] {
                let j = choose|j: int| 0 <= j < r.len() && r[j] == deps_by_id(r)[k];
                assert(ds[j + 1] == r[j]);
            } else {
                assert(ds[0] == deps_by_id(ds)[k]);
            }
        }
    }
}

/// The graph the dashboard's report computes from the hub's live entities:
/// every task keyed by id, every dependency keyed by id, and each project's
/// unanchored statuses (no commit facts, so it stays small).
pub fn build_from_live(tasks: Vec<Task>, deps: Vec<Dependency>, changes: &[StatusChange]) -> (g: IssueGraph)
    requires
        forall|i: int| 0 <= i < deps@.len() ==> cuttable((#[trigger] deps@[i]).blocker_task_id@, 8)
            && cuttable(deps@[i].blocked_task_id@, 8),
    ensures
        exists|t: StrMap<Task>, d: StrMap<Dependency>, s: StrMap<ResolvedStatus>, ps: Seq<String>|
            #![trigger built_from(g, t, d, s), live_statuses(ps, tasks@, changes@)]
            t.map() == tasks_by_id(tasks@) && d.map() == deps_by_id(deps@) && lists_projects(ps, tasks@)
                && s.map() == live_statuses(ps, tasks@, changes@) && built_from(g, t, d, s),
{
    let ghost ts = tasks@;
    let ghost dsin = deps@;
    let projects = task_projects(tasks.as_slice());
    let mut statuses: StrMap<ResolvedStatus> = StrMap::new();
    let mut p: usize = 0;
    while p < projects.len()
        invariant
            p <= projects@.len(),
            ts == tasks@,
            statuses.map() == live_statuses(projects@.subrange(0, p as int), ts, changes@),
        decreases projects@.len() - p,
    {
        let st = statuses_unanchored(tasks.as_slice(), changes, projects[p].as_str());
        let n = st.len();
        let ghost base = statuses.map();
        let mut j: usize = 0;
        proof {
            assert(st.pairs().subrange(0, 0) =~= Seq::<(Seq<char>, ResolvedStatus)>::empty());
            assert(pairs_map(Seq::<(Seq<char>, ResolvedStatus)>::empty()) =~= Map::<Seq<char>, ResolvedStatus>::empty());
            assert(base.union_prefer_right(Map::<Seq<char>, ResolvedStatus>::empty()) =~= base);
        }
        while j < n
            invariant
                j <= n,
                n == st.pairs().len(),
                strictly_sorted(st.pairs()),
                statuses.map() == base.union_prefer_right(pairs_map(st.pairs().subrange(0, j as int))),
            decreases n - j,
        {
            let k = copy_string(st.key_at(j));
            let v = *st.value_at(j);
            let ghost before = pairs_map(st.pairs().subrange(0, j as int));
            statuses.insert(k, v);
            proof {
                lemma_pairs_prefix_insert(st.pairs(), j as int);
                assert(statuses.map() =~= base.union_prefer_right(pairs_map(st.pairs().subrange(0, j + 1))));
            }
            j = j + 1;
        }
        proof {
            assert(st.pairs().subrange(0, n as int) =~= st.pairs());
            assert(st.map() =~= project_statuses(ts, changes@, projects@[p as int]@));
            assert(projects@.subrange(0, p + 1).drop_last() =~= projects@.subrange(0, p as int));
            assert(projects@.subrange(0, p + 1).last() == projects@[p as int]);
        }
        p = p + 1;
    }
    proof {
        assert(projects@.subrange(0, projects@.len() as int) =~= projects@);
    }

    let mut tmap: StrMap<Task> = StrMap::new();
    let mut rest = tasks;
    proof {
        assert(ts.subrange(ts.len() as int, ts.len() as int) =~= Seq::<Task>::empty());
        assert(rest@.subrange(0, rest@.len() as int) =~= rest@);
    }
    while rest.len() > 0
        invariant
            rest@ == ts.subrange(0, rest@.len() as int),
            rest@.len() <= ts.len(),
            tmap.map() == tasks_by_id(ts.subrange(rest@.len() as int, ts.len() as int)),
        decreases rest@.len(),
    {
        let ghost i = rest@.len() - 1;
        let t = match rest.pop() {
            Some(t) => t,
            None => {
                proof {
                    assert(false);
                }
                return IssueGraph { nodes: Vec::new(), edges: Vec::new(), unconnected: Vec::new(), broken_cycles: Vec::new() };
            },
        };
        proof {
            assert(t == ts[i]);
            assert(ts.subrange(i, ts.len() as int).drop_first() =~= ts.subrange(i + 1, ts.len() as int));
            assert(ts.subrange(i, ts.len() as int)[0] == ts[i]);
            assert(rest@ =~= ts.subrange(0, i));
        }
        if !tmap.contains_key(t.id.as_str()) {
            tmap.insert(copy_string(&t.id), t);
        }
    }

    let mut dmap: StrMap<Dependency> = StrMap::new();
    let mut drest = deps;
    proof {
        assert(drest@.subrange(0, drest@.len() as int) =~= drest@);
    }
    while drest.len() > 0
        invariant
            drest@ == dsin.subrange(0, drest@.len() as int),
            drest@.len() <= dsin.len(),
            dmap.map() == deps_by_id(dsin.subrange(drest@.len() as int, dsin.len() as int)),
        decreases drest@.len(),
    {
        let ghost i = drest@.len() - 1;
        let d = match drest.pop() {
            Some(d) => d,
            None => {
                proof {
                    assert(false);
                }
                return IssueGraph { nodes: Vec::new(), edges: Vec::new(), unconnected: Vec::new(), broken_cycles: Vec::new() };
            },
        };
        proof {
            assert(d == dsin[i]);
            assert(dsin.subrange(i, dsin.len() as int).drop_first() =~= dsin.subrange(i + 1, dsin.len() as int));
            assert(dsin.subrange(i, dsin.len() as int)[0] == dsin[i]);
            assert(drest@ =~= dsin.subrange(0, i));
        }
        if !dmap.contains_key(d.id.as_str()) {
            dmap.insert(copy_string(&d.id), d);
        }
    }
    proof {
        assert(ts.subrange(0, ts.len() as int) =~= ts);
        assert(dsin.subrange(0, dsin.len() as int) =~= dsin);
    }

    let _ = dmap.len();
    proof {
        let ds = dep_values(dmap.pairs());
        let es = graph_pairs(ds);
        lemma_kept_from(ds);
        lemma_deps_by_id_from(dsin);
        lemma_pairs_map_all(dmap.pairs());
        assert forall|x: Seq<char>| #[trigger] endpoint(es, x) && !tmap.map().dom().contains(x)
            implies bytes_of(x).len() <= 8 || is_char_boundary(bytes_of(x), 8) by {
            let i = choose|i: int| 0 <= i < es.len() && (es[i].0 == x || es[i].1 == x);
            let kd = kept_deps(ds)[i];
            assert(es[i] == dep_pair(kd));
            let j = choose|j: int| 0 <= j < ds.len() && ds[j] == kd;
            let key = dmap.pairs()[j].0;
            assert(ds[j] == dmap.pairs()[j].1);
            assert(dmap.map().dom().contains(key) && dmap.map()[key] == ds[j]);
            let m = choose|m: int| 0 <= m < dsin.len() && dsin[m] == deps_by_id(dsin)[key];
            assert(cuttable(dsin[m].blocker_task_id@, 8) && cuttable(dsin[m].blocked_task_id@, 8));
        }
    }
    let g = build(&tmap, &dmap, &statuses);
    proof {
        let ps = projects@;
        assert(lists_projects(ps, ts));
        assert(built_from(g, tmap, dmap, statuses));
    }
    g
}

} // verus!
