//! The blocking graph is drawn one section per weakly-connected component:
//! each independent blocking web on its own, biggest and most important
//! first. This is how the sections and their columns are chosen.

use vstd::prelude::*;

use crate::resolve::listed;
use crate::strmap::{lemma_pairs_map_all, strictly_sorted, StrMap};
use crate::sort::{sort_by_key, sorted_by_key, stable_sorted, SortKey};
use crate::text::{copy_string, lemma_str_le_total, lemma_str_le_trans, str_le, str_le_exec};

verus! {

/// Edge `e` joins `a` and `b`, either way round.
pub open spec fn edge_joins(e: (String, String), a: Seq<char>, b: Seq<char>) -> bool {
    (e.0@ == a && e.1@ == b) || (e.0@ == b && e.1@ == a)
}

/// Some edge joins nodes `a` and `b` (both among `ids`).
pub open spec fn touches(ids: Seq<String>, edges: Seq<(String, String)>, a: Seq<char>, b: Seq<char>) -> bool {
    &&& listed(ids, a)
    &&& listed(ids, b)
    &&& exists|k: int| 0 <= k < edges.len() && #[trigger] edge_joins(edges[k], a, b)
}

/// `p` steps from node to node along edges, ignoring their direction.
pub open spec fn is_chain(ids: Seq<String>, edges: Seq<(String, String)>, p: Seq<Seq<char>>) -> bool {
    &&& p.len() > 0
    &&& forall|i: int| 0 <= i < p.len() - 1 ==> #[trigger] touches(ids, edges, p[i], p[i + 1])
}

/// `a` and `b` lie in the same weakly-connected component.
pub open spec fn joined(ids: Seq<String>, edges: Seq<(String, String)>, a: Seq<char>, b: Seq<char>) -> bool {
    exists|p: Seq<Seq<char>>| #[trigger] is_chain(ids, edges, p) && p[0] == a && p.last() == b
}

proof fn lemma_joined_refl(ids: Seq<String>, edges: Seq<(String, String)>, a: Seq<char>)
    ensures
        joined(ids, edges, a, a),
{
    let p = seq![a];
    assert(is_chain(ids, edges, p));
}

proof fn lemma_joined_step(ids: Seq<String>, edges: Seq<(String, String)>, a: Seq<char>, b: Seq<char>, c: Seq<char>)
    requires
        joined(ids, edges, a, b),
        touches(ids, edges, b, c),
    ensures
        joined(ids, edges, a, c),
{
    let p = choose|p: Seq<Seq<char>>| #[trigger] is_chain(ids, edges, p) && p[0] == a && p.last() == b;
    let q = p.push(c);
    assert forall|i: int| 0 <= i < q.len() - 1 implies #[trigger] touches(ids, edges, q[i], q[i + 1]) by {
        if i < p.len() - 1 {
            assert(q[i] == p[i] && q[i + 1] == p[i + 1]);
        }
    }
    assert(is_chain(ids, edges, q));
}

proof fn lemma_touches_sym(ids: Seq<String>, edges: Seq<(String, String)>, a: Seq<char>, b: Seq<char>)
    requires
        touches(ids, edges, a, b),
    ensures
        touches(ids, edges, b, a),
{
    let k = choose|k: int| 0 <= k < edges.len() && #[trigger] edge_joins(edges[k], a, b);
    assert(edge_joins(edges[k], b, a));
}

proof fn lemma_joined_sym(ids: Seq<String>, edges: Seq<(String, String)>, a: Seq<char>, b: Seq<char>)
    requires
        joined(ids, edges, a, b),
    ensures
        joined(ids, edges, b, a),
{
    let p = choose|p: Seq<Seq<char>>| #[trigger] is_chain(ids, edges, p) && p[0] == a && p.last() == b;
    let q = p.reverse();
    assert forall|i: int| 0 <= i < q.len() - 1 implies #[trigger] touches(ids, edges, q[i], q[i + 1]) by {
        let j = p.len() - 2 - i;
        assert(touches(ids, edges, p[j], p[j + 1]));
        assert(q[i] == p[j + 1] && q[i + 1] == p[j]);
        lemma_touches_sym(ids, edges, p[j], p[j + 1]);
    }
    assert(is_chain(ids, edges, q));
}

proof fn lemma_joined_trans(ids: Seq<String>, edges: Seq<(String, String)>, a: Seq<char>, b: Seq<char>, c: Seq<char>)
    requires
        joined(ids, edges, a, b),
        joined(ids, edges, b, c),
    ensures
        joined(ids, edges, a, c),
{
    let p = choose|p: Seq<Seq<char>>| #[trigger] is_chain(ids, edges, p) && p[0] == a && p.last() == b;
    let q = choose|q: Seq<Seq<char>>| #[trigger] is_chain(ids, edges, q) && q[0] == b && q.last() == c;
    let r = p + q.drop_first();
    assert forall|i: int| 0 <= i < r.len() - 1 implies #[trigger] touches(ids, edges, r[i], r[i + 1]) by {
        if i < p.len() - 1 {
            assert(r[i] == p[i] && r[i + 1] == p[i + 1]);
        } else {
            let j = i - (p.len() - 1);
            assert(touches(ids, edges, q[j], q[j + 1]));
            if i == p.len() - 1 {
                assert(r[i] == p.last());
            } else {
                assert(r[i] == q[j]);
            }
            assert(r[i + 1] == q[j + 1]);
        }
    }
    assert(is_chain(ids, edges, r));
    if q.len() == 1 {
        assert(r.last() == p.last());
    } else {
        assert(r.last() == q.last());
    }
}

/// Every node of a chain that starts in a set closed under `touches` is in it.
proof fn lemma_chain_in_closed(
    ids: Seq<String>,
    edges: Seq<(String, String)>,
    s: Set<Seq<char>>,
    p: Seq<Seq<char>>,
    i: int,
)
    requires
        is_chain(ids, edges, p),
        s.contains(p[0]),
        forall|a: Seq<char>, b: Seq<char>| s.contains(a) && #[trigger] touches(ids, edges, a, b) ==> s.contains(b),
        0 <= i < p.len(),
    ensures
        s.contains(p[i]),
    decreases i,
{
    if i > 0 {
        lemma_chain_in_closed(ids, edges, s, p, i - 1);
        let j = i - 1;
        assert(touches(ids, edges, p[j], p[j + 1]));
    }
}

/// The views of a list of strings, as a set.
pub open spec fn id_set(ids: Seq<String>) -> Set<Seq<char>> {
    ids.map_values(|s: String| s@).to_set()
}

proof fn lemma_id_set(ids: Seq<String>)
    ensures
        id_set(ids).finite(),
        forall|x: Seq<char>| #[trigger] id_set(ids).contains(x) <==> listed(ids, x),
{
    let v = ids.map_values(|s: String| s@);
    v.lemma_cardinality_of_set();
    assert forall|x: Seq<char>| #[trigger] id_set(ids).contains(x) <==> listed(ids, x) by {
        if v.contains(x) {
            let i = choose|i: int| 0 <= i < v.len() && v[i] == x;
            assert(ids[i]@ == x);
        }
        if listed(ids, x) {
            let i = choose|i: int| 0 <= i < ids.len() && ids[i]@ == x;
            assert(v[i] == x);
        }
    }
}

/// The nodes as a lookup set.
fn node_set(ids: &[String]) -> (r: StrMap<()>)
    ensures
        forall|x: Seq<char>| #[trigger] r.map().dom().contains(x) <==> listed(ids@, x),
{
    let mut out: StrMap<()> = StrMap::new();
    let mut i: usize = 0;
    while i < ids.len()
        invariant
            i <= ids@.len(),
            forall|x: Seq<char>| #[trigger] out.map().dom().contains(x) <==> listed(ids@.subrange(0, i as int), x),
        decreases ids@.len() - i,
    {
        out.insert(copy_string(&ids[i]), ());
        proof {
            assert forall|x: Seq<char>| #[trigger] out.map().dom().contains(x) <==> listed(ids@.subrange(0, i + 1), x) by {
                let pre = ids@.subrange(0, i as int);
                let post = ids@.subrange(0, i + 1);
                if listed(post, x) {
                    let j = choose|j: int| 0 <= j < post.len() && post[j]@ == x;
                    if j < i {
                        assert(pre[j] == post[j]);
                    }
                }
                if listed(pre, x) {
                    let j = choose|j: int| 0 <= j < pre.len() && pre[j]@ == x;
                    assert(post[j] == pre[j]);
                }
                if x == ids@[i as int]@ {
                    assert(post[i as int] == ids@[i as int]);
                }
            }
        }
        i = i + 1;
    }
    assert(ids@.subrange(0, ids@.len() as int) =~= ids@);
    out
}

/// The component of `rep`: every node joined to it.
fn component_of(ids: &[String], nodes: &StrMap<()>, edges: &[(String, String)], rep: &str) -> (r: StrMap<()>)
    requires
        listed(ids@, rep@),
        forall|x: Seq<char>| #[trigger] nodes.map().dom().contains(x) <==> listed(ids@, x),
    ensures
        forall|x: Seq<char>| #[trigger] r.map().dom().contains(x) <==> joined(ids@, edges@, rep@, x),
{
    let ghost univ = id_set(ids@);
    proof {
        lemma_id_set(ids@);
        lemma_joined_refl(ids@, edges@, rep@);
    }
    let mut s: StrMap<()> = StrMap::new();
    s.insert(rep.to_owned(), ());
    loop
        invariant
            univ == id_set(ids@),
            univ.finite(),
            forall|x: Seq<char>| #[trigger] univ.contains(x) <==> listed(ids@, x),
            forall|x: Seq<char>| #[trigger] nodes.map().dom().contains(x) <==> listed(ids@, x),
            listed(ids@, rep@),
            s.map().dom().contains(rep@),
            forall|x: Seq<char>| #[trigger] s.map().dom().contains(x) ==> joined(ids@, edges@, rep@, x) && univ.contains(x),
        decreases univ.difference(s.map().dom()).len(),
    {
        let ghost start = s.map().dom();
        let mut changed = false;
        let mut k: usize = 0;
        while k < edges.len()
            invariant
                k <= edges@.len(),
                univ == id_set(ids@),
                univ.finite(),
                forall|x: Seq<char>| #[trigger] univ.contains(x) <==> listed(ids@, x),
                forall|x: Seq<char>| #[trigger] nodes.map().dom().contains(x) <==> listed(ids@, x),
                s.map().dom().contains(rep@),
                forall|x: Seq<char>| #[trigger] s.map().dom().contains(x) ==> joined(ids@, edges@, rep@, x) && univ.contains(x),
                start.subset_of(s.map().dom()),
                changed ==> exists|x: Seq<char>| s.map().dom().contains(x) && !start.contains(x),
                !changed ==> s.map().dom() == start,
                !changed ==> forall|j: int| 0 <= j < k && listed(ids@, (#[trigger] edges@[j]).0@) && listed(ids@, edges@[j].1@)
                    ==> (start.contains(edges@[j].0@) <==> start.contains(edges@[j].1@)),
            decreases edges@.len() - k,
        {
            let a = &edges[k].0;
            let b = &edges[k].1;
            if nodes.contains_key(a.as_str()) && nodes.contains_key(b.as_str()) {
                let ina = s.contains_key(a.as_str());
                let inb = s.contains_key(b.as_str());
                if ina && !inb {
                    proof {
                        assert(edge_joins(edges@[k as int], a@, b@));
                        assert(touches(ids@, edges@, a@, b@));
                        lemma_joined_step(ids@, edges@, rep@, a@, b@);
                    }
                    s.insert(copy_string(b), ());
                    changed = true;
                } else if inb && !ina {
                    proof {
                        assert(edge_joins(edges@[k as int], b@, a@));
                        assert(touches(ids@, edges@, b@, a@));
                        lemma_joined_step(ids@, edges@, rep@, b@, a@);
                    }
                    s.insert(copy_string(a), ());
                    changed = true;
                }
            }
            k = k + 1;
        }
        if !changed {
            proof {
                assert forall|x: Seq<char>, y: Seq<char>| s.map().dom().contains(x) && #[trigger] touches(ids@, edges@, x, y)
                    implies s.map().dom().contains(y) by {
                    let j = choose|j: int| 0 <= j < edges@.len() && #[trigger] edge_joins(edges@[j], x, y);
                    assert(listed(ids@, edges@[j].0@) && listed(ids@, edges@[j].1@));
                }
                assert forall|x: Seq<char>| #[trigger] s.map().dom().contains(x) <==> joined(ids@, edges@, rep@, x) by {
                    if joined(ids@, edges@, rep@, x) {
                        let p = choose|p: Seq<Seq<char>>| #[trigger] is_chain(ids@, edges@, p) && p[0] == rep@ && p.last() == x;
                        lemma_chain_in_closed(ids@, edges@, s.map().dom(), p, p.len() - 1);
                    }
                }
            }
            return s;
        }
        proof {
            let x = choose|x: Seq<char>| s.map().dom().contains(x) && !start.contains(x);
            assert(univ.difference(s.map().dom()).subset_of(univ.difference(start).remove(x)));
            vstd::set_lib::lemma_len_subset(univ.difference(s.map().dom()), univ.difference(start).remove(x));
        }
    }
}

/// The representatives of the components, in order of first appearance:
/// each node not joined to an earlier representative starts a component.
pub open spec fn reps_spec(ids: Seq<String>, edges: Seq<(String, String)>, xs: Seq<Seq<char>>) -> Seq<Seq<char>>
    decreases xs.len(),
{
    if xs.len() == 0 {
        Seq::empty()
    } else {
        let prev = reps_spec(ids, edges, xs.drop_last());
        let x = xs.last();
        if exists|g: int| 0 <= g < prev.len() && joined(ids, edges, #[trigger] prev[g], x) {
            prev
        } else {
            prev.push(x)
        }
    }
}

/// The nodes joined to `rep`, in node order.
pub open spec fn component_members(ids: Seq<String>, edges: Seq<(String, String)>, rep: Seq<char>) -> Seq<Seq<char>> {
    ids.map_values(|s: String| s@).filter(|x: Seq<char>| joined(ids, edges, rep, x))
}

/// The weakly-connected components of the graph on `ids` (edges with an end
/// outside `ids` are ignored): one list of nodes per component, in node
/// order, components in order of their first node.
pub fn components(ids: &[String], edges: &[(String, String)]) -> (r: Vec<Vec<String>>)
    ensures
        ({
            let reps = reps_spec(ids@, edges@, ids@.map_values(|s: String| s@));
            &&& r@.len() == reps.len()
            &&& forall|g: int| 0 <= g < r@.len() ==> (#[trigger] r@[g])@.map_values(|s: String| s@)
                == component_members(ids@, edges@, reps[g])
        }),
{
    let ghost views = ids@.map_values(|s: String| s@);
    let nodes = node_set(ids);
    let mut reps: Vec<String> = Vec::new();
    let mut assigned: StrMap<()> = StrMap::new();
    let mut groups: Vec<Vec<String>> = Vec::new();
    let mut i: usize = 0;
    while i < ids.len()
        invariant
            i <= ids@.len(),
            views == ids@.map_values(|s: String| s@),
            forall|x: Seq<char>| #[trigger] nodes.map().dom().contains(x) <==> listed(ids@, x),
            reps@.map_values(|s: String| s@) == reps_spec(ids@, edges@, views.subrange(0, i as int)),
            groups@.len() == reps@.len(),
            forall|g: int| 0 <= g < groups@.len() ==> (#[trigger] groups@[g])@.map_values(|s: String| s@)
                == component_members(ids@, edges@, reps@[g]@),
            forall|x: Seq<char>| #[trigger] assigned.map().dom().contains(x)
                <==> exists|g: int| 0 <= g < reps@.len() && joined(ids@, edges@, (#[trigger] reps@[g])@, x),
        decreases ids@.len() - i,
    {
        let id = &ids[i];
        let ghost prev = reps_spec(ids@, edges@, views.subrange(0, i as int));
        proof {
            assert(views.subrange(0, i + 1).drop_last() =~= views.subrange(0, i as int));
            assert(views.subrange(0, i + 1).last() == id@);
            assert((exists|g: int| 0 <= g < prev.len() && joined(ids@, edges@, #[trigger] prev[g], id@))
                <==> (exists|g: int| 0 <= g < reps@.len() && joined(ids@, edges@, (#[trigger] reps@[g])@, id@))) by {
                if exists|g: int| 0 <= g < prev.len() && joined(ids@, edges@, #[trigger] prev[g], id@) {
                    let g = choose|g: int| 0 <= g < prev.len() && joined(ids@, edges@, #[trigger] prev[g], id@);
                    assert(reps@.map_values(|s: String| s@)[g] == reps@[g]@);
                }
                if exists|g: int| 0 <= g < reps@.len() && joined(ids@, edges@, (#[trigger] reps@[g])@, id@) {
                    let g = choose|g: int| 0 <= g < reps@.len() && joined(ids@, edges@, (#[trigger] reps@[g])@, id@);
                    assert(reps@.map_values(|s: String| s@)[g] == reps@[g]@);
                }
            }
        }
        if !assigned.contains_key(id.as_str()) {
            proof {
                assert(listed(ids@, id@)) by {
                    assert(ids@[i as int]@ == id@);
                }
            }
            let comp = component_of(ids, &nodes, edges, id.as_str());
            let ghost keep = |x: Seq<char>| joined(ids@, edges@, id@, x);
            let mut group: Vec<String> = Vec::new();
            let mut j: usize = 0;
            proof {
                crate::seqs::lemma_filter_empty_prefix(views, keep);
            }
            while j < ids.len()
                invariant
                    j <= ids@.len(),
                    views == ids@.map_values(|s: String| s@),
                    keep == (|x: Seq<char>| joined(ids@, edges@, id@, x)),
                    forall|x: Seq<char>| #[trigger] comp.map().dom().contains(x) <==> joined(ids@, edges@, id@, x),
                    group@.map_values(|s: String| s@) == views.subrange(0, j as int).filter(keep),
                decreases ids@.len() - j,
            {
                proof {
                    crate::seqs::lemma_filter_step(views, keep, j as int);
                }
                if comp.contains_key(ids[j].as_str()) {
                    let ghost before = group@;
                    group.push(copy_string(&ids[j]));
                    assert(group@.map_values(|s: String| s@) =~= before.map_values(|s: String| s@).push(views[j as int]));
                }
                j = j + 1;
            }
            proof {
                crate::seqs::lemma_full_prefix(views);
            }
            let n = comp.len();
            let mut t: usize = 0;
            let ghost assigned0 = assigned.map().dom();
            proof {
                lemma_pairs_map_all(comp.pairs());
            }
            while t < n
                invariant
                    t <= n,
                    n == comp.pairs().len(),
                    strictly_sorted(comp.pairs()),
                    forall|x: Seq<char>| #[trigger] comp.map().dom().contains(x) <==> joined(ids@, edges@, id@, x),
                    forall|q: int| #![trigger comp.pairs()[q]] 0 <= q < comp.pairs().len() ==> comp.map().dom().contains(comp.pairs()[q].0),
                    forall|x: Seq<char>| #[trigger] assigned.map().dom().contains(x)
                        <==> assigned0.contains(x) || exists|q: int| 0 <= q < t && comp.pairs()[q].0 == x,
                decreases n - t,
            {
                assigned.insert(copy_string(comp.key_at(t)), ());
                proof {
                    assert forall|x: Seq<char>| #[trigger] assigned.map().dom().contains(x)
                        <==> assigned0.contains(x) || exists|q: int| 0 <= q < t + 1 && comp.pairs()[q].0 == x by {
                        if exists|q: int| 0 <= q < t + 1 && comp.pairs()[q].0 == x {
                            let q = choose|q: int| 0 <= q < t + 1 && comp.pairs()[q].0 == x;
                            if q < t {
                                assert(exists|q2: int| 0 <= q2 < t && comp.pairs()[q2].0 == x);
                            }
                        }
                    }
                }
                t = t + 1;
            }
            let ghost before_reps = reps@;
            reps.push(copy_string(id));
            groups.push(group);
            proof {
                lemma_pairs_map_all(comp.pairs());
                assert(reps@.map_values(|s: String| s@) =~= before_reps.map_values(|s: String| s@).push(id@));
                assert forall|x: Seq<char>| #[trigger] assigned.map().dom().contains(x)
                    <==> exists|g: int| 0 <= g < reps@.len() && joined(ids@, edges@, (#[trigger] reps@[g])@, x) by {
                    if assigned.map().dom().contains(x) {
                        if assigned0.contains(x) {
                            let g = choose|g: int| 0 <= g < before_reps.len() && joined(ids@, edges@, (#[trigger] before_reps[g])@, x);
                            assert(reps@[g] == before_reps[g]);
                        } else {
                            let q = choose|q: int| 0 <= q < n && comp.pairs()[q].0 == x;
                            assert(comp.map().dom().contains(x));
                            assert(reps@[before_reps.len() as int]@ == id@);
                        }
                    }
                    if exists|g: int| 0 <= g < reps@.len() && joined(ids@, edges@, (#[trigger] reps@[g])@, x) {
                        let g = choose|g: int| 0 <= g < reps@.len() && joined(ids@, edges@, (#[trigger] reps@[g])@, x);
                        if g < before_reps.len() {
                            assert(reps@[g] == before_reps[g]);
                            assert(assigned0.contains(x));
                        } else {
                            assert(comp.map().dom().contains(x));
                            let q = choose|q: int| 0 <= q < comp.pairs().len() && comp.pairs()[q].0 == x;
                        }
                    }
                }
                assert forall|g: int| 0 <= g < groups@.len() implies (#[trigger] groups@[g])@.map_values(|s: String| s@)
                    == component_members(ids@, edges@, reps@[g]@) by {
                    if g == groups@.len() - 1 {
                        assert(reps@[g]@ == id@);
                    }
                }
            }
        }
        i = i + 1;
    }
    assert(views.subrange(0, ids@.len() as int) =~= views);
    proof {
        let reps_s = reps_spec(ids@, edges@, views);
        assert forall|g: int| 0 <= g < groups@.len() implies (#[trigger] groups@[g])@.map_values(|s: String| s@)
            == component_members(ids@, edges@, reps_s[g]) by {
            assert(reps@.map_values(|s: String| s@)[g] == reps@[g]@);
        }
    }
    groups
}

/// A node of a column, ordered by (priority rank, id).
#[derive(Debug, Clone)]
pub struct Ranked {
    pub prio: u8,
    pub id: String,
}

impl SortKey for Ranked {
    open spec fn key_le_spec(&self, other: &Self) -> bool {
        ||| self.prio < other.prio
        ||| self.prio == other.prio && str_le(self.id@, other.id@)
    }

    proof fn lemma_key_le_total(a: &Self, b: &Self) {
        lemma_str_le_total(a.id@, b.id@);
    }

    proof fn lemma_key_le_trans(a: &Self, b: &Self, c: &Self) {
        if a.prio == b.prio && b.prio == c.prio {
            lemma_str_le_trans(a.id@, b.id@, c.id@);
        }
    }

    fn key_le(&self, other: &Self) -> (r: bool) {
        self.prio < other.prio || (self.prio == other.prio && str_le_exec(self.id.as_str(), other.id.as_str()))
    }
}

/// The nodes of `ids` on layer `l`, with their priority ranks, in node order.
pub open spec fn on_layer(ids: Seq<String>, layer_of: Map<Seq<char>, usize>, prio_of: Map<Seq<char>, u8>, l: usize) -> Seq<Ranked>
    decreases ids.len(),
{
    if ids.len() == 0 {
        Seq::empty()
    } else {
        let prev = on_layer(ids.drop_last(), layer_of, prio_of, l);
        let x = ids.last();
        if layer_of[x@] == l {
            prev.push(Ranked { prio: prio_of[x@], id: x })
        } else {
            prev
        }
    }
}

/// Some node of `ids` is on layer `l`.
pub open spec fn layer_present(ids: Seq<String>, layer_of: Map<Seq<char>, usize>, l: usize) -> bool {
    exists|i: int| 0 <= i < ids.len() && layer_of[(#[trigger] ids[i])@] == l
}

/// The least priority rank among the nodes (`u8::MAX` when there are none).
pub open spec fn best_rank_of(ids: Seq<String>, prio_of: Map<Seq<char>, u8>) -> u8
    decreases ids.len(),
{
    if ids.len() == 0 {
        u8::MAX
    } else {
        let prev = best_rank_of(ids.drop_last(), prio_of);
        let p = prio_of[ids.last()@];
        if p < prev {
            p
        } else {
            prev
        }
    }
}

/// One section of the graph, before rows are ordered for drawing.
#[derive(Debug, Clone)]
pub struct SectionPlan {
    /// The component's nodes, in node order.
    pub node_ids: Vec<String>,
    /// The layers present, increasing: column `c` draws layer `layers[c]`.
    pub layers: Vec<usize>,
    /// Each column's nodes, by (priority rank, id).
    pub columns: Vec<Vec<String>>,
    /// The first column: the base blockers gating the whole section.
    pub root_ids: Vec<String>,
    /// The best (lowest) priority rank present.
    pub best_rank: u8,
}

/// Whether the `c`th column holds exactly the nodes on `l`, in order.
pub open spec fn column_is(col: Seq<String>, ids: Seq<String>, layer_of: Map<Seq<char>, usize>, prio_of: Map<Seq<char>, u8>, l: usize) -> bool {
    col.map_values(|s: String| s@) == stable_sorted(on_layer(ids, layer_of, prio_of, l)).map_values(|r: Ranked| r.id@)
}

/// `p` lays out the nodes `ids`: the layers present, increasing, one
/// column per layer holding its nodes by (priority rank, id), the first
/// column as the roots, and the best priority rank.
pub open spec fn is_plan_of(p: SectionPlan, ids: Seq<String>, layer_of: Map<Seq<char>, usize>, prio_of: Map<Seq<char>, u8>) -> bool {
    &&& forall|a: int, b: int| 0 <= a < b < p.layers@.len() ==> p.layers@[a] < p.layers@[b]
    &&& forall|l: usize| p.layers@.contains(l) <==> layer_present(ids, layer_of, l)
    &&& p.columns@.len() == p.layers@.len()
    &&& forall|c: int| 0 <= c < p.columns@.len() ==> column_is(#[trigger] p.columns@[c]@, ids, layer_of, prio_of, p.layers@[c])
    &&& p.root_ids@ == (if p.columns@.len() > 0 { p.columns@[0]@ } else { Seq::<String>::empty() })
    &&& p.best_rank == best_rank_of(ids, prio_of)
}

/// Lay out one component: its layers made contiguous columns (gaps left by
/// hidden nodes closed up), each column ordered by (priority rank, id).
pub fn plan_section(ids: Vec<String>, layer_of: &StrMap<usize>, prio_of: &StrMap<u8>) -> (r: SectionPlan)
    requires
        forall|i: int| 0 <= i < ids@.len() ==> layer_of.map().dom().contains((#[trigger] ids@[i])@) && prio_of.map().dom().contains(ids@[i]@),
    ensures
        r.node_ids@ == ids@,
        is_plan_of(r, ids@, layer_of.map(), prio_of.map()),
{
    // The present layers, increasing.
    let mut layers: Vec<usize> = Vec::new();
    let mut best: u8 = 255;
    let mut i: usize = 0;
    while i < ids.len()
        invariant
            i <= ids@.len(),
            forall|i: int| 0 <= i < ids@.len() ==> layer_of.map().dom().contains((#[trigger] ids@[i])@) && prio_of.map().dom().contains(ids@[i]@),
            forall|a: int, b: int| 0 <= a < b < layers@.len() ==> layers@[a] < layers@[b],
            forall|l: usize| layers@.contains(l) <==> layer_present(ids@.subrange(0, i as int), layer_of.map(), l),
            best == best_rank_of(ids@.subrange(0, i as int), prio_of.map()),
        decreases ids@.len() - i,
    {
        let ghost pre = ids@.subrange(0, i as int);
        let ghost post = ids@.subrange(0, i + 1);
        proof {
            assert(post.drop_last() =~= pre);
            assert(post.last() == ids@[i as int]);
        }
        let l = *layer_of.get(ids[i].as_str()).unwrap();
        let p = *prio_of.get(ids[i].as_str()).unwrap();
        if p < best {
            best = p;
        }
        // Insert `l` into the increasing list unless present.
        let mut k: usize = 0;
        while k < layers.len() && layers[k] < l
            invariant
                k <= layers@.len(),
                forall|t: int| 0 <= t < k ==> layers@[t] < l,
            decreases layers@.len() - k,
        {
            k = k + 1;
        }
        let ghost before = layers@;
        if k == layers.len() || layers[k] != l {
            layers.insert(k, l);
            proof {
                assert forall|a: int, b: int| 0 <= a < b < layers@.len() implies layers@[a] < layers@[b] by {
                    if b < k as int {
                        assert(layers@[a] == before[a] && layers@[b] == before[b]);
                    } else if b == k as int {
                        assert(layers@[a] == before[a]);
                    } else if a == k as int {
                        assert(layers@[b] == before[b - 1]);
                        if b - 1 > k as int {
                            assert(before[k as int] < before[b - 1]);
                        }
                    } else if a < k as int {
                        assert(layers@[a] == before[a] && layers@[b] == before[b - 1]);
                    } else {
                        assert(layers@[a] == before[a - 1] && layers@[b] == before[b - 1]);
                    }
                }
                assert forall|m: usize| layers@.contains(m) <==> before.contains(m) || m == l by {
                    if layers@.contains(m) {
                        let t = choose|t: int| 0 <= t < layers@.len() && layers@[t] == m;
                        if t < k as int {
                            assert(before[t] == m);
                        } else if t > k as int {
                            assert(before[t - 1] == m);
                        }
                    }
                    if before.contains(m) {
                        let t = choose|t: int| 0 <= t < before.len() && before[t] == m;
                        if t < k as int {
                            assert(layers@[t] == m);
                        } else {
                            assert(layers@[t + 1] == m);
                        }
                    }
                    if m == l {
                        assert(layers@[k as int] == l);
                    }
                }
            }
        } else {
            proof {
                assert forall|m: usize| layers@.contains(m) <==> before.contains(m) || m == l by {
                    if m == l {
                        assert(before[k as int] == l);
                    }
                }
            }
        }
        proof {
            assert forall|m: usize| layers@.contains(m) <==> layer_present(post, layer_of.map(), m) by {
                assert(layers@.contains(m) <==> before.contains(m) || m == l);
                assert(before.contains(m) <==> layer_present(pre, layer_of.map(), m));
                if layer_present(post, layer_of.map(), m) {
                    let t = choose|t: int| 0 <= t < post.len() && layer_of.map()[(#[trigger] post[t])@] == m;
                    if t < i as int {
                        assert(pre[t] == post[t]);
                        assert(layer_present(pre, layer_of.map(), m));
                    } else {
                        assert(m == l);
                    }
                }
                if layer_present(pre, layer_of.map(), m) {
                    let t = choose|t: int| 0 <= t < pre.len() && layer_of.map()[(#[trigger] pre[t])@] == m;
                    assert(post[t] == pre[t]);
                }
                if m == l {
                    assert(post[i as int] == ids@[i as int]);
                    assert(layer_of.map()[post[i as int]@] == m);
                    assert(layer_present(post, layer_of.map(), m));
                }
            }
        }
        i = i + 1;
    }
    assert(ids@.subrange(0, ids@.len() as int) =~= ids@);
    // One column per present layer.
    let mut columns: Vec<Vec<String>> = Vec::new();
    let mut c: usize = 0;
    while c < layers.len()
        invariant
            c <= layers@.len(),
            forall|i: int| 0 <= i < ids@.len() ==> layer_of.map().dom().contains((#[trigger] ids@[i])@) && prio_of.map().dom().contains(ids@[i]@),
            columns@.len() == c,
            forall|t: int| 0 <= t < c ==> column_is(#[trigger] columns@[t]@, ids@, layer_of.map(), prio_of.map(), layers@[t]),
        decreases layers@.len() - c,
    {
        let l = layers[c];
        let mut col: Vec<Ranked> = Vec::new();
        let mut j: usize = 0;
        while j < ids.len()
            invariant
                j <= ids@.len(),
                forall|i: int| 0 <= i < ids@.len() ==> layer_of.map().dom().contains((#[trigger] ids@[i])@) && prio_of.map().dom().contains(ids@[i]@),
                col@ == on_layer(ids@.subrange(0, j as int), layer_of.map(), prio_of.map(), l),
            decreases ids@.len() - j,
        {
            proof {
                assert(ids@.subrange(0, j + 1).drop_last() =~= ids@.subrange(0, j as int));
                assert(ids@.subrange(0, j + 1).last() == ids@[j as int]);
            }
            let lj = *layer_of.get(ids[j].as_str()).unwrap();
            if lj == l {
                let p = *prio_of.get(ids[j].as_str()).unwrap();
                col.push(Ranked { prio: p, id: copy_string(&ids[j]) });
            }
            j = j + 1;
        }
        assert(ids@.subrange(0, ids@.len() as int) =~= ids@);
        let sorted = sort_by_key(col);
        let mut names: Vec<String> = Vec::new();
        let mut k: usize = 0;
        while k < sorted.len()
            invariant
                k <= sorted@.len(),
                names@.map_values(|s: String| s@) == sorted@.subrange(0, k as int).map_values(|r: Ranked| r.id@),
            decreases sorted@.len() - k,
        {
            let ghost before = names@;
            names.push(copy_string(&sorted[k].id));
            assert(names@.map_values(|s: String| s@) =~= before.map_values(|s: String| s@).push(sorted@[k as int].id@));
            assert(sorted@.subrange(0, k + 1).map_values(|r: Ranked| r.id@) =~= sorted@.subrange(0, k as int).map_values(
                |r: Ranked| r.id@,
            ).push(sorted@[k as int].id@));
            k = k + 1;
        }
        assert(sorted@.subrange(0, sorted@.len() as int) =~= sorted@);
        columns.push(names);
        c = c + 1;
    }
    let root_ids = if columns.len() > 0 {
        let mut v: Vec<String> = Vec::new();
        let mut k: usize = 0;
        while k < columns[0].len()
            invariant
                columns@.len() > 0,
                k <= columns@[0]@.len(),
                v@ == columns@[0]@.subrange(0, k as int),
            decreases columns@[0]@.len() - k,
        {
            v.push(copy_string(&columns[0][k]));
            assert(v@ =~= columns@[0]@.subrange(0, k + 1));
            k = k + 1;
        }
        assert(columns@[0]@.subrange(0, columns@[0]@.len() as int) =~= columns@[0]@);
        v
    } else {
        Vec::new()
    };
    SectionPlan { node_ids: ids, layers, columns, root_ids, best_rank: best }
}

/// `a`'s first node sorts no later than `b`'s (a section with no nodes first).
pub open spec fn first_le(a: Seq<String>, b: Seq<String>) -> bool {
    if a.len() == 0 {
        true
    } else if b.len() == 0 {
        false
    } else {
        str_le(a[0]@, b[0]@)
    }
}

impl SortKey for SectionPlan {
    /// Biggest first, then the best priority, then by first node.
    open spec fn key_le_spec(&self, other: &Self) -> bool {
        ||| self.node_ids@.len() > other.node_ids@.len()
        ||| self.node_ids@.len() == other.node_ids@.len() && self.best_rank < other.best_rank
        ||| self.node_ids@.len() == other.node_ids@.len() && self.best_rank == other.best_rank && first_le(self.node_ids@, other.node_ids@)
    }

    proof fn lemma_key_le_total(a: &Self, b: &Self) {
        if a.node_ids@.len() > 0 && b.node_ids@.len() > 0 {
            lemma_str_le_total(a.node_ids@[0]@, b.node_ids@[0]@);
        }
    }

    proof fn lemma_key_le_trans(a: &Self, b: &Self, c: &Self) {
        if a.node_ids@.len() > 0 && b.node_ids@.len() > 0 && c.node_ids@.len() > 0 && str_le(a.node_ids@[0]@, b.node_ids@[0]@)
            && str_le(b.node_ids@[0]@, c.node_ids@[0]@) {
            lemma_str_le_trans(a.node_ids@[0]@, b.node_ids@[0]@, c.node_ids@[0]@);
        }
    }

    fn key_le(&self, other: &Self) -> (r: bool) {
        let (la, lb) = (self.node_ids.len(), other.node_ids.len());
        if la != lb {
            return la > lb;
        }
        if self.best_rank != other.best_rank {
            return self.best_rank < other.best_rank;
        }
        if la == 0 {
            return true;
        }
        str_le_exec(self.node_ids[0].as_str(), other.node_ids[0].as_str())
    }
}

/// A member of a component is a node.
proof fn lemma_member_listed(ids: Seq<String>, edges: Seq<(String, String)>, rep: Seq<char>, g: Seq<String>, t: int)
    requires
        g.map_values(|s: String| s@) == component_members(ids, edges, rep),
        0 <= t < g.len(),
    ensures
        listed(ids, g[t]@),
{
    let views = ids.map_values(|s: String| s@);
    let keep = |x: Seq<char>| joined(ids, edges, rep, x);
    let fv = views.filter(keep);
    assert(g.map_values(|s: String| s@)[t] == g[t]@);
    assert(fv[t] == g[t]@);
    assert(fv.contains(fv[t]));
    views.lemma_filter_contains_rev(keep, fv[t]);
    let k = choose|k: int| 0 <= k < views.len() && views[k] == fv[t];
    assert(views[k] == ids[k]@);
}

/// The sections of the graph on `ids`: one per weakly-connected component,
/// biggest first, then by best priority, then by first node.
#[verifier::rlimit(40)]
pub fn build_sections(ids: &[String], edges: &[(String, String)], layer_of: &StrMap<usize>, prio_of: &StrMap<u8>) -> (r: Vec<SectionPlan>)
    requires
        forall|i: int| 0 <= i < ids@.len() ==> layer_of.map().dom().contains((#[trigger] ids@[i])@) && prio_of.map().dom().contains(ids@[i]@),
    ensures
        ({
            let reps = reps_spec(ids@, edges@, ids@.map_values(|s: String| s@));
            &&& r@.len() == reps.len()
            &&& sorted_by_key(r@)
            &&& forall|i: int| 0 <= i < r@.len() ==> exists|g: int| 0 <= g < reps.len()
                && (#[trigger] r@[i]).node_ids@.map_values(|s: String| s@) == component_members(ids@, edges@, reps[g])
                && is_plan_of(r@[i], r@[i].node_ids@, layer_of.map(), prio_of.map())
            &&& forall|g: int| #![trigger reps[g]] 0 <= g < reps.len() ==> exists|i: int| 0 <= i < r@.len()
                && (#[trigger] r@[i]).node_ids@.map_values(|s: String| s@) == component_members(ids@, edges@, reps[g])
        }),
{
    let ghost reps = reps_spec(ids@, edges@, ids@.map_values(|s: String| s@));
    let comps = components(ids, edges);
    let mut plans: Vec<SectionPlan> = Vec::new();
    let mut comps_left = comps;
    let ghost all = comps_left@;
    // Pop from the back; order is restored by the sort below.
    while comps_left.len() > 0
        invariant
            comps_left@.len() + plans@.len() == all.len(),
            all.len() == reps.len(),
            forall|t: int| 0 <= t < comps_left@.len() ==> comps_left@[t] == all[t],
            forall|g: int| 0 <= g < all.len() ==> (#[trigger] all[g])@.map_values(|s: String| s@) == component_members(ids@, edges@, reps[g]),
            forall|i: int| 0 <= i < ids@.len() ==> layer_of.map().dom().contains((#[trigger] ids@[i])@) && prio_of.map().dom().contains(ids@[i]@),
            forall|t: int| 0 <= t < plans@.len() ==> (#[trigger] plans@[t]).node_ids@ == all[all.len() - 1 - t]@
                && is_plan_of(plans@[t], plans@[t].node_ids@, layer_of.map(), prio_of.map()),
        decreases comps_left@.len(),
    {
        let g = comps_left.pop().unwrap();
        let ghost gi = comps_left@.len() as int;
        assert(g == all[gi]);
        proof {
            assert forall|t: int| 0 <= t < g@.len() implies layer_of.map().dom().contains((#[trigger] g@[t])@) && prio_of.map().dom().contains(g@[t]@) by {
                lemma_member_listed(ids@, edges@, reps[gi], g@, t);
                let k = choose|k: int| 0 <= k < ids@.len() && ids@[k]@ == g@[t]@;
            }
        }
        let p = plan_section(g, layer_of, prio_of);
        plans.push(p);
    }
    let sorted = sort_by_key(plans);
    proof {
        broadcast use vstd::seq_lib::group_to_multiset_ensures;
        vstd::seq_lib::to_multiset_len(sorted@);
        vstd::seq_lib::to_multiset_len(plans@);
        assert(sorted@.len() == plans@.len());
        assert forall|i: int| 0 <= i < sorted@.len() implies exists|g: int| 0 <= g < reps.len()
            && (#[trigger] sorted@[i]).node_ids@.map_values(|s: String| s@) == component_members(ids@, edges@, reps[g])
            && is_plan_of(sorted@[i], sorted@[i].node_ids@, layer_of.map(), prio_of.map()) by {
            assert(sorted@.to_multiset().count(sorted@[i]) > 0);
            assert(plans@.to_multiset().count(sorted@[i]) > 0);
            assert(plans@.contains(sorted@[i]));
            let t = choose|t: int| 0 <= t < plans@.len() && plans@[t] == sorted@[i];
            let g = all.len() - 1 - t;
            assert(sorted@[i].node_ids@ == all[g]@);
        }
        assert forall|g: int| #![trigger reps[g]] 0 <= g < reps.len() implies exists|i: int| 0 <= i < sorted@.len()
            && (#[trigger] sorted@[i]).node_ids@.map_values(|s: String| s@) == component_members(ids@, edges@, reps[g]) by {
            let t = all.len() - 1 - g;
            assert(plans@[t].node_ids@ == all[g]@);
            assert(plans@.to_multiset().count(plans@[t]) > 0);
            assert(sorted@.to_multiset().count(plans@[t]) > 0);
            assert(sorted@.contains(plans@[t]));
            let i = choose|i: int| 0 <= i < sorted@.len() && sorted@[i] == plans@[t];
            assert(sorted@[i].node_ids@ == all[g]@);
        }
    }
    sorted
}

} // verus!
