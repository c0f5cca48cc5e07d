//! What the dashboard's blocking-graph view decides before drawing: the
//! visible subset (closed tasks hidden unless asked for), the project
//! accent colors, labels and captions.

use vstd::prelude::*;

use crate::browse::{cuttable, first_bytes, head_bytes};
use crate::graph::{GraphEdge, GraphNode, IssueGraph};
use crate::ids::{join, joined};
use crate::resolve::{listed, Status};
use crate::sections::SectionPlan;
use crate::strmap::{lemma_pairs_map_all, strictly_sorted, StrMap};
use crate::text::{concat, copy_opt_string, copy_string, decimal, decimal_string, str_eq, str_lt};

verus! {

impl GraphNode {
    /// A field-for-field copy.
    pub fn copy(&self) -> (r: GraphNode)
        ensures
            r == *self,
    {
        GraphNode {
            task_id: copy_string(&self.task_id),
            project_id: copy_string(&self.project_id),
            title: copy_string(&self.title),
            priority: self.priority,
            status: self.status,
            layer: self.layer,
            stub: self.stub,
        }
    }
}

impl GraphEdge {
    /// A field-for-field copy.
    pub fn copy(&self) -> (r: GraphEdge)
        ensures
            r == *self,
    {
        GraphEdge {
            blocker_task_id: copy_string(&self.blocker_task_id),
            blocked_task_id: copy_string(&self.blocked_task_id),
            blocker_project_id: copy_opt_string(&self.blocker_project_id),
            via: copy_opt_string(&self.via),
            resolved: self.resolved,
        }
    }
}

/// Some node of `nodes` is task `id`.
pub open spec fn has_node(nodes: Seq<GraphNode>, id: Seq<char>) -> bool {
    exists|i: int| 0 <= i < nodes.len() && (#[trigger] nodes[i]).task_id@ == id
}

/// The nodes shown: all of them, or only those not closed.
pub open spec fn shown_nodes(nodes: Seq<GraphNode>, show_closed: bool) -> Seq<GraphNode> {
    if show_closed {
        nodes
    } else {
        nodes.filter(|n: GraphNode| n.status != Status::Closed)
    }
}

/// The edges shown: those whose two ends are both shown.
pub open spec fn shown_edges(edges: Seq<GraphEdge>, nodes: Seq<GraphNode>, show_closed: bool) -> Seq<GraphEdge> {
    if show_closed {
        edges
    } else {
        edges.filter(
            |e: GraphEdge|
                has_node(shown_nodes(nodes, false), e.blocker_task_id@) && has_node(shown_nodes(nodes, false), e.blocked_task_id@),
        )
    }
}

/// The graph as the view shows it: closed tasks, and the edges touching
/// them, hidden unless `show_closed`.
pub fn visible_graph(g: IssueGraph, show_closed: bool) -> (r: IssueGraph)
    ensures
        r.nodes@ == shown_nodes(g.nodes@, show_closed),
        r.edges@ == shown_edges(g.edges@, g.nodes@, show_closed),
        r.unconnected == g.unconnected,
        r.broken_cycles == g.broken_cycles,
{
    if show_closed {
        return g;
    }
    let ghost keep_p = |n: GraphNode| n.status != Status::Closed;
    let mut nodes: Vec<GraphNode> = Vec::new();
    let mut kept: StrMap<()> = StrMap::new();
    let mut i: usize = 0;
    proof {
        crate::seqs::lemma_filter_empty_prefix(g.nodes@, keep_p);
    }
    while i < g.nodes.len()
        invariant
            i <= g.nodes@.len(),
            keep_p == (|n: GraphNode| n.status != Status::Closed),
            nodes@ == g.nodes@.subrange(0, i as int).filter(keep_p),
            forall|k: Seq<char>| #[trigger] kept.map().dom().contains(k) <==> has_node(nodes@, k),
        decreases g.nodes@.len() - i,
    {
        proof {
            crate::seqs::lemma_filter_step(g.nodes@, keep_p, i as int);
        }
        let n = &g.nodes[i];
        if n.status != Status::Closed {
            let ghost before = nodes@;
            nodes.push(n.copy());
            kept.insert(copy_string(&n.task_id), ());
            proof {
                assert forall|k: Seq<char>| #[trigger] kept.map().dom().contains(k) <==> has_node(nodes@, k) by {
                    if has_node(nodes@, k) {
                        let j = choose|j: int| 0 <= j < nodes@.len() && (#[trigger] nodes@[j]).task_id@ == k;
                        if j < before.len() {
                            assert(before[j] == nodes@[j]);
                            assert(has_node(before, k));
                        }
                    }
                    if has_node(before, k) {
                        let j = choose|j: int| 0 <= j < before.len() && (#[trigger] before[j]).task_id@ == k;
                        assert(nodes@[j] == before[j]);
                    }
                    if k == n.task_id@ {
                        assert(nodes@[before.len() as int] == *n);
                    }
                }
            }
        }
        i = i + 1;
    }
    proof {
        crate::seqs::lemma_full_prefix(g.nodes@);
    }
    let ghost shown = nodes@;
    let ghost edge_p = |e: GraphEdge| has_node(shown, e.blocker_task_id@) && has_node(shown, e.blocked_task_id@);
    let mut edges: Vec<GraphEdge> = Vec::new();
    let mut j: usize = 0;
    proof {
        crate::seqs::lemma_filter_empty_prefix(g.edges@, edge_p);
    }
    while j < g.edges.len()
        invariant
            j <= g.edges@.len(),
            shown == shown_nodes(g.nodes@, false),
            edge_p == (|e: GraphEdge| has_node(shown, e.blocker_task_id@) && has_node(shown, e.blocked_task_id@)),
            forall|k: Seq<char>| #[trigger] kept.map().dom().contains(k) <==> has_node(shown, k),
            edges@ == g.edges@.subrange(0, j as int).filter(edge_p),
        decreases g.edges@.len() - j,
    {
        proof {
            crate::seqs::lemma_filter_step(g.edges@, edge_p, j as int);
        }
        let e = &g.edges[j];
        if kept.contains_key(e.blocker_task_id.as_str()) && kept.contains_key(e.blocked_task_id.as_str()) {
            edges.push(e.copy());
        }
        j = j + 1;
    }
    proof {
        crate::seqs::lemma_full_prefix(g.edges@);
        assert(edge_p == (|e: GraphEdge|
            has_node(shown_nodes(g.nodes@, false), e.blocker_task_id@) && has_node(shown_nodes(g.nodes@, false), e.blocked_task_id@)));
    }
    IssueGraph { nodes, edges, unconnected: g.unconnected, broken_cycles: g.broken_cycles }
}

/// The accent color for projects past the palette.
pub open spec fn other_color() -> Seq<char> {
    "#7c7a86"@
}

/// The categorical palette, in assignment order; gray past its end.
pub open spec fn palette_color(i: nat) -> Seq<char> {
    if i == 0 {
        "#3987e5"@
    } else if i == 1 {
        "#d95926"@
    } else if i == 2 {
        "#199e70"@
    } else if i == 3 {
        "#c98500"@
    } else if i == 4 {
        "#d55181"@
    } else if i == 5 {
        "#4f9e2f"@
    } else if i == 6 {
        "#9085e9"@
    } else {
        other_color()
    }
}

/// The `i`th palette color.
fn palette(i: usize) -> (r: &'static str)
    ensures
        r@ == palette_color(i as nat),
{
    proof {
        reveal_strlit("#7c7a86");
    }
    match i {
        0 => "#3987e5",
        1 => "#d95926",
        2 => "#199e70",
        3 => "#c98500",
        4 => "#d55181",
        5 => "#4f9e2f",
        6 => "#9085e9",
        _ => "#7c7a86",
    }
}

/// The projects of the shown nodes, sorted, each once, paired with their
/// accent colors in that order (never cycled: past the palette, gray).
pub fn project_colors(nodes: &[GraphNode]) -> (r: Vec<(String, String)>)
    ensures
        forall|x: Seq<char>| (exists|i: int| 0 <= i < r@.len() && (#[trigger] r@[i]).0@ == x)
            <==> project_shown(nodes@, x),
        forall|a: int, b: int| 0 <= a < b < r@.len() ==> str_lt((#[trigger] r@[a]).0@, (#[trigger] r@[b]).0@),
        forall|i: int| 0 <= i < r@.len() ==> (#[trigger] r@[i]).1@ == palette_color(i as nat),
{
    let mut set: StrMap<()> = StrMap::new();
    let mut i: usize = 0;
    while i < nodes.len()
        invariant
            i <= nodes@.len(),
            forall|k: Seq<char>| #[trigger] set.map().dom().contains(k) <==> exists|j: int| 0 <= j < i && (#[trigger] nodes@[j]).project_id@ == k,
        decreases nodes@.len() - i,
    {
        set.insert(copy_string(&nodes[i].project_id), ());
        proof {
            assert forall|k: Seq<char>| #[trigger] set.map().dom().contains(k) <==> exists|j: int| 0 <= j < i + 1 && (#[trigger] nodes@[j]).project_id@ == k by {
                if exists|j: int| 0 <= j < i + 1 && (#[trigger] nodes@[j]).project_id@ == k {
                    let j = choose|j: int| 0 <= j < i + 1 && (#[trigger] nodes@[j]).project_id@ == k;
                    if j < i {
                        assert(exists|j2: int| 0 <= j2 < i && (#[trigger] nodes@[j2]).project_id@ == k);
                    }
                }
            }
        }
        i = i + 1;
    }
    let n = set.len();
    let mut out: Vec<(String, String)> = Vec::new();
    let mut k: usize = 0;
    while k < n
        invariant
            k <= n,
            n == set.pairs().len(),
            strictly_sorted(set.pairs()),
            out@.len() == k,
            forall|t: int| 0 <= t < k ==> (#[trigger] out@[t]).0@ == set.pairs()[t].0 && out@[t].1@ == palette_color(t as nat),
        decreases n - k,
    {
        out.push((copy_string(set.key_at(k)), palette(k).to_owned()));
        k = k + 1;
    }
    proof {
        lemma_pairs_map_all(set.pairs());
        assert forall|x: Seq<char>| (exists|i: int| 0 <= i < out@.len() && (#[trigger] out@[i]).0@ == x)
            <==> project_shown(nodes@, x) by {
            if exists|i: int| 0 <= i < out@.len() && (#[trigger] out@[i]).0@ == x {
                let i = choose|i: int| 0 <= i < out@.len() && (#[trigger] out@[i]).0@ == x;
                assert(set.map().dom().contains(set.pairs()[i].0));
            }
            if project_shown(nodes@, x) {
                assert(set.map().dom().contains(x));
                let i = choose|i: int| 0 <= i < set.pairs().len() && set.pairs()[i].0 == x;
                assert(out@[i].0@ == x);
            }
        }
        assert forall|a: int, b: int| 0 <= a < b < out@.len() implies str_lt((#[trigger] out@[a]).0@, (#[trigger] out@[b]).0@) by {
            assert(out@[a].0@ == set.pairs()[a].0);
            assert(out@[b].0@ == set.pairs()[b].0);
        }
    }
    out
}

/// Some node belongs to project `x`.
pub open spec fn project_shown(nodes: Seq<GraphNode>, x: Seq<char>) -> bool {
    exists|j: int| 0 <= j < nodes.len() && (#[trigger] nodes[j]).project_id@ == x
}

/// The color of the first entry for `pid`, else gray.
pub open spec fn color_of(colors: Seq<(String, String)>, pid: Seq<char>) -> Seq<char>
    decreases colors.len(),
{
    if colors.len() == 0 {
        other_color()
    } else if colors[0].0@ == pid {
        colors[0].1@
    } else {
        color_of(colors.drop_first(), pid)
    }
}

/// The accent color of project `pid`.
pub fn color_for(colors: &[(String, String)], pid: &str) -> (r: String)
    ensures
        r@ == color_of(colors@, pid@),
{
    let mut i: usize = 0;
    assert(colors@.skip(0) =~= colors@);
    while i < colors.len()
        invariant
            i <= colors@.len(),
            color_of(colors@, pid@) == color_of(colors@.skip(i as int), pid@),
        decreases colors@.len() - i,
    {
        proof {
            assert(colors@.skip(i as int).drop_first() =~= colors@.skip(i + 1));
        }
        if str_eq(colors[i].0.as_str(), pid) {
            return copy_string(&colors[i].1);
        }
        i = i + 1;
    }
    proof {
        reveal_strlit("#7c7a86");
    }
    "#7c7a86".to_owned()
}

/// The human name of project `pid` when known, else its first eight bytes.
pub fn project_label(pid: &str, names: &StrMap<String>) -> (r: String)
    requires
        cuttable(pid@, 8),
    ensures
        r@ == (if names.map().dom().contains(pid@) {
            names.map()[pid@]@
        } else {
            head_bytes(pid@, 8)
        }),
{
    match names.get(pid) {
        Some(n) => copy_string(n),
        None => first_bytes(pid, 8).to_owned(),
    }
}

/// A graph card's display id: `lv-` and the first six bytes of the id.
pub fn card_id(task_id: &str) -> (r: String)
    requires
        cuttable(task_id@, 6),
    ensures
        r@ == "lv-"@ + head_bytes(task_id@, 6),
{
    concat("lv-", first_bytes(task_id, 6))
}

/// The caption under the graph.
pub fn graph_caption(g: &IssueGraph) -> (r: String)
    ensures
        r@ == decimal(g.nodes@.len()) + " tasks in the graph · "@ + decimal(g.unconnected@.len())
            + " not blocked · dashed edge = blocker already closed"@,
{
    let a = concat(decimal_string(g.nodes.len()).as_str(), " tasks in the graph · ");
    let b = concat(a.as_str(), decimal_string(g.unconnected.len()).as_str());
    concat(b.as_str(), " not blocked · dashed edge = blocker already closed")
}

/// The note shown when cycles were broken for layout.
pub fn cycles_note(cycles: usize) -> (r: String)
    ensures
        r@ == decimal(cycles as nat) + " dependency cycle(s) broken for layout"@,
{
    concat(decimal_string(cycles).as_str(), " dependency cycle(s) broken for layout")
}

/// What the view says when no edge is left to draw.
pub fn nothing_blocked(unconnected: usize) -> (r: String)
    ensures
        r@ == "Nothing is blocked — "@ + decimal(unconnected as nat) + " tasks across all projects, no dependencies between them."@,
{
    let a = concat("Nothing is blocked — ", decimal_string(unconnected).as_str());
    concat(a.as_str(), " tasks across all projects, no dependencies between them.")
}

/// A section's task count: "1 task", "N tasks".
pub fn task_count_text(count: usize) -> (r: String)
    ensures
        r@ == decimal(count as nat) + " task"@ + (if count == 1 { Seq::<char>::empty() } else { "s"@ }),
{
    let a = concat(decimal_string(count).as_str(), " task");
    if count == 1 {
        proof {
            assert(a@ + Seq::<char>::empty() =~= a@);
        }
        a
    } else {
        concat(a.as_str(), "s")
    }
}

/// Task id → node; a later node with the same id replaces an earlier one.
pub open spec fn nodes_map(nodes: Seq<GraphNode>) -> Map<Seq<char>, GraphNode>
    decreases nodes.len(),
{
    if nodes.len() == 0 {
        Map::empty()
    } else {
        nodes_map(nodes.drop_last()).insert(nodes.last().task_id@, nodes.last())
    }
}

/// The graph's nodes by task id.
pub fn nodes_by_id(nodes: &[GraphNode]) -> (r: StrMap<GraphNode>)
    ensures
        r.map() == nodes_map(nodes@),
{
    let mut m: StrMap<GraphNode> = StrMap::new();
    let mut i: usize = 0;
    while i < nodes.len()
        invariant
            i <= nodes@.len(),
            m.map() == nodes_map(nodes@.subrange(0, i as int)),
        decreases nodes@.len() - i,
    {
        proof {
            assert(nodes@.subrange(0, i + 1).drop_last() =~= nodes@.subrange(0, i as int));
        }
        m.insert(copy_string(&nodes[i].task_id), nodes[i].copy());
        i = i + 1;
    }
    assert(nodes@.subrange(0, nodes@.len() as int) =~= nodes@);
    m
}

/// How many base blockers a section header names.
pub const ROOTS_SHOWN: usize = 3;

/// The named roots among `ids`: each that is a node, as its card id and its
/// project's color.
pub open spec fn roots_view(ids: Seq<String>, m: Map<Seq<char>, GraphNode>, colors: Seq<(String, String)>) -> Seq<(Seq<char>, Seq<char>)>
    decreases ids.len(),
{
    if ids.len() == 0 {
        Seq::empty()
    } else {
        let prev = roots_view(ids.drop_last(), m, colors);
        let id = ids.last()@;
        if m.dom().contains(id) {
            prev.push(("lv-"@ + head_bytes(m[id].task_id@, 6), color_of(colors, m[id].project_id@)))
        } else {
            prev
        }
    }
}

/// A node's project as the header names it.
pub open spec fn label_of(n: GraphNode, names: Map<Seq<char>, String>) -> Seq<char> {
    if names.dom().contains(n.project_id@) {
        names[n.project_id@]@
    } else {
        head_bytes(n.project_id@, 8)
    }
}

/// Some node of the section, among `ids`, is labelled `x`.
pub open spec fn section_has_label(ids: Seq<String>, m: Map<Seq<char>, GraphNode>, names: Map<Seq<char>, String>, x: Seq<char>) -> bool {
    exists|i: int| 0 <= i < ids.len() && m.dom().contains((#[trigger] ids[i])@) && label_of(m[ids[i]@], names) == x
}

/// The header of one section: its first base blockers, how many more there
/// are, and its projects' labels (sorted, each once) and their listing.
#[derive(Clone, Debug)]
pub struct SectionHead {
    pub roots: Vec<(String, String)>,
    pub extra: usize,
    pub project_labels: Vec<String>,
    pub projects: String,
}

/// The header of a laid-out section: "close these to unblock N tasks".
pub fn section_head(plan: &SectionPlan, by_id: &StrMap<GraphNode>, colors: &[(String, String)], names: &StrMap<String>) -> (r: SectionHead)
    requires
        forall|k: Seq<char>| #[trigger] by_id.map().dom().contains(k) ==> cuttable(by_id.map()[k].task_id@, 6)
            && cuttable(by_id.map()[k].project_id@, 8),
    ensures
        r.roots@.map_values(|p: (String, String)| (p.0@, p.1@)) == roots_view(
            plan.root_ids@.take(if plan.root_ids@.len() < ROOTS_SHOWN { plan.root_ids@.len() as int } else { ROOTS_SHOWN as int }),
            by_id.map(),
            colors@,
        ),
        r.extra == (if plan.root_ids@.len() > ROOTS_SHOWN { plan.root_ids@.len() - ROOTS_SHOWN } else { 0 }),
        forall|x: Seq<char>| #[trigger] listed(r.project_labels@, x) <==> section_has_label(plan.node_ids@, by_id.map(), names.map(), x),
        forall|a: int, b: int| 0 <= a < b < r.project_labels@.len() ==> str_lt((#[trigger] r.project_labels@[a])@, (#[trigger] r.project_labels@[b])@),
        r.projects@ == joined(r.project_labels@, ", "@),
{
    let ghost m = by_id.map();
    let n_roots = plan.root_ids.len();
    let shown = if n_roots < ROOTS_SHOWN { n_roots } else { ROOTS_SHOWN };
    let ghost rs = plan.root_ids@.take(shown as int);
    let mut roots: Vec<(String, String)> = Vec::new();
    let mut i: usize = 0;
    while i < shown
        invariant
            i <= shown,
            shown <= plan.root_ids@.len(),
            rs == plan.root_ids@.take(shown as int),
            m == by_id.map(),
            forall|k: Seq<char>| #[trigger] m.dom().contains(k) ==> cuttable(m[k].task_id@, 6),
            roots@.map_values(|p: (String, String)| (p.0@, p.1@)) == roots_view(rs.subrange(0, i as int), m, colors@),
        decreases shown - i,
    {
        proof {
            assert(rs.subrange(0, i + 1).drop_last() =~= rs.subrange(0, i as int));
            assert(rs.subrange(0, i + 1).last() == plan.root_ids@[i as int]);
        }
        match by_id.get(plan.root_ids[i].as_str()) {
            Some(n) => {
                let ghost before = roots@;
                roots.push((card_id(n.task_id.as_str()), color_for(colors, n.project_id.as_str())));
                proof {
                    assert(roots@.map_values(|p: (String, String)| (p.0@, p.1@)) =~= before.map_values(
                        |p: (String, String)| (p.0@, p.1@),
                    ).push((roots@.last().0@, roots@.last().1@)));
                }
            },
            None => {},
        }
        i = i + 1;
    }
    assert(rs.subrange(0, shown as int) =~= rs);
    let extra = if n_roots > ROOTS_SHOWN { n_roots - ROOTS_SHOWN } else { 0 };

    let mut set: StrMap<()> = StrMap::new();
    let mut j: usize = 0;
    while j < plan.node_ids.len()
        invariant
            j <= plan.node_ids@.len(),
            m == by_id.map(),
            forall|k: Seq<char>| #[trigger] m.dom().contains(k) ==> cuttable(m[k].project_id@, 8),
            forall|x: Seq<char>| #[trigger] set.map().dom().contains(x) <==> section_has_label(plan.node_ids@.subrange(0, j as int), m, names.map(), x),
        decreases plan.node_ids@.len() - j,
    {
        let ghost before = set.map();
        let ghost pre = plan.node_ids@.subrange(0, j as int);
        let ghost post = plan.node_ids@.subrange(0, j + 1);
        match by_id.get(plan.node_ids[j].as_str()) {
            Some(n) => {
                let label = project_label(n.project_id.as_str(), names);
                set.insert(label, ());
            },
            None => {},
        }
        proof {
            assert forall|x: Seq<char>| #[trigger] set.map().dom().contains(x) <==> section_has_label(post, m, names.map(), x) by {
                if section_has_label(post, m, names.map(), x) {
                    let i = choose|i: int| 0 <= i < post.len() && m.dom().contains((#[trigger] post[i])@) && label_of(m[post[i]@], names.map()) == x;
                    if i < j {
                        assert(pre[i] == post[i]);
                        assert(section_has_label(pre, m, names.map(), x));
                    }
                }
                if before.dom().contains(x) {
                    let i = choose|i: int| 0 <= i < pre.len() && m.dom().contains((#[trigger] pre[i])@) && label_of(m[pre[i]@], names.map()) == x;
                    assert(post[i] == pre[i]);
                }
                if set.map().dom().contains(x) && !before.dom().contains(x) {
                    assert(post[j as int] == plan.node_ids@[j as int]);
                }
            }
        }
        j = j + 1;
    }
    assert(plan.node_ids@.subrange(0, plan.node_ids@.len() as int) =~= plan.node_ids@);

    let n = set.len();
    let mut labels: Vec<String> = Vec::new();
    let mut k: usize = 0;
    while k < n
        invariant
            k <= n,
            n == set.pairs().len(),
            strictly_sorted(set.pairs()),
            labels@.len() == k,
            forall|t: int| 0 <= t < k ==> (#[trigger] labels@[t])@ == set.pairs()[t].0,
        decreases n - k,
    {
        labels.push(copy_string(set.key_at(k)));
        k = k + 1;
    }
    proof {
        lemma_pairs_map_all(set.pairs());
        assert forall|x: Seq<char>| #[trigger] listed(labels@, x) <==> section_has_label(plan.node_ids@, m, names.map(), x) by {
            if listed(labels@, x) {
                let i = choose|i: int| 0 <= i < labels@.len() && (#[trigger] labels@[i])@ == x;
                assert(set.map().dom().contains(set.pairs()[i].0));
            }
            if section_has_label(plan.node_ids@, m, names.map(), x) {
                assert(set.map().dom().contains(x));
                let i = choose|i: int| 0 <= i < set.pairs().len() && set.pairs()[i].0 == x;
                assert(labels@[i]@ == x);
            }
        }
        assert forall|a: int, b: int| 0 <= a < b < labels@.len() implies str_lt((#[trigger] labels@[a])@, (#[trigger] labels@[b])@) by {
            assert(labels@[a]@ == set.pairs()[a].0);
            assert(labels@[b]@ == set.pairs()[b].0);
        }
    }
    let projects = join(&labels, ", ");
    SectionHead { roots, extra, project_labels: labels, projects }
}

} // verus!
