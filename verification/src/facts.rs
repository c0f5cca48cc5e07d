//! The facts leg: publish CommitFacts (sha -> parents) for the ancestors of
//! anchor commits and branch heads, depth-capped, and RefFacts for branch
//! tips. The walk is a state machine: the caller looks commits up in the
//! repository and hands back what it found, layer by layer.

use vstd::prelude::*;

use crate::entities::{ref_fact_id, CommitFact, RefFact, StatusChange};
use crate::strmap::StrMap;
use crate::text::{copy_string, copy_strings, str_eq};
use vstd::string::StrSliceExecFns;

verus! {

/// How many parent layers the walk descends at most.
pub const DEPTH_CAP: usize = 2000;

/// What `gix::ObjectId::from_hex` makes of a sha's text: the object id in
/// canonical (lowercase hex) form, or nothing when it is not a full hex id.
pub uninterp spec fn parsed_oid(sha: Seq<char>) -> Option<Seq<char>>;

/// Calls `gix::ObjectId::from_hex` on the sha's bytes and renders the id
/// with `to_string`; claims only that the result is `parsed_oid` of the
/// text (a function of the text alone).
#[verifier::external_body]
pub(crate) fn oid_of(sha: &str) -> (r: Option<String>)
    ensures
        match r {
            Some(s) => parsed_oid(sha@) == Some(s@),
            None => parsed_oid(sha@).is_none(),
        },
{
    match gix::ObjectId::from_hex(sha.as_bytes()) {
        Ok(oid) => Some(oid.to_string()),
        Err(_) => None,
    }
}

/// The object ids of the anchors that parse, in change order.
pub open spec fn anchor_oids(changes: Seq<StatusChange>) -> Seq<Seq<char>>
    decreases changes.len(),
{
    if changes.len() == 0 {
        Seq::empty()
    } else {
        let prev = anchor_oids(changes.drop_last());
        match changes.last().anchor_commit {
            Some(sha) => match parsed_oid(sha@) {
                Some(o) => prev.push(o),
                None => prev,
            },
            None => prev,
        }
    }
}

/// The walk's roots from the log: every anchor commit that is a valid id.
pub fn anchor_roots(changes: &Vec<StatusChange>) -> (r: Vec<String>)
    ensures
        r@.map_values(|s: String| s@) == anchor_oids(changes@),
{
    let mut out: Vec<String> = Vec::new();
    let mut i: usize = 0;
    while i < changes.len()
        invariant
            i <= changes@.len(),
            out@.map_values(|s: String| s@) == anchor_oids(changes@.subrange(0, i as int)),
        decreases changes@.len() - i,
    {
        proof {
            assert(changes@.subrange(0, i + 1).drop_last() =~= changes@.subrange(0, i as int));
        }
        let ghost before = out@;
        match &changes[i].anchor_commit {
            Some(sha) => match oid_of(sha.as_str()) {
                Some(o) => {
                    out.push(o);
                    assert(out@.map_values(|s: String| s@) =~= before.map_values(|s: String| s@).push(out@.last()@));
                },
                None => {},
            },
            None => {},
        }
        i = i + 1;
    }
    assert(changes@.subrange(0, changes@.len() as int) =~= changes@);
    out
}

/// `name` with every leading `refs/heads/` removed (`trim_start_matches`).
pub open spec fn branch_of(name: Seq<char>) -> Seq<char>
    decreases name.len(),
{
    if name.len() >= 11 && name.take(11) == "refs/heads/"@ {
        branch_of(name.skip(11))
    } else {
        name
    }
}

/// The branch a full ref names.
fn branch_name(name: &str) -> (r: String)
    ensures
        r@ == branch_of(name@),
{
    proof {
        reveal_strlit("refs/heads/");
    }
    let n = name.unicode_len();
    let mut i: usize = 0;
    assert(name@.skip(0) =~= name@);
    while n - i >= 11 && str_eq(name.substring_char(i, i + 11), "refs/heads/")
        invariant
            i <= n,
            n == name@.len(),
            "refs/heads/"@.len() == 11,
            branch_of(name@) == branch_of(name@.skip(i as int)),
        decreases n - i,
    {
        proof {
            let rest = name@.skip(i as int);
            assert(rest.take(11) =~= name@.subrange(i as int, i + 11));
            assert(rest.skip(11) =~= name@.skip(i + 11));
        }
        i = i + 11;
    }
    proof {
        let rest = name@.skip(i as int);
        if rest.len() >= 11 {
            assert(rest.take(11) =~= name@.subrange(i as int, i + 11));
        }
    }
    assert(name@.subrange(i as int, n as int) =~= name@.skip(i as int));
    name.substring_char(i, n).to_owned()
}

/// The RefFact recording that branch ref `name` points at `head`.
pub fn branch_fact(project_id: &str, name: &str, head: &str, observed: &str) -> (f: RefFact)
    ensures
        f.id@ == project_id@ + ":"@ + branch_of(name@),
        f.project_id@ == project_id@,
        f.branch@ == branch_of(name@),
        f.head@ == head@,
        f.observed@ == observed@,
{
    let branch = branch_name(name);
    RefFact {
        id: ref_fact_id(project_id, branch.as_str()),
        project_id: project_id.to_owned(),
        branch,
        head: head.to_owned(),
        observed: observed.to_owned(),
    }
}

/// The view of a list of shas.
pub open spec fn shas(v: Seq<String>) -> Seq<Seq<char>> {
    v.map_values(|s: String| s@)
}

/// A layer's new shas, in order, each once, skipping those already seen.
pub open spec fn layer_new(frontier: Seq<Seq<char>>, seen: Set<Seq<char>>) -> Seq<Seq<char>>
    decreases frontier.len(),
{
    if frontier.len() == 0 {
        Seq::empty()
    } else {
        let prev = layer_new(frontier.drop_last(), seen);
        let x = frontier.last();
        if seen.contains(x) || prev.contains(x) {
            prev
        } else {
            prev.push(x)
        }
    }
}

/// The next layer: the parents of every commit found, in order.
pub open spec fn next_layer(found: Seq<Option<Vec<String>>>) -> Seq<Seq<char>>
    decreases found.len(),
{
    if found.len() == 0 {
        Seq::empty()
    } else {
        let prev = next_layer(found.drop_last());
        match found.last() {
            Some(p) => prev + shas(p@),
            None => prev,
        }
    }
}

/// The facts a layer adds: each commit found that is not yet published,
/// with its parents.
pub open spec fn layer_facts(
    targets: Seq<Seq<char>>,
    found: Seq<Option<Vec<String>>>,
    published: Set<Seq<char>>,
) -> Seq<(Seq<char>, Seq<Seq<char>>)>
    decreases found.len(),
{
    if found.len() == 0 || targets.len() == 0 {
        Seq::empty()
    } else {
        let prev = layer_facts(targets.drop_last(), found.drop_last(), published);
        match found.last() {
            Some(p) => if published.contains(targets.last()) {
                prev
            } else {
                prev.push((targets.last(), shas(p@)))
            },
            None => prev,
        }
    }
}

/// The (sha, parents) view of recorded facts.
pub open spec fn fact_links(v: Seq<CommitFact>) -> Seq<(Seq<char>, Seq<Seq<char>>)> {
    v.map_values(|f: CommitFact| (f.id@, shas(f.parents@)))
}

/// The walk over commit ancestry. Each round: `layer_targets` names the
/// commits to look up, the caller looks each up, and `finish_layer` takes
/// what was found (parents for a commit, nothing for a missing object).
pub struct FactWalk {
    pub project_id: String,
    /// Shas already published (skipped as facts, still walked through).
    pub published: StrMap<()>,
    /// The current layer.
    pub frontier: Vec<String>,
    pub seen: StrMap<()>,
    pub depth: usize,
    /// The commits of the current layer awaiting lookup.
    pub targets: Vec<String>,
    /// Facts to publish, in discovery order.
    pub facts: Vec<CommitFact>,
}

impl FactWalk {
    /// Start a walk at `roots`.
    pub fn new(project_id: String, roots: Vec<String>, published: StrMap<()>) -> (w: FactWalk)
        ensures
            w.project_id == project_id,
            w.published.map() == published.map(),
            w.frontier == roots,
            w.seen.map() == Map::<Seq<char>, ()>::empty(),
            w.depth == 0,
            w.targets@.len() == 0,
            w.facts@.len() == 0,
    {
        FactWalk { project_id, published, frontier: roots, seen: StrMap::new(), depth: 0, targets: Vec::new(), facts: Vec::new() }
    }

    /// The walk is over: no layer left, or the depth cap reached.
    pub fn done(&self) -> (r: bool)
        ensures
            r == (self.frontier@.len() == 0 || self.depth >= DEPTH_CAP),
    {
        self.frontier.len() == 0 || self.depth >= DEPTH_CAP
    }

    /// The commits of the current layer to look up: its shas not seen
    /// before, each once, in order. They are marked seen.
    pub fn layer_targets(&mut self) -> (r: Vec<String>)
        ensures
            shas(r@) == layer_new(shas(old(self).frontier@), old(self).seen.map().dom()),
            final(self).seen.map().dom() == old(self).seen.map().dom() + shas(r@).to_set(),
            final(self).targets@ == r@,
            final(self).frontier == old(self).frontier,
            final(self).depth == old(self).depth,
            final(self).facts == old(self).facts,
            final(self).published.map() == old(self).published.map(),
            final(self).project_id == old(self).project_id,
    {
        let ghost seen0 = self.seen.map().dom();
        let ghost fr = shas(self.frontier@);
        let mut out: Vec<String> = Vec::new();
        let mut i: usize = 0;
        while i < self.frontier.len()
            invariant
                i <= self.frontier@.len(),
                fr == shas(self.frontier@),
                self.frontier == old(self).frontier,
                self.depth == old(self).depth,
                self.facts == old(self).facts,
                self.published.map() == old(self).published.map(),
                self.project_id == old(self).project_id,
                shas(out@) == layer_new(fr.subrange(0, i as int), seen0),
                self.seen.map().dom() == seen0 + shas(out@).to_set(),
            decreases self.frontier@.len() - i,
        {
            let sha = &self.frontier[i];
            let ghost prev = shas(out@);
            proof {
                assert(fr.subrange(0, i + 1).drop_last() =~= fr.subrange(0, i as int));
                assert(fr.subrange(0, i + 1).last() == sha@);
                assert(self.seen.map().dom().contains(sha@) <==> (seen0.contains(sha@) || prev.contains(sha@))) by {
                    if prev.to_set().contains(sha@) {
                        assert(prev.contains(sha@));
                    }
                    if prev.contains(sha@) {
                        assert(prev.to_set().contains(sha@));
                    }
                }
            }
            if !self.seen.contains_key(sha.as_str()) {
                let s = copy_string(sha);
                self.seen.insert(copy_string(sha), ());
                out.push(s);
                proof {
                    assert(shas(out@) =~= prev.push(sha@));
                    assert forall|x: Seq<char>| shas(out@).to_set().contains(x) <==> prev.to_set().insert(sha@).contains(x) by {
                        if shas(out@).contains(x) {
                            let j = choose|j: int| 0 <= j < shas(out@).len() && shas(out@)[j] == x;
                            if j < prev.len() {
                                assert(prev[j] == x);
                            }
                        }
                        if prev.contains(x) {
                            let j = choose|j: int| 0 <= j < prev.len() && prev[j] == x;
                            assert(shas(out@)[j] == x);
                        }
                        if x == sha@ {
                            assert(shas(out@)[prev.len() as int] == x);
                        }
                    }
                    assert(shas(out@).to_set() =~= prev.to_set().insert(sha@));
                    assert(self.seen.map().dom() =~= seen0 + shas(out@).to_set());
                }
            }
            i = i + 1;
        }
        assert(fr.subrange(0, self.frontier@.len() as int) =~= fr);
        self.targets = copy_strings(&out);
        out
    }

    /// Take the lookups of the current layer's targets (`found[i]` for
    /// `targets[i]`): record unpublished commits as facts, and move to the
    /// layer of their parents.
    pub fn finish_layer(&mut self, found: Vec<Option<Vec<String>>>)
        requires
            found@.len() == old(self).targets@.len(),
            old(self).depth < DEPTH_CAP,
        ensures
            fact_links(final(self).facts@) == fact_links(old(self).facts@) + layer_facts(
                shas(old(self).targets@),
                found@,
                old(self).published.map().dom(),
            ),
            forall|i: int| old(self).facts@.len() <= i < final(self).facts@.len()
                ==> (#[trigger] final(self).facts@[i]).project_id == old(self).project_id && final(self).facts@[i].patch_id.is_none(),
            forall|i: int| 0 <= i < old(self).facts@.len() ==> #[trigger] final(self).facts@[i] == old(self).facts@[i],
            shas(final(self).frontier@) == next_layer(found@),
            final(self).depth == old(self).depth + 1,
            final(self).targets@.len() == 0,
            final(self).seen.map() == old(self).seen.map(),
            final(self).published.map() == old(self).published.map(),
            final(self).project_id == old(self).project_id,
    {
        let ghost ts = shas(self.targets@);
        let ghost pubs = self.published.map().dom();
        let ghost facts0 = self.facts@;
        let mut next: Vec<String> = Vec::new();
        let mut i: usize = 0;
        while i < found.len()
            invariant
                i <= found@.len(),
                found@.len() == self.targets@.len(),
                ts == shas(self.targets@),
                self.targets == old(self).targets,
                self.depth == old(self).depth,
                self.seen.map() == old(self).seen.map(),
                self.published.map() == old(self).published.map(),
                self.project_id == old(self).project_id,
                pubs == self.published.map().dom(),
                shas(next@) == next_layer(found@.subrange(0, i as int)),
                fact_links(self.facts@) == fact_links(facts0) + layer_facts(ts.subrange(0, i as int), found@.subrange(0, i as int), pubs),
                self.facts@.len() >= facts0.len(),
                forall|j: int| facts0.len() <= j < self.facts@.len()
                    ==> (#[trigger] self.facts@[j]).project_id == self.project_id && self.facts@[j].patch_id.is_none(),
                forall|j: int| 0 <= j < facts0.len() ==> #[trigger] self.facts@[j] == facts0[j],
            decreases found@.len() - i,
        {
            proof {
                assert(found@.subrange(0, i + 1).drop_last() =~= found@.subrange(0, i as int));
                assert(ts.subrange(0, i + 1).drop_last() =~= ts.subrange(0, i as int));
                assert(found@.subrange(0, i + 1).last() == found@[i as int]);
                assert(ts.subrange(0, i + 1).last() == ts[i as int]);
            }
            match &found[i] {
                Some(parents) => {
                    let sha = &self.targets[i];
                    let ghost before_facts = self.facts@;
                    if !self.published.contains_key(sha.as_str()) {
                        let f = CommitFact {
                            id: copy_string(sha),
                            project_id: copy_string(&self.project_id),
                            parents: copy_strings(parents),
                            patch_id: None,
                        };
                        self.facts.push(f);
                        proof {
                            assert(fact_links(self.facts@) =~= fact_links(before_facts).push((ts[i as int], shas(parents@))));
                        }
                    }
                    let ghost before_next = shas(next@);
                    let mut k: usize = 0;
                    while k < parents.len()
                        invariant
                            k <= parents@.len(),
                            shas(next@) == before_next + shas(parents@).subrange(0, k as int),
                        decreases parents@.len() - k,
                    {
                        let ghost nb = next@;
                        next.push(copy_string(&parents[k]));
                        proof {
                            assert(shas(next@) =~= shas(nb).push(parents@[k as int]@));
                            assert(shas(parents@).subrange(0, k + 1) =~= shas(parents@).subrange(0, k as int).push(parents@[k as int]@));
                            assert(shas(next@) =~= before_next + shas(parents@).subrange(0, k + 1));
                        }
                        k = k + 1;
                    }
                    assert(shas(parents@).subrange(0, parents@.len() as int) =~= shas(parents@));
                },
                None => {},
            }
            i = i + 1;
        }
        assert(found@.subrange(0, found@.len() as int) =~= found@);
        assert(ts.subrange(0, ts.len() as int) =~= ts);
        self.frontier = next;
        self.targets = Vec::new();
        self.depth = self.depth + 1;
    }
}

} // verus!
