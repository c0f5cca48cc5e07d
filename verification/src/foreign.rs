//! Cross-project machinery: foreign target parsing, and the status
//! resolution ladder for foreign blockers — sibling checkout (exact) →
//! foreign-status cache (facts) → unknown (treated open, partial). `ls` and
//! `next` only ever touch the ladder's local sources; the cache is refreshed
//! by sync.

use vstd::prelude::*;
use vstd::string::StrSliceExecFns;

use crate::entities::{foreign_key, CommitFact, Dependency, RefFact, StatusChange};
use crate::materialize::World;
use crate::resolve::{
    answers_of, effective_status, fact_graph, fact_info, facts_answer, fold_status, AncestorSet, Ancestry,
    FactInfo, FactsAncestors, NoAncestry, Resolution, ResolvedStatus, Status, status_label,
};
use crate::crossproject::change_of_task;
use crate::sort::{sort_by_key, stable_sorted};
use crate::state::{ForeignStatus, ForeignStatusCache};
use crate::strmap::{lemma_pairs_map_all, lemma_pairs_map_at, strictly_sorted, StrMap};
use crate::text::{bytes, bytes_of, copy_opt_string, copy_string, str_eq, str_le, str_le_exec};

verus! {

/// `project/lv-7c21[@release/2.x]` → project (name or id), task (prefix or
/// full id), optional consumption ref.
#[derive(Debug, Clone, PartialEq)]
pub struct ForeignTarget {
    pub project: String,
    pub task: String,
    pub refname: Option<String>,
}

/// The index of the first `c` in `s`, if any.
pub open spec fn first_index_of(s: Seq<char>, c: char) -> Option<int> {
    if exists|i: int| 0 <= i < s.len() && s[i] == c {
        Some(choose|i: int| 0 <= i < s.len() && s[i] == c && forall|j: int| 0 <= j < i ==> s[j] != c)
    } else {
        None
    }
}

/// `s` without a leading `lv-`.
pub open spec fn without_lv(s: Seq<char>) -> Seq<char> {
    if s.len() >= 3 && s.subrange(0, 3) == "lv-"@ {
        s.subrange(3, s.len() as int)
    } else {
        s
    }
}

/// What `parse_target` reads from `s`, as (project, task, ref).
pub open spec fn parsed_target(s: Seq<char>) -> Option<(Seq<char>, Seq<char>, Option<Seq<char>>)> {
    match first_index_of(s, '/') {
        None => None,
        Some(i) => {
            let project = s.subrange(0, i);
            let rest = s.subrange(i + 1, s.len() as int);
            if project.len() == 0 || rest.len() == 0 {
                None
            } else {
                let (task, refname) = match first_index_of(rest, '@') {
                    Some(j) if j > 0 && j + 1 < rest.len() => (rest.subrange(0, j), Some(rest.subrange(j + 1, rest.len() as int))),
                    _ => (rest, None),
                };
                Some((project, without_lv(task), refname))
            }
        },
    }
}

/// The index of the first `c` in `s`.
fn find_char(s: &str, c: char) -> (r: Option<usize>)
    ensures
        match r {
            Some(i) => first_index_of(s@, c) == Some(i as int) && i < s@.len() && s@[i as int] == c
                && forall|j: int| 0 <= j < i ==> s@[j] != c,
            None => first_index_of(s@, c).is_none(),
        },
{
    let n = s.unicode_len();
    let mut i: usize = 0;
    while i < n
        invariant
            i <= n,
            n == s@.len(),
            forall|j: int| 0 <= j < i ==> s@[j] != c,
        decreases n - i,
    {
        if s.get_char(i) == c {
            proof {
                let k = choose|k: int| 0 <= k < s@.len() && s@[k] == c && forall|j: int| 0 <= j < k ==> s@[j] != c;
                if k < i {
                } else if k > i {
                    assert(s@[i as int] == c);
                }
            }
            return Some(i);
        }
        i = i + 1;
    }
    None
}

/// `s` without a leading `lv-`.
fn strip_lv(s: &str) -> (r: &str)
    ensures
        r@ == without_lv(s@),
{
    let n = s.unicode_len();
    proof {
        reveal_strlit("lv-");
    }
    if n >= 3 && s.get_char(0) == 'l' && s.get_char(1) == 'v' && s.get_char(2) == '-' {
        assert(s@.subrange(0, 3) =~= "lv-"@);
        s.substring_char(3, n)
    } else {
        proof {
            if s@.len() >= 3 && s@.subrange(0, 3) == "lv-"@ {
                assert(s@[0] == s@.subrange(0, 3)[0]);
                assert(s@[1] == s@.subrange(0, 3)[1]);
                assert(s@[2] == s@.subrange(0, 3)[2]);
            }
        }
        s
    }
}

/// Parse `project/task[@ref]`; the task may carry a `lv-` prefix.
pub fn parse_target(input: &str) -> (r: Option<ForeignTarget>)
    ensures
        match r {
            Some(t) => parsed_target(input@) == Some((t.project@, t.task@, match t.refname {
                Some(x) => Some(x@),
                None => None::<Seq<char>>,
            })),
            None => parsed_target(input@).is_none(),
        },
{
    let n = input.unicode_len();
    let i = match find_char(input, '/') {
        Some(i) => i,
        None => return None,
    };
    let project = input.substring_char(0, i);
    let rest = input.substring_char(i + 1, n);
    if project.unicode_len() == 0 || rest.unicode_len() == 0 {
        return None;
    }
    let m = rest.unicode_len();
    let (task, refname) = match find_char(rest, '@') {
        Some(j) if j > 0 && j + 1 < m => (rest.substring_char(0, j), Some(rest.substring_char(j + 1, m).to_owned())),
        _ => (rest, None),
    };
    let task = strip_lv(task);
    Some(ForeignTarget { project: project.to_owned(), task: task.to_owned(), refname })
}

/// An ASCII hex digit.
pub open spec fn is_hex_digit(c: char) -> bool {
    ('0' <= c && c <= '9') || ('a' <= c && c <= 'f') || ('A' <= c && c <= 'F')
}

/// Exactly 32 bytes, all hex digits: a full id.
pub open spec fn hex32(s: Seq<char>) -> bool {
    bytes_of(s).len() == 32 && forall|i: int| 0 <= i < s.len() ==> is_hex_digit(#[trigger] s[i])
}

/// Is `s` a full 32-hex-digit id?
pub fn is_hex32(s: &str) -> (r: bool)
    ensures
        r == hex32(s@),
{
    if bytes(s).len() != 32 {
        return false;
    }
    for c in it: s.chars()
        invariant
            it.seq() == s@,
            forall|j: int| 0 <= j < it.index() ==> is_hex_digit(#[trigger] s@[j]),
    {
        if !(('0' <= c && c <= '9') || ('a' <= c && c <= 'f') || ('A' <= c && c <= 'F')) {
            return false;
        }
    }
    true
}

/// `<project-id>/<full-task-id>` needs no resolution and works offline.
pub fn offline_target(t: &ForeignTarget) -> (r: Option<(String, String)>)
    ensures
        r.is_some() == (hex32(t.project@) && hex32(t.task@)),
        r.is_some() ==> r.unwrap().0@ == t.project@ && r.unwrap().1@ == t.task@,
{
    if is_hex32(t.project.as_str()) && is_hex32(t.task.as_str()) {
        Some((copy_string(&t.project), copy_string(&t.task)))
    } else {
        None
    }
}

/// Resolved view of one foreign blocker.
#[derive(Debug, Clone)]
pub struct ForeignInfo {
    pub status: Status,
    pub resolution: Resolution,
    /// When the answer was produced (cache rung only).
    pub observed: Option<String>,
    pub title: Option<String>,
}

/// What a sibling checkout of the blocker's project says: its resolved
/// status and the task's title, if the task is known there.
pub struct SiblingAnswer {
    pub resolved: ResolvedStatus,
    pub title: Option<String>,
}

/// Rung 1: resolve the task against a sibling checkout's own log, when that
/// log is the blocker's project.
pub fn sibling_answer<A: AncestorSet>(world: &World, project_id: &str, task_id: &str, anc: &mut A) -> (r: Option<SiblingAnswer>)
    ensures
        r.is_some() == (world.project.is_some() && world.project.unwrap().id@ == project_id@),
        r.is_some() ==> r.unwrap().resolved == fold_status(
            world.status_changes@.filter(change_of_task(task_id@)),
            answers_of(&*old(anc)),
            Resolution::Exact,
        ),
        r.is_some() ==> match r.unwrap().title {
            Some(t) => world.tasks.map().dom().contains(task_id@) && t@ == world.tasks.map()[task_id@].title@,
            None => !world.tasks.map().dom().contains(task_id@),
        },
{
    let same = match &world.project {
        Some(p) => str_eq(p.id.as_str(), project_id),
        None => false,
    };
    if !same {
        return None;
    }
    let changes = world.changes_for(task_id);
    let resolved = effective_status(changes.as_slice(), anc, Resolution::Exact);
    let title = match world.tasks.get(task_id) {
        Some(t) => Some(copy_string(&t.title)),
        None => None,
    };
    Some(SiblingAnswer { resolved, title })
}

/// What the ladder answers from its second and third rungs: the cached
/// hub answer when there is one, else unknown (treated open, partial).
pub open spec fn cached_info_spec(entry: Option<ForeignStatus>, info: ForeignInfo) -> bool {
    match entry {
        Some(e) => {
            &&& info.status == (if e.status@ == "closed"@ { Status::Closed } else { Status::Open })
            &&& info.resolution == Resolution::Facts
            &&& info.observed.is_some() && info.observed.unwrap()@ == e.observed@
            &&& match info.title {
                Some(t) => e.title@.len() > 0 && t@ == e.title@,
                None => e.title@.len() == 0,
            }
        },
        None => {
            &&& info.status == Status::Open
            &&& info.resolution == Resolution::Partial
            &&& info.observed.is_none()
            &&& info.title.is_none()
        },
    }
}

/// Resolve one foreign blocker through the ladder: the sibling checkout's
/// answer when there is one, else the cached hub answer, else unknown —
/// never silently unblocked.
pub fn resolve_one(sibling: Option<SiblingAnswer>, cache: &ForeignStatusCache, project_id: &str, task_id: &str) -> (r: ForeignInfo)
    ensures
        match sibling {
            Some(s) => r.status == s.resolved.status && r.resolution == s.resolved.resolution && r.observed.is_none()
                && r.title == s.title,
            None => cached_info_spec(
                if cache.entries.map().dom().contains(project_id@ + "/"@ + task_id@) {
                    Some(cache.entries.map()[project_id@ + "/"@ + task_id@])
                } else {
                    None
                },
                r,
            ),
        },
{
    if let Some(s) = sibling {
        return ForeignInfo { status: s.resolved.status, resolution: s.resolved.resolution, observed: None, title: s.title };
    }
    let key = foreign_key(project_id, task_id);
    match cache.get(key.as_str()) {
        Some(entry) => {
            proof {
                reveal_strlit("closed");
            }
            let status = if str_eq(entry.status.as_str(), "closed") {
                Status::Closed
            } else {
                Status::Open
            };
            let title = if entry.title.as_str().is_empty() {
                None
            } else {
                Some(copy_string(&entry.title))
            };
            ForeignInfo { status, resolution: Resolution::Facts, observed: Some(copy_string(&entry.observed)), title }
        },
        None => ForeignInfo { status: Status::Open, resolution: Resolution::Partial, observed: None, title: None },
    }
}

/// The rank-facing view: key → status only.
pub fn status_map(ladder: &StrMap<ForeignInfo>) -> (r: StrMap<Status>)
    ensures
        r.map().dom() == ladder.map().dom(),
        forall|k: Seq<char>| #[trigger] r.map().dom().contains(k) ==> r.map()[k] == ladder.map()[k].status,
{
    let n = ladder.len();
    let mut out: StrMap<Status> = StrMap::new();
    let mut i: usize = 0;
    while i < n
        invariant
            i <= n,
            n == ladder.pairs().len(),
            strictly_sorted(ladder.pairs()),
            forall|k: Seq<char>| #[trigger] out.map().dom().contains(k) <==> exists|j: int| 0 <= j < i && ladder.pairs()[j].0 == k,
            forall|k: Seq<char>| #[trigger] out.map().dom().contains(k) ==> out.map()[k] == ladder.map()[k].status,
        decreases n - i,
    {
        let k = ladder.key_at(i);
        let v = ladder.value_at(i);
        proof {
            lemma_pairs_map_at(ladder.pairs(), i as int);
        }
        out.insert(copy_string(k), v.status);
        proof {
            assert forall|x: Seq<char>| #[trigger] out.map().dom().contains(x) <==> exists|j: int| 0 <= j < i + 1 && ladder.pairs()[j].0 == x by {
                if x == k@ {
                    assert(ladder.pairs()[i as int].0 == x);
                }
            }
        }
        i = i + 1;
    }
    proof {
        lemma_pairs_map_all(ladder.pairs());
        assert forall|x: Seq<char>| out.map().dom().contains(x) <==> ladder.map().dom().contains(x) by {
            if out.map().dom().contains(x) {
                let j = choose|j: int| 0 <= j < n && ladder.pairs()[j].0 == x;
                assert(ladder.map().dom().contains(ladder.pairs()[j].0));
            }
        }
        assert(out.map().dom() =~= ladder.map().dom());
    }
    out
}

/// One distinct foreign blocker referenced by the log's dependencies.
pub struct ForeignBlocker {
    /// "{project_id}/{task_id}"
    pub key: String,
    pub project_id: String,
    pub task_id: String,
    /// The consumption ref of the first dependency naming it.
    pub blocker_ref: Option<String>,
}

/// The foreign key of a cross-project dependency.
pub open spec fn dep_key(d: Dependency) -> Seq<char> {
    d.blocker_project_id.unwrap()@ + "/"@ + d.blocker_task_id@
}

/// The cross-project dependencies that name a new foreign blocker, in
/// order: the first dependency naming each blocker.
pub open spec fn first_foreign_deps(ds: Seq<Dependency>) -> Seq<Dependency>
    decreases ds.len(),
{
    if ds.len() == 0 {
        Seq::empty()
    } else {
        let k = first_foreign_deps(ds.drop_last());
        let d = ds.last();
        if d.blocker_project_id.is_some() && !k.map_values(|x: Dependency| dep_key(x)).contains(dep_key(d)) {
            k.push(d)
        } else {
            k
        }
    }
}

/// `b` names the blocker of cross-project dependency `d`.
pub open spec fn names_blocker(b: ForeignBlocker, d: Dependency) -> bool {
    &&& b.key@ == dep_key(d)
    &&& b.project_id@ == d.blocker_project_id.unwrap()@
    &&& b.task_id@ == d.blocker_task_id@
    &&& b.blocker_ref == d.blocker_ref
}

/// Each distinct foreign blocker of `deps`, in dependency order, taken from
/// the first dependency naming it.
pub fn foreign_blockers(deps: &StrMap<Dependency>) -> (r: Vec<ForeignBlocker>)
    ensures
        r@.len() == first_foreign_deps(crate::graph::dep_values(deps.pairs())).len(),
        forall|i: int| 0 <= i < r@.len() ==> names_blocker(#[trigger] r@[i], first_foreign_deps(crate::graph::dep_values(deps.pairs()))[i]),
{
    let ghost ds = crate::graph::dep_values(deps.pairs());
    let n = deps.len();
    let mut out: Vec<ForeignBlocker> = Vec::new();
    let mut seen: StrMap<()> = StrMap::new();
    let mut i: usize = 0;
    proof {
        assert(ds.subrange(0, 0) =~= Seq::<Dependency>::empty());
    }
    while i < n
        invariant
            i <= n,
            n == deps.pairs().len(),
            ds == crate::graph::dep_values(deps.pairs()),
            out@.len() == first_foreign_deps(ds.subrange(0, i as int)).len(),
            forall|t: int| 0 <= t < out@.len() ==> names_blocker(#[trigger] out@[t], first_foreign_deps(ds.subrange(0, i as int))[t]),
            forall|k: Seq<char>| #[trigger] seen.map().dom().contains(k)
                <==> first_foreign_deps(ds.subrange(0, i as int)).map_values(|x: Dependency| dep_key(x)).contains(k),
        decreases n - i,
    {
        let d = deps.value_at(i);
        let ghost pre = ds.subrange(0, i as int);
        let ghost post = ds.subrange(0, i + 1);
        let ghost f0 = first_foreign_deps(pre);
        proof {
            assert(post.drop_last() =~= pre);
            assert(post.last() == *d);
        }
        if let Some(p) = &d.blocker_project_id {
            let key = foreign_key(p.as_str(), d.blocker_task_id.as_str());
            if !seen.contains_key(key.as_str()) {
                seen.insert(copy_string(&key), ());
                out.push(ForeignBlocker {
                    key,
                    project_id: copy_string(p),
                    task_id: copy_string(&d.blocker_task_id),
                    blocker_ref: copy_opt_string(&d.blocker_ref),
                });
                proof {
                    assert(first_foreign_deps(post) == f0.push(*d));
                    let ok = f0.map_values(|x: Dependency| dep_key(x));
                    let nk = f0.push(*d).map_values(|x: Dependency| dep_key(x));
                    assert(nk =~= ok.push(dep_key(*d)));
                    assert(key@ == dep_key(*d));
                    assert forall|k: Seq<char>| #[trigger] seen.map().dom().contains(k) <==> nk.contains(k) by {
                        if nk.contains(k) {
                            let j = choose|j: int| 0 <= j < nk.len() && nk[j] == k;
                            if j < ok.len() {
                                assert(ok[j] == k);
                            }
                        }
                        if ok.contains(k) {
                            let j = choose|j: int| 0 <= j < ok.len() && ok[j] == k;
                            assert(nk[j] == k);
                        }
                        if k == key@ {
                            assert(nk[ok.len() as int] == k);
                        }
                    }
                }
            } else {
                proof {
                    assert(first_foreign_deps(post) == f0);
                }
            }
        } else {
            proof {
                assert(first_foreign_deps(post) == f0);
            }
        }
        i = i + 1;
    }
    proof {
        assert(ds.subrange(0, n as int) =~= ds);
    }
    out
}

/// `refs[i]` is the first RefFact of branch `wanted`.
pub open spec fn is_first_on(refs: Seq<RefFact>, wanted: Seq<char>, i: int) -> bool {
    &&& 0 <= i < refs.len()
    &&& refs[i].branch@ == wanted
    &&& forall|j: int| 0 <= j < i ==> #[trigger] refs[j].branch@ != wanted
}

/// `refs[i]` is the most recently observed RefFact (the last of equally
/// recent ones, as `max_by` picks).
pub open spec fn is_latest(refs: Seq<RefFact>, i: int) -> bool {
    &&& 0 <= i < refs.len()
    &&& forall|j: int| 0 <= j < refs.len() ==> (if j <= i {
        str_le(#[trigger] refs[j].observed@, refs[i].observed@)
    } else {
        !str_le(refs[i].observed@, #[trigger] refs[j].observed@)
    })
}

/// The head a foreign blocker resolves against: the first RefFact of the
/// wanted branch, else the most recently observed one.
pub open spec fn picked_head(refs: Seq<RefFact>, wanted: Seq<char>) -> Option<Seq<char>> {
    if exists|i: int| is_first_on(refs, wanted, i) {
        Some(refs[choose|i: int| is_first_on(refs, wanted, i)].head@)
    } else if refs.len() > 0 {
        Some(refs[choose|i: int| is_latest(refs, i)].head@)
    } else {
        None
    }
}

/// The head to resolve against: the first RefFact of `wanted`, else the
/// most recently observed.
pub fn pick_head(refs: &[RefFact], wanted: &str) -> (r: Option<String>)
    ensures
        r.is_some() == picked_head(refs@, wanted@).is_some(),
        r.is_some() ==> r.unwrap()@ == picked_head(refs@, wanted@).unwrap(),
{
    let mut i: usize = 0;
    while i < refs.len()
        invariant
            i <= refs@.len(),
            forall|j: int| 0 <= j < i ==> #[trigger] refs@[j].branch@ != wanted@,
        decreases refs@.len() - i,
    {
        if str_eq(refs[i].branch.as_str(), wanted) {
            proof {
                assert(is_first_on(refs@, wanted@, i as int));
                let c = choose|c: int| is_first_on(refs@, wanted@, c);
                if c < i {
                    assert(refs@[c].branch@ != wanted@);
                } else if c > i {
                    assert(refs@[i as int].branch@ != wanted@);
                }
            }
            return Some(copy_string(&refs[i].head));
        }
        i = i + 1;
    }
    assert(!exists|c: int| is_first_on(refs@, wanted@, c));
    if refs.len() == 0 {
        return None;
    }
    let mut best: usize = 0;
    let mut i: usize = 1;
    proof {
        crate::text::lemma_str_le_refl(refs@[0].observed@);
    }
    while i < refs.len()
        invariant
            1 <= i <= refs@.len(),
            best < i,
            is_latest(refs@.subrange(0, i as int), best as int),
        decreases refs@.len() - i,
    {
        let later = str_le_exec(refs[best].observed.as_str(), refs[i].observed.as_str());
        let ghost b = best;
        if later {
            best = i;
        }
        proof {
            let s = refs@.subrange(0, i + 1);
            let s0 = refs@.subrange(0, i as int);
            let nb = best as int;
            crate::text::lemma_str_le_total(refs@[b as int].observed@, refs@[i as int].observed@);
            crate::text::lemma_str_le_refl(refs@[i as int].observed@);
            assert forall|j: int| 0 <= j < s.len() implies (if j <= nb {
                str_le(#[trigger] s[j].observed@, s[nb].observed@)
            } else {
                !str_le(s[nb].observed@, #[trigger] s[j].observed@)
            }) by {
                if j < i {
                    assert(s0[j] == s[j]);
                    if later {
                        if j <= b {
                            crate::text::lemma_str_le_trans(s[j].observed@, refs@[b as int].observed@, refs@[i as int].observed@);
                        } else {
                            crate::text::lemma_str_le_total(s[j].observed@, refs@[b as int].observed@);
                            crate::text::lemma_str_le_trans(s[j].observed@, refs@[b as int].observed@, refs@[i as int].observed@);
                        }
                    }
                } else if j == i && !later {
                    if s[j].observed@ == refs@[b as int].observed@ {
                        crate::text::lemma_str_le_refl(s[j].observed@);
                    }
                }
            }
        }
        i = i + 1;
    }
    proof {
        assert(refs@.subrange(0, refs@.len() as int) =~= refs@);
        let c = choose|c: int| is_latest(refs@, c);
        assert(is_latest(refs@, best as int));
        if c < best {
            assert(!str_le(refs@[c].observed@, refs@[best as int].observed@));
        } else if best < c {
            assert(!str_le(refs@[best as int].observed@, refs@[c].observed@));
        }
    }
    Some(copy_string(&refs[best].head))
}

/// The commit graph the facts record; a later fact with the same sha
/// replaces an earlier one.
pub open spec fn all_facts_graph(facts: Seq<CommitFact>) -> Map<Seq<char>, FactInfo>
    decreases facts.len(),
{
    if facts.len() == 0 {
        Map::empty()
    } else {
        all_facts_graph(facts.drop_last()).insert(facts.last().id@, fact_info(facts.last()))
    }
}

/// The answers the hub's facts give against an optional head.
pub open spec fn hub_answers(facts: Seq<CommitFact>, head: Option<Seq<char>>) -> spec_fn(Seq<char>) -> Ancestry {
    match head {
        Some(h) => |s: Seq<char>| facts_answer(all_facts_graph(facts), h, s),
        None => |s: Seq<char>| Ancestry::Unknown,
    }
}

/// The branch a foreign blocker is consumed from: its ref, else `main`.
pub open spec fn wanted_ref(blocker_ref: Option<Seq<char>>) -> Seq<char> {
    match blocker_ref {
        Some(r) => r,
        None => "main"@,
    }
}

/// A foreign blocker's status from what the hub holds for it: its status
/// changes, the project's commit facts and branch heads. Resolved against
/// the consumption ref's head (`blocker_ref`, else `main`, else the most
/// recently observed head) with grade `Facts`; with no head at all, only
/// unanchored changes count and the grade is `Partial`.
pub fn hub_resolution(changes: &[StatusChange], facts: &[CommitFact], refs: &[RefFact], blocker_ref: Option<&str>) -> (r: ResolvedStatus)
    ensures
        ({
            let head = picked_head(refs@, wanted_ref(crate::crossproject::opt_view(blocker_ref)));
            r == fold_status(stable_sorted(changes@), hub_answers(facts@, head), match head {
                Some(_) => Resolution::Facts,
                None => Resolution::Partial,
            })
        }),
{
    proof {
        reveal_strlit("main");
    }
    let wanted = match blocker_ref {
        Some(r) => r,
        None => "main",
    };
    let head = pick_head(refs, wanted);
    let mut fact_map: StrMap<CommitFact> = StrMap::new();
    let mut i: usize = 0;
    proof {
        assert(facts@.subrange(0, 0) =~= Seq::<CommitFact>::empty());
        assert(fact_graph(fact_map.map()) =~= Map::<Seq<char>, FactInfo>::empty());
    }
    while i < facts.len()
        invariant
            i <= facts@.len(),
            fact_graph(fact_map.map()) == all_facts_graph(facts@.subrange(0, i as int)),
        decreases facts@.len() - i,
    {
        let f = &facts[i];
        proof {
            assert(facts@.subrange(0, i + 1).drop_last() =~= facts@.subrange(0, i as int));
            assert(facts@.subrange(0, i + 1).last() == *f);
        }
        let ghost before = fact_map.map();
        let c = f.copy();
        proof {
            assert(fact_info(c) == fact_info(*f));
        }
        fact_map.insert(copy_string(&f.id), c);
        proof {
            assert(fact_graph(fact_map.map()) =~= fact_graph(before).insert(f.id@, fact_info(*f)));
        }
        i = i + 1;
    }
    proof {
        assert(facts@.subrange(0, facts@.len() as int) =~= facts@);
    }
    let mut copies: Vec<StatusChange> = Vec::new();
    let mut i: usize = 0;
    while i < changes.len()
        invariant
            i <= changes@.len(),
            copies@ == changes@.subrange(0, i as int),
        decreases changes@.len() - i,
    {
        copies.push(changes[i].copy());
        proof {
            assert(copies@ =~= changes@.subrange(0, i + 1));
        }
        i = i + 1;
    }
    assert(copies@ =~= changes@);
    let sorted = sort_by_key(copies);
    let mut refs_sorted: Vec<&StatusChange> = Vec::new();
    let mut i: usize = 0;
    while i < sorted.len()
        invariant
            i <= sorted@.len(),
            refs_sorted@.map_values(|c: &StatusChange| *c) == sorted@.subrange(0, i as int),
        decreases sorted@.len() - i,
    {
        let ghost before = refs_sorted@;
        refs_sorted.push(&sorted[i]);
        proof {
            assert(refs_sorted@.map_values(|c: &StatusChange| *c) =~= before.map_values(|c: &StatusChange| *c).push(sorted@[i as int]));
            assert(sorted@.subrange(0, i + 1) =~= sorted@.subrange(0, i as int).push(sorted@[i as int]));
        }
        i = i + 1;
    }
    assert(sorted@.subrange(0, sorted@.len() as int) =~= sorted@);
    match head {
        Some(h) => {
            let mut anc = FactsAncestors::new(&fact_map, h.as_str());
            proof {
                assert(answers_of(&anc) =~= hub_answers(facts@, picked_head(refs@, wanted@)));
            }
            effective_status(refs_sorted.as_slice(), &mut anc, Resolution::Facts)
        },
        None => {
            let mut none = NoAncestry::new();
            proof {
                assert(answers_of(&none) =~= hub_answers(facts@, picked_head(refs@, wanted@)));
            }
            effective_status(refs_sorted.as_slice(), &mut none, Resolution::Partial)
        },
    }
}

/// The cache record written for a blocker the hub resolved: its status
/// label, always graded "facts", when it was observed, and its title (empty
/// when the hub had none).
pub fn cache_entry(resolved: &ResolvedStatus, observed: String, title: Option<String>) -> (e: ForeignStatus)
    ensures
        e.status@ == status_label(resolved.status),
        e.resolution@ == "facts"@,
        e.observed == observed,
        e.title@ == match title {
            Some(t) => t@,
            None => Seq::<char>::empty(),
        },
{
    let t = match title {
        Some(t) => t,
        None => String::new(),
    };
    ForeignStatus { status: resolved.status.label().to_owned(), resolution: "facts".to_owned(), observed, title: t }
}

} // verus!
