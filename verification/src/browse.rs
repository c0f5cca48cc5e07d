//! What the dashboard's views decide: the overview cards and activity feed,
//! the project browser's branch selector, filters and detail drawer, and
//! the blocking graph's visible subset, project colors and sections.

use vstd::prelude::*;
use vstd::utf8::*;

use crate::entities::{priority_rank, Comment, Dependency, LogEntry, Priority, RefFact, StatusChange, StatusKind, Task};
use crate::resolve::{ResolvedStatus, Status};
use crate::sort::{sort_by_key, stable_sorted, SortKey};
use vstd::string::StrSliceExecFns;
use crate::strmap::{lemma_pairs_map_all, lemma_pairs_map_at, strictly_sorted, StrMap};
use crate::text::{
    bytes, bytes_of, concat, copy_string, lemma_str_le_antisym, lemma_str_le_total, lemma_str_le_trans, str_eq, str_le,
    str_le_exec, str_lt, string_of_chars,
};

verus! {

broadcast use vstd::utf8::encode_utf8_decode_utf8;

/// The first `n` bytes of `s` (all of it when shorter).
pub open spec fn head_bytes(s: Seq<char>, n: nat) -> Seq<char> {
    if bytes_of(s).len() <= n {
        s
    } else {
        decode_utf8(bytes_of(s).subrange(0, n as int))
    }
}

/// `s` can be cut after its `n`th byte.
pub open spec fn cuttable(s: Seq<char>, n: nat) -> bool {
    bytes_of(s).len() <= n || is_char_boundary(bytes_of(s), n as int)
}

/// The first `n` bytes of `s` (`&s[..n.min(s.len())]`).
pub fn first_bytes(s: &str, n: usize) -> (r: &str)
    requires
        cuttable(s@, n as nat),
    ensures
        r@ == head_bytes(s@, n as nat),
{
    if bytes(s).len() <= n {
        s
    } else {
        let (p, _) = s.split_at(n);
        assert(bytes_of(p@) =~= bytes_of(s@).subrange(0, n as int));
        assert(p@ == decode_utf8(bytes_of(s@).subrange(0, n as int)));
        p
    }
}

/// `a`'s branch sorts strictly before `b`'s in the dashboard's branch order:
/// `main` first, then by name.
pub open spec fn branch_before(a: Seq<char>, b: Seq<char>) -> bool {
    ||| a == "main"@ && b != "main"@
    ||| (a == "main"@) == (b == "main"@) && str_lt(a, b)
}

/// `refs[i]` is the project's first ref with the least branch in that order.
pub open spec fn is_first_least(refs: Seq<RefFact>, pid: Seq<char>, i: int) -> bool {
    &&& 0 <= i < refs.len()
    &&& refs[i].project_id@ == pid
    &&& forall|j: int| 0 <= j < i && (#[trigger] refs[j]).project_id@ == pid ==> branch_before(refs[i].branch@, refs[j].branch@)
    &&& forall|j: int| i < j < refs.len() && (#[trigger] refs[j]).project_id@ == pid ==> !branch_before(refs[j].branch@, refs[i].branch@)
}

/// The head the overview resolves a project against: its `main` ref, else
/// its ref with the least branch name; the first such ref on ties.
pub open spec fn overview_head_spec(refs: Seq<RefFact>, pid: Seq<char>) -> Option<Seq<char>> {
    if exists|i: int| is_first_least(refs, pid, i) {
        Some(refs[choose|i: int| is_first_least(refs, pid, i)].head@)
    } else {
        None
    }
}

proof fn lemma_branch_before_total(a: Seq<char>, b: Seq<char>)
    ensures
        a == b || branch_before(a, b) || branch_before(b, a),
{
    lemma_str_le_total(a, b);
}

proof fn lemma_branch_before_trans(a: Seq<char>, b: Seq<char>, c: Seq<char>)
    requires
        branch_before(a, b),
        branch_before(b, c),
    ensures
        branch_before(a, c),
{
    if (a == "main"@) == (b == "main"@) && (b == "main"@) == (c == "main"@) {
        lemma_str_le_trans(a, b, c);
        if a == c {
            lemma_str_le_antisym(a, b);
        }
    }
}

proof fn lemma_branch_before_irrefl(a: Seq<char>, b: Seq<char>)
    requires
        branch_before(a, b),
    ensures
        !branch_before(b, a),
        a != b,
{
    if branch_before(b, a) {
        lemma_str_le_antisym(a, b);
    }
}

/// Whether `a` sorts strictly before `b` in branch order.
fn branch_before_exec(a: &str, b: &str) -> (r: bool)
    ensures
        r == branch_before(a@, b@),
{
    proof {
        reveal_strlit("main");
    }
    let am = str_eq(a, "main");
    let bm = str_eq(b, "main");
    if am && !bm {
        true
    } else if am == bm {
        str_le_exec(a, b) && !str_eq(a, b)
    } else {
        false
    }
}

/// The head the overview resolves project `pid` against.
pub fn overview_head(refs: &[RefFact], pid: &str) -> (r: Option<String>)
    ensures
        r.is_some() == (exists|j: int| 0 <= j < refs@.len() && (#[trigger] refs@[j]).project_id@ == pid@),
        r.is_some() ==> r.unwrap()@ == overview_head_spec(refs@, pid@).unwrap(),
{
    let mut best: Option<usize> = None;
    let mut i: usize = 0;
    while i < refs.len()
        invariant
            i <= refs@.len(),
            best.is_none() == !(exists|j: int| 0 <= j < i && (#[trigger] refs@[j]).project_id@ == pid@),
            best.is_some() ==> best.unwrap() < i && refs@[best.unwrap() as int].project_id@ == pid@
                && (forall|j: int| 0 <= j < best.unwrap() && (#[trigger] refs@[j]).project_id@ == pid@
                    ==> branch_before(refs@[best.unwrap() as int].branch@, refs@[j].branch@))
                && (forall|j: int| best.unwrap() < j < i && (#[trigger] refs@[j]).project_id@ == pid@
                    ==> !branch_before(refs@[j].branch@, refs@[best.unwrap() as int].branch@)),
        decreases refs@.len() - i,
    {
        if str_eq(refs[i].project_id.as_str(), pid) {
            match best {
                None => {
                    best = Some(i);
                },
                Some(b) => {
                    if branch_before_exec(refs[i].branch.as_str(), refs[b].branch.as_str()) {
                        proof {
                            assert forall|j: int| 0 <= j < i && (#[trigger] refs@[j]).project_id@ == pid@
                                implies branch_before(refs@[i as int].branch@, refs@[j].branch@) by {
                                let bi = refs@[b as int].branch@;
                                let ii = refs@[i as int].branch@;
                                let jj = refs@[j].branch@;
                                if j == b {
                                } else if j < b {
                                    lemma_branch_before_trans(ii, bi, jj);
                                } else {
                                    lemma_branch_before_total(bi, jj);
                                    if jj == bi {
                                    } else if branch_before(bi, jj) {
                                        lemma_branch_before_trans(ii, bi, jj);
                                    }
                                }
                            }
                        }
                        best = Some(i);
                    }
                },
            }
        }
        i = i + 1;
    }
    match best {
        None => None,
        Some(b) => {
            proof {
                assert(is_first_least(refs@, pid@, b as int));
                let c = choose|i: int| is_first_least(refs@, pid@, i);
                if c < b {
                    lemma_branch_before_irrefl(refs@[b as int].branch@, refs@[c].branch@);
                } else if c > b {
                    lemma_branch_before_irrefl(refs@[c].branch@, refs@[b as int].branch@);
                }
            }
            Some(copy_string(&refs[b].head))
        },
    }
}

/// How many entries of `s` are open.
pub open spec fn open_count(s: Seq<(Seq<char>, ResolvedStatus)>) -> nat
    decreases s.len(),
{
    if s.len() == 0 {
        0
    } else {
        open_count(s.drop_last()) + if s.last().1.status == Status::Open {
            1nat
        } else {
            0nat
        }
    }
}

proof fn lemma_open_count_le(s: Seq<(Seq<char>, ResolvedStatus)>)
    ensures
        open_count(s) <= s.len(),
    decreases s.len(),
{
    if s.len() > 0 {
        lemma_open_count_le(s.drop_last());
    }
}

/// A P0 task of the project that is open.
pub open spec fn open_p0(t: Task, st: Map<Seq<char>, ResolvedStatus>, pid: Seq<char>) -> bool {
    t.project_id@ == pid && t.priority == Priority::P0 && st.dom().contains(t.id@) && st[t.id@].status == Status::Open
}

/// The titles of the project's open P0 tasks, in task order.
pub open spec fn open_p0_titles(tasks: Seq<Task>, st: Map<Seq<char>, ResolvedStatus>, pid: Seq<char>) -> Seq<Seq<char>>
    decreases tasks.len(),
{
    if tasks.len() == 0 {
        Seq::empty()
    } else {
        let prev = open_p0_titles(tasks.drop_last(), st, pid);
        if open_p0(tasks.last(), st, pid) {
            prev.push(tasks.last().title@)
        } else {
            prev
        }
    }
}

/// One project's overview card.
#[derive(Debug, Clone)]
pub struct ProjectCard {
    pub open: usize,
    pub closed: usize,
    /// Titles of the open P0 tasks.
    pub p0_titles: Vec<String>,
    /// "@ <head>" or "no branch facts".
    pub head_badge: String,
}

/// The badge naming the head a card was resolved against.
pub open spec fn head_badge_text(head: Option<Seq<char>>) -> Seq<char> {
    match head {
        Some(h) => "@ "@ + head_bytes(h, 8),
        None => "no branch facts"@,
    }
}

/// The overview card of project `pid`, from its statuses resolved against `head`.
pub fn project_card(tasks: &[Task], statuses: &StrMap<ResolvedStatus>, pid: &str, head: Option<&str>) -> (c: ProjectCard)
    requires
        head.is_some() ==> cuttable(head.unwrap()@, 8),
    ensures
        c.open == open_count(statuses.pairs()),
        c.open + c.closed == statuses.pairs().len(),
        c.p0_titles@.map_values(|t: String| t@) == open_p0_titles(tasks@, statuses.map(), pid@),
        c.head_badge@ == head_badge_text(crate::crossproject::opt_view(head)),
{
    let n = statuses.len();
    let mut open: usize = 0;
    let mut i: usize = 0;
    while i < n
        invariant
            i <= n,
            n == statuses.pairs().len(),
            open == open_count(statuses.pairs().subrange(0, i as int)),
            open <= i,
        decreases n - i,
    {
        proof {
            assert(statuses.pairs().subrange(0, i + 1).drop_last() =~= statuses.pairs().subrange(0, i as int));
        }
        if statuses.value_at(i).status == Status::Open {
            open = open + 1;
        }
        i = i + 1;
    }
    assert(statuses.pairs().subrange(0, n as int) =~= statuses.pairs());
    let mut titles: Vec<String> = Vec::new();
    let mut j: usize = 0;
    while j < tasks.len()
        invariant
            j <= tasks@.len(),
            titles@.map_values(|t: String| t@) == open_p0_titles(tasks@.subrange(0, j as int), statuses.map(), pid@),
        decreases tasks@.len() - j,
    {
        proof {
            assert(tasks@.subrange(0, j + 1).drop_last() =~= tasks@.subrange(0, j as int));
        }
        let t = &tasks[j];
        let is_p0 = match t.priority {
            Priority::P0 => true,
            _ => false,
        };
        if str_eq(t.project_id.as_str(), pid) && is_p0 {
            match statuses.get(t.id.as_str()) {
                Some(st) => {
                    if st.status == Status::Open {
                        let ghost before = titles@;
                        titles.push(copy_string(&t.title));
                        assert(titles@.map_values(|x: String| x@) =~= before.map_values(|x: String| x@).push(t.title@));
                    }
                },
                None => {},
            }
        }
        j = j + 1;
    }
    assert(tasks@.subrange(0, tasks@.len() as int) =~= tasks@);
    let badge = match head {
        Some(h) => concat("@ ", first_bytes(h, 8)),
        None => "no branch facts".to_owned(),
    };
    proof {
        reveal_strlit("no branch facts");
    }
    ProjectCard { open, closed: n - open, p0_titles: titles, head_badge: badge }
}

/// One activity-feed item: when, what kind of entity, and a one-line gist.
#[derive(Debug, Clone)]
pub struct FeedItem {
    pub created: String,
    pub kind: String,
    pub what: String,
}

impl SortKey for FeedItem {
    /// Newest first.
    open spec fn key_le_spec(&self, other: &Self) -> bool {
        str_le(other.created@, self.created@)
    }

    proof fn lemma_key_le_total(a: &Self, b: &Self) {
        lemma_str_le_total(a.created@, b.created@);
    }

    proof fn lemma_key_le_trans(a: &Self, b: &Self, c: &Self) {
        lemma_str_le_trans(c.created@, b.created@, a.created@);
    }

    fn key_le(&self, other: &Self) -> (r: bool) {
        str_le_exec(other.created.as_str(), self.created.as_str())
    }
}

/// How many feed items are shown.
pub const FEED_LEN: usize = 25;

/// The feed: newest first (ties keep their order), at most `FEED_LEN` items.
pub fn feed_order(items: Vec<FeedItem>) -> (r: Vec<FeedItem>)
    ensures
        r@ == stable_sorted(items@).take(if items@.len() < FEED_LEN { items@.len() as int } else { FEED_LEN as int }),
{
    let ghost n = items@.len();
    let mut sorted = sort_by_key(items);
    proof {
        broadcast use vstd::seq_lib::group_to_multiset_ensures;
        assert(sorted@.len() == sorted@.to_multiset().len());
        assert(sorted@.len() == n);
    }
    sorted.truncate(FEED_LEN);
    proof {
        if n <= FEED_LEN {
            assert(stable_sorted(items@).take(n as int) =~= stable_sorted(items@));
        } else {
            assert(stable_sorted(items@).take(FEED_LEN as int) =~= stable_sorted(items@).subrange(0, FEED_LEN as int));
        }
    }
    sorted
}

/// The first 19 bytes of `s`, or nothing when `s` is shorter or cannot be
/// cut there (`s.get(..19)`).
pub open spec fn head19(s: Seq<char>) -> Seq<char> {
    if bytes_of(s).len() >= 19 && is_char_boundary(bytes_of(s), 19) {
        decode_utf8(bytes_of(s).subrange(0, 19))
    } else {
        Seq::empty()
    }
}

/// The first `n` bytes of `s` when it has that many and can be cut there.
fn get_prefix(s: &str, n: usize) -> (r: &str)
    ensures
        r@ == (if bytes_of(s@).len() >= n && is_char_boundary(bytes_of(s@), n as int) {
            decode_utf8(bytes_of(s@).subrange(0, n as int))
        } else {
            Seq::empty()
        }),
{
    if bytes(s).len() >= n && s.is_char_boundary(n) {
        let (p, _) = s.split_at(n);
        assert(bytes_of(p@) =~= bytes_of(s@).subrange(0, n as int));
        assert(p@ == decode_utf8(bytes_of(s@).subrange(0, n as int)));
        p
    } else {
        proof {
            reveal_strlit("");
        }
        ""
    }
}

/// `s` with every `T` turned into a space.
pub open spec fn untee(s: Seq<char>) -> Seq<char> {
    s.map_values(|c: char| if c == 'T' { ' ' } else { c })
}

/// A feed item's time: its first 19 bytes with `T` shown as a space.
pub fn feed_time(created: &str) -> (r: String)
    ensures
        r@ == untee(head19(created@)),
{
    let p = get_prefix(created, 19);
    let mut out: Vec<char> = Vec::new();
    for c in it: p.chars()
        invariant
            it.seq() == p@,
            out@ == untee(it.seq().take(it.index() as int)),
    {
        proof {
            assert(untee(it.seq().take(it.index() + 1)) =~= untee(it.seq().take(it.index() as int)).push(
                if c == 'T' { ' ' } else { c },
            ));
        }
        out.push(if c == 'T' { ' ' } else { c });
    }
    assert(p@.take(p@.len() as int) =~= p@);
    assert(out@ =~= untee(head19(created@)));
    string_of_chars(out)
}

/// A branch name, ordered `main` first, then by name.
#[derive(Debug, Clone)]
pub struct BranchName(pub String);

impl SortKey for BranchName {
    open spec fn key_le_spec(&self, other: &Self) -> bool {
        !branch_before(other.0@, self.0@)
    }

    proof fn lemma_key_le_total(a: &Self, b: &Self) {
        lemma_branch_before_total(a.0@, b.0@);
        if branch_before(a.0@, b.0@) {
            lemma_branch_before_irrefl(a.0@, b.0@);
        }
    }

    proof fn lemma_key_le_trans(a: &Self, b: &Self, c: &Self) {
        if branch_before(c.0@, a.0@) {
            lemma_branch_before_total(b.0@, a.0@);
            lemma_branch_before_total(c.0@, b.0@);
            if branch_before(a.0@, b.0@) {
                lemma_branch_before_trans(c.0@, a.0@, b.0@);
            } else if a.0@ == b.0@ {
            }
        }
    }

    fn key_le(&self, other: &Self) -> (r: bool) {
        !branch_before_exec(other.0.as_str(), self.0.as_str())
    }
}

/// The branches of project `pid`'s refs, in ref order.
pub open spec fn project_branches(refs: Seq<RefFact>, pid: Seq<char>) -> Seq<BranchName>
    decreases refs.len(),
{
    if refs.len() == 0 {
        Seq::empty()
    } else {
        let prev = project_branches(refs.drop_last(), pid);
        if refs.last().project_id@ == pid {
            prev.push(BranchName(refs.last().branch))
        } else {
            prev
        }
    }
}

/// The branch selector's choices: the project's branches, `main` first,
/// then by name (repeats kept, in ref order).
pub open spec fn branch_choices_spec(refs: Seq<RefFact>, pid: Seq<char>) -> Seq<String> {
    stable_sorted(project_branches(refs, pid)).map_values(|b: BranchName| b.0)
}

/// The branch selector's choices for project `pid`.
pub fn branch_choices(refs: &[RefFact], pid: &str) -> (r: Vec<String>)
    ensures
        r@ == branch_choices_spec(refs@, pid@),
{
    let mut bs: Vec<BranchName> = Vec::new();
    let mut i: usize = 0;
    while i < refs.len()
        invariant
            i <= refs@.len(),
            bs@ == project_branches(refs@.subrange(0, i as int), pid@),
        decreases refs@.len() - i,
    {
        proof {
            assert(refs@.subrange(0, i + 1).drop_last() =~= refs@.subrange(0, i as int));
        }
        if str_eq(refs[i].project_id.as_str(), pid) {
            bs.push(BranchName(copy_string(&refs[i].branch)));
        }
        i = i + 1;
    }
    assert(refs@.subrange(0, refs@.len() as int) =~= refs@);
    let sorted = sort_by_key(bs);
    let mut out: Vec<String> = Vec::new();
    let mut k: usize = 0;
    while k < sorted.len()
        invariant
            k <= sorted@.len(),
            out@ == sorted@.subrange(0, k as int).map_values(|b: BranchName| b.0),
        decreases sorted@.len() - k,
    {
        out.push(copy_string(&sorted[k].0));
        assert(out@ =~= sorted@.subrange(0, k + 1).map_values(|b: BranchName| b.0));
        k = k + 1;
    }
    assert(sorted@.subrange(0, sorted@.len() as int) =~= sorted@);
    out
}

/// The index of the first ref of project `pid` on branch `b`.
pub open spec fn first_ref_on(refs: Seq<RefFact>, pid: Seq<char>, b: Seq<char>) -> Option<int>
    decreases refs.len(),
{
    if refs.len() == 0 {
        None
    } else {
        match first_ref_on(refs.drop_last(), pid, b) {
            Some(i) => Some(i),
            None => if refs.last().project_id@ == pid && refs.last().branch@ == b {
                Some(refs.len() - 1)
            } else {
                None
            },
        }
    }
}

proof fn lemma_first_ref_on_bound(refs: Seq<RefFact>, pid: Seq<char>, b: Seq<char>)
    ensures
        first_ref_on(refs, pid, b) matches Some(i) ==> 0 <= i < refs.len(),
    decreases refs.len(),
{
    if refs.len() > 0 {
        lemma_first_ref_on_bound(refs.drop_last(), pid, b);
    }
}

/// The head the browser resolves against: the chosen branch, or the first
/// choice when none is chosen, looked up among the project's refs.
pub open spec fn browser_head_spec(refs: Seq<RefFact>, pid: Seq<char>, chosen: Seq<char>) -> Option<Seq<char>> {
    let choices = branch_choices_spec(refs, pid);
    let branch = if chosen.len() > 0 {
        Some(chosen)
    } else if choices.len() > 0 {
        Some(choices[0]@)
    } else {
        None
    };
    match branch {
        Some(b) => match first_ref_on(refs, pid, b) {
            Some(i) => Some(refs[i].head@),
            None => None,
        },
        None => None,
    }
}

/// The head the browser resolves project `pid` against.
pub fn browser_head(refs: &[RefFact], pid: &str, chosen: &str) -> (r: Option<String>)
    ensures
        r.is_some() == browser_head_spec(refs@, pid@, chosen@).is_some(),
        r.is_some() ==> r.unwrap()@ == browser_head_spec(refs@, pid@, chosen@).unwrap(),
{
    let choices = branch_choices(refs, pid);
    let branch: String = if chosen.unicode_len() > 0 {
        chosen.to_owned()
    } else if choices.len() > 0 {
        copy_string(&choices[0])
    } else {
        return None;
    };
    let ghost spec_head = browser_head_spec(refs@, pid@, chosen@);
    assert(spec_head == match first_ref_on(refs@, pid@, branch@) {
        Some(i) => Some(refs@[i].head@),
        None => None::<Seq<char>>,
    });
    assert(refs@.subrange(0, 0) =~= Seq::<RefFact>::empty());
    let mut i: usize = 0;
    while i < refs.len()
        invariant
            i <= refs@.len(),
            spec_head == browser_head_spec(refs@, pid@, chosen@),
            spec_head == match first_ref_on(refs@, pid@, branch@) {
                Some(i) => Some(refs@[i].head@),
                None => None::<Seq<char>>,
            },
            first_ref_on(refs@.subrange(0, i as int), pid@, branch@).is_none(),
        decreases refs@.len() - i,
    {
        proof {
            assert(refs@.subrange(0, i + 1).drop_last() =~= refs@.subrange(0, i as int));
        }
        if str_eq(refs[i].project_id.as_str(), pid) && str_eq(refs[i].branch.as_str(), branch.as_str()) {
            proof {
                assert(first_ref_on(refs@.subrange(0, i + 1), pid@, branch@) == Some(i as int));
                lemma_first_ref_on_prefix(refs@, pid@, branch@, i + 1);
            }
            return Some(copy_string(&refs[i].head));
        }
        i = i + 1;
    }
    assert(refs@.subrange(0, refs@.len() as int) =~= refs@);
    None
}

/// A first match in a prefix stays the first match of the whole.
proof fn lemma_first_ref_on_prefix(refs: Seq<RefFact>, pid: Seq<char>, b: Seq<char>, m: int)
    requires
        0 <= m <= refs.len(),
        first_ref_on(refs.subrange(0, m), pid, b).is_some(),
    ensures
        first_ref_on(refs, pid, b) == first_ref_on(refs.subrange(0, m), pid, b),
    decreases refs.len() - m,
{
    if m < refs.len() {
        assert(refs.subrange(0, m + 1).drop_last() =~= refs.subrange(0, m));
        lemma_first_ref_on_prefix(refs, pid, b, m + 1);
    } else {
        assert(refs.subrange(0, m) =~= refs);
    }
}

/// The lowercase form of `s` (`str::to_lowercase`, Unicode's mapping).
pub uninterp spec fn lowercase(s: Seq<char>) -> Seq<char>;

/// Calls `str::to_lowercase`; claims only that the result is `lowercase`
/// of the text (the mapping depends on the text alone).
#[verifier::external_body]
fn to_lower(s: &str) -> (r: String)
    ensures
        r@ == lowercase(s@),
{
    s.to_lowercase()
}

/// `n` occurs somewhere in `h`.
pub open spec fn contains_text(h: Seq<char>, n: Seq<char>) -> bool {
    exists|i: int| #[trigger] crate::agent_docs::occurs_at(h, n, i)
}

/// Does `n` occur in `h`?
fn contains_str(h: &str, n: &str) -> (r: bool)
    ensures
        r == contains_text(h@, n@),
{
    let hs = crate::agent_docs::chars_of(h);
    let ns = crate::agent_docs::chars_of(n);
    let found = crate::agent_docs::find_in(&hs, &ns);
    proof {
        reveal(crate::agent_docs::find_first);
    }
    found.is_some()
}

/// The browser's status filter: "open", "closed", or anything else for all.
pub open spec fn status_wanted(s: Status, want: Seq<char>) -> bool {
    if want == "open"@ {
        s == Status::Open
    } else if want == "closed"@ {
        s == Status::Closed
    } else {
        true
    }
}

/// The browser's text filter over a lowercased needle: it occurs in the
/// lowercased title or in some lowercased label.
pub open spec fn text_match(t: Task, needle: Seq<char>) -> bool {
    ||| needle.len() == 0
    ||| contains_text(lowercase(t.title@), needle)
    ||| exists|j: int| 0 <= j < t.labels@.len() && contains_text(lowercase((#[trigger] t.labels@[j])@), needle)
}

/// A browser row: the position of its task, ordered by the task's
/// (priority, created).
#[derive(Debug, Clone)]
pub struct Row {
    pub index: usize,
    pub rank: u8,
    pub created: String,
}

impl SortKey for Row {
    open spec fn key_le_spec(&self, other: &Self) -> bool {
        ||| self.rank < other.rank
        ||| self.rank == other.rank && str_le(self.created@, other.created@)
    }

    proof fn lemma_key_le_total(a: &Self, b: &Self) {
        lemma_str_le_total(a.created@, b.created@);
    }

    proof fn lemma_key_le_trans(a: &Self, b: &Self, c: &Self) {
        if a.rank == b.rank && b.rank == c.rank {
            lemma_str_le_trans(a.created@, b.created@, c.created@);
        }
    }

    fn key_le(&self, other: &Self) -> (r: bool) {
        self.rank < other.rank || (self.rank == other.rank && str_le_exec(self.created.as_str(), other.created.as_str()))
    }
}

/// The task is shown: in scope (`all`, or of project `pid`), of the wanted
/// status, and matching the needle.
pub open spec fn row_shown(
    t: Task,
    st: Map<Seq<char>, ResolvedStatus>,
    pid: Seq<char>,
    all: bool,
    want: Seq<char>,
    needle: Seq<char>,
) -> bool {
    (all || t.project_id@ == pid) && status_wanted(st[t.id@].status, want) && text_match(t, needle)
}

/// The shown tasks, in task order.
pub open spec fn shown_rows(
    tasks: Seq<Task>,
    st: Map<Seq<char>, ResolvedStatus>,
    pid: Seq<char>,
    all: bool,
    want: Seq<char>,
    needle: Seq<char>,
) -> Seq<Row>
    decreases tasks.len(),
{
    if tasks.len() == 0 {
        Seq::empty()
    } else {
        let prev = shown_rows(tasks.drop_last(), st, pid, all, want, needle);
        let t = tasks.last();
        if row_shown(t, st, pid, all, want, needle) {
            prev.push(Row { index: (tasks.len() - 1) as usize, rank: priority_rank(t.priority), created: t.created })
        } else {
            prev
        }
    }
}

/// Does the task match the (lowercased) needle?
fn matches_needle(t: &Task, needle: &str) -> (r: bool)
    ensures
        r == text_match(*t, needle@),
{
    if needle.unicode_len() == 0 {
        return true;
    }
    let title = to_lower(t.title.as_str());
    if contains_str(title.as_str(), needle) {
        return true;
    }
    let mut j: usize = 0;
    while j < t.labels.len()
        invariant
            j <= t.labels@.len(),
            forall|k: int| 0 <= k < j ==> !contains_text(lowercase((#[trigger] t.labels@[k])@), needle@),
        decreases t.labels@.len() - j,
    {
        let l = to_lower(t.labels[j].as_str());
        if contains_str(l.as_str(), needle) {
            return true;
        }
        j = j + 1;
    }
    false
}

/// The browser's rows, as positions in `tasks`: the shown tasks by
/// (priority, created), ties in task order. `filter` is matched
/// case-insensitively.
pub fn browser_rows(
    tasks: &[Task],
    statuses: &StrMap<ResolvedStatus>,
    pid: &str,
    all: bool,
    want: &str,
    filter: &str,
) -> (r: Vec<usize>)
    requires
        forall|i: int| 0 <= i < tasks@.len() && (all || (#[trigger] tasks@[i]).project_id@ == pid@)
            ==> statuses.map().dom().contains(tasks@[i].id@),
    ensures
        r@ == stable_sorted(shown_rows(tasks@, statuses.map(), pid@, all, want@, lowercase(filter@))).map_values(|w: Row| w.index),
{
    let needle = to_lower(filter);
    proof {
        reveal_strlit("open");
        reveal_strlit("closed");
    }
    let mut rows: Vec<Row> = Vec::new();
    let mut i: usize = 0;
    while i < tasks.len()
        invariant
            i <= tasks@.len(),
            needle@ == lowercase(filter@),
            forall|i: int| 0 <= i < tasks@.len() && (all || (#[trigger] tasks@[i]).project_id@ == pid@)
                ==> statuses.map().dom().contains(tasks@[i].id@),
            rows@ == shown_rows(tasks@.subrange(0, i as int), statuses.map(), pid@, all, want@, needle@),
        decreases tasks@.len() - i,
    {
        proof {
            assert(tasks@.subrange(0, i + 1).drop_last() =~= tasks@.subrange(0, i as int));
        }
        let t = &tasks[i];
        if all || str_eq(t.project_id.as_str(), pid) {
            let st = statuses.get(t.id.as_str()).unwrap().status;
            let wanted = if str_eq(want, "open") {
                st == Status::Open
            } else if str_eq(want, "closed") {
                st == Status::Closed
            } else {
                true
            };
            if wanted && matches_needle(t, needle.as_str()) {
                rows.push(Row { index: i, rank: t.priority.rank(), created: copy_string(&t.created) });
            }
        }
        i = i + 1;
    }
    assert(tasks@.subrange(0, tasks@.len() as int) =~= tasks@);
    let sorted = sort_by_key(rows);
    let mut out: Vec<usize> = Vec::new();
    let mut k: usize = 0;
    while k < sorted.len()
        invariant
            k <= sorted@.len(),
            out@ == sorted@.subrange(0, k as int).map_values(|w: Row| w.index),
        decreases sorted@.len() - k,
    {
        out.push(sorted[k].index);
        assert(out@ =~= sorted@.subrange(0, k + 1).map_values(|w: Row| w.index));
        k = k + 1;
    }
    assert(sorted@.subrange(0, sorted@.len() as int) =~= sorted@);
    out
}

/// How the drawer names a blocker of the task.
pub open spec fn blocker_label(d: Dependency) -> Seq<char> {
    let short = head_bytes(d.blocker_task_id@, 8);
    match d.blocker_project_id {
        Some(p) => head_bytes(p@, 8) + "/"@ + short + match d.via {
            Some(v) => " (via: "@ + v@ + ")"@,
            None => Seq::<char>::empty(),
        },
        None => short,
    }
}

/// The dependency's ids can be shortened to eight bytes.
pub open spec fn dep_cuttable(d: Dependency) -> bool {
    &&& cuttable(d.blocker_task_id@, 8)
    &&& cuttable(d.blocked_task_id@, 8)
    &&& d.blocker_project_id matches Some(p) ==> cuttable(p@, 8)
}

/// The labels of `task_id`'s blockers, in dependency order.
pub open spec fn blocked_by_spec(deps: Seq<Dependency>, task_id: Seq<char>) -> Seq<Seq<char>>
    decreases deps.len(),
{
    if deps.len() == 0 {
        Seq::empty()
    } else {
        let prev = blocked_by_spec(deps.drop_last(), task_id);
        if deps.last().blocked_task_id@ == task_id {
            prev.push(blocker_label(deps.last()))
        } else {
            prev
        }
    }
}

/// The short ids of the tasks `task_id` blocks, in dependency order.
pub open spec fn blocks_spec(deps: Seq<Dependency>, task_id: Seq<char>) -> Seq<Seq<char>>
    decreases deps.len(),
{
    if deps.len() == 0 {
        Seq::empty()
    } else {
        let prev = blocks_spec(deps.drop_last(), task_id);
        if deps.last().blocker_task_id@ == task_id {
            prev.push(head_bytes(deps.last().blocked_task_id@, 8))
        } else {
            prev
        }
    }
}

/// The drawer's "blocked by" and "blocks" lists for `task_id`.
pub fn dependency_labels(deps: &[Dependency], task_id: &str) -> (r: (Vec<String>, Vec<String>))
    requires
        forall|i: int| 0 <= i < deps@.len() ==> dep_cuttable(#[trigger] deps@[i]),
    ensures
        r.0@.map_values(|s: String| s@) == blocked_by_spec(deps@, task_id@),
        r.1@.map_values(|s: String| s@) == blocks_spec(deps@, task_id@),
{
    let mut by: Vec<String> = Vec::new();
    let mut blocks: Vec<String> = Vec::new();
    let mut i: usize = 0;
    while i < deps.len()
        invariant
            i <= deps@.len(),
            forall|i: int| 0 <= i < deps@.len() ==> dep_cuttable(#[trigger] deps@[i]),
            by@.map_values(|s: String| s@) == blocked_by_spec(deps@.subrange(0, i as int), task_id@),
            blocks@.map_values(|s: String| s@) == blocks_spec(deps@.subrange(0, i as int), task_id@),
        decreases deps@.len() - i,
    {
        proof {
            assert(deps@.subrange(0, i + 1).drop_last() =~= deps@.subrange(0, i as int));
        }
        let d = &deps[i];
        assert(dep_cuttable(deps@[i as int]));
        if str_eq(d.blocked_task_id.as_str(), task_id) {
            let short = first_bytes(d.blocker_task_id.as_str(), 8);
            let label = match &d.blocker_project_id {
                Some(p) => {
                    let a = concat(first_bytes(p.as_str(), 8), "/");
                    let b = concat(a.as_str(), short);
                    match &d.via {
                        Some(v) => {
                            let c = concat(b.as_str(), " (via: ");
                            let e = concat(c.as_str(), v.as_str());
                            let f = concat(e.as_str(), ")");
                            assert(f@ =~= head_bytes(p@, 8) + "/"@ + short@ + (" (via: "@ + v@ + ")"@));
                            f
                        },
                        None => {
                            proof {
                                assert(b@ + Seq::<char>::empty() =~= b@);
                            }
                            b
                        },
                    }
                },
                None => short.to_owned(),
            };
            assert(label@ =~= blocker_label(*d));
            let ghost before = by@;
            by.push(label);
            assert(by@.map_values(|s: String| s@) =~= before.map_values(|s: String| s@).push(blocker_label(*d)));
        }
        if str_eq(d.blocker_task_id.as_str(), task_id) {
            let ghost before = blocks@;
            blocks.push(first_bytes(d.blocked_task_id.as_str(), 8).to_owned());
            assert(blocks@.map_values(|s: String| s@) =~= before.map_values(|s: String| s@).push(
                head_bytes(d.blocked_task_id@, 8),
            ));
        }
        i = i + 1;
    }
    assert(deps@.subrange(0, deps@.len() as int) =~= deps@);
    (by, blocks)
}

/// A status-history line: when, where it is anchored, and by whom.
pub open spec fn history_text(c: StatusChange) -> Seq<char> {
    head19(c.created@) + match c.anchor_commit {
        Some(a) => " @ "@ + head_bytes(a@, 8),
        None => " (everywhere)"@,
    } + " by "@ + c.by_dev@
}

/// The drawer's line for one status change.
pub fn history_line(c: &StatusChange) -> (r: String)
    requires
        c.anchor_commit matches Some(a) ==> cuttable(a@, 8),
    ensures
        r@ == history_text(*c),
{
    let when = get_prefix(c.created.as_str(), 19);
    let anchor = match &c.anchor_commit {
        Some(a) => concat(" @ ", first_bytes(a.as_str(), 8)),
        None => " (everywhere)".to_owned(),
    };
    proof {
        reveal_strlit(" (everywhere)");
    }
    let x = concat(when, anchor.as_str());
    let y = concat(x.as_str(), " by ");
    concat(y.as_str(), c.by_dev.as_str())
}

/// "closed" or "reopened".
pub fn change_label(k: StatusKind) -> (r: &'static str)
    ensures
        r@ == (match k {
            StatusKind::Closed => "closed"@,
            StatusKind::Reopened => "reopened"@,
        }),
{
    match k {
        StatusKind::Closed => "closed",
        StatusKind::Reopened => "reopened",
    }
}

/// The drawer's header line for one comment: when, and by whom.
pub fn comment_line(c: &Comment) -> (r: String)
    ensures
        r@ == head19(c.created@) + " · "@ + c.by_dev@,
{
    let x = concat(get_prefix(c.created.as_str(), 19), " · ");
    concat(x.as_str(), c.by_dev.as_str())
}

/// The date a task was created (its first ten bytes, when it has them).
pub fn created_date(t: &Task) -> (r: String)
    ensures
        r@ == (if bytes_of(t.created@).len() >= 10 && is_char_boundary(bytes_of(t.created@), 10) {
            decode_utf8(bytes_of(t.created@).subrange(0, 10))
        } else {
            Seq::empty()
        }),
{
    get_prefix(t.created.as_str(), 10).to_owned()
}

/// The task's status changes, in (created, id) order.
pub fn task_history(changes: &[StatusChange], task_id: &str) -> (r: Vec<StatusChange>)
    ensures
        r@ == stable_sorted(changes@.filter(|c: StatusChange| c.task_id@ == task_id@)),
{
    let ghost p = |c: StatusChange| c.task_id@ == task_id@;
    let mut mine: Vec<StatusChange> = Vec::new();
    let mut i: usize = 0;
    proof {
        crate::seqs::lemma_filter_empty_prefix(changes@, p);
    }
    while i < changes.len()
        invariant
            i <= changes@.len(),
            p == (|c: StatusChange| c.task_id@ == task_id@),
            mine@ == changes@.subrange(0, i as int).filter(p),
        decreases changes@.len() - i,
    {
        proof {
            crate::seqs::lemma_filter_step(changes@, p, i as int);
        }
        if str_eq(changes[i].task_id.as_str(), task_id) {
            mine.push(changes[i].copy());
        }
        i = i + 1;
    }
    proof {
        crate::seqs::lemma_full_prefix(changes@);
    }
    sort_by_key(mine)
}

/// A comment, ordered by creation time alone.
#[derive(Debug, Clone)]
pub struct ByCreated(pub Comment);

impl SortKey for ByCreated {
    open spec fn key_le_spec(&self, other: &Self) -> bool {
        str_le(self.0.created@, other.0.created@)
    }

    proof fn lemma_key_le_total(a: &Self, b: &Self) {
        lemma_str_le_total(a.0.created@, b.0.created@);
    }

    proof fn lemma_key_le_trans(a: &Self, b: &Self, c: &Self) {
        lemma_str_le_trans(a.0.created@, b.0.created@, c.0.created@);
    }

    fn key_le(&self, other: &Self) -> (r: bool) {
        str_le_exec(self.0.created.as_str(), other.0.created.as_str())
    }
}

/// The task's comments as positions in `comments`, ordered by creation
/// time, ties in input order.
pub open spec fn task_comments_spec(comments: Seq<Comment>, task_id: Seq<char>) -> Seq<CommentAt>
    decreases comments.len(),
{
    if comments.len() == 0 {
        Seq::empty()
    } else {
        let prev = task_comments_spec(comments.drop_last(), task_id);
        let c = comments.last();
        if c.task_id@ == task_id {
            prev.push(CommentAt { index: (comments.len() - 1) as usize, created: c.created })
        } else {
            prev
        }
    }
}

/// A comment's position, ordered by its creation time.
#[derive(Debug, Clone)]
pub struct CommentAt {
    pub index: usize,
    pub created: String,
}

impl SortKey for CommentAt {
    open spec fn key_le_spec(&self, other: &Self) -> bool {
        str_le(self.created@, other.created@)
    }

    proof fn lemma_key_le_total(a: &Self, b: &Self) {
        lemma_str_le_total(a.created@, b.created@);
    }

    proof fn lemma_key_le_trans(a: &Self, b: &Self, c: &Self) {
        lemma_str_le_trans(a.created@, b.created@, c.created@);
    }

    fn key_le(&self, other: &Self) -> (r: bool) {
        str_le_exec(self.created.as_str(), other.created.as_str())
    }
}

/// The drawer's comments for `task_id`, as positions in `comments`, oldest
/// first.
pub fn task_comments(comments: &[Comment], task_id: &str) -> (r: Vec<usize>)
    ensures
        r@ == stable_sorted(task_comments_spec(comments@, task_id@)).map_values(|c: CommentAt| c.index),
{
    let mut mine: Vec<CommentAt> = Vec::new();
    let mut i: usize = 0;
    while i < comments.len()
        invariant
            i <= comments@.len(),
            mine@ == task_comments_spec(comments@.subrange(0, i as int), task_id@),
        decreases comments@.len() - i,
    {
        proof {
            assert(comments@.subrange(0, i + 1).drop_last() =~= comments@.subrange(0, i as int));
        }
        if str_eq(comments[i].task_id.as_str(), task_id) {
            mine.push(CommentAt { index: i, created: copy_string(&comments[i].created) });
        }
        i = i + 1;
    }
    assert(comments@.subrange(0, comments@.len() as int) =~= comments@);
    let sorted = sort_by_key(mine);
    let mut out: Vec<usize> = Vec::new();
    let mut k: usize = 0;
    while k < sorted.len()
        invariant
            k <= sorted@.len(),
            out@ == sorted@.subrange(0, k as int).map_values(|c: CommentAt| c.index),
        decreases sorted@.len() - k,
    {
        out.push(sorted[k].index);
        assert(out@ =~= sorted@.subrange(0, k + 1).map_values(|c: CommentAt| c.index));
        k = k + 1;
    }
    assert(sorted@.subrange(0, sorted@.len() as int) =~= sorted@);
    out
}

/// Some task belongs to project `x`.
pub open spec fn has_project(tasks: Seq<Task>, x: Seq<char>) -> bool {
    exists|j: int| 0 <= j < tasks.len() && (#[trigger] tasks[j]).project_id@ == x
}

/// The projects of the given tasks, sorted, each once.
pub fn task_projects(tasks: &[Task]) -> (r: Vec<String>)
    ensures
        forall|x: Seq<char>| #[trigger] crate::resolve::listed(r@, x) <==> has_project(tasks@, x),
        forall|a: int, b: int| 0 <= a < b < r@.len() ==> str_lt((#[trigger] r@[a])@, (#[trigger] r@[b])@),
{
    let mut set: StrMap<()> = StrMap::new();
    let mut i: usize = 0;
    while i < tasks.len()
        invariant
            i <= tasks@.len(),
            forall|k: Seq<char>| #[trigger] set.map().dom().contains(k) <==> exists|j: int| 0 <= j < i && (#[trigger] tasks@[j]).project_id@ == k,
        decreases tasks@.len() - i,
    {
        set.insert(copy_string(&tasks[i].project_id), ());
        proof {
            assert forall|k: Seq<char>| #[trigger] set.map().dom().contains(k) <==> exists|j: int| 0 <= j < i + 1 && (#[trigger] tasks@[j]).project_id@ == k by {
                if exists|j: int| 0 <= j < i + 1 && (#[trigger] tasks@[j]).project_id@ == k {
                    let j = choose|j: int| 0 <= j < i + 1 && (#[trigger] tasks@[j]).project_id@ == k;
                    if j < i {
                        assert(exists|j2: int| 0 <= j2 < i && (#[trigger] tasks@[j2]).project_id@ == k);
                    }
                }
            }
        }
        i = i + 1;
    }
    let n = set.len();
    let mut out: Vec<String> = Vec::new();
    let mut k: usize = 0;
    proof {
        lemma_pairs_map_all(set.pairs());
    }
    while k < n
        invariant
            k <= n,
            n == set.pairs().len(),
            strictly_sorted(set.pairs()),
            out@.len() == k,
            forall|t: int| 0 <= t < k ==> (#[trigger] out@[t])@ == set.pairs()[t].0,
        decreases n - k,
    {
        out.push(copy_string(set.key_at(k)));
        k = k + 1;
    }
    proof {
        lemma_pairs_map_all(set.pairs());
        assert forall|x: Seq<char>| #[trigger] crate::resolve::listed(out@, x) <==> has_project(tasks@, x) by {
            if crate::resolve::listed(out@, x) {
                let i = choose|i: int| 0 <= i < out@.len() && (#[trigger] out@[i])@ == x;
                assert(set.map().dom().contains(set.pairs()[i].0));
            }
            if has_project(tasks@, x) {
                assert(set.map().dom().contains(x));
                let i = choose|i: int| 0 <= i < set.pairs().len() && set.pairs()[i].0 == x;
                assert(out@[i]@ == x);
            }
        }
        assert forall|a: int, b: int| 0 <= a < b < out@.len() implies str_lt((#[trigger] out@[a])@, (#[trigger] out@[b])@) by {
            assert(out@[a]@ == set.pairs()[a].0);
            assert(out@[b]@ == set.pairs()[b].0);
        }
    }
    out
}

} // verus!
