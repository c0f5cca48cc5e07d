//! The entities of a levi event log. Every entity carries an `id`; SET events
//! upsert by id and DEL events remove by id.

use vstd::prelude::*;

use crate::sort::SortKey;
use crate::text::{concat, copy_opt_string, copy_string, copy_strings, lemma_str_le_antisym, lemma_str_le_total, lemma_str_le_trans, str_eq, str_le, str_le_exec, str_lt};

verus! {

/// Task priority, P0 most urgent.
#[derive(Clone, Copy, Debug, PartialEq, Eq, Structural, Hash, PartialOrd, Ord)]
pub enum Priority {
    P0,
    P1,
    P2,
    P3,
}

/// The numeric rank of a priority (P0 = 0 … P3 = 3).
pub open spec fn priority_rank(p: Priority) -> u8 {
    match p {
        Priority::P0 => 0,
        Priority::P1 => 1,
        Priority::P2 => 2,
        Priority::P3 => 3,
    }
}

/// The display label of a priority.
pub open spec fn priority_label(p: Priority) -> Seq<char> {
    match p {
        Priority::P0 => "P0"@,
        Priority::P1 => "P1"@,
        Priority::P2 => "P2"@,
        Priority::P3 => "P3"@,
    }
}

/// ASCII lower-casing of a character (what `to_ascii_lowercase` does).
pub open spec fn ascii_lower(c: char) -> char {
    if 'A' <= c <= 'Z' {
        ((c as u32) + 32) as char
    } else {
        c
    }
}

/// The priority a user string names, case-insensitively: `p0`/`0` … `p3`/`3`.
pub open spec fn parse_priority(s: Seq<char>) -> Option<Priority> {
    let l = s.map_values(|c: char| ascii_lower(c));
    if l == "p0"@ || l == "0"@ {
        Some(Priority::P0)
    } else if l == "p1"@ || l == "1"@ {
        Some(Priority::P1)
    } else if l == "p2"@ || l == "2"@ {
        Some(Priority::P2)
    } else if l == "p3"@ || l == "3"@ {
        Some(Priority::P3)
    } else {
        None
    }
}

impl Priority {
    /// 0 for P0 through 3 for P3: lower ranks sort first.
    pub fn rank(self) -> (r: u8)
        ensures
            r == priority_rank(self),
    {
        match self {
            Priority::P0 => 0,
            Priority::P1 => 1,
            Priority::P2 => 2,
            Priority::P3 => 3,
        }
    }

    /// Parse `p0`..`p3` or `0`..`3`, case-insensitively.
    pub fn parse(s: &str) -> (r: Option<Priority>)
        ensures
            r == parse_priority(s@),
    {
        let mut l: Vec<char> = Vec::new();
        let ghost mut seen: Seq<char> = Seq::empty();
        for c in it: s.chars()
            invariant
                it.seq() == s@,
                l@ == it.seq().take(it.index() as int).map_values(|c: char| ascii_lower(c)),
        {
            let lc = if 'A' <= c && c <= 'Z' {
                lower_ascii_letter(c)
            } else {
                c
            };
            proof {
                assert(it.seq().take(it.index() + 1) =~= it.seq().take(it.index() as int).push(c));
            }
            l.push(lc);
        }
        proof {
            assert(s@.take(s@.len() as int) =~= s@);
            reveal_strlit("p0");
            reveal_strlit("p1");
            reveal_strlit("p2");
            reveal_strlit("p3");
            reveal_strlit("0");
            reveal_strlit("1");
            reveal_strlit("2");
            reveal_strlit("3");
        }
        let n = l.len();
        if n == 2 && l[0] == 'p' {
            let d = l[1];
            if d == '0' {
                assert(l@ =~= "p0"@);
                return Some(Priority::P0);
            } else if d == '1' {
                assert(l@ =~= "p1"@);
                return Some(Priority::P1);
            } else if d == '2' {
                assert(l@ =~= "p2"@);
                return Some(Priority::P2);
            } else if d == '3' {
                assert(l@ =~= "p3"@);
                return Some(Priority::P3);
            }
        } else if n == 1 {
            let d = l[0];
            if d == '0' {
                assert(l@ =~= "0"@);
                return Some(Priority::P0);
            } else if d == '1' {
                assert(l@ =~= "1"@);
                return Some(Priority::P1);
            } else if d == '2' {
                assert(l@ =~= "2"@);
                return Some(Priority::P2);
            } else if d == '3' {
                assert(l@ =~= "3"@);
                return Some(Priority::P3);
            }
        }
        None
    }

    /// "P0" … "P3".
    pub fn label(self) -> (r: &'static str)
        ensures
            r@ == priority_label(self),
    {
        match self {
            Priority::P0 => "P0",
            Priority::P1 => "P1",
            Priority::P2 => "P2",
            Priority::P3 => "P3",
        }
    }
}

/// The upper-case ASCII letter `c` in lower case.
fn lower_ascii_letter(c: char) -> (r: char)
    requires
        'A' <= c <= 'Z',
    ensures
        r == ascii_lower(c),
{
    let b: u8 = c as u8;
    assert(b == c as u32);
    ((b + 32) as char)
}

impl Default for Priority {
    /// P2 is the default priority.
    fn default() -> (p: Priority)
        ensures
            p == Priority::P2,
    {
        Priority::P2
    }
}

/// The kind of a status change.
#[derive(Clone, Copy, Debug, PartialEq, Eq, Structural, Hash)]
pub enum StatusKind {
    Closed,
    Reopened,
}

/// Project identity, minted by `levi init`. id = project UUID.
#[derive(Clone, Debug, PartialEq, Eq)]
pub struct Project {
    pub id: String,
    pub name: String,
    /// RFC3339
    pub created_at: String,
}

/// A tracked task. Status is not a field: it is derived per checkout from
/// the task's status changes.
#[derive(Clone, Debug, PartialEq, Eq)]
pub struct Task {
    pub id: String,
    pub project_id: String,
    pub title: String,
    pub body: String,
    pub priority: Priority,
    pub labels: Vec<String>,
    pub created_by_dev: String,
    pub created_by_machine: String,
    /// RFC3339
    pub created: String,
}

/// Append-only status-change record; never edited.
#[derive(Clone, Debug, PartialEq, Eq)]
pub struct StatusChange {
    pub id: String,
    pub project_id: String,
    pub task_id: String,
    pub to_status: StatusKind,
    /// Full commit sha (hex). None = unanchored: applies on every checkout.
    pub anchor_commit: Option<String>,
    /// RFC3339
    pub created: String,
    pub by_dev: String,
    pub by_machine: String,
}

/// blocker blocks blocked. id = "{blocker}->{blocked}" (same project) or
/// "{blocker_project}/{blocker}->{blocked}" (cross-project).
#[derive(Clone, Debug, PartialEq, Eq)]
pub struct Dependency {
    pub id: String,
    pub project_id: String,
    pub blocker_task_id: String,
    pub blocked_task_id: String,
    /// Set when the blocker lives in another project.
    pub blocker_project_id: Option<String>,
    /// The branch of the blocker's project this project consumes.
    pub blocker_ref: Option<String>,
    /// How the blocker's project is consumed (cross-project only).
    pub via: Option<String>,
}

/// Advisory claim. id = task_id, so a SET overwrites any prior claim.
#[derive(Clone, Debug, PartialEq, Eq)]
pub struct Claim {
    pub id: String,
    pub project_id: String,
    pub task_id: String,
    pub dev: String,
    /// Display name (hostname). Identity comparisons use `machine_id`.
    pub machine: String,
    /// Minted per-machine UUID (empty on legacy events — compare by
    /// `machine` display name then).
    pub machine_id: String,
    pub worktree: String,
    /// The symbolic branch ref the claim was taken on.
    pub git_ref: String,
    /// RFC3339
    pub created: String,
    pub ttl_secs: u64,
}

/// Append-only comment. id = uuid.
#[derive(Clone, Debug, PartialEq, Eq)]
pub struct Comment {
    pub id: String,
    pub project_id: String,
    pub task_id: String,
    pub body: String,
    pub by_dev: String,
    /// RFC3339
    pub created: String,
}

/// Commit-graph slice: sha -> parent shas. id = commit sha.
#[derive(Clone, Debug, PartialEq, Eq)]
pub struct CommitFact {
    pub id: String,
    pub project_id: String,
    pub parents: Vec<String>,
    /// `git patch-id --stable` of the commit's diff, when computed.
    pub patch_id: Option<String>,
}

/// Observed branch head. id = "{project_id}:{branch}".
#[derive(Clone, Debug, PartialEq, Eq)]
pub struct RefFact {
    pub id: String,
    pub project_id: String,
    pub branch: String,
    /// Head commit sha.
    pub head: String,
    /// RFC3339
    pub observed: String,
}

/// The newest event applied per entity on the hub. id = "{item_type}:{item_id}".
#[derive(Clone, Debug, PartialEq, Eq)]
pub struct Applied {
    pub id: String,
    pub event_created: String,
    pub event_oid: String,
}

/// Hub transport wrapper for one event: id = the event's content address,
/// payload = base64 of its CBOR bytes.
#[derive(Clone, Debug, PartialEq, Eq)]
pub struct LogEntry {
    pub id: String,
    pub project_id: String,
    pub cbor_b64: String,
    /// RFC3339 of the inner event.
    pub created_at: String,
}

/// "{item_type}:{item_id}".
pub fn applied_id(item_type: &str, item_id: &str) -> (r: String)
    ensures
        r@ == item_type@ + ":"@ + item_id@,
{
    let a = concat(item_type, ":");
    concat(a.as_str(), item_id)
}

/// "{blocker}->{blocked}".
pub fn dependency_id(blocker: &str, blocked: &str) -> (r: String)
    ensures
        r@ == blocker@ + "->"@ + blocked@,
{
    let a = concat(blocker, "->");
    concat(a.as_str(), blocked)
}

/// "{project_id}:{branch}".
pub fn ref_fact_id(project_id: &str, branch: &str) -> (r: String)
    ensures
        r@ == project_id@ + ":"@ + branch@,
{
    let a = concat(project_id, ":");
    concat(a.as_str(), branch)
}

/// "{project_id}/{task_id}": how a cross-project blocker is keyed.
pub fn foreign_key(project_id: &str, task_id: &str) -> (r: String)
    ensures
        r@ == project_id@ + "/"@ + task_id@,
{
    let a = concat(project_id, "/");
    concat(a.as_str(), task_id)
}

/// "{blocker_project}/{blocker}->{blocked}".
pub fn foreign_dependency_id(blocker_project: &str, blocker: &str, blocked: &str) -> (r: String)
    ensures
        r@ == blocker_project@ + "/"@ + blocker@ + "->"@ + blocked@,
{
    let a = foreign_key(blocker_project, blocker);
    let r = dependency_id(a.as_str(), blocked);
    assert(r@ =~= blocker_project@ + "/"@ + blocker@ + "->"@ + blocked@);
    r
}

impl CommitFact {
    /// A field-for-field copy.
    pub fn copy(&self) -> (r: CommitFact)
        ensures
            r.id == self.id,
            r.project_id == self.project_id,
            r.parents@ == self.parents@,
            r.patch_id == self.patch_id,
    {
        CommitFact {
            id: copy_string(&self.id),
            project_id: copy_string(&self.project_id),
            parents: copy_strings(&self.parents),
            patch_id: copy_opt_string(&self.patch_id),
        }
    }
}

impl Claim {
    /// A field-for-field copy.
    pub fn copy(&self) -> (r: Claim)
        ensures
            r == *self,
    {
        Claim {
            id: copy_string(&self.id),
            project_id: copy_string(&self.project_id),
            task_id: copy_string(&self.task_id),
            dev: copy_string(&self.dev),
            machine: copy_string(&self.machine),
            machine_id: copy_string(&self.machine_id),
            worktree: copy_string(&self.worktree),
            git_ref: copy_string(&self.git_ref),
            created: copy_string(&self.created),
            ttl_secs: self.ttl_secs,
        }
    }
}

impl StatusChange {
    /// A field-for-field copy.
    pub fn copy(&self) -> (r: StatusChange)
        ensures
            r == *self,
    {
        StatusChange {
            id: copy_string(&self.id),
            project_id: copy_string(&self.project_id),
            task_id: copy_string(&self.task_id),
            to_status: self.to_status,
            anchor_commit: copy_opt_string(&self.anchor_commit),
            created: copy_string(&self.created),
            by_dev: copy_string(&self.by_dev),
            by_machine: copy_string(&self.by_machine),
        }
    }
}

/// (a, b) <= (c, d) on string pairs, lexicographically.
pub open spec fn pair_le(a: Seq<char>, b: Seq<char>, c: Seq<char>, d: Seq<char>) -> bool {
    str_lt(a, c) || (a == c && str_le(b, d))
}

pub proof fn lemma_pair_le_total(a: Seq<char>, b: Seq<char>, c: Seq<char>, d: Seq<char>)
    ensures
        pair_le(a, b, c, d) || pair_le(c, d, a, b),
{
    lemma_str_le_total(a, c);
    lemma_str_le_total(b, d);
}

pub proof fn lemma_pair_le_trans(a: Seq<char>, b: Seq<char>, c: Seq<char>, d: Seq<char>, e: Seq<char>, f: Seq<char>)
    requires
        pair_le(a, b, c, d),
        pair_le(c, d, e, f),
    ensures
        pair_le(a, b, e, f),
{
    if str_lt(a, c) && str_lt(c, e) {
        lemma_str_le_trans(a, c, e);
        if a == e {
            lemma_str_le_antisym(a, c);
        }
    } else if str_lt(a, c) {
    } else if str_lt(c, e) {
    } else {
        lemma_str_le_trans(b, d, f);
    }
}

pub proof fn lemma_pair_le_antisym(a: Seq<char>, b: Seq<char>, c: Seq<char>, d: Seq<char>)
    requires
        pair_le(a, b, c, d),
        pair_le(c, d, a, b),
    ensures
        a == c,
        b == d,
{
    if str_lt(a, c) && str_lt(c, a) {
        lemma_str_le_antisym(a, c);
    }
    if a == c {
        lemma_str_le_antisym(b, d);
    }
}

/// (a, b) <= (c, d) on strings, as tuples of `str` compare.
pub fn pair_le_exec(a: &str, b: &str, c: &str, d: &str) -> (r: bool)
    ensures
        r == pair_le(a@, b@, c@, d@),
{
    if str_eq(a, c) {
        str_le_exec(b, d)
    } else {
        str_le_exec(a, c)
    }
}

impl SortKey for StatusChange {
    /// Ordered by (created, id).
    open spec fn key_le_spec(&self, other: &Self) -> bool {
        pair_le(self.created@, self.id@, other.created@, other.id@)
    }

    proof fn lemma_key_le_total(a: &Self, b: &Self) {
        lemma_pair_le_total(a.created@, a.id@, b.created@, b.id@);
    }

    proof fn lemma_key_le_trans(a: &Self, b: &Self, c: &Self) {
        lemma_pair_le_trans(a.created@, a.id@, b.created@, b.id@, c.created@, c.id@);
    }

    fn key_le(&self, other: &Self) -> (r: bool) {
        pair_le_exec(self.created.as_str(), self.id.as_str(), other.created.as_str(), other.id.as_str())
    }
}

impl SortKey for Comment {
    /// Ordered by (created, id).
    open spec fn key_le_spec(&self, other: &Self) -> bool {
        pair_le(self.created@, self.id@, other.created@, other.id@)
    }

    proof fn lemma_key_le_total(a: &Self, b: &Self) {
        lemma_pair_le_total(a.created@, a.id@, b.created@, b.id@);
    }

    proof fn lemma_key_le_trans(a: &Self, b: &Self, c: &Self) {
        lemma_pair_le_trans(a.created@, a.id@, b.created@, b.id@, c.created@, c.id@);
    }

    fn key_le(&self, other: &Self) -> (r: bool) {
        pair_le_exec(self.created.as_str(), self.id.as_str(), other.created.as_str(), other.id.as_str())
    }
}

} // verus!
