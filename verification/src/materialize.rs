//! Deterministic replay of a levi event log into materialized state.
//!
//! Events apply in last-writer-wins order — `created_at`, ties broken by
//! event id — by sorting every record with that key before replay. The event
//! id is the content address of the event's bytes, so the order is identical
//! on every node.

use vstd::prelude::*;

use crate::crossproject::change_of_task;
use crate::entities::{
    pair_le, pair_le_exec, lemma_pair_le_antisym, lemma_pair_le_total, lemma_pair_le_trans, Claim, Comment, CommitFact,
    Dependency, Project, RefFact, StatusChange, Task,
};
use crate::seqs::{lemma_filter_step, lemma_full_prefix, lemma_filter_empty_prefix};
use crate::sort::{lemma_sorted_same_elements, lemma_stable_sorted, sort_by_key, sorted_by_key, stable_sorted, SortKey};
use crate::strmap::{lemma_pairs_map_all, lemma_reordered_values, pairs_map, StrMap};
use crate::text::{copy_string, str_eq};

verus! {

/// The entity types an event can carry.
#[derive(Clone, Copy, Debug, PartialEq, Eq, Structural)]
pub enum ItemKind {
    Project,
    Task,
    StatusChange,
    Dependency,
    Claim,
    Comment,
    CommitFact,
    RefFact,
}

/// A decoded entity.
#[derive(Clone, Debug, PartialEq, Eq)]
pub enum Item {
    Project(Project),
    Task(Task),
    StatusChange(StatusChange),
    Dependency(Dependency),
    Claim(Claim),
    Comment(Comment),
    CommitFact(CommitFact),
    RefFact(RefFact),
}

/// What an event does.
#[derive(Clone, Debug, PartialEq, Eq)]
pub enum EventChange {
    /// Upsert this entity by its id.
    Upsert(Item),
    /// Remove the entity of this kind with this id (a tombstone applies even
    /// when the entity was never seen).
    Remove(ItemKind, String),
    /// An event of an unknown item type, a SET whose item does not decode, or
    /// a DEL without an id: skipped, for forward compatibility.
    Ignored,
}

/// The kind an event's item-type name stands for; `None` for a name this
/// version does not know.
pub open spec fn kind_named(n: Seq<char>) -> Option<ItemKind> {
    if n == "Project"@ {
        Some(ItemKind::Project)
    } else if n == "Task"@ {
        Some(ItemKind::Task)
    } else if n == "StatusChange"@ {
        Some(ItemKind::StatusChange)
    } else if n == "Dependency"@ {
        Some(ItemKind::Dependency)
    } else if n == "Claim"@ {
        Some(ItemKind::Claim)
    } else if n == "Comment"@ {
        Some(ItemKind::Comment)
    } else if n == "CommitFact"@ {
        Some(ItemKind::CommitFact)
    } else if n == "RefFact"@ {
        Some(ItemKind::RefFact)
    } else {
        None
    }
}

/// The item-type name of a kind, as events carry it.
pub open spec fn kind_label(k: ItemKind) -> Seq<char> {
    match k {
        ItemKind::Project => "Project"@,
        ItemKind::Task => "Task"@,
        ItemKind::StatusChange => "StatusChange"@,
        ItemKind::Dependency => "Dependency"@,
        ItemKind::Claim => "Claim"@,
        ItemKind::Comment => "Comment"@,
        ItemKind::CommitFact => "CommitFact"@,
        ItemKind::RefFact => "RefFact"@,
    }
}

impl ItemKind {
    /// The kind named by an event's item type, if it is one levi knows.
    pub fn from_name(name: &str) -> (r: Option<ItemKind>)
        ensures
            r == kind_named(name@),
    {
    if str_eq(name, "Project") {
        Some(ItemKind::Project)
    } else if str_eq(name, "Task") {
        Some(ItemKind::Task)
    } else if str_eq(name, "StatusChange") {
        Some(ItemKind::StatusChange)
    } else if str_eq(name, "Dependency") {
        Some(ItemKind::Dependency)
    } else if str_eq(name, "Claim") {
        Some(ItemKind::Claim)
    } else if str_eq(name, "Comment") {
        Some(ItemKind::Comment)
    } else if str_eq(name, "CommitFact") {
        Some(ItemKind::CommitFact)
    } else if str_eq(name, "RefFact") {
        Some(ItemKind::RefFact)
        } else {
            None
        }
    }

    /// The item-type name events of this kind carry.
    pub fn name(self) -> (r: &'static str)
        ensures
            r@ == kind_label(self),
    {
        match self {
            ItemKind::Project => "Project",
            ItemKind::Task => "Task",
            ItemKind::StatusChange => "StatusChange",
            ItemKind::Dependency => "Dependency",
            ItemKind::Claim => "Claim",
            ItemKind::Comment => "Comment",
            ItemKind::CommitFact => "CommitFact",
            ItemKind::RefFact => "RefFact",
        }
    }
}

/// What a stored event does to the state: `kind` is its item type as
/// `ItemKind::from_name` read it; a SET upserts the decoded item (if it
/// decoded), a DEL removes the entity with `del_id` (if the event has one);
/// anything else is ignored.
pub fn change_from(kind: Option<ItemKind>, is_set: bool, decoded: Option<Item>, del_id: Option<String>) -> (r: EventChange)
    ensures
        r == (match kind {
            None => EventChange::Ignored,
            Some(k) => if is_set {
                match decoded {
                    Some(item) => EventChange::Upsert(item),
                    None => EventChange::Ignored,
                }
            } else {
                match del_id {
                    Some(id) => EventChange::Remove(k, id),
                    None => EventChange::Ignored,
                }
            },
        }),
{
    match kind {
        None => EventChange::Ignored,
        Some(k) => if is_set {
            match decoded {
                Some(item) => EventChange::Upsert(item),
                None => EventChange::Ignored,
            }
        } else {
            match del_id {
                Some(id) => EventChange::Remove(k, id),
                None => EventChange::Ignored,
            }
        },
    }
}

/// One event as stored in the log: `id` is the content address of its bytes.
#[derive(Clone, Debug, PartialEq, Eq)]
pub struct EventRecord {
    pub id: String,
    /// RFC3339, fixed-width, so string order is time order.
    pub created_at: String,
    pub change: EventChange,
}

impl SortKey for EventRecord {
    /// Ordered by (created_at, id): last-writer-wins order.
    open spec fn key_le_spec(&self, other: &Self) -> bool {
        pair_le(self.created_at@, self.id@, other.created_at@, other.id@)
    }

    proof fn lemma_key_le_total(a: &Self, b: &Self) {
        lemma_pair_le_total(a.created_at@, a.id@, b.created_at@, b.id@);
    }

    proof fn lemma_key_le_trans(a: &Self, b: &Self, c: &Self) {
        lemma_pair_le_trans(a.created_at@, a.id@, b.created_at@, b.id@, c.created_at@, c.id@);
    }

    fn key_le(&self, other: &Self) -> (r: bool) {
        pair_le_exec(self.created_at.as_str(), self.id.as_str(), other.created_at.as_str(), other.id.as_str())
    }
}

/// The state a replay builds, as mathematical maps.
pub struct Replayed {
    pub project: Option<Project>,
    pub tasks: Map<Seq<char>, Task>,
    pub status_changes: Map<Seq<char>, StatusChange>,
    pub deps: Map<Seq<char>, Dependency>,
    pub claims: Map<Seq<char>, Claim>,
    pub comments: Map<Seq<char>, Comment>,
    pub commit_facts: Map<Seq<char>, CommitFact>,
    pub ref_facts: Map<Seq<char>, RefFact>,
    /// Every claim SET, in replay order.
    pub claim_history: Seq<Claim>,
}

/// Nothing replayed yet.
pub open spec fn empty_replay() -> Replayed {
    Replayed {
        project: None,
        tasks: Map::empty(),
        status_changes: Map::empty(),
        deps: Map::empty(),
        claims: Map::empty(),
        comments: Map::empty(),
        commit_facts: Map::empty(),
        ref_facts: Map::empty(),
        claim_history: Seq::empty(),
    }
}

/// Apply one event: SET upserts by entity id, DEL removes by id, a Project
/// SET replaces the project; anything else is skipped.
pub open spec fn apply_event(st: Replayed, c: EventChange) -> Replayed {
    match c {
        EventChange::Upsert(item) => match item {
            Item::Project(p) => Replayed { project: Some(p), ..st },
            Item::Task(t) => Replayed { tasks: st.tasks.insert(t.id@, t), ..st },
            Item::StatusChange(x) => Replayed { status_changes: st.status_changes.insert(x.id@, x), ..st },
            Item::Dependency(x) => Replayed { deps: st.deps.insert(x.id@, x), ..st },
            Item::Claim(x) => Replayed { claims: st.claims.insert(x.id@, x), claim_history: st.claim_history.push(x), ..st },
            Item::Comment(x) => Replayed { comments: st.comments.insert(x.id@, x), ..st },
            Item::CommitFact(x) => Replayed { commit_facts: st.commit_facts.insert(x.id@, x), ..st },
            Item::RefFact(x) => Replayed { ref_facts: st.ref_facts.insert(x.id@, x), ..st },
        },
        EventChange::Remove(kind, id) => match kind {
            ItemKind::Project => st,
            ItemKind::Task => Replayed { tasks: st.tasks.remove(id@), ..st },
            ItemKind::StatusChange => Replayed { status_changes: st.status_changes.remove(id@), ..st },
            ItemKind::Dependency => Replayed { deps: st.deps.remove(id@), ..st },
            ItemKind::Claim => Replayed { claims: st.claims.remove(id@), ..st },
            ItemKind::Comment => Replayed { comments: st.comments.remove(id@), ..st },
            ItemKind::CommitFact => Replayed { commit_facts: st.commit_facts.remove(id@), ..st },
            ItemKind::RefFact => Replayed { ref_facts: st.ref_facts.remove(id@), ..st },
        },
        EventChange::Ignored => st,
    }
}

/// Replay events in the given order.
pub open spec fn replay(recs: Seq<EventRecord>) -> Replayed
    decreases recs.len(),
{
    if recs.len() == 0 {
        empty_replay()
    } else {
        apply_event(replay(recs.drop_last()), recs.last().change)
    }
}

/// Each entity is stored under its own id.
pub open spec fn keyed_by_id(st: Replayed) -> bool {
    &&& forall|k: Seq<char>| #[trigger] st.tasks.dom().contains(k) ==> st.tasks[k].id@ == k
    &&& forall|k: Seq<char>| #[trigger] st.status_changes.dom().contains(k) ==> st.status_changes[k].id@ == k
    &&& forall|k: Seq<char>| #[trigger] st.deps.dom().contains(k) ==> st.deps[k].id@ == k
    &&& forall|k: Seq<char>| #[trigger] st.claims.dom().contains(k) ==> st.claims[k].id@ == k
    &&& forall|k: Seq<char>| #[trigger] st.comments.dom().contains(k) ==> st.comments[k].id@ == k
    &&& forall|k: Seq<char>| #[trigger] st.commit_facts.dom().contains(k) ==> st.commit_facts[k].id@ == k
    &&& forall|k: Seq<char>| #[trigger] st.ref_facts.dom().contains(k) ==> st.ref_facts[k].id@ == k
}

/// Replay keeps every entity under its own id.
pub proof fn lemma_replay_keyed_by_id(recs: Seq<EventRecord>)
    ensures
        keyed_by_id(replay(recs)),
    decreases recs.len(),
{
    if recs.len() > 0 {
        lemma_replay_keyed_by_id(recs.drop_last());
    }
}

/// Replay is independent of arrival order: two logs that hold the same
/// events, in any order, sort into the same replay order and so replay to the
/// same state, whenever records that share a (created_at, id) key are the
/// same record — in particular when all keys are distinct, and whenever ids
/// are content addresses of the events' bytes.
pub proof fn law_replay_order_independent(a: Seq<EventRecord>, b: Seq<EventRecord>)
    requires
        a.to_multiset() == b.to_multiset(),
        forall|i: int, j: int|
            0 <= i < a.len() && 0 <= j < a.len() && (#[trigger] a[i]).created_at@ == (#[trigger] a[j]).created_at@
                && a[i].id@ == a[j].id@ ==> a[i] == a[j],
    ensures
        stable_sorted(a) == stable_sorted(b),
        replay(stable_sorted(a)) == replay(stable_sorted(b)),
{
    broadcast use vstd::seq_lib::group_to_multiset_ensures;

    lemma_stable_sorted(a);
    lemma_stable_sorted(b);
    let sa = stable_sorted(a);
    let sb = stable_sorted(b);
    assert forall|x: EventRecord, y: EventRecord|
        sa.contains(x) && sa.contains(y) && x.key_le_spec(&y) && y.key_le_spec(&x) implies x == y by {
        lemma_pair_le_antisym(x.created_at@, x.id@, y.created_at@, y.id@);
        assert(sa.to_multiset().count(x) > 0);
        assert(sa.to_multiset().count(y) > 0);
        assert(a.contains(x));
        assert(a.contains(y));
        let i = choose|i: int| 0 <= i < a.len() && a[i] == x;
        let j = choose|j: int| 0 <= j < a.len() && a[j] == y;
        assert(a[i].id@ == a[j].id@ && a[i].created_at@ == a[j].created_at@);
    }
    lemma_sorted_same_elements(sa, sb);
}

/// The event touches the task with id `k`: a SET of that task or a DEL of it.
pub open spec fn touches_task(c: EventChange, k: Seq<char>) -> bool {
    match c {
        EventChange::Upsert(Item::Task(t)) => t.id@ == k,
        EventChange::Remove(ItemKind::Task, id) => id@ == k,
        _ => false,
    }
}

/// Last writer wins: after a replay, a task holds what the last event that
/// touched it wrote — the task of its last SET, or nothing after a DEL — and
/// a task no event touched is absent.
pub proof fn law_task_last_write_wins(s: Seq<EventRecord>, k: Seq<char>)
    ensures
        (forall|i: int| 0 <= i < s.len() ==> !touches_task(#[trigger] s[i].change, k))
            ==> !replay(s).tasks.dom().contains(k),
        forall|i: int|
            0 <= i < s.len() && touches_task(#[trigger] s[i].change, k)
                && (forall|j: int| i < j < s.len() ==> !touches_task(#[trigger] s[j].change, k))
                ==> match s[i].change {
                EventChange::Upsert(Item::Task(t)) => replay(s).tasks.dom().contains(k) && replay(s).tasks[k] == t,
                _ => !replay(s).tasks.dom().contains(k),
            },
    decreases s.len(),
{
    if s.len() > 0 {
        let p = s.drop_last();
        law_task_last_write_wins(p, k);
        assert forall|i: int| 0 <= i < p.len() implies #[trigger] p[i] == s[i] by {}
        let n = s.len() - 1;
        if touches_task(s[n].change, k) {
        } else {
            assert forall|i: int|
                0 <= i < s.len() && touches_task(#[trigger] s[i].change, k)
                    && (forall|j: int| i < j < s.len() ==> !touches_task(#[trigger] s[j].change, k))
                implies match s[i].change {
                    EventChange::Upsert(Item::Task(t)) => replay(s).tasks.dom().contains(k) && replay(s).tasks[k] == t,
                    _ => !replay(s).tasks.dom().contains(k),
                } by {
                assert(i < n);
                assert(p[i] == s[i]);
                assert forall|j: int| i < j < p.len() implies !touches_task(#[trigger] p[j].change, k) by {
                    assert(p[j] == s[j]);
                }
            }
            if forall|i: int| 0 <= i < s.len() ==> !touches_task(#[trigger] s[i].change, k) {
                assert forall|i: int| 0 <= i < p.len() implies !touches_task(#[trigger] p[i].change, k) by {
                    assert(p[i] == s[i]);
                }
            }
        }
    }
}

/// The event touches the dependency with id `k`: a SET of it or a DEL of it.
pub open spec fn touches_dep(c: EventChange, k: Seq<char>) -> bool {
    match c {
        EventChange::Upsert(Item::Dependency(t)) => t.id@ == k,
        EventChange::Remove(ItemKind::Dependency, id) => id@ == k,
        _ => false,
    }
}

/// Last writer wins for a dependency: after a replay it holds what the last
/// event that touched it wrote — its last SET, or nothing after a DEL — and
/// a dependency no event touched is absent.
pub proof fn law_dep_last_write_wins(s: Seq<EventRecord>, k: Seq<char>)
    ensures
        (forall|i: int| 0 <= i < s.len() ==> !touches_dep(#[trigger] s[i].change, k))
            ==> !replay(s).deps.dom().contains(k),
        forall|i: int|
            0 <= i < s.len() && touches_dep(#[trigger] s[i].change, k)
                && (forall|j: int| i < j < s.len() ==> !touches_dep(#[trigger] s[j].change, k))
                ==> match s[i].change {
                EventChange::Upsert(Item::Dependency(t)) => replay(s).deps.dom().contains(k) && replay(s).deps[k] == t,
                _ => !replay(s).deps.dom().contains(k),
            },
    decreases s.len(),
{
    if s.len() > 0 {
        let p = s.drop_last();
        law_dep_last_write_wins(p, k);
        assert forall|i: int| 0 <= i < p.len() implies #[trigger] p[i] == s[i] by {}
        let n = s.len() - 1;
        if touches_dep(s[n].change, k) {
        } else {
            assert forall|i: int|
                0 <= i < s.len() && touches_dep(#[trigger] s[i].change, k)
                    && (forall|j: int| i < j < s.len() ==> !touches_dep(#[trigger] s[j].change, k))
                implies match s[i].change {
                    EventChange::Upsert(Item::Dependency(t)) => replay(s).deps.dom().contains(k) && replay(s).deps[k] == t,
                    _ => !replay(s).deps.dom().contains(k),
                } by {
                assert(i < n);
                assert(p[i] == s[i]);
                assert forall|j: int| i < j < p.len() implies !touches_dep(#[trigger] p[j].change, k) by {
                    assert(p[j] == s[j]);
                }
            }
            if forall|i: int| 0 <= i < s.len() ==> !touches_dep(#[trigger] s[i].change, k) {
                assert forall|i: int| 0 <= i < p.len() implies !touches_dep(#[trigger] p[i].change, k) by {
                    assert(p[i] == s[i]);
                }
            }
        }
    }
}

/// The event touches the status change with id `k`: a SET of it or a DEL of it.
pub open spec fn touches_status_change(c: EventChange, k: Seq<char>) -> bool {
    match c {
        EventChange::Upsert(Item::StatusChange(t)) => t.id@ == k,
        EventChange::Remove(ItemKind::StatusChange, id) => id@ == k,
        _ => false,
    }
}

/// Last writer wins for a status change: after a replay it holds what the last
/// event that touched it wrote — its last SET, or nothing after a DEL — and
/// a status change no event touched is absent.
pub proof fn law_status_change_last_write_wins(s: Seq<EventRecord>, k: Seq<char>)
    ensures
        (forall|i: int| 0 <= i < s.len() ==> !touches_status_change(#[trigger] s[i].change, k))
            ==> !replay(s).status_changes.dom().contains(k),
        forall|i: int|
            0 <= i < s.len() && touches_status_change(#[trigger] s[i].change, k)
                && (forall|j: int| i < j < s.len() ==> !touches_status_change(#[trigger] s[j].change, k))
                ==> match s[i].change {
                EventChange::Upsert(Item::StatusChange(t)) => replay(s).status_changes.dom().contains(k) && replay(s).status_changes[k] == t,
                _ => !replay(s).status_changes.dom().contains(k),
            },
    decreases s.len(),
{
    if s.len() > 0 {
        let p = s.drop_last();
        law_status_change_last_write_wins(p, k);
        assert forall|i: int| 0 <= i < p.len() implies #[trigger] p[i] == s[i] by {}
        let n = s.len() - 1;
        if touches_status_change(s[n].change, k) {
        } else {
            assert forall|i: int|
                0 <= i < s.len() && touches_status_change(#[trigger] s[i].change, k)
                    && (forall|j: int| i < j < s.len() ==> !touches_status_change(#[trigger] s[j].change, k))
                implies match s[i].change {
                    EventChange::Upsert(Item::StatusChange(t)) => replay(s).status_changes.dom().contains(k) && replay(s).status_changes[k] == t,
                    _ => !replay(s).status_changes.dom().contains(k),
                } by {
                assert(i < n);
                assert(p[i] == s[i]);
                assert forall|j: int| i < j < p.len() implies !touches_status_change(#[trigger] p[j].change, k) by {
                    assert(p[j] == s[j]);
                }
            }
            if forall|i: int| 0 <= i < s.len() ==> !touches_status_change(#[trigger] s[i].change, k) {
                assert forall|i: int| 0 <= i < p.len() implies !touches_status_change(#[trigger] p[i].change, k) by {
                    assert(p[i] == s[i]);
                }
            }
        }
    }
}

/// The event touches the comment with id `k`: a SET of it or a DEL of it.
pub open spec fn touches_comment(c: EventChange, k: Seq<char>) -> bool {
    match c {
        EventChange::Upsert(Item::Comment(t)) => t.id@ == k,
        EventChange::Remove(ItemKind::Comment, id) => id@ == k,
        _ => false,
    }
}

/// Last writer wins for a comment: after a replay it holds what the last
/// event that touched it wrote — its last SET, or nothing after a DEL — and
/// a comment no event touched is absent.
pub proof fn law_comment_last_write_wins(s: Seq<EventRecord>, k: Seq<char>)
    ensures
        (forall|i: int| 0 <= i < s.len() ==> !touches_comment(#[trigger] s[i].change, k))
            ==> !replay(s).comments.dom().contains(k),
        forall|i: int|
            0 <= i < s.len() && touches_comment(#[trigger] s[i].change, k)
                && (forall|j: int| i < j < s.len() ==> !touches_comment(#[trigger] s[j].change, k))
                ==> match s[i].change {
                EventChange::Upsert(Item::Comment(t)) => replay(s).comments.dom().contains(k) && replay(s).comments[k] == t,
                _ => !replay(s).comments.dom().contains(k),
            },
    decreases s.len(),
{
    if s.len() > 0 {
        let p = s.drop_last();
        law_comment_last_write_wins(p, k);
        assert forall|i: int| 0 <= i < p.len() implies #[trigger] p[i] == s[i] by {}
        let n = s.len() - 1;
        if touches_comment(s[n].change, k) {
        } else {
            assert forall|i: int|
                0 <= i < s.len() && touches_comment(#[trigger] s[i].change, k)
                    && (forall|j: int| i < j < s.len() ==> !touches_comment(#[trigger] s[j].change, k))
                implies match s[i].change {
                    EventChange::Upsert(Item::Comment(t)) => replay(s).comments.dom().contains(k) && replay(s).comments[k] == t,
                    _ => !replay(s).comments.dom().contains(k),
                } by {
                assert(i < n);
                assert(p[i] == s[i]);
                assert forall|j: int| i < j < p.len() implies !touches_comment(#[trigger] p[j].change, k) by {
                    assert(p[j] == s[j]);
                }
            }
            if forall|i: int| 0 <= i < s.len() ==> !touches_comment(#[trigger] s[i].change, k) {
                assert forall|i: int| 0 <= i < p.len() implies !touches_comment(#[trigger] p[i].change, k) by {
                    assert(p[i] == s[i]);
                }
            }
        }
    }
}

/// Event `c` is a Project SET.
pub open spec fn sets_project(c: EventChange) -> bool {
    c matches EventChange::Upsert(Item::Project(_))
}

/// Last writer wins for the project: after a replay the project is the one
/// of the last Project SET (so a rename takes effect), and there is none
/// when no event sets one. A Project DEL changes nothing.
pub proof fn law_project_last_write_wins(s: Seq<EventRecord>)
    ensures
        (forall|i: int| 0 <= i < s.len() ==> !sets_project(#[trigger] s[i].change)) ==> replay(s).project is None,
        forall|i: int|
            0 <= i < s.len() && sets_project(#[trigger] s[i].change)
                && (forall|j: int| i < j < s.len() ==> !sets_project(#[trigger] s[j].change))
                ==> match s[i].change {
                EventChange::Upsert(Item::Project(p)) => replay(s).project == Some(p),
                _ => false,
            },
    decreases s.len(),
{
    if s.len() > 0 {
        let q = s.drop_last();
        law_project_last_write_wins(q);
        assert forall|i: int| 0 <= i < q.len() implies #[trigger] q[i] == s[i] by {}
        let n = s.len() - 1;
        if !sets_project(s[n].change) {
            assert(replay(s).project == replay(q).project);
            assert forall|i: int|
                0 <= i < s.len() && sets_project(#[trigger] s[i].change)
                    && (forall|j: int| i < j < s.len() ==> !sets_project(#[trigger] s[j].change))
                implies match s[i].change {
                    EventChange::Upsert(Item::Project(p)) => replay(s).project == Some(p),
                    _ => false,
                } by {
                assert(i < n);
                assert(q[i] == s[i]);
                assert forall|j: int| i < j < q.len() implies !sets_project(#[trigger] q[j].change) by {
                    assert(q[j] == s[j]);
                }
            }
            if forall|i: int| 0 <= i < s.len() ==> !sets_project(#[trigger] s[i].change) {
                assert forall|i: int| 0 <= i < q.len() implies !sets_project(#[trigger] q[i].change) by {
                    assert(q[i] == s[i]);
                }
            }
        }
    }
}

/// Event `c` sets or deletes the claim on task `k`.
pub open spec fn touches_claim(c: EventChange, k: Seq<char>) -> bool {
    match c {
        EventChange::Upsert(Item::Claim(x)) => x.id@ == k,
        EventChange::Remove(ItemKind::Claim, id) => id@ == k,
        _ => false,
    }
}

/// Claims: newest wins. After a replay in (created, id) order, the claim on
/// a task is the one its last claim SET wrote, or none after a DEL or when
/// no event touched it.
pub proof fn law_claim_last_write_wins(s: Seq<EventRecord>, k: Seq<char>)
    ensures
        (forall|i: int| 0 <= i < s.len() ==> !touches_claim(#[trigger] s[i].change, k))
            ==> !replay(s).claims.dom().contains(k),
        forall|i: int|
            0 <= i < s.len() && touches_claim(#[trigger] s[i].change, k)
                && (forall|j: int| i < j < s.len() ==> !touches_claim(#[trigger] s[j].change, k))
                ==> match s[i].change {
                EventChange::Upsert(Item::Claim(c)) => replay(s).claims.dom().contains(k) && replay(s).claims[k] == c,
                _ => !replay(s).claims.dom().contains(k),
            },
    decreases s.len(),
{
    if s.len() > 0 {
        let p = s.drop_last();
        law_claim_last_write_wins(p, k);
        assert forall|i: int| 0 <= i < p.len() implies #[trigger] p[i] == s[i] by {}
        let n = s.len() - 1;
        if touches_claim(s[n].change, k) {
        } else {
            assert forall|i: int|
                0 <= i < s.len() && touches_claim(#[trigger] s[i].change, k)
                    && (forall|j: int| i < j < s.len() ==> !touches_claim(#[trigger] s[j].change, k))
                implies match s[i].change {
                    EventChange::Upsert(Item::Claim(c)) => replay(s).claims.dom().contains(k) && replay(s).claims[k] == c,
                    _ => !replay(s).claims.dom().contains(k),
                } by {
                assert(i < n);
                assert(p[i] == s[i]);
                assert forall|j: int| i < j < p.len() implies !touches_claim(#[trigger] p[j].change, k) by {
                    assert(p[j] == s[j]);
                }
            }
            if forall|i: int| 0 <= i < s.len() ==> !touches_claim(#[trigger] s[i].change, k) {
                assert forall|i: int| 0 <= i < p.len() implies !touches_claim(#[trigger] p[i].change, k) by {
                    assert(p[i] == s[i]);
                }
            }
        }
    }
}

/// `s` lists each value of `m` exactly once, each under its own id, in
/// (created, id) order.
pub open spec fn lists_changes(s: Seq<StatusChange>, m: Map<Seq<char>, StatusChange>) -> bool {
    &&& sorted_by_key(s)
    &&& forall|i: int| #![trigger s[i]] 0 <= i < s.len() ==> m.dom().contains(s[i].id@) && m[s[i].id@] == s[i]
    &&& forall|i: int, j: int| 0 <= i < s.len() && 0 <= j < s.len() && i != j ==> (#[trigger] s[i]).id@ != (#[trigger] s[j]).id@
    &&& forall|k: Seq<char>| #[trigger] m.dom().contains(k) ==> exists|i: int| 0 <= i < s.len() && s[i].id@ == k
}

/// `s` lists each value of `m` exactly once, each under its own id, in
/// (created, id) order.
pub open spec fn lists_comments(s: Seq<Comment>, m: Map<Seq<char>, Comment>) -> bool {
    &&& sorted_by_key(s)
    &&& forall|i: int| #![trigger s[i]] 0 <= i < s.len() ==> m.dom().contains(s[i].id@) && m[s[i].id@] == s[i]
    &&& forall|i: int, j: int| 0 <= i < s.len() && 0 <= j < s.len() && i != j ==> (#[trigger] s[i]).id@ != (#[trigger] s[j]).id@
    &&& forall|k: Seq<char>| #[trigger] m.dom().contains(k) ==> exists|i: int| 0 <= i < s.len() && s[i].id@ == k
}

/// A point in time: seconds since the Unix epoch plus nanoseconds.
#[derive(Clone, Copy, Debug, PartialEq, Eq, Structural)]
pub struct Instant {
    pub secs: i64,
    pub nanos: u32,
}

/// The instant an RFC3339 timestamp denotes, as (seconds, nanoseconds), or
/// `None` when the text does not parse.
pub uninterp spec fn rfc3339_instant(s: Seq<char>) -> Option<(int, int)>;

/// Earliest second an RFC3339 timestamp can denote (year 0000, offset +23:59).
pub const RFC3339_MIN_SECS: i64 = -62_167_305_600;

/// Latest second an RFC3339 timestamp can denote (year 9999, offset -23:59).
pub const RFC3339_MAX_SECS: i64 = 253_402_387_200;

/// Largest claim ttl whose expiry is representable for every parsable time.
pub const MAX_CLAIM_TTL_SECS: u64 = 7_900_000_000_000;

/// Parse an RFC3339 timestamp with `chrono::DateTime::parse_from_rfc3339`.
#[verifier::external_body]
fn parse_rfc3339(s: &str) -> (r: Option<Instant>)
    ensures
        r.is_some() == rfc3339_instant(s@).is_some(),
        r.is_some() ==> (r.unwrap().secs as int, r.unwrap().nanos as int) == rfc3339_instant(s@).unwrap(),
        r.is_some() ==> r.unwrap().nanos < 2_000_000_000,
        r.is_some() ==> RFC3339_MIN_SECS <= r.unwrap().secs <= RFC3339_MAX_SECS,
{
    chrono::DateTime::parse_from_rfc3339(s).ok().map(|d| Instant { secs: d.timestamp(), nanos: d.timestamp_subsec_nanos() })
}

/// `a` is strictly later than `b`.
pub open spec fn later(a: (int, int), b: Instant) -> bool {
    a.0 > b.secs || (a.0 == b.secs && a.1 > b.nanos)
}

/// A claim is live at `now` when its timestamp parses and it was taken less
/// than `ttl_secs` before `now`.
pub open spec fn claim_live_at(c: Claim, now: Instant) -> bool {
    match rfc3339_instant(c.created@) {
        Some(t) => c.ttl_secs <= i64::MAX && later((t.0 + c.ttl_secs, t.1), now),
        None => false,
    }
}

/// The claim's ttl is one whose expiry can be computed.
pub open spec fn ttl_representable(c: Claim) -> bool {
    c.ttl_secs <= MAX_CLAIM_TTL_SECS || c.ttl_secs > i64::MAX
}

/// Materialized state of one project's event log.
pub struct World {
    pub project: Option<Project>,
    pub tasks: StrMap<Task>,
    /// Sorted by (created, id).
    pub status_changes: Vec<StatusChange>,
    pub deps: StrMap<Dependency>,
    /// Keyed by task id (== Claim entity id); newest SET wins.
    pub claims: StrMap<Claim>,
    /// Sorted by (created, id).
    pub comments: Vec<Comment>,
    pub commit_facts: StrMap<CommitFact>,
    pub ref_facts: StrMap<RefFact>,
    /// Every claim SET, in replay order (for branch-ownership checks).
    pub claim_history: Vec<Claim>,
}

/// `w` is the materialized form of replay state `st`.
pub open spec fn world_is(w: World, st: Replayed) -> bool {
    &&& w.project == st.project
    &&& w.tasks.map() == st.tasks
    &&& lists_changes(w.status_changes@, st.status_changes)
    &&& w.deps.map() == st.deps
    &&& w.claims.map() == st.claims
    &&& lists_comments(w.comments@, st.comments)
    &&& w.commit_facts.map() == st.commit_facts
    &&& w.ref_facts.map() == st.ref_facts
    &&& w.claim_history@ == st.claim_history
}

impl Default for World {
    /// The empty world.
    fn default() -> (w: World)
        ensures
            world_is(w, empty_replay()),
    {
        World {
            project: None,
            tasks: StrMap::new(),
            status_changes: Vec::new(),
            deps: StrMap::new(),
            claims: StrMap::new(),
            comments: Vec::new(),
            commit_facts: StrMap::new(),
            ref_facts: StrMap::new(),
            claim_history: Vec::new(),
        }
    }
}

impl World {
    /// The status changes recorded for `task_id`, in (created, id) order.
    pub fn changes_for(&self, task_id: &str) -> (r: Vec<&StatusChange>)
        ensures
            r@.map_values(|c: &StatusChange| *c) == self.status_changes@.filter(change_of_task(task_id@)),
    {
        let mut out: Vec<&StatusChange> = Vec::new();
        let mut i: usize = 0;
        proof {
            lemma_filter_empty_prefix(self.status_changes@, change_of_task(task_id@));
        }
        while i < self.status_changes.len()
            invariant
                i <= self.status_changes@.len(),
                out@.map_values(|c: &StatusChange| *c) == self.status_changes@.subrange(0, i as int).filter(change_of_task(task_id@)),
            decreases self.status_changes@.len() - i,
        {
            proof {
                lemma_filter_step(self.status_changes@, change_of_task(task_id@), i as int);
            }
            let ghost before = out@;
            if str_eq(self.status_changes[i].task_id.as_str(), task_id) {
                out.push(&self.status_changes[i]);
                proof {
                    assert(out@.map_values(|c: &StatusChange| *c) =~= before.map_values(|c: &StatusChange| *c).push(self.status_changes@[i as int]));
                }
            }
            i = i + 1;
        }
        proof {
            lemma_full_prefix(self.status_changes@);
        }
        out
    }

    /// The claim held on `task_id`, if there is one and its ttl has not run out.
    pub fn live_claim(&self, task_id: &str, now: Instant) -> (r: Option<&Claim>)
        requires
            self.claims.map().dom().contains(task_id@) ==> ttl_representable(self.claims.map()[task_id@]),
        ensures
            r.is_some() == (self.claims.map().dom().contains(task_id@) && claim_live_at(self.claims.map()[task_id@], now)),
            r.is_some() ==> *r.unwrap() == self.claims.map()[task_id@],
    {
        let claim = match self.claims.get(task_id) {
            Some(c) => c,
            None => return None,
        };
        let at = match parse_rfc3339(claim.created.as_str()) {
            Some(a) => a,
            None => return None,
        };
        if claim.ttl_secs > 9_223_372_036_854_775_807u64 {
            return None;
        }
        let expiry_secs: i128 = at.secs as i128 + claim.ttl_secs as i128;
        let live = expiry_secs > now.secs as i128 || (expiry_secs == now.secs as i128 && at.nanos > now.nanos);
        if live {
            Some(claim)
        } else {
            None
        }
    }
}

/// Replay `records` in (created_at, id) order — ties keep input order.
#[verifier::rlimit(40)]
pub fn materialize(records: Vec<EventRecord>) -> (w: World)
    ensures
        world_is(w, replay(stable_sorted(records@))),
{
    let sorted = sort_by_key(records);
    let ghost ss = sorted@;
    // Reverse, so popping yields the records in sorted order.
    let mut rest = sorted;
    let mut pending: Vec<EventRecord> = Vec::new();
    while rest.len() > 0
        invariant
            rest@.len() + pending@.len() == ss.len(),
            forall|j: int| 0 <= j < rest@.len() ==> #[trigger] rest@[j] == ss[j],
            forall|j: int| 0 <= j < pending@.len() ==> #[trigger] pending@[j] == ss[ss.len() - 1 - j],
        decreases rest@.len(),
    {
        let r = rest.pop().unwrap();
        pending.push(r);
    }
    let mut project: Option<Project> = None;
    let mut tasks: StrMap<Task> = StrMap::new();
    let mut status_changes: StrMap<StatusChange> = StrMap::new();
    let mut deps: StrMap<Dependency> = StrMap::new();
    let mut claims: StrMap<Claim> = StrMap::new();
    let mut comments: StrMap<Comment> = StrMap::new();
    let mut commit_facts: StrMap<CommitFact> = StrMap::new();
    let mut ref_facts: StrMap<RefFact> = StrMap::new();
    let mut claim_history: Vec<Claim> = Vec::new();
    let ghost mut done: int = 0;
    proof {
        assert(ss.subrange(0, 0) =~= Seq::<EventRecord>::empty());
        assert(tasks.map() =~= Map::<Seq<char>, Task>::empty());
    }
    while pending.len() > 0
        invariant
            0 <= done <= ss.len(),
            pending@.len() == ss.len() - done,
            forall|j: int| 0 <= j < pending@.len() ==> #[trigger] pending@[j] == ss[ss.len() - 1 - j],
            project == replay(ss.subrange(0, done)).project,
            tasks.map() == replay(ss.subrange(0, done)).tasks,
            status_changes.map() == replay(ss.subrange(0, done)).status_changes,
            deps.map() == replay(ss.subrange(0, done)).deps,
            claims.map() == replay(ss.subrange(0, done)).claims,
            comments.map() == replay(ss.subrange(0, done)).comments,
            commit_facts.map() == replay(ss.subrange(0, done)).commit_facts,
            ref_facts.map() == replay(ss.subrange(0, done)).ref_facts,
            claim_history@ == replay(ss.subrange(0, done)).claim_history,
        decreases pending@.len(),
    {
        let ghost bp = pending@;
        let r = pending.pop().unwrap();
        proof {
            assert(r == ss[done]);
            assert(ss.subrange(0, done + 1).drop_last() =~= ss.subrange(0, done));
            assert(ss.subrange(0, done + 1).last() == r);
            assert forall|j: int| 0 <= j < pending@.len() implies #[trigger] pending@[j] == ss[ss.len() - 1 - j] by {
                assert(pending@[j] == bp[j]);
            }
        }
        let ghost st = replay(ss.subrange(0, done));
        match r.change {
            EventChange::Upsert(item) => match item {
                Item::Project(p) => {
                    project = Some(p);
                },
                Item::Task(t) => {
                    let k = copy_string(&t.id);
                    tasks.insert(k, t);
                },
                Item::StatusChange(x) => {
                    let k = copy_string(&x.id);
                    status_changes.insert(k, x);
                },
                Item::Dependency(x) => {
                    let k = copy_string(&x.id);
                    deps.insert(k, x);
                },
                Item::Claim(x) => {
                    let k = copy_string(&x.id);
                    claim_history.push(x.copy());
                    claims.insert(k, x);
                },
                Item::Comment(x) => {
                    let k = copy_string(&x.id);
                    comments.insert(k, x);
                },
                Item::CommitFact(x) => {
                    let k = copy_string(&x.id);
                    commit_facts.insert(k, x);
                },
                Item::RefFact(x) => {
                    let k = copy_string(&x.id);
                    ref_facts.insert(k, x);
                },
            },
            EventChange::Remove(kind, id) => match kind {
                ItemKind::Project => {},
                ItemKind::Task => {
                    tasks.remove(id.as_str());
                },
                ItemKind::StatusChange => {
                    status_changes.remove(id.as_str());
                },
                ItemKind::Dependency => {
                    deps.remove(id.as_str());
                },
                ItemKind::Claim => {
                    claims.remove(id.as_str());
                },
                ItemKind::Comment => {
                    comments.remove(id.as_str());
                },
                ItemKind::CommitFact => {
                    commit_facts.remove(id.as_str());
                },
                ItemKind::RefFact => {
                    ref_facts.remove(id.as_str());
                },
            },
            EventChange::Ignored => {},
        }
        proof {
            done = done + 1;
        }
    }
    proof {
        lemma_full_prefix(ss);
        lemma_replay_keyed_by_id(ss);
    }
    let ghost st = replay(ss);
    // Append-only sets, ordered by (created, id).
    let ghost sc_pairs = status_changes.pairs();
    let sc_values = status_changes.into_values();
    let sc_sorted = sort_by_key(sc_values);
    proof {
        lemma_pairs_map_all(sc_pairs);
        lemma_reordered_values(sc_pairs, sc_sorted@, |c: StatusChange| c.id@);
    }
    let ghost cm_pairs = comments.pairs();
    let cm_values = comments.into_values();
    let cm_sorted = sort_by_key(cm_values);
    proof {
        lemma_pairs_map_all(cm_pairs);
        lemma_reordered_values(cm_pairs, cm_sorted@, |c: Comment| c.id@);
    }
    World {
        project,
        tasks,
        status_changes: sc_sorted,
        deps,
        claims,
        comments: cm_sorted,
        commit_facts,
        ref_facts,
        claim_history,
    }
}

} // verus!
