//! `levi check-claims`: CI policy for branch-owned tasks. A claim is durable
//! evidence that a branch took responsibility for a task, even after the
//! live advisory claim is dropped. The check groups historical claim SETs by
//! their recorded symbolic Git ref and requires every matching task to be
//! closed, without doubt, in the tested ancestry.

use vstd::prelude::*;

use crate::entities::Claim;
use crate::front_door::{trim_str, trim_ws};
use crate::ids::{short_id, short_id_slices_ok, short_id_text, MIN_SHORT};
use crate::materialize::World;
use crate::resolve::{resolution_label, status_label, Resolution, ResolvedStatus, Status};
use crate::seqs::{lemma_filter_empty_prefix, lemma_filter_step, lemma_full_prefix};
use crate::strmap::{lemma_pairs_map_all, lemma_pairs_map_at, strictly_sorted, StrMap};
use crate::text::{bytes_of, concat, copy_string, is_prefix, starts_with, str_eq, str_lt};
use vstd::string::StrSliceExecFns;

verus! {

/// Whether `name` is a valid full Git reference name, by gix's rules
/// (`git check-ref-format`).
pub uninterp spec fn valid_ref_name(name: Seq<char>) -> bool;

/// Calls `gix::refs::FullName::try_from(&str)`; claims only that it accepts
/// exactly the names `valid_ref_name` holds of (the validation depends on
/// the name alone).
#[verifier::external_body]
fn is_valid_ref_name(name: &str) -> (r: bool)
    ensures
        r == valid_ref_name(name@),
{
    gix::refs::FullName::try_from(name).is_ok()
}

/// Why a branch name given on the command line was refused.
#[derive(Debug, Clone, PartialEq, Eq)]
pub enum BranchRefError {
    /// Nothing but whitespace was given.
    Empty,
    /// `refs/heads` itself, `refs/heads/`, or a name with an empty branch component.
    NotBranch(String),
    /// A full ref outside `refs/heads/`.
    NotHeads(String),
    /// Git would not accept the name.
    Invalid(String),
}

impl BranchRefError {
    /// The message shown to the user.
    pub fn message(&self) -> (r: String)
        ensures
            r@ == match self {
                BranchRefError::Empty => "Git ref cannot be empty"@,
                BranchRefError::NotBranch(n) => "'"@ + n@ + "' is not a branch ref"@,
                BranchRefError::NotHeads(n) => "'"@ + n@ + "' is not a branch ref; expected refs/heads/<branch>"@,
                BranchRefError::Invalid(n) => "'"@ + n@ + "' is not a valid Git branch ref"@,
            },
    {
        match self {
            BranchRefError::Empty => "Git ref cannot be empty".to_owned(),
            BranchRefError::NotBranch(n) => {
                let a = concat("'", n.as_str());
                concat(a.as_str(), "' is not a branch ref")
            },
            BranchRefError::NotHeads(n) => {
                let a = concat("'", n.as_str());
                concat(a.as_str(), "' is not a branch ref; expected refs/heads/<branch>")
            },
            BranchRefError::Invalid(n) => {
                let a = concat("'", n.as_str());
                concat(a.as_str(), "' is not a valid Git branch ref")
            },
        }
    }
}

/// `n` starts with `p` (byte prefix).
pub open spec fn has_prefix(n: Seq<char>, p: Seq<char>) -> bool {
    is_prefix(bytes_of(p), bytes_of(n))
}

/// The full ref a (trimmed, nonempty) branch name stands for.
pub open spec fn full_branch_ref(n: Seq<char>) -> Seq<char> {
    if has_prefix(n, "refs/heads/"@) {
        n
    } else {
        "refs/heads/"@ + n
    }
}

/// A name that spells `refs/heads` itself or an empty branch component.
pub open spec fn names_no_branch(n: Seq<char>) -> bool {
    n == "refs/heads"@ || n == "refs/heads/"@ || has_prefix(n, "refs/heads//"@)
}

/// A full ref that is not a branch.
pub open spec fn names_other_ref(n: Seq<char>) -> bool {
    has_prefix(n, "refs/"@) && !has_prefix(n, "refs/heads/"@)
}

/// Normalize a branch name to its full ref: `feature/x` and
/// `refs/heads/feature/x` both give `refs/heads/feature/x`. Surrounding
/// whitespace is ignored; other refs, empty names and names Git refuses are
/// errors.
pub fn normalize_branch_ref(name: &str) -> (r: Result<String, BranchRefError>)
    ensures
        ({
            let n = trim_ws(name@);
            match r {
                Ok(full) => n.len() > 0 && !names_no_branch(n) && !names_other_ref(n) && valid_ref_name(full_branch_ref(n))
                    && full@ == full_branch_ref(n),
                Err(BranchRefError::Empty) => n.len() == 0,
                Err(BranchRefError::NotBranch(x)) => n.len() > 0 && names_no_branch(n) && x@ == n,
                Err(BranchRefError::NotHeads(x)) => n.len() > 0 && !names_no_branch(n) && names_other_ref(n) && x@ == n,
                Err(BranchRefError::Invalid(x)) => n.len() > 0 && !names_no_branch(n) && !names_other_ref(n)
                    && !valid_ref_name(full_branch_ref(n)) && x@ == n,
            }
        }),
{
    let n = trim_str(name);
    if n.as_str().unicode_len() == 0 {
        return Err(BranchRefError::Empty);
    }
    proof {
        reveal_strlit("refs/heads");
        reveal_strlit("refs/heads/");
        reveal_strlit("refs/heads//");
        reveal_strlit("refs/");
    }
    if str_eq(n.as_str(), "refs/heads") || str_eq(n.as_str(), "refs/heads/") || starts_with(n.as_str(), "refs/heads//") {
        return Err(BranchRefError::NotBranch(n));
    }
    let heads = starts_with(n.as_str(), "refs/heads/");
    if starts_with(n.as_str(), "refs/") && !heads {
        return Err(BranchRefError::NotHeads(n));
    }
    let full = if heads {
        copy_string(&n)
    } else {
        concat("refs/heads/", n.as_str())
    };
    if !is_valid_ref_name(full.as_str()) {
        return Err(BranchRefError::Invalid(n));
    }
    Ok(full)
}

/// Some claim of `history` was taken on `git_ref` for task `id`.
pub open spec fn claimed_on(history: Seq<Claim>, git_ref: Seq<char>, id: Seq<char>) -> bool {
    exists|i: int| 0 <= i < history.len() && (#[trigger] history[i]).git_ref@ == git_ref && history[i].task_id@ == id
}

/// The display id of a task this log cannot materialize: `lv-` and its
/// first four characters.
pub open spec fn missing_short(id: Seq<char>) -> Seq<char> {
    if id.len() <= 4 {
        "lv-"@ + id
    } else {
        "lv-"@ + id.take(4)
    }
}

/// A claimed task fails the check: it is unknown here, not closed, or
/// closed only with an unresolved anchor.
pub open spec fn claim_unmet(world: World, statuses: Map<Seq<char>, ResolvedStatus>, id: Seq<char>) -> bool {
    !world.tasks.map().dom().contains(id) || statuses[id].status != Status::Closed
        || statuses[id].resolution == Resolution::Partial
}

/// The verdict on one claimed task: it passes exactly when the task is
/// known here and closed, however the close was resolved (exactly, from
/// facts, or through a squash/rebase match), unless an anchor was left
/// unresolved (`Partial`).
pub proof fn law_claim_verdict(world: World, statuses: Map<Seq<char>, ResolvedStatus>, id: Seq<char>)
    ensures
        world.tasks.map().dom().contains(id) && statuses[id].status == Status::Closed
            && statuses[id].resolution != Resolution::Partial ==> !claim_unmet(world, statuses, id),
        world.tasks.map().dom().contains(id) && statuses[id].status == Status::Closed
            && statuses[id].resolution == Resolution::Squashed ==> !claim_unmet(world, statuses, id),
        !world.tasks.map().dom().contains(id) ==> claim_unmet(world, statuses, id),
        statuses[id].status == Status::Open ==> claim_unmet(world, statuses, id),
        statuses[id].resolution == Resolution::Partial ==> claim_unmet(world, statuses, id),
{
}

/// In a check's verdict, a claimed task that is known, closed and not
/// partial is never listed as open; one that is unknown, open or partial
/// always is.
pub proof fn law_check_lists_exactly_the_unmet(world: World, statuses: Map<Seq<char>, ResolvedStatus>, r: ClaimCheck, id: Seq<char>)
    requires
        r.open@.map_values(|s: String| s@) == r.tasks@.map_values(|t: ClaimedTask| t.id@).filter(
            |x: Seq<char>| claim_unmet(world, statuses, x),
        ),
        exists|i: int| 0 <= i < r.tasks@.len() && (#[trigger] r.tasks@[i]).id@ == id,
    ensures
        r.open@.map_values(|s: String| s@).contains(id) <==> !(world.tasks.map().dom().contains(id)
            && statuses[id].status == Status::Closed && statuses[id].resolution != Resolution::Partial),
{
    let ids = r.tasks@.map_values(|t: ClaimedTask| t.id@);
    let pred = |x: Seq<char>| claim_unmet(world, statuses, x);
    let i = choose|i: int| 0 <= i < r.tasks@.len() && (#[trigger] r.tasks@[i]).id@ == id;
    assert(ids[i] == id);
    law_claim_verdict(world, statuses, id);
    if pred(id) {
        ids.filter_lemma(pred);
        assert(ids.contains(id));
    }
    if r.open@.map_values(|s: String| s@).contains(id) {
        ids.filter_lemma(pred);
    }
}

/// One claimed task as the check reports it.
#[derive(Debug, Clone)]
pub struct ClaimedTask {
    pub id: String,
    pub short: String,
    /// None when the task is unknown to this log.
    pub title: Option<String>,
    /// "open", "closed" or "unknown".
    pub status: String,
    pub resolution: String,
}

/// `e` reports task `id` as the check sees it.
pub open spec fn reports(world: World, statuses: Map<Seq<char>, ResolvedStatus>, id: Seq<char>, e: ClaimedTask) -> bool {
    &&& e.id@ == id
    &&& if world.tasks.map().dom().contains(id) {
        &&& e.short@ == short_id_text(world.tasks.key_seq(), id)
        &&& e.title == Some(world.tasks.map()[id].title)
        &&& e.status@ == status_label(statuses[id].status)
        &&& e.resolution@ == resolution_label(statuses[id].resolution)
    } else {
        &&& e.short@ == missing_short(id)
        &&& e.title.is_none()
        &&& e.status@ == "unknown"@
        &&& e.resolution@ == "partial"@
    }
}

/// The verdict on a claims ref: every claimed task id on it, in id order,
/// and the ids among them that fail.
#[derive(Debug, Clone)]
pub struct ClaimCheck {
    pub tasks: Vec<ClaimedTask>,
    pub open: Vec<String>,
}

/// The distinct task ids claimed on `git_ref`, in id order.
fn claimed_ids(history: &Vec<Claim>, git_ref: &str) -> (r: StrMap<()>)
    ensures
        forall|k: Seq<char>| #[trigger] r.map().dom().contains(k) <==> claimed_on(history@, git_ref@, k),
{
    let mut out: StrMap<()> = StrMap::new();
    let mut i: usize = 0;
    while i < history.len()
        invariant
            i <= history@.len(),
            forall|k: Seq<char>| #[trigger] out.map().dom().contains(k) <==> exists|j: int|
                0 <= j < i && (#[trigger] history@[j]).git_ref@ == git_ref@ && history@[j].task_id@ == k,
        decreases history@.len() - i,
    {
        let c = &history[i];
        if str_eq(c.git_ref.as_str(), git_ref) {
            out.insert(copy_string(&c.task_id), ());
        }
        proof {
            assert forall|k: Seq<char>| #[trigger] out.map().dom().contains(k) <==> exists|j: int|
                0 <= j < i + 1 && (#[trigger] history@[j]).git_ref@ == git_ref@ && history@[j].task_id@ == k by {
                if exists|j: int| 0 <= j < i + 1 && (#[trigger] history@[j]).git_ref@ == git_ref@ && history@[j].task_id@ == k {
                    let j = choose|j: int| 0 <= j < i + 1 && (#[trigger] history@[j]).git_ref@ == git_ref@ && history@[j].task_id@ == k;
                    if j < i {
                        assert(exists|j2: int| 0 <= j2 < i && (#[trigger] history@[j2]).git_ref@ == git_ref@ && history@[j2].task_id@ == k);
                    }
                }
            }
        }
        i = i + 1;
    }
    out
}

/// The short id of a task this log does not know.
fn missing_short_exec(id: &str) -> (r: String)
    ensures
        r@ == missing_short(id@),
{
    let n = id.unicode_len();
    if n <= 4 {
        concat("lv-", id)
    } else {
        assert(id@.subrange(0, 4) =~= id@.take(4));
        concat("lv-", id.substring_char(0, 4))
    }
}

/// Check every task claimed on `git_ref` against `statuses` (resolved at the
/// tested commit): a task passes only when closed, with no unresolved anchor.
pub fn check_claims(world: &World, statuses: &StrMap<ResolvedStatus>, git_ref: &str) -> (r: ClaimCheck)
    requires
        forall|k: Seq<char>| #[trigger] claimed_on(world.claim_history@, git_ref@, k) && world.tasks.map().dom().contains(k)
            ==> statuses.map().dom().contains(k) && short_id_slices_ok(world.tasks.key_seq(), k, MIN_SHORT as nat),
    ensures
        forall|x: Seq<char>| claimed_on(world.claim_history@, git_ref@, x)
            <==> exists|i: int| 0 <= i < r.tasks@.len() && (#[trigger] r.tasks@[i]).id@ == x,
        forall|a: int, b: int| 0 <= a < b < r.tasks@.len() ==> str_lt((#[trigger] r.tasks@[a]).id@, (#[trigger] r.tasks@[b]).id@),
        forall|i: int| 0 <= i < r.tasks@.len() ==> reports(*world, statuses.map(), r.tasks@[i].id@, #[trigger] r.tasks@[i]),
        r.open@.map_values(|s: String| s@) == r.tasks@.map_values(|t: ClaimedTask| t.id@).filter(
            |x: Seq<char>| claim_unmet(*world, statuses.map(), x),
        ),
{
    let ids = claimed_ids(&world.claim_history, git_ref);
    let n = ids.len();
    let ghost unmet = |x: Seq<char>| claim_unmet(*world, statuses.map(), x);
    let mut tasks: Vec<ClaimedTask> = Vec::new();
    let mut open: Vec<String> = Vec::new();
    let mut i: usize = 0;
    proof {
        lemma_pairs_map_all(ids.pairs());
        lemma_filter_empty_prefix(tasks@.map_values(|t: ClaimedTask| t.id@), unmet);
        assert(tasks@.map_values(|t: ClaimedTask| t.id@).subrange(0, 0) =~= tasks@.map_values(|t: ClaimedTask| t.id@));
    }
    while i < n
        invariant
            i <= n,
            n == ids.pairs().len(),
            strictly_sorted(ids.pairs()),
            forall|k: Seq<char>| #[trigger] ids.map().dom().contains(k) <==> claimed_on(world.claim_history@, git_ref@, k),
            forall|j: int| #![trigger ids.pairs()[j]] 0 <= j < ids.pairs().len() ==> ids.map().dom().contains(ids.pairs()[j].0),
            forall|k: Seq<char>| #[trigger] ids.map().dom().contains(k) ==> exists|j: int| 0 <= j < ids.pairs().len() && ids.pairs()[j].0 == k,
            forall|k: Seq<char>| #[trigger] claimed_on(world.claim_history@, git_ref@, k) && world.tasks.map().dom().contains(k)
                ==> statuses.map().dom().contains(k) && short_id_slices_ok(world.tasks.key_seq(), k, MIN_SHORT as nat),
            unmet == (|x: Seq<char>| claim_unmet(*world, statuses.map(), x)),
            tasks@.len() == i,
            forall|j: int| 0 <= j < i ==> (#[trigger] tasks@[j]).id@ == ids.pairs()[j].0,
            forall|j: int| 0 <= j < i ==> reports(*world, statuses.map(), tasks@[j].id@, #[trigger] tasks@[j]),
            open@.map_values(|s: String| s@) == tasks@.map_values(|t: ClaimedTask| t.id@).filter(unmet),
        decreases n - i,
    {
        let id = ids.key_at(i);
        let ghost k = id@;
        assert(ids.map().dom().contains(ids.pairs()[i as int].0));
        assert(claimed_on(world.claim_history@, git_ref@, k));
        let entry = match world.tasks.get(id.as_str()) {
            None => ClaimedTask {
                id: copy_string(id),
                short: missing_short_exec(id.as_str()),
                title: None,
                status: "unknown".to_owned(),
                resolution: "partial".to_owned(),
            },
            Some(t) => {
                let st = statuses.get(id.as_str()).unwrap();
                ClaimedTask {
                    id: copy_string(id),
                    short: short_id(world, id.as_str()),
                    title: Some(copy_string(&t.title)),
                    status: st.status.label().to_owned(),
                    resolution: st.resolution.label().to_owned(),
                }
            },
        };
        let fails = match world.tasks.get(id.as_str()) {
            None => true,
            Some(_) => {
                let st = statuses.get(id.as_str()).unwrap();
                st.status != Status::Closed || st.resolution == Resolution::Partial
            },
        };
        proof {
            reveal_strlit("unknown");
            reveal_strlit("partial");
        }
        let ghost before_tasks = tasks@;
        let ghost before_open = open@;
        tasks.push(entry);
        if fails {
            open.push(copy_string(id));
        }
        proof {
            let tv = tasks@.map_values(|t: ClaimedTask| t.id@);
            let bv = before_tasks.map_values(|t: ClaimedTask| t.id@);
            assert(tv =~= bv.push(k));
            assert(tv.subrange(0, i as int) =~= bv);
            assert(tv.subrange(0, i + 1) =~= tv);
            assert(bv.subrange(0, i as int) =~= bv);
            lemma_filter_step(tv, unmet, i as int);
            assert(unmet(k) == fails);
            if fails {
                assert(open@.map_values(|s: String| s@) =~= before_open.map_values(|s: String| s@).push(k));
            } else {
                assert(open@.map_values(|s: String| s@) =~= before_open.map_values(|s: String| s@));
            }
        }
        i = i + 1;
    }
    proof {
        assert forall|x: Seq<char>| claimed_on(world.claim_history@, git_ref@, x)
            <==> exists|j: int| 0 <= j < tasks@.len() && (#[trigger] tasks@[j]).id@ == x by {
            if claimed_on(world.claim_history@, git_ref@, x) {
                assert(ids.map().dom().contains(x));
                let j = choose|j: int| 0 <= j < ids.pairs().len() && ids.pairs()[j].0 == x;
                assert(tasks@[j].id@ == x);
            }
            if exists|j: int| 0 <= j < tasks@.len() && (#[trigger] tasks@[j]).id@ == x {
                let j = choose|j: int| 0 <= j < tasks@.len() && (#[trigger] tasks@[j]).id@ == x;
                assert(ids.map().dom().contains(ids.pairs()[j].0));
            }
        }
        assert forall|a: int, b: int| 0 <= a < b < tasks@.len() implies str_lt((#[trigger] tasks@[a]).id@, (#[trigger] tasks@[b]).id@) by {
            assert(tasks@[a].id@ == ids.pairs()[a].0);
            assert(tasks@[b].id@ == ids.pairs()[b].0);
        }
    }
    ClaimCheck { tasks, open }
}

} // verus!
