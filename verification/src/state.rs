//! Machine-local state that the logic reads: the minted machine id, the
//! registry of checkouts on this machine, and the per-repo cache of foreign
//! blocker statuses, written only by sync.

use vstd::prelude::*;

use crate::front_door::{trim_str, trim_ws};
use crate::strmap::StrMap;
use crate::text::{str_eq, str_le, str_le_exec};

verus! {

/// One cached foreign blocker status.
#[derive(Debug, Clone, Default)]
pub struct ForeignStatus {
    /// "open" | "closed"
    pub status: String,
    /// "facts"
    pub resolution: String,
    /// RFC3339
    pub observed: String,
    pub title: String,
}

/// Per-repo cache of foreign blocker statuses, keyed "{project_id}/{task_id}".
pub struct ForeignStatusCache {
    /// Where the cache is stored.
    pub path: String,
    pub entries: StrMap<ForeignStatus>,
}

impl ForeignStatusCache {
    /// A cache stored at `path` holding `entries`.
    pub fn new(path: String, entries: StrMap<ForeignStatus>) -> (c: Self)
        ensures
            c.path == path,
            c.entries.map() == entries.map(),
    {
        ForeignStatusCache { path, entries }
    }

    /// The cached status under `key`.
    pub fn get(&self, key: &str) -> (r: Option<&ForeignStatus>)
        ensures
            r.is_some() == self.entries.map().dom().contains(key@),
            r.is_some() ==> *r.unwrap() == self.entries.map()[key@],
    {
        self.entries.get(key)
    }

    /// Record (or replace) the status under `key`.
    pub fn put(&mut self, key: String, status: ForeignStatus)
        ensures
            final(self).path == old(self).path,
            final(self).entries.map() == old(self).entries.map().insert(key@, status),
    {
        self.entries.insert(key, status);
    }
}

/// The machine id a state file holds: its trimmed text, unless that is
/// empty (then a new one is minted).
pub fn stored_machine_id(contents: &str) -> (r: Option<String>)
    ensures
        match r {
            Some(id) => id@ == trim_ws(contents@) && id@.len() > 0,
            None => trim_ws(contents@).len() == 0,
        },
{
    let t = trim_str(contents);
    if t.as_str().is_empty() {
        None
    } else {
        Some(t)
    }
}

/// One registered checkout of a project: its path, when it was last used
/// (RFC3339), and whether the path still exists.
#[derive(Clone, Debug)]
pub struct Checkout {
    pub path: String,
    pub last_used: String,
    pub exists: bool,
}

/// Checkout `j` may serve as the sibling.
pub open spec fn usable(cs: Seq<Checkout>, j: int, not_this: Seq<char>) -> bool {
    cs[j].exists && cs[j].path@ != not_this
}

/// Checkout `i` is the most recently used usable one, the first in
/// registry order among equally recent ones.
pub open spec fn is_sibling(cs: Seq<Checkout>, i: int, not_this: Seq<char>) -> bool {
    &&& 0 <= i < cs.len()
    &&& usable(cs, i, not_this)
    &&& forall|j: int| 0 <= j < cs.len() && usable(cs, j, not_this) ==> str_le((#[trigger] cs[j]).last_used@, cs[i].last_used@)
    &&& forall|j: int| 0 <= j < i && usable(cs, j, not_this) ==> (#[trigger] cs[j]).last_used@ != cs[i].last_used@
}

/// The positions of the vanished checkouts among the first `cs.len()`.
pub open spec fn stale_spec(cs: Seq<Checkout>) -> Seq<usize>
    decreases cs.len(),
{
    if cs.len() == 0 {
        Seq::empty()
    } else if !cs.last().exists {
        stale_spec(cs.drop_last()).push((cs.len() - 1) as usize)
    } else {
        stale_spec(cs.drop_last())
    }
}

/// From a project's registered checkouts (in registry order): the most
/// recently used one that still exists and is not `not_this` (the consuming
/// repo itself), and the vanished ones to prune.
pub fn pick_sibling(cs: &[Checkout], not_this: &str) -> (r: (Option<usize>, Vec<usize>))
    ensures
        match r.0 {
            Some(i) => is_sibling(cs@, i as int, not_this@),
            None => forall|j: int| 0 <= j < cs@.len() ==> !usable(cs@, j, not_this@),
        },
        r.1@ == stale_spec(cs@),
{
    let mut best: Option<usize> = None;
    let mut stale: Vec<usize> = Vec::new();
    let mut i: usize = 0;
    while i < cs.len()
        invariant
            i <= cs@.len(),
            stale@ == stale_spec(cs@.subrange(0, i as int)),
            match best {
                Some(b) => b < i && usable(cs@, b as int, not_this@)
                    && (forall|j: int| 0 <= j < i && usable(cs@, j, not_this@) ==> str_le((#[trigger] cs@[j]).last_used@, cs@[b as int].last_used@))
                    && (forall|j: int| 0 <= j < b && usable(cs@, j, not_this@) ==> (#[trigger] cs@[j]).last_used@ != cs@[b as int].last_used@),
                None => forall|j: int| 0 <= j < i ==> !usable(cs@, j, not_this@),
            },
        decreases cs@.len() - i,
    {
        proof {
            assert(cs@.subrange(0, i + 1).drop_last() =~= cs@.subrange(0, i as int));
        }
        let c = &cs[i];
        if !c.exists {
            stale.push(i);
        } else if !str_eq(c.path.as_str(), not_this) {
            match best {
                None => {
                    proof {
                        crate::text::lemma_str_le_refl(c.last_used@);
                    }
                    best = Some(i);
                },
                Some(b) => {
                    let newer = !str_le_exec(c.last_used.as_str(), cs[b].last_used.as_str());
                    if newer {
                        proof {
                            crate::text::lemma_str_le_total(c.last_used@, cs@[b as int].last_used@);
                            assert forall|j: int| 0 <= j < i + 1 && usable(cs@, j, not_this@) implies str_le(
                                (#[trigger] cs@[j]).last_used@,
                                cs@[i as int].last_used@,
                            ) by {
                                if j < i {
                                    crate::text::lemma_str_le_trans(cs@[j].last_used@, cs@[b as int].last_used@, c.last_used@);
                                } else {
                                    crate::text::lemma_str_le_refl(c.last_used@);
                                }
                            }
                            assert forall|j: int| 0 <= j < i && usable(cs@, j, not_this@) implies (#[trigger] cs@[j]).last_used@
                                != cs@[i as int].last_used@ by {
                                if cs@[j].last_used@ == c.last_used@ {
                                    assert(str_le(cs@[j].last_used@, cs@[b as int].last_used@));
                                }
                            }
                        }
                        best = Some(i);
                    }
                },
            }
        }
        i = i + 1;
    }
    proof {
        assert(cs@.subrange(0, cs@.len() as int) =~= cs@);
    }
    (best, stale)
}

} // verus!
