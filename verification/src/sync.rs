//! The hub leg's exchange plan. Event ids are content addresses, so "what
//! are you missing" is a set difference; comparing bucket hashes first means
//! only buckets whose hashes differ are enumerated id by id.

use vstd::prelude::*;

use crate::resolve::{is_listed, listed};
use crate::strmap::{lemma_pairs_map_all, lemma_pairs_map_at, strictly_sorted, StrMap};
use crate::front_door::{trim_str, trim_ws};
use crate::text::{bytes_of, concat, copy_string, decimal, decimal_string, is_prefix, starts_with, str_eq};

verus! {

/// The two sides hold different hashes for bucket `b` (or only one holds it).
pub open spec fn bucket_differs(local: Map<Seq<char>, String>, hub: Map<Seq<char>, String>, b: Seq<char>) -> bool {
    local.dom().contains(b) != hub.dom().contains(b) || (local.dom().contains(b) && local[b]@ != hub[b]@)
}

/// The buckets to enumerate: those whose hashes differ, local buckets first
/// (in bucket order), then buckets only the hub has.
pub open spec fn differing_spec(local: StrMap<String>, hub: StrMap<String>) -> Seq<Seq<char>> {
    local.key_seq().filter(|b: Seq<char>| bucket_differs(local.map(), hub.map(), b))
        + hub.key_seq().filter(|b: Seq<char>| !local.map().dom().contains(b) && bucket_differs(local.map(), hub.map(), b))
}

/// Does bucket `b` differ between the two sides?
fn differs(local: &StrMap<String>, hub: &StrMap<String>, b: &str) -> (r: bool)
    ensures
        r == bucket_differs(local.map(), hub.map(), b@),
{
    match (local.get(b), hub.get(b)) {
        (Some(x), Some(y)) => !str_eq(x.as_str(), y.as_str()),
        (None, None) => false,
        _ => true,
    }
}

/// The buckets whose hashes differ, each once.
pub fn differing_buckets(local: &StrMap<String>, hub: &StrMap<String>) -> (r: Vec<String>)
    ensures
        r@.map_values(|s: String| s@) == differing_spec(*local, *hub),
{
    let ghost pl = |b: Seq<char>| bucket_differs(local.map(), hub.map(), b);
    let ghost ph = |b: Seq<char>| !local.map().dom().contains(b) && bucket_differs(local.map(), hub.map(), b);
    let mut out: Vec<String> = Vec::new();
    let n = local.len();
    let mut i: usize = 0;
    while i < n
        invariant
            i <= n,
            n == local.key_seq().len(),
            pl == (|b: Seq<char>| bucket_differs(local.map(), hub.map(), b)),
            out@.map_values(|s: String| s@) == local.key_seq().subrange(0, i as int).filter(pl),
        decreases n - i,
    {
        let k = local.key_at(i);
        let ghost before = out@;
        proof {
            reveal(Seq::filter);
            assert(local.key_seq().subrange(0, i + 1).drop_last() =~= local.key_seq().subrange(0, i as int));
            assert(local.key_seq()[i as int] == k@);
        }
        if differs(local, hub, k.as_str()) {
            out.push(copy_string(k));
            assert(out@.map_values(|s: String| s@) =~= before.map_values(|s: String| s@).push(k@));
        }
        i = i + 1;
    }
    assert(local.key_seq().subrange(0, n as int) =~= local.key_seq());
    let ghost first = out@.map_values(|s: String| s@);
    let m = hub.len();
    let mut j: usize = 0;
    while j < m
        invariant
            j <= m,
            m == hub.key_seq().len(),
            ph == (|b: Seq<char>| !local.map().dom().contains(b) && bucket_differs(local.map(), hub.map(), b)),
            out@.map_values(|s: String| s@) == first + hub.key_seq().subrange(0, j as int).filter(ph),
        decreases m - j,
    {
        let k = hub.key_at(j);
        let ghost before = out@;
        proof {
            reveal(Seq::filter);
            assert(hub.key_seq().subrange(0, j + 1).drop_last() =~= hub.key_seq().subrange(0, j as int));
            assert(hub.key_seq()[j as int] == k@);
        }
        if !local.contains_key(k.as_str()) && differs(local, hub, k.as_str()) {
            out.push(copy_string(k));
            assert(out@.map_values(|s: String| s@) =~= before.map_values(|s: String| s@).push(k@));
        }
        j = j + 1;
    }
    assert(hub.key_seq().subrange(0, m as int) =~= hub.key_seq());
    out
}

/// The local events to push for a differing bucket: the positions of local
/// ids in that bucket that the hub lacks, in order.
pub fn records_to_push(local_ids: &[String], bucket: &str, hub_ids: &Vec<String>) -> (r: Vec<usize>)
    ensures
        forall|a: int, b: int| 0 <= a < b < r@.len() ==> r@[a] < r@[b],
        forall|t: int| 0 <= t < r@.len() ==> r@[t] < local_ids@.len(),
        forall|i: int| 0 <= i < local_ids@.len() ==> ((exists|t: int| 0 <= t < r@.len() && r@[t] == i) <==> (
            is_prefix(bytes_of(bucket@), bytes_of(#[trigger] local_ids@[i]@)) && !listed(hub_ids@, local_ids@[i]@))),
{
    let mut out: Vec<usize> = Vec::new();
    let mut i: usize = 0;
    while i < local_ids.len()
        invariant
            i <= local_ids@.len(),
            forall|a: int, b: int| 0 <= a < b < out@.len() ==> out@[a] < out@[b],
            forall|t: int| 0 <= t < out@.len() ==> out@[t] < i,
            forall|x: int| 0 <= x < i ==> ((exists|t: int| 0 <= t < out@.len() && out@[t] == x) <==> (
                is_prefix(bytes_of(bucket@), bytes_of(#[trigger] local_ids@[x]@)) && !listed(hub_ids@, local_ids@[x]@))),
        decreases local_ids@.len() - i,
    {
        let ghost before = out@;
        if starts_with(local_ids[i].as_str(), bucket) && !is_listed(hub_ids, local_ids[i].as_str()) {
            out.push(i);
        }
        proof {
            assert forall|x: int| 0 <= x < i + 1 implies ((exists|t: int| 0 <= t < out@.len() && out@[t] == x) <==> (
                is_prefix(bytes_of(bucket@), bytes_of(#[trigger] local_ids@[x]@)) && !listed(hub_ids@, local_ids@[x]@))) by {
                if exists|t: int| 0 <= t < out@.len() && out@[t] == x {
                    let t = choose|t: int| 0 <= t < out@.len() && out@[t] == x;
                    if t < before.len() {
                        assert(before[t] == x);
                    }
                }
                if x < i && exists|t: int| 0 <= t < before.len() && before[t] == x {
                    let t = choose|t: int| 0 <= t < before.len() && before[t] == x;
                    assert(out@[t] == x);
                }
                if x == i && out@.len() > before.len() {
                    assert(out@[before.len() as int] == x);
                }
            }
        }
        i = i + 1;
    }
    out
}

/// The hub's ids in a differing bucket that this side lacks, each once, in
/// the order the hub listed them.
pub fn ids_to_pull(hub_ids: &Vec<String>, local_ids: &[String], bucket: &str) -> (r: Vec<String>)
    ensures
        forall|x: Seq<char>| #[trigger] listed(r@, x) <==> listed(hub_ids@, x)
            && !(exists|i: int| 0 <= i < local_ids@.len() && local_ids@[i]@ == x && is_prefix(bytes_of(bucket@), bytes_of(x))),
        forall|a: int, b: int| 0 <= a < b < r@.len() ==> r@[a]@ != r@[b]@,
{
    let mut local_in_bucket: Vec<String> = Vec::new();
    let mut i: usize = 0;
    while i < local_ids.len()
        invariant
            i <= local_ids@.len(),
            forall|x: Seq<char>| #[trigger] listed(local_in_bucket@, x) <==> exists|t: int| 0 <= t < i && local_ids@[t]@ == x
                && is_prefix(bytes_of(bucket@), bytes_of(x)),
        decreases local_ids@.len() - i,
    {
        let ghost before = local_in_bucket@;
        if starts_with(local_ids[i].as_str(), bucket) {
            local_in_bucket.push(copy_string(&local_ids[i]));
        }
        proof {
            assert forall|x: Seq<char>| #[trigger] listed(local_in_bucket@, x) <==> exists|t: int| 0 <= t < i + 1 && local_ids@[t]@ == x
                && is_prefix(bytes_of(bucket@), bytes_of(x)) by {
                if listed(local_in_bucket@, x) {
                    let k = choose|k: int| 0 <= k < local_in_bucket@.len() && local_in_bucket@[k]@ == x;
                    if k < before.len() {
                        assert(listed(before, x));
                    }
                }
                if listed(before, x) {
                    let k = choose|k: int| 0 <= k < before.len() && before[k]@ == x;
                    assert(local_in_bucket@[k] == before[k]);
                }
                if local_ids@[i as int]@ == x && is_prefix(bytes_of(bucket@), bytes_of(x)) {
                    assert(local_in_bucket@[local_in_bucket@.len() - 1]@ == x);
                }
            }
        }
        i = i + 1;
    }
    let mut out: Vec<String> = Vec::new();
    let mut j: usize = 0;
    while j < hub_ids.len()
        invariant
            j <= hub_ids@.len(),
            forall|x: Seq<char>| #[trigger] listed(local_in_bucket@, x) <==> exists|t: int| 0 <= t < local_ids@.len() && local_ids@[t]@ == x
                && is_prefix(bytes_of(bucket@), bytes_of(x)),
            forall|x: Seq<char>| #[trigger] listed(out@, x) <==> (exists|t: int| 0 <= t < j && hub_ids@[t]@ == x) && !listed(local_in_bucket@, x),
            forall|a: int, b: int| 0 <= a < b < out@.len() ==> out@[a]@ != out@[b]@,
        decreases hub_ids@.len() - j,
    {
        let h = &hub_ids[j];
        let ghost before = out@;
        if !is_listed(&local_in_bucket, h.as_str()) && !is_listed(&out, h.as_str()) {
            out.push(copy_string(h));
        }
        proof {
            assert forall|x: Seq<char>| #[trigger] listed(out@, x) <==> (exists|t: int| 0 <= t < j + 1 && hub_ids@[t]@ == x) && !listed(local_in_bucket@, x) by {
                if listed(out@, x) {
                    let k = choose|k: int| 0 <= k < out@.len() && out@[k]@ == x;
                    if k < before.len() {
                        assert(listed(before, x));
                    }
                }
                if listed(before, x) {
                    let k = choose|k: int| 0 <= k < before.len() && before[k]@ == x;
                    assert(out@[k] == before[k]);
                }
                if h@ == x && !listed(local_in_bucket@, x) && !listed(before, x) {
                    assert(out@[out@.len() - 1]@ == x);
                }
            }
            assert forall|a: int, b: int| 0 <= a < b < out@.len() implies out@[a]@ != out@[b]@ by {
                if b == before.len() && out@.len() > before.len() {
                    assert(out@[a] == before[a]);
                    assert(!listed(before, h@));
                }
            }
        }
        j = j + 1;
    }
    out
}

/// The hub leg's one-line report.
pub fn sync_summary(pushed: usize, pulled: usize, facts: usize) -> (r: String)
    ensures
        r@ == "pushed "@ + decimal(pushed as nat) + ", pulled "@ + decimal(pulled as nat) + " event(s), published "@
            + decimal(facts as nat) + " fact(s)"@,
{
    let a = concat("pushed ", decimal_string(pushed).as_str());
    let b = concat(a.as_str(), ", pulled ");
    let c = concat(b.as_str(), decimal_string(pulled).as_str());
    let d = concat(c.as_str(), " event(s), published ");
    let e = concat(d.as_str(), decimal_string(facts).as_str());
    concat(e.as_str(), " fact(s)")
}

/// Equal bucket hashes on both sides leave nothing to enumerate.
pub proof fn law_identical_sides_have_nothing_to_sync(local: StrMap<String>)
    ensures
        differing_spec(local, local).len() == 0,
{
    let pl = |b: Seq<char>| bucket_differs(local.map(), local.map(), b);
    let ph = |b: Seq<char>| !local.map().dom().contains(b) && bucket_differs(local.map(), local.map(), b);
    assert forall|i: int| 0 <= i < local.key_seq().len() implies !pl(#[trigger] local.key_seq()[i]) by {}
    local.key_seq().lemma_all_neg_filter_empty(pl);
    local.key_seq().lemma_all_neg_filter_empty(ph);
}

/// The ref every clone keeps its events on.
pub const EVENTS_REF: &'static str = "refs/levi/events";

/// How many times the git leg pushes before it gives up.
pub const PUSH_ATTEMPTS: u32 = 3;

/// Where a remote's events are fetched to: `refs/levi/remotes/{remote}/events`.
pub fn tracking_ref(remote: &str) -> (r: String)
    ensures
        r@ == "refs/levi/remotes/"@ + remote@ + "/events"@,
{
    let a = concat("refs/levi/remotes/", remote);
    concat(a.as_str(), "/events")
}

/// The forced refspec that fetches the remote's events ref to its tracking ref.
pub fn fetch_refspec(remote: &str) -> (r: String)
    ensures
        r@ == "+"@ + EVENTS_REF@ + ":"@ + "refs/levi/remotes/"@ + remote@ + "/events"@,
{
    let a = concat("+", EVENTS_REF);
    let b = concat(a.as_str(), ":");
    concat(b.as_str(), tracking_ref(remote).as_str())
}

/// What the git leg does next.
#[derive(Clone, Debug, PartialEq, Eq)]
pub enum GitLegAction {
    /// Push the events ref to the remote.
    Push,
    /// Re-fetch the remote's events to the tracking ref.
    Refetch,
    /// Union-merge the tracking ref into the local events.
    Merge,
    /// Finished, with this report.
    Done(String),
    /// Failed, with this message.
    Fail(String),
}

/// The git leg after its fetch: pushes with fetch-merge-retry. The union
/// commit fast-forwards the remote unless someone pushed meanwhile; then it
/// re-fetches, re-merges and tries again, at most `PUSH_ATTEMPTS` times.
pub struct GitLeg {
    pub remote: String,
    /// Events the first fetch brought in.
    pub new_events: usize,
    /// Pushes tried so far.
    pub attempts: u32,
}

/// The report of a git leg that pushed.
pub open spec fn git_leg_report(new_events: usize, remote: Seq<char>) -> Seq<char> {
    decimal(new_events as nat) + " new event(s) fetched, pushed to "@ + remote
}

impl GitLeg {
    /// A leg whose fetch brought `new_events` events; it pushes next.
    pub fn new(remote: String, new_events: usize) -> (r: (GitLeg, GitLegAction))
        ensures
            r.0.remote == remote,
            r.0.new_events == new_events,
            r.0.attempts == 0,
            r.1 == GitLegAction::Push,
    {
        (GitLeg { remote, new_events, attempts: 0 }, GitLegAction::Push)
    }

    /// A push came back: done when it succeeded, else re-fetch.
    pub fn on_push(&mut self, ok: bool) -> (r: GitLegAction)
        requires
            old(self).attempts < PUSH_ATTEMPTS,
        ensures
            final(self).remote == old(self).remote,
            final(self).new_events == old(self).new_events,
            final(self).attempts == old(self).attempts + 1,
            ok ==> (r matches GitLegAction::Done(m) && m@ == git_leg_report(old(self).new_events, old(self).remote@)),
            !ok ==> r == GitLegAction::Refetch,
    {
        self.attempts = self.attempts + 1;
        if ok {
            let a = concat(decimal_string(self.new_events).as_str(), " new event(s) fetched, pushed to ");
            GitLegAction::Done(concat(a.as_str(), self.remote.as_str()))
        } else {
            GitLegAction::Refetch
        }
    }

    /// The re-fetch after a failed push came back: merge what it brought, or
    /// fail with the push's error output when it failed too.
    pub fn on_refetch(&self, ok: bool, push_stderr: &str) -> (r: GitLegAction)
        ensures
            ok ==> r == GitLegAction::Merge,
            !ok ==> (r matches GitLegAction::Fail(m) && m@ == "push to "@ + self.remote@ + " failed and re-fetch failed: "@
                + trim_ws(push_stderr@)),
    {
        if ok {
            GitLegAction::Merge
        } else {
            let a = concat("push to ", self.remote.as_str());
            let b = concat(a.as_str(), " failed and re-fetch failed: ");
            GitLegAction::Fail(concat(b.as_str(), trim_str(push_stderr).as_str()))
        }
    }

    /// The merge after a re-fetch is done: push again, or give up after the
    /// last attempt.
    pub fn on_merged(&self) -> (r: GitLegAction)
        ensures
            self.attempts < PUSH_ATTEMPTS ==> r == GitLegAction::Push,
            self.attempts >= PUSH_ATTEMPTS ==> (r matches GitLegAction::Fail(m) && m@ == "could not push "@ + EVENTS_REF@
                + " to "@ + self.remote@ + " after 3 attempts"@),
    {
        if self.attempts < PUSH_ATTEMPTS {
            GitLegAction::Push
        } else {
            let a = concat("could not push ", EVENTS_REF);
            let b = concat(a.as_str(), " to ");
            let c = concat(b.as_str(), self.remote.as_str());
            GitLegAction::Fail(concat(c.as_str(), " after 3 attempts"))
        }
    }
}

/// The git leg's report when the remote is not configured.
pub fn no_remote_report(remote: &str) -> (r: String)
    ensures
        r@ == "no remote '"@ + remote@ + "' configured; skipped"@,
{
    let a = concat("no remote '", remote);
    concat(a.as_str(), "' configured; skipped")
}

} // verus!
