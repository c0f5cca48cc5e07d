//! The dashboard's "in flight" page: every claim, grouped by dev, then
//! machine, then worktree (each in name order); within a worktree live
//! claims come before expired ones, and newer before older.
//!
//! Whether a claim is still live depends on the viewer's clock, so it is
//! handed in, one flag per claim.

use vstd::prelude::*;

use crate::browse::{cuttable, first_bytes, head_bytes};
use crate::entities::Claim;
use crate::sort::{sort_by_key, stable_sorted, SortKey};
use crate::text::{concat, copy_string, lemma_str_le_antisym, lemma_str_le_total, lemma_str_le_trans, str_eq, str_le, str_le_exec};

verus! {

/// A claim's place on the page.
#[derive(Clone, Debug)]
pub struct FlightKey {
    pub dev: String,
    pub machine: String,
    pub worktree: String,
    pub live: bool,
    pub created: String,
    /// The claim's position in the input.
    pub index: usize,
}

/// `a` is shown no later than `b`: by dev, machine and worktree name, then
/// live before expired, then newest first.
pub open spec fn flight_le(a: FlightKey, b: FlightKey) -> bool {
    if a.dev@ != b.dev@ {
        str_le(a.dev@, b.dev@)
    } else if a.machine@ != b.machine@ {
        str_le(a.machine@, b.machine@)
    } else if a.worktree@ != b.worktree@ {
        str_le(a.worktree@, b.worktree@)
    } else if a.live != b.live {
        a.live
    } else {
        str_le(b.created@, a.created@)
    }
}

/// Name order strictly between two different names, and how it chains.
proof fn lemma_name_step(a: Seq<char>, b: Seq<char>, c: Seq<char>)
    ensures
        (a != b && str_le(a, b) && b != c && str_le(b, c)) ==> (a != c && str_le(a, c)),
        (a != b && str_le(a, b) && b == c) ==> (a != c && str_le(a, c)),
        (a == b && b != c && str_le(b, c)) ==> (a != c && str_le(a, c)),
{
    if a != b && str_le(a, b) && b != c && str_le(b, c) {
        lemma_str_le_trans(a, b, c);
        if a == c {
            lemma_str_le_antisym(b, c);
        }
    }
}

impl SortKey for FlightKey {
    open spec fn key_le_spec(&self, other: &Self) -> bool {
        flight_le(*self, *other)
    }

    proof fn lemma_key_le_total(a: &Self, b: &Self) {
        lemma_str_le_total(a.dev@, b.dev@);
        lemma_str_le_total(a.machine@, b.machine@);
        lemma_str_le_total(a.worktree@, b.worktree@);
        lemma_str_le_total(a.created@, b.created@);
    }

    proof fn lemma_key_le_trans(a: &Self, b: &Self, c: &Self) {
        lemma_name_step(a.dev@, b.dev@, c.dev@);
        lemma_name_step(a.machine@, b.machine@, c.machine@);
        lemma_name_step(a.worktree@, b.worktree@, c.worktree@);
        if a.dev@ == b.dev@ && b.dev@ == c.dev@ && a.machine@ == b.machine@ && b.machine@ == c.machine@
            && a.worktree@ == b.worktree@ && b.worktree@ == c.worktree@ && a.live == b.live && b.live == c.live {
            lemma_str_le_trans(c.created@, b.created@, a.created@);
        }
    }

    fn key_le(&self, other: &Self) -> (r: bool) {
        if !str_eq(self.dev.as_str(), other.dev.as_str()) {
            str_le_exec(self.dev.as_str(), other.dev.as_str())
        } else if !str_eq(self.machine.as_str(), other.machine.as_str()) {
            str_le_exec(self.machine.as_str(), other.machine.as_str())
        } else if !str_eq(self.worktree.as_str(), other.worktree.as_str()) {
            str_le_exec(self.worktree.as_str(), other.worktree.as_str())
        } else if self.live != other.live {
            self.live
        } else {
            str_le_exec(other.created.as_str(), self.created.as_str())
        }
    }
}

/// The key of the `i`th claim.
pub open spec fn flight_key(c: Claim, live: bool, i: int) -> FlightKey {
    FlightKey { dev: c.dev, machine: c.machine, worktree: c.worktree, live, created: c.created, index: i as usize }
}

/// The keys of all claims, in input order.
pub open spec fn flight_keys(claims: Seq<Claim>, live: Seq<bool>) -> Seq<FlightKey> {
    Seq::new(claims.len(), |i: int| flight_key(claims[i], live[i], i))
}

/// One row of the page: which claim, whether it is live, and whether it
/// opens a new dev, machine or worktree group.
#[derive(Clone, Copy, Debug, PartialEq, Eq, Structural)]
pub struct FlightRow {
    pub index: usize,
    pub live: bool,
    pub new_dev: bool,
    pub new_machine: bool,
    pub new_worktree: bool,
}

/// Row `i` of the page whose claims come in order `s`.
pub open spec fn flight_row(s: Seq<FlightKey>, i: int) -> FlightRow {
    let new_dev = i == 0 || s[i].dev@ != s[i - 1].dev@;
    let new_machine = new_dev || s[i].machine@ != s[i - 1].machine@;
    FlightRow {
        index: s[i].index,
        live: s[i].live,
        new_dev,
        new_machine,
        new_worktree: new_machine || s[i].worktree@ != s[i - 1].worktree@,
    }
}

/// The page: every claim once, in display order, with its group breaks.
pub fn in_flight(claims: &[Claim], live: &[bool]) -> (r: Vec<FlightRow>)
    requires
        live@.len() == claims@.len(),
    ensures
        r@ == Seq::new(claims@.len(), |i: int| flight_row(stable_sorted(flight_keys(claims@, live@)), i)),
{
    let ghost keys = flight_keys(claims@, live@);
    let mut ks: Vec<FlightKey> = Vec::new();
    let mut i: usize = 0;
    while i < claims.len()
        invariant
            i <= claims@.len(),
            live@.len() == claims@.len(),
            keys == flight_keys(claims@, live@),
            ks@ == keys.subrange(0, i as int),
        decreases claims@.len() - i,
    {
        let c = &claims[i];
        ks.push(FlightKey {
            dev: copy_string(&c.dev),
            machine: copy_string(&c.machine),
            worktree: copy_string(&c.worktree),
            live: live[i],
            created: copy_string(&c.created),
            index: i,
        });
        assert(ks@ =~= keys.subrange(0, i + 1));
        i = i + 1;
    }
    assert(keys.subrange(0, claims@.len() as int) =~= keys);
    let sorted = sort_by_key(ks);
    let ghost s = stable_sorted(keys);
    assert(sorted@.len() == claims@.len()) by {
        vstd::seq_lib::to_multiset_len(sorted@);
        vstd::seq_lib::to_multiset_len(keys);
    }
    let mut out: Vec<FlightRow> = Vec::new();
    let mut k: usize = 0;
    while k < sorted.len()
        invariant
            k <= sorted@.len(),
            sorted@ == s,
            s.len() == claims@.len(),
            out@ == Seq::new(k as nat, |j: int| flight_row(s, j)),
        decreases sorted@.len() - k,
    {
        let new_dev = k == 0 || !str_eq(sorted[k].dev.as_str(), sorted[k - 1].dev.as_str());
        let new_machine = new_dev || !str_eq(sorted[k].machine.as_str(), sorted[k - 1].machine.as_str());
        let new_worktree = new_machine || !str_eq(sorted[k].worktree.as_str(), sorted[k - 1].worktree.as_str());
        out.push(FlightRow { index: sorted[k].index, live: sorted[k].live, new_dev, new_machine, new_worktree });
        assert(out@ =~= Seq::new((k + 1) as nat, |j: int| flight_row(s, j)));
        k = k + 1;
    }
    assert(out@ =~= Seq::new(claims@.len(), |j: int| flight_row(s, j)));
    out
}

/// How many of `dev`'s claims are live (`want_live`) or expired.
pub open spec fn dev_count(claims: Seq<Claim>, live: Seq<bool>, dev: Seq<char>, want_live: bool) -> nat
    decreases claims.len(),
{
    if claims.len() == 0 || live.len() != claims.len() {
        0
    } else {
        dev_count(claims.drop_last(), live.drop_last(), dev, want_live) + (if claims.last().dev@ == dev
            && live.last() == want_live {
            1nat
        } else {
            0nat
        })
    }
}

/// A dev's header badges: how many of their claims are live, and how many
/// expired.
pub fn dev_tally(claims: &[Claim], live: &[bool], dev: &str) -> (r: (usize, usize))
    requires
        live@.len() == claims@.len(),
    ensures
        r.0 == dev_count(claims@, live@, dev@, true),
        r.1 == dev_count(claims@, live@, dev@, false),
{
    let mut n_live: usize = 0;
    let mut n_expired: usize = 0;
    let mut i: usize = 0;
    while i < claims.len()
        invariant
            i <= claims@.len(),
            live@.len() == claims@.len(),
            n_live == dev_count(claims@.subrange(0, i as int), live@.subrange(0, i as int), dev@, true),
            n_expired == dev_count(claims@.subrange(0, i as int), live@.subrange(0, i as int), dev@, false),
            n_live + n_expired <= i,
        decreases claims@.len() - i,
    {
        proof {
            assert(claims@.subrange(0, i + 1).drop_last() =~= claims@.subrange(0, i as int));
            assert(live@.subrange(0, i + 1).drop_last() =~= live@.subrange(0, i as int));
        }
        if str_eq(claims[i].dev.as_str(), dev) {
            if live[i] {
                n_live = n_live + 1;
            } else {
                n_expired = n_expired + 1;
            }
        }
        i = i + 1;
    }
    assert(claims@.subrange(0, claims@.len() as int) =~= claims@);
    assert(live@.subrange(0, live@.len() as int) =~= live@);
    (n_live, n_expired)
}

/// A claim row's short name (`lv-` and the first six bytes of the task id)
/// and title (the task's, else the short name).
pub fn claim_row_names(task_id: &str, title: Option<String>) -> (r: (String, String))
    requires
        cuttable(task_id@, 6),
    ensures
        r.0@ == "lv-"@ + head_bytes(task_id@, 6),
        r.1@ == match title {
            Some(t) => t@,
            None => "lv-"@ + head_bytes(task_id@, 6),
        },
{
    let short = concat("lv-", first_bytes(task_id, 6));
    let shown = match title {
        Some(t) => t,
        None => copy_string(&short),
    };
    (short, shown)
}

} // verus!
