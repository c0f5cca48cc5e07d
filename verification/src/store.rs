//! The event store's contents: the ids of the events on the events ref (the
//! git object ids of their CBOR blobs, in hex), and how the ref's tree lays
//! them out — sharded by the first two hex digits (`ab/cdef12…`), like
//! `.git/objects`. Events are immutable and add-only, so merging two
//! histories is the union of their ids and never conflicts. Reading and
//! writing the objects is the caller's part.

use vstd::prelude::*;

use crate::agent_docs::chars_of;
use crate::foreign::is_hex_digit;
use crate::strmap::{lemma_pairs_map_all, lemma_pairs_map_finite, strictly_sorted, StrMap};
use crate::text::{concat, copy_string, decimal, decimal_string, str_eq, str_lt, string_of_chars};

verus! {

broadcast use vstd::set::group_set_axioms;

/// A hex object id, long enough to shard.
pub open spec fn hex_id(s: Seq<char>) -> bool {
    s.len() >= 2 && forall|i: int| 0 <= i < s.len() ==> is_hex_digit(#[trigger] s[i])
}

/// The shard (tree directory) of an id: its first two hex digits.
pub open spec fn shard_of(id: Seq<char>) -> Seq<char> {
    id.subrange(0, 2)
}

/// The file name of an id within its shard: the rest of it.
pub open spec fn name_of(id: Seq<char>) -> Seq<char> {
    id.subrange(2, id.len() as int)
}

/// The ids a layout lists, shard by shard.
pub open spec fn layout_ids(gs: Seq<(String, Vec<String>)>) -> Seq<Seq<char>>
    decreases gs.len(),
{
    if gs.len() == 0 {
        Seq::empty()
    } else {
        layout_ids(gs.drop_last()) + gs.last().1@.map_values(|n: String| gs.last().0@ + n@)
    }
}

/// `s` is strictly increasing.
pub open spec fn increasing(s: Seq<Seq<char>>) -> bool {
    forall|i: int, j: int| 0 <= i < j < s.len() ==> str_lt(#[trigger] s[i], #[trigger] s[j])
}

/// The events on one events-ref commit.
pub struct EventSet {
    ids: StrMap<()>,
}

impl EventSet {
    /// The event ids.
    pub closed spec fn ids(&self) -> Set<Seq<char>> {
        self.ids.map().dom()
    }

    #[verifier::type_invariant]
    closed spec fn all_hex(&self) -> bool {
        forall|k: Seq<char>| #[trigger] self.ids.map().dom().contains(k) ==> hex_id(k)
    }

    /// The ids are the keys of the map, which are distinct.
    proof fn lemma_keys(m: StrMap<()>)
        requires
            strictly_sorted(m.pairs()),
        ensures
            m.map().dom() == m.key_seq().to_set(),
            m.key_seq().no_duplicates(),
            m.map().dom().finite(),
            m.map().dom().len() == m.key_seq().len(),
            increasing(m.key_seq()),
    {
        lemma_pairs_map_finite(m.pairs());
        let ks = m.key_seq();
        assert(ks =~= m.pairs().map_values(|e: (Seq<char>, ())| e.0));
        assert forall|i: int, j: int| 0 <= i < ks.len() && 0 <= j < ks.len() && i != j implies ks[i] != ks[j] by {
            if i < j {
                assert(str_lt(m.pairs()[i].0, m.pairs()[j].0));
            } else {
                assert(str_lt(m.pairs()[j].0, m.pairs()[i].0));
            }
        }
        assert forall|i: int, j: int| 0 <= i < j < ks.len() implies str_lt(#[trigger] ks[i], #[trigger] ks[j]) by {
            assert(str_lt(m.pairs()[i].0, m.pairs()[j].0));
        }
        ks.unique_seq_to_set();
        vstd::seq_lib::seq_to_set_is_finite(ks);
    }

    /// No events.
    pub fn new() -> (r: EventSet)
        ensures
            r.ids() == Set::<Seq<char>>::empty(),
    {
        EventSet { ids: StrMap::new() }
    }

    /// How many events there are.
    pub fn len(&self) -> (n: usize)
        ensures
            self.ids().finite(),
            n == self.ids().len(),
    {
        let n = self.ids.len();
        proof {
            Self::lemma_keys(self.ids);
        }
        n
    }

    /// Is event `id` here?
    pub fn contains(&self, id: &str) -> (b: bool)
        ensures
            b == self.ids().contains(id@),
    {
        self.ids.contains_key(id)
    }

    /// Add one event; whether it was new.
    pub fn insert_blob(&mut self, id: String) -> (added: bool)
        requires
            hex_id(id@),
        ensures
            final(self).ids() == old(self).ids().insert(id@),
            added == !old(self).ids().contains(id@),
    {
        proof {
            use_type_invariant(&*self);
        }
        let ghost before = self.ids.map();
        let ghost k = id@;
        let mut ids: StrMap<()> = StrMap::new();
        std::mem::swap(&mut ids, &mut self.ids);
        let prev = ids.insert(id, ());
        proof {
            assert forall|x: Seq<char>| #[trigger] ids.map().dom().contains(x) implies hex_id(x) by {
                if x != k {
                    assert(before.dom().contains(x));
                }
            }
        }
        self.ids = ids;
        prev.is_none()
    }

    /// Union `theirs` into this set; how many of its events were new here.
    pub fn merge(&mut self, theirs: &EventSet) -> (added: usize)
        ensures
            old(self).ids().finite(),
            theirs.ids().finite(),
            final(self).ids() == old(self).ids().union(theirs.ids()),
            added == theirs.ids().difference(old(self).ids()).len(),
    {
        let _ = self.ids.len();
        let n = theirs.ids.len();
        proof {
            use_type_invariant(&*self);
            use_type_invariant(theirs);
            Self::lemma_keys(self.ids);
            Self::lemma_keys(theirs.ids);
        }
        let ghost o = self.ids();
        let ghost ks = theirs.ids.key_seq();
        let mut added: usize = 0;
        let mut k: usize = 0;
        proof {
            lemma_pairs_map_all(theirs.ids.pairs());
            assert forall|i: int| 0 <= i < ks.len() implies hex_id(#[trigger] ks[i]) by {
                assert(theirs.ids.map().dom().contains(theirs.ids.pairs()[i].0));
            }
            assert(ks.subrange(0, 0).to_set() =~= Set::<Seq<char>>::empty());
            assert(o.union(Set::<Seq<char>>::empty()) =~= o);
        }
        while k < n
            invariant
                k <= n,
                n == ks.len(),
                ks == theirs.ids.key_seq(),
                forall|i: int| 0 <= i < ks.len() ==> hex_id(#[trigger] ks[i]),
                o.finite(),
                self.ids().finite(),
                self.ids() == o.union(ks.subrange(0, k as int).to_set()),
                added <= k,
                added == self.ids().len() - o.len(),
            decreases n - k,
        {
            let key = copy_string(theirs.ids.key_at(k));
            assert(key@ == ks[k as int]);
            assert(hex_id(key@));
            let fresh = self.insert_blob(key);
            proof {
                assert(ks.subrange(0, k + 1) =~= ks.subrange(0, k as int).push(ks[k as int]));
                ks.subrange(0, k as int).lemma_push_to_set_commute(ks[k as int]);
                assert(self.ids() =~= o.union(ks.subrange(0, k + 1).to_set()));
            }
            if fresh {
                added = added + 1;
            }
            k = k + 1;
        }
        proof {
            assert(ks.subrange(0, n as int) =~= ks);
            let t = theirs.ids();
            let d = t.difference(o);
            assert(o.union(t) =~= o + d);
            vstd::set_lib::lemma_len_subset(d, t);
            vstd::set_lib::lemma_set_disjoint_lens(o, d);
        }
        added
    }

    /// The tree layout: each shard in order with the file names of its
    /// events, in order. Listed shard by shard, the ids come out strictly
    /// increasing, and they are exactly this set's ids.
    pub fn layout(&self) -> (r: Vec<(String, Vec<String>)>)
        ensures
            layout_ids(r@).to_set() == self.ids(),
            increasing(layout_ids(r@)),
            forall|i: int| 0 <= i < r@.len() ==> (#[trigger] r@[i]).0@.len() == 2 && r@[i].1@.len() > 0,
            forall|i: int| 0 < i < r@.len() ==> (#[trigger] r@[i]).0@ != r@[i - 1].0@,
    {
        let n = self.ids.len();
        let ghost ks = self.ids.key_seq();
        proof {
            use_type_invariant(self);
            Self::lemma_keys(self.ids);
            lemma_pairs_map_all(self.ids.pairs());
            assert forall|i: int| 0 <= i < ks.len() implies hex_id(#[trigger] ks[i]) by {
                assert(self.ids.map().dom().contains(self.ids.pairs()[i].0));
            }
        }
        let mut out: Vec<(String, Vec<String>)> = Vec::new();
        let mut cur_shard = String::new();
        let mut cur_names: Vec<String> = Vec::new();
        let mut k: usize = 0;
        while k < n
            invariant
                k <= n,
                n == ks.len(),
                ks == self.ids.key_seq(),
                forall|i: int| 0 <= i < ks.len() ==> hex_id(#[trigger] ks[i]),
                layout_ids(out@) + cur_names@.map_values(|nm: String| cur_shard@ + nm@) == ks.subrange(0, k as int),
                forall|i: int| 0 <= i < out@.len() ==> (#[trigger] out@[i]).0@.len() == 2 && out@[i].1@.len() > 0,
                forall|i: int| 0 < i < out@.len() ==> (#[trigger] out@[i]).0@ != out@[i - 1].0@,
                k > 0 ==> cur_shard@.len() == 2 && cur_names@.len() > 0,
                k > 0 && out@.len() > 0 ==> out@.last().0@ != cur_shard@,
                k == 0 ==> out@.len() == 0 && cur_names@.len() == 0,
            decreases n - k,
        {
            let cs = chars_of(self.ids.key_at(k).as_str());
            let ghost id = ks[k as int];
            let mut sh: Vec<char> = Vec::new();
            sh.push(cs[0]);
            sh.push(cs[1]);
            let mut rest: Vec<char> = Vec::new();
            let mut j: usize = 2;
            while j < cs.len()
                invariant
                    2 <= j <= cs@.len(),
                    rest@ == cs@.subrange(2, j as int),
                decreases cs@.len() - j,
            {
                rest.push(cs[j]);
                assert(rest@ =~= cs@.subrange(2, j + 1));
                j = j + 1;
            }
            let shard = string_of_chars(sh);
            let name = string_of_chars(rest);
            proof {
                assert(shard@ =~= id.subrange(0, 2));
                assert(shard@ + name@ =~= id);
            }
            let ghost prev_out = out@;
            let ghost prev_names = cur_names@;
            let ghost prev_shard = cur_shard@;
            if k > 0 && str_eq(cur_shard.as_str(), shard.as_str()) {
                cur_names.push(name);
                proof {
                    assert(cur_names@.map_values(|nm: String| cur_shard@ + nm@) =~= prev_names.map_values(
                        |nm: String| prev_shard + nm@,
                    ).push(id));
                }
            } else {
                let mut fresh: Vec<String> = Vec::new();
                fresh.push(name);
                if k > 0 {
                    let mut done_shard = shard;
                    std::mem::swap(&mut done_shard, &mut cur_shard);
                    let mut done_names = fresh;
                    std::mem::swap(&mut done_names, &mut cur_names);
                    out.push((done_shard, done_names));
                    proof {
                        assert(out@.drop_last() =~= prev_out);
                        assert(layout_ids(out@) =~= layout_ids(prev_out) + prev_names.map_values(|nm: String| prev_shard + nm@));
                    }
                } else {
                    cur_shard = shard;
                    cur_names = fresh;
                }
                proof {
                    assert(cur_names@.map_values(|nm: String| cur_shard@ + nm@) =~= seq![id]);
                }
            }
            proof {
                assert(ks.subrange(0, k + 1) =~= ks.subrange(0, k as int).push(id));
            }
            k = k + 1;
        }
        if k > 0 {
            let ghost prev_out = out@;
            let ghost names = cur_names@;
            let ghost sh = cur_shard@;
            out.push((cur_shard, cur_names));
            proof {
                assert(out@.drop_last() =~= prev_out);
                assert(layout_ids(out@) =~= layout_ids(prev_out) + names.map_values(|nm: String| sh + nm@));
            }
        } else {
            proof {
                assert(layout_ids(out@) =~= Seq::<Seq<char>>::empty());
            }
        }
        proof {
            assert(ks.subrange(0, n as int) =~= ks);
            assert(layout_ids(out@) =~= ks);
        }
        out
    }
}

/// Merging theirs into ours gives the events that merging ours into theirs
/// gives.
pub proof fn law_merge_commutes(a: Set<Seq<char>>, b: Set<Seq<char>>)
    ensures
        a.union(b) == b.union(a),
{
    assert(a.union(b) =~= b.union(a));
}

/// Merging the same history twice adds nothing the second time, and leaves
/// the events as the first merge left them: sync is idempotent.
pub proof fn law_merge_idempotent(a: Set<Seq<char>>, b: Set<Seq<char>>)
    ensures
        a.union(b).union(b) == a.union(b),
        b.difference(a.union(b)).len() == 0,
{
    assert(a.union(b).union(b) =~= a.union(b));
    assert(b.difference(a.union(b)) =~= Set::<Seq<char>>::empty());
}

/// After an append of events, a new commit is needed unless nothing was new
/// and the ref already existed.
pub fn append_needs_commit(added: usize, had_head: bool) -> (r: bool)
    ensures
        r == !(added == 0 && had_head),
{
    !(added == 0 && had_head)
}

/// After a union with another history, a merge commit is needed unless
/// nothing was new and theirs is already in our history (keeps sync
/// idempotent).
pub fn merge_needs_commit(added: usize, theirs_is_ancestor: bool) -> (r: bool)
    ensures
        r == (added > 0 || !theirs_is_ancestor),
{
    added > 0 || !theirs_is_ancestor
}

/// The message of an append commit.
pub fn append_message(added: usize) -> (r: String)
    ensures
        r@ == "levi: "@ + decimal(added as nat) + " event(s)"@,
{
    let a = concat("levi: ", decimal_string(added).as_str());
    concat(a.as_str(), " event(s)")
}

/// The message of a merge commit.
pub fn merge_message(added: usize) -> (r: String)
    ensures
        r@ == "levi: merge "@ + decimal(added as nat) + " event(s)"@,
{
    let a = concat("levi: merge ", decimal_string(added).as_str());
    concat(a.as_str(), " event(s)")
}

/// How many times a ref update is tried before giving up.
pub const MAX_CAS_RETRIES: usize = 5;

/// How long to wait before the `attempt`th try (0-based) of a ref update.
pub fn cas_delay_ms(attempt: usize) -> (ms: u64)
    requires
        attempt < MAX_CAS_RETRIES,
    ensures
        ms == 20 * attempt,
{
    20 * (attempt as u64)
}

} // verus!
