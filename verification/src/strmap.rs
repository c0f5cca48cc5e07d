//! `StrMap<V>`: an ordered map keyed by `String`, iterated in key order (the
//! order `str` compares in). Entries live in a vector kept strictly sorted by
//! key, so keys are unique and iteration order is the map's key order.

use vstd::prelude::*;

use crate::text::{lemma_str_le_antisym, lemma_str_le_total, lemma_str_le_trans, str_eq, str_le_exec, str_lt};

verus! {

/// Keys of `s` are strictly increasing (hence unique).
pub open spec fn strictly_sorted<V>(s: Seq<(Seq<char>, V)>) -> bool {
    forall|i: int, j: int| 0 <= i < j < s.len() ==> str_lt(s[i].0, s[j].0)
}

/// `k` is a key of `s`.
pub open spec fn has_key<V>(s: Seq<(Seq<char>, V)>, k: Seq<char>) -> bool {
    exists|i: int| 0 <= i < s.len() && s[i].0 == k
}

/// The index at which `k` sits in `s`.
pub open spec fn index_of_key<V>(s: Seq<(Seq<char>, V)>, k: Seq<char>) -> int {
    choose|i: int| 0 <= i < s.len() && s[i].0 == k
}

/// The finite map a sorted entry sequence denotes.
pub open spec fn pairs_map<V>(s: Seq<(Seq<char>, V)>) -> Map<Seq<char>, V> {
    Map::new(|k: Seq<char>| has_key(s, k), |k: Seq<char>| s[index_of_key(s, k)].1)
}

/// In a strictly sorted sequence, keys determine positions.
pub proof fn lemma_unique_keys<V>(s: Seq<(Seq<char>, V)>, i: int, j: int)
    requires
        strictly_sorted(s),
        0 <= i < s.len(),
        0 <= j < s.len(),
        s[i].0 == s[j].0,
    ensures
        i == j,
{
    if i < j {
        assert(str_lt(s[i].0, s[j].0));
    } else if j < i {
        assert(str_lt(s[j].0, s[i].0));
    }
}

/// Looking a present key up in the map yields the value stored at its index.
pub proof fn lemma_pairs_map_at<V>(s: Seq<(Seq<char>, V)>, i: int)
    requires
        strictly_sorted(s),
        0 <= i < s.len(),
    ensures
        pairs_map(s).dom().contains(s[i].0),
        pairs_map(s)[s[i].0] == s[i].1,
{
    let k = s[i].0;
    assert(has_key(s, k));
    let j = index_of_key(s, k);
    lemma_unique_keys(s, i, j);
}

/// A key is present iff some entry has it.
pub proof fn lemma_pairs_map_dom<V>(s: Seq<(Seq<char>, V)>, k: Seq<char>)
    ensures
        pairs_map(s).dom().contains(k) <==> has_key(s, k),
{
}

/// Every entry of `s` is an entry of its map, and the map has no others.
pub proof fn lemma_pairs_map_all<V>(s: Seq<(Seq<char>, V)>)
    requires
        strictly_sorted(s),
    ensures
        forall|i: int| #![trigger s[i]] 0 <= i < s.len() ==> pairs_map(s).dom().contains(s[i].0) && pairs_map(s)[s[i].0] == s[i].1,
        forall|k: Seq<char>| #[trigger] pairs_map(s).dom().contains(k) ==> has_key(s, k),
{
    assert forall|i: int| #![trigger s[i]] 0 <= i < s.len() implies pairs_map(s).dom().contains(s[i].0) && pairs_map(s)[s[i].0] == s[i].1 by {
        lemma_pairs_map_at(s, i);
    }
}

/// The keys of an entry sequence form a finite set no larger than the sequence.
pub proof fn lemma_pairs_map_finite<V>(s: Seq<(Seq<char>, V)>)
    ensures
        pairs_map(s).dom() == s.map_values(|e: (Seq<char>, V)| e.0).to_set(),
        pairs_map(s).dom().finite(),
        pairs_map(s).dom().len() <= s.len(),
{
    broadcast use vstd::seq_lib::seq_to_set_is_finite;

    let ks = s.map_values(|e: (Seq<char>, V)| e.0);
    assert forall|k: Seq<char>| pairs_map(s).dom().contains(k) <==> ks.to_set().contains(k) by {
        if has_key(s, k) {
            let i = choose|i: int| 0 <= i < s.len() && s[i].0 == k;
            assert(ks[i] == k);
        }
        if ks.contains(k) {
            let i = choose|i: int| 0 <= i < ks.len() && ks[i] == k;
            assert(s[i].0 == k);
        }
    }
    assert(pairs_map(s).dom() =~= ks.to_set());
    ks.lemma_cardinality_of_set();
}

/// A reordering of a map's values, each keyed by its own id, holds each
/// value of the map exactly once.
pub proof fn lemma_reordered_values<V>(pairs: Seq<(Seq<char>, V)>, r: Seq<V>, idf: spec_fn(V) -> Seq<char>)
    requires
        strictly_sorted(pairs),
        forall|i: int| 0 <= i < pairs.len() ==> #[trigger] idf(pairs[i].1) == pairs[i].0,
        r.to_multiset() == pairs.map_values(|e: (Seq<char>, V)| e.1).to_multiset(),
    ensures
        forall|i: int| #![trigger r[i]] 0 <= i < r.len() ==> pairs_map(pairs).dom().contains(idf(r[i])) && pairs_map(pairs)[idf(r[i])] == r[i],
        forall|i: int, j: int| 0 <= i < r.len() && 0 <= j < r.len() && i != j ==> idf(#[trigger] r[i]) != idf(#[trigger] r[j]),
        forall|k: Seq<char>| #[trigger] pairs_map(pairs).dom().contains(k) ==> exists|i: int| 0 <= i < r.len() && idf(r[i]) == k,
{
    broadcast use vstd::seq_lib::group_to_multiset_ensures;
    let vals = pairs.map_values(|e: (Seq<char>, V)| e.1);
    lemma_pairs_map_all(pairs);
    assert forall|i: int| #![trigger r[i]] 0 <= i < r.len() implies pairs_map(pairs).dom().contains(idf(r[i])) && pairs_map(pairs)[idf(r[i])] == r[i] by {
        assert(r.contains(r[i]));
        assert(r.to_multiset().count(r[i]) > 0);
        assert(vals.contains(r[i]));
        let j = choose|j: int| 0 <= j < vals.len() && vals[j] == r[i];
        assert(vals[j] == pairs[j].1);
    }
    assert(vals.no_duplicates()) by {
        assert forall|a: int, b: int| 0 <= a < vals.len() && 0 <= b < vals.len() && a != b implies vals[a] != vals[b] by {
            assert(vals[a] == pairs[a].1 && vals[b] == pairs[b].1);
            if vals[a] == vals[b] {
                assert(idf(pairs[a].1) == pairs[a].0 && idf(pairs[b].1) == pairs[b].0);
                lemma_unique_keys(pairs, a, b);
            }
        }
    }
    vals.lemma_multiset_has_no_duplicates();
    r.lemma_multiset_has_no_duplicates_conv();
    assert forall|i: int, j: int| 0 <= i < r.len() && 0 <= j < r.len() && i != j implies idf(#[trigger] r[i]) != idf(#[trigger] r[j]) by {
        if idf(r[i]) == idf(r[j]) {
            assert(pairs_map(pairs)[idf(r[i])] == r[i]);
            assert(pairs_map(pairs)[idf(r[j])] == r[j]);
        }
    }
    assert forall|k: Seq<char>| #[trigger] pairs_map(pairs).dom().contains(k) implies exists|i: int| 0 <= i < r.len() && idf(r[i]) == k by {
        let j = choose|j: int| 0 <= j < pairs.len() && pairs[j].0 == k;
        assert(vals[j] == pairs[j].1);
        assert(vals.contains(vals[j]));
        assert(vals.to_multiset().count(vals[j]) > 0);
        assert(r.contains(vals[j]));
        let i = choose|i: int| 0 <= i < r.len() && r[i] == vals[j];
        assert(idf(r[i]) == k);
    }
}

/// An ordered map from strings to `V`.
pub struct StrMap<V> {
    entries: Vec<(String, V)>,
}

impl<V> StrMap<V> {
    /// The entries, in key order.
    pub closed spec fn pairs(&self) -> Seq<(Seq<char>, V)> {
        self.entries@.map_values(|e: (String, V)| (e.0@, e.1))
    }

    #[verifier::type_invariant]
    closed spec fn sorted_inv(&self) -> bool {
        strictly_sorted(self.pairs())
    }

    /// The map denoted by the entries.
    pub open spec fn map(&self) -> Map<Seq<char>, V> {
        pairs_map(self.pairs())
    }

    /// The keys, in order.
    pub open spec fn key_seq(&self) -> Seq<Seq<char>> {
        self.pairs().map_values(|e: (Seq<char>, V)| e.0)
    }

    /// An empty map.
    pub fn new() -> (m: Self)
        ensures
            m.pairs() == Seq::<(Seq<char>, V)>::empty(),
            m.map() == Map::<Seq<char>, V>::empty(),
    {
        let m = StrMap { entries: Vec::new() };
        assert(m.pairs() =~= Seq::<(Seq<char>, V)>::empty());
        assert(m.map() =~= Map::<Seq<char>, V>::empty());
        m
    }

    /// Number of entries.
    pub fn len(&self) -> (n: usize)
        ensures
            n == self.pairs().len(),
            strictly_sorted(self.pairs()),
    {
        proof {
            use_type_invariant(self);
        }
        self.entries.len()
    }

    /// True when there are no entries.
    pub fn is_empty(&self) -> (b: bool)
        ensures
            b == (self.pairs().len() == 0),
    {
        self.entries.len() == 0
    }

    /// The key of entry `i`.
    pub fn key_at(&self, i: usize) -> (k: &String)
        requires
            i < self.pairs().len(),
        ensures
            k@ == self.pairs()[i as int].0,
    {
        &self.entries[i].0
    }

    /// The value of entry `i`.
    pub fn value_at(&self, i: usize) -> (v: &V)
        requires
            i < self.pairs().len(),
        ensures
            *v == self.pairs()[i as int].1,
    {
        &self.entries[i].1
    }

    /// Index of the first entry whose key is `>= key`, and whether it equals `key`.
    fn search(&self, key: &str) -> (r: (usize, bool))
        ensures
            r.0 <= self.pairs().len(),
            forall|j: int| 0 <= j < r.0 ==> str_lt(#[trigger] self.pairs()[j].0, key@),
            r.1 ==> r.0 < self.pairs().len() && self.pairs()[r.0 as int].0 == key@,
            !r.1 ==> forall|j: int| r.0 <= j < self.pairs().len() ==> str_lt(key@, #[trigger] self.pairs()[j].0),
    {
        proof {
            use_type_invariant(self);
        }
        let mut i: usize = 0;
        while i < self.entries.len()
            invariant
                i <= self.pairs().len(),
                self.pairs().len() == self.entries@.len(),
                strictly_sorted(self.pairs()),
                forall|j: int| 0 <= j < i ==> str_lt(#[trigger] self.pairs()[j].0, key@),
            decreases self.entries@.len() - i,
        {
            let k = &self.entries[i].0;
            assert(k@ == self.pairs()[i as int].0);
            if str_le_exec(key, k.as_str()) {
                let eq = str_eq(key, k.as_str());
                if !eq {
                    assert forall|j: int| i <= j < self.pairs().len() implies str_lt(key@, #[trigger] self.pairs()[j].0) by {
                        if j > i {
                            assert(str_lt(self.pairs()[i as int].0, self.pairs()[j].0));
                            lemma_str_le_trans(key@, self.pairs()[i as int].0, self.pairs()[j].0);
                            if key@ == self.pairs()[j].0 {
                                lemma_str_le_antisym(key@, self.pairs()[i as int].0);
                            }
                        }
                    }
                }
                return (i, eq);
            }
            proof {
                lemma_str_le_total(key@, k@);
            }
            i = i + 1;
        }
        (i, false)
    }

    /// Whether `key` is present.
    pub fn contains_key(&self, key: &str) -> (b: bool)
        ensures
            b == self.map().dom().contains(key@),
    {
        proof {
            use_type_invariant(self);
        }
        let (i, found) = self.search(key);
        proof {
            if found {
                lemma_pairs_map_at(self.pairs(), i as int);
            } else if has_key(self.pairs(), key@) {
                let j = choose|j: int| 0 <= j < self.pairs().len() && self.pairs()[j].0 == key@;
                if j < i {
                    assert(str_lt(self.pairs()[j].0, key@));
                } else {
                    assert(str_lt(key@, self.pairs()[j].0));
                }
            }
        }
        found
    }

    /// The value stored under `key`.
    pub fn get(&self, key: &str) -> (r: Option<&V>)
        ensures
            r.is_some() == self.map().dom().contains(key@),
            r.is_some() ==> *r.unwrap() == self.map()[key@],
    {
        proof {
            use_type_invariant(self);
        }
        let (i, found) = self.search(key);
        if found {
            proof {
                lemma_pairs_map_at(self.pairs(), i as int);
            }
            Some(&self.entries[i].1)
        } else {
            proof {
                if has_key(self.pairs(), key@) {
                    let j = choose|j: int| 0 <= j < self.pairs().len() && self.pairs()[j].0 == key@;
                    if j < i {
                        assert(str_lt(self.pairs()[j].0, key@));
                    } else {
                        assert(str_lt(key@, self.pairs()[j].0));
                    }
                }
            }
            None
        }
    }

    /// The values, in key order.
    pub fn into_values(self) -> (r: Vec<V>)
        ensures
            r@ == self.pairs().map_values(|e: (Seq<char>, V)| e.1),
            strictly_sorted(self.pairs()),
    {
        proof {
            use_type_invariant(&self);
        }
        let ghost ps = self.pairs();
        let StrMap { entries } = self;
        let mut rest = entries;
        let mut rev: Vec<V> = Vec::new();
        while rest.len() > 0
            invariant
                rest@.len() + rev@.len() == ps.len(),
                forall|j: int| 0 <= j < rest@.len() ==> #[trigger] rest@[j].1 == ps[j].1,
                forall|j: int| 0 <= j < rev@.len() ==> #[trigger] rev@[j] == ps[ps.len() - 1 - j].1,
            decreases rest@.len(),
        {
            let e = rest.pop().unwrap();
            rev.push(e.1);
        }
        let mut out: Vec<V> = Vec::new();
        while rev.len() > 0
            invariant
                rev@.len() + out@.len() == ps.len(),
                forall|j: int| 0 <= j < rev@.len() ==> #[trigger] rev@[j] == ps[ps.len() - 1 - j].1,
                forall|j: int| 0 <= j < out@.len() ==> #[trigger] out@[j] == ps[j].1,
            decreases rev@.len(),
        {
            let v = rev.pop().unwrap();
            out.push(v);
        }
        assert(out@ =~= ps.map_values(|e: (Seq<char>, V)| e.1));
        out
    }

    /// Insert or replace the value under `key`; returns the previous value.
    pub fn insert(&mut self, key: String, value: V) -> (old_value: Option<V>)
        ensures
            final(self).map() == old(self).map().insert(key@, value),
            old_value.is_some() == old(self).map().dom().contains(key@),
            old_value.is_some() ==> old_value.unwrap() == old(self).map()[key@],
    {
        proof {
            use_type_invariant(&*self);
        }
        let ghost old_pairs = self.pairs();
        let (i, found) = self.search(key.as_str());
        let ghost kv = key@;
        let mut entries: Vec<(String, V)> = Vec::new();
        std::mem::swap(&mut entries, &mut self.entries);
        assert(entries@.map_values(|e: (String, V)| (e.0@, e.1)) == old_pairs);
        if found {
            let old_entry = entries.remove(i);
            entries.insert(i, (key, value));
            let ghost s = entries@.map_values(|e: (String, V)| (e.0@, e.1));
            proof {
                assert(s =~= old_pairs.update(i as int, (kv, value)));
                assert forall|a: int, b: int| 0 <= a < b < s.len() implies str_lt(s[a].0, s[b].0) by {
                    assert(str_lt(old_pairs[a].0, old_pairs[b].0));
                }
            }
            self.entries = entries;
            proof {
                assert(self.pairs() == s);
                lemma_pairs_map_at(old_pairs, i as int);
                lemma_pairs_map_all(s);
                lemma_pairs_map_all(old_pairs);
                assert forall|k: Seq<char>| #[trigger] pairs_map(s).dom().contains(k) <==> old(self).map().insert(kv, value).dom().contains(k) by {
                    if has_key(old_pairs, k) {
                        let j = choose|j: int| 0 <= j < old_pairs.len() && old_pairs[j].0 == k;
                        assert(s[j].0 == k);
                    }
                    if k == kv {
                        assert(s[i as int].0 == kv);
                    }
                    if has_key(s, k) {
                        let j = choose|j: int| 0 <= j < s.len() && s[j].0 == k;
                        if j != i {
                            assert(old_pairs[j].0 == k);
                        }
                    }
                }
                assert forall|k: Seq<char>| #[trigger] pairs_map(s).dom().contains(k) implies pairs_map(s)[k] == old(self).map().insert(kv, value)[k] by {
                    let j = choose|j: int| 0 <= j < s.len() && s[j].0 == k;
                    lemma_pairs_map_at(s, j);
                    if k == kv {
                        lemma_unique_keys(s, j, i as int);
                    }
                    if j != i {
                        assert(old_pairs[j].0 == k);
                        lemma_pairs_map_at(old_pairs, j);
                    }
                }
                assert(self.map() =~= old(self).map().insert(kv, value));
            }
            Some(old_entry.1)
        } else {
            entries.insert(i, (key, value));
            let ghost s = entries@.map_values(|e: (String, V)| (e.0@, e.1));
            proof {
                assert(s =~= old_pairs.insert(i as int, (kv, value)));
                assert forall|a: int, b: int| 0 <= a < b < s.len() implies str_lt(s[a].0, s[b].0) by {
                    if b < i {
                        assert(str_lt(old_pairs[a].0, old_pairs[b].0));
                    } else if b == i {
                        assert(str_lt(old_pairs[a].0, kv));
                    } else if a < i {
                        assert(str_lt(old_pairs[a].0, kv));
                        assert(str_lt(kv, old_pairs[b - 1].0));
                        lemma_str_le_trans(old_pairs[a].0, kv, old_pairs[b - 1].0);
                        if old_pairs[a].0 == old_pairs[b - 1].0 {
                            lemma_str_le_antisym(old_pairs[a].0, kv);
                        }
                    } else if a == i {
                        assert(str_lt(kv, old_pairs[b - 1].0));
                    } else {
                        assert(str_lt(old_pairs[a - 1].0, old_pairs[b - 1].0));
                    }
                }
            }
            self.entries = entries;
            proof {
                assert(self.pairs() == s);
                lemma_pairs_map_all(s);
                lemma_pairs_map_all(old_pairs);
                assert(!has_key(old_pairs, kv)) by {
                    if has_key(old_pairs, kv) {
                        let j = choose|j: int| 0 <= j < old_pairs.len() && old_pairs[j].0 == kv;
                        if j < i {
                            assert(str_lt(old_pairs[j].0, kv));
                        } else {
                            assert(str_lt(kv, old_pairs[j].0));
                        }
                    }
                }
                assert forall|k: Seq<char>| #[trigger] pairs_map(s).dom().contains(k) <==> old(self).map().insert(kv, value).dom().contains(k) by {
                    if has_key(old_pairs, k) {
                        let j = choose|j: int| 0 <= j < old_pairs.len() && old_pairs[j].0 == k;
                        if j < i {
                            assert(s[j].0 == k);
                        } else {
                            assert(s[j + 1].0 == k);
                        }
                    }
                    if k == kv {
                        assert(s[i as int].0 == kv);
                    }
                    if has_key(s, k) {
                        let j = choose|j: int| 0 <= j < s.len() && s[j].0 == k;
                        if j < i {
                            assert(old_pairs[j].0 == k);
                        } else if j > i {
                            assert(old_pairs[j - 1].0 == k);
                        }
                    }
                }
                assert forall|k: Seq<char>| #[trigger] pairs_map(s).dom().contains(k) implies pairs_map(s)[k] == old(self).map().insert(kv, value)[k] by {
                    let j = choose|j: int| 0 <= j < s.len() && s[j].0 == k;
                    lemma_pairs_map_at(s, j);
                    if j < i {
                        assert(old_pairs[j].0 == k);
                        lemma_pairs_map_at(old_pairs, j);
                    } else if j > i {
                        assert(old_pairs[j - 1].0 == k);
                        lemma_pairs_map_at(old_pairs, j - 1);
                    }
                }
                assert(self.map() =~= old(self).map().insert(kv, value));
            }
            None
        }
    }

    /// Remove `key`; returns the value it held.
    pub fn remove(&mut self, key: &str) -> (old_value: Option<V>)
        ensures
            final(self).map() == old(self).map().remove(key@),
            old_value.is_some() == old(self).map().dom().contains(key@),
            old_value.is_some() ==> old_value.unwrap() == old(self).map()[key@],
    {
        proof {
            use_type_invariant(&*self);
        }
        let ghost old_pairs = self.pairs();
        let (i, found) = self.search(key);
        if found {
            let mut entries: Vec<(String, V)> = Vec::new();
            std::mem::swap(&mut entries, &mut self.entries);
            assert(entries@.map_values(|e: (String, V)| (e.0@, e.1)) == old_pairs);
            let old_entry = entries.remove(i);
            let ghost s = entries@.map_values(|e: (String, V)| (e.0@, e.1));
            proof {
                assert(s =~= old_pairs.remove(i as int));
                assert forall|a: int, b: int| 0 <= a < b < s.len() implies str_lt(s[a].0, s[b].0) by {
                    if b < i {
                        assert(str_lt(old_pairs[a].0, old_pairs[b].0));
                    } else if a < i {
                        assert(str_lt(old_pairs[a].0, old_pairs[b + 1].0));
                    } else {
                        assert(str_lt(old_pairs[a + 1].0, old_pairs[b + 1].0));
                    }
                }
            }
            self.entries = entries;
            proof {
                assert(self.pairs() == s);
                lemma_pairs_map_at(old_pairs, i as int);
                lemma_pairs_map_all(s);
                lemma_pairs_map_all(old_pairs);
                assert forall|k: Seq<char>| #[trigger] pairs_map(s).dom().contains(k) <==> old(self).map().remove(key@).dom().contains(k) by {
                    if has_key(old_pairs, k) && k != key@ {
                        let j = choose|j: int| 0 <= j < old_pairs.len() && old_pairs[j].0 == k;
                        if j < i {
                            assert(s[j].0 == k);
                        } else {
                            assert(j != i);
                            assert(s[j - 1].0 == k);
                        }
                    }
                    if has_key(s, k) {
                        let j = choose|j: int| 0 <= j < s.len() && s[j].0 == k;
                        if k == key@ {
                            if j < i {
                                lemma_unique_keys(old_pairs, j, i as int);
                            } else {
                                lemma_unique_keys(old_pairs, j + 1, i as int);
                            }
                        }
                        if j < i {
                            assert(old_pairs[j].0 == k);
                        } else {
                            assert(old_pairs[j + 1].0 == k);
                        }
                    }
                }
                assert forall|k: Seq<char>| #[trigger] pairs_map(s).dom().contains(k) implies pairs_map(s)[k] == old(self).map().remove(key@)[k] by {
                    let j = choose|j: int| 0 <= j < s.len() && s[j].0 == k;
                    lemma_pairs_map_at(s, j);
                    if j < i {
                        lemma_pairs_map_at(old_pairs, j);
                    } else {
                        lemma_pairs_map_at(old_pairs, j + 1);
                    }
                }
                assert(self.map() =~= old(self).map().remove(key@));
            }
            Some(old_entry.1)
        } else {
            proof {
                if has_key(old_pairs, key@) {
                    let j = choose|j: int| 0 <= j < old_pairs.len() && old_pairs[j].0 == key@;
                    if j < i {
                        assert(str_lt(old_pairs[j].0, key@));
                    } else {
                        assert(str_lt(key@, old_pairs[j].0));
                    }
                }
                assert(self.map() =~= old(self).map().remove(key@));
            }
            None
        }
    }
}

} // verus!
