//! Sorting by a total preorder on a key. Ties keep no particular order; every
//! caller in this crate sorts on keys that are unique among the items sorted.

use vstd::prelude::*;

verus! {

broadcast use vstd::seq_lib::group_to_multiset_ensures;

/// A total preorder used as a sort key.
pub trait SortKey: Sized {
    /// `self` sorts no later than `other`.
    spec fn key_le_spec(&self, other: &Self) -> bool;

    proof fn lemma_key_le_total(a: &Self, b: &Self)
        ensures
            a.key_le_spec(b) || b.key_le_spec(a),
    ;

    proof fn lemma_key_le_trans(a: &Self, b: &Self, c: &Self)
        requires
            a.key_le_spec(b),
            b.key_le_spec(c),
        ensures
            a.key_le_spec(c),
    ;

    fn key_le(&self, other: &Self) -> (r: bool)
        ensures
            r == self.key_le_spec(other),
    ;
}

/// `s` is in non-decreasing key order.
pub open spec fn sorted_by_key<T: SortKey>(s: Seq<T>) -> bool {
    forall|i: int, j: int| 0 <= i < j < s.len() ==> #[trigger] s[i].key_le_spec(&s[j])
}

/// Where `x` goes in `r`: after the leading run of elements that sort no
/// later than it.
pub open spec fn insertion_point<T: SortKey>(r: Seq<T>, x: T) -> int
    decreases r.len(),
{
    if r.len() == 0 {
        0
    } else if r[0].key_le_spec(&x) {
        1 + insertion_point(r.drop_first(), x)
    } else {
        0
    }
}

/// The stable sort of `s` by key: each element, in input order, goes after
/// every earlier element that sorts no later than it.
pub open spec fn stable_sorted<T: SortKey>(s: Seq<T>) -> Seq<T>
    decreases s.len(),
{
    if s.len() == 0 {
        s
    } else {
        let r = stable_sorted(s.drop_last());
        r.insert(insertion_point(r, s.last()), s.last())
    }
}

proof fn lemma_insertion_point_skip<T: SortKey>(r: Seq<T>, x: T, p: int)
    requires
        0 <= p <= r.len(),
        forall|j: int| 0 <= j < p ==> #[trigger] r[j].key_le_spec(&x),
    ensures
        insertion_point(r, x) == p + insertion_point(r.skip(p), x),
    decreases p,
{
    if p > 0 {
        lemma_insertion_point_skip(r.drop_first(), x, p - 1);
        assert(r.drop_first().skip(p - 1) =~= r.skip(p));
    } else {
        assert(r.skip(0) =~= r);
    }
}

/// What the insertion point is: the length of the leading run of elements
/// that sort no later than `x`.
proof fn lemma_insertion_point_bounds<T: SortKey>(r: Seq<T>, x: T)
    ensures
        0 <= insertion_point(r, x) <= r.len(),
        forall|j: int| 0 <= j < insertion_point(r, x) ==> #[trigger] r[j].key_le_spec(&x),
        insertion_point(r, x) < r.len() ==> !r[insertion_point(r, x)].key_le_spec(&x),
    decreases r.len(),
{
    if r.len() > 0 && r[0].key_le_spec(&x) {
        lemma_insertion_point_bounds(r.drop_first(), x);
        let p = insertion_point(r, x);
        assert forall|j: int| 0 <= j < p implies #[trigger] r[j].key_le_spec(&x) by {
            if j > 0 {
                assert(r[j] == r.drop_first()[j - 1]);
            }
        }
    }
}

/// Inserting `x` at its insertion point keeps a sorted sequence sorted.
proof fn lemma_insert_sorted<T: SortKey>(r: Seq<T>, x: T)
    requires
        sorted_by_key(r),
    ensures
        sorted_by_key(r.insert(insertion_point(r, x), x)),
{
    lemma_insertion_point_bounds(r, x);
    let p = insertion_point(r, x);
    let out = r.insert(p, x);
    assert forall|a: int, b: int| 0 <= a < b < out.len() implies #[trigger] out[a].key_le_spec(&out[b]) by {
        if b < p {
            assert(r[a].key_le_spec(&r[b]));
        } else if b == p {
            assert(r[a].key_le_spec(&x));
        } else {
            // x sorts before r[p], which does not sort before x.
            T::lemma_key_le_total(&r[p], &x);
            if a < p {
                assert(r[a].key_le_spec(&x));
                if b - 1 > p {
                    assert(r[p].key_le_spec(&r[b - 1]));
                    T::lemma_key_le_trans(&x, &r[p], &r[b - 1]);
                }
                T::lemma_key_le_trans(&r[a], &x, &r[b - 1]);
            } else if a == p {
                if b - 1 > p {
                    assert(r[p].key_le_spec(&r[b - 1]));
                    T::lemma_key_le_trans(&x, &r[p], &r[b - 1]);
                }
            } else {
                assert(r[a - 1].key_le_spec(&r[b - 1]));
            }
        }
    }
}

/// The stable sort is sorted and holds the same elements as its input.
pub proof fn lemma_stable_sorted<T: SortKey>(s: Seq<T>)
    ensures
        sorted_by_key(stable_sorted(s)),
        stable_sorted(s).to_multiset() == s.to_multiset(),
    decreases s.len(),
{
    if s.len() > 0 {
        let r = stable_sorted(s.drop_last());
        lemma_stable_sorted(s.drop_last());
        lemma_insert_sorted(r, s.last());
        lemma_insertion_point_bounds(r, s.last());
        assert(r.insert(insertion_point(r, s.last()), s.last()).to_multiset() =~= r.to_multiset().insert(s.last()));
        assert(s =~= s.drop_last().push(s.last()));
    }
}

/// Two sorted sequences with the same elements are equal, when elements that
/// sort as equals are equal.
pub proof fn lemma_sorted_same_elements<T: SortKey>(s: Seq<T>, t: Seq<T>)
    requires
        sorted_by_key(s),
        sorted_by_key(t),
        s.to_multiset() == t.to_multiset(),
        forall|x: T, y: T|
            s.contains(x) && s.contains(y) && x.key_le_spec(&y) && y.key_le_spec(&x) ==> x == y,
    ensures
        s == t,
    decreases s.len(),
{
    broadcast use vstd::multiset::group_multiset_axioms;

    assert(s.to_multiset().len() == s.len());
    assert(t.to_multiset().len() == t.len());
    if s.len() == 0 {
        assert(t.len() == 0);
        assert(s =~= t);
    } else {
        assert(t.len() == s.len());
        assert(s.to_multiset().count(t[0]) > 0);
        assert(t.to_multiset().count(s[0]) > 0);
        let i = choose|i: int| 0 <= i < s.len() && s[i] == t[0];
        let j = choose|j: int| 0 <= j < t.len() && t[j] == s[0];
        T::lemma_key_le_total(&s[0], &s[0]);
        T::lemma_key_le_total(&t[0], &t[0]);
        if i > 0 {
            assert(s[0].key_le_spec(&s[i]));
        }
        if j > 0 {
            assert(t[0].key_le_spec(&t[j]));
        }
        assert(s.contains(s[0]));
        assert(s.contains(s[i]));
        assert(s[0] == t[0]);
        let s1 = s.drop_first();
        let t1 = t.drop_first();
        assert(s1.to_multiset() =~= s.to_multiset().remove(s[0])) by {
            assert(s1 =~= s.remove(0));
        }
        assert(t1.to_multiset() =~= t.to_multiset().remove(t[0])) by {
            assert(t1 =~= t.remove(0));
        }
        assert forall|x: T, y: T|
            s1.contains(x) && s1.contains(y) && x.key_le_spec(&y) && y.key_le_spec(&x) implies x == y by {
            let a = choose|a: int| 0 <= a < s1.len() && s1[a] == x;
            let b = choose|b: int| 0 <= b < s1.len() && s1[b] == y;
            assert(s[a + 1] == x);
            assert(s[b + 1] == y);
            assert(s.contains(x));
            assert(s.contains(y));
        }
        assert forall|a: int, b: int| 0 <= a < b < s1.len() implies #[trigger] s1[a].key_le_spec(&s1[b]) by {
            assert(s[a + 1].key_le_spec(&s[b + 1]));
        }
        assert forall|a: int, b: int| 0 <= a < b < t1.len() implies #[trigger] t1[a].key_le_spec(&t1[b]) by {
            assert(t[a + 1].key_le_spec(&t[b + 1]));
        }
        lemma_sorted_same_elements(s1, t1);
        assert(s =~= t) by {
            assert forall|k: int| 0 <= k < s.len() implies s[k] == t[k] by {
                if k > 0 {
                    assert(s[k] == s1[k - 1]);
                    assert(t[k] == t1[k - 1]);
                }
            }
        }
    }
}

/// Sort `v` by key, stably.
pub fn sort_by_key<T: SortKey>(v: Vec<T>) -> (r: Vec<T>)
    ensures
        r@ == stable_sorted(v@),
        sorted_by_key(r@),
        r@.to_multiset() == v@.to_multiset(),
{
    let ghost s = v@;
    let mut rest = v;
    let mut taken: Vec<T> = Vec::new();
    // Reverse so that popping yields the elements in input order.
    while rest.len() > 0
        invariant
            rest@ + taken@.reverse() == s,
        decreases rest@.len(),
    {
        let ghost br = rest@;
        let ghost bt = taken@;
        let x = rest.pop().unwrap();
        taken.push(x);
        proof {
            assert(br =~= rest@.push(x));
            assert(taken@.reverse() =~= seq![x] + bt.reverse());
            assert(rest@ + taken@.reverse() =~= br + bt.reverse());
        }
    }
    proof {
        assert(taken@.reverse() =~= s);
        assert forall|j: int| 0 <= j < taken@.len() implies #[trigger] taken@[j] == s[s.len() - 1 - j] by {
            assert(taken@.reverse()[s.len() - 1 - j] == taken@[j]);
        }
    }
    let mut out: Vec<T> = Vec::new();
    let ghost mut i: int = 0;
    while taken.len() > 0
        invariant
            0 <= i <= s.len(),
            taken@.len() == s.len() - i,
            forall|j: int| 0 <= j < taken@.len() ==> #[trigger] taken@[j] == s[s.len() - 1 - j],
            out@ == stable_sorted(s.subrange(0, i)),
            sorted_by_key(out@),
            out@.to_multiset() == s.subrange(0, i).to_multiset(),
        decreases taken@.len(),
    {
        let ghost bt = taken@;
        let x = taken.pop().unwrap();
        proof {
            assert(x == s[i]);
            assert forall|j: int| 0 <= j < taken@.len() implies #[trigger] taken@[j] == s[s.len() - 1 - j] by {
                assert(taken@[j] == bt[j]);
            }
        }
        let mut p: usize = 0;
        while p < out.len() && out[p].key_le(&x)
            invariant
                p <= out@.len(),
                forall|j: int| 0 <= j < p ==> #[trigger] out@[j].key_le_spec(&x),
            decreases out@.len() - p,
        {
            p = p + 1;
        }
        let ghost before_out = out@;
        proof {
            lemma_insertion_point_skip(before_out, x, p as int);
            if p < before_out.len() {
                assert(!before_out.skip(p as int)[0].key_le_spec(&x));
            }
            assert(s.subrange(0, i + 1).drop_last() =~= s.subrange(0, i));
            assert(s.subrange(0, i + 1).last() == x);
        }
        out.insert(p, x);
        proof {
            assert(out@ =~= before_out.insert(p as int, x));
            lemma_insert_sorted(before_out, x);
            assert(out@.to_multiset() =~= before_out.to_multiset().insert(x));
            assert(s.subrange(0, i + 1) =~= s.subrange(0, i).push(x));
            i = i + 1;
        }
    }
    proof {
        assert(s.subrange(0, s.len() as int) =~= s);
    }
    out
}

} // verus!
