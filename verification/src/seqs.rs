//! Small facts about sequence filtering used across the crate.

use vstd::prelude::*;

verus! {

/// Filtering one more element of a prefix.
pub proof fn lemma_filter_step<A>(s: Seq<A>, p: spec_fn(A) -> bool, i: int)
    requires
        0 <= i < s.len(),
    ensures
        s.subrange(0, i + 1).filter(p) == (if p(s[i]) {
            s.subrange(0, i).filter(p).push(s[i])
        } else {
            s.subrange(0, i).filter(p)
        }),
{
    reveal(Seq::filter);
    assert(s.subrange(0, i + 1).drop_last() =~= s.subrange(0, i));
}

/// The whole sequence is its own full-length prefix.
pub proof fn lemma_full_prefix<A>(s: Seq<A>)
    ensures
        s.subrange(0, s.len() as int) == s,
{
    assert(s.subrange(0, s.len() as int) =~= s);
}

/// Filtering the empty prefix.
pub proof fn lemma_filter_empty_prefix<A>(s: Seq<A>, p: spec_fn(A) -> bool)
    ensures
        s.subrange(0, 0).filter(p) == Seq::<A>::empty(),
{
    reveal(Seq::filter);
    assert(s.subrange(0, 0) =~= Seq::<A>::empty());
}

/// Filtering a prefix of `s` keeps element `i` and nothing else once past it.
proof fn lemma_filter_single_prefix<A>(s: Seq<A>, p: spec_fn(A) -> bool, i: int, n: int)
    requires
        0 <= i < s.len(),
        0 <= n <= s.len(),
        p(s[i]),
        forall|j: int| 0 <= j < s.len() && j != i ==> !p(#[trigger] s[j]),
    ensures
        s.subrange(0, n).filter(p) == (if n <= i {
            Seq::<A>::empty()
        } else {
            seq![s[i]]
        }),
    decreases n,
{
    if n == 0 {
        lemma_filter_empty_prefix(s, p);
    } else {
        lemma_filter_single_prefix(s, p, i, n - 1);
        lemma_filter_step(s, p, n - 1);
        if n - 1 == i {
            assert(Seq::<A>::empty().push(s[i]) =~= seq![s[i]]);
        }
    }
}

/// When only element `i` passes `p`, filtering keeps just that element.
pub proof fn lemma_filter_single<A>(s: Seq<A>, p: spec_fn(A) -> bool, i: int)
    requires
        0 <= i < s.len(),
        p(s[i]),
        forall|j: int| 0 <= j < s.len() && j != i ==> !p(#[trigger] s[j]),
    ensures
        s.filter(p) == seq![s[i]],
{
    lemma_filter_single_prefix(s, p, i, s.len() as int);
    lemma_full_prefix(s);
}

} // verus!
