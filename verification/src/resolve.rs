//! Per-checkout status resolution.
//!
//! Effective status of a task on a checkout = fold of its status changes,
//! restricted to those whose anchor commit is an ancestor of HEAD
//! (unanchored changes apply everywhere), in (created, id) order. A change
//! whose anchor's ancestry is unknown is skipped — treated open — and
//! downgrades the resolution to `Partial`. No qualifying changes ⇒ open.

use vstd::prelude::*;

use crate::entities::{CommitFact, StatusChange, StatusKind};
use crate::strmap::{has_key, lemma_pairs_map_all, lemma_pairs_map_at, pairs_map, strictly_sorted, StrMap};
use crate::text::{copy_string, str_eq, views};

verus! {

/// Is an anchor commit an ancestor of (or equal to) the checkout's head?
#[derive(Clone, Copy, Debug, PartialEq, Eq, Structural)]
pub enum Ancestry {
    Yes,
    No,
    Unknown,
    /// The exact anchor isn't present, but a patch-id-equivalent commit is.
    Rewritten,
}

/// Answers "is `sha` an ancestor of (or equal to) this checkout's head?".
/// `&mut` so implementations can memoize; memoizing never changes an answer.
pub trait AncestorSet {
    /// The answer this set gives for `sha`.
    spec fn answer(&self, sha: Seq<char>) -> Ancestry;

    /// Every sha this set has been asked about, in the order asked.
    spec fn asked(&self) -> Seq<Seq<char>>;

    /// Answer for `sha`; each call is one query, logged in `asked`.
    fn contains(&mut self, sha: &str) -> (a: Ancestry)
        ensures
            a == old(self).answer(sha@),
            forall|s: Seq<char>| #[trigger] final(self).answer(s) == old(self).answer(s),
            final(self).asked() == old(self).asked().push(sha@),
    ;
}

/// Whether a task is open or closed on a checkout.
#[derive(Clone, Copy, Debug, PartialEq, Eq, Structural)]
pub enum Status {
    Open,
    Closed,
}

impl Status {
    /// "open" or "closed".
    pub fn label(self) -> (r: &'static str)
        ensures
            r@ == status_label(self),
    {
        match self {
            Status::Open => "open",
            Status::Closed => "closed",
        }
    }
}

/// The label of a status.
pub open spec fn status_label(s: Status) -> Seq<char> {
    match s {
        Status::Open => "open"@,
        Status::Closed => "closed"@,
    }
}

/// How much a resolved status can be trusted.
#[derive(Clone, Copy, Debug, PartialEq, Eq, Structural)]
pub enum Resolution {
    /// Ancestry answered by the real repository.
    Exact,
    /// Ancestry answered by walking the CommitFact graph.
    Facts,
    /// At least one relevant anchor could not be resolved.
    Partial,
    /// Resolved via a patch-id match, not the exact anchor.
    Squashed,
}

/// The label of a resolution.
pub open spec fn resolution_label(r: Resolution) -> Seq<char> {
    match r {
        Resolution::Exact => "exact"@,
        Resolution::Facts => "facts"@,
        Resolution::Partial => "partial"@,
        Resolution::Squashed => "squashed"@,
    }
}

/// Strength of a resolution: Partial < Squashed < Facts = Exact.
pub open spec fn grade(r: Resolution) -> nat {
    match r {
        Resolution::Partial => 0,
        Resolution::Squashed => 1,
        Resolution::Facts | Resolution::Exact => 2,
    }
}

/// The weaker of two grades, keeping `a` when they are equally strong.
pub open spec fn weaker(a: Resolution, b: Resolution) -> Resolution {
    if grade(b) < grade(a) {
        b
    } else {
        a
    }
}

impl Resolution {
    /// "exact", "facts", "partial" or "squashed".
    pub fn label(self) -> (r: &'static str)
        ensures
            r@ == resolution_label(self),
    {
        match self {
            Resolution::Exact => "exact",
            Resolution::Facts => "facts",
            Resolution::Partial => "partial",
            Resolution::Squashed => "squashed",
        }
    }

    /// Keep the weaker of two grades. Order: Partial < Squashed < Facts/Exact.
    pub fn weaken(self, other: Resolution) -> (r: Resolution)
        ensures
            r == weaker(self, other),
    {
        let mine: u8 = match self {
            Resolution::Partial => 0,
            Resolution::Squashed => 1,
            Resolution::Facts | Resolution::Exact => 2,
        };
        let theirs: u8 = match other {
            Resolution::Partial => 0,
            Resolution::Squashed => 1,
            Resolution::Facts | Resolution::Exact => 2,
        };
        if theirs < mine {
            other
        } else {
            self
        }
    }
}

/// Weakening never upgrades: the result is one of the two grades, and no
/// stronger than either.
pub proof fn law_weaken_is_min(a: Resolution, b: Resolution)
    ensures
        weaker(a, b) == a || weaker(a, b) == b,
        grade(weaker(a, b)) <= grade(a),
        grade(weaker(a, b)) <= grade(b),
        grade(weaker(a, b)) == grade(a) || grade(weaker(a, b)) == grade(b),
        weaker(a, a) == a,
        grade(weaker(a, b)) == grade(weaker(b, a)),
{
}

/// Weakening is associative up to grade: folding grades in any grouping ends
/// at the weakest one.
pub proof fn law_weaken_assoc(a: Resolution, b: Resolution, c: Resolution)
    ensures
        weaker(weaker(a, b), c) == weaker(a, weaker(b, c)),
{
}

/// A task's status together with how it was established.
#[derive(Clone, Copy, Debug, PartialEq, Eq, Structural)]
pub struct ResolvedStatus {
    pub status: Status,
    pub resolution: Resolution,
}

/// The status a change moves a task to.
pub open spec fn target_status(k: StatusKind) -> Status {
    match k {
        StatusKind::Closed => Status::Closed,
        StatusKind::Reopened => Status::Open,
    }
}

/// One step of the fold: apply change `c` to `prev`, given the ancestry
/// answer for `c`'s anchor.
pub open spec fn fold_step(prev: ResolvedStatus, c: StatusChange, answer: spec_fn(Seq<char>) -> Ancestry) -> ResolvedStatus {
    match c.anchor_commit {
        None => ResolvedStatus { status: target_status(c.to_status), resolution: prev.resolution },
        Some(sha) => match answer(sha@) {
            Ancestry::Yes => ResolvedStatus { status: target_status(c.to_status), resolution: prev.resolution },
            Ancestry::Rewritten => ResolvedStatus {
                status: target_status(c.to_status),
                resolution: weaker(prev.resolution, Resolution::Squashed),
            },
            Ancestry::No => prev,
            Ancestry::Unknown => ResolvedStatus {
                status: prev.status,
                resolution: weaker(prev.resolution, Resolution::Partial),
            },
        },
    }
}

/// The effective status after folding `changes` in order, starting open at
/// grade `base`.
pub open spec fn fold_status(changes: Seq<StatusChange>, answer: spec_fn(Seq<char>) -> Ancestry, base: Resolution) -> ResolvedStatus
    decreases changes.len(),
{
    if changes.len() == 0 {
        ResolvedStatus { status: Status::Open, resolution: base }
    } else {
        fold_step(fold_status(changes.drop_last(), answer, base), changes.last(), answer)
    }
}

/// A change anchored on a commit outside this checkout's ancestry leaves
/// the status as it was.
pub proof fn law_foreign_anchor_ignored(
    cs: Seq<StatusChange>,
    c: StatusChange,
    answer: spec_fn(Seq<char>) -> Ancestry,
    base: Resolution,
)
    requires
        c.anchor_commit is Some,
        answer(c.anchor_commit.unwrap()@) == Ancestry::No,
    ensures
        fold_status(cs.push(c), answer, base) == fold_status(cs, answer, base),
{
    assert(cs.push(c).drop_last() =~= cs);
}

/// A change anchored on a commit in this checkout's ancestry applies: a
/// task closed at commit X is closed wherever X is an ancestor of HEAD.
pub proof fn law_anchor_in_ancestry_applies(
    cs: Seq<StatusChange>,
    c: StatusChange,
    answer: spec_fn(Seq<char>) -> Ancestry,
    base: Resolution,
)
    requires
        c.anchor_commit is Some,
        answer(c.anchor_commit.unwrap()@) == Ancestry::Yes,
    ensures
        fold_status(cs.push(c), answer, base).status == target_status(c.to_status),
        fold_status(cs.push(c), answer, base).resolution == fold_status(cs, answer, base).resolution,
{
    assert(cs.push(c).drop_last() =~= cs);
}

/// An unanchored change applies on every checkout: it sets the status
/// whatever the ancestry.
pub proof fn law_unanchored_applies_everywhere(
    cs: Seq<StatusChange>,
    c: StatusChange,
    answer: spec_fn(Seq<char>) -> Ancestry,
    base: Resolution,
)
    requires
        c.anchor_commit is None,
    ensures
        fold_status(cs.push(c), answer, base).status == target_status(c.to_status),
{
    assert(cs.push(c).drop_last() =~= cs);
}

/// A change anchored where ancestry is unknown is skipped, and the result
/// is marked partial rather than guessed.
pub proof fn law_unknown_anchor_marks_partial(
    cs: Seq<StatusChange>,
    c: StatusChange,
    answer: spec_fn(Seq<char>) -> Ancestry,
    base: Resolution,
)
    requires
        c.anchor_commit is Some,
        answer(c.anchor_commit.unwrap()@) == Ancestry::Unknown,
    ensures
        fold_status(cs.push(c), answer, base).status == fold_status(cs, answer, base).status,
        fold_status(cs.push(c), answer, base).resolution == Resolution::Partial,
{
    assert(cs.push(c).drop_last() =~= cs);
}

/// The answers of an ancestor set, as a function.
pub open spec fn answers_of<A: AncestorSet>(anc: &A) -> spec_fn(Seq<char>) -> Ancestry {
    |s: Seq<char>| anc.answer(s)
}

/// The anchors of the anchored changes in `cs`, in order: the queries a fold
/// over `cs` makes of its ancestor set.
pub open spec fn anchors_of(cs: Seq<StatusChange>) -> Seq<Seq<char>>
    decreases cs.len(),
{
    if cs.len() == 0 {
        Seq::empty()
    } else {
        anchors_of(cs.drop_last()) + match cs.last().anchor_commit {
            Some(sha) => seq![sha@],
            None => Seq::<Seq<char>>::empty(),
        }
    }
}

/// Fold `changes` (already in (created, id) order) against an ancestor set.
/// `base` is `Exact` or `Facts` depending on where `anc` gets its answers.
/// The set is asked once per anchored change, in order, and never about an
/// unanchored one.
pub fn effective_status<A: AncestorSet>(changes: &[&StatusChange], anc: &mut A, base: Resolution) -> (r: ResolvedStatus)
    ensures
        r == fold_status(changes@.map_values(|c: &StatusChange| *c), answers_of(&*old(anc)), base),
        forall|s: Seq<char>| #[trigger] final(anc).answer(s) == old(anc).answer(s),
        final(anc).asked() == old(anc).asked() + anchors_of(changes@.map_values(|c: &StatusChange| *c)),
{
    let ghost cs = changes@.map_values(|c: &StatusChange| *c);
    let ghost ans = answers_of(&*old(anc));
    let mut status = Status::Open;
    let mut resolution = base;
    let mut i: usize = 0;
    while i < changes.len()
        invariant
            i <= cs.len(),
            cs.len() == changes@.len(),
            cs == changes@.map_values(|c: &StatusChange| *c),
            ans == answers_of(&*old(anc)),
            forall|s: Seq<char>| #[trigger] anc.answer(s) == old(anc).answer(s),
            anc.asked() == old(anc).asked() + anchors_of(cs.subrange(0, i as int)),
            (ResolvedStatus { status, resolution }) == fold_status(cs.subrange(0, i as int), ans, base),
        decreases cs.len() - i,
    {
        let change = changes[i];
        let ghost asked_before = anc.asked();
        proof {
            assert(cs.subrange(0, i + 1).drop_last() =~= cs.subrange(0, i as int));
            assert(cs.subrange(0, i + 1).last() == *change);
        }
        let applies = match &change.anchor_commit {
            None => true,
            Some(sha) => match anc.contains(sha.as_str()) {
                Ancestry::Yes => true,
                Ancestry::Rewritten => {
                    resolution = resolution.weaken(Resolution::Squashed);
                    true
                },
                Ancestry::No => false,
                Ancestry::Unknown => {
                    resolution = resolution.weaken(Resolution::Partial);
                    false
                },
            },
        };
        if applies {
            status = match change.to_status {
                StatusKind::Closed => Status::Closed,
                StatusKind::Reopened => Status::Open,
            };
        }
        proof {
            if change.anchor_commit is Some {
                assert(anc.asked() =~= old(anc).asked() + anchors_of(cs.subrange(0, i + 1)));
            } else {
                assert(anchors_of(cs.subrange(0, i + 1)) =~= anchors_of(cs.subrange(0, i as int)));
            }
        }
        i = i + 1;
    }
    proof {
        assert(cs.subrange(0, cs.len() as int) =~= cs);
    }
    ResolvedStatus { status, resolution }
}

/// Ancestry given by a membership list: `Yes` iff listed, else `No`.
pub struct MapAncestors {
    pub shas: Vec<String>,
    /// The shas asked so far, in order.
    pub log: Ghost<Seq<Seq<char>>>,
}

impl MapAncestors {
    /// Membership over `shas`, not yet asked anything.
    pub fn new(shas: Vec<String>) -> (m: Self)
        ensures
            m.shas@ == shas@,
            m.asked() == Seq::<Seq<char>>::empty(),
    {
        MapAncestors { shas, log: Ghost(Seq::empty()) }
    }

    /// Membership over the given shas.
    pub fn of<const N: usize>(shas: [&str; N]) -> (m: Self)
        ensures
            m.asked() == Seq::<Seq<char>>::empty(),
            forall|s: Seq<char>| #[trigger] m.answer(s) == (if (exists|i: int| 0 <= i < N && shas@[i]@ == s) {
                Ancestry::Yes
            } else {
                Ancestry::No
            }),
    {
        let mut v: Vec<String> = Vec::new();
        let mut i: usize = 0;
        while i < N
            invariant
                i <= N,
                shas@.len() == N,
                v@.len() == i,
                forall|j: int| 0 <= j < i ==> #[trigger] v@[j]@ == shas@[j]@,
            decreases N - i,
        {
            v.push(shas[i].to_owned());
            i = i + 1;
        }
        let m = MapAncestors::new(v);
        assert forall|s: Seq<char>| #[trigger] m.answer(s) == (if (exists|i: int| 0 <= i < N && shas@[i]@ == s) {
            Ancestry::Yes
        } else {
            Ancestry::No
        }) by {
            if exists|i: int| 0 <= i < N && shas@[i]@ == s {
                let i = choose|i: int| 0 <= i < N && shas@[i]@ == s;
                assert(m.shas@[i]@ == s);
            }
        }
        m
    }
}

/// `s` is one of the strings in `v`.
pub open spec fn listed(v: Seq<String>, s: Seq<char>) -> bool {
    exists|i: int| 0 <= i < v.len() && v[i]@ == s
}

/// Whether `s` is one of the strings in `v`.
pub fn is_listed(v: &Vec<String>, s: &str) -> (b: bool)
    ensures
        b == listed(v@, s@),
{
    let mut i: usize = 0;
    while i < v.len()
        invariant
            i <= v@.len(),
            forall|j: int| 0 <= j < i ==> v@[j]@ != s@,
        decreases v@.len() - i,
    {
        if str_eq(v[i].as_str(), s) {
            return true;
        }
        i = i + 1;
    }
    false
}

impl AncestorSet for MapAncestors {
    open spec fn answer(&self, sha: Seq<char>) -> Ancestry {
        if listed(self.shas@, sha) {
            Ancestry::Yes
        } else {
            Ancestry::No
        }
    }

    closed spec fn asked(&self) -> Seq<Seq<char>> {
        self.log@
    }

    fn contains(&mut self, sha: &str) -> (a: Ancestry) {
        self.log = Ghost(self.log@.push(sha@));
        if is_listed(&self.shas, sha) {
            Ancestry::Yes
        } else {
            Ancestry::No
        }
    }
}

/// Ancestry given by its answers, computed beforehand: `Yes` for the shas
/// in `yes`, `Unknown` for those in `unknown`, `No` for every other.
pub struct PartialMapAncestors {
    pub yes: Vec<String>,
    pub unknown: Vec<String>,
    /// The shas asked so far, in order.
    pub log: Ghost<Seq<Seq<char>>>,
}

impl PartialMapAncestors {
    /// The answers `yes` and `unknown`, not yet asked anything.
    pub fn new(yes: Vec<String>, unknown: Vec<String>) -> (m: Self)
        ensures
            m.yes@ == yes@,
            m.unknown@ == unknown@,
            m.asked() == Seq::<Seq<char>>::empty(),
    {
        PartialMapAncestors { yes, unknown, log: Ghost(Seq::empty()) }
    }
}

impl AncestorSet for PartialMapAncestors {
    open spec fn answer(&self, sha: Seq<char>) -> Ancestry {
        if listed(self.yes@, sha) {
            Ancestry::Yes
        } else if listed(self.unknown@, sha) {
            Ancestry::Unknown
        } else {
            Ancestry::No
        }
    }

    closed spec fn asked(&self) -> Seq<Seq<char>> {
        self.log@
    }

    fn contains(&mut self, sha: &str) -> (a: Ancestry) {
        self.log = Ghost(self.log@.push(sha@));
        if is_listed(&self.yes, sha) {
            Ancestry::Yes
        } else if is_listed(&self.unknown, sha) {
            Ancestry::Unknown
        } else {
            Ancestry::No
        }
    }
}

/// An ancestor set that knows nothing: every anchored sha is `Unknown`.
pub struct NoAncestry {
    /// The shas asked so far, in order.
    pub log: Ghost<Seq<Seq<char>>>,
}

impl NoAncestry {
    /// The set that knows nothing, not yet asked anything.
    pub fn new() -> (n: Self)
        ensures
            n.asked() == Seq::<Seq<char>>::empty(),
    {
        NoAncestry { log: Ghost(Seq::empty()) }
    }
}

impl AncestorSet for NoAncestry {
    open spec fn answer(&self, sha: Seq<char>) -> Ancestry {
        Ancestry::Unknown
    }

    closed spec fn asked(&self) -> Seq<Seq<char>> {
        self.log@
    }

    fn contains(&mut self, sha: &str) -> (a: Ancestry) {
        self.log = Ghost(self.log@.push(sha@));
        Ancestry::Unknown
    }
}

/// An ancestor set that gives one fixed answer for every sha.
pub struct ConstAncestry {
    pub answer: Ancestry,
    /// The shas asked so far, in order.
    pub log: Ghost<Seq<Seq<char>>>,
}

impl ConstAncestry {
    /// The set answering `answer` for every sha, not yet asked anything.
    pub fn new(answer: Ancestry) -> (c: Self)
        ensures
            c.answer == answer,
            c.asked() == Seq::<Seq<char>>::empty(),
    {
        ConstAncestry { answer, log: Ghost(Seq::empty()) }
    }
}

impl AncestorSet for ConstAncestry {
    open spec fn answer(&self, sha: Seq<char>) -> Ancestry {
        self.answer
    }

    closed spec fn asked(&self) -> Seq<Seq<char>> {
        self.log@
    }

    fn contains(&mut self, sha: &str) -> (a: Ancestry) {
        self.log = Ghost(self.log@.push(sha@));
        self.answer
    }
}

/// `s` with every repeat dropped: each sha at its first occurrence, in order.
pub open spec fn first_occurrences(s: Seq<Seq<char>>) -> Seq<Seq<char>>
    decreases s.len(),
{
    if s.len() == 0 {
        Seq::empty()
    } else if s.drop_last().contains(s.last()) {
        first_occurrences(s.drop_last())
    } else {
        first_occurrences(s.drop_last()).push(s.last())
    }
}

/// Each sha of `s` occurs in `first_occurrences(s)`, and only once.
pub proof fn lemma_first_occurrences(s: Seq<Seq<char>>)
    ensures
        first_occurrences(s).no_duplicates(),
        forall|x: Seq<char>| #[trigger] first_occurrences(s).contains(x) <==> s.contains(x),
    decreases s.len(),
{
    if s.len() > 0 {
        let t = s.drop_last();
        lemma_first_occurrences(t);
        assert forall|x: Seq<char>| #[trigger] s.contains(x) <==> t.contains(x) || x == s.last() by {
            if s.contains(x) {
                let i = choose|i: int| 0 <= i < s.len() && s[i] == x;
                if i < s.len() - 1 {
                    assert(t[i] == x);
                }
            }
            if t.contains(x) {
                let i = choose|i: int| 0 <= i < t.len() && t[i] == x;
                assert(s[i] == x);
            }
            if x == s.last() {
                assert(s[s.len() - 1] == x);
            }
        }
        let d = first_occurrences(t);
        if !t.contains(s.last()) {
            assert forall|x: Seq<char>| #[trigger] d.push(s.last()).contains(x) <==> d.contains(x) || x == s.last() by {
                if d.push(s.last()).contains(x) {
                    let i = choose|i: int| 0 <= i < d.len() + 1 && d.push(s.last())[i] == x;
                    if i < d.len() {
                        assert(d[i] == x);
                    }
                }
                if d.contains(x) {
                    let i = choose|i: int| 0 <= i < d.len() && d[i] == x;
                    assert(d.push(s.last())[i] == x);
                }
                if x == s.last() {
                    assert(d.push(s.last())[d.len() as int] == x);
                }
            }
            assert forall|i: int, j: int| 0 <= i < j < d.len() + 1 implies d.push(s.last())[i] != d.push(s.last())[j] by {
                if j == d.len() {
                    assert(d.contains(d[i]));
                }
            }
        }
    }
}

/// Memoizing wrapper so repeated anchors don't repeat expensive lookups: the
/// inner set is asked about each sha at most once, on its first query.
pub struct CachedAncestors<A: AncestorSet> {
    inner: A,
    cache: StrMap<Ancestry>,
    log: Ghost<Seq<Seq<char>>>,
    /// What the inner set had been asked before it was wrapped.
    base: Ghost<Seq<Seq<char>>>,
}

impl<A: AncestorSet> CachedAncestors<A> {
    /// The wrapped set.
    pub closed spec fn inner(&self) -> A {
        self.inner
    }

    /// What the inner set had been asked before it was wrapped.
    pub closed spec fn inner_base(&self) -> Seq<Seq<char>> {
        self.base@
    }

    /// `sha` has an answer in the cache.
    pub closed spec fn cached(&self, sha: Seq<char>) -> bool {
        self.cache.map().dom().contains(sha)
    }

    /// The cache holds exactly the shas asked so far, and the inner set has
    /// been asked, beyond what it was asked before, each of them once, in
    /// the order of their first query.
    pub closed spec fn wf(&self) -> bool {
        &&& forall|s: Seq<char>| #[trigger] self.cache.map().dom().contains(s) <==> self.log@.contains(s)
        &&& self.inner.asked() == self.base@ + first_occurrences(self.log@)
    }

    /// Wrap `inner` with an empty cache.
    pub fn new(inner: A) -> (c: Self)
        ensures
            c.wf(),
            c.inner() == inner,
            c.inner_base() == inner.asked(),
            c.asked() == Seq::<Seq<char>>::empty(),
            forall|s: Seq<char>| !#[trigger] c.cached(s),
            forall|s: Seq<char>| #[trigger] c.answer(s) == inner.answer(s),
    {
        let ghost base = inner.asked();
        let c = CachedAncestors { inner, cache: StrMap::new(), log: Ghost(Seq::empty()), base: Ghost(base) };
        assert(first_occurrences(c.log@) =~= Seq::<Seq<char>>::empty());
        assert(c.inner.asked() =~= c.base@ + first_occurrences(c.log@));
        c
    }
}

/// Through a well-formed cache, the inner set has been asked about every sha
/// that was queried, each exactly once, in the order of first queries.
pub proof fn law_cache_asks_inner_once<A: AncestorSet>(c: CachedAncestors<A>)
    requires
        c.wf(),
    ensures
        c.inner().asked() == c.inner_base() + first_occurrences(c.asked()),
        first_occurrences(c.asked()).no_duplicates(),
        forall|x: Seq<char>| #[trigger] first_occurrences(c.asked()).contains(x) <==> c.asked().contains(x),
{
    lemma_first_occurrences(c.asked());
}

impl<A: AncestorSet> AncestorSet for CachedAncestors<A> {
    /// A cached answer where one was recorded, the inner set's otherwise.
    closed spec fn answer(&self, sha: Seq<char>) -> Ancestry {
        if self.cache.map().dom().contains(sha) {
            self.cache.map()[sha]
        } else {
            self.inner.answer(sha)
        }
    }

    closed spec fn asked(&self) -> Seq<Seq<char>> {
        self.log@
    }

    /// A cache hit leaves the inner set untouched; a miss asks it once and
    /// caches the answer.
    fn contains(&mut self, sha: &str) -> (a: Ancestry)
        ensures
            final(self).inner_base() == old(self).inner_base(),
            old(self).cached(sha@) ==> final(self).inner().asked() == old(self).inner().asked(),
            !old(self).cached(sha@) ==> final(self).inner().asked() == old(self).inner().asked().push(sha@),
            forall|s: Seq<char>| #[trigger] final(self).cached(s) == (old(self).cached(s) || s == sha@),
            old(self).wf() ==> final(self).wf(),
    {
        let ghost old_log = self.log@;
        self.log = Ghost(self.log@.push(sha@));
        proof {
            assert(self.log@.drop_last() =~= old_log);
            assert forall|s: Seq<char>| #[trigger] self.log@.contains(s) <==> old_log.contains(s) || s == sha@ by {
                if self.log@.contains(s) {
                    let i = choose|i: int| 0 <= i < self.log@.len() && self.log@[i] == s;
                    if i < old_log.len() {
                        assert(old_log[i] == s);
                    }
                }
                if old_log.contains(s) {
                    let i = choose|i: int| 0 <= i < old_log.len() && old_log[i] == s;
                    assert(self.log@[i] == s);
                }
                if s == sha@ {
                    assert(self.log@[old_log.len() as int] == s);
                }
            }
        }
        if let Some(a) = self.cache.get(sha) {
            return *a;
        }
        let a = self.inner.contains(sha);
        self.cache.insert(sha.to_owned(), a);
        a
    }
}

// ---------------------------------------------------------------------------
// Ancestry over the CommitFact graph.
// ---------------------------------------------------------------------------

/// What the ancestry walk reads of a commit fact: its parents and patch-id.
pub type FactInfo = (Seq<Seq<char>>, Option<Seq<char>>);

/// The parents and patch-id of a fact, as string views.
pub open spec fn fact_info(f: CommitFact) -> FactInfo {
    (views(f.parents@), match f.patch_id {
        Some(p) => Some(p@),
        None => None,
    })
}

/// The commit graph a map of facts records.
pub open spec fn fact_graph(m: Map<Seq<char>, CommitFact>) -> Map<Seq<char>, FactInfo> {
    m.map_values(|f: CommitFact| fact_info(f))
}

/// The parents a fact records for `x`.
pub open spec fn parents_of(facts: Map<Seq<char>, FactInfo>, x: Seq<char>) -> Seq<Seq<char>> {
    facts[x].0
}

/// `y` is a recorded parent of the known commit `x`.
pub open spec fn edge(facts: Map<Seq<char>, FactInfo>, x: Seq<char>, y: Seq<char>) -> bool {
    facts.dom().contains(x) && parents_of(facts, x).contains(y)
}

/// `p` is a walk along recorded parent edges.
pub open spec fn is_walk(facts: Map<Seq<char>, FactInfo>, p: Seq<Seq<char>>) -> bool {
    p.len() > 0 && forall|i: int| 0 <= i < p.len() - 1 ==> #[trigger] edge(facts, p[i], p[i + 1])
}

/// `x` is reachable from `head` along recorded parent edges (`head` itself included).
pub open spec fn reaches(facts: Map<Seq<char>, FactInfo>, head: Seq<char>, x: Seq<char>) -> bool {
    exists|p: Seq<Seq<char>>| #[trigger] is_walk(facts, p) && p[0] == head && p.last() == x
}

/// `x` is a known ancestor of a known head.
pub open spec fn known_ancestor(facts: Map<Seq<char>, FactInfo>, head: Seq<char>, x: Seq<char>) -> bool {
    facts.dom().contains(head) && reaches(facts, head, x)
}

/// Every commit reachable from the head has a fact (and so does the head).
pub open spec fn closure_complete(facts: Map<Seq<char>, FactInfo>, head: Seq<char>) -> bool {
    facts.dom().contains(head) && forall|x: Seq<char>| #[trigger] reaches(facts, head, x) ==> facts.dom().contains(x)
}

/// The patch-id recorded for `x`, if any.
pub open spec fn patch_view(facts: Map<Seq<char>, FactInfo>, x: Seq<char>) -> Option<Seq<char>> {
    if facts.dom().contains(x) {
        facts[x].1
    } else {
        None
    }
}

/// `sha` is gone from head's ancestry but a commit with the same patch-id is in it.
pub open spec fn rewritten_in(facts: Map<Seq<char>, FactInfo>, head: Seq<char>, sha: Seq<char>) -> bool {
    patch_view(facts, sha) is Some && exists|y: Seq<char>| #[trigger] known_ancestor(facts, head, y) && patch_view(facts, y) == patch_view(facts, sha)
}

/// What a commit-fact ancestor set answers for `sha` against `head`.
pub open spec fn facts_answer(facts: Map<Seq<char>, FactInfo>, head: Seq<char>, sha: Seq<char>) -> Ancestry {
    if known_ancestor(facts, head, sha) {
        Ancestry::Yes
    } else if rewritten_in(facts, head, sha) {
        Ancestry::Rewritten
    } else if closure_complete(facts, head) {
        Ancestry::No
    } else {
        Ancestry::Unknown
    }
}

/// Every parent recorded by any fact in `s`.
pub open spec fn all_parents(s: Seq<(Seq<char>, CommitFact)>) -> Seq<Seq<char>>
    decreases s.len(),
{
    if s.len() == 0 {
        Seq::empty()
    } else {
        all_parents(s.drop_last()) + views(s.last().1.parents@)
    }
}

/// The finite set the walk can ever visit: the head and every recorded parent.
pub open spec fn universe(s: Seq<(Seq<char>, CommitFact)>, head: Seq<char>) -> Set<Seq<char>> {
    all_parents(s).push(head).to_set()
}

proof fn lemma_all_parents_contains(s: Seq<(Seq<char>, CommitFact)>, i: int, j: int)
    requires
        0 <= i < s.len(),
        0 <= j < s[i].1.parents@.len(),
    ensures
        all_parents(s).contains(views(s[i].1.parents@)[j]),
    decreases s.len(),
{
    let x = views(s[i].1.parents@)[j];
    if i == s.len() - 1 {
        let a = all_parents(s.drop_last());
        assert((a + views(s.last().1.parents@))[a.len() + j] == x);
    } else {
        lemma_all_parents_contains(s.drop_last(), i, j);
        let a = all_parents(s.drop_last());
        let k = choose|k: int| 0 <= k < a.len() && a[k] == x;
        assert((a + views(s.last().1.parents@))[k] == x);
    }
}

proof fn lemma_parents_in_universe(s: Seq<(Seq<char>, CommitFact)>, head: Seq<char>, x: Seq<char>)
    requires
        strictly_sorted(s),
        pairs_map(s).dom().contains(x),
    ensures
        forall|y: Seq<char>| parents_of(fact_graph(pairs_map(s)), x).contains(y) ==> #[trigger] universe(s, head).contains(y),
{
    let i = choose|i: int| 0 <= i < s.len() && s[i].0 == x;
    lemma_pairs_map_at(s, i);
    assert forall|y: Seq<char>| parents_of(fact_graph(pairs_map(s)), x).contains(y) implies #[trigger] universe(s, head).contains(y) by {
        let j = choose|j: int| 0 <= j < parents_of(fact_graph(pairs_map(s)), x).len() && parents_of(fact_graph(pairs_map(s)), x)[j] == y;
        lemma_all_parents_contains(s, i, j);
        let a = all_parents(s);
        let k = choose|k: int| 0 <= k < a.len() && a[k] == y;
        assert(a.push(head)[k] == y);
    }
}

proof fn lemma_walk_edge(facts: Map<Seq<char>, FactInfo>, p: Seq<Seq<char>>, i: int)
    requires
        is_walk(facts, p),
        0 <= i < p.len() - 1,
    ensures
        edge(facts, p[i], p[i + 1]),
{
}

proof fn lemma_reaches_self(facts: Map<Seq<char>, FactInfo>, head: Seq<char>)
    ensures
        reaches(facts, head, head),
{
    let p = seq![head];
    assert(is_walk(facts, p));
}

proof fn lemma_reaches_step(facts: Map<Seq<char>, FactInfo>, head: Seq<char>, x: Seq<char>, y: Seq<char>)
    requires
        reaches(facts, head, x),
        edge(facts, x, y),
    ensures
        reaches(facts, head, y),
{
    let p = choose|p: Seq<Seq<char>>| #[trigger] is_walk(facts, p) && p[0] == head && p.last() == x;
    let q = p.push(y);
    assert forall|i: int| 0 <= i < q.len() - 1 implies #[trigger] edge(facts, q[i], q[i + 1]) by {
        if i < p.len() - 1 {
            lemma_walk_edge(facts, p, i);
        }
    }
    assert(is_walk(facts, q));
}

/// Walks never leave the head unless the head has a fact.
proof fn lemma_reaches_unknown_head(facts: Map<Seq<char>, FactInfo>, head: Seq<char>, x: Seq<char>)
    requires
        !facts.dom().contains(head),
        reaches(facts, head, x),
    ensures
        x == head,
{
    let p = choose|p: Seq<Seq<char>>| #[trigger] is_walk(facts, p) && p[0] == head && p.last() == x;
    if p.len() > 1 {
        lemma_walk_edge(facts, p, 0);
    }
}

/// `y` is one of the strings in queue `q`.
pub open spec fn queued(q: Seq<String>, y: Seq<char>) -> bool {
    exists|i: int| 0 <= i < q.len() && q[i]@ == y
}

proof fn lemma_walk_in_closed_set(facts: Map<Seq<char>, FactInfo>, set: Set<Seq<char>>, p: Seq<Seq<char>>, i: int)
    requires
        is_walk(facts, p),
        0 <= i < p.len(),
        set.contains(p[0]),
        forall|a: Seq<char>, b: Seq<char>| set.contains(a) && #[trigger] edge(facts, a, b) ==> set.contains(b),
    ensures
        set.contains(p[i]),
    decreases i,
{
    if i > 0 {
        lemma_walk_in_closed_set(facts, set, p, i - 1);
        lemma_walk_edge(facts, p, i - 1);
    }
}

/// A set closed under parent edges that holds the head holds every commit the
/// head reaches.
proof fn lemma_closed_set_holds_reach(facts: Map<Seq<char>, FactInfo>, head: Seq<char>, set: Set<Seq<char>>, x: Seq<char>)
    requires
        set.contains(head),
        forall|a: Seq<char>, b: Seq<char>| set.contains(a) && #[trigger] edge(facts, a, b) ==> set.contains(b),
        reaches(facts, head, x),
    ensures
        set.contains(x),
{
    let p = choose|p: Seq<Seq<char>>| #[trigger] is_walk(facts, p) && p[0] == head && p.last() == x;
    lemma_walk_in_closed_set(facts, set, p, p.len() - 1);
}

/// Ancestor set over the CommitFact graph, for git-free nodes (the hub, the
/// dashboard's branch selector). If the walk from the head ever needs a sha
/// with no fact, the closure is incomplete and non-members answer `Unknown`
/// instead of `No`: never silently closed, never silently not-closed.
pub struct FactsAncestors {
    reachable: StrMap<()>,
    complete: bool,
    /// patch-ids of commits reachable from the head.
    reachable_patches: StrMap<()>,
    /// sha -> patch-id for every known fact that has one.
    patch_of: StrMap<String>,
    log: Ghost<Seq<Seq<char>>>,
    /// The shas the walk expanded, in order.
    expanded: Ghost<Seq<Seq<char>>>,
}

impl FactsAncestors {
    /// The shas the walk from the head expanded, in order.
    pub closed spec fn expansions(&self) -> Seq<Seq<char>> {
        self.expanded@
    }

    /// Walk the parents recorded in `facts` from `head`. Parent cycles and
    /// parents without a fact are fine: each sha is expanded at most once,
    /// and only shas the facts name (or the head) are expanded, so the walk
    /// expands at most one more sha than there are recorded parents.
    pub fn new(facts: &StrMap<CommitFact>, head: &str) -> (r: Self)
        ensures
            forall|sha: Seq<char>| #[trigger] r.answer(sha) == facts_answer(fact_graph(facts.map()), head@, sha),
            r.asked() == Seq::<Seq<char>>::empty(),
            r.expansions().no_duplicates(),
            forall|x: Seq<char>| #[trigger] r.expansions().contains(x) ==> universe(facts.pairs(), head@).contains(x),
            r.expansions().len() <= all_parents(facts.pairs()).len() + 1,
    {
        let ghost fm = fact_graph(facts.map());
        let ghost hv = head@;
        let n = facts.len();
        let ghost univ = universe(facts.pairs(), hv);
        proof {
            assert(all_parents(facts.pairs()).push(hv)[all_parents(facts.pairs()).len() as int] == hv);
            lemma_reaches_self(fm, hv);
        }
        let mut reachable: StrMap<()> = StrMap::new();
        let mut complete = true;
        let mut queue: Vec<String> = Vec::new();
        let ghost mut expanded: Seq<Seq<char>> = Seq::empty();
        queue.push(head.to_owned());
        assert(queue@[0]@ == hv);
        while queue.len() > 0
            invariant
                fm == fact_graph(facts.map()),
                univ == universe(facts.pairs(), hv),
                strictly_sorted(facts.pairs()),
                univ.finite(),
                univ.contains(hv),
                forall|x: Seq<char>| #[trigger] reachable.map().dom().contains(x) ==> univ.contains(x) && reaches(fm, hv, x),
                forall|i: int| 0 <= i < queue@.len() ==> univ.contains(#[trigger] queue@[i]@) && reaches(fm, hv, queue@[i]@),
                forall|a: Seq<char>, b: Seq<char>| reachable.map().dom().contains(a) && #[trigger] edge(fm, a, b) ==> reachable.map().dom().contains(b) || queued(queue@, b),
                reachable.map().dom().contains(hv) || queued(queue@, hv),
                complete == (forall|x: Seq<char>| #[trigger] reachable.map().dom().contains(x) ==> fm.dom().contains(x)),
                expanded.no_duplicates(),
                forall|x: Seq<char>| #[trigger] expanded.contains(x) <==> reachable.map().dom().contains(x),
            decreases univ.difference(reachable.map().dom()).len(), queue@.len(),
        {
            let ghost before_q = queue@;
            let sha = queue.pop().unwrap();
            proof {
                assert(before_q =~= queue@.push(sha));
                assert(univ.contains(sha@) && reaches(fm, hv, sha@)) by {
                    assert(before_q[before_q.len() - 1] == sha);
                }
                assert forall|b: Seq<char>| queued(before_q, b) && b != sha@ implies queued(queue@, b) by {
                    let i = choose|i: int| 0 <= i < before_q.len() && before_q[i]@ == b;
                    assert(queue@[i]@ == b);
                }
            }
            if reachable.contains_key(sha.as_str()) {
                continue;
            }
            let ghost before_dom = reachable.map().dom();
            proof {
                univ.lemma_set_insert_diff_decreases(before_dom, sha@);
            }
            reachable.insert(copy_string(&sha), ());
            assert(reachable.map().dom() =~= before_dom.insert(sha@));
            proof {
                let e0 = expanded;
                expanded = e0.push(sha@);
                assert forall|x: Seq<char>| #[trigger] expanded.contains(x) <==> e0.contains(x) || x == sha@ by {
                    if expanded.contains(x) {
                        let i = choose|i: int| 0 <= i < expanded.len() && expanded[i] == x;
                        if i < e0.len() {
                            assert(e0[i] == x);
                        }
                    }
                    if e0.contains(x) {
                        let i = choose|i: int| 0 <= i < e0.len() && e0[i] == x;
                        assert(expanded[i] == x);
                    }
                    if x == sha@ {
                        assert(expanded[e0.len() as int] == x);
                    }
                }
                assert forall|i: int, j: int| 0 <= i < j < expanded.len() implies expanded[i] != expanded[j] by {
                    if j == e0.len() {
                        assert(e0.contains(e0[i]));
                    }
                }
            }
            match facts.get(sha.as_str()) {
                Some(fact) => {
                    proof {
                        lemma_parents_in_universe(facts.pairs(), hv, sha@);
                    }
                    let ghost q0 = queue@;
                    let mut j: usize = 0;
                    while j < fact.parents.len()
                        invariant
                            j <= fact.parents@.len(),
                            *fact == facts.map()[sha@],
                            fm.dom().contains(sha@),
                            queue@.len() == q0.len() + j,
                            forall|i: int| 0 <= i < q0.len() ==> #[trigger] queue@[i] == q0[i],
                            forall|i: int| q0.len() <= i < queue@.len() ==> #[trigger] queue@[i]@ == fact.parents@[i - q0.len()]@,
                        decreases fact.parents@.len() - j,
                    {
                        queue.push(copy_string(&fact.parents[j]));
                        j = j + 1;
                    }
                    proof {
                        assert forall|i: int| 0 <= i < queue@.len() implies univ.contains(#[trigger] queue@[i]@) && reaches(fm, hv, queue@[i]@) by {
                            if i >= q0.len() {
                                let k = i - q0.len();
                                assert(queue@[i]@ == fact.parents@[k]@);
                                assert(parents_of(fm, sha@)[k] == queue@[i]@);
                                assert(edge(fm, sha@, queue@[i]@));
                                lemma_reaches_step(fm, hv, sha@, queue@[i]@);
                            } else {
                                assert(queue@[i] == q0[i]);
                            }
                        }
                        assert forall|b: Seq<char>| queued(q0, b) implies queued(queue@, b) by {
                            let i = choose|i: int| 0 <= i < q0.len() && q0[i]@ == b;
                            assert(queue@[i] == q0[i]);
                        }
                        assert forall|b: Seq<char>| #[trigger] edge(fm, sha@, b) implies queued(queue@, b) by {
                            let k = choose|k: int| 0 <= k < parents_of(fm, sha@).len() && parents_of(fm, sha@)[k] == b;
                            let qi = q0.len() + k;
                            assert(queue@[qi]@ == fact.parents@[qi - q0.len()]@);
                            assert(queue@[qi]@ == b);
                        }
                    }
                },
                None => {
                    complete = false;
                },
            }
            proof {
                assert(complete == (forall|x: Seq<char>| #[trigger] reachable.map().dom().contains(x) ==> fm.dom().contains(x))) by {
                    if complete {
                        assert(fm.dom().contains(sha@));
                        assert forall|x: Seq<char>| #[trigger] reachable.map().dom().contains(x) implies fm.dom().contains(x) by {
                            if x != sha@ {
                                assert(before_dom.contains(x));
                            }
                        }
                    } else {
                        if !fm.dom().contains(sha@) {
                            assert(reachable.map().dom().contains(sha@));
                        } else {
                            let x = choose|x: Seq<char>| #[trigger] before_dom.contains(x) && !fm.dom().contains(x);
                            assert(reachable.map().dom().contains(x));
                        }
                    }
                }
            }
        }
        proof {
            assert forall|x: Seq<char>| #[trigger] reaches(fm, hv, x) implies reachable.map().dom().contains(x) by {
                lemma_closed_set_holds_reach(fm, hv, reachable.map().dom(), x);
            }
            assert(expanded.to_set().subset_of(univ));
            expanded.unique_seq_to_set();
            vstd::set_lib::lemma_len_subset(expanded.to_set(), univ);
            all_parents(facts.pairs()).push(hv).lemma_cardinality_of_set();
        }
        // `head` itself only counts as reachable if we actually know it.
        if !facts.contains_key(head) {
            reachable.remove(head);
            complete = false;
            proof {
                assert forall|x: Seq<char>| !reachable.map().dom().contains(x) by {
                    if reachable.map().dom().contains(x) {
                        lemma_reaches_unknown_head(fm, hv, x);
                    }
                }
            }
        }
        assert(forall|x: Seq<char>| #[trigger] reachable.map().dom().contains(x) <==> known_ancestor(fm, hv, x));
        assert(complete == closure_complete(fm, hv));
        // sha -> patch-id for every known fact.
        let mut patch_of: StrMap<String> = StrMap::new();
        let mut i: usize = 0;
        while i < n
            invariant
                i <= n,
                n == facts.pairs().len(),
                fm == fact_graph(facts.map()),
                strictly_sorted(facts.pairs()),
                forall|x: Seq<char>| #[trigger] patch_of.map().dom().contains(x) <==> (exists|j: int| 0 <= j < i && facts.pairs()[j].0 == x && facts.pairs()[j].1.patch_id is Some),
                forall|x: Seq<char>| #[trigger] patch_of.map().dom().contains(x) ==> facts.map().dom().contains(x) && facts.map()[x].patch_id == Some(patch_of.map()[x]),
            decreases n - i,
        {
            let k = facts.key_at(i);
            let v = facts.value_at(i);
            proof {
                lemma_pairs_map_at(facts.pairs(), i as int);
            }
            if let Some(p) = &v.patch_id {
                patch_of.insert(copy_string(k), copy_string(p));
            }
            proof {
                assert forall|x: Seq<char>| #[trigger] patch_of.map().dom().contains(x) <==> (exists|j: int| 0 <= j < i + 1 && facts.pairs()[j].0 == x && facts.pairs()[j].1.patch_id is Some) by {
                    if x == k@ && v.patch_id is Some {
                        assert(facts.pairs()[i as int].0 == x);
                    }
                }
            }
            i = i + 1;
        }
        proof {
            assert forall|x: Seq<char>| #[trigger] patch_of.map().dom().contains(x) <==> patch_view(fm, x) is Some by {
                if patch_view(fm, x) is Some {
                    lemma_pairs_map_all(facts.pairs());
                    let j = choose|j: int| 0 <= j < facts.pairs().len() && facts.pairs()[j].0 == x;
                    lemma_pairs_map_at(facts.pairs(), j);
                }
            }
        }
        // patch-ids of the reachable commits.
        let mut reachable_patches: StrMap<()> = StrMap::new();
        let m = reachable.len();
        let mut i: usize = 0;
        while i < m
            invariant
                i <= m,
                m == reachable.pairs().len(),
                strictly_sorted(reachable.pairs()),
                forall|q: Seq<char>| #[trigger] reachable_patches.map().dom().contains(q) <==> (exists|j: int| 0 <= j < i && #[trigger] patch_of.map().dom().contains(reachable.pairs()[j].0) && patch_of.map()[reachable.pairs()[j].0]@ == q),
            decreases m - i,
        {
            let k = reachable.key_at(i);
            if let Some(p) = patch_of.get(k.as_str()) {
                reachable_patches.insert(copy_string(p), ());
            }
            proof {
                assert forall|q: Seq<char>| #[trigger] reachable_patches.map().dom().contains(q) <==> (exists|j: int| 0 <= j < i + 1 && #[trigger] patch_of.map().dom().contains(reachable.pairs()[j].0) && patch_of.map()[reachable.pairs()[j].0]@ == q) by {
                    if patch_of.map().dom().contains(k@) && patch_of.map()[k@]@ == q {
                        assert(reachable.pairs()[i as int].0 == k@);
                    }
                }
            }
            i = i + 1;
        }
        let r = FactsAncestors { reachable, complete, reachable_patches, patch_of, log: Ghost(Seq::empty()), expanded: Ghost(expanded) };
        proof {
            lemma_pairs_map_all(r.reachable.pairs());
            assert forall|sha: Seq<char>| #[trigger] r.answer(sha) == facts_answer(fm, hv, sha) by {
                if !known_ancestor(fm, hv, sha) && patch_view(fm, sha) is Some {
                    let pv = patch_view(fm, sha)->0;
                    assert(r.patch_of.map()[sha]@ == pv);
                    if rewritten_in(fm, hv, sha) {
                        let y = choose|y: Seq<char>| #[trigger] known_ancestor(fm, hv, y) && patch_view(fm, y) == patch_view(fm, sha);
                        assert(r.reachable.map().dom().contains(y));
                        let j = choose|j: int| 0 <= j < r.reachable.pairs().len() && r.reachable.pairs()[j].0 == y;
                        assert(r.patch_of.map().dom().contains(r.reachable.pairs()[j].0));
                    }
                    if r.reachable_patches.map().dom().contains(pv) {
                        let j = choose|j: int| 0 <= j < m && #[trigger] r.patch_of.map().dom().contains(r.reachable.pairs()[j].0) && r.patch_of.map()[r.reachable.pairs()[j].0]@ == pv;
                        let y = r.reachable.pairs()[j].0;
                        assert(known_ancestor(fm, hv, y));
                        assert(patch_view(fm, y) == patch_view(fm, sha));
                    }
                }
            }
        }
        r
    }
}

impl AncestorSet for FactsAncestors {
    closed spec fn answer(&self, sha: Seq<char>) -> Ancestry {
        if self.reachable.map().dom().contains(sha) {
            Ancestry::Yes
        } else if self.patch_of.map().dom().contains(sha) && self.reachable_patches.map().dom().contains(self.patch_of.map()[sha]@) {
            Ancestry::Rewritten
        } else if self.complete {
            Ancestry::No
        } else {
            Ancestry::Unknown
        }
    }

    closed spec fn asked(&self) -> Seq<Seq<char>> {
        self.log@
    }

    fn contains(&mut self, sha: &str) -> (a: Ancestry) {
        self.log = Ghost(self.log@.push(sha@));
        if self.reachable.contains_key(sha) {
            return Ancestry::Yes;
        }
        // Squash/rebase: the exact sha is gone, but its diff (patch-id) may be
        // present in head's ancestry under a new sha.
        if let Some(patch) = self.patch_of.get(sha) {
            if self.reachable_patches.contains_key(patch.as_str()) {
                return Ancestry::Rewritten;
            }
        }
        if self.complete {
            Ancestry::No
        } else {
            Ancestry::Unknown
        }
    }
}

} // verus!
