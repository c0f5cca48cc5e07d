//! Short task ids: display as `lv-` + a unique hex prefix (git-style),
//! prefix matching on input.

use vstd::prelude::*;
use vstd::string::StrSliceExecFns;
use vstd::utf8::{decode_utf8, is_char_boundary};

use crate::materialize::World;
use crate::seqs::lemma_filter_single;
use crate::strmap::{lemma_unique_keys, strictly_sorted};
use crate::text::{bytes, bytes_of, concat, is_prefix, starts_with, str_eq};

verus! {

broadcast use {vstd::utf8::encode_utf8_decode_utf8, vstd::utf8::encode_utf8_valid_utf8};

/// The fewest hex characters a short id shows.
pub const MIN_SHORT: usize = 4;

/// Some task other than `id` has the byte prefix `p`.
pub open spec fn collides(keys: Seq<Seq<char>>, id: Seq<char>, p: Seq<u8>) -> bool {
    exists|i: int| 0 <= i < keys.len() && keys[i] != id && #[trigger] is_prefix(p, bytes_of(keys[i]))
}

/// What is left of `id`'s bytes past `len` (0 once `len` reaches the end).
pub open spec fn bytes_left(id: Seq<char>, len: nat) -> nat {
    if len >= bytes_of(id).len() {
        0
    } else {
        (bytes_of(id).len() - len) as nat
    }
}

/// The prefix length (in bytes) `short_id` settles on when it starts trying
/// at `len` and lengthens by two on each collision; `None` when no proper
/// prefix is unique and the whole id is shown.
pub open spec fn short_len(keys: Seq<Seq<char>>, id: Seq<char>, len: nat) -> Option<nat>
    decreases bytes_left(id, len),
{
    if len >= bytes_of(id).len() {
        None
    } else if !collides(keys, id, bytes_of(id).subrange(0, len as int)) {
        Some(len)
    } else {
        short_len(keys, id, len + 2)
    }
}

/// Every prefix length `short_id` tries, starting at `len`, falls on a
/// character boundary of `id` (always so for hex ids).
pub open spec fn short_id_slices_ok(keys: Seq<Seq<char>>, id: Seq<char>, len: nat) -> bool
    decreases bytes_left(id, len),
{
    if len >= bytes_of(id).len() {
        true
    } else {
        is_char_boundary(bytes_of(id), len as int) && (!collides(keys, id, bytes_of(id).subrange(0, len as int))
            || short_id_slices_ok(keys, id, len + 2))
    }
}

/// The display id: `lv-` and the shortest unique prefix of at least four
/// bytes (growing two at a time), or `lv-` and the whole id.
pub open spec fn short_id_text(keys: Seq<Seq<char>>, id: Seq<char>) -> Seq<char> {
    match short_len(keys, id, MIN_SHORT as nat) {
        Some(l) => "lv-"@ + decode_utf8(bytes_of(id).subrange(0, l as int)),
        None => "lv-"@ + id,
    }
}

/// Whether a task other than `id` starts with `prefix`.
fn has_collision(world: &World, id: &str, prefix: &str) -> (r: bool)
    ensures
        r == collides(world.tasks.key_seq(), id@, bytes_of(prefix@)),
{
    let n = world.tasks.len();
    let mut i: usize = 0;
    while i < n
        invariant
            i <= n,
            n == world.tasks.key_seq().len(),
            forall|j: int| 0 <= j < i ==> !(world.tasks.key_seq()[j] != id@ && #[trigger] is_prefix(bytes_of(prefix@), bytes_of(world.tasks.key_seq()[j]))),
        decreases n - i,
    {
        let k = world.tasks.key_at(i);
        if !str_eq(k.as_str(), id) && starts_with(k.as_str(), prefix) {
            assert(world.tasks.key_seq()[i as int] == k@);
            return true;
        }
        i = i + 1;
    }
    false
}

/// Shortest unique-prefix display id for `id` within `world` (min 4 hex
/// chars). Falls back to lengthening on collision, git-style.
pub fn short_id(world: &World, id: &str) -> (r: String)
    requires
        short_id_slices_ok(world.tasks.key_seq(), id@, MIN_SHORT as nat),
    ensures
        r@ == short_id_text(world.tasks.key_seq(), id@),
{
    let ghost keys = world.tasks.key_seq();
    let id_len = bytes(id).len();
    let mut len: usize = MIN_SHORT;
    while len < id_len
        invariant
            keys == world.tasks.key_seq(),
            id_len == bytes_of(id@).len(),
            short_id_slices_ok(keys, id@, len as nat),
            short_len(keys, id@, len as nat) == short_len(keys, id@, MIN_SHORT as nat),
        decreases bytes_left(id@, len as nat),
    {
        let (prefix, _) = id.split_at(len);
        assert(bytes_of(prefix@) =~= bytes_of(id@).subrange(0, len as int));
        assert(prefix@ == decode_utf8(bytes_of(id@).subrange(0, len as int)));
        if !has_collision(world, id, prefix) {
            return concat("lv-", prefix);
        }
        let ghost old = len;
        len = if len < id_len - 1 {
            len + 2
        } else {
            id_len
        };
        proof {
            assert(short_len(keys, id@, old as nat) == short_len(keys, id@, (old + 2) as nat));
            if len == id_len {
                assert(short_len(keys, id@, (old + 2) as nat) == None::<nat>);
                assert(short_len(keys, id@, len as nat) == None::<nat>);
            }
        }
    }
    concat("lv-", id)
}

/// "lv-" and the first eight bytes of `id` (all of it when shorter).
pub open spec fn short_id_of_text(id: Seq<char>) -> Seq<char> {
    if bytes_of(id).len() <= 8 {
        "lv-"@ + id
    } else {
        "lv-"@ + decode_utf8(bytes_of(id).subrange(0, 8))
    }
}

/// A fixed-width display id, used where no world is at hand.
pub fn short_id_of(id: &str) -> (r: String)
    requires
        bytes_of(id@).len() <= 8 || is_char_boundary(bytes_of(id@), 8),
    ensures
        r@ == short_id_of_text(id@),
{
    if bytes(id).len() <= 8 {
        concat("lv-", id)
    } else {
        let (prefix, _) = id.split_at(8);
        assert(bytes_of(prefix@) =~= bytes_of(id@).subrange(0, 8));
        assert(prefix@ == decode_utf8(bytes_of(id@).subrange(0, 8)));
        concat("lv-", prefix)
    }
}

/// Why user input names no single task.
#[derive(Debug, Clone, PartialEq, Eq)]
pub enum PrefixError {
    NotFound(String),
    Ambiguous(String, Vec<String>),
}

impl PrefixError {
    /// The message shown to the user.
    pub fn message(&self) -> (r: String)
        ensures
            r@ == match self {
                PrefixError::NotFound(p) => "no task matches '"@ + p@ + "'"@,
                PrefixError::Ambiguous(p, ids) => "'"@ + p@ + "' is ambiguous: matches "@ + joined(ids@, ", "@),
            },
    {
        match self {
            PrefixError::NotFound(p) => {
                let a = concat("no task matches '", p.as_str());
                concat(a.as_str(), "'")
            },
            PrefixError::Ambiguous(p, ids) => {
                let a = concat("'", p.as_str());
                let b = concat(a.as_str(), "' is ambiguous: matches ");
                let j = join(ids, ", ");
                concat(b.as_str(), j.as_str())
            },
        }
    }
}

/// The strings of `v` separated by `sep`.
pub open spec fn joined(v: Seq<String>, sep: Seq<char>) -> Seq<char>
    decreases v.len(),
{
    if v.len() == 0 {
        Seq::empty()
    } else if v.len() == 1 {
        v[0]@
    } else {
        joined(v.drop_last(), sep) + sep + v.last()@
    }
}

/// The strings of `v` separated by `sep`.
pub fn join(v: &Vec<String>, sep: &str) -> (r: String)
    ensures
        r@ == joined(v@, sep@),
{
    let mut out = String::new();
    let mut i: usize = 0;
    while i < v.len()
        invariant
            i <= v@.len(),
            out@ == joined(v@.subrange(0, i as int), sep@),
        decreases v@.len() - i,
    {
        let ghost pre = v@.subrange(0, i as int);
        proof {
            assert(v@.subrange(0, i + 1).drop_last() =~= pre);
        }
        if i == 0 {
            out = v[i].clone();
        } else {
            let a = concat(out.as_str(), sep);
            out = concat(a.as_str(), v[i].as_str());
        }
        proof {
            assert(out@ =~= joined(v@.subrange(0, i + 1), sep@));
        }
        i = i + 1;
    }
    assert(v@.subrange(0, v@.len() as int) =~= v@);
    out
}

/// `s` without a leading `lv-`.
pub open spec fn strip_lv(s: Seq<char>) -> Seq<char> {
    if s.len() >= 3 && s.subrange(0, 3) == "lv-"@ {
        s.subrange(3, s.len() as int)
    } else {
        s
    }
}

/// The task ids that start with `p`, in id order.
pub open spec fn matching_ids(keys: Seq<Seq<char>>, p: Seq<char>) -> Seq<Seq<char>> {
    keys.filter(|k: Seq<char>| is_prefix(bytes_of(p), bytes_of(k)))
}

/// `s` without the leading `p`, when it starts with `p`.
fn strip_prefix<'a>(s: &'a str, p: &str) -> (r: Option<&'a str>)
    ensures
        match r {
            Some(t) => s@.len() >= p@.len() && s@.subrange(0, p@.len() as int) == p@ && t@ == s@.subrange(p@.len() as int, s@.len() as int),
            None => !(s@.len() >= p@.len() && s@.subrange(0, p@.len() as int) == p@),
        },
{
    let n = s.unicode_len();
    let m = p.unicode_len();
    if m > n {
        return None;
    }
    let mut i: usize = 0;
    while i < m
        invariant
            i <= m,
            m == p@.len(),
            n == s@.len(),
            m <= n,
            forall|j: int| 0 <= j < i ==> s@[j] == p@[j],
        decreases m - i,
    {
        if s.get_char(i) != p.get_char(i) {
            assert(s@.subrange(0, m as int)[i as int] != p@[i as int]);
            return None;
        }
        i = i + 1;
    }
    assert(s@.subrange(0, m as int) =~= p@);
    Some(s.substring_char(m, n))
}

/// Resolve user input (`lv-3f2a`, `3f2a`, or a full id) to a task id.
pub fn resolve_prefix<'w>(world: &'w World, input: &str) -> (r: Result<&'w str, PrefixError>)
    requires
        matching_ids(world.tasks.key_seq(), strip_lv(input@)).len() >= 2 ==> forall|i: int|
            0 <= i < matching_ids(world.tasks.key_seq(), strip_lv(input@)).len() ==> bytes_of(
                #[trigger] matching_ids(world.tasks.key_seq(), strip_lv(input@))[i],
            ).len() <= 8 || is_char_boundary(bytes_of(matching_ids(world.tasks.key_seq(), strip_lv(input@))[i]), 8),
    ensures
        ({
            let m = matching_ids(world.tasks.key_seq(), strip_lv(input@));
            match r {
                Ok(id) => m.len() == 1 && id@ == m[0],
                Err(PrefixError::NotFound(s)) => m.len() == 0 && s@ == input@,
                Err(PrefixError::Ambiguous(s, ids)) => m.len() >= 2 && s@ == input@ && ids@.len() == m.len()
                    && forall|i: int| 0 <= i < m.len() ==> (#[trigger] ids@[i])@ == short_id_of_text(m[i]),
            }
        }),
{
    let ghost keys = world.tasks.key_seq();
    let prefix = match strip_prefix(input, "lv-") {
        Some(rest) => rest,
        None => input,
    };
    proof {
        reveal_strlit("lv-");
        assert(prefix@ == strip_lv(input@));
    }
    let ghost pred = |k: Seq<char>| is_prefix(bytes_of(prefix@), bytes_of(k));
    let n = world.tasks.len();
    let mut hits: Vec<&'w str> = Vec::new();
    let mut i: usize = 0;
    while i < n
        invariant
            i <= n,
            n == keys.len(),
            keys == world.tasks.key_seq(),
            pred == (|k: Seq<char>| is_prefix(bytes_of(prefix@), bytes_of(k))),
            hits@.map_values(|h: &str| h@) == keys.subrange(0, i as int).filter(pred),
        decreases n - i,
    {
        let k = world.tasks.key_at(i);
        let ghost before = hits@;
        proof {
            reveal(Seq::filter);
            assert(keys.subrange(0, i + 1).drop_last() =~= keys.subrange(0, i as int));
            assert(keys[i as int] == k@);
        }
        if starts_with(k.as_str(), prefix) {
            hits.push(k.as_str());
            assert(hits@.map_values(|h: &str| h@) =~= before.map_values(|h: &str| h@).push(k@));
        }
        i = i + 1;
    }
    assert(keys.subrange(0, n as int) =~= keys);
    let ghost m = matching_ids(keys, strip_lv(input@));
    assert(hits@.map_values(|h: &str| h@) == m);
    if hits.len() == 0 {
        return Err(PrefixError::NotFound(input.to_owned()));
    }
    if hits.len() == 1 {
        assert(hits@[0]@ == hits@.map_values(|h: &str| h@)[0]);
        return Ok(hits[0]);
    }
    let mut shorts: Vec<String> = Vec::new();
    let mut j: usize = 0;
    while j < hits.len()
        invariant
            j <= hits@.len(),
            hits@.map_values(|h: &str| h@) == m,
            m.len() >= 2,
            forall|t: int| 0 <= t < m.len() ==> bytes_of(#[trigger] m[t]).len() <= 8 || is_char_boundary(bytes_of(m[t]), 8),
            shorts@.len() == j,
            forall|t: int| 0 <= t < j ==> (#[trigger] shorts@[t])@ == short_id_of_text(m[t]),
        decreases hits@.len() - j,
    {
        assert(hits@[j as int]@ == m[j as int]);
        shorts.push(short_id_of(hits[j]));
        j = j + 1;
    }
    Err(PrefixError::Ambiguous(input.to_owned(), shorts))
}

/// The length `short_id` settles on is a character boundary of `id`, short
/// of its end, and no other task starts with the prefix it cuts.
proof fn lemma_short_len_cut(keys: Seq<Seq<char>>, id: Seq<char>, len: nat, l: nat)
    requires
        short_id_slices_ok(keys, id, len),
        short_len(keys, id, len) == Some(l),
    ensures
        l < bytes_of(id).len(),
        is_char_boundary(bytes_of(id), l as int),
        !collides(keys, id, bytes_of(id).subrange(0, l as int)),
    decreases bytes_left(id, len),
{
    if len < bytes_of(id).len() && collides(keys, id, bytes_of(id).subrange(0, len as int)) {
        lemma_short_len_cut(keys, id, len + 2, l);
    }
}

/// The display id resolves back to its task: read back (with or without
/// `lv-`), the short id of a task whose id no other task id extends matches
/// that task alone, so `resolve_prefix` answers it.
pub proof fn law_short_id_resolves_back(world: World, id: Seq<char>)
    requires
        strictly_sorted(world.tasks.pairs()),
        world.tasks.key_seq().contains(id),
        short_id_slices_ok(world.tasks.key_seq(), id, MIN_SHORT as nat),
        forall|k: Seq<char>| #[trigger] world.tasks.key_seq().contains(k) && k != id ==> !is_prefix(bytes_of(id), bytes_of(k)),
    ensures
        matching_ids(world.tasks.key_seq(), strip_lv(short_id_text(world.tasks.key_seq(), id))) == seq![id],
{
    let keys = world.tasks.key_seq();
    let t = match short_len(keys, id, MIN_SHORT as nat) {
        Some(l) => decode_utf8(bytes_of(id).subrange(0, l as int)),
        None => id,
    };
    reveal_strlit("lv-");
    assert(("lv-"@ + t).subrange(0, 3) =~= "lv-"@);
    assert(("lv-"@ + t).subrange(3, ("lv-"@ + t).len() as int) =~= t);
    assert(strip_lv(short_id_text(keys, id)) == t);
    let pred = |k: Seq<char>| is_prefix(bytes_of(t), bytes_of(k));
    let i = choose|i: int| 0 <= i < keys.len() && keys[i] == id;
    match short_len(keys, id, MIN_SHORT as nat) {
        Some(l) => {
            lemma_short_len_cut(keys, id, MIN_SHORT as nat, l);
            let b = bytes_of(id).subrange(0, l as int);
            vstd::utf8::encode_utf8_valid_utf8(id);
            vstd::utf8::valid_utf8_split(bytes_of(id), l as int);
            vstd::utf8::decode_utf8_encode_utf8(b);
            assert(t == decode_utf8(b));
            assert(bytes_of(t) == b);
            assert(pred(keys[i])) by {
                assert(bytes_of(id).subrange(0, b.len() as int) =~= b);
            }
            assert forall|j: int| 0 <= j < keys.len() && j != i implies !pred(#[trigger] keys[j]) by {
                if keys[j] == id {
                    lemma_unique_keys(world.tasks.pairs(), i, j);
                }
                if pred(keys[j]) {
                    assert(is_prefix(b, bytes_of(keys[j])));
                    assert(collides(keys, id, b));
                }
            }
        },
        None => {
            assert(pred(keys[i])) by {
                assert(bytes_of(id).subrange(0, bytes_of(id).len() as int) =~= bytes_of(id));
            }
            assert forall|j: int| 0 <= j < keys.len() && j != i implies !pred(#[trigger] keys[j]) by {
                if keys[j] == id {
                    lemma_unique_keys(world.tasks.pairs(), i, j);
                }
                assert(keys.contains(keys[j]));
            }
        },
    }
    lemma_filter_single(keys, pred, i);
}

/// Whether another task starts with `p` depends only on which ids there are.
proof fn lemma_collides_same_keys(k1: Seq<Seq<char>>, k2: Seq<Seq<char>>, id: Seq<char>, p: Seq<u8>)
    requires
        forall|k: Seq<char>| #[trigger] k1.contains(k) <==> k2.contains(k),
    ensures
        collides(k1, id, p) == collides(k2, id, p),
{
    if collides(k1, id, p) {
        let i = choose|i: int| 0 <= i < k1.len() && k1[i] != id && #[trigger] is_prefix(p, bytes_of(k1[i]));
        assert(k1.contains(k1[i]));
        let j = choose|j: int| 0 <= j < k2.len() && k2[j] == k1[i];
        assert(is_prefix(p, bytes_of(k2[j])));
    }
    if collides(k2, id, p) {
        let i = choose|i: int| 0 <= i < k2.len() && k2[i] != id && #[trigger] is_prefix(p, bytes_of(k2[i]));
        assert(k2.contains(k2[i]));
        assert(k1.contains(k2[i]));
        let j = choose|j: int| 0 <= j < k1.len() && k1[j] == k2[i];
        assert(is_prefix(p, bytes_of(k1[j])));
    }
}

proof fn lemma_short_len_same_keys(k1: Seq<Seq<char>>, k2: Seq<Seq<char>>, id: Seq<char>, len: nat)
    requires
        forall|k: Seq<char>| #[trigger] k1.contains(k) <==> k2.contains(k),
    ensures
        short_len(k1, id, len) == short_len(k2, id, len),
    decreases bytes_left(id, len),
{
    if len < bytes_of(id).len() {
        lemma_collides_same_keys(k1, k2, id, bytes_of(id).subrange(0, len as int));
        lemma_short_len_same_keys(k1, k2, id, len + 2);
    }
}

/// The display id depends only on which task ids there are, not on how they
/// are listed: two lists holding the same ids give every id the same short id.
pub proof fn law_short_id_depends_on_ids_only(k1: Seq<Seq<char>>, k2: Seq<Seq<char>>, id: Seq<char>)
    requires
        forall|k: Seq<char>| #[trigger] k1.contains(k) <==> k2.contains(k),
    ensures
        short_id_text(k1, id) == short_id_text(k2, id),
{
    lemma_short_len_same_keys(k1, k2, id, MIN_SHORT as nat);
}

} // verus!
