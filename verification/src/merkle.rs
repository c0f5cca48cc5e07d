//! Bucketed set-hashing for the hub sync leg. Event ids are grouped by their
//! 2-byte prefix (the same sharding as the events ref) and each bucket is
//! summarized as the SHA-256 of its sorted ids, each followed by a newline.
//! Equal hash ⇒ identical bucket ⇒ skip; differing buckets are enumerated
//! id-by-id. Both the CLI and the hub compute this identically.

use sha2::Digest;
use vstd::prelude::*;
use vstd::multiset::Multiset;
use vstd::relations::{sorted_by, total_ordering};
use vstd::utf8::{decode_utf8, is_char_boundary};

use crate::strmap::{lemma_pairs_map_all, lemma_pairs_map_at, strictly_sorted, StrMap};
use crate::text::{
    bytes, bytes_of, concat, copy_string, lemma_str_le_antisym, lemma_str_le_refl, lemma_str_le_total,
    lemma_str_le_trans, str_le, str_le_exec,
};

verus! {

broadcast use {
    vstd::utf8::encode_utf8_decode_utf8,
    vstd::utf8::encode_utf8_valid_utf8,
    vstd::multiset::group_multiset_axioms,
    vstd::seq_lib::group_to_multiset_ensures,
};

/// The SHA-256 digest of `data`.
pub uninterp spec fn sha256(data: Seq<u8>) -> Seq<u8>;

/// `sha2::Sha256::digest`: the SHA-256 of `data`, 32 bytes long.
#[verifier::external_body]
fn sha256_digest(data: &[u8]) -> (r: Vec<u8>)
    ensures
        r@ == sha256(data@),
        r@.len() == 32,
{
    sha2::Sha256::digest(data).to_vec()
}

/// The views of a list of string slices.
pub open spec fn views_of(s: Seq<&str>) -> Seq<Seq<char>> {
    s.map_values(|x: &str| x@)
}

/// The bucket of an id: its first two bytes.
pub open spec fn bucket_of(id: Seq<char>) -> Seq<char> {
    decode_utf8(bytes_of(id).subrange(0, 2))
}

/// The ids of `ms` that fall in bucket `b` (ids shorter than two bytes fall in none).
pub open spec fn bucketed(ms: Multiset<Seq<char>>, b: Seq<char>) -> Multiset<Seq<char>> {
    ms.filter(|id: Seq<char>| bytes_of(id).len() >= 2 && bucket_of(id) == b)
}

/// The ids, as a multiset of strings.
pub open spec fn id_multiset(ids: Seq<&str>) -> Multiset<Seq<char>> {
    views_of(ids).to_multiset()
}

/// Byte order on strings, as a relation.
pub open spec fn str_order() -> spec_fn(Seq<char>, Seq<char>) -> bool {
    |a: Seq<char>, b: Seq<char>| str_le(a, b)
}

/// The ids of `ms` in ascending order.
pub open spec fn in_order(ms: Multiset<Seq<char>>) -> Seq<Seq<char>> {
    choose|s: Seq<Seq<char>>| sorted_by(s, str_order()) && s.to_multiset() == ms
}

/// The bytes hashed for a sorted bucket: each id followed by a newline.
pub open spec fn feed(s: Seq<Seq<char>>) -> Seq<u8>
    decreases s.len(),
{
    if s.len() == 0 {
        Seq::empty()
    } else {
        feed(s.drop_last()) + bytes_of(s.last()) + seq![10u8]
    }
}

/// The lowercase hex digit of `d` (0 through 15).
pub open spec fn hex_digit(d: nat) -> char {
    if d < 10 {
        ((48 + d) as u32) as char
    } else {
        ((87 + d) as u32) as char
    }
}

/// Lowercase hex of a byte string, two digits per byte.
pub open spec fn lower_hex(b: Seq<u8>) -> Seq<char>
    decreases b.len(),
{
    if b.len() == 0 {
        Seq::empty()
    } else {
        lower_hex(b.drop_last()) + seq![hex_digit((b.last() / 16) as nat), hex_digit((b.last() % 16) as nat)]
    }
}

/// What bucket `b` of the ids `ms` hashes to.
pub open spec fn bucket_digest(ms: Multiset<Seq<char>>, b: Seq<char>) -> Seq<char> {
    lower_hex(sha256(feed(in_order(bucketed(ms, b)))))
}

/// Every id of two or more bytes splits after its second byte.
pub open spec fn buckets_splittable(ids: Seq<&str>) -> bool {
    forall|i: int| 0 <= i < ids.len() && bytes_of(#[trigger] ids[i]@).len() >= 2 ==> is_char_boundary(bytes_of(ids[i]@), 2)
}

proof fn lemma_str_order_total()
    ensures
        total_ordering(str_order()),
{
    assert forall|a: Seq<char>| #[trigger] str_order()(a, a) by {
        lemma_str_le_refl(a);
    }
    assert forall|a: Seq<char>, b: Seq<char>| #[trigger] str_order()(a, b) && #[trigger] str_order()(b, a) implies a == b by {
        lemma_str_le_antisym(a, b);
    }
    assert forall|a: Seq<char>, b: Seq<char>, c: Seq<char>| #[trigger] str_order()(a, b) && #[trigger] str_order()(b, c) implies str_order()(a, c) by {
        lemma_str_le_trans(a, b, c);
    }
    assert forall|a: Seq<char>, b: Seq<char>| #[trigger] str_order()(a, b) || #[trigger] str_order()(b, a) by {
        lemma_str_le_total(a, b);
    }
}

/// A sorted sequence holding exactly `ms` is the one `in_order` names.
proof fn lemma_in_order_unique(s: Seq<Seq<char>>, ms: Multiset<Seq<char>>)
    requires
        sorted_by(s, str_order()),
        s.to_multiset() == ms,
    ensures
        in_order(ms) == s,
{
    lemma_str_order_total();
    let t = in_order(ms);
    assert(sorted_by(t, str_order()) && t.to_multiset() == ms);
    vstd::seq_lib::lemma_sorted_unique(t, s, str_order());
}

/// The digit `d` as a one-character string.
fn hex_digit_str(d: u8) -> (r: &'static str)
    requires
        d < 16,
    ensures
        r@ == seq![hex_digit(d as nat)],
{
    let r = match d {
        0 => "0",
        1 => "1",
        2 => "2",
        3 => "3",
        4 => "4",
        5 => "5",
        6 => "6",
        7 => "7",
        8 => "8",
        9 => "9",
        10 => "a",
        11 => "b",
        12 => "c",
        13 => "d",
        14 => "e",
        _ => "f",
    };
    proof {
        reveal_strlit("0");
        reveal_strlit("1");
        reveal_strlit("2");
        reveal_strlit("3");
        reveal_strlit("4");
        reveal_strlit("5");
        reveal_strlit("6");
        reveal_strlit("7");
        reveal_strlit("8");
        reveal_strlit("9");
        reveal_strlit("a");
        reveal_strlit("b");
        reveal_strlit("c");
        reveal_strlit("d");
        reveal_strlit("e");
        reveal_strlit("f");
    }
    assert(r@ =~= seq![hex_digit(d as nat)]);
    r
}

/// Lowercase hex of `b`.
pub fn to_lower_hex(b: &[u8]) -> (r: String)
    ensures
        r@ == lower_hex(b@),
{
    let mut out = String::new();
    let mut i: usize = 0;
    while i < b.len()
        invariant
            i <= b@.len(),
            out@ == lower_hex(b@.subrange(0, i as int)),
        decreases b@.len() - i,
    {
        let x = b[i];
        let hi = concat(out.as_str(), hex_digit_str(x / 16));
        out = concat(hi.as_str(), hex_digit_str(x % 16));
        proof {
            let s = b@.subrange(0, i + 1);
            assert(s.drop_last() =~= b@.subrange(0, i as int));
            assert(out@ =~= lower_hex(s));
        }
        i = i + 1;
    }
    assert(b@.subrange(0, b@.len() as int) =~= b@);
    out
}

/// The bytes hashed for a sorted bucket.
fn feed_bytes(list: &Vec<&str>) -> (r: Vec<u8>)
    ensures
        r@ == feed(views_of(list@)),
{
    let mut out: Vec<u8> = Vec::new();
    let mut i: usize = 0;
    while i < list.len()
        invariant
            i <= list@.len(),
            out@ == feed(views_of(list@.subrange(0, i as int))),
        decreases list@.len() - i,
    {
        let b = bytes(list[i]);
        let ghost before = out@;
        let mut j: usize = 0;
        while j < b.len()
            invariant
                j <= b@.len(),
                out@ == before + b@.subrange(0, j as int),
            decreases b@.len() - j,
        {
            out.push(b[j]);
            proof {
                assert(out@ =~= before + b@.subrange(0, j + 1));
            }
            j = j + 1;
        }
        out.push(10u8);
        proof {
            let s = views_of(list@.subrange(0, i + 1));
            assert(s.drop_last() =~= views_of(list@.subrange(0, i as int)));
            assert(b@.subrange(0, b@.len() as int) =~= b@);
            assert(out@ =~= feed(s));
        }
        i = i + 1;
    }
    assert(list@.subrange(0, list@.len() as int) =~= list@);
    out
}

/// Insert `x` into the ascending list `list`, keeping it ascending.
fn insert_sorted<'a>(list: &mut Vec<&'a str>, x: &'a str)
    requires
        sorted_by(views_of(old(list)@), str_order()),
    ensures
        sorted_by(views_of(final(list)@), str_order()),
        views_of(final(list)@).to_multiset() == views_of(old(list)@).to_multiset().insert(x@),
{
    let ghost v0 = views_of(list@);
    let mut p: usize = 0;
    while p < list.len() && str_le_exec(list[p], x)
        invariant
            p <= list@.len(),
            v0 == views_of(list@),
            forall|j: int| 0 <= j < p ==> str_le(#[trigger] list@[j]@, x@),
        decreases list@.len() - p,
    {
        p = p + 1;
    }
    list.insert(p, x);
    proof {
        let v1 = views_of(list@);
        assert(v1 =~= v0.insert(p as int, x@));
        assert forall|a: int, b: int| 0 <= a < b < v1.len() implies #[trigger] str_order()(v1[a], v1[b]) by {
            if p < v0.len() {
                lemma_str_le_total(v0[p as int], x@);
            }
            if b < p {
                assert(str_order()(v0[a], v0[b]));
            } else if b == p {
                assert(str_le(v0[a], x@));
            } else if a < p {
                assert(str_le(v0[a], x@));
                if b - 1 > p {
                    assert(str_order()(v0[p as int], v0[b - 1]));
                    lemma_str_le_trans(x@, v0[p as int], v0[b - 1]);
                }
                lemma_str_le_trans(v0[a], x@, v0[b - 1]);
            } else if a == p {
                if b - 1 > p {
                    assert(str_order()(v0[p as int], v0[b - 1]));
                    lemma_str_le_trans(x@, v0[p as int], v0[b - 1]);
                }
            } else {
                assert(str_order()(v0[a - 1], v0[b - 1]));
            }
        }
    }
}

/// bucket (first two bytes) → lowercase hex SHA-256 of the bucket's sorted ids.
pub fn bucket_hashes(ids: &[&str]) -> (r: StrMap<String>)
    requires
        buckets_splittable(ids@),
    ensures
        forall|b: Seq<char>| #[trigger] r.map().dom().contains(b) <==> bucketed(id_multiset(ids@), b).len() > 0,
        forall|b: Seq<char>| #[trigger] r.map().dom().contains(b) ==> r.map()[b]@ == bucket_digest(id_multiset(ids@), b),
{
    let mut buckets: StrMap<Vec<&str>> = StrMap::new();
    let mut i: usize = 0;
    proof {
        assert(views_of(ids@.subrange(0, 0)) =~= Seq::<Seq<char>>::empty());
        assert(id_multiset(ids@.subrange(0, 0)) =~= Multiset::empty());
        assert forall|b: Seq<char>| #[trigger] buckets.map().dom().contains(b)
            <==> bucketed(id_multiset(ids@.subrange(0, 0)), b).len() > 0 by {
            assert(bucketed(id_multiset(ids@.subrange(0, 0)), b) =~= Multiset::empty());
        }
    }
    while i < ids.len()
        invariant
            i <= ids@.len(),
            buckets_splittable(ids@),
            forall|b: Seq<char>| #[trigger] buckets.map().dom().contains(b)
                <==> bucketed(id_multiset(ids@.subrange(0, i as int)), b).len() > 0,
            forall|b: Seq<char>| #[trigger] buckets.map().dom().contains(b) ==> sorted_by(views_of(buckets.map()[b]@), str_order())
                && views_of(buckets.map()[b]@).to_multiset() == bucketed(id_multiset(ids@.subrange(0, i as int)), b),
        decreases ids@.len() - i,
    {
        let id = ids[i];
        let ghost before = id_multiset(ids@.subrange(0, i as int));
        let ghost after = id_multiset(ids@.subrange(0, i + 1));
        proof {
            assert(views_of(ids@.subrange(0, i + 1)) =~= views_of(ids@.subrange(0, i as int)).push(id@));
            assert(after =~= before.insert(id@));
        }
        if bytes(id).len() < 2 {
            proof {
                assert forall|b: Seq<char>| #[trigger] bucketed(after, b) =~= bucketed(before, b) by {}
            }
        } else {
            let (b, _) = id.split_at(2);
            assert(bytes_of(b@) =~= bytes_of(id@).subrange(0, 2));
            assert(b@ == bucket_of(id@));
            let ghost buckets0 = buckets.map();
            let mut list = match buckets.remove(b) {
                Some(l) => l,
                None => Vec::new(),
            };
            proof {
                if !buckets0.dom().contains(b@) {
                    assert(views_of(list@) =~= Seq::<Seq<char>>::empty());
                    assert(bucketed(before, b@) =~= Multiset::empty()) by {
                        assert(bucketed(before, b@).len() == 0);
                    }
                }
            }
            insert_sorted(&mut list, id);
            buckets.insert(b.to_owned(), list);
            proof {
                assert forall|c: Seq<char>| #[trigger] bucketed(after, c) =~= if c == b@ {
                    bucketed(before, c).insert(id@)
                } else {
                    bucketed(before, c)
                } by {}
            }
        }
        i = i + 1;
    }
    assert(ids@.subrange(0, ids@.len() as int) =~= ids@);
    let ghost ms = id_multiset(ids@);
    let mut out: StrMap<String> = StrMap::new();
    let n = buckets.len();
    let mut j: usize = 0;
    while j < n
        invariant
            j <= n,
            n == buckets.pairs().len(),
            strictly_sorted(buckets.pairs()),
            ms == id_multiset(ids@),
            forall|b: Seq<char>| #[trigger] buckets.map().dom().contains(b) <==> bucketed(ms, b).len() > 0,
            forall|b: Seq<char>| #[trigger] buckets.map().dom().contains(b) ==> sorted_by(views_of(buckets.map()[b]@), str_order())
                && views_of(buckets.map()[b]@).to_multiset() == bucketed(ms, b),
            forall|b: Seq<char>| #[trigger] out.map().dom().contains(b) <==> exists|k: int| 0 <= k < j && buckets.pairs()[k].0 == b,
            forall|b: Seq<char>| #[trigger] out.map().dom().contains(b) ==> out.map()[b]@ == bucket_digest(ms, b),
        decreases n - j,
    {
        let k = buckets.key_at(j);
        let list = buckets.value_at(j);
        proof {
            lemma_pairs_map_at(buckets.pairs(), j as int);
            assert(buckets.map().dom().contains(k@));
            assert(buckets.map()[k@] == *list);
            lemma_in_order_unique(views_of(list@), bucketed(ms, k@));
        }
        let data = feed_bytes(list);
        let digest = sha256_digest(data.as_slice());
        let hex = to_lower_hex(digest.as_slice());
        out.insert(copy_string(k), hex);
        proof {
            assert forall|b: Seq<char>| #[trigger] out.map().dom().contains(b) <==> exists|t: int| 0 <= t < j + 1 && buckets.pairs()[t].0 == b by {
                if b == k@ {
                    assert(buckets.pairs()[j as int].0 == b);
                }
            }
        }
        j = j + 1;
    }
    proof {
        lemma_pairs_map_all(buckets.pairs());
        assert forall|b: Seq<char>| #[trigger] out.map().dom().contains(b) <==> buckets.map().dom().contains(b) by {
            if out.map().dom().contains(b) {
                let t = choose|t: int| 0 <= t < n && buckets.pairs()[t].0 == b;
                assert(buckets.map().dom().contains(buckets.pairs()[t].0));
            }
        }
    }
    out
}

/// Bucket hashes depend only on which ids there are, not on their order:
/// two id lists holding the same ids give the same buckets and digests.
pub proof fn law_bucket_hashes_order_independent(a: Seq<&str>, b: Seq<&str>)
    requires
        id_multiset(a) == id_multiset(b),
    ensures
        forall|k: Seq<char>| #[trigger] bucketed(id_multiset(a), k) == bucketed(id_multiset(b), k),
        forall|k: Seq<char>| #[trigger] bucket_digest(id_multiset(a), k) == bucket_digest(id_multiset(b), k),
{
}

} // verus!
