//! The hub's front door: who may open the `/myko` WebSocket. Token sources,
//! in order: the `?token=` query parameter (the CLI's transport appends it),
//! `Authorization: Bearer`, and the `levi_token` cookie (set by the
//! dashboard so the browser's upgrade request carries it).

use vstd::prelude::*;

use crate::text::str_eq;
use vstd::string::StrSliceExecFns;

verus! {

/// Unicode White_Space, as `char::is_whitespace` and `str::trim` use it.
pub open spec fn is_white(c: char) -> bool {
    ||| '\u{9}' <= c <= '\u{d}'
    ||| c == ' '
    ||| c == '\u{85}'
    ||| c == '\u{a0}'
    ||| c == '\u{1680}'
    ||| '\u{2000}' <= c <= '\u{200a}'
    ||| c == '\u{2028}'
    ||| c == '\u{2029}'
    ||| c == '\u{202f}'
    ||| c == '\u{205f}'
    ||| c == '\u{3000}'
}

fn is_white_exec(c: char) -> (r: bool)
    ensures
        r == is_white(c),
{
    ('\u{9}' <= c && c <= '\u{d}') || c == ' ' || c == '\u{85}' || c == '\u{a0}' || c == '\u{1680}'
        || ('\u{2000}' <= c && c <= '\u{200a}') || c == '\u{2028}' || c == '\u{2029}' || c == '\u{202f}'
        || c == '\u{205f}' || c == '\u{3000}'
}

/// `s` without leading whitespace.
pub open spec fn trim_start_ws(s: Seq<char>) -> Seq<char>
    decreases s.len(),
{
    if s.len() > 0 && is_white(s[0]) {
        trim_start_ws(s.drop_first())
    } else {
        s
    }
}

/// `s` without trailing whitespace.
pub open spec fn trim_end_ws(s: Seq<char>) -> Seq<char>
    decreases s.len(),
{
    if s.len() > 0 && is_white(s.last()) {
        trim_end_ws(s.drop_last())
    } else {
        s
    }
}

/// `s` without surrounding whitespace (`str::trim`).
pub open spec fn trim_ws(s: Seq<char>) -> Seq<char> {
    trim_end_ws(trim_start_ws(s))
}

/// The pieces of `s` between occurrences of `c` (`str::split`).
pub open spec fn split_at_char(s: Seq<char>, c: char) -> Seq<Seq<char>>
    decreases s.len(),
{
    if s.len() == 0 {
        seq![Seq::empty()]
    } else {
        let p = split_at_char(s.drop_last(), c);
        if s.last() == c {
            p.push(Seq::empty())
        } else {
            p.update(p.len() - 1, p.last().push(s.last()))
        }
    }
}

proof fn lemma_split_nonempty(s: Seq<char>, c: char)
    ensures
        split_at_char(s, c).len() > 0,
    decreases s.len(),
{
    if s.len() > 0 {
        lemma_split_nonempty(s.drop_last(), c);
    }
}

/// A cookie piece `levi_token=<expected>`, once trimmed.
pub open spec fn token_cookie(piece: Seq<char>, expected: Seq<char>) -> bool {
    trim_ws(piece) == "levi_token="@ + expected
}

/// Some `;`-separated piece of the cookie header, trimmed, reads
/// `levi_token=<expected>`.
pub open spec fn cookie_carries(c: Seq<char>, e: Seq<char>) -> bool {
    exists|i: int| 0 <= i < split_at_char(c, ';').len() && #[trigger] token_cookie(split_at_char(c, ';')[i], e)
}

/// Whether a request carrying these credentials may open the socket.
pub open spec fn authorized_spec(
    expected: Option<Seq<char>>,
    query_token: Option<Seq<char>>,
    authorization: Option<Seq<char>>,
    cookie: Option<Seq<char>>,
) -> bool {
    match expected {
        None => true,
        Some(e) => {
            let by_query = query_token == Some(e);
            let by_bearer = match authorization {
                Some(a) => a == "Bearer "@ + e,
                None => false,
            };
            let by_cookie = match cookie {
                Some(c) => cookie_carries(c, e),
                None => false,
            };
            by_query || by_bearer || by_cookie
        },
    }
}

/// The chars of `s`.
fn chars_vec(s: &str) -> (r: Vec<char>)
    ensures
        r@ == s@,
{
    let mut out: Vec<char> = Vec::new();
    for c in it: s.chars()
        invariant
            it.seq() == s@,
            out@ == it.seq().take(it.index() as int),
    {
        proof {
            assert(it.seq().take(it.index() + 1) =~= it.seq().take(it.index() as int).push(c));
        }
        out.push(c);
    }
    assert(s@.take(s@.len() as int) =~= s@);
    out
}

proof fn lemma_trim_start_skip(s: Seq<char>, a: int)
    requires
        0 <= a <= s.len(),
        forall|j: int| 0 <= j < a ==> is_white(#[trigger] s[j]),
    ensures
        trim_start_ws(s) == trim_start_ws(s.subrange(a, s.len() as int)),
    decreases a,
{
    if a > 0 {
        lemma_trim_start_skip(s.drop_first(), a - 1);
        assert(s.drop_first().subrange(a - 1, s.len() - 1) =~= s.subrange(a, s.len() as int));
    } else {
        assert(s.subrange(0, s.len() as int) =~= s);
    }
}

proof fn lemma_trim_end_skip(s: Seq<char>, b: int)
    requires
        0 <= b <= s.len(),
        forall|j: int| b <= j < s.len() ==> is_white(#[trigger] s[j]),
    ensures
        trim_end_ws(s) == trim_end_ws(s.subrange(0, b)),
    decreases s.len() - b,
{
    if b < s.len() {
        lemma_trim_end_skip(s.drop_last(), b);
        assert(s.drop_last().subrange(0, b) =~= s.subrange(0, b));
    } else {
        assert(s.subrange(0, b) =~= s);
    }
}

/// `s` without surrounding whitespace (`str::trim`).
pub fn trim_str(s: &str) -> (r: String)
    ensures
        r@ == trim_ws(s@),
{
    let cs = chars_vec(s);
    let n = cs.len();
    let mut a: usize = 0;
    while a < n && is_white_exec(cs[a])
        invariant
            a <= n,
            n == cs@.len(),
            forall|j: int| 0 <= j < a ==> is_white(#[trigger] cs@[j]),
        decreases n - a,
    {
        a = a + 1;
    }
    let mut b: usize = n;
    while b > a && is_white_exec(cs[b - 1])
        invariant
            a <= b <= n,
            n == cs@.len(),
            forall|j: int| b <= j < n ==> is_white(#[trigger] cs@[j]),
        decreases b,
    {
        b = b - 1;
    }
    proof {
        lemma_trim_start_skip(cs@, a as int);
        let rest = cs@.subrange(a as int, n as int);
        if a < n {
            assert(!is_white(rest[0]));
        }
        assert forall|j: int| b - a <= j < rest.len() implies is_white(#[trigger] rest[j]) by {
            assert(rest[j] == cs@[a + j]);
        }
        lemma_trim_end_skip(rest, b - a);
        assert(rest.subrange(0, b - a) =~= cs@.subrange(a as int, b as int));
        if b > a {
            assert(!is_white(cs@.subrange(a as int, b as int).last()));
        }
    }
    s.substring_char(a, b).to_owned()
}

/// Whether the trimmed piece `s[from..to]` reads `levi_token=<expected>`.
fn piece_is_token(s: &Vec<char>, from: usize, to: usize, want: &Vec<char>) -> (r: bool)
    requires
        from <= to <= s@.len(),
    ensures
        r == (trim_ws(s@.subrange(from as int, to as int)) == want@),
{
    let ghost piece = s@.subrange(from as int, to as int);
    let mut a = from;
    while a < to && is_white_exec(s[a])
        invariant
            from <= a <= to <= s@.len(),
            forall|j: int| from <= j < a ==> is_white(#[trigger] s@[j]),
        decreases to - a,
    {
        a = a + 1;
    }
    let mut b = to;
    while b > a && is_white_exec(s[b - 1])
        invariant
            a <= b <= to <= s@.len(),
            forall|j: int| b <= j < to ==> is_white(#[trigger] s@[j]),
        decreases b,
    {
        b = b - 1;
    }
    let ghost core = s@.subrange(a as int, b as int);
    proof {
        assert forall|j: int| 0 <= j < a - from implies is_white(#[trigger] piece[j]) by {
            assert(piece[j] == s@[from + j]);
        }
        lemma_trim_start_skip(piece, a - from);
        let rest = piece.subrange(a - from, piece.len() as int);
        assert(rest =~= s@.subrange(a as int, to as int));
        if a < to {
            assert(!is_white(rest[0]));
        }
        assert forall|j: int| b - a <= j < rest.len() implies is_white(#[trigger] rest[j]) by {
            assert(rest[j] == s@[a + j]);
        }
        lemma_trim_end_skip(rest, b - a);
        assert(rest.subrange(0, b - a) =~= core);
        if b > a {
            assert(!is_white(core.last()));
        }
        assert(trim_ws(piece) == core);
    }
    if b - a != want.len() {
        assert(core.len() != want@.len());
        return false;
    }
    let mut k: usize = 0;
    while k < want.len()
        invariant
            k <= want@.len(),
            b - a == want@.len(),
            a <= b <= s@.len(),
            from <= to <= s@.len(),
            core == s@.subrange(a as int, b as int),
            trim_ws(s@.subrange(from as int, to as int)) == core,
            forall|t: int| 0 <= t < k ==> s@[a + t] == want@[t],
        decreases want@.len() - k,
    {
        if s[a + k] != want[k] {
            assert(s@.subrange(a as int, b as int)[k as int] != want@[k as int]);
            return false;
        }
        k = k + 1;
    }
    assert(s@.subrange(a as int, b as int) =~= want@);
    true
}

/// Some `;`-separated piece of the cookie header, trimmed, reads
/// `levi_token=<expected>`.
fn cookie_has_token(cookie: &str, expected: &str) -> (r: bool)
    ensures
        r == cookie_carries(cookie@, expected@),
{
    let s = chars_vec(cookie);
    let prefix = chars_vec("levi_token=");
    let exp = chars_vec(expected);
    let mut want = prefix;
    let mut t: usize = 0;
    let ghost p0 = want@;
    while t < exp.len()
        invariant
            t <= exp@.len(),
            want@ == p0 + exp@.subrange(0, t as int),
        decreases exp@.len() - t,
    {
        want.push(exp[t]);
        proof {
            assert(want@ =~= p0 + exp@.subrange(0, t + 1));
        }
        t = t + 1;
    }
    assert(want@ =~= "levi_token="@ + expected@);
    let n = s.len();
    let mut start: usize = 0;
    let mut i: usize = 0;
    proof {
        assert(s@.subrange(0, 0) =~= Seq::<char>::empty());
        assert(split_at_char(Seq::<char>::empty(), ';') =~= seq![Seq::<char>::empty()]);
    }
    while i < n
        invariant
            n == s@.len(),
            s@ == cookie@,
            start <= i <= n,
            want@ == "levi_token="@ + expected@,
            split_at_char(s@.subrange(0, i as int), ';').len() > 0,
            split_at_char(s@.subrange(0, i as int), ';').last() == s@.subrange(start as int, i as int),
            forall|k: int| 0 <= k < split_at_char(s@.subrange(0, i as int), ';').len() - 1
                ==> !token_cookie(#[trigger] split_at_char(s@.subrange(0, i as int), ';')[k], expected@),
        decreases n - i,
    {
        let ghost pre = s@.subrange(0, i as int);
        let ghost post = s@.subrange(0, i + 1);
        proof {
            assert(post.drop_last() =~= pre);
            assert(post.last() == s@[i as int]);
        }
        if s[i] == ';' {
            if piece_is_token(&s, start, i, &want) {
                proof {
                    let sp = split_at_char(post, ';');
                    let k = split_at_char(pre, ';').len() - 1;
                    assert(sp[k] == split_at_char(pre, ';')[k]);
                    assert(token_cookie(sp[k], expected@));
                    lemma_split_prefix_pieces(s@, (i + 1) as int, k);
                    assert(token_cookie(split_at_char(cookie@, ';')[k], expected@));
                }
                return true;
            }
            start = i + 1;
            proof {
                assert(s@.subrange(start as int, (i + 1) as int) =~= Seq::<char>::empty());
            }
        } else {
            proof {
                assert(s@.subrange(start as int, i + 1) =~= s@.subrange(start as int, i as int).push(s@[i as int]));
            }
        }
        i = i + 1;
    }
    assert(s@.subrange(0, n as int) =~= s@);
    let last = piece_is_token(&s, start, n, &want);
    proof {
        let sp = split_at_char(s@, ';');
        if last {
            assert(token_cookie(sp[sp.len() - 1], expected@));
        } else {
            assert forall|k: int| 0 <= k < sp.len() implies !#[trigger] token_cookie(sp[k], expected@) by {}
        }
    }
    last
}

proof fn lemma_split_step(s: Seq<char>, m: int, k: int)
    requires
        0 <= m < s.len(),
        0 <= k < split_at_char(s.subrange(0, m), ';').len() - 1,
    ensures
        split_at_char(s.subrange(0, m + 1), ';').len() >= split_at_char(s.subrange(0, m), ';').len(),
        split_at_char(s.subrange(0, m + 1), ';')[k] == split_at_char(s.subrange(0, m), ';')[k],
{
    assert(s.subrange(0, m + 1).drop_last() =~= s.subrange(0, m));
}

/// The pieces of a prefix stay pieces of the whole.
proof fn lemma_split_prefix_pieces(s: Seq<char>, m: int, k: int)
    requires
        0 <= m <= s.len(),
        0 <= k < split_at_char(s.subrange(0, m), ';').len() - 1,
    ensures
        k < split_at_char(s, ';').len(),
        split_at_char(s, ';')[k] == split_at_char(s.subrange(0, m), ';')[k],
    decreases s.len() - m,
{
    if m < s.len() {
        lemma_split_step(s, m, k);
        lemma_split_prefix_pieces(s, m + 1, k);
    } else {
        assert(s.subrange(0, m) =~= s);
    }
}

/// Whether a request may open the socket: always when no token is set;
/// else when the query token, the bearer token or the `levi_token` cookie
/// matches it.
pub fn authorized(expected: Option<&str>, query_token: Option<&str>, authorization: Option<&str>, cookie: Option<&str>) -> (r: bool)
    ensures
        r == authorized_spec(
            crate::crossproject::opt_view(expected),
            crate::crossproject::opt_view(query_token),
            crate::crossproject::opt_view(authorization),
            crate::crossproject::opt_view(cookie),
        ),
{
    let e = match expected {
        Some(e) => e,
        None => return true,
    };
    if let Some(q) = query_token {
        if str_eq(q, e) {
            return true;
        }
    }
    if let Some(a) = authorization {
        let want = crate::text::concat("Bearer ", e);
        if str_eq(a, want.as_str()) {
            return true;
        }
    }
    if let Some(c) = cookie {
        if cookie_has_token(c, e) {
            return true;
        }
    }
    false
}

} // verus!
