//! Rendering: the human one-line form of a task.

use vstd::prelude::*;
use vstd::utf8::{decode_utf8, is_char_boundary};

use crate::entities::{priority_label, Task};
use crate::ids::{join, joined, short_id, short_id_slices_ok, short_id_text, MIN_SHORT};
use crate::materialize::{claim_live_at, ttl_representable, Instant, World};
use crate::resolve::{resolution_label, status_label, Resolution, ResolvedStatus};
use crate::text::{bytes, bytes_of, concat};

verus! {

broadcast use {vstd::utf8::encode_utf8_decode_utf8, vstd::utf8::encode_utf8_valid_utf8};

/// A close of the task that exists on other ancestry: its anchor commit,
/// when it was made, by whom, and the branches that contain it.
#[derive(Debug, Clone)]
pub struct ElsewhereClose {
    pub anchor: String,
    pub at: String,
    pub by: String,
    pub branches: Vec<String>,
}

/// The first eight bytes of `s` (all of it when shorter).
pub open spec fn head8(s: Seq<char>) -> Seq<char> {
    if bytes_of(s).len() <= 8 {
        s
    } else {
        decode_utf8(bytes_of(s).subrange(0, 8))
    }
}

/// `s` can be cut after its eighth byte.
pub open spec fn cuttable8(s: Seq<char>) -> bool {
    bytes_of(s).len() <= 8 || is_char_boundary(bytes_of(s), 8)
}

/// The first eight bytes of `s`.
fn first8(s: &str) -> (r: &str)
    requires
        cuttable8(s@),
    ensures
        r@ == head8(s@),
{
    if bytes(s).len() <= 8 {
        s
    } else {
        let (p, _) = s.split_at(8);
        assert(bytes_of(p@) =~= bytes_of(s@).subrange(0, 8));
        assert(p@ == decode_utf8(bytes_of(s@).subrange(0, 8)));
        p
    }
}

/// The hint text for a fix that exists on other ancestry.
pub open spec fn hint_text(e: ElsewhereClose) -> Seq<char> {
    let place = if e.branches@.len() == 0 {
        "@ "@ + head8(e.anchor@)
    } else {
        "on "@ + joined(e.branches@, ", "@) + " @ "@ + head8(e.anchor@)
    };
    "fix exists "@ + place
}

/// One-line human hint for a fix that exists on other ancestry.
pub fn elsewhere_hint(elsewhere: &[ElsewhereClose]) -> (r: Option<String>)
    requires
        elsewhere@.len() > 0 ==> cuttable8(elsewhere@[0].anchor@),
    ensures
        r.is_some() == (elsewhere@.len() > 0),
        r.is_some() ==> r.unwrap()@ == hint_text(elsewhere@[0]),
{
    if elsewhere.len() == 0 {
        return None;
    }
    let first = &elsewhere[0];
    let a8 = first8(first.anchor.as_str());
    let place = if first.branches.len() == 0 {
        concat("@ ", a8)
    } else {
        let j = join(&first.branches, ", ");
        let a = concat("on ", j.as_str());
        let b = concat(a.as_str(), " @ ");
        concat(b.as_str(), a8)
    };
    Some(concat("fix exists ", place.as_str()))
}

/// `n` spaces.
pub open spec fn spaces(n: nat) -> Seq<char>
    decreases n,
{
    if n == 0 {
        Seq::empty()
    } else {
        spaces((n - 1) as nat).push(' ')
    }
}

/// `s` left-aligned in a field `width` characters wide (`{:<width}`).
pub open spec fn padded(s: Seq<char>, width: nat) -> Seq<char> {
    if s.len() >= width {
        s
    } else {
        s + spaces((width - s.len()) as nat)
    }
}

/// `s` left-aligned in a field `width` characters wide.
fn pad_right(s: &str, width: usize) -> (r: String)
    ensures
        r@ == padded(s@, width as nat),
{
    proof {
        reveal_strlit(" ");
    }
    let n = s.unicode_len();
    let mut out = s.to_owned();
    let mut k: usize = n;
    while k < width
        invariant
            n == s@.len(),
            n <= k <= width || (n > width && k == n),
            out@ == s@ + spaces((k - n) as nat),
        decreases width - k,
    {
        out = concat(out.as_str(), " ");
        proof {
            reveal_strlit(" ");
            assert(" "@ =~= seq![' ']);
            assert(spaces((k + 1 - n) as nat) == spaces((k - n) as nat).push(' '));
            assert(out@ =~= s@ + spaces((k + 1 - n) as nat));
        }
        k = k + 1;
    }
    proof {
        if n >= width {
            assert(out@ =~= s@);
        }
    }
    out
}

/// The human one-line form of a task: short id, priority, status and title,
/// then its labels, its live claim, a partial-resolution warning and where
/// else it is fixed.
pub open spec fn task_line_text(
    w: World,
    t: Task,
    st: ResolvedStatus,
    now: Instant,
    hint: Option<Seq<char>>,
) -> Seq<char> {
    let id = t.id@;
    let head = padded(short_id_text(w.tasks.key_seq(), id), 12) + " "@ + padded(priority_label(t.priority), 2) + " "@
        + padded(status_label(st.status), 7) + " "@ + t.title@;
    let labels = if t.labels@.len() == 0 {
        Seq::empty()
    } else {
        "  ["@ + joined(t.labels@, ", "@) + "]"@
    };
    let claim = if w.claims.map().dom().contains(id) && claim_live_at(w.claims.map()[id], now) {
        "  (claimed by "@ + w.claims.map()[id].dev@ + ")"@
    } else {
        Seq::empty()
    };
    let partial = if st.resolution == Resolution::Partial {
        "  ⚠ unknown anchor"@
    } else {
        Seq::empty()
    };
    let elsewhere = match hint {
        Some(h) => "  ("@ + h + " — consider merging)"@,
        None => Seq::empty(),
    };
    head + labels + claim + partial + elsewhere
}

/// The human one-line form of a task.
pub fn task_line(world: &World, task: &Task, status: &ResolvedStatus, now: Instant, elsewhere: &[ElsewhereClose]) -> (r: String)
    requires
        short_id_slices_ok(world.tasks.key_seq(), task.id@, MIN_SHORT as nat),
        world.claims.map().dom().contains(task.id@) ==> ttl_representable(world.claims.map()[task.id@]),
        elsewhere@.len() > 0 ==> cuttable8(elsewhere@[0].anchor@),
    ensures
        r@ == task_line_text(*world, *task, *status, now, if elsewhere@.len() > 0 {
            Some(hint_text(elsewhere@[0]))
        } else {
            None
        }),
{
    let id = task.id.as_str();
    let sid = short_id(world, id);
    let a = pad_right(sid.as_str(), 12);
    let b = concat(a.as_str(), " ");
    let c = concat(b.as_str(), pad_right(task.priority.label(), 2).as_str());
    let d = concat(c.as_str(), " ");
    let e = concat(d.as_str(), pad_right(status.status.label(), 7).as_str());
    let f = concat(e.as_str(), " ");
    let mut line = concat(f.as_str(), task.title.as_str());
    if task.labels.len() > 0 {
        let j = join(&task.labels, ", ");
        let l1 = concat("  [", j.as_str());
        let l2 = concat(l1.as_str(), "]");
        line = concat(line.as_str(), l2.as_str());
    } else {
        line = concat(line.as_str(), "");
        proof {
            reveal_strlit("");
        }
    }
    let ghost after_labels = line@;
    match world.live_claim(id, now) {
        Some(c) => {
            let c1 = concat("  (claimed by ", c.dev.as_str());
            let c2 = concat(c1.as_str(), ")");
            line = concat(line.as_str(), c2.as_str());
        },
        None => {
            line = concat(line.as_str(), "");
            proof {
                reveal_strlit("");
            }
        },
    }
    if status.resolution == Resolution::Partial {
        line = concat(line.as_str(), "  ⚠ unknown anchor");
    } else {
        line = concat(line.as_str(), "");
        proof {
            reveal_strlit("");
        }
    }
    match elsewhere_hint(elsewhere) {
        Some(h) => {
            let h1 = concat("  (", h.as_str());
            let h2 = concat(h1.as_str(), " — consider merging)");
            line = concat(line.as_str(), h2.as_str());
        },
        None => {
            line = concat(line.as_str(), "");
            proof {
                reveal_strlit("");
            }
        },
    }
    proof {
        let exp = task_line_text(*world, *task, *status, now, if elsewhere@.len() > 0 {
            Some(hint_text(elsewhere@[0]))
        } else {
            None
        });
        assert(line@ =~= exp);
    }
    line
}

} // verus!
