//! The agent-instruction block that `levi init` and `levi onboard` keep in
//! the agent instruction files (AGENTS.md and the like). The block is delimited by markers and replaced in
//! place on re-runs, so setup is idempotent.

use vstd::prelude::*;
use vstd::string::StrSliceExecFns;

use crate::text::{concat, copy_string};

verus! {

/// Opens the instruction block.
pub const BEGIN: &'static str = "<!-- levi:begin -->";

/// Closes the instruction block.
pub const END: &'static str = "<!-- levi:end -->";

/// The text between the markers, as `levi init` writes it.
pub const INIT_BODY: &'static str = "\n\
## Task tracking (levi)\n\
\n\
This repo tracks tasks with levi, a git-aware issue tracker. State lives in\n\
the repo itself (`refs/levi/events`); status is resolved against git\n\
ancestry, so a task closed at commit X counts as closed only on checkouts\n\
that contain X. Every read command takes `--json` (stable schemas) — prefer\n\
it when parsing.\n\
\n\
- **Pick work**: `levi next --claim --json` returns the most important\n\
  eligible task, claims it for this dev/machine/worktree (so parallel agents\n\
  never grab the same task), and tells you why it ranked first. If you stop\n\
  working on a task, release it: `levi drop <id>`.\n\
- **Inspect**: `levi ls --json` (open on this checkout), `levi show <id>\n\
  --json` (body, deps, claim, comments, status history).\n\
- **Create**: `levi add \"title\" [-p p0..p3] [-b body] [-l label]\n\
  [--dep <blocker-id>]` — file follow-ups you discover instead of fixing\n\
  drive-by; link blockers with `--dep`/`levi dep add`.\n\
- **Complete**: commit the work first, then `levi close <id>` — the close\n\
  anchors at HEAD, so it only applies where the fixing commit exists\n\
  (feature-branch closes stay open on main until merged; that is correct).\n\
  `--no-anchor` is only for tasks unrelated to code state.\n\
- **CI**: `levi check-claims --git-ref <branch>` fails unless every task\n\
  claimed by that branch is closed in the tested HEAD ancestry.\n\
- **Reopen** regressions with `levi reopen <id>`; leave context with\n\
  `levi comment <id> \"text\"`.\n\
- Sync is opportunistic after every mutation; `levi sync` forces a full\n\
  git-remote + hub exchange.\n\
- **Cross-project**: file upstream bugs with `levi add --project <name>\n\
  \"title\"`; link with `levi dep add <id> --on <project>/lv-xxxx --via\n\
  \"<how this repo consumes that project>\"`. When a foreign blocker\n\
  closes, verify the fix is actually reachable through the `via`\n\
  mechanism (published release, updated pin, ...) before starting work.\n\
";

/// The text between the markers, as `levi onboard` writes it.
pub const ONBOARD_BODY: &'static str = "\n\
## Task tracking (levi)\n\
\n\
This repo tracks tasks with levi, a git-aware issue tracker. State lives in\n\
the repo itself (`refs/levi/events`); status is resolved against git\n\
ancestry, so a task closed at commit X counts as closed only on checkouts\n\
that contain X. Every read command takes `--json` (stable schemas) — prefer\n\
it when parsing.\n\
\n\
- **Pick work**: `levi next --claim --json` returns the most important\n\
  eligible task, claims it for this dev/machine/worktree (so parallel agents\n\
  never grab the same task), and tells you why it ranked first. If you stop\n\
  working on a task, release it: `levi drop <id>`.\n\
- **Inspect**: `levi ls --json` (open on this checkout), `levi show <id>\n\
  --json` (body, deps, claim, comments, status history).\n\
- **Create**: `levi add \"title\" [-p p0..p3] [-b body] [-l label]\n\
  [--dep <blocker-id>]` — file follow-ups you discover instead of fixing\n\
  drive-by; link blockers with `--dep`/`levi dep add`.\n\
- **Complete**: commit the work first, then `levi close <id>` — the close\n\
  anchors at HEAD, so it only applies where the fixing commit exists\n\
  (feature-branch closes stay open on main until merged; that is correct).\n\
  `--no-anchor` is only for tasks unrelated to code state.\n\
- **Reopen** regressions with `levi reopen <id>`; leave context with\n\
  `levi comment <id> \"text\"`.\n\
- Sync is opportunistic after every mutation; `levi sync` forces a full\n\
  git-remote + hub exchange.\n\
- **Cross-project**: file upstream bugs with `levi add --project <name>\n\
  \"title\"`; link with `levi dep add <id> --on <project>/lv-xxxx --via\n\
  \"<how this repo consumes that project>\"`. When a foreign blocker\n\
  closes, verify the fix is actually reachable through the `via`\n\
  mechanism (published release, updated pin, ...) before starting work.\n\
";

/// The instruction block `levi init` writes.
pub fn init_instructions() -> (r: String)
    ensures
        r@ == BEGIN@ + INIT_BODY@ + END@,
{
    let a = concat(BEGIN, INIT_BODY);
    concat(a.as_str(), END)
}

/// The instruction block `levi onboard` writes.
pub fn onboard_instructions() -> (r: String)
    ensures
        r@ == BEGIN@ + ONBOARD_BODY@ + END@,
{
    let a = concat(BEGIN, ONBOARD_BODY);
    concat(a.as_str(), END)
}

/// `p` occurs in `s` at `i`.
pub open spec fn occurs_at(s: Seq<char>, p: Seq<char>, i: int) -> bool {
    0 <= i && i + p.len() <= s.len() && s.subrange(i, i + p.len()) == p
}

/// Where `p` first occurs in `s`.
#[verifier::opaque]
pub open spec fn find_first(s: Seq<char>, p: Seq<char>) -> Option<int> {
    if exists|i: int| #[trigger] occurs_at(s, p, i) {
        Some(choose|i: int| #[trigger] occurs_at(s, p, i) && forall|j: int| 0 <= j < i ==> !occurs_at(s, p, j))
    } else {
        None
    }
}

/// Why a file's instruction block cannot be updated.
#[derive(Debug, Clone, PartialEq, Eq)]
pub enum BlockError {
    /// The markers are missing one of the pair, or out of order.
    BrokenMarkers,
}

/// The file's contents with the instruction block set to `block`: an
/// existing block is replaced in place; a file with no markers gets the
/// block appended after a blank line (an empty file gets just the block);
/// markers that do not pair up are refused rather than guessed at.
pub open spec fn updated_text(current: Seq<char>, block: Seq<char>) -> Result<Seq<char>, BlockError> {
    match (find_first(current, BEGIN@), find_first(current, END@)) {
        (Some(start), Some(end)) if end > start => Ok(
            current.subrange(0, start) + block + current.subrange(end + END@.len(), current.len() as int),
        ),
        (Some(_), _) => Err(BlockError::BrokenMarkers),
        (None, Some(_)) => Err(BlockError::BrokenMarkers),
        (None, None) => if current.len() == 0 {
            Ok(block + seq!['\n'])
        } else {
            let s = if current.last() == '\n' { current } else { current.push('\n') };
            Ok(s.push('\n') + block + seq!['\n'])
        },
    }
}

/// The chars of `s`.
pub(crate) fn chars_of(s: &str) -> (r: Vec<char>)
    ensures
        r@ == s@,
{
    let mut out: Vec<char> = Vec::new();
    for c in it: s.chars()
        invariant
            it.seq() == s@,
            out@ == it.seq().take(it.index() as int),
    {
        proof {
            assert(it.seq().take(it.index() + 1) =~= it.seq().take(it.index() as int).push(c));
        }
        out.push(c);
    }
    assert(s@.take(s@.len() as int) =~= s@);
    out
}

/// Where `p` first occurs in `s`.
pub(crate) fn find_in(s: &Vec<char>, p: &Vec<char>) -> (r: Option<usize>)
    ensures
        match r {
            Some(i) => find_first(s@, p@) == Some(i as int) && i + p@.len() <= s@.len(),
            None => find_first(s@, p@).is_none(),
        },
{
    if p.len() > s.len() {
        proof {
            reveal(find_first);
            assert forall|i: int| !#[trigger] occurs_at(s@, p@, i) by {}
        }
        return None;
    }
    let sn = s.len();
    let last = sn - p.len();
    let mut i: usize = 0;
    loop
        invariant
            sn == s@.len(),
            last == s@.len() - p@.len(),
            s@.len() >= p@.len(),
            i <= last,
            forall|j: int| 0 <= j < i ==> !#[trigger] occurs_at(s@, p@, j),
        decreases last - i,
    {
        let mut k: usize = 0;
        let mut ok = true;
        while ok && k < p.len()
            invariant
                sn == s@.len(),
                k <= p@.len(),
                i <= last,
                last == s@.len() - p@.len(),
                s@.len() >= p@.len(),
                i + p@.len() <= s@.len(),
                forall|t: int| 0 <= t < k ==> s@[i + t] == p@[t],
                !ok ==> k < p@.len() && s@[i + k] != p@[k as int],
            decreases p@.len() - k, if ok { 1int } else { 0int },
        {
            if s[i + k] == p[k] {
                k = k + 1;
            } else {
                ok = false;
            }
        }
        if ok {
            proof {
                reveal(find_first);
                assert(s@.subrange(i as int, i + p@.len()) =~= p@);
                assert(occurs_at(s@, p@, i as int));
                let c = choose|c: int| #[trigger] occurs_at(s@, p@, c) && forall|j: int| 0 <= j < c ==> !occurs_at(s@, p@, j);
                if c < i {
                } else if c > i {
                }
            }
            return Some(i);
        }
        proof {
            if occurs_at(s@, p@, i as int) {
                assert(s@.subrange(i as int, i + p@.len())[k as int] == p@[k as int]);
            }
        }
        if i == last {
            proof {
                reveal(find_first);
                assert forall|j: int| !#[trigger] occurs_at(s@, p@, j) by {}
            }
            return None;
        }
        i = i + 1;
    }
}

/// Set the instruction block of a file whose contents are `current`.
pub fn update_block(current: &str, block: &str) -> (r: Result<String, BlockError>)
    ensures
        match (r, updated_text(current@, block@)) {
            (Ok(s), Ok(t)) => s@ == t,
            (Err(e), Err(f)) => e == f,
            _ => false,
        },
{
    let cs = chars_of(current);
    let b = chars_of(BEGIN);
    let e = chars_of(END);
    let n = current.unicode_len();
    match (find_in(&cs, &b), find_in(&cs, &e)) {
        (Some(start), Some(end)) if end > start => {
            let head = current.substring_char(0, start);
            let tail = current.substring_char(end + e.len(), n);
            let x = concat(head, block);
            Ok(concat(x.as_str(), tail))
        },
        (Some(_), _) => Err(BlockError::BrokenMarkers),
        (None, Some(_)) => Err(BlockError::BrokenMarkers),
        (None, None) => {
            proof {
                reveal_strlit("\n");
                reveal_strlit("");
            }
            if n == 0 {
                Ok(concat(block, "\n"))
            } else {
                let s = if current.get_char(n - 1) == '\n' {
                    concat(current, "")
                } else {
                    concat(current, "\n")
                };
                let t = concat(s.as_str(), "\n");
                let u = concat(t.as_str(), block);
                let v = concat(u.as_str(), "\n");
                proof {
                    let exp = updated_text(current@, block@);
                    assert(seq!['\n'] =~= "\n"@);
                    assert(v@ =~= exp->Ok_0);
                }
                Ok(v)
            }
        },
    }
}

} // verus!
