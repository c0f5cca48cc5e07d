//! What `levi init` decides: whether to adopt the project from the remote,
//! and which instruction files to write.

use vstd::prelude::*;

use crate::entities::Project;
use crate::front_door::{trim_str, trim_ws};
use crate::text::concat;

verus! {

/// The step after probing the remote for an existing events ref.
#[derive(Clone, Debug, PartialEq, Eq)]
pub enum AdoptStep {
    /// Nothing to adopt (sync disabled, no remote, or no events there):
    /// mint a new project.
    Mint,
    /// The remote has levi events: fetch them and join that project.
    Fetch,
    /// The remote could not be asked; never mint over what may be there.
    Refuse(String),
}

/// The refusal when the remote cannot be reached.
pub open spec fn unreachable_text(remote: Seq<char>, stderr: Seq<char>) -> Seq<char> {
    "cannot reach remote '"@ + remote + "' to check for an existing levi project: "@ + trim_ws(stderr)
        + "\nretry when online, or pass --no-sync to initialize a standalone project"@
}

/// Read the probe of the remote (`git ls-remote --exit-code`): exit status 2
/// means reachable without the ref, 0 that the ref exists; anything else,
/// or no status at all, that the remote could not be asked.
pub fn adopt_step(no_sync: bool, has_remote: bool, probe_status: Option<i32>, remote: &str, probe_stderr: &str) -> (r: AdoptStep)
    ensures
        (no_sync || !has_remote) ==> r == AdoptStep::Mint,
        (!no_sync && has_remote && probe_status == Some(2i32)) ==> r == AdoptStep::Mint,
        (!no_sync && has_remote && probe_status == Some(0i32)) ==> r == AdoptStep::Fetch,
        (!no_sync && has_remote && probe_status != Some(2i32) && probe_status != Some(0i32)) ==> (r matches AdoptStep::Refuse(m)
            && m@ == unreachable_text(remote@, probe_stderr@)),
{
    if no_sync || !has_remote {
        return AdoptStep::Mint;
    }
    match probe_status {
        Some(2) => AdoptStep::Mint,
        Some(0) => AdoptStep::Fetch,
        _ => {
            let a = concat("cannot reach remote '", remote);
            let b = concat(a.as_str(), "' to check for an existing levi project: ");
            let c = concat(b.as_str(), trim_str(probe_stderr).as_str());
            AdoptStep::Refuse(concat(c.as_str(), "\nretry when online, or pass --no-sync to initialize a standalone project"))
        },
    }
}

/// After fetching the remote's events: the project joined, or the refusal
/// when they hold no project event.
pub fn adopted<'a>(project: Option<&'a Project>, remote: &str) -> (r: Result<&'a Project, String>)
    ensures
        match project {
            Some(p) => r == Ok::<&Project, String>(p),
            None => r matches Err(m) && m@ == "fetched events from '"@ + remote@
                + "' but found no project event; refusing to mint a new project over them"@,
        },
{
    match project {
        Some(p) => Ok(p),
        None => {
            let a = concat("fetched events from '", remote);
            Err(concat(a.as_str(), "' but found no project event; refusing to mint a new project over them"))
        },
    }
}

/// The names, in order, of those candidate files that exist.
pub open spec fn existing_names(candidates: Seq<(&'static str, bool)>) -> Seq<Seq<char>>
    decreases candidates.len(),
{
    if candidates.len() == 0 {
        Seq::empty()
    } else {
        let last = candidates.last();
        existing_names(candidates.drop_last()) + (if last.1 {
            seq![last.0@]
        } else {
            Seq::<Seq<char>>::empty()
        })
    }
}

/// The instruction files to write when none is named: every candidate file
/// that exists, in the order given, or `fallback` alone when none exists.
pub fn default_targets(candidates: &[(&'static str, bool)], fallback: &'static str) -> (r: Vec<&'static str>)
    ensures
        r@.map_values(|s: &'static str| s@) == (if existing_names(candidates@).len() == 0 {
            seq![fallback@]
        } else {
            existing_names(candidates@)
        }),
{
    let mut out: Vec<&'static str> = Vec::new();
    let mut i: usize = 0;
    while i < candidates.len()
        invariant
            i <= candidates@.len(),
            out@.map_values(|s: &'static str| s@) == existing_names(candidates@.subrange(0, i as int)),
        decreases candidates@.len() - i,
    {
        let (name, exists) = candidates[i];
        proof {
            assert(candidates@.subrange(0, i + 1).drop_last() =~= candidates@.subrange(0, i as int));
        }
        if exists {
            out.push(name);
        }
        proof {
            assert(out@.map_values(|s: &'static str| s@) =~= existing_names(candidates@.subrange(0, i + 1)));
        }
        i = i + 1;
    }
    proof {
        assert(candidates@.subrange(0, candidates@.len() as int) =~= candidates@);
    }
    if out.len() == 0 {
        out.push(fallback);
        proof {
            assert(out@.map_values(|s: &'static str| s@) =~= seq![fallback@]);
        }
    }
    out
}

} // verus!
