//! Exact ancestry answers from the checkout's own repository. The caller asks
//! git whether the anchor's object is present and for the merge base of HEAD
//! and the anchor; this decides what that means for the anchor.

use vstd::prelude::*;

use crate::facts::{oid_of, parsed_oid};
use crate::resolve::Ancestry;
use crate::text::str_eq;

verus! {

/// Is `anchor` an ancestor of (or equal to) `head`? An unborn HEAD has no
/// ancestors, which is known exactly; an anchor that is not a valid object id,
/// or whose object this clone lacks (unfetched history), cannot be judged;
/// otherwise it is an ancestor when it is HEAD itself or the merge base of
/// HEAD and the anchor is the anchor (`merge_base` is `None` when the two
/// share no history).
pub fn repo_ancestry(head: Option<&str>, anchor: &str, present: bool, merge_base: Option<&str>) -> (r: Ancestry)
    ensures
        head.is_none() ==> r == Ancestry::No,
        head.is_some() && (parsed_oid(anchor@).is_none() || !present) ==> r == Ancestry::Unknown,
        head.is_some() && parsed_oid(anchor@).is_some() && present ==> r == (if parsed_oid(anchor@) == Some(head.unwrap()@)
            || (merge_base.is_some() && parsed_oid(anchor@) == Some(merge_base.unwrap()@)) {
            Ancestry::Yes
        } else {
            Ancestry::No
        }),
{
    let head = match head {
        None => return Ancestry::No,
        Some(h) => h,
    };
    let oid = match oid_of(anchor) {
        None => return Ancestry::Unknown,
        Some(o) => o,
    };
    if !present {
        return Ancestry::Unknown;
    }
    if str_eq(oid.as_str(), head) {
        return Ancestry::Yes;
    }
    match merge_base {
        Some(base) => if str_eq(base, oid.as_str()) {
            Ancestry::Yes
        } else {
            Ancestry::No
        },
        None => Ancestry::No,
    }
}

} // verus!
