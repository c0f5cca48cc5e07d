//! What the dashboard computes in the browser: per-branch status resolution
//! (the same fold as the CLI, over the CommitFact graph) and short ids.

use vstd::prelude::*;
use vstd::utf8::decode_utf8;

use crate::crossproject::{for_project_of, opt_view, project_task_before, statuses_for_project};
use crate::entities::{CommitFact, StatusChange, Task};
use crate::materialize::World;
use crate::ids::{law_short_id_depends_on_ids_only, collides, short_id_slices_ok, short_id_text, short_len, bytes_left, MIN_SHORT};
use crate::resolve::ResolvedStatus;
use crate::strmap::StrMap;
use crate::text::{bytes, bytes_of, concat, is_prefix, starts_with, str_eq, views};

verus! {

broadcast use {vstd::utf8::encode_utf8_decode_utf8, vstd::utf8::encode_utf8_valid_utf8};

/// task id -> resolved status for one project against one head sha.
pub fn statuses(
    tasks: &[Task],
    changes: &[StatusChange],
    facts: &[CommitFact],
    project_id: &str,
    head: Option<&str>,
) -> (r: StrMap<ResolvedStatus>)
    ensures
        forall|k: Seq<char>| #[trigger] r.map().dom().contains(k) <==> project_task_before(tasks@, project_id@, k, tasks@.len() as int),
        forall|k: Seq<char>| #[trigger] r.map().dom().contains(k) ==> r.map()[k] == for_project_of(changes@, facts@, project_id@, opt_view(head), k),
{
    statuses_for_project(tasks, changes, facts, project_id, head)
}

/// Whether an id of `all_ids` other than `id` starts with `prefix`.
fn collides_in(all_ids: &[String], id: &str, prefix: &str) -> (r: bool)
    ensures
        r == collides(views(all_ids@), id@, bytes_of(prefix@)),
{
    let mut i: usize = 0;
    while i < all_ids.len()
        invariant
            i <= all_ids@.len(),
            forall|j: int| 0 <= j < i ==> !(views(all_ids@)[j] != id@ && #[trigger] is_prefix(bytes_of(prefix@), bytes_of(views(all_ids@)[j]))),
        decreases all_ids@.len() - i,
    {
        let o = &all_ids[i];
        assert(views(all_ids@)[i as int] == o@);
        if !str_eq(o.as_str(), id) && starts_with(o.as_str(), prefix) {
            return true;
        }
        i = i + 1;
    }
    false
}

/// The dashboard and the CLI show the same short id for a task when the
/// dashboard's id list holds exactly the world's task ids.
pub proof fn law_dash_short_id_matches_cli(all_ids: Seq<String>, world: World, id: Seq<char>)
    requires
        forall|k: Seq<char>| #[trigger] views(all_ids).contains(k) <==> world.tasks.key_seq().contains(k),
    ensures
        short_id_text(views(all_ids), id) == short_id_text(world.tasks.key_seq(), id),
{
    law_short_id_depends_on_ids_only(views(all_ids), world.tasks.key_seq(), id);
}

/// Git-style short id for the dashboard: `lv-` + the shortest prefix (min
/// 4 hex) unique among `all_ids`, the same rule as the CLI's.
pub fn short_id(all_ids: &[String], id: &str) -> (r: String)
    requires
        short_id_slices_ok(views(all_ids@), id@, MIN_SHORT as nat),
    ensures
        r@ == short_id_text(views(all_ids@), id@),
{
    let ghost keys = views(all_ids@);
    let id_len = bytes(id).len();
    let mut len: usize = MIN_SHORT;
    while len < id_len
        invariant
            keys == views(all_ids@),
            id_len == bytes_of(id@).len(),
            short_id_slices_ok(keys, id@, len as nat),
            short_len(keys, id@, len as nat) == short_len(keys, id@, MIN_SHORT as nat),
        decreases bytes_left(id@, len as nat),
    {
        let (prefix, _) = id.split_at(len);
        assert(bytes_of(prefix@) =~= bytes_of(id@).subrange(0, len as int));
        assert(prefix@ == decode_utf8(bytes_of(id@).subrange(0, len as int)));
        if !collides_in(all_ids, id, prefix) {
            return concat("lv-", prefix);
        }
        let ghost old = len;
        len = if len < id_len - 1 {
            len + 2
        } else {
            id_len
        };
        proof {
            assert(short_len(keys, id@, old as nat) == short_len(keys, id@, (old + 2) as nat));
            if len == id_len {
                assert(short_len(keys, id@, (old + 2) as nat) == None::<nat>);
                assert(short_len(keys, id@, len as nat) == None::<nat>);
            }
        }
    }
    concat("lv-", id)
}

} // verus!
