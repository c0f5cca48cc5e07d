//! Hub-side rules for the event journal: a LogEntry carries one event's
//! bytes in base64, and an unwrapped event is applied only if it is not
//! older than what its entity already shows (last-writer-wins by
//! (created_at, event id), the same key materializing sorts by).

use base64::Engine;
use vstd::prelude::*;

use crate::entities::{pair_le, pair_le_exec, Applied, LogEntry};
use crate::text::{concat, copy_string};

verus! {

/// The standard (padded) base64 text of `bytes`.
pub uninterp spec fn base64_of(bytes: Seq<u8>) -> Seq<char>;

/// What standard base64 text decodes to, or `None` when it is not valid.
pub uninterp spec fn base64_decoded(text: Seq<char>) -> Option<Seq<u8>>;

/// The padded base64 length of `n` bytes fits in memory.
pub open spec fn base64_len_fits(n: nat) -> bool {
    (n / 3) * 4 + (if n % 3 > 0 { 4int } else { 0int }) <= usize::MAX
}

/// `base64::engine::general_purpose::STANDARD.encode`: the padded standard
/// base64 text of `bytes`, which decodes back to `bytes`.
#[verifier::external_body]
fn base64_encode(bytes: &[u8]) -> (r: String)
    requires
        base64_len_fits(bytes@.len()),
    ensures
        r@ == base64_of(bytes@),
        base64_decoded(r@) == Some(bytes@),
{
    base64::engine::general_purpose::STANDARD.encode(bytes)
}

/// `base64::engine::general_purpose::STANDARD.decode`: the bytes the text
/// encodes, or the decoder's error message. What the message says is not
/// stated.
#[verifier::external_body]
fn base64_decode(text: &str) -> (r: Result<Vec<u8>, String>)
    ensures
        r.is_ok() == base64_decoded(text@).is_some(),
        r.is_ok() ==> r->Ok_0@ == base64_decoded(text@).unwrap(),
{
    match base64::engine::general_purpose::STANDARD.decode(text) {
        Ok(b) => Ok(b),
        Err(e) => Err(format!("{e}")),
    }
}

impl LogEntry {
    /// Wrap one event's bytes for the hub: id = the event's content address.
    pub fn wrap(id: &str, project_id: &str, bytes: &[u8], created_at: &str) -> (e: LogEntry)
        requires
            base64_len_fits(bytes@.len()),
        ensures
            e.id@ == id@,
            e.project_id@ == project_id@,
            e.cbor_b64@ == base64_of(bytes@),
            base64_decoded(e.cbor_b64@) == Some(bytes@),
            e.created_at@ == created_at@,
    {
        LogEntry {
            id: id.to_owned(),
            project_id: project_id.to_owned(),
            cbor_b64: base64_encode(bytes),
            created_at: created_at.to_owned(),
        }
    }

    /// The wrapped event's bytes, or why they cannot be read.
    pub fn event_bytes(&self) -> (r: Result<Vec<u8>, String>)
        ensures
            r.is_ok() == base64_decoded(self.cbor_b64@).is_some(),
            r.is_ok() ==> r->Ok_0@ == base64_decoded(self.cbor_b64@).unwrap(),
    {
        match base64_decode(self.cbor_b64.as_str()) {
            Ok(b) => Ok(b),
            Err(m) => Err(concat("invalid base64 in LogEntry: ", m.as_str())),
        }
    }
}

/// Whether an incoming event (created `created`, id `oid`) may be applied
/// over the newest event already applied to its entity: only when that one
/// does not sort after it.
pub fn lww_admits(existing: Option<&Applied>, created: &str, oid: &str) -> (r: bool)
    ensures
        r == match existing {
            None => true,
            Some(a) => pair_le(a.event_created@, a.event_oid@, created@, oid@),
        },
{
    match existing {
        None => true,
        Some(a) => pair_le_exec(a.event_created.as_str(), a.event_oid.as_str(), created, oid),
    }
}

/// Re-delivering the event the guard records is admitted again (applying it
/// twice converges), and an event that sorts strictly before it is refused.
pub proof fn law_guard_admits_replay_refuses_older(
    created: Seq<char>,
    oid: Seq<char>,
    older_created: Seq<char>,
    older_oid: Seq<char>,
)
    requires
        pair_le(older_created, older_oid, created, oid),
        (older_created, older_oid) != (created, oid),
    ensures
        pair_le(created, oid, created, oid),
        !pair_le(created, oid, older_created, older_oid),
{
    crate::text::lemma_str_le_refl(oid);
    if pair_le(created, oid, older_created, older_oid) {
        crate::entities::lemma_pair_le_antisym(created, oid, older_created, older_oid);
    }
}

/// The guard record written after applying an event.
pub fn applied_record(guard_id: &str, created: &str, oid: &str) -> (a: Applied)
    ensures
        a.id@ == guard_id@,
        a.event_created@ == created@,
        a.event_oid@ == oid@,
{
    Applied { id: guard_id.to_owned(), event_created: created.to_owned(), event_oid: oid.to_owned() }
}

/// What applying one unwrapped event decides: refused (a nested LogEntry,
/// or an item without an id), skipped as stale (`Ok(None)`: an event that
/// sorts after it was already applied to the entity), or applied, with the
/// guard record to write (`Ok(Some(..))`).
pub fn apply_decision(item_type: &str, item_id: Option<&str>, existing: Option<&Applied>, created: &str, oid: &str) -> (r: Result<Option<Applied>, String>)
    ensures
        item_type@ == "LogEntry"@ ==> (r matches Err(m) && m@ == "refusing to unwrap a nested LogEntry"@),
        item_type@ != "LogEntry"@ && item_id.is_none() ==> (r matches Err(m) && m@ == "wrapped event has no item id"@),
        item_type@ != "LogEntry"@ && item_id.is_some() ==> match r {
            Ok(None) => !lww_spec(existing, created@, oid@),
            Ok(Some(a)) => lww_spec(existing, created@, oid@) && a.id@ == item_type@ + ":"@ + item_id.unwrap()@
                && a.event_created@ == created@ && a.event_oid@ == oid@,
            Err(_) => false,
        },
{
    if crate::text::str_eq(item_type, "LogEntry") {
        return Err("refusing to unwrap a nested LogEntry".to_owned());
    }
    let id = match item_id {
        Some(i) => i,
        None => return Err("wrapped event has no item id".to_owned()),
    };
    if !lww_admits(existing, created, oid) {
        return Ok(None);
    }
    let guard = crate::entities::applied_id(item_type, id);
    Ok(Some(applied_record(guard.as_str(), created, oid)))
}

/// The guard admits an event (created `created`, id `oid`) over what was
/// last applied.
pub open spec fn lww_spec(existing: Option<&Applied>, created: Seq<char>, oid: Seq<char>) -> bool {
    match existing {
        None => true,
        Some(a) => pair_le(a.event_created@, a.event_oid@, created, oid),
    }
}

} // verus!
