//! Talking to the hub: where its WebSocket endpoint is, and how events are
//! wrapped for the cross-project write path.

use vstd::prelude::*;
use vstd::string::StrSliceExecFns;

use crate::entities::LogEntry;
use crate::hub::{base64_decoded, base64_len_fits, base64_of};
use crate::text::{bytes_of, concat, is_prefix, starts_with};

verus! {

/// `s` without trailing slashes.
pub open spec fn trim_end_slashes(s: Seq<char>) -> Seq<char>
    decreases s.len(),
{
    if s.len() > 0 && s.last() == '/' {
        trim_end_slashes(s.drop_last())
    } else {
        s
    }
}

/// The hub URL for an address: a `ws://` or `wss://` URL as given, else
/// `ws://` prepended; trailing slashes dropped, then `/myko` appended.
pub open spec fn ws_url_text(addr: Seq<char>) -> Seq<char> {
    let base = if is_prefix(bytes_of("ws://"@), bytes_of(addr)) || is_prefix(bytes_of("wss://"@), bytes_of(addr)) {
        trim_end_slashes(addr)
    } else {
        "ws://"@ + trim_end_slashes(addr)
    };
    base + "/myko"@
}

/// `s` without trailing slashes.
fn trim_slashes(s: &str) -> (r: &str)
    ensures
        r@ == trim_end_slashes(s@),
{
    let mut n = s.unicode_len();
    assert(s@.subrange(0, n as int) =~= s@);
    while n > 0 && s.get_char(n - 1) == '/'
        invariant
            n <= s@.len(),
            trim_end_slashes(s@) == trim_end_slashes(s@.subrange(0, n as int)),
        decreases n,
    {
        assert(s@.subrange(0, n as int).drop_last() =~= s@.subrange(0, n - 1));
        n = n - 1;
    }
    s.substring_char(0, n)
}

/// The WebSocket URL of the hub at `addr`.
pub fn ws_url(addr: &str) -> (r: String)
    ensures
        r@ == ws_url_text(addr@),
{
    let trimmed = trim_slashes(addr);
    let base = if starts_with(addr, "ws://") || starts_with(addr, "wss://") {
        trimmed.to_owned()
    } else {
        concat("ws://", trimmed)
    };
    concat(base.as_str(), "/myko")
}

/// Events per send batch: bounds every barrier wait by the chunk size
/// instead of the whole batch's.
pub const SEND_CHUNK: usize = 256;

/// The git object id (SHA-1, lowercase hex) of a blob holding `bytes`, or
/// `None` when hashing refuses them (SHA-1 collision detection); a function
/// of the bytes alone.
pub uninterp spec fn blob_oid_of(bytes: Seq<u8>) -> Option<Seq<char>>;

/// `gix::objs::compute_hash` with SHA-1 over a blob of `bytes`, rendered
/// with `to_string`: claims only that an id comes back exactly when
/// `blob_oid_of` has one, and that it is that id. What the error message
/// says is not stated.
#[verifier::external_body]
fn blob_oid(bytes: &[u8]) -> (r: Result<String, String>)
    ensures
        r.is_ok() == blob_oid_of(bytes@).is_some(),
        r.is_ok() ==> r->Ok_0@ == blob_oid_of(bytes@).unwrap(),
{
    match gix::objs::compute_hash(gix::hash::Kind::Sha1, gix::objs::Kind::Blob, bytes) {
        Ok(oid) => Ok(oid.to_string()),
        Err(e) => Err(format!("{e}")),
    }
}

/// One encoded event bound for the hub: its CBOR bytes and when it was
/// created (RFC3339).
pub struct Encoded {
    pub bytes: Vec<u8>,
    pub created_at: String,
}

/// `entries` wraps `events` for project `project_id` under ids `ids`.
pub open spec fn wraps(ids: Seq<String>, entries: Seq<LogEntry>, events: Seq<Encoded>, project_id: Seq<char>) -> bool {
    &&& ids.len() == events.len()
    &&& entries.len() == events.len()
    &&& forall|i: int| 0 <= i < events.len() ==> {
        let e = #[trigger] entries[i];
        &&& blob_oid_of(events[i].bytes@) == Some(ids[i]@)
        &&& e.id@ == ids[i]@
        &&& e.project_id@ == project_id
        &&& e.cbor_b64@ == base64_of(events[i].bytes@)
        &&& base64_decoded(e.cbor_b64@) == Some(events[i].bytes@)
        &&& e.created_at@ == events[i].created_at@
    }
}

/// Wrap events for a (possibly foreign) project: each becomes a LogEntry
/// whose id is the event's content address (its blob id). Fails, naming the
/// hashing error, when an event cannot be hashed.
pub fn wrap_for_hub(project_id: &str, events: &[Encoded]) -> (r: Result<(Vec<String>, Vec<LogEntry>), String>)
    requires
        forall|i: int| 0 <= i < events@.len() ==> base64_len_fits((#[trigger] events@[i]).bytes@.len()),
    ensures
        r.is_ok() == (forall|i: int| 0 <= i < events@.len() ==> (#[trigger] blob_oid_of(events@[i].bytes@)).is_some()),
        r.is_ok() ==> wraps(r->Ok_0.0@, r->Ok_0.1@, events@, project_id@),
{
    let mut ids: Vec<String> = Vec::new();
    let mut entries: Vec<LogEntry> = Vec::new();
    let mut i: usize = 0;
    while i < events.len()
        invariant
            i <= events@.len(),
            forall|j: int| 0 <= j < events@.len() ==> base64_len_fits((#[trigger] events@[j]).bytes@.len()),
            forall|j: int| 0 <= j < i ==> (#[trigger] blob_oid_of(events@[j].bytes@)).is_some(),
            wraps(ids@, entries@, events@.subrange(0, i as int), project_id@),
        decreases events@.len() - i,
    {
        let ev = &events[i];
        match blob_oid(ev.bytes.as_slice()) {
            Ok(oid) => {
                let entry = LogEntry::wrap(oid.as_str(), project_id, ev.bytes.as_slice(), ev.created_at.as_str());
                ids.push(oid);
                entries.push(entry);
                proof {
                    let sub = events@.subrange(0, i + 1);
                    assert forall|j: int| 0 <= j < sub.len() implies {
                        let e = #[trigger] entries@[j];
                        &&& blob_oid_of(sub[j].bytes@) == Some(ids@[j]@)
                        &&& e.id@ == ids@[j]@
                        &&& e.project_id@ == project_id@
                        &&& e.cbor_b64@ == base64_of(sub[j].bytes@)
                        &&& base64_decoded(e.cbor_b64@) == Some(sub[j].bytes@)
                        &&& e.created_at@ == sub[j].created_at@
                    } by {
                        if j < i {
                            assert(sub[j] == events@.subrange(0, i as int)[j]);
                        }
                    }
                }
            },
            Err(m) => {
                return Err(concat("hashing event: ", m.as_str()));
            },
        }
        i = i + 1;
    }
    assert(events@.subrange(0, events@.len() as int) =~= events@);
    Ok((ids, entries))
}

} // verus!
