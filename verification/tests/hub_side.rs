use levi::ctx::leg_timeout;
use levi::dash::short_id as dash_short_id;
use levi::entities::{Applied, LogEntry};
use levi::front_door::authorized;
use levi::hub::{applied_record, lww_admits};
use levi::hub_client::ws_url;
use levi::state::{ForeignStatus, ForeignStatusCache};
use levi::strmap::StrMap;
use levi::sync::{differing_buckets, ids_to_pull, records_to_push};

#[test]
fn front_door_accepts_token_in_query_header_or_cookie() {
    assert!(authorized(None, None, None, None));
    assert!(!authorized(Some("sekrit"), None, None, None));
    assert!(!authorized(Some("sekrit"), Some("nope"), None, None));
    assert!(authorized(Some("sekrit"), Some("sekrit"), None, None));
    assert!(authorized(Some("sekrit"), None, Some("Bearer sekrit"), None));
    assert!(!authorized(Some("sekrit"), None, Some("bearer sekrit"), None));
    assert!(!authorized(Some("sekrit"), None, Some("Bearer sekrit "), None));
    assert!(authorized(Some("sekrit"), None, None, Some("a=1; levi_token=sekrit")));
    assert!(authorized(Some("sekrit"), None, None, Some("  levi_token=sekrit  ;b=2")));
    assert!(!authorized(Some("sekrit"), None, None, Some("levi_token=sekrit2")));
    assert!(!authorized(Some("sekrit"), None, None, Some("xlevi_token=sekrit")));
}

#[test]
fn ws_url_adds_scheme_and_path() {
    assert_eq!(ws_url("localhost:7377"), "ws://localhost:7377/myko");
    assert_eq!(ws_url("localhost:7377//"), "ws://localhost:7377/myko");
    assert_eq!(ws_url("wss://hub.example.com/"), "wss://hub.example.com/myko");
    assert_eq!(ws_url("ws://h:1"), "ws://h:1/myko");
}

#[test]
fn log_entry_wraps_and_unwraps_bytes() {
    let bytes = vec![0u8, 1, 2, 250, 255];
    let e = LogEntry::wrap("oid1", "p", &bytes, "2026-07-01T00:00:00Z");
    assert_eq!(e.id, "oid1");
    assert_eq!(e.project_id, "p");
    assert_eq!(e.cbor_b64, "AAEC+v8=");
    assert_eq!(e.created_at, "2026-07-01T00:00:00Z");
    assert_eq!(e.event_bytes().unwrap(), bytes);
    let bad = LogEntry {
        cbor_b64: "!!!".into(),
        ..e
    };
    assert!(bad.event_bytes().unwrap_err().starts_with("invalid base64 in LogEntry: "));
}

#[test]
fn lww_guard_admits_newer_and_replays_refuses_older() {
    let a = Applied {
        id: "Task:t1".into(),
        event_created: "2026-07-02T00:00:00Z".into(),
        event_oid: "bb".into(),
    };
    assert!(lww_admits(None, "2026-07-01T00:00:00Z", "aa"));
    assert!(lww_admits(Some(&a), "2026-07-02T00:00:00Z", "bb"));
    assert!(lww_admits(Some(&a), "2026-07-02T00:00:00Z", "cc"));
    assert!(lww_admits(Some(&a), "2026-07-03T00:00:00Z", "aa"));
    assert!(!lww_admits(Some(&a), "2026-07-02T00:00:00Z", "aa"));
    assert!(!lww_admits(Some(&a), "2026-07-01T00:00:00Z", "zz"));
    let r = applied_record("Task:t1", "2026-07-03T00:00:00Z", "aa");
    assert_eq!(r.id, "Task:t1");
    assert_eq!(r.event_created, "2026-07-03T00:00:00Z");
    assert_eq!(r.event_oid, "aa");
}

fn map(pairs: &[(&str, &str)]) -> StrMap<String> {
    let mut m = StrMap::new();
    for (k, v) in pairs {
        m.insert(k.to_string(), v.to_string());
    }
    m
}

#[test]
fn sync_plan_enumerates_only_differing_buckets() {
    let local = map(&[("ab", "h1"), ("cd", "h2"), ("ef", "h3")]);
    let hub = map(&[("ab", "h1"), ("cd", "hX"), ("gh", "h4")]);
    assert_eq!(differing_buckets(&local, &hub), ["cd", "ef", "gh"]);
    assert!(differing_buckets(&local, &local).is_empty());

    let local_ids: Vec<String> = ["cd01", "ab02", "cd03", "cd04"].iter().map(|s| s.to_string()).collect();
    let hub_ids: Vec<String> = ["cd03", "cd09", "cd09", "cd08"].iter().map(|s| s.to_string()).collect();
    assert_eq!(records_to_push(&local_ids, "cd", &hub_ids), [0usize, 3]);
    assert_eq!(ids_to_pull(&hub_ids, &local_ids, "cd"), ["cd09", "cd08"]);
}

#[test]
fn foreign_status_cache_get_and_put() {
    let mut c = ForeignStatusCache::new("/tmp/x".into(), StrMap::new());
    assert!(c.get("p/t").is_none());
    c.put(
        "p/t".into(),
        ForeignStatus {
            status: "closed".into(),
            resolution: "facts".into(),
            observed: "2026-07-01T00:00:00Z".into(),
            title: "T".into(),
        },
    );
    assert_eq!(c.get("p/t").unwrap().status, "closed");
    assert_eq!(c.path, "/tmp/x");
}

#[test]
fn dashboard_short_ids_match_the_cli_rule() {
    let ids: Vec<String> = ["3f2a99aabbcc", "3f2a99ffeedd", "7c21"].iter().map(|s| s.to_string()).collect();
    assert_eq!(dash_short_id(&ids, "3f2a99aabbcc"), "lv-3f2a99aa");
    assert_eq!(dash_short_id(&ids, "7c21"), "lv-7c21");
}

#[test]
fn leg_timeout_is_ten_seconds() {
    assert_eq!(leg_timeout(), 10);
}
