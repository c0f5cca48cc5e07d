//! Configuration layering: the repo's `.levi/config.toml` (committed with
//! the repo) wins over the user-global file, and built-in defaults fill the
//! rest.

use vstd::prelude::*;

use crate::text::copy_opt_string;

verus! {

/// The settings one config file gives (each may be absent).
#[derive(Debug, Clone, Default)]
pub struct FileConfig {
    pub hub: Option<String>,
    pub remote: Option<String>,
    pub claim_ttl_secs: Option<u64>,
    pub patch_id_window: Option<usize>,
}

/// The effective configuration.
#[derive(Debug, Clone, Default)]
pub struct LeviConfig {
    /// Hub address, e.g. "localhost:7377".
    pub hub: Option<String>,
    /// Git remote for the sync git leg (default "origin").
    pub remote: String,
    /// Claim ttl (default 24h).
    pub claim_ttl_secs: u64,
    /// Commits per head to compute patch-ids for when publishing facts.
    pub patch_id_window: usize,
}

/// The default claim ttl: a day.
pub const DEFAULT_CLAIM_TTL_SECS: u64 = 86400;

/// The default patch-id window.
pub const DEFAULT_PATCH_ID_WINDOW: usize = 300;

/// The first of two optional values that is present.
pub open spec fn first_some<T>(a: Option<T>, b: Option<T>) -> Option<T> {
    match a {
        Some(x) => Some(x),
        None => b,
    }
}

impl LeviConfig {
    /// Layer the repo file over the global file over the defaults.
    pub fn from_layers(repo: &FileConfig, global: &FileConfig) -> (c: LeviConfig)
        ensures
            c.hub == first_some(repo.hub, global.hub),
            c.remote@ == match first_some(repo.remote, global.remote) {
                Some(r) => r@,
                None => "origin"@,
            },
            c.claim_ttl_secs == match first_some(repo.claim_ttl_secs, global.claim_ttl_secs) {
                Some(t) => t,
                None => DEFAULT_CLAIM_TTL_SECS,
            },
            c.patch_id_window == match first_some(repo.patch_id_window, global.patch_id_window) {
                Some(w) => w,
                None => DEFAULT_PATCH_ID_WINDOW,
            },
    {
        let hub = match &repo.hub {
            Some(h) => Some(h.clone()),
            None => copy_opt_string(&global.hub),
        };
        let remote = match &repo.remote {
            Some(r) => r.clone(),
            None => match &global.remote {
                Some(r) => r.clone(),
                None => "origin".to_owned(),
            },
        };
        let claim_ttl_secs = match repo.claim_ttl_secs {
            Some(t) => t,
            None => match global.claim_ttl_secs {
                Some(t) => t,
                None => DEFAULT_CLAIM_TTL_SECS,
            },
        };
        let patch_id_window = match repo.patch_id_window {
            Some(w) => w,
            None => match global.patch_id_window {
                Some(w) => w,
                None => DEFAULT_PATCH_ID_WINDOW,
            },
        };
        LeviConfig { hub, remote, claim_ttl_secs, patch_id_window }
    }
}

} // verus!
