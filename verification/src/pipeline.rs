//! Per-file orchestration around the cache: what to reuse and what to
//! record. Digesting, hashing and IO happen elsewhere; these steps decide
//! purely from values.
use vstd::prelude::*;

use crate::cache::{lemma_lookup_finds_entry, lookup, spec_lookup, spec_params_match, upsert};
use crate::types::{AppConfig, CacheEntry, CacheFile};

verus! {

/// Build the cache entry that records `phash` under the run's config for
/// this media kind: an image entry carries the hash parameters alone, a
/// video entry the sampling and aggregation parameters too.
pub fn make_entry(cfg: &AppConfig, is_video: bool, phash: String) -> (e: CacheEntry)
    ensures
        spec_params_match(e, *cfg, is_video),
        e.spec_hash() == phash@,
        is_video <==> e is Video,
{
    if is_video {
        CacheEntry::Video {
            hash_alg: cfg.hash_alg,
            hash_w: cfg.hash_w,
            hash_h: cfg.hash_h,
            perceptual_hash: phash,
            sample_start: cfg.sample_start,
            sample_count: cfg.sample_count,
            sample_window: cfg.sample_window,
            aggregation: cfg.aggregation,
        }
    } else {
        CacheEntry::Image {
            hash_alg: cfg.hash_alg,
            hash_w: cfg.hash_w,
            hash_h: cfg.hash_h,
            perceptual_hash: phash,
        }
    }
}

/// The stored hash to reuse for this digest under the run's exact config,
/// when the cache holds one.
pub fn cached_hash_for(cache: &CacheFile, key: &str, cfg: &AppConfig, is_video: bool) -> (r:
    Option<String>)
    ensures
        match spec_lookup(*cache, key@, *cfg, is_video) {
            Some(e) => r matches Some(h) && h@ == e.spec_hash(),
            None => r is None,
        },
{
    match lookup(cache, key, cfg, is_video) {
        Some(e) => Some(e.hash_str().clone()),
        None => None,
    }
}

/// Record a freshly computed hash for this digest under the run's config.
/// On a well-formed cache this replaces any earlier entry of the same
/// config and leaves the cache well formed; an immediate lookup under the
/// same digest and config then returns exactly this hash.
pub fn record_result(
    cache: &mut CacheFile,
    key: String,
    cfg: &AppConfig,
    is_video: bool,
    phash: String,
)
    ensures
        final(cache).version == old(cache).version,
        old(cache).wf() ==> final(cache).wf(),
        old(cache).wf() ==> (match spec_lookup(*final(cache), key@, *cfg, is_video) {
            Some(e) => e.spec_hash() == phash@,
            None => false,
        }),
{
    let ghost ph = phash@;
    let e = make_entry(cfg, is_video, phash);
    let ghost ge = e;
    upsert(cache, key, e);
    proof {
        if old(cache).wf() {
            lemma_lookup_finds_entry(*cache, key@, *cfg, is_video, ge);
        }
    }
}

} // verus!
