use phash_dedup::cache::{lookup, upsert};
use phash_dedup::codec::{decode_cache, encode_cache};
use phash_dedup::errors::CacheError;
use phash_dedup::pipeline::{cached_hash_for, make_entry, record_result};
use phash_dedup::types::{Aggregation, AppConfig, CacheEntry, CacheFile, HashAlg, CACHE_VERSION};

fn config() -> AppConfig {
    AppConfig {
        media_paths: Vec::new(),
        hash_alg: HashAlg::DoubleGradient,
        hash_w: 16,
        hash_h: 16,
        parallelism: 0,
        sample_start: 0,
        sample_count: 10,
        sample_window: 0,
        aggregation: Aggregation::Medoid,
    }
}

fn image_entry(w: u32, hash: &str) -> CacheEntry {
    CacheEntry::Image {
        hash_alg: HashAlg::DoubleGradient,
        hash_w: w,
        hash_h: 16,
        perceptual_hash: hash.to_owned(),
    }
}

fn video_entry(cfg: &AppConfig, hash: &str) -> CacheEntry {
    CacheEntry::Video {
        hash_alg: cfg.hash_alg,
        hash_w: cfg.hash_w,
        hash_h: cfg.hash_h,
        perceptual_hash: hash.to_owned(),
        sample_start: cfg.sample_start,
        sample_count: cfg.sample_count,
        sample_window: cfg.sample_window,
        aggregation: cfg.aggregation,
    }
}

#[test]
fn upsert_twice_leaves_one_entry() {
    let cfg = config();
    let mut cache = CacheFile::fresh();
    upsert(&mut cache, "d1".to_owned(), image_entry(16, "aaaa"));
    upsert(&mut cache, "d1".to_owned(), image_entry(16, "bbbb"));
    assert_eq!(cache.by_digest.len(), 1);
    assert_eq!(cache.by_digest[0].1.len(), 1);
    // the replacement won
    let got = lookup(&cache, "d1", &cfg, false).unwrap();
    assert_eq!(got, image_entry(16, "bbbb"));
}

#[test]
fn upsert_keeps_entries_of_other_configs() {
    let cfg = config();
    let mut cache = CacheFile::fresh();
    upsert(&mut cache, "d1".to_owned(), image_entry(8, "small"));
    upsert(&mut cache, "d1".to_owned(), image_entry(16, "big"));
    upsert(&mut cache, "d1".to_owned(), video_entry(&cfg, "vid"));
    assert_eq!(cache.by_digest[0].1.len(), 3);
}

#[test]
fn lookup_misses_on_config_mismatch() {
    let cfg = config();
    let mut cache = CacheFile::fresh();
    // stored with width 8, queried with width 16
    upsert(&mut cache, "d1".to_owned(), image_entry(8, "aaaa"));
    assert!(lookup(&cache, "d1", &cfg, false).is_none());
    // an image entry never satisfies a video lookup
    upsert(&mut cache, "d1".to_owned(), image_entry(16, "bbbb"));
    assert!(lookup(&cache, "d1", &cfg, true).is_none());
    // and a missing digest finds nothing
    assert!(lookup(&cache, "other", &cfg, false).is_none());
}

#[test]
fn lookup_finds_exact_config() {
    let cfg = config();
    let mut cache = CacheFile::fresh();
    upsert(&mut cache, "d1".to_owned(), image_entry(16, "aaaa"));
    upsert(&mut cache, "d1".to_owned(), video_entry(&cfg, "vvvv"));
    let img = lookup(&cache, "d1", &cfg, false).unwrap();
    assert_eq!(img, image_entry(16, "aaaa"));
    let vid = lookup(&cache, "d1", &cfg, true).unwrap();
    assert_eq!(vid, video_entry(&cfg, "vvvv"));
}

#[test]
fn cache_round_trip_is_exact() {
    let cfg = config();
    let mut cache = CacheFile::fresh();
    upsert(&mut cache, "00ff".to_owned(), image_entry(16, "hashA=="));
    upsert(&mut cache, "00ff".to_owned(), video_entry(&cfg, "hashB=="));
    upsert(&mut cache, "1234".to_owned(), image_entry(8, "hashC=="));
    let bytes = encode_cache(&cache).unwrap();
    let back = decode_cache(&bytes).unwrap();
    assert_eq!(back, cache);
}

#[test]
fn round_trip_keeps_image_entries_free_of_video_fields() {
    let mut cache = CacheFile::fresh();
    upsert(&mut cache, "d".to_owned(), image_entry(16, "h"));
    let bytes = encode_cache(&cache).unwrap();
    let text = String::from_utf8(bytes.clone()).unwrap();
    assert!(!text.contains("sample_start"));
    assert!(!text.contains("aggregation"));
    let back = decode_cache(&bytes).unwrap();
    assert!(matches!(back.by_digest[0].1[0], CacheEntry::Image { .. }));
}

#[test]
fn stale_version_is_rejected() {
    let mut cache = CacheFile::fresh();
    upsert(&mut cache, "d".to_owned(), image_entry(16, "h"));
    cache.version = CACHE_VERSION + 1;
    let bytes = encode_cache(&cache).unwrap();
    match decode_cache(&bytes) {
        Err(CacheError::VersionMismatch { expected, found }) => {
            assert_eq!(expected, CACHE_VERSION);
            assert_eq!(found, CACHE_VERSION + 1);
        },
        other => panic!("expected a version mismatch, got {:?}", other),
    }
}

#[test]
fn corrupt_documents_are_rejected() {
    assert!(matches!(decode_cache(b"not a cache"), Err(CacheError::Json(_))));
    assert!(matches!(decode_cache(b""), Err(CacheError::Json(_))));
    assert!(matches!(
        decode_cache(b"{\"version\":3,\"by_digest\":{}"),
        Err(CacheError::Json(_))
    ));
}

#[test]
fn empty_cache_round_trips() {
    let cache = CacheFile::fresh();
    let bytes = encode_cache(&cache).unwrap();
    assert_eq!(String::from_utf8(bytes.clone()).unwrap(), "{\"version\":3,\"by_digest\":{}}");
    assert_eq!(decode_cache(&bytes).unwrap(), cache);
}

#[test]
fn unprintable_strings_cannot_be_rendered() {
    let mut cache = CacheFile::fresh();
    upsert(&mut cache, "d\"d".to_owned(), image_entry(16, "h"));
    assert!(encode_cache(&cache).is_none());
}

#[test]
fn recorded_hash_is_found_again() {
    let cfg = config();
    let mut cache = CacheFile::fresh();
    assert!(cached_hash_for(&cache, "d1", &cfg, false).is_none());
    record_result(&mut cache, "d1".to_owned(), &cfg, false, "fresh==".to_owned());
    assert_eq!(cached_hash_for(&cache, "d1", &cfg, false).unwrap(), "fresh==");
    // the video slot under the same digest is independent
    assert!(cached_hash_for(&cache, "d1", &cfg, true).is_none());
    record_result(&mut cache, "d1".to_owned(), &cfg, true, "vid==".to_owned());
    assert_eq!(cached_hash_for(&cache, "d1", &cfg, true).unwrap(), "vid==");
    assert_eq!(cached_hash_for(&cache, "d1", &cfg, false).unwrap(), "fresh==");
}

#[test]
fn make_entry_carries_the_config() {
    let cfg = config();
    let e = make_entry(&cfg, true, "h".to_owned());
    assert_eq!(e, video_entry(&cfg, "h"));
    let e2 = make_entry(&cfg, false, "h".to_owned());
    assert_eq!(e2, image_entry(16, "h"));
}

#[test]
fn only_the_canonical_spelling_is_accepted() {
    // the same cache document with whitespace between tokens is malformed
    assert!(matches!(
        decode_cache(b"{ \"version\": 3, \"by_digest\": {} }"),
        Err(CacheError::Json(_))
    ));
    assert!(matches!(
        decode_cache(b"{\"version\":03,\"by_digest\":{}}"),
        Err(CacheError::Json(_))
    ));
}

#[test]
fn documents_breaking_the_store_invariants_are_rejected() {
    // a well-spelled document with the same digest twice
    let dup_keys = CacheFile {
        version: CACHE_VERSION,
        by_digest: vec![
            ("d1".to_owned(), vec![image_entry(16, "a")]),
            ("d1".to_owned(), vec![image_entry(8, "b")]),
        ],
    };
    let bytes = encode_cache(&dup_keys).unwrap();
    assert!(matches!(decode_cache(&bytes), Err(CacheError::Json(_))));

    // and one with two entries of the same config signature under a digest
    let dup_sigs = CacheFile {
        version: CACHE_VERSION,
        by_digest: vec![
            ("d1".to_owned(), vec![image_entry(16, "a"), image_entry(16, "b")]),
        ],
    };
    let bytes = encode_cache(&dup_sigs).unwrap();
    assert!(matches!(decode_cache(&bytes), Err(CacheError::Json(_))));
}
