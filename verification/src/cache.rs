//! The config-aware dedup cache: lookup and upsert over a digest-keyed store.
//!
//! A digest's entry list may hold one entry per distinct config signature;
//! `upsert` replaces the matching entry or appends, never duplicates.
use vstd::prelude::*;

use crate::types::{AppConfig, CacheEntry, CacheFile, entry_list_wf, store_wf};

verus! {

/// Does an image-mode query under `cfg` accept this entry?
pub open spec fn spec_image_params_match(e: CacheEntry, cfg: AppConfig) -> bool {
    match e {
        CacheEntry::Image { hash_alg, hash_w, hash_h, .. } => hash_alg == cfg.hash_alg && hash_w
            == cfg.hash_w && hash_h == cfg.hash_h,
        CacheEntry::Video { .. } => false,
    }
}

/// Does a video-mode query under `cfg` accept this entry? All four video
/// sampling fields must match besides the hash parameters.
pub open spec fn spec_video_params_match(e: CacheEntry, cfg: AppConfig) -> bool {
    match e {
        CacheEntry::Image { .. } => false,
        CacheEntry::Video {
            hash_alg,
            hash_w,
            hash_h,
            sample_start,
            sample_count,
            sample_window,
            aggregation,
            ..
        } => hash_alg == cfg.hash_alg && hash_w == cfg.hash_w && hash_h == cfg.hash_h
            && sample_start == cfg.sample_start && sample_count == cfg.sample_count
            && sample_window == cfg.sample_window && aggregation == cfg.aggregation,
    }
}

pub open spec fn spec_params_match(e: CacheEntry, cfg: AppConfig, is_video: bool) -> bool {
    if is_video {
        spec_video_params_match(e, cfg)
    } else {
        spec_image_params_match(e, cfg)
    }
}

/// Whether this entry could satisfy an image lookup under `cfg`.
pub fn matches_image_params(e: &CacheEntry, cfg: &AppConfig) -> (r: bool)
    ensures
        r == spec_image_params_match(*e, *cfg),
{
    match e {
        CacheEntry::Image { hash_alg, hash_w, hash_h, .. } => *hash_alg == cfg.hash_alg && *hash_w
            == cfg.hash_w && *hash_h == cfg.hash_h,
        CacheEntry::Video { .. } => false,
    }
}

/// Whether this entry could satisfy a video lookup under `cfg`.
pub fn matches_video_params(e: &CacheEntry, cfg: &AppConfig) -> (r: bool)
    ensures
        r == spec_video_params_match(*e, *cfg),
{
    match e {
        CacheEntry::Image { .. } => false,
        CacheEntry::Video {
            hash_alg,
            hash_w,
            hash_h,
            sample_start,
            sample_count,
            sample_window,
            aggregation,
            ..
        } => *hash_alg == cfg.hash_alg && *hash_w == cfg.hash_w && *hash_h == cfg.hash_h
            && *sample_start == cfg.sample_start && *sample_count == cfg.sample_count
            && *sample_window == cfg.sample_window && *aggregation == cfg.aggregation,
    }
}

/// Index of the first pair whose key reads `key`, or the length if none does.
pub open spec fn spec_key_index(m: Seq<(String, Vec<CacheEntry>)>, key: Seq<char>) -> int
    decreases m.len(),
{
    if m.len() == 0 {
        0
    } else if m[0].0@ == key {
        0
    } else {
        1 + spec_key_index(m.drop_first(), key)
    }
}

/// Index of the first entry accepted under (`cfg`, `is_video`), or the length.
pub open spec fn spec_match_index(es: Seq<CacheEntry>, cfg: AppConfig, is_video: bool) -> int
    decreases es.len(),
{
    if es.len() == 0 {
        0
    } else if spec_params_match(es[0], cfg, is_video) {
        0
    } else {
        1 + spec_match_index(es.drop_first(), cfg, is_video)
    }
}

/// Index of the first entry sharing `e`'s config signature, or the length.
pub open spec fn spec_sig_index(es: Seq<CacheEntry>, e: CacheEntry) -> int
    decreases es.len(),
{
    if es.len() == 0 {
        0
    } else if es[0].same_config(e) {
        0
    } else {
        1 + spec_sig_index(es.drop_first(), e)
    }
}

/// What `lookup` returns: the first accepted entry under the digest's list,
/// if the digest is present and some entry is accepted.
pub open spec fn spec_lookup(
    cache: CacheFile,
    key: Seq<char>,
    cfg: AppConfig,
    is_video: bool,
) -> Option<CacheEntry> {
    let m = cache.by_digest@;
    let ki = spec_key_index(m, key);
    if ki == m.len() {
        None
    } else {
        let es = m[ki].1@;
        let mi = spec_match_index(es, cfg, is_video);
        if mi == es.len() {
            None
        } else {
            Some(es[mi])
        }
    }
}

proof fn lemma_key_index_range(m: Seq<(String, Vec<CacheEntry>)>, key: Seq<char>)
    ensures
        0 <= spec_key_index(m, key) <= m.len(),
        spec_key_index(m, key) < m.len() ==> m[spec_key_index(m, key)].0@ == key,
        forall|j: int| 0 <= j < spec_key_index(m, key) ==> (#[trigger] m[j]).0@ != key,
    decreases m.len(),
{
    if m.len() > 0 && m[0].0@ != key {
        let d = m.drop_first();
        lemma_key_index_range(d, key);
        let ki = spec_key_index(m, key);
        assert(ki == 1 + spec_key_index(d, key));
        if ki < m.len() {
            assert(d[ki - 1] == m[ki]);
        }
        assert forall|j: int| 0 <= j < ki implies (#[trigger] m[j]).0@ != key by {
            if j > 0 {
                assert(d[j - 1] == m[j]);
            }
        }
    }
}

proof fn lemma_match_index_range(es: Seq<CacheEntry>, cfg: AppConfig, is_video: bool)
    ensures
        0 <= spec_match_index(es, cfg, is_video) <= es.len(),
        spec_match_index(es, cfg, is_video) < es.len() ==> spec_params_match(
            es[spec_match_index(es, cfg, is_video)],
            cfg,
            is_video,
        ),
        forall|j: int|
            0 <= j < spec_match_index(es, cfg, is_video) ==> !spec_params_match(
                #[trigger] es[j],
                cfg,
                is_video,
            ),
    decreases es.len(),
{
    if es.len() > 0 && !spec_params_match(es[0], cfg, is_video) {
        let d = es.drop_first();
        lemma_match_index_range(d, cfg, is_video);
        let mi = spec_match_index(es, cfg, is_video);
        assert(mi == 1 + spec_match_index(d, cfg, is_video));
        if mi < es.len() {
            assert(d[mi - 1] == es[mi]);
        }
        assert forall|j: int| 0 <= j < mi implies !spec_params_match(
            #[trigger] es[j],
            cfg,
            is_video,
        ) by {
            if j > 0 {
                assert(d[j - 1] == es[j]);
            }
        }
    }
}

proof fn lemma_sig_index_range(es: Seq<CacheEntry>, e: CacheEntry)
    ensures
        0 <= spec_sig_index(es, e) <= es.len(),
        spec_sig_index(es, e) < es.len() ==> es[spec_sig_index(es, e)].same_config(e),
        forall|j: int| 0 <= j < spec_sig_index(es, e) ==> !(#[trigger] es[j]).same_config(e),
    decreases es.len(),
{
    if es.len() > 0 && !es[0].same_config(e) {
        let d = es.drop_first();
        lemma_sig_index_range(d, e);
        let si = spec_sig_index(es, e);
        assert(si == 1 + spec_sig_index(d, e));
        if si < es.len() {
            assert(d[si - 1] == es[si]);
        }
        assert forall|j: int| 0 <= j < si implies !(#[trigger] es[j]).same_config(e) by {
            if j > 0 {
                assert(d[j - 1] == es[j]);
            }
        }
    }
}

/// Relies on `str`'s `PartialEq`: equality of two string slices is equality
/// of their characters.
#[verifier::external_body]
fn str_eq(a: &str, b: &str) -> (r: bool)
    ensures
        r == (a@ == b@),
{
    a == b
}

/// Rebuild an entry value equal to the borrowed one.
fn clone_entry(e: &CacheEntry) -> (r: CacheEntry)
    ensures
        r == *e,
{
    match e {
        CacheEntry::Image { hash_alg, hash_w, hash_h, perceptual_hash } => CacheEntry::Image {
            hash_alg: *hash_alg,
            hash_w: *hash_w,
            hash_h: *hash_h,
            perceptual_hash: perceptual_hash.clone(),
        },
        CacheEntry::Video {
            hash_alg,
            hash_w,
            hash_h,
            perceptual_hash,
            sample_start,
            sample_count,
            sample_window,
            aggregation,
        } => CacheEntry::Video {
            hash_alg: *hash_alg,
            hash_w: *hash_w,
            hash_h: *hash_h,
            perceptual_hash: perceptual_hash.clone(),
            sample_start: *sample_start,
            sample_count: *sample_count,
            sample_window: *sample_window,
            aggregation: *aggregation,
        },
    }
}

/// Return a copy of the first entry stored under `key` whose variant and
/// config fields exactly match (`cfg`, `is_video`), or nothing when the key
/// is absent or no stored entry's full config matches the query.
pub fn lookup(cache: &CacheFile, key: &str, cfg: &AppConfig, is_video: bool) -> (r: Option<
    CacheEntry,
>)
    ensures
        r == spec_lookup(*cache, key@, *cfg, is_video),
{
    proof {
        lemma_key_index_range(cache.by_digest@, key@);
    }
    let n = cache.by_digest.len();
    let mut ki: usize = 0;
    while ki < n
        invariant
            n == cache.by_digest@.len(),
            0 <= ki <= n,
            forall|j: int| 0 <= j < ki ==> (#[trigger] cache.by_digest@[j]).0@ != key@,
        decreases n - ki,
    {
        if str_eq(cache.by_digest[ki].0.as_str(), key) {
            proof {
                lemma_key_index_assign(cache.by_digest@, key@, ki as int);
                lemma_match_index_range(cache.by_digest@[ki as int].1@, *cfg, is_video);
            }
            let es = &cache.by_digest[ki].1;
            let en = es.len();
            let mut mi: usize = 0;
            while mi < en
                invariant
                    en == es@.len(),
                    0 <= mi <= en,
                    ki < cache.by_digest@.len(),
                    es@ == cache.by_digest@[ki as int].1@,
                    spec_key_index(cache.by_digest@, key@) == ki,
                    forall|j: int|
                        0 <= j < mi ==> !spec_params_match(#[trigger] es@[j], *cfg, is_video),
                decreases en - mi,
            {
                let hit = if is_video {
                    matches_video_params(&es[mi], cfg)
                } else {
                    matches_image_params(&es[mi], cfg)
                };
                if hit {
                    proof {
                        lemma_match_index_assign(es@, *cfg, is_video, mi as int);
                    }
                    return Some(clone_entry(&es[mi]));
                }
                mi = mi + 1;
            }
            proof {
                lemma_match_index_range(es@, *cfg, is_video);
            }
            return None;
        }
        ki = ki + 1;
    }
    None
}

proof fn lemma_key_index_assign(m: Seq<(String, Vec<CacheEntry>)>, key: Seq<char>, i: int)
    requires
        0 <= i < m.len(),
        m[i].0@ == key,
        forall|j: int| 0 <= j < i ==> (#[trigger] m[j]).0@ != key,
    ensures
        spec_key_index(m, key) == i,
{
    lemma_key_index_range(m, key);
    let ki = spec_key_index(m, key);
    if ki < i {
        assert(m[ki].0@ == key);
    }
    if ki > i {
        assert(m[i].0@ != key);
    }
}

proof fn lemma_match_index_assign(es: Seq<CacheEntry>, cfg: AppConfig, is_video: bool, i: int)
    requires
        0 <= i < es.len(),
        spec_params_match(es[i], cfg, is_video),
        forall|j: int| 0 <= j < i ==> !spec_params_match(#[trigger] es[j], cfg, is_video),
    ensures
        spec_match_index(es, cfg, is_video) == i,
{
    lemma_match_index_range(es, cfg, is_video);
    let mi = spec_match_index(es, cfg, is_video);
    if mi < i {
        assert(spec_params_match(es[mi], cfg, is_video));
    }
    if mi > i {
        assert(!spec_params_match(es[i], cfg, is_video));
    }
}

proof fn lemma_sig_index_assign(es: Seq<CacheEntry>, e: CacheEntry, i: int)
    requires
        0 <= i < es.len(),
        es[i].same_config(e),
        forall|j: int| 0 <= j < i ==> !(#[trigger] es[j]).same_config(e),
    ensures
        spec_sig_index(es, e) == i,
{
    lemma_sig_index_range(es, e);
    let si = spec_sig_index(es, e);
    if si < i {
        assert(es[si].same_config(e));
    }
    if si > i {
        assert(!es[i].same_config(e));
    }
}

/// How many entries of the list share `e`'s config signature.
pub open spec fn count_same_config(es: Seq<CacheEntry>, e: CacheEntry) -> nat
    decreases es.len(),
{
    if es.len() == 0 {
        0
    } else {
        count_same_config(es.drop_first(), e) + if es[0].same_config(e) {
            1nat
        } else {
            0nat
        }
    }
}

proof fn lemma_count_same_config_none(es: Seq<CacheEntry>, e: CacheEntry)
    requires
        forall|j: int| 0 <= j < es.len() ==> !(#[trigger] es[j]).same_config(e),
    ensures
        count_same_config(es, e) == 0,
    decreases es.len(),
{
    if es.len() > 0 {
        let d = es.drop_first();
        assert forall|j: int| 0 <= j < d.len() implies !(#[trigger] d[j]).same_config(e) by {
            assert(d[j] == es[j + 1]);
        }
        lemma_count_same_config_none(d, e);
    }
}

proof fn lemma_count_same_config_one(es: Seq<CacheEntry>, e: CacheEntry, i: int)
    requires
        0 <= i < es.len(),
        es[i].same_config(e),
        forall|j: int| 0 <= j < es.len() && j != i ==> !(#[trigger] es[j]).same_config(e),
    ensures
        count_same_config(es, e) == 1,
    decreases es.len(),
{
    let d = es.drop_first();
    if i == 0 {
        assert forall|j: int| 0 <= j < d.len() implies !(#[trigger] d[j]).same_config(e) by {
            assert(d[j] == es[j + 1]);
        }
        lemma_count_same_config_none(d, e);
    } else {
        assert(d[i - 1] == es[i]);
        assert forall|j: int| 0 <= j < d.len() && j != i - 1 implies !(#[trigger] d[j]).same_config(
            e,
        ) by {
            assert(d[j] == es[j + 1]);
        }
        lemma_count_same_config_one(d, e, i - 1);
        assert(!es[0].same_config(e));
    }
}

/// `same_config` is symmetric and carries across equal signatures.
proof fn lemma_same_config_equiv(a: CacheEntry, b: CacheEntry, c: CacheEntry)
    ensures
        a.same_config(b) == b.same_config(a),
        a.same_config(b) && b.same_config(c) ==> a.same_config(c),
{
}

/// Insert or replace the entry for this digest and config signature.
/// The entry with the same signature under `key` is replaced when present,
/// else the entry is appended to `key`'s list (creating the list when `key`
/// is new); entries for other configs and other digests are untouched.
/// On a well-formed cache, afterwards exactly one entry under `key` carries
/// `entry`'s config signature, and it is `entry` itself.
pub fn upsert(cache: &mut CacheFile, key: String, entry: CacheEntry)
    ensures
        final(cache).version == old(cache).version,
        ({
            let m = old(cache).by_digest@;
            let ki = spec_key_index(m, key@);
            let fm = final(cache).by_digest@;
            if ki == m.len() {
                &&& fm.len() == m.len() + 1
                &&& forall|j: int| 0 <= j < m.len() ==> fm[j] == m[j]
                &&& fm[ki].0@ == key@
                &&& fm[ki].1@ =~= seq![entry]
            } else {
                let es = m[ki].1@;
                let si = spec_sig_index(es, entry);
                &&& fm.len() == m.len()
                &&& forall|j: int| 0 <= j < m.len() && j != ki ==> fm[j] == m[j]
                &&& fm[ki].0 == m[ki].0
                &&& fm[ki].1@ =~= if si == es.len() {
                    es.push(entry)
                } else {
                    es.update(si, entry)
                }
            }
        }),
        old(cache).wf() ==> final(cache).wf(),
        old(cache).wf() ==> {
            let ki = spec_key_index(final(cache).by_digest@, key@);
            &&& ki < final(cache).by_digest@.len()
            &&& count_same_config(final(cache).by_digest@[ki].1@, entry) == 1
            &&& exists|i: int|
                0 <= i < final(cache).by_digest@[ki].1@.len()
                    && final(cache).by_digest@[ki].1@[i] == entry
        },
{
    proof {
        lemma_key_index_range(cache.by_digest@, key@);
    }
    let ghost m0 = old(cache).by_digest@;
    let n = cache.by_digest.len();
    let mut ki: usize = 0;
    while ki < n
        invariant
            n == cache.by_digest@.len(),
            m0 == old(cache).by_digest@,
            cache.by_digest@ == m0,
            cache.version == old(cache).version,
            0 <= ki <= n,
            forall|j: int| 0 <= j < ki ==> (#[trigger] cache.by_digest@[j]).0@ != key@,
        decreases n - ki,
    {
        if str_eq(cache.by_digest[ki].0.as_str(), key.as_str()) {
            proof {
                lemma_key_index_assign(m0, key@, ki as int);
                lemma_sig_index_range(m0[ki as int].1@, entry);
            }
            let es = &mut cache.by_digest[ki].1;
            let ghost es0 = es@;
            let en = es.len();
            let mut si: usize = 0;
            let mut found: bool = false;
            while si < en && !found
                invariant
                    en == es@.len(),
                    0 <= si <= en,
                    es@ == es0,
                    !found ==> forall|j: int|
                        0 <= j < si ==> !(#[trigger] es@[j]).same_config(entry),
                    found ==> si < en && es@[si as int].same_config(entry) && forall|j: int|
                        0 <= j < si ==> !(#[trigger] es@[j]).same_config(entry),
                decreases en - si + if found {
                    0int
                } else {
                    1int
                },
            {
                if same_config_exec(&es[si], &entry) {
                    found = true;
                } else {
                    si = si + 1;
                }
            }
            if found {
                proof {
                    lemma_sig_index_assign(es0, entry, si as int);
                }
                let e = &mut es[si];
                *e = entry;
            } else {
                es.push(entry);
            }
            proof {
                lemma_upsert_known_key(m0, cache.by_digest@, key@, entry, ki as int);
            }
            return ;
        }
        ki = ki + 1;
    }
    proof {
        lemma_key_index_range(m0, key@);
    }
    let mut list: Vec<CacheEntry> = Vec::new();
    list.push(entry);
    cache.by_digest.push((key, list));
    proof {
        lemma_upsert_new_key(m0, cache.by_digest@, key@, entry);
    }
}

/// Config-signature equality, executable form.
pub fn same_config_exec(a: &CacheEntry, b: &CacheEntry) -> (r: bool)
    ensures
        r == a.same_config(*b),
{
    match (a, b) {
        (
            CacheEntry::Image { hash_alg: a1, hash_w: w1, hash_h: h1, .. },
            CacheEntry::Image { hash_alg: a2, hash_w: w2, hash_h: h2, .. },
        ) => *a1 == *a2 && *w1 == *w2 && *h1 == *h2,
        (
            CacheEntry::Video {
                hash_alg: a1,
                hash_w: w1,
                hash_h: h1,
                sample_start: ss1,
                sample_count: sc1,
                sample_window: sw1,
                aggregation: g1,
                ..
            },
            CacheEntry::Video {
                hash_alg: a2,
                hash_w: w2,
                hash_h: h2,
                sample_start: ss2,
                sample_count: sc2,
                sample_window: sw2,
                aggregation: g2,
                ..
            },
        ) => *a1 == *a2 && *w1 == *w2 && *h1 == *h2 && *ss1 == *ss2 && *sc1 == *sc2 && *sw1 == *sw2
            && *g1 == *g2,
        _ => false,
    }
}

proof fn lemma_upsert_known_key(
    m0: Seq<(String, Vec<CacheEntry>)>,
    fm: Seq<(String, Vec<CacheEntry>)>,
    key: Seq<char>,
    entry: CacheEntry,
    ki: int,
)
    requires
        0 <= ki < m0.len(),
        m0[ki].0@ == key,
        forall|j: int| 0 <= j < ki ==> (#[trigger] m0[j]).0@ != key,
        fm.len() == m0.len(),
        forall|j: int| 0 <= j < m0.len() && j != ki ==> #[trigger] fm[j] == m0[j],
        fm[ki].0 == m0[ki].0,
        fm[ki].1@ =~= ({
            let es = m0[ki].1@;
            let si = spec_sig_index(es, entry);
            if si == es.len() {
                es.push(entry)
            } else {
                es.update(si, entry)
            }
        }),
    ensures
        spec_key_index(m0, key) == ki,
        store_wf(m0) ==> store_wf(fm),
        store_wf(m0) ==> {
            let fki = spec_key_index(fm, key);
            &&& fki < fm.len()
            &&& count_same_config(fm[fki].1@, entry) == 1
            &&& exists|i: int| 0 <= i < fm[fki].1@.len() && fm[fki].1@[i] == entry
        },
{
    lemma_key_index_assign(m0, key, ki);
    let es = m0[ki].1@;
    let si = spec_sig_index(es, entry);
    lemma_sig_index_range(es, entry);
    let fes = fm[ki].1@;
    lemma_key_index_assign(fm, key, ki);
    if store_wf(m0) {
        // the updated list stays free of duplicate signatures
        assert forall|i: int, j: int| 0 <= i < j < fes.len() implies !(#[trigger] fes[i]).same_config(
            #[trigger] fes[j],
        ) by {
            if si == es.len() {
                // appended: old entries lack entry's signature
                if j == es.len() {
                    lemma_same_config_equiv(fes[i], entry, entry);
                } else {
                    assert(fes[i] == es[i] && fes[j] == es[j]);
                }
            } else {
                if i == si {
                    if es[j].same_config(entry) {
                        lemma_same_config_equiv(es[si], entry, es[j]);
                        lemma_same_config_equiv(es[j], entry, es[si]);
                        lemma_same_config_equiv(es[si], es[j], es[j]);
                        assert(es[si].same_config(es[j]));
                    }
                    assert(fes[i] == entry && fes[j] == es[j]);
                    if entry.same_config(es[j]) {
                        lemma_same_config_equiv(entry, es[j], es[j]);
                        lemma_same_config_equiv(es[si], entry, es[j]);
                        assert(es[si].same_config(es[j]));
                    }
                } else if j == si {
                    assert(fes[i] == es[i] && fes[j] == entry);
                    if es[i].same_config(entry) {
                        lemma_same_config_equiv(es[i], entry, es[si]);
                        lemma_same_config_equiv(entry, es[si], es[si]);
                        assert(es[i].same_config(es[si]));
                    }
                } else {
                    assert(fes[i] == es[i] && fes[j] == es[j]);
                }
            }
        }
        assert(store_wf(fm));
        // exactly one entry carries entry's signature
        let at: int = if si == es.len() {
            es.len() as int
        } else {
            si
        };
        assert(fes[at] == entry);
        lemma_same_config_equiv(entry, entry, entry);
        assert(entry.same_config(entry));
        assert forall|j: int| 0 <= j < fes.len() && j != at implies !(#[trigger] fes[j]).same_config(
            entry,
        ) by {
            if fes[j].same_config(entry) {
                lemma_same_config_equiv(fes[at], entry, fes[j]);
                lemma_same_config_equiv(fes[j], entry, fes[at]);
                lemma_same_config_equiv(fes[at], fes[j], fes[j]);
                if at < j {
                    assert(fes[at].same_config(fes[j]));
                } else {
                    assert(fes[j].same_config(fes[at]));
                }
            }
        }
        lemma_count_same_config_one(fes, entry, at);
    }
}

proof fn lemma_upsert_new_key(
    m0: Seq<(String, Vec<CacheEntry>)>,
    fm: Seq<(String, Vec<CacheEntry>)>,
    key: Seq<char>,
    entry: CacheEntry,
)
    requires
        spec_key_index(m0, key) == m0.len(),
        fm.len() == m0.len() + 1,
        forall|j: int| 0 <= j < m0.len() ==> #[trigger] fm[j] == m0[j],
        fm[m0.len() as int].0@ == key,
        fm[m0.len() as int].1@ =~= seq![entry],
    ensures
        store_wf(m0) ==> store_wf(fm),
        store_wf(m0) ==> {
            let fki = spec_key_index(fm, key);
            &&& fki < fm.len()
            &&& count_same_config(fm[fki].1@, entry) == 1
            &&& exists|i: int| 0 <= i < fm[fki].1@.len() && fm[fki].1@[i] == entry
        },
{
    lemma_key_index_range(m0, key);
    let at = m0.len() as int;
    lemma_key_index_assign(fm, key, at);
    if store_wf(m0) {
        assert forall|i: int| 0 <= i < fm.len() implies entry_list_wf(
            (#[trigger] fm[i]).1@,
        ) by {
            if i < at {
                assert(fm[i] == m0[i]);
            }
        }
        assert(store_wf(fm));
        let fes = fm[at].1@;
        lemma_same_config_equiv(entry, entry, entry);
        lemma_count_same_config_one(fes, entry, 0);
        assert(fes[0] == entry);
    }
}

/// A lookup comes back empty when no entry stored under the digest matches
/// the query's full config: a stored entry of the other media kind, or one
/// differing in any hash or sampling parameter, is never returned.
pub proof fn lemma_lookup_miss(cache: CacheFile, key: Seq<char>, cfg: AppConfig, is_video: bool)
    requires
        forall|ki: int, i: int|
            0 <= ki < cache.by_digest@.len() && (#[trigger] cache.by_digest@[ki]).0@ == key && 0
                <= i < cache.by_digest@[ki].1@.len() ==> !spec_params_match(
                #[trigger] cache.by_digest@[ki].1@[i],
                cfg,
                is_video,
            ),
    ensures
        spec_lookup(cache, key, cfg, is_video) is None,
{
    let m = cache.by_digest@;
    lemma_key_index_range(m, key);
    let ki = spec_key_index(m, key);
    if ki < m.len() {
        let es = m[ki].1@;
        lemma_match_index_range(es, cfg, is_video);
        let mi = spec_match_index(es, cfg, is_video);
        if mi < es.len() {
            assert(!spec_params_match(es[mi], cfg, is_video));
        }
    }
}

proof fn lemma_count_pos(es: Seq<CacheEntry>, e: CacheEntry, i: int)
    requires
        0 <= i < es.len(),
        es[i].same_config(e),
    ensures
        count_same_config(es, e) >= 1,
    decreases es.len(),
{
    if i > 0 {
        let d = es.drop_first();
        assert(d[i - 1] == es[i]);
        lemma_count_pos(d, e, i - 1);
    }
}

proof fn lemma_count_two(es: Seq<CacheEntry>, e: CacheEntry, i: int, j: int)
    requires
        0 <= i < j < es.len(),
        es[i].same_config(e),
        es[j].same_config(e),
    ensures
        count_same_config(es, e) >= 2,
    decreases es.len(),
{
    let d = es.drop_first();
    if i == 0 {
        assert(d[j - 1] == es[j]);
        lemma_count_pos(d, e, j - 1);
    } else {
        assert(d[i - 1] == es[i] && d[j - 1] == es[j]);
        lemma_count_two(d, e, i - 1, j - 1);
    }
}

/// An entry that matches the query's parameters has the same config
/// signature as any other entry that matches them too.
proof fn lemma_params_match_same_config(
    a: CacheEntry,
    b: CacheEntry,
    cfg: AppConfig,
    is_video: bool,
)
    requires
        spec_params_match(b, cfg, is_video),
    ensures
        spec_params_match(a, cfg, is_video) <==> a.same_config(b),
{
}

/// After an entry matching the query's own parameters is the only one of
/// its config signature under a digest, a lookup under that digest and
/// those parameters returns exactly that entry.
pub proof fn lemma_lookup_finds_entry(
    cache: CacheFile,
    key: Seq<char>,
    cfg: AppConfig,
    is_video: bool,
    entry: CacheEntry,
)
    requires
        spec_params_match(entry, cfg, is_video),
        spec_key_index(cache.by_digest@, key) < cache.by_digest@.len(),
        count_same_config(
            cache.by_digest@[spec_key_index(cache.by_digest@, key)].1@,
            entry,
        ) == 1,
        exists|i: int|
            0 <= i < cache.by_digest@[spec_key_index(cache.by_digest@, key)].1@.len()
                && cache.by_digest@[spec_key_index(cache.by_digest@, key)].1@[i] == entry,
    ensures
        spec_lookup(cache, key, cfg, is_video) == Some(entry),
{
    let m = cache.by_digest@;
    let ki = spec_key_index(m, key);
    let es = m[ki].1@;
    let i = choose|i: int| 0 <= i < es.len() && es[i] == entry;
    lemma_same_config_equiv(entry, entry, entry);
    assert(es[i].same_config(entry));
    lemma_match_index_range(es, cfg, is_video);
    let mi = spec_match_index(es, cfg, is_video);
    if mi == es.len() {
        assert(!spec_params_match(es[i], cfg, is_video));
        assert(false);
    }
    lemma_params_match_same_config(es[mi], entry, cfg, is_video);
    assert(es[mi].same_config(entry));
    if mi != i {
        if mi < i {
            lemma_count_two(es, entry, mi, i);
        } else {
            lemma_count_two(es, entry, i, mi);
        }
        assert(false);
    }
}

/// Whether the store holds unique digest keys and, under each digest, at
/// most one entry per config signature: the cache's stated invariants,
/// checked outright.
pub fn store_well_formed(m: &Vec<(String, Vec<CacheEntry>)>) -> (r: bool)
    ensures
        r == store_wf(m@),
{
    let n = m.len();
    let mut k1: usize = 0;
    while k1 < n
        invariant
            n == m@.len(),
            0 <= k1 <= n,
            forall|i: int, j: int|
                0 <= i < j < n && i < k1 ==> (#[trigger] m@[i]).0@ != (#[trigger] m@[j]).0@,
            forall|i: int| 0 <= i < k1 ==> entry_list_wf((#[trigger] m@[i]).1@),
        decreases n - k1,
    {
        let mut k2: usize = k1 + 1;
        while k2 < n
            invariant
                n == m@.len(),
                0 <= k1 < n,
                k1 + 1 <= k2 <= n,
                forall|j: int| k1 < j < k2 ==> (#[trigger] m@[j]).0@ != m@[k1 as int].0@,
            decreases n - k2,
        {
            if str_eq(m[k1].0.as_str(), m[k2].0.as_str()) {
                proof {
                    assert(m@[k1 as int].0@ == m@[k2 as int].0@);
                    assert(!store_wf(m@));
                }
                return false;
            }
            k2 = k2 + 1;
        }
        let es = &m[k1].1;
        let en = es.len();
        let mut i: usize = 0;
        while i < en
            invariant
                en == es@.len(),
                k1 < m@.len(),
                es@ == m@[k1 as int].1@,
                0 <= i <= en,
                forall|a: int, b: int|
                    0 <= a < b < en && a < i ==> !(#[trigger] es@[a]).same_config(
                        #[trigger] es@[b],
                    ),
            decreases en - i,
        {
            let mut j2: usize = i + 1;
            while j2 < en
                invariant
                    en == es@.len(),
                    k1 < m@.len(),
                    es@ == m@[k1 as int].1@,
                    0 <= i < en,
                    i + 1 <= j2 <= en,
                    forall|b: int|
                        i < b < j2 ==> !es@[i as int].same_config(#[trigger] es@[b]),
                decreases en - j2,
            {
                if same_config_exec(&es[i], &es[j2]) {
                    proof {
                        assert(m@[k1 as int].1@[i as int].same_config(
                            m@[k1 as int].1@[j2 as int],
                        ));
                        assert(!entry_list_wf(m@[k1 as int].1@));
                        assert(!store_wf(m@));
                    }
                    return false;
                }
                j2 = j2 + 1;
            }
            i = i + 1;
        }
        proof {
            assert(entry_list_wf(m@[k1 as int].1@));
        }
        k1 = k1 + 1;
    }
    proof {
        assert(store_wf(m@));
    }
    true
}

} // verus!
