//! Core data model: run configuration, cache records, and pipeline results.
use vstd::prelude::*;

verus! {

/// Schema version of the persisted cache. A loaded cache whose version
/// differs from this constant is rejected outright.
pub const CACHE_VERSION: u32 = 3;

/// Perceptual hash algorithm choices.
#[derive(Clone, Copy, Debug, PartialEq, Eq, Structural)]
pub enum HashAlg {
    Mean,
    Gradient,
    DoubleGradient,
}

/// Strategy for folding many per-frame hashes into a single video hash.
/// - `Majority`: bitwise majority vote, then the closest real frame hash.
/// - `Medoid`: the frame hash with the smallest total distance to all others.
#[derive(Clone, Copy, Debug, PartialEq, Eq, Structural)]
pub enum Aggregation {
    Majority,
    Medoid,
}

/// One cached hash together with the exact parameters used to compute it.
/// Image and video entries are distinct variants, so a video entry always
/// carries its sampling and aggregation parameters and an image entry never
/// does.
#[derive(Clone, Debug, PartialEq)]
pub enum CacheEntry {
    Image {
        hash_alg: HashAlg,
        hash_w: u32,
        hash_h: u32,
        perceptual_hash: String,
    },
    Video {
        hash_alg: HashAlg,
        hash_w: u32,
        hash_h: u32,
        perceptual_hash: String,
        sample_start: usize,
        sample_count: usize,
        sample_window: usize,
        aggregation: Aggregation,
    },
}

impl CacheEntry {
    /// The stored perceptual hash, whichever variant holds it.
    pub open spec fn spec_hash(self) -> Seq<char> {
        match self {
            CacheEntry::Image { perceptual_hash, .. } => perceptual_hash@,
            CacheEntry::Video { perceptual_hash, .. } => perceptual_hash@,
        }
    }

    /// Two entries have the same config signature when they agree on the
    /// variant and on every field except the stored hash itself.
    pub open spec fn same_config(self, other: CacheEntry) -> bool {
        match (self, other) {
            (
                CacheEntry::Image { hash_alg: a1, hash_w: w1, hash_h: h1, .. },
                CacheEntry::Image { hash_alg: a2, hash_w: w2, hash_h: h2, .. },
            ) => a1 == a2 && w1 == w2 && h1 == h2,
            (
                CacheEntry::Video {
                    hash_alg: a1,
                    hash_w: w1,
                    hash_h: h1,
                    sample_start: ss1,
                    sample_count: sc1,
                    sample_window: sw1,
                    aggregation: g1,
                    ..
                },
                CacheEntry::Video {
                    hash_alg: a2,
                    hash_w: w2,
                    hash_h: h2,
                    sample_start: ss2,
                    sample_count: sc2,
                    sample_window: sw2,
                    aggregation: g2,
                    ..
                },
            ) => a1 == a2 && w1 == w2 && h1 == h2 && ss1 == ss2 && sc1 == sc2 && sw1 == sw2
                && g1 == g2,
            _ => false,
        }
    }

    /// The stored perceptual hash, executable form.
    pub fn hash_str(&self) -> (r: &String)
        ensures
            r@ == self.spec_hash(),
    {
        match self {
            CacheEntry::Image { perceptual_hash, .. } => perceptual_hash,
            CacheEntry::Video { perceptual_hash, .. } => perceptual_hash,
        }
    }
}

/// Run-wide configuration handed to the pipeline.
#[derive(Clone, Debug)]
pub struct AppConfig {
    pub media_paths: Vec<String>,
    pub hash_alg: HashAlg,
    pub hash_w: u32,
    pub hash_h: u32,
    pub parallelism: usize,
    pub sample_start: usize,
    pub sample_count: usize,
    pub sample_window: usize,
    pub aggregation: Aggregation,
}

/// One record per successfully processed file.
#[derive(Clone, Debug, PartialEq)]
pub struct PipelineResult {
    pub path: String,
    pub blake3: String,
    pub perceptual_hash: String,
}

/// The persistent cache: a schema version and, per content digest, the list
/// of entries computed for that content under various configurations.
/// Keys are unique; a list's order matters only for first-match ties.
#[derive(Clone, Debug, PartialEq)]
pub struct CacheFile {
    pub version: u32,
    pub by_digest: Vec<(String, Vec<CacheEntry>)>,
}

/// At most one entry of a digest's list matches any one config signature.
pub open spec fn entry_list_wf(es: Seq<CacheEntry>) -> bool {
    forall|i: int, j: int|
        0 <= i < j < es.len() ==> !(#[trigger] es[i]).same_config(#[trigger] es[j])
}

/// Digest keys are unique and every entry list is well formed.
pub open spec fn store_wf(m: Seq<(String, Vec<CacheEntry>)>) -> bool {
    &&& forall|i: int, j: int|
        0 <= i < j < m.len() ==> (#[trigger] m[i]).0@ != (#[trigger] m[j]).0@
    &&& forall|i: int| 0 <= i < m.len() ==> entry_list_wf((#[trigger] m[i]).1@)
}

impl CacheFile {
    /// Digest keys are unique and every entry list is well formed.
    pub open spec fn wf(self) -> bool {
        store_wf(self.by_digest@)
    }

    /// A fresh, empty cache at the current schema version.
    pub fn fresh() -> (r: CacheFile)
        ensures
            r.version == CACHE_VERSION,
            r.by_digest@.len() == 0,
            r.wf(),
    {
        CacheFile { version: CACHE_VERSION, by_digest: Vec::new() }
    }
}

impl Default for CacheFile {
    fn default() -> (r: Self)
        ensures
            r.version == CACHE_VERSION,
            r.by_digest@.len() == 0,
            r.wf(),
    {
        CacheFile::fresh()
    }
}

} // verus!
