//! Error taxonomy: IO, decode, cache, and pool failures, as plain data.
use vstd::prelude::*;

verus! {

/// Failure to load or store the persistent cache.
#[derive(Clone, Debug, PartialEq)]
pub enum CacheError {
    /// The cache file could not be read or written.
    Io(String),
    /// The persisted bytes are not a cache document; the payload is the byte
    /// offset at which reading them failed.
    Json(usize),
    /// The persisted cache carries another schema version than this build.
    VersionMismatch { expected: u32, found: u32 },
}

/// Failure to hash one media file.
#[derive(Clone, Debug, PartialEq)]
pub enum HashError {
    /// The file could not be read.
    Io(String),
    /// The bytes could not be decoded as an image.
    Image(String),
}

/// Failure to decode a video.
#[derive(Clone, Debug, PartialEq)]
pub enum VideoError {
    /// The decoding backend could not be initialised.
    Ffmpeg(String),
    /// The container could not be opened or decoded, or has no video stream.
    Decode(String),
    /// Decoding produced no usable frame at all.
    NoSamples,
}

/// Any failure the pipeline can surface.
#[derive(Clone, Debug, PartialEq)]
pub enum AppError {
    Cache(CacheError),
    Hash(HashError),
    Io(String),
    /// The worker pool could not be constructed.
    Pool(String),
    Video(VideoError),
}

} // verus!
