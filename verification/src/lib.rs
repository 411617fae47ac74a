pub mod aggregate;
pub mod bits;
pub mod cache;
pub mod codec;
pub mod digest;
pub mod errors;
pub mod grouping;
pub mod phash;
pub mod pipeline;
pub mod sample;
pub mod scan;
pub mod types;
