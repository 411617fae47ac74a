//! Content identity: a streaming 256-bit digest over a file's bytes.
//!
//! The digest is a function of the bytes fed in, and of nothing else: the
//! same content gives the same digest whatever the file is called or where
//! it lives.
use vstd::prelude::*;

use crate::codec::plain_str;

verus! {

/// The 64-character lowercase hex digest of a byte stream.
pub uninterp spec fn blake3_hex_of(data: Seq<u8>) -> Seq<char>;

#[verifier::external_type_specification]
#[verifier::external_body]
pub struct ExBlake3Hasher(blake3::Hasher);

/// Absorbs a file's bytes chunk by chunk and yields the hex digest of the
/// whole stream; the caller never holds more than one chunk in memory.
pub struct ContentDigester {
    inner: blake3::Hasher,
    fed: Ghost<Seq<u8>>,
}

impl ContentDigester {
    /// Everything absorbed so far, in order.
    pub closed spec fn bytes_fed(self) -> Seq<u8> {
        self.fed@
    }

    /// Relies on blake3::Hasher::new: a fresh hasher has absorbed nothing.
    #[verifier::external_body]
    pub fn new() -> (r: ContentDigester)
        ensures
            r.bytes_fed() == Seq::<u8>::empty(),
    {
        ContentDigester { inner: blake3::Hasher::new(), fed: Ghost(Seq::empty()) }
    }

    /// Relies on blake3::Hasher::update: absorbing a chunk appends it to
    /// the hashed stream.
    #[verifier::external_body]
    pub fn update(&mut self, chunk: &[u8])
        ensures
            final(self).bytes_fed() == old(self).bytes_fed() + chunk@,
    {
        self.inner.update(chunk);
    }

    /// Relies on blake3::Hasher::finalize and blake3::Hash::to_hex: the
    /// digest of the absorbed bytes as 64 lowercase hex characters, a
    /// function of those bytes alone.
    #[verifier::external_body]
    pub fn finalize_hex(&self) -> (r: String)
        ensures
            r@ == blake3_hex_of(self.bytes_fed()),
            r@.len() == 64,
            plain_str(r@),
            forall|i: int|
                0 <= i < r@.len() ==> (('0' <= #[trigger] r@[i] && r@[i] <= '9') || ('a' <= r@[i]
                    && r@[i] <= 'f')),
    {
        self.inner.finalize().to_hex().to_string()
    }
}

/// Two streams of the same bytes carry the same digest, however they were
/// chunked: the digest identifies content, not names or paths.
pub proof fn lemma_digest_deterministic(a: ContentDigester, b: ContentDigester)
    requires
        a.bytes_fed() == b.bytes_fed(),
    ensures
        blake3_hex_of(a.bytes_fed()) == blake3_hex_of(b.bytes_fed()),
{
}

} // verus!
