//! Bit counting and Hamming distance over raw hash bytes.
use vstd::prelude::*;

verus! {

/// Number of set bits in one byte.
pub open spec fn popcount8(b: u8) -> nat {
    (((b >> 0) & 1) + ((b >> 1) & 1) + ((b >> 2) & 1) + ((b >> 3) & 1) + ((b >> 4) & 1) + ((b >> 5)
        & 1) + ((b >> 6) & 1) + ((b >> 7) & 1)) as nat
}

/// Bits set among the first `n` bytes of `a ^ b`.
pub open spec fn spec_hamming_prefix(a: Seq<u8>, b: Seq<u8>, n: int) -> nat
    decreases n,
{
    if n <= 0 {
        0
    } else {
        spec_hamming_prefix(a, b, n - 1) + popcount8(a[n - 1] ^ b[n - 1])
    }
}

/// Hamming distance between two equal-length byte strings: the number of
/// bit positions at which they differ.
pub open spec fn spec_hamming(a: Seq<u8>, b: Seq<u8>) -> nat {
    spec_hamming_prefix(a, b, a.len() as int)
}

/// Longest byte length whose bit count still fits in a `u32`.
pub const HAMMING_MAX_LEN: usize = 0x1FFF_FFFF;

proof fn lemma_hamming_prefix_bound(a: Seq<u8>, b: Seq<u8>, n: int)
    requires
        0 <= n,
    ensures
        spec_hamming_prefix(a, b, n) <= 8 * n,
    decreases n,
{
    if n > 0 {
        lemma_hamming_prefix_bound(a, b, n - 1);
        assert(popcount8(a[n - 1] ^ b[n - 1]) <= 8) by {
            let x = a[n - 1] ^ b[n - 1];
            assert(((x >> 0) & 1) <= 1 && ((x >> 1) & 1) <= 1 && ((x >> 2) & 1) <= 1 && ((x >> 3)
                & 1) <= 1 && ((x >> 4) & 1) <= 1 && ((x >> 5) & 1) <= 1 && ((x >> 6) & 1) <= 1 && ((
            x >> 7) & 1) <= 1) by (bit_vector);
        }
    }
}

/// Set bits of one byte, counted bit by bit.
pub fn popcount_byte(b: u8) -> (r: u32)
    ensures
        r == popcount8(b),
        r <= 8,
{
    let r = ((b >> 0u8) & 1) as u32 + ((b >> 1u8) & 1) as u32 + ((b >> 2u8) & 1) as u32 + ((b
        >> 3u8) & 1) as u32 + ((b >> 4u8) & 1) as u32 + ((b >> 5u8) & 1) as u32 + ((b >> 6u8)
        & 1) as u32 + ((b >> 7u8) & 1) as u32;
    assert(((b >> 0u8) & 1) <= 1 && ((b >> 1u8) & 1) <= 1 && ((b >> 2u8) & 1) <= 1 && ((b >> 3u8)
        & 1) <= 1 && ((b >> 4u8) & 1) <= 1 && ((b >> 5u8) & 1) <= 1 && ((b >> 6u8) & 1) <= 1 && ((b
        >> 7u8) & 1) <= 1) by (bit_vector);
    r
}

/// Hamming distance in bits between two equal-length byte strings.
pub fn hamming_bytes(a: &[u8], b: &[u8]) -> (r: u32)
    requires
        a@.len() == b@.len(),
        a@.len() <= HAMMING_MAX_LEN,
    ensures
        r == spec_hamming(a@, b@),
        r <= 8 * a@.len(),
{
    let n = a.len();
    let mut i: usize = 0;
    let mut acc: u32 = 0;
    while i < n
        invariant
            n == a@.len() == b@.len(),
            n <= HAMMING_MAX_LEN,
            0 <= i <= n,
            acc == spec_hamming_prefix(a@, b@, i as int),
            acc <= 8 * i,
        decreases n - i,
    {
        let d = popcount_byte(a[i] ^ b[i]);
        acc = acc + d;
        i = i + 1;
    }
    proof {
        lemma_hamming_prefix_bound(a@, b@, n as int);
    }
    acc
}

/// A Hamming distance never exceeds the number of bits compared.
pub proof fn lemma_hamming_le_bits(a: Seq<u8>, b: Seq<u8>)
    ensures
        spec_hamming(a, b) <= 8 * a.len(),
{
    lemma_hamming_prefix_bound(a, b, a.len() as int);
}

/// Hamming distance is symmetric.
pub proof fn lemma_hamming_symmetric(a: Seq<u8>, b: Seq<u8>)
    requires
        a.len() == b.len(),
    ensures
        spec_hamming(a, b) == spec_hamming(b, a),
{
    lemma_hamming_prefix_symmetric(a, b, a.len() as int);
}

proof fn lemma_hamming_prefix_symmetric(a: Seq<u8>, b: Seq<u8>, n: int)
    ensures
        spec_hamming_prefix(a, b, n) == spec_hamming_prefix(b, a, n),
    decreases n,
{
    if n > 0 {
        lemma_hamming_prefix_symmetric(a, b, n - 1);
        let x = a[n - 1];
        let y = b[n - 1];
        assert((x ^ y) == (y ^ x)) by (bit_vector);
    }
}

/// Hamming distance is zero exactly when the two byte strings are identical.
pub proof fn lemma_hamming_zero_iff_eq(a: Seq<u8>, b: Seq<u8>)
    requires
        a.len() == b.len(),
    ensures
        (spec_hamming(a, b) == 0) <==> (a == b),
{
    lemma_hamming_prefix_zero(a, b, a.len() as int);
    if spec_hamming(a, b) == 0 {
        assert(forall|i: int| 0 <= i < a.len() ==> a[i] == b[i]);
        assert(a =~= b);
    } else {
        if a == b {
            assert(forall|i: int| 0 <= i < a.len() ==> a[i] == b[i]);
        }
    }
}

proof fn lemma_hamming_prefix_zero(a: Seq<u8>, b: Seq<u8>, n: int)
    ensures
        (spec_hamming_prefix(a, b, n) == 0) <==> (forall|i: int| 0 <= i < n ==> a[i] == b[i]),
    decreases n,
{
    if n > 0 {
        lemma_hamming_prefix_zero(a, b, n - 1);
        let x = a[n - 1];
        let y = b[n - 1];
        assert((popcount8(x ^ y) == 0) <==> (x == y)) by {
            assert(((((x ^ y) >> 0) & 1) + (((x ^ y) >> 1) & 1) + (((x ^ y) >> 2) & 1) + (((x ^ y)
                >> 3) & 1) + (((x ^ y) >> 4) & 1) + (((x ^ y) >> 5) & 1) + (((x ^ y) >> 6) & 1) + ((
            (x ^ y) >> 7) & 1) == 0) <==> (x == y)) by (bit_vector);
        }
    }
}

} // verus!
