//! Folding many per-frame hashes into one representative hash.
//!
//! Both strategies return a hash that actually occurs among the inputs:
//! the medoid minimises the total distance to all frames, and the majority
//! strategy returns the real frame hash closest to the bitwise majority.
use vstd::prelude::*;

use crate::bits::{HAMMING_MAX_LEN, hamming_bytes, popcount8, spec_hamming};

verus! {

/// Every hash in the list is `len` bytes long.
pub open spec fn all_hashes_len(hs: Seq<Seq<u8>>, len: nat) -> bool {
    forall|i: int| 0 <= i < hs.len() ==> (#[trigger] hs[i]).len() == len
}

/// All hashes share one byte length, and that length is small enough for
/// distances to be counted in a `u32`.
pub open spec fn uniform_hashes(hs: Seq<Seq<u8>>) -> bool {
    &&& forall|i: int| 0 <= i < hs.len() ==> (#[trigger] hs[i]).len() == hs[0].len()
    &&& hs.len() > 0 ==> hs[0].len() <= HAMMING_MAX_LEN
}

/// Sum of the Hamming distances from `x` to the first `n` hashes.
pub open spec fn spec_dist_sum_prefix(hs: Seq<Seq<u8>>, x: Seq<u8>, n: int) -> nat
    decreases n,
{
    if n <= 0 {
        0
    } else {
        spec_dist_sum_prefix(hs, x, n - 1) + spec_hamming(x, hs[n - 1])
    }
}

/// Total Hamming distance from hash `i` to every hash of the list.
pub open spec fn spec_dist_sum(hs: Seq<Seq<u8>>, i: int) -> nat {
    spec_dist_sum_prefix(hs, hs[i], hs.len() as int)
}

/// Index among the first `n` hashes with the least total distance; the
/// earliest such index on ties.
pub open spec fn spec_medoid_index_upto(hs: Seq<Seq<u8>>, n: int) -> int
    decreases n,
{
    if n <= 1 {
        0
    } else {
        let b = spec_medoid_index_upto(hs, n - 1);
        if spec_dist_sum(hs, n - 1) < spec_dist_sum(hs, b) {
            n - 1
        } else {
            b
        }
    }
}

/// The medoid: the hash minimising the sum of distances to all others,
/// earliest on ties.
pub open spec fn spec_medoid_index(hs: Seq<Seq<u8>>) -> int {
    spec_medoid_index_upto(hs, hs.len() as int)
}

proof fn lemma_medoid_index_upto_range(hs: Seq<Seq<u8>>, n: int)
    requires
        1 <= n <= hs.len(),
    ensures
        0 <= spec_medoid_index_upto(hs, n) < n,
        forall|i: int|
            0 <= i < n ==> spec_dist_sum(hs, spec_medoid_index_upto(hs, n))
                <= #[trigger] spec_dist_sum(hs, i),
    decreases n,
{
    if n > 1 {
        lemma_medoid_index_upto_range(hs, n - 1);
    }
}

/// The medoid index is in range and no other index beats its total distance.
pub proof fn lemma_medoid_index_minimises(hs: Seq<Seq<u8>>)
    requires
        hs.len() >= 1,
    ensures
        0 <= spec_medoid_index(hs) < hs.len(),
        forall|i: int|
            0 <= i < hs.len() ==> spec_dist_sum(hs, spec_medoid_index(hs)) <= #[trigger] spec_dist_sum(
                hs,
                i,
            ),
{
    lemma_medoid_index_upto_range(hs, hs.len() as int);
}

proof fn lemma_dist_sum_prefix_bound(hs: Seq<Seq<u8>>, x: Seq<u8>, n: int, len: nat)
    requires
        0 <= n <= hs.len(),
        x.len() == len,
        all_hashes_len(hs, len),
    ensures
        spec_dist_sum_prefix(hs, x, n) <= n * (8 * len),
    decreases n,
{
    if n > 0 {
        lemma_dist_sum_prefix_bound(hs, x, n - 1, len);
        crate::bits::lemma_hamming_le_bits(x, hs[n - 1]);
        assert((n - 1) * (8 * len) + (8 * len) == n * (8 * len)) by (nonlinear_arith);
    }
}

/// Copy one hash out of the list.
fn clone_hash(h: &Vec<u8>) -> (r: Vec<u8>)
    ensures
        r@ == h@,
{
    let mut out: Vec<u8> = Vec::new();
    let n = h.len();
    let mut i: usize = 0;
    while i < n
        invariant
            n == h@.len(),
            0 <= i <= n,
            out@ == h@.take(i as int),
        decreases n - i,
    {
        out.push(h[i]);
        proof {
            assert(out@ =~= h@.take(i + 1));
        }
        i = i + 1;
    }
    proof {
        assert(h@.take(n as int) =~= h@);
    }
    out
}

/// Total Hamming distance from `x` to every hash of the list.
fn dist_sum_to(hs: &Vec<Vec<u8>>, x: &Vec<u8>, Ghost(len): Ghost<nat>) -> (s: u128)
    requires
        x@.len() == len,
        len <= HAMMING_MAX_LEN,
        all_hashes_len(hs.deep_view(), len),
    ensures
        s == spec_dist_sum_prefix(hs.deep_view(), x@, hs@.len() as int),
{
    let n = hs.len();
    let mut s: u128 = 0;
    let mut j: usize = 0;
    while j < n
        invariant
            n == hs@.len(),
            0 <= j <= n,
            x@.len() == len,
            len <= HAMMING_MAX_LEN,
            all_hashes_len(hs.deep_view(), len),
            s == spec_dist_sum_prefix(hs.deep_view(), x@, j as int),
            s <= (j as int) * (8 * len),
        decreases n - j,
    {
        proof {
            assert(hs.deep_view()[j as int] == hs@[j as int]@);
            crate::bits::lemma_hamming_le_bits(x@, hs.deep_view()[j as int]);
            assert((j as int) * (8 * len) + (8 * len) == (j + 1) * (8 * len)) by (nonlinear_arith);
            assert((j as int + 1) * (8 * len) <= 0x1_0000_0000_0000_0000 * 0x1_0000_0000)
                by (nonlinear_arith)
                requires
                    j as int + 1 <= 0x1_0000_0000_0000_0000,
                    0 <= 8 * len <= 0x1_0000_0000,
            ;
        }
        let d = hamming_bytes(x.as_slice(), hs[j].as_slice());
        s = s + d as u128;
        j = j + 1;
    }
    s
}

/// The medoid of the frame hashes: the one with the least total Hamming
/// distance to all frames, the first such on ties. Empty input gives
/// nothing; a single hash comes back unchanged.
pub fn aggregate_medoid(hashes: &Vec<Vec<u8>>) -> (r: Option<Vec<u8>>)
    requires
        uniform_hashes(hashes.deep_view()),
    ensures
        hashes@.len() == 0 ==> r is None,
        hashes@.len() >= 1 ==> {
            &&& r is Some
            &&& 0 <= spec_medoid_index(hashes.deep_view()) < hashes@.len()
            &&& r->0@ == hashes.deep_view()[spec_medoid_index(hashes.deep_view())]
        },
{
    let n = hashes.len();
    if n == 0 {
        return None;
    }
    proof {
        lemma_medoid_index_upto_range(hashes.deep_view(), n as int);
    }
    let ghost dv = hashes.deep_view();
    let ghost len = dv[0].len();
    let mut best_idx: usize = 0;
    proof {
        assert(dv[0] == hashes@[0]@);
    }
    let mut best_sum: u128 = dist_sum_to(hashes, &hashes[0], Ghost(len));
    let mut i: usize = 1;
    while i < n
        invariant
            n == hashes@.len(),
            dv == hashes.deep_view(),
            len <= HAMMING_MAX_LEN,
            all_hashes_len(dv, len),
            1 <= i <= n,
            0 <= best_idx < i,
            best_idx == spec_medoid_index_upto(dv, i as int),
            best_sum == spec_dist_sum(dv, best_idx as int),
        decreases n - i,
    {
        proof {
            assert(dv[i as int] == hashes@[i as int]@);
        }
        let s = dist_sum_to(hashes, &hashes[i], Ghost(len));
        if s < best_sum {
            best_sum = s;
            best_idx = i;
        }
        i = i + 1;
    }
    Some(clone_hash(&hashes[best_idx]))
}

/// Whether bit `b` of byte `i` is set in the bitwise majority across all
/// hashes: at least as many ones as zeros at that position (ties count as
/// ones).
pub open spec fn spec_majority_bit(hs: Seq<Seq<u8>>, i: int, b: int) -> bool {
    2 * spec_ones_at(hs, i, b, hs.len() as int) >= hs.len()
}

/// How many of the first `n` hashes have bit `b` of byte `i` set.
pub open spec fn spec_ones_at(hs: Seq<Seq<u8>>, i: int, b: int, n: int) -> nat
    decreases n,
{
    if n <= 0 {
        0
    } else {
        spec_ones_at(hs, i, b, n - 1) + (((hs[n - 1][i] as u8) >> (b as u8)) & 1) as nat
    }
}

/// Byte `i` of the bitwise majority hash.
pub open spec fn spec_majority_byte(hs: Seq<Seq<u8>>, i: int) -> u8 {
    (spec_majority_bit_val(hs, i, 0) + 2 * spec_majority_bit_val(hs, i, 1) + 4
        * spec_majority_bit_val(hs, i, 2) + 8 * spec_majority_bit_val(hs, i, 3) + 16
        * spec_majority_bit_val(hs, i, 4) + 32 * spec_majority_bit_val(hs, i, 5) + 64
        * spec_majority_bit_val(hs, i, 6) + 128 * spec_majority_bit_val(hs, i, 7)) as u8
}

pub open spec fn spec_majority_bit_val(hs: Seq<Seq<u8>>, i: int, b: int) -> u8 {
    if spec_majority_bit(hs, i, b) {
        1
    } else {
        0
    }
}

/// The whole bitwise majority hash, one byte per input byte position.
pub open spec fn spec_majority(hs: Seq<Seq<u8>>, len: nat) -> Seq<u8> {
    Seq::new(len, |i: int| spec_majority_byte(hs, i))
}

/// How many of the hashes have bit `b` of byte `i` set, executable form.
fn ones_at(hs: &Vec<Vec<u8>>, i: usize, b: u8, Ghost(len): Ghost<nat>) -> (c: usize)
    requires
        all_hashes_len(hs.deep_view(), len),
        i < len,
        b < 8,
    ensures
        c == spec_ones_at(hs.deep_view(), i as int, b as int, hs@.len() as int),
        c <= hs@.len(),
{
    let n = hs.len();
    let mut c: usize = 0;
    let mut j: usize = 0;
    while j < n
        invariant
            n == hs@.len(),
            all_hashes_len(hs.deep_view(), len),
            i < len,
            b < 8,
            0 <= j <= n,
            c == spec_ones_at(hs.deep_view(), i as int, b as int, j as int),
            c <= j,
        decreases n - j,
    {
        proof {
            assert(hs.deep_view()[j as int] == hs@[j as int]@);
        }
        let byte = hs[j][i];
        proof {
            assert((byte >> b) & 1 <= 1) by (bit_vector);
        }
        let bit = (byte >> b) & 1;
        c = c + bit as usize;
        j = j + 1;
    }
    c
}

/// The bitwise majority hash across all frames, ties resolved toward one.
fn majority_bytes(hs: &Vec<Vec<u8>>, hash_len: usize, Ghost(len): Ghost<nat>) -> (r: Vec<u8>)
    requires
        hash_len == len,
        all_hashes_len(hs.deep_view(), len),
    ensures
        r@ == spec_majority(hs.deep_view(), len),
{
    let mut out: Vec<u8> = Vec::new();
    let mut i: usize = 0;
    while i < hash_len
        invariant
            hash_len == len,
            all_hashes_len(hs.deep_view(), len),
            0 <= i <= hash_len,
            out@.len() == i,
            forall|k: int| 0 <= k < i ==> out@[k] == spec_majority_byte(hs.deep_view(), k),
        decreases hash_len - i,
    {
        let n = hs.len();
        let b0 = majority_bit(hs, i, 0, Ghost(len));
        let b1 = majority_bit(hs, i, 1, Ghost(len));
        let b2 = majority_bit(hs, i, 2, Ghost(len));
        let b3 = majority_bit(hs, i, 3, Ghost(len));
        let b4 = majority_bit(hs, i, 4, Ghost(len));
        let b5 = majority_bit(hs, i, 5, Ghost(len));
        let b6 = majority_bit(hs, i, 6, Ghost(len));
        let b7 = majority_bit(hs, i, 7, Ghost(len));
        let byte: u8 = b0 + 2 * b1 + 4 * b2 + 8 * b3 + 16 * b4 + 32 * b5 + 64 * b6 + 128 * b7;
        out.push(byte);
        i = i + 1;
    }
    proof {
        assert(out@ =~= spec_majority(hs.deep_view(), len));
    }
    out
}

/// One bit of the majority hash: 1 when ones are at least as common as
/// zeros at this bit position.
fn majority_bit(hs: &Vec<Vec<u8>>, i: usize, b: u8, Ghost(len): Ghost<nat>) -> (r: u8)
    requires
        all_hashes_len(hs.deep_view(), len),
        i < len,
        b < 8,
    ensures
        r == spec_majority_bit_val(hs.deep_view(), i as int, b as int),
{
    let n = hs.len();
    let ones = ones_at(hs, i, b, Ghost(len));
    // at least as many ones as zeros, i.e. 2 * ones >= n, without overflow
    if ones >= n - ones {
        1
    } else {
        0
    }
}

/// Index among the first `n` hashes closest to `target`, earliest on ties.
pub open spec fn spec_closest_index_upto(hs: Seq<Seq<u8>>, target: Seq<u8>, n: int) -> int
    decreases n,
{
    if n <= 1 {
        0
    } else {
        let b = spec_closest_index_upto(hs, target, n - 1);
        if spec_hamming(hs[n - 1], target) < spec_hamming(hs[b], target) {
            n - 1
        } else {
            b
        }
    }
}

/// The real frame hash closest to `target`, earliest on ties.
pub open spec fn spec_closest_index(hs: Seq<Seq<u8>>, target: Seq<u8>) -> int {
    spec_closest_index_upto(hs, target, hs.len() as int)
}

proof fn lemma_closest_index_upto_range(hs: Seq<Seq<u8>>, target: Seq<u8>, n: int)
    requires
        1 <= n <= hs.len(),
    ensures
        0 <= spec_closest_index_upto(hs, target, n) < n,
        forall|i: int|
            0 <= i < n ==> spec_hamming(hs[spec_closest_index_upto(hs, target, n)], target)
                <= #[trigger] spec_hamming(hs[i], target),
    decreases n,
{
    if n > 1 {
        lemma_closest_index_upto_range(hs, target, n - 1);
    }
}

/// The closest index is in range and no other hash lies nearer the target.
pub proof fn lemma_closest_index_minimises(hs: Seq<Seq<u8>>, target: Seq<u8>)
    requires
        hs.len() >= 1,
    ensures
        0 <= spec_closest_index(hs, target) < hs.len(),
        forall|i: int|
            0 <= i < hs.len() ==> spec_hamming(hs[spec_closest_index(hs, target)], target)
                <= #[trigger] spec_hamming(hs[i], target),
{
    lemma_closest_index_upto_range(hs, target, hs.len() as int);
}

/// Majority-vote aggregation that still returns a genuine frame hash:
/// compute the bitwise majority across all frames (ties toward one), then
/// return the real frame hash closest to it in Hamming distance, the first
/// on ties. Empty input gives nothing; a single hash comes back unchanged.
pub fn aggregate_majority_as_real(hashes: &Vec<Vec<u8>>) -> (r: Option<Vec<u8>>)
    requires
        uniform_hashes(hashes.deep_view()),
    ensures
        hashes@.len() == 0 ==> r is None,
        hashes@.len() >= 1 ==> {
            let dv = hashes.deep_view();
            let ci = spec_closest_index(dv, spec_majority(dv, dv[0].len()));
            &&& r is Some
            &&& 0 <= ci < hashes@.len()
            &&& r->0@ == dv[ci]
        },
{
    let n = hashes.len();
    if n == 0 {
        return None;
    }
    let ghost dv = hashes.deep_view();
    let ghost len = dv[0].len();
    proof {
        lemma_closest_index_upto_range(dv, spec_majority(dv, len), n as int);
    }
    if n == 1 {
        proof {
            assert(spec_closest_index(dv, spec_majority(dv, len)) == 0);
        }
        return Some(clone_hash(&hashes[0]));
    }
    proof {
        assert(dv[0] == hashes@[0]@);
    }
    let hash_len = hashes[0].len();
    let majority = majority_bytes(hashes, hash_len, Ghost(len));
    let mut best_idx: usize = 0;
    proof {
        assert(dv[0] == hashes@[0]@);
    }
    let mut best_dist: u32 = hamming_bytes(hashes[0].as_slice(), majority.as_slice());
    let mut i: usize = 1;
    while i < n
        invariant
            n == hashes@.len(),
            dv == hashes.deep_view(),
            len <= HAMMING_MAX_LEN,
            hash_len == len,
            all_hashes_len(dv, len),
            majority@ == spec_majority(dv, len),
            1 <= i <= n,
            0 <= best_idx < i,
            best_idx == spec_closest_index_upto(dv, majority@, i as int),
            best_dist == spec_hamming(dv[best_idx as int], majority@),
        decreases n - i,
    {
        proof {
            assert(dv[i as int] == hashes@[i as int]@);
        }
        let d = hamming_bytes(hashes[i].as_slice(), majority.as_slice());
        if d < best_dist {
            best_dist = d;
            best_idx = i;
        }
        i = i + 1;
    }
    Some(clone_hash(&hashes[best_idx]))
}

} // verus!
