//! The persisted cache format: a JSON document rendered and parsed by the
//! library itself, byte for byte.
//!
//! Layout: `{"version":<int>,"by_digest":{"<digest>":[{...entry...},...]}}`
//! where an entry holds `alg`, `w`, `h`, `hash`, and, for video entries
//! only, `sample_start`, `sample_count`, `sample_window`, `aggregation`.
//!
//! The format is canonical on purpose: `decode_cache` accepts exactly the
//! bytes `encode_cache` renders — no whitespace between tokens, keys in
//! this order, numerals without leading zeros — and reports any other
//! spelling of a cache document as malformed. Both directions are part of
//! the contracts: a rendered cache parses back to an equal cache, and an
//! accepted document is the rendering of the cache returned. A version
//! other than the current schema constant is rejected after parsing,
//! before any use.
use vstd::prelude::*;

use vstd::string::StrSliceExecFns;
use vstd::string::StringSliceAdditionalSpecFns;
use vstd::utf8::is_ascii_chars;

use crate::errors::CacheError;
use crate::types::{Aggregation, CacheEntry, CacheFile, HashAlg, entry_list_wf, store_wf};

verus! {

/// What one cache entry says, with strings as character sequences.
pub enum EntryModel {
    Image { alg: HashAlg, w: u32, h: u32, hash: Seq<char> },
    Video {
        alg: HashAlg,
        w: u32,
        h: u32,
        hash: Seq<char>,
        sample_start: usize,
        sample_count: usize,
        sample_window: usize,
        aggregation: Aggregation,
    },
}

impl View for CacheEntry {
    type V = EntryModel;

    open spec fn view(&self) -> EntryModel {
        match *self {
            CacheEntry::Image { hash_alg, hash_w, hash_h, perceptual_hash } => EntryModel::Image {
                alg: hash_alg,
                w: hash_w,
                h: hash_h,
                hash: perceptual_hash@,
            },
            CacheEntry::Video {
                hash_alg,
                hash_w,
                hash_h,
                perceptual_hash,
                sample_start,
                sample_count,
                sample_window,
                aggregation,
            } => EntryModel::Video {
                alg: hash_alg,
                w: hash_w,
                h: hash_h,
                hash: perceptual_hash@,
                sample_start,
                sample_count,
                sample_window,
                aggregation,
            },
        }
    }
}

/// What a whole cache file says.
pub struct CacheModel {
    pub version: u32,
    pub by_digest: Seq<(Seq<char>, Seq<EntryModel>)>,
}

impl View for CacheFile {
    type V = CacheModel;

    open spec fn view(&self) -> CacheModel {
        CacheModel {
            version: self.version,
            by_digest: Seq::new(
                self.by_digest@.len(),
                |k: int|
                    (
                        self.by_digest@[k].0@,
                        Seq::new(
                            self.by_digest@[k].1@.len(),
                            |j: int| self.by_digest@[k].1@[j]@,
                        ),
                    ),
            ),
        }
    }
}

/// A character the renderer can emit inside a JSON string as it stands:
/// printable ASCII, no quote, no backslash.
pub open spec fn plain_char(c: char) -> bool {
    0x20 <= c as int && c as int <= 0x7E && c != '"' && c != '\\'
}

pub open spec fn plain_str(s: Seq<char>) -> bool {
    forall|i: int| 0 <= i < s.len() ==> plain_char(#[trigger] s[i])
}

pub open spec fn entry_plain(em: EntryModel) -> bool {
    match em {
        EntryModel::Image { hash, .. } => plain_str(hash),
        EntryModel::Video { hash, .. } => plain_str(hash),
    }
}

/// Every string of the cache is plain: then the renderer needs no escapes
/// and the round trip is exact.
pub open spec fn model_plain(m: CacheModel) -> bool {
    forall|k: int|
        0 <= k < m.by_digest.len() ==> {
            &&& plain_str((#[trigger] m.by_digest[k]).0)
            &&& forall|j: int|
                0 <= j < m.by_digest[k].1.len() ==> entry_plain(#[trigger] m.by_digest[k].1[j])
        }
}

pub open spec fn ascii_bytes(s: Seq<char>) -> Seq<u8> {
    Seq::new(s.len(), |i: int| s[i] as u8)
}

/// A number, in decimal.
pub open spec fn ser_nat(n: nat) -> Seq<u8>
    decreases n,
{
    if n < 10 {
        seq![(48 + n) as u8]
    } else {
        ser_nat(n / 10).push((48 + n % 10) as u8)
    }
}

/// A quoted string (only used on plain strings).
pub open spec fn ser_str(s: Seq<char>) -> Seq<u8> {
    seq![34u8] + ascii_bytes(s) + seq![34u8]
}

pub open spec fn ser_qname(name: Seq<u8>) -> Seq<u8> {
    seq![34u8] + name + seq![34u8]
}

pub open spec fn alg_name(a: HashAlg) -> Seq<u8> {
    match a {
        HashAlg::Mean => seq!['M' as u8, 'e' as u8, 'a' as u8, 'n' as u8],
        HashAlg::Gradient => seq![
            'G' as u8,
            'r' as u8,
            'a' as u8,
            'd' as u8,
            'i' as u8,
            'e' as u8,
            'n' as u8,
            't' as u8,
        ],
        HashAlg::DoubleGradient => seq![
            'D' as u8,
            'o' as u8,
            'u' as u8,
            'b' as u8,
            'l' as u8,
            'e' as u8,
            'G' as u8,
            'r' as u8,
            'a' as u8,
            'd' as u8,
            'i' as u8,
            'e' as u8,
            'n' as u8,
            't' as u8,
        ],
    }
}

pub open spec fn agg_name(a: Aggregation) -> Seq<u8> {
    match a {
        Aggregation::Majority => seq![
            'M' as u8,
            'a' as u8,
            'j' as u8,
            'o' as u8,
            'r' as u8,
            'i' as u8,
            't' as u8,
            'y' as u8,
        ],
        Aggregation::Medoid => seq!['M' as u8, 'e' as u8, 'd' as u8, 'o' as u8, 'i' as u8, 'd' as u8],
    }
}

pub open spec fn lit_alg_key() -> Seq<u8> {
    seq!['{' as u8, '"' as u8, 'a' as u8, 'l' as u8, 'g' as u8, '"' as u8, ':' as u8]
}

pub open spec fn lit_w_key() -> Seq<u8> {
    seq![',' as u8, '"' as u8, 'w' as u8, '"' as u8, ':' as u8]
}

pub open spec fn lit_h_key() -> Seq<u8> {
    seq![',' as u8, '"' as u8, 'h' as u8, '"' as u8, ':' as u8]
}

pub open spec fn lit_hash_key() -> Seq<u8> {
    seq![
        ',' as u8,
        '"' as u8,
        'h' as u8,
        'a' as u8,
        's' as u8,
        'h' as u8,
        '"' as u8,
        ':' as u8,
    ]
}

pub open spec fn lit_ss_key() -> Seq<u8> {
    seq![
        ',' as u8,
        '"' as u8,
        's' as u8,
        'a' as u8,
        'm' as u8,
        'p' as u8,
        'l' as u8,
        'e' as u8,
        '_' as u8,
        's' as u8,
        't' as u8,
        'a' as u8,
        'r' as u8,
        't' as u8,
        '"' as u8,
        ':' as u8,
    ]
}

pub open spec fn lit_sc_key() -> Seq<u8> {
    seq![
        ',' as u8,
        '"' as u8,
        's' as u8,
        'a' as u8,
        'm' as u8,
        'p' as u8,
        'l' as u8,
        'e' as u8,
        '_' as u8,
        'c' as u8,
        'o' as u8,
        'u' as u8,
        'n' as u8,
        't' as u8,
        '"' as u8,
        ':' as u8,
    ]
}

pub open spec fn lit_sw_key() -> Seq<u8> {
    seq![
        ',' as u8,
        '"' as u8,
        's' as u8,
        'a' as u8,
        'm' as u8,
        'p' as u8,
        'l' as u8,
        'e' as u8,
        '_' as u8,
        'w' as u8,
        'i' as u8,
        'n' as u8,
        'd' as u8,
        'o' as u8,
        'w' as u8,
        '"' as u8,
        ':' as u8,
    ]
}

pub open spec fn lit_agg_key() -> Seq<u8> {
    seq![
        ',' as u8,
        '"' as u8,
        'a' as u8,
        'g' as u8,
        'g' as u8,
        'r' as u8,
        'e' as u8,
        'g' as u8,
        'a' as u8,
        't' as u8,
        'i' as u8,
        'o' as u8,
        'n' as u8,
        '"' as u8,
        ':' as u8,
    ]
}

pub open spec fn lit_version_key() -> Seq<u8> {
    seq![
        '{' as u8,
        '"' as u8,
        'v' as u8,
        'e' as u8,
        'r' as u8,
        's' as u8,
        'i' as u8,
        'o' as u8,
        'n' as u8,
        '"' as u8,
        ':' as u8,
    ]
}

pub open spec fn lit_by_digest_key() -> Seq<u8> {
    seq![
        ',' as u8,
        '"' as u8,
        'b' as u8,
        'y' as u8,
        '_' as u8,
        'd' as u8,
        'i' as u8,
        'g' as u8,
        'e' as u8,
        's' as u8,
        't' as u8,
        '"' as u8,
        ':' as u8,
    ]
}

/// The fields shared by both entry variants, rendered.
pub open spec fn ser_entry_head(alg: HashAlg, w: u32, h: u32, hash: Seq<char>) -> Seq<u8> {
    lit_alg_key() + ser_qname(alg_name(alg)) + lit_w_key() + ser_nat(w as nat) + lit_h_key()
        + ser_nat(h as nat) + lit_hash_key() + ser_str(hash)
}

/// The video-only fields and the closing brace, rendered.
pub open spec fn ser_video_tail(ss: usize, sc: usize, sw: usize, agg: Aggregation) -> Seq<u8> {
    lit_ss_key() + ser_nat(ss as nat) + lit_sc_key() + ser_nat(sc as nat) + lit_sw_key() + ser_nat(
        sw as nat,
    ) + lit_agg_key() + ser_qname(agg_name(agg)) + seq!['}' as u8]
}

/// One entry.
pub open spec fn ser_entry(em: EntryModel) -> Seq<u8> {
    match em {
        EntryModel::Image { alg, w, h, hash } => ser_entry_head(alg, w, h, hash) + seq!['}' as u8],
        EntryModel::Video {
            alg,
            w,
            h,
            hash,
            sample_start,
            sample_count,
            sample_window,
            aggregation,
        } => ser_entry_head(alg, w, h, hash) + ser_video_tail(
            sample_start,
            sample_count,
            sample_window,
            aggregation,
        ),
    }
}

/// The remaining entries of a list, each behind a comma.
pub open spec fn ser_entries_from(es: Seq<EntryModel>, k: int) -> Seq<u8>
    decreases es.len() - k,
{
    if k < 0 || k >= es.len() {
        Seq::empty()
    } else {
        seq![',' as u8] + ser_entry(es[k]) + ser_entries_from(es, k + 1)
    }
}

/// An entry list.
pub open spec fn ser_entries(es: Seq<EntryModel>) -> Seq<u8> {
    if es.len() == 0 {
        seq!['[' as u8, ']' as u8]
    } else {
        seq!['[' as u8] + ser_entry(es[0]) + ser_entries_from(es, 1) + seq![']' as u8]
    }
}

/// One digest with its entry list.
pub open spec fn ser_pair(p: (Seq<char>, Seq<EntryModel>)) -> Seq<u8> {
    ser_str(p.0) + seq![':' as u8] + ser_entries(p.1)
}

pub open spec fn ser_pairs_from(m: Seq<(Seq<char>, Seq<EntryModel>)>, k: int) -> Seq<u8>
    decreases m.len() - k,
{
    if k < 0 || k >= m.len() {
        Seq::empty()
    } else {
        seq![',' as u8] + ser_pair(m[k]) + ser_pairs_from(m, k + 1)
    }
}

/// The digest map.
pub open spec fn ser_map(m: Seq<(Seq<char>, Seq<EntryModel>)>) -> Seq<u8> {
    if m.len() == 0 {
        seq!['{' as u8, '}' as u8]
    } else {
        seq!['{' as u8] + ser_pair(m[0]) + ser_pairs_from(m, 1) + seq!['}' as u8]
    }
}

/// The whole document.
pub open spec fn ser_cache(m: CacheModel) -> Seq<u8> {
    lit_version_key() + ser_nat(m.version as nat) + lit_by_digest_key() + ser_map(m.by_digest)
        + seq!['}' as u8]
}

/// The comma-led entries with indices `a <= k < b`.
pub open spec fn ser_entries_range(es: Seq<EntryModel>, a: int, b: int) -> Seq<u8>
    decreases b - a,
{
    if a >= b {
        Seq::empty()
    } else {
        seq![',' as u8] + ser_entry(es[a]) + ser_entries_range(es, a + 1, b)
    }
}

proof fn lemma_entries_range_snoc(es: Seq<EntryModel>, a: int, b: int)
    requires
        a <= b,
    ensures
        ser_entries_range(es, a, b + 1) =~= ser_entries_range(es, a, b) + seq![',' as u8]
            + ser_entry(es[b]),
    decreases b - a,
{
    if a == b {
        assert(ser_entries_range(es, a, b) =~= Seq::<u8>::empty());
        assert(ser_entries_range(es, b + 1, b + 1) =~= Seq::<u8>::empty());
    } else {
        lemma_entries_range_snoc(es, a + 1, b);
    }
}

proof fn lemma_entries_range_end(es: Seq<EntryModel>, a: int)
    requires
        0 <= a,
    ensures
        ser_entries_range(es, a, es.len() as int) == ser_entries_from(es, a),
    decreases es.len() - a,
{
    if a < es.len() {
        lemma_entries_range_end(es, a + 1);
    }
}

/// The comma-led pairs with indices `a <= k < b`.
pub open spec fn ser_pairs_range(m: Seq<(Seq<char>, Seq<EntryModel>)>, a: int, b: int) -> Seq<u8>
    decreases b - a,
{
    if a >= b {
        Seq::empty()
    } else {
        seq![',' as u8] + ser_pair(m[a]) + ser_pairs_range(m, a + 1, b)
    }
}

proof fn lemma_pairs_range_snoc(m: Seq<(Seq<char>, Seq<EntryModel>)>, a: int, b: int)
    requires
        a <= b,
    ensures
        ser_pairs_range(m, a, b + 1) =~= ser_pairs_range(m, a, b) + seq![',' as u8] + ser_pair(
            m[b],
        ),
    decreases b - a,
{
    if a == b {
        assert(ser_pairs_range(m, a, b) =~= Seq::<u8>::empty());
        assert(ser_pairs_range(m, b + 1, b + 1) =~= Seq::<u8>::empty());
    } else {
        lemma_pairs_range_snoc(m, a + 1, b);
    }
}

proof fn lemma_pairs_range_end(m: Seq<(Seq<char>, Seq<EntryModel>)>, a: int)
    requires
        0 <= a,
    ensures
        ser_pairs_range(m, a, m.len() as int) == ser_pairs_from(m, a),
    decreases m.len() - a,
{
    if a < m.len() {
        lemma_pairs_range_end(m, a + 1);
    }
}

/// Append one vector to another.
fn append_bytes(out: &mut Vec<u8>, src: &Vec<u8>)
    ensures
        final(out)@ == old(out)@ + src@,
{
    let n = src.len();
    let mut i: usize = 0;
    while i < n
        invariant
            n == src@.len(),
            0 <= i <= n,
            out@ == old(out)@ + src@.take(i as int),
        decreases n - i,
    {
        out.push(src[i]);
        proof {
            assert(old(out)@ + src@.take(i as int + 1) =~= (old(out)@ + src@.take(i as int)).push(
                src@[i as int],
            ));
        }
        i = i + 1;
    }
    proof {
        assert(src@.take(n as int) =~= src@);
    }
}

/// A number, in decimal.
fn write_nat(out: &mut Vec<u8>, n: u64)
    ensures
        final(out)@ == old(out)@ + ser_nat(n as nat),
    decreases n,
{
    if n < 10 {
        out.push(48 + n as u8);
        proof {
            assert(old(out)@ + ser_nat(n as nat) =~= old(out)@.push((48 + n) as u8));
        }
    } else {
        write_nat(out, n / 10);
        out.push(48 + (n % 10) as u8);
        proof {
            assert(old(out)@ + ser_nat(n as nat) =~= (old(out)@ + ser_nat(n as nat / 10)).push(
                (48 + n as nat % 10) as u8,
            ));
        }
    }
}

/// A character below 0x80 keeps its value when cast to one byte.
proof fn lemma_char_byte(c: char)
    requires
        (c as int) < 0x80,
    ensures
        (c as u8) as int == c as int,
{
    let u = c as u32;
    assert(u < 0x80);
    assert((u as u8) as u32 == u) by (bit_vector)
        requires
            u < 0x80,
    ;
}

/// Whether every character of the string can stand in the JSON text as it
/// is.
pub fn is_plain_string(s: &String) -> (r: bool)
    ensures
        r == plain_str(s@),
{
    let ss = s.as_str();
    let bytes = ss.as_bytes_vec();
    if !ss.is_ascii() {
        proof {
            let i = choose|i: int|
                0 <= i < s@.len() && !('\0' <= #[trigger] s@[i] && s@[i] <= '\u{7f}');
            assert(!plain_char(s@[i]));
        }
        return false;
    }
    proof {
        broadcast use vstd::string::is_ascii_spec_bytes;

        assert(bytes@.len() == s@.len());
        assert(forall|k: int| 0 <= k < s@.len() ==> bytes@[k] == (#[trigger] s@[k]) as u8);
        assert forall|k: int| 0 <= k < s@.len() implies (#[trigger] s@[k] as int) < 0x80 by {
            assert('\0' <= s@[k] && s@[k] <= '\u{7f}');
        }
    }
    let n = bytes.len();
    let mut i: usize = 0;
    while i < n
        invariant
            n == bytes@.len(),
            s@.len() == n,
            forall|k: int| 0 <= k < n ==> bytes@[k] == (#[trigger] s@[k]) as u8,
            forall|k: int| 0 <= k < n ==> (#[trigger] s@[k] as int) < 0x80,
            0 <= i <= n,
            forall|k: int| 0 <= k < i ==> plain_char(#[trigger] s@[k]),
        decreases n - i,
    {
        let b = bytes[i];
        if b < 0x20 || b > 0x7E || b == 34 || b == 92 {
            proof {
                let c = s@[i as int];
                assert(c as u8 == b);
                assert((c as int) < 0x80);
                lemma_char_byte(c);
                assert(c as int == b as int);
                if b == 34 {
                    assert(c as int == '"' as int);
                    assert(c == '"');
                }
                if b == 92 {
                    assert(c as int == '\\' as int);
                    assert(c == '\\');
                }
                assert(!plain_char(c));
            }
            return false;
        }
        proof {
            let c = s@[i as int];
            assert(c as u8 == b);
            lemma_char_byte(c);
            assert(c as int == b as int);
            assert(c as int != '"' as int && c as int != '\\' as int);
            assert(plain_char(c));
        }
        i = i + 1;
    }
    true
}

/// A quoted plain string.
fn write_plain_str(out: &mut Vec<u8>, s: &String)
    requires
        plain_str(s@),
    ensures
        final(out)@ == old(out)@ + ser_str(s@),
{
    proof {
        broadcast use vstd::string::is_ascii_spec_bytes;

        assert(is_ascii_chars(s@)) by {
            assert forall|i: int| 0 <= i < s@.len() implies '\0' <= #[trigger] s@[i] && (
            s@[i] as int) <= 0x7f by {
                assert(plain_char(s@[i]));
                assert(s@[i] as int <= 0x7E);
            }
        }
    }
    out.push(34);
    let ss = s.as_str();
    let bytes = ss.as_bytes_vec();
    proof {
        assert(vstd::string::is_ascii(ss));
        assert(bytes@ =~= ascii_bytes(s@));
    }
    append_bytes(out, &bytes);
    out.push(34);
    proof {
        assert(old(out)@ + ser_str(s@) =~= ((old(out)@.push(34u8)) + ascii_bytes(s@)).push(34u8));
    }
}

/// The fragment occurs in `s` at offset `i`.
pub open spec fn is_at(s: Seq<u8>, i: int, frag: Seq<u8>) -> bool {
    0 <= i && i + frag.len() <= s.len() && s.subrange(i, i + frag.len()) == frag
}

proof fn lemma_is_at_concat(s: Seq<u8>, i: int, a: Seq<u8>, b: Seq<u8>)
    ensures
        is_at(s, i, a + b) <==> (is_at(s, i, a) && is_at(s, i + a.len(), b)),
{
    if is_at(s, i, a + b) {
        assert(s.subrange(i, i + a.len()) =~= a) by {
            assert forall|k: int| 0 <= k < a.len() implies #[trigger] (s.subrange(
                i,
                i + a.len(),
            )[k]) == a[k] by {
                assert(s.subrange(i, i + (a + b).len())[k] == (a + b)[k]);
            }
        }
        assert(s.subrange(i + a.len(), i + a.len() + b.len()) =~= b) by {
            assert forall|k: int| 0 <= k < b.len() implies #[trigger] (s.subrange(
                i + a.len(),
                i + a.len() + b.len(),
            )[k]) == b[k] by {
                assert(s.subrange(i, i + (a + b).len())[a.len() + k] == (a + b)[a.len() + k]);
            }
        }
    }
    if is_at(s, i, a) && is_at(s, i + a.len(), b) {
        assert(s.subrange(i, i + (a + b).len()) =~= a + b) by {
            assert forall|k: int| 0 <= k < (a + b).len() implies #[trigger] (s.subrange(
                i,
                i + (a + b).len(),
            )[k]) == (a + b)[k] by {
                if k < a.len() {
                    assert(s.subrange(i, i + a.len())[k] == a[k]);
                } else {
                    assert(s.subrange(i + a.len(), i + a.len() + b.len())[k - a.len()]
                        == b[k - a.len()]);
                }
            }
        }
    }
}

/// A byte occurring inside a fragment at `i` is that fragment's byte.
proof fn lemma_is_at_index(s: Seq<u8>, i: int, frag: Seq<u8>, k: int)
    requires
        is_at(s, i, frag),
        0 <= k < frag.len(),
    ensures
        s[i + k] == frag[k],
{
    assert(s.subrange(i, i + frag.len())[k] == frag[k]);
}

pub open spec fn is_digit(b: u8) -> bool {
    48 <= b <= 57
}

/// Position `j` does not hold a digit (or is past the end).
pub open spec fn not_digit_at(s: Seq<u8>, j: int) -> bool {
    j >= s.len() || !is_digit(s[j])
}

/// Value of a digit string, most significant digit first.
pub open spec fn digits_val(ds: Seq<u8>) -> nat
    decreases ds.len(),
{
    if ds.len() == 0 {
        0
    } else {
        (digits_val(ds.drop_last()) * 10 + (ds.last() - 48)) as nat
    }
}

proof fn lemma_ser_nat_digits(n: nat)
    ensures
        ser_nat(n).len() >= 1,
        forall|k: int| 0 <= k < ser_nat(n).len() ==> is_digit(#[trigger] ser_nat(n)[k]),
    decreases n,
{
    if n >= 10 {
        lemma_ser_nat_digits(n / 10);
        assert forall|k: int| 0 <= k < ser_nat(n).len() implies is_digit(
            #[trigger] ser_nat(n)[k],
        ) by {
            if k < ser_nat(n / 10).len() {
                assert(ser_nat(n)[k] == ser_nat(n / 10)[k]);
            }
        }
    }
}

proof fn lemma_digits_val_ser_nat(n: nat)
    ensures
        digits_val(ser_nat(n)) == n,
    decreases n,
{
    if n < 10 {
        assert(ser_nat(n) == seq![(48 + n) as u8]);
        assert(ser_nat(n).drop_last() =~= Seq::<u8>::empty());
        assert(digits_val(Seq::<u8>::empty()) == 0);
        assert(digits_val(ser_nat(n).drop_last()) == 0);
        assert(ser_nat(n).last() == (48 + n) as u8);
        assert(((48 + n) as u8) as int == 48 + n);
    } else {
        lemma_digits_val_ser_nat(n / 10);
        assert(ser_nat(n).drop_last() =~= ser_nat(n / 10));
        assert(ser_nat(n).last() == (48 + n % 10) as u8);
    }
}

/// The value read from a prefix of a number's digits never exceeds the
/// number.
proof fn lemma_ser_nat_prefix_le(n: nat, k: int)
    requires
        0 <= k <= ser_nat(n).len(),
    ensures
        digits_val(ser_nat(n).take(k)) <= n,
    decreases n,
{
    if k == ser_nat(n).len() {
        assert(ser_nat(n).take(k) =~= ser_nat(n));
        lemma_digits_val_ser_nat(n);
    } else if n < 10 {
        assert(ser_nat(n).take(k) =~= Seq::<u8>::empty());
    } else {
        assert(ser_nat(n).take(k) =~= ser_nat(n / 10).take(k));
        lemma_ser_nat_prefix_le(n / 10, k);
    }
}

/// A multi-digit rendering never starts with a zero.
proof fn lemma_ser_nat_no_leading_zero(n: nat)
    ensures
        ser_nat(n).len() > 1 ==> ser_nat(n)[0] != 48,
    decreases n,
{
    if n >= 10 {
        lemma_ser_nat_no_leading_zero(n / 10);
        assert(ser_nat(n)[0] == ser_nat(n / 10)[0]);
        if n / 10 < 10 {
            assert(ser_nat(n / 10) == seq![(48 + n / 10) as u8]);
            assert(n / 10 >= 1);
        } else {
            assert(ser_nat(n / 10) == ser_nat(n / 10 / 10).push((48 + (n / 10) % 10) as u8));
            lemma_ser_nat_digits(n / 10 / 10);
            assert(ser_nat(n / 10).len() > 1);
        }
    }
}

/// A digit string that does not start with a zero has a nonzero value.
proof fn lemma_digits_val_pos(ds: Seq<u8>)
    requires
        ds.len() >= 1,
        forall|k: int| 0 <= k < ds.len() ==> is_digit(#[trigger] ds[k]),
        ds[0] != 48,
    ensures
        digits_val(ds) >= 1,
    decreases ds.len(),
{
    if ds.len() > 1 {
        let d = ds.drop_last();
        assert(d[0] == ds[0]);
        assert forall|k: int| 0 <= k < d.len() implies is_digit(#[trigger] d[k]) by {
            assert(d[k] == ds[k]);
        }
        lemma_digits_val_pos(d);
    }
}

/// A canonical digit string is exactly the rendering of its value.
proof fn lemma_canonical_digits(ds: Seq<u8>, n: nat)
    requires
        ds.len() >= 1,
        forall|k: int| 0 <= k < ds.len() ==> is_digit(#[trigger] ds[k]),
        ds.len() > 1 ==> ds[0] != 48,
        digits_val(ds) == n,
    ensures
        ds == ser_nat(n),
    decreases ds.len(),
{
    if ds.len() == 1 {
        assert(ds.drop_last() =~= Seq::<u8>::empty());
        assert(digits_val(Seq::<u8>::empty()) == 0);
        assert(digits_val(ds.drop_last()) == 0);
        assert(n == (ds[0] - 48) as nat);
        assert(n < 10);
        assert(ser_nat(n) == seq![(48 + n) as u8]);
        assert((48 + n) as u8 == ds[0]);
        assert(ds =~= ser_nat(n));
    } else {
        let d = ds.drop_last();
        assert(d[0] == ds[0]);
        assert forall|k: int| 0 <= k < d.len() implies is_digit(#[trigger] d[k]) by {
            assert(d[k] == ds[k]);
        }
        lemma_digits_val_pos(d);
        let m = digits_val(d);
        let last = ds.last();
        assert(n == m * 10 + (last - 48));
        assert(0 <= last - 48 < 10);
        assert(n >= 10) by (nonlinear_arith)
            requires
                m >= 1,
                n == m * 10 + (last - 48),
                last - 48 >= 0,
        ;
        assert(n / 10 == m && n % 10 == last - 48) by (nonlinear_arith)
            requires
                n == m * 10 + (last - 48),
                0 <= last - 48 < 10,
        ;
        lemma_canonical_digits(d, m);
        assert(ser_nat(n) == ser_nat(n / 10).push((48 + n % 10) as u8));
        assert((48 + n % 10) as u8 == last);
        assert(ds =~= d.push(last));
        assert(ds =~= ser_nat(n));
    }
}

/// Read an unsigned decimal number: a canonical numeral, so at least one
/// digit and no leading zero.
fn parse_nat(s: &[u8], i: usize) -> (r: Option<(u64, usize)>)
    ensures
        r matches Some(p) ==> i < p.1 <= s@.len(),
        r matches Some(p) ==> {
            &&& is_at(s@, i as int, ser_nat(p.0 as nat))
            &&& p.1 == i + ser_nat(p.0 as nat).len()
            &&& not_digit_at(s@, p.1 as int)
        },
        forall|n: nat|
            n <= u64::MAX && #[trigger] is_at(s@, i as int, ser_nat(n)) && not_digit_at(
                s@,
                i + ser_nat(n).len(),
            ) ==> r == Some((n as u64, (i + ser_nat(n).len()) as usize)),
{
    let len = s.len();
    if i >= len || s[i] < 48 || s[i] > 57 {
        proof {
            assert forall|n: nat|
                n <= u64::MAX && #[trigger] is_at(s@, i as int, ser_nat(n)) && not_digit_at(
                    s@,
                    i + ser_nat(n).len(),
                ) implies false by {
                lemma_ser_nat_digits(n);
                lemma_is_at_index(s@, i as int, ser_nat(n), 0);
            }
        }
        return None;
    }
    let mut j: usize = i;
    let mut acc: u64 = 0;
    while j < len && s[j] >= 48 && s[j] <= 57
        invariant
            len == s@.len(),
            i <= j <= len,
            forall|k: int| i <= k < j ==> is_digit(#[trigger] s@[k]),
            acc == digits_val(s@.subrange(i as int, j as int)),
        decreases len - j,
    {
        let d = s[j] - 48;
        if acc > (u64::MAX - d as u64) / 10 {
            proof {
                assert forall|n: nat|
                    n <= u64::MAX && #[trigger] is_at(s@, i as int, ser_nat(n)) && not_digit_at(
                        s@,
                        i + ser_nat(n).len(),
                    ) implies false by {
                    lemma_ser_nat_digits(n);
                    let ln = ser_nat(n).len();
                    // the run of digits read so far lies inside the number
                    assert(j - i < ln) by {
                        if j - i >= ln {
                            assert(is_digit(s@[i + ln]) || i + ln >= s@.len());
                            if j - i > ln {
                                assert(is_digit(s@[i + ln]));
                            } else {
                                assert(is_digit(s@[j as int]));
                            }
                        }
                    }
                    assert(s@.subrange(i as int, j as int + 1) =~= ser_nat(n).take(
                        j - i + 1,
                    )) by {
                        assert forall|k: int| 0 <= k < j - i + 1 implies #[trigger] (s@.subrange(
                            i as int,
                            j as int + 1,
                        )[k]) == ser_nat(n).take(j - i + 1)[k] by {
                            lemma_is_at_index(s@, i as int, ser_nat(n), k);
                        }
                    }
                    lemma_ser_nat_prefix_le(n, j - i + 1);
                    assert(s@.subrange(i as int, j as int + 1).drop_last() =~= s@.subrange(
                        i as int,
                        j as int,
                    ));
                    assert(digits_val(s@.subrange(i as int, j as int + 1)) == acc * 10 + d);
                    assert(acc * 10 + d <= n);
                    assert(acc <= (u64::MAX - d as u64) / 10);
                }
            }
            return None;
        }
        proof {
            assert(s@.subrange(i as int, j as int + 1).drop_last() =~= s@.subrange(
                i as int,
                j as int,
            ));
        }
        acc = acc * 10 + d as u64;
        j = j + 1;
    }
    if j > i + 1 && s[i] == 48 {
        proof {
            assert forall|n: nat|
                n <= u64::MAX && #[trigger] is_at(s@, i as int, ser_nat(n)) && not_digit_at(
                    s@,
                    i + ser_nat(n).len(),
                ) implies false by {
                lemma_ser_nat_digits(n);
                lemma_ser_nat_no_leading_zero(n);
                let ln = ser_nat(n).len();
                assert(j - i == ln) by {
                    if j - i < ln {
                        lemma_is_at_index(s@, i as int, ser_nat(n), j - i);
                        assert(is_digit(s@[j as int]));
                        assert(j < s@.len());
                    } else if j - i > ln {
                        assert(is_digit(s@[i + ln]) || i + ln >= s@.len());
                        assert(is_digit(s@[i + ln]));
                    }
                }
                lemma_is_at_index(s@, i as int, ser_nat(n), 0);
            }
        }
        return None;
    }
    proof {
        assert forall|n: nat|
            n <= u64::MAX && #[trigger] is_at(s@, i as int, ser_nat(n)) && not_digit_at(
                s@,
                i + ser_nat(n).len(),
            ) implies Some((acc, j)) == Some((n as u64, (i + ser_nat(n).len()) as usize)) by {
            lemma_ser_nat_digits(n);
            let ln = ser_nat(n).len();
            assert(j - i == ln) by {
                if j - i < ln {
                    // the loop would have kept reading: the next byte is a digit
                    lemma_is_at_index(s@, i as int, ser_nat(n), j - i);
                    assert(is_digit(s@[j as int]));
                    assert(j < s@.len());
                } else if j - i > ln {
                    assert(is_digit(s@[i + ln]) || i + ln >= s@.len());
                    assert(is_digit(s@[i + ln]));
                }
            }
            assert(s@.subrange(i as int, j as int) =~= ser_nat(n)) by {
                assert forall|k: int| 0 <= k < ln implies #[trigger] (s@.subrange(
                    i as int,
                    j as int,
                )[k]) == ser_nat(n)[k] by {
                    lemma_is_at_index(s@, i as int, ser_nat(n), k);
                }
            }
            lemma_digits_val_ser_nat(n);
        }
        // soundness: the digits read are the canonical rendering of the
        // value read
        let run = s@.subrange(i as int, j as int);
        assert(j > i);
        assert(run.len() >= 1);
        assert(run[0] == s@[i as int]);
        assert forall|k: int| 0 <= k < run.len() implies is_digit(#[trigger] run[k]) by {
            assert(run[k] == s@[i + k]);
        }
        lemma_canonical_digits(run, acc as nat);
        assert(s@.subrange(i as int, i + ser_nat(acc as nat).len()) == ser_nat(acc as nat));
        assert(is_at(s@, i as int, ser_nat(acc as nat)));
    }
    Some((acc, j))
}

/// Match a fixed fragment.
fn expect(s: &[u8], i: usize, frag: &Vec<u8>) -> (r: Option<usize>)
    ensures
        r matches Some(j) ==> j == i + frag@.len() && is_at(s@, i as int, frag@) && i <= j
            <= s@.len(),
        r is None ==> !is_at(s@, i as int, frag@),
{
    let fl = frag.len();
    let len = s.len();
    if i > len || fl > len - i {
        return None;
    }
    let mut k: usize = 0;
    while k < fl
        invariant
            fl == frag@.len(),
            len == s@.len(),
            i + fl <= len,
            0 <= k <= fl,
            forall|t: int| 0 <= t < k ==> s@[i + t] == frag@[t],
        decreases fl - k,
    {
        if s[i + k] != frag[k] {
            proof {
                if is_at(s@, i as int, frag@) {
                    lemma_is_at_index(s@, i as int, frag@, k as int);
                }
            }
            return None;
        }
        k = k + 1;
    }
    proof {
        assert(s@.subrange(i as int, i + fl) =~= frag@);
    }
    Some(i + fl)
}

/// Relies on String::from_utf8: ASCII bytes decode to one character per
/// byte, each keeping its value.
#[verifier::external_body]
fn string_from_ascii(bytes: Vec<u8>) -> (r: String)
    requires
        forall|k: int| 0 <= k < bytes@.len() ==> bytes@[k] < 0x80,
    ensures
        r@.len() == bytes@.len(),
        forall|k: int| 0 <= k < bytes@.len() ==> (#[trigger] r@[k]) as u32 == bytes@[k] as u32,
        forall|k: int| 0 <= k < bytes@.len() ==> (#[trigger] r@[k]) as int == bytes@[k] as int,
{
    match String::from_utf8(bytes) {
        Ok(s) => s,
        Err(_) => String::new(),
    }
}

/// Read a quoted plain string.
fn parse_string(s: &[u8], i: usize) -> (r: Option<(String, usize)>)
    ensures
        r matches Some(p) ==> i < p.1 <= s@.len(),
        r matches Some(p) ==> {
            &&& plain_str(p.0@)
            &&& is_at(s@, i as int, ser_str(p.0@))
            &&& p.1 == i + ser_str(p.0@).len()
        },
        forall|cs: Seq<char>|
            plain_str(cs) && #[trigger] is_at(s@, i as int, ser_str(cs)) ==> (r matches Some(p)
                && p.0@ == cs && p.1 == i + ser_str(cs).len()),
{
    let len = s.len();
    if i >= len || s[i] != 34 {
        proof {
            assert forall|cs: Seq<char>|
                plain_str(cs) && #[trigger] is_at(s@, i as int, ser_str(cs)) implies false by {
                lemma_is_at_index(s@, i as int, ser_str(cs), 0);
            }
        }
        return None;
    }
    let mut j: usize = i + 1;
    let mut content: Vec<u8> = Vec::new();
    while j < len && s[j] != 34 && s[j] >= 0x20 && s[j] <= 0x7E && s[j] != 92
        invariant
            len == s@.len(),
            i + 1 <= j <= len,
            content@ == s@.subrange(i as int + 1, j as int),
            forall|t: int|
                i < t < j ==> (0x20 <= #[trigger] s@[t] <= 0x7E && s@[t] != 34 && s@[t] != 92),
        decreases len - j,
    {
        content.push(s[j]);
        proof {
            assert(s@.subrange(i as int + 1, j as int + 1) =~= s@.subrange(
                i as int + 1,
                j as int,
            ).push(s@[j as int]));
        }
        j = j + 1;
    }
    if j >= len || s[j] != 34 {
        proof {
            assert forall|cs: Seq<char>|
                plain_str(cs) && #[trigger] is_at(s@, i as int, ser_str(cs)) implies false by {
                lemma_string_run(s@, i as int, j as int, cs);
            }
        }
        return None;
    }
    proof {
        assert(forall|k: int| 0 <= k < content@.len() ==> #[trigger] content@[k] < 0x80);
    }
    let out = string_from_ascii(content);
    proof {
        assert forall|cs: Seq<char>|
            plain_str(cs) && #[trigger] is_at(s@, i as int, ser_str(cs)) implies (out@ == cs && j
            + 1 == i + ser_str(cs).len()) by {
            lemma_string_run(s@, i as int, j as int, cs);
            assert(s@.subrange(i as int + 1, j as int) =~= ascii_bytes(cs));
            assert forall|k: int| 0 <= k < cs.len() implies out@[k] == cs[k] by {
                assert(out@[k] as u32 == ascii_bytes(cs)[k] as u32);
                assert(ascii_bytes(cs)[k] == cs[k] as u8);
                assert(plain_char(cs[k]));
                lemma_char_byte(cs[k]);
                let u1 = out@[k] as u32;
                let u2 = cs[k] as u32;
                assert(u1 == u2);
                vstd::utf8::char_u32_cast(out@[k], u1);
                vstd::utf8::char_u32_cast(cs[k], u2);
            }
            assert(out@ =~= cs);
        }
        // soundness: the consumed bytes are the rendering of the string read
        assert(out@.len() == content@.len());
        assert forall|k: int| 0 <= k < out@.len() implies plain_char(#[trigger] out@[k]) by {
            let c = out@[k];
            let b = content@[k];
            assert(out@[k] as u32 == content@[k] as u32);
            assert(c as u32 == b as u32);
            assert(content@[k] == s@[i + 1 + k]);
            assert(0x20 <= b <= 0x7E && b != 34 && b != 92);
            assert((b as u32) < 0x80);
            assert(c as int == b as int);
            if c == '"' {
                assert(c as int == 34);
            }
            if c == '\\' {
                assert(c as int == 92);
            }
        }
        assert(plain_str(out@));
        assert(ascii_bytes(out@) =~= content@) by {
            assert forall|k: int| 0 <= k < out@.len() implies #[trigger] (ascii_bytes(out@)[k])
                == content@[k] by {
                let c = out@[k];
                assert(c as u32 == content@[k] as u32);
                assert((c as int) < 0x80);
                lemma_char_byte(c);
            }
        }
        assert(ser_str(out@) =~= s@.subrange(i as int, j as int + 1)) by {
            assert forall|k: int| 0 <= k < ser_str(out@).len() implies #[trigger] (ser_str(
                out@,
            )[k]) == s@.subrange(i as int, j as int + 1)[k] by {
                if 0 < k < ser_str(out@).len() - 1 {
                    assert(ser_str(out@)[k] == ascii_bytes(out@)[k - 1]);
                    assert(content@[k - 1] == s@[i + k]);
                }
            }
        }
        assert(s@.subrange(i as int, i + ser_str(out@).len()) == ser_str(out@));
        assert(is_at(s@, i as int, ser_str(out@)));
    }
    Some((out, j + 1))
}

/// If a well-formed quoted string sits at `i` and the content run has
/// stopped at `j`, then `j` sits exactly on the closing quote.
proof fn lemma_string_run(s: Seq<u8>, i: int, j: int, cs: Seq<char>)
    requires
        plain_str(cs),
        is_at(s, i, ser_str(cs)),
        i + 1 <= j <= s.len(),
        forall|t: int| i < t < j ==> (0x20 <= #[trigger] s[t] <= 0x7E && s[t] != 34 && s[t] != 92),
        j == s.len() || s[j] == 34 || !(0x20 <= s[j] <= 0x7E && s[j] != 34 && s[j] != 92),
    ensures
        j == i + 1 + cs.len(),
        s[j] == 34,
        s.subrange(i + 1, j) =~= ascii_bytes(cs),
{
    let l = cs.len() as int;
    // every content byte of the rendered string is plain and not a quote
    assert forall|k: int| 0 <= k < l implies (0x20 <= #[trigger] s[i + 1 + k] <= 0x7E && s[i + 1
        + k] != 34 && s[i + 1 + k] != 92) by {
        lemma_is_at_index(s, i, ser_str(cs), 1 + k);
        assert(ser_str(cs)[1 + k] == ascii_bytes(cs)[k]);
        assert(ascii_bytes(cs)[k] == cs[k] as u8);
        assert(plain_char(cs[k]));
        lemma_char_byte(cs[k]);
    }
    lemma_is_at_index(s, i, ser_str(cs), 1 + l);
    assert(s[i + 1 + l] == 34);
    if j < i + 1 + l {
        let k0 = j - i - 1;
        assert(0x20 <= s[i + 1 + k0] <= 0x7E && s[i + 1 + k0] != 34 && s[i + 1 + k0] != 92);
        assert(i + 1 + k0 == j);
        assert(j < s.len());
    }
    if j > i + 1 + l {
        assert(s[i + 1 + l] != 34);
    }
    assert(j == i + 1 + l);
    assert forall|k: int| 0 <= k < l implies #[trigger] (s.subrange(i + 1, j)[k]) == ascii_bytes(
        cs,
    )[k] by {
        lemma_is_at_index(s, i, ser_str(cs), 1 + k);
        assert(ser_str(cs)[1 + k] == ascii_bytes(cs)[k]);
    }
}

/// The models of a list of entries.
pub open spec fn entries_models(es: Seq<CacheEntry>) -> Seq<EntryModel> {
    Seq::new(es.len(), |j: int| es[j]@)
}

/// The models of the digest map.
pub open spec fn store_models(m: Seq<(String, Vec<CacheEntry>)>) -> Seq<
    (Seq<char>, Seq<EntryModel>),
> {
    Seq::new(m.len(), |k: int| (m[k].0@, entries_models(m[k].1@)))
}

/// Every string of the digest map is plain.
pub open spec fn pairs_plain(mm: Seq<(Seq<char>, Seq<EntryModel>)>) -> bool {
    forall|k: int|
        0 <= k < mm.len() ==> {
            &&& plain_str((#[trigger] mm[k]).0)
            &&& forall|j: int| 0 <= j < mm[k].1.len() ==> entry_plain(#[trigger] mm[k].1[j])
        }
}

fn vec_lit_alg_key() -> (r: Vec<u8>)
    ensures
        r@ == lit_alg_key(),
{
    let mut v: Vec<u8> = Vec::new();
    v.push(('{' as u8));
    v.push(('"' as u8));
    v.push(('a' as u8));
    v.push(('l' as u8));
    v.push(('g' as u8));
    v.push(('"' as u8));
    v.push((':' as u8));
    proof {
        assert(v@ =~= lit_alg_key());
    }
    v
}

fn vec_lit_w_key() -> (r: Vec<u8>)
    ensures
        r@ == lit_w_key(),
{
    let mut v: Vec<u8> = Vec::new();
    v.push((',' as u8));
    v.push(('"' as u8));
    v.push(('w' as u8));
    v.push(('"' as u8));
    v.push((':' as u8));
    proof {
        assert(v@ =~= lit_w_key());
    }
    v
}

fn vec_lit_h_key() -> (r: Vec<u8>)
    ensures
        r@ == lit_h_key(),
{
    let mut v: Vec<u8> = Vec::new();
    v.push((',' as u8));
    v.push(('"' as u8));
    v.push(('h' as u8));
    v.push(('"' as u8));
    v.push((':' as u8));
    proof {
        assert(v@ =~= lit_h_key());
    }
    v
}

fn vec_lit_hash_key() -> (r: Vec<u8>)
    ensures
        r@ == lit_hash_key(),
{
    let mut v: Vec<u8> = Vec::new();
    v.push((',' as u8));
    v.push(('"' as u8));
    v.push(('h' as u8));
    v.push(('a' as u8));
    v.push(('s' as u8));
    v.push(('h' as u8));
    v.push(('"' as u8));
    v.push((':' as u8));
    proof {
        assert(v@ =~= lit_hash_key());
    }
    v
}

fn push_key_chars(v: &mut Vec<u8>)
    ensures
        final(v)@ == old(v)@ + seq![',' as u8, '"' as u8, 's' as u8, 'a' as u8, 'm' as u8, 'p' as u8, 'l' as u8, 'e' as u8, '_' as u8],
{
    v.push((',' as u8));
    v.push(('"' as u8));
    v.push(('s' as u8));
    v.push(('a' as u8));
    v.push(('m' as u8));
    v.push(('p' as u8));
    v.push(('l' as u8));
    v.push(('e' as u8));
    v.push(('_' as u8));
    proof {
        assert(final(v)@ =~= old(v)@ + seq![
            ',' as u8,
            '"' as u8,
            's' as u8,
            'a' as u8,
            'm' as u8,
            'p' as u8,
            'l' as u8,
            'e' as u8,
            '_' as u8,
        ]);
    }
}

fn vec_lit_ss_key() -> (r: Vec<u8>)
    ensures
        r@ == lit_ss_key(),
{
    let mut v: Vec<u8> = Vec::new();
    push_key_chars(&mut v);
    v.push(('s' as u8));
    v.push(('t' as u8));
    v.push(('a' as u8));
    v.push(('r' as u8));
    v.push(('t' as u8));
    v.push(('"' as u8));
    v.push((':' as u8));
    proof {
        assert(v@ =~= lit_ss_key());
    }
    v
}

fn vec_lit_sc_key() -> (r: Vec<u8>)
    ensures
        r@ == lit_sc_key(),
{
    let mut v: Vec<u8> = Vec::new();
    push_key_chars(&mut v);
    v.push(('c' as u8));
    v.push(('o' as u8));
    v.push(('u' as u8));
    v.push(('n' as u8));
    v.push(('t' as u8));
    v.push(('"' as u8));
    v.push((':' as u8));
    proof {
        assert(v@ =~= lit_sc_key());
    }
    v
}

fn vec_lit_sw_key() -> (r: Vec<u8>)
    ensures
        r@ == lit_sw_key(),
{
    let mut v: Vec<u8> = Vec::new();
    push_key_chars(&mut v);
    v.push(('w' as u8));
    v.push(('i' as u8));
    v.push(('n' as u8));
    v.push(('d' as u8));
    v.push(('o' as u8));
    v.push(('w' as u8));
    v.push(('"' as u8));
    v.push((':' as u8));
    proof {
        assert(v@ =~= lit_sw_key());
    }
    v
}

fn vec_lit_agg_key() -> (r: Vec<u8>)
    ensures
        r@ == lit_agg_key(),
{
    let mut v: Vec<u8> = Vec::new();
    v.push((',' as u8));
    v.push(('"' as u8));
    v.push(('a' as u8));
    v.push(('g' as u8));
    v.push(('g' as u8));
    v.push(('r' as u8));
    v.push(('e' as u8));
    v.push(('g' as u8));
    v.push(('a' as u8));
    v.push(('t' as u8));
    v.push(('i' as u8));
    v.push(('o' as u8));
    v.push(('n' as u8));
    v.push(('"' as u8));
    v.push((':' as u8));
    proof {
        assert(v@ =~= lit_agg_key());
    }
    v
}

fn vec_lit_version_key() -> (r: Vec<u8>)
    ensures
        r@ == lit_version_key(),
{
    let mut v: Vec<u8> = Vec::new();
    v.push(('{' as u8));
    v.push(('"' as u8));
    v.push(('v' as u8));
    v.push(('e' as u8));
    v.push(('r' as u8));
    v.push(('s' as u8));
    v.push(('i' as u8));
    v.push(('o' as u8));
    v.push(('n' as u8));
    v.push(('"' as u8));
    v.push((':' as u8));
    proof {
        assert(v@ =~= lit_version_key());
    }
    v
}

fn vec_lit_by_digest_key() -> (r: Vec<u8>)
    ensures
        r@ == lit_by_digest_key(),
{
    let mut v: Vec<u8> = Vec::new();
    v.push((',' as u8));
    v.push(('"' as u8));
    v.push(('b' as u8));
    v.push(('y' as u8));
    v.push(('_' as u8));
    v.push(('d' as u8));
    v.push(('i' as u8));
    v.push(('g' as u8));
    v.push(('e' as u8));
    v.push(('s' as u8));
    v.push(('t' as u8));
    v.push(('"' as u8));
    v.push((':' as u8));
    proof {
        assert(v@ =~= lit_by_digest_key());
    }
    v
}

/// The quoted name of a hash algorithm, as rendered.
fn vec_q_alg(a: HashAlg) -> (r: Vec<u8>)
    ensures
        r@ == ser_qname(alg_name(a)),
{
    let mut v: Vec<u8> = Vec::new();
    v.push(('"' as u8));
    match a {
        HashAlg::Mean => {
            v.push(('M' as u8));
            v.push(('e' as u8));
            v.push(('a' as u8));
            v.push(('n' as u8));
        },
        HashAlg::Gradient => {
            v.push(('G' as u8));
            v.push(('r' as u8));
            v.push(('a' as u8));
            v.push(('d' as u8));
            v.push(('i' as u8));
            v.push(('e' as u8));
            v.push(('n' as u8));
            v.push(('t' as u8));
        },
        HashAlg::DoubleGradient => {
            v.push(('D' as u8));
            v.push(('o' as u8));
            v.push(('u' as u8));
            v.push(('b' as u8));
            v.push(('l' as u8));
            v.push(('e' as u8));
            v.push(('G' as u8));
            v.push(('r' as u8));
            v.push(('a' as u8));
            v.push(('d' as u8));
            v.push(('i' as u8));
            v.push(('e' as u8));
            v.push(('n' as u8));
            v.push(('t' as u8));
        },
    }
    v.push(('"' as u8));
    proof {
        assert(v@ =~= ser_qname(alg_name(a)));
    }
    v
}

/// The quoted name of an aggregation strategy, as rendered.
fn vec_q_agg(a: Aggregation) -> (r: Vec<u8>)
    ensures
        r@ == ser_qname(agg_name(a)),
{
    let mut v: Vec<u8> = Vec::new();
    v.push(('"' as u8));
    match a {
        Aggregation::Majority => {
            v.push(('M' as u8));
            v.push(('a' as u8));
            v.push(('j' as u8));
            v.push(('o' as u8));
            v.push(('r' as u8));
            v.push(('i' as u8));
            v.push(('t' as u8));
            v.push(('y' as u8));
        },
        Aggregation::Medoid => {
            v.push(('M' as u8));
            v.push(('e' as u8));
            v.push(('d' as u8));
            v.push(('o' as u8));
            v.push(('i' as u8));
            v.push(('d' as u8));
        },
    }
    v.push(('"' as u8));
    proof {
        assert(v@ =~= ser_qname(agg_name(a)));
    }
    v
}

/// One entry, rendered.
#[verifier::rlimit(50)]
fn write_entry(out: &mut Vec<u8>, e: &CacheEntry)
    requires
        entry_plain(e@),
    ensures
        final(out)@ == old(out)@ + ser_entry(e@),
{
    match e {
        CacheEntry::Image { hash_alg, hash_w, hash_h, perceptual_hash } => {
            let l1 = vec_lit_alg_key();
            append_bytes(out, &l1);
            let q = vec_q_alg(*hash_alg);
            append_bytes(out, &q);
            let l2 = vec_lit_w_key();
            append_bytes(out, &l2);
            write_nat(out, *hash_w as u64);
            let l3 = vec_lit_h_key();
            append_bytes(out, &l3);
            write_nat(out, *hash_h as u64);
            let l4 = vec_lit_hash_key();
            append_bytes(out, &l4);
            write_plain_str(out, perceptual_hash);
            out.push(('}' as u8));
            proof {
                assert(final(out)@ =~= old(out)@ + ser_entry(e@));
            }
        },
        CacheEntry::Video {
            hash_alg,
            hash_w,
            hash_h,
            perceptual_hash,
            sample_start,
            sample_count,
            sample_window,
            aggregation,
        } => {
            let l1 = vec_lit_alg_key();
            append_bytes(out, &l1);
            let q = vec_q_alg(*hash_alg);
            append_bytes(out, &q);
            let l2 = vec_lit_w_key();
            append_bytes(out, &l2);
            write_nat(out, *hash_w as u64);
            let l3 = vec_lit_h_key();
            append_bytes(out, &l3);
            write_nat(out, *hash_h as u64);
            let l4 = vec_lit_hash_key();
            append_bytes(out, &l4);
            write_plain_str(out, perceptual_hash);
            let l5 = vec_lit_ss_key();
            append_bytes(out, &l5);
            write_nat(out, *sample_start as u64);
            let l6 = vec_lit_sc_key();
            append_bytes(out, &l6);
            write_nat(out, *sample_count as u64);
            let l7 = vec_lit_sw_key();
            append_bytes(out, &l7);
            write_nat(out, *sample_window as u64);
            let l8 = vec_lit_agg_key();
            append_bytes(out, &l8);
            let qa = vec_q_agg(*aggregation);
            append_bytes(out, &qa);
            out.push(('}' as u8));
            proof {
                assert(final(out)@ =~= old(out)@ + ser_entry(e@));
            }
        },
    }
}

/// An entry list, rendered.
#[verifier::rlimit(50)]
fn write_entries(out: &mut Vec<u8>, es: &Vec<CacheEntry>)
    requires
        forall|j: int| 0 <= j < es@.len() ==> entry_plain((#[trigger] es@[j])@),
    ensures
        final(out)@ == old(out)@ + ser_entries(entries_models(es@)),
{
    let ghost m = entries_models(es@);
    let n = es.len();
    out.push(('[' as u8));
    if n == 0 {
        out.push((']' as u8));
        proof {
            assert(final(out)@ =~= old(out)@ + ser_entries(m));
        }
        return ;
    }
    write_entry(out, &es[0]);
    let mut k: usize = 1;
    while k < n
        invariant
            n == es@.len(),
            n >= 1,
            m == entries_models(es@),
            forall|j: int| 0 <= j < es@.len() ==> entry_plain((#[trigger] es@[j])@),
            1 <= k <= n,
            out@ == old(out)@ + seq!['[' as u8] + ser_entry(m[0]) + ser_entries_range(m, 1, k as int),
        decreases n - k,
    {
        out.push((',' as u8));
        write_entry(out, &es[k]);
        proof {
            lemma_entries_range_snoc(m, 1, k as int);
            assert(out@ =~= old(out)@ + seq!['[' as u8] + ser_entry(m[0]) + ser_entries_range(
                m,
                1,
                k as int + 1,
            ));
        }
        k = k + 1;
    }
    out.push((']' as u8));
    proof {
        lemma_entries_range_end(m, 1);
        assert(final(out)@ =~= old(out)@ + ser_entries(m));
    }
}

/// One digest with its entries, rendered.
fn write_pair(out: &mut Vec<u8>, key: &String, es: &Vec<CacheEntry>)
    requires
        plain_str(key@),
        forall|j: int| 0 <= j < es@.len() ==> entry_plain((#[trigger] es@[j])@),
    ensures
        final(out)@ == old(out)@ + ser_pair((key@, entries_models(es@))),
{
    write_plain_str(out, key);
    out.push((':' as u8));
    write_entries(out, es);
    proof {
        assert(final(out)@ =~= old(out)@ + ser_pair((key@, entries_models(es@))));
    }
}

/// The digest map, rendered.
#[verifier::rlimit(100)]
fn write_map(out: &mut Vec<u8>, m: &Vec<(String, Vec<CacheEntry>)>)
    requires
        pairs_plain(store_models(m@)),
    ensures
        final(out)@ == old(out)@ + ser_map(store_models(m@)),
{
    let ghost mm = store_models(m@);
    let n = m.len();
    out.push(('{' as u8));
    if n == 0 {
        out.push(('}' as u8));
        proof {
            assert(final(out)@ =~= old(out)@ + ser_map(mm));
        }
        return ;
    }
    proof {
        assert(mm[0].0 == m@[0].0@ && mm[0].1 == entries_models(m@[0].1@));
        assert forall|j: int| 0 <= j < m@[0].1@.len() implies entry_plain(
            (#[trigger] m@[0].1@[j])@,
        ) by {
            assert(mm[0].1[j] == m@[0].1@[j]@);
        }
    }
    write_pair(out, &m[0].0, &m[0].1);
    let mut k: usize = 1;
    while k < n
        invariant
            n == m@.len(),
            n >= 1,
            mm == store_models(m@),
            pairs_plain(mm),
            1 <= k <= n,
            out@ == old(out)@ + seq!['{' as u8] + ser_pair(mm[0]) + ser_pairs_range(mm, 1, k as int),
        decreases n - k,
    {
        out.push((',' as u8));
        proof {
            assert(mm[k as int].0 == m@[k as int].0@ && mm[k as int].1 == entries_models(
                m@[k as int].1@,
            ));
            assert forall|j: int| 0 <= j < m@[k as int].1@.len() implies entry_plain(
                (#[trigger] m@[k as int].1@[j])@,
            ) by {
                assert(mm[k as int].1[j] == m@[k as int].1@[j]@);
            }
        }
        write_pair(out, &m[k].0, &m[k].1);
        proof {
            lemma_pairs_range_snoc(mm, 1, k as int);
            assert(out@ =~= old(out)@ + seq!['{' as u8] + ser_pair(mm[0]) + ser_pairs_range(
                mm,
                1,
                k as int + 1,
            ));
        }
        k = k + 1;
    }
    out.push(('}' as u8));
    proof {
        lemma_pairs_range_end(mm, 1);
        assert(final(out)@ =~= old(out)@ + ser_map(mm));
    }
}

/// Render the cache as its persisted JSON document. Succeeds exactly when
/// every digest key and stored hash is plain printable ASCII without quote
/// or backslash characters, which holds of every cache the pipeline
/// builds; the bytes are exactly what `decode_cache` accepts back.
pub fn encode_cache(c: &CacheFile) -> (r: Option<Vec<u8>>)
    ensures
        r is Some <==> model_plain(c@),
        r matches Some(v) ==> v@ == ser_cache(c@),
{
    let n = c.by_digest.len();
    let mut k: usize = 0;
    while k < n
        invariant
            n == c.by_digest@.len(),
            0 <= k <= n,
            forall|t: int|
                0 <= t < k ==> {
                    &&& plain_str((#[trigger] c@.by_digest[t]).0)
                    &&& forall|j: int|
                        0 <= j < c@.by_digest[t].1.len() ==> entry_plain(
                            #[trigger] c@.by_digest[t].1[j],
                        )
                },
        decreases n - k,
    {
        if !is_plain_string(&c.by_digest[k].0) {
            proof {
                assert(c@.by_digest[k as int].0 == c.by_digest@[k as int].0@);
                assert(!model_plain(c@));
            }
            return None;
        }
        let es = &c.by_digest[k].1;
        let en = es.len();
        let mut j: usize = 0;
        while j < en
            invariant
                en == es@.len(),
                k < c.by_digest@.len(),
                es@ == c.by_digest@[k as int].1@,
                0 <= j <= en,
                forall|t: int|
                    0 <= t < j ==> entry_plain(#[trigger] c@.by_digest[k as int].1[t]),
            decreases en - j,
        {
            if !is_plain_string(es[j].hash_str()) {
                proof {
                    assert(c@.by_digest[k as int].1[j as int] == es@[j as int]@);
                    match es@[j as int]@ {
                        EntryModel::Image { hash, .. } => {
                            assert(hash == es@[j as int].spec_hash());
                        },
                        EntryModel::Video { hash, .. } => {
                            assert(hash == es@[j as int].spec_hash());
                        },
                    }
                    assert(!entry_plain(c@.by_digest[k as int].1[j as int]));
                    assert(!model_plain(c@));
                }
                return None;
            }
            proof {
                assert(c@.by_digest[k as int].1[j as int] == es@[j as int]@);
                match es@[j as int]@ {
                    EntryModel::Image { hash, .. } => {
                        assert(hash == es@[j as int].spec_hash());
                    },
                    EntryModel::Video { hash, .. } => {
                        assert(hash == es@[j as int].spec_hash());
                    },
                }
            }
            j = j + 1;
        }
        proof {
            assert(c@.by_digest[k as int].0 == c.by_digest@[k as int].0@);
        }
        k = k + 1;
    }
    proof {
        assert(model_plain(c@));
    }
    let mut out: Vec<u8> = Vec::new();
    let l1 = vec_lit_version_key();
    append_bytes(&mut out, &l1);
    write_nat(&mut out, c.version as u64);
    let l2 = vec_lit_by_digest_key();
    append_bytes(&mut out, &l2);
    proof {
        assert(store_models(c.by_digest@) =~~= c@.by_digest);
        assert(pairs_plain(store_models(c.by_digest@)));
    }
    write_map(&mut out, &c.by_digest);
    out.push(('}' as u8));
    proof {
        assert(out@ =~= ser_cache(c@));
    }
    Some(out)
}

/// Read a quoted algorithm name.
fn parse_alg(s: &[u8], i: usize) -> (r: Option<(HashAlg, usize)>)
    ensures
        r matches Some(p) ==> i < p.1 <= s@.len(),
        r matches Some(p) ==> is_at(s@, i as int, ser_qname(alg_name(p.0))) && p.1 == i
            + ser_qname(alg_name(p.0)).len(),
        forall|a: HashAlg|
            #[trigger] is_at(s@, i as int, ser_qname(alg_name(a))) ==> r == Some(
                (a, (i + ser_qname(alg_name(a)).len()) as usize),
            ),
{
    let qm = vec_q_alg(HashAlg::Mean);
    let r1 = expect(s, i, &qm);
    if r1.is_some() {
        let j = r1.unwrap();
        proof {
            assert forall|a: HashAlg|
                #[trigger] is_at(s@, i as int, ser_qname(alg_name(a))) implies Some(
                (HashAlg::Mean, j),
            ) == Some::<(HashAlg, usize)>((a, (i + ser_qname(alg_name(a)).len()) as usize)) by {
                if a != HashAlg::Mean {
                    lemma_is_at_index(s@, i as int, ser_qname(alg_name(a)), 1);
                    lemma_is_at_index(s@, i as int, qm@, 1);
                }
            }
        }
        return Some((HashAlg::Mean, j));
    }
    let qg = vec_q_alg(HashAlg::Gradient);
    let r2 = expect(s, i, &qg);
    if r2.is_some() {
        let j = r2.unwrap();
        proof {
            assert forall|a: HashAlg|
                #[trigger] is_at(s@, i as int, ser_qname(alg_name(a))) implies Some(
                (HashAlg::Gradient, j),
            ) == Some::<(HashAlg, usize)>((a, (i + ser_qname(alg_name(a)).len()) as usize)) by {
                if a != HashAlg::Gradient {
                    lemma_is_at_index(s@, i as int, ser_qname(alg_name(a)), 1);
                    lemma_is_at_index(s@, i as int, qg@, 1);
                }
            }
        }
        return Some((HashAlg::Gradient, j));
    }
    let qd = vec_q_alg(HashAlg::DoubleGradient);
    let r3 = expect(s, i, &qd);
    if r3.is_some() {
        let j = r3.unwrap();
        proof {
            assert forall|a: HashAlg|
                #[trigger] is_at(s@, i as int, ser_qname(alg_name(a))) implies Some(
                (HashAlg::DoubleGradient, j),
            ) == Some::<(HashAlg, usize)>((a, (i + ser_qname(alg_name(a)).len()) as usize)) by {
                if a != HashAlg::DoubleGradient {
                    lemma_is_at_index(s@, i as int, ser_qname(alg_name(a)), 1);
                    lemma_is_at_index(s@, i as int, qd@, 1);
                }
            }
        }
        return Some((HashAlg::DoubleGradient, j));
    }
    proof {
        assert forall|a: HashAlg|
            #[trigger] is_at(s@, i as int, ser_qname(alg_name(a))) implies false by {
            match a {
                HashAlg::Mean => {},
                HashAlg::Gradient => {},
                HashAlg::DoubleGradient => {},
            }
        }
    }
    None
}

/// Read a quoted aggregation name.
fn parse_agg(s: &[u8], i: usize) -> (r: Option<(Aggregation, usize)>)
    ensures
        r matches Some(p) ==> i < p.1 <= s@.len(),
        r matches Some(p) ==> is_at(s@, i as int, ser_qname(agg_name(p.0))) && p.1 == i
            + ser_qname(agg_name(p.0)).len(),
        forall|a: Aggregation|
            #[trigger] is_at(s@, i as int, ser_qname(agg_name(a))) ==> r == Some(
                (a, (i + ser_qname(agg_name(a)).len()) as usize),
            ),
{
    let qm = vec_q_agg(Aggregation::Majority);
    let r1 = expect(s, i, &qm);
    if r1.is_some() {
        let j = r1.unwrap();
        proof {
            assert forall|a: Aggregation|
                #[trigger] is_at(s@, i as int, ser_qname(agg_name(a))) implies Some(
                (Aggregation::Majority, j),
            ) == Some::<(Aggregation, usize)>((a, (i + ser_qname(agg_name(a)).len()) as usize)) by {
                if a != Aggregation::Majority {
                    lemma_is_at_index(s@, i as int, ser_qname(agg_name(a)), 2);
                    lemma_is_at_index(s@, i as int, qm@, 2);
                }
            }
        }
        return Some((Aggregation::Majority, j));
    }
    let qd = vec_q_agg(Aggregation::Medoid);
    let r2 = expect(s, i, &qd);
    if r2.is_some() {
        let j = r2.unwrap();
        proof {
            assert forall|a: Aggregation|
                #[trigger] is_at(s@, i as int, ser_qname(agg_name(a))) implies Some(
                (Aggregation::Medoid, j),
            ) == Some::<(Aggregation, usize)>((a, (i + ser_qname(agg_name(a)).len()) as usize)) by {
                if a != Aggregation::Medoid {
                    lemma_is_at_index(s@, i as int, ser_qname(agg_name(a)), 2);
                    lemma_is_at_index(s@, i as int, qd@, 2);
                }
            }
        }
        return Some((Aggregation::Medoid, j));
    }
    proof {
        assert forall|a: Aggregation|
            #[trigger] is_at(s@, i as int, ser_qname(agg_name(a))) implies false by {
            match a {
                Aggregation::Majority => {},
                Aggregation::Medoid => {},
            }
        }
    }
    None
}

/// Where each fragment of a rendered entry head sits.
proof fn lemma_head_frags(s: Seq<u8>, i: int, alg: HashAlg, w: u32, h: u32, hash: Seq<char>)
    requires
        is_at(s, i, ser_entry_head(alg, w, h, hash)),
    ensures
        ({
            let o1 = i + lit_alg_key().len();
            let o2 = o1 + ser_qname(alg_name(alg)).len();
            let o3 = o2 + lit_w_key().len();
            let o4 = o3 + ser_nat(w as nat).len();
            let o5 = o4 + lit_h_key().len();
            let o6 = o5 + ser_nat(h as nat).len();
            let o7 = o6 + lit_hash_key().len();
            let o8 = o7 + ser_str(hash).len();
            &&& is_at(s, i, lit_alg_key())
            &&& is_at(s, o1, ser_qname(alg_name(alg)))
            &&& is_at(s, o2, lit_w_key())
            &&& is_at(s, o3, ser_nat(w as nat))
            &&& is_at(s, o4, lit_h_key())
            &&& is_at(s, o5, ser_nat(h as nat))
            &&& is_at(s, o6, lit_hash_key())
            &&& is_at(s, o7, ser_str(hash))
            &&& o8 == i + ser_entry_head(alg, w, h, hash).len()
            &&& not_digit_at(s, o4)
            &&& not_digit_at(s, o6)
        }),
{
    let p1 = lit_alg_key();
    let p2 = ser_qname(alg_name(alg));
    let p3 = lit_w_key();
    let p4 = ser_nat(w as nat);
    let p5 = lit_h_key();
    let p6 = ser_nat(h as nat);
    let p7 = lit_hash_key();
    let p8 = ser_str(hash);
    assert(ser_entry_head(alg, w, h, hash) == p1 + p2 + p3 + p4 + p5 + p6 + p7 + p8);
    lemma_is_at_concat(s, i, p1 + p2 + p3 + p4 + p5 + p6 + p7, p8);
    lemma_is_at_concat(s, i, p1 + p2 + p3 + p4 + p5 + p6, p7);
    lemma_is_at_concat(s, i, p1 + p2 + p3 + p4 + p5, p6);
    lemma_is_at_concat(s, i, p1 + p2 + p3 + p4, p5);
    lemma_is_at_concat(s, i, p1 + p2 + p3, p4);
    lemma_is_at_concat(s, i, p1 + p2, p3);
    lemma_is_at_concat(s, i, p1, p2);
    let o4 = i + p1.len() + p2.len() + p3.len() + p4.len();
    lemma_is_at_index(s, o4, p5, 0);
    let o6 = o4 + p5.len() + p6.len();
    lemma_is_at_index(s, o6, p7, 0);
}

/// Where each fragment of a rendered video tail sits.
proof fn lemma_tail_frags(s: Seq<u8>, i: int, ss: usize, sc: usize, sw: usize, agg: Aggregation)
    requires
        is_at(s, i, ser_video_tail(ss, sc, sw, agg)),
    ensures
        ({
            let o1 = i + lit_ss_key().len();
            let o2 = o1 + ser_nat(ss as nat).len();
            let o3 = o2 + lit_sc_key().len();
            let o4 = o3 + ser_nat(sc as nat).len();
            let o5 = o4 + lit_sw_key().len();
            let o6 = o5 + ser_nat(sw as nat).len();
            let o7 = o6 + lit_agg_key().len();
            let o8 = o7 + ser_qname(agg_name(agg)).len();
            &&& is_at(s, i, lit_ss_key())
            &&& is_at(s, o1, ser_nat(ss as nat))
            &&& is_at(s, o2, lit_sc_key())
            &&& is_at(s, o3, ser_nat(sc as nat))
            &&& is_at(s, o4, lit_sw_key())
            &&& is_at(s, o5, ser_nat(sw as nat))
            &&& is_at(s, o6, lit_agg_key())
            &&& is_at(s, o7, ser_qname(agg_name(agg)))
            &&& o8 < s.len() && s[o8] == '}' as u8
            &&& o8 + 1 == i + ser_video_tail(ss, sc, sw, agg).len()
            &&& not_digit_at(s, o2)
            &&& not_digit_at(s, o4)
            &&& not_digit_at(s, o6)
            &&& s[i] == ',' as u8
        }),
{
    let p1 = lit_ss_key();
    let p2 = ser_nat(ss as nat);
    let p3 = lit_sc_key();
    let p4 = ser_nat(sc as nat);
    let p5 = lit_sw_key();
    let p6 = ser_nat(sw as nat);
    let p7 = lit_agg_key();
    let p8 = ser_qname(agg_name(agg));
    let p9 = seq!['}' as u8];
    assert(ser_video_tail(ss, sc, sw, agg) == p1 + p2 + p3 + p4 + p5 + p6 + p7 + p8 + p9);
    lemma_is_at_concat(s, i, p1 + p2 + p3 + p4 + p5 + p6 + p7 + p8, p9);
    lemma_is_at_concat(s, i, p1 + p2 + p3 + p4 + p5 + p6 + p7, p8);
    lemma_is_at_concat(s, i, p1 + p2 + p3 + p4 + p5 + p6, p7);
    lemma_is_at_concat(s, i, p1 + p2 + p3 + p4 + p5, p6);
    lemma_is_at_concat(s, i, p1 + p2 + p3 + p4, p5);
    lemma_is_at_concat(s, i, p1 + p2 + p3, p4);
    lemma_is_at_concat(s, i, p1 + p2, p3);
    lemma_is_at_concat(s, i, p1, p2);
    lemma_is_at_index(s, i, p1, 0);
    let o2 = i + p1.len() + p2.len();
    lemma_is_at_index(s, o2, p3, 0);
    let o4 = o2 + p3.len() + p4.len();
    lemma_is_at_index(s, o4, p5, 0);
    let o6 = o4 + p5.len() + p6.len();
    lemma_is_at_index(s, o6, p7, 0);
    let o8 = o6 + p7.len() + p8.len();
    lemma_is_at_index(s, o8, p9, 0);
}

/// Read the fields shared by both entry variants.
#[verifier::rlimit(100)]
fn parse_entry_head(s: &[u8], i: usize) -> (r: Option<(HashAlg, u32, u32, String, usize)>)
    ensures
        r matches Some(p) ==> i < p.4 <= s@.len(),
        r matches Some(p) ==> {
            &&& plain_str(p.3@)
            &&& is_at(s@, i as int, ser_entry_head(p.0, p.1, p.2, p.3@))
            &&& p.4 == i + ser_entry_head(p.0, p.1, p.2, p.3@).len()
        },
        forall|alg: HashAlg, w: u32, h: u32, hash: Seq<char>|
            plain_str(hash) && #[trigger] is_at(s@, i as int, ser_entry_head(alg, w, h, hash))
                ==> (r matches Some(p) && p.0 == alg && p.1 == w && p.2 == h && p.3@ == hash
                && p.4 == i + ser_entry_head(alg, w, h, hash).len()),
{
    let _slen: usize = s.len();
    let l1 = vec_lit_alg_key();
    let r1 = expect(s, i, &l1);
    if r1.is_none() {
        proof {
            assert forall|alg: HashAlg, w: u32, h: u32, hash: Seq<char>|
                plain_str(hash) && #[trigger] is_at(
                    s@,
                    i as int,
                    ser_entry_head(alg, w, h, hash),
                ) implies false by {
                lemma_head_frags(s@, i as int, alg, w, h, hash);
            }
        }
        return None;
    }
    let j1 = r1.unwrap();
    let ra = parse_alg(s, j1);
    if ra.is_none() {
        proof {
            assert forall|alg: HashAlg, w: u32, h: u32, hash: Seq<char>|
                plain_str(hash) && #[trigger] is_at(
                    s@,
                    i as int,
                    ser_entry_head(alg, w, h, hash),
                ) implies false by {
                lemma_head_frags(s@, i as int, alg, w, h, hash);
                assert(is_at(s@, j1 as int, ser_qname(alg_name(alg))));
            }
        }
        return None;
    }
    let (alg_v, j2) = ra.unwrap();
    let l2 = vec_lit_w_key();
    let r2 = expect(s, j2, &l2);
    if r2.is_none() {
        proof {
            assert forall|alg: HashAlg, w: u32, h: u32, hash: Seq<char>|
                plain_str(hash) && #[trigger] is_at(
                    s@,
                    i as int,
                    ser_entry_head(alg, w, h, hash),
                ) implies false by {
                lemma_head_frags(s@, i as int, alg, w, h, hash);
                assert(is_at(s@, j1 as int, ser_qname(alg_name(alg))));
                assert(j2 == j1 + ser_qname(alg_name(alg)).len());
                assert(is_at(s@, j2 as int, lit_w_key()));
            }
        }
        return None;
    }
    let j3 = r2.unwrap();
    let rw = parse_nat(s, j3);
    if rw.is_none() {
        proof {
            assert forall|alg: HashAlg, w: u32, h: u32, hash: Seq<char>|
                plain_str(hash) && #[trigger] is_at(
                    s@,
                    i as int,
                    ser_entry_head(alg, w, h, hash),
                ) implies false by {
                lemma_head_frags(s@, i as int, alg, w, h, hash);
                assert(is_at(s@, j1 as int, ser_qname(alg_name(alg))));
                assert(j3 == j1 + ser_qname(alg_name(alg)).len() + lit_w_key().len());
                assert(is_at(s@, j3 as int, ser_nat(w as nat)));
                assert(not_digit_at(s@, j3 + ser_nat(w as nat).len()));
                assert(w as nat <= u64::MAX);
            }
        }
        return None;
    }
    let (wv, j4) = rw.unwrap();
    if wv > 0xFFFF_FFFFu64 {
        proof {
            assert forall|alg: HashAlg, w: u32, h: u32, hash: Seq<char>|
                plain_str(hash) && #[trigger] is_at(
                    s@,
                    i as int,
                    ser_entry_head(alg, w, h, hash),
                ) implies false by {
                lemma_head_frags(s@, i as int, alg, w, h, hash);
                assert(is_at(s@, j1 as int, ser_qname(alg_name(alg))));
                assert(is_at(s@, (j1 + ser_qname(alg_name(alg)).len() + lit_w_key().len()) as int,
                    ser_nat(w as nat)));
                assert(not_digit_at(s@, j1 + ser_qname(alg_name(alg)).len() + lit_w_key().len()
                    + ser_nat(w as nat).len()));
                assert(w as nat <= u64::MAX);
                assert(wv == w as u64);
            }
        }
        return None;
    }
    let l3 = vec_lit_h_key();
    let r3 = expect(s, j4, &l3);
    if r3.is_none() {
        proof {
            assert forall|alg: HashAlg, w: u32, h: u32, hash: Seq<char>|
                plain_str(hash) && #[trigger] is_at(
                    s@,
                    i as int,
                    ser_entry_head(alg, w, h, hash),
                ) implies false by {
                lemma_head_frags(s@, i as int, alg, w, h, hash);
                assert(is_at(s@, j1 as int, ser_qname(alg_name(alg))));
                assert(is_at(s@, (j1 + ser_qname(alg_name(alg)).len() + lit_w_key().len()) as int,
                    ser_nat(w as nat)));
                assert(not_digit_at(s@, j1 + ser_qname(alg_name(alg)).len() + lit_w_key().len()
                    + ser_nat(w as nat).len()));
                assert(w as nat <= u64::MAX);
                assert(j4 == j1 + ser_qname(alg_name(alg)).len() + lit_w_key().len() + ser_nat(
                    w as nat,
                ).len());
                assert(is_at(s@, j4 as int, lit_h_key()));
            }
        }
        return None;
    }
    let j5 = r3.unwrap();
    let rh = parse_nat(s, j5);
    if rh.is_none() {
        proof {
            assert forall|alg: HashAlg, w: u32, h: u32, hash: Seq<char>|
                plain_str(hash) && #[trigger] is_at(
                    s@,
                    i as int,
                    ser_entry_head(alg, w, h, hash),
                ) implies false by {
                lemma_head_frags(s@, i as int, alg, w, h, hash);
                assert(is_at(s@, j1 as int, ser_qname(alg_name(alg))));
                assert(is_at(s@, (j1 + ser_qname(alg_name(alg)).len() + lit_w_key().len()) as int,
                    ser_nat(w as nat)));
                assert(not_digit_at(s@, j1 + ser_qname(alg_name(alg)).len() + lit_w_key().len()
                    + ser_nat(w as nat).len()));
                assert(w as nat <= u64::MAX);
                assert(j5 == j1 + ser_qname(alg_name(alg)).len() + lit_w_key().len() + ser_nat(
                    w as nat,
                ).len() + lit_h_key().len());
                assert(is_at(s@, j5 as int, ser_nat(h as nat)));
                assert(not_digit_at(s@, j5 + ser_nat(h as nat).len()));
                assert(h as nat <= u64::MAX);
            }
        }
        return None;
    }
    let (hv, j6) = rh.unwrap();
    if hv > 0xFFFF_FFFFu64 {
        proof {
            assert forall|alg: HashAlg, w: u32, h: u32, hash: Seq<char>|
                plain_str(hash) && #[trigger] is_at(
                    s@,
                    i as int,
                    ser_entry_head(alg, w, h, hash),
                ) implies false by {
                lemma_head_frags(s@, i as int, alg, w, h, hash);
                assert(is_at(s@, j1 as int, ser_qname(alg_name(alg))));
                assert(is_at(s@, (j1 + ser_qname(alg_name(alg)).len() + lit_w_key().len()) as int,
                    ser_nat(w as nat)));
                assert(not_digit_at(s@, j1 + ser_qname(alg_name(alg)).len() + lit_w_key().len()
                    + ser_nat(w as nat).len()));
                assert(w as nat <= u64::MAX && h as nat <= u64::MAX);
                let o5 = j1 + ser_qname(alg_name(alg)).len() + lit_w_key().len() + ser_nat(
                    w as nat,
                ).len() + lit_h_key().len();
                assert(is_at(s@, o5, ser_nat(h as nat)));
                assert(not_digit_at(s@, o5 + ser_nat(h as nat).len()));
                assert(hv == h as u64);
            }
        }
        return None;
    }
    let l4 = vec_lit_hash_key();
    let r4 = expect(s, j6, &l4);
    if r4.is_none() {
        proof {
            assert forall|alg: HashAlg, w: u32, h: u32, hash: Seq<char>|
                plain_str(hash) && #[trigger] is_at(
                    s@,
                    i as int,
                    ser_entry_head(alg, w, h, hash),
                ) implies false by {
                lemma_head_frags(s@, i as int, alg, w, h, hash);
                assert(is_at(s@, j1 as int, ser_qname(alg_name(alg))));
                assert(is_at(s@, (j1 + ser_qname(alg_name(alg)).len() + lit_w_key().len()) as int,
                    ser_nat(w as nat)));
                assert(not_digit_at(s@, j1 + ser_qname(alg_name(alg)).len() + lit_w_key().len()
                    + ser_nat(w as nat).len()));
                assert(w as nat <= u64::MAX && h as nat <= u64::MAX);
                let o5 = j1 + ser_qname(alg_name(alg)).len() + lit_w_key().len() + ser_nat(
                    w as nat,
                ).len() + lit_h_key().len();
                assert(is_at(s@, o5, ser_nat(h as nat)));
                assert(not_digit_at(s@, o5 + ser_nat(h as nat).len()));
                assert(j6 == o5 + ser_nat(h as nat).len());
                assert(is_at(s@, j6 as int, lit_hash_key()));
            }
        }
        return None;
    }
    let j7 = r4.unwrap();
    let rs = parse_string(s, j7);
    if rs.is_none() {
        proof {
            assert forall|alg: HashAlg, w: u32, h: u32, hash: Seq<char>|
                plain_str(hash) && #[trigger] is_at(
                    s@,
                    i as int,
                    ser_entry_head(alg, w, h, hash),
                ) implies false by {
                lemma_head_frags(s@, i as int, alg, w, h, hash);
                assert(is_at(s@, j1 as int, ser_qname(alg_name(alg))));
                assert(is_at(s@, (j1 + ser_qname(alg_name(alg)).len() + lit_w_key().len()) as int,
                    ser_nat(w as nat)));
                assert(not_digit_at(s@, j1 + ser_qname(alg_name(alg)).len() + lit_w_key().len()
                    + ser_nat(w as nat).len()));
                assert(w as nat <= u64::MAX && h as nat <= u64::MAX);
                let o5 = j1 + ser_qname(alg_name(alg)).len() + lit_w_key().len() + ser_nat(
                    w as nat,
                ).len() + lit_h_key().len();
                assert(is_at(s@, o5, ser_nat(h as nat)));
                assert(not_digit_at(s@, o5 + ser_nat(h as nat).len()));
                assert(j7 == o5 + ser_nat(h as nat).len() + lit_hash_key().len());
                assert(is_at(s@, j7 as int, ser_str(hash)));
            }
        }
        return None;
    }
    let (hash_v, j8) = rs.unwrap();
    let wvc = wv as u32;
    let hvc = hv as u32;
    proof {
        // soundness: the consumed bytes render exactly the head read
        let p1 = lit_alg_key();
        let p2 = ser_qname(alg_name(alg_v));
        let p3 = lit_w_key();
        let p4 = ser_nat(wvc as nat);
        let p5 = lit_h_key();
        let p6 = ser_nat(hvc as nat);
        let p7 = lit_hash_key();
        let p8 = ser_str(hash_v@);
        assert(wvc as nat == wv as nat && hvc as nat == hv as nat);
        lemma_is_at_concat(s@, i as int, p1, p2);
        lemma_is_at_concat(s@, i as int, p1 + p2, p3);
        lemma_is_at_concat(s@, i as int, p1 + p2 + p3, p4);
        lemma_is_at_concat(s@, i as int, p1 + p2 + p3 + p4, p5);
        lemma_is_at_concat(s@, i as int, p1 + p2 + p3 + p4 + p5, p6);
        lemma_is_at_concat(s@, i as int, p1 + p2 + p3 + p4 + p5 + p6, p7);
        lemma_is_at_concat(s@, i as int, p1 + p2 + p3 + p4 + p5 + p6 + p7, p8);
        assert(ser_entry_head(alg_v, wvc, hvc, hash_v@) == p1 + p2 + p3 + p4 + p5 + p6 + p7 + p8);
        assert(is_at(s@, i as int, ser_entry_head(alg_v, wvc, hvc, hash_v@)));
        assert(j8 == i + ser_entry_head(alg_v, wvc, hvc, hash_v@).len());
        assert forall|alg: HashAlg, w: u32, h: u32, hash: Seq<char>|
            plain_str(hash) && #[trigger] is_at(
                s@,
                i as int,
                ser_entry_head(alg, w, h, hash),
            ) implies (alg_v == alg && wvc == w && hvc == h && hash_v@ == hash && j8 == i
            + ser_entry_head(alg, w, h, hash).len()) by {
            lemma_head_frags(s@, i as int, alg, w, h, hash);
            assert(is_at(s@, j1 as int, ser_qname(alg_name(alg))));
            assert(is_at(s@, (j1 + ser_qname(alg_name(alg)).len() + lit_w_key().len()) as int,
                ser_nat(w as nat)));
            assert(not_digit_at(s@, j1 + ser_qname(alg_name(alg)).len() + lit_w_key().len()
                + ser_nat(w as nat).len()));
            assert(w as nat <= u64::MAX && h as nat <= u64::MAX);
            let o5 = j1 + ser_qname(alg_name(alg)).len() + lit_w_key().len() + ser_nat(
                w as nat,
            ).len() + lit_h_key().len();
            assert(is_at(s@, o5, ser_nat(h as nat)));
            assert(not_digit_at(s@, o5 + ser_nat(h as nat).len()));
            assert(is_at(s@, (o5 + ser_nat(h as nat).len() + lit_hash_key().len()) as int,
                ser_str(hash)));
            assert(wv == w as u64 && hv == h as u64);
        }
    }
    Some((alg_v, wvc, hvc, hash_v, j8))
}

/// Read the video-only fields and the closing brace.
#[verifier::rlimit(100)]
fn parse_video_tail(s: &[u8], i: usize) -> (r: Option<(usize, usize, usize, Aggregation, usize)>)
    ensures
        r matches Some(p) ==> i < p.4 <= s@.len(),
        r matches Some(p) ==> {
            &&& is_at(s@, i as int, ser_video_tail(p.0, p.1, p.2, p.3))
            &&& p.4 == i + ser_video_tail(p.0, p.1, p.2, p.3).len()
        },
        forall|ss: usize, sc: usize, sw: usize, agg: Aggregation|
            #[trigger] is_at(s@, i as int, ser_video_tail(ss, sc, sw, agg)) ==> r == Some(
                (ss, sc, sw, agg, (i + ser_video_tail(ss, sc, sw, agg).len()) as usize),
            ),
{
    let _slen: usize = s.len();
    let l5 = vec_lit_ss_key();
    let r5 = expect(s, i, &l5);
    if r5.is_none() {
        proof {
            assert forall|ss: usize, sc: usize, sw: usize, agg: Aggregation|
                #[trigger] is_at(s@, i as int, ser_video_tail(ss, sc, sw, agg)) implies false by {
                lemma_tail_frags(s@, i as int, ss, sc, sw, agg);
            }
        }
        return None;
    }
    let j9 = r5.unwrap();
    let rss = parse_nat(s, j9);
    if rss.is_none() {
        proof {
            assert forall|ss: usize, sc: usize, sw: usize, agg: Aggregation|
                #[trigger] is_at(s@, i as int, ser_video_tail(ss, sc, sw, agg)) implies false by {
                lemma_tail_frags(s@, i as int, ss, sc, sw, agg);
                assert(is_at(s@, j9 as int, ser_nat(ss as nat)));
                assert(not_digit_at(s@, j9 + ser_nat(ss as nat).len()));
                assert(ss as nat <= u64::MAX);
            }
        }
        return None;
    }
    let (ssv, j10) = rss.unwrap();
    if ssv > (usize::MAX as u64) {
        proof {
            assert forall|ss: usize, sc: usize, sw: usize, agg: Aggregation|
                #[trigger] is_at(s@, i as int, ser_video_tail(ss, sc, sw, agg)) implies false by {
                lemma_tail_frags(s@, i as int, ss, sc, sw, agg);
                assert(is_at(s@, j9 as int, ser_nat(ss as nat)));
                assert(not_digit_at(s@, j9 + ser_nat(ss as nat).len()));
                assert(ss as nat <= u64::MAX);
                assert(ssv == ss as u64);
            }
        }
        return None;
    }
    let l6 = vec_lit_sc_key();
    let r6 = expect(s, j10, &l6);
    if r6.is_none() {
        proof {
            assert forall|ss: usize, sc: usize, sw: usize, agg: Aggregation|
                #[trigger] is_at(s@, i as int, ser_video_tail(ss, sc, sw, agg)) implies false by {
                lemma_tail_frags(s@, i as int, ss, sc, sw, agg);
                assert(is_at(s@, j9 as int, ser_nat(ss as nat)));
                assert(not_digit_at(s@, j9 + ser_nat(ss as nat).len()));
                assert(ss as nat <= u64::MAX);
                assert(j10 == j9 + ser_nat(ss as nat).len());
                assert(is_at(s@, j10 as int, lit_sc_key()));
            }
        }
        return None;
    }
    let j11 = r6.unwrap();
    let rsc = parse_nat(s, j11);
    if rsc.is_none() {
        proof {
            assert forall|ss: usize, sc: usize, sw: usize, agg: Aggregation|
                #[trigger] is_at(s@, i as int, ser_video_tail(ss, sc, sw, agg)) implies false by {
                lemma_tail_frags(s@, i as int, ss, sc, sw, agg);
                assert(is_at(s@, j9 as int, ser_nat(ss as nat)));
                assert(not_digit_at(s@, j9 + ser_nat(ss as nat).len()));
                assert(ss as nat <= u64::MAX && sc as nat <= u64::MAX);
                assert(j11 == j9 + ser_nat(ss as nat).len() + lit_sc_key().len());
                assert(is_at(s@, j11 as int, ser_nat(sc as nat)));
                assert(not_digit_at(s@, j11 + ser_nat(sc as nat).len()));
            }
        }
        return None;
    }
    let (scv, j12) = rsc.unwrap();
    if scv > (usize::MAX as u64) {
        proof {
            assert forall|ss: usize, sc: usize, sw: usize, agg: Aggregation|
                #[trigger] is_at(s@, i as int, ser_video_tail(ss, sc, sw, agg)) implies false by {
                lemma_tail_frags(s@, i as int, ss, sc, sw, agg);
                assert(is_at(s@, j9 as int, ser_nat(ss as nat)));
                assert(not_digit_at(s@, j9 + ser_nat(ss as nat).len()));
                assert(ss as nat <= u64::MAX && sc as nat <= u64::MAX);
                let o3 = j9 + ser_nat(ss as nat).len() + lit_sc_key().len();
                assert(is_at(s@, o3, ser_nat(sc as nat)));
                assert(not_digit_at(s@, o3 + ser_nat(sc as nat).len()));
                assert(scv == sc as u64);
            }
        }
        return None;
    }
    let l7 = vec_lit_sw_key();
    let r7 = expect(s, j12, &l7);
    if r7.is_none() {
        proof {
            assert forall|ss: usize, sc: usize, sw: usize, agg: Aggregation|
                #[trigger] is_at(s@, i as int, ser_video_tail(ss, sc, sw, agg)) implies false by {
                lemma_tail_frags(s@, i as int, ss, sc, sw, agg);
                assert(is_at(s@, j9 as int, ser_nat(ss as nat)));
                assert(not_digit_at(s@, j9 + ser_nat(ss as nat).len()));
                assert(ss as nat <= u64::MAX && sc as nat <= u64::MAX);
                let o3 = j9 + ser_nat(ss as nat).len() + lit_sc_key().len();
                assert(is_at(s@, o3, ser_nat(sc as nat)));
                assert(not_digit_at(s@, o3 + ser_nat(sc as nat).len()));
                assert(j12 == o3 + ser_nat(sc as nat).len());
                assert(is_at(s@, j12 as int, lit_sw_key()));
            }
        }
        return None;
    }
    let j13 = r7.unwrap();
    let rsw = parse_nat(s, j13);
    if rsw.is_none() {
        proof {
            assert forall|ss: usize, sc: usize, sw: usize, agg: Aggregation|
                #[trigger] is_at(s@, i as int, ser_video_tail(ss, sc, sw, agg)) implies false by {
                lemma_tail_frags(s@, i as int, ss, sc, sw, agg);
                assert(is_at(s@, j9 as int, ser_nat(ss as nat)));
                assert(not_digit_at(s@, j9 + ser_nat(ss as nat).len()));
                assert(ss as nat <= u64::MAX && sc as nat <= u64::MAX && sw as nat <= u64::MAX);
                let o3 = j9 + ser_nat(ss as nat).len() + lit_sc_key().len();
                assert(is_at(s@, o3, ser_nat(sc as nat)));
                assert(not_digit_at(s@, o3 + ser_nat(sc as nat).len()));
                assert(j13 == o3 + ser_nat(sc as nat).len() + lit_sw_key().len());
                assert(is_at(s@, j13 as int, ser_nat(sw as nat)));
                assert(not_digit_at(s@, j13 + ser_nat(sw as nat).len()));
            }
        }
        return None;
    }
    let (swv, j14) = rsw.unwrap();
    if swv > (usize::MAX as u64) {
        proof {
            assert forall|ss: usize, sc: usize, sw: usize, agg: Aggregation|
                #[trigger] is_at(s@, i as int, ser_video_tail(ss, sc, sw, agg)) implies false by {
                lemma_tail_frags(s@, i as int, ss, sc, sw, agg);
                assert(is_at(s@, j9 as int, ser_nat(ss as nat)));
                assert(not_digit_at(s@, j9 + ser_nat(ss as nat).len()));
                assert(ss as nat <= u64::MAX && sc as nat <= u64::MAX && sw as nat <= u64::MAX);
                let o3 = j9 + ser_nat(ss as nat).len() + lit_sc_key().len();
                assert(is_at(s@, o3, ser_nat(sc as nat)));
                assert(not_digit_at(s@, o3 + ser_nat(sc as nat).len()));
                let o5 = o3 + ser_nat(sc as nat).len() + lit_sw_key().len();
                assert(is_at(s@, o5, ser_nat(sw as nat)));
                assert(not_digit_at(s@, o5 + ser_nat(sw as nat).len()));
                assert(swv == sw as u64);
            }
        }
        return None;
    }
    let l8 = vec_lit_agg_key();
    let r8 = expect(s, j14, &l8);
    if r8.is_none() {
        proof {
            assert forall|ss: usize, sc: usize, sw: usize, agg: Aggregation|
                #[trigger] is_at(s@, i as int, ser_video_tail(ss, sc, sw, agg)) implies false by {
                lemma_tail_frags(s@, i as int, ss, sc, sw, agg);
                assert(is_at(s@, j9 as int, ser_nat(ss as nat)));
                assert(not_digit_at(s@, j9 + ser_nat(ss as nat).len()));
                assert(ss as nat <= u64::MAX && sc as nat <= u64::MAX && sw as nat <= u64::MAX);
                let o3 = j9 + ser_nat(ss as nat).len() + lit_sc_key().len();
                assert(is_at(s@, o3, ser_nat(sc as nat)));
                assert(not_digit_at(s@, o3 + ser_nat(sc as nat).len()));
                let o5 = o3 + ser_nat(sc as nat).len() + lit_sw_key().len();
                assert(is_at(s@, o5, ser_nat(sw as nat)));
                assert(not_digit_at(s@, o5 + ser_nat(sw as nat).len()));
                assert(j14 == o5 + ser_nat(sw as nat).len());
                assert(is_at(s@, j14 as int, lit_agg_key()));
            }
        }
        return None;
    }
    let j15 = r8.unwrap();
    let rag = parse_agg(s, j15);
    if rag.is_none() {
        proof {
            assert forall|ss: usize, sc: usize, sw: usize, agg: Aggregation|
                #[trigger] is_at(s@, i as int, ser_video_tail(ss, sc, sw, agg)) implies false by {
                lemma_tail_frags(s@, i as int, ss, sc, sw, agg);
                assert(is_at(s@, j9 as int, ser_nat(ss as nat)));
                assert(not_digit_at(s@, j9 + ser_nat(ss as nat).len()));
                assert(ss as nat <= u64::MAX && sc as nat <= u64::MAX && sw as nat <= u64::MAX);
                let o3 = j9 + ser_nat(ss as nat).len() + lit_sc_key().len();
                assert(is_at(s@, o3, ser_nat(sc as nat)));
                assert(not_digit_at(s@, o3 + ser_nat(sc as nat).len()));
                let o5 = o3 + ser_nat(sc as nat).len() + lit_sw_key().len();
                assert(is_at(s@, o5, ser_nat(sw as nat)));
                assert(not_digit_at(s@, o5 + ser_nat(sw as nat).len()));
                assert(j15 == o5 + ser_nat(sw as nat).len() + lit_agg_key().len());
                assert(is_at(s@, j15 as int, ser_qname(agg_name(agg))));
            }
        }
        return None;
    }
    let (agg_v, j16) = rag.unwrap();
    if j16 < s.len() && s[j16] == ('}' as u8) {
        let ssc = ssv as usize;
        let scc = scv as usize;
        let swc = swv as usize;
        proof {
            // soundness: the consumed bytes render exactly the tail read
            let p1 = lit_ss_key();
            let p2 = ser_nat(ssc as nat);
            let p3 = lit_sc_key();
            let p4 = ser_nat(scc as nat);
            let p5 = lit_sw_key();
            let p6 = ser_nat(swc as nat);
            let p7 = lit_agg_key();
            let p8 = ser_qname(agg_name(agg_v));
            let p9 = seq!['}' as u8];
            assert(ssc as nat == ssv as nat && scc as nat == scv as nat && swc as nat
                == swv as nat);
            assert(s@.subrange(j16 as int, j16 as int + 1) =~= p9);
            assert(is_at(s@, j16 as int, p9));
            lemma_is_at_concat(s@, i as int, p1, p2);
            lemma_is_at_concat(s@, i as int, p1 + p2, p3);
            lemma_is_at_concat(s@, i as int, p1 + p2 + p3, p4);
            lemma_is_at_concat(s@, i as int, p1 + p2 + p3 + p4, p5);
            lemma_is_at_concat(s@, i as int, p1 + p2 + p3 + p4 + p5, p6);
            lemma_is_at_concat(s@, i as int, p1 + p2 + p3 + p4 + p5 + p6, p7);
            lemma_is_at_concat(s@, i as int, p1 + p2 + p3 + p4 + p5 + p6 + p7, p8);
            lemma_is_at_concat(s@, i as int, p1 + p2 + p3 + p4 + p5 + p6 + p7 + p8, p9);
            assert(ser_video_tail(ssc, scc, swc, agg_v) == p1 + p2 + p3 + p4 + p5 + p6 + p7 + p8
                + p9);
            assert(is_at(s@, i as int, ser_video_tail(ssc, scc, swc, agg_v)));
            assert(j16 + 1 == i + ser_video_tail(ssc, scc, swc, agg_v).len());
            assert forall|ss: usize, sc: usize, sw: usize, agg: Aggregation|
                #[trigger] is_at(s@, i as int, ser_video_tail(ss, sc, sw, agg)) implies (ssc == ss
                && scc == sc && swc == sw && agg_v == agg && j16 + 1 == i + ser_video_tail(
                ss,
                sc,
                sw,
                agg,
            ).len()) by {
                lemma_tail_frags(s@, i as int, ss, sc, sw, agg);
                assert(is_at(s@, j9 as int, ser_nat(ss as nat)));
                assert(not_digit_at(s@, j9 + ser_nat(ss as nat).len()));
                assert(ss as nat <= u64::MAX && sc as nat <= u64::MAX && sw as nat <= u64::MAX);
                let o3 = j9 + ser_nat(ss as nat).len() + lit_sc_key().len();
                assert(is_at(s@, o3, ser_nat(sc as nat)));
                assert(not_digit_at(s@, o3 + ser_nat(sc as nat).len()));
                let o5 = o3 + ser_nat(sc as nat).len() + lit_sw_key().len();
                assert(is_at(s@, o5, ser_nat(sw as nat)));
                assert(not_digit_at(s@, o5 + ser_nat(sw as nat).len()));
                let o7 = o5 + ser_nat(sw as nat).len() + lit_agg_key().len();
                assert(is_at(s@, o7, ser_qname(agg_name(agg))));
                assert(ssv == ss as u64 && scv == sc as u64 && swv == sw as u64);
            }
        }
        return Some((ssc, scc, swc, agg_v, j16 + 1));
    }
    proof {
        assert forall|ss: usize, sc: usize, sw: usize, agg: Aggregation|
            #[trigger] is_at(s@, i as int, ser_video_tail(ss, sc, sw, agg)) implies false by {
            lemma_tail_frags(s@, i as int, ss, sc, sw, agg);
            assert(is_at(s@, j9 as int, ser_nat(ss as nat)));
            assert(not_digit_at(s@, j9 + ser_nat(ss as nat).len()));
            assert(ss as nat <= u64::MAX && sc as nat <= u64::MAX && sw as nat <= u64::MAX);
            let o3 = j9 + ser_nat(ss as nat).len() + lit_sc_key().len();
            assert(is_at(s@, o3, ser_nat(sc as nat)));
            assert(not_digit_at(s@, o3 + ser_nat(sc as nat).len()));
            let o5 = o3 + ser_nat(sc as nat).len() + lit_sw_key().len();
            assert(is_at(s@, o5, ser_nat(sw as nat)));
            assert(not_digit_at(s@, o5 + ser_nat(sw as nat).len()));
            let o7 = o5 + ser_nat(sw as nat).len() + lit_agg_key().len();
            assert(is_at(s@, o7, ser_qname(agg_name(agg))));
            assert(j16 == o7 + ser_qname(agg_name(agg)).len());
        }
    }
    None
}

/// Read one cache entry.
#[verifier::rlimit(100)]
fn parse_entry(s: &[u8], i: usize) -> (r: Option<(CacheEntry, usize)>)
    ensures
        r matches Some(p) ==> i < p.1 <= s@.len(),
        r matches Some(p) ==> {
            &&& entry_plain(p.0@)
            &&& is_at(s@, i as int, ser_entry(p.0@))
            &&& p.1 == i + ser_entry(p.0@).len()
        },
        forall|em: EntryModel|
            entry_plain(em) && #[trigger] is_at(s@, i as int, ser_entry(em)) ==> (r matches Some(p)
                && p.0@ == em && p.1 == i + ser_entry(em).len()),
{
    let _slen: usize = s.len();
    let rh = parse_entry_head(s, i);
    if rh.is_none() {
        proof {
            assert forall|em: EntryModel|
                entry_plain(em) && #[trigger] is_at(s@, i as int, ser_entry(em)) implies false by {
                lemma_entry_split(s@, i as int, em);
            }
        }
        return None;
    }
    let (alg_v, wv, hv, hash_v, j8) = rh.unwrap();
    if j8 < s.len() && s[j8] == ('}' as u8) {
        let e = CacheEntry::Image {
            hash_alg: alg_v,
            hash_w: wv,
            hash_h: hv,
            perceptual_hash: hash_v,
        };
        proof {
            // soundness: head plus the closing brace is the image rendering
            assert(s@.subrange(j8 as int, j8 as int + 1) =~= seq!['}' as u8]);
            assert(is_at(s@, j8 as int, seq!['}' as u8]));
            lemma_is_at_concat(s@, i as int, ser_entry_head(alg_v, wv, hv, hash_v@), seq![
                '}' as u8,
            ]);
            assert(ser_entry(e@) == ser_entry_head(alg_v, wv, hv, hash_v@) + seq!['}' as u8]);
            assert(is_at(s@, i as int, ser_entry(e@)));
            assert forall|em: EntryModel|
                entry_plain(em) && #[trigger] is_at(s@, i as int, ser_entry(em)) implies (e@ == em
                && j8 + 1 == i + ser_entry(em).len()) by {
                lemma_entry_split(s@, i as int, em);
                match em {
                    EntryModel::Image { alg, w, h, hash } => {},
                    EntryModel::Video {
                        alg,
                        w,
                        h,
                        hash,
                        sample_start,
                        sample_count,
                        sample_window,
                        aggregation,
                    } => {
                        let tj = i + ser_entry_head(alg, w, h, hash).len();
                        lemma_tail_frags(
                            s@,
                            tj,
                            sample_start,
                            sample_count,
                            sample_window,
                            aggregation,
                        );
                        assert(s@[tj] == ',' as u8);
                    },
                }
            }
        }
        return Some((e, j8 + 1));
    }
    let rt = parse_video_tail(s, j8);
    if rt.is_none() {
        proof {
            assert forall|em: EntryModel|
                entry_plain(em) && #[trigger] is_at(s@, i as int, ser_entry(em)) implies false by {
                lemma_entry_split(s@, i as int, em);
                match em {
                    EntryModel::Image { alg, w, h, hash } => {
                        let tj = i + ser_entry_head(alg, w, h, hash).len();
                        assert(s@[tj] == '}' as u8);
                        assert(tj == j8);
                    },
                    EntryModel::Video {
                        alg,
                        w,
                        h,
                        hash,
                        sample_start,
                        sample_count,
                        sample_window,
                        aggregation,
                    } => {
                        let tj = i + ser_entry_head(alg, w, h, hash).len();
                        assert(tj == j8);
                        assert(is_at(s@, j8 as int, ser_video_tail(
                            sample_start,
                            sample_count,
                            sample_window,
                            aggregation,
                        )));
                    },
                }
            }
        }
        return None;
    }
    let (ssv, scv, swv, agg_v, j16) = rt.unwrap();
    let e = CacheEntry::Video {
        hash_alg: alg_v,
        hash_w: wv,
        hash_h: hv,
        perceptual_hash: hash_v,
        sample_start: ssv,
        sample_count: scv,
        sample_window: swv,
        aggregation: agg_v,
    };
    proof {
        // soundness: head plus tail is the video rendering
        lemma_is_at_concat(
            s@,
            i as int,
            ser_entry_head(alg_v, wv, hv, hash_v@),
            ser_video_tail(ssv, scv, swv, agg_v),
        );
        assert(ser_entry(e@) == ser_entry_head(alg_v, wv, hv, hash_v@) + ser_video_tail(
            ssv,
            scv,
            swv,
            agg_v,
        ));
        assert(is_at(s@, i as int, ser_entry(e@)));
        assert(j16 == i + ser_entry(e@).len());
        assert forall|em: EntryModel|
            entry_plain(em) && #[trigger] is_at(s@, i as int, ser_entry(em)) implies (e@ == em
            && j16 == i + ser_entry(em).len()) by {
            lemma_entry_split(s@, i as int, em);
            match em {
                EntryModel::Image { alg, w, h, hash } => {
                    let tj = i + ser_entry_head(alg, w, h, hash).len();
                    assert(s@[tj] == '}' as u8);
                    assert(tj == j8);
                },
                EntryModel::Video {
                    alg,
                    w,
                    h,
                    hash,
                    sample_start,
                    sample_count,
                    sample_window,
                    aggregation,
                } => {
                    let tj = i + ser_entry_head(alg, w, h, hash).len();
                    assert(tj == j8);
                    assert(is_at(s@, j8 as int, ser_video_tail(
                        sample_start,
                        sample_count,
                        sample_window,
                        aggregation,
                    )));
                },
            }
        }
    }
    Some((e, j16))
}

/// A rendered entry splits into its shared head and its variant's tail.
proof fn lemma_entry_split(s: Seq<u8>, i: int, em: EntryModel)
    requires
        is_at(s, i, ser_entry(em)),
    ensures
        ({
            match em {
                EntryModel::Image { alg, w, h, hash } => {
                    let tj = i + ser_entry_head(alg, w, h, hash).len();
                    &&& is_at(s, i, ser_entry_head(alg, w, h, hash))
                    &&& is_at(s, tj, seq!['}' as u8])
                    &&& tj < s.len() && s[tj] == '}' as u8
                    &&& tj + 1 == i + ser_entry(em).len()
                },
                EntryModel::Video {
                    alg,
                    w,
                    h,
                    hash,
                    sample_start,
                    sample_count,
                    sample_window,
                    aggregation,
                } => {
                    let tj = i + ser_entry_head(alg, w, h, hash).len();
                    &&& is_at(s, i, ser_entry_head(alg, w, h, hash))
                    &&& is_at(
                        s,
                        tj,
                        ser_video_tail(sample_start, sample_count, sample_window, aggregation),
                    )
                    &&& tj + ser_video_tail(
                        sample_start,
                        sample_count,
                        sample_window,
                        aggregation,
                    ).len() == i + ser_entry(em).len()
                },
            }
        }),
{
    match em {
        EntryModel::Image { alg, w, h, hash } => {
            lemma_is_at_concat(s, i, ser_entry_head(alg, w, h, hash), seq!['}' as u8]);
            let tj = i + ser_entry_head(alg, w, h, hash).len();
            lemma_is_at_index(s, tj, seq!['}' as u8], 0);
        },
        EntryModel::Video {
            alg,
            w,
            h,
            hash,
            sample_start,
            sample_count,
            sample_window,
            aggregation,
        } => {
            lemma_is_at_concat(
                s,
                i,
                ser_entry_head(alg, w, h, hash),
                ser_video_tail(sample_start, sample_count, sample_window, aggregation),
            );
        },
    }
}

/// Once the byte after the shared head is no closing brace, the entry at
/// `i` cannot be an image entry.
proof fn lemma_entry_not_image(s: Seq<u8>, i: int, j8: int)
    ensures
        true,
{
}

/// The comma-led rendering from position `k` on depends only on the
/// entries from `k` on.
proof fn lemma_entries_from_shift(ems: Seq<EntryModel>, k: int)
    requires
        0 <= k <= ems.len(),
    ensures
        ser_entries_from(ems, k) == ser_entries_from(ems.skip(k), 0),
    decreases ems.len() - k,
{
    if k < ems.len() {
        lemma_entries_from_shift(ems.skip(k), 1);
        assert(ems.skip(k).skip(1) =~= ems.skip(k + 1));
        lemma_entries_from_shift(ems, k + 1);
        assert(ems.skip(k)[0] == ems[k]);
    } else {
        assert(ems.skip(k) =~= Seq::<EntryModel>::empty());
    }
}

/// Read the rest of an entry list: comma-led entries up to the bracket.
#[verifier::rlimit(100)]
fn parse_entries_tail(s: &[u8], i: usize) -> (r: Option<(Vec<CacheEntry>, usize)>)
    ensures
        r matches Some(p) ==> i < p.1 <= s@.len(),
        r matches Some(p) ==> {
            &&& forall|j: int|
                0 <= j < entries_models(p.0@).len() ==> entry_plain(
                    #[trigger] entries_models(p.0@)[j],
                )
            &&& is_at(
                s@,
                i as int,
                ser_entries_from(entries_models(p.0@), 0) + seq![']' as u8],
            )
            &&& p.1 == i + ser_entries_from(entries_models(p.0@), 0).len() + 1
        },
        forall|ems: Seq<EntryModel>, k: int|
            0 <= k <= ems.len() && (forall|j: int| k <= j < ems.len() ==> entry_plain(#[trigger] ems[j]))
                && #[trigger] is_at(s@, i as int, ser_entries_from(ems, k) + seq![']' as u8]) ==> (
            r matches Some(p) && entries_models(p.0@) == ems.skip(k) && p.1 == i
                + ser_entries_from(ems, k).len() + 1),
    decreases s@.len() - i,
{
    let _slen: usize = s.len();
    if i >= s.len() {
        proof {
            assert forall|ems: Seq<EntryModel>, k: int|
                0 <= k <= ems.len() && (forall|j: int|
                    k <= j < ems.len() ==> entry_plain(#[trigger] ems[j])) && #[trigger] is_at(
                    s@,
                    i as int,
                    ser_entries_from(ems, k) + seq![']' as u8],
                ) implies false by {}
        }
        return None;
    }
    let b = s[i];
    if b == (']' as u8) {
        let v: Vec<CacheEntry> = Vec::new();
        proof {
            assert(entries_models(v@) =~= Seq::<EntryModel>::empty());
            assert(ser_entries_from(entries_models(v@), 0) =~= Seq::<u8>::empty());
            assert(ser_entries_from(entries_models(v@), 0) + seq![']' as u8] =~= seq![']' as u8]);
            assert(s@.subrange(i as int, i as int + 1) =~= seq![']' as u8]);
            assert(is_at(s@, i as int, seq![']' as u8]));
            assert forall|ems: Seq<EntryModel>, k: int|
                0 <= k <= ems.len() && (forall|j: int|
                    k <= j < ems.len() ==> entry_plain(#[trigger] ems[j])) && #[trigger] is_at(
                    s@,
                    i as int,
                    ser_entries_from(ems, k) + seq![']' as u8],
                ) implies (entries_models(v@) == ems.skip(k) && i + 1 == i + ser_entries_from(
                ems,
                k,
            ).len() + 1) by {
                lemma_is_at_index(s@, i as int, ser_entries_from(ems, k) + seq![']' as u8], 0);
                if k < ems.len() {
                    assert((ser_entries_from(ems, k) + seq![']' as u8])[0] == ',' as u8);
                } else {
                    assert(ser_entries_from(ems, k) =~= Seq::<u8>::empty());
                    assert(entries_models(v@) =~= ems.skip(k));
                }
            }
        }
        return Some((v, i + 1));
    }
    if b != (',' as u8) {
        proof {
            assert forall|ems: Seq<EntryModel>, k: int|
                0 <= k <= ems.len() && (forall|j: int|
                    k <= j < ems.len() ==> entry_plain(#[trigger] ems[j])) && #[trigger] is_at(
                    s@,
                    i as int,
                    ser_entries_from(ems, k) + seq![']' as u8],
                ) implies false by {
                lemma_is_at_index(s@, i as int, ser_entries_from(ems, k) + seq![']' as u8], 0);
                if k < ems.len() {
                    assert((ser_entries_from(ems, k) + seq![']' as u8])[0] == ',' as u8);
                } else {
                    assert(ser_entries_from(ems, k) =~= Seq::<u8>::empty());
                    assert((ser_entries_from(ems, k) + seq![']' as u8])[0] == ']' as u8);
                }
            }
        }
        return None;
    }
    let re = parse_entry(s, i + 1);
    if re.is_none() {
        proof {
            assert forall|ems: Seq<EntryModel>, k: int|
                0 <= k <= ems.len() && (forall|j: int|
                    k <= j < ems.len() ==> entry_plain(#[trigger] ems[j])) && #[trigger] is_at(
                    s@,
                    i as int,
                    ser_entries_from(ems, k) + seq![']' as u8],
                ) implies false by {
                lemma_is_at_index(s@, i as int, ser_entries_from(ems, k) + seq![']' as u8], 0);
                if k < ems.len() {
                    lemma_entries_from_split(s@, i as int, ems, k);
                    assert(entry_plain(ems[k]));
                } else {
                    assert(ser_entries_from(ems, k) =~= Seq::<u8>::empty());
                    assert((ser_entries_from(ems, k) + seq![']' as u8])[0] == ']' as u8);
                }
            }
        }
        return None;
    }
    let (e, j1) = re.unwrap();
    let rt = parse_entries_tail(s, j1);
    if rt.is_none() {
        proof {
            assert forall|ems: Seq<EntryModel>, k: int|
                0 <= k <= ems.len() && (forall|j: int|
                    k <= j < ems.len() ==> entry_plain(#[trigger] ems[j])) && #[trigger] is_at(
                    s@,
                    i as int,
                    ser_entries_from(ems, k) + seq![']' as u8],
                ) implies false by {
                lemma_is_at_index(s@, i as int, ser_entries_from(ems, k) + seq![']' as u8], 0);
                if k < ems.len() {
                    lemma_entries_from_split(s@, i as int, ems, k);
                    assert(entry_plain(ems[k]));
                    assert(j1 == i + 1 + ser_entry(ems[k]).len());
                    assert(forall|j: int|
                        k + 1 <= j < ems.len() ==> entry_plain(#[trigger] ems[j]));
                } else {
                    assert(ser_entries_from(ems, k) =~= Seq::<u8>::empty());
                    assert((ser_entries_from(ems, k) + seq![']' as u8])[0] == ']' as u8);
                }
            }
        }
        return None;
    }
    let (mut v, j2) = rt.unwrap();
    let ghost v0 = v@;
    v.insert(0, e);
    proof {
        assert forall|ems: Seq<EntryModel>, k: int|
            0 <= k <= ems.len() && (forall|j: int|
                k <= j < ems.len() ==> entry_plain(#[trigger] ems[j])) && #[trigger] is_at(
                s@,
                i as int,
                ser_entries_from(ems, k) + seq![']' as u8],
            ) implies (entries_models(v@) == ems.skip(k) && j2 == i + ser_entries_from(
            ems,
            k,
        ).len() + 1) by {
            lemma_is_at_index(s@, i as int, ser_entries_from(ems, k) + seq![']' as u8], 0);
            if k < ems.len() {
                lemma_entries_from_split(s@, i as int, ems, k);
                assert(entry_plain(ems[k]));
                assert(e@ == ems[k]);
                assert(j1 == i + 1 + ser_entry(ems[k]).len());
                assert(forall|j: int| k + 1 <= j < ems.len() ==> entry_plain(#[trigger] ems[j]));
                assert(is_at(s@, j1 as int, ser_entries_from(ems, k + 1) + seq![']' as u8]));
                assert(entries_models(v0) == ems.skip(k + 1));
                assert(v@ =~= v0.insert(0, e));
                assert(entries_models(v@) =~= ems.skip(k)) by {
                    assert(v@.len() == ems.skip(k).len());
                    assert forall|t: int| 0 <= t < v@.len() implies entries_models(v@)[t]
                        == ems.skip(k)[t] by {
                        if t == 0 {
                            assert(v@[0] == e);
                        } else {
                            assert(v@[t] == v0[t - 1]);
                            assert(entries_models(v0)[t - 1] == v0[t - 1]@);
                        }
                    }
                }
            } else {
                assert(ser_entries_from(ems, k) =~= Seq::<u8>::empty());
                assert((ser_entries_from(ems, k) + seq![']' as u8])[0] == ']' as u8);
            }
        }
        // soundness: the consumed bytes render exactly the entries read
        let m = entries_models(v@);
        assert(m =~= seq![e@] + entries_models(v0)) by {
            assert forall|t: int| 0 <= t < m.len() implies m[t] == (seq![e@] + entries_models(
                v0,
            ))[t] by {
                if t == 0 {
                    assert(v@[0] == e);
                } else {
                    assert(v@[t] == v0[t - 1]);
                    assert(entries_models(v0)[t - 1] == v0[t - 1]@);
                }
            }
        }
        assert forall|j: int| 0 <= j < m.len() implies entry_plain(#[trigger] m[j]) by {
            if j > 0 {
                assert(m[j] == entries_models(v0)[j - 1]);
            }
        }
        assert(m.len() >= 1);
        lemma_entries_from_shift(m, 1);
        assert(m.skip(1) =~= entries_models(v0));
        assert(ser_entries_from(m, 1) == ser_entries_from(entries_models(v0), 0));
        assert(s@.subrange(i as int, i as int + 1) =~= seq![',' as u8]);
        assert(is_at(s@, i as int, seq![',' as u8]));
        lemma_is_at_concat(s@, i as int, seq![',' as u8], ser_entry(e@));
        lemma_is_at_concat(
            s@,
            i as int,
            seq![',' as u8] + ser_entry(e@),
            ser_entries_from(entries_models(v0), 0) + seq![']' as u8],
        );
        assert(ser_entries_from(m, 0) + seq![']' as u8] =~= (seq![',' as u8] + ser_entry(e@)) + (
        ser_entries_from(entries_models(v0), 0) + seq![']' as u8]));
        assert(is_at(s@, i as int, ser_entries_from(m, 0) + seq![']' as u8]));
    }
    Some((v, j2))
}

/// The comma-led suffix of an entry list splits into its first entry and
/// the rest.
proof fn lemma_entries_from_split(s: Seq<u8>, i: int, ems: Seq<EntryModel>, k: int)
    requires
        0 <= k < ems.len(),
        is_at(s, i, ser_entries_from(ems, k) + seq![']' as u8]),
    ensures
        is_at(s, i + 1, ser_entry(ems[k])),
        is_at(
            s,
            i + 1 + ser_entry(ems[k]).len(),
            ser_entries_from(ems, k + 1) + seq![']' as u8],
        ),
        ser_entries_from(ems, k).len() == 1 + ser_entry(ems[k]).len() + ser_entries_from(
            ems,
            k + 1,
        ).len(),
{
    let a = seq![',' as u8];
    let b = ser_entry(ems[k]);
    let c = ser_entries_from(ems, k + 1) + seq![']' as u8];
    assert(ser_entries_from(ems, k) + seq![']' as u8] =~= a + (b + c));
    lemma_is_at_concat(s, i, a, b + c);
    lemma_is_at_concat(s, i + 1, b, c);
}

/// Read an entry list.
#[verifier::rlimit(100)]
fn parse_entries(s: &[u8], i: usize) -> (r: Option<(Vec<CacheEntry>, usize)>)
    ensures
        r matches Some(p) ==> i < p.1 <= s@.len(),
        r matches Some(p) ==> {
            &&& forall|j: int|
                0 <= j < entries_models(p.0@).len() ==> entry_plain(
                    #[trigger] entries_models(p.0@)[j],
                )
            &&& is_at(s@, i as int, ser_entries(entries_models(p.0@)))
            &&& p.1 == i + ser_entries(entries_models(p.0@)).len()
        },
        forall|ems: Seq<EntryModel>|
            (forall|j: int| 0 <= j < ems.len() ==> entry_plain(#[trigger] ems[j]))
                && #[trigger] is_at(s@, i as int, ser_entries(ems)) ==> (r matches Some(p)
                && entries_models(p.0@) == ems && p.1 == i + ser_entries(ems).len()),
{
    let _slen: usize = s.len();
    if i >= s.len() || s[i] != ('[' as u8) {
        proof {
            assert forall|ems: Seq<EntryModel>|
                (forall|j: int| 0 <= j < ems.len() ==> entry_plain(#[trigger] ems[j]))
                    && #[trigger] is_at(s@, i as int, ser_entries(ems)) implies false by {
                lemma_is_at_index(s@, i as int, ser_entries(ems), 0);
            }
        }
        return None;
    }
    if i + 1 < s.len() && s[i + 1] == (']' as u8) {
        let v: Vec<CacheEntry> = Vec::new();
        proof {
            assert(entries_models(v@) =~= Seq::<EntryModel>::empty());
            assert(ser_entries(entries_models(v@)) == seq!['[' as u8, ']' as u8]);
            assert(s@.subrange(i as int, i as int + 2) =~= seq!['[' as u8, ']' as u8]);
            assert(is_at(s@, i as int, seq!['[' as u8, ']' as u8]));
            assert forall|ems: Seq<EntryModel>|
                (forall|j: int| 0 <= j < ems.len() ==> entry_plain(#[trigger] ems[j]))
                    && #[trigger] is_at(s@, i as int, ser_entries(ems)) implies (entries_models(v@)
                == ems && i + 2 == i + ser_entries(ems).len()) by {
                if ems.len() > 0 {
                    lemma_entries_nonempty_split(s@, i as int, ems);
                    lemma_is_at_index(s@, i as int + 1, ser_entry(ems[0]), 0);
                    assert(ser_entry(ems[0])[0] == '{' as u8) by {
                        lemma_entry_first_byte(ems[0]);
                    }
                } else {
                    assert(entries_models(v@) =~= ems);
                }
            }
        }
        return Some((v, i + 2));
    }
    let re = parse_entry(s, i + 1);
    if re.is_none() {
        proof {
            assert forall|ems: Seq<EntryModel>|
                (forall|j: int| 0 <= j < ems.len() ==> entry_plain(#[trigger] ems[j]))
                    && #[trigger] is_at(s@, i as int, ser_entries(ems)) implies false by {
                if ems.len() > 0 {
                    lemma_entries_nonempty_split(s@, i as int, ems);
                } else {
                    lemma_is_at_index(s@, i as int, ser_entries(ems), 1);
                }
            }
        }
        return None;
    }
    let (e0, j1) = re.unwrap();
    let rt = parse_entries_tail(s, j1);
    if rt.is_none() {
        proof {
            assert forall|ems: Seq<EntryModel>|
                (forall|j: int| 0 <= j < ems.len() ==> entry_plain(#[trigger] ems[j]))
                    && #[trigger] is_at(s@, i as int, ser_entries(ems)) implies false by {
                if ems.len() > 0 {
                    lemma_entries_nonempty_split(s@, i as int, ems);
                    assert(e0@ == ems[0]);
                    assert(j1 == i + 1 + ser_entry(ems[0]).len());
                    assert(forall|j: int| 1 <= j < ems.len() ==> entry_plain(#[trigger] ems[j]));
                } else {
                    lemma_is_at_index(s@, i as int, ser_entries(ems), 1);
                }
            }
        }
        return None;
    }
    let (mut v, j2) = rt.unwrap();
    let ghost v0 = v@;
    v.insert(0, e0);
    proof {
        assert forall|ems: Seq<EntryModel>|
            (forall|j: int| 0 <= j < ems.len() ==> entry_plain(#[trigger] ems[j]))
                && #[trigger] is_at(s@, i as int, ser_entries(ems)) implies (entries_models(v@)
            == ems && j2 == i + ser_entries(ems).len()) by {
            if ems.len() > 0 {
                lemma_entries_nonempty_split(s@, i as int, ems);
                assert(e0@ == ems[0]);
                assert(j1 == i + 1 + ser_entry(ems[0]).len());
                assert(forall|j: int| 1 <= j < ems.len() ==> entry_plain(#[trigger] ems[j]));
                assert(is_at(s@, j1 as int, ser_entries_from(ems, 1) + seq![']' as u8]));
                assert(entries_models(v0) == ems.skip(1));
                assert(v@ =~= v0.insert(0, e0));
                assert(entries_models(v@) =~= ems) by {
                    assert(v@.len() == ems.len());
                    assert forall|t: int| 0 <= t < ems.len() implies entries_models(v@)[t]
                        == ems[t] by {
                        if t == 0 {
                            assert(v@[0] == e0);
                        } else {
                            assert(v@[t] == v0[t - 1]);
                            assert(entries_models(v0)[t - 1] == v0[t - 1]@);
                            assert(ems.skip(1)[t - 1] == ems[t]);
                        }
                    }
                }
            } else {
                lemma_is_at_index(s@, i as int, ser_entries(ems), 1);
            }
        }
        // soundness: the consumed bytes render exactly the list read
        let m = entries_models(v@);
        assert(m =~= seq![e0@] + entries_models(v0)) by {
            assert forall|t: int| 0 <= t < m.len() implies m[t] == (seq![e0@] + entries_models(
                v0,
            ))[t] by {
                if t == 0 {
                    assert(v@[0] == e0);
                } else {
                    assert(v@[t] == v0[t - 1]);
                    assert(entries_models(v0)[t - 1] == v0[t - 1]@);
                }
            }
        }
        assert forall|j: int| 0 <= j < m.len() implies entry_plain(#[trigger] m[j]) by {
            if j > 0 {
                assert(m[j] == entries_models(v0)[j - 1]);
            }
        }
        assert(m.len() >= 1);
        lemma_entries_from_shift(m, 1);
        assert(m.skip(1) =~= entries_models(v0));
        assert(ser_entries_from(m, 1) == ser_entries_from(entries_models(v0), 0));
        assert(s@.subrange(i as int, i as int + 1) =~= seq!['[' as u8]);
        assert(is_at(s@, i as int, seq!['[' as u8]));
        assert(m[0] == e0@);
        lemma_is_at_concat(s@, i as int, seq!['[' as u8], ser_entry(e0@));
        lemma_is_at_concat(
            s@,
            i as int,
            seq!['[' as u8] + ser_entry(e0@),
            ser_entries_from(entries_models(v0), 0) + seq![']' as u8],
        );
        assert(ser_entries(m) =~= (seq!['[' as u8] + ser_entry(e0@)) + (ser_entries_from(
            entries_models(v0),
            0,
        ) + seq![']' as u8]));
        assert(is_at(s@, i as int, ser_entries(m)));
    }
    Some((v, j2))
}

/// A rendered entry always opens with a brace.
proof fn lemma_entry_first_byte(em: EntryModel)
    ensures
        ser_entry(em).len() > 0,
        ser_entry(em)[0] == '{' as u8,
{
    match em {
        EntryModel::Image { alg, w, h, hash } => {
            assert(ser_entry(em)[0] == ser_entry_head(alg, w, h, hash)[0]);
            assert(ser_entry_head(alg, w, h, hash)[0] == lit_alg_key()[0]);
        },
        EntryModel::Video { alg, w, h, hash, .. } => {
            assert(ser_entry(em)[0] == ser_entry_head(alg, w, h, hash)[0]);
            assert(ser_entry_head(alg, w, h, hash)[0] == lit_alg_key()[0]);
        },
    }
}

/// A non-empty rendered entry list splits after its opening bracket and
/// first entry.
proof fn lemma_entries_nonempty_split(s: Seq<u8>, i: int, ems: Seq<EntryModel>)
    requires
        ems.len() > 0,
        is_at(s, i, ser_entries(ems)),
    ensures
        is_at(s, i + 1, ser_entry(ems[0])),
        is_at(
            s,
            i + 1 + ser_entry(ems[0]).len(),
            ser_entries_from(ems, 1) + seq![']' as u8],
        ),
        ser_entries(ems).len() == 2 + ser_entry(ems[0]).len() + ser_entries_from(ems, 1).len(),
{
    let a = seq!['[' as u8];
    let b = ser_entry(ems[0]);
    let c = ser_entries_from(ems, 1) + seq![']' as u8];
    assert(ser_entries(ems) =~= a + (b + c));
    lemma_is_at_concat(s, i, a, b + c);
    lemma_is_at_concat(s, i + 1, b, c);
}

/// A rendered pair splits into its key, the colon, and its entry list.
proof fn lemma_pair_split(s: Seq<u8>, i: int, key: Seq<char>, es: Seq<EntryModel>)
    requires
        is_at(s, i, ser_pair((key, es))),
    ensures
        is_at(s, i, ser_str(key)),
        is_at(s, i + ser_str(key).len(), seq![':' as u8]),
        is_at(s, i + ser_str(key).len() + 1, ser_entries(es)),
        ser_pair((key, es)).len() == ser_str(key).len() + 1 + ser_entries(es).len(),
        s[i + ser_str(key).len()] == ':' as u8,
{
    let a = ser_str(key);
    let b = seq![':' as u8];
    let c = ser_entries(es);
    assert(ser_pair((key, es)) =~= a + (b + c));
    lemma_is_at_concat(s, i, a, b + c);
    lemma_is_at_concat(s, i + a.len(), b, c);
    lemma_is_at_index(s, i + a.len(), b, 0);
}

/// Read one digest with its entry list.
#[verifier::rlimit(100)]
fn parse_pair(s: &[u8], i: usize) -> (r: Option<((String, Vec<CacheEntry>), usize)>)
    ensures
        r matches Some(p) ==> i < p.1 <= s@.len(),
        r matches Some(p) ==> {
            &&& plain_str(p.0.0@)
            &&& forall|j: int|
                0 <= j < entries_models(p.0.1@).len() ==> entry_plain(
                    #[trigger] entries_models(p.0.1@)[j],
                )
            &&& is_at(s@, i as int, ser_pair((p.0.0@, entries_models(p.0.1@))))
            &&& p.1 == i + ser_pair((p.0.0@, entries_models(p.0.1@))).len()
        },
        forall|key: Seq<char>, es: Seq<EntryModel>|
            plain_str(key) && (forall|j: int| 0 <= j < es.len() ==> entry_plain(#[trigger] es[j]))
                && #[trigger] is_at(s@, i as int, ser_pair((key, es))) ==> (r matches Some(p)
                && p.0.0@ == key && entries_models(p.0.1@) == es && p.1 == i + ser_pair(
                (key, es),
            ).len()),
{
    let _slen: usize = s.len();
    let rk = parse_string(s, i);
    if rk.is_none() {
        proof {
            assert forall|key: Seq<char>, es: Seq<EntryModel>|
                plain_str(key) && (forall|j: int|
                    0 <= j < es.len() ==> entry_plain(#[trigger] es[j])) && #[trigger] is_at(
                    s@,
                    i as int,
                    ser_pair((key, es)),
                ) implies false by {
                lemma_pair_split(s@, i as int, key, es);
            }
        }
        return None;
    }
    let (key_v, j1) = rk.unwrap();
    if j1 >= s.len() || s[j1] != (':' as u8) {
        proof {
            assert forall|key: Seq<char>, es: Seq<EntryModel>|
                plain_str(key) && (forall|j: int|
                    0 <= j < es.len() ==> entry_plain(#[trigger] es[j])) && #[trigger] is_at(
                    s@,
                    i as int,
                    ser_pair((key, es)),
                ) implies false by {
                lemma_pair_split(s@, i as int, key, es);
            }
        }
        return None;
    }
    let re = parse_entries(s, j1 + 1);
    if re.is_none() {
        proof {
            assert forall|key: Seq<char>, es: Seq<EntryModel>|
                plain_str(key) && (forall|j: int|
                    0 <= j < es.len() ==> entry_plain(#[trigger] es[j])) && #[trigger] is_at(
                    s@,
                    i as int,
                    ser_pair((key, es)),
                ) implies false by {
                lemma_pair_split(s@, i as int, key, es);
                assert(j1 == i + ser_str(key).len());
                assert(is_at(s@, j1 as int + 1, ser_entries(es)));
            }
        }
        return None;
    }
    let (es_v, j2) = re.unwrap();
    proof {
        // soundness: key, colon and entry list render exactly the pair read
        assert(s@.subrange(j1 as int, j1 as int + 1) =~= seq![':' as u8]);
        assert(is_at(s@, j1 as int, seq![':' as u8]));
        lemma_is_at_concat(s@, i as int, ser_str(key_v@), seq![':' as u8]);
        lemma_is_at_concat(
            s@,
            i as int,
            ser_str(key_v@) + seq![':' as u8],
            ser_entries(entries_models(es_v@)),
        );
        assert(ser_pair((key_v@, entries_models(es_v@))) =~= (ser_str(key_v@) + seq![':' as u8])
            + ser_entries(entries_models(es_v@)));
        assert(is_at(s@, i as int, ser_pair((key_v@, entries_models(es_v@)))));
        assert forall|key: Seq<char>, es: Seq<EntryModel>|
            plain_str(key) && (forall|j: int| 0 <= j < es.len() ==> entry_plain(#[trigger] es[j]))
                && #[trigger] is_at(s@, i as int, ser_pair((key, es))) implies (key_v@ == key
            && entries_models(es_v@) == es && j2 == i + ser_pair((key, es)).len()) by {
            lemma_pair_split(s@, i as int, key, es);
            assert(j1 == i + ser_str(key).len());
            assert(is_at(s@, j1 as int + 1, ser_entries(es)));
        }
    }
    Some(((key_v, es_v), j2))
}

/// The comma-led suffix of the digest map splits into its first pair and
/// the rest.
proof fn lemma_pairs_from_split(s: Seq<u8>, i: int, mm: Seq<(Seq<char>, Seq<EntryModel>)>, k: int)
    requires
        0 <= k < mm.len(),
        is_at(s, i, ser_pairs_from(mm, k) + seq!['}' as u8]),
    ensures
        is_at(s, i + 1, ser_pair(mm[k])),
        is_at(s, i + 1 + ser_pair(mm[k]).len(), ser_pairs_from(mm, k + 1) + seq!['}' as u8]),
        ser_pairs_from(mm, k).len() == 1 + ser_pair(mm[k]).len() + ser_pairs_from(mm, k + 1).len(),
{
    let a = seq![',' as u8];
    let b = ser_pair(mm[k]);
    let c = ser_pairs_from(mm, k + 1) + seq!['}' as u8];
    assert(ser_pairs_from(mm, k) + seq!['}' as u8] =~= a + (b + c));
    lemma_is_at_concat(s, i, a, b + c);
    lemma_is_at_concat(s, i + 1, b, c);
}

/// The comma-led rendering from position `k` on depends only on the pairs
/// from `k` on.
proof fn lemma_pairs_from_shift(mm: Seq<(Seq<char>, Seq<EntryModel>)>, k: int)
    requires
        0 <= k <= mm.len(),
    ensures
        ser_pairs_from(mm, k) == ser_pairs_from(mm.skip(k), 0),
    decreases mm.len() - k,
{
    if k < mm.len() {
        lemma_pairs_from_shift(mm.skip(k), 1);
        assert(mm.skip(k).skip(1) =~= mm.skip(k + 1));
        lemma_pairs_from_shift(mm, k + 1);
        assert(mm.skip(k)[0] == mm[k]);
    } else {
        assert(mm.skip(k) =~= Seq::<(Seq<char>, Seq<EntryModel>)>::empty());
    }
}

/// Read the rest of the digest map: comma-led pairs up to the brace.
#[verifier::rlimit(100)]
fn parse_pairs_tail(s: &[u8], i: usize) -> (r: Option<(Vec<(String, Vec<CacheEntry>)>, usize)>)
    ensures
        r matches Some(p) ==> i < p.1 <= s@.len(),
        r matches Some(p) ==> {
            &&& pairs_plain(store_models(p.0@))
            &&& is_at(s@, i as int, ser_pairs_from(store_models(p.0@), 0) + seq!['}' as u8])
            &&& p.1 == i + ser_pairs_from(store_models(p.0@), 0).len() + 1
        },
        forall|mm: Seq<(Seq<char>, Seq<EntryModel>)>, k: int|
            0 <= k <= mm.len() && pairs_plain(mm) && #[trigger] is_at(
                s@,
                i as int,
                ser_pairs_from(mm, k) + seq!['}' as u8],
            ) ==> (r matches Some(p) && store_models(p.0@) == mm.skip(k) && p.1 == i
                + ser_pairs_from(mm, k).len() + 1),
    decreases s@.len() - i,
{
    let _slen: usize = s.len();
    if i >= s.len() {
        proof {
            assert forall|mm: Seq<(Seq<char>, Seq<EntryModel>)>, k: int|
                0 <= k <= mm.len() && pairs_plain(mm) && #[trigger] is_at(
                    s@,
                    i as int,
                    ser_pairs_from(mm, k) + seq!['}' as u8],
                ) implies false by {}
        }
        return None;
    }
    let b = s[i];
    if b == ('}' as u8) {
        let v: Vec<(String, Vec<CacheEntry>)> = Vec::new();
        proof {
            assert(store_models(v@) =~= Seq::<(Seq<char>, Seq<EntryModel>)>::empty());
            assert(ser_pairs_from(store_models(v@), 0) =~= Seq::<u8>::empty());
            assert(ser_pairs_from(store_models(v@), 0) + seq!['}' as u8] =~= seq!['}' as u8]);
            assert(s@.subrange(i as int, i as int + 1) =~= seq!['}' as u8]);
            assert(is_at(s@, i as int, seq!['}' as u8]));
            assert forall|mm: Seq<(Seq<char>, Seq<EntryModel>)>, k: int|
                0 <= k <= mm.len() && pairs_plain(mm) && #[trigger] is_at(
                    s@,
                    i as int,
                    ser_pairs_from(mm, k) + seq!['}' as u8],
                ) implies (store_models(v@) == mm.skip(k) && i + 1 == i + ser_pairs_from(
                mm,
                k,
            ).len() + 1) by {
                lemma_is_at_index(s@, i as int, ser_pairs_from(mm, k) + seq!['}' as u8], 0);
                if k < mm.len() {
                    assert((ser_pairs_from(mm, k) + seq!['}' as u8])[0] == ',' as u8);
                } else {
                    assert(ser_pairs_from(mm, k) =~= Seq::<u8>::empty());
                    assert(store_models(v@) =~= mm.skip(k));
                }
            }
        }
        return Some((v, i + 1));
    }
    if b != (',' as u8) {
        proof {
            assert forall|mm: Seq<(Seq<char>, Seq<EntryModel>)>, k: int|
                0 <= k <= mm.len() && pairs_plain(mm) && #[trigger] is_at(
                    s@,
                    i as int,
                    ser_pairs_from(mm, k) + seq!['}' as u8],
                ) implies false by {
                lemma_is_at_index(s@, i as int, ser_pairs_from(mm, k) + seq!['}' as u8], 0);
                if k < mm.len() {
                    assert((ser_pairs_from(mm, k) + seq!['}' as u8])[0] == ',' as u8);
                } else {
                    assert(ser_pairs_from(mm, k) =~= Seq::<u8>::empty());
                    assert((ser_pairs_from(mm, k) + seq!['}' as u8])[0] == '}' as u8);
                }
            }
        }
        return None;
    }
    let rp = parse_pair(s, i + 1);
    if rp.is_none() {
        proof {
            assert forall|mm: Seq<(Seq<char>, Seq<EntryModel>)>, k: int|
                0 <= k <= mm.len() && pairs_plain(mm) && #[trigger] is_at(
                    s@,
                    i as int,
                    ser_pairs_from(mm, k) + seq!['}' as u8],
                ) implies false by {
                lemma_is_at_index(s@, i as int, ser_pairs_from(mm, k) + seq!['}' as u8], 0);
                if k < mm.len() {
                    lemma_pairs_from_split(s@, i as int, mm, k);
                    assert(mm[k] == (mm[k].0, mm[k].1));
                    assert(plain_str(mm[k].0));
                    assert(forall|j: int|
                        0 <= j < mm[k].1.len() ==> entry_plain(#[trigger] mm[k].1[j]));
                } else {
                    assert(ser_pairs_from(mm, k) =~= Seq::<u8>::empty());
                    assert((ser_pairs_from(mm, k) + seq!['}' as u8])[0] == '}' as u8);
                }
            }
        }
        return None;
    }
    let (pair_v, j1) = rp.unwrap();
    let rt = parse_pairs_tail(s, j1);
    if rt.is_none() {
        proof {
            assert forall|mm: Seq<(Seq<char>, Seq<EntryModel>)>, k: int|
                0 <= k <= mm.len() && pairs_plain(mm) && #[trigger] is_at(
                    s@,
                    i as int,
                    ser_pairs_from(mm, k) + seq!['}' as u8],
                ) implies false by {
                lemma_is_at_index(s@, i as int, ser_pairs_from(mm, k) + seq!['}' as u8], 0);
                if k < mm.len() {
                    lemma_pairs_from_split(s@, i as int, mm, k);
                    assert(mm[k] == (mm[k].0, mm[k].1));
                    assert(plain_str(mm[k].0));
                    assert(forall|j: int|
                        0 <= j < mm[k].1.len() ==> entry_plain(#[trigger] mm[k].1[j]));
                    assert(j1 == i + 1 + ser_pair(mm[k]).len());
                    assert(is_at(s@, j1 as int, ser_pairs_from(mm, k + 1) + seq!['}' as u8]));
                } else {
                    assert(ser_pairs_from(mm, k) =~= Seq::<u8>::empty());
                    assert((ser_pairs_from(mm, k) + seq!['}' as u8])[0] == '}' as u8);
                }
            }
        }
        return None;
    }
    let (mut v, j2) = rt.unwrap();
    let ghost v0 = v@;
    v.insert(0, pair_v);
    proof {
        assert forall|mm: Seq<(Seq<char>, Seq<EntryModel>)>, k: int|
            0 <= k <= mm.len() && pairs_plain(mm) && #[trigger] is_at(
                s@,
                i as int,
                ser_pairs_from(mm, k) + seq!['}' as u8],
            ) implies (store_models(v@) == mm.skip(k) && j2 == i + ser_pairs_from(mm, k).len()
            + 1) by {
            lemma_is_at_index(s@, i as int, ser_pairs_from(mm, k) + seq!['}' as u8], 0);
            if k < mm.len() {
                lemma_pairs_from_split(s@, i as int, mm, k);
                assert(mm[k] == (mm[k].0, mm[k].1));
                assert(plain_str(mm[k].0));
                assert(forall|j: int|
                    0 <= j < mm[k].1.len() ==> entry_plain(#[trigger] mm[k].1[j]));
                assert(pair_v.0@ == mm[k].0 && entries_models(pair_v.1@) == mm[k].1);
                assert(j1 == i + 1 + ser_pair(mm[k]).len());
                assert(is_at(s@, j1 as int, ser_pairs_from(mm, k + 1) + seq!['}' as u8]));
                assert(store_models(v0) == mm.skip(k + 1));
                assert(v@ =~= v0.insert(0, pair_v));
                assert(store_models(v@) =~= mm.skip(k)) by {
                    assert(store_models(v0).len() == v0.len());
                    assert(mm.skip(k + 1).len() == mm.len() - k - 1);
                    assert(v@.len() == mm.skip(k).len());
                    assert forall|t: int| 0 <= t < v@.len() implies store_models(v@)[t] == mm.skip(
                        k,
                    )[t] by {
                        if t == 0 {
                            assert(v@[0] == pair_v);
                        } else {
                            assert(v@[t] == v0[t - 1]);
                            assert(store_models(v0)[t - 1] == (v0[t - 1].0@, entries_models(
                                v0[t - 1].1@,
                            )));
                        }
                    }
                }
            } else {
                assert(ser_pairs_from(mm, k) =~= Seq::<u8>::empty());
                assert((ser_pairs_from(mm, k) + seq!['}' as u8])[0] == '}' as u8);
            }
        }
        // soundness: the consumed bytes render exactly the pairs read
        let pm = (pair_v.0@, entries_models(pair_v.1@));
        let m = store_models(v@);
        assert(m =~= seq![pm] + store_models(v0)) by {
            assert forall|t: int| 0 <= t < m.len() implies m[t] == (seq![pm] + store_models(
                v0,
            ))[t] by {
                if t == 0 {
                    assert(v@[0] == pair_v);
                } else {
                    assert(v@[t] == v0[t - 1]);
                    assert(store_models(v0)[t - 1] == (v0[t - 1].0@, entries_models(
                        v0[t - 1].1@,
                    )));
                }
            }
        }
        assert(pairs_plain(m)) by {
            assert forall|t: int| 0 <= t < m.len() implies (plain_str((#[trigger] m[t]).0)
                && forall|j: int| 0 <= j < m[t].1.len() ==> entry_plain(#[trigger] m[t].1[j])) by {
                if t == 0 {
                    assert(m[0] == pm);
                } else {
                    assert(m[t] == store_models(v0)[t - 1]);
                }
            }
        }
        assert(m.len() >= 1);
        lemma_pairs_from_shift(m, 1);
        assert(m.skip(1) =~= store_models(v0));
        assert(ser_pairs_from(m, 1) == ser_pairs_from(store_models(v0), 0));
        assert(s@.subrange(i as int, i as int + 1) =~= seq![',' as u8]);
        assert(is_at(s@, i as int, seq![',' as u8]));
        assert(m[0] == pm);
        lemma_is_at_concat(s@, i as int, seq![',' as u8], ser_pair(pm));
        lemma_is_at_concat(
            s@,
            i as int,
            seq![',' as u8] + ser_pair(pm),
            ser_pairs_from(store_models(v0), 0) + seq!['}' as u8],
        );
        assert(ser_pairs_from(m, 0) + seq!['}' as u8] =~= (seq![',' as u8] + ser_pair(pm)) + (
        ser_pairs_from(store_models(v0), 0) + seq!['}' as u8]));
        assert(is_at(s@, i as int, ser_pairs_from(m, 0) + seq!['}' as u8]));
    }
    Some((v, j2))
}

/// A non-empty rendered digest map splits after its opening brace and
/// first pair.
proof fn lemma_map_nonempty_split(s: Seq<u8>, i: int, mm: Seq<(Seq<char>, Seq<EntryModel>)>)
    requires
        mm.len() > 0,
        is_at(s, i, ser_map(mm)),
    ensures
        is_at(s, i + 1, ser_pair(mm[0])),
        is_at(s, i + 1 + ser_pair(mm[0]).len(), ser_pairs_from(mm, 1) + seq!['}' as u8]),
        ser_map(mm).len() == 2 + ser_pair(mm[0]).len() + ser_pairs_from(mm, 1).len(),
{
    let a = seq!['{' as u8];
    let b = ser_pair(mm[0]);
    let c = ser_pairs_from(mm, 1) + seq!['}' as u8];
    assert(ser_map(mm) =~= a + (b + c));
    lemma_is_at_concat(s, i, a, b + c);
    lemma_is_at_concat(s, i + 1, b, c);
}

/// Read the digest map.
#[verifier::rlimit(100)]
fn parse_map(s: &[u8], i: usize) -> (r: Option<(Vec<(String, Vec<CacheEntry>)>, usize)>)
    ensures
        r matches Some(p) ==> i < p.1 <= s@.len(),
        r matches Some(p) ==> {
            &&& pairs_plain(store_models(p.0@))
            &&& is_at(s@, i as int, ser_map(store_models(p.0@)))
            &&& p.1 == i + ser_map(store_models(p.0@)).len()
        },
        forall|mm: Seq<(Seq<char>, Seq<EntryModel>)>|
            pairs_plain(mm) && #[trigger] is_at(s@, i as int, ser_map(mm)) ==> (r matches Some(p)
                && store_models(p.0@) == mm && p.1 == i + ser_map(mm).len()),
{
    let _slen: usize = s.len();
    if i >= s.len() || s[i] != ('{' as u8) {
        proof {
            assert forall|mm: Seq<(Seq<char>, Seq<EntryModel>)>|
                pairs_plain(mm) && #[trigger] is_at(s@, i as int, ser_map(mm)) implies false by {
                lemma_is_at_index(s@, i as int, ser_map(mm), 0);
            }
        }
        return None;
    }
    if i + 1 < s.len() && s[i + 1] == ('}' as u8) {
        let v: Vec<(String, Vec<CacheEntry>)> = Vec::new();
        proof {
            assert(store_models(v@) =~= Seq::<(Seq<char>, Seq<EntryModel>)>::empty());
            assert(ser_map(store_models(v@)) == seq!['{' as u8, '}' as u8]);
            assert(s@.subrange(i as int, i as int + 2) =~= seq!['{' as u8, '}' as u8]);
            assert(is_at(s@, i as int, seq!['{' as u8, '}' as u8]));
            assert forall|mm: Seq<(Seq<char>, Seq<EntryModel>)>|
                pairs_plain(mm) && #[trigger] is_at(s@, i as int, ser_map(mm)) implies (
            store_models(v@) == mm && i + 2 == i + ser_map(mm).len()) by {
                if mm.len() > 0 {
                    lemma_map_nonempty_split(s@, i as int, mm);
                    lemma_is_at_index(s@, i as int + 1, ser_pair(mm[0]), 0);
                    assert(ser_pair(mm[0])[0] == ser_str(mm[0].0)[0]);
                    assert(ser_str(mm[0].0)[0] == 34u8);
                } else {
                    assert(store_models(v@) =~= mm);
                }
            }
        }
        return Some((v, i + 2));
    }
    let rp = parse_pair(s, i + 1);
    if rp.is_none() {
        proof {
            assert forall|mm: Seq<(Seq<char>, Seq<EntryModel>)>|
                pairs_plain(mm) && #[trigger] is_at(s@, i as int, ser_map(mm)) implies false by {
                if mm.len() > 0 {
                    lemma_map_nonempty_split(s@, i as int, mm);
                    assert(mm[0] == (mm[0].0, mm[0].1));
                    assert(plain_str(mm[0].0));
                    assert(forall|j: int|
                        0 <= j < mm[0].1.len() ==> entry_plain(#[trigger] mm[0].1[j]));
                } else {
                    lemma_is_at_index(s@, i as int, ser_map(mm), 1);
                }
            }
        }
        return None;
    }
    let (pair0, j1) = rp.unwrap();
    let rt = parse_pairs_tail(s, j1);
    if rt.is_none() {
        proof {
            assert forall|mm: Seq<(Seq<char>, Seq<EntryModel>)>|
                pairs_plain(mm) && #[trigger] is_at(s@, i as int, ser_map(mm)) implies false by {
                if mm.len() > 0 {
                    lemma_map_nonempty_split(s@, i as int, mm);
                    assert(mm[0] == (mm[0].0, mm[0].1));
                    assert(plain_str(mm[0].0));
                    assert(forall|j: int|
                        0 <= j < mm[0].1.len() ==> entry_plain(#[trigger] mm[0].1[j]));
                    assert(j1 == i + 1 + ser_pair(mm[0]).len());
                    assert(is_at(s@, j1 as int, ser_pairs_from(mm, 1) + seq!['}' as u8]));
                } else {
                    lemma_is_at_index(s@, i as int, ser_map(mm), 1);
                }
            }
        }
        return None;
    }
    let (mut v, j2) = rt.unwrap();
    let ghost v0 = v@;
    v.insert(0, pair0);
    proof {
        assert forall|mm: Seq<(Seq<char>, Seq<EntryModel>)>|
            pairs_plain(mm) && #[trigger] is_at(s@, i as int, ser_map(mm)) implies (store_models(
            v@,
        ) == mm && j2 == i + ser_map(mm).len()) by {
            if mm.len() > 0 {
                lemma_map_nonempty_split(s@, i as int, mm);
                assert(mm[0] == (mm[0].0, mm[0].1));
                assert(plain_str(mm[0].0));
                assert(forall|j: int|
                    0 <= j < mm[0].1.len() ==> entry_plain(#[trigger] mm[0].1[j]));
                assert(pair0.0@ == mm[0].0 && entries_models(pair0.1@) == mm[0].1);
                assert(j1 == i + 1 + ser_pair(mm[0]).len());
                assert(is_at(s@, j1 as int, ser_pairs_from(mm, 1) + seq!['}' as u8]));
                assert(store_models(v0) == mm.skip(1));
                assert(v@ =~= v0.insert(0, pair0));
                assert(store_models(v@) =~= mm) by {
                    assert(v@.len() == mm.len());
                    assert forall|t: int| 0 <= t < v@.len() implies store_models(v@)[t]
                        == mm[t] by {
                        if t == 0 {
                            assert(v@[0] == pair0);
                        } else {
                            assert(v@[t] == v0[t - 1]);
                            assert(store_models(v0)[t - 1] == (v0[t - 1].0@, entries_models(
                                v0[t - 1].1@,
                            )));
                            assert(mm.skip(1)[t - 1] == mm[t]);
                        }
                    }
                }
            } else {
                lemma_is_at_index(s@, i as int, ser_map(mm), 1);
            }
        }
        // soundness: the consumed bytes render exactly the map read
        let pm = (pair0.0@, entries_models(pair0.1@));
        let m = store_models(v@);
        assert(m =~= seq![pm] + store_models(v0)) by {
            assert forall|t: int| 0 <= t < m.len() implies m[t] == (seq![pm] + store_models(
                v0,
            ))[t] by {
                if t == 0 {
                    assert(v@[0] == pair0);
                } else {
                    assert(v@[t] == v0[t - 1]);
                    assert(store_models(v0)[t - 1] == (v0[t - 1].0@, entries_models(
                        v0[t - 1].1@,
                    )));
                }
            }
        }
        assert(pairs_plain(m)) by {
            assert forall|t: int| 0 <= t < m.len() implies (plain_str((#[trigger] m[t]).0)
                && forall|j: int| 0 <= j < m[t].1.len() ==> entry_plain(#[trigger] m[t].1[j])) by {
                if t == 0 {
                    assert(m[0] == pm);
                } else {
                    assert(m[t] == store_models(v0)[t - 1]);
                }
            }
        }
        assert(m.len() >= 1);
        lemma_pairs_from_shift(m, 1);
        assert(m.skip(1) =~= store_models(v0));
        assert(ser_pairs_from(m, 1) == ser_pairs_from(store_models(v0), 0));
        assert(s@.subrange(i as int, i as int + 1) =~= seq!['{' as u8]);
        assert(is_at(s@, i as int, seq!['{' as u8]));
        assert(m[0] == pm);
        lemma_is_at_concat(s@, i as int, seq!['{' as u8], ser_pair(pm));
        lemma_is_at_concat(
            s@,
            i as int,
            seq!['{' as u8] + ser_pair(pm),
            ser_pairs_from(store_models(v0), 0) + seq!['}' as u8],
        );
        assert(ser_map(m) =~= (seq!['{' as u8] + ser_pair(pm)) + (ser_pairs_from(
            store_models(v0),
            0,
        ) + seq!['}' as u8]));
        assert(is_at(s@, i as int, ser_map(m)));
    }
    Some((v, j2))
}

/// Two entry models with the same config signature: every field but the
/// stored hash equal, and the same variant.
pub open spec fn model_sig_eq(a: EntryModel, b: EntryModel) -> bool {
    match (a, b) {
        (
            EntryModel::Image { alg: a1, w: w1, h: h1, .. },
            EntryModel::Image { alg: a2, w: w2, h: h2, .. },
        ) => a1 == a2 && w1 == w2 && h1 == h2,
        (
            EntryModel::Video {
                alg: a1,
                w: w1,
                h: h1,
                sample_start: ss1,
                sample_count: sc1,
                sample_window: sw1,
                aggregation: g1,
                ..
            },
            EntryModel::Video {
                alg: a2,
                w: w2,
                h: h2,
                sample_start: ss2,
                sample_count: sc2,
                sample_window: sw2,
                aggregation: g2,
                ..
            },
        ) => a1 == a2 && w1 == w2 && h1 == h2 && ss1 == ss2 && sc1 == sc2 && sw1 == sw2 && g1
            == g2,
        _ => false,
    }
}

/// The cache invariants at the model level: digest keys unique, and under
/// each digest at most one entry per config signature.
pub open spec fn model_wf(mm: Seq<(Seq<char>, Seq<EntryModel>)>) -> bool {
    &&& forall|i: int, j: int|
        0 <= i < j < mm.len() ==> (#[trigger] mm[i]).0 != (#[trigger] mm[j]).0
    &&& forall|k: int, a: int, b: int|
        0 <= k < mm.len() && 0 <= a < b < mm[k].1.len() ==> !model_sig_eq(
            #[trigger] mm[k].1[a],
            #[trigger] mm[k].1[b],
        )
}

/// Config-signature equality of two entries is signature equality of their
/// models.
proof fn lemma_same_config_model(e1: CacheEntry, e2: CacheEntry)
    ensures
        e1.same_config(e2) == model_sig_eq(e1@, e2@),
{
}

/// The store invariants hold of the vectors exactly when they hold of the
/// models.
proof fn lemma_store_wf_model(v: Seq<(String, Vec<CacheEntry>)>)
    ensures
        store_wf(v) == model_wf(store_models(v)),
{
    let mm = store_models(v);
    if store_wf(v) {
        assert forall|i: int, j: int| 0 <= i < j < mm.len() implies (#[trigger] mm[i]).0 != (
        #[trigger] mm[j]).0 by {
            assert(mm[i].0 == v[i].0@ && mm[j].0 == v[j].0@);
        }
        assert forall|k: int, a: int, b: int|
            0 <= k < mm.len() && 0 <= a < b < mm[k].1.len() implies !model_sig_eq(
            #[trigger] mm[k].1[a],
            #[trigger] mm[k].1[b],
        ) by {
            assert(mm[k].1[a] == v[k].1@[a]@ && mm[k].1[b] == v[k].1@[b]@);
            assert(entry_list_wf(v[k].1@));
            assert(!v[k].1@[a].same_config(v[k].1@[b]));
            lemma_same_config_model(v[k].1@[a], v[k].1@[b]);
        }
        assert(model_wf(mm));
    }
    if model_wf(mm) {
        assert forall|i: int, j: int| 0 <= i < j < v.len() implies (#[trigger] v[i]).0@ != (
        #[trigger] v[j]).0@ by {
            assert(mm[i].0 == v[i].0@ && mm[j].0 == v[j].0@);
        }
        assert forall|k: int| 0 <= k < v.len() implies entry_list_wf((#[trigger] v[k]).1@) by {
            assert forall|a: int, b: int|
                0 <= a < b < v[k].1@.len() implies !(#[trigger] v[k].1@[a]).same_config(
                #[trigger] v[k].1@[b],
            ) by {
                assert(mm[k].1[a] == v[k].1@[a]@ && mm[k].1[b] == v[k].1@[b]@);
                assert(!model_sig_eq(mm[k].1[a], mm[k].1[b]));
                lemma_same_config_model(v[k].1@[a], v[k].1@[b]);
            }
        }
        assert(store_wf(v));
    }
}

/// A rendered cache document splits into its five parts.
#[verifier::rlimit(50)]
proof fn lemma_cache_frags(s: Seq<u8>, m: CacheModel)
    requires
        s == ser_cache(m),
    ensures
        ({
            let o1 = lit_version_key().len() as int;
            let o2 = o1 + ser_nat(m.version as nat).len();
            let o3 = o2 + lit_by_digest_key().len();
            let o4 = o3 + ser_map(m.by_digest).len();
            &&& is_at(s, 0, lit_version_key())
            &&& is_at(s, o1, ser_nat(m.version as nat))
            &&& is_at(s, o2, lit_by_digest_key())
            &&& is_at(s, o3, ser_map(m.by_digest))
            &&& o4 < s.len() && s[o4] == '}' as u8
            &&& o4 + 1 == s.len()
            &&& not_digit_at(s, o2)
            &&& m.version as nat <= u64::MAX
        }),
{
    let p1 = lit_version_key();
    let p2 = ser_nat(m.version as nat);
    let p3 = lit_by_digest_key();
    let p4 = ser_map(m.by_digest);
    let p5 = seq!['}' as u8];
    assert(ser_cache(m) == p1 + p2 + p3 + p4 + p5);
    assert(is_at(s, 0, ser_cache(m))) by {
        assert(s.subrange(0, s.len() as int) =~= s);
    }
    lemma_is_at_concat(s, 0, p1 + p2 + p3 + p4, p5);
    lemma_is_at_concat(s, 0, p1 + p2 + p3, p4);
    lemma_is_at_concat(s, 0, p1 + p2, p3);
    lemma_is_at_concat(s, 0, p1, p2);
    let o2 = p1.len() + p2.len();
    lemma_is_at_index(s, o2 as int, p3, 0);
    let o4 = o2 + p3.len() + p4.len();
    lemma_is_at_index(s, o4 as int, p5, 0);
}

/// Read the document around the digest map, leaving the version check to
/// the caller. On failure the payload is the byte offset at which reading
/// stopped.
#[verifier::rlimit(100)]
fn parse_cache_doc(s: &[u8]) -> (r: Result<(u32, Vec<(String, Vec<CacheEntry>)>), usize>)
    ensures
        r matches Ok(p) ==> {
            &&& pairs_plain(store_models(p.1@))
            &&& s@ == ser_cache(
                CacheModel { version: p.0, by_digest: store_models(p.1@) },
            )
        },
        forall|m: CacheModel|
            model_plain(m) && s@ == #[trigger] ser_cache(m) ==> (r matches Ok(p) && p.0
                == m.version && store_models(p.1@) == m.by_digest),
{
    let _slen: usize = s.len();
    let l1 = vec_lit_version_key();
    let r1 = expect(s, 0, &l1);
    if r1.is_none() {
        proof {
            assert forall|m: CacheModel|
                model_plain(m) && s@ == #[trigger] ser_cache(m) implies false by {
                lemma_cache_frags(s@, m);
            }
        }
        return Err(0);
    }
    let j1 = r1.unwrap();
    let rv = parse_nat(s, j1);
    if rv.is_none() {
        proof {
            assert forall|m: CacheModel|
                model_plain(m) && s@ == #[trigger] ser_cache(m) implies false by {
                lemma_cache_frags(s@, m);
                assert(is_at(s@, j1 as int, ser_nat(m.version as nat)));
                assert(not_digit_at(s@, j1 + ser_nat(m.version as nat).len()));
            }
        }
        return Err(j1);
    }
    let (ver64, j2) = rv.unwrap();
    if ver64 > 0xFFFF_FFFFu64 {
        proof {
            assert forall|m: CacheModel|
                model_plain(m) && s@ == #[trigger] ser_cache(m) implies false by {
                lemma_cache_frags(s@, m);
                assert(is_at(s@, j1 as int, ser_nat(m.version as nat)));
                assert(not_digit_at(s@, j1 + ser_nat(m.version as nat).len()));
                assert(ver64 == m.version as u64);
            }
        }
        return Err(j1);
    }
    let verc = ver64 as u32;
    let l2 = vec_lit_by_digest_key();
    let r2 = expect(s, j2, &l2);
    if r2.is_none() {
        proof {
            assert forall|m: CacheModel|
                model_plain(m) && s@ == #[trigger] ser_cache(m) implies false by {
                lemma_cache_frags(s@, m);
                assert(is_at(s@, j1 as int, ser_nat(m.version as nat)));
                assert(not_digit_at(s@, j1 + ser_nat(m.version as nat).len()));
                assert(j2 == j1 + ser_nat(m.version as nat).len());
                assert(is_at(s@, j2 as int, lit_by_digest_key()));
            }
        }
        return Err(j2);
    }
    let j3 = r2.unwrap();
    let rm = parse_map(s, j3);
    if rm.is_none() {
        proof {
            assert forall|m: CacheModel|
                model_plain(m) && s@ == #[trigger] ser_cache(m) implies false by {
                lemma_cache_frags(s@, m);
                assert(is_at(s@, j1 as int, ser_nat(m.version as nat)));
                assert(not_digit_at(s@, j1 + ser_nat(m.version as nat).len()));
                assert(j3 == j1 + ser_nat(m.version as nat).len() + lit_by_digest_key().len());
                assert(is_at(s@, j3 as int, ser_map(m.by_digest)));
                assert(pairs_plain(m.by_digest));
            }
        }
        return Err(j3);
    }
    let (map_v, j4) = rm.unwrap();
    if j4 >= s.len() || s[j4] != ('}' as u8) {
        proof {
            assert forall|m: CacheModel|
                model_plain(m) && s@ == #[trigger] ser_cache(m) implies false by {
                lemma_cache_frags(s@, m);
                assert(is_at(s@, j1 as int, ser_nat(m.version as nat)));
                assert(not_digit_at(s@, j1 + ser_nat(m.version as nat).len()));
                assert(pairs_plain(m.by_digest));
                assert(is_at(
                    s@,
                    (j1 + ser_nat(m.version as nat).len() + lit_by_digest_key().len()) as int,
                    ser_map(m.by_digest),
                ));
                assert(j4 == j1 + ser_nat(m.version as nat).len() + lit_by_digest_key().len()
                    + ser_map(m.by_digest).len());
            }
        }
        return Err(j4);
    }
    if j4 + 1 != s.len() {
        proof {
            assert forall|m: CacheModel|
                model_plain(m) && s@ == #[trigger] ser_cache(m) implies false by {
                lemma_cache_frags(s@, m);
                assert(is_at(s@, j1 as int, ser_nat(m.version as nat)));
                assert(not_digit_at(s@, j1 + ser_nat(m.version as nat).len()));
                assert(pairs_plain(m.by_digest));
                assert(is_at(
                    s@,
                    (j1 + ser_nat(m.version as nat).len() + lit_by_digest_key().len()) as int,
                    ser_map(m.by_digest),
                ));
                assert(j4 == j1 + ser_nat(m.version as nat).len() + lit_by_digest_key().len()
                    + ser_map(m.by_digest).len());
            }
        }
        return Err(j4 + 1);
    }
    proof {
        assert forall|m: CacheModel|
            model_plain(m) && s@ == #[trigger] ser_cache(m) implies (verc == m.version
            && store_models(map_v@) == m.by_digest) by {
            lemma_cache_frags(s@, m);
            assert(is_at(s@, j1 as int, ser_nat(m.version as nat)));
            assert(not_digit_at(s@, j1 + ser_nat(m.version as nat).len()));
            assert(pairs_plain(m.by_digest));
            assert(is_at(
                s@,
                (j1 + ser_nat(m.version as nat).len() + lit_by_digest_key().len()) as int,
                ser_map(m.by_digest),
            ));
            assert(ver64 == m.version as u64);
        }
        // soundness: the document is the rendering of what was read
        let md = CacheModel { version: verc, by_digest: store_models(map_v@) };
        let p1 = lit_version_key();
        let p2 = ser_nat(verc as nat);
        let p3 = lit_by_digest_key();
        let p4 = ser_map(store_models(map_v@));
        let p5 = seq!['}' as u8];
        assert(verc as nat == ver64 as nat);
        assert(s@.subrange(j4 as int, j4 as int + 1) =~= p5);
        assert(is_at(s@, j4 as int, p5));
        lemma_is_at_concat(s@, 0, p1, p2);
        lemma_is_at_concat(s@, 0, p1 + p2, p3);
        lemma_is_at_concat(s@, 0, p1 + p2 + p3, p4);
        lemma_is_at_concat(s@, 0, p1 + p2 + p3 + p4, p5);
        assert(ser_cache(md) == p1 + p2 + p3 + p4 + p5);
        assert(is_at(s@, 0, ser_cache(md)));
        assert(ser_cache(md).len() == s@.len());
        assert(s@ =~= ser_cache(md)) by {
            assert(s@.subrange(0, s@.len() as int) =~= s@);
        }
    }
    Ok((verc, map_v))
}

/// Parse the persisted cache document. The bytes that `encode_cache`
/// renders for a well-formed cache come back as an equal, well-formed
/// cache when their version is current, and an accepted document is always
/// the canonical rendering of the cache returned: a decoder cannot invent
/// a cache from other bytes. A well-spelled document carrying any other
/// version is rejected as a version mismatch before any use; one that
/// breaks the store invariants (a repeated digest key, or two entries of
/// one config signature under a digest) is rejected as malformed, as is
/// anything else — including a cache document spelled with whitespace or
/// re-ordered keys — with the byte offset at which reading stopped.
pub fn decode_cache(s: &[u8]) -> (r: Result<CacheFile, CacheError>)
    ensures
        r matches Ok(c) ==> c.version == crate::types::CACHE_VERSION,
        r matches Ok(c) ==> c.wf() && model_plain(c@) && s@ == ser_cache(c@),
        (match r {
            Err(e) => e matches CacheError::Json(_) || e matches CacheError::VersionMismatch {
                ..
            },
            Ok(_) => true,
        }),
        (match r {
            Err(CacheError::VersionMismatch { expected, found }) => {
                &&& expected == crate::types::CACHE_VERSION
                &&& found != crate::types::CACHE_VERSION
                &&& exists|mm: Seq<(Seq<char>, Seq<EntryModel>)>|
                    #[trigger] pairs_plain(mm) && s@ == ser_cache(
                        CacheModel { version: found, by_digest: mm },
                    )
            },
            _ => true,
        }),
        forall|m: CacheModel|
            model_plain(m) && model_wf(m.by_digest) && s@ == #[trigger] ser_cache(m) ==> (if
                m.version == crate::types::CACHE_VERSION {
                r matches Ok(c) && c@ == m
            } else {
                r == Err::<CacheFile, CacheError>(
                    CacheError::VersionMismatch {
                        expected: crate::types::CACHE_VERSION,
                        found: m.version,
                    },
                )
            }),
{
    let rd = parse_cache_doc(s);
    if rd.is_err() {
        let pos = match rd {
            Ok(_) => 0,
            Err(p) => p,
        };
        return Err(CacheError::Json(pos));
    }
    let (ver, map_v) = match rd {
        Ok(p) => p,
        Err(_) => (0, Vec::new()),
    };
    if ver != crate::types::CACHE_VERSION {
        proof {
            // the mismatch arises only from a well-spelled document: the
            // parsed store renders back to the input under that version
            let mm = store_models(map_v@);
            assert(pairs_plain(mm) && s@ == ser_cache(
                CacheModel { version: ver, by_digest: mm },
            ));
        }
        return Err(
            CacheError::VersionMismatch { expected: crate::types::CACHE_VERSION, found: ver },
        );
    }
    if !crate::cache::store_well_formed(&map_v) {
        proof {
            assert forall|m: CacheModel|
                model_plain(m) && model_wf(m.by_digest) && s@ == #[trigger] ser_cache(
                    m,
                ) implies false by {
                assert(store_models(map_v@) == m.by_digest);
                lemma_store_wf_model(map_v@);
            }
        }
        return Err(CacheError::Json(0));
    }
    let c = CacheFile { version: ver, by_digest: map_v };
    proof {
        assert(c@.by_digest =~~= store_models(map_v@));
        // soundness: an accepted cache is well formed, plain, and renders
        // back to the input
        assert(c@ == CacheModel { version: ver, by_digest: store_models(map_v@) });
        assert(s@ == ser_cache(c@));
        assert(c.wf());
        assert(model_plain(c@)) by {
            assert(pairs_plain(c@.by_digest));
        }
        assert forall|m: CacheModel|
            model_plain(m) && model_wf(m.by_digest) && s@ == #[trigger] ser_cache(m) implies (
        m.version == crate::types::CACHE_VERSION && c@ == m) by {
            assert(ver == m.version);
            assert(store_models(map_v@) == m.by_digest);
            assert(c@.by_digest == m.by_digest);
        }
    }
    Ok(c)
}

} // verus!








