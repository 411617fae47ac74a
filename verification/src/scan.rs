//! Deciding which scanned paths belong to the run: the case-insensitive
//! extension filter. Walking the directory itself happens outside the
//! library; this is the rule it applies to every file it finds.
use vstd::prelude::*;

use vstd::string::StrSliceExecFns;
use vstd::string::StringSliceAdditionalSpecFns;

verus! {

/// Index of the last occurrence of `b`, or -1 when it does not occur.
pub open spec fn spec_last_index(p: Seq<u8>, b: u8) -> int
    decreases p.len(),
{
    if p.len() == 0 {
        -1
    } else if p.last() == b {
        p.len() - 1
    } else {
        spec_last_index(p.drop_last(), b)
    }
}

/// The extension of a path, as the bytes after the last dot of its final
/// component: none when that component has no dot, or starts with its only
/// dot (a hidden file).
pub open spec fn spec_extension(p: Seq<u8>) -> Option<Seq<u8>> {
    let dot = spec_last_index(p, '.' as u8);
    let sep = spec_last_index(p, '/' as u8);
    if dot > sep + 1 {
        Some(p.skip(dot + 1))
    } else {
        None
    }
}

/// ASCII letters folded to lower case; everything else untouched.
pub open spec fn spec_ascii_lower(b: u8) -> u8 {
    if 65 <= b <= 90 {
        (b + 32) as u8
    } else {
        b
    }
}

/// The UTF-8 bytes of a string value.
pub open spec fn string_bytes(s: String) -> Seq<u8> {
    vstd::utf8::encode_utf8(s@)
}

/// Byte strings equal up to ASCII case.
pub open spec fn spec_eq_nocase(a: Seq<u8>, b: Seq<u8>) -> bool {
    a.len() == b.len() && forall|i: int|
        0 <= i < a.len() ==> spec_ascii_lower(#[trigger] a[i]) == spec_ascii_lower(b[i])
}

proof fn lemma_last_index_range(p: Seq<u8>, b: u8)
    ensures
        -1 <= spec_last_index(p, b) < p.len(),
        spec_last_index(p, b) >= 0 ==> p[spec_last_index(p, b)] == b,
        forall|j: int| spec_last_index(p, b) < j < p.len() ==> p[j] != b,
    decreases p.len(),
{
    if p.len() > 0 && p.last() != b {
        let d = p.drop_last();
        lemma_last_index_range(d, b);
        let li = spec_last_index(p, b);
        assert(li == spec_last_index(d, b));
        if li >= 0 {
            assert(d[li] == p[li]);
        }
        assert forall|j: int| li < j < p.len() implies p[j] != b by {
            if j < p.len() - 1 {
                assert(d[j] == p[j]);
            }
        }
    }
}

proof fn lemma_last_index_assign(p: Seq<u8>, b: u8, i: int)
    requires
        0 <= i < p.len(),
        p[i] == b,
        forall|j: int| i < j < p.len() ==> p[j] != b,
    ensures
        spec_last_index(p, b) == i,
{
    lemma_last_index_range(p, b);
    let li = spec_last_index(p, b);
    if li < i {
        assert(p[i] != b);
    }
    if li > i {
        assert(p[li] == b);
    }
}

proof fn lemma_last_index_none(p: Seq<u8>, b: u8)
    requires
        forall|j: int| 0 <= j < p.len() ==> p[j] != b,
    ensures
        spec_last_index(p, b) == -1,
{
    lemma_last_index_range(p, b);
    let li = spec_last_index(p, b);
    if li >= 0 {
        assert(p[li] == b);
    }
}

/// Index of the last occurrence of `b`, when there is one.
fn find_last(p: &Vec<u8>, b: u8) -> (r: Option<usize>)
    ensures
        match r {
            Some(i) => spec_last_index(p@, b) == i && i < p@.len(),
            None => spec_last_index(p@, b) == -1,
        },
{
    let n = p.len();
    let mut i: usize = n;
    while i > 0
        invariant
            n == p@.len(),
            0 <= i <= n,
            forall|j: int| i <= j < n ==> p@[j] != b,
        decreases i,
    {
        if p[i - 1] == b {
            proof {
                lemma_last_index_assign(p@, b, i - 1);
            }
            return Some(i - 1);
        }
        i = i - 1;
    }
    proof {
        lemma_last_index_none(p@, b);
    }
    None
}

/// ASCII letters folded to lower case.
fn ascii_lower(b: u8) -> (r: u8)
    ensures
        r == spec_ascii_lower(b),
{
    if b >= 65 && b <= 90 {
        b + 32
    } else {
        b
    }
}

/// Whether the extension bytes equal one allowed extension up to case.
fn ext_matches(p: &Vec<u8>, start: usize, allowed: &Vec<u8>) -> (r: bool)
    requires
        start <= p@.len(),
    ensures
        r == spec_eq_nocase(p@.skip(start as int), allowed@),
{
    let n = p.len();
    if n - start != allowed.len() {
        return false;
    }
    let mut i: usize = 0;
    while i < allowed.len()
        invariant
            start <= n == p@.len(),
            allowed@.len() == n - start,
            0 <= i <= allowed@.len(),
            forall|j: int|
                0 <= j < i ==> spec_ascii_lower(#[trigger] p@.skip(start as int)[j])
                    == spec_ascii_lower(allowed@[j]),
        decreases allowed@.len() - i,
    {
        let a = ascii_lower(p[start + i]);
        let b = ascii_lower(allowed[i]);
        proof {
            assert(p@.skip(start as int)[i as int] == p@[start + i]);
        }
        if a != b {
            return false;
        }
        i = i + 1;
    }
    true
}

/// Whether the path's file extension, compared without regard to ASCII
/// case, is one of the allowed extensions. A path without an extension
/// matches nothing.
pub fn has_allowed_extension(path: &str, allowed_exts: &Vec<String>) -> (r: bool)
    ensures
        r == (match spec_extension(path.spec_bytes()) {
            Some(e) => exists|k: int|
                0 <= k < allowed_exts@.len() && spec_eq_nocase(
                    e,
                    string_bytes(#[trigger] allowed_exts@[k]),
                ),
            None => false,
        }),
{
    let bytes = path.as_bytes_vec();
    let _blen: usize = bytes.len();
    let dot = match find_last(&bytes, '.' as u8) {
        Some(d) => d,
        None => {
            proof {
                lemma_last_index_range(bytes@, '/' as u8);
            }
            return false;
        },
    };
    let past_first_of_name = match find_last(&bytes, '/' as u8) {
        Some(s) => dot > s + 1,
        None => dot > 0,
    };
    if !past_first_of_name {
        proof {
            lemma_last_index_range(bytes@, '/' as u8);
        }
        return false;
    }
    let start = dot + 1;
    proof {
        lemma_last_index_range(bytes@, '/' as u8);
        assert(spec_extension(path.spec_bytes()) == Some(bytes@.skip(start as int)));
    }
    let n = allowed_exts.len();
    let mut k: usize = 0;
    while k < n
        invariant
            n == allowed_exts@.len(),
            bytes@ == path.spec_bytes(),
            spec_extension(path.spec_bytes()) == Some(bytes@.skip(start as int)),
            start <= bytes@.len(),
            0 <= k <= n,
            forall|j: int|
                0 <= j < k ==> !spec_eq_nocase(
                    bytes@.skip(start as int),
                    string_bytes(#[trigger] allowed_exts@[j]),
                ),
        decreases n - k,
    {
        let a = allowed_exts[k].as_str().as_bytes_vec();
        if ext_matches(&bytes, start, &a) {
            return true;
        }
        k = k + 1;
    }
    false
}

} // verus!
