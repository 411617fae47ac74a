//! Perceptual hashing: a raster reduced to a fixed-size bit matrix, and the
//! base64 form in which such hashes are stored and compared.
use vstd::prelude::*;

use img_hash::image::GenericImageView;

use crate::codec::plain_str;
use crate::errors::HashError;
use crate::types::HashAlg;

verus! {

/// A number for each algorithm choice, so the named results below range
/// over plain values only.
pub open spec fn alg_id(a: HashAlg) -> int {
    match a {
        HashAlg::Mean => 0,
        HashAlg::Gradient => 1,
        HashAlg::DoubleGradient => 2,
    }
}

/// Whether the bytes decode as an image with a nonzero width and height.
pub uninterp spec fn image_decodes(encoded: Seq<u8>) -> bool;

/// The base64 perceptual hash of the image encoded in `encoded`, under the
/// given algorithm and hash size: a function of those values alone.
pub uninterp spec fn image_phash_b64(alg: int, w: int, h: int, encoded: Seq<u8>) -> Seq<char>;

/// The base64 perceptual hash of a packed RGB raster, under the given
/// algorithm and hash size: a function of those values alone.
pub uninterp spec fn rgb8_phash_b64(
    alg: int,
    w: int,
    h: int,
    img_w: int,
    img_h: int,
    raw: Seq<u8>,
) -> Seq<char>;

/// The bytes a base64 hash string decodes to, when it is one.
pub uninterp spec fn b64_bytes_of(s: Seq<char>) -> Option<Seq<u8>>;

/// The base64 form of hash bytes.
pub uninterp spec fn b64_of(b: Seq<u8>) -> Seq<char>;

#[verifier::external_type_specification]
#[verifier::external_body]
#[verifier::reject_recursive_types(B)]
pub struct ExImgHasher<B>(img_hash::Hasher<B>);

/// Relies on img_hash's HasherConfig (new, hash_size, hash_alg, to_hasher):
/// builds the reusable hasher for this algorithm and hash size. The size
/// bounds keep every path through img_hash total: `to_hasher` multiplies
/// the width and height in `u32` after rounding each up by at most one,
/// and the mean algorithm sums up to `255 * width * height` into a `u32`
/// before dividing by the resized pixel count, so both dimensions must be
/// nonzero and the rounded product small.
#[verifier::external_body]
fn build_inner(alg: HashAlg, w: u32, h: u32) -> img_hash::Hasher
    requires
        1 <= w,
        1 <= h,
        (w as int + 1) * (h as int + 1) * 255 <= u32::MAX,
{
    let ia = match alg {
        HashAlg::Mean => img_hash::HashAlg::Mean,
        HashAlg::Gradient => img_hash::HashAlg::Gradient,
        HashAlg::DoubleGradient => img_hash::HashAlg::DoubleGradient,
    };
    img_hash::HasherConfig::new().hash_size(w, h).hash_alg(ia).to_hasher()
}

/// Built once per run from the algorithm and hash size; read-only
/// afterwards, so many workers may hash with it at once.
pub struct PerceptualHasher {
    inner: img_hash::Hasher,
    alg: HashAlg,
    hash_w: u32,
    hash_h: u32,
}

/// A hash size every algorithm can carry out: nonzero in both directions,
/// and small enough that img_hash's internal `u32` arithmetic (the product
/// of the rounded dimensions, and the mean algorithm's luminance sum over
/// the resized pixels) cannot overflow.
pub open spec fn valid_hash_size(w: u32, h: u32) -> bool {
    &&& 1 <= w
    &&& 1 <= h
    &&& (w as int + 1) * (h as int + 1) * 255 <= u32::MAX
}

impl PerceptualHasher {
    /// The configured algorithm.
    pub closed spec fn spec_alg(self) -> HashAlg {
        self.alg
    }

    /// The configured hash width, in bits.
    pub closed spec fn spec_w(self) -> u32 {
        self.hash_w
    }

    /// The configured hash height, in bits.
    pub closed spec fn spec_h(self) -> u32 {
        self.hash_h
    }

    /// The hasher was built with a size every algorithm can carry out.
    pub closed spec fn wf(self) -> bool {
        valid_hash_size(self.hash_w, self.hash_h)
    }

    pub fn new(alg: HashAlg, hash_w: u32, hash_h: u32) -> (r: PerceptualHasher)
        requires
            valid_hash_size(hash_w, hash_h),
        ensures
            r.spec_alg() == alg,
            r.spec_w() == hash_w,
            r.spec_h() == hash_h,
            r.wf(),
    {
        PerceptualHasher { inner: build_inner(alg, hash_w, hash_h), alg, hash_w, hash_h }
    }

    /// Relies on image::load_from_memory, img_hash::Hasher::hash_image and
    /// ImageHash::to_base64: decoding succeeds or fails on the bytes alone,
    /// and the hash of a decoded image depends only on this hasher's
    /// configuration and those bytes. A decoded image with a zero width or
    /// height is turned away here, since the hashers cannot resample an
    /// empty raster; `image_decodes` means decoding to a usable one. The
    /// result is base64, so plain ASCII, and decodes back to the hash's
    /// bytes.
    #[verifier::external_body]
    pub fn hash_image_bytes(&self, data: &[u8]) -> (r: Result<String, HashError>)
        requires
            self.wf(),
        ensures
            r is Ok <==> image_decodes(data@),
            r matches Ok(ph) ==> {
                &&& ph@ == image_phash_b64(
                    alg_id(self.spec_alg()),
                    self.spec_w() as int,
                    self.spec_h() as int,
                    data@,
                )
                &&& plain_str(ph@)
                &&& b64_bytes_of(ph@) is Some
            },
    {
        match img_hash::image::load_from_memory(data) {
            Ok(img) => {
                if img.width() == 0 || img.height() == 0 {
                    Err(HashError::Image("image has a zero dimension".to_string()))
                } else {
                    Ok(self.inner.hash_image(&img).to_base64())
                }
            },
            Err(e) => Err(HashError::Image(format!("{e}"))),
        }
    }

    /// Relies on image::ImageBuffer::from_raw, img_hash::Hasher::hash_image
    /// and ImageHash::to_base64: a packed RGB raster of the stated size
    /// hashes to a value depending only on this hasher's configuration and
    /// the raster. `from_raw` accepts any buffer holding at least three
    /// bytes per pixel. Both dimensions must be nonzero: the hashers
    /// cannot resample an empty raster. The result is base64, so plain
    /// ASCII, and decodes back to the hash's bytes.
    #[verifier::external_body]
    pub fn hash_rgb8(&self, img_w: u32, img_h: u32, raw: &Vec<u8>) -> (r: Option<String>)
        requires
            self.wf(),
            1 <= img_w,
            1 <= img_h,
        ensures
            r is Some <==> 3 * (img_w as int) * (img_h as int) <= raw@.len(),
            r matches Some(ph) ==> {
                &&& ph@ == rgb8_phash_b64(
                    alg_id(self.spec_alg()),
                    self.spec_w() as int,
                    self.spec_h() as int,
                    img_w as int,
                    img_h as int,
                    raw@,
                )
                &&& plain_str(ph@)
                &&& b64_bytes_of(ph@) is Some
            },
    {
        let buf: img_hash::image::ImageBuffer<img_hash::image::Rgb<u8>, Vec<u8>> =
            match img_hash::image::ImageBuffer::from_raw(img_w, img_h, raw.clone()) {
            Some(b) => b,
            None => {
                return None;
            },
        };
        let img = img_hash::image::DynamicImage::ImageRgb8(buf);
        Some(self.inner.hash_image(&img).to_base64())
    }
}

/// Relies on ImageHash::from_base64 and ImageHash::as_bytes: whether a
/// string is valid base64, and the bytes it carries, depend on the string
/// alone.
#[verifier::external_body]
pub fn decode_hash_b64(s: &str) -> (r: Option<Vec<u8>>)
    ensures
        match r {
            Some(v) => b64_bytes_of(s@) == Some(v@),
            None => b64_bytes_of(s@) is None,
        },
{
    match img_hash::ImageHash::<Box<[u8]>>::from_base64(s) {
        Ok(h) => Some(h.as_bytes().to_vec()),
        Err(_) => None,
    }
}

/// Relies on ImageHash::from_bytes and ImageHash::to_base64: the base64
/// form of the bytes (from_bytes never fails for a boxed-slice hash), which
/// from_base64 decodes back to the same bytes. Base64 text is plain ASCII.
#[verifier::external_body]
pub fn encode_hash_b64(bytes: &Vec<u8>) -> (r: String)
    ensures
        r@ == b64_of(bytes@),
        r@.len() == 4 * ((bytes@.len() + 2) / 3),
        b64_bytes_of(r@) == Some(bytes@),
        plain_str(r@),
{
    match img_hash::ImageHash::<Box<[u8]>>::from_bytes(bytes.as_slice()) {
        Ok(h) => h.to_base64(),
        Err(_) => String::new(),
    }
}

/// Copy a strided raster row by row into a packed buffer of three bytes
/// per pixel, as the hashers expect.
pub fn pack_rows(data: &[u8], stride: usize, img_w: usize, img_h: usize) -> (r: Option<Vec<u8>>)
    requires
        3 * img_w <= stride,
        img_w * img_h * 3 <= usize::MAX,
        stride * img_h <= usize::MAX,
    ensures
        data@.len() >= stride * img_h ==> r is Some,
        r matches Some(v) ==> {
            &&& v@.len() == 3 * img_w * img_h
            &&& forall|y: int, x: int|
                0 <= y < img_h && 0 <= x < 3 * img_w ==> #[trigger] (v@[y * (3 * img_w) + x])
                    == data@[y * stride + x]
        },
{
    let _dlen: usize = data.len();
    if data.len() < stride * img_h {
        return None;
    }
    let row = 3 * img_w;
    let mut out: Vec<u8> = Vec::new();
    let mut y: usize = 0;
    while y < img_h
        invariant
            3 * img_w <= stride,
            img_w * img_h * 3 <= usize::MAX,
            stride * img_h <= usize::MAX,
            row == 3 * img_w,
            data@.len() >= stride * img_h,
            data@.len() <= usize::MAX,
            0 <= y <= img_h,
            out@.len() == y * row,
            forall|yy: int, x: int|
                0 <= yy < y && 0 <= x < row ==> #[trigger] (out@[yy * (row as int) + x])
                    == data@[yy * (stride as int) + x],
        decreases img_h - y,
    {
        let mut x: usize = 0;
        proof {
            assert((y as int) * (stride as int) + stride <= (img_h as int) * (stride as int))
                by (nonlinear_arith)
                requires
                    0 <= y < img_h,
                    stride >= 0,
            ;
            assert((y as int) * (row as int) + row <= (img_h as int) * (row as int))
                by (nonlinear_arith)
                requires
                    0 <= y < img_h,
                    row >= 0,
            ;
            assert((img_h as int) * (row as int) == (img_w as int) * (img_h as int) * 3)
                by (nonlinear_arith)
                requires
                    row == 3 * img_w,
            ;
            assert((img_h as int) * (stride as int) == (stride as int) * (img_h as int))
                by (nonlinear_arith);
        }
        while x < row
            invariant
                3 * img_w <= stride,
                row == 3 * img_w,
                data@.len() >= stride * img_h,
                data@.len() <= usize::MAX,
                0 <= y < img_h,
                0 <= x <= row,
                (y as int) * (stride as int) + stride <= data@.len(),
                (y as int) * (row as int) + row <= usize::MAX,
                out@.len() == y * row + x,
                forall|yy: int, xx: int|
                    0 <= yy < y && 0 <= xx < row ==> #[trigger] (out@[yy * (row as int) + xx])
                        == data@[yy * (stride as int) + xx],
                forall|xx: int|
                    0 <= xx < x ==> #[trigger] (out@[(y as int) * (row as int) + xx]) == data@[(
                    y as int) * (stride as int) + xx],
            decreases row - x,
        {
            let b = data[y * stride + x];
            out.push(b);
            proof {
                assert forall|yy: int, xx: int|
                    0 <= yy < y && 0 <= xx < row implies #[trigger] (out@[yy * (row as int) + xx])
                    == data@[yy * (stride as int) + xx] by {
                    assert((yy + 1) * (row as int) == yy * (row as int) + row)
                        by (nonlinear_arith);
                    assert((yy + 1) * (row as int) <= (y as int) * (row as int))
                        by (nonlinear_arith)
                        requires
                            yy + 1 <= y as int,
                            row >= 0,
                    ;
                    assert(yy * (row as int) + xx < (y as int) * (row as int) + x);
                }
            }
            x = x + 1;
        }
        proof {
            assert(((y + 1) as int) * (row as int) == (y as int) * (row as int) + row)
                by (nonlinear_arith);
            assert forall|yy: int, xx: int|
                0 <= yy < y + 1 && 0 <= xx < row implies #[trigger] (out@[yy * (row as int) + xx])
                == data@[yy * (stride as int) + xx] by {
                if yy < y {
                    assert((yy + 1) * (row as int) == yy * (row as int) + row)
                        by (nonlinear_arith);
                    assert((yy + 1) * (row as int) <= (y as int) * (row as int))
                        by (nonlinear_arith)
                        requires
                            yy + 1 <= y as int,
                            row >= 0,
                    ;
                    assert(yy * (row as int) + xx < (y as int) * (row as int));
                }
            }
        }
        y = y + 1;
    }
    proof {
        assert((img_h as int) * (row as int) == 3 * (img_w as int) * (img_h as int))
            by (nonlinear_arith)
            requires
                row == 3 * img_w,
        ;
    }
    Some(out)
}

} // verus!
