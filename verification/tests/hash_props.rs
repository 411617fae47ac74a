use phash_dedup::digest::ContentDigester;
use phash_dedup::grouping::{group_decoded, group_duplicates};
use phash_dedup::phash::{decode_hash_b64, encode_hash_b64, pack_rows, PerceptualHasher};
use phash_dedup::types::{HashAlg, PipelineResult};

fn png_bytes(seed: u8) -> Vec<u8> {
    let img = img_hash::image::ImageBuffer::from_fn(32, 32, |x, y| {
        img_hash::image::Rgb([
            (x as u8).wrapping_mul(seed),
            (y as u8).wrapping_add(seed),
            seed,
        ])
    });
    let dynimg = img_hash::image::DynamicImage::ImageRgb8(img);
    let mut buf = Vec::new();
    dynimg
        .write_to(&mut buf, img_hash::image::ImageOutputFormat::Png)
        .unwrap();
    buf
}

#[test]
fn digest_depends_on_bytes_alone() {
    let mut a = ContentDigester::new();
    a.update(b"hello ");
    a.update(b"world");
    let mut b = ContentDigester::new();
    b.update(b"hello world");
    assert_eq!(a.finalize_hex(), b.finalize_hex());
}

#[test]
fn digest_of_empty_stream_is_known() {
    let d = ContentDigester::new();
    assert_eq!(
        d.finalize_hex(),
        "af1349b9f5f9a1a6a0404dea36dcc9499bcb25c9adc112b7cc9a93cae41f3262"
    );
}

#[test]
fn digest_distinguishes_content() {
    let mut a = ContentDigester::new();
    a.update(b"one");
    let mut b = ContentDigester::new();
    b.update(b"two");
    assert_ne!(a.finalize_hex(), b.finalize_hex());
}

#[test]
fn hashing_is_deterministic() {
    let bytes = png_bytes(3);
    let hasher = PerceptualHasher::new(HashAlg::DoubleGradient, 16, 16);
    let h1 = hasher.hash_image_bytes(&bytes).unwrap();
    let h2 = hasher.hash_image_bytes(&bytes).unwrap();
    assert_eq!(h1, h2);
    let again = PerceptualHasher::new(HashAlg::DoubleGradient, 16, 16);
    assert_eq!(again.hash_image_bytes(&bytes).unwrap(), h1);
}

#[test]
fn undecodable_bytes_are_an_error() {
    let hasher = PerceptualHasher::new(HashAlg::Mean, 8, 8);
    assert!(hasher.hash_image_bytes(b"definitely not an image").is_err());
}

#[test]
fn base64_round_trips_hash_bytes() {
    let bytes = vec![0xDEu8, 0xAD, 0xBE, 0xEF];
    let text = encode_hash_b64(&bytes);
    assert_eq!(decode_hash_b64(&text).unwrap(), bytes);
    assert!(decode_hash_b64("!!!not base64!!!").is_none());
}

#[test]
fn image_hash_decodes_to_configured_bit_count() {
    let bytes = png_bytes(7);
    let hasher = PerceptualHasher::new(HashAlg::Mean, 16, 16);
    let h = hasher.hash_image_bytes(&bytes).unwrap();
    let decoded = decode_hash_b64(&h).unwrap();
    assert_eq!(decoded.len() * 8, 16 * 16);
}

#[test]
fn rgb_raster_hash_matches_image_hash() {
    // the same pixels, hashed as a packed raster and as an encoded image
    let hasher = PerceptualHasher::new(HashAlg::Gradient, 8, 8);
    let img = img_hash::image::ImageBuffer::from_fn(16, 16, |x, y| {
        img_hash::image::Rgb([x as u8, y as u8, 0])
    });
    let raw = img.clone().into_raw();
    let from_raw = hasher.hash_rgb8(16, 16, &raw).unwrap();
    let dynimg = img_hash::image::DynamicImage::ImageRgb8(img);
    let mut buf = Vec::new();
    dynimg
        .write_to(&mut buf, img_hash::image::ImageOutputFormat::Png)
        .unwrap();
    let from_png = hasher.hash_image_bytes(&buf).unwrap();
    assert_eq!(from_raw, from_png);
}

#[test]
fn wrong_raster_size_is_rejected() {
    let hasher = PerceptualHasher::new(HashAlg::Mean, 8, 8);
    let raw = vec![0u8; 10];
    assert!(hasher.hash_rgb8(16, 16, &raw).is_none());
}

#[test]
fn pack_rows_strips_the_stride() {
    // two rows of two pixels with a stride of 8 bytes
    let data: Vec<u8> = vec![
        1, 2, 3, 4, 5, 6, 0, 0, // row 0
        7, 8, 9, 10, 11, 12, 0, 0, // row 1
    ];
    let packed = pack_rows(&data, 8, 2, 2).unwrap();
    assert_eq!(packed, vec![1, 2, 3, 4, 5, 6, 7, 8, 9, 10, 11, 12]);
}

fn result_with(hash_bytes: &[u8], name: &str) -> PipelineResult {
    PipelineResult {
        path: name.to_owned(),
        blake3: name.to_owned(),
        perceptual_hash: encode_hash_b64(&hash_bytes.to_vec()),
    }
}

#[test]
fn fewer_than_two_results_make_no_groups() {
    assert!(group_duplicates(&Vec::new(), 10).unwrap().is_empty());
    let one = vec![result_with(&[0u8], "a")];
    assert!(group_duplicates(&one, 10).unwrap().is_empty());
}

#[test]
fn grouping_is_anchor_relative() {
    // distance(0,1) = 1 within threshold, distance(0,2) = 8 beyond it
    let items = vec![
        result_with(&[0x00], "a"),
        result_with(&[0x01], "b"),
        result_with(&[0xFF], "c"),
    ];
    let groups = group_duplicates(&items, 2).unwrap();
    assert_eq!(groups.len(), 1);
    let g = &groups[0];
    assert_eq!(g.members.len(), 2);
    assert_eq!((g.members[0].index, g.members[0].dist_bits), (0, 0));
    assert_eq!((g.members[1].index, g.members[1].dist_bits), (1, 1));
    assert_eq!(g.dist_sum, 1);
}

#[test]
fn groups_are_ordered_and_well_formed() {
    // two clusters: {0,3} at distance 2 and {1,2} at distance 1
    let items = vec![
        result_with(&[0xF0], "a"),
        result_with(&[0x0F], "b"),
        result_with(&[0x0E], "c"),
        result_with(&[0xF3], "d"),
    ];
    let groups = group_duplicates(&items, 3).unwrap();
    assert_eq!(groups.len(), 2);
    for g in &groups {
        assert!(g.members.len() >= 2);
        assert_eq!(g.members[0].dist_bits, 0);
        for w in g.members.windows(2) {
            assert!(w[0].dist_bits <= w[1].dist_bits);
        }
    }
    // ascending average distance: the {1,2} cluster (avg 1) comes first
    assert_eq!(groups[0].members[0].index, 1);
    assert_eq!(groups[1].members[0].index, 0);
    assert!(groups[0].dist_sum * (groups[1].members.len() as u64 - 1)
        <= groups[1].dist_sum * (groups[0].members.len() as u64 - 1));
}

#[test]
fn claimed_items_do_not_anchor_new_groups() {
    // 1 is claimed by 0; although 1 and 2 are close, 2 is only compared
    // to the anchor 0 and stays out
    let items = vec![
        result_with(&[0x00], "a"),
        result_with(&[0x03], "b"),
        result_with(&[0x07], "c"),
    ];
    let groups = group_duplicates(&items, 2).unwrap();
    assert_eq!(groups.len(), 1);
    assert_eq!(groups[0].members.len(), 2);
    assert_eq!(groups[0].members[1].index, 1);
}

#[test]
fn invalid_stored_hash_fails_grouping() {
    let mut items = vec![result_with(&[0x00], "a"), result_with(&[0x01], "b")];
    items[1].perceptual_hash = "&&& not base64".to_owned();
    assert!(group_duplicates(&items, 2).is_none());
}

#[test]
fn group_decoded_works_on_raw_hashes() {
    let decoded = vec![vec![0x00u8], vec![0x00u8]];
    let groups = group_decoded(&decoded, 0);
    assert_eq!(groups.len(), 1);
    assert_eq!(groups[0].members.len(), 2);
    assert_eq!(groups[0].dist_sum, 0);
}

#[test]
fn tiny_runs_skip_hash_decoding() {
    // below two items no hash is even decoded, so a bad one cannot fail
    let mut one = vec![result_with(&[0u8], "a")];
    one[0].perceptual_hash = "&&& not base64".to_owned();
    assert!(group_duplicates(&one, 10).unwrap().is_empty());
}
