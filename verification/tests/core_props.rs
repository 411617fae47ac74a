use phash_dedup::aggregate::{aggregate_majority_as_real, aggregate_medoid};
use phash_dedup::bits::hamming_bytes;
use phash_dedup::sample::{plan_even_sampling, SampleSelector, SamplingPlan};

#[test]
fn hamming_counts_differing_bits() {
    let a = vec![0xFFu8, 0x0F];
    let b = vec![0x0Fu8, 0x0F];
    assert_eq!(hamming_bytes(&a, &b), 4);
    let c = vec![0x00u8];
    let d = vec![0xFFu8];
    assert_eq!(hamming_bytes(&c, &d), 8);
}

#[test]
fn hamming_is_symmetric() {
    let a = vec![0xA5u8, 0x3C, 0x77];
    let b = vec![0x5Au8, 0xC3, 0x00];
    assert_eq!(hamming_bytes(&a, &b), hamming_bytes(&b, &a));
}

#[test]
fn hamming_zero_iff_identical() {
    let a = vec![1u8, 2, 3];
    let b = vec![1u8, 2, 3];
    let c = vec![1u8, 2, 4];
    assert_eq!(hamming_bytes(&a, &b), 0);
    assert!(hamming_bytes(&a, &c) > 0);
}

#[test]
fn plan_spreads_samples_evenly() {
    let p = plan_even_sampling(100, 10, 0, 0);
    assert_eq!(p, SamplingPlan { start: 0, step: 10, take: 10 });
}

#[test]
fn plan_is_bounded_by_availability() {
    let p = plan_even_sampling(5, 10, 0, 0);
    assert_eq!(p, SamplingPlan { start: 0, step: 1, take: 5 });
}

#[test]
fn plan_of_empty_video_takes_nothing() {
    assert_eq!(plan_even_sampling(0, 10, 3, 7).take, 0);
    assert_eq!(plan_even_sampling(0, 0, 0, 0).take, 0);
    assert_eq!(plan_even_sampling(50, 0, 0, 0).take, 0);
}

#[test]
fn plan_moves_late_start_to_middle() {
    let p = plan_even_sampling(100, 4, 200, 0);
    assert_eq!(p.start, 50);
}

#[test]
fn plan_respects_window() {
    let p = plan_even_sampling(100, 5, 10, 20);
    // 20 frames from index 10, stride 4, five samples
    assert_eq!(p, SamplingPlan { start: 10, step: 4, take: 5 });
}

#[test]
fn selector_follows_the_plan() {
    let plan = plan_even_sampling(10, 3, 1, 6);
    // start 1, window 6, step 2, take 3
    assert_eq!(plan, SamplingPlan { start: 1, step: 2, take: 3 });
    let mut sel = SampleSelector::new(&plan);
    let mut taken = Vec::new();
    for idx in 0..10usize {
        if sel.observe() {
            taken.push(idx);
        }
    }
    assert_eq!(taken, vec![1, 3, 5]);
    assert!(sel.done());
}

#[test]
fn medoid_of_single_hash_is_identity() {
    let h = vec![0xDEu8, 0xAD];
    let r = aggregate_medoid(&vec![h.clone()]).unwrap();
    assert_eq!(r, h);
}

#[test]
fn medoid_of_duplicate_pair_is_that_hash() {
    let h = vec![0xBEu8, 0xEF];
    let r = aggregate_medoid(&vec![h.clone(), h.clone()]).unwrap();
    assert_eq!(r, h);
}

#[test]
fn medoid_picks_central_hash() {
    // 0x00 and 0x03 sit two bits apart; 0x01 sits one bit from each.
    let hs = vec![vec![0x00u8], vec![0x01u8], vec![0x03u8]];
    assert_eq!(aggregate_medoid(&hs).unwrap(), vec![0x01u8]);
}

#[test]
fn medoid_of_empty_input_is_none() {
    assert!(aggregate_medoid(&Vec::new()).is_none());
}

#[test]
fn majority_returns_a_real_hash() {
    // majority bitstring of {0x01, 0x01, 0x00} is 0x01, itself present
    let hs = vec![vec![0x01u8], vec![0x01u8], vec![0x00u8]];
    assert_eq!(aggregate_majority_as_real(&hs).unwrap(), vec![0x01u8]);
}

#[test]
fn majority_tie_leans_toward_ones() {
    // bit tie between 0x00 and 0x01: majority is 0x01, and the first
    // closest real hash to it is picked
    let hs = vec![vec![0x00u8], vec![0x01u8]];
    assert_eq!(aggregate_majority_as_real(&hs).unwrap(), vec![0x01u8]);
}

#[test]
fn majority_of_single_hash_is_identity() {
    let h = vec![0x55u8];
    assert_eq!(aggregate_majority_as_real(&vec![h.clone()]).unwrap(), h);
    assert!(aggregate_majority_as_real(&Vec::new()).is_none());
}

#[test]
fn extension_filter_ignores_case() {
    let allowed = vec!["jpg".to_owned(), "png".to_owned()];
    assert!(phash_dedup::scan::has_allowed_extension("photos/a.JPG", &allowed));
    assert!(phash_dedup::scan::has_allowed_extension("b.png", &allowed));
    assert!(!phash_dedup::scan::has_allowed_extension("c.gif", &allowed));
    assert!(!phash_dedup::scan::has_allowed_extension("noext", &allowed));
    assert!(!phash_dedup::scan::has_allowed_extension(".hidden", &allowed));
    assert!(!phash_dedup::scan::has_allowed_extension("dir.jpg/file", &allowed));
}
