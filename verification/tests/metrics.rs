use kanpig::kmer::{empty_profile, kmer_in_range, profile_len, seq_to_kmer};
use kanpig::metrics::{overlaps, seqsim, sizesim};
use kanpig::similarity::Similarity;

#[test]
fn intervals_that_share_a_position_overlap() {
    assert!(overlaps(10, 15, 12, 18));
    assert!(overlaps(12, 18, 10, 15));
    assert!(overlaps(10, 20, 12, 13));
}

#[test]
fn intervals_that_touch_do_not_overlap() {
    assert!(!overlaps(10, 15, 15, 20));
    assert!(!overlaps(15, 20, 10, 15));
    assert!(!overlaps(10, 15, 20, 25));
}

#[test]
fn an_anchor_overlaps_nothing() {
    assert!(!overlaps(0, 0, 0, 10));
    assert!(!overlaps(0, 10, 0, 0));
    assert!(!overlaps(0, 0, 0, 0));
}

#[test]
fn size_similarity_is_the_smaller_over_the_larger() {
    let s = sizesim(50, 100);
    assert_eq!((s.num, s.den_sq), (50, 10000));
    assert!(s.same_as(&Similarity::new(1, 2).unwrap()));
    let t = sizesim(100, 50);
    assert_eq!((t.num, t.den_sq), (50, 10000));
}

#[test]
fn equal_sizes_have_similarity_one() {
    assert!(sizesim(37, 37).is_one_value());
    assert!(sizesim(u64::MAX, u64::MAX).is_one_value());
    let zero = sizesim(0, 0);
    assert_eq!((zero.num, zero.den_sq), (1, 1));
    assert!(zero.is_one_value());
}

#[test]
fn an_empty_size_is_not_similar_to_another() {
    assert!(sizesim(0, 5).is_zero_value());
    assert!(sizesim(5, 0).is_zero_value());
}

#[test]
fn size_similarity_falls_as_the_sizes_part() {
    assert!(sizesim(10, 30).less_than(&sizesim(20, 30)));
    assert!(sizesim(10, 30).less_than(&sizesim(10, 20)));
    assert!(sizesim(99, 100).less_than(&sizesim(100, 100)));
}

#[test]
fn cosine_of_two_profiles() {
    // dot = 1*2 + 2*0 + 3*1 = 5, norms 14 and 5
    let s = seqsim(&vec![1, 2, 3], &vec![2, 0, 1], 0);
    assert_eq!((s.num, s.den_sq), (5, 70));
    assert!(s.is_valid());
}

#[test]
fn a_profile_is_as_similar_to_itself_as_can_be() {
    let p = vec![3, 0, 7, 1];
    assert!(seqsim(&p, &p, 0).is_one_value());
    assert!(seqsim(&p, &p, 1).is_one_value());
}

#[test]
fn proportional_profiles_have_similarity_one() {
    let s = seqsim(&vec![1, 2, 3], &vec![2, 4, 6], 0);
    assert_eq!((s.num, s.den_sq), (28, 14 * 56));
    assert!(s.is_one_value());
}

#[test]
fn profiles_without_a_common_word_have_similarity_zero() {
    let s = seqsim(&vec![1, 0], &vec![0, 1], 0);
    assert_eq!((s.num, s.den_sq), (0, 1));
    assert!(s.is_zero_value());
}

#[test]
fn counts_below_the_minimum_frequency_are_left_out() {
    // with a minimum of 2 the profiles become [0, 2, 3] and [2, 0, 0]
    let s = seqsim(&vec![1, 2, 3], &vec![2, 1, 1], 2);
    assert_eq!((s.num, s.den_sq), (0, 13 * 4));
    // with a minimum of 3 nothing of the second profile is left
    let t = seqsim(&vec![1, 2, 3], &vec![2, 1, 1], 3);
    assert_eq!((t.num, t.den_sq), (0, 1));
}

#[test]
fn an_empty_profile_is_similar_to_nothing() {
    assert!(seqsim(&vec![], &vec![], 0).is_zero_value());
    assert!(seqsim(&vec![0, 0], &vec![1, 1], 0).is_zero_value());
    assert!(seqsim(&vec![1, 1], &vec![0, 0], 0).is_zero_value());
}

#[test]
fn profiles_are_compared_over_the_positions_that_both_have() {
    let s = seqsim(&vec![1, 2, 3], &vec![1, 2], 0);
    assert_eq!((s.num, s.den_sq), (5, 25));
    assert!(s.is_one_value());
}

#[test]
fn a_norm_beyond_64_bits_gives_similarity_zero() {
    let heavy = vec![1u64 << 32];
    let s = seqsim(&heavy, &heavy, 0);
    assert_eq!((s.num, s.den_sq), (0, 1));
    let nearly = vec![(1u64 << 32) - 1];
    assert!(seqsim(&nearly, &nearly, 0).is_one_value());
}

#[test]
fn words_are_numbered_in_base_four() {
    assert_eq!(seq_to_kmer(b"A", 1), vec![1, 0, 0, 0]);
    assert_eq!(seq_to_kmer(b"C", 1), vec![0, 1, 0, 0]);
    assert_eq!(seq_to_kmer(b"G", 1), vec![0, 0, 1, 0]);
    assert_eq!(seq_to_kmer(b"T", 1), vec![0, 0, 0, 1]);
    // AC = 0 * 4 + 1, CG = 1 * 4 + 2, GT = 2 * 4 + 3
    let mut expected = vec![0u64; 16];
    expected[1] = 1;
    expected[6] = 1;
    expected[11] = 1;
    assert_eq!(seq_to_kmer(b"ACGT", 2), expected);
}

#[test]
fn every_occurrence_of_a_word_is_counted() {
    // AAAA holds AA three times
    let mut expected = vec![0u64; 16];
    expected[0] = 3;
    assert_eq!(seq_to_kmer(b"AAAA", 2), expected);
    assert_eq!(seq_to_kmer(b"ACGTACGT", 1), vec![2, 2, 2, 2]);
}

#[test]
fn lower_case_counts_as_upper_case() {
    assert_eq!(seq_to_kmer(b"acgt", 2), seq_to_kmer(b"ACGT", 2));
}

#[test]
fn a_word_with_another_letter_is_not_counted() {
    // ACNGT holds AC and GT; CN and NG are no words
    let mut expected = vec![0u64; 16];
    expected[1] = 1;
    expected[11] = 1;
    assert_eq!(seq_to_kmer(b"ACNGT", 2), expected);
}

#[test]
fn a_sequence_shorter_than_a_word_has_no_counts() {
    assert_eq!(seq_to_kmer(b"AC", 3), vec![0u64; 64]);
    assert_eq!(seq_to_kmer(b"", 1), vec![0u64; 4]);
}

#[test]
fn a_profile_has_four_to_the_k_counts() {
    assert_eq!(profile_len(0), 1);
    assert_eq!(profile_len(1), 4);
    assert_eq!(profile_len(4), 256);
    assert_eq!(profile_len(8), 65536);
    assert_eq!(empty_profile(3), vec![0u64; 64]);
}

#[test]
fn words_have_one_to_fifteen_letters() {
    assert!(!kmer_in_range(0));
    assert!(kmer_in_range(1));
    assert!(kmer_in_range(15));
    assert!(!kmer_in_range(16));
}
