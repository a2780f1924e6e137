use kanpig::cli::KDParams;
use kanpig::haplotype::{Haplotype, HaplotypePart};
use kanpig::kmer::seq_to_kmer;
use kanpig::pathscore::PathScore;
use kanpig::record::VariantRecord;
use kanpig::similarity::Similarity;
use kanpig::traverse::{brute_force_find_path, brute_force_search, get_one_to_one, prune_graph};
use kanpig::vargraph::Variants;

const A: &str = "ACGTACGT";
const B: &str = "TTTTTTTT";
const C: &str = "GGGGCCCC";

fn insertion(start: u64, inserted: &str) -> VariantRecord {
    let mut alternate = vec![b'A'];
    alternate.extend_from_slice(inserted.as_bytes());
    VariantRecord {
        chrom: "chr1".to_string(),
        start,
        end: start + 1,
        reference: vec![b'A'],
        alternate,
        filtered: false,
    }
}

fn deletion(start: u64, deleted: &str) -> VariantRecord {
    let mut reference = vec![b'A'];
    reference.extend_from_slice(deleted.as_bytes());
    VariantRecord {
        chrom: "chr1".to_string(),
        start,
        end: start + 1 + deleted.len() as u64,
        reference,
        alternate: vec![b'A'],
        filtered: false,
    }
}

/// Three insertions that can all lie on one allele: nodes 1, 2 and 3.
fn window() -> Variants {
    Variants::new(vec![insertion(10, A), insertion(20, B), insertion(30, C)], 2).unwrap()
}

fn profile(sequences: &[&str]) -> Vec<u64> {
    let mut sum = vec![0u64; 16];
    for s in sequences {
        for (i, c) in seq_to_kmer(s.as_bytes(), 2).iter().enumerate() {
            sum[i] += c;
        }
    }
    sum
}

fn haplotype(size: i64, sequences: &[&str]) -> Haplotype {
    Haplotype { size, n: sequences.len() as u64, coverage: 17, kfeat: profile(sequences), parts: vec![] }
}

fn params() -> KDParams {
    let mut kd = KDParams::default();
    kd.kmer = 2;
    kd
}

fn assert_empty(score: &PathScore) {
    assert!(score.path.is_empty());
    assert!(score.sizesim.is_zero_value());
    assert!(score.seqsim.is_zero_value());
    assert!(score.align_pct.is_zero_value());
}

#[test]
fn the_default_score_is_empty() {
    let d = PathScore::default();
    assert_empty(&d);
    assert_eq!(d.coverage, None);
    assert!(!d.is_match());
    assert!(!d.is_perfect());
}

#[test]
fn a_variant_that_is_the_haplotype_scores_one() {
    let v = window();
    let s = PathScore::new(&v.graph, vec![1], &haplotype(8, &[A]), &params());
    assert_eq!(s.path, vec![1]);
    assert!(s.sizesim.is_one_value());
    assert!(s.seqsim.is_one_value());
    assert!(s.align_pct.is_one_value());
    assert_eq!(s.coverage, None);
    assert!(s.is_match());
    assert!(s.is_perfect());
}

#[test]
fn the_sums_over_a_path_are_compared() {
    let v = window();
    let mut kd = params();
    kd.sizesim = Similarity::new(1, 2).unwrap();
    kd.seqsim = Similarity::zero();
    // sizes 8 + 8 against 20; profiles of A + B against that of B
    let s = PathScore::new(&v.graph, vec![1, 2], &haplotype(20, &[B]), &kd);
    assert_eq!(s.path, vec![1, 2]);
    assert_eq!((s.sizesim.num, s.sizesim.den_sq), (16, 400));
    // A + B holds AC, CG, GT twice, TA once and TT seven times; B holds TT seven times
    assert_eq!((s.seqsim.num, s.seqsim.den_sq), (49, 62 * 49));
}

#[test]
fn the_anchors_add_nothing_to_a_path() {
    let v = window();
    let hap = haplotype(8, &[A]);
    let alone = PathScore::new(&v.graph, vec![1], &hap, &params());
    let through = PathScore::new(&v.graph, vec![0, 1, 4], &hap, &params());
    assert_eq!(through.path, vec![0, 1, 4]);
    assert!(through == alone);
    assert!(through.is_perfect());
}

#[test]
fn a_handle_that_names_no_node_counts_nothing() {
    let v = window();
    let s = PathScore::new(&v.graph, vec![1, 99, usize::MAX], &haplotype(8, &[A]), &params());
    assert_eq!(s.path, vec![1, 99, usize::MAX]);
    assert!(s.is_perfect());
}

#[test]
fn sizes_of_different_sign_do_not_match() {
    let v = window();
    assert_empty(&PathScore::new(&v.graph, vec![1], &haplotype(-8, &[A]), &params()));
    let dels = Variants::new(vec![deletion(10, A)], 2).unwrap();
    assert_empty(&PathScore::new(&dels.graph, vec![1], &haplotype(8, &[A]), &params()));
    assert!(PathScore::new(&dels.graph, vec![1], &haplotype(-8, &[A]), &params()).is_perfect());
}

#[test]
fn a_size_similarity_below_the_threshold_does_not_match() {
    let v = window();
    // 8 against 9 is below nine tenths, 9 against 10 is not
    assert_empty(&PathScore::new(&v.graph, vec![1], &haplotype(9, &[A]), &params()));
    let nine = Variants::new(vec![insertion(10, "ACGTACGTA")], 2).unwrap();
    let s = PathScore::new(&nine.graph, vec![1], &haplotype(10, &["ACGTACGTA"]), &params());
    assert_eq!((s.sizesim.num, s.sizesim.den_sq), (9, 100));
    assert!(s.seqsim.is_one_value());
}

#[test]
fn a_sequence_similarity_below_the_threshold_does_not_match() {
    let v = window();
    assert_empty(&PathScore::new(&v.graph, vec![1], &haplotype(8, &[B]), &params()));
    let mut kd = params();
    kd.seqsim = Similarity::zero();
    let s = PathScore::new(&v.graph, vec![1], &haplotype(8, &[B]), &kd);
    assert_eq!(s.path, vec![1]);
    assert!(s.sizesim.is_one_value());
    assert!(s.seqsim.is_zero_value());
}

#[test]
fn the_empty_path_matches_no_haplotype_with_sequence() {
    let v = window();
    assert_empty(&PathScore::new(&v.graph, vec![], &haplotype(8, &[A]), &params()));
    assert_empty(&PathScore::new(&v.graph, vec![0, 4], &haplotype(8, &[A]), &params()));
}

#[test]
fn the_best_decomposition_gives_the_score_and_its_weight() {
    let v = window();
    let mut hap = haplotype(16, &[A, C]);
    let half = Similarity::new(1, 2).unwrap();
    hap.parts = vec![
        HaplotypePart { size: 8, kfeat: profile(&[C]), weight: half },
        HaplotypePart { size: 8, kfeat: profile(&[A]), weight: Similarity::new(1, 4).unwrap() },
    ];
    // the node of C matches the first part only
    let s = PathScore::new(&v.graph, vec![3], &hap, &params());
    assert!(s.is_perfect());
    assert_eq!((s.align_pct.num, s.align_pct.den_sq), (1, 4));
    assert!(s.align_pct.same_as(&half));
    // the nodes of A and C match the whole haplotype
    let s = PathScore::new(&v.graph, vec![1, 3], &hap, &params());
    assert!(s.is_perfect());
    assert!(s.align_pct.is_one_value());
    // the node of B matches nothing
    assert_empty(&PathScore::new(&v.graph, vec![2], &hap, &params()));
}

#[test]
fn of_equal_decompositions_the_first_gives_the_weight() {
    let v = window();
    let mut hap = haplotype(8, &[A]);
    hap.parts = vec![HaplotypePart { size: 8, kfeat: profile(&[A]), weight: Similarity::new(1, 2).unwrap() }];
    let s = PathScore::new(&v.graph, vec![1], &hap, &params());
    assert!(s.align_pct.is_one_value());
}

#[test]
fn a_haplotype_lists_itself_and_its_parts() {
    let mut hap = haplotype(16, &[A, C]);
    hap.parts = vec![HaplotypePart { size: 8, kfeat: profile(&[C]), weight: Similarity::new(1, 2).unwrap() }];
    assert!(hap.is_valid());
    let all = hap.partial_haplotypes();
    assert_eq!(all.len(), 2);
    assert_eq!(all[0].size, 16);
    assert_eq!(all[0].kfeat, profile(&[A, C]));
    assert!(all[0].weight.is_one_value());
    assert_eq!(all[1].size, 8);
    assert_eq!(all[1].kfeat, profile(&[C]));
    assert_eq!((all[1].weight.num, all[1].weight.den_sq), (1, 4));
    let (size, kfeat, weight) = hap.decomposition_at(1);
    assert_eq!(size, 8);
    assert_eq!(*kfeat, profile(&[C]));
    assert_eq!((weight.num, weight.den_sq), (1, 4));
    hap.parts[0].weight = Similarity { num: 3, den_sq: 4 };
    assert!(!hap.is_valid());
}

#[test]
fn scores_are_ordered_by_size_similarity_then_by_sequence_similarity() {
    let score = |size: (u64, u64), seq: (u64, u64)| PathScore {
        sizesim: Similarity::new(size.0, size.1).unwrap(),
        seqsim: Similarity::new(seq.0, seq.1).unwrap(),
        coverage: None,
        path: vec![],
        align_pct: Similarity::zero(),
    };
    let ordered = [
        score((0, 1), (0, 1)),
        score((0, 1), (1, 1)),
        score((1, 2), (1, 3)),
        score((1, 2), (1, 2)),
        score((9, 10), (0, 1)),
        score((1, 1), (9, 10)),
        score((1, 1), (1, 1)),
    ];
    for i in 0..ordered.len() {
        for j in 0..ordered.len() {
            assert_eq!(ordered[i] < ordered[j], i < j);
            assert_eq!(ordered[i] > ordered[j], i > j);
            assert_eq!(ordered[i] == ordered[j], i == j);
            assert_eq!(ordered[i].better_than(&ordered[j]), i > j);
            assert_eq!(ordered[i].same_score(&ordered[j]), i == j);
        }
    }
    for a in ordered.iter() {
        for b in ordered.iter() {
            for c in ordered.iter() {
                if a < b && b < c {
                    assert!(a < c);
                }
            }
        }
    }
}

#[test]
fn scores_are_equal_where_their_similarities_are_the_same_numbers() {
    let a = PathScore {
        sizesim: Similarity::new(1, 2).unwrap(),
        seqsim: Similarity::new(3, 4).unwrap(),
        coverage: Some(3),
        path: vec![1],
        align_pct: Similarity::one(),
    };
    let b = PathScore {
        sizesim: Similarity::new(2, 4).unwrap(),
        seqsim: Similarity::new(6, 8).unwrap(),
        coverage: None,
        path: vec![2, 3],
        align_pct: Similarity::zero(),
    };
    assert!(a == b);
    assert!(!(a < b) && !(a > b));
    assert!(a.same_score(&b));
}

#[test]
fn each_variant_alone_is_compared_with_the_haplotype() {
    let v = window();
    let found = get_one_to_one(&v.graph, &haplotype(8, &[A]), &params());
    assert_eq!(found.len(), 1);
    assert_eq!(found[0].path, vec![1]);
    assert!(found[0].is_perfect());
    // with the sequence threshold at zero the other two match in size
    let mut kd = params();
    kd.seqsim = Similarity::zero();
    let found = get_one_to_one(&v.graph, &haplotype(8, &[A]), &kd);
    assert_eq!(found.len(), 3);
    assert_eq!(found[0].path, vec![1]);
    assert_eq!(found[1].path, vec![2]);
    assert_eq!(found[2].path, vec![3]);
    assert!(found[1].seqsim.is_zero_value());
    // nothing matches a haplotype of another size
    assert!(get_one_to_one(&v.graph, &haplotype(80, &[A]), &params()).is_empty());
}

#[test]
fn a_perfect_match_prunes_all_edges_but_its_own() {
    let v = window();
    let found = get_one_to_one(&v.graph, &haplotype(8, &[B]), &params());
    let skip = prune_graph(&v.graph, &found, 0, 4);
    assert_eq!(skip, vec![(0, 1), (0, 3), (0, 4), (1, 2), (1, 3), (1, 4), (2, 3), (3, 4)]);
    let (best, examined) = brute_force_search(&v.graph, &haplotype(8, &[B]), &params(), &skip);
    assert_eq!(examined, 1);
    assert_eq!(best.path, vec![0, 2, 4]);
    assert!(best.is_perfect());
}

#[test]
fn without_a_perfect_match_nothing_is_pruned() {
    let v = window();
    let mut kd = params();
    kd.seqsim = Similarity::zero();
    kd.sizesim = Similarity::zero();
    let hap = haplotype(9, &[A]);
    let found = get_one_to_one(&v.graph, &hap, &kd);
    assert_eq!(found.len(), 3);
    assert!(prune_graph(&v.graph, &found, 0, 4).is_empty());
    assert!(prune_graph(&v.graph, &vec![], 0, 4).is_empty());
}

#[test]
fn the_search_goes_through_every_path() {
    let v = window();
    let mut kd = params();
    kd.sizesim = Similarity::zero();
    kd.seqsim = Similarity::zero();
    // three variants that all fit together: eight sets of them
    let (_, examined) = brute_force_search(&v.graph, &haplotype(16, &[A, C]), &kd, &vec![]);
    assert_eq!(examined, 8);
    // two of three overlap: src-1-3, src-2-3, src-1, src-2, src-3, src
    let w = Variants::new(
        vec![
            VariantRecord { end: 25, ..insertion(10, A) },
            VariantRecord { end: 25, ..insertion(20, B) },
            insertion(30, C),
        ],
        2,
    )
    .unwrap();
    let (_, examined) = brute_force_search(&w.graph, &haplotype(16, &[A, C]), &kd, &vec![]);
    assert_eq!(examined, 6);
}

#[test]
fn the_search_finds_the_set_of_variants_that_is_the_haplotype() {
    let v = window();
    let hap = haplotype(16, &[A, C]);
    let best = brute_force_find_path(&v.graph, &hap, &params(), &vec![]);
    assert_eq!(best.path, vec![0, 1, 3, 4]);
    assert!(best.sizesim.is_one_value());
    assert!(best.seqsim.is_one_value());
    assert_eq!(best.coverage, None);
    let all = brute_force_find_path(&v.graph, &haplotype(24, &[A, B, C]), &params(), &vec![]);
    assert_eq!(all.path, vec![0, 1, 2, 3, 4]);
    assert!(all.is_perfect());
}

#[test]
fn the_search_ends_after_the_given_number_of_paths() {
    let v = window();
    let hap = haplotype(16, &[A, C]);
    // the paths come as 0-1-2-3-4, 0-1-2-4, 0-1-3-4, ..: the third is the match
    for cap in 0..3 {
        let mut kd = params();
        kd.maxpaths = cap;
        let (best, examined) = brute_force_search(&v.graph, &hap, &kd, &vec![]);
        assert_eq!(examined, cap);
        assert_empty(&best);
    }
    for cap in 3..10 {
        let mut kd = params();
        kd.maxpaths = cap;
        let (best, examined) = brute_force_search(&v.graph, &hap, &kd, &vec![]);
        assert_eq!(examined, if cap < 8 { cap } else { 8 });
        assert_eq!(best.path, vec![0, 1, 3, 4]);
        assert!(best.is_perfect());
    }
}

#[test]
fn of_equal_paths_the_first_is_returned() {
    // two insertions of one sequence at one place: either explains the haplotype
    let w = Variants::new(vec![insertion(10, A), insertion(10, A)], 2).unwrap();
    let best = brute_force_find_path(&w.graph, &haplotype(8, &[A]), &params(), &vec![]);
    assert_eq!(best.path, vec![0, 1, 3]);
    assert!(best.is_perfect());
}

#[test]
fn skipped_edges_are_not_passed() {
    let v = window();
    let hap = haplotype(16, &[A, C]);
    let (best, examined) = brute_force_search(&v.graph, &hap, &params(), &vec![(1, 3)]);
    // 0-1-2-3-4, 0-1-2-4, 0-1-4, 0-2-3-4, 0-2-4, 0-3-4, 0-4
    assert_eq!(examined, 7);
    assert_empty(&best);
    let (_, examined) = brute_force_search(&v.graph, &hap, &params(), &vec![(0, 1), (0, 2), (0, 3), (0, 4)]);
    assert_eq!(examined, 0);
}

#[test]
fn a_haplotype_without_events_gets_its_coverage_and_no_path() {
    let v = window();
    let mut hap = haplotype(16, &[A, C]);
    hap.n = 0;
    for (prune, try_exact) in [(false, false), (true, false), (false, true), (true, true)] {
        let mut kd = params();
        kd.prune = prune;
        kd.try_exact = try_exact;
        let s = v.apply_coverage(&hap, &kd);
        assert_empty(&s);
        assert_eq!(s.coverage, Some(17));
    }
}

#[test]
fn the_exact_search_returns_the_best_single_variant() {
    let v = window();
    let mut kd = params();
    kd.try_exact = true;
    let s = v.apply_coverage(&haplotype(8, &[C]), &kd);
    assert_eq!(s.path, vec![3]);
    assert!(s.is_perfect());
    assert_eq!(s.coverage, Some(17));
    // two variants together are not found by it
    let s = v.apply_coverage(&haplotype(16, &[A, C]), &kd);
    assert_empty(&s);
    assert_eq!(s.coverage, Some(17));
    // of several matches the best is returned
    kd.sizesim = Similarity::zero();
    kd.seqsim = Similarity::zero();
    let s = v.apply_coverage(&haplotype(8, &[B]), &kd);
    assert_eq!(s.path, vec![2]);
    assert!(s.is_perfect());
}

#[test]
fn the_full_search_returns_the_best_path_with_the_coverage() {
    let v = window();
    let s = v.apply_coverage(&haplotype(16, &[A, C]), &params());
    assert_eq!(s.path, vec![0, 1, 3, 4]);
    assert!(s.sizesim.is_one_value());
    assert!(s.seqsim.is_one_value());
    assert_eq!(s.coverage, Some(17));
    let s = v.apply_coverage(&haplotype(160, &[A, C]), &params());
    assert_empty(&s);
    assert_eq!(s.coverage, Some(17));
}

#[test]
fn pruning_never_gives_a_worse_score() {
    let sequences = [A, B, C];
    let v = window();
    // every set of the three variants as the haplotype, and some that are none
    let mut haplotypes = Vec::new();
    for set in 1..8usize {
        let chosen: Vec<&str> = (0..3).filter(|i| set & (1 << i) != 0).map(|i| sequences[i]).collect();
        haplotypes.push(haplotype(8 * chosen.len() as i64, &chosen));
        haplotypes.push(haplotype(8 * chosen.len() as i64 + 1, &chosen));
    }
    haplotypes.push(haplotype(8, &["ACGTACGA"]));
    for hap in haplotypes.iter() {
        for cap in [0, 1, 2, 1000] {
            for threshold in [Similarity::zero(), Similarity::new(9, 10).unwrap()] {
                let mut kd = params();
                kd.maxpaths = cap;
                kd.sizesim = threshold;
                kd.seqsim = threshold;
                let full = v.apply_coverage(hap, &kd);
                kd.prune = true;
                let pruned = v.apply_coverage(hap, &kd);
                assert!(!(pruned < full));
                assert_eq!(pruned.coverage, Some(17));
            }
        }
    }
}

#[test]
fn pruning_cuts_the_search_down_to_a_perfect_match() {
    let v = window();
    let mut kd = params();
    kd.prune = true;
    let s = v.apply_coverage(&haplotype(8, &[B]), &kd);
    assert_eq!(s.path, vec![0, 2, 4]);
    assert!(s.is_perfect());
    assert_eq!(s.coverage, Some(17));
    // without it the search comes to the same path later
    kd.prune = false;
    let s = v.apply_coverage(&haplotype(8, &[B]), &kd);
    assert_eq!(s.path, vec![0, 2, 4]);
    // and misses it under a cap that the pruned search stays within
    kd.maxpaths = 1;
    assert_empty(&v.apply_coverage(&haplotype(8, &[B]), &kd));
    kd.prune = true;
    assert!(v.apply_coverage(&haplotype(8, &[B]), &kd).is_perfect());
}
