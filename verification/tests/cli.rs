use kanpig::cli::{ArgParser, FilesFound, Finding, IOParams, KDParams};
use kanpig::chunker::{filter_entry, next_step, starts_new_chunk, ReadEvent, ReadStep};
use kanpig::record::{entry_is_filtered, entry_size, VariantRecord};
use kanpig::similarity::Similarity;
use std::path::PathBuf;

fn parser(bed: Option<&str>, kd: KDParams) -> ArgParser {
    ArgParser {
        io: IOParams {
            input: PathBuf::from("in.vcf"),
            bam: PathBuf::from("reads.bam"),
            reference: PathBuf::from("ref.fa"),
            out: PathBuf::from("out.vcf"),
            bed: bed.map(PathBuf::from),
            sample: None,
        },
        kd,
    }
}

fn all_found() -> FilesFound {
    FilesFound { input: true, bam: true, reference: true, bed: true }
}

fn record(reference: &str, alternate: &str, filtered: bool) -> VariantRecord {
    VariantRecord {
        chrom: "chr1".to_string(),
        start: 100,
        end: 101,
        reference: reference.as_bytes().to_vec(),
        alternate: alternate.as_bytes().to_vec(),
        filtered,
    }
}

#[test]
fn the_default_parameters() {
    let kd = KDParams::default();
    assert_eq!(kd.kmer, 4);
    assert_eq!(kd.chunksize, 100);
    assert!(!kd.passonly);
    assert_eq!(kd.sizemin, 20);
    assert_eq!(kd.sizemax, 50000);
    assert_eq!(kd.maxpaths, 1000);
    assert!(kd.sizesim.same_as(&Similarity::new(9, 10).unwrap()));
    assert!(kd.seqsim.same_as(&Similarity::new(9, 10).unwrap()));
    assert!(!kd.prune);
    assert!(!kd.try_exact);
    assert!(kd.is_valid());
}

#[test]
fn parameters_with_a_bad_word_length_or_threshold_are_not_valid() {
    let mut kd = KDParams::default();
    kd.kmer = 0;
    assert!(!kd.is_valid());
    kd.kmer = 16;
    assert!(!kd.is_valid());
    kd.kmer = 15;
    assert!(kd.is_valid());
    kd.seqsim = Similarity { num: 2, den_sq: 1 };
    assert!(!kd.is_valid());
}

#[test]
fn parameters_are_accepted_where_the_files_exist() {
    let args = parser(None, KDParams::default());
    assert!(args.validate(&all_found()));
    assert!(args.report(&all_found()).is_empty());
}

#[test]
fn each_missing_file_is_reported() {
    let args = parser(Some("regions.bed"), KDParams::default());
    let found = FilesFound { input: false, bam: false, reference: false, bed: false };
    assert!(!args.validate(&found));
    assert_eq!(
        args.report(&found),
        vec![
            Finding::MissingInput,
            Finding::MissingBam,
            Finding::MissingReference,
            Finding::MissingBed
        ]
    );
    for only in 0..3 {
        let found = FilesFound { input: only != 0, bam: only != 1, reference: only != 2, bed: true };
        assert!(!args.validate(&found));
        assert_eq!(args.report(&found).len(), 1);
    }
}

#[test]
fn the_regions_are_looked_at_only_where_they_are_given() {
    let found = FilesFound { input: true, bam: true, reference: true, bed: false };
    assert!(parser(None, KDParams::default()).validate(&found));
    assert!(!parser(Some("regions.bed"), KDParams::default()).validate(&found));
    assert_eq!(
        parser(Some("regions.bed"), KDParams::default()).report(&found),
        vec![Finding::MissingBed]
    );
}

#[test]
fn unwise_parameters_are_reported_and_accepted() {
    let mut kd = KDParams::default();
    kd.sizemin = 19;
    kd.kmer = 8;
    let args = parser(None, kd);
    assert!(args.validate(&all_found()));
    assert_eq!(args.report(&all_found()), vec![Finding::SmallSizeMin]);
    kd.kmer = 9;
    let args = parser(None, kd);
    assert!(args.validate(&all_found()));
    assert_eq!(args.report(&all_found()), vec![Finding::SmallSizeMin, Finding::LargeKmer]);
    kd.sizemin = 20;
    assert_eq!(parser(None, kd).report(&all_found()), vec![Finding::LargeKmer]);
    kd.kmer = 8;
    assert!(parser(None, kd).report(&all_found()).is_empty());
}

#[test]
fn words_of_eight_letters_get_no_warning() {
    let mut kd = KDParams::default();
    kd.kmer = 8;
    let args = parser(None, kd);
    assert!(args.validate(&all_found()));
    assert!(args.report(&all_found()).is_empty());
    for kmer in 9..=15 {
        kd.kmer = kmer;
        assert_eq!(parser(None, kd).report(&all_found()), vec![Finding::LargeKmer]);
    }
    for kmer in 1..=8 {
        kd.kmer = kmer;
        assert!(parser(None, kd).report(&all_found()).is_empty());
    }
}

#[test]
fn a_missing_file_is_fatal_and_a_warning_is_not() {
    assert!(Finding::MissingInput.is_fatal());
    assert!(Finding::MissingBam.is_fatal());
    assert!(Finding::MissingReference.is_fatal());
    assert!(Finding::MissingBed.is_fatal());
    assert!(!Finding::SmallSizeMin.is_fatal());
    assert!(!Finding::LargeKmer.is_fatal());
}

#[test]
fn the_size_of_a_record_is_the_difference_of_its_alleles() {
    assert_eq!(entry_size(&record("A", "ACGTA", false)), 4);
    assert_eq!(entry_size(&record("ACGTA", "A", false)), 4);
    assert_eq!(entry_size(&record("A", "C", false)), 0);
}

#[test]
fn records_are_kept_by_size() {
    let mut kd = KDParams::default();
    kd.sizemin = 3;
    kd.sizemax = 5;
    assert!(!filter_entry(&record("A", "ACG", false), &kd));
    assert!(filter_entry(&record("A", "ACGT", false), &kd));
    assert!(filter_entry(&record("A", "ACGTAC", false), &kd));
    assert!(!filter_entry(&record("A", "ACGTACG", false), &kd));
    assert!(filter_entry(&record("ACGTAC", "A", false), &kd));
}

#[test]
fn filtered_records_are_dropped_only_where_passing_ones_are_wanted() {
    let mut kd = KDParams::default();
    kd.sizemin = 1;
    let filtered = record("A", "ACGT", true);
    assert!(entry_is_filtered(&filtered));
    assert!(!entry_is_filtered(&record("A", "ACGT", false)));
    assert!(filter_entry(&filtered, &kd));
    kd.passonly = true;
    assert!(!filter_entry(&filtered, &kd));
    assert!(filter_entry(&record("A", "ACGT", false), &kd));
}

#[test]
fn the_profile_of_a_record_is_that_of_its_changed_sequence() {
    // the insertion adds CGT behind the first base
    let ins = record("A", "ACGT", false);
    assert!(ins.is_valid());
    assert_eq!(ins.boundaries(), (100, 101));
    let (kfeat, size) = ins.to_kfeat(1);
    assert_eq!(size, 3);
    assert_eq!(kfeat, vec![0, 1, 1, 1]);
    // the deletion removes the same
    let del = record("ACGT", "A", false);
    let (kfeat, size) = del.to_kfeat(1);
    assert_eq!(size, -3);
    assert_eq!(kfeat, vec![0, 1, 1, 1]);
    // alleles of one length change no sequence
    let (kfeat, size) = record("AC", "GT", false).to_kfeat(1);
    assert_eq!(size, 0);
    assert_eq!(kfeat, vec![0, 0, 0, 0]);
}

#[test]
fn the_stream_ends_with_the_input_and_with_a_failure_to_read() {
    let kd = KDParams::default();
    assert!(matches!(next_step(ReadEvent::End, &kd), ReadStep::Stop));
    assert!(matches!(next_step(ReadEvent::Failed, &kd), ReadStep::Stop));
}

#[test]
fn a_record_is_handed_on_or_passed_over() {
    let mut kd = KDParams::default();
    kd.sizemin = 3;
    kd.sizemax = 5;
    match next_step(ReadEvent::Record(record("A", "ACGT", false)), &kd) {
        ReadStep::Yield(kept) => assert_eq!(kept.alternate, b"ACGT".to_vec()),
        _ => panic!("the record is to be kept"),
    }
    assert!(matches!(next_step(ReadEvent::Record(record("A", "AC", false)), &kd), ReadStep::Skip));
    kd.passonly = true;
    assert!(matches!(next_step(ReadEvent::Record(record("A", "ACGT", true)), &kd), ReadStep::Skip));
}

#[test]
fn a_record_on_another_chromosome_begins_a_window() {
    let kd = KDParams::default();
    let entry = record("A", "ACGT", false);
    assert!(starts_new_chunk(&"chr2".to_string(), 100, &entry, &kd));
    assert!(!starts_new_chunk(&"chr1".to_string(), 100, &entry, &kd));
}

#[test]
fn a_record_far_behind_the_window_begins_a_new_one() {
    let kd = KDParams::default();
    let chrom = "chr1".to_string();
    // the record starts at 100 and windows are kept 100 positions apart
    let entry = record("A", "ACGT", false);
    assert!(starts_new_chunk(&chrom, 0, &entry, &kd));
    assert!(!starts_new_chunk(&chrom, 1, &entry, &kd));
    assert!(!starts_new_chunk(&chrom, 100, &entry, &kd));
    assert!(!starts_new_chunk(&chrom, 500, &entry, &kd));
    let mut wide = kd;
    wide.chunksize = u64::MAX;
    assert!(!starts_new_chunk(&chrom, 1, &entry, &wide));
    wide.chunksize = 0;
    assert!(starts_new_chunk(&chrom, 100, &entry, &wide));
    assert!(!starts_new_chunk(&chrom, 101, &entry, &wide));
}
