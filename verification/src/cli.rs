//! The parameters of a run.

use vstd::prelude::*;
use crate::kmer::valid_kmer;
use crate::similarity::Similarity;
use std::path::PathBuf;

verus! {

/// `std::path::PathBuf`, carried through and never looked into.
#[verifier::external_type_specification]
#[verifier::external_body]
pub struct ExPathBuf(PathBuf);

/// Where the input is read from and the output goes.
#[derive(Debug)]
pub struct IOParams {
    /// VCF to genotype
    pub input: PathBuf,
    /// Reads to genotype
    pub bam: PathBuf,
    /// Reference bam is aligned to
    pub reference: PathBuf,
    /// Output vcf (unsorted)
    pub out: PathBuf,
    /// Regions to analyze
    pub bed: Option<PathBuf>,
    /// Sample to apply genotypes to, default first column
    pub sample: Option<String>,
}

/// How variants are screened, featurized and matched.
#[derive(Clone, Copy, Debug)]
pub struct KDParams {
    /// Kmer size for featurization
    pub kmer: u8,
    /// Minimum distance between variants to create independent graphs
    pub chunksize: u64,
    /// Only analyze variants with PASS FILTER
    pub passonly: bool,
    /// Minimum size of variant to analyze
    pub sizemin: u64,
    /// Maximum size of variant to analyze
    pub sizemax: u64,
    /// Maximum number of paths in a graph to traverse
    pub maxpaths: usize,
    /// Minimum size similarity for paths
    pub sizesim: Similarity,
    /// Minimum sequence similarity for paths
    pub seqsim: Similarity,
    /// Minimum frequency of a kmer to count
    pub minkfreq: u64,
    /// Prune the graph with the one-to-one matches before searching it
    pub prune: bool,
    /// Consider the one-to-one matches only
    pub try_exact: bool,
}

impl KDParams {
    /// The word length is one that profiles can be held for, and the two
    /// thresholds are similarities.
    pub open spec fn wf(self) -> bool {
        &&& valid_kmer(self.kmer)
        &&& self.sizesim.wf()
        &&& self.seqsim.wf()
    }

    /// Whether the parameters are well formed.
    pub fn is_valid(&self) -> (r: bool)
        ensures
            r == self.wf(),
    {
        crate::kmer::kmer_in_range(self.kmer) && self.sizesim.is_valid() && self.seqsim.is_valid()
    }
}

impl Default for KDParams {
    /// Words of four letters, variants of 20 to 50000 bases, at most 1000
    /// paths, and both thresholds at nine tenths.
    fn default() -> (r: KDParams)
        ensures
            r.wf(),
            r.kmer == 4,
            r.chunksize == 100,
            !r.passonly,
            r.sizemin == 20,
            r.sizemax == 50000,
            r.maxpaths == 1000,
            r.sizesim == (Similarity { num: 9, den_sq: 100 }),
            r.seqsim == (Similarity { num: 9, den_sq: 100 }),
            r.minkfreq == 1,
            !r.prune,
            !r.try_exact,
    {
        let threshold = Similarity { num: 9, den_sq: 100 };
        assert(threshold.wf()) by (nonlinear_arith)
            requires
                threshold.num == 9,
                threshold.den_sq == 100,
        ;
        KDParams {
            kmer: 4,
            chunksize: 100,
            passonly: false,
            sizemin: 20,
            sizemax: 50000,
            maxpaths: 1000,
            sizesim: threshold,
            seqsim: threshold,
            minkfreq: 1,
            prune: false,
            try_exact: false,
        }
    }
}

/// All the parameters of a run.
#[derive(Debug)]
pub struct ArgParser {
    pub io: IOParams,
    pub kd: KDParams,
}

/// What is wrong, or unwise, about a set of parameters.
#[derive(Clone, Copy, Debug, PartialEq, Eq, Structural)]
pub enum Finding {
    /// `--input` does not exist
    MissingInput,
    /// `--bam` does not exist
    MissingBam,
    /// `--reference` does not exist
    MissingReference,
    /// `--bed` was given and does not exist
    MissingBed,
    /// `--sizemin` is recommended to be at least 20
    SmallSizeMin,
    /// `--kmer` above 8 becomes memory intensive
    LargeKmer,
}

/// Which of the files that the parameters name were found.
#[derive(Clone, Copy, Debug)]
pub struct FilesFound {
    pub input: bool,
    pub bam: bool,
    pub reference: bool,
    /// Looked at only where `--bed` was given.
    pub bed: bool,
}

impl ArgParser {
    /// The parameters can be run with: every file that must exist was found.
    pub open spec fn acceptable(self, found: FilesFound) -> bool {
        found.input && found.bam && found.reference && (self.io.bed is Some ==> found.bed)
    }

    /// The findings on these parameters, in the order in which they are
    /// reported.
    pub open spec fn findings(self, found: FilesFound) -> Seq<Finding> {
        (if found.input { seq![] } else { seq![Finding::MissingInput] })
        + (if found.bam { seq![] } else { seq![Finding::MissingBam] })
        + (if found.reference { seq![] } else { seq![Finding::MissingReference] })
        + (if self.io.bed is Some && !found.bed { seq![Finding::MissingBed] } else { seq![] })
        + (if self.kd.sizemin < 20 { seq![Finding::SmallSizeMin] } else { seq![] })
        + (if self.kd.kmer > 8 { seq![Finding::LargeKmer] } else { seq![] })
    }

    /// Validate command line arguments, given which files were found.
    pub fn validate(&self, found: &FilesFound) -> (is_ok: bool)
        ensures
            is_ok == self.acceptable(*found),
    {
        let mut is_ok = true;
        if !found.input {
            is_ok = false;
        }
        if !found.bam {
            is_ok = false;
        }
        if !found.reference {
            is_ok = false;
        }
        if self.io.bed.is_some() && !found.bed {
            is_ok = false;
        }
        is_ok
    }

    /// Everything there is to tell the user about these parameters.
    pub fn report(&self, found: &FilesFound) -> (r: Vec<Finding>)
        ensures
            r@ == self.findings(*found),
    {
        let mut r: Vec<Finding> = Vec::new();
        if !found.input {
            r.push(Finding::MissingInput);
        }
        if !found.bam {
            r.push(Finding::MissingBam);
        }
        if !found.reference {
            r.push(Finding::MissingReference);
        }
        if self.io.bed.is_some() && !found.bed {
            r.push(Finding::MissingBed);
        }
        if self.kd.sizemin < 20 {
            r.push(Finding::SmallSizeMin);
        }
        if self.kd.kmer > 8 {
            r.push(Finding::LargeKmer);
        }
        assert(r@ =~= self.findings(*found));
        r
    }
}

impl Finding {
    /// Whether the run cannot start with this finding.
    pub fn is_fatal(&self) -> (r: bool)
        ensures
            r == !(*self == Finding::SmallSizeMin || *self == Finding::LargeKmer),
    {
        match self {
            Finding::SmallSizeMin => false,
            Finding::LargeKmer => false,
            _ => true,
        }
    }
}

} // verus!
