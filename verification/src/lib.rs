//! Re-genotyping of candidate structural variants against read evidence.
//!
//! A window of candidate variants becomes a directed acyclic graph in which an
//! edge joins two variants that can lie on one allele. A path through the graph
//! is a set of variants; it is scored against an observed haplotype by the
//! similarity of their sizes and of their k-mer profiles, and the search returns
//! the best-scoring path.
//!
//! Similarities are exact: no floating point is involved, and every function
//! here is verified against the specification functions named in its contract.

pub mod chunker;
pub mod cli;
pub mod genotype;
pub mod haplotype;
pub mod kmer;
pub mod metrics;
pub mod pathscore;
pub mod record;
pub mod similarity;
pub mod traverse;
pub mod vargraph;
pub mod wide;
