//! Candidate variants as the graph builder reads them.

use vstd::prelude::*;
use vstd::slice::slice_subrange;
use crate::kmer::{kmer_profile, seq_to_kmer, valid_kmer};

verus! {

/// One candidate variant of a window.
#[derive(Clone, Debug)]
pub struct VariantRecord {
    /// The chromosome that the variant lies on.
    pub chrom: String,
    /// First position of the variant, counted from zero.
    pub start: u64,
    /// The position after its last.
    pub end: u64,
    /// The reference allele.
    pub reference: Vec<u8>,
    /// The alternate allele.
    pub alternate: Vec<u8>,
    /// Whether a filter other than PASS is set on the record.
    pub filtered: bool,
}

impl VariantRecord {
    /// The lengths of both alleles fit in a signed size.
    pub open spec fn wf(self) -> bool {
        self.reference@.len() <= i64::MAX && self.alternate@.len() <= i64::MAX
    }

    /// Length of the alternate allele minus that of the reference allele:
    /// positive where the variant adds sequence, negative where it removes some.
    pub open spec fn signed_size(self) -> int {
        self.alternate@.len() - self.reference@.len()
    }

    /// The number of bases that the variant adds or removes.
    pub open spec fn magnitude(self) -> int {
        if self.signed_size() < 0 {
            -self.signed_size()
        } else {
            self.signed_size()
        }
    }

    /// The sequence that the variant inserts or deletes: what the longer allele
    /// has beyond the length of the shorter one.
    pub open spec fn changed_sequence(self) -> Seq<u8> {
        if self.alternate@.len() >= self.reference@.len() {
            self.alternate@.subrange(self.reference@.len() as int, self.alternate@.len() as int)
        } else {
            self.reference@.subrange(self.alternate@.len() as int, self.reference@.len() as int)
        }
    }

    /// Whether the record is well formed.
    pub fn is_valid(&self) -> (r: bool)
        ensures
            r == self.wf(),
    {
        let limit: u64 = 0x7FFF_FFFF_FFFF_FFFF;
        self.reference.len() as u64 <= limit && self.alternate.len() as u64 <= limit
    }

    /// The half-open interval of the variant.
    pub fn boundaries(&self) -> (r: (u64, u64))
        ensures
            r == (self.start, self.end),
    {
        (self.start, self.end)
    }

    /// The k-mer profile of the changed sequence, and the signed size.
    pub fn to_kfeat(&self, kmer: u8) -> (r: (Vec<u64>, i64))
        requires
            self.wf(),
            valid_kmer(kmer),
        ensures
            r.0@ == kmer_profile(self.changed_sequence(), kmer as nat),
            r.1 == self.signed_size(),
    {
        let ref_len = self.reference.len();
        let alt_len = self.alternate.len();
        if alt_len >= ref_len {
            let changed = slice_subrange(self.alternate.as_slice(), ref_len, alt_len);
            (seq_to_kmer(changed, kmer), (alt_len - ref_len) as i64)
        } else {
            let changed = slice_subrange(self.reference.as_slice(), alt_len, ref_len);
            let removed: i64 = (ref_len - alt_len) as i64;
            (seq_to_kmer(changed, kmer), -removed)
        }
    }
}

/// Whether a filter other than PASS is set on the record.
pub fn entry_is_filtered(entry: &VariantRecord) -> (r: bool)
    ensures
        r == entry.filtered,
{
    entry.filtered
}

/// The number of bases that the variant adds or removes.
pub fn entry_size(entry: &VariantRecord) -> (r: u64)
    ensures
        r == entry.magnitude(),
{
    let ref_len = entry.reference.len();
    let alt_len = entry.alternate.len();
    if alt_len >= ref_len {
        (alt_len - ref_len) as u64
    } else {
        (ref_len - alt_len) as u64
    }
}

} // verus!
