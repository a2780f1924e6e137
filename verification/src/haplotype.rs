//! The evidence that the reads give for one window.

use vstd::prelude::*;
use crate::similarity::Similarity;

verus! {

/// One way of reading part of a haplotype's signal: a size, a k-mer profile,
/// and the fraction of the whole haplotype that it stands for.
#[derive(Clone, Debug)]
pub struct HaplotypePart {
    pub size: i64,
    pub kfeat: Vec<u64>,
    pub weight: Similarity,
}

/// The observed change of sequence in a window.
#[derive(Clone, Debug)]
pub struct Haplotype {
    /// Net size of the change: positive where sequence is gained.
    pub size: i64,
    /// Number of variant-like events that make up the haplotype; 0 where the
    /// reads show the reference.
    pub n: u64,
    /// Number of reads that support the haplotype.
    pub coverage: u64,
    /// K-mer profile of the changed sequence.
    pub kfeat: Vec<u64>,
    /// Other readings of the signal, as for a mixture of two alleles.
    pub parts: Vec<HaplotypePart>,
}

/// What a path is compared with.
pub struct Decomposition {
    pub size: i64,
    pub profile: Seq<u64>,
    pub weight: Similarity,
}

impl HaplotypePart {
    /// The part as a decomposition.
    pub open spec fn decomposition(self) -> Decomposition {
        Decomposition { size: self.size, profile: self.kfeat@, weight: self.weight }
    }
}

impl Haplotype {
    /// Every weight is a fraction.
    pub open spec fn wf(self) -> bool {
        forall|i: int| 0 <= i < self.parts@.len() ==> (#[trigger] self.parts@[i]).weight.wf()
    }

    /// The haplotype as a whole, with weight 1.
    pub open spec fn whole(self) -> Decomposition {
        Decomposition { size: self.size, profile: self.kfeat@, weight: Similarity::spec_one() }
    }

    /// The decompositions of the haplotype: the whole first, then its parts in
    /// their order.
    pub open spec fn decompositions(self) -> Seq<Decomposition> {
        Seq::new(
            (self.parts@.len() + 1) as nat,
            |i: int|
                if i == 0 {
                    self.whole()
                } else {
                    self.parts@[i - 1].decomposition()
                },
        )
    }

    /// Whether the haplotype is well formed.
    pub fn is_valid(&self) -> (r: bool)
        ensures
            r == self.wf(),
    {
        let mut i: usize = 0;
        while i < self.parts.len()
            invariant
                i <= self.parts@.len(),
                forall|j: int| 0 <= j < i ==> (#[trigger] self.parts@[j]).weight.wf(),
            decreases self.parts@.len() - i,
        {
            if !self.parts[i].weight.is_valid() {
                return false;
            }
            i += 1;
        }
        true
    }

    /// Size, profile and weight of the decomposition at `i`.
    pub fn decomposition_at(&self, i: usize) -> (r: (i64, &Vec<u64>, Similarity))
        requires
            i < self.decompositions().len(),
        ensures
            r.0 == self.decompositions()[i as int].size,
            r.1@ == self.decompositions()[i as int].profile,
            r.2 == self.decompositions()[i as int].weight,
    {
        if i == 0 {
            (self.size, &self.kfeat, Similarity::one())
        } else {
            let part = &self.parts[i - 1];
            (part.size, &part.kfeat, part.weight)
        }
    }

    /// The decompositions of the haplotype, each with its weight: the whole
    /// first, then its parts in their order.
    pub fn partial_haplotypes(&self) -> (r: Vec<HaplotypePart>)
        ensures
            r@.len() == self.decompositions().len(),
            forall|i: int|
                0 <= i < r@.len() ==> (#[trigger] r@[i]).decomposition() == self.decompositions()[i],
    {
        let mut r: Vec<HaplotypePart> = Vec::new();
        r.push(HaplotypePart { size: self.size, kfeat: self.kfeat.clone(), weight: Similarity::one() });
        let mut i: usize = 0;
        while i < self.parts.len()
            invariant
                i <= self.parts@.len(),
                r@.len() == i + 1,
                forall|j: int|
                    0 <= j < r@.len() ==> (#[trigger] r@[j]).decomposition() == self.decompositions()[j],
            decreases self.parts@.len() - i,
        {
            let part = &self.parts[i];
            r.push(HaplotypePart { size: part.size, kfeat: part.kfeat.clone(), weight: part.weight });
            i += 1;
        }
        r
    }
}

} // verus!
