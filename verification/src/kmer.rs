//! K-mer profiles of nucleotide sequences.
//!
//! A profile counts, for every word of `k` nucleotides, how often it occurs in a
//! sequence. Words are numbered in base 4 with `A = 0`, `C = 1`, `G = 2`,
//! `T = 3`, the first letter being the most significant digit. A stretch of the
//! sequence that holds any other byte is no nucleotide word and is not counted.

use vstd::prelude::*;
use vstd::slice::slice_index_get;

verus! {

/// The longest word for which a profile can be held: `4^15` counts.
pub const MAX_KMER: u8 = 15;

/// A word has at least one letter and at most `MAX_KMER`.
pub open spec fn valid_kmer(kmer: u8) -> bool {
    1 <= kmer <= MAX_KMER
}

/// Whether profiles can be held for words of `kmer` letters.
pub fn kmer_in_range(kmer: u8) -> (r: bool)
    ensures
        r == valid_kmer(kmer),
{
    1 <= kmer && kmer <= MAX_KMER
}

/// The number of words of `k` nucleotides.
pub open spec fn pow4(k: nat) -> nat
    decreases k,
{
    if k == 0 {
        1
    } else {
        4 * pow4((k - 1) as nat)
    }
}

/// The digit of a nucleotide, in either case.
pub open spec fn base_code(b: u8) -> Option<int> {
    if b == 0x41 || b == 0x61 {
        Some(0)
    } else if b == 0x43 || b == 0x63 {
        Some(1)
    } else if b == 0x47 || b == 0x67 {
        Some(2)
    } else if b == 0x54 || b == 0x74 {
        Some(3)
    } else {
        None
    }
}

/// The number of the word of `k` letters that starts at `start`, if these are
/// all nucleotides.
pub open spec fn word_code(s: Seq<u8>, start: int, k: nat) -> Option<int>
    decreases k,
{
    if k == 0 {
        Some(0)
    } else {
        match (word_code(s, start, (k - 1) as nat), base_code(s[start + k - 1])) {
            (Some(p), Some(c)) => Some(4 * p + c),
            _ => None,
        }
    }
}

/// The number of places at which a word of `k` letters can start.
pub open spec fn word_starts(s: Seq<u8>, k: nat) -> int {
    if s.len() < k {
        0
    } else {
        s.len() - k + 1
    }
}

/// How many of the first `upto` places start the word with number `w`.
pub open spec fn count_word(s: Seq<u8>, k: nat, w: int, upto: int) -> int
    decreases upto,
{
    if upto <= 0 {
        0
    } else {
        count_word(s, k, w, upto - 1) + if word_code(s, upto - 1, k) == Some(w) {
            1int
        } else {
            0int
        }
    }
}

/// The k-mer profile of a sequence.
pub open spec fn kmer_profile(s: Seq<u8>, k: nat) -> Seq<u64> {
    Seq::new(pow4(k), |w: int| count_word(s, k, w, word_starts(s, k)) as u64)
}

/// The profile without any count, as the anchors of a graph have it.
pub open spec fn zero_profile(k: nat) -> Seq<u64> {
    Seq::new(pow4(k), |w: int| 0u64)
}

/// Up to the longest word, the number of words fits in 32 bits.
pub proof fn lemma_pow4_bound(k: nat)
    requires
        k <= MAX_KMER,
    ensures
        0 < pow4(k) <= 0x4000_0000,
    decreases MAX_KMER - k,
{
    if k == MAX_KMER {
        assert(pow4(15) == 0x4000_0000) by {
            reveal_with_fuel(pow4, 16);
        }
    } else {
        lemma_pow4_bound(k + 1);
    }
}

/// The number of a word of `k` letters is below `4^k`.
pub proof fn lemma_word_code_range(s: Seq<u8>, start: int, k: nat)
    ensures
        word_code(s, start, k) matches Some(w) ==> 0 <= w < pow4(k),
    decreases k,
{
    if k > 0 {
        lemma_word_code_range(s, start, (k - 1) as nat);
    }
}

/// A word is counted at most once for each place.
pub proof fn lemma_count_word_range(s: Seq<u8>, k: nat, w: int, upto: int)
    requires
        0 <= upto,
    ensures
        0 <= count_word(s, k, w, upto) <= upto,
    decreases upto,
{
    if upto > 0 {
        lemma_count_word_range(s, k, w, upto - 1);
    }
}

/// The digit of a nucleotide.
fn encode_base(b: u8) -> (r: Option<usize>)
    ensures
        r is Some <==> base_code(b) is Some,
        r matches Some(c) ==> base_code(b) == Some(c as int),
{
    if b == 0x41 || b == 0x61 {
        Some(0)
    } else if b == 0x43 || b == 0x63 {
        Some(1)
    } else if b == 0x47 || b == 0x67 {
        Some(2)
    } else if b == 0x54 || b == 0x74 {
        Some(3)
    } else {
        None
    }
}

/// The number of counts in a profile for words of `kmer` letters.
pub fn profile_len(kmer: u8) -> (r: usize)
    requires
        kmer <= MAX_KMER,
    ensures
        r == pow4(kmer as nat),
{
    let mut len: usize = 1;
    let mut i: u8 = 0;
    while i < kmer
        invariant
            i <= kmer <= MAX_KMER,
            len == pow4(i as nat),
        decreases kmer - i,
    {
        proof {
            lemma_pow4_bound((i + 1) as nat);
        }
        len = len * 4;
        i += 1;
    }
    len
}

/// The number of the word that starts at `start`.
fn word_at(sequence: &[u8], start: usize, kmer: u8) -> (r: Option<usize>)
    requires
        kmer <= MAX_KMER,
        start + kmer <= sequence@.len(),
    ensures
        r is Some <==> word_code(sequence@, start as int, kmer as nat) is Some,
        r matches Some(w) ==> word_code(sequence@, start as int, kmer as nat) == Some(w as int),
{
    let n: usize = sequence.len();
    let mut code: usize = 0;
    let mut j: u8 = 0;
    while j < kmer
        invariant
            j <= kmer <= MAX_KMER,
            start + kmer <= sequence@.len(),
            n == sequence@.len(),
            word_code(sequence@, start as int, j as nat) == Some(code as int),
        decreases kmer - j,
    {
        proof {
            lemma_word_code_range(sequence@, start as int, j as nat);
            lemma_pow4_bound(j as nat);
        }
        match encode_base(*slice_index_get(sequence, start + j as usize)) {
            Some(c) => {
                code = 4 * code + c;
            },
            None => {
                proof {
                    lemma_word_code_none(sequence@, start as int, (j + 1) as nat, kmer as nat);
                }
                return None;
            },
        }
        j += 1;
    }
    Some(code)
}

/// A word that holds another byte than a nucleotide stays without a number
/// however far it is read.
proof fn lemma_word_code_none(s: Seq<u8>, start: int, j: nat, k: nat)
    requires
        j <= k,
        word_code(s, start, j) is None,
    ensures
        word_code(s, start, k) is None,
    decreases k,
{
    if j < k {
        lemma_word_code_none(s, start, j, (k - 1) as nat);
    }
}

/// The k-mer profile of `sequence`.
pub fn seq_to_kmer(sequence: &[u8], kmer: u8) -> (r: Vec<u64>)
    requires
        valid_kmer(kmer),
    ensures
        r@ == kmer_profile(sequence@, kmer as nat),
{
    let len = profile_len(kmer);
    let mut counts: Vec<u64> = vec![0u64; len];
    let ghost k = kmer as nat;
    if sequence.len() < kmer as usize {
        assert(counts@ =~= kmer_profile(sequence@, k));
        return counts;
    }
    let starts: usize = sequence.len() - kmer as usize + 1;
    let mut i: usize = 0;
    while i < starts
        invariant
            i <= starts,
            starts == word_starts(sequence@, k),
            starts == sequence@.len() - kmer + 1,
            k == kmer,
            kmer <= MAX_KMER,
            counts@.len() == pow4(k),
            forall|w: int| 0 <= w < counts@.len() ==> counts@[w] == count_word(sequence@, k, w, i as int),
        decreases starts - i,
    {
        match word_at(sequence, i, kmer) {
            Some(w) => {
                proof {
                    lemma_word_code_range(sequence@, i as int, k);
                    lemma_count_word_range(sequence@, k, w as int, i as int);
                }
                let seen: u64 = counts[w];
                counts.set(w, seen + 1);
            },
            None => {},
        }
        i += 1;
    }
    assert(counts@ =~= kmer_profile(sequence@, k));
    counts
}

/// The profile without any count.
pub fn empty_profile(kmer: u8) -> (r: Vec<u64>)
    requires
        kmer <= MAX_KMER,
    ensures
        r@ == zero_profile(kmer as nat),
{
    let len = profile_len(kmer);
    let counts: Vec<u64> = vec![0u64; len];
    assert(counts@ =~= zero_profile(kmer as nat));
    counts
}

} // verus!
