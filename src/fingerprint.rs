use vstd::prelude::*;

verus! {

/// The perceptual hashing algorithm a fingerprint was computed with.
#[derive(Clone, Copy, Debug, PartialEq, Eq, Structural)]
pub enum FuzzyHashAlgorithm {
    AHash,
    DHash,
    PHash,
}

impl FuzzyHashAlgorithm {
    /// The integer under which the algorithm is recorded in the cache.
    pub open spec fn spec_code(self) -> i64 {
        match self {
            FuzzyHashAlgorithm::AHash => 0,
            FuzzyHashAlgorithm::DHash => 1,
            FuzzyHashAlgorithm::PHash => 2,
        }
    }

    pub fn code(self) -> (r: i64)
        ensures
            r == self.spec_code(),
    {
        match self {
            FuzzyHashAlgorithm::AHash => 0,
            FuzzyHashAlgorithm::DHash => 1,
            FuzzyHashAlgorithm::PHash => 2,
        }
    }
}

/// A perceptual fingerprint: an ordered sequence of bits tagged with its algorithm.
#[derive(Clone, Debug)]
pub struct FuzzyHash {
    pub algo: FuzzyHashAlgorithm,
    pub bits: Vec<bool>,
}

/// Number of positions below `n` at which `a` and `b` disagree.
pub open spec fn mismatches(a: Seq<bool>, b: Seq<bool>, n: int) -> nat
    decreases n,
{
    if n <= 0 {
        0
    } else {
        mismatches(a, b, n - 1) + if a[n - 1] != b[n - 1] { 1nat } else { 0nat }
    }
}

pub open spec fn min_len(a: Seq<bool>, b: Seq<bool>) -> int {
    if a.len() <= b.len() { a.len() as int } else { b.len() as int }
}

pub open spec fn max_len(a: Seq<bool>, b: Seq<bool>) -> int {
    if a.len() <= b.len() { b.len() as int } else { a.len() as int }
}

/// Hamming distance over the common prefix plus the difference in length.
pub open spec fn bit_distance(a: Seq<bool>, b: Seq<bool>) -> nat {
    (mismatches(a, b, min_len(a, b)) + (max_len(a, b) - min_len(a, b))) as nat
}

proof fn lemma_mismatches_bounded(a: Seq<bool>, b: Seq<bool>, n: int)
    requires
        n >= 0,
    ensures
        mismatches(a, b, n) <= n,
    decreases n,
{
    if n > 0 {
        lemma_mismatches_bounded(a, b, n - 1);
    }
}

proof fn lemma_mismatches_symmetric(a: Seq<bool>, b: Seq<bool>, n: int)
    ensures
        mismatches(a, b, n) == mismatches(b, a, n),
    decreases n,
{
    if n > 0 {
        lemma_mismatches_symmetric(a, b, n - 1);
    }
}

proof fn lemma_mismatches_self(a: Seq<bool>, n: int)
    ensures
        mismatches(a, a, n) == 0,
    decreases n,
{
    if n > 0 {
        lemma_mismatches_self(a, n - 1);
    }
}

proof fn lemma_mismatches_prefix(a: Seq<bool>, b: Seq<bool>, n: int)
    requires
        0 <= n <= a.len(),
        n <= b.len(),
        forall|i: int| 0 <= i < n ==> a[i] == b[i],
    ensures
        mismatches(a, b, n) == 0,
    decreases n,
{
    if n > 0 {
        lemma_mismatches_prefix(a, b, n - 1);
    }
}

impl FuzzyHash {
    /// Bit distance to `other`, as a 64-bit count.
    pub fn wide_distance(&self, other: &FuzzyHash) -> (r: u64)
        ensures
            r == bit_distance(self.bits@, other.bits@),
    {
        let a = &self.bits;
        let b = &other.bits;
        let min: usize = if a.len() <= b.len() { a.len() } else { b.len() };
        let max: usize = if a.len() <= b.len() { b.len() } else { a.len() };
        let mut diff: u64 = 0;
        let mut idx: usize = 0;
        while idx < min
            invariant
                min == min_len(a@, b@),
                min <= a.len(),
                min <= b.len(),
                min <= max,
                idx <= min,
                diff == mismatches(a@, b@, idx as int),
            decreases min - idx,
        {
            proof {
                lemma_mismatches_bounded(a@, b@, idx as int);
            }
            if a[idx] != b[idx] {
                diff = diff + 1;
            }
            idx = idx + 1;
        }
        proof {
            lemma_mismatches_bounded(a@, b@, min as int);
        }
        diff + (max - min) as u64
    }

    /// Bit distance to `other`: differing bits over the shared prefix, plus
    /// one for every bit that only the longer fingerprint has.
    pub fn distance(&self, other: &FuzzyHash) -> (r: u32)
        requires
            self.bits.len() <= u32::MAX,
            other.bits.len() <= u32::MAX,
        ensures
            r == bit_distance(self.bits@, other.bits@),
    {
        proof {
            lemma_mismatches_bounded(self.bits@, other.bits@, min_len(self.bits@, other.bits@));
        }
        self.wide_distance(other) as u32
    }
}

/// Distance does not depend on the order of its arguments.
pub proof fn lemma_distance_symmetric(a: FuzzyHash, b: FuzzyHash)
    ensures
        bit_distance(a.bits@, b.bits@) == bit_distance(b.bits@, a.bits@),
{
    lemma_mismatches_symmetric(a.bits@, b.bits@, min_len(a.bits@, b.bits@));
}

/// Every fingerprint is at distance zero from itself.
pub proof fn lemma_distance_identity(a: FuzzyHash)
    ensures
        bit_distance(a.bits@, a.bits@) == 0,
{
    lemma_mismatches_self(a.bits@, a.bits@.len() as int);
}

/// Two fingerprints whose lengths differ by `k` are at distance at least `k`;
/// when one is a prefix of the other the distance is exactly `k`.
pub proof fn lemma_distance_length_penalty(a: FuzzyHash, b: FuzzyHash)
    ensures
        bit_distance(a.bits@, b.bits@) >= max_len(a.bits@, b.bits@) - min_len(a.bits@, b.bits@),
        (forall|i: int| 0 <= i < min_len(a.bits@, b.bits@) ==> a.bits@[i] == b.bits@[i])
            ==> bit_distance(a.bits@, b.bits@) == max_len(a.bits@, b.bits@) - min_len(
            a.bits@,
            b.bits@,
        ),
{
    if forall|i: int| 0 <= i < min_len(a.bits@, b.bits@) ==> a.bits@[i] == b.bits@[i] {
        lemma_mismatches_prefix(a.bits@, b.bits@, min_len(a.bits@, b.bits@));
    }
}

} // verus!
