//! The blank-bit vector with its precomputed prefix sums: the domain object
//! the blank-count argument arithmetizes.

use vstd::prelude::*;

use crate::hash::QuantumHash;

verus! {

/// The sum of a byte string, as an unbounded integer.
pub open spec fn byte_sum(s: Seq<u8>) -> nat
    decreases s.len(),
{
    if s.len() == 0 {
        0
    } else {
        (byte_sum(s.drop_last()) + s.last()) as nat
    }
}

/// The sum of a byte string is at most 255 times its length.
pub proof fn lemma_byte_sum_bound(s: Seq<u8>)
    ensures
        byte_sum(s) <= s.len() * 255,
    decreases s.len(),
{
    if s.len() > 0 {
        lemma_byte_sum_bound(s.drop_last());
        assert(s.len() * 255 == (s.len() - 1) * 255 + 255) by (nonlinear_arith);
    }
}

/// A binary vector wrapped with its running sums: entry `i` of the prefix
/// array holds the sum of the first `i + 1` values.
#[derive(Debug, Clone)]
pub struct BlankPolynomial {
    values: Vec<u8>,
    prefix_sums: Vec<u64>,
}

impl BlankPolynomial {
    /// The wrapped values.
    pub closed spec fn spec_values(self) -> Seq<u8> {
        self.values@
    }

    /// The prefix array mirrors the values and stays within `u64`.
    pub closed spec fn wf(self) -> bool {
        &&& self.prefix_sums@.len() == self.values@.len()
        &&& forall|i: int|
            0 <= i < self.values@.len() ==> self.prefix_sums@[i] == byte_sum(
                self.values@.take(i + 1),
            )
    }

    /// Wraps a vector, computing its prefix sums.
    pub fn new(values: Vec<u8>) -> (r: BlankPolynomial)
        requires
            values@.len() <= 0x100000000,
        ensures
            r.wf(),
            r.spec_values() == values@,
    {
        let mut prefix_sums: Vec<u64> = Vec::new();
        let mut running: u64 = 0;
        let len = values.len();
        for i in 0..len
            invariant
                len == values@.len(),
                len <= 0x100000000,
                prefix_sums@.len() == i,
                running == byte_sum(values@.take(i as int)),
                forall|q: int|
                    0 <= q < i ==> prefix_sums@[q] == byte_sum(values@.take(q + 1)),
        {
            proof {
                assert(values@.take(i + 1).drop_last() =~= values@.take(i as int));
                assert(values@.take(i + 1).last() == values@[i as int]);
                lemma_byte_sum_bound(values@.take(i as int));
            }
            running = running + (values[i] as u64);
            prefix_sums.push(running);
        }
        BlankPolynomial { values, prefix_sums }
    }

    /// How many entries the vector has.
    pub fn len(&self) -> (r: usize)
        ensures
            r == self.spec_values().len(),
    {
        self.values.len()
    }

    /// Reads one entry; out-of-range indices read as zero.
    pub fn evaluate(&self, index: usize) -> (r: u8)
        ensures
            r == if index < self.spec_values().len() {
                self.spec_values()[index as int]
            } else {
                0u8
            },
    {
        if index < self.values.len() {
            self.values[index]
        } else {
            0
        }
    }

    /// The wrapped values, as a slice.
    pub fn values(&self) -> (r: &[u8])
        ensures
            r@ == self.spec_values(),
    {
        self.values.as_slice()
    }

    /// The sum of all entries.
    pub fn sum(&self) -> (r: u64)
        requires
            self.wf(),
        ensures
            r == byte_sum(self.spec_values()),
    {
        if self.prefix_sums.len() == 0 {
            proof {
                assert(self.spec_values().len() == 0);
            }
            0
        } else {
            let last = self.prefix_sums.len() - 1;
            proof {
                assert(self.values@.take(last + 1) =~= self.values@);
            }
            self.prefix_sums[last]
        }
    }

    /// The sum of the first `index + 1` entries; out-of-range indices read as
    /// zero.
    pub fn running_sum(&self, index: usize) -> (r: u64)
        requires
            self.wf(),
        ensures
            r == if index < self.spec_values().len() {
                byte_sum(self.spec_values().take(index + 1))
            } else {
                0nat
            },
    {
        if index < self.prefix_sums.len() {
            self.prefix_sums[index]
        } else {
            0
        }
    }

    /// Hashes the raw bit bytes to a short self-check digest.
    pub fn commit<H: QuantumHash>(&self, hasher: &H) -> (r: PolynomialCommitment)
        ensures
            r.root == hasher.hash_spec(self.spec_values()),
    {
        let root = hasher.hash(self.values.as_slice());
        PolynomialCommitment { root }
    }
}

/// A 32-byte digest of the raw blank-bit bytes.
#[derive(Debug, Clone)]
pub struct PolynomialCommitment {
    pub root: [u8; 32],
}

} // verus!
