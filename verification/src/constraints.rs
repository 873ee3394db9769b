//! The two constraints the blank-count argument enforces: every entry of the
//! vector is binary, and the total equals the declared sum.

use vstd::prelude::*;

use crate::polynomial::{byte_sum, BlankPolynomial};

verus! {

/// Why a vector fails the blank-count constraints.
#[derive(Debug)]
pub enum ConstraintViolation {
    NonBinaryValue(usize, u8),
    InvalidSum { expected: u64, actual: u64 },
    DomainUnavailable,
}

/// The constraint instance: the graph size, the declared sum, and the vector
/// length the instance speaks about.
#[derive(Debug, Clone)]
pub struct BlankCountConstraints {
    pub n: u32,
    pub expected_sum: u64,
    pub n_squared: usize,
}

/// Whether every entry of a byte string is 0 or 1.
pub open spec fn all_binary(s: Seq<u8>) -> bool {
    forall|i: int| 0 <= i < s.len() ==> s[i] <= 1
}

impl BlankCountConstraints {
    /// Builds the instance for an `n`-vertex graph with a declared sum.
    pub fn new(n: u32, expected_sum: u64) -> (r: BlankCountConstraints)
        requires
            n <= 0xFFFF,
        ensures
            r.n == n,
            r.expected_sum == expected_sum,
            r.n_squared == if n == 0 {
                1int
            } else {
                n * n
            },
    {
        proof {
            assert((n as int) * (n as int) <= 0xFFFF * 0xFFFF) by (nonlinear_arith)
                requires
                    n <= 0xFFFF,
            ;
            assert(n >= 1 ==> (n as int) * (n as int) >= 1) by (nonlinear_arith);
        }
        let n_squared_raw = (n as usize) * (n as usize);
        let n_squared = if n_squared_raw >= 1 {
            n_squared_raw
        } else {
            1
        };
        BlankCountConstraints { n, expected_sum, n_squared }
    }

    /// Checks the vector against the constraints: reports the first non-binary
    /// entry, else a sum mismatch, else passes.
    pub fn check(&self, polynomial: &BlankPolynomial) -> (r: Result<(), ConstraintViolation>)
        requires
            polynomial.wf(),
        ensures
            r is Ok <==> all_binary(polynomial.spec_values()) && byte_sum(polynomial.spec_values())
                == self.expected_sum,
            match r {
                Ok(_) => true,
                Err(ConstraintViolation::NonBinaryValue(i, v)) => {
                    &&& i < polynomial.spec_values().len()
                    &&& polynomial.spec_values()[i as int] == v
                    &&& v > 1
                    &&& forall|j: int| 0 <= j < i ==> polynomial.spec_values()[j] <= 1
                },
                Err(ConstraintViolation::InvalidSum { expected, actual }) => {
                    &&& all_binary(polynomial.spec_values())
                    &&& expected == self.expected_sum
                    &&& actual == byte_sum(polynomial.spec_values())
                    &&& actual != expected
                },
                Err(ConstraintViolation::DomainUnavailable) => false,
            },
    {
        let len = polynomial.len();
        for idx in 0..len
            invariant
                polynomial.wf(),
                len == polynomial.spec_values().len(),
                forall|j: int| 0 <= j < idx ==> polynomial.spec_values()[j] <= 1,
        {
            let value = polynomial.evaluate(idx);
            if value > 1 {
                return Err(ConstraintViolation::NonBinaryValue(idx, value));
            }
        }

        let actual_sum = polynomial.sum();
        if actual_sum != self.expected_sum {
            return Err(
                ConstraintViolation::InvalidSum { expected: self.expected_sum, actual: actual_sum },
            );
        }

        Ok(())
    }
}

} // verus!
