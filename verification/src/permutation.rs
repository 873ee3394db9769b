//! Random permutations of {0, …, n−1}, drawn through the `rand` crate, and
//! the counting facts the protocol needs about them: a permutation of the
//! vertices permutes the flat edge grid, so it preserves the blank count.

use vstd::prelude::*;

use rand::rngs::StdRng;

use crate::graph::{blank_bits, Graph};
use crate::polynomial::byte_sum;

verus! {

#[verifier::external_type_specification]
#[verifier::external_body]
pub struct ExStdRng(StdRng);

/// Relies on rand's SeedableRng::from_seed for StdRng: builds a generator
/// from a 32-byte seed. Nothing is assumed of the values it will produce.
#[verifier::external_body]
pub fn rng_from_seed(seed: [u8; 32]) -> (r: StdRng) {
    <StdRng as rand::SeedableRng>::from_seed(seed)
}

/// Relies on rand's SeedableRng::seed_from_u64 for StdRng: builds a generator
/// from a word-sized seed. Nothing is assumed of the values it will produce.
#[verifier::external_body]
pub fn rng_seed_from_u64(state: u64) -> (r: StdRng) {
    <StdRng as rand::SeedableRng>::seed_from_u64(state)
}

/// Relies on rand::make_rng seeded from the operating system's entropy
/// source; it panics only if that source fails. Nothing is assumed of the
/// values the generator will produce.
#[verifier::external_body]
pub fn rng_from_entropy() -> (r: StdRng) {
    rand::make_rng::<StdRng>()
}

/// Relies on rand's RngExt::random_range over `0..bound`: the draw is always
/// below the bound; nothing else is assumed of it.
#[verifier::external_body]
pub fn rng_below(rng: &mut StdRng, bound: u64) -> (r: u64)
    requires
        bound >= 1,
    ensures
        r < bound,
{
    rand::RngExt::random_range(rng, 0..bound)
}

/// Relies on rand's SliceRandom::shuffle: it permutes the slice in place, so
/// the multiset of values is unchanged; nothing is assumed about the order.
#[verifier::external_body]
pub fn shuffle_values(values: &mut Vec<u32>, rng: &mut StdRng)
    ensures
        final(values)@.to_multiset() == old(values)@.to_multiset(),
{
    rand::seq::SliceRandom::shuffle(values.as_mut_slice(), rng)
}

/// A length-`n` sequence that lists each of 0, …, n−1 exactly once.
pub open spec fn is_permutation(s: Seq<u32>, n: nat) -> bool {
    &&& s.len() == n
    &&& forall|i: int| 0 <= i < s.len() ==> (#[trigger] s[i]) < n
    &&& s.no_duplicates()
}

/// The identity sequence 0, …, n−1.
pub open spec fn identity_seq(n: nat) -> Seq<u32> {
    Seq::new(n, |i: int| i as u32)
}

/// A sequence with the same value multiset as the identity is a permutation.
pub proof fn lemma_identity_multiset_is_permutation(s: Seq<u32>, n: nat)
    requires
        n <= 0x100000000,
        s.to_multiset() == identity_seq(n).to_multiset(),
    ensures
        is_permutation(s, n),
{
    let id = identity_seq(n);
    s.to_multiset_ensures();
    id.to_multiset_ensures();
    assert(id.no_duplicates());
    id.lemma_multiset_has_no_duplicates();
    s.lemma_multiset_has_no_duplicates_conv();
    assert(s.len() == n);
    assert forall|i: int| 0 <= i < s.len() implies (#[trigger] s[i]) < n by {
        assert(s.contains(s[i]));
        assert(s.to_multiset().count(s[i]) > 0);
        assert(id.to_multiset().count(s[i]) > 0);
        assert(id.contains(s[i]));
        let j = choose|j: int| 0 <= j < id.len() && id[j] == s[i];
        assert(s[i] == j as u32);
    }
}

/// A random permutation of {0, …, n−1}, drawn by shuffling the identity.
#[derive(Debug, Clone)]
pub struct RandomPermutation(pub Vec<u32>);

impl RandomPermutation {
    /// Shuffles the identity sequence into a uniformly random permutation.
    pub fn generate(n: usize, rng: &mut StdRng) -> (r: RandomPermutation)
        requires
            n <= 0x100000000,
        ensures
            is_permutation(r.0@, n as nat),
    {
        let mut values: Vec<u32> = Vec::new();
        for i in 0..n
            invariant
                n <= 0x100000000,
                values@.len() == i,
                forall|k: int| 0 <= k < i ==> values@[k] == k as u32,
        {
            values.push(i as u32);
        }
        proof {
            assert(values@ =~= identity_seq(n as nat));
        }
        shuffle_values(&mut values, rng);
        proof {
            lemma_identity_multiset_is_permutation(values@, n as nat);
        }
        RandomPermutation(values)
    }
}

/// Draws a fresh random permutation of {0, …, n−1} from system entropy.
pub fn random_permutation(n: usize) -> (r: Vec<u32>)
    requires
        n <= 0x100000000,
    ensures
        is_permutation(r@, n as nat),
{
    let mut rng = rng_from_entropy();
    let p = RandomPermutation::generate(n, &mut rng);
    p.0
}

/// Removing one element takes its value out of the sum.
pub proof fn lemma_byte_sum_remove(s: Seq<u8>, j: int)
    requires
        0 <= j < s.len(),
    ensures
        byte_sum(s) == byte_sum(s.remove(j)) + s[j],
    decreases s.len(),
{
    if j == s.len() - 1 {
        assert(s.remove(j) =~= s.drop_last());
    } else {
        assert(s.remove(j).drop_last() =~= s.drop_last().remove(j));
        assert(s.remove(j).last() == s.last());
        lemma_byte_sum_remove(s.drop_last(), j);
    }
}

/// A duplicate-free sequence of `n` values below `n` lists every value
/// below `n`.
pub proof fn lemma_pigeonhole_surjective(s: Seq<u32>, n: nat)
    requires
        n <= 0x100000000,
        s.len() == n,
        forall|i: int| 0 <= i < s.len() ==> (#[trigger] s[i]) < n,
        s.no_duplicates(),
    ensures
        forall|v: u32| v < n ==> s.contains(v),
    decreases n,
{
    if n > 0 {
        let top = (n - 1) as u32;
        if !s.contains(top) {
            assert(forall|i: int| 0 <= i < s.len() ==> (#[trigger] s[i]) < n - 1) by {
                assert(forall|i: int| 0 <= i < s.len() ==> s[i] != top);
            }
            let s0 = s.drop_last();
            assert(s0.no_duplicates());
            lemma_pigeonhole_surjective(s0, (n - 1) as nat);
            assert(s0.contains(s.last()));
            let j = choose|j: int| 0 <= j < s0.len() && s0[j] == s.last();
            assert(s[j] == s[s.len() - 1]);
            assert(false);
        }
        assert forall|v: u32| v < n implies s.contains(v) by {
            if v < n - 1 {
                let k = choose|k: int| 0 <= k < s.len() && s[k] == top;
                let s1 = s.remove(k);
                assert(s1.no_duplicates());
                assert forall|i: int| 0 <= i < s1.len() implies (#[trigger] s1[i]) < n - 1 by {
                    if i < k {
                        assert(s1[i] == s[i]);
                        assert(s[i] != top);
                    } else {
                        assert(s1[i] == s[i + 1]);
                        assert(s[i + 1] != top);
                    }
                }
                lemma_pigeonhole_surjective(s1, (n - 1) as nat);
                assert(s1.contains(v));
                let j = choose|j: int| 0 <= j < s1.len() && s1[j] == v;
                if j < k {
                    assert(s[j] == v);
                } else {
                    assert(s[j + 1] == v);
                }
            }
        }
    }
}

/// Reading a sequence through a permutation of its indices leaves the sum
/// unchanged.
pub proof fn lemma_byte_sum_reindex(v: Seq<u8>, p: Seq<u32>, n: nat)
    requires
        n <= 0x100000000,
        v.len() == n,
        is_permutation(p, n),
    ensures
        byte_sum(Seq::new(n, |i: int| v[p[i] as int])) == byte_sum(v),
    decreases n,
{
    let w = Seq::new(n, |i: int| v[p[i] as int]);
    if n > 0 {
        lemma_pigeonhole_surjective(p, n);
        let top = (n - 1) as u32;
        assert(p.contains(top));
        let k = choose|k: int| 0 <= k < p.len() && p[k] == top;
        let p1 = p.remove(k);
        assert(p1.no_duplicates());
        assert forall|i: int| 0 <= i < p1.len() implies (#[trigger] p1[i]) < n - 1 by {
            if i < k {
                assert(p1[i] == p[i]);
                assert(p[i] != top);
            } else {
                assert(p1[i] == p[i + 1]);
                assert(p[i + 1] != top);
            }
        }
        let v1 = v.drop_last();
        let w1 = Seq::new((n - 1) as nat, |i: int| v1[p1[i] as int]);
        lemma_byte_sum_reindex(v1, p1, (n - 1) as nat);
        assert(w1 =~= w.remove(k)) by {
            assert forall|i: int| 0 <= i < n - 1 implies w1[i] == w.remove(k)[i] by {
                if i < k {
                    assert(w.remove(k)[i] == w[i]);
                    assert(p1[i] == p[i]);
                } else {
                    assert(w.remove(k)[i] == w[i + 1]);
                    assert(p1[i] == p[i + 1]);
                }
            }
        }
        lemma_byte_sum_remove(w, k);
        assert(w[k] == v[n - 1]);
        assert(byte_sum(v) == byte_sum(v1) + v[n - 1]);
    } else {
        assert(w =~= Seq::<u8>::empty());
    }
}

/// Relabeling the vertices through a permutation permutes the flat blank-bit
/// grid, so the blank count of the permuted graph equals the original's.
pub proof fn lemma_blank_count_permutation_invariant(g: Graph, g2: Graph, perm: Seq<u32>)
    requires
        g.wf(),
        g2.wf(),
        g2.n == g.n,
        is_permutation(perm, g.n as nat),
        forall|i: int, j: int|
            0 <= i < g.n && 0 <= j < g.n ==> g2.color_at(i, j) == g.color_at(
                perm[i] as int,
                perm[j] as int,
            ),
    ensures
        byte_sum(blank_bits(g2)) == byte_sum(blank_bits(g)),
{
    let n = g.n as int;
    let nn = (g.n * g.n) as nat;
    let sigma = Seq::new(nn, |k: int| (perm[k / n] * g.n + perm[k % n]) as u32);
    assert forall|k: int| 0 <= k < nn implies (#[trigger] sigma[k]) < nn by {
        crate::graph::lemma_row_major_decompose(n, k);
        assert(k / n < n) by (nonlinear_arith)
            requires
                n >= 1,
                0 <= k < n * n,
        ;
        assert((perm[k / n] as int) * n + (perm[k % n] as int) < n * n) by (nonlinear_arith)
            requires
                perm[k / n] < n,
                perm[k % n] < n,
                n >= 1,
        ;
    }
    assert(sigma.no_duplicates()) by {
        assert forall|k1: int, k2: int|
            0 <= k1 < nn && 0 <= k2 < nn && k1 != k2 implies sigma[k1] != sigma[k2] by {
            crate::graph::lemma_row_major_decompose(n, k1);
            crate::graph::lemma_row_major_decompose(n, k2);
            if sigma[k1] == sigma[k2] {
                assert(k1 / n < n && k2 / n < n) by (nonlinear_arith)
                    requires
                        n >= 1,
                        0 <= k1 < n * n,
                        0 <= k2 < n * n,
                ;
                let a1 = perm[k1 / n] as int;
                let b1 = perm[k1 % n] as int;
                let a2 = perm[k2 / n] as int;
                let b2 = perm[k2 % n] as int;
                assert(0 <= a1 * n + b1 < n * n && 0 <= a2 * n + b2 < n * n) by (nonlinear_arith)
                    requires
                        0 <= a1 < n,
                        0 <= b1 < n,
                        0 <= a2 < n,
                        0 <= b2 < n,
                ;
                assert(n * n <= 0x100000000) by (nonlinear_arith)
                    requires
                        0 < n <= 0xFFFF,
                ;
                assert(sigma[k1] == (a1 * n + b1) as u32);
                assert(sigma[k2] == (a2 * n + b2) as u32);
                assert(a1 * n + b1 == a2 * n + b2);
                assert(a1 == a2 && b1 == b2) by (nonlinear_arith)
                    requires
                        a1 * n + b1 == a2 * n + b2,
                        0 <= b1 < n,
                        0 <= b2 < n,
                        0 <= a1,
                        0 <= a2,
                ;
                assert(k1 / n == k2 / n);
                assert(k1 % n == k2 % n);
                assert(k1 == k2);
            }
        }
    }
    let bits = blank_bits(g);
    let bits2 = blank_bits(g2);
    assert(bits2 =~= Seq::new(nn, |k: int| bits[sigma[k] as int])) by {
        assert forall|k: int| 0 <= k < nn implies bits2[k] == bits[sigma[k] as int] by {
            crate::graph::lemma_row_major_decompose(n, k);
            assert(k / n < n) by (nonlinear_arith)
                requires
                    n >= 1,
                    0 <= k < n * n,
            ;
            let a = perm[k / n] as int;
            let b = perm[k % n] as int;
            assert(0 <= a * n + b < n * n) by (nonlinear_arith)
                requires
                    0 <= a < n,
                    0 <= b < n,
            ;
            assert(n * n <= 0x100000000) by (nonlinear_arith)
                requires
                    0 < n <= 0xFFFF,
            ;
            assert(sigma[k] as int == a * n + b);
            crate::graph::lemma_row_major_index(n, a, b);
        }
    }
    assert(nn <= 0x100000000) by (nonlinear_arith)
        requires
            g.n <= 0xFFFF,
            nn == (g.n as int) * (g.n as int),
    ;
    lemma_byte_sum_reindex(bits, sigma, nn);
}

} // verus!
