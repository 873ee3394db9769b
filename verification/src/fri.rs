//! The deterministic transcript bound to a trace root: hash-chained layer
//! roots over a halving domain, and pseudorandom query positions drawn by
//! iterating a hash on a counter.

use vstd::prelude::*;

use crate::hash::QuantumHash;
use crate::wire::{be_u64_of, be_u64_prefix, u64_be_bytes};

verus! {

/// The layer roots and query positions a trace root determines.
#[derive(Debug)]
pub struct FriProof {
    pub layer_roots: Vec<[u8; 32]>,
    pub query_positions: Vec<u64>,
}

impl Clone for FriProof {
    /// Copies the transcript; the copy carries the same roots and positions.
    fn clone(&self) -> (res: Self)
        ensures
            res.layer_roots@ == self.layer_roots@,
            res.query_positions@ == self.query_positions@,
    {
        let mut layer_roots: Vec<[u8; 32]> = Vec::new();
        let nl = self.layer_roots.len();
        for i in 0..nl
            invariant
                nl == self.layer_roots@.len(),
                layer_roots@ == self.layer_roots@.take(i as int),
        {
            proof {
                assert(self.layer_roots@.take(i + 1) =~= self.layer_roots@.take(i as int).push(
                    self.layer_roots@[i as int],
                ));
            }
            layer_roots.push(self.layer_roots[i]);
        }
        let mut query_positions: Vec<u64> = Vec::new();
        let np = self.query_positions.len();
        for i in 0..np
            invariant
                np == self.query_positions@.len(),
                query_positions@ == self.query_positions@.take(i as int),
        {
            proof {
                assert(self.query_positions@.take(i + 1) =~= self.query_positions@.take(
                    i as int,
                ).push(self.query_positions@[i as int]));
            }
            query_positions.push(self.query_positions[i]);
        }
        proof {
            assert(self.layer_roots@.take(nl as int) =~= self.layer_roots@);
            assert(self.query_positions@.take(np as int) =~= self.query_positions@);
        }
        FriProof { layer_roots, query_positions }
    }
}

/// The smallest power of two that is at least `x` (and at least 1).
pub open spec fn next_pow2(x: nat) -> nat
    decreases x,
{
    if x <= 1 {
        1
    } else {
        2 * next_pow2(((x + 1) / 2) as nat)
    }
}

/// `next_pow2` is at least its argument and less than twice it.
pub proof fn lemma_next_pow2_bounds(x: nat)
    requires
        x >= 1,
    ensures
        next_pow2(x) >= x,
        x == 1 ==> next_pow2(x) == 1,
        x >= 2 ==> next_pow2(x) <= 2 * (x - 1),
    decreases x,
{
    if x > 1 {
        let c = ((x + 1) / 2) as nat;
        lemma_next_pow2_bounds(c);
        if c >= 2 {
            assert(next_pow2(x) == 2 * next_pow2(c));
            assert(next_pow2(c) <= 2 * (c - 1));
        }
    }
}

/// Computes the smallest power of two at least `x`.
pub fn next_pow2_u64(x: u64) -> (r: u64)
    requires
        x <= 0x4000000000000000,
    ensures
        r == next_pow2(x as nat),
    decreases x,
{
    if x <= 1 {
        1
    } else {
        proof {
            if (x + 1) / 2 >= 1 {
                lemma_next_pow2_bounds((((x + 1) / 2) as u64) as nat);
            }
        }
        2 * next_pow2_u64((x + 1) / 2)
    }
}

/// The layer roots reached from `current` while the domain halves down to 1:
/// each step hashes the previous root with the current domain size.
pub open spec fn fri_chain<H: QuantumHash>(h: H, current: [u8; 32], domain: nat) -> Seq<[u8; 32]>
    decreases domain,
{
    if domain <= 1 {
        Seq::empty()
    } else {
        let next = h.hash_spec(current@ + u64_be_bytes(domain as u64));
        seq![next] + fri_chain(h, next, (domain / 2) as nat)
    }
}

/// The full layer sequence for a trace of `size` rows committed under `root`:
/// empty for trivial sizes, else the chain from the padded power-of-two
/// domain.
pub open spec fn fri_layers_spec<H: QuantumHash>(h: H, size: nat, root: [u8; 32]) -> Seq<[u8; 32]> {
    if size <= 1 {
        Seq::empty()
    } else {
        fri_chain(h, root, if next_pow2(size) >= 2 {
            next_pow2(size)
        } else {
            2
        })
    }
}

/// Derives the deterministic layer roots for a trace of `polynomial_size`
/// rows committed under `base_root`.
pub fn derive_fri_layers<H: QuantumHash>(
    polynomial_size: usize,
    base_root: &[u8; 32],
    hasher: &H,
) -> (r: Vec<[u8; 32]>)
    requires
        polynomial_size <= 0x100000000,
    ensures
        r@ == fri_layers_spec(*hasher, polynomial_size as nat, *base_root),
{
    let mut layers: Vec<[u8; 32]> = Vec::new();
    if polynomial_size <= 1 {
        return layers;
    }

    let mut current: [u8; 32] = *base_root;
    let np = next_pow2_u64(polynomial_size as u64);
    let mut domain: u64 = if np >= 2 {
        np
    } else {
        2
    };
    let ghost domain0 = domain as nat;
    while domain > 1
        invariant
            layers@ + fri_chain(*hasher, current, domain as nat) == fri_chain(
                *hasher,
                *base_root,
                domain0,
            ),
        decreases domain,
    {
        let mut data: Vec<u8> = Vec::new();
        data.extend_from_slice(current.as_slice());
        crate::wire::push_u64_be(&mut data, domain);
        proof {
            assert(data@ =~= current@ + u64_be_bytes(domain));
        }
        let ghost old_layers = layers@;
        let ghost old_current = current;
        let ghost old_domain = domain as nat;
        current = hasher.hash(data.as_slice());
        layers.push(current);
        domain = domain / 2;
        proof {
            assert(fri_chain(*hasher, old_current, old_domain) =~= seq![current] + fri_chain(
                *hasher,
                current,
                domain as nat,
            ));
            assert(layers@ + fri_chain(*hasher, current, domain as nat) =~= old_layers + fri_chain(
                *hasher,
                old_current,
                old_domain,
            ));
        }
    }
    proof {
        assert(fri_chain(*hasher, current, domain as nat) =~= Seq::<[u8; 32]>::empty());
        assert(layers@ =~= fri_chain(*hasher, *base_root, domain0));
    }
    layers
}

/// One sampling step: the next seed in the counter-hash chain.
pub open spec fn sample_seed<H: QuantumHash>(h: H, seed: [u8; 32], counter: u64) -> [u8; 32] {
    h.hash_spec(seed@ + u64_be_bytes(counter))
}

/// The accepted positions after running the sampler for at most `budget` more
/// steps: each step hashes the seed with the counter, reduces the first eight
/// bytes modulo `size`, and keeps the position unless already drawn; the
/// sampler stops once `q` distinct positions are held.
pub open spec fn sample_rec<H: QuantumHash>(
    h: H,
    seed: [u8; 32],
    size: nat,
    q: nat,
    acc: Seq<u64>,
    counter: u64,
    budget: nat,
) -> Seq<u64>
    decreases budget,
{
    if budget == 0 || acc.len() >= q || size == 0 {
        acc
    } else {
        let s2 = sample_seed(h, seed, counter);
        let cand = (be_u64_of(s2@.take(8)) % size) as u64;
        let acc2 = if acc.contains(cand) {
            acc
        } else {
            acc.push(cand)
        };
        sample_rec(h, s2, size, q, acc2, (counter + 1) as u64, (budget - 1) as nat)
    }
}

/// Inserts a value into an ascending list, before the first larger element.
pub open spec fn insert_ascending(acc: Seq<u64>, v: u64) -> Seq<u64>
    decreases acc.len(),
{
    if acc.len() == 0 {
        seq![v]
    } else if acc.last() <= v {
        acc.push(v)
    } else {
        insert_ascending(acc.drop_last(), v).push(acc.last())
    }
}

/// The ascending sort of a list, by repeated insertion.
pub open spec fn sort_ascending(s: Seq<u64>) -> Seq<u64>
    decreases s.len(),
{
    if s.len() == 0 {
        Seq::empty()
    } else {
        insert_ascending(sort_ascending(s.drop_last()), s.last())
    }
}

/// Insertion keeps every element below a bound if the inserted value is.
pub proof fn lemma_insert_ascending_bound(acc: Seq<u64>, v: u64, size: nat)
    requires
        forall|i: int| 0 <= i < acc.len() ==> acc[i] < size,
        v < size,
    ensures
        forall|i: int|
            0 <= i < insert_ascending(acc, v).len() ==> insert_ascending(acc, v)[i] < size,
        insert_ascending(acc, v).len() == acc.len() + 1,
    decreases acc.len(),
{
    if acc.len() > 0 && !(acc.last() <= v) {
        lemma_insert_ascending_bound(acc.drop_last(), v, size);
    }
}

/// Sorting keeps every element below a bound.
pub proof fn lemma_sort_ascending_bound(s: Seq<u64>, size: nat)
    requires
        forall|i: int| 0 <= i < s.len() ==> s[i] < size,
    ensures
        forall|i: int| 0 <= i < sort_ascending(s).len() ==> sort_ascending(s)[i] < size,
        sort_ascending(s).len() == s.len(),
    decreases s.len(),
{
    if s.len() > 0 {
        lemma_sort_ascending_bound(s.drop_last(), size);
        lemma_insert_ascending_bound(sort_ascending(s.drop_last()), s.last(), size);
    }
}

/// The inserted value is in the result.
pub proof fn lemma_insert_ascending_contains(acc: Seq<u64>, v: u64)
    ensures
        insert_ascending(acc, v).contains(v),
    decreases acc.len(),
{
    if acc.len() == 0 {
        assert(insert_ascending(acc, v)[0] == v);
    } else if acc.last() <= v {
        assert(acc.push(v)[acc.len() as int] == v);
    } else {
        lemma_insert_ascending_contains(acc.drop_last(), v);
        let s1 = insert_ascending(acc.drop_last(), v);
        let j = choose|j: int| 0 <= j < s1.len() && s1[j] == v;
        assert(s1.push(acc.last())[j] == v);
    }
}

/// Insertion adds exactly the new value to the list's contents.
#[verifier::rlimit(60)]
pub proof fn lemma_insert_ascending_membership(acc: Seq<u64>, v: u64)
    ensures
        forall|x: u64| #[trigger]
            insert_ascending(acc, v).contains(x) ==> acc.contains(x) || x == v,
        forall|x: u64| #[trigger] acc.contains(x) ==> insert_ascending(acc, v).contains(x),
        insert_ascending(acc, v).contains(v),
        insert_ascending(acc, v).len() == acc.len() + 1,
    decreases acc.len(),
{
    lemma_insert_ascending_contains(acc, v);
    if acc.len() == 0 {
        assert forall|x: u64| #[trigger]
            insert_ascending(acc, v).contains(x) implies acc.contains(x) || x == v by {
            let i = choose|i: int|
                0 <= i < insert_ascending(acc, v).len() && insert_ascending(acc, v)[i] == x;
            assert(insert_ascending(acc, v)[0] == v);
        }
    } else if acc.last() <= v {
        assert forall|x: u64| #[trigger]
            insert_ascending(acc, v).contains(x) implies acc.contains(x) || x == v by {
            let i = choose|i: int| 0 <= i < acc.push(v).len() && acc.push(v)[i] == x;
            if i < acc.len() {
                assert(acc[i] == x);
            }
        }
        assert forall|x: u64| #[trigger] acc.contains(x) implies insert_ascending(
            acc,
            v,
        ).contains(x) by {
            let i = choose|i: int| 0 <= i < acc.len() && acc[i] == x;
            assert(acc.push(v)[i] == x);
        }
    } else {
        lemma_insert_ascending_membership(acc.drop_last(), v);
        let s1 = insert_ascending(acc.drop_last(), v);
        assert forall|x: u64| #[trigger]
            insert_ascending(acc, v).contains(x) implies acc.contains(x) || x == v by {
            let i = choose|i: int|
                0 <= i < s1.push(acc.last()).len() && s1.push(acc.last())[i] == x;
            if i < s1.len() {
                assert(s1[i] == x);
                assert(s1.contains(x));
                if acc.drop_last().contains(x) {
                    let j = choose|j: int|
                        0 <= j < acc.drop_last().len() && acc.drop_last()[j] == x;
                    assert(acc[j] == x);
                }
            } else {
                assert(x == acc.last());
                assert(acc[acc.len() - 1] == x);
            }
        }
        assert forall|x: u64| #[trigger] acc.contains(x) implies insert_ascending(
            acc,
            v,
        ).contains(x) by {
            let i = choose|i: int| 0 <= i < acc.len() && acc[i] == x;
            if i < acc.len() - 1 {
                assert(acc.drop_last()[i] == x);
                assert(acc.drop_last().contains(x));
                assert(s1.contains(x));
                let j = choose|j: int| 0 <= j < s1.len() && s1[j] == x;
                assert(s1.push(acc.last())[j] == x);
            } else {
                assert(s1.push(acc.last())[s1.len() as int] == x);
            }
        }
        let j = choose|j: int| 0 <= j < s1.len() && s1[j] == v;
        assert(s1.push(acc.last())[j] == v);
    }
}

/// Insertion of a fresh value keeps a duplicate-free list duplicate-free.
#[verifier::rlimit(60)]
pub proof fn lemma_insert_ascending_no_dup(acc: Seq<u64>, v: u64)
    requires
        acc.no_duplicates(),
        !acc.contains(v),
    ensures
        insert_ascending(acc, v).no_duplicates(),
    decreases acc.len(),
{
    if acc.len() == 0 {
    } else if acc.last() <= v {
        assert forall|i: int, j: int|
            0 <= i < j < acc.push(v).len() implies acc.push(v)[i] != acc.push(v)[j] by {
            if j == acc.len() {
                assert(acc.push(v)[i] == acc[i]);
                if acc[i] == v {
                    assert(acc.contains(v));
                }
            }
        }
    } else {
        assert(acc.drop_last().no_duplicates());
        assert(!acc.drop_last().contains(v)) by {
            if acc.drop_last().contains(v) {
                let j = choose|j: int| 0 <= j < acc.drop_last().len() && acc.drop_last()[j] == v;
                assert(acc[j] == v);
            }
        }
        lemma_insert_ascending_no_dup(acc.drop_last(), v);
        lemma_insert_ascending_membership(acc.drop_last(), v);
        let s1 = insert_ascending(acc.drop_last(), v);
        assert(!s1.contains(acc.last())) by {
            if s1.contains(acc.last()) {
                assert(acc.drop_last().contains(acc.last()) || acc.last() == v);
                if acc.drop_last().contains(acc.last()) {
                    let j = choose|j: int|
                        0 <= j < acc.drop_last().len() && acc.drop_last()[j] == acc.last();
                    assert(acc[j] == acc[acc.len() - 1]);
                }
            }
        }
        assert forall|i: int, j: int|
            0 <= i < j < s1.push(acc.last()).len() implies s1.push(acc.last())[i] != s1.push(
            acc.last(),
        )[j] by {
            if j == s1.len() {
                assert(s1.push(acc.last())[i] == s1[i]);
                if s1[i] == acc.last() {
                    assert(s1.contains(acc.last()));
                }
            }
        }
    }
}

/// Sorting keeps a duplicate-free list duplicate-free and keeps its
/// contents.
#[verifier::rlimit(60)]
pub proof fn lemma_sort_ascending_no_dup(s: Seq<u64>)
    requires
        s.no_duplicates(),
    ensures
        sort_ascending(s).no_duplicates(),
        forall|x: u64| #[trigger] sort_ascending(s).contains(x) ==> s.contains(x),
        forall|x: u64| #[trigger] s.contains(x) ==> sort_ascending(s).contains(x),
    decreases s.len(),
{
    if s.len() > 0 {
        assert(s.drop_last().no_duplicates());
        lemma_sort_ascending_no_dup(s.drop_last());
        let s1 = sort_ascending(s.drop_last());
        assert(!s1.contains(s.last())) by {
            if s1.contains(s.last()) {
                assert(s.drop_last().contains(s.last()));
                let j = choose|j: int|
                    0 <= j < s.drop_last().len() && s.drop_last()[j] == s.last();
                assert(s[j] == s[s.len() - 1]);
            }
        }
        lemma_insert_ascending_no_dup(s1, s.last());
        lemma_insert_ascending_membership(s1, s.last());
        assert forall|x: u64| #[trigger] sort_ascending(s).contains(x) implies s.contains(x) by {
            assert(s1.contains(x) || x == s.last());
            if s1.contains(x) {
                assert(s.drop_last().contains(x));
                let i = choose|i: int| 0 <= i < s.drop_last().len() && s.drop_last()[i] == x;
                assert(s[i] == x);
            } else {
                assert(s[s.len() - 1] == x);
            }
        }
        assert forall|x: u64| #[trigger] s.contains(x) implies sort_ascending(s).contains(x) by {
            let i = choose|i: int| 0 <= i < s.len() && s[i] == x;
            if i < s.len() - 1 {
                assert(s.drop_last()[i] == x);
                assert(s.drop_last().contains(x));
                assert(s1.contains(x));
            }
        }
    }
}

/// Inserts a value into an ascending vector.
fn insert_ascending_exec(acc: &mut Vec<u64>, v: u64)
    ensures
        final(acc)@ == insert_ascending(old(acc)@, v),
    decreases old(acc)@.len(),
{
    if acc.len() == 0 {
        acc.push(v);
        proof {
            assert(acc@ =~= insert_ascending(old(acc)@, v));
        }
        return ;
    }
    let last = acc[acc.len() - 1];
    if last <= v {
        acc.push(v);
    } else {
        let _ = acc.pop();
        insert_ascending_exec(acc, v);
        acc.push(last);
    }
}

/// Deterministically samples up to `num_queries` distinct positions in
/// `[0, polynomial_size)` from the hash chain seeded by `base_root`, sorted
/// ascending. The sampler gives up after a fixed budget of draws, so the
/// result can fall short of `num_queries` only if the chain keeps repeating
/// positions after every distinct one was seen many times over.
#[verifier::rlimit(50)]
pub fn sample_fri_queries<H: QuantumHash>(
    polynomial_size: usize,
    base_root: &[u8; 32],
    num_queries: usize,
    hasher: &H,
) -> (r: Vec<u64>)
    requires
        polynomial_size <= 0x100000000,
    ensures
        r@ == sample_queries_spec(
            *hasher,
            polynomial_size as nat,
            num_queries as nat,
            *base_root,
        ),
        forall|i: int| 0 <= i < r@.len() ==> r@[i] < polynomial_size,
        r@.no_duplicates(),
{
    let ghost gsize = polynomial_size as nat;
    let ghost gq = num_queries as nat;
    if polynomial_size == 0 || num_queries == 0 {
        let r: Vec<u64> = Vec::new();
        proof {
            assert(r@ =~= sample_queries_spec(*hasher, gsize, gq, *base_root));
        }
        return r;
    }

    let q_eff: usize = if num_queries <= polynomial_size {
        num_queries
    } else {
        polynomial_size
    };
    let budget0: u64 = (q_eff as u64) * 64 + 1024;
    let mut positions: Vec<u64> = Vec::new();
    let mut seed: [u8; 32] = *base_root;
    let mut counter: u64 = 0;
    let mut budget: u64 = budget0;
    while budget > 0 && positions.len() < q_eff
        invariant
            polynomial_size >= 1,
            polynomial_size <= 0x100000000,
            gsize == polynomial_size as nat,
            q_eff <= polynomial_size,
            counter + budget == budget0,
            positions@.no_duplicates(),
            forall|i: int| 0 <= i < positions@.len() ==> positions@[i] < polynomial_size,
            sample_rec(*hasher, seed, gsize, q_eff as nat, positions@, counter, budget as nat)
                == sample_rec(*hasher, *base_root, gsize, q_eff as nat, Seq::empty(), 0, budget0 as nat),
        decreases budget,
    {
        let ghost old_seed = seed;
        let ghost old_positions = positions@;
        let ghost old_counter = counter;
        let ghost old_budget = budget as nat;
        let mut data: Vec<u8> = Vec::new();
        data.extend_from_slice(seed.as_slice());
        crate::wire::push_u64_be(&mut data, counter);
        proof {
            assert(data@ =~= seed@ + u64_be_bytes(counter));
        }
        seed = hasher.hash(data.as_slice());
        let prefix = be_u64_prefix(&seed);
        let candidate = prefix % (polynomial_size as u64);
        let mut already = false;
        let plen = positions.len();
        for i in 0..plen
            invariant
                plen == positions@.len(),
                already == positions@.take(i as int).contains(candidate),
        {
            proof {
                assert(positions@.take(i + 1).drop_last() =~= positions@.take(i as int));
                if positions@.take(i + 1).contains(candidate) && !positions@.take(
                    i as int,
                ).contains(candidate) {
                    assert(positions@.take(i + 1).last() == candidate);
                }
                if positions@.take(i as int).contains(candidate) {
                    let w = choose|w: int|
                        0 <= w < i && positions@.take(i as int)[w] == candidate;
                    assert(positions@.take(i + 1)[w] == candidate);
                }
                if positions@[i as int] == candidate {
                    assert(positions@.take(i + 1).last() == candidate);
                }
            }
            if positions[i] == candidate {
                already = true;
            }
        }
        proof {
            assert(positions@.take(plen as int) =~= positions@);
        }
        if !already {
            let ghost before = positions@;
            positions.push(candidate);
            proof {
                assert forall|i: int, j: int|
                    0 <= i < j < positions@.len() implies positions@[i] != positions@[j] by {
                    if j == before.len() {
                        assert(positions@[i] == before[i]);
                        if before[i] == candidate {
                            assert(before.contains(candidate));
                        }
                    }
                }
            }
        }
        counter = counter + 1;
        budget = budget - 1;
        proof {
            assert(seed == sample_seed(*hasher, old_seed, old_counter));
            assert(candidate == (be_u64_of(seed@.take(8)) % gsize) as u64) by {
                assert(be_u64_of(seed@.take(8)) % gsize < gsize);
            }
            assert(positions@ == if old_positions.contains(candidate) {
                old_positions
            } else {
                old_positions.push(candidate)
            });
            assert(sample_rec(
                *hasher,
                old_seed,
                gsize,
                q_eff as nat,
                old_positions,
                old_counter,
                old_budget,
            ) == sample_rec(*hasher, seed, gsize, q_eff as nat, positions@, counter, budget as nat));
        }
    }
    proof {
        assert(sample_rec(*hasher, seed, gsize, q_eff as nat, positions@, counter, budget as nat)
            == positions@);
    }

    let ghost unsorted = positions@;
    let mut sorted: Vec<u64> = Vec::new();
    let plen = positions.len();
    for i in 0..plen
        invariant
            plen == positions@.len(),
            positions@ == unsorted,
            sorted@ == sort_ascending(positions@.take(i as int)),
    {
        proof {
            assert(positions@.take(i + 1).drop_last() =~= positions@.take(i as int));
        }
        insert_ascending_exec(&mut sorted, positions[i]);
    }
    proof {
        assert(positions@.take(plen as int) =~= positions@);
        lemma_sort_ascending_bound(unsorted, gsize);
        lemma_sort_ascending_no_dup(unsorted);
    }
    sorted
}

/// What `sample_fri_queries` returns: the sorted accepted positions of the
/// budgeted sampling run, with the query count capped by the domain size.
pub open spec fn sample_queries_spec<H: QuantumHash>(
    h: H,
    size: nat,
    q: nat,
    root: [u8; 32],
) -> Seq<u64> {
    if size == 0 || q == 0 {
        Seq::empty()
    } else {
        let q_eff = if q <= size {
            q
        } else {
            size
        };
        sort_ascending(sample_rec(h, root, size, q_eff, Seq::empty(), 0, (q_eff * 64 + 1024) as nat))
    }
}

} // verus!
