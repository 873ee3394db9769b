//! The coloration constraint set: canonical triad keys under vertex
//! relabeling, and the set of keys a reference graph admits.
//!
//! A triad's canonical key is the lexicographically smallest of the six
//! relabelings of its 9-byte color matrix. Canonicalization is idempotent and
//! invariant under relabeling: `lemma_canonical_idempotent` and
//! `lemma_canonical_permutation_invariant` state and prove both laws.

use vstd::prelude::*;
use vstd::pervasive::strictly_cloned;

use std::collections::HashSet;

use crate::graph::{blank_bits, graph_matrix3, spot_matrix, Graph, Spot};
use crate::polynomial::byte_sum;
use crate::wire::{be_u64_of, lemma_be_u64_of_bound, lemma_pow256_increases, pow256};

verus! {

/// A length-3 sequence that permutes {0, 1, 2}.
pub open spec fn is_perm3(sigma: Seq<int>) -> bool {
    &&& sigma.len() == 3
    &&& forall|i: int| 0 <= i < 3 ==> 0 <= #[trigger] sigma[i] < 3
    &&& sigma[0] != sigma[1]
    &&& sigma[0] != sigma[2]
    &&& sigma[1] != sigma[2]
}

/// The six permutations of {0, 1, 2}, in the order the candidates are tried.
pub open spec fn perm6(t: int) -> Seq<int> {
    if t == 0 {
        seq![0, 1, 2]
    } else if t == 1 {
        seq![0, 2, 1]
    } else if t == 2 {
        seq![1, 0, 2]
    } else if t == 3 {
        seq![1, 2, 0]
    } else if t == 4 {
        seq![2, 0, 1]
    } else {
        seq![2, 1, 0]
    }
}

/// Every entry of `perm6` permutes {0, 1, 2}.
pub proof fn lemma_perm6_is_perm3(t: int)
    ensures
        is_perm3(perm6(t)),
{
}

/// The 9-byte matrix re-indexed through a relabeling of the three vertices:
/// entry (i, j) reads entry (sigma(i), sigma(j)).
pub open spec fn relabel(sigma: Seq<int>, m: Seq<u8>) -> Seq<u8> {
    Seq::new(9, |k: int| m[3 * sigma[k / 3] + sigma[k % 3]])
}

/// Candidate `t`: the matrix relabeled through the `t`-th permutation.
pub open spec fn candidate(t: int, m: Seq<u8>) -> Seq<u8> {
    relabel(perm6(t), m)
}

/// Strict lexicographic order on byte strings.
pub open spec fn lex_lt(x: Seq<u8>, y: Seq<u8>) -> bool
    decreases x.len(),
{
    if x.len() == 0 || y.len() == 0 {
        false
    } else if x.first() < y.first() {
        true
    } else if x.first() > y.first() {
        false
    } else {
        lex_lt(x.drop_first(), y.drop_first())
    }
}

/// Nothing is strictly below itself.
pub proof fn lemma_lex_lt_irrefl(x: Seq<u8>)
    ensures
        !lex_lt(x, x),
    decreases x.len(),
{
    if x.len() > 0 {
        lemma_lex_lt_irrefl(x.drop_first());
    }
}

/// Strict lexicographic order is transitive on equal lengths.
pub proof fn lemma_lex_lt_trans(x: Seq<u8>, y: Seq<u8>, z: Seq<u8>)
    requires
        x.len() == y.len(),
        y.len() == z.len(),
        lex_lt(x, y),
        lex_lt(y, z),
    ensures
        lex_lt(x, z),
    decreases x.len(),
{
    if x.len() > 0 {
        if x.first() == y.first() && y.first() == z.first() {
            lemma_lex_lt_trans(x.drop_first(), y.drop_first(), z.drop_first());
        }
    }
}

/// Two equal-length strings are equal or one is strictly below the other.
pub proof fn lemma_lex_total(x: Seq<u8>, y: Seq<u8>)
    requires
        x.len() == y.len(),
    ensures
        x == y || lex_lt(x, y) || lex_lt(y, x),
    decreases x.len(),
{
    if x.len() == 0 {
        assert(x =~= y);
    } else if x.first() == y.first() {
        lemma_lex_total(x.drop_first(), y.drop_first());
        if x.drop_first() == y.drop_first() {
            assert(x =~= y) by {
                assert(forall|i: int|
                    0 < i < x.len() ==> x[i] == x.drop_first()[i - 1] && y[i]
                        == y.drop_first()[i - 1]);
            }
        }
    }
}

/// Strings with an equal prefix compare as their tails do.
pub proof fn lemma_lex_skip(x: Seq<u8>, y: Seq<u8>, i: int)
    requires
        x.len() == y.len(),
        0 <= i <= x.len(),
        forall|j: int| 0 <= j < i ==> x[j] == y[j],
    ensures
        lex_lt(x, y) == lex_lt(x.skip(i), y.skip(i)),
    decreases i,
{
    if i > 0 {
        assert(x.first() == y.first());
        lemma_lex_skip(x.drop_first(), y.drop_first(), i - 1);
        assert(x.drop_first().skip(i - 1) =~= x.skip(i));
        assert(y.drop_first().skip(i - 1) =~= y.skip(i));
    } else {
        assert(x.skip(0) =~= x);
        assert(y.skip(0) =~= y);
    }
}

/// The running lexicographic minimum of candidates 0 through `t`.
pub open spec fn canon_fold(m: Seq<u8>, t: int) -> Seq<u8>
    decreases t,
{
    if t <= 0 {
        candidate(0, m)
    } else if lex_lt(candidate(t, m), canon_fold(m, t - 1)) {
        candidate(t, m)
    } else {
        canon_fold(m, t - 1)
    }
}

/// The canonical form of a 9-byte matrix: the lexicographically smallest of
/// its six relabelings.
pub open spec fn canon9(m: Seq<u8>) -> Seq<u8> {
    canon_fold(m, 5)
}

/// The running minimum is one of the candidates seen, and no candidate seen
/// is strictly below it.
pub proof fn lemma_canon_fold_props(m: Seq<u8>, t: int)
    requires
        0 <= t,
    ensures
        exists|j: int| 0 <= j <= t && canon_fold(m, t) == candidate(j, m),
        forall|j: int| 0 <= j <= t ==> !lex_lt(#[trigger] candidate(j, m), canon_fold(m, t)),
        canon_fold(m, t).len() == 9,
    decreases t,
{
    if t == 0 {
        lemma_lex_lt_irrefl(candidate(0, m));
        assert(canon_fold(m, 0) == candidate(0, m));
    } else {
        lemma_canon_fold_props(m, t - 1);
        let prev = canon_fold(m, t - 1);
        let cur = candidate(t, m);
        if lex_lt(cur, prev) {
            assert(canon_fold(m, t) == cur);
            lemma_lex_lt_irrefl(cur);
            assert forall|j: int| 0 <= j <= t implies !lex_lt(
                #[trigger] candidate(j, m),
                canon_fold(m, t),
            ) by {
                if j < t {
                    if lex_lt(candidate(j, m), cur) {
                        lemma_lex_lt_trans(candidate(j, m), cur, prev);
                    }
                }
            }
        } else {
            assert(canon_fold(m, t) == prev);
        }
    }
}

/// The canonical form is itself one of the six candidates.
pub proof fn lemma_canon9_is_candidate(m: Seq<u8>)
    ensures
        exists|j: int| 0 <= j < 6 && canon9(m) == candidate(j, m),
        canon9(m).len() == 9,
{
    lemma_canon_fold_props(m, 5);
}

/// No candidate is strictly below the canonical form.
pub proof fn lemma_canon9_le_all(m: Seq<u8>, j: int)
    requires
        0 <= j < 6,
    ensures
        !lex_lt(candidate(j, m), canon9(m)),
{
    lemma_canon_fold_props(m, 5);
}

/// Composition of relabelings: first apply `sigma`'s indexing, then `tau`'s.
pub open spec fn compose3(sigma: Seq<int>, tau: Seq<int>) -> Seq<int> {
    Seq::new(3, |i: int| tau[sigma[i]])
}

/// Relabeling by `sigma` after relabeling by `tau` is relabeling by their
/// composition.
pub proof fn lemma_relabel_compose(sigma: Seq<int>, tau: Seq<int>, m: Seq<u8>)
    requires
        is_perm3(sigma),
        is_perm3(tau),
        m.len() == 9,
    ensures
        relabel(sigma, relabel(tau, m)) == relabel(compose3(sigma, tau), m),
{
    let lhs = relabel(sigma, relabel(tau, m));
    let rhs = relabel(compose3(sigma, tau), m);
    assert forall|k: int| 0 <= k < 9 implies lhs[k] == rhs[k] by {
        let a = sigma[k / 3];
        let b = sigma[k % 3];
        let idx = 3 * a + b;
        assert(0 <= idx < 9);
        assert(idx / 3 == a && idx % 3 == b) by (nonlinear_arith)
            requires
                idx == 3 * a + b,
                0 <= a < 3,
                0 <= b < 3,
        ;
        assert(relabel(tau, m)[idx] == m[3 * tau[a] + tau[b]]);
    }
    assert(lhs =~= rhs);
}

/// The composition of two permutations of {0, 1, 2} is one.
pub proof fn lemma_compose_is_perm3(sigma: Seq<int>, tau: Seq<int>)
    requires
        is_perm3(sigma),
        is_perm3(tau),
    ensures
        is_perm3(compose3(sigma, tau)),
{
    let rho = compose3(sigma, tau);
    assert(rho[0] == tau[sigma[0]]);
    assert(rho[1] == tau[sigma[1]]);
    assert(rho[2] == tau[sigma[2]]);
}

/// The inverse indexing of a permutation of {0, 1, 2}.
pub open spec fn inv3(sigma: Seq<int>) -> Seq<int> {
    Seq::new(
        3,
        |v: int| if sigma[0] == v {
            0int
        } else if sigma[1] == v {
            1int
        } else {
            2int
        },
    )
}

/// The inverse is a permutation and composing it with the original yields the
/// identity indexing.
pub proof fn lemma_inv3_props(sigma: Seq<int>)
    requires
        is_perm3(sigma),
    ensures
        is_perm3(inv3(sigma)),
        compose3(inv3(sigma), sigma) == seq![0int, 1int, 2int],
{
    let inv = inv3(sigma);
    assert forall|v: int| 0 <= v < 3 implies sigma[#[trigger] inv[v]] == v by {
        if sigma[0] != v && sigma[1] != v {
            assert(sigma[2] == v);
        }
    }
    assert(compose3(inv, sigma) =~= seq![0int, 1int, 2int]);
    assert(inv[0] != inv[1]) by {
        if inv[0] == inv[1] {
            assert(sigma[inv[0]] == 0 && sigma[inv[1]] == 1);
        }
    }
    assert(inv[0] != inv[2]) by {
        if inv[0] == inv[2] {
            assert(sigma[inv[0]] == 0 && sigma[inv[2]] == 2);
        }
    }
    assert(inv[1] != inv[2]) by {
        if inv[1] == inv[2] {
            assert(sigma[inv[1]] == 1 && sigma[inv[2]] == 2);
        }
    }
}

/// Relabeling through the identity indexing changes nothing.
pub proof fn lemma_relabel_identity(m: Seq<u8>)
    requires
        m.len() == 9,
    ensures
        relabel(seq![0int, 1int, 2int], m) == m,
{
    let id = seq![0int, 1int, 2int];
    assert forall|k: int| 0 <= k < 9 implies relabel(id, m)[k] == m[k] by {
        assert(id[k / 3] == k / 3 && id[k % 3] == k % 3);
        assert(3 * (k / 3) + k % 3 == k);
    }
    assert(relabel(id, m) =~= m);
}

/// Every permutation of {0, 1, 2} is one of the six.
pub proof fn lemma_perm3_enumerate(sigma: Seq<int>)
    requires
        is_perm3(sigma),
    ensures
        exists|t: int| 0 <= t < 6 && perm6(t) == sigma,
{
    if sigma[0] == 0 && sigma[1] == 1 {
        assert(sigma =~= perm6(0));
    } else if sigma[0] == 0 && sigma[1] == 2 {
        assert(sigma =~= perm6(1));
    } else if sigma[0] == 1 && sigma[1] == 0 {
        assert(sigma =~= perm6(2));
    } else if sigma[0] == 1 && sigma[1] == 2 {
        assert(sigma =~= perm6(3));
    } else if sigma[0] == 2 && sigma[1] == 0 {
        assert(sigma =~= perm6(4));
    } else {
        assert(sigma[0] == 2 && sigma[1] == 1);
        assert(sigma =~= perm6(5));
    }
}

/// Every candidate of a relabeled matrix is a candidate of the original.
proof fn lemma_candidates_map(sigma: Seq<int>, m: Seq<u8>, t: int)
    requires
        is_perm3(sigma),
        m.len() == 9,
        0 <= t < 6,
    ensures
        exists|u: int| 0 <= u < 6 && candidate(t, relabel(sigma, m)) == candidate(u, m),
{
    lemma_perm6_is_perm3(t);
    lemma_relabel_compose(perm6(t), sigma, m);
    lemma_compose_is_perm3(perm6(t), sigma);
    lemma_perm3_enumerate(compose3(perm6(t), sigma));
    let u = choose|u: int| 0 <= u < 6 && perm6(u) == compose3(perm6(t), sigma);
    assert(candidate(t, relabel(sigma, m)) == candidate(u, m));
}

/// Canonicalization is invariant under relabeling the three vertices: the six
/// candidates of a relabeled matrix are the six candidates of the original,
/// so the lexicographic minimum agrees.
pub proof fn lemma_canonical_permutation_invariant(sigma: Seq<int>, m: Seq<u8>)
    requires
        is_perm3(sigma),
        m.len() == 9,
    ensures
        canon9(relabel(sigma, m)) == canon9(m),
{
    let m2 = relabel(sigma, m);
    assert(m2.len() == 9);

    lemma_canon9_is_candidate(m);
    lemma_canon9_is_candidate(m2);
    let k0 = choose|k0: int| 0 <= k0 < 6 && canon9(m2) == candidate(k0, m2);
    let j0 = choose|j0: int| 0 <= j0 < 6 && canon9(m) == candidate(j0, m);

    lemma_candidates_map(sigma, m, k0);
    let u0 = choose|u0: int| 0 <= u0 < 6 && candidate(k0, m2) == candidate(u0, m);
    lemma_canon9_le_all(m, u0);
    assert(!lex_lt(canon9(m2), canon9(m)));

    lemma_inv3_props(sigma);
    lemma_relabel_compose(inv3(sigma), sigma, m);
    lemma_relabel_identity(m);
    assert(relabel(inv3(sigma), m2) == m);
    lemma_candidates_map(inv3(sigma), m2, j0);
    let v0 = choose|v0: int| 0 <= v0 < 6 && candidate(j0, m) == candidate(v0, m2);
    lemma_canon9_le_all(m2, v0);
    assert(!lex_lt(canon9(m), canon9(m2)));

    lemma_lex_total(canon9(m), canon9(m2));
}

/// Canonicalizing twice gives the same key as canonicalizing once: the
/// canonical form is itself a relabeling of the matrix, and canonicalization
/// is relabeling-invariant.
pub proof fn lemma_canonical_idempotent(m: Seq<u8>)
    requires
        m.len() == 9,
    ensures
        canon9(canon9(m)) == canon9(m),
{
    lemma_canon9_is_candidate(m);
    let j0 = choose|j0: int| 0 <= j0 < 6 && canon9(m) == candidate(j0, m);
    lemma_perm6_is_perm3(j0);
    lemma_canonical_permutation_invariant(perm6(j0), m);
}

/// The integer encoding of a 9-byte key, read base 256.
pub open spec fn key_code(k: Seq<u8>) -> u128 {
    be_u64_of(k) as u128
}

/// Equal-length byte strings with the same base-256 reading are equal.
pub proof fn lemma_be_code_injective(x: Seq<u8>, y: Seq<u8>)
    requires
        x.len() == y.len(),
        be_u64_of(x) == be_u64_of(y),
    ensures
        x == y,
    decreases x.len(),
{
    if x.len() == 0 {
        assert(x =~= y);
    } else {
        assert(be_u64_of(x) == be_u64_of(x.drop_last()) * 256 + x.last());
        assert(be_u64_of(y) == be_u64_of(y.drop_last()) * 256 + y.last());
        assert(x.last() == y.last() && be_u64_of(x.drop_last()) == be_u64_of(y.drop_last()))
            by (nonlinear_arith)
            requires
                be_u64_of(x.drop_last()) * 256 + x.last() == be_u64_of(y.drop_last()) * 256
                    + y.last(),
                0 <= x.last() < 256,
                0 <= y.last() < 256,
        ;
        lemma_be_code_injective(x.drop_last(), y.drop_last());
        assert(x =~= y) by {
            assert(forall|i: int|
                0 <= i < x.len() - 1 ==> x[i] == x.drop_last()[i] && y[i] == y.drop_last()[i]);
        }
    }
}

/// A 9-byte reading fits in 128 bits.
pub proof fn lemma_key_code_fits(k: Seq<u8>)
    requires
        k.len() == 9,
    ensures
        be_u64_of(k) < 0x1000000000000000000,
{
    lemma_be_u64_of_bound(k);
    reveal_with_fuel(pow256, 10);
    assert(pow256(9) == 0x1000000000000000000);
}

/// Encodes a 9-byte key as its base-256 reading.
fn encode_key(key: &[u8; 9]) -> (r: u128)
    ensures
        r == key_code(key@),
{
    proof {
        lemma_key_code_fits(key@);
    }
    let mut acc: u128 = 0;
    for i in 0..9usize
        invariant
            acc == be_u64_of(key@.take(i as int)),
            acc < pow256(i as nat),
    {
        proof {
            assert(key@.take(i + 1).drop_last() =~= key@.take(i as int));
            assert(key@.take(i + 1).last() == key@[i as int]);
            reveal_with_fuel(pow256, 10);
            assert(pow256(9) == 0x1000000000000000000);
            lemma_pow256_increases((i + 1) as nat, 9);
        }
        acc = acc * 256 + (key[i] as u128);
    }
    proof {
        assert(key@.take(9) =~= key@);
    }
    acc
}

/// Whether two 9-byte keys hold the same bytes.
fn key_eq(a: &[u8; 9], b: &[u8; 9]) -> (r: bool)
    ensures
        r == (a@ == b@),
{
    let mut i: usize = 0;
    while i < 9
        invariant
            i <= 9,
            forall|k: int| 0 <= k < i ==> a@[k] == b@[k],
        decreases 9 - i,
    {
        if a[i] != b[i] {
            return false;
        }
        i = i + 1;
    }
    proof {
        assert(a@ =~= b@);
    }
    true
}

/// Whether byte string `a` is strictly lexicographically below `b`.
fn lex_less(a: &Vec<u8>, b: &Vec<u8>) -> (r: bool)
    requires
        a@.len() == b@.len(),
    ensures
        r == lex_lt(a@, b@),
{
    let len = a.len();
    let mut i: usize = 0;
    while i < len
        invariant
            len == a@.len() == b@.len(),
            i <= len,
            forall|j: int| 0 <= j < i ==> a@[j] == b@[j],
        decreases len - i,
    {
        proof {
            lemma_lex_skip(a@, b@, i as int);
        }
        if a[i] < b[i] {
            proof {
                assert(a@.skip(i as int).first() == a@[i as int]);
                assert(b@.skip(i as int).first() == b@[i as int]);
            }
            return true;
        }
        if a[i] > b[i] {
            proof {
                assert(a@.skip(i as int).first() == a@[i as int]);
                assert(b@.skip(i as int).first() == b@[i as int]);
            }
            return false;
        }
        i = i + 1;
    }
    proof {
        lemma_lex_skip(a@, b@, len as int);
        assert(a@.skip(len as int).len() == 0);
    }
    false
}

/// The set of canonical triad keys a witness graph admits, with the declared
/// blank budget and the graph size.
pub struct ColorationSet {
    allowed_spots: Vec<[u8; 9]>,
    lookup: HashSet<u128>,
    blank_edge_limit: u32,
    graph_size: u32,
}

impl ColorationSet {
    /// The admitted keys, in first-insertion order.
    pub closed spec fn spec_keys(self) -> Seq<[u8; 9]> {
        self.allowed_spots@
    }

    /// The declared blank budget.
    pub closed spec fn spec_blank_limit(self) -> u32 {
        self.blank_edge_limit
    }

    /// The declared graph size.
    pub closed spec fn spec_graph_size(self) -> u32 {
        self.graph_size
    }

    /// A well-formed set's declared graph size is within the supported
    /// range.
    pub proof fn lemma_wf_graph_size(self)
        requires
            self.wf(),
        ensures
            self.spec_graph_size() <= 0xFFFF,
    {
    }

    /// Whether a 9-byte key is admitted.
    pub open spec fn has_key(self, k: Seq<u8>) -> bool {
        exists|i: int| 0 <= i < self.spec_keys().len() && (#[trigger] self.spec_keys()[i])@ == k
    }

    /// The key list is duplicate-free, the lookup set mirrors it exactly,
    /// and the declared graph size is within the supported range.
    pub closed spec fn wf(self) -> bool {
        &&& keys_lookup_wf(self.allowed_spots@, self.lookup@)
        &&& self.graph_size <= 0xFFFF
    }

    /// Computes the canonical key of a spot: the smallest of the six
    /// relabelings of its color matrix.
    pub fn spot_to_key(spot: &Spot) -> (r: [u8; 9])
        ensures
            r@ == canon9(spot_matrix(*spot)),
    {
        let ghost gm = spot_matrix(*spot);
        let mut mat: Vec<u8> = Vec::new();
        for k in 0..9usize
            invariant
                gm == spot_matrix(*spot),
                mat@.len() == k,
                forall|q: int| 0 <= q < k ==> mat@[q] == gm[q],
        {
            let i = k / 3;
            let j = k % 3;
            let color = spot.lookup(spot.nodes[i], spot.nodes[j]);
            mat.push(color.to_u8());
        }
        proof {
            assert(mat@ =~= gm);
        }

        fold_candidates(&mat, Ghost(gm))
    }
}

/// Reads one relabeled candidate out of a 9-byte matrix.
fn build_candidate(mat: &Vec<u8>, o0: usize, o1: usize, o2: usize, Ghost(t): Ghost<int>) -> (r:
    Vec<u8>)
    requires
        mat@.len() == 9,
        0 <= t < 6,
        o0 as int == perm6(t)[0],
        o1 as int == perm6(t)[1],
        o2 as int == perm6(t)[2],
    ensures
        r@ == candidate(t, mat@),
        r@.len() == 9,
{
    proof {
        lemma_perm6_is_perm3(t);
    }
    let order: [usize; 3] = [o0, o1, o2];
    proof {
        assert(order@[0] == o0 && order@[1] == o1 && order@[2] == o2);
    }
    let mut cand: Vec<u8> = Vec::new();
    for i in 0..3usize
        invariant
            mat@.len() == 9,
            0 <= t < 6,
            order@[0] as int == perm6(t)[0],
            order@[1] as int == perm6(t)[1],
            order@[2] as int == perm6(t)[2],
            cand@.len() == 3 * i,
            forall|q: int| 0 <= q < 3 * i ==> cand@[q] == candidate(t, mat@)[q],
    {
        for j in 0..3usize
            invariant
                mat@.len() == 9,
                0 <= t < 6,
                i < 3,
                order@[0] as int == perm6(t)[0],
                order@[1] as int == perm6(t)[1],
                order@[2] as int == perm6(t)[2],
                cand@.len() == 3 * i + j,
                forall|q: int| 0 <= q < 3 * i + j ==> cand@[q] == candidate(t, mat@)[q],
        {
            let a = order[i];
            let b = order[j];
            cand.push(mat[3 * a + b]);
            proof {
                let k = 3 * (i as int) + (j as int);
                crate::graph::lemma_row_major_index(3, i as int, j as int);
                assert(candidate(t, mat@)[k] == mat@[3 * perm6(t)[i as int] + perm6(t)[j as int]]);
            }
        }
    }
    proof {
        assert(cand@ =~= candidate(t, mat@));
    }
    cand
}

/// Computes the canonical key of the triad (a, b, c) straight off the
/// adjacency.
fn triad_key_of_graph(graph: &Graph, a: u32, b: u32, c: u32) -> (r: [u8; 9])
    requires
        graph.wf(),
        a < graph.n,
        b < graph.n,
        c < graph.n,
    ensures
        r@ == canon9(triad_matrix(*graph, a, b, c)),
{
    let nodes: [u32; 3] = [a, b, c];
    let ghost gm = graph_matrix3(*graph, seq![a, b, c]);
    proof {
        assert(nodes@ =~= seq![a, b, c]);
    }
    let mut mat: Vec<u8> = Vec::new();
    for k in 0..9usize
        invariant
            graph.wf(),
            nodes@ == seq![a, b, c],
            a < graph.n,
            b < graph.n,
            c < graph.n,
            gm == graph_matrix3(*graph, seq![a, b, c]),
            mat@.len() == k,
            forall|q: int| 0 <= q < k ==> mat@[q] == gm[q],
    {
        let i = k / 3;
        let j = k % 3;
        let color = graph.get_edge(nodes[i], nodes[j]);
        mat.push(color.to_u8());
    }
    proof {
        assert(mat@ =~= gm);
    }
    fold_candidates(&mat, Ghost(gm))
}

/// Folds the six candidates of a 9-byte matrix to their lexicographic
/// minimum.
fn fold_candidates(mat: &Vec<u8>, Ghost(gm): Ghost<Seq<u8>>) -> (r: [u8; 9])
    requires
        mat@ == gm,
        gm.len() == 9,
    ensures
        r@ == canon9(gm),
{
    let mut best = build_candidate(mat, 0, 1, 2, Ghost(0int));
    proof {
        assert(canon_fold(gm, 0) == candidate(0, gm));
    }
    let c1 = build_candidate(mat, 0, 2, 1, Ghost(1int));
    if lex_less(&c1, &best) {
        best = c1;
    }
    proof {
        assert(best@ == canon_fold(gm, 1));
    }
    let c2 = build_candidate(mat, 1, 0, 2, Ghost(2int));
    if lex_less(&c2, &best) {
        best = c2;
    }
    proof {
        assert(best@ == canon_fold(gm, 2));
    }
    let c3 = build_candidate(mat, 1, 2, 0, Ghost(3int));
    if lex_less(&c3, &best) {
        best = c3;
    }
    proof {
        assert(best@ == canon_fold(gm, 3));
    }
    let c4 = build_candidate(mat, 2, 0, 1, Ghost(4int));
    if lex_less(&c4, &best) {
        best = c4;
    }
    proof {
        assert(best@ == canon_fold(gm, 4));
    }
    let c5 = build_candidate(mat, 2, 1, 0, Ghost(5int));
    if lex_less(&c5, &best) {
        best = c5;
    }
    proof {
        assert(best@ == canon_fold(gm, 5));
    }
    let key: [u8; 9] = [
        best[0],
        best[1],
        best[2],
        best[3],
        best[4],
        best[5],
        best[6],
        best[7],
        best[8],
    ];
    proof {
        assert(key@ =~= best@);
    }
    key
}

impl ColorationSet {
    /// Collects the canonical key of every triad `a < b < c` of the graph,
    /// with the graph's blank count as the declared budget.
    pub fn from_graph(graph: &Graph) -> (r: ColorationSet)
        requires
            graph.wf(),
        ensures
            r.wf(),
            r.spec_graph_size() == graph.n,
            r.spec_blank_limit() == byte_sum(blank_bits(*graph)),
            forall|k: Seq<u8>|
                #[trigger] r.has_key(k) <==> exists|a: u32, b: u32, c: u32|
                    a < b && b < c && c < graph.n && k == canon9(
                        #[trigger] triad_matrix(*graph, a, b, c),
                    ),
    {
        let blank_edge_limit = graph.blank_count();
        let n = graph.n;
        let mut allowed_spots: Vec<[u8; 9]> = Vec::new();
        let mut lookup: HashSet<u128> = HashSet::new();

        for a in 0..n
            invariant
                graph.wf(),
                graph.n == n,
                keys_lookup_wf(allowed_spots@, lookup@),
                forall|k: Seq<u8>|
                    #[trigger] keys_have(allowed_spots@, k) ==> exists|x: u32, y: u32, z: u32|
                        x < y && y < z && z < n && k == canon9(
                            #[trigger] triad_matrix(*graph, x, y, z),
                        ),
                forall|x: u32, y: u32, z: u32|
                    x < y && y < z && z < n && x < a ==> keys_have(
                        allowed_spots@,
                        canon9(#[trigger] triad_matrix(*graph, x, y, z)),
                    ),
        {
            let mut b = a + 1;
            while b < n
                invariant
                    graph.wf(),
                    graph.n == n,
                    a < n,
                    a < b,
                    keys_lookup_wf(allowed_spots@, lookup@),
                    forall|k: Seq<u8>|
                        #[trigger] keys_have(allowed_spots@, k) ==> exists|x: u32, y: u32, z: u32|
                            x < y && y < z && z < n && k == canon9(
                                #[trigger] triad_matrix(*graph, x, y, z),
                            ),
                    forall|x: u32, y: u32, z: u32|
                        x < y && y < z && z < n && x < a ==> keys_have(
                            allowed_spots@,
                            canon9(#[trigger] triad_matrix(*graph, x, y, z)),
                        ),
                    forall|y: u32, z: u32|
                        a < y && y < z && z < n && y < b ==> keys_have(
                            allowed_spots@,
                            canon9(#[trigger] triad_matrix(*graph, a, y, z)),
                        ),
                decreases n - b,
            {
                let mut c = b + 1;
                while c < n
                    invariant
                        graph.wf(),
                        graph.n == n,
                        a < b,
                        b < c,
                        b < n,
                        keys_lookup_wf(allowed_spots@, lookup@),
                        forall|k: Seq<u8>|
                            #[trigger] keys_have(allowed_spots@, k) ==> exists|
                                x: u32,
                                y: u32,
                                z: u32,
                            |
                                x < y && y < z && z < n && k == canon9(
                                    #[trigger] triad_matrix(*graph, x, y, z),
                                ),
                        forall|x: u32, y: u32, z: u32|
                            x < y && y < z && z < n && x < a ==> keys_have(
                                allowed_spots@,
                                canon9(#[trigger] triad_matrix(*graph, x, y, z)),
                            ),
                        forall|y: u32, z: u32|
                            a < y && y < z && z < n && y < b ==> keys_have(
                                allowed_spots@,
                                canon9(#[trigger] triad_matrix(*graph, a, y, z)),
                            ),
                        forall|z: u32|
                            b < z && z < n && z < c ==> keys_have(
                                allowed_spots@,
                                canon9(#[trigger] triad_matrix(*graph, a, b, z)),
                            ),
                    decreases n - c,
                {
                    let key = triad_key_of_graph(graph, a, b, c);
                    proof {
                        assert(key@ == canon9(graph_matrix3(*graph, seq![a, b, c])));
                    }
                    let code = encode_key(&key);
                    let ghost old_keys = allowed_spots@;
                    let ghost old_lookup = lookup@;
                    if !lookup.contains(&code) {
                        lookup.insert(code);
                        allowed_spots.push(key);
                        proof {
                            assert(keys_lookup_wf(allowed_spots@, lookup@)) by {
                                assert forall|i: int|
                                    0 <= i < allowed_spots@.len() implies lookup@.contains(
                                    key_code((#[trigger] allowed_spots@[i])@),
                                ) by {
                                    if i < old_keys.len() {
                                        assert(old_lookup.contains(key_code(old_keys[i]@)));
                                    }
                                }
                                assert forall|c: u128| lookup@.contains(c) implies exists|i: int|
                                    0 <= i < allowed_spots@.len() && key_code(
                                        (#[trigger] allowed_spots@[i])@,
                                    ) == c by {
                                    if c == code {
                                        assert(allowed_spots@[allowed_spots@.len() - 1]@ == key@);
                                    } else {
                                        assert(old_lookup.contains(c));
                                        let i = choose|i: int|
                                            0 <= i < old_keys.len() && key_code(
                                                (#[trigger] old_keys[i])@,
                                            ) == c;
                                        assert(allowed_spots@[i]@ == old_keys[i]@);
                                    }
                                }
                                assert forall|i: int, j: int|
                                    0 <= i < j < allowed_spots@.len() implies (
                                #[trigger] allowed_spots@[i])@ != (#[trigger] allowed_spots@[j])@ by {
                                    if j == allowed_spots@.len() - 1 {
                                        if allowed_spots@[i]@ == key@ {
                                            assert(old_lookup.contains(key_code(old_keys[i]@)));
                                        }
                                    }
                                }
                            }
                            assert(allowed_spots@[allowed_spots@.len() - 1]@ == key@);
                            assert forall|k2: Seq<u8>| #[trigger]
                                keys_have(allowed_spots@, k2) implies keys_have(old_keys, k2) || k2
                                == key@ by {
                                let i = choose|i: int|
                                    0 <= i < allowed_spots@.len() && (#[trigger] allowed_spots@[i])@
                                        == k2;
                                if i < old_keys.len() {
                                    assert(old_keys[i]@ == k2);
                                }
                            }
                        }
                    } else {
                        proof {
                            let i = choose|i: int|
                                0 <= i < allowed_spots@.len() && key_code(
                                    (#[trigger] allowed_spots@[i])@,
                                ) == code;
                            lemma_key_code_fits(allowed_spots@[i]@);
                            lemma_key_code_fits(key@);
                            assert(be_u64_of(allowed_spots@[i]@) == be_u64_of(key@));
                            lemma_be_code_injective(allowed_spots@[i]@, key@);
                            assert(keys_have(allowed_spots@, key@));
                        }
                    }
                    proof {
                        assert(keys_have(allowed_spots@, key@));
                        assert forall|k2: Seq<u8>| keys_have(old_keys, k2) implies keys_have(
                            allowed_spots@,
                            k2,
                        ) by {
                            let i = choose|i: int|
                                0 <= i < old_keys.len() && (#[trigger] old_keys[i])@ == k2;
                            assert(allowed_spots@[i]@ == k2);
                        }
                        assert(key@ == canon9(triad_matrix(*graph, a, b, c)));
                        assert forall|k2: Seq<u8>| #[trigger]
                            keys_have(allowed_spots@, k2) implies exists|x: u32, y: u32, z: u32|
                            x < y && y < z && z < n && k2 == canon9(
                                #[trigger] triad_matrix(*graph, x, y, z),
                            ) by {
                            let i = choose|i: int|
                                0 <= i < allowed_spots@.len() && (#[trigger] allowed_spots@[i])@
                                    == k2;
                            if i < old_keys.len() {
                                assert(old_keys[i]@ == k2);
                                assert(keys_have(old_keys, k2));
                            } else {
                                assert(allowed_spots@[i]@ == key@);
                                assert(a < b && b < c && c < n);
                            }
                        }
                    }
                    c = c + 1;
                }
                proof {
                    assert forall|y: u32, z: u32|
                        a < y && y < z && z < n && y < b + 1 implies keys_have(
                        allowed_spots@,
                        canon9(#[trigger] triad_matrix(*graph, a, y, z)),
                    ) by {
                        if y == b {
                            assert(keys_have(
                                allowed_spots@,
                                canon9(triad_matrix(*graph, a, b, z)),
                            ));
                        }
                    }
                }
                b = b + 1;
            }
            proof {
                assert forall|x: u32, y: u32, z: u32|
                    x < y && y < z && z < n && x < a + 1 implies keys_have(
                    allowed_spots@,
                    canon9(#[trigger] triad_matrix(*graph, x, y, z)),
                ) by {
                    if x == a {
                        assert(keys_have(allowed_spots@, canon9(triad_matrix(*graph, a, y, z))));
                    }
                }
            }
        }

        let ghost gkeys = allowed_spots@;
        let cs = ColorationSet { allowed_spots, lookup, blank_edge_limit, graph_size: n };
        proof {
            assert(cs.allowed_spots@ == gkeys);
            assert forall|k: Seq<u8>| #[trigger] cs.has_key(k) implies exists|
                a: u32,
                b: u32,
                c: u32,
            |
                a < b && b < c && c < graph.n && k == canon9(
                    #[trigger] triad_matrix(*graph, a, b, c),
                ) by {
                assert(keys_have(gkeys, k));
            }
            assert forall|a: u32, b: u32, c: u32|
                a < b && b < c && c < graph.n implies cs.has_key(
                canon9(#[trigger] triad_matrix(*graph, a, b, c)),
            ) by {
                assert(keys_have(gkeys, canon9(triad_matrix(*graph, a, b, c))));
                let i = choose|i: int|
                    0 <= i < gkeys.len() && (#[trigger] gkeys[i])@ == canon9(
                        triad_matrix(*graph, a, b, c),
                    );
                assert(cs.spec_keys()[i]@ == canon9(triad_matrix(*graph, a, b, c)));
            }
        }
        cs
    }

    /// Whether the spot's canonical key is admitted.
    pub fn contains(&self, spot: &Spot) -> (r: bool)
        requires
            self.wf(),
        ensures
            r == self.has_key(canon9(spot_matrix(*spot))),
    {
        let key = Self::spot_to_key(spot);
        let code = encode_key(&key);
        let found = self.lookup.contains(&code);
        proof {
            if found {
                let i = choose|i: int|
                    0 <= i < self.allowed_spots@.len() && key_code(
                        (#[trigger] self.allowed_spots@[i])@,
                    ) == code;
                lemma_key_code_fits(self.allowed_spots@[i]@);
                lemma_key_code_fits(key@);
                assert(be_u64_of(self.allowed_spots@[i]@) == be_u64_of(key@));
                lemma_be_code_injective(self.allowed_spots@[i]@, key@);
            } else {
                if self.has_key(key@) {
                    let i = choose|i: int|
                        0 <= i < self.spec_keys().len() && (#[trigger] self.spec_keys()[i])@
                            == key@;
                    assert(self.lookup@.contains(key_code(self.allowed_spots@[i]@)));
                }
            }
        }
        found
    }

    /// The declared blank budget.
    pub fn blank_limit(&self) -> (r: u32)
        ensures
            r == self.spec_blank_limit(),
    {
        self.blank_edge_limit
    }

    /// The declared graph size.
    pub fn graph_size(&self) -> (r: u32)
        ensures
            r == self.spec_graph_size(),
    {
        self.graph_size
    }

    /// How many canonical keys are admitted.
    pub fn pattern_count(&self) -> (r: usize)
        ensures
            r == self.spec_keys().len(),
    {
        self.allowed_spots.len()
    }

    /// The admitted keys, in first-insertion order.
    pub fn patterns(&self) -> (r: &Vec<[u8; 9]>)
        ensures
            r@ == self.spec_keys(),
    {
        &self.allowed_spots
    }
}

/// Copies a key list.
fn clone_keys(v: &Vec<[u8; 9]>) -> (r: Vec<[u8; 9]>)
    ensures
        r@ == v@,
{
    let r = v.clone();
    proof {
        assert forall|i: int| 0 <= i < v@.len() implies r@[i] == v@[i] by {
            assert(cloned::<[u8; 9]>(v@[i], r@[i]));
            if !(v@[i] == r@[i]) {
                assert(strictly_cloned::<[u8; 9]>(v@[i], r@[i]));
                assert(forall|q: int| 0 <= q < 9 ==> cloned::<u8>(v@[i]@[q], (#[trigger] r@[i]@[q])));
                assert(v@[i]@ =~= r@[i]@);
                assert(v@[i] =~= r@[i]);
            }
        }
        assert(r@ =~= v@);
    }
    r
}

impl Clone for ColorationSet {
    /// Clones the key list and budgets and rebuilds the lookup set from the
    /// keys; a well-formed set clones to a well-formed equal.
    fn clone(&self) -> (r: Self)
        ensures
            r.spec_keys() == self.spec_keys(),
            r.spec_blank_limit() == self.spec_blank_limit(),
            r.spec_graph_size() == self.spec_graph_size(),
            self.wf() ==> r.wf(),
    {
        let keys = clone_keys(&self.allowed_spots);
        let mut lookup: HashSet<u128> = HashSet::new();
        let len = keys.len();
        for i in 0..len
            invariant
                len == keys@.len(),
                keys@ == self.allowed_spots@,
                forall|j: int|
                    0 <= j < i ==> lookup@.contains(key_code((#[trigger] keys@[j])@)),
                forall|c: u128|
                    lookup@.contains(c) ==> exists|j: int|
                        0 <= j < i && key_code((#[trigger] keys@[j])@) == c,
        {
            let code = encode_key(&keys[i]);
            lookup.insert(code);
        }
        ColorationSet {
            allowed_spots: keys,
            lookup,
            blank_edge_limit: self.blank_edge_limit,
            graph_size: self.graph_size,
        }
    }
}

/// The color matrix of the triad (a, b, c) of a graph.
pub open spec fn triad_matrix(g: Graph, a: u32, b: u32, c: u32) -> Seq<u8> {
    graph_matrix3(g, seq![a, b, c])
}

/// Three node labels read through a relabeling of their positions.
pub open spec fn perm_apply(sigma: Seq<int>, ns: Seq<u32>) -> Seq<u32> {
    Seq::new(3, |i: int| ns[sigma[i]])
}

/// Reading a graph's triad matrix at relabeled nodes relabels the matrix.
pub proof fn lemma_graph_matrix_relabel(g: Graph, ns: Seq<u32>, sigma: Seq<int>)
    requires
        g.wf(),
        ns.len() == 3,
        forall|i: int| 0 <= i < 3 ==> (#[trigger] ns[i]) < g.n,
        is_perm3(sigma),
    ensures
        graph_matrix3(g, perm_apply(sigma, ns)) == relabel(sigma, graph_matrix3(g, ns)),
{
    let lhs = graph_matrix3(g, perm_apply(sigma, ns));
    let rhs = relabel(sigma, graph_matrix3(g, ns));
    assert forall|k: int| 0 <= k < 9 implies lhs[k] == rhs[k] by {
        let i = k / 3;
        let j = k % 3;
        let a = sigma[i];
        let b = sigma[j];
        let idx = 3 * a + b;
        assert(0 <= idx < 9);
        assert(idx / 3 == a && idx % 3 == b) by (nonlinear_arith)
            requires
                idx == 3 * a + b,
                0 <= a < 3,
                0 <= b < 3,
        ;
        assert(graph_matrix3(g, ns)[idx] == crate::graph::color_u8(
            g.color_at(ns[a] as int, ns[b] as int),
        ));
    }
    assert(lhs =~= rhs);
}

/// The triad (a, b, c) read through the `t`-th relabeling.
pub open spec fn sorted_triple_apply(t: int, a: u32, b: u32, c: u32) -> Seq<u32> {
    perm_apply(perm6(t), seq![a, b, c])
}

/// Any three distinct labels are a relabeling of their sorted order.
pub proof fn lemma_sort_triple(ns: Seq<u32>)
    requires
        ns.len() == 3,
        ns[0] != ns[1],
        ns[0] != ns[2],
        ns[1] != ns[2],
    ensures
        exists|a: u32, b: u32, c: u32, t: int|
            {
                &&& a < b < c
                &&& 0 <= t < 6
                &&& #[trigger] sorted_triple_apply(t, a, b, c) == ns
            },
{
    let x = ns[0];
    let y = ns[1];
    let z = ns[2];
    if x < y && y < z {
        assert(sorted_triple_apply(0, x, y, z) =~= ns);
    } else if x < z && z < y {
        assert(sorted_triple_apply(1, x, z, y) =~= ns);
    } else if y < x && x < z {
        assert(sorted_triple_apply(2, y, x, z) =~= ns);
    } else if z < x && x < y {
        assert(sorted_triple_apply(3, z, x, y) =~= ns);
    } else if y < z && z < x {
        assert(sorted_triple_apply(4, y, z, x) =~= ns);
    } else {
        assert(z < y && y < x);
        assert(sorted_triple_apply(5, z, y, x) =~= ns);
    }
}

/// Whether a key list holds the 9-byte key `k`.
pub open spec fn keys_have(keys: Seq<[u8; 9]>, k: Seq<u8>) -> bool {
    exists|i: int| 0 <= i < keys.len() && (#[trigger] keys[i])@ == k
}

/// The key list is duplicate-free and the code set mirrors it exactly.
pub open spec fn keys_lookup_wf(keys: Seq<[u8; 9]>, lookup: Set<u128>) -> bool {
    &&& forall|i: int| 0 <= i < keys.len() ==> lookup.contains(key_code((#[trigger] keys[i])@))
    &&& forall|c: u128|
        lookup.contains(c) ==> exists|i: int|
            0 <= i < keys.len() && key_code((#[trigger] keys[i])@) == c
    &&& forall|i: int, j: int|
        0 <= i < j < keys.len() ==> (#[trigger] keys[i])@ != (#[trigger] keys[j])@
}

impl Spot {
    /// Whether this spot's canonical key is in the coloration set.
    pub fn is_valid(&self, coloration_set: &ColorationSet) -> (r: bool)
        requires
            coloration_set.wf(),
        ensures
            r == coloration_set.has_key(canon9(spot_matrix(*self))),
    {
        coloration_set.contains(self)
    }
}

} // verus!
