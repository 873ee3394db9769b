//! The commitment layer: plain binary Merkle trees, the two-level chunked
//! accumulator built from them, and the graph-edge tree whose leaves are the
//! serialized edges of a graph.
//!
//! Internal nodes combine as `hash(left || right)`; an odd last node at a
//! level is promoted unchanged. The chunked tree hashes each chunk root once
//! more to form the top tree's leaves. Every proof that `get_proof` hands out
//! verifies against the tree's root: that is stated in the `ensures` of
//! `get_proof` and of the `verify` methods.

use vstd::prelude::*;

use crate::graph::{color_u8, Color, Graph};
use crate::hash::QuantumHash;
use crate::wire::{bytes32_eq, push_u32_be, u32_be_bytes};

verus! {

/// The chunk size the graph tree uses.
pub const DEFAULT_CHUNK_SIZE: usize = 1024;

/// One Merkle path step: hash the current value with its sibling, on the
/// side the flag says.
pub open spec fn merkle_step<H: QuantumHash>(
    h: H,
    current: [u8; 32],
    sibling: [u8; 32],
    is_right: bool,
) -> [u8; 32] {
    if is_right {
        h.hash_spec(current@ + sibling@)
    } else {
        h.hash_spec(sibling@ + current@)
    }
}

/// The root a leaf hash reaches along a sibling path.
pub open spec fn merkle_recompute<H: QuantumHash>(
    h: H,
    leaf: [u8; 32],
    path: Seq<([u8; 32], bool)>,
) -> [u8; 32]
    decreases path.len(),
{
    if path.len() == 0 {
        leaf
    } else {
        merkle_step(
            h,
            merkle_recompute(h, leaf, path.drop_last()),
            path.last().0,
            path.last().1,
        )
    }
}

/// Extending a path by one step applies that step to the recomputed value.
pub proof fn lemma_merkle_recompute_push<H: QuantumHash>(
    h: H,
    leaf: [u8; 32],
    path: Seq<([u8; 32], bool)>,
    e: ([u8; 32], bool),
)
    ensures
        merkle_recompute(h, leaf, path.push(e)) == merkle_step(
            h,
            merkle_recompute(h, leaf, path),
            e.0,
            e.1,
        ),
{
    assert(path.push(e).drop_last() =~= path);
}

/// The number of one bits in an integer.
pub open spec fn ones(n: nat) -> nat
    decreases n,
{
    if n == 0 {
        0
    } else {
        (ones(n / 2) + n % 2) as nat
    }
}

/// An integer has no one bits exactly when it is zero.
pub proof fn lemma_ones_zero(n: nat)
    ensures
        (ones(n) == 0) <==> (n == 0),
    decreases n,
{
    if n > 0 {
        lemma_ones_zero(n / 2);
    }
}

/// Whether every step of a path has its sibling on the left.
pub open spec fn all_false_path(path: Seq<([u8; 32], bool)>) -> bool {
    forall|i: int| 0 <= i < path.len() ==> !(#[trigger] path[i]).1
}

/// Whether a claimed leaf index is consistent with a path's side flags under
/// the odd-promotion scheme: a sibling on the right demands an even position,
/// a sibling on the left consumes the next one bit of the index (levels where
/// an even last node was promoted leave no step), and no one bit may remain
/// unconsumed. The promotion scheme determines the index only up to the
/// placement of its final one bit, so this is the strongest check the path
/// supports.
pub open spec fn index_path_consistent(idx: nat, path: Seq<([u8; 32], bool)>) -> bool
    decreases path.len(), idx,
{
    if path.len() == 0 {
        idx == 0
    } else if path.first().1 {
        idx % 2 == 0 && index_path_consistent(idx / 2, path.drop_first())
    } else if idx == 0 {
        false
    } else if idx % 2 == 1 {
        index_path_consistent(idx / 2, path.drop_first())
    } else {
        index_path_consistent(idx / 2, path)
    }
}

/// Against an all-left path, an index is consistent exactly when its one
/// bits number the path's steps.
pub proof fn lemma_consistent_all_false(idx: nat, path: Seq<([u8; 32], bool)>)
    requires
        all_false_path(path),
    ensures
        index_path_consistent(idx, path) <==> ones(idx) == path.len(),
    decreases path.len(), idx,
{
    if path.len() == 0 {
        lemma_ones_zero(idx);
    } else {
        assert(!path.first().1);
        if idx == 0 {
            lemma_ones_zero(idx);
        } else if idx % 2 == 1 {
            assert(all_false_path(path.drop_first())) by {
                assert(forall|i: int|
                    0 <= i < path.drop_first().len() ==> path.drop_first()[i] == path[i + 1]);
            }
            lemma_consistent_all_false(idx / 2, path.drop_first());
        } else {
            lemma_consistent_all_false(idx / 2, path);
        }
    }
}

/// Checks a claimed leaf index against a path's side flags.
pub fn check_index_path(idx: u64, path: &Vec<([u8; 32], bool)>) -> (r: bool)
    ensures
        r == index_path_consistent(idx as nat, path@),
{
    let mut cur = idx;
    let len = path.len();
    proof {
        assert(path@.skip(0) =~= path@);
    }
    for i in 0..len
        invariant
            len == path@.len(),
            index_path_consistent(idx as nat, path@) == index_path_consistent(
                cur as nat,
                path@.skip(i as int),
            ),
    {
        proof {
            assert(path@.skip(i as int).first() == path@[i as int]);
            assert(path@.skip(i as int).drop_first() =~= path@.skip(i + 1));
        }
        let (_, is_right) = path[i];
        if is_right {
            if cur % 2 == 1 {
                return false;
            }
            cur = cur / 2;
        } else {
            while cur % 2 == 0 && cur != 0
                invariant
                    i < len,
                    len == path@.len(),
                    !path@[i as int].1,
                    index_path_consistent(idx as nat, path@) == index_path_consistent(
                        cur as nat,
                        path@.skip(i as int),
                    ),
                decreases cur,
            {
                proof {
                    assert(path@.skip(i as int).first() == path@[i as int]);
                }
                cur = cur / 2;
            }
            if cur == 0 {
                return false;
            }
            cur = cur / 2;
        }
    }
    proof {
        assert(path@.skip(len as int) =~= Seq::<([u8; 32], bool)>::empty());
    }
    cur == 0
}

/// A position-indexed opening of one leaf: the leaf's hash and the sibling
/// hashes up to the root, each with its side.
#[derive(Debug)]
pub struct MerkleProof {
    pub leaf_index: u64,
    pub leaf_hash: [u8; 32],
    pub path: Vec<([u8; 32], bool)>,
}

impl Clone for MerkleProof {
    /// Copies the opening; the copy carries the same leaf index, leaf hash,
    /// and path.
    fn clone(&self) -> (res: Self)
        ensures
            res.leaf_index == self.leaf_index,
            res.leaf_hash == self.leaf_hash,
            res.path@ == self.path@,
    {
        let mut path: Vec<([u8; 32], bool)> = Vec::new();
        let len = self.path.len();
        for i in 0..len
            invariant
                len == self.path@.len(),
                path@ == self.path@.take(i as int),
        {
            proof {
                assert(self.path@.take(i + 1) =~= self.path@.take(i as int).push(
                    self.path@[i as int],
                ));
            }
            path.push(self.path[i]);
        }
        proof {
            assert(self.path@.take(len as int) =~= self.path@);
        }
        MerkleProof { leaf_index: self.leaf_index, leaf_hash: self.leaf_hash, path }
    }
}

impl MerkleProof {
    /// Recomputes the root from the leaf hash along the path and compares.
    pub fn verify<H: QuantumHash>(&self, root: &[u8; 32], hasher: &H) -> (r: bool)
        ensures
            r == (merkle_recompute(*hasher, self.leaf_hash, self.path@) == *root),
    {
        let current = compute_merkle_root(self, hasher);
        bytes32_eq(&current, root)
    }
}

/// Recomputes the root a proof's leaf hash reaches along its path.
pub fn compute_merkle_root<H: QuantumHash>(proof: &MerkleProof, hasher: &H) -> (r: [u8; 32])
    ensures
        r == merkle_recompute(*hasher, proof.leaf_hash, proof.path@),
{
    let mut current = proof.leaf_hash;
    let len = proof.path.len();
    for i in 0..len
        invariant
            len == proof.path@.len(),
            current == merkle_recompute(*hasher, proof.leaf_hash, proof.path@.take(i as int)),
    {
        let (sibling, is_right) = proof.path[i];
        let mut data: Vec<u8> = Vec::new();
        if is_right {
            data.extend_from_slice(current.as_slice());
            data.extend_from_slice(sibling.as_slice());
            proof {
                assert(data@ =~= current@ + sibling@);
            }
        } else {
            data.extend_from_slice(sibling.as_slice());
            data.extend_from_slice(current.as_slice());
            proof {
                assert(data@ =~= sibling@ + current@);
            }
        }
        proof {
            assert(proof.path@.take(i + 1).drop_last() =~= proof.path@.take(i as int));
            assert(proof.path@.take(i + 1).last() == proof.path@[i as int]);
        }
        current = hasher.hash(data.as_slice());
    }
    proof {
        assert(proof.path@.take(len as int) =~= proof.path@);
    }
    current
}

/// The bottom level of a tree: the hash of each leaf's bytes; an empty input
/// is padded with one empty leaf.
pub open spec fn leaf_hashes<H: QuantumHash>(h: H, leaves: Seq<Seq<u8>>) -> Seq<[u8; 32]> {
    if leaves.len() == 0 {
        seq![h.hash_spec(Seq::<u8>::empty())]
    } else {
        leaves.map_values(|d: Seq<u8>| h.hash_spec(d))
    }
}

/// One level is built from the one below it: adjacent pairs combine, an odd
/// last node is promoted unchanged.
pub open spec fn level_ok<H: QuantumHash>(h: H, prev: Seq<[u8; 32]>, next: Seq<[u8; 32]>) -> bool {
    &&& next.len() == (prev.len() + 1) / 2
    &&& forall|t: int|
        0 <= t < next.len() ==> #[trigger] next[t] == (if 2 * t + 1 < prev.len() {
            h.hash_spec(prev[2 * t]@ + prev[2 * t + 1]@)
        } else {
            prev[2 * t]
        })
}

/// Consecutive levels of a (possibly partial) level stack are linked and all
/// but the topmost hold more than one node.
pub open spec fn levels_chained<H: QuantumHash>(h: H, lv: Seq<Seq<[u8; 32]>>) -> bool {
    forall|k: int|
        0 <= k < lv.len() - 1 ==> (#[trigger] lv[k]).len() > 1 && level_ok(h, lv[k], lv[k + 1])
}

/// A standard binary Merkle tree, stored as its levels from leaves to root.
pub struct MerkleTree<H: QuantumHash> {
    levels: Vec<Vec<[u8; 32]>>,
    hasher: Ghost<H>,
    leaves: Ghost<Seq<Seq<u8>>>,
}

impl<H: QuantumHash> MerkleTree<H> {
    /// The oracle the tree was built with.
    pub closed spec fn spec_hasher(self) -> H {
        self.hasher@
    }

    /// The leaf byte strings the tree commits to.
    pub closed spec fn spec_leaves(self) -> Seq<Seq<u8>> {
        self.leaves@
    }

    /// The stored levels, as sequences.
    closed spec fn lv(self, k: int) -> Seq<[u8; 32]> {
        self.levels@[k]@
    }

    /// How many bottom-level nodes the tree has (an empty input still has
    /// one, the padding leaf).
    pub closed spec fn spec_leaf_count(self) -> nat {
        self.levels@[0]@.len()
    }

    /// The root hash.
    pub closed spec fn spec_root(self) -> [u8; 32] {
        self.levels@[self.levels@.len() - 1]@[0]
    }

    /// The levels start at the hashed leaves, are pairwise linked, and end in
    /// a single root.
    pub closed spec fn wf(self) -> bool {
        &&& self.levels@.len() >= 1
        &&& self.lv(0) == leaf_hashes(self.hasher@, self.leaves@)
        &&& self.lv(self.levels@.len() - 1).len() == 1
        &&& forall|k: int| 0 <= k < self.levels@.len() ==> (#[trigger] self.lv(k)).len() >= 1
        &&& levels_chained(self.hasher@, self.levels@.map_values(|l: Vec<[u8; 32]>| l@))
    }

    /// Hashes each leaf, then combines level by level until one root remains.
    #[verifier::rlimit(50)]
    pub fn new(data: &[Vec<u8>], hasher: &H) -> (t: MerkleTree<H>)
        ensures
            t.wf(),
            t.spec_hasher() == *hasher,
            t.spec_leaves() == data@.map_values(|v: Vec<u8>| v@),
            t.spec_leaf_count() == if data@.len() == 0 {
                1nat
            } else {
                data@.len()
            },
            data@.len() == 0 ==> t.spec_root() == hasher.hash_spec(Seq::<u8>::empty()),
            data@.len() == 1 ==> t.spec_root() == hasher.hash_spec(data@[0]@),
    {
        let ghost gleaves = data@.map_values(|v: Vec<u8>| v@);
        let mut current: Vec<[u8; 32]> = Vec::new();
        let len = data.len();
        for i in 0..len
            invariant
                len == data@.len(),
                current@.len() == i,
                forall|k: int| 0 <= k < i ==> current@[k] == hasher.hash_spec(data@[k]@),
        {
            current.push(hasher.hash(data[i].as_slice()));
        }
        if current.len() == 0 {
            let empty: Vec<u8> = Vec::new();
            current.push(hasher.hash(empty.as_slice()));
        }
        proof {
            assert(current@ =~= leaf_hashes(*hasher, gleaves));
        }

        let mut levels: Vec<Vec<[u8; 32]>> = Vec::new();
        let mut top: Vec<[u8; 32]> = current;
        while top.len() > 1
            invariant
                top@.len() >= 1,
                (levels@.map_values(|l: Vec<[u8; 32]>| l@).push(top@))[0] == leaf_hashes(
                    *hasher,
                    gleaves,
                ),
                levels_chained(*hasher, levels@.map_values(|l: Vec<[u8; 32]>| l@).push(top@)),
                forall|k: int| 0 <= k < levels@.len() ==> (#[trigger] levels@[k])@.len() >= 1,
            decreases top@.len(),
        {
            let prev_len = top.len();
            let m = prev_len / 2 + prev_len % 2;
            let mut next: Vec<[u8; 32]> = Vec::new();
            for t in 0..m
                invariant
                    m == (top@.len() + 1) / 2,
                    prev_len == top@.len(),
                    next@.len() == t,
                    forall|s: int|
                        0 <= s < t ==> #[trigger] next@[s] == (if 2 * s + 1 < top@.len() {
                            hasher.hash_spec(top@[2 * s]@ + top@[2 * s + 1]@)
                        } else {
                            top@[2 * s]
                        }),
            {
                if 2 * t + 1 < prev_len {
                    let mut buf: Vec<u8> = Vec::new();
                    buf.extend_from_slice(top[2 * t].as_slice());
                    buf.extend_from_slice(top[2 * t + 1].as_slice());
                    proof {
                        assert(buf@ =~= top@[2 * t as int]@ + top@[2 * t + 1]@);
                    }
                    next.push(hasher.hash(buf.as_slice()));
                } else {
                    next.push(top[2 * t]);
                }
            }
            proof {
                assert(level_ok(*hasher, top@, next@));
            }
            let ghost old_levels = levels@.map_values(|l: Vec<[u8; 32]>| l@);
            let ghost old_top = top@;
            levels.push(top);
            top = next;
            proof {
                let new_stack = levels@.map_values(|l: Vec<[u8; 32]>| l@).push(top@);
                assert(new_stack =~= old_levels.push(old_top).push(top@));
                assert(levels_chained(*hasher, new_stack)) by {
                    let st = old_levels.push(old_top).push(top@);
                    assert forall|k: int| 0 <= k < st.len() - 1 implies (#[trigger] st[k]).len() > 1
                        && level_ok(*hasher, st[k], st[k + 1]) by {
                        if k < st.len() - 2 {
                            assert(old_levels.push(old_top)[k] == st[k]);
                            assert(old_levels.push(old_top)[k + 1] == st[k + 1]);
                        } else {
                            assert(st[k] == old_top);
                            assert(st[k + 1] == top@);
                        }
                    }
                }
            }
        }
        let ghost final_stack = levels@.map_values(|l: Vec<[u8; 32]>| l@).push(top@);
        levels.push(top);
        let t = MerkleTree { levels, hasher: Ghost(*hasher), leaves: Ghost(gleaves) };
        proof {
            assert(t.levels@.map_values(|l: Vec<[u8; 32]>| l@) =~= final_stack);
            assert(t.lv(0) =~= leaf_hashes(*hasher, gleaves));
            assert forall|k: int| 0 <= k < t.levels@.len() implies (#[trigger] t.lv(k)).len()
                >= 1 by {
                if k < t.levels@.len() - 1 {
                    assert(final_stack[k].len() > 1);
                }
            }
            if gleaves.len() == 1 {
                assert(t.spec_leaf_count() == 1);
                if t.levels@.len() > 1 {
                    assert(final_stack[0].len() > 1);
                    assert(false);
                }
                assert(t.spec_root() == leaf_hashes(*hasher, gleaves)[0]);
            }
            if gleaves.len() == 0 {
                if t.levels@.len() > 1 {
                    assert(final_stack[0].len() > 1);
                    assert(false);
                }
                assert(t.spec_root() == leaf_hashes(*hasher, gleaves)[0]);
            }
        }
        t
    }

    /// The root hash; a tree always has one.
    pub fn root(&self) -> (r: [u8; 32])
        requires
            self.wf(),
        ensures
            r == self.spec_root(),
    {
        let last = self.levels.len() - 1;
        self.levels[last][0]
    }

    /// The number of bottom-level nodes.
    pub fn leaf_count(&self) -> (r: usize)
        requires
            self.wf(),
        ensures
            r == self.spec_leaf_count(),
    {
        self.levels[0].len()
    }

    /// Opens the leaf at `index`: present exactly for indices below the leaf
    /// count; the opening's path always recomputes to the root and its side
    /// flags are consistent with the index.
    pub fn get_proof(&self, index: usize) -> (r: Option<MerkleProof>)
        requires
            self.wf(),
        ensures
            r.is_some() <==> index < self.spec_leaf_count(),
            r matches Some(p) ==> {
                &&& p.leaf_index == index
                &&& p.leaf_hash == leaf_hashes(self.spec_hasher(), self.spec_leaves())[index as int]
                &&& merkle_recompute(self.spec_hasher(), p.leaf_hash, p.path@) == self.spec_root()
                &&& index_path_consistent(index as nat, p.path@)
            },
    {
        if index >= self.levels[0].len() {
            return None;
        }

        let ghost stack = self.levels@.map_values(|l: Vec<[u8; 32]>| l@);
        let mut path: Vec<([u8; 32], bool)> = Vec::new();
        let mut idx = index;
        let mut k: usize = 0;
        let nlev = self.levels.len();
        let leaf_hash = self.levels[0][index];
        let ghost mut promoted: bool = false;
        proof {
            assert forall|rest: Seq<([u8; 32], bool)>| #[trigger] index_path_consistent(
                idx as nat,
                rest,
            ) implies index_path_consistent(index as nat, path@ + rest) by {
                assert(path@ + rest =~= rest);
            }
        }
        while self.levels[k].len() > 1
            invariant
                self.wf(),
                stack == self.levels@.map_values(|l: Vec<[u8; 32]>| l@),
                nlev == self.levels@.len(),
                k < self.levels@.len(),
                idx < self.lv(k as int).len(),
                index < self.lv(0).len(),
                leaf_hash == self.lv(0)[index as int],
                merkle_recompute(self.spec_hasher(), leaf_hash, path@) == self.lv(k as int)[idx as int],
                promoted ==> idx == self.lv(k as int).len() - 1,
                !promoted ==> forall|rest: Seq<([u8; 32], bool)>| #[trigger] index_path_consistent(
                    idx as nat,
                    rest,
                ) ==> index_path_consistent(index as nat, path@ + rest),
                promoted ==> forall|rest: Seq<([u8; 32], bool)>|
                    all_false_path(rest) && #[trigger] index_path_consistent(idx as nat, rest)
                        ==> index_path_consistent(index as nat, path@ + rest),
            decreases self.levels@.len() - k,
        {
            proof {
                if k == self.levels@.len() - 1 {
                    assert(self.lv(k as int).len() == 1);
                    assert(false);
                }
                assert(stack[k as int] == self.lv(k as int));
                assert(stack[k as int + 1] == self.lv(k as int + 1));
                assert(level_ok(self.spec_hasher(), self.lv(k as int), self.lv(k as int + 1)));
            }
            let level_len = self.levels[k].len();
            let sibling = if idx % 2 == 0 {
                idx + 1
            } else {
                idx - 1
            };
            let ghost prev_path = path@;
            let ghost old_idx = idx;
            let ghost old_promoted = promoted;
            let ghost old_level_len = self.lv(k as int).len();
            let ghost cur = self.lv(k as int)[idx as int];
            let ghost mut pushed: Option<([u8; 32], bool)> = None;
            if sibling < level_len {
                let sib_hash = self.levels[k][sibling];
                let is_right = sibling > idx;
                path.push((sib_hash, is_right));
                proof {
                    pushed = Some((sib_hash, is_right));
                    lemma_merkle_recompute_push(
                        self.spec_hasher(),
                        leaf_hash,
                        prev_path,
                        (sib_hash, is_right),
                    );
                    let half = idx as int / 2;
                    if idx % 2 == 0 {
                        assert(2 * half == idx);
                        assert(2 * half + 1 == sibling);
                        assert(self.lv(k as int + 1)[half] == self.spec_hasher().hash_spec(
                            cur@ + sib_hash@,
                        ));
                    } else {
                        assert(2 * half == idx - 1);
                        assert(2 * half + 1 == idx);
                        assert(self.lv(k as int + 1)[half] == self.spec_hasher().hash_spec(
                            sib_hash@ + cur@,
                        ));
                    }
                }
            } else {
                proof {
                    let half = idx as int / 2;
                    assert(idx % 2 == 0);
                    assert(2 * half == idx);
                    assert(2 * half + 1 >= self.lv(k as int).len());
                    assert(self.lv(k as int + 1)[half] == cur);
                    promoted = true;
                }
            }
            idx = idx / 2;
            k = k + 1;
            proof {
                assert(idx < self.lv(k as int).len());
                let new_len = self.lv(k as int).len() as int;
                assert(new_len == (old_level_len + 1) / 2);
                match pushed {
                    Some(e) => {
                        // A promoted (last, even) position never has a right
                        // sibling, so a pushed step under promotion is a left
                        // sibling of an odd last position.
                        if old_promoted {
                            assert(old_idx == old_level_len - 1);
                            if old_idx % 2 == 0 {
                                assert(false);
                            }
                            assert(!e.1);
                            assert(idx == new_len - 1);
                            assert forall|rest: Seq<([u8; 32], bool)>|
                                all_false_path(rest) && #[trigger] index_path_consistent(
                                    idx as nat,
                                    rest,
                                ) implies index_path_consistent(index as nat, path@ + rest) by {
                                let rest2 = seq![e] + rest;
                                assert(rest2.first() == e);
                                assert(rest2.drop_first() =~= rest);
                                assert(all_false_path(rest2));
                                assert(index_path_consistent(old_idx as nat, rest2));
                                assert(index_path_consistent(index as nat, prev_path + rest2));
                                assert(prev_path + rest2 =~= path@ + rest);
                            }
                        } else {
                            assert forall|rest: Seq<([u8; 32], bool)>| #[trigger]
                                index_path_consistent(idx as nat, rest) implies
                                index_path_consistent(index as nat, path@ + rest) by {
                                let rest2 = seq![e] + rest;
                                assert(rest2.first() == e);
                                assert(rest2.drop_first() =~= rest);
                                assert(index_path_consistent(old_idx as nat, rest2));
                                assert(index_path_consistent(index as nat, prev_path + rest2));
                                assert(prev_path + rest2 =~= path@ + rest);
                            }
                            if promoted {
                                assert(idx == new_len - 1);
                            }
                        }
                    },
                    None => {
                        // Promotion: the even last position carries upward.
                        assert(old_idx == old_level_len - 1);
                        assert(old_idx % 2 == 0);
                        assert(idx == new_len - 1);
                        assert forall|rest: Seq<([u8; 32], bool)>|
                            all_false_path(rest) && #[trigger] index_path_consistent(
                                idx as nat,
                                rest,
                            ) implies index_path_consistent(index as nat, path@ + rest) by {
                            lemma_consistent_all_false(idx as nat, rest);
                            assert(ones(old_idx as nat) == ones(idx as nat));
                            lemma_consistent_all_false(old_idx as nat, rest);
                            assert(index_path_consistent(old_idx as nat, rest));
                            assert(index_path_consistent(index as nat, prev_path + rest));
                            assert(prev_path =~= path@);
                        }
                    },
                }
            }
        }
        proof {
            if k != self.levels@.len() - 1 {
                assert(stack[k as int] == self.lv(k as int));
                assert(self.lv(k as int).len() > 1);
                assert(false);
            }
            assert(idx == 0);
            assert(self.lv(k as int)[0] == self.spec_root());
            let rest = Seq::<([u8; 32], bool)>::empty();
            assert(index_path_consistent(idx as nat, rest));
            assert(all_false_path(rest));
            assert(index_path_consistent(index as nat, path@ + rest));
            assert(path@ + rest =~= path@);
        }
        Some(MerkleProof { leaf_index: index as u64, leaf_hash, path })
    }
}

/// A two-level opening: the leaf's proof inside its chunk, and the chunk
/// root's proof inside the top tree.
#[derive(Debug)]
pub struct ChunkedMerkleProof {
    pub chunk_index: u64,
    pub leaf_index_within_chunk: u64,
    pub leaf_proof: MerkleProof,
    pub chunk_proof: MerkleProof,
}

/// What it means for a chunked opening to verify against a root: the leaf
/// proof recomputes some chunk root, the top tree's leaf is the hash of that
/// chunk root, and the chunk proof recomputes the root.
pub open spec fn chunked_proof_valid<H: QuantumHash>(
    h: H,
    p: ChunkedMerkleProof,
    root: [u8; 32],
) -> bool {
    let chunk_root = merkle_recompute(h, p.leaf_proof.leaf_hash, p.leaf_proof.path@);
    &&& p.leaf_index_within_chunk == p.leaf_proof.leaf_index
    &&& p.chunk_index == p.chunk_proof.leaf_index
    &&& index_path_consistent(p.leaf_proof.leaf_index as nat, p.leaf_proof.path@)
    &&& index_path_consistent(p.chunk_proof.leaf_index as nat, p.chunk_proof.path@)
    &&& p.chunk_proof.leaf_hash == h.hash_spec(chunk_root@)
    &&& merkle_recompute(h, p.chunk_proof.leaf_hash, p.chunk_proof.path@) == root
}

impl Clone for ChunkedMerkleProof {
    /// Copies the opening; any root it verified against, the copy verifies
    /// against.
    fn clone(&self) -> (res: Self)
        ensures
            res.chunk_index == self.chunk_index,
            res.leaf_index_within_chunk == self.leaf_index_within_chunk,
            res.leaf_proof.leaf_index == self.leaf_proof.leaf_index,
            res.leaf_proof.leaf_hash == self.leaf_proof.leaf_hash,
            res.leaf_proof.path@ == self.leaf_proof.path@,
            res.chunk_proof.leaf_index == self.chunk_proof.leaf_index,
            res.chunk_proof.leaf_hash == self.chunk_proof.leaf_hash,
            res.chunk_proof.path@ == self.chunk_proof.path@,
    {
        ChunkedMerkleProof {
            chunk_index: self.chunk_index,
            leaf_index_within_chunk: self.leaf_index_within_chunk,
            leaf_proof: self.leaf_proof.clone(),
            chunk_proof: self.chunk_proof.clone(),
        }
    }
}

impl ChunkedMerkleProof {
    /// Checks the recorded indices against the two paths' side flags,
    /// recomputes the chunk root from the leaf proof, checks the top-tree
    /// leaf equals its hash, and checks the chunk proof against the root.
    pub fn verify<H: QuantumHash>(&self, root: &[u8; 32], hasher: &H) -> (r: bool)
        ensures
            r == chunked_proof_valid(*hasher, *self, *root),
    {
        if self.leaf_index_within_chunk != self.leaf_proof.leaf_index {
            return false;
        }
        if self.chunk_index != self.chunk_proof.leaf_index {
            return false;
        }
        if !check_index_path(self.leaf_proof.leaf_index, &self.leaf_proof.path) {
            return false;
        }
        if !check_index_path(self.chunk_proof.leaf_index, &self.chunk_proof.path) {
            return false;
        }
        let chunk_root = compute_merkle_root(&self.leaf_proof, hasher);
        let expected_chunk_leaf = hasher.hash(chunk_root.as_slice());
        if !bytes32_eq(&self.chunk_proof.leaf_hash, &expected_chunk_leaf) {
            return false;
        }
        self.chunk_proof.verify(root, hasher)
    }
}

/// A position-indexed authenticated vector: leaves are grouped into chunks,
/// each chunk is a Merkle tree, and a top tree commits the hashed chunk
/// roots.
pub struct ChunkedMerkleTree<H: QuantumHash> {
    chunk_size: usize,
    chunk_trees: Vec<MerkleTree<H>>,
    top_tree: MerkleTree<H>,
    leaf_count: usize,
    hasher: Ghost<H>,
    leaves: Ghost<Seq<Seq<u8>>>,
}

impl<H: QuantumHash> ChunkedMerkleTree<H> {
    /// The oracle the tree was built with.
    pub closed spec fn spec_hasher(self) -> H {
        self.hasher@
    }

    /// The committed leaf byte strings.
    pub closed spec fn spec_leaves(self) -> Seq<Seq<u8>> {
        self.leaves@
    }

    /// The chunk size actually used (at least 1).
    pub closed spec fn spec_chunk_size(self) -> nat {
        self.chunk_size as nat
    }

    /// The overall root: the top tree's root.
    pub closed spec fn spec_root(self) -> [u8; 32] {
        self.top_tree.spec_root()
    }

    /// The upper end of chunk `c`'s leaf range.
    pub open spec fn chunk_end(len: int, cs: int, c: int) -> int {
        if (c + 1) * cs <= len {
            (c + 1) * cs
        } else {
            len
        }
    }

    /// Chunk trees cover the leaves in order, the top tree commits the chunk
    /// roots, and an empty input leaves one tree over a single empty leaf.
    pub closed spec fn wf(self) -> bool {
        let h = self.hasher@;
        let d = self.leaves@;
        let cs = self.chunk_size as int;
        let ct = self.chunk_trees@;
        &&& self.chunk_size >= 1
        &&& self.leaf_count == d.len()
        &&& self.top_tree.wf()
        &&& self.top_tree.spec_hasher() == h
        &&& if d.len() == 0 {
            self.top_tree.spec_leaves() == seq![Seq::<u8>::empty()]
        } else {
            &&& ct.len() >= 1
            &&& (ct.len() - 1) * cs < d.len() <= ct.len() * cs
            &&& forall|c: int|
                0 <= c < ct.len() ==> {
                    &&& (#[trigger] ct[c]).wf()
                    &&& ct[c].spec_hasher() == h
                    &&& ct[c].spec_leaves() == d.subrange(
                        c * cs,
                        Self::chunk_end(d.len() as int, cs, c),
                    )
                }
            &&& self.top_tree.spec_leaves() == Seq::new(ct.len(), |c: int| ct[c].spec_root()@)
        }
    }

    /// Builds the chunk trees over consecutive slices of `data` and the top
    /// tree over their roots; an empty input becomes a single-empty-leaf
    /// tree whose root is the hash of no bytes.
    pub fn new(data: &[Vec<u8>], hasher: &H, chunk_size: usize) -> (t: ChunkedMerkleTree<H>)
        ensures
            t.wf(),
            t.spec_hasher() == *hasher,
            t.spec_leaves() == data@.map_values(|v: Vec<u8>| v@),
            t.spec_chunk_size() == if chunk_size >= 1 {
                chunk_size as nat
            } else {
                1nat
            },
            data@.len() == 0 ==> t.spec_root() == hasher.hash_spec(Seq::<u8>::empty()),
    {
        let chunk_size = if chunk_size >= 1 {
            chunk_size
        } else {
            1
        };
        let ghost gleaves = data@.map_values(|v: Vec<u8>| v@);

        if data.len() == 0 {
            let mut pad: Vec<Vec<u8>> = Vec::new();
            pad.push(Vec::new());
            let chunk_tree = MerkleTree::new(pad.as_slice(), hasher);
            let mut pad2: Vec<Vec<u8>> = Vec::new();
            pad2.push(Vec::new());
            let top_tree = MerkleTree::new(pad2.as_slice(), hasher);
            proof {
                assert(pad2@.map_values(|v: Vec<u8>| v@) =~= seq![Seq::<u8>::empty()]);
                assert(gleaves =~= Seq::<Seq<u8>>::empty());
            }
            let mut chunk_trees: Vec<MerkleTree<H>> = Vec::new();
            chunk_trees.push(chunk_tree);
            return ChunkedMerkleTree {
                chunk_size,
                chunk_trees,
                top_tree,
                leaf_count: 0,
                hasher: Ghost(*hasher),
                leaves: Ghost(gleaves),
            };
        }

        let mut chunk_trees: Vec<MerkleTree<H>> = Vec::new();
        let mut top_leaves: Vec<Vec<u8>> = Vec::new();
        let mut start: usize = 0;
        let len = data.len();
        while start < len
            invariant
                chunk_size >= 1,
                len == data@.len(),
                gleaves == data@.map_values(|v: Vec<u8>| v@),
                top_leaves@.len() == chunk_trees@.len(),
                start == if chunk_trees@.len() * chunk_size <= len {
                    chunk_trees@.len() * chunk_size
                } else {
                    len as int
                },
                start <= len,
                chunk_trees@.len() >= 1 ==> (chunk_trees@.len() - 1) * chunk_size < len,
                forall|c: int|
                    0 <= c < chunk_trees@.len() ==> {
                        &&& (#[trigger] chunk_trees@[c]).wf()
                        &&& chunk_trees@[c].spec_hasher() == *hasher
                        &&& chunk_trees@[c].spec_leaves() == gleaves.subrange(
                            c * chunk_size,
                            Self::chunk_end(len as int, chunk_size as int, c),
                        )
                    },
                forall|c: int|
                    0 <= c < top_leaves@.len() ==> (#[trigger] top_leaves@[c])@
                        == chunk_trees@[c].spec_root()@,
            decreases len - start,
        {
            let ghost done = chunk_trees@.len() as int;
            let end = if len - start >= chunk_size {
                start + chunk_size
            } else {
                len
            };
            proof {
                assert(start == done * chunk_size);
                assert(done * chunk_size + chunk_size == (done + 1) * chunk_size)
                    by (nonlinear_arith);
                assert(end as int == Self::chunk_end(len as int, chunk_size as int, done));
            }
            let mut chunk: Vec<Vec<u8>> = Vec::new();
            let mut i = start;
            while i < end
                invariant
                    start <= i <= end <= len,
                    len == data@.len(),
                    gleaves == data@.map_values(|v: Vec<u8>| v@),
                    chunk@.len() == i - start,
                    forall|q: int|
                        0 <= q < i - start ==> (#[trigger] chunk@[q])@ == gleaves[start + q],
                decreases end - i,
            {
                let leaf = clone_bytes(&data[i]);
                chunk.push(leaf);
                i = i + 1;
            }
            let tree = MerkleTree::new(chunk.as_slice(), hasher);
            proof {
                assert(chunk@.map_values(|v: Vec<u8>| v@) =~= gleaves.subrange(
                    start as int,
                    end as int,
                ));
            }
            let root = tree.root();
            let mut root_bytes: Vec<u8> = Vec::new();
            root_bytes.extend_from_slice(root.as_slice());
            proof {
                assert(root_bytes@ =~= tree.spec_root()@);
            }
            top_leaves.push(root_bytes);
            chunk_trees.push(tree);
            start = end;
            proof {
                assert((chunk_trees@.len() - 1) * chunk_size == done * chunk_size);
            }
        }
        let ghost nchunks = chunk_trees@.len() as int;
        proof {
            assert(start == len);
            assert(nchunks >= 1) by {
                if nchunks == 0 {
                    assert(start == if 0 * chunk_size <= len {
                        0 * chunk_size
                    } else {
                        len as int
                    });
                }
            }
            assert(len <= nchunks * chunk_size) by {
                if nchunks * chunk_size < len {
                    assert(start == len as int);
                    assert(len as int == nchunks * chunk_size);
                }
            }
        }
        let top_tree = MerkleTree::new(top_leaves.as_slice(), hasher);
        let t = ChunkedMerkleTree {
            chunk_size,
            chunk_trees,
            top_tree,
            leaf_count: len,
            hasher: Ghost(*hasher),
            leaves: Ghost(gleaves),
        };
        proof {
            assert(t.top_tree.spec_leaves() =~= Seq::new(
                t.chunk_trees@.len(),
                |c: int| t.chunk_trees@[c].spec_root()@,
            ));
        }
        t
    }

    /// The overall root.
    pub fn root(&self) -> (r: [u8; 32])
        requires
            self.wf(),
        ensures
            r == self.spec_root(),
    {
        self.top_tree.root()
    }

    /// How many leaves were committed (zero for an empty input).
    pub fn leaves(&self) -> (r: usize)
        requires
            self.wf(),
        ensures
            r == self.spec_leaves().len(),
    {
        self.leaf_count
    }

    /// Opens the leaf at `index`: present exactly for indices below the leaf
    /// count, and the opening always verifies against the tree's root with
    /// the leaf's own hash at the bottom.
    pub fn get_proof(&self, index: usize) -> (r: Option<ChunkedMerkleProof>)
        requires
            self.wf(),
        ensures
            r.is_some() <==> index < self.spec_leaves().len(),
            r matches Some(p) ==> {
                &&& p.chunk_index == index as int / self.spec_chunk_size() as int
                &&& p.leaf_index_within_chunk == index as int % self.spec_chunk_size() as int
                &&& p.leaf_proof.leaf_hash == self.spec_hasher().hash_spec(
                    self.spec_leaves()[index as int],
                )
                &&& chunked_proof_valid(self.spec_hasher(), p, self.spec_root())
            },
    {
        if index >= self.leaf_count {
            return None;
        }
        let cs = self.chunk_size;
        let ci = index / cs;
        let off = index % cs;
        let ghost d = self.leaves@;
        let ghost nchunks = self.chunk_trees@.len();
        proof {
            crate::graph::lemma_row_major_decompose(cs as int, index as int);
            assert(ci < nchunks) by (nonlinear_arith)
                requires
                    cs >= 1,
                    index < d.len(),
                    d.len() <= nchunks * cs,
                    ci == index as int / cs as int,
                    index as int == ci * cs + off,
                    0 <= off < cs,
            ;
            let lo = ci as int * cs as int;
            let hi = Self::chunk_end(d.len() as int, cs as int, ci as int);
            assert(lo <= index < hi) by (nonlinear_arith)
                requires
                    index as int == ci * cs + off,
                    0 <= off < cs,
                    index < d.len(),
                    hi == if (ci + 1) * (cs as int) <= d.len() {
                        (ci + 1) * (cs as int)
                    } else {
                        d.len() as int
                    },
                    lo == ci as int * cs as int,
            ;
        }
        let leaf_tree = &self.chunk_trees[ci];
        let ghost chunk_leaves = leaf_tree.spec_leaves();
        proof {
            assert(chunk_leaves.len() >= 1);
            assert(off < leaf_tree.spec_leaf_count());
        }
        let leaf_proof = match leaf_tree.get_proof(off) {
            Some(p) => p,
            None => {
                proof {
                    assert(false);
                }
                return None;
            },
        };
        proof {
            assert(self.top_tree.spec_leaves().len() == nchunks);
            assert(self.top_tree.spec_leaf_count() == nchunks);
        }
        let chunk_proof = match self.top_tree.get_proof(ci) {
            Some(p) => p,
            None => {
                proof {
                    assert(false);
                }
                return None;
            },
        };
        let p = ChunkedMerkleProof {
            chunk_index: ci as u64,
            leaf_index_within_chunk: off as u64,
            leaf_proof,
            chunk_proof,
        };
        proof {
            assert(chunk_leaves[off as int] == d[index as int]);
            assert(p.leaf_proof.leaf_hash == self.spec_hasher().hash_spec(d[index as int]));
            let chunk_root = merkle_recompute(
                self.spec_hasher(),
                p.leaf_proof.leaf_hash,
                p.leaf_proof.path@,
            );
            assert(chunk_root == self.chunk_trees@[ci as int].spec_root());
            assert(self.top_tree.spec_leaves()[ci as int] == chunk_root@);
            assert(p.chunk_proof.leaf_hash == self.spec_hasher().hash_spec(chunk_root@));
        }
        Some(p)
    }
}

/// Copies a byte vector.
fn clone_bytes(v: &Vec<u8>) -> (r: Vec<u8>)
    ensures
        r@ == v@,
{
    let r = v.clone();
    proof {
        assert(r@ =~= v@);
    }
    r
}

/// The serialized edge leaf: `from_be || to_be || color`.
pub open spec fn edge_leaf_bytes(from: u32, to: u32, c: Color) -> Seq<u8> {
    u32_be_bytes(from) + u32_be_bytes(to) + seq![color_u8(c)]
}

/// Serializes one edge into its 9-byte leaf.
pub fn encode_edge_leaf(from: u32, to: u32, color: Color) -> (r: Vec<u8>)
    ensures
        r@ == edge_leaf_bytes(from, to, color),
{
    let mut serialized: Vec<u8> = Vec::new();
    push_u32_be(&mut serialized, from);
    push_u32_be(&mut serialized, to);
    serialized.push(color.to_u8());
    proof {
        assert(serialized@ =~= edge_leaf_bytes(from, to, color));
    }
    serialized
}

/// The edge leaves of a graph, row-major: leaf `i * n + j` serializes the
/// edge (i, j).
pub open spec fn edge_leaves(g: Graph) -> Seq<Seq<u8>> {
    Seq::new(
        (g.n * g.n) as nat,
        |k: int| edge_leaf_bytes(
            (k / (g.n as int)) as u32,
            (k % (g.n as int)) as u32,
            g.color_at(k / (g.n as int), k % (g.n as int)),
        ),
    )
}

/// A chunked tree whose leaves are the serialized edges of a graph, with
/// (from, to) mapped to leaf index `from * n + to`.
pub struct GraphMerkleTree<H: QuantumHash> {
    chunked: ChunkedMerkleTree<H>,
    n: u32,
}

impl<H: QuantumHash> GraphMerkleTree<H> {
    /// The oracle the tree was built with.
    pub closed spec fn spec_hasher(self) -> H {
        self.chunked.spec_hasher()
    }

    /// The committed edge leaves.
    pub closed spec fn spec_leaves(self) -> Seq<Seq<u8>> {
        self.chunked.spec_leaves()
    }

    /// The graph size the tree was built for.
    pub closed spec fn spec_n(self) -> u32 {
        self.n
    }

    /// The overall root.
    pub closed spec fn spec_root(self) -> [u8; 32] {
        self.chunked.spec_root()
    }

    /// The inner chunked tree is sound and holds one leaf per ordered pair.
    pub closed spec fn wf(self) -> bool {
        &&& self.chunked.wf()
        &&& self.n <= 0xFFFF
        &&& self.chunked.spec_leaves().len() == self.n * self.n
    }

    /// Serializes every edge of the graph in row-major order and commits the
    /// leaves with the default chunk size.
    pub fn from_graph(graph: &Graph, hasher: &H) -> (t: GraphMerkleTree<H>)
        requires
            graph.wf(),
        ensures
            t.wf(),
            t.spec_hasher() == *hasher,
            t.spec_n() == graph.n,
            t.spec_leaves() == edge_leaves(*graph),
    {
        let n = graph.n;
        let mut data: Vec<Vec<u8>> = Vec::new();
        proof {
            assert(data@.len() == 0 * n);
            assert(forall|k: int|
                0 <= k < 0 * n ==> (#[trigger] data@[k])@ == edge_leaf_bytes(
                    (k / (n as int)) as u32,
                    (k % (n as int)) as u32,
                    graph.color_at(k / (n as int), k % (n as int)),
                ));
        }
        for i in 0..n
            invariant
                graph.wf(),
                graph.n == n,
                data@.len() == i * n,
                forall|k: int|
                    0 <= k < i * n ==> (#[trigger] data@[k])@ == edge_leaf_bytes(
                        (k / (n as int)) as u32,
                        (k % (n as int)) as u32,
                        graph.color_at(k / (n as int), k % (n as int)),
                    ),
        {
            for j in 0..n
                invariant
                    graph.wf(),
                    graph.n == n,
                    i < n,
                    data@.len() == i * n + j,
                    forall|k: int|
                        0 <= k < i * n + j ==> (#[trigger] data@[k])@ == edge_leaf_bytes(
                            (k / (n as int)) as u32,
                            (k % (n as int)) as u32,
                            graph.color_at(k / (n as int), k % (n as int)),
                        ),
            {
                let color = graph.get_edge(i, j);
                let leaf = encode_edge_leaf(i, j, color);
                data.push(leaf);
                proof {
                    crate::graph::lemma_row_major_index(n as int, i as int, j as int);
                }
            }
            proof {
                assert((i + 1) * (n as int) == i * n + n) by (nonlinear_arith);
            }
        }
        proof {
            assert(data@.len() == n * n) by (nonlinear_arith)
                requires
                    data@.len() == (n as int) * (n as int),
            ;
        }
        let chunked = ChunkedMerkleTree::new(data.as_slice(), hasher, DEFAULT_CHUNK_SIZE);
        let t = GraphMerkleTree { chunked, n };
        proof {
            assert(t.spec_leaves() =~= edge_leaves(*graph));
        }
        t
    }

    /// The overall root.
    pub fn root(&self) -> (r: [u8; 32])
        requires
            self.wf(),
        ensures
            r == self.spec_root(),
    {
        self.chunked.root()
    }

    /// Opens the edge (from, to): present exactly when both endpoints are in
    /// range, and the opening always verifies against the root with the
    /// serialized edge's hash at the bottom.
    pub fn get_edge_proof(&self, from: u32, to: u32) -> (r: Option<ChunkedMerkleProof>)
        requires
            self.wf(),
        ensures
            r.is_some() <==> from < self.spec_n() && to < self.spec_n(),
            r matches Some(p) ==> {
                &&& p.leaf_proof.leaf_hash == self.spec_hasher().hash_spec(
                    self.spec_leaves()[from * self.spec_n() + to],
                )
                &&& chunked_proof_valid(self.spec_hasher(), p, self.spec_root())
            },
    {
        if from >= self.n || to >= self.n {
            return None;
        }
        proof {
            assert((from as int) * (self.n as int) + (to as int) < (self.n as int) * (
            self.n as int)) by (nonlinear_arith)
                requires
                    from < self.n,
                    to < self.n,
            ;
            assert((self.n as int) * (self.n as int) <= 0xFFFF * 0xFFFF) by (nonlinear_arith)
                requires
                    self.n <= 0xFFFF,
            ;
        }
        let index = (from as usize) * (self.n as usize) + (to as usize);
        self.chunked.get_proof(index)
    }
}

} // verus!
