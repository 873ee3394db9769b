//! The prover engine: it owns the witness graph, draws the random
//! relabeling, commits the permuted graph, the permutation, and the
//! blank-vector, and answers spot and blank challenges with authenticated
//! openings.
//!
//! `commit` establishes `committed`, and the two respond methods ensure every
//! opening they emit carries the committed color and a proof that verifies
//! against the published roots: that is the prover's half of the claim that
//! an honest transcript is always accepted.

use vstd::prelude::*;

use crate::blank_proof::{
    blank_proof_valid, generate_blank_count_proof, BlankCountProof, StarkParameters,
};
use crate::coloring::ColorationSet;
use crate::constraints::BlankCountConstraints;
use crate::graph::{blank_bits, Color, Graph};
use crate::hash::{blake3_of, default_quantum_hash, Blake3QuantumHash};
use crate::merkle::{
    chunked_proof_valid, edge_leaf_bytes, edge_leaves, ChunkedMerkleTree, GraphMerkleTree,
    MerkleTree,
};
use crate::messages::{
    BlankChallenge, BlankChallengeResponse, BlankEdgeOpening, Commitments, SpotChallenge,
    SpotChallengeResponse, SpotEdgeOpening, SpotResponse,
};
use crate::permutation::{is_permutation, random_permutation};
use crate::polynomial::{byte_sum, BlankPolynomial};
use crate::wire::push_u32_be;

verus! {

/// The prover's tuning knobs: the parameters of the blank-count argument.
#[derive(Debug, Clone)]
pub struct ProverConfig {
    pub stark: StarkParameters,
}

impl Default for ProverConfig {
    /// The default configuration: the default blank-count parameters.
    fn default() -> (r: ProverConfig)
        ensures
            r.stark.security_level == 128,
            r.stark.num_queries == 32,
            r.stark.chunk_size == 1024,
    {
        ProverConfig { stark: StarkParameters::default() }
    }
}

/// An opened spot edge is honest for a graph and a root: it reports the
/// committed color and its proof verifies against the root with the
/// serialized edge's hash at the bottom.
pub open spec fn honest_spot_edge(g: Graph, root: [u8; 32], o: SpotEdgeOpening) -> bool {
    &&& o.from < g.n
    &&& o.to < g.n
    &&& o.color == g.color_at(o.from as int, o.to as int)
    &&& o.proof.leaf_proof.leaf_hash == blake3_of(edge_leaf_bytes(o.from, o.to, o.color))
    &&& chunked_proof_valid(Blake3QuantumHash, o.proof, root)
}

/// A spot response is honest for a graph, a root, and a triad: it repeats the
/// triad's nodes and opens the nine ordered pairs in row-major order, each
/// honestly.
pub open spec fn honest_spot_response(
    g: Graph,
    root: [u8; 32],
    nodes: [u32; 3],
    resp: SpotResponse,
) -> bool {
    &&& resp.nodes == nodes
    &&& resp.edges@.len() == 9
    &&& forall|e: int|
        0 <= e < 9 ==> {
            &&& (#[trigger] resp.edges@[e]).from == nodes@[e / 3]
            &&& resp.edges@[e].to == nodes@[e % 3]
            &&& honest_spot_edge(g, root, resp.edges@[e])
        }
}

/// An opened blank edge is honest for a graph and the published roots: the
/// index decodes to its endpoints, the color and blank flag are the
/// committed ones, and both proofs verify against their roots with the
/// right leaf hashes at the bottom.
pub open spec fn honest_blank_opening(g: Graph, cm: Commitments, o: BlankEdgeOpening) -> bool {
    &&& o.edge_index < g.n * g.n
    &&& o.from == o.edge_index as int / g.n as int
    &&& o.to == o.edge_index as int % g.n as int
    &&& o.color == g.color_at(o.from as int, o.to as int)
    &&& o.is_blank == (o.color == Color::Blank)
    &&& o.color_proof.leaf_proof.leaf_hash == blake3_of(edge_leaf_bytes(o.from, o.to, o.color))
    &&& chunked_proof_valid(Blake3QuantumHash, o.color_proof, cm.graph_root)
    &&& o.blank_proof.leaf_proof.leaf_hash == blake3_of(
        seq![
            if o.is_blank {
                1u8
            } else {
                0u8
            },
        ],
    )
    &&& chunked_proof_valid(Blake3QuantumHash, o.blank_proof, cm.blank_root)
}

/// The prover's state machine: fresh until `commit`, then able to answer
/// challenges from the committed state without re-randomizing.
pub struct ProverState {
    pub original_graph: Graph,
    pub coloration_set: ColorationSet,
    hasher: Blake3QuantumHash,
    permutation: Vec<u32>,
    permuted_graph: Option<Graph>,
    blank_polynomial: Option<BlankPolynomial>,
    stark_params: Option<StarkParameters>,
    stark_proof: Option<BlankCountProof>,
    commitments: Option<Commitments>,
    graph_tree: Option<GraphMerkleTree<Blake3QuantumHash>>,
    permutation_tree: Option<MerkleTree<Blake3QuantumHash>>,
    blank_tree: Option<ChunkedMerkleTree<Blake3QuantumHash>>,
}

impl ProverState {
    /// The witness and the coloration set are well-formed and agree on the
    /// graph size.
    pub closed spec fn wf(self) -> bool {
        &&& self.original_graph.wf()
        &&& self.coloration_set.wf()
    }

    /// The graph the prover committed: the permuted copy.
    pub closed spec fn spec_permuted(self) -> Graph {
        self.permuted_graph.unwrap()
    }

    /// The commitments the prover published.
    pub closed spec fn spec_commitments(self) -> Commitments {
        self.commitments.unwrap()
    }

    /// The drawn permutation.
    pub closed spec fn spec_permutation(self) -> Seq<u32> {
        self.permutation@
    }

    /// The witness graph.
    pub closed spec fn spec_original(self) -> Graph {
        self.original_graph
    }

    /// The coloration set the prover argues membership in.
    pub closed spec fn spec_coloration(self) -> ColorationSet {
        self.coloration_set
    }

    /// The committed state: the permuted graph is the witness relabeled
    /// through a drawn permutation, the trees commit exactly its edges and
    /// blank bits under the published roots, the blank vector is well-formed
    /// and binary, and the blank-count proof is valid for the vector's true
    /// sum.
    pub closed spec fn committed(self) -> bool {
        &&& self.wf()
        &&& self.permuted_graph is Some
        &&& self.graph_tree is Some
        &&& self.blank_tree is Some
        &&& self.blank_polynomial is Some
        &&& self.stark_params is Some
        &&& self.stark_proof is Some
        &&& self.commitments is Some
        &&& self.permutation_tree is Some
        &&& {
            let gp = self.permuted_graph.unwrap();
            let gt = self.graph_tree.unwrap();
            let bt = self.blank_tree.unwrap();
            let poly = self.blank_polynomial.unwrap();
            let cm = self.commitments.unwrap();
            &&& gp.wf()
            &&& gp.n == self.original_graph.n
            &&& gp.n >= 1
            &&& is_permutation(self.permutation@, self.original_graph.n as nat)
            &&& forall|i: int, j: int|
                0 <= i < gp.n && 0 <= j < gp.n ==> gp.color_at(i, j)
                    == self.original_graph.color_at(
                    self.permutation@[i] as int,
                    self.permutation@[j] as int,
                )
            &&& gt.wf()
            &&& gt.spec_n() == gp.n
            &&& gt.spec_hasher() == self.hasher
            &&& gt.spec_leaves() == edge_leaves(gp)
            &&& gt.spec_root() == cm.graph_root
            &&& bt.wf()
            &&& bt.spec_hasher() == self.hasher
            &&& bt.spec_leaves() == blank_bits(gp).map_values(|b: u8| seq![b])
            &&& bt.spec_root() == cm.blank_root
            &&& poly.wf()
            &&& poly.spec_values() == blank_bits(gp)
            &&& crate::constraints::all_binary(poly.spec_values())
            &&& 1 <= poly.spec_values().len() < 0x100000000
            &&& cm.blank_count == self.coloration_set.spec_blank_limit()
        }
    }

    /// Wraps a witness graph and its coloration set in a fresh prover.
    pub fn new(graph: Graph, coloration_set: ColorationSet) -> (r: ProverState)
        requires
            graph.wf(),
            coloration_set.wf(),
        ensures
            r.wf(),
            r.spec_original() == graph,
            r.spec_coloration() == coloration_set,
    {
        ProverState {
            original_graph: graph,
            coloration_set,
            hasher: default_quantum_hash(),
            permutation: Vec::new(),
            permuted_graph: None,
            blank_polynomial: None,
            stark_params: None,
            stark_proof: None,
            commitments: None,
            graph_tree: None,
            permutation_tree: None,
            blank_tree: None,
        }
    }

    /// Draws a fresh permutation, relabels the witness, commits the permuted
    /// graph, the permutation, and the blank vector, generates the
    /// blank-count proof, and publishes the roots with the declared blank
    /// budget.
    pub fn commit(&mut self, config: &ProverConfig) -> (r: Commitments)
        requires
            old(self).wf(),
            old(self).spec_original().n >= 1,
        ensures
            final(self).committed(),
            final(self).spec_original() == old(self).spec_original(),
            final(self).spec_coloration() == old(self).spec_coloration(),
            r == final(self).spec_commitments(),
            r.blank_count == old(self).spec_coloration().spec_blank_limit(),
            final(self).spec_permuted().wf(),
            final(self).spec_permuted().n == old(self).spec_original().n,
            is_permutation(
                final(self).spec_permutation(),
                old(self).spec_original().n as nat,
            ),
            forall|i: int, j: int|
                0 <= i < final(self).spec_permuted().n && 0 <= j < final(self).spec_permuted().n
                    ==> final(self).spec_permuted().color_at(i, j) == old(
                    self,
                ).spec_original().color_at(
                    final(self).spec_permutation()[i] as int,
                    final(self).spec_permutation()[j] as int,
                ),
    {
        let n = self.original_graph.n;
        let hasher = self.hasher;
        let permutation = random_permutation(n as usize);
        let permuted = self.original_graph.apply_permutation(permutation.as_slice());

        let graph_merkle = GraphMerkleTree::from_graph(&permuted, &hasher);
        let graph_root = graph_merkle.root();

        let mut perm_data: Vec<Vec<u8>> = Vec::new();
        let plen = permutation.len();
        for i in 0..plen
            invariant
                plen == permutation@.len(),
                perm_data@.len() == i,
        {
            let mut leaf: Vec<u8> = Vec::new();
            push_u32_be(&mut leaf, permutation[i]);
            perm_data.push(leaf);
        }
        let perm_tree = MerkleTree::new(perm_data.as_slice(), &hasher);
        let permutation_root = perm_tree.root();

        let blank_vector = build_blank_vector(&permuted);
        let mut blank_chunks: Vec<Vec<u8>> = Vec::new();
        let blen = blank_vector.len();
        for k in 0..blen
            invariant
                blen == blank_vector@.len(),
                blank_chunks@.len() == k,
                forall|q: int| 0 <= q < k ==> (#[trigger] blank_chunks@[q])@ == seq![
                    blank_vector@[q],
                ],
        {
            let mut bit: Vec<u8> = Vec::new();
            bit.push(blank_vector[k]);
            proof {
                assert(bit@ =~= seq![blank_vector@[k as int]]);
            }
            blank_chunks.push(bit);
        }
        let blank_tree = ChunkedMerkleTree::new(blank_chunks.as_slice(), &hasher, config.stark.chunk_size);
        let blank_root = blank_tree.root();
        proof {
            assert(blank_tree.spec_leaves() =~= blank_bits(permuted).map_values(
                |b: u8| seq![b],
            ));
        }

        proof {
            assert(1 <= (n as int) * (n as int) < 0x100000000) by (nonlinear_arith)
                requires
                    1 <= n <= 0xFFFF,
            ;
        }
        let polynomial = BlankPolynomial::new(blank_vector);
        let constraints = BlankCountConstraints::new(n, self.coloration_set.blank_limit() as u64);
        let stark = generate_blank_count_proof(&polynomial, &constraints, &config.stark, &hasher);

        let commitments = Commitments {
            graph_root,
            permutation_root,
            blank_root,
            blank_count: self.coloration_set.blank_limit(),
        };

        self.permutation = permutation;
        self.permuted_graph = Some(permuted);
        self.graph_tree = Some(graph_merkle);
        self.permutation_tree = Some(perm_tree);
        self.blank_tree = Some(blank_tree);
        self.blank_polynomial = Some(polynomial);
        self.stark_params = Some(config.stark);
        self.stark_proof = Some(stark);
        self.commitments = Some(commitments);
        commitments
    }

    /// The commitments published by `commit`.
    pub fn commitments(&self) -> (r: Commitments)
        requires
            self.committed(),
        ensures
            r == self.spec_commitments(),
    {
        match &self.commitments {
            Some(c) => *c,
            None => vstd::pervasive::unreached(),
        }
    }

    /// Opens all nine ordered pairs of each challenged triad, preserving the
    /// triad order; every opening is honest for the committed permuted graph
    /// and the published graph root.
    pub fn respond_to_spot_challenge(&self, challenge: &SpotChallenge) -> (r:
        SpotChallengeResponse)
        requires
            self.committed(),
            forall|k: int, x: int|
                0 <= k < challenge.spots@.len() && 0 <= x < 3
                    ==> (#[trigger] challenge.spots@[k]@[x]) < self.spec_permuted().n,
        ensures
            r.responses@.len() == challenge.spots@.len(),
            forall|k: int|
                0 <= k < r.responses@.len() ==> honest_spot_response(
                    self.spec_permuted(),
                    self.spec_commitments().graph_root,
                    challenge.spots@[k],
                    #[trigger] r.responses@[k],
                ),
    {
        let graph_tree = match &self.graph_tree {
            Some(t) => t,
            None => vstd::pervasive::unreached(),
        };
        let permuted = match &self.permuted_graph {
            Some(g) => g,
            None => vstd::pervasive::unreached(),
        };
        let ghost gp = self.spec_permuted();
        let ghost root = self.spec_commitments().graph_root;
        let n = permuted.n;

        let mut responses: Vec<SpotResponse> = Vec::new();
        let nspots = challenge.spots.len();
        for k in 0..nspots
            invariant
                self.committed(),
                gp == self.spec_permuted(),
                root == self.spec_commitments().graph_root,
                *permuted == gp,
                *graph_tree == self.graph_tree.unwrap(),
                n == gp.n,
                nspots == challenge.spots@.len(),
                forall|k2: int, x: int|
                    0 <= k2 < challenge.spots@.len() && 0 <= x < 3 ==> (
                #[trigger] challenge.spots@[k2]@[x]) < n,
                responses@.len() == k,
                forall|k2: int|
                    0 <= k2 < k ==> honest_spot_response(
                        gp,
                        root,
                        challenge.spots@[k2],
                        #[trigger] responses@[k2],
                    ),
        {
            let nodes = challenge.spots[k];
            let mut edges: Vec<SpotEdgeOpening> = Vec::new();
            for x in 0..3usize
                invariant
                    self.committed(),
                    gp == self.spec_permuted(),
                    root == self.spec_commitments().graph_root,
                    *permuted == gp,
                    *graph_tree == self.graph_tree.unwrap(),
                    n == gp.n,
                    forall|q: int| 0 <= q < 3 ==> (#[trigger] nodes@[q]) < n,
                    edges@.len() == 3 * x,
                    forall|e: int|
                        0 <= e < 3 * x ==> {
                            &&& (#[trigger] edges@[e]).from == nodes@[e / 3]
                            &&& edges@[e].to == nodes@[e % 3]
                            &&& honest_spot_edge(gp, root, edges@[e])
                        },
            {
                for y in 0..3usize
                    invariant
                        self.committed(),
                        gp == self.spec_permuted(),
                        root == self.spec_commitments().graph_root,
                        *permuted == gp,
                        *graph_tree == self.graph_tree.unwrap(),
                        n == gp.n,
                        x < 3,
                        forall|q: int| 0 <= q < 3 ==> (#[trigger] nodes@[q]) < n,
                        edges@.len() == 3 * x + y,
                        forall|e: int|
                            0 <= e < 3 * x + y ==> {
                                &&& (#[trigger] edges@[e]).from == nodes@[e / 3]
                                &&& edges@[e].to == nodes@[e % 3]
                                &&& honest_spot_edge(gp, root, edges@[e])
                            },
                {
                    let a = nodes[x];
                    let b = nodes[y];
                    let color = permuted.get_edge(a, b);
                    let proof = match graph_tree.get_edge_proof(a, b) {
                        Some(p) => p,
                        None => vstd::pervasive::unreached(),
                    };
                    proof {
                        crate::graph::lemma_row_major_index(n as int, a as int, b as int);
                        assert((a as int) * (n as int) + (b as int) < (n as int) * (n as int))
                            by (nonlinear_arith)
                            requires
                                a < n,
                                b < n,
                        ;
                        assert(edge_leaves(gp)[(a as int) * (n as int) + (b as int)]
                            == edge_leaf_bytes(a, b, gp.color_at(a as int, b as int)));
                    }
                    edges.push(SpotEdgeOpening { from: a, to: b, color, proof });
                    proof {
                        let e = 3 * (x as int) + (y as int);
                        crate::graph::lemma_row_major_index(3, x as int, y as int);
                        assert(edges@[e].from == nodes@[e / 3]);
                        assert(edges@[e].to == nodes@[e % 3]);
                        assert(honest_spot_edge(gp, root, edges@[e]));
                    }
                }
            }
            responses.push(SpotResponse { nodes, edges });
            proof {
                assert(honest_spot_response(gp, root, nodes, responses@[k as int]));
            }
        }
        SpotChallengeResponse { responses }
    }

    /// Opens each challenged edge with its color and blank-bit proofs and
    /// attaches the blank-count proof; every opening is honest for the
    /// committed permuted graph and the published roots, and the attached
    /// proof is valid for the committed blank vector's true sum.
    pub fn respond_to_blank_challenge(&self, challenge: &BlankChallenge) -> (r:
        BlankChallengeResponse)
        requires
            self.committed(),
            forall|k: int|
                0 <= k < challenge.edge_indices@.len() ==> (#[trigger] challenge.edge_indices@[k])
                    < self.spec_permuted().n * self.spec_permuted().n,
        ensures
            r.edges@.len() == challenge.edge_indices@.len(),
            forall|k: int|
                0 <= k < r.edges@.len() ==> honest_blank_opening(
                    self.spec_permuted(),
                    self.spec_commitments(),
                    #[trigger] r.edges@[k],
                ) && r.edges@[k].edge_index == challenge.edge_indices@[k],
            blank_proof_valid(
                (Blake3QuantumHash),
                r.stark_proof,
                byte_sum(blank_bits(self.spec_permuted())) as u64,
            ),
            r.stark_proof.total_sum == byte_sum(blank_bits(self.spec_permuted())),
    {
        let graph_tree = match &self.graph_tree {
            Some(t) => t,
            None => vstd::pervasive::unreached(),
        };
        let blank_tree = match &self.blank_tree {
            Some(t) => t,
            None => vstd::pervasive::unreached(),
        };
        let permuted = match &self.permuted_graph {
            Some(g) => g,
            None => vstd::pervasive::unreached(),
        };
        let polynomial = match &self.blank_polynomial {
            Some(p) => p,
            None => vstd::pervasive::unreached(),
        };
        let params = match &self.stark_params {
            Some(p) => p,
            None => vstd::pervasive::unreached(),
        };
        let ghost gp = self.spec_permuted();
        let ghost cm = self.spec_commitments();
        let n = permuted.n as u64;

        let mut edges: Vec<BlankEdgeOpening> = Vec::new();
        let nidx = challenge.edge_indices.len();
        for k in 0..nidx
            invariant
                self.committed(),
                gp == self.spec_permuted(),
                cm == self.spec_commitments(),
                *permuted == gp,
                *graph_tree == self.graph_tree.unwrap(),
                blank_tree == &self.blank_tree.unwrap(),
                n == gp.n as u64,
                nidx == challenge.edge_indices@.len(),
                forall|k2: int|
                    0 <= k2 < challenge.edge_indices@.len() ==> (
                #[trigger] challenge.edge_indices@[k2]) < gp.n * gp.n,
                edges@.len() == k,
                forall|k2: int|
                    0 <= k2 < k ==> honest_blank_opening(gp, cm, #[trigger] edges@[k2])
                        && edges@[k2].edge_index == challenge.edge_indices@[k2],
        {
            let idx = challenge.edge_indices[k];
            proof {
                crate::graph::lemma_row_major_decompose(n as int, idx as int);
                assert((idx as int) / (n as int) < n as int) by (nonlinear_arith)
                    requires
                        n >= 1,
                        0 <= idx && (idx as int) < (n as int) * (n as int),
                ;
            }
            let i = (idx / n) as u32;
            let j = (idx % n) as u32;
            let color = permuted.get_edge(i, j);
            let is_blank = color == Color::Blank;
            let color_proof = match graph_tree.get_edge_proof(i, j) {
                Some(p) => p,
                None => vstd::pervasive::unreached(),
            };
            proof {
                assert(edge_leaves(gp)[idx as int] == edge_leaf_bytes(
                    i,
                    j,
                    gp.color_at(i as int, j as int),
                ));
                assert(i as int * gp.n as int + j as int == idx as int);
                assert(blank_bits(gp).map_values(|b: u8| seq![b])[idx as int] == seq![
                    blank_bits(gp)[idx as int],
                ]);
            }
            proof {
                assert(blank_bits(gp)[idx as int] == (if is_blank {
                    1u8
                } else {
                    0u8
                }));
            }
            let blank_proof = match blank_tree.get_proof(idx as usize) {
                Some(p) => p,
                None => vstd::pervasive::unreached(),
            };
            edges.push(
                BlankEdgeOpening {
                    edge_index: idx,
                    from: i,
                    to: j,
                    color,
                    is_blank,
                    color_proof,
                    blank_proof,
                },
            );
        }

        let hasher = self.hasher;
        let n32 = permuted.n;
        let constraints = BlankCountConstraints::new(n32, self.coloration_set.blank_limit() as u64);
        let stark = generate_blank_count_proof(polynomial, &constraints, params, &hasher);

        BlankChallengeResponse { edges, stark_proof: stark }
    }
}

/// Reads the blank-indicator bits of a graph, row-major.
pub fn build_blank_vector(g: &Graph) -> (r: Vec<u8>)
    requires
        g.wf(),
    ensures
        r@ == blank_bits(*g),
{
    let n = g.n;
    let mut vector: Vec<u8> = Vec::new();
    proof {
        assert(vector@.len() == 0 * n);
    }
    for i in 0..n
        invariant
            g.wf(),
            g.n == n,
            vector@.len() == i * n,
            forall|k: int| 0 <= k < i * n ==> vector@[k] == blank_bits(*g)[k],
    {
        for j in 0..n
            invariant
                g.wf(),
                g.n == n,
                i < n,
                vector@.len() == i * n + j,
                forall|k: int| 0 <= k < i * n + j ==> vector@[k] == blank_bits(*g)[k],
        {
            let is_blank = g.get_edge(i, j) == Color::Blank;
            vector.push(
                if is_blank {
                    1
                } else {
                    0
                },
            );
            proof {
                let k = i * (n as int) + j;
                crate::graph::lemma_row_major_index(n as int, i as int, j as int);
                assert((i as int) * (n as int) + (j as int) < (n as int) * (n as int))
                    by (nonlinear_arith)
                    requires
                        i < n,
                        j < n,
                ;
                assert(vector@[k] == blank_bits(*g)[k]);
            }
        }
        proof {
            assert((i + 1) * (n as int) == i * n + n) by (nonlinear_arith);
        }
    }
    proof {
        assert(vector@.len() == n * n) by (nonlinear_arith)
            requires
                vector@.len() == (n as int) * (n as int),
        ;
        assert(vector@ =~= blank_bits(*g));
    }
    vector
}

} // verus!
