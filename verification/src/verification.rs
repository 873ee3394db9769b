//! The verifier engine: it holds the coloration set and the received
//! commitments, derives challenges deterministically from the commitments,
//! and checks the prover's openings and the blank-count proof.
//!
//! `verify_spot_response` and `verify_blank_response` return exactly the
//! acceptance predicates `spot_response_accepted` and
//! `blank_response_accepted`. The completeness lemmas at the end prove that
//! an honest prover's responses — as `respond_to_spot_challenge` and
//! `respond_to_blank_challenge` ensure them — always satisfy those
//! predicates: the honest transcript is accepted.

use vstd::prelude::*;

use rand::rngs::StdRng;

use crate::blank_proof::{blank_proof_valid, BlankCountProof};
use crate::coloring::{
    canon9, lemma_canonical_permutation_invariant, lemma_graph_matrix_relabel, lemma_perm6_is_perm3,
    lemma_sort_triple, perm_apply, sorted_triple_apply, triad_matrix, ColorationSet,
};
use crate::constraints::BlankCountConstraints;
use crate::graph::{
    blank_bits, color_u8, graph_matrix3, lemma_spot_color_consistent, spot_color, spot_matrix,
    Color, Graph, Spot,
};
use crate::hash::{blake3_of, default_quantum_hash, Blake3QuantumHash, QuantumHash};
use crate::merkle::{chunked_proof_valid, edge_leaf_bytes, encode_edge_leaf};
use crate::messages::{
    BlankChallenge, BlankChallengeResponse, BlankEdgeOpening, Challenge, Commitments,
    SpotChallenge, SpotChallengeResponse, SpotEdgeOpening, SpotResponse,
};
use crate::permutation::{
    is_permutation, lemma_blank_count_permutation_invariant, rng_below, rng_from_seed,
    rng_seed_from_u64,
};
use crate::polynomial::byte_sum;
use crate::prover::{honest_blank_opening, honest_spot_edge, honest_spot_response};
use crate::wire::{push_u32_be, u32_be_bytes};

verus! {

/// The fixed seed of the verifier's mode coin, for test determinism.
pub const VERIFIER_COIN_SEED: u64 = 0xB10Ccafe;

/// The protocol shape: rounds, spots and blank checks per round, and the
/// probability of a spot round in parts per thousand.
#[derive(Debug, Clone, Copy)]
pub struct VerifierConfig {
    pub rounds: u32,
    pub spots_per_round: u32,
    pub blank_checks_per_round: u32,
    pub spot_probability_permille: u32,
}

impl Default for VerifierConfig {
    /// The default shape: 8 rounds, 4 spots and 2 blank checks per round,
    /// spot probability 0.8.
    fn default() -> (r: VerifierConfig)
        ensures
            r.rounds == 8,
            r.spots_per_round == 4,
            r.blank_checks_per_round == 2,
            r.spot_probability_permille == 800,
    {
        VerifierConfig {
            rounds: 8,
            spots_per_round: 4,
            blank_checks_per_round: 2,
            spot_probability_permille: 800,
        }
    }
}

/// The ASCII bytes of the spot challenge tag.
pub open spec fn spot_tag() -> Seq<u8> {
    seq![115u8, 112u8, 111u8, 116u8]
}

/// The ASCII bytes of the blank challenge tag.
pub open spec fn blank_tag() -> Seq<u8> {
    seq![98u8, 108u8, 97u8, 110u8, 107u8]
}

/// The per-round challenge seed: the hash of the three roots, the round in
/// big-endian, and the mode tag.
pub open spec fn challenge_seed_spec(cm: Commitments, round: u32, tag: Seq<u8>) -> [u8; 32] {
    blake3_of(
        cm.graph_root@ + cm.permutation_root@ + cm.blank_root@ + u32_be_bytes(round) + tag,
    )
}

/// Challenge derivation is deterministic: two hosts holding the same three
/// roots derive the same seed for the same round and tag — the declared
/// blank count does not even enter the derivation.
pub proof fn lemma_challenge_seed_deterministic(
    cm1: Commitments,
    cm2: Commitments,
    round: u32,
    tag: Seq<u8>,
)
    requires
        cm1.graph_root == cm2.graph_root,
        cm1.permutation_root == cm2.permutation_root,
        cm1.blank_root == cm2.blank_root,
    ensures
        challenge_seed_spec(cm1, round, tag) == challenge_seed_spec(cm2, round, tag),
{
}

/// One opened spot edge passes the verifier's checks against the graph root:
/// its leaf hash is the hash of the serialized edge it claims, and its path
/// verifies.
pub open spec fn spot_edge_verified(cm: Commitments, o: SpotEdgeOpening) -> bool {
    &&& o.proof.leaf_proof.leaf_hash == blake3_of(edge_leaf_bytes(o.from, o.to, o.color))
    &&& chunked_proof_valid(Blake3QuantumHash, o.proof, cm.graph_root)
}

/// The opened entries of a spot response, as lookup entries.
pub open spec fn response_entries(resp: SpotResponse) -> Seq<(u32, u32, Color)> {
    resp.edges@.map_values(|o: SpotEdgeOpening| (o.from, o.to, o.color))
}

/// The matrix the verifier rebuilds from a response's entries over a triad.
pub open spec fn entries_matrix(nodes: [u32; 3], entries: Seq<(u32, u32, Color)>) -> Seq<u8> {
    Seq::new(9, |k: int| color_u8(spot_color(entries, nodes@[k / 3], nodes@[k % 3])))
}

/// Whether some entry opens the ordered pair (a, b).
pub open spec fn entries_has_pair(entries: Seq<(u32, u32, Color)>, a: u32, b: u32) -> bool {
    exists|e: int| 0 <= e < entries.len() && (#[trigger] entries[e]).0 == a && entries[e].1 == b
}

/// Every one of the nine ordered pairs of the triad is opened.
pub open spec fn all_pairs_opened(nodes: [u32; 3], entries: Seq<(u32, u32, Color)>) -> bool {
    forall|x: int, y: int|
        0 <= x < 3 && 0 <= y < 3 ==> #[trigger] entries_has_pair(entries, nodes@[x], nodes@[y])
}

/// One triad's response is accepted: it repeats the challenged nodes, every
/// opening verifies, no ordered pair of the triad is left unopened, and the
/// rebuilt spot's canonical key is admitted.
pub open spec fn spot_entry_accepted(
    cs: ColorationSet,
    cm: Commitments,
    nodes: [u32; 3],
    resp: SpotResponse,
) -> bool {
    &&& resp.nodes == nodes
    &&& forall|e: int|
        0 <= e < resp.edges@.len() ==> spot_edge_verified(cm, #[trigger] resp.edges@[e])
    &&& all_pairs_opened(resp.nodes, response_entries(resp))
    &&& cs.has_key(canon9(entries_matrix(resp.nodes, response_entries(resp))))
}

/// A spot response is accepted: one response per challenged triad, each
/// accepted.
pub open spec fn spot_response_accepted(
    cs: ColorationSet,
    cm: Commitments,
    challenge: SpotChallenge,
    response: SpotChallengeResponse,
) -> bool {
    &&& challenge.spots@.len() == response.responses@.len()
    &&& forall|k: int|
        0 <= k < response.responses@.len() ==> spot_entry_accepted(
            cs,
            cm,
            challenge.spots@[k],
            #[trigger] response.responses@[k],
        )
}

/// The opening a response supplies for an edge index: the last one carrying
/// that index, if any.
pub open spec fn find_opening(edges: Seq<BlankEdgeOpening>, idx: u64) -> Option<BlankEdgeOpening>
    decreases edges.len(),
{
    if edges.len() == 0 {
        None
    } else if edges.last().edge_index == idx {
        Some(edges.last())
    } else {
        find_opening(edges.drop_last(), idx)
    }
}

/// One supplied opening passes the verifier's checks: both proofs verify
/// with the right leaf hashes, the blank flag matches the color, and the
/// index is in range of the declared graph size.
pub open spec fn blank_opening_verified(
    cs: ColorationSet,
    cm: Commitments,
    o: BlankEdgeOpening,
) -> bool {
    &&& o.color_proof.leaf_proof.leaf_hash == blake3_of(edge_leaf_bytes(o.from, o.to, o.color))
    &&& chunked_proof_valid(Blake3QuantumHash, o.color_proof, cm.graph_root)
    &&& o.blank_proof.leaf_proof.leaf_hash == blake3_of(
        seq![
            if o.is_blank {
                1u8
            } else {
                0u8
            },
        ],
    )
    &&& chunked_proof_valid(Blake3QuantumHash, o.blank_proof, cm.blank_root)
    &&& (o.color == Color::Blank) == o.is_blank
    &&& o.edge_index < cs.spec_graph_size() * cs.spec_graph_size()
}

/// A blank response is accepted: every challenged index has a matching
/// opening that passes the checks, and the attached blank-count proof is
/// valid for the committed blank count.
pub open spec fn blank_response_accepted(
    cs: ColorationSet,
    cm: Commitments,
    challenge: BlankChallenge,
    response: BlankChallengeResponse,
) -> bool {
    &&& forall|k: int|
        0 <= k < challenge.edge_indices@.len() ==> {
            let found = find_opening(response.edges@, #[trigger] challenge.edge_indices@[k]);
            found is Some && blank_opening_verified(cs, cm, found.unwrap())
        }
    &&& blank_proof_valid((Blake3QuantumHash), response.stark_proof, cm.blank_count as u64)
}

/// The verifier's state: the coloration set, the protocol shape, the
/// received commitments, and the mode-coin generator.
pub struct Verifier {
    configuration: VerifierConfig,
    coloration_set: ColorationSet,
    commitments: Option<Commitments>,
    rng: StdRng,
    hasher: Blake3QuantumHash,
}

impl Verifier {
    /// The coloration set is well-formed.
    pub closed spec fn wf(self) -> bool {
        self.coloration_set.wf()
    }

    /// Whether commitments were received.
    pub closed spec fn has_commitments(self) -> bool {
        self.commitments is Some
    }

    /// The received commitments.
    pub closed spec fn spec_commitments(self) -> Commitments {
        self.commitments.unwrap()
    }

    /// The held coloration set.
    pub closed spec fn spec_coloration(self) -> ColorationSet {
        self.coloration_set
    }

    /// The protocol shape.
    pub closed spec fn spec_config(self) -> VerifierConfig {
        self.configuration
    }

    /// Builds a verifier over a coloration set with a fixed-seed mode coin.
    pub fn new(coloration_set: ColorationSet, configuration: VerifierConfig) -> (r: Verifier)
        requires
            coloration_set.wf(),
        ensures
            r.wf(),
            !r.has_commitments(),
            r.spec_coloration() == coloration_set,
            r.spec_config() == configuration,
    {
        Verifier {
            configuration,
            coloration_set,
            commitments: None,
            rng: rng_seed_from_u64(VERIFIER_COIN_SEED),
            hasher: default_quantum_hash(),
        }
    }

    /// Stores the prover's commitments.
    pub fn receive_commitments(&mut self, commitments: Commitments)
        requires
            old(self).wf(),
        ensures
            final(self).wf(),
            final(self).has_commitments(),
            final(self).spec_commitments() == commitments,
            final(self).spec_coloration() == old(self).spec_coloration(),
            final(self).spec_config() == old(self).spec_config(),
    {
        self.commitments = Some(commitments);
    }

    /// Derives the per-round challenge seed from the commitments, the round,
    /// and a tag.
    fn challenge_seed(&self, round: u32, label: &[u8]) -> (r: [u8; 32])
        requires
            self.has_commitments(),
        ensures
            r == challenge_seed_spec(self.spec_commitments(), round, label@),
    {
        let commitments = match &self.commitments {
            Some(c) => c,
            None => vstd::pervasive::unreached(),
        };
        let mut data: Vec<u8> = Vec::new();
        data.extend_from_slice(commitments.graph_root.as_slice());
        data.extend_from_slice(commitments.permutation_root.as_slice());
        data.extend_from_slice(commitments.blank_root.as_slice());
        push_u32_be(&mut data, round);
        data.extend_from_slice(label);
        proof {
            assert(data@ =~= commitments.graph_root@ + commitments.permutation_root@
                + commitments.blank_root@ + u32_be_bytes(round) + label@);
        }
        self.hasher.hash(data.as_slice())
    }

    /// Flips the biased mode coin and issues the round's challenge: spots of
    /// three distinct vertices, or edge indices drawn with replacement, both
    /// from a generator seeded by the round's challenge seed.
    pub fn generate_challenge(&mut self, round: u32) -> (r: Challenge)
        requires
            old(self).wf(),
            old(self).has_commitments(),
        ensures
            final(self).wf(),
            final(self).has_commitments(),
            final(self).spec_commitments() == old(self).spec_commitments(),
            final(self).spec_coloration() == old(self).spec_coloration(),
            final(self).spec_config() == old(self).spec_config(),
            match r {
                Challenge::Spot(ch) => {
                    &&& ch.seed == challenge_seed_spec(old(self).spec_commitments(), round, spot_tag())
                    &&& ch.spots@.len() == old(self).spec_config().spots_per_round
                    &&& forall|k: int, x: int|
                        0 <= k < ch.spots@.len() && 0 <= x < 3 ==> (#[trigger] ch.spots@[k]@[x])
                            < spot_domain(old(self).spec_coloration().spec_graph_size())
                    &&& forall|k: int|
                        0 <= k < ch.spots@.len() ==> triad_distinct(#[trigger] ch.spots@[k])
                },
                Challenge::Blank(ch) => {
                    &&& ch.seed == challenge_seed_spec(
                        old(self).spec_commitments(),
                        round,
                        blank_tag(),
                    )
                    &&& ch.edge_indices@.len() == old(self).spec_config().blank_checks_per_round
                    &&& forall|k: int|
                        0 <= k < ch.edge_indices@.len() ==> (#[trigger] ch.edge_indices@[k])
                            < blank_domain(old(self).spec_coloration().spec_graph_size())
                            * blank_domain(old(self).spec_coloration().spec_graph_size())
                },
            },
    {
        let coin = rng_below(&mut self.rng, 1000);
        if coin < self.configuration.spot_probability_permille as u64 {
            Challenge::Spot(self.generate_spot_challenge(round))
        } else {
            Challenge::Blank(self.generate_blank_challenge(round))
        }
    }

    /// Draws the round's spot challenge: `spots_per_round` triads of three
    /// distinct vertices from the seeded generator, each by rejection
    /// sampling with a fixed draw budget and a deterministic fallback.
    fn generate_spot_challenge(&self, round: u32) -> (r: SpotChallenge)
        requires
            self.wf(),
            self.has_commitments(),
        ensures
            r.seed == challenge_seed_spec(self.spec_commitments(), round, spot_tag()),
            r.spots@.len() == self.spec_config().spots_per_round,
            forall|k: int, x: int|
                0 <= k < r.spots@.len() && 0 <= x < 3 ==> (#[trigger] r.spots@[k]@[x])
                    < spot_domain(self.spec_coloration().spec_graph_size()),
            forall|k: int| 0 <= k < r.spots@.len() ==> triad_distinct(#[trigger] r.spots@[k]),
    {
        let gs = self.coloration_set.graph_size();
        let n: u32 = if gs >= 3 {
            gs
        } else {
            3
        };
        let mut label: Vec<u8> = Vec::new();
        label.push(115);
        label.push(112);
        label.push(111);
        label.push(116);
        proof {
            assert(label@ =~= spot_tag());
        }
        let seed = self.challenge_seed(round, label.as_slice());
        let mut seeded_rng = rng_from_seed(seed);
        let mut spots: Vec<[u32; 3]> = Vec::new();
        let count = self.configuration.spots_per_round;
        for s in 0..count
            invariant
                n >= 3,
                n == spot_domain(self.spec_coloration().spec_graph_size()),
                spots@.len() == s,
                forall|k: int, x: int|
                    0 <= k < spots@.len() && 0 <= x < 3 ==> (#[trigger] spots@[k]@[x]) < n,
                forall|k: int| 0 <= k < spots@.len() ==> triad_distinct(#[trigger] spots@[k]),
        {
            let mut used: Vec<u32> = Vec::new();
            for slot in 0..3usize
                invariant
                    n >= 3,
                    used@.len() == slot,
                    forall|q: int| 0 <= q < used@.len() ==> (#[trigger] used@[q]) < n,
                    used@.no_duplicates(),
            {
                let mut found = false;
                let mut fresh: u32 = 0;
                let mut attempts: u32 = 0;
                while !found && attempts < 256
                    invariant
                        n >= 3,
                        used@.len() == slot,
                        slot < 3,
                        forall|q: int| 0 <= q < used@.len() ==> (#[trigger] used@[q]) < n,
                        used@.no_duplicates(),
                        found ==> fresh < n && !used@.contains(fresh),
                    decreases 256 - attempts,
                {
                    let draw = rng_below(&mut seeded_rng, n as u64) as u32;
                    if !vec_contains_u32(&used, draw) {
                        fresh = draw;
                        found = true;
                    }
                    attempts = attempts + 1;
                }
                if !found {
                    // The rejection budget lapsed: take the smallest label not
                    // yet used, which exists among 0, 1, 2 since at most two
                    // labels are held.
                    if !vec_contains_u32(&used, 0) {
                        fresh = 0;
                    } else if !vec_contains_u32(&used, 1) {
                        fresh = 1;
                    } else {
                        proof {
                            let i0 = choose|i: int| 0 <= i < used@.len() && used@[i] == 0u32;
                            let i1 = choose|i: int| 0 <= i < used@.len() && used@[i] == 1u32;
                            if used@.contains(2u32) {
                                let i2 = choose|i: int|
                                    0 <= i < used@.len() && used@[i] == 2u32;
                                assert(i0 != i1 && i0 != i2 && i1 != i2);
                                assert(false);
                            }
                        }
                        fresh = 2;
                    }
                }
                let ghost before = used@;
                used.push(fresh);
                proof {
                    assert forall|i: int, j: int|
                        0 <= i < j < used@.len() implies used@[i] != used@[j] by {
                        if j == before.len() {
                            assert(used@[i] == before[i]);
                            if before[i] == fresh {
                                assert(before.contains(fresh));
                            }
                        }
                    }
                }
            }
            let nodes: [u32; 3] = [used[0], used[1], used[2]];
            proof {
                assert(nodes@[0] == used@[0] && nodes@[1] == used@[1] && nodes@[2] == used@[2]);
                assert(triad_distinct(nodes));
            }
            spots.push(nodes);
        }
        SpotChallenge { spots, seed }
    }

    /// Draws the round's blank challenge: `blank_checks_per_round` edge
    /// indices from the seeded generator, with replacement.
    fn generate_blank_challenge(&self, round: u32) -> (r: BlankChallenge)
        requires
            self.wf(),
            self.has_commitments(),
        ensures
            r.seed == challenge_seed_spec(self.spec_commitments(), round, blank_tag()),
            r.edge_indices@.len() == self.spec_config().blank_checks_per_round,
            forall|k: int|
                0 <= k < r.edge_indices@.len() ==> (#[trigger] r.edge_indices@[k]) < blank_domain(
                    self.spec_coloration().spec_graph_size(),
                ) * blank_domain(self.spec_coloration().spec_graph_size()),
    {
        let gs = self.coloration_set.graph_size();
        proof {
            self.coloration_set.lemma_wf_graph_size();
        }
        let n: u64 = if gs >= 2 {
            gs as u64
        } else {
            2
        };
        proof {
            assert(n * n >= 1 && n * n <= 0xFFFF * 0xFFFF) by (nonlinear_arith)
                requires
                    2 <= n <= 0xFFFF,
            ;
        }
        let mut label: Vec<u8> = Vec::new();
        label.push(98);
        label.push(108);
        label.push(97);
        label.push(110);
        label.push(107);
        proof {
            assert(label@ =~= blank_tag());
        }
        let seed = self.challenge_seed(round, label.as_slice());
        let mut seeded_rng = rng_from_seed(seed);
        let mut edge_indices: Vec<u64> = Vec::new();
        let count = self.configuration.blank_checks_per_round;
        for s in 0..count
            invariant
                n == blank_domain(self.spec_coloration().spec_graph_size()),
                n >= 2,
                n <= 0xFFFF,
                edge_indices@.len() == s,
                forall|k: int| 0 <= k < edge_indices@.len() ==> (#[trigger] edge_indices@[k]) < n
                    * n,
        {
            proof {
                assert(1 <= (n as int) * (n as int) <= 0xFFFF * 0xFFFF) by (nonlinear_arith)
                    requires
                        2 <= n <= 0xFFFF,
                ;
            }
            let idx = rng_below(&mut seeded_rng, n * n);
            edge_indices.push(idx);
        }
        BlankChallenge { edge_indices, seed }
    }

    /// Checks a spot response: the triad count and order, every opening's
    /// leaf hash and path, that all nine ordered pairs of each triad are
    /// opened, and membership of each rebuilt spot's canonical key in the
    /// coloration set. Returns exactly `spot_response_accepted`.
    pub fn verify_spot_response(
        &self,
        challenge: &SpotChallenge,
        response: &SpotChallengeResponse,
    ) -> (r: bool)
        requires
            self.wf(),
        ensures
            r == (self.has_commitments() && spot_response_accepted(
                self.spec_coloration(),
                self.spec_commitments(),
                *challenge,
                *response,
            )),
    {
        let commitments = match &self.commitments {
            Some(c) => c,
            None => {
                return false;
            },
        };
        if challenge.spots.len() != response.responses.len() {
            return false;
        }

        let ghost cs = self.spec_coloration();
        let ghost cm = self.spec_commitments();
        let nresp = response.responses.len();
        for k in 0..nresp
            invariant
                self.wf(),
                self.has_commitments(),
                cs == self.spec_coloration(),
                cm == self.spec_commitments(),
                *commitments == cm,
                nresp == response.responses@.len(),
                nresp == challenge.spots@.len(),
                forall|k2: int|
                    0 <= k2 < k ==> spot_entry_accepted(
                        cs,
                        cm,
                        challenge.spots@[k2],
                        #[trigger] response.responses@[k2],
                    ),
        {
            let spot_nodes = &challenge.spots[k];
            let resp = &response.responses[k];
            if !nodes_eq(spot_nodes, &resp.nodes) {
                proof {
                    assert(!spot_entry_accepted(
                        cs,
                        cm,
                        challenge.spots@[k as int],
                        response.responses@[k as int],
                    ));
                }
                return false;
            }

            let mut entries: Vec<(u32, u32, Color)> = Vec::new();
            let nedges = resp.edges.len();
            for e in 0..nedges
                invariant
                    self.wf(),
                    self.has_commitments(),
                    cs == self.spec_coloration(),
                    cm == self.spec_commitments(),
                    *commitments == cm,
                    k < nresp,
                    nresp == response.responses@.len(),
                    nresp == challenge.spots@.len(),
                    *resp == response.responses@[k as int],
                    resp.nodes == challenge.spots@[k as int],
                    nedges == resp.edges@.len(),
                    entries@ == response_entries(*resp).take(e as int),
                    forall|e2: int|
                        0 <= e2 < e ==> spot_edge_verified(cm, #[trigger] resp.edges@[e2]),
            {
                let edge = &resp.edges[e];
                if !self.verify_graph_leaf(
                    edge.from,
                    edge.to,
                    edge.color,
                    &edge.proof,
                    &commitments.graph_root,
                ) {
                    proof {
                        assert(!spot_edge_verified(cm, resp.edges@[e as int]));
                        assert(!spot_entry_accepted(
                            cs,
                            cm,
                            challenge.spots@[k as int],
                            response.responses@[k as int],
                        ));
                    }
                    return false;
                }
                proof {
                    assert(response_entries(*resp).take(e + 1) =~= response_entries(*resp).take(
                        e as int,
                    ).push((edge.from, edge.to, edge.color)));
                }
                entries.push((edge.from, edge.to, edge.color));
            }
            proof {
                assert(response_entries(*resp).take(nedges as int) =~= response_entries(*resp));
            }

            for x in 0..3usize
                invariant
                    cs == self.spec_coloration(),
                    cm == self.spec_commitments(),
                    k < nresp,
                    nresp == response.responses@.len(),
                    nresp == challenge.spots@.len(),
                    *resp == response.responses@[k as int],
                    resp.nodes == challenge.spots@[k as int],
                    entries@ == response_entries(*resp),
                    forall|x2: int, y2: int|
                        0 <= x2 < x && 0 <= y2 < 3 ==> #[trigger] entries_has_pair(
                            entries@,
                            resp.nodes@[x2],
                            resp.nodes@[y2],
                        ),
            {
                for y in 0..3usize
                    invariant
                        cs == self.spec_coloration(),
                        cm == self.spec_commitments(),
                        x < 3,
                        k < nresp,
                        nresp == response.responses@.len(),
                        nresp == challenge.spots@.len(),
                        *resp == response.responses@[k as int],
                        resp.nodes == challenge.spots@[k as int],
                        entries@ == response_entries(*resp),
                        forall|x2: int, y2: int|
                            0 <= x2 < x && 0 <= y2 < 3 ==> #[trigger] entries_has_pair(
                                entries@,
                                resp.nodes@[x2],
                                resp.nodes@[y2],
                            ),
                        forall|y2: int|
                            0 <= y2 < y ==> #[trigger] entries_has_pair(
                                entries@,
                                resp.nodes@[x as int],
                                resp.nodes@[y2],
                            ),
                {
                    if !entries_contain_pair(&entries, resp.nodes[x], resp.nodes[y]) {
                        proof {
                            assert(!all_pairs_opened(resp.nodes, response_entries(*resp)));
                            assert(!spot_entry_accepted(
                                cs,
                                cm,
                                challenge.spots@[k as int],
                                response.responses@[k as int],
                            ));
                        }
                        return false;
                    }
                }
            }
            proof {
                assert(all_pairs_opened(resp.nodes, response_entries(*resp)));
            }

            let spot = Spot { nodes: resp.nodes, edges: entries };
            let valid = spot.is_valid(&self.coloration_set);
            proof {
                assert(spot_matrix(spot) =~= entries_matrix(resp.nodes, response_entries(*resp)));
            }
            if !valid {
                proof {
                    assert(!spot_entry_accepted(
                        cs,
                        cm,
                        challenge.spots@[k as int],
                        response.responses@[k as int],
                    ));
                }
                return false;
            }
            proof {
                assert(spot_entry_accepted(cs, cm, challenge.spots@[k as int],
                    response.responses@[k as int]));
            }
        }
        true
    }

    /// Checks a blank response: every challenged index must have a matching
    /// opening whose color and blank proofs verify and whose flag matches
    /// its color, and the attached blank-count proof must verify against the
    /// committed blank count. Returns exactly `blank_response_accepted`.
    pub fn verify_blank_response(
        &self,
        challenge: &BlankChallenge,
        response: &BlankChallengeResponse,
    ) -> (r: bool)
        requires
            self.wf(),
        ensures
            r == (self.has_commitments() && blank_response_accepted(
                self.spec_coloration(),
                self.spec_commitments(),
                *challenge,
                *response,
            )),
    {
        let commitments = match &self.commitments {
            Some(c) => c,
            None => {
                return false;
            },
        };
        let ghost cs = self.spec_coloration();
        let ghost cm = self.spec_commitments();

        let nidx = challenge.edge_indices.len();
        for k in 0..nidx
            invariant
                self.wf(),
                self.has_commitments(),
                cs == self.spec_coloration(),
                cm == self.spec_commitments(),
                *commitments == cm,
                nidx == challenge.edge_indices@.len(),
                forall|k2: int|
                    0 <= k2 < k ==> {
                        let found = find_opening(
                            response.edges@,
                            #[trigger] challenge.edge_indices@[k2],
                        );
                        found is Some && blank_opening_verified(cs, cm, found.unwrap())
                    },
        {
            let edge_idx = challenge.edge_indices[k];
            let opening = match find_opening_exec(&response.edges, edge_idx) {
                Some(o) => o,
                None => {
                    return false;
                },
            };
            if !self.verify_graph_leaf(
                opening.from,
                opening.to,
                opening.color,
                &opening.color_proof,
                &commitments.graph_root,
            ) {
                return false;
            }
            if !self.verify_blank_opening(opening, &commitments.blank_root) {
                return false;
            }
            if (opening.color == Color::Blank) != opening.is_blank {
                return false;
            }
            let n = self.coloration_set.graph_size() as u64;
            proof {
                self.coloration_set.lemma_wf_graph_size();
                assert((n as int) * (n as int) <= 0xFFFF * 0xFFFF) by (nonlinear_arith)
                    requires
                        n <= 0xFFFF,
                ;
            }
            if opening.edge_index >= n * n {
                return false;
            }
        }

        proof {
            self.coloration_set.lemma_wf_graph_size();
        }
        let constraints = BlankCountConstraints::new(
            self.coloration_set.graph_size(),
            commitments.blank_count as u64,
        );
        if !response.stark_proof.verify(&constraints, &self.hasher) {
            return false;
        }
        true
    }

    /// Checks one graph-edge opening: the leaf hash must be the hash of the
    /// serialized claimed edge, and the path must verify against the root.
    fn verify_graph_leaf(
        &self,
        from: u32,
        to: u32,
        color: Color,
        proof: &crate::merkle::ChunkedMerkleProof,
        graph_root: &[u8; 32],
    ) -> (r: bool)
        ensures
            r == (proof.leaf_proof.leaf_hash == blake3_of(edge_leaf_bytes(from, to, color))
                && chunked_proof_valid(Blake3QuantumHash, *proof, *graph_root)),
    {
        let leaf_bytes = encode_edge_leaf(from, to, color);
        let expected = self.hasher.hash(leaf_bytes.as_slice());
        if !crate::wire::bytes32_eq(&proof.leaf_proof.leaf_hash, &expected) {
            return false;
        }
        proof.verify(graph_root, &self.hasher)
    }

    /// Checks one blank-bit opening: the leaf hash must be the hash of the
    /// single claimed bit, and the path must verify against the blank root.
    fn verify_blank_opening(&self, opening: &BlankEdgeOpening, blank_root: &[u8; 32]) -> (r: bool)
        ensures
            r == (opening.blank_proof.leaf_proof.leaf_hash == blake3_of(
                seq![
                    if opening.is_blank {
                        1u8
                    } else {
                        0u8
                    },
                ],
            ) && chunked_proof_valid(Blake3QuantumHash, opening.blank_proof, *blank_root)),
    {
        let bit: u8 = if opening.is_blank {
            1
        } else {
            0
        };
        let mut leaf_bytes: Vec<u8> = Vec::new();
        leaf_bytes.push(bit);
        proof {
            assert(leaf_bytes@ =~= seq![
                if opening.is_blank {
                    1u8
                } else {
                    0u8
                },
            ]);
        }
        let expected = self.hasher.hash(leaf_bytes.as_slice());
        if !crate::wire::bytes32_eq(&opening.blank_proof.leaf_proof.leaf_hash, &expected) {
            return false;
        }
        opening.blank_proof.verify(blank_root, &self.hasher)
    }
}

/// The vertex domain spot challenges draw from: the declared size, but at
/// least three.
pub open spec fn spot_domain(graph_size: u32) -> u32 {
    if graph_size >= 3 {
        graph_size
    } else {
        3u32
    }
}

/// The side of the edge grid blank challenges draw from: the declared size,
/// but at least two.
pub open spec fn blank_domain(graph_size: u32) -> u64 {
    if graph_size >= 2 {
        graph_size as u64
    } else {
        2u64
    }
}

/// Whether the three entries of a triad differ pairwise.
pub open spec fn triad_distinct(nodes: [u32; 3]) -> bool {
    nodes@[0] != nodes@[1] && nodes@[0] != nodes@[2] && nodes@[1] != nodes@[2]
}

/// Whether two triads hold the same labels.
fn nodes_eq(a: &[u32; 3], b: &[u32; 3]) -> (r: bool)
    ensures
        r == (a == b),
{
    let r = a[0] == b[0] && a[1] == b[1] && a[2] == b[2];
    proof {
        if a@[0] == b@[0] && a@[1] == b@[1] && a@[2] == b@[2] {
            assert(*a =~= *b);
        }
    }
    r
}

/// Scans a label list for a value.
fn vec_contains_u32(values: &Vec<u32>, x: u32) -> (r: bool)
    ensures
        r == values@.contains(x),
{
    let len = values.len();
    for i in 0..len
        invariant
            len == values@.len(),
            forall|q: int| 0 <= q < i ==> values@[q] != x,
    {
        if values[i] == x {
            return true;
        }
    }
    proof {
        if values@.contains(x) {
            let w = choose|w: int| 0 <= w < values@.len() && values@[w] == x;
        }
    }
    false
}

/// Scans an entry list for an opening of the ordered pair (a, b).
fn entries_contain_pair(entries: &Vec<(u32, u32, Color)>, a: u32, b: u32) -> (r: bool)
    ensures
        r == entries_has_pair(entries@, a, b),
{
    let len = entries.len();
    for e in 0..len
        invariant
            len == entries@.len(),
            forall|e2: int|
                0 <= e2 < e ==> !((#[trigger] entries@[e2]).0 == a && entries@[e2].1 == b),
    {
        let entry = entries[e];
        if entry.0 == a && entry.1 == b {
            return true;
        }
    }
    false
}

/// Finds the last opening carrying an edge index, if any.
fn find_opening_exec<'a>(edges: &'a Vec<BlankEdgeOpening>, idx: u64) -> (r: Option<
    &'a BlankEdgeOpening,
>)
    ensures
        match r {
            Some(o) => find_opening(edges@, idx) == Some(*o),
            None => find_opening(edges@, idx) is None,
        },
{
    let mut found: Option<&'a BlankEdgeOpening> = None;
    let len = edges.len();
    for i in 0..len
        invariant
            len == edges@.len(),
            match found {
                Some(o) => find_opening(edges@.take(i as int), idx) == Some(*o),
                None => find_opening(edges@.take(i as int), idx) is None,
            },
    {
        proof {
            assert(edges@.take(i + 1).drop_last() =~= edges@.take(i as int));
            assert(edges@.take(i + 1).last() == edges@[i as int]);
        }
        if edges[i].edge_index == idx {
            found = Some(&edges[i]);
        }
    }
    proof {
        assert(edges@.take(len as int) =~= edges@);
    }
    found
}

/// An honest spot response over distinct in-range nodes is accepted, for any
/// coloration set holding every triad of the witness graph and any
/// relabeling of it: the rebuilt matrix is the witness's triad matrix at the
/// relabeled nodes, whose canonical key equals the sorted triad's key, which
/// the set admits.
pub proof fn lemma_honest_spot_entry_accepted(
    cs: ColorationSet,
    cm: Commitments,
    g: Graph,
    gp: Graph,
    perm: Seq<u32>,
    nodes: [u32; 3],
    resp: SpotResponse,
)
    requires
        g.wf(),
        gp.wf(),
        gp.n == g.n,
        is_permutation(perm, g.n as nat),
        forall|i: int, j: int|
            0 <= i < gp.n && 0 <= j < gp.n ==> gp.color_at(i, j) == g.color_at(
                perm[i] as int,
                perm[j] as int,
            ),
        forall|a: u32, b: u32, c: u32|
            a < b && b < c && c < g.n ==> cs.has_key(canon9(#[trigger] triad_matrix(g, a, b, c))),
        triad_distinct(nodes),
        forall|x: int| 0 <= x < 3 ==> (#[trigger] nodes@[x]) < gp.n,
        honest_spot_response(gp, cm.graph_root, nodes, resp),
    ensures
        spot_entry_accepted(cs, cm, nodes, resp),
{
    assert forall|e: int| 0 <= e < resp.edges@.len() implies spot_edge_verified(
        cm,
        #[trigger] resp.edges@[e],
    ) by {
        assert(honest_spot_edge(gp, cm.graph_root, resp.edges@[e]));
    }

    let entries = response_entries(resp);
    let m = entries_matrix(resp.nodes, entries);

    // Every ordered pair of the triad is opened, at its row-major slot.
    assert forall|x: int, y: int|
        0 <= x < 3 && 0 <= y < 3 implies #[trigger] entries_has_pair(
        entries,
        resp.nodes@[x],
        resp.nodes@[y],
    ) by {
        crate::graph::lemma_row_major_index(3, x, y);
        assert(resp.edges@[3 * x + y].from == nodes@[x]);
        assert(resp.edges@[3 * x + y].to == nodes@[y]);
        assert(entries[3 * x + y].0 == resp.nodes@[x] && entries[3 * x + y].1 == resp.nodes@[y]);
    }
    assert(all_pairs_opened(resp.nodes, entries));

    // The rebuilt matrix is the permuted graph's triad matrix at the nodes.
    assert(m =~= graph_matrix3(gp, nodes@)) by {
        assert forall|k: int| 0 <= k < 9 implies m[k] == graph_matrix3(gp, nodes@)[k] by {
            let x = k / 3;
            let y = k % 3;
            let a = nodes@[x];
            let b = nodes@[y];
            assert(entries[3 * x + y] == (a, b, gp.color_at(a as int, b as int))) by {
                crate::graph::lemma_row_major_index(3, x, y);
                assert(resp.edges@[3 * x + y].from == a);
                assert(resp.edges@[3 * x + y].to == b);
                assert(honest_spot_edge(gp, cm.graph_root, resp.edges@[3 * x + y]));
            }
            assert forall|e: int|
                0 <= e < entries.len() && (#[trigger] entries[e]).0 == a && entries[e].1 == b
                    implies entries[e].2 == gp.color_at(a as int, b as int) by {
                assert(honest_spot_edge(gp, cm.graph_root, resp.edges@[e]));
                assert(entries[e].2 == resp.edges@[e].color);
            }
            lemma_spot_color_consistent(entries, a, b, gp.color_at(a as int, b as int));
        }
    }

    // At the witness graph, the nodes map through the permutation.
    let mapped = Seq::new(3, |x: int| perm[nodes@[x] as int]);
    assert(graph_matrix3(gp, nodes@) =~= graph_matrix3(g, mapped)) by {
        assert forall|k: int|
            0 <= k < 9 implies graph_matrix3(gp, nodes@)[k] == graph_matrix3(g, mapped)[k] by {
            let x = k / 3;
            let y = k % 3;
            assert(gp.color_at(nodes@[x] as int, nodes@[y] as int) == g.color_at(
                mapped[x] as int,
                mapped[y] as int,
            ));
        }
    }

    // The mapped labels are distinct and in range, so they are a relabeling
    // of a sorted triad the set admits.
    assert(mapped[0] != mapped[1] && mapped[0] != mapped[2] && mapped[1] != mapped[2]) by {
        assert(perm.no_duplicates());
    }
    assert(forall|x: int| 0 <= x < 3 ==> (#[trigger] mapped[x]) < g.n);
    lemma_sort_triple(mapped);
    let (a, b, c, t): (u32, u32, u32, int) = choose|a: u32, b: u32, c: u32, t: int|
        {
            &&& a < b < c
            &&& 0 <= t < 6
            &&& #[trigger] sorted_triple_apply(t, a, b, c) == mapped
        };
    lemma_perm6_is_perm3(t);
    lemma_graph_matrix_relabel(g, seq![a, b, c], perm6_of(t));
    assert(graph_matrix3(g, mapped) == crate::coloring::relabel(
        perm6_of(t),
        triad_matrix(g, a, b, c),
    ));
    lemma_canonical_permutation_invariant(perm6_of(t), triad_matrix(g, a, b, c));
    assert(cs.has_key(canon9(triad_matrix(g, a, b, c))));
    assert(canon9(m) == canon9(triad_matrix(g, a, b, c)));
}

/// The `t`-th vertex relabeling.
pub open spec fn perm6_of(t: int) -> Seq<int> {
    crate::coloring::perm6(t)
}

/// An honest spot response to a whole challenge of distinct in-range triads
/// is accepted.
pub proof fn lemma_honest_spot_response_accepted(
    cs: ColorationSet,
    cm: Commitments,
    g: Graph,
    gp: Graph,
    perm: Seq<u32>,
    challenge: SpotChallenge,
    response: SpotChallengeResponse,
)
    requires
        g.wf(),
        gp.wf(),
        gp.n == g.n,
        is_permutation(perm, g.n as nat),
        forall|i: int, j: int|
            0 <= i < gp.n && 0 <= j < gp.n ==> gp.color_at(i, j) == g.color_at(
                perm[i] as int,
                perm[j] as int,
            ),
        forall|a: u32, b: u32, c: u32|
            a < b && b < c && c < g.n ==> cs.has_key(canon9(#[trigger] triad_matrix(g, a, b, c))),
        forall|k: int| 0 <= k < challenge.spots@.len() ==> triad_distinct(#[trigger] challenge.spots@[k]),
        forall|k: int, x: int|
            0 <= k < challenge.spots@.len() && 0 <= x < 3 ==> (#[trigger] challenge.spots@[k]@[x])
                < gp.n,
        response.responses@.len() == challenge.spots@.len(),
        forall|k: int|
            0 <= k < response.responses@.len() ==> honest_spot_response(
                gp,
                cm.graph_root,
                challenge.spots@[k],
                #[trigger] response.responses@[k],
            ),
    ensures
        spot_response_accepted(cs, cm, challenge, response),
{
    assert forall|k: int| 0 <= k < response.responses@.len() implies spot_entry_accepted(
        cs,
        cm,
        challenge.spots@[k],
        #[trigger] response.responses@[k],
    ) by {
        lemma_honest_spot_entry_accepted(
            cs,
            cm,
            g,
            gp,
            perm,
            challenge.spots@[k],
            response.responses@[k],
        );
    }
}

/// An honest blank response to in-range indices is accepted whenever the
/// committed blank count is the witness graph's true blank count: the
/// relabeling preserves the count, so the attached proof's total matches the
/// commitment.
pub proof fn lemma_honest_blank_response_accepted(
    cs: ColorationSet,
    cm: Commitments,
    g: Graph,
    gp: Graph,
    perm: Seq<u32>,
    challenge: BlankChallenge,
    response: BlankChallengeResponse,
)
    requires
        g.wf(),
        gp.wf(),
        gp.n == g.n,
        is_permutation(perm, g.n as nat),
        forall|i: int, j: int|
            0 <= i < gp.n && 0 <= j < gp.n ==> gp.color_at(i, j) == g.color_at(
                perm[i] as int,
                perm[j] as int,
            ),
        cs.spec_graph_size() == g.n,
        cm.blank_count == byte_sum(blank_bits(g)),
        response.edges@.len() == challenge.edge_indices@.len(),
        forall|k: int|
            0 <= k < response.edges@.len() ==> honest_blank_opening(
                gp,
                cm,
                #[trigger] response.edges@[k],
            ) && response.edges@[k].edge_index == challenge.edge_indices@[k],
        blank_proof_valid(
            (Blake3QuantumHash),
            response.stark_proof,
            byte_sum(blank_bits(gp)) as u64,
        ),
        response.stark_proof.total_sum == byte_sum(blank_bits(gp)),
    ensures
        blank_response_accepted(cs, cm, challenge, response),
{
    lemma_blank_count_permutation_invariant(g, gp, perm);
    assert(byte_sum(blank_bits(gp)) == byte_sum(blank_bits(g)));
    assert(byte_sum(blank_bits(gp)) as u64 == cm.blank_count as u64);

    assert forall|k: int| 0 <= k < challenge.edge_indices@.len() implies {
        let found = find_opening(response.edges@, #[trigger] challenge.edge_indices@[k]);
        found is Some && blank_opening_verified(cs, cm, found.unwrap())
    } by {
        let idx = challenge.edge_indices@[k];
        assert(response.edges@[k].edge_index == idx);
        lemma_find_opening_found(response.edges@, idx, k);
        let found = find_opening(response.edges@, idx);
        let e = choose|e: int|
            0 <= e < response.edges@.len() && response.edges@[e] == found.unwrap()
                && (#[trigger] response.edges@[e]).edge_index == idx;
        assert(honest_blank_opening(gp, cm, response.edges@[e]));
        assert(blank_opening_verified(cs, cm, found.unwrap()));
    }
}

/// When some opening carries the index, the search finds one that does.
pub proof fn lemma_find_opening_found(edges: Seq<BlankEdgeOpening>, idx: u64, w: int)
    requires
        0 <= w < edges.len(),
        edges[w].edge_index == idx,
    ensures
        find_opening(edges, idx) is Some,
        exists|e: int|
            0 <= e < edges.len() && edges[e] == find_opening(edges, idx).unwrap() && (
            #[trigger] edges[e]).edge_index == idx,
    decreases edges.len(),
{
    if edges.last().edge_index == idx {
        assert(edges[edges.len() - 1].edge_index == idx);
    } else {
        assert(w < edges.len() - 1);
        assert(edges.drop_last()[w] == edges[w]);
        lemma_find_opening_found(edges.drop_last(), idx, w);
        let e = choose|e: int|
            0 <= e < edges.drop_last().len() && edges.drop_last()[e] == find_opening(
                edges.drop_last(),
                idx,
            ).unwrap() && (#[trigger] edges.drop_last()[e]).edge_index == idx;
        assert(edges[e] == edges.drop_last()[e]);
    }
}

} // verus!
