//! The protocol messages: the published commitments, the two challenge
//! kinds, and the prover's authenticated responses.

use vstd::prelude::*;

use crate::blank_proof::BlankCountProof;
use crate::graph::Color;
use crate::merkle::ChunkedMerkleProof;

verus! {

/// The three published Merkle roots and the declared blank count.
#[derive(Debug, Clone, Copy)]
pub struct Commitments {
    pub graph_root: [u8; 32],
    pub permutation_root: [u8; 32],
    pub blank_root: [u8; 32],
    pub blank_count: u32,
}

/// One round's challenge: open triads, or open edges with the blank-count
/// proof.
#[derive(Debug, Clone)]
pub enum Challenge {
    Spot(SpotChallenge),
    Blank(BlankChallenge),
}

/// A request to open all nine ordered pairs of each listed triad.
#[derive(Debug, Clone)]
pub struct SpotChallenge {
    pub spots: Vec<[u32; 3]>,
    pub seed: [u8; 32],
}

/// A request to open the listed edges with their blank-vector bits.
#[derive(Debug, Clone)]
pub struct BlankChallenge {
    pub edge_indices: Vec<u64>,
    pub seed: [u8; 32],
}

/// The openings of one triad, in row-major order of its nodes.
#[derive(Debug, Clone)]
pub struct SpotResponse {
    pub nodes: [u32; 3],
    pub edges: Vec<SpotEdgeOpening>,
}

/// One opened edge of the committed permuted graph.
#[derive(Debug, Clone)]
pub struct SpotEdgeOpening {
    pub from: u32,
    pub to: u32,
    pub color: Color,
    pub proof: ChunkedMerkleProof,
}

/// The prover's answer to a spot challenge, one response per triad.
#[derive(Debug, Clone)]
pub struct SpotChallengeResponse {
    pub responses: Vec<SpotResponse>,
}

/// The prover's answer to a blank challenge: the opened edges and the
/// blank-count proof.
#[derive(Debug, Clone)]
pub struct BlankChallengeResponse {
    pub edges: Vec<BlankEdgeOpening>,
    pub stark_proof: BlankCountProof,
}

/// One opened edge with its color proof and its blank-bit proof.
#[derive(Debug, Clone)]
pub struct BlankEdgeOpening {
    pub edge_index: u64,
    pub from: u32,
    pub to: u32,
    pub color: Color,
    pub is_blank: bool,
    pub color_proof: ChunkedMerkleProof,
    pub blank_proof: ChunkedMerkleProof,
}

} // verus!
