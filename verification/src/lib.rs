//! An interactive zero-knowledge argument that a directed, edge-colored graph
//! satisfies a local coloration constraint set, built on a chunked Merkle
//! accumulator, a two-mode (spot / blank) challenge protocol, and a succinct
//! blank-count argument over an arithmetized running-sum trace.

pub mod blank_proof;
pub mod coloring;
pub mod constraints;
pub mod display;
pub mod fri;
pub mod graph;
pub mod hash;
pub mod merkle;
pub mod messages;
pub mod permutation;
pub mod polynomial;
pub mod prover;
pub mod random_graph;
pub mod tournament;
pub mod transcript;
pub mod verification;
pub mod wire;

