//! A placeholder witness extractor over the first few vertices of a graph.

use vstd::prelude::*;

use crate::graph::Graph;

verus! {

/// The vertices a placeholder tournament detection names.
#[derive(Debug, Clone)]
pub struct TournamentWitness {
    pub nodes: Vec<u32>,
}

/// Names the first vertices of the graph, at most four, as a placeholder
/// witness.
pub fn detect_placeholder_tournament(graph: &Graph) -> (r: TournamentWitness)
    ensures
        r.nodes@.len() == if graph.n < 4 {
            graph.n as int
        } else {
            4int
        },
        forall|k: int| 0 <= k < r.nodes@.len() ==> r.nodes@[k] == k,
{
    let limit: u32 = if graph.n < 4 {
        graph.n
    } else {
        4
    };
    let mut nodes: Vec<u32> = Vec::new();
    for i in 0..limit
        invariant
            nodes@.len() == i,
            forall|k: int| 0 <= k < i ==> nodes@[k] == k,
    {
        nodes.push(i);
    }
    TournamentWitness { nodes }
}

} // verus!
