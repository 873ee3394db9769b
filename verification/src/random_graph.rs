//! The hard-instance generator: a random edge-colored digraph with
//! self-loops, each edge colored with one of the three visible colors or
//! left blank with equal odds for the coin, and its coloration set.

use vstd::prelude::*;

use rand::rngs::StdRng;

use crate::coloring::ColorationSet;
use crate::graph::{blank_bits, Color, Graph};
use crate::permutation::{rng_below, rng_from_entropy};
use crate::polynomial::byte_sum;

verus! {

/// The edge probability the generator uses, in parts per thousand.
pub const EDGE_PROBABILITY_PERMILLE: u32 = 500;

/// What the generator reports about an instance.
#[derive(Debug, Clone, Copy)]
pub struct InstanceParameters {
    pub nodes: u32,
    pub edge_probability_permille: u32,
    pub colored_edges: u32,
    pub blank_edges: u32,
}

/// Draws one of the three visible colors.
fn random_color(rng: &mut StdRng) -> (r: Color)
    ensures
        r != Color::Blank,
{
    let draw = rng_below(rng, 3);
    if draw == 0 {
        Color::Red
    } else if draw == 1 {
        Color::Green
    } else {
        Color::Yellow
    }
}

/// Generates a random instance: each cell is independently colored with
/// probability one half, else blank; the coloration set is built from the
/// resulting graph, and the declared blank budget is its true blank count.
pub fn generate_hard_instance(n: u32) -> (r: (Graph, ColorationSet, InstanceParameters))
    requires
        n <= 0xFFFF,
    ensures
        r.0.wf(),
        r.0.n == n,
        r.1.wf(),
        r.1.spec_graph_size() == n,
        r.1.spec_blank_limit() == byte_sum(blank_bits(r.0)),
        forall|a: u32, b: u32, c: u32|
            a < b && b < c && c < n ==> r.1.has_key(
                crate::coloring::canon9(#[trigger] crate::coloring::triad_matrix(r.0, a, b, c)),
            ),
        r.2.nodes == n,
        r.2.blank_edges == byte_sum(blank_bits(r.0)),
    {
    let mut graph = Graph::new(n);
    let mut rng = rng_from_entropy();
    let mut colored_edges: u32 = 0;

    for i in 0..n
        invariant
            graph.wf(),
            graph.n == n,
            colored_edges <= i * n,
    {
        for j in 0..n
            invariant
                graph.wf(),
                graph.n == n,
                i < n,
                colored_edges <= i * n + j,
        {
            proof {
                assert((i as int) * (n as int) + (j as int) < (n as int) * (n as int))
                    by (nonlinear_arith)
                    requires
                        i < n,
                        j < n,
                ;
                assert((n as int) * (n as int) <= 0xFFFF * 0xFFFF) by (nonlinear_arith)
                    requires
                        n <= 0xFFFF,
                ;
            }
            let coin = rng_below(&mut rng, 1000);
            if coin < EDGE_PROBABILITY_PERMILLE as u64 {
                let color = random_color(&mut rng);
                graph.overwrite_edge(i, j, color);
                colored_edges = colored_edges + 1;
            } else {
                graph.overwrite_edge(i, j, Color::Blank);
            }
        }
        proof {
            assert((i + 1) * (n as int) == i * n + n) by (nonlinear_arith);
        }
    }

    graph.rebuild_edge_cache();
    let coloration = ColorationSet::from_graph(&graph);
    let blank_edges = graph.blank_count();

    let params = InstanceParameters {
        nodes: n,
        edge_probability_permille: EDGE_PROBABILITY_PERMILLE,
        colored_edges,
        blank_edges,
    };

    (graph, coloration, params)
}

/// Generates a random instance and returns the graph with its coloration
/// set.
pub fn placeholder_random_graph(n: u32) -> (r: (Graph, ColorationSet))
    requires
        n <= 0xFFFF,
    ensures
        r.0.wf(),
        r.0.n == n,
        r.1.wf(),
        r.1.spec_graph_size() == n,
        r.1.spec_blank_limit() == byte_sum(blank_bits(r.0)),
{
    let (graph, coloration, _params) = generate_hard_instance(n);
    (graph, coloration)
}

} // verus!
