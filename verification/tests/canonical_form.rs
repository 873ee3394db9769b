use zkp_c_coloring::coloring::ColorationSet;
use zkp_c_coloring::graph::{Color, Graph, Spot};
use zkp_c_coloring::merkle::encode_edge_leaf;
use zkp_c_coloring::messages::Challenge;
use zkp_c_coloring::permutation::random_permutation;
use zkp_c_coloring::prover::{ProverConfig, ProverState};
use zkp_c_coloring::tournament::detect_placeholder_tournament;
use zkp_c_coloring::verification::{Verifier, VerifierConfig};

fn triangle_graph() -> Graph {
    let mut graph = Graph::new(3);
    let colors = [
        [Color::Blank, Color::Red, Color::Green],
        [Color::Yellow, Color::Blank, Color::Red],
        [Color::Green, Color::Yellow, Color::Blank],
    ];
    for i in 0..3u32 {
        for j in 0..3u32 {
            graph.set_edge(i, j, colors[i as usize][j as usize]);
        }
    }
    graph
}

fn spot_of(graph: &Graph, nodes: [u32; 3]) -> Spot {
    graph.get_spot(&nodes)
}

#[test]
fn canonicalization_is_idempotent_on_a_concrete_triad() {
    let graph = triangle_graph();
    let key = ColorationSet::spot_to_key(&spot_of(&graph, [0, 1, 2]));

    // Reinterpret the key itself as a triad over fresh labels and
    // canonicalize again: the key must be a fixed point.
    let mut rekeyed = Graph::new(3);
    for i in 0..3u32 {
        for j in 0..3u32 {
            let byte = key[(i * 3 + j) as usize];
            rekeyed.set_edge(i, j, Color::from_u8(byte).unwrap());
        }
    }
    let again = ColorationSet::spot_to_key(&spot_of(&rekeyed, [0, 1, 2]));
    assert_eq!(again, key);
}

#[test]
fn canonical_key_is_invariant_under_vertex_relabeling() {
    let graph = triangle_graph();
    let base = ColorationSet::spot_to_key(&spot_of(&graph, [0, 1, 2]));
    let orders: [[u32; 3]; 6] = [
        [0, 1, 2],
        [0, 2, 1],
        [1, 0, 2],
        [1, 2, 0],
        [2, 0, 1],
        [2, 1, 0],
    ];
    for order in orders.iter() {
        let key = ColorationSet::spot_to_key(&spot_of(&graph, *order));
        assert_eq!(key, base, "relabeling {:?} must keep the canonical key", order);
    }
}

#[test]
fn minimum_triadic_graph_runs_the_protocol() {
    let graph = triangle_graph();
    let coloration = ColorationSet::from_graph(&graph);
    assert_eq!(coloration.pattern_count(), 1);
    let the_key = ColorationSet::spot_to_key(&spot_of(&graph, [0, 1, 2]));
    assert!(coloration.patterns().contains(&the_key));

    let mut prover = ProverState::new(graph, coloration.clone());
    let mut verifier = Verifier::new(
        coloration,
        VerifierConfig {
            rounds: 4,
            spots_per_round: 2,
            blank_checks_per_round: 2,
            spot_probability_permille: 500,
        },
    );
    let commitments = prover.commit(&ProverConfig::default());
    verifier.receive_commitments(commitments);
    for round in 0..4 {
        match verifier.generate_challenge(round) {
            Challenge::Spot(ch) => {
                let response = prover.respond_to_spot_challenge(&ch);
                assert!(verifier.verify_spot_response(&ch, &response));
            }
            Challenge::Blank(ch) => {
                let response = prover.respond_to_blank_challenge(&ch);
                assert!(verifier.verify_blank_response(&ch, &response));
            }
        }
    }
}

#[test]
fn color_bytes_round_trip_and_edge_leaf_layout_is_exact() {
    assert_eq!(Color::Red.to_u8(), 0);
    assert_eq!(Color::Green.to_u8(), 1);
    assert_eq!(Color::Yellow.to_u8(), 2);
    assert_eq!(Color::Blank.to_u8(), 3);
    for byte in 0..4u8 {
        assert_eq!(Color::from_u8(byte).unwrap().to_u8(), byte);
    }
    assert!(Color::from_u8(4).is_none());

    let leaf = encode_edge_leaf(1, 2, Color::Yellow);
    assert_eq!(leaf, vec![0u8, 0, 0, 1, 0, 0, 0, 2, 2]);
}

#[test]
fn random_permutations_are_bijections() {
    for n in [1usize, 2, 7, 33] {
        let mut perm = random_permutation(n);
        assert_eq!(perm.len(), n);
        perm.sort_unstable();
        for (i, v) in perm.iter().enumerate() {
            assert_eq!(*v, i as u32);
        }
    }
}

#[test]
fn graph_edits_and_cache_rebuild_agree() {
    let mut graph = Graph::new(2);
    graph.overwrite_edge(0, 1, Color::Red);
    graph.overwrite_edge(1, 0, Color::Green);
    graph.rebuild_edge_cache();
    assert_eq!(graph.edges.len(), 4);
    assert_eq!(graph.edges[1].from, 0);
    assert_eq!(graph.edges[1].to, 1);
    assert_eq!(graph.edges[1].color, Color::Red);
    assert_eq!(graph.get_edge(1, 0), Color::Green);
    assert_eq!(graph.blank_count(), 2);

    let witness = detect_placeholder_tournament(&graph);
    assert_eq!(witness.nodes, vec![0, 1]);
}

#[test]
fn spot_hash_is_stable_under_entry_order() {
    let hasher = zkp_c_coloring::hash::default_quantum_hash();
    let graph = triangle_graph();
    let spot = graph.get_spot(&[0, 1, 2]);
    let mut reordered_entries = spot.edges.clone();
    reordered_entries.reverse();
    let reordered = Spot { nodes: spot.nodes, edges: reordered_entries };
    assert_eq!(spot.hash(&hasher), reordered.hash(&hasher));
}
