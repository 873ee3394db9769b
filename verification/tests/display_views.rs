use zkp_c_coloring::coloring::ColorationSet;
use zkp_c_coloring::display::{
    focus_from_blank_response, focus_from_spot_response, merkle_display_from_chunked,
    spot_checks_from_response, TriadCatalog,
};
use zkp_c_coloring::graph::{Color, Graph};
use zkp_c_coloring::hash::default_quantum_hash;
use zkp_c_coloring::merkle::ChunkedMerkleTree;
use zkp_c_coloring::messages::Challenge;
use zkp_c_coloring::prover::{ProverConfig, ProverState};
use zkp_c_coloring::random_graph::generate_hard_instance;
use zkp_c_coloring::verification::{Verifier, VerifierConfig};

fn spot_setup() -> (ProverState, Verifier, zkp_c_coloring::messages::SpotChallenge) {
    let (graph, coloration, _params) = generate_hard_instance(8);
    let mut prover = ProverState::new(graph, coloration.clone());
    let cfg = VerifierConfig {
        rounds: 2,
        spots_per_round: 2,
        blank_checks_per_round: 2,
        spot_probability_permille: 1000,
    };
    let mut verifier = Verifier::new(coloration, cfg);
    let commitments = prover.commit(&ProverConfig::default());
    verifier.receive_commitments(commitments);
    let ch = match verifier.generate_challenge(0) {
        Challenge::Spot(ch) => ch,
        Challenge::Blank(_) => panic!("an always-spot coin must pick spot"),
    };
    (prover, verifier, ch)
}

#[test]
fn triad_catalog_numbers_patterns_from_one() {
    let mut graph = Graph::new(4);
    for i in 0..4u32 {
        for j in 0..4u32 {
            let color = match (2 * i + j) % 4 {
                0 => Color::Blank,
                1 => Color::Red,
                2 => Color::Green,
                _ => Color::Yellow,
            };
            graph.overwrite_edge(i, j, color);
        }
    }
    let coloration = ColorationSet::from_graph(&graph);
    let catalog = TriadCatalog::from_coloration(&coloration);
    assert_eq!(catalog.total, coloration.pattern_count());
    assert_eq!(catalog.patterns.len(), catalog.total);
    for (idx, pattern) in catalog.patterns.iter().enumerate() {
        assert_eq!(pattern.id, idx + 1);
        assert_eq!(pattern.edges.len(), 9);
        assert_eq!(pattern.signature.len(), 11);
        assert_eq!(pattern.rows[0].len(), 5);
    }
}

#[test]
fn spot_focus_reports_labels_counts_and_edges() {
    let (prover, _verifier, ch) = spot_setup();
    let response = prover.respond_to_spot_challenge(&ch);
    let focus = focus_from_spot_response("#01", &ch.spots, &response);
    assert_eq!(focus.title, "Spot challenge #01");
    assert_eq!(focus.description, "2 triads verified");
    assert_eq!(focus.triads, ch.spots);
    assert_eq!(focus.edges.len(), 18);
    assert_eq!(focus.edges[0].from, ch.spots[0][0]);
    assert_eq!(focus.edges[0].to, ch.spots[0][0]);
}

#[test]
fn blank_focus_reports_labels_counts_and_edges() {
    let (graph, coloration, _params) = generate_hard_instance(8);
    let mut prover = ProverState::new(graph, coloration.clone());
    let cfg = VerifierConfig {
        rounds: 2,
        spots_per_round: 2,
        blank_checks_per_round: 3,
        spot_probability_permille: 0,
    };
    let mut verifier = Verifier::new(coloration, cfg);
    let commitments = prover.commit(&ProverConfig::default());
    verifier.receive_commitments(commitments);
    let ch = match verifier.generate_challenge(0) {
        Challenge::Blank(ch) => ch,
        Challenge::Spot(_) => panic!("a never-spot coin must pick blank"),
    };
    let response = prover.respond_to_blank_challenge(&ch);
    let focus = focus_from_blank_response("#02", &ch.edge_indices, &response);
    assert_eq!(focus.title, "Blank challenge #02");
    assert_eq!(focus.description, "3 edges probed");
    assert!(focus.triads.is_empty());
    assert_eq!(focus.edges.len(), 3);
}

#[test]
fn spot_checks_mark_honest_spots_as_admitted() {
    let (prover, _verifier, ch) = spot_setup();
    let response = prover.respond_to_spot_challenge(&ch);
    let coloration = prover.coloration_set.clone();
    let checks = spot_checks_from_response("#03", &response, &coloration);
    assert_eq!(checks.len(), response.responses.len());
    for (check, resp) in checks.iter().zip(response.responses.iter()) {
        assert_eq!(check.round_label, "#03");
        assert_eq!(check.nodes, resp.nodes);
        assert!(check.in_set, "an honest spot must be admitted");
        assert_eq!(check.signature.len(), 11);
        assert_eq!(check.edges.len(), 9);
    }
}

#[test]
fn merkle_display_renders_hex_paths() {
    let hasher = default_quantum_hash();
    let leaves: Vec<Vec<u8>> = (0..20u8).map(|b| vec![b]).collect();
    let tree = ChunkedMerkleTree::new(&leaves, &hasher, 4);
    let proof = tree.get_proof(9).unwrap();
    let display = merkle_display_from_chunked("trace row", &proof);
    assert_eq!(display.label, "trace row");
    assert_eq!(display.leaf_path.len(), proof.leaf_proof.path.len() + 1);
    assert_eq!(display.chunk_path.len(), proof.chunk_proof.path.len() + 1);
    assert_eq!(display.leaf_path[0].level, 0);
    assert_eq!(display.leaf_path[0].direction, "leaf");
    assert_eq!(
        display.leaf_path[0].hash,
        hex::encode(proof.leaf_proof.leaf_hash)
    );
}
