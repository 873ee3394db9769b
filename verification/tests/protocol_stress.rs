use zkp_c_coloring::coloring::ColorationSet;
use zkp_c_coloring::graph::{Color, Graph};
use zkp_c_coloring::messages::Challenge;
use zkp_c_coloring::prover::{ProverConfig, ProverState};
use zkp_c_coloring::random_graph::generate_hard_instance;
use zkp_c_coloring::verification::{Verifier, VerifierConfig};

fn run_round_trip(nodes: u32, rounds: u32, spots: u32, blanks: u32, spot_prob_permille: u32) {
    let (graph, coloration, _params) = generate_hard_instance(nodes);
    run_round_trip_with_instance(graph, coloration, rounds, spots, blanks, spot_prob_permille);
}

fn run_round_trip_with_instance(
    graph: Graph,
    coloration: ColorationSet,
    rounds: u32,
    spots: u32,
    blanks: u32,
    spot_prob_permille: u32,
) {
    let mut prover = ProverState::new(graph, coloration.clone());
    let mut verifier = Verifier::new(
        coloration,
        VerifierConfig {
            rounds,
            spots_per_round: spots,
            blank_checks_per_round: blanks,
            spot_probability_permille: spot_prob_permille,
        },
    );

    let config = ProverConfig::default();
    let commitments = prover.commit(&config);
    verifier.receive_commitments(commitments);

    for round in 0..rounds {
        match verifier.generate_challenge(round) {
            Challenge::Spot(challenge) => {
                let response = prover.respond_to_spot_challenge(&challenge);
                assert!(
                    verifier.verify_spot_response(&challenge, &response),
                    "spot response rejected in round {round}"
                );
            }
            Challenge::Blank(challenge) => {
                let response = prover.respond_to_blank_challenge(&challenge);
                assert!(
                    verifier.verify_blank_response(&challenge, &response),
                    "blank response rejected in round {round}"
                );
            }
        }
    }
}

fn build_specific_coloring_c(nodes: u32) -> (Graph, ColorationSet) {
    assert!(nodes >= 3, "coloring c requires at least a triad");
    let mut graph = Graph::new(nodes);
    for i in 0..nodes {
        for j in 0..nodes {
            let color = if i == j || (i + j) % 11 == 0 {
                Color::Blank
            } else {
                match (i + 2 * j) % 3 {
                    0 => Color::Red,
                    1 => Color::Green,
                    _ => Color::Yellow,
                }
            };
            graph.set_edge(i, j, color);
        }
    }
    let coloration = ColorationSet::from_graph(&graph);
    (graph, coloration)
}

#[test]
fn protocol_round_trip_accepts_64_nodes() {
    run_round_trip(64, 12, 6, 4, 750);
}

#[test]
fn protocol_round_trip_accepts_128_nodes() {
    run_round_trip(128, 16, 8, 6, 700);
}

#[test]
fn protocol_round_trip_accepts_specific_coloring_c_on_100_nodes() {
    let (graph, coloration) = build_specific_coloring_c(100);
    run_round_trip_with_instance(graph, coloration, 14, 7, 5, 720);
}
