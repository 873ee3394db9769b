use zkp_c_coloring::coloring::ColorationSet;
use zkp_c_coloring::graph::{Color, Graph};
use zkp_c_coloring::messages::{Challenge, Commitments};
use zkp_c_coloring::prover::{ProverConfig, ProverState};
use zkp_c_coloring::random_graph::generate_hard_instance;
use zkp_c_coloring::transcript::{
    construct_transcript_with_config, replay_transcript_with_config, ProofTranscript,
    TranscriptError, TranscriptResponse, TranscriptRound,
};
use zkp_c_coloring::verification::{Verifier, VerifierConfig};

fn e1_config() -> VerifierConfig {
    VerifierConfig {
        rounds: 8,
        spots_per_round: 4,
        blank_checks_per_round: 2,
        spot_probability_permille: 700,
    }
}

#[test]
fn e2e_ten_nodes_all_rounds_accept_and_replay_offline() {
    let (graph, coloration, _params) = generate_hard_instance(10);
    let verifier_cfg = e1_config();
    let prover_cfg = ProverConfig::default();

    let transcript = construct_transcript_with_config(
        graph,
        coloration.clone(),
        &verifier_cfg,
        &prover_cfg,
    );
    assert_eq!(transcript.rounds.len(), 8);

    let replayed = replay_transcript_with_config(coloration, &transcript, &verifier_cfg);
    assert_eq!(replayed, Ok(()));
}

#[test]
fn e2e_tampered_spot_opening_rejects() {
    let (graph, coloration, _params) = generate_hard_instance(10);
    let mut prover = ProverState::new(graph, coloration.clone());
    let always_spot = VerifierConfig {
        spot_probability_permille: 1000,
        ..e1_config()
    };
    let mut verifier = Verifier::new(coloration, always_spot);
    let commitments = prover.commit(&ProverConfig::default());
    verifier.receive_commitments(commitments);

    match verifier.generate_challenge(0) {
        Challenge::Spot(ch) => {
            let honest = prover.respond_to_spot_challenge(&ch);
            assert!(verifier.verify_spot_response(&ch, &honest));

            let mut response = prover.respond_to_spot_challenge(&ch);
            let flipped = match response.responses[0].edges[1].color {
                Color::Red => Color::Green,
                _ => Color::Red,
            };
            response.responses[0].edges[1].color = flipped;
            assert!(
                !verifier.verify_spot_response(&ch, &response),
                "a tampered opening must be rejected"
            );
        }
        Challenge::Blank(_) => panic!("an always-spot coin must pick spot"),
    }
}

#[test]
fn e2e_inflated_blank_count_rejects_blank_rounds_only() {
    let (graph, coloration, _params) = generate_hard_instance(10);
    let mut prover = ProverState::new(graph, coloration.clone());
    let always_spot = VerifierConfig {
        spot_probability_permille: 1000,
        ..e1_config()
    };
    let always_blank = VerifierConfig {
        spot_probability_permille: 0,
        ..e1_config()
    };
    let mut spot_driver = Verifier::new(coloration.clone(), always_spot);
    let mut blank_driver = Verifier::new(coloration, always_blank);
    let commitments = prover.commit(&ProverConfig::default());
    let inflated = Commitments {
        blank_count: commitments.blank_count + 1,
        ..commitments
    };
    spot_driver.receive_commitments(inflated);
    blank_driver.receive_commitments(inflated);

    for round in 0..4 {
        match spot_driver.generate_challenge(round) {
            Challenge::Spot(ch) => {
                let response = prover.respond_to_spot_challenge(&ch);
                assert!(
                    spot_driver.verify_spot_response(&ch, &response),
                    "spot rounds still accept under an inflated blank count"
                );
            }
            Challenge::Blank(_) => panic!("an always-spot coin must pick spot"),
        }
        match blank_driver.generate_challenge(round) {
            Challenge::Blank(ch) => {
                let response = prover.respond_to_blank_challenge(&ch);
                assert!(
                    !blank_driver.verify_blank_response(&ch, &response),
                    "blank rounds must reject under an inflated blank count"
                );
            }
            Challenge::Spot(_) => panic!("a never-spot coin must pick blank"),
        }
    }
}

#[test]
fn e2e_spot_response_missing_pair_rejects() {
    let (graph, coloration, _params) = generate_hard_instance(10);
    let mut prover = ProverState::new(graph, coloration.clone());
    let always_spot = VerifierConfig {
        spot_probability_permille: 1000,
        ..e1_config()
    };
    let mut verifier = Verifier::new(coloration, always_spot);
    let commitments = prover.commit(&ProverConfig::default());
    verifier.receive_commitments(commitments);

    match verifier.generate_challenge(0) {
        Challenge::Spot(ch) => {
            let mut short = prover.respond_to_spot_challenge(&ch);
            short.responses[0].edges.pop();
            assert!(
                !verifier.verify_spot_response(&ch, &short),
                "a response missing one ordered pair must be rejected"
            );

            let mut empty = prover.respond_to_spot_challenge(&ch);
            empty.responses[0].edges.clear();
            assert!(
                !verifier.verify_spot_response(&ch, &empty),
                "a response opening no pair must be rejected"
            );
        }
        Challenge::Blank(_) => panic!("an always-spot coin must pick spot"),
    }
}

#[test]
fn all_blank_key_does_not_excuse_missing_openings() {
    // On the all-blank triangle the all-blank canonical key is admitted, so a
    // response with no openings must be rejected by the pair check alone.
    let mut graph = Graph::new(3);
    graph.rebuild_edge_cache();
    let coloration = ColorationSet::from_graph(&graph);
    let mut prover = ProverState::new(graph, coloration.clone());
    let always_spot = VerifierConfig {
        rounds: 1,
        spots_per_round: 1,
        blank_checks_per_round: 1,
        spot_probability_permille: 1000,
    };
    let mut verifier = Verifier::new(coloration, always_spot);
    let commitments = prover.commit(&ProverConfig::default());
    verifier.receive_commitments(commitments);

    match verifier.generate_challenge(0) {
        Challenge::Spot(ch) => {
            let honest = prover.respond_to_spot_challenge(&ch);
            assert!(verifier.verify_spot_response(&ch, &honest));

            let mut empty = prover.respond_to_spot_challenge(&ch);
            for resp in empty.responses.iter_mut() {
                resp.edges.clear();
            }
            assert!(
                !verifier.verify_spot_response(&ch, &empty),
                "missing openings must be rejected even when the rebuilt key is admitted"
            );
        }
        Challenge::Blank(_) => panic!("an always-spot coin must pick spot"),
    }
}

#[test]
fn e2e_forced_alternation_on_24_nodes_accepts() {
    let (graph, coloration, _params) = generate_hard_instance(24);
    let mut prover = ProverState::new(graph, coloration.clone());
    let spot_cfg = VerifierConfig {
        rounds: 6,
        spots_per_round: 3,
        blank_checks_per_round: 2,
        spot_probability_permille: 1000,
    };
    let blank_cfg = VerifierConfig {
        spot_probability_permille: 0,
        ..spot_cfg
    };
    let mut spot_driver = Verifier::new(coloration.clone(), spot_cfg);
    let mut blank_driver = Verifier::new(coloration, blank_cfg);
    let commitments = prover.commit(&ProverConfig::default());
    spot_driver.receive_commitments(commitments);
    blank_driver.receive_commitments(commitments);

    for round in 0..6 {
        if round % 2 == 0 {
            match spot_driver.generate_challenge(round) {
                Challenge::Spot(ch) => {
                    let response = prover.respond_to_spot_challenge(&ch);
                    assert!(spot_driver.verify_spot_response(&ch, &response));
                }
                Challenge::Blank(_) => panic!("an always-spot coin must pick spot"),
            }
        } else {
            match blank_driver.generate_challenge(round) {
                Challenge::Blank(ch) => {
                    let response = prover.respond_to_blank_challenge(&ch);
                    assert!(blank_driver.verify_blank_response(&ch, &response));
                }
                Challenge::Spot(_) => panic!("a never-spot coin must pick blank"),
            }
        }
    }
}

#[test]
fn e2e_challenge_seeds_are_deterministic_across_hosts() {
    let (graph, coloration, _params) = generate_hard_instance(10);
    let mut prover = ProverState::new(graph, coloration.clone());
    let commitments = prover.commit(&ProverConfig::default());

    let mut first = Verifier::new(coloration.clone(), e1_config());
    let mut second = Verifier::new(coloration, e1_config());
    first.receive_commitments(commitments);
    second.receive_commitments(commitments);

    for round in 0..8 {
        let a = first.generate_challenge(round);
        let b = second.generate_challenge(round);
        match (a, b) {
            (Challenge::Spot(x), Challenge::Spot(y)) => {
                assert_eq!(x.seed, y.seed);
                assert_eq!(x.spots, y.spots);
            }
            (Challenge::Blank(x), Challenge::Blank(y)) => {
                assert_eq!(x.seed, y.seed);
                assert_eq!(x.edge_indices, y.edge_indices);
            }
            _ => panic!("identical verifiers must pick the same mode"),
        }
    }
}

#[test]
fn replay_reports_kind_mismatch() {
    let (graph, coloration, _params) = generate_hard_instance(10);
    let mut prover = ProverState::new(graph, coloration.clone());
    let always_spot = VerifierConfig {
        spot_probability_permille: 1000,
        ..e1_config()
    };
    let always_blank = VerifierConfig {
        spot_probability_permille: 0,
        ..e1_config()
    };
    let mut spot_driver = Verifier::new(coloration.clone(), always_spot);
    let mut blank_driver = Verifier::new(coloration.clone(), always_blank);
    let commitments = prover.commit(&ProverConfig::default());
    spot_driver.receive_commitments(commitments);
    blank_driver.receive_commitments(commitments);

    let spot_ch = match spot_driver.generate_challenge(0) {
        Challenge::Spot(ch) => ch,
        Challenge::Blank(_) => panic!("an always-spot coin must pick spot"),
    };
    let blank_ch = match blank_driver.generate_challenge(0) {
        Challenge::Blank(ch) => ch,
        Challenge::Spot(_) => panic!("a never-spot coin must pick blank"),
    };
    let blank_resp = prover.respond_to_blank_challenge(&blank_ch);

    let crossed = ProofTranscript {
        commitments,
        rounds: vec![TranscriptRound {
            challenge: Challenge::Spot(spot_ch),
            response: TranscriptResponse::Blank(blank_resp),
        }],
    };
    let replayed = replay_transcript_with_config(coloration, &crossed, &e1_config());
    assert_eq!(replayed, Err(TranscriptError::KindMismatch(0)));
}
