//! Whole-protocol transcripts: running the prover and verifier locally over
//! a fixed number of rounds, and replaying a recorded transcript against a
//! fresh verifier.
//!
//! `construct_transcript_with_config` is the completeness statement of the
//! protocol in executable form: for an honestly generated instance it
//! returns a transcript without any failure path, because every round's
//! response is proved to be accepted.

use vstd::prelude::*;

use crate::coloring::{canon9, triad_matrix, ColorationSet};
use crate::graph::{blank_bits, Graph};
use crate::messages::{BlankChallengeResponse, Challenge, Commitments, SpotChallengeResponse};
use crate::polynomial::byte_sum;
use crate::prover::{ProverConfig, ProverState};
use crate::random_graph::InstanceParameters;
use crate::verification::{
    blank_response_accepted, lemma_honest_blank_response_accepted,
    lemma_honest_spot_response_accepted, spot_response_accepted, Verifier, VerifierConfig,
};

verus! {

/// A witness graph with its coloration set and optional generator report.
pub struct GraphInstance {
    pub graph: Graph,
    pub coloration: ColorationSet,
    pub metadata: Option<InstanceParameters>,
}

impl GraphInstance {
    /// Wraps a graph and its coloration set without metadata.
    pub fn new(graph: Graph, coloration: ColorationSet) -> (r: GraphInstance)
        ensures
            r.graph == graph,
            r.coloration == coloration,
            r.metadata is None,
    {
        GraphInstance { graph, coloration, metadata: None }
    }

    /// Wraps a graph and its coloration set with the generator's report.
    pub fn with_metadata(
        graph: Graph,
        coloration: ColorationSet,
        metadata: InstanceParameters,
    ) -> (r: GraphInstance)
        ensures
            r.graph == graph,
            r.coloration == coloration,
            r.metadata == Some(metadata),
    {
        GraphInstance { graph, coloration, metadata: Some(metadata) }
    }
}

/// A recorded response, tagged by its kind.
#[derive(Debug, Clone)]
pub enum TranscriptResponse {
    Spot(SpotChallengeResponse),
    Blank(BlankChallengeResponse),
}

/// One recorded round: the challenge and the response it drew.
#[derive(Debug, Clone)]
pub struct TranscriptRound {
    pub challenge: Challenge,
    pub response: TranscriptResponse,
}

/// A full recorded run: the commitments and the rounds in order.
#[derive(Debug, Clone)]
pub struct ProofTranscript {
    pub commitments: Commitments,
    pub rounds: Vec<TranscriptRound>,
}

/// Why a replayed transcript was rejected.
#[derive(Debug, Clone, Copy, PartialEq, Eq, Structural)]
pub enum TranscriptError {
    SpotRejected(u32),
    BlankRejected(u32),
    KindMismatch(u32),
}

/// The coloration set admits every triad of the graph, declares the graph's
/// size and its true blank count, and the graph is large enough for triads.
pub open spec fn honest_instance(graph: Graph, coloration: ColorationSet) -> bool {
    &&& graph.wf()
    &&& coloration.wf()
    &&& graph.n >= 3
    &&& coloration.spec_graph_size() == graph.n
    &&& coloration.spec_blank_limit() == byte_sum(blank_bits(graph))
    &&& forall|a: u32, b: u32, c: u32|
        a < b && b < c && c < graph.n ==> coloration.has_key(
            canon9(#[trigger] triad_matrix(graph, a, b, c)),
        )
}

/// Runs the full protocol locally over the configured rounds and records the
/// transcript. For an honest instance this cannot fail: every spot and blank
/// response is proved accepted before it is recorded, so the recorded
/// transcript replays against the recorded commitments, round for round.
pub fn construct_transcript_with_config(
    graph: Graph,
    coloration: ColorationSet,
    verifier_cfg: &VerifierConfig,
    prover_cfg: &ProverConfig,
) -> (r: ProofTranscript)
    requires
        honest_instance(graph, coloration),
    ensures
        r.rounds@.len() == verifier_cfg.rounds,
        forall|k: int|
            0 <= k < r.rounds@.len() ==> round_replays(
                coloration,
                r.commitments,
                #[trigger] r.rounds@[k],
            ),
{
    let ghost g = graph;
    let ghost cs0 = coloration;
    let n = graph.n;
    let verifier_coloration = coloration.clone();
    let mut prover = ProverState::new(graph, coloration);
    let mut checker = Verifier::new(verifier_coloration, *verifier_cfg);

    let commitments = prover.commit(prover_cfg);
    checker.receive_commitments(commitments);

    let ghost gp = prover.spec_permuted();
    let ghost perm = prover.spec_permutation();
    let ghost cm = prover.spec_commitments();
    let ghost cs_v = checker.spec_coloration();

    proof {
        assert(cs_v.spec_keys() == cs0.spec_keys());
        assert(forall|k: Seq<u8>| cs_v.has_key(k) == cs0.has_key(k));
    }

    let mut records: Vec<TranscriptRound> = Vec::new();
    let rounds = verifier_cfg.rounds;
    for round_idx in 0..rounds
        invariant
            honest_instance(g, cs0),
            n == g.n,
            prover.committed(),
            prover.spec_original() == g,
            prover.spec_coloration() == cs0,
            prover.spec_permuted() == gp,
            prover.spec_permutation() == perm,
            prover.spec_commitments() == cm,
            gp.wf(),
            gp.n == n,
            crate::permutation::is_permutation(perm, n as nat),
            forall|i: int, j: int|
                0 <= i < gp.n && 0 <= j < gp.n ==> gp.color_at(i, j) == g.color_at(
                    perm[i] as int,
                    perm[j] as int,
                ),
            cm.blank_count == cs0.spec_blank_limit(),
            checker.wf(),
            checker.has_commitments(),
            checker.spec_commitments() == cm,
            checker.spec_coloration() == cs_v,
            checker.spec_config() == *verifier_cfg,
            cs_v.wf(),
            cs_v.spec_graph_size() == n,
            cs_v.spec_blank_limit() == cs0.spec_blank_limit(),
            forall|k: Seq<u8>| #[trigger] cs_v.has_key(k) == cs0.has_key(k),
            records@.len() == round_idx,
            forall|q: int|
                0 <= q < records@.len() ==> round_replays(cs0, cm, #[trigger] records@[q]),
    {
        let challenge = checker.generate_challenge(round_idx);
        match challenge {
            Challenge::Spot(ch) => {
                proof {
                    assert(crate::verification::spot_domain(cs_v.spec_graph_size()) == n);
                    assert forall|a: u32, b: u32, c: u32|
                        a < b && b < c && c < g.n implies cs_v.has_key(
                        canon9(#[trigger] triad_matrix(g, a, b, c)),
                    ) by {
                        assert(cs0.has_key(canon9(triad_matrix(g, a, b, c))));
                    }
                }
                let response = prover.respond_to_spot_challenge(&ch);
                let accepted = checker.verify_spot_response(&ch, &response);
                proof {
                    lemma_honest_spot_response_accepted(cs_v, cm, g, gp, perm, ch, response);
                    assert(spot_response_accepted(cs0, cm, ch, response)) by {
                        assert forall|k2: int|
                            0 <= k2 < response.responses@.len() implies
                            crate::verification::spot_entry_accepted(
                            cs0,
                            cm,
                            ch.spots@[k2],
                            #[trigger] response.responses@[k2],
                        ) by {
                            assert(crate::verification::spot_entry_accepted(
                                cs_v,
                                cm,
                                ch.spots@[k2],
                                response.responses@[k2],
                            ));
                            let key = canon9(
                                crate::verification::entries_matrix(
                                    response.responses@[k2].nodes,
                                    crate::verification::response_entries(
                                        response.responses@[k2],
                                    ),
                                ),
                            );
                            assert(cs_v.has_key(key) == cs0.has_key(key));
                        }
                    }
                }
                assert(accepted);
                records.push(
                    TranscriptRound {
                        challenge: Challenge::Spot(ch),
                        response: TranscriptResponse::Spot(response),
                    },
                );
                proof {
                    assert(round_replays(cs0, cm, records@[records@.len() - 1]));
                }
            },
            Challenge::Blank(ch) => {
                proof {
                    assert(crate::verification::blank_domain(cs_v.spec_graph_size()) == n as u64);
                }
                let response = prover.respond_to_blank_challenge(&ch);
                let accepted = checker.verify_blank_response(&ch, &response);
                proof {
                    lemma_honest_blank_response_accepted(cs_v, cm, g, gp, perm, ch, response);
                    assert(blank_response_accepted(cs0, cm, ch, response)) by {
                        assert(cs_v.spec_graph_size() == cs0.spec_graph_size());
                        assert forall|k2: int|
                            0 <= k2 < ch.edge_indices@.len() implies {
                            let found = crate::verification::find_opening(
                                response.edges@,
                                #[trigger] ch.edge_indices@[k2],
                            );
                            found is Some && crate::verification::blank_opening_verified(
                                cs0,
                                cm,
                                found.unwrap(),
                            )
                        } by {
                            let found = crate::verification::find_opening(
                                response.edges@,
                                ch.edge_indices@[k2],
                            );
                            assert(found is Some
                                && crate::verification::blank_opening_verified(
                                cs_v,
                                cm,
                                found.unwrap(),
                            ));
                        }
                    }
                }
                assert(accepted);
                records.push(
                    TranscriptRound {
                        challenge: Challenge::Blank(ch),
                        response: TranscriptResponse::Blank(response),
                    },
                );
                proof {
                    assert(round_replays(cs0, cm, records@[records@.len() - 1]));
                }
            },
        }
    }

    ProofTranscript { commitments, rounds: records }
}

/// Whether one recorded round replays successfully against a verifier state.
pub open spec fn round_replays(
    cs: ColorationSet,
    cm: Commitments,
    round: TranscriptRound,
) -> bool {
    match (round.challenge, round.response) {
        (Challenge::Spot(ch), TranscriptResponse::Spot(resp)) => spot_response_accepted(
            cs,
            cm,
            ch,
            resp,
        ),
        (Challenge::Blank(ch), TranscriptResponse::Blank(resp)) => blank_response_accepted(
            cs,
            cm,
            ch,
            resp,
        ),
        _ => false,
    }
}

/// Replays a recorded transcript against a fresh verifier holding the
/// coloration set: succeeds exactly when every round's response is accepted
/// against the recorded commitments, with matching challenge and response
/// kinds.
pub fn replay_transcript_with_config(
    coloration: ColorationSet,
    transcript: &ProofTranscript,
    verifier_cfg: &VerifierConfig,
) -> (r: Result<(), TranscriptError>)
    requires
        coloration.wf(),
    ensures
        r is Ok <==> forall|k: int|
            0 <= k < transcript.rounds@.len() ==> round_replays(
                coloration,
                transcript.commitments,
                #[trigger] transcript.rounds@[k],
            ),
{
    let ghost cs0 = coloration;
    let mut checker = Verifier::new(coloration, *verifier_cfg);
    checker.receive_commitments(transcript.commitments);
    proof {
        assert(forall|k: Seq<u8>| checker.spec_coloration().has_key(k) == cs0.has_key(k));
    }

    let nrounds = transcript.rounds.len();
    let mut idx: usize = 0;
    while idx < nrounds
        invariant
            cs0 == coloration,
            idx <= nrounds,
            nrounds == transcript.rounds@.len(),
            checker.wf(),
            checker.has_commitments(),
            checker.spec_commitments() == transcript.commitments,
            checker.spec_coloration() == cs0,
            forall|k: int|
                0 <= k < idx ==> round_replays(
                    cs0,
                    transcript.commitments,
                    #[trigger] transcript.rounds@[k],
                ),
        decreases nrounds - idx,
    {
        let round = &transcript.rounds[idx];
        proof {
            assert(*round == transcript.rounds@[idx as int]);
        }
        match (&round.challenge, &round.response) {
            (Challenge::Spot(ch), TranscriptResponse::Spot(resp)) => {
                if !checker.verify_spot_response(ch, resp) {
                    proof {
                        assert(round.challenge == Challenge::Spot(*ch));
                        assert(round.response == TranscriptResponse::Spot(*resp));
                        assert(!round_replays(
                            cs0,
                            transcript.commitments,
                            transcript.rounds@[idx as int],
                        ));
                    }
                    return Err(TranscriptError::SpotRejected(idx as u32));
                }
            },
            (Challenge::Blank(ch), TranscriptResponse::Blank(resp)) => {
                if !checker.verify_blank_response(ch, resp) {
                    proof {
                        assert(round.challenge == Challenge::Blank(*ch));
                        assert(round.response == TranscriptResponse::Blank(*resp));
                        assert(!round_replays(
                            cs0,
                            transcript.commitments,
                            transcript.rounds@[idx as int],
                        ));
                    }
                    return Err(TranscriptError::BlankRejected(idx as u32));
                }
            },
            _ => {
                proof {
                    assert(!round_replays(
                        cs0,
                        transcript.commitments,
                        transcript.rounds@[idx as int],
                    ));
                }
                return Err(TranscriptError::KindMismatch(idx as u32));
            },
        }
        idx = idx + 1;
    }
    Ok(())
}

} // verus!
