//! The succinct blank-count argument: the running-sum trace is committed
//! with a chunked tree, layer roots and query positions are derived
//! deterministically from the trace root, and each query opens a row (and
//! its predecessor) whose binarity and running-sum recurrence the verifier
//! checks, with the final row anchoring the declared total.
//!
//! `generate_blank_count_proof` ensures the proof it builds satisfies
//! `blank_proof_valid` for the vector's true sum, and `verify` returns
//! exactly that predicate: together they state that an honest proof for a
//! binary vector is accepted, and `lemma_total_sum_binds` states that any
//! other declared total is rejected.

use vstd::prelude::*;

use crate::constraints::{all_binary, BlankCountConstraints, ConstraintViolation};
use crate::fri::{derive_fri_layers, fri_layers_spec, sample_fri_queries, FriProof};
use crate::hash::QuantumHash;
use crate::merkle::{chunked_proof_valid, ChunkedMerkleProof, ChunkedMerkleTree};
use crate::polynomial::{byte_sum, BlankPolynomial};
use crate::wire::{push_u64_be, u64_be_bytes};

verus! {

/// Tuning knobs of the argument: an informational security level, the query
/// count, and the chunk size of the trace commitment.
#[derive(Debug, Clone, Copy)]
pub struct StarkParameters {
    pub security_level: u32,
    pub num_queries: u32,
    pub chunk_size: usize,
}

impl Default for StarkParameters {
    /// The default parameters: security level 128, 32 queries, chunks of
    /// 1024 rows.
    fn default() -> (r: StarkParameters)
        ensures
            r.security_level == 128,
            r.num_queries == 32,
            r.chunk_size == 1024,
    {
        StarkParameters { security_level: 128, num_queries: 32, chunk_size: 1024 }
    }
}

/// The 17-byte serialization of one trace row.
pub open spec fn trace_row_bytes(index: u64, value: u8, running_sum: u64) -> Seq<u8> {
    u64_be_bytes(index) + seq![value] + u64_be_bytes(running_sum)
}

/// An opened trace row: its claimed contents and its Merkle opening.
#[derive(Debug)]
pub struct TraceRowOpening {
    pub index: u64,
    pub value: u8,
    pub running_sum: u64,
    pub proof: ChunkedMerkleProof,
}

impl Clone for TraceRowOpening {
    /// Copies the opened row.
    fn clone(&self) -> (res: Self)
    {
        TraceRowOpening {
            index: self.index,
            value: self.value,
            running_sum: self.running_sum,
            proof: self.proof.clone(),
        }
    }
}

impl TraceRowOpening {
    /// Whether the row's opening verifies against the trace root with its
    /// claimed fields bound to the committed leaf: the leaf hash must be the
    /// hash of the claimed row's 17-byte serialization, and the path must
    /// verify.
    pub fn verify<H: QuantumHash>(&self, root: &[u8; 32], hasher: &H) -> (r: bool)
        ensures
            r == trace_row_bound(*hasher, *self, *root),
    {
        let mut bytes: Vec<u8> = Vec::new();
        push_u64_be(&mut bytes, self.index);
        bytes.push(self.value);
        push_u64_be(&mut bytes, self.running_sum);
        proof {
            assert(bytes@ =~= trace_row_bytes(self.index, self.value, self.running_sum));
        }
        let expected = hasher.hash(bytes.as_slice());
        if !crate::wire::bytes32_eq(&self.proof.leaf_proof.leaf_hash, &expected) {
            return false;
        }
        self.proof.verify(root, hasher)
    }
}

/// An opened row is bound: its leaf hash is the hash of the serialized
/// claimed fields, and its opening verifies against the root.
pub open spec fn trace_row_bound<H: QuantumHash>(h: H, o: TraceRowOpening, root: [u8; 32]) -> bool {
    &&& o.proof.leaf_proof.leaf_hash == h.hash_spec(
        trace_row_bytes(o.index, o.value, o.running_sum),
    )
    &&& chunked_proof_valid(h, o.proof, root)
}

/// One query: the sampled position, the row there, and its predecessor when
/// the position is positive.
#[derive(Debug)]
pub struct BlankQuery {
    pub position: u64,
    pub current: TraceRowOpening,
    pub previous: Option<TraceRowOpening>,
}

impl Clone for BlankQuery {
    /// Copies the query.
    fn clone(&self) -> (res: Self)
    {
        let previous = match &self.previous {
            Some(prev) => Some(prev.clone()),
            None => None,
        };
        BlankQuery { position: self.position, current: self.current.clone(), previous }
    }
}

/// The blank-count proof: the trace root, the derived layer roots and query
/// positions, the opened queries, the final row, and the declared total.
#[derive(Debug)]
pub struct BlankCountProof {
    pub trace_root: [u8; 32],
    pub fri_proof: FriProof,
    pub queries: Vec<BlankQuery>,
    pub final_row: TraceRowOpening,
    pub total_sum: u64,
    pub trace_length: u64,
}

impl Clone for BlankCountProof {
    /// Copies the proof.
    fn clone(&self) -> (res: Self)
    {
        let mut queries: Vec<BlankQuery> = Vec::new();
        let len = self.queries.len();
        for i in 0..len
            invariant
                len == self.queries@.len(),
        {
            queries.push(self.queries[i].clone());
        }
        BlankCountProof {
            trace_root: self.trace_root,
            fri_proof: self.fri_proof.clone(),
            queries,
            final_row: self.final_row.clone(),
            total_sum: self.total_sum,
            trace_length: self.trace_length,
        }
    }
}

/// What the verifier demands of one query: the recorded position matches and
/// is in range, the row's opening verifies, its value is binary, and the
/// running-sum recurrence holds against the predecessor (or the row is the
/// first and carries its own value).
pub open spec fn blank_query_ok<H: QuantumHash>(
    h: H,
    q: BlankQuery,
    position: u64,
    root: [u8; 32],
    len: u64,
) -> bool {
    &&& q.position == position
    &&& position < len
    &&& trace_row_bound(h, q.current, root)
    &&& q.current.value <= 1
    &&& match q.previous {
        Some(prev) => {
            &&& prev.index + 1 == q.current.index
            &&& trace_row_bound(h, prev, root)
            &&& q.current.running_sum == prev.running_sum + q.current.value
        },
        None => q.current.index == 0 && q.current.running_sum == q.current.value,
    }
}

/// What it means for a blank-count proof to verify against a declared total:
/// the totals agree, the layer roots are the ones the trace root determines,
/// every query is in order, and the final row closes the sum.
pub open spec fn blank_proof_valid<H: QuantumHash>(
    h: H,
    p: BlankCountProof,
    expected_sum: u64,
) -> bool {
    &&& p.total_sum == expected_sum
    &&& p.trace_length < 0x100000000
    &&& p.fri_proof.layer_roots@ == fri_layers_spec(h, p.trace_length as nat, p.trace_root)
    &&& p.fri_proof.query_positions@.len() == p.queries@.len()
    &&& forall|i: int|
        0 <= i < p.queries@.len() ==> blank_query_ok(
            h,
            #[trigger] p.queries@[i],
            p.fri_proof.query_positions@[i],
            p.trace_root,
            p.trace_length,
        )
    &&& p.final_row.index + 1 == p.trace_length
    &&& trace_row_bound(h, p.final_row, p.trace_root)
    &&& p.final_row.running_sum == p.total_sum
}

/// A proof whose recorded total differs from the declared one never
/// verifies.
pub proof fn lemma_total_sum_binds<H: QuantumHash>(h: H, p: BlankCountProof, declared: u64)
    requires
        p.total_sum != declared,
    ensures
        !blank_proof_valid(h, p, declared),
{
}

impl BlankCountProof {
    /// Checks the proof against a declared total: recomputes the layer roots,
    /// verifies every query opening — its claimed row bound to the committed
    /// leaf — with its binarity and running-sum conditions, and checks the
    /// final row. Returns exactly `blank_proof_valid` for the declared total.
    pub fn verify<H: QuantumHash>(&self, constraints: &BlankCountConstraints, hasher: &H) -> (r:
        bool)
        ensures
            r == blank_proof_valid(*hasher, *self, constraints.expected_sum),
    {
        if self.total_sum != constraints.expected_sum {
            return false;
        }
        if self.trace_length >= 0x100000000 {
            return false;
        }

        let expected_layers = derive_fri_layers(
            self.trace_length as usize,
            &self.trace_root,
            hasher,
        );
        if expected_layers.len() != self.fri_proof.layer_roots.len() {
            return false;
        }
        let nlayers = expected_layers.len();
        for i in 0..nlayers
            invariant
                nlayers == expected_layers@.len(),
                nlayers == self.fri_proof.layer_roots@.len(),
                expected_layers@ == fri_layers_spec(
                    *hasher,
                    self.trace_length as nat,
                    self.trace_root,
                ),
                forall|j: int| 0 <= j < i ==> expected_layers@[j] == self.fri_proof.layer_roots@[j],
        {
            if !crate::wire::bytes32_eq(&expected_layers[i], &self.fri_proof.layer_roots[i]) {
                proof {
                    assert(expected_layers@ != self.fri_proof.layer_roots@);
                }
                return false;
            }
        }
        proof {
            assert(expected_layers@ =~= self.fri_proof.layer_roots@);
        }

        if self.fri_proof.query_positions.len() != self.queries.len() {
            return false;
        }

        let nq = self.queries.len();
        for i in 0..nq
            invariant
                nq == self.queries@.len(),
                nq == self.fri_proof.query_positions@.len(),
                forall|j: int|
                    0 <= j < i ==> blank_query_ok(
                        *hasher,
                        #[trigger] self.queries@[j],
                        self.fri_proof.query_positions@[j],
                        self.trace_root,
                        self.trace_length,
                    ),
        {
            let position = self.fri_proof.query_positions[i];
            let query = &self.queries[i];
            if query.position != position || position >= self.trace_length {
                return false;
            }
            if !query.current.verify(&self.trace_root, hasher) {
                return false;
            }
            if query.current.value > 1 {
                return false;
            }
            match &query.previous {
                Some(prev) => {
                    if query.current.index == 0 || prev.index != query.current.index - 1 {
                        return false;
                    }
                    if !prev.verify(&self.trace_root, hasher) {
                        return false;
                    }
                    let step_ok = if query.current.value == 0 {
                        query.current.running_sum == prev.running_sum
                    } else {
                        prev.running_sum < u64::MAX && query.current.running_sum
                            == prev.running_sum + 1
                    };
                    if !step_ok {
                        return false;
                    }
                },
                None => {
                    if query.current.index != 0 || query.current.running_sum
                        != query.current.value as u64 {
                        return false;
                    }
                },
            }
        }

        if self.final_row.index >= u64::MAX || self.final_row.index + 1 != self.trace_length {
            return false;
        }
        if !self.final_row.verify(&self.trace_root, hasher) {
            return false;
        }
        if self.final_row.running_sum != self.total_sum {
            return false;
        }

        true
    }
}

/// One materialized trace row.
struct TraceRow {
    index: u64,
    value: u8,
    running_sum: u64,
}

/// Materializes the running-sum trace of a vector.
fn build_trace_rows(polynomial: &BlankPolynomial) -> (rows: Vec<TraceRow>)
    requires
        polynomial.wf(),
        polynomial.spec_values().len() <= 0x100000000,
    ensures
        rows@.len() == polynomial.spec_values().len(),
        forall|i: int|
            0 <= i < rows@.len() ==> {
                &&& (#[trigger] rows@[i]).index == i
                &&& rows@[i].value == polynomial.spec_values()[i]
                &&& rows@[i].running_sum == byte_sum(polynomial.spec_values().take(i + 1))
            },
{
    let len = polynomial.len();
    let mut rows: Vec<TraceRow> = Vec::new();
    for idx in 0..len
        invariant
            polynomial.wf(),
            len == polynomial.spec_values().len(),
            len <= 0x100000000,
            rows@.len() == idx,
            forall|i: int|
                0 <= i < idx ==> {
                    &&& (#[trigger] rows@[i]).index == i
                    &&& rows@[i].value == polynomial.spec_values()[i]
                    &&& rows@[i].running_sum == byte_sum(polynomial.spec_values().take(i + 1))
                },
    {
        let value = polynomial.evaluate(idx);
        let running_sum = polynomial.running_sum(idx);
        rows.push(TraceRow { index: idx as u64, value, running_sum });
    }
    rows
}

/// Serializes one trace row to its 17-byte leaf.
fn serialize_trace_row(row: &TraceRow) -> (r: Vec<u8>)
    ensures
        r@ == trace_row_bytes(row.index, row.value, row.running_sum),
{
    let mut bytes: Vec<u8> = Vec::new();
    push_u64_be(&mut bytes, row.index);
    bytes.push(row.value);
    push_u64_be(&mut bytes, row.running_sum);
    proof {
        assert(bytes@ =~= trace_row_bytes(row.index, row.value, row.running_sum));
    }
    bytes
}

/// Opens the trace row at `index` out of the committed tree.
fn build_row_opening<H: QuantumHash>(
    index: usize,
    trace_rows: &Vec<TraceRow>,
    tree: &ChunkedMerkleTree<H>,
) -> (r: TraceRowOpening)
    requires
        tree.wf(),
        index < trace_rows@.len(),
        trace_rows@.len() == tree.spec_leaves().len(),
        forall|j: int|
            0 <= j < trace_rows@.len() ==> tree.spec_leaves()[j] == trace_row_bytes(
                (#[trigger] trace_rows@[j]).index,
                trace_rows@[j].value,
                trace_rows@[j].running_sum,
            ),
    ensures
        r.index == trace_rows@[index as int].index,
        r.value == trace_rows@[index as int].value,
        r.running_sum == trace_rows@[index as int].running_sum,
        trace_row_bound(tree.spec_hasher(), r, tree.spec_root()),
{
    let row = &trace_rows[index];
    let proof = match tree.get_proof(index) {
        Some(p) => p,
        None => vstd::pervasive::unreached(),
    };
    TraceRowOpening { index: row.index, value: row.value, running_sum: row.running_sum, proof }
}

/// Builds the query at `index`: the row there and, when the index is
/// positive, its predecessor.
fn build_query<H: QuantumHash>(
    index: usize,
    trace_rows: &Vec<TraceRow>,
    tree: &ChunkedMerkleTree<H>,
) -> (q: BlankQuery)
    requires
        tree.wf(),
        index < trace_rows@.len(),
        trace_rows@.len() == tree.spec_leaves().len(),
        forall|j: int|
            0 <= j < trace_rows@.len() ==> tree.spec_leaves()[j] == trace_row_bytes(
                (#[trigger] trace_rows@[j]).index,
                trace_rows@[j].value,
                trace_rows@[j].running_sum,
            ),
    ensures
        q.position == trace_rows@[index as int].index,
        q.current.index == trace_rows@[index as int].index,
        q.current.value == trace_rows@[index as int].value,
        q.current.running_sum == trace_rows@[index as int].running_sum,
        trace_row_bound(tree.spec_hasher(), q.current, tree.spec_root()),
        index > 0 ==> (q.previous matches Some(prev) && prev.index == trace_rows@[index
            - 1].index && prev.value == trace_rows@[index - 1].value && prev.running_sum
            == trace_rows@[index - 1].running_sum && trace_row_bound(
            tree.spec_hasher(),
            prev,
            tree.spec_root(),
        )),
        index == 0 ==> q.previous is None,
{
    let current = build_row_opening(index, trace_rows, tree);
    let previous = if index > 0 {
        Some(build_row_opening(index - 1, trace_rows, tree))
    } else {
        None
    };
    BlankQuery { position: current.index, current, previous }
}

/// The sum of a prefix grows by the entry it absorbs.
proof fn lemma_byte_sum_step(s: Seq<u8>, i: int)
    requires
        0 <= i < s.len(),
    ensures
        byte_sum(s.take(i + 1)) == byte_sum(s.take(i)) + s[i],
{
    assert(s.take(i + 1).drop_last() =~= s.take(i));
    assert(s.take(i + 1).last() == s[i]);
}

/// Commits the running-sum trace of a binary vector and answers the derived
/// queries. The proof it returns satisfies `blank_proof_valid` for the
/// vector's true sum, so `verify` accepts it whenever the declared total is
/// that sum.
pub fn generate_blank_count_proof<H: QuantumHash>(
    polynomial: &BlankPolynomial,
    constraints: &BlankCountConstraints,
    params: &StarkParameters,
    hasher: &H,
) -> (r: BlankCountProof)
    requires
        polynomial.wf(),
        1 <= polynomial.spec_values().len() < 0x100000000,
        all_binary(polynomial.spec_values()),
    ensures
        r.trace_length == polynomial.spec_values().len(),
        r.total_sum == byte_sum(polynomial.spec_values()),
        blank_proof_valid(*hasher, r, r.total_sum),
        r.fri_proof.query_positions@ == crate::fri::sample_queries_spec(
            *hasher,
            polynomial.spec_values().len(),
            (if params.num_queries >= 1 {
                params.num_queries
            } else {
                1u32
            }) as nat,
            r.trace_root,
        ),
        r.final_row.index == polynomial.spec_values().len() - 1,
        r.final_row.value == polynomial.spec_values().last(),
        r.final_row.running_sum == byte_sum(polynomial.spec_values()),
        forall|i: int|
            0 <= i < r.queries@.len() ==> {
                &&& (#[trigger] r.queries@[i]).current.index
                    == r.fri_proof.query_positions@[i]
                &&& r.queries@[i].current.value == polynomial.spec_values()[r.fri_proof.query_positions@[i] as int]
                &&& r.queries@[i].current.running_sum == byte_sum(
                    polynomial.spec_values().take(r.fri_proof.query_positions@[i] as int + 1),
                )
            },
{
    let check_outcome: Result<(), ConstraintViolation> = constraints.check(polynomial);
    proof {
        let _ = check_outcome;
    }

    let trace_rows = build_trace_rows(polynomial);
    let nrows = trace_rows.len();
    let mut serialized_rows: Vec<Vec<u8>> = Vec::new();
    for i in 0..nrows
        invariant
            nrows == trace_rows@.len(),
            serialized_rows@.len() == i,
            forall|j: int|
                0 <= j < i ==> (#[trigger] serialized_rows@[j])@ == trace_row_bytes(
                    trace_rows@[j].index,
                    trace_rows@[j].value,
                    trace_rows@[j].running_sum,
                ),
    {
        let leaf = serialize_trace_row(&trace_rows[i]);
        serialized_rows.push(leaf);
    }
    let trace_tree = ChunkedMerkleTree::new(serialized_rows.as_slice(), hasher, params.chunk_size);
    proof {
        assert forall|j: int|
            0 <= j < trace_rows@.len() implies trace_tree.spec_leaves()[j] == trace_row_bytes(
            (#[trigger] trace_rows@[j]).index,
            trace_rows@[j].value,
            trace_rows@[j].running_sum,
        ) by {
            assert(trace_tree.spec_leaves()[j] == serialized_rows@[j]@);
        }
    }
    let trace_root = trace_tree.root();
    let trace_length = nrows as u64;

    let layer_roots = derive_fri_layers(nrows, &trace_root, hasher);
    let num_queries = if params.num_queries >= 1 {
        params.num_queries
    } else {
        1
    };
    let query_positions = sample_fri_queries(nrows, &trace_root, num_queries as usize, hasher);

    let ghost gvalues = polynomial.spec_values();
    let mut queries: Vec<BlankQuery> = Vec::new();
    let npos = query_positions.len();
    for i in 0..npos
        invariant
            polynomial.wf(),
            gvalues == polynomial.spec_values(),
            1 <= gvalues.len() < 0x100000000,
            all_binary(gvalues),
            npos == query_positions@.len(),
            trace_tree.wf(),
            trace_tree.spec_hasher() == *hasher,
            trace_tree.spec_leaves().len() == trace_rows@.len(),
            forall|j: int|
                0 <= j < trace_rows@.len() ==> trace_tree.spec_leaves()[j] == trace_row_bytes(
                    (#[trigger] trace_rows@[j]).index,
                    trace_rows@[j].value,
                    trace_rows@[j].running_sum,
                ),
            trace_rows@.len() == gvalues.len(),
            nrows == trace_rows@.len(),
            trace_root == trace_tree.spec_root(),
            trace_length == nrows as u64,
            forall|p: int| 0 <= p < npos ==> query_positions@[p] < nrows,
            forall|i2: int|
                0 <= i2 < trace_rows@.len() ==> {
                    &&& (#[trigger] trace_rows@[i2]).index == i2
                    &&& trace_rows@[i2].value == gvalues[i2]
                    &&& trace_rows@[i2].running_sum == byte_sum(gvalues.take(i2 + 1))
                },
            queries@.len() == i,
            forall|j: int|
                0 <= j < i ==> blank_query_ok(
                    *hasher,
                    #[trigger] queries@[j],
                    query_positions@[j],
                    trace_root,
                    trace_length,
                ),
            forall|j: int|
                0 <= j < i ==> {
                    &&& (#[trigger] queries@[j]).current.index == query_positions@[j]
                    &&& queries@[j].current.value == gvalues[query_positions@[j] as int]
                    &&& queries@[j].current.running_sum == byte_sum(
                        gvalues.take(query_positions@[j] as int + 1),
                    )
                },
    {
        let pos = query_positions[i];
        let q = build_query(pos as usize, &trace_rows, &trace_tree);
        proof {
            let p = pos as int;
            if p > 0 {
                lemma_byte_sum_step(gvalues, p);
            } else {
                assert(gvalues.take(1).drop_last() =~= Seq::<u8>::empty());
                assert(gvalues.take(1).last() == gvalues[0]);
                assert(byte_sum(Seq::<u8>::empty()) == 0);
                assert(byte_sum(gvalues.take(1)) == gvalues[0]);
            }
            assert(blank_query_ok(*hasher, q, pos, trace_root, trace_length));
        }
        queries.push(q);
    }

    let final_row = build_row_opening(nrows - 1, &trace_rows, &trace_tree);
    let total_sum = polynomial.sum();

    let r = BlankCountProof {
        trace_root,
        fri_proof: FriProof { layer_roots, query_positions },
        queries,
        final_row,
        total_sum,
        trace_length,
    };
    proof {
        assert(gvalues.take(nrows as int) =~= gvalues);
        assert(r.final_row.running_sum == byte_sum(gvalues));
        assert(blank_proof_valid(*hasher, r, r.total_sum));
    }
    r
}

} // verus!
