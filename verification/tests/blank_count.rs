use zkp_c_coloring::blank_proof::{generate_blank_count_proof, StarkParameters};
use zkp_c_coloring::constraints::{BlankCountConstraints, ConstraintViolation};
use zkp_c_coloring::hash::default_quantum_hash;
use zkp_c_coloring::polynomial::BlankPolynomial;

fn binary_vector(len: usize, ones_stride: usize) -> Vec<u8> {
    let mut v = Vec::new();
    for i in 0..len {
        if ones_stride > 0 && i % ones_stride == 0 {
            v.push(1);
        } else {
            v.push(0);
        }
    }
    v
}

#[test]
fn trace_proof_round_trip_accepts_true_sum() {
    let hasher = default_quantum_hash();
    let values = binary_vector(100, 3);
    let total: u64 = values.iter().map(|&b| b as u64).sum();
    let polynomial = BlankPolynomial::new(values);
    assert_eq!(polynomial.sum(), total);

    let params = StarkParameters::default();
    let constraints = BlankCountConstraints::new(10, total);
    let proof = generate_blank_count_proof(&polynomial, &constraints, &params, &hasher);
    assert_eq!(proof.total_sum, total);
    assert_eq!(proof.trace_length, 100);
    assert!(proof.verify(&constraints, &hasher));
}

#[test]
fn trace_proof_rejects_wrong_declared_sum() {
    let hasher = default_quantum_hash();
    let values = binary_vector(64, 4);
    let total: u64 = values.iter().map(|&b| b as u64).sum();
    let polynomial = BlankPolynomial::new(values);

    let params = StarkParameters::default();
    let honest = BlankCountConstraints::new(8, total);
    let proof = generate_blank_count_proof(&polynomial, &honest, &params, &hasher);

    let wrong = BlankCountConstraints::new(8, total + 1);
    assert!(!proof.verify(&wrong, &hasher));
    let wrong_low = BlankCountConstraints::new(8, total.wrapping_sub(1));
    assert!(!proof.verify(&wrong_low, &hasher));
}

#[test]
fn all_zero_and_all_one_vectors_prove() {
    let hasher = default_quantum_hash();
    let params = StarkParameters::default();

    let zeros = vec![0u8; 49];
    let poly_zero = BlankPolynomial::new(zeros);
    let c_zero = BlankCountConstraints::new(7, 0);
    let proof_zero = generate_blank_count_proof(&poly_zero, &c_zero, &params, &hasher);
    assert!(proof_zero.verify(&c_zero, &hasher));

    let ones = vec![1u8; 49];
    let poly_one = BlankPolynomial::new(ones);
    let c_one = BlankCountConstraints::new(7, 49);
    let proof_one = generate_blank_count_proof(&poly_one, &c_one, &params, &hasher);
    assert!(proof_one.verify(&c_one, &hasher));
}

#[test]
fn tampered_final_running_sum_rejects() {
    let hasher = default_quantum_hash();
    let values = binary_vector(36, 2);
    let total: u64 = values.iter().map(|&b| b as u64).sum();
    assert!(total >= 1);
    let polynomial = BlankPolynomial::new(values);
    let params = StarkParameters::default();
    let constraints = BlankCountConstraints::new(6, total);
    let mut proof = generate_blank_count_proof(&polynomial, &constraints, &params, &hasher);
    proof.final_row.running_sum = proof.total_sum - 1;
    assert!(!proof.verify(&constraints, &hasher));
}

#[test]
fn tampered_row_fields_reject() {
    let hasher = default_quantum_hash();
    let values = binary_vector(36, 2);
    let total: u64 = values.iter().map(|&b| b as u64).sum();
    let polynomial = BlankPolynomial::new(values);
    let params = StarkParameters::default();
    let constraints = BlankCountConstraints::new(6, total);

    let mut flipped_final = generate_blank_count_proof(&polynomial, &constraints, &params, &hasher);
    flipped_final.final_row.value ^= 1;
    assert!(
        !flipped_final.verify(&constraints, &hasher),
        "a final row whose fields no longer match its committed leaf must be rejected"
    );

    let mut flipped_query = generate_blank_count_proof(&polynomial, &constraints, &params, &hasher);
    flipped_query.queries[0].current.running_sum ^= 1;
    assert!(
        !flipped_query.verify(&constraints, &hasher),
        "a query row whose fields no longer match its committed leaf must be rejected"
    );
}

#[test]
fn tampered_layer_roots_reject() {
    let hasher = default_quantum_hash();
    let values = binary_vector(25, 5);
    let total: u64 = values.iter().map(|&b| b as u64).sum();
    let polynomial = BlankPolynomial::new(values);
    let params = StarkParameters::default();
    let constraints = BlankCountConstraints::new(5, total);
    let mut proof = generate_blank_count_proof(&polynomial, &constraints, &params, &hasher);
    assert!(!proof.fri_proof.layer_roots.is_empty());
    proof.fri_proof.layer_roots[0][0] ^= 1;
    assert!(!proof.verify(&constraints, &hasher));
}

#[test]
fn constraint_check_reports_each_violation() {
    let good = BlankPolynomial::new(vec![0, 1, 1, 0]);
    let constraints = BlankCountConstraints::new(2, 2);
    assert!(constraints.check(&good).is_ok());

    let bad_value = BlankPolynomial::new(vec![0, 3, 1]);
    match constraints.check(&bad_value) {
        Err(ConstraintViolation::NonBinaryValue(idx, value)) => {
            assert_eq!(idx, 1);
            assert_eq!(value, 3);
        }
        other => panic!("expected a non-binary report, got {:?}", other),
    }

    let bad_sum = BlankPolynomial::new(vec![1, 0, 0, 0]);
    match constraints.check(&bad_sum) {
        Err(ConstraintViolation::InvalidSum { expected, actual }) => {
            assert_eq!(expected, 2);
            assert_eq!(actual, 1);
        }
        other => panic!("expected a sum mismatch, got {:?}", other),
    }
}

#[test]
fn polynomial_accessors_report_prefix_sums() {
    let poly = BlankPolynomial::new(vec![1, 0, 1, 1]);
    assert_eq!(poly.len(), 4);
    assert_eq!(poly.evaluate(0), 1);
    assert_eq!(poly.evaluate(1), 0);
    assert_eq!(poly.evaluate(9), 0);
    assert_eq!(poly.running_sum(0), 1);
    assert_eq!(poly.running_sum(2), 2);
    assert_eq!(poly.running_sum(3), 3);
    assert_eq!(poly.sum(), 3);
    assert_eq!(poly.values(), &[1, 0, 1, 1]);

    let hasher = default_quantum_hash();
    let commitment = poly.commit(&hasher);
    let expected: [u8; 32] = *blake3::hash(&[1, 0, 1, 1]).as_bytes();
    assert_eq!(commitment.root, expected);
}
