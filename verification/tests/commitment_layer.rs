use sha3::Digest;
use zkp_c_coloring::hash::{default_quantum_hash, hash_chain, Blake3QuantumHash, QuantumHash, Sha3QuantumHash};
use zkp_c_coloring::merkle::{ChunkedMerkleTree, GraphMerkleTree, MerkleTree};
use zkp_c_coloring::graph::{Color, Graph};
use zkp_c_coloring::wire::{be_u64_prefix, push_u32_be, push_u64_be};

fn sample_leaves(count: usize) -> Vec<Vec<u8>> {
    let mut leaves = Vec::new();
    for i in 0..count {
        let mut leaf = Vec::new();
        push_u64_be(&mut leaf, i as u64);
        leaf.push((i % 251) as u8);
        leaves.push(leaf);
    }
    leaves
}

#[test]
fn chunked_openings_verify_at_every_index() {
    let hasher = default_quantum_hash();
    let leaves = sample_leaves(70);
    let tree = ChunkedMerkleTree::new(&leaves, &hasher, 16);
    let root = tree.root();
    assert_eq!(tree.leaves(), 70);
    for i in 0..70 {
        let proof = tree.get_proof(i).expect("opening exists for committed leaf");
        assert!(proof.verify(&root, &hasher), "opening {} must verify", i);
    }
    assert!(tree.get_proof(70).is_none());
}

#[test]
fn corrupted_opening_fails_verification() {
    let hasher = default_quantum_hash();
    let leaves = sample_leaves(40);
    let tree = ChunkedMerkleTree::new(&leaves, &hasher, 8);
    let root = tree.root();

    let mut tampered_leaf = tree.get_proof(11).unwrap();
    tampered_leaf.leaf_proof.leaf_hash[0] ^= 1;
    assert!(!tampered_leaf.verify(&root, &hasher));

    let mut tampered_path = tree.get_proof(11).unwrap();
    tampered_path.chunk_proof.leaf_hash[31] ^= 0x80;
    assert!(!tampered_path.verify(&root, &hasher));

    let mut wrong_root = root;
    wrong_root[5] ^= 4;
    let honest = tree.get_proof(11).unwrap();
    assert!(!honest.verify(&wrong_root, &hasher));

    let mut bad_chunk_index = tree.get_proof(11).unwrap();
    bad_chunk_index.chunk_index ^= 1;
    assert!(!bad_chunk_index.verify(&root, &hasher));

    let mut bad_offset = tree.get_proof(11).unwrap();
    bad_offset.leaf_index_within_chunk ^= 1;
    assert!(!bad_offset.verify(&root, &hasher));

    let mut bad_leaf_index = tree.get_proof(11).unwrap();
    bad_leaf_index.leaf_proof.leaf_index ^= 1;
    assert!(!bad_leaf_index.verify(&root, &hasher));

    let mut bad_top_index = tree.get_proof(11).unwrap();
    bad_top_index.chunk_proof.leaf_index ^= 1;
    assert!(!bad_top_index.verify(&root, &hasher));
}

#[test]
fn empty_input_builds_one_leaf_tree_rooted_at_hash_of_nothing() {
    let hasher = default_quantum_hash();
    let leaves: Vec<Vec<u8>> = Vec::new();
    let tree = ChunkedMerkleTree::new(&leaves, &hasher, 1024);
    assert_eq!(tree.leaves(), 0);
    let expected: [u8; 32] = *blake3::hash(&[]).as_bytes();
    assert_eq!(tree.root(), expected);
    assert!(tree.get_proof(0).is_none());
}

#[test]
fn plain_tree_single_leaf_root_is_leaf_hash() {
    let hasher = default_quantum_hash();
    let data = vec![vec![7u8, 7, 7]];
    let tree = MerkleTree::new(&data, &hasher);
    assert_eq!(tree.leaf_count(), 1);
    let expected: [u8; 32] = *blake3::hash(&[7u8, 7, 7]).as_bytes();
    assert_eq!(tree.root(), expected);
    let proof = tree.get_proof(0).unwrap();
    assert!(proof.verify(&tree.root(), &hasher));
}

#[test]
fn blake3_oracle_matches_reference_digest() {
    let hasher = default_quantum_hash();
    let digest = hasher.hash(b"triadic commitments");
    let expected: [u8; 32] = *blake3::hash(b"triadic commitments").as_bytes();
    assert_eq!(digest, expected);
    assert_ne!(digest, [0u8; 32]);
}

#[test]
fn sha3_oracle_matches_reference_digest() {
    let hasher = Sha3QuantumHash;
    let digest = hasher.hash(b"fallback oracle");
    let full = sha3::Sha3_512::digest(b"fallback oracle");
    assert_eq!(&digest[..], &full[..32]);
}

#[test]
fn hash_with_salt_prepends_salt() {
    let hasher = Blake3QuantumHash;
    let salted = hasher.hash_with_salt(b"data", b"salt");
    let joined = hasher.hash(b"saltdata");
    assert_eq!(salted, joined);
}

#[test]
fn hash_chain_is_deterministic_and_moves() {
    let hasher = default_quantum_hash();
    let a = hash_chain(&hasher, b"seed", 5);
    let b = hash_chain(&hasher, b"seed", 5);
    let c = hash_chain(&hasher, b"seed", 6);
    assert_eq!(a, b);
    assert_ne!(a, c);
    assert_eq!(hash_chain(&hasher, b"seed", 0), hasher.hash(b"seed"));
}

#[test]
fn graph_tree_opens_each_edge() {
    let hasher = default_quantum_hash();
    let mut graph = Graph::new(4);
    for i in 0..4 {
        for j in 0..4 {
            let color = match (i + j) % 4 {
                0 => Color::Red,
                1 => Color::Green,
                2 => Color::Yellow,
                _ => Color::Blank,
            };
            graph.overwrite_edge(i, j, color);
        }
    }
    let tree = GraphMerkleTree::from_graph(&graph, &hasher);
    let root = tree.root();
    for i in 0..4 {
        for j in 0..4 {
            let proof = tree.get_edge_proof(i, j).expect("edge in range");
            assert!(proof.verify(&root, &hasher));
        }
    }
    assert!(tree.get_edge_proof(4, 0).is_none());
}

#[test]
fn big_endian_encodings_are_exact() {
    let mut out = Vec::new();
    push_u32_be(&mut out, 0x01020304);
    assert_eq!(out, vec![1u8, 2, 3, 4]);
    let mut out64 = Vec::new();
    push_u64_be(&mut out64, 0x0102030405060708);
    assert_eq!(out64, vec![1u8, 2, 3, 4, 5, 6, 7, 8]);
    let mut buf = [0u8; 32];
    buf[..8].copy_from_slice(&[0, 0, 0, 0, 0, 0, 1, 2]);
    assert_eq!(be_u64_prefix(&buf), 258);
}
