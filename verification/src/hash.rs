//! The hash oracle: a 32-byte domain-separated hash behind a small interface,
//! with a fast default (BLAKE3) and a wide-digest fallback (SHA3-512
//! truncated to 32 bytes), plus salt and chain helpers.

use vstd::prelude::*;

use crate::wire::u64_be_bytes;

verus! {

/// The BLAKE3 digest of `data`. The digest is a function of the input bytes
/// alone, so it may be given a name.
pub uninterp spec fn blake3_of(data: Seq<u8>) -> [u8; 32];

/// The first 32 bytes of the SHA3-512 digest of `data`. The digest is a
/// function of the input bytes alone, so it may be given a name.
pub uninterp spec fn sha3_512_trunc_of(data: Seq<u8>) -> [u8; 32];

/// Relies on blake3::Hasher (new / update / finalize): a 32-byte digest that
/// depends on the input bytes alone.
#[verifier::external_body]
fn blake3_digest(data: &[u8]) -> (r: [u8; 32])
    ensures
        r == blake3_of(data@),
{
    let mut hasher = blake3::Hasher::new();
    hasher.update(data);
    hasher.finalize().into()
}

/// Relies on sha3::Sha3_512 through digest::Digest (new / update / finalize):
/// a 64-byte digest that depends on the input bytes alone; the first 32 bytes
/// are kept.
#[verifier::external_body]
fn sha3_512_digest_trunc(data: &[u8]) -> (r: [u8; 32])
    ensures
        r == sha3_512_trunc_of(data@),
{
    let mut hasher = <sha3::Sha3_512 as sha3::Digest>::new();
    sha3::Digest::update(&mut hasher, data);
    let result = sha3::Digest::finalize(hasher);
    result[..32].try_into().expect("sha3 output length")
}

/// A collision-resistant hash with a 32-byte output. `hash_spec` names, per
/// implementation, the digest that `hash` computes.
pub trait QuantumHash: Sized {
    /// The digest this oracle assigns to `data`.
    spec fn hash_spec(&self, data: Seq<u8>) -> [u8; 32];

    /// Hashes `data` to 32 bytes.
    fn hash(&self, data: &[u8]) -> (r: [u8; 32])
        ensures
            r == self.hash_spec(data@),
    ;

    /// Hashes `salt` followed by `data`.
    fn hash_with_salt(&self, data: &[u8], salt: &[u8]) -> (r: [u8; 32])
        ensures
            r == self.hash_spec(salt@ + data@),
    ;
}

/// The fast default oracle, backed by BLAKE3.
#[derive(Clone, Copy)]
pub struct Blake3QuantumHash;

/// The wide-digest fallback oracle, backed by SHA3-512 truncated to 32 bytes.
#[derive(Clone, Copy)]
pub struct Sha3QuantumHash;

impl QuantumHash for Blake3QuantumHash {
    open spec fn hash_spec(&self, data: Seq<u8>) -> [u8; 32] {
        blake3_of(data)
    }

    fn hash(&self, data: &[u8]) -> (r: [u8; 32]) {
        blake3_digest(data)
    }

    fn hash_with_salt(&self, data: &[u8], salt: &[u8]) -> (r: [u8; 32]) {
        let mut buf: Vec<u8> = Vec::new();
        buf.extend_from_slice(salt);
        buf.extend_from_slice(data);
        proof {
            assert(buf@ =~= salt@ + data@);
        }
        self.hash(buf.as_slice())
    }
}

impl QuantumHash for Sha3QuantumHash {
    open spec fn hash_spec(&self, data: Seq<u8>) -> [u8; 32] {
        sha3_512_trunc_of(data)
    }

    fn hash(&self, data: &[u8]) -> (r: [u8; 32]) {
        sha3_512_digest_trunc(data)
    }

    fn hash_with_salt(&self, data: &[u8], salt: &[u8]) -> (r: [u8; 32]) {
        let mut buf: Vec<u8> = Vec::new();
        buf.extend_from_slice(salt);
        buf.extend_from_slice(data);
        proof {
            assert(buf@ =~= salt@ + data@);
        }
        self.hash(buf.as_slice())
    }
}

/// The oracle the protocol engines use by default.
pub fn default_quantum_hash() -> (r: Blake3QuantumHash)
    ensures
        r == (Blake3QuantumHash),
{
    Blake3QuantumHash
}

/// The value of the hash chain over `seed` after `rounds` counter steps:
/// step 0 hashes the seed itself, and step k + 1 hashes the previous value
/// followed by the counter k in big-endian.
pub open spec fn hash_chain_spec<H: QuantumHash>(h: H, seed: Seq<u8>, rounds: nat) -> [u8; 32]
    decreases rounds,
{
    if rounds == 0 {
        h.hash_spec(seed)
    } else {
        h.hash_spec(hash_chain_spec(h, seed, (rounds - 1) as nat)@ + u64_be_bytes((rounds - 1) as u64))
    }
}

/// Iterates `hash(current || counter_be_u64)` for `rounds` rounds to derive a
/// deterministic sub-seed.
pub fn hash_chain<H: QuantumHash>(hasher: &H, seed: &[u8], rounds: usize) -> (r: [u8; 32])
    requires
        rounds <= u64::MAX,
    ensures
        r == hash_chain_spec(*hasher, seed@, rounds as nat),
{
    let mut current = hasher.hash(seed);
    if rounds == 0 {
        return current;
    }

    for counter in 0..rounds
        invariant
            rounds <= u64::MAX,
            current == hash_chain_spec(*hasher, seed@, counter as nat),
    {
        let mut data: Vec<u8> = Vec::new();
        data.extend_from_slice(current.as_slice());
        crate::wire::push_u64_be(&mut data, counter as u64);
        proof {
            assert(data@ =~= current@ + u64_be_bytes(counter as u64));
        }
        current = hasher.hash(data.as_slice());
    }
    current
}

} // verus!
