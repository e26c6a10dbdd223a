//! Structural checks of the zero-knowledge proofs attached to stored values:
//! what can be decided from a proof's fields and BLAKE3 digests alone.

use vstd::prelude::*;
use crate::hashing::{blake3_digest, blake3_hash};
use crate::network::be_bytes;
use crate::storage::key_bytes;

verus! {

/// A Plonky2 proof.
#[derive(Debug, Clone)]
pub struct Plonky2Proof {
    /// Name of the circuit the proof is for.
    pub proof_system: String,
    /// The proof itself.
    pub proof: Vec<u8>,
    /// Public inputs.
    pub public_inputs: Vec<u64>,
    /// Digest of the verification key.
    pub verification_key_hash: [u8; 32],
}

/// The content of a `Plonky2Proof`.
pub struct Plonky2ProofView {
    pub proof_system: Seq<char>,
    pub proof: Seq<u8>,
    pub public_inputs: Seq<u64>,
    pub verification_key_hash: Seq<u8>,
}

impl View for Plonky2Proof {
    type V = Plonky2ProofView;

    open spec fn view(&self) -> Plonky2ProofView {
        Plonky2ProofView {
            proof_system: self.proof_system@,
            proof: self.proof@,
            public_inputs: self.public_inputs@,
            verification_key_hash: self.verification_key_hash@,
        }
    }
}

/// The view of an optional Plonky2 proof.
pub open spec fn plonky2_view(p: Option<Plonky2Proof>) -> Option<Plonky2ProofView> {
    match p {
        Some(q) => Some(q@),
        None => None,
    }
}

impl Plonky2Proof {
    /// A copy of the proof.
    pub fn duplicate(&self) -> (r: Plonky2Proof)
        ensures
            r@ == self@,
    {
        let mut bytes: Vec<u8> = Vec::new();
        for i in 0..self.proof.len()
            invariant
                bytes@ == self.proof@.take(i as int),
        {
            bytes.push(self.proof[i]);
            assert(self.proof@.take(i + 1) =~= self.proof@.take(i as int).push(self.proof@[i as int]));
        }
        assert(self.proof@.take(self.proof@.len() as int) =~= self.proof@);
        let mut inputs: Vec<u64> = Vec::new();
        for i in 0..self.public_inputs.len()
            invariant
                inputs@ == self.public_inputs@.take(i as int),
        {
            inputs.push(self.public_inputs[i]);
            assert(self.public_inputs@.take(i + 1) =~= self.public_inputs@.take(i as int).push(self.public_inputs@[i as int]));
        }
        assert(self.public_inputs@.take(self.public_inputs@.len() as int) =~= self.public_inputs@);
        Plonky2Proof {
            proof_system: self.proof_system.clone(),
            proof: bytes,
            public_inputs: inputs,
            verification_key_hash: self.verification_key_hash,
        }
    }
}

/// A zero-knowledge proof in the general format.
#[derive(Debug, Clone)]
pub struct ZeroKnowledgeProof {
    /// Name of the proof system.
    pub proof_system: String,
    /// The proof itself.
    pub proof_data: Vec<u8>,
    /// Public inputs.
    pub public_inputs: Vec<u8>,
    /// Verification key.
    pub verification_key: Vec<u8>,
    /// The Plonky2 form of the proof, if any.
    pub plonky2_proof: Option<Plonky2Proof>,
}

/// The content of a `ZeroKnowledgeProof`.
pub struct ZeroKnowledgeProofView {
    pub proof_system: Seq<char>,
    pub proof_data: Seq<u8>,
    pub public_inputs: Seq<u8>,
    pub verification_key: Seq<u8>,
    pub plonky2_proof: Option<Plonky2ProofView>,
}

impl View for ZeroKnowledgeProof {
    type V = ZeroKnowledgeProofView;

    open spec fn view(&self) -> ZeroKnowledgeProofView {
        ZeroKnowledgeProofView {
            proof_system: self.proof_system@,
            proof_data: self.proof_data@,
            public_inputs: self.public_inputs@,
            verification_key: self.verification_key@,
            plonky2_proof: plonky2_view(self.plonky2_proof),
        }
    }
}

/// UTF-8 bytes of the proof-system names: "plonky2", "groth16", "nova", "stark".
pub open spec fn name_plonky2() -> Seq<u8> {
    seq![112u8, 108, 111, 110, 107, 121, 50]
}

pub open spec fn name_groth16() -> Seq<u8> {
    seq![103u8, 114, 111, 116, 104, 49, 54]
}

pub open spec fn name_nova() -> Seq<u8> {
    seq![110u8, 111, 118, 97]
}

pub open spec fn name_stark() -> Seq<u8> {
    seq![115u8, 116, 97, 114, 107]
}

/// Whether the first 32 public inputs of `p` are the BLAKE3 digest of the
/// key's bytes followed by the value.
pub open spec fn binds_key_and_value(p: ZeroKnowledgeProofView, key: Seq<char>, value: Seq<u8>) -> bool {
    p.public_inputs.len() >= 32 && p.public_inputs.take(32) == blake3_digest(key_bytes(key) + value)
}

/// Whether a proof in the general format is structurally valid for the
/// value `value` under `key`: it names a proof system and carries data; a
/// "plonky2" proof needs a non-empty Plonky2 proof when it has one, and else
/// must bind the key and the value; a "groth16", "nova" or "stark" proof
/// needs at least 32 bytes of data; other systems are refused.
pub open spec fn full_proof_valid(p: ZeroKnowledgeProofView, key: Seq<char>, value: Seq<u8>) -> bool {
    let system = key_bytes(p.proof_system);
    if system.len() == 0 || p.proof_data.len() == 0 {
        false
    } else if system == name_plonky2() {
        match p.plonky2_proof {
            Some(q) => q.proof.len() > 0,
            None => binds_key_and_value(p, key, value),
        }
    } else if system == name_groth16() || system == name_nova() || system == name_stark() {
        p.proof_data.len() >= 32
    } else {
        false
    }
}

/// The big-endian bytes of a sequence of 64-bit words.
pub open spec fn words_bytes(s: Seq<u64>) -> Seq<u8>
    decreases s.len(),
{
    if s.len() == 0 {
        Seq::empty()
    } else {
        words_bytes(s.drop_last()) + be_bytes(s.last())
    }
}

/// Xor of `c[i] ^ v[i]` over the first `n` positions.
pub open spec fn xor_pairs(c: Seq<u8>, v: Seq<u8>, n: nat) -> u8
    decreases n,
{
    if n == 0 {
        0
    } else {
        xor_pairs(c, v, (n - 1) as nat) ^ c[n - 1] ^ v[n - 1]
    }
}

/// The commitment of a Plonky2 proof: the digest of its public inputs'
/// bytes, its verification-key digest and the digest of the proof.
pub open spec fn plonky2_commitment(p: Plonky2ProofView) -> Seq<u8> {
    blake3_digest(words_bytes(p.public_inputs) + p.verification_key_hash + blake3_digest(p.proof))
}

/// Whether a Plonky2 proof of an unknown circuit is structurally valid for
/// the expected public-input bytes `expected`: proof and inputs are not
/// empty, there are at least as many input words as expected bytes, the
/// inputs' bytes begin with `expected`, the proof has at least 256 bytes,
/// the verification-key digest is not all zeros, and the bytes of the
/// commitment and of the key digest do not xor to zero.
pub open spec fn generic_plonky2_valid(p: Plonky2ProofView, expected: Seq<u8>) -> bool {
    &&& p.proof.len() > 0
    &&& p.public_inputs.len() > 0
    &&& p.public_inputs.len() >= expected.len()
    &&& expected.len() <= words_bytes(p.public_inputs).len()
    &&& words_bytes(p.public_inputs).take(expected.len() as int) == expected
    &&& p.proof.len() >= 256
    &&& p.verification_key_hash != Seq::new(32, |i: int| 0u8)
    &&& xor_pairs(plonky2_commitment(p), p.verification_key_hash, 32) != 0
}

/// The commitment of a write of `value` under `key` by node `local` at time
/// `nanos`: the digest of the key's bytes, the value, the node and the
/// time's big-endian bytes.
pub open spec fn storage_commitment(key: Seq<char>, value: Seq<u8>, local: Seq<u8>, nanos: u64) -> Seq<u8> {
    blake3_digest(key_bytes(key) + value + local + be_bytes(nanos))
}

/// The commitment binding node `local` to a write: the digest of the node,
/// the digest of the key's bytes and the digest of the value.
pub open spec fn node_commitment(key: Seq<char>, value: Seq<u8>, local: Seq<u8>) -> Seq<u8> {
    blake3_digest(local + blake3_digest(key_bytes(key)) + blake3_digest(value))
}

/// The public inputs that a storage proof must begin with.
pub open spec fn storage_proof_inputs(key: Seq<char>, value: Seq<u8>, local: Seq<u8>, nanos: u64) -> Seq<u8> {
    storage_commitment(key, value, local, nanos) + node_commitment(key, value, local)
}

/// A copy of a byte slice into a vector.
fn to_vec(s: &[u8]) -> (r: Vec<u8>)
    ensures
        r@ == s@,
{
    let mut r: Vec<u8> = Vec::new();
    for i in 0..s.len()
        invariant
            r@ == s@.take(i as int),
    {
        r.push(s[i]);
        assert(s@.take(i + 1) =~= s@.take(i as int).push(s@[i as int]));
    }
    assert(s@.take(s@.len() as int) =~= s@);
    r
}

/// Append the bytes of `s` to `out`.
pub(crate) fn append_bytes(out: &mut Vec<u8>, s: &[u8])
    ensures
        final(out)@ == old(out)@ + s@,
{
    let ghost start = out@;
    for i in 0..s.len()
        invariant
            out@ == start + s@.take(i as int),
    {
        out.push(s[i]);
        assert(start + s@.take(i + 1) =~= (start + s@.take(i as int)).push(s@[i as int]));
    }
    assert(s@.take(s@.len() as int) =~= s@);
}

/// The big-endian bytes of `t`.
fn word_bytes(t: u64) -> (r: Vec<u8>)
    ensures
        r@ == be_bytes(t),
{
    let mut bytes: Vec<u8> = Vec::new();
    for i in 0..8
        invariant
            bytes@ == be_bytes(t).take(i as int),
    {
        let shift: u64 = 8 * (7 - i as u64);
        let b: u8 = ((t >> shift) & 0xffu64) as u8;
        bytes.push(b);
        assert(shift == (8 * (7 - i)) as u64);
        assert(be_bytes(t).take(i + 1) =~= be_bytes(t).take(i as int).push(b));
    }
    assert(be_bytes(t).take(8) =~= be_bytes(t));
    bytes
}

/// Whether two byte strings are equal.
pub(crate) fn same_bytes(a: &[u8], b: &[u8]) -> (r: bool)
    ensures
        r == (a@ == b@),
{
    if a.len() != b.len() {
        return false;
    }
    let mut i: usize = 0;
    while i < a.len()
        invariant
            a@.len() == b@.len(),
            i <= a@.len(),
            forall|j: int| 0 <= j < i ==> a@[j] == b@[j],
        decreases a@.len() - i,
    {
        if a[i] != b[i] {
            return false;
        }
        i += 1;
    }
    assert(a@ =~= b@);
    true
}

/// Whether a proof in the general format is structurally valid for `value`
/// under `key` (see `full_proof_valid`).
pub fn verify_full_zk_proof(zk: &ZeroKnowledgeProof, key: &str, value: &[u8]) -> (b: bool)
    ensures
        b == full_proof_valid(zk@, key@, value@),
{
    let system = zk.proof_system.as_str().as_bytes();
    if system.len() == 0 || zk.proof_data.len() == 0 {
        return false;
    }
    let plonky2 = vec![112u8, 108, 111, 110, 107, 121, 50];
    let groth16 = vec![103u8, 114, 111, 116, 104, 49, 54];
    let nova = vec![110u8, 111, 118, 97];
    let stark = vec![115u8, 116, 97, 114, 107];
    assert(plonky2@ =~= name_plonky2());
    assert(groth16@ =~= name_groth16());
    assert(nova@ =~= name_nova());
    assert(stark@ =~= name_stark());
    if same_bytes(system, plonky2.as_slice()) {
        if let Some(q) = &zk.plonky2_proof {
            return q.proof.len() > 0;
        }
        if zk.public_inputs.len() >= 32 {
            let mut combined = to_vec(key.as_bytes());
            append_bytes(&mut combined, value);
            let expected = blake3_hash(combined.as_slice());
            let mut first: Vec<u8> = Vec::new();
            for i in 0..32
                invariant
                    zk.public_inputs@.len() >= 32,
                    first@ == zk.public_inputs@.take(i as int),
            {
                first.push(zk.public_inputs[i]);
                assert(zk.public_inputs@.take(i + 1) =~= zk.public_inputs@.take(i as int).push(zk.public_inputs@[i as int]));
            }
            return same_bytes(first.as_slice(), &expected);
        }
        return false;
    }
    if same_bytes(system, groth16.as_slice()) || same_bytes(system, nova.as_slice()) || same_bytes(system, stark.as_slice()) {
        return zk.proof_data.len() >= 32;
    }
    false
}

/// The big-endian bytes of a sequence of words.
fn words_to_bytes(words: &Vec<u64>) -> (r: Vec<u8>)
    ensures
        r@ == words_bytes(words@),
{
    let mut r: Vec<u8> = Vec::new();
    for i in 0..words.len()
        invariant
            r@ == words_bytes(words@.take(i as int)),
    {
        let wb = word_bytes(words[i]);
        append_bytes(&mut r, wb.as_slice());
        assert(words@.take(i + 1).drop_last() =~= words@.take(i as int));
    }
    assert(words@.take(words@.len() as int) =~= words@);
    r
}

/// Whether a Plonky2 proof of an unknown circuit is structurally valid for
/// the expected public-input bytes (see `generic_plonky2_valid`).
pub fn verify_generic_plonky2_proof(p2: &Plonky2Proof, expected_inputs: &[u8]) -> (b: bool)
    ensures
        b == generic_plonky2_valid(p2@, expected_inputs@),
{
    if p2.proof.len() == 0 || p2.public_inputs.len() == 0 {
        return false;
    }
    if p2.public_inputs.len() < expected_inputs.len() {
        return false;
    }
    let input_bytes = words_to_bytes(&p2.public_inputs);
    if input_bytes.len() < expected_inputs.len() {
        return false;
    }
    let mut prefix: Vec<u8> = Vec::new();
    for i in 0..expected_inputs.len()
        invariant
            expected_inputs@.len() <= input_bytes@.len(),
            prefix@ == input_bytes@.take(i as int),
    {
        prefix.push(input_bytes[i]);
        assert(input_bytes@.take(i + 1) =~= input_bytes@.take(i as int).push(input_bytes@[i as int]));
    }
    if !same_bytes(prefix.as_slice(), expected_inputs) {
        return false;
    }
    if p2.proof.len() < 256 {
        return false;
    }
    let zero = [0u8; 32];
    assert(zero@ =~= Seq::new(32, |i: int| 0u8));
    if same_bytes(&p2.verification_key_hash, &zero) {
        return false;
    }
    let proof_hash = blake3_hash(p2.proof.as_slice());
    let mut joined = to_vec(input_bytes.as_slice());
    append_bytes(&mut joined, &p2.verification_key_hash);
    append_bytes(&mut joined, &proof_hash);
    let commitment = blake3_hash(joined.as_slice());
    let mut acc: u8 = 0;
    for i in 0..32
        invariant
            commitment@.len() == 32,
            p2.verification_key_hash@.len() == 32,
            acc == xor_pairs(commitment@, p2.verification_key_hash@, i as nat),
    {
        acc = acc ^ commitment[i] ^ p2.verification_key_hash[i];
    }
    acc != 0
}

} // verus!
