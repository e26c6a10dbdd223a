use lib_storage::proofs::{verify_full_zk_proof, verify_generic_plonky2_proof, Plonky2Proof, ZeroKnowledgeProof};
use lib_storage::storage::{convert_to_zk_proof, DhtStorage, StorageError, ZkDhtValue, ZkProof};
use lib_storage::types::{AccessLevel, Hash256};

fn zk(system: &str, data: Vec<u8>, inputs: Vec<u8>, p2: Option<Plonky2Proof>) -> ZeroKnowledgeProof {
    ZeroKnowledgeProof {
        proof_system: system.to_string(),
        proof_data: data,
        public_inputs: inputs,
        verification_key: vec![1],
        plonky2_proof: p2,
    }
}

fn p2(system: &str, proof: Vec<u8>, inputs: Vec<u64>, vk: [u8; 32]) -> Plonky2Proof {
    Plonky2Proof { proof_system: system.to_string(), proof, public_inputs: inputs, verification_key_hash: vk }
}

#[test]
fn full_proofs_by_system() {
    assert!(!verify_full_zk_proof(&zk("", vec![1], vec![], None), "k", b"v"));
    assert!(!verify_full_zk_proof(&zk("groth16", vec![], vec![], None), "k", b"v"));
    assert!(verify_full_zk_proof(&zk("groth16", vec![0; 32], vec![], None), "k", b"v"));
    assert!(!verify_full_zk_proof(&zk("stark", vec![0; 31], vec![], None), "k", b"v"));
    assert!(verify_full_zk_proof(&zk("nova", vec![0; 40], vec![], None), "k", b"v"));
    assert!(!verify_full_zk_proof(&zk("snark", vec![0; 40], vec![], None), "k", b"v"));
    assert!(verify_full_zk_proof(&zk("plonky2", vec![1], vec![], Some(p2("x", vec![1], vec![], [1; 32]))), "k", b"v"));
    assert!(!verify_full_zk_proof(&zk("plonky2", vec![1], vec![], Some(p2("x", vec![], vec![], [1; 32]))), "k", b"v"));
    // without a Plonky2 proof, the public inputs must bind key and value
    let digest = blake3::hash(b"kv").as_bytes().to_vec();
    assert!(verify_full_zk_proof(&zk("plonky2", vec![1], digest.clone(), None), "k", b"v"));
    assert!(!verify_full_zk_proof(&zk("plonky2", vec![1], digest, None), "k", b"w"));
    assert!(!verify_full_zk_proof(&zk("plonky2", vec![1], vec![0; 31], None), "k", b"v"));
}

#[test]
fn generic_plonky2_checks() {
    let expected = [0u8, 0, 0, 0, 0, 0, 0, 7];
    let good = p2("x", vec![3u8; 256], vec![7, 9, 1, 1, 1, 1, 1, 1], [1u8; 32]);
    // the verdict also depends on the commitment's bytes
    let mut input_bytes = Vec::new();
    for w in &good.public_inputs {
        input_bytes.extend_from_slice(&w.to_be_bytes());
    }
    let proof_hash = blake3::hash(&good.proof);
    let commitment = blake3::hash(&[&input_bytes[..], &good.verification_key_hash[..], proof_hash.as_bytes()].concat());
    let fold = commitment.as_bytes().iter().zip(good.verification_key_hash.iter()).fold(0u8, |acc, (&a, &b)| acc ^ a ^ b);
    assert_eq!(verify_generic_plonky2_proof(&good, &expected), fold != 0);
    assert!(!verify_generic_plonky2_proof(&p2("x", vec![3u8; 255], vec![7, 9, 1, 1, 1, 1, 1, 1], [1u8; 32]), &expected));
    assert!(!verify_generic_plonky2_proof(&p2("x", vec![3u8; 256], vec![8, 9, 1, 1, 1, 1, 1, 1], [1u8; 32]), &expected));
    assert!(!verify_generic_plonky2_proof(&p2("x", vec![3u8; 256], vec![7, 9, 1, 1, 1, 1, 1, 1], [0u8; 32]), &expected));
    assert!(!verify_generic_plonky2_proof(&p2("x", vec![3u8; 256], vec![7], [1u8; 32]), &expected));
}

#[test]
fn storage_proof_inputs_are_checked() {
    let local = Hash256::from_bytes(&[4u8; 32]);
    let storage = DhtStorage::new(local, 1 << 20);
    let commitment = storage.generate_storage_commitment("k", b"v", 42);
    let mut data = b"kv".to_vec();
    data.extend_from_slice(&[4u8; 32]);
    data.extend_from_slice(&42u64.to_be_bytes());
    assert_eq!(&commitment, blake3::hash(&data).as_bytes());
    let node_commit = blake3::hash(
        &[&[4u8; 32][..], blake3::hash(b"k").as_bytes(), blake3::hash(b"v").as_bytes()].concat(),
    );
    let mut inputs = commitment.to_vec();
    inputs.extend_from_slice(node_commit.as_bytes());
    let base = ZkProof {
        proof_system: "Plonky2".to_string(),
        proof_data: vec![1],
        public_inputs: inputs.clone(),
        verification_key: vec![],
        plonky2_proof: None,
    };
    assert_eq!(storage.check_storage_proof(&base, "k", b"v", 42), None);
    assert_eq!(storage.check_storage_proof(&base, "k", b"v", 43), Some(false));
    let mut empty = base.clone();
    empty.proof_data = vec![];
    assert_eq!(storage.check_storage_proof(&empty, "k", b"v", 42), Some(false));
    let mut circuit = base.clone();
    circuit.plonky2_proof = Some(p2("ZHTP-Optimized-StorageAccess", vec![1], vec![], [1; 32]));
    assert_eq!(storage.check_storage_proof(&circuit, "k", b"v", 42), None);
    let mut generic = base.clone();
    generic.plonky2_proof = Some(p2("other", vec![1], vec![], [1; 32]));
    assert_eq!(storage.check_storage_proof(&generic, "k", b"v", 42), Some(false));
}

#[test]
fn zk_values_need_a_valid_proof() {
    let mut storage = DhtStorage::new(Hash256::from_bytes(&[4u8; 32]), 1 << 20);
    let key = Hash256::from_bytes(&[9u8; 32]);
    let mut value = ZkDhtValue {
        encrypted_data: vec![1, 2, 3],
        validity_proof: zk("snark", vec![0; 40], vec![], None),
        access_requirements: vec![],
        encrypted_metadata: vec![],
        stored_at: 0,
        expires_at: None,
        nonce: [0; 32],
        access_level: AccessLevel::Public,
        timestamp: 0,
    };
    assert_eq!(storage.store_zk_value_at(key, &value, vec![5, 6], true, false, 1, 9), Err(StorageError::InvalidZkProof));
    let key_text = DhtStorage::content_key(&key);
    let mut inputs = storage.generate_storage_commitment(&key_text, &[5, 6], 9).to_vec();
    let node = blake3::hash(
        &[&[4u8; 32][..], blake3::hash(key_text.as_bytes()).as_bytes(), blake3::hash(&[5u8, 6]).as_bytes()].concat(),
    );
    inputs.extend_from_slice(node.as_bytes());
    value.validity_proof = zk("groth16", vec![0; 40], inputs, None);
    assert_eq!(storage.store_zk_value_at(key, &value, vec![5, 6], false, false, 1, 9), Err(StorageError::ProofRejected));
    assert_eq!(storage.store_zk_value_at(key, &value, vec![5, 6], true, false, 1, 10), Err(StorageError::ProofRejected));
    storage.store_zk_value_at(key, &value, vec![5, 6], true, false, 1, 9).unwrap();
    assert_eq!(storage.retrieve_data_at(key, 2), Some(vec![5, 6]));
    let converted = convert_to_zk_proof(&value.validity_proof);
    assert_eq!(converted.proof_system, "groth16");
    assert_eq!(converted.proof_data, vec![0; 40]);
}

#[test]
fn zk_value_proof_verdicts() {
    let local = [4u8; 32];
    let storage = DhtStorage::new(Hash256::from_bytes(&local), 1 << 20);
    let value = ZkDhtValue {
        encrypted_data: vec![1, 2, 3],
        validity_proof: zk("plonky2", vec![1], vec![], None),
        access_requirements: vec![],
        encrypted_metadata: vec![],
        stored_at: 0,
        expires_at: None,
        nonce: [0; 32],
        access_level: AccessLevel::Private,
        timestamp: 0,
    };
    let value_hash = blake3::hash(&[1, 2, 3]);
    let access_key = blake3::hash(&[&local[..], value_hash.as_bytes()].concat());
    let mut inputs = access_key.as_bytes()[..8].to_vec();
    inputs.extend_from_slice(&value_hash.as_bytes()[..8]);
    inputs.extend_from_slice(&1u64.to_be_bytes());
    inputs.extend_from_slice(&1u64.to_be_bytes());
    let base = ZkProof {
        proof_system: "Plonky2".to_string(),
        proof_data: vec![1],
        public_inputs: inputs.clone(),
        verification_key: vec![1],
        plonky2_proof: None,
    };
    assert_eq!(storage.verify_zk_proof(&base, &value), None);
    let mut wrong_system = base.clone();
    wrong_system.proof_system = "groth16".to_string();
    assert_eq!(storage.verify_zk_proof(&wrong_system, &value), Some(false));
    let mut no_key = base.clone();
    no_key.verification_key = vec![];
    assert_eq!(storage.verify_zk_proof(&no_key, &value), Some(false));
    let mut wrong_inputs = base.clone();
    wrong_inputs.public_inputs[0] ^= 1;
    assert_eq!(storage.verify_zk_proof(&wrong_inputs, &value), Some(false));
    let mut circuit = base.clone();
    circuit.plonky2_proof = Some(p2("ZHTP-Optimized-Range", vec![1], vec![1], [1; 32]));
    assert_eq!(storage.verify_zk_proof(&circuit, &value), None);
    circuit.plonky2_proof = Some(p2("custom", vec![1], vec![1], [1; 32]));
    assert_eq!(storage.verify_zk_proof(&circuit, &value), Some(true));
    circuit.plonky2_proof = Some(p2("custom", vec![], vec![1], [1; 32]));
    assert_eq!(storage.verify_zk_proof(&circuit, &value), Some(false));
}
