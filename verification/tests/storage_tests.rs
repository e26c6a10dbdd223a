use lib_storage::storage::{DhtStorage, StorageError, StorageMessageOutcome, ZkProof};
use lib_storage::types::{DhtMessage, DhtMessageType, DhtNode, Hash256};

fn storage_inputs(storage: &DhtStorage, local: [u8; 32], key: &str, value: &[u8], nanos: u64) -> Vec<u8> {
    let mut inputs = storage.generate_storage_commitment(key, value, nanos).to_vec();
    let node = blake3::hash(&[&local[..], blake3::hash(key.as_bytes()).as_bytes(), blake3::hash(value).as_bytes()].concat());
    inputs.extend_from_slice(node.as_bytes());
    inputs
}

fn unix_now() -> u64 {
    std::time::SystemTime::now().duration_since(std::time::UNIX_EPOCH).unwrap().as_secs()
}

#[test]
fn test_storage_creation() {
    let node_id = Hash256::from_bytes(&[1u8; 32]);
    let storage = DhtStorage::new(node_id, 1024 * 1024); // 1MB

    let stats = storage.get_storage_stats();
    assert_eq!(stats.total_size, 0);
    assert_eq!(stats.max_capacity, 1024 * 1024);
}

#[test]
fn test_store_and_retrieve() {
    let node_id = Hash256::from_bytes(&[1u8; 32]);
    let mut storage = DhtStorage::new(node_id, 1024 * 1024);

    let key = "test_key".to_string();
    let value = b"test_value".to_vec();

    // Store value ("test_value" is far from high entropy)
    storage.store(key.clone(), value.clone(), None, false, false).unwrap();

    // Retrieve value
    let retrieved = storage.get(&key).unwrap();
    assert_eq!(retrieved, Some(value));

    // Check statistics
    let stats = storage.get_storage_stats();
    assert_eq!(stats.total_entries, 1);
    assert_eq!(stats.total_size, 10); // "test_value" is 10 bytes
}

#[test]
fn test_capacity_limit() {
    let node_id = Hash256::from_bytes(&[1u8; 32]);
    let mut storage = DhtStorage::new(node_id, 5); // Very small capacity

    let key = "test_key".to_string();
    let large_value = vec![0u8; 10]; // 10 bytes, exceeds capacity

    let result = storage.store(key, large_value, None, false, false);
    assert!(result.is_err());
}

#[test]
fn test_remove() {
    let node_id = Hash256::from_bytes(&[1u8; 32]);
    let mut storage = DhtStorage::new(node_id, 1024);

    let key = "test_key".to_string();
    let value = b"test_value".to_vec();

    storage.store(key.clone(), value, None, false, false).unwrap();
    let removed = storage.remove(&key);
    assert!(removed);

    let retrieved = storage.get(&key).unwrap();
    assert_eq!(retrieved, None);

    let stats = storage.get_storage_stats();
    assert_eq!(stats.total_entries, 0);
    assert_eq!(stats.total_size, 0);
}

#[test]
fn test_expiry() {
    let node_id = Hash256::from_bytes(&[1u8; 32]);
    let mut storage = DhtStorage::new(node_id, 1024);

    let key = "test_key".to_string();
    let value = b"test_value".to_vec();

    storage.store(key.clone(), value, None, false, false).unwrap();

    // Set expiry in the past
    let past_time = unix_now() - 3600;
    storage.set_expiry(&key, past_time).unwrap();

    let retrieved = storage.get(&key).unwrap();
    assert_eq!(retrieved, None); // Should be None due to expiry
}

#[test]
fn store_refusals_come_in_order() {
    let mut storage = DhtStorage::new(Hash256::from_bytes(&[1u8; 32]), 1 << 30);
    assert_eq!(storage.store_at(String::new(), b"v".to_vec(), None, false, false, 5, 0), Err(StorageError::InvalidKey));
    assert_eq!(storage.store_at("x".repeat(257), b"v".to_vec(), None, false, false, 5, 0), Err(StorageError::InvalidKey));
    assert_eq!(storage.store_at("k".to_string(), vec![], None, false, false, 5, 0), Err(StorageError::EmptyValue));
    assert_eq!(
        storage.store_at("k".to_string(), vec![1u8; 10 * 1024 * 1024 + 1], None, false, false, 5, 0),
        Err(StorageError::ValueTooLarge)
    );
    assert_eq!(storage.store_at("system:x".to_string(), b"v".to_vec(), None, false, false, 5, 0), Err(StorageError::ProofRequired));
    assert_eq!(storage.store_at("k".to_string(), b"my password".to_vec(), None, false, false, 5, 0), Err(StorageError::ProofRequired));
    assert_eq!(storage.store_at("k".to_string(), b"v".to_vec(), None, false, true, 5, 0), Err(StorageError::ProofRequired));
    assert_eq!(
        storage.store_at("k".to_string(), vec![7u8; 1024 * 1024 + 1], None, false, false, 5, 0),
        Err(StorageError::ProofRequired)
    );
    let proof = ZkProof {
        proof_system: "Plonky2".to_string(),
        proof_data: vec![1, 2, 3],
        public_inputs: vec![],
        verification_key: vec![],
        plonky2_proof: None,
    };
    assert_eq!(
        storage.store_at("k".to_string(), b"v".to_vec(), Some(proof.clone()), false, false, 5, 0),
        Err(StorageError::ProofRejected)
    );
    // a protected entry can only be overwritten with a proof
    let mut bound = proof.clone();
    bound.public_inputs = storage_inputs(&storage, [1u8; 32], "k", b"v", 77);
    // the proof's public inputs do not fit the time of the write
    assert_eq!(
        storage.store_at("k".to_string(), b"v".to_vec(), Some(bound.clone()), true, false, 5, 78),
        Err(StorageError::ProofRejected)
    );
    storage.store_at("k".to_string(), b"v".to_vec(), Some(bound), true, false, 5, 77).unwrap();
    assert_eq!(storage.store_at("k".to_string(), b"w".to_vec(), None, false, false, 6, 0), Err(StorageError::OverwriteDenied));
    storage.set_expiry("k", 6).unwrap();
    storage.store_at("k".to_string(), b"ww".to_vec(), None, false, false, 7, 0).unwrap();
    assert_eq!(storage.get_at("k", 7), Some(b"ww".to_vec()));
    assert_eq!(storage.get_storage_stats().total_size, 2);
    assert_eq!(storage.get_metadata("k").unwrap().access_count, 1);
    assert_eq!(storage.get_metadata("k").unwrap().last_access, 7);
}

#[test]
fn reserved_keys_are_refused() {
    let mut storage = DhtStorage::new(Hash256::from_bytes(&[1u8; 32]), 1 << 20);
    assert_eq!(storage.store_at("system".to_string(), b"v".to_vec(), None, false, false, 1, 0), Err(StorageError::ReservedKey));
    assert_eq!(storage.store_at("admin".to_string(), b"v".to_vec(), None, false, false, 1, 0), Err(StorageError::ReservedKey));
    assert!(storage.store_at("administrator".to_string(), b"v".to_vec(), None, false, false, 1, 0).is_ok());
}

#[test]
fn capacity_counts_metadata_overhead() {
    let mut storage = DhtStorage::new(Hash256::from_bytes(&[1u8; 32]), 266);
    assert_eq!(storage.store_at("a".to_string(), vec![1u8; 11], None, false, false, 1, 0), Err(StorageError::CapacityExceeded));
    storage.store_at("a".to_string(), vec![1u8; 10], None, false, false, 1, 0).unwrap();
    assert_eq!(storage.get_storage_stats().available_space, 256);
}

#[test]
fn cleanup_drops_expired_entries() {
    let mut storage = DhtStorage::new(Hash256::from_bytes(&[1u8; 32]), 1 << 20);
    for (k, v) in [("a", 3usize), ("b", 4), ("c", 5)] {
        storage.store_at(k.to_string(), vec![9u8; v], None, false, false, 1, 0).unwrap();
    }
    storage.set_expiry("a", 10).unwrap();
    storage.set_expiry("c", 20).unwrap();
    assert_eq!(storage.cleanup_expired_at(15), 1);
    assert_eq!(storage.list_keys(), vec!["b".to_string(), "c".to_string()]);
    assert_eq!(storage.get_storage_stats().total_size, 9);
    assert_eq!(storage.set_expiry("zz", 1), Err(StorageError::KeyNotFound));
    assert_eq!(storage.get_replication_candidates(1), vec!["b".to_string(), "c".to_string()]);
    storage.update_replicas("b", vec![Hash256::from_bytes(&[2u8; 32])]).unwrap();
    assert_eq!(storage.get_replication_candidates(1), vec!["c".to_string()]);
    assert_eq!(storage.update_replicas("zz", vec![]), Err(StorageError::KeyNotFound));
}

#[test]
fn content_addressed_data() {
    let mut storage = DhtStorage::new(Hash256::from_bytes(&[1u8; 32]), 1 << 20);
    let hash = Hash256::from_bytes(&[0xab; 32]);
    assert_eq!(DhtStorage::content_key(&hash), "ab".repeat(32));
    storage.store_data_at(hash, b"chunk".to_vec(), false, 3).unwrap();
    assert_eq!(storage.retrieve_data_at(hash, 4), Some(b"chunk".to_vec()));
    assert!(storage.remove_data(hash));
    assert!(!storage.remove_data(hash));
    assert_eq!(storage.retrieve_data_at(hash, 5), None);
}

#[test]
fn checksum_binds_the_node() {
    let local = Hash256::from_bytes(&[5u8; 32]);
    let storage = DhtStorage::new(local, 100);
    let data = b"payload";
    let inner = blake3::hash(data);
    let mut joined = inner.as_bytes().to_vec();
    joined.extend_from_slice(&[5u8; 32]);
    assert_eq!(storage.calculate_checksum(data), blake3::hash(&joined).as_bytes().to_vec());
}

#[test]
fn storage_messages_update_the_store() {
    let mut storage = DhtStorage::new(Hash256::from_bytes(&[1u8; 32]), 1 << 20);
    let mut msg = DhtMessage {
        message_id: "m".to_string(),
        message_type: DhtMessageType::Store,
        sender_id: Hash256::from_bytes(&[2u8; 32]),
        target_id: None,
        key: Some("k".to_string()),
        value: Some(b"v".to_vec()),
        nodes: None,
        timestamp: 0,
        signature: None,
    };
    assert_eq!(storage.handle_storage_message(&msg, false, 1), StorageMessageOutcome::Stored("k".to_string()));
    msg.message_type = DhtMessageType::FindValue;
    assert_eq!(storage.handle_storage_message(&msg, false, 2), StorageMessageOutcome::Found("k".to_string()));
    msg.key = Some("other".to_string());
    assert_eq!(storage.handle_storage_message(&msg, false, 2), StorageMessageOutcome::NotFound("other".to_string()));
    msg.message_type = DhtMessageType::FindNode;
    msg.target_id = Some(Hash256::from_bytes(&[3u8; 32]));
    assert_eq!(storage.handle_storage_message(&msg, false, 2), StorageMessageOutcome::ClosestNodes(0));
    msg.message_type = DhtMessageType::Pong;
    assert_eq!(storage.handle_storage_message(&msg, false, 2), StorageMessageOutcome::Ignored);
}

#[test]
fn known_nodes_follow_the_routing_table() {
    let local = Hash256::from_bytes(&[1u8; 32]);
    let mut storage = DhtStorage::new(local, 100);
    let node = DhtNode {
        id: Hash256::from_bytes(&[2u8; 32]),
        addresses: vec!["127.0.0.1:1".to_string()],
        public_key: vec![],
        last_seen: 0,
        reputation: 1,
    };
    storage.add_dht_node_at(node.clone(), 10).unwrap();
    let mut again = node.clone();
    again.reputation = 2;
    storage.add_dht_node_at(again, 11).unwrap();
    let known = storage.get_known_nodes();
    assert_eq!(known.len(), 1);
    assert_eq!(known[0].reputation, 2);
    assert_eq!(storage.get_routing_stats().total_nodes, 1);
    let me = DhtNode { id: local, ..node };
    assert!(storage.add_dht_node_at(me, 12).is_err());
    assert_eq!(storage.find_closest_nodes(&Hash256::from_bytes(&[2u8; 32]), 4).len(), 1);
}

#[test]
fn store_refuses_before_reading_the_clock() {
    let mut storage = DhtStorage::new(Hash256::from_bytes(&[1u8; 32]), 300);
    assert_eq!(storage.store(String::new(), b"v".to_vec(), None, false, false), Err(StorageError::InvalidKey));
    assert_eq!(storage.store("k".to_string(), vec![], None, false, false), Err(StorageError::EmptyValue));
    assert_eq!(storage.store("admin".to_string(), b"v".to_vec(), None, false, false), Err(StorageError::ReservedKey));
    assert_eq!(storage.store("k".to_string(), vec![1u8; 45], None, false, false), Err(StorageError::CapacityExceeded));
    assert_eq!(storage.store("private:k".to_string(), b"v".to_vec(), None, false, false), Err(StorageError::ProofRequired));
    assert_eq!(storage.get_storage_stats().total_entries, 0);
}

#[test]
fn get_of_an_unknown_key_is_nothing() {
    let mut storage = DhtStorage::new(Hash256::from_bytes(&[1u8; 32]), 1 << 20);
    assert_eq!(storage.get("absent"), Ok(None));
    storage.store("present".to_string(), b"v".to_vec(), None, false, false).unwrap();
    assert_eq!(storage.get("absent"), Ok(None));
    assert_eq!(storage.get("present"), Ok(Some(b"v".to_vec())));
}
