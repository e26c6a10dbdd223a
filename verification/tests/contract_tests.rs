use lib_storage::contracts::{
    measurement_violation, ContractError, ContractManager, ContractStatus, ContractTerms, ErasureCodingParams, Measurement,
    PaymentStatus, PaymentTerms, SignerType, SlaViolationType, ViolationSeverity,
};
use lib_storage::types::{Hash256, StorageTier};

fn terms(duration: u64) -> ContractTerms {
    ContractTerms {
        storage_size: 1024 * 1024 * 1024,
        duration,
        tier: StorageTier::Cold,
        replication_factor: 3,
        geographic_requirements: vec!["US".to_string()],
        erasure_coding: ErasureCodingParams { data_shards: 4, parity_shards: 2, threshold: 3 },
        provider_nodes: vec!["test_provider".to_string()],
    }
}

fn payment(total_amount: u64) -> PaymentTerms {
    PaymentTerms { total_amount, paid_amount: 0, status: PaymentStatus::Pending }
}

#[test]
fn test_contract_creation() {
    let mut manager = ContractManager::new();

    let contract_id = manager
        .create_contract("client1".to_string(), "provider1".to_string(), terms(86400 * 30), payment(1000))
        .unwrap();

    assert!(manager.get_contract(&contract_id).is_some());
    assert_eq!(manager.get_contract(&contract_id).unwrap().status, ContractStatus::Draft);
    assert!(contract_id.starts_with("contract_"));
    assert_eq!(contract_id.len(), "contract_".len() + 36);
}

#[test]
fn contract_becomes_active_once_both_parties_sign() {
    let mut manager = ContractManager::new();
    let id = manager.create_contract_at("c".to_string(), "p".to_string(), terms(100), payment(0), "abc".to_string(), 1000).unwrap();
    assert_eq!(id, "contract_abc");
    let c = manager.get_contract(&id).unwrap();
    assert_eq!((c.created_at, c.expires_at), (1000, 1100));
    assert!(c.client_signature.is_none() && c.provider_signature.is_none() && c.witness_signatures.is_empty());

    manager.sign_contract_at(&id, SignerType::Witness, vec![9], 1001).unwrap();
    manager.sign_contract_at(&id, SignerType::Client, vec![1], 1002).unwrap();
    assert_eq!(manager.get_contract(&id).unwrap().status, ContractStatus::Draft);
    assert!(!manager.is_monitored(&id));
    assert!(manager.list_active_contracts().is_empty());

    manager.sign_contract_at(&id, SignerType::Provider, vec![2], 1003).unwrap();
    let c = manager.get_contract(&id).unwrap();
    assert_eq!(c.status, ContractStatus::Active);
    assert_eq!(c.witness_signatures, vec![vec![9u8]]);
    assert!(manager.is_monitored(&id));
    assert_eq!(manager.list_active_contracts().len(), 1);
}

#[test]
fn contract_errors() {
    let mut manager = ContractManager::new();
    assert_eq!(manager.sign_contract_at("nope", SignerType::Client, vec![1], 1), Err(ContractError::NotFound));
    assert_eq!(
        manager.create_contract_at("c".to_string(), "p".to_string(), terms(u64::MAX), payment(0), "x".to_string(), 1),
        Err(ContractError::ExpiryOverflow)
    );
    assert!(manager.get_contract("contract_x").is_none());
    manager.create_contract_at("c".to_string(), "p".to_string(), terms(5), payment(0), "x".to_string(), 1).unwrap();
    manager.create_contract_at("d".to_string(), "q".to_string(), terms(6), payment(0), "y".to_string(), 2).unwrap();
    assert_eq!(manager.get_contract("contract_x").unwrap().client_id, "c");
    assert_eq!(manager.get_contract("contract_y").unwrap().expires_at, 8);
}

#[test]
fn signing_without_activation_needs_no_clock() {
    let mut manager = ContractManager::new();
    assert_eq!(manager.sign_contract("contract_none", SignerType::Client, vec![1]), Err(ContractError::NotFound));
    let id = manager.create_contract_at("c".to_string(), "p".to_string(), terms(10), payment(0), "z".to_string(), 1).unwrap();
    assert_eq!(manager.sign_contract(&id, SignerType::Witness, vec![3]), Ok(()));
    assert_eq!(manager.sign_contract(&id, SignerType::Provider, vec![2]), Ok(()));
    assert_eq!(manager.get_contract(&id).unwrap().status, ContractStatus::Draft);
    assert!(!manager.is_monitored(&id));
    assert_eq!(manager.sign_contract(&id, SignerType::Client, vec![1]), Ok(()));
    assert_eq!(manager.get_contract(&id).unwrap().status, ContractStatus::Active);
    assert!(manager.is_monitored(&id));
}

#[test]
fn integer_measurements_against_the_sla() {
    let moderate = |t| Some((t, ViolationSeverity::Moderate));
    assert_eq!(measurement_violation(Measurement::Latency { read: 101, write: 0 }, 100, 10), moderate(SlaViolationType::LatencyViolation));
    assert_eq!(measurement_violation(Measurement::Latency { read: 100, write: 9999 }, 100, 10), None);
    assert_eq!(measurement_violation(Measurement::Throughput(9), 100, 10), moderate(SlaViolationType::ThroughputViolation));
    assert_eq!(measurement_violation(Measurement::Throughput(10), 100, 10), None);
}

#[test]
fn performance_updates_need_a_monitored_contract() {
    let mut manager = ContractManager::new();
    assert_eq!(manager.check_performance_update("contract_m"), Err(ContractError::MonitorNotFound));
    let id = manager.create_contract_at("c".to_string(), "p".to_string(), terms(10), payment(0), "m".to_string(), 1).unwrap();
    assert_eq!(manager.check_performance_update(&id), Err(ContractError::MonitorNotFound));
    manager.sign_contract_at(&id, SignerType::Client, vec![1], 2).unwrap();
    manager.sign_contract_at(&id, SignerType::Provider, vec![2], 3).unwrap();
    assert_eq!(manager.check_performance_update(&id), Ok(()));
}

#[test]
fn payments_look_contracts_up_by_hash_text() {
    let mut manager = ContractManager::new();
    let hash = Hash256::from_bytes(&[0xabu8; 32]);
    assert_eq!(manager.update_payment_status(&hash, 5), Err(ContractError::NotFound));
    // identifiers start with "contract_", so the hex text of a hash names none of them
    let id = manager.create_contract_at("c".to_string(), "p".to_string(), terms(10), payment(100), "ab".repeat(32), 1).unwrap();
    assert_eq!(manager.update_payment_status(&hash, 5), Err(ContractError::NotFound));
    assert_eq!(manager.get_contract(&id).unwrap().payment.paid_amount, 0);
}

#[test]
fn node_contract_count_and_statistics() {
    let mut manager = ContractManager::new();
    let node = Hash256::from_bytes(&[0x01u8; 32]);
    let mut t = terms(10);
    t.provider_nodes = vec!["01".repeat(32), "other".to_string()];
    t.storage_size = 7;
    manager.create_contract_at("c".to_string(), "p".to_string(), t, payment(40), "a".to_string(), 100).unwrap();
    let mut t = terms(1000);
    t.storage_size = 5;
    manager.create_contract_at("c".to_string(), "p".to_string(), t, payment(2), "b".to_string(), 100).unwrap();
    assert_eq!(manager.get_node_contract_count(&node), 1);
    assert_eq!(manager.get_node_contract_count(&Hash256::from_bytes(&[0x02u8; 32])), 0);
    let st = manager.get_statistics_at(500);
    assert_eq!(st.total_contracts, 2);
    assert_eq!(st.total_storage_under_contract, 12);
    assert_eq!(st.total_contract_value, 42);
    assert_eq!(st.active_contracts, 1);
    assert_eq!(st.expired_contracts, 1);
    assert_eq!(st.breached_contracts, 0);
    assert_eq!(manager.get_statistics().unwrap().total_contracts, 2);
}
