use lib_storage::quorum::{QuorumConfig, QuorumError, QuorumManager, QuorumResult};

fn five_nodes() -> Vec<String> {
    vec![
        "node1".to_string(),
        "node2".to_string(),
        "node3".to_string(),
        "node4".to_string(),
        "node5".to_string(),
    ]
}

#[test]
fn test_quorum_config() {
    let config = QuorumConfig::new(5, 3, 3).unwrap();
    assert!(config.is_strongly_consistent());

    let config = QuorumConfig::new(5, 2, 2);
    assert!(config.is_err()); // r + w <= n
}

#[test]
fn test_majority_quorum() {
    let config = QuorumConfig::majority(5).unwrap();
    assert_eq!(config.r, 3);
    assert_eq!(config.w, 3);
    assert!(config.is_strongly_consistent());
}

#[test]
fn test_read_quorum() {
    let config = QuorumConfig::new(5, 3, 3).unwrap();
    let manager = QuorumManager::new(config, five_nodes()).unwrap();

    let responding = vec!["node1".to_string(), "node2".to_string(), "node3".to_string()];
    assert!(manager.check_read_quorum(&responding).is_met());

    let responding = vec!["node1".to_string(), "node2".to_string()];
    assert!(!manager.check_read_quorum(&responding).is_met());
}

#[test]
fn test_write_quorum() {
    let config = QuorumConfig::new(5, 3, 3).unwrap();
    let manager = QuorumManager::new(config, five_nodes()).unwrap();

    let responding = vec![
        "node1".to_string(),
        "node2".to_string(),
        "node3".to_string(),
        "node4".to_string(),
    ];
    assert!(manager.check_write_quorum(&responding).is_met());
}

#[test]
fn quorum_config_errors_in_order() {
    assert_eq!(QuorumConfig::new(5, 2, 3).unwrap_err(), QuorumError::NotStronglyConsistent);
    assert_eq!(QuorumConfig::new(0, 0, 1).unwrap_err(), QuorumError::ZeroQuorum);
    assert_eq!(QuorumConfig::new(3, 4, 1).unwrap_err(), QuorumError::QuorumExceedsReplicas);
    assert_eq!(QuorumConfig::majority(0).unwrap_err(), QuorumError::QuorumExceedsReplicas);
}

#[test]
fn read_and_write_heavy_sizes() {
    let c = QuorumConfig::read_heavy(9).unwrap();
    assert_eq!((c.n, c.r, c.w), (9, 4, 6));
    let c = QuorumConfig::write_heavy(9).unwrap();
    assert_eq!((c.n, c.r, c.w), (9, 6, 4));
    let c = QuorumConfig::majority(4).unwrap();
    assert_eq!((c.r, c.w), (3, 3));
    let c = QuorumConfig { n: 10, r: 5, w: 5 };
    assert!(!c.is_strongly_consistent());
}

#[test]
fn manager_rejects_wrong_node_count() {
    let config = QuorumConfig::new(5, 3, 3).unwrap();
    let err = QuorumManager::new(config, vec!["a".to_string()]).err().unwrap();
    assert_eq!(err, QuorumError::NodeCountMismatch);
}

#[test]
fn quorum_counts_distinct_members_only() {
    let config = QuorumConfig::new(5, 3, 3).unwrap();
    let manager = QuorumManager::new(config, five_nodes()).unwrap();
    let responding = vec![
        "node1".to_string(),
        "node1".to_string(),
        "stranger".to_string(),
        "node2".to_string(),
    ];
    let result = manager.check_read_quorum(&responding);
    assert_eq!(result, QuorumResult::NotMet { required: 3, actual: 2 });
    assert_eq!(result.required(), 3);
    assert_eq!(result.actual(), 2);
}

#[test]
fn read_and_write_quorums_share_a_node() {
    let config = QuorumConfig::new(5, 3, 3).unwrap();
    let manager = QuorumManager::new(config, five_nodes()).unwrap();
    let reads = vec!["node1".to_string(), "node2".to_string(), "node3".to_string()];
    let writes = vec!["node3".to_string(), "node4".to_string(), "node5".to_string()];
    assert!(manager.check_read_quorum(&reads).is_met());
    assert!(manager.check_write_quorum(&writes).is_met());
    assert!(reads.iter().any(|r| writes.contains(r)));
}

#[test]
fn manager_membership_changes() {
    let config = QuorumConfig::new(3, 2, 2).unwrap();
    let mut manager = QuorumManager::new(
        config,
        vec!["a".to_string(), "b".to_string(), "b".to_string()],
    )
    .unwrap();
    assert_eq!(manager.node_count(), 2);
    manager.add_node("c".to_string());
    manager.add_node("c".to_string());
    assert_eq!(manager.node_count(), 3);
    assert!(manager.contains_node(&"c".to_string()));
    assert!(manager.remove_node(&"a".to_string()));
    assert!(!manager.remove_node(&"a".to_string()));
    assert!(!manager.contains_node(&"a".to_string()));
    let mut nodes = manager.nodes();
    nodes.sort();
    assert_eq!(nodes, vec!["b".to_string(), "c".to_string()]);
    assert_eq!(manager.config().r, 2);
}
