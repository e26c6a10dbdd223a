use lib_storage::routing::{random_id_seed_bytes, KademliaRouter, RoutingError};
use lib_storage::types::{DhtNode, Hash256};

fn node_with_id(bytes: [u8; 32], address: String) -> DhtNode {
    DhtNode {
        id: Hash256::from_bytes(&bytes),
        addresses: vec![address],
        public_key: vec![],
        last_seen: 0,
        reputation: 1000,
    }
}

#[test]
fn test_router_creation() {
    let local_id = Hash256::from_bytes(&[1u8; 32]);
    let router = KademliaRouter::new(local_id, 20);

    assert_eq!(router.get_stats().total_buckets, 160);
    assert_eq!(router.get_k_value(), 20);
}

#[test]
fn test_distance_calculation() {
    let local_id = Hash256::from_bytes(&[1u8; 32]);
    let router = KademliaRouter::new(local_id, 20);

    let node_a = Hash256::from_bytes(&[1u8; 32]);
    let node_b = Hash256::from_bytes(&[2u8; 32]);

    let distance = router.calculate_distance(&node_a, &node_b);
    assert!(distance > 0);

    // Distance to self should be 0
    let self_distance = router.calculate_distance(&node_a, &node_a);
    assert_eq!(self_distance, 0);
}

#[test]
fn test_bucket_index() {
    let local_id = Hash256::from_bytes(&[1u8; 32]);
    let router = KademliaRouter::new(local_id, 20);
    let distance_0 = 0;
    let distance_10 = 10;
    let distance_200 = 200;

    assert_eq!(router.get_bucket_index(distance_0), 0);
    assert_eq!(router.get_bucket_index(distance_10), 10);
    assert_eq!(router.get_bucket_index(distance_200), 159); // Capped at 159
}

#[test]
fn test_add_node() {
    let local_id = Hash256::from_bytes(&[1u8; 32]);
    let mut router = KademliaRouter::new(local_id, 20);

    let test_node = node_with_id([2u8; 32], "127.0.0.1:33442".to_string());
    router.add_node(test_node).unwrap();

    let stats = router.get_stats();
    assert_eq!(stats.total_nodes, 1);
    assert_eq!(stats.non_empty_buckets, 1);
    assert_eq!(stats.k_value, 20);
    assert_eq!(stats.full_buckets, 0); // Not full yet
}

#[test]
fn test_k_value_functionality() {
    let local_id = Hash256::from_bytes(&[1u8; 32]);
    let k_value = 15;
    let router = KademliaRouter::new(local_id, k_value);

    assert_eq!(router.get_k_value(), k_value);

    // Test bucket full check
    assert!(!router.is_bucket_full(0)); // Empty bucket

    // No bucket is full yet, so the utilization is 0
    assert_eq!(router.get_stats().full_buckets, 0);
}

#[test]
fn test_k_bucket_limits() {
    let local_id = Hash256::from_bytes(&[1u8; 32]);
    let k_value = 3; // Small k for testing
    let mut router = KademliaRouter::new(local_id, k_value);

    // Add k+1 nodes to same bucket
    for i in 2..6u8 {
        let mut node_bytes = [1u8; 32];
        node_bytes[31] = i; // Small distance variation
        let test_node = node_with_id(node_bytes, format!("127.0.0.1:{}", 33440 + i as u16));
        router.add_node(test_node).unwrap();
    }

    let stats = router.get_stats();
    assert!(stats.total_nodes <= k_value); // Should not exceed k per bucket
}

#[test]
fn test_closest_nodes_k_limit() {
    let local_id = Hash256::from_bytes(&[1u8; 32]);
    let k_value = 5;
    let router = KademliaRouter::new(local_id, k_value);

    let target = Hash256::from_bytes(&[2u8; 32]);

    // Request more nodes than k allows
    let closest = router.find_closest_nodes(&target, 20);
    assert!(closest.len() <= k_value); // Should be limited by k
}

#[test]
fn test_bucket_maintenance() {
    let local_id = Hash256::from_bytes(&[1u8; 32]);
    let mut router = KademliaRouter::new(local_id, 20);

    let test_node = node_with_id([2u8; 32], "127.0.0.1:33442".to_string());
    router.add_node(test_node.clone()).unwrap();

    // Mark node as failed multiple times
    for _ in 0..5 {
        router.mark_node_failed(&test_node.id);
    }

    // Perform maintenance
    let removed = router.perform_bucket_maintenance(3);
    assert_eq!(removed, 1); // Should remove the failed node

    let stats = router.get_stats();
    assert_eq!(stats.total_nodes, 0);
}

#[test]
fn test_random_id_generation() {
    let local_id = Hash256::from_bytes(&[1u8; 32]);
    let router = KademliaRouter::new(local_id, 20);

    // Generate random IDs for different buckets
    let id_bucket_0 = router.generate_random_id_for_bucket(0);
    let id_bucket_10 = router.generate_random_id_for_bucket(10);

    // IDs should be different
    assert_ne!(id_bucket_0, id_bucket_10);

    let distance_0 = router.calculate_distance(&local_id, &id_bucket_0);
    let distance_10 = router.calculate_distance(&local_id, &id_bucket_10);
    println!("Distance 0: {}, Distance 10: {}", distance_0, distance_10);
}

#[test]
fn test_bucket_refresh() {
    let local_id = Hash256::from_bytes(&[1u8; 32]);
    let created = 1_000_000u64;
    let router = KademliaRouter::new_at(local_id, 20, created);

    // A new router needs no refresh with a one-hour interval
    let long_interval_check = router.get_buckets_needing_refresh_at(3600, created);
    assert_eq!(long_interval_check.len(), 0, "New router should have no buckets needing refresh with 1-hour interval");

    // Two seconds later, every bucket needs a refresh with a one-second interval
    let one_second_check = router.get_buckets_needing_refresh_at(1, created + 2);
    assert!(one_second_check.len() > 0, "After 2 seconds, buckets should need refresh with 1-second interval");
    assert_eq!(one_second_check.len(), 160, "All 160 buckets should need refresh");
    for &bucket_index in &one_second_check {
        assert!(bucket_index < 160, "Bucket index should be within valid range");
    }
}

#[test]
fn distance_is_first_differing_bit() {
    let router = KademliaRouter::new_at(Hash256::from_bytes(&[0u8; 32]), 20, 0);
    let a = Hash256::from_bytes(&[0u8; 32]);
    let mut b_bytes = [0u8; 32];
    b_bytes[0] = 0x80;
    assert_eq!(router.calculate_distance(&a, &Hash256::from_bytes(&b_bytes)), 7);
    b_bytes[0] = 0x01;
    // only identical identifiers are at distance 0
    assert_eq!(router.calculate_distance(&a, &Hash256::from_bytes(&b_bytes)), 1);
    let mut c_bytes = [0u8; 32];
    c_bytes[3] = 0x10;
    assert_eq!(router.calculate_distance(&a, &Hash256::from_bytes(&c_bytes)), 28);
    // symmetric
    assert_eq!(router.calculate_distance(&Hash256::from_bytes(&c_bytes), &a), 28);
}

#[test]
fn local_node_is_refused() {
    let local_id = Hash256::from_bytes(&[7u8; 32]);
    let mut router = KademliaRouter::new_at(local_id, 4, 10);
    let err = router.add_node_at(node_with_id([7u8; 32], "a".to_string()), 11);
    assert_eq!(err, Err(RoutingError::LocalNode));
    assert_eq!(router.get_stats().total_nodes, 0);
}

#[test]
fn full_bucket_replaces_only_failing_least_recent_node() {
    let local_id = Hash256::from_bytes(&[0u8; 32]);
    let mut router = KademliaRouter::new_at(local_id, 2, 0);
    let mut ids = Vec::new();
    for i in 1..=3u8 {
        let mut bytes = [0u8; 32];
        bytes[0] = 0x80;
        bytes[31] = i;
        ids.push(bytes);
    }
    router.add_node_at(node_with_id(ids[0], "a".to_string()), 100).unwrap();
    router.add_node_at(node_with_id(ids[1], "b".to_string()), 200).unwrap();
    // bucket 7 is full: the third node is dropped
    router.add_node_at(node_with_id(ids[2], "c".to_string()), 300).unwrap();
    assert!(router.is_bucket_full(7));
    let nodes: Vec<[u8; 32]> = router.get_bucket_nodes(7).iter().map(|n| *n.id.as_bytes()).collect();
    assert_eq!(nodes, vec![ids[0], ids[1]]);
    // the least recently seen node fails 4 times: it is replaced
    for _ in 0..4 {
        router.mark_node_failed(&Hash256::from_bytes(&ids[0]));
    }
    router.add_node_at(node_with_id(ids[2], "c".to_string()), 400).unwrap();
    let nodes: Vec<[u8; 32]> = router.get_bucket_nodes(7).iter().map(|n| *n.id.as_bytes()).collect();
    assert_eq!(nodes, vec![ids[2], ids[1]]);
    // a responsive node is kept by maintenance
    router.mark_node_responsive_at(&Hash256::from_bytes(&ids[1]), 500);
    assert_eq!(router.perform_bucket_maintenance(0), 0);
    router.remove_node(&Hash256::from_bytes(&ids[1]));
    assert_eq!(router.get_stats().total_nodes, 1);
    assert!(router.get_bucket_nodes(200).is_empty());
}

#[test]
fn closest_nodes_are_sorted_by_distance() {
    let local_id = Hash256::from_bytes(&[0u8; 32]);
    let mut router = KademliaRouter::new_at(local_id, 20, 0);
    let mut far = [0u8; 32];
    far[0] = 0x60; // bucket 6, distance 5 to the target below
    let mut near = [0u8; 32];
    near[0] = 0x41; // bucket 6, distance 0 to the target below
    let mut other = [0u8; 32];
    other[1] = 0x01; // bucket 8
    router.add_node_at(node_with_id(far, "far".to_string()), 1).unwrap();
    router.add_node_at(node_with_id(other, "other".to_string()), 1).unwrap();
    router.add_node_at(node_with_id(near, "near".to_string()), 1).unwrap();
    let mut target = [0u8; 32];
    target[0] = 0x41;
    let closest = router.find_closest_nodes(&Hash256::from_bytes(&target), 3);
    let got: Vec<String> = closest.iter().map(|n| n.addresses[0].clone()).collect();
    assert_eq!(got, vec!["near".to_string(), "far".to_string(), "other".to_string()]);
    let two = router.find_closest_nodes(&Hash256::from_bytes(&target), 2);
    assert_eq!(two.len(), 2);
    assert_eq!(two[0].addresses[0], "near");
}

#[test]
fn random_id_seed_flips_the_bucket_bit() {
    let local_id = Hash256::from_bytes(&[0u8; 32]);
    let seed = random_id_seed_bytes(&local_id, 10, 0x0102);
    let mut expected = vec![0u8; 32];
    expected[1] = 0x20;
    expected[24] = 0x02;
    expected[25] = 0x01;
    assert_eq!(seed, expected);
    let router = KademliaRouter::new_at(local_id, 20, 0);
    let id = router.random_id_for_bucket_at(10, 0x0102);
    assert_eq!(id.as_bytes(), blake3::hash(&expected).as_bytes());
    assert!(!router.should_split_bucket(0));
}

#[test]
fn closest_nodes_are_the_nearest_of_the_table() {
    let local_id = Hash256::from_bytes(&[0u8; 32]);
    let mut router = KademliaRouter::new_at(local_id, 20, 0);
    let mut e = [0u8; 32];
    e[0] = 0x80;
    e[1] = 1;
    let mut d = [0u8; 32];
    d[1] = 5;
    router.add_node_at(node_with_id(e, "E".to_string()), 1).unwrap();
    router.add_node_at(node_with_id(d, "D".to_string()), 1).unwrap();
    let mut target = [0u8; 32];
    target[0] = 0x80;
    let closest = router.find_closest_nodes(&Hash256::from_bytes(&target), 1);
    assert_eq!(closest.len(), 1);
    assert_eq!(closest[0].addresses[0], "D");
}

#[test]
fn responsive_unknown_node_changes_nothing() {
    let mut router = KademliaRouter::new_at(Hash256::from_bytes(&[0u8; 32]), 20, 0);
    let mut known = [0u8; 32];
    known[0] = 0x80;
    router.add_node_at(node_with_id(known, "k".to_string()), 10).unwrap();
    router.mark_node_failed(&Hash256::from_bytes(&known));
    let mut unknown = known;
    unknown[31] = 1;
    assert_eq!(router.mark_node_responsive(&Hash256::from_bytes(&unknown)), Ok(()));
    assert_eq!(router.failed_attempts(&Hash256::from_bytes(&unknown)), None);
    assert_eq!(router.failed_attempts(&Hash256::from_bytes(&known)), Some(1));
    assert_eq!(router.mark_node_responsive(&Hash256::from_bytes(&known)), Ok(()));
    assert_eq!(router.failed_attempts(&Hash256::from_bytes(&known)), Some(0));
}
