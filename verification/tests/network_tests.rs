use lib_storage::network::{generate_message_id, handle_incoming_message, message_id_at, response_to};
use lib_storage::types::{DhtMessage, DhtMessageType, Hash256};

fn message(kind: DhtMessageType) -> DhtMessage {
    DhtMessage {
        message_id: "test_ping".to_string(),
        message_type: kind,
        sender_id: Hash256::from_bytes(&[2u8; 32]),
        target_id: Some(Hash256::from_bytes(&[1u8; 32])),
        key: Some("k".to_string()),
        value: None,
        nodes: None,
        timestamp: 12345,
        signature: None,
    }
}

#[test]
fn test_message_id_generation() {
    let id1 = generate_message_id();
    let id2 = generate_message_id();

    assert_ne!(id1, id2);
    assert!(!id1.is_empty());
    assert!(!id2.is_empty());
}

#[test]
fn test_ping_pong_response() {
    let local = Hash256::from_bytes(&[1u8; 32]);
    let response = handle_incoming_message(&local, message(DhtMessageType::Ping)).unwrap();

    assert!(response.is_some());
    if let Some(pong) = response {
        assert!(matches!(pong.message_type, DhtMessageType::Pong));
    }
}

#[test]
fn message_id_is_unpadded_hex() {
    assert_eq!(message_id_at(0x0123_4567_89ab_cdef), "123456789abcdef");
    assert_eq!(message_id_at(0xfedc_ba98_7654_3210), "fedcba9876543210");
    assert_eq!(message_id_at(255), "ff");
    assert_eq!(message_id_at(0), "0");
}

#[test]
fn non_requests_get_no_answer() {
    let local = Hash256::from_bytes(&[1u8; 32]);
    assert!(matches!(handle_incoming_message(&local, message(DhtMessageType::Pong)), Ok(None)));
    assert!(matches!(handle_incoming_message(&local, message(DhtMessageType::FindValueResponse)), Ok(None)));
}

#[test]
fn each_request_gets_its_answer() {
    let local = Hash256::from_bytes(&[1u8; 32]);
    let r = response_to(&local, message(DhtMessageType::FindValue), "id".to_string(), 9).unwrap();
    assert_eq!(r.message_type, DhtMessageType::FindValueResponse);
    assert_eq!(r.key, Some("k".to_string()));
    assert_eq!(r.nodes.map(|n| n.len()), Some(0));
    assert_eq!(r.target_id, Some(Hash256::from_bytes(&[2u8; 32])));
    assert_eq!(r.sender_id, local);
    assert_eq!(r.timestamp, 9);
    let r = response_to(&local, message(DhtMessageType::FindNode), "id".to_string(), 9).unwrap();
    assert_eq!(r.message_type, DhtMessageType::FindNodeResponse);
    assert_eq!(r.key, None);
    let r = response_to(&local, message(DhtMessageType::Store), "id".to_string(), 9).unwrap();
    assert_eq!(r.message_type, DhtMessageType::StoreResponse);
    assert!(response_to(&local, message(DhtMessageType::Pong), "id".to_string(), 9).is_none());
    assert!(response_to(&local, message(DhtMessageType::StoreResponse), "id".to_string(), 9).is_none());
}
