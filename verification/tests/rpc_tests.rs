use qvod::rpc::{
    DhtMessage, FindPeersResult, MessageHeader, MessageType, NodeInfo, MAGIC, PROTOCOL_VERSION,
};
use qvod::types::NodeId;

fn sample_header(msg_type: MessageType) -> MessageHeader {
    MessageHeader { magic: MAGIC, msg_type, txn_id: 1, ver: PROTOCOL_VERSION }
}

#[test]
fn test_ping_roundtrip() {
    let msg = DhtMessage::Ping { header: sample_header(MessageType::Ping), node_id: NodeId([1u8; 20]) };
    let encoded = msg.encode();
    let decoded = DhtMessage::decode(&encoded).unwrap();
    match decoded {
        DhtMessage::Ping { node_id, .. } => {
            assert_eq!(node_id.0, [1u8; 20]);
        }
        _ => panic!("wrong type"),
    }
}

#[test]
fn test_find_node_request_roundtrip() {
    let msg = DhtMessage::FindNode {
        header: sample_header(MessageType::FindNode),
        node_id: NodeId([1u8; 20]),
        target: NodeId([2u8; 20]),
    };
    let encoded = msg.encode();
    assert_eq!(encoded.len(), 8 + 20 + 20);
    let decoded = DhtMessage::decode(&encoded).unwrap();
    match decoded {
        DhtMessage::FindNode { node_id, target, .. } => {
            assert_eq!(node_id.0, [1u8; 20]);
            assert_eq!(target.0, [2u8; 20]);
        }
        other => panic!("wrong type: {:?}", other),
    }
}

#[test]
fn test_find_node_response_roundtrip() {
    let nodes = vec![
        NodeInfo { node_id: NodeId([1u8; 20]), ip: [192, 168, 1, 1], port: 8621 },
        NodeInfo { node_id: NodeId([2u8; 20]), ip: [10, 0, 0, 1], port: 6881 },
    ];
    let msg = DhtMessage::FindNodeResponse {
        header: sample_header(MessageType::FindNode),
        node_id: NodeId([3u8; 20]),
        nodes,
    };
    let encoded = msg.encode();
    let decoded = DhtMessage::decode(&encoded).unwrap();
    match decoded {
        DhtMessage::FindNodeResponse { nodes, .. } => {
            assert_eq!(nodes.len(), 2);
            assert_eq!(nodes[0].ip, [192, 168, 1, 1]);
            assert_eq!(nodes[1].ip, [10, 0, 0, 1]);
        }
        other => panic!("wrong type: {:?}", other),
    }
}

#[test]
fn test_invalid_magic() {
    let bad = vec![0u8; 8];
    let err = DhtMessage::decode(&bad).unwrap_err();
    assert!(err.message().contains("invalid magic"));
}

#[test]
fn test_announce_request_roundtrip() {
    let msg = DhtMessage::Announce {
        header: sample_header(MessageType::Announce),
        node_id: NodeId([1u8; 20]),
        info_hash: [2u8; 20],
        token: [0xAB, 0xCD, 0xEF, 0x01],
        port: 8621,
    };
    let encoded = msg.encode();
    let decoded = DhtMessage::decode(&encoded).unwrap();
    match decoded {
        DhtMessage::Announce { token, port, .. } => {
            assert_eq!(token, [0xAB, 0xCD, 0xEF, 0x01]);
            assert_eq!(port, 8621);
        }
        other => panic!("wrong type: {:?}", other),
    }
}

#[test]
fn test_announce_response_roundtrip() {
    let msg = DhtMessage::AnnounceResponse {
        header: sample_header(MessageType::Announce),
        node_id: NodeId([1u8; 20]),
    };
    let encoded = msg.encode();
    let decoded = DhtMessage::decode(&encoded).unwrap();
    match decoded {
        DhtMessage::AnnounceResponse { .. } => {}
        other => panic!("wrong type: {:?}", other),
    }
}

#[test]
fn test_find_peers_request_roundtrip() {
    let msg = DhtMessage::FindPeers {
        header: sample_header(MessageType::FindPeers),
        node_id: NodeId([1u8; 20]),
        info_hash: [2u8; 20],
    };
    let encoded = msg.encode();
    let decoded = DhtMessage::decode(&encoded).unwrap();
    match decoded {
        DhtMessage::FindPeers { node_id, info_hash, .. } => {
            assert_eq!(node_id.0, [1u8; 20]);
            assert_eq!(info_hash, [2u8; 20]);
        }
        other => panic!("wrong type: {:?}", other),
    }
}

#[test]
fn header_bytes_and_errors() {
    let msg = DhtMessage::Ping {
        header: MessageHeader { magic: [0; 4], msg_type: MessageType::Ping, txn_id: 0x1234, ver: 9 },
        node_id: NodeId([7u8; 20]),
    };
    let bytes = msg.encode();
    assert_eq!(&bytes[..8], &[0x51, 0x56, 0x44, 0x54, 0x00, 0x12, 0x34, 0x01]);
    assert_eq!(DhtMessage::decode(&bytes[..7]).unwrap_err().message(), "协议错误: header too short");
    let mut bad_type = bytes.clone();
    bad_type[4] = 9;
    assert_eq!(DhtMessage::decode(&bad_type).unwrap_err().message(), "协议错误: unknown msg type");
    let mut bad_ver = bytes.clone();
    bad_ver[7] = 2;
    assert_eq!(DhtMessage::decode(&bad_ver).unwrap_err().message(), "协议错误: unsupported version");
    assert_eq!(DhtMessage::decode(&bytes[..27]).unwrap_err().message(), "协议错误: ping too short");
    assert_eq!(MessageType::from_u8(3), Some(MessageType::Announce));
    assert_eq!(MessageType::from_u8(4), None);
}

#[test]
fn node_info_bytes() {
    let n = NodeInfo { node_id: NodeId([9u8; 20]), ip: [1, 2, 3, 4], port: 0x1234 };
    let b = n.encode();
    assert_eq!(b.len(), 26);
    assert_eq!(&b[20..], &[1, 2, 3, 4, 0x12, 0x34]);
    let (back, rest) = NodeInfo::decode(&b).unwrap();
    assert_eq!(back.port, 0x1234);
    assert!(rest.is_empty());
    assert!(NodeInfo::decode(&b[..25]).is_err());
}

#[test]
fn find_peers_response_is_read_as_count_limited() {
    let mut bytes = vec![0x51, 0x56, 0x44, 0x54, 0x02, 0, 1, 1];
    bytes.extend_from_slice(&[1u8; 20]);
    bytes.extend_from_slice(&[2u8; 20]);
    bytes.push(0x00);
    bytes.extend_from_slice(&[0, 5]);
    bytes.extend_from_slice(&[10, 0, 0, 1, 0x1A, 0xE1, 10, 0, 0, 2, 0x1A, 0xE2, 99]);
    match DhtMessage::decode(&bytes).unwrap() {
        DhtMessage::FindPeersResponse { values: FindPeersResult::Peers(p), .. } => {
            assert_eq!(p, vec![[10, 0, 0, 1, 0x1A, 0xE1], [10, 0, 0, 2, 0x1A, 0xE2]]);
        }
        other => panic!("wrong type: {:?}", other),
    }
    let msg = DhtMessage::AnnounceResponse { header: sample_header(MessageType::Announce), node_id: NodeId([1; 20]) };
    assert!(msg.is_response());
}
