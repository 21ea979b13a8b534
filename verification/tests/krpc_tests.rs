use qvod::dht_node::{check_seeds, search_outcome, DhtConfig, NodeLookup};
use qvod::error::QvodError;
use qvod::krpc::{KademliaRpc, PeerSearch, MAX_PEERS_PER_HASH};
use qvod::routing::RoutingTable;
use qvod::rpc::{DhtMessage, FindPeersResult, MessageHeader, MessageType, NodeInfo, MAGIC, PROTOCOL_VERSION};
use qvod::token::TokenManager;
use qvod::types::{InfoHash, IpAddress, KBucketEntry, NodeId, SocketAddress};
use qvod::util::generate_node_id;

fn test_addr() -> SocketAddress {
    SocketAddress { ip: IpAddress::V4([192, 168, 1, 1]), port: 8621 }
}

fn header(t: MessageType, txn: u16) -> MessageHeader {
    MessageHeader { magic: MAGIC, msg_type: t, txn_id: txn, ver: PROTOCOL_VERSION }
}

fn entry(b: u8, port: u16) -> KBucketEntry {
    KBucketEntry {
        node_id: NodeId([b; 20]),
        addr: SocketAddress { ip: IpAddress::V4([10, 0, 0, b]), port },
        last_seen_ms: 0,
        latency_ms: 0,
        is_firewalled: false,
    }
}

#[test]
fn test_handle_ping() {
    let local_id = NodeId(generate_node_id());
    let routing_table = RoutingTable::new(local_id);
    let token_manager = TokenManager::new();
    let mut rpc = KademliaRpc::new(routing_table, token_manager);

    let msg = DhtMessage::Ping { header: header(MessageType::Ping, 1), node_id: NodeId([1u8; 20]) };

    let response = rpc.handle_message(&msg, test_addr()).unwrap();
    assert!(response.is_some());
    match response.unwrap() {
        DhtMessage::PingResponse { .. } => {}
        _ => panic!("expected ping response"),
    }
}

#[test]
fn test_handle_announce_valid_token() {
    let local_id = NodeId(generate_node_id());
    let routing_table = RoutingTable::new(local_id);
    let token_manager = TokenManager::new();
    let addr = test_addr();
    let token = token_manager.generate_token(&addr);
    let mut rpc = KademliaRpc::new(routing_table, token_manager);

    let msg = DhtMessage::Announce {
        header: header(MessageType::Announce, 1),
        node_id: NodeId([1u8; 20]),
        info_hash: [2u8; 20],
        token,
        port: 8621,
    };

    let response = rpc.handle_message(&msg, addr).unwrap();
    assert!(response.is_some());
}

#[test]
fn announce_records_peers_and_find_peers_returns_them() {
    let local = NodeId([9u8; 20]);
    let mut table = RoutingTable::new_at(local, 0);
    table.insert_at(entry(1, 7000), 0);
    let tm = TokenManager::from_secrets([5u8; 16], [6u8; 16], 0);
    let sender = test_addr();
    let token = tm.generate_token(&sender);
    let mut rpc = KademliaRpc::new(table, tm);

    let bad = DhtMessage::Announce {
        header: header(MessageType::Announce, 3),
        node_id: NodeId([1u8; 20]),
        info_hash: [2u8; 20],
        token: [token[0] ^ 1, token[1], token[2], token[3]],
        port: 9000,
    };
    match rpc.handle_message(&bad, sender) {
        Err(QvodError::Protocol(m)) => assert_eq!(m, "invalid announce token"),
        _ => panic!("expected refusal"),
    }
    assert!(rpc.get_peers(&InfoHash([2u8; 20])).is_empty());

    let good = DhtMessage::Announce {
        header: header(MessageType::Announce, 4),
        node_id: NodeId([1u8; 20]),
        info_hash: [2u8; 20],
        token,
        port: 9000,
    };
    match rpc.handle_message(&good, sender).unwrap().unwrap() {
        DhtMessage::AnnounceResponse { header: h, node_id } => {
            assert_eq!(h.txn_id, 4);
            assert_eq!(node_id, local);
        }
        _ => panic!("expected announce response"),
    }
    let peers = rpc.get_peers(&InfoHash([2u8; 20]));
    assert_eq!(peers.len(), 1);
    assert_eq!(peers[0].addr, SocketAddress { ip: IpAddress::V4([192, 168, 1, 1]), port: 9000 });

    let ask = DhtMessage::FindPeers { header: header(MessageType::FindPeers, 5), node_id: NodeId([1u8; 20]), info_hash: [2u8; 20] };
    match rpc.handle_message(&ask, sender).unwrap().unwrap() {
        DhtMessage::FindPeersResponse { values: FindPeersResult::Peers(cs), .. } => {
            assert_eq!(cs, vec![[192, 168, 1, 1, 0x23, 0x28]]);
        }
        _ => panic!("expected peers"),
    }
    let ask_other = DhtMessage::FindPeers { header: header(MessageType::FindPeers, 6), node_id: NodeId([1u8; 20]), info_hash: [3u8; 20] };
    match rpc.handle_message(&ask_other, sender).unwrap().unwrap() {
        DhtMessage::FindPeersResponse { values: FindPeersResult::Nodes(ns), .. } => {
            assert_eq!(ns.len(), 1);
            assert_eq!(ns[0].ip, [10, 0, 0, 1]);
            assert_eq!(ns[0].port, 7000);
        }
        _ => panic!("expected nodes"),
    }
    let unhandled = DhtMessage::PingResponse { header: header(MessageType::Ping, 1), node_id: local };
    match rpc.handle_message(&unhandled, sender) {
        Err(QvodError::Protocol(m)) => assert_eq!(m, "unhandled message"),
        _ => panic!("expected refusal"),
    }
}

#[test]
fn peers_per_hash_are_capped() {
    let mut rpc = KademliaRpc::new(RoutingTable::new_at(NodeId([9u8; 20]), 0), TokenManager::from_secrets([1u8; 16], [1u8; 16], 0));
    for i in 0..60u16 {
        let sender = SocketAddress { ip: IpAddress::V4([1, 2, 3, 4]), port: 1000 + i };
        let token = rpc.token_manager().generate_token(&sender);
        let msg = DhtMessage::Announce { header: header(MessageType::Announce, 0), node_id: NodeId([1u8; 20]), info_hash: [7u8; 20], token, port: i };
        rpc.handle_message(&msg, sender).unwrap();
    }
    assert_eq!(rpc.get_peers(&InfoHash([7u8; 20])).len(), MAX_PEERS_PER_HASH);
}

#[test]
fn find_node_answers_nearest_nodes() {
    let local = NodeId([0x80u8; 20]);
    let mut table = RoutingTable::new_at(local, 0);
    for b in 1..12u8 {
        table.insert_at(entry(b, 100 + b as u16), 0);
    }
    let mut rpc = KademliaRpc::new(table, TokenManager::from_secrets([1u8; 16], [2u8; 16], 0));
    assert_eq!(rpc.routing_table_size(), 8);
    let msg = DhtMessage::FindNode { header: header(MessageType::FindNode, 9), node_id: NodeId([1u8; 20]), target: NodeId([3u8; 20]) };
    match rpc.handle_message(&msg, test_addr()).unwrap().unwrap() {
        DhtMessage::FindNodeResponse { header: h, nodes, .. } => {
            assert_eq!(h.txn_id, 9);
            assert_eq!(h.msg_type, MessageType::FindNode);
            assert_eq!(nodes.len(), 8);
            assert_eq!(nodes[0].node_id, NodeId([3u8; 20]));
            assert_eq!(nodes[1].node_id, NodeId([2u8; 20]));
        }
        _ => panic!("expected nodes"),
    }
}

#[test]
fn peer_search_rounds() {
    let local = NodeId([0x80u8; 20]);
    let mut table = RoutingTable::new_at(local, 0);
    assert!(matches!(
        KademliaRpc::new(RoutingTable::new_at(local, 0), TokenManager::from_secrets([1u8; 16], [2u8; 16], 0))
            .start_peer_search(&InfoHash([1u8; 20]), 3),
        Err(QvodError::DhtRoutingFailed(_))
    ));
    for b in 1..4u8 {
        table.insert_at(entry(b, 100), 0);
    }
    let mut rpc = KademliaRpc::new(table, TokenManager::from_secrets([1u8; 16], [2u8; 16], 0));
    let mut search: PeerSearch = rpc.start_peer_search(&InfoHash([1u8; 20]), 2).unwrap();
    let ask = search.next_round_queries();
    assert_eq!(ask.len(), 2);
    assert_eq!(ask[0].node_id, NodeId([1u8; 20]));
    for e in &ask {
        search.mark_queried(e.addr);
    }
    let nodes = DhtMessage::FindNodeResponse {
        header: header(MessageType::FindNode, 0),
        node_id: NodeId([1u8; 20]),
        nodes: vec![
            NodeInfo { node_id: NodeId([5u8; 20]), ip: [10, 0, 0, 5], port: 100 },
            NodeInfo { node_id: NodeId([6u8; 20]), ip: [10, 0, 0, 1], port: 100 },
        ],
    };
    assert!(rpc.absorb_peer_response_at(&mut search, &nodes, 0).is_none());
    assert_eq!(search.shortlist().len(), 4);
    assert!(search.end_round());
    let peers = DhtMessage::FindPeersResponse {
        header: header(MessageType::FindPeers, 0),
        node_id: NodeId([1u8; 20]),
        values: FindPeersResult::Peers(vec![[1, 2, 3, 4, 0x1f, 0x90]]),
    };
    let found = rpc.absorb_peer_response_at(&mut search, &peers, 0).unwrap();
    assert_eq!(found.peers.len(), 1);
    assert_eq!(found.peers[0].addr.port, 8080);
    assert_eq!(rpc.get_peers(&InfoHash([1u8; 20])).len(), 1);
    match search_outcome(Ok(found)) {
        Ok(p) => assert_eq!(p.len(), 1),
        Err(_) => panic!("expected peers"),
    }
    let done = rpc.finish_peer_search_at(search, 0);
    assert!(done.peers.is_empty());
    assert_eq!(done.closest_nodes.len(), 4);
    assert_eq!(rpc.routing_table_size(), 4);
    assert!(matches!(search_outcome(Ok(done)), Err(QvodError::NoPeers)));
}

#[test]
fn node_lookup_and_config() {
    let c = DhtConfig::default();
    assert_eq!(c.listen_port, 8621);
    assert_eq!(c.k, 8);
    assert_eq!(c.alpha, 3);
    assert!(c.seed_nodes.is_empty());
    assert!(matches!(check_seeds(&[]), Err(QvodError::DhtRoutingFailed(_))));
    assert!(check_seeds(&["a:1".to_string()]).is_ok());

    let local = NodeId([0x80u8; 20]);
    let mut table = RoutingTable::new_at(local, 0);
    let mut lookup = NodeLookup::new(local);
    assert!(lookup.next_round(&table).is_none());
    table.insert_at(entry(1, 100), 0);
    table.insert_at(entry(2, 100), 0);
    let ask = lookup.next_round(&table).unwrap();
    assert_eq!(ask.len(), 2);
    let q = lookup.query(&local);
    match q {
        DhtMessage::FindNode { header: h, target, .. } => {
            assert_eq!(h.txn_id, 0);
            assert_eq!(target, local);
        }
        _ => panic!("expected find node"),
    }
    let answer = DhtMessage::FindNodeResponse {
        header: header(MessageType::FindNode, 0),
        node_id: NodeId([1u8; 20]),
        nodes: vec![NodeInfo { node_id: NodeId([3u8; 20]), ip: [10, 0, 0, 3], port: 100 }],
    };
    lookup.absorb_answer_at(&mut table, &answer, 0);
    assert_eq!(table.size(), 3);
    assert!(lookup.end_round());
    assert_eq!(lookup.round(), 1);
    let again = lookup.next_round(&table).unwrap();
    assert_eq!(again.len(), 1);
    assert!(!lookup.end_round());
}

#[test]
fn datagrams_are_answered_with_encoded_replies() {
    let local_id = NodeId([7u8; 20]);
    let mut rpc = KademliaRpc::new(RoutingTable::new(local_id), TokenManager::new());
    let ping = DhtMessage::Ping { header: header(MessageType::Ping, 9), node_id: NodeId([1u8; 20]) };
    let answer = rpc.respond(&ping.encode(), test_addr()).expect("a ping is answered");
    // A ping answer is written like a ping: it reads back as one, carrying
    // the answering node's id.
    match DhtMessage::decode(&answer).expect("the answer reads") {
        DhtMessage::Ping { header, node_id } => {
            assert_eq!(header.txn_id, 9);
            assert_eq!(node_id, local_id);
        }
        _ => panic!("expected a ping answer"),
    }
    assert!(rpc.respond(&[1, 2, 3], test_addr()).is_none());
    let bad_announce = DhtMessage::Announce {
        header: header(MessageType::Announce, 1),
        node_id: NodeId([1u8; 20]),
        info_hash: [2u8; 20],
        token: [0, 0, 0, 0],
        port: 8621,
    };
    assert!(rpc.respond(&bad_announce.encode(), test_addr()).is_none());
    assert!(rpc.get_peers(&InfoHash([2u8; 20])).is_empty());
}
