use qvod::routing::{closest_entries, sort_by_distance, InsertResult, KBucket, RoutingTable, K};
use qvod::types::{IpAddress, KBucketEntry, NodeId, SocketAddress};
use qvod::util::{current_time_millis, generate_node_id};

fn make_entry(node_id: NodeId) -> KBucketEntry {
    KBucketEntry {
        node_id,
        addr: SocketAddress { ip: IpAddress::V4([127, 0, 0, 1]), port: 8621 },
        last_seen_ms: current_time_millis(),
        latency_ms: 10,
        is_firewalled: false,
    }
}

#[test]
fn test_bucket_insert() {
    let mut bucket = KBucket::new();
    assert!(!bucket.is_full());
    let id1 = NodeId([1u8; 20]);
    let result = bucket.insert(make_entry(id1));
    assert_eq!(result, InsertResult::Added);
    assert_eq!(bucket.len(), 1);
}

#[test]
fn test_bucket_full() {
    let mut bucket = KBucket::new();
    for i in 0..K {
        let mut id = [0u8; 20];
        id[0] = i as u8;
        bucket.insert(make_entry(NodeId(id)));
    }
    assert!(bucket.is_full());
    let new_id = NodeId([0xFF; 20]);
    let result = bucket.insert(make_entry(new_id));
    assert_eq!(result, InsertResult::Full);
}

#[test]
fn test_bucket_existing() {
    let mut bucket = KBucket::new();
    let id = NodeId([1u8; 20]);
    bucket.insert(make_entry(id));
    let result = bucket.insert(make_entry(id));
    assert_eq!(result, InsertResult::Existing);
}

#[test]
fn test_routing_table_insert_and_find() {
    let local = NodeId(generate_node_id());
    let mut table = RoutingTable::new(local);
    let target = NodeId(generate_node_id());
    table.insert(make_entry(target));

    let found = table.find_closest(&target, 5);
    assert!(!found.is_empty());
    assert_eq!(found[0].node_id, target);
}

#[test]
fn test_routing_table_size() {
    let local = NodeId(generate_node_id());
    let mut table = RoutingTable::new(local);
    for i in 0..10 {
        let mut id = [0u8; 20];
        id[0] = i;
        table.insert(make_entry(NodeId(id)));
    }
    assert_eq!(table.size(), 8);
}

#[test]
fn test_bucket_split() {
    let local = NodeId(generate_node_id());
    let mut table = RoutingTable::new(local);

    // Fill bucket 159 (where all typical entries land) to capacity
    for i in 0..K {
        let mut id = [0u8; 20];
        id[0] = (i % 256) as u8;
        id[1] = (i / 256) as u8;
        table.insert(make_entry(NodeId(id)));
    }

    // Add one more - should be Full since bucket can't split
    let extra = make_entry(NodeId([0xFF; 20]));
    let result = table.insert(extra);
    assert_eq!(result, InsertResult::Full);

    // can_split returns true for the local node's bucket only
    let local_idx = table.bucket_index(&local);
    assert!(table.can_split(local_idx));
    assert!(!table.can_split(159));
}

#[test]
fn test_refresh_list() {
    let local = NodeId(generate_node_id());
    let table = RoutingTable::new(local);
    let list = table.refresh_list();
    assert!(list.len() <= 160);
}

#[test]
fn bucket_existing_entry_moves_to_front() {
    let mut bucket = KBucket::new_at(1_000);
    for i in 1..4u8 {
        let mut e = make_entry(NodeId([i; 20]));
        e.last_seen_ms = 1_000;
        bucket.insert_at(e, 1_000);
    }
    let mut again = make_entry(NodeId([2u8; 20]));
    again.latency_ms = 77;
    assert_eq!(bucket.insert_at(again, 5_000), InsertResult::Existing);
    let ids: Vec<u8> = bucket.entries().iter().map(|e| e.node_id.0[0]).collect();
    assert_eq!(ids, vec![2, 3, 1]);
    assert_eq!(bucket.entries()[0].last_seen_ms, 5_000);
    assert_eq!(bucket.entries()[0].latency_ms, 77);
}

#[test]
fn bucket_replaces_first_stale_node_when_full() {
    let mut bucket = KBucket::new_at(0);
    for i in 0..K {
        let mut e = make_entry(NodeId([i as u8 + 1; 20]));
        e.last_seen_ms = if i == 3 || i == 5 { 0 } else { 950_000 };
        bucket.insert_at(e, 0);
    }
    let fresh = make_entry(NodeId([0xEE; 20]));
    // 950_000 - 0 > 900_000: entries 3 and 5 are stale, the first of them goes
    assert_eq!(bucket.insert_at(fresh, 950_000), InsertResult::Replaced);
    let ids: Vec<u8> = bucket.entries().iter().map(|e| e.node_id.0[0]).collect();
    assert_eq!(ids, vec![1, 2, 3, 5, 6, 7, 8, 0xEE]);
    // exactly 900_000 is not yet stale
    let mut bucket2 = KBucket::new_at(0);
    for i in 0..K {
        let mut e = make_entry(NodeId([i as u8 + 1; 20]));
        e.last_seen_ms = 100;
        bucket2.insert_at(e, 0);
    }
    assert_eq!(bucket2.insert_at(make_entry(NodeId([0xEE; 20])), 900_100), InsertResult::Full);
}

#[test]
fn bucket_find_closest_orders_by_distance() {
    let mut bucket = KBucket::new_at(0);
    for b in [0x80u8, 0x01, 0x10, 0x03] {
        let mut id = [0u8; 20];
        id[0] = b;
        bucket.insert_at(make_entry(NodeId(id)), 0);
    }
    let target = NodeId([0u8; 20]);
    let found = bucket.find_closest(&target, 3);
    let firsts: Vec<u8> = found.iter().map(|e| e.node_id.0[0]).collect();
    assert_eq!(firsts, vec![0x01, 0x03, 0x10]);
    assert_eq!(bucket.find_closest(&target, 10).len(), 4);
}

#[test]
fn bucket_remove_and_split() {
    let mut bucket = KBucket::new_at(0);
    for b in [0x80u8, 0x01, 0xC0] {
        let mut id = [0u8; 20];
        id[0] = b;
        bucket.insert_at(make_entry(NodeId(id)), 0);
    }
    let local = NodeId([0u8; 20]);
    let mut copy = bucket.clone();
    let (left, right) = copy.split_at(&local, 0, 42);
    let l: Vec<u8> = left.entries().iter().map(|e| e.node_id.0[0]).collect();
    let r: Vec<u8> = right.entries().iter().map(|e| e.node_id.0[0]).collect();
    assert_eq!(l, vec![0x01]);
    assert_eq!(r, vec![0x80, 0xC0]);
    assert_eq!(left.get_last_refreshed(), 42);
    assert_eq!(copy.len(), 0);
    let mut id = [0u8; 20];
    id[0] = 0x01;
    bucket.remove(&NodeId(id));
    assert_eq!(bucket.len(), 2);
}

#[test]
fn table_buckets_and_refresh() {
    let local = NodeId([7u8; 20]);
    let mut table = RoutingTable::new_at(local, 0);
    assert_eq!(table.buckets().len(), 160);
    assert_eq!(table.bucket_index(&local), 0);
    assert_eq!(table.bucket_index(&NodeId([8u8; 20])), 159);
    assert_eq!(table.refresh_list_at(900_000).len(), 0);
    assert_eq!(table.refresh_list_at(900_001).len(), 160);
    table.mark_refreshed_at(3, 500_000);
    let due = table.refresh_list_at(1_000_000);
    assert_eq!(due.len(), 159);
    assert!(!due.contains(&3));
    let e = make_entry(NodeId([9u8; 20]));
    table.insert_at(e, 0);
    assert_eq!(table.size(), 1);
    table.remove(&NodeId([9u8; 20]));
    assert_eq!(table.size(), 0);
    assert!(table.split_bucket_at(0, 0));
    assert_eq!(table.buckets().len(), 161);
    assert!(!table.split_bucket_at(500, 0));
    assert_eq!(*table.local_id(), local);
}

#[test]
fn nearest_first_and_ties_keep_their_order() {
    let at = |id: u8, port: u16| KBucketEntry {
        node_id: NodeId([id; 20]),
        addr: SocketAddress { ip: IpAddress::V4([10, 0, 0, id]), port },
        last_seen_ms: 0,
        latency_ms: 0,
        is_firewalled: false,
    };
    let v = vec![at(9, 1), at(1, 2), at(4, 3), at(1, 4)];
    let target = NodeId([0; 20]);
    let sorted = sort_by_distance(&v, &target);
    let ports: Vec<u16> = sorted.iter().map(|e| e.addr.port).collect();
    assert_eq!(ports, vec![2, 4, 3, 1]);
    let two = closest_entries(&v, &target, 2);
    assert_eq!(two.iter().map(|e| e.addr.port).collect::<Vec<u16>>(), vec![2, 4]);
    assert_eq!(closest_entries(&v, &target, 10).len(), 4);
}
