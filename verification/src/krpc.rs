//! Answers to DHT requests, the peers announced to this node, and the
//! decisions of an iterative peer search.
use vstd::prelude::*;

use crate::error::QvodError;
use crate::routing::{
    same_node, sort_by_distance, sorted_by_distance, bucket_index_of, closest_of, gather, table_ok, RoutingTable, TableModel, K, total_entries,
    refreshed_table, due_buckets,
};
use crate::rpc::{DhtMessage, FindPeersResult, MessageHeader, MessageType, NodeInfo, MAGIC, PROTOCOL_VERSION};
use crate::token::{token_valid, TokenManager, TokenModel};
use crate::types::{InfoHash, IpAddress, KBucketEntry, NodeId, PeerInfo, SocketAddress};

verus! {

/// The peer id recorded when a peer's own is not known.
pub const NO_PEER_ID: [u8; 20] = [
    0u8, 0u8, 0u8, 0u8, 0u8, 0u8, 0u8, 0u8, 0u8, 0u8, 0u8, 0u8, 0u8, 0u8, 0u8, 0u8, 0u8, 0u8, 0u8, 0u8,
];

/// Peers kept per file at most.
pub const MAX_PEERS_PER_HASH: usize = 50;

/// The header of the answer to a request with header `h`: same type and
/// transaction, this node's magic and version.
pub open spec fn reply_header(h: MessageHeader) -> MessageHeader {
    MessageHeader { magic: MAGIC, msg_type: h.msg_type, txn_id: h.txn_id, ver: PROTOCOL_VERSION }
}

/// The four address bytes of a version-4 address; zeros for version 6.
pub open spec fn ipv4_or_zero(ip: IpAddress) -> Seq<u8> {
    match ip {
        IpAddress::V4(o) => o@,
        IpAddress::V6(_) => seq![0u8, 0u8, 0u8, 0u8],
    }
}

/// How a routing entry is described to another node.
pub open spec fn node_info_of(e: KBucketEntry) -> NodeInfo {
    NodeInfo {
        node_id: e.node_id,
        ip: match e.addr.ip {
            IpAddress::V4(o) => o,
            IpAddress::V6(_) => [0u8, 0u8, 0u8, 0u8],
        },
        port: e.addr.port,
    }
}

/// The six compact bytes of a peer: address (zeros for version 6), then the
/// port, most significant byte first.
pub open spec fn compact_of(p: PeerInfo) -> Seq<u8> {
    ipv4_or_zero(p.addr.ip) + seq![(p.addr.port / 256) as u8, (p.addr.port % 256) as u8]
}

/// The peer recorded for an announce from `sender` for port `port`.
pub open spec fn announced_peer(sender: SocketAddress, port: u16) -> PeerInfo {
    PeerInfo {
        peer_id: NO_PEER_ID,
        addr: SocketAddress { ip: sender.ip, port },
        is_firewalled: false,
        bw_up: 0,
        bw_down: 0,
        location: None,
        latency_ms: 0,
    }
}

/// The peers recorded for info hash `h`.
pub open spec fn peers_for(ps: Seq<(Seq<u8>, Seq<PeerInfo>)>, h: Seq<u8>) -> Seq<PeerInfo> {
    if exists|i: int| 0 <= i < ps.len() && (#[trigger] ps[i]).0 == h {
        ps[choose|i: int| 0 <= i < ps.len() && (#[trigger] ps[i]).0 == h].1
    } else {
        Seq::empty()
    }
}

/// The routing table, the token manager, and the peers recorded per info hash.
pub struct RpcModel {
    pub table: TableModel,
    pub tokens: TokenModel,
    pub peers: Seq<(Seq<u8>, Seq<PeerInfo>)>,
}

/// A well-formed state: a well-formed table, each info hash recorded once,
/// and no more than `MAX_PEERS_PER_HASH` peers for any of them.
pub open spec fn rpc_ok(m: RpcModel) -> bool {
    &&& table_ok(m.table)
    &&& forall|i: int, j: int| 0 <= i < j < m.peers.len() ==> (#[trigger] m.peers[i]).0 != (#[trigger] m.peers[j]).0
    &&& forall|i: int| 0 <= i < m.peers.len() ==> (#[trigger] m.peers[i]).1.len() <= MAX_PEERS_PER_HASH
    &&& forall|i: int| 0 <= i < m.peers.len() ==> (#[trigger] m.peers[i]).0.len() == 20
}

/// `nodes` describes the `K` nodes of `t` nearest to `target`, nearest first.
pub open spec fn nearest_nodes(t: TableModel, target: NodeId, nodes: Seq<NodeInfo>) -> bool {
    exists|c: Seq<KBucketEntry>|
        #![trigger closest_of(gather(t.buckets, bucket_index_of(t.local, target), K as nat, 0, Seq::empty()), target, K as nat, c)]
        closest_of(gather(t.buckets, bucket_index_of(t.local, target), K as nat, 0, Seq::empty()), target, K as nat, c)
            && nodes == c.map_values(|e: KBucketEntry| node_info_of(e))
}

/// `cs` are the compact forms of `ps`, in order.
pub open spec fn compacts_of(ps: Seq<PeerInfo>, cs: Seq<[u8; 6]>) -> bool {
    &&& cs.len() == ps.len()
    &&& forall|i: int| 0 <= i < ps.len() ==> (#[trigger] cs[i])@ == compact_of(ps[i])
}

/// The peers recorded after an announce of `peer` for `h`: appended while
/// fewer than `MAX_PEERS_PER_HASH` are recorded.
pub open spec fn after_announce(ps: Seq<(Seq<u8>, Seq<PeerInfo>)>, h: Seq<u8>, peer: PeerInfo, g: Seq<u8>) -> Seq<PeerInfo> {
    if g == h {
        if peers_for(ps, h).len() < MAX_PEERS_PER_HASH {
            peers_for(ps, h).push(peer)
        } else {
            peers_for(ps, h)
        }
    } else {
        peers_for(ps, g)
    }
}

/// A copy of a peer record.
pub fn copy_peer(p: &PeerInfo) -> (r: PeerInfo)
    ensures
        r == *p,
{
    PeerInfo {
        peer_id: p.peer_id,
        addr: p.addr,
        is_firewalled: p.is_firewalled,
        bw_up: p.bw_up,
        bw_down: p.bw_down,
        location: match &p.location {
            Some(s) => Some(s.clone()),
            None => None,
        },
        latency_ms: p.latency_ms,
    }
}

/// Copies of the peer records, in order.
pub fn copy_peers(ps: &Vec<PeerInfo>) -> (r: Vec<PeerInfo>)
    ensures
        r@ == ps@,
{
    let mut r: Vec<PeerInfo> = Vec::new();
    let mut i: usize = 0;
    while i < ps.len()
        invariant
            i <= ps@.len(),
            r@ == ps@.take(i as int),
        decreases ps@.len() - i,
    {
        r.push(copy_peer(&ps[i]));
        assert(ps@.take(i + 1) =~= ps@.take(i as int).push(ps@[i as int]));
        i += 1;
    }
    assert(ps@.take(ps@.len() as int) =~= ps@);
    r
}

/// The description of a routing entry.
pub fn node_info_exec(e: &KBucketEntry) -> (n: NodeInfo)
    ensures
        n == node_info_of(*e),
{
    let ip = match e.addr.ip {
        IpAddress::V4(o) => o,
        IpAddress::V6(_) => [0u8, 0u8, 0u8, 0u8],
    };
    NodeInfo { node_id: e.node_id, ip, port: e.addr.port }
}

/// The descriptions of routing entries, in order.
pub fn node_infos(es: &Vec<KBucketEntry>) -> (r: Vec<NodeInfo>)
    ensures
        r@ == es@.map_values(|e: KBucketEntry| node_info_of(e)),
{
    let mut r: Vec<NodeInfo> = Vec::new();
    let mut i: usize = 0;
    while i < es.len()
        invariant
            i <= es@.len(),
            r@ == es@.take(i as int).map_values(|e: KBucketEntry| node_info_of(e)),
        decreases es@.len() - i,
    {
        r.push(node_info_exec(&es[i]));
        assert(es@.take(i + 1).map_values(|e: KBucketEntry| node_info_of(e)) =~= es@.take(i as int).map_values(
            |e: KBucketEntry| node_info_of(e),
        ).push(node_info_of(es@[i as int])));
        i += 1;
    }
    assert(es@.take(es@.len() as int) =~= es@);
    r
}

/// The compact bytes of a peer.
pub fn compact_peer(p: &PeerInfo) -> (c: [u8; 6])
    ensures
        c@ == compact_of(*p),
{
    let ip = match p.addr.ip {
        IpAddress::V4(o) => o,
        IpAddress::V6(_) => [0u8; 4],
    };
    let port = p.addr.port;
    let c: [u8; 6] = [ip[0], ip[1], ip[2], ip[3], (port / 256) as u8, (port % 256) as u8];
    assert(c@ =~= compact_of(*p));
    c
}

/// Serves DHT requests from a routing table, a token manager and a record of
/// announced peers.
pub struct KademliaRpc {
    routing_table: RoutingTable,
    token_manager: TokenManager,
    peers: Vec<([u8; 20], Vec<PeerInfo>)>,
}

impl View for KademliaRpc {
    type V = RpcModel;

    closed spec fn view(&self) -> RpcModel {
        RpcModel {
            table: self.routing_table@,
            tokens: self.token_manager@,
            peers: self.peers@.map_values(|p: ([u8; 20], Vec<PeerInfo>)| (p.0@, p.1@)),
        }
    }
}

/// What handling `msg` from `sender` does: the routing table and the tokens
/// stay; a valid announce records the peer; a ping, a node search, a peer
/// search and a valid announce are answered as the protocol says; an announce
/// with a bad token and any other message are refused.
pub open spec fn answered(
    before: RpcModel,
    after: RpcModel,
    msg: DhtMessage,
    sender: SocketAddress,
    r: Result<Option<DhtMessage>, QvodError>,
) -> bool {
    &&& after.table == before.table
    &&& after.tokens == before.tokens
    &&& match msg {
        DhtMessage::Announce { info_hash, token, port, .. } => token_valid(before.tokens, sender, token@)
            ==> forall|g: Seq<u8>| #[trigger] peers_for(after.peers, g) == after_announce(
                before.peers,
                info_hash@,
                announced_peer(sender, port),
                g,
            ),
        _ => after.peers == before.peers,
    }
    &&& match msg {
        DhtMessage::Ping { header, .. } => r == Ok::<Option<DhtMessage>, QvodError>(
            Some(DhtMessage::PingResponse { header: reply_header(header), node_id: before.table.local }),
        ),
        DhtMessage::FindNode { header, target, .. } => r matches Ok(
            Some(DhtMessage::FindNodeResponse { header: h, node_id: n, nodes }),
        ) && h == reply_header(header) && n == before.table.local && nearest_nodes(
            before.table,
            target,
            nodes@,
        ),
        DhtMessage::FindPeers { header, info_hash, .. } => if peers_for(before.peers, info_hash@).len() > 0 {
            r matches Ok(
                Some(DhtMessage::FindPeersResponse { header: h, node_id: n, values: FindPeersResult::Peers(cs) }),
            ) && h == reply_header(header) && n == before.table.local && compacts_of(
                peers_for(before.peers, info_hash@),
                cs@,
            )
        } else {
            r matches Ok(
                Some(DhtMessage::FindPeersResponse { header: h, node_id: n, values: FindPeersResult::Nodes(nodes) }),
            ) && h == reply_header(header) && n == before.table.local && nearest_nodes(
                before.table,
                NodeId(info_hash),
                nodes@,
            )
        },
        DhtMessage::Announce { header, token, .. } => if token_valid(before.tokens, sender, token@) {
            r == Ok::<Option<DhtMessage>, QvodError>(
                Some(DhtMessage::AnnounceResponse { header: reply_header(header), node_id: before.table.local }),
            )
        } else {
            after == before && (r matches Err(QvodError::Protocol(m)) && m@
                == "invalid announce token"@)
        },
        _ => r matches Err(QvodError::Protocol(m)) && m@ == "unhandled message"@,
    }
}

impl KademliaRpc {
    /// Serves from the given table and token manager, with no peers recorded.
    pub fn new(routing_table: RoutingTable, token_manager: TokenManager) -> (r: KademliaRpc)
        requires
            table_ok(routing_table@),
        ensures
            r@ == (RpcModel { table: routing_table@, tokens: token_manager@, peers: Seq::empty() }),
            rpc_ok(r@),
    {
        let r = KademliaRpc { routing_table, token_manager, peers: Vec::new() };
        assert(r@.peers =~= Seq::<(Seq<u8>, Seq<PeerInfo>)>::empty());
        r
    }

    /// The routing table.
    pub fn routing_table(&self) -> (t: &RoutingTable)
        ensures
            t@ == self@.table,
    {
        &self.routing_table
    }

    /// The routing table, to change it.
    pub fn routing_table_mut(&mut self) -> (t: &mut RoutingTable)
        ensures
            t@ == old(self)@.table,
            final(self)@ == (RpcModel { table: final(t)@, ..old(self)@ }),
    {
        &mut self.routing_table
    }

    /// The token manager.
    pub fn token_manager(&self) -> (t: &TokenManager)
        ensures
            t@ == self@.tokens,
    {
        &self.token_manager
    }

    /// The index of the record for info hash `h`, if there is one.
    fn peer_index(&self, h: &[u8; 20]) -> (r: Option<usize>)
        requires
            rpc_ok(self@),
        ensures
            match r {
                Some(i) => i < self@.peers.len() && self@.peers[i as int].0 == h@
                    && peers_for(self@.peers, h@) == self@.peers[i as int].1,
                None => peers_for(self@.peers, h@) == Seq::<PeerInfo>::empty()
                    && forall|j: int| 0 <= j < self@.peers.len() ==> (#[trigger] self@.peers[j]).0 != h@,
            },
    {
        let mut i: usize = 0;
        while i < self.peers.len()
            invariant
                i <= self@.peers.len(),
                rpc_ok(self@),
                forall|j: int| 0 <= j < i ==> (#[trigger] self@.peers[j]).0 != h@,
            decreases self@.peers.len() - i,
        {
            if same_hash(&self.peers[i].0, h) {
                let ghost ps = self@.peers;
                assert(ps[i as int].0 == h@);
                let ghost c = choose|j: int| 0 <= j < ps.len() && (#[trigger] ps[j]).0 == h@;
                assert(c == i) by {
                    if c != i {
                        if c < i {
                            assert(ps[c].0 != ps[i as int].0);
                        } else {
                            assert(ps[i as int].0 != ps[c].0);
                        }
                    }
                };
                return Some(i);
            }
            i += 1;
        }
        None
    }

    /// The peers recorded for `info_hash`.
    pub fn get_peers(&self, info_hash: &InfoHash) -> (r: Vec<PeerInfo>)
        requires
            rpc_ok(self@),
        ensures
            r@ == peers_for(self@.peers, info_hash.0@),
    {
        match self.peer_index(&info_hash.0) {
            Some(i) => copy_peers(&self.peers[i].1),
            None => Vec::new(),
        }
    }

    /// Records `peer` for info hash `h` while fewer than `MAX_PEERS_PER_HASH` are recorded.
    pub fn record_peer(&mut self, h: &[u8; 20], peer: PeerInfo)
        requires
            rpc_ok(old(self)@),
        ensures
            rpc_ok(final(self)@),
            final(self)@.table == old(self)@.table,
            final(self)@.tokens == old(self)@.tokens,
            forall|g: Seq<u8>| #[trigger] peers_for(final(self)@.peers, g) == after_announce(old(self)@.peers, h@, peer, g),
    {
        let ghost ps = self@.peers;
        match self.peer_index(h) {
            Some(i) => {
                let (key, mut list) = self.peers.remove(i);
                if list.len() < MAX_PEERS_PER_HASH {
                    list.push(peer);
                }
                let ghost newlist = list@;
                self.peers.insert(i, (key, list));
                proof {
                    let q = self@.peers;
                    assert(q =~= ps.update(i as int, (h@, newlist)));
                    assert forall|g: Seq<u8>| #[trigger] peers_for(q, g) == after_announce(ps, h@, peer, g) by {
                        if g == h@ {
                            assert(q[i as int].0 == g);
                            let c = choose|j: int| 0 <= j < q.len() && (#[trigger] q[j]).0 == g;
                            if c != i {
                                if c < i {
                                    assert(ps[c].0 != ps[i as int].0);
                                } else {
                                    assert(ps[i as int].0 != ps[c].0);
                                }
                            }
                        } else {
                            if exists|j: int| 0 <= j < ps.len() && (#[trigger] ps[j]).0 == g {
                                let c = choose|j: int| 0 <= j < ps.len() && (#[trigger] ps[j]).0 == g;
                                assert(q[c].0 == g);
                                let d = choose|j: int| 0 <= j < q.len() && (#[trigger] q[j]).0 == g;
                                if d != c {
                                    if d < c {
                                        assert(ps[d].0 != ps[c].0);
                                    } else {
                                        assert(ps[c].0 != ps[d].0);
                                    }
                                }
                            } else {
                                assert forall|j: int| 0 <= j < q.len() implies (#[trigger] q[j]).0 != g by {
                                    assert(ps[j].0 != g);
                                }
                            }
                        }
                    }
                    assert forall|a: int, b: int| 0 <= a < b < q.len() implies (#[trigger] q[a]).0 != (#[trigger] q[b]).0 by {
                        assert(q[a].0 == ps[a].0 && q[b].0 == ps[b].0);
                    }
                    assert forall|a: int| 0 <= a < q.len() implies (#[trigger] q[a]).1.len() <= MAX_PEERS_PER_HASH by {
                        assert(ps[a].1.len() <= MAX_PEERS_PER_HASH);
                    }
                    assert forall|a: int| 0 <= a < q.len() implies (#[trigger] q[a]).0.len() == 20 by {
                        assert(ps[a].0.len() == 20);
                    }
                }
            },
            None => {
                let mut list: Vec<PeerInfo> = Vec::new();
                list.push(peer);
                let ghost newlist = list@;
                self.peers.push((*h, list));
                proof {
                    let q = self@.peers;
                    assert(q =~= ps.push((h@, newlist)));
                    assert(newlist =~= Seq::<PeerInfo>::empty().push(peer));
                    assert forall|g: Seq<u8>| #[trigger] peers_for(q, g) == after_announce(ps, h@, peer, g) by {
                        if g == h@ {
                            assert(q[ps.len() as int].0 == g);
                            let c = choose|j: int| 0 <= j < q.len() && (#[trigger] q[j]).0 == g;
                            if c < ps.len() {
                                assert(ps[c].0 != g);
                            }
                        } else {
                            if exists|j: int| 0 <= j < ps.len() && (#[trigger] ps[j]).0 == g {
                                let c = choose|j: int| 0 <= j < ps.len() && (#[trigger] ps[j]).0 == g;
                                assert(q[c].0 == g);
                                let d = choose|j: int| 0 <= j < q.len() && (#[trigger] q[j]).0 == g;
                                if d != c {
                                    if d < c {
                                        assert(ps[d].0 != ps[c].0);
                                    } else if d < ps.len() {
                                        assert(ps[c].0 != ps[d].0);
                                    }
                                }
                            } else {
                                assert forall|j: int| 0 <= j < q.len() implies (#[trigger] q[j]).0 != g by {
                                    if j < ps.len() {
                                        assert(ps[j].0 != g);
                                    }
                                }
                            }
                        }
                    }
                    assert forall|a: int, b: int| 0 <= a < b < q.len() implies (#[trigger] q[a]).0 != (#[trigger] q[b]).0 by {
                        if b == ps.len() {
                            assert(ps[a].0 != h@);
                        } else {
                            assert(q[a].0 == ps[a].0 && q[b].0 == ps[b].0);
                        }
                    }
                    assert forall|a: int| 0 <= a < q.len() implies (#[trigger] q[a]).1.len() <= MAX_PEERS_PER_HASH by {
                        if a < ps.len() {
                            assert(ps[a].1.len() <= MAX_PEERS_PER_HASH);
                        }
                    }
                    assert forall|a: int| 0 <= a < q.len() implies (#[trigger] q[a]).0.len() == 20 by {
                        if a < ps.len() {
                            assert(ps[a].0.len() == 20);
                        }
                    }
                }
            },
        }
    }

    /// The nodes nearest to `target`, described for another node.
    fn nearest_node_infos(&self, target: &NodeId) -> (r: Vec<NodeInfo>)
        requires
            rpc_ok(self@),
        ensures
            nearest_nodes(self@.table, *target, r@),
    {
        let closest = self.routing_table.find_closest(target, K);
        let r = node_infos(&closest);
        assert(closest_of(
            gather(self@.table.buckets, bucket_index_of(self@.table.local, *target), K as nat, 0, Seq::empty()),
            *target,
            K as nat,
            closest@,
        ));
        r
    }

    /// Answers a request from `sender`: a ping with a ping answer, a node search
    /// with the nearest nodes, a peer search with the recorded peers or else the
    /// nearest nodes, an announce with a valid token by recording the peer; an
    /// announce with a bad token and any other message are refused.
    pub fn handle_message(&mut self, msg: &DhtMessage, sender: SocketAddress) -> (r: Result<Option<DhtMessage>, QvodError>)
        requires
            rpc_ok(old(self)@),
        ensures
            rpc_ok(final(self)@),
            answered(old(self)@, final(self)@, *msg, sender, r),
    {
        match msg {
            DhtMessage::Ping { header, .. } => {
                let h = MessageHeader { magic: MAGIC, msg_type: header.msg_type, txn_id: header.txn_id, ver: PROTOCOL_VERSION };
                Ok(Some(DhtMessage::PingResponse { header: h, node_id: *self.routing_table.local_id() }))
            },
            DhtMessage::FindNode { header, target, .. } => {
                let nodes = self.nearest_node_infos(target);
                let h = MessageHeader { magic: MAGIC, msg_type: header.msg_type, txn_id: header.txn_id, ver: PROTOCOL_VERSION };
                Ok(Some(DhtMessage::FindNodeResponse { header: h, node_id: *self.routing_table.local_id(), nodes }))
            },
            DhtMessage::FindPeers { header, info_hash, .. } => {
                let h = MessageHeader { magic: MAGIC, msg_type: header.msg_type, txn_id: header.txn_id, ver: PROTOCOL_VERSION };
                let peer_list = self.get_peers(&InfoHash(*info_hash));
                if peer_list.len() > 0 {
                    let mut compact: Vec<[u8; 6]> = Vec::new();
                    let mut i: usize = 0;
                    while i < peer_list.len()
                        invariant
                            i <= peer_list@.len(),
                            compact@.len() == i,
                            forall|k: int| 0 <= k < i ==> (#[trigger] compact@[k])@ == compact_of(peer_list@[k]),
                        decreases peer_list@.len() - i,
                    {
                        compact.push(compact_peer(&peer_list[i]));
                        i += 1;
                    }
                    Ok(Some(DhtMessage::FindPeersResponse {
                        header: h,
                        node_id: *self.routing_table.local_id(),
                        values: FindPeersResult::Peers(compact),
                    }))
                } else {
                    let nodes = self.nearest_node_infos(&NodeId(*info_hash));
                    Ok(Some(DhtMessage::FindPeersResponse {
                        header: h,
                        node_id: *self.routing_table.local_id(),
                        values: FindPeersResult::Nodes(nodes),
                    }))
                }
            },
            DhtMessage::Announce { header, info_hash, token, port, .. } => {
                if !self.token_manager.verify_token(&sender, token) {
                    return Err(QvodError::Protocol(String::from_str("invalid announce token")));
                }
                let peer = PeerInfo {
                    peer_id: NO_PEER_ID,
                    addr: SocketAddress { ip: sender.ip, port: *port },
                    is_firewalled: false,
                    bw_up: 0,
                    bw_down: 0,
                    location: None,
                    latency_ms: 0,
                };
                self.record_peer(info_hash, peer);
                let h = MessageHeader { magic: MAGIC, msg_type: header.msg_type, txn_id: header.txn_id, ver: PROTOCOL_VERSION };
                Ok(Some(DhtMessage::AnnounceResponse { header: h, node_id: *self.routing_table.local_id() }))
            },
            _ => Err(QvodError::Protocol(String::from_str("unhandled message"))),
        }
    }

    /// Marks the buckets due for refresh at `now` as refreshed at `now`.
    pub fn refresh_buckets_at(&mut self, now: u64)
        requires
            rpc_ok(old(self)@),
        ensures
            rpc_ok(final(self)@),
            final(self)@.peers == old(self)@.peers,
            final(self)@.tokens == old(self)@.tokens,
            final(self)@.table.local == old(self)@.table.local,
            final(self)@.table.buckets.len() == old(self)@.table.buckets.len(),
            forall|i: int|
                0 <= i < old(self)@.table.buckets.len() ==> (#[trigger] final(self)@.table.buckets[i]).entries
                    == old(self)@.table.buckets[i].entries,
            forall|i: int|
                0 <= i < old(self)@.table.buckets.len() ==> (#[trigger] final(self)@.table.buckets[i]).last_refreshed
                    == (if crate::routing::refresh_due(old(self)@.table.buckets[i].last_refreshed, now) {
                    now
                } else {
                    old(self)@.table.buckets[i].last_refreshed
                }),
    {
        let ghost t0 = self@.table;
        let list = self.routing_table.refresh_list_at(now);
        proof {
            lemma_due_buckets(t0.buckets, now, t0.buckets.len() as int);
        }
        let mut k: usize = 0;
        while k < list.len()
            invariant
                k <= list@.len(),
                list@ == due_buckets(t0.buckets, now, t0.buckets.len() as int),
                rpc_ok(self@),
                self@.peers == old(self)@.peers,
                self@.tokens == old(self)@.tokens,
                self@.table.local == t0.local,
                self@.table.buckets.len() == t0.buckets.len(),
                forall|i: int| 0 <= i < t0.buckets.len() ==> (#[trigger] self@.table.buckets[i]).entries == t0.buckets[i].entries,
                forall|i: int|
                    0 <= i < t0.buckets.len() ==> (#[trigger] self@.table.buckets[i]).last_refreshed == (if list@.take(k as int).contains(i as usize) {
                        now
                    } else {
                        t0.buckets[i].last_refreshed
                    }),
                forall|j: int| 0 <= j < list@.len() ==> (#[trigger] list@[j]) < t0.buckets.len(),
            decreases list@.len() - k,
        {
            let idx = list[k];
            let ghost before = self@.table;
            self.routing_table.mark_refreshed_at(idx, now);
            proof {
                assert(self@.table == refreshed_table(before, idx as int, now));
                assert forall|i: int| 0 <= i < t0.buckets.len() implies (#[trigger] self@.table.buckets[i]).last_refreshed == (if list@.take(k + 1).contains(i as usize) {
                    now
                } else {
                    t0.buckets[i].last_refreshed
                }) by {
                    assert(list@.take(k + 1) =~= list@.take(k as int).push(idx));
                    if i == idx {
                        assert(list@.take(k + 1)[k as int] == idx);
                    } else {
                        assert(self@.table.buckets[i] == before.buckets[i]);
                        let tk = list@.take(k as int);
                        let tk1 = list@.take(k + 1);
                        if tk.contains(i as usize) {
                            let w = choose|w: int| 0 <= w < tk.len() && #[trigger] tk[w] == i as usize;
                            assert(tk1[w] == i as usize);
                        }
                        if tk1.contains(i as usize) {
                            let w = choose|w: int| 0 <= w < tk1.len() && #[trigger] tk1[w] == i as usize;
                            if w < k {
                                assert(tk[w] == i as usize);
                            }
                        }
                    }
                }
            }
            k += 1;
        }
        proof {
            assert(list@.take(list@.len() as int) =~= list@);
        }
    }

    /// Number of nodes in the routing table.
    pub fn routing_table_size(&self) -> (n: usize)
        requires
            rpc_ok(self@),
        ensures
            n == total_entries(self@.table.buckets),
    {
        self.routing_table.size()
    }
}

/// The buckets due at `now` are exactly the indices of those whose refresh is due.
pub proof fn lemma_due_buckets(bs: Seq<crate::routing::BucketModel>, now: u64, upto: int)
    requires
        0 <= upto <= bs.len(),
        bs.len() <= usize::MAX,
    ensures
        forall|j: int| 0 <= j < due_buckets(bs, now, upto).len() ==> (#[trigger] due_buckets(bs, now, upto)[j]) < upto,
        forall|i: int| 0 <= i < upto ==> (due_buckets(bs, now, upto).contains(i as usize) <==> crate::routing::refresh_due(#[trigger] bs[i].last_refreshed, now)),
    decreases upto,
{
    if upto > 0 {
        lemma_due_buckets(bs, now, upto - 1);
        let r = due_buckets(bs, now, upto - 1);
        let q = due_buckets(bs, now, upto);
        assert forall|i: int| 0 <= i < upto implies (q.contains(i as usize) <==> crate::routing::refresh_due(#[trigger] bs[i].last_refreshed, now)) by {
            if q.contains(i as usize) {
                let w = choose|w: int| 0 <= w < q.len() && q[w] == i as usize;
                if w < r.len() {
                    assert(q[w] == r[w]);
                    assert(r.contains(i as usize));
                }
            }
            if i < upto - 1 && r.contains(i as usize) {
                let w = choose|w: int| 0 <= w < r.len() && r[w] == i as usize;
                assert(q[w] == r[w]);
            }
            if i == upto - 1 && crate::routing::refresh_due(bs[i].last_refreshed, now) {
                assert(q[r.len() as int] == i as usize);
            }
        }
    }
}

/// Whether two info hashes are equal.
pub fn same_hash(a: &[u8; 20], b: &[u8; 20]) -> (r: bool)
    ensures
        r == (a@ == b@),
{
    let mut i: usize = 0;
    while i < 20
        invariant
            i <= 20,
            forall|j: int| 0 <= j < i ==> a@[j] == b@[j],
        decreases 20 - i,
    {
        if a[i] != b[i] {
            return false;
        }
        i += 1;
    }
    assert(a@ =~= b@);
    true
}

/// Rounds an iterative peer search runs at most.
pub const MAX_ROUNDS: u32 = 8;

/// Whether two addresses are the same.
pub fn same_addr(a: &SocketAddress, b: &SocketAddress) -> (r: bool)
    ensures
        r == (*a == *b),
{
    if a.port != b.port {
        return false;
    }
    let ia = a.ip;
    let ib = b.ip;
    match ia {
        IpAddress::V4(x) => match ib {
            IpAddress::V4(y) => {
                let r = x[0] == y[0] && x[1] == y[1] && x[2] == y[2] && x[3] == y[3];
                if r {
                    assert(x@ =~= y@);
                    assert(x == y);
                } else {
                    assert(x@ != y@);
                }
                r
            },
            IpAddress::V6(_) => false,
        },
        IpAddress::V6(x) => match ib {
            IpAddress::V6(y) => {
                let mut i: usize = 0;
                while i < 16
                    invariant
                        i <= 16,
                        a.ip == IpAddress::V6(x),
                        b.ip == IpAddress::V6(y),
                        forall|j: int| 0 <= j < i ==> x@[j] == y@[j],
                    decreases 16 - i,
                {
                    if x[i] != y[i] {
                        assert(x@[i as int] != y@[i as int]);
                        assert(x@ != y@);
                        return false;
                    }
                    i += 1;
                }
                assert(x@ =~= y@);
                assert(x == y);
                true
            },
            IpAddress::V4(_) => false,
        },
    }
}

/// Whether `a` occurs in `s`.
pub fn contains_addr(s: &Vec<SocketAddress>, a: &SocketAddress) -> (r: bool)
    ensures
        r == s@.contains(*a),
{
    let mut i: usize = 0;
    while i < s.len()
        invariant
            i <= s@.len(),
            forall|j: int| 0 <= j < i ==> s@[j] != *a,
        decreases s@.len() - i,
    {
        if same_addr(&s[i], a) {
            assert(s@[i as int] == *a);
            return true;
        }
        i += 1;
    }
    false
}

/// Whether some entry of `s` has address `a`.
pub open spec fn has_addr(s: Seq<KBucketEntry>, a: SocketAddress) -> bool {
    exists|i: int| 0 <= i < s.len() && (#[trigger] s[i]).addr == a
}

/// Whether some entry of `s` has address `a`.
fn entries_have_addr(s: &Vec<KBucketEntry>, a: &SocketAddress) -> (r: bool)
    ensures
        r == has_addr(s@, *a),
{
    let mut i: usize = 0;
    while i < s.len()
        invariant
            i <= s@.len(),
            forall|j: int| 0 <= j < i ==> (#[trigger] s@[j]).addr != *a,
        decreases s@.len() - i,
    {
        if same_addr(&s[i].addr, a) {
            assert(s@[i as int].addr == *a);
            return true;
        }
        i += 1;
    }
    false
}

/// The entries of `s` whose address is not in `q`, in order.
pub open spec fn unqueried(s: Seq<KBucketEntry>, q: Seq<SocketAddress>) -> Seq<KBucketEntry>
    decreases s.len(),
{
    if s.len() == 0 {
        s
    } else {
        let r = unqueried(s.drop_last(), q);
        if q.contains(s.last().addr) {
            r
        } else {
            r.push(s.last())
        }
    }
}

/// The routing entry for a node met in an answer at `now`.
pub open spec fn met_node(n: NodeInfo, now: u64) -> KBucketEntry {
    KBucketEntry {
        node_id: n.node_id,
        addr: SocketAddress { ip: IpAddress::V4(n.ip), port: n.port },
        last_seen_ms: now,
        latency_ms: 0,
        is_firewalled: false,
    }
}

/// The shortlist after meeting `nodes` at `now`: each node whose address is
/// neither in the list nor already asked is appended.
pub open spec fn absorb_nodes(s: Seq<KBucketEntry>, q: Seq<SocketAddress>, nodes: Seq<NodeInfo>, now: u64) -> Seq<KBucketEntry>
    decreases nodes.len(),
{
    if nodes.len() == 0 {
        s
    } else {
        let r = absorb_nodes(s, q, nodes.drop_last(), now);
        let e = met_node(nodes.last(), now);
        if !has_addr(r, e.addr) && !q.contains(e.addr) {
            r.push(e)
        } else {
            r
        }
    }
}

/// The peer a compact record stands for.
pub open spec fn peer_of_compact(c: [u8; 6]) -> PeerInfo {
    PeerInfo {
        peer_id: NO_PEER_ID,
        addr: SocketAddress {
            ip: IpAddress::V4([c[0], c[1], c[2], c[3]]),
            port: (c[4] * 256 + c[5]) as u16,
        },
        is_firewalled: false,
        bw_up: 0,
        bw_down: 0,
        location: None,
        latency_ms: 0,
    }
}

/// `list` with the peers of `ps` appended, each while fewer than
/// `MAX_PEERS_PER_HASH` are recorded.
pub open spec fn append_capped(list: Seq<PeerInfo>, ps: Seq<PeerInfo>) -> Seq<PeerInfo>
    decreases ps.len(),
{
    if ps.len() == 0 {
        list
    } else {
        let l = append_capped(list, ps.drop_last());
        if l.len() < MAX_PEERS_PER_HASH {
            l.push(ps.last())
        } else {
            l
        }
    }
}

/// The state of an iterative peer search.
pub struct SearchModel {
    pub info_hash: Seq<u8>,
    pub target: NodeId,
    pub alpha: nat,
    pub shortlist: Seq<KBucketEntry>,
    pub queried: Seq<SocketAddress>,
    pub closest: Option<NodeId>,
    pub round: nat,
    pub found_any: bool,
}

/// What an iterative peer search ends with: peers, or the nodes it came nearest to.
pub struct IterativeFindPeersResult {
    pub peers: Vec<PeerInfo>,
    pub closest_nodes: Vec<KBucketEntry>,
}

/// An iterative peer search in progress: the nodes met so far, those asked,
/// the nearest node of the last round, and the round.
pub struct PeerSearch {
    info_hash: [u8; 20],
    alpha: usize,
    shortlist: Vec<KBucketEntry>,
    queried: Vec<SocketAddress>,
    closest: Option<NodeId>,
    round: u32,
    found_any: bool,
}

impl View for PeerSearch {
    type V = SearchModel;

    closed spec fn view(&self) -> SearchModel {
        SearchModel {
            info_hash: self.info_hash@,
            target: NodeId(self.info_hash),
            alpha: self.alpha as nat,
            shortlist: self.shortlist@,
            queried: self.queried@,
            closest: self.closest,
            round: self.round as nat,
            found_any: self.found_any,
        }
    }
}

/// The request sent to each node asked in a peer search.
pub fn peer_query(local_id: &NodeId, info_hash: &[u8; 20]) -> (m: DhtMessage)
    ensures
        m == (DhtMessage::FindPeers {
            header: MessageHeader { magic: MAGIC, msg_type: MessageType::FindPeers, txn_id: 0, ver: PROTOCOL_VERSION },
            node_id: *local_id,
            info_hash: *info_hash,
        }),
{
    DhtMessage::FindPeers {
        header: MessageHeader { magic: MAGIC, msg_type: MessageType::FindPeers, txn_id: 0, ver: PROTOCOL_VERSION },
        node_id: *local_id,
        info_hash: *info_hash,
    }
}

/// The peer a compact record stands for.
pub fn decode_compact_peer(c: &[u8; 6]) -> (p: PeerInfo)
    ensures
        p == peer_of_compact(*c),
{
    PeerInfo {
        peer_id: NO_PEER_ID,
        addr: SocketAddress {
            ip: IpAddress::V4([c[0], c[1], c[2], c[3]]),
            port: (c[4] as u16) * 256 + (c[5] as u16),
        },
        is_firewalled: false,
        bw_up: 0,
        bw_down: 0,
        location: None,
        latency_ms: 0,
    }
}

impl PeerSearch {
    /// The state of the search.
    pub fn shortlist(&self) -> (s: &Vec<KBucketEntry>)
        ensures
            s@ == self@.shortlist,
    {
        &self.shortlist
    }

    /// Puts the shortlist in order of distance to the info hash, nearest first.
    fn sort_shortlist(&mut self)
        ensures
            final(self)@ == (SearchModel { shortlist: final(self)@.shortlist, ..old(self)@ }),
            final(self)@.shortlist.to_multiset() == old(self)@.shortlist.to_multiset(),
            sorted_by_distance(final(self)@.shortlist, old(self)@.target),
            final(self)@.shortlist.len() == old(self)@.shortlist.len(),
    {
        let target = NodeId(self.info_hash);
        self.shortlist = sort_by_distance(&self.shortlist, &target);
    }

    /// Starts a round: puts the shortlist in order and picks the first `alpha`
    /// nodes not yet asked. None once `MAX_ROUNDS` rounds have run.
    pub fn next_round_queries(&mut self) -> (r: Vec<KBucketEntry>)
        ensures
            old(self)@.round >= MAX_ROUNDS ==> r@.len() == 0 && final(self)@ == old(self)@,
            old(self)@.round < MAX_ROUNDS ==> {
                &&& final(self)@ == (SearchModel { shortlist: final(self)@.shortlist, found_any: false, ..old(self)@ })
                &&& final(self)@.shortlist.to_multiset() == old(self)@.shortlist.to_multiset()
                &&& sorted_by_distance(final(self)@.shortlist, old(self)@.target)
                &&& r@ == unqueried(final(self)@.shortlist, old(self)@.queried).take(
                    if old(self)@.alpha < unqueried(final(self)@.shortlist, old(self)@.queried).len() {
                        old(self)@.alpha as int
                    } else {
                        unqueried(final(self)@.shortlist, old(self)@.queried).len() as int
                    },
                )
            },
    {
        if self.round >= MAX_ROUNDS {
            return Vec::new();
        }
        self.sort_shortlist();
        self.found_any = false;
        let ghost s = self@.shortlist;
        let ghost q = self@.queried;
        let mut picked: Vec<KBucketEntry> = Vec::new();
        let mut i: usize = 0;
        while i < self.shortlist.len()
            invariant
                i <= s.len(),
                self@.shortlist == s,
                self@.queried == q,
                picked@ == unqueried(s.take(i as int), q).take(
                    if self.alpha < unqueried(s.take(i as int), q).len() {
                        self.alpha as int
                    } else {
                        unqueried(s.take(i as int), q).len() as int
                    },
                ),
            decreases s.len() - i,
        {
            let e = self.shortlist[i];
            proof {
                assert(s.take(i + 1).drop_last() =~= s.take(i as int));
                assert(s.take(i + 1).last() == e);
            }
            if !contains_addr(&self.queried, &e.addr) {
                if picked.len() < self.alpha {
                    picked.push(e);
                    proof {
                        let u = unqueried(s.take(i as int), q);
                        assert(unqueried(s.take(i + 1), q) == u.push(e));
                        assert(picked@ =~= u.push(e).take((u.len() + 1) as int));
                    }
                } else {
                    proof {
                        let u = unqueried(s.take(i as int), q);
                        assert(unqueried(s.take(i + 1), q) == u.push(e));
                        assert(u.push(e).take(self.alpha as int) =~= u.take(self.alpha as int));
                    }
                }
            }
            i += 1;
        }
        assert(s.take(s.len() as int) =~= s);
        picked
    }

    /// Records that the node at `addr` has been asked.
    pub fn mark_queried(&mut self, addr: SocketAddress)
        ensures
            final(self)@ == (SearchModel { queried: old(self)@.queried.push(addr), ..old(self)@ }),
    {
        self.queried.push(addr);
    }

    /// Appends the nodes of an answer met at `now` that are neither in the
    /// shortlist nor already asked.
    fn absorb_nodes_at(&mut self, nodes: &Vec<NodeInfo>, now: u64)
        ensures
            final(self)@ == (SearchModel {
                shortlist: absorb_nodes(old(self)@.shortlist, old(self)@.queried, nodes@, now),
                found_any: old(self)@.found_any || absorb_nodes(old(self)@.shortlist, old(self)@.queried, nodes@, now).len()
                    > old(self)@.shortlist.len(),
                ..old(self)@
            }),
    {
        let ghost s0 = self@.shortlist;
        let ghost q = self@.queried;
        let mut i: usize = 0;
        proof {
            lemma_absorb_nodes_grows(s0, q, nodes@.take(0), now);
            assert(nodes@.take(0) =~= Seq::<NodeInfo>::empty());
        }
        while i < nodes.len()
            invariant
                i <= nodes@.len(),
                self@.queried == q,
                self@.shortlist == absorb_nodes(s0, q, nodes@.take(i as int), now),
                self@ == (SearchModel {
                    shortlist: self@.shortlist,
                    found_any: old(self)@.found_any || self@.shortlist.len() > s0.len(),
                    ..old(self)@
                }),
                self@.shortlist.len() >= s0.len(),
            decreases nodes@.len() - i,
        {
            let n = nodes[i];
            let e = KBucketEntry {
                node_id: n.node_id,
                addr: SocketAddress { ip: IpAddress::V4(n.ip), port: n.port },
                last_seen_ms: now,
                latency_ms: 0,
                is_firewalled: false,
            };
            proof {
                assert(nodes@.take(i + 1).drop_last() =~= nodes@.take(i as int));
                assert(nodes@.take(i + 1).last() == n);
                assert(e == met_node(n, now));
            }
            if !entries_have_addr(&self.shortlist, &e.addr) && !contains_addr(&self.queried, &e.addr) {
                self.shortlist.push(e);
                self.found_any = true;
            }
            i += 1;
        }
        assert(nodes@.take(nodes@.len() as int) =~= nodes@);
    }

    /// Ends a round: puts the shortlist in order and notes its nearest node.
    /// False, to stop, when the nearest node is the one of the last round or
    /// when the round met no new node.
    pub fn end_round(&mut self) -> (go_on: bool)
        ensures
            old(self)@.shortlist.len() == 0 ==> final(self)@ == (SearchModel {
                round: if go_on { old(self)@.round + 1 } else { old(self)@.round },
                ..old(self)@
            }) && go_on == (old(self)@.found_any && old(self)@.round + 1 < MAX_ROUNDS),
            old(self)@.shortlist.len() > 0 ==> {
                let near = final(self)@.shortlist[0].node_id;
                &&& final(self)@.shortlist.to_multiset() == old(self)@.shortlist.to_multiset()
                &&& sorted_by_distance(final(self)@.shortlist, old(self)@.target)
                &&& final(self)@.shortlist.len() == old(self)@.shortlist.len()
                &&& go_on == (old(self)@.closest != Some(near) && old(self)@.found_any && old(self)@.round + 1 < MAX_ROUNDS)
                &&& final(self)@ == (SearchModel {
                    shortlist: final(self)@.shortlist,
                    closest: if old(self)@.closest == Some(near) { old(self)@.closest } else { Some(near) },
                    round: if go_on { old(self)@.round + 1 } else { old(self)@.round },
                    ..old(self)@
                })
            },
    {
        if self.shortlist.len() > 0 {
            self.sort_shortlist();
            let current = self.shortlist[0].node_id;
            match self.closest {
                Some(prev) => {
                    if same_node(&current, &prev) {
                        return false;
                    }
                    self.closest = Some(current);
                },
                None => {
                    self.closest = Some(current);
                },
            }
        }
        if !self.found_any || self.round >= MAX_ROUNDS - 1 {
            return false;
        }
        self.round = self.round + 1;
        true
    }
}

/// Meeting nodes only appends to the shortlist.
pub proof fn lemma_absorb_nodes_grows(s: Seq<KBucketEntry>, q: Seq<SocketAddress>, nodes: Seq<NodeInfo>, now: u64)
    ensures
        absorb_nodes(s, q, nodes, now).len() >= s.len(),
        forall|i: int| 0 <= i < s.len() ==> #[trigger] absorb_nodes(s, q, nodes, now)[i] == s[i],
    decreases nodes.len(),
{
    if nodes.len() > 0 {
        lemma_absorb_nodes_grows(s, q, nodes.drop_last(), now);
    }
}

impl KademliaRpc {
    /// Starts a search for the peers of `info_hash`, asking `alpha` nodes a
    /// round, from the `K` nodes nearest to it; refused when the table is empty there.
    pub fn start_peer_search(&self, info_hash: &InfoHash, alpha: usize) -> (r: Result<PeerSearch, QvodError>)
        requires
            rpc_ok(self@),
        ensures
            match r {
                Ok(s) => {
                    &&& closest_of(
                        gather(
                            self@.table.buckets,
                            bucket_index_of(self@.table.local, NodeId(info_hash.0)),
                            K as nat,
                            0,
                            Seq::empty(),
                        ),
                        NodeId(info_hash.0),
                        K as nat,
                        s@.shortlist,
                    )
                    &&& s@.shortlist.len() > 0
                    &&& s@.info_hash == info_hash.0@
                    &&& s@.target == NodeId(info_hash.0)
                    &&& s@.alpha == alpha
                    &&& s@.queried == Seq::<SocketAddress>::empty()
                    &&& s@.closest == None::<NodeId>
                    &&& s@.round == 0
                    &&& !s@.found_any
                },
                Err(e) => {
                    &&& e matches QvodError::DhtRoutingFailed(m)
                    &&& m@ == "no nodes in routing table for iterative find_peers"@
                    &&& closest_of(
                        gather(
                            self@.table.buckets,
                            bucket_index_of(self@.table.local, NodeId(info_hash.0)),
                            K as nat,
                            0,
                            Seq::empty(),
                        ),
                        NodeId(info_hash.0),
                        K as nat,
                        Seq::empty(),
                    )
                },
            },
    {
        let target = NodeId(info_hash.0);
        let shortlist = self.routing_table.find_closest(&target, K);
        if shortlist.len() == 0 {
            assert(shortlist@ =~= Seq::<KBucketEntry>::empty());
            return Err(QvodError::DhtRoutingFailed(String::from_str("no nodes in routing table for iterative find_peers")));
        }
        let s = PeerSearch {
            info_hash: info_hash.0,
            alpha,
            shortlist,
            queried: Vec::new(),
            closest: None,
            round: 0,
            found_any: false,
        };
        assert(s@.queried =~= Seq::<SocketAddress>::empty());
        Ok(s)
    }

    /// Takes in the answer of a node asked in `search`, met at `now`: peers are
    /// recorded and end the search; nodes join the shortlist; anything else is ignored.
    pub fn absorb_peer_response_at(
        &mut self,
        search: &mut PeerSearch,
        response: &DhtMessage,
        now: u64,
    ) -> (r: Option<IterativeFindPeersResult>)
        requires
            rpc_ok(old(self)@),
            old(search)@.info_hash.len() == 20,
        ensures
            rpc_ok(final(self)@),
            final(self)@.table == old(self)@.table,
            final(self)@.tokens == old(self)@.tokens,
            peer_response_absorbed(old(self)@, final(self)@, old(search)@, final(search)@, *response, r, now),
    {
        match response {
            DhtMessage::FindPeersResponse { values: FindPeersResult::Peers(cps), .. } => {
                if cps.len() == 0 {
                    return None;
                }
                let ghost decoded_all = cps@.map_values(|c: [u8; 6]| peer_of_compact(c));
                let ghost h = search.info_hash@;
                let ghost base = peers_for(self@.peers, h);
                let ghost others = self@.peers;
                let mut decoded: Vec<PeerInfo> = Vec::new();
                let mut i: usize = 0;
                while i < cps.len()
                    invariant
                        i <= cps@.len(),
                        h == search.info_hash@,
                        h.len() == 20,
                        decoded_all == cps@.map_values(|c: [u8; 6]| peer_of_compact(c)),
                        decoded@ == decoded_all.take(i as int),
                        rpc_ok(self@),
                        self@.table == old(self)@.table,
                        self@.tokens == old(self)@.tokens,
                        forall|g: Seq<u8>| #[trigger] peers_for(self@.peers, g) == if g == h {
                            append_capped(base, decoded_all.take(i as int))
                        } else {
                            peers_for(others, g)
                        },
                    decreases cps@.len() - i,
                {
                    let p = decode_compact_peer(&cps[i]);
                    let p2 = decode_compact_peer(&cps[i]);
                    let ghost before = self@.peers;
                    self.record_peer(&search.info_hash, p);
                    decoded.push(p2);
                    proof {
                        assert(decoded_all.take(i + 1) =~= decoded_all.take(i as int).push(decoded_all[i as int]));
                        assert(decoded_all.take(i + 1).drop_last() =~= decoded_all.take(i as int));
                        assert forall|g: Seq<u8>| #[trigger] peers_for(self@.peers, g) == if g == h {
                            append_capped(base, decoded_all.take(i + 1))
                        } else {
                            peers_for(others, g)
                        } by {
                            assert(peers_for(self@.peers, g) == after_announce(before, h, p, g));
                        }
                    }
                    i += 1;
                }
                proof {
                    assert(decoded_all.take(cps@.len() as int) =~= decoded_all);
                }
                let closest_nodes = copy_entries(&search.shortlist);
                Some(IterativeFindPeersResult { peers: decoded, closest_nodes })
            },
            DhtMessage::FindPeersResponse { values: FindPeersResult::Nodes(nodes), .. } => {
                search.absorb_nodes_at(nodes, now);
                None
            },
            DhtMessage::FindNodeResponse { nodes, .. } => {
                search.absorb_nodes_at(nodes, now);
                None
            },
            _ => None,
        }
    }

    /// Takes in the answer of a node asked in `search`, now; see `absorb_peer_response_at`.
    pub fn absorb_peer_response(&mut self, search: &mut PeerSearch, response: &DhtMessage) -> (r: Option<IterativeFindPeersResult>)
        requires
            rpc_ok(old(self)@),
            old(search)@.info_hash.len() == 20,
        ensures
            rpc_ok(final(self)@),
            final(self)@.table == old(self)@.table,
            final(self)@.tokens == old(self)@.tokens,
            exists|now: u64| peer_response_absorbed(old(self)@, final(self)@, old(search)@, final(search)@, *response, r, now),
    {
        let now = crate::util::current_time_millis();
        self.absorb_peer_response_at(search, response, now)
    }

    /// Ends a search without peers: every node of the shortlist is offered to the
    /// routing table at `now`, and the shortlist is the answer.
    pub fn finish_peer_search_at(&mut self, search: PeerSearch, now: u64) -> (r: IterativeFindPeersResult)
        requires
            rpc_ok(old(self)@),
        ensures
            rpc_ok(final(self)@),
            r.peers@.len() == 0,
            r.closest_nodes@ == search@.shortlist,
            final(self)@.table == insert_all(old(self)@.table, search@.shortlist, now),
            final(self)@.tokens == old(self)@.tokens,
            final(self)@.peers == old(self)@.peers,
    {
        let mut i: usize = 0;
        let ghost s = search@.shortlist;
        while i < search.shortlist.len()
            invariant
                i <= s.len(),
                s == search@.shortlist,
                rpc_ok(self@),
                self@.table == insert_all(old(self)@.table, s.take(i as int), now),
                self@.tokens == old(self)@.tokens,
                self@.peers == old(self)@.peers,
            decreases s.len() - i,
        {
            let e = search.shortlist[i];
            self.routing_table.insert_at(e, now);
            assert(s.take(i + 1).drop_last() =~= s.take(i as int));
            i += 1;
        }
        assert(s.take(s.len() as int) =~= s);
        IterativeFindPeersResult { peers: Vec::new(), closest_nodes: search.shortlist }
    }

    /// Ends a search without peers, now; see `finish_peer_search_at`.
    pub fn finish_peer_search(&mut self, search: PeerSearch) -> (r: IterativeFindPeersResult)
        requires
            rpc_ok(old(self)@),
        ensures
            rpc_ok(final(self)@),
            r.peers@.len() == 0,
            r.closest_nodes@ == search@.shortlist,
            exists|now: u64| final(self)@.table == insert_all(old(self)@.table, search@.shortlist, now),
            final(self)@.tokens == old(self)@.tokens,
            final(self)@.peers == old(self)@.peers,
    {
        let now = crate::util::current_time_millis();
        self.finish_peer_search_at(search, now)
    }
}

/// What taking in `response` to a peer search does, met at `now`: peers are recorded
/// and end the search with answer `r`; nodes join the shortlist; anything else is ignored.
pub open spec fn peer_response_absorbed(
    pre: RpcModel,
    post: RpcModel,
    s0: SearchModel,
    s1: SearchModel,
    response: DhtMessage,
    r: Option<IterativeFindPeersResult>,
    now: u64,
) -> bool {
    match response {
        DhtMessage::FindPeersResponse { values: FindPeersResult::Peers(cps), .. } => if cps@.len() > 0 {
            &&& r matches Some(res)
            &&& res.peers@ == cps@.map_values(|c: [u8; 6]| peer_of_compact(c))
            &&& res.closest_nodes@ == s0.shortlist
            &&& s1 == s0
            &&& forall|g: Seq<u8>| #[trigger] peers_for(post.peers, g) == if g == s0.info_hash {
                append_capped(peers_for(pre.peers, g), cps@.map_values(|c: [u8; 6]| peer_of_compact(c)))
            } else {
                peers_for(pre.peers, g)
            }
        } else {
            r is None && s1 == s0 && post == pre
        },
        DhtMessage::FindPeersResponse { values: FindPeersResult::Nodes(nodes), .. } => r is None
            && post == pre && s1 == (SearchModel {
            shortlist: absorb_nodes(s0.shortlist, s0.queried, nodes@, now),
            found_any: s0.found_any || absorb_nodes(s0.shortlist, s0.queried, nodes@, now).len()
                > s0.shortlist.len(),
            ..s0
        }),
        DhtMessage::FindNodeResponse { nodes, .. } => r is None && post == pre && s1
            == (SearchModel {
            shortlist: absorb_nodes(s0.shortlist, s0.queried, nodes@, now),
            found_any: s0.found_any || absorb_nodes(s0.shortlist, s0.queried, nodes@, now).len()
                > s0.shortlist.len(),
            ..s0
        }),
        _ => r is None && post == pre && s1 == s0,
    }
}

/// The table after offering each entry of `es` in turn at `now`.
pub open spec fn insert_all(t: TableModel, es: Seq<KBucketEntry>, now: u64) -> TableModel
    decreases es.len(),
{
    if es.len() == 0 {
        t
    } else {
        crate::routing::table_insert(insert_all(t, es.drop_last(), now), es.last(), now).0
    }
}

/// A copy of routing entries.
pub fn copy_entries(v: &Vec<KBucketEntry>) -> (r: Vec<KBucketEntry>)
    ensures
        r@ == v@,
{
    let mut r: Vec<KBucketEntry> = Vec::new();
    let mut i: usize = 0;
    while i < v.len()
        invariant
            i <= v@.len(),
            r@ == v@.take(i as int),
        decreases v@.len() - i,
    {
        r.push(v[i]);
        assert(v@.take(i + 1) =~= v@.take(i as int).push(v@[i as int]));
        i += 1;
    }
    assert(v@.take(v@.len() as int) =~= v@);
    r
}

} // verus!
