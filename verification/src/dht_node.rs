//! The decisions of a DHT node: its settings, joining the network through seed
//! nodes, answering datagrams, announcing, and what a peer search returns.
use vstd::prelude::*;

use crate::error::QvodError;
use crate::krpc::{
    answered, met_node, rpc_ok, IterativeFindPeersResult, KademliaRpc, RpcModel,
};
use crate::routing::{
    bucket_index_of, closest_of, gather, table_insert, table_ok, total_entries, RoutingTable,
    TableModel,
};
use crate::rpc::{spec_decode_msg, enc_msg, DhtMessage, MessageHeader, MessageType, NodeInfo, MAGIC, PROTOCOL_VERSION};
use crate::token::token_for;
use crate::types::{
    InfoHash, KBucketEntry, NodeId, PeerInfo, SocketAddress, DEFAULT_PORT, DHT_ALPHA, DHT_K,
    DHT_PEER_TIMEOUT, DHT_REFRESH_INTERVAL,
};

verus! {

/// Settings of a DHT node.
#[derive(Debug, Clone)]
pub struct DhtConfig {
    pub listen_port: u16,
    pub k: u8,
    pub alpha: u8,
    pub refresh_interval: u64,
    pub peer_timeout: u64,
    pub seed_nodes: Vec<String>,
}

impl Default for DhtConfig {
    fn default() -> (c: DhtConfig)
        ensures
            c.listen_port == DEFAULT_PORT,
            c.k == DHT_K,
            c.alpha == DHT_ALPHA,
            c.refresh_interval == DHT_REFRESH_INTERVAL,
            c.peer_timeout == DHT_PEER_TIMEOUT,
            c.seed_nodes@.len() == 0,
    {
        DhtConfig {
            listen_port: DEFAULT_PORT,
            k: DHT_K,
            alpha: DHT_ALPHA,
            refresh_interval: DHT_REFRESH_INTERVAL,
            peer_timeout: DHT_PEER_TIMEOUT,
            seed_nodes: Vec::new(),
        }
    }
}

/// Rounds of node lookup after the seed nodes answered.
pub const BOOTSTRAP_ROUNDS: u32 = 3;

/// Nodes asked per round of node lookup at most.
pub const LOOKUP_WIDTH: usize = 8;

/// The ping sent to each seed node.
pub fn seed_ping(local_id: &NodeId) -> (m: DhtMessage)
    ensures
        m == (DhtMessage::Ping {
            header: MessageHeader { magic: MAGIC, msg_type: MessageType::Ping, txn_id: 0, ver: PROTOCOL_VERSION },
            node_id: *local_id,
        }),
{
    DhtMessage::Ping {
        header: MessageHeader { magic: MAGIC, msg_type: MessageType::Ping, txn_id: 0, ver: PROTOCOL_VERSION },
        node_id: *local_id,
    }
}

/// A bootstrap needs at least one seed node.
pub fn check_seeds(seed_nodes: &[String]) -> (r: Result<(), QvodError>)
    ensures
        seed_nodes@.len() == 0 <==> (r matches Err(QvodError::DhtRoutingFailed(m)) && m@ == "no seed nodes"@),
        seed_nodes@.len() > 0 <==> r is Ok,
{
    if seed_nodes.len() == 0 {
        Err(QvodError::DhtRoutingFailed(String::from_str("no seed nodes")))
    } else {
        Ok(())
    }
}

/// The routing entry for a node that answered at `addr` at `now`.
pub open spec fn answered_node(node_id: NodeId, addr: SocketAddress, now: u64) -> KBucketEntry {
    KBucketEntry { node_id, addr, last_seen_ms: now, latency_ms: 0, is_firewalled: false }
}

/// Takes in the answer of seed node `addr` at `now`: a ping answer puts the
/// seed in the routing table; anything else is ignored.
pub fn absorb_seed_answer_at(table: &mut RoutingTable, answer: &DhtMessage, addr: SocketAddress, now: u64)
    requires
        table_ok(old(table)@),
    ensures
        table_ok(final(table)@),
        match *answer {
            DhtMessage::PingResponse { node_id, .. } => final(table)@ == table_insert(
                old(table)@,
                answered_node(node_id, addr, now),
                now,
            ).0,
            _ => final(table)@ == old(table)@,
        },
{
    if let DhtMessage::PingResponse { node_id, .. } = answer {
        let _ = table.insert_at(
            KBucketEntry { node_id: *node_id, addr, last_seen_ms: now, latency_ms: 0, is_firewalled: false },
            now,
        );
    }
}

/// Takes in the answer of seed node `addr`, now; see `absorb_seed_answer_at`.
pub fn absorb_seed_answer(table: &mut RoutingTable, answer: &DhtMessage, addr: SocketAddress)
    requires
        table_ok(old(table)@),
    ensures
        table_ok(final(table)@),
        match *answer {
            DhtMessage::PingResponse { node_id, .. } => exists|now: u64|
                final(table)@ == #[trigger] table_insert(old(table)@, answered_node(node_id, addr, now), now).0,
            _ => final(table)@ == old(table)@,
        },
{
    absorb_seed_answer_at(table, answer, addr, crate::util::current_time_millis());
}

/// After the seed nodes: the bootstrap failed if none of them answered.
pub fn check_seeded(table: &RoutingTable) -> (r: Result<(), QvodError>)
    requires
        table_ok(table@),
    ensures
        total_entries(table@.buckets) == 0 <==> r matches Err(QvodError::DhtTimeout),
        total_entries(table@.buckets) > 0 <==> r is Ok,
{
    if table.size() == 0 {
        Err(QvodError::DhtTimeout)
    } else {
        Ok(())
    }
}

/// The state of a node lookup: its target, the addresses asked, the round,
/// and whether the round met any node.
pub struct LookupModel {
    pub target: NodeId,
    pub queried: Seq<SocketAddress>,
    pub round: nat,
    pub found_any: bool,
}

/// The entries of `c` to ask: those whose address has not been asked, neither
/// before nor earlier in `c`.
pub open spec fn fresh_entries(c: Seq<KBucketEntry>, q: Seq<SocketAddress>) -> Seq<KBucketEntry>
    decreases c.len(),
{
    if c.len() == 0 {
        c
    } else {
        let r = fresh_entries(c.drop_last(), q);
        let a = c.last().addr;
        if q.contains(a) || c.drop_last().map_values(|e: KBucketEntry| e.addr).contains(a) {
            r
        } else {
            r.push(c.last())
        }
    }
}

/// The addresses of `c` not asked before, added to those asked, in order.
pub open spec fn asked_after(c: Seq<KBucketEntry>, q: Seq<SocketAddress>) -> Seq<SocketAddress> {
    q + fresh_entries(c, q).map_values(|e: KBucketEntry| e.addr)
}

/// The table after offering each node of `nodes`, met at `now`, in turn.
pub open spec fn insert_met(t: TableModel, nodes: Seq<NodeInfo>, now: u64) -> TableModel
    decreases nodes.len(),
{
    if nodes.len() == 0 {
        t
    } else {
        table_insert(insert_met(t, nodes.drop_last(), now), met_node(nodes.last(), now), now).0
    }
}

/// An iterative node lookup, as run after the seed nodes answered.
pub struct NodeLookup {
    target: NodeId,
    queried: Vec<SocketAddress>,
    round: u32,
    found_any: bool,
}

impl View for NodeLookup {
    type V = LookupModel;

    closed spec fn view(&self) -> LookupModel {
        LookupModel { target: self.target, queried: self.queried@, round: self.round as nat, found_any: self.found_any }
    }
}

impl NodeLookup {
    /// A lookup for `target` that has asked nobody.
    pub fn new(target: NodeId) -> (l: NodeLookup)
        ensures
            l@ == (LookupModel { target, queried: Seq::empty(), round: 0, found_any: false }),
    {
        let l = NodeLookup { target, queried: Vec::new(), round: 0, found_any: false };
        assert(l@.queried =~= Seq::<SocketAddress>::empty());
        l
    }

    /// The round the lookup is in, which is also the transaction id of its requests.
    pub fn round(&self) -> (r: u32)
        ensures
            r == self@.round,
    {
        self.round
    }

    /// Starts a round: the nodes to ask are those of the `LOOKUP_WIDTH` nearest
    /// to the target not asked yet, now counted as asked. None, to stop, after
    /// `BOOTSTRAP_ROUNDS` rounds or when the table has no node there.
    pub fn next_round(&mut self, table: &RoutingTable) -> (r: Option<Vec<KBucketEntry>>)
        requires
            table_ok(table@),
        ensures
            old(self)@.round >= BOOTSTRAP_ROUNDS ==> r is None && final(self)@ == old(self)@,
            old(self)@.round < BOOTSTRAP_ROUNDS ==> exists|c: Seq<KBucketEntry>|
                #![trigger closest_of(gather(table@.buckets, bucket_index_of(table@.local, old(self)@.target), LOOKUP_WIDTH as nat, 0, Seq::empty()), old(self)@.target, LOOKUP_WIDTH as nat, c)]
                closest_of(
                    gather(table@.buckets, bucket_index_of(table@.local, old(self)@.target), LOOKUP_WIDTH as nat, 0, Seq::empty()),
                    old(self)@.target,
                    LOOKUP_WIDTH as nat,
                    c,
                ) && if c.len() == 0 {
                    r is None && final(self)@ == old(self)@
                } else {
                    &&& r matches Some(v)
                    &&& v@ == fresh_entries(c, old(self)@.queried)
                    &&& final(self)@ == (LookupModel {
                        queried: asked_after(c, old(self)@.queried),
                        found_any: false,
                        ..old(self)@
                    })
                },
    {
        if self.round >= BOOTSTRAP_ROUNDS {
            return None;
        }
        let closest = table.find_closest(&self.target, LOOKUP_WIDTH);
        assert(closest_of(
            gather(table@.buckets, bucket_index_of(table@.local, old(self)@.target), LOOKUP_WIDTH as nat, 0, Seq::empty()),
            old(self)@.target,
            LOOKUP_WIDTH as nat,
            closest@,
        ));
        if closest.len() == 0 {
            return None;
        }
        let ghost q0 = self.queried@;
        let mut picked: Vec<KBucketEntry> = Vec::new();
        let mut i: usize = 0;
        while i < closest.len()
            invariant
                i <= closest@.len(),
                picked@ == fresh_entries(closest@.take(i as int), q0),
                self.queried@ == asked_after(closest@.take(i as int), q0),
                self.target == old(self).target,
                self.round == old(self).round,
                self.found_any == old(self).found_any,
            decreases closest@.len() - i,
        {
            let e = closest[i];
            let ghost c = closest@.take(i as int);
            let ghost c1 = closest@.take(i + 1);
            proof {
                assert(c1.drop_last() =~= c);
                assert(c1.last() == e);
                lemma_asked_contains(c, q0, e.addr);
            }
            if !crate::krpc::contains_addr(&self.queried, &e.addr) {
                picked.push(e);
                self.queried.push(e.addr);
                proof {
                    assert(fresh_entries(c1, q0) == fresh_entries(c, q0).push(e));
                    assert(asked_after(c1, q0) =~= asked_after(c, q0).push(e.addr));
                }
            } else {
                assert(fresh_entries(c1, q0) == fresh_entries(c, q0));
            }
            i += 1;
        }
        assert(closest@.take(closest@.len() as int) =~= closest@);
        self.found_any = false;
        assert(self@ == (LookupModel { queried: asked_after(closest@, old(self)@.queried), found_any: false, ..old(self)@ }));
        Some(picked)
    }

    /// The request sent to each node asked in this round.
    pub fn query(&self, local_id: &NodeId) -> (m: DhtMessage)
        ensures
            m == (DhtMessage::FindNode {
                header: MessageHeader {
                    magic: MAGIC,
                    msg_type: MessageType::FindNode,
                    txn_id: (self@.round % 65536) as u16,
                    ver: PROTOCOL_VERSION,
                },
                node_id: *local_id,
                target: self@.target,
            }),
    {
        DhtMessage::FindNode {
            header: MessageHeader {
                magic: MAGIC,
                msg_type: MessageType::FindNode,
                txn_id: (self.round % 65536) as u16,
                ver: PROTOCOL_VERSION,
            },
            node_id: *local_id,
            target: self.target,
        }
    }

    /// Takes in an answer met at `now`: each node of a node answer is offered
    /// to the table, and the round counts as having met nodes if there were any.
    pub fn absorb_answer_at(&mut self, table: &mut RoutingTable, answer: &DhtMessage, now: u64)
        requires
            table_ok(old(table)@),
        ensures
            table_ok(final(table)@),
            match *answer {
                DhtMessage::FindNodeResponse { nodes, .. } => {
                    &&& final(table)@ == insert_met(old(table)@, nodes@, now)
                    &&& final(self)@ == (LookupModel { found_any: old(self)@.found_any || nodes@.len() > 0, ..old(self)@ })
                },
                _ => final(table)@ == old(table)@ && final(self)@ == old(self)@,
            },
    {
        if let DhtMessage::FindNodeResponse { nodes, .. } = answer {
            let mut i: usize = 0;
            while i < nodes.len()
                invariant
                    i <= nodes@.len(),
                    table_ok(table@),
                    table@ == insert_met(old(table)@, nodes@.take(i as int), now),
                    self@ == (LookupModel { found_any: old(self)@.found_any || i > 0, ..old(self)@ }),
                decreases nodes@.len() - i,
            {
                let n = nodes[i];
                let e = KBucketEntry {
                    node_id: n.node_id,
                    addr: SocketAddress { ip: crate::types::IpAddress::V4(n.ip), port: n.port },
                    last_seen_ms: now,
                    latency_ms: 0,
                    is_firewalled: false,
                };
                proof {
                    assert(nodes@.take(i + 1).drop_last() =~= nodes@.take(i as int));
                    assert(nodes@.take(i + 1).last() == n);
                    assert(e == met_node(n, now));
                }
                let _ = table.insert_at(e, now);
                self.found_any = true;
                i += 1;
            }
            assert(nodes@.take(nodes@.len() as int) =~= nodes@);
        }
    }

    /// Takes in an answer, now; see `absorb_answer_at`.
    pub fn absorb_answer(&mut self, table: &mut RoutingTable, answer: &DhtMessage)
        requires
            table_ok(old(table)@),
        ensures
            table_ok(final(table)@),
            match *answer {
                DhtMessage::FindNodeResponse { nodes, .. } => {
                    &&& exists|now: u64| final(table)@ == #[trigger] insert_met(old(table)@, nodes@, now)
                    &&& final(self)@ == (LookupModel { found_any: old(self)@.found_any || nodes@.len() > 0, ..old(self)@ })
                },
                _ => final(table)@ == old(table)@ && final(self)@ == old(self)@,
            },
    {
        self.absorb_answer_at(table, answer, crate::util::current_time_millis());
    }

    /// Ends a round: false, to stop, when it met no node or was the last of
    /// `BOOTSTRAP_ROUNDS`; else the next round.
    pub fn end_round(&mut self) -> (go_on: bool)
        ensures
            go_on == (old(self)@.found_any && old(self)@.round + 1 < BOOTSTRAP_ROUNDS),
            final(self)@ == (LookupModel {
                round: if go_on { old(self)@.round + 1 } else { old(self)@.round },
                ..old(self)@
            }),
    {
        if !self.found_any || self.round >= BOOTSTRAP_ROUNDS - 1 {
            return false;
        }
        self.round = self.round + 1;
        true
    }
}

/// Membership in a sequence with one more element.
proof fn lemma_push_contains<A>(s: Seq<A>, x: A, a: A)
    ensures
        s.push(x).contains(a) <==> (s.contains(a) || a == x),
{
    if s.push(x).contains(a) {
        let w = choose|w: int| 0 <= w < s.push(x).len() && s.push(x)[w] == a;
        if w < s.len() {
            assert(s[w] == a);
        }
    }
    if s.contains(a) {
        let w = choose|w: int| 0 <= w < s.len() && s[w] == a;
        assert(s.push(x)[w] == a);
    }
    if a == x {
        assert(s.push(x)[s.len() as int] == a);
    }
}

/// Membership in a concatenation.
proof fn lemma_concat_contains<A>(s: Seq<A>, t: Seq<A>, a: A)
    ensures
        (s + t).contains(a) <==> (s.contains(a) || t.contains(a)),
{
    if (s + t).contains(a) {
        let w = choose|w: int| 0 <= w < (s + t).len() && (s + t)[w] == a;
        if w < s.len() {
            assert(s[w] == a);
        } else {
            assert(t[w - s.len()] == a);
        }
    }
    if s.contains(a) {
        let w = choose|w: int| 0 <= w < s.len() && s[w] == a;
        assert((s + t)[w] == a);
    }
    if t.contains(a) {
        let w = choose|w: int| 0 <= w < t.len() && t[w] == a;
        assert((s + t)[s.len() + w] == a);
    }
}

/// The addresses to ask are those of `c` not asked before.
proof fn lemma_fresh_contains(c: Seq<KBucketEntry>, q: Seq<SocketAddress>, a: SocketAddress)
    ensures
        fresh_entries(c, q).map_values(|e: KBucketEntry| e.addr).contains(a) <==> (!q.contains(a)
            && c.map_values(|e: KBucketEntry| e.addr).contains(a)),
    decreases c.len(),
{
    let fc = fresh_entries(c, q).map_values(|e: KBucketEntry| e.addr);
    let mc = c.map_values(|e: KBucketEntry| e.addr);
    if c.len() == 0 {
        assert(fc.len() == 0);
        assert(mc.len() == 0);
    } else {
        let t = c.drop_last();
        let xa = c.last().addr;
        lemma_fresh_contains(t, q, a);
        let ft = fresh_entries(t, q).map_values(|e: KBucketEntry| e.addr);
        let mt = t.map_values(|e: KBucketEntry| e.addr);
        assert(mc =~= mt.push(xa));
        lemma_push_contains(mt, xa, a);
        if q.contains(xa) || mt.contains(xa) {
            assert(fc =~= ft);
        } else {
            assert(fc =~= ft.push(xa));
            lemma_push_contains(ft, xa, a);
        }
    }
}

/// An address is asked after a round if it was before or is one of the round's.
proof fn lemma_asked_contains(c: Seq<KBucketEntry>, q: Seq<SocketAddress>, a: SocketAddress)
    ensures
        asked_after(c, q).contains(a) <==> (q.contains(a) || c.map_values(|e: KBucketEntry| e.addr).contains(a)),
{
    lemma_fresh_contains(c, q, a);
    lemma_concat_contains(q, fresh_entries(c, q).map_values(|e: KBucketEntry| e.addr), a);
}

/// What a node's peer search answers: the peers found, or `NoPeers` when the
/// search failed or found none.
pub fn search_outcome(r: Result<IterativeFindPeersResult, QvodError>) -> (out: Result<Vec<PeerInfo>, QvodError>)
    ensures
        match r {
            Ok(res) => if res.peers@.len() > 0 {
                out matches Ok(p) && p@ == res.peers@
            } else {
                out matches Err(QvodError::NoPeers)
            },
            Err(_) => out matches Err(QvodError::NoPeers),
        },
{
    match r {
        Ok(res) => {
            if res.peers.len() > 0 {
                Ok(res.peers)
            } else {
                Err(QvodError::NoPeers)
            }
        },
        Err(_) => Err(QvodError::NoPeers),
    }
}

/// The announce sent to a node for `info_hash`, with the token for its address.
pub open spec fn announce_to(
    m: RpcModel,
    local: NodeId,
    info_hash: Seq<u8>,
    port: u16,
    e: KBucketEntry,
    msg: DhtMessage,
) -> bool {
    msg matches DhtMessage::Announce { header, node_id, info_hash: h, token, port: p } && header == (MessageHeader {
        magic: MAGIC,
        msg_type: MessageType::Announce,
        txn_id: 0,
        ver: PROTOCOL_VERSION,
    }) && node_id == local && h@ == info_hash && token@ == token_for(e.addr, m.tokens.secret_a) && p == port
}

impl KademliaRpc {
    /// The announces for `info_hash` and `port` to the eight nodes nearest to
    /// it, each with its address and the token for that address.
    pub fn announce_requests(&self, info_hash: &InfoHash, port: u16, local_id: &NodeId) -> (r: Vec<(SocketAddress, DhtMessage)>)
        requires
            rpc_ok(self@),
        ensures
            exists|c: Seq<KBucketEntry>|
                #![trigger closest_of(gather(self@.table.buckets, bucket_index_of(self@.table.local, NodeId(info_hash.0)), 8, 0, Seq::empty()), NodeId(info_hash.0), 8, c)]
                closest_of(
                    gather(self@.table.buckets, bucket_index_of(self@.table.local, NodeId(info_hash.0)), 8, 0, Seq::empty()),
                    NodeId(info_hash.0),
                    8,
                    c,
                ) && r@.len() == c.len() && forall|i: int|
                    0 <= i < c.len() ==> (#[trigger] r@[i]).0 == c[i].addr && announce_to(
                        self@,
                        *local_id,
                        info_hash.0@,
                        port,
                        c[i],
                        r@[i].1,
                    ),
    {
        let closest = self.routing_table().find_closest(&NodeId(info_hash.0), 8);
        let mut out: Vec<(SocketAddress, DhtMessage)> = Vec::new();
        let mut i: usize = 0;
        while i < closest.len()
            invariant
                i <= closest@.len(),
                out@.len() == i,
                forall|k: int|
                    0 <= k < i ==> (#[trigger] out@[k]).0 == closest@[k].addr && announce_to(
                        self@,
                        *local_id,
                        info_hash.0@,
                        port,
                        closest@[k],
                        out@[k].1,
                    ),
            decreases closest@.len() - i,
        {
            let e = closest[i];
            let token = self.token_manager().generate_token(&e.addr);
            let msg = DhtMessage::Announce {
                header: MessageHeader { magic: MAGIC, msg_type: MessageType::Announce, txn_id: 0, ver: PROTOCOL_VERSION },
                node_id: *local_id,
                info_hash: info_hash.0,
                token,
                port,
            };
            out.push((e.addr, msg));
            i += 1;
        }
        out
    }

    /// Answers a datagram from `sender`: a datagram that does not read changes
    /// nothing and gets no answer; a message that reads is handled, and the
    /// bytes of its answer are sent back when it has one.
    pub fn respond(&mut self, datagram: &[u8], sender: SocketAddress) -> (r: Option<Vec<u8>>)
        requires
            rpc_ok(old(self)@),
        ensures
            rpc_ok(final(self)@),
            spec_decode_msg(datagram@) is Err ==> r is None && final(self)@ == old(self)@,
            spec_decode_msg(datagram@) is Ok ==> exists|m: DhtMessage, res: Result<Option<DhtMessage>, QvodError>|
                #![trigger answered(old(self)@, final(self)@, m, sender, res)]
                m.model() == spec_decode_msg(datagram@)->Ok_0 && answered(old(self)@, final(self)@, m, sender, res)
                    && match res {
                    Ok(Some(answer)) => r matches Some(bytes) && bytes@ == enc_msg(answer.model()),
                    _ => r is None,
                },
    {
        match DhtMessage::decode(datagram) {
            Ok(msg) => match self.handle_message(&msg, sender) {
                Ok(Some(response)) => Some(response.encode()),
                _ => None,
            },
            Err(_) => None,
        }
    }
}

} // verus!
