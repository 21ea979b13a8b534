//! The DHT wire format: an 8-byte header (magic, type, transaction id,
//! version) followed by a body that depends on the type.
use vstd::prelude::*;

use crate::error::QvodError;
use crate::types::NodeId;

verus! {

broadcast use vstd::std_specs::vec::group_vec_axioms;

/// The first four bytes of every message: `QVDT`.
pub const MAGIC: [u8; 4] = [0x51, 0x56, 0x44, 0x54];

/// The only protocol version spoken.
pub const PROTOCOL_VERSION: u8 = 0x01;

/// The magic bytes as a sequence.
pub open spec fn magic_seq() -> Seq<u8> {
    seq![0x51u8, 0x56u8, 0x44u8, 0x54u8]
}

/// The kind of a message, as its header names it.
#[derive(Debug, Clone, Copy, PartialEq, Eq, Structural)]
pub enum MessageType {
    Ping,
    FindNode,
    FindPeers,
    Announce,
}

/// The byte that stands for a message type.
pub open spec fn type_byte(t: MessageType) -> u8 {
    match t {
        MessageType::Ping => 0x00,
        MessageType::FindNode => 0x01,
        MessageType::FindPeers => 0x02,
        MessageType::Announce => 0x03,
    }
}

/// The message type a byte stands for.
pub open spec fn type_of_byte(v: u8) -> Option<MessageType> {
    if v == 0x00 {
        Some(MessageType::Ping)
    } else if v == 0x01 {
        Some(MessageType::FindNode)
    } else if v == 0x02 {
        Some(MessageType::FindPeers)
    } else if v == 0x03 {
        Some(MessageType::Announce)
    } else {
        None
    }
}

impl MessageType {
    /// The message type a byte stands for.
    pub fn from_u8(v: u8) -> (r: Option<MessageType>)
        ensures
            r == type_of_byte(v),
    {
        if v == 0x00 {
            Some(MessageType::Ping)
        } else if v == 0x01 {
            Some(MessageType::FindNode)
        } else if v == 0x02 {
            Some(MessageType::FindPeers)
        } else if v == 0x03 {
            Some(MessageType::Announce)
        } else {
            None
        }
    }

    /// The byte that stands for this type.
    pub fn to_u8(&self) -> (b: u8)
        ensures
            b == type_byte(*self),
    {
        match self {
            MessageType::Ping => 0x00,
            MessageType::FindNode => 0x01,
            MessageType::FindPeers => 0x02,
            MessageType::Announce => 0x03,
        }
    }
}

/// The header of a message.
#[derive(Debug, Clone, Copy)]
pub struct MessageHeader {
    pub magic: [u8; 4],
    pub msg_type: MessageType,
    pub txn_id: u16,
    pub ver: u8,
}

/// A node's identity and address.
#[derive(Debug, Clone, Copy)]
pub struct NodeInfo {
    pub node_id: NodeId,
    pub ip: [u8; 4],
    pub port: u16,
}

/// The answer to a peer search: peers (six bytes each: address, port) or closer nodes.
#[derive(Debug, Clone)]
pub enum FindPeersResult {
    Peers(Vec<[u8; 6]>),
    Nodes(Vec<NodeInfo>),
}

/// A DHT message.
#[derive(Debug, Clone)]
pub enum DhtMessage {
    Ping { header: MessageHeader, node_id: NodeId },
    PingResponse { header: MessageHeader, node_id: NodeId },
    FindNode { header: MessageHeader, node_id: NodeId, target: NodeId },
    FindNodeResponse { header: MessageHeader, node_id: NodeId, nodes: Vec<NodeInfo> },
    FindPeers { header: MessageHeader, node_id: NodeId, info_hash: [u8; 20] },
    FindPeersResponse { header: MessageHeader, node_id: NodeId, values: FindPeersResult },
    Announce {
        header: MessageHeader,
        node_id: NodeId,
        info_hash: [u8; 20],
        token: [u8; 4],
        port: u16,
    },
    AnnounceResponse { header: MessageHeader, node_id: NodeId },
}

/// A header as mathematics sees it.
pub struct HeaderModel {
    pub magic: Seq<u8>,
    pub msg_type: MessageType,
    pub txn_id: u16,
    pub ver: u8,
}

/// A node record as mathematics sees it.
pub struct NodeModel {
    pub node_id: Seq<u8>,
    pub ip: Seq<u8>,
    pub port: u16,
}

/// A peer search answer as mathematics sees it.
pub enum PeersModel {
    Peers(Seq<Seq<u8>>),
    Nodes(Seq<NodeModel>),
}

/// A message as mathematics sees it.
pub enum MsgModel {
    Ping(HeaderModel, Seq<u8>),
    PingResponse(HeaderModel, Seq<u8>),
    FindNode(HeaderModel, Seq<u8>, Seq<u8>),
    FindNodeResponse(HeaderModel, Seq<u8>, Seq<NodeModel>),
    FindPeers(HeaderModel, Seq<u8>, Seq<u8>),
    FindPeersResponse(HeaderModel, Seq<u8>, PeersModel),
    Announce(HeaderModel, Seq<u8>, Seq<u8>, Seq<u8>, u16),
    AnnounceResponse(HeaderModel, Seq<u8>),
}

impl MessageHeader {
    pub open spec fn model(&self) -> HeaderModel {
        HeaderModel {
            magic: self.magic@,
            msg_type: self.msg_type,
            txn_id: self.txn_id,
            ver: self.ver,
        }
    }
}

impl NodeInfo {
    pub open spec fn model(&self) -> NodeModel {
        NodeModel { node_id: self.node_id.0@, ip: self.ip@, port: self.port }
    }
}

/// The models of node records.
pub open spec fn nodes_model(s: Seq<NodeInfo>) -> Seq<NodeModel> {
    Seq::new(s.len(), |i: int| s[i].model())
}

/// The bytes of six-byte peer records.
pub open spec fn peers_model(s: Seq<[u8; 6]>) -> Seq<Seq<u8>> {
    Seq::new(s.len(), |i: int| s[i]@)
}

impl FindPeersResult {
    pub open spec fn model(&self) -> PeersModel {
        match self {
            FindPeersResult::Peers(p) => PeersModel::Peers(peers_model(p@)),
            FindPeersResult::Nodes(n) => PeersModel::Nodes(nodes_model(n@)),
        }
    }
}

impl DhtMessage {
    pub open spec fn model(&self) -> MsgModel {
        match self {
            DhtMessage::Ping { header, node_id } => MsgModel::Ping(header.model(), node_id.0@),
            DhtMessage::PingResponse { header, node_id } => MsgModel::PingResponse(
                header.model(),
                node_id.0@,
            ),
            DhtMessage::FindNode { header, node_id, target } => MsgModel::FindNode(
                header.model(),
                node_id.0@,
                target.0@,
            ),
            DhtMessage::FindNodeResponse { header, node_id, nodes } => MsgModel::FindNodeResponse(
                header.model(),
                node_id.0@,
                nodes_model(nodes@),
            ),
            DhtMessage::FindPeers { header, node_id, info_hash } => MsgModel::FindPeers(
                header.model(),
                node_id.0@,
                info_hash@,
            ),
            DhtMessage::FindPeersResponse { header, node_id, values } => MsgModel::FindPeersResponse(
                header.model(),
                node_id.0@,
                values.model(),
            ),
            DhtMessage::Announce { header, node_id, info_hash, token, port } => MsgModel::Announce(
                header.model(),
                node_id.0@,
                info_hash@,
                token@,
                *port,
            ),
            DhtMessage::AnnounceResponse { header, node_id } => MsgModel::AnnounceResponse(
                header.model(),
                node_id.0@,
            ),
        }
    }
}

/// A big-endian 16-bit number.
pub open spec fn be16(hi: u8, lo: u8) -> u16 {
    (hi * 256 + lo) as u16
}

/// The two big-endian bytes of a 16-bit number.
pub open spec fn be16_bytes(v: u16) -> Seq<u8> {
    seq![(v / 256) as u8, (v % 256) as u8]
}

/// The 26 bytes of a node record: id, address, port.
pub open spec fn enc_node(n: NodeModel) -> Seq<u8> {
    n.node_id + n.ip + be16_bytes(n.port)
}

/// Node records one after another.
pub open spec fn enc_nodes(ns: Seq<NodeModel>) -> Seq<u8>
    decreases ns.len(),
{
    if ns.len() == 0 {
        Seq::empty()
    } else {
        enc_nodes(ns.drop_last()) + enc_node(ns.last())
    }
}

/// Peer records one after another.
pub open spec fn enc_peers(ps: Seq<Seq<u8>>) -> Seq<u8>
    decreases ps.len(),
{
    if ps.len() == 0 {
        Seq::empty()
    } else {
        enc_peers(ps.drop_last()) + ps.last()
    }
}

/// The 8 header bytes: magic, type, transaction id, version. The magic and
/// version written are always the protocol's own.
pub open spec fn enc_header(h: HeaderModel) -> Seq<u8> {
    magic_seq() + seq![type_byte(h.msg_type)] + be16_bytes(h.txn_id) + seq![1u8]
}

/// The bytes of a message.
pub open spec fn enc_msg(m: MsgModel) -> Seq<u8> {
    match m {
        MsgModel::Ping(h, id) => enc_header(h) + id,
        MsgModel::PingResponse(h, id) => enc_header(h) + id,
        MsgModel::FindNode(h, id, t) => enc_header(h) + id + t,
        MsgModel::FindNodeResponse(h, id, ns) => enc_header(h) + id + enc_nodes(ns),
        MsgModel::FindPeers(h, id, ih) => enc_header(h) + id + ih,
        MsgModel::FindPeersResponse(h, id, v) => enc_header(h) + id + match v {
            PeersModel::Peers(ps) => seq![0u8] + be16_bytes((ps.len() % 65536) as u16) + enc_peers(ps),
            PeersModel::Nodes(ns) => seq![1u8] + be16_bytes((ns.len() % 65536) as u16) + enc_nodes(ns),
        },
        MsgModel::Announce(h, id, ih, tok, port) => enc_header(h) + id + ih + tok + be16_bytes(port),
        MsgModel::AnnounceResponse(h, id) => enc_header(h) + id + seq![0u8],
    }
}

/// The node record at offset `off`.
pub open spec fn node_at(d: Seq<u8>, off: int) -> NodeModel {
    NodeModel {
        node_id: d.subrange(off, off + 20),
        ip: d.subrange(off + 20, off + 24),
        port: be16(d[off + 24], d[off + 25]),
    }
}

/// The first `n` node records of `d`.
pub open spec fn nodes_from(d: Seq<u8>, n: nat) -> Seq<NodeModel> {
    Seq::new(n, |i: int| node_at(d, 26 * i))
}

/// The first `n` six-byte peer records of `d`.
pub open spec fn peers_from(d: Seq<u8>, n: nat) -> Seq<Seq<u8>> {
    Seq::new(n, |i: int| d.subrange(6 * i, 6 * i + 6))
}

/// The smaller of two numbers.
pub open spec fn min_nat(a: nat, b: nat) -> nat {
    if a <= b {
        a
    } else {
        b
    }
}

/// What decoding a header gives.
pub open spec fn spec_decode_header(d: Seq<u8>) -> Result<HeaderModel, Seq<char>> {
    if d.len() < 8 {
        Err("header too short"@)
    } else if d.take(4) != magic_seq() {
        Err("invalid magic"@)
    } else {
        match type_of_byte(d[4]) {
            None => Err("unknown msg type"@),
            Some(t) => if d[7] != 1 {
                Err("unsupported version"@)
            } else {
                Ok(HeaderModel { magic: d.take(4), msg_type: t, txn_id: be16(d[5], d[6]), ver: d[7] })
            },
        }
    }
}

/// What decoding a message gives: the message, or why it is refused.
pub open spec fn spec_decode_msg(d: Seq<u8>) -> Result<MsgModel, Seq<char>> {
    match spec_decode_header(d) {
        Err(e) => Err(e),
        Ok(h) => {
            let rest = d.skip(8);
            match h.msg_type {
                MessageType::Ping => if rest.len() < 20 {
                    Err("ping too short"@)
                } else {
                    Ok(MsgModel::Ping(h, rest.take(20)))
                },
                MessageType::FindNode => if rest.len() < 20 {
                    Err("find_node too short"@)
                } else if rest.len() == 40 {
                    Ok(MsgModel::FindNode(h, rest.take(20), rest.subrange(20, 40)))
                } else {
                    let nd = rest.skip(20);
                    Ok(MsgModel::FindNodeResponse(h, rest.take(20), nodes_from(nd, nd.len() / 26)))
                },
                MessageType::FindPeers => if rest.len() < 40 {
                    Err("find_peers too short"@)
                } else if rest.len() == 40 {
                    Ok(MsgModel::FindPeers(h, rest.take(20), rest.subrange(20, 40)))
                } else {
                    let payload = rest.skip(41);
                    if payload.len() < 2 {
                        Err("find_peers response too short"@)
                    } else {
                        let count = be16(payload[0], payload[1]) as nat;
                        let data = payload.skip(2);
                        Ok(
                            MsgModel::FindPeersResponse(
                                h,
                                rest.take(20),
                                if rest[40] == 0 {
                                    PeersModel::Peers(peers_from(data, min_nat(count, data.len() / 6)))
                                } else {
                                    PeersModel::Nodes(nodes_from(data, min_nat(count, data.len() / 26)))
                                },
                            ),
                        )
                    }
                },
                MessageType::Announce => if rest.len() < 21 {
                    Err("announce too short"@)
                } else if rest.len() == 21 {
                    Ok(MsgModel::AnnounceResponse(h, rest.take(20)))
                } else if rest.len() >= 46 {
                    Ok(
                        MsgModel::Announce(
                            h,
                            rest.take(20),
                            rest.subrange(20, 40),
                            rest.subrange(40, 44),
                            be16(rest[44], rest[45]),
                        ),
                    )
                } else {
                    Err("announce payload incomplete"@)
                },
            }
        },
    }
}

} // verus!

verus! {

/// A big-endian 16-bit number from its two bytes.
fn read_be16(hi: u8, lo: u8) -> (v: u16)
    ensures
        v == be16(hi, lo),
{
    (hi as u16) * 256 + (lo as u16)
}

/// Appends the two big-endian bytes of `v`.
fn push_be16(buf: &mut Vec<u8>, v: u16)
    ensures
        final(buf)@ == old(buf)@ + be16_bytes(v),
{
    buf.push((v / 256) as u8);
    buf.push((v % 256) as u8);
    assert(final(buf)@ =~= old(buf)@ + be16_bytes(v));
}

/// Appends bytes.
fn push_all(buf: &mut Vec<u8>, s: &[u8])
    ensures
        final(buf)@ == old(buf)@ + s@,
{
    let mut i: usize = 0;
    while i < s.len()
        invariant
            i <= s@.len(),
            buf@ == old(buf)@ + s@.take(i as int),
        decreases s@.len() - i,
    {
        buf.push(s[i]);
        proof {
            assert(s@.take(i + 1) =~= s@.take(i as int).push(s@[i as int]));
        }
        i += 1;
    }
    assert(s@.take(s@.len() as int) =~= s@);
}

/// 20 bytes of `d` from `off`.
fn bytes20(d: &[u8], off: usize) -> (a: [u8; 20])
    requires
        off + 20 <= d@.len(),
    ensures
        a@ == d@.subrange(off as int, off + 20),
{
    let mut a = [0u8; 20];
    let mut i: usize = 0;
    assert(d@.len() == d.len());
    while i < 20
        invariant
            i <= 20,
            off + 20 <= d@.len(),
            d@.len() == d.len(),
            forall|k: int| 0 <= k < i ==> a@[k] == d@[off + k],
        decreases 20 - i,
    {
        a[i] = d[off + i];
        i += 1;
    }
    assert(a@ =~= d@.subrange(off as int, off + 20));
    a
}

/// 4 bytes of `d` from `off`.
fn bytes4(d: &[u8], off: usize) -> (a: [u8; 4])
    requires
        off + 4 <= d@.len(),
    ensures
        a@ == d@.subrange(off as int, off + 4),
{
    let a = [d[off], d[off + 1], d[off + 2], d[off + 3]];
    assert(a@ =~= d@.subrange(off as int, off + 4));
    a
}

/// 6 bytes of `d` from `off`.
fn bytes6(d: &[u8], off: usize) -> (a: [u8; 6])
    requires
        off + 6 <= d@.len(),
    ensures
        a@ == d@.subrange(off as int, off + 6),
{
    let a = [d[off], d[off + 1], d[off + 2], d[off + 3], d[off + 4], d[off + 5]];
    assert(a@ =~= d@.subrange(off as int, off + 6));
    a
}

/// A protocol error with the given text.
fn protocol_error(msg: &str) -> (e: QvodError)
    ensures
        e matches QvodError::Protocol(m) && m@ == msg@,
{
    QvodError::Protocol(String::from_str(msg))
}

/// The header bytes.
fn encode_header(header: &MessageHeader) -> (buf: Vec<u8>)
    ensures
        buf@ == enc_header(header.model()),
{
    let mut buf: Vec<u8> = Vec::new();
    buf.push(0x51u8);
    buf.push(0x56u8);
    buf.push(0x44u8);
    buf.push(0x54u8);
    buf.push(header.msg_type.to_u8());
    push_be16(&mut buf, header.txn_id);
    buf.push(PROTOCOL_VERSION);
    assert(buf@ =~= enc_header(header.model()));
    buf
}

/// Reads the header from the front of `data`.
fn decode_header(data: &[u8]) -> (r: Result<(MessageHeader, &[u8]), QvodError>)
    ensures
        match spec_decode_header(data@) {
            Ok(h) => r matches Ok((x, rest)) && x.model() == h && rest@ == data@.skip(8),
            Err(e) => r matches Err(QvodError::Protocol(t)) && t@ == e,
        },
{
    if data.len() < 8 {
        return Err(protocol_error("header too short"));
    }
    let magic = bytes4(data, 0);
    if !(magic[0] == 0x51u8 && magic[1] == 0x56u8 && magic[2] == 0x44u8 && magic[3] == 0x54u8) {
        proof {
            if data@.take(4) == magic_seq() {
                assert(data@.take(4)[0] == magic[0]);
                assert(data@.take(4)[1] == magic[1]);
                assert(data@.take(4)[2] == magic[2]);
                assert(data@.take(4)[3] == magic[3]);
            }
        }
        return Err(protocol_error("invalid magic"));
    }
    assert(data@.take(4) =~= magic_seq());
    let msg_type = match MessageType::from_u8(data[4]) {
        Some(t) => t,
        None => {
            return Err(protocol_error("unknown msg type"));
        },
    };
    let txn_id = read_be16(data[5], data[6]);
    let ver = data[7];
    if ver != PROTOCOL_VERSION {
        return Err(protocol_error("unsupported version"));
    }
    assert(magic@ =~= data@.take(4));
    let rest = &data[8..data.len()];
    assert(rest@ =~= data@.skip(8));
    Ok((MessageHeader { magic, msg_type, txn_id, ver }, rest))
}

impl NodeInfo {
    /// The 26 bytes of the record: id, address, port.
    pub fn encode(&self) -> (buf: Vec<u8>)
        ensures
            buf@ == enc_node(self.model()),
    {
        let mut buf: Vec<u8> = Vec::new();
        push_all(&mut buf, &self.node_id.0);
        push_all(&mut buf, &self.ip);
        push_be16(&mut buf, self.port);
        buf
    }

    /// Reads a record from the front of `data`.
    pub fn decode(data: &[u8]) -> (r: Result<(NodeInfo, &[u8]), QvodError>)
        ensures
            data@.len() < 26 ==> (r matches Err(QvodError::Protocol(t)) && t@ == "node info too short"@),
            data@.len() >= 26 ==> (r matches Ok((n, rest)) && n.model() == node_at(data@, 0)
                && rest@ == data@.skip(26)),
    {
        if data.len() < 26 {
            return Err(protocol_error("node info too short"));
        }
        let node_id = bytes20(data, 0);
        let ip = bytes4(data, 20);
        let port = read_be16(data[24], data[25]);
        let rest = &data[26..data.len()];
        assert(rest@ =~= data@.skip(26));
        Ok((NodeInfo { node_id: NodeId(node_id), ip, port }, rest))
    }
}

/// Appends node records.
fn push_nodes(buf: &mut Vec<u8>, nodes: &Vec<NodeInfo>)
    ensures
        final(buf)@ == old(buf)@ + enc_nodes(nodes_model(nodes@)),
{
    let ghost m = nodes_model(nodes@);
    let mut k: usize = 0;
    while k < nodes.len()
        invariant
            k <= nodes@.len(),
            m == nodes_model(nodes@),
            buf@ == old(buf)@ + enc_nodes(m.take(k as int)),
        decreases nodes@.len() - k,
    {
        let e = nodes[k].encode();
        push_all(buf, e.as_slice());
        proof {
            assert(m.take(k + 1).drop_last() =~= m.take(k as int));
            assert(m.take(k + 1).last() == nodes@[k as int].model());
        }
        k += 1;
    }
    assert(m.take(nodes@.len() as int) =~= m);
}

/// Appends six-byte peer records.
fn push_peers(buf: &mut Vec<u8>, peers: &Vec<[u8; 6]>)
    ensures
        final(buf)@ == old(buf)@ + enc_peers(peers_model(peers@)),
{
    let ghost m = peers_model(peers@);
    let mut k: usize = 0;
    while k < peers.len()
        invariant
            k <= peers@.len(),
            m == peers_model(peers@),
            buf@ == old(buf)@ + enc_peers(m.take(k as int)),
        decreases peers@.len() - k,
    {
        push_all(buf, &peers[k]);
        proof {
            assert(m.take(k + 1).drop_last() =~= m.take(k as int));
            assert(m.take(k + 1).last() == peers@[k as int]@);
        }
        k += 1;
    }
    assert(m.take(peers@.len() as int) =~= m);
}

impl DhtMessage {
    /// The bytes of the message. The header is written with the protocol's
    /// magic and version, whatever the header holds.
    pub fn encode(&self) -> (buf: Vec<u8>)
        ensures
            buf@ == enc_msg(self.model()),
    {
        match self {
            DhtMessage::Ping { header, node_id } | DhtMessage::PingResponse { header, node_id } => {
                let mut buf = encode_header(header);
                push_all(&mut buf, &node_id.0);
                buf
            },
            DhtMessage::FindNode { header, node_id, target } => {
                let mut buf = encode_header(header);
                push_all(&mut buf, &node_id.0);
                push_all(&mut buf, &target.0);
                buf
            },
            DhtMessage::FindNodeResponse { header, node_id, nodes } => {
                let mut buf = encode_header(header);
                push_all(&mut buf, &node_id.0);
                push_nodes(&mut buf, nodes);
                buf
            },
            DhtMessage::FindPeers { header, node_id, info_hash } => {
                let mut buf = encode_header(header);
                push_all(&mut buf, &node_id.0);
                push_all(&mut buf, info_hash);
                buf
            },
            DhtMessage::FindPeersResponse { header, node_id, values } => {
                let mut buf = encode_header(header);
                push_all(&mut buf, &node_id.0);
                let ghost before = buf@;
                match values {
                    FindPeersResult::Peers(peers) => {
                        buf.push(0x00u8);
                        push_be16(&mut buf, (peers.len() % 65536) as u16);
                        push_peers(&mut buf, peers);
                        assert(buf@ =~= before + (seq![0u8] + be16_bytes((peers@.len() % 65536) as u16)
                            + enc_peers(peers_model(peers@))));
                    },
                    FindPeersResult::Nodes(nodes) => {
                        buf.push(0x01u8);
                        push_be16(&mut buf, (nodes.len() % 65536) as u16);
                        push_nodes(&mut buf, nodes);
                        assert(buf@ =~= before + (seq![1u8] + be16_bytes((nodes@.len() % 65536) as u16)
                            + enc_nodes(nodes_model(nodes@))));
                    },
                }
                buf
            },
            DhtMessage::Announce { header, node_id, info_hash, token, port } => {
                let mut buf = encode_header(header);
                push_all(&mut buf, &node_id.0);
                push_all(&mut buf, info_hash);
                push_all(&mut buf, token);
                push_be16(&mut buf, *port);
                buf
            },
            DhtMessage::AnnounceResponse { header, node_id } => {
                let mut buf = encode_header(header);
                push_all(&mut buf, &node_id.0);
                buf.push(0x00u8);
                buf
            },
        }
    }

    /// A reply rather than a request.
    pub fn is_response(&self) -> (b: bool)
        ensures
            b == (self is PingResponse || self is FindNodeResponse || self is FindPeersResponse
                || self is AnnounceResponse),
    {
        match self {
            DhtMessage::PingResponse { .. } | DhtMessage::FindNodeResponse { .. }
            | DhtMessage::FindPeersResponse { .. } | DhtMessage::AnnounceResponse { .. } => true,
            _ => false,
        }
    }
}

} // verus!

verus! {

/// Reading `k` records of 26 bytes leaves what follows them.
proof fn lemma_node_at_skip(d: Seq<u8>, k: int)
    requires
        0 <= k,
        26 * k + 26 <= d.len(),
    ensures
        node_at(d.skip(26 * k), 0) == node_at(d, 26 * k),
        d.skip(26 * k).skip(26) == d.skip(26 * k + 26),
{
    let r = d.skip(26 * k);
    assert(r.subrange(0, 20) =~= d.subrange(26 * k, 26 * k + 20));
    assert(r.subrange(20, 24) =~= d.subrange(26 * k + 20, 26 * k + 24));
    assert(r[24] == d[26 * k + 24]);
    assert(r[25] == d[26 * k + 25]);
    assert(r.skip(26) =~= d.skip(26 * k + 26));
}

/// Reads node records while at least 26 bytes remain, at most `limit` of them.
fn decode_nodes(data: &[u8], limit: usize) -> (nodes: Vec<NodeInfo>)
    ensures
        nodes_model(nodes@) == nodes_from(data@, min_nat(limit as nat, data@.len() / 26)),
{
    let mut nodes: Vec<NodeInfo> = Vec::new();
    let mut rem: &[u8] = data;
    let mut k: usize = 0;
    while k < limit
        invariant_except_break
            k <= limit,
        invariant
            26 * k <= data@.len(),
            k == nodes@.len(),
            rem@ == data@.skip(26 * k),
            nodes_model(nodes@) =~= nodes_from(data@, k as nat),
        ensures
            k == min_nat(limit as nat, data@.len() / 26),
        decreases limit - k,
    {
        if rem.len() < 26 {
            assert(data@.len() / 26 == k) by (nonlinear_arith)
                requires
                    data@.len() == 26 * k + rem@.len(),
                    rem@.len() < 26,
            ;
            break;
        }
        proof {
            lemma_node_at_skip(data@, k as int);
        }
        let ghost prev = nodes@;
        match NodeInfo::decode(rem) {
            Ok((node, rest)) => {
                nodes.push(node);
                rem = rest;
            },
            Err(_) => {
                assert(false);
            },
        }
        k += 1;
        proof {
            assert forall|j: int| 0 <= j < k implies nodes_model(nodes@)[j] == nodes_from(data@, k as nat)[j] by {
                if j < k - 1 {
                    assert(nodes@[j] == prev[j]);
                    assert(nodes_model(prev)[j] == nodes_from(data@, (k - 1) as nat)[j]);
                }
            }
            assert(nodes_model(nodes@) =~= nodes_from(data@, k as nat));
        }
        if k == limit {
            assert(k <= data@.len() / 26) by (nonlinear_arith)
                requires
                    26 * k <= data@.len(),
            ;
        }
    }
    nodes
}

/// Reads six-byte peer records, at most `limit` of them.
fn decode_peers(data: &[u8], limit: usize) -> (peers: Vec<[u8; 6]>)
    ensures
        peers_model(peers@) == peers_from(data@, min_nat(limit as nat, data@.len() / 6)),
{
    let mut peers: Vec<[u8; 6]> = Vec::new();
    let mut k: usize = 0;
    assert(data@.len() == data.len());
    while k < limit
        invariant_except_break
            k <= limit,
        invariant
            6 * k <= data@.len(),
            data@.len() == data.len(),
            k == peers@.len(),
            peers_model(peers@) =~= peers_from(data@, k as nat),
        ensures
            k == min_nat(limit as nat, data@.len() / 6),
        decreases limit - k,
    {
        if data.len() - 6 * k < 6 {
            assert(data@.len() / 6 == k) by (nonlinear_arith)
                requires
                    data@.len() - 6 * k < 6,
                    6 * k <= data@.len(),
            ;
            break;
        }
        let p = bytes6(data, 6 * k);
        let ghost prev = peers@;
        peers.push(p);
        k += 1;
        proof {
            assert forall|j: int| 0 <= j < k implies peers_model(peers@)[j] == peers_from(data@, k as nat)[j] by {
                if j < k - 1 {
                    assert(peers@[j] == prev[j]);
                    assert(peers_model(prev)[j] == peers_from(data@, (k - 1) as nat)[j]);
                }
            }
            assert(peers_model(peers@) =~= peers_from(data@, k as nat));
        }
        if k == limit {
            assert(k <= data@.len() / 6) by (nonlinear_arith)
                requires
                    6 * k <= data@.len(),
            ;
        }
    }
    peers
}

impl DhtMessage {
    /// Reads a message.
    pub fn decode(data: &[u8]) -> (r: Result<DhtMessage, QvodError>)
        ensures
            match spec_decode_msg(data@) {
                Ok(m) => r matches Ok(x) && x.model() == m,
                Err(e) => r matches Err(QvodError::Protocol(t)) && t@ == e,
            },
    {
        let (header, rest) = match decode_header(data) {
            Ok(hr) => hr,
            Err(e) => {
                return Err(e);
            },
        };
        match header.msg_type {
            MessageType::Ping => {
                if rest.len() < 20 {
                    return Err(protocol_error("ping too short"));
                }
                let node_id = bytes20(rest, 0);
                Ok(DhtMessage::Ping { header, node_id: NodeId(node_id) })
            },
            MessageType::FindNode => {
                if rest.len() < 20 {
                    return Err(protocol_error("find_node too short"));
                }
                let node_id = bytes20(rest, 0);
                if rest.len() == 40 {
                    let target = bytes20(rest, 20);
                    Ok(DhtMessage::FindNode { header, node_id: NodeId(node_id), target: NodeId(target) })
                } else {
                    let nd = &rest[20..rest.len()];
                    assert(nd@ =~= rest@.skip(20));
                    let nodes = decode_nodes(nd, nd.len());
                    proof {
                        assert(nd@.len() / 26 <= nd@.len()) by (nonlinear_arith);
                    }
                    Ok(DhtMessage::FindNodeResponse { header, node_id: NodeId(node_id), nodes })
                }
            },
            MessageType::FindPeers => {
                if rest.len() < 40 {
                    return Err(protocol_error("find_peers too short"));
                }
                let node_id = bytes20(rest, 0);
                let info_hash = bytes20(rest, 20);
                if rest.len() == 40 {
                    return Ok(DhtMessage::FindPeers { header, node_id: NodeId(node_id), info_hash });
                }
                let tag = rest[40];
                let payload = &rest[41..rest.len()];
                assert(payload@ =~= rest@.skip(41));
                if payload.len() < 2 {
                    return Err(protocol_error("find_peers response too short"));
                }
                let count = read_be16(payload[0], payload[1]) as usize;
                let body = &payload[2..payload.len()];
                assert(body@ =~= payload@.skip(2));
                let values = if tag == 0x00u8 {
                    FindPeersResult::Peers(decode_peers(body, count))
                } else {
                    FindPeersResult::Nodes(decode_nodes(body, count))
                };
                Ok(DhtMessage::FindPeersResponse { header, node_id: NodeId(node_id), values })
            },
            MessageType::Announce => {
                if rest.len() < 21 {
                    return Err(protocol_error("announce too short"));
                }
                let node_id = bytes20(rest, 0);
                if rest.len() == 21 {
                    Ok(DhtMessage::AnnounceResponse { header, node_id: NodeId(node_id) })
                } else if rest.len() >= 46 {
                    let info_hash = bytes20(rest, 20);
                    let token = bytes4(rest, 40);
                    let port = read_be16(rest[44], rest[45]);
                    Ok(DhtMessage::Announce { header, node_id: NodeId(node_id), info_hash, token, port })
                } else {
                    Err(protocol_error("announce payload incomplete"))
                }
            },
        }
    }
}

} // verus!

verus! {

/// A message whose bytes read back as itself: its header carries the
/// protocol's magic and version and the type its variant is sent under, and it
/// is not a ping reply (sent exactly as a ping) nor a peer search reply (whose
/// bytes a reader takes for a request body with an info hash).
pub open spec fn reads_back(m: &DhtMessage) -> bool {
    let hdr = match m {
        DhtMessage::Ping { header, .. } => header,
        DhtMessage::PingResponse { header, .. } => header,
        DhtMessage::FindNode { header, .. } => header,
        DhtMessage::FindNodeResponse { header, .. } => header,
        DhtMessage::FindPeers { header, .. } => header,
        DhtMessage::FindPeersResponse { header, .. } => header,
        DhtMessage::Announce { header, .. } => header,
        DhtMessage::AnnounceResponse { header, .. } => header,
    };
    &&& hdr.magic@ == magic_seq()
    &&& hdr.ver == 1
    &&& match m {
        DhtMessage::Ping { .. } => hdr.msg_type == MessageType::Ping,
        DhtMessage::FindNode { .. } => hdr.msg_type == MessageType::FindNode,
        DhtMessage::FindNodeResponse { .. } => hdr.msg_type == MessageType::FindNode,
        DhtMessage::FindPeers { .. } => hdr.msg_type == MessageType::FindPeers,
        DhtMessage::Announce { .. } => hdr.msg_type == MessageType::Announce,
        DhtMessage::AnnounceResponse { .. } => hdr.msg_type == MessageType::Announce,
        _ => false,
    }
}

/// Node records are 26 bytes each, and each reads back.
proof fn lemma_enc_nodes(ns: Seq<NodeModel>)
    requires
        forall|i: int| 0 <= i < ns.len() ==> (#[trigger] ns[i]).node_id.len() == 20 && ns[i].ip.len() == 4,
    ensures
        enc_nodes(ns).len() == 26 * ns.len(),
        forall|i: int| 0 <= i < ns.len() ==> node_at(enc_nodes(ns), 26 * i) == #[trigger] ns[i],
    decreases ns.len(),
{
    if ns.len() > 0 {
        let p = ns.drop_last();
        lemma_enc_nodes(p);
        let e = enc_nodes(ns);
        let ep = enc_nodes(p);
        let last = ns.last();
        assert(e == ep + enc_node(last));
        assert forall|i: int| 0 <= i < ns.len() implies node_at(e, 26 * i) == #[trigger] ns[i] by {
            if i < ns.len() - 1 {
                assert(p[i] == ns[i]);
                assert(node_at(ep, 26 * i) == p[i]);
                assert(e.subrange(26 * i, 26 * i + 20) =~= ep.subrange(26 * i, 26 * i + 20));
                assert(e.subrange(26 * i + 20, 26 * i + 24) =~= ep.subrange(26 * i + 20, 26 * i + 24));
                assert(e[26 * i + 24] == ep[26 * i + 24]);
                assert(e[26 * i + 25] == ep[26 * i + 25]);
            } else {
                let off = 26 * i;
                assert(off == ep.len());
                assert(e.subrange(off, off + 20) =~= last.node_id);
                assert(e.subrange(off + 20, off + 24) =~= last.ip);
                assert(e[off + 24] == (last.port / 256) as u8);
                assert(e[off + 25] == (last.port % 256) as u8);
                assert(node_at(e, off).node_id == ns[i].node_id);
                assert(node_at(e, off).ip == ns[i].ip);
                assert(node_at(e, off).port == ns[i].port);
            }
        }
    }
}

/// Decoding the header bytes gives the header back when it carries the
/// protocol's magic and version.
proof fn lemma_header_reads_back(h: HeaderModel, body: Seq<u8>)
    requires
        h.magic == magic_seq(),
        h.ver == 1,
    ensures
        spec_decode_header(enc_header(h) + body) == Ok::<HeaderModel, Seq<char>>(h),
        (enc_header(h) + body).skip(8) == body,
{
    let d = enc_header(h) + body;
    assert(d.take(4) =~= magic_seq());
    assert(d[4] == type_byte(h.msg_type));
    assert(d[7] == 1);
    assert(be16(d[5], d[6]) == h.txn_id);
    assert(d.skip(8) =~= body);
}

/// The bytes of a message that reads back decode to that message.
pub proof fn law_decode_encode(m: DhtMessage)
    requires
        reads_back(&m),
    ensures
        spec_decode_msg(enc_msg(m.model())) == Ok::<MsgModel, Seq<char>>(m.model()),
{
    match m {
        DhtMessage::Ping { header, node_id } => {
            let body = node_id.0@;
            lemma_header_reads_back(header.model(), body);
            assert(body.take(20) =~= body);
            assert(enc_msg(m.model()) =~= enc_header(header.model()) + body);
        },
        DhtMessage::FindNode { header, node_id, target } => {
            let body = node_id.0@ + target.0@;
            lemma_header_reads_back(header.model(), body);
            assert(body.take(20) =~= node_id.0@);
            assert(body.subrange(20, 40) =~= target.0@);
            assert(enc_msg(m.model()) =~= enc_header(header.model()) + body);
        },
        DhtMessage::FindNodeResponse { header, node_id, nodes } => {
            let ns = nodes_model(nodes@);
            let body = node_id.0@ + enc_nodes(ns);
            lemma_header_reads_back(header.model(), body);
            assert(enc_msg(m.model()) =~= enc_header(header.model()) + body);
            lemma_enc_nodes(ns);
            assert(body.take(20) =~= node_id.0@);
            assert(body.skip(20) =~= enc_nodes(ns));
            assert(body.len() != 40) by (nonlinear_arith)
                requires
                    body.len() == 20 + 26 * ns.len(),
            ;
            assert((26 * ns.len()) / 26 == ns.len()) by (nonlinear_arith);
            assert(nodes_from(enc_nodes(ns), ns.len()) =~= ns);
        },
        DhtMessage::FindPeers { header, node_id, info_hash } => {
            let body = node_id.0@ + info_hash@;
            lemma_header_reads_back(header.model(), body);
            assert(body.take(20) =~= node_id.0@);
            assert(body.subrange(20, 40) =~= info_hash@);
            assert(enc_msg(m.model()) =~= enc_header(header.model()) + body);
        },
        DhtMessage::Announce { header, node_id, info_hash, token, port } => {
            let body = node_id.0@ + info_hash@ + token@ + be16_bytes(port);
            lemma_header_reads_back(header.model(), body);
            assert(body.take(20) =~= node_id.0@);
            assert(body.subrange(20, 40) =~= info_hash@);
            assert(body.subrange(40, 44) =~= token@);
            assert(be16(body[44], body[45]) == port);
            assert(enc_msg(m.model()) =~= enc_header(header.model()) + body);
        },
        DhtMessage::AnnounceResponse { header, node_id } => {
            let body = node_id.0@ + seq![0u8];
            lemma_header_reads_back(header.model(), body);
            assert(body.take(20) =~= node_id.0@);
            assert(enc_msg(m.model()) =~= enc_header(header.model()) + body);
        },
        _ => {},
    }
}

} // verus!
