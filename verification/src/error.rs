//! The error type shared by every part of the library.
use vstd::prelude::*;

use crate::strings::{ascii_chars, ascii_to_string, push_str};
use crate::text::{dec_nat, hex_bytes, hex_lower, lemma_hex_lower_ascii, u64_to_decimal};
use crate::types::InfoHash;

verus! {

/// Every way an operation of the library can fail.
#[derive(Debug, Clone)]
pub enum QvodError {
    /// A network or file operation failed; the text says why.
    Network(String),
    Protocol(String),
    MetadataParse,
    DhtTimeout,
    DhtRoutingFailed(String),
    TrackerTimeout,
    TrackerProtocol(String),
    ResourceNotFound(InfoHash),
    NoPeers,
    NatFailed,
    CacheFull,
    CacheCorrupted(String),
    UnsupportedFormat(String),
    Decode(String),
    InvalidUri(String),
    Bencode(String),
    PieceVerificationFailed { index: u32, expected: [u8; 20], got: [u8; 20] },
    ConnectionLimitReached,
    Timeout(String),
    Cancelled,
    Server(String),
}

impl QvodError {
    /// The text shown to a user for this error.
    pub open spec fn spec_message(&self) -> Seq<char> {
        match self {
            QvodError::Network(m) => "网络错误: "@ + m@,
            QvodError::Protocol(m) => "协议错误: "@ + m@,
            QvodError::MetadataParse => "元数据解析失败"@,
            QvodError::DhtTimeout => "DHT 超时"@,
            QvodError::DhtRoutingFailed(m) => "DHT 路由失败: "@ + m@,
            QvodError::TrackerTimeout => "Tracker 连接超时"@,
            QvodError::TrackerProtocol(m) => "Tracker 协议错误: "@ + m@,
            QvodError::ResourceNotFound(h) => "资源不存在: "@ + ascii_chars(hex_lower(h.0@)),
            QvodError::NoPeers => "没有可用的 peer"@,
            QvodError::NatFailed => "NAT 穿透失败"@,
            QvodError::CacheFull => "缓存空间不足"@,
            QvodError::CacheCorrupted(m) => "缓存损坏: "@ + m@,
            QvodError::UnsupportedFormat(m) => "不支持的格式: "@ + m@,
            QvodError::Decode(m) => "解码错误: "@ + m@,
            QvodError::InvalidUri(m) => "无效 URI: "@ + m@,
            QvodError::Bencode(m) => "Bencode 错误: "@ + m@,
            QvodError::PieceVerificationFailed { index, .. } => "Piece 校验失败 index="@
                + ascii_chars(dec_nat(*index as nat)),
            QvodError::ConnectionLimitReached => "达到最大连接数"@,
            QvodError::Timeout(m) => "超时: "@ + m@,
            QvodError::Cancelled => "操作已取消"@,
            QvodError::Server(m) => "服务器错误: "@ + m@,
        }
    }

    /// The text shown to a user for this error.
    pub fn message(&self) -> (s: String)
        ensures
            s@ == self.spec_message(),
    {
        match self {
            QvodError::Network(m) => prefixed("网络错误: ", m),
            QvodError::Protocol(m) => prefixed("协议错误: ", m),
            QvodError::MetadataParse => String::from_str("元数据解析失败"),
            QvodError::DhtTimeout => String::from_str("DHT 超时"),
            QvodError::DhtRoutingFailed(m) => prefixed("DHT 路由失败: ", m),
            QvodError::TrackerTimeout => String::from_str("Tracker 连接超时"),
            QvodError::TrackerProtocol(m) => prefixed("Tracker 协议错误: ", m),
            QvodError::ResourceNotFound(h) => {
                let hex = hex_bytes(&h.0);
                proof {
                    lemma_hex_lower_ascii(h.0@);
                }
                let t = ascii_to_string(hex.as_slice());
                prefixed("资源不存在: ", &t)
            },
            QvodError::NoPeers => String::from_str("没有可用的 peer"),
            QvodError::NatFailed => String::from_str("NAT 穿透失败"),
            QvodError::CacheFull => String::from_str("缓存空间不足"),
            QvodError::CacheCorrupted(m) => prefixed("缓存损坏: ", m),
            QvodError::UnsupportedFormat(m) => prefixed("不支持的格式: ", m),
            QvodError::Decode(m) => prefixed("解码错误: ", m),
            QvodError::InvalidUri(m) => prefixed("无效 URI: ", m),
            QvodError::Bencode(m) => prefixed("Bencode 错误: ", m),
            QvodError::PieceVerificationFailed { index, .. } => {
                let digits = u64_to_decimal(*index as u64);
                proof {
                    crate::text::lemma_dec_nat_digits(*index as nat);
                }
                let t = ascii_to_string(digits.as_slice());
                prefixed("Piece 校验失败 index=", &t)
            },
            QvodError::ConnectionLimitReached => String::from_str("达到最大连接数"),
            QvodError::Timeout(m) => prefixed("超时: ", m),
            QvodError::Cancelled => String::from_str("操作已取消"),
            QvodError::Server(m) => prefixed("服务器错误: ", m),
        }
    }
}

/// A literal followed by a string.
fn prefixed(prefix: &str, m: &String) -> (s: String)
    ensures
        s@ == prefix@ + m@,
{
    let mut s = String::from_str(prefix);
    push_str(&mut s, m.as_str());
    s
}

} // verus!
