//! Identifiers, piece bookkeeping and media metadata shared by the library.
use vstd::prelude::*;

use crate::error::QvodError;
use crate::strings::{ascii_chars, ascii_to_string, push_str};
use crate::text::{decode_hex_pairs, decode_hex_pairs_exec, parse_hex_pair, parse_hex_pair_exec, hex_bytes, hex_lower, lemma_hex_lower_ascii};

verus! {

/// Length of a piece when the metadata does not say otherwise.
pub const PIECE_LENGTH: u64 = 262_144;

/// Port the engine listens on by default.
pub const DEFAULT_PORT: u16 = 8621;

/// Bucket size of the DHT routing table.
pub const DHT_K: u8 = 8;

/// Parallel lookups of the DHT.
pub const DHT_ALPHA: u8 = 3;

/// Seconds between refreshes of a DHT bucket.
pub const DHT_REFRESH_INTERVAL: u64 = 900;

/// Seconds after which a DHT peer is considered gone.
pub const DHT_PEER_TIMEOUT: u64 = 900;

/// SHA-1 identity of a shared file.
#[derive(Debug, Clone, Copy, PartialEq, Eq, Hash)]
pub struct InfoHash(pub [u8; 20]);

impl InfoHash {
    /// Wraps 20 bytes as an info hash.
    pub fn from_bytes(bytes: [u8; 20]) -> (h: InfoHash)
        ensures
            h.0 == bytes,
    {
        InfoHash(bytes)
    }

    /// The 40 lowercase hexadecimal characters of the hash.
    pub open spec fn spec_hex(&self) -> Seq<char> {
        ascii_chars(hex_lower(self.0@))
    }

    /// The 40 lowercase hexadecimal characters of the hash.
    pub fn to_hex(&self) -> (s: String)
        ensures
            s@ == self.spec_hex(),
    {
        let hex = hex_bytes(&self.0);
        proof {
            lemma_hex_lower_ascii(self.0@);
        }
        ascii_to_string(hex.as_slice())
    }
}

/// The bytes are 40 long and every even offset lies on a character boundary,
/// so that cutting them in two-byte pieces never splits a character.
pub open spec fn even_offsets_on_boundaries(bytes: Seq<u8>) -> bool {
    forall|i: int|
        0 <= i <= bytes.len() && i % 2 == 0 ==> #[trigger] vstd::utf8::is_char_boundary(bytes, i)
}

/// Whether cutting `bytes` into two-byte pieces from offset `i` on, one piece
/// after the other until a piece is not a pair of hexadecimal digits, never
/// cuts inside a character.
pub open spec fn hex_cuts_on_boundaries(bytes: Seq<u8>, i: int) -> bool
    decreases bytes.len() - i,
{
    if i < 0 || i + 2 > bytes.len() {
        true
    } else if !vstd::utf8::is_char_boundary(bytes, i) || !vstd::utf8::is_char_boundary(bytes, i + 2) {
        false
    } else {
        match parse_hex_pair(bytes[i], bytes[i + 1]) {
            Err(_) => true,
            Ok(_) => hex_cuts_on_boundaries(bytes, i + 2),
        }
    }
}

/// Where every even offset is a character boundary, no cut splits a character.
pub proof fn lemma_boundaries_give_cuts(bytes: Seq<u8>, i: int)
    requires
        even_offsets_on_boundaries(bytes),
        0 <= i,
        i % 2 == 0,
    ensures
        hex_cuts_on_boundaries(bytes, i),
    decreases bytes.len() - i,
{
    if i + 2 <= bytes.len() {
        assert(vstd::utf8::is_char_boundary(bytes, i));
        assert(vstd::utf8::is_char_boundary(bytes, i + 2));
        lemma_boundaries_give_cuts(bytes, i + 2);
    }
}

/// Checks that cutting the bytes of a text into two-byte pieces, until a piece
/// is not a pair of hexadecimal digits, never cuts inside a character.
pub fn hex_cuts_on_boundaries_exec(b: &[u8]) -> (r: bool)
    requires
        vstd::utf8::valid_utf8(b@),
    ensures
        r == hex_cuts_on_boundaries(b@, 0),
{
    let mut i: usize = 0;
    proof {
        vstd::utf8::is_char_boundary_start_end_of_seq(b@);
    }
    while b.len() - i >= 2
        invariant
            vstd::utf8::valid_utf8(b@),
            i <= b@.len(),
            i % 2 == 0,
            vstd::utf8::is_char_boundary(b@, b@.len() as int),
            hex_cuts_on_boundaries(b@, 0) == hex_cuts_on_boundaries(b@, i as int),
        decreases b@.len() - i,
    {
        proof {
            vstd::utf8::is_char_boundary_iff_not_is_continuation_byte(b@, i as int);
            if i + 2 < b.len() {
                vstd::utf8::is_char_boundary_iff_not_is_continuation_byte(b@, i + 2);
            }
        }
        if 0x80u8 <= b[i] && b[i] <= 0xbfu8 {
            return false;
        }
        if i + 2 < b.len() && 0x80u8 <= b[i + 2] && b[i + 2] <= 0xbfu8 {
            return false;
        }
        if parse_hex_pair_exec(b[i], b[i + 1]).is_err() {
            return true;
        }
        i = i + 2;
    }
    true
}

/// What parsing an info hash from text gives: an error unless there are exactly
/// 40 bytes of hexadecimal digits.
pub open spec fn parse_info_hash_spec(bytes: Seq<u8>) -> Result<Seq<u8>, Seq<char>> {
    if bytes.len() != 40 {
        Err("info_hash must be 40 hex characters"@)
    } else {
        match decode_hex_pairs(bytes) {
            Ok(v) => Ok(v),
            Err(e) => Err("hex decode: "@ + e.spec_message()),
        }
    }
}

impl InfoHash {
    /// Parses 40 hexadecimal characters, two per byte.
    pub fn from_str(s: &str) -> (r: Result<InfoHash, QvodError>)
        requires
            vstd::utf8::encode_utf8(s@).len() == 40 ==> hex_cuts_on_boundaries(vstd::utf8::encode_utf8(s@), 0),
        ensures
            match parse_info_hash_spec(vstd::utf8::encode_utf8(s@)) {
                Ok(v) => r matches Ok(h) && h.0@ == v,
                Err(m) => r matches Err(QvodError::InvalidUri(e)) && e@ == m,
            },
    {
        let bytes = s.as_bytes();
        if bytes.len() != 40 {
            return Err(QvodError::InvalidUri(String::from_str("info_hash must be 40 hex characters")));
        }
        match decode_hex_pairs_exec(bytes) {
            Ok(v) => {
                proof {
                    lemma_decode_hex_pairs_len(bytes@);
                }
                let mut out = [0u8; 20];
                let mut i: usize = 0;
                while i < 20
                    invariant
                        i <= 20,
                        v@.len() == 20,
                        forall|k: int| 0 <= k < i ==> out@[k] == v@[k],
                    decreases 20 - i,
                {
                    out[i] = v[i];
                    i += 1;
                }
                assert(out@ =~= v@);
                Ok(InfoHash(out))
            },
            Err(e) => {
                let mut m = String::from_str("hex decode: ");
                let em = e.message();
                push_str(&mut m, em.as_str());
                Err(QvodError::InvalidUri(m))
            },
        }
    }
}

/// A successful pair decoding yields one byte per pair.
pub proof fn lemma_decode_hex_pairs_len(b: Seq<u8>)
    ensures
        decode_hex_pairs(b) matches Ok(v) ==> v.len() == b.len() / 2,
    decreases b.len(),
{
    if b.len() >= 2 {
        lemma_decode_hex_pairs_len(b.subrange(2, b.len() as int));
    }
}

/// 160-bit identifier of a DHT node.
#[derive(Debug, Clone, Copy, PartialEq, Eq, Hash)]
pub struct NodeId(pub [u8; 20]);

/// Byte-wise exclusive or of two 20-byte identifiers.
pub open spec fn xor_seq(a: Seq<u8>, b: Seq<u8>) -> Seq<u8> {
    Seq::new(20, |i: int| a[i] ^ b[i])
}

/// Number of leading zero bits of a byte.
pub open spec fn byte_leading_zeros(b: u8) -> nat {
    if b >= 128 {
        0
    } else if b >= 64 {
        1
    } else if b >= 32 {
        2
    } else if b >= 16 {
        3
    } else if b >= 8 {
        4
    } else if b >= 4 {
        5
    } else if b >= 2 {
        6
    } else if b >= 1 {
        7
    } else {
        8
    }
}

/// Number of leading zero bits of a big-endian byte string.
pub open spec fn seq_leading_zeros(s: Seq<u8>) -> nat
    decreases s.len(),
{
    if s.len() == 0 {
        0
    } else if s[0] == 0 {
        8 + seq_leading_zeros(s.drop_first())
    } else {
        byte_leading_zeros(s[0])
    }
}

/// Leading zero bits of one byte.
pub fn u8_leading_zeros(b: u8) -> (n: u32)
    ensures
        n == byte_leading_zeros(b),
{
    if b >= 128 {
        0
    } else if b >= 64 {
        1
    } else if b >= 32 {
        2
    } else if b >= 16 {
        3
    } else if b >= 8 {
        4
    } else if b >= 4 {
        5
    } else if b >= 2 {
        6
    } else if b >= 1 {
        7
    } else {
        8
    }
}

impl NodeId {
    /// The XOR distance between two node ids, byte by byte.
    pub fn xor_distance(&self, other: &NodeId) -> (dist: [u8; 20])
        ensures
            dist@ == xor_seq(self.0@, other.0@),
    {
        let mut dist = [0u8; 20];
        let mut i: usize = 0;
        while i < 20
            invariant
                i <= 20,
                dist@.len() == 20,
                forall|j: int| 0 <= j < i ==> dist@[j] == self.0@[j] ^ other.0@[j],
            decreases 20 - i,
        {
            dist[i] = self.0[i] ^ other.0[i];
            i += 1;
        }
        assert(dist@ =~= xor_seq(self.0@, other.0@));
        dist
    }

    /// Number of leading zero bits of the id.
    pub fn leading_zeros(&self) -> (n: u32)
        ensures
            n == seq_leading_zeros(self.0@),
    {
        let mut count: u32 = 0;
        let mut i: usize = 0;
        assert(self.0@.subrange(0, 20) =~= self.0@);
        while i < 20
            invariant
                i <= 20,
                count == 8 * i,
                forall|k: int| 0 <= k < i ==> self.0@[k] == 0,
                seq_leading_zeros(self.0@) == count + seq_leading_zeros(
                    self.0@.subrange(i as int, 20),
                ),
            decreases 20 - i,
        {
            let byte = self.0[i];
            assert(self.0@.subrange(i as int, 20).drop_first() =~= self.0@.subrange(i + 1, 20));
            if byte == 0 {
                count += 8;
            } else {
                return count + u8_leading_zeros(byte);
            }
            i += 1;
        }
        assert(self.0@.subrange(20, 20).len() == 0);
        count
    }
}

/// A network address: IP version 4 or 6 and a port.
#[derive(Debug, Clone, Copy, PartialEq, Eq)]
pub enum IpAddress {
    V4([u8; 4]),
    V6([u8; 16]),
}

/// An IP address with a port.
#[derive(Debug, Clone, Copy, PartialEq, Eq)]
pub struct SocketAddress {
    pub ip: IpAddress,
    pub port: u16,
}

/// What is known of a remote peer.
#[derive(Debug, Clone)]
pub struct PeerInfo {
    pub peer_id: [u8; 20],
    pub addr: SocketAddress,
    pub is_firewalled: bool,
    pub bw_up: u32,
    pub bw_down: u32,
    pub location: Option<String>,
    /// Round-trip latency in milliseconds.
    pub latency_ms: u64,
}

/// The bit for piece `i`: bit `7 - i % 8` of byte `i / 8`, most significant first.
pub open spec fn bit_of(bytes: Seq<u8>, i: int) -> bool {
    bytes[i / 8] & (1u8 << ((7 - i % 8) as u8)) != 0
}

/// Number of set bits in a byte.
pub open spec fn popcount(b: u8) -> nat {
    (b & 1u8) as nat + ((b >> 1u8) & 1u8) as nat + ((b >> 2u8) & 1u8) as nat + ((b >> 3u8)
        & 1u8) as nat + ((b >> 4u8) & 1u8) as nat + ((b >> 5u8) & 1u8) as nat + ((b >> 6u8)
        & 1u8) as nat + ((b >> 7u8) & 1u8) as nat
}

/// Number of set bits in a byte string.
pub open spec fn popcount_total(s: Seq<u8>) -> nat
    decreases s.len(),
{
    if s.len() == 0 {
        0
    } else {
        popcount_total(s.drop_last()) + popcount(s.last())
    }
}

/// Whether piece `i` is marked present in `bytes` describing `num` pieces.
pub open spec fn bits_has(bytes: Seq<u8>, num: nat, i: int) -> bool {
    0 <= i < num && i / 8 < bytes.len() && bit_of(bytes, i)
}

/// Byte `b` with the bit for position `pos` (0 the highest bit) set to `value`.
pub open spec fn with_bit(b: u8, pos: u8, value: bool) -> u8 {
    if value {
        b | (1u8 << (7 - pos) as u8)
    } else {
        b & !(1u8 << (7 - pos) as u8)
    }
}

/// The bytes after marking piece `index` as `value`: its bit is changed where
/// the piece and its byte exist; otherwise nothing changes.
pub open spec fn bytes_after_set(bytes: Seq<u8>, num: nat, index: u32, value: bool) -> Seq<u8> {
    if index < num && (index as int) / 8 < bytes.len() {
        bytes.update((index as int) / 8, with_bit(bytes[(index as int) / 8], (index % 8) as u8, value))
    } else {
        bytes
    }
}

/// `n` zero bytes.
pub open spec fn zero_bytes(n: nat) -> Seq<u8> {
    Seq::new(n, |i: int| 0u8)
}

/// No bit past the last piece is set.
pub open spec fn padding_clear(bytes: Seq<u8>, num: nat) -> bool {
    forall|i: int| num <= i < bytes.len() * 8 ==> !#[trigger] bit_of(bytes, i)
}

/// How many of the pieces below `upto` are marked present.
pub open spec fn pieces_present(bytes: Seq<u8>, num: nat, upto: nat) -> nat
    decreases upto,
{
    if upto == 0 {
        0
    } else {
        pieces_present(bytes, num, (upto - 1) as nat) + if bits_has(bytes, num, upto - 1) {
            1nat
        } else {
            0nat
        }
    }
}

/// How many of the bits below `upto` are set.
pub open spec fn bits_set_upto(bytes: Seq<u8>, upto: nat) -> nat
    decreases upto,
{
    if upto == 0 {
        0
    } else {
        bits_set_upto(bytes, (upto - 1) as nat) + if bit_of(bytes, upto - 1) {
            1nat
        } else {
            0nat
        }
    }
}

/// Bit `s` of a byte, read by shifting, is the bit its mask picks.
proof fn lemma_shift_bit(b: u8, s: u8)
    requires
        s < 8,
    ensures
        ((b >> s) & 1u8 == 1u8) == (b & (1u8 << s) != 0),
        (b >> s) & 1u8 <= 1u8,
{
    assert(((b >> s) & 1u8 == 1u8) == (b & (1u8 << s) != 0) && (b >> s) & 1u8 <= 1u8) by (bit_vector)
        requires
            s < 8,
    ;
}

/// The eight bits of byte `q` add its population count.
proof fn lemma_byte_bits(bytes: Seq<u8>, q: int)
    requires
        0 <= q < bytes.len(),
    ensures
        bits_set_upto(bytes, (8 * q + 8) as nat) == bits_set_upto(bytes, (8 * q) as nat) + popcount(bytes[q]),
{
    let b = bytes[q];
    assert((8 * q + 0) / 8 == q && (8 * q + 0) % 8 == 0);
    assert((8 * q + 1) / 8 == q && (8 * q + 1) % 8 == 1);
    assert((8 * q + 2) / 8 == q && (8 * q + 2) % 8 == 2);
    assert((8 * q + 3) / 8 == q && (8 * q + 3) % 8 == 3);
    assert((8 * q + 4) / 8 == q && (8 * q + 4) % 8 == 4);
    assert((8 * q + 5) / 8 == q && (8 * q + 5) % 8 == 5);
    assert((8 * q + 6) / 8 == q && (8 * q + 6) % 8 == 6);
    assert((8 * q + 7) / 8 == q && (8 * q + 7) % 8 == 7);
    lemma_shift_bit(b, 0u8);
    lemma_shift_bit(b, 1u8);
    lemma_shift_bit(b, 2u8);
    lemma_shift_bit(b, 3u8);
    lemma_shift_bit(b, 4u8);
    lemma_shift_bit(b, 5u8);
    lemma_shift_bit(b, 6u8);
    lemma_shift_bit(b, 7u8);
    assert(bit_of(bytes, 8 * q + 0) == (b & (1u8 << 7u8) != 0));
    assert(bit_of(bytes, 8 * q + 1) == (b & (1u8 << 6u8) != 0));
    assert(bit_of(bytes, 8 * q + 2) == (b & (1u8 << 5u8) != 0));
    assert(bit_of(bytes, 8 * q + 3) == (b & (1u8 << 4u8) != 0));
    assert(bit_of(bytes, 8 * q + 4) == (b & (1u8 << 3u8) != 0));
    assert(bit_of(bytes, 8 * q + 5) == (b & (1u8 << 2u8) != 0));
    assert(bit_of(bytes, 8 * q + 6) == (b & (1u8 << 1u8) != 0));
    assert(bit_of(bytes, 8 * q + 7) == (b & (1u8 << 0u8) != 0));
    assert((b >> 0u8) & 1u8 == b & 1u8) by (bit_vector);
    let z = 8 * q;
    assert(bits_set_upto(bytes, (z + 8) as nat) == bits_set_upto(bytes, (z + 7) as nat) + if bit_of(bytes, z + 7) { 1nat } else { 0nat });
    assert(bits_set_upto(bytes, (z + 7) as nat) == bits_set_upto(bytes, (z + 6) as nat) + if bit_of(bytes, z + 6) { 1nat } else { 0nat });
    assert(bits_set_upto(bytes, (z + 6) as nat) == bits_set_upto(bytes, (z + 5) as nat) + if bit_of(bytes, z + 5) { 1nat } else { 0nat });
    assert(bits_set_upto(bytes, (z + 5) as nat) == bits_set_upto(bytes, (z + 4) as nat) + if bit_of(bytes, z + 4) { 1nat } else { 0nat });
    assert(bits_set_upto(bytes, (z + 4) as nat) == bits_set_upto(bytes, (z + 3) as nat) + if bit_of(bytes, z + 3) { 1nat } else { 0nat });
    assert(bits_set_upto(bytes, (z + 3) as nat) == bits_set_upto(bytes, (z + 2) as nat) + if bit_of(bytes, z + 2) { 1nat } else { 0nat });
    assert(bits_set_upto(bytes, (z + 2) as nat) == bits_set_upto(bytes, (z + 1) as nat) + if bit_of(bytes, z + 1) { 1nat } else { 0nat });
    assert(bits_set_upto(bytes, (z + 1) as nat) == bits_set_upto(bytes, z as nat) + if bit_of(bytes, z) { 1nat } else { 0nat });
}

/// Setting or clearing bit `j` of a byte changes that bit only.
proof fn lemma_bit_update(x: u8, j: u8, k: u8)
    requires
        j < 8,
        k < 8,
    ensures
        ((x | (1u8 << j)) & (1u8 << k) != 0) == if k == j {
            true
        } else {
            x & (1u8 << k) != 0
        },
        ((x & !(1u8 << j)) & (1u8 << k) != 0) == if k == j {
            false
        } else {
            x & (1u8 << k) != 0
        },
{
    assert(((x | (1u8 << j)) & (1u8 << k) != 0) == if k == j {
        true
    } else {
        x & (1u8 << k) != 0
    }) by (bit_vector)
        requires
            j < 8,
            k < 8,
    ;
    assert(((x & !(1u8 << j)) & (1u8 << k) != 0) == if k == j {
        false
    } else {
        x & (1u8 << k) != 0
    }) by (bit_vector)
        requires
            j < 8,
            k < 8,
    ;
}

/// The bits of the first `k` bytes number their population count.
proof fn lemma_bits_of_prefix(bytes: Seq<u8>, k: int)
    requires
        0 <= k <= bytes.len(),
    ensures
        bits_set_upto(bytes, (8 * k) as nat) == popcount_total(bytes.take(k)),
    decreases k,
{
    if k == 0 {
        assert(bytes.take(0) =~= Seq::<u8>::empty());
    } else {
        lemma_bits_of_prefix(bytes, k - 1);
        lemma_byte_bits(bytes, k - 1);
        assert(bytes.take(k).drop_last() =~= bytes.take(k - 1));
        assert(bytes.take(k).last() == bytes[k - 1]);
    }
}

/// Past the last piece, clear padding adds no set bit.
proof fn lemma_bits_past_pieces(bytes: Seq<u8>, num: nat, u: nat)
    requires
        padding_clear(bytes, num),
        num <= u <= bytes.len() * 8,
    ensures
        bits_set_upto(bytes, u) == bits_set_upto(bytes, num),
    decreases u,
{
    if u > num {
        lemma_bits_past_pieces(bytes, num, (u - 1) as nat);
        assert(!bit_of(bytes, u - 1));
    }
}

/// Below the last piece and the last byte, a present piece is a set bit.
proof fn lemma_present_is_set(bytes: Seq<u8>, num: nat, u: nat)
    requires
        u <= num,
        u <= bytes.len() * 8,
    ensures
        pieces_present(bytes, num, u) == bits_set_upto(bytes, u),
        pieces_present(bytes, num, u) <= u,
    decreases u,
{
    if u > 0 {
        lemma_present_is_set(bytes, num, (u - 1) as nat);
        assert((u - 1) / 8 < bytes.len());
    }
}

/// Past the last byte, no piece is present.
proof fn lemma_present_past_bytes(bytes: Seq<u8>, num: nat, u: nat)
    requires
        bytes.len() * 8 <= u <= num,
    ensures
        pieces_present(bytes, num, u) == pieces_present(bytes, num, (bytes.len() * 8) as nat),
    decreases u,
{
    if u > bytes.len() * 8 {
        lemma_present_past_bytes(bytes, num, (u - 1) as nat);
        assert((u - 1) / 8 >= bytes.len());
    }
}

/// Which pieces of a file are present, one bit per piece.
#[derive(Debug, Clone)]
pub struct Bitfield {
    bytes: Vec<u8>,
    num_pieces: u32,
}

impl Bitfield {
    /// The raw bytes.
    pub closed spec fn spec_bytes(&self) -> Seq<u8> {
        self.bytes@
    }

    /// The number of pieces the bitfield describes.
    pub closed spec fn spec_num_pieces(&self) -> nat {
        self.num_pieces as nat
    }

    /// Whether piece `i` is marked present.
    pub open spec fn spec_has(&self, i: int) -> bool {
        bits_has(self.spec_bytes(), self.spec_num_pieces(), i)
    }

    /// A bitfield with no piece present, with enough bytes for `num_pieces` bits.
    pub fn new(num_pieces: u32) -> (b: Bitfield)
        ensures
            b.spec_num_pieces() == num_pieces,
            b.spec_bytes() == Seq::new(((num_pieces as nat + 7) / 8) as nat, |i: int| 0u8),
    {
        let byte_len: usize = ((num_pieces as u64 + 7) / 8) as usize;
        let mut bytes: Vec<u8> = Vec::new();
        let mut i: usize = 0;
        while i < byte_len
            invariant
                i <= byte_len,
                byte_len == (num_pieces as nat + 7) / 8,
                bytes@ =~= Seq::new(i as nat, |k: int| 0u8),
            decreases byte_len - i,
        {
            bytes.push(0u8);
            i += 1;
        }
        Bitfield { bytes, num_pieces }
    }

    /// A bitfield over given bytes.
    pub fn from_bytes(bytes: Vec<u8>, num_pieces: u32) -> (b: Bitfield)
        ensures
            b.spec_num_pieces() == num_pieces,
            b.spec_bytes() == bytes@,
    {
        Bitfield { bytes, num_pieces }
    }

    /// Whether piece `index` is present; false outside the bitfield.
    pub fn has(&self, index: u32) -> (r: bool)
        ensures
            r == self.spec_has(index as int),
    {
        if index >= self.num_pieces {
            return false;
        }
        let byte_index = (index / 8) as usize;
        let bit_offset = (index % 8) as u8;
        if byte_index >= self.bytes.len() {
            return false;
        }
        (self.bytes[byte_index] & (1u8 << (7 - bit_offset))) != 0
    }

    /// Marks piece `index` present or absent; indices outside the bitfield are ignored.
    pub fn set(&mut self, index: u32, value: bool)
        ensures
            final(self).spec_num_pieces() == old(self).spec_num_pieces(),
            final(self).spec_bytes().len() == old(self).spec_bytes().len(),
            forall|i: int|
                #![trigger final(self).spec_has(i)]
                0 <= i < final(self).spec_num_pieces() ==> final(self).spec_has(i) == if i
                    == index && (index as int) / 8 < old(self).spec_bytes().len() {
                    value
                } else {
                    old(self).spec_has(i)
                },
            final(self).spec_bytes() == bytes_after_set(old(self).spec_bytes(), old(self).spec_num_pieces(), index, value),
    {
        if index >= self.num_pieces {
            return;
        }
        let byte_index = (index / 8) as usize;
        let bit_offset = (index % 8) as u8;
        if byte_index >= self.bytes.len() {
            return;
        }
        let ghost old_bytes = self.bytes@;
        let old_byte = self.bytes[byte_index];
        let new_byte = if value {
            old_byte | (1u8 << (7 - bit_offset))
        } else {
            old_byte & !(1u8 << (7 - bit_offset))
        };
        self.bytes.set(byte_index, new_byte);
        proof {
            assert(self.bytes@ =~= old_bytes.update(byte_index as int, with_bit(old_byte, bit_offset, value)));
            assert forall|i: int|
                #![trigger bits_has(self.bytes@, self.num_pieces as nat, i)]
                0 <= i < self.num_pieces implies bits_has(self.bytes@, self.num_pieces as nat, i)
                == if i == index {
                value
            } else {
                bits_has(old_bytes, self.num_pieces as nat, i)
            } by {
                if i / 8 == byte_index as int {
                    let k = (7 - i % 8) as u8;
                    let j = (7 - bit_offset) as u8;
                    lemma_bit_update(old_byte, j, k);
                    if i != index {
                        assert(i % 8 != (index as int) % 8);
                    }
                }
            }
        }
    }

    /// Marks every piece present or absent, by filling every byte.
    pub fn set_all(&mut self, value: bool)
        ensures
            final(self).spec_num_pieces() == old(self).spec_num_pieces(),
            final(self).spec_bytes() == Seq::new(
                old(self).spec_bytes().len(),
                |i: int|
                    if value {
                        0xFFu8
                    } else {
                        0u8
                    },
            ),
    {
        let v: u8 = if value {
            0xFF
        } else {
            0x00
        };
        let mut i: usize = 0;
        let ghost n = self.bytes@.len();
        while i < self.bytes.len()
            invariant
                i <= self.bytes@.len(),
                self.bytes@.len() == n,
                self.num_pieces == old(self).num_pieces,
                forall|k: int| 0 <= k < i ==> self.bytes@[k] == v,
            decreases self.bytes@.len() - i,
        {
            self.bytes.set(i, v);
            i += 1;
        }
        assert(self.bytes@ =~= Seq::new(n, |k: int| v));
    }

    /// Number of pieces marked present: the set bits, at most the number of pieces.
    pub fn count(&self) -> (n: u32)
        requires
            popcount_total(self.spec_bytes()) <= u32::MAX,
        ensures
            n == if popcount_total(self.spec_bytes()) <= self.spec_num_pieces() {
                popcount_total(self.spec_bytes())
            } else {
                self.spec_num_pieces()
            },
    {
        let mut total: u32 = 0;
        let mut i: usize = 0;
        while i < self.bytes.len()
            invariant
                i <= self.bytes@.len(),
                popcount_total(self.bytes@) <= u32::MAX,
                total == popcount_total(self.bytes@.subrange(0, i as int)),
            decreases self.bytes@.len() - i,
        {
            proof {
                assert(self.bytes@.subrange(0, i + 1).drop_last() =~= self.bytes@.subrange(
                    0,
                    i as int,
                ));
                lemma_popcount_prefix_le(self.bytes@, i + 1);
            }
            let b = self.bytes[i];
            total = total + byte_count_ones(b);
            i += 1;
        }
        assert(self.bytes@.subrange(0, i as int) =~= self.bytes@);
        if total < self.num_pieces {
            total
        } else {
            self.num_pieces
        }
    }

    /// No piece is marked present.
    pub fn is_empty(&self) -> (r: bool)
        requires
            popcount_total(self.spec_bytes()) <= u32::MAX,
        ensures
            r == (popcount_total(self.spec_bytes()) == 0 || self.spec_num_pieces() == 0),
    {
        self.count() == 0
    }

    /// The raw bytes.
    pub fn to_bytes(&self) -> (b: &[u8])
        ensures
            b@ == self.spec_bytes(),
    {
        self.bytes.as_slice()
    }

    /// The number of pieces the bitfield describes.
    pub fn num_pieces(&self) -> (n: u32)
        ensures
            n == self.spec_num_pieces(),
    {
        self.num_pieces
    }

    /// A cursor over the pieces, from the first.
    pub fn iter(&self) -> (it: BitfieldIter<'_>)
        ensures
            it.bitfield == self,
            it.index == 0,
    {
        BitfieldIter { bitfield: self, index: 0 }
    }
}

/// Set bits of a byte.
fn byte_count_ones(b: u8) -> (n: u32)
    ensures
        n == popcount(b),
{
    proof {
        assert(b & 1 <= 1 && (b >> 1) & 1 <= 1 && (b >> 2) & 1 <= 1 && (b >> 3) & 1 <= 1) by (bit_vector);
        assert((b >> 4) & 1 <= 1 && (b >> 5) & 1 <= 1 && (b >> 6) & 1 <= 1 && (b >> 7) & 1 <= 1) by (bit_vector);
    }
    (b & 1) as u32 + ((b >> 1) & 1) as u32 + ((b >> 2) & 1) as u32 + ((b >> 3) & 1) as u32 + ((b >> 4)
        & 1) as u32 + ((b >> 5) & 1) as u32 + ((b >> 6) & 1) as u32 + ((b >> 7) & 1) as u32
}

/// Counts of prefixes grow with the prefix.
proof fn lemma_popcount_prefix_le(s: Seq<u8>, k: int)
    requires
        0 <= k <= s.len(),
    ensures
        popcount_total(s.subrange(0, k)) <= popcount_total(s),
    decreases s.len(),
{
    if k < s.len() {
        assert(s.drop_last().subrange(0, k) =~= s.subrange(0, k));
        lemma_popcount_prefix_le(s.drop_last(), k);
    } else {
        assert(s.subrange(0, k) =~= s);
    }
}

/// With no bit set past the last piece, the set bits of a bitfield are exactly
/// the pieces it marks present: their number, which `count` gives, is how many
/// pieces `has` reports, and is never more than the pieces described.
pub proof fn law_count_is_pieces_present(b: Bitfield)
    requires
        padding_clear(b.spec_bytes(), b.spec_num_pieces()),
    ensures
        popcount_total(b.spec_bytes()) == pieces_present(b.spec_bytes(), b.spec_num_pieces(), b.spec_num_pieces()),
        pieces_present(b.spec_bytes(), b.spec_num_pieces(), b.spec_num_pieces()) <= b.spec_num_pieces(),
{
    let bytes = b.spec_bytes();
    let num = b.spec_num_pieces();
    let n = bytes.len() as int;
    lemma_bits_of_prefix(bytes, n);
    assert(bytes.take(n) =~= bytes);
    if num <= n * 8 {
        lemma_bits_past_pieces(bytes, num, (n * 8) as nat);
        lemma_present_is_set(bytes, num, num);
    } else {
        lemma_present_is_set(bytes, num, (n * 8) as nat);
        lemma_present_past_bytes(bytes, num, num);
    }
}

/// No bit past the last piece is set in a new or emptied bitfield (all bytes
/// zero), and marking a piece present or absent keeps it so; only filling every
/// byte with ones can set such bits.
pub proof fn law_padding_stays_clear(bytes: Seq<u8>, num: nat, index: u32, value: bool)
    requires
        padding_clear(bytes, num),
    ensures
        padding_clear(bytes_after_set(bytes, num, index, value), num),
        forall|n: nat| #[trigger] padding_clear(zero_bytes(n), num),
{
    let after = bytes_after_set(bytes, num, index, value);
    if index < num && (index as int) / 8 < bytes.len() {
        let q = (index as int) / 8;
        assert forall|i: int| num <= i < after.len() * 8 implies !#[trigger] bit_of(after, i) by {
            if i / 8 == q {
                let k = (7 - i % 8) as u8;
                let j = (7 - (index % 8) as u8) as u8;
                lemma_bit_update(bytes[q], j, k);
                assert(i % 8 != (index as int) % 8);
                assert(!bit_of(bytes, i));
            } else {
                assert(!bit_of(bytes, i));
            }
        }
    }
    assert forall|n: nat| #[trigger] padding_clear(zero_bytes(n), num) by {
        let z = zero_bytes(n);
        assert forall|i: int| num <= i < z.len() * 8 implies !#[trigger] bit_of(z, i) by {
            let k = (7 - i % 8) as u8;
            assert(0u8 & (1u8 << k) == 0) by (bit_vector);
        }
    }
}

/// A cursor over the bits of a bitfield.
pub struct BitfieldIter<'a> {
    pub bitfield: &'a Bitfield,
    pub index: u32,
}

impl<'a> BitfieldIter<'a> {
    /// The next piece's bit, or `None` past the last piece.
    pub fn next(&mut self) -> (r: Option<bool>)
        ensures
            final(self).bitfield == old(self).bitfield,
            old(self).index >= old(self).bitfield.spec_num_pieces() ==> (r is None
                && final(self).index == old(self).index),
            old(self).index < old(self).bitfield.spec_num_pieces() ==> (r == Some(
                old(self).bitfield.spec_has(old(self).index as int),
            ) && final(self).index == old(self).index + 1),
    {
        if self.index >= self.bitfield.num_pieces() {
            return None;
        }
        let val = self.bitfield.has(self.index);
        self.index = self.index + 1;
        Some(val)
    }
}

/// How urgently a piece is wanted, most urgent first.
#[derive(Debug, Clone, Copy, PartialEq, Eq, PartialOrd, Ord)]
pub enum PiecePriority {
    Critical,
    High,
    Normal,
    Low,
}

/// One piece of a shared file.
#[derive(Debug, Clone)]
pub struct PieceInfo {
    pub index: u32,
    pub hash: [u8; 20],
    pub priority: PiecePriority,
    pub length: u64,
}

/// A request for a block inside a piece.
#[derive(Debug, Clone)]
pub struct BlockRequest {
    pub piece_index: u32,
    pub begin: u32,
    pub length: u32,
}

/// The event reported to a tracker with an announce.
#[derive(Debug, Clone, Copy, PartialEq, Eq, Structural)]
pub enum AnnounceEvent {
    Started,
    Completed,
    Stopped,
    Empty,
}

impl AnnounceEvent {
    /// The name of the event in a tracker query.
    pub open spec fn spec_str(&self) -> Seq<char> {
        match self {
            AnnounceEvent::Started => "started"@,
            AnnounceEvent::Completed => "completed"@,
            AnnounceEvent::Stopped => "stopped"@,
            AnnounceEvent::Empty => "empty"@,
        }
    }

    /// The name of the event in a tracker query.
    pub fn as_str(&self) -> (s: &'static str)
        ensures
            s@ == self.spec_str(),
    {
        match self {
            AnnounceEvent::Started => "started",
            AnnounceEvent::Completed => "completed",
            AnnounceEvent::Stopped => "stopped",
            AnnounceEvent::Empty => "empty",
        }
    }
}

/// How many peers a tracker knows for a file.
#[derive(Debug, Clone, Copy, PartialEq, Eq, Structural)]
pub struct SwarmStatus {
    pub complete: u32,
    pub incomplete: u32,
    pub downloaded: u32,
}

/// A node in a routing-table bucket.
#[derive(Debug, Clone, Copy)]
pub struct KBucketEntry {
    pub node_id: NodeId,
    pub addr: SocketAddress,
    /// When the node was last heard from, in milliseconds of the clock the table uses.
    pub last_seen_ms: u64,
    pub latency_ms: u64,
    pub is_firewalled: bool,
}

/// Kind of a video frame.
#[derive(Debug, Clone, Copy, PartialEq, Eq, Structural)]
pub enum FrameType {
    I,
    P,
    B,
}

/// Where a frame starts in the file and when it is shown.
#[derive(Debug, Clone, Copy)]
pub struct KeyFrameEntry {
    pub timestamp_ms: u64,
    pub file_offset: u64,
    pub frame_size: u64,
    pub frame_type: FrameType,
}

/// The intra frames among `s`, in order.
pub open spec fn i_frames(s: Seq<KeyFrameEntry>) -> Seq<KeyFrameEntry>
    decreases s.len(),
{
    if s.len() == 0 {
        Seq::empty()
    } else if s.last().frame_type == FrameType::I {
        i_frames(s.drop_last()).push(s.last())
    } else {
        i_frames(s.drop_last())
    }
}

/// Entry `k` is an intra frame shown no later than `t`.
pub open spec fn is_candidate(s: Seq<KeyFrameEntry>, k: int, t: u64) -> bool {
    0 <= k < s.len() && s[k].frame_type == FrameType::I && s[k].timestamp_ms <= t
}

/// Entry `k` is the first, among intra frames shown no later than `t`, with the
/// latest timestamp.
pub open spec fn is_nearest(s: Seq<KeyFrameEntry>, k: int, t: u64) -> bool {
    &&& is_candidate(s, k, t)
    &&& forall|j: int| #[trigger] is_candidate(s, j, t) ==> s[j].timestamp_ms <= s[k].timestamp_ms
    &&& forall|j: int| #[trigger] is_candidate(s, j, t) && j < k ==> s[j].timestamp_ms < s[k].timestamp_ms
}

/// The frames of a file that a seek can start from.
#[derive(Debug, Clone)]
pub struct KeyFrameIndex {
    pub entries: Vec<KeyFrameEntry>,
}

/// The segment that starts at intra frame `idx`: its offset and its length up to
/// the next intra frame, or the frame's own size for the last one.
pub open spec fn segment_spec(f: Seq<KeyFrameEntry>, idx: int) -> Option<(u64, u64)> {
    if idx < 0 || idx >= f.len() {
        None
    } else if idx + 1 < f.len() {
        Some((f[idx].file_offset, (f[idx + 1].file_offset - f[idx].file_offset) as u64))
    } else {
        Some((f[idx].file_offset, f[idx].frame_size))
    }
}

/// Segment `idx` can be computed without overflow: the next intra frame does not
/// start before it, and the last one does not run past the largest offset.
pub open spec fn segment_computable(f: Seq<KeyFrameEntry>, idx: int) -> bool {
    0 <= idx < f.len() ==> if idx + 1 < f.len() {
        f[idx + 1].file_offset >= f[idx].file_offset
    } else {
        f[idx].file_offset + f[idx].frame_size <= u64::MAX
    }
}

impl KeyFrameIndex {
    /// An empty index.
    pub fn new() -> (k: KeyFrameIndex)
        ensures
            k.entries@.len() == 0,
    {
        KeyFrameIndex { entries: Vec::new() }
    }

    /// The intra frame to start playing from at `timestamp_ms`: the latest one shown
    /// no later than that, the first of them on a tie.
    pub fn find_nearest_i_frame(&self, timestamp_ms: u64) -> (r: Option<&KeyFrameEntry>)
        ensures
            r is None <==> forall|j: int| !#[trigger] is_candidate(self.entries@, j, timestamp_ms),
            r matches Some(e) ==> exists|k: int|
                is_nearest(self.entries@, k, timestamp_ms) && *e == #[trigger] self.entries@[k],
    {
        let mut best: Option<usize> = None;
        let mut i: usize = 0;
        while i < self.entries.len()
            invariant
                i <= self.entries@.len(),
                best is None <==> forall|j: int|
                    0 <= j < i ==> !#[trigger] is_candidate(self.entries@, j, timestamp_ms),
                best matches Some(b) ==> b < i && is_candidate(self.entries@, b as int, timestamp_ms)
                    && (forall|j: int|
                    0 <= j < i && #[trigger] is_candidate(self.entries@, j, timestamp_ms)
                        ==> self.entries@[j].timestamp_ms <= self.entries@[b as int].timestamp_ms)
                    && (forall|j: int|
                    0 <= j < b && #[trigger] is_candidate(self.entries@, j, timestamp_ms)
                        ==> self.entries@[j].timestamp_ms < self.entries@[b as int].timestamp_ms),
            decreases self.entries@.len() - i,
        {
            let entry = &self.entries[i];
            assert(is_candidate(self.entries@, i as int, timestamp_ms) == (entry.frame_type
                == FrameType::I && entry.timestamp_ms <= timestamp_ms));
            if entry.frame_type == FrameType::I && entry.timestamp_ms <= timestamp_ms {
                match best {
                    None => {
                        best = Some(i);
                    },
                    Some(b) => {
                        if timestamp_ms - entry.timestamp_ms < timestamp_ms
                            - self.entries[b].timestamp_ms {
                            best = Some(i);
                        }
                    },
                }
            }
            i += 1;
        }
        match best {
            None => None,
            Some(b) => {
                assert(is_nearest(self.entries@, b as int, timestamp_ms));
                Some(&self.entries[b])
            },
        }
    }

    /// The intra frames, in order.
    pub fn find_all_i_frames(&self) -> (v: Vec<&KeyFrameEntry>)
        ensures
            v@.len() == i_frames(self.entries@).len(),
            forall|k: int| 0 <= k < v@.len() ==> *#[trigger] v@[k] == i_frames(self.entries@)[k],
    {
        let mut v: Vec<&KeyFrameEntry> = Vec::new();
        let mut i: usize = 0;
        while i < self.entries.len()
            invariant
                i <= self.entries@.len(),
                v@.len() == i_frames(self.entries@.subrange(0, i as int)).len(),
                forall|k: int|
                    0 <= k < v@.len() ==> *#[trigger] v@[k] == i_frames(
                        self.entries@.subrange(0, i as int),
                    )[k],
            decreases self.entries@.len() - i,
        {
            assert(self.entries@.subrange(0, i + 1).drop_last() =~= self.entries@.subrange(
                0,
                i as int,
            ));
            let e = &self.entries[i];
            if e.frame_type == FrameType::I {
                v.push(e);
            }
            i += 1;
        }
        assert(self.entries@.subrange(0, i as int) =~= self.entries@);
        v
    }

    /// Offset and length of segment `segment_index`, which starts at that intra frame.
    pub fn segment_at(&self, segment_index: usize) -> (r: Option<(u64, u64)>)
        requires
            segment_computable(i_frames(self.entries@), segment_index as int),
        ensures
            r == segment_spec(i_frames(self.entries@), segment_index as int),
    {
        let iframes = self.find_all_i_frames();
        if segment_index >= iframes.len() {
            return None;
        }
        let start = iframes[segment_index].file_offset;
        let end = if segment_index + 1 < iframes.len() {
            iframes[segment_index + 1].file_offset
        } else {
            start + iframes[segment_index].frame_size
        };
        Some((start, end - start))
    }
}

/// Everything known about a shared media file.
#[derive(Debug, Clone)]
pub struct FileMeta {
    pub info_hash: InfoHash,
    pub filename: String,
    pub file_size: u64,
    pub piece_length: u64,
    pub pieces: Vec<[u8; 20]>,
    pub keyframe_index: Option<KeyFrameIndex>,
    pub duration_ms: u64,
    pub video_codec: Option<String>,
    pub audio_codec: Option<String>,
    pub width: u32,
    pub height: u32,
    pub bitrate: u64,
    pub from_cache: bool,
}

/// A stream opened on a file.
#[derive(Debug, Clone)]
pub struct MediaStream {
    pub metadata: FileMeta,
}

impl MediaStream {
    /// A stream over the file described by `metadata`.
    pub fn new(metadata: FileMeta) -> (m: MediaStream)
        ensures
            m.metadata == metadata,
    {
        MediaStream { metadata }
    }

    /// Pieces needed to cover the file: the size divided by the piece length, rounded up.
    pub fn num_pieces(&self) -> (n: u32)
        requires
            self.metadata.piece_length > 0,
            self.metadata.file_size + self.metadata.piece_length <= u64::MAX,
        ensures
            n == ((self.metadata.file_size + self.metadata.piece_length - 1)
                / self.metadata.piece_length as int) as u32,
    {
        let total = self.metadata.file_size + self.metadata.piece_length - 1;
        (total / self.metadata.piece_length) as u32
    }
}

/// How the engine may reach peers.
#[derive(Debug, Clone, Copy, PartialEq, Eq, Structural)]
pub enum TransportMode {
    Normal,
    TcpOnly,
}

/// Counters of a DHT node.
#[derive(Debug, Clone, Copy, Default)]
pub struct DhtStats {
    pub total_peers_found: u64,
    pub messages_sent: u64,
    pub messages_received: u64,
    pub routing_table_size: usize,
}

} // verus!
