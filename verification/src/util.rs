//! Small shared helpers: identifiers, distances, hexadecimal text, hashing.
use vstd::prelude::*;
use vstd::utf8::encode_utf8;

use crate::strings::{all_ascii, ascii_chars, ascii_to_string, lemma_ascii_boundaries, lemma_ascii_utf8};
use crate::text::{decode_hex_pairs, decode_hex_pairs_exec, hex_bytes, hex_lower, lemma_decode_hex_lower, lemma_hex_lower_ascii};
use crate::types::{hex_cuts_on_boundaries, lemma_boundaries_give_cuts, xor_seq};

verus! {

/// The SHA-1 digest of some bytes.
pub uninterp spec fn sha1_of(data: Seq<u8>) -> Seq<u8>;

/// The SHA-1 digest of `data`.
///
/// Trusted: this calls `sha1::Sha1::digest`, whose 20-byte result depends on the
/// bytes alone; the contract names that result `sha1_of(data)` and claims nothing more.
#[verifier::external_body]
pub fn sha1_hash(data: &[u8]) -> (hash: [u8; 20])
    ensures
        hash@ == sha1_of(data@),
{
    <sha1::Sha1 as sha1::Digest>::digest(data).into()
}

} // verus!

verus! {

/// Twenty random bytes.
///
/// Trusted: this calls `rand::random::<[u8; 20]>`, which draws from the thread's
/// generator; nothing is claimed about the bytes.
#[verifier::external_body]
fn random_bytes20() -> (a: [u8; 20]) {
    rand::random::<[u8; 20]>()
}

/// The client prefix of every peer id.
pub open spec fn peer_id_prefix() -> Seq<u8> {
    seq![45u8, 81u8, 86u8, 48u8, 48u8, 48u8, 49u8, 45u8]
}

/// A fresh peer id: `-QV0001-` then twelve random bytes.
pub fn generate_peer_id() -> (id: [u8; 20])
    ensures
        id@.take(8) == peer_id_prefix(),
{
    let mut id = random_bytes20();
    id[0] = 45u8;
    id[1] = 81u8;
    id[2] = 86u8;
    id[3] = 48u8;
    id[4] = 48u8;
    id[5] = 48u8;
    id[6] = 49u8;
    id[7] = 45u8;
    assert(id@.take(8) =~= peer_id_prefix());
    id
}

/// A fresh node id: twenty random bytes.
pub fn generate_node_id() -> (id: [u8; 20]) {
    random_bytes20()
}

/// The byte-wise exclusive or of two ids.
pub fn xor_distance(a: &[u8; 20], b: &[u8; 20]) -> (dist: [u8; 20])
    ensures
        dist@ == xor_seq(a@, b@),
{
    let mut dist = [0u8; 20];
    let mut i: usize = 0;
    while i < 20
        invariant
            i <= 20,
            forall|j: int| 0 <= j < i ==> dist@[j] == a@[j] ^ b@[j],
        decreases 20 - i,
    {
        dist[i] = a[i] ^ b[i];
        i += 1;
    }
    assert(dist@ =~= xor_seq(a@, b@));
    dist
}

/// Lowercase hexadecimal text of the bytes, two digits per byte.
pub fn hex_encode(data: &[u8]) -> (s: String)
    ensures
        s@ == ascii_chars(hex_lower(data@)),
{
    let hex = hex_bytes(data);
    proof {
        lemma_hex_lower_ascii(data@);
    }
    ascii_to_string(hex.as_slice())
}

/// What decoding hexadecimal text gives.
pub open spec fn spec_hex_decode(b: Seq<u8>) -> Result<Seq<u8>, Seq<char>> {
    if b.len() % 2 != 0 {
        Err("hex string must have even length"@)
    } else {
        match decode_hex_pairs(b) {
            Ok(v) => Ok(v),
            Err(e) => Err(e.spec_message()),
        }
    }
}

/// Decodes hexadecimal text, two digits (of either case) per byte.
pub fn hex_decode(s: &str) -> (r: Result<Vec<u8>, String>)
    requires
        encode_utf8(s@).len() % 2 == 0 ==> hex_cuts_on_boundaries(encode_utf8(s@), 0),
    ensures
        match spec_hex_decode(encode_utf8(s@)) {
            Ok(v) => r matches Ok(x) && x@ == v,
            Err(m) => r matches Err(x) && x@ == m,
        },
{
    let b = s.as_bytes();
    if b.len() % 2 != 0 {
        return Err(String::from_str("hex string must have even length"));
    }
    match decode_hex_pairs_exec(b) {
        Ok(v) => Ok(v),
        Err(e) => Err(e.message()),
    }
}

/// Decoding the text `hex_encode` writes gives the bytes back; and that text
/// is one `hex_decode` takes.
pub proof fn law_hex_roundtrip(data: Seq<u8>)
    ensures
        spec_hex_decode(hex_lower(data)) == Ok::<Seq<u8>, Seq<char>>(data),
        encode_utf8(ascii_chars(hex_lower(data))) == hex_lower(data),
        hex_cuts_on_boundaries(hex_lower(data), 0),
{
    lemma_hex_lower_ascii(data);
    assert(all_ascii(hex_lower(data)));
    lemma_ascii_utf8(hex_lower(data));
    lemma_ascii_boundaries(hex_lower(data));
    lemma_boundaries_give_cuts(hex_lower(data), 0);
    lemma_decode_hex_lower(data);
    assert(hex_lower(data).len() % 2 == 0);
}

/// Milliseconds since the Unix epoch, by the system clock (0 if the clock is
/// before the epoch).
///
/// Trusted: this reads `std::time::SystemTime::now()`; nothing is claimed about
/// the value.
#[verifier::external_body]
pub fn current_time_millis() -> u64 {
    std::time::SystemTime::now().duration_since(std::time::UNIX_EPOCH).unwrap_or_default().as_millis() as u64
}

/// The compact peer records of `data`: each six bytes are an IPv4 address and
/// a big-endian port; a shorter tail is ignored.
pub open spec fn compact_peers(data: Seq<u8>) -> Seq<(Seq<u8>, u16)> {
    Seq::new(
        data.len() / 6,
        |i: int| (data.subrange(6 * i, 6 * i + 4), (data[6 * i + 4] * 256 + data[6 * i + 5]) as u16),
    )
}

/// Reads compact peer records.
pub fn parse_compact_peers(data: &[u8]) -> (peers: Vec<(Vec<u8>, u16)>)
    ensures
        peers@.len() == compact_peers(data@).len(),
        forall|i: int|
            0 <= i < peers@.len() ==> (#[trigger] peers@[i]).0@ == compact_peers(data@)[i].0
                && peers@[i].1 == compact_peers(data@)[i].1,
{
    let mut peers: Vec<(Vec<u8>, u16)> = Vec::new();
    let n = data.len() / 6;
    let mut k: usize = 0;
    assert(data@.len() == data.len());
    while k < n
        invariant
            n == data@.len() / 6,
            data@.len() == data.len(),
            k <= n,
            peers@.len() == k,
            forall|i: int|
                0 <= i < k ==> (#[trigger] peers@[i]).0@ == compact_peers(data@)[i].0 && peers@[i].1
                    == compact_peers(data@)[i].1,
        decreases n - k,
    {
        assert(6 * k + 6 <= data@.len()) by (nonlinear_arith)
            requires
                k < n,
                n == data@.len() / 6,
        ;
        let off = 6 * k;
        let ip = vstd::slice::slice_to_vec(&data[off..off + 4]);
        let port = (data[off + 4] as u16) * 256 + (data[off + 5] as u16);
        peers.push((ip, port));
        k += 1;
    }
    peers
}

} // verus!
