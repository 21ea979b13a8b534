//! Talking to trackers: announce queries, announce replies, scrape URLs and replies.
use vstd::prelude::*;
use vstd::utf8::encode_utf8;

use crate::bencode::{dict_lookup, Bencode};
use crate::error::QvodError;
use crate::simple_bencode::{dict_peers, parse_dict_peers, simple_bencode_decode, spec_simple_decode, SimpleBencode};
use crate::strings::{all_ascii, ascii_chars, ascii_to_string, decimal_string, push_str};
use crate::text::{dec_nat, hex_lower};
use crate::types::{AnnounceEvent, InfoHash, IpAddress, PeerInfo, SocketAddress, SwarmStatus};
use crate::util::{compact_peers, parse_compact_peers};

verus! {

/// A byte that stands for itself in a URL query.
pub open spec fn is_unreserved(b: u8) -> bool {
    (48 <= b <= 57) || (97 <= b <= 122) || (65 <= b <= 90) || b == 45 || b == 95 || b == 46 || b == 126
}

/// The uppercase hexadecimal digit of a nibble.
pub open spec fn upper_hex(n: int) -> u8 {
    if n < 10 {
        (48 + n) as u8
    } else {
        (55 + n) as u8
    }
}

/// Percent-encoding: unreserved bytes as they are, every other as `%XX`.
pub open spec fn url_encode_bytes(data: Seq<u8>) -> Seq<u8>
    decreases data.len(),
{
    if data.len() == 0 {
        Seq::empty()
    } else {
        let b = data.last();
        url_encode_bytes(data.drop_last()) + if is_unreserved(b) {
            seq![b]
        } else {
            seq![37u8, upper_hex((b / 16) as int), upper_hex((b % 16) as int)]
        }
    }
}

proof fn lemma_url_encode_ascii(data: Seq<u8>)
    ensures
        all_ascii(url_encode_bytes(data)),
    decreases data.len(),
{
    if data.len() > 0 {
        lemma_url_encode_ascii(data.drop_last());
        let p = url_encode_bytes(data.drop_last());
        let b = data.last();
        let t = if is_unreserved(b) {
            seq![b]
        } else {
            seq![37u8, upper_hex((b / 16) as int), upper_hex((b % 16) as int)]
        };
        assert forall|i: int| 0 <= i < (p + t).len() implies #[trigger] (p + t)[i] < 128 by {
            if i >= p.len() {
                assert((p + t)[i] == t[i - p.len()]);
            }
        }
    }
}

/// Percent-encodes bytes for a query string.
pub fn url_encode(data: &[u8]) -> (s: String)
    ensures
        s@ == ascii_chars(url_encode_bytes(data@)),
{
    let mut out: Vec<u8> = Vec::new();
    let mut i: usize = 0;
    while i < data.len()
        invariant
            i <= data@.len(),
            out@ == url_encode_bytes(data@.take(i as int)),
        decreases data@.len() - i,
    {
        let b = data[i];
        proof {
            assert(data@.take(i + 1).drop_last() =~= data@.take(i as int));
            assert(data@.take(i + 1).last() == b);
        }
        if (48u8 <= b && b <= 57u8) || (97u8 <= b && b <= 122u8) || (65u8 <= b && b <= 90u8) || b == 45u8
            || b == 95u8 || b == 46u8 || b == 126u8 {
            out.push(b);
        } else {
            let hi = b / 16;
            let lo = b % 16;
            out.push(37u8);
            out.push(if hi < 10 { 48 + hi } else { 55 + hi });
            out.push(if lo < 10 { 48 + lo } else { 55 + lo });
        }
        proof {
            assert(out@ =~= url_encode_bytes(data@.take(i + 1)));
        }
        i += 1;
    }
    proof {
        assert(data@.take(data@.len() as int) =~= data@);
        lemma_url_encode_ascii(data@);
    }
    ascii_to_string(out.as_slice())
}

/// The parameters of an announce request.
pub struct AnnounceParams {
    pub info_hash: InfoHash,
    pub peer_id: [u8; 20],
    pub port: u16,
    pub uploaded: u64,
    pub downloaded: u64,
    pub left: u64,
    pub event: AnnounceEvent,
    pub compact: bool,
}

/// Decimal text of a number.
pub open spec fn num_text(n: nat) -> Seq<char> {
    ascii_chars(dec_nat(n))
}

/// The query string of an announce.
pub open spec fn announce_query(p: AnnounceParams) -> Seq<char> {
    "info_hash="@ + ascii_chars(url_encode_bytes(p.info_hash.0@)) + "&"@ + "peer_id="@ + ascii_chars(
        url_encode_bytes(p.peer_id@),
    ) + "&"@ + "port="@ + num_text(p.port as nat) + "&"@ + "uploaded="@ + num_text(p.uploaded as nat)
        + "&"@ + "downloaded="@ + num_text(p.downloaded as nat) + "&"@ + "left="@ + num_text(
        p.left as nat,
    ) + "&"@ + "event="@ + p.event.spec_str() + if p.compact {
        "&"@ + "compact=1"@
    } else {
        Seq::empty()
    }
}

impl AnnounceParams {
    /// The query string: the fields as `key=value`, joined by `&`.
    pub fn to_query(&self) -> (s: String)
        ensures
            s@ == announce_query(*self),
    {
        let mut s = String::from_str("info_hash=");
        let ih = url_encode(&self.info_hash.0);
        push_str(&mut s, ih.as_str());
        push_str(&mut s, "&");
        push_str(&mut s, "peer_id=");
        let pid = url_encode(&self.peer_id);
        push_str(&mut s, pid.as_str());
        push_str(&mut s, "&");
        push_str(&mut s, "port=");
        let port = decimal_string(self.port as u64);
        push_str(&mut s, port.as_str());
        push_str(&mut s, "&");
        push_str(&mut s, "uploaded=");
        let up = decimal_string(self.uploaded);
        push_str(&mut s, up.as_str());
        push_str(&mut s, "&");
        push_str(&mut s, "downloaded=");
        let down = decimal_string(self.downloaded);
        push_str(&mut s, down.as_str());
        push_str(&mut s, "&");
        push_str(&mut s, "left=");
        let left = decimal_string(self.left);
        push_str(&mut s, left.as_str());
        push_str(&mut s, "&");
        push_str(&mut s, "event=");
        push_str(&mut s, self.event.as_str());
        if self.compact {
            push_str(&mut s, "&");
            push_str(&mut s, "compact=1");
        }
        s
    }
}

/// A tracker's reply to an announce.
#[derive(Debug, Clone)]
pub struct AnnounceResponse {
    pub interval: u32,
    pub min_interval: Option<u32>,
    pub complete: u32,
    pub incomplete: u32,
    pub downloaded: u32,
    pub peers: Vec<(Vec<u8>, u16)>,
}

/// An integer field of a dictionary.
pub open spec fn int_field(es: Seq<(Seq<u8>, Bencode)>, key: Seq<char>) -> Option<int> {
    match dict_lookup(es, encode_utf8(key)) {
        Some(Bencode::Int(i)) => Some(i),
        _ => None,
    }
}

/// A count field: its value when it fits in `u32`, else 0.
pub open spec fn count_field(es: Seq<(Seq<u8>, Bencode)>, key: Seq<char>) -> u32 {
    match int_field(es, key) {
        Some(i) => if 0 <= i <= u32::MAX {
            i as u32
        } else {
            0
        },
        None => 0,
    }
}

/// The peers of a reply: compact bytes, or a list of dictionaries.
pub open spec fn reply_peers(es: Seq<(Seq<u8>, Bencode)>) -> Seq<(Seq<u8>, u16)> {
    match dict_lookup(es, encode_utf8("peers"@)) {
        Some(Bencode::Str(b)) => compact_peers(b),
        Some(Bencode::List(items)) => dict_peers(items),
        _ => Seq::empty(),
    }
}

/// A reply as mathematics sees it.
pub struct AnnounceModel {
    pub interval: u32,
    pub min_interval: Option<u32>,
    pub complete: u32,
    pub incomplete: u32,
    pub downloaded: u32,
    pub peers: Seq<(Seq<u8>, u16)>,
}

/// What reading an announce reply gives.
pub open spec fn spec_announce_reply(d: Seq<u8>) -> Result<AnnounceModel, Seq<char>> {
    match spec_simple_decode(d) {
        Err(e) => Err(e),
        Ok((Bencode::Dict(es), _)) => match int_field(es, "interval"@) {
            None => Err("missing field: \"interval\""@),
            Some(i) => if !(0 <= i <= u32::MAX) {
                Err("interval out of range"@)
            } else {
                Ok(
                    AnnounceModel {
                        interval: i as u32,
                        min_interval: match int_field(es, "min interval"@) {
                            Some(m) => if 0 <= m <= u32::MAX {
                                Some(m as u32)
                            } else {
                                None
                            },
                            None => None,
                        },
                        complete: count_field(es, "complete"@),
                        incomplete: count_field(es, "incomplete"@),
                        downloaded: count_field(es, "downloaded"@),
                        peers: reply_peers(es),
                    },
                )
            },
        },
        Ok(_) => Err("response not a dict"@),
    }
}

/// The peers a reply holds, pair by pair.
pub open spec fn peers_match(v: Seq<(Vec<u8>, u16)>, m: Seq<(Seq<u8>, u16)>) -> bool {
    v.len() == m.len() && forall|i: int| 0 <= i < v.len() ==> (#[trigger] v[i]).0@ == m[i].0 && v[i].1 == m[i].1
}

/// An integer field of a dictionary value.
fn int_field_exec(d: &crate::simple_bencode::SimpleDict, key: &str) -> (r: Option<i64>)
    ensures
        match r {
            Some(i) => int_field(d@, key@) == Some(i as int),
            None => int_field(d@, key@) is None,
        },
{
    match d.get(key.as_bytes()) {
        Some(v) => v.as_int(),
        None => None,
    }
}

/// A count field: its value when it fits in `u32`, else 0.
fn count_field_exec(d: &crate::simple_bencode::SimpleDict, key: &str) -> (n: u32)
    ensures
        n == count_field(d@, key@),
{
    match int_field_exec(d, key) {
        Some(i) => if 0 <= i && i <= 0xffff_ffff {
            i as u32
        } else {
            0
        },
        None => 0,
    }
}

impl AnnounceResponse {
    /// Reads a tracker's bencoded reply. Only `interval` is required; counts
    /// that are missing or do not fit default to 0.
    pub fn from_bencode(data: &[u8]) -> (r: Result<AnnounceResponse, QvodError>)
        ensures
            match spec_announce_reply(data@) {
                Ok(m) => r matches Ok(x) && x.interval == m.interval && x.min_interval == m.min_interval
                    && x.complete == m.complete && x.incomplete == m.incomplete && x.downloaded
                    == m.downloaded && peers_match(x.peers@, m.peers),
                Err(e) => r matches Err(QvodError::TrackerProtocol(t)) && t@ == e,
            },
    {
        let (val, _) = match simple_bencode_decode(data) {
            Ok(v) => v,
            Err(e) => {
                return Err(QvodError::TrackerProtocol(e));
            },
        };
        let dict = match val.as_dict() {
            Some(d) => d,
            None => {
                return Err(QvodError::TrackerProtocol(String::from_str("response not a dict")));
            },
        };
        let interval = match int_field_exec(dict, "interval") {
            None => {
                return Err(QvodError::TrackerProtocol(String::from_str("missing field: \"interval\"")));
            },
            Some(i) => {
                if !(0 <= i && i <= 0xffff_ffff) {
                    return Err(QvodError::TrackerProtocol(String::from_str("interval out of range")));
                }
                i as u32
            },
        };
        let min_interval = match int_field_exec(dict, "min interval") {
            Some(m) => if 0 <= m && m <= 0xffff_ffff {
                Some(m as u32)
            } else {
                None
            },
            None => None,
        };
        let complete = count_field_exec(dict, "complete");
        let incomplete = count_field_exec(dict, "incomplete");
        let downloaded = count_field_exec(dict, "downloaded");
        let peers = match dict.get("peers".as_bytes()) {
            Some(pv) => match pv {
                SimpleBencode::Str(b) => parse_compact_peers(b.as_slice()),
                SimpleBencode::List(items) => parse_dict_peers(items.as_slice()),
                _ => Vec::new(),
            },
            None => Vec::new(),
        };
        Ok(AnnounceResponse { interval, min_interval, complete, incomplete, downloaded, peers })
    }
}

/// `base` without trailing slashes.
pub open spec fn trim_trailing_slashes(s: Seq<char>) -> Seq<char>
    decreases s.len(),
{
    if s.len() > 0 && s.last() == '/' {
        trim_trailing_slashes(s.drop_last())
    } else {
        s
    }
}

/// The text without its trailing slashes.
pub fn without_trailing_slashes(base_url: &str) -> (s: String)
    ensures
        s@ == trim_trailing_slashes(base_url@),
{
    let cs = crate::seqs::str_chars(base_url);
    let mut end = cs.len();
    assert(cs@.take(cs@.len() as int) =~= cs@);
    while end > 0 && cs[end - 1] == '/'
        invariant
            end <= cs@.len(),
            cs@ == base_url@,
            trim_trailing_slashes(base_url@) == trim_trailing_slashes(cs@.take(end as int)),
        decreases end,
    {
        assert(cs@.take(end as int).drop_last() =~= cs@.take(end - 1));
        end = end - 1;
    }
    assert(trim_trailing_slashes(cs@.take(end as int)) == cs@.take(end as int));
    assert(base_url@.subrange(0, end as int) =~= cs@.take(end as int));
    String::from_str(base_url.substring_char(0, end))
}

/// `info_hash=<hex>` for each hash, joined by `&`.
pub open spec fn scrape_params(hs: Seq<InfoHash>) -> Seq<char>
    decreases hs.len(),
{
    if hs.len() == 0 {
        Seq::empty()
    } else {
        scrape_params(hs.drop_last()) + (if hs.len() > 1 { "&"@ } else { Seq::empty() }) + "info_hash="@
            + ascii_chars(hex_lower(hs.last().0@))
    }
}

/// The scrape address of a tracker for some files.
pub fn build_scrape_url(base_url: &str, info_hashes: &[InfoHash]) -> (url: String)
    ensures
        url@ == trim_trailing_slashes(base_url@) + "/scrape?"@ + scrape_params(info_hashes@),
{
    let mut url = without_trailing_slashes(base_url);
    push_str(&mut url, "/scrape?");
    let ghost head = url@;
    let mut i: usize = 0;
    while i < info_hashes.len()
        invariant
            i <= info_hashes@.len(),
            url@ == head + scrape_params(info_hashes@.take(i as int)),
        decreases info_hashes@.len() - i,
    {
        proof {
            assert(info_hashes@.take(i + 1).drop_last() =~= info_hashes@.take(i as int));
        }
        if i > 0 {
            push_str(&mut url, "&");
        }
        push_str(&mut url, "info_hash=");
        let h = info_hashes[i].to_hex();
        push_str(&mut url, h.as_str());
        i += 1;
    }
    assert(info_hashes@.take(info_hashes@.len() as int) =~= info_hashes@);
    url
}

/// The info hash a scrape key names: its first 20 bytes, zero-padded.
pub open spec fn key_hash(k: Seq<u8>) -> Seq<u8> {
    Seq::new(20, |i: int| if i < k.len() { k[i] } else { 0u8 })
}

/// The status of each file in a scrape reply, in key order.
pub open spec fn scrape_entries(files: Seq<(Seq<u8>, Bencode)>) -> Option<Seq<(Seq<u8>, SwarmStatus)>>
    decreases files.len(),
{
    if files.len() == 0 {
        Some(Seq::empty())
    } else {
        match (scrape_entries(files.drop_last()), files.last().1) {
            (Some(prev), Bencode::Dict(es)) => Some(
                prev.push(
                    (
                        key_hash(files.last().0),
                        SwarmStatus {
                            complete: count_field(es, "complete"@),
                            incomplete: count_field(es, "incomplete"@),
                            downloaded: count_field(es, "downloaded"@),
                        },
                    ),
                ),
            ),
            _ => None,
        }
    }
}

/// What reading a scrape reply gives.
pub open spec fn spec_scrape_reply(d: Seq<u8>) -> Result<Seq<(Seq<u8>, SwarmStatus)>, Seq<char>> {
    match spec_simple_decode(d) {
        Err(e) => Err(e),
        Ok((v, _)) => match v {
            Bencode::Dict(es) => match dict_lookup(es, encode_utf8("files"@)) {
                Some(Bencode::Dict(files)) => match scrape_entries(files) {
                    Some(r) => Ok(r),
                    None => Err("invalid file entry"@),
                },
                _ => Err("scrape response missing files"@),
            },
            _ => Err("scrape response missing files"@),
        },
    }
}

/// Reads a scrape reply: the counts of each file listed under `files`.
pub fn parse_scrape_response(data: &[u8]) -> (r: Result<Vec<(InfoHash, SwarmStatus)>, QvodError>)
    ensures
        match spec_scrape_reply(data@) {
            Ok(m) => r matches Ok(v) && v@.len() == m.len() && forall|i: int|
                0 <= i < v@.len() ==> (#[trigger] v@[i]).0.0@ == m[i].0 && v@[i].1 == m[i].1,
            Err(e) => r matches Err(QvodError::TrackerProtocol(t)) && t@ == e,
        },
{
    let (val, _) = match simple_bencode_decode(data) {
        Ok(v) => v,
        Err(e) => {
            return Err(QvodError::TrackerProtocol(e));
        },
    };
    let files = match val.as_dict() {
        Some(d) => match d.get("files".as_bytes()) {
            Some(SimpleBencode::Dict(f)) => f,
            _ => {
                return Err(QvodError::TrackerProtocol(String::from_str("scrape response missing files")));
            },
        },
        None => {
            return Err(QvodError::TrackerProtocol(String::from_str("scrape response missing files")));
        },
    };
    let entries = files.entries();
    let ghost m = crate::simple_bencode::smodel_dict(entries@);
    proof {
        crate::simple_bencode::lemma_smodel_dict(entries@);
    }
    let mut results: Vec<(InfoHash, SwarmStatus)> = Vec::new();
    let mut k: usize = 0;
    while k < entries.len()
        invariant
            k <= entries@.len(),
            m == crate::simple_bencode::smodel_dict(entries@),
            m == files@,
            spec_scrape_reply(data@) == match scrape_entries(files@) {
                Some(r) => Ok(r),
                None => Err::<Seq<(Seq<u8>, SwarmStatus)>, Seq<char>>("invalid file entry"@),
            },
            m.len() == entries@.len(),
            forall|j: int| 0 <= j < entries@.len() ==> #[trigger] m[j] == (entries@[j].0@, entries@[j].1.model()),
            scrape_entries(m.take(k as int)) matches Some(p) && results@.len() == p.len() && forall|i: int|
                0 <= i < results@.len() ==> (#[trigger] results@[i]).0.0@ == p[i].0 && results@[i].1 == p[i].1,
        decreases entries@.len() - k,
    {
        proof {
            assert(m.take(k + 1).drop_last() =~= m.take(k as int));
            assert(m.take(k + 1).last() == m[k as int]);
        }
        let (key, v) = (&entries[k].0, &entries[k].1);
        let d = match v.as_dict() {
            Some(d) => d,
            None => {
                proof {
                    assert(m[k as int].1 == v.model());
                    assert(!(m[k as int].1 is Dict));
                    lemma_scrape_prefix_none(m, k as int);
                    assert(scrape_entries(files@) is None);
                }
                return Err(QvodError::TrackerProtocol(String::from_str("invalid file entry")));
            },
        };
        let complete = count_field_exec(d, "complete");
        let incomplete = count_field_exec(d, "incomplete");
        let downloaded = count_field_exec(d, "downloaded");
        let mut hash = [0u8; 20];
        let mut j: usize = 0;
        while j < 20
            invariant
                j <= 20,
                forall|t: int| 0 <= t < j ==> hash@[t] == key_hash(key@)[t],
            decreases 20 - j,
        {
            if j < key.len() {
                hash[j] = key[j];
            } else {
                hash[j] = 0;
            }
            j += 1;
        }
        assert(hash@ =~= key_hash(key@));
        results.push((InfoHash(hash), SwarmStatus { complete, incomplete, downloaded }));
        k += 1;
    }
    proof {
        assert(m.take(entries@.len() as int) =~= m);
    }
    Ok(results)
}

/// Once an entry is not a dictionary, every longer prefix has no reading.
proof fn lemma_scrape_prefix_none(m: Seq<(Seq<u8>, Bencode)>, k: int)
    requires
        0 <= k < m.len(),
        !(m[k].1 is Dict),
    ensures
        scrape_entries(m) is None,
    decreases m.len(),
{
    if k < m.len() - 1 {
        assert(m.drop_last()[k] == m[k]);
        lemma_scrape_prefix_none(m.drop_last(), k);
    }
}

/// Whether `n` is the count that a dictionary entry `v` gives: its integer
/// when it fits in `u32`; 0 when it does not, or is no integer, or is missing.
pub open spec fn count_read_as(v: Option<Bencode>, n: u32) -> bool {
    match v {
        Some(Bencode::Int(i)) => if 0 <= i <= u32::MAX {
            n == i
        } else {
            n == 0
        },
        _ => n == 0,
    }
}

/// The entries of a scrape reading, one per file, from each file's dictionary.
proof fn lemma_scrape_entries(files: Seq<(Seq<u8>, Bencode)>)
    requires
        scrape_entries(files) is Some,
    ensures
        scrape_entries(files)->Some_0.len() == files.len(),
        forall|i: int|
            0 <= i < files.len() ==> (#[trigger] files[i]).1 is Dict && scrape_entries(files)->Some_0[i] == (
                key_hash(files[i].0),
                SwarmStatus {
                    complete: count_field(files[i].1->Dict_0, "complete"@),
                    incomplete: count_field(files[i].1->Dict_0, "incomplete"@),
                    downloaded: count_field(files[i].1->Dict_0, "downloaded"@),
                },
            ),
    decreases files.len(),
{
    if files.len() > 0 {
        let t = files.drop_last();
        lemma_scrape_entries(t);
        assert forall|i: int| 0 <= i < files.len() implies (#[trigger] files[i]).1 is Dict && scrape_entries(
            files,
        )->Some_0[i] == (
            key_hash(files[i].0),
            SwarmStatus {
                complete: count_field(files[i].1->Dict_0, "complete"@),
                incomplete: count_field(files[i].1->Dict_0, "incomplete"@),
                downloaded: count_field(files[i].1->Dict_0, "downloaded"@),
            },
        ) by {
            if i < t.len() {
                assert(t[i] == files[i]);
            }
        }
    }
}

/// Reading a scrape reply gives one entry per file of its `files` dictionary,
/// in order: the file's key, cut or padded with zeros to 20 bytes, and its
/// counts, each read from its own key of the file's dictionary: seeders from
/// `complete`, leechers from `incomplete`, finished downloads from `downloaded`.
pub proof fn law_scrape_counts_by_key(data: Seq<u8>)
    requires
        spec_scrape_reply(data) is Ok,
    ensures
        spec_simple_decode(data) matches Ok((Bencode::Dict(es), _)) && dict_lookup(es, encode_utf8("files"@)) matches Some(
            Bencode::Dict(files),
        ) && {
            let r = spec_scrape_reply(data)->Ok_0;
            &&& r.len() == files.len()
            &&& forall|i: int|
                0 <= i < files.len() ==> ((#[trigger] files[i]).1 matches Bencode::Dict(fe) && {
                    &&& r[i].0.len() == 20
                    &&& forall|j: int| 0 <= j < 20 ==> r[i].0[j] == if j < files[i].0.len() { files[i].0[j] } else { 0u8 }
                    &&& count_read_as(dict_lookup(fe, encode_utf8("complete"@)), r[i].1.complete)
                    &&& count_read_as(dict_lookup(fe, encode_utf8("incomplete"@)), r[i].1.incomplete)
                    &&& count_read_as(dict_lookup(fe, encode_utf8("downloaded"@)), r[i].1.downloaded)
                })
        },
{
    match spec_simple_decode(data) {
        Ok((Bencode::Dict(es), _)) => match dict_lookup(es, encode_utf8("files"@)) {
            Some(Bencode::Dict(files)) => {
                lemma_scrape_entries(files);
            },
            _ => {},
        },
        _ => {},
    }
}

/// Which trackers to ask, and how to present ourselves.
#[derive(Debug, Clone)]
pub struct TrackerConfig {
    pub tracker_urls: Vec<String>,
    pub peer_id: [u8; 20],
    pub port: u16,
    pub compact: bool,
}

impl Default for TrackerConfig {
    fn default() -> (c: TrackerConfig)
        ensures
            c.tracker_urls@.len() == 1,
            c.tracker_urls@[0]@ == "http://tracker.qvod.com:6969/announce"@,
            c.peer_id@ == Seq::new(20, |i: int| 0u8),
            c.port == crate::types::DEFAULT_PORT,
            c.compact,
    {
        let c = TrackerConfig {
            tracker_urls: vec![String::from_str("http://tracker.qvod.com:6969/announce")],
            peer_id: [0u8; 20],
            port: crate::types::DEFAULT_PORT,
            compact: true,
        };
        assert(c.peer_id@ =~= Seq::new(20, |i: int| 0u8));
        c
    }
}

/// The URL of an announce to tracker `url`: without trailing slashes, then
/// `?` and the query.
pub fn announce_url(url: &str, params: &AnnounceParams) -> (s: String)
    ensures
        s@ == trim_trailing_slashes(url@) + "?"@ + announce_query(*params),
{
    let mut s = without_trailing_slashes(url);
    push_str(&mut s, "?");
    let q = params.to_query();
    push_str(&mut s, q.as_str());
    s
}

/// The peer an announce reply lists: its address when it has four bytes, else
/// the unspecified address.
pub open spec fn reply_peer(ip: Seq<u8>, port: u16) -> PeerInfo {
    PeerInfo {
        peer_id: crate::krpc::NO_PEER_ID,
        addr: SocketAddress {
            ip: if ip.len() == 4 {
                IpAddress::V4([ip[0], ip[1], ip[2], ip[3]])
            } else {
                IpAddress::V4([0u8, 0u8, 0u8, 0u8])
            },
            port,
        },
        is_firewalled: false,
        bw_up: 0,
        bw_down: 0,
        location: None,
        latency_ms: 0,
    }
}

/// The peers an announce reply lists, in order.
pub fn peers_from_reply(peers: &Vec<(Vec<u8>, u16)>) -> (r: Vec<PeerInfo>)
    ensures
        r@.len() == peers@.len(),
        forall|i: int| 0 <= i < peers@.len() ==> #[trigger] r@[i] == reply_peer(peers@[i].0@, peers@[i].1),
{
    let mut r: Vec<PeerInfo> = Vec::new();
    let mut i: usize = 0;
    while i < peers.len()
        invariant
            i <= peers@.len(),
            r@.len() == i,
            forall|k: int| 0 <= k < i ==> #[trigger] r@[k] == reply_peer(peers@[k].0@, peers@[k].1),
        decreases peers@.len() - i,
    {
        let ip_bytes = &peers[i].0;
        let ip = if ip_bytes.len() == 4 {
            IpAddress::V4([ip_bytes[0], ip_bytes[1], ip_bytes[2], ip_bytes[3]])
        } else {
            IpAddress::V4([0u8, 0u8, 0u8, 0u8])
        };
        r.push(
            PeerInfo {
                peer_id: crate::krpc::NO_PEER_ID,
                addr: SocketAddress { ip, port: peers[i].1 },
                is_firewalled: false,
                bw_up: 0,
                bw_down: 0,
                location: None,
                latency_ms: 0,
            },
        );
        i += 1;
    }
    r
}

/// The tracker URLs in a random order.
///
/// Trusted: this calls `rand::seq::SliceRandom::shuffle` with
/// `rand::thread_rng()`, which swaps elements pairwise; the contract claims
/// that the result holds the same URLs, each as often, and nothing of the order.
#[verifier::external_body]
fn shuffled(v: Vec<String>) -> (r: Vec<String>)
    ensures
        r@.to_multiset() == v@.to_multiset(),
{
    let mut v = v;
    rand::seq::SliceRandom::shuffle(v.as_mut_slice(), &mut rand::thread_rng());
    v
}

/// A copy of the URLs.
fn copy_urls(v: &Vec<String>) -> (r: Vec<String>)
    ensures
        r@ == v@,
{
    let mut r: Vec<String> = Vec::new();
    let mut i: usize = 0;
    while i < v.len()
        invariant
            i <= v@.len(),
            r@ == v@.take(i as int),
        decreases v@.len() - i,
    {
        r.push(v[i].clone());
        assert(v@.take(i + 1) =~= v@.take(i as int).push(v@[i as int]));
        i += 1;
    }
    assert(v@.take(v@.len() as int) =~= v@);
    r
}

/// The configured tracker URLs, each once as configured, in a random order.
pub fn get_tracker_urls(config: &TrackerConfig) -> (r: Vec<String>)
    ensures
        r@.to_multiset() == config.tracker_urls@.to_multiset(),
        r@.len() == config.tracker_urls@.len(),
{
    let r = shuffled(copy_urls(&config.tracker_urls));
    proof {
        vstd::seq_lib::to_multiset_len(r@);
        vstd::seq_lib::to_multiset_len(config.tracker_urls@);
    }
    r
}

/// Attempts per tracker before the next one is tried.
pub const ATTEMPTS_PER_TRACKER: u32 = 3;

/// Seconds to wait after failed attempt `attempt` (counted from 0) before the
/// next attempt at the same tracker: 1, then 2; none after the last attempt.
pub fn retry_delay_secs(attempt: u32) -> (d: Option<u64>)
    ensures
        attempt == 0 ==> d == Some(1u64),
        attempt == 1 ==> d == Some(2u64),
        attempt >= 2 ==> d is None,
{
    if attempt < 2 {
        let d: u64 = 1u64 << attempt;
        assert(attempt == 0 ==> d == 1u64) by (bit_vector)
            requires
                d == 1u64 << attempt,
        ;
        assert(attempt == 1 ==> d == 2u64) by (bit_vector)
            requires
                d == 1u64 << attempt,
        ;
        Some(d)
    } else {
        None
    }
}

/// The error of a request to trackers that all failed: the last failure, or a
/// timeout when there was no tracker to ask.
pub fn final_error(last: Option<QvodError>) -> (e: QvodError)
    ensures
        match last {
            Some(x) => e == x,
            None => e == QvodError::TrackerTimeout,
        },
{
    match last {
        Some(x) => x,
        None => QvodError::TrackerTimeout,
    }
}

} // verus!
