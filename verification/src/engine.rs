//! The decisions of the streaming engine: which parts it starts with, what it
//! knows of a stream before playing it, which peers it has, and how its
//! download loops walk through a file.
use vstd::prelude::*;

use crate::cache::CacheConfig;
use crate::dht_node::DhtConfig;
use crate::error::QvodError;
use crate::strings::push_str;
use crate::stream::{is_empty_meta, EngineConfig};
use crate::tracker::TrackerConfig;
use crate::types::{FileMeta, InfoHash, PeerInfo, DHT_ALPHA, DHT_K, DHT_PEER_TIMEOUT, DHT_REFRESH_INTERVAL, PIECE_LENGTH};
use crate::util::{sha1_hash, sha1_of};

verus! {

/// Bytes read or requested per step of a download loop.
pub const DOWNLOAD_CHUNK: u64 = 65536;

/// Failed steps in a row after which a download loop gives up.
pub const MAX_DOWNLOAD_ERRORS: u32 = 10;

/// The smallest cache the engine sets up: one gibibyte.
pub const MIN_CACHE_SIZE: u64 = 1024 * 1024 * 1024;

/// The DHT settings of an engine: its UDP port and seed nodes, defaults otherwise.
pub fn dht_config_for(config: &EngineConfig) -> (d: DhtConfig)
    ensures
        d.listen_port == config.udp_port,
        d.seed_nodes@ == config.dht_seed_nodes@,
        d.k == DHT_K,
        d.alpha == DHT_ALPHA,
        d.refresh_interval == DHT_REFRESH_INTERVAL,
        d.peer_timeout == DHT_PEER_TIMEOUT,
{
    DhtConfig {
        listen_port: config.udp_port,
        k: DHT_K,
        alpha: DHT_ALPHA,
        refresh_interval: DHT_REFRESH_INTERVAL,
        peer_timeout: DHT_PEER_TIMEOUT,
        seed_nodes: copy_texts(&config.dht_seed_nodes),
    }
}

/// A copy of a list of texts.
pub fn copy_texts(v: &Vec<String>) -> (r: Vec<String>)
    ensures
        r@ == v@,
{
    let mut r: Vec<String> = Vec::new();
    let mut i: usize = 0;
    while i < v.len()
        invariant
            i <= v@.len(),
            r@ == v@.take(i as int),
        decreases v@.len() - i,
    {
        r.push(v[i].clone());
        assert(v@.take(i + 1) =~= v@.take(i as int).push(v@[i as int]));
        i += 1;
    }
    assert(v@.take(v@.len() as int) =~= v@);
    r
}

/// The tracker settings of an engine with peer id `peer_id`: none when
/// trackers are off or none is configured.
pub fn tracker_config_for(config: &EngineConfig, peer_id: [u8; 20]) -> (t: Option<TrackerConfig>)
    ensures
        (config.tracker_enabled && config.tracker_urls@.len() > 0) <==> t is Some,
        t matches Some(c) ==> c.tracker_urls@ == config.tracker_urls@ && c.peer_id == peer_id && c.port
            == config.listen_port && c.compact,
{
    if config.tracker_enabled && config.tracker_urls.len() > 0 {
        Some(TrackerConfig { tracker_urls: copy_texts(&config.tracker_urls), peer_id, port: config.listen_port, compact: true })
    } else {
        None
    }
}

/// The cache settings of an engine: none when the cache is off; otherwise its
/// directory, ten times the buffer but at least `MIN_CACHE_SIZE`, a thousand files.
pub fn cache_config_for(config: &EngineConfig) -> (c: Option<CacheConfig>)
    ensures
        config.cache_enabled <==> c is Some,
        c matches Some(cc) ==> cc.cache_dir@ == config.cache_dir@ && cc.max_files == 1000 && cc.max_size == (if config.buffer_capacity_mb
            * 1024 * 1024 * 10 >= MIN_CACHE_SIZE {
            config.buffer_capacity_mb * 1024 * 1024 * 10
        } else {
            MIN_CACHE_SIZE as int
        }),
{
    if config.cache_enabled {
        let ten = config.buffer_capacity() * 10;
        let max_size = if ten >= MIN_CACHE_SIZE { ten } else { MIN_CACHE_SIZE };
        Some(CacheConfig { cache_dir: config.cache_dir.clone(), max_size, max_files: 1000 })
    } else {
        None
    }
}

/// The peers found for a stream: the tracker's, then the DHT's; a source that
/// is off or failed adds none.
pub fn merge_peers(
    tracker: Option<Result<Vec<PeerInfo>, QvodError>>,
    dht: Option<Result<Vec<PeerInfo>, QvodError>>,
) -> (r: Vec<PeerInfo>)
    ensures
        r@ == (match tracker {
            Some(Ok(p)) => p@,
            _ => Seq::<PeerInfo>::empty(),
        }) + (match dht {
            Some(Ok(p)) => p@,
            _ => Seq::<PeerInfo>::empty(),
        }),
{
    let mut all: Vec<PeerInfo> = match tracker {
        Some(Ok(p)) => p,
        _ => Vec::new(),
    };
    match dht {
        Some(Ok(p)) => {
            let mut p = p;
            all.append(&mut p);
        },
        _ => {},
    }
    assert(all@ =~= (match tracker {
        Some(Ok(p)) => p@,
        _ => Seq::<PeerInfo>::empty(),
    }) + (match dht {
        Some(Ok(p)) => p@,
        _ => Seq::<PeerInfo>::empty(),
    }));
    all
}

/// What a stream of a shared file is described by, after the peer search:
/// without peers, or when the peers cannot describe it, only its hash and size.
pub fn metadata_after_search(
    info_hash: InfoHash,
    file_size: u64,
    peers_found: bool,
    resolved: Result<FileMeta, QvodError>,
) -> (m: FileMeta)
    ensures
        peers_found && resolved is Ok ==> m == resolved->Ok_0,
        !(peers_found && resolved is Ok) ==> is_empty_meta(m, info_hash, file_size),
{
    if peers_found {
        match resolved {
            Ok(meta) => meta,
            Err(_) => crate::stream::MetadataResolver::empty_meta(info_hash, file_size),
        }
    } else {
        crate::stream::MetadataResolver::empty_meta(info_hash, file_size)
    }
}

/// Whether a stream of a shared file is downloaded: when peers were found or
/// its size is known.
pub fn should_download(peers_found: bool, file_size: u64) -> (b: bool)
    ensures
        b == (peers_found || file_size > 0),
{
    peers_found || file_size > 0
}

/// Pieces of `file_size` bytes in pieces of `piece_length`, rounded up, as
/// the count's low 32 bits; none without a piece length.
pub open spec fn piece_count_spec(file_size: u64, piece_length: u64) -> u32 {
    if piece_length > 0 {
        (#[verifier::truncate] (((file_size + piece_length - 1) / piece_length as int) as u32))
    } else {
        0
    }
}

/// Pieces of a file, rounded up; none without a piece length.
pub fn piece_count(file_size: u64, piece_length: u64) -> (n: u32)
    requires
        file_size + piece_length <= u64::MAX,
    ensures
        n == piece_count_spec(file_size, piece_length),
{
    if piece_length > 0 {
        #[verifier::truncate] (((file_size + piece_length - 1) / piece_length) as u32)
    } else {
        0
    }
}

/// Length of piece `index` out of `count`: the last takes what is left, a
/// whole piece when the size divides evenly.
pub fn piece_len(index: u32, count: u32, file_size: u64, piece_length: u64) -> (n: u64)
    requires
        piece_length > 0,
    ensures
        n == (if index as int == count - 1 {
            if file_size % piece_length == 0 {
                piece_length
            } else {
                file_size % piece_length
            }
        } else {
            piece_length
        }),
{
    if count > 0 && index == count - 1 {
        let remainder = file_size % piece_length;
        if remainder == 0 {
            piece_length
        } else {
            remainder
        }
    } else {
        piece_length
    }
}

/// A piece list of `count` empty piece hashes.
pub fn empty_pieces(count: u32) -> (v: Vec<[u8; 20]>)
    ensures
        v@.len() == count,
        forall|i: int| 0 <= i < count ==> (#[trigger] v@[i])@ == Seq::new(20, |k: int| 0u8),
{
    let mut v: Vec<[u8; 20]> = Vec::new();
    let mut i: u32 = 0;
    while i < count
        invariant
            i <= count,
            v@.len() == i,
            forall|j: int| 0 <= j < i ==> (#[trigger] v@[j])@ == Seq::new(20, |k: int| 0u8),
        decreases count - i,
    {
        let z = [0u8; 20];
        assert(z@ =~= Seq::new(20, |k: int| 0u8));
        v.push(z);
        i += 1;
    }
    v
}

/// What is known of a stream from a web address before it is downloaded: its
/// hash is the SHA-1 digest of the address, its size what the server reported,
/// in pieces of `PIECE_LENGTH`; nothing of its content.
pub fn http_stream_meta(url: &str, filename: String, file_size: u64) -> (m: FileMeta)
    requires
        file_size + PIECE_LENGTH <= u64::MAX,
    ensures
        m.info_hash.0@ == sha1_of(vstd::utf8::encode_utf8(url@)),
        m.filename == filename,
        m.file_size == file_size,
        m.piece_length == PIECE_LENGTH,
        m.pieces@.len() == (if file_size > 0 { piece_count_spec(file_size, PIECE_LENGTH) } else { 0 }),
        m.keyframe_index is None,
        m.duration_ms == 0,
        m.video_codec is None,
        m.audio_codec is None,
        m.width == 0,
        m.height == 0,
        m.bitrate == 0,
        !m.from_cache,
{
    let hash = sha1_hash(url.as_bytes());
    let count = if file_size > 0 { piece_count(file_size, PIECE_LENGTH) } else { 0 };
    FileMeta {
        info_hash: InfoHash(hash),
        filename,
        file_size,
        piece_length: PIECE_LENGTH,
        pieces: empty_pieces(count),
        keyframe_index: None,
        duration_ms: 0,
        video_codec: None,
        audio_codec: None,
        width: 0,
        height: 0,
        bitrate: 0,
        from_cache: false,
    }
}

/// The `file://` address of a local path, which names the stream of the file.
pub fn file_uri(path: &str) -> (u: String)
    ensures
        u@ == "file://"@ + path@,
{
    let mut u = String::from_str("file://");
    push_str(&mut u, path);
    u
}

/// The hash of the stream of a local file: the SHA-1 digest of its `file://` address.
pub fn file_stream_hash(path: &str) -> (h: InfoHash)
    ensures
        h.0@ == sha1_of(vstd::utf8::encode_utf8("file://"@ + path@)),
{
    let u = file_uri(path);
    InfoHash(sha1_hash(u.as_str().as_bytes()))
}

/// What a media probe tells of a file: duration, picture size, codecs, bit rate.
#[derive(Debug, Clone)]
pub struct ProbeSummary {
    pub duration_ms: u64,
    pub width: u32,
    pub height: u32,
    pub video_codec: String,
    pub audio_codec: String,
    pub bitrate: u64,
}

/// What is known of a local file of `file_size` bytes named `filename`, with
/// what a probe told of it (nothing when it could not be probed): an empty codec
/// is no codec; pieces of `PIECE_LENGTH`. Its hash is that of its stream.
pub fn local_file_meta(path: &str, filename: String, file_size: u64, probe: Option<ProbeSummary>) -> (m: FileMeta)
    requires
        file_size + PIECE_LENGTH <= u64::MAX,
    ensures
        m.info_hash.0@ == sha1_of(vstd::utf8::encode_utf8("file://"@ + path@)),
        m.filename == filename,
        m.file_size == file_size,
        m.piece_length == PIECE_LENGTH,
        m.pieces@.len() == (if file_size > 0 { piece_count_spec(file_size, PIECE_LENGTH) } else { 0 }),
        m.keyframe_index is None,
        match probe {
            Some(p) => {
                &&& m.duration_ms == p.duration_ms
                &&& m.width == p.width
                &&& m.height == p.height
                &&& m.bitrate == p.bitrate
                &&& (p.video_codec@.len() == 0 <==> m.video_codec is None)
                &&& (m.video_codec matches Some(v) ==> v == p.video_codec)
                &&& (p.audio_codec@.len() == 0 <==> m.audio_codec is None)
                &&& (m.audio_codec matches Some(a) ==> a == p.audio_codec)
            },
            None => m.duration_ms == 0 && m.width == 0 && m.height == 0 && m.bitrate == 0
                && m.video_codec is None && m.audio_codec is None,
        },
        !m.from_cache,
{
    let count = if file_size > 0 { piece_count(file_size, PIECE_LENGTH) } else { 0 };
    let (duration_ms, width, height, video_codec, audio_codec, bitrate) = match probe {
        Some(p) => (
            p.duration_ms,
            p.width,
            p.height,
            if p.video_codec.as_str().unicode_len() == 0 { None } else { Some(p.video_codec) },
            if p.audio_codec.as_str().unicode_len() == 0 { None } else { Some(p.audio_codec) },
            p.bitrate,
        ),
        None => (0, 0, 0, None, None, 0),
    };
    FileMeta {
        info_hash: file_stream_hash(path),
        filename,
        file_size,
        piece_length: PIECE_LENGTH,
        pieces: empty_pieces(count),
        keyframe_index: None,
        duration_ms,
        video_codec,
        audio_codec,
        width,
        height,
        bitrate,
        from_cache: false,
    }
}

/// Where a stream of `file_size` bytes and `duration_ms` is when `offset` bytes
/// are read: in proportion to the duration, or at one megabit per second when
/// the duration is unknown; 0 for an empty file. The proportion keeps the low
/// 64 bits.
pub open spec fn position_estimate(offset: u64, file_size: u64, duration_ms: u64) -> u64 {
    if duration_ms > 0 {
        if file_size > 0 {
            (#[verifier::truncate] ((offset * duration_ms / file_size as int) as u64))
        } else {
            0
        }
    } else if file_size > 0 {
        (offset * 8 * 1000 / 1_000_000int) as u64
    } else {
        0
    }
}

/// Where a stream is when `offset` of its bytes are read.
pub fn estimate_position_ms(offset: u64, file_size: u64, duration_ms: u64) -> (p: u64)
    requires
        duration_ms == 0 && file_size > 0 ==> offset * 8 * 1000 <= u64::MAX,
    ensures
        p == position_estimate(offset, file_size, duration_ms),
{
    if duration_ms > 0 {
        if file_size > 0 {
            assert((offset as u128) * (duration_ms as u128) <= u128::MAX) by (nonlinear_arith)
                requires
                    offset <= u64::MAX,
                    duration_ms <= u64::MAX,
            ;
            let prod: u128 = (offset as u128) * (duration_ms as u128);
            let q: u128 = prod / (file_size as u128);
            #[verifier::truncate] (q as u64)
        } else {
            0
        }
    } else if file_size > 0 {
        let assumed_bitrate: u64 = 1_000_000;
        offset * 8 * 1000 / assumed_bitrate
    } else {
        0
    }
}

/// The bytes of a web download's next request: from `offset` to the end of
/// its chunk or of the file, both ends included.
pub fn http_chunk_range(offset: u64, file_size: u64) -> (r: (u64, u64))
    requires
        offset < file_size,
        offset + DOWNLOAD_CHUNK <= u64::MAX,
    ensures
        r.0 == offset,
        r.1 == (if offset + DOWNLOAD_CHUNK - 1 <= file_size - 1 { offset + DOWNLOAD_CHUNK - 1 } else { file_size - 1 }),
{
    let a = offset + DOWNLOAD_CHUNK - 1;
    let b = file_size - 1;
    (offset, if a <= b { a } else { b })
}

/// The bytes of a local file's next read: a chunk, or what is left of the file.
pub fn file_chunk_len(offset: u64, file_size: u64) -> (n: u64)
    requires
        offset <= file_size,
    ensures
        n == (if DOWNLOAD_CHUNK <= file_size - offset { DOWNLOAD_CHUNK } else { (file_size - offset) as u64 }),
{
    let left = file_size - offset;
    if DOWNLOAD_CHUNK <= left {
        DOWNLOAD_CHUNK
    } else {
        left
    }
}

/// Failed steps of a download loop in a row, and whether it gives up.
pub struct ErrorCount {
    pub errors: u32,
}

impl ErrorCount {
    /// No failure yet.
    pub fn new() -> (c: ErrorCount)
        ensures
            c.errors == 0,
    {
        ErrorCount { errors: 0 }
    }

    /// A step succeeded: the count starts over.
    pub fn succeeded(&mut self)
        ensures
            final(self).errors == 0,
    {
        self.errors = 0;
    }

    /// A step failed: true when `MAX_DOWNLOAD_ERRORS` failures in a row are reached.
    pub fn failed(&mut self) -> (give_up: bool)
        requires
            old(self).errors < MAX_DOWNLOAD_ERRORS,
        ensures
            final(self).errors == old(self).errors + 1,
            give_up == (final(self).errors >= MAX_DOWNLOAD_ERRORS),
    {
        self.errors = self.errors + 1;
        self.errors >= MAX_DOWNLOAD_ERRORS
    }
}

} // verus!
