//! Streaming: engine settings, HLS playlists over a file's key frames, and seeking.
use vstd::prelude::*;

use crate::error::QvodError;
use crate::strings::{ascii_chars, decimal_string, push_str};
use crate::text::dec_nat;
use crate::buffer::{BufferModel, RingBuffer};
use crate::types::{i_frames, is_candidate, is_nearest, segment_computable, segment_spec, FileMeta, InfoHash, KeyFrameEntry, PeerInfo, PIECE_LENGTH};

verus! {

/// Settings of the streaming engine.
#[derive(Debug, Clone)]
pub struct EngineConfig {
    pub listen_port: u16,
    pub udp_port: u16,
    pub max_connections: u32,
    pub buffer_capacity_mb: u32,
    pub cache_dir: String,
    pub tracker_urls: Vec<String>,
    pub dht_seed_nodes: Vec<String>,
    pub http_fallback: bool,
    pub dht_enabled: bool,
    pub tracker_enabled: bool,
    pub cache_enabled: bool,
    pub max_peers_per_stream: u32,
    pub download_timeout_secs: u64,
}

/// The default engine settings, field by field.
pub open spec fn is_default_engine_config(c: EngineConfig) -> bool {
    &&& c.listen_port == 8621
    &&& c.udp_port == 8621
    &&& c.max_connections == 50
    &&& c.buffer_capacity_mb == 64
    &&& c.cache_dir@ == "/tmp/qvs-cache"@
    &&& c.tracker_urls@.len() == 1
    &&& c.tracker_urls@[0]@ == "http://tracker.qvod.com:8621/announce"@
    &&& c.dht_seed_nodes@.len() == 1
    &&& c.dht_seed_nodes@[0]@ == "router.bittorrent.com:6881"@
    &&& c.http_fallback
    &&& c.dht_enabled
    &&& c.tracker_enabled
    &&& c.cache_enabled
    &&& c.max_peers_per_stream == 50
    &&& c.download_timeout_secs == 30
}

impl Default for EngineConfig {
    fn default() -> (c: EngineConfig)
        ensures
            is_default_engine_config(c),
    {
        EngineConfig {
            listen_port: 8621,
            udp_port: 8621,
            max_connections: 50,
            buffer_capacity_mb: 64,
            cache_dir: String::from_str("/tmp/qvs-cache"),
            tracker_urls: vec![String::from_str("http://tracker.qvod.com:8621/announce")],
            dht_seed_nodes: vec![String::from_str("router.bittorrent.com:6881")],
            http_fallback: true,
            dht_enabled: true,
            tracker_enabled: true,
            cache_enabled: true,
            max_peers_per_stream: 50,
            download_timeout_secs: 30,
        }
    }
}

impl EngineConfig {
    /// The settings to use: the defaults, whatever the path.
    pub fn load(path: &str) -> (r: Result<EngineConfig, QvodError>)
        ensures
            r matches Ok(c) && is_default_engine_config(c),
    {
        Ok(EngineConfig::default())
    }

    /// The buffer size in bytes.
    pub fn buffer_capacity(&self) -> (n: u64)
        ensures
            n == self.buffer_capacity_mb * 1024 * 1024,
    {
        (self.buffer_capacity_mb as u64) * 1024 * 1024
    }
}

/// Serves a file as an HLS playlist whose segments run from key frame to key frame.
#[derive(Debug, Clone)]
pub struct HlsAdapter {
    metadata: FileMeta,
    segment_duration: u64,
}

/// The playlist lines of the first `n` segments.
pub open spec fn m3u8_segments(f: Seq<KeyFrameEntry>, dur: u64, n: nat) -> Seq<char>
    decreases n,
{
    if n == 0 {
        Seq::empty()
    } else {
        let (offset, length) = segment_spec(f, n - 1)->0;
        m3u8_segments(f, dur, (n - 1) as nat) + "#EXTINF:"@ + ascii_chars(dec_nat(dur as nat)) + ",\n"@
            + "/segment?offset="@ + ascii_chars(dec_nat(offset as nat)) + "&length="@ + ascii_chars(
            dec_nat(length as nat),
        ) + "\n"@
    }
}

/// The playlist for intra frames `f`.
pub open spec fn m3u8_text(f: Seq<KeyFrameEntry>, dur: u64) -> Seq<char> {
    "#EXTM3U\n"@ + "#EXT-X-VERSION:3\n"@ + "#EXT-X-TARGETDURATION:"@ + ascii_chars(dec_nat(dur as nat))
        + "\n"@ + "#EXT-X-MEDIA-SEQUENCE:0\n\n"@ + m3u8_segments(f, dur, f.len()) + "#EXT-X-ENDLIST\n"@
}

impl HlsAdapter {
    /// The file served.
    pub closed spec fn meta(&self) -> FileMeta {
        self.metadata
    }

    /// The nominal duration of a segment, in seconds.
    pub closed spec fn duration(&self) -> u64 {
        self.segment_duration
    }

    /// An adapter over `metadata`, with ten-second segments.
    pub fn new(metadata: FileMeta) -> (a: HlsAdapter)
        ensures
            a.meta() == metadata,
            a.duration() == 10,
    {
        HlsAdapter { metadata, segment_duration: 10 }
    }

    /// Segments in the playlist: one per intra frame, or one without an index.
    pub fn segment_count(&self) -> (n: usize)
        ensures
            n == match self.meta().keyframe_index {
                Some(k) => i_frames(k.entries@).len(),
                None => 1,
            },
    {
        match &self.metadata.keyframe_index {
            Some(k) => k.find_all_i_frames().len(),
            None => 1,
        }
    }

    /// Offset and length of segment `index`.
    pub fn segment_info(&self, index: usize) -> (r: Result<(u64, u64), QvodError>)
        requires
            self.meta().keyframe_index matches Some(k) ==> segment_computable(
                i_frames(k.entries@),
                index as int,
            ),
        ensures
            match self.meta().keyframe_index {
                None => r matches Err(QvodError::Protocol(m)) && m@ == "no keyframe index"@,
                Some(k) => match segment_spec(i_frames(k.entries@), index as int) {
                    Some(p) => r == Ok::<(u64, u64), QvodError>(p),
                    None => r matches Err(QvodError::Protocol(m)) && m@ == "segment index out of range"@,
                },
            },
    {
        match &self.metadata.keyframe_index {
            None => Err(QvodError::Protocol(String::from_str("no keyframe index"))),
            Some(k) => match k.segment_at(index) {
                Some(p) => Ok(p),
                None => Err(QvodError::Protocol(String::from_str("segment index out of range"))),
            },
        }
    }

    /// The data of a segment as a transport stream: unchanged.
    pub fn wrap_as_ts(&self, data: &[u8]) -> (v: Vec<u8>)
        ensures
            v@ == data@,
    {
        vstd::slice::slice_to_vec(data)
    }

    /// The playlist: a header, two lines per segment, and the end marker.
    /// Without a key frame index there is nothing to list.
    pub fn generate_m3u8(&self) -> (r: Result<String, QvodError>)
        requires
            self.meta().keyframe_index matches Some(k) ==> forall|i: int|
                0 <= i < i_frames(k.entries@).len() ==> segment_computable(i_frames(k.entries@), i),
        ensures
            match self.meta().keyframe_index {
                None => r matches Err(QvodError::Protocol(m)) && m@ == "no keyframe index"@,
                Some(k) => r matches Ok(s) && s@ == m3u8_text(i_frames(k.entries@), self.duration()),
            },
    {
        let segments = self.segment_count();
        let mut playlist = String::from_str("#EXTM3U\n");
        push_str(&mut playlist, "#EXT-X-VERSION:3\n");
        push_str(&mut playlist, "#EXT-X-TARGETDURATION:");
        let dur_text = decimal_string(self.segment_duration);
        push_str(&mut playlist, dur_text.as_str());
        push_str(&mut playlist, "\n");
        push_str(&mut playlist, "#EXT-X-MEDIA-SEQUENCE:0\n\n");
        let ghost head = playlist@;
        let ghost f = match self.meta().keyframe_index {
            Some(k) => i_frames(k.entries@),
            None => Seq::empty(),
        };
        let mut i: usize = 0;
        assert(head == "#EXTM3U\n"@ + "#EXT-X-VERSION:3\n"@ + "#EXT-X-TARGETDURATION:"@ + ascii_chars(
            dec_nat(self.duration() as nat),
        ) + "\n"@ + "#EXT-X-MEDIA-SEQUENCE:0\n\n"@);
        while i < segments
            invariant
                i <= segments,
                dur_text@ == ascii_chars(dec_nat(self.duration() as nat)),
                self.segment_duration == self.duration(),
                self.meta().keyframe_index is None ==> segments == 1 && i == 0,
                self.meta().keyframe_index is Some ==> segments == f.len(),
                self.meta().keyframe_index matches Some(k) ==> f == i_frames(k.entries@),
                self.meta().keyframe_index matches Some(k) ==> forall|j: int|
                    0 <= j < i_frames(k.entries@).len() ==> segment_computable(i_frames(k.entries@), j),
                self.meta().keyframe_index is Some ==> playlist@ == head + m3u8_segments(
                    f,
                    self.duration(),
                    i as nat,
                ),
            decreases segments - i,
        {
            let (offset, length) = match self.segment_info(i) {
                Ok(p) => p,
                Err(e) => {
                    return Err(e);
                },
            };
            push_str(&mut playlist, "#EXTINF:");
            push_str(&mut playlist, dur_text.as_str());
            push_str(&mut playlist, ",\n");
            push_str(&mut playlist, "/segment?offset=");
            let o = decimal_string(offset);
            push_str(&mut playlist, o.as_str());
            push_str(&mut playlist, "&length=");
            let l = decimal_string(length);
            push_str(&mut playlist, l.as_str());
            push_str(&mut playlist, "\n");
            proof {
                if self.meta().keyframe_index is Some {
                    assert(segment_spec(f, i as int) == Some((offset, length)));
                    assert(playlist@ =~= head + m3u8_segments(f, self.duration(), (i + 1) as nat));
                }
            }
            i += 1;
        }
        push_str(&mut playlist, "#EXT-X-ENDLIST\n");
        Ok(playlist)
    }
}

/// Finds where playback resumes after a seek.
pub struct SeekEngine {
    metadata: FileMeta,
}

impl SeekEngine {
    /// The file sought in.
    pub closed spec fn meta(&self) -> FileMeta {
        self.metadata
    }

    pub fn new(metadata: FileMeta) -> (e: SeekEngine)
        ensures
            e.meta() == metadata,
    {
        SeekEngine { metadata }
    }

    /// The file offset of the intra frame to resume from at `timestamp_ms`: the
    /// latest one shown no later than that.
    pub fn find_nearest_keyframe(&self, timestamp_ms: u64) -> (r: Result<u64, QvodError>)
        ensures
            match self.meta().keyframe_index {
                None => r matches Err(QvodError::Protocol(m)) && m@ == "no keyframe index"@,
                Some(k) => if forall|j: int| !#[trigger] is_candidate(k.entries@, j, timestamp_ms) {
                    r matches Err(QvodError::Protocol(m)) && m@ == "no keyframe found"@
                } else {
                    r matches Ok(off) && exists|j: int|
                        is_nearest(k.entries@, j, timestamp_ms) && off == #[trigger] k.entries@[j].file_offset
                },
            },
    {
        match &self.metadata.keyframe_index {
            None => Err(QvodError::Protocol(String::from_str("no keyframe index"))),
            Some(k) => match k.find_nearest_i_frame(timestamp_ms) {
                Some(e) => Ok(e.file_offset),
                None => Err(QvodError::Protocol(String::from_str("no keyframe found"))),
            },
        }
    }

    /// The piece holding byte `offset`; 0 when pieces have no length.
    pub fn piece_for_offset(&self, offset: u64) -> (p: u32)
        ensures
            p == if self.meta().piece_length == 0 {
                0u32
            } else {
                (offset / self.meta().piece_length) as u32
            },
    {
        if self.metadata.piece_length == 0 {
            return 0;
        }
        (offset / self.metadata.piece_length) as u32
    }

    /// The file sought in.
    pub fn metadata(&self) -> (m: &FileMeta)
        ensures
            *m == self.meta(),
    {
        &self.metadata
    }
}

} // verus!

verus! {

/// Finds a file's metadata. This build knows no source of metadata, so it can
/// only describe a file it knows nothing about.
pub struct MetadataResolver {
    config: std::sync::Arc<EngineConfig>,
}

/// Whether `m` describes a file of which only the hash and size are known: it is
/// called `unknown`, has the default piece length, and nothing else is set.
pub open spec fn is_empty_meta(m: FileMeta, info_hash: InfoHash, file_size: u64) -> bool {
    &&& m.info_hash == info_hash
    &&& m.filename@ == "unknown"@
    &&& m.file_size == file_size
    &&& m.piece_length == PIECE_LENGTH
    &&& m.pieces@.len() == 0
    &&& m.keyframe_index is None
    &&& m.duration_ms == 0
    &&& m.video_codec is None
    &&& m.audio_codec is None
    &&& m.width == 0
    &&& m.height == 0
    &&& m.bitrate == 0
    &&& !m.from_cache
}

impl MetadataResolver {
    /// The settings it was made with.
    pub closed spec fn settings(&self) -> EngineConfig {
        *self.config
    }

    pub fn new(config: std::sync::Arc<EngineConfig>) -> (r: MetadataResolver)
        ensures
            r.settings() == *config,
    {
        MetadataResolver { config }
    }

    /// The settings it was made with.
    pub fn config(&self) -> (c: &EngineConfig)
        ensures
            *c == self.settings(),
    {
        &self.config
    }

    /// The metadata of a file from its hash alone; this build has no source
    /// for it, so it always fails.
    pub fn resolve_metadata(&self, info_hash: &InfoHash) -> (r: Result<FileMeta, QvodError>)
        ensures
            r matches Err(QvodError::MetadataParse),
    {
        Err(QvodError::MetadataParse)
    }

    /// The metadata of a file as its peers describe it; this build asks no
    /// peer, so it always fails.
    pub fn resolve_from_peers(&self, info_hash: &InfoHash, peers: &[PeerInfo]) -> (r: Result<FileMeta, QvodError>)
        ensures
            r matches Err(QvodError::MetadataParse),
    {
        Err(QvodError::MetadataParse)
    }

    /// Metadata for a file of which only the hash and size are known.
    pub fn empty_meta(info_hash: InfoHash, file_size: u64) -> (m: FileMeta)
        ensures
            is_empty_meta(m, info_hash, file_size),
    {
        FileMeta {
            info_hash,
            filename: String::from_str("unknown"),
            file_size,
            piece_length: PIECE_LENGTH,
            pieces: Vec::new(),
            keyframe_index: None,
            duration_ms: 0,
            video_codec: None,
            audio_codec: None,
            width: 0,
            height: 0,
            bitrate: 0,
            from_cache: false,
        }
    }
}

/// Download progress of one file.
pub struct ProgressTracker {
    buffer: RingBuffer,
    metadata: FileMeta,
    bytes_downloaded: u64,
    total_pieces: u32,
    completed_pieces: u32,
}

/// Pieces of a file: its size divided by the piece length, rounded up; 0
/// without a piece length.
pub open spec fn piece_count(m: FileMeta) -> u32 {
    if m.piece_length > 0 {
        ((m.file_size + m.piece_length - 1) / m.piece_length as int) as u32
    } else {
        0
    }
}

impl ProgressTracker {
    pub closed spec fn buffer_model(&self) -> BufferModel {
        self.buffer@
    }

    pub closed spec fn downloaded(&self) -> u64 {
        self.bytes_downloaded
    }

    pub closed spec fn pieces_total(&self) -> u32 {
        self.total_pieces
    }

    /// Progress over `buffer` for the file `metadata` describes, with nothing
    /// downloaded yet.
    pub fn new(metadata: FileMeta, buffer: RingBuffer) -> (t: ProgressTracker)
        requires
            metadata.piece_length > 0 ==> metadata.file_size + metadata.piece_length <= u64::MAX,
        ensures
            t.buffer_model() == buffer@,
            t.downloaded() == 0,
            t.pieces_total() == piece_count(metadata),
    {
        let total_pieces = if metadata.piece_length > 0 {
            ((metadata.file_size + metadata.piece_length - 1) / metadata.piece_length) as u32
        } else {
            0
        };
        ProgressTracker { buffer, metadata, bytes_downloaded: 0, total_pieces, completed_pieces: 0 }
    }

    /// Counts `bytes` more as downloaded.
    pub fn record_download(&mut self, bytes: u64)
        requires
            old(self).downloaded() + bytes <= u64::MAX,
        ensures
            final(self).downloaded() == old(self).downloaded() + bytes,
            final(self).buffer_model() == old(self).buffer_model(),
            final(self).pieces_total() == old(self).pieces_total(),
    {
        self.bytes_downloaded = self.bytes_downloaded + bytes;
    }

    /// Bytes downloaded so far.
    pub fn bytes_downloaded(&self) -> (n: u64)
        ensures
            n == self.downloaded(),
    {
        self.bytes_downloaded
    }

    /// The buffer the file is downloaded into.
    pub fn buffer(&self) -> (b: &RingBuffer)
        ensures
            b@ == self.buffer_model(),
    {
        &self.buffer
    }
}

} // verus!
