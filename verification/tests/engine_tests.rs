use qvod::engine::{
    cache_config_for, dht_config_for, estimate_position_ms, file_chunk_len, file_stream_hash,
    file_uri, http_chunk_range, http_stream_meta, local_file_meta, merge_peers,
    metadata_after_search, piece_count, piece_len, should_download, tracker_config_for,
    ErrorCount, ProbeSummary,
};
use qvod::error::QvodError;
use qvod::stream::{EngineConfig, MetadataResolver};
use qvod::types::{InfoHash, IpAddress, PeerInfo, SocketAddress};
use qvod::util::sha1_hash;

fn peer(port: u16) -> PeerInfo {
    PeerInfo {
        peer_id: [0; 20],
        addr: SocketAddress { ip: IpAddress::V4([1, 2, 3, 4]), port },
        is_firewalled: false,
        bw_up: 0,
        bw_down: 0,
        location: None,
        latency_ms: 0,
    }
}

#[test]
fn engine_parts_follow_the_settings() {
    let c = EngineConfig::default();
    let d = dht_config_for(&c);
    assert_eq!(d.listen_port, 8621);
    assert_eq!(d.seed_nodes, vec!["router.bittorrent.com:6881".to_string()]);
    let t = tracker_config_for(&c, [7; 20]).unwrap();
    assert_eq!(t.tracker_urls, c.tracker_urls);
    assert_eq!(t.port, 8621);
    assert!(t.compact);
    let cc = cache_config_for(&c).unwrap();
    // 64 MiB buffer: ten times is 640 MiB, below the one gibibyte floor
    assert_eq!(cc.max_size, 1024 * 1024 * 1024);
    assert_eq!(cc.max_files, 1000);
    let mut big = EngineConfig::default();
    big.buffer_capacity_mb = 200;
    assert_eq!(cache_config_for(&big).unwrap().max_size, 200 * 1024 * 1024 * 10);
    let mut off = EngineConfig::default();
    off.tracker_enabled = false;
    off.cache_enabled = false;
    assert!(tracker_config_for(&off, [0; 20]).is_none());
    assert!(cache_config_for(&off).is_none());
    let mut no_urls = EngineConfig::default();
    no_urls.tracker_urls.clear();
    assert!(tracker_config_for(&no_urls, [0; 20]).is_none());
}

#[test]
fn peers_and_metadata_of_a_shared_file() {
    let all = merge_peers(Some(Ok(vec![peer(1), peer(2)])), Some(Ok(vec![peer(3)])));
    let ports: Vec<u16> = all.iter().map(|p| p.addr.port).collect();
    assert_eq!(ports, vec![1, 2, 3]);
    assert_eq!(merge_peers(Some(Err(QvodError::NoPeers)), None).len(), 0);
    assert_eq!(merge_peers(None, Some(Ok(vec![peer(9)]))).len(), 1);
    let h = InfoHash([5; 20]);
    let m = metadata_after_search(h, 100, false, Err(QvodError::MetadataParse));
    assert_eq!(m.filename, "unknown");
    assert_eq!(m.file_size, 100);
    let mut good = MetadataResolver::empty_meta(h, 7);
    good.filename = "x.mp4".to_string();
    let m = metadata_after_search(h, 100, true, Ok(good));
    assert_eq!(m.filename, "x.mp4");
    let m = metadata_after_search(h, 100, true, Err(QvodError::MetadataParse));
    assert_eq!(m.file_size, 100);
    assert!(m.video_codec.is_none() && m.audio_codec.is_none() && m.keyframe_index.is_none());
    assert_eq!((m.width, m.height, m.bitrate, m.duration_ms), (0, 0, 0, 0));
    assert!(!m.from_cache && m.pieces.is_empty());
    assert!(should_download(true, 0));
    assert!(should_download(false, 1));
    assert!(!should_download(false, 0));
}

#[test]
fn pieces_and_chunks() {
    assert_eq!(piece_count(1_000_000, 262_144), 4);
    assert_eq!(piece_count(0, 262_144), 0);
    assert_eq!(piece_count(5, 0), 0);
    assert_eq!(piece_len(3, 4, 1_000_000, 262_144), 1_000_000 - 3 * 262_144);
    assert_eq!(piece_len(0, 4, 1_000_000, 262_144), 262_144);
    assert_eq!(piece_len(1, 2, 524_288, 262_144), 262_144);
    assert_eq!(http_chunk_range(0, 100_000), (0, 65535));
    assert_eq!(http_chunk_range(65536, 100_000), (65536, 99_999));
    assert_eq!(file_chunk_len(0, 100_000), 65536);
    assert_eq!(file_chunk_len(65536, 100_000), 100_000 - 65536);
    let mut e = ErrorCount::new();
    for _ in 0..9 {
        assert!(!e.failed());
    }
    e.succeeded();
    assert_eq!(e.errors, 0);
    for _ in 0..9 {
        e.failed();
    }
    assert!(e.failed());
}

#[test]
fn position_estimates() {
    assert_eq!(estimate_position_ms(500, 1000, 60_000), 30_000);
    assert_eq!(estimate_position_ms(1000, 1000, 60_000), 60_000);
    assert_eq!(estimate_position_ms(5, 0, 60_000), 0);
    // one megabit per second: 125_000 bytes a second
    assert_eq!(estimate_position_ms(125_000, 1_000_000, 0), 1000);
    assert_eq!(estimate_position_ms(5, 0, 0), 0);
    assert_eq!(estimate_position_ms(u64::MAX, u64::MAX, u64::MAX), u64::MAX);
}

#[test]
fn stream_identities() {
    let url = "http://example.com/video.mp4";
    let m = http_stream_meta(url, "video.mp4".to_string(), 1_000_000);
    assert_eq!(m.info_hash.0, sha1_hash(url.as_bytes()));
    assert_eq!(m.pieces.len(), 4);
    assert_eq!(m.piece_length, 262_144);
    assert!(http_stream_meta(url, "v".to_string(), 0).pieces.is_empty());
    assert_eq!(file_uri("/v/a.mp4"), "file:///v/a.mp4");
    assert_eq!(file_stream_hash("/v/a.mp4").0, sha1_hash(b"file:///v/a.mp4"));
    let probe = ProbeSummary {
        duration_ms: 1000,
        width: 640,
        height: 480,
        video_codec: "h264".to_string(),
        audio_codec: String::new(),
        bitrate: 5,
    };
    let m = local_file_meta("/v/a.mp4", "a.mp4".to_string(), 10, Some(probe));
    assert_eq!(m.info_hash.0, sha1_hash(b"file:///v/a.mp4"));
    assert_eq!(m.video_codec.as_deref(), Some("h264"));
    assert!(m.audio_codec.is_none());
    assert_eq!(m.width, 640);
    assert_eq!(m.pieces.len(), 1);
    let m = local_file_meta("/v/a.mp4", "a.mp4".to_string(), 0, None);
    assert_eq!(m.duration_ms, 0);
    assert!(m.pieces.is_empty());
}
