use qvod::stream::{EngineConfig, HlsAdapter, SeekEngine};
use qvod::types::{FileMeta, FrameType, InfoHash, KeyFrameEntry, KeyFrameIndex};

fn meta_with(kfi: Option<KeyFrameIndex>, file_size: u64, piece_length: u64) -> FileMeta {
    FileMeta {
        info_hash: InfoHash([0u8; 20]),
        filename: "test.mp4".into(),
        file_size,
        piece_length,
        pieces: vec![],
        keyframe_index: kfi,
        duration_ms: 20000,
        video_codec: None,
        audio_codec: None,
        width: 1920,
        height: 1080,
        bitrate: 1000000,
        from_cache: false,
    }
}

fn sample_meta() -> FileMeta {
    let kfi = KeyFrameIndex {
        entries: vec![
            KeyFrameEntry { timestamp_ms: 0, file_offset: 0, frame_size: 5000, frame_type: FrameType::I },
            KeyFrameEntry { timestamp_ms: 10000, file_offset: 5000, frame_size: 6000, frame_type: FrameType::I },
        ],
    };
    meta_with(Some(kfi), 100000, 16384)
}

#[test]
fn test_m3u8_generation() {
    let adapter = HlsAdapter::new(sample_meta());
    let playlist = adapter.generate_m3u8().unwrap();
    assert!(playlist.starts_with("#EXTM3U"));
    assert!(playlist.contains("#EXT-X-VERSION:3"));
    assert!(playlist.contains("/segment?offset=0"));
    assert!(playlist.contains("/segment?offset=5000"));
}

#[test]
fn m3u8_exact_text() {
    let adapter = HlsAdapter::new(sample_meta());
    assert_eq!(
        adapter.generate_m3u8().unwrap(),
        "#EXTM3U\n#EXT-X-VERSION:3\n#EXT-X-TARGETDURATION:10\n#EXT-X-MEDIA-SEQUENCE:0\n\n\
         #EXTINF:10,\n/segment?offset=0&length=5000\n\
         #EXTINF:10,\n/segment?offset=5000&length=6000\n#EXT-X-ENDLIST\n"
    );
    let bare = HlsAdapter::new(meta_with(None, 10, 1));
    assert_eq!(bare.segment_count(), 1);
    assert!(bare.generate_m3u8().is_err());
}

#[test]
fn test_segment_info() {
    let adapter = HlsAdapter::new(sample_meta());
    let (offset, length) = adapter.segment_info(0).unwrap();
    assert_eq!(offset, 0);
    assert_eq!(length, 5000);
    let (offset, _length) = adapter.segment_info(1).unwrap();
    assert_eq!(offset, 5000);
    assert!(adapter.segment_info(2).is_err());
}

#[test]
fn test_segment_count() {
    let adapter = HlsAdapter::new(sample_meta());
    assert_eq!(adapter.segment_count(), 2);
}

#[test]
fn test_wrap_as_ts() {
    let adapter = HlsAdapter::new(sample_meta());
    let data = vec![0x47u8; 188];
    assert_eq!(adapter.wrap_as_ts(&data), data);
}

#[test]
fn test_piece_for_offset() {
    let engine = SeekEngine::new(meta_with(None, 1_000_000, 262_144));
    assert_eq!(engine.piece_for_offset(0), 0);
    assert_eq!(engine.piece_for_offset(262_144), 1);
    assert_eq!(engine.piece_for_offset(1_000_000), 3);
    let zero = SeekEngine::new(meta_with(None, 1_000_000, 0));
    assert_eq!(zero.piece_for_offset(5), 0);
}

#[test]
fn test_find_nearest_keyframe_no_index() {
    let engine = SeekEngine::new(meta_with(None, 1_000_000, 262_144));
    assert!(engine.find_nearest_keyframe(5000).is_err());
}

#[test]
fn test_find_nearest_keyframe_with_index() {
    let kfi = KeyFrameIndex {
        entries: vec![
            KeyFrameEntry { timestamp_ms: 0, file_offset: 0, frame_size: 1000, frame_type: FrameType::I },
            KeyFrameEntry { timestamp_ms: 5000, file_offset: 50000, frame_size: 1000, frame_type: FrameType::I },
        ],
    };
    let engine = SeekEngine::new(meta_with(Some(kfi), 1_000_000, 262_144));
    assert_eq!(engine.find_nearest_keyframe(3000).unwrap(), 0);
    assert_eq!(engine.find_nearest_keyframe(7000).unwrap(), 50000);
    assert_eq!(engine.metadata().file_size, 1_000_000);
}

#[test]
fn engine_config_defaults() {
    let c = EngineConfig::load("/nowhere").unwrap();
    assert_eq!(c.listen_port, 8621);
    assert_eq!(c.buffer_capacity(), 64 * 1024 * 1024);
    assert_eq!(c.tracker_urls, vec!["http://tracker.qvod.com:8621/announce".to_string()]);
    assert_eq!(c.cache_dir, "/tmp/qvs-cache");
}
