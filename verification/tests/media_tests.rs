use qvod::error::QvodError;
use qvod::media::{
    extract_metadata, probe_format, AudioDecoder, AudioRenderer, AudioResampler, AudioVideoSync,
    Demuxer, FfmpegDemuxer, MediaFormat, SyncAction, SyncStrategy, VideoDecoder, VideoRenderer,
};
use qvod::types::{FileMeta, InfoHash, MediaStream};

#[test]
fn test_from_extension() {
    assert_eq!(MediaFormat::from_extension("mp4"), MediaFormat::Mp4);
    assert_eq!(MediaFormat::from_extension("MKV"), MediaFormat::Mkv);
    assert_eq!(MediaFormat::from_extension("avi"), MediaFormat::Avi);
    assert_eq!(MediaFormat::from_extension("rmvb"), MediaFormat::Rmvb);
    assert_eq!(MediaFormat::from_extension("flv"), MediaFormat::Flv);
    assert_eq!(MediaFormat::from_extension("unknown"), MediaFormat::Unknown);
}

#[test]
fn test_from_magic_mp4() {
    assert_eq!(MediaFormat::from_magic(b"\x00\x00\x00\x18ftypmp4"), MediaFormat::Mp4);
}

#[test]
fn test_from_magic_mkv() {
    assert_eq!(MediaFormat::from_magic(b"\x1a\x45\xdf\xa3"), MediaFormat::Mkv);
}

#[test]
fn test_from_magic_unknown() {
    assert_eq!(MediaFormat::from_magic(b"\x00\x00\x00\x00"), MediaFormat::Unknown);
}

#[test]
fn test_from_magic_short() {
    assert_eq!(MediaFormat::from_magic(b"\x00"), MediaFormat::Unknown);
}

#[test]
fn test_probe_format() {
    let result = probe_format("video.mp4").unwrap();
    assert_eq!(result, MediaFormat::Mp4);
    let result = probe_format("no_ext").unwrap();
    assert_eq!(result, MediaFormat::Unknown);
}

#[test]
fn magic_and_extension_cases() {
    assert_eq!(MediaFormat::from_magic(b"FLV\x01"), MediaFormat::Flv);
    assert_eq!(MediaFormat::from_magic(b"RIFFxxxx"), MediaFormat::Avi);
    assert_eq!(MediaFormat::from_magic(b"\x30\x26\xb2\x75"), MediaFormat::Wmv);
    assert_eq!(MediaFormat::from_magic(b".RMF"), MediaFormat::Rmvb);
    assert_eq!(MediaFormat::from_magic(b"\x47\x40\x00\x10"), MediaFormat::Ts);
    assert_eq!(MediaFormat::from_magic(b"ftypisom"), MediaFormat::Mp4);
    assert_eq!(MediaFormat::from_extension("Rm"), MediaFormat::Rmvb);
    assert_eq!(MediaFormat::from_extension("WEBM"), MediaFormat::Webm);
    assert_eq!(probe_format("/a/b/.hidden").unwrap(), MediaFormat::Unknown);
    assert_eq!(probe_format("/a/b/clip.TS").unwrap(), MediaFormat::Ts);
}

#[test]
fn sync_test_initial_state() {
    let sync = AudioVideoSync::new();
    assert_eq!(sync.drift_ms(), 0);
    assert_eq!(sync.dropped_frames(), 0);
}

#[test]
fn test_in_sync() {
    let mut sync = AudioVideoSync::new();
    assert_eq!(sync.sync_video(1000, 1000), SyncAction::Render);
}

#[test]
fn test_video_too_far_ahead() {
    let mut sync = AudioVideoSync::new();
    assert_eq!(sync.sync_video(1100, 1000), SyncAction::DropFrame);
}

#[test]
fn test_video_slightly_ahead() {
    let mut sync = AudioVideoSync::new();
    assert_eq!(sync.sync_video(1010, 1000), SyncAction::Render);
}

#[test]
fn test_video_behind() {
    let mut sync = AudioVideoSync::new();
    assert_eq!(sync.sync_video(800, 1000), SyncAction::RepeatFrame);
}

#[test]
fn test_strategy_change() {
    let mut sync = AudioVideoSync::new();
    sync.set_strategy(SyncStrategy::VideoMaster);
    assert_eq!(sync.sync_video(1100, 1000), SyncAction::Render);
}

#[test]
fn sync_test_reset() {
    let mut sync = AudioVideoSync::new();
    sync.sync_video(1100, 1000);
    assert!(sync.drift_ms() > 0);
    sync.reset();
    assert_eq!(sync.drift_ms(), 0);
}

#[test]
fn external_master_thresholds() {
    let mut sync = AudioVideoSync::default();
    sync.set_strategy(SyncStrategy::ExternalMaster);
    assert_eq!(sync.sync_video(1050, 1000), SyncAction::Render);
    assert_eq!(sync.sync_video(1051, 1000), SyncAction::DropFrame);
    assert_eq!(sync.sync_video(949, 1000), SyncAction::DropFrame);
    assert_eq!(sync.drift_ms(), -51);
    assert_eq!(sync.sync_audio(5), SyncAction::Render);
    let mut a = AudioVideoSync::new();
    assert_eq!(a.sync_video(1020, 1000), SyncAction::Render);
    assert_eq!(a.sync_video(900, 1000), SyncAction::Render);
    assert_eq!(a.sync_video(899, 1000), SyncAction::RepeatFrame);
    assert_eq!(SyncStrategy::default(), SyncStrategy::AudioMaster);
}

#[test]
fn test_video_decoder_creation() {
    let _decoder = VideoDecoder::new();
}

#[test]
fn test_video_decode_not_available() {
    let mut decoder = VideoDecoder::new();
    let result = decoder.decode_video(b"test data");
    assert!(result.is_err());
}

#[test]
fn test_audio_decoder_creation() {
    let _decoder = AudioDecoder::new();
}

#[test]
fn test_demuxer_open() {
    assert!(Demuxer::open("/path/to/video.mp4").is_ok());
}

#[test]
fn test_demuxer_info() {
    let demuxer = Demuxer::new();
    assert_eq!(demuxer.info().duration_ms, 0);
}

#[test]
fn test_ffmpeg_demuxer() {
    assert!(FfmpegDemuxer::open("/path/to/video.mp4").is_err());
}

#[test]
fn test_read_frame_not_available() {
    let mut demuxer = Demuxer::new();
    assert!(demuxer.read_frame().is_err());
    assert!(matches!(demuxer.seek(10), Err(QvodError::UnsupportedFormat(_))));
}

#[test]
fn test_video_renderer_creation() {
    let _renderer = VideoRenderer::new();
}

#[test]
fn test_video_render_frame() {
    let mut renderer = VideoRenderer::new();
    assert!(renderer.render_frame(&[0u8; 100], 1920, 1080).is_ok());
    renderer.clear();
}

#[test]
fn test_audio_renderer_creation() {
    let mut r = AudioRenderer::new();
    r.stop();
}

#[test]
fn test_resampler_creation() {
    let _resampler = AudioResampler::new();
}

#[test]
fn extract_metadata_is_empty() {
    let meta = FileMeta {
        info_hash: InfoHash([1u8; 20]),
        filename: "x".into(),
        file_size: 5,
        piece_length: 1,
        pieces: vec![],
        keyframe_index: None,
        duration_ms: 9,
        video_codec: None,
        audio_codec: None,
        width: 1,
        height: 1,
        bitrate: 1,
        from_cache: true,
    };
    let m = extract_metadata(&MediaStream::new(meta));
    assert_eq!(m.piece_length, 262_144);
    assert_eq!(m.info_hash, InfoHash([0u8; 20]));
    assert_eq!(m.file_size, 0);
}

#[test]
fn rgb_frame_sizes() {
    assert_eq!(qvod::media::rgb_frame_size(1920, 1080).ok(), Some(1920 * 1080 * 3));
    assert_eq!(qvod::media::rgb_frame_size(2, 3).ok(), Some(18));
    match qvod::media::rgb_frame_size(0, 1080) {
        Err(QvodError::Decode(m)) => assert_eq!(m, "could not determine video dimensions"),
        _ => panic!("expected a decode error"),
    }
    assert!(qvod::media::rgb_frame_size(640, 0).is_err());
}

#[test]
fn sync_extreme_lag_under_audio_master() {
    let mut sync = AudioVideoSync::new();
    let action = sync.sync_video(u64::MAX, i64::MAX as u64);
    assert_eq!(action, SyncAction::RepeatFrame);
    assert_eq!(sync.drift_ms(), i64::MIN);
}
