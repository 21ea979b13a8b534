use qvod::media_probe::{bitrates_fit_in, FfmpegReport};

/// What a caller makes of a report: the duration and the frame rate as the
/// report's decimal texts read as floats; nothing when the report says nothing.
struct Probe {
    duration_ms: u64,
    width: u32,
    height: u32,
    video_codec: String,
    audio_codec: String,
    bitrate: u64,
    fps: f64,
}

fn parse_ffmpeg_stderr(stderr: &str) -> Option<Probe> {
    assert!(bitrates_fit_in(stderr));
    let report = FfmpegReport::read(stderr);
    let duration_ms = match &report.duration {
        Some((hours, minutes, secs)) => {
            let secs: f64 = secs.parse().unwrap_or(0.0);
            ((*hours as f64 * 3600.0 + *minutes as f64 * 60.0 + secs) * 1000.0) as u64
        }
        None => 0,
    };
    let fps: f64 = report.fps_text.as_deref().map_or(0.0, |t| t.parse().unwrap_or(0.0));
    let p = Probe {
        duration_ms,
        width: report.width,
        height: report.height,
        video_codec: report.video_codec,
        audio_codec: report.audio_codec,
        bitrate: report.bitrate,
        fps,
    };
    if p.duration_ms == 0
        && p.bitrate == 0
        && p.width == 0
        && p.height == 0
        && p.video_codec.is_empty()
        && p.audio_codec.is_empty()
        && p.fps == 0.0
    {
        return None;
    }
    Some(p)
}

#[test]
fn test_parse_ffmpeg_stderr_duration() {
    let stderr = "  Duration: 00:03:30.12, start: 0.000000, bitrate: 2123 kb/s\n";
    let result = parse_ffmpeg_stderr(stderr).unwrap();
    assert_eq!(result.duration_ms, 210120);
    assert_eq!(result.bitrate, 2123000);
}

#[test]
fn test_parse_ffmpeg_stderr_video() {
    let stderr = "  Stream #0:0[0x1](und): Video: h264 (High) (avc1 / 0x31637661), yuv420p(tv, bt709, progressive), 1920x1080 [SAR 1:1 DAR 16:9], 25 fps, 25 tbr, 90k tbn, 50 tbc (default)\n";
    let result = parse_ffmpeg_stderr(stderr).unwrap();
    assert_eq!(result.video_codec, "h264");
    assert_eq!(result.width, 1920);
    assert_eq!(result.height, 1080);
    assert!((result.fps - 25.0).abs() < 0.1);
}

#[test]
fn test_parse_ffmpeg_stderr_audio() {
    let stderr = "  Stream #0:1[0x2](und): Audio: aac (LC) (mp4a / 0x6134706D), 44100 Hz, stereo, fltp, 128 kb/s (default)\n";
    let result = parse_ffmpeg_stderr(stderr).unwrap();
    assert_eq!(result.audio_codec, "aac");
}

#[test]
fn test_parse_ffmpeg_stderr_full() {
    let stderr = "\
  Duration: 00:00:37.41, start: 0.000000, bitrate: 2123 kb/s
  Stream #0:0[0x1](und): Video: h264 (High) (avc1 / 0x31637661), yuv420p(tv, bt709, progressive), 1080x1920, 1995 kb/s, 13.45 fps, 10 tbr, 1000k tbn (default)
  Stream #0:1[0x2](und): Audio: aac (LC) (mp4a / 0x6134706D), 44100 Hz, stereo, fltp, 128 kb/s (default)
";
    let result = parse_ffmpeg_stderr(stderr).unwrap();
    assert_eq!(result.duration_ms, 37410);
    assert_eq!(result.bitrate, 2123000);
    assert_eq!(result.video_codec, "h264");
    assert_eq!(result.width, 1080);
    assert_eq!(result.height, 1920);
    assert!((result.fps - 13.45).abs() < 0.01);
    assert_eq!(result.audio_codec, "aac");
}

#[test]
fn test_parse_empty_stderr() {
    let result = parse_ffmpeg_stderr("");
    assert!(result.is_none());
}

#[test]
fn test_no_video_stream() {
    let stderr = "\
  Duration: 00:01:00.00, start: 0.000000, bitrate: 128 kb/s
  Stream #0:0: Audio: mp3, 44100 Hz, stereo, 128 kb/s
";
    let result = parse_ffmpeg_stderr(stderr).unwrap();
    assert_eq!(result.duration_ms, 60000);
    assert_eq!(result.audio_codec, "mp3");
    assert_eq!(result.width, 0);
}

#[test]
fn report_fields_as_read() {
    let r = FfmpegReport::read("Duration: 01:02:03.5, start: 0, bitrate: 77 kb/s\r\nx Video: none\n");
    assert_eq!(r.duration, Some((1, 2, "03.5".to_string())));
    assert_eq!(r.bitrate, 77000);
    assert!(!r.found_video);
    let r = FfmpegReport::read("Duration: 1:2, bitrate: 5\n");
    assert_eq!(r.duration, None);
    assert_eq!(r.bitrate, 5000);
    let r = FfmpegReport::read("Duration: +7:x:1.0\n");
    assert_eq!(r.duration, Some((7, 0, "1.0".to_string())));
    assert_eq!(r.bitrate, 0);
}

#[test]
fn only_the_first_video_line_counts() {
    let r = FfmpegReport::read(
        " Stream: Video: vp9 (x), 640x480, 30 fps\n Stream: Video: av1, 1920x1080, 60 fps\n Stream: Audio: , x\n Stream: Audio: opus, 48000 Hz\n",
    );
    assert!(r.found_video);
    assert_eq!(r.video_codec, "vp9");
    assert_eq!((r.width, r.height), (640, 480));
    assert_eq!(r.fps_text.as_deref(), Some("30"));
    assert_eq!(r.audio_codec, "opus");
}

#[test]
fn sizes_and_rates_of_tokens() {
    let r = FfmpegReport::read("a: Video: h, 99999999999x5, x7, 12x, 3x4yz, 2.5 fps fps\n");
    assert_eq!((r.width, r.height), (3, 4));
    assert_eq!(r.fps_text.as_deref(), Some("2.5"));
    let r = FfmpegReport::read("a: Video: h, 99999999999x5\n");
    assert_eq!((r.width, r.height), (0, 5));
}

#[test]
fn bit_rates_that_do_not_fit() {
    assert!(bitrates_fit_in("Duration: 0:0:1, bitrate: 18446744073709551 kb/s"));
    assert!(!bitrates_fit_in("Duration: 0:0:1, bitrate: 18446744073709552 kb/s"));
    assert!(bitrates_fit_in("Duration: 0:0:1, bitrate: 99999999999999999999 kb/s"));
    assert!(bitrates_fit_in(""));
}
