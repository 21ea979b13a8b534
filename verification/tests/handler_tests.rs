use qvod::error::QvodError;
use qvod::handler::{
    paused_reply, plan_control, play_start, play_step, play_uri, resumed_reply, seek_reply,
    segment_window, status_reply, stopped_reply, ControlParams, ControlStep, PlayParams, PlayStep,
    SegmentParams,
};
use qvod::middleware::RateLimiter;
use qvod::playback::StreamState;
use qvod::server::RangeHeader;
use qvod::types::IpAddress;

fn control(action: &str, hash: Option<&str>, value: Option<&str>) -> ControlStep {
    plan_control(&ControlParams {
        action: action.to_string(),
        hash: hash.map(|s| s.to_string()),
        value: value.map(|s| s.to_string()),
    })
}

fn reply_of(step: ControlStep) -> (bool, String) {
    match step {
        ControlStep::Reply(r) => (r.success, r.message),
        _ => panic!("expected a reply"),
    }
}

#[test]
fn test_control_pause() {
    assert!(matches!(control("pause", None, None), ControlStep::Pause));
    let r = paused_reply();
    assert!(r.success);
    assert_eq!(r.message, "paused");
}

#[test]
fn test_control_unknown_action() {
    let (ok, msg) = reply_of(control("nonexistent", None, None));
    assert!(!ok);
    assert_eq!(msg, "unknown action: nonexistent");
}

#[test]
fn test_control_status_empty() {
    assert!(matches!(control("status", None, None), ControlStep::Status));
    let r = status_reply(String::new());
    assert!(r.success);
    assert_eq!(r.message, "no active streams");
}

#[test]
fn test_control_seek_no_value() {
    let (ok, msg) = reply_of(control("seek", None, None));
    assert!(!ok);
    assert_eq!(msg, "value required");
}

#[test]
fn test_control_stop_requires_hash() {
    let (ok, msg) = reply_of(control("stop", None, None));
    assert!(!ok);
    assert_eq!(msg, "hash required");
}

#[test]
fn control_steps_and_replies() {
    assert!(matches!(control("resume", None, None), ControlStep::Resume));
    assert_eq!(resumed_reply().message, "resumed");
    assert_eq!(stopped_reply().message, "stopped");
    match control("stop", Some(&"ab".repeat(20)), None) {
        ControlStep::Stop(h) => assert_eq!(h.0, [0xab; 20]),
        _ => panic!("expected stop"),
    }
    let (ok, msg) = reply_of(control("stop", Some("xyz"), None));
    assert!(!ok);
    assert_eq!(msg, "invalid hash: 无效 URI: info_hash must be 40 hex characters");
    assert!(matches!(control("seek", None, Some("1500")), ControlStep::Seek(1500)));
    let (ok, msg) = reply_of(control("seek", None, Some("-3")));
    assert!(!ok);
    assert_eq!(msg, "invalid timestamp");
    let r = seek_reply(1500, Ok(()));
    assert!(r.success);
    assert_eq!(r.message, "seeked to 1500ms");
    let r = seek_reply(9, Err(QvodError::NoPeers));
    assert!(!r.success);
    assert_eq!(r.message, "没有可用的 peer");
    assert_eq!(status_reply("x: 1\n".to_string()).message, "x: 1\n");
}

#[test]
fn play_request_decisions() {
    let p = PlayParams { hash: "ab".repeat(20), name: None, size: None };
    assert_eq!(play_uri(&p), format!("qvod://{}|stream|0|mp4|", "ab".repeat(20)));
    let p = PlayParams { hash: "h".to_string(), name: Some("a.mkv".to_string()), size: Some(42) };
    assert_eq!(play_uri(&p), "qvod://h|a.mkv|42|mp4|");
    assert_eq!(play_start(&None), 0);
    assert_eq!(play_start(&RangeHeader::parse("bytes=100-199", 1000)), 100);
    assert_eq!(play_step(None, Some(5)), PlayStep::Stop);
    assert_eq!(play_step(Some(StreamState::Ended), Some(5)), PlayStep::SendAndStop);
    assert_eq!(play_step(Some(StreamState::Ended), Some(0)), PlayStep::Stop);
    assert_eq!(play_step(Some(StreamState::Playing), Some(0)), PlayStep::Wait);
    assert_eq!(play_step(Some(StreamState::Playing), None), PlayStep::Wait);
    assert_eq!(play_step(Some(StreamState::Buffering), Some(3)), PlayStep::Send);
    let s = SegmentParams { hash: String::new(), offset: None, length: None, index: Some(1) };
    assert_eq!(segment_window(&s), (0, 65536));
    let s = SegmentParams { hash: String::new(), offset: Some(10), length: Some(20), index: None };
    assert_eq!(segment_window(&s), (10, 20));
}

#[test]
fn test_rate_limiter_allows_first_request() {
    let mut limiter = RateLimiter::new(10, 60);
    let ip = IpAddress::V4([127, 0, 0, 1]);
    assert!(limiter.check(ip));
}

#[test]
fn test_rate_limiter_blocks_excessive_requests() {
    let mut limiter = RateLimiter::new(3, 60);
    let ip = IpAddress::V4([127, 0, 0, 1]);
    assert!(limiter.check(ip));
    assert!(limiter.check(ip));
    assert!(limiter.check(ip));
    assert!(!limiter.check(ip));
}

#[test]
fn rate_limiter_window_slides() {
    let mut limiter = RateLimiter::new(2, 1);
    let a = IpAddress::V4([1, 1, 1, 1]);
    let b = IpAddress::V6([0; 16]);
    assert!(limiter.check_at(a, 1_000));
    assert!(limiter.check_at(a, 1_500));
    assert!(!limiter.check_at(a, 1_999));
    assert!(limiter.check_at(b, 1_999));
    // the request at 1000 is 1000 ms old at 2000: outside a one-second window
    assert!(limiter.check_at(a, 2_000));
    assert!(!limiter.check_at(a, 2_100));
    let mut none = RateLimiter::new(0, 1);
    assert!(!none.check_at(a, 5));
}

#[test]
fn control_hash_with_wide_character_after_bad_pair() {
    let hash = format!("zz\u{e9}{}", "a".repeat(36));
    assert_eq!(hash.len(), 40);
    let (ok, msg) = reply_of(control("stop", Some(&hash), None));
    assert!(!ok);
    assert_eq!(msg, "invalid hash: 无效 URI: hex decode: invalid digit found in string");
    let cut = format!("a\u{e9}{}", "b".repeat(37));
    assert!(matches!(control("pause", Some(&cut), None), ControlStep::Pause));
}
