use qvod::playback::{MediaStream, StreamState, StreamStats};

#[test]
fn playback_test_initial_state() {
    let stream = MediaStream::new(StreamStats::new(10000));
    assert_eq!(stream.state(), StreamState::Initializing);
    assert!(stream.is_paused());
}

#[test]
fn test_play_pause() {
    let mut stream = MediaStream::new(StreamStats::new(10000));
    stream.play().unwrap();
    assert_eq!(stream.state(), StreamState::Playing);
    assert!(!stream.is_paused());
    stream.pause();
    assert_eq!(stream.state(), StreamState::Paused);
    assert!(stream.is_paused());
}

#[test]
fn playback_test_seek() {
    let mut stream = MediaStream::new(StreamStats::new(10000));
    stream.seek(5000);
    assert_eq!(stream.state(), StreamState::Seeking);
    assert_eq!(stream.stats().position_ms, 5000);
    stream.update_position(5000);
    assert_eq!(stream.state(), StreamState::Playing);
}

#[test]
fn test_end() {
    let mut stream = MediaStream::new(StreamStats::new(10000));
    stream.end();
    assert_eq!(stream.state(), StreamState::Ended);
}

#[test]
fn playback_counters_and_resume() {
    let mut stream = MediaStream::new(StreamStats::new(10000));
    stream.update_peers(5);
    assert_eq!(stream.stats().peer_count, 5);
    stream.pause();
    stream.update_position(1234);
    assert_eq!(stream.state(), StreamState::Paused);
    assert_eq!(stream.stats().position_ms, 1234);
    assert_eq!(stream.seek_target, None);
    stream.seek(7000);
    assert_eq!(stream.seek_target, Some(7000));
    stream.update_position(7100);
    assert_eq!(stream.seek_target, None);
    assert_eq!(stream.stats().position_ms, 7100);
    stream.resume();
    assert!(!stream.is_paused());
    assert_eq!(stream.stats().duration_ms, 10000);
}
