use qvod::buffer::RingBuffer;
use qvod::stream::{MetadataResolver, ProgressTracker};
use qvod::types::InfoHash;

// The two float helpers below are copies of those in app/adaptive.rs, which the
// tests cannot link; the integers they read come from the library.

fn copy_of_app_filled_percentage(buf: &RingBuffer) -> f64 {
    if buf.total_size() == 0 {
        return 1.0;
    }
    buf.filled_total() as f64 / buf.total_size() as f64
}

fn copy_of_app_buffered_duration_ms(buf: &RingBuffer, duration_ms: u64) -> u64 {
    if buf.total_size() == 0 || duration_ms == 0 {
        return 0;
    }
    let bytes_per_ms = buf.total_size() as f64 / duration_ms as f64;
    (buf.filled_after(buf.play_position()) as f64 / bytes_per_ms) as u64
}

#[test]
fn test_new_buffer() {
    let buf = RingBuffer::new(1024 * 1024, 10_000_000);
    assert!(!buf.is_playable());
    assert_eq!(copy_of_app_filled_percentage(&buf), 0.0);
}

#[test]
fn test_write_and_read() {
    let mut buf = RingBuffer::new(1024 * 1024, 10_000_000);
    let data = vec![0xABu8; 262_144];
    buf.write(0, &data);
    assert!(buf.is_playable());
    let read = buf.read(0, 100);
    assert_eq!(read, Some(vec![0xABu8; 100]));
}

#[test]
fn test_read_unwritten_returns_none() {
    let buf = RingBuffer::new(1024 * 1024, 10_000_000);
    assert!(buf.read(0, 100).is_none());
}

#[test]
fn test_buffered_duration() {
    let mut buf = RingBuffer::new(1024 * 1024, 1_000_000);
    buf.write(0, &vec![0u8; 500_000]);
    assert_eq!(buf.filled_after(buf.play_position()), 500_000);
    assert_eq!(buf.filled_total(), 500_000);
    let dur = copy_of_app_buffered_duration_ms(&buf, 10_000);
    assert!(dur > 0);
}

#[test]
fn buffer_test_clear() {
    let mut buf = RingBuffer::new(1024 * 1024, 10_000_000);
    buf.write(0, &vec![0xABu8; 262_144]);
    assert!(buf.is_playable());
    buf.clear();
    assert!(!buf.is_playable());
}

#[test]
fn test_non_sequential_write() {
    let mut buf = RingBuffer::new(1024 * 1024, 10_000_000);
    buf.write(1_000_000, &vec![0xABu8; 100]);
    assert!(!buf.is_playable());
    let read = buf.read(1_000_000, 100);
    assert!(read.is_some());
}

#[test]
fn test_set_play_position() {
    let mut buf = RingBuffer::new(1024 * 1024, 10_000_000);
    buf.set_play_position(500_000);
    assert_eq!(buf.play_position(), 500_000);
}

#[test]
fn test_empty_write() {
    let mut buf = RingBuffer::new(1024, 10_000_000);
    buf.write(0, &[]);
    assert_eq!(copy_of_app_filled_percentage(&buf), 0.0);
}

#[test]
fn ranges_merge_and_window_moves() {
    let mut buf = RingBuffer::new(100, 1000);
    buf.write(10, &[1u8; 10]);
    buf.write(30, &[2u8; 10]);
    assert_eq!(buf.filled_ranges(), &[(10, 20), (30, 40)]);
    buf.write(20, &[3u8; 10]);
    assert_eq!(buf.filled_ranges(), &[(10, 40)]);
    assert_eq!(buf.read(15, 10), Some(vec![1, 1, 1, 1, 1, 3, 3, 3, 3, 3]));
    assert!(buf.is_range_filled(10, 30));
    assert!(!buf.is_range_filled(10, 31));
    assert_eq!(buf.filled_after(35), 5);
    buf.write(995, &[9u8; 20]);
    assert!(buf.is_range_filled(995, 5));
    assert!(!buf.is_range_filled(995, 6));
}

#[test]
fn test_empty_meta() {
    let ih = InfoHash([0u8; 20]);
    let meta = MetadataResolver::empty_meta(ih, 1024);
    assert_eq!(meta.info_hash, ih);
    assert_eq!(meta.file_size, 1024);
    assert_eq!(meta.filename, "unknown");
}

#[test]
fn test_progress_tracker() {
    let ih = InfoHash([0u8; 20]);
    let meta = MetadataResolver::empty_meta(ih, 1024 * 1024);
    let buffer = RingBuffer::new(65536, 1024 * 1024);
    let mut tracker = ProgressTracker::new(meta, buffer);
    assert_eq!(copy_of_app_filled_percentage(tracker.buffer()), 0.0);
    tracker.record_download(4096);
    assert_eq!(tracker.bytes_downloaded(), 4096);
}

#[test]
fn test_filled_before_and_total() {
    let mut buf = RingBuffer::new(1000, 1000);
    buf.write(10, &[1u8; 20]);
    buf.write(100, &[2u8; 50]);
    assert_eq!(buf.filled_before(0), 0);
    assert_eq!(buf.filled_before(20), 10);
    assert_eq!(buf.filled_before(30), 20);
    assert_eq!(buf.filled_before(120), 40);
    assert_eq!(buf.filled_before(1000), 70);
    assert_eq!(buf.filled_total(), 70);
    assert_eq!(buf.filled_after(120), 30);
}

#[test]
fn buffer_reads_latest_of_several_writes() {
    let mut buf = RingBuffer::new(64, 1000);
    buf.write(0, &[1u8; 10]);
    buf.write(5, &[2u8; 10]);
    buf.write(30, &[3u8; 4]);
    buf.write(8, &[4u8; 2]);
    let mut expected = vec![1u8; 5];
    expected.extend_from_slice(&[2, 2, 2, 4, 4, 2, 2, 2, 2, 2]);
    assert_eq!(buf.read(0, 15), Some(expected));
    assert_eq!(buf.read(30, 4), Some(vec![3u8; 4]));
    assert_eq!(buf.read(8, 2), Some(vec![4u8; 2]));
    assert_eq!(buf.read(20, 5), None);
}

#[test]
fn buffer_cleared_reads_nothing() {
    let mut buf = RingBuffer::new(1024, 4096);
    buf.write(0, &[9u8; 100]);
    buf.set_play_position(50);
    buf.clear();
    assert!(!buf.is_playable());
    assert!(!buf.is_range_filled(0, 1));
    assert_eq!(buf.read(0, 1), None);
    assert_eq!(buf.play_position(), 0);
    assert_eq!(buf.filled_ranges().len(), 0);
}
