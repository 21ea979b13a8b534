use qvod::cache::{entry_from_metadata, meta_from_metadata, qdata_path, qmv_path, CacheConfig, CacheIndex};
use qvod::qvs_file::QvsFile;
use qvod::types::InfoHash;

#[test]
fn test_cache_config_default() {
    let config = CacheConfig::default();
    assert!(config.cache_dir.contains("qvs"));
    assert_eq!(config.max_size, 10 * 1024 * 1024 * 1024);
}

#[test]
fn cache_paths() {
    let h = InfoHash([0xAB; 20]);
    let p = qdata_path("/c", &h);
    assert_eq!(p, format!("/c/qdata/{}.qdata", "ab".repeat(20)));
    let m = qmv_path("/c", &h);
    assert_eq!(m, format!("/c/qmv/{}.qmv", "ab".repeat(20)));
}

#[test]
fn cache_index_records_writes() {
    let mut idx = CacheIndex::new();
    let h = InfoHash([1; 20]);
    idx.record_write(&h, 6, 5, 100);
    assert_eq!(idx.entries().len(), 1);
    assert_eq!(idx.entries()[0].file_size, 11);
    assert_eq!(idx.entries()[0].downloaded, 11);
    idx.record_write(&h, 0, 6, 200);
    assert_eq!(idx.entries().len(), 1);
    assert_eq!(idx.entries()[0].downloaded, 11);
    assert_eq!(idx.entries()[0].last_access_ms, 200);
    idx.record_write(&h, 20, 10, 300);
    assert_eq!(idx.entries()[0].downloaded, 30);
    assert_eq!(idx.entries()[0].file_size, 11);
    assert_eq!(idx.entries()[0].created_at_ms, 100);
}

#[test]
fn cache_cleanup_removes_oldest_first() {
    let mut idx = CacheIndex::new();
    // sizes 50, 30, 40 accessed at 3, 1, 2
    idx.record_write(&InfoHash([1; 20]), 0, 50, 3);
    idx.record_write(&InfoHash([2; 20]), 0, 30, 1);
    idx.record_write(&InfoHash([3; 20]), 0, 40, 2);
    // max 100: threshold 80; total 120 > 80: drop [2] (30) -> 90 > 80: drop [3] (40) -> 50
    let removed = idx.cleanup(100);
    assert_eq!(removed, vec![InfoHash([2; 20]), InfoHash([3; 20])]);
    assert_eq!(idx.entries().len(), 1);
    assert_eq!(idx.entries()[0].info_hash, InfoHash([1; 20]));
    // nothing more to remove
    assert!(idx.cleanup(100).is_empty());
    // a cache of 200 bytes keeps everything below 160
    let mut idx2 = CacheIndex::new();
    idx2.record_write(&InfoHash([4; 20]), 0, 200, 1);
    assert_eq!(idx2.cleanup(100), vec![InfoHash([4; 20])]);
    assert!(idx2.entries().is_empty());
}

#[test]
fn cache_entries_from_metadata() {
    let f = QvsFile {
        info_hash: InfoHash([7; 20]),
        filename: "movie.mp4".to_string(),
        file_size: 1_000_001,
        piece_length: 262_144,
        pieces: vec![[0u8; 20]; 4],
        trackers: vec![],
        keyframe_index: None,
    };
    let e = entry_from_metadata(&f, 42);
    assert_eq!(e.bitfield.num_pieces(), 4);
    assert_eq!(e.downloaded, 0);
    assert_eq!(e.last_access_ms, 42);
    let m = meta_from_metadata(f);
    assert_eq!(m.filename, "movie.mp4");
    assert_eq!(m.pieces.len(), 4);
    assert!(m.from_cache);
    assert_eq!(m.duration_ms, 0);
}

#[test]
fn cleanup_keeps_the_order_of_entries_accessed_together() {
    let mut idx = CacheIndex::new();
    idx.record_write(&InfoHash([1; 20]), 0, 100, 5);
    idx.record_write(&InfoHash([2; 20]), 0, 100, 5);
    idx.record_write(&InfoHash([3; 20]), 0, 10, 9);
    // 210 bytes against a limit of 110 (80% of 138): of the two entries
    // accessed at 5, the one recorded first goes.
    assert_eq!(idx.cleanup(138), vec![InfoHash([1; 20])]);
    assert_eq!(idx.entries().len(), 2);
    assert_eq!(idx.entries()[0].info_hash, InfoHash([2; 20]));
    assert_eq!(idx.entries()[1].info_hash, InfoHash([3; 20]));
}
