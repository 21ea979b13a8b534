use qvod::qvs_file::QvsFile;
use qvod::types::InfoHash;

fn sample_qvs_file() -> QvsFile {
    QvsFile {
        info_hash: InfoHash([0u8; 20]),
        filename: "test.mp4".into(),
        file_size: 1024,
        piece_length: 256,
        pieces: vec![[1u8; 20], [2u8; 20]],
        trackers: vec!["http://tracker.example.com/announce".into()],
        keyframe_index: None,
    }
}

#[test]
fn test_roundtrip() {
    let original = sample_qvs_file();
    let encoded = original.encode().unwrap();
    let decoded = QvsFile::decode(&encoded).unwrap();
    assert_eq!(decoded.info_hash.0, original.info_hash.0);
    assert_eq!(decoded.filename, original.filename);
    assert_eq!(decoded.file_size, original.file_size);
    assert_eq!(decoded.piece_length, original.piece_length);
    assert_eq!(decoded.pieces.len(), original.pieces.len());
    assert_eq!(decoded.trackers, original.trackers);
}

#[test]
fn test_with_keyframe_index() {
    let mut qf = sample_qvs_file();
    qf.keyframe_index = Some(vec![0u8, 1, 2, 3]);
    let encoded = qf.encode().unwrap();
    let decoded = QvsFile::decode(&encoded).unwrap();
    assert_eq!(decoded.keyframe_index, Some(vec![0u8, 1, 2, 3]));
}

#[test]
fn qvs_roundtrip_large_numbers_and_errors() {
    let mut qf = sample_qvs_file();
    qf.file_size = u64::MAX;
    qf.pieces = vec![];
    let decoded = QvsFile::decode(&qf.encode().unwrap()).unwrap();
    assert_eq!(decoded.file_size, u64::MAX);
    assert!(decoded.pieces.is_empty());
    let e = QvsFile::decode(b"i1e").unwrap_err();
    assert_eq!(e.message(), "Bencode 错误: expected dict");
    let e = QvsFile::decode(b"d9:info_hash1:xe").unwrap_err();
    assert_eq!(e.message(), "Bencode 错误: info_hash must be 20 bytes");
    let e = QvsFile::decode(b"de").unwrap_err();
    assert_eq!(e.message(), "Bencode 错误: missing info_hash");
}
