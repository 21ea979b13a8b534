use qvod::types::InfoHash;
use qvod::uri::{MediaUri, QvodUri};

#[test]
fn test_valid_uri_roundtrip() {
    let uri_str = "qvod://a1b2c3d4e5f6a7b8c9d0e1f2a3b4c5d6e7f8a9b0|movie.mp4|734003200|rmvb|";
    let uri: QvodUri = uri_str.parse().unwrap();
    assert_eq!(uri.filename, "movie.mp4");
    assert_eq!(uri.filesize, 734003200);
    assert_eq!(uri.format, "rmvb");
    assert_eq!(uri.to_string(), uri_str);
}

#[test]
fn test_missing_prefix() {
    let err = "invalid://hash".parse::<QvodUri>().unwrap_err();
    assert!(err.message().contains("missing qvod:// prefix"));
}

#[test]
fn test_too_few_parts() {
    let err = "qvod://hash".parse::<QvodUri>().unwrap_err();
    assert!(err.message().contains("trailing pipe"));
}

#[test]
fn test_missing_trailing_pipe() {
    let err = "qvod://a1b2c3d4e5f6a7b8c9d0e1f2a3b4c5d6e7f8a9b0|file.mp4|1000|mp4"
        .parse::<QvodUri>()
        .unwrap_err();
    assert!(err.message().contains("trailing pipe"));
}

#[test]
fn test_invalid_hash_length() {
    let err = "qvod://short|file.mp4|1000|mp4|".parse::<QvodUri>().unwrap_err();
    assert!(err.message().contains("must be 40 hex chars"));
}

#[test]
fn test_empty_filename() {
    let err = "qvod://a1b2c3d4e5f6a7b8c9d0e1f2a3b4c5d6e7f8a9b0||1000|mp4|"
        .parse::<QvodUri>()
        .unwrap_err();
    assert!(err.message().contains("filename cannot be empty"));
}

#[test]
fn test_media_uri_qvod() {
    let uri: MediaUri = "qvod://a1b2c3d4e5f6a7b8c9d0e1f2a3b4c5d6e7f8a9b0|movie.mp4|734003200|rmvb|"
        .parse()
        .unwrap();
    assert!(matches!(uri, MediaUri::Qvod(_)));
    assert_eq!(uri.filename(), "movie.mp4");
    assert_eq!(uri.filesize(), 734003200);
}

#[test]
fn test_media_uri_https() {
    let uri: MediaUri = "https://example.com/videos/movie.mp4".parse().unwrap();
    match &uri {
        MediaUri::Http(h) => {
            assert_eq!(h.url, "https://example.com/videos/movie.mp4");
            assert_eq!(h.filename, "movie.mp4");
        }
        _ => panic!("expected Http variant"),
    }
    assert_eq!(uri.filename(), "movie.mp4");
    assert_eq!(uri.filesize(), 0);
}

#[test]
fn test_media_uri_http() {
    let uri: MediaUri = "http://example.com/video.avi".parse().unwrap();
    assert!(matches!(uri, MediaUri::Http(_)));
    assert_eq!(uri.filename(), "video.avi");
}

#[test]
fn test_media_uri_unsupported_scheme() {
    let err = "ftp://example.com/file".parse::<MediaUri>().unwrap_err();
    assert!(err.message().contains("unsupported URI scheme") || err.message().contains("expected"));
}

#[test]
fn test_media_uri_file_scheme() {
    let uri: MediaUri = "file:///home/user/video.mp4".parse().unwrap();
    assert!(matches!(uri, MediaUri::File(_)));
    assert_eq!(uri.filename(), "video.mp4");

    let uri: MediaUri = "file://C:/Users/user/video.mp4".parse().unwrap();
    assert!(matches!(uri, MediaUri::File(_)));
}

#[test]
fn test_media_uri_abs_path_unix() {
    let uri: MediaUri = "/home/user/video.mp4".parse().unwrap();
    assert!(matches!(uri, MediaUri::File(_)));
    assert_eq!(uri.filename(), "video.mp4");
}

#[test]
fn test_media_uri_info_hash_from_url() {
    let uri: MediaUri = "https://example.com/video.mp4".parse().unwrap();
    let hash = uri.info_hash();
    let expected: [u8; 20] =
        <sha1::Sha1 as sha1::Digest>::digest(b"https://example.com/video.mp4").into();
    assert_eq!(hash, InfoHash(expected));
}

#[test]
fn test_media_uri_roundtrip() {
    let qvod_uri = "qvod://a1b2c3d4e5f6a7b8c9d0e1f2a3b4c5d6e7f8a9b0|file.mp4|1000|mp4|";
    let parsed: MediaUri = qvod_uri.parse().unwrap();
    assert_eq!(parsed.to_string(), qvod_uri);

    let http_uri = "https://example.com/video.mp4";
    let parsed: MediaUri = http_uri.parse().unwrap();
    assert_eq!(parsed.to_string(), http_uri);
}

#[test]
fn test_media_uri_url_no_path() {
    let uri: MediaUri = "https://example.com".parse().unwrap();
    assert_eq!(uri.filename(), "example.com");
}

#[test]
fn qvod_uri_errors_name_the_field() {
    let h = "a1b2c3d4e5f6a7b8c9d0e1f2a3b4c5d6e7f8a9b0";
    let err = format!("qvod://{h}|f|abc|mp4|").parse::<QvodUri>().unwrap_err();
    assert_eq!(err.message(), "无效 URI: invalid filesize: invalid digit found in string");
    let err = format!("qvod://{h}|f|1||").parse::<QvodUri>().unwrap_err();
    assert_eq!(err.message(), "无效 URI: format cannot be empty");
    let err = "qvod://a|b|".parse::<QvodUri>().unwrap_err();
    assert_eq!(err.message(), "无效 URI: expected at least 4 pipe-delimited parts, got 2");
    let err = "qvod:zz1b2c3d4e5f6a7b8c9d0e1f2a3b4c5d6e7f8a9b0|f|1|mp4|"
        .parse::<QvodUri>()
        .unwrap_err();
    assert_eq!(err.message(), "无效 URI: info_hash must be 40 hex chars, got 41");
    let err = "qvod:zzb2c3d4e5f6a7b8c9d0e1f2a3b4c5d6e7f8a9b0|f|1|mp4|"
        .parse::<QvodUri>()
        .unwrap_err();
    assert_eq!(err.message(), "无效 URI: hex decode: invalid digit found in string");
}

#[test]
fn qvod_uri_extra_fields_ignored_and_bare_prefix() {
    let u: QvodUri = "qvod:A1B2C3D4E5F6A7B8C9D0E1F2A3B4C5D6E7F8A9B0|a.mkv|+5|mkv|extra|"
        .parse()
        .unwrap();
    assert_eq!(u.filesize, 5);
    assert_eq!(u.info_hash.0[0], 0xa1);
    assert_eq!(u.to_string(), "qvod://a1b2c3d4e5f6a7b8c9d0e1f2a3b4c5d6e7f8a9b0|a.mkv|5|mkv|");
}

#[test]
fn media_uri_paths_and_files() {
    let uri: MediaUri = "C:\\videos\\clip.avi".parse().unwrap();
    assert_eq!(uri.filename(), "clip.avi");
    assert_eq!(uri.to_string(), "file://C:\\videos\\clip.avi");
    let uri: MediaUri = "\\\\server\\share\\a.mp4".parse().unwrap();
    assert!(matches!(uri, MediaUri::File(_)));
    let uri: MediaUri = "https://example.com/dir/".parse().unwrap();
    assert_eq!(uri.filename(), "stream");
    assert!("relative/path.mp4".parse::<MediaUri>().is_err());
    assert!("C:relative".parse::<MediaUri>().is_err());
}

#[test]
fn uri_from_str_refuses_hash_cut_inside_a_character() {
    let h = format!("a\u{e9}{}", "b".repeat(37));
    assert_eq!(h.len(), 40);
    let text = format!("qvod://{h}|f|1|mp4|");
    let err = text.parse::<QvodUri>().unwrap_err();
    assert_eq!(err.message(), "无效 URI: hex decode: invalid digit found in string");
    let err = text.parse::<MediaUri>().unwrap_err();
    assert_eq!(err.message(), "无效 URI: hex decode: invalid digit found in string");
}
