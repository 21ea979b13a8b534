use qvod::server::{LocalServerConfig, RangeHeader, RangeResult};

#[test]
fn test_default_config() {
    let config = LocalServerConfig::default();
    assert_eq!(config.preferred_port, 8621);
}

#[test]
fn test_find_available_port() {
    let config = LocalServerConfig::new(9999);
    let port = config.find_available_port(|_p| true);
    assert!(port > 0);
}

#[test]
fn find_available_port_tries_in_order() {
    let config = LocalServerConfig::new(9000);
    assert_eq!(config.find_available_port(|p| p >= 9003), 9003);
    assert_eq!(config.find_available_port(|p| p == 9010), 9010);
    assert_eq!(config.find_available_port(|p| p == 9011), 0);
}

#[test]
fn test_parse_full_range() {
    let rh = RangeHeader::parse("bytes=0-499", 1000).unwrap();
    assert_eq!(rh.ranges.len(), 1);
    assert_eq!(rh.ranges[0].start, 0);
    assert_eq!(rh.ranges[0].end, 499);
}

#[test]
fn test_parse_open_ended_range() {
    let rh = RangeHeader::parse("bytes=500-", 1000).unwrap();
    assert_eq!(rh.ranges[0].start, 500);
    assert_eq!(rh.ranges[0].end, 999);
}

#[test]
fn test_parse_suffix_range() {
    let rh = RangeHeader::parse("bytes=-500", 1000).unwrap();
    assert_eq!(rh.ranges[0].start, 500);
    assert_eq!(rh.ranges[0].end, 999);
}

#[test]
fn test_content_range() {
    let rh = RangeHeader::parse("bytes=200-499", 1000).unwrap();
    assert_eq!(rh.content_range(), "bytes 200-499/1000");
}

#[test]
fn test_invalid_header() {
    assert!(RangeHeader::parse("invalid", 1000).is_none());
    assert!(RangeHeader::parse("", 1000).is_none());
}

#[test]
fn several_ranges_trimmed_and_clamped() {
    let rh = RangeHeader::parse("bytes= 0-9 , x ,-2000, 990-5000", 1000).unwrap();
    assert_eq!(
        rh.ranges,
        vec![
            RangeResult { start: 0, end: 9, total_length: 1000 },
            RangeResult { start: 0, end: 999, total_length: 1000 },
            RangeResult { start: 990, end: 999, total_length: 1000 },
        ]
    );
    assert!(RangeHeader::parse("bytes=0-1", 0).is_none());
    assert!(RangeHeader::parse("bytes=-0", 10).is_none());
    assert_eq!(RangeHeader { ranges: vec![] }.content_range(), "");
}
