use qvod::tracker::{build_scrape_url, parse_scrape_response, AnnounceParams, AnnounceResponse, TrackerConfig};
use qvod::types::{AnnounceEvent, InfoHash, IpAddress};
use qvod::tracker::{announce_url, final_error, peers_from_reply, retry_delay_secs};

#[test]
fn test_announce_params_query() {
    let params = AnnounceParams {
        info_hash: InfoHash([0u8; 20]),
        peer_id: [1u8; 20],
        port: 8621,
        uploaded: 0,
        downloaded: 0,
        left: 1000,
        event: AnnounceEvent::Started,
        compact: true,
    };
    let query = params.to_query();
    assert!(query.contains("info_hash="));
    assert!(query.contains("port=8621"));
    assert!(query.contains("event=started"));
    assert!(query.contains("compact=1"));
}

#[test]
fn announce_query_exact() {
    let mut ih = [0u8; 20];
    ih[0] = b'a';
    ih[1] = b'~';
    ih[2] = 0xff;
    let params = AnnounceParams {
        info_hash: InfoHash(ih),
        peer_id: *b"-QV0001-abcdefghijkl",
        port: 1,
        uploaded: 2,
        downloaded: 3,
        left: 4,
        event: AnnounceEvent::Empty,
        compact: false,
    };
    let expected = format!(
        "info_hash=a~%FF{}&peer_id=-QV0001-abcdefghijkl&port=1&uploaded=2&downloaded=3&left=4&event=empty",
        "%00".repeat(17)
    );
    assert_eq!(params.to_query(), expected);
}

#[test]
fn test_announce_response_empty_peers() {
    let data = b"d8:intervali1800e12:min intervali900e8:completei10e10:incompletei5e5:peers0:e";
    let resp = AnnounceResponse::from_bencode(data).unwrap();
    assert_eq!(resp.interval, 1800);
    assert_eq!(resp.min_interval, Some(900));
    assert_eq!(resp.complete, 10);
    assert_eq!(resp.incomplete, 5);
    assert!(resp.peers.is_empty());
}

#[test]
fn announce_response_cases() {
    let r = AnnounceResponse::from_bencode(b"d8:intervali60e5:peers6:\x01\x02\x03\x04\x00\x50e").unwrap();
    assert_eq!(r.peers, vec![(vec![1, 2, 3, 4], 80)]);
    assert_eq!(r.min_interval, None);
    assert_eq!(r.downloaded, 0);
    let e = AnnounceResponse::from_bencode(b"d5:peers0:e").unwrap_err();
    assert_eq!(e.message(), "Tracker 协议错误: missing field: \"interval\"");
    let e = AnnounceResponse::from_bencode(b"d8:intervali-1ee").unwrap_err();
    assert_eq!(e.message(), "Tracker 协议错误: interval out of range");
    let e = AnnounceResponse::from_bencode(b"i1e").unwrap_err();
    assert_eq!(e.message(), "Tracker 协议错误: response not a dict");
}

#[test]
fn test_build_scrape_url() {
    let ih = InfoHash([0xAB; 20]);
    let url = build_scrape_url("http://tracker.example.com:6969", &[ih]);
    assert!(url.contains("/scrape?"));
    assert!(url.contains("info_hash="));
}

#[test]
fn scrape_url_exact() {
    let url = build_scrape_url("http://t/", &[InfoHash([0x01; 20]), InfoHash([0xff; 20])]);
    assert_eq!(
        url,
        format!("http://t/scrape?info_hash={}&info_hash={}", "01".repeat(20), "ff".repeat(20))
    );
}

#[test]
fn test_parse_scrape_response() {
    let mut dict_data = b"d5:filesd".to_vec();
    let hash = [0xABu8; 20];
    dict_data.extend_from_slice(b"20:");
    dict_data.extend_from_slice(&hash);
    dict_data.extend_from_slice(b"d8:completei10e10:incompletei5e10:downloadedi100eeee");
    let result = parse_scrape_response(&dict_data);
    assert!(result.is_ok(), "parse failed: {:?}", result.err());
    let results = result.unwrap();
    assert_eq!(results.len(), 1);
    assert_eq!(results[0].1.complete, 10);
    assert_eq!(results[0].0, InfoHash(hash));
    assert_eq!(results[0].1.downloaded, 100);
}

#[test]
fn scrape_response_errors() {
    assert!(parse_scrape_response(b"de").is_err());
    let e = parse_scrape_response(b"d5:filesd1:ai1eee").unwrap_err();
    assert_eq!(e.message(), "Tracker 协议错误: invalid file entry");
}

#[test]
fn test_tracker_config_default() {
    let config = TrackerConfig::default();
    assert_eq!(config.port, 8621);
    assert!(config.compact);
}

#[test]
fn test_tracker_url_shuffling() {
    let config = qvod::tracker::TrackerConfig {
        tracker_urls: vec![
            "http://tracker1:6969/announce".into(),
            "http://tracker2:6969/announce".into(),
            "http://tracker3:6969/announce".into(),
        ],
        ..Default::default()
    };
    let urls = qvod::tracker::get_tracker_urls(&config);
    assert_eq!(urls.len(), 3);
    assert!(urls.contains(&"http://tracker1:6969/announce".into()));
    assert!(urls.contains(&"http://tracker2:6969/announce".into()));
    assert!(urls.contains(&"http://tracker3:6969/announce".into()));
}

#[test]
fn announce_request_and_reply_helpers() {
    let p = AnnounceParams {
        info_hash: InfoHash([0x41; 20]),
        peer_id: [0x42; 20],
        port: 8621,
        uploaded: 1,
        downloaded: 2,
        left: 3,
        event: AnnounceEvent::Started,
        compact: true,
    };
    let u = announce_url("http://t:6969/announce//", &p);
    assert_eq!(u, format!("http://t:6969/announce?{}", p.to_query()));
    let peers = peers_from_reply(&vec![(vec![1, 2, 3, 4], 80), (vec![1, 2], 81)]);
    assert_eq!(peers.len(), 2);
    assert_eq!(peers[0].addr.ip, IpAddress::V4([1, 2, 3, 4]));
    assert_eq!(peers[0].addr.port, 80);
    assert_eq!(peers[1].addr.ip, IpAddress::V4([0, 0, 0, 0]));
    assert_eq!(retry_delay_secs(0), Some(1));
    assert_eq!(retry_delay_secs(1), Some(2));
    assert_eq!(retry_delay_secs(2), None);
    assert!(matches!(final_error(None), qvod::error::QvodError::TrackerTimeout));
    assert!(matches!(final_error(Some(qvod::error::QvodError::NoPeers)), qvod::error::QvodError::NoPeers));
}
