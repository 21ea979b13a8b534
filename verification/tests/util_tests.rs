use qvod::simple_bencode::{parse_dict_peers, simple_bencode_decode, SimpleBencode, SimpleDict};
use qvod::util::{
    current_time_millis, generate_node_id, generate_peer_id, hex_decode, hex_encode,
    parse_compact_peers, sha1_hash, xor_distance,
};

#[test]
fn test_generate_peer_id() {
    let id = generate_peer_id();
    assert_eq!(id.len(), 20);
    assert_eq!(&id[..8], b"-QV0001-");
}

#[test]
fn test_generate_node_id() {
    let id1 = generate_node_id();
    let id2 = generate_node_id();
    assert_eq!(id1.len(), 20);
    assert_eq!(id2.len(), 20);
    assert_ne!(id1, id2);
}

#[test]
fn test_xor_distance() {
    let a = [0xFF; 20];
    let b = [0x00; 20];
    assert_eq!(xor_distance(&a, &b), [0xFF; 20]);
}

#[test]
fn test_hex_roundtrip() {
    let data = b"hello";
    let encoded = hex_encode(data);
    let decoded = hex_decode(&encoded).unwrap();
    assert_eq!(decoded, data);
}

#[test]
fn hex_text_and_errors() {
    assert_eq!(hex_encode(&[0x00, 0xab, 0x7f]), "00ab7f");
    assert_eq!(hex_decode("ABcd").unwrap(), vec![0xab, 0xcd]);
    assert_eq!(hex_decode("abc").unwrap_err(), "hex string must have even length");
    assert_eq!(hex_decode("zz").unwrap_err(), "invalid digit found in string");
    assert_eq!(hex_decode("+f").unwrap(), vec![0x0f]);
}

#[test]
fn test_current_time_millis() {
    let t = current_time_millis();
    assert!(t > 1_700_000_000_000u64);
}

#[test]
fn test_sha1_hash() {
    let hash = sha1_hash(b"hello");
    assert_eq!(hash.len(), 20);
    let expected = hex_decode("aaf4c61ddcc5e8a2dabede0f3b482cd9aea9434d").unwrap();
    assert_eq!(&hash[..], &expected[..]);
}

#[test]
fn test_simple_bencode_int() {
    let (val, rest) = simple_bencode_decode(b"i42e").unwrap();
    assert_eq!(val, SimpleBencode::Int(42));
    assert!(rest.is_empty());
}

#[test]
fn test_simple_bencode_str() {
    let (val, _) = simple_bencode_decode(b"4:spam").unwrap();
    assert_eq!(val, SimpleBencode::Str(b"spam".to_vec()));
}

#[test]
fn test_simple_bencode_dict() {
    let (val, _) = simple_bencode_decode(b"d3:key3:vale").unwrap();
    let dict = val.as_dict().unwrap();
    assert_eq!(dict.get(b"key".as_ref()).and_then(|v| v.as_str_bytes()), Some(&b"val"[..]));
}

#[test]
fn simple_bencode_errors() {
    assert_eq!(simple_bencode_decode(b"").unwrap_err(), "empty data");
    assert_eq!(simple_bencode_decode(b"x").unwrap_err(), "unexpected byte: 120");
    assert_eq!(simple_bencode_decode(b"i1").unwrap_err(), "unterminated int");
    assert_eq!(simple_bencode_decode(b"ixe").unwrap_err(), "bad int");
    assert_eq!(simple_bencode_decode(b"3").unwrap_err(), "no colon");
    assert_eq!(simple_bencode_decode(b"3:a").unwrap_err(), "truncated string");
    assert_eq!(simple_bencode_decode(b"li1e").unwrap_err(), "unterminated list");
    assert_eq!(simple_bencode_decode(b"di1ei2ee").unwrap_err(), "dict key not string");
    assert_eq!(simple_bencode_decode(b"d1:a").unwrap_err(), "empty data");
    let (v, _) = simple_bencode_decode(b"l1:ai-3ee").unwrap();
    assert_eq!(v.as_list().map(|l| l.len()), Some(2));
}

#[test]
fn test_parse_compact_peers() {
    let data = vec![192u8, 168, 1, 1, 0x21, 0xAD, 10, 0, 0, 1, 0x1A, 0xE1];
    let peers = parse_compact_peers(&data);
    assert_eq!(peers.len(), 2);
    assert_eq!(peers[0].1, 8621);
    assert_eq!(peers[1].1, 6881);
    assert_eq!(peers[0].0, vec![192, 168, 1, 1]);
    assert_eq!(parse_compact_peers(&data[..11]).len(), 1);
}

#[test]
fn test_parse_dict_peers() {
    let mut d1 = SimpleDict::new();
    d1.insert(b"ip".to_vec(), SimpleBencode::Str(b"192.168.1.1".to_vec()));
    d1.insert(b"port".to_vec(), SimpleBencode::Int(8621));
    let mut d2 = SimpleDict::new();
    d2.insert(b"ip".to_vec(), SimpleBencode::Str(b"10.0.0.1".to_vec()));
    d2.insert(b"port".to_vec(), SimpleBencode::Int(6881));
    let list = vec![SimpleBencode::Dict(d1), SimpleBencode::Dict(d2)];
    let peers = parse_dict_peers(&list);
    assert_eq!(peers.len(), 2);
    assert_eq!(peers[0].1, 8621);
}

#[test]
fn dict_peers_skip_bad_entries() {
    let mut bad_port = SimpleDict::new();
    bad_port.insert(b"ip".to_vec(), SimpleBencode::Str(b"1.2.3.4".to_vec()));
    bad_port.insert(b"port".to_vec(), SimpleBencode::Int(70000));
    let list = vec![SimpleBencode::Int(1), SimpleBencode::Dict(bad_port)];
    assert!(parse_dict_peers(&list).is_empty());
}

#[test]
fn hex_decode_refuses_bad_pair_before_a_wide_character() {
    let text = "zza\u{e9}b";
    assert_eq!(text.len(), 6);
    assert_eq!(hex_decode(text).unwrap_err(), "invalid digit found in string");
    assert_eq!(hex_decode("0g\u{e9}").unwrap_err(), "invalid digit found in string");
    assert_eq!(hex_decode("ab\u{e9}").unwrap_err(), "invalid digit found in string");
    assert_eq!(hex_decode("abc\u{e9}").unwrap_err(), "hex string must have even length");
}
