use qvod::bencode::{BencodeDict, BencodeValue};
use qvod::error::QvodError;

#[test]
fn test_encode_int() {
    assert_eq!(BencodeValue::Int(42).encode(), b"i42e");
    assert_eq!(BencodeValue::Int(-1).encode(), b"i-1e");
}

#[test]
fn test_encode_str() {
    assert_eq!(BencodeValue::Str(b"spam".to_vec()).encode(), b"4:spam");
}

#[test]
fn test_encode_list() {
    let list = BencodeValue::List(vec![BencodeValue::Str(b"a".to_vec()), BencodeValue::Int(1)]);
    assert_eq!(list.encode(), b"l1:ai1ee");
}

#[test]
fn test_encode_dict() {
    let mut dict = BencodeDict::new();
    dict.insert(b"key".to_vec(), BencodeValue::Str(b"val".to_vec()));
    let encoded = BencodeValue::Dict(dict).encode();
    assert_eq!(encoded, b"d3:key3:vale");
}

#[test]
fn test_roundtrip_int() {
    let val = BencodeValue::Int(12345);
    let encoded = val.encode();
    let (decoded, rest) = BencodeValue::decode(&encoded).unwrap();
    assert_eq!(decoded, val);
    assert!(rest.is_empty());
}

#[test]
fn test_roundtrip_str() {
    let val = BencodeValue::Str(b"hello world".to_vec());
    let encoded = val.encode();
    let (decoded, _) = BencodeValue::decode(&encoded).unwrap();
    assert_eq!(decoded, val);
}

#[test]
fn test_roundtrip_nested() {
    let mut dict = BencodeDict::new();
    dict.insert(b"pieces".to_vec(), BencodeValue::Str(vec![0u8; 20]));
    dict.insert(b"name".to_vec(), BencodeValue::Str(b"test.txt".to_vec()));
    dict.insert(b"length".to_vec(), BencodeValue::Int(1024));
    let val = BencodeValue::Dict(dict);
    let encoded = val.encode();
    let (decoded, _) = BencodeValue::decode(&encoded).unwrap();
    assert_eq!(decoded, val);
}

#[test]
fn test_dict_get() {
    let mut dict = BencodeDict::new();
    dict.insert(b"key1".to_vec(), BencodeValue::Int(42));
    let val = BencodeValue::Dict(dict);
    assert_eq!(val.dict_get(b"key1").and_then(|v| v.as_int()), Some(42));
    assert!(val.dict_get(b"nonexistent").is_none());
}

#[test]
fn test_decode_tracker_response() {
    let mut dict = BencodeDict::new();
    dict.insert(b"interval".to_vec(), BencodeValue::Int(1800));
    dict.insert(b"complete".to_vec(), BencodeValue::Int(42));
    dict.insert(b"incomplete".to_vec(), BencodeValue::Int(17));
    dict.insert(b"peers".to_vec(), BencodeValue::Str(vec![0u8; 0]));
    let val = BencodeValue::Dict(dict);
    let encoded = val.encode();
    let (decoded, _) = BencodeValue::decode(&encoded).unwrap();
    let d = decoded.as_dict().unwrap();
    assert_eq!(d.get(b"interval".as_ref()).and_then(|v| v.as_int()), Some(1800));
    assert_eq!(d.get(b"complete".as_ref()).and_then(|v| v.as_int()), Some(42));
}

fn bencode_message(r: Result<(BencodeValue, &[u8]), QvodError>) -> String {
    match r {
        Err(QvodError::Bencode(m)) => m,
        other => panic!("expected a bencode error, got {:?}", other),
    }
}

#[test]
fn dict_keeps_keys_sorted_and_replaces() {
    let mut dict = BencodeDict::new();
    assert!(dict.insert(b"b".to_vec(), BencodeValue::Int(2)).is_none());
    assert!(dict.insert(b"a".to_vec(), BencodeValue::Int(1)).is_none());
    assert!(dict.insert(b"ab".to_vec(), BencodeValue::Int(3)).is_none());
    let prev = dict.insert(b"b".to_vec(), BencodeValue::Int(9));
    assert_eq!(prev, Some(BencodeValue::Int(2)));
    assert_eq!(dict.len(), 3);
    let keys: Vec<&[u8]> = dict.entries().iter().map(|(k, _)| k.as_slice()).collect();
    assert_eq!(keys, vec![&b"a"[..], &b"ab"[..], &b"b"[..]]);
    assert_eq!(BencodeValue::Dict(dict).encode(), b"d1:ai1e2:abi3e1:bi9ee");
}

#[test]
fn decode_leaves_trailing_bytes() {
    let (v, rest) = BencodeValue::decode(b"i-7eXYZ").unwrap();
    assert_eq!(v, BencodeValue::Int(-7));
    assert_eq!(rest, b"XYZ");
    let (v, rest) = BencodeValue::decode(b"0:").unwrap();
    assert_eq!(v, BencodeValue::Str(Vec::new()));
    assert!(rest.is_empty());
}

#[test]
fn decode_unsorted_dict_sorts_and_last_wins() {
    let (v, _) = BencodeValue::decode(b"d1:bi1e1:ai2e1:bi3ee").unwrap();
    assert_eq!(v.encode(), b"d1:ai2e1:bi3ee");
}

#[test]
fn decode_error_messages() {
    assert_eq!(bencode_message(BencodeValue::decode(b"")), "empty data");
    assert_eq!(bencode_message(BencodeValue::decode(b"x")), "unexpected byte: 0x78");
    assert_eq!(bencode_message(BencodeValue::decode(b"i12")), "unterminated integer");
    assert_eq!(
        bencode_message(BencodeValue::decode(b"iabe")),
        "invalid integer: invalid digit found in string"
    );
    assert_eq!(
        bencode_message(BencodeValue::decode(b"ie")),
        "invalid integer: cannot parse integer from empty string"
    );
    assert_eq!(
        bencode_message(BencodeValue::decode(b"i9223372036854775808e")),
        "invalid integer: number too large to fit in target type"
    );
    assert_eq!(bencode_message(BencodeValue::decode(b"i\xffe")), "invalid integer utf-8");
    assert_eq!(bencode_message(BencodeValue::decode(b"12")), "unterminated string length");
    assert_eq!(bencode_message(BencodeValue::decode(b"5:abc")), "string data truncated");
    assert_eq!(bencode_message(BencodeValue::decode(b"l1:a")), "unterminated list");
    assert_eq!(bencode_message(BencodeValue::decode(b"d1:ai1e")), "unterminated dict");
    assert_eq!(
        bencode_message(BencodeValue::decode(b"di1:ai2ee")),
        "invalid string length: invalid digit found in string"
    );
}

#[test]
fn accessors_pick_the_variant() {
    let s = BencodeValue::Str(b"hi".to_vec());
    assert_eq!(s.as_str(), Some("hi"));
    assert_eq!(s.as_str_bytes(), Some(&b"hi"[..]));
    assert_eq!(s.as_int(), None);
    assert!(s.as_list().is_none());
    assert!(s.as_dict().is_none());
    assert!(BencodeValue::Str(vec![0xff]).as_str().is_none());
    let l = BencodeValue::List(vec![BencodeValue::Int(1)]);
    assert_eq!(l.as_list().map(|v| v.len()), Some(1));
    assert!(l.dict_get(b"a").is_none());
}

#[test]
fn encode_then_decode_hands_back_the_tail() {
    let mut dict = BencodeDict::new();
    dict.insert(b"z".to_vec(), BencodeValue::List(vec![BencodeValue::Int(-7), BencodeValue::Str(vec![])]));
    dict.insert(b"a".to_vec(), BencodeValue::Int(i64::MIN));
    let val = BencodeValue::Dict(dict);
    let mut bytes = val.encode();
    assert_eq!(bytes, b"d1:ai-9223372036854775808e1:zli-7e0:ee".to_vec());
    bytes.extend_from_slice(b"tail");
    let (decoded, rest) = BencodeValue::decode(&bytes).unwrap();
    assert_eq!(decoded, val);
    assert_eq!(rest, b"tail");
}
