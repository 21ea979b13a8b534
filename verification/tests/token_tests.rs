use qvod::address::{ip_text_exec, ipv4_text_exec};
use qvod::token::TokenManager;
use qvod::types::{IpAddress, SocketAddress};

fn test_addr() -> SocketAddress {
    SocketAddress { ip: IpAddress::V4([192, 168, 1, 1]), port: 8621 }
}

#[test]
fn test_generate_and_verify() {
    let mgr = TokenManager::new();
    let addr = test_addr();
    let token = mgr.generate_token(&addr);
    assert!(mgr.verify_token(&addr, &token));
}

#[test]
fn test_reject_wrong_token() {
    let mgr = TokenManager::new();
    let addr = test_addr();
    let wrong = [0u8; 4];
    assert!(!mgr.verify_token(&addr, &wrong));
}

#[test]
fn test_rotate() {
    let mut mgr = TokenManager::new();
    let addr = test_addr();
    let old_token = mgr.generate_token(&addr);
    mgr.rotate_secret();
    let new_token = mgr.generate_token(&addr);
    assert_ne!(old_token, new_token);
    // old token still verifiable via secret_b
    assert!(mgr.verify_token(&addr, &old_token));
}

fn v6(groups: [u16; 8]) -> IpAddress {
    let mut o = [0u8; 16];
    for i in 0..8 {
        o[2 * i] = (groups[i] >> 8) as u8;
        o[2 * i + 1] = (groups[i] & 0xff) as u8;
    }
    IpAddress::V6(o)
}

fn text(ip: IpAddress) -> String {
    String::from_utf8(ip_text_exec(&ip)).unwrap()
}

#[test]
fn ip_text_matches_standard_notation() {
    assert_eq!(String::from_utf8(ipv4_text_exec(&[192, 168, 1, 1])).unwrap(), "192.168.1.1");
    assert_eq!(text(IpAddress::V4([0, 10, 255, 7])), "0.10.255.7");
    assert_eq!(text(v6([0; 8])), "::");
    assert_eq!(text(v6([0, 0, 0, 0, 0, 0, 0, 1])), "::1");
    assert_eq!(text(v6([0x2001, 0xdb8, 0, 0, 0, 0, 0, 1])), "2001:db8::1");
    assert_eq!(text(v6([0x2001, 0xdb8, 0, 0, 1, 0, 0, 1])), "2001:db8::1:0:0:1");
    assert_eq!(text(v6([0x2001, 0xdb8, 0, 1, 1, 1, 1, 1])), "2001:db8:0:1:1:1:1:1");
    assert_eq!(text(v6([1, 0, 0, 2, 0, 0, 0, 3])), "1:0:0:2::3");
    assert_eq!(text(v6([0xfe80, 0, 0, 0, 0xabcd, 0, 0, 0])), "fe80::abcd:0:0:0");
    assert_eq!(text(v6([0, 0, 0, 0, 0, 0xffff, 0xc0a8, 0x0101])), "::ffff:192.168.1.1");
}

#[test]
fn tokens_follow_the_secrets() {
    let a = [1u8; 16];
    let b = [2u8; 16];
    let mgr = TokenManager::from_secrets(a, b, 0);
    let addr = test_addr();
    let t1 = mgr.generate_token(&addr);
    assert_eq!(t1, TokenManager::from_secrets(a, [9u8; 16], 5).generate_token(&addr));
    let under_b = TokenManager::from_secrets(b, a, 0).generate_token(&addr);
    assert!(mgr.verify_token(&addr, &under_b));
    let other = SocketAddress { ip: IpAddress::V4([192, 168, 1, 1]), port: 8622 };
    assert_ne!(mgr.generate_token(&other), t1);
}

#[test]
fn rotation_waits_ten_minutes() {
    let mut mgr = TokenManager::from_secrets([1u8; 16], [2u8; 16], 1_000);
    let addr = test_addr();
    let t = mgr.generate_token(&addr);
    mgr.check_rotation_with([3u8; 16], 600_999);
    assert_eq!(mgr.generate_token(&addr), t);
    mgr.check_rotation_with([3u8; 16], 601_000);
    assert_ne!(mgr.generate_token(&addr), t);
    assert!(mgr.verify_token(&addr, &t));
    mgr.rotate_with([4u8; 16], 700_000);
    assert!(!mgr.verify_token(&addr, &t) || t == mgr.generate_token(&addr));
}
