use tarsk::peer::parse_peer_address;
use tarsk::peer::render_peer_address;
use tarsk::peer::render_peer_list;
use tarsk::peer::AddressError;
use tarsk::peer::PeerAddress;
use tarsk::registry::Registry;
use tarsk::utf8::check_utf8;

fn addr(a: u8, b: u8, c: u8, d: u8, port: u16) -> PeerAddress {
    PeerAddress { a, b, c, d, port }
}

#[test]
fn test_render_address() {
    let p = addr(127, 0, 0, 1, 9001);
    assert_eq!(render_peer_address(&p), b"127.0.0.1:9001".to_vec());
    let q = addr(0, 0, 0, 0, 0);
    assert_eq!(render_peer_address(&q), b"0.0.0.0:0".to_vec());
    let r = addr(255, 255, 255, 255, 65535);
    assert_eq!(render_peer_address(&r), b"255.255.255.255:65535".to_vec());
}

#[test]
fn test_parse_address_roundtrip() {
    let p = addr(10, 20, 30, 40, 8080);
    let text = render_peer_address(&p);
    assert_eq!(parse_peer_address(&text), Ok(p));
}

#[test]
fn test_parse_address_rejects_noise() {
    for bad in [
        &b"not-an-address"[..],
        b"",
        b"127.0.0.1",
        b"127.0.0.1:",
        b"127.0.0.1:9001 ",
        b" 127.0.0.1:9001",
        b"127.0.0.01:9001",
        b"127.0.0.1:09001",
        b"256.0.0.1:80",
        b"1.2.3.4:65536",
        b"1.2.3:80",
        b"1.2.3.4.5:80",
    ] {
        assert_eq!(
            parse_peer_address(&bad.to_vec()),
            Err(AddressError::NotAnAddress),
            "accepted {:?}",
            bad
        );
    }
}

#[test]
fn test_parse_address_rejects_bad_utf8() {
    assert_eq!(
        parse_peer_address(&vec![0xFF, 0xFE, 0x30]),
        Err(AddressError::NotUtf8)
    );
}

#[test]
fn test_utf8_validation() {
    assert!(check_utf8(&b"plain ascii".to_vec()));
    assert!(check_utf8(&"héllo wörld".as_bytes().to_vec()));
    assert!(check_utf8(&"\u{10FFFF}\u{7FF}\u{FFFD}".as_bytes().to_vec()));
    // lone continuation byte
    assert!(!check_utf8(&vec![0x80]));
    // truncated two-byte sequence
    assert!(!check_utf8(&vec![0xC3]));
    // overlong encoding of NUL
    assert!(!check_utf8(&vec![0xC0, 0x80]));
    // CESU-style surrogate half
    assert!(!check_utf8(&vec![0xED, 0xA0, 0x80]));
    // above U+10FFFF
    assert!(!check_utf8(&vec![0xF4, 0x90, 0x80, 0x80]));
}

#[test]
fn test_register_and_list_two_peers() {
    let mut registry = Registry::new();

    let first = registry.register_peer(&b"127.0.0.1:9001".to_vec());
    assert_eq!(first.status, 200);
    assert_eq!(first.body, b"127.0.0.1:9001".to_vec());
    let peers = registry.get_peers();
    assert_eq!(peers.status, 200);
    assert_eq!(peers.body, b"[\"127.0.0.1:9001\"]".to_vec());

    let second = registry.register_peer(&b"127.0.0.1:9002".to_vec());
    assert_eq!(second.status, 200);
    let peers = registry.get_peers();
    assert_eq!(
        peers.body,
        b"[\"127.0.0.1:9001\",\"127.0.0.1:9002\"]".to_vec()
    );
}

#[test]
fn test_register_twice_keeps_one_entry() {
    let mut registry = Registry::new();
    assert_eq!(registry.register_peer(&b"127.0.0.1:9001".to_vec()).status, 200);
    assert_eq!(registry.register_peer(&b"127.0.0.1:9001".to_vec()).status, 200);
    assert_eq!(
        registry.get_peers().body,
        b"[\"127.0.0.1:9001\"]".to_vec()
    );
}

#[test]
fn test_register_rejects_bad_bodies() {
    let mut registry = Registry::new();

    let not_utf8 = registry.register_peer(&vec![0xC3, 0x28]);
    assert_eq!(not_utf8.status, 400);
    assert_eq!(not_utf8.body, b"not valid utf8".to_vec());

    let not_addr = registry.register_peer(&b"not-an-address".to_vec());
    assert_eq!(not_addr.status, 400);
    assert_eq!(not_addr.body, b"invalid socket addr".to_vec());

    assert_eq!(registry.get_peers().body, b"[]".to_vec());
}

#[test]
fn test_empty_registry_lists_nothing() {
    let registry = Registry::new();
    let peers = registry.get_peers();
    assert_eq!(peers.status, 200);
    assert_eq!(peers.body, b"[]".to_vec());
}

#[test]
fn test_render_peer_list_layout() {
    assert_eq!(render_peer_list(&Vec::new()), b"[]".to_vec());
    assert_eq!(
        render_peer_list(&vec![addr(1, 2, 3, 4, 5), addr(9, 9, 9, 9, 9)]),
        b"[\"1.2.3.4:5\",\"9.9.9.9:9\"]".to_vec()
    );
}
