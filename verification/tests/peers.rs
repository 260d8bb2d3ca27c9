use ed25519_dalek::SigningKey;
use entropy::common::hex_string;
use entropy::hosts::{host_peers, knows_itself, make_peer_uri, read_hosts};
use entropy::peer::{common_prefix_length, Peer, Store};
use rand::rngs::OsRng;
use sha2::{Digest, Sha256};

fn peer_with_id(id: [u8; 32]) -> Peer {
    Peer { id, key: [0; 32], uri: String::from("http://host:1") }
}

fn first_byte(byte: u8) -> [u8; 32] {
    let mut id = [0; 32];
    id[0] = byte;
    id
}

#[test]
fn always_contain_identical_peer() {
    let peers = Vec::from_iter((0..100).map(|_| {
        let k = SigningKey::generate(&mut OsRng).verifying_key();
        Peer { id: Sha256::digest(k).into(), key: k.to_bytes(), uri: Default::default() }
    }));
    let store = Store::new(peers);
    for peer in store.peers() {
        let closest = store.closest_peers(&peer.id, 10);
        assert_eq!(closest.len(), 10);
        assert!(closest.into_iter().any(|p| std::ptr::eq(p, peer)));
    }
}

#[test]
fn peer_is_derived_from_its_uri() {
    let uri = String::from("http://localhost:10000");
    assert_eq!(
        hex_string(&Peer::signing_key(&uri)),
        "e968c463bd875047107d3df02cb525682cb39410c303fa99258efaf0dab53abf"
    );
    let peer = Peer::new(uri);
    assert_eq!(
        hex_string(&peer.key),
        "4fef9a64f82e4d5e0ab5cb1a3d7e5471c05d7ac6eb64785d166270e9fe5daa2b"
    );
    assert_eq!(
        hex_string(&peer.id),
        "2d8e0034414e97a57168c4e1e0be885baa4fe8031d2b6766f62fb2d73093e86e"
    );
    assert_eq!(peer.uri, "http://localhost:10000");
}

#[test]
fn peer_key_is_that_of_the_signing_key() {
    let uri = "http://example.net:10007";
    let secret = Peer::signing_key(uri);
    let expected: [u8; 32] = Sha256::digest(uri).into();
    assert_eq!(secret, expected);
    let peer = Peer::new(uri.to_string());
    assert_eq!(peer.key, SigningKey::from(&secret).verifying_key().to_bytes());
}

#[test]
fn peer_of_a_secret() {
    let secret = SigningKey::generate(&mut OsRng).to_bytes();
    let peer = Peer::of_secret(&secret, String::from("http://x:1"));
    let key = SigningKey::from(&secret).verifying_key();
    let id: [u8; 32] = Sha256::digest(key).into();
    assert_eq!((peer.key, peer.id), (key.to_bytes(), id));
    assert_eq!(peer.uri, "http://x:1");
}

#[test]
fn common_prefix_of_identifiers() {
    assert_eq!(common_prefix_length(&[7; 32], &[7; 32]), 256);
    assert_eq!(common_prefix_length(&first_byte(0x80), &[0; 32]), 0);
    assert_eq!(common_prefix_length(&first_byte(0x01), &[0; 32]), 7);
    let mut id = [0; 32];
    id[31] = 1;
    assert_eq!(common_prefix_length(&id, &[0; 32]), 255);
    id[31] = 0;
    id[2] = 0x10;
    assert_eq!(common_prefix_length(&id, &[0; 32]), 19);
}

#[test]
fn store_sorts_its_peers() {
    let store = Store::new(vec![
        peer_with_id(first_byte(9)),
        peer_with_id(first_byte(1)),
        peer_with_id(first_byte(5)),
    ]);
    assert_eq!(store.len(), 3);
    let order = Vec::from_iter(store.peers().iter().map(|p| p.id[0]));
    assert_eq!(order, vec![1, 5, 9]);
}

#[test]
fn closest_peers_come_first() {
    let store = Store::new(Vec::from_iter((0..8).map(|i| peer_with_id(first_byte(i)))));
    let found = store.closest_peers(&first_byte(6), 4);
    let order = Vec::from_iter(found.iter().map(|p| p.id[0]));
    // 7 differs from 6 in the last bit of the byte, 4 and 5 in the one before.
    assert_eq!(order, vec![6, 7, 4, 5]);
}

#[test]
fn as_many_peers_as_asked_for() {
    let store = Store::new(Vec::from_iter((0..40).map(|i| peer_with_id(first_byte(i * 6)))));
    assert_eq!(store.closest_peers(&first_byte(100), 10).len(), 10);
    assert_eq!(store.closest_peers(&first_byte(0), 10).len(), 10);
    assert_eq!(store.closest_peers(&[0xff; 32], 10).len(), 10);
    assert_eq!(store.closest_peers(&[0xff; 32], 0).len(), 0);
}

#[test]
fn no_more_than_ten_peers_on_each_side() {
    let store = Store::new(Vec::from_iter((0..40).map(|i| peer_with_id(first_byte(i * 6)))));
    // All peers come before the target, and ten of them are in reach.
    assert_eq!(store.closest_peers(&[0xff; 32], 30).len(), 10);
    // Ten come before the target, and ten do not.
    assert_eq!(store.closest_peers(&first_byte(120), 30).len(), 20);
}

#[test]
fn no_peer_is_closer_than_those_found() {
    let peers = Vec::from_iter((0..60).map(|i| Peer::new(format!("http://host:{}", 10000 + i))));
    let store = Store::new(peers);
    for i in 0..20u8 {
        let target: [u8; 32] = Sha256::digest([i]).into();
        let found = store.closest_peers(&target, 5);
        let farthest = common_prefix_length(&found[4].id, &target);
        for peer in store.peers() {
            if !found.iter().any(|p| p.id == peer.id) {
                assert!(common_prefix_length(&peer.id, &target) <= farthest);
            }
        }
    }
}

#[test]
fn nearer_in_order_has_the_longer_prefix() {
    let target = first_byte(0x50);
    let nearer = common_prefix_length(&first_byte(0x51), &target);
    let farther = common_prefix_length(&first_byte(0x58), &target);
    assert_eq!(nearer, 7);
    assert_eq!(farther, 4);
}

#[test]
fn hosts_file_is_read() {
    let text = "#service <SERVICE_HOST>\n  host1 \r\n\nservice plaza\n\thost2\n# comment\nhost3";
    assert_eq!(read_hosts(text), vec!["host1", "host2", "host3"]);
    assert_eq!(read_hosts(""), Vec::<String>::new());
    assert_eq!(read_hosts("\n\n"), Vec::<String>::new());
    assert_eq!(read_hosts("servic\nservices\n"), vec!["servic"]);
    assert_eq!(read_hosts("\u{3000}h\u{a0}\nx y\n"), vec!["h", "x y"]);
}

#[test]
fn hosts_have_as_many_peers_as_told() {
    let hosts = vec![String::from("a"), String::from("b")];
    let peers = host_peers(&hosts, 3);
    let uris = Vec::from_iter(peers.iter().map(|p| p.uri.as_str()));
    assert_eq!(
        uris,
        vec![
            "http://a:10000",
            "http://a:10001",
            "http://a:10002",
            "http://b:10000",
            "http://b:10001",
            "http://b:10002",
        ]
    );
    assert_eq!(
        hex_string(&peers[0].id),
        "b5e5d251ffcebe889797aced6cd233198cc6c875c8335cc271991e95e828f865"
    );
    assert_eq!(host_peers(&hosts, 0).len(), 0);
    assert_eq!(make_peer_uri("a", 65535), "http://a:65535");
}

#[test]
fn peer_knows_itself_only_in_its_network() {
    let hosts = vec![String::from("a"), String::from("b")];
    let store = Store::new(host_peers(&hosts, 20));
    assert!(knows_itself(&store, &Peer::new(String::from("http://b:10019"))));
    assert!(!knows_itself(&store, &Peer::new(String::from("http://c:10000"))));
}
