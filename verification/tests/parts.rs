use entropy::app::{
    benchmark_put, can_get, draw_object, finish_get, finish_put, hash_object, poll_benchmark,
    State, StateConfig, Timestamp,
};
use entropy::common::hex_string;
use entropy::hosts::host_peers;
use entropy::kademlia::{
    assemble, kademlia_download_part, kademlia_download_pull, kademlia_get, kademlia_put,
    kademlia_repair_push, kademlia_upload_push, part_ids, upload_parts,
};
use entropy::peer::{Peer, Store};
use entropy::sorted_map::SortedMap;
use sha2::{Digest, Sha256};

const NOW: Timestamp = Timestamp { secs: 100, nanos: 1 };

fn config() -> StateConfig {
    StateConfig {
        fragment_size: 8,
        inner_k: 3,
        inner_n: 5,
        outer_k: 2,
        outer_n: 4,
        chunk_path: String::from("/chunks"),
        repair: false,
        peer: Peer::new(String::from("http://a:10000")),
        peer_secret: Peer::signing_key("http://a:10000"),
    }
}

fn state_with(config: StateConfig) -> State {
    let hosts = vec![String::from("a"), String::from("b")];
    State::new(config, Store::new(host_peers(&hosts, 30)))
}

fn state() -> State {
    state_with(config())
}

#[test]
fn object_is_put_in_parts_and_got_back() {
    let mut state = state();
    benchmark_put(&mut state, "kademlia");
    let drawn = draw_object(state.config());
    let sent = kademlia_put(&mut state, 0, &drawn, NOW);
    assert_eq!(drawn.object.len(), 48);
    assert_ne!(drawn.object, vec![0; 48]);
    assert_eq!(sent.len(), 6);
    assert_eq!(poll_benchmark(&state, 0).object_hash, drawn.object_hash);
    assert_eq!(poll_benchmark(&state, 0).put_start, Some(NOW));
    finish_put(&mut state, 0, NOW);
    assert!(can_get(&state, 0));

    let mut files = Vec::new();
    for part in &sent {
        files.push((part.part_id, drawn.object[part.start..part.end].to_vec()));
    }
    let mut parts = SortedMap::new();
    for (index, part_id) in kademlia_get(&mut state, 0, NOW) {
        let found = files.iter().find(|file| file.0 == part_id).unwrap();
        parts.insert(index, found.1.clone());
    }
    let object = assemble(&parts);
    assert_eq!(object, drawn.object);
    assert!(finish_get(&mut state, 0, &object, NOW));
}

#[test]
fn parts_are_asked_for_where_they_were_sent() {
    let mut state = state();
    benchmark_put(&mut state, "kademlia");
    let object = Vec::from_iter(0..48);
    let ids = part_ids(&object, 8, 6);
    assert_eq!(ids.len(), 6);
    let parts = upload_parts(&mut state, 0, &ids);
    assert_eq!(parts.len(), 6);
    assert_eq!((parts[1].start, parts[1].end), (8, 16));
    let digest: [u8; 32] = Sha256::digest(&object[8..16]).into();
    assert_eq!(parts[1].part_id, digest);
    assert_eq!(poll_benchmark(&state, 0).part_ids.get(&1), Some(&digest));
    let name = hex_string(&digest);
    let pull = kademlia_download_part(&state, &digest);
    let closest = state.peer_store().closest_peers(&digest, 3);
    assert_eq!(pull.len(), 3);
    for i in 0..3 {
        assert_eq!(
            parts[1].uris[i],
            format!("{}/kademlia/upload/push/{name}", closest[i].uri)
        );
        assert_eq!(pull[i], format!("{}/kademlia/download/pull/{name}", closest[i].uri));
    }
}

#[test]
fn part_is_stored_under_its_name() {
    let mut state = state();
    let text = "cd".repeat(32);
    let pushed = kademlia_upload_push(&mut state, &text);
    assert!(state.has_part(&[0xcd; 32]));
    let pulled = kademlia_download_pull(&state, &text);
    assert_eq!(pushed.root, "/chunks");
    assert_eq!(pushed.name, text);
    assert_eq!((pulled.file.root, pulled.file.name), (pushed.root, pushed.name));
    assert!(pulled.remove);
    let lasting = state_with(StateConfig { repair: true, ..config() });
    assert!(!kademlia_download_pull(&lasting, &text).remove);
}

#[test]
fn part_is_taken_over() {
    let mut state = state();
    assert!(!state.has_part(&[0xcd; 32]));
    let file = kademlia_repair_push(&mut state, &"cd".repeat(32));
    assert_eq!(file.name, "cd".repeat(32));
    assert!(state.has_part(&[0xcd; 32]));
}

#[test]
fn empty_object_needs_no_peers() {
    let empty = StateConfig { outer_k: 0, ..config() };
    let mut state = State::new(empty, Store::new(Vec::new()));
    benchmark_put(&mut state, "kademlia");
    let drawn = hash_object(Vec::new());
    assert_eq!(kademlia_put(&mut state, 0, &drawn, NOW).len(), 0);
    assert_eq!(
        hex_string(&poll_benchmark(&state, 0).object_hash),
        "e3b0c44298fc1c149afbf4c8996fb92427ae41e4649b934ca495991b7852b855"
    );
}

#[test]
fn parts_are_joined_in_order() {
    let mut parts = SortedMap::new();
    parts.insert(2, vec![5, 6]);
    parts.insert(0, vec![1, 2]);
    parts.insert(1, vec![3, 4]);
    assert_eq!(assemble(&parts), vec![1, 2, 3, 4, 5, 6]);
    assert_eq!(assemble(&SortedMap::new()), Vec::<u8>::new());
}
