use entropy::app::{ChunkMember, Timestamp};
use entropy::app2::{
    benchmark_entropy, draw_object, entropy_push_fragment, entropy_put, entropy_upload_chunk,
    entropy_upload_invite, entropy_upload_members, entropy_upload_push, entropy_upload_query,
    entropy_upload_up, finish_put, fragment_stored, poll_benchmark, upload_query, State,
    StateConfig,
};
use entropy::common::hex_string;
use entropy::hosts::host_peers;
use entropy::peer::{Peer, Store};
use entropy::sorted_map::SortedMap;
use entropy::wirehair::EncoderCreate;
use sha2::{Digest, Sha256};

const AT: Timestamp = Timestamp { secs: 7, nanos: 8 };

fn config() -> StateConfig {
    StateConfig {
        fragment_size: 8,
        inner_k: 3,
        inner_n: 2,
        outer_k: 2,
        outer_n: 4,
        chunk_path: String::from("/chunks"),
        peer: Peer::new(String::from("http://a:10000")),
        peer_secret: Peer::signing_key("http://a:10000"),
    }
}

fn state_with(config: StateConfig) -> State {
    State::new(config, Store::new(host_peers(&vec![String::from("a")], 30)))
}

fn uploading_state() -> State {
    state_with(config())
}

#[test]
fn object_is_put_whole_blocks() {
    let mut state = uploading_state();
    assert_eq!(benchmark_entropy(&mut state), 0);
    assert_eq!(benchmark_entropy(&mut state), 1);
    assert_eq!(poll_benchmark(&state, 1).object_hash, [0; 32]);
    let drawn = draw_object(state.config());
    let put = entropy_put(&mut state, 1, &drawn, AT);
    assert_eq!(drawn.object.len(), 48);
    assert_eq!(put.encoder, EncoderCreate { message_bytes: 48, block_bytes: 48 });
    assert_eq!(put.chunk_count, 4);
    assert_eq!(state.config().chunk_len(), 24);
    let digest: [u8; 32] = Sha256::digest(&drawn.object).into();
    assert_eq!(poll_benchmark(&state, 1).object_hash, digest);
    assert_eq!(poll_benchmark(&state, 1).put_start, Some(AT));
    finish_put(&mut state, 1, AT);
    assert_eq!(poll_benchmark(&state, 1).put_end, Some(AT));
    assert_eq!(poll_benchmark(&state, 0).put_end, None);
}

#[test]
fn fragments_are_pushed_without_their_index() {
    let mut state = uploading_state();
    let (key, start) = entropy_upload_chunk(&mut state, &[4; 24]);
    assert_eq!(start.unwrap().uris.len(), 2);
    assert!(state.has_upload(&key));
    let text = hex_string(&key);
    assert_eq!(entropy_upload_query(&state, &text), key);
    assert_eq!(entropy_upload_up(&state, &text, 1), (key, 1));
    let peer = Peer::new(String::from("http://x:1"));
    let push = entropy_push_fragment(state.config(), &key, 1, &peer);
    assert_eq!(push.uri, format!("http://x:1/entropy/upload/push/{text}"));
    let first = ChunkMember { index: 1, peer: peer.clone() };
    let step = upload_query(&mut state, &key, first);
    assert_eq!(step.push.uri, push.uri);
    assert!(step.complete.is_none());
    let second = ChunkMember { index: 0, peer };
    let message = upload_query(&mut state, &key, second).complete.unwrap();
    assert_eq!(message.members.keys(), vec![0, 1]);
    assert_eq!(message.uris[0], format!("http://x:1/entropy/upload/members/{text}"));
}

#[test]
fn upload_needs_enough_peers() {
    let mut state = state_with(StateConfig { inner_n: 31, ..config() });
    let (key, start) = entropy_upload_chunk(&mut state, &[4; 24]);
    assert!(start.is_none());
    assert!(!state.has_upload(&key));
}

#[test]
fn invited_peer_reports_when_stored() {
    let mut state = uploading_state();
    let text = "0c".repeat(32);
    let uploader = Peer::new(String::from("http://u:1"));
    let answer = entropy_upload_invite(&mut state, &text, 5, &uploader);
    assert_eq!(answer.uri, format!("http://u:1/entropy/upload/query/{text}"));
    assert!(state.has_chunk(&[0x0c; 32]));
    assert!(!state.has_fragment(&[0x0c; 32]));
    let store = entropy_upload_push(&state, &text, 5);
    assert_eq!((store.file.dir, store.file.name), (text.clone(), String::from("5")));
    let report = entropy_upload_members(&mut state, &text, SortedMap::new(), &uploader);
    assert_eq!(report.uri, format!("http://u:1/entropy/upload/up/{text}/5"));
    assert_eq!(report.token, store.token);
    fragment_stored(&mut state, report.token);
    assert!(state.has_fragment(&[0x0c; 32]));
}
