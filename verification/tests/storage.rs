use entropy::app::{
    begin_get, begin_put, benchmark_get, benchmark_put, can_get, draw_object, end_get, entropy_get,
    entropy_put, finish_get, finish_put, has_hash, hash_object, object_buffer, poll_benchmark, read_protocol,
    same_hash, ChunkMember, Members, Protocol, State, StateConfig, Timestamp,
};
use entropy::common::hex_string;
use entropy::entropy_download::{can_pull, entropy_download_chunk, entropy_download_pull};
use entropy::entropy_upload::{
    entropy_push_fragment, entropy_upload_chunk, entropy_upload_invite, entropy_upload_members,
    entropy_upload_push, entropy_upload_query, entropy_upload_up, fragment_stored, select_peers,
    upload_candidates, upload_query, ChunkUpload, WaitingUp,
};
use entropy::hosts::host_peers;
use entropy::peer::{Peer, Store};
use entropy::sorted_map::SortedMap;
use entropy::wirehair::{DecoderCreate, EncoderCreate};
use sha2::{Digest, Sha256};

const NOW: Timestamp = Timestamp { secs: 100, nanos: 1 };
const LATER: Timestamp = Timestamp { secs: 200, nanos: 2 };

fn config() -> StateConfig {
    StateConfig {
        fragment_size: 8,
        inner_k: 3,
        inner_n: 5,
        outer_k: 2,
        outer_n: 4,
        chunk_path: String::from("/chunks"),
        repair: false,
        peer: Peer::new(String::from("http://a:10000")),
        peer_secret: Peer::signing_key("http://a:10000"),
    }
}

fn state_with(config: StateConfig) -> State {
    let hosts = vec![String::from("a"), String::from("b")];
    State::new(config, Store::new(host_peers(&hosts, 30)))
}

fn state() -> State {
    state_with(config())
}

fn member(index: u32, host: &str) -> ChunkMember {
    ChunkMember { index, peer: Peer::new(format!("http://{host}:{}", 10000 + index)) }
}

fn members_of(list: &[(u32, &str)]) -> Members {
    let mut members = SortedMap::new();
    for &(index, host) in list {
        members.insert(index, member(index, host));
    }
    members
}

#[test]
fn sizes_follow_from_the_configuration() {
    assert_eq!(config().chunk_size(), 24);
    assert_eq!(config().object_size(), 48);
    let mut large = config();
    large.fragment_size = 4 << 20;
    large.inner_k = 32;
    large.outer_k = 8;
    assert_eq!(large.chunk_size(), 134217728);
    assert_eq!(large.object_size(), 1073741824);
}

#[test]
fn protocols_have_names() {
    assert_eq!(read_protocol("entropy"), Some(Protocol::Entropy));
    assert_eq!(read_protocol("kademlia"), Some(Protocol::Kademlia));
    assert_eq!(read_protocol("Entropy"), None);
    assert_eq!(read_protocol(""), None);
}

#[test]
fn benchmark_goes_from_put_to_get() {
    let mut state = state();
    assert!(!state.has_benchmark(0));
    assert_eq!(benchmark_put(&mut state, "entropy"), (0, Protocol::Entropy));
    assert_eq!(benchmark_put(&mut state, "kademlia"), (1, Protocol::Kademlia));
    assert_eq!(benchmark_get(&state, 1, "entropy"), Protocol::Entropy);
    let blank = poll_benchmark(&state, 1);
    assert_eq!(blank.object_hash, [0; 32]);
    assert_eq!(blank.put_start, None);

    let drawn = hash_object(b"abc".to_vec());
    begin_put(&mut state, 1, drawn.object_hash, NOW);
    assert!(!can_get(&state, 1));
    finish_put(&mut state, 1, LATER);
    assert!(can_get(&state, 1));
    let put = poll_benchmark(&state, 1);
    assert_eq!(
        hex_string(&put.object_hash),
        "ba7816bf8f01cfea414140de5dae2223b00361a396177a9cb410ff61f20015ad"
    );
    assert_eq!((put.put_start, put.put_end, put.get_start), (Some(NOW), Some(LATER), None));

    begin_get(&mut state, 1, LATER);
    assert!(!can_get(&state, 1));
    assert!(finish_get(&mut state, 1, b"abc", LATER));
    assert_eq!(poll_benchmark(&state, 1).get_end, Some(LATER));
    assert!(!finish_get(&mut state, 1, b"abd", LATER));
    let recorded = end_get(&mut state, 1, LATER);
    assert!(has_hash(b"abc", &recorded));
    assert!(!has_hash(b"abd", &recorded));
    assert!(same_hash(&put.object_hash, &poll_benchmark(&state, 1).object_hash));
}

#[test]
fn object_is_random_and_its_digest_is_recorded() {
    let mut state = state();
    benchmark_put(&mut state, "entropy");
    benchmark_put(&mut state, "entropy");
    let first = draw_object(state.config());
    let second = draw_object(state.config());
    assert_eq!(first.object.len(), 48);
    assert_ne!(first.object, vec![0; 48]);
    assert_ne!(first.object, second.object);
    let put = entropy_put(&mut state, 0, &first, NOW);
    assert_eq!(put.encoder, EncoderCreate { message_bytes: 48, block_bytes: 24 });
    assert_eq!(put.chunk_count, 4);
    let digest: [u8; 32] = Sha256::digest(&first.object).into();
    assert_eq!(first.object_hash, digest);
    assert_eq!(poll_benchmark(&state, 0).object_hash, digest);
    assert_eq!(poll_benchmark(&state, 0).put_start, Some(NOW));
}

#[test]
fn last_of_equal_candidates_is_chosen() {
    let a = Peer::new(String::from("http://a:1"));
    let b = Peer::new(String::from("http://b:1"));
    let c = Peer::new(String::from("http://c:1"));
    let candidates = vec![a.clone(), b.clone(), a.clone(), c];
    let chosen = select_peers(&candidates, 3).unwrap();
    assert_eq!(chosen.keys(), vec![1, 2, 3]);
    assert_eq!(chosen.get(&2).unwrap().uri, "http://a:1");
    // Two peers are enough after the second candidate.
    assert_eq!(select_peers(&candidates, 2).unwrap().keys(), vec![0, 1]);
    assert!(select_peers(&candidates, 4).is_none());
    assert!(select_peers(&vec![a, b], 0).is_none());
}

#[test]
fn chunk_upload_invites_different_peers() {
    let mut state = state();
    benchmark_put(&mut state, "entropy");
    let chunk = vec![3; 24];
    let (key, start) = entropy_upload_chunk(&mut state, 0, 2, &chunk);
    let digest: [u8; 32] = Sha256::digest(&chunk).into();
    assert_eq!(key, digest);
    assert_eq!(poll_benchmark(&state, 0).chunk_keys, vec![key]);
    let start = start.unwrap();
    assert_eq!(start.uris.len(), 5);
    assert_eq!(start.uploader.uri, "http://a:10000");
    assert_eq!(start.encoder, EncoderCreate { message_bytes: 24, block_bytes: 8 });
    assert!(state.has_upload(&key));

    let candidates = upload_candidates(state.peer_store(), &key, 5);
    assert_eq!(candidates.len(), 10);
    let chosen = select_peers(&candidates, 5).unwrap();
    for i in 0..5 {
        let (index, peer) = chosen.entry(i);
        assert_eq!(
            start.uris[i],
            format!("{}/entropy/upload/invite/{}/{index}", peer.uri, hex_string(&key))
        );
    }
}

#[test]
fn chunk_upload_needs_enough_peers() {
    let mut few = State::new(config(), Store::new(host_peers(&vec![String::from("a")], 2)));
    benchmark_put(&mut few, "entropy");
    let (key, start) = entropy_upload_chunk(&mut few, 0, 0, &[1; 24]);
    assert!(start.is_none());
    assert!(!few.has_upload(&key));
    assert_eq!(poll_benchmark(&few, 0).chunk_keys, vec![key]);
}

#[test]
fn members_are_told_when_all_are_known() {
    let mut state = state();
    benchmark_put(&mut state, "entropy");
    let (key, _) = entropy_upload_chunk(&mut state, 0, 2, &[3; 24]);
    let text = hex_string(&key);
    assert_eq!(entropy_upload_query(&state, &text), key);
    assert_eq!(entropy_upload_up(&state, &text, 3), (key, 3));
    for index in 0..4 {
        let step = upload_query(&mut state, &key, member(index, "m"));
        assert_eq!(step.push.index, index);
        assert_eq!(step.push.fragment_bytes, 8);
        assert_eq!(
            step.push.uri,
            format!("http://m:{}/entropy/upload/push/{text}/{index}", 10000 + index)
        );
        assert!(step.complete.is_none());
    }
    let message = upload_query(&mut state, &key, member(9, "m")).complete.unwrap();
    assert_eq!(message.uploader.uri, "http://a:10000");
    assert_eq!(message.members.keys(), vec![0, 1, 2, 3, 9]);
    assert_eq!(message.uris[4], format!("http://m:10009/entropy/upload/members/{text}"));

    let download = entropy_download_chunk(&state, &key);
    assert_eq!(download.chunk_index, 2);
    assert_eq!(download.indices, vec![0, 1, 2, 3, 9]);
    assert_eq!(
        download.uris[4],
        format!("http://m:10009/entropy/download/pull/{text}/9")
    );
    assert_eq!(download.decoder, DecoderCreate { message_bytes: 24, block_bytes: 8 });
}

#[test]
fn upload_collects_answers_then_reports() {
    let mut state = state();
    benchmark_put(&mut state, "entropy");
    let (key, _) = entropy_upload_chunk(&mut state, 0, 0, &[3; 24]);
    let mut upload = ChunkUpload::new(key);
    for index in 0..5 {
        assert!(upload.is_collecting());
        assert!(!upload.is_done());
        let step = upload.answered(&mut state, member(index, "m"));
        assert_eq!(step.push.index, index);
        assert_eq!(step.complete.is_some(), index == 4);
    }
    assert!(!upload.is_collecting());
    for index in [4, 3, 3, 2, 1] {
        upload.reported(index);
        assert!(!upload.is_done());
    }
    upload.reported(0);
    assert!(upload.is_done());
}

#[test]
fn upload_ends_when_every_member_is_up() {
    let mut waiting = WaitingUp::new(&members_of(&[(1, "m"), (4, "m")]));
    assert!(!waiting.is_done());
    waiting.up(4);
    waiting.up(4);
    waiting.up(7);
    assert!(!waiting.is_done());
    waiting.up(1);
    assert!(waiting.is_done());
    assert!(WaitingUp::new(&SortedMap::new()).is_done());
}

#[test]
fn fragment_goes_to_its_peer() {
    let push = entropy_push_fragment(&config(), &[1; 32], 6, &member(6, "x").peer);
    assert_eq!(push.index, 6);
    assert_eq!(push.fragment_bytes, 8);
    assert_eq!(
        push.uri,
        format!("http://x:10006/entropy/upload/push/{}/6", "01".repeat(32))
    );
}

#[test]
fn invited_peer_stores_its_fragment() {
    let mut state = state();
    let text = "ab".repeat(32);
    let uploader = Peer::new(String::from("http://u:1"));
    let answer = entropy_upload_invite(&mut state, &text, 12, &uploader);
    assert_eq!(answer.uri, format!("http://u:1/entropy/upload/query/{text}"));
    assert_eq!(answer.member.index, 12);
    assert_eq!(answer.member.peer.uri, "http://a:10000");
    assert!(state.has_chunk(&[0xab; 32]));
    assert!(!can_pull(&state, &text, 12));

    let store = entropy_upload_push(&state, &text, 12);
    assert_eq!(store.file.root, "/chunks");
    assert_eq!(store.file.dir, text);
    assert_eq!(store.file.name, "12");
    let report = entropy_upload_members(&mut state, &text, members_of(&[(12, "a")]), &uploader);
    assert_eq!(report.token, store.token);
    assert_eq!(report.uri, format!("http://u:1/entropy/upload/up/{text}/12"));

    assert!(!state.has_fragment(&[0xab; 32]));
    fragment_stored(&mut state, store.token);
    assert!(state.has_fragment(&[0xab; 32]));
    assert!(can_pull(&state, &text, 12));
    assert!(!can_pull(&state, &text, 13));
    assert!(!can_pull(&state, "ab", 12));

    let pull = entropy_download_pull(&state, &text, 12);
    assert_eq!(
        (pull.file.root, pull.file.dir, pull.file.name),
        (store.file.root, store.file.dir, store.file.name)
    );
    assert!(pull.remove);
}

#[test]
fn fragment_stays_where_there_is_repair() {
    let mut state = state_with(StateConfig { repair: true, ..config() });
    let text = "ab".repeat(32);
    let uploader = Peer::new(String::from("http://u:1"));
    entropy_upload_invite(&mut state, &text, 12, &uploader);
    let store = entropy_upload_push(&state, &text, 12);
    assert!(store.token < state.next_token());
    fragment_stored(&mut state, store.token);
    assert!(!entropy_download_pull(&state, &text, 12).remove);
}

#[test]
fn nothing_is_uploaded_to_nobody() {
    let nobody = StateConfig { inner_n: 0, ..config() };
    let mut state = State::new(nobody, Store::new(Vec::new()));
    benchmark_put(&mut state, "entropy");
    let (key, start) = entropy_upload_chunk(&mut state, 0, 0, &[1; 24]);
    assert_eq!(start.unwrap().uris.len(), 0);
    assert!(state.has_upload(&key));
}

#[test]
fn each_chunk_has_a_token_of_its_own() {
    let mut state = state();
    let uploader = Peer::new(String::from("http://u:1"));
    let (one, two) = ("01".repeat(32), "02".repeat(32));
    entropy_upload_invite(&mut state, &one, 1, &uploader);
    entropy_upload_invite(&mut state, &two, 1, &uploader);
    let token = entropy_upload_push(&state, &one, 1).token;
    assert_ne!(token, entropy_upload_push(&state, &two, 1).token);
    fragment_stored(&mut state, token);
    assert!(state.has_fragment(&[1; 32]));
    assert!(!state.has_fragment(&[2; 32]));
}

#[test]
fn object_is_decoded_from_its_chunks() {
    let mut state = state();
    benchmark_put(&mut state, "entropy");
    let drawn = draw_object(state.config());
    entropy_put(&mut state, 0, &drawn, NOW);
    let (key, _) = entropy_upload_chunk(&mut state, 0, 0, &[3; 24]);
    finish_put(&mut state, 0, NOW);
    let get = entropy_get(&mut state, 0, LATER);
    assert_eq!(get.chunk_keys, vec![key]);
    assert_eq!(get.decoder, DecoderCreate { message_bytes: 48, block_bytes: 24 });
    assert_eq!(poll_benchmark(&state, 0).get_start, Some(LATER));
    assert_eq!(object_buffer(&state), 48);
}
