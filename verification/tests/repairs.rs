use entropy::app::{fragment_id, ChunkMember, Members, State, StateConfig};
use entropy::common::hex_string;
use entropy::entropy_upload::{entropy_upload_invite, entropy_upload_members, fragment_stored};
use entropy::hosts::host_peers;
use entropy::kademlia::kademlia_upload_push;
use entropy::peer::{Peer, Store};
use entropy::repair::{
    entropy_repair, entropy_repair_invite, entropy_repair_push, entropy_repair_query,
    entropy_repair_up, find_successor, repair_decoder, repair_fragment,
};
use entropy::sorted_map::SortedMap;
use entropy::wirehair::DecoderCreate;

fn state_of(uri: &str) -> State {
    let config = StateConfig {
        fragment_size: 8,
        inner_k: 3,
        inner_n: 3,
        outer_k: 2,
        outer_n: 4,
        chunk_path: String::from("/chunks"),
        repair: true,
        peer: Peer::new(uri.to_string()),
        peer_secret: Peer::signing_key(uri),
    };
    let hosts = vec![String::from("a"), String::from("b")];
    State::new(config, Store::new(host_peers(&hosts, 30)))
}

fn state() -> State {
    state_of("http://a:10000")
}

fn member(index: u32) -> ChunkMember {
    ChunkMember { index, peer: Peer::new(format!("http://m:{}", 10000 + index)) }
}

fn members_of(indices: &[u32]) -> Members {
    let mut members = SortedMap::new();
    for &index in indices {
        members.insert(index, member(index));
    }
    members
}

fn text() -> String {
    "ab".repeat(32)
}

const KEY: [u8; 32] = [0xab; 32];

fn with_chunk(index: u32, members: &[u32]) -> State {
    let mut state = state();
    let uploader = Peer::new(String::from("http://u:1"));
    entropy_upload_invite(&mut state, &text(), index, &uploader);
    entropy_upload_members(&mut state, &text(), members_of(members), &uploader);
    state
}

#[test]
fn oldest_member_leaves() {
    let mut state = with_chunk(1, &[1, 2, 3]);
    assert!(state.can_repair(0));
    let actions = state.repair(0);
    assert_eq!(actions.invites.len(), 0);
    assert!(!state.has_chunk(&KEY));
}

#[test]
fn other_members_stay() {
    let mut state = with_chunk(2, &[1, 2, 3]);
    let actions = state.repair(0);
    assert_eq!(actions.invites.len(), 0);
    let chunk = state.chunk(&KEY).unwrap();
    assert_eq!(chunk.members.keys(), vec![2, 3]);
    assert!(!chunk.repair_finish);
}

#[test]
fn newest_member_invites_a_new_one() {
    let mut state = with_chunk(3, &[1, 2, 3]);
    let actions = state.repair(0);
    assert_eq!(actions.invites.len(), 1);
    assert_eq!(actions.invites[0].key, KEY);
    let invitation = actions.invites[0].invitation.as_ref().unwrap();
    assert_eq!(invitation.index, 4);
    assert_eq!(invitation.members.keys(), vec![2, 3]);
    let place = fragment_id(&KEY, 4);
    let peer = state.peer_store().closest_peers(&place, 1)[0];
    assert_eq!(
        invitation.uri,
        format!("{}/entropy/repair/invite/{}/4", peer.uri, text())
    );
    assert!(state.chunk(&KEY).unwrap().repair_finish);
}

#[test]
fn repair_needs_members() {
    assert!(!with_chunk(1, &[]).can_repair(0));
    assert!(!with_chunk(2, &[1]).can_repair(0));
    assert!(with_chunk(1, &[1]).can_repair(0));
    assert!(state().can_repair(u32::MAX));
}

#[test]
fn successor_is_no_member() {
    let state = state();
    let nobody = SortedMap::new();
    let (index, peer) = find_successor(state.peer_store(), &KEY, &nobody, 7).unwrap();
    assert_eq!(index, 8);
    let mut members = SortedMap::new();
    members.insert(0, ChunkMember { index: 0, peer: peer.clone() });
    let (next, other) = find_successor(state.peer_store(), &KEY, &members, 7).unwrap();
    assert!(next > 8);
    assert_ne!(other.id, peer.id);
    assert!(find_successor(state.peer_store(), &KEY, &nobody, u32::MAX).is_none());
}

#[test]
fn first_keeper_hands_its_part_over() {
    let part_id = [0x31; 32];
    let name = hex_string(&part_id);
    let order = Vec::from_iter(
        state().peer_store().closest_peers(&part_id, 5).into_iter().map(|p| p.uri.clone()),
    );

    let mut first = state_of(&order[0]);
    kademlia_upload_push(&mut first, &name);
    assert!(first.can_repair(0));
    let actions = first.repair(0);
    assert_eq!(actions.handovers.len(), 1);
    assert_eq!(actions.handovers[0].part_id, part_id);
    assert_eq!(actions.handovers[0].file.root, "/chunks");
    assert_eq!(actions.handovers[0].file.name, name);
    assert_eq!(
        actions.handovers[0].uri,
        format!("{}/kademlia/repair/push/{name}", order[3])
    );
    assert!(!first.has_part(&part_id));

    let mut second = state_of(&order[1]);
    kademlia_upload_push(&mut second, &name);
    assert_eq!(second.repair(0).handovers.len(), 0);
    assert!(second.has_part(&part_id));
    let actions = second.repair(1);
    assert_eq!(
        actions.handovers[0].uri,
        format!("{}/kademlia/repair/push/{name}", order[4])
    );
}

#[test]
fn repair_needs_this_peer_among_the_keepers() {
    let part_id = [0x31; 32];
    let state = state();
    let order = state.peer_store().closest_peers(&part_id, 5);
    let mut last = state_of(&order[4].uri);
    kademlia_upload_push(&mut last, &hex_string(&part_id));
    assert!(!last.can_repair(0));
    assert!(last.can_repair(1));
    assert!(!last.can_repair(57));
    assert!(!last.can_repair(u32::MAX));
}

#[test]
fn invited_peer_asks_the_members() {
    let mut state = state();
    let start = entropy_repair_invite(&mut state, &text(), 9, members_of(&[2, 3]));
    assert_eq!(start.member.index, 9);
    assert_eq!(start.member.peer.uri, "http://a:10000");
    assert_eq!(
        start.uris,
        vec![
            format!("http://m:10002/entropy/repair/query/{}", text()),
            format!("http://m:10003/entropy/repair/query/{}", text()),
        ]
    );
    assert_eq!(repair_decoder(&state), DecoderCreate { message_bytes: 24, block_bytes: 8 });
    assert_eq!(entropy_repair_push(&state, &text(), 2), (KEY, 2));

    let fragment = repair_fragment(&state, &KEY, &start.member);
    assert_eq!(fragment.index, 9);
    assert_eq!(fragment.fragment_bytes, 8);
    assert_eq!(fragment.file.root, "/chunks");
    assert_eq!(fragment.file.dir, text());
    assert_eq!(fragment.file.name, "9");

    let up = entropy_repair(&mut state, &KEY, start.member);
    assert_eq!(up.index, 9);
    assert_eq!(up.members.keys(), vec![2, 3, 9]);
    assert_eq!(
        up.uris,
        vec![
            format!("http://m:10002/entropy/repair/up/{}", text()),
            format!("http://m:10003/entropy/repair/up/{}", text()),
        ]
    );
    assert!(state.has_fragment(&KEY));
}

#[test]
fn member_sends_its_fragment_to_the_new_one() {
    let mut state = with_chunk(2, &[1, 2, 3]);
    let token = state.chunk(&KEY).unwrap().has_fragment;
    fragment_stored(&mut state, token);
    let push = entropy_repair_query(&state, &text(), &member(9));
    assert_eq!(push.file.root, "/chunks");
    assert_eq!(push.file.dir, text());
    assert_eq!(push.file.name, "2");
    assert_eq!(push.uri, format!("http://m:10009/entropy/repair/push/{}/2", text()));
}

#[test]
fn end_of_a_repair_is_reported_once() {
    let mut state = with_chunk(3, &[1, 2, 3]);
    state.repair(0);
    assert_eq!(entropy_repair_up(&mut state, &text(), members_of(&[3])), None);
    assert_eq!(entropy_repair_up(&mut state, &text(), members_of(&[3, 4])), Some(KEY));
    assert_eq!(entropy_repair_up(&mut state, &text(), members_of(&[5])), None);
    let chunk = state.chunk(&KEY).unwrap();
    assert_eq!(chunk.members.keys(), vec![2, 3, 4, 5]);
}

#[test]
fn only_the_newest_of_the_members_leads() {
    let mut leaders = Vec::new();
    for index in [1, 2, 3] {
        let mut state = with_chunk(index, &[1, 2, 3]);
        if state.repair(0).invites.len() == 1 {
            leaders.push(index);
        }
    }
    assert_eq!(leaders, vec![3]);
}
