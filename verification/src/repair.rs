//! Repairing what is stored: in each epoch the oldest member of a chunk leaves,
//! and a new one takes a fragment over.

use crate::app::{
    closest_to_fragment, copy_members, make_index_uri, make_uri, parse_key, ChunkMember, ChunkState,
    Members, State,
};
#[allow(unused_imports)]
use crate::app::{
    fragment_goes_to_the_closest_peer, fragment_owner, is_key_text, le_bytes, route_index_uri,
    route_uri, text_key, ChunkView, StateView,
};
use crate::chunk::{ChunkKey, FragmentFile};
use crate::common::{decimal_string, hex_string, same_bytes};
#[allow(unused_imports)]
use crate::chunk::is_fragment_file;
#[allow(unused_imports)]
use crate::common::{decimal, hex};
use crate::entropy_upload::member_uris;
#[allow(unused_imports)]
use crate::entropy_upload::{addresses, fragment_awaited, fragment_written, keeps_chunk};
use crate::kademlia::PartFile;
use crate::peer::{Peer, PeerId, Store};
#[allow(unused_imports)]
use crate::hash::sha256_digest;
#[allow(unused_imports)]
use crate::peer::{closest, common_bits, sorted_by_id};
#[allow(unused_imports)]
use crate::sorted_map::{
    ascending, first_key_is_the_least, in_order, lemma_entries_map, lemma_filtered,
    lemma_finite_map_is_listed, orders, Key,
};
use crate::wirehair::{DecoderCreate, WirehairDecoder};
use vstd::prelude::*;

verus! {

/// The index of the oldest member.
pub open spec fn oldest(members: Map<u32, ChunkMember>) -> u32 {
    ascending(members)[0].0
}

/// The members that stay.
pub open spec fn staying(members: Map<u32, ChunkMember>) -> Map<u32, ChunkMember> {
    members.remove(oldest(members))
}

/// `index` is that of the newest member.
pub open spec fn is_newest(members: Map<u32, ChunkMember>, index: u32) -> bool {
    members.contains_key(index) && forall|i: u32| #[trigger] members.contains_key(i) ==> i <= index
}

/// This peer stays a member of the chunk.
pub open spec fn stays(chunk: ChunkView) -> bool {
    oldest(chunk.members) != chunk.index
}

/// This peer is the one that invites the new member of the chunk.
pub open spec fn leads(chunk: ChunkView) -> bool {
    stays(chunk) && is_newest(staying(chunk.members), chunk.index)
}

/// What is known of the chunk after the oldest member left.
pub open spec fn evicted(chunk: ChunkView) -> ChunkView {
    ChunkView {
        members: staying(chunk.members),
        repair_finish: chunk.repair_finish || leads(chunk),
        ..chunk
    }
}

/// The chunks after the oldest member of each left.
pub open spec fn evicted_chunks(chunks: Map<ChunkKey, ChunkView>) -> Map<ChunkKey, ChunkView> {
    Map::new(
        |k: ChunkKey| chunks.contains_key(k) && stays(chunks[k]),
        |k: ChunkKey| evicted(chunks[k]),
    )
}

/// Of the keys, those of the chunks whose new member this peer invites.
pub open spec fn led(chunks: Map<ChunkKey, ChunkView>, keys: Seq<ChunkKey>) -> Seq<ChunkKey> {
    keys.filter(|k: ChunkKey| leads(chunks[k]))
}

/// Members can leave: there is one, and where this peer stays one remains.
pub open spec fn evictable(chunk: ChunkView) -> bool {
    chunk.members.len() >= 1 && (stays(chunk) ==> chunk.members.len() >= 2)
}

/// The peer is one of the members.
pub open spec fn is_member(members: Map<u32, ChunkMember>, id: PeerId) -> bool {
    exists|i: u32| #[trigger] members.contains_key(i) && members[i].peer.id == id
}

/// The first index after `after` for which a peer is the closest that is no
/// member is `found`, if there is one.
pub open spec fn is_successor(
    peers: Seq<Peer>,
    key: ChunkKey,
    members: Map<u32, ChunkMember>,
    after: u32,
    found: Option<u32>,
) -> bool {
    match found {
        Some(index) => {
            &&& after < index
            &&& !is_member(members, fragment_owner(peers, key, index).id)
            &&& forall|i: u32|
                after < i < index ==> is_member(
                    members,
                    (#[trigger] fragment_owner(peers, key, i)).id,
                )
        },
        None => forall|i: u32|
            after < i ==> is_member(members, (#[trigger] fragment_owner(peers, key, i)).id),
    }
}

fn has_member(members: &Members, id: &PeerId) -> (r: bool)
    ensures
        r == is_member(members@, *id),
{
    let n = members.len();
    let ghost list = ascending(members@);
    proof {
        lemma_entries_map(list);
    }
    let mut i: usize = 0;
    while i < n
        invariant
            i <= n,
            n == members@.len(),
            list == ascending(members@),
            forall|j: int| 0 <= j < i ==> (#[trigger] list[j]).1.peer.id != *id,
        decreases n - i,
    {
        let (index, member) = members.entry(i);
        if same_bytes(&member.peer.id, id) {
            assert(members@.contains_key(index) && members@[index].peer.id == *id);
            return true;
        }
        i += 1;
    }
    proof {
        if is_member(members@, *id) {
            let k = choose|k: u32| #[trigger]
                members@.contains_key(k) && members@[k].peer.id == *id;
            let j = choose|j: int| 0 <= j < list.len() && (#[trigger] list[j]).0 == k;
            assert(list[j].1 == members@[k]);
        }
    }
    false
}

/// The new member of the chunk: the first peer after `after` that is no member
/// yet, with the index of its fragment.
pub fn find_successor(store: &Store, key: &ChunkKey, members: &Members, after: u32) -> (r: Option<
    (u32, Peer),
>)
    requires
        store@.len() > 0,
    ensures
        match r {
            Some((index, peer)) => {
                &&& is_successor(store@, *key, members@, after, Some(index))
                &&& peer == fragment_owner(store@, *key, index)
            },
            None => is_successor(store@, *key, members@, after, None),
        },
{
    let mut last = after;
    while last < u32::MAX
        invariant
            after <= last,
            store@.len() > 0,
            forall|i: u32|
                after < i <= last ==> is_member(
                    members@,
                    (#[trigger] fragment_owner(store@, *key, i)).id,
                ),
        decreases u32::MAX - last,
    {
        let index = last + 1;
        let peer = closest_to_fragment(store, key, index);
        if !has_member(members, &peer.id) {
            return Some((index, peer));
        }
        last = index;
    }
    None
}

/// An invitation to store fragment `index`: the members go to `uri`.
pub struct Invitation {
    pub index: u32,
    pub uri: String,
    pub members: Members,
}

/// The invitation of a new member of chunk `key`. There is none where every peer
/// that could be invited is a member.
pub struct RepairInvite {
    pub key: ChunkKey,
    pub invitation: Option<Invitation>,
}

/// `r` is the invitation that follows from `chunk`, which is stored under `key`.
pub open spec fn invites_successor(
    r: RepairInvite,
    peers: Seq<Peer>,
    key: ChunkKey,
    chunk: ChunkView,
) -> bool {
    let members = staying(chunk.members);
    &&& r.key == key
    &&& match r.invitation {
        Some(invitation) => {
            &&& is_successor(peers, key, members, chunk.index, Some(invitation.index))
            &&& invitation.uri@ == route_index_uri(
                fragment_owner(peers, key, invitation.index).uri@,
                "/entropy/repair/invite/"@,
                hex(key@),
                invitation.index,
            )
            &&& invitation.members@ == members
        },
        None => is_successor(peers, key, members, chunk.index, None),
    }
}

fn invite_successor(store: &Store, key: &ChunkKey, members: &Members, index: u32) -> (r: RepairInvite)
    requires
        store@.len() > 0,
    ensures
        forall|chunk: ChunkView|
            staying(chunk.members) == members@ && chunk.index == index
                ==> #[trigger] invites_successor(r, store@, *key, chunk),
{
    let hex_key = hex_string(key.as_slice());
    let invitation = match find_successor(store, key, members, index) {
        Some((next, peer)) => Some(
            Invitation {
                index: next,
                uri: make_index_uri(
                    peer.uri.as_str(),
                    "/entropy/repair/invite/",
                    hex_key.as_str(),
                    next,
                ),
                members: copy_members(members),
            },
        ),
        None => None,
    };
    RepairInvite { key: *key, invitation }
}

/// The peers that store the part in the epoch.
pub open spec fn keepers(peers: Seq<Peer>, part_id: [u8; 32], epoch: u32) -> Seq<Peer> {
    let found = closest(peers, part_id, (epoch + 4) as nat);
    if epoch <= found.len() {
        found.skip(epoch as int)
    } else {
        Seq::empty()
    }
}

/// This peer is among those that store the part in the epoch.
pub open spec fn keeps_part(peers: Seq<Peer>, own: PeerId, part_id: [u8; 32], epoch: u32) -> bool {
    exists|i: int|
        0 <= i < keepers(peers, part_id, epoch).len() && (#[trigger] keepers(
            peers,
            part_id,
            epoch,
        )[i]).id == own
}

/// This peer gives the part up after the epoch: it comes first.
pub open spec fn gives_up(peers: Seq<Peer>, own: PeerId, part_id: [u8; 32], epoch: u32) -> bool {
    keepers(peers, part_id, epoch)[0].id == own
}

/// Of the parts, those that this peer gives up.
pub open spec fn given_up(
    peers: Seq<Peer>,
    own: PeerId,
    parts: Seq<[u8; 32]>,
    epoch: u32,
) -> Seq<[u8; 32]> {
    parts.filter(|p: [u8; 32]| gives_up(peers, own, p, epoch))
}

/// Of the parts, those that this peer does not give up.
pub open spec fn kept(
    peers: Seq<Peer>,
    own: PeerId,
    parts: Set<[u8; 32]>,
    epoch: u32,
) -> Set<[u8; 32]> {
    parts.filter(|p: [u8; 32]| !gives_up(peers, own, p, epoch))
}

/// A part that is to be read from `file`, which is removed then, and sent to
/// `uri`. After that its end is reported.
pub struct PartHandover {
    pub part_id: [u8; 32],
    pub file: PartFile,
    pub uri: String,
}

/// `r` hands the part over to the last of the peers that store it.
pub open spec fn hands_over(
    r: PartHandover,
    peers: Seq<Peer>,
    root: String,
    part_id: [u8; 32],
    epoch: u32,
) -> bool {
    &&& r.part_id == part_id
    &&& r.file.root == root
    &&& r.file.name@ == hex(part_id@)
    &&& r.uri@ == route_uri(
        keepers(peers, part_id, epoch).last().uri@,
        "/kademlia/repair/push/"@,
        hex(part_id@),
    )
}

fn find_keepers(store: &Store, part_id: &[u8; 32], epoch: u32) -> (r: Vec<Peer>)
    requires
        epoch + 4 <= u32::MAX,
        epoch + 4 <= store@.len(),
    ensures
        r@ == keepers(store@, *part_id, epoch),
{
    let found = store.closest_peers(part_id, (epoch + 4) as usize);
    let ghost all = closest(store@, *part_id, (epoch + 4) as nat);
    proof {
        assert(found@.map_values(|p: &Peer| *p) == all);
        assert(found@.len() == all.len());
        assert forall|i: int| 0 <= i < all.len() implies *(#[trigger] found@[i]) == all[i] by {
            assert(found@.map_values(|p: &Peer| *p)[i] == *found@[i]);
        }
    }
    let mut peers: Vec<Peer> = Vec::new();
    let n = found.len();
    let mut i: usize = epoch as usize;
    if n <= i {
        assert(n == i ==> peers@ =~= all.skip(epoch as int));
        return peers;
    }
    while i < n
        invariant
            epoch <= i <= n,
            n == found@.len(),
            n == all.len(),
            forall|j: int| 0 <= j < n ==> *(#[trigger] found@[j]) == all[j],
            peers@.len() == i - epoch,
            forall|j: int| 0 <= j < i - epoch ==> #[trigger] peers@[j] == all[epoch + j],
        decreases n - i,
    {
        peers.push(found[i].clone());
        i += 1;
    }
    assert(peers@ =~= all.skip(epoch as int));
    peers
}

/// What is to be done in an epoch: the invitations, and the parts that are handed
/// over.
pub struct RepairActions {
    pub invites: Vec<RepairInvite>,
    pub handovers: Vec<PartHandover>,
}

/// Every chunk can lose its oldest member, and this peer is among those that
/// store each of its parts.
pub open spec fn repairable(s: StateView, epoch: u32) -> bool {
    &&& forall|k: ChunkKey| #[trigger]
        s.chunks.contains_key(k) ==> evictable(s.chunks[k]) && (leads(s.chunks[k]) ==> s.peers.len()
            > 0)
    &&& forall|p: [u8; 32]| #[trigger]
        s.parts.contains(p) ==> epoch + 4 <= u32::MAX && epoch + 4 <= s.peers.len() && keeps_part(
            s.peers,
            s.config.peer.id,
            p,
            epoch,
        )
}

/// The state after the epoch.
pub open spec fn repaired(s: StateView, epoch: u32) -> StateView {
    StateView {
        chunks: evicted_chunks(s.chunks),
        parts: kept(s.peers, s.config.peer.id, s.parts, epoch),
        ..s
    }
}

/// `r` is what is to be done in the epoch: an invitation for each chunk of which
/// this peer invites the new member, and a handover for each part that it gives up.
pub open spec fn is_repair(r: RepairActions, s: StateView, epoch: u32) -> bool {
    let keys = led(s.chunks, in_order(s.chunks.dom()));
    let parts = given_up(s.peers, s.config.peer.id, in_order(s.parts), epoch);
    &&& r.invites@.len() == keys.len()
    &&& forall|i: int|
        0 <= i < keys.len() ==> invites_successor(
            #[trigger] r.invites@[i],
            s.peers,
            keys[i],
            s.chunks[keys[i]],
        )
    &&& r.handovers@.len() == parts.len()
    &&& forall|i: int|
        0 <= i < parts.len() ==> hands_over(
            #[trigger] r.handovers@[i],
            s.peers,
            s.config.chunk_path,
            parts[i],
            epoch,
        )
}

/// Whether members can leave, and this peer then is the newest.
fn may_evict(chunk: &ChunkState) -> (r: (bool, bool))
    ensures
        r.0 == evictable(chunk@),
        r.0 ==> r.1 == leads(chunk@),
{
    let n = chunk.members.len();
    if n == 0 {
        return (false, false);
    }
    let (first, _) = chunk.members.entry(0);
    if first == chunk.index {
        return (true, false);
    }
    if n < 2 {
        return (false, false);
    }
    let ghost list = ascending(chunk.members@);
    proof {
        lemma_entries_map(list);
        assert(list[0].0.before(list[1].0));
    }
    match chunk.members.last_key() {
        Some(newest) => {
            proof {
                assert(chunk.members@.contains_key(list[1].0));
                assert(newest != first);
                if is_newest(staying(chunk.members@), chunk.index) {
                    assert(staying(chunk.members@).contains_key(newest));
                }
            }
            (true, newest == chunk.index)
        },
        None => (true, false),
    }
}

impl State {
    /// Whether `repair` can be called.
    pub fn can_repair(&self, repair_epoch: u32) -> (r: bool)
        ensures
            r == repairable(self@, repair_epoch),
    {
        let ghost s = self@;
        let keys = self.chunk_keys();
        let total = self.peer_store().len();
        let mut i: usize = 0;
        while i < keys.len()
            invariant
                i <= keys@.len(),
                s == self@,
                total == s.peers.len(),
                orders(keys@, s.chunks.dom()),
                forall|j: int|
                    0 <= j < i ==> evictable(s.chunks[#[trigger] keys@[j]]) && (leads(
                        s.chunks[keys@[j]],
                    ) ==> s.peers.len() > 0),
            decreases keys@.len() - i,
        {
            assert(s.chunks.dom().contains(keys@[i as int]));
            if let Some(chunk) = self.chunk(&keys[i]) {
                let (evictable, leads) = may_evict(chunk);
                if !evictable || (leads && total == 0) {
                    assert(s.chunks.contains_key(keys@[i as int]));
                    return false;
                }
            }
            i += 1;
        }
        assert forall|k: ChunkKey| #[trigger] s.chunks.contains_key(k) implies evictable(s.chunks[k])
            && (leads(s.chunks[k]) ==> s.peers.len() > 0) by {
            assert(s.chunks.dom().contains(k));
            let j = choose|j: int| 0 <= j < keys@.len() && keys@[j] == k;
            assert(keys@[j] == k);
        }
        let parts = self.part_ids();
        let mut i: usize = 0;
        while i < parts.len()
            invariant
                i <= parts@.len(),
                s == self@,
                total == s.peers.len(),
                orders(parts@, s.parts),
                forall|j: int|
                    0 <= j < i ==> repair_epoch + 4 <= u32::MAX && repair_epoch + 4 <= s.peers.len()
                        && keeps_part(s.peers, s.config.peer.id, #[trigger] parts@[j], repair_epoch),
            decreases parts@.len() - i,
        {
            assert(s.parts.contains(parts@[i as int]));
            if repair_epoch > u32::MAX - 4 || ((repair_epoch + 4) as usize) > total {
                return false;
            }
            let peers = find_keepers(self.peer_store(), &parts[i], repair_epoch);
            let mut found = false;
            let mut j: usize = 0;
            while j < peers.len()
                invariant
                    i < parts@.len(),
                    j <= peers@.len(),
                    s == self@,
                    peers@ == keepers(s.peers, parts@[i as int], repair_epoch),
                    found == exists|k: int|
                        0 <= k < j && (#[trigger] peers@[k]).id == s.config.peer.id,
                decreases peers@.len() - j,
            {
                if same_bytes(&peers[j].id, &self.config().peer.id) {
                    found = true;
                }
                j += 1;
            }
            if !found {
                assert(!keeps_part(s.peers, s.config.peer.id, parts@[i as int], repair_epoch));
                return false;
            }
            i += 1;
        }
        assert forall|p: [u8; 32]| #[trigger] s.parts.contains(p) implies repair_epoch + 4 <= u32::MAX
            && repair_epoch + 4 <= s.peers.len() && keeps_part(
            s.peers,
            s.config.peer.id,
            p,
            repair_epoch,
        ) by {
            let j = choose|j: int| 0 <= j < parts@.len() && parts@[j] == p;
            assert(parts@[j] == p);
        }
        true
    }

    /// Lets the oldest member of each chunk leave, and invites a new one for the
    /// chunks of which this peer is the newest member.
    fn evict(&mut self) -> (r: Vec<RepairInvite>)
        requires
            forall|k: ChunkKey| #[trigger]
                old(self)@.chunks.contains_key(k) ==> evictable(old(self)@.chunks[k]) && (leads(
                    old(self)@.chunks[k],
                ) ==> old(self)@.peers.len() > 0),
        ensures
            ({
                let s = old(self)@;
                let keys = led(s.chunks, in_order(s.chunks.dom()));
                &&& r@.len() == keys.len()
                &&& forall|i: int|
                    0 <= i < keys.len() ==> invites_successor(
                        #[trigger] r@[i],
                        s.peers,
                        keys[i],
                        s.chunks[keys[i]],
                    )
                &&& final(self)@ == (StateView { chunks: evicted_chunks(s.chunks), ..s })
            }),
    {
        let ghost s = self@;
        let ghost chunks = s.chunks;
        let keys = self.chunk_keys();
        let mut invites: Vec<RepairInvite> = Vec::new();
        let n = keys.len();
        let mut i: usize = 0;
        assert(keys@.take(0) =~= Seq::empty());
        assert(led(chunks, keys@.take(0)) =~= Seq::empty()) by {
            reveal(Seq::filter);
        }
        while i < n
            invariant
                i <= n,
                n == keys@.len(),
                chunks == s.chunks,
                orders(keys@, chunks.dom()),
                forall|k: ChunkKey| #[trigger]
                    chunks.contains_key(k) ==> evictable(chunks[k]) && (leads(chunks[k])
                        ==> s.peers.len() > 0),
                self@ == (StateView { chunks: self@.chunks, ..s }),
                forall|k: ChunkKey| #[trigger] self@.chunks.contains_key(k) ==> chunks.contains_key(k),
                forall|j: int|
                    0 <= j < i ==> (self@.chunks.contains_key(#[trigger] keys@[j]) <==> stays(
                        chunks[keys@[j]],
                    )),
                forall|j: int|
                    0 <= j < i && stays(chunks[keys@[j]]) ==> self@.chunks[#[trigger] keys@[j]]
                        == evicted(chunks[keys@[j]]),
                forall|j: int|
                    i <= j < n ==> self@.chunks.contains_key(#[trigger] keys@[j])
                        && self@.chunks[keys@[j]] == chunks[keys@[j]],
                invites@.len() == led(chunks, keys@.take(i as int)).len(),
                forall|j: int|
                    0 <= j < invites@.len() ==> invites_successor(
                        #[trigger] invites@[j],
                        s.peers,
                        led(chunks, keys@.take(i as int))[j],
                        chunks[led(chunks, keys@.take(i as int))[j]],
                    ),
            decreases n - i,
        {
            let key = keys[i];
            let ghost done = led(chunks, keys@.take(i as int));
            let ghost present = chunks[key];
            proof {
                assert(chunks.dom().contains(keys@[i as int]));
                assert forall|j: int| 0 <= j < n && j != i implies #[trigger] keys@[j] != key by {
                    if keys@[j] == key {
                        if j < i {
                            assert(keys@[j].before(keys@[i as int]));
                        } else {
                            assert(keys@[i as int].before(keys@[j]));
                        }
                        ChunkKey::irreflexive(key);
                    }
                }
                assert(keys@.take(i + 1).drop_last() =~= keys@.take(i as int));
                assert(keys@.take(i + 1).last() == key);
                assert(led(chunks, keys@.take(i + 1)) == if leads(present) {
                    done.push(key)
                } else {
                    done
                }) by {
                    reveal(Seq::filter);
                }
            }
            let mut chunk = self.take_chunk(&key);
            assert(chunk@ == present);
            let count = chunk.members.len();
            if let Some((gone, _)) = chunk.members.pop_first() {
                assert(chunk.members@ == staying(present.members));
                if gone != chunk.index {
                    if let Some(newest) = chunk.members.last_key() {
                        assert(newest == chunk.index <==> leads(present));
                        if newest == chunk.index {
                            chunk.repair_finish = true;
                            let invite = invite_successor(
                                self.peer_store(),
                                &key,
                                &chunk.members,
                                chunk.index,
                            );
                            assert(invites_successor(invite, s.peers, key, present));
                            invites.push(invite);
                        }
                    } else {
                        assert(chunk.members@.len() == count - 1);
                    }
                    assert(chunk@ =~= evicted(present));
                    self.set_chunk(key, chunk);
                }
            }
            i += 1;
        }
        assert(keys@.take(n as int) =~= keys@);
        proof {
            assert forall|k: ChunkKey| #[trigger]
                self@.chunks.contains_key(k) <==> evicted_chunks(chunks).contains_key(k) by {
                if chunks.contains_key(k) {
                    assert(chunks.dom().contains(k));
                    let j = choose|j: int| 0 <= j < keys@.len() && keys@[j] == k;
                    assert(keys@[j] == k);
                }
            }
            assert forall|k: ChunkKey| #[trigger] self@.chunks.contains_key(k) implies self@.chunks[k]
                == evicted_chunks(chunks)[k] by {
                assert(chunks.dom().contains(k));
                let j = choose|j: int| 0 <= j < keys@.len() && keys@[j] == k;
                assert(keys@[j] == k);
            }
            assert(self@.chunks =~= evicted_chunks(chunks));
        }
        invites
    }

    /// Gives up the parts of which this peer comes first among those that store
    /// them.
    fn hand_over(&mut self, epoch: u32) -> (r: Vec<PartHandover>)
        requires
            forall|p: [u8; 32]| #[trigger]
                old(self)@.parts.contains(p) ==> epoch + 4 <= u32::MAX && epoch + 4 <= old(
                    self,
                )@.peers.len() && keeps_part(
                    old(self)@.peers,
                    old(self)@.config.peer.id,
                    p,
                    epoch,
                ),
        ensures
            ({
                let s = old(self)@;
                let parts = given_up(s.peers, s.config.peer.id, in_order(s.parts), epoch);
                &&& r@.len() == parts.len()
                &&& forall|i: int|
                    0 <= i < parts.len() ==> hands_over(
                        #[trigger] r@[i],
                        s.peers,
                        s.config.chunk_path,
                        parts[i],
                        epoch,
                    )
                &&& final(self)@ == (StateView {
                    parts: kept(s.peers, s.config.peer.id, s.parts, epoch),
                    ..s
                })
            }),
    {
        let ghost s = self@;
        let ghost own = s.config.peer.id;
        let parts = self.part_ids();
        let mut handovers: Vec<PartHandover> = Vec::new();
        let n = parts.len();
        let mut i: usize = 0;
        assert(parts@.take(0) =~= Seq::empty());
        assert(given_up(s.peers, own, parts@.take(0), epoch) =~= Seq::empty()) by {
            reveal(Seq::filter);
        }
        while i < n
            invariant
                i <= n,
                n == parts@.len(),
                own == s.config.peer.id,
                orders(parts@, s.parts),
                forall|p: [u8; 32]| #[trigger]
                    s.parts.contains(p) ==> epoch + 4 <= u32::MAX && epoch + 4 <= s.peers.len()
                        && keeps_part(s.peers, own, p, epoch),
                self@ == (StateView { parts: self@.parts, ..s }),
                forall|p: [u8; 32]| #[trigger] self@.parts.contains(p) ==> s.parts.contains(p),
                forall|j: int|
                    0 <= j < i ==> (self@.parts.contains(#[trigger] parts@[j]) <==> !gives_up(
                        s.peers,
                        own,
                        parts@[j],
                        epoch,
                    )),
                forall|j: int| i <= j < n ==> self@.parts.contains(#[trigger] parts@[j]),
                handovers@.len() == given_up(s.peers, own, parts@.take(i as int), epoch).len(),
                forall|j: int|
                    0 <= j < handovers@.len() ==> hands_over(
                        #[trigger] handovers@[j],
                        s.peers,
                        s.config.chunk_path,
                        given_up(s.peers, own, parts@.take(i as int), epoch)[j],
                        epoch,
                    ),
            decreases n - i,
        {
            let part_id = parts[i];
            proof {
                assert(s.parts.contains(parts@[i as int]));
                assert forall|j: int| 0 <= j < n && j != i implies #[trigger] parts@[j] != part_id by {
                    if parts@[j] == part_id {
                        if j < i {
                            assert(parts@[j].before(parts@[i as int]));
                        } else {
                            assert(parts@[i as int].before(parts@[j]));
                        }
                        <[u8; 32]>::irreflexive(part_id);
                    }
                }
                let done = given_up(s.peers, own, parts@.take(i as int), epoch);
                assert(parts@.take(i + 1).drop_last() =~= parts@.take(i as int));
                assert(parts@.take(i + 1).last() == part_id);
                assert(given_up(s.peers, own, parts@.take(i + 1), epoch) == if gives_up(s.peers, own, part_id, epoch) {
                    done.push(part_id)
                } else {
                    done
                }) by {
                    reveal(Seq::filter);
                }
            }
            let peers = find_keepers(self.peer_store(), &part_id, epoch);
            if same_bytes(&peers[0].id, &self.config().peer.id) {
                let ghost before = self@;
                self.remove_part(&part_id);
                let hex_id = hex_string(part_id.as_slice());
                let uri = make_uri(
                    peers[peers.len() - 1].uri.as_str(),
                    "/kademlia/repair/push/",
                    hex_id.as_str(),
                );
                let file = PartFile { root: self.config().chunk_path.clone(), name: hex_id };
                handovers.push(PartHandover { part_id, file, uri });
            }
            i += 1;
        }
        assert(parts@.take(n as int) =~= parts@);
        proof {
            let left = kept(s.peers, s.config.peer.id, s.parts, epoch);
            assert forall|p: [u8; 32]| #[trigger] self@.parts.contains(p) <==> left.contains(p) by {
                if s.parts.contains(p) {
                    let j = choose|j: int| 0 <= j < parts@.len() && parts@[j] == p;
                    assert(parts@[j] == p);
                }
            }
            assert(self@.parts =~= left);
        }
        handovers
    }

    /// Does this peer's part of the repair in `repair_epoch`.
    pub fn repair(&mut self, repair_epoch: u32) -> (r: RepairActions)
        requires
            repairable(old(self)@, repair_epoch),
        ensures
            ({
                let s = old(self)@;
                let keys = led(s.chunks, in_order(s.chunks.dom()));
                let parts = given_up(s.peers, s.config.peer.id, in_order(s.parts), repair_epoch);
                &&& r.invites@.len() == keys.len()
                &&& forall|i: int|
                    0 <= i < keys.len() ==> invites_successor(
                        #[trigger] r.invites@[i],
                        s.peers,
                        keys[i],
                        s.chunks[keys[i]],
                    )
                &&& r.handovers@.len() == parts.len()
                &&& forall|i: int|
                    0 <= i < parts.len() ==> hands_over(
                        #[trigger] r.handovers@[i],
                        s.peers,
                        s.config.chunk_path,
                        parts[i],
                        repair_epoch,
                    )
                &&& final(self)@ == repaired(s, repair_epoch)
            }),
            is_repair(r, old(self)@, repair_epoch),
    {
        let invites = self.evict();
        let handovers = self.hand_over(repair_epoch);
        RepairActions { invites, handovers }
    }
}

/// What is to be done to join a chunk: `member` is sent to each of the URIs.
pub struct RepairStart {
    pub member: ChunkMember,
    pub uris: Vec<String>,
}

/// Agrees to store fragment `index` of the chunk that has `members`.
pub fn entropy_repair_invite(data: &mut State, chunk_key: &str, index: u32, members: Members) -> (r:
    RepairStart)
    requires
        is_key_text(chunk_key@),
        !old(data)@.chunks.contains_key(text_key(chunk_key@)),
        old(data)@.next_token < u64::MAX,
    ensures
        r.member == (ChunkMember { index, peer: old(data)@.config.peer }),
        addresses(r.uris@, members@, "/entropy/repair/query/"@, chunk_key@),
        final(data)@ == (StateView {
            chunks: old(data)@.chunks.insert(
                text_key(chunk_key@),
                (ChunkView {
                    index,
                    members: members@,
                    has_fragment: old(data)@.next_token,
                    repair_finish: false,
                }),
            ),
            next_token: (old(data)@.next_token + 1) as u64,
            ..old(data)@
        }),
        final(data)@.tokens_fresh(),
        !final(data)@.has_fragment(text_key(chunk_key@)),
        final(data)@ == fragment_awaited(old(data)@, text_key(chunk_key@), index, members@),
{
    let uris = member_uris(&members, "/entropy/repair/query/", chunk_key);
    data.add_chunk(parse_key(chunk_key), index, members);
    RepairStart { member: ChunkMember { index, peer: data.config().peer.clone() }, uris }
}

/// The call that makes the decoder for a chunk that is repaired.
pub fn repair_decoder(data: &State) -> (r: DecoderCreate)
    requires
        data@.config.chunk_bytes() <= u32::MAX,
    ensures
        r.message_bytes == data@.config.chunk_bytes(),
        r.block_bytes == data@.config.fragment_size,
{
    WirehairDecoder::create(data.config().chunk_size() as u64, data.config().fragment_size)
}

/// A fragment that is to be encoded again: block `index`, into a buffer of
/// `fragment_bytes` bytes, which is written to `file` in a new directory.
pub struct RepairedFragment {
    pub index: u32,
    pub fragment_bytes: u32,
    pub file: FragmentFile,
}

/// How the fragment of `member` is made once the chunk is decoded.
pub fn repair_fragment(data: &State, key: &ChunkKey, member: &ChunkMember) -> (r: RepairedFragment)
    ensures
        r.index == member.index,
        r.fragment_bytes == data@.config.fragment_size,
        is_fragment_file(r.file, data@.config.chunk_path@, hex(key@), member.index),
{
    RepairedFragment {
        index: member.index,
        fragment_bytes: data.config().fragment_size,
        file: FragmentFile {
            root: data.config().chunk_path.clone(),
            dir: hex_string(key.as_slice()),
            name: decimal_string(member.index as u64),
        },
    }
}

/// The report of a new member, for each of the others.
pub struct RepairUp {
    pub uris: Vec<String>,
    pub members: Members,
    pub index: u32,
}

/// The state after this peer joined the chunk as `member`.
pub open spec fn chunk_joined(s: StateView, key: ChunkKey, member: ChunkMember) -> StateView {
    let chunk = s.chunks[key];
    fragment_written(
        StateView {
            chunks: s.chunks.insert(
                key,
                (ChunkView { members: chunk.members.insert(member.index, member), ..chunk }),
            ),
            ..s
        },
        chunk.has_fragment,
    )
}

/// A peer that is invited to a chunk has no fragment of it until it joins; once it
/// has joined, it has the fragment, under the index that it was invited with, and the
/// members of the chunk are those that it was told and itself. Nothing changes for
/// another chunk.
pub proof fn invited_peer_joins_with_its_fragment(
    s: StateView,
    key: ChunkKey,
    index: u32,
    members: Map<u32, ChunkMember>,
    other: ChunkKey,
)
    requires
        s.tokens_fresh(),
        s.next_token < u64::MAX,
        other != key,
    ensures
        ({
            let asked = fragment_awaited(s, key, index, members);
            let own = ChunkMember { index, peer: s.config.peer };
            let t = chunk_joined(asked, key, own);
            &&& asked.chunks.contains_key(key) && asked.chunks[key].members == members
            &&& !asked.has_fragment(key)
            &&& t.chunks.contains_key(key)
            &&& t.has_fragment(key)
            &&& t.chunks[key].index == index
            &&& forall|i: u32| #[trigger]
                t.chunks[key].members.contains_key(i) <==> members.contains_key(i) || i == index
            &&& t.chunks[key].members[index] == own
            &&& forall|i: u32| #[trigger]
                members.contains_key(i) && i != index ==> t.chunks[key].members[i] == members[i]
            &&& !t.chunks[key].repair_finish
            &&& t.tokens_fresh()
            &&& keeps_chunk(s, asked, other) && keeps_chunk(s, t, other)
            &&& t.config == s.config && t.peers == s.peers && t.parts == s.parts
            &&& t.uploads == s.uploads && t.benchmarks == s.benchmarks
        }),
{
}

/// Joins the chunk, whose fragment is on disk now.
pub fn entropy_repair(data: &mut State, key: &ChunkKey, member: ChunkMember) -> (r: RepairUp)
    requires
        old(data)@.chunks.contains_key(*key),
    ensures
        ({
            let s = old(data)@;
            let chunk = s.chunks[*key];
            let members = chunk.members.insert(member.index, member);
            &&& addresses(r.uris@, chunk.members, "/entropy/repair/up/"@, hex(key@))
            &&& r.members@ == members
            &&& r.index == chunk.index
            &&& final(data)@ == (StateView {
                chunks: s.chunks.insert(*key, (ChunkView { members, ..chunk })),
                stored: s.stored.insert(chunk.has_fragment),
                ..s
            })
            &&& final(data)@.has_fragment(*key)
        }),
        final(data)@ == chunk_joined(old(data)@, *key, member),
        final(data)@.tokens_fresh(),
{
    let ghost s = data@;
    let mut chunk = data.take_chunk(key);
    let hex_key = hex_string(key.as_slice());
    let uris = member_uris(&chunk.members, "/entropy/repair/up/", hex_key.as_str());
    let _ = chunk.members.insert(member.index, member);
    let members = copy_members(&chunk.members);
    let index = chunk.index;
    let token = chunk.has_fragment;
    data.set_chunk(*key, chunk);
    crate::entropy_upload::fragment_stored(data, token);
    assert(data@ =~= (StateView {
        chunks: s.chunks.insert(*key, chunk@),
        stored: s.stored.insert(token),
        ..s
    }));
    RepairUp { uris, members, index }
}

/// A fragment that is to be read from `file` and sent to `uri`.
pub struct RepairPush {
    pub file: FragmentFile,
    pub uri: String,
}

/// Sends this peer's fragment of the chunk to the new member.
pub fn entropy_repair_query(data: &State, chunk_key: &str, member: &ChunkMember) -> (r: RepairPush)
    requires
        is_key_text(chunk_key@),
        data@.chunks.contains_key(text_key(chunk_key@)),
        data@.has_fragment(text_key(chunk_key@)),
    ensures
        ({
            let index = data@.chunks[text_key(chunk_key@)].index;
            &&& is_fragment_file(r.file, data@.config.chunk_path@, chunk_key@, index)
            &&& r.uri@ == route_index_uri(
                member.peer.uri@,
                "/entropy/repair/push/"@,
                chunk_key@,
                index,
            )
        }),
{
    let index: u32 = match data.chunk(&parse_key(chunk_key)) {
        Some(chunk) => chunk.index,
        None => 0,
    };
    RepairPush {
        file: FragmentFile {
            root: data.config().chunk_path.clone(),
            dir: chunk_key.to_owned(),
            name: decimal_string(index as u64),
        },
        uri: make_index_uri(member.peer.uri.as_str(), "/entropy/repair/push/", chunk_key, index),
    }
}

/// The repair that fragment `index` belongs to.
pub fn entropy_repair_push(data: &State, chunk_key: &str, index: u32) -> (r: (ChunkKey, u32))
    requires
        is_key_text(chunk_key@),
        data@.chunks.contains_key(text_key(chunk_key@)),
    ensures
        r == (text_key(chunk_key@), index),
{
    (parse_key(chunk_key), index)
}

/// A new member makes the chunk complete, and this peer reports that.
pub open spec fn reports(chunk: ChunkView, members: Map<u32, ChunkMember>, inner_n: u32) -> bool {
    chunk.repair_finish && chunk.members.union_prefer_right(members).len() >= inner_n
}

/// What is known of the chunk after a new member told its list of members.
pub open spec fn told(
    chunk: ChunkView,
    members: Map<u32, ChunkMember>,
    inner_n: u32,
) -> ChunkView {
    ChunkView {
        members: chunk.members.union_prefer_right(members),
        repair_finish: chunk.repair_finish && !reports(chunk, members, inner_n),
        ..chunk
    }
}

/// Takes the list of members that a new member tells, and gives back the key of
/// the chunk where the end of the repair is to be reported.
pub fn entropy_repair_up(data: &mut State, chunk_key: &str, members: Members) -> (r: Option<
    ChunkKey,
>)
    requires
        is_key_text(chunk_key@),
        old(data)@.chunks.contains_key(text_key(chunk_key@)),
    ensures
        ({
            let s = old(data)@;
            let key = text_key(chunk_key@);
            &&& r == (if reports(s.chunks[key], members@, s.config.inner_n) {
                Some(key)
            } else {
                None
            })
            &&& final(data)@ == (StateView {
                chunks: s.chunks.insert(key, told(s.chunks[key], members@, s.config.inner_n)),
                ..s
            })
        }),
        final(data)@.tokens_fresh(),
{
    let ghost s = data@;
    let key = parse_key(chunk_key);
    let mut chunk = data.take_chunk(&key);
    chunk.members.extend(members);
    let mut report = None;
    if chunk.members.len() >= data.config().inner_n as usize {
        if chunk.repair_finish {
            report = Some(key);
            chunk.repair_finish = false;
        }
    }
    assert(chunk@ =~= told(s.chunks[key], members@, s.config.inner_n));
    data.set_chunk(key, chunk);
    assert(data@ =~= (StateView { chunks: s.chunks.insert(key, chunk@), ..s }));
    report
}

/// In each epoch exactly one member leaves.
pub proof fn one_member_leaves(chunk: ChunkView)
    requires
        chunk.members.dom().finite(),
        evictable(chunk),
    ensures
        evicted(chunk).members.len() + 1 == chunk.members.len(),
        forall|i: u32| #[trigger]
            evicted(chunk).members.contains_key(i) <==> chunk.members.contains_key(i) && i != oldest(
                chunk.members,
            ),
        forall|i: u32| #[trigger]
            evicted(chunk).members.contains_key(i) ==> oldest(chunk.members) < i,
{
    let list = ascending(chunk.members);
    lemma_finite_map_is_listed(chunk.members);
    lemma_entries_map(list);
    assert forall|i: u32| #[trigger] evicted(chunk).members.contains_key(i) implies oldest(
        chunk.members,
    ) < i by {
        let j = choose|j: int| 0 <= j < list.len() && (#[trigger] list[j]).0 == i;
        assert(list[0].0.before(list[j].0));
    }
}

/// Where two members know the same list of members, at most one of them invites
/// a new one.
pub proof fn one_member_leads(a: ChunkView, b: ChunkView)
    requires
        a.members == b.members,
        leads(a),
        leads(b),
    ensures
        a.index == b.index,
{
    assert(staying(a.members).contains_key(a.index));
    assert(staying(b.members).contains_key(b.index));
}

/// Of two or more members the newest invites a new one.
pub proof fn newest_member_leads(chunk: ChunkView)
    requires
        chunk.members.dom().finite(),
        chunk.members.len() >= 2,
        is_newest(chunk.members, chunk.index),
    ensures
        leads(chunk),
{
    let list = ascending(chunk.members);
    lemma_finite_map_is_listed(chunk.members);
    lemma_entries_map(list);
    assert(list[0].0.before(list[1].0));
    assert(chunk.members.contains_key(list[1].0));
}

/// The peer that is invited is not a member yet, nor is its index in use.
pub proof fn successor_is_new(r: RepairInvite, peers: Seq<Peer>, key: ChunkKey, chunk: ChunkView)
    requires
        leads(chunk),
        invites_successor(r, peers, key, chunk),
        r.invitation is Some,
    ensures
        !is_member(
            staying(chunk.members),
            fragment_owner(peers, key, r.invitation->0.index).id,
        ),
        !staying(chunk.members).contains_key(r.invitation->0.index),
{
}

/// The end of a repair is reported once: after a report there is none until this
/// peer leads again.
pub proof fn repair_is_reported_once(
    chunk: ChunkView,
    members: Map<u32, ChunkMember>,
    more: Map<u32, ChunkMember>,
    inner_n: u32,
)
    requires
        reports(chunk, members, inner_n),
    ensures
        !reports(told(chunk, members, inner_n), more, inner_n),
{
}

/// A new member takes the place of the one that left, and the peer that invited
/// it reports the end of the repair, where the chunk was complete before.
pub proof fn new_member_completes_the_chunk(
    chunk: ChunkView,
    index: u32,
    member: ChunkMember,
    inner_n: u32,
)
    requires
        chunk.members.dom().finite(),
        leads(chunk),
        evictable(chunk),
        chunk.index < index,
        chunk.members.len() >= inner_n,
    ensures
        ({
            let members = staying(chunk.members).insert(index, member);
            &&& members.len() == chunk.members.len()
            &&& told(evicted(chunk), members, inner_n).members == members
            &&& reports(evicted(chunk), members, inner_n)
        }),
{
    one_member_leaves(chunk);
    let members = staying(chunk.members).insert(index, member);
    assert(!staying(chunk.members).contains_key(index));
    assert(members.dom() =~= staying(chunk.members).dom().insert(index));
    assert(staying(chunk.members).union_prefer_right(members) =~= members);
}

/// The peers that a part is first sent to are the first of those that store it in
/// epoch 0.
pub proof fn copies_start_at_the_closest(peers: Seq<Peer>, part_id: [u8; 32], i: int)
    requires
        closest(peers, part_id, 4).len() == 4,
        0 <= i < 3,
    ensures
        closest(peers, part_id, 3)[i] == keepers(peers, part_id, 0)[i],
{
}

/// From one epoch to the next the copies of a part move on by one peer: those
/// that keep it are the first of the next epoch, and the one that it is handed
/// over to is the last of them.
pub proof fn copies_move_on_by_one_peer(peers: Seq<Peer>, part_id: [u8; 32], epoch: u32, i: int)
    requires
        epoch < u32::MAX,
        closest(peers, part_id, (epoch + 5) as nat).len() == epoch + 5,
        1 <= i < 4,
    ensures
        keepers(peers, part_id, epoch).len() == 4,
        keepers(peers, part_id, epoch)[i] == keepers(peers, part_id, (epoch + 1) as u32)[i - 1],
        keepers(peers, part_id, epoch).last() == keepers(peers, part_id, (epoch + 1) as u32)[2],
{
}

/// The member of that index is the one of the least index.
pub open spec fn is_first(members: Map<u32, ChunkMember>, index: u32) -> bool {
    members.contains_key(index) && forall|i: u32| #[trigger] members.contains_key(i) ==> index <= i
}

/// The member of that index is the one of the greatest index.
pub open spec fn is_last(members: Map<u32, ChunkMember>, index: u32) -> bool {
    members.contains_key(index) && forall|i: u32| #[trigger] members.contains_key(i) ==> i <= index
}

proof fn lemma_oldest(members: Map<u32, ChunkMember>, first: u32)
    requires
        members.dom().finite(),
        members.len() >= 1,
        is_first(members, first),
    ensures
        oldest(members) == first,
{
    first_key_is_the_least(members);
}

/// In each epoch the oldest member of every chunk leaves, of every one of them: a
/// chunk of which this peer is the oldest member is not kept any more, and every
/// other chunk is kept, with all of its members but the oldest. Where this peer is
/// the newest member, it is to report the end of the repair. Nothing else changes,
/// and no chunk comes in.
pub proof fn oldest_member_of_every_chunk_leaves(
    s: StateView,
    epoch: u32,
    key: ChunkKey,
    first: u32,
)
    requires
        s.is_finite(),
        repairable(s, epoch),
        s.chunks.contains_key(key) ==> is_first(s.chunks[key].members, first),
    ensures
        ({
            let (t, c) = (repaired(s, epoch), s.chunks[key]);
            &&& t.chunks.contains_key(key) <==> s.chunks.contains_key(key) && c.index != first
            &&& t.chunks.contains_key(key) ==> {
                let d = t.chunks[key];
                &&& d.index == c.index
                &&& d.has_fragment == c.has_fragment
                &&& forall|i: u32| #[trigger]
                    d.members.contains_key(i) <==> c.members.contains_key(i) && i != first
                &&& forall|i: u32| #[trigger]
                    d.members.contains_key(i) ==> d.members[i] == c.members[i]
                &&& d.repair_finish <==> c.repair_finish || is_last(c.members, c.index)
            }
            &&& t.config == s.config
            &&& t.benchmarks == s.benchmarks
            &&& t.uploads == s.uploads
            &&& t.peers == s.peers
            &&& t.stored == s.stored
            &&& t.next_token == s.next_token
        }),
{
    if s.chunks.contains_key(key) {
        let c = s.chunks[key];
        lemma_oldest(c.members, first);
        if c.index != first {
            lemma_newest(c, first);
        }
    }
}

/// A member that is not the oldest leads exactly if it is the newest.
proof fn lemma_newest(c: ChunkView, first: u32)
    requires
        c.members.dom().finite(),
        c.members.len() >= 2,
        is_first(c.members, first),
        c.index != first,
    ensures
        leads(c) <==> is_last(c.members, c.index),
{
    lemma_oldest(c.members, first);
    if leads(c) {
        assert(staying(c.members).contains_key(c.index));
        assert forall|i: u32| #[trigger] c.members.contains_key(i) implies i <= c.index by {
            if i != first {
                assert(staying(c.members).contains_key(i));
            } else {
                assert(c.members.contains_key(c.index));
            }
        }
    }
    if is_last(c.members, c.index) {
        assert forall|i: u32| #[trigger] staying(c.members).contains_key(i) implies i <= c.index by {
            assert(c.members.contains_key(i));
        }
    }
}

/// In each epoch there is exactly one invitation for every chunk of which this peer
/// is the newest member and not the oldest, and none for any other.
pub proof fn newest_member_of_every_chunk_invites(
    r: RepairActions,
    s: StateView,
    epoch: u32,
    key: ChunkKey,
    first: u32,
)
    requires
        s.is_finite(),
        repairable(s, epoch),
        is_repair(r, s, epoch),
        s.chunks.contains_key(key) ==> is_first(s.chunks[key].members, first),
    ensures
        (exists|i: int| 0 <= i < r.invites@.len() && (#[trigger] r.invites@[i]).key == key)
            <==> s.chunks.contains_key(key) && s.chunks[key].index != first && is_last(
            s.chunks[key].members,
            s.chunks[key].index,
        ),
        forall|i: int, j: int|
            0 <= i < j < r.invites@.len() ==> (#[trigger] r.invites@[i]).key
                != (#[trigger] r.invites@[j]).key,
{
    let p = |k: ChunkKey| leads(s.chunks[k]);
    let keys = led(s.chunks, in_order(s.chunks.dom()));
    lemma_filtered(s.chunks.dom(), p);
    if s.chunks.contains_key(key) {
        lemma_oldest(s.chunks[key].members, first);
        if s.chunks[key].index != first {
            lemma_newest(s.chunks[key], first);
        }
    }
    assert(keys.contains(key) <==> s.chunks.dom().contains(key) && p(key));
    if keys.contains(key) {
        let i = choose|i: int| 0 <= i < keys.len() && keys[i] == key;
        assert(invites_successor(r.invites@[i], s.peers, keys[i], s.chunks[keys[i]]));
        assert(r.invites@[i].key == key);
    }
    if exists|i: int| 0 <= i < r.invites@.len() && (#[trigger] r.invites@[i]).key == key {
        let i = choose|i: int| 0 <= i < r.invites@.len() && (#[trigger] r.invites@[i]).key == key;
        assert(invites_successor(r.invites@[i], s.peers, keys[i], s.chunks[keys[i]]));
        assert(keys[i] == key);
    }
    assert forall|i: int, j: int| 0 <= i < j < r.invites@.len() implies (
    #[trigger] r.invites@[i]).key != (#[trigger] r.invites@[j]).key by {
        assert(invites_successor(r.invites@[i], s.peers, keys[i], s.chunks[keys[i]]));
        assert(invites_successor(r.invites@[j], s.peers, keys[j], s.chunks[keys[j]]));
        assert(keys[i] != keys[j]);
    }
}

/// An invitation goes to a peer that is no member, under an index that is greater
/// than that of every member. No peer of the network is closer to the digest of the
/// key and that index. It is the first index after that of this peer of which this
/// holds: for each one in between, a member is the peer that it belongs to. With the
/// invitation goes the list of all members but the oldest.
pub proof fn invitation_goes_to_the_next_peer(
    r: RepairActions,
    s: StateView,
    epoch: u32,
    i: int,
    first: u32,
    place: [u8; 32],
    q: int,
)
    requires
        s.is_finite(),
        repairable(s, epoch),
        is_repair(r, s, epoch),
        sorted_by_id(s.peers),
        0 <= i < r.invites@.len(),
        r.invites@[i].invitation is Some,
        is_first(s.chunks[r.invites@[i].key].members, first),
        place@ == sha256_digest(
            r.invites@[i].key@ + le_bytes(r.invites@[i].invitation->0.index),
        ),
        0 <= q < s.peers.len(),
    ensures
        ({
            let (key, invitation) = (r.invites@[i].key, r.invites@[i].invitation->0);
            let members = s.chunks[key].members;
            let peer = fragment_owner(s.peers, key, invitation.index);
            &&& s.chunks.contains_key(key)
            &&& s.peers.contains(peer)
            &&& common_bits(s.peers[q].id@, place@) <= common_bits(peer.id@, place@)
            &&& invitation.uri@ == peer.uri@ + "/entropy/repair/invite/"@ + hex(key@) + "/"@
                + decimal(invitation.index as nat)
            &&& forall|j: u32| #[trigger]
                members.contains_key(j) ==> j < invitation.index && (j == first
                    || members[j].peer.id != peer.id)
            &&& forall|j: u32|
                s.chunks[key].index < j < invitation.index ==> exists|k: u32| #[trigger]
                    members.contains_key(k) && k != first && members[k].peer.id == (
                    #[trigger] fragment_owner(s.peers, key, j)).id
            &&& forall|j: u32| #[trigger]
                invitation.members@.contains_key(j) <==> members.contains_key(j) && j != first
            &&& forall|j: u32| #[trigger]
                invitation.members@.contains_key(j) ==> invitation.members@[j] == members[j]
        }),
{
    let keys = led(s.chunks, in_order(s.chunks.dom()));
    let p = |k: ChunkKey| leads(s.chunks[k]);
    lemma_filtered(s.chunks.dom(), p);
    assert(invites_successor(r.invites@[i], s.peers, keys[i], s.chunks[keys[i]]));
    let (key, invitation) = (r.invites@[i].key, r.invites@[i].invitation->0);
    assert(in_order(s.chunks.dom()).filter(p).contains(key)) by {
        assert(keys[i] == key);
    }
    assert(s.chunks.dom().contains(key) && p(key));
    let c = s.chunks[key];
    lemma_oldest(c.members, first);
    lemma_newest(c, first);
    let peer = fragment_owner(s.peers, key, invitation.index);
    fragment_goes_to_the_closest_peer(s.peers, key, invitation.index, place, q);
    let members = staying(c.members);
    assert forall|j: u32| #[trigger] c.members.contains_key(j) implies j < invitation.index && (j
        == first || c.members[j].peer.id != peer.id) by {
        if j != first && c.members[j].peer.id == peer.id {
            assert(members.contains_key(j));
        }
    }
    assert forall|j: u32| c.index < j < invitation.index implies exists|k: u32| #[trigger]
        c.members.contains_key(k) && k != first && c.members[k].peer.id == (
        #[trigger] fragment_owner(s.peers, key, j)).id by {
        assert(is_member(members, fragment_owner(s.peers, key, j).id));
        let k = choose|k: u32| #[trigger]
            members.contains_key(k) && members[k].peer.id == fragment_owner(s.peers, key, j).id;
        assert(c.members.contains_key(k));
    }
}

/// Nobody is invited only where every index after that of this peer belongs to a
/// peer that stays a member.
pub proof fn nobody_is_invited_where_all_are_members(
    r: RepairActions,
    s: StateView,
    epoch: u32,
    i: int,
    first: u32,
    j: u32,
)
    requires
        s.is_finite(),
        repairable(s, epoch),
        is_repair(r, s, epoch),
        0 <= i < r.invites@.len(),
        r.invites@[i].invitation is None,
        is_first(s.chunks[r.invites@[i].key].members, first),
        s.chunks[r.invites@[i].key].index < j,
    ensures
        exists|k: u32| #[trigger]
            s.chunks[r.invites@[i].key].members.contains_key(k) && k != first
                && s.chunks[r.invites@[i].key].members[k].peer.id == fragment_owner(
                s.peers,
                r.invites@[i].key,
                j,
            ).id,
{
    let keys = led(s.chunks, in_order(s.chunks.dom()));
    let p = |k: ChunkKey| leads(s.chunks[k]);
    lemma_filtered(s.chunks.dom(), p);
    assert(invites_successor(r.invites@[i], s.peers, keys[i], s.chunks[keys[i]]));
    let key = r.invites@[i].key;
    assert(in_order(s.chunks.dom()).filter(p).contains(key)) by {
        assert(keys[i] == key);
    }
    assert(s.chunks.dom().contains(key));
    lemma_oldest(s.chunks[key].members, first);
    let id = fragment_owner(s.peers, key, j).id;
    let members = staying(s.chunks[key].members);
    assert(is_member(members, id));
    let k = choose|k: u32| #[trigger] members.contains_key(k) && members[k].peer.id == id;
    assert(s.chunks[key].members.contains_key(k));
}

/// In each epoch every part of which this peer comes first is handed over, every one
/// of them, once: where this peer is number `epoch` of those closest to the part,
/// counted from zero, the part goes to the last of them up to number `epoch + 3`,
/// and is not kept any more. Every other part is kept, and handed over to nobody.
pub proof fn every_part_of_the_first_keeper_moves_on(
    r: RepairActions,
    s: StateView,
    epoch: u32,
    part_id: [u8; 32],
)
    requires
        s.is_finite(),
        repairable(s, epoch),
        is_repair(r, s, epoch),
    ensures
        ({
            let near = closest(s.peers, part_id, (epoch + 4) as nat);
            let first = s.parts.contains(part_id) && near[epoch as int].id == s.config.peer.id;
            &&& s.parts.contains(part_id) ==> epoch < near.len()
            &&& repaired(s, epoch).parts.contains(part_id) <==> s.parts.contains(part_id) && !first
            &&& first <==> exists|i: int|
                0 <= i < r.handovers@.len() && (#[trigger] r.handovers@[i]).part_id == part_id
            &&& forall|i: int|
                0 <= i < r.handovers@.len() && (#[trigger] r.handovers@[i]).part_id == part_id ==> {
                    &&& r.handovers@[i].uri@ == near.last().uri@ + "/kademlia/repair/push/"@ + hex(
                        part_id@,
                    )
                    &&& r.handovers@[i].file.root@ == s.config.chunk_path@
                    &&& r.handovers@[i].file.name@ == hex(part_id@)
                }
        }),
        forall|i: int, j: int|
            0 <= i < j < r.handovers@.len() ==> (#[trigger] r.handovers@[i]).part_id
                != (#[trigger] r.handovers@[j]).part_id,
{
    let own = s.config.peer.id;
    let p = |p: [u8; 32]| gives_up(s.peers, own, p, epoch);
    let parts = given_up(s.peers, own, in_order(s.parts), epoch);
    let near = closest(s.peers, part_id, (epoch + 4) as nat);
    lemma_filtered(s.parts, p);
    if s.parts.contains(part_id) {
        let k = choose|k: int|
            0 <= k < keepers(s.peers, part_id, epoch).len() && (#[trigger] keepers(
                s.peers,
                part_id,
                epoch,
            )[k]).id == own;
        assert(epoch < near.len());
        assert(keepers(s.peers, part_id, epoch)[0] == near[epoch as int]);
        assert(keepers(s.peers, part_id, epoch).last() == near.last());
    }
    assert(parts.contains(part_id) <==> s.parts.contains(part_id) && p(part_id));
    if parts.contains(part_id) {
        let i = choose|i: int| 0 <= i < parts.len() && parts[i] == part_id;
        assert(hands_over(r.handovers@[i], s.peers, s.config.chunk_path, parts[i], epoch));
        assert(r.handovers@[i].part_id == part_id);
    }
    assert forall|i: int|
        0 <= i < r.handovers@.len() && (#[trigger] r.handovers@[i]).part_id
            == part_id implies parts.contains(part_id) && hands_over(
        r.handovers@[i],
        s.peers,
        s.config.chunk_path,
        part_id,
        epoch,
    ) by {
        assert(hands_over(r.handovers@[i], s.peers, s.config.chunk_path, parts[i], epoch));
        assert(parts[i] == part_id);
    }
    assert forall|i: int, j: int| 0 <= i < j < r.handovers@.len() implies (
    #[trigger] r.handovers@[i]).part_id != (#[trigger] r.handovers@[j]).part_id by {
        assert(hands_over(r.handovers@[i], s.peers, s.config.chunk_path, parts[i], epoch));
        assert(hands_over(r.handovers@[j], s.peers, s.config.chunk_path, parts[j], epoch));
        assert(parts[i] != parts[j]);
    }
}

/// An epoch can be repaired where every chunk has a member, and another one unless
/// this peer is the oldest, the network has a peer, and this peer is one of the four
/// closest to each of its parts, from number `epoch` on.
pub proof fn epoch_can_be_repaired(s: StateView, epoch: u32)
    requires
        s.is_finite(),
        s.peers.len() > 0,
        forall|k: ChunkKey| #[trigger]
            s.chunks.contains_key(k) ==> s.chunks[k].members.len() >= 2 || (
            s.chunks[k].members.len() == 1 && is_first(s.chunks[k].members, s.chunks[k].index)),
        forall|p: [u8; 32]| #[trigger]
            s.parts.contains(p) ==> epoch + 4 <= u32::MAX && epoch + 4 <= s.peers.len() && exists|
                i: int,
            |
                epoch <= i < closest(s.peers, p, (epoch + 4) as nat).len() && (#[trigger] closest(
                    s.peers,
                    p,
                    (epoch + 4) as nat,
                )[i]).id == s.config.peer.id,
    ensures
        repairable(s, epoch),
{
    assert forall|k: ChunkKey| #[trigger] s.chunks.contains_key(k) implies evictable(s.chunks[k]) by {
        let c = s.chunks[k];
        if c.members.len() == 1 {
            lemma_oldest(c.members, c.index);
        }
    }
    assert forall|p: [u8; 32]| #[trigger] s.parts.contains(p) implies keeps_part(
        s.peers,
        s.config.peer.id,
        p,
        epoch,
    ) by {
        let near = closest(s.peers, p, (epoch + 4) as nat);
        let i = choose|i: int|
            epoch <= i < near.len() && (#[trigger] near[i]).id == s.config.peer.id;
        assert(keepers(s.peers, p, epoch)[i - epoch] == near[i]);
    }
}

/// A peer that is told a list of members knows those of the list and those that it
/// knew; where it knew another one of the same index, the list is right. It reports
/// the end of the repair exactly if it is to report one and the chunk has all of its
/// members again, and then it is not to report it any more.
pub proof fn told_members_are_known(
    chunk: ChunkView,
    members: Map<u32, ChunkMember>,
    inner_n: u32,
)
    requires
        chunk.members.dom().finite(),
        members.dom().finite(),
    ensures
        ({
            let t = told(chunk, members, inner_n);
            let reported = reports(chunk, members, inner_n);
            &&& t.index == chunk.index
            &&& t.has_fragment == chunk.has_fragment
            &&& forall|i: u32| #[trigger]
                t.members.contains_key(i) <==> chunk.members.contains_key(i)
                    || members.contains_key(i)
            &&& forall|i: u32| #[trigger] members.contains_key(i) ==> t.members[i] == members[i]
            &&& forall|i: u32| #[trigger]
                chunk.members.contains_key(i) && !members.contains_key(i) ==> t.members[i]
                    == chunk.members[i]
            &&& reported <==> chunk.repair_finish && t.members.dom().len() >= inner_n
            &&& t.repair_finish <==> chunk.repair_finish && !reported
        }),
{
}

} // verus!
