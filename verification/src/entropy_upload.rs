//! Uploading a chunk: its fragments go to as many peers as there are fragments.

use crate::app::{
    closest_to_fragment, copy_members, make_index_uri, make_uri, parse_key, ChunkMember, Members, State, StateConfig, UploadChunkState,
};
#[allow(unused_imports)]
use crate::app::{
    blank_benchmark, fragment_goes_to_the_closest_peer, fragment_owner, is_key_text, le_bytes,
    put_begun, put_ended, route_index_uri, route_uri, text_key, BenchmarkView, ChunkView,
    StateView, Timestamp, UploadView,
};
use crate::chunk::{ChunkKey, FragmentFile};
use crate::common::{decimal_string, hex_string};
#[allow(unused_imports)]
use crate::chunk::is_fragment_file;
#[allow(unused_imports)]
use crate::common::{decimal, hex};
use crate::hash::sha256;
#[allow(unused_imports)]
use crate::hash::sha256_digest;
use crate::peer::{Peer, PeerId, Store};
#[allow(unused_imports)]
use crate::peer::{common_bits, sorted_by_id};
#[allow(unused_imports)]
use crate::sorted_map::{ascending, every_entry_is_listed};
use crate::sorted_map::SortedMap;
#[allow(unused_imports)]
use crate::wirehair::encoder_create;
use crate::wirehair::{EncoderCreate, WirehairEncoder};
use vstd::prelude::*;

verus! {

/// Of the first `m` candidates, each under its index, those of which no later
/// one is the same peer.
pub open spec fn last_offers(candidates: Seq<Peer>, m: int) -> Map<u32, Peer> {
    Map::new(
        |i: u32|
            i < m && forall|j: int| i < j < m ==> (#[trigger] candidates[j]).id != candidates[i as int].id,
        |i: u32| candidates[i as int],
    )
}

/// How many candidates are looked at, the first `m` of them being looked at
/// already, until `n` peers are found or none is left.
pub open spec fn looked_at(candidates: Seq<Peer>, n: nat, m: int) -> int
    decreases candidates.len() - m,
{
    if m >= candidates.len() {
        m
    } else if last_offers(candidates, m + 1).len() == n {
        m + 1
    } else {
        looked_at(candidates, n, m + 1)
    }
}

/// The peers that are chosen of the candidates, by index.
pub open spec fn chosen(candidates: Seq<Peer>, n: nat) -> Map<u32, Peer> {
    last_offers(candidates, looked_at(candidates, n, 0))
}

/// Chooses `inner_n` different peers of the candidates, if there are so many.
pub fn select_peers(candidates: &Vec<Peer>, inner_n: u32) -> (r: Option<SortedMap<u32, Peer>>)
    requires
        candidates@.len() <= u32::MAX,
    ensures
        match r {
            Some(peers) => {
                &&& peers@ == chosen(candidates@, inner_n as nat)
                &&& peers@.len() == inner_n
            },
            None => chosen(candidates@, inner_n as nat).len() != inner_n,
        },
{
    let ghost c = candidates@;
    let ghost n = inner_n as nat;
    let mut peers: SortedMap<u32, Peer> = SortedMap::new();
    let mut peer_id_index: SortedMap<PeerId, u32> = SortedMap::new();
    let mut index: usize = 0;
    assert(peers@ =~= last_offers(c, 0));
    while index < candidates.len()
        invariant_except_break
            looked_at(c, n, 0) == looked_at(c, n, index as int),
        invariant
            c == candidates@,
            n == inner_n,
            index <= c.len() <= u32::MAX,
            peers@ == last_offers(c, index as int),
            forall|id: PeerId| #[trigger]
                peer_id_index@.contains_key(id) ==> peers@.contains_key(peer_id_index@[id])
                    && c[peer_id_index@[id] as int].id == id,
            forall|j: int| 0 <= j < index ==> peer_id_index@.contains_key((#[trigger] c[j]).id),
        ensures
            peers@ == last_offers(c, looked_at(c, n, 0)),
        decreases c.len() - index,
    {
        let ghost before = peers@;
        let ghost known = peer_id_index@;
        let peer = candidates[index].clone();
        let duplicated = peer_id_index.insert(peer.id, index as u32);
        if let Some(duplicated_index) = duplicated {
            let _ = peers.remove(&duplicated_index);
        }
        let _ = peers.insert(index as u32, peer);
        proof {
            let now = last_offers(c, index + 1);
            let id = c[index as int].id;
            assert forall|k: u32| #[trigger] peers@.contains_key(k) == now.contains_key(k) by {
                if k < index {
                    if before.contains_key(k) {
                        assert(known.contains_key(c[k as int].id));
                        let d = known[c[k as int].id];
                        if d != k {
                            if d < k {
                                assert(c[k as int].id != c[d as int].id);
                            } else {
                                assert(c[d as int].id != c[k as int].id);
                            }
                        }
                        if now.contains_key(k) {
                            assert(c[index as int].id != c[k as int].id);
                        }
                    }
                }
            }
            assert(peers@ =~= now);
            assert forall|x: PeerId| #[trigger]
                peer_id_index@.contains_key(x) implies peers@.contains_key(peer_id_index@[x])
                && c[peer_id_index@[x] as int].id == x by {
                if x != id {
                    assert(known.contains_key(x));
                    let d = known[x];
                    assert(before.contains_key(d));
                    assert(now.contains_key(d));
                }
            }
        }
        index += 1;
        if peers.len() == inner_n as usize {
            break;
        }
    }
    if peers.len() == inner_n as usize {
        Some(peers)
    } else {
        None
    }
}

/// No two of the chosen peers are the same.
pub proof fn chosen_are_different(candidates: Seq<Peer>, n: nat, i: u32, j: u32)
    requires
        chosen(candidates, n).contains_key(i),
        chosen(candidates, n).contains_key(j),
        i != j,
    ensures
        chosen(candidates, n)[i].id != chosen(candidates, n)[j].id,
{
    if i < j {
        assert(candidates[j as int].id != candidates[i as int].id);
    } else {
        assert(candidates[i as int].id != candidates[j as int].id);
    }
}

/// How many different peers there are among the first `m` candidates.
pub open spec fn different(candidates: Seq<Peer>, m: int) -> nat {
    candidates.take(m).map_values(|p: Peer| p.id).to_set().len()
}

spec fn ids_of(candidates: Seq<Peer>, m: int) -> Set<PeerId> {
    candidates.take(m).map_values(|p: Peer| p.id).to_set()
}

proof fn lemma_ids(candidates: Seq<Peer>, m: int)
    requires
        0 <= m <= candidates.len(),
    ensures
        ids_of(candidates, m).finite(),
        forall|id: PeerId| #[trigger]
            ids_of(candidates, m).contains(id) <==> exists|i: int|
                0 <= i < m && (#[trigger] candidates[i]).id == id,
        m > 0 ==> ids_of(candidates, m) == ids_of(candidates, m - 1).insert(candidates[m - 1].id),
        m == 0 ==> ids_of(candidates, m).len() == 0,
{
    let list = candidates.take(m).map_values(|p: Peer| p.id);
    vstd::seq_lib::seq_to_set_is_finite(list);
    assert forall|id: PeerId| #[trigger] ids_of(candidates, m).contains(id) <==> exists|i: int|
        0 <= i < m && (#[trigger] candidates[i]).id == id by {
        if list.contains(id) {
            let i = choose|i: int| 0 <= i < list.len() && list[i] == id;
            assert(candidates[i].id == id);
        }
        if exists|i: int| 0 <= i < m && (#[trigger] candidates[i]).id == id {
            let i = choose|i: int| 0 <= i < m && (#[trigger] candidates[i]).id == id;
            assert(list[i] == id);
        }
    }
    if m > 0 {
        let front = candidates.take(m - 1).map_values(|p: Peer| p.id);
        assert(ids_of(candidates, m) =~= ids_of(candidates, m - 1).insert(candidates[m - 1].id)) by {
            assert forall|id: PeerId| #[trigger] list.contains(id) <==> front.contains(id) || id
                == candidates[m - 1].id by {
                if list.contains(id) {
                    let i = choose|i: int| 0 <= i < list.len() && list[i] == id;
                    if i < m - 1 {
                        assert(front[i] == id);
                    }
                }
                if front.contains(id) {
                    let i = choose|i: int| 0 <= i < front.len() && front[i] == id;
                    assert(list[i] == id);
                }
                assert(list[m - 1] == candidates[m - 1].id);
            }
        }
    } else {
        assert(ids_of(candidates, m) =~= Set::empty());
    }
}

/// The last of the first `m` candidates that is that peer.
proof fn lemma_last_offer(candidates: Seq<Peer>, m: int, i: int) -> (d: int)
    requires
        0 <= i < m <= candidates.len(),
    ensures
        i <= d < m,
        candidates[d].id == candidates[i].id,
        forall|j: int| d < j < m ==> (#[trigger] candidates[j]).id != candidates[d].id,
    decreases m - i,
{
    if exists|j: int| i < j < m && (#[trigger] candidates[j]).id == candidates[i].id {
        let j = choose|j: int| i < j < m && (#[trigger] candidates[j]).id == candidates[i].id;
        lemma_last_offer(candidates, m, j)
    } else {
        i
    }
}

/// One candidate is kept of each peer.
proof fn lemma_offers(candidates: Seq<Peer>, m: int)
    requires
        0 <= m <= candidates.len() <= u32::MAX,
    ensures
        last_offers(candidates, m).dom().finite(),
        last_offers(candidates, m).len() == different(candidates, m),
    decreases m,
{
    lemma_ids(candidates, m);
    let now = last_offers(candidates, m);
    if m == 0 {
        assert(now =~= Map::empty());
    } else {
        let before = last_offers(candidates, m - 1);
        let last = (m - 1) as u32;
        let id = candidates[m - 1].id;
        lemma_offers(candidates, m - 1);
        lemma_ids(candidates, m - 1);
        if ids_of(candidates, m - 1).contains(id) {
            let i = choose|i: int| 0 <= i < m - 1 && (#[trigger] candidates[i]).id == id;
            let d = lemma_last_offer(candidates, m - 1, i);
            assert(now.dom() =~= before.dom().remove(d as u32).insert(last)) by {
                assert forall|k: u32| #[trigger] now.contains_key(k) <==> (before.contains_key(k) && k
                    != d) || k == last by {
                    if k < m - 1 {
                        if before.contains_key(k) && k != d {
                            if candidates[k as int].id == id {
                                if d < k {
                                    assert(candidates[k as int].id != candidates[d].id);
                                } else {
                                    assert(candidates[d].id != candidates[k as int].id);
                                }
                            }
                        }
                        if now.contains_key(k) {
                            assert(candidates[m - 1].id != candidates[k as int].id);
                        }
                    }
                }
            }
            assert(before.dom().contains(d as u32));
            assert(ids_of(candidates, m) =~= ids_of(candidates, m - 1));
        } else {
            assert(now.dom() =~= before.dom().insert(last)) by {
                assert forall|k: u32| #[trigger] now.contains_key(k) <==> before.contains_key(k) || k
                    == last by {
                    if k < m - 1 {
                        assert(candidates[k as int].id != id);
                    }
                }
            }
        }
    }
}

proof fn lemma_looked_at(candidates: Seq<Peer>, n: nat, m: int)
    requires
        0 <= m <= candidates.len(),
    ensures
        m <= looked_at(candidates, n, m) <= candidates.len(),
        forall|x: int|
            m < x < looked_at(candidates, n, m) ==> (#[trigger] last_offers(candidates, x)).len()
                != n,
        looked_at(candidates, n, m) == candidates.len() || last_offers(
            candidates,
            looked_at(candidates, n, m),
        ).len() == n,
    decreases candidates.len() - m,
{
    if m < candidates.len() && last_offers(candidates, m + 1).len() != n {
        lemma_looked_at(candidates, n, m + 1);
    }
}

proof fn lemma_different_grows(candidates: Seq<Peer>, a: int, b: int)
    requires
        0 <= a <= b <= candidates.len(),
    ensures
        different(candidates, a) <= different(candidates, b) <= different(candidates, a) + (b - a),
    decreases b - a,
{
    if a < b {
        lemma_different_grows(candidates, a, b - 1);
        lemma_ids(candidates, b);
        lemma_ids(candidates, b - 1);
    }
}

/// Candidates are looked at one after the other until there are `n` different peers
/// among them, and no further; of each peer among them the last candidate is chosen,
/// under its own index. There are `n` chosen ones exactly if there are `n` different
/// peers among all candidates.
pub proof fn first_different_peers_are_chosen(candidates: Seq<Peer>, n: nat)
    requires
        candidates.len() <= u32::MAX,
        n > 0,
    ensures
        ({
            let (c, m) = (chosen(candidates, n), looked_at(candidates, n, 0));
            &&& 0 <= m <= candidates.len()
            &&& forall|x: int| 0 <= x < m ==> #[trigger] different(candidates, x) < n
            &&& m < candidates.len() ==> different(candidates, m) == n
            &&& c.dom().finite()
            &&& c.len() == different(candidates, m)
            &&& forall|i: u32| #[trigger]
                c.contains_key(i) <==> i < m && forall|j: int|
                    i < j < m ==> (#[trigger] candidates[j]).id != candidates[i as int].id
            &&& forall|i: u32| #[trigger] c.contains_key(i) ==> c[i] == candidates[i as int]
            &&& c.len() <= n
            &&& c.len() == n <==> different(candidates, candidates.len() as int) >= n
        }),
{
    let m = looked_at(candidates, n, 0);
    lemma_looked_at(candidates, n, 0);
    lemma_offers(candidates, m);
    assert forall|x: int| 0 <= x < m implies #[trigger] different(candidates, x) < n by {
        lemma_fewer_before(candidates, n, m, x);
    }
    lemma_different_grows(candidates, m, candidates.len() as int);
    if m > 0 {
        assert(different(candidates, m - 1) < n);
        lemma_different_grows(candidates, m - 1, m);
    } else {
        lemma_ids(candidates, 0);
    }
}

proof fn lemma_fewer_before(candidates: Seq<Peer>, n: nat, m: int, x: int)
    requires
        candidates.len() <= u32::MAX,
        n > 0,
        0 <= x < m <= candidates.len(),
        forall|y: int| 0 < y < m ==> (#[trigger] last_offers(candidates, y)).len() != n,
    ensures
        different(candidates, x) < n,
    decreases x,
{
    if x == 0 {
        lemma_ids(candidates, 0);
    } else {
        lemma_fewer_before(candidates, n, m, x - 1);
        lemma_different_grows(candidates, x - 1, x);
        lemma_offers(candidates, x);
        assert(last_offers(candidates, x).len() != n);
    }
}

/// Where there are no candidates, nobody is chosen.
pub proof fn nobody_is_chosen_of_none(n: nat)
    ensures
        chosen(Seq::empty(), n).dom().is_empty(),
        chosen(Seq::empty(), n).len() == 0,
{
    assert(chosen(Seq::empty(), n) =~= Map::empty());
}

/// The peers that are closest to the first `2 * inner_n` fragments of the chunk.
pub open spec fn candidates_of(peers: Seq<Peer>, key: ChunkKey, inner_n: u32) -> Seq<Peer> {
    Seq::new((2 * inner_n) as nat, |i: int| fragment_owner(peers, key, i as u32))
}

/// Looks up the peers that may store the fragments of the chunk.
pub fn upload_candidates(store: &Store, key: &ChunkKey, inner_n: u32) -> (r: Vec<Peer>)
    requires
        inner_n > 0 ==> store@.len() > 0,
        2 * inner_n <= u32::MAX,
    ensures
        r@ == candidates_of(store@, *key, inner_n),
{
    let mut r: Vec<Peer> = Vec::new();
    let mut index: u32 = 0;
    while index < inner_n * 2
        invariant
            inner_n > 0 ==> store@.len() > 0,
            index <= 2 * inner_n <= u32::MAX,
            r@.len() == index,
            forall|i: int| 0 <= i < index ==> #[trigger] r@[i] == fragment_owner(store@, *key, i as u32),
        decreases 2 * inner_n - index,
    {
        r.push(closest_to_fragment(store, key, index));
        index += 1;
    }
    assert(r@ =~= candidates_of(store@, *key, inner_n));
    r
}

/// There are two candidates for each fragment that is to be stored. Candidate `i` is
/// a peer of the network, and no peer of the network has more leading bits in common
/// with the digest of the key and `i` than that one has.
pub proof fn candidate_is_closest_to_its_fragment(
    peers: Seq<Peer>,
    key: ChunkKey,
    inner_n: u32,
    i: u32,
    place: [u8; 32],
    q: int,
)
    requires
        sorted_by_id(peers),
        i < 2 * inner_n,
        place@ == sha256_digest(key@ + le_bytes(i)),
        0 <= q < peers.len(),
    ensures
        candidates_of(peers, key, inner_n).len() == 2 * inner_n,
        peers.contains(candidates_of(peers, key, inner_n)[i as int]),
        common_bits(peers[q].id@, place@) <= common_bits(
            candidates_of(peers, key, inner_n)[i as int].id@,
            place@,
        ),
{
    fragment_goes_to_the_closest_peer(peers, key, i, place, q);
}

/// A peer that is invited to store fragment `index` of a chunk is closest to that
/// fragment: no peer of the network has more leading bits in common with the digest
/// of the key and the index. The other peers that are invited are other peers.
pub proof fn invited_peer_is_closest_to_its_fragment(
    peers: Seq<Peer>,
    key: ChunkKey,
    inner_n: u32,
    index: u32,
    place: [u8; 32],
    q: int,
)
    requires
        sorted_by_id(peers),
        2 * inner_n <= u32::MAX,
        chosen(candidates_of(peers, key, inner_n), inner_n as nat).contains_key(index),
        place@ == sha256_digest(key@ + le_bytes(index)),
        0 <= q < peers.len(),
    ensures
        ({
            let c = chosen(candidates_of(peers, key, inner_n), inner_n as nat);
            &&& index < 2 * inner_n
            &&& c.len() <= inner_n
            &&& peers.contains(c[index])
            &&& common_bits(peers[q].id@, place@) <= common_bits(c[index].id@, place@)
            &&& forall|i: u32| #[trigger]
                c.contains_key(i) && i != index ==> c[i].id != c[index].id
        }),
{
    let candidates = candidates_of(peers, key, inner_n);
    if inner_n == 0 {
        assert(candidates =~= Seq::empty());
        nobody_is_chosen_of_none(0);
        assert(chosen(candidates, 0).dom().contains(index));
    }
    first_different_peers_are_chosen(candidates, inner_n as nat);
    candidate_is_closest_to_its_fragment(peers, key, inner_n, index, place, q);
    let c = chosen(candidates, inner_n as nat);
    assert forall|i: u32| #[trigger] c.contains_key(i) && i != index implies c[i].id != c[index].id by {
        chosen_are_different(candidates, inner_n as nat, i, index);
    }
}

/// What is to be done to upload a chunk: an encoder for it, and a message at each
/// of the URIs, which carries the uploader.
pub struct UploadStart {
    pub uris: Vec<String>,
    pub uploader: Peer,
    pub encoder: EncoderCreate,
}

/// One URI for each of the peers, in ascending order of their indices, that
/// invites the peer to store the fragment of that index.
pub open spec fn invites(uris: Seq<String>, peers: Map<u32, Peer>, key: ChunkKey) -> bool {
    &&& uris.len() == peers.len()
    &&& forall|i: int|
        0 <= i < uris.len() ==> (#[trigger] uris[i])@ == route_index_uri(
            ascending(peers)[i].1.uri@,
            "/entropy/upload/invite/"@,
            hex(key@),
            ascending(peers)[i].0,
        )
}

/// `uri` is that of an invitation of one of the peers, for its fragment.
pub open spec fn invites_one(uri: Seq<char>, peers: Map<u32, Peer>, key: ChunkKey) -> bool {
    exists|index: u32| #[trigger]
        peers.contains_key(index) && uri == peers[index].uri@ + "/entropy/upload/invite/"@ + hex(
            key@,
        ) + "/"@ + decimal(index as nat)
}

/// Every one of the peers is invited, at its own URI and for its own fragment, and
/// nobody else is.
pub proof fn every_peer_is_invited_for_its_fragment(
    uris: Seq<String>,
    peers: Map<u32, Peer>,
    key: ChunkKey,
)
    requires
        peers.dom().finite(),
        invites(uris, peers, key),
    ensures
        uris.len() == peers.len(),
        forall|index: u32| #[trigger]
            peers.contains_key(index) ==> exists|i: int|
                0 <= i < uris.len() && (#[trigger] uris[i])@ == peers[index].uri@
                    + "/entropy/upload/invite/"@ + hex(key@) + "/"@ + decimal(index as nat),
        forall|i: int| 0 <= i < uris.len() ==> invites_one((#[trigger] uris[i])@, peers, key),
{
    every_entry_is_listed(peers);
    let list = ascending(peers);
    assert forall|index: u32| #[trigger] peers.contains_key(index) implies exists|i: int|
        0 <= i < uris.len() && (#[trigger] uris[i])@ == peers[index].uri@
            + "/entropy/upload/invite/"@ + hex(key@) + "/"@ + decimal(index as nat) by {
        let i = choose|i: int| 0 <= i < list.len() && #[trigger] list[i] == (index, peers[index]);
        assert(uris[i]@ == route_index_uri(
            list[i].1.uri@,
            "/entropy/upload/invite/"@,
            hex(key@),
            list[i].0,
        ));
    }
    assert forall|i: int| 0 <= i < uris.len() implies invites_one(
        (#[trigger] uris[i])@,
        peers,
        key,
    ) by {
        assert(peers.contains_key(list[i].0));
    }
}

pub(crate) fn invite_uris(peers: &SortedMap<u32, Peer>, key: &ChunkKey) -> (r: Vec<String>)
    ensures
        invites(r@, peers@, *key),
{
    let hex_key = hex_string(key.as_slice());
    let n = peers.len();
    let mut uris: Vec<String> = Vec::new();
    let mut i: usize = 0;
    while i < n
        invariant
            i <= n,
            n == peers@.len(),
            hex_key@ == hex(key@),
            uris@.len() == i,
            forall|j: int|
                0 <= j < i ==> (#[trigger] uris@[j])@ == route_index_uri(
                    ascending(peers@)[j].1.uri@,
                    "/entropy/upload/invite/"@,
                    hex(key@),
                    ascending(peers@)[j].0,
                ),
        decreases n - i,
    {
        let (index, peer) = peers.entry(i);
        uris.push(
            make_index_uri(peer.uri.as_str(), "/entropy/upload/invite/", hex_key.as_str(), index),
        );
        i += 1;
    }
    uris
}

/// Starts the upload of chunk `chunk_index`, whose digest is `key`, to `peers`.
pub fn start_upload(
    data: &mut State,
    chunk_index: u32,
    key: &ChunkKey,
    peers: &SortedMap<u32, Peer>,
    chunk: &[u8],
) -> (r: UploadStart)
    ensures
        invites(r.uris@, peers@, *key),
        r.uploader == old(data)@.config.peer,
        r.encoder == encoder_create(chunk@, old(data)@.config.fragment_size),
        r.encoder.message_bytes == chunk@.len(),
        final(data)@ == (StateView {
            uploads: old(data)@.uploads.insert(
                *key,
                (UploadView { chunk_index, members: Map::empty() }),
            ),
            ..old(data)@
        }),
{
    let upload = UploadChunkState { chunk_index, members: SortedMap::new() };
    data.set_upload(*key, upload);
    assert(upload@ =~= (UploadView { chunk_index, members: Map::empty() }));
    UploadStart {
        uris: invite_uris(peers, key),
        uploader: data.config().peer.clone(),
        encoder: WirehairEncoder::create(chunk, data.config().fragment_size),
    }
}

/// What the state is after the key of a chunk of benchmark `id` became known.
pub open spec fn with_chunk_key(s: StateView, id: int, key: ChunkKey) -> StateView {
    StateView {
        benchmarks: s.benchmarks.update(
            id,
            (BenchmarkView {
                chunk_keys: s.benchmarks[id].chunk_keys.push(key),
                ..s.benchmarks[id]
            }),
        ),
        ..s
    }
}

/// Enough different peers are close to the fragments of the chunk.
pub open spec fn finds_peers(s: StateView, key: ChunkKey) -> bool {
    let inner_n = s.config.inner_n;
    chosen(candidates_of(s.peers, key, inner_n), inner_n as nat).len() == inner_n
}

/// What the state is after chunk `chunk_index` of the object of benchmark `id` was
/// taken up.
pub open spec fn chunk_taken_up(
    s: StateView,
    id: int,
    chunk_index: u32,
    key: ChunkKey,
) -> StateView {
    let t = with_chunk_key(s, id, key);
    if finds_peers(s, key) {
        StateView {
            uploads: s.uploads.insert(key, (UploadView { chunk_index, members: Map::empty() })),
            ..t
        }
    } else {
        t
    }
}

/// What the state is after chunks of the object of benchmark `id` were taken up, one
/// after the other, each with its index.
pub open spec fn chunks_taken_up(s: StateView, id: int, chunks: Seq<(u32, ChunkKey)>) -> StateView
    decreases chunks.len(),
{
    if chunks.len() == 0 {
        s
    } else {
        chunk_taken_up(
            chunks_taken_up(s, id, chunks.drop_last()),
            id,
            chunks.last().0,
            chunks.last().1,
        )
    }
}

/// Chunks that are taken up for a benchmark are recorded, all of them, in that
/// order, after those that were recorded before: each with the digest of its bytes.
/// Nothing else of the benchmark changes, and no other benchmark.
pub proof fn every_chunk_that_is_taken_up_is_recorded(
    s: StateView,
    id: int,
    chunks: Seq<(u32, ChunkKey)>,
    contents: Seq<Seq<u8>>,
)
    requires
        0 <= id < s.benchmarks.len(),
        chunks.len() == contents.len(),
        forall|i: int|
            0 <= i < chunks.len() ==> (#[trigger] chunks[i]).1@ == sha256_digest(contents[i]),
    ensures
        ({
            let t = chunks_taken_up(s, id, chunks);
            let (a, b) = (s.benchmarks[id], t.benchmarks[id]);
            let n = a.chunk_keys.len() as int;
            &&& b.chunk_keys.len() == n + chunks.len()
            &&& forall|i: int| 0 <= i < n ==> #[trigger] b.chunk_keys[i] == a.chunk_keys[i]
            &&& forall|i: int|
                0 <= i < chunks.len() ==> b.chunk_keys[n + i]@ == sha256_digest(
                    #[trigger] contents[i],
                )
            &&& b.object_hash == a.object_hash
            &&& b.put_start == a.put_start && b.put_end == a.put_end
            &&& b.get_start == a.get_start && b.get_end == a.get_end
            &&& b.part_ids == a.part_ids
            &&& t.benchmarks.len() == s.benchmarks.len()
            &&& forall|i: int|
                0 <= i < s.benchmarks.len() && i != id ==> #[trigger] t.benchmarks[i]
                    == s.benchmarks[i]
            &&& t.config == s.config && t.peers == s.peers
            &&& t.chunks == s.chunks && t.parts == s.parts
            &&& t.stored == s.stored && t.next_token == s.next_token
        }),
    decreases chunks.len(),
{
    if chunks.len() > 0 {
        let (front, known) = (chunks.drop_last(), contents.drop_last());
        assert forall|i: int| 0 <= i < front.len() implies (#[trigger] front[i]).1@
            == sha256_digest(known[i]) by {
            assert(chunks[i].1@ == sha256_digest(contents[i]));
        }
        every_chunk_that_is_taken_up_is_recorded(s, id, front, known);
        let (t, u) = (chunks_taken_up(s, id, chunks), chunks_taken_up(s, id, front));
        let n = s.benchmarks[id].chunk_keys.len() as int;
        let last = chunks.len() - 1;
        assert(chunks[last].1@ == sha256_digest(contents[last]));
        assert(t.benchmarks[id].chunk_keys == u.benchmarks[id].chunk_keys.push(chunks[last].1));
        assert forall|i: int| 0 <= i < chunks.len() implies t.benchmarks[id].chunk_keys[n + i]@
            == sha256_digest(#[trigger] contents[i]) by {
            if i < last {
                assert(known[i] == contents[i]);
                assert(u.benchmarks[id].chunk_keys[n + i]@ == sha256_digest(known[i]));
            }
        }
    }
}

/// Where an object is put in chunks, a get that follows asks for each chunk of that
/// put, by the digest of its bytes, and for no other; and it can follow.
pub proof fn get_asks_for_every_chunk_of_the_put(
    s: StateView,
    id: int,
    hash: Seq<u8>,
    put_start: Timestamp,
    put_end: Timestamp,
    chunks: Seq<(u32, ChunkKey)>,
    contents: Seq<Seq<u8>>,
)
    requires
        0 <= id < s.benchmarks.len(),
        s.benchmarks[id] == blank_benchmark(),
        chunks.len() == contents.len(),
        forall|i: int|
            0 <= i < chunks.len() ==> (#[trigger] chunks[i]).1@ == sha256_digest(contents[i]),
    ensures
        ({
            let t = chunks_taken_up(put_begun(s, id, hash, put_start), id, chunks);
            let b = put_ended(t, id, put_end).benchmarks[id];
            &&& b.chunk_keys.len() == contents.len()
            &&& forall|i: int|
                0 <= i < contents.len() ==> b.chunk_keys[i]@ == sha256_digest(
                    #[trigger] contents[i],
                )
            &&& b.object_hash == hash
            &&& b.put_start == Some(put_start) && b.put_end == Some(put_end)
            &&& b.get_start is None && b.get_end is None
        }),
{
    let a = put_begun(s, id, hash, put_start);
    every_chunk_that_is_taken_up_is_recorded(a, id, chunks, contents);
    let t = chunks_taken_up(a, id, chunks);
    assert forall|i: int| 0 <= i < contents.len() implies put_ended(
        t,
        id,
        put_end,
    ).benchmarks[id].chunk_keys[i]@ == sha256_digest(#[trigger] contents[i]) by {
        assert(t.benchmarks[id].chunk_keys[0 + i]@ == sha256_digest(contents[i]));
    }
}

/// A chunk for which there are enough different peers is uploaded, under its key,
/// with its index, and has no members yet; where there are too few of them, it is
/// not. Other uploads go on as they were.
pub proof fn chunk_that_finds_peers_is_uploaded(
    s: StateView,
    id: int,
    chunk_index: u32,
    key: ChunkKey,
    other: ChunkKey,
)
    requires
        2 * s.config.inner_n <= u32::MAX,
        other != key,
    ensures
        ({
            let t = chunk_taken_up(s, id, chunk_index, key);
            let candidates = candidates_of(s.peers, key, s.config.inner_n);
            let enough = different(candidates, candidates.len() as int) >= s.config.inner_n;
            &&& enough ==> {
                &&& t.uploads.contains_key(key)
                &&& t.uploads[key].chunk_index == chunk_index
                &&& t.uploads[key].members.dom().is_empty()
            }
            &&& !enough ==> t.uploads == s.uploads
            &&& t.uploads.contains_key(other) == s.uploads.contains_key(other)
            &&& s.uploads.contains_key(other) ==> t.uploads[other] == s.uploads[other]
        }),
{
    let inner_n = s.config.inner_n;
    let candidates = candidates_of(s.peers, key, inner_n);
    if inner_n == 0 {
        assert(candidates =~= Seq::empty());
        nobody_is_chosen_of_none(0);
    } else {
        first_different_peers_are_chosen(candidates, inner_n as nat);
    }
}

/// Takes up `chunk`, which is number `chunk_index` of the object of benchmark
/// `id`: records its key, and starts its upload, unless too few different peers
/// are close to its fragments.
pub fn entropy_upload_chunk(data: &mut State, id: usize, chunk_index: u32, chunk: &[u8]) -> (r: (
    ChunkKey,
    Option<UploadStart>,
))
    requires
        id < old(data)@.benchmarks.len(),
        old(data)@.config.inner_n > 0 ==> old(data)@.peers.len() > 0,
        2 * old(data)@.config.inner_n <= u32::MAX,
    ensures
        r.0@ == sha256_digest(chunk@),
        ({
            let s = old(data)@;
            let inner_n = s.config.inner_n;
            let peers = chosen(candidates_of(s.peers, r.0, inner_n), inner_n as nat);
            match r.1 {
                Some(start) => {
                    &&& peers.len() == inner_n
                    &&& invites(start.uris@, peers, r.0)
                    &&& start.uploader == s.config.peer
                    &&& start.encoder == encoder_create(chunk@, s.config.fragment_size)
                    &&& start.encoder.message_bytes == chunk@.len()
                    &&& final(data)@ == (StateView {
                        uploads: s.uploads.insert(
                            r.0,
                            (UploadView { chunk_index, members: Map::empty() }),
                        ),
                        ..with_chunk_key(s, id as int, r.0)
                    })
                },
                None => {
                    &&& peers.len() != inner_n
                    &&& final(data)@ == with_chunk_key(s, id as int, r.0)
                },
            }
        }),
        final(data)@ == chunk_taken_up(old(data)@, id as int, chunk_index, r.0),
{
    let key = sha256(chunk);
    let mut benchmark = crate::app::poll_benchmark(data, id);
    benchmark.chunk_keys.push(key);
    data.set_benchmark(id, benchmark);
    assert(data@ =~= with_chunk_key(old(data)@, id as int, key));
    let candidates = upload_candidates(data.peer_store(), &key, data.config().inner_n);
    match select_peers(&candidates, data.config().inner_n) {
        Some(peers) => (key, Some(start_upload(data, chunk_index, &key, &peers, chunk))),
        None => (key, None),
    }
}

/// A fragment that is to be encoded and sent: block `index`, into a buffer of
/// `fragment_bytes` bytes, to `uri`.
pub struct PushFragment {
    pub index: u32,
    pub fragment_bytes: u32,
    pub uri: String,
}

/// How fragment `index` of the chunk gets to `peer`.
pub fn entropy_push_fragment(config: &StateConfig, key: &ChunkKey, index: u32, peer: &Peer) -> (r:
    PushFragment)
    ensures
        r.index == index,
        r.fragment_bytes == config.fragment_size,
        r.uri@ == route_index_uri(peer.uri@, "/entropy/upload/push/"@, hex(key@), index),
{
    let hex_key = hex_string(key.as_slice());
    PushFragment {
        index,
        fragment_bytes: config.fragment_size,
        uri: make_index_uri(peer.uri.as_str(), "/entropy/upload/push/", hex_key.as_str(), index),
    }
}

/// The list of all members, for each of them, with the peer that uploads.
pub struct MembersMessage {
    pub uris: Vec<String>,
    pub members: Members,
    pub uploader: Peer,
}

/// One URI for each of the members, in ascending order of their indices: `route`
/// at its host, for the thing named `name`.
pub open spec fn addresses(
    uris: Seq<String>,
    members: Map<u32, ChunkMember>,
    route: Seq<char>,
    name: Seq<char>,
) -> bool {
    &&& uris.len() == members.len()
    &&& forall|i: int|
        0 <= i < uris.len() ==> (#[trigger] uris[i])@ == route_uri(
            ascending(members)[i].1.peer.uri@,
            route,
            name,
        )
}

/// `uri` is that of `route`, for the thing named `name`, at one of the members.
pub open spec fn addresses_one(
    uri: Seq<char>,
    members: Map<u32, ChunkMember>,
    route: Seq<char>,
    name: Seq<char>,
) -> bool {
    exists|index: u32| #[trigger]
        members.contains_key(index) && uri == members[index].peer.uri@ + route + name
}

/// Every one of the members is addressed, at its own URI, and nobody else is.
pub proof fn every_member_is_addressed(
    uris: Seq<String>,
    members: Map<u32, ChunkMember>,
    route: Seq<char>,
    name: Seq<char>,
)
    requires
        members.dom().finite(),
        addresses(uris, members, route, name),
    ensures
        uris.len() == members.len(),
        forall|index: u32| #[trigger]
            members.contains_key(index) ==> exists|i: int|
                0 <= i < uris.len() && (#[trigger] uris[i])@ == members[index].peer.uri@ + route
                    + name,
        forall|i: int|
            0 <= i < uris.len() ==> addresses_one((#[trigger] uris[i])@, members, route, name),
{
    every_entry_is_listed(members);
    let list = ascending(members);
    assert forall|index: u32| #[trigger] members.contains_key(index) implies exists|i: int|
        0 <= i < uris.len() && (#[trigger] uris[i])@ == members[index].peer.uri@ + route + name by {
        let i = choose|i: int| 0 <= i < list.len() && #[trigger] list[i] == (index, members[index]);
        assert(uris[i]@ == route_uri(list[i].1.peer.uri@, route, name));
    }
    assert forall|i: int| 0 <= i < uris.len() implies addresses_one(
        (#[trigger] uris[i])@,
        members,
        route,
        name,
    ) by {
        assert(members.contains_key(list[i].0));
    }
}

pub(crate) fn member_uris(members: &Members, route: &str, name: &str) -> (r: Vec<String>)
    ensures
        addresses(r@, members@, route@, name@),
{
    let n = members.len();
    let mut uris: Vec<String> = Vec::new();
    let mut i: usize = 0;
    while i < n
        invariant
            i <= n,
            n == members@.len(),
            uris@.len() == i,
            forall|j: int|
                0 <= j < i ==> (#[trigger] uris@[j])@ == route_uri(
                    ascending(members@)[j].1.peer.uri@,
                    route@,
                    name@,
                ),
        decreases n - i,
    {
        let (_, member) = members.entry(i);
        uris.push(make_uri(member.peer.uri.as_str(), route, name));
        i += 1;
    }
    uris
}

/// What follows from a peer's answer to an invitation: its fragment is pushed to
/// it, and once all members are known each of them is told.
pub struct QueryStep {
    pub push: PushFragment,
    pub complete: Option<MembersMessage>,
}

/// `push` sends the fragment of `member` to it.
pub open spec fn pushes(
    push: PushFragment,
    config: StateConfig,
    key: ChunkKey,
    member: ChunkMember,
) -> bool {
    &&& push.index == member.index
    &&& push.fragment_bytes == config.fragment_size
    &&& push.uri@ == route_index_uri(
        member.peer.uri@,
        "/entropy/upload/push/"@,
        hex(key@),
        member.index,
    )
}

/// The list of members goes to each of them exactly when it is complete.
pub open spec fn tells_members(
    message: Option<MembersMessage>,
    config: StateConfig,
    key: ChunkKey,
    members: Map<u32, ChunkMember>,
) -> bool {
    &&& message is Some <==> members.len() == config.inner_n
    &&& message matches Some(message) ==> {
        &&& addresses(message.uris@, members, "/entropy/upload/members/"@, hex(key@))
        &&& message.members@ == members
        &&& message.uploader == config.peer
    }
}

/// Of the peers that answer, one after the other and each under an index of its own,
/// the last of `inner_n` completes the list, and no other one does. Then every member
/// gets the whole list, with the peer that uploads.
pub proof fn complete_list_goes_to_every_member(
    message: Option<MembersMessage>,
    config: StateConfig,
    key: ChunkKey,
    members: Map<u32, ChunkMember>,
    member: ChunkMember,
)
    requires
        members.dom().finite(),
        !members.contains_key(member.index),
        tells_members(message, config, key, members.insert(member.index, member)),
    ensures
        message is Some <==> members.len() + 1 == config.inner_n,
        message matches Some(message) ==> {
            &&& message.uploader == config.peer
            &&& message.members@ == members.insert(member.index, member)
            &&& message.uris@.len() == config.inner_n
            &&& exists|i: int|
                0 <= i < message.uris@.len() && (#[trigger] message.uris@[i])@ == member.peer.uri@
                    + "/entropy/upload/members/"@ + hex(key@)
            &&& forall|index: u32| #[trigger]
                members.contains_key(index) ==> exists|i: int|
                    0 <= i < message.uris@.len() && (#[trigger] message.uris@[i])@
                        == members[index].peer.uri@ + "/entropy/upload/members/"@ + hex(key@)
        },
{
    let all = members.insert(member.index, member);
    assert(all.dom() =~= members.dom().insert(member.index));
    if let Some(message) = message {
        every_member_is_addressed(message.uris@, all, "/entropy/upload/members/"@, hex(key@));
        assert(all.contains_key(member.index));
        assert forall|index: u32| #[trigger] members.contains_key(index) implies exists|i: int|
            0 <= i < message.uris@.len() && (#[trigger] message.uris@[i])@
                == members[index].peer.uri@ + "/entropy/upload/members/"@ + hex(key@) by {
            assert(all.contains_key(index));
        }
    }
}

/// A fragment goes to the member that it is for, under its own index and the key of
/// its chunk, in a buffer of the size of a fragment.
pub proof fn fragment_goes_to_its_member(
    push: PushFragment,
    config: StateConfig,
    key: ChunkKey,
    member: ChunkMember,
)
    requires
        pushes(push, config, key, member),
    ensures
        push.index == member.index,
        push.fragment_bytes == config.fragment_size,
        push.uri@ == member.peer.uri@ + "/entropy/upload/push/"@ + hex(key@) + "/"@ + decimal(
            member.index as nat,
        ),
{
}

/// The state after `member` was taken into the chunk that is uploaded under `key`.
pub open spec fn member_answered(s: StateView, key: ChunkKey, member: ChunkMember) -> StateView {
    let upload = s.uploads[key];
    StateView {
        uploads: s.uploads.insert(
            key,
            (UploadView { members: upload.members.insert(member.index, member), ..upload }),
        ),
        ..s
    }
}

/// The state after `answers` were taken into the chunk, one after the other.
pub open spec fn members_answered(
    s: StateView,
    key: ChunkKey,
    answers: Seq<ChunkMember>,
) -> StateView
    decreases answers.len(),
{
    if answers.len() == 0 {
        s
    } else {
        member_answered(members_answered(s, key, answers.drop_last()), key, answers.last())
    }
}

/// Every peer that answers is a member, under its own index, in whatever order the
/// peers answer, and nobody else becomes one. The upload keeps its number, and no
/// other upload changes.
pub proof fn every_peer_that_answers_is_a_member(
    s: StateView,
    key: ChunkKey,
    answers: Seq<ChunkMember>,
    other: ChunkKey,
)
    requires
        s.uploads.contains_key(key),
        other != key,
        forall|i: int, j: int|
            0 <= i < j < answers.len() ==> (#[trigger] answers[i]).index
                != (#[trigger] answers[j]).index,
    ensures
        ({
            let t = members_answered(s, key, answers);
            let (a, b) = (s.uploads[key], t.uploads[key]);
            &&& t.uploads.contains_key(key)
            &&& b.chunk_index == a.chunk_index
            &&& forall|i: int|
                0 <= i < answers.len() ==> b.members.contains_key((#[trigger] answers[i]).index)
                    && b.members[answers[i].index] == answers[i]
            &&& forall|k: u32| #[trigger]
                b.members.contains_key(k) ==> a.members.contains_key(k) || exists|i: int|
                    0 <= i < answers.len() && (#[trigger] answers[i]).index == k
            &&& t.uploads.contains_key(other) == s.uploads.contains_key(other)
            &&& s.uploads.contains_key(other) ==> t.uploads[other] == s.uploads[other]
            &&& t.config == s.config && t.peers == s.peers && t.benchmarks == s.benchmarks
            &&& t.chunks == s.chunks && t.parts == s.parts
            &&& t.stored == s.stored && t.next_token == s.next_token
        }),
    decreases answers.len(),
{
    if answers.len() > 0 {
        let front = answers.drop_last();
        let n = answers.len() - 1;
        assert forall|i: int, j: int| 0 <= i < j < front.len() implies (#[trigger] front[i]).index
            != (#[trigger] front[j]).index by {
            assert(answers[i].index != answers[j].index);
        }
        every_peer_that_answers_is_a_member(s, key, front, other);
        let (t, u) = (members_answered(s, key, answers), members_answered(s, key, front));
        assert forall|i: int| 0 <= i < answers.len() implies t.uploads[key].members.contains_key(
            (#[trigger] answers[i]).index,
        ) && t.uploads[key].members[answers[i].index] == answers[i] by {
            if i < n {
                assert(front[i] == answers[i]);
                assert(answers[i].index != answers[n].index);
            }
        }
        assert forall|k: u32| #[trigger] t.uploads[key].members.contains_key(
            k,
        ) implies s.uploads[key].members.contains_key(k) || exists|i: int|
            0 <= i < answers.len() && (#[trigger] answers[i]).index == k by {
            if k == answers[n].index {
                assert(answers[n].index == k);
            } else {
                assert(u.uploads[key].members.contains_key(k));
                if !s.uploads[key].members.contains_key(k) {
                    let i = choose|i: int| 0 <= i < front.len() && (#[trigger] front[i]).index == k;
                    assert(answers[i].index == k);
                }
            }
        }
    }
}

/// Takes `member` into the chunk that is uploaded under `key`.
pub fn upload_query(data: &mut State, key: &ChunkKey, member: ChunkMember) -> (r: QueryStep)
    requires
        old(data)@.uploads.contains_key(*key),
    ensures
        ({
            let s = old(data)@;
            let members = s.uploads[*key].members.insert(member.index, member);
            &&& pushes(r.push, s.config, *key, member)
            &&& final(data)@ == (StateView {
                uploads: s.uploads.insert(*key, (UploadView { members, ..s.uploads[*key] })),
                ..s
            })
            &&& tells_members(r.complete, s.config, *key, members)
        }),
        final(data)@ == member_answered(old(data)@, *key, member),
{
    let push = entropy_push_fragment(data.config(), key, member.index, &member.peer);
    let mut upload = data.take_upload(key);
    let _ = upload.members.insert(member.index, member);
    let complete = if upload.members.len() == data.config().inner_n as usize {
        let hex_key = hex_string(key.as_slice());
        Some(
            MembersMessage {
                uris: member_uris(&upload.members, "/entropy/upload/members/", hex_key.as_str()),
                members: copy_members(&upload.members),
                uploader: data.config().peer.clone(),
            },
        )
    } else {
        None
    };
    data.set_upload(*key, upload);
    assert(data@ =~= (StateView {
        uploads: old(data)@.uploads.insert(*key, upload@),
        ..old(data)@
    }));
    QueryStep { push, complete }
}

/// The members that have not said yet that their fragment is on disk.
pub struct WaitingUp {
    indices: SortedMap<u32, ()>,
}

impl View for WaitingUp {
    type V = Set<u32>;

    closed spec fn view(&self) -> Set<u32> {
        self.indices@.dom()
    }
}

impl WaitingUp {
    /// All members are waited for.
    pub fn new(members: &Members) -> (r: Self)
        ensures
            r@ == members@.dom(),
    {
        let mut rest = copy_members(members);
        let mut indices: SortedMap<u32, ()> = SortedMap::new();
        assert(indices@.dom().union(rest@.dom()) =~= members@.dom());
        loop
            invariant
                indices@.dom().union(rest@.dom()) == members@.dom(),
            ensures
                indices@.dom() == members@.dom(),
            decreases rest@.len(),
        {
            let ghost before = rest@.dom();
            let ghost done = indices@.dom();
            match rest.pop_first() {
                Some((index, _)) => {
                    let _ = indices.insert(index, ());
                    assert(rest@.dom() =~= before.remove(index));
                    assert(indices@.dom().union(rest@.dom()) =~= done.union(before));
                },
                None => {
                    assert(indices@.dom() =~= members@.dom());
                    break;
                },
            }
        }
        WaitingUp { indices }
    }

    /// Whether no member is waited for any more.
    pub fn is_done(&self) -> (r: bool)
        ensures
            r == self@.is_empty(),
    {
        let n = self.indices.len();
        proof {
            if n == 0 {
                assert(self@ =~= Set::empty());
            } else if self@.is_empty() {
                assert(self@ =~= Set::empty());
            }
        }
        n == 0
    }

    /// The member of `index` said that its fragment is on disk.
    pub fn up(&mut self, index: u32)
        ensures
            final(self)@ == old(self)@.remove(index),
    {
        let _ = self.indices.remove(&index);
        assert(self@ =~= old(self)@.remove(index));
    }
}

#[verifier::ext_equal]
pub struct ChunkUploadView {
    pub key: ChunkKey,
    pub waiting: Option<Set<u32>>,
}

/// The upload of a chunk, from its invitations to the last report. First the
/// invited peers answer; once there are enough of them, their reports are waited
/// for.
pub struct ChunkUpload {
    key: ChunkKey,
    waiting: Option<WaitingUp>,
}

impl View for ChunkUpload {
    type V = ChunkUploadView;

    closed spec fn view(&self) -> ChunkUploadView {
        ChunkUploadView {
            key: self.key,
            waiting: match self.waiting {
                Some(waiting) => Some(waiting@),
                None => None,
            },
        }
    }
}

impl ChunkUpload {
    /// An upload whose invitations are sent.
    pub fn new(key: ChunkKey) -> (r: Self)
        ensures
            r@ == (ChunkUploadView { key, waiting: None }),
    {
        ChunkUpload { key, waiting: None }
    }

    /// Whether answers are waited for, and not yet reports.
    pub fn is_collecting(&self) -> (r: bool)
        ensures
            r == self@.waiting is None,
    {
        self.waiting.is_none()
    }

    /// Whether every member has reported.
    pub fn is_done(&self) -> (r: bool)
        ensures
            r == (self@.waiting matches Some(waiting) && waiting.is_empty()),
    {
        match &self.waiting {
            Some(waiting) => waiting.is_done(),
            None => false,
        }
    }

    /// An invited peer answered that it is `member`.
    pub fn answered(&mut self, data: &mut State, member: ChunkMember) -> (r: QueryStep)
        requires
            old(self)@.waiting is None,
            old(data)@.uploads.contains_key(old(self)@.key),
        ensures
            ({
                let s = old(data)@;
                let key = old(self)@.key;
                let members = s.uploads[key].members.insert(member.index, member);
                &&& pushes(r.push, s.config, key, member)
                &&& final(data)@ == (StateView {
                    uploads: s.uploads.insert(key, (UploadView { members, ..s.uploads[key] })),
                    ..s
                })
                &&& tells_members(r.complete, s.config, key, members)
                &&& final(self)@ == (ChunkUploadView {
                    key,
                    waiting: if members.len() == s.config.inner_n {
                        Some(members.dom())
                    } else {
                        None
                    },
                })
            }),
    {
        let step = upload_query(data, &self.key, member);
        if let Some(message) = &step.complete {
            self.waiting = Some(WaitingUp::new(&message.members));
        }
        step
    }

    /// The member of `index` reported that its fragment is on disk.
    pub fn reported(&mut self, index: u32)
        requires
            old(self)@.waiting is Some,
        ensures
            final(self)@ == (ChunkUploadView {
                waiting: Some(old(self)@.waiting->0.remove(index)),
                ..old(self)@
            }),
    {
        let mut waiting = None;
        std::mem::swap(&mut self.waiting, &mut waiting);
        if let Some(mut members) = waiting {
            members.up(index);
            self.waiting = Some(members);
        }
    }
}

/// Who is waited for after reports of the members `ups`.
pub open spec fn waiting_after(waiting: Set<u32>, ups: Seq<u32>) -> Set<u32>
    decreases ups.len(),
{
    if ups.len() == 0 {
        waiting
    } else {
        waiting_after(waiting, ups.drop_last()).remove(ups.last())
    }
}

/// An upload ends exactly when every member has reported, in whatever order and
/// however often they report.
pub proof fn upload_ends_when_all_are_up(members: Map<u32, ChunkMember>, ups: Seq<u32>)
    ensures
        waiting_after(members.dom(), ups).is_empty() <==> (forall|i: u32| #[trigger]
            members.contains_key(i) ==> ups.contains(i)),
{
    lemma_waiting_after(members.dom(), ups);
    let left = waiting_after(members.dom(), ups);
    if left.is_empty() {
        assert forall|i: u32| #[trigger] members.contains_key(i) implies ups.contains(i) by {
            assert(!left.contains(i));
        }
    }
    if forall|i: u32| #[trigger] members.contains_key(i) ==> ups.contains(i) {
        assert(left =~= Set::empty());
    }
}

proof fn lemma_waiting_after(waiting: Set<u32>, ups: Seq<u32>)
    ensures
        forall|i: u32| #[trigger]
            waiting_after(waiting, ups).contains(i) <==> waiting.contains(i) && !ups.contains(i),
    decreases ups.len(),
{
    if ups.len() != 0 {
        let front = ups.drop_last();
        lemma_waiting_after(waiting, front);
        assert forall|i: u32| #[trigger] ups.contains(i) <==> front.contains(i) || i == ups.last() by {
            if ups.contains(i) {
                let k = choose|k: int| 0 <= k < ups.len() && ups[k] == i;
                if k < front.len() {
                    assert(front[k] == i);
                }
            }
            if front.contains(i) {
                let k = choose|k: int| 0 <= k < front.len() && front[k] == i;
                assert(ups[k] == i);
            }
            assert(ups[ups.len() - 1] == ups.last());
        }
        assert forall|i: u32| #[trigger]
            waiting_after(waiting, ups).contains(i) <==> waiting.contains(i) && !ups.contains(i) by {
            assert(waiting_after(waiting, front).contains(i) <==> waiting.contains(i)
                && !front.contains(i));
            assert(ups.contains(i) <==> front.contains(i) || i == ups.last());
        }
    } else {
        assert forall|i: u32| !ups.contains(i) by {}
    }
}

/// The upload that a peer's answer to an invitation belongs to.
pub fn entropy_upload_query(data: &State, chunk_key: &str) -> (r: ChunkKey)
    requires
        is_key_text(chunk_key@),
        data@.uploads.contains_key(text_key(chunk_key@)),
    ensures
        r == text_key(chunk_key@),
{
    parse_key(chunk_key)
}

/// The upload that the report of member `index` belongs to.
pub fn entropy_upload_up(data: &State, chunk_key: &str, index: u32) -> (r: (ChunkKey, u32))
    requires
        is_key_text(chunk_key@),
        data@.uploads.contains_key(text_key(chunk_key@)),
    ensures
        r == (text_key(chunk_key@), index),
{
    (parse_key(chunk_key), index)
}

/// The state after this peer agreed to store fragment `index` of a chunk that has
/// `members`.
pub open spec fn fragment_awaited(
    s: StateView,
    key: ChunkKey,
    index: u32,
    members: Map<u32, ChunkMember>,
) -> StateView {
    StateView {
        chunks: s.chunks.insert(
            key,
            (ChunkView { index, members, has_fragment: s.next_token, repair_finish: false }),
        ),
        next_token: (s.next_token + 1) as u64,
        ..s
    }
}

/// The state after the fragment of `token` was written.
pub open spec fn fragment_written(s: StateView, token: u64) -> StateView {
    StateView { stored: s.stored.insert(token), ..s }
}

/// The state after the list of all members of the chunk came in.
pub open spec fn members_learnt(
    s: StateView,
    key: ChunkKey,
    members: Map<u32, ChunkMember>,
) -> StateView {
    StateView { chunks: s.chunks.insert(key, (ChunkView { members, ..s.chunks[key] })), ..s }
}

/// `t` keeps of chunk `key` what `s` keeps of it: also, whether its fragment is on
/// disk.
pub open spec fn keeps_chunk(s: StateView, t: StateView, key: ChunkKey) -> bool {
    &&& t.chunks.contains_key(key) == s.chunks.contains_key(key)
    &&& s.chunks.contains_key(key) ==> t.chunks[key] == s.chunks[key]
    &&& s.chunks.contains_key(key) ==> t.has_fragment(key) == s.has_fragment(key)
}

/// A peer that agreed to store a fragment has it once it is written, and not before,
/// whether the list of members came in before or after that; it then knows those
/// members, and serves the fragment under the index that it was asked to store.
/// Nothing changes for another chunk.
pub proof fn written_fragment_is_served(
    s: StateView,
    key: ChunkKey,
    index: u32,
    members: Map<u32, ChunkMember>,
    other: ChunkKey,
)
    requires
        s.tokens_fresh(),
        s.next_token < u64::MAX,
        other != key,
    ensures
        ({
            let asked = fragment_awaited(s, key, index, Map::empty());
            let told = members_learnt(asked, key, members);
            let token = asked.chunks[key].has_fragment;
            let late = members_learnt(fragment_written(asked, token), key, members);
            let early = fragment_written(told, told.chunks[key].has_fragment);
            &&& asked.chunks.contains_key(key) && asked.chunks[key].members.dom().is_empty()
            &&& !asked.has_fragment(key) && !told.has_fragment(key)
            &&& told.chunks[key].has_fragment == token
            &&& late == early
            &&& late.chunks.contains_key(key)
            &&& late.has_fragment(key)
            &&& late.chunks[key].index == index
            &&& late.chunks[key].members == members
            &&& !late.chunks[key].repair_finish
            &&& late.tokens_fresh()
            &&& keeps_chunk(s, asked, other) && keeps_chunk(s, told, other)
            &&& keeps_chunk(s, late, other)
            &&& late.config == s.config && late.peers == s.peers && late.parts == s.parts
            &&& late.uploads == s.uploads && late.benchmarks == s.benchmarks
        }),
{
    let asked = fragment_awaited(s, key, index, Map::empty());
    let told = members_learnt(asked, key, members);
    let token = asked.chunks[key].has_fragment;
    let late = members_learnt(fragment_written(asked, token), key, members);
    let early = fragment_written(told, told.chunks[key].has_fragment);
    assert(late =~= early);
}

/// The answer to an invitation: `member` is sent to `uri`.
pub struct UploadAnswer {
    pub uri: String,
    pub member: ChunkMember,
}

/// Agrees to store fragment `index` of the chunk that `uploader` uploads.
pub fn entropy_upload_invite(data: &mut State, chunk_key: &str, index: u32, uploader: &Peer) -> (r:
    UploadAnswer)
    requires
        is_key_text(chunk_key@),
        !old(data)@.chunks.contains_key(text_key(chunk_key@)),
        old(data)@.next_token < u64::MAX,
    ensures
        r.uri@ == route_uri(uploader.uri@, "/entropy/upload/query/"@, chunk_key@),
        r.member == (ChunkMember { index, peer: old(data)@.config.peer }),
        final(data)@ == (StateView {
            chunks: old(data)@.chunks.insert(
                text_key(chunk_key@),
                (ChunkView {
                    index,
                    members: Map::empty(),
                    has_fragment: old(data)@.next_token,
                    repair_finish: false,
                }),
            ),
            next_token: (old(data)@.next_token + 1) as u64,
            ..old(data)@
        }),
        final(data)@.tokens_fresh(),
        !final(data)@.has_fragment(text_key(chunk_key@)),
        final(data)@ == fragment_awaited(
            old(data)@,
            text_key(chunk_key@),
            index,
            Map::empty(),
        ),
{
    data.add_chunk(parse_key(chunk_key), index, SortedMap::new());
    UploadAnswer {
        uri: make_uri(uploader.uri.as_str(), "/entropy/upload/query/", chunk_key),
        member: ChunkMember { index, peer: data.config().peer.clone() },
    }
}

/// A fragment that is to be written to `file`. When that is done, `token` is
/// stored.
pub struct StoreFragment {
    pub token: u64,
    pub file: FragmentFile,
}

/// Where a fragment that was pushed to this peer is written.
pub fn entropy_upload_push(data: &State, chunk_key: &str, index: u32) -> (r: StoreFragment)
    requires
        is_key_text(chunk_key@),
        data@.chunks.contains_key(text_key(chunk_key@)),
    ensures
        r.token == data@.chunks[text_key(chunk_key@)].has_fragment,
        is_fragment_file(r.file, data@.config.chunk_path@, chunk_key@, index),
{
    let token: u64 = match data.chunk(&parse_key(chunk_key)) {
        Some(chunk) => chunk.has_fragment,
        None => 0,
    };
    StoreFragment {
        token,
        file: FragmentFile {
            root: data.config().chunk_path.clone(),
            dir: chunk_key.to_owned(),
            name: decimal_string(index as u64),
        },
    }
}

/// The fragment of `token` is on disk.
pub fn fragment_stored(data: &mut State, token: u64)
    requires
        token < old(data)@.next_token,
    ensures
        final(data)@ == (StateView { stored: old(data)@.stored.insert(token), ..old(data)@ }),
        final(data)@ == fragment_written(old(data)@, token),
        final(data)@.tokens_fresh(),
{
    data.store_fragment(token);
}

/// A report that is due at `uri` once `token` is stored.
pub struct AwaitFragment {
    pub token: u64,
    pub uri: String,
}

/// Takes the list of all members of a chunk of which this peer stores a fragment.
pub fn entropy_upload_members(
    data: &mut State,
    chunk_key: &str,
    members: Members,
    uploader: &Peer,
) -> (r: AwaitFragment)
    requires
        is_key_text(chunk_key@),
        old(data)@.chunks.contains_key(text_key(chunk_key@)),
    ensures
        ({
            let s = old(data)@;
            let key = text_key(chunk_key@);
            &&& r.token == s.chunks[key].has_fragment
            &&& r.uri@ == route_index_uri(
                uploader.uri@,
                "/entropy/upload/up/"@,
                chunk_key@,
                s.chunks[key].index,
            )
            &&& final(data)@ == (StateView {
                chunks: s.chunks.insert(
                    key,
                    (ChunkView { members: members@, ..s.chunks[key] }),
                ),
                ..s
            })
        }),
        final(data)@ == members_learnt(old(data)@, text_key(chunk_key@), members@),
        final(data)@.tokens_fresh(),
{
    let key = parse_key(chunk_key);
    let mut chunk = data.take_chunk(&key);
    let token = chunk.has_fragment;
    let index = chunk.index;
    chunk.members = members;
    data.set_chunk(key, chunk);
    assert(data@ =~= (StateView {
        chunks: old(data)@.chunks.insert(key, chunk@),
        ..old(data)@
    }));
    AwaitFragment {
        token,
        uri: make_index_uri(uploader.uri.as_str(), "/entropy/upload/up/", chunk_key, index),
    }
}

} // verus!
