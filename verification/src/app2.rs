//! The state of a peer that only stores: objects are put, and neither got back
//! nor repaired.

use crate::app::{
    copy_members, hash_object, make_index_uri, make_uri, parse_key, ChunkMember, DrawnObject,
    Members, Timestamp,
};
#[allow(unused_imports)]
use crate::app::{is_key_text, route_index_uri, route_uri, text_key};
use crate::chunk::{ChunkKey, FragmentFile};
use crate::chunk_table::{ChunkTable, Tokened};
use crate::common::{decimal_string, hex_string};
#[allow(unused_imports)]
use crate::chunk::is_fragment_file;
#[allow(unused_imports)]
use crate::common::hex;
use crate::entropy_upload::{
    invite_uris, member_uris, select_peers, upload_candidates, AwaitFragment, MembersMessage,
    PushFragment, QueryStep, StoreFragment, UploadAnswer, UploadStart,
};
#[allow(unused_imports)]
use crate::entropy_upload::{addresses, candidates_of, chosen, invites};
use crate::hash::{fill_random, sha256};
#[allow(unused_imports)]
use crate::hash::sha256_digest;
use crate::peer::{Peer, Store};
use crate::sorted_map::SortedMap;
use crate::wirehair::{EncoderCreate, WirehairEncoder};
use vstd::prelude::*;

verus! {

/// How a peer codes and where it stores.
#[derive(Debug)]
pub struct StateConfig {
    pub fragment_size: u32,
    pub inner_k: u32,
    pub inner_n: u32,
    pub outer_k: u32,
    pub outer_n: u32,
    pub chunk_path: String,
    pub peer: Peer,
    pub peer_secret: [u8; 32],
}

impl Clone for StateConfig {
    fn clone(&self) -> (r: Self)
        ensures
            r == *self,
    {
        StateConfig {
            fragment_size: self.fragment_size,
            inner_k: self.inner_k,
            inner_n: self.inner_n,
            outer_k: self.outer_k,
            outer_n: self.outer_n,
            chunk_path: self.chunk_path.clone(),
            peer: self.peer.clone(),
            peer_secret: self.peer_secret,
        }
    }
}

impl StateConfig {
    /// The bytes of a chunk.
    pub open spec fn chunk_bytes(self) -> int {
        self.fragment_size * self.inner_k
    }

    /// The bytes of an object.
    pub open spec fn object_bytes(self) -> int {
        self.fragment_size * self.inner_k * self.outer_k
    }

    /// A chunk has `inner_k` fragments, and an object has `outer_k` chunks.
    pub proof fn sizes_are_multiples(self)
        ensures
            self.chunk_bytes() == self.inner_k * self.fragment_size,
            self.object_bytes() == self.outer_k * self.chunk_bytes(),
    {
        let (f, k, n) = (self.fragment_size as int, self.inner_k as int, self.outer_k as int);
        assert(f * k == k * f && f * k * n == n * (f * k)) by (nonlinear_arith);
    }

    /// The length of a chunk.
    pub fn chunk_len(&self) -> (r: usize)
        requires
            self.chunk_bytes() <= usize::MAX,
        ensures
            r == self.chunk_bytes(),
    {
        self.fragment_size as usize * self.inner_k as usize
    }

    /// The length of an object.
    pub fn object_len(&self) -> (r: usize)
        requires
            self.chunk_bytes() <= usize::MAX,
            self.object_bytes() <= usize::MAX,
        ensures
            r == self.object_bytes(),
    {
        self.fragment_size as usize * self.inner_k as usize * self.outer_k as usize
    }
}

/// What is recorded of one object that was put.
#[derive(Debug, Clone, Copy)]
pub struct StateBenchmark {
    pub object_hash: [u8; 32],
    pub put_start: Option<Timestamp>,
    pub put_end: Option<Timestamp>,
    pub get_start: Option<Timestamp>,
    pub get_end: Option<Timestamp>,
}

/// Nothing is recorded yet.
pub open spec fn is_blank(b: StateBenchmark) -> bool {
    &&& b.object_hash@ == Seq::new(32, |i: int| 0u8)
    &&& b.put_start is None
    &&& b.put_end is None
    &&& b.get_start is None
    &&& b.get_end is None
}

/// A chunk that this peer uploads.
pub struct UploadChunkState {
    pub members: Members,
}

#[verifier::ext_equal]
pub struct ChunkView {
    pub index: u32,
    pub members: Map<u32, ChunkMember>,
    pub has_fragment: u64,
}

/// A chunk of which this peer stores fragment `index`. The fragment is on disk
/// once the token `has_fragment` is among the stored ones.
pub struct ChunkState {
    pub index: u32,
    pub members: Members,
    pub has_fragment: u64,
}

impl Tokened for ChunkState {
    open spec fn token(&self) -> u64 {
        self.has_fragment
    }
}

impl View for ChunkState {
    type V = ChunkView;

    open spec fn view(&self) -> ChunkView {
        ChunkView { index: self.index, members: self.members@, has_fragment: self.has_fragment }
    }
}

#[verifier::ext_equal]
pub struct StateView {
    pub config: StateConfig,
    pub benchmarks: Seq<StateBenchmark>,
    pub uploads: Map<ChunkKey, Map<u32, ChunkMember>>,
    pub chunks: Map<ChunkKey, ChunkView>,
    pub peers: Seq<Peer>,
    pub stored: Set<u64>,
    pub next_token: u64,
}

/// What the peer keeps.
pub struct State {
    config: StateConfig,
    benchmarks: Vec<StateBenchmark>,
    upload_chunk_states: SortedMap<ChunkKey, UploadChunkState>,
    chunk_states: ChunkTable<ChunkState>,
    peer_store: Store,
}

impl View for State {
    type V = StateView;

    closed spec fn view(&self) -> StateView {
        StateView {
            config: self.config,
            benchmarks: self.benchmarks@,
            uploads: self.upload_chunk_states@.map_values(|u: UploadChunkState| u.members@),
            chunks: self.chunk_states@.chunks.map_values(|c: ChunkState| c@),
            peers: self.peer_store@,
            stored: self.chunk_states@.stored,
            next_token: self.chunk_states@.next_token,
        }
    }
}

impl StateView {
    /// Every token in use was handed out, and each chunk has one of its own.
    pub open spec fn tokens_fresh(self) -> bool {
        &&& forall|k: ChunkKey| #[trigger]
            self.chunks.contains_key(k) ==> self.chunks[k].has_fragment < self.next_token
        &&& forall|t: u64| #[trigger] self.stored.contains(t) ==> t < self.next_token
        &&& forall|k: ChunkKey, l: ChunkKey| #[trigger]
            self.chunks.contains_key(k) && #[trigger] self.chunks.contains_key(l) && k != l
                ==> self.chunks[k].has_fragment != self.chunks[l].has_fragment
    }

    /// The fragment of chunk `key` is on disk.
    pub open spec fn has_fragment(self, key: ChunkKey) -> bool {
        self.stored.contains(self.chunks[key].has_fragment)
    }
}

/// Where each chunk of the table has a token of its own, the same holds of the
/// state.
proof fn lemma_tokens(s: State)
    requires
        s.chunk_states@.fresh(),
    ensures
        s@.tokens_fresh(),
{
    let table = s.chunk_states@;
    assert forall|k: ChunkKey, l: ChunkKey| #[trigger]
        s@.chunks.contains_key(k) && #[trigger] s@.chunks.contains_key(l) && k
            != l implies s@.chunks[k].has_fragment != s@.chunks[l].has_fragment by {
        assert(table.chunks.contains_key(k) && table.chunks.contains_key(l));
        assert(table.fits(k, table.chunks[k].token()));
    }
    assert forall|k: ChunkKey| #[trigger]
        s@.chunks.contains_key(k) implies s@.chunks[k].has_fragment < s@.next_token by {
        assert(table.chunks.contains_key(k));
        assert(table.fits(k, table.chunks[k].token()));
    }
}

impl State {
    pub fn new(config: StateConfig, peer_store: Store) -> (r: Self)
        ensures
            r@ == (StateView {
                config,
                benchmarks: Seq::empty(),
                uploads: Map::empty(),
                chunks: Map::empty(),
                peers: peer_store@,
                stored: Set::empty(),
                next_token: 0,
            }),
            r@.tokens_fresh(),
    {
        let r = State {
            config,
            benchmarks: Vec::new(),
            upload_chunk_states: SortedMap::new(),
            chunk_states: ChunkTable::new(),
            peer_store,
        };
        assert(r@ =~= (StateView {
            config,
            benchmarks: Seq::empty(),
            uploads: Map::empty(),
            chunks: Map::empty(),
            peers: peer_store@,
            stored: Set::empty(),
            next_token: 0,
        }));
        r
    }

    pub fn config(&self) -> (r: &StateConfig)
        ensures
            *r == self@.config,
    {
        &self.config
    }

    pub fn peer_store(&self) -> (r: &Store)
        ensures
            r@ == self@.peers,
    {
        &self.peer_store
    }

    /// The token that is handed out next.
    pub fn next_token(&self) -> (r: u64)
        ensures
            r == self@.next_token,
            self@.tokens_fresh(),
    {
        let r = self.chunk_states.next_token();
        proof {
            lemma_tokens(*self);
        }
        r
    }

    pub fn has_benchmark(&self, id: usize) -> (r: bool)
        ensures
            r == (id < self@.benchmarks.len()),
    {
        id < self.benchmarks.len()
    }

    pub fn has_upload(&self, key: &ChunkKey) -> (r: bool)
        ensures
            r == self@.uploads.contains_key(*key),
    {
        self.upload_chunk_states.contains_key(key)
    }

    pub fn has_chunk(&self, key: &ChunkKey) -> (r: bool)
        ensures
            r == self@.chunks.contains_key(*key),
    {
        self.chunk_states.contains_key(key)
    }

    /// Whether the fragment of chunk `key` is on disk.
    pub fn has_fragment(&self, key: &ChunkKey) -> (r: bool)
        ensures
            r == (self@.chunks.contains_key(*key) && self@.has_fragment(*key)),
    {
        match self.chunk_states.get(key) {
            Some(chunk) => self.chunk_states.is_stored(chunk.has_fragment),
            None => false,
        }
    }
}

/// Starts a benchmark.
pub fn benchmark_entropy(data: &mut State) -> (r: usize)
    ensures
        r == old(data)@.benchmarks.len(),
        ({
            let b = final(data)@.benchmarks.last();
            &&& is_blank(b)
            &&& final(data)@ == (StateView {
                benchmarks: old(data)@.benchmarks.push(b),
                ..old(data)@
            })
        }),
{
    let id = data.benchmarks.len();
    let object_hash = [0u8; 32];
    assert(object_hash@ =~= Seq::new(32, |i: int| 0u8));
    data.benchmarks.push(
        StateBenchmark {
            object_hash,
            put_start: None,
            put_end: None,
            get_start: None,
            get_end: None,
        },
    );
    id
}

/// What is recorded of benchmark `index`.
pub fn poll_benchmark(data: &State, index: usize) -> (r: StateBenchmark)
    requires
        index < data@.benchmarks.len(),
    ensures
        r == data@.benchmarks[index as int],
{
    data.benchmarks[index]
}

/// Draws an object of random bytes.
pub fn draw_object(config: &StateConfig) -> (r: DrawnObject)
    requires
        config.chunk_bytes() <= usize::MAX,
        config.object_bytes() <= usize::MAX,
    ensures
        r.object@.len() == config.object_bytes(),
        r.object_hash@ == sha256_digest(r.object@),
{
    let mut object: Vec<u8> = vec![0u8; config.object_len()];
    fill_random(&mut object);
    hash_object(object)
}

/// What is to be done to put an object: an encoder for the object, and one upload
/// for each of `chunk_count` chunks.
pub struct EntropyPut {
    pub encoder: EncoderCreate,
    pub chunk_count: u32,
}

/// Starts to put the object, at a time after its digest was taken. The encoder
/// takes the length of the object, in 32 bits, for that of a block.
pub fn entropy_put(data: &mut State, id: usize, drawn: &DrawnObject, now: Timestamp) -> (r:
    EntropyPut)
    requires
        id < old(data)@.benchmarks.len(),
    ensures
        r.encoder.message_bytes == drawn.object@.len(),
        r.encoder.block_bytes == drawn.object@.len() % 0x1_0000_0000,
        r.chunk_count == old(data)@.config.outer_n,
        final(data)@ == (StateView {
            benchmarks: old(data)@.benchmarks.update(
                id as int,
                (StateBenchmark {
                    object_hash: drawn.object_hash,
                    put_start: Some(now),
                    ..old(data)@.benchmarks[id as int]
                }),
            ),
            ..old(data)@
        }),
{
    let mut benchmark = data.benchmarks[id];
    benchmark.object_hash = drawn.object_hash;
    benchmark.put_start = Some(now);
    data.benchmarks.set(id, benchmark);
    let block_bytes = (drawn.object.len() as u64 % 0x1_0000_0000) as u32;
    let encoder = WirehairEncoder::create(drawn.object.as_slice(), block_bytes);
    EntropyPut { encoder, chunk_count: data.config.outer_n }
}

/// Records that the object of benchmark `id` is put.
pub fn finish_put(data: &mut State, id: usize, now: Timestamp)
    requires
        id < old(data)@.benchmarks.len(),
    ensures
        final(data)@ == (StateView {
            benchmarks: old(data)@.benchmarks.update(
                id as int,
                (StateBenchmark { put_end: Some(now), ..old(data)@.benchmarks[id as int] }),
            ),
            ..old(data)@
        }),
{
    let mut benchmark = data.benchmarks[id];
    benchmark.put_end = Some(now);
    data.benchmarks.set(id, benchmark);
}

/// Takes up a chunk of an object: starts its upload, unless too few different
/// peers are close to its fragments.
pub fn entropy_upload_chunk(data: &mut State, chunk: &[u8]) -> (r: (ChunkKey, Option<UploadStart>))
    requires
        old(data)@.config.inner_n > 0 ==> old(data)@.peers.len() > 0,
        2 * old(data)@.config.inner_n <= u32::MAX,
    ensures
        r.0@ == sha256_digest(chunk@),
        ({
            let s = old(data)@;
            let inner_n = s.config.inner_n;
            let peers = chosen(candidates_of(s.peers, r.0, inner_n), inner_n as nat);
            match r.1 {
                Some(start) => {
                    &&& peers.len() == inner_n
                    &&& invites(start.uris@, peers, r.0)
                    &&& start.uploader == s.config.peer
                    &&& start.encoder.message_bytes == chunk@.len()
                    &&& start.encoder.block_bytes == s.config.fragment_size
                    &&& final(data)@ == (StateView {
                        uploads: s.uploads.insert(r.0, Map::empty()),
                        ..s
                    })
                },
                None => peers.len() != inner_n && final(data)@ == s,
            }
        }),
{
    let key = sha256(chunk);
    let candidates = upload_candidates(&data.peer_store, &key, data.config.inner_n);
    match select_peers(&candidates, data.config.inner_n) {
        Some(peers) => {
            let upload = UploadChunkState { members: SortedMap::new() };
            let _ = data.upload_chunk_states.insert(key, upload);
            assert(data@ =~= (StateView {
                uploads: old(data)@.uploads.insert(key, Map::empty()),
                ..old(data)@
            }));
            let start = UploadStart {
                uris: invite_uris(&peers, &key),
                uploader: data.config.peer.clone(),
                encoder: WirehairEncoder::create(chunk, data.config.fragment_size),
            };
            (key, Some(start))
        },
        None => (key, None),
    }
}

/// How fragment `index` of the chunk gets to `peer`.
pub fn entropy_push_fragment(config: &StateConfig, key: &ChunkKey, index: u32, peer: &Peer) -> (r:
    PushFragment)
    ensures
        r.index == index,
        r.fragment_bytes == config.fragment_size,
        r.uri@ == route_uri(peer.uri@, "/entropy/upload/push/"@, hex(key@)),
{
    let hex_key = hex_string(key.as_slice());
    PushFragment {
        index,
        fragment_bytes: config.fragment_size,
        uri: make_uri(peer.uri.as_str(), "/entropy/upload/push/", hex_key.as_str()),
    }
}

/// Takes `member` into the chunk that is uploaded under `key`.
pub fn upload_query(data: &mut State, key: &ChunkKey, member: ChunkMember) -> (r: QueryStep)
    requires
        old(data)@.uploads.contains_key(*key),
    ensures
        r.push.index == member.index,
        r.push.fragment_bytes == old(data)@.config.fragment_size,
        r.push.uri@ == route_uri(member.peer.uri@, "/entropy/upload/push/"@, hex(key@)),
        ({
            let s = old(data)@;
            let members = s.uploads[*key].insert(member.index, member);
            &&& final(data)@ == (StateView { uploads: s.uploads.insert(*key, members), ..s })
            &&& r.complete is Some <==> members.len() == s.config.inner_n
            &&& r.complete matches Some(message) ==> {
                &&& addresses(message.uris@, members, "/entropy/upload/members/"@, hex(key@))
                &&& message.members@ == members
                &&& message.uploader == s.config.peer
            }
        }),
{
    let push = entropy_push_fragment(&data.config, key, member.index, &member.peer);
    let mut members: Members = match data.upload_chunk_states.remove(key) {
        Some(upload) => upload.members,
        None => SortedMap::new(),
    };
    let _ = members.insert(member.index, member);
    let complete = if members.len() == data.config.inner_n as usize {
        let hex_key = hex_string(key.as_slice());
        Some(
            MembersMessage {
                uris: member_uris(&members, "/entropy/upload/members/", hex_key.as_str()),
                members: copy_members(&members),
                uploader: data.config.peer.clone(),
            },
        )
    } else {
        None
    };
    let upload = UploadChunkState { members };
    let _ = data.upload_chunk_states.insert(*key, upload);
    assert(data@ =~= (StateView {
        uploads: old(data)@.uploads.insert(*key, upload.members@),
        ..old(data)@
    }));
    QueryStep { push, complete }
}

/// The upload that a peer's answer to an invitation belongs to.
pub fn entropy_upload_query(data: &State, chunk_key: &str) -> (r: ChunkKey)
    requires
        is_key_text(chunk_key@),
        data@.uploads.contains_key(text_key(chunk_key@)),
    ensures
        r == text_key(chunk_key@),
{
    parse_key(chunk_key)
}

/// The upload that the report of member `index` belongs to.
pub fn entropy_upload_up(data: &State, chunk_key: &str, index: u32) -> (r: (ChunkKey, u32))
    requires
        is_key_text(chunk_key@),
        data@.uploads.contains_key(text_key(chunk_key@)),
    ensures
        r == (text_key(chunk_key@), index),
{
    (parse_key(chunk_key), index)
}

/// Agrees to store fragment `index` of the chunk that `uploader` uploads.
pub fn entropy_upload_invite(data: &mut State, chunk_key: &str, index: u32, uploader: &Peer) -> (r:
    UploadAnswer)
    requires
        is_key_text(chunk_key@),
        !old(data)@.chunks.contains_key(text_key(chunk_key@)),
        old(data)@.next_token < u64::MAX,
    ensures
        r.uri@ == route_uri(uploader.uri@, "/entropy/upload/query/"@, chunk_key@),
        r.member == (ChunkMember { index, peer: old(data)@.config.peer }),
        final(data)@ == (StateView {
            chunks: old(data)@.chunks.insert(
                text_key(chunk_key@),
                (ChunkView {
                    index,
                    members: Map::empty(),
                    has_fragment: old(data)@.next_token,
                }),
            ),
            next_token: (old(data)@.next_token + 1) as u64,
            ..old(data)@
        }),
        final(data)@.tokens_fresh(),
        !final(data)@.has_fragment(text_key(chunk_key@)),
{
    let key = parse_key(chunk_key);
    let token = data.chunk_states.issue();
    let chunk = ChunkState { index, members: SortedMap::new(), has_fragment: token };
    assert(data.chunk_states@.fits(key, token));
    data.chunk_states.insert(key, chunk);
    proof {
        lemma_tokens(*data);
        assert(chunk@ =~= (ChunkView { index, members: Map::empty(), has_fragment: token }));
        assert(data@ =~= (StateView {
            chunks: old(data)@.chunks.insert(key, chunk@),
            next_token: (token + 1) as u64,
            ..old(data)@
        }));
    }
    UploadAnswer {
        uri: make_uri(uploader.uri.as_str(), "/entropy/upload/query/", chunk_key),
        member: ChunkMember { index, peer: data.config.peer.clone() },
    }
}

/// Where a fragment that was pushed to this peer is written.
pub fn entropy_upload_push(data: &State, chunk_key: &str, index: u32) -> (r: StoreFragment)
    requires
        is_key_text(chunk_key@),
        data@.chunks.contains_key(text_key(chunk_key@)),
    ensures
        r.token == data@.chunks[text_key(chunk_key@)].has_fragment,
        is_fragment_file(r.file, data@.config.chunk_path@, chunk_key@, index),
{
    let token: u64 = match data.chunk_states.get(&parse_key(chunk_key)) {
        Some(chunk) => chunk.has_fragment,
        None => 0,
    };
    StoreFragment {
        token,
        file: FragmentFile {
            root: data.config.chunk_path.clone(),
            dir: chunk_key.to_owned(),
            name: decimal_string(index as u64),
        },
    }
}

/// The fragment of `token` is on disk.
pub fn fragment_stored(data: &mut State, token: u64)
    requires
        token < old(data)@.next_token,
    ensures
        final(data)@ == (StateView { stored: old(data)@.stored.insert(token), ..old(data)@ }),
        final(data)@.tokens_fresh(),
{
    data.chunk_states.store(token);
    proof {
        lemma_tokens(*data);
        assert(data@ =~= (StateView { stored: old(data)@.stored.insert(token), ..old(data)@ }));
    }
}

/// Takes the list of all members of a chunk of which this peer stores a fragment.
pub fn entropy_upload_members(
    data: &mut State,
    chunk_key: &str,
    members: Members,
    uploader: &Peer,
) -> (r: AwaitFragment)
    requires
        is_key_text(chunk_key@),
        old(data)@.chunks.contains_key(text_key(chunk_key@)),
    ensures
        ({
            let s = old(data)@;
            let key = text_key(chunk_key@);
            &&& r.token == s.chunks[key].has_fragment
            &&& r.uri@ == route_index_uri(
                uploader.uri@,
                "/entropy/upload/up/"@,
                chunk_key@,
                s.chunks[key].index,
            )
            &&& final(data)@ == (StateView {
                chunks: s.chunks.insert(key, (ChunkView { members: members@, ..s.chunks[key] })),
                ..s
            })
        }),
        final(data)@.tokens_fresh(),
{
    let key = parse_key(chunk_key);
    assert(data@.chunks.contains_key(key));
    let (index, token): (u32, u64) = match data.chunk_states.remove(&key) {
        Some(chunk) => (chunk.index, chunk.has_fragment),
        None => (0, 0),
    };
    let chunk = ChunkState { index, members, has_fragment: token };
    data.chunk_states.insert(key, chunk);
    proof {
        lemma_tokens(*data);
        assert(chunk@ =~= (ChunkView { members: members@, ..old(data)@.chunks[key] }));
        assert(data@ =~= (StateView {
            chunks: old(data)@.chunks.insert(key, chunk@),
            ..old(data)@
        }));
    }
    AwaitFragment {
        token,
        uri: make_index_uri(uploader.uri.as_str(), "/entropy/upload/up/", chunk_key, index),
    }
}

/// Of a new benchmark nothing is recorded: no digest and no time.
pub proof fn new_benchmark_is_blank(b: StateBenchmark)
    requires
        is_blank(b),
    ensures
        forall|i: int| 0 <= i < 32 ==> #[trigger] b.object_hash@[i] == 0,
        b.put_start is None,
        b.put_end is None,
        b.get_start is None,
        b.get_end is None,
{
}

} // verus!
