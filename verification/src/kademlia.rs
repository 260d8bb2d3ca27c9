//! Storing an object in plain parts, each at the peers closest to its digest.

use crate::app::{
    begin_get, begin_put, make_uri, parse_key, poll_benchmark, DrawnObject, State, Timestamp,
};
#[allow(unused_imports)]
use crate::app::{
    blank_benchmark, differs_in_record, get_begun, is_key_text, is_recorded, put_begun, put_ended,
    route_uri, text_key, with_benchmark, BenchmarkView, StateView,
};
use crate::common::hex_string;
#[allow(unused_imports)]
use crate::common::{bytes32, hex, lemma_bytes32};
use crate::hash::sha256;
#[allow(unused_imports)]
use crate::hash::sha256_digest;
use crate::peer::Peer;
#[allow(unused_imports)]
use crate::peer::{
    closest, common_bits, finds_as_many_as_asked, no_peer_left_out_is_closer, sorted_by_id,
};
use crate::sorted_map::SortedMap;
#[allow(unused_imports)]
use crate::sorted_map::{
    ascending, ascending_keys, entries_map, lemma_ascending, lemma_entries_map,
};
use vstd::prelude::*;

verus! {

/// How many peers store each part.
pub const COPIES: usize = 3;

/// Part `i` of an object that is cut into parts of `size` bytes.
pub open spec fn part_of(object: Seq<u8>, size: int, i: int) -> Seq<u8> {
    object.subrange(i * size, (i + 1) * size)
}

/// One URI for each of the peers: `route` at its host, for the thing named `name`.
pub open spec fn peer_addresses(
    uris: Seq<String>,
    peers: Seq<Peer>,
    route: Seq<char>,
    name: Seq<char>,
) -> bool {
    &&& uris.len() == peers.len()
    &&& forall|i: int|
        0 <= i < uris.len() ==> (#[trigger] uris[i])@ == route_uri(peers[i].uri@, route, name)
}

/// The URIs of `route`, for the thing named `name`, at the peers closest to
/// `target`.
fn closest_uris(data: &State, target: &[u8; 32], route: &str, name: &str) -> (r: Vec<String>)
    requires
        data@.peers.len() >= COPIES,
    ensures
        peer_addresses(r@, closest(data@.peers, *target, COPIES as nat), route@, name@),
        r@.len() == COPIES,
{
    let found = data.peer_store().closest_peers(target, COPIES);
    let ghost peers = closest(data@.peers, *target, COPIES as nat);
    proof {
        finds_as_many_as_asked(data@.peers, *target, COPIES as nat);
        assert(found@.map_values(|p: &Peer| *p) == peers);
        assert(found@.len() == peers.len());
        assert forall|i: int| 0 <= i < peers.len() implies *(#[trigger] found@[i]) == peers[i] by {
            assert(found@.map_values(|p: &Peer| *p)[i] == *found@[i]);
        }
    }
    let n = found.len();
    let mut uris: Vec<String> = Vec::new();
    let mut i: usize = 0;
    while i < n
        invariant
            i <= n,
            n == found@.len(),
            n == peers.len(),
            forall|j: int| 0 <= j < n ==> *(#[trigger] found@[j]) == peers[j],
            uris@.len() == i,
            forall|j: int|
                0 <= j < i ==> (#[trigger] uris@[j])@ == route_uri(peers[j].uri@, route@, name@),
        decreases n - i,
    {
        uris.push(make_uri(found[i].uri.as_str(), route, name));
        i += 1;
    }
    uris
}

/// A part that is to be sent, one after the other, to each of the URIs: the bytes
/// of the object from `start` to `end`, without `end`.
pub struct PartUpload {
    pub part_id: [u8; 32],
    pub start: usize,
    pub end: usize,
    pub uris: Vec<String>,
}

/// `part` is how part `i`, whose digest is `part_id`, gets to the peers that store
/// it, where parts are `size` bytes long.
pub open spec fn sends_part(
    part: PartUpload,
    peers: Seq<Peer>,
    part_id: [u8; 32],
    size: int,
    i: int,
) -> bool {
    &&& part.part_id == part_id
    &&& part.start == i * size
    &&& part.end == (i + 1) * size
    &&& peer_addresses(
        part.uris@,
        closest(peers, part_id, COPIES as nat),
        "/kademlia/upload/push/"@,
        hex(part_id@),
    )
}

/// `part` is how part `i` of `object` gets to the peers that store it.
pub open spec fn uploads_part(
    part: PartUpload,
    peers: Seq<Peer>,
    object: Seq<u8>,
    size: int,
    i: int,
) -> bool {
    &&& part.part_id@ == sha256_digest(part_of(object, size, i))
    &&& sends_part(part, peers, part.part_id, size, i)
}

/// The digests of the first `count` parts, by number.
pub open spec fn part_digests(object: Seq<u8>, size: int, count: int) -> Map<u32, [u8; 32]> {
    Map::new(
        |i: u32| i < count,
        |i: u32| bytes32(sha256_digest(part_of(object, size, i as int))),
    )
}

/// The first `n` of the digests, by number.
pub open spec fn numbered_ids(ids: Seq<[u8; 32]>, n: int) -> Map<u32, [u8; 32]> {
    Map::new(|i: u32| i < n, |i: u32| ids[i as int])
}

/// The state after the digests of parts were recorded for benchmark `id`.
pub open spec fn with_part_ids(s: StateView, id: int, ids: Map<u32, [u8; 32]>) -> StateView {
    let b = s.benchmarks[id];
    with_benchmark(s, id, (BenchmarkView { part_ids: b.part_ids.union_prefer_right(ids), ..b }))
}

/// The state after the digests of the parts of `object` were recorded for
/// benchmark `id`.
pub open spec fn with_parts(s: StateView, id: int, object: Seq<u8>) -> StateView {
    with_part_ids(
        s,
        id,
        part_digests(
            object,
            s.config.fragment_size as int,
            s.config.inner_k * s.config.outer_k,
        ),
    )
}

/// The digests of the `count` parts of `size` bytes that `object` is cut into.
pub fn part_ids(object: &[u8], size: u32, count: u32) -> (r: Vec<[u8; 32]>)
    requires
        object@.len() == count * size,
        count * size <= u32::MAX,
    ensures
        r@.len() == count,
        forall|i: int|
            0 <= i < count ==> (#[trigger] r@[i])@ == sha256_digest(
                part_of(object@, size as int, i),
            ),
{
    let mut ids: Vec<[u8; 32]> = Vec::new();
    let mut part_index: u32 = 0;
    while part_index < count
        invariant
            part_index <= count,
            object@.len() == count * size,
            count * size <= u32::MAX,
            ids@.len() == part_index,
            forall|i: int|
                0 <= i < part_index ==> (#[trigger] ids@[i])@ == sha256_digest(
                    part_of(object@, size as int, i),
                ),
        decreases count - part_index,
    {
        assert(0 <= part_index * size <= (part_index + 1) * size <= count * size)
            by (nonlinear_arith)
            requires
                part_index < count,
        ;
        let start = (part_index * size) as usize;
        let end = ((part_index + 1) * size) as usize;
        ids.push(sha256(vstd::slice::slice_subrange(object, start, end)));
        part_index += 1;
    }
    ids
}

/// Records the digests of the parts of an object for benchmark `id`, and says how
/// the parts get to the peers that store them.
pub fn upload_parts(data: &mut State, id: usize, ids: &Vec<[u8; 32]>) -> (r: Vec<PartUpload>)
    requires
        id < old(data)@.benchmarks.len(),
        ids@.len() > 0 ==> old(data)@.peers.len() >= COPIES,
        ids@.len() <= u32::MAX,
        ids@.len() * old(data)@.config.fragment_size <= u32::MAX,
    ensures
        ({
            let s = old(data)@;
            let size = s.config.fragment_size as int;
            &&& r@.len() == ids@.len()
            &&& forall|i: int|
                0 <= i < ids@.len() ==> sends_part(#[trigger] r@[i], s.peers, ids@[i], size, i)
            &&& final(data)@ == with_part_ids(
                s,
                id as int,
                numbered_ids(ids@, ids@.len() as int),
            )
        }),
{
    let ghost s = data@;
    let size: u32 = data.config().fragment_size;
    let count: u32 = ids.len() as u32;
    let mut benchmark = poll_benchmark(data, id);
    let ghost b = benchmark@;
    let mut parts: Vec<PartUpload> = Vec::new();
    let mut part_index: u32 = 0;
    assert(b.part_ids.union_prefer_right(numbered_ids(ids@, 0)) =~= b.part_ids);
    while part_index < count
        invariant
            part_index <= count,
            count == ids@.len(),
            data@ == s,
            count > 0 ==> s.peers.len() >= COPIES,
            count * size <= u32::MAX,
            parts@.len() == part_index,
            forall|i: int|
                0 <= i < part_index ==> sends_part(
                    #[trigger] parts@[i],
                    s.peers,
                    ids@[i],
                    size as int,
                    i,
                ),
            benchmark@ == (BenchmarkView {
                part_ids: b.part_ids.union_prefer_right(numbered_ids(ids@, part_index as int)),
                ..b
            }),
        decreases count - part_index,
    {
        assert(0 <= part_index * size <= (part_index + 1) * size <= count * size)
            by (nonlinear_arith)
            requires
                part_index < count,
        ;
        let start = (part_index * size) as usize;
        let end = ((part_index + 1) * size) as usize;
        let part_id = ids[part_index as usize];
        let _ = benchmark.part_ids.insert(part_index, part_id);
        let hex_id = hex_string(part_id.as_slice());
        let uris = closest_uris(data, &part_id, "/kademlia/upload/push/", hex_id.as_str());
        parts.push(PartUpload { part_id, start, end, uris });
        proof {
            assert(benchmark@.part_ids =~= b.part_ids.union_prefer_right(
                numbered_ids(ids@, part_index + 1),
            ));
            assert(sends_part(
                parts@[part_index as int],
                s.peers,
                ids@[part_index as int],
                size as int,
                part_index as int,
            ));
        }
        part_index += 1;
    }
    data.set_benchmark(id, benchmark);
    parts
}

/// The state after `object` began to be put in plain parts for benchmark `id`.
pub open spec fn put_in_parts(
    s: StateView,
    id: int,
    object: Seq<u8>,
    now: Timestamp,
) -> StateView {
    with_parts(put_begun(s, id, sha256_digest(object), now), id, object)
}

/// Starts to put the object in plain parts, at a time after its digest was taken.
pub fn kademlia_put(data: &mut State, id: usize, drawn: &DrawnObject, now: Timestamp) -> (r: Vec<
    PartUpload,
>)
    requires
        id < old(data)@.benchmarks.len(),
        old(data)@.config.inner_k * old(data)@.config.outer_k > 0 ==> old(data)@.peers.len()
            >= COPIES,
        old(data)@.config.inner_k * old(data)@.config.outer_k <= u32::MAX,
        old(data)@.config.object_bytes() <= u32::MAX,
        drawn.object@.len() == old(data)@.config.object_bytes(),
    ensures
        ({
            let s = old(data)@;
            let count = s.config.inner_k * s.config.outer_k;
            let size = s.config.fragment_size as int;
            &&& r@.len() == count
            &&& forall|i: int|
                0 <= i < count ==> uploads_part(
                    #[trigger] r@[i],
                    s.peers,
                    drawn.object@,
                    size,
                    i,
                )
            &&& final(data)@ == with_parts(
                put_begun(s, id as int, drawn.object_hash@, now),
                id as int,
                drawn.object@,
            )
        }),
{
    let ghost s = data@;
    let size: u32 = data.config().fragment_size;
    let count: u32 = data.config().inner_k * data.config().outer_k;
    assert(s.config.object_bytes() == count * size) by (nonlinear_arith)
        requires
            count == s.config.inner_k * s.config.outer_k,
            size == s.config.fragment_size,
            s.config.object_bytes() == s.config.fragment_size * s.config.inner_k * s.config.outer_k,
    ;
    begin_put(data, id, drawn.object_hash, now);
    let ids = part_ids(drawn.object.as_slice(), size, count);
    let parts = upload_parts(data, id, &ids);
    proof {
        let digests = part_digests(drawn.object@, size as int, count as int);
        assert(numbered_ids(ids@, count as int) =~= digests) by {
            assert forall|i: u32| i < count implies #[trigger] ids@[i as int] == bytes32(
                sha256_digest(part_of(drawn.object@, size as int, i as int)),
            ) by {
                lemma_bytes32(ids@[i as int]);
            }
        }
        assert forall|i: int| 0 <= i < count implies uploads_part(
            #[trigger] parts@[i],
            s.peers,
            drawn.object@,
            size as int,
            i,
        ) by {
            assert(sends_part(parts@[i], s.peers, ids@[i], size as int, i));
        }
    }
    parts
}

/// The file of a part: `name`, below `root`.
#[derive(Debug)]
pub struct PartFile {
    pub root: String,
    pub name: String,
}

/// Takes a part that was pushed to this peer, and says where it is written.
pub fn kademlia_upload_push(data: &mut State, part_id: &str) -> (r: PartFile)
    requires
        is_key_text(part_id@),
    ensures
        r.root == old(data)@.config.chunk_path,
        r.name@ == part_id@,
        final(data)@ == (StateView {
            parts: old(data)@.parts.insert(text_key(part_id@)),
            ..old(data)@
        }),
{
    let key = parse_key(part_id);
    data.add_part(key);
    PartFile { root: data.config().chunk_path.clone(), name: part_id.to_owned() }
}

/// Takes a part that another peer gives up to this one, and says where it is
/// written.
pub fn kademlia_repair_push(data: &mut State, part_id: &str) -> (r: PartFile)
    requires
        is_key_text(part_id@),
        !old(data)@.parts.contains(text_key(part_id@)),
    ensures
        r.root == old(data)@.config.chunk_path,
        r.name@ == part_id@,
        final(data)@ == (StateView {
            parts: old(data)@.parts.insert(text_key(part_id@)),
            ..old(data)@
        }),
{
    kademlia_upload_push(data, part_id)
}

/// Starts to get the object of benchmark `id` back: the digests of its parts, in
/// ascending order of their numbers.
pub fn kademlia_get(data: &mut State, id: usize, now: Timestamp) -> (r: Vec<(u32, [u8; 32])>)
    requires
        id < old(data)@.benchmarks.len(),
        old(data)@.benchmarks[id as int].put_end is Some,
        old(data)@.benchmarks[id as int].get_start is None,
    ensures
        r@ == ascending(old(data)@.benchmarks[id as int].part_ids),
        final(data)@ == get_begun(old(data)@, id as int, now),
{
    begin_get(data, id, now);
    let benchmark = poll_benchmark(data, id);
    benchmark.part_ids.to_list()
}

/// The URIs at which the part is got; the first answer counts.
pub fn kademlia_download_part(data: &State, part_id: &[u8; 32]) -> (r: Vec<String>)
    requires
        data@.peers.len() >= COPIES,
    ensures
        peer_addresses(
            r@,
            closest(data@.peers, *part_id, COPIES as nat),
            "/kademlia/download/pull/"@,
            hex(part_id@),
        ),
        r@.len() == COPIES,
{
    let hex_id = hex_string(part_id.as_slice());
    closest_uris(data, part_id, "/kademlia/download/pull/", hex_id.as_str())
}

/// A part that is to be read from `file`, which is removed then, or not.
pub struct PullPart {
    pub file: PartFile,
    pub remove: bool,
}

/// Serves a part. Without repair the part is served only once.
pub fn kademlia_download_pull(data: &State, part_id: &str) -> (r: PullPart)
    ensures
        r.file.root == data@.config.chunk_path,
        r.file.name@ == part_id@,
        r.remove == !data@.config.repair,
{
    PullPart {
        file: PartFile { root: data.config().chunk_path.clone(), name: part_id.to_owned() },
        remove: !data.config().repair,
    }
}

/// The bytes of the parts of a list, one after the other.
pub open spec fn joined(parts: Seq<(u32, Vec<u8>)>) -> Seq<u8>
    decreases parts.len(),
{
    if parts.len() == 0 {
        Seq::empty()
    } else {
        joined(parts.drop_last()) + parts.last().1@
    }
}

/// The object that the parts make up, in ascending order of their numbers.
pub fn assemble(parts: &SortedMap<u32, Vec<u8>>) -> (r: Vec<u8>)
    ensures
        r@ == joined(ascending(parts@)),
{
    let mut object: Vec<u8> = Vec::new();
    let n = parts.len();
    let ghost list = ascending(parts@);
    assert(list.take(0) =~= Seq::empty());
    let mut i: usize = 0;
    while i < n
        invariant
            i <= n,
            n == parts@.len(),
            n == list.len(),
            list == ascending(parts@),
            object@ == joined(list.take(i as int)),
        decreases n - i,
    {
        let (_, part) = parts.entry(i);
        let ghost before = object@;
        object.extend_from_slice(part.as_slice());
        assert(object@ =~= before + part@);
        assert(list.take(i + 1).drop_last() =~= list.take(i as int));
        i += 1;
    }
    assert(list.take(n as int) =~= list);
    object
}

/// `parts` are the first `count` parts of `object`.
pub open spec fn parts_of(
    parts: Map<u32, Vec<u8>>,
    object: Seq<u8>,
    size: int,
    count: int,
) -> bool {
    &&& forall|i: u32| #[trigger] parts.contains_key(i) <==> i < count
    &&& forall|i: u32| #[trigger] parts.contains_key(i) ==> parts[i]@ == part_of(object, size, i as int)
}

/// The first `count` parts, by number.
spec fn numbered(parts: Map<u32, Vec<u8>>, count: int) -> Seq<(u32, Vec<u8>)> {
    Seq::new(count as nat, |i: int| (i as u32, parts[i as u32]))
}

/// The parts of an object, put together again, are that object.
pub proof fn parts_make_up_the_object(
    parts: Map<u32, Vec<u8>>,
    object: Seq<u8>,
    size: int,
    count: int,
)
    requires
        0 <= size,
        0 <= count <= u32::MAX,
        object.len() == count * size,
        parts_of(parts, object, size, count),
    ensures
        joined(ascending(parts)) == object,
{
    let list = numbered(parts, count);
    assert(ascending_keys(list));
    lemma_entries_map(list);
    assert(entries_map(list) =~= parts) by {
        assert forall|k: u32| entries_map(list).contains_key(k) == parts.contains_key(k) by {
            if parts.contains_key(k) {
                assert(list[k as int].0 == k);
            }
        }
        assert forall|k: u32| entries_map(list).contains_key(k) implies entries_map(list)[k]
            == parts[k] by {
            assert(list[k as int].0 == k);
        }
    }
    lemma_ascending(list);
    lemma_joined(parts, object, size, count, count);
    assert(list.take(count) =~= list);
    assert(object.subrange(0, count * size) =~= object);
}

proof fn lemma_joined(
    parts: Map<u32, Vec<u8>>,
    object: Seq<u8>,
    size: int,
    count: int,
    n: int,
)
    requires
        0 <= size,
        0 <= n <= count <= u32::MAX,
        object.len() == count * size,
        parts_of(parts, object, size, count),
    ensures
        joined(numbered(parts, count).take(n))
            == object.subrange(0, n * size),
        0 <= n * size <= object.len(),
    decreases n,
{
    let list = numbered(parts, count);
    assert(0 <= n * size <= count * size) by (nonlinear_arith)
        requires
            0 <= n <= count,
            0 <= size,
    ;
    if n == 0 {
        assert(list.take(0) =~= Seq::empty());
        assert(object.subrange(0, 0) =~= Seq::empty());
        assert(n * size == 0) by (nonlinear_arith)
            requires
                n == 0,
        ;
    } else {
        lemma_joined(parts, object, size, count, n - 1);
        assert(list.take(n).drop_last() =~= list.take(n - 1));
        assert(parts.contains_key((n - 1) as u32));
        assert(list.take(n).last().1@ == part_of(object, size, n - 1));
        assert((n - 1) * size <= n * size) by (nonlinear_arith)
            requires
                0 <= size,
        ;
        assert(object.subrange(0, (n - 1) * size) + object.subrange((n - 1) * size, n * size)
            =~= object.subrange(0, n * size));
    }
}

/// What is got back in plain parts is what was put: the parts of the object make
/// it up again, and its digest is the one that the put recorded.
pub proof fn what_is_put_is_got_back(
    s: StateView,
    id: int,
    object: Seq<u8>,
    now: Timestamp,
    parts: Map<u32, Vec<u8>>,
)
    requires
        0 <= id < s.benchmarks.len(),
        object.len() == s.config.object_bytes(),
        s.config.inner_k * s.config.outer_k <= u32::MAX,
        parts_of(
            parts,
            object,
            s.config.fragment_size as int,
            s.config.inner_k * s.config.outer_k,
        ),
    ensures
        joined(ascending(parts)) == object,
        is_recorded(put_in_parts(s, id, object, now), id, joined(ascending(parts))),
{
    let (size, k, n) = (
        s.config.fragment_size as int,
        s.config.inner_k as int,
        s.config.outer_k as int,
    );
    assert(size * k * n == (k * n) * size) by (nonlinear_arith);
    assert(0 <= k * n) by (nonlinear_arith)
        requires
            0 <= k,
            0 <= n,
    ;
    parts_make_up_the_object(parts, object, size, k * n);
}

/// A part is recorded under its own number with its digest, which is the name
/// that it is pushed and pulled under.
pub proof fn put_records_every_part(
    s: StateView,
    id: int,
    object: Seq<u8>,
    now: Timestamp,
    part: PartUpload,
    i: u32,
)
    requires
        0 <= id < s.benchmarks.len(),
        i < s.config.inner_k * s.config.outer_k,
        uploads_part(part, s.peers, object, s.config.fragment_size as int, i as int),
    ensures
        put_in_parts(s, id, object, now).benchmarks[id].part_ids.contains_key(i),
        put_in_parts(s, id, object, now).benchmarks[id].part_ids[i] == part.part_id,
{
    lemma_bytes32(part.part_id);
}

/// A part is the bytes of the object from its start to its end, its name is their
/// digest, it has the size of a part, and it starts where the one before it ends.
pub proof fn part_is_named_after_its_bytes(
    part: PartUpload,
    peers: Seq<Peer>,
    object: Seq<u8>,
    size: int,
    i: int,
)
    requires
        uploads_part(part, peers, object, size, i),
    ensures
        part.part_id@ == sha256_digest(object.subrange(part.start as int, part.end as int)),
        part.start == i * size,
        part.end - part.start == size,
{
    assert((i + 1) * size == i * size + size) by (nonlinear_arith);
}

/// A part goes to three peers of the network, under its name, and no peer of the
/// network that is left out has more leading bits in common with its digest than one
/// of the three.
pub proof fn part_goes_to_the_three_closest_peers(
    part: PartUpload,
    peers: Seq<Peer>,
    object: Seq<u8>,
    size: int,
    i: int,
    k: int,
    q: int,
)
    requires
        uploads_part(part, peers, object, size, i),
        sorted_by_id(peers),
        peers.len() >= 3,
        0 <= k < 3,
        0 <= q < peers.len(),
    ensures
        ({
            let near = closest(peers, part.part_id, 3);
            &&& near.len() == 3
            &&& part.uris@.len() == 3
            &&& part.uris@[k]@ == near[k].uri@ + "/kademlia/upload/push/"@ + hex(part.part_id@)
            &&& peers.contains(near[k])
            &&& !near.contains(peers[q]) ==> common_bits(peers[q].id@, part.part_id@)
                <= common_bits(near[k].id@, part.part_id@)
        }),
{
    no_peer_left_out_is_closer(peers, part.part_id, 3, k, q);
}

/// A part is asked of the three peers that it was sent to, under the name that it
/// was sent with.
pub proof fn part_is_asked_where_it_was_sent(
    part: PartUpload,
    peers: Seq<Peer>,
    size: int,
    i: int,
    asked: Seq<String>,
    k: int,
)
    requires
        sorted_by_id(peers),
        peers.len() >= 3,
        sends_part(part, peers, part.part_id, size, i),
        peer_addresses(
            asked,
            closest(peers, part.part_id, COPIES as nat),
            "/kademlia/download/pull/"@,
            hex(part.part_id@),
        ),
        0 <= k < 3,
    ensures
        asked.len() == 3,
        part.uris@.len() == 3,
        exists|host: Seq<char>|
            {
                &&& part.uris@[k]@ == #[trigger] (host + "/kademlia/upload/push/"@) + hex(
                    part.part_id@,
                )
                &&& asked[k]@ == host + "/kademlia/download/pull/"@ + hex(part.part_id@)
            },
{
    finds_as_many_as_asked(peers, part.part_id, 3);
    let host = closest(peers, part.part_id, 3)[k].uri@;
    assert(part.uris@[k]@ == (host + "/kademlia/upload/push/"@) + hex(part.part_id@));
}

/// A map whose keys are the first `count` numbers lists its values by number.
proof fn lemma_numbered<V>(m: Map<u32, V>, count: int)
    requires
        0 <= count <= u32::MAX,
        forall|i: u32| #[trigger] m.contains_key(i) <==> i < count,
    ensures
        ascending(m) == Seq::new(count as nat, |i: int| (i as u32, m[i as u32])),
{
    let list = Seq::new(count as nat, |i: int| (i as u32, m[i as u32]));
    assert(ascending_keys(list));
    lemma_entries_map(list);
    assert(entries_map(list) =~= m) by {
        assert forall|k: u32| entries_map(list).contains_key(k) == m.contains_key(k) by {
            if m.contains_key(k) {
                assert(list[k as int].0 == k);
            }
        }
        assert forall|k: u32| entries_map(list).contains_key(k) implies entries_map(list)[k]
            == m[k] by {
            assert(list[k as int].0 == k);
        }
    }
    lemma_ascending(list);
}

/// Where an object is put in plain parts, a get that follows asks for every part of
/// the object, by number: each by the digest of its bytes, and for no other; and it
/// can follow. Nothing but the record of that benchmark changes.
pub proof fn get_asks_for_every_part_of_the_put(
    s: StateView,
    id: int,
    object: Seq<u8>,
    put_start: Timestamp,
    put_end: Timestamp,
    i: int,
    name: [u8; 32],
)
    requires
        0 <= id < s.benchmarks.len(),
        s.benchmarks[id] == blank_benchmark(),
        s.config.inner_k * s.config.outer_k <= u32::MAX,
        0 <= i < s.config.inner_k * s.config.outer_k,
        name@ == sha256_digest(
            object.subrange(
                i * s.config.fragment_size,
                i * s.config.fragment_size + s.config.fragment_size,
            ),
        ),
    ensures
        ({
            let t = put_ended(put_in_parts(s, id, object, put_start), id, put_end);
            let b = t.benchmarks[id];
            let list = ascending(b.part_ids);
            &&& list.len() == s.config.inner_k * s.config.outer_k
            &&& list[i] == (i as u32, name)
            &&& b.object_hash == sha256_digest(object)
            &&& b.put_start == Some(put_start) && b.put_end == Some(put_end)
            &&& b.get_start is None && b.get_end is None
            &&& b.chunk_keys.len() == 0
            &&& differs_in_record(s, t, id)
        }),
{
    let size = s.config.fragment_size as int;
    let count = s.config.inner_k * s.config.outer_k;
    assert((i + 1) * size == i * size + size) by (nonlinear_arith);
    let ids = part_digests(object, size, count);
    let t = put_in_parts(s, id, object, put_start);
    assert(t.benchmarks[id].part_ids =~= ids);
    lemma_numbered(ids, count);
    lemma_bytes32(name);
}

/// The digests of parts are recorded under the numbers of the parts, besides those
/// that were recorded before, and nothing else changes.
pub proof fn every_part_is_recorded(
    s: StateView,
    id: int,
    ids: Seq<[u8; 32]>,
    i: u32,
)
    requires
        0 <= id < s.benchmarks.len(),
    ensures
        ({
            let t = with_part_ids(s, id, numbered_ids(ids, ids.len() as int));
            let (a, b) = (s.benchmarks[id], t.benchmarks[id]);
            &&& differs_in_record(s, t, id)
            &&& i < ids.len() ==> b.part_ids.contains_key(i) && b.part_ids[i] == ids[i as int]
            &&& i >= ids.len() ==> b.part_ids.contains_key(i) == a.part_ids.contains_key(i)
            &&& i >= ids.len() && a.part_ids.contains_key(i) ==> b.part_ids[i] == a.part_ids[i]
            &&& b.object_hash == a.object_hash && b.chunk_keys == a.chunk_keys
            &&& b.put_start == a.put_start && b.put_end == a.put_end
            &&& b.get_start == a.get_start && b.get_end == a.get_end
        }),
{
}

} // verus!
