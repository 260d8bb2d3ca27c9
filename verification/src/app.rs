//! The state of a storage peer, and what its benchmarks record.

use crate::chunk::ChunkKey;
use crate::chunk_table::{ChunkTable, Tokened};
use crate::common::{decimal_string, same_bytes};
use crate::hash::{fill_random, sha256};
#[allow(unused_imports)]
use crate::hash::sha256_digest;
use crate::peer::{Peer, Store};
#[allow(unused_imports)]
use crate::common::{bytes32, lemma_bytes32};
#[allow(unused_imports)]
use crate::peer::{
    closest, common_bits, finds_as_many_as_asked, no_peer_left_out_is_closer, sorted_by_id,
};
use crate::sorted_map::SortedMap;
#[allow(unused_imports)]
use crate::sorted_map::{in_order, map_is_finite, orders};
#[allow(unused_imports)]
use crate::wirehair::encoder_create;
use crate::wirehair::{DecoderCreate, EncoderCreate, WirehairDecoder, WirehairEncoder};
use vstd::prelude::*;

verus! {

/// The four bytes of `n`, the least significant first.
pub open spec fn le_bytes(n: u32) -> Seq<u8> {
    seq![
        (n % 256) as u8,
        (n / 256 % 256) as u8,
        (n / 65536 % 256) as u8,
        (n / 16777216) as u8,
    ]
}

/// The bytes whose digest places fragment `index` of the chunk.
pub fn fragment_input(key: &ChunkKey, index: u32) -> (r: Vec<u8>)
    ensures
        r@ == key@ + le_bytes(index),
{
    let mut bytes: Vec<u8> = Vec::new();
    bytes.extend_from_slice(key.as_slice());
    assert(bytes@ =~= key@);
    bytes.push((index % 256) as u8);
    bytes.push((index / 256 % 256) as u8);
    bytes.push((index / 65536 % 256) as u8);
    bytes.push((index / 16777216) as u8);
    assert(bytes@ =~= key@ + le_bytes(index));
    bytes
}

/// The identifier that decides which peer stores fragment `index` of the chunk.
pub fn fragment_id(key: &ChunkKey, index: u32) -> (r: [u8; 32])
    ensures
        r@ == sha256_digest(key@ + le_bytes(index)),
        r == fragment_place(*key, index),
{
    let r = sha256(fragment_input(key, index).as_slice());
    proof {
        lemma_bytes32(r);
    }
    r
}

/// The identifier of fragment `index` of the chunk.
pub open spec fn fragment_place(key: ChunkKey, index: u32) -> [u8; 32] {
    bytes32(sha256_digest(key@ + le_bytes(index)))
}

/// The peer that is closest to fragment `index` of the chunk.
pub open spec fn fragment_owner(peers: Seq<Peer>, key: ChunkKey, index: u32) -> Peer {
    closest(peers, fragment_place(key, index), 1)[0]
}

/// The peer that is to store fragment `index` of the chunk.
pub(crate) fn closest_to_fragment(store: &Store, key: &ChunkKey, index: u32) -> (r: Peer)
    requires
        store@.len() > 0,
    ensures
        r == fragment_owner(store@, *key, index),
{
    let place = fragment_id(key, index);
    let found = store.closest_peers(&place, 1);
    proof {
        finds_as_many_as_asked(store@, place, 1);
        assert(found@.map_values(|p: &Peer| *p).len() == 1);
        assert(found@.map_values(|p: &Peer| *p)[0] == *found@[0]);
    }
    found[0].clone()
}

/// The four bytes spell the number, the least significant first.
pub proof fn bytes_spell_the_number(n: u32)
    ensures
        le_bytes(n).len() == 4,
        le_bytes(n)[0] + 0x100 * le_bytes(n)[1] + 0x1_0000 * le_bytes(n)[2] + 0x100_0000 * le_bytes(
            n,
        )[3] == n,
{
}

/// The peer that is to store a fragment is one of the network, and no peer of the
/// network has more leading bits in common with the digest of the key and the index
/// of the fragment than that one has.
pub proof fn fragment_goes_to_the_closest_peer(
    peers: Seq<Peer>,
    key: ChunkKey,
    index: u32,
    place: [u8; 32],
    q: int,
)
    requires
        sorted_by_id(peers),
        0 <= q < peers.len(),
        place@ == sha256_digest(key@ + le_bytes(index)),
    ensures
        peers.contains(fragment_owner(peers, key, index)),
        common_bits(peers[q].id@, place@) <= common_bits(
            fragment_owner(peers, key, index).id@,
            place@,
        ),
{
    lemma_bytes32(place);
    no_peer_left_out_is_closer(peers, place, 1, 0, q);
    let found = closest(peers, place, 1);
    if found.contains(peers[q]) {
        let k = choose|k: int| 0 <= k < found.len() && found[k] == peers[q];
        assert(k == 0);
    }
}

/// The value of a hexadecimal digit of either case.
pub open spec fn digit_value(c: char) -> Option<int> {
    if '0' <= c <= '9' {
        Some(c as int - 48)
    } else if 'a' <= c <= 'f' {
        Some(c as int - 87)
    } else if 'A' <= c <= 'F' {
        Some(c as int - 55)
    } else {
        None
    }
}

/// The value of two characters as a number in hexadecimal digits, where a plus
/// sign may stand before the last digit.
pub open spec fn pair_value(a: char, b: char) -> Option<int> {
    match (digit_value(a), digit_value(b)) {
        (Some(x), Some(y)) => Some(16 * x + y),
        (None, Some(y)) => if a == '+' {
            Some(y)
        } else {
            None
        },
        _ => None,
    }
}

/// The text names a key: 32 pairs of characters, each with a value.
pub open spec fn is_key_text(s: Seq<char>) -> bool {
    &&& s.len() == 64
    &&& forall|i: int| #![trigger s[2 * i]] 0 <= i < 32 ==> pair_value(s[2 * i], s[2 * i + 1]) is Some
}

/// The bytes of the key that a text names.
pub open spec fn key_of_text(s: Seq<char>) -> Seq<u8> {
    Seq::new(32, |i: int| pair_value(s[2 * i], s[2 * i + 1])->0 as u8)
}

fn digit(b: u8) -> (r: Option<u8>)
    ensures
        b < 128 ==> match r {
            Some(v) => digit_value(b as char) == Some(v as int),
            None => digit_value(b as char) is None,
        },
        r matches Some(v) ==> v < 16,
{
    if 48 <= b && b <= 57 {
        Some((b - 48) as u8)
    } else if 97 <= b && b <= 102 {
        Some((b - 87) as u8)
    } else if 65 <= b && b <= 70 {
        Some((b - 55) as u8)
    } else {
        None
    }
}

fn pair(a: u8, b: u8) -> (r: Option<u8>)
    ensures
        a < 128 && b < 128 ==> match r {
            Some(v) => pair_value(a as char, b as char) == Some(v as int),
            None => pair_value(a as char, b as char) is None,
        },
{
    match (digit(a), digit(b)) {
        (Some(x), Some(y)) => Some(16 * x + y),
        (None, Some(y)) => {
            if a == 43 {
                Some(y)
            } else {
                None
            }
        },
        _ => None,
    }
}

/// The key that `s` names, if it names one.
pub fn read_key(s: &str) -> (r: Option<ChunkKey>)
    ensures
        match r {
            Some(key) => is_key_text(s@) && key@ == key_of_text(s@) && key == text_key(s@),
            None => !is_key_text(s@),
        },
{
    broadcast use vstd::string::is_ascii_spec_bytes;

    if !s.is_ascii() {
        proof {
            if is_key_text(s@) {
                assert forall|i: int| 0 <= i < s@.len() implies '\0' <= #[trigger] s@[i] <= '\u{7f}' by {
                    let k = i / 2;
                    assert(pair_value(s@[2 * k], s@[2 * k + 1]) is Some);
                    assert(i == 2 * k || i == 2 * k + 1);
                }
                assert(s.is_ascii());
            }
        }
        return None;
    }
    let bytes = s.as_bytes();
    if bytes.len() != 64 {
        return None;
    }
    let mut key: [u8; 32] = [0u8; 32];
    let mut i: usize = 0;
    while i < 32
        invariant
            i <= 32,
            s.is_ascii(),
            s@.len() == 64,
            bytes@.len() == 64,
            forall|j: int| 0 <= j < 64 ==> #[trigger] bytes@[j] == s@[j] as u8 && (s@[j] as nat) < 128,
            forall|j: int|
                #![trigger s@[2 * j]]
                0 <= j < i ==> pair_value(s@[2 * j], s@[2 * j + 1]) is Some,
            forall|j: int|
                0 <= j < i ==> #[trigger] key@[j] == pair_value(s@[2 * j], s@[2 * j + 1])->0 as u8,
        decreases 32 - i,
    {
        let (a, b) = (bytes[2 * i], bytes[2 * i + 1]);
        assert(a as char == s@[2 * i] && b as char == s@[2 * i + 1]);
        match pair(a, b) {
            Some(v) => {
                key[i] = v;
            },
            None => {
                assert(pair_value(s@[2 * i], s@[2 * i + 1]) is None);
                return None;
            },
        }
        i += 1;
    }
    proof {
        assert(key@ =~= key_of_text(s@));
        lemma_bytes32(key);
    }
    Some(key)
}

/// The key that `s` names.
pub fn parse_key(s: &str) -> (r: ChunkKey)
    requires
        is_key_text(s@),
    ensures
        r@ == key_of_text(s@),
        r == text_key(s@),
{
    match read_key(s) {
        Some(key) => key,
        None => [0u8; 32],
    }
}

/// The key that a text names.
pub open spec fn text_key(s: Seq<char>) -> ChunkKey {
    bytes32(key_of_text(s))
}

/// The text of a key in hexadecimal digits names that key.
pub proof fn key_text_round_trip(key: ChunkKey)
    ensures
        is_key_text(crate::common::hex(key@)),
        key_of_text(crate::common::hex(key@)) == key@,
        text_key(crate::common::hex(key@)) == key,
{
    lemma_bytes32(key);
    let s = crate::common::hex(key@);
    assert forall|i: int| #![trigger s[2 * i]] 0 <= i < 32 implies pair_value(s[2 * i], s[2 * i + 1])
        == Some(key@[i] as int) by {
        assert(s[2 * i] == crate::common::hex_char(key@[i] as int / 16));
        assert(s[2 * i + 1] == crate::common::hex_char(key@[i] as int % 16));
    }
    assert(key_of_text(s) =~= key@);
}

/// A hexadecimal digit of either case.
pub open spec fn is_digit(c: char) -> bool {
    ('0' <= c <= '9') || ('a' <= c <= 'f') || ('A' <= c <= 'F')
}

/// A text names a key exactly if it has 64 characters, each of them a hexadecimal
/// digit of either case or, where a pair begins, a plus sign.
pub proof fn key_text_is_made_of_digits(s: Seq<char>)
    ensures
        is_key_text(s) <==> s.len() == 64 && forall|i: int|
            0 <= i < 64 ==> is_digit(#[trigger] s[i]) || (i % 2 == 0 && s[i] == '+'),
{
    if is_key_text(s) {
        assert forall|i: int| 0 <= i < 64 implies is_digit(#[trigger] s[i]) || (i % 2 == 0 && s[i]
            == '+') by {
            let k = i / 2;
            assert(pair_value(s[2 * k], s[2 * k + 1]) is Some);
            assert(i == 2 * k || i == 2 * k + 1);
        }
    }
    if s.len() == 64 && forall|i: int|
        0 <= i < 64 ==> is_digit(#[trigger] s[i]) || (i % 2 == 0 && s[i] == '+') {
        assert forall|i: int| #![trigger s[2 * i]] 0 <= i < 32 implies pair_value(
            s[2 * i],
            s[2 * i + 1],
        ) is Some by {
            assert(is_digit(s[2 * i]) || s[2 * i] == '+');
            assert((2 * i + 1) % 2 == 1);
            assert(is_digit(s[2 * i + 1]));
        }
    }
}

/// Byte `i` of the key that a text names is the number that the pair of digits at
/// `2 * i` writes, in digits of either case; a plus sign counts as nothing.
pub proof fn key_text_spells_the_bytes(s: Seq<char>, i: int, high: int, low: int)
    requires
        is_key_text(s),
        0 <= i < 32,
        0 <= high < 16,
        0 <= low < 16,
        s[2 * i] == "0123456789abcdef"@[high] || s[2 * i] == "0123456789ABCDEF"@[high] || (s[2 * i]
            == '+' && high == 0),
        s[2 * i + 1] == "0123456789abcdef"@[low] || s[2 * i + 1] == "0123456789ABCDEF"@[low],
    ensures
        key_of_text(s).len() == 32,
        key_of_text(s)[i] == 16 * high + low,
{
    reveal_strlit("0123456789abcdef");
    reveal_strlit("0123456789ABCDEF");
}

/// Different fragments have files of their own: they differ in the directory or
/// in the name.
pub proof fn fragments_have_files_of_their_own(a: ChunkKey, i: u32, b: ChunkKey, j: u32)
    requires
        a != b || i != j,
    ensures
        crate::common::hex(a@) != crate::common::hex(b@) || crate::common::decimal(i as nat)
            != crate::common::decimal(j as nat),
{
    if crate::common::hex(a@) == crate::common::hex(b@) {
        key_text_round_trip(a);
        key_text_round_trip(b);
        if crate::common::decimal(i as nat) == crate::common::decimal(j as nat) {
            crate::common::decimal_is_injective(i as nat, j as nat);
        }
    }
}

/// `route`, at the host of `uri`, for the thing named `name`.
pub open spec fn route_uri(uri: Seq<char>, route: Seq<char>, name: Seq<char>) -> Seq<char> {
    uri + route + name
}

/// `route`, at the host of `uri`, for number `index` of the thing named `name`.
pub open spec fn route_index_uri(
    uri: Seq<char>,
    route: Seq<char>,
    name: Seq<char>,
    index: u32,
) -> Seq<char> {
    uri + route + name + "/"@ + crate::common::decimal(index as nat)
}

/// A URI starts with that of the host, goes on with the route, and ends with the
/// name, and the number where there is one, behind a slash.
pub proof fn uri_names_host_route_and_thing(
    uri: Seq<char>,
    route: Seq<char>,
    name: Seq<char>,
    index: u32,
)
    ensures
        ({
            let plain = route_uri(uri, route, name);
            let numbered = route_index_uri(uri, route, name, index);
            let (a, b) = (uri.len() as int, (uri.len() + route.len()) as int);
            &&& plain.len() == b + name.len()
            &&& plain.subrange(0, a) == uri
            &&& plain.subrange(a, b) == route
            &&& plain.skip(b) == name
            &&& numbered.len() > plain.len() + 1
            &&& numbered.take(plain.len() as int) == plain
            &&& numbered[plain.len() as int] == '/'
            &&& numbered.skip(plain.len() as int + 1) == crate::common::decimal(index as nat)
        }),
{
    reveal_strlit("/");
    crate::common::decimal_digits_spell_the_number(index as nat);
    let plain = route_uri(uri, route, name);
    let numbered = route_index_uri(uri, route, name, index);
    let (a, b) = (uri.len() as int, (uri.len() + route.len()) as int);
    assert(plain.subrange(0, a) =~= uri);
    assert(plain.subrange(a, b) =~= route);
    assert(plain.skip(b) =~= name);
    assert(numbered.take(plain.len() as int) =~= plain);
    assert(numbered.skip(plain.len() as int + 1) =~= crate::common::decimal(index as nat));
}

/// URIs for different things, or for different numbers of one thing, differ.
pub proof fn uris_tell_things_apart(
    uri: Seq<char>,
    route: Seq<char>,
    a: ChunkKey,
    i: u32,
    b: ChunkKey,
    j: u32,
)
    ensures
        route_uri(uri, route, crate::common::hex(a@)) == route_uri(
            uri,
            route,
            crate::common::hex(b@),
        ) ==> a == b,
        route_index_uri(uri, route, crate::common::hex(a@), i) == route_index_uri(
            uri,
            route,
            crate::common::hex(b@),
            j,
        ) ==> a == b && i == j,
{
    let (x, y) = (crate::common::hex(a@), crate::common::hex(b@));
    uri_names_host_route_and_thing(uri, route, x, i);
    uri_names_host_route_and_thing(uri, route, y, j);
    key_text_round_trip(a);
    key_text_round_trip(b);
    if route_index_uri(uri, route, x, i) == route_index_uri(uri, route, y, j) {
        assert(route_uri(uri, route, x) == route_uri(uri, route, y));
        crate::common::decimal_is_injective(i as nat, j as nat);
    }
}

pub(crate) fn make_uri(uri: &str, route: &str, name: &str) -> (r: String)
    ensures
        r@ == route_uri(uri@, route@, name@),
{
    uri.to_owned().concat(route).concat(name)
}

pub(crate) fn make_index_uri(uri: &str, route: &str, name: &str, index: u32) -> (r: String)
    ensures
        r@ == route_index_uri(uri@, route@, name@, index),
{
    uri.to_owned().concat(route).concat(name).concat("/").concat(
        decimal_string(index as u64).as_str(),
    )
}

/// How a peer codes and where it stores.
#[derive(Debug)]
pub struct StateConfig {
    pub fragment_size: u32,
    pub inner_k: u32,
    pub inner_n: u32,
    pub outer_k: u32,
    pub outer_n: u32,
    pub chunk_path: String,
    pub repair: bool,
    pub peer: Peer,
    pub peer_secret: [u8; 32],
}

impl Clone for StateConfig {
    fn clone(&self) -> (r: Self)
        ensures
            r == *self,
    {
        StateConfig {
            fragment_size: self.fragment_size,
            inner_k: self.inner_k,
            inner_n: self.inner_n,
            outer_k: self.outer_k,
            outer_n: self.outer_n,
            chunk_path: self.chunk_path.clone(),
            repair: self.repair,
            peer: self.peer.clone(),
            peer_secret: self.peer_secret,
        }
    }
}

impl StateConfig {
    /// The bytes of a chunk.
    pub open spec fn chunk_bytes(self) -> int {
        self.fragment_size * self.inner_k
    }

    /// The bytes of an object.
    pub open spec fn object_bytes(self) -> int {
        self.fragment_size * self.inner_k * self.outer_k
    }

    /// A chunk has `inner_k` fragments, and an object has `outer_k` chunks.
    pub proof fn sizes_are_multiples(self)
        ensures
            self.chunk_bytes() == self.inner_k * self.fragment_size,
            self.object_bytes() == self.outer_k * self.chunk_bytes(),
    {
        let (f, k, n) = (self.fragment_size as int, self.inner_k as int, self.outer_k as int);
        assert(f * k == k * f && f * k * n == n * (f * k)) by (nonlinear_arith);
    }

    pub fn chunk_size(&self) -> (r: u32)
        requires
            self.chunk_bytes() <= u32::MAX,
        ensures
            r == self.chunk_bytes(),
    {
        self.fragment_size * self.inner_k
    }

    pub fn object_size(&self) -> (r: u64)
        requires
            self.chunk_bytes() <= u32::MAX,
        ensures
            r == self.object_bytes(),
    {
        let chunk = self.chunk_size();
        assert(chunk * self.outer_k <= u64::MAX) by (nonlinear_arith)
            requires
                chunk <= u32::MAX,
                self.outer_k <= u32::MAX,
        ;
        chunk as u64 * self.outer_k as u64
    }
}

/// A point in time, counted from the Unix epoch.
#[derive(Debug, Clone, Copy, PartialEq, Eq, Structural)]
pub struct Timestamp {
    pub secs: u64,
    pub nanos: u32,
}

#[verifier::ext_equal]
pub struct BenchmarkView {
    pub object_hash: Seq<u8>,
    pub put_start: Option<Timestamp>,
    pub put_end: Option<Timestamp>,
    pub get_start: Option<Timestamp>,
    pub get_end: Option<Timestamp>,
    pub chunk_keys: Seq<ChunkKey>,
    pub part_ids: Map<u32, [u8; 32]>,
}

/// What is recorded of one object that was put and got.
pub struct StateBenchmark {
    pub object_hash: [u8; 32],
    pub put_start: Option<Timestamp>,
    pub put_end: Option<Timestamp>,
    pub get_start: Option<Timestamp>,
    pub get_end: Option<Timestamp>,
    pub chunk_keys: Vec<ChunkKey>,
    pub part_ids: SortedMap<u32, [u8; 32]>,
}

impl View for StateBenchmark {
    type V = BenchmarkView;

    open spec fn view(&self) -> BenchmarkView {
        BenchmarkView {
            object_hash: self.object_hash@,
            put_start: self.put_start,
            put_end: self.put_end,
            get_start: self.get_start,
            get_end: self.get_end,
            chunk_keys: self.chunk_keys@,
            part_ids: self.part_ids@,
        }
    }
}

/// A benchmark of which nothing is recorded yet.
pub open spec fn blank_benchmark() -> BenchmarkView {
    BenchmarkView {
        object_hash: Seq::new(32, |i: int| 0u8),
        put_start: None,
        put_end: None,
        get_start: None,
        get_end: None,
        chunk_keys: Seq::empty(),
        part_ids: Map::empty(),
    }
}

impl Default for StateBenchmark {
    fn default() -> (r: Self)
        ensures
            r@ == blank_benchmark(),
    {
        let r = StateBenchmark {
            object_hash: [0u8; 32],
            put_start: None,
            put_end: None,
            get_start: None,
            get_end: None,
            chunk_keys: Vec::new(),
            part_ids: SortedMap::new(),
        };
        assert(r@ =~= blank_benchmark());
        r
    }
}

impl Clone for StateBenchmark {
    fn clone(&self) -> (r: Self)
        ensures
            r@ == self@,
    {
        let chunk_keys = self.chunk_keys.clone();
        let part_ids = self.part_ids.clone();
        proof {
            assert(chunk_keys@ =~= self.chunk_keys@) by {
                assert forall|i: int| 0 <= i < chunk_keys@.len() implies chunk_keys@[i]
                    == self.chunk_keys@[i] by {
                    assert(cloned(self.chunk_keys@[i], chunk_keys@[i]));
                    assert(chunk_keys@[i] =~= self.chunk_keys@[i]);
                }
            }
            assert(part_ids@ =~= self.part_ids@) by {
                assert forall|k: u32| part_ids@.contains_key(k) implies part_ids@[k]
                    == self.part_ids@[k] by {
                    assert(cloned(self.part_ids@[k], part_ids@[k]));
                    assert(part_ids@[k] =~= self.part_ids@[k]);
                }
            }
        }
        StateBenchmark {
            object_hash: self.object_hash,
            put_start: self.put_start,
            put_end: self.put_end,
            get_start: self.get_start,
            get_end: self.get_end,
            chunk_keys,
            part_ids,
        }
    }
}

/// A peer that stores fragment `index` of a chunk.
#[derive(Debug)]
pub struct ChunkMember {
    pub index: u32,
    pub peer: Peer,
}

impl Clone for ChunkMember {
    fn clone(&self) -> (r: Self)
        ensures
            r == *self,
    {
        ChunkMember { index: self.index, peer: self.peer.clone() }
    }
}

/// The members of a chunk by the index of their fragment.
pub type Members = SortedMap<u32, ChunkMember>;

pub(crate) fn copy_members(members: &Members) -> (r: Members)
    ensures
        r@ == members@,
{
    let r = members.clone();
    assert(r@ =~= members@) by {
        assert forall|k: u32| r@.contains_key(k) implies r@[k] == members@[k] by {
            assert(cloned(members@[k], r@[k]));
        }
    }
    r
}

#[verifier::ext_equal]
pub struct UploadView {
    pub chunk_index: u32,
    pub members: Map<u32, ChunkMember>,
}

/// A chunk that this peer uploads.
pub struct UploadChunkState {
    pub chunk_index: u32,
    pub members: Members,
}

impl View for UploadChunkState {
    type V = UploadView;

    open spec fn view(&self) -> UploadView {
        UploadView { chunk_index: self.chunk_index, members: self.members@ }
    }
}

#[verifier::ext_equal]
pub struct ChunkView {
    pub index: u32,
    pub members: Map<u32, ChunkMember>,
    pub has_fragment: u64,
    pub repair_finish: bool,
}

/// A chunk of which this peer stores fragment `index`. The fragment is on disk
/// once the token `has_fragment` is among the stored ones. `repair_finish` says
/// that the end of a repair is to be reported.
pub struct ChunkState {
    pub index: u32,
    pub members: Members,
    pub has_fragment: u64,
    pub repair_finish: bool,
}

impl Tokened for ChunkState {
    open spec fn token(&self) -> u64 {
        self.has_fragment
    }
}

impl View for ChunkState {
    type V = ChunkView;

    open spec fn view(&self) -> ChunkView {
        ChunkView {
            index: self.index,
            members: self.members@,
            has_fragment: self.has_fragment,
            repair_finish: self.repair_finish,
        }
    }
}

#[verifier::ext_equal]
pub struct StateView {
    pub config: StateConfig,
    pub benchmarks: Seq<BenchmarkView>,
    pub uploads: Map<ChunkKey, UploadView>,
    pub chunks: Map<ChunkKey, ChunkView>,
    pub parts: Set<[u8; 32]>,
    pub peers: Seq<Peer>,
    pub stored: Set<u64>,
    pub next_token: u64,
}

/// What a storage peer keeps.
pub struct State {
    config: StateConfig,
    benchmarks: Vec<StateBenchmark>,
    upload_chunk_states: SortedMap<ChunkKey, UploadChunkState>,
    chunk_states: ChunkTable<ChunkState>,
    parts: SortedMap<[u8; 32], ()>,
    peer_store: Store,
}

impl View for State {
    type V = StateView;

    closed spec fn view(&self) -> StateView {
        StateView {
            config: self.config,
            benchmarks: self.benchmarks@.map_values(|b: StateBenchmark| b@),
            uploads: self.upload_chunk_states@.map_values(|u: UploadChunkState| u@),
            chunks: self.chunk_states@.chunks.map_values(|c: ChunkState| c@),
            parts: self.parts@.dom(),
            peers: self.peer_store@,
            stored: self.chunk_states@.stored,
            next_token: self.chunk_states@.next_token,
        }
    }
}

impl StateView {
    /// Every token in use was handed out, and each chunk has one of its own.
    pub open spec fn tokens_fresh(self) -> bool {
        &&& forall|k: ChunkKey| #[trigger]
            self.chunks.contains_key(k) ==> self.chunks[k].has_fragment < self.next_token
        &&& forall|t: u64| #[trigger] self.stored.contains(t) ==> t < self.next_token
        &&& forall|k: ChunkKey, l: ChunkKey| #[trigger]
            self.chunks.contains_key(k) && #[trigger] self.chunks.contains_key(l) && k != l
                ==> self.chunks[k].has_fragment != self.chunks[l].has_fragment
    }

    /// No chunk but that of `key` may have the token, which was handed out.
    pub open spec fn token_fits(self, key: ChunkKey, token: u64) -> bool {
        &&& token < self.next_token
        &&& forall|k: ChunkKey| #[trigger]
            self.chunks.contains_key(k) && k != key ==> self.chunks[k].has_fragment != token
    }

    /// The fragment of chunk `key` is on disk.
    pub open spec fn has_fragment(self, key: ChunkKey) -> bool {
        self.stored.contains(self.chunks[key].has_fragment)
    }

    /// There are finitely many chunks, parts and members.
    pub open spec fn is_finite(self) -> bool {
        &&& self.chunks.dom().finite()
        &&& self.uploads.dom().finite()
        &&& self.parts.finite()
        &&& forall|k: ChunkKey| #[trigger]
            self.chunks.contains_key(k) ==> self.chunks[k].members.dom().finite()
        &&& forall|k: ChunkKey| #[trigger]
            self.uploads.contains_key(k) ==> self.uploads[k].members.dom().finite()
    }
}

/// Whatever a peer keeps is finite.
pub proof fn state_is_finite(s: State)
    ensures
        s@.is_finite(),
{
    map_is_finite(s.upload_chunk_states);
    map_is_finite(s.parts);
    crate::chunk_table::table_is_finite(s.chunk_states);
    assert(s@.chunks.dom() =~= s.chunk_states@.chunks.dom());
    assert(s@.uploads.dom() =~= s.upload_chunk_states@.dom());
    assert forall|k: ChunkKey| #[trigger]
        s@.chunks.contains_key(k) implies s@.chunks[k].members.dom().finite() by {
        map_is_finite(s.chunk_states@.chunks[k].members);
    }
    assert forall|k: ChunkKey| #[trigger]
        s@.uploads.contains_key(k) implies s@.uploads[k].members.dom().finite() by {
        map_is_finite(s.upload_chunk_states@[k].members);
    }
}

/// That the fragment of one chunk is on disk says nothing of another chunk.
pub proof fn fragments_are_stored_one_by_one(s: StateView, key: ChunkKey, other: ChunkKey)
    requires
        s.tokens_fresh(),
        s.chunks.contains_key(key),
        s.chunks.contains_key(other),
        key != other,
    ensures
        ({
            let t = StateView { stored: s.stored.insert(s.chunks[key].has_fragment), ..s };
            &&& t.has_fragment(key)
            &&& t.has_fragment(other) == s.has_fragment(other)
            &&& t.tokens_fresh()
        }),
{
}

/// The two ways in which an object is stored.
#[derive(Debug, Clone, Copy, PartialEq, Eq, Structural)]
pub enum Protocol {
    Entropy,
    Kademlia,
}

/// The protocol that a text names.
pub open spec fn protocol_of(text: Seq<char>) -> Option<Protocol> {
    if text == "entropy"@ {
        Some(Protocol::Entropy)
    } else if text == "kademlia"@ {
        Some(Protocol::Kademlia)
    } else {
        None
    }
}

pub fn read_protocol(text: &str) -> (r: Option<Protocol>)
    ensures
        r == protocol_of(text@),
{
    let name = text.to_owned();
    if name == "entropy".to_owned() {
        Some(Protocol::Entropy)
    } else if name == "kademlia".to_owned() {
        Some(Protocol::Kademlia)
    } else {
        None
    }
}

/// Where each chunk of the table has a token of its own, the same holds of the
/// state.
proof fn lemma_tokens(s: State)
    requires
        s.chunk_states@.fresh(),
    ensures
        s@.tokens_fresh(),
{
    let table = s.chunk_states@;
    assert forall|k: ChunkKey, l: ChunkKey| #[trigger]
        s@.chunks.contains_key(k) && #[trigger] s@.chunks.contains_key(l) && k
            != l implies s@.chunks[k].has_fragment != s@.chunks[l].has_fragment by {
        assert(table.chunks.contains_key(k) && table.chunks.contains_key(l));
        assert(table.fits(k, table.chunks[k].token()));
    }
    assert forall|k: ChunkKey| #[trigger]
        s@.chunks.contains_key(k) implies s@.chunks[k].has_fragment < s@.next_token by {
        assert(table.chunks.contains_key(k));
        assert(table.fits(k, table.chunks[k].token()));
    }
}

impl State {
    pub fn new(config: StateConfig, peer_store: Store) -> (r: Self)
        ensures
            r@ == (StateView {
                config,
                benchmarks: Seq::empty(),
                uploads: Map::empty(),
                chunks: Map::empty(),
                parts: Set::empty(),
                peers: peer_store@,
                stored: Set::empty(),
                next_token: 0,
            }),
            r@.tokens_fresh(),
    {
        let r = State {
            config,
            benchmarks: Vec::new(),
            upload_chunk_states: SortedMap::new(),
            chunk_states: ChunkTable::new(),
            parts: SortedMap::new(),
            peer_store,
        };
        assert(r@ =~= (StateView {
            config,
            benchmarks: Seq::empty(),
            uploads: Map::empty(),
            chunks: Map::empty(),
            parts: Set::empty(),
            peers: peer_store@,
            stored: Set::empty(),
            next_token: 0,
        }));
        r
    }

    pub fn config(&self) -> (r: &StateConfig)
        ensures
            *r == self@.config,
    {
        &self.config
    }

    pub fn peer_store(&self) -> (r: &Store)
        ensures
            r@ == self@.peers,
    {
        &self.peer_store
    }

    pub fn has_benchmark(&self, id: usize) -> (r: bool)
        ensures
            r == (id < self@.benchmarks.len()),
    {
        id < self.benchmarks.len()
    }

    pub fn has_upload(&self, key: &ChunkKey) -> (r: bool)
        ensures
            r == self@.uploads.contains_key(*key),
    {
        self.upload_chunk_states.contains_key(key)
    }

    /// What is known of the upload of chunk `key`.
    pub fn upload(&self, key: &ChunkKey) -> (r: Option<&UploadChunkState>)
        ensures
            match r {
                Some(upload) => self@.uploads.contains_key(*key) && upload@ == self@.uploads[*key],
                None => !self@.uploads.contains_key(*key),
            },
    {
        self.upload_chunk_states.get(key)
    }

    pub fn has_chunk(&self, key: &ChunkKey) -> (r: bool)
        ensures
            r == self@.chunks.contains_key(*key),
    {
        self.chunk_states.contains_key(key)
    }

    /// What is known of chunk `key`.
    pub fn chunk(&self, key: &ChunkKey) -> (r: Option<&ChunkState>)
        ensures
            match r {
                Some(chunk) => self@.chunks.contains_key(*key) && chunk@ == self@.chunks[*key],
                None => !self@.chunks.contains_key(*key),
            },
    {
        self.chunk_states.get(key)
    }

    /// The keys of the chunks in ascending order.
    pub fn chunk_keys(&self) -> (r: Vec<ChunkKey>)
        ensures
            r@ == in_order(self@.chunks.dom()),
            orders(r@, self@.chunks.dom()),
    {
        assert(self@.chunks.dom() =~= self.chunk_states@.chunks.dom());
        self.chunk_states.keys()
    }

    pub fn has_part(&self, part_id: &[u8; 32]) -> (r: bool)
        ensures
            r == self@.parts.contains(*part_id),
    {
        self.parts.contains_key(part_id)
    }

    /// The parts in ascending order.
    pub fn part_ids(&self) -> (r: Vec<[u8; 32]>)
        ensures
            r@ == in_order(self@.parts),
            orders(r@, self@.parts),
    {
        self.parts.keys()
    }

    /// Whether the fragment of chunk `key` is on disk.
    pub fn has_fragment(&self, key: &ChunkKey) -> (r: bool)
        ensures
            r == (self@.chunks.contains_key(*key) && self@.has_fragment(*key)),
    {
        match self.chunk_states.get(key) {
            Some(chunk) => self.chunk_states.is_stored(chunk.has_fragment),
            None => false,
        }
    }

    /// The token that is handed out next.
    pub fn next_token(&self) -> (r: u64)
        ensures
            r == self@.next_token,
            self@.tokens_fresh(),
    {
        let r = self.chunk_states.next_token();
        proof {
            lemma_tokens(*self);
        }
        r
    }

    /// Adds a record.
    pub(crate) fn push_benchmark(&mut self, benchmark: StateBenchmark) -> (r: usize)
        ensures
            r == old(self)@.benchmarks.len(),
            final(self)@ == (StateView {
                benchmarks: old(self)@.benchmarks.push(benchmark@),
                ..old(self)@
            }),
    {
        let id = self.benchmarks.len();
        self.benchmarks.push(benchmark);
        assert(self@ =~= (StateView {
            benchmarks: old(self)@.benchmarks.push(benchmark@),
            ..old(self)@
        }));
        id
    }

    /// Replaces the record of benchmark `id`.
    pub(crate) fn set_benchmark(&mut self, id: usize, benchmark: StateBenchmark)
        requires
            id < old(self)@.benchmarks.len(),
        ensures
            final(self)@ == (StateView {
                benchmarks: old(self)@.benchmarks.update(id as int, benchmark@),
                ..old(self)@
            }),
    {
        self.benchmarks.set(id, benchmark);
        assert(self@ =~= (StateView {
            benchmarks: old(self)@.benchmarks.update(id as int, benchmark@),
            ..old(self)@
        }));
    }

    /// Replaces what is known of the upload of chunk `key`.
    pub(crate) fn set_upload(&mut self, key: ChunkKey, upload: UploadChunkState)
        ensures
            final(self)@ == (StateView {
                uploads: old(self)@.uploads.insert(key, upload@),
                ..old(self)@
            }),
    {
        let _ = self.upload_chunk_states.insert(key, upload);
        assert(self@ =~= (StateView {
            uploads: old(self)@.uploads.insert(key, upload@),
            ..old(self)@
        }));
    }

    /// Takes the upload of chunk `key` out of the state.
    pub(crate) fn take_upload(&mut self, key: &ChunkKey) -> (r: UploadChunkState)
        requires
            old(self)@.uploads.contains_key(*key),
        ensures
            r@ == old(self)@.uploads[*key],
            final(self)@ == (StateView { uploads: old(self)@.uploads.remove(*key), ..old(self)@ }),
    {
        let r = self.upload_chunk_states.remove(key);
        assert(self@ =~= (StateView { uploads: old(self)@.uploads.remove(*key), ..old(self)@ }));
        match r {
            Some(upload) => upload,
            None => UploadChunkState { chunk_index: 0, members: SortedMap::new() },
        }
    }

    /// Adds a chunk of which this peer is to store fragment `index`.
    pub(crate) fn add_chunk(&mut self, key: ChunkKey, index: u32, members: Members)
        requires
            old(self)@.next_token < u64::MAX,
        ensures
            final(self)@ == (StateView {
                chunks: old(self)@.chunks.insert(
                    key,
                    (ChunkView {
                        index,
                        members: members@,
                        has_fragment: old(self)@.next_token,
                        repair_finish: false,
                    }),
                ),
                next_token: (old(self)@.next_token + 1) as u64,
                ..old(self)@
            }),
            final(self)@.tokens_fresh(),
            !final(self)@.has_fragment(key),
    {
        let token = self.chunk_states.issue();
        let chunk = ChunkState { index, members, has_fragment: token, repair_finish: false };
        assert(self.chunk_states@.fits(key, token));
        self.chunk_states.insert(key, chunk);
        proof {
            lemma_tokens(*self);
            assert(self@ =~= (StateView {
                chunks: old(self)@.chunks.insert(key, chunk@),
                next_token: (old(self)@.next_token + 1) as u64,
                ..old(self)@
            }));
        }
    }

    /// Replaces what is known of chunk `key`.
    pub(crate) fn set_chunk(&mut self, key: ChunkKey, chunk: ChunkState)
        requires
            old(self)@.token_fits(key, chunk.has_fragment),
        ensures
            final(self)@ == (StateView {
                chunks: old(self)@.chunks.insert(key, chunk@),
                ..old(self)@
            }),
            final(self)@.tokens_fresh(),
    {
        proof {
            let table = self.chunk_states@;
            assert forall|k: ChunkKey| #[trigger] table.chunks.contains_key(k) && k
                != key implies table.chunks[k].token() != chunk.has_fragment by {
                assert(self@.chunks.contains_key(k));
            }
        }
        self.chunk_states.insert(key, chunk);
        proof {
            lemma_tokens(*self);
            assert(self@ =~= (StateView {
                chunks: old(self)@.chunks.insert(key, chunk@),
                ..old(self)@
            }));
        }
    }

    /// Takes chunk `key` out of the state. It may come back with its token.
    pub(crate) fn take_chunk(&mut self, key: &ChunkKey) -> (r: ChunkState)
        requires
            old(self)@.chunks.contains_key(*key),
        ensures
            r@ == old(self)@.chunks[*key],
            final(self)@ == (StateView { chunks: old(self)@.chunks.remove(*key), ..old(self)@ }),
            final(self)@.token_fits(*key, r.has_fragment),
            final(self)@.tokens_fresh(),
    {
        let r = self.chunk_states.remove(key);
        proof {
            lemma_tokens(*self);
            assert(self@ =~= (StateView { chunks: old(self)@.chunks.remove(*key), ..old(self)@ }));
            assert(old(self).chunk_states@.chunks.contains_key(*key));
            let table = self.chunk_states@;
            assert forall|k: ChunkKey| #[trigger] self@.chunks.contains_key(k) && k
                != *key implies self@.chunks[k].has_fragment != r->0.has_fragment by {
                assert(table.chunks.contains_key(k));
                assert(table.fits(*key, r->0.token()));
            }
        }
        match r {
            Some(chunk) => chunk,
            None => ChunkState {
                index: 0,
                members: SortedMap::new(),
                has_fragment: 0,
                repair_finish: false,
            },
        }
    }

    /// The fragment of `token` is on disk now.
    pub(crate) fn store_fragment(&mut self, token: u64)
        requires
            token < old(self)@.next_token,
        ensures
            final(self)@ == (StateView { stored: old(self)@.stored.insert(token), ..old(self)@ }),
            final(self)@.tokens_fresh(),
    {
        self.chunk_states.store(token);
        proof {
            lemma_tokens(*self);
            assert(self@ =~= (StateView { stored: old(self)@.stored.insert(token), ..old(self)@ }));
        }
    }

    pub(crate) fn add_part(&mut self, part_id: [u8; 32])
        ensures
            final(self)@ == (StateView { parts: old(self)@.parts.insert(part_id), ..old(self)@ }),
    {
        let _ = self.parts.insert(part_id, ());
        assert(self@ =~= (StateView { parts: old(self)@.parts.insert(part_id), ..old(self)@ }));
    }

    pub(crate) fn remove_part(&mut self, part_id: &[u8; 32])
        ensures
            final(self)@ == (StateView { parts: old(self)@.parts.remove(*part_id), ..old(self)@ }),
    {
        let _ = self.parts.remove(part_id);
        assert(self@ =~= (StateView { parts: old(self)@.parts.remove(*part_id), ..old(self)@ }));
    }
}

/// Starts a benchmark and says which task is to put an object for it.
pub fn benchmark_put(data: &mut State, protocol: &str) -> (r: (usize, Protocol))
    requires
        protocol_of(protocol@) is Some,
    ensures
        r.0 == old(data)@.benchmarks.len(),
        protocol_of(protocol@) == Some(r.1),
        final(data)@ == (StateView {
            benchmarks: old(data)@.benchmarks.push(blank_benchmark()),
            ..old(data)@
        }),
{
    let id = data.push_benchmark(StateBenchmark::default());
    match read_protocol(protocol) {
        Some(chosen) => (id, chosen),
        None => (id, Protocol::Entropy),
    }
}

/// Says which task is to get the object of benchmark `index` back.
pub fn benchmark_get(data: &State, index: usize, protocol: &str) -> (r: Protocol)
    requires
        index < data@.benchmarks.len(),
        protocol_of(protocol@) is Some,
    ensures
        protocol_of(protocol@) == Some(r),
{
    match read_protocol(protocol) {
        Some(chosen) => chosen,
        None => Protocol::Entropy,
    }
}

/// What is recorded of benchmark `index`.
pub fn poll_benchmark(data: &State, index: usize) -> (r: StateBenchmark)
    requires
        index < data@.benchmarks.len(),
    ensures
        r@ == data@.benchmarks[index as int],
{
    data.benchmarks[index].clone()
}

/// The state with another record of benchmark `id`.
pub open spec fn with_benchmark(s: StateView, id: int, benchmark: BenchmarkView) -> StateView {
    StateView { benchmarks: s.benchmarks.update(id, benchmark), ..s }
}

/// The state after an object of that digest began to be put for benchmark `id`.
pub open spec fn put_begun(s: StateView, id: int, hash: Seq<u8>, now: Timestamp) -> StateView {
    with_benchmark(
        s,
        id,
        (BenchmarkView { object_hash: hash, put_start: Some(now), ..s.benchmarks[id] }),
    )
}

/// The state after the object of benchmark `id` was put.
pub open spec fn put_ended(s: StateView, id: int, now: Timestamp) -> StateView {
    with_benchmark(s, id, (BenchmarkView { put_end: Some(now), ..s.benchmarks[id] }))
}

/// The state after the object of benchmark `id` began to be got.
pub open spec fn get_begun(s: StateView, id: int, now: Timestamp) -> StateView {
    with_benchmark(s, id, (BenchmarkView { get_start: Some(now), ..s.benchmarks[id] }))
}

/// The state after the object of benchmark `id` was got.
pub open spec fn get_ended(s: StateView, id: int, now: Timestamp) -> StateView {
    with_benchmark(s, id, (BenchmarkView { get_end: Some(now), ..s.benchmarks[id] }))
}

/// The digest of `object` is the one that benchmark `id` records.
pub open spec fn is_recorded(s: StateView, id: int, object: Seq<u8>) -> bool {
    sha256_digest(object) == s.benchmarks[id].object_hash
}

/// An object that was put, and is got back unchanged, is taken for the one that
/// was put.
pub proof fn object_that_was_put_is_recognised(
    s: StateView,
    id: int,
    object: Seq<u8>,
    put_start: Timestamp,
    put_end: Timestamp,
    get_start: Timestamp,
)
    requires
        0 <= id < s.benchmarks.len(),
    ensures
        ({
            let put = put_begun(s, id, sha256_digest(object), put_start);
            is_recorded(get_begun(put_ended(put, id, put_end), id, get_start), id, object)
        }),
{
}

/// Nothing but an object of the same digest is taken for the one that was put.
pub proof fn other_objects_are_not_recognised(
    s: StateView,
    id: int,
    object: Seq<u8>,
    got: Seq<u8>,
    put_start: Timestamp,
    put_end: Timestamp,
    get_start: Timestamp,
)
    requires
        0 <= id < s.benchmarks.len(),
        sha256_digest(got) != sha256_digest(object),
    ensures
        ({
            let put = put_begun(s, id, sha256_digest(object), put_start);
            !is_recorded(get_begun(put_ended(put, id, put_end), id, get_start), id, got)
        }),
{
}

/// `t` differs from `s` in nothing but the record of benchmark `id`.
pub open spec fn differs_in_record(s: StateView, t: StateView, id: int) -> bool {
    &&& t.benchmarks.len() == s.benchmarks.len()
    &&& forall|i: int|
        0 <= i < s.benchmarks.len() && i != id ==> #[trigger] t.benchmarks[i] == s.benchmarks[i]
    &&& t.config == s.config
    &&& t.uploads == s.uploads
    &&& t.chunks == s.chunks
    &&& t.parts == s.parts
    &&& t.peers == s.peers
    &&& t.stored == s.stored
    &&& t.next_token == s.next_token
}

/// Each step of a benchmark records its own time, the first also the digest of the
/// object, and leaves everything else as it was: what the steps before recorded, the
/// keys and the parts, the other benchmarks, and the rest of the state.
pub proof fn each_step_records_its_own_time(
    s: StateView,
    id: int,
    hash: Seq<u8>,
    now: Timestamp,
)
    requires
        0 <= id < s.benchmarks.len(),
    ensures
        ({
            let was = s.benchmarks[id];
            let (a, b) = (put_begun(s, id, hash, now), put_ended(s, id, now));
            let (c, d) = (get_begun(s, id, now), get_ended(s, id, now));
            let (p, q, r, t) = (
                a.benchmarks[id],
                b.benchmarks[id],
                c.benchmarks[id],
                d.benchmarks[id],
            );
            &&& differs_in_record(s, a, id) && differs_in_record(s, b, id)
            &&& differs_in_record(s, c, id) && differs_in_record(s, d, id)
            &&& p.object_hash == hash
            &&& q.object_hash == was.object_hash && r.object_hash == was.object_hash
            &&& t.object_hash == was.object_hash
            &&& p.put_start == Some(now) && q.put_end == Some(now)
            &&& r.get_start == Some(now) && t.get_end == Some(now)
            &&& q.put_start == was.put_start && r.put_start == was.put_start
            &&& t.put_start == was.put_start
            &&& p.put_end == was.put_end && r.put_end == was.put_end && t.put_end == was.put_end
            &&& p.get_start == was.get_start && q.get_start == was.get_start
            &&& t.get_start == was.get_start
            &&& p.get_end == was.get_end && q.get_end == was.get_end && r.get_end == was.get_end
            &&& p.chunk_keys == was.chunk_keys && q.chunk_keys == was.chunk_keys
            &&& r.chunk_keys == was.chunk_keys && t.chunk_keys == was.chunk_keys
            &&& p.part_ids == was.part_ids && q.part_ids == was.part_ids
            &&& r.part_ids == was.part_ids && t.part_ids == was.part_ids
        }),
{
}

/// Of a new benchmark nothing is recorded: no digest, no time, no chunk and no part.
pub proof fn new_benchmark_is_blank()
    ensures
        forall|i: int| 0 <= i < 32 ==> #[trigger] blank_benchmark().object_hash[i] == 0,
        blank_benchmark().object_hash.len() == 32,
        blank_benchmark().put_start is None,
        blank_benchmark().put_end is None,
        blank_benchmark().get_start is None,
        blank_benchmark().get_end is None,
        blank_benchmark().chunk_keys.len() == 0,
        blank_benchmark().part_ids.dom().is_empty(),
{
}

/// Records that the object of benchmark `id`, which has this digest, starts to be
/// put.
pub fn begin_put(data: &mut State, id: usize, object_hash: [u8; 32], now: Timestamp)
    requires
        id < old(data)@.benchmarks.len(),
    ensures
        final(data)@ == put_begun(old(data)@, id as int, object_hash@, now),
{
    let mut benchmark = data.benchmarks[id].clone();
    benchmark.object_hash = object_hash;
    benchmark.put_start = Some(now);
    data.set_benchmark(id, benchmark);
}

/// Records that the object of benchmark `id` is put.
pub fn finish_put(data: &mut State, id: usize, now: Timestamp)
    requires
        id < old(data)@.benchmarks.len(),
    ensures
        final(data)@ == put_ended(old(data)@, id as int, now),
{
    let mut benchmark = data.benchmarks[id].clone();
    benchmark.put_end = Some(now);
    data.set_benchmark(id, benchmark);
}

/// Whether the object of benchmark `id` was put, and is not being got yet.
pub fn can_get(data: &State, id: usize) -> (r: bool)
    ensures
        r == (id < data@.benchmarks.len() && data@.benchmarks[id as int].put_end is Some
            && data@.benchmarks[id as int].get_start is None),
{
    id < data.benchmarks.len() && data.benchmarks[id].put_end.is_some()
        && data.benchmarks[id].get_start.is_none()
}

/// Records that the object of benchmark `id` starts to be got.
pub fn begin_get(data: &mut State, id: usize, now: Timestamp)
    requires
        id < old(data)@.benchmarks.len(),
        old(data)@.benchmarks[id as int].put_end is Some,
        old(data)@.benchmarks[id as int].get_start is None,
    ensures
        final(data)@ == get_begun(old(data)@, id as int, now),
{
    let mut benchmark = data.benchmarks[id].clone();
    benchmark.get_start = Some(now);
    data.set_benchmark(id, benchmark);
}

/// Records that the object of benchmark `id` is got, and gives back the digest of
/// the one that was put.
pub fn end_get(data: &mut State, id: usize, now: Timestamp) -> (r: [u8; 32])
    requires
        id < old(data)@.benchmarks.len(),
    ensures
        r@ == old(data)@.benchmarks[id as int].object_hash,
        final(data)@ == get_ended(old(data)@, id as int, now),
{
    let mut benchmark = data.benchmarks[id].clone();
    benchmark.get_end = Some(now);
    let object_hash = benchmark.object_hash;
    data.set_benchmark(id, benchmark);
    object_hash
}

/// Whether `object` has that digest.
pub fn has_hash(object: &[u8], object_hash: &[u8; 32]) -> (r: bool)
    ensures
        r == (sha256_digest(object@) == object_hash@),
{
    let digest = sha256(object);
    same_hash(&digest, object_hash)
}

/// Records that the object of benchmark `id` is got, and says whether `object`
/// is the one that was put.
pub fn finish_get(data: &mut State, id: usize, object: &[u8], now: Timestamp) -> (r: bool)
    requires
        id < old(data)@.benchmarks.len(),
    ensures
        r == is_recorded(old(data)@, id as int, object@),
        final(data)@ == get_ended(old(data)@, id as int, now),
{
    let object_hash = end_get(data, id, now);
    has_hash(object, &object_hash)
}

/// Whether the two digests are the same.
pub fn same_hash(a: &[u8; 32], b: &[u8; 32]) -> (r: bool)
    ensures
        r == (a@ == b@),
{
    let r = same_bytes(a, b);
    assert(a@ == b@ ==> *a =~= *b);
    r
}

/// An object that is to be put, with its digest.
pub struct DrawnObject {
    pub object: Vec<u8>,
    pub object_hash: [u8; 32],
}

/// The object with its digest.
pub fn hash_object(object: Vec<u8>) -> (r: DrawnObject)
    ensures
        r.object == object,
        r.object_hash@ == sha256_digest(object@),
{
    let object_hash = sha256(object.as_slice());
    DrawnObject { object, object_hash }
}

/// Draws an object of random bytes.
pub fn draw_object(config: &StateConfig) -> (r: DrawnObject)
    requires
        config.chunk_bytes() <= u32::MAX,
        config.object_bytes() <= usize::MAX,
    ensures
        r.object@.len() == config.object_bytes(),
        r.object_hash@ == sha256_digest(r.object@),
{
    let mut object: Vec<u8> = vec![0u8; config.object_size() as usize];
    fill_random(&mut object);
    hash_object(object)
}

/// What is to be done to put an object in coded chunks: an encoder for the
/// object, and one upload for each of `chunk_count` chunks.
pub struct EntropyPut {
    pub encoder: EncoderCreate,
    pub chunk_count: u32,
}

/// Starts to put the object in coded chunks, at a time after its digest was
/// taken.
pub fn entropy_put(data: &mut State, id: usize, drawn: &DrawnObject, now: Timestamp) -> (r:
    EntropyPut)
    requires
        id < old(data)@.benchmarks.len(),
        old(data)@.config.chunk_bytes() <= u32::MAX,
    ensures
        r.encoder == encoder_create(drawn.object@, old(data)@.config.chunk_bytes() as u32),
        r.encoder.message_bytes == drawn.object@.len(),
        r.chunk_count == old(data)@.config.outer_n,
        final(data)@ == put_begun(old(data)@, id as int, drawn.object_hash@, now),
{
    begin_put(data, id, drawn.object_hash, now);
    let encoder = WirehairEncoder::create(drawn.object.as_slice(), data.config.chunk_size());
    EntropyPut { encoder, chunk_count: data.config.outer_n }
}

/// What is to be done to get an object back from its chunks: a decoder for the
/// object, fed with the chunks of these keys.
pub struct EntropyGet {
    pub decoder: DecoderCreate,
    pub chunk_keys: Vec<ChunkKey>,
}

/// Starts to get the object of benchmark `id` back from its chunks.
pub fn entropy_get(data: &mut State, id: usize, now: Timestamp) -> (r: EntropyGet)
    requires
        id < old(data)@.benchmarks.len(),
        old(data)@.benchmarks[id as int].put_end is Some,
        old(data)@.benchmarks[id as int].get_start is None,
        old(data)@.config.chunk_bytes() <= u32::MAX,
    ensures
        r.chunk_keys@ == old(data)@.benchmarks[id as int].chunk_keys,
        r.decoder.message_bytes == old(data)@.config.object_bytes(),
        r.decoder.block_bytes == old(data)@.config.chunk_bytes(),
        final(data)@ == get_begun(old(data)@, id as int, now),
{
    begin_get(data, id, now);
    let benchmark = poll_benchmark(data, id);
    EntropyGet {
        decoder: WirehairDecoder::create(data.config.object_size(), data.config.chunk_size()),
        chunk_keys: benchmark.chunk_keys,
    }
}

/// The length of the buffer that a recovered object needs.
pub fn object_buffer(data: &State) -> (r: usize)
    requires
        data@.config.chunk_bytes() <= u32::MAX,
        data@.config.object_bytes() <= usize::MAX,
    ensures
        r == data@.config.object_bytes(),
{
    data.config.object_size() as usize
}

} // verus!
