//! Peers and the store that finds those closest to an identifier.

use crate::hash::{sha256, verifying_key};
#[allow(unused_imports)]
use crate::hash::{ed25519_verifying_key, sha256_digest};
use crate::sorted_map::Key;
#[allow(unused_imports)]
use crate::sorted_map::{agreement, lemma_agreement, lex_before};
use vstd::prelude::*;
#[allow(unused_imports)]
use vstd::relations::{sorted_by, total_ordering};
#[allow(unused_imports)]
use vstd::utf8::encode_utf8;

verus! {

pub type PeerId = [u8; 32];

/// A member of the network: the digest of its verifying key identifies it.
#[derive(Debug)]
pub struct Peer {
    pub id: PeerId,
    pub key: [u8; 32],
    pub uri: String,
}

impl Clone for Peer {
    fn clone(&self) -> (r: Self)
        ensures
            r == *self,
    {
        Peer { id: self.id, key: self.key, uri: self.uri.clone() }
    }
}

impl Peer {
    /// The secret of the Ed25519 signing key of the peer that is served at `uri`.
    pub fn signing_key(uri: &str) -> (r: [u8; 32])
        ensures
            r@ == sha256_digest(encode_utf8(uri@)),
    {
        sha256(uri.as_bytes())
    }

    /// The peer that is served at `uri`, with the secret of its signing key.
    pub fn of_secret(secret: &[u8; 32], uri: String) -> (r: Self)
        ensures
            r.uri == uri,
            r.key@ == ed25519_verifying_key(secret@),
            r.id@ == sha256_digest(r.key@),
    {
        let key = verifying_key(secret);
        Peer { id: sha256(key.as_slice()), key, uri }
    }

    /// The peer that is served at `uri`.
    pub fn new(uri: String) -> (r: Self)
        ensures
            r.uri == uri,
            r.key@ == ed25519_verifying_key(sha256_digest(encode_utf8(uri@))),
            r.id@ == sha256_digest(r.key@),
    {
        let secret = Self::signing_key(uri.as_str());
        Self::of_secret(&secret, uri)
    }
}

/// Bit `i` of `id`, counted from the most significant bit of the first byte.
pub open spec fn bit(id: Seq<u8>, i: int) -> bool {
    (id[i / 8] >> ((7 - i % 8) as u8)) & 1u8 == 1u8
}

/// The number of leading bits in which `a` and `b` agree, where they agree in the
/// first `i`.
pub open spec fn common_bits_from(a: Seq<u8>, b: Seq<u8>, i: int) -> int
    decreases 8 * a.len() - i,
{
    if i >= 8 * a.len() || bit(a, i) != bit(b, i) {
        i
    } else {
        common_bits_from(a, b, i + 1)
    }
}

/// The number of leading bits in which `a` and `b` agree.
pub open spec fn common_bits(a: Seq<u8>, b: Seq<u8>) -> int {
    common_bits_from(a, b, 0)
}

proof fn lemma_common_bits_from(a: Seq<u8>, b: Seq<u8>, i: int)
    requires
        0 <= i <= 8 * a.len(),
        forall|j: int| 0 <= j < i ==> #[trigger] bit(a, j) == bit(b, j),
    ensures
        i <= common_bits_from(a, b, i) <= 8 * a.len(),
        forall|j: int| 0 <= j < common_bits_from(a, b, i) ==> #[trigger] bit(a, j) == bit(b, j),
        common_bits_from(a, b, i) < 8 * a.len() ==> bit(a, common_bits_from(a, b, i)) != bit(
            b,
            common_bits_from(a, b, i),
        ),
    decreases 8 * a.len() - i,
{
    if i < 8 * a.len() && bit(a, i) == bit(b, i) {
        lemma_common_bits_from(a, b, i + 1);
    }
}

/// All bits before `common_bits(a, b)` agree, and that bit, if there is one,
/// does not.
pub proof fn lemma_common_bits(a: Seq<u8>, b: Seq<u8>)
    ensures
        0 <= common_bits(a, b) <= 8 * a.len(),
        forall|j: int| 0 <= j < common_bits(a, b) ==> #[trigger] bit(a, j) == bit(b, j),
        common_bits(a, b) < 8 * a.len() ==> bit(a, common_bits(a, b)) != bit(b, common_bits(a, b)),
{
    lemma_common_bits_from(a, b, 0);
}

/// No other number has the two properties of `common_bits`.
pub proof fn lemma_common_bits_unique(a: Seq<u8>, b: Seq<u8>, n: int)
    requires
        0 <= n <= 8 * a.len(),
        forall|j: int| 0 <= j < n ==> #[trigger] bit(a, j) == bit(b, j),
        n < 8 * a.len() ==> bit(a, n) != bit(b, n),
    ensures
        common_bits(a, b) == n,
{
    lemma_common_bits(a, b);
    let m = common_bits(a, b);
    if m < n {
        assert(bit(a, m) == bit(b, m));
    }
    if n < m {
        assert(bit(a, n) == bit(b, n));
    }
}

proof fn lemma_equal_byte(x: u8, y: u8)
    by (bit_vector)
    requires
        (x >> 7) & 1 == (y >> 7) & 1,
        (x >> 6) & 1 == (y >> 6) & 1,
        (x >> 5) & 1 == (y >> 5) & 1,
        (x >> 4) & 1 == (y >> 4) & 1,
        (x >> 3) & 1 == (y >> 3) & 1,
        (x >> 2) & 1 == (y >> 2) & 1,
        (x >> 1) & 1 == (y >> 1) & 1,
        (x >> 0) & 1 == (y >> 0) & 1,
    ensures
        x == y,
{
}

proof fn lemma_lesser_byte(x: u8, y: u8, j: u8)
    by (bit_vector)
    requires
        x < y,
        j < 8,
        j < 7 ==> (x >> 7) & 1 == (y >> 7) & 1,
        j < 6 ==> (x >> 6) & 1 == (y >> 6) & 1,
        j < 5 ==> (x >> 5) & 1 == (y >> 5) & 1,
        j < 4 ==> (x >> 4) & 1 == (y >> 4) & 1,
        j < 3 ==> (x >> 3) & 1 == (y >> 3) & 1,
        j < 2 ==> (x >> 2) & 1 == (y >> 2) & 1,
        j < 1 ==> (x >> 1) & 1 == (y >> 1) & 1,
        (x >> j) & 1 != (y >> j) & 1,
    ensures
        (x >> j) & 1 == 0,
{
}

proof fn lemma_bit_value(x: u8, j: u8)
    by (bit_vector)
    ensures
        (x >> j) & 1 == 0 || (x >> j) & 1 == 1,
{
}

/// The bits of byte `c`, one by one.
proof fn lemma_byte_bits(a: Seq<u8>, b: Seq<u8>, c: int, i: int)
    requires
        0 <= i < 8,
        bit(a, 8 * c + i) == bit(b, 8 * c + i),
    ensures
        (a[c] >> ((7 - i) as u8)) & 1 == (b[c] >> ((7 - i) as u8)) & 1,
{
    assert((8 * c + i) / 8 == c && (8 * c + i) % 8 == i);
    lemma_bit_value(a[c], (7 - i) as u8);
    lemma_bit_value(b[c], (7 - i) as u8);
}

/// Byte `c` is the same where its bits are.
proof fn lemma_byte(a: Seq<u8>, b: Seq<u8>, c: int)
    requires
        forall|j: int| 8 * c <= j < 8 * c + 8 ==> #[trigger] bit(a, j) == bit(b, j),
    ensures
        a[c] == b[c],
{
    lemma_byte_bits(a, b, c, 0);
    lemma_byte_bits(a, b, c, 1);
    lemma_byte_bits(a, b, c, 2);
    lemma_byte_bits(a, b, c, 3);
    lemma_byte_bits(a, b, c, 4);
    lemma_byte_bits(a, b, c, 5);
    lemma_byte_bits(a, b, c, 6);
    lemma_byte_bits(a, b, c, 7);
    lemma_equal_byte(a[c], b[c]);
}

/// Identifiers that agree in every bit are the same.
pub proof fn lemma_all_bits(a: Seq<u8>, b: Seq<u8>)
    requires
        a.len() == b.len(),
    ensures
        (common_bits(a, b) == 8 * a.len()) == (a == b),
{
    lemma_common_bits(a, b);
    if common_bits(a, b) == 8 * a.len() {
        assert forall|c: int| 0 <= c < a.len() implies a[c] == b[c] by {
            lemma_byte(a, b, c);
        }
        assert(a =~= b);
    } else if a == b {
        assert(bit(a, common_bits(a, b)) == bit(b, common_bits(a, b)));
    }
}

/// Of two identifiers the one that comes first has a zero in the first bit in
/// which they differ.
pub proof fn lemma_first_bit(a: Seq<u8>, b: Seq<u8>)
    requires
        a.len() == b.len(),
        lex_before(a, b),
    ensures
        common_bits(a, b) < 8 * a.len(),
        !bit(a, common_bits(a, b)),
        bit(b, common_bits(a, b)),
{
    let c = choose|i: int|
        #![trigger a[i], b[i]]
        0 <= i < a.len() && a[i] < b[i] && (forall|j: int| 0 <= j < i ==> #[trigger] a[j] == b[j]);
    lemma_common_bits(a, b);
    lemma_all_bits(a, b);
    let p = common_bits(a, b);
    assert(p < 8 * a.len());
    assert(p >= 8 * c) by {
        if p < 8 * c {
            assert(p / 8 < c);
            assert(a[p / 8] == b[p / 8]);
        }
    }
    assert(p < 8 * c + 8) by {
        if p >= 8 * c + 8 {
            lemma_byte(a, b, c);
        }
    }
    assert(p / 8 == c && p % 8 == p - 8 * c);
    let j = (7 - p % 8) as u8;
    lemma_bit_value(a[c], j);
    lemma_bit_value(b[c], j);
    if j < 7 {
        lemma_byte_bits(a, b, c, 0);
    }
    if j < 6 {
        lemma_byte_bits(a, b, c, 1);
    }
    if j < 5 {
        lemma_byte_bits(a, b, c, 2);
    }
    if j < 4 {
        lemma_byte_bits(a, b, c, 3);
    }
    if j < 3 {
        lemma_byte_bits(a, b, c, 4);
    }
    if j < 2 {
        lemma_byte_bits(a, b, c, 5);
    }
    if j < 1 {
        lemma_byte_bits(a, b, c, 6);
    }
    lemma_lesser_byte(a[c], b[c], j);
}

/// The number of leading bits in which the identifiers agree.
pub fn common_prefix_length(id1: &PeerId, id2: &PeerId) -> (r: u32)
    ensures
        r == common_bits(id1@, id2@),
{
    let mut byte_count: u32 = 0;
    while byte_count < 32 && id1[byte_count as usize] == id2[byte_count as usize]
        invariant
            byte_count <= 32,
            forall|c: int| 0 <= c < byte_count ==> #[trigger] id1@[c] == id2@[c],
        decreases 32 - byte_count,
    {
        byte_count += 1;
    }
    assert forall|j: int| 0 <= j < 8 * byte_count implies #[trigger] bit(id1@, j) == bit(id2@, j) by {
        assert(id1@[j / 8] == id2@[j / 8]);
    }
    if byte_count == 32 {
        proof {
            lemma_common_bits_unique(id1@, id2@, 256);
        }
        32 * 8
    } else {
        let x = id1[byte_count as usize];
        let y = id2[byte_count as usize];
        let zeros = (x ^ y).leading_zeros();
        proof {
            let z = x ^ y;
            vstd::std_specs::bits::axiom_u8_leading_zeros(z);
            assert(x ^ y == 0 ==> x == y) by (bit_vector);
            let n = 8 * byte_count + zeros;
            let top = (7 - zeros) as u8;
            assert((z >> top) & 1 != 0);
            assert((z >> top) & 1 != 0 ==> (x >> top) & 1 != (y >> top) & 1) by (bit_vector)
                requires
                    z == x ^ y,
            ;
            lemma_bit_value(x, top);
            lemma_bit_value(y, top);
            assert(n / 8 == byte_count && n % 8 == zeros);
            assert forall|j: int| 0 <= j < n implies #[trigger] bit(id1@, j) == bit(id2@, j) by {
                if j >= 8 * byte_count {
                    let k = (7 - j % 8) as u8;
                    assert(j / 8 == byte_count);
                    assert((z >> k) & 1 == 0);
                    assert((z >> k) & 1 == 0 ==> (x >> k) & 1 == (y >> k) & 1) by (bit_vector)
                        requires
                            z == x ^ y,
                    ;
                }
            }
            lemma_common_bits_unique(id1@, id2@, n);
        }
        byte_count * 8 + zeros
    }
}

/// The identifiers of `peers` are in ascending order.
pub open spec fn sorted_by_id(peers: Seq<Peer>) -> bool {
    forall|i: int, j: int|
        0 <= i < j < peers.len() ==> !(#[trigger] peers[j]).id.before((#[trigger] peers[i]).id)
}

/// The number of peers, of a list sorted by identifier, that come before
/// `target`.
pub open spec fn position(peers: Seq<Peer>, target: PeerId) -> int
    decreases peers.len(),
{
    if peers.len() == 0 {
        0
    } else if peers.last().id.before(target) {
        peers.len() as int
    } else {
        position(peers.drop_last(), target)
    }
}

/// How far from the position of a target, on either side, closest peers are
/// looked for.
pub const REACH: usize = 10;

/// The first position that is looked at.
pub open spec fn window_start(peers: Seq<Peer>, target: PeerId) -> int {
    let pos = position(peers, target);
    if pos < REACH {
        0
    } else {
        pos - REACH
    }
}

/// The position behind the last one that is looked at.
pub open spec fn window_end(peers: Seq<Peer>, target: PeerId) -> int {
    let pos = position(peers, target);
    if pos + REACH > peers.len() {
        peers.len() as int
    } else {
        pos + REACH
    }
}

/// The number of leading bits that the peer at `i` has in common with `target`.
pub open spec fn closeness(peers: Seq<Peer>, target: PeerId, i: int) -> int {
    common_bits(peers[i].id@, target@)
}

/// Position `i` is to be listed no later than `j`: its peer is closer, or as
/// close and further to the front.
pub open spec fn listed_before(peers: Seq<Peer>, target: PeerId) -> spec_fn(int, int) -> bool {
    |i: int, j: int|
        closeness(peers, target, i) > closeness(peers, target, j) || (closeness(peers, target, i)
            == closeness(peers, target, j) && i <= j)
}

/// The integers from `lo` to `hi`, without `hi`.
pub open spec fn positions(lo: int, hi: int) -> Seq<int> {
    Seq::new((hi - lo) as nat, |k: int| lo + k)
}

/// The positions around that of `target`, the closest first.
pub open spec fn ranking(peers: Seq<Peer>, target: PeerId) -> Seq<int> {
    positions(window_start(peers, target), window_end(peers, target)).sort_by(
        listed_before(peers, target),
    )
}

/// The first `count` peers of the ranking, or all of them where it is shorter.
pub open spec fn closest(peers: Seq<Peer>, target: PeerId, count: nat) -> Seq<Peer> {
    let ranked = ranking(peers, target);
    Seq::new(
        if count < ranked.len() { count } else { ranked.len() },
        |k: int| peers[ranked[k]],
    )
}

proof fn lemma_position(peers: Seq<Peer>, target: PeerId)
    requires
        sorted_by_id(peers),
    ensures
        0 <= position(peers, target) <= peers.len(),
        forall|i: int|
            0 <= i < position(peers, target) ==> (#[trigger] peers[i]).id.before(target),
        forall|i: int|
            position(peers, target) <= i < peers.len() ==> !(#[trigger] peers[i]).id.before(target),
    decreases peers.len(),
{
    if peers.len() != 0 {
        let n = peers.len() - 1;
        if peers[n].id.before(target) {
            assert forall|i: int| 0 <= i < peers.len() implies (#[trigger] peers[i]).id.before(
                target,
            ) by {
                if i < n {
                    let (a, b) = (peers[i].id, peers[n].id);
                    PeerId::total(a, b);
                    if a != b {
                        PeerId::transitive(a, b, target);
                    }
                }
            }
        } else {
            let front = peers.drop_last();
            assert forall|i: int, j: int| 0 <= i < j < front.len() implies !(
            #[trigger] front[j]).id.before((#[trigger] front[i]).id) by {
                assert(!peers[j].id.before(peers[i].id));
            }
            lemma_position(front, target);
            assert forall|i: int|
                0 <= i < position(peers, target) implies (#[trigger] peers[i]).id.before(target) by {
                assert(front[i] == peers[i]);
            }
            assert forall|i: int| position(peers, target) <= i < peers.len() implies !(
            #[trigger] peers[i]).id.before(target) by {
                if i < n {
                    assert(front[i] == peers[i]);
                }
            }
        }
    }
}

proof fn lemma_position_unique(peers: Seq<Peer>, target: PeerId, p: int)
    requires
        sorted_by_id(peers),
        0 <= p <= peers.len(),
        forall|i: int| 0 <= i < p ==> (#[trigger] peers[i]).id.before(target),
        forall|i: int| p <= i < peers.len() ==> !(#[trigger] peers[i]).id.before(target),
    ensures
        position(peers, target) == p,
{
    lemma_position(peers, target);
    let q = position(peers, target);
    if q < p {
        assert(peers[q].id.before(target));
    }
    if p < q {
        assert(!peers[p].id.before(target));
    }
}

proof fn lemma_listed_before_total(peers: Seq<Peer>, target: PeerId)
    ensures
        total_ordering(listed_before(peers, target)),
{
}

/// What the ranking holds: each position of the window once, the closest first.
pub proof fn lemma_ranking(peers: Seq<Peer>, target: PeerId)
    requires
        sorted_by_id(peers),
    ensures
        ranking(peers, target).len() == window_end(peers, target) - window_start(peers, target),
        forall|k: int|
            0 <= k < ranking(peers, target).len() ==> window_start(peers, target)
                <= #[trigger] ranking(peers, target)[k] < window_end(peers, target),
        forall|i: int|
            window_start(peers, target) <= i < window_end(peers, target)
                ==> #[trigger] ranking(peers, target).contains(i),
        forall|k: int, l: int|
            0 <= k < l < ranking(peers, target).len() ==> closeness(
                peers,
                target,
                #[trigger] ranking(peers, target)[k],
            ) >= closeness(peers, target, #[trigger] ranking(peers, target)[l]),
        forall|k: int, l: int|
            0 <= k < l < ranking(peers, target).len() && closeness(
                peers,
                target,
                #[trigger] ranking(peers, target)[k],
            ) == closeness(peers, target, #[trigger] ranking(peers, target)[l]) ==> ranking(
                peers,
                target,
            )[k] < ranking(peers, target)[l],
        ranking(peers, target).no_duplicates(),
{
    broadcast use vstd::seq_lib::group_to_multiset_ensures;

    lemma_position(peers, target);
    lemma_listed_before_total(peers, target);
    let (lo, hi) = (window_start(peers, target), window_end(peers, target));
    let leq = listed_before(peers, target);
    let all = positions(lo, hi);
    let ranked = ranking(peers, target);
    all.lemma_sort_by_ensures(leq);
    assert(ranked.to_multiset().len() == all.to_multiset().len());
    assert forall|k: int| 0 <= k < ranked.len() implies lo <= #[trigger] ranked[k] < hi by {
        assert(ranked.contains(ranked[k]));
        assert(all.contains(ranked[k]));
    }
    assert forall|i: int| lo <= i < hi implies #[trigger] ranked.contains(i) by {
        assert(all[i - lo] == i);
        assert(all.contains(i));
        assert(all.to_multiset().count(i) > 0);
    }
    assert forall|k: int, l: int| 0 <= k < l < ranked.len() implies closeness(
        peers,
        target,
        #[trigger] ranked[k],
    ) >= closeness(peers, target, #[trigger] ranked[l]) by {
        assert(leq(ranked[k], ranked[l]));
    }
    assert(all.no_duplicates());
    all.lemma_multiset_has_no_duplicates();
    ranked.lemma_multiset_has_no_duplicates_conv();
    assert forall|k: int, l: int|
        0 <= k < l < ranked.len() && closeness(peers, target, #[trigger] ranked[k]) == closeness(
            peers,
            target,
            #[trigger] ranked[l],
        ) implies ranked[k] < ranked[l] by {
        assert(leq(ranked[k], ranked[l]));
        assert(ranked[k] != ranked[l]);
    }
}

/// The peers of a network, sorted by identifier.
#[derive(Debug)]
pub struct Store {
    peers: Vec<Peer>,
}

impl View for Store {
    type V = Seq<Peer>;

    closed spec fn view(&self) -> Seq<Peer> {
        self.peers@
    }
}

/// The number of peers that come before `target`.
fn search(peers: &Vec<Peer>, target: &PeerId) -> (r: usize)
    requires
        sorted_by_id(peers@),
    ensures
        r == position(peers@, *target),
        r <= peers@.len(),
{
    let mut lo: usize = 0;
    let mut hi: usize = peers.len();
    while lo < hi
        invariant
            lo <= hi <= peers@.len(),
            sorted_by_id(peers@),
            forall|i: int| 0 <= i < lo ==> (#[trigger] peers@[i]).id.before(*target),
            forall|i: int| hi <= i < peers@.len() ==> !(#[trigger] peers@[i]).id.before(*target),
        decreases hi - lo,
    {
        let mid: usize = lo + (hi - lo) / 2;
        if peers[mid].id.precedes(target) {
            assert forall|i: int| 0 <= i < mid + 1 implies (#[trigger] peers@[i]).id.before(
                *target,
            ) by {
                if i < mid {
                    let (a, b) = (peers@[i].id, peers@[mid as int].id);
                    PeerId::total(a, b);
                    if a != b {
                        PeerId::transitive(a, b, *target);
                    }
                }
            }
            lo = mid + 1;
        } else {
            assert forall|i: int| mid <= i < peers@.len() implies !(
            #[trigger] peers@[i]).id.before(*target) by {
                if i > mid && peers@[i].id.before(*target) {
                    let (a, b) = (peers@[mid as int].id, peers@[i].id);
                    PeerId::total(a, b);
                    if a != b {
                        PeerId::transitive(a, b, *target);
                    }
                }
            }
            hi = mid;
        }
    }
    proof {
        lemma_position_unique(peers@, *target, lo as int);
    }
    lo
}

impl Store {
    #[verifier::type_invariant]
    spec fn sorted(self) -> bool {
        sorted_by_id(self.peers@)
    }

    /// A store of `peers`.
    pub fn new(peers: Vec<Peer>) -> (r: Self)
        ensures
            sorted_by_id(r@),
            r@.to_multiset() == peers@.to_multiset(),
    {
        let mut rest = peers;
        let mut sorted: Vec<Peer> = Vec::new();
        proof {
            vstd::seq_lib::to_multiset_len(sorted@);
            assert(sorted@.to_multiset().add(rest@.to_multiset()) =~= peers@.to_multiset());
        }
        while rest.len() > 0
            invariant
                sorted_by_id(sorted@),
                sorted@.to_multiset().add(rest@.to_multiset()) == peers@.to_multiset(),
            decreases rest@.len(),
        {
            let ghost before = rest@;
            let ghost done = sorted@;
            match rest.pop() {
                Some(peer) => {
                    let at = search(&sorted, &peer.id);
                    proof {
                        lemma_position(done, peer.id);
                    }
                    sorted.insert(at, peer);
                    proof {
                        let s = sorted@;
                        assert forall|i: int, j: int| 0 <= i < j < s.len() implies !(
                        #[trigger] s[j]).id.before((#[trigger] s[i]).id) by {
                            let i0 = if i < at { i } else { i - 1 };
                            let j0 = if j < at { j } else { j - 1 };
                            if i != at && j != at {
                                assert(s[i] == done[i0] && s[j] == done[j0]);
                                assert(!done[j0].id.before(done[i0].id));
                            } else if j == at {
                                assert(s[i] == done[i0]);
                                assert(done[i0].id.before(peer.id));
                                if peer.id.before(done[i0].id) {
                                    PeerId::transitive(peer.id, done[i0].id, peer.id);
                                    PeerId::irreflexive(peer.id);
                                }
                            } else {
                                assert(s[j] == done[j0]);
                            }
                        }
                        vstd::seq_lib::to_multiset_insert(done, at as int, peer);
                        assert(before =~= rest@.push(peer));
                        vstd::seq_lib::to_multiset_build(rest@, peer);
                        assert(sorted@.to_multiset().add(rest@.to_multiset())
                            =~= done.to_multiset().add(before.to_multiset()));
                    }
                },
                None => {},
            }
        }
        proof {
            vstd::seq_lib::to_multiset_len(rest@);
            assert(rest@.to_multiset() =~= vstd::multiset::Multiset::empty());
            assert(sorted@.to_multiset() =~= peers@.to_multiset());
        }
        Store { peers: sorted }
    }

    /// The peers in ascending order of identifier.
    pub fn peers(&self) -> (r: &Vec<Peer>)
        ensures
            r@ == self@,
            sorted_by_id(self@),
    {
        proof {
            use_type_invariant(self);
        }
        &self.peers
    }

    pub fn len(&self) -> (r: usize)
        ensures
            r == self@.len(),
    {
        self.peers.len()
    }

    /// The `count` peers around the position of `target` whose identifiers have
    /// the longest prefix in common with it, the closest first.
    pub fn closest_peers(&self, target: &[u8; 32], count: usize) -> (r: Vec<&Peer>)
        requires
            self@.len() >= count,
        ensures
            r@.map_values(|p: &Peer| *p) == closest(self@, *target, count as nat),
            sorted_by_id(self@),
    {
        proof {
            use_type_invariant(self);
            lemma_position(self@, *target);
        }
        let pos = search(&self.peers, target);
        let total = self.peers.len();
        let lo: usize = if pos < REACH { 0 } else { pos - REACH };
        let hi: usize = if total - pos < REACH { total } else { pos + REACH };
        let mut order: Vec<usize> = Vec::new();
        let ghost mut ranked: Seq<int> = Seq::empty();
        let ghost leq = listed_before(self@, *target);
        let mut i: usize = lo;
        proof {
            assert(positions(lo as int, lo as int) =~= ranked);
        }
        while i < hi
            invariant
                lo <= i <= hi <= total,
                total == self.peers@.len(),
                self.peers@ == self@,
                leq == listed_before(self@, *target),
                order@.len() == ranked.len(),
                forall|k: int| 0 <= k < ranked.len() ==> order@[k] == #[trigger] ranked[k],
                forall|k: int| 0 <= k < ranked.len() ==> lo <= #[trigger] ranked[k] < i,
                sorted_by(ranked, leq),
                ranked.to_multiset() == positions(lo as int, i as int).to_multiset(),
            decreases hi - i,
        {
            let length = common_prefix_length(&self.peers[i].id, target);
            let n = order.len();
            let mut at: usize = n;
            while at > 0 && common_prefix_length(&self.peers[order[at - 1]].id, target) < length
                invariant
                    at <= n,
                    n == order@.len(),
                    i < total,
                    total == self.peers@.len(),
                    self.peers@ == self@,
                    leq == listed_before(self@, *target),
                    order@.len() == ranked.len(),
                    length == closeness(self@, *target, i as int),
                    forall|k: int|
                        #![trigger order@[k]]
                        #![trigger ranked[k]]
                        0 <= k < ranked.len() ==> order@[k] == ranked[k] && lo <= ranked[k] < i,
                    forall|k: int|
                        at <= k < n ==> closeness(self@, *target, #[trigger] ranked[k]) < length,
                decreases at,
            {
                at = at - 1;
            }
            let ghost before = ranked;
            order.insert(at, i);
            proof {
                ranked = before.insert(at as int, i as int);
                assert forall|a: int, b: int| 0 <= a < b < ranked.len() implies #[trigger] leq(
                    ranked[a],
                    ranked[b],
                ) by {
                    let a0 = if a < at { a } else { a - 1 };
                    let b0 = if b < at { b } else { b - 1 };
                    if a != at && b != at {
                        assert(ranked[a] == before[a0] && ranked[b] == before[b0]);
                        assert(leq(before[a0], before[b0]));
                    } else if b == at {
                        assert(ranked[a] == before[a0]);
                        assert(at > 0);
                        if a0 < at - 1 {
                            assert(leq(before[a0], before[at - 1]));
                        }
                        assert(closeness(self@, *target, before[at - 1]) >= length);
                    } else {
                        assert(ranked[b] == before[b0]);
                        assert(closeness(self@, *target, before[b0]) < length);
                    }
                }
                vstd::seq_lib::to_multiset_insert(before, at as int, i as int);
                vstd::seq_lib::to_multiset_build(positions(lo as int, i as int), i as int);
                assert(positions(lo as int, i + 1) =~= positions(lo as int, i as int).push(i as int));
                assert forall|k: int| 0 <= k < ranked.len() implies order@[k] == #[trigger] ranked[k]
                    && lo <= ranked[k] < i + 1 by {
                    let k0 = if k < at { k } else { k - 1 };
                    if k != at {
                        assert(ranked[k] == before[k0]);
                    }
                }
            }
            i += 1;
        }
        proof {
            lemma_listed_before_total(self@, *target);
            positions(lo as int, hi as int).lemma_sort_by_ensures(leq);
            vstd::seq_lib::lemma_sorted_unique(ranked, ranking(self@, *target), leq);
        }
        let kept: usize = if count < order.len() { count } else { order.len() };
        let mut r: Vec<&Peer> = Vec::new();
        let mut k: usize = 0;
        while k < kept
            invariant
                k <= kept <= order@.len(),
                order@.len() == ranked.len(),
                ranked == ranking(self@, *target),
                self.peers@ == self@,
                forall|k: int|
                    0 <= k < ranked.len() ==> order@[k] == #[trigger] ranked[k] && ranked[k]
                        < self.peers@.len(),
                r@.len() == k,
                forall|l: int| 0 <= l < k ==> *(#[trigger] r@[l]) == self@[ranked[l]],
            decreases kept - k,
        {
            assert(order@[k as int] == ranked[k as int]);
            r.push(&self.peers[order[k]]);
            k += 1;
        }
        assert(r@.map_values(|p: &Peer| *p) =~= closest(self@, *target, count as nat));
        r
    }
}

/// An identifier between another one and the target shares at least as many
/// leading bits with the target as that other one does.
pub proof fn nearer_in_order_is_closer(a: PeerId, b: PeerId, target: PeerId)
    requires
        (!b.before(a) && !target.before(b)) || (!a.before(b) && !b.before(target)),
    ensures
        common_bits(a@, target@) <= common_bits(b@, target@),
{
    let p = common_bits(b@, target@);
    lemma_common_bits(b@, target@);
    lemma_common_bits(a@, target@);
    if common_bits(a@, target@) > p {
        assert(bit(a@, p) == bit(target@, p));
        assert(bit(b@, p) != bit(target@, p));
        assert forall|j: int| 0 <= j < p implies #[trigger] bit(a@, j) == bit(b@, j) by {
            assert(bit(a@, j) == bit(target@, j));
            assert(bit(b@, j) == bit(target@, j));
        }
        lemma_common_bits_unique(a@, b@, p);
        lemma_common_bits_unique(b@, a@, p);
        lemma_common_bits_unique(target@, b@, p);
        PeerId::total(a, b);
        PeerId::total(b, target);
        if b.before(target) {
            lemma_first_bit(b@, target@);
            lemma_first_bit(a@, b@);
        } else {
            lemma_first_bit(target@, b@);
            lemma_first_bit(b@, a@);
        }
    }
}

/// Of up to `REACH` peers asked for, as many are found, if the network has them.
pub proof fn finds_as_many_as_asked(peers: Seq<Peer>, target: PeerId, count: nat)
    requires
        sorted_by_id(peers),
        count <= REACH,
        count <= peers.len(),
    ensures
        closest(peers, target, count).len() == count,
{
    lemma_position(peers, target);
    lemma_ranking(peers, target);
}

/// A peer whose identifier is the target is the first that is found.
pub proof fn finds_identical_peer_first(peers: Seq<Peer>, target: PeerId, count: nat, i: int)
    requires
        sorted_by_id(peers),
        0 <= i < peers.len(),
        peers[i].id == target,
        count >= 1,
    ensures
        closest(peers, target, count).len() >= 1,
        closest(peers, target, count)[0].id == target,
        (forall|j: int| 0 <= j < peers.len() && j != i ==> (#[trigger] peers[j]).id != target)
            ==> closest(peers, target, count)[0] == peers[i],
{
    lemma_position(peers, target);
    lemma_ranking(peers, target);
    let pos = position(peers, target);
    let ranked = ranking(peers, target);
    PeerId::irreflexive(target);
    assert(pos <= i);
    assert(peers[pos].id == target) by {
        PeerId::total(peers[pos].id, target);
        if pos < i {
            assert(!peers[i].id.before(peers[pos].id));
        }
    }
    assert(ranked.contains(pos));
    let k = choose|k: int| 0 <= k < ranked.len() && ranked[k] == pos;
    lemma_all_bits(target@, target@);
    let first = peers[ranked[0]].id;
    if k > 0 {
        assert(closeness(peers, target, ranked[0]) >= closeness(peers, target, ranked[k]));
    }
    lemma_common_bits(first@, target@);
    lemma_all_bits(first@, target@);
    assert(first =~= target);
}

/// No peer that was left out is closer to the target than one that was found,
/// as long as no more than `REACH` are asked for.
pub proof fn finds_the_closest(peers: Seq<Peer>, target: PeerId, count: nat, k: int, j: int)
    requires
        sorted_by_id(peers),
        count <= REACH,
        count <= peers.len(),
        0 <= k < count,
        0 <= j < peers.len(),
        forall|l: int| 0 <= l < count ==> #[trigger] ranking(peers, target)[l] != j,
    ensures
        closest(peers, target, count)[k] == peers[ranking(peers, target)[k]],
        closeness(peers, target, j) <= common_bits(
            closest(peers, target, count)[k].id@,
            target@,
        ),
{
    lemma_position(peers, target);
    lemma_ranking(peers, target);
    finds_as_many_as_asked(peers, target, count);
    let pos = position(peers, target);
    let ranked = ranking(peers, target);
    let (lo, hi) = (window_start(peers, target), window_end(peers, target));
    let c = closeness(peers, target, j);
    if lo <= j < hi {
        assert(ranked.contains(j));
        let l = choose|l: int| 0 <= l < ranked.len() && ranked[l] == j;
        assert(l >= count);
        assert(closeness(peers, target, ranked[k]) >= closeness(peers, target, ranked[l]));
    } else if closeness(peers, target, ranked[k]) < c {
        let (first, end) = if j < lo { (lo, pos) } else { (pos, hi) };
        assert(end - first == REACH);
        let near = vstd::set_lib::set_int_range(first, end);
        let ahead = ranked.take(k);
        vstd::set_lib::lemma_int_range(first, end);
        ahead.lemma_cardinality_of_set();
        assert forall|i: int| #[trigger] near.contains(i) implies ahead.to_set().contains(i) by {
            if j < lo {
                assert(!peers[i].id.before(peers[j].id));
                assert(peers[i].id.before(target));
                if target.before(peers[i].id) {
                    PeerId::transitive(target, peers[i].id, target);
                    PeerId::irreflexive(target);
                }
            } else {
                assert(!peers[j].id.before(peers[i].id));
                assert(!peers[i].id.before(target));
            }
            nearer_in_order_is_closer(peers[j].id, peers[i].id, target);
            assert(ranked.contains(i));
            let l = choose|l: int| 0 <= l < ranked.len() && ranked[l] == i;
            if l > k {
                assert(closeness(peers, target, ranked[k]) >= closeness(peers, target, ranked[l]));
            }
            assert(l < k);
            assert(ahead[l] == i);
        }
        vstd::set_lib::lemma_len_subset(near, ahead.to_set());
    }
}

proof fn lemma_bits_of_byte(x: u8)
    by (bit_vector)
    ensures
        x == 128 * ((x >> 7) & 1) + 64 * ((x >> 6) & 1) + 32 * ((x >> 5) & 1) + 16 * ((x >> 4) & 1)
            + 8 * ((x >> 3) & 1) + 4 * ((x >> 2) & 1) + 2 * ((x >> 1) & 1) + ((x >> 0) & 1),
{
}

/// The value of a bit.
pub open spec fn bit_value(set: bool) -> int {
    if set {
        1
    } else {
        0
    }
}

/// The bits of an identifier are those of its bytes in the order in which they are
/// written: each byte starts with its most significant bit.
pub proof fn bits_spell_the_bytes(id: Seq<u8>, c: int)
    ensures
        id[c] == 128 * bit_value(bit(id, 8 * c)) + 64 * bit_value(bit(id, 8 * c + 1)) + 32
            * bit_value(bit(id, 8 * c + 2)) + 16 * bit_value(bit(id, 8 * c + 3)) + 8 * bit_value(
            bit(id, 8 * c + 4),
        ) + 4 * bit_value(bit(id, 8 * c + 5)) + 2 * bit_value(bit(id, 8 * c + 6)) + bit_value(
            bit(id, 8 * c + 7),
        ),
{
    lemma_bits_of_byte(id[c]);
    assert forall|i: int| 0 <= i < 8 implies bit_value(#[trigger] bit(id, 8 * c + i)) == (id[c] >> ((
    7 - i) as u8)) & 1 by {
        assert((8 * c + i) / 8 == c && (8 * c + i) % 8 == i);
        lemma_bit_value(id[c], (7 - i) as u8);
    }
    assert(8 * c == 8 * c + 0);
    assert(bit_value(bit(id, 8 * c + 0)) == (id[c] >> 7) & 1);
    assert(bit_value(bit(id, 8 * c + 1)) == (id[c] >> 6) & 1);
    assert(bit_value(bit(id, 8 * c + 2)) == (id[c] >> 5) & 1);
    assert(bit_value(bit(id, 8 * c + 3)) == (id[c] >> 4) & 1);
    assert(bit_value(bit(id, 8 * c + 4)) == (id[c] >> 3) & 1);
    assert(bit_value(bit(id, 8 * c + 5)) == (id[c] >> 2) & 1);
    assert(bit_value(bit(id, 8 * c + 6)) == (id[c] >> 1) & 1);
    assert(bit_value(bit(id, 8 * c + 7)) == (id[c] >> 0) & 1);
}

/// Where `place` of the peers, which are sorted, come before the target: those that
/// are found are among the ten before it and the ten after it, as many as are asked
/// for or as there are. The closest comes first; of two that are equally close, the
/// one of the lesser identifier. None of the ten on either side that was left out is
/// closer than one that was found.
pub proof fn closest_of_ten_on_either_side(
    peers: Seq<Peer>,
    target: PeerId,
    count: nat,
    place: int,
)
    requires
        sorted_by_id(peers),
        0 <= place <= peers.len(),
        forall|i: int| 0 <= i < place ==> lex_before((#[trigger] peers[i]).id@, target@),
        forall|i: int| place <= i < peers.len() ==> !lex_before((#[trigger] peers[i]).id@, target@),
    ensures
        ({
            let found = closest(peers, target, count);
            let lo = if place < 10 { 0 } else { place - 10 };
            let hi = if peers.len() - place < 10 { peers.len() as int } else { place + 10 };
            &&& found.len() == if count < hi - lo { count as int } else { hi - lo }
            &&& forall|k: int|
                0 <= k < found.len() ==> peers.subrange(lo, hi).contains(#[trigger] found[k])
            &&& forall|k: int, l: int|
                0 <= k < l < found.len() ==> {
                    let (a, b) = (
                        common_bits((#[trigger] found[k]).id@, target@),
                        common_bits((#[trigger] found[l]).id@, target@),
                    );
                    a > b || (a == b && !lex_before(found[l].id@, found[k].id@))
                }
            &&& forall|i: int, k: int|
                lo <= i < hi && 0 <= k < found.len() && !found.contains(#[trigger] peers[i])
                    ==> common_bits(peers[i].id@, target@) <= common_bits(
                    (#[trigger] found[k]).id@,
                    target@,
                )
        }),
{
    lemma_position_unique(peers, target, place);
    lemma_ranking(peers, target);
    let found = closest(peers, target, count);
    let ranked = ranking(peers, target);
    let (lo, hi) = (window_start(peers, target), window_end(peers, target));
    assert forall|k: int| 0 <= k < found.len() implies peers.subrange(lo, hi).contains(
        #[trigger] found[k],
    ) by {
        assert(peers.subrange(lo, hi)[ranked[k] - lo] == found[k]);
    }
    assert forall|k: int, l: int| 0 <= k < l < found.len() implies {
        let (a, b) = (
            common_bits((#[trigger] found[k]).id@, target@),
            common_bits((#[trigger] found[l]).id@, target@),
        );
        a > b || (a == b && !lex_before(found[l].id@, found[k].id@))
    } by {
        assert(closeness(peers, target, ranked[k]) >= closeness(peers, target, ranked[l]));
        if closeness(peers, target, ranked[k]) == closeness(peers, target, ranked[l]) {
            assert(!peers[ranked[l]].id.before(peers[ranked[k]].id));
        }
    }
    assert forall|i: int, k: int|
        lo <= i < hi && 0 <= k < found.len() && !found.contains(#[trigger] peers[i]) implies common_bits(
        peers[i].id@,
        target@,
    ) <= common_bits((#[trigger] found[k]).id@, target@) by {
        assert(ranked.contains(i));
        let l = choose|l: int| 0 <= l < ranked.len() && ranked[l] == i;
        if l < found.len() {
            assert(found[l] == peers[i]);
        }
        assert(closeness(peers, target, ranked[k]) >= closeness(peers, target, ranked[l]));
    }
}

/// Where no two peers have the same identifier, no peer is found twice.
pub proof fn no_peer_is_found_twice(peers: Seq<Peer>, target: PeerId, count: nat, k: int, l: int)
    requires
        sorted_by_id(peers),
        forall|i: int, j: int|
            0 <= i < j < peers.len() ==> (#[trigger] peers[i]).id != (#[trigger] peers[j]).id,
        0 <= k < l < closest(peers, target, count).len(),
    ensures
        closest(peers, target, count)[k].id != closest(peers, target, count)[l].id,
{
    lemma_position(peers, target);
    lemma_ranking(peers, target);
    let ranked = ranking(peers, target);
    assert(ranked[k] != ranked[l]);
}

/// Of up to ten peers asked for, as many are found, where the network has them; each
/// is of the network, and no peer of the network that was left out is closer than
/// one of them.
pub proof fn no_peer_left_out_is_closer(
    peers: Seq<Peer>,
    target: PeerId,
    count: nat,
    k: int,
    q: int,
)
    requires
        sorted_by_id(peers),
        count <= 10,
        count <= peers.len(),
        0 <= k < count,
        0 <= q < peers.len(),
    ensures
        closest(peers, target, count).len() == count,
        peers.contains(closest(peers, target, count)[k]),
        !closest(peers, target, count).contains(peers[q]) ==> common_bits(peers[q].id@, target@)
            <= common_bits(closest(peers, target, count)[k].id@, target@),
{
    finds_as_many_as_asked(peers, target, count);
    lemma_position(peers, target);
    lemma_ranking(peers, target);
    let found = closest(peers, target, count);
    let ranked = ranking(peers, target);
    assert(found[k] == peers[ranked[k]]);
    if !found.contains(peers[q]) {
        assert forall|l: int| 0 <= l < count implies #[trigger] ranked[l] != q by {
            assert(found[l] == peers[ranked[l]]);
        }
        finds_the_closest(peers, target, count, k, q);
    }
}

/// The peers that are found first do not depend on how many are asked for.
pub proof fn more_peers_follow_the_first(peers: Seq<Peer>, target: PeerId, m: nat, n: nat, k: int)
    requires
        m <= n,
        0 <= k < closest(peers, target, m).len(),
    ensures
        k < closest(peers, target, n).len(),
        closest(peers, target, m)[k] == closest(peers, target, n)[k],
{
}

} // verus!
