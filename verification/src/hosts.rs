//! The peers of a network, from the file that lists their hosts.

use crate::common::decimal_string;
#[allow(unused_imports)]
use crate::common::decimal;
#[allow(unused_imports)]
use crate::hash::{ed25519_verifying_key, sha256_digest};
use crate::peer::{Peer, Store};
#[allow(unused_imports)]
use crate::peer::{closest, finds_as_many_as_asked, finds_identical_peer_first};
use vstd::prelude::*;
use vstd::string::StrSliceExecFns;
#[allow(unused_imports)]
use vstd::utf8::encode_utf8;

verus! {

/// The port of the first peer of each host.
pub const FIRST_PORT: u64 = 10000;

/// Unicode white space.
pub open spec fn is_white(c: char) -> bool {
    ||| '\u{9}' <= c <= '\u{d}'
    ||| c == ' '
    ||| c == '\u{85}'
    ||| c == '\u{a0}'
    ||| c == '\u{1680}'
    ||| '\u{2000}' <= c <= '\u{200a}'
    ||| c == '\u{2028}'
    ||| c == '\u{2029}'
    ||| c == '\u{202f}'
    ||| c == '\u{205f}'
    ||| c == '\u{3000}'
}

fn white(c: char) -> (r: bool)
    ensures
        r == is_white(c),
{
    ('\u{9}' <= c && c <= '\u{d}') || c == ' ' || c == '\u{85}' || c == '\u{a0}' || c == '\u{1680}'
        || ('\u{2000}' <= c && c <= '\u{200a}') || c == '\u{2028}' || c == '\u{2029}' || c
        == '\u{202f}' || c == '\u{205f}' || c == '\u{3000}'
}

/// `s` without the white space that it starts with.
pub open spec fn trim_start(s: Seq<char>) -> Seq<char>
    decreases s.len(),
{
    if s.len() > 0 && is_white(s[0]) {
        trim_start(s.skip(1))
    } else {
        s
    }
}

/// `s` without the white space that it ends with.
pub open spec fn trim_end(s: Seq<char>) -> Seq<char>
    decreases s.len(),
{
    if s.len() > 0 && is_white(s.last()) {
        trim_end(s.drop_last())
    } else {
        s
    }
}

/// `s` without the white space around it.
pub open spec fn trimmed(s: Seq<char>) -> Seq<char> {
    trim_end(trim_start(s))
}

/// The number of characters of white space that `s` starts with.
fn leading_white(s: &str) -> (r: usize)
    ensures
        r <= s@.len(),
        trim_start(s@) == s@.skip(r as int),
{
    let n = s.unicode_len();
    let mut a: usize = 0;
    assert(s@.skip(0) =~= s@);
    while a < n
        invariant
            a <= n,
            n == s@.len(),
            trim_start(s@) == trim_start(s@.skip(a as int)),
        decreases n - a,
    {
        if !white(s.get_char(a)) {
            return a;
        }
        assert(s@.skip(a as int).skip(1) =~= s@.skip(a + 1));
        a += 1;
    }
    a
}

/// The length of `s` without the white space that it ends with.
fn length_without_trailing_white(s: &str) -> (r: usize)
    ensures
        r <= s@.len(),
        trim_end(s@) == s@.take(r as int),
{
    let n = s.unicode_len();
    let mut b: usize = n;
    assert(s@.take(n as int) =~= s@);
    while 0 < b
        invariant
            b <= n,
            n == s@.len(),
            trim_end(s@) == trim_end(s@.take(b as int)),
        decreases b,
    {
        if !white(s.get_char(b - 1)) {
            return b;
        }
        assert(s@.take(b as int).drop_last() =~= s@.take(b - 1));
        b -= 1;
    }
    b
}

fn trim(s: &str) -> (r: &str)
    ensures
        r@ == trimmed(s@),
{
    let n = s.unicode_len();
    let a = leading_white(s);
    let rest = s.substring_char(a, n);
    let b = length_without_trailing_white(rest);
    let r = rest.substring_char(0, b);
    proof {
        assert(rest@ =~= s@.skip(a as int));
        assert(r@ =~= rest@.take(b as int));
    }
    r
}

/// Where the line that starts at `i` ends: at a line feed or at the end.
pub open spec fn line_end(s: Seq<char>, i: int) -> int
    decreases s.len() - i,
{
    if i >= s.len() || s[i] == '\n' {
        i
    } else {
        line_end(s, i + 1)
    }
}

proof fn lemma_line_end(s: Seq<char>, i: int)
    requires
        0 <= i <= s.len(),
    ensures
        i <= line_end(s, i) <= s.len(),
    decreases s.len() - i,
{
    if i < s.len() && s[i] != '\n' {
        lemma_line_end(s, i + 1);
    }
}

/// The lines from position `i` on.
pub open spec fn lines_from(s: Seq<char>, i: int) -> Seq<Seq<char>>
    decreases s.len() + 1 - i,
    when 0 <= i
    via lines_decrease
{
    if i >= s.len() {
        Seq::empty()
    } else {
        seq![s.subrange(i, line_end(s, i))] + lines_from(s, line_end(s, i) + 1)
    }
}

#[via_fn]
proof fn lines_decrease(s: Seq<char>, i: int) {
    if i < s.len() {
        lemma_line_end(s, i);
    }
}

/// A line that names a host: it is neither empty nor a comment, and does not
/// start with the word for the host of the service.
pub open spec fn names_host(line: Seq<char>) -> bool {
    &&& line.len() > 0
    &&& line[0] != '#'
    &&& !("service"@).is_prefix_of(line)
}

/// Of the lines, without the white space around them, those that name a host.
pub open spec fn hosts_among(lines: Seq<Seq<char>>) -> Seq<Seq<char>> {
    lines.map_values(|line: Seq<char>| trimmed(line)).filter(|line: Seq<char>| names_host(line))
}

/// The hosts that the file lists.
pub open spec fn hosts_of(text: Seq<char>) -> Seq<Seq<char>> {
    hosts_among(lines_from(text, 0))
}

fn is_host(line: &str) -> (r: bool)
    ensures
        r == names_host(line@),
{
    proof {
        reveal_strlit("service");
    }
    let n = line.unicode_len();
    if n == 0 || line.get_char(0) == '#' {
        return false;
    }
    if n < 7 {
        return true;
    }
    let start = line.substring_char(0, 7).to_owned();
    proof {
        assert(line@.subrange(0, 7) =~= line@.take(7));
    }
    start != "service".to_owned()
}

proof fn lemma_hosts_among_push(lines: Seq<Seq<char>>, line: Seq<char>)
    ensures
        hosts_among(lines.push(line)) == if names_host(trimmed(line)) {
            hosts_among(lines).push(trimmed(line))
        } else {
            hosts_among(lines)
        },
{
    reveal(Seq::filter);
    let f = |line: Seq<char>| trimmed(line);
    assert(lines.push(line).map_values(f).drop_last() =~= lines.map_values(f));
    assert(lines.push(line).map_values(f).last() == trimmed(line));
}

/// The hosts that the file with the content `text` lists.
pub fn read_hosts(text: &str) -> (r: Vec<String>)
    ensures
        r@.map_values(|h: String| h@) == hosts_of(text@),
{
    let ghost s = text@;
    let n = text.unicode_len();
    let mut hosts: Vec<String> = Vec::new();
    let ghost mut done: Seq<Seq<char>> = Seq::empty();
    let mut i: usize = 0;
    proof {
        reveal(Seq::filter);
        assert(done.map_values(|line: Seq<char>| trimmed(line)) =~= Seq::empty());
        assert(hosts_among(done) =~= Seq::empty());
        assert(hosts@.map_values(|h: String| h@) =~= hosts_among(done));
        assert(done + lines_from(s, 0) =~= lines_from(s, 0));
    }
    while i < n
        invariant
            s == text@,
            n == s.len(),
            i <= n + 1,
            done + lines_from(s, i as int) == lines_from(s, 0),
            hosts@.map_values(|h: String| h@) == hosts_among(done),
        decreases n + 1 - i,
    {
        let mut e: usize = i;
        while e < n && text.get_char(e) != '\n'
            invariant
                s == text@,
                n == s.len(),
                i <= e <= n,
                line_end(s, i as int) == line_end(s, e as int),
            decreases n - e,
        {
            e += 1;
        }
        let line = text.substring_char(i, e);
        let host = trim(line);
        proof {
            lemma_line_end(s, i as int);
            assert(line_end(s, e as int) == e);
            lemma_hosts_among_push(done, line@);
        }
        let ghost before = hosts@;
        if is_host(host) {
            hosts.push(host.to_owned());
            assert(hosts@.map_values(|h: String| h@) =~= before.map_values(|h: String| h@).push(
                host@,
            ));
        }
        proof {
            let next = done.push(line@);
            assert(next + lines_from(s, e + 1) =~= done + lines_from(s, i as int));
            done = next;
        }
        if e == n {
            assert(lines_from(s, e + 1) =~= Seq::empty());
            assert(done =~= lines_from(s, 0));
            return hosts;
        }
        i = e + 1;
    }
    assert(lines_from(s, i as int) =~= Seq::empty());
    assert(done =~= lines_from(s, 0));
    hosts
}

/// The URI of the peer at `port` of `host`.
pub open spec fn peer_uri(host: Seq<char>, port: nat) -> Seq<char> {
    "http://"@ + host + ":"@ + decimal(port)
}

pub fn make_peer_uri(host: &str, port: u64) -> (r: String)
    ensures
        r@ == peer_uri(host@, port as nat),
{
    "http://".to_owned().concat(host).concat(":").concat(decimal_string(port).as_str())
}

/// The URIs of `n` peers of each host.
pub open spec fn peer_uris(hosts: Seq<Seq<char>>, n: nat) -> Seq<Seq<char>>
    decreases hosts.len(),
{
    if hosts.len() == 0 {
        Seq::empty()
    } else {
        peer_uris(hosts.drop_last(), n) + Seq::new(
            n,
            |i: int| peer_uri(hosts.last(), (FIRST_PORT + i) as nat),
        )
    }
}

/// The peer is the one that is served at its URI.
pub open spec fn served_at_uri(peer: Peer) -> bool {
    &&& peer.key@ == ed25519_verifying_key(sha256_digest(encode_utf8(peer.uri@)))
    &&& peer.id@ == sha256_digest(peer.key@)
}

/// The peers of the hosts, `num_host_peer` of each.
pub fn host_peers(hosts: &Vec<String>, num_host_peer: u64) -> (r: Vec<Peer>)
    requires
        num_host_peer + FIRST_PORT <= u64::MAX + 1,
    ensures
        r@.map_values(|p: Peer| p.uri@) == peer_uris(
            hosts@.map_values(|h: String| h@),
            num_host_peer as nat,
        ),
        forall|i: int| 0 <= i < r@.len() ==> served_at_uri(#[trigger] r@[i]),
{
    let ghost names = hosts@.map_values(|h: String| h@);
    let ghost n = num_host_peer as nat;
    let mut peers: Vec<Peer> = Vec::new();
    let mut h: usize = 0;
    assert(peers@.map_values(|p: Peer| p.uri@) =~= peer_uris(names.take(0), n));
    while h < hosts.len()
        invariant
            h <= hosts@.len(),
            names == hosts@.map_values(|h: String| h@),
            n == num_host_peer,
            num_host_peer + FIRST_PORT <= u64::MAX + 1,
            peers@.map_values(|p: Peer| p.uri@) == peer_uris(names.take(h as int), n),
            forall|i: int| 0 <= i < peers@.len() ==> served_at_uri(#[trigger] peers@[i]),
        decreases hosts@.len() - h,
    {
        let ghost before = peers@.map_values(|p: Peer| p.uri@);
        let ghost host = names[h as int];
        let mut i: u64 = 0;
        assert(peers@.map_values(|p: Peer| p.uri@) =~= before + Seq::new(
            0,
            |j: int| peer_uri(host, (FIRST_PORT + j) as nat),
        ));
        while i < num_host_peer
            invariant
                h < hosts@.len(),
                host == hosts@[h as int]@,
                i <= num_host_peer,
                num_host_peer + FIRST_PORT <= u64::MAX + 1,
                peers@.map_values(|p: Peer| p.uri@) == before + Seq::new(
                    i as nat,
                    |j: int| peer_uri(host, (FIRST_PORT + j) as nat),
                ),
                forall|i: int| 0 <= i < peers@.len() ==> served_at_uri(#[trigger] peers@[i]),
            decreases num_host_peer - i,
        {
            let ghost sofar = peers@;
            let peer = Peer::new(make_peer_uri(hosts[h].as_str(), FIRST_PORT + i));
            peers.push(peer);
            proof {
                let f = |p: Peer| p.uri@;
                assert(peers@.map_values(f) =~= sofar.map_values(f).push(peer.uri@));
                assert(peers@.map_values(f) =~= before + Seq::new(
                    (i + 1) as nat,
                    |j: int| peer_uri(host, (FIRST_PORT + j) as nat),
                ));
            }
            i += 1;
        }
        proof {
            assert(names.take(h + 1).drop_last() =~= names.take(h as int));
            assert(names.take(h + 1).last() == host);
        }
        h += 1;
    }
    assert(names.take(h as int) =~= names);
    peers
}

/// Whether the store finds the peer under its own identifier.
pub fn knows_itself(store: &Store, peer: &Peer) -> (r: bool)
    requires
        store@.len() >= 1,
    ensures
        r == (closest(store@, peer.id, 1)[0].id == peer.id),
        (exists|i: int| 0 <= i < store@.len() && (#[trigger] store@[i]).id == peer.id) ==> r,
{
    let found = store.closest_peers(&peer.id, 1);
    proof {
        finds_as_many_as_asked(store@, peer.id, 1);
        assert(found@.map_values(|p: &Peer| *p).len() == 1);
        assert(found@.map_values(|p: &Peer| *p)[0] == *found@[0]);
        if exists|i: int| 0 <= i < store@.len() && (#[trigger] store@[i]).id == peer.id {
            let i = choose|i: int| 0 <= i < store@.len() && (#[trigger] store@[i]).id == peer.id;
            finds_identical_peer_first(store@, peer.id, 1, i);
        }
    }
    crate::common::same_bytes(&found[0].id, &peer.id)
}

/// The code points of white space.
pub proof fn white_space_has_these_code_points(c: char)
    ensures
        is_white(c) <==> {
            let n = c as int;
            (0x9 <= n <= 0xd) || n == 0x20 || n == 0x85 || n == 0xa0 || n == 0x1680 || (0x2000 <= n
                <= 0x200a) || n == 0x2028 || n == 0x2029 || n == 0x202f || n == 0x205f || n
                == 0x3000
        },
{
}

/// What is left of a text without the white space around it: the characters from
/// `r.0` to `r.1`. All others are white space, and neither the first nor the last of
/// these is.
pub proof fn trimmed_text_is_all_but_white_space_around(s: Seq<char>) -> (r: (int, int))
    ensures
        0 <= r.0 <= r.1 <= s.len(),
        trimmed(s) == s.subrange(r.0, r.1),
        forall|i: int| 0 <= i < r.0 ==> is_white(#[trigger] s[i]),
        forall|i: int| r.1 <= i < s.len() ==> is_white(#[trigger] s[i]),
        r.0 < r.1 ==> !is_white(s[r.0]) && !is_white(s[r.1 - 1]),
{
    let a = lemma_trim_start(s);
    let rest = s.skip(a);
    let b = lemma_trim_end(rest);
    assert(trimmed(s) =~= s.subrange(a, a + b));
    assert forall|i: int| a + b <= i < s.len() implies is_white(#[trigger] s[i]) by {
        assert(rest[i - a] == s[i]);
    }
    if b > 0 {
        assert(rest[b - 1] == s[a + b - 1]);
    }
    (a, a + b)
}

proof fn lemma_trim_start(s: Seq<char>) -> (a: int)
    ensures
        0 <= a <= s.len(),
        trim_start(s) == s.skip(a),
        forall|i: int| 0 <= i < a ==> is_white(#[trigger] s[i]),
        a < s.len() ==> !is_white(s[a]),
    decreases s.len(),
{
    if s.len() > 0 && is_white(s[0]) {
        let rest = s.skip(1);
        let a = lemma_trim_start(rest);
        assert(rest.skip(a) =~= s.skip(a + 1));
        assert forall|i: int| 0 <= i < a + 1 implies is_white(#[trigger] s[i]) by {
            if i > 0 {
                assert(rest[i - 1] == s[i]);
            }
        }
        a + 1
    } else {
        assert(s.skip(0) =~= s);
        0
    }
}

proof fn lemma_trim_end(s: Seq<char>) -> (b: int)
    ensures
        0 <= b <= s.len(),
        trim_end(s) == s.take(b),
        forall|i: int| b <= i < s.len() ==> is_white(#[trigger] s[i]),
        b > 0 ==> !is_white(s[b - 1]),
    decreases s.len(),
{
    if s.len() > 0 && is_white(s.last()) {
        let front = s.drop_last();
        let b = lemma_trim_end(front);
        assert(front.take(b) =~= s.take(b));
        assert forall|i: int| b <= i < s.len() implies is_white(#[trigger] s[i]) by {
            if i < front.len() {
                assert(front[i] == s[i]);
            }
        }
        b
    } else {
        assert(s.take(s.len() as int) =~= s);
        s.len() as int
    }
}

/// The lines, each with a line feed behind it.
pub open spec fn with_line_feeds(lines: Seq<Seq<char>>) -> Seq<char>
    decreases lines.len(),
{
    if lines.len() == 0 {
        Seq::empty()
    } else {
        lines[0] + seq!['\n'] + with_line_feeds(lines.skip(1))
    }
}

proof fn lemma_lines(s: Seq<char>, i: int)
    requires
        0 <= i <= s.len() + 1,
    ensures
        with_line_feeds(lines_from(s, i)) == if i >= s.len() {
            Seq::empty()
        } else if s.last() == '\n' {
            s.skip(i)
        } else {
            s.skip(i).push('\n')
        },
        forall|k: int|
            0 <= k < lines_from(s, i).len() ==> !(#[trigger] lines_from(s, i)[k]).contains('\n'),
    decreases s.len() + 1 - i,
{
    if i < s.len() {
        lemma_line_end(s, i);
        lemma_no_feed(s, i);
        let e = line_end(s, i);
        let line = s.subrange(i, e);
        let rest = lines_from(s, e + 1);
        let lines = lines_from(s, i);
        lemma_lines(s, e + 1);
        assert(lines.skip(1) =~= rest);
        if e + 1 >= s.len() {
            if e == s.len() {
                assert(s.last() == s[e - 1]);
                assert(line + seq!['\n'] + Seq::<char>::empty() =~= s.skip(i).push('\n'));
            } else {
                assert(s.last() == s[e]);
                assert(line + seq!['\n'] + Seq::<char>::empty() =~= s.skip(i));
            }
        } else if s.last() == '\n' {
            assert(line + seq!['\n'] + s.skip(e + 1) =~= s.skip(i));
        } else {
            assert(line + seq!['\n'] + s.skip(e + 1).push('\n') =~= s.skip(i).push('\n'));
        }
        assert forall|k: int| 0 <= k < lines.len() implies !(#[trigger] lines[k]).contains('\n') by {
            if k > 0 {
                assert(lines[k] == rest[k - 1]);
            }
        }
    }
}

/// There is no line feed before the end of a line, and one at it, unless the text
/// ends there.
proof fn lemma_no_feed(s: Seq<char>, i: int)
    requires
        0 <= i <= s.len(),
    ensures
        forall|k: int| i <= k < line_end(s, i) ==> #[trigger] s[k] != '\n',
        line_end(s, i) < s.len() ==> s[line_end(s, i)] == '\n',
        !s.subrange(i, line_end(s, i)).contains('\n'),
    decreases s.len() - i,
{
    lemma_line_end(s, i);
    if i < s.len() && s[i] != '\n' {
        lemma_no_feed(s, i + 1);
    }
}

/// The lines of a text are the text, cut at its line feeds: with a line feed behind
/// each of them they are that text again, which may lack the last one, and none of
/// them has a line feed in it.
pub proof fn lines_make_up_the_text(text: Seq<char>)
    ensures
        with_line_feeds(lines_from(text, 0)) == if text.len() == 0 || text.last() == '\n' {
            text
        } else {
            text.push('\n')
        },
        forall|k: int|
            0 <= k < lines_from(text, 0).len() ==> !(#[trigger] lines_from(text, 0)[k]).contains(
                '\n',
            ),
{
    lemma_lines(text, 0);
    assert(text.skip(0) =~= text);
}

/// A host is listed exactly if some line, without the white space around it, is its
/// name: that is, it is not empty, and starts neither with a number sign nor with the
/// word for the host of the service.
pub proof fn hosts_are_the_lines_that_name_one(text: Seq<char>, host: Seq<char>)
    ensures
        hosts_of(text).contains(host) <==> host.len() > 0 && host[0] != '#' && !(host.len() >= 7
            && host.take(7) == "service"@) && exists|k: int|
            0 <= k < lines_from(text, 0).len() && trimmed(#[trigger] lines_from(text, 0)[k])
                == host,
{
    reveal_strlit("service");
    let lines = lines_from(text, 0);
    let list = lines.map_values(|line: Seq<char>| trimmed(line));
    let p = |line: Seq<char>| names_host(line);
    assert(("service"@).is_prefix_of(host) <==> host.len() >= 7 && host.take(7) == "service"@) by {
        assert(host.len() >= 7 ==> host.subrange(0, 7) =~= host.take(7));
    }
    if list.filter(p).contains(host) {
        list.lemma_filter_contains_rev(p, host);
        let j = choose|j: int| 0 <= j < list.filter(p).len() && list.filter(p)[j] == host;
        list.lemma_filter_pred(p, j);
        let k = choose|k: int| 0 <= k < list.len() && list[k] == host;
        assert(trimmed(lines[k]) == host);
    }
    if names_host(host) && exists|k: int|
        0 <= k < lines.len() && trimmed(#[trigger] lines[k]) == host {
        let k = choose|k: int| 0 <= k < lines.len() && trimmed(#[trigger] lines[k]) == host;
        assert(list[k] == host);
        list.lemma_filter_contains(p, k);
    }
}

/// Hosts are listed in the order of their lines, each as often as it is named.
pub proof fn hosts_are_listed_in_order(a: Seq<Seq<char>>, b: Seq<Seq<char>>)
    ensures
        hosts_among(a + b) == hosts_among(a) + hosts_among(b),
        a.len() == 1 ==> hosts_among(a).len() <= 1,
{
    let f = |line: Seq<char>| trimmed(line);
    let p = |line: Seq<char>| names_host(line);
    assert((a + b).map_values(f) =~= a.map_values(f) + b.map_values(f));
    Seq::filter_distributes_over_add(a.map_values(f), b.map_values(f), p);
    a.map_values(f).lemma_filter_len(p);
}

/// Each host has `n` peers, at the ports from 10000 on, host by host.
pub proof fn hosts_have_peers_from_port_10000_on(hosts: Seq<Seq<char>>, n: nat, h: int, i: int)
    requires
        0 <= h < hosts.len(),
        0 <= i < n,
    ensures
        peer_uris(hosts, n).len() == hosts.len() * n,
        0 <= h * n + i < hosts.len() * n,
        peer_uris(hosts, n)[h * n + i] == "http://"@ + hosts[h] + ":"@ + decimal(
            (10000 + i) as nat,
        ),
    decreases hosts.len(),
{
    lemma_peer_uris_len(hosts, n);
    let front = hosts.drop_last();
    lemma_peer_uris_len(front, n);
    let last = hosts.len() - 1;
    assert(h * n + i < (h + 1) * n && (h + 1) * n <= hosts.len() * n && h * n >= 0)
        by (nonlinear_arith)
        requires
            0 <= h < hosts.len(),
            0 <= i < n,
    ;
    if h < last {
        hosts_have_peers_from_port_10000_on(front, n, h, i);
        assert(front[h] == hosts[h]);
    }
}

proof fn lemma_peer_uris_len(hosts: Seq<Seq<char>>, n: nat)
    ensures
        peer_uris(hosts, n).len() == hosts.len() * n,
    decreases hosts.len(),
{
    if hosts.len() > 0 {
        lemma_peer_uris_len(hosts.drop_last(), n);
        let last = hosts.len() - 1;
        assert((last + 1) * n == last * n + n) by (nonlinear_arith);
    } else {
        assert(hosts.len() * n == 0) by (nonlinear_arith)
            requires
                hosts.len() == 0,
        ;
    }
}

/// The key and the identifier of a peer follow from its URI alone: the key is the
/// verifying key of the signing key that is the digest of the URI, and the identifier
/// is the digest of the key.
pub proof fn uri_determines_the_peer(a: Peer, b: Peer)
    requires
        served_at_uri(a),
        served_at_uri(b),
        a.uri@ == b.uri@,
    ensures
        a.key@ == ed25519_verifying_key(sha256_digest(encode_utf8(a.uri@))),
        a.id@ == sha256_digest(a.key@),
        a.key == b.key,
        a.id == b.id,
{
    assert(a.key =~= b.key);
    assert(a.id =~= b.id);
}

} // verus!
