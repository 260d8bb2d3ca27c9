//! An ordered map over a sorted vector.

use vstd::prelude::*;

verus! {

/// A key with a strict total order that can be decided at run time.
pub trait Key: Copy {
    spec fn before(self, other: Self) -> bool;

    proof fn irreflexive(a: Self)
        ensures
            !a.before(a),
    ;

    proof fn transitive(a: Self, b: Self, c: Self)
        requires
            a.before(b),
            b.before(c),
        ensures
            a.before(c),
    ;

    proof fn total(a: Self, b: Self)
        ensures
            a == b || a.before(b) || b.before(a),
    ;

    fn precedes(&self, other: &Self) -> (r: bool)
        ensures
            r == self.before(*other),
    ;
}

impl Key for u32 {
    open spec fn before(self, other: Self) -> bool {
        self < other
    }

    proof fn irreflexive(a: Self) {
    }

    proof fn transitive(a: Self, b: Self, c: Self) {
    }

    proof fn total(a: Self, b: Self) {
    }

    fn precedes(&self, other: &Self) -> (r: bool) {
        *self < *other
    }
}

impl Key for u64 {
    open spec fn before(self, other: Self) -> bool {
        self < other
    }

    proof fn irreflexive(a: Self) {
    }

    proof fn transitive(a: Self, b: Self, c: Self) {
    }

    proof fn total(a: Self, b: Self) {
    }

    fn precedes(&self, other: &Self) -> (r: bool) {
        *self < *other
    }
}

/// Byte strings of 32 bytes are ordered lexicographically: the first byte in
/// which they differ decides.
pub open spec fn lex_before(a: Seq<u8>, b: Seq<u8>) -> bool {
    exists|i: int|
        #![trigger a[i], b[i]]
        0 <= i < a.len() && i < b.len() && a[i] < b[i] && (forall|j: int|
            0 <= j < i ==> #[trigger] a[j] == b[j])
}

/// The number of leading positions in which `a` and `b` agree.
pub open spec fn agreement(a: Seq<u8>, b: Seq<u8>) -> nat
    decreases a.len(),
{
    if a.len() == 0 || b.len() == 0 || a[0] != b[0] {
        0
    } else {
        1 + agreement(a.drop_first(), b.drop_first())
    }
}

pub proof fn lemma_agreement(a: Seq<u8>, b: Seq<u8>)
    requires
        a.len() == b.len(),
    ensures
        agreement(a, b) <= a.len(),
        forall|j: int| 0 <= j < agreement(a, b) ==> #[trigger] a[j] == b[j],
        agreement(a, b) < a.len() ==> a[agreement(a, b) as int] != b[agreement(a, b) as int],
        agreement(a, b) == a.len() ==> a == b,
    decreases a.len(),
{
    if a.len() != 0 && a[0] == b[0] {
        let (x, y) = (a.drop_first(), b.drop_first());
        lemma_agreement(x, y);
        assert forall|j: int| 0 <= j < agreement(a, b) implies #[trigger] a[j] == b[j] by {
            if j > 0 {
                assert(x[j - 1] == y[j - 1]);
            }
        }
        if agreement(a, b) < a.len() {
            assert(x[agreement(x, y) as int] == a[agreement(a, b) as int]);
        }
    }
    if agreement(a, b) == a.len() {
        assert(a =~= b);
    }
}

impl Key for [u8; 32] {
    open spec fn before(self, other: Self) -> bool {
        lex_before(self@, other@)
    }

    proof fn irreflexive(a: Self) {
    }

    proof fn transitive(a: Self, b: Self, c: Self) {
        let i = choose|i: int|
            #![trigger a@[i], b@[i]]
            0 <= i < 32 && a@[i] < b@[i] && (forall|j: int| 0 <= j < i ==> #[trigger] a@[j] == b@[j]);
        let k = choose|i: int|
            #![trigger b@[i], c@[i]]
            0 <= i < 32 && b@[i] < c@[i] && (forall|j: int| 0 <= j < i ==> #[trigger] b@[j] == c@[j]);
        let m = if i < k { i } else { k };
        assert(a@[m] < c@[m]);
        assert forall|j: int| 0 <= j < m implies #[trigger] a@[j] == c@[j] by {
            assert(a@[j] == b@[j]);
            assert(b@[j] == c@[j]);
        }
    }

    proof fn total(a: Self, b: Self) {
        lemma_agreement(a@, b@);
        let n = agreement(a@, b@) as int;
        if n == 32 {
            assert(a =~= b);
        } else if a@[n] < b@[n] {
        } else {
            assert(b@[n] < a@[n]);
        }
    }

    fn precedes(&self, other: &Self) -> (r: bool) {
        let mut i: usize = 0;
        while i < 32
            invariant
                i <= 32,
                forall|j: int| 0 <= j < i ==> #[trigger] self@[j] == other@[j],
            decreases 32 - i,
        {
            if self[i] != other[i] {
                let r = self[i] < other[i];
                proof {
                    if r {
                        assert(self@[i as int] < other@[i as int]);
                    } else if lex_before(self@, other@) {
                        let k = choose|k: int|
                            #![trigger self@[k], other@[k]]
                            0 <= k < 32 && self@[k] < other@[k] && (forall|j: int|
                                0 <= j < k ==> #[trigger] self@[j] == other@[j]);
                        assert(k <= i) by {
                            if k > i {
                                assert(self@[i as int] == other@[i as int]);
                            }
                        }
                        assert(false);
                    }
                }
                return r;
            }
            i += 1;
        }
        false
    }
}


/// The map that a list of entries stands for.
pub open spec fn entries_map<K, V>(s: Seq<(K, V)>) -> Map<K, V>
    decreases s.len(),
{
    if s.len() == 0 {
        Map::empty()
    } else {
        entries_map(s.drop_last()).insert(s.last().0, s.last().1)
    }
}

/// The keys of `s` are in strictly ascending order.
pub open spec fn ascending_keys<K: Key, V>(s: Seq<(K, V)>) -> bool {
    forall|i: int, j: int| 0 <= i < j < s.len() ==> (#[trigger] s[i]).0.before((#[trigger] s[j]).0)
}

/// `s` lists the entries of `m`, each once, in ascending order of their keys.
pub open spec fn lists<K: Key, V>(s: Seq<(K, V)>, m: Map<K, V>) -> bool {
    ascending_keys(s) && entries_map(s) == m
}

/// The entries of `m` in ascending order of their keys.
pub open spec fn ascending<K: Key, V>(m: Map<K, V>) -> Seq<(K, V)> {
    choose|s: Seq<(K, V)>| lists(s, m)
}

pub proof fn lemma_entries_map<K: Key, V>(s: Seq<(K, V)>)
    requires
        ascending_keys(s),
    ensures
        forall|i: int|
            0 <= i < s.len() ==> entries_map(s).contains_key((#[trigger] s[i]).0)
                && entries_map(s)[s[i].0] == s[i].1,
        forall|k: K| #[trigger]
            entries_map(s).contains_key(k) ==> exists|i: int|
                0 <= i < s.len() && (#[trigger] s[i]).0 == k,
        entries_map(s).dom().finite(),
        entries_map(s).len() == s.len(),
    decreases s.len(),
{
    if s.len() != 0 {
        let front = s.drop_last();
        assert(ascending_keys(front)) by {
            assert forall|i: int, j: int| 0 <= i < j < front.len() implies (
            #[trigger] front[i]).0.before((#[trigger] front[j]).0) by {
                assert(s[i].0.before(s[j].0));
            }
        }
        lemma_entries_map(front);
        let last = s.last();
        assert(!entries_map(front).contains_key(last.0)) by {
            if entries_map(front).contains_key(last.0) {
                let i = choose|i: int| 0 <= i < front.len() && (#[trigger] front[i]).0 == last.0;
                assert(s[i].0.before(s[s.len() - 1].0));
                K::irreflexive(last.0);
            }
        }
        assert forall|i: int| 0 <= i < s.len() implies entries_map(s).contains_key(
            (#[trigger] s[i]).0,
        ) && entries_map(s)[s[i].0] == s[i].1 by {
            if i < front.len() {
                assert(front[i] == s[i]);
                assert(s[i].0 != last.0);
            }
        }
        assert forall|k: K| #[trigger] entries_map(s).contains_key(k) implies exists|i: int|
            0 <= i < s.len() && (#[trigger] s[i]).0 == k by {
            if k == last.0 {
                assert(s[s.len() - 1].0 == k);
            } else {
                assert(entries_map(front).contains_key(k));
                let i = choose|i: int| 0 <= i < front.len() && (#[trigger] front[i]).0 == k;
                assert(s[i].0 == k);
            }
        }
        assert(entries_map(s).dom() =~= entries_map(front).dom().insert(last.0));
    }
}

/// Two ascending lists of the same entries are the same list.
pub proof fn lemma_lists_unique<K: Key, V>(s: Seq<(K, V)>, t: Seq<(K, V)>)
    requires
        ascending_keys(s),
        ascending_keys(t),
        entries_map(s) == entries_map(t),
    ensures
        s == t,
    decreases s.len(),
{
    lemma_entries_map(s);
    lemma_entries_map(t);
    assert(s.len() == t.len());
    if s.len() != 0 {
        let n = s.len() - 1;
        let (x, y) = (s[n].0, t[n].0);
        assert(x == y) by {
            assert(entries_map(t).contains_key(x));
            let i = choose|i: int| 0 <= i < t.len() && (#[trigger] t[i]).0 == x;
            assert(entries_map(s).contains_key(y));
            let j = choose|j: int| 0 <= j < s.len() && (#[trigger] s[j]).0 == y;
            if x != y {
                assert(i < n && t[i].0.before(t[n].0));
                assert(j < n && s[j].0.before(s[n].0));
                K::transitive(x, y, x);
                K::irreflexive(x);
            }
        }
        assert(s[n].1 == t[n].1);
        let (a, b) = (s.drop_last(), t.drop_last());
        assert forall|i: int, j: int| 0 <= i < j < a.len() implies (#[trigger] a[i]).0.before(
            (#[trigger] a[j]).0,
        ) by {
            assert(s[i].0.before(s[j].0));
        }
        assert forall|i: int, j: int| 0 <= i < j < b.len() implies (#[trigger] b[i]).0.before(
            (#[trigger] b[j]).0,
        ) by {
            assert(t[i].0.before(t[j].0));
        }
        lemma_entries_map(a);
        lemma_entries_map(b);
        assert(entries_map(a) =~= entries_map(s).remove(x)) by {
            if entries_map(a).contains_key(x) {
                let i = choose|i: int| 0 <= i < a.len() && (#[trigger] a[i]).0 == x;
                assert(s[i].0.before(s[n].0));
                K::irreflexive(x);
            }
        }
        assert(entries_map(b) =~= entries_map(t).remove(x)) by {
            if entries_map(b).contains_key(x) {
                let i = choose|i: int| 0 <= i < b.len() && (#[trigger] b[i]).0 == x;
                assert(t[i].0.before(t[n].0));
                K::irreflexive(x);
            }
        }
        lemma_lists_unique(a, b);
        assert(s =~= a.push(s[n]));
        assert(t =~= b.push(t[n]));
    }
}

/// The entries of a map, listed in ascending order, are that map's entries.
pub proof fn lemma_ascending<K: Key, V>(s: Seq<(K, V)>)
    requires
        ascending_keys(s),
    ensures
        ascending(entries_map(s)) == s,
{
    let m = entries_map(s);
    assert(lists(s, m));
    lemma_lists_unique(ascending(m), s);
}

proof fn lemma_greatest<K: Key>(s: Set<K>) -> (k: K)
    requires
        s.finite(),
        s.len() > 0,
    ensures
        s.contains(k),
        forall|j: K| #[trigger] s.contains(j) ==> j == k || j.before(k),
    decreases s.len(),
{
    let a = s.choose();
    let rest = s.remove(a);
    if rest.len() == 0 {
        assert forall|j: K| #[trigger] s.contains(j) implies j == a || j.before(a) by {
            if j != a {
                assert(rest.contains(j));
            }
        }
        a
    } else {
        let m = lemma_greatest(rest);
        K::total(a, m);
        if m.before(a) {
            assert forall|j: K| #[trigger] s.contains(j) implies j == a || j.before(a) by {
                if j != a {
                    assert(rest.contains(j));
                    if j != m {
                        K::transitive(j, m, a);
                    }
                }
            }
            a
        } else {
            assert forall|j: K| #[trigger] s.contains(j) implies j == m || j.before(m) by {
                if j != a {
                    assert(rest.contains(j));
                }
            }
            m
        }
    }
}

/// Every finite map can be listed.
pub proof fn lemma_finite_map_is_listed<K: Key, V>(m: Map<K, V>)
    requires
        m.dom().finite(),
    ensures
        lists(ascending(m), m),
    decreases m.dom().len(),
{
    if m.dom().len() == 0 {
        assert(m =~= Map::empty());
        assert(lists(Seq::<(K, V)>::empty(), m));
    } else {
        let k = lemma_greatest(m.dom());
        let rest = m.remove(k);
        lemma_finite_map_is_listed(rest);
        let front = ascending(rest);
        lemma_entries_map(front);
        let s = front.push((k, m[k]));
        assert(s.drop_last() =~= front);
        assert forall|i: int, j: int| 0 <= i < j < s.len() implies (#[trigger] s[i]).0.before(
            (#[trigger] s[j]).0,
        ) by {
            if j < front.len() {
                assert(front[i].0.before(front[j].0));
            } else {
                assert(rest.contains_key(front[i].0));
                assert(m.dom().contains(front[i].0));
            }
        }
        assert(entries_map(s) =~= m);
        assert(lists(s, m));
    }
}

/// `t` holds the members of `s`, each once, in ascending order.
pub open spec fn orders<K: Key>(t: Seq<K>, s: Set<K>) -> bool {
    &&& forall|i: int, j: int| 0 <= i < j < t.len() ==> (#[trigger] t[i]).before(#[trigger] t[j])
    &&& forall|k: K| #[trigger] s.contains(k) <==> t.contains(k)
}

/// The members of `s` in ascending order.
pub open spec fn in_order<K: Key>(s: Set<K>) -> Seq<K> {
    choose|t: Seq<K>| orders(t, s)
}

/// A set has one ascending order only.
pub proof fn lemma_in_order<K: Key>(t: Seq<K>, s: Set<K>)
    requires
        orders(t, s),
    ensures
        in_order(s) == t,
{
    let u = in_order(s);
    let (a, b) = (t.map_values(|k: K| (k, ())), u.map_values(|k: K| (k, ())));
    assert(ascending_keys(a)) by {
        assert forall|i: int, j: int| 0 <= i < j < a.len() implies (#[trigger] a[i]).0.before(
            (#[trigger] a[j]).0,
        ) by {
            assert(t[i].before(t[j]));
        }
    }
    assert(ascending_keys(b)) by {
        assert forall|i: int, j: int| 0 <= i < j < b.len() implies (#[trigger] b[i]).0.before(
            (#[trigger] b[j]).0,
        ) by {
            assert(u[i].before(u[j]));
        }
    }
    lemma_entries_map(a);
    lemma_entries_map(b);
    assert forall|k: K| #[trigger] entries_map(a).contains_key(k) <==> s.contains(k) by {
        if entries_map(a).contains_key(k) {
            let i = choose|i: int| 0 <= i < a.len() && (#[trigger] a[i]).0 == k;
            assert(t[i] == k);
        }
        if s.contains(k) {
            let i = choose|i: int| 0 <= i < t.len() && t[i] == k;
            assert(a[i].0 == k);
        }
    }
    assert forall|k: K| #[trigger] entries_map(b).contains_key(k) <==> s.contains(k) by {
        if entries_map(b).contains_key(k) {
            let i = choose|i: int| 0 <= i < b.len() && (#[trigger] b[i]).0 == k;
            assert(u[i] == k);
        }
        if s.contains(k) {
            let i = choose|i: int| 0 <= i < u.len() && u[i] == k;
            assert(b[i].0 == k);
        }
    }
    assert(entries_map(a) =~= entries_map(b));
    lemma_lists_unique(a, b);
    assert(u.len() == t.len());
    assert forall|i: int| 0 <= i < t.len() implies u[i] == t[i] by {
        assert(a[i] == b[i]);
    }
    assert(u =~= t);
}

/// Every finite set can be put in order.
pub proof fn lemma_finite_set_is_ordered<K: Key>(s: Set<K>)
    requires
        s.finite(),
    ensures
        orders(in_order(s), s),
{
    let m = Map::new(|k: K| s.contains(k), |k: K| ());
    assert(m.dom() =~= s);
    lemma_finite_map_is_listed(m);
    let list = ascending(m);
    lemma_entries_map(list);
    let t = list.map_values(|e: (K, ())| e.0);
    assert forall|i: int, j: int| 0 <= i < j < t.len() implies (#[trigger] t[i]).before(
        #[trigger] t[j],
    ) by {
        assert(list[i].0.before(list[j].0));
    }
    assert forall|k: K| #[trigger] s.contains(k) <==> t.contains(k) by {
        if s.contains(k) {
            assert(m.contains_key(k));
            let i = choose|i: int| 0 <= i < list.len() && (#[trigger] list[i]).0 == k;
            assert(t[i] == k);
        }
        if t.contains(k) {
            let i = choose|i: int| 0 <= i < t.len() && t[i] == k;
            assert(m.contains_key(list[i].0));
        }
    }
    assert(orders(t, s));
}

proof fn lemma_filter_keeps_once<K>(t: Seq<K>, p: spec_fn(K) -> bool)
    requires
        t.no_duplicates(),
    ensures
        t.filter(p).no_duplicates(),
    decreases t.len(),
{
    reveal(Seq::filter);
    if t.len() > 0 {
        let front = t.drop_last();
        lemma_filter_keeps_once(front, p);
        if front.filter(p).contains(t.last()) {
            front.lemma_filter_contains_rev(p, t.last());
            let i = choose|i: int| 0 <= i < front.len() && front[i] == t.last();
            assert(t[i] == t[t.len() - 1]);
        }
    }
}

/// Of the members of a finite set, in ascending order, a filter keeps those that
/// it accepts, each once.
pub proof fn lemma_filtered<K: Key>(s: Set<K>, p: spec_fn(K) -> bool)
    requires
        s.finite(),
    ensures
        forall|k: K| #[trigger] in_order(s).filter(p).contains(k) <==> s.contains(k) && p(k),
        in_order(s).filter(p).no_duplicates(),
{
    lemma_finite_set_is_ordered(s);
    let t = in_order(s);
    assert(t.no_duplicates()) by {
        assert forall|i: int, j: int| 0 <= i < j < t.len() implies t[i] != t[j] by {
            assert(t[i].before(t[j]));
            K::irreflexive(t[i]);
        }
    }
    lemma_filter_keeps_once(t, p);
    assert forall|k: K| #[trigger] t.filter(p).contains(k) <==> s.contains(k) && p(k) by {
        if t.filter(p).contains(k) {
            t.lemma_filter_contains_rev(p, k);
            let i = choose|i: int| 0 <= i < t.filter(p).len() && t.filter(p)[i] == k;
            t.lemma_filter_pred(p, i);
        }
        if s.contains(k) && p(k) {
            assert(t.contains(k));
            let i = choose|i: int| 0 <= i < t.len() && t[i] == k;
            t.lemma_filter_contains(p, i);
        }
    }
}

proof fn lemma_entries_finite<K, V>(s: Seq<(K, V)>)
    ensures
        entries_map(s).dom().finite(),
    decreases s.len(),
{
    if s.len() > 0 {
        lemma_entries_finite(s.drop_last());
        assert(entries_map(s).dom() =~= entries_map(s.drop_last()).dom().insert(s.last().0));
    }
}

/// A map has finitely many entries.
pub proof fn map_is_finite<K: Key, V>(m: SortedMap<K, V>)
    ensures
        m@.dom().finite(),
{
    lemma_entries_finite(m.entries@);
}

/// The first of the entries in ascending order has the least key.
pub proof fn first_key_is_the_least<K: Key, V>(m: Map<K, V>)
    requires
        m.dom().finite(),
        m.len() > 0,
    ensures
        ascending(m).len() == m.len(),
        m.contains_key(ascending(m)[0].0),
        forall|k: K| #[trigger]
            m.contains_key(k) ==> k == ascending(m)[0].0 || ascending(m)[0].0.before(k),
{
    lemma_finite_map_is_listed(m);
    let list = ascending(m);
    lemma_entries_map(list);
    assert forall|k: K| #[trigger] m.contains_key(k) implies k == list[0].0 || list[0].0.before(k) by {
        let i = choose|i: int| 0 <= i < list.len() && (#[trigger] list[i]).0 == k;
        if i > 0 {
            assert(list[0].0.before(list[i].0));
        }
    }
}

/// The entries of a finite map, listed in ascending order: each of them is there,
/// once, and nothing else.
pub proof fn every_entry_is_listed<K: Key, V>(m: Map<K, V>)
    requires
        m.dom().finite(),
    ensures
        ascending(m).len() == m.len(),
        forall|i: int|
            0 <= i < ascending(m).len() ==> m.contains_key((#[trigger] ascending(m)[i]).0)
                && m[ascending(m)[i].0] == ascending(m)[i].1,
        forall|k: K| #[trigger]
            m.contains_key(k) ==> exists|i: int|
                0 <= i < ascending(m).len() && #[trigger] ascending(m)[i] == (k, m[k]),
        forall|i: int, j: int|
            0 <= i < j < ascending(m).len() ==> (#[trigger] ascending(m)[i]).0.before(
                (#[trigger] ascending(m)[j]).0,
            ),
{
    lemma_finite_map_is_listed(m);
    let list = ascending(m);
    lemma_entries_map(list);
    assert forall|k: K| #[trigger] m.contains_key(k) implies exists|i: int|
        0 <= i < list.len() && #[trigger] list[i] == (k, m[k]) by {
        let i = choose|i: int| 0 <= i < list.len() && (#[trigger] list[i]).0 == k;
        assert(list[i] == (k, m[k]));
    }
}

/// A map whose entries are kept sorted by key.
pub struct SortedMap<K: Key, V> {
    entries: Vec<(K, V)>,
}

impl<K: Key, V> View for SortedMap<K, V> {
    type V = Map<K, V>;

    closed spec fn view(&self) -> Map<K, V> {
        entries_map(self.entries@)
    }
}

impl<K: Key, V> SortedMap<K, V> {
    #[verifier::type_invariant]
    spec fn sorted(self) -> bool {
        ascending_keys(self.entries@)
    }

    pub fn new() -> (r: Self)
        ensures
            r@ == Map::<K, V>::empty(),
    {
        SortedMap { entries: Vec::new() }
    }

    /// The number of entries whose key comes before `key`.
    fn rank(&self, key: &K) -> (r: usize)
        ensures
            r <= self.entries@.len(),
            forall|i: int| 0 <= i < r ==> (#[trigger] self.entries@[i]).0.before(*key),
            forall|i: int|
                r <= i < self.entries@.len() ==> !(#[trigger] self.entries@[i]).0.before(*key),
    {
        proof {
            use_type_invariant(self);
        }
        let mut lo: usize = 0;
        let mut hi: usize = self.entries.len();
        while lo < hi
            invariant
                lo <= hi <= self.entries@.len(),
                ascending_keys(self.entries@),
                forall|i: int| 0 <= i < lo ==> (#[trigger] self.entries@[i]).0.before(*key),
                forall|i: int|
                    hi <= i < self.entries@.len() ==> !(#[trigger] self.entries@[i]).0.before(*key),
            decreases hi - lo,
        {
            let mid: usize = lo + (hi - lo) / 2;
            if self.entries[mid].0.precedes(key) {
                assert forall|i: int| 0 <= i < mid + 1 implies (
                #[trigger] self.entries@[i]).0.before(*key) by {
                    if i < mid {
                        K::transitive(self.entries@[i].0, self.entries@[mid as int].0, *key);
                    }
                }
                lo = mid + 1;
            } else {
                assert forall|i: int| mid <= i < self.entries@.len() implies !(
                #[trigger] self.entries@[i]).0.before(*key) by {
                    if i > mid && self.entries@[i].0.before(*key) {
                        K::transitive(self.entries@[mid as int].0, self.entries@[i].0, *key);
                    }
                }
                hi = mid;
            }
        }
        lo
    }

    /// The position of `key`, if it is there.
    fn find(&self, key: &K) -> (r: Option<usize>)
        ensures
            match r {
                Some(i) => i < self.entries@.len() && self.entries@[i as int].0 == *key,
                None => !self@.contains_key(*key),
            },
    {
        proof {
            use_type_invariant(self);
            lemma_entries_map(self.entries@);
        }
        let i = self.rank(key);
        if i < self.entries.len() && !key.precedes(&self.entries[i].0) {
            proof {
                K::total(self.entries@[i as int].0, *key);
            }
            Some(i)
        } else {
            proof {
                if self@.contains_key(*key) {
                    let j = choose|j: int|
                        0 <= j < self.entries@.len() && (#[trigger] self.entries@[j]).0 == *key;
                    K::irreflexive(*key);
                    assert(j >= i);
                    if j > i {
                        assert(self.entries@[i as int].0.before(self.entries@[j].0));
                        K::transitive(*key, self.entries@[i as int].0, *key);
                    }
                }
            }
            None
        }
    }

    pub fn len(&self) -> (r: usize)
        ensures
            r == self@.len(),
            lists(ascending(self@), self@),
            r == ascending(self@).len(),
            self@.dom().finite(),
    {
        proof {
            use_type_invariant(self);
            lemma_entries_map(self.entries@);
            lemma_ascending(self.entries@);
        }
        self.entries.len()
    }

    pub fn contains_key(&self, key: &K) -> (r: bool)
        ensures
            r == self@.contains_key(*key),
    {
        proof {
            use_type_invariant(self);
            lemma_entries_map(self.entries@);
        }
        self.find(key).is_some()
    }

    pub fn get(&self, key: &K) -> (r: Option<&V>)
        ensures
            r == (if self@.contains_key(*key) { Some(&self@[*key]) } else { None }),
    {
        proof {
            use_type_invariant(self);
            lemma_entries_map(self.entries@);
        }
        match self.find(key) {
            Some(i) => Some(&self.entries[i].1),
            None => None,
        }
    }

    /// The entry at position `i` in ascending order of keys.
    pub fn entry(&self, i: usize) -> (r: (K, &V))
        requires
            i < self@.len(),
        ensures
            (r.0, *r.1) == ascending(self@)[i as int],
            self@.contains_key(r.0),
            self@[r.0] == *r.1,
    {
        proof {
            use_type_invariant(self);
            lemma_entries_map(self.entries@);
            lemma_ascending(self.entries@);
        }
        (self.entries[i].0, &self.entries[i].1)
    }

    /// The keys in ascending order.
    pub fn keys(&self) -> (r: Vec<K>)
        ensures
            r@ == in_order(self@.dom()),
            orders(r@, self@.dom()),
    {
        proof {
            use_type_invariant(self);
            lemma_entries_map(self.entries@);
        }
        let n = self.entries.len();
        let mut keys: Vec<K> = Vec::new();
        let mut i: usize = 0;
        while i < n
            invariant
                i <= n,
                n == self.entries@.len(),
                keys@.len() == i,
                forall|j: int| 0 <= j < i ==> #[trigger] keys@[j] == self.entries@[j].0,
            decreases n - i,
        {
            keys.push(self.entries[i].0);
            i += 1;
        }
        proof {
            let t = keys@;
            assert forall|i: int, j: int| 0 <= i < j < t.len() implies (#[trigger] t[i]).before(
                #[trigger] t[j],
            ) by {
                assert(self.entries@[i].0.before(self.entries@[j].0));
            }
            assert forall|k: K| #[trigger] self@.dom().contains(k) <==> t.contains(k) by {
                if self@.contains_key(k) {
                    let i = choose|i: int|
                        0 <= i < self.entries@.len() && (#[trigger] self.entries@[i]).0 == k;
                    assert(t[i] == k);
                }
                if t.contains(k) {
                    let i = choose|i: int| 0 <= i < t.len() && t[i] == k;
                    assert(self@.contains_key(self.entries@[i].0));
                }
            }
            lemma_in_order(t, self@.dom());
        }
        keys
    }

    /// The entries in ascending order of keys.
    pub fn to_list(self) -> (r: Vec<(K, V)>)
        ensures
            r@ == ascending(self@),
    {
        proof {
            use_type_invariant(&self);
            lemma_ascending(self.entries@);
        }
        self.entries
    }

    /// Puts `value` under `key` and gives back what was there before.
    pub fn insert(&mut self, key: K, value: V) -> (r: Option<V>)
        ensures
            final(self)@ == old(self)@.insert(key, value),
            r == (if old(self)@.contains_key(key) { Some(old(self)@[key]) } else { None }),
    {
        proof {
            use_type_invariant(&*self);
            lemma_entries_map(self.entries@);
        }
        let found = self.find(&key);
        let at = self.rank(&key);
        let ghost before = self.entries@;
        let mut entries: Vec<(K, V)> = Vec::new();
        std::mem::swap(&mut entries, &mut self.entries);
        let r = match found {
            Some(i) => {
                let old_entry = entries.remove(i);
                entries.insert(i, (key, value));
                proof {
                    assert(entries@ =~= before.update(i as int, (key, value)));
                    assert forall|a: int, b: int| 0 <= a < b < entries@.len() implies (
                    #[trigger] entries@[a]).0.before((#[trigger] entries@[b]).0) by {
                        assert(before[a].0.before(before[b].0));
                    }
                    lemma_entries_map(entries@);
                    let m = entries_map(entries@);
                    let w = entries_map(before).insert(key, value);
                    assert forall|k: K| m.contains_key(k) <==> w.contains_key(k) by {
                        if m.contains_key(k) {
                            let j = choose|j: int|
                                0 <= j < entries@.len() && (#[trigger] entries@[j]).0 == k;
                            assert(before[j].0 == k);
                        }
                        if w.contains_key(k) {
                            if k == key {
                                assert(entries@[i as int].0 == k);
                            } else {
                                let j = choose|j: int|
                                    0 <= j < before.len() && (#[trigger] before[j]).0 == k;
                                assert(entries@[j].0 == k);
                            }
                        }
                    }
                    assert forall|k: K| m.contains_key(k) implies m[k] == w[k] by {
                        let j = choose|j: int|
                            0 <= j < entries@.len() && (#[trigger] entries@[j]).0 == k;
                        if j != i {
                            assert(before[j] == entries@[j]);
                            assert(k != key) by {
                                if j < i {
                                    assert(before[j].0.before(before[i as int].0));
                                } else {
                                    assert(before[i as int].0.before(before[j].0));
                                }
                                K::irreflexive(key);
                            }
                        } else {
                            assert(entries@[i as int].1 == value);
                        }
                    }
                    assert(m =~= w);
                }
                Some(old_entry.1)
            },
            None => {
                entries.insert(at, (key, value));
                proof {
                    let e = entries@;
                    assert forall|a: int, b: int| 0 <= a < b < e.len() implies (
                    #[trigger] e[a]).0.before((#[trigger] e[b]).0) by {
                        let a0 = if a < at { a } else { a - 1 };
                        let b0 = if b < at { b } else { b - 1 };
                        if a != at && b != at {
                            assert(e[a] == before[a0]);
                            assert(e[b] == before[b0]);
                            assert(before[a0].0.before(before[b0].0));
                        } else if a == at {
                            assert(e[b] == before[b0]);
                            K::total(before[b0].0, key);
                            assert(before[b0].0 != key);
                        } else {
                            assert(e[a] == before[a0]);
                            assert(before[a0].0.before(key));
                        }
                    }
                    lemma_entries_map(e);
                    let m = entries_map(e);
                    let w = entries_map(before).insert(key, value);
                    assert(e[at as int] == (key, value));
                    assert forall|k: K| m.contains_key(k) <==> w.contains_key(k) by {
                        if m.contains_key(k) {
                            let j = choose|j: int| 0 <= j < e.len() && (#[trigger] e[j]).0 == k;
                            if j != at {
                                let j0 = if j < at { j } else { j - 1 };
                                assert(e[j] == before[j0]);
                            }
                        }
                        if w.contains_key(k) && k != key {
                            let j = choose|j: int|
                                0 <= j < before.len() && (#[trigger] before[j]).0 == k;
                            let j1 = if j < at { j } else { j + 1 };
                            assert(e[j1] == before[j]);
                        }
                    }
                    assert forall|k: K| m.contains_key(k) implies m[k] == w[k] by {
                        if k != key {
                            let j = choose|j: int| 0 <= j < e.len() && (#[trigger] e[j]).0 == k;
                            let j0 = if j < at { j } else { j - 1 };
                            assert(e[j] == before[j0]);
                        }
                    }
                    assert(m =~= w);
                }
                None
            },
        };
        self.entries = entries;
        r
    }

    /// Takes the entry of `key` out and gives back its value.
    pub fn remove(&mut self, key: &K) -> (r: Option<V>)
        ensures
            final(self)@ == old(self)@.remove(*key),
            r == (if old(self)@.contains_key(*key) { Some(old(self)@[*key]) } else { None }),
    {
        proof {
            use_type_invariant(&*self);
            lemma_entries_map(self.entries@);
        }
        match self.find(key) {
            Some(i) => {
                let entry = self.remove_at(i);
                Some(entry.1)
            },
            None => {
                assert(self@.remove(*key) =~= self@);
                None
            },
        }
    }

    fn remove_at(&mut self, i: usize) -> (r: (K, V))
        requires
            i < old(self).entries@.len(),
        ensures
            r == old(self).entries@[i as int],
            final(self)@ == old(self)@.remove(r.0),
            final(self).entries@ == old(self).entries@.remove(i as int),
    {
        proof {
            use_type_invariant(&*self);
            lemma_entries_map(self.entries@);
        }
        let ghost before = self.entries@;
        let mut entries: Vec<(K, V)> = Vec::new();
        std::mem::swap(&mut entries, &mut self.entries);
        let r = entries.remove(i);
        proof {
            let e = entries@;
            let key = r.0;
            assert forall|j: int| 0 <= j < before.len() && j != i implies (
            #[trigger] before[j]).0 != key by {
                if j < i {
                    assert(before[j].0.before(before[i as int].0));
                } else {
                    assert(before[i as int].0.before(before[j].0));
                }
                K::irreflexive(key);
            }
            assert forall|a: int, b: int| 0 <= a < b < e.len() implies (#[trigger] e[a]).0.before(
                (#[trigger] e[b]).0,
            ) by {
                let a1 = if a < i { a } else { a + 1 };
                let b1 = if b < i { b } else { b + 1 };
                assert(e[a] == before[a1]);
                assert(e[b] == before[b1]);
                assert(before[a1].0.before(before[b1].0));
            }
            lemma_entries_map(e);
            let m = entries_map(e);
            let w = entries_map(before).remove(key);
            assert forall|k: K| m.contains_key(k) <==> w.contains_key(k) by {
                if m.contains_key(k) {
                    let j = choose|j: int| 0 <= j < e.len() && (#[trigger] e[j]).0 == k;
                    let j1 = if j < i { j } else { j + 1 };
                    assert(e[j] == before[j1]);
                }
                if w.contains_key(k) {
                    let j = choose|j: int| 0 <= j < before.len() && (#[trigger] before[j]).0 == k;
                    let j0 = if j < i { j } else { j - 1 };
                    assert(e[j0] == before[j]);
                }
            }
            assert forall|k: K| m.contains_key(k) implies m[k] == w[k] by {
                let j = choose|j: int| 0 <= j < e.len() && (#[trigger] e[j]).0 == k;
                let j1 = if j < i { j } else { j + 1 };
                assert(e[j] == before[j1]);
            }
            assert(m =~= w);
        }
        self.entries = entries;
        r
    }

    /// Takes out the entry with the least key.
    pub fn pop_first(&mut self) -> (r: Option<(K, V)>)
        ensures
            match r {
                Some(e) => {
                    &&& old(self)@.dom().finite()
                    &&& old(self)@.contains_key(e.0)
                    &&& old(self)@[e.0] == e.1
                    &&& e == ascending(old(self)@)[0]
                    &&& forall|k: K| #[trigger]
                        old(self)@.contains_key(k) ==> k == e.0 || e.0.before(k)
                    &&& final(self)@ == old(self)@.remove(e.0)
                },
                None => old(self)@ == Map::<K, V>::empty() && final(self)@ == old(self)@,
            },
    {
        proof {
            use_type_invariant(&*self);
            lemma_entries_map(self.entries@);
            lemma_ascending(self.entries@);
        }
        if self.entries.len() == 0 {
            return None;
        }
        let ghost before = self.entries@;
        let r = self.remove_at(0);
        proof {
            assert forall|k: K| #[trigger] old(self)@.contains_key(k) implies k == r.0
                || r.0.before(k) by {
                let j = choose|j: int| 0 <= j < before.len() && (#[trigger] before[j]).0 == k;
                if j > 0 {
                    assert(before[0].0.before(before[j].0));
                }
            }
        }
        Some(r)
    }

    /// The greatest key.
    pub fn last_key(&self) -> (r: Option<K>)
        ensures
            match r {
                Some(k) => {
                    &&& self@.contains_key(k)
                    &&& forall|j: K| #[trigger] self@.contains_key(j) ==> j == k || j.before(k)
                },
                None => self@ == Map::<K, V>::empty(),
            },
    {
        proof {
            use_type_invariant(self);
            lemma_entries_map(self.entries@);
        }
        let n = self.entries.len();
        if n == 0 {
            return None;
        }
        let k = self.entries[n - 1].0;
        proof {
            assert forall|j: K| #[trigger] self@.contains_key(j) implies j == k || j.before(k) by {
                let i = choose|i: int|
                    0 <= i < self.entries@.len() && (#[trigger] self.entries@[i]).0 == j;
                if i < n - 1 {
                    assert(self.entries@[i].0.before(self.entries@[n - 1].0));
                }
            }
        }
        Some(k)
    }

    /// Puts every entry of `other` into this map; where both have a key, the
    /// value of `other` stays.
    pub fn extend(&mut self, other: SortedMap<K, V>)
        ensures
            final(self)@ == old(self)@.union_prefer_right(other@),
    {
        let mut rest = other;
        let ghost all = other@;
        let ghost start = self@;
        assert(start.union_prefer_right(all) =~= self@.union_prefer_right(rest@));
        loop
            invariant
                start.union_prefer_right(all) == self@.union_prefer_right(rest@),
            ensures
                self@ == start.union_prefer_right(all),
            decreases rest@.len(),
        {
            let ghost before = rest@;
            match rest.pop_first() {
                Some((k, v)) => {
                    let ghost mine = self@;
                    let _ = self.insert(k, v);
                    assert(self@.union_prefer_right(rest@) =~= mine.union_prefer_right(before));
                    assert(before.dom().remove(k) =~= rest@.dom());
                },
                None => {
                    assert(self@.union_prefer_right(rest@) =~= self@);
                    break;
                },
            }
        }
    }
}

impl<K: Key, V: Clone> Clone for SortedMap<K, V> {
    fn clone(&self) -> (r: Self)
        ensures
            r@.dom() == self@.dom(),
            forall|k: K| #[trigger] r@.contains_key(k) ==> cloned(self@[k], r@[k]),
    {
        proof {
            use_type_invariant(self);
            lemma_entries_map(self.entries@);
        }
        let mut entries: Vec<(K, V)> = Vec::new();
        let n = self.entries.len();
        let mut i: usize = 0;
        while i < n
            invariant
                n == self.entries@.len(),
                i <= n,
                entries@.len() == i,
                forall|j: int|
                    0 <= j < i ==> (#[trigger] entries@[j]).0 == self.entries@[j].0 && cloned(
                        self.entries@[j].1,
                        entries@[j].1,
                    ),
            decreases n - i,
        {
            let v = self.entries[i].1.clone();
            entries.push((self.entries[i].0, v));
            i += 1;
        }
        proof {
            assert forall|a: int, b: int| 0 <= a < b < entries@.len() implies (
            #[trigger] entries@[a]).0.before((#[trigger] entries@[b]).0) by {
                assert(self.entries@[a].0.before(self.entries@[b].0));
            }
            lemma_entries_map(entries@);
            let m = entries_map(entries@);
            assert forall|k: K| m.contains_key(k) <==> self@.contains_key(k) by {
                if m.contains_key(k) {
                    let j = choose|j: int| 0 <= j < entries@.len() && (#[trigger] entries@[j]).0 == k;
                    assert(self.entries@[j].0 == k);
                }
                if self@.contains_key(k) {
                    let j = choose|j: int|
                        0 <= j < self.entries@.len() && (#[trigger] self.entries@[j]).0 == k;
                    assert(entries@[j].0 == k);
                }
            }
            assert(m.dom() =~= self@.dom());
            assert forall|k: K| #[trigger] m.contains_key(k) implies cloned(self@[k], m[k]) by {
                let j = choose|j: int| 0 <= j < entries@.len() && (#[trigger] entries@[j]).0 == k;
                assert(self.entries@[j].0 == k);
            }
        }
        SortedMap { entries }
    }
}

} // verus!
