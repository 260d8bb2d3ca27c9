//! The chunks of which a peer stores a fragment, each with a token of its own
//! that says whether the fragment is on disk.

use crate::chunk::ChunkKey;
use crate::sorted_map::SortedMap;
#[allow(unused_imports)]
use crate::sorted_map::{in_order, map_is_finite, orders};
use vstd::prelude::*;

verus! {

/// What is known of a chunk, with the token of its fragment.
pub trait Tokened {
    spec fn token(&self) -> u64;
}

#[verifier::ext_equal]
pub struct TableView<C> {
    pub chunks: Map<ChunkKey, C>,
    pub stored: Set<u64>,
    pub next_token: u64,
}

impl<C: Tokened> TableView<C> {
    /// No chunk but that of `key` may have the token, which was handed out.
    pub open spec fn fits(self, key: ChunkKey, token: u64) -> bool {
        &&& token < self.next_token
        &&& forall|k: ChunkKey| #[trigger]
            self.chunks.contains_key(k) && k != key ==> self.chunks[k].token() != token
    }

    /// Every token in use was handed out, and each chunk has one of its own.
    pub open spec fn fresh(self) -> bool {
        &&& forall|k: ChunkKey| #[trigger]
            self.chunks.contains_key(k) ==> self.fits(k, self.chunks[k].token())
        &&& forall|t: u64| #[trigger] self.stored.contains(t) ==> t < self.next_token
    }
}

/// The chunks by key, the tokens of the fragments that are on disk, and the next
/// token.
pub struct ChunkTable<C: Tokened> {
    chunks: SortedMap<ChunkKey, C>,
    stored: SortedMap<u64, ()>,
    next_token: u64,
}

impl<C: Tokened> View for ChunkTable<C> {
    type V = TableView<C>;

    closed spec fn view(&self) -> TableView<C> {
        TableView {
            chunks: self.chunks@,
            stored: self.stored@.dom(),
            next_token: self.next_token,
        }
    }
}

impl<C: Tokened> ChunkTable<C> {
    #[verifier::type_invariant]
    spec fn well_formed(self) -> bool {
        self@.fresh()
    }

    pub fn new() -> (r: Self)
        ensures
            r@ == (TableView::<C> { chunks: Map::empty(), stored: Set::empty(), next_token: 0 }),
            r@.fresh(),
    {
        let chunks: SortedMap<ChunkKey, C> = SortedMap::new();
        let stored: SortedMap<u64, ()> = SortedMap::new();
        assert(stored@.dom() =~= Set::empty());
        ChunkTable { chunks, stored, next_token: 0 }
    }

    pub fn get(&self, key: &ChunkKey) -> (r: Option<&C>)
        ensures
            match r {
                Some(chunk) => self@.chunks.contains_key(*key) && *chunk == self@.chunks[*key],
                None => !self@.chunks.contains_key(*key),
            },
    {
        self.chunks.get(key)
    }

    pub fn contains_key(&self, key: &ChunkKey) -> (r: bool)
        ensures
            r == self@.chunks.contains_key(*key),
    {
        self.chunks.contains_key(key)
    }

    /// The keys in ascending order.
    pub fn keys(&self) -> (r: Vec<ChunkKey>)
        ensures
            r@ == in_order(self@.chunks.dom()),
            orders(r@, self@.chunks.dom()),
    {
        self.chunks.keys()
    }

    /// Whether the fragment of the token is on disk.
    pub fn is_stored(&self, token: u64) -> (r: bool)
        ensures
            r == self@.stored.contains(token),
    {
        self.stored.contains_key(&token)
    }

    pub fn next_token(&self) -> (r: u64)
        ensures
            r == self@.next_token,
            self@.fresh(),
    {
        proof {
            use_type_invariant(self);
        }
        self.next_token
    }

    /// Hands out a token.
    pub fn issue(&mut self) -> (r: u64)
        requires
            old(self)@.next_token < u64::MAX,
        ensures
            r == old(self)@.next_token,
            final(self)@ == (TableView {
                next_token: (old(self)@.next_token + 1) as u64,
                ..old(self)@
            }),
            forall|k: ChunkKey| #[trigger] final(self)@.fits(k, r),
            !final(self)@.stored.contains(r),
            final(self)@.fresh(),
    {
        proof {
            use_type_invariant(&*self);
        }
        let token = self.next_token;
        self.next_token = token + 1;
        token
    }

    /// Puts a chunk under `key`.
    pub fn insert(&mut self, key: ChunkKey, chunk: C)
        requires
            old(self)@.fits(key, chunk.token()),
        ensures
            final(self)@ == (TableView {
                chunks: old(self)@.chunks.insert(key, chunk),
                ..old(self)@
            }),
            final(self)@.fresh(),
    {
        proof {
            use_type_invariant(&*self);
        }
        let ghost before = self@;
        let mut chunks: SortedMap<ChunkKey, C> = SortedMap::new();
        assert(TableView { chunks: Map::<ChunkKey, C>::empty(), ..before }.fresh());
        std::mem::swap(&mut self.chunks, &mut chunks);
        let _ = chunks.insert(key, chunk);
        proof {
            let after = TableView { chunks: before.chunks.insert(key, chunk), ..before };
            assert(after.fresh()) by {
                assert forall|k: ChunkKey| #[trigger] after.chunks.contains_key(k) implies after.fits(
                    k,
                    after.chunks[k].token(),
                ) by {
                    if k != key {
                        assert(before.chunks.contains_key(k));
                    }
                }
            }
        }
        self.chunks = chunks;
    }

    /// Takes the chunk of `key` out. It may come back with its token.
    pub fn remove(&mut self, key: &ChunkKey) -> (r: Option<C>)
        ensures
            match r {
                Some(chunk) => {
                    &&& old(self)@.chunks.contains_key(*key)
                    &&& chunk == old(self)@.chunks[*key]
                    &&& final(self)@.fits(*key, chunk.token())
                },
                None => !old(self)@.chunks.contains_key(*key),
            },
            final(self)@ == (TableView { chunks: old(self)@.chunks.remove(*key), ..old(self)@ }),
            final(self)@.fresh(),
    {
        proof {
            use_type_invariant(&*self);
        }
        let ghost before = self@;
        let mut chunks: SortedMap<ChunkKey, C> = SortedMap::new();
        assert(TableView { chunks: Map::<ChunkKey, C>::empty(), ..before }.fresh());
        std::mem::swap(&mut self.chunks, &mut chunks);
        let removed = chunks.remove(key);
        proof {
            let after = TableView { chunks: before.chunks.remove(*key), ..before };
            assert forall|k: ChunkKey| #[trigger] after.chunks.contains_key(k) implies after.fits(
                k,
                after.chunks[k].token(),
            ) by {
                assert(before.chunks.contains_key(k));
            }
        }
        self.chunks = chunks;
        removed
    }

    /// The fragment of the token is on disk now.
    pub fn store(&mut self, token: u64)
        requires
            token < old(self)@.next_token,
        ensures
            final(self)@ == (TableView { stored: old(self)@.stored.insert(token), ..old(self)@ }),
            final(self)@.fresh(),
    {
        proof {
            use_type_invariant(&*self);
        }
        let ghost before = self@;
        let mut stored: SortedMap<u64, ()> = SortedMap::new();
        assert(stored@.dom() =~= Set::empty());
        std::mem::swap(&mut self.stored, &mut stored);
        let _ = stored.insert(token, ());
        assert(stored@.dom() =~= before.stored.insert(token));
        proof {
            let after = TableView { stored: before.stored.insert(token), ..before };
            assert(after.fresh()) by {
                assert forall|k: ChunkKey| #[trigger] after.chunks.contains_key(k) implies after.fits(
                    k,
                    after.chunks[k].token(),
                ) by {
                    assert(before.chunks.contains_key(k));
                }
            }
        }
        self.stored = stored;
    }
}

/// A table has finitely many chunks.
pub proof fn table_is_finite<C: Tokened>(table: ChunkTable<C>)
    ensures
        table@.chunks.dom().finite(),
        table@.stored.finite(),
{
    map_is_finite(table.chunks);
    map_is_finite(table.stored);
}

} // verus!
