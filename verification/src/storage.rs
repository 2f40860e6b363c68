//! The key-value store that retains node hashes once they are final: an
//! abstract two-operation interface and an in-memory reference
//! implementation.

use vstd::prelude::*;
use vstd::slice::slice_to_vec;
use std::collections::HashMap;

verus! {

broadcast use vstd::std_specs::hash::group_hash_axioms;

/// A mapping from node index to hash bytes.  The tree only ever puts and
/// gets; a durable backend may implement the same interface.
pub trait KeyValueStore {
    /// The mapping the store currently holds.
    spec fn contents(&self) -> Map<usize, Seq<u8>>;

    /// Stores `v` under `k`, replacing any earlier value.
    fn put(&mut self, k: usize, v: &[u8])
        ensures
            final(self).contents() == old(self).contents().insert(k, v@),
    ;

    /// The value stored under `k`, or nothing if `k` was never put.
    fn get(&self, k: usize) -> (r: Option<&Vec<u8>>)
        ensures
            match r {
                Some(v) => self.contents().contains_key(k) && v@ == self.contents()[k],
                None => !self.contents().contains_key(k),
            },
    ;
}

/// The in-memory reference implementation of the store.
pub struct LocalKeyValueStore {
    map: HashMap<usize, Vec<u8>>,
}

impl View for LocalKeyValueStore {
    type V = Map<usize, Seq<u8>>;

    closed spec fn view(&self) -> Map<usize, Seq<u8>> {
        Map::new(|k: usize| self.map@.contains_key(k), |k: usize| self.map@[k]@)
    }
}

impl LocalKeyValueStore {
    /// An empty store.
    pub fn new() -> (r: LocalKeyValueStore)
        ensures
            r@ == Map::<usize, Seq<u8>>::empty(),
    {
        let r = LocalKeyValueStore { map: HashMap::new() };
        proof {
            assert(r@ =~= Map::<usize, Seq<u8>>::empty());
        }
        r
    }
}

impl KeyValueStore for LocalKeyValueStore {
    open spec fn contents(&self) -> Map<usize, Seq<u8>> {
        self@
    }

    fn put(&mut self, k: usize, v: &[u8]) {
        let value = slice_to_vec(v);
        self.map.insert(k, value);
        proof {
            assert(self.contents() =~= old(self).contents().insert(k, v@));
        }
    }

    fn get(&self, k: usize) -> (r: Option<&Vec<u8>>) {
        self.map.get(&k)
    }
}

} // verus!
