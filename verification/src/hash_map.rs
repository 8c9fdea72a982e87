//! Hash-backed sparse store with faithful absence reporting.

use crate::indexed::Indexed;
use std::collections::HashMap;
use vstd::prelude::*;

verus! {

broadcast use vstd::std_specs::hash::group_hash_axioms;

/// A sparse adapter over a hash map. `get` and `remove` report absence
/// faithfully, which makes this adapter fit for position storage, and for
/// priority storage whenever absence must be distinguishable from any real
/// value.
#[derive(Debug)]
pub struct IndexedHashMap<V> {
    /// The backing hash map; meant to be driven through [`Indexed`] alone.
    pub entries: HashMap<usize, V>,
}

impl<V> IndexedHashMap<V> {
    /// Constructs an empty store.
    pub fn new() -> (r: Self)
        ensures
            r.inv(),
            r.stored() == Map::<usize, V>::empty(),
            forall|k: usize| !r.readable(k),
            forall|k: usize| r.key_in_dom(k),
    {
        IndexedHashMap { entries: HashMap::new() }
    }

    /// Constructs an empty store sized for at least `capacity` entries.
    pub fn with_capacity(capacity: usize) -> (r: Self)
        ensures
            r.inv(),
            r.stored() == Map::<usize, V>::empty(),
            forall|k: usize| !r.readable(k),
            forall|k: usize| r.key_in_dom(k),
    {
        IndexedHashMap { entries: HashMap::with_capacity(capacity) }
    }
}

impl<V> Indexed<V> for IndexedHashMap<V> {
    open spec fn inv(&self) -> bool {
        true
    }

    open spec fn key_in_dom(&self, k: usize) -> bool {
        true
    }

    open spec fn stored(&self) -> Map<usize, V> {
        self.entries@
    }

    open spec fn readable(&self, k: usize) -> bool {
        self.entries@.contains_key(k)
    }

    open spec fn read(&self, k: usize) -> V {
        self.entries@[k]
    }

    open spec fn erases() -> bool {
        true
    }

    open spec fn tracks_presence() -> bool {
        true
    }

    proof fn lemma_stored_readable(&self, k: usize) {
    }

    proof fn lemma_tracks_presence(&self, k: usize) {
    }

    fn get(&self, k: usize) -> (r: Option<&V>) {
        self.entries.get(&k)
    }

    fn contains(&self, k: usize) -> (r: bool) {
        self.entries.contains_key(&k)
    }

    fn insert(&mut self, k: usize, v: V) -> (r: Option<V>) {
        self.entries.insert(k, v)
    }

    fn remove(&mut self, k: usize) -> (r: Option<V>) {
        self.entries.remove(&k)
    }

    fn clear(&mut self) {
        self.entries.clear()
    }
}

} // verus!
