//! Sparse store with an implicit default for absent keys.

use crate::indexed::Indexed;
use std::collections::HashMap;
use vstd::prelude::*;

verus! {

broadcast use vstd::std_specs::hash::group_hash_axioms;

/// A sparse adapter that never reports absence: a key with no stored entry
/// reads as the default value supplied at construction — fit for priority
/// storage when "absent" may stand for a worst priority, such as an infinite
/// distance. The price is that an explicitly stored default cannot be told
/// apart from an untouched key; a caller needing that distinction consults a
/// separate position store.
#[derive(Debug)]
pub struct DefaultMap<V> {
    /// The explicitly stored entries; meant to be driven through [`Indexed`].
    pub entries: HashMap<usize, V>,
    /// The value reported for keys with no stored entry.
    pub default: V,
}

impl<V> DefaultMap<V> {
    /// Constructs an empty store whose absent keys read as `default`.
    pub fn new(default: V) -> (r: Self)
        ensures
            r.inv(),
            r.stored() == Map::<usize, V>::empty(),
            forall|k: usize| r.readable(k) && r.read(k) == default,
            forall|k: usize| r.key_in_dom(k),
    {
        DefaultMap { entries: HashMap::new(), default }
    }
}

impl<V> Indexed<V> for DefaultMap<V> {
    open spec fn inv(&self) -> bool {
        true
    }

    open spec fn key_in_dom(&self, k: usize) -> bool {
        true
    }

    open spec fn stored(&self) -> Map<usize, V> {
        self.entries@
    }

    open spec fn readable(&self, k: usize) -> bool {
        true
    }

    open spec fn read(&self, k: usize) -> V {
        if self.entries@.contains_key(k) {
            self.entries@[k]
        } else {
            self.default
        }
    }

    open spec fn erases() -> bool {
        true
    }

    open spec fn tracks_presence() -> bool {
        false
    }

    proof fn lemma_stored_readable(&self, k: usize) {
    }

    proof fn lemma_tracks_presence(&self, k: usize) {
    }

    fn get(&self, k: usize) -> (r: Option<&V>) {
        match self.entries.get(&k) {
            Some(v) => Some(v),
            None => Some(&self.default),
        }
    }

    fn contains(&self, k: usize) -> (r: bool) {
        true
    }

    fn insert(&mut self, k: usize, v: V) -> (r: Option<V>) {
        self.entries.insert(k, v)
    }

    fn remove(&mut self, k: usize) -> (r: Option<V>) {
        self.entries.remove(&k)
    }

    fn clear(&mut self) {
        self.entries.clear()
    }
}

} // verus!
