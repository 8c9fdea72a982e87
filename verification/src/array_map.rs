//! Dense, fixed-capacity stores over a contiguous buffer.
//!
//! Both adapters serve the contiguous key range that starts at a configurable
//! offset: key `k` lives in slot `k - offset`. The buffer is sized once at
//! construction and never grows; keys outside the declared range are a caller
//! contract violation, excluded by precondition.

use crate::indexed::Indexed;
use crate::order::TotalOrder;
use vstd::prelude::*;

verus! {

/// Array-backed priority storage. Every in-domain key is always readable:
/// `remove` reads the value out while retaining it and `clear` is a no-op,
/// so a removed key keeps its last priority for cheap reinsertion.
#[derive(Debug)]
pub struct ArrayPriorityMap<P> {
    /// One priority per key of the domain; driven through [`Indexed`].
    pub slots: Vec<P>,
    /// The first key of the contiguous domain.
    pub offset: usize,
}

/// Array-backed position storage. A slot holds the key's current heap
/// position, or nothing when the key is off the heap, so presence is
/// faithfully reported.
#[derive(Debug)]
pub struct ArrayPositionMap {
    /// One optional position per key of the domain.
    pub slots: Vec<Option<usize>>,
    /// The first key of the contiguous domain.
    pub offset: usize,
}

impl<P: TotalOrder> ArrayPriorityMap<P> {
    /// Builds the store over the given initial priorities: key `offset + i`
    /// starts with `initial[i]`, and the capacity is `initial.len()`.
    pub fn new(initial: Vec<P>, offset: usize) -> (r: Self)
        requires
            offset + initial@.len() <= usize::MAX,
        ensures
            r.inv(),
            r.offset == offset,
            forall|k: usize| r.key_in_dom(k) == (offset <= k < offset + initial@.len()),
            forall|k: usize|
                offset <= k < offset + initial@.len() ==> r.readable(k) && r.read(k)
                    == initial@[k - offset],
            r.stored() == Map::<usize, P>::new(
                |k: usize| offset <= k < offset + initial@.len(),
                |k: usize| initial@[k - offset],
            ),
    {
        ArrayPriorityMap { slots: initial, offset }
    }
}

impl ArrayPositionMap {
    /// Builds an empty store for the `capacity` keys starting at `offset`.
    pub fn new(capacity: usize, offset: usize) -> (r: Self)
        requires
            offset + capacity <= usize::MAX,
        ensures
            r.inv(),
            r.offset == offset,
            forall|k: usize| r.key_in_dom(k) == (offset <= k < offset + capacity),
            forall|k: usize| !r.readable(k),
            r.stored() == Map::<usize, usize>::empty(),
    {
        let mut slots: Vec<Option<usize>> = Vec::with_capacity(capacity);
        let mut i: usize = 0;
        while i < capacity
            invariant
                i <= capacity,
                slots@.len() == i,
                forall|j: int| 0 <= j < i ==> slots@[j] is None,
            decreases capacity - i,
        {
            slots.push(None);
            i = i + 1;
        }
        let r = ArrayPositionMap { slots, offset };
        proof {
            assert(r.stored() =~= Map::<usize, usize>::empty());
        }
        r
    }
}

impl<P: TotalOrder> Indexed<P> for ArrayPriorityMap<P> {
    open spec fn inv(&self) -> bool {
        self.offset + self.slots@.len() <= usize::MAX
    }

    open spec fn key_in_dom(&self, k: usize) -> bool {
        self.offset <= k < self.offset + self.slots@.len()
    }

    open spec fn stored(&self) -> Map<usize, P> {
        Map::<usize, P>::new(
            |k: usize| self.offset <= k < self.offset + self.slots@.len(),
            |k: usize| self.slots@[k - self.offset],
        )
    }

    open spec fn readable(&self, k: usize) -> bool {
        self.key_in_dom(k)
    }

    open spec fn read(&self, k: usize) -> P {
        self.slots@[k - self.offset]
    }

    open spec fn erases() -> bool {
        false
    }

    open spec fn tracks_presence() -> bool {
        false
    }

    proof fn lemma_stored_readable(&self, k: usize) {
    }

    proof fn lemma_tracks_presence(&self, k: usize) {
    }

    fn get(&self, k: usize) -> (r: Option<&P>) {
        let i = k - self.offset;
        Some(&self.slots[i])
    }

    fn contains(&self, k: usize) -> (r: bool) {
        true
    }

    fn insert(&mut self, k: usize, v: P) -> (r: Option<P>) {
        let i = k - self.offset;
        let previous = self.slots[i].dup();
        self.slots.set(i, v);
        proof {
            assert(self.stored() =~= old(self).stored().insert(k, v));
        }
        Some(previous)
    }

    fn remove(&mut self, k: usize) -> (r: Option<P>) {
        let i = k - self.offset;
        Some(self.slots[i].dup())
    }

    fn clear(&mut self) {
    }
}

impl Indexed<usize> for ArrayPositionMap {
    open spec fn inv(&self) -> bool {
        self.offset + self.slots@.len() <= usize::MAX
    }

    open spec fn key_in_dom(&self, k: usize) -> bool {
        self.offset <= k < self.offset + self.slots@.len()
    }

    open spec fn stored(&self) -> Map<usize, usize> {
        Map::<usize, usize>::new(
            |k: usize| self.offset <= k < self.offset + self.slots@.len() && self.slots@[k
                - self.offset] is Some,
            |k: usize| self.slots@[k - self.offset]->Some_0,
        )
    }

    open spec fn readable(&self, k: usize) -> bool {
        self.stored().contains_key(k)
    }

    open spec fn read(&self, k: usize) -> usize {
        self.stored()[k]
    }

    open spec fn erases() -> bool {
        true
    }

    open spec fn tracks_presence() -> bool {
        true
    }

    proof fn lemma_stored_readable(&self, k: usize) {
    }

    proof fn lemma_tracks_presence(&self, k: usize) {
    }

    fn get(&self, k: usize) -> (r: Option<&usize>) {
        let i = k - self.offset;
        match &self.slots[i] {
            Some(p) => Some(p),
            None => None,
        }
    }

    fn contains(&self, k: usize) -> (r: bool) {
        let i = k - self.offset;
        match &self.slots[i] {
            Some(_) => true,
            None => false,
        }
    }

    fn insert(&mut self, k: usize, v: usize) -> (r: Option<usize>) {
        let i = k - self.offset;
        let previous = self.slots[i];
        self.slots.set(i, Some(v));
        proof {
            assert(self.stored() =~= old(self).stored().insert(k, v));
        }
        previous
    }

    fn remove(&mut self, k: usize) -> (r: Option<usize>) {
        let i = k - self.offset;
        let previous = self.slots[i];
        self.slots.set(i, None);
        proof {
            assert(self.stored() =~= old(self).stored().remove(k));
        }
        previous
    }

    fn clear(&mut self) {
        let n = self.slots.len();
        let mut i: usize = 0;
        while i < n
            invariant
                i <= n,
                self.slots@.len() == n,
                self.offset == old(self).offset,
                forall|j: int| 0 <= j < i ==> self.slots@[j] is None,
                forall|j: int| i <= j < n ==> self.slots@[j] == old(self).slots@[j],
            decreases n - i,
        {
            self.slots.set(i, None);
            i = i + 1;
        }
        proof {
            assert(self.stored() =~= Map::<usize, usize>::empty());
        }
    }
}

} // verus!
