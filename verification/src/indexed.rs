//! The index-store contract: a uniform mapping interface from keys to values,
//! used both for priority storage and for position storage.
//!
//! An adapter's state is modelled by two spec views. `stored` is the map of
//! explicitly installed entries — what `insert` and `remove` manipulate and
//! report. `readable`/`read` describe what `get` observes; a default-valued
//! adapter makes every key readable even when nothing was stored for it, and
//! an array-backed priority adapter keeps its whole buffer readable. Two
//! type-level flags say how an adapter treats removal: `erases` means `remove`
//! and `clear` really delete stored entries, and `tracks_presence` means `get`
//! reports exactly the stored entries, so absence is observable. A position
//! store must have both; a priority store may have neither.

use vstd::prelude::*;

verus! {

/// Uniform key-to-value store used by the queue for priorities and positions.
///
/// Keys are taken from `usize`; an adapter may declare a restricted key
/// domain (`key_in_dom`), and calls outside it are a caller contract
/// violation, excluded here by precondition.
pub trait Indexed<V>: Sized {
    /// The adapter's internal well-formedness.
    spec fn inv(&self) -> bool;

    /// The key domain the adapter was declared for.
    spec fn key_in_dom(&self, k: usize) -> bool;

    /// The explicitly installed entries.
    spec fn stored(&self) -> Map<usize, V>;

    /// Whether `get` would find a value for `k`.
    spec fn readable(&self, k: usize) -> bool;

    /// The value `get` would find for `k`, when `readable(k)`.
    spec fn read(&self, k: usize) -> V;

    /// Whether `remove` deletes the stored entry and `clear` empties the
    /// store. An adapter that answers `false` retains values for later reuse.
    spec fn erases() -> bool;

    /// Whether `get` reports exactly the stored entries, so that absence is
    /// distinguishable from every real value.
    spec fn tracks_presence() -> bool;

    /// A stored entry is always readable, with its stored value.
    proof fn lemma_stored_readable(&self, k: usize)
        requires
            self.inv(),
            self.stored().contains_key(k),
        ensures
            self.readable(k),
            self.read(k) == self.stored()[k],
    ;

    /// Readability reports exactly the stored entries when the adapter
    /// tracks presence.
    proof fn lemma_tracks_presence(&self, k: usize)
        requires
            self.inv(),
            Self::tracks_presence(),
        ensures
            self.readable(k) == self.stored().contains_key(k),
    ;

    /// Looks up the value for `k`, or reports that none is readable.
    fn get(&self, k: usize) -> (r: Option<&V>)
        requires
            self.inv(),
            self.key_in_dom(k),
        ensures
            (match r {
                Some(v) => self.readable(k) && *v == self.read(k),
                None => !self.readable(k),
            }),
    ;

    /// Whether a value for `k` is readable.
    fn contains(&self, k: usize) -> (r: bool)
        requires
            self.inv(),
            self.key_in_dom(k),
        ensures
            r == self.readable(k),
    ;

    /// Installs `v` for `k` and returns the previously stored value, if any.
    fn insert(&mut self, k: usize, v: V) -> (r: Option<V>)
        requires
            old(self).inv(),
            old(self).key_in_dom(k),
        ensures
            final(self).inv(),
            forall|j: usize| final(self).key_in_dom(j) == old(self).key_in_dom(j),
            final(self).stored() == old(self).stored().insert(k, v),
            final(self).readable(k) && final(self).read(k) == v,
            forall|j: usize|
                j != k ==> final(self).readable(j) == old(self).readable(j),
            forall|j: usize|
                j != k && old(self).readable(j) ==> final(self).read(j) == old(self).read(j),
            r == (if old(self).stored().contains_key(k) {
                Some(old(self).stored()[k])
            } else {
                None::<V>
            }),
    ;

    /// Takes the entry for `k` out of the store — or, for an adapter that
    /// does not erase, reads it while retaining it — and returns the stored
    /// value, if any.
    fn remove(&mut self, k: usize) -> (r: Option<V>)
        requires
            old(self).inv(),
            old(self).key_in_dom(k),
        ensures
            final(self).inv(),
            forall|j: usize| final(self).key_in_dom(j) == old(self).key_in_dom(j),
            Self::erases() ==> final(self).stored() == old(self).stored().remove(k),
            !Self::erases() ==> final(self).stored() == old(self).stored(),
            Self::tracks_presence() ==> !final(self).readable(k),
            forall|j: usize|
                j != k ==> final(self).readable(j) == old(self).readable(j),
            forall|j: usize|
                j != k && old(self).readable(j) ==> final(self).read(j) == old(self).read(j),
            r == (if old(self).stored().contains_key(k) {
                Some(old(self).stored()[k])
            } else {
                None::<V>
            }),
    ;

    /// Empties the store, where the adapter erases at all; a retaining
    /// adapter leaves itself unchanged.
    fn clear(&mut self)
        requires
            old(self).inv(),
        ensures
            final(self).inv(),
            forall|j: usize| final(self).key_in_dom(j) == old(self).key_in_dom(j),
            Self::erases() ==> final(self).stored() == Map::<usize, V>::empty(),
            !Self::erases() ==> *final(self) == *old(self),
            Self::tracks_presence() ==> forall|j: usize| !final(self).readable(j),
    ;
}

} // verus!
