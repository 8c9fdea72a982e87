//! An indexed minimum-priority queue with pluggable storage.
//!
//! Elements are identified by a stable external key rather than by heap
//! position; the priority storage and the key-to-position mapping are both
//! supplied by the caller through the [`indexed::Indexed`] store contract.
//! The queue maintains a binary min-heap over the keys together with the
//! inverse position mapping, and repairs heap order after every mutation.

pub mod array_map;
pub mod default_map;
pub mod hash_map;
pub mod indexed;
pub mod order;

use crate::default_map::DefaultMap;
use crate::hash_map::IndexedHashMap;
use crate::indexed::Indexed;
use crate::order::TotalOrder;
use core::marker::PhantomData;
use vstd::prelude::*;

verus! {

/// A queue over hash-backed priority and position stores.
pub type HashMapIPQ<P> = IndexedPriorityQueue<P, IndexedHashMap<P>, IndexedHashMap<usize>>;

/// A queue whose priority store reads a default for untouched keys.
pub type DefaultMapIPQ<P> = IndexedPriorityQueue<P, DefaultMap<P>, IndexedHashMap<usize>>;

/// A queue over array-backed priority and position stores.
pub type ArrayMapIPQ<P> = IndexedPriorityQueue<
    P,
    crate::array_map::ArrayPriorityMap<P>,
    crate::array_map::ArrayPositionMap,
>;

/// Indexed priority queue: a binary min-heap of keys, with the priority of
/// each key held in `priorities` and the inverse slot mapping in `positions`.
#[derive(Debug)]
pub struct IndexedPriorityQueue<P, Pri, Pos> where
    P: TotalOrder,
    Pri: Indexed<P>,
    Pos: Indexed<usize>,
{
    /// The priorities associated with keys on the heap.
    priorities: Pri,
    /// The heap slot currently occupied by each key.
    positions: Pos,
    /// The keys, in heap order: slot 0 holds a smallest priority.
    heap: Vec<usize>,
    marker: PhantomData<P>,
}

impl<P, Pri, Pos> IndexedPriorityQueue<P, Pri, Pos> where
    P: TotalOrder,
    Pri: Indexed<P>,
    Pos: Indexed<usize>,
{
    /// The heap sequence: the queued keys in slot order.
    pub closed spec fn heap_seq(&self) -> Seq<usize> {
        self.heap@
    }

    /// The number of queued keys.
    pub open spec fn spec_len(&self) -> int {
        self.heap_seq().len() as int
    }

    /// The position store's entries: key to current heap slot.
    pub closed spec fn position_map(&self) -> Map<usize, usize> {
        self.positions.stored()
    }

    /// Whether `k` currently occupies a heap slot.
    pub open spec fn positioned(&self, k: usize) -> bool {
        self.position_map().contains_key(k)
    }

    /// The priority store's explicitly installed entries.
    pub closed spec fn priority_map(&self) -> Map<usize, P> {
        self.priorities.stored()
    }

    /// Whether a priority for `k` can be looked up.
    pub closed spec fn priority_readable(&self, k: usize) -> bool {
        self.priorities.readable(k)
    }

    /// The priority a lookup of `k` observes, when one is readable.
    pub closed spec fn priority_at(&self, k: usize) -> P {
        self.priorities.read(k)
    }

    /// Whether `k` lies in the priority store's declared key domain.
    pub closed spec fn pri_in_dom(&self, k: usize) -> bool {
        self.priorities.key_in_dom(k)
    }

    /// Whether `k` lies in the position store's declared key domain.
    pub closed spec fn pos_in_dom(&self, k: usize) -> bool {
        self.positions.key_in_dom(k)
    }

    /// Whether `k` lies in the key domains both stores were declared for.
    pub open spec fn key_in_dom(&self, k: usize) -> bool {
        self.pri_in_dom(k) && self.pos_in_dom(k)
    }

    /// The priority sitting in heap slot `i`.
    pub open spec fn slot_prio(&self, i: int) -> P {
        self.priority_at(self.heap_seq()[i])
    }

    /// Whether slot `i`'s priority sorts at or before slot `j`'s.
    pub open spec fn le_slots(&self, i: int, j: int) -> bool {
        self.slot_prio(i).le_spec(&self.slot_prio(j))
    }

    /// The slot of the parent of slot `i`.
    pub open spec fn parent_of(i: int) -> int {
        (i - 1) / 2
    }

    /// Slot `i` agrees with the store state: its key maps back to `i`, its
    /// priority is readable, and the key is in both stores' domains.
    pub closed spec fn slot_ok(&self, i: int) -> bool {
        let k = self.heap@[i];
        &&& self.positions.stored().contains_key(k)
        &&& self.positions.stored()[k] == i
        &&& self.priorities.readable(k)
        &&& self.priorities.key_in_dom(k)
        &&& self.positions.key_in_dom(k)
    }

    /// The bijection invariant: every occupied slot's key maps back to that
    /// slot, and every position entry points at a slot holding its key; the
    /// stores are well formed and the position store reports removal
    /// faithfully.
    pub closed spec fn consistent(&self) -> bool {
        &&& self.priorities.inv()
        &&& self.positions.inv()
        &&& Pos::erases()
        &&& Pos::tracks_presence()
        &&& forall|i: int| 0 <= i < self.heap@.len() ==> #[trigger] self.slot_ok(i)
        &&& forall|k: usize|
            #[trigger] self.positions.stored().contains_key(k) ==> self.positions.stored()[k]
                < self.heap@.len() && self.heap@[self.positions.stored()[k] as int] == k
    }

    /// The edge of heap order into slot `i`: the parent sorts first.
    pub open spec fn ord_at(&self, i: int) -> bool {
        self.le_slots(Self::parent_of(i), i)
    }

    /// Heap order: every slot's priority is at or after its parent's.
    pub open spec fn heap_ordered(&self) -> bool {
        forall|i: int| 1 <= i < self.spec_len() ==> #[trigger] self.ord_at(i)
    }

    /// Full well-formedness: the bijection invariant plus heap order.
    pub open spec fn well_formed(&self) -> bool {
        self.consistent() && self.heap_ordered()
    }

    /// Heap order everywhere except possibly on the edge into slot `x`.
    pub open spec fn ordered_except(&self, x: int) -> bool {
        forall|i: int| 1 <= i < self.spec_len() && i != x ==> #[trigger] self.ord_at(i)
    }

    /// Heap order everywhere except possibly on the edges out of slot `x`.
    pub open spec fn ordered_except_below(&self, x: int) -> bool {
        forall|i: int|
            1 <= i < self.spec_len() && Self::parent_of(i) != x ==> #[trigger] self.ord_at(i)
    }

    /// The bridge across slot `x`: `x`'s parent sorts before `x`'s children.
    pub open spec fn bridged(&self, x: int) -> bool {
        x > 0 ==> forall|c: int|
            1 <= c < self.spec_len() && Self::parent_of(c) == x ==> #[trigger] self.le_slots(
                Self::parent_of(x),
                c,
            )
    }

    /// Both queues observe the same priority for every key.
    pub open spec fn same_priorities(&self, other: &Self) -> bool {
        &&& self.priority_map() == other.priority_map()
        &&& forall|k: usize| #[trigger] self.priority_readable(k) == other.priority_readable(k)
        &&& forall|k: usize|
            other.priority_readable(k) ==> #[trigger] self.priority_at(k) == other.priority_at(k)
    }

    /// Both queues declare the same key domains.
    pub open spec fn same_domains(&self, other: &Self) -> bool {
        &&& forall|k: usize| #[trigger] self.pri_in_dom(k) == other.pri_in_dom(k)
        &&& forall|k: usize| #[trigger] self.pos_in_dom(k) == other.pos_in_dom(k)
    }

    /// Both queues position exactly the same keys.
    pub open spec fn same_key_set(&self, other: &Self) -> bool {
        forall|k: usize| #[trigger] self.positioned(k) == other.positioned(k)
    }

    /// Two distinct slots hold distinct keys.
    proof fn lemma_distinct_slots(&self, i: int, j: int)
        requires
            self.consistent(),
            0 <= i < self.spec_len(),
            0 <= j < self.spec_len(),
            i != j,
        ensures
            self.heap_seq()[i] != self.heap_seq()[j],
    {
        assert(self.slot_ok(i));
        assert(self.slot_ok(j));
    }

    /// In a heap-ordered queue the root's priority sorts at or before the
    /// priority in any slot.
    pub proof fn lemma_root_minimal(&self, i: int)
        requires
            self.consistent(),
            self.heap_ordered(),
            0 <= i < self.spec_len(),
        ensures
            self.le_slots(0, i),
        decreases i,
    {
        if i == 0 {
            P::lemma_total(&self.slot_prio(0), &self.slot_prio(0));
        } else {
            let p = Self::parent_of(i);
            assert(self.ord_at(i));
            self.lemma_root_minimal(p);
            P::lemma_transitive(&self.slot_prio(0), &self.slot_prio(p), &self.slot_prio(i));
        }
    }

    /// Bijection law: every key reported positioned maps, through the
    /// position store, to a heap slot holding exactly that key, and every
    /// occupied slot's key is reported positioned, mapping back to the slot.
    pub proof fn lemma_bijection(&self)
        requires
            self.consistent(),
        ensures
            forall|k: usize|
                #[trigger] self.positioned(k) ==> self.position_map()[k] < self.spec_len()
                    && self.heap_seq()[self.position_map()[k] as int] == k,
            forall|i: int|
                0 <= i < self.spec_len() ==> #[trigger] self.positioned(self.heap_seq()[i])
                    && self.position_map()[self.heap_seq()[i]] == i,
    {
        assert forall|i: int|
            0 <= i < self.spec_len() implies #[trigger] self.positioned(self.heap_seq()[i])
            && self.position_map()[self.heap_seq()[i]] == i by {
            assert(self.slot_ok(i));
        };
    }

    /// Pop-order law: under heap order, the key popped first carries a
    /// priority that sorts at or before the priority of the key popped next.
    /// `pre` is the queue before the first pop of `k1`, `mid` the queue it
    /// leaves behind, whose root `k2` the second pop returns.
    pub proof fn lemma_pop_order(pre: &Self, mid: &Self, k1: usize, k2: usize)
        requires
            pre.consistent(),
            pre.heap_ordered(),
            pre.spec_len() > 0,
            k1 == pre.heap_seq()[0],
            mid.consistent(),
            mid.same_priorities(pre),
            !mid.positioned(k1),
            forall|j: usize| j != k1 ==> mid.positioned(j) == pre.positioned(j),
            mid.spec_len() > 0,
            k2 == mid.heap_seq()[0],
        ensures
            pre.priority_at(k1).le_spec(&pre.priority_at(k2)),
    {
        mid.lemma_bijection();
        assert(mid.positioned(k2));
        assert(pre.positioned(k2));
        let i = pre.position_map()[k2] as int;
        assert(pre.heap_seq()[i] == k2);
        pre.lemma_root_minimal(i);
    }

    /// Round-trip law: taking a key's position out (which leaves its stored
    /// priority behind) and then restoring it puts the key back on the heap,
    /// at a valid slot, with its previous priority. `mid` relates to `pre`
    /// as `remove_index` ensures, and `post` to `mid` as `restore_index`
    /// ensures.
    pub proof fn lemma_remove_restore_round_trip(pre: &Self, mid: &Self, post: &Self, k: usize)
        requires
            pre.consistent(),
            pre.positioned(k),
            pre.priority_readable(k),
            mid.consistent(),
            !mid.positioned(k),
            mid.same_priorities(pre),
            post.consistent(),
            post.positioned(k),
            post.same_priorities(mid),
        ensures
            post.positioned(k),
            post.priority_readable(k),
            post.priority_at(k) == pre.priority_at(k),
            post.position_map()[k] < post.spec_len(),
            post.heap_seq()[post.position_map()[k] as int] == k,
    {
        post.lemma_bijection();
    }

    /// Constructs a new, empty queue over the two given stores.
    pub fn new(priorities: Pri, positions: Pos) -> (r: Self)
        requires
            priorities.inv(),
            positions.inv(),
            positions.stored() == Map::<usize, usize>::empty(),
            Pos::erases(),
            Pos::tracks_presence(),
        ensures
            r.well_formed(),
            r.spec_len() == 0,
            r.position_map() == positions.stored(),
            forall|k: usize| #[trigger] r.key_in_dom(k) == (priorities.key_in_dom(k)
                && positions.key_in_dom(k)),
            forall|k: usize| #[trigger] r.priority_readable(k) == priorities.readable(k),
            forall|k: usize|
                priorities.readable(k) ==> #[trigger] r.priority_at(k) == priorities.read(k),
            r.priority_map() == priorities.stored(),
    {
        Self::with_capacity(priorities, positions, 0)
    }

    /// Constructs a new, empty queue with at least the specified heap
    /// capacity pre-allocated.
    pub fn with_capacity(priorities: Pri, positions: Pos, capacity: usize) -> (r: Self)
        requires
            priorities.inv(),
            positions.inv(),
            positions.stored() == Map::<usize, usize>::empty(),
            Pos::erases(),
            Pos::tracks_presence(),
        ensures
            r.well_formed(),
            r.spec_len() == 0,
            r.position_map() == positions.stored(),
            forall|k: usize| #[trigger] r.key_in_dom(k) == (priorities.key_in_dom(k)
                && positions.key_in_dom(k)),
            forall|k: usize| #[trigger] r.priority_readable(k) == priorities.readable(k),
            forall|k: usize|
                priorities.readable(k) ==> #[trigger] r.priority_at(k) == priorities.read(k),
            r.priority_map() == priorities.stored(),
    {
        IndexedPriorityQueue {
            priorities,
            positions,
            heap: Vec::with_capacity(capacity),
            marker: PhantomData,
        }
    }

    /// Returns the number of keys in the queue.
    pub fn len(&self) -> (r: usize)
        ensures
            r == self.spec_len(),
    {
        self.heap.len()
    }

    /// Returns `true` if the queue holds no keys.
    pub fn is_empty(&self) -> (r: bool)
        ensures
            r == (self.spec_len() == 0),
    {
        self.heap.len() == 0
    }

    /// Returns `true` if `index` currently occupies a heap slot.
    pub fn contains(&self, index: usize) -> (r: bool)
        requires
            self.consistent(),
            self.key_in_dom(index),
        ensures
            r == self.positioned(index),
    {
        let r = self.positions.contains(index);
        proof {
            self.positions.lemma_tracks_presence(index);
        }
        r
    }

    /// Returns the key in the root slot — under heap order, a key of
    /// smallest priority — or `None` if the queue is empty.
    pub fn min(&self) -> (r: Option<usize>)
        requires
            self.consistent(),
        ensures
            (match r {
                Some(k) => {
                    &&& self.spec_len() > 0
                    &&& k == self.heap_seq()[0]
                    &&& self.heap_ordered() ==> forall|j: usize|
                        self.positioned(j) ==> #[trigger] self.priority_at(k).le_spec(
                            &self.priority_at(j),
                        )
                },
                None => self.spec_len() == 0,
            }),
    {
        if self.heap.len() == 0 {
            None
        } else {
            proof {
                assert(self.slot_ok(0));
                if self.heap_ordered() {
                    let k0 = self.heap_seq()[0];
                    assert forall|j: usize| self.positioned(j) implies #[trigger] self.priority_at(
                        k0,
                    ).le_spec(&self.priority_at(j)) by {
                        let i = self.position_map()[j] as int;
                        assert(self.heap_seq()[i] == j);
                        self.lemma_root_minimal(i);
                    };
                }
            }
            Some(self.heap[0])
        }
    }

    /// Returns the priority in the root slot, or `None` if the queue is
    /// empty. Under heap order it sorts at or before every queued priority.
    pub fn min_priority(&self) -> (r: Option<&P>)
        requires
            self.consistent(),
        ensures
            (match r {
                Some(p) => {
                    &&& self.spec_len() > 0
                    &&& *p == self.slot_prio(0)
                    &&& self.heap_ordered() ==> forall|i: int|
                        0 <= i < self.spec_len() ==> #[trigger] self.le_slots(0, i)
                },
                None => self.spec_len() == 0,
            }),
    {
        if self.heap.len() == 0 {
            None
        } else {
            let k = self.heap[0];
            proof {
                assert(self.slot_ok(0));
                if self.heap_ordered() {
                    assert forall|i: int| 0 <= i < self.spec_len() implies #[trigger] self.le_slots(
                        0,
                        i,
                    ) by {
                        self.lemma_root_minimal(i);
                    }
                }
            }
            self.priorities.get(k)
        }
    }

    /// The slot of the parent of heap slot `n`.
    fn parent(n: usize) -> (r: usize)
        requires
            n >= 1,
        ensures
            r == Self::parent_of(n as int),
    {
        (n - 1) / 2
    }

    /// The slot of the left child of heap slot `n`, if it is on the heap.
    fn left(&self, n: usize) -> (r: Option<usize>)
        requires
            n < self.spec_len(),
        ensures
            (match r {
                Some(l) => l == 2 * n + 1 && l < self.spec_len(),
                None => 2 * n + 1 >= self.spec_len(),
            }),
    {
        if self.heap.len() - n > n + 1 {
            Some(n + n + 1)
        } else {
            None
        }
    }

    /// The slot of the right child of heap slot `n`, if it is on the heap.
    fn right(&self, n: usize) -> (r: Option<usize>)
        requires
            n < self.spec_len(),
            2 * n + 1 < self.spec_len(),
        ensures
            (match r {
                Some(l) => l == 2 * n + 2 && l < self.spec_len(),
                None => 2 * n + 2 >= self.spec_len(),
            }),
    {
        if self.heap.len() - n > n + 2 {
            Some(n + n + 2)
        } else {
            None
        }
    }

    /// Compares the priorities in two heap slots.
    fn le_at(&self, n: usize, m: usize) -> (r: bool)
        requires
            self.consistent(),
            n < self.spec_len(),
            m < self.spec_len(),
        ensures
            r == self.le_slots(n as int, m as int),
    {
        proof {
            assert(self.slot_ok(n as int));
            assert(self.slot_ok(m as int));
        }
        let a = self.heap[n];
        let b = self.heap[m];
        let pa = self.priorities.get(a);
        let pb = self.priorities.get(b);
        match (pa, pb) {
            (Some(x), Some(y)) => x.le(y),
            _ => {
                proof {
                    assert(false);
                }
                true
            },
        }
    }

    /// Swaps the keys in two heap slots, updating both position entries.
    fn swap(&mut self, n: usize, m: usize)
        requires
            old(self).consistent(),
            n < old(self).spec_len(),
            m < old(self).spec_len(),
            n != m,
        ensures
            final(self).consistent(),
            final(self).heap_seq() == old(self).heap_seq().update(
                n as int,
                old(self).heap_seq()[m as int],
            ).update(m as int, old(self).heap_seq()[n as int]),
            final(self).position_map() == old(self).position_map().insert(
                old(self).heap_seq()[n as int],
                m,
            ).insert(old(self).heap_seq()[m as int], n),
            final(self).priorities == old(self).priorities,
            final(self).same_key_set(old(self)),
            final(self).same_domains(old(self)),
            final(self).spec_len() == old(self).spec_len(),
    {
        let kn = self.heap[n];
        let km = self.heap[m];
        proof {
            assert(self.slot_ok(n as int));
            assert(self.slot_ok(m as int));
            self.lemma_distinct_slots(n as int, m as int);
        }
        self.positions.insert(kn, m);
        self.positions.insert(km, n);
        self.heap.set(n, km);
        self.heap.set(m, kn);
        proof {
            let pre = old(self);
            assert(self.position_map() =~= pre.position_map().insert(kn, m).insert(km, n));
            assert forall|i: int| 0 <= i < self.heap@.len() implies #[trigger] self.slot_ok(i) by {
                assert(pre.slot_ok(i));
                if i != n && i != m {
                    pre.lemma_distinct_slots(i, n as int);
                    pre.lemma_distinct_slots(i, m as int);
                }
            };
            assert forall|k: usize| #[trigger] self.positions.stored().contains_key(k) implies self
                .positions.stored()[k] < self.heap@.len() && self.heap@[self.positions.stored()[k]
                as int] == k by {
                if k != kn && k != km {
                    assert(pre.positions.stored().contains_key(k));
                    let i = pre.positions.stored()[k] as int;
                    assert(pre.heap@[i] == k);
                    assert(i != n && i != m);
                }
            };
        }
    }

    /// Up-heap repair from `start`: bubbles the key toward the root until
    /// its parent sorts at or before it. Restores full heap order whenever
    /// order held everywhere but on the edge into `start` and `start`'s
    /// parent already sorted before `start`'s children.
    fn up_heap(&mut self, start: usize)
        requires
            old(self).consistent(),
            start < old(self).spec_len(),
        ensures
            final(self).consistent(),
            final(self).spec_len() == old(self).spec_len(),
            final(self).priorities == old(self).priorities,
            final(self).same_priorities(old(self)),
            final(self).same_key_set(old(self)),
            final(self).same_domains(old(self)),
            old(self).ordered_except(start as int) && old(self).bridged(start as int)
                ==> final(self).heap_ordered(),
    {
        let ghost init = *old(self);
        let ghost ok = init.ordered_except(start as int) && init.bridged(start as int);
        let mut n = start;
        while n > 0
            invariant
                self.consistent(),
                n < self.spec_len(),
                self.spec_len() == init.spec_len(),
                self.priorities == init.priorities,
                self.same_key_set(&init),
                self.same_domains(&init),
                ok ==> self.ordered_except(n as int) && self.bridged(n as int),
            ensures
                self.consistent(),
                n < self.spec_len(),
                self.spec_len() == init.spec_len(),
                self.priorities == init.priorities,
                self.same_key_set(&init),
                self.same_domains(&init),
                ok ==> self.heap_ordered(),
            decreases n,
        {
            let p = Self::parent(n);
            if self.le_at(p, n) {
                proof {
                    if ok {
                        assert forall|i: int| 1 <= i < self.spec_len() implies #[trigger] self
                            .ord_at(i) by {
                            if i != n {
                                assert(self.ord_at(i));
                            }
                        };
                    }
                }
                break ;
            }
            let ghost pre = *self;
            self.swap(p, n);
            proof {
                if ok {
                    self.lemma_after_up_swap(&pre, p as int, n as int);
                }
            }
            n = p;
        }
        proof {
            if ok && n == 0 {
                assert forall|i: int| 1 <= i < self.spec_len() implies #[trigger] self.ord_at(
                    i,
                ) by {
                    assert(self.ord_at(i));
                };
            }
        }
    }

    /// After swapping a key with its parent during up-heap repair, order
    /// holds everywhere but on the edge into the parent slot, and the bridge
    /// across the parent slot holds.
    proof fn lemma_after_up_swap(&self, pre: &Self, p: int, n: int)
        requires
            pre.consistent(),
            0 <= p,
            p == Self::parent_of(n),
            1 <= n < pre.spec_len(),
            pre.ordered_except(n),
            pre.bridged(n),
            !pre.le_slots(p, n),
            self.consistent(),
            self.spec_len() == pre.spec_len(),
            self.priorities == pre.priorities,
            self.heap_seq() == pre.heap_seq().update(p, pre.heap_seq()[n]).update(
                n,
                pre.heap_seq()[p],
            ),
        ensures
            self.ordered_except(p),
            self.bridged(p),
    {
        let len = pre.spec_len();
        P::lemma_total(&pre.slot_prio(p), &pre.slot_prio(n));
        assert forall|i: int| 1 <= i < len && i != p implies #[trigger] self.ord_at(i) by {
            let pi = Self::parent_of(i);
            if i == n {
                assert(self.slot_prio(n) == pre.slot_prio(p));
                assert(self.slot_prio(p) == pre.slot_prio(n));
            } else if pi == n {
                assert(pre.le_slots(p, i));
                assert(self.slot_prio(n) == pre.slot_prio(p));
            } else if pi == p {
                assert(pre.ord_at(i));
                P::lemma_transitive(
                    &pre.slot_prio(n),
                    &pre.slot_prio(p),
                    &pre.slot_prio(i),
                );
                assert(self.slot_prio(p) == pre.slot_prio(n));
            } else {
                assert(pre.ord_at(i));
            }
        };
        if p > 0 {
            assert forall|c: int|
                1 <= c < len && Self::parent_of(c) == p implies #[trigger] self.le_slots(
                Self::parent_of(p),
                c,
            ) by {
                let pp = Self::parent_of(p);
                assert(pp < p < n);
                if c == n {
                    assert(pre.ord_at(p));
                    assert(self.slot_prio(n) == pre.slot_prio(p));
                } else {
                    assert(pre.ord_at(c));
                    assert(pre.ord_at(p));
                    P::lemma_transitive(
                        &pre.slot_prio(pp),
                        &pre.slot_prio(p),
                        &pre.slot_prio(c),
                    );
                }
            };
        }
    }

    /// A slot `c` whose parent is `n` is one of `n`'s two child slots.
    proof fn lemma_children(n: int, c: int)
        requires
            1 <= c,
            Self::parent_of(c) == n,
        ensures
            c == 2 * n + 1 || c == 2 * n + 2,
    {
    }

    /// Down-heap repair from `start`: sinks the key toward the leaves until
    /// it sorts at or before both children. Restores full heap order
    /// whenever order held everywhere but on the edges out of `start` and
    /// `start`'s parent already sorted before `start`'s children.
    fn down_heap(&mut self, start: usize)
        requires
            old(self).consistent(),
            start < old(self).spec_len(),
        ensures
            final(self).consistent(),
            final(self).spec_len() == old(self).spec_len(),
            final(self).priorities == old(self).priorities,
            final(self).same_priorities(old(self)),
            final(self).same_key_set(old(self)),
            final(self).same_domains(old(self)),
            old(self).ordered_except_below(start as int) && old(self).bridged(start as int)
                ==> final(self).heap_ordered(),
    {
        let ghost init = *old(self);
        let ghost ok = init.ordered_except_below(start as int) && init.bridged(start as int);
        let mut n = start;
        loop
            invariant
                self.consistent(),
                n < self.spec_len(),
                self.spec_len() == init.spec_len(),
                self.priorities == init.priorities,
                self.same_key_set(&init),
                self.same_domains(&init),
                ok ==> self.ordered_except_below(n as int) && self.bridged(n as int),
            ensures
                self.consistent(),
                self.spec_len() == init.spec_len(),
                self.priorities == init.priorities,
                self.same_key_set(&init),
                self.same_domains(&init),
                ok ==> self.heap_ordered(),
            decreases self.spec_len() - n,
        {
            match self.left(n) {
                None => {
                    proof {
                        if ok {
                            assert forall|i: int| 1 <= i < self.spec_len() implies #[trigger] self
                                .ord_at(i) by {
                                if Self::parent_of(i) == n as int {
                                    Self::lemma_children(n as int, i);
                                } else {
                                    assert(self.ord_at(i));
                                }
                            };
                        }
                    }
                    break ;
                },
                Some(l) => {
                    let sc = match self.right(n) {
                        None => l,
                        Some(r) => if self.le_at(l, r) {
                            l
                        } else {
                            r
                        },
                    };
                    proof {
                        P::lemma_total(&self.slot_prio(l as int), &self.slot_prio(sc as int));
                        assert forall|c: int|
                            1 <= c < self.spec_len() && Self::parent_of(c) == n as int implies
                            #[trigger] self.le_slots(sc as int, c) by {
                            Self::lemma_children(n as int, c);
                            P::lemma_total(&self.slot_prio(sc as int), &self.slot_prio(c));
                        };
                    }
                    if self.le_at(n, sc) {
                        proof {
                            if ok {
                                assert forall|i: int| 1 <= i < self.spec_len() implies #[trigger]
                                    self.ord_at(i) by {
                                    if Self::parent_of(i) == n as int {
                                        assert(self.le_slots(sc as int, i));
                                        P::lemma_transitive(
                                            &self.slot_prio(n as int),
                                            &self.slot_prio(sc as int),
                                            &self.slot_prio(i),
                                        );
                                    } else {
                                        assert(self.ord_at(i));
                                    }
                                };
                            }
                        }
                        break ;
                    }
                    let ghost pre = *self;
                    self.swap(n, sc);
                    proof {
                        if ok {
                            self.lemma_after_down_swap(&pre, n as int, sc as int);
                        }
                    }
                    n = sc;
                },
            }
        }
    }

    /// After swapping a key with its smallest child during down-heap repair,
    /// order holds everywhere but on the edges out of the child slot, and
    /// the bridge across the child slot holds.
    proof fn lemma_after_down_swap(&self, pre: &Self, n: int, sc: int)
        requires
            pre.consistent(),
            0 <= n < sc < pre.spec_len(),
            Self::parent_of(sc) == n,
            pre.ordered_except_below(n),
            pre.bridged(n),
            forall|c: int|
                1 <= c < pre.spec_len() && Self::parent_of(c) == n ==> #[trigger] pre.le_slots(
                    sc,
                    c,
                ),
            !pre.le_slots(n, sc),
            self.consistent(),
            self.spec_len() == pre.spec_len(),
            self.priorities == pre.priorities,
            self.heap_seq() == pre.heap_seq().update(n, pre.heap_seq()[sc]).update(
                sc,
                pre.heap_seq()[n],
            ),
        ensures
            self.ordered_except_below(sc),
            self.bridged(sc),
    {
        let len = pre.spec_len();
        P::lemma_total(&pre.slot_prio(n), &pre.slot_prio(sc));
        assert forall|i: int|
            1 <= i < len && Self::parent_of(i) != sc implies #[trigger] self.ord_at(i) by {
            let pi = Self::parent_of(i);
            if i == sc {
                assert(self.slot_prio(sc) == pre.slot_prio(n));
                assert(self.slot_prio(n) == pre.slot_prio(sc));
            } else if pi == n {
                assert(pre.le_slots(sc, i));
                assert(self.slot_prio(n) == pre.slot_prio(sc));
            } else if i == n {
                assert(n >= 1);
                assert(pre.bridged(n));
                assert(pre.le_slots(pi, sc));
                assert(self.slot_prio(n) == pre.slot_prio(sc));
            } else {
                assert(pre.ord_at(i));
            }
        };
        assert forall|c: int|
            1 <= c < len && Self::parent_of(c) == sc implies #[trigger] self.le_slots(
            Self::parent_of(sc),
            c,
        ) by {
            assert(pre.ord_at(c));
            assert(self.slot_prio(n) == pre.slot_prio(sc));
        };
    }

    /// Reinserts a previously removed key with its last readable priority:
    /// appends it to the heap and up-heaps it into place. A no-op when the
    /// key already occupies a slot.
    pub fn restore_index(&mut self, index: usize)
        requires
            old(self).consistent(),
            old(self).key_in_dom(index),
            !old(self).positioned(index) ==> old(self).priority_readable(index),
        ensures
            final(self).consistent(),
            final(self).positioned(index),
            final(self).same_priorities(old(self)),
            final(self).same_domains(old(self)),
            old(self).positioned(index) ==> *final(self) == *old(self),
            !old(self).positioned(index) ==> {
                &&& final(self).spec_len() == old(self).spec_len() + 1
                &&& forall|k: usize|
                    k != index ==> final(self).positioned(k) == old(self).positioned(k)
                &&& (old(self).heap_ordered() ==> final(self).heap_ordered())
            },
    {
        let already = self.contains(index);
        if !already {
            let position = self.heap.len();
            self.heap.push(index);
            self.positions.insert(index, position);
            proof {
                let pre = old(self);
                assert forall|i: int| 0 <= i < self.heap@.len() implies #[trigger] self.slot_ok(
                    i,
                ) by {
                    if i < position {
                        assert(pre.slot_ok(i));
                    }
                };
                assert forall|k: usize| #[trigger] self.positions.stored().contains_key(k) implies
                    self.positions.stored()[k] < self.heap@.len() && self.heap@[self.positions
                    .stored()[k] as int] == k by {
                    if k != index {
                        assert(pre.positions.stored().contains_key(k));
                    }
                };
                if pre.heap_ordered() {
                    assert forall|i: int|
                        1 <= i < self.spec_len() && i != position as int implies #[trigger] self
                        .ord_at(i) by {
                        assert(pre.ord_at(i));
                        assert(pre.slot_ok(i));
                        assert(pre.slot_ok(Self::parent_of(i)));
                    };
                    assert forall|c: int|
                        1 <= c < self.spec_len() && Self::parent_of(c) == position as int implies
                        #[trigger] self.le_slots(Self::parent_of(position as int), c) by {
                        Self::lemma_children(position as int, c);
                    };
                }
            }
            self.up_heap(position);
        }
    }

    /// Installs `value` as `index`'s priority and ensures `index` occupies a
    /// heap slot, returning the previously stored priority if there was one.
    /// A key already on the heap keeps its slot: like `restore_index`, the
    /// membership side is idempotent, and no repair is attempted.
    pub fn push(&mut self, index: usize, value: P) -> (r: Option<P>)
        requires
            old(self).consistent(),
            old(self).key_in_dom(index),
        ensures
            final(self).consistent(),
            final(self).positioned(index),
            final(self).same_domains(old(self)),
            final(self).priority_map() == old(self).priority_map().insert(index, value),
            final(self).priority_readable(index) && final(self).priority_at(index) == value,
            forall|k: usize|
                k != index ==> final(self).priority_readable(k) == old(self).priority_readable(k),
            forall|k: usize|
                k != index && old(self).priority_readable(k) ==> final(self).priority_at(k) == old(
                    self,
                ).priority_at(k),
            r == (if old(self).priority_map().contains_key(index) {
                Some(old(self).priority_map()[index])
            } else {
                None::<P>
            }),
            old(self).positioned(index) ==> final(self).heap_seq() == old(self).heap_seq()
                && final(self).position_map() == old(self).position_map(),
            old(self).heap_ordered() && old(self).positioned(index) && value == old(
                self,
            ).priority_at(index) ==> final(self).heap_ordered(),
            !old(self).positioned(index) ==> {
                &&& final(self).spec_len() == old(self).spec_len() + 1
                &&& forall|k: usize|
                    k != index ==> final(self).positioned(k) == old(self).positioned(k)
                &&& (old(self).heap_ordered() ==> final(self).heap_ordered())
            },
    {
        let r = self.priorities.insert(index, value);
        proof {
            let pre = old(self);
            assert forall|i: int| 0 <= i < self.heap@.len() implies #[trigger] self.slot_ok(i) by {
                assert(pre.slot_ok(i));
            };
            if pre.heap_ordered() && (!pre.positioned(index) || value == pre.priority_at(
                index,
            )) {
                assert forall|i: int| 1 <= i < self.spec_len() implies #[trigger] self.ord_at(
                    i,
                ) by {
                    assert(pre.ord_at(i));
                    assert(pre.slot_ok(i));
                    assert(pre.slot_ok(Self::parent_of(i)));
                    if !pre.positioned(index) {
                        assert(pre.heap_seq()[i] != index && pre.heap_seq()[Self::parent_of(i)]
                            != index);
                    }
                };
            }
        }
        self.restore_index(index);
        r
    }

    /// Removes `index` from the heap, retaining its stored priority for a
    /// later `restore_index`. The key must currently occupy a slot.
    pub fn remove_index(&mut self, index: usize)
        requires
            old(self).consistent(),
            old(self).positioned(index),
        ensures
            final(self).consistent(),
            !final(self).positioned(index),
            forall|k: usize| k != index ==> final(self).positioned(k) == old(self).positioned(k),
            final(self).spec_len() == old(self).spec_len() - 1,
            final(self).same_priorities(old(self)),
            final(self).same_domains(old(self)),
            old(self).heap_ordered() ==> final(self).heap_ordered(),
    {
        let ghost pre = *old(self);
        let ghost ok = pre.heap_ordered();
        proof {
            assert(pre.slot_ok(pre.positions.stored()[index] as int));
        }
        let popt = self.positions.remove(index);
        let position = match popt {
            Some(p) => p,
            None => {
                proof {
                    assert(false);
                }
                0
            },
        };
        proof {
            assert(pre.positions.stored()[index] == position);
            assert(position < pre.spec_len());
        }
        let lopt = self.heap.pop();
        let last = match lopt {
            Some(k) => k,
            None => {
                proof {
                    assert(false);
                }
                0
            },
        };
        if position < self.heap.len() {
            proof {
                pre.lemma_distinct_slots(position as int, pre.spec_len() - 1);
                assert(pre.slot_ok(pre.spec_len() - 1));
            }
            self.heap.set(position, last);
            self.positions.insert(last, position);
            proof {
                self.lemma_remove_mid_consistent(&pre, index, position as int);
                if ok {
                    self.lemma_remove_mid_order(&pre, index, position as int);
                }
            }
            let repair_up = if position > 0 {
                let par = Self::parent(position);
                !self.le_at(par, position)
            } else {
                false
            };
            if repair_up {
                proof {
                    if ok {
                        let p = Self::parent_of(position as int);
                        P::lemma_total(
                            &self.slot_prio(p),
                            &self.slot_prio(position as int),
                        );
                        assert forall|i: int|
                            1 <= i < self.spec_len() && i != position as int implies #[trigger]
                            self.ord_at(i) by {
                            if Self::parent_of(i) == position as int {
                                assert(self.le_slots(p, i));
                                P::lemma_transitive(
                                    &self.slot_prio(position as int),
                                    &self.slot_prio(p),
                                    &self.slot_prio(i),
                                );
                            } else {
                                assert(self.ord_at(i));
                            }
                        };
                    }
                }
                self.up_heap(position);
            } else {
                proof {
                    if ok {
                        assert forall|i: int|
                            1 <= i < self.spec_len() && Self::parent_of(i) != position as int
                            implies #[trigger] self.ord_at(i) by {
                            assert(self.ord_at(i));
                        };
                    }
                }
                self.down_heap(position);
            }
        } else {
            proof {
                assert(position == pre.spec_len() - 1);
                assert forall|i: int| 0 <= i < self.heap@.len() implies #[trigger] self.slot_ok(
                    i,
                ) by {
                    assert(pre.slot_ok(i));
                    pre.lemma_distinct_slots(i, position as int);
                };
                assert forall|k: usize| #[trigger] self.positions.stored().contains_key(k) implies
                    self.positions.stored()[k] < self.heap@.len() && self.heap@[self.positions
                    .stored()[k] as int] == k by {
                    assert(pre.positions.stored().contains_key(k));
                    let i = pre.positions.stored()[k] as int;
                    assert(pre.heap@[i] == k);
                    if i == position as int {
                        assert(k == index);
                        assert(false);
                    }
                };
                if ok {
                    assert forall|i: int| 1 <= i < self.spec_len() implies #[trigger] self.ord_at(
                        i,
                    ) by {
                        assert(pre.ord_at(i));
                        assert(pre.slot_ok(i));
                        assert(pre.slot_ok(Self::parent_of(i)));
                    };
                }
            }
        }
    }

    /// After taking `index`'s position entry out, moving the tail key into
    /// `index`'s old slot keeps the bijection invariant.
    proof fn lemma_remove_mid_consistent(&self, pre: &Self, index: usize, position: int)
        requires
            pre.consistent(),
            pre.positions.stored().contains_key(index),
            pre.positions.stored()[index] == position,
            0 <= position < pre.spec_len() - 1,
            self.priorities == pre.priorities,
            self.heap_seq() == pre.heap_seq().subrange(0, pre.spec_len() - 1).update(
                position,
                pre.heap_seq()[pre.spec_len() - 1],
            ),
            self.positions.stored() == pre.positions.stored().remove(index).insert(
                pre.heap_seq()[pre.spec_len() - 1],
                position as usize,
            ),
            forall|k: usize| self.positions.key_in_dom(k) == pre.positions.key_in_dom(k),
            self.positions.inv(),
            self.priorities.inv(),
        ensures
            self.consistent(),
    {
        let len = pre.spec_len();
        let last = pre.heap_seq()[len - 1];
        assert(pre.slot_ok(len - 1));
        assert(pre.slot_ok(position));
        assert(last != index) by {
            pre.lemma_distinct_slots(position, len - 1);
        }
        assert forall|i: int| 0 <= i < self.heap@.len() implies #[trigger] self.slot_ok(i) by {
            assert(pre.slot_ok(i));
            if i != position {
                pre.lemma_distinct_slots(i, position);
                pre.lemma_distinct_slots(i, len - 1);
            }
        };
        assert forall|k: usize| #[trigger] self.positions.stored().contains_key(k) implies self
            .positions.stored()[k] < self.heap@.len() && self.heap@[self.positions.stored()[k]
            as int] == k by {
            if k != last {
                assert(pre.positions.stored().contains_key(k));
                let i = pre.positions.stored()[k] as int;
                assert(pre.heap@[i] == k);
                if i == position {
                    assert(k == index);
                    assert(false);
                }
                if i == len - 1 {
                    assert(k == last);
                    assert(false);
                }
            }
        };
    }

    /// After the same move, heap order holds everywhere but around the
    /// refilled slot, and the bridge across it holds.
    proof fn lemma_remove_mid_order(&self, pre: &Self, index: usize, position: int)
        requires
            pre.consistent(),
            pre.heap_ordered(),
            pre.positions.stored().contains_key(index),
            pre.positions.stored()[index] == position,
            0 <= position < pre.spec_len() - 1,
            self.consistent(),
            self.priorities == pre.priorities,
            self.heap_seq() == pre.heap_seq().subrange(0, pre.spec_len() - 1).update(
                position,
                pre.heap_seq()[pre.spec_len() - 1],
            ),
        ensures
            forall|i: int|
                1 <= i < self.spec_len() && i != position && Self::parent_of(i) != position
                    ==> #[trigger] self.ord_at(i),
            self.bridged(position),
            position > 0 ==> self.le_slots(Self::parent_of(position), position) == self.ord_at(
                position,
            ),
    {
        let len = pre.spec_len();
        let last = pre.heap_seq()[len - 1];
        assert(pre.slot_ok(len - 1));
        assert forall|i: int|
            1 <= i < self.spec_len() && i != position && Self::parent_of(i) != position implies
            #[trigger] self.ord_at(i) by {
            assert(pre.ord_at(i));
            assert(self.slot_prio(i) == pre.slot_prio(i));
            assert(self.slot_prio(Self::parent_of(i)) == pre.slot_prio(Self::parent_of(i)));
        };
        if position > 0 {
            assert forall|c: int|
                1 <= c < self.spec_len() && Self::parent_of(c) == position implies #[trigger] self
                .le_slots(Self::parent_of(position), c) by {
                assert(pre.ord_at(c));
                assert(pre.ord_at(position));
                P::lemma_transitive(
                    &pre.slot_prio(Self::parent_of(position)),
                    &pre.slot_prio(position),
                    &pre.slot_prio(c),
                );
                assert(self.slot_prio(c) == pre.slot_prio(c));
                assert(self.slot_prio(Self::parent_of(position)) == pre.slot_prio(
                    Self::parent_of(position),
                ));
            };
        }
    }

    /// Removes `index` from the heap and deletes and returns its stored
    /// priority. The key must currently occupy a slot and have a stored
    /// priority.
    pub fn remove(&mut self, index: usize) -> (r: P)
        requires
            old(self).consistent(),
            old(self).positioned(index),
            old(self).priority_map().contains_key(index),
        ensures
            final(self).consistent(),
            !final(self).positioned(index),
            forall|k: usize| k != index ==> final(self).positioned(k) == old(self).positioned(k),
            final(self).spec_len() == old(self).spec_len() - 1,
            final(self).same_domains(old(self)),
            r == old(self).priority_map()[index],
            Pri::erases() ==> final(self).priority_map() == old(self).priority_map().remove(
                index,
            ),
            !Pri::erases() ==> final(self).priority_map() == old(self).priority_map(),
            forall|k: usize|
                k != index ==> final(self).priority_readable(k) == old(self).priority_readable(k),
            forall|k: usize|
                k != index && old(self).priority_readable(k) ==> final(self).priority_at(k) == old(
                    self,
                ).priority_at(k),
            old(self).heap_ordered() ==> final(self).heap_ordered(),
    {
        proof {
            assert(old(self).slot_ok(old(self).positions.stored()[index] as int));
        }
        self.remove_index(index);
        let ghost mid = *self;
        proof {
            assert(mid.pri_in_dom(index) == old(self).pri_in_dom(index));
            assert(mid.priorities.key_in_dom(index));
        }
        let r = self.priorities.remove(index);
        proof {
            assert forall|i: int| 0 <= i < self.heap@.len() implies #[trigger] self.slot_ok(i) by {
                assert(mid.slot_ok(i));
                let ki = mid.heap_seq()[i];
                assert(ki != index);
                assert(self.priorities.readable(ki) == mid.priorities.readable(ki));
                assert(self.priorities.key_in_dom(ki) == mid.priorities.key_in_dom(ki));
            };
            assert forall|k: usize| #[trigger] self.pri_in_dom(k) == old(self).pri_in_dom(k) by {
                assert(self.priorities.key_in_dom(k) == mid.priorities.key_in_dom(k));
                assert(mid.pri_in_dom(k) == old(self).pri_in_dom(k));
            };
            assert forall|k: usize| #[trigger] self.pos_in_dom(k) == old(self).pos_in_dom(k) by {
                assert(mid.pos_in_dom(k) == old(self).pos_in_dom(k));
            };
            assert forall|k: usize|
                k != index implies #[trigger] self.priority_readable(k) == old(
                self,
            ).priority_readable(k) by {
                assert(self.priorities.readable(k) == mid.priorities.readable(k));
                assert(mid.priority_readable(k) == old(self).priority_readable(k));
            };
            assert forall|k: usize|
                k != index && old(self).priority_readable(k) implies #[trigger] self.priority_at(
                k,
            ) == old(self).priority_at(k) by {
                assert(mid.priority_readable(k) == old(self).priority_readable(k));
                assert(mid.priorities.readable(k));
                assert(self.priorities.read(k) == mid.priorities.read(k));
                assert(mid.priority_at(k) == old(self).priority_at(k));
            };
            assert forall|k: usize| #[trigger] self.positions.stored().contains_key(k) implies self
                .positions.stored()[k] < self.heap@.len() && self.heap@[self.positions.stored()[k]
                as int] == k by {
                assert(mid.positions.stored().contains_key(k));
            };
            if old(self).heap_ordered() {
                assert forall|i: int| 1 <= i < self.spec_len() implies #[trigger] self.ord_at(
                    i,
                ) by {
                    assert(mid.ord_at(i));
                    assert(mid.slot_ok(i));
                    assert(mid.slot_ok(Self::parent_of(i)));
                    let ki = mid.heap_seq()[i];
                    let kp = mid.heap_seq()[Self::parent_of(i)];
                    assert(ki != index && kp != index);
                    assert(self.priorities.read(ki) == mid.priorities.read(ki));
                    assert(self.priorities.read(kp) == mid.priorities.read(kp));
                };
            }
        }
        r.unwrap()
    }

    /// Removes and returns the key in the root slot — under heap order, a
    /// key of smallest priority — or `None` if the queue is empty.
    pub fn pop(&mut self) -> (r: Option<usize>)
        requires
            old(self).consistent(),
        ensures
            final(self).consistent(),
            final(self).same_priorities(old(self)),
            final(self).same_domains(old(self)),
            (match r {
                None => old(self).spec_len() == 0 && *final(self) == *old(self),
                Some(k) => {
                    &&& old(self).spec_len() > 0
                    &&& k == old(self).heap_seq()[0]
                    &&& final(self).spec_len() == old(self).spec_len() - 1
                    &&& !final(self).positioned(k)
                    &&& forall|j: usize|
                        j != k ==> final(self).positioned(j) == old(self).positioned(j)
                    &&& (old(self).heap_ordered() ==> final(self).heap_ordered())
                    &&& (old(self).heap_ordered() ==> forall|j: usize|
                        final(self).positioned(j) ==> #[trigger] old(self).priority_at(
                            k,
                        ).le_spec(&old(self).priority_at(j)))
                },
            }),
    {
        if self.heap.len() == 0 {
            return None;
        }
        let k0 = self.heap[0];
        proof {
            assert(self.slot_ok(0));
        }
        self.remove_index(k0);
        proof {
            let pre = old(self);
            if pre.heap_ordered() {
                assert forall|j: usize| final(self).positioned(j) implies #[trigger] pre
                    .priority_at(k0).le_spec(&pre.priority_at(j)) by {
                    assert(pre.positioned(j));
                    let i = pre.position_map()[j] as int;
                    assert(pre.heap_seq()[i] == j);
                    pre.lemma_root_minimal(i);
                    assert(pre.slot_prio(0) == pre.priority_at(k0));
                    assert(pre.slot_prio(i) == pre.priority_at(j));
                };
            }
        }
        Some(k0)
    }

    /// Empties the heap and the position store; stored priorities stay
    /// behind for later reinsertion.
    pub fn clear_indices(&mut self)
        requires
            old(self).consistent(),
        ensures
            final(self).well_formed(),
            final(self).spec_len() == 0,
            forall|k: usize| !final(self).positioned(k),
            final(self).same_priorities(old(self)),
            final(self).same_domains(old(self)),
    {
        self.positions.clear();
        self.heap.clear();
    }

    /// Empties the heap, the position store and — where the priority
    /// adapter erases at all — the priority store.
    pub fn clear(&mut self)
        requires
            old(self).consistent(),
        ensures
            final(self).well_formed(),
            final(self).spec_len() == 0,
            forall|k: usize| !final(self).positioned(k),
            final(self).same_domains(old(self)),
            Pri::erases() ==> final(self).priority_map() == Map::<usize, P>::empty(),
            !Pri::erases() ==> final(self).same_priorities(old(self)),
    {
        self.clear_indices();
        let ghost mid = *self;
        self.priorities.clear();
        proof {
            assert forall|k: usize| #[trigger] self.pri_in_dom(k) == old(self).pri_in_dom(k) by {
                assert(self.priorities.key_in_dom(k) == mid.priorities.key_in_dom(k));
                assert(mid.pri_in_dom(k) == old(self).pri_in_dom(k));
            };
            assert forall|k: usize| #[trigger] self.pos_in_dom(k) == old(self).pos_in_dom(k) by {
                assert(mid.pos_in_dom(k) == old(self).pos_in_dom(k));
            };
            if !Pri::erases() {
                assert(self.priorities == mid.priorities);
                assert forall|k: usize| #[trigger] self.priority_readable(k) == old(
                    self,
                ).priority_readable(k) by {
                    assert(mid.priority_readable(k) == old(self).priority_readable(k));
                };
                assert forall|k: usize|
                    old(self).priority_readable(k) implies #[trigger] self.priority_at(k) == old(
                    self,
                ).priority_at(k) by {
                    assert(mid.priority_readable(k));
                    assert(mid.priority_at(k) == old(self).priority_at(k));
                };
            }
        }
    }

    /// Establishes the pre-repair order facts after `index`'s priority rose
    /// to `value`: order holds everywhere but below `index`'s slot, and the
    /// bridge across that slot holds.
    proof fn lemma_update_raised(&self, pre: &Self, index: usize, value: P, position: int)
        requires
            pre.consistent(),
            pre.heap_ordered(),
            pre.positioned(index),
            pre.position_map()[index] == position,
            pre.priority_at(index).le_spec(&value),
            self.consistent(),
            self.heap_seq() == pre.heap_seq(),
            self.position_map() == pre.position_map(),
            forall|k: usize|
                k != index && pre.priority_readable(k) ==> #[trigger] self.priority_at(k) == pre
                    .priority_at(k),
            self.priority_at(index) == value,
        ensures
            self.ordered_except_below(position),
            self.bridged(position),
    {
        let len = pre.spec_len();
        assert(0 <= position < len);
        assert forall|i: int|
            1 <= i < len && Self::parent_of(i) != position implies #[trigger] self.ord_at(i) by {
            assert(pre.ord_at(i));
            assert(pre.slot_ok(i));
            assert(pre.slot_ok(Self::parent_of(i)));
            pre.lemma_distinct_slots(Self::parent_of(i), position);
            if i == position {
                assert(pre.heap_seq()[i] == index);
                P::lemma_transitive(
                    &pre.slot_prio(Self::parent_of(i)),
                    &pre.slot_prio(i),
                    &value,
                );
            } else {
                pre.lemma_distinct_slots(i, position);
            }
        };
        if position > 0 {
            assert forall|c: int|
                1 <= c < len && Self::parent_of(c) == position implies #[trigger] self.le_slots(
                Self::parent_of(position),
                c,
            ) by {
                assert(pre.ord_at(c));
                assert(pre.ord_at(position));
                P::lemma_transitive(
                    &pre.slot_prio(Self::parent_of(position)),
                    &pre.slot_prio(position),
                    &pre.slot_prio(c),
                );
                assert(pre.slot_ok(c));
                assert(pre.slot_ok(Self::parent_of(position)));
                pre.lemma_distinct_slots(c, position);
                pre.lemma_distinct_slots(Self::parent_of(position), position);
            };
        }
    }

    /// Establishes the pre-repair order facts after `index`'s priority sank
    /// to `value`: order holds everywhere but on the edge into `index`'s
    /// slot, and the bridge across that slot holds.
    proof fn lemma_update_lowered(&self, pre: &Self, index: usize, value: P, position: int)
        requires
            pre.consistent(),
            pre.heap_ordered(),
            pre.positioned(index),
            pre.position_map()[index] == position,
            value.le_spec(&pre.priority_at(index)),
            self.consistent(),
            self.heap_seq() == pre.heap_seq(),
            self.position_map() == pre.position_map(),
            forall|k: usize|
                k != index && pre.priority_readable(k) ==> #[trigger] self.priority_at(k) == pre
                    .priority_at(k),
            self.priority_at(index) == value,
        ensures
            self.ordered_except(position),
            self.bridged(position),
    {
        let len = pre.spec_len();
        assert(0 <= position < len);
        assert forall|i: int| 1 <= i < len && i != position implies #[trigger] self.ord_at(i) by {
            assert(pre.ord_at(i));
            assert(pre.slot_ok(i));
            assert(pre.slot_ok(Self::parent_of(i)));
            pre.lemma_distinct_slots(i, position);
            if Self::parent_of(i) == position {
                assert(pre.heap_seq()[Self::parent_of(i)] == index);
                P::lemma_transitive(&value, &pre.slot_prio(position), &pre.slot_prio(i));
            } else {
                pre.lemma_distinct_slots(Self::parent_of(i), position);
            }
        };
        if position > 0 {
            assert forall|c: int|
                1 <= c < len && Self::parent_of(c) == position implies #[trigger] self.le_slots(
                Self::parent_of(position),
                c,
            ) by {
                assert(pre.ord_at(c));
                assert(pre.ord_at(position));
                P::lemma_transitive(
                    &pre.slot_prio(Self::parent_of(position)),
                    &pre.slot_prio(position),
                    &pre.slot_prio(c),
                );
                assert(pre.slot_ok(c));
                assert(pre.slot_ok(Self::parent_of(position)));
                pre.lemma_distinct_slots(c, position);
                pre.lemma_distinct_slots(Self::parent_of(position), position);
            };
        }
    }

    /// Proves the bijection facts shared by the guarded updates' middle
    /// state: installing a priority touches no slot or position entry.
    proof fn lemma_update_mid_consistent(&self, pre: &Self, index: usize)
        requires
            pre.consistent(),
            self.positions == pre.positions,
            self.heap_seq() == pre.heap_seq(),
            self.priorities.inv(),
            forall|k: usize| self.priorities.key_in_dom(k) == pre.priorities.key_in_dom(k),
            forall|k: usize|
                k != index ==> self.priorities.readable(k) == pre.priorities.readable(k),
            self.priorities.readable(index),
        ensures
            self.consistent(),
    {
        assert forall|i: int| 0 <= i < self.heap@.len() implies #[trigger] self.slot_ok(i) by {
            assert(pre.slot_ok(i));
        };
    }

    /// Installs `value` — which must sort at or after `index`'s current
    /// priority — and repairs heap order downward from `index`'s slot. A key
    /// not on the heap has only its priority updated, for a later restore.
    pub fn update_up(&mut self, index: usize, value: P)
        requires
            old(self).consistent(),
            old(self).key_in_dom(index),
            old(self).priority_readable(index),
            old(self).priority_at(index).le_spec(&value),
        ensures
            final(self).consistent(),
            final(self).same_domains(old(self)),
            final(self).same_key_set(old(self)),
            final(self).spec_len() == old(self).spec_len(),
            final(self).priority_map() == old(self).priority_map().insert(index, value),
            final(self).priority_readable(index) && final(self).priority_at(index) == value,
            forall|k: usize|
                k != index ==> final(self).priority_readable(k) == old(self).priority_readable(k),
            forall|k: usize|
                k != index && old(self).priority_readable(k) ==> final(self).priority_at(k) == old(
                    self,
                ).priority_at(k),
            old(self).heap_ordered() ==> final(self).heap_ordered(),
    {
        self.priorities.insert(index, value);
        proof {
            self.lemma_update_mid_consistent(old(self), index);
        }
        let ghost mid = *self;
        let pos_opt: Option<usize> = match self.positions.get(index) {
            Some(p) => Some(*p),
            None => None,
        };
        if let Some(position) = pos_opt {
            proof {
                self.positions.lemma_tracks_presence(index);
                assert(old(self).positioned(index));
                self.positions.lemma_stored_readable(index);
                assert(position == old(self).position_map()[index]);
                if old(self).heap_ordered() {
                    self.lemma_update_raised(old(self), index, value, position as int);
                }
            }
            self.down_heap(position);
        } else {
            proof {
                self.positions.lemma_tracks_presence(index);
                assert(!old(self).positioned(index));
                if old(self).heap_ordered() {
                    assert forall|i: int| 1 <= i < self.spec_len() implies #[trigger] self.ord_at(
                        i,
                    ) by {
                        assert(old(self).ord_at(i));
                        assert(old(self).slot_ok(i));
                        assert(old(self).slot_ok(Self::parent_of(i)));
                    };
                }
            }
        }
    }

    /// Installs `value` — which must sort at or before `index`'s current
    /// priority — and repairs heap order upward from `index`'s slot. A key
    /// not on the heap has only its priority updated, for a later restore.
    pub fn update_down(&mut self, index: usize, value: P)
        requires
            old(self).consistent(),
            old(self).key_in_dom(index),
            old(self).priority_readable(index),
            value.le_spec(&old(self).priority_at(index)),
        ensures
            final(self).consistent(),
            final(self).same_domains(old(self)),
            final(self).same_key_set(old(self)),
            final(self).spec_len() == old(self).spec_len(),
            final(self).priority_map() == old(self).priority_map().insert(index, value),
            final(self).priority_readable(index) && final(self).priority_at(index) == value,
            forall|k: usize|
                k != index ==> final(self).priority_readable(k) == old(self).priority_readable(k),
            forall|k: usize|
                k != index && old(self).priority_readable(k) ==> final(self).priority_at(k) == old(
                    self,
                ).priority_at(k),
            old(self).heap_ordered() ==> final(self).heap_ordered(),
    {
        self.priorities.insert(index, value);
        proof {
            self.lemma_update_mid_consistent(old(self), index);
        }
        let pos_opt: Option<usize> = match self.positions.get(index) {
            Some(p) => Some(*p),
            None => None,
        };
        if let Some(position) = pos_opt {
            proof {
                self.positions.lemma_tracks_presence(index);
                assert(old(self).positioned(index));
                self.positions.lemma_stored_readable(index);
                assert(position == old(self).position_map()[index]);
                if old(self).heap_ordered() {
                    self.lemma_update_lowered(old(self), index, value, position as int);
                }
            }
            self.up_heap(position);
        } else {
            proof {
                self.positions.lemma_tracks_presence(index);
                assert(!old(self).positioned(index));
                if old(self).heap_ordered() {
                    assert forall|i: int| 1 <= i < self.spec_len() implies #[trigger] self.ord_at(
                        i,
                    ) by {
                        assert(old(self).ord_at(i));
                        assert(old(self).slot_ok(i));
                        assert(old(self).slot_ok(Self::parent_of(i)));
                    };
                }
            }
        }
    }

    /// Installs `value` with no directional assumption: compares it against
    /// `index`'s current priority and repairs heap order in whichever
    /// direction is called for. A key not on the heap has only its priority
    /// updated, for a later restore.
    pub fn update_dyn(&mut self, index: usize, value: P)
        requires
            old(self).consistent(),
            old(self).key_in_dom(index),
            old(self).priority_readable(index),
        ensures
            final(self).consistent(),
            final(self).same_domains(old(self)),
            final(self).same_key_set(old(self)),
            final(self).spec_len() == old(self).spec_len(),
            final(self).priority_map() == old(self).priority_map().insert(index, value),
            final(self).priority_readable(index) && final(self).priority_at(index) == value,
            forall|k: usize|
                k != index ==> final(self).priority_readable(k) == old(self).priority_readable(k),
            forall|k: usize|
                k != index && old(self).priority_readable(k) ==> final(self).priority_at(k) == old(
                    self,
                ).priority_at(k),
            old(self).heap_ordered() ==> final(self).heap_ordered(),
    {
        let rose: bool = match self.priorities.get(index) {
            Some(current) => current.le(&value),
            None => {
                proof {
                    assert(false);
                }
                true
            },
        };
        proof {
            if !rose {
                P::lemma_total(&old(self).priority_at(index), &value);
            }
        }
        if rose {
            self.update_up(index, value);
        } else {
            self.update_down(index, value);
        }
    }

    /// Returns the priority readable for `index`, or `None` where the store
    /// reports none.
    pub fn get_priority(&self, index: usize) -> (r: Option<&P>)
        requires
            self.consistent(),
            self.key_in_dom(index),
        ensures
            (match r {
                Some(p) => self.priority_readable(index) && *p == self.priority_at(index),
                None => !self.priority_readable(index),
            }),
    {
        self.priorities.get(index)
    }
}

} // verus!
