// Scenario and law checks: heap order over mixed operation sequences, the
// contains/position bijection as observed through the interface, pop order,
// restore idempotence, the remove/restore round trip, a shortest-path run, a
// max-first score-maintenance run, and the array-backed capacity round trip.

use indexed_priority_queue::array_map::{ArrayPositionMap, ArrayPriorityMap};
use indexed_priority_queue::default_map::DefaultMap;
use indexed_priority_queue::hash_map::IndexedHashMap;
use indexed_priority_queue::order::Reversed;
use indexed_priority_queue::{ArrayMapIPQ, DefaultMapIPQ, HashMapIPQ};

fn new_pq() -> HashMapIPQ<i64> {
    HashMapIPQ::new(IndexedHashMap::new(), IndexedHashMap::new())
}

/// Pops everything and checks that priorities come out in non-decreasing
/// order, returning the keys in pop order.
fn drain_sorted(pq: &mut HashMapIPQ<i64>) -> Vec<usize> {
    let mut keys = Vec::new();
    let mut last: Option<i64> = None;
    while let Some(p) = pq.min_priority().copied() {
        if let Some(prev) = last {
            assert!(prev <= p, "pop order violated: {} before {}", prev, p);
        }
        last = Some(p);
        keys.push(pq.pop().unwrap());
    }
    assert!(pq.is_empty());
    keys
}

#[test]
fn pop_order_heap_sort() {
    let mut pq = new_pq();
    let prios: [i64; 9] = [41, 7, 23, 7, 0, -5, 100, 63, 12];
    for (k, p) in prios.iter().enumerate() {
        pq.push(k, *p);
    }
    let keys = drain_sorted(&mut pq);
    assert_eq!(keys, vec![5, 4, 1, 3, 8, 2, 0, 7, 6]);
}

#[test]
fn mixed_operations_keep_order() {
    // A scripted pseudo-random workout: after every step the queue is
    // cross-checked against a plain model, and at the end the pop order is
    // checked against the model's sorted contents.
    let mut pq = new_pq();
    let mut model: Vec<Option<i64>> = vec![None; 16]; // stored priority per key
    let mut queued: Vec<bool> = vec![false; 16];
    let mut state: u64 = 0x2545F4914F6CDD1D;
    for _step in 0..400 {
        state = state.wrapping_mul(6364136223846793005).wrapping_add(1442695040888963407);
        let key = ((state >> 33) % 16) as usize;
        let prio = ((state >> 13) % 1000) as i64 - 500;
        match (state >> 29) % 6 {
            0 | 1 => {
                pq.push(key, prio);
                model[key] = Some(prio);
                queued[key] = true;
            }
            2 => {
                if let Some(k) = pq.pop() {
                    queued[k] = false;
                }
            }
            3 => {
                if pq.contains(key) {
                    pq.remove_index(key);
                    queued[key] = false;
                }
            }
            4 => {
                if model[key].is_some() {
                    pq.restore_index(key);
                    queued[key] = true;
                }
            }
            _ => {
                if model[key].is_some() {
                    pq.update_dyn(key, prio);
                    model[key] = Some(prio);
                }
            }
        }
        assert_eq!(pq.len(), queued.iter().filter(|q| **q).count());
        for k in 0..16 {
            assert_eq!(pq.contains(k), queued[k]);
            if queued[k] {
                assert_eq!(pq.get_priority(k), model[k].as_ref());
            }
        }
    }
    // Heap order holds at the end of any such sequence: popping yields the
    // queued keys' priorities in non-decreasing order.
    let mut expected: Vec<i64> =
        (0..16).filter(|k| queued[*k]).map(|k| model[k].unwrap()).collect();
    expected.sort();
    let mut popped: Vec<i64> = Vec::new();
    let keys = drain_sorted(&mut pq);
    for k in keys {
        popped.push(model[k].unwrap());
    }
    assert_eq!(popped, expected);
}

#[test]
fn restore_is_idempotent() {
    let mut pq = new_pq();
    pq.push(3, 30);
    pq.push(7, 10);
    pq.push(5, 20);
    pq.restore_index(7); // already positioned: changes nothing
    assert_eq!(pq.len(), 3);
    assert_eq!(pq.min(), Some(7));
    assert_eq!(pq.get_priority(7), Some(&10));
    assert_eq!(pq.pop(), Some(7));
    assert_eq!(pq.pop(), Some(5));
    assert_eq!(pq.pop(), Some(3));
}

#[test]
fn remove_restore_round_trip() {
    let mut pq = new_pq();
    for (k, p) in [(1usize, 50i64), (2, 40), (3, 60), (4, 30)] {
        pq.push(k, p);
    }
    pq.remove_index(3);
    assert!(!pq.contains(3));
    // the priority entry survives a remove_index...
    assert_eq!(pq.get_priority(3), Some(&60));
    pq.restore_index(3);
    // ...and the key comes back with it, at a valid position.
    assert!(pq.contains(3));
    assert_eq!(pq.get_priority(3), Some(&60));
    assert_eq!(pq.len(), 4);
    let keys = drain_sorted(&mut pq);
    assert_eq!(keys, vec![4, 2, 1, 3]);
}

#[test]
fn shortest_path_relaxation() {
    // Dijkstra over the directed edges 0-1:2, 0-2:6, 1-3:5, 2-3:8, 3-4:10,
    // 3-5:15, 4-6:2, 5-6:6, starting from node 0. The queue's default-valued
    // priority store reads an unvisited node as "infinitely far".
    let edges: [(usize, usize, i64); 8] = [
        (0, 1, 2),
        (0, 2, 6),
        (1, 3, 5),
        (2, 3, 8),
        (3, 4, 10),
        (3, 5, 15),
        (4, 6, 2),
        (5, 6, 6),
    ];
    let far = i64::MAX / 2;
    let mut pq: DefaultMapIPQ<i64> =
        DefaultMapIPQ::new(DefaultMap::new(far), IndexedHashMap::new());
    let mut dist: Vec<i64> = vec![far; 7];
    let mut done: Vec<bool> = vec![false; 7];
    pq.push(0, 0);
    while let Some(u) = pq.min() {
        let du = *pq.get_priority(u).unwrap();
        pq.pop();
        done[u] = true;
        dist[u] = du;
        for (a, b, w) in edges {
            if a == u && !done[b] {
                let nd = du + w;
                if nd < *pq.get_priority(b).unwrap() {
                    if pq.contains(b) {
                        pq.update_down(b, nd);
                    } else {
                        pq.push(b, nd);
                    }
                }
            }
        }
    }
    assert_eq!(dist[6], 19); // along 0-1-3-4-6
    assert_eq!(dist[3], 7);
    assert_eq!(dist[5], 22);
}

#[test]
fn branching_scores_max_first() {
    // Max-first score maintenance via the reversed ordering: keys keep their
    // scores across removal and return in highest-score-first order.
    let mut pq: HashMapIPQ<Reversed<i64>> =
        HashMapIPQ::new(IndexedHashMap::new(), IndexedHashMap::new());
    for k in 1..=4 {
        pq.push(k, Reversed(0));
    }
    pq.remove_index(1);
    pq.remove_index(2);
    pq.remove_index(3);

    let s3 = pq.get_priority(3).unwrap().0;
    pq.update_dyn(3, Reversed(s3 + 1));
    pq.restore_index(3);
    assert_eq!(pq.pop(), Some(3));

    pq.remove_index(4);
    let s4 = pq.get_priority(4).unwrap().0;
    pq.update_dyn(4, Reversed(s4 + 1));
    let s3 = pq.get_priority(3).unwrap().0;
    pq.update_dyn(3, Reversed(s3 + 1));
    pq.restore_index(4);
    pq.restore_index(3);
    assert_eq!(pq.pop(), Some(3));
    assert_eq!(pq.pop(), Some(4));
    assert_eq!(pq.pop(), None);
}

#[test]
fn array_store_capacity_round_trip() {
    // An array-backed queue over capacity 4 with offset 1 serves exactly the
    // keys 1 through 4.
    let mut pq: ArrayMapIPQ<i64> =
        ArrayMapIPQ::new(ArrayPriorityMap::new(vec![0; 4], 1), ArrayPositionMap::new(4, 1));
    pq.push(1, 40);
    pq.push(2, 10);
    pq.push(3, 30);
    pq.push(4, 20);
    for k in 1..=4 {
        assert!(pq.contains(k));
    }
    assert_eq!(pq.get_priority(3), Some(&30));
    assert_eq!(pq.pop(), Some(2));
    assert_eq!(pq.pop(), Some(4));
    // the array store retains a removed key's priority for reinsertion
    pq.remove_index(3);
    assert_eq!(pq.get_priority(3), Some(&30));
    pq.restore_index(3);
    assert_eq!(pq.pop(), Some(3));
    assert_eq!(pq.pop(), Some(1));
    assert_eq!(pq.pop(), None);
}

#[test]
fn default_store_reads_default_for_untouched_keys() {
    let mut pq: DefaultMapIPQ<i64> = DefaultMapIPQ::new(DefaultMap::new(99), IndexedHashMap::new());
    assert_eq!(pq.get_priority(42), Some(&99));
    assert!(!pq.contains(42));
    // an untouched key can even be queued at the default priority
    pq.restore_index(42);
    assert!(pq.contains(42));
    pq.push(7, 5);
    assert_eq!(pq.pop(), Some(7));
    assert_eq!(pq.pop(), Some(42));
    assert_eq!(pq.pop(), None);
}

#[test]
fn update_directions() {
    let mut pq = new_pq();
    pq.push(0, 10);
    pq.push(1, 20);
    pq.push(2, 30);
    pq.update_up(0, 40); // raise the root
    assert_eq!(pq.min(), Some(1));
    pq.update_down(2, 5); // sink a leaf's priority
    assert_eq!(pq.min(), Some(2));
    // an update of a key off the heap only changes its stored priority
    pq.remove_index(1);
    pq.update_up(1, 50);
    assert_eq!(pq.len(), 2);
    assert_eq!(pq.get_priority(1), Some(&50));
    pq.restore_index(1);
    assert_eq!(pq.pop(), Some(2));
    assert_eq!(pq.pop(), Some(0));
    assert_eq!(pq.pop(), Some(1));
}

#[test]
fn clear_and_clear_indices() {
    let mut pq = new_pq();
    pq.push(0, 3);
    pq.push(1, 1);
    pq.clear_indices();
    assert!(pq.is_empty());
    assert!(!pq.contains(0));
    // priorities survive clear_indices...
    assert_eq!(pq.get_priority(1), Some(&1));
    pq.restore_index(1);
    assert_eq!(pq.pop(), Some(1));
    // ...but not a full clear on an erasing store
    pq.push(0, 3);
    pq.clear();
    assert!(pq.is_empty());
    assert_eq!(pq.get_priority(0), None);
    assert_eq!(pq.min_priority(), None);
}
