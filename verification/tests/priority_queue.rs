// The queue under the hash-backed stores, driven as its callers drive it.
// Keys are small integers standing in for the names used informally in
// comments: a = 0, b = 1, and so on in order of first appearance.

use indexed_priority_queue::hash_map::IndexedHashMap;
use indexed_priority_queue::order::Reversed;
use indexed_priority_queue::HashMapIPQ;

fn new_pq() -> HashMapIPQ<Reversed<i32>> {
    HashMapIPQ::new(IndexedHashMap::new(), IndexedHashMap::new())
}

#[test]
fn init() {
    let pq = new_pq();
    println!("{:?}", pq);
}

#[test]
fn push_len() {
    let mut pq = new_pq();
    pq.push(0, Reversed(1)); // a
    pq.push(1, Reversed(2)); // b
    println!("{:?}", pq);
    assert_eq!(pq.len(), 2);
}

#[test]
fn push_pop() {
    let mut pq = new_pq();
    assert_eq!(pq.min(), None);
    pq.push(0, Reversed(1)); // a
    pq.push(1, Reversed(2)); // b
    pq.push(2, Reversed(7)); // f
    pq.push(3, Reversed(4)); // g
    pq.push(4, Reversed(3)); // h
    println!("{:?}", pq);
    assert_eq!(pq.pop(), Some(2)); // f
    println!("{:?}", pq);
    assert_eq!(pq.min(), Some(3)); // g
    assert_eq!(pq.pop(), Some(3)); // g
    assert_eq!(pq.len(), 3);
}

#[test]
fn push_update() {
    let mut pq = new_pq();
    pq.push(0, Reversed(9)); // a
    pq.push(1, Reversed(8)); // b
    pq.push(2, Reversed(7)); // c
    pq.push(3, Reversed(6)); // d
    pq.push(4, Reversed(5)); // e
    pq.push(5, Reversed(4)); // f
    pq.push(6, Reversed(10)); // g
    pq.push(7, Reversed(11)); // k

    // A push on a key already in the queue installs the priority without
    // re-sorting; raising a queued priority takes a guarded update.
    pq.update_dyn(3, Reversed(20));

    assert_eq!(pq.min(), Some(3)); // d
    assert_eq!(pq.pop(), Some(3)); // d
}

#[test]
fn change_priority() {
    let mut pq = new_pq();
    pq.push(0, Reversed(1)); // Processor
    pq.push(1, Reversed(2)); // Mainboard
    pq.push(2, Reversed(5)); // RAM
    pq.push(3, Reversed(4)); // GPU
    pq.push(4, Reversed(3)); // Disk
    pq.update_dyn(0, Reversed(10));
    assert_eq!(pq.min(), Some(0)); // Processor

    pq.update_dyn(2, Reversed(11));
    assert_eq!(pq.min(), Some(2)); // RAM
}

// Ironically this test is not reversed.
#[test]
fn reversed_order() {
    let mut pq: HashMapIPQ<i32> = HashMapIPQ::new(IndexedHashMap::new(), IndexedHashMap::new());
    pq.push(0, 1); // a
    pq.push(1, 2); // b
    assert_eq!(pq.pop(), Some(0)); // a
}

#[test]
fn remove_empty() {
    let mut pq = new_pq();

    pq.remove_index(1); // b
    assert!(pq.is_empty());
}

#[test]
fn remove_one() {
    let mut pq = new_pq();

    pq.push(1, Reversed(21)); // b

    assert_eq!(pq.remove(1), Reversed(21));
    assert!(pq.is_empty());
}
