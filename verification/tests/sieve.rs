use sieve_cache::arena::Arena;
use sieve_cache::arena::CacheError;
use sieve_cache::arena::Node;
use sieve_cache::cache::SieveCache;

#[test]
fn basic_test() {
    let mut cache = SieveCache::new(3).unwrap();
    cache.insert(1, 1);
    cache.insert(2, 2);
    cache.insert(3, 3);
    cache.insert(4, 4);
    println!("{:?}", cache.contents());
}

#[test]
fn zero_capacity_rejected() {
    let c: Result<SieveCache<u64>, CacheError> = SieveCache::new(0);
    assert!(matches!(c, Err(CacheError::InvalidCapacity)));
    assert!(SieveCache::<u64>::new(1).is_ok());
}

#[test]
fn capacity_bound_holds_throughout() {
    let mut cache = SieveCache::new(2).unwrap();
    assert!(cache.len() <= cache.capacity());
    for k in 0..10u64 {
        cache.insert(k, k * 100);
        assert!(cache.len() <= cache.capacity());
        cache.get(k);
        assert!(cache.len() <= cache.capacity());
    }
    cache.remove(9);
    assert!(cache.len() <= cache.capacity());
}

#[test]
fn presence_after_insert() {
    let mut cache = SieveCache::new(4).unwrap();
    cache.insert(7, 700);
    assert_eq!(cache.get(7), Some(700));
}

#[test]
fn no_eviction_below_capacity() {
    let mut cache = SieveCache::new(3).unwrap();
    cache.insert(1, 10);
    cache.insert(2, 20);
    assert_eq!(cache.len(), 2);
    assert_eq!(cache.get(1), Some(10));
    assert_eq!(cache.get(2), Some(20));
    cache.insert(3, 30);
    assert_eq!(cache.len(), 3);
    assert_eq!(cache.get(1), Some(10));
    assert_eq!(cache.get(2), Some(20));
    assert_eq!(cache.get(3), Some(30));
}

#[test]
fn one_eviction_per_insert_when_full() {
    let mut cache = SieveCache::new(3).unwrap();
    cache.insert(1, 1);
    cache.insert(2, 2);
    cache.insert(3, 3);
    assert_eq!(cache.len(), 3);
    cache.insert(4, 4);
    assert_eq!(cache.len(), 3);
    let survivors = [1u64, 2, 3]
        .iter()
        .filter(|&&k| cache.get(k).is_some())
        .count();
    assert_eq!(survivors, 2);
}

#[test]
fn sieve_walk_evicts_tail_when_none_visited() {
    // Capacity 3; insert 1, 2, 3 (no eviction), then 4: the tail entry —
    // key 1, the oldest, none marked visited — is evicted.
    let mut cache = SieveCache::new(3).unwrap();
    cache.insert(1, 1);
    cache.insert(2, 2);
    cache.insert(3, 3);
    assert_eq!(cache.len(), 3);
    assert_eq!(
        cache.contents(),
        vec![(3, 3, false), (2, 2, false), (1, 1, false)]
    );
    cache.insert(4, 4);
    assert_eq!(cache.len(), 3);
    assert_eq!(
        cache.contents(),
        vec![(4, 4, false), (3, 3, false), (2, 2, false)]
    );
    assert_eq!(cache.get(1), None);
    assert_eq!(cache.get(4), Some(4));
}

#[test]
fn marked_entry_survives_eviction() {
    // Capacity 2; insert 1, insert 2; get(1) marks 1 visited; insert 3:
    // the scan clears 1's visited bit, passes it over, and evicts the
    // unvisited 2.  Final contents are {1, 3}.
    let mut cache = SieveCache::new(2).unwrap();
    cache.insert(1, 1);
    cache.insert(2, 2);
    assert_eq!(cache.get(1), Some(1));
    assert_eq!(cache.contents(), vec![(2, 2, false), (1, 1, true)]);
    cache.insert(3, 3);
    assert_eq!(cache.contents(), vec![(3, 3, false), (1, 1, false)]);
    assert_eq!(cache.get(2), None);
    assert_eq!(cache.get(1), Some(1));
    assert_eq!(cache.get(3), Some(3));
}

#[test]
fn full_sweep_evicts_oldest() {
    // Capacity 3; insert 3 fresh keys, mark every one visited, then insert
    // one more: the scan sweeps the whole list once, clears every bit,
    // wraps, and evicts the oldest of the original keys.
    let mut cache = SieveCache::new(3).unwrap();
    cache.insert(1, 1);
    cache.insert(2, 2);
    cache.insert(3, 3);
    assert_eq!(cache.get(1), Some(1));
    assert_eq!(cache.get(2), Some(2));
    assert_eq!(cache.get(3), Some(3));
    cache.insert(4, 4);
    assert_eq!(cache.len(), 3);
    assert_eq!(
        cache.contents(),
        vec![(4, 4, false), (3, 3, false), (2, 2, false)]
    );
    assert_eq!(cache.get(1), None);
}

#[test]
fn sticky_hand_continues_from_last_victim() {
    // After one eviction the hand rests beside the old victim, so the next
    // eviction resumes there instead of rescanning from the tail.
    let mut cache = SieveCache::new(3).unwrap();
    cache.insert(1, 1);
    cache.insert(2, 2);
    cache.insert(3, 3);
    cache.insert(4, 4); // evicts 1 (tail, unvisited); hand rests on 2
    cache.insert(5, 5); // resumes at 2, evicts it
    assert_eq!(cache.get(1), None);
    assert_eq!(cache.get(2), None);
    assert_eq!(cache.get(3), Some(3));
    assert_eq!(cache.get(4), Some(4));
    assert_eq!(cache.get(5), Some(5));
}

#[test]
fn update_keeps_length_position_and_visited() {
    let mut cache = SieveCache::new(2).unwrap();
    cache.insert(1, 10);
    cache.insert(2, 20);
    cache.insert(1, 11);
    assert_eq!(cache.len(), 2);
    assert_eq!(cache.contents(), vec![(2, 20, false), (1, 11, false)]);
    assert_eq!(cache.get(1), Some(11));
    assert_eq!(cache.get(2), Some(20));
}

#[test]
fn get_is_idempotent() {
    let mut cache = SieveCache::new(2).unwrap();
    cache.insert(5, 50);
    let first = cache.get(5);
    let second = cache.get(5);
    let third = cache.get(5);
    assert_eq!(first, Some(50));
    assert_eq!(second, first);
    assert_eq!(third, first);
    assert_eq!(cache.len(), 1);
    let missing_once = cache.get(6);
    let missing_twice = cache.get(6);
    assert_eq!(missing_once, None);
    assert_eq!(missing_twice, None);
    assert_eq!(cache.len(), 1);
}

#[test]
fn remove_deletes_exactly_one_entry() {
    let mut cache = SieveCache::new(3).unwrap();
    cache.insert(1, 10);
    cache.insert(2, 20);
    cache.remove(1);
    assert_eq!(cache.get(1), None);
    assert_eq!(cache.len(), 1);
    assert_eq!(cache.get(2), Some(20));
    cache.remove(42);
    assert_eq!(cache.len(), 1);
    assert_eq!(cache.get(2), Some(20));
}

#[test]
fn remove_of_hand_entry_keeps_cache_sound() {
    let mut cache = SieveCache::new(3).unwrap();
    cache.insert(1, 1);
    cache.insert(2, 2);
    cache.insert(3, 3);
    cache.insert(4, 4); // evicts 1; hand rests on 2
    cache.remove(2); // removes the entry under the hand
    assert_eq!(cache.len(), 2);
    cache.insert(5, 5);
    cache.insert(6, 6); // full again: eviction must still work
    assert_eq!(cache.len(), 3);
    assert_eq!(cache.get(6), Some(6));
}

#[test]
fn node_starts_unlinked_and_unvisited() {
    let n = Node::new(9, 900u64);
    assert_eq!(n.key, 9);
    assert_eq!(n.value, 900);
    assert!(!n.visited);
    assert!(n.prev.is_none());
    assert!(n.next.is_none());
}

#[test]
fn arena_checks_handle_liveness() {
    let mut arena: Arena<u64> = Arena::new();
    let h = arena.allocate(Node::new(1, 100));
    let got = arena.get(h).unwrap();
    assert_eq!(got.key, 1);
    assert_eq!(got.value, 100);
    assert!(arena.free(h).is_ok());
    assert!(matches!(arena.get(h), Err(CacheError::InvalidHandle)));
    assert!(matches!(
        arena.set(h, Node::new(2, 200)),
        Err(CacheError::InvalidHandle)
    ));
    // A freed slot is recycled for the next allocation and is live again.
    let h2 = arena.allocate(Node::new(3, 300));
    assert_eq!(h2, h);
    assert_eq!(arena.get(h2).unwrap().key, 3);
}

#[test]
fn capacity_one_cache_cycles() {
    let mut cache = SieveCache::new(1).unwrap();
    assert_eq!(cache.get(1), None);
    cache.insert(1, 10);
    assert_eq!(cache.get(1), Some(10)); // marks 1 visited
    cache.insert(2, 20); // the scan clears 1's bit, wraps onto it, evicts it
    assert_eq!(cache.len(), 1);
    assert_eq!(cache.get(1), None);
    assert_eq!(cache.get(2), Some(20));
    cache.remove(2);
    assert_eq!(cache.len(), 0);
    assert!(cache.contents().is_empty());
}

#[test]
fn values_can_be_any_copy_type() {
    let mut cache: SieveCache<(u32, bool)> = SieveCache::new(2).unwrap();
    cache.insert(1, (7, true));
    assert_eq!(cache.get(1), Some((7, true)));
}
