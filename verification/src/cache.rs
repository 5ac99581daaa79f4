//! The SIEVE cache: a fixed-capacity key-value store whose eviction scan
//! walks the insertion-order list from a persistent hand toward the head,
//! clearing visited bits, and removes the first unvisited entry it meets.
//!
//! The cache composes the node arena (entry storage behind stable handles),
//! an ordered doubly linked list of handles (head = newest insertion,
//! tail = oldest), and a hash index from key to handle.
//!
//! Its abstract state is `entries()`: the sequence of
//! `(key, value, visited)` triples in list order, together with `hand_pos()`,
//! the hand's position in that sequence.  The derived map view `self@` maps
//! each cached key to its value.

use std::collections::HashMap;
use vstd::prelude::*;

use crate::arena::Arena;
use crate::arena::CacheError;
use crate::arena::Node;

verus! {

broadcast use vstd::std_specs::hash::group_hash_axioms;

/// Some entry of `s` carries the key `k`.
pub open spec fn has_key<T>(s: Seq<(u64, T, bool)>, k: u64) -> bool {
    exists|j: int| 0 <= j < s.len() && (#[trigger] s[j]).0 == k
}

/// The position of the entry carrying `k`; meaningful when `has_key(s, k)`
/// and the keys of `s` are distinct.
pub open spec fn key_pos<T>(s: Seq<(u64, T, bool)>, k: u64) -> int {
    choose|j: int| 0 <= j < s.len() && (#[trigger] s[j]).0 == k
}

/// No two entries of `s` carry the same key.
pub open spec fn unique_keys<T>(s: Seq<(u64, T, bool)>) -> bool {
    forall|i: int, j: int|
        0 <= i < s.len() && 0 <= j < s.len() && i != j ==> (#[trigger] s[i]).0 != (
        #[trigger] s[j]).0
}

/// The key-to-value map that a sequence of entries denotes.
pub open spec fn map_of<T>(s: Seq<(u64, T, bool)>) -> Map<u64, T> {
    Map::new(|k: u64| has_key(s, k), |k: u64| s[key_pos(s, k)].1)
}

/// How many entries of `s` have their visited bit set.
pub open spec fn count_visited<T>(s: Seq<(u64, T, bool)>) -> nat
    decreases s.len(),
{
    if s.len() == 0 {
        0
    } else {
        count_visited(s.drop_last()) + if s.last().2 {
            1nat
        } else {
            0nat
        }
    }
}

/// `s` with the visited bit at position `p` cleared.
pub open spec fn clear_at<T>(s: Seq<(u64, T, bool)>, p: int) -> Seq<(u64, T, bool)> {
    s.update(p, (s[p].0, s[p].1, false))
}

/// Where the eviction scan starts: at the hand, unless the hand is unset or
/// rests on the head (position 0), in which case it restarts from the tail.
pub open spec fn scan_start<T>(s: Seq<(u64, T, bool)>, hand: Option<int>) -> int {
    match hand {
        Some(p) => if p == 0 {
            s.len() - 1
        } else {
            p
        },
        None => s.len() - 1,
    }
}

/// The position the scan moves to after passing over `p`: one step toward
/// the head, wrapping to the tail from the head.
pub open spec fn scan_next<T>(s: Seq<(u64, T, bool)>, p: int) -> int {
    if p == 0 {
        s.len() - 1
    } else {
        p - 1
    }
}

/// The SIEVE eviction scan, started at position `p`: entries passed over
/// have their visited bit cleared, and the first unvisited entry met is the
/// victim.  Returns the entry sequence after the clearing together with the
/// victim's position.
pub open spec fn scan<T>(s: Seq<(u64, T, bool)>, p: int) -> (Seq<(u64, T, bool)>, int)
    decreases count_visited(s),
    when 0 <= p < s.len()
    via scan_decreases::<T>
{
    if !s[p].2 {
        (s, p)
    } else {
        scan(clear_at(s, p), scan_next(s, p))
    }
}

#[via_fn]
proof fn scan_decreases<T>(s: Seq<(u64, T, bool)>, p: int) {
    if 0 <= p < s.len() && s[p].2 {
        lemma_count_visited_clear(s, p);
    }
}

/// How many entries the scan started at `p` passes over, victim included.
pub open spec fn scan_steps<T>(s: Seq<(u64, T, bool)>, p: int) -> nat
    decreases count_visited(s),
    when 0 <= p < s.len()
    via scan_steps_decreases::<T>
{
    if !s[p].2 {
        1
    } else {
        1 + scan_steps(clear_at(s, p), scan_next(s, p))
    }
}

#[via_fn]
proof fn scan_steps_decreases<T>(s: Seq<(u64, T, bool)>, p: int) {
    if 0 <= p < s.len() && s[p].2 {
        lemma_count_visited_clear(s, p);
    }
}

/// A sequence has no more visited entries than entries.
proof fn lemma_count_visited_le_len<T>(s: Seq<(u64, T, bool)>)
    ensures
        count_visited(s) <= s.len(),
    decreases s.len(),
{
    if s.len() > 0 {
        lemma_count_visited_le_len(s.drop_last());
    }
}

/// Clearing a set visited bit lowers the visited count by exactly one.
proof fn lemma_count_visited_clear<T>(s: Seq<(u64, T, bool)>, p: int)
    requires
        0 <= p < s.len(),
        s[p].2,
    ensures
        count_visited(clear_at(s, p)) == count_visited(s) - 1,
    decreases s.len(),
{
    let s2 = clear_at(s, p);
    if p == s.len() - 1 {
        assert(s2.drop_last() =~= s.drop_last());
    } else {
        assert(s2.last() == s.last());
        assert(s2.drop_last() =~= clear_at(s.drop_last(), p));
        lemma_count_visited_clear(s.drop_last(), p);
    }
}

/// The scan never changes a key or a value, only clears visited bits, and
/// its victim is a real, unvisited position.
proof fn lemma_scan_props<T>(s: Seq<(u64, T, bool)>, p: int)
    requires
        0 <= p < s.len(),
    ensures
        scan(s, p).0.len() == s.len(),
        forall|j: int|
            0 <= j < s.len() ==> (#[trigger] scan(s, p).0[j]).0 == s[j].0 && scan(s, p).0[j].1
                == s[j].1,
        forall|j: int| 0 <= j < s.len() && (#[trigger] scan(s, p).0[j]).2 ==> s[j].2,
        0 <= scan(s, p).1 < s.len(),
        !scan(s, p).0[scan(s, p).1].2,
    decreases count_visited(s),
{
    if !s[p].2 {
    } else {
        lemma_count_visited_clear(s, p);
        lemma_scan_props(clear_at(s, p), scan_next(s, p));
    }
}

/// Sticky-hand amortization: a single scan passes over at most one entry
/// more than there are visited entries, hence at most `len + 1`.
pub proof fn lemma_scan_touch_bound<T>(s: Seq<(u64, T, bool)>, p: int)
    requires
        0 <= p < s.len(),
    ensures
        scan_steps(s, p) <= count_visited(s) + 1,
        count_visited(s) <= s.len(),
    decreases count_visited(s),
{
    lemma_count_visited_le_len(s);
    if s[p].2 {
        lemma_count_visited_clear(s, p);
        lemma_scan_touch_bound(clear_at(s, p), scan_next(s, p));
    }
}

/// A scan over entries that are visited at exactly the positions up to `p`
/// sweeps down to the head, wraps, and evicts the tail, clearing every bit
/// on the way and touching `p + 2` entries.
proof fn lemma_sweep<T>(s: Seq<(u64, T, bool)>, p: int)
    requires
        0 <= p < s.len(),
        forall|j: int| 0 <= j < s.len() ==> ((#[trigger] s[j]).2 <==> j <= p),
    ensures
        scan(s, p).1 == s.len() - 1,
        forall|j: int| 0 <= j < s.len() ==> !(#[trigger] scan(s, p).0[j]).2,
        scan_steps(s, p) == p + 2,
    decreases p,
{
    let s2 = clear_at(s, p);
    assert(s[p].2);
    if p == 0 {
        assert(forall|j: int| 0 <= j < s2.len() ==> !(#[trigger] s2[j]).2);
        assert(!s2[s.len() - 1].2);
        assert(scan(s, p) == scan(s2, s.len() - 1));
        assert(scan_steps(s2, s.len() - 1) == 1);
        assert(scan_steps(s, p) == 1 + scan_steps(s2, s.len() - 1));
    } else {
        assert(forall|j: int| 0 <= j < s2.len() ==> ((#[trigger] s2[j]).2 <==> j <= p - 1));
        lemma_sweep(s2, p - 1);
    }
}

/// The workload behind the sticky-hand property: when every entry is
/// visited, eviction started from the tail clears every bit, wraps, and
/// evicts the tail — the oldest entry — after touching `len + 1` entries.
pub proof fn lemma_full_sweep<T>(s: Seq<(u64, T, bool)>)
    requires
        s.len() >= 1,
        forall|j: int| 0 <= j < s.len() ==> (#[trigger] s[j]).2,
    ensures
        scan(s, s.len() - 1).1 == s.len() - 1,
        forall|j: int| 0 <= j < s.len() ==> !(#[trigger] scan(s, s.len() - 1).0[j]).2,
        scan_steps(s, s.len() - 1) == s.len() + 1,
{
    lemma_sweep(s, s.len() - 1);
}

/// The SIEVE cache over `u64` keys and values of any copyable type.
pub struct SieveCache<T> {
    cap: usize,
    size: usize,
    arena: Arena<T>,
    index: HashMap<u64, usize>,
    head: Option<usize>,
    tail: Option<usize>,
    hand: Option<usize>,
    ord: Ghost<Seq<usize>>,
}

impl<T> View for SieveCache<T> {
    type V = Map<u64, T>;

    /// The cache as a map from each cached key to its value.
    open spec fn view(&self) -> Map<u64, T> {
        map_of(self.entries())
    }
}

impl<T> SieveCache<T> {
    pub closed spec fn spec_capacity(&self) -> int {
        self.cap as int
    }

    pub closed spec fn spec_len(&self) -> int {
        self.ord@.len() as int
    }

    /// The node at position `j` of the list (0 = head, last = tail).
    closed spec fn node_at(&self, j: int) -> Node<T> {
        self.arena.node(self.ord@[j])
    }

    /// The abstract state: `(key, value, visited)` in list order,
    /// position 0 the head (newest insertion), the last position the tail
    /// (oldest).
    pub closed spec fn entries(&self) -> Seq<(u64, T, bool)> {
        Seq::new(
            self.ord@.len(),
            |j: int| (self.node_at(j).key, self.node_at(j).value, self.node_at(j).visited),
        )
    }

    /// The hand's position in `entries()`, if the hand is set.
    pub closed spec fn hand_pos(&self) -> Option<int> {
        match self.hand {
            Some(h) => Some(self.ord@.index_of(h)),
            None => None,
        }
    }

    /// The handles in `ord` name occupied arena slots, without repetition,
    /// and the prev/next links thread them in exactly that order, with
    /// `head` the first handle and `tail` the last.
    closed spec fn list_wf(&self) -> bool {
        let ord = self.ord@;
        &&& ord.no_duplicates()
        &&& forall|j: int| 0 <= j < ord.len() ==> self.arena.valid(#[trigger] ord[j])
        &&& self.head == (if ord.len() == 0 {
            None
        } else {
            Some(ord[0])
        })
        &&& self.tail == (if ord.len() == 0 {
            None::<usize>
        } else {
            Some(ord[ord.len() - 1])
        })
        &&& forall|j: int|
            0 <= j < ord.len() ==> (#[trigger] self.node_at(j)).prev == (if j == 0 {
                None
            } else {
                Some(ord[j - 1])
            })
        &&& forall|j: int|
            0 <= j < ord.len() ==> (#[trigger] self.node_at(j)).next == (if j == ord.len() - 1 {
                None::<usize>
            } else {
                Some(ord[j + 1])
            })
    }

    /// The index maps exactly the keys of the listed entries, each to the
    /// handle of the entry carrying it.
    closed spec fn index_wf(&self) -> bool {
        &&& forall|j: int|
            0 <= j < self.ord@.len() ==> self.index@.contains_key(
                (#[trigger] self.node_at(j)).key,
            ) && self.index@[self.node_at(j).key] == self.ord@[j]
        &&& forall|k: u64| #[trigger]
            self.index@.contains_key(k) ==> self.ord@.contains(self.index@[k])
                && self.arena.valid(self.index@[k]) && self.arena.node(self.index@[k]).key == k
    }

    /// The full cache invariant: every constructor establishes it and every
    /// operation preserves it.
    pub closed spec fn wf(&self) -> bool {
        &&& self.arena.wf()
        &&& self.cap >= 1
        &&& self.size == self.ord@.len()
        &&& self.size <= self.cap
        &&& self.list_wf()
        &&& self.index_wf()
        &&& match self.hand {
            Some(h) => self.ord@.contains(h),
            None => true,
        }
    }
}

/// Capacity bound: a well-formed cache never holds more entries than its
/// capacity, whatever sequence of operations produced it.
pub proof fn lemma_capacity_bound<T>(c: &SieveCache<T>)
    requires
        c.wf(),
    ensures
        c.spec_len() <= c.spec_capacity(),
{
}

/// Sticky-hand amortization at the cache level: wherever the hand rests, a
/// single eviction scan of a non-empty, well-formed cache passes over at
/// most one entry more than there are visited entries — never more than
/// `capacity + 1`.
pub proof fn lemma_eviction_touch_bound<T>(c: &SieveCache<T>)
    requires
        c.wf(),
        c.spec_len() >= 1,
    ensures
        scan_steps(c.entries(), scan_start(c.entries(), c.hand_pos())) <= count_visited(
            c.entries(),
        ) + 1,
        scan_steps(c.entries(), scan_start(c.entries(), c.hand_pos())) <= c.spec_capacity() + 1,
{
    let s = c.entries();
    let p = scan_start(s, c.hand_pos());
    match c.hand {
        None => {},
        Some(hh) => {
            assert(c.ord@.contains(hh));
            let q = c.ord@.index_of(hh);
            assert(0 <= q < c.ord@.len() && c.ord@[q] == hh);
        },
    }
    assert(0 <= p < s.len());
    lemma_scan_touch_bound(s, p);
}

/// With distinct keys, `key_pos` names the one position that carries a key.
proof fn lemma_key_pos_unique<T>(s: Seq<(u64, T, bool)>, j: int)
    requires
        unique_keys(s),
        0 <= j < s.len(),
    ensures
        has_key(s, s[j].0),
        key_pos(s, s[j].0) == j,
{
    let k = s[j].0;
    assert(has_key(s, k));
    let p = key_pos(s, k);
    assert(0 <= p < s.len() && s[p].0 == k);
    if p != j {
        assert(s[p].0 != s[j].0);
    }
}

/// Two entry sequences with the same keys and values in the same positions
/// denote the same map, whatever their visited bits.
proof fn lemma_map_of_same_kv<T>(s1: Seq<(u64, T, bool)>, s2: Seq<(u64, T, bool)>)
    requires
        unique_keys(s1),
        s1.len() == s2.len(),
        forall|j: int|
            0 <= j < s1.len() ==> (#[trigger] s1[j]).0 == s2[j].0 && s1[j].1 == s2[j].1,
    ensures
        map_of(s1) == map_of(s2),
{
    assert forall|i: int, j: int|
        0 <= i < s2.len() && 0 <= j < s2.len() && i != j implies (#[trigger] s2[i]).0 != (
    #[trigger] s2[j]).0 by {
        assert(s1[i].0 != s1[j].0);
    }
    assert forall|k: u64| has_key(s1, k) <==> has_key(s2, k) by {
        if has_key(s1, k) {
            let j = key_pos(s1, k);
            assert(s2[j].0 == k);
        }
        if has_key(s2, k) {
            let j = choose|j: int| 0 <= j < s2.len() && (#[trigger] s2[j]).0 == k;
            assert(s1[j].0 == k);
        }
    }
    assert forall|k: u64| #[trigger]
        map_of(s1).dom().contains(k) implies map_of(s1)[k] == map_of(s2)[k] by {
        let j1 = key_pos(s1, k);
        assert(0 <= j1 < s1.len() && s1[j1].0 == k);
        lemma_key_pos_unique(s2, j1);
        assert(key_pos(s2, k) == j1);
    }
    assert(map_of(s1) =~= map_of(s2));
}

/// Removing an entry removes exactly its key from the denoted map.
proof fn lemma_map_of_remove<T>(s: Seq<(u64, T, bool)>, j: int)
    requires
        unique_keys(s),
        0 <= j < s.len(),
    ensures
        unique_keys(s.remove(j)),
        map_of(s.remove(j)) == map_of(s).remove(s[j].0),
{
    let s2 = s.remove(j);
    assert forall|a: int, b: int|
        0 <= a < s2.len() && 0 <= b < s2.len() && a != b implies (#[trigger] s2[a]).0 != (
    #[trigger] s2[b]).0 by {
        let a0: int = if a < j {
            a
        } else {
            a + 1
        };
        let b0: int = if b < j {
            b
        } else {
            b + 1
        };
        assert(s2[a] == s[a0] && s2[b] == s[b0]);
    }
    assert forall|k: u64| has_key(s2, k) implies has_key(s, k) && k != s[j].0 by {
        let i2 = key_pos(s2, k);
        let i0: int = if i2 < j {
            i2
        } else {
            i2 + 1
        };
        assert(s[i0] == s2[i2]);
        assert(s[i0].0 == k);
        if k == s[j].0 {
            assert(s[i0].0 == s[j].0 && i0 != j);
        }
    }
    assert forall|k: u64| has_key(s, k) && k != s[j].0 implies has_key(s2, k) by {
        let i0 = key_pos(s, k);
        assert(i0 != j);
        let i2: int = if i0 < j {
            i0
        } else {
            i0 - 1
        };
        assert(s2[i2] == s[i0]);
    }
    assert forall|k: u64| #[trigger]
        map_of(s2).dom().contains(k) implies map_of(s2)[k] == map_of(s).remove(s[j].0)[k] by {
        let i2 = key_pos(s2, k);
        let i0: int = if i2 < j {
            i2
        } else {
            i2 + 1
        };
        assert(s[i0] == s2[i2]);
        lemma_key_pos_unique(s, i0);
    }
    assert(map_of(s2) =~= map_of(s).remove(s[j].0));
}

/// Prepending an entry with a fresh key adds exactly that key to the
/// denoted map.
proof fn lemma_map_of_prepend<T>(s: Seq<(u64, T, bool)>, k: u64, v: T, b: bool)
    requires
        unique_keys(s),
        !has_key(s, k),
    ensures
        unique_keys(seq![(k, v, b)] + s),
        map_of(seq![(k, v, b)] + s) == map_of(s).insert(k, v),
{
    let s2 = seq![(k, v, b)] + s;
    assert(s2[0] == (k, v, b));
    assert(forall|j: int| 1 <= j < s2.len() ==> s2[j] == s[j - 1]);
    assert forall|a: int, b2: int|
        0 <= a < s2.len() && 0 <= b2 < s2.len() && a != b2 implies (#[trigger] s2[a]).0 != (
    #[trigger] s2[b2]).0 by {
        if a == 0 {
            assert(s2[b2] == s[b2 - 1]);
            if s[b2 - 1].0 == k {
                assert(has_key(s, k));
            }
        } else if b2 == 0 {
            assert(s2[a] == s[a - 1]);
            if s[a - 1].0 == k {
                assert(has_key(s, k));
            }
        } else {
            assert(s2[a] == s[a - 1] && s2[b2] == s[b2 - 1]);
        }
    }
    assert forall|q: u64| has_key(s2, q) implies q == k || has_key(s, q) by {
        let i2 = key_pos(s2, q);
        if i2 != 0 {
            assert(s2[i2] == s[i2 - 1]);
        }
    }
    assert forall|q: u64| has_key(s, q) implies has_key(s2, q) by {
        let i0 = key_pos(s, q);
        assert(s2[i0 + 1] == s[i0]);
    }
    assert(has_key(s2, k));
    assert forall|q: u64| #[trigger]
        map_of(s2).dom().contains(q) implies map_of(s2)[q] == map_of(s).insert(k, v)[q] by {
        lemma_key_pos_unique(s2, 0);
        if q == k {
            assert(key_pos(s2, k) == 0);
        } else {
            let i0 = key_pos(s, q);
            assert(s2[i0 + 1] == s[i0]);
            lemma_key_pos_unique(s2, i0 + 1);
        }
    }
    assert(map_of(s2) =~= map_of(s).insert(k, v));
}

/// Replacing the value (and possibly the visited bit) at one position
/// updates exactly that entry's key in the denoted map.
proof fn lemma_map_of_update_value<T>(s: Seq<(u64, T, bool)>, j: int, v: T, b: bool)
    requires
        unique_keys(s),
        0 <= j < s.len(),
    ensures
        unique_keys(s.update(j, (s[j].0, v, b))),
        map_of(s.update(j, (s[j].0, v, b))) == map_of(s).insert(s[j].0, v),
{
    let s2 = s.update(j, (s[j].0, v, b));
    assert(forall|i: int| 0 <= i < s2.len() ==> (#[trigger] s2[i]).0 == s[i].0);
    assert forall|a: int, b2: int|
        0 <= a < s2.len() && 0 <= b2 < s2.len() && a != b2 implies (#[trigger] s2[a]).0 != (
    #[trigger] s2[b2]).0 by {
        assert(s[a].0 != s[b2].0);
    }
    assert forall|q: u64| has_key(s2, q) <==> has_key(s, q) by {
        if has_key(s2, q) {
            let i2 = key_pos(s2, q);
            assert(s[i2].0 == q);
        }
        if has_key(s, q) {
            let i0 = key_pos(s, q);
            assert(s2[i0].0 == q);
        }
    }
    assert forall|q: u64| #[trigger]
        map_of(s2).dom().contains(q) implies map_of(s2)[q] == map_of(s).insert(s[j].0, v)[q] by {
        let i2 = key_pos(s2, q);
        assert(0 <= i2 < s2.len() && s2[i2].0 == q);
        lemma_key_pos_unique(s2, i2);
        if q == s[j].0 {
            lemma_key_pos_unique(s2, j);
            assert(i2 == j);
        } else {
            assert(i2 != j);
            lemma_key_pos_unique(s, i2);
        }
    }
    assert(map_of(s2) =~= map_of(s).insert(s[j].0, v));
}

/// The keys of a well-formed cache's entries are distinct: each key appears
/// in the list at most once.
pub proof fn lemma_unique_keys<T>(c: &SieveCache<T>)
    requires
        c.wf(),
    ensures
        unique_keys(c.entries()),
{
    assert forall|i: int, j: int|
        0 <= i < c.entries().len() && 0 <= j < c.entries().len() && i != j implies (
    #[trigger] c.entries()[i]).0 != (#[trigger] c.entries()[j]).0 by {
        if c.entries()[i].0 == c.entries()[j].0 {
            assert(c.index@[c.node_at(i).key] == c.ord@[i]);
            assert(c.index@[c.node_at(j).key] == c.ord@[j]);
            assert(c.ord@[i] == c.ord@[j]);
        }
    }
}

/// Clearing one visited bit in place preserves the invariant and updates
/// the abstract state at exactly that position.  `before` and `after` are
/// the cache just before and just after the slot write.
proof fn lemma_clear_visited_step<T>(before: SieveCache<T>, after: SieveCache<T>, p: int, cur: usize, cleared: Node<T>)
    requires
        before.wf(),
        0 <= p < before.ord@.len(),
        before.ord@[p] == cur,
        cleared.key == before.arena.node(cur).key,
        cleared.value == before.arena.node(cur).value,
        !cleared.visited,
        cleared.prev == before.arena.node(cur).prev,
        cleared.next == before.arena.node(cur).next,
        after.arena.wf(),
        after.arena@ == before.arena@.update(cur as int, Some(cleared)),
        after.ord@ == before.ord@,
        after.index == before.index,
        after.head == before.head,
        after.tail == before.tail,
        after.hand == before.hand,
        after.size == before.size,
        after.cap == before.cap,
    ensures
        after.wf(),
        after.entries() == clear_at(before.entries(), p),
{
    assert forall|j: int|
        0 <= j < after.ord@.len() && j != p implies #[trigger] after.node_at(j) == before.node_at(
        j,
    ) by {
        assert(before.ord@[j] != cur);
    }
    assert(after.node_at(p) == cleared);
    assert(after.entries() =~= clear_at(before.entries(), p));
    assert forall|j: int| 0 <= j < after.ord@.len() implies after.arena.valid(
        #[trigger] after.ord@[j],
    ) by {
        if after.ord@[j] != cur {
            assert(before.arena.valid(before.ord@[j]));
        }
    }
    assert(after.list_wf());
    assert forall|j: int| 0 <= j < after.ord@.len() implies after.index@.contains_key(
        (#[trigger] after.node_at(j)).key,
    ) && after.index@[after.node_at(j).key] == after.ord@[j] by {
        assert(after.node_at(j).key == before.node_at(j).key);
    }
    assert forall|k: u64| #[trigger]
        after.index@.contains_key(k) implies after.ord@.contains(after.index@[k])
        && after.arena.valid(after.index@[k]) && after.arena.node(after.index@[k]).key == k by {
        if after.index@[k] != cur {
            assert(before.arena.node(before.index@[k]).key == k);
        }
    }
    assert(after.wf());
}

/// After the entry at position `p` is unlinked, unindexed and freed, the
/// invariant holds again and the abstract state has lost exactly that
/// position.  `c1` is the cache before the removal, `c2` the cache just
/// after the unlink, `c3` the finished cache, whose hand must already rest
/// on a surviving entry or nowhere.
#[verifier::rlimit(60)]
proof fn lemma_finish_removal<T>(c1: SieveCache<T>, c2: SieveCache<T>, c3: SieveCache<T>, p: int, cur: usize, victim_key: u64)
    requires
        c1.wf(),
        0 <= p < c1.ord@.len(),
        c1.ord@[p] == cur,
        victim_key == c1.node_at(p).key,
        c2.arena.wf(),
        c2.list_wf(),
        c2.ord@ == c1.ord@.remove(p),
        c2.arena@.len() == c1.arena@.len(),
        forall|x: usize| c2.arena.valid(x) <==> c1.arena.valid(x),
        forall|x: usize|
            c1.arena.valid(x) ==> (#[trigger] c2.arena.node(x)).key == c1.arena.node(x).key
                && c2.arena.node(x).value == c1.arena.node(x).value && c2.arena.node(x).visited
                == c1.arena.node(x).visited,
        c2.entries() == c1.entries().remove(p),
        c3.ord@ == c2.ord@,
        c3.head == c2.head,
        c3.tail == c2.tail,
        c3.index@ == c1.index@.remove(victim_key),
        c3.arena.wf(),
        c3.arena@ == c2.arena@.update(cur as int, None),
        c3.size == c1.size - 1,
        c3.cap == c1.cap,
        match c3.hand {
            None => true,
            Some(hh) => c2.ord@.contains(hh),
        },
    ensures
        c3.wf(),
        c3.entries() == c1.entries().remove(p),
{
    lemma_unique_keys(&c1);
    assert(forall|j: int| 0 <= j < c2.ord@.len() ==> c2.ord@[j] != cur);
    assert forall|j: int|
        0 <= j < c3.ord@.len() implies c3.arena.valid(#[trigger] c3.ord@[j]) && c3.node_at(j)
        == c2.node_at(j) by {
        assert(c2.ord@[j] != cur);
        assert(c2.arena.valid(c2.ord@[j]));
    }
    assert(c3.entries() =~= c2.entries());
    assert forall|j: int| 0 <= j < c3.ord@.len() implies (#[trigger] c3.node_at(j)).prev == (
    if j == 0 {
        None
    } else {
        Some(c3.ord@[j - 1])
    }) && c3.node_at(j).next == (if j == c3.ord@.len() - 1 {
        None::<usize>
    } else {
        Some(c3.ord@[j + 1])
    }) by {
        assert(c3.node_at(j) == c2.node_at(j));
        assert(c2.node_at(j).prev == (if j == 0 {
            None::<usize>
        } else {
            Some(c2.ord@[j - 1])
        }));
        assert(c2.node_at(j).next == (if j == c2.ord@.len() - 1 {
            None::<usize>
        } else {
            Some(c2.ord@[j + 1])
        }));
    }
    assert(c3.list_wf());
    // The index after removal covers exactly the surviving entries.
    assert forall|j: int| 0 <= j < c3.ord@.len() implies c3.index@.contains_key(
        (#[trigger] c3.node_at(j)).key,
    ) && c3.index@[c3.node_at(j).key] == c3.ord@[j] by {
        let j1: int = if j < p {
            j
        } else {
            j + 1
        };
        let x = c3.ord@[j];
        assert(x == c1.ord@[j1]);
        assert(c1.arena.valid(x));
        assert(c2.arena.node(x).key == c1.arena.node(x).key);
        assert(x != cur);
        assert(c3.arena.node(x) == c2.arena.node(x));
        assert(c3.node_at(j).key == c1.node_at(j1).key);
        assert(c1.index@.contains_key(c1.node_at(j1).key));
        assert(c1.entries()[j1].0 == c1.node_at(j1).key);
        assert(c1.entries()[p].0 == victim_key);
        assert(j1 != p);
        assert(c1.node_at(j1).key != victim_key);
    }
    assert forall|k: u64| #[trigger]
        c3.index@.contains_key(k) implies c3.ord@.contains(c3.index@[k]) && c3.arena.valid(
        c3.index@[k],
    ) && c3.arena.node(c3.index@[k]).key == k by {
        assert(c1.index@.contains_key(k));
        assert(k != victim_key);
        let h2 = c1.index@[k];
        assert(c1.ord@.contains(h2));
        let q = c1.ord@.index_of(h2);
        assert(0 <= q < c1.ord@.len() && c1.ord@[q] == h2);
        assert(c1.arena.node(h2).key == k);
        if q == p {
            assert(c1.node_at(p).key == victim_key);
        }
        assert(q != p);
        let q2: int = if q < p {
            q
        } else {
            q - 1
        };
        assert(c3.ord@[q2] == h2);
        assert(h2 != cur);
        assert(c3.arena.valid(h2));
        assert(c3.arena.node(h2) == c2.arena.node(h2));
    }
    assert(c3.wf());
}

/// At the map level, the scan's eviction removes exactly the victim's key,
/// a key the cache held.
proof fn lemma_scan_map<T>(s0: Seq<(u64, T, bool)>, p0: int)
    requires
        unique_keys(s0),
        0 <= p0 < s0.len(),
    ensures
        has_key(s0, scan(s0, p0).0[scan(s0, p0).1].0),
        map_of(scan(s0, p0).0.remove(scan(s0, p0).1)) == map_of(s0).remove(
            scan(s0, p0).0[scan(s0, p0).1].0,
        ),
{
    let sc = scan(s0, p0).0;
    let v = scan(s0, p0).1;
    lemma_scan_props(s0, p0);
    assert forall|i: int, j: int|
        0 <= i < sc.len() && 0 <= j < sc.len() && i != j implies (#[trigger] sc[i]).0 != (
    #[trigger] sc[j]).0 by {
        assert(sc[i].0 == s0[i].0 && sc[j].0 == s0[j].0);
    }
    lemma_map_of_same_kv(s0, sc);
    lemma_map_of_remove(sc, v);
    assert(sc[v].0 == s0[v].0);
    assert(has_key(s0, sc[v].0));
}

/// After a fresh key's entry is allocated, linked at the head and indexed,
/// the invariant holds again and the hand has merely shifted one position
/// toward the tail.  `cm` is the cache before the allocation (well-formed,
/// with room and without the key), `cf` the finished cache.
#[verifier::rlimit(60)]
proof fn lemma_insert_link_finish<T>(cm: SieveCache<T>, cf: SieveCache<T>, h: usize, key: u64, value: T)
    requires
        cm.wf(),
        cm.ord@.len() < cm.cap,
        !has_key(cm.entries(), key),
        !cm.ord@.contains(h),
        cf.ord@ == seq![h] + cm.ord@,
        cf.arena.wf(),
        cf.list_wf(),
        cf.arena.valid(h),
        cf.arena.node(h).key == key,
        cf.arena.node(h).value == value,
        !cf.arena.node(h).visited,
        forall|x: usize|
            cm.arena.valid(x) ==> cf.arena.valid(x) && (#[trigger] cf.arena.node(x)).key
                == cm.arena.node(x).key && cf.arena.node(x).value == cm.arena.node(x).value
                && cf.arena.node(x).visited == cm.arena.node(x).visited,
        cf.entries() == seq![(key, value, false)] + cm.entries(),
        cf.index@ == cm.index@.insert(key, h),
        cf.hand == cm.hand,
        cf.size == cm.size + 1,
        cf.cap == cm.cap,
    ensures
        cf.wf(),
        cf.hand_pos() == (match cm.hand_pos() {
            Some(q) => Some(q + 1),
            None => None::<int>,
        }),
{
    lemma_unique_keys(&cm);
    assert(forall|j: int| 1 <= j < cf.ord@.len() ==> cf.ord@[j] == cm.ord@[j - 1]);
    assert forall|j: int| 0 <= j < cf.ord@.len() implies cf.index@.contains_key(
        (#[trigger] cf.node_at(j)).key,
    ) && cf.index@[cf.node_at(j).key] == cf.ord@[j] by {
        if j == 0 {
            assert(cf.node_at(0).key == key);
        } else {
            let x = cf.ord@[j];
            assert(x == cm.ord@[j - 1]);
            assert(cm.arena.valid(x));
            assert(cf.node_at(j).key == cm.node_at(j - 1).key);
            assert(cm.index@.contains_key(cm.node_at(j - 1).key));
            assert(cm.entries()[j - 1].0 == cm.node_at(j - 1).key);
            if cm.node_at(j - 1).key == key {
                assert(has_key(cm.entries(), key));
            }
            assert(cm.node_at(j - 1).key != key);
        }
    }
    assert forall|k: u64| #[trigger]
        cf.index@.contains_key(k) implies cf.ord@.contains(cf.index@[k]) && cf.arena.valid(
        cf.index@[k],
    ) && cf.arena.node(cf.index@[k]).key == k by {
        if k == key {
            assert(cf.index@[k] == h && cf.ord@[0] == h);
        } else {
            assert(cm.index@.contains_key(k));
            let x = cm.index@[k];
            assert(cm.ord@.contains(x));
            let q = cm.ord@.index_of(x);
            assert(0 <= q < cm.ord@.len() && cm.ord@[q] == x);
            assert(cf.ord@[q + 1] == x);
            assert(cm.arena.valid(x));
            assert(cf.arena.node(x).key == cm.arena.node(x).key);
        }
    }
    match cf.hand {
        None => {},
        Some(hh) => {
            assert(cm.ord@.contains(hh));
            let q = cm.ord@.index_of(hh);
            assert(0 <= q < cm.ord@.len() && cm.ord@[q] == hh);
            assert(cf.ord@[q + 1] == hh);
            assert(cf.ord@.contains(hh));
            let q2 = cf.ord@.index_of(hh);
            assert(0 <= q2 < cf.ord@.len() && cf.ord@[q2] == hh);
            if q2 != q + 1 {
                assert(cf.ord@[q2] != cf.ord@[q + 1]);
            }
            assert(q2 == q + 1);
        },
    }
    assert(cf.wf());
}

impl<T: Copy> SieveCache<T> {
    /// A fresh cache.  A capacity of zero is rejected with
    /// `InvalidCapacity`; any positive capacity yields an empty cache.
    pub fn new(capacity: usize) -> (r: Result<SieveCache<T>, CacheError>)
        ensures
            capacity == 0 ==> r == Err::<SieveCache<T>, CacheError>(CacheError::InvalidCapacity),
            capacity >= 1 ==> r is Ok && (r->Ok_0).wf() && (r->Ok_0).spec_capacity() == capacity
                && (r->Ok_0).spec_len() == 0 && (r->Ok_0).entries() == Seq::<(
                u64,
                T,
                bool,
            )>::empty() && (r->Ok_0)@ == Map::<u64, T>::empty() && (r->Ok_0).hand_pos() is None,
    {
        if capacity == 0 {
            Err(CacheError::InvalidCapacity)
        } else {
            let c = SieveCache {
                cap: capacity,
                size: 0,
                arena: Arena::new(),
                index: HashMap::new(),
                head: None,
                tail: None,
                hand: None,
                ord: Ghost(Seq::empty()),
            };
            proof {
                assert(c.entries() =~= Seq::<(u64, T, bool)>::empty());
                assert forall|k: u64| !has_key(c.entries(), k) by {}
                assert(c@ =~= Map::<u64, T>::empty());
            }
            Ok(c)
        }
    }

    /// How many entries the cache currently holds.
    pub fn len(&self) -> (n: usize)
        requires
            self.wf(),
        ensures
            n == self.spec_len(),
    {
        self.size
    }

    /// The fixed capacity the cache was built with.
    pub fn capacity(&self) -> (n: usize)
        ensures
            n == self.spec_capacity(),
    {
        self.cap
    }

    /// Links the fresh, unlinked entry at `h` in front of the current head.
    /// Only the list structure moves: every entry keeps its key, value and
    /// visited bit, and the index, hand and size are untouched.
    fn push_front(&mut self, h: usize)
        requires
            old(self).arena.wf(),
            old(self).list_wf(),
            old(self).arena.valid(h),
            !old(self).ord@.contains(h),
            old(self).arena.node(h).prev is None,
            old(self).arena.node(h).next is None,
        ensures
            final(self).arena.wf(),
            final(self).list_wf(),
            final(self).ord@ == seq![h] + old(self).ord@,
            final(self).arena@.len() == old(self).arena@.len(),
            forall|x: usize| final(self).arena.valid(x) <==> old(self).arena.valid(x),
            forall|x: usize|
                old(self).arena.valid(x) ==> (#[trigger] final(self).arena.node(x)).key == old(
                    self,
                ).arena.node(x).key && final(self).arena.node(x).value == old(self).arena.node(
                    x,
                ).value && final(self).arena.node(x).visited == old(self).arena.node(x).visited,
            final(self).entries() == seq![
                (
                    old(self).arena.node(h).key,
                    old(self).arena.node(h).value,
                    old(self).arena.node(h).visited,
                ),
            ] + old(self).entries(),
            final(self).index == old(self).index,
            final(self).hand == old(self).hand,
            final(self).size == old(self).size,
            final(self).cap == old(self).cap,
    {
        let ghost c0 = *self;
        match self.head {
            None => {
                self.head = Some(h);
                self.tail = Some(h);
                self.ord = Ghost(seq![h] + c0.ord@);
                proof {
                    assert(c0.ord@.len() == 0);
                    assert(self.ord@ =~= seq![h]);
                    assert(self.list_wf());
                    assert(self.entries() =~= seq![
                        (c0.arena.node(h).key, c0.arena.node(h).value, c0.arena.node(h).visited),
                    ] + c0.entries());
                }
            },
            Some(oh) => {
                proof {
                    assert(c0.ord@.len() >= 1 && c0.ord@[0] == oh);
                    assert(c0.arena.valid(oh));
                    assert(oh != h);
                }
                let n = match self.arena.get(h) {
                    Ok(n) => n,
                    Err(_) => unreached(),
                };
                let linked = Node {
                    key: n.key,
                    value: n.value,
                    visited: n.visited,
                    prev: None,
                    next: Some(oh),
                };
                match self.arena.set(h, linked) {
                    Ok(_) => (),
                    Err(_) => unreached(),
                }
                let on = match self.arena.get(oh) {
                    Ok(n) => n,
                    Err(_) => unreached(),
                };
                let relinked = Node {
                    key: on.key,
                    value: on.value,
                    visited: on.visited,
                    prev: Some(h),
                    next: on.next,
                };
                match self.arena.set(oh, relinked) {
                    Ok(_) => (),
                    Err(_) => unreached(),
                }
                self.head = Some(h);
                self.ord = Ghost(seq![h] + c0.ord@);
                proof {
                    let c1 = *self;
                    let ord0 = c0.ord@;
                    let ord1 = c1.ord@;
                    assert(ord1.len() == ord0.len() + 1);
                    assert(ord1[0] == h);
                    assert(forall|j: int| 1 <= j < ord1.len() ==> ord1[j] == ord0[j - 1]);
                    assert forall|x: usize|
                        c0.arena.valid(x) implies c1.arena.valid(x) && (
                    #[trigger] c1.arena.node(x)).key == c0.arena.node(x).key && c1.arena.node(
                        x,
                    ).value == c0.arena.node(x).value && c1.arena.node(x).visited == c0.arena.node(
                        x,
                    ).visited by {}
                    assert forall|x: usize| c1.arena.valid(x) implies c0.arena.valid(x) by {}
                    assert(c1.arena.node(h) == linked);
                    assert(c1.arena.node(oh) == relinked);
                    assert forall|x: usize|
                        c0.arena.valid(x) && x != h && x != oh implies #[trigger] c1.arena.node(x)
                        == c0.arena.node(x) by {}
                    assert(ord1.no_duplicates());
                    assert forall|j: int| 0 <= j < ord1.len() implies (
                    #[trigger] c1.node_at(j)).prev == (if j == 0 {
                        None
                    } else {
                        Some(ord1[j - 1])
                    }) && c1.node_at(j).next == (if j == ord1.len() - 1 {
                        None::<usize>
                    } else {
                        Some(ord1[j + 1])
                    }) by {
                        if j == 0 {
                        } else if j == 1 {
                            assert(ord1[j] == oh);
                        } else {
                            assert(ord1[j] == ord0[j - 1]);
                            assert(ord0[j - 1] != h && ord0[j - 1] != oh);
                            assert(c1.node_at(j) == c0.node_at(j - 1));
                        }
                    }
                    assert(c1.list_wf());
                    assert(c1.entries() =~= seq![
                        (c0.arena.node(h).key, c0.arena.node(h).value, c0.arena.node(h).visited),
                    ] + c0.entries());
                }
            },
        }
    }

    /// Unlinks the entry at `h` from wherever it sits in the list, patching
    /// its neighbours' links.  The slot itself stays occupied and unchanged
    /// apart from stale links; the caller frees it or relinks it.
    fn unlink(&mut self, h: usize)
        requires
            old(self).arena.wf(),
            old(self).list_wf(),
            old(self).ord@.contains(h),
        ensures
            final(self).arena.wf(),
            final(self).list_wf(),
            final(self).ord@ == old(self).ord@.remove(old(self).ord@.index_of(h)),
            final(self).entries() == old(self).entries().remove(old(self).ord@.index_of(h)),
            final(self).arena@.len() == old(self).arena@.len(),
            forall|x: usize| final(self).arena.valid(x) <==> old(self).arena.valid(x),
            forall|x: usize|
                old(self).arena.valid(x) ==> (#[trigger] final(self).arena.node(x)).key == old(
                    self,
                ).arena.node(x).key && final(self).arena.node(x).value == old(self).arena.node(
                    x,
                ).value && final(self).arena.node(x).visited == old(self).arena.node(x).visited,
            final(self).index == old(self).index,
            final(self).hand == old(self).hand,
            final(self).size == old(self).size,
            final(self).cap == old(self).cap,
    {
        let ghost c0 = *self;
        let ghost p = c0.ord@.index_of(h);
        proof {
            assert(0 <= p < c0.ord@.len() && c0.ord@[p] == h);
            assert(c0.arena.valid(h));
            assert(c0.node_at(p) == c0.arena.node(h));
        }
        let n = match self.arena.get(h) {
            Ok(n) => n,
            Err(_) => unreached(),
        };
        match n.prev {
            Some(pv) => {
                proof {
                    assert(p > 0 && c0.ord@[p - 1] == pv);
                    assert(pv != h);
                    assert(c0.arena.valid(pv));
                }
                let pn = match self.arena.get(pv) {
                    Ok(x) => x,
                    Err(_) => unreached(),
                };
                let patched = Node {
                    key: pn.key,
                    value: pn.value,
                    visited: pn.visited,
                    prev: pn.prev,
                    next: n.next,
                };
                match self.arena.set(pv, patched) {
                    Ok(_) => (),
                    Err(_) => unreached(),
                }
            },
            None => {
                proof {
                    assert(p == 0);
                }
                self.head = n.next;
            },
        }
        match n.next {
            Some(nx) => {
                proof {
                    assert(p < c0.ord@.len() - 1 && c0.ord@[p + 1] == nx);
                    assert(nx != h);
                    if p > 0 {
                        assert(c0.ord@[p - 1] != c0.ord@[p + 1]);
                    }
                    assert(self.arena.valid(nx));
                }
                let nn = match self.arena.get(nx) {
                    Ok(x) => x,
                    Err(_) => unreached(),
                };
                let patched = Node {
                    key: nn.key,
                    value: nn.value,
                    visited: nn.visited,
                    prev: n.prev,
                    next: nn.next,
                };
                match self.arena.set(nx, patched) {
                    Ok(_) => (),
                    Err(_) => unreached(),
                }
            },
            None => {
                proof {
                    assert(p == c0.ord@.len() - 1);
                }
                self.tail = n.prev;
            },
        }
        self.ord = Ghost(c0.ord@.remove(p));
        proof {
            let c1 = *self;
            let ord0 = c0.ord@;
            let ord1 = c1.ord@;
            assert(ord1.len() == ord0.len() - 1);
            assert(forall|j: int| 0 <= j < p ==> ord1[j] == ord0[j]);
            assert(forall|j: int| p <= j < ord1.len() ==> ord1[j] == ord0[j + 1]);
            assert forall|x: usize| c1.arena.valid(x) <==> c0.arena.valid(x) by {}
            assert forall|x: usize|
                c0.arena.valid(x) implies (#[trigger] c1.arena.node(x)).key == c0.arena.node(
                x,
            ).key && c1.arena.node(x).value == c0.arena.node(x).value && c1.arena.node(x).visited
                == c0.arena.node(x).visited by {}
            assert forall|x: usize|
                c0.arena.valid(x) && (p == 0 || x != ord0[p - 1]) && (p == ord0.len() - 1 || x
                    != ord0[p + 1]) implies #[trigger] c1.arena.node(x) == c0.arena.node(x) by {}
            assert(ord1.no_duplicates()) by {
                assert forall|i: int, j: int|
                    0 <= i < ord1.len() && 0 <= j < ord1.len() && i != j implies ord1[i]
                    != ord1[j] by {
                    let i0: int = if i < p {
                        i
                    } else {
                        i + 1
                    };
                    let j0: int = if j < p {
                        j
                    } else {
                        j + 1
                    };
                    assert(ord1[i] == ord0[i0] && ord1[j] == ord0[j0]);
                }
            }
            assert forall|j: int| 0 <= j < ord1.len() implies (#[trigger] c1.node_at(j)).prev == (
            if j == 0 {
                None
            } else {
                Some(ord1[j - 1])
            }) && c1.node_at(j).next == (if j == ord1.len() - 1 {
                None::<usize>
            } else {
                Some(ord1[j + 1])
            }) by {
                if j < p - 1 {
                    assert(ord1[j] == ord0[j]);
                    assert(c1.node_at(j) == c0.node_at(j));
                } else if j == p - 1 {
                    assert(ord1[j] == ord0[p - 1]);
                } else if j == p {
                    assert(ord1[j] == ord0[p + 1]);
                } else {
                    assert(ord1[j] == ord0[j + 1]);
                    assert(c1.node_at(j) == c0.node_at(j + 1));
                }
            }
            assert(c1.head == (if ord1.len() == 0 {
                None::<usize>
            } else {
                Some(ord1[0])
            }));
            assert(c1.tail == (if ord1.len() == 0 {
                None::<usize>
            } else {
                Some(ord1[ord1.len() - 1])
            }));
            assert(c1.list_wf());
            assert(c1.entries() =~= c0.entries().remove(p));
        }
    }

    /// The SIEVE eviction.  The scan starts at the hand — restarting from
    /// the tail when the hand is unset or rests on the head — walks toward
    /// the head wrapping at it, clears the visited bit of every entry it
    /// passes over, and removes the first unvisited entry it meets.  The
    /// hand stays where the scan stopped: on the evicted entry's neighbour
    /// toward the head, captured before the unlink.
    #[verifier::rlimit(100)]
    #[verifier::spinoff_prover]
    fn evict(&mut self)
        requires
            old(self).wf(),
            old(self).spec_len() >= 1,
        ensures
            final(self).wf(),
            final(self).spec_capacity() == old(self).spec_capacity(),
            final(self).spec_len() == old(self).spec_len() - 1,
            ({
                let s0 = old(self).entries();
                let p0 = scan_start(s0, old(self).hand_pos());
                let sc = scan(s0, p0).0;
                let v = scan(s0, p0).1;
                &&& final(self).entries() == sc.remove(v)
                &&& final(self).hand_pos() == (if v == 0 {
                    None::<int>
                } else {
                    Some(v - 1)
                })
                &&& old(self)@.contains_key(sc[v].0)
                &&& final(self)@ == old(self)@.remove(sc[v].0)
            }),
    {
        let ghost s0 = old(self).entries();
        let ghost p0 = scan_start(s0, old(self).hand_pos());
        proof {
            lemma_unique_keys(old(self));
        }
        let tail = match self.tail {
            Some(t) => t,
            None => unreached(),
        };
        let mut cur: usize = match self.hand {
            None => tail,
            Some(hh) => {
                let hd = match self.head {
                    Some(hd) => hd,
                    None => unreached(),
                };
                if hh == hd {
                    tail
                } else {
                    hh
                }
            },
        };
        let ghost mut p: int = p0;
        proof {
            let ord = self.ord@;
            assert(ord[ord.len() - 1] == tail);
            match old(self).hand {
                None => {},
                Some(hh) => {
                    assert(ord.contains(hh));
                    let hp = ord.index_of(hh);
                    assert(0 <= hp < ord.len() && ord[hp] == hh);
                    if hh == ord[0] {
                        assert(hp == 0);
                    } else {
                        assert(hp != 0);
                    }
                },
            }
            assert(0 <= p < self.ord@.len() && self.ord@[p] == cur);
            assert(self.entries() == s0);
        }
        loop
            invariant
                self.wf(),
                self.ord@ == old(self).ord@,
                self.index == old(self).index,
                self.hand == old(self).hand,
                self.head == old(self).head,
                self.tail == old(self).tail,
                self.size == old(self).size,
                self.cap == old(self).cap,
                tail == self.ord@[self.ord@.len() - 1],
                0 <= p < self.ord@.len(),
                self.ord@[p] == cur,
                s0.len() == self.entries().len(),
                scan(s0, p0) == scan(self.entries(), p),
                forall|j: int|
                    0 <= j < s0.len() ==> (#[trigger] self.entries()[j]).0 == s0[j].0
                        && self.entries()[j].1 == s0[j].1,
            ensures
                self.wf(),
                self.ord@ == old(self).ord@,
                self.index == old(self).index,
                self.hand == old(self).hand,
                self.size == old(self).size,
                self.cap == old(self).cap,
                0 <= p < self.ord@.len(),
                self.ord@[p] == cur,
                scan(s0, p0) == (self.entries(), p),
            decreases count_visited(self.entries()),
        {
            let n = match self.arena.get(cur) {
                Ok(n) => n,
                Err(_) => unreached(),
            };
            proof {
                assert(self.node_at(p) == n);
                assert(self.entries()[p] == (n.key, n.value, n.visited));
            }
            if !n.visited {
                proof {
                    assert(scan(self.entries(), p) == (self.entries(), p));
                }
                break;
            }
            let ghost c_pre = *self;
            let cleared = Node {
                key: n.key,
                value: n.value,
                visited: false,
                prev: n.prev,
                next: n.next,
            };
            match self.arena.set(cur, cleared) {
                Ok(_) => (),
                Err(_) => unreached(),
            }
            proof {
                let c_post = *self;
                assert(c_pre.node_at(p) == c_pre.arena.node(cur));
                lemma_clear_visited_step(c_pre, c_post, p, cur, cleared);
                lemma_count_visited_clear(c_pre.entries(), p);
                assert(c_pre.entries()[p].2);
                assert(scan(c_pre.entries(), p) == scan(
                    c_post.entries(),
                    scan_next(c_pre.entries(), p),
                ));
            }
            let hd = match self.head {
                Some(hd) => hd,
                None => unreached(),
            };
            if cur == hd {
                proof {
                    if p != 0 {
                        assert(self.ord@[p] != self.ord@[0]);
                    }
                    assert(p == 0);
                    p = self.ord@.len() - 1;
                }
                cur = tail;
            } else {
                proof {
                    if p == 0 {
                        assert(self.ord@[p] == hd);
                    }
                    assert(p != 0);
                    assert(n.prev == Some(self.ord@[p - 1]));
                    p = p - 1;
                }
                cur = match n.prev {
                    Some(pv) => pv,
                    None => unreached(),
                };
            }
        }
        // The scan stopped on the victim: record its key, capture its
        // neighbour toward the head, then unlink, unindex and free it.
        let n = match self.arena.get(cur) {
            Ok(n) => n,
            Err(_) => unreached(),
        };
        let victim_key = n.key;
        let new_hand = n.prev;
        let ghost c1 = *self;
        proof {
            assert(c1.node_at(p) == n);
            assert(c1.entries() == scan(s0, p0).0);
            assert(p == scan(s0, p0).1);
            assert(n.prev == (if p == 0 {
                None::<usize>
            } else {
                Some(c1.ord@[p - 1])
            }));
            lemma_unique_keys(&c1);
            assert(c1.ord@.index_of(cur) == p) by {
                let q = c1.ord@.index_of(cur);
                assert(c1.ord@.contains(cur));
                assert(0 <= q < c1.ord@.len() && c1.ord@[q] == cur);
                if q != p {
                    assert(c1.ord@[q] != c1.ord@[p]);
                }
            }
        }
        self.unlink(cur);
        let ghost c2 = *self;
        self.index.remove(&victim_key);
        match self.arena.free(cur) {
            Ok(_) => (),
            Err(_) => unreached(),
        }
        self.size = self.size - 1;
        self.hand = new_hand;
        proof {
            let c3 = *self;
            let sc = scan(s0, p0).0;
            assert(c1.entries() == sc && p == scan(s0, p0).1);
            assert(victim_key == c1.node_at(p).key);
            assert(c3.index@ == c1.index@.remove(victim_key));
            if p != 0 {
                assert(c3.hand == Some(c1.ord@[p - 1]));
                assert(c2.ord@[p - 1] == c1.ord@[p - 1]);
                assert(c2.ord@.contains(c1.ord@[p - 1]));
            }
            lemma_finish_removal(c1, c2, c3, p, cur, victim_key);
            assert(c3.entries() == sc.remove(p));
            // The hand rests on the evicted entry's neighbour toward the head.
            match c3.hand {
                None => {
                    assert(p == 0);
                },
                Some(hh) => {
                    assert(p != 0 && hh == c1.ord@[p - 1]);
                    assert(c3.ord@[p - 1] == c1.ord@[p - 1]);
                    assert(c3.ord@.contains(hh));
                    let q = c3.ord@.index_of(hh);
                    assert(0 <= q < c3.ord@.len() && c3.ord@[q] == hh);
                    if q != p - 1 {
                        assert(c3.ord@[q] != c3.ord@[p - 1]);
                    }
                    assert(q == p - 1);
                },
            }
            assert(c3.hand_pos() == (if p == 0 {
                None::<int>
            } else {
                Some(p - 1)
            }));
            lemma_scan_map(s0, p0);
            assert(has_key(s0, sc[p].0));
            assert(old(self)@.contains_key(sc[p].0));
            assert(c3@ == old(self)@.remove(sc[p].0));
        }
    }

    /// Looks `key` up.  On a hit the entry's visited bit is set and its
    /// value returned; a miss changes nothing.  The list order, the hand and
    /// the key-to-value map are never touched, so repeated lookups keep
    /// returning the same value.
    pub fn get(&mut self, key: u64) -> (r: Option<T>)
        requires
            old(self).wf(),
        ensures
            final(self).wf(),
            final(self).spec_capacity() == old(self).spec_capacity(),
            final(self).spec_len() == old(self).spec_len(),
            final(self).hand_pos() == old(self).hand_pos(),
            final(self)@ == old(self)@,
            !has_key(old(self).entries(), key) ==> r is None && final(self).entries() == old(
                self,
            ).entries(),
            has_key(old(self).entries(), key) ==> {
                let j = key_pos(old(self).entries(), key);
                &&& r == Some(old(self).entries()[j].1)
                &&& final(self).entries() == old(self).entries().update(
                    j,
                    (key, old(self).entries()[j].1, true),
                )
            },
            r == (if old(self)@.contains_key(key) {
                Some(old(self)@[key])
            } else {
                None::<T>
            }),
    {
        proof {
            lemma_unique_keys(old(self));
        }
        let hopt: Option<usize> = match self.index.get(&key) {
            Some(hr) => Some(*hr),
            None => None,
        };
        match hopt {
            None => {
                proof {
                    assert(!self.index@.contains_key(key));
                    assert forall|j: int|
                        !(0 <= j < self.entries().len() && (#[trigger] self.entries()[j]).0
                            == key) by {
                        if 0 <= j < self.entries().len() && self.entries()[j].0 == key {
                            assert(self.index@.contains_key(self.node_at(j).key));
                        }
                    }
                    assert(!has_key(self.entries(), key));
                    assert(!self@.contains_key(key));
                }
                None
            },
            Some(h) => {
                proof {
                    assert(self.index@.contains_key(key));
                    assert(self.index@[key] == h);
                    assert(self.ord@.contains(h));
                    assert(self.arena.valid(h));
                }
                let ghost c0 = *self;
                let ghost p = c0.ord@.index_of(h);
                proof {
                    assert(0 <= p < c0.ord@.len() && c0.ord@[p] == h);
                    assert(c0.entries()[p].0 == key);
                    lemma_key_pos_unique(c0.entries(), p);
                }
                let n = match self.arena.get(h) {
                    Ok(n) => n,
                    Err(_) => unreached(),
                };
                let marked = Node {
                    key: n.key,
                    value: n.value,
                    visited: true,
                    prev: n.prev,
                    next: n.next,
                };
                match self.arena.set(h, marked) {
                    Ok(_) => (),
                    Err(_) => unreached(),
                }
                proof {
                    let c1 = *self;
                    assert(c1.ord@ == c0.ord@);
                    assert forall|j: int|
                        0 <= j < c1.ord@.len() && j != p implies #[trigger] c1.node_at(j)
                            == c0.node_at(j) by {
                        assert(c0.ord@[j] != h);
                    }
                    assert(c1.node_at(p) == marked);
                    assert(c1.entries() =~= c0.entries().update(p, (key, n.value, true)));
                    // The invariant survives: only a visited bit changed.
                    assert forall|j: int| 0 <= j < c1.ord@.len() implies self.arena.valid(
                        #[trigger] c1.ord@[j],
                    ) by {
                        if c1.ord@[j] != h {
                            assert(c0.arena.valid(c0.ord@[j]));
                        }
                    }
                    assert(c1.list_wf());
                    assert forall|j: int| 0 <= j < c1.ord@.len() implies c1.index@.contains_key(
                        (#[trigger] c1.node_at(j)).key,
                    ) && c1.index@[c1.node_at(j).key] == c1.ord@[j] by {
                        assert(c1.node_at(j).key == c0.node_at(j).key);
                    }
                    assert forall|k: u64| #[trigger]
                        c1.index@.contains_key(k) implies c1.ord@.contains(c1.index@[k])
                        && c1.arena.valid(c1.index@[k]) && c1.arena.node(c1.index@[k]).key
                        == k by {
                        if c1.index@[k] != h {
                            assert(c0.arena.node(c0.index@[k]).key == k);
                        }
                    }
                    assert(c1.index_wf());
                    assert(c1.wf());
                    lemma_map_of_same_kv(c0.entries(), c1.entries());
                    assert(c0@.contains_key(key));
                    assert(c0@[key] == c0.entries()[key_pos(c0.entries(), key)].1);
                }
                Some(n.value)
            },
        }
    }

    /// Inserts `key` with `value`.  A key already present is updated in
    /// place: its value changes, but its list position and visited bit do
    /// not, and the length is unchanged.  A fresh key becomes the new head
    /// entry, unvisited; while the cache is not full nothing is evicted,
    /// and when it is full the SIEVE scan first evicts exactly one entry.
    /// Either way the key afterwards maps to the given value.
    #[verifier::rlimit(60)]
    #[verifier::spinoff_prover]
    pub fn insert(&mut self, key: u64, value: T)
        requires
            old(self).wf(),
        ensures
            final(self).wf(),
            final(self).spec_capacity() == old(self).spec_capacity(),
            final(self)@.contains_key(key) && final(self)@[key] == value,
            has_key(old(self).entries(), key) ==> ({
                let j = key_pos(old(self).entries(), key);
                &&& final(self).entries() == old(self).entries().update(
                    j,
                    (key, value, old(self).entries()[j].2),
                )
                &&& final(self).spec_len() == old(self).spec_len()
                &&& final(self).hand_pos() == old(self).hand_pos()
                &&& final(self)@ == old(self)@.insert(key, value)
            }),
            !has_key(old(self).entries(), key) && old(self).spec_len() < old(
                self,
            ).spec_capacity() ==> ({
                &&& final(self).entries() == seq![(key, value, false)] + old(self).entries()
                &&& final(self).spec_len() == old(self).spec_len() + 1
                &&& final(self).hand_pos() == (match old(self).hand_pos() {
                    Some(q) => Some(q + 1),
                    None => None::<int>,
                })
                &&& final(self)@ == old(self)@.insert(key, value)
            }),
            !has_key(old(self).entries(), key) && old(self).spec_len() == old(
                self,
            ).spec_capacity() ==> ({
                let s0 = old(self).entries();
                let p0 = scan_start(s0, old(self).hand_pos());
                let sc = scan(s0, p0).0;
                let v = scan(s0, p0).1;
                &&& final(self).entries() == seq![(key, value, false)] + sc.remove(v)
                &&& final(self).spec_len() == old(self).spec_len()
                &&& final(self).hand_pos() == (if v == 0 {
                    None::<int>
                } else {
                    Some(v)
                })
                &&& old(self)@.contains_key(sc[v].0) && sc[v].0 != key
                &&& final(self)@ == old(self)@.remove(sc[v].0).insert(key, value)
            }),
    {
        proof {
            lemma_unique_keys(old(self));
        }
        let hopt: Option<usize> = match self.index.get(&key) {
            Some(hr) => Some(*hr),
            None => None,
        };
        match hopt {
            Some(h) => {
                // Update in place: the value changes, nothing else moves.
                proof {
                    assert(self.index@.contains_key(key));
                    assert(self.index@[key] == h);
                    assert(self.ord@.contains(h));
                    assert(self.arena.valid(h));
                }
                let ghost c0 = *self;
                let ghost p = c0.ord@.index_of(h);
                proof {
                    assert(0 <= p < c0.ord@.len() && c0.ord@[p] == h);
                    assert(c0.entries()[p].0 == key);
                    lemma_key_pos_unique(c0.entries(), p);
                }
                let n = match self.arena.get(h) {
                    Ok(n) => n,
                    Err(_) => unreached(),
                };
                let updated = Node {
                    key: n.key,
                    value,
                    visited: n.visited,
                    prev: n.prev,
                    next: n.next,
                };
                match self.arena.set(h, updated) {
                    Ok(_) => (),
                    Err(_) => unreached(),
                }
                proof {
                    let c1 = *self;
                    assert(c1.ord@ == c0.ord@);
                    assert forall|j: int|
                        0 <= j < c1.ord@.len() && j != p implies #[trigger] c1.node_at(j)
                            == c0.node_at(j) by {
                        assert(c0.ord@[j] != h);
                    }
                    assert(c1.node_at(p) == updated);
                    assert(c1.entries() =~= c0.entries().update(p, (key, value, n.visited)));
                    assert forall|j: int| 0 <= j < c1.ord@.len() implies self.arena.valid(
                        #[trigger] c1.ord@[j],
                    ) by {
                        if c1.ord@[j] != h {
                            assert(c0.arena.valid(c0.ord@[j]));
                        }
                    }
                    assert(c1.list_wf());
                    assert forall|j: int| 0 <= j < c1.ord@.len() implies c1.index@.contains_key(
                        (#[trigger] c1.node_at(j)).key,
                    ) && c1.index@[c1.node_at(j).key] == c1.ord@[j] by {
                        assert(c1.node_at(j).key == c0.node_at(j).key);
                    }
                    assert forall|k: u64| #[trigger]
                        c1.index@.contains_key(k) implies c1.ord@.contains(c1.index@[k])
                        && c1.arena.valid(c1.index@[k]) && c1.arena.node(c1.index@[k]).key
                        == k by {
                        if c1.index@[k] != h {
                            assert(c0.arena.node(c0.index@[k]).key == k);
                        }
                    }
                    assert(c1.wf());
                    lemma_map_of_update_value(c0.entries(), p, value, n.visited);
                    assert(c0.entries()[p].0 == key);
                    assert(c1@ == c0@.insert(key, value));
                }
            },
            None => {
                proof {
                    assert(!self.index@.contains_key(key));
                    assert forall|j: int|
                        !(0 <= j < self.entries().len() && (#[trigger] self.entries()[j]).0
                            == key) by {
                        if 0 <= j < self.entries().len() && self.entries()[j].0 == key {
                            assert(self.index@.contains_key(self.node_at(j).key));
                        }
                    }
                    assert(!has_key(self.entries(), key));
                }
                if self.size == self.cap {
                    self.evict();
                }
                let ghost cm = *self;
                proof {
                    // The evicted state still lacks `key`.
                    if old(self).spec_len() == old(self).spec_capacity() {
                        let s0 = old(self).entries();
                        let p0 = scan_start(s0, old(self).hand_pos());
                        lemma_scan_props(s0, p0);
                        assert forall|j: int|
                            !(0 <= j < cm.entries().len() && (#[trigger] cm.entries()[j]).0
                                == key) by {
                            let v = scan(s0, p0).1;
                            if 0 <= j < cm.entries().len() && cm.entries()[j].0 == key {
                                let j0: int = if j < v {
                                    j
                                } else {
                                    j + 1
                                };
                                assert(cm.entries()[j] == scan(s0, p0).0[j0]);
                                assert(s0[j0].0 == key);
                                assert(has_key(s0, key));
                            }
                        }
                        assert(!has_key(cm.entries(), key));
                    }
                    lemma_unique_keys(&cm);
                }
                let h = self.arena.allocate(Node::new(key, value));
                let ghost ca = *self;
                proof {
                    assert forall|j: int| 0 <= j < ca.ord@.len() implies ca.arena.valid(
                        #[trigger] ca.ord@[j],
                    ) && ca.node_at(j) == cm.node_at(j) && ca.ord@[j] != h by {
                        assert(cm.arena.valid(cm.ord@[j]));
                        if cm.ord@[j] == h {
                            assert(cm.arena@[h as int] is Some);
                        }
                    }
                    assert(!ca.ord@.contains(h));
                    assert(ca.entries() =~= cm.entries());
                    assert(ca.list_wf());
                }
                self.push_front(h);
                let ghost cp = *self;
                self.index.insert(key, h);
                self.size = self.size + 1;
                proof {
                    let cf = *self;
                    assert(cf.ord@ == seq![h] + cm.ord@);
                    assert(cf.arena == cp.arena && cf.ord@ == cp.ord@ && cf.head == cp.head
                        && cf.tail == cp.tail);
                    assert forall|j: int| 0 <= j < cf.ord@.len() implies #[trigger] cf.node_at(j)
                        == cp.node_at(j) && cf.arena.valid(cf.ord@[j]) by {
                        assert(cp.arena.valid(cp.ord@[j]));
                    }
                    assert(cf.entries() =~= cp.entries());
                    assert(cf.list_wf());
                    assert(cf.entries() == seq![(key, value, false)] + cm.entries());
                    assert forall|x: usize|
                        cm.arena.valid(x) implies cf.arena.valid(x) && (
                    #[trigger] cf.arena.node(x)).key == cm.arena.node(x).key && cf.arena.node(
                        x,
                    ).value == cm.arena.node(x).value && cf.arena.node(x).visited
                        == cm.arena.node(x).visited by {
                        if x != h {
                            assert(ca.arena.valid(x) && ca.arena.node(x) == cm.arena.node(x));
                        } else {
                            assert(cm.arena@[h as int] is Some);
                        }
                    }
                    lemma_insert_link_finish(cm, cf, h, key, value);
                    lemma_map_of_prepend(cm.entries(), key, value, false);
                    assert(cf@ == cm@.insert(key, value));
                    if old(self).spec_len() == old(self).spec_capacity() {
                        let s0 = old(self).entries();
                        let p0 = scan_start(s0, old(self).hand_pos());
                        let v = scan(s0, p0).1;
                        assert(cm@ == old(self)@.remove(scan(s0, p0).0[v].0));
                        assert(cm.hand_pos() == (if v == 0 {
                            None::<int>
                        } else {
                            Some(v - 1)
                        }));
                        if scan(s0, p0).0[v].0 == key {
                            lemma_scan_props(s0, p0);
                            assert(s0[v].0 == key);
                            assert(has_key(s0, key));
                        }
                    }
                }
            },
        }
    }

    /// Removes `key` if it is present: its entry leaves the list, the index
    /// and the arena, and the length drops by one.  A hand resting on the
    /// removed entry moves to its neighbour toward the head, captured before
    /// the unlink; any other hand stays on its entry.  An absent key changes
    /// nothing.
    #[verifier::rlimit(60)]
    #[verifier::spinoff_prover]
    pub fn remove(&mut self, key: u64)
        requires
            old(self).wf(),
        ensures
            final(self).wf(),
            final(self).spec_capacity() == old(self).spec_capacity(),
            final(self)@ == old(self)@.remove(key),
            !has_key(old(self).entries(), key) ==> final(self).entries() == old(self).entries()
                && final(self).spec_len() == old(self).spec_len() && final(self).hand_pos() == old(
                self,
            ).hand_pos(),
            has_key(old(self).entries(), key) ==> ({
                let j = key_pos(old(self).entries(), key);
                &&& final(self).entries() == old(self).entries().remove(j)
                &&& final(self).spec_len() == old(self).spec_len() - 1
                &&& final(self).hand_pos() == (match old(self).hand_pos() {
                    None => None::<int>,
                    Some(q) => if q == j {
                        if j == 0 {
                            None::<int>
                        } else {
                            Some(j - 1)
                        }
                    } else if q > j {
                        Some(q - 1)
                    } else {
                        Some(q)
                    },
                })
            }),
    {
        proof {
            lemma_unique_keys(old(self));
        }
        let hopt: Option<usize> = match self.index.get(&key) {
            Some(hr) => Some(*hr),
            None => None,
        };
        match hopt {
            None => {
                proof {
                    assert(!self.index@.contains_key(key));
                    assert forall|j: int|
                        !(0 <= j < self.entries().len() && (#[trigger] self.entries()[j]).0
                            == key) by {
                        if 0 <= j < self.entries().len() && self.entries()[j].0 == key {
                            assert(self.index@.contains_key(self.node_at(j).key));
                        }
                    }
                    assert(!has_key(self.entries(), key));
                    assert(!self@.contains_key(key));
                    assert(self@ =~= self@.remove(key));
                }
            },
            Some(h) => {
                proof {
                    assert(self.index@.contains_key(key));
                    assert(self.index@[key] == h);
                    assert(self.ord@.contains(h));
                    assert(self.arena.valid(h));
                }
                let ghost c1 = *self;
                let ghost p = c1.ord@.index_of(h);
                proof {
                    assert(0 <= p < c1.ord@.len() && c1.ord@[p] == h);
                    assert(c1.entries()[p].0 == key);
                    lemma_key_pos_unique(c1.entries(), p);
                }
                let n = match self.arena.get(h) {
                    Ok(n) => n,
                    Err(_) => unreached(),
                };
                let on_hand = match self.hand {
                    Some(hh) => hh == h,
                    None => false,
                };
                let new_hand = if on_hand {
                    n.prev
                } else {
                    self.hand
                };
                proof {
                    assert(c1.node_at(p) == n);
                    assert(n.prev == (if p == 0 {
                        None::<usize>
                    } else {
                        Some(c1.ord@[p - 1])
                    }));
                }
                self.unlink(h);
                let ghost c2 = *self;
                self.index.remove(&key);
                match self.arena.free(h) {
                    Ok(_) => (),
                    Err(_) => unreached(),
                }
                self.size = self.size - 1;
                self.hand = new_hand;
                proof {
                    let c3 = *self;
                    assert(c3.index@ == c1.index@.remove(key));
                    assert(c2.ord@ == c1.ord@.remove(p));
                    match c3.hand {
                        None => {},
                        Some(hh) => {
                            if on_hand {
                                assert(p != 0 && hh == c1.ord@[p - 1]);
                                assert(c2.ord@[p - 1] == c1.ord@[p - 1]);
                            } else {
                                assert(c1.hand == Some(hh));
                                assert(hh != h);
                                assert(c1.ord@.contains(hh));
                                let q = c1.ord@.index_of(hh);
                                assert(0 <= q < c1.ord@.len() && c1.ord@[q] == hh);
                                assert(q != p);
                                let q2: int = if q < p {
                                    q
                                } else {
                                    q - 1
                                };
                                assert(c2.ord@[q2] == hh);
                            }
                            assert(c2.ord@.contains(hh));
                        },
                    }
                    lemma_finish_removal(c1, c2, c3, p, h, key);
                    assert(c3.entries() == c1.entries().remove(p));
                    lemma_map_of_remove(c1.entries(), p);
                    assert(c3@ == c1@.remove(key));
                    // Where the hand ends up, position-wise.
                    match c3.hand {
                        None => {
                            if c1.hand is Some && !on_hand {
                                assert(false);
                            }
                        },
                        Some(hh) => {
                            let q2 = c3.ord@.index_of(hh);
                            assert(c3.ord@.contains(hh)) by {
                                if on_hand {
                                    assert(c3.ord@[p - 1] == c1.ord@[p - 1]);
                                } else {
                                    let q = c1.ord@.index_of(hh);
                                    assert(0 <= q < c1.ord@.len() && c1.ord@[q] == hh);
                                    assert(q != p);
                                    if q < p {
                                        assert(c3.ord@[q] == hh);
                                    } else {
                                        assert(c3.ord@[q - 1] == hh);
                                    }
                                }
                            }
                            assert(0 <= q2 < c3.ord@.len() && c3.ord@[q2] == hh);
                            if on_hand {
                                assert(p != 0 && hh == c1.ord@[p - 1]);
                                if q2 != p - 1 {
                                    assert(c3.ord@[q2] != c3.ord@[p - 1]);
                                }
                                assert(q2 == p - 1);
                            } else {
                                let q = c1.ord@.index_of(hh);
                                assert(0 <= q < c1.ord@.len() && c1.ord@[q] == hh);
                                assert(q != p);
                                assert(c1.hand_pos() == Some(q));
                                let qe: int = if q < p {
                                    q
                                } else {
                                    q - 1
                                };
                                assert(c3.ord@[qe] == hh);
                                if q2 != qe {
                                    assert(c3.ord@[q2] != c3.ord@[qe]);
                                }
                                assert(q2 == qe);
                            }
                        },
                    }
                }
            },
        }
    }

    /// The current contents in insertion order (head first, tail last),
    /// each entry with its key, value and visited flag — a diagnostic
    /// rendering for tooling and tests.
    pub fn contents(&self) -> (r: Vec<(u64, T, bool)>)
        requires
            self.wf(),
        ensures
            r@ == self.entries(),
    {
        let mut r: Vec<(u64, T, bool)> = Vec::new();
        let mut cur: Option<usize> = self.head;
        loop
            invariant
                self.wf(),
                r@.len() <= self.ord@.len(),
                forall|i: int| 0 <= i < r@.len() ==> r@[i] == self.entries()[i],
                cur == (if r@.len() == self.ord@.len() {
                    None::<usize>
                } else {
                    Some(self.ord@[r@.len() as int])
                }),
            ensures
                r@.len() == self.ord@.len(),
                forall|i: int| 0 <= i < r@.len() ==> r@[i] == self.entries()[i],
            decreases self.ord@.len() - r@.len(),
        {
            match cur {
                None => {
                    break;
                },
                Some(h) => {
                    let ghost j = r@.len() as int;
                    proof {
                        assert(self.ord@[j] == h);
                        assert(self.arena.valid(h));
                        assert(self.node_at(j) == self.arena.node(h));
                    }
                    let n = match self.arena.get(h) {
                        Ok(n) => n,
                        Err(_) => unreached(),
                    };
                    r.push((n.key, n.value, n.visited));
                    cur = n.next;
                    proof {
                        assert(self.node_at(j).next == (if j == self.ord@.len() - 1 {
                            None::<usize>
                        } else {
                            Some(self.ord@[j + 1])
                        }));
                    }
                },
            }
        }
        proof {
            assert(r@ =~= self.entries());
        }
        r
    }
}

} // verus!
