//! The node arena: owns every cache entry and hands out stable handles.
//!
//! A handle is an index into the slot vector.  A slot is either occupied by a
//! node or free; freed slots are kept on a free list and recycled by later
//! allocations.  Every access through a handle is liveness-checked, so a
//! stale handle fails with `CacheError::InvalidHandle` instead of reading
//! freed memory.

use vstd::prelude::*;

verus! {

/// The failure conditions of the cache core.
///
/// Only `InvalidCapacity` can reach a caller that uses the cache through its
/// public operations; the other variants signal misuse of the arena or the
/// list through a stale or unlinked handle, which the verified cache code is
/// proved never to commit.
#[derive(Clone, Copy, PartialEq, Eq, Structural, Debug)]
pub enum CacheError {
    /// A cache was asked for with capacity zero.
    InvalidCapacity,
    /// A handle does not refer to a currently occupied arena slot.
    InvalidHandle,
    /// A handle is not currently part of the ordered list.
    NotLinked,
    /// Eviction was attempted on an empty list.
    EmptyEviction,
}

/// One cached entry: a key, its value, the visited bit of the SIEVE scan,
/// and the links that place the entry in the ordered list.
#[derive(Clone, Copy)]
pub struct Node<T> {
    pub key: u64,
    pub value: T,
    pub visited: bool,
    pub prev: Option<usize>,
    pub next: Option<usize>,
}

impl<T> Node<T> {
    /// A fresh, unlinked, unvisited node.
    pub fn new(key: u64, value: T) -> (n: Node<T>)
        ensures
            n.key == key,
            n.value == value,
            !n.visited,
            n.prev is None,
            n.next is None,
    {
        Node { key, value, visited: false, prev: None, next: None }
    }
}

/// The arena.  Its view is the sequence of slots; `Some` marks an occupied
/// slot, `None` a free one.
pub struct Arena<T> {
    slots: Vec<Option<Node<T>>>,
    free: Vec<usize>,
}

impl<T> View for Arena<T> {
    type V = Seq<Option<Node<T>>>;

    closed spec fn view(&self) -> Seq<Option<Node<T>>> {
        self.slots@
    }
}

impl<T> Arena<T> {
    /// The free list holds distinct indices of free slots, so recycling an
    /// index can never clobber a live entry.
    pub closed spec fn wf(&self) -> bool {
        &&& self.free@.no_duplicates()
        &&& forall|j: int|
            0 <= j < self.free@.len() ==> (#[trigger] self.free@[j]) < self.slots@.len()
                && self.slots@[self.free@[j] as int] is None
    }

    /// `h` currently refers to an occupied slot.
    pub open spec fn valid(&self, h: usize) -> bool {
        h < self@.len() && self@[h as int] is Some
    }

    /// The node stored at `h`, for specs about valid handles.
    pub open spec fn node(&self, h: usize) -> Node<T> {
        self@[h as int]->Some_0
    }

    pub fn new() -> (a: Arena<T>)
        ensures
            a.wf(),
            a@.len() == 0,
    {
        Arena { slots: Vec::new(), free: Vec::new() }
    }

    /// Stores `node`, recycling a free slot if one exists, and returns its
    /// handle.  Every other slot is untouched.
    pub fn allocate(&mut self, node: Node<T>) -> (h: usize)
        requires
            old(self).wf(),
        ensures
            final(self).wf(),
            final(self).valid(h),
            final(self).node(h) == node,
            old(self)@.len() <= final(self)@.len() <= old(self)@.len() + 1,
            forall|j: int|
                0 <= j < old(self)@.len() && j != h ==> final(self)@[j] == old(self)@[j],
            h < old(self)@.len() ==> old(self)@[h as int] is None
                && final(self)@.len() == old(self)@.len(),
            h >= old(self)@.len() ==> h == old(self)@.len()
                && final(self)@.len() == old(self)@.len() + 1,
    {
        match self.free.pop() {
            Some(i) => {
                self.slots.set(i, Some(node));
                assert forall|j: int|
                    0 <= j < self.free@.len() implies (#[trigger] self.free@[j])
                    < self.slots@.len() && self.slots@[self.free@[j] as int] is None by {
                    assert(old(self).free@[j] == self.free@[j]);
                    assert(old(self).free@[old(self).free@.len() - 1] == i);
                }
                i
            },
            None => {
                self.slots.push(Some(node));
                self.slots.len() - 1
            },
        }
    }

    /// Liveness-checked read: a copy of the node at `h`, or `InvalidHandle`
    /// if `h` does not refer to an occupied slot.
    pub fn get(&self, h: usize) -> (r: Result<Node<T>, CacheError>) where T: Copy
        ensures
            self.valid(h) ==> r == Ok::<Node<T>, CacheError>(self.node(h)),
            !self.valid(h) ==> r == Err::<Node<T>, CacheError>(CacheError::InvalidHandle),
    {
        if h < self.slots.len() {
            match &self.slots[h] {
                Some(n) => Ok(*n),
                None => Err(CacheError::InvalidHandle),
            }
        } else {
            Err(CacheError::InvalidHandle)
        }
    }

    /// Liveness-checked write: replaces the node at `h`.
    pub fn set(&mut self, h: usize, node: Node<T>) -> (r: Result<(), CacheError>)
        requires
            old(self).wf(),
        ensures
            final(self).wf(),
            old(self).valid(h) ==> r is Ok && final(self)@ == old(self)@.update(
                h as int,
                Some(node),
            ),
            !old(self).valid(h) ==> r == Err::<(), CacheError>(CacheError::InvalidHandle)
                && final(self)@ == old(self)@,
    {
        if h < self.slots.len() {
            match &self.slots[h] {
                Some(_) => {
                    self.slots.set(h, Some(node));
                    Ok(())
                },
                None => Err(CacheError::InvalidHandle),
            }
        } else {
            Err(CacheError::InvalidHandle)
        }
    }

    /// Marks the slot at `h` free and recycles its index.  Any later access
    /// through `h` fails until the slot is reallocated.
    pub fn free(&mut self, h: usize) -> (r: Result<(), CacheError>)
        requires
            old(self).wf(),
        ensures
            final(self).wf(),
            old(self).valid(h) ==> r is Ok && final(self)@ == old(self)@.update(h as int, None),
            !old(self).valid(h) ==> r == Err::<(), CacheError>(CacheError::InvalidHandle)
                && final(self)@ == old(self)@,
    {
        if h < self.slots.len() {
            match &self.slots[h] {
                Some(_) => {
                    self.slots.set(h, None);
                    self.free.push(h);
                    assert forall|j: int|
                        0 <= j < self.free@.len() implies (#[trigger] self.free@[j])
                        < self.slots@.len() && self.slots@[self.free@[j] as int] is None by {}
                    Ok(())
                },
                None => Err(CacheError::InvalidHandle),
            }
        } else {
            Err(CacheError::InvalidHandle)
        }
    }
}

} // verus!
