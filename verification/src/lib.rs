//! Allocation-free ordered key stores backed by a fixed-capacity slot pool.
//!
//! All node storage for a tree comes from a single fixed-capacity pool of
//! slots owned by the tree; no node is ever taken from a general-purpose
//! allocator after construction. Nodes are linked into a search tree through
//! parent/left/right slot indices stored inside the nodes themselves. Two
//! tree variants share the pool design: a plain binary search tree and a
//! red-black balanced tree that bounds its height logarithmically under
//! arbitrary insert and delete sequences.
//!
//! Every operation is synchronous and runs to completion on the caller's
//! thread. Mutation requires exclusive access (`&mut`), so the single-writer,
//! multi-reader exclusion contract is enforced by the borrow rules at the API
//! boundary; the trees perform no locking of their own.

use vstd::prelude::*;

pub mod bst;
pub mod rbt;
pub mod storage;

verus! {

/// Failure outcomes of tree operations. Every failing call leaves the tree
/// unchanged; no operation panics on well-formed input.
#[derive(Clone, Copy, Debug, PartialEq, Eq, Structural)]
pub enum Error {
    /// The slot pool was exhausted at allocation time.
    OutOfSpace,
    /// The key was absent on a delete that requires presence.
    NotFound,
    /// An insert found the key already present.
    AlreadyExists,
}

/// Round trip at the view level: for a key `k` not present, the view does
/// not contain `k`; after an insert of `d` under `k`, lookups of `k` see
/// exactly `d`; and a subsequent delete of `k` restores the original view,
/// so the element count returns to its pre-insert value.
pub proof fn lemma_round_trip<D>(m: Map<u64, D>, k: u64, d: D)
    requires
        !m.contains_key(k),
    ensures
        m.insert(k, d).contains_key(k),
        m.insert(k, d)[k] == d,
        m.insert(k, d).remove(k) == m,
{
    assert(m.insert(k, d).remove(k) =~= m);
}

/// The ordering-key capability for the contiguous sorted-slice baseline
/// structure: every storable payload exposes one ordering projection.
pub trait SortedSliceKey: Sized {
    /// The ordering projection of this payload.
    spec fn key_spec(&self) -> u64;

    /// Return the ordering projection.
    fn ordering_key(&self) -> (k: u64)
        ensures
            k == self.key_spec(),
    ;
}

impl SortedSliceKey for u64 {
    open spec fn key_spec(&self) -> u64 {
        *self
    }

    fn ordering_key(&self) -> (k: u64) {
        *self
    }
}

impl SortedSliceKey for u32 {
    open spec fn key_spec(&self) -> u64 {
        *self as u64
    }

    fn ordering_key(&self) -> (k: u64) {
        *self as u64
    }
}

/// A composite record demonstrating the ordering-key abstraction: the
/// comparison key is the derived `key` field, so two entries are equal for
/// tree purposes exactly when their keys are equal, whatever `value` holds.
#[derive(Clone, Copy, Debug, PartialEq, Eq, Structural)]
pub struct Entry {
    pub key: u64,
    pub value: u64,
}

impl crate::bst::BstKey for Entry {
    open spec fn key_spec(&self) -> u64 {
        self.key
    }

    fn ordering_key(&self) -> (k: u64) {
        self.key
    }
}

impl crate::rbt::RbtKey for Entry {
    open spec fn key_spec(&self) -> u64 {
        self.key
    }

    fn ordering_key(&self) -> (k: u64) {
        self.key
    }
}

impl SortedSliceKey for Entry {
    open spec fn key_spec(&self) -> u64 {
        self.key
    }

    fn ordering_key(&self) -> (k: u64) {
        self.key
    }
}

} // verus!

