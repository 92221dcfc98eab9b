//! The slot pool: a fixed-capacity arena of node slots with an O(1)
//! free-index list.
//!
//! Every node of a tree lives in one slot of one pool; the pool is sized once
//! at construction and never grows. Slot indices are the stable node handles
//! that the tree's link fields store. The free-index list is kept in an
//! `arrayvec::ArrayVec`, a fixed-capacity vector that never reallocates.

use vstd::prelude::*;

use crate::Error;

verus! {

/// The largest capacity a pool can be built with. Slot indices are stored as
/// `u16` inside the free-index list, so a pool holds at most `2^16` slots.
pub const POOL_LIMIT: usize = 65536;

/// One fixed-size cell of the slot pool: an occupied flag plus room for one
/// node record. A vacant slot holds no record.
#[derive(Clone, Copy)]
pub struct Slot<T> {
    pub occupied: bool,
    pub node: Option<T>,
}

#[verifier::external_type_specification]
#[verifier::external_body]
#[verifier::reject_recursive_types(T)]
pub struct ExArrayVec<T, const CAP: usize>(arrayvec::ArrayVec<T, CAP>);

/// The sequence of indices currently held by a free-index list, oldest first.
pub uninterp spec fn free_list_view(v: arrayvec::ArrayVec<u16, POOL_LIMIT>) -> Seq<u16>;

/// Relies on `arrayvec::ArrayVec::new`: a newly created vector is empty.
#[verifier::external_body]
fn free_list_new() -> (r: arrayvec::ArrayVec<u16, POOL_LIMIT>)
    ensures
        free_list_view(r) == Seq::<u16>::empty(),
{
    arrayvec::ArrayVec::new()
}

/// Relies on `arrayvec::ArrayVec::push`: appends the element at the end of
/// the vector; it panics only when the vector is already full.
#[verifier::external_body]
fn free_list_push(v: &mut arrayvec::ArrayVec<u16, POOL_LIMIT>, x: u16)
    requires
        free_list_view(*old(v)).len() < POOL_LIMIT,
    ensures
        free_list_view(*final(v)) == free_list_view(*old(v)).push(x),
{
    v.push(x)
}

/// Relies on `arrayvec::ArrayVec::pop`: removes and returns the last element
/// of the vector, or returns `None` when the vector is empty.
#[verifier::external_body]
fn free_list_pop(v: &mut arrayvec::ArrayVec<u16, POOL_LIMIT>) -> (r: Option<u16>)
    ensures
        match r {
            Some(x) => free_list_view(*old(v)).len() > 0 && x == free_list_view(*old(v)).last()
                && free_list_view(*final(v)) == free_list_view(*old(v)).drop_last(),
            None => free_list_view(*old(v)).len() == 0 && free_list_view(*final(v))
                == free_list_view(*old(v)),
        },
{
    v.pop()
}

/// A fixed-capacity pool of node slots. Slots are handed out and reclaimed
/// in O(1) through the free-index list; the occupied flags always mark
/// exactly the slots that are not on that list, and `length` counts them.
pub struct Storage<T> {
    pub(crate) data: Vec<Slot<T>>,
    pub(crate) length: usize,
    pub(crate) free_indices: arrayvec::ArrayVec<u16, POOL_LIMIT>,
}

impl<T> Storage<T> {
    /// Storage consistency: the free-index list holds, without duplicates,
    /// exactly the indices of the vacant slots, and the occupied-slot count
    /// equals `length`.
    pub(crate) closed spec fn inv(self) -> bool {
        let fs = free_list_view(self.free_indices);
        &&& self.data@.len() <= POOL_LIMIT
        &&& self.length + fs.len() == self.data@.len()
        &&& (forall|a: int, b: int| 0 <= a < b < fs.len() ==> fs[a] != fs[b])
        &&& (forall|a: int| 0 <= a < fs.len() ==> (#[trigger] fs[a]) < self.data@.len())
        &&& (forall|j: int|
            0 <= j < self.data@.len() ==> (!(#[trigger] self.data@[j]).occupied <==> fs.contains(
                j as u16,
            )))
    }

    /// Create a pool of `capacity` vacant slots whose free-index list holds
    /// every index.
    pub(crate) fn new(capacity: usize) -> (r: Self)
        requires
            capacity <= POOL_LIMIT,
        ensures
            r.inv(),
            r.data@.len() == capacity,
            r.length == 0,
            forall|j: int| 0 <= j < capacity ==> !(#[trigger] r.data@[j]).occupied,
    {
        let mut data: Vec<Slot<T>> = Vec::new();
        let mut i: usize = 0;
        while i < capacity
            invariant
                i <= capacity,
                data@.len() == i,
                forall|j: int| 0 <= j < i ==> !(#[trigger] data@[j]).occupied,
            decreases capacity - i,
        {
            data.push(Slot { occupied: false, node: None });
            i = i + 1;
        }
        let mut free_indices = free_list_new();
        let mut k: usize = 0;
        while k < capacity
            invariant
                k <= capacity,
                capacity <= POOL_LIMIT,
                free_list_view(free_indices) =~= Seq::new(k as nat, |t: int| t as u16),
            decreases capacity - k,
        {
            free_list_push(&mut free_indices, k as u16);
            proof {
                assert(free_list_view(free_indices) =~= Seq::new((k + 1) as nat, |t: int| t as u16));
            }
            k = k + 1;
        }
        let r = Storage { data, length: 0, free_indices };
        proof {
            let fs = free_list_view(r.free_indices);
            assert forall|j: int| 0 <= j < r.data@.len() implies #[trigger] fs.contains(j as u16) by {
                assert(fs[j] == j as u16);
            }
        }
        r
    }

    /// Pop a free slot and write `node` into it, or fail with `OutOfSpace`
    /// when every slot is occupied.
    pub(crate) fn add(&mut self, node: T) -> (r: Result<usize, Error>)
        requires
            old(self).inv(),
        ensures
            final(self).inv(),
            final(self).data@.len() == old(self).data@.len(),
            match r {
                Ok(i) => old(self).length < old(self).data@.len() && final(self).length == old(
                    self,
                ).length + 1 && i < old(self).data@.len() && !old(self).data@[i as int].occupied
                    && final(self).data@ == old(self).data@.update(
                    i as int,
                    Slot { occupied: true, node: Some(node) },
                ),
                Err(e) => e == Error::OutOfSpace && old(self).length == old(self).data@.len()
                    && final(self).data@ == old(self).data@ && final(self).length == old(
                    self,
                ).length,
            },
    {
        let ghost fs = free_list_view(self.free_indices);
        match free_list_pop(&mut self.free_indices) {
            Some(idx16) => {
                let i = idx16 as usize;
                proof {
                    assert(fs[fs.len() - 1] == idx16);
                    assert(fs.contains(i as u16));
                    assert(!self.data@[i as int].occupied);
                }
                self.data[i] = Slot { occupied: true, node: Some(node) };
                self.length = self.length + 1;
                proof {
                    let fs2 = free_list_view(self.free_indices);
                    assert forall|j: int|
                        0 <= j < self.data@.len() implies (!(#[trigger] self.data@[j]).occupied
                        <==> fs2.contains(j as u16)) by {
                        if j == i as int {
                            if fs2.contains(j as u16) {
                                let a = choose|a: int|
                                    0 <= a < fs2.len() && fs2[a] == j as u16;
                                assert(fs[a] == fs[fs.len() - 1]);
                                assert(false);
                            }
                        } else {
                            if fs.contains(j as u16) {
                                let a = choose|a: int| 0 <= a < fs.len() && fs[a] == j as u16;
                                assert(a != fs.len() - 1);
                                assert(fs2[a] == j as u16);
                            }
                            if fs2.contains(j as u16) {
                                let a = choose|a: int|
                                    0 <= a < fs2.len() && fs2[a] == j as u16;
                                assert(fs[a] == j as u16);
                            }
                        }
                    }
                }
                Ok(i)
            },
            None => Err(Error::OutOfSpace),
        }
    }

    /// Mark slot `i` vacant, clear its record, and return the index to the
    /// free list. The caller must already have unlinked the node held there.
    pub(crate) fn release(&mut self, i: usize)
        requires
            old(self).inv(),
            i < old(self).data@.len(),
            old(self).data@[i as int].occupied,
            old(self).length >= 1,
        ensures
            final(self).inv(),
            final(self).data@ == old(self).data@.update(
                i as int,
                Slot { occupied: false, node: None },
            ),
            final(self).length == old(self).length - 1,
    {
        let ghost fs = free_list_view(self.free_indices);
        proof {
            assert(!fs.contains(i as u16));
        }
        self.data[i] = Slot { occupied: false, node: None };
        self.length = self.length - 1;
        free_list_push(&mut self.free_indices, i as u16);
        proof {
            let fs2 = free_list_view(self.free_indices);
            assert(fs2 =~= fs.push(i as u16));
            assert forall|j: int|
                0 <= j < self.data@.len() implies (!(#[trigger] self.data@[j]).occupied
                <==> fs2.contains(j as u16)) by {
                if j == i as int {
                    assert(fs2[fs2.len() - 1] == j as u16);
                } else {
                    if fs.contains(j as u16) {
                        let a = choose|a: int| 0 <= a < fs.len() && fs[a] == j as u16;
                        assert(fs2[a] == j as u16);
                    }
                    if fs2.contains(j as u16) {
                        let a = choose|a: int| 0 <= a < fs2.len() && fs2[a] == j as u16;
                        assert(a < fs.len());
                        assert(fs[a] == j as u16);
                    }
                }
            }
        }
    }

    /// Overwrite the record held in the occupied slot `i`. Link surgery in
    /// the trees goes through here so that storage consistency is preserved.
    pub(crate) fn set_slot(&mut self, i: usize, s: Slot<T>)
        requires
            old(self).inv(),
            i < old(self).data@.len(),
            old(self).data@[i as int].occupied,
            s.occupied,
        ensures
            final(self).inv(),
            final(self).length == old(self).length,
            final(self).data@ == old(self).data@.update(i as int, s),
    {
        self.data[i] = s;
    }

    /// The occupied count never exceeds the pool capacity.
    pub(crate) proof fn lemma_len_le_capacity(self)
        requires
            self.inv(),
        ensures
            self.length <= self.data@.len(),
    {
    }

    /// The number of occupied slots.
    pub(crate) fn len(&self) -> (r: usize)
        ensures
            r == self.length,
    {
        self.length
    }
}

} // verus!
