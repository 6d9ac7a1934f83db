//! An allocator of identifiers out of a fixed range.

use vstd::prelude::*;
use crate::bitfield::Bitfield;
use crate::errno::Errno;

verus! {

/// An allocator of the identifiers `0` up to a limit. An identifier is
/// either used or free.
pub struct IDAllocator {
    /// One bit for each identifier, set while the identifier is used.
    pub used: Bitfield,
}

impl IDAllocator {
    /// The allocator is consistent, and its identifiers fit in 32 bits.
    pub open spec fn wf(&self) -> bool {
        self.used.wf() && self.used@.len() <= u32::MAX
    }

    /// The number of identifiers that the allocator manages.
    pub open spec fn spec_count(&self) -> nat {
        self.used@.len()
    }

    /// Tells whether the identifier `id` is used. An identifier out of range
    /// is not.
    pub open spec fn spec_is_used(&self, id: u32) -> bool {
        id < self.used@.len() && self.used@[id as int]
    }

    /// Tells whether `post` is the allocator `self` with the identifier `id`
    /// used or free as `used` says, and every other identifier as it was.
    pub open spec fn changed(&self, post: &IDAllocator, id: u32, used: bool) -> bool {
        &&& post.spec_count() == self.spec_count()
        &&& post.spec_is_used(id) == used
        &&& forall|j: u32| j != id ==> #[trigger] post.spec_is_used(j) == self.spec_is_used(j)
    }

    /// Creates an allocator of the identifiers below `count`, all free.
    pub fn new(count: u32) -> (a: IDAllocator)
        ensures
            a.wf(),
            a.spec_count() == count,
            forall|id: u32| !#[trigger] a.spec_is_used(id),
    {
        let used: Bitfield = Bitfield::new(count as usize).unwrap();
        IDAllocator { used }
    }

    /// Tells whether the identifier `id` is used.
    pub fn is_used(&self, id: u32) -> (b: bool)
        requires
            self.wf(),
        ensures
            b == self.spec_is_used(id),
    {
        (id as usize) < self.used.len() && self.used.is_set(id as usize)
    }

    /// Marks the identifier `id` as used. Tells whether the identifier is in range.
    pub fn set_used(&mut self, id: u32) -> (done: bool)
        requires
            old(self).wf(),
        ensures
            final(self).wf(),
            done == (id < old(self).spec_count()),
            done ==> old(self).changed(final(self), id, true),
            !done ==> *final(self) == *old(self),
    {
        if (id as usize) < self.used.len() {
            self.used.set(id as usize);
            true
        } else {
            false
        }
    }

    /// Allocates the lowest free identifier. Without a free identifier the
    /// argument is refused.
    pub fn alloc_lowest(&mut self) -> (r: Result<u32, Errno>)
        requires
            old(self).wf(),
        ensures
            final(self).wf(),
            match r {
                Ok(id) => {
                    &&& id < old(self).spec_count()
                    &&& !old(self).spec_is_used(id)
                    &&& forall|j: u32| j < id ==> #[trigger] old(self).spec_is_used(j)
                    &&& old(self).changed(final(self), id, true)
                },
                Err(e) => {
                    &&& e == Errno::InvalidArgument
                    &&& forall|j: u32| j < old(self).spec_count() ==> #[trigger] old(
                        self,
                    ).spec_is_used(j)
                    &&& *final(self) == *old(self)
                },
            },
    {
        let n: usize = self.used.len();
        let mut i: usize = 0;
        while i < n && self.used.is_set(i)
            invariant
                i <= n,
                n == self.used@.len(),
                *self == *old(self),
                self.wf(),
                forall|j: u32| j < i ==> #[trigger] self.spec_is_used(j),
            decreases n - i,
        {
            i += 1;
        }
        if i < n {
            self.used.set(i);
            Ok(i as u32)
        } else {
            Err(Errno::InvalidArgument)
        }
    }

    /// Frees the identifier `id`. An identifier out of range is ignored.
    pub fn free(&mut self, id: u32)
        requires
            old(self).wf(),
        ensures
            final(self).wf(),
            id < old(self).spec_count() ==> old(self).changed(final(self), id, false),
            id >= old(self).spec_count() ==> *final(self) == *old(self),
    {
        if (id as usize) < self.used.len() {
            self.used.clear(id as usize);
        }
    }
}

} // verus!
