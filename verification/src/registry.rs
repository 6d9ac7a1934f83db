//! Registries of the resources that are bound to a file: the buffers of named
//! pipes and of sockets, each found by the location of its file.

use vstd::prelude::*;
use crate::file::FileLocation;

verus! {

/// A resource together with the location of the file that it is bound to.
pub struct Named<B> {
    /// The location of the file.
    pub location: FileLocation,
    /// The resource.
    pub resource: B,
}

/// A registry of resources by location. A resource keeps its slot for as long
/// as it is registered, so the number of the slot is a handle to it: two
/// holders of one handle reach the same resource.
pub struct Registry<B> {
    /// The slots; a free slot is empty.
    pub slots: Vec<Option<Named<B>>>,
}

impl<B> Registry<B> {
    /// No two slots hold a resource for the same location.
    pub open spec fn wf(&self) -> bool {
        forall|i: int, j: int|
            0 <= i < j < self.slots@.len() && (#[trigger] self.slots@[i]) is Some && (
            #[trigger] self.slots@[j]) is Some ==> self.slots@[i]->Some_0.location
                != self.slots@[j]->Some_0.location
    }

    /// Tells whether the slot `h` holds the resource of the location `loc`.
    pub open spec fn holds(&self, h: int, loc: FileLocation) -> bool {
        &&& 0 <= h < self.slots@.len()
        &&& self.slots@[h] is Some
        &&& self.slots@[h]->Some_0.location == loc
    }

    /// Tells whether a resource is registered for the location `loc`.
    pub open spec fn contains(&self, loc: FileLocation) -> bool {
        exists|h: int| self.holds(h, loc)
    }

    /// The handle of the resource of the location `loc`.
    pub open spec fn handle_of(&self, loc: FileLocation) -> int
        recommends
            self.contains(loc),
    {
        choose|h: int| self.holds(h, loc)
    }

    /// Tells whether `h` is the slot that a new resource goes to: the first
    /// free one, or a new one past the last where none is free.
    pub open spec fn is_first_free(&self, h: int) -> bool {
        &&& 0 <= h <= self.slots@.len()
        &&& h < self.slots@.len() ==> self.slots@[h] is None
        &&& forall|j: int| 0 <= j < h ==> (#[trigger] self.slots@[j]) is Some
    }

    /// Tells whether `post` is `self` with `entry` in the slot `h`, which was
    /// free or did not exist, and nothing else changed.
    pub open spec fn placed(&self, post: &Registry<B>, h: int, entry: Named<B>) -> bool {
        &&& self.is_first_free(h)
        &&& post.slots@ == if h < self.slots@.len() {
            self.slots@.update(h, Some(entry))
        } else {
            self.slots@.push(Some(entry))
        }
    }

    /// Tells whether `post` and `h` are what asking for the resource of the
    /// location `loc` gives: `h` is the handle of that resource in `post`, and
    /// `post` is the registry itself where the resource was registered, else
    /// the registry with a resource for `loc` in its first free slot.
    pub open spec fn obtained(&self, post: &Registry<B>, loc: FileLocation, h: int) -> bool {
        &&& post.holds(h, loc)
        &&& if self.contains(loc) {
            post == self
        } else {
            exists|resource: B| self.placed(post, h, Named { location: loc, resource })
        }
    }

    /// Asking twice for the resource of one location gives the same handle,
    /// and the second time the registry stays as it is: the two handles
    /// reach the same resource.
    #[verifier::spinoff_prover]
    #[verifier::rlimit(50)]
    pub proof fn lemma_obtained_twice(
        &self,
        second: &Registry<B>,
        third: &Registry<B>,
        loc: FileLocation,
        h1: int,
        h2: int,
    )
        requires
            self.wf(),
            self.obtained(second, loc, h1),
            second.obtained(third, loc, h2),
        ensures
            h1 == h2,
            third == second,
            third.slots@[h2] == second.slots@[h1],
    {
        assert(second.contains(loc));
        if !self.contains(loc) {
            assert forall|a: int, b: int|
                0 <= a < b < second.slots@.len() && (#[trigger] second.slots@[a]) is Some && (
                #[trigger] second.slots@[b]) is Some implies second.slots@[a]->Some_0.location
                != second.slots@[b]->Some_0.location by {
                if a == h1 {
                    assert(!self.holds(b, loc));
                } else if b == h1 {
                    assert(!self.holds(a, loc));
                } else {
                    assert(self.slots@[a] is Some && self.slots@[b] is Some);
                }
            }
        }
        second.lemma_handle_unique(h1, h2, loc);
    }

    /// In a consistent registry a location has one handle at most.
    pub proof fn lemma_handle_unique(&self, a: int, b: int, loc: FileLocation)
        requires
            self.wf(),
            self.holds(a, loc),
            self.holds(b, loc),
        ensures
            a == b,
            self.handle_of(loc) == a,
    {
        if a < b {
            assert(self.slots@[a]->Some_0.location != self.slots@[b]->Some_0.location);
        } else if b < a {
            assert(self.slots@[b]->Some_0.location != self.slots@[a]->Some_0.location);
        }
        let c = self.handle_of(loc);
        if a < c {
            assert(self.slots@[a]->Some_0.location != self.slots@[c]->Some_0.location);
        } else if c < a {
            assert(self.slots@[c]->Some_0.location != self.slots@[a]->Some_0.location);
        }
    }

    /// Creates an empty registry.
    pub fn new() -> (r: Registry<B>)
        ensures
            r.wf(),
            r.slots@.len() == 0,
            forall|loc: FileLocation| !r.contains(loc),
    {
        Registry { slots: Vec::new() }
    }

    /// Returns the handle of the resource of the location `loc`, if one is registered.
    pub fn find(&self, loc: &FileLocation) -> (r: Option<usize>)
        requires
            self.wf(),
        ensures
            match r {
                Some(h) => self.holds(h as int, *loc) && self.handle_of(*loc) == h,
                None => !self.contains(*loc),
            },
    {
        let mut i: usize = 0;
        while i < self.slots.len()
            invariant
                i <= self.slots@.len(),
                self.wf(),
                forall|j: int| 0 <= j < i ==> !self.holds(j, *loc),
            decreases self.slots.len() - i,
        {
            let hit: bool = match &self.slots[i] {
                Some(entry) => entry.location == *loc,
                None => false,
            };
            if hit {
                proof {
                    self.lemma_handle_unique(i as int, i as int, *loc);
                }
                return Some(i);
            }
            i += 1;
        }
        None
    }

    /// Registers `resource` for the location `loc`, for which nothing is
    /// registered yet, and returns its handle.
    #[verifier::spinoff_prover]
    #[verifier::rlimit(50)]
    pub fn insert(&mut self, loc: FileLocation, resource: B) -> (h: usize)
        requires
            old(self).wf(),
            !old(self).contains(loc),
        ensures
            final(self).wf(),
            final(self).holds(h as int, loc),
            final(self).handle_of(loc) == h,
            old(self).placed(final(self), h as int, Named { location: loc, resource }),
    {
        let entry = Named { location: loc, resource };
        let mut i: usize = 0;
        while i < self.slots.len() && self.slots[i].is_some()
            invariant
                i <= self.slots@.len(),
                self.slots == old(self).slots,
                forall|j: int| 0 <= j < i ==> (#[trigger] self.slots@[j]) is Some,
            decreases self.slots.len() - i,
        {
            i += 1;
        }
        if i < self.slots.len() {
            self.slots.set(i, Some(entry));
        } else {
            self.slots.push(Some(entry));
        }
        proof {
            assert forall|a: int, b: int|
                0 <= a < b < self.slots@.len() && (#[trigger] self.slots@[a]) is Some && (
                #[trigger] self.slots@[b]) is Some implies self.slots@[a]->Some_0.location
                != self.slots@[b]->Some_0.location by {
                if a == i {
                    assert(!old(self).holds(b, loc));
                } else if b == i {
                    assert(!old(self).holds(a, loc));
                } else {
                    assert(old(self).slots@[a] is Some && old(self).slots@[b] is Some);
                }
            }
            assert(self.holds(i as int, loc));
            self.lemma_handle_unique(i as int, i as int, loc);
        }
        i
    }

    /// Removes the resource of the location `loc`, and returns it. The other
    /// resources keep their handles.
    #[verifier::spinoff_prover]
    #[verifier::rlimit(50)]
    pub fn remove(&mut self, loc: &FileLocation) -> (r: Option<B>)
        requires
            old(self).wf(),
        ensures
            final(self).wf(),
            !final(self).contains(*loc),
            match r {
                Some(resource) => old(self).contains(*loc) && final(self).slots@ == old(
                    self,
                ).slots@.update(old(self).handle_of(*loc), None) && old(
                    self,
                ).slots@[old(self).handle_of(*loc)]->Some_0.resource == resource,
                None => !old(self).contains(*loc) && final(self).slots == old(self).slots,
            },
    {
        match self.find(loc) {
            Some(h) => {
                let mut taken: Option<Named<B>> = None;
                core::mem::swap(&mut self.slots[h], &mut taken);
                proof {
                    assert(self.slots@ =~= old(self).slots@.update(h as int, None));
                    assert forall|k: int| !self.holds(k, *loc) by {
                        if self.holds(k, *loc) {
                            assert(old(self).holds(k, *loc));
                            old(self).lemma_handle_unique(k, h as int, *loc);
                        }
                    }
                }
                match taken {
                    Some(entry) => Some(entry.resource),
                    None => None,
                }
            },
            None => None,
        }
    }

    /// The resource behind the handle `h`.
    pub open spec fn resource(&self, h: int) -> B
        recommends
            0 <= h < self.slots@.len(),
            self.slots@[h] is Some,
    {
        self.slots@[h]->Some_0.resource
    }

    /// Tells whether `post` is the registry `self` with the resource behind
    /// the handle `h` replaced by `resource`, at the same location, and
    /// nothing else changed.
    pub open spec fn updated(&self, post: &Registry<B>, h: int, resource: B) -> bool {
        &&& 0 <= h < self.slots@.len()
        &&& self.slots@[h] is Some
        &&& post.slots@ == self.slots@.update(
            h,
            Some(Named { location: self.slots@[h]->Some_0.location, resource }),
        )
    }

    /// A registry with a resource replaced is consistent, and finds every
    /// location where it was.
    pub proof fn lemma_updated(&self, post: &Registry<B>, h: int, resource: B)
        requires
            self.wf(),
            self.updated(post, h, resource),
        ensures
            post.wf(),
            forall|k: int, loc: FileLocation| #[trigger] post.holds(k, loc) == self.holds(k, loc),
    {
        assert forall|k: int, loc: FileLocation| #[trigger] post.holds(k, loc) == self.holds(
            k,
            loc,
        ) by {
            if 0 <= k < self.slots@.len() {
                if k != h {
                    assert(post.slots@[k] == self.slots@[k]);
                }
            }
        }
        assert forall|i: int, j: int|
            0 <= i < j < post.slots@.len() && (#[trigger] post.slots@[i]) is Some && (
            #[trigger] post.slots@[j]) is Some implies post.slots@[i]->Some_0.location
            != post.slots@[j]->Some_0.location by {
            assert(self.slots@[i] is Some && self.slots@[j] is Some);
            assert(post.slots@[i]->Some_0.location == self.slots@[i]->Some_0.location);
            assert(post.slots@[j]->Some_0.location == self.slots@[j]->Some_0.location);
        }
    }

    /// Two holders of the resource of one location share it: what one of
    /// them makes of the resource through its handle is what the other finds
    /// behind the handle that it obtains for the location.
    pub proof fn lemma_shared_resource(
        &self,
        second: &Registry<B>,
        third: &Registry<B>,
        fourth: &Registry<B>,
        loc: FileLocation,
        h1: int,
        h2: int,
        changed: B,
    )
        requires
            self.wf(),
            self.obtained(second, loc, h1),
            second.updated(third, h1, changed),
            third.obtained(fourth, loc, h2),
        ensures
            h2 == h1,
            fourth == third,
            fourth.resource(h2) == changed,
    {
        self.lemma_obtained_twice(second, second, loc, h1, h1);
        assert(second.wf()) by {
            if !self.contains(loc) {
                assert forall|a: int, b: int|
                    0 <= a < b < second.slots@.len() && (#[trigger] second.slots@[a]) is Some && (
                    #[trigger] second.slots@[b]) is Some implies second.slots@[a]->Some_0.location
                    != second.slots@[b]->Some_0.location by {
                    if a == h1 {
                        assert(!self.holds(b, loc));
                    } else if b == h1 {
                        assert(!self.holds(a, loc));
                    } else {
                        assert(self.slots@[a] is Some && self.slots@[b] is Some);
                    }
                }
            }
        }
        second.lemma_updated(third, h1, changed);
        assert(third.holds(h1, loc));
        third.lemma_handle_unique(h1, h2, loc);
    }

    /// Returns the resource behind the handle `h`, if the slot holds one.
    pub fn get(&self, h: usize) -> (r: Option<&B>)
        ensures
            match r {
                Some(resource) => h < self.slots@.len() && self.slots@[h as int] is Some
                    && self.slots@[h as int]->Some_0.resource == *resource,
                None => h >= self.slots@.len() || self.slots@[h as int] is None,
            },
    {
        if h >= self.slots.len() {
            return None;
        }
        match &self.slots[h] {
            Some(entry) => Some(&entry.resource),
            None => None,
        }
    }
}

} // verus!
