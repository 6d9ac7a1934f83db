//! The buffers of the system: resources that are reached through a file. A
//! buffer is found by the location of its file, and a buffer without a file
//! gets a virtual location.

use vstd::prelude::*;
use crate::errno::Errno;
use crate::file::FileLocation;
use crate::id_allocator::IDAllocator;
use crate::registry::Registry;

verus! {

/// The number of virtual locations.
pub const VIRTUAL_IDS: u32 = 65536;

/// The buffers of the system, with the allocator of virtual locations. The
/// allocator is created when it is first needed.
pub struct Buffers<B> {
    /// The buffers by location.
    pub registry: Registry<B>,
    /// The allocator of the identifiers of virtual locations.
    pub id_allocator: Option<IDAllocator>,
}

impl<B> Buffers<B> {
    /// The registry is consistent, and so is the allocator if it exists,
    /// which then manages `VIRTUAL_IDS` identifiers.
    pub open spec fn wf(&self) -> bool {
        &&& self.registry.wf()
        &&& self.id_allocator matches Some(a) ==> a.wf() && a.spec_count() == VIRTUAL_IDS
    }

    /// Tells whether the virtual identifier `id` is used.
    pub open spec fn id_used(&self, id: u32) -> bool {
        self.id_allocator matches Some(a) && a.spec_is_used(id)
    }

    /// Creates the set of buffers, empty.
    pub fn new() -> (b: Buffers<B>)
        ensures
            b.wf(),
            b.id_allocator is None,
            forall|loc: FileLocation| !b.registry.contains(loc),
    {
        Buffers { registry: Registry::new(), id_allocator: None }
    }

    /// Creates the allocator of virtual identifiers if it does not exist yet.
    fn id_allocator_do(&mut self)
        requires
            old(self).wf(),
        ensures
            final(self).wf(),
            final(self).id_allocator is Some,
            final(self).registry == old(self).registry,
            forall|id: u32| #[trigger] final(self).id_used(id) == old(self).id_used(id),
            old(self).id_allocator is Some ==> final(self).id_allocator == old(self).id_allocator,
    {
        if self.id_allocator.is_none() {
            self.id_allocator = Some(IDAllocator::new(VIRTUAL_IDS));
        }
    }
}

/// Returns the handle of the buffer of the file at the location `loc`, if
/// one is registered.
pub fn get<B>(buffers: &Buffers<B>, loc: &FileLocation) -> (r: Option<usize>)
    requires
        buffers.wf(),
    ensures
        match r {
            Some(h) => buffers.registry.holds(h as int, *loc) && buffers.registry.handle_of(*loc)
                == h,
            None => !buffers.registry.contains(*loc),
        },
{
    buffers.registry.find(loc)
}

/// Returns the handle of the buffer of the file at the location `loc`. If
/// none is registered, `default` is registered for the location.
pub fn get_or_default<B>(buffers: &mut Buffers<B>, loc: &FileLocation, default: B) -> (r: Result<
    usize,
    Errno,
>)
    requires
        old(buffers).wf(),
    ensures
        final(buffers).wf(),
        final(buffers).id_allocator == old(buffers).id_allocator,
        r is Ok,
        old(buffers).registry.obtained(&final(buffers).registry, *loc, r->Ok_0 as int),
        !old(buffers).registry.contains(*loc) ==> final(buffers).registry.slots@[r->Ok_0 as int]->Some_0.resource
            == default,
{
    match buffers.registry.find(loc) {
        Some(h) => Ok(h),
        None => Ok(buffers.registry.insert(*loc, default)),
    }
}

/// Registers the buffer `buff`, and returns the location under which it is
/// registered.
///
/// With a location, the buffer is registered for it, in place of a buffer that
/// was; if the location is virtual, its identifier has to be in range and
/// counts as used from then on. Without a location, the buffer gets the
/// virtual location with the lowest free identifier. An identifier out of
/// range, or none left, is an invalid argument.
#[verifier::spinoff_prover]
#[verifier::rlimit(50)]
pub fn register<B>(buffers: &mut Buffers<B>, loc: Option<FileLocation>, buff: B) -> (r: Result<
    FileLocation,
    Errno,
>)
    requires
        old(buffers).wf(),
    ensures
        final(buffers).wf(),
        match r {
            Ok(l) => {
                &&& final(buffers).registry.contains(l)
                &&& final(buffers).registry.slots@[final(buffers).registry.handle_of(l)]->Some_0.resource
                    == buff
                &&& match loc {
                    Some(given) => l == given,
                    None => l matches FileLocation::Virtual { id } && !old(buffers).id_used(id)
                        && id < VIRTUAL_IDS && forall|j: u32|
                        j < id ==> #[trigger] old(buffers).id_used(j),
                }
                &&& forall|id: u32|
                    #[trigger] final(buffers).id_used(id) == (old(buffers).id_used(id) || l
                        == FileLocation::Virtual { id })
                &&& forall|other: FileLocation|
                    other != l ==> (#[trigger] final(buffers).registry.contains(other) == old(
                        buffers,
                    ).registry.contains(other))
            },
            Err(e) => {
                &&& e == Errno::InvalidArgument
                &&& final(buffers).registry == old(buffers).registry
                &&& forall|id: u32| #[trigger] final(buffers).id_used(id) == old(buffers).id_used(id)
                &&& match loc {
                    Some(given) => given matches FileLocation::Virtual { id } && id >= VIRTUAL_IDS,
                    None => forall|j: u32| j < VIRTUAL_IDS ==> #[trigger] old(buffers).id_used(j),
                }
            },
        },
{
    buffers.id_allocator_do();
    let ghost ready = *buffers;
    let l: FileLocation = match loc {
        Some(given) => {
            match given {
                FileLocation::Virtual { id } => {
                    let done: bool = match &mut buffers.id_allocator {
                        Some(a) => a.set_used(id),
                        None => false,
                    };
                    if !done {
                        return Err(Errno::InvalidArgument);
                    }
                },
                FileLocation::Filesystem { .. } => {},
            }
            given
        },
        None => {
            let allocated: Result<u32, Errno> = match &mut buffers.id_allocator {
                Some(a) => a.alloc_lowest(),
                None => Err(Errno::InvalidArgument),
            };
            match allocated {
                Ok(id) => FileLocation::Virtual { id },
                Err(e) => {
                    proof {
                        assert forall|j: u32| j < VIRTUAL_IDS implies #[trigger] old(
                            buffers,
                        ).id_used(j) by {
                            assert(ready.id_used(j));
                        }
                        assert forall|id: u32| #[trigger] buffers.id_used(id) == old(
                            buffers,
                        ).id_used(id) by {
                            assert(ready.id_used(id) == old(buffers).id_used(id));
                        }
                    }
                    return Err(e);
                },
            }
        },
    };
    proof {
        if loc is None {
            assert forall|j: u32| j < l->id implies #[trigger] old(buffers).id_used(j) by {
                assert(ready.id_used(j));
            }
            assert(ready.id_used(l->id) == old(buffers).id_used(l->id));
        }
    }
    let ghost allocator = buffers.id_allocator;
    let ghost before = buffers.registry;
    let _ = buffers.registry.remove(&l);
    let ghost middle = buffers.registry;
    let h: usize = buffers.registry.insert(l, buff);
    proof {
        assert(buffers.id_allocator == allocator);
        assert forall|id: u32|
            #[trigger] buffers.id_used(id) == (old(buffers).id_used(id) || l
                == FileLocation::Virtual { id }) by {
            assert(ready.id_used(id) == old(buffers).id_used(id));
        }
        assert(buffers.registry.holds(h as int, l));
        assert forall|other: FileLocation| other != l implies (
        #[trigger] buffers.registry.contains(other) == before.contains(other)) by {
            if before.contains(other) {
                let k = before.handle_of(other);
                assert(middle.holds(k, other));
                assert(buffers.registry.holds(k, other));
            }
            if buffers.registry.contains(other) {
                let k = buffers.registry.handle_of(other);
                assert(middle.holds(k, other));
                assert(before.holds(k, other));
            }
        }
    }
    Ok(l)
}

/// Frees the buffer of the file at the location `loc`, and the identifier
/// of the location if it is virtual. A location without a buffer is ignored.
#[verifier::spinoff_prover]
#[verifier::rlimit(50)]
pub fn release<B>(buffers: &mut Buffers<B>, loc: &FileLocation)
    requires
        old(buffers).wf(),
    ensures
        final(buffers).wf(),
        !final(buffers).registry.contains(*loc),
        final(buffers).registry.slots@ == if old(buffers).registry.contains(*loc) {
            old(buffers).registry.slots@.update(old(buffers).registry.handle_of(*loc), None)
        } else {
            old(buffers).registry.slots@
        },
        forall|id: u32|
            #[trigger] final(buffers).id_used(id) == (old(buffers).id_used(id) && *loc
                != FileLocation::Virtual { id }),
{
    let _ = buffers.registry.remove(loc);
    match loc {
        FileLocation::Virtual { id } => {
            match &mut buffers.id_allocator {
                Some(a) => {
                    a.free(*id);
                },
                None => {},
            }
        },
        FileLocation::Filesystem { .. } => {},
    }
}

} // verus!
