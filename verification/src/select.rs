//! Waiting for file descriptors to become ready: the sets of descriptors,
//! and what one pass over them records.

use vstd::prelude::*;
use crate::bitfield::Bitfield;
use crate::device::POLLIN;
use crate::device::POLLOUT;
use crate::device::POLLPRI;
use crate::errno::Errno;

verus! {

/// The number of file descriptors in a set.
pub const FD_SETSIZE: usize = 1024;

/// A set of file descriptors.
pub struct FDSet {
    /// One bit for each descriptor, set while the descriptor is in the set.
    pub bits: Bitfield,
}

impl View for FDSet {
    type V = Seq<bool>;

    /// For each descriptor, whether it is in the set.
    open spec fn view(&self) -> Seq<bool> {
        self.bits@
    }
}

impl FDSet {
    /// The set has a bit for each of `FD_SETSIZE` descriptors.
    pub open spec fn wf(&self) -> bool {
        self.bits.wf() && self.bits@.len() == FD_SETSIZE
    }

    /// Tells whether the descriptor `fd` is in the set.
    pub open spec fn spec_is_set(&self, fd: u32) -> bool {
        fd < FD_SETSIZE && self@[fd as int]
    }

    /// Creates an empty set.
    pub fn new() -> (s: FDSet)
        ensures
            s.wf(),
            forall|fd: u32| !#[trigger] s.spec_is_set(fd),
    {
        FDSet { bits: Bitfield::new(FD_SETSIZE).unwrap() }
    }

    /// Tells whether the file descriptor `fd` is in the set. A descriptor
    /// that the set has no bit for is not.
    pub fn is_set(&self, fd: u32) -> (b: bool)
        requires
            self.wf(),
        ensures
            b == self.spec_is_set(fd),
    {
        if fd as usize >= FD_SETSIZE {
            return false;
        }
        self.bits.is_set(fd as usize)
    }

    /// Puts the file descriptor `fd` in the set. A descriptor that the set
    /// has no bit for is ignored.
    pub fn set(&mut self, fd: u32)
        requires
            old(self).wf(),
        ensures
            final(self).wf(),
            final(self)@ == if fd < FD_SETSIZE {
                old(self)@.update(fd as int, true)
            } else {
                old(self)@
            },
    {
        if (fd as usize) < FD_SETSIZE {
            self.bits.set(fd as usize);
        }
    }

    /// Takes the file descriptor `fd` out of the set. A descriptor that the
    /// set has no bit for is ignored.
    pub fn clear(&mut self, fd: u32)
        requires
            old(self).wf(),
        ensures
            final(self).wf(),
            final(self)@ == if fd < FD_SETSIZE {
                old(self)@.update(fd as int, false)
            } else {
                old(self)@
            },
    {
        if (fd as usize) < FD_SETSIZE {
            self.bits.clear(fd as usize);
        }
    }
}

/// What a process asks about a file descriptor.
pub struct Interest {
    /// Whether the descriptor is watched for reading.
    pub read: bool,
    /// Whether the descriptor is watched for writing.
    pub write: bool,
    /// Whether the descriptor is watched for exceptional conditions.
    pub except: bool,
}

impl Interest {
    /// Tells whether the descriptor is watched at all.
    pub open spec fn any(self) -> bool {
        self.read || self.write || self.except
    }

    /// The events to poll the descriptor for.
    pub open spec fn mask(self) -> u32 {
        (if self.read {
            POLLIN
        } else {
            0u32
        }) | (if self.write {
            POLLOUT
        } else {
            0u32
        }) | (if self.except {
            POLLPRI
        } else {
            0u32
        })
    }

    /// Returns the events to poll the descriptor for.
    pub fn get_mask(&self) -> (m: u32)
        ensures
            m == self.mask(),
    {
        let mut mask: u32 = 0;
        if self.read {
            mask = mask | POLLIN;
        }
        if self.write {
            mask = mask | POLLOUT;
        }
        if self.except {
            mask = mask | POLLPRI;
        }
        assert(0u32 | 0u32 | 0u32 == 0u32) by (bit_vector);
        assert(forall|a: u32| #[trigger] (0u32 | a) == a) by (bit_vector);
        assert(forall|a: u32| #[trigger] (a | 0u32) == a) by (bit_vector);
        mask
    }
}

/// Whether an optional set holds a descriptor: a set that is not given holds none.
pub open spec fn in_set(set: Option<FDSet>, fd: u32) -> bool {
    set matches Some(s) && s.spec_is_set(fd)
}

/// Tells what the process asks about the descriptor `fd` in its three sets.
pub fn interest(
    readfds: &Option<FDSet>,
    writefds: &Option<FDSet>,
    exceptfds: &Option<FDSet>,
    fd: u32,
) -> (i: Interest)
    requires
        readfds matches Some(s) ==> s.wf(),
        writefds matches Some(s) ==> s.wf(),
        exceptfds matches Some(s) ==> s.wf(),
    ensures
        i.read == in_set(*readfds, fd),
        i.write == in_set(*writefds, fd),
        i.except == in_set(*exceptfds, fd),
{
    let read: bool = match readfds {
        Some(s) => s.is_set(fd),
        None => false,
    };
    let write: bool = match writefds {
        Some(s) => s.is_set(fd),
        None => false,
    };
    let except: bool = match exceptfds {
        Some(s) => s.is_set(fd),
        None => false,
    };
    Interest { read, write, except }
}

/// The view of an optional set after the result of polling the descriptor
/// `fd` was recorded in it: the descriptor is in the set if it was watched
/// and the event is pending, and out of it otherwise.
pub open spec fn recorded(set: Option<Seq<bool>>, fd: u32, ready: bool) -> Option<Seq<bool>> {
    match set {
        Some(s) => if fd < FD_SETSIZE {
            Some(s.update(fd as int, ready))
        } else {
            Some(s)
        },
        None => None,
    }
}

/// The view of an optional set.
pub open spec fn set_view(set: Option<FDSet>) -> Option<Seq<bool>> {
    match set {
        Some(s) => Some(s@),
        None => None,
    }
}

/// Records in an optional set whether the descriptor `fd` is ready.
fn record_in(set: &mut Option<FDSet>, fd: u32, ready: bool)
    requires
        *old(set) matches Some(s) ==> s.wf(),
    ensures
        *final(set) matches Some(s) ==> s.wf(),
        set_view(*final(set)) == recorded(set_view(*old(set)), fd, ready),
{
    match set {
        Some(s) => {
            if ready {
                s.set(fd);
            } else {
                s.clear(fd);
            }
        },
        None => {},
    }
}

/// The number of events that the result `result` of polling a descriptor
/// holds among those that `asked` watches it for.
pub open spec fn events_of(asked: Interest, result: u32) -> int {
    (if asked.read && result & POLLIN != 0 {
        1int
    } else {
        0int
    }) + (if asked.write && result & POLLOUT != 0 {
        1int
    } else {
        0int
    }) + (if asked.except && result & POLLPRI != 0 {
        1int
    } else {
        0int
    })
}

/// Records the result `result` of polling the descriptor `fd` in the three
/// sets: in each, the descriptor stays if it was watched and the event is
/// pending. Returns the number of pending events.
#[verifier::spinoff_prover]
#[verifier::rlimit(50)]
pub fn record(
    readfds: &mut Option<FDSet>,
    writefds: &mut Option<FDSet>,
    exceptfds: &mut Option<FDSet>,
    fd: u32,
    result: u32,
) -> (events: u32)
    requires
        *old(readfds) matches Some(s) ==> s.wf(),
        *old(writefds) matches Some(s) ==> s.wf(),
        *old(exceptfds) matches Some(s) ==> s.wf(),
    ensures
        *final(readfds) matches Some(s) ==> s.wf(),
        *final(writefds) matches Some(s) ==> s.wf(),
        *final(exceptfds) matches Some(s) ==> s.wf(),
        set_view(*final(readfds)) == recorded(
            set_view(*old(readfds)),
            fd,
            in_set(*old(readfds), fd) && result & POLLIN != 0,
        ),
        set_view(*final(writefds)) == recorded(
            set_view(*old(writefds)),
            fd,
            in_set(*old(writefds), fd) && result & POLLOUT != 0,
        ),
        set_view(*final(exceptfds)) == recorded(
            set_view(*old(exceptfds)),
            fd,
            in_set(*old(exceptfds), fd) && result & POLLPRI != 0,
        ),
        events == events_of(
            Interest {
                read: in_set(*old(readfds), fd),
                write: in_set(*old(writefds), fd),
                except: in_set(*old(exceptfds), fd),
            },
            result,
        ),
{
    let asked: Interest = interest(readfds, writefds, exceptfds, fd);
    let mut events: u32 = 0;
    let read_ready: bool = asked.read && result & POLLIN != 0;
    record_in(readfds, fd, read_ready);
    if read_ready {
        events += 1;
    }
    let write_ready: bool = asked.write && result & POLLOUT != 0;
    record_in(writefds, fd, write_ready);
    if write_ready {
        events += 1;
    }
    let except_ready: bool = asked.except && result & POLLPRI != 0;
    record_in(exceptfds, fd, except_ready);
    if except_ready {
        events += 1;
    }
    events
}

/// What comes of one pass over the descriptors.
#[derive(Clone, Copy, Debug, PartialEq, Eq, Structural)]
pub enum Verdict {
    /// The call returns this number.
    Return(i32),
    /// Nothing is ready yet and time is left: another pass is due.
    Wait,
}

/// Decides after a pass over the descriptors whether the call returns.
///
/// It returns the number of events if no descriptor is watched, if the call
/// only polls, or if an event is pending. Else it returns 0 once the time
/// `now` has reached `end`, and waits before that.
pub fn after_pass(all_zeros: bool, polling: bool, events_count: i32, now: u64, end: u64) -> (v:
    Verdict)
    ensures
        v == if all_zeros || polling || events_count > 0 {
            Verdict::Return(events_count)
        } else if now >= end {
            Verdict::Return(0)
        } else {
            Verdict::Wait
        },
{
    if all_zeros || polling || events_count > 0 {
        return Verdict::Return(events_count);
    }
    if now >= end {
        return Verdict::Return(0);
    }
    Verdict::Wait
}

/// What polling a file descriptor gave.
#[derive(Clone, Copy, Debug, PartialEq, Eq, Structural)]
pub enum Polled {
    /// The process has no such descriptor.
    Closed,
    /// The events that are pending.
    Ready(u32),
    /// Polling failed.
    Failed(Errno),
}

/// The state of a pass over the descriptors.
pub struct PassView {
    /// The set watched for reading.
    pub readfds: Option<Seq<bool>>,
    /// The set watched for writing.
    pub writefds: Option<Seq<bool>>,
    /// The set watched for exceptional conditions.
    pub exceptfds: Option<Seq<bool>>,
    /// The number of pending events found.
    pub events_count: int,
    /// Whether no descriptor seen was watched.
    pub all_zeros: bool,
}

/// Whether a set as a value holds a descriptor.
pub open spec fn holds(set: Option<Seq<bool>>, fd: u32) -> bool {
    set matches Some(s) && fd < FD_SETSIZE && fd < s.len() && s[fd as int]
}

/// The pass after the descriptor `fd` was dealt with, or the error that
/// ends the call at that descriptor.
///
/// A descriptor that the process does not have is an error if it is
/// watched, and passed over if not. A descriptor whose polling fails ends the
/// call with that error. Else what was polled is recorded in the three sets
/// and the pending events are counted.
pub open spec fn pass_step(pass: PassView, fd: u32, polled: Polled) -> Result<PassView, Errno> {
    let asked = Interest {
        read: holds(pass.readfds, fd),
        write: holds(pass.writefds, fd),
        except: holds(pass.exceptfds, fd),
    };
    let all_zeros = pass.all_zeros && !asked.any();
    match polled {
        Polled::Closed => if asked.any() {
            Err(Errno::BadDescriptor)
        } else {
            Ok(PassView { all_zeros, ..pass })
        },
        Polled::Failed(e) => Err(e),
        Polled::Ready(result) => Ok(
            PassView {
                readfds: recorded(pass.readfds, fd, asked.read && result & POLLIN != 0),
                writefds: recorded(pass.writefds, fd, asked.write && result & POLLOUT != 0),
                exceptfds: recorded(pass.exceptfds, fd, asked.except && result & POLLPRI != 0),
                events_count: pass.events_count + events_of(asked, result),
                all_zeros,
            },
        ),
    }
}

/// The pass after the first `n` descriptors were dealt with, given what
/// polling each of them gave, or the first error.
pub open spec fn pass_upto(start: PassView, polled: Seq<Polled>, n: nat) -> Result<PassView, Errno>
    decreases n,
{
    if n == 0 {
        Ok(start)
    } else {
        match pass_upto(start, polled, (n - 1) as nat) {
            Err(e) => Err(e),
            Ok(pass) => pass_step(pass, (n - 1) as u32, polled[n - 1]),
        }
    }
}

/// What a pass over the descriptors found.
pub struct Pass {
    /// The number of pending events found.
    pub events_count: i32,
    /// Whether no descriptor was watched.
    pub all_zeros: bool,
}

/// The state of a pass as the three sets and the counts of the pass give it.
pub open spec fn pass_view(
    readfds: Option<FDSet>,
    writefds: Option<FDSet>,
    exceptfds: Option<FDSet>,
    pass: Pass,
) -> PassView {
    PassView {
        readfds: set_view(readfds),
        writefds: set_view(writefds),
        exceptfds: set_view(exceptfds),
        events_count: pass.events_count as int,
        all_zeros: pass.all_zeros,
    }
}

/// Deals with the descriptor `fd` in a pass, given what polling it gave.
///
/// A descriptor that the process does not have is an error if it is
/// watched, and passed over if not. A descriptor whose polling failed ends
/// the pass with that error. On an error the sets and the counts stay as
/// they are. Else what was polled is recorded in the three sets and the
/// pending events are counted.
pub fn pass_descriptor(
    fd: u32,
    readfds: &mut Option<FDSet>,
    writefds: &mut Option<FDSet>,
    exceptfds: &mut Option<FDSet>,
    pass: &mut Pass,
    polled: Polled,
) -> (r: Result<(), Errno>)
    requires
        *old(readfds) matches Some(s) ==> s.wf(),
        *old(writefds) matches Some(s) ==> s.wf(),
        *old(exceptfds) matches Some(s) ==> s.wf(),
        fd < FD_SETSIZE,
        0 <= old(pass).events_count <= i32::MAX - 3,
    ensures
        *final(readfds) matches Some(s) ==> s.wf(),
        *final(writefds) matches Some(s) ==> s.wf(),
        *final(exceptfds) matches Some(s) ==> s.wf(),
        old(pass).events_count <= final(pass).events_count <= old(pass).events_count + 3,
        match pass_step(
            pass_view(*old(readfds), *old(writefds), *old(exceptfds), *old(pass)),
            fd,
            polled,
        ) {
            Ok(next) => r is Ok && pass_view(
                *final(readfds),
                *final(writefds),
                *final(exceptfds),
                *final(pass),
            ) == next,
            Err(e) => r == Err::<(), Errno>(e) && *final(readfds) == *old(readfds) && *final(writefds)
                == *old(writefds) && *final(exceptfds) == *old(exceptfds) && *final(pass) == *old(
                pass,
            ),
        },
{
    let asked: Interest = interest(readfds, writefds, exceptfds, fd);
    let watched: bool = asked.read || asked.write || asked.except;
    proof {
        let here = pass_view(*readfds, *writefds, *exceptfds, *pass);
        assert(holds(here.readfds, fd) == asked.read);
        assert(holds(here.writefds, fd) == asked.write);
        assert(holds(here.exceptfds, fd) == asked.except);
    }
    match polled {
        Polled::Closed => {
            if watched {
                return Err(Errno::BadDescriptor);
            }
        },
        Polled::Failed(e) => {
            return Err(e);
        },
        Polled::Ready(result) => {
            let events: u32 = record(readfds, writefds, exceptfds, fd, result);
            pass.events_count = pass.events_count + events as i32;
        },
    }
    if watched {
        pass.all_zeros = false;
    }
    Ok(())
}

/// Tells whether a pass stopped with the error `e` at the descriptor `n`,
/// with the three sets as given.
pub open spec fn stopped_at(
    start: PassView,
    polled: Seq<Polled>,
    n: nat,
    readfds: Option<Seq<bool>>,
    writefds: Option<Seq<bool>>,
    exceptfds: Option<Seq<bool>>,
    e: Errno,
) -> bool {
    pass_upto(start, polled, n) matches Ok(pass) && pass.readfds == readfds && pass.writefds
        == writefds && pass.exceptfds == exceptfds && pass_step(pass, n as u32, polled[n as int])
        == Err::<PassView, Errno>(e)
}

/// Makes one pass over the descriptors below `nfds`, and below
/// `FD_SETSIZE`, given for each of them what polling it gave: records in the
/// three sets which watched descriptors are ready, and counts the events.
/// The first watched descriptor that the process does not have, or whose
/// polling failed, ends the pass with its error, and the sets stay as the
/// descriptors before it left them.
#[verifier::spinoff_prover]
#[verifier::rlimit(50)]
pub fn do_select(
    nfds: u32,
    readfds: &mut Option<FDSet>,
    writefds: &mut Option<FDSet>,
    exceptfds: &mut Option<FDSet>,
    polled: &Vec<Polled>,
) -> (r: Result<Pass, Errno>)
    requires
        *old(readfds) matches Some(s) ==> s.wf(),
        *old(writefds) matches Some(s) ==> s.wf(),
        *old(exceptfds) matches Some(s) ==> s.wf(),
        polled@.len() >= spec_limit(nfds),
    ensures
        *final(readfds) matches Some(s) ==> s.wf(),
        *final(writefds) matches Some(s) ==> s.wf(),
        *final(exceptfds) matches Some(s) ==> s.wf(),
        match r {
            Ok(pass) => pass_upto(
                PassView {
                    readfds: set_view(*old(readfds)),
                    writefds: set_view(*old(writefds)),
                    exceptfds: set_view(*old(exceptfds)),
                    events_count: 0,
                    all_zeros: true,
                },
                polled@,
                spec_limit(nfds),
            ) == Ok::<PassView, Errno>(
                pass_view(*final(readfds), *final(writefds), *final(exceptfds), pass),
            ),
            Err(e) => pass_upto(
                PassView {
                    readfds: set_view(*old(readfds)),
                    writefds: set_view(*old(writefds)),
                    exceptfds: set_view(*old(exceptfds)),
                    events_count: 0,
                    all_zeros: true,
                },
                polled@,
                spec_limit(nfds),
            ) == Err::<PassView, Errno>(e) && exists|n: nat|
                n < spec_limit(nfds) && #[trigger] stopped_at(
                    PassView {
                        readfds: set_view(*old(readfds)),
                        writefds: set_view(*old(writefds)),
                        exceptfds: set_view(*old(exceptfds)),
                        events_count: 0,
                        all_zeros: true,
                    },
                    polled@,
                    n,
                    set_view(*final(readfds)),
                    set_view(*final(writefds)),
                    set_view(*final(exceptfds)),
                    e,
                ),
        },
{
    let limit: u32 = if nfds < FD_SETSIZE as u32 {
        nfds
    } else {
        FD_SETSIZE as u32
    };
    let ghost start = PassView {
        readfds: set_view(*readfds),
        writefds: set_view(*writefds),
        exceptfds: set_view(*exceptfds),
        events_count: 0,
        all_zeros: true,
    };
    let mut pass = Pass { events_count: 0, all_zeros: true };
    let mut fd: u32 = 0;
    while fd < limit
        invariant
            fd <= limit <= FD_SETSIZE,
            limit == spec_limit(nfds),
            polled@.len() >= limit,
            0 <= pass.events_count <= 3 * fd,
            start == (PassView {
                readfds: set_view(*old(readfds)),
                writefds: set_view(*old(writefds)),
                exceptfds: set_view(*old(exceptfds)),
                events_count: 0,
                all_zeros: true,
            }),
            *readfds matches Some(s) ==> s.wf(),
            *writefds matches Some(s) ==> s.wf(),
            *exceptfds matches Some(s) ==> s.wf(),
            pass_upto(start, polled@, fd as nat) == Ok::<PassView, Errno>(
                pass_view(*readfds, *writefds, *exceptfds, pass),
            ),
        decreases limit - fd,
    {
        let ghost here = pass_view(*readfds, *writefds, *exceptfds, pass);
        proof {
            assert(pass_upto(start, polled@, (fd + 1) as nat) == pass_step(
                here,
                fd,
                polled@[fd as int],
            ));
        }
        match pass_descriptor(fd, readfds, writefds, exceptfds, &mut pass, polled[fd as usize]) {
            Ok(_) => {},
            Err(e) => {
                proof {
                    lemma_pass_error(start, polled@, (fd + 1) as nat, limit as nat);
                    assert(stopped_at(
                        start,
                        polled@,
                        fd as nat,
                        set_view(*readfds),
                        set_view(*writefds),
                        set_view(*exceptfds),
                        e,
                    ));
                }
                return Err(e);
            },
        }
        fd += 1;
    }
    Ok(pass)
}

/// The number of descriptors that a pass deals with: those below `nfds` that
/// a set has a bit for.
pub open spec fn spec_limit(nfds: u32) -> nat {
    if nfds < FD_SETSIZE {
        nfds as nat
    } else {
        FD_SETSIZE as nat
    }
}

/// A pass that has met an error stays at that error.
pub proof fn lemma_pass_error(start: PassView, polled: Seq<Polled>, n: nat, m: nat)
    requires
        n <= m,
        pass_upto(start, polled, n) is Err,
    ensures
        pass_upto(start, polled, m) == pass_upto(start, polled, n),
    decreases m - n,
{
    if n < m {
        lemma_pass_error(start, polled, n, (m - 1) as nat);
    }
}

} // verus!
