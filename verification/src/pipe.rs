//! Pipes: bounded queues of bytes between writers and readers.

use vstd::prelude::*;

verus! {

/// The number of bytes that a pipe holds at most.
pub const PIPE_CAPACITY: usize = 65536;

/// The buffer of a pipe: bytes leave it in the order in which they came.
pub struct PipeBuffer {
    /// The bytes written and not yet read, the oldest first.
    pub data: Vec<u8>,
    /// The number of ends open for reading.
    pub read_ends: u32,
    /// The number of ends open for writing.
    pub write_ends: u32,
}

impl View for PipeBuffer {
    type V = Seq<u8>;

    /// The bytes written and not yet read, the oldest first.
    open spec fn view(&self) -> Seq<u8> {
        self.data@
    }
}

/// The smaller of two numbers.
pub open spec fn spec_min(a: int, b: int) -> int {
    if a <= b {
        a
    } else {
        b
    }
}

impl PipeBuffer {
    /// The buffer holds no more than its capacity.
    pub open spec fn wf(&self) -> bool {
        self.data@.len() <= PIPE_CAPACITY
    }

    /// Creates an empty buffer with no open end.
    pub fn new() -> (b: PipeBuffer)
        ensures
            b.wf(),
            b@ == Seq::<u8>::empty(),
            b.read_ends == 0,
            b.write_ends == 0,
    {
        PipeBuffer { data: Vec::new(), read_ends: 0, write_ends: 0 }
    }

    /// Returns the number of bytes that can be read.
    pub fn get_available_len(&self) -> (n: usize)
        ensures
            n == self@.len(),
    {
        self.data.len()
    }

    /// Counts one more open end, for reading, for writing or for both. A
    /// count that is full stays as it is.
    pub fn increment_open(&mut self, read: bool, write: bool)
        ensures
            final(self).data == old(self).data,
            final(self).read_ends == if read && old(self).read_ends < u32::MAX {
                old(self).read_ends + 1
            } else {
                old(self).read_ends as int
            },
            final(self).write_ends == if write && old(self).write_ends < u32::MAX {
                old(self).write_ends + 1
            } else {
                old(self).write_ends as int
            },
    {
        if read && self.read_ends < u32::MAX {
            self.read_ends = self.read_ends + 1;
        }
        if write && self.write_ends < u32::MAX {
            self.write_ends = self.write_ends + 1;
        }
    }

    /// Counts one open end less, for reading, for writing or for both. A
    /// count of zero stays as it is.
    pub fn decrement_open(&mut self, read: bool, write: bool)
        ensures
            final(self).data == old(self).data,
            final(self).read_ends == if read && old(self).read_ends > 0 {
                old(self).read_ends - 1
            } else {
                old(self).read_ends as int
            },
            final(self).write_ends == if write && old(self).write_ends > 0 {
                old(self).write_ends - 1
            } else {
                old(self).write_ends as int
            },
    {
        if read && self.read_ends > 0 {
            self.read_ends = self.read_ends - 1;
        }
        if write && self.write_ends > 0 {
            self.write_ends = self.write_ends - 1;
        }
    }

    /// Appends the bytes of `buff` as far as there is room, and returns how
    /// many were taken.
    pub fn write(&mut self, buff: &[u8]) -> (n: usize)
        requires
            old(self).wf(),
        ensures
            final(self).wf(),
            n == spec_min(buff@.len() as int, PIPE_CAPACITY - old(self)@.len()),
            final(self)@ == old(self)@ + buff@.take(n as int),
            final(self).read_ends == old(self).read_ends,
            final(self).write_ends == old(self).write_ends,
    {
        let room: usize = PIPE_CAPACITY - self.data.len();
        let n: usize = if buff.len() <= room {
            buff.len()
        } else {
            room
        };
        let mut i: usize = 0;
        while i < n
            invariant
                i <= n <= buff@.len(),
                n <= PIPE_CAPACITY - old(self)@.len(),
                self.data@ == old(self)@ + buff@.take(i as int),
                self.read_ends == old(self).read_ends,
                self.write_ends == old(self).write_ends,
            decreases n - i,
        {
            self.data.push(buff[i]);
            assert(buff@.take(i + 1) =~= buff@.take(i as int).push(buff@[i as int]));
            assert(self.data@ =~= old(self)@ + buff@.take(i + 1));
            i += 1;
        }
        n
    }

    /// Takes up to `len` bytes from the front, the oldest first.
    pub fn read(&mut self, len: usize) -> (taken: Vec<u8>)
        ensures
            taken@ == old(self)@.take(spec_min(len as int, old(self)@.len() as int)),
            final(self)@ == old(self)@.skip(spec_min(len as int, old(self)@.len() as int)),
            final(self).read_ends == old(self).read_ends,
            final(self).write_ends == old(self).write_ends,
    {
        let n: usize = if len <= self.data.len() {
            len
        } else {
            self.data.len()
        };
        let rest: Vec<u8> = self.data.split_off(n);
        let mut taken: Vec<u8> = rest;
        core::mem::swap(&mut self.data, &mut taken);
        assert(taken@ =~= old(self)@.take(n as int));
        assert(self.data@ =~= old(self)@.skip(n as int));
        taken
    }
}

/// A socket bound to a file: one queue of bytes in each direction.
pub struct Socket {
    /// The bytes on their way to the side that listens.
    pub incoming: PipeBuffer,
    /// The bytes on their way back.
    pub outgoing: PipeBuffer,
}

impl Socket {
    /// Both queues hold no more than their capacity.
    pub open spec fn wf(&self) -> bool {
        self.incoming.wf() && self.outgoing.wf()
    }

    /// Creates a socket with two empty queues.
    pub fn new() -> (s: Socket)
        ensures
            s.wf(),
            s.incoming@ == Seq::<u8>::empty(),
            s.outgoing@ == Seq::<u8>::empty(),
    {
        Socket { incoming: PipeBuffer::new(), outgoing: PipeBuffer::new() }
    }
}

} // verus!
