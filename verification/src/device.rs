//! Devices, and the devices that every system has.

use vstd::prelude::*;
use vstd::string::StringSliceAdditionalSpecFns;
use crate::errno::Errno;
use crate::file::Mode;
use crate::path::parse_path;
use crate::path::Path;
use crate::path::PathView;
use crate::pipe::spec_min;
use crate::pipe::PipeBuffer;

verus! {

/// Data can be read without blocking.
pub const POLLIN: u32 = 0x1;

/// Urgent data can be read.
pub const POLLPRI: u32 = 0x2;

/// Data can be written without blocking.
pub const POLLOUT: u32 = 0x4;

/// An object that bytes are read from and written to.
pub trait IO {
    /// Returns the size of the object in bytes.
    fn get_size(&self) -> u64;

    /// Reads bytes from the offset `offset` into `buff`, which is filled
    /// from its start. Returns how many bytes were read, and whether the end
    /// was reached.
    fn read(&mut self, offset: u64, buff: &mut Vec<u8>) -> Result<(u64, bool), Errno>;

    /// Writes the bytes of `buff` at the offset `offset`. Returns how many
    /// bytes were written.
    fn write(&mut self, offset: u64, buff: &Vec<u8>) -> Result<u64, Errno>;

    /// Tells which of the events of `mask` are pending.
    fn poll(&mut self, mask: u32) -> Result<u32, Errno>;
}

/// A device that holds nothing and takes everything.
pub struct NullDeviceHandle {}

impl NullDeviceHandle {
    /// Refuses every request: the device has none.
    pub fn ioctl(&mut self, request: u32) -> (r: Result<u32, Errno>)
        ensures
            r == Err::<u32, Errno>(Errno::InvalidArgument),
    {
        Err(Errno::InvalidArgument)
    }
}

impl IO for NullDeviceHandle {
    fn get_size(&self) -> (n: u64)
        ensures
            n == 0,
    {
        0
    }

    fn read(&mut self, offset: u64, buff: &mut Vec<u8>) -> (r: Result<(u64, bool), Errno>)
        ensures
            r == Ok::<(u64, bool), Errno>((0, true)),
            final(buff)@ == old(buff)@,
    {
        Ok((0, true))
    }

    fn write(&mut self, offset: u64, buff: &Vec<u8>) -> (r: Result<u64, Errno>)
        ensures
            r == Ok::<u64, Errno>(buff@.len() as u64),
    {
        Ok(buff.len() as u64)
    }

    fn poll(&mut self, mask: u32) -> (r: Result<u32, Errno>)
        ensures
            r == Ok::<u32, Errno>(POLLIN | POLLOUT),
    {
        Ok(POLLIN | POLLOUT)
    }
}

/// A device that gives null bytes.
pub struct ZeroDeviceHandle {}

impl ZeroDeviceHandle {
    /// Refuses every request: the device has none.
    pub fn ioctl(&mut self, request: u32) -> (r: Result<u32, Errno>)
        ensures
            r == Err::<u32, Errno>(Errno::InvalidArgument),
    {
        Err(Errno::InvalidArgument)
    }
}

impl IO for ZeroDeviceHandle {
    fn get_size(&self) -> (n: u64)
        ensures
            n == 0,
    {
        0
    }

    fn read(&mut self, offset: u64, buff: &mut Vec<u8>) -> (r: Result<(u64, bool), Errno>)
        ensures
            r == Ok::<(u64, bool), Errno>((old(buff)@.len() as u64, false)),
            final(buff)@.len() == old(buff)@.len(),
            forall|i: int| 0 <= i < final(buff)@.len() ==> final(buff)@[i] == 0u8,
    {
        let n: usize = buff.len();
        let mut i: usize = 0;
        while i < n
            invariant
                i <= n,
                buff@.len() == n,
                forall|j: int| 0 <= j < i ==> buff@[j] == 0u8,
            decreases n - i,
        {
            buff.set(i, 0u8);
            i += 1;
        }
        Ok((n as u64, false))
    }

    fn write(&mut self, offset: u64, buff: &Vec<u8>) -> (r: Result<u64, Errno>)
        ensures
            r == Ok::<u64, Errno>(buff@.len() as u64),
    {
        Ok(buff.len() as u64)
    }

    fn poll(&mut self, mask: u32) -> (r: Result<u32, Errno>)
        ensures
            r == Ok::<u32, Errno>(POLLIN | POLLOUT),
    {
        Ok(POLLIN | POLLOUT)
    }
}

/// Copies the first `len` bytes of `bytes` to the start of `buff`.
fn fill(buff: &mut Vec<u8>, bytes: &Vec<u8>, start: usize, len: usize)
    requires
        start + len <= bytes@.len(),
        len <= old(buff)@.len(),
    ensures
        final(buff)@.len() == old(buff)@.len(),
        final(buff)@.take(len as int) == bytes@.subrange(start as int, start + len),
        final(buff)@.skip(len as int) == old(buff)@.skip(len as int),
{
    let total: usize = bytes.len();
    let mut i: usize = 0;
    while i < len
        invariant
            i <= len,
            total == bytes@.len(),
            start + len <= bytes@.len(),
            len <= buff@.len(),
            buff@.len() == old(buff)@.len(),
            forall|j: int| 0 <= j < i ==> buff@[j] == bytes@[start + j],
            forall|j: int| i <= j < buff@.len() ==> buff@[j] == old(buff)@[j],
        decreases len - i,
    {
        buff.set(i, bytes[start + i]);
        i += 1;
    }
    assert(buff@.take(len as int) =~= bytes@.subrange(start as int, start + len));
    assert(buff@.skip(len as int) =~= old(buff)@.skip(len as int));
}

/// The pool of entropy: unpredictable bytes gathered by the system, to be
/// handed out once each.
pub struct EntropyPool {
    /// The bytes gathered and not yet handed out.
    pub bytes: PipeBuffer,
}

impl EntropyPool {
    /// The pool holds no more than its capacity.
    pub open spec fn wf(&self) -> bool {
        self.bytes.wf()
    }

    /// Creates an empty pool.
    pub fn new() -> (p: EntropyPool)
        ensures
            p.wf(),
            p.bytes@ == Seq::<u8>::empty(),
    {
        EntropyPool { bytes: PipeBuffer::new() }
    }

    /// Hands out bytes into `buff`, from its start. With `bypass_threshold`
    /// the pool gives what it has; without, it gives bytes only if it has
    /// enough to fill `buff`. Returns how many bytes were given.
    pub fn read(&mut self, buff: &mut Vec<u8>, bypass_threshold: bool) -> (n: usize)
        requires
            old(self).wf(),
        ensures
            final(self).wf(),
            n == if bypass_threshold || old(self).bytes@.len() >= old(buff)@.len() {
                spec_min(old(buff)@.len() as int, old(self).bytes@.len() as int)
            } else {
                0
            },
            final(buff)@.len() == old(buff)@.len(),
            final(buff)@.take(n as int) == old(self).bytes@.take(n as int),
            final(buff)@.skip(n as int) == old(buff)@.skip(n as int),
            final(self).bytes@ == old(self).bytes@.skip(n as int),
    {
        if !bypass_threshold && self.bytes.get_available_len() < buff.len() {
            assert(buff@.take(0) =~= self.bytes@.take(0));
            assert(buff@.skip(0) =~= buff@);
            assert(self.bytes@.skip(0) =~= self.bytes@);
            return 0;
        }
        let taken: Vec<u8> = self.bytes.read(buff.len());
        let n: usize = taken.len();
        fill(buff, &taken, 0, n);
        assert(taken@.subrange(0, n as int) =~= taken@);
        n
    }

    /// Adds the bytes of `buff` to the pool as far as there is room. Returns
    /// how many bytes were taken.
    pub fn write(&mut self, buff: &Vec<u8>) -> (n: usize)
        requires
            old(self).wf(),
        ensures
            final(self).wf(),
            n == spec_min(buff@.len() as int, crate::pipe::PIPE_CAPACITY - old(self).bytes@.len()),
            final(self).bytes@ == old(self).bytes@ + buff@.take(n as int),
    {
        self.bytes.write(buff.as_slice())
    }
}

/// The random device gives random bytes, and none until the pool of entropy
/// holds as many as are asked for.
pub struct RandomDeviceHandle {}

impl RandomDeviceHandle {
    /// Refuses every request: the device has none.
    pub fn ioctl(&mut self, request: u32) -> (r: Result<u32, Errno>)
        ensures
            r == Err::<u32, Errno>(Errno::InvalidArgument),
    {
        Err(Errno::InvalidArgument)
    }

    /// Returns the size of the device: it has none.
    pub fn get_size(&self) -> (n: u64)
        ensures
            n == 0,
    {
        0
    }

    /// Reads random bytes into `buff`. Without a pool of entropy the end is
    /// reached at once.
    pub fn read(&mut self, pool: &mut Option<EntropyPool>, buff: &mut Vec<u8>) -> (r: Result<
        (u64, bool),
        Errno,
    >)
        requires
            *old(pool) matches Some(p) ==> p.wf(),
        ensures
            *final(pool) matches Some(p) ==> p.wf(),
            match *old(pool) {
                None => r == Ok::<(u64, bool), Errno>((0, true)) && *final(pool) == *old(pool)
                    && final(buff)@ == old(buff)@,
                Some(before) => {
                    let n = if before.bytes@.len() >= old(buff)@.len() {
                        old(buff)@.len() as int
                    } else {
                        0
                    };
                    &&& r == Ok::<(u64, bool), Errno>((n as u64, false))
                    &&& *final(pool) is Some
                    &&& (*final(pool))->Some_0.bytes@ == before.bytes@.skip(n)
                    &&& final(buff)@.len() == old(buff)@.len()
                    &&& final(buff)@.take(n) == before.bytes@.take(n)
                    &&& final(buff)@.skip(n) == old(buff)@.skip(n)
                },
            },
    {
        match pool {
            Some(p) => {
                let n: usize = p.read(buff, false);
                Ok((n as u64, false))
            },
            None => Ok((0, true)),
        }
    }

    /// Adds the bytes of `buff` to the pool of entropy. Without a pool the
    /// argument is refused.
    pub fn write(&mut self, pool: &mut Option<EntropyPool>, buff: &Vec<u8>) -> (r: Result<u64, Errno>)
        requires
            *old(pool) matches Some(p) ==> p.wf(),
        ensures
            *final(pool) matches Some(p) ==> p.wf(),
            match *old(pool) {
                None => r == Err::<u64, Errno>(Errno::InvalidArgument) && *final(pool) == *old(pool),
                Some(before) => {
                    let n = spec_min(
                        buff@.len() as int,
                        crate::pipe::PIPE_CAPACITY - before.bytes@.len(),
                    );
                    &&& r == Ok::<u64, Errno>(n as u64)
                    &&& *final(pool) is Some
                    &&& (*final(pool))->Some_0.bytes@ == before.bytes@ + buff@.take(n)
                },
            },
    {
        match pool {
            Some(p) => {
                let n: usize = p.write(buff);
                Ok(n as u64)
            },
            None => Err(Errno::InvalidArgument),
        }
    }

    /// Tells which of the events of `mask` are pending: reading and writing
    /// always are.
    pub fn poll(&mut self, mask: u32) -> (r: Result<u32, Errno>)
        ensures
            r == Ok::<u32, Errno>(POLLIN | POLLOUT),
    {
        Ok(POLLIN | POLLOUT)
    }
}

/// This device works as the random device does, but gives the bytes that
/// the pool of entropy has when it has fewer than are asked for.
pub struct URandomDeviceHandle {}

impl URandomDeviceHandle {
    /// Refuses every request: the device has none.
    pub fn ioctl(&mut self, request: u32) -> (r: Result<u32, Errno>)
        ensures
            r == Err::<u32, Errno>(Errno::InvalidArgument),
    {
        Err(Errno::InvalidArgument)
    }

    /// Returns the size of the device: it has none.
    pub fn get_size(&self) -> (n: u64)
        ensures
            n == 0,
    {
        0
    }

    /// Reads random bytes into `buff`, as many as the pool of entropy has.
    /// Without a pool the end is reached at once.
    pub fn read(&mut self, pool: &mut Option<EntropyPool>, buff: &mut Vec<u8>) -> (r: Result<
        (u64, bool),
        Errno,
    >)
        requires
            *old(pool) matches Some(p) ==> p.wf(),
        ensures
            *final(pool) matches Some(p) ==> p.wf(),
            match *old(pool) {
                None => r == Ok::<(u64, bool), Errno>((0, true)) && *final(pool) == *old(pool)
                    && final(buff)@ == old(buff)@,
                Some(before) => {
                    let n = spec_min(old(buff)@.len() as int, before.bytes@.len() as int);
                    &&& r == Ok::<(u64, bool), Errno>((n as u64, false))
                    &&& *final(pool) is Some
                    &&& (*final(pool))->Some_0.bytes@ == before.bytes@.skip(n)
                    &&& final(buff)@.len() == old(buff)@.len()
                    &&& final(buff)@.take(n) == before.bytes@.take(n)
                    &&& final(buff)@.skip(n) == old(buff)@.skip(n)
                },
            },
    {
        match pool {
            Some(p) => {
                let n: usize = p.read(buff, true);
                Ok((n as u64, false))
            },
            None => Ok((0, true)),
        }
    }

    /// Adds the bytes of `buff` to the pool of entropy. Without a pool the
    /// argument is refused.
    pub fn write(&mut self, pool: &mut Option<EntropyPool>, buff: &Vec<u8>) -> (r: Result<u64, Errno>)
        requires
            *old(pool) matches Some(p) ==> p.wf(),
        ensures
            *final(pool) matches Some(p) ==> p.wf(),
            match *old(pool) {
                None => r == Err::<u64, Errno>(Errno::InvalidArgument) && *final(pool) == *old(pool),
                Some(before) => {
                    let n = spec_min(
                        buff@.len() as int,
                        crate::pipe::PIPE_CAPACITY - before.bytes@.len(),
                    );
                    &&& r == Ok::<u64, Errno>(n as u64)
                    &&& *final(pool) is Some
                    &&& (*final(pool))->Some_0.bytes@ == before.bytes@ + buff@.take(n)
                },
            },
    {
        match pool {
            Some(p) => {
                let n: usize = p.write(buff);
                Ok(n as u64)
            },
            None => Err(Errno::InvalidArgument),
        }
    }

    /// Tells which of the events of `mask` are pending: reading and writing
    /// always are.
    pub fn poll(&mut self, mask: u32) -> (r: Result<u32, Errno>)
        ensures
            r == Ok::<u32, Errno>(POLLIN | POLLOUT),
    {
        Ok(POLLIN | POLLOUT)
    }
}

/// The device of the kernel's log.
pub struct KMsgDeviceHandle {}

impl KMsgDeviceHandle {
    /// Refuses every request: the device has none.
    pub fn ioctl(&mut self, request: u32) -> (r: Result<u32, Errno>)
        ensures
            r == Err::<u32, Errno>(Errno::InvalidArgument),
    {
        Err(Errno::InvalidArgument)
    }

    /// Returns the size of the device: the length of the log `log`.
    pub fn get_size(&self, log: &Vec<u8>) -> (n: u64)
        ensures
            n == log@.len(),
    {
        log.len() as u64
    }

    /// Reads the log `log` from the offset `offset` into `buff`, from its
    /// start, and tells whether the end of the log was reached. An offset
    /// that does not fit a place in memory is refused; past the end of the
    /// log nothing is read.
    pub fn read(&mut self, log: &Vec<u8>, offset: u64, buff: &mut Vec<u8>) -> (r: Result<
        (u64, bool),
        Errno,
    >)
        ensures
            final(buff)@.len() == old(buff)@.len(),
            offset > usize::MAX ==> r == Err::<(u64, bool), Errno>(Errno::InvalidArgument),
            offset > usize::MAX ==> final(buff)@ == old(buff)@,
            offset <= usize::MAX ==> {
                let start = spec_min(offset as int, log@.len() as int);
                let n = spec_min(log@.len() - start, old(buff)@.len() as int);
                &&& r == Ok::<(u64, bool), Errno>((n as u64, offset + n >= log@.len()))
                &&& final(buff)@.take(n) == log@.subrange(start, start + n)
                &&& final(buff)@.skip(n) == old(buff)@.skip(n)
            },
    {
        if offset > usize::MAX as u64 {
            return Err(Errno::InvalidArgument);
        }
        let size: usize = log.len();
        let start: usize = if offset as usize <= size {
            offset as usize
        } else {
            size
        };
        let rest: usize = size - start;
        let len: usize = if rest <= buff.len() {
            rest
        } else {
            buff.len()
        };
        fill(buff, log, start, len);
        let eof: bool = offset as usize >= size || offset as usize + len >= size;
        Ok((len as u64, eof))
    }

    /// Tells which of the events of `mask` are pending: reading and writing
    /// always are.
    pub fn poll(&mut self, mask: u32) -> (r: Result<u32, Errno>)
        ensures
            r == Ok::<u32, Errno>(POLLIN | POLLOUT),
    {
        Ok(POLLIN | POLLOUT)
    }
}

/// The kind of a device.
#[derive(Clone, Copy, Debug, PartialEq, Eq, Structural)]
pub enum DeviceType {
    /// A device that is read and written block by block.
    Block,
    /// A device that is read and written byte by byte.
    Char,
}

/// The identity of a device.
#[derive(Clone, Copy, Debug, PartialEq, Eq, Structural)]
pub struct DeviceID {
    /// The kind of the device.
    pub type_: DeviceType,
    /// The major number: the driver of the device.
    pub major: u32,
    /// The minor number: the device among those of its driver.
    pub minor: u32,
}

/// What answers for a device.
#[derive(Clone, Copy, Debug, PartialEq, Eq, Structural)]
pub enum DeviceHandle {
    /// The device that holds nothing and takes everything.
    Null,
    /// The device that gives null bytes.
    Zero,
    /// The random device.
    Random,
    /// The random device that gives what it has.
    URandom,
    /// The device of the kernel's log.
    KMsg,
    /// The terminal of the process that opens the device.
    CurrentTty,
}

/// A device as a mathematical value.
pub struct DeviceView {
    /// The identity of the device.
    pub id: DeviceID,
    /// The path of the file of the device.
    pub path: PathView,
    /// The permissions of that file.
    pub mode: Mode,
    /// What answers for the device.
    pub handle: DeviceHandle,
}

/// A device.
pub struct Device {
    /// The identity of the device.
    pub id: DeviceID,
    /// The path of the file of the device.
    pub path: Path,
    /// The permissions of that file.
    pub mode: Mode,
    /// What answers for the device.
    pub handle: DeviceHandle,
}

impl View for Device {
    type V = DeviceView;

    open spec fn view(&self) -> DeviceView {
        DeviceView { id: self.id, path: self.path@, mode: self.mode, handle: self.handle }
    }
}

/// The views of a list of devices.
pub open spec fn devices_view(v: Seq<Device>) -> Seq<DeviceView> {
    Seq::new(v.len(), |i: int| v[i]@)
}

/// The devices of the system, with the major numbers that are taken.
pub struct DeviceTable {
    /// The devices, in the order of their registration.
    pub devices: Vec<Device>,
    /// The major numbers taken for character devices.
    pub char_majors: Vec<u32>,
}

impl View for DeviceTable {
    type V = Seq<DeviceView>;

    /// The devices, in the order of their registration.
    open spec fn view(&self) -> Seq<DeviceView> {
        devices_view(self.devices@)
    }
}

impl DeviceTable {
    /// Tells whether a device with the identity `id` is registered.
    pub open spec fn has_device(&self, id: DeviceID) -> bool {
        exists|i: int| 0 <= i < self@.len() && (#[trigger] self@[i]).id == id
    }

    /// Creates a table without a device.
    pub fn new() -> (t: DeviceTable)
        ensures
            t@.len() == 0,
            t.char_majors@.len() == 0,
    {
        DeviceTable { devices: Vec::new(), char_majors: Vec::new() }
    }

    /// Takes the major number `major` for character devices. A number that
    /// is taken already is refused.
    pub fn alloc_major(&mut self, major: u32) -> (r: Result<u32, Errno>)
        ensures
            final(self).devices == old(self).devices,
            match r {
                Ok(m) => m == major && !old(self).char_majors@.contains(major) && final(self).char_majors@ == old(self).char_majors@.push(major),
                Err(e) => e == Errno::AlreadyExists && old(self).char_majors@.contains(major)
                    && final(self).char_majors == old(self).char_majors,
            },
    {
        let mut i: usize = 0;
        while i < self.char_majors.len()
            invariant
                i <= self.char_majors@.len(),
                *self == *old(self),
                forall|j: int| 0 <= j < i ==> self.char_majors@[j] != major,
            decreases self.char_majors.len() - i,
        {
            if self.char_majors[i] == major {
                return Err(Errno::AlreadyExists);
            }
            i += 1;
        }
        self.char_majors.push(major);
        Ok(major)
    }

    /// Registers the device `device`. A device whose identity is registered
    /// already is refused.
    pub fn register(&mut self, device: Device) -> (r: Result<(), Errno>)
        ensures
            final(self).char_majors == old(self).char_majors,
            match r {
                Ok(_) => !old(self).has_device(device.id) && final(self)@ == old(self)@.push(
                    device@,
                ),
                Err(e) => e == Errno::AlreadyExists && old(self).has_device(device.id) && final(self).devices == old(self).devices,
            },
    {
        let mut i: usize = 0;
        while i < self.devices.len()
            invariant
                i <= self.devices@.len(),
                *self == *old(self),
                forall|j: int| 0 <= j < i ==> (#[trigger] self@[j]).id != device.id,
            decreases self.devices.len() - i,
        {
            if self.devices[i].id == device.id {
                assert(self@[i as int].id == device.id);
                return Err(Errno::AlreadyExists);
            }
            i += 1;
        }
        self.devices.push(device);
        assert(self@ =~= old(self)@.push(device@));
        Ok(())
    }
}

/// One of the devices that every system has: a character device whose file
/// is at the path that `text` denotes.
pub open spec fn default_device(
    major: u32,
    minor: u32,
    text: &str,
    mode: Mode,
    handle: DeviceHandle,
) -> DeviceView {
    DeviceView {
        id: DeviceID { type_: DeviceType::Char, major, minor },
        path: parse_path(text.spec_bytes()),
        mode,
        handle,
    }
}

/// The devices that every system has, in the order of their registration.
pub open spec fn default_devices() -> Seq<DeviceView> {
    seq![
        default_device(1, 3, "/dev/null", 0o666, DeviceHandle::Null),
        default_device(1, 5, "/dev/zero", 0o666, DeviceHandle::Zero),
        default_device(1, 8, "/dev/random", 0o666, DeviceHandle::Random),
        default_device(1, 9, "/dev/urandom", 0o666, DeviceHandle::URandom),
        default_device(1, 11, "/dev/kmsg", 0o600, DeviceHandle::KMsg),
        default_device(5, 0, "/dev/tty", 0o666, DeviceHandle::CurrentTty),
    ]
}

/// Registers one of the devices that every system has.
fn create_one(
    table: &mut DeviceTable,
    major: u32,
    minor: u32,
    text: &str,
    mode: Mode,
    handle: DeviceHandle,
) -> (r: Result<(), Errno>)
    ensures
        final(table).char_majors == old(table).char_majors,
        match r {
            Ok(_) => !old(table).has_device(
                DeviceID { type_: DeviceType::Char, major, minor },
            ) && final(table)@ == old(table)@.push(
                default_device(major, minor, text, mode, handle),
            ),
            Err(e) => e == Errno::AlreadyExists && old(table).has_device(
                DeviceID { type_: DeviceType::Char, major, minor },
            ) && final(table).devices == old(table).devices,
        },
{
    let path: Path = match Path::from_str(text.as_bytes(), false) {
        Ok(path) => path,
        Err(e) => {
            return Err(e);
        },
    };
    table.register(
        Device { id: DeviceID { type_: DeviceType::Char, major, minor }, path, mode, handle },
    )
}

/// The major numbers that are taken when the creation of the devices that
/// every system has stops after `n` devices: the number 1 is taken before the
/// first device, the number 5 before the last.
pub open spec fn majors_at_stop(majors: Seq<u32>, n: int) -> Seq<u32> {
    if majors.contains(1) {
        majors
    } else if n < 5 || majors.contains(5) {
        majors.push(1)
    } else {
        majors.push(1).push(5)
    }
}

/// Tells whether a table is what the creation of the devices that every
/// system has leaves when it stops after `n` devices.
pub open spec fn stopped_after(
    before: Seq<DeviceView>,
    majors: Seq<u32>,
    after: Seq<DeviceView>,
    after_majors: Seq<u32>,
    n: int,
) -> bool {
    after == before + default_devices().take(n) && after_majors == majors_at_stop(majors, n)
}

/// Creates the devices that every system has: the major numbers 1 and 5 are
/// taken for character devices, and the devices are registered in their
/// order. A major number or a device that exists already ends the operation
/// with what was registered until then.
#[verifier::spinoff_prover]
#[verifier::rlimit(50)]
pub fn create(table: &mut DeviceTable) -> (r: Result<(), Errno>)
    ensures
        match r {
            Ok(_) => {
                &&& final(table)@ == old(table)@ + default_devices()
                &&& final(table).char_majors@ == old(table).char_majors@.push(1).push(5)
                &&& !old(table).char_majors@.contains(1)
                &&& !old(table).char_majors@.contains(5)
                &&& forall|i: int|
                    0 <= i < default_devices().len() ==> !old(table).has_device(
                        #[trigger] default_devices()[i].id,
                    )
            },
            Err(e) => {
                &&& e == Errno::AlreadyExists
                &&& exists|n: int|
                    0 <= n <= default_devices().len() && #[trigger] stopped_after(
                        old(table)@,
                        old(table).char_majors@,
                        final(table)@,
                        final(table).char_majors@,
                        n,
                    )
                &&& old(table).char_majors@.contains(1) || old(table).char_majors@.contains(5)
                    || exists|i: int|
                    0 <= i < default_devices().len() && old(table).has_device(
                        #[trigger] default_devices()[i].id,
                    )
            },
        },
{
    let ghost all = default_devices();
    let ghost start = table@;
    assert(start + all.take(0) =~= start);
    let ghost majors = table.char_majors@;
    match table.alloc_major(1) {
        Ok(_) => {},
        Err(e) => {
            assert(stopped_after(start, majors, table@, table.char_majors@, 0));
            return Err(e);
        },
    }
    proof {
        if majors.contains(5) {
            let k = choose|k: int| 0 <= k < majors.len() && majors[k] == 5;
            assert(majors.push(1)[k] == 5);
        }
        if majors.push(1).contains(5) {
            let k = choose|k: int| 0 <= k < majors.push(1).len() && majors.push(1)[k] == 5;
            assert(majors[k] == 5);
        }
    }
    match create_one(table, 1, 3, "/dev/null", 0o666, DeviceHandle::Null) {
        Ok(_) => {},
        Err(e) => {
            assert(old(table).has_device(all[0].id));
            assert(stopped_after(start, majors, table@, table.char_majors@, 0));
            return Err(e);
        },
    }
    proof {
        lemma_no_device_before(start, all, 0);
    }
    assert(table@ =~= start + all.take(1));
    match create_one(table, 1, 5, "/dev/zero", 0o666, DeviceHandle::Zero) {
        Ok(_) => {},
        Err(e) => {
            proof {
                lemma_has_device_before(start, all, 1);
                assert(stopped_after(start, majors, table@, table.char_majors@, 1));
            }
            return Err(e);
        },
    }
    proof {
        lemma_no_device_before(start, all, 1);
    }
    assert(table@ =~= start + all.take(2));
    match create_one(table, 1, 8, "/dev/random", 0o666, DeviceHandle::Random) {
        Ok(_) => {},
        Err(e) => {
            proof {
                lemma_has_device_before(start, all, 2);
                assert(stopped_after(start, majors, table@, table.char_majors@, 2));
            }
            return Err(e);
        },
    }
    proof {
        lemma_no_device_before(start, all, 2);
    }
    assert(table@ =~= start + all.take(3));
    match create_one(table, 1, 9, "/dev/urandom", 0o666, DeviceHandle::URandom) {
        Ok(_) => {},
        Err(e) => {
            proof {
                lemma_has_device_before(start, all, 3);
                assert(stopped_after(start, majors, table@, table.char_majors@, 3));
            }
            return Err(e);
        },
    }
    proof {
        lemma_no_device_before(start, all, 3);
    }
    assert(table@ =~= start + all.take(4));
    match create_one(table, 1, 11, "/dev/kmsg", 0o600, DeviceHandle::KMsg) {
        Ok(_) => {},
        Err(e) => {
            proof {
                lemma_has_device_before(start, all, 4);
                assert(stopped_after(start, majors, table@, table.char_majors@, 4));
            }
            return Err(e);
        },
    }
    proof {
        lemma_no_device_before(start, all, 4);
    }
    assert(table@ =~= start + all.take(5));
    match table.alloc_major(5) {
        Ok(_) => {},
        Err(e) => {
            assert(stopped_after(start, majors, table@, table.char_majors@, 5));
            return Err(e);
        },
    }
    match create_one(table, 5, 0, "/dev/tty", 0o666, DeviceHandle::CurrentTty) {
        Ok(_) => {},
        Err(e) => {
            proof {
                lemma_has_device_before(start, all, 5);
                assert(stopped_after(start, majors, table@, table.char_majors@, 5));
            }
            return Err(e);
        },
    }
    proof {
        lemma_no_device_before(start, all, 5);
        assert(table@ =~= start + all);
        assert(all.len() == 6);
        assert(table.char_majors@ == old(table).char_majors@.push(1).push(5));
        assert(!old(table).char_majors@.contains(1));
        assert(!old(table).char_majors@.contains(5)) by {
            if old(table).char_majors@.contains(5) {
                let k = choose|k: int|
                    0 <= k < old(table).char_majors@.len() && old(table).char_majors@[k] == 5;
                assert(old(table).char_majors@.push(1)[k] == 5);
            }
        }
        assert(!old(table).has_device(all[0].id));
        assert(!old(table).has_device(all[1].id));
        assert(!old(table).has_device(all[2].id));
        assert(!old(table).has_device(all[3].id));
        assert(!old(table).has_device(all[4].id));
        assert(!old(table).has_device(all[5].id));
    }
    Ok(())
}

/// The default devices have identities of their own: a table that holds the
/// first `n` of them after its own devices has the next one only if it had it
/// at the start.
proof fn lemma_has_device_before(start: Seq<DeviceView>, all: Seq<DeviceView>, n: int)
    requires
        all == default_devices(),
        0 <= n < all.len(),
        exists|i: int|
            0 <= i < (start + all.take(n)).len() && (#[trigger] (start + all.take(n))[i]).id
                == all[n].id,
    ensures
        exists|i: int| 0 <= i < start.len() && (#[trigger] start[i]).id == all[n].id,
{
    let i = choose|i: int|
        0 <= i < (start + all.take(n)).len() && (#[trigger] (start + all.take(n))[i]).id
            == all[n].id;
    if i >= start.len() {
        assert((start + all.take(n))[i] == all[i - start.len()]);
    } else {
        assert((start + all.take(n))[i] == start[i]);
    }
}

/// A table that did not refuse the default device `n` after the ones
/// before it did not hold it at the start.
proof fn lemma_no_device_before(start: Seq<DeviceView>, all: Seq<DeviceView>, n: int)
    requires
        all == default_devices(),
        0 <= n < all.len(),
        !exists|i: int|
            0 <= i < (start + all.take(n)).len() && (#[trigger] (start + all.take(n))[i]).id
                == all[n].id,
    ensures
        !exists|i: int| 0 <= i < start.len() && (#[trigger] start[i]).id == all[n].id,
{
    if exists|i: int| 0 <= i < start.len() && (#[trigger] start[i]).id == all[n].id {
        let i = choose|i: int| 0 <= i < start.len() && (#[trigger] start[i]).id == all[n].id;
        assert((start + all.take(n))[i] == start[i]);
    }
}

} // verus!
