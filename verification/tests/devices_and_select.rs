use kernel::device::create;
use kernel::device::Device;
use kernel::device::DeviceHandle;
use kernel::device::DeviceID;
use kernel::device::DeviceTable;
use kernel::device::DeviceType;
use kernel::device::EntropyPool;
use kernel::device::KMsgDeviceHandle;
use kernel::device::NullDeviceHandle;
use kernel::device::RandomDeviceHandle;
use kernel::device::URandomDeviceHandle;
use kernel::device::ZeroDeviceHandle;
use kernel::device::IO;
use kernel::device::POLLIN;
use kernel::device::POLLOUT;
use kernel::device::POLLPRI;
use kernel::errno::Errno;
use kernel::path::Path;
use kernel::select::after_pass;
use kernel::select::do_select;
use kernel::select::interest;
use kernel::select::pass_descriptor;
use kernel::select::Pass;
use kernel::select::record;
use kernel::select::FDSet;
use kernel::select::Interest;
use kernel::select::Polled;
use kernel::select::Verdict;
use kernel::select::FD_SETSIZE;

#[test]
fn null_device() {
    let mut null = NullDeviceHandle {};
    let mut buff = vec![9u8; 4];
    assert_eq!(null.read(0, &mut buff), Ok((0, true)));
    assert_eq!(buff, vec![9u8; 4]);
    assert_eq!(null.write(3, &vec![1, 2, 3]), Ok(3));
    assert_eq!(null.poll(0), Ok(POLLIN | POLLOUT));
    assert_eq!(null.get_size(), 0);
    assert_eq!(null.ioctl(1), Err(Errno::InvalidArgument));
}

#[test]
fn zero_device() {
    let mut zero = ZeroDeviceHandle {};
    let mut buff = vec![9u8; 5];
    assert_eq!(zero.read(17, &mut buff), Ok((5, false)));
    assert_eq!(buff, vec![0u8; 5]);
    let mut empty = Vec::new();
    assert_eq!(zero.read(0, &mut empty), Ok((0, false)));
    assert_eq!(zero.write(0, &vec![1, 2]), Ok(2));
    assert_eq!(zero.poll(POLLPRI), Ok(POLLIN | POLLOUT));
    assert_eq!(zero.get_size(), 0);
    assert_eq!(zero.ioctl(1), Err(Errno::InvalidArgument));
}

#[test]
fn random_devices() {
    let mut random = RandomDeviceHandle {};
    let mut urandom = URandomDeviceHandle {};
    let mut none: Option<EntropyPool> = None;
    let mut buff = vec![0u8; 4];
    assert_eq!(random.read(&mut none, &mut buff), Ok((0, true)));
    assert_eq!(urandom.read(&mut none, &mut buff), Ok((0, true)));
    assert_eq!(random.write(&mut none, &vec![1]), Err(Errno::InvalidArgument));
    assert_eq!(urandom.write(&mut none, &vec![1]), Err(Errno::InvalidArgument));

    let mut pool = Some(EntropyPool::new());
    assert_eq!(random.write(&mut pool, &vec![1, 2, 3]), Ok(3));
    // The random device waits for enough entropy; the other gives what there is.
    assert_eq!(random.read(&mut pool, &mut buff), Ok((0, false)));
    assert_eq!(buff, vec![0u8; 4]);
    assert_eq!(urandom.read(&mut pool, &mut buff), Ok((3, false)));
    assert_eq!(buff, vec![1, 2, 3, 0]);
    assert_eq!(urandom.read(&mut pool, &mut buff), Ok((0, false)));
    assert_eq!(urandom.write(&mut pool, &vec![4, 5, 6, 7, 8]), Ok(5));
    assert_eq!(random.read(&mut pool, &mut buff), Ok((4, false)));
    assert_eq!(buff, vec![4, 5, 6, 7]);
    assert_eq!(pool.as_ref().unwrap().bytes.get_available_len(), 1);
    assert_eq!(random.poll(0), Ok(POLLIN | POLLOUT));
    assert_eq!(urandom.poll(0), Ok(POLLIN | POLLOUT));
    assert_eq!(random.get_size(), 0);
    assert_eq!(urandom.get_size(), 0);
    assert_eq!(random.ioctl(0), Err(Errno::InvalidArgument));
    assert_eq!(urandom.ioctl(0), Err(Errno::InvalidArgument));
}

#[test]
fn kmsg_device() {
    let mut kmsg = KMsgDeviceHandle {};
    let log = b"boot ok\n".to_vec();
    assert_eq!(kmsg.get_size(&log), 8);
    let mut buff = vec![0u8; 4];
    assert_eq!(kmsg.read(&log, 0, &mut buff), Ok((4, false)));
    assert_eq!(buff, b"boot".to_vec());
    assert_eq!(kmsg.read(&log, 4, &mut buff), Ok((4, true)));
    assert_eq!(buff, b" ok\n".to_vec());
    assert_eq!(kmsg.read(&log, 6, &mut buff), Ok((2, true)));
    assert_eq!(buff, b"k\nk\n".to_vec());
    assert_eq!(kmsg.read(&log, 8, &mut buff), Ok((0, true)));
    assert_eq!(kmsg.read(&log, 100, &mut buff), Ok((0, true)));
    let mut big = vec![1u8; 10];
    assert_eq!(kmsg.read(&log, 0, &mut big), Ok((8, true)));
    assert_eq!(&big[..8], &log[..]);
    assert_eq!(&big[8..], &[1u8, 1u8]);
    assert_eq!(kmsg.poll(0), Ok(POLLIN | POLLOUT));
    assert_eq!(kmsg.ioctl(0), Err(Errno::InvalidArgument));
}

#[test]
fn default_devices_are_created() {
    let mut table = DeviceTable::new();
    assert_eq!(create(&mut table), Ok(()));
    let expected: [(u32, u32, &str, u32, DeviceHandle); 6] = [
        (1, 3, "/dev/null", 0o666, DeviceHandle::Null),
        (1, 5, "/dev/zero", 0o666, DeviceHandle::Zero),
        (1, 8, "/dev/random", 0o666, DeviceHandle::Random),
        (1, 9, "/dev/urandom", 0o666, DeviceHandle::URandom),
        (1, 11, "/dev/kmsg", 0o600, DeviceHandle::KMsg),
        (5, 0, "/dev/tty", 0o666, DeviceHandle::CurrentTty),
    ];
    assert_eq!(table.devices.len(), 6);
    for (device, (major, minor, path, mode, handle)) in table.devices.iter().zip(expected) {
        assert_eq!(device.id, DeviceID { type_: DeviceType::Char, major, minor });
        assert_eq!(device.path.to_bytes(), path.as_bytes().to_vec());
        assert!(device.path.is_absolute());
        assert_eq!(device.mode, mode);
        assert_eq!(device.handle, handle);
    }
    assert_eq!(table.char_majors, vec![1, 5]);
    // A second creation finds the first major number taken.
    assert_eq!(create(&mut table), Err(Errno::AlreadyExists));
    assert_eq!(table.devices.len(), 6);
}

#[test]
fn default_devices_stop_at_the_first_that_exists() {
    let mut table = DeviceTable::new();
    let taken = Device {
        id: DeviceID { type_: DeviceType::Char, major: 1, minor: 8 },
        path: Path::root(),
        mode: 0,
        handle: DeviceHandle::Null,
    };
    assert_eq!(table.register(taken), Ok(()));
    assert_eq!(create(&mut table), Err(Errno::AlreadyExists));
    // The two devices before the one that exists were registered.
    assert_eq!(table.devices.len(), 3);
    assert_eq!(table.devices[1].handle, DeviceHandle::Null);
    assert_eq!(table.devices[2].handle, DeviceHandle::Zero);
    assert_eq!(table.char_majors, vec![1]);

    let mut table = DeviceTable::new();
    assert_eq!(table.alloc_major(5), Ok(5));
    assert_eq!(table.alloc_major(5), Err(Errno::AlreadyExists));
    assert_eq!(create(&mut table), Err(Errno::AlreadyExists));
    assert_eq!(table.devices.len(), 5);
    assert_eq!(table.char_majors, vec![5, 1]);
    // Block and character devices with the same numbers are different devices.
    let block = Device {
        id: DeviceID { type_: DeviceType::Block, major: 1, minor: 3 },
        path: Path::root(),
        mode: 0,
        handle: DeviceHandle::Null,
    };
    assert_eq!(table.register(block), Ok(()));
}

#[test]
fn fd_set() {
    let mut set = FDSet::new();
    for fd in [0u32, 1, 63, 64, 1023, 1024, 5000] {
        assert!(!set.is_set(fd));
    }
    set.set(0);
    set.set(64);
    set.set(1023);
    set.set(1024);
    assert!(set.is_set(0));
    assert!(!set.is_set(1));
    assert!(!set.is_set(63));
    assert!(set.is_set(64));
    assert!(!set.is_set(65));
    assert!(set.is_set(1023));
    assert!(!set.is_set(1024));
    set.clear(64);
    set.clear(5);
    set.clear(4000);
    assert!(!set.is_set(64));
    assert!(set.is_set(0));
    assert!(set.is_set(1023));
    assert_eq!(FD_SETSIZE, 1024);
}

#[test]
fn select_interest_and_mask() {
    let mut r = FDSet::new();
    let w = FDSet::new();
    r.set(3);
    let readfds = Some(r);
    let writefds = Some(w);
    let exceptfds: Option<FDSet> = None;
    let asked = interest(&readfds, &writefds, &exceptfds, 3);
    assert!(asked.read && !asked.write && !asked.except);
    assert_eq!(asked.get_mask(), POLLIN);
    let asked = interest(&readfds, &writefds, &exceptfds, 4);
    assert!(!asked.read && !asked.write && !asked.except);
    assert_eq!(asked.get_mask(), 0);
    assert_eq!(Interest { read: true, write: true, except: true }.get_mask(), POLLIN | POLLOUT | POLLPRI);
    assert_eq!(Interest { read: false, write: true, except: true }.get_mask(), POLLOUT | POLLPRI);
}

#[test]
fn select_record() {
    let mut r = FDSet::new();
    let mut w = FDSet::new();
    r.set(3);
    w.set(3);
    let mut readfds = Some(r);
    let mut writefds = Some(w);
    let mut exceptfds: Option<FDSet> = None;
    // Only writing is possible: the descriptor leaves the read set.
    assert_eq!(record(&mut readfds, &mut writefds, &mut exceptfds, 3, POLLOUT | POLLPRI), 1);
    assert!(!readfds.as_ref().unwrap().is_set(3));
    assert!(writefds.as_ref().unwrap().is_set(3));
    assert!(exceptfds.is_none());
    // A descriptor that was not watched does not enter a set.
    assert_eq!(record(&mut readfds, &mut writefds, &mut exceptfds, 4, POLLIN | POLLOUT), 0);
    assert!(!readfds.as_ref().unwrap().is_set(4));
    assert!(!writefds.as_ref().unwrap().is_set(4));
}

#[test]
fn select_pass() {
    let mut r = FDSet::new();
    let mut w = FDSet::new();
    let mut e = FDSet::new();
    r.set(0);
    r.set(2);
    w.set(2);
    e.set(3);
    r.set(7);
    let mut readfds = Some(r);
    let mut writefds = Some(w);
    let mut exceptfds = Some(e);
    let polled = vec![
        Polled::Ready(POLLIN),
        Polled::Closed,
        Polled::Ready(POLLIN | POLLOUT),
        Polled::Ready(POLLIN),
        Polled::Ready(0),
    ];
    let pass = match do_select(5, &mut readfds, &mut writefds, &mut exceptfds, &polled) {
        Ok(pass) => pass,
        Err(_) => panic!("the pass failed"),
    };
    assert_eq!(pass.events_count, 3);
    assert!(!pass.all_zeros);
    let r = readfds.as_ref().unwrap();
    assert!(r.is_set(0) && r.is_set(2));
    // Descriptors past `nfds` are left alone.
    assert!(r.is_set(7));
    assert!(writefds.as_ref().unwrap().is_set(2));
    assert!(!exceptfds.as_ref().unwrap().is_set(3));

    // Nothing watched.
    let mut none_r: Option<FDSet> = None;
    let mut none_w: Option<FDSet> = Some(FDSet::new());
    let mut none_e: Option<FDSet> = None;
    let pass = match do_select(3, &mut none_r, &mut none_w, &mut none_e, &polled) {
        Ok(pass) => pass,
        Err(_) => panic!("the pass failed"),
    };
    assert_eq!(pass.events_count, 0);
    assert!(pass.all_zeros);
    let pass = match do_select(0, &mut readfds, &mut writefds, &mut exceptfds, &Vec::new()) {
        Ok(pass) => pass,
        Err(_) => panic!("the pass failed"),
    };
    assert_eq!(pass.events_count, 0);
    assert!(pass.all_zeros);
}

#[test]
fn select_pass_errors() {
    let mut r = FDSet::new();
    r.set(0);
    r.set(1);
    r.set(2);
    let mut readfds = Some(r);
    let mut writefds: Option<FDSet> = None;
    let mut exceptfds: Option<FDSet> = None;
    let polled = vec![Polled::Ready(0), Polled::Closed, Polled::Ready(POLLIN)];
    match do_select(3, &mut readfds, &mut writefds, &mut exceptfds, &polled) {
        Err(e) => assert_eq!(e, Errno::BadDescriptor),
        Ok(_) => panic!("the pass succeeded"),
    }
    // What was recorded before the error stays.
    assert!(!readfds.as_ref().unwrap().is_set(0));
    assert!(readfds.as_ref().unwrap().is_set(1));
    assert!(readfds.as_ref().unwrap().is_set(2));
    let polled = vec![Polled::Failed(Errno::IoError), Polled::Closed, Polled::Ready(POLLIN)];
    match do_select(3, &mut readfds, &mut writefds, &mut exceptfds, &polled) {
        Err(e) => assert_eq!(e, Errno::IoError),
        Ok(_) => panic!("the pass succeeded"),
    }
}

#[test]
fn select_after_pass() {
    assert_eq!(after_pass(false, false, 2, 0, 10), Verdict::Return(2));
    assert_eq!(after_pass(true, false, 0, 0, 10), Verdict::Return(0));
    assert_eq!(after_pass(false, true, 0, 0, 10), Verdict::Return(0));
    assert_eq!(after_pass(false, false, 0, 9, 10), Verdict::Wait);
    assert_eq!(after_pass(false, false, 0, 10, 10), Verdict::Return(0));
    assert_eq!(after_pass(false, false, 0, 11, 10), Verdict::Return(0));
}

#[test]
fn select_one_descriptor_at_a_time() {
    let mut r = FDSet::new();
    r.set(0);
    r.set(2);
    let mut w = FDSet::new();
    w.set(2);
    let mut readfds = Some(r);
    let mut writefds = Some(w);
    let mut exceptfds: Option<FDSet> = None;
    let mut pass = Pass { events_count: 0, all_zeros: true };
    // Watched for reading, and nothing is pending: the descriptor leaves the set.
    let step = pass_descriptor(0, &mut readfds, &mut writefds, &mut exceptfds, &mut pass, Polled::Ready(POLLOUT));
    assert_eq!(step, Ok(()));
    assert_eq!((pass.events_count, pass.all_zeros), (0, false));
    assert!(!readfds.as_ref().unwrap().is_set(0));
    // Not watched and not open: passed over.
    let step = pass_descriptor(1, &mut readfds, &mut writefds, &mut exceptfds, &mut pass, Polled::Closed);
    assert_eq!(step, Ok(()));
    assert_eq!((pass.events_count, pass.all_zeros), (0, false));
    // Watched for reading and writing, and both are pending.
    let step = pass_descriptor(
        2,
        &mut readfds,
        &mut writefds,
        &mut exceptfds,
        &mut pass,
        Polled::Ready(POLLIN | POLLOUT | POLLPRI),
    );
    assert_eq!(step, Ok(()));
    assert_eq!((pass.events_count, pass.all_zeros), (2, false));
    assert!(readfds.as_ref().unwrap().is_set(2));
    assert!(writefds.as_ref().unwrap().is_set(2));
    // An error leaves the sets and the counts as they are.
    let step = pass_descriptor(2, &mut readfds, &mut writefds, &mut exceptfds, &mut pass, Polled::Closed);
    assert_eq!(step, Err(Errno::BadDescriptor));
    let step = pass_descriptor(
        2,
        &mut readfds,
        &mut writefds,
        &mut exceptfds,
        &mut pass,
        Polled::Failed(Errno::IoError),
    );
    assert_eq!(step, Err(Errno::IoError));
    assert_eq!((pass.events_count, pass.all_zeros), (2, false));
    assert!(readfds.as_ref().unwrap().is_set(2));
    assert!(writefds.as_ref().unwrap().is_set(2));
    // A pass over descriptors that are not watched finds that none is.
    let mut pass = Pass { events_count: 0, all_zeros: true };
    let step = pass_descriptor(5, &mut readfds, &mut writefds, &mut exceptfds, &mut pass, Polled::Ready(POLLIN));
    assert_eq!(step, Ok(()));
    assert_eq!((pass.events_count, pass.all_zeros), (0, true));
}
