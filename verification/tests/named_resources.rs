use kernel::buffer::get;
use kernel::buffer::get_or_default;
use kernel::buffer::register;
use kernel::buffer::release;
use kernel::buffer::Buffers;
use kernel::errno::Errno;
use kernel::file::File;
use kernel::file::FileContent;
use kernel::file::FileLocation;
use kernel::id_allocator::IDAllocator;
use kernel::path::Path;
use kernel::pipe::PipeBuffer;
use kernel::pipe::Socket;
use kernel::pipe::PIPE_CAPACITY;
use kernel::registry::Registry;
use kernel::tmpfs::TmpFs;
use kernel::vfs::get as get_vfs;
use kernel::vfs::Instance;
use kernel::vfs::VFS;

fn loc(inode: u64) -> FileLocation {
    FileLocation::Filesystem { mountpoint_id: Some(0), inode }
}

fn root_vfs() -> VFS<TmpFs> {
    let mut vfs: VFS<TmpFs> = VFS::new().unwrap();
    vfs.mount(&Path::root(), TmpFs::new(0, 0, 0o755, false), false).unwrap();
    vfs
}

#[test]
fn named_fifo_is_shared() {
    let mut vfs = root_vfs();
    let first = vfs.get_named_fifo(&loc(5)).unwrap();
    let second = vfs.get_named_fifo(&loc(5)).unwrap();
    assert_eq!(first, second);
    let other = vfs.get_named_fifo(&loc(6)).unwrap();
    assert_ne!(first, other);
    // What is written through one handle is read through the other.
    assert_eq!(vfs.write_named_fifo(first, b"hello"), Ok(5));
    assert_eq!(vfs.read_named_fifo(second, 2), Ok(b"he".to_vec()));
    assert_eq!(vfs.read_named_fifo(second, 16), Ok(b"llo".to_vec()));
    assert_eq!(vfs.read_named_fifo(first, 16), Ok(Vec::new()));
    assert_eq!(vfs.write_named_fifo(99, b"x"), Err(Errno::BadDescriptor));
    assert_eq!(vfs.read_named_fifo(99, 1), Err(Errno::BadDescriptor));
    assert_eq!(vfs.named_pipes.get(other).unwrap().get_available_len(), 0);
    assert!(vfs.named_pipes.get(99).is_none());
}

#[test]
fn named_socket_is_shared() {
    let mut vfs = root_vfs();
    let first = vfs.get_named_socket(&loc(5)).unwrap();
    let second = vfs.get_named_socket(&loc(5)).unwrap();
    assert_eq!(first, second);
    let other = vfs.get_named_socket(&FileLocation::Virtual { id: 5 }).unwrap();
    assert_ne!(first, other);
    vfs.named_sockets.slots[first].as_mut().unwrap().resource.incoming.write(b"ping");
    let socket: &Socket = vfs.named_sockets.get(second).unwrap();
    assert_eq!(socket.incoming.get_available_len(), 4);
    assert_eq!(socket.outgoing.get_available_len(), 0);
    // Pipes and sockets are kept apart.
    assert!(vfs.named_pipes.find(&loc(5)).is_none());
}

#[test]
fn removing_a_linked_fifo_drops_its_buffer() {
    let mut vfs = root_vfs();
    let mut root: File = vfs.get_file_from_path(&Path::root(), 0, 0, true).unwrap();
    vfs.create_file(&mut root, b"only".to_vec(), 0, 0, 0o644, FileContent::Fifo).unwrap();
    vfs.create_file(&mut root, b"first".to_vec(), 0, 0, 0o644, FileContent::Fifo).unwrap();
    vfs.create_file(&mut root, b"sock".to_vec(), 0, 0, 0o644, FileContent::Socket).unwrap();
    let first = vfs
        .get_file_from_path(&Path::from_str(b"/first", false).unwrap(), 0, 0, true)
        .unwrap();
    assert_eq!(vfs.create_link(&first, &root, b"second".to_vec(), 0, 0), Ok(()));
    let sock = vfs
        .get_file_from_path(&Path::from_str(b"/sock", false).unwrap(), 0, 0, true)
        .unwrap();
    assert_eq!(vfs.create_link(&sock, &root, b"sock2".to_vec(), 0, 0), Ok(()));

    let only = vfs
        .get_file_from_path(&Path::from_str(b"/only", false).unwrap(), 0, 0, true)
        .unwrap();
    let first = vfs
        .get_file_from_path(&Path::from_str(b"/first", false).unwrap(), 0, 0, true)
        .unwrap();
    let sock = vfs
        .get_file_from_path(&Path::from_str(b"/sock", false).unwrap(), 0, 0, true)
        .unwrap();
    assert_eq!(only.get_hard_links_count(), 1);
    assert_eq!(first.get_hard_links_count(), 2);
    assert_eq!(sock.get_hard_links_count(), 2);
    let h_only = vfs.get_named_fifo(only.get_location()).unwrap();
    let h_first = vfs.get_named_fifo(first.get_location()).unwrap();
    let h_sock = vfs.get_named_socket(sock.get_location()).unwrap();

    // With more than one hard link, the buffer bound to the location is dropped.
    assert_eq!(vfs.remove_file(&first, 0, 0), Ok(()));
    assert!(vfs.named_pipes.find(first.get_location()).is_none());
    assert!(vfs.named_pipes.get(h_first).is_none());
    assert_eq!(vfs.remove_file(&sock, 0, 0), Ok(()));
    assert!(vfs.named_sockets.find(sock.get_location()).is_none());
    assert!(vfs.named_sockets.get(h_sock).is_none());
    // With one hard link, the buffer stays; its handle is as it was.
    assert_eq!(vfs.remove_file(&only, 0, 0), Ok(()));
    assert_eq!(vfs.named_pipes.find(only.get_location()), Some(h_only));
    // A failed removal drops nothing.
    let h_again = vfs.get_named_fifo(first.get_location()).unwrap();
    assert_eq!(vfs.remove_file(&first, 0, 0), Err(Errno::NotFound));
    assert_eq!(vfs.named_pipes.find(first.get_location()), Some(h_again));
}

#[test]
fn registry_reuses_free_slots_and_keeps_handles() {
    let mut r: Registry<u32> = Registry::new();
    assert!(r.find(&loc(1)).is_none());
    let a = r.insert(loc(1), 10);
    let b = r.insert(loc(2), 20);
    let c = r.insert(loc(3), 30);
    assert_eq!((a, b, c), (0, 1, 2));
    assert_eq!(r.remove(&loc(2)), Some(20));
    assert_eq!(r.remove(&loc(2)), None);
    assert_eq!(r.find(&loc(3)), Some(2));
    assert_eq!(r.get(c), Some(&30));
    assert!(r.get(b).is_none());
    let d = r.insert(loc(4), 40);
    assert_eq!(d, 1);
    assert_eq!(r.find(&loc(1)), Some(0));
    assert_eq!(r.get(a), Some(&10));
}

#[test]
fn pipe_buffer_is_first_in_first_out() {
    let mut pipe = PipeBuffer::new();
    assert_eq!(pipe.get_available_len(), 0);
    assert_eq!(pipe.write(b"abc"), 3);
    assert_eq!(pipe.write(b"de"), 2);
    assert_eq!(pipe.get_available_len(), 5);
    assert_eq!(pipe.read(2), b"ab".to_vec());
    assert_eq!(pipe.read(0), Vec::<u8>::new());
    assert_eq!(pipe.read(10), b"cde".to_vec());
    assert_eq!(pipe.read(10), Vec::<u8>::new());
    // A full pipe takes no more than it has room for.
    let big = vec![7u8; PIPE_CAPACITY - 1];
    assert_eq!(pipe.write(&big), PIPE_CAPACITY - 1);
    assert_eq!(pipe.write(b"xyz"), 1);
    assert_eq!(pipe.write(b"xyz"), 0);
    assert_eq!(pipe.get_available_len(), PIPE_CAPACITY);
    let all = pipe.read(PIPE_CAPACITY);
    assert_eq!(all[PIPE_CAPACITY - 1], b'x');
    assert_eq!(all[0], 7);
}

#[test]
fn pipe_buffer_counts_open_ends() {
    let mut pipe = PipeBuffer::new();
    pipe.increment_open(true, false);
    pipe.increment_open(true, true);
    assert_eq!((pipe.read_ends, pipe.write_ends), (2, 1));
    pipe.decrement_open(false, true);
    pipe.decrement_open(false, true);
    assert_eq!((pipe.read_ends, pipe.write_ends), (2, 0));
    pipe.decrement_open(true, false);
    assert_eq!((pipe.read_ends, pipe.write_ends), (1, 0));
}

#[test]
fn id_allocator_gives_the_lowest_free_identifier() {
    let mut a = IDAllocator::new(4);
    assert!(!a.is_used(0));
    assert_eq!(a.alloc_lowest(), Ok(0));
    assert_eq!(a.alloc_lowest(), Ok(1));
    assert!(a.set_used(3));
    assert!(!a.set_used(4));
    assert_eq!(a.alloc_lowest(), Ok(2));
    assert_eq!(a.alloc_lowest(), Err(Errno::InvalidArgument));
    a.free(1);
    a.free(9);
    assert!(!a.is_used(1));
    assert!(a.is_used(3));
    assert!(!a.is_used(4));
    assert_eq!(a.alloc_lowest(), Ok(1));
    assert_eq!(IDAllocator::new(0).alloc_lowest(), Err(Errno::InvalidArgument));
}

#[test]
fn buffers_register_and_release() {
    let mut buffers: Buffers<u32> = Buffers::new();
    assert!(get(&buffers, &loc(1)).is_none());
    // Without a location, the lowest free virtual location is given.
    assert_eq!(register(&mut buffers, None, 10), Ok(FileLocation::Virtual { id: 0 }));
    assert_eq!(register(&mut buffers, None, 11), Ok(FileLocation::Virtual { id: 1 }));
    // A virtual location that is given counts as used.
    assert_eq!(
        register(&mut buffers, Some(FileLocation::Virtual { id: 2 }), 12),
        Ok(FileLocation::Virtual { id: 2 })
    );
    assert_eq!(register(&mut buffers, None, 13), Ok(FileLocation::Virtual { id: 3 }));
    assert_eq!(register(&mut buffers, Some(loc(7)), 70), Ok(loc(7)));
    let h = get(&buffers, &loc(7)).unwrap();
    assert_eq!(buffers.registry.get(h), Some(&70));
    // Registering again replaces the buffer.
    assert_eq!(register(&mut buffers, Some(loc(7)), 71), Ok(loc(7)));
    let h = get(&buffers, &loc(7)).unwrap();
    assert_eq!(buffers.registry.get(h), Some(&71));
    // An identifier out of range is refused.
    assert_eq!(
        register(&mut buffers, Some(FileLocation::Virtual { id: 65536 }), 0),
        Err(Errno::InvalidArgument)
    );
    assert!(get(&buffers, &FileLocation::Virtual { id: 65536 }).is_none());
    // A released virtual location is given again.
    release(&mut buffers, &FileLocation::Virtual { id: 1 });
    assert!(get(&buffers, &FileLocation::Virtual { id: 1 }).is_none());
    release(&mut buffers, &FileLocation::Virtual { id: 1 });
    release(&mut buffers, &loc(99));
    assert_eq!(register(&mut buffers, None, 14), Ok(FileLocation::Virtual { id: 1 }));
    release(&mut buffers, &loc(7));
    assert!(get(&buffers, &loc(7)).is_none());
}

#[test]
fn buffers_get_or_default() {
    let mut buffers: Buffers<u32> = Buffers::new();
    let h = get_or_default(&mut buffers, &loc(1), 5).unwrap();
    assert_eq!(buffers.registry.get(h), Some(&5));
    let again = get_or_default(&mut buffers, &loc(1), 6).unwrap();
    assert_eq!(again, h);
    assert_eq!(buffers.registry.get(h), Some(&5));
    // Release before any virtual location was given.
    release(&mut buffers, &FileLocation::Virtual { id: 3 });
    assert!(buffers.id_allocator.is_none());
}

#[test]
fn instance_is_created_once() {
    let mut instance: Instance<TmpFs> = Instance::new();
    assert!(!instance.is_initialized());
    assert!(get_vfs(&mut instance).is_none());
    assert_eq!(instance.init(), Ok(()));
    assert!(instance.is_initialized());
    {
        let vfs = get_vfs(&mut instance).unwrap();
        vfs.mount(&Path::root(), TmpFs::new(0, 0, 0o755, false), false).unwrap();
    }
    assert_eq!(instance.init(), Err(Errno::AlreadyExists));
    // The second call left the mounted filesystem alone.
    let vfs = get_vfs(&mut instance).unwrap();
    assert!(vfs.get_file_from_path(&Path::root(), 0, 0, true).is_ok());
}
