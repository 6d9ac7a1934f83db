use kernel::errno::Errno;
use kernel::file::File;
use kernel::file::FileContent;
use kernel::file::FileLocation;
use kernel::file::FileType;
use kernel::filesystem::Filesystem;
use kernel::path::Path;
use kernel::pool::FilePool;
use kernel::tmpfs::TmpFs;
use kernel::tmpfs::MAX_NODES;
use kernel::tmpfs::ROOT_INODE;

fn p(text: &str) -> Path {
    Path::from_str(text.as_bytes(), false).unwrap()
}

fn err<T>(r: Result<T, Errno>) -> Errno {
    match r {
        Ok(_) => panic!("the operation succeeded"),
        Err(e) => e,
    }
}

#[test]
fn tmpfs_add_lookup_load() {
    let mut fs = TmpFs::new(1, 2, 0o750, false);
    assert!(!fs.is_readonly());
    assert_eq!(fs.get_root_inode(), Ok(ROOT_INODE));
    let root = fs.load_file(ROOT_INODE, Vec::new()).unwrap();
    assert_eq!(root.get_uid(), 1);
    assert_eq!(root.get_gid(), 2);
    assert_eq!(root.get_mode(), 0o750);
    assert_eq!(root.get_file_type(), FileType::Directory);
    assert_eq!(err(fs.get_inode(Some(0), &b"a".to_vec())), Errno::NotFound);
    assert_eq!(err(fs.get_inode(Some(7), &b"a".to_vec())), Errno::NotFound);
    assert_eq!(err(fs.load_file(7, b"a".to_vec())), Errno::NotFound);

    let a = fs.add_file(0, b"a".to_vec(), 3, 4, 0o644, FileContent::Regular).unwrap();
    assert_eq!(*a.get_location(), FileLocation::Filesystem { mountpoint_id: None, inode: 1 });
    assert_eq!((a.get_uid(), a.get_gid(), a.get_mode()), (3, 4, 0o644));
    assert_eq!(a.get_name(), &b"a".to_vec());
    assert_eq!(a.get_hard_links_count(), 1);
    assert_eq!(fs.get_inode(Some(0), &b"a".to_vec()), Ok(1));
    assert_eq!(fs.get_inode(None, &b"a".to_vec()), Ok(1));
    let loaded = fs.load_file(1, b"a".to_vec()).unwrap();
    assert_eq!(loaded.get_mode(), 0o644);
    assert_eq!(loaded.get_file_type(), FileType::Regular);
    // A lookup in what is no directory.
    assert_eq!(err(fs.get_inode(Some(1), &b"x".to_vec())), Errno::NotADirectory);
    assert_eq!(
        err(fs.add_file(1, b"x".to_vec(), 0, 0, 0, FileContent::Regular)),
        Errno::NotADirectory
    );
    assert_eq!(
        err(fs.add_file(9, b"x".to_vec(), 0, 0, 0, FileContent::Regular)),
        Errno::NotFound
    );
    assert_eq!(
        err(fs.add_file(0, b"a".to_vec(), 0, 0, 0, FileContent::Regular)),
        Errno::AlreadyExists
    );
    // A new directory is empty, whatever entries are handed in.
    let stale = vec![kernel::file::DirEntry {
        name: b"ghost".to_vec(),
        inode: 1,
        entry_type: FileType::Regular,
    }];
    let d = fs.add_file(0, b"d".to_vec(), 0, 0, 0o755, FileContent::Directory(stale)).unwrap();
    match d.get_file_content() {
        FileContent::Directory(entries) => assert!(entries.is_empty()),
        _ => panic!("not a directory"),
    }
    assert_eq!(err(fs.get_inode(Some(2), &b"ghost".to_vec())), Errno::NotFound);
    let l = fs.add_file(2, b"l".to_vec(), 0, 0, 0o777, FileContent::Link(b"../a".to_vec())).unwrap();
    match l.get_file_content() {
        FileContent::Link(target) => assert_eq!(target, &b"../a".to_vec()),
        _ => panic!("not a link"),
    }
}

#[test]
fn tmpfs_links_and_removal() {
    let mut fs = TmpFs::new(0, 0, 0o755, false);
    fs.add_file(0, b"a".to_vec(), 0, 0, 0o644, FileContent::Regular).unwrap();
    fs.add_file(0, b"d".to_vec(), 0, 0, 0o755, FileContent::Directory(Vec::new())).unwrap();
    assert_eq!(fs.add_link(2, &b"b".to_vec(), 1), Ok(()));
    assert_eq!(fs.get_inode(Some(2), &b"b".to_vec()), Ok(1));
    assert_eq!(fs.load_file(1, b"b".to_vec()).unwrap().get_hard_links_count(), 2);
    assert_eq!(err(fs.add_link(2, &b"b".to_vec(), 1)), Errno::AlreadyExists);
    assert_eq!(err(fs.add_link(2, &b"c".to_vec(), 9)), Errno::NotFound);
    assert_eq!(err(fs.add_link(2, &b"c".to_vec(), 2)), Errno::NotPermitted);
    assert_eq!(err(fs.add_link(1, &b"c".to_vec(), 1)), Errno::NotADirectory);
    assert_eq!(err(fs.add_link(9, &b"c".to_vec(), 1)), Errno::NotFound);

    // A directory that holds something is not removed.
    assert_eq!(err(fs.remove_file(0, &b"d".to_vec())), Errno::NotEmpty);
    assert_eq!(err(fs.remove_file(0, &b"zz".to_vec())), Errno::NotFound);
    assert_eq!(err(fs.remove_file(1, &b"zz".to_vec())), Errno::NotADirectory);
    assert_eq!(fs.remove_file(0, &b"a".to_vec()), Ok(()));
    assert_eq!(err(fs.get_inode(Some(0), &b"a".to_vec())), Errno::NotFound);
    // The node lives on under its other name.
    assert_eq!(fs.load_file(1, b"b".to_vec()).unwrap().get_hard_links_count(), 1);
    assert_eq!(fs.remove_file(2, &b"b".to_vec()), Ok(()));
    assert_eq!(err(fs.load_file(1, b"b".to_vec())), Errno::NotFound);
    assert_eq!(fs.remove_file(0, &b"d".to_vec()), Ok(()));
    assert_eq!(err(fs.load_file(2, b"d".to_vec())), Errno::NotFound);
    // Numbers are not used again.
    let f = fs.add_file(0, b"n".to_vec(), 0, 0, 0o644, FileContent::Regular).unwrap();
    assert_eq!(f.get_location().get_inode(), Some(3));
}

#[test]
fn tmpfs_read_only_and_full() {
    let mut fs = TmpFs::new(0, 0, 0o755, true);
    assert!(fs.is_readonly());
    assert_eq!(
        err(fs.add_file(0, b"a".to_vec(), 0, 0, 0, FileContent::Regular)),
        Errno::ReadOnlyFilesystem
    );
    assert_eq!(err(fs.add_link(0, &b"a".to_vec(), 0)), Errno::ReadOnlyFilesystem);
    fs.readonly = false;
    let a = fs.add_file(0, b"a".to_vec(), 0, 0, 0o600, FileContent::Regular).unwrap();
    fs.readonly = true;
    assert_eq!(err(fs.remove_file(0, &b"a".to_vec())), Errno::ReadOnlyFilesystem);
    assert_eq!(err(fs.update_inode(&a)), Errno::ReadOnlyFilesystem);
    // An existing name is reported before anything else.
    assert_eq!(
        err(fs.add_file(0, b"a".to_vec(), 0, 0, 0, FileContent::Regular)),
        Errno::AlreadyExists
    );
    fs.readonly = false;
    let mut d = fs.add_file(0, b"d".to_vec(), 0, 0, 0o755, FileContent::Directory(Vec::new())).unwrap();
    let dir = d.get_location().get_inode().unwrap();
    for i in 3..MAX_NODES {
        let name = format!("f{}", i).into_bytes();
        fs.add_file(dir, name, 0, 0, 0o644, FileContent::Fifo).unwrap();
    }
    assert_eq!(
        err(fs.add_file(dir, b"last".to_vec(), 0, 0, 0o644, FileContent::Fifo)),
        Errno::NoSpace
    );
    d.set_permissions(0);
}

#[test]
fn tmpfs_update_inode() {
    let mut fs = TmpFs::new(0, 0, 0o755, false);
    let mut a = fs.add_file(0, b"a".to_vec(), 1, 1, 0o644, FileContent::Regular).unwrap();
    a.set_permissions(0o600);
    a.uid = 5;
    a.gid = 6;
    assert_eq!(fs.update_inode(&a), Ok(()));
    let loaded = fs.load_file(1, b"a".to_vec()).unwrap();
    assert_eq!((loaded.get_uid(), loaded.get_gid(), loaded.get_mode()), (5, 6, 0o600));
    let root = fs.load_file(0, Vec::new()).unwrap();
    assert_eq!(root.get_mode(), 0o755);
    let virtual_file = File::new(Vec::new(), 0, 0, 0, FileLocation::Virtual { id: 1 }, FileContent::Regular);
    assert_eq!(err(fs.update_inode(&virtual_file)), Errno::InvalidArgument);
    let gone = File::new(
        Vec::new(),
        0,
        0,
        0,
        FileLocation::Filesystem { mountpoint_id: None, inode: 50 },
        FileContent::Regular,
    );
    assert_eq!(err(fs.update_inode(&gone)), Errno::NotFound);
}

fn some_file(inode: u64) -> File {
    File::new(
        b"f".to_vec(),
        0,
        0,
        0o644,
        FileLocation::Filesystem { mountpoint_id: Some(0), inode },
        FileContent::Regular,
    )
}

#[test]
fn pool_remembers_and_counts() {
    let mut pool = FilePool::new(4);
    assert_eq!(pool.len(), 0);
    assert!(pool.lookup(&p("/a"), true).is_none());
    assert!(pool.insert(p("/a"), true, some_file(1)));
    assert!(pool.insert(p("/a"), false, some_file(2)));
    assert_eq!(pool.len(), 2);
    assert_eq!(pool.lookup(&p("/a"), true).unwrap().get_location().get_inode(), Some(1));
    assert_eq!(pool.lookup(&p("/a"), false).unwrap().get_location().get_inode(), Some(2));
    assert_eq!(pool.lookup(&p("a"), true).unwrap().get_location().get_inode(), Some(1));
    assert!(pool.lookup(&p("/b"), true).is_none());
    assert_eq!(pool.slots[0].access_count, 2);
    assert_eq!(pool.slots[1].access_count, 1);
    // A path that is remembered gets the new file and keeps its counts.
    assert!(pool.insert(p("/a"), true, some_file(9)));
    assert_eq!(pool.len(), 2);
    assert_eq!(pool.slots[0].access_count, 2);
    assert_eq!(pool.lookup(&p("/a"), true).unwrap().get_location().get_inode(), Some(9));
    assert_eq!(pool.find(&p("/a"), false), Some(1));
    assert_eq!(pool.find(&p("/zz"), false), None);
}

#[test]
fn pool_evicts_the_least_accessed_unpinned_slot() {
    let mut pool = FilePool::new(3);
    assert!(pool.insert(p("/a"), true, some_file(1)));
    assert!(pool.insert(p("/b"), true, some_file(2)));
    assert!(pool.insert(p("/c"), true, some_file(3)));
    pool.lookup(&p("/a"), true);
    pool.lookup(&p("/a"), true);
    pool.lookup(&p("/c"), true);
    assert_eq!(pool.find_victim(), Some(1));
    // The least accessed slot is pinned: the next one goes.
    assert!(pool.pin(&p("/b"), true));
    assert!(!pool.pin(&p("/zz"), true));
    assert_eq!(pool.find_victim(), Some(2));
    assert!(pool.insert(p("/d"), true, some_file(4)));
    assert_eq!(pool.len(), 3);
    assert!(pool.lookup(&p("/c"), true).is_none());
    assert!(pool.find(&p("/b"), true).is_some());
    assert_eq!(pool.find(&p("/d"), true), Some(2));
    assert_eq!(pool.slots[2].access_count, 0);
    // Among equals the first slot goes.
    assert!(pool.unpin(&p("/b"), true));
    assert!(!pool.unpin(&p("/b"), true));
    assert_eq!(pool.find_victim(), Some(1));
    // With every slot pinned nothing is evicted and nothing is remembered.
    assert!(pool.pin(&p("/a"), true));
    assert!(pool.pin(&p("/b"), true));
    assert!(pool.pin(&p("/d"), true));
    assert_eq!(pool.find_victim(), None);
    assert!(!pool.insert(p("/e"), true, some_file(5)));
    assert_eq!(pool.len(), 3);
    assert!(pool.find(&p("/e"), true).is_none());
    assert!(pool.find(&p("/a"), true).is_some());
    // A pinned path can still be refreshed.
    assert!(pool.insert(p("/a"), true, some_file(6)));
    let empty = FilePool::new(0);
    assert_eq!(empty.find_victim(), None);
    let mut empty = empty;
    assert!(!empty.insert(p("/a"), true, some_file(1)));
}

#[test]
fn pool_invalidates_by_location() {
    let mut pool = FilePool::new(8);
    pool.insert(p("/a"), true, some_file(1));
    pool.insert(p("/alias"), true, some_file(1));
    pool.insert(p("/b"), true, some_file(2));
    pool.insert(p("/c"), false, some_file(3));
    pool.invalidate(&FileLocation::Filesystem { mountpoint_id: Some(0), inode: 1 });
    assert_eq!(pool.len(), 2);
    assert_eq!(pool.find(&p("/b"), true), Some(0));
    assert_eq!(pool.find(&p("/c"), false), Some(1));
    pool.invalidate(&FileLocation::Filesystem { mountpoint_id: Some(1), inode: 2 });
    assert_eq!(pool.len(), 2);
    pool.invalidate(&FileLocation::Filesystem { mountpoint_id: Some(0), inode: 3 });
    pool.invalidate(&FileLocation::Filesystem { mountpoint_id: Some(0), inode: 2 });
    assert_eq!(pool.len(), 0);
}
