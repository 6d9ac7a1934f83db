use kernel::errno::Errno;
use kernel::file::File;
use kernel::file::FileContent;
use kernel::file::FileLocation;
use kernel::file::FileType;
use kernel::file::S_ISGID;
use kernel::filesystem::Filesystem;
use kernel::path::Path;
use kernel::tmpfs::TmpFs;
use kernel::vfs::VFS;

fn p(text: &str) -> Path {
    Path::from_str(text.as_bytes(), false).unwrap()
}

fn root_vfs() -> VFS<TmpFs> {
    let mut vfs: VFS<TmpFs> = VFS::new().unwrap();
    vfs.mount(&Path::root(), TmpFs::new(0, 0, 0o777, false), false).unwrap();
    vfs
}

fn err<T>(r: Result<T, Errno>) -> Errno {
    match r {
        Ok(_) => panic!("the operation succeeded"),
        Err(e) => e,
    }
}

fn dir(vfs: &mut VFS<TmpFs>, parent: &mut File, name: &str, uid: u16, gid: u16, mode: u32) -> File {
    vfs.create_file(parent, name.as_bytes().to_vec(), uid, gid, mode, FileContent::Directory(Vec::new()))
        .unwrap()
}

fn file(vfs: &mut VFS<TmpFs>, parent: &mut File, name: &str, uid: u16, gid: u16, mode: u32) -> File {
    vfs.create_file(parent, name.as_bytes().to_vec(), uid, gid, mode, FileContent::Regular).unwrap()
}

fn link(vfs: &mut VFS<TmpFs>, parent: &mut File, name: &str, target: &str) -> File {
    vfs.create_file(
        parent,
        name.as_bytes().to_vec(),
        0,
        0,
        0o777,
        FileContent::Link(target.as_bytes().to_vec()),
    )
    .unwrap()
}

#[test]
fn resolve_without_mountpoint_is_not_found() {
    let mut vfs: VFS<TmpFs> = VFS::new().unwrap();
    assert_eq!(err(vfs.get_file_from_path(&p("/"), 0, 0, true)), Errno::NotFound);
    assert_eq!(err(vfs.get_file_from_path(&p("/a"), 0, 0, true)), Errno::NotFound);
}

#[test]
fn resolve_missing_component_is_not_found() {
    let mut vfs = root_vfs();
    assert_eq!(err(vfs.get_file_from_path(&p("/missing"), 0, 0, true)), Errno::NotFound);
    assert_eq!(err(vfs.get_file_from_path(&p("/missing/deeper"), 0, 0, true)), Errno::NotFound);
}

#[test]
fn empty_path_resolves_to_root() {
    let mut vfs = root_vfs();
    let root = vfs.get_file_from_path(&p(""), 0, 0, true).unwrap();
    assert_eq!(root.get_file_type(), FileType::Directory);
    assert_eq!(root.get_name(), &Vec::<u8>::new());
    assert_eq!(*root.get_location(), FileLocation::Filesystem { mountpoint_id: Some(0), inode: 0 });
    assert_eq!(root.get_path().to_bytes(), b"/".to_vec());
}

#[test]
fn relative_path_is_taken_from_the_root() {
    let mut vfs = root_vfs();
    let mut root = vfs.get_file_from_path(&p("/"), 0, 0, true).unwrap();
    let mut a = dir(&mut vfs, &mut root, "a", 0, 0, 0o755);
    file(&mut vfs, &mut a, "b", 0, 0, 0o644);
    let relative = vfs.get_file_from_path(&p("a/b"), 0, 0, true).unwrap();
    let absolute = vfs.get_file_from_path(&p("/a/b"), 0, 0, true).unwrap();
    assert_eq!(relative.get_location(), absolute.get_location());
    assert_eq!(relative.get_path().to_bytes(), b"/a/b".to_vec());
}

#[test]
fn path_through_a_file_is_not_a_directory() {
    let mut vfs = root_vfs();
    let mut root = vfs.get_file_from_path(&p("/"), 0, 0, true).unwrap();
    file(&mut vfs, &mut root, "f", 0, 0, 0o777);
    assert_eq!(err(vfs.get_file_from_path(&p("/f/x"), 0, 0, true)), Errno::NotADirectory);
    let f = vfs.get_file_from_path(&p("/f"), 0, 0, true).unwrap();
    assert_eq!(err(vfs.get_file_from_parent(&f, b"x".to_vec(), 0, 0, true)), Errno::NotADirectory);
}

#[test]
fn traversal_needs_execute_permission() {
    let mut vfs = root_vfs();
    let mut root = vfs.get_file_from_path(&p("/"), 0, 0, true).unwrap();
    let mut closed = dir(&mut vfs, &mut root, "closed", 1, 1, 0o600);
    file(&mut vfs, &mut closed, "f", 1, 1, 0o644);
    // The superuser passes.
    assert!(vfs.get_file_from_path(&p("/closed/f"), 0, 0, true).is_ok());
    // The owner has no execute bit, nor has anybody else.
    assert_eq!(err(vfs.get_file_from_path(&p("/closed/f"), 1, 1, true)), Errno::PermissionDenied);
    assert_eq!(err(vfs.get_file_from_path(&p("/closed/f"), 2, 2, true)), Errno::PermissionDenied);
    // The directory itself can be named by anybody who may traverse the root.
    assert!(vfs.get_file_from_path(&p("/closed"), 2, 2, true).is_ok());
    assert_eq!(
        err(vfs.get_file_from_parent(&closed, b"f".to_vec(), 2, 2, false)),
        Errno::PermissionDenied
    );
}

#[test]
fn group_and_other_bits_grant_traversal() {
    let mut vfs = root_vfs();
    let mut root = vfs.get_file_from_path(&p("/"), 0, 0, true).unwrap();
    let mut d = dir(&mut vfs, &mut root, "d", 1, 7, 0o710);
    file(&mut vfs, &mut d, "f", 1, 7, 0o644);
    assert!(vfs.get_file_from_path(&p("/d/f"), 1, 1, true).is_ok());
    assert!(vfs.get_file_from_path(&p("/d/f"), 2, 7, true).is_ok());
    assert_eq!(err(vfs.get_file_from_path(&p("/d/f"), 2, 2, true)), Errno::PermissionDenied);
}

#[test]
fn create_twice_already_exists() {
    let mut vfs = root_vfs();
    let mut root = vfs.get_file_from_path(&p("/"), 0, 0, true).unwrap();
    file(&mut vfs, &mut root, "f", 0, 0, 0o644);
    let again = vfs.create_file(&mut root, b"f".to_vec(), 0, 0, 0o600, FileContent::Fifo);
    assert_eq!(err(again), Errno::AlreadyExists);
    // One entry only was made.
    match root.get_file_content() {
        FileContent::Directory(entries) => assert_eq!(entries.len(), 1),
        _ => panic!("not a directory"),
    }
    let loaded = vfs.get_file_from_path(&p("/"), 0, 0, true).unwrap();
    match loaded.get_file_content() {
        FileContent::Directory(entries) => {
            assert_eq!(entries.len(), 1);
            assert_eq!(entries[0].name, b"f".to_vec());
            assert_eq!(entries[0].entry_type, FileType::Regular);
        },
        _ => panic!("not a directory"),
    }
    assert_eq!(vfs.get_file_from_path(&p("/f"), 0, 0, true).unwrap().get_mode(), 0o644);
}

#[test]
fn create_twice_without_execute_permission_already_exists() {
    let mut vfs = root_vfs();
    let mut root = vfs.get_file_from_path(&p("/"), 0, 0, true).unwrap();
    // Write access without the right to traverse: the lookup fails, the driver refuses.
    let mut d = dir(&mut vfs, &mut root, "d", 1, 1, 0o200);
    vfs.create_file(&mut d, b"f".to_vec(), 1, 1, 0o644, FileContent::Regular).unwrap();
    let again = vfs.create_file(&mut d, b"f".to_vec(), 1, 1, 0o644, FileContent::Regular);
    assert_eq!(err(again), Errno::AlreadyExists);
}

#[test]
fn create_in_a_file_is_not_a_directory() {
    let mut vfs = root_vfs();
    let mut root = vfs.get_file_from_path(&p("/"), 0, 0, true).unwrap();
    let mut f = file(&mut vfs, &mut root, "f", 0, 0, 0o644);
    let r = vfs.create_file(&mut f, b"x".to_vec(), 0, 0, 0o644, FileContent::Regular);
    assert_eq!(err(r), Errno::NotADirectory);
}

#[test]
fn create_needs_write_permission() {
    let mut vfs = root_vfs();
    let mut root = vfs.get_file_from_path(&p("/"), 0, 0, true).unwrap();
    let mut d = dir(&mut vfs, &mut root, "d", 1, 1, 0o755);
    let r = vfs.create_file(&mut d, b"x".to_vec(), 2, 2, 0o644, FileContent::Regular);
    assert_eq!(err(r), Errno::PermissionDenied);
    assert!(vfs.create_file(&mut d, b"x".to_vec(), 1, 2, 0o644, FileContent::Regular).is_ok());
}

#[test]
fn create_under_sgid_takes_the_group_of_the_directory() {
    let mut vfs = root_vfs();
    let mut root = vfs.get_file_from_path(&p("/"), 0, 0, true).unwrap();
    let mut shared = dir(&mut vfs, &mut root, "shared", 1, 42, 0o777 | S_ISGID);
    let created = vfs
        .create_file(&mut shared, b"f".to_vec(), 5, 6, 0o644, FileContent::Regular)
        .unwrap();
    assert_eq!(created.get_uid(), 5);
    assert_eq!(created.get_gid(), 42);
    let loaded = vfs.get_file_from_path(&p("/shared/f"), 0, 0, true).unwrap();
    assert_eq!(loaded.get_gid(), 42);
    assert_eq!(loaded.get_uid(), 5);

    let mut plain = dir(&mut vfs, &mut root, "plain", 1, 42, 0o777);
    let created = vfs
        .create_file(&mut plain, b"f".to_vec(), 5, 6, 0o644, FileContent::Regular)
        .unwrap();
    assert_eq!(created.get_gid(), 6);
}

#[test]
fn create_on_a_parent_without_mountpoint_is_not_found() {
    let mut vfs = root_vfs();
    let mut stray = File::new(
        b"stray".to_vec(),
        0,
        0,
        0o755,
        FileLocation::Filesystem { mountpoint_id: Some(99), inode: 0 },
        FileContent::Directory(Vec::new()),
    );
    let r = vfs.create_file(&mut stray, b"x".to_vec(), 0, 0, 0o644, FileContent::Regular);
    assert_eq!(err(r), Errno::NotFound);
    let mut unknown = File::new(
        b"unknown".to_vec(),
        0,
        0,
        0o755,
        FileLocation::Filesystem { mountpoint_id: None, inode: 0 },
        FileContent::Directory(Vec::new()),
    );
    let r = vfs.create_file(&mut unknown, b"x".to_vec(), 0, 0, 0o644, FileContent::Regular);
    assert_eq!(err(r), Errno::NotFound);
    let mut virtual_dir = File::new(
        b"virtual".to_vec(),
        0,
        0,
        0o755,
        FileLocation::Virtual { id: 3 },
        FileContent::Directory(Vec::new()),
    );
    let r = vfs.create_file(&mut virtual_dir, b"x".to_vec(), 0, 0, 0o644, FileContent::Regular);
    assert_eq!(err(r), Errno::NotFound);
}

#[test]
fn read_only_mountpoint_refuses_changes() {
    let mut vfs: VFS<TmpFs> = VFS::new().unwrap();
    vfs.mount(&Path::root(), TmpFs::new(0, 0, 0o755, false), true).unwrap();
    let mut root = vfs.get_file_from_path(&p("/"), 0, 0, true).unwrap();
    let r = vfs.create_file(&mut root, b"x".to_vec(), 0, 0, 0o644, FileContent::Regular);
    assert_eq!(err(r), Errno::ReadOnlyFilesystem);
}

#[test]
fn read_only_filesystem_refuses_changes() {
    let mut fs = TmpFs::new(0, 0, 0o755, false);
    fs.add_file(0, b"f".to_vec(), 0, 0, 0o644, FileContent::Regular).unwrap();
    fs.readonly = true;
    let mut vfs: VFS<TmpFs> = VFS::new().unwrap();
    vfs.mount(&Path::root(), fs, false).unwrap();
    let mut root = vfs.get_file_from_path(&p("/"), 0, 0, true).unwrap();
    let r = vfs.create_file(&mut root, b"x".to_vec(), 0, 0, 0o644, FileContent::Regular);
    assert_eq!(err(r), Errno::ReadOnlyFilesystem);
    let f = vfs.get_file_from_path(&p("/f"), 0, 0, true).unwrap();
    assert_eq!(err(vfs.remove_file(&f, 0, 0)), Errno::ReadOnlyFilesystem);
    assert_eq!(err(vfs.create_link(&f, &root, b"g".to_vec(), 0, 0)), Errno::ReadOnlyFilesystem);
    assert!(vfs.get_file_from_path(&p("/f"), 0, 0, true).is_ok());
}

#[test]
fn symlink_chain_of_eight_resolves() {
    let mut vfs = root_vfs();
    let mut root = vfs.get_file_from_path(&p("/"), 0, 0, true).unwrap();
    file(&mut vfs, &mut root, "l0", 0, 0, 0o644);
    for i in 1..=9 {
        let name = format!("l{}", i);
        let target = format!("/l{}", i - 1);
        link(&mut vfs, &mut root, &name, &target);
    }
    let direct = vfs.get_file_from_path(&p("/l0"), 0, 0, true).unwrap();
    for k in 1..=8 {
        let through = vfs.get_file_from_path(&p(&format!("/l{}", k)), 0, 0, true).unwrap();
        assert_eq!(through.get_location(), direct.get_location());
        assert_eq!(through.get_file_type(), FileType::Regular);
        assert_eq!(through.get_path().to_bytes(), b"/l0".to_vec());
    }
    assert_eq!(err(vfs.get_file_from_path(&p("/l9"), 0, 0, true)), Errno::TooManySymlinks);
    // Without following the last link, the chain is one link shorter.
    let last = vfs.get_file_from_path(&p("/l9"), 0, 0, false).unwrap();
    assert_eq!(last.get_file_type(), FileType::Link);
}

#[test]
fn symlink_loop_is_too_many_symlinks() {
    let mut vfs = root_vfs();
    let mut root = vfs.get_file_from_path(&p("/"), 0, 0, true).unwrap();
    link(&mut vfs, &mut root, "a", "/b");
    link(&mut vfs, &mut root, "b", "/a");
    assert_eq!(err(vfs.get_file_from_path(&p("/a"), 0, 0, true)), Errno::TooManySymlinks);
    assert_eq!(err(vfs.get_file_from_path(&p("/a/x"), 0, 0, false)), Errno::TooManySymlinks);
}

#[test]
fn relative_symlink_is_taken_from_its_directory() {
    let mut vfs = root_vfs();
    let mut root = vfs.get_file_from_path(&p("/"), 0, 0, true).unwrap();
    let mut a = dir(&mut vfs, &mut root, "a", 0, 0, 0o755);
    let mut b = dir(&mut vfs, &mut a, "b", 0, 0, 0o755);
    file(&mut vfs, &mut b, "f", 0, 0, 0o640);
    link(&mut vfs, &mut a, "rel", "b");
    let through = vfs.get_file_from_path(&p("/a/rel/f"), 0, 0, false).unwrap();
    assert_eq!(through.get_path().to_bytes(), b"/a/b/f".to_vec());
    assert_eq!(through.get_mode(), 0o640);
    let from_parent = vfs.get_file_from_parent(&a, b"rel".to_vec(), 0, 0, true).unwrap();
    assert_eq!(from_parent.get_file_type(), FileType::Directory);
    assert_eq!(from_parent.get_path().to_bytes(), b"/a/b".to_vec());
    let unfollowed = vfs.get_file_from_parent(&a, b"rel".to_vec(), 0, 0, false).unwrap();
    assert_eq!(unfollowed.get_file_type(), FileType::Link);
    assert_eq!(unfollowed.get_path().to_bytes(), b"/a/rel".to_vec());
}

#[test]
fn get_file_from_parent_finds_the_entry() {
    let mut vfs = root_vfs();
    let mut root = vfs.get_file_from_path(&p("/"), 0, 0, true).unwrap();
    let mut a = dir(&mut vfs, &mut root, "a", 0, 0, 0o777);
    file(&mut vfs, &mut a, "b", 3, 4, 0o604);
    let a = vfs.get_file_from_path(&p("/a"), 0, 0, true).unwrap();
    let b = vfs.get_file_from_parent(&a, b"b".to_vec(), 9, 9, true).unwrap();
    assert_eq!(b.get_uid(), 3);
    assert_eq!(b.get_gid(), 4);
    assert_eq!(b.get_mode(), 0o604);
    assert_eq!(b.get_path().to_bytes(), b"/a/b".to_vec());
    assert_eq!(*b.get_location(), FileLocation::Filesystem { mountpoint_id: Some(0), inode: 2 });
    assert_eq!(err(vfs.get_file_from_parent(&a, b"c".to_vec(), 0, 0, true)), Errno::NotFound);
}

#[test]
fn deepest_mountpoint_wins() {
    let mut vfs = root_vfs();
    let mut root = vfs.get_file_from_path(&p("/"), 0, 0, true).unwrap();
    let mut mnt = dir(&mut vfs, &mut root, "mnt", 0, 0, 0o755);
    file(&mut vfs, &mut mnt, "hidden", 0, 0, 0o644);
    let id = vfs.mount(&p("/mnt"), TmpFs::new(7, 8, 0o711, false), false).unwrap();
    assert_eq!(id, 1);
    let top = vfs.get_file_from_path(&p("/mnt"), 0, 0, true).unwrap();
    assert_eq!(top.get_uid(), 7);
    assert_eq!(top.get_gid(), 8);
    assert_eq!(*top.get_location(), FileLocation::Filesystem { mountpoint_id: Some(1), inode: 0 });
    assert_eq!(err(vfs.get_file_from_path(&p("/mnt/hidden"), 0, 0, true)), Errno::NotFound);
    let mut top = top;
    let f = vfs.create_file(&mut top, b"f".to_vec(), 0, 0, 0o644, FileContent::Regular).unwrap();
    assert_eq!(*f.get_location(), FileLocation::Filesystem { mountpoint_id: Some(1), inode: 1 });
    let found = vfs.get_file_from_path(&p("/mnt/f"), 0, 0, true).unwrap();
    assert_eq!(found.get_location(), f.get_location());
    assert_eq!(found.get_parent_path().to_bytes(), b"/mnt".to_vec());
    // Mounting twice at one path is refused.
    assert_eq!(err(vfs.mount(&p("/mnt"), TmpFs::new(0, 0, 0o755, false), false)), Errno::Busy);
    assert_eq!(err(vfs.mount(&p("mnt"), TmpFs::new(0, 0, 0o755, false), false)), Errno::Busy);
}

#[test]
fn hard_link_across_mountpoints_is_cross_device() {
    let mut vfs = root_vfs();
    let mut root = vfs.get_file_from_path(&p("/"), 0, 0, true).unwrap();
    dir(&mut vfs, &mut root, "mnt", 0, 0, 0o755);
    let f = file(&mut vfs, &mut root, "f", 0, 0, 0o644);
    vfs.mount(&p("/mnt"), TmpFs::new(0, 0, 0o755, false), false).unwrap();
    let other = vfs.get_file_from_path(&p("/mnt"), 0, 0, true).unwrap();
    assert_eq!(err(vfs.create_link(&f, &other, b"g".to_vec(), 0, 0)), Errno::CrossDevice);
}

#[test]
fn hard_link_names_the_same_node() {
    let mut vfs = root_vfs();
    let mut root = vfs.get_file_from_path(&p("/"), 0, 0, true).unwrap();
    let mut a = dir(&mut vfs, &mut root, "a", 0, 0, 0o755);
    let f = file(&mut vfs, &mut root, "f", 0, 0, 0o644);
    assert_eq!(f.get_hard_links_count(), 1);
    assert_eq!(vfs.create_link(&f, &a, b"g".to_vec(), 0, 0), Ok(()));
    let g = vfs.get_file_from_path(&p("/a/g"), 0, 0, true).unwrap();
    assert_eq!(g.get_location(), f.get_location());
    assert_eq!(g.get_hard_links_count(), 2);
    assert_eq!(g.get_name(), &b"g".to_vec());
    // The name is taken now.
    assert_eq!(err(vfs.create_link(&f, &a, b"g".to_vec(), 0, 0)), Errno::AlreadyExists);
    // Directories are not linked.
    assert_eq!(err(vfs.create_link(&a, &root, b"d".to_vec(), 0, 0)), Errno::NotPermitted);
    // Errors that are decided before the driver is asked.
    assert_eq!(err(vfs.create_link(&f, &g, b"x".to_vec(), 0, 0)), Errno::NotADirectory);
    assert_eq!(err(vfs.create_link(&f, &a, b"x".to_vec(), 5, 5)), Errno::PermissionDenied);
    // Removing one name leaves the other.
    let f = vfs.get_file_from_path(&p("/f"), 0, 0, true).unwrap();
    assert_eq!(vfs.remove_file(&f, 0, 0), Ok(()));
    let g = vfs.get_file_from_path(&p("/a/g"), 0, 0, true).unwrap();
    assert_eq!(g.get_hard_links_count(), 1);
    assert_eq!(err(vfs.get_file_from_path(&p("/f"), 0, 0, true)), Errno::NotFound);
    let _ = &mut a;
}

#[test]
fn remove_busy_file_is_busy() {
    let mut vfs = root_vfs();
    let mut root = vfs.get_file_from_path(&p("/"), 0, 0, true).unwrap();
    file(&mut vfs, &mut root, "f", 0, 0, 0o644);
    let mut f = vfs.get_file_from_path(&p("/f"), 0, 0, true).unwrap();
    f.set_busy(true);
    assert!(f.is_busy());
    assert_eq!(err(vfs.remove_file(&f, 0, 0)), Errno::Busy);
    f.set_busy(false);
    assert_eq!(vfs.remove_file(&f, 0, 0), Ok(()));
}

#[test]
fn remove_needs_write_permission_on_file_and_directory() {
    let mut vfs = root_vfs();
    let mut root = vfs.get_file_from_path(&p("/"), 0, 0, true).unwrap();
    let mut open = dir(&mut vfs, &mut root, "open", 1, 1, 0o777);
    file(&mut vfs, &mut open, "mine", 1, 1, 0o600);
    let mut closed = dir(&mut vfs, &mut root, "closed", 1, 1, 0o755);
    file(&mut vfs, &mut closed, "free", 1, 1, 0o666);
    let mine = vfs.get_file_from_path(&p("/open/mine"), 0, 0, true).unwrap();
    assert_eq!(err(vfs.remove_file(&mine, 2, 2)), Errno::PermissionDenied);
    let free = vfs.get_file_from_path(&p("/closed/free"), 0, 0, true).unwrap();
    assert_eq!(err(vfs.remove_file(&free, 2, 2)), Errno::PermissionDenied);
    assert_eq!(vfs.remove_file(&mine, 1, 1), Ok(()));
    assert_eq!(vfs.remove_file(&free, 1, 1), Ok(()));
}

#[test]
fn remove_a_file_whose_directory_is_gone_is_not_found() {
    let mut vfs = root_vfs();
    let mut root = vfs.get_file_from_path(&p("/"), 0, 0, true).unwrap();
    let mut a = dir(&mut vfs, &mut root, "a", 0, 0, 0o755);
    let f = file(&mut vfs, &mut a, "f", 0, 0, 0o644);
    assert_eq!(vfs.remove_file(&f, 0, 0), Ok(()));
    assert_eq!(err(vfs.remove_file(&f, 0, 0)), Errno::NotFound);
    let a = vfs.get_file_from_path(&p("/a"), 0, 0, true).unwrap();
    assert_eq!(vfs.remove_file(&a, 0, 0), Ok(()));
    assert_eq!(err(vfs.remove_file(&f, 0, 0)), Errno::NotFound);
}

#[test]
fn resolved_path_reconstructs() {
    let mut vfs = root_vfs();
    let mut root = vfs.get_file_from_path(&p("/"), 0, 0, true).unwrap();
    let mut a = dir(&mut vfs, &mut root, "a", 0, 0, 0o755);
    let mut b = dir(&mut vfs, &mut a, "b", 0, 0, 0o755);
    file(&mut vfs, &mut b, "c.txt", 0, 0, 0o644);
    for text in ["/", "/a", "/a/b", "/a/b/c.txt"] {
        let f = vfs.get_file_from_path(&p(text), 0, 0, true).unwrap();
        assert_eq!(f.get_path().to_bytes(), text.as_bytes().to_vec());
        let mut rebuilt = f.get_parent_path().copy();
        if !f.get_name().is_empty() {
            rebuilt.push(f.get_name().clone());
        }
        assert_eq!(rebuilt.to_bytes(), text.as_bytes().to_vec());
    }
    // Redundant separators do not change the path.
    let f = vfs.get_file_from_path(&p("//a///b/"), 0, 0, true).unwrap();
    assert_eq!(f.get_path().to_bytes(), b"/a/b".to_vec());
}

#[test]
fn flush_all_empties_the_pool() {
    let mut vfs = root_vfs();
    let mut root = vfs.get_file_from_path(&p("/"), 0, 0, true).unwrap();
    file(&mut vfs, &mut root, "f", 0, 0, 0o644);
    vfs.get_file_from_path(&p("/f"), 0, 0, true).unwrap();
    assert!(vfs.pool.len() > 0);
    assert!(vfs.pool.lookup(&p("/f"), true).is_some());
    assert_eq!(vfs.flush_all(), Ok(()));
    assert_eq!(vfs.pool.len(), 0);
    assert!(vfs.pool.lookup(&p("/f"), true).is_none());
    assert!(vfs.get_file_from_path(&p("/f"), 0, 0, true).is_ok());
}

#[test]
fn pool_forgets_what_changes() {
    let mut vfs = root_vfs();
    let mut root = vfs.get_file_from_path(&p("/"), 0, 0, true).unwrap();
    let mut a = dir(&mut vfs, &mut root, "a", 0, 0, 0o755);
    vfs.get_file_from_path(&p("/a"), 0, 0, true).unwrap();
    assert!(vfs.pool.lookup(&p("/a"), true).is_some());
    // A new entry in the directory makes the remembered directory stale.
    file(&mut vfs, &mut a, "f", 0, 0, 0o644);
    assert!(vfs.pool.lookup(&p("/a"), true).is_none());
    let f = vfs.get_file_from_path(&p("/a/f"), 0, 0, true).unwrap();
    vfs.get_file_from_path(&p("/a"), 0, 0, true).unwrap();
    assert!(vfs.pool.lookup(&p("/a/f"), true).is_some());
    assert_eq!(vfs.remove_file(&f, 0, 0), Ok(()));
    assert!(vfs.pool.lookup(&p("/a/f"), true).is_none());
    assert!(vfs.pool.lookup(&p("/a"), true).is_none());
}
