use kernel::errno::Errno;
use kernel::file::File;
use kernel::file::FileContent;
use kernel::file::FileLocation;
use kernel::file::FileType;
use kernel::path::Path;
use kernel::tmpfs::TmpFs;
use kernel::vfs::VFS;

fn path(text: &str) -> Path {
    Path::from_str(text.as_bytes(), false).unwrap()
}

fn mounted_root() -> VFS<TmpFs> {
    let mut vfs: VFS<TmpFs> = VFS::new().unwrap();
    let id = vfs.mount(&Path::root(), TmpFs::new(0, 0, 0o755, false), false).unwrap();
    assert_eq!(id, 0);
    vfs
}

fn make_dir(vfs: &mut VFS<TmpFs>, parent: &mut File, name: &str, mode: u32) -> File {
    vfs.create_file(parent, name.as_bytes().to_vec(), 0, 0, mode, FileContent::Directory(Vec::new()))
        .unwrap()
}

#[test]
fn create_resolve_remove_end_to_end() {
    let mut vfs = mounted_root();
    let mut root = vfs.get_file_from_path(&path("/"), 0, 0, true).unwrap();
    assert_eq!(root.get_file_type(), FileType::Directory);
    let mut a = make_dir(&mut vfs, &mut root, "a", 0o755);
    assert_eq!(a.get_name(), &b"a".to_vec());
    let b = vfs
        .create_file(&mut a, b"b".to_vec(), 0, 0, 0o644, FileContent::Regular)
        .unwrap();
    assert_eq!(b.get_mode(), 0o644);

    let found = vfs.get_file_from_path(&path("/a/b"), 0, 0, true).unwrap();
    assert_eq!(found.get_uid(), 0);
    assert_eq!(found.get_gid(), 0);
    assert_eq!(found.get_mode(), 0o644);
    assert_eq!(found.get_file_type(), FileType::Regular);
    assert_eq!(found.get_name(), &b"b".to_vec());
    assert_eq!(found.get_parent_path().to_bytes(), b"/a".to_vec());
    assert_eq!(found.get_path().to_bytes(), b"/a/b".to_vec());
    assert_eq!(
        *found.get_location(),
        FileLocation::Filesystem { mountpoint_id: Some(0), inode: 2 }
    );

    assert_eq!(vfs.remove_file(&found, 0, 0), Ok(()));
    match vfs.get_file_from_path(&path("/a/b"), 0, 0, true) {
        Err(e) => assert_eq!(e, Errno::NotFound),
        Ok(_) => panic!("the file is still there"),
    }
}

#[test]
fn symlink_followed_or_returned() {
    let mut vfs = mounted_root();
    let mut root = vfs.get_file_from_path(&path("/"), 0, 0, true).unwrap();
    let mut a = make_dir(&mut vfs, &mut root, "a", 0o755);
    vfs.create_file(&mut a, b"b".to_vec(), 0, 0, 0o644, FileContent::Regular).unwrap();
    vfs.create_file(&mut root, b"link".to_vec(), 0, 0, 0o777, FileContent::Link(b"/a".to_vec()))
        .unwrap();

    let direct = vfs.get_file_from_path(&path("/a/b"), 0, 0, true).unwrap();
    let through = vfs.get_file_from_path(&path("/link/b"), 0, 0, true).unwrap();
    assert_eq!(through.get_location(), direct.get_location());
    assert_eq!(through.get_name(), direct.get_name());
    assert_eq!(through.get_path().to_bytes(), b"/a/b".to_vec());
    assert_eq!(through.get_mode(), direct.get_mode());

    let link = vfs.get_file_from_path(&path("/link"), 0, 0, false).unwrap();
    assert_eq!(link.get_file_type(), FileType::Link);
    match link.get_file_content() {
        FileContent::Link(target) => assert_eq!(target, &b"/a".to_vec()),
        _ => panic!("not a symbolic link"),
    }
    let followed = vfs.get_file_from_path(&path("/link"), 0, 0, true).unwrap();
    assert_eq!(followed.get_file_type(), FileType::Directory);
    assert_eq!(followed.get_name(), &b"a".to_vec());
}
