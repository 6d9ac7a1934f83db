use kernel::errno::Errno;
use kernel::file::File;
use kernel::file::FileContent;
use kernel::file::FileType;
use kernel::filesystem::Filesystem;
use kernel::file::DirEntry;
use kernel::path::Path;
use kernel::syscall::chmod;
use kernel::syscall::has_entries;
use kernel::syscall::is_dot_entry;
use kernel::syscall::rmdir;
use kernel::tmpfs::TmpFs;
use kernel::util::copy_file;
use kernel::util::create_dirs;
use kernel::util::remove_recursive;
use kernel::vfs::VFS;

fn p(text: &str) -> Path {
    Path::from_str(text.as_bytes(), false).unwrap()
}

fn root_vfs() -> VFS<TmpFs> {
    let mut vfs: VFS<TmpFs> = VFS::new().unwrap();
    vfs.mount(&Path::root(), TmpFs::new(0, 0, 0o777, false), false).unwrap();
    vfs
}

fn get(vfs: &mut VFS<TmpFs>, text: &str) -> File {
    vfs.get_file_from_path(&p(text), 0, 0, true).unwrap()
}

fn missing(vfs: &mut VFS<TmpFs>, text: &str) -> bool {
    match vfs.get_file_from_path(&p(text), 0, 0, false) {
        Err(e) => e == Errno::NotFound,
        Ok(_) => false,
    }
}

#[test]
fn create_dirs_makes_the_missing_directories() {
    let mut vfs = root_vfs();
    assert_eq!(create_dirs(&mut vfs, &p("/a/b/c")), Ok(3));
    let c = get(&mut vfs, "/a/b/c");
    assert_eq!(c.get_file_type(), FileType::Directory);
    assert_eq!(c.get_mode(), 0o755);
    assert_eq!((c.get_uid(), c.get_gid()), (0, 0));
    assert_eq!(create_dirs(&mut vfs, &p("/a/b/c")), Ok(0));
    assert_eq!(create_dirs(&mut vfs, &p("a/b/d/e")), Ok(2));
    assert!(vfs.get_file_from_path(&p("/a/b/d/e"), 0, 0, true).is_ok());
    assert_eq!(create_dirs(&mut vfs, &p("/")), Ok(0));
}

#[test]
fn create_dirs_stops_at_a_file() {
    let mut vfs = root_vfs();
    let mut root = get(&mut vfs, "/");
    vfs.create_file(&mut root, b"f".to_vec(), 0, 0, 0o644, FileContent::Regular).unwrap();
    assert_eq!(create_dirs(&mut vfs, &p("/f/x/y")), Err(Errno::NotADirectory));
    assert!(missing(&mut vfs, "/g"));
    assert_eq!(create_dirs(&mut vfs, &p("/f")), Ok(0));
    assert_eq!(get(&mut vfs, "/f").get_file_type(), FileType::Regular);
}

#[test]
fn create_dirs_on_a_read_only_filesystem() {
    let mut vfs: VFS<TmpFs> = VFS::new().unwrap();
    vfs.mount(&Path::root(), TmpFs::new(0, 0, 0o777, true), false).unwrap();
    assert_eq!(create_dirs(&mut vfs, &p("/a")), Err(Errno::ReadOnlyFilesystem));
    let mut unmounted: VFS<TmpFs> = VFS::new().unwrap();
    // Without a filesystem no parent resolves, and every component is passed over.
    assert_eq!(create_dirs(&mut unmounted, &p("/a/b")), Ok(0));
}

#[test]
fn remove_recursive_removes_the_tree() {
    let mut vfs = root_vfs();
    create_dirs(&mut vfs, &p("/a/b/c")).unwrap();
    create_dirs(&mut vfs, &p("/a/d")).unwrap();
    let mut b = get(&mut vfs, "/a/b");
    vfs.create_file(&mut b, b"f".to_vec(), 0, 0, 0o644, FileContent::Regular).unwrap();
    let mut c = get(&mut vfs, "/a/b/c");
    vfs.create_file(&mut c, b"g".to_vec(), 0, 0, 0o644, FileContent::Fifo).unwrap();
    let mut root = get(&mut vfs, "/");
    vfs.create_file(&mut root, b"keep".to_vec(), 0, 0, 0o644, FileContent::Regular).unwrap();

    let a = get(&mut vfs, "/a");
    assert_eq!(remove_recursive(&mut vfs, &a, 0, 0), Ok(()));
    assert!(missing(&mut vfs, "/a"));
    assert!(missing(&mut vfs, "/a/b"));
    assert!(vfs.get_file_from_path(&p("/keep"), 0, 0, true).is_ok());
    let keep = get(&mut vfs, "/keep");
    assert_eq!(remove_recursive(&mut vfs, &keep, 0, 0), Ok(()));
    assert!(missing(&mut vfs, "/keep"));
    assert_eq!(remove_recursive(&mut vfs, &keep, 0, 0), Err(Errno::NotFound));
}

#[test]
fn remove_recursive_stops_at_the_first_failure() {
    let mut vfs = root_vfs();
    create_dirs(&mut vfs, &p("/a")).unwrap();
    let mut a = get(&mut vfs, "/a");
    vfs.create_file(&mut a, b"f".to_vec(), 0, 0, 0o644, FileContent::Regular).unwrap();
    vfs.create_file(&mut a, b"g".to_vec(), 0, 0, 0o644, FileContent::Regular).unwrap();
    let a = get(&mut vfs, "/a");
    // The caller may traverse the directory but write nothing.
    assert_eq!(remove_recursive(&mut vfs, &a, 7, 7), Err(Errno::PermissionDenied));
    assert!(vfs.get_file_from_path(&p("/a/f"), 0, 0, true).is_ok());
    assert!(vfs.get_file_from_path(&p("/a/g"), 0, 0, true).is_ok());
}

#[test]
fn copy_file_copies_a_file() {
    let mut vfs = root_vfs();
    let mut root = get(&mut vfs, "/");
    vfs.create_file(&mut root, b"src".to_vec(), 3, 4, 0o640, FileContent::Regular).unwrap();
    vfs.create_file(&mut root, b"ln".to_vec(), 3, 4, 0o777, FileContent::Link(b"/src".to_vec()))
        .unwrap();
    let src = get(&mut vfs, "/src");
    assert_eq!(copy_file(&mut vfs, &src, &mut root, b"dst".to_vec()), Ok(()));
    let dst = get(&mut vfs, "/dst");
    assert_eq!((dst.get_uid(), dst.get_gid(), dst.get_mode()), (3, 4, 0o640));
    assert_eq!(dst.get_file_type(), FileType::Regular);
    assert_ne!(dst.get_location(), src.get_location());
    assert_eq!(
        copy_file(&mut vfs, &src, &mut root, b"dst".to_vec()),
        Err(Errno::AlreadyExists)
    );
    let ln = vfs.get_file_from_path(&p("/ln"), 0, 0, false).unwrap();
    assert_eq!(copy_file(&mut vfs, &ln, &mut root, b"ln2".to_vec()), Ok(()));
    let ln2 = vfs.get_file_from_path(&p("/ln2"), 0, 0, false).unwrap();
    match ln2.get_file_content() {
        FileContent::Link(target) => assert_eq!(target, &b"/src".to_vec()),
        _ => panic!("not a link"),
    }
}

#[test]
fn copy_file_copies_a_directory_with_what_it_holds() {
    let mut vfs = root_vfs();
    let mut root = get(&mut vfs, "/");
    let mut a = vfs
        .create_file(&mut root, b"a".to_vec(), 3, 4, 0o777, FileContent::Directory(Vec::new()))
        .unwrap();
    let mut b = vfs
        .create_file(&mut a, b"b".to_vec(), 3, 4, 0o755, FileContent::Directory(Vec::new()))
        .unwrap();
    vfs.create_file(&mut a, b"f".to_vec(), 3, 4, 0o600, FileContent::Regular).unwrap();
    vfs.create_file(&mut b, b"g".to_vec(), 3, 4, 0o644, FileContent::Socket).unwrap();
    let a = get(&mut vfs, "/a");
    assert_eq!(copy_file(&mut vfs, &a, &mut root, b"copy".to_vec()), Ok(()));
    assert_eq!(get(&mut vfs, "/copy").get_file_type(), FileType::Directory);
    assert_eq!(get(&mut vfs, "/copy").get_mode(), 0o777);
    assert_eq!(get(&mut vfs, "/copy/b").get_file_type(), FileType::Directory);
    assert_eq!(get(&mut vfs, "/copy/f").get_mode(), 0o600);
    assert_eq!(get(&mut vfs, "/copy/b/g").get_file_type(), FileType::Socket);
    assert_eq!(get(&mut vfs, "/copy/b/g").get_uid(), 3);
    // The directory that was copied is still there.
    assert_eq!(get(&mut vfs, "/a/b/g").get_file_type(), FileType::Socket);
    assert_ne!(get(&mut vfs, "/a/f").get_location(), get(&mut vfs, "/copy/f").get_location());
}

#[test]
fn chmod_changes_the_permissions() {
    let mut vfs = root_vfs();
    let mut root = get(&mut vfs, "/");
    vfs.create_file(&mut root, b"f".to_vec(), 3, 4, 0o644, FileContent::Regular).unwrap();
    assert_eq!(chmod(&mut vfs, &p("/f"), 0o600, 3, 9), Ok(0));
    assert_eq!(get(&mut vfs, "/f").get_mode(), 0o600);
    // The superuser may, others may not.
    assert_eq!(chmod(&mut vfs, &p("/f"), 0o4755, 0, 0), Ok(0));
    assert_eq!(get(&mut vfs, "/f").get_mode(), 0o4755);
    assert_eq!(chmod(&mut vfs, &p("/f"), 0o777, 4, 4), Err(Errno::NotPermitted));
    assert_eq!(get(&mut vfs, "/f").get_mode(), 0o4755);
    // Only the twelve permission bits count.
    assert_eq!(chmod(&mut vfs, &p("/f"), 0o170644, 3, 3), Ok(0));
    assert_eq!(get(&mut vfs, "/f").get_mode(), 0o644);
    assert_eq!(chmod(&mut vfs, &p("/none"), 0o644, 0, 0), Err(Errno::NotFound));
    // A symbolic link is followed.
    vfs.create_file(&mut root, b"l".to_vec(), 0, 0, 0o777, FileContent::Link(b"/f".to_vec()))
        .unwrap();
    assert_eq!(chmod(&mut vfs, &p("/l"), 0o400, 3, 3), Ok(0));
    assert_eq!(get(&mut vfs, "/f").get_mode(), 0o400);
}

#[test]
fn chmod_on_a_read_only_mountpoint() {
    let mut fs = TmpFs::new(0, 0, 0o777, false);
    kernel::filesystem::Filesystem::add_file(&mut fs, 0, b"f".to_vec(), 0, 0, 0o644, FileContent::Regular)
        .unwrap();
    let mut vfs: VFS<TmpFs> = VFS::new().unwrap();
    vfs.mount(&Path::root(), fs, true).unwrap();
    assert_eq!(chmod(&mut vfs, &p("/f"), 0o600, 0, 0), Err(Errno::ReadOnlyFilesystem));
    assert_eq!(get(&mut vfs, "/f").get_mode(), 0o644);
}

#[test]
fn rmdir_removes_an_empty_directory_only() {
    let mut vfs = root_vfs();
    create_dirs(&mut vfs, &p("/a/b")).unwrap();
    let mut root = get(&mut vfs, "/");
    vfs.create_file(&mut root, b"f".to_vec(), 0, 0, 0o644, FileContent::Regular).unwrap();
    assert_eq!(rmdir(&mut vfs, &p("/a"), 0, 0), Err(Errno::NotEmpty));
    assert!(vfs.get_file_from_path(&p("/a/b"), 0, 0, true).is_ok());
    assert_eq!(rmdir(&mut vfs, &p("/f"), 0, 0), Err(Errno::NotADirectory));
    assert_eq!(rmdir(&mut vfs, &p("/none"), 0, 0), Err(Errno::NotFound));
    assert_eq!(rmdir(&mut vfs, &p("/a/b"), 5, 5), Err(Errno::PermissionDenied));
    assert_eq!(rmdir(&mut vfs, &p("/a/b"), 0, 0), Ok(0));
    assert!(missing(&mut vfs, "/a/b"));
    assert_eq!(rmdir(&mut vfs, &p("/a"), 0, 0), Ok(0));
    assert!(missing(&mut vfs, "/a"));
}

#[test]
fn dot_entries_do_not_count() {
    assert!(is_dot_entry(&b".".to_vec()));
    assert!(is_dot_entry(&b"..".to_vec()));
    assert!(!is_dot_entry(&b"...".to_vec()));
    assert!(!is_dot_entry(&b"".to_vec()));
    assert!(!is_dot_entry(&b"a".to_vec()));
    assert!(!is_dot_entry(&b".a".to_vec()));
    assert!(!is_dot_entry(&b"a.".to_vec()));
    let entry = |name: &str| DirEntry {
        name: name.as_bytes().to_vec(),
        inode: 0,
        entry_type: FileType::Directory,
    };
    assert!(!has_entries(&Vec::new()));
    assert!(!has_entries(&vec![entry("."), entry("..")]));
    assert!(has_entries(&vec![entry("."), entry(".."), entry("x")]));
    assert!(has_entries(&vec![entry("x")]));
}

fn bytes_of(vfs: &VFS<TmpFs>, file: &File) -> Vec<u8> {
    let mut all: Vec<u8> = Vec::new();
    let mut off: u64 = 0;
    loop {
        let mut buff = vec![0u8; 100];
        let (len, eof) = vfs.read_content(file, off, &mut buff).unwrap();
        all.extend_from_slice(&buff[..len as usize]);
        off += len;
        if eof || len == 0 {
            return all;
        }
    }
}

#[test]
fn copy_file_copies_the_bytes_of_a_file() {
    let mut vfs = root_vfs();
    let mut root = get(&mut vfs, "/");
    let src = vfs.create_file(&mut root, b"src".to_vec(), 3, 4, 0o640, FileContent::Regular).unwrap();
    // More than the copy moves at a time, and no multiple of it.
    let bytes: Vec<u8> = (0..10_000u32).map(|i| (i % 251) as u8).collect();
    assert_eq!(vfs.write_content(&src, 0, &bytes), Ok(10_000));
    assert_eq!(bytes_of(&vfs, &src), bytes);
    assert_eq!(copy_file(&mut vfs, &src, &mut root, b"dst".to_vec()), Ok(()));
    let dst = get(&mut vfs, "/dst");
    assert_eq!(dst.get_file_type(), FileType::Regular);
    assert_eq!(dst.get_mode(), 0o640);
    assert_eq!((dst.get_uid(), dst.get_gid()), (3, 4));
    assert_eq!(bytes_of(&vfs, &dst), bytes);
    // The source holds what it held, and the two files are apart.
    assert_eq!(bytes_of(&vfs, &src), bytes);
    assert_eq!(vfs.write_content(&dst, 0, &b"xyz".to_vec()), Ok(3));
    assert_eq!(bytes_of(&vfs, &src), bytes);
    assert_eq!(&bytes_of(&vfs, &dst)[..4], &[b'x', b'y', b'z', 3]);
}

#[test]
fn copy_file_copies_an_empty_file_and_one_of_one_chunk() {
    let mut vfs = root_vfs();
    let mut root = get(&mut vfs, "/");
    let empty = vfs.create_file(&mut root, b"e".to_vec(), 0, 0, 0o600, FileContent::Regular).unwrap();
    assert_eq!(copy_file(&mut vfs, &empty, &mut root, b"e2".to_vec()), Ok(()));
    let e2 = get(&mut vfs, "/e2");
    assert_eq!(bytes_of(&vfs, &e2), Vec::<u8>::new());
    let page = vfs.create_file(&mut root, b"p".to_vec(), 0, 0, 0o600, FileContent::Regular).unwrap();
    let bytes: Vec<u8> = vec![7u8; 4096];
    assert_eq!(vfs.write_content(&page, 0, &bytes), Ok(4096));
    assert_eq!(copy_file(&mut vfs, &page, &mut root, b"p2".to_vec()), Ok(()));
    let p2 = get(&mut vfs, "/p2");
    assert_eq!(bytes_of(&vfs, &p2), bytes);
}

#[test]
fn copy_file_copies_the_bytes_of_the_files_of_a_directory() {
    let mut vfs = root_vfs();
    assert_eq!(create_dirs(&mut vfs, &p("/a/b")), Ok(2));
    let mut b = get(&mut vfs, "/a/b");
    let f = vfs.create_file(&mut b, b"f".to_vec(), 0, 0, 0o644, FileContent::Regular).unwrap();
    assert_eq!(vfs.write_content(&f, 0, &b"hello".to_vec()), Ok(5));
    let a = get(&mut vfs, "/a");
    let mut root = get(&mut vfs, "/");
    assert_eq!(copy_file(&mut vfs, &a, &mut root, b"c".to_vec()), Ok(()));
    let copy = get(&mut vfs, "/c/b/f");
    assert_eq!(bytes_of(&vfs, &copy), b"hello".to_vec());
    assert_eq!(bytes_of(&vfs, &f), b"hello".to_vec());
}

#[test]
fn file_bytes_are_read_and_written_at_offsets() {
    let mut vfs = root_vfs();
    let mut root = get(&mut vfs, "/");
    let f = vfs.create_file(&mut root, b"f".to_vec(), 0, 0, 0o644, FileContent::Regular).unwrap();
    let mut buff = vec![9u8; 4];
    assert_eq!(vfs.read_content(&f, 0, &mut buff), Ok((0, true)));
    assert_eq!(buff, vec![9, 9, 9, 9]);
    assert_eq!(vfs.write_content(&f, 2, &b"ab".to_vec()), Ok(2));
    assert_eq!(bytes_of(&vfs, &f), vec![0, 0, b'a', b'b']);
    assert_eq!(vfs.write_content(&f, 1, &b"xyz".to_vec()), Ok(3));
    assert_eq!(bytes_of(&vfs, &f), vec![0, b'x', b'y', b'z']);
    assert_eq!(vfs.write_content(&f, 3, &b"12".to_vec()), Ok(2));
    assert_eq!(bytes_of(&vfs, &f), vec![0, b'x', b'y', b'1', b'2']);
    let mut two = vec![0u8; 2];
    assert_eq!(vfs.read_content(&f, 1, &mut two), Ok((2, false)));
    assert_eq!(two, vec![b'x', b'y']);
    assert_eq!(vfs.read_content(&f, 3, &mut two), Ok((2, true)));
    assert_eq!(two, vec![b'1', b'2']);
    assert_eq!(vfs.read_content(&f, 9, &mut two), Ok((0, true)));
    // A directory has no bytes, and a file is not larger than the driver allows.
    assert_eq!(vfs.read_content(&root, 0, &mut two), Err(Errno::InvalidArgument));
    assert_eq!(vfs.write_content(&root, 0, &two), Err(Errno::InvalidArgument));
    assert_eq!(vfs.write_content(&f, 16_777_216, &two), Err(Errno::NoSpace));
    assert_eq!(bytes_of(&vfs, &f), vec![0, b'x', b'y', b'1', b'2']);
}

#[test]
fn file_bytes_on_a_read_only_mountpoint() {
    let mut vfs: VFS<TmpFs> = VFS::new().unwrap();
    let mut fs = TmpFs::new(0, 0, 0o777, false);
    let made = {
        use_driver(&mut fs)
    };
    vfs.mount(&Path::root(), fs, true).unwrap();
    let f = get(&mut vfs, "/f");
    assert_eq!(made, 3);
    assert_eq!(vfs.write_content(&f, 0, &b"no".to_vec()), Err(Errno::ReadOnlyFilesystem));
    assert_eq!(bytes_of(&vfs, &f), b"abc".to_vec());
}

fn use_driver(fs: &mut TmpFs) -> u64 {
    let f = fs.add_file(0, b"f".to_vec(), 0, 0, 0o644, FileContent::Regular).unwrap();
    let inode = f.get_location().get_inode().unwrap();
    fs.write_node(inode, 0, &b"abc".to_vec()).unwrap()
}
