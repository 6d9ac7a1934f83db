use kernel::errno::Errno;
use kernel::file::File;
use kernel::file::FileContent;
use kernel::file::FileLocation;
use kernel::file::FileType;
use kernel::file::DirEntry;
use kernel::file::search_entry;
use kernel::mountpoint::get_deepest;
use kernel::mountpoint::find_mount;
use kernel::mountpoint::is_prefix;
use kernel::mountpoint::MountPoint;
use kernel::path::Path;
use kernel::path::NAME_MAX;
use kernel::path::PATH_MAX;
use kernel::bytes::bytes_clone;
use kernel::bytes::bytes_eq;
use kernel::bytes::names_clone;
use kernel::tmpfs::TmpFs;

fn p(text: &str) -> Path {
    Path::from_str(text.as_bytes(), false).unwrap()
}

fn parts(path: &Path) -> Vec<String> {
    path.parts.iter().map(|n| String::from_utf8(n.clone()).unwrap()).collect()
}

#[test]
fn path_parsing() {
    let path = p("/a/b/c");
    assert!(path.is_absolute());
    assert_eq!(parts(&path), vec!["a", "b", "c"]);
    assert_eq!(path.get_elements_count(), 3);
    assert_eq!(path.get(1), &b"b".to_vec());
    let path = p("a//b///c/");
    assert!(!path.is_absolute());
    assert_eq!(parts(&path), vec!["a", "b", "c"]);
    let path = p("");
    assert!(!path.is_absolute());
    assert!(path.is_empty());
    let path = p("/");
    assert!(path.is_absolute());
    assert!(path.is_empty());
    let path = p("///");
    assert!(path.is_absolute());
    assert_eq!(path.get_elements_count(), 0);
    let path = p("./..");
    assert_eq!(parts(&path), vec![".", ".."]);
}

#[test]
fn path_limits_for_user_text() {
    let long_name = "x".repeat(NAME_MAX + 1);
    let ok_name = "x".repeat(NAME_MAX);
    assert!(Path::from_str(ok_name.as_bytes(), true).is_ok());
    assert!(Path::from_str(format!("/a/{}/b", ok_name).as_bytes(), true).is_ok());
    match Path::from_str(long_name.as_bytes(), true) {
        Err(e) => assert_eq!(e, Errno::NameTooLong),
        Ok(_) => panic!("accepted"),
    }
    match Path::from_str(format!("/a/{}/b", long_name).as_bytes(), true) {
        Err(e) => assert_eq!(e, Errno::NameTooLong),
        Ok(_) => panic!("accepted"),
    }
    assert!(Path::from_str(long_name.as_bytes(), false).is_ok());
    let long_path = "/ab".repeat(PATH_MAX / 3 + 1);
    assert!(long_path.len() >= PATH_MAX);
    match Path::from_str(long_path.as_bytes(), true) {
        Err(e) => assert_eq!(e, Errno::NameTooLong),
        Ok(_) => panic!("accepted"),
    }
    assert!(Path::from_str(long_path.as_bytes(), false).is_ok());
    let fitting = "/ab".repeat(PATH_MAX / 3);
    assert_eq!(fitting.len(), PATH_MAX - 1);
    assert!(Path::from_str(fitting.as_bytes(), true).is_ok());
}

#[test]
fn path_formatting_round_trip() {
    for text in ["/", "/a", "/a/b", "/usr/local/bin"] {
        assert_eq!(p(text).to_bytes(), text.as_bytes().to_vec());
        let again = Path::from_str(&p(text).to_bytes(), false).unwrap();
        assert_eq!(parts(&again), parts(&p(text)));
        assert!(again.is_absolute());
    }
    assert_eq!(p("a/b").to_bytes(), b"/a/b".to_vec());
    assert_eq!(p("").to_bytes(), b"/".to_vec());
}

#[test]
fn path_operations() {
    let root = Path::root();
    assert!(root.is_absolute());
    assert!(root.is_empty());
    let mut path = p("/a/b");
    path.push(b"c".to_vec());
    assert_eq!(path.to_bytes(), b"/a/b/c".to_vec());
    path.pop();
    path.pop();
    assert_eq!(path.to_bytes(), b"/a".to_vec());
    path.pop();
    path.pop();
    assert!(path.is_empty());
    assert!(path.is_absolute());

    let abs = p("/x/y");
    let rel = p("u/v");
    assert_eq!(abs.concat(&rel).to_bytes(), b"/x/y/u/v".to_vec());
    assert!(abs.concat(&rel).is_absolute());
    assert_eq!(rel.concat(&abs).to_bytes(), b"/x/y".to_vec());
    assert_eq!(parts(&rel.concat(&rel)), vec!["u", "v", "u", "v"]);
    assert!(!rel.concat(&rel).is_absolute());
    assert_eq!(Path::root().concat(&rel).to_bytes(), b"/u/v".to_vec());

    let long = p("/a/b/c/d");
    assert_eq!(parts(&long.range_from(2)), vec!["c", "d"]);
    assert!(!long.range_from(2).is_absolute());
    assert!(long.range_from(0).is_absolute());
    assert!(long.range_from(4).is_empty());
    assert_eq!(parts(&long.range_to(2)), vec!["a", "b"]);
    assert!(long.range_to(2).is_absolute());
    assert!(long.range_to(0).is_empty());
    let copy = long.copy();
    assert_eq!(parts(&copy), parts(&long));
    let mut copy = copy;
    copy.set_absolute(false);
    assert!(!copy.is_absolute());
    assert!(long.is_absolute());
}

#[test]
fn bytes_helpers() {
    assert!(bytes_eq(&b"abc".to_vec(), &b"abc".to_vec()));
    assert!(!bytes_eq(&b"abc".to_vec(), &b"abd".to_vec()));
    assert!(!bytes_eq(&b"abc".to_vec(), &b"ab".to_vec()));
    assert!(bytes_eq(&Vec::new(), &Vec::new()));
    assert_eq!(bytes_clone(&b"xyz".to_vec()), b"xyz".to_vec());
    let names = vec![b"a".to_vec(), b"bc".to_vec()];
    assert_eq!(names_clone(&names), names);
}

#[test]
fn prefix_and_deepest_mountpoint() {
    assert!(is_prefix(&p("/a"), &p("/a/b")));
    assert!(is_prefix(&p("/a/b"), &p("/a/b")));
    assert!(is_prefix(&p("/"), &p("/a/b")));
    assert!(!is_prefix(&p("/a/b/c"), &p("/a/b")));
    assert!(!is_prefix(&p("/b"), &p("/a/b")));
    assert!(!is_prefix(&p("/a/c"), &p("/a/b")));

    let mount = |id: u32, path: &str| MountPoint {
        id,
        path: p(path),
        readonly: false,
        fs: TmpFs::new(0, 0, 0o755, false),
    };
    let mounts = vec![mount(10, "/"), mount(11, "/a/b"), mount(12, "/a"), mount(13, "/c")];
    assert_eq!(get_deepest(&mounts, &p("/a/b/c")), Some(1));
    assert_eq!(get_deepest(&mounts, &p("/a/b")), Some(1));
    assert_eq!(get_deepest(&mounts, &p("/a/x")), Some(2));
    assert_eq!(get_deepest(&mounts, &p("/x")), Some(0));
    assert_eq!(get_deepest(&mounts, &p("/")), Some(0));
    assert_eq!(get_deepest(&mounts, &p("/c/d")), Some(3));
    assert_eq!(get_deepest(&Vec::<MountPoint<TmpFs>>::new(), &p("/")), None);
    let no_root = vec![mount(1, "/a")];
    assert_eq!(get_deepest(&no_root, &p("/b")), None);
    assert_eq!(find_mount(&mounts, 12), Some(2));
    assert_eq!(find_mount(&mounts, 14), None);
    assert_eq!(mounts[2].get_id(), 12);
    assert_eq!(mounts[2].get_path().to_bytes(), b"/a".to_vec());
    assert!(!mounts[2].is_readonly());
    assert!(!kernel::filesystem::Filesystem::is_readonly(mounts[2].get_filesystem()));
}

#[test]
fn file_permissions() {
    let f = |mode: u32, content: FileContent| {
        File::new(b"f".to_vec(), 10, 20, mode, FileLocation::Virtual { id: 0 }, content)
    };
    let file = f(0o640, FileContent::Regular);
    assert!(file.can_read(10, 99));
    assert!(file.can_write(10, 99));
    assert!(file.can_read(99, 20));
    assert!(!file.can_write(99, 20));
    assert!(!file.can_read(99, 99));
    assert!(!file.can_execute(10, 20));
    // The superuser reads and writes anything, but executes a regular file
    // only if some execute bit is set for it.
    assert!(file.can_read(0, 99));
    assert!(file.can_write(99, 0));
    assert!(!file.can_execute(0, 0));
    assert!(f(0o001, FileContent::Regular).can_execute(0, 0));
    assert!(f(0o000, FileContent::Directory(Vec::new())).can_execute(0, 99));
    assert!(f(0o000, FileContent::Directory(Vec::new())).can_execute(99, 0));
    assert!(!f(0o000, FileContent::Directory(Vec::new())).can_execute(99, 99));
    assert!(f(0o100, FileContent::Directory(Vec::new())).can_execute(10, 99));
    assert!(f(0o010, FileContent::Directory(Vec::new())).can_execute(99, 20));
    assert!(f(0o001, FileContent::Directory(Vec::new())).can_execute(99, 99));
    assert!(f(0o002, FileContent::Regular).can_write(99, 99));
    assert!(f(0o004, FileContent::Regular).can_read(99, 99));
}

#[test]
fn file_accessors() {
    let mut file = File::new(
        b"name".to_vec(),
        1,
        2,
        0o644,
        FileLocation::Filesystem { mountpoint_id: None, inode: 9 },
        FileContent::Directory(Vec::new()),
    );
    assert_eq!(file.get_name(), &b"name".to_vec());
    assert_eq!(file.get_hard_links_count(), 1);
    assert!(!file.is_busy());
    assert_eq!(file.get_parent_path().to_bytes(), b"/".to_vec());
    assert_eq!(file.get_path().to_bytes(), b"/name".to_vec());
    file.set_parent_path(p("/x/y"));
    assert_eq!(file.get_path().to_bytes(), b"/x/y/name".to_vec());
    file.set_permissions(0o1_7_7_5_5);
    assert_eq!(file.get_mode(), 0o7755);
    file.set_mountpoint(4);
    assert_eq!(*file.get_location(), FileLocation::Filesystem { mountpoint_id: Some(4), inode: 9 });
    assert_eq!(file.get_location().get_inode(), Some(9));
    assert_eq!(file.get_location().get_mountpoint_id(), Some(4));
    let entry = file.to_dir_entry().unwrap();
    assert_eq!(entry.name, b"name".to_vec());
    assert_eq!(entry.inode, 9);
    assert_eq!(entry.entry_type, FileType::Directory);
    file.add_entry(DirEntry { name: b"child".to_vec(), inode: 3, entry_type: FileType::Fifo });
    file.add_entry(DirEntry { name: b"other".to_vec(), inode: 4, entry_type: FileType::Socket });
    match file.get_file_content() {
        FileContent::Directory(entries) => {
            assert_eq!(entries.len(), 2);
            assert_eq!(search_entry(entries, &b"other".to_vec()), Some(1));
            assert_eq!(search_entry(entries, &b"child".to_vec()), Some(0));
            assert_eq!(search_entry(entries, &b"none".to_vec()), None);
        },
        _ => panic!("not a directory"),
    }
    let copy = file.copy();
    assert_eq!(copy.get_path().to_bytes(), file.get_path().to_bytes());
    assert_eq!(copy.get_mode(), file.get_mode());
    assert_eq!(copy.get_file_type(), FileType::Directory);

    let mut virtual_file = File::new(
        Vec::new(),
        0,
        0,
        0,
        FileLocation::Virtual { id: 7 },
        FileContent::Regular,
    );
    virtual_file.set_mountpoint(1);
    assert_eq!(*virtual_file.get_location(), FileLocation::Virtual { id: 7 });
    assert!(virtual_file.to_dir_entry().is_none());
    assert_eq!(virtual_file.get_location().get_inode(), None);
    assert_eq!(virtual_file.get_location().get_mountpoint_id(), None);
    // Adding an entry to a file that is no directory changes nothing.
    virtual_file.add_entry(DirEntry { name: b"x".to_vec(), inode: 1, entry_type: FileType::Regular });
    assert_eq!(virtual_file.get_file_type(), FileType::Regular);
    assert_eq!(virtual_file.get_path().to_bytes(), b"/".to_vec());
    for (content, kind) in [
        (FileContent::Regular, FileType::Regular),
        (FileContent::Link(b"/t".to_vec()), FileType::Link),
        (FileContent::Fifo, FileType::Fifo),
        (FileContent::Socket, FileType::Socket),
        (FileContent::BlockDevice { major: 1, minor: 2 }, FileType::BlockDevice),
        (FileContent::CharDevice { major: 1, minor: 2 }, FileType::CharDevice),
    ] {
        assert_eq!(content.get_file_type(), kind);
        assert_eq!(content.copy().get_file_type(), kind);
    }
}

#[test]
fn errno_numbers() {
    assert_eq!(Errno::NotPermitted.as_int(), 1);
    assert_eq!(Errno::NotFound.as_int(), 2);
    assert_eq!(Errno::IoError.as_int(), 5);
    assert_eq!(Errno::BadDescriptor.as_int(), 9);
    assert_eq!(Errno::PermissionDenied.as_int(), 13);
    assert_eq!(Errno::Busy.as_int(), 16);
    assert_eq!(Errno::AlreadyExists.as_int(), 17);
    assert_eq!(Errno::CrossDevice.as_int(), 18);
    assert_eq!(Errno::NotADirectory.as_int(), 20);
    assert_eq!(Errno::InvalidArgument.as_int(), 22);
    assert_eq!(Errno::NoSpace.as_int(), 28);
    assert_eq!(Errno::ReadOnlyFilesystem.as_int(), 30);
    assert_eq!(Errno::TooManyLinks.as_int(), 31);
    assert_eq!(Errno::NameTooLong.as_int(), 36);
    assert_eq!(Errno::NotEmpty.as_int(), 39);
    assert_eq!(Errno::TooManySymlinks.as_int(), 40);
}
