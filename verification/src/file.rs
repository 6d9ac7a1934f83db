//! Files: what a filesystem hands out for one of its entries.

use vstd::prelude::*;
use crate::bytes::bytes_clone;
use crate::bytes::bytes_eq;
use crate::path::Path;
use crate::path::PathView;

verus! {

/// The identifier of a user.
pub type Uid = u16;

/// The identifier of a group.
pub type Gid = u16;

/// The permissions of a file.
pub type Mode = u32;

/// The number of a node in its filesystem.
pub type INode = u64;

/// The user that every check lets through.
pub const ROOT_UID: Uid = 0;

/// The group that every check lets through.
pub const ROOT_GID: Gid = 0;

/// The owner may read.
pub const S_IRUSR: Mode = 0o400;

/// The owner may write.
pub const S_IWUSR: Mode = 0o200;

/// The owner may execute, or traverse a directory.
pub const S_IXUSR: Mode = 0o100;

/// The group may read.
pub const S_IRGRP: Mode = 0o040;

/// The group may write.
pub const S_IWGRP: Mode = 0o020;

/// The group may execute, or traverse a directory.
pub const S_IXGRP: Mode = 0o010;

/// Others may read.
pub const S_IROTH: Mode = 0o004;

/// Others may write.
pub const S_IWOTH: Mode = 0o002;

/// Others may execute, or traverse a directory.
pub const S_IXOTH: Mode = 0o001;

/// Set-user-id.
pub const S_ISUID: Mode = 0o4000;

/// Set-group-id: entries created in the directory take its group.
pub const S_ISGID: Mode = 0o2000;

/// The sticky bit.
pub const S_ISVTX: Mode = 0o1000;

/// The kind of a file.
#[derive(Clone, Copy, Debug, PartialEq, Eq, Structural)]
pub enum FileType {
    /// A regular file.
    Regular,
    /// A directory.
    Directory,
    /// A symbolic link.
    Link,
    /// A named pipe.
    Fifo,
    /// A socket.
    Socket,
    /// A block device.
    BlockDevice,
    /// A character device.
    CharDevice,
}

/// The identity of a file: where it is stored.
#[derive(Clone, Copy, Debug, PartialEq, Eq, Structural)]
pub enum FileLocation {
    /// The file is a node of a mounted filesystem.
    Filesystem {
        /// The identifier of the mountpoint, once it is known.
        mountpoint_id: Option<u32>,
        /// The number of the node.
        inode: INode,
    },
    /// The file has no node behind it.
    Virtual {
        /// The identifier of the file.
        id: u32,
    },
}

impl FileLocation {
    /// The number of the node, where the file has one.
    pub open spec fn spec_inode(self) -> Option<INode> {
        match self {
            FileLocation::Filesystem { inode, .. } => Some(inode),
            FileLocation::Virtual { .. } => None,
        }
    }

    /// The identifier of the mountpoint, where the file has one that is known.
    pub open spec fn spec_mountpoint_id(self) -> Option<u32> {
        match self {
            FileLocation::Filesystem { mountpoint_id, .. } => mountpoint_id,
            FileLocation::Virtual { .. } => None,
        }
    }

    /// The location with the mountpoint set to `id`; a virtual location has
    /// none and stays as it is.
    pub open spec fn with_mountpoint(self, id: u32) -> FileLocation {
        match self {
            FileLocation::Filesystem { inode, .. } => FileLocation::Filesystem {
                mountpoint_id: Some(id),
                inode,
            },
            FileLocation::Virtual { id: v } => FileLocation::Virtual { id: v },
        }
    }

    /// Returns the number of the node, where the file has one.
    pub fn get_inode(&self) -> (r: Option<INode>)
        ensures
            r == self.spec_inode(),
    {
        match self {
            FileLocation::Filesystem { inode, .. } => Some(*inode),
            FileLocation::Virtual { .. } => None,
        }
    }

    /// Returns the identifier of the mountpoint, where the file has one that is known.
    pub fn get_mountpoint_id(&self) -> (r: Option<u32>)
        ensures
            r == self.spec_mountpoint_id(),
    {
        match self {
            FileLocation::Filesystem { mountpoint_id, .. } => *mountpoint_id,
            FileLocation::Virtual { .. } => None,
        }
    }
}

/// An entry of a directory as a mathematical value.
pub struct DirEntryView {
    /// The name of the entry.
    pub name: Seq<u8>,
    /// The node that the entry leads to.
    pub inode: INode,
    /// The kind of that node.
    pub entry_type: FileType,
}

/// An entry of a directory.
pub struct DirEntry {
    /// The name of the entry.
    pub name: Vec<u8>,
    /// The node that the entry leads to.
    pub inode: INode,
    /// The kind of that node.
    pub entry_type: FileType,
}

impl View for DirEntry {
    type V = DirEntryView;

    open spec fn view(&self) -> DirEntryView {
        DirEntryView { name: self.name@, inode: self.inode, entry_type: self.entry_type }
    }
}

impl DirEntry {
    /// Returns a copy of the entry.
    pub fn copy(&self) -> (e: DirEntry)
        ensures
            e@ == self@,
    {
        DirEntry { name: bytes_clone(&self.name), inode: self.inode, entry_type: self.entry_type }
    }
}

/// The views of a list of entries.
pub open spec fn entries_view(v: Seq<DirEntry>) -> Seq<DirEntryView> {
    Seq::new(v.len(), |i: int| v[i]@)
}

/// The first entry of `entries` named `name`, if there is one.
pub open spec fn find_entry(entries: Seq<DirEntryView>, name: Seq<u8>) -> Option<int>
    decreases entries.len(),
{
    if entries.len() == 0 {
        None
    } else if entries[0].name == name {
        Some(0int)
    } else {
        match find_entry(entries.skip(1), name) {
            Some(i) => Some(i + 1),
            None => None,
        }
    }
}

/// What `find_entry` finds is the first entry of that name, and it finds
/// nothing only where no entry has that name.
pub proof fn lemma_find_entry(entries: Seq<DirEntryView>, name: Seq<u8>)
    ensures
        match find_entry(entries, name) {
            Some(i) => 0 <= i < entries.len() && entries[i].name == name && forall|j: int|
                0 <= j < i ==> (#[trigger] entries[j]).name != name,
            None => forall|j: int| 0 <= j < entries.len() ==> (#[trigger] entries[j]).name != name,
        },
    decreases entries.len(),
{
    if entries.len() > 0 && entries[0].name != name {
        let rest = entries.skip(1);
        lemma_find_entry(rest, name);
        match find_entry(rest, name) {
            Some(i) => {
                assert forall|j: int| 0 <= j < i + 1 implies (#[trigger] entries[j]).name
                    != name by {
                    if j > 0 {
                        assert(entries[j] == rest[j - 1]);
                    }
                }
            },
            None => {
                assert forall|j: int| 0 <= j < entries.len() implies (#[trigger] entries[j]).name
                    != name by {
                    if j > 0 {
                        assert(entries[j] == rest[j - 1]);
                    }
                }
            },
        }
    }
}

/// An entry named `name` with none of that name before it is the one that
/// `find_entry` finds.
pub proof fn lemma_find_entry_first(entries: Seq<DirEntryView>, name: Seq<u8>, i: int)
    requires
        0 <= i < entries.len(),
        entries[i].name == name,
        forall|j: int| 0 <= j < i ==> (#[trigger] entries[j]).name != name,
    ensures
        find_entry(entries, name) == Some(i),
{
    lemma_find_entry(entries, name);
}

/// Where no entry is named `name`, `find_entry` finds none.
pub proof fn lemma_find_entry_absent(entries: Seq<DirEntryView>, name: Seq<u8>)
    requires
        forall|j: int| 0 <= j < entries.len() ==> (#[trigger] entries[j]).name != name,
    ensures
        find_entry(entries, name) is None,
{
    lemma_find_entry(entries, name);
}

/// The entry of `entries` named `name`, if there is one.
pub open spec fn lookup_entry(entries: Seq<DirEntryView>, name: Seq<u8>) -> Option<DirEntryView> {
    match find_entry(entries, name) {
        Some(i) => Some(entries[i]),
        None => None,
    }
}

/// Adding an entry at the end changes the lookup of its own name only, and
/// only where no entry had that name.
#[verifier::spinoff_prover]
#[verifier::rlimit(50)]
pub proof fn lemma_find_entry_push(entries: Seq<DirEntryView>, entry: DirEntryView, name: Seq<u8>)
    ensures
        find_entry(entries.push(entry), name) == if find_entry(entries, name) is Some {
            find_entry(entries, name)
        } else if entry.name == name {
            Some(entries.len() as int)
        } else {
            None
        },
        lookup_entry(entries.push(entry), name) == if find_entry(entries, name) is Some {
            lookup_entry(entries, name)
        } else if entry.name == name {
            Some(entry)
        } else {
            None
        },
{
    let after = entries.push(entry);
    lemma_find_entry(entries, name);
    match find_entry(entries, name) {
        Some(i) => {
            assert forall|j: int| 0 <= j < i implies (#[trigger] after[j]).name != name by {
                assert(after[j] == entries[j]);
            }
            assert(after[i] == entries[i]);
            lemma_find_entry_first(after, name, i);
        },
        None => {
            if entry.name == name {
                assert forall|j: int| 0 <= j < entries.len() implies (#[trigger] after[j]).name
                    != name by {
                    assert(after[j] == entries[j]);
                }
                lemma_find_entry_first(after, name, entries.len() as int);
            } else {
                assert forall|j: int| 0 <= j < after.len() implies (#[trigger] after[j]).name
                    != name by {
                    if j < entries.len() {
                        assert(after[j] == entries[j]);
                    }
                }
                lemma_find_entry_absent(after, name);
            }
        },
    }
}

/// Taking the entry at `k` out of a directory without two entries of one
/// name leaves no entry of its name, and every other name leads where it led.
#[verifier::spinoff_prover]
#[verifier::rlimit(50)]
pub proof fn lemma_find_entry_remove(entries: Seq<DirEntryView>, k: int, name: Seq<u8>)
    requires
        0 <= k < entries.len(),
        distinct_names(entries),
    ensures
        distinct_names(entries.remove(k)),
        name == entries[k].name ==> find_entry(entries.remove(k), name) is None,
        name != entries[k].name ==> lookup_entry(entries.remove(k), name) == lookup_entry(
            entries,
            name,
        ),
{
    let after = entries.remove(k);
    assert forall|j: int| 0 <= j < after.len() implies #[trigger] after[j] == entries[if j < k {
        j
    } else {
        j + 1
    }] by {}
    assert forall|i: int, j: int| 0 <= i < j < after.len() implies (#[trigger] after[i]).name != (
    #[trigger] after[j]).name by {
        let a = if i < k { i } else { i + 1 };
        let b = if j < k { j } else { j + 1 };
        assert(entries[a].name != entries[b].name);
    }
    if name == entries[k].name {
        assert forall|j: int| 0 <= j < after.len() implies (#[trigger] after[j]).name != name by {
            let a = if j < k { j } else { j + 1 };
            if a < k {
                assert(entries[a].name != entries[k].name);
            } else {
                assert(entries[k].name != entries[a].name);
            }
        }
        lemma_find_entry_absent(after, name);
    } else {
        lemma_find_entry(entries, name);
        match find_entry(entries, name) {
            Some(i) => {
                let i2 = if i < k { i } else { i - 1 };
                assert(after[i2] == entries[i]);
                assert forall|j: int| 0 <= j < i2 implies (#[trigger] after[j]).name != name by {
                    let a = if j < k { j } else { j + 1 };
                    assert(entries[a].name != name);
                }
                lemma_find_entry_first(after, name, i2);
            },
            None => {
                assert forall|j: int| 0 <= j < after.len() implies (#[trigger] after[j]).name
                    != name by {
                    let a = if j < k { j } else { j + 1 };
                    assert(entries[a].name != name);
                }
                lemma_find_entry_absent(after, name);
            },
        }
    }
}

/// Adding an entry of a name that no entry has keeps the names distinct.
pub proof fn lemma_distinct_push(entries: Seq<DirEntryView>, entry: DirEntryView)
    requires
        distinct_names(entries),
        find_entry(entries, entry.name) is None,
    ensures
        distinct_names(entries.push(entry)),
{
    lemma_find_entry(entries, entry.name);
    let after = entries.push(entry);
    assert forall|i: int, j: int| 0 <= i < j < after.len() implies (#[trigger] after[i]).name != (
    #[trigger] after[j]).name by {
        assert(after[i] == entries[i]);
        if j < entries.len() {
            assert(after[j] == entries[j]);
        }
    }
}

/// Tells whether no two entries have the same name.
pub open spec fn distinct_names(entries: Seq<DirEntryView>) -> bool {
    forall|i: int, j: int|
        0 <= i < j < entries.len() ==> (#[trigger] entries[i]).name != (#[trigger] entries[j]).name
}

/// Looks for the entry named `name`.
pub fn search_entry(entries: &Vec<DirEntry>, name: &Vec<u8>) -> (r: Option<usize>)
    ensures
        match r {
            Some(i) => i < entries@.len() && find_entry(entries_view(entries@), name@) == Some(
                i as int,
            ),
            None => find_entry(entries_view(entries@), name@) is None,
        },
{
    let mut i: usize = 0;
    let ghost all = entries_view(entries@);
    while i < entries.len()
        invariant
            i <= entries@.len(),
            all == entries_view(entries@),
            forall|j: int| 0 <= j < i ==> (#[trigger] all[j]).name != name@,
        decreases entries.len() - i,
    {
        if bytes_eq(&entries[i].name, name) {
            proof {
                lemma_find_entry(all, name@);
                assert(all[i as int].name == name@);
            }
            return Some(i);
        }
        i += 1;
    }
    proof {
        lemma_find_entry(all, name@);
    }
    None
}

/// What a file holds, as a mathematical value.
pub enum ContentView {
    /// The bytes of a regular file, which the filesystem keeps.
    Regular,
    /// The entries of a directory.
    Directory(Seq<DirEntryView>),
    /// The text of the path that a symbolic link stands for.
    Link(Seq<u8>),
    /// A named pipe.
    Fifo,
    /// A socket.
    Socket,
    /// A block device.
    BlockDevice { major: u32, minor: u32 },
    /// A character device.
    CharDevice { major: u32, minor: u32 },
}

impl ContentView {
    /// The kind of file that holds this.
    pub open spec fn file_type(self) -> FileType {
        match self {
            ContentView::Regular => FileType::Regular,
            ContentView::Directory(_) => FileType::Directory,
            ContentView::Link(_) => FileType::Link,
            ContentView::Fifo => FileType::Fifo,
            ContentView::Socket => FileType::Socket,
            ContentView::BlockDevice { .. } => FileType::BlockDevice,
            ContentView::CharDevice { .. } => FileType::CharDevice,
        }
    }
}

/// What a file holds. This also gives the file its kind.
pub enum FileContent {
    /// The bytes of a regular file, which the filesystem keeps.
    Regular,
    /// The entries of a directory.
    Directory(Vec<DirEntry>),
    /// The text of the path that a symbolic link stands for.
    Link(Vec<u8>),
    /// A named pipe.
    Fifo,
    /// A socket.
    Socket,
    /// A block device.
    BlockDevice { major: u32, minor: u32 },
    /// A character device.
    CharDevice { major: u32, minor: u32 },
}

impl View for FileContent {
    type V = ContentView;

    open spec fn view(&self) -> ContentView {
        match self {
            FileContent::Regular => ContentView::Regular,
            FileContent::Directory(entries) => ContentView::Directory(entries_view(entries@)),
            FileContent::Link(target) => ContentView::Link(target@),
            FileContent::Fifo => ContentView::Fifo,
            FileContent::Socket => ContentView::Socket,
            FileContent::BlockDevice { major, minor } => ContentView::BlockDevice {
                major: *major,
                minor: *minor,
            },
            FileContent::CharDevice { major, minor } => ContentView::CharDevice {
                major: *major,
                minor: *minor,
            },
        }
    }
}

/// Returns a copy of a list of entries.
pub fn entries_clone(entries: &Vec<DirEntry>) -> (r: Vec<DirEntry>)
    ensures
        entries_view(r@) == entries_view(entries@),
{
    let mut r: Vec<DirEntry> = Vec::new();
    let mut i: usize = 0;
    while i < entries.len()
        invariant
            i <= entries@.len(),
            r@.len() == i,
            forall|j: int| 0 <= j < i ==> (#[trigger] r@[j])@ == entries@[j]@,
        decreases entries.len() - i,
    {
        r.push(entries[i].copy());
        i += 1;
    }
    assert(entries_view(r@) =~= entries_view(entries@));
    r
}

impl FileContent {
    /// Returns the kind of file that holds this.
    pub fn get_file_type(&self) -> (t: FileType)
        ensures
            t == self@.file_type(),
    {
        match self {
            FileContent::Regular => FileType::Regular,
            FileContent::Directory(_) => FileType::Directory,
            FileContent::Link(_) => FileType::Link,
            FileContent::Fifo => FileType::Fifo,
            FileContent::Socket => FileType::Socket,
            FileContent::BlockDevice { .. } => FileType::BlockDevice,
            FileContent::CharDevice { .. } => FileType::CharDevice,
        }
    }

    /// Returns a copy of the content.
    pub fn copy(&self) -> (c: FileContent)
        ensures
            c@ == self@,
    {
        match self {
            FileContent::Regular => FileContent::Regular,
            FileContent::Directory(entries) => FileContent::Directory(entries_clone(entries)),
            FileContent::Link(target) => FileContent::Link(bytes_clone(target)),
            FileContent::Fifo => FileContent::Fifo,
            FileContent::Socket => FileContent::Socket,
            FileContent::BlockDevice { major, minor } => FileContent::BlockDevice {
                major: *major,
                minor: *minor,
            },
            FileContent::CharDevice { major, minor } => FileContent::CharDevice {
                major: *major,
                minor: *minor,
            },
        }
    }
}

/// Tells whether the permissions `mode` of a file owned by `owner` and
/// `group` let the caller through for the owner's bit `user_bit`, the group's
/// bit `group_bit` or the others' bit `other_bit`.
pub open spec fn mode_grants(
    mode: Mode,
    owner: Uid,
    group: Gid,
    uid: Uid,
    gid: Gid,
    user_bit: Mode,
    group_bit: Mode,
    other_bit: Mode,
) -> bool {
    ||| (mode & user_bit != 0 && owner == uid)
    ||| (mode & group_bit != 0 && group == gid)
    ||| mode & other_bit != 0
}

/// A file as a mathematical value.
pub struct FileView {
    /// The name of the file in its directory; empty for the root of a filesystem.
    pub name: Seq<u8>,
    /// The path of the directory that holds the file.
    pub parent_path: PathView,
    /// The owner.
    pub uid: Uid,
    /// The owning group.
    pub gid: Gid,
    /// The permissions.
    pub mode: Mode,
    /// The number of directory entries that lead to the file.
    pub hard_links_count: u16,
    /// Where the file is stored.
    pub location: FileLocation,
    /// What the file holds.
    pub content: ContentView,
    /// Whether the file is in use.
    pub busy: bool,
}

impl FileView {
    /// The kind of the file.
    pub open spec fn file_type(self) -> FileType {
        self.content.file_type()
    }

    /// Tells whether the caller may read the file. The superuser and the
    /// superuser's group always may.
    pub open spec fn can_read(self, uid: Uid, gid: Gid) -> bool {
        uid == ROOT_UID || gid == ROOT_GID || mode_grants(
            self.mode,
            self.uid,
            self.gid,
            uid,
            gid,
            S_IRUSR,
            S_IRGRP,
            S_IROTH,
        )
    }

    /// Tells whether the caller may write the file. The superuser and the
    /// superuser's group always may.
    pub open spec fn can_write(self, uid: Uid, gid: Gid) -> bool {
        uid == ROOT_UID || gid == ROOT_GID || mode_grants(
            self.mode,
            self.uid,
            self.gid,
            uid,
            gid,
            S_IWUSR,
            S_IWGRP,
            S_IWOTH,
        )
    }

    /// Tells whether the caller may execute the file or, for a directory,
    /// traverse it. The superuser and the superuser's group always may, but
    /// for a regular file, which needs one of its bits.
    pub open spec fn can_execute(self, uid: Uid, gid: Gid) -> bool {
        (self.content !is Regular && (uid == ROOT_UID || gid == ROOT_GID)) || mode_grants(
            self.mode,
            self.uid,
            self.gid,
            uid,
            gid,
            S_IXUSR,
            S_IXGRP,
            S_IXOTH,
        )
    }

    /// The path of the file: the path of its directory and its name. The root
    /// of a filesystem has no name, and its path is that of its directory.
    pub open spec fn path(self) -> PathView {
        if self.name.len() > 0 {
            self.parent_path.push(self.name)
        } else {
            self.parent_path
        }
    }

    /// The file as the resolver hands it out: in the directory `parent_path`, on
    /// the mountpoint `id`.
    pub open spec fn placed(self, parent_path: PathView, id: u32) -> FileView {
        FileView { parent_path, location: self.location.with_mountpoint(id), ..self }
    }

    /// The entry that leads to the file.
    pub open spec fn dir_entry(self) -> DirEntryView
        recommends
            self.location is Filesystem,
    {
        DirEntryView {
            name: self.name,
            inode: self.location->inode,
            entry_type: self.file_type(),
        }
    }

    /// The file with one more entry, if it is a directory.
    pub open spec fn add_entry(self, entry: DirEntryView) -> FileView {
        match self.content {
            ContentView::Directory(entries) => FileView {
                content: ContentView::Directory(entries.push(entry)),
                ..self
            },
            _ => self,
        }
    }
}

/// One entry of a filesystem, as loaded in memory.
pub struct File {
    /// The name of the file in its directory; empty for the root of a filesystem.
    pub name: Vec<u8>,
    /// The path of the directory that holds the file.
    pub parent_path: Path,
    /// The owner.
    pub uid: Uid,
    /// The owning group.
    pub gid: Gid,
    /// The permissions.
    pub mode: Mode,
    /// The number of directory entries that lead to the file.
    pub hard_links_count: u16,
    /// Where the file is stored.
    pub location: FileLocation,
    /// What the file holds.
    pub content: FileContent,
    /// Whether the file is in use.
    pub busy: bool,
}

impl View for File {
    type V = FileView;

    open spec fn view(&self) -> FileView {
        FileView {
            name: self.name@,
            parent_path: self.parent_path@,
            uid: self.uid,
            gid: self.gid,
            mode: self.mode,
            hard_links_count: self.hard_links_count,
            location: self.location,
            content: self.content@,
            busy: self.busy,
        }
    }
}

/// The view of what a filesystem returned for a file.
pub open spec fn file_result_view(r: Result<File, crate::errno::Errno>) -> Result<
    FileView,
    crate::errno::Errno,
> {
    match r {
        Ok(f) => Ok(f@),
        Err(e) => Err(e),
    }
}

/// Decides from the three bits of a permission whether the caller is let through.
fn check_mode(
    mode: Mode,
    owner: Uid,
    group: Gid,
    uid: Uid,
    gid: Gid,
    user_bit: Mode,
    group_bit: Mode,
    other_bit: Mode,
) -> (b: bool)
    ensures
        b == mode_grants(mode, owner, group, uid, gid, user_bit, group_bit, other_bit),
{
    if mode & user_bit != 0 && owner == uid {
        return true;
    }
    if mode & group_bit != 0 && group == gid {
        return true;
    }
    mode & other_bit != 0
}

impl File {
    /// Creates a file with one link, in the root directory, not in use.
    pub fn new(
        name: Vec<u8>,
        uid: Uid,
        gid: Gid,
        mode: Mode,
        location: FileLocation,
        content: FileContent,
    ) -> (f: File)
        ensures
            f@ == (FileView {
                name: name@,
                parent_path: PathView::root(),
                uid,
                gid,
                mode,
                hard_links_count: 1,
                location,
                content: content@,
                busy: false,
            }),
    {
        File {
            name,
            parent_path: Path::root(),
            uid,
            gid,
            mode,
            hard_links_count: 1,
            location,
            content,
            busy: false,
        }
    }

    /// Returns the name of the file.
    pub fn get_name(&self) -> (name: &Vec<u8>)
        ensures
            name@ == self@.name,
    {
        &self.name
    }

    /// Returns the path of the directory that holds the file.
    pub fn get_parent_path(&self) -> (p: &Path)
        ensures
            p@ == self@.parent_path,
    {
        &self.parent_path
    }

    /// Sets the path of the directory that holds the file.
    pub fn set_parent_path(&mut self, parent_path: Path)
        ensures
            final(self)@ == (FileView { parent_path: parent_path@, ..old(self)@ }),
    {
        self.parent_path = parent_path;
    }

    /// Returns the path of the file.
    pub fn get_path(&self) -> (p: Path)
        ensures
            p@ == self@.path(),
    {
        let mut p = self.parent_path.copy();
        if self.name.len() > 0 {
            p.push(bytes_clone(&self.name));
        }
        p
    }

    /// Returns the owner.
    pub fn get_uid(&self) -> (uid: Uid)
        ensures
            uid == self@.uid,
    {
        self.uid
    }

    /// Returns the owning group.
    pub fn get_gid(&self) -> (gid: Gid)
        ensures
            gid == self@.gid,
    {
        self.gid
    }

    /// Returns the permissions.
    pub fn get_mode(&self) -> (mode: Mode)
        ensures
            mode == self@.mode,
    {
        self.mode
    }

    /// Sets the permissions: the twelve permission bits of `mode`.
    pub fn set_permissions(&mut self, mode: Mode)
        ensures
            final(self)@ == (FileView { mode: mode & 0o7777, ..old(self)@ }),
    {
        self.mode = mode & 0o7777;
    }

    /// Returns the number of directory entries that lead to the file.
    pub fn get_hard_links_count(&self) -> (n: u16)
        ensures
            n == self@.hard_links_count,
    {
        self.hard_links_count
    }

    /// Returns where the file is stored.
    pub fn get_location(&self) -> (l: &FileLocation)
        ensures
            *l == self@.location,
    {
        &self.location
    }

    /// Sets the mountpoint of the file's location. A virtual file has none and
    /// stays as it is.
    pub fn set_mountpoint(&mut self, id: u32)
        ensures
            final(self)@ == (FileView {
                location: old(self)@.location.with_mountpoint(id),
                ..old(self)@
            }),
    {
        match self.location {
            FileLocation::Filesystem { inode, .. } => {
                self.location = FileLocation::Filesystem { mountpoint_id: Some(id), inode };
            },
            FileLocation::Virtual { .. } => {},
        }
    }

    /// Returns what the file holds.
    pub fn get_file_content(&self) -> (c: &FileContent)
        ensures
            c@ == self@.content,
    {
        &self.content
    }

    /// Returns the kind of the file.
    pub fn get_file_type(&self) -> (t: FileType)
        ensures
            t == self@.file_type(),
    {
        self.content.get_file_type()
    }

    /// Tells whether the file is in use.
    pub fn is_busy(&self) -> (b: bool)
        ensures
            b == self@.busy,
    {
        self.busy
    }

    /// Marks the file as in use, or not.
    pub fn set_busy(&mut self, busy: bool)
        ensures
            final(self)@ == (FileView { busy, ..old(self)@ }),
    {
        self.busy = busy;
    }

    /// Tells whether the caller may read the file.
    pub fn can_read(&self, uid: Uid, gid: Gid) -> (b: bool)
        ensures
            b == self@.can_read(uid, gid),
    {
        if uid == ROOT_UID || gid == ROOT_GID {
            return true;
        }
        check_mode(self.mode, self.uid, self.gid, uid, gid, S_IRUSR, S_IRGRP, S_IROTH)
    }

    /// Tells whether the caller may write the file.
    pub fn can_write(&self, uid: Uid, gid: Gid) -> (b: bool)
        ensures
            b == self@.can_write(uid, gid),
    {
        if uid == ROOT_UID || gid == ROOT_GID {
            return true;
        }
        check_mode(self.mode, self.uid, self.gid, uid, gid, S_IWUSR, S_IWGRP, S_IWOTH)
    }

    /// Tells whether the caller may execute the file or, for a directory,
    /// traverse it.
    pub fn can_execute(&self, uid: Uid, gid: Gid) -> (b: bool)
        ensures
            b == self@.can_execute(uid, gid),
    {
        let regular: bool = match self.content {
            FileContent::Regular => true,
            _ => false,
        };
        if !regular && (uid == ROOT_UID || gid == ROOT_GID) {
            return true;
        }
        check_mode(self.mode, self.uid, self.gid, uid, gid, S_IXUSR, S_IXGRP, S_IXOTH)
    }

    /// Returns the entry that leads to the file, where the file has a node.
    pub fn to_dir_entry(&self) -> (r: Option<DirEntry>)
        ensures
            match r {
                Some(e) => self@.location is Filesystem && e@ == self@.dir_entry(),
                None => self@.location is Virtual,
            },
    {
        match self.location {
            FileLocation::Filesystem { inode, .. } => Some(
                DirEntry {
                    name: bytes_clone(&self.name),
                    inode,
                    entry_type: self.get_file_type(),
                },
            ),
            FileLocation::Virtual { .. } => None,
        }
    }

    /// Adds an entry to the file, if it is a directory; another file stays as it is.
    pub fn add_entry(&mut self, entry: DirEntry)
        ensures
            final(self)@ == old(self)@.add_entry(entry@),
    {
        match &mut self.content {
            FileContent::Directory(entries) => {
                let ghost before = entries_view(entries@);
                entries.push(entry);
                assert(entries_view(entries@) =~= before.push(entry@));
            },
            _ => {},
        }
    }

    /// Returns a copy of the file.
    pub fn copy(&self) -> (f: File)
        ensures
            f@ == self@,
    {
        File {
            name: bytes_clone(&self.name),
            parent_path: self.parent_path.copy(),
            uid: self.uid,
            gid: self.gid,
            mode: self.mode,
            hard_links_count: self.hard_links_count,
            location: self.location,
            content: self.content.copy(),
            busy: self.busy,
        }
    }
}

} // verus!
