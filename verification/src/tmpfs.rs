//! A filesystem that keeps its nodes in memory.

use vstd::prelude::*;
use crate::bytes::bytes_clone;
use crate::errno::Errno;
use crate::file::distinct_names;
use crate::file::entries_view;
use crate::file::find_entry;
use crate::file::lemma_distinct_push;
use crate::file::lemma_find_entry;
use crate::file::lemma_find_entry_push;
use crate::file::lemma_find_entry_remove;
use crate::file::search_entry;
use crate::file::ContentView;
use crate::file::DirEntry;
use crate::file::DirEntryView;
use crate::file::File;
use crate::file::FileContent;
use crate::file::FileLocation;
use crate::file::FileView;
use crate::file::Gid;
use crate::file::INode;
use crate::file::Mode;
use crate::file::Uid;
use crate::filesystem::chunk;
use crate::filesystem::chunk_len;
use crate::filesystem::written;
use crate::filesystem::Filesystem;
use crate::filesystem::FilesystemModel;
use crate::path::PathView;

verus! {

/// The greatest number of nodes that the filesystem hands out over its life.
pub const MAX_NODES: usize = 65536;

/// The greatest number of bytes that a file holds.
pub const MAX_FILE_SIZE: usize = 16777216;

/// The number of the root directory.
pub const ROOT_INODE: INode = 0;

/// A node of the filesystem.
pub struct Node {
    /// The owner.
    pub uid: Uid,
    /// The owning group.
    pub gid: Gid,
    /// The permissions.
    pub mode: Mode,
    /// The number of directory entries that lead to the node.
    pub links: u16,
    /// What the node holds.
    pub content: FileContent,
    /// The bytes of the node, where it is a regular file.
    pub data: Vec<u8>,
}

impl Node {
    /// The node as the file that loading it under `name` gives.
    pub open spec fn as_file(&self, inode: INode, name: Seq<u8>) -> FileView {
        FileView {
            name,
            parent_path: PathView::root(),
            uid: self.uid,
            gid: self.gid,
            mode: self.mode,
            hard_links_count: self.links,
            location: FileLocation::Filesystem { mountpoint_id: None, inode },
            content: self.content@,
            busy: false,
        }
    }

    /// The node is consistent: at least one entry leads to it, and a
    /// directory has no two entries of the same name.
    pub open spec fn inv(&self) -> bool {
        &&& self.links >= 1
        &&& self.data@.len() <= MAX_FILE_SIZE
        &&& self.content@ matches ContentView::Directory(entries) ==> distinct_names(entries)
    }
}

/// A filesystem in memory. The number of a node is its place in the table;
/// the root directory is node 0, and a number is never used twice.
pub struct TmpFs {
    /// The nodes; a removed node leaves its place empty.
    pub nodes: Vec<Option<Node>>,
    /// Whether the filesystem refuses every change.
    pub readonly: bool,
}

impl TmpFs {
    /// The node numbered `inode`, if it exists.
    pub open spec fn node(&self, inode: INode) -> Option<Node> {
        if inode < self.nodes@.len() {
            self.nodes@[inode as int]
        } else {
            None
        }
    }

    /// The entries of the directory `inode`; an error where there is no such
    /// node or where it is no directory.
    pub open spec fn entries(&self, inode: INode) -> Result<Seq<DirEntryView>, Errno> {
        match self.node(inode) {
            None => Err(Errno::NotFound),
            Some(n) => match n.content@ {
                ContentView::Directory(entries) => Ok(entries),
                _ => Err(Errno::NotADirectory),
            },
        }
    }

    /// What a new node holds for the content asked for: a new directory is empty.
    pub open spec fn initial_content(content: ContentView) -> ContentView {
        match content {
            ContentView::Directory(_) => ContentView::Directory(Seq::empty()),
            c => c,
        }
    }
}

impl FilesystemModel for TmpFs {
    open spec fn inv(&self) -> bool {
        &&& self.nodes@.len() <= MAX_NODES
        &&& forall|i: int|
            0 <= i < self.nodes@.len() && (#[trigger] self.nodes@[i]) is Some
                ==> self.nodes@[i]->Some_0.inv()
    }

    open spec fn spec_is_readonly(&self) -> bool {
        self.readonly
    }

    open spec fn spec_root_inode(&self) -> Result<INode, Errno> {
        Ok(ROOT_INODE)
    }

    open spec fn spec_get_inode(&self, parent: Option<INode>, name: Seq<u8>) -> Result<
        INode,
        Errno,
    > {
        let dir = match parent {
            Some(p) => p,
            None => ROOT_INODE,
        };
        match self.entries(dir) {
            Err(e) => Err(e),
            Ok(entries) => match find_entry(entries, name) {
                Some(k) => Ok(entries[k].inode),
                None => Err(Errno::NotFound),
            },
        }
    }

    open spec fn spec_load_file(&self, inode: INode, name: Seq<u8>) -> Result<FileView, Errno> {
        match self.node(inode) {
            None => Err(Errno::NotFound),
            Some(n) => Ok(n.as_file(inode, name)),
        }
    }

    open spec fn spec_add_file(
        &self,
        parent: INode,
        name: Seq<u8>,
        uid: Uid,
        gid: Gid,
        mode: Mode,
        content: ContentView,
    ) -> Result<FileView, Errno> {
        match self.entries(parent) {
            Err(e) => Err(e),
            Ok(entries) => if find_entry(entries, name) is Some {
                Err(Errno::AlreadyExists)
            } else if self.readonly {
                Err(Errno::ReadOnlyFilesystem)
            } else if self.nodes@.len() >= MAX_NODES {
                Err(Errno::NoSpace)
            } else {
                Ok(
                    FileView {
                        name,
                        parent_path: PathView::root(),
                        uid,
                        gid,
                        mode,
                        hard_links_count: 1,
                        location: FileLocation::Filesystem {
                            mountpoint_id: None,
                            inode: self.nodes@.len() as INode,
                        },
                        content: Self::initial_content(content),
                        busy: false,
                    },
                )
            },
        }
    }

    open spec fn spec_add_link(&self, parent: INode, name: Seq<u8>, target: INode) -> Result<
        (),
        Errno,
    > {
        match self.entries(parent) {
            Err(e) => Err(e),
            Ok(entries) => if find_entry(entries, name) is Some {
                Err(Errno::AlreadyExists)
            } else if self.readonly {
                Err(Errno::ReadOnlyFilesystem)
            } else {
                match self.node(target) {
                    None => Err(Errno::NotFound),
                    Some(n) => if n.content@ is Directory {
                        Err(Errno::NotPermitted)
                    } else if n.links == u16::MAX {
                        Err(Errno::TooManyLinks)
                    } else {
                        Ok(())
                    },
                }
            },
        }
    }

    open spec fn spec_remove_file(&self, parent: INode, name: Seq<u8>) -> Result<(), Errno> {
        match self.entries(parent) {
            Err(e) => Err(e),
            Ok(entries) => match find_entry(entries, name) {
                None => Err(Errno::NotFound),
                Some(k) => if self.readonly {
                    Err(Errno::ReadOnlyFilesystem)
                } else {
                    match self.entries(entries[k].inode) {
                        Ok(inner) => if inner.len() > 0 {
                            Err(Errno::NotEmpty)
                        } else {
                            Ok(())
                        },
                        Err(_) => Ok(()),
                    }
                },
            },
        }
    }

    open spec fn spec_update_inode(&self, file: FileView) -> Result<(), Errno> {
        match file.location {
            FileLocation::Virtual { .. } => Err(Errno::InvalidArgument),
            FileLocation::Filesystem { inode, .. } => if self.node(inode) is None {
                Err(Errno::NotFound)
            } else if self.readonly {
                Err(Errno::ReadOnlyFilesystem)
            } else {
                Ok(())
            },
        }
    }

    open spec fn spec_data(&self, inode: INode) -> Result<Seq<u8>, Errno> {
        match self.node(inode) {
            None => Err(Errno::NotFound),
            Some(n) => if n.content@ is Regular {
                Ok(n.data@)
            } else {
                Err(Errno::InvalidArgument)
            },
        }
    }

    open spec fn spec_write(&self, inode: INode, offset: u64, bytes: Seq<u8>) -> Result<u64, Errno> {
        match self.spec_data(inode) {
            Err(e) => Err(e),
            Ok(_) => if self.readonly {
                Err(Errno::ReadOnlyFilesystem)
            } else if offset + bytes.len() > MAX_FILE_SIZE {
                Err(Errno::NoSpace)
            } else {
                Ok(bytes.len() as u64)
            },
        }
    }

    proof fn lemma_data_loads(&self, inode: INode, name: Seq<u8>) {
    }

    proof fn lemma_data_fits(&self, inode: INode) {
        if self.node(inode) is Some {
            assert(self.nodes@[inode as int] is Some);
        }
    }

    proof fn lemma_load_file(&self, inode: INode, name: Seq<u8>) {
    }

    proof fn lemma_load_any_name(&self, inode: INode, a: Seq<u8>, b: Seq<u8>) {
    }

    proof fn lemma_add_file(
        &self,
        parent: INode,
        name: Seq<u8>,
        uid: Uid,
        gid: Gid,
        mode: Mode,
        content: ContentView,
    ) {
    }
}

impl TmpFs {
    /// Creates a filesystem that holds an empty root directory with the
    /// given owner and permissions.
    pub fn new(uid: Uid, gid: Gid, mode: Mode, readonly: bool) -> (fs: TmpFs)
        ensures
            fs.inv(),
            fs.readonly == readonly,
            fs.nodes@.len() == 1,
            fs.spec_load_file(ROOT_INODE, Seq::empty()) == Ok::<FileView, Errno>(
                FileView {
                    name: Seq::empty(),
                    parent_path: PathView::root(),
                    uid,
                    gid,
                    mode,
                    hard_links_count: 1,
                    location: FileLocation::Filesystem { mountpoint_id: None, inode: ROOT_INODE },
                    content: ContentView::Directory(Seq::empty()),
                    busy: false,
                },
            ),
    {
        let root = Node {
            uid,
            gid,
            mode,
            links: 1,
            content: FileContent::Directory(Vec::new()),
            data: Vec::new(),
        };
        assert(root.content@ == ContentView::Directory(Seq::<DirEntryView>::empty())) by {
            assert(entries_view(Seq::<DirEntry>::empty()) =~= Seq::<DirEntryView>::empty());
        }
        let mut nodes: Vec<Option<Node>> = Vec::new();
        nodes.push(Some(root));
        TmpFs { nodes, readonly }
    }

    /// Returns the entries of the directory `inode`.
    fn get_entries(&self, inode: INode) -> (r: Result<&Vec<DirEntry>, Errno>)
        ensures
            match r {
                Ok(entries) => self.entries(inode) == Ok::<Seq<DirEntryView>, Errno>(
                    entries_view(entries@),
                ) && self.node(inode) is Some && self.node(inode)->Some_0.content
                    == FileContent::Directory(*entries),
                Err(e) => self.entries(inode) == Err::<Seq<DirEntryView>, Errno>(e),
            },
    {
        if inode >= self.nodes.len() as u64 {
            return Err(Errno::NotFound);
        }
        match &self.nodes[inode as usize] {
            None => Err(Errno::NotFound),
            Some(n) => match &n.content {
                FileContent::Directory(entries) => Ok(entries),
                _ => Err(Errno::NotADirectory),
            },
        }
    }
}

/// Copies into `buff` the bytes of `data` from the offset `offset` on, as
/// far as there are bytes and `buff` has room, and returns their number.
fn take_bytes(data: &Vec<u8>, offset: u64, buff: &mut Vec<u8>) -> (len: usize)
    ensures
        len == chunk_len(data@.len(), offset, old(buff)@.len()),
        final(buff)@ == chunk(data@, offset, old(buff)@.len()) + old(buff)@.skip(len as int),
{
    if offset >= data.len() as u64 {
        assert(buff@ =~= Seq::<u8>::empty() + buff@.skip(0));
        return 0;
    }
    let start: usize = offset as usize;
    let left: usize = data.len() - start;
    let len: usize = if left <= buff.len() {
        left
    } else {
        buff.len()
    };
    let mut k: usize = 0;
    while k < len
        invariant
            k <= len,
            start + len <= data@.len() <= usize::MAX,
            len <= buff@.len(),
            buff@.len() == old(buff)@.len(),
            buff@ =~= data@.subrange(start as int, start + k) + old(buff)@.skip(k as int),
        decreases len - k,
    {
        buff.set(k, data[start + k]);
        k += 1;
    }
    len
}

/// Writes `bytes` into `data` at the offset `offset`; a gap before the
/// offset is filled with zeros.
fn put_bytes(data: &mut Vec<u8>, offset: usize, bytes: &Vec<u8>)
    requires
        offset + bytes@.len() <= MAX_FILE_SIZE,
    ensures
        final(data)@ == written(old(data)@, offset as int, bytes@),
{
    while data.len() < offset
        invariant
            data@ =~= written(old(data)@, data@.len() as int, Seq::<u8>::empty()),
            old(data)@.len() <= data@.len(),
            data@.len() <= offset || data@.len() == old(data)@.len(),
        decreases offset - data.len(),
    {
        data.push(0u8);
    }
    let ghost padded = data@;
    let mut k: usize = 0;
    while k < bytes.len()
        invariant
            k <= bytes@.len(),
            offset + bytes@.len() <= MAX_FILE_SIZE,
            offset <= data@.len(),
            data@ =~= written(old(data)@, offset as int, bytes@.take(k as int)),
        decreases bytes.len() - k,
    {
        if offset + k < data.len() {
            data.set(offset + k, bytes[k]);
        } else {
            data.push(bytes[k]);
        }
        k += 1;
    }
    assert(bytes@.take(bytes@.len() as int) =~= bytes@);
}

impl Filesystem for TmpFs {
    fn is_readonly(&self) -> (b: bool) {
        self.readonly
    }

    fn get_root_inode(&self) -> (r: Result<INode, Errno>) {
        Ok(ROOT_INODE)
    }

    fn get_inode(&self, parent: Option<INode>, name: &Vec<u8>) -> (r: Result<INode, Errno>) {
        let dir: INode = match parent {
            Some(p) => p,
            None => ROOT_INODE,
        };
        let entries = self.get_entries(dir)?;
        match search_entry(entries, name) {
            Some(k) => Ok(entries[k].inode),
            None => Err(Errno::NotFound),
        }
    }

    fn load_file(&self, inode: INode, name: Vec<u8>) -> (r: Result<File, Errno>) {
        if inode >= self.nodes.len() as u64 {
            return Err(Errno::NotFound);
        }
        match &self.nodes[inode as usize] {
            None => Err(Errno::NotFound),
            Some(n) => {
                let mut f = File::new(
                    name,
                    n.uid,
                    n.gid,
                    n.mode,
                    FileLocation::Filesystem { mountpoint_id: None, inode },
                    n.content.copy(),
                );
                f.hard_links_count = n.links;
                Ok(f)
            },
        }
    }

    #[verifier::spinoff_prover]
    #[verifier::rlimit(50)]
    fn add_file(
        &mut self,
        parent_inode: INode,
        name: Vec<u8>,
        uid: Uid,
        gid: Gid,
        mode: Mode,
        content: FileContent,
    ) -> (r: Result<File, Errno>) {
        let found: bool = {
            let entries = self.get_entries(parent_inode)?;
            search_entry(entries, &name).is_some()
        };
        if found {
            return Err(Errno::AlreadyExists);
        }
        if self.readonly {
            return Err(Errno::ReadOnlyFilesystem);
        }
        if self.nodes.len() >= MAX_NODES {
            return Err(Errno::NoSpace);
        }
        let inode: INode = self.nodes.len() as u64;
        let initial: FileContent = match content {
            FileContent::Directory(_) => FileContent::Directory(Vec::new()),
            c => c,
        };
        assert(initial@ == Self::initial_content(content@)) by {
            assert(entries_view(Seq::<DirEntry>::empty()) =~= Seq::<DirEntryView>::empty());
        }
        let entry = DirEntry {
            name: bytes_clone(&name),
            inode,
            entry_type: initial.get_file_type(),
        };
        let node = Node { uid, gid, mode, links: 1, content: initial.copy(), data: Vec::new() };
        let ghost before = old(self).entries(parent_inode)->Ok_0;
        self.nodes.push(Some(node));
        self.push_entry(parent_inode as usize, entry);
        let f = File::new(
            name,
            uid,
            gid,
            mode,
            FileLocation::Filesystem { mountpoint_id: None, inode },
            initial,
        );
        proof {
            lemma_distinct_push(before, entry@);
            lemma_find_entry_push(before, entry@, name@);
            assert forall|q: INode, n: Seq<u8>|
                ((q != parent_inode || n != name@) && q
                    != inode) implies #[trigger] self.spec_get_inode(Some(q), n) == old(self).spec_get_inode(Some(q), n) by {
                if q == parent_inode {
                    lemma_find_entry_push(before, entry@, n);
                }
            }
        }
        Ok(f)
    }

    #[verifier::spinoff_prover]
    #[verifier::rlimit(50)]
    fn add_link(&mut self, parent_inode: INode, name: &Vec<u8>, inode: INode) -> (r: Result<
        (),
        Errno,
    >) {
        let found: bool = {
            let entries = self.get_entries(parent_inode)?;
            search_entry(entries, name).is_some()
        };
        if found {
            return Err(Errno::AlreadyExists);
        }
        if self.readonly {
            return Err(Errno::ReadOnlyFilesystem);
        }
        if inode >= self.nodes.len() as u64 {
            return Err(Errno::NotFound);
        }
        let entry_type = match &self.nodes[inode as usize] {
            None => {
                return Err(Errno::NotFound);
            },
            Some(n) => {
                let t = n.content.get_file_type();
                if t == crate::file::FileType::Directory {
                    return Err(Errno::NotPermitted);
                }
                if n.links == u16::MAX {
                    return Err(Errno::TooManyLinks);
                }
                t
            },
        };
        let entry = DirEntry { name: bytes_clone(name), inode, entry_type };
        let ghost before = old(self).entries(parent_inode)->Ok_0;
        self.push_entry(parent_inode as usize, entry);
        match &mut self.nodes[inode as usize] {
            Some(n) => {
                n.links = n.links + 1;
            },
            None => {},
        }
        proof {
            lemma_distinct_push(before, entry@);
            lemma_find_entry_push(before, entry@, name@);
            assert forall|q: INode, n: Seq<u8>|
                ((q != parent_inode || n != name@) && q
                    != inode) implies #[trigger] self.spec_get_inode(Some(q), n) == old(self).spec_get_inode(Some(q), n) by {
                if q == parent_inode {
                    lemma_find_entry_push(before, entry@, n);
                }
            }
        }
        Ok(())
    }

    #[verifier::spinoff_prover]
    #[verifier::rlimit(50)]
    fn read_node(&self, inode: INode, offset: u64, buff: &mut Vec<u8>) -> (r: Result<
        (u64, bool),
        Errno,
    >) {
        if inode >= self.nodes.len() as u64 {
            return Err(Errno::NotFound);
        }
        match &self.nodes[inode as usize] {
            None => Err(Errno::NotFound),
            Some(n) => match &n.content {
                FileContent::Regular => {
                    let len: usize = take_bytes(&n.data, offset, buff);
                    Ok((len as u64, offset >= n.data.len() as u64 || n.data.len() - offset as usize <= len))
                },
                _ => Err(Errno::InvalidArgument),
            },
        }
    }

    fn write_node(&mut self, inode: INode, offset: u64, buff: &Vec<u8>) -> (r: Result<u64, Errno>) {
        if inode >= self.nodes.len() as u64 {
            return Err(Errno::NotFound);
        }
        let regular: bool = match &self.nodes[inode as usize] {
            None => {
                return Err(Errno::NotFound);
            },
            Some(n) => match &n.content {
                FileContent::Regular => true,
                _ => false,
            },
        };
        if !regular {
            return Err(Errno::InvalidArgument);
        }
        if self.readonly {
            return Err(Errno::ReadOnlyFilesystem);
        }
        if offset > MAX_FILE_SIZE as u64 || buff.len() > MAX_FILE_SIZE - offset as usize {
            return Err(Errno::NoSpace);
        }
        match &mut self.nodes[inode as usize] {
            Some(n) => {
                put_bytes(&mut n.data, offset as usize, buff);
            },
            None => {},
        }
        proof {
            assert(buff@.take(buff@.len() as int) =~= buff@);
            assert forall|i: INode, n: Seq<u8>| #[trigger]
                self.spec_load_file(i, n) == old(self).spec_load_file(i, n) by {}
            assert forall|p: Option<INode>, n: Seq<u8>| #[trigger]
                self.spec_get_inode(p, n) == old(self).spec_get_inode(p, n) by {}
        }
        Ok(buff.len() as u64)
    }

    fn update_inode(&mut self, file: &File) -> (r: Result<(), Errno>) {
        let inode: INode = match file.get_location().get_inode() {
            Some(inode) => inode,
            None => {
                return Err(Errno::InvalidArgument);
            },
        };
        if inode >= self.nodes.len() as u64 {
            return Err(Errno::NotFound);
        }
        if self.nodes[inode as usize].is_none() {
            return Err(Errno::NotFound);
        }
        if self.readonly {
            return Err(Errno::ReadOnlyFilesystem);
        }
        self.set_attributes(inode as usize, file.get_uid(), file.get_gid(), file.get_mode());
        Ok(())
    }

    #[verifier::spinoff_prover]
    #[verifier::rlimit(50)]
    fn remove_file(&mut self, parent_inode: INode, name: &Vec<u8>) -> (r: Result<(), Errno>) {
        let (k, target): (usize, INode) = {
            let entries = self.get_entries(parent_inode)?;
            match search_entry(entries, name) {
                None => {
                    return Err(Errno::NotFound);
                },
                Some(k) => (k, entries[k].inode),
            }
        };
        if self.readonly {
            return Err(Errno::ReadOnlyFilesystem);
        }
        let occupied: bool = match self.get_entries(target) {
            Ok(inner) => inner.len() > 0,
            Err(_) => false,
        };
        if occupied {
            return Err(Errno::NotEmpty);
        }
        let ghost before = old(self).entries(parent_inode)->Ok_0;
        proof {
            lemma_find_entry(before, name@);
        }
        self.take_entry(parent_inode as usize, k);
        if target < self.nodes.len() as u64 {
            let last: bool = match &self.nodes[target as usize] {
                Some(n) => n.links <= 1,
                None => false,
            };
            if last {
                self.nodes.set(target as usize, None);
            } else {
                match &mut self.nodes[target as usize] {
                    Some(n) => {
                        n.links = n.links - 1;
                    },
                    None => {},
                }
            }
        }
        proof {
            lemma_find_entry_remove(before, k as int, name@);
            assert forall|q: INode, n: Seq<u8>|
                ((q != parent_inode || n != name@) && q
                    != target) implies #[trigger] self.spec_get_inode(Some(q), n) == old(self).spec_get_inode(Some(q), n) by {
                if q == parent_inode {
                    lemma_find_entry_remove(before, k as int, n);
                }
            }
        }
        Ok(())
    }
}

impl TmpFs {
    /// Sets the owner, the group and the permissions of the node `inode`.
    fn set_attributes(&mut self, inode: usize, uid: Uid, gid: Gid, mode: Mode)
        requires
            inode < old(self).nodes@.len(),
            old(self).nodes@[inode as int] is Some,
        ensures
            final(self).nodes@.len() == old(self).nodes@.len(),
            final(self).readonly == old(self).readonly,
            forall|i: int|
                0 <= i < old(self).nodes@.len() && i != inode ==> final(self).nodes@[i] == old(self).nodes@[i],
            final(self).nodes@[inode as int] is Some,
            final(self).nodes@[inode as int]->Some_0.uid == uid,
            final(self).nodes@[inode as int]->Some_0.gid == gid,
            final(self).nodes@[inode as int]->Some_0.mode == mode,
            final(self).nodes@[inode as int]->Some_0.links == old(self).nodes@[inode as int]->Some_0.links,
            final(self).nodes@[inode as int]->Some_0.content == old(self).nodes@[inode as int]->Some_0.content,
            final(self).nodes@[inode as int]->Some_0.data == old(self).nodes@[inode as int]->Some_0.data,
    {
        match &mut self.nodes[inode] {
            Some(node) => {
                node.uid = uid;
                node.gid = gid;
                node.mode = mode;
            },
            None => {},
        }
    }

    /// Adds an entry to the directory `dir`.
    fn push_entry(&mut self, dir: usize, entry: DirEntry)
        requires
            dir < old(self).nodes@.len(),
            old(self).entries(dir as INode) is Ok,
        ensures
            final(self).nodes@.len() == old(self).nodes@.len(),
            final(self).readonly == old(self).readonly,
            forall|i: int|
                0 <= i < old(self).nodes@.len() && i != dir ==> final(self).nodes@[i] == old(self).nodes@[i],
            final(self).nodes@[dir as int] is Some,
            final(self).nodes@[dir as int]->Some_0.uid == old(self).nodes@[dir as int]->Some_0.uid,
            final(self).nodes@[dir as int]->Some_0.gid == old(self).nodes@[dir as int]->Some_0.gid,
            final(self).nodes@[dir as int]->Some_0.mode == old(self).nodes@[dir as int]->Some_0.mode,
            final(self).nodes@[dir as int]->Some_0.links == old(self).nodes@[dir as int]->Some_0.links,
            final(self).nodes@[dir as int]->Some_0.data == old(self).nodes@[dir as int]->Some_0.data,
            final(self).entries(dir as INode) == Ok::<Seq<DirEntryView>, Errno>(
                old(self).entries(dir as INode)->Ok_0.push(entry@),
            ),
    {
        match &mut self.nodes[dir] {
            Some(node) => match &mut node.content {
                FileContent::Directory(entries) => {
                    let ghost before = entries_view(entries@);
                    entries.push(entry);
                    assert(entries_view(entries@) =~= before.push(entry@));
                },
                _ => {},
            },
            None => {},
        }
    }

    /// Takes the entry at `k` out of the directory `dir`.
    fn take_entry(&mut self, dir: usize, k: usize)
        requires
            dir < old(self).nodes@.len(),
            old(self).entries(dir as INode) is Ok,
            k < old(self).entries(dir as INode)->Ok_0.len(),
        ensures
            final(self).nodes@.len() == old(self).nodes@.len(),
            final(self).readonly == old(self).readonly,
            forall|i: int|
                0 <= i < old(self).nodes@.len() && i != dir ==> final(self).nodes@[i] == old(self).nodes@[i],
            final(self).nodes@[dir as int] is Some,
            final(self).nodes@[dir as int]->Some_0.uid == old(self).nodes@[dir as int]->Some_0.uid,
            final(self).nodes@[dir as int]->Some_0.gid == old(self).nodes@[dir as int]->Some_0.gid,
            final(self).nodes@[dir as int]->Some_0.mode == old(self).nodes@[dir as int]->Some_0.mode,
            final(self).nodes@[dir as int]->Some_0.links == old(self).nodes@[dir as int]->Some_0.links,
            final(self).nodes@[dir as int]->Some_0.data == old(self).nodes@[dir as int]->Some_0.data,
            final(self).entries(dir as INode) == Ok::<Seq<DirEntryView>, Errno>(
                old(self).entries(dir as INode)->Ok_0.remove(k as int),
            ),
    {
        match &mut self.nodes[dir] {
            Some(node) => match &mut node.content {
                FileContent::Directory(entries) => {
                    let ghost before = entries_view(entries@);
                    let _ = entries.remove(k);
                    assert(entries_view(entries@) =~= before.remove(k as int));
                },
                _ => {},
            },
            None => {},
        }
    }
}

} // verus!
