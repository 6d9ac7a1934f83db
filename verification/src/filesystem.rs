//! The interface between the virtual filesystem and the drivers of the
//! filesystems that it mounts.

use vstd::prelude::*;
use crate::errno::Errno;
use crate::file::file_result_view;
use crate::file::ContentView;
use crate::file::File;
use crate::file::FileContent;
use crate::file::FileLocation;
use crate::file::FileView;
use crate::file::Gid;
use crate::file::INode;
use crate::file::Mode;
use crate::file::Uid;

verus! {

/// A driver's account of its filesystem.
///
/// A driver answers for its own state. These functions name what each operation
/// gives on the state as it is: which entry a lookup finds and which error it
/// reports is the driver's matter.
pub trait FilesystemModel: Sized {
    /// The state of the driver is consistent.
    spec fn inv(&self) -> bool;

    /// Whether the filesystem refuses every change.
    spec fn spec_is_readonly(&self) -> bool;

    /// What asking for the root node gives.
    spec fn spec_root_inode(&self) -> Result<INode, Errno>;

    /// What looking `name` up in the directory `parent` gives; without a
    /// parent, in the root.
    spec fn spec_get_inode(&self, parent: Option<INode>, name: Seq<u8>) -> Result<INode, Errno>;

    /// What loading the node `inode` under the name `name` gives.
    spec fn spec_load_file(&self, inode: INode, name: Seq<u8>) -> Result<FileView, Errno>;

    /// What adding a file to the directory `parent` gives.
    spec fn spec_add_file(
        &self,
        parent: INode,
        name: Seq<u8>,
        uid: Uid,
        gid: Gid,
        mode: Mode,
        content: ContentView,
    ) -> Result<FileView, Errno>;

    /// What adding to the directory `parent` a link named `name` to the node
    /// `target` gives.
    spec fn spec_add_link(&self, parent: INode, name: Seq<u8>, target: INode) -> Result<(), Errno>;

    /// What removing the entry `name` of the directory `parent` gives.
    spec fn spec_remove_file(&self, parent: INode, name: Seq<u8>) -> Result<(), Errno>;

    /// What writing the owner, the group and the permissions of the file
    /// `file` back to its node gives.
    spec fn spec_update_inode(&self, file: FileView) -> Result<(), Errno>;

    /// The bytes that the node `inode` holds, where it is a regular file,
    /// or why they cannot be had.
    spec fn spec_data(&self, inode: INode) -> Result<Seq<u8>, Errno>;

    /// What writing the bytes `bytes` to the node `inode` at the offset
    /// `offset` gives: the number of bytes that are taken.
    spec fn spec_write(&self, inode: INode, offset: u64, bytes: Seq<u8>) -> Result<u64, Errno>;

    /// A node that holds bytes loads, under every name.
    proof fn lemma_data_loads(&self, inode: INode, name: Seq<u8>)
        requires
            self.inv(),
            self.spec_data(inode) is Ok,
        ensures
            self.spec_load_file(inode, name) is Ok,
    ;

    /// The size of a file fits in 64 bits.
    proof fn lemma_data_fits(&self, inode: INode)
        requires
            self.inv(),
        ensures
            self.spec_data(inode) matches Ok(data) ==> data.len() <= u64::MAX,
    ;

    /// A file that loads carries the name it was asked under and the number
    /// of its node, and records neither a directory nor a mountpoint yet.
    proof fn lemma_load_file(&self, inode: INode, name: Seq<u8>)
        requires
            self.inv(),
            self.spec_load_file(inode, name) is Ok,
        ensures
            self.spec_load_file(inode, name)->Ok_0.name == name,
            self.spec_load_file(inode, name)->Ok_0.parent_path == crate::path::PathView::root(),
            self.spec_load_file(inode, name)->Ok_0.location == (FileLocation::Filesystem {
                mountpoint_id: None,
                inode,
            }),
    ;

    /// A node is what it is under every name: loaded under two names, it
    /// gives the same file but for the name, or fails alike.
    proof fn lemma_load_any_name(&self, inode: INode, a: Seq<u8>, b: Seq<u8>)
        requires
            self.inv(),
        ensures
            match self.spec_load_file(inode, a) {
                Ok(f) => self.spec_load_file(inode, b) == Ok::<FileView, Errno>(
                    FileView { name: b, ..f },
                ),
                Err(e) => self.spec_load_file(inode, b) == Err::<FileView, Errno>(e),
            },
    ;

    /// A file that can be added is the file asked for; a name that a lookup
    /// finds cannot be added again.
    proof fn lemma_add_file(
        &self,
        parent: INode,
        name: Seq<u8>,
        uid: Uid,
        gid: Gid,
        mode: Mode,
        content: ContentView,
    )
        requires
            self.inv(),
        ensures
            self.spec_get_inode(Some(parent), name) is Ok ==> self.spec_add_file(
                parent,
                name,
                uid,
                gid,
                mode,
                content,
            ) == Err::<FileView, Errno>(Errno::AlreadyExists),
            self.spec_add_file(parent, name, uid, gid, mode, content) matches Ok(f) ==> {
                &&& f.name == name
                &&& f.uid == uid
                &&& f.gid == gid
                &&& f.mode == mode
                &&& f.file_type() == content.file_type()
                &&& content is Link ==> f.content == content
                &&& f.location is Filesystem
                &&& f.location->mountpoint_id is None
            },
    ;
}

/// What a driver has to offer for its filesystem to be mounted.
///
/// The contracts bind each operation to the driver's account of it, and say
/// what an operation that changes the filesystem leaves as it was.
pub trait Filesystem: FilesystemModel {
    /// Tells whether the filesystem refuses every change.
    fn is_readonly(&self) -> (b: bool)
        requires
            self.inv(),
        ensures
            b == self.spec_is_readonly(),
    ;

    /// Returns the root node of the filesystem.
    fn get_root_inode(&self) -> (r: Result<INode, Errno>)
        requires
            self.inv(),
        ensures
            r == self.spec_root_inode(),
    ;

    /// Returns the node that the entry `name` of the directory `parent` leads
    /// to; without a parent, the entry of the root.
    fn get_inode(&self, parent: Option<INode>, name: &Vec<u8>) -> (r: Result<INode, Errno>)
        requires
            self.inv(),
        ensures
            r == self.spec_get_inode(parent, name@),
    ;

    /// Loads the node `inode` as a file named `name`.
    fn load_file(&self, inode: INode, name: Vec<u8>) -> (r: Result<File, Errno>)
        requires
            self.inv(),
        ensures
            file_result_view(r) == self.spec_load_file(inode, name@),
    ;

    /// Adds a file to the directory `parent_inode`, and returns it.
    fn add_file(
        &mut self,
        parent_inode: INode,
        name: Vec<u8>,
        uid: Uid,
        gid: Gid,
        mode: Mode,
        content: FileContent,
    ) -> (r: Result<File, Errno>)
        requires
            old(self).inv(),
        ensures
            final(self).inv(),
            file_result_view(r) == old(self).spec_add_file(
                parent_inode,
                name@,
                uid,
                gid,
                mode,
                content@,
            ),
            r is Err ==> same_files(final(self), old(self)),
            r matches Ok(f) ==> entry_added(old(self), final(self), parent_inode, name@, f@),
            data_kept(
                old(self),
                final(self),
                match r {
                    Ok(f) => Some(f@.location->inode),
                    Err(_) => None,
                },
            ),
            r matches Ok(f) ==> f@.content is Regular ==> final(self).spec_data(f@.location->inode)
                == Ok::<Seq<u8>, Errno>(Seq::empty()),
    ;

    /// Adds to the directory `parent_inode` a link named `name` to the node `inode`.
    fn add_link(&mut self, parent_inode: INode, name: &Vec<u8>, inode: INode) -> (r: Result<
        (),
        Errno,
    >)
        requires
            old(self).inv(),
        ensures
            final(self).inv(),
            r == old(self).spec_add_link(parent_inode, name@, inode),
            r is Err ==> same_files(final(self), old(self)),
            r is Ok ==> entry_linked(old(self), final(self), parent_inode, name@, inode),
            data_kept(old(self), final(self), None),
    ;

    /// Removes the entry `name` of the directory `parent_inode`, and the node
    /// with it once no entry leads to it.
    fn remove_file(&mut self, parent_inode: INode, name: &Vec<u8>) -> (r: Result<(), Errno>)
        requires
            old(self).inv(),
        ensures
            final(self).inv(),
            r == old(self).spec_remove_file(parent_inode, name@),
            r is Err ==> same_files(final(self), old(self)),
            r is Ok ==> entry_removed(old(self), final(self), parent_inode, name@),
            data_kept(
                old(self),
                final(self),
                match old(self).spec_get_inode(Some(parent_inode), name@) {
                    Ok(i) => Some(i),
                    Err(_) => None,
                },
            ),
    ;

    /// Writes the owner, the group and the permissions of `file` back to its node.
    fn update_inode(&mut self, file: &File) -> (r: Result<(), Errno>)
        requires
            old(self).inv(),
        ensures
            final(self).inv(),
            r == old(self).spec_update_inode(file@),
            r is Err ==> same_files(final(self), old(self)),
            r is Ok ==> inode_updated(old(self), final(self), file@),
            data_kept(old(self), final(self), None),
    ;

    /// Reads the bytes of the node `inode` from the offset `offset` on into
    /// `buff`, as far as there are bytes and `buff` has room. Returns the
    /// number of bytes read, and whether the end of the file was reached.
    fn read_node(&self, inode: INode, offset: u64, buff: &mut Vec<u8>) -> (r: Result<
        (u64, bool),
        Errno,
    >)
        requires
            self.inv(),
        ensures
            match self.spec_data(inode) {
                Ok(data) => r matches Ok((len, eof)) && len == chunk_len(
                    data.len(),
                    offset,
                    old(buff)@.len(),
                ) && final(buff)@ == chunk(data, offset, old(buff)@.len()) + old(buff)@.skip(
                    len as int,
                ) && eof == (offset + len >= data.len()),
                Err(e) => r == Err::<(u64, bool), Errno>(e) && final(buff)@ == old(buff)@,
            },
    ;

    /// Writes the bytes of `buff` to the node `inode` at the offset `offset`,
    /// and returns the number of bytes written. A file that ends before the
    /// offset is filled up with zeros.
    fn write_node(&mut self, inode: INode, offset: u64, buff: &Vec<u8>) -> (r: Result<u64, Errno>)
        requires
            old(self).inv(),
        ensures
            final(self).inv(),
            r == old(self).spec_write(inode, offset, buff@),
            same_files(final(self), old(self)),
            data_kept(old(self), final(self), Some(inode)),
            match r {
                Ok(n) => n <= buff@.len() && old(self).spec_data(inode) is Ok && final(self).spec_data(inode) == Ok::<Seq<u8>, Errno>(
                    written(old(self).spec_data(inode)->Ok_0, offset as int, buff@.take(n as int)),
                ),
                Err(_) => final(self).spec_data(inode) == old(self).spec_data(inode),
            },
    ;
}

/// The number of bytes that a read at the offset `offset` of a file of
/// `size` bytes puts in a buffer of `room` bytes.
pub open spec fn chunk_len(size: nat, offset: u64, room: nat) -> nat {
    if offset >= size {
        0
    } else if size - offset <= room {
        (size - offset) as nat
    } else {
        room
    }
}

/// The bytes that a read at the offset `offset` of a file that holds `data`
/// puts in a buffer of `room` bytes.
pub open spec fn chunk(data: Seq<u8>, offset: u64, room: nat) -> Seq<u8> {
    if offset >= data.len() {
        Seq::empty()
    } else {
        data.subrange(offset as int, offset + chunk_len(data.len(), offset, room))
    }
}

/// The bytes `data` of a file after `bytes` were written at the offset
/// `offset`: the bytes before and after stay, and a gap before the offset
/// holds zeros.
pub open spec fn written(data: Seq<u8>, offset: int, bytes: Seq<u8>) -> Seq<u8> {
    Seq::new(
        if data.len() >= offset + bytes.len() {
            data.len()
        } else {
            (offset + bytes.len()) as nat
        },
        |i: int|
            if offset <= i < offset + bytes.len() {
                bytes[i - offset]
            } else if i < data.len() {
                data[i]
            } else {
                0u8
            },
    )
}

/// Tells whether every node but `touched` holds in `post` the bytes that it
/// held in `pre`.
pub open spec fn data_kept<F: FilesystemModel>(pre: &F, post: &F, touched: Option<INode>) -> bool {
    forall|i: INode| Some(i) != touched ==> #[trigger] post.spec_data(i) == pre.spec_data(i)
}

/// Tells whether two states of a driver answer every question about the
/// entries and the attributes of the files alike.
pub open spec fn same_files<F: FilesystemModel>(a: &F, b: &F) -> bool {
    &&& a.spec_is_readonly() == b.spec_is_readonly()
    &&& a.spec_root_inode() == b.spec_root_inode()
    &&& forall|p: Option<INode>, n: Seq<u8>| #[trigger]
        a.spec_get_inode(p, n) == b.spec_get_inode(p, n)
    &&& forall|i: INode, n: Seq<u8>| #[trigger] a.spec_load_file(i, n) == b.spec_load_file(i, n)
    &&& forall|p: INode, n: Seq<u8>, uid: Uid, gid: Gid, mode: Mode, c: ContentView| #[trigger]
        a.spec_add_file(p, n, uid, gid, mode, c) == b.spec_add_file(p, n, uid, gid, mode, c)
    &&& forall|p: INode, n: Seq<u8>, t: INode| #[trigger]
        a.spec_add_link(p, n, t) == b.spec_add_link(p, n, t)
    &&& forall|p: INode, n: Seq<u8>| #[trigger]
        a.spec_remove_file(p, n) == b.spec_remove_file(p, n)
    &&& forall|f: FileView| #[trigger] a.spec_update_inode(f) == b.spec_update_inode(f)
}

/// What holds once the owner, the group and the permissions of `file` have
/// been written back: the file has a node, which loads with them where it
/// loaded before, and nothing else has changed.
pub open spec fn inode_updated<F: FilesystemModel>(pre: &F, post: &F, file: FileView) -> bool {
    &&& file.location is Filesystem
    &&& post.spec_is_readonly() == pre.spec_is_readonly()
    &&& post.spec_root_inode() == pre.spec_root_inode()
    &&& forall|p: Option<INode>, n: Seq<u8>| #[trigger]
        post.spec_get_inode(p, n) == pre.spec_get_inode(p, n)
    &&& forall|i: INode, n: Seq<u8>|
        i != file.location->inode ==> #[trigger] post.spec_load_file(i, n) == pre.spec_load_file(
            i,
            n,
        )
    &&& forall|n: Seq<u8>| #[trigger]
        post.spec_load_file(file.location->inode, n) == match pre.spec_load_file(
            file.location->inode,
            n,
        ) {
            Ok(f) => Ok(FileView { uid: file.uid, gid: file.gid, mode: file.mode, ..f }),
            Err(e) => Err(e),
        }
}

/// Tells whether what loading a directory gives after an entry of it was
/// changed is what it gave before, but for what the directory holds: a
/// directory that loaded loads as a directory with the attributes that it had,
/// and one that did not load fails as it did.
pub open spec fn directory_kept(
    before: Result<FileView, Errno>,
    after: Result<FileView, Errno>,
) -> bool {
    match before {
        Ok(b) => after matches Ok(a) && a == (FileView { content: a.content, ..b }) && a.file_type()
            == b.file_type() && (b.content is Directory || a == b),
        Err(e) => after == Err::<FileView, Errno>(e),
    }
}

/// Tells whether `post` differs from `pre` in the entry `name` of the directory
/// `parent` and in the node `touched` at most: every other lookup in a
/// directory other than `touched` gives what it gave, every node but `parent`
/// and `touched` loads as it did, the directory `parent` loads as it did but
/// for what it holds, and the root and the read-only flag are the same.
pub open spec fn entry_changed<F: FilesystemModel>(
    pre: &F,
    post: &F,
    parent: INode,
    name: Seq<u8>,
    touched: Option<INode>,
) -> bool {
    &&& post.spec_is_readonly() == pre.spec_is_readonly()
    &&& post.spec_root_inode() == pre.spec_root_inode()
    &&& forall|q: INode, n: Seq<u8>|
        ((q != parent || n != name) && Some(q) != touched) ==> #[trigger] post.spec_get_inode(
            Some(q),
            n,
        ) == pre.spec_get_inode(Some(q), n)
    &&& forall|i: INode, n: Seq<u8>|
        (i != parent && Some(i) != touched) ==> #[trigger] post.spec_load_file(i, n)
            == pre.spec_load_file(i, n)
    &&& Some(parent) != touched ==> forall|n: Seq<u8>|
        directory_kept(pre.spec_load_file(parent, n), #[trigger] post.spec_load_file(parent, n))
}

/// What holds once the file `f` has been added as the entry `name` of the
/// directory `parent`: its node is new, a lookup finds it, it loads as it was
/// returned, and nothing else has changed.
pub open spec fn entry_added<F: FilesystemModel>(
    pre: &F,
    post: &F,
    parent: INode,
    name: Seq<u8>,
    f: FileView,
) -> bool {
    &&& f.location is Filesystem
    &&& f.location->inode != parent
    &&& forall|n: Seq<u8>| (#[trigger] pre.spec_load_file(f.location->inode, n)) is Err
    &&& post.spec_get_inode(Some(parent), name) == Ok::<INode, Errno>(f.location->inode)
    &&& post.spec_load_file(f.location->inode, name) == Ok::<FileView, Errno>(f)
    &&& entry_changed(pre, post, parent, name, Some(f.location->inode))
}

/// What holds once the entry `name` of the directory `parent` leads to the
/// node `target`: a lookup finds it, and nothing else has changed.
pub open spec fn entry_linked<F: FilesystemModel>(
    pre: &F,
    post: &F,
    parent: INode,
    name: Seq<u8>,
    target: INode,
) -> bool {
    &&& post.spec_get_inode(Some(parent), name) == Ok::<INode, Errno>(target)
    &&& entry_changed(pre, post, parent, name, Some(target))
}

/// What holds once the entry `name` of the directory `parent` has been
/// removed: a lookup no longer finds it, and nothing else has changed.
pub open spec fn entry_removed<F: FilesystemModel>(
    pre: &F,
    post: &F,
    parent: INode,
    name: Seq<u8>,
) -> bool {
    &&& post.spec_get_inode(Some(parent), name) == Err::<INode, Errno>(Errno::NotFound)
    &&& entry_changed(
        pre,
        post,
        parent,
        name,
        match pre.spec_get_inode(Some(parent), name) {
            Ok(i) => Some(i),
            Err(_) => None,
        },
    )
}

} // verus!
