//! The virtual filesystem gathers every mounted filesystem into one namespace.
//! Files are reached through it and never through a driver directly.

use vstd::prelude::*;
use crate::bytes::bytes_clone;
use crate::errno::Errno;
use crate::file::file_result_view;
use crate::file::ContentView;
use crate::file::File;
use crate::file::FileContent;
use crate::file::FileLocation;
use crate::file::FileType;
use crate::file::FileView;
use crate::file::Gid;
use crate::file::INode;
use crate::file::Mode;
use crate::file::Uid;
use crate::file::S_ISGID;
use crate::filesystem::chunk;
use crate::filesystem::chunk_len;
use crate::filesystem::data_kept;
use crate::filesystem::entry_added;
use crate::filesystem::written;
use crate::filesystem::entry_linked;
use crate::filesystem::entry_removed;
use crate::filesystem::inode_updated;
use crate::filesystem::same_files;
use crate::filesystem::Filesystem;
use crate::mountpoint::deepest_mount;
use crate::mountpoint::find_mount;
use crate::mountpoint::is_deepest;
use crate::mountpoint::lemma_deepest_unique;
use crate::mountpoint::mount_covers;
use crate::mountpoint::is_prefix;
use crate::mountpoint::mount_with_id;
use crate::mountpoint::mounts_wf;
use crate::mountpoint::MountPoint;
use crate::path::parse_path;
use crate::path::PathView;
use crate::path::Path;
use crate::pipe::spec_min;
use crate::pipe::PipeBuffer;
use crate::pipe::PIPE_CAPACITY;
use crate::pipe::Socket;
use crate::pool::insert_spec;
use crate::pool::FilePool;
use crate::pool::PoolSlotView;
use crate::pool::FILES_POOL_SIZE;
use crate::registry::Named;
use crate::registry::Registry;
use crate::resolve::resolve;
use crate::resolve::resolve_spec;
use crate::resolve::step_spec;
use crate::resolve::lemma_walk_after_add;
use crate::resolve::lemma_walk_after_remove;
use crate::resolve::lemma_walk_extended;
use crate::resolve::lemma_walk_found;
use crate::resolve::walk_spec;
use crate::resolve::WalkView;
use crate::resolve::StepView;
use crate::resolve::SYMLOOP_MAX;

verus! {

/// The mountpoint that the location `loc` names, if its identifier is known
/// and a mountpoint has it.
pub open spec fn mount_of<F: Filesystem>(mounts: Seq<MountPoint<F>>, loc: FileLocation) -> Option<
    int,
> {
    match loc.spec_mountpoint_id() {
        Some(id) => mount_with_id(mounts, id),
        None => None,
    }
}

/// The file named `name` in the directory `parent`, for the caller `uid`, `gid`.
///
/// The parent has to be a directory that the caller may traverse, on a
/// mountpoint that exists. With `follow`, a symbolic link is replaced by the
/// path that it stands for, taken from the parent, and that path is resolved
/// as after one link.
pub open spec fn from_parent_spec<F: Filesystem>(
    mounts: Seq<MountPoint<F>>,
    parent: FileView,
    name: Seq<u8>,
    uid: Uid,
    gid: Gid,
    follow: bool,
) -> Result<FileView, Errno> {
    if parent.file_type() != FileType::Directory {
        Err(Errno::NotADirectory)
    } else if !parent.can_execute(uid, gid) {
        Err(Errno::PermissionDenied)
    } else {
        match mount_of(mounts, parent.location) {
            None => Err(Errno::NotFound),
            Some(m) => match mounts[m].fs.spec_get_inode(Some(parent.location->inode), name) {
                Err(e) => Err(e),
                Ok(inode) => match mounts[m].fs.spec_load_file(inode, name) {
                    Err(e) => Err(e),
                    Ok(f) => if follow && f.content is Link {
                        resolve_spec(
                            mounts,
                            parent.path().concat(parse_path(f.content->Link_0)).parts,
                            uid,
                            gid,
                            follow,
                            1,
                        )
                    } else {
                        Ok(f.placed(parent.path(), mounts[m].id))
                    },
                },
            },
        }
    }
}

/// The group that a file created in the directory `parent` gets: the
/// group of the directory where its set-group-id bit is set, else the group
/// that the caller gave.
pub open spec fn effective_gid(parent: FileView, gid: Gid) -> Gid {
    if parent.mode & S_ISGID != 0 {
        parent.gid
    } else {
        gid
    }
}

/// What creating the file `name` in the directory `parent` gives.
///
/// A name that is found in the directory exists already. Else the parent has
/// to be a directory that the caller may write, on a mountpoint that exists,
/// and neither the mountpoint nor its filesystem may be read-only. The driver
/// then decides; what it adds is handed out in the parent's path, on the
/// parent's mountpoint.
pub open spec fn create_spec<F: Filesystem>(
    mounts: Seq<MountPoint<F>>,
    parent: FileView,
    name: Seq<u8>,
    uid: Uid,
    gid: Gid,
    mode: Mode,
    content: ContentView,
) -> Result<FileView, Errno> {
    if from_parent_spec(mounts, parent, name, uid, gid, false) is Ok {
        Err(Errno::AlreadyExists)
    } else if parent.file_type() != FileType::Directory {
        Err(Errno::NotADirectory)
    } else if !parent.can_write(uid, gid) {
        Err(Errno::PermissionDenied)
    } else {
        match mount_of(mounts, parent.location) {
            None => Err(Errno::NotFound),
            Some(m) => if mounts[m].readonly || mounts[m].fs.spec_is_readonly() {
                Err(Errno::ReadOnlyFilesystem)
            } else {
                match mounts[m].fs.spec_add_file(
                    parent.location->inode,
                    name,
                    uid,
                    effective_gid(parent, gid),
                    mode,
                    content,
                ) {
                    Err(e) => Err(e),
                    Ok(f) => Ok(f.placed(parent.path(), mounts[m].id)),
                }
            },
        }
    }
}

/// What adding to the directory `parent` a hard link named `name` to the file
/// `target` gives.
///
/// The parent has to be a directory that the caller may write, on the
/// mountpoint of the target, which has to exist, and neither the mountpoint
/// nor its filesystem may be read-only. The driver then decides.
pub open spec fn link_spec<F: Filesystem>(
    mounts: Seq<MountPoint<F>>,
    target: FileView,
    parent: FileView,
    name: Seq<u8>,
    uid: Uid,
    gid: Gid,
) -> Result<(), Errno> {
    if parent.file_type() != FileType::Directory {
        Err(Errno::NotADirectory)
    } else if !parent.can_write(uid, gid) {
        Err(Errno::PermissionDenied)
    } else if target.location.spec_mountpoint_id() != parent.location.spec_mountpoint_id() {
        Err(Errno::CrossDevice)
    } else {
        match mount_of(mounts, target.location) {
            None => Err(Errno::NotFound),
            Some(m) => if mounts[m].readonly || mounts[m].fs.spec_is_readonly() {
                Err(Errno::ReadOnlyFilesystem)
            } else {
                mounts[m].fs.spec_add_link(parent.location->inode, name, target.location->inode)
            },
        }
    }
}

/// What stands in the way of removing the file `file` before its driver is
/// asked, or else the mountpoint of the file and the node of its directory.
///
/// The file must not be in use. Its directory is resolved from the path
/// recorded in the file. The caller has to have write access to the file and
/// to the directory, the mountpoint of the file has to exist, and neither it
/// nor its filesystem may be read-only.
pub open spec fn remove_checks<F: Filesystem>(
    mounts: Seq<MountPoint<F>>,
    file: FileView,
    uid: Uid,
    gid: Gid,
) -> Result<(int, INode), Errno> {
    if file.busy {
        Err(Errno::Busy)
    } else {
        match resolve_spec(mounts, file.parent_path.parts, uid, gid, true, 0) {
            Err(e) => Err(e),
            Ok(parent) => if !file.can_write(uid, gid) || !parent.can_write(uid, gid) {
                Err(Errno::PermissionDenied)
            } else {
                match mount_of(mounts, file.location) {
                    None => Err(Errno::NotFound),
                    Some(m) => if mounts[m].readonly || mounts[m].fs.spec_is_readonly() {
                        Err(Errno::ReadOnlyFilesystem)
                    } else {
                        match parent.location.spec_inode() {
                            None => Err(Errno::NotFound),
                            Some(inode) => Ok((m, inode)),
                        }
                    },
                }
            },
        }
    }
}

/// What removing the file `file` gives: where nothing stands in the way, what
/// the driver gives for removing the entry of the file's name from its directory.
pub open spec fn remove_spec<F: Filesystem>(
    mounts: Seq<MountPoint<F>>,
    file: FileView,
    uid: Uid,
    gid: Gid,
) -> Result<(), Errno> {
    match remove_checks(mounts, file, uid, gid) {
        Err(e) => Err(e),
        Ok((m, parent_inode)) => mounts[m].fs.spec_remove_file(parent_inode, file.name),
    }
}

/// What writing the attributes of the file `file` back to its filesystem
/// gives: the mountpoint of the file has to exist and must not be read-only;
/// the driver then decides.
pub open spec fn sync_spec<F: Filesystem>(mounts: Seq<MountPoint<F>>, file: FileView) -> Result<
    (),
    Errno,
> {
    match mount_of(mounts, file.location) {
        None => Err(Errno::NotFound),
        Some(m) => if mounts[m].readonly {
            Err(Errno::ReadOnlyFilesystem)
        } else {
            mounts[m].fs.spec_update_inode(file)
        },
    }
}

/// A driver answers every question as it does itself.
pub proof fn lemma_same_files_refl<F: Filesystem>(fs: &F)
    ensures
        same_files(fs, fs),
{
}

/// Tells whether two mount tables differ in the filesystem of the mountpoint
/// `m` at most.
pub open spec fn mounts_changed_at<F: Filesystem>(
    pre: Seq<MountPoint<F>>,
    post: Seq<MountPoint<F>>,
    m: int,
) -> bool {
    &&& 0 <= m < pre.len()
    &&& pre.len() == post.len()
    &&& forall|i: int| 0 <= i < pre.len() && i != m ==> #[trigger] post[i] == pre[i]
    &&& post[m].id == pre[m].id
    &&& post[m].path == pre[m].path
    &&& post[m].readonly == pre[m].readonly
}

/// Tells whether `post` is the mount table `pre` after the file `name` was
/// created in the directory `parent`: the tables differ in the filesystem of
/// the directory only, in which the driver has added the entry.
pub open spec fn created<F: Filesystem>(
    pre: Seq<MountPoint<F>>,
    post: Seq<MountPoint<F>>,
    parent: FileView,
    name: Seq<u8>,
    uid: Uid,
    gid: Gid,
    mode: Mode,
    content: ContentView,
) -> bool {
    let m = mount_of(pre, parent.location)->Some_0;
    let made = pre[m].fs.spec_add_file(
        parent.location->inode,
        name,
        uid,
        effective_gid(parent, gid),
        mode,
        content,
    )->Ok_0;
    &&& mount_of(pre, parent.location) is Some
    &&& mounts_changed_at(pre, post, m)
    &&& entry_added(&pre[m].fs, &post[m].fs, parent.location->inode, name, made)
    &&& data_kept(&pre[m].fs, &post[m].fs, Some(made.location->inode))
    &&& made.content is Regular ==> post[m].fs.spec_data(made.location->inode) == Ok::<
        Seq<u8>,
        Errno,
    >(Seq::empty())
}

/// The bytes of the file at the location `loc`, where it is a regular file
/// of a mounted filesystem, or why they cannot be had.
pub open spec fn data_of<F: Filesystem>(mounts: Seq<MountPoint<F>>, loc: FileLocation) -> Result<
    Seq<u8>,
    Errno,
> {
    match mount_of(mounts, loc) {
        Some(m) => mounts[m].fs.spec_data(loc->inode),
        None => Err(Errno::NotFound),
    }
}

/// What writing the bytes `bytes` at the offset `offset` of the file at the
/// location `loc` gives: the number of bytes that the driver takes.
pub open spec fn write_spec<F: Filesystem>(
    mounts: Seq<MountPoint<F>>,
    loc: FileLocation,
    offset: u64,
    bytes: Seq<u8>,
) -> Result<u64, Errno> {
    match mount_of(mounts, loc) {
        None => Err(Errno::NotFound),
        Some(m) => if mounts[m].readonly {
            Err(Errno::ReadOnlyFilesystem)
        } else {
            mounts[m].fs.spec_write(loc->inode, offset, bytes)
        },
    }
}

/// Of two calls that create the same name in the same directory, the second
/// finds that the file exists already.
///
/// Once a caller has created the file `name` in the directory `parent`, the
/// same caller creating a file of that name in that directory again gets
/// `AlreadyExists`, whatever permissions and content it asks for.
#[verifier::spinoff_prover]
#[verifier::rlimit(50)]
pub proof fn lemma_create_again<F: Filesystem>(
    pre: Seq<MountPoint<F>>,
    post: Seq<MountPoint<F>>,
    parent: FileView,
    name: Seq<u8>,
    uid: Uid,
    gid: Gid,
    mode: Mode,
    content: ContentView,
    mode_again: Mode,
    content_again: ContentView,
)
    requires
        mounts_wf(pre),
        mounts_wf(post),
        create_spec(pre, parent, name, uid, gid, mode, content) is Ok,
        created(pre, post, parent, name, uid, gid, mode, content),
    ensures
        create_spec(
            post,
            parent.add_entry(create_spec(pre, parent, name, uid, gid, mode, content)->Ok_0.dir_entry()),
            name,
            uid,
            gid,
            mode_again,
            content_again,
        ) == Err::<FileView, Errno>(Errno::AlreadyExists),
{
    let m = mount_of(pre, parent.location)->Some_0;
    let f = create_spec(pre, parent, name, uid, gid, mode, content)->Ok_0;
    let after = parent.add_entry(f.dir_entry());
    lemma_changed_wf(pre, post, m);
    assert(mount_of(post, after.location) == Some(m));
    post[m].fs.lemma_add_file(
        after.location->inode,
        name,
        uid,
        effective_gid(after, gid),
        mode_again,
        content_again,
    );
}

/// A file that was created is found in its directory.
///
/// Once the file `name` has been created in the directory `parent`, a caller
/// who may traverse the directory finds under that name the file that the
/// creation returned; a symbolic link is found as such if it is not followed.
#[verifier::spinoff_prover]
#[verifier::rlimit(50)]
pub proof fn lemma_created_is_found<F: Filesystem>(
    pre: Seq<MountPoint<F>>,
    post: Seq<MountPoint<F>>,
    parent: FileView,
    name: Seq<u8>,
    uid: Uid,
    gid: Gid,
    mode: Mode,
    content: ContentView,
    reader_uid: Uid,
    reader_gid: Gid,
)
    requires
        mounts_wf(pre),
        mounts_wf(post),
        create_spec(pre, parent, name, uid, gid, mode, content) is Ok,
        created(pre, post, parent, name, uid, gid, mode, content),
        parent.can_execute(reader_uid, reader_gid),
    ensures
        from_parent_spec(
            post,
            parent.add_entry(create_spec(pre, parent, name, uid, gid, mode, content)->Ok_0.dir_entry()),
            name,
            reader_uid,
            reader_gid,
            false,
        ) == create_spec(pre, parent, name, uid, gid, mode, content),
{
    let m = mount_of(pre, parent.location)->Some_0;
    let f = create_spec(pre, parent, name, uid, gid, mode, content)->Ok_0;
    let after = parent.add_entry(f.dir_entry());
    lemma_changed_wf(pre, post, m);
    assert(mount_of(post, after.location) == Some(m));
    assert(after.path() == parent.path());
}

/// A file that was removed is no longer found in its directory.
///
/// Once the file `file` has been removed, a caller who may traverse its
/// directory finds nothing there under the name of the file. This holds where
/// the file and its directory are on one mountpoint.
#[verifier::spinoff_prover]
#[verifier::rlimit(50)]
pub proof fn lemma_removed_is_not_found<F: Filesystem>(
    pre: &VFS<F>,
    post: &VFS<F>,
    file: FileView,
    uid: Uid,
    gid: Gid,
    reader_uid: Uid,
    reader_gid: Gid,
)
    requires
        pre.wf(),
        post.wf(),
        remove_spec(pre.mounts@, file, uid, gid) is Ok,
        VFS::removed(pre, post, file, uid, gid, remove_spec(pre.mounts@, file, uid, gid)),
        ({
            let parent = resolve_spec(pre.mounts@, file.parent_path.parts, uid, gid, true, 0)->Ok_0;
            &&& parent.file_type() == FileType::Directory
            &&& parent.can_execute(reader_uid, reader_gid)
            &&& mount_of(pre.mounts@, parent.location) == mount_of(pre.mounts@, file.location)
        }),
    ensures
        from_parent_spec(
            post.mounts@,
            resolve_spec(pre.mounts@, file.parent_path.parts, uid, gid, true, 0)->Ok_0,
            file.name,
            reader_uid,
            reader_gid,
            true,
        ) == Err::<FileView, Errno>(Errno::NotFound),
{
    let parent = resolve_spec(pre.mounts@, file.parent_path.parts, uid, gid, true, 0)->Ok_0;
    let m = mount_of(pre.mounts@, file.location)->Some_0;
    lemma_changed_wf(pre.mounts@, post.mounts@, m);
    assert(mount_of(post.mounts@, parent.location) == Some(m));
}

/// A file that was removed no longer resolves by its path.
///
/// Where the path recorded in a file for its directory names that directory
/// without a symbolic link on its way, and the file was removed, the path with
/// the name of the file after it resolves to nothing for the caller who
/// removed it, if that caller may traverse the directory: the file is not
/// found. This holds where the entry of the file led to no directory, the file
/// is on the mountpoint that covers its directory, and no other mountpoint
/// lies on the way to the path of the file.
#[verifier::spinoff_prover]
#[verifier::rlimit(100)]
pub proof fn lemma_removed_resolves<F: Filesystem>(
    pre: &VFS<F>,
    post: &VFS<F>,
    file: FileView,
    uid: Uid,
    gid: Gid,
    follow: bool,
)
    requires
        pre.wf(),
        post.wf(),
        remove_spec(pre.mounts@, file, uid, gid) is Ok,
        VFS::removed(pre, post, file, uid, gid, remove_spec(pre.mounts@, file, uid, gid)),
        step_spec(pre.mounts@, file.parent_path.parts, uid, gid, true) matches StepView::Done(
            Ok(parent),
        ) && parent.file_type() == FileType::Directory && parent.can_execute(uid, gid) && ({
            let fs = pre.mounts@[mount_of(pre.mounts@, file.location)->Some_0].fs;
            fs.spec_get_inode(Some(parent.location->inode), file.name) matches Ok(t) ==> !(
            fs.spec_load_file(t, file.name) matches Ok(tf) && tf.content is Directory)
        }),
        mount_of(pre.mounts@, file.location) == deepest_mount(
            pre.mounts@,
            file.parent_path.parts,
        ),
        deepest_mount(pre.mounts@, file.parent_path.parts.push(file.name)) == deepest_mount(
            pre.mounts@,
            file.parent_path.parts,
        ),
    ensures
        resolve_spec(post.mounts@, file.parent_path.parts.push(file.name), uid, gid, follow, 0)
            == Err::<FileView, Errno>(Errno::NotFound),
{
    let parts = file.parent_path.parts;
    let name = file.name;
    let longer = parts.push(name);
    let parent = step_spec(pre.mounts@, parts, uid, gid, true)->Done_0->Ok_0;
    let m = deepest_mount(pre.mounts@, parts)->Some_0;
    assert(is_deepest(pre.mounts@, parts, m));
    let mount = pre.mounts@[m];
    let skip = mount.path@.parts.len() as int;
    let inner = parts.skip(skip);
    let root = mount.fs.spec_root_inode()->Ok_0;
    let top = mount.fs.spec_load_file(root, Seq::empty())->Ok_0;
    mount.fs.lemma_load_file(root, Seq::empty());
    if inner.len() > 0 {
        lemma_walk_found(&mount.fs, inner, 0, root, top, uid, gid, true);
    }
    let pinode = parent.location->inode;
    assert(remove_checks(pre.mounts@, file, uid, gid) == Ok::<(int, INode), Errno>((m, pinode)));
    lemma_changed_wf(pre.mounts@, post.mounts@, m);
    lemma_same_paths_deepest(pre.mounts@, post.mounts@, longer);
    assert(post.mounts@[m].path == pre.mounts@[m].path);
    assert(longer.skip(skip) =~= inner.push(name));
    let fs_pre = &pre.mounts@[m].fs;
    let fs_post = &post.mounts@[m].fs;
    let lookup = fs_pre.spec_get_inode(Some(pinode), name);
    let reached = if inner.len() == 0 {
        top
    } else {
        walk_spec(fs_pre, inner, 0, root, top, uid, gid, true)->Found_0
    };
    assert(reached.location->inode == pinode);
    // The directory is a directory under every name, and so is not the
    // node that the entry led to.
    lemma_walk_extended(fs_pre, inner, name, 0, root, top, uid, gid, true);
    fs_pre.lemma_load_any_name(pinode, reached.name, name);
    assert(lookup != Ok::<INode, Errno>(pinode));
    lemma_walk_after_remove(fs_pre, fs_post, pinode, name, inner, 0, root, top, uid, gid, true);
    let top_post = fs_post.spec_load_file(root, Seq::empty())->Ok_0;
    fs_post.lemma_load_file(root, Seq::empty());
    assert(crate::filesystem::directory_kept(
        fs_pre.spec_load_file(pinode, reached.name),
        fs_post.spec_load_file(pinode, reached.name),
    ));
    lemma_walk_extended(fs_post, inner, name, 0, root, top_post, uid, gid, follow);
    assert(inner.push(name)[inner.len() as int] == name);
}

/// Tells whether two mount tables have the same mountpoints, with
/// filesystems that answer every question alike.
pub open spec fn mounts_agree<F: Filesystem>(
    pre: Seq<MountPoint<F>>,
    post: Seq<MountPoint<F>>,
) -> bool {
    &&& pre.len() == post.len()
    &&& forall|i: int|
        0 <= i < pre.len() ==> {
            &&& (#[trigger] post[i]).id == pre[i].id
            &&& post[i].path == pre[i].path
            &&& post[i].readonly == pre[i].readonly
            &&& same_files(&post[i].fs, &pre[i].fs)
        }
}

/// Mount tables with the same mountpoints at the same paths cover a path
/// with the same mountpoint.
#[verifier::spinoff_prover]
#[verifier::rlimit(50)]
pub proof fn lemma_same_paths_deepest<F: Filesystem>(
    pre: Seq<MountPoint<F>>,
    post: Seq<MountPoint<F>>,
    parts: Seq<Seq<u8>>,
)
    requires
        mounts_wf(pre),
        mounts_wf(post),
        pre.len() == post.len(),
        forall|i: int| 0 <= i < pre.len() ==> (#[trigger] post[i]).path == pre[i].path,
    ensures
        deepest_mount(post, parts) == deepest_mount(pre, parts),
{
    assert forall|i: int| is_deepest(pre, parts, i) <==> is_deepest(post, parts, i) by {
        if is_deepest(pre, parts, i) {
            assert(post[i].path == pre[i].path);
            assert forall|j: int|
                0 <= j < post.len() && mount_covers(#[trigger] post[j], parts) implies post[j].path@.parts.len()
                <= post[i].path@.parts.len() by {
                assert(post[j].path == pre[j].path);
                assert(mount_covers(pre[j], parts));
            }
        }
        if is_deepest(post, parts, i) {
            assert(post[i].path == pre[i].path);
            assert forall|j: int|
                0 <= j < pre.len() && mount_covers(#[trigger] pre[j], parts) implies pre[j].path@.parts.len()
                <= pre[i].path@.parts.len() by {
                assert(post[j].path == pre[j].path);
                assert(mount_covers(post[j], parts));
            }
        }
    }
    if exists|i: int| is_deepest(pre, parts, i) {
        let a = choose|i: int| is_deepest(pre, parts, i);
        assert(is_deepest(post, parts, a));
        let b = choose|i: int| is_deepest(post, parts, i);
        lemma_deepest_unique(post, parts, a, b);
    } else {
        assert forall|i: int| !is_deepest(post, parts, i) by {
            assert(!is_deepest(pre, parts, i));
        }
    }
}

/// Mount tables that agree cover a path with the same mountpoint.
pub proof fn lemma_agree_deepest<F: Filesystem>(
    pre: Seq<MountPoint<F>>,
    post: Seq<MountPoint<F>>,
    parts: Seq<Seq<u8>>,
)
    requires
        mounts_wf(pre),
        mounts_wf(post),
        mounts_agree(pre, post),
    ensures
        deepest_mount(post, parts) == deepest_mount(pre, parts),
{
    lemma_same_paths_deepest(pre, post, parts);
}

/// In a consistent mount table, the mountpoint with the identifier of the
/// mountpoint `m` is that mountpoint.
pub proof fn lemma_mount_of_id<F: Filesystem>(mounts: Seq<MountPoint<F>>, m: int)
    requires
        mounts_wf(mounts),
        0 <= m < mounts.len(),
    ensures
        mount_with_id(mounts, mounts[m].id) == Some(m),
{
    let id = mounts[m].id;
    assert(0 <= m < mounts.len() && (#[trigger] mounts[m]).id == id);
    let c = choose|i: int| 0 <= i < mounts.len() && (#[trigger] mounts[i]).id == id;
    if c < m {
        assert(mounts[c].id != mounts[m].id);
    } else if m < c {
        assert(mounts[m].id != mounts[c].id);
    }
}

/// A file that was created resolves by its path.
///
/// Where a path names a directory without a symbolic link on its way, and a
/// file was created in that directory, the path with the name of the file
/// after it resolves, for a caller who may traverse the directory, to the
/// file that the creation returned, recorded in that directory; a symbolic
/// link that was created is found as such if the last link is not followed.
/// This holds where no mountpoint lies on the way to the new path that does
/// not lie on the way to the directory.
#[verifier::spinoff_prover]
#[verifier::rlimit(100)]
pub proof fn lemma_created_resolves<F: Filesystem>(
    pre: Seq<MountPoint<F>>,
    post: Seq<MountPoint<F>>,
    parts: Seq<Seq<u8>>,
    name: Seq<u8>,
    uid: Uid,
    gid: Gid,
    mode: Mode,
    content: ContentView,
    reader_uid: Uid,
    reader_gid: Gid,
)
    requires
        mounts_wf(pre),
        mounts_wf(post),
        step_spec(pre, parts, reader_uid, reader_gid, true) matches StepView::Done(Ok(parent))
            && create_spec(pre, parent, name, uid, gid, mode, content) is Ok && created(
            pre,
            post,
            parent,
            name,
            uid,
            gid,
            mode,
            content,
        ) && parent.can_execute(reader_uid, reader_gid),
        deepest_mount(pre, parts.push(name)) == deepest_mount(pre, parts),
    ensures
        ({
            let parent = step_spec(pre, parts, reader_uid, reader_gid, true)->Done_0->Ok_0;
            let made = create_spec(pre, parent, name, uid, gid, mode, content)->Ok_0;
            resolve_spec(post, parts.push(name), reader_uid, reader_gid, false, 0) == Ok::<
                FileView,
                Errno,
            >(FileView { parent_path: PathView { absolute: true, parts }, ..made })
        }),
{
    let parent = step_spec(pre, parts, reader_uid, reader_gid, true)->Done_0->Ok_0;
    let longer = parts.push(name);
    let m = deepest_mount(pre, parts)->Some_0;
    assert(is_deepest(pre, parts, m));
    let mount = pre[m];
    let skip = mount.path@.parts.len() as int;
    let inner = parts.skip(skip);
    let root = mount.fs.spec_root_inode()->Ok_0;
    let top = mount.fs.spec_load_file(root, Seq::empty())->Ok_0;
    mount.fs.lemma_load_file(root, Seq::empty());
    lemma_mount_of_id(pre, m);
    // The directory is on the mountpoint that covers the path.
    if inner.len() > 0 {
        lemma_walk_found(&mount.fs, inner, 0, root, top, reader_uid, reader_gid, true);
    }
    assert(mount_of(pre, parent.location) == Some(m));
    let pinode = parent.location->inode;
    let added = pre[m].fs.spec_add_file(
        pinode,
        name,
        uid,
        effective_gid(parent, gid),
        mode,
        content,
    )->Ok_0;
    pre[m].fs.lemma_add_file(pinode, name, uid, effective_gid(parent, gid), mode, content);
    assert(pre[m].fs.spec_get_inode(Some(pinode), name) is Err);
    // The new path is covered by the same mountpoint, before and after.
    lemma_same_paths_deepest(pre, post, longer);
    assert(post[m].path == pre[m].path && post[m].id == pre[m].id);
    assert(longer.skip(skip) =~= inner.push(name));
    assert(longer.drop_last() =~= parts);
    let fs_pre = &pre[m].fs;
    let fs_post = &post[m].fs;
    lemma_walk_after_add(
        fs_pre,
        fs_post,
        pinode,
        name,
        added,
        inner,
        0,
        root,
        top,
        reader_uid,
        reader_gid,
        true,
    );
    let top_post = fs_post.spec_load_file(root, Seq::empty())->Ok_0;
    fs_post.lemma_load_file(root, Seq::empty());
    let reached = if inner.len() == 0 {
        top
    } else {
        walk_spec(fs_pre, inner, 0, root, top, reader_uid, reader_gid, true)->Found_0
    };
    let reached_post = fs_post.spec_load_file(reached.location->inode, reached.name)->Ok_0;
    assert(reached.location->inode == pinode);
    assert(crate::filesystem::directory_kept(
        fs_pre.spec_load_file(pinode, reached.name),
        fs_post.spec_load_file(pinode, reached.name),
    ));
    lemma_walk_extended(
        fs_post,
        inner,
        name,
        0,
        root,
        top_post,
        reader_uid,
        reader_gid,
        false,
    );
    // The last step finds the new entry in the directory.
    let last = walk_spec(
        fs_post,
        inner.push(name),
        inner.len(),
        pinode,
        reached_post,
        reader_uid,
        reader_gid,
        false,
    );
    assert(inner.push(name)[inner.len() as int] == name);
    assert(walk_spec(
        fs_post,
        inner.push(name),
        (inner.len() + 1) as nat,
        added.location->inode,
        added,
        reader_uid,
        reader_gid,
        false,
    ) == WalkView::Found(added));
    assert(last == WalkView::Found(added));
}

/// Filesystems that answer every question alike are walked alike.
pub proof fn lemma_agree_walk<F: Filesystem>(
    pre: &F,
    post: &F,
    inner: Seq<Seq<u8>>,
    i: nat,
    inode: INode,
    cur: FileView,
    uid: Uid,
    gid: Gid,
    follow: bool,
)
    requires
        same_files(post, pre),
    ensures
        walk_spec(post, inner, i, inode, cur, uid, gid, follow) == walk_spec(
            pre,
            inner,
            i,
            inode,
            cur,
            uid,
            gid,
            follow,
        ),
    decreases inner.len() - i,
{
    if i < inner.len() && cur.file_type() == FileType::Directory && cur.can_execute(uid, gid) {
        assert(post.spec_get_inode(Some(inode), inner[i as int]) == pre.spec_get_inode(
            Some(inode),
            inner[i as int],
        ));
        match pre.spec_get_inode(Some(inode), inner[i as int]) {
            Err(_) => {},
            Ok(child) => {
                assert(post.spec_load_file(child, inner[i as int]) == pre.spec_load_file(
                    child,
                    inner[i as int],
                ));
                match pre.spec_load_file(child, inner[i as int]) {
                    Err(_) => {},
                    Ok(f) => {
                        if !(f.content is Link && (i + 1 < inner.len() || follow)) {
                            lemma_agree_walk(pre, post, inner, i + 1, child, f, uid, gid, follow);
                        }
                    },
                }
            },
        }
    }
}

/// An operation that leaves the mount table in agreement with what it was
/// changes no resolution: every path resolves to what it resolved to.
///
/// This holds of the state after every operation of the virtual filesystem
/// that failed.
#[verifier::spinoff_prover]
#[verifier::rlimit(50)]
pub proof fn lemma_agree_resolves<F: Filesystem>(
    pre: Seq<MountPoint<F>>,
    post: Seq<MountPoint<F>>,
    parts: Seq<Seq<u8>>,
    uid: Uid,
    gid: Gid,
    follow: bool,
    follows: nat,
)
    requires
        mounts_wf(pre),
        mounts_wf(post),
        mounts_agree(pre, post),
    ensures
        step_spec(post, parts, uid, gid, follow) == step_spec(pre, parts, uid, gid, follow),
        resolve_spec(post, parts, uid, gid, follow, follows) == resolve_spec(
            pre,
            parts,
            uid,
            gid,
            follow,
            follows,
        ),
    decreases SYMLOOP_MAX - follows,
{
    lemma_agree_deepest(pre, post, parts);
    match deepest_mount(pre, parts) {
        None => {},
        Some(m) => {
            assert(is_deepest(pre, parts, m));
            assert(post[m].id == pre[m].id && post[m].path == pre[m].path);
            assert(same_files(&post[m].fs, &pre[m].fs));
            let inner = parts.skip(pre[m].path@.parts.len() as int);
            match pre[m].fs.spec_root_inode() {
                Err(_) => {},
                Ok(root) => {
                    assert(post[m].fs.spec_load_file(root, Seq::empty()) == pre[m].fs.spec_load_file(
                        root,
                        Seq::empty(),
                    ));
                    match pre[m].fs.spec_load_file(root, Seq::empty()) {
                        Err(_) => {},
                        Ok(top) => {
                            lemma_agree_walk(
                                &pre[m].fs,
                                &post[m].fs,
                                inner,
                                0,
                                root,
                                top,
                                uid,
                                gid,
                                follow,
                            );
                        },
                    }
                },
            }
        },
    }
    match step_spec(pre, parts, uid, gid, follow) {
        StepView::Done(_) => {},
        StepView::Follow(next) => {
            if follows < SYMLOOP_MAX {
                lemma_agree_resolves(pre, post, next, uid, gid, follow, follows + 1);
            }
        },
    }
}

/// The pool without the files stored at the location `loc`.
pub open spec fn pool_without(slots: Seq<PoolSlotView>, loc: FileLocation) -> Seq<PoolSlotView> {
    slots.filter(|s: PoolSlotView| s.file.location != loc)
}

/// The virtual filesystem: the table of mountpoints, the pool of files that
/// were resolved last, and the buffers of the named pipes and sockets.
pub struct VFS<F: Filesystem> {
    /// The mountpoints.
    pub mounts: Vec<MountPoint<F>>,
    /// The identifier that the next mountpoint gets.
    pub next_mount_id: u32,
    /// The pool of files.
    pub pool: FilePool,
    /// The buffers of the named pipes, by the location of their file.
    pub named_pipes: Registry<PipeBuffer>,
    /// The sockets bound to a file, by the location of that file.
    pub named_sockets: Registry<Socket>,
}

impl<F: Filesystem> VFS<F> {
    /// The virtual filesystem is consistent: its mount table is, every
    /// identifier in use is below the next one, and its pool and registries are.
    pub open spec fn wf(&self) -> bool {
        &&& mounts_wf(self.mounts@)
        &&& forall|i: int| 0 <= i < self.mounts@.len() ==> (#[trigger] self.mounts@[i]).id
            < self.next_mount_id
        &&& self.pool.wf()
        &&& self.named_pipes.wf()
        &&& self.named_sockets.wf()
        &&& forall|h: int|
            0 <= h < self.named_pipes.slots@.len() && (#[trigger] self.named_pipes.slots@[h]) is Some
                ==> self.named_pipes.slots@[h]->Some_0.resource.wf()
    }

    /// Creates a virtual filesystem with nothing mounted and nothing remembered.
    pub fn new() -> (r: Result<Self, Errno>)
        ensures
            r is Ok,
            r->Ok_0.wf(),
            r->Ok_0.mounts@.len() == 0,
            r->Ok_0.next_mount_id == 0,
            r->Ok_0.pool@.len() == 0,
            r->Ok_0.pool.capacity == FILES_POOL_SIZE,
            r->Ok_0.named_pipes.slots@.len() == 0,
            r->Ok_0.named_sockets.slots@.len() == 0,
    {
        Ok(
            VFS {
                mounts: Vec::new(),
                next_mount_id: 0,
                pool: FilePool::new(FILES_POOL_SIZE),
                named_pipes: Registry::new(),
                named_sockets: Registry::new(),
            },
        )
    }

    /// Tells whether a mountpoint is at the path made of `parts`.
    pub open spec fn is_mounted(&self, parts: Seq<Seq<u8>>) -> bool {
        exists|i: int| 0 <= i < self.mounts@.len() && (#[trigger] self.mounts@[i]).path@.parts == parts
    }

    /// Attaches the filesystem `fs` at `path`, taken from the root, and
    /// returns the identifier of the new mountpoint. A path that has a
    /// mountpoint already is busy, and without an identifier left the
    /// argument is refused.
    #[verifier::spinoff_prover]
    #[verifier::rlimit(50)]
    pub fn mount(&mut self, path: &Path, fs: F, readonly: bool) -> (r: Result<u32, Errno>)
        requires
            old(self).wf(),
            fs.inv(),
        ensures
            final(self).wf(),
            final(self).pool == old(self).pool,
            final(self).named_pipes == old(self).named_pipes,
            final(self).named_sockets == old(self).named_sockets,
            match r {
                Ok(id) => {
                    &&& !old(self).is_mounted(path@.parts)
                    &&& id == old(self).next_mount_id
                    &&& final(self).mounts@.len() == old(self).mounts@.len() + 1
                    &&& final(self).mounts@.drop_last() == old(self).mounts@
                    &&& final(self).mounts@.last().id == id
                    &&& final(self).mounts@.last().path@ == path@.from_root()
                    &&& final(self).mounts@.last().readonly == readonly
                    &&& final(self).mounts@.last().fs == fs
                },
                Err(e) => {
                    &&& final(self).mounts == old(self).mounts
                    &&& final(self).next_mount_id == old(self).next_mount_id
                    &&& e == if old(self).is_mounted(path@.parts) {
                        Errno::Busy
                    } else {
                        Errno::InvalidArgument
                    }
                    &&& old(self).is_mounted(path@.parts) || old(self).next_mount_id == u32::MAX
                },
            },
    {
        let mut i: usize = 0;
        while i < self.mounts.len()
            invariant
                i <= self.mounts@.len(),
                *self == *old(self),
                self.wf(),
                forall|j: int| 0 <= j < i ==> (#[trigger] self.mounts@[j]).path@.parts != path@.parts,
            decreases self.mounts.len() - i,
        {
            if self.mounts[i].path.get_elements_count() == path.get_elements_count() && is_prefix(
                &self.mounts[i].path,
                path,
            ) {
                assert(self.mounts@[i as int].path@.parts =~= path@.parts);
                return Err(Errno::Busy);
            }
            assert(self.mounts@[i as int].path@.parts != path@.parts) by {
                if self.mounts@[i as int].path@.parts == path@.parts {
                    assert(path@.parts.is_prefix_of(path@.parts));
                }
            }
            i += 1;
        }
        if self.next_mount_id == u32::MAX {
            return Err(Errno::InvalidArgument);
        }
        let id: u32 = self.next_mount_id;
        let mut place: Path = path.copy();
        place.set_absolute(true);
        self.mounts.push(MountPoint { id, path: place, readonly, fs });
        self.next_mount_id = id + 1;
        proof {
            assert(self.mounts@.drop_last() =~= old(self).mounts@);
            assert forall|a: int, b: int| 0 <= a < b < self.mounts@.len() implies (
            #[trigger] self.mounts@[a]).id != (#[trigger] self.mounts@[b]).id by {
                if b == self.mounts@.len() - 1 {
                    assert(old(self).mounts@[a].id < id);
                } else {
                    assert(old(self).mounts@[a].id != old(self).mounts@[b].id);
                }
            }
            assert forall|a: int, b: int| 0 <= a < b < self.mounts@.len() implies (
            #[trigger] self.mounts@[a]).path@.parts != (#[trigger] self.mounts@[b]).path@.parts by {
                if b == self.mounts@.len() - 1 {
                    assert(old(self).mounts@[a].path@.parts != path@.parts);
                } else {
                    assert(old(self).mounts@[a].path@.parts != old(self).mounts@[b].path@.parts);
                }
            }
        }
        Ok(id)
    }

    /// Remembers in the pool the file `file` that resolving `path` with
    /// `follow` gave.
    fn load_file(&mut self, path: &Path, follow: bool, file: &File)
        requires
            old(self).wf(),
        ensures
            final(self).wf(),
            final(self).mounts == old(self).mounts,
            final(self).next_mount_id == old(self).next_mount_id,
            final(self).named_pipes == old(self).named_pipes,
            final(self).named_sockets == old(self).named_sockets,
            final(self).pool.capacity == old(self).pool.capacity,
            final(self).pool@ == insert_spec(
                old(self).pool@,
                old(self).pool.capacity,
                path@.parts,
                follow,
                file@,
            ),
    {
        let _ = self.pool.insert(path.copy(), follow, file.copy());
    }

    /// Empties the pool of files. The files in it are copies of what the
    /// filesystems hold, so nothing is left to write back.
    pub fn flush_all(&mut self) -> (r: Result<(), Errno>)
        requires
            old(self).wf(),
        ensures
            r is Ok,
            final(self).wf(),
            final(self).pool@.len() == 0,
            final(self).pool.capacity == old(self).pool.capacity,
            final(self).mounts == old(self).mounts,
            final(self).next_mount_id == old(self).next_mount_id,
            final(self).named_pipes == old(self).named_pipes,
            final(self).named_sockets == old(self).named_sockets,
    {
        self.pool.slots.clear();
        Ok(())
    }

    /// Returns the file at `path` for the caller `uid`, `gid`. A relative path
    /// is taken from the root. With `follow_links`, a symbolic link at the end
    /// of the path is followed too. A file that is found is remembered in the pool.
    pub fn get_file_from_path(
        &mut self,
        path: &Path,
        uid: Uid,
        gid: Gid,
        follow_links: bool,
    ) -> (r: Result<File, Errno>)
        requires
            old(self).wf(),
        ensures
            final(self).wf(),
            file_result_view(r) == resolve_spec(
                old(self).mounts@,
                path@.parts,
                uid,
                gid,
                follow_links,
                0,
            ),
            final(self).mounts == old(self).mounts,
            final(self).next_mount_id == old(self).next_mount_id,
            final(self).named_pipes == old(self).named_pipes,
            final(self).named_sockets == old(self).named_sockets,
            final(self).pool.capacity == old(self).pool.capacity,
            final(self).pool@ == match r {
                Ok(f) => insert_spec(
                    old(self).pool@,
                    old(self).pool.capacity,
                    path@.parts,
                    follow_links,
                    f@,
                ),
                Err(_) => old(self).pool@,
            },
    {
        let r = resolve(&self.mounts, path, uid, gid, follow_links, 0);
        match &r {
            Ok(f) => {
                self.load_file(path, follow_links, f);
            },
            Err(_) => {},
        }
        r
    }

    /// Returns the file named `name` in the directory `parent` for the caller
    /// `uid`, `gid`. With `follow_links`, a symbolic link is followed.
    #[verifier::spinoff_prover]
    #[verifier::rlimit(50)]
    pub fn get_file_from_parent(
        &self,
        parent: &File,
        name: Vec<u8>,
        uid: Uid,
        gid: Gid,
        follow_links: bool,
    ) -> (r: Result<File, Errno>)
        requires
            self.wf(),
        ensures
            file_result_view(r) == from_parent_spec(
                self.mounts@,
                parent@,
                name@,
                uid,
                gid,
                follow_links,
            ),
    {
        if parent.get_file_type() != FileType::Directory {
            return Err(Errno::NotADirectory);
        }
        if !parent.can_execute(uid, gid) {
            return Err(Errno::PermissionDenied);
        }
        let (m, parent_inode): (usize, INode) = match self.locate(parent.get_location()) {
            Some(found) => found,
            None => {
                return Err(Errno::NotFound);
            },
        };
        let mount: &MountPoint<F> = &self.mounts[m];
        let inode: INode = match mount.fs.get_inode(Some(parent_inode), &name) {
            Ok(inode) => inode,
            Err(e) => {
                return Err(e);
            },
        };
        let mut file: File = match mount.fs.load_file(inode, name) {
            Ok(file) => file,
            Err(e) => {
                return Err(e);
            },
        };
        if follow_links {
            match &file.content {
                FileContent::Link(target) => {
                    let link: Path = match Path::from_str(target.as_slice(), false) {
                        Ok(link) => link,
                        Err(e) => {
                            return Err(e);
                        },
                    };
                    let next: Path = parent.get_path().concat(&link);
                    return resolve(&self.mounts, &next, uid, gid, follow_links, 1);
                },
                _ => {},
            }
        }
        file.set_parent_path(parent.get_path());
        file.set_mountpoint(mount.id);
        Ok(file)
    }

    /// Returns the mountpoint that the location names, with the number of
    /// the node.
    fn locate(&self, loc: &FileLocation) -> (r: Option<(usize, INode)>)
        requires
            self.wf(),
        ensures
            match r {
                Some((m, inode)) => mount_of(self.mounts@, *loc) == Some(m as int) && m
                    < self.mounts@.len() && *loc is Filesystem && loc->inode == inode,
                None => mount_of(self.mounts@, *loc) is None,
            },
    {
        match loc {
            FileLocation::Filesystem { mountpoint_id: Some(id), inode } => match find_mount(
                &self.mounts,
                *id,
            ) {
                Some(m) => Some((m, *inode)),
                None => None,
            },
            _ => None,
        }
    }

    /// Tells whether `post` and `parent_post` are what creating the file
    /// `name` in the directory `parent_pre` has made of `pre` and of the
    /// directory, where the creation has given `r`.
    ///
    /// A creation that failed has changed nothing that can be observed. Else the
    /// driver of the directory's mountpoint has added the entry, the file
    /// belongs to the caller, or to the group of the directory where that has
    /// its set-group-id bit set, the directory has the new entry, and the pool
    /// has forgotten the directory.
    pub open spec fn file_created(
        pre: &Self,
        post: &Self,
        parent_pre: FileView,
        parent_post: FileView,
        name: Seq<u8>,
        uid: Uid,
        gid: Gid,
        mode: Mode,
        content: ContentView,
        r: Result<FileView, Errno>,
    ) -> bool {
        &&& post.next_mount_id == pre.next_mount_id
        &&& post.named_pipes == pre.named_pipes
        &&& post.named_sockets == pre.named_sockets
        &&& post.pool.capacity == pre.pool.capacity
        &&& match r {
            Ok(f) => {
                &&& created(pre.mounts@, post.mounts@, parent_pre, name, uid, gid, mode, content)
                &&& f.gid == effective_gid(parent_pre, gid)
                &&& f.uid == uid
                &&& f.mode == mode
                &&& f.name == name
                &&& parent_post == parent_pre.add_entry(f.dir_entry())
                &&& post.pool@ == pool_without(pre.pool@, parent_pre.location)
            },
            Err(_) => {
                &&& mounts_agree(pre.mounts@, post.mounts@)
                &&& parent_post == parent_pre
                &&& post.pool@ == pre.pool@
            },
        }
    }

    /// Creates the file `name` in the directory `parent` and returns it. The
    /// file belongs to `uid` and to `gid`, or to the group of the directory where
    /// that has its set-group-id bit set. `content` gives the file its kind. The
    /// new entry is added to `parent` as well, and what the pool remembers of
    /// the directory is forgotten.
    #[verifier::spinoff_prover]
    #[verifier::rlimit(50)]
    pub fn create_file(
        &mut self,
        parent: &mut File,
        name: Vec<u8>,
        uid: Uid,
        gid: Gid,
        mode: Mode,
        content: FileContent,
    ) -> (r: Result<File, Errno>)
        requires
            old(self).wf(),
        ensures
            final(self).wf(),
            file_result_view(r) == create_spec(
                old(self).mounts@,
                old(parent)@,
                name@,
                uid,
                gid,
                mode,
                content@,
            ),
            Self::file_created(
                old(self),
                final(self),
                old(parent)@,
                final(parent)@,
                name@,
                uid,
                gid,
                mode,
                content@,
                file_result_view(r),
            ),
    {
        let probe: Vec<u8> = bytes_clone(&name);
        if self.get_file_from_parent(parent, probe, uid, gid, false).is_ok() {
            return Err(Errno::AlreadyExists);
        }
        if parent.get_file_type() != FileType::Directory {
            return Err(Errno::NotADirectory);
        }
        if !parent.can_write(uid, gid) {
            return Err(Errno::PermissionDenied);
        }
        let group: Gid = if parent.get_mode() & S_ISGID != 0 {
            parent.get_gid()
        } else {
            gid
        };
        let (m, parent_inode): (usize, INode) = match self.locate(parent.get_location()) {
            Some(found) => found,
            None => {
                return Err(Errno::NotFound);
            },
        };
        if self.mounts[m].readonly {
            return Err(Errno::ReadOnlyFilesystem);
        }
        if self.mounts[m].fs.is_readonly() {
            return Err(Errno::ReadOnlyFilesystem);
        }
        let id: u32 = self.mounts[m].id;
        proof {
            self.mounts@[m as int].fs.lemma_add_file(
                parent_inode,
                name@,
                uid,
                group,
                mode,
                content@,
            );
        }
        let added: Result<File, Errno> = self.mounts[m].fs.add_file(
            parent_inode,
            name,
            uid,
            group,
            mode,
            content,
        );
        proof {
            lemma_changed_wf(old(self).mounts@, self.mounts@, m as int);
        }
        match added {
            Err(e) => {
                Err(e)
            },
            Ok(mut file) => {
                file.set_parent_path(parent.get_path());
                file.set_mountpoint(id);
                match file.to_dir_entry() {
                    Some(entry) => {
                        parent.add_entry(entry);
                    },
                    None => {},
                }
                self.pool.invalidate(parent.get_location());
                Ok(file)
            },
        }
    }

    /// Adds to the directory `parent` a hard link named `name` to the file
    /// `target`. What the pool remembers of the two files is forgotten.
    #[verifier::spinoff_prover]
    #[verifier::rlimit(50)]
    pub fn create_link(
        &mut self,
        target: &File,
        parent: &File,
        name: Vec<u8>,
        uid: Uid,
        gid: Gid,
    ) -> (r: Result<(), Errno>)
        requires
            old(self).wf(),
        ensures
            final(self).wf(),
            r == link_spec(old(self).mounts@, target@, parent@, name@, uid, gid),
            final(self).next_mount_id == old(self).next_mount_id,
            final(self).named_pipes == old(self).named_pipes,
            final(self).named_sockets == old(self).named_sockets,
            final(self).pool.capacity == old(self).pool.capacity,
            match r {
                Ok(_) => {
                    let m = mount_of(old(self).mounts@, target@.location)->Some_0;
                    &&& mounts_changed_at(old(self).mounts@, final(self).mounts@, m)
                    &&& entry_linked(
                        &old(self).mounts@[m].fs,
                        &final(self).mounts@[m].fs,
                        parent@.location->inode,
                        name@,
                        target@.location->inode,
                    )
                    &&& final(self).pool@ == pool_without(
                        pool_without(old(self).pool@, parent@.location),
                        target@.location,
                    )
                },
                Err(_) => {
                    &&& mounts_agree(old(self).mounts@, final(self).mounts@)
                    &&& final(self).pool@ == old(self).pool@
                },
            },
    {
        if parent.get_file_type() != FileType::Directory {
            return Err(Errno::NotADirectory);
        }
        if !parent.can_write(uid, gid) {
            return Err(Errno::PermissionDenied);
        }
        if target.get_location().get_mountpoint_id() != parent.get_location().get_mountpoint_id() {
            return Err(Errno::CrossDevice);
        }
        let (m, target_inode): (usize, INode) = match self.locate(target.get_location()) {
            Some(found) => found,
            None => {
                return Err(Errno::NotFound);
            },
        };
        if self.mounts[m].readonly {
            return Err(Errno::ReadOnlyFilesystem);
        }
        if self.mounts[m].fs.is_readonly() {
            return Err(Errno::ReadOnlyFilesystem);
        }
        let parent_inode: INode = match parent.get_location().get_inode() {
            Some(inode) => inode,
            None => {
                return Err(Errno::NotFound);
            },
        };
        let linked: Result<(), Errno> = self.mounts[m].fs.add_link(
            parent_inode,
            &name,
            target_inode,
        );
        proof {
            lemma_changed_wf(old(self).mounts@, self.mounts@, m as int);
            assert(linked == link_spec(old(self).mounts@, target@, parent@, name@, uid, gid));
        }
        if linked.is_ok() {
            self.pool.invalidate(parent.get_location());
            self.pool.invalidate(target.get_location());
        }
        linked
    }

    /// Removes the file `file` for the caller `uid`, `gid`.
    ///
    /// Once nothing stands in the way, what the pool remembers of the file
    /// and of its directory is forgotten, and the driver is asked to remove the
    /// entry. If it does, and the file had more than one hard link and is a
    /// named pipe or a socket, the buffer bound to its location is dropped.
    #[verifier::spinoff_prover]
    #[verifier::rlimit(50)]
    pub fn remove_file(&mut self, file: &File, uid: Uid, gid: Gid) -> (r: Result<(), Errno>)
        requires
            old(self).wf(),
        ensures
            final(self).wf(),
            r == remove_spec(old(self).mounts@, file@, uid, gid),
            Self::removed(old(self), final(self), file@, uid, gid, r),
    {
        if file.is_busy() {
            return Err(Errno::Busy);
        }
        let parent: File = match resolve(&self.mounts, file.get_parent_path(), uid, gid, true, 0) {
            Ok(parent) => parent,
            Err(e) => {
                return Err(e);
            },
        };
        if !file.can_write(uid, gid) || !parent.can_write(uid, gid) {
            return Err(Errno::PermissionDenied);
        }
        let m: usize = match self.locate(file.get_location()) {
            Some((m, _)) => m,
            None => {
                return Err(Errno::NotFound);
            },
        };
        if self.mounts[m].readonly {
            return Err(Errno::ReadOnlyFilesystem);
        }
        if self.mounts[m].fs.is_readonly() {
            return Err(Errno::ReadOnlyFilesystem);
        }
        let parent_inode: INode = match parent.get_location().get_inode() {
            Some(inode) => inode,
            None => {
                return Err(Errno::NotFound);
            },
        };
        self.pool.invalidate(file.get_location());
        self.pool.invalidate(parent.get_location());
        let removed: Result<(), Errno> = self.mounts[m].fs.remove_file(
            parent_inode,
            file.get_name(),
        );
        proof {
            lemma_changed_wf(old(self).mounts@, self.mounts@, m as int);
            assert(remove_checks(old(self).mounts@, file@, uid, gid) == Ok::<(int, INode), Errno>(
                (m as int, parent_inode),
            ));
            assert(removed == remove_spec(old(self).mounts@, file@, uid, gid));
            assert(resolve_spec(old(self).mounts@, file@.parent_path.parts, uid, gid, true, 0)
                == Ok::<FileView, Errno>(parent@));
        }
        if removed.is_ok() && file.get_hard_links_count() > 1 {
            match file.get_file_content() {
                FileContent::Fifo => {
                    let _ = self.named_pipes.remove(file.get_location());
                },
                FileContent::Socket => {
                    let _ = self.named_sockets.remove(file.get_location());
                },
                _ => {},
            }
        }
        removed
    }

    /// Tells whether `post` is what removing the file `file` for the caller
    /// `uid`, `gid` has made of `pre`, where the removal has given `r`.
    ///
    /// Where something stood in the way of the removal, nothing has changed.
    /// Else the pool has forgotten the file and its directory, and the driver
    /// of the file's mountpoint has removed the entry or, if it failed, left
    /// its filesystem as it was. The buffer bound to the location of the file
    /// is dropped if the entry was removed, the file had more than one hard
    /// link and it is a named pipe or a socket.
    pub open spec fn removed(
        pre: &Self,
        post: &Self,
        file: FileView,
        uid: Uid,
        gid: Gid,
        r: Result<(), Errno>,
    ) -> bool {
        &&& post.next_mount_id == pre.next_mount_id
        &&& post.pool.capacity == pre.pool.capacity
        &&& match remove_checks(pre.mounts@, file, uid, gid) {
            Ok((m, parent_inode)) => {
                &&& mounts_changed_at(pre.mounts@, post.mounts@, m)
                &&& r is Ok ==> entry_removed(
                    &pre.mounts@[m].fs,
                    &post.mounts@[m].fs,
                    parent_inode,
                    file.name,
                )
                &&& r is Err ==> same_files(&post.mounts@[m].fs, &pre.mounts@[m].fs)
                &&& post.pool@ == pool_without(
                    pool_without(pre.pool@, file.location),
                    resolve_spec(pre.mounts@, file.parent_path.parts, uid, gid, true, 0)->Ok_0.location,
                )
            },
            Err(_) => post.mounts == pre.mounts && post.pool@ == pre.pool@,
        }
        &&& post.named_pipes.slots@ == if r is Ok && file.hard_links_count > 1 && file.content is Fifo
            && pre.named_pipes.contains(file.location) {
            pre.named_pipes.slots@.update(pre.named_pipes.handle_of(file.location), None)
        } else {
            pre.named_pipes.slots@
        }
        &&& post.named_sockets.slots@ == if r is Ok && file.hard_links_count > 1
            && file.content is Socket && pre.named_sockets.contains(file.location) {
            pre.named_sockets.slots@.update(pre.named_sockets.handle_of(file.location), None)
        } else {
            pre.named_sockets.slots@
        }
    }

    /// Tells whether `post` is what writing the attributes of the file `file`
    /// back has made of `pre`, where that has given `r`.
    pub open spec fn synced(pre: &Self, post: &Self, file: FileView, r: Result<(), Errno>) -> bool {
        &&& post.next_mount_id == pre.next_mount_id
        &&& post.pool.capacity == pre.pool.capacity
        &&& post.named_pipes == pre.named_pipes
        &&& post.named_sockets == pre.named_sockets
        &&& match mount_of(pre.mounts@, file.location) {
            Some(m) => {
                &&& mounts_changed_at(pre.mounts@, post.mounts@, m)
                &&& r is Ok ==> inode_updated(&pre.mounts@[m].fs, &post.mounts@[m].fs, file)
                &&& r is Err ==> same_files(&post.mounts@[m].fs, &pre.mounts@[m].fs)
            },
            None => post.mounts == pre.mounts,
        }
        &&& post.pool@ == if r is Ok {
            pool_without(pre.pool@, file.location)
        } else {
            pre.pool@
        }
    }

    /// Writes the owner, the group and the permissions of `file` back to its
    /// filesystem. What the pool remembers of the file is forgotten.
    #[verifier::spinoff_prover]
    #[verifier::rlimit(50)]
    pub fn sync_file(&mut self, file: &File) -> (r: Result<(), Errno>)
        requires
            old(self).wf(),
        ensures
            final(self).wf(),
            r == sync_spec(old(self).mounts@, file@),
            Self::synced(old(self), final(self), file@, r),
    {
        let m: usize = match self.locate(file.get_location()) {
            Some((m, _)) => m,
            None => {
                return Err(Errno::NotFound);
            },
        };
        if self.mounts[m].readonly {
            assert(mounts_changed_at(old(self).mounts@, self.mounts@, m as int));
            proof {
                lemma_same_files_refl(&self.mounts@[m as int].fs);
            }
            return Err(Errno::ReadOnlyFilesystem);
        }
        let updated: Result<(), Errno> = self.mounts[m].fs.update_inode(file);
        proof {
            lemma_changed_wf(old(self).mounts@, self.mounts@, m as int);
        }
        if updated.is_ok() {
            self.pool.invalidate(file.get_location());
        }
        updated
    }

    /// Tells whether `post` differs from `pre` in the bytes of the file at
    /// the location `loc` at most.
    pub open spec fn bytes_changed(pre: &Self, post: &Self, loc: FileLocation) -> bool {
        &&& post.next_mount_id == pre.next_mount_id
        &&& post.pool == pre.pool
        &&& post.named_pipes == pre.named_pipes
        &&& post.named_sockets == pre.named_sockets
        &&& match mount_of(pre.mounts@, loc) {
            Some(m) => {
                &&& mounts_changed_at(pre.mounts@, post.mounts@, m)
                &&& same_files(&post.mounts@[m].fs, &pre.mounts@[m].fs)
                &&& data_kept(&pre.mounts@[m].fs, &post.mounts@[m].fs, Some(loc->inode))
            },
            None => post.mounts == pre.mounts,
        }
    }

    /// Two changes of the bytes of one file are a change of the bytes of
    /// that file.
    pub proof fn lemma_bytes_changed_twice(a: &Self, b: &Self, c: &Self, loc: FileLocation)
        requires
            a.wf(),
            b.wf(),
            c.wf(),
            Self::bytes_changed(a, b, loc),
            Self::bytes_changed(b, c, loc),
        ensures
            Self::bytes_changed(a, c, loc),
            data_of(a.mounts@, loc) is Ok ==> mount_of(c.mounts@, loc) == mount_of(a.mounts@, loc),
    {
        match mount_of(a.mounts@, loc) {
            Some(m) => {
                lemma_changed_wf(a.mounts@, b.mounts@, m);
                assert(mount_of(b.mounts@, loc) == Some(m));
                lemma_changed_wf(b.mounts@, c.mounts@, m);
                let x = &a.mounts@[m].fs;
                let y = &b.mounts@[m].fs;
                let z = &c.mounts@[m].fs;
                assert(same_files(z, x)) by {
                    assert forall|p: Option<INode>, n: Seq<u8>| #[trigger]
                        z.spec_get_inode(p, n) == x.spec_get_inode(p, n) by {
                        assert(y.spec_get_inode(p, n) == x.spec_get_inode(p, n));
                    }
                    assert forall|i: INode, n: Seq<u8>| #[trigger]
                        z.spec_load_file(i, n) == x.spec_load_file(i, n) by {
                        assert(y.spec_load_file(i, n) == x.spec_load_file(i, n));
                    }
                    assert forall|p: INode, n: Seq<u8>, uid: Uid, gid: Gid, mode: Mode, k: ContentView| #[trigger]
                        z.spec_add_file(p, n, uid, gid, mode, k) == x.spec_add_file(p, n, uid, gid, mode, k) by {
                        assert(y.spec_add_file(p, n, uid, gid, mode, k) == x.spec_add_file(
                            p,
                            n,
                            uid,
                            gid,
                            mode,
                            k,
                        ));
                    }
                    assert forall|p: INode, n: Seq<u8>, t: INode| #[trigger]
                        z.spec_add_link(p, n, t) == x.spec_add_link(p, n, t) by {
                        assert(y.spec_add_link(p, n, t) == x.spec_add_link(p, n, t));
                    }
                    assert forall|p: INode, n: Seq<u8>| #[trigger]
                        z.spec_remove_file(p, n) == x.spec_remove_file(p, n) by {
                        assert(y.spec_remove_file(p, n) == x.spec_remove_file(p, n));
                    }
                    assert forall|f: FileView| #[trigger]
                        z.spec_update_inode(f) == x.spec_update_inode(f) by {
                        assert(y.spec_update_inode(f) == x.spec_update_inode(f));
                    }
                }
                assert forall|i: INode| Some(i) != Some(loc->inode) implies #[trigger] z.spec_data(i)
                    == x.spec_data(i) by {
                    assert(y.spec_data(i) == x.spec_data(i));
                }
                assert(mounts_changed_at(a.mounts@, c.mounts@, m));
            },
            None => {},
        }
    }

    /// Reads the bytes of the file `file` from the offset `offset` on into
    /// `buff`, as far as there are bytes and `buff` has room. Returns the
    /// number of bytes read, and whether the end of the file was reached.
    pub fn read_content(&self, file: &File, offset: u64, buff: &mut Vec<u8>) -> (r: Result<
        (u64, bool),
        Errno,
    >)
        requires
            self.wf(),
        ensures
            match data_of(self.mounts@, file@.location) {
                Ok(data) => r matches Ok((len, eof)) && len == chunk_len(
                    data.len(),
                    offset,
                    old(buff)@.len(),
                ) && final(buff)@ == chunk(data, offset, old(buff)@.len()) + old(buff)@.skip(
                    len as int,
                ) && eof == (offset + len >= data.len()),
                Err(e) => r == Err::<(u64, bool), Errno>(e) && final(buff)@ == old(buff)@,
            },
    {
        match self.locate(file.get_location()) {
            Some((m, inode)) => self.mounts[m].fs.read_node(inode, offset, buff),
            None => Err(Errno::NotFound),
        }
    }

    /// Writes the bytes of `buff` at the offset `offset` of the file `file`,
    /// and returns the number of bytes written. Nothing else changes.
    #[verifier::spinoff_prover]
    #[verifier::rlimit(50)]
    pub fn write_content(&mut self, file: &File, offset: u64, buff: &Vec<u8>) -> (r: Result<
        u64,
        Errno,
    >)
        requires
            old(self).wf(),
        ensures
            final(self).wf(),
            r == write_spec(old(self).mounts@, file@.location, offset, buff@),
            Self::bytes_changed(old(self), final(self), file@.location),
            match r {
                Ok(n) => n <= buff@.len() && data_of(old(self).mounts@, file@.location) is Ok
                    && data_of(final(self).mounts@, file@.location) == Ok::<Seq<u8>, Errno>(
                    written(
                        data_of(old(self).mounts@, file@.location)->Ok_0,
                        offset as int,
                        buff@.take(n as int),
                    ),
                ),
                Err(_) => data_of(final(self).mounts@, file@.location) == data_of(
                    old(self).mounts@,
                    file@.location,
                ),
            },
    {
        let (m, inode): (usize, INode) = match self.locate(file.get_location()) {
            Some(found) => found,
            None => {
                return Err(Errno::NotFound);
            },
        };
        if self.mounts[m].readonly {
            assert(mounts_changed_at(old(self).mounts@, self.mounts@, m as int));
            proof {
                lemma_same_files_refl(&self.mounts@[m as int].fs);
            }
            return Err(Errno::ReadOnlyFilesystem);
        }
        let taken: Result<u64, Errno> = self.mounts[m].fs.write_node(inode, offset, buff);
        proof {
            lemma_changed_wf(old(self).mounts@, self.mounts@, m as int);
        }
        taken
    }

    /// Returns the handle of the pipe bound to the file at the location `loc`.
    /// The first call for a location creates the pipe; until the pipe is
    /// removed, every call for that location returns the same handle.
    pub fn get_named_fifo(&mut self, loc: &FileLocation) -> (r: Result<usize, Errno>)
        requires
            old(self).wf(),
        ensures
            final(self).wf(),
            final(self).mounts == old(self).mounts,
            final(self).next_mount_id == old(self).next_mount_id,
            final(self).pool == old(self).pool,
            final(self).named_sockets == old(self).named_sockets,
            r is Ok,
            old(self).named_pipes.obtained(&final(self).named_pipes, *loc, r->Ok_0 as int),
            final(self).named_pipes.handle_of(*loc) == r->Ok_0,
            !old(self).named_pipes.contains(*loc) ==> final(self).named_pipes.slots@[r->Ok_0 as int]->Some_0.resource@
                == Seq::<u8>::empty(),
    {
        match self.named_pipes.find(loc) {
            Some(h) => Ok(h),
            None => {
                let pipe: PipeBuffer = PipeBuffer::new();
                let h: usize = self.named_pipes.insert(*loc, pipe);
                Ok(h)
            },
        }
    }

    /// Writes the bytes of `buff` to the named pipe behind the handle
    /// `handle`, as far as the pipe has room, and returns how many were taken.
    /// A handle that is not that of a pipe is a bad descriptor.
    pub fn write_named_fifo(&mut self, handle: usize, buff: &[u8]) -> (r: Result<usize, Errno>)
        requires
            old(self).wf(),
        ensures
            final(self).wf(),
            final(self).mounts == old(self).mounts,
            final(self).next_mount_id == old(self).next_mount_id,
            final(self).pool == old(self).pool,
            final(self).named_sockets == old(self).named_sockets,
            match r {
                Ok(n) => {
                    &&& handle < old(self).named_pipes.slots@.len()
                    &&& old(self).named_pipes.slots@[handle as int] is Some
                    &&& n == spec_min(
                        buff@.len() as int,
                        PIPE_CAPACITY - old(self).named_pipes.resource(handle as int)@.len(),
                    )
                    &&& old(self).named_pipes.updated(
                        &final(self).named_pipes,
                        handle as int,
                        final(self).named_pipes.resource(handle as int),
                    )
                    &&& final(self).named_pipes.resource(handle as int)@ == old(
                        self,
                    ).named_pipes.resource(handle as int)@ + buff@.take(n as int)
                },
                Err(e) => {
                    &&& e == Errno::BadDescriptor
                    &&& final(self).named_pipes == old(self).named_pipes
                    &&& handle >= old(self).named_pipes.slots@.len() || old(
                        self,
                    ).named_pipes.slots@[handle as int] is None
                },
            },
    {
        if handle >= self.named_pipes.slots.len() {
            return Err(Errno::BadDescriptor);
        }
        if self.named_pipes.slots[handle].is_none() {
            return Err(Errno::BadDescriptor);
        }
        let mut taken: Option<Named<PipeBuffer>> = None;
        core::mem::swap(&mut self.named_pipes.slots[handle], &mut taken);
        match taken {
            Some(mut entry) => {
                let n: usize = entry.resource.write(buff);
                let ghost location = entry.location;
                let ghost resource = entry.resource;
                self.named_pipes.slots.set(handle, Some(entry));
                proof {
                    assert(old(self).named_pipes.slots@[handle as int]->Some_0.location == location);
                    assert(self.named_pipes.slots@ =~= old(self).named_pipes.slots@.update(
                        handle as int,
                        Some(Named { location, resource }),
                    ));
                    old(self).named_pipes.lemma_updated(
                        &self.named_pipes,
                        handle as int,
                        self.named_pipes.resource(handle as int),
                    );
                }
                Ok(n)
            },
            None => Err(Errno::BadDescriptor),
        }
    }

    /// Reads up to `len` bytes from the named pipe behind the handle
    /// `handle`, the oldest first. A handle that is not that of a pipe is a
    /// bad descriptor.
    pub fn read_named_fifo(&mut self, handle: usize, len: usize) -> (r: Result<Vec<u8>, Errno>)
        requires
            old(self).wf(),
        ensures
            final(self).wf(),
            final(self).mounts == old(self).mounts,
            final(self).next_mount_id == old(self).next_mount_id,
            final(self).pool == old(self).pool,
            final(self).named_sockets == old(self).named_sockets,
            match r {
                Ok(bytes) => {
                    let held = old(self).named_pipes.resource(handle as int)@;
                    let n = spec_min(len as int, held.len() as int);
                    &&& handle < old(self).named_pipes.slots@.len()
                    &&& old(self).named_pipes.slots@[handle as int] is Some
                    &&& bytes@ == held.take(n)
                    &&& old(self).named_pipes.updated(
                        &final(self).named_pipes,
                        handle as int,
                        final(self).named_pipes.resource(handle as int),
                    )
                    &&& final(self).named_pipes.resource(handle as int)@ == held.skip(n)
                },
                Err(e) => {
                    &&& e == Errno::BadDescriptor
                    &&& final(self).named_pipes == old(self).named_pipes
                    &&& handle >= old(self).named_pipes.slots@.len() || old(
                        self,
                    ).named_pipes.slots@[handle as int] is None
                },
            },
    {
        if handle >= self.named_pipes.slots.len() {
            return Err(Errno::BadDescriptor);
        }
        if self.named_pipes.slots[handle].is_none() {
            return Err(Errno::BadDescriptor);
        }
        let mut taken: Option<Named<PipeBuffer>> = None;
        core::mem::swap(&mut self.named_pipes.slots[handle], &mut taken);
        match taken {
            Some(mut entry) => {
                let bytes: Vec<u8> = entry.resource.read(len);
                let ghost location = entry.location;
                let ghost resource = entry.resource;
                self.named_pipes.slots.set(handle, Some(entry));
                proof {
                    assert(old(self).named_pipes.slots@[handle as int]->Some_0.location == location);
                    assert(self.named_pipes.slots@ =~= old(self).named_pipes.slots@.update(
                        handle as int,
                        Some(Named { location, resource }),
                    ));
                    old(self).named_pipes.lemma_updated(
                        &self.named_pipes,
                        handle as int,
                        self.named_pipes.resource(handle as int),
                    );
                }
                Ok(bytes)
            },
            None => Err(Errno::BadDescriptor),
        }
    }

    /// Returns the handle of the socket bound to the file at the location
    /// `loc`. The first call for a location creates the socket; until the
    /// socket is removed, every call for that location returns the same handle.
    pub fn get_named_socket(&mut self, loc: &FileLocation) -> (r: Result<usize, Errno>)
        requires
            old(self).wf(),
        ensures
            final(self).wf(),
            final(self).mounts == old(self).mounts,
            final(self).next_mount_id == old(self).next_mount_id,
            final(self).pool == old(self).pool,
            final(self).named_pipes == old(self).named_pipes,
            r is Ok,
            old(self).named_sockets.obtained(&final(self).named_sockets, *loc, r->Ok_0 as int),
            final(self).named_sockets.handle_of(*loc) == r->Ok_0,
            !old(self).named_sockets.contains(*loc) ==> {
                let socket = final(self).named_sockets.slots@[r->Ok_0 as int]->Some_0.resource;
                socket.incoming@ == Seq::<u8>::empty() && socket.outgoing@ == Seq::<u8>::empty()
            },
    {
        match self.named_sockets.find(loc) {
            Some(h) => Ok(h),
            None => {
                let socket: Socket = Socket::new();
                let h: usize = self.named_sockets.insert(*loc, socket);
                Ok(h)
            },
        }
    }
}

/// A mount table that differs from a consistent one in one filesystem, which
/// is consistent too, is consistent.
pub proof fn lemma_changed_wf<F: Filesystem>(
    pre: Seq<MountPoint<F>>,
    post: Seq<MountPoint<F>>,
    m: int,
)
    requires
        mounts_wf(pre),
        mounts_changed_at(pre, post, m),
        post[m].fs.inv(),
    ensures
        mounts_wf(post),
        forall|id: u32| mount_with_id(post, id) == mount_with_id(pre, id),
{
    assert forall|i: int| 0 <= i < post.len() implies (#[trigger] post[i]).fs.inv() by {
        if i != m {
            assert(post[i] == pre[i]);
        }
    }
    assert forall|i: int| 0 <= i < post.len() implies (#[trigger] post[i]).path@.absolute by {
        assert(post[i].path == pre[i].path);
    }
    assert forall|i: int, j: int| 0 <= i < j < post.len() implies (#[trigger] post[i]).id != (
    #[trigger] post[j]).id by {
        assert(post[i].id == pre[i].id && post[j].id == pre[j].id);
    }
    assert forall|i: int, j: int| 0 <= i < j < post.len() implies (#[trigger] post[i]).path@.parts
        != (#[trigger] post[j]).path@.parts by {
        assert(post[i].path == pre[i].path && post[j].path == pre[j].path);
    }
    assert forall|id: u32| mount_with_id(post, id) == mount_with_id(pre, id) by {
        lemma_same_ids(pre, post, id);
    }
}

/// Two consistent mount tables with the same identifiers in the same places
/// find the same mountpoint for an identifier.
pub proof fn lemma_same_ids<F: Filesystem>(pre: Seq<MountPoint<F>>, post: Seq<MountPoint<F>>, id: u32)
    requires
        pre.len() == post.len(),
        forall|i: int| 0 <= i < pre.len() ==> (#[trigger] post[i]).id == pre[i].id,
        forall|i: int, j: int|
            0 <= i < j < pre.len() ==> (#[trigger] pre[i]).id != (#[trigger] pre[j]).id,
    ensures
        mount_with_id(post, id) == mount_with_id(pre, id),
{
    if exists|i: int| 0 <= i < pre.len() && (#[trigger] pre[i]).id == id {
        let a = choose|i: int| 0 <= i < pre.len() && (#[trigger] pre[i]).id == id;
        assert(post[a].id == id);
        let b = choose|i: int| 0 <= i < post.len() && (#[trigger] post[i]).id == id;
        assert(pre[b].id == post[b].id);
        if a < b {
            assert(pre[a].id != pre[b].id);
        } else if b < a {
            assert(pre[b].id != pre[a].id);
        }
    } else {
        assert forall|i: int| 0 <= i < post.len() implies (#[trigger] post[i]).id != id by {
            assert(pre[i].id == post[i].id);
        }
    }
}

/// The place of the one virtual filesystem of a system. It starts empty and
/// is filled once, so that a use before the filesystem exists shows.
pub struct Instance<F: Filesystem> {
    /// The virtual filesystem, once it has been created.
    pub vfs: Option<VFS<F>>,
}

impl<F: Filesystem> Instance<F> {
    /// The virtual filesystem is consistent, if it has been created.
    pub open spec fn wf(&self) -> bool {
        self.vfs matches Some(vfs) ==> vfs.wf()
    }

    /// Creates the place, empty.
    pub fn new() -> (i: Self)
        ensures
            i.vfs is None,
            i.wf(),
    {
        Instance { vfs: None }
    }

    /// Tells whether the virtual filesystem has been created.
    pub fn is_initialized(&self) -> (b: bool)
        ensures
            b == self.vfs is Some,
    {
        self.vfs.is_some()
    }

    /// Creates the virtual filesystem, with nothing mounted. A virtual
    /// filesystem that exists already is left as it is.
    pub fn init(&mut self) -> (r: Result<(), Errno>)
        requires
            old(self).wf(),
        ensures
            final(self).wf(),
            final(self).vfs is Some,
            match r {
                Ok(_) => old(self).vfs is None && final(self).vfs->Some_0.mounts@.len() == 0
                    && final(self).vfs->Some_0.pool@.len() == 0,
                Err(e) => e == Errno::AlreadyExists && old(self).vfs is Some && *final(self) == *old(
                    self,
                ),
            },
    {
        if self.vfs.is_some() {
            return Err(Errno::AlreadyExists);
        }
        match VFS::new() {
            Ok(vfs) => {
                self.vfs = Some(vfs);
                Ok(())
            },
            Err(e) => Err(e),
        }
    }
}

/// Returns the virtual filesystem of the system, if it has been created.
pub fn get<F: Filesystem>(instance: &mut Instance<F>) -> (r: Option<&mut VFS<F>>)
    ensures
        match old(instance).vfs {
            None => final(instance).vfs is None && r is None,
            Some(vfs) => {
                &&& final(instance).vfs is Some
                &&& r is Some
                &&& *r.unwrap() == vfs
                &&& *final(r.unwrap()) == final(instance).vfs.unwrap()
            },
        },
{
    instance.vfs.as_mut()
}

} // verus!
