//! The work of the system calls that act on files, once their arguments have
//! been read from the memory of the calling process.

use vstd::prelude::*;
use crate::errno::Errno;
use crate::file::ContentView;
use crate::file::DirEntry;
use crate::file::DirEntryView;
use crate::file::entries_view;
use crate::file::File;
use crate::file::FileContent;
use crate::file::FileView;
use crate::file::Gid;
use crate::file::Mode;
use crate::file::Uid;
use crate::file::ROOT_UID;
use crate::filesystem::Filesystem;
use crate::mountpoint::MountPoint;
use crate::path::Path;
use crate::resolve::resolve;
use crate::resolve::resolve_spec;
use crate::vfs::remove_spec;
use crate::vfs::sync_spec;
use crate::vfs::VFS;

verus! {

/// The name of the entry of a directory that stands for the directory itself.
pub open spec fn dot() -> Seq<u8> {
    seq![46u8]
}

/// The name of the entry of a directory that stands for its parent.
pub open spec fn dot_dot() -> Seq<u8> {
    seq![46u8, 46u8]
}

/// Tells whether a directory with the entries `entries` holds anything:
/// an entry other than the one for itself and the one for its parent.
pub open spec fn holds_entries(entries: Seq<DirEntryView>) -> bool {
    exists|i: int|
        0 <= i < entries.len() && (#[trigger] entries[i]).name != dot() && entries[i].name
            != dot_dot()
}

/// Tells whether `name` is the name of the entry of a directory for itself
/// or for its parent.
pub fn is_dot_entry(name: &Vec<u8>) -> (b: bool)
    ensures
        b == (name@ == dot() || name@ == dot_dot()),
{
    if name.len() == 1 {
        assert(name@ == dot() <==> name@[0] == 46u8) by {
            if name@[0] == 46u8 {
                assert(name@ =~= dot());
            }
        }
        name[0] == 46u8
    } else if name.len() == 2 {
        assert(name@ == dot_dot() <==> (name@[0] == 46u8 && name@[1] == 46u8)) by {
            if name@[0] == 46u8 && name@[1] == 46u8 {
                assert(name@ =~= dot_dot());
            }
        }
        name[0] == 46u8 && name[1] == 46u8
    } else {
        false
    }
}

/// Tells whether a directory with the entries `entries` holds anything.
pub fn has_entries(entries: &Vec<DirEntry>) -> (b: bool)
    ensures
        b == holds_entries(entries_view(entries@)),
{
    let mut i: usize = 0;
    while i < entries.len()
        invariant
            i <= entries@.len(),
            forall|j: int|
                0 <= j < i ==> (#[trigger] entries_view(entries@)[j]).name == dot() || entries_view(
                    entries@,
                )[j].name == dot_dot(),
        decreases entries.len() - i,
    {
        if !is_dot_entry(&entries[i].name) {
            assert(entries_view(entries@)[i as int].name == entries@[i as int].name@);
            return true;
        }
        i += 1;
    }
    false
}

/// What changing the permissions of the file at the path made of `parts`
/// gives: the file has to resolve, with a symbolic link at the end followed,
/// and the caller has to be its owner or the superuser. The twelve
/// permission bits of `mode` are then written back to the filesystem.
pub open spec fn chmod_spec<F: Filesystem>(
    mounts: Seq<MountPoint<F>>,
    parts: Seq<Seq<u8>>,
    mode: Mode,
    uid: Uid,
    gid: Gid,
) -> Result<i32, Errno> {
    match resolve_spec(mounts, parts, uid, gid, true, 0) {
        Err(e) => Err(e),
        Ok(f) => if uid != ROOT_UID && uid != f.uid {
            Err(Errno::NotPermitted)
        } else {
            match sync_spec(mounts, FileView { mode: mode & 0o7777, ..f }) {
                Ok(_) => Ok(0i32),
                Err(e) => Err(e),
            }
        },
    }
}

/// Changes the permissions of the file at `path` to `mode`, for the caller
/// `uid`, `gid`.
#[verifier::spinoff_prover]
#[verifier::rlimit(50)]
pub fn chmod<F: Filesystem>(vfs: &mut VFS<F>, path: &Path, mode: Mode, uid: Uid, gid: Gid) -> (r:
    Result<i32, Errno>)
    requires
        old(vfs).wf(),
    ensures
        final(vfs).wf(),
        r == chmod_spec(old(vfs).mounts@, path@.parts, mode, uid, gid),
        match resolve_spec(old(vfs).mounts@, path@.parts, uid, gid, true, 0) {
            Ok(f) => if uid != ROOT_UID && uid != f.uid {
                *final(vfs) == *old(vfs)
            } else {
                VFS::synced(
                    old(vfs),
                    final(vfs),
                    FileView { mode: mode & 0o7777, ..f },
                    sync_spec(old(vfs).mounts@, FileView { mode: mode & 0o7777, ..f }),
                )
            },
            Err(_) => *final(vfs) == *old(vfs),
        },
{
    let mut file: File = match resolve(&vfs.mounts, path, uid, gid, true, 0) {
        Ok(file) => file,
        Err(e) => {
            return Err(e);
        },
    };
    if uid != ROOT_UID && uid != file.get_uid() {
        return Err(Errno::NotPermitted);
    }
    file.set_permissions(mode);
    match vfs.sync_file(&file) {
        Ok(_) => Ok(0),
        Err(e) => Err(e),
    }
}

/// What removing the directory at the path made of `parts` gives: the path
/// has to resolve, with a symbolic link at the end followed, to a directory,
/// which must hold nothing; the directory is then removed as any file is.
pub open spec fn rmdir_spec<F: Filesystem>(
    mounts: Seq<MountPoint<F>>,
    parts: Seq<Seq<u8>>,
    uid: Uid,
    gid: Gid,
) -> Result<i32, Errno> {
    match resolve_spec(mounts, parts, uid, gid, true, 0) {
        Err(e) => Err(e),
        Ok(f) => match f.content {
            ContentView::Directory(entries) => if holds_entries(entries) {
                Err(Errno::NotEmpty)
            } else {
                match remove_spec(mounts, f, uid, gid) {
                    Ok(_) => Ok(0i32),
                    Err(e) => Err(e),
                }
            },
            _ => Err(Errno::NotADirectory),
        },
    }
}

/// Removes the directory at `path` for the caller `uid`, `gid`. A directory
/// that holds an entry other than the one for itself and the one for its
/// parent is not removed.
#[verifier::spinoff_prover]
#[verifier::rlimit(50)]
pub fn rmdir<F: Filesystem>(vfs: &mut VFS<F>, path: &Path, uid: Uid, gid: Gid) -> (r: Result<
    i32,
    Errno,
>)
    requires
        old(vfs).wf(),
    ensures
        final(vfs).wf(),
        r == rmdir_spec(old(vfs).mounts@, path@.parts, uid, gid),
        match resolve_spec(old(vfs).mounts@, path@.parts, uid, gid, true, 0) {
            Ok(f) => match f.content {
                ContentView::Directory(entries) => if holds_entries(entries) {
                    *final(vfs) == *old(vfs)
                } else {
                    VFS::removed(
                        old(vfs),
                        final(vfs),
                        f,
                        uid,
                        gid,
                        remove_spec(old(vfs).mounts@, f, uid, gid),
                    )
                },
                _ => *final(vfs) == *old(vfs),
            },
            Err(_) => *final(vfs) == *old(vfs),
        },
{
    let file: File = match resolve(&vfs.mounts, path, uid, gid, true, 0) {
        Ok(file) => file,
        Err(e) => {
            return Err(e);
        },
    };
    match file.get_file_content() {
        FileContent::Directory(entries) => {
            if has_entries(entries) {
                return Err(Errno::NotEmpty);
            }
        },
        _ => {
            return Err(Errno::NotADirectory);
        },
    }
    match vfs.remove_file(&file, uid, gid) {
        Ok(_) => Ok(0),
        Err(e) => Err(e),
    }
}

} // verus!
