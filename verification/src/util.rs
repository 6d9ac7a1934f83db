//! Operations on whole trees of files, built on the virtual filesystem.

use vstd::prelude::*;
use crate::bytes::bytes_clone;
use crate::bytes::bytes_prefix;
use crate::file::FileLocation;
use crate::vfs::data_of;
use crate::vfs::mount_of;
use crate::vfs::lemma_changed_wf;
use crate::errno::Errno;
use crate::file::DirEntry;
use crate::file::File;
use crate::file::FileContent;
use crate::file::Gid;
use crate::file::Uid;
use crate::file::ROOT_GID;
use crate::file::ROOT_UID;
use crate::filesystem::written;
use crate::filesystem::Filesystem;
use crate::mountpoint::MountPoint;
use crate::path::Path;
use crate::path::PATH_MAX;
use crate::resolve::resolve;
use crate::syscall::is_dot_entry;
use crate::file::ContentView;
use crate::resolve::resolve_spec;
use crate::vfs::create_spec;
use crate::vfs::effective_gid;
use crate::vfs::created;
use crate::vfs::mounts_agree;
use crate::file::entries_view;
use crate::file::file_result_view;
use crate::file::DirEntryView;
use crate::file::FileView;
use crate::syscall::dot;
use crate::syscall::dot_dot;
use crate::vfs::from_parent_spec;
use crate::vfs::remove_spec;
use crate::vfs::VFS;

verus! {

/// The permissions of the directories that `create_dirs` creates.
pub const CREATED_DIR_MODE: u32 = 0o755;

/// Tells whether two mount tables have the same mountpoints at the same
/// paths, whatever their filesystems hold.
pub open spec fn same_mountpoints<F: Filesystem>(
    pre: Seq<MountPoint<F>>,
    post: Seq<MountPoint<F>>,
) -> bool {
    &&& pre.len() == post.len()
    &&& forall|i: int|
        0 <= i < pre.len() ==> (#[trigger] post[i]).id == pre[i].id && post[i].path == pre[i].path
            && post[i].readonly == pre[i].readonly
}

/// Tells whether `post` is a virtual filesystem that operations on files
/// can have made of `pre`: it is consistent and has the same mountpoints,
/// and the same room in its pool.
pub open spec fn evolved<F: Filesystem>(pre: &VFS<F>, post: &VFS<F>) -> bool {
    &&& post.wf()
    &&& same_mountpoints(pre.mounts@, post.mounts@)
    &&& post.next_mount_id == pre.next_mount_id
    &&& post.pool.capacity == pre.pool.capacity
}

/// What comes of one component of the path that `create_dirs` works on.
pub enum DirStep {
    /// The parent did not resolve, or the directory existed: nothing was done.
    Passed,
    /// The directory was created.
    Created,
    /// The creation failed with this error.
    Failed(Errno),
}

/// What comes of the component `name` after the components `prefix`, on the
/// mount table `pre`: the parent is resolved as the superuser, and the
/// directory is created in it with the permissions `CREATED_DIR_MODE`.
pub open spec fn dir_step<F: Filesystem>(
    pre: Seq<MountPoint<F>>,
    prefix: Seq<Seq<u8>>,
    name: Seq<u8>,
) -> DirStep {
    match resolve_spec(pre, prefix, ROOT_UID, ROOT_GID, true, 0) {
        Err(_) => DirStep::Passed,
        Ok(parent) => match create_spec(
            pre,
            parent,
            name,
            ROOT_UID,
            ROOT_GID,
            CREATED_DIR_MODE,
            ContentView::Directory(Seq::empty()),
        ) {
            Ok(_) => DirStep::Created,
            Err(e) => if e == Errno::AlreadyExists {
                DirStep::Passed
            } else {
                DirStep::Failed(e)
            },
        },
    }
}

/// Tells whether `post` is the mount table that the step for the component
/// `name` after the components `prefix` has made of `pre`: the table with the
/// new directory if one was created, and else a table that agrees with `pre`.
pub open spec fn dir_stepped<F: Filesystem>(
    pre: Seq<MountPoint<F>>,
    post: Seq<MountPoint<F>>,
    prefix: Seq<Seq<u8>>,
    name: Seq<u8>,
) -> bool {
    match dir_step(pre, prefix, name) {
        DirStep::Created => created(
            pre,
            post,
            resolve_spec(pre, prefix, ROOT_UID, ROOT_GID, true, 0)->Ok_0,
            name,
            ROOT_UID,
            ROOT_GID,
            CREATED_DIR_MODE,
            ContentView::Directory(Seq::empty()),
        ),
        _ => mounts_agree(pre, post),
    }
}

/// The number of directories created in the first `n` steps of a run of
/// `create_dirs` on the path made of `parts` that went through the mount
/// tables `trace`.
pub open spec fn dirs_created<F: Filesystem>(
    trace: Seq<Seq<MountPoint<F>>>,
    parts: Seq<Seq<u8>>,
    n: nat,
) -> nat
    decreases n,
{
    if n == 0 {
        0
    } else {
        dirs_created(trace, parts, (n - 1) as nat) + if dir_step(
            trace[n - 1],
            parts.take(n - 1),
            parts[n - 1],
        ) is Created {
            1nat
        } else {
            0nat
        }
    }
}

/// Tells whether `trace` is the run of `create_dirs` on the path made of
/// `parts` that gave `r`: the mount tables before each step and after the
/// last one. Each step works on the table that the step before it left; a
/// step that fails is the last one, and its error is the result; else every
/// component has its step, and the result is the number of directories created.
pub open spec fn dirs_run<F: Filesystem>(
    trace: Seq<Seq<MountPoint<F>>>,
    parts: Seq<Seq<u8>>,
    r: Result<usize, Errno>,
) -> bool {
    let steps = trace.len() - 1;
    &&& 1 <= trace.len() <= parts.len() + 1
    &&& forall|i: int|
        0 <= i < steps ==> #[trigger] dir_stepped(trace[i], trace[i + 1], parts.take(i), parts[i])
    &&& forall|i: int|
        0 <= i < steps - 1 ==> !(#[trigger] dir_step(trace[i], parts.take(i), parts[i]) is Failed)
    &&& match r {
        Ok(n) => steps == parts.len() && n == dirs_created(trace, parts, steps as nat) && (steps
            > 0 ==> !(dir_step(trace[steps - 1], parts.take(steps - 1), parts[steps - 1])
            is Failed)),
        Err(e) => steps >= 1 && dir_step(
            trace[steps - 1],
            parts.take(steps - 1),
            parts[steps - 1],
        ) == DirStep::Failed(e),
    }
}

/// Creates the directories on the way to `path` that do not exist yet, the
/// last component of the path included, as the superuser. A relative path is
/// taken from the root. Returns the number of directories created.
///
/// A component whose parent does not resolve is passed over. The first
/// failure to create a directory that does not exist yet ends the operation.
#[verifier::spinoff_prover]
#[verifier::rlimit(100)]
pub fn create_dirs<F: Filesystem>(vfs: &mut VFS<F>, path: &Path) -> (r: Result<usize, Errno>)
    requires
        old(vfs).wf(),
    ensures
        evolved(old(vfs), final(vfs)),
        final(vfs).named_pipes == old(vfs).named_pipes,
        final(vfs).named_sockets == old(vfs).named_sockets,
        exists|trace: Seq<Seq<MountPoint<F>>>|
            #![trigger dirs_run(trace, path@.parts, r)]
            trace.len() >= 1 && trace[0] == old(vfs).mounts@ && trace.last() == final(vfs).mounts@
                && dirs_run(trace, path@.parts, r),
        r matches Ok(n) ==> n <= path@.parts.len(),
        r matches Err(e) ==> e != Errno::AlreadyExists,
{
    let n: usize = path.get_elements_count();
    let mut p: Path = Path::root();
    let mut created_count: usize = 0;
    let mut i: usize = 0;
    let ghost parts = path@.parts;
    let ghost mut trace: Seq<Seq<MountPoint<F>>> = seq![vfs.mounts@];
    while i < n
        invariant
            i <= n,
            n == parts.len(),
            parts == path@.parts,
            created_count <= i,
            evolved(old(vfs), vfs),
            vfs.named_pipes == old(vfs).named_pipes,
            vfs.named_sockets == old(vfs).named_sockets,
            p@.parts == parts.take(i as int),
            trace.len() == i + 1,
            trace[0] == old(vfs).mounts@,
            trace.last() == vfs.mounts@,
            forall|j: int|
                0 <= j < i ==> #[trigger] dir_stepped(trace[j], trace[j + 1], parts.take(j), parts[j]),
            forall|j: int|
                0 <= j < i ==> !(#[trigger] dir_step(trace[j], parts.take(j), parts[j]) is Failed),
            created_count == dirs_created(trace, parts, i as nat),
        decreases n - i,
    {
        let name: Vec<u8> = bytes_clone(path.get(i));
        let ghost before = vfs.mounts@;
        let ghost earlier = trace;
        let mut failure: Option<Errno> = None;
        match resolve(&vfs.mounts, &p, ROOT_UID, ROOT_GID, true, 0) {
            Ok(mut parent) => {
                match vfs.create_file(
                    &mut parent,
                    bytes_clone(&name),
                    ROOT_UID,
                    ROOT_GID,
                    CREATED_DIR_MODE,
                    FileContent::Directory(Vec::new()),
                ) {
                    Ok(_) => {
                        created_count += 1;
                    },
                    Err(e) => {
                        if e != Errno::AlreadyExists {
                            failure = Some(e);
                        }
                    },
                }
            },
            Err(_) => {
                proof {
                    lemma_agree_refl(before);
                }
            },
        }
        proof {
            assert(crate::file::entries_view(Seq::<crate::file::DirEntry>::empty())
                =~= Seq::<crate::file::DirEntryView>::empty());
            trace = trace.push(vfs.mounts@);
            assert(dir_stepped(before, vfs.mounts@, parts.take(i as int), parts[i as int]));
            assert forall|j: int| 0 <= j < i + 1 implies #[trigger] dir_stepped(
                trace[j],
                trace[j + 1],
                parts.take(j),
                parts[j],
            ) by {
                if j < i {
                    assert(trace[j] == earlier[j] && trace[j + 1] == earlier[j + 1]);
                    assert(dir_stepped(earlier[j], earlier[j + 1], parts.take(j), parts[j]));
                }
            }
            assert forall|j: int| 0 <= j < i implies !(#[trigger] dir_step(
                trace[j],
                parts.take(j),
                parts[j],
            ) is Failed) by {
                assert(trace[j] == earlier[j]);
                assert(!(dir_step(earlier[j], parts.take(j), parts[j]) is Failed));
            }
            lemma_dirs_created_prefix(earlier, trace, parts, i as nat);
        }
        match failure {
            Some(e) => {
                assert(dirs_run(trace, parts, Err::<usize, Errno>(e)));
                return Err(e);
            },
            None => {},
        }
        proof {
            assert(parts.take(i + 1) =~= parts.take(i as int).push(parts[i as int]));
        }
        p.push(name);
        i += 1;
    }
    proof {
        assert(dirs_run(trace, parts, Ok::<usize, Errno>(created_count)));
    }
    Ok(created_count)
}

/// A mount table agrees with itself.
pub proof fn lemma_agree_refl<F: Filesystem>(mounts: Seq<MountPoint<F>>)
    ensures
        mounts_agree(mounts, mounts),
{
    assert forall|i: int| 0 <= i < mounts.len() implies crate::filesystem::same_files(
        &(#[trigger] mounts[i]).fs,
        &mounts[i].fs,
    ) by {
        crate::vfs::lemma_same_files_refl(&mounts[i].fs);
    }
}

/// The count of the directories created in the first steps of a run does
/// not depend on the steps after them.
pub proof fn lemma_dirs_created_prefix<F: Filesystem>(
    shorter: Seq<Seq<MountPoint<F>>>,
    longer: Seq<Seq<MountPoint<F>>>,
    parts: Seq<Seq<u8>>,
    n: nat,
)
    requires
        n <= shorter.len() <= longer.len(),
        forall|j: int| 0 <= j < shorter.len() ==> #[trigger] longer[j] == shorter[j],
    ensures
        dirs_created(longer, parts, n) == dirs_created(shorter, parts, n),
    decreases n,
{
    if n > 0 {
        lemma_dirs_created_prefix(shorter, longer, parts, (n - 1) as nat);
        assert(longer[n - 1] == shorter[n - 1]);
    }
}

/// Tells whether `post` and `r` are what removing the file `file` with what
/// it holds, to the depth `depth` at most, has made of `pre` and has given.
///
/// A file that is no directory is removed as any file is. A directory at the
/// depth where the operation stops is refused as too deep. Else the entries of
/// the directory are dealt with in their order, and then the directory itself
/// is removed as any file is.
pub open spec fn tree_removed<F: Filesystem>(
    pre: VFS<F>,
    post: VFS<F>,
    file: FileView,
    uid: Uid,
    gid: Gid,
    depth: nat,
    r: Result<(), Errno>,
) -> bool
    decreases depth, 2nat,
{
    match file.content {
        ContentView::Directory(entries) => if depth == 0 {
            post == pre && r == Err::<(), Errno>(Errno::NameTooLong)
        } else {
            exists|states: Seq<VFS<F>>, results: Seq<Result<(), Errno>>| #[trigger]
                run_from(states, results, pre) && entries_removed(
                    states,
                    results,
                    pre,
                    post,
                    file,
                    entries,
                    uid,
                    gid,
                    depth,
                    r,
                )
        },
        _ => r == remove_spec(pre.mounts@, file, uid, gid) && VFS::removed(
            &pre,
            &post,
            file,
            uid,
            gid,
            r,
        ),
    }
}

/// Tells whether `states` and `results` have the shape of a run from the
/// state `pre`: one state before each step, with `pre` as the first, and one
/// more after the last step.
pub open spec fn run_from<F: Filesystem>(
    states: Seq<VFS<F>>,
    results: Seq<Result<(), Errno>>,
    pre: VFS<F>,
) -> bool {
    states.len() == results.len() + 1 && states[0] == pre
}

/// Tells whether `states` and `results` are the run over the entries
/// `entries` of the directory `dir` that has made `post` of `pre` and given
/// `r`: the states before each entry and after the last one dealt with, and
/// what dealing with each gave.
///
/// Each entry is dealt with on the state that the one before it left. An
/// entry that fails is the last one, and its error is the result. Else every
/// entry is dealt with, and the directory is removed as any file is.
pub open spec fn entries_removed<F: Filesystem>(
    states: Seq<VFS<F>>,
    results: Seq<Result<(), Errno>>,
    pre: VFS<F>,
    post: VFS<F>,
    dir: FileView,
    entries: Seq<DirEntryView>,
    uid: Uid,
    gid: Gid,
    depth: nat,
    r: Result<(), Errno>,
) -> bool
    decreases depth, 1nat,
{
    let k = results.len() as int;
    &&& depth > 0
    &&& states.len() == k + 1
    &&& k <= entries.len()
    &&& states[0] == pre
    &&& forall|j: int|
        0 <= j < k ==> entry_removed(
            states[j],
            states[j + 1],
            dir,
            entries[j],
            uid,
            gid,
            depth,
            #[trigger] results[j],
        )
    &&& forall|j: int| 0 <= j < k - 1 ==> (#[trigger] results[j]) is Ok
    &&& if k > 0 && results[k - 1] is Err {
        r == results[k - 1] && post == states[k]
    } else {
        &&& k == entries.len()
        &&& r == remove_spec(states[k].mounts@, dir, uid, gid)
        &&& VFS::removed(&states[k], &post, dir, uid, gid, r)
    }
}

/// Tells whether `post` and `r` are what dealing with the entry `entry` of the
/// directory `dir` has made of `pre` and has given.
///
/// The entries of a directory for itself and for its parent are passed over.
/// Another entry is looked up in the directory, without following a symbolic
/// link; a failure to find it is the result, and what is found is removed with
/// what it holds, one level deeper.
pub open spec fn entry_removed<F: Filesystem>(
    pre: VFS<F>,
    post: VFS<F>,
    dir: FileView,
    entry: DirEntryView,
    uid: Uid,
    gid: Gid,
    depth: nat,
    r: Result<(), Errno>,
) -> bool
    decreases depth, 0nat,
{
    if entry.name == dot() || entry.name == dot_dot() {
        post == pre && r is Ok
    } else {
        match from_parent_spec(pre.mounts@, dir, entry.name, uid, gid, false) {
            Err(e) => post == pre && r == Err::<(), Errno>(e),
            Ok(sub) => depth > 0 && tree_removed(pre, post, sub, uid, gid, (depth - 1) as nat, r),
        }
    }
}

/// Removes the file `file` for the caller `uid`, `gid`, and, if it is a
/// directory, first what it holds, to the depth `depth` at most.
#[verifier::spinoff_prover]
#[verifier::rlimit(100)]
fn remove_tree<F: Filesystem>(vfs: &mut VFS<F>, file: &File, uid: Uid, gid: Gid, depth: usize) -> (r:
    Result<(), Errno>)
    requires
        old(vfs).wf(),
    ensures
        evolved(old(vfs), final(vfs)),
        tree_removed(*old(vfs), *final(vfs), file@, uid, gid, depth as nat, r),
    decreases depth,
{
    match file.get_file_content() {
        FileContent::Directory(entries) => {
            if depth == 0 {
                return Err(Errno::NameTooLong);
            }
            let ghost all = entries_view(entries@);
            let ghost mut states: Seq<VFS<F>> = seq![*vfs];
            let ghost mut results: Seq<Result<(), Errno>> = Seq::empty();
            let mut i: usize = 0;
            while i < entries.len()
                invariant
                    i <= entries@.len(),
                    depth > 0,
                    all == entries_view(entries@),
                    file@.content == ContentView::Directory(all),
                    evolved(old(vfs), vfs),
                    states.len() == i + 1,
                    results.len() == i,
                    states[0] == *old(vfs),
                    states[i as int] == *vfs,
                    forall|j: int|
                        0 <= j < i ==> (#[trigger] results[j]) is Ok && entry_removed(
                            states[j],
                            states[j + 1],
                            file@,
                            all[j],
                            uid,
                            gid,
                            depth as nat,
                            results[j],
                        ),
                decreases entries.len() - i,
            {
                let entry: &DirEntry = &entries[i];
                let ghost before = *vfs;
                let ghost earlier = states;
                let ghost given = results;
                let mut outcome: Result<(), Errno> = Ok(());
                if !is_dot_entry(&entry.name) {
                    match vfs.get_file_from_parent(file, bytes_clone(&entry.name), uid, gid, false) {
                        Ok(subfile) => {
                            outcome = remove_tree(vfs, &subfile, uid, gid, depth - 1);
                        },
                        Err(e) => {
                            outcome = Err(e);
                        },
                    }
                }
                proof {
                    assert(all[i as int].name == entry.name@);
                    assert(entry_removed(
                        before,
                        *vfs,
                        file@,
                        all[i as int],
                        uid,
                        gid,
                        depth as nat,
                        outcome,
                    ));
                    states = states.push(*vfs);
                    results = results.push(outcome);
                    assert forall|j: int| 0 <= j < i + 1 implies entry_removed(
                        states[j],
                        states[j + 1],
                        file@,
                        all[j],
                        uid,
                        gid,
                        depth as nat,
                        #[trigger] results[j],
                    ) by {
                        if j < i {
                            assert(states[j] == earlier[j] && states[j + 1] == earlier[j + 1]);
                            assert(results[j] == given[j]);
                        }
                    }
                    assert forall|j: int| 0 <= j < i implies (#[trigger] results[j]) is Ok by {
                        assert(results[j] == given[j]);
                    }
                    assert(states[0] == earlier[0]);
                    assert(states[i + 1] == *vfs);
                    assert(results[i as int] == outcome);
                    assert(states.len() == i + 2);
                    assert(results.len() == i + 1);
                }
                match outcome {
                    Err(e) => {
                        proof {
                            assert(run_from(states, results, *old(vfs)));
                            assert(entries_removed(
                                states,
                                results,
                                *old(vfs),
                                *vfs,
                                file@,
                                all,
                                uid,
                                gid,
                                depth as nat,
                                Err::<(), Errno>(e),
                            ));
                            assert(tree_removed(
                                *old(vfs),
                                *vfs,
                                file@,
                                uid,
                                gid,
                                depth as nat,
                                Err::<(), Errno>(e),
                            ));
                        }
                        return Err(e);
                    },
                    Ok(_) => {},
                }
                i += 1;
            }
            let r = vfs.remove_file(file, uid, gid);
            proof {
                assert(run_from(states, results, *old(vfs)));
                assert(entries_removed(
                    states,
                    results,
                    *old(vfs),
                    *vfs,
                    file@,
                    all,
                    uid,
                    gid,
                    depth as nat,
                    r,
                ));
                assert(tree_removed(*old(vfs), *vfs, file@, uid, gid, depth as nat, r));
            }
            r
        },
        _ => vfs.remove_file(file, uid, gid),
    }
}

/// Removes the file `file` for the caller `uid`, `gid`. If it is a directory,
/// what it holds is removed first, entry by entry; the entries of a directory
/// for itself and for its parent are passed over. The first failure ends the
/// operation, and what was removed until then stays removed. A tree deeper
/// than a path can be long is refused where it gets too deep.
pub fn remove_recursive<F: Filesystem>(vfs: &mut VFS<F>, file: &File, uid: Uid, gid: Gid) -> (r:
    Result<(), Errno>)
    requires
        old(vfs).wf(),
    ensures
        evolved(old(vfs), final(vfs)),
        tree_removed(*old(vfs), *final(vfs), file@, uid, gid, PATH_MAX as nat, r),
{
    remove_tree(vfs, file, uid, gid, PATH_MAX)
}

/// The number of bytes that a copy of a file moves at a time.
pub const COPY_CHUNK: usize = 4096;

/// Tells whether a file holds the first `n` bytes of `data`.
pub open spec fn holds_first(held: Result<Seq<u8>, Errno>, data: Seq<u8>, n: int) -> bool {
    held == Ok::<Seq<u8>, Errno>(data.take(n))
}

/// Tells whether `post` and `r` are what copying the bytes of the file at
/// `from` into the empty file at `to` has made of `pre` and has given.
///
/// Nothing changes but the bytes of the file at `to`. Bytes that cannot be
/// read are the error, and nothing is written. Else the bytes are written in
/// their order: once all are written, the file at `to` holds what the file at
/// `from` holds; a write that the driver refuses, or of which it takes
/// nothing, ends the copy with an error, and the file at `to` holds the
/// bytes written until then.
pub open spec fn bytes_copied<F: Filesystem>(
    pre: VFS<F>,
    post: VFS<F>,
    from: FileLocation,
    to: FileLocation,
    r: Result<(), Errno>,
) -> bool {
    &&& VFS::bytes_changed(&pre, &post, to)
    &&& match data_of(pre.mounts@, from) {
        Err(e) => post == pre && r == Err::<(), Errno>(e),
        Ok(data) => {
            &&& data_of(post.mounts@, from) == Ok::<Seq<u8>, Errno>(data)
            &&& match r {
                Ok(_) => data_of(post.mounts@, to) == Ok::<Seq<u8>, Errno>(data),
                Err(_) => exists|n: int|
                    0 <= n < data.len() && #[trigger] holds_first(data_of(post.mounts@, to), data, n),
            }
        },
    }
}

/// Copies the bytes of the file `from` into the file `to`, which is empty.
#[verifier::spinoff_prover]
#[verifier::rlimit(100)]
fn copy_bytes<F: Filesystem>(vfs: &mut VFS<F>, from: &File, to: &File) -> (r: Result<(), Errno>)
    requires
        old(vfs).wf(),
        data_of(old(vfs).mounts@, to@.location) == Ok::<Seq<u8>, Errno>(Seq::empty()),
    ensures
        final(vfs).wf(),
        bytes_copied(*old(vfs), *final(vfs), from@.location, to@.location, r),
{
    let mut buff: Vec<u8> = Vec::new();
    while buff.len() < COPY_CHUNK
        invariant
            buff@.len() <= COPY_CHUNK,
        decreases COPY_CHUNK - buff.len(),
    {
        buff.push(0u8);
    }
    let ghost source = data_of(vfs.mounts@, from@.location);
    let ghost target = to@.location;
    let mut offset: u64 = 0;
    let mut going: bool = true;
    let mut result: Result<(), Errno> = Ok(());
    proof {
        if source is Ok {
            assert(source->Ok_0.take(0) =~= Seq::<u8>::empty());
            let m = mount_of(vfs.mounts@, from@.location)->Some_0;
            vfs.mounts@[m].fs.lemma_data_fits(from@.location->inode);
        }
        if mount_of(vfs.mounts@, target) is Some {
            let m = mount_of(vfs.mounts@, target)->Some_0;
            crate::vfs::lemma_same_files_refl(&vfs.mounts@[m].fs);
            assert(crate::vfs::mounts_changed_at(vfs.mounts@, vfs.mounts@, m));
        }
    }
    while going
        invariant
            vfs.wf(),
            old(vfs).wf(),
            buff@.len() == COPY_CHUNK,
            target == to@.location,
            VFS::bytes_changed(old(vfs), vfs, target),
            source == data_of(old(vfs).mounts@, from@.location),
            source is Err && going ==> *vfs == *old(vfs),
            source matches Ok(data) ==> offset <= data.len() <= u64::MAX && data_of(
                vfs.mounts@,
                target,
            ) == Ok::<Seq<u8>, Errno>(data.take(offset as int)) && data_of(
                vfs.mounts@,
                from@.location,
            ) == Ok::<Seq<u8>, Errno>(data),
            !going ==> bytes_copied(*old(vfs), *vfs, from@.location, target, result),
        decreases
                (if going {
                    1 + (match source {
                        Ok(data) => data.len() - offset,
                        Err(_) => 0,
                    })
                } else {
                    0
                }),
    {
        let ghost before = *vfs;
        match vfs.read_content(from, offset, &mut buff) {
            Err(e) => {
                result = Err(e);
                going = false;
            },
            Ok((len, _)) => {
                if len == 0 {
                    proof {
                        let data = source->Ok_0;
                        assert(data.take(offset as int) =~= data);
                    }
                    result = Ok(());
                    going = false;
                } else {
                    let piece: Vec<u8> = bytes_prefix(&buff, len as usize);
                    let taken: Result<u64, Errno> = vfs.write_content(to, offset, &piece);
                    proof {
                        let data = source->Ok_0;
                        VFS::lemma_bytes_changed_twice(old(vfs), &before, vfs, target);
                        assert(piece@ =~= data.subrange(offset as int, offset + len));
                        assert(from@.location != target) by {
                            if from@.location == target {
                                assert(data.take(offset as int).len() == data.len());
                            }
                        }
                        assert(data_of(vfs.mounts@, from@.location) == Ok::<Seq<u8>, Errno>(data)) by {
                            let m = mount_of(before.mounts@, target)->Some_0;
                            lemma_changed_wf(before.mounts@, vfs.mounts@, m);
                            if mount_of(before.mounts@, from@.location) == Some(m) {
                                crate::vfs::lemma_mount_of_id(before.mounts@, m);
                                assert(from@.location->inode != target->inode);
                            }
                        }
                        if taken is Ok {
                            let n = taken->Ok_0;
                            assert(written(
                                data.take(offset as int),
                                offset as int,
                                piece@.take(n as int),
                            ) =~= data.take(offset + n));
                        }
                    }
                    match taken {
                        Err(e) => {
                            proof {
                                assert(holds_first(
                                    data_of(vfs.mounts@, target),
                                    source->Ok_0,
                                    offset as int,
                                ));
                            }
                            result = Err(e);
                            going = false;
                        },
                        Ok(n) => {
                            if n == 0 {
                                proof {
                                    assert(source->Ok_0.take(offset + 0) =~= source->Ok_0.take(
                                        offset as int,
                                    ));
                                    assert(holds_first(
                                        data_of(vfs.mounts@, target),
                                        source->Ok_0,
                                        offset as int,
                                    ));
                                }
                                result = Err(Errno::NoSpace);
                                going = false;
                            } else {
                                offset = offset + n;
                            }
                        },
                    }
                }
            },
        }
    }
    result
}

/// The result of an operation whose value is of no interest.
pub open spec fn without_value(r: Result<FileView, Errno>) -> Result<(), Errno> {
    match r {
        Ok(_) => Ok(()),
        Err(e) => Err(e),
    }
}

/// Tells whether `post`, `parent_post` and `r` are what copying the regular
/// file `source` into the directory `parent_pre` under the name `name` has
/// made of `pre` and of the directory and has given, where `mid` is the state
/// after the creation of the copy: a creation that fails is the result, and
/// else the bytes of `source` are copied into the new file.
pub open spec fn regular_copied<F: Filesystem>(
    pre: VFS<F>,
    mid: VFS<F>,
    post: VFS<F>,
    source: FileView,
    parent_pre: FileView,
    parent_post: FileView,
    name: Seq<u8>,
    r: Result<(), Errno>,
) -> bool {
    let made = create_spec(
        pre.mounts@,
        parent_pre,
        name,
        source.uid,
        source.gid,
        source.mode,
        ContentView::Regular,
    );
    &&& VFS::file_created(
        &pre,
        &mid,
        parent_pre,
        parent_post,
        name,
        source.uid,
        source.gid,
        source.mode,
        ContentView::Regular,
        made,
    )
    &&& match made {
        Err(e) => post == mid && r == Err::<(), Errno>(e),
        Ok(copy) => bytes_copied(mid, post, source.location, copy.location, r),
    }
}

/// Tells whether `states`, `dirs` and `results` have the shape of a run of
/// copies into a directory: one state and one view of the directory before
/// each step, and one more of each after the last step.
pub open spec fn copies_run<F: Filesystem>(
    states: Seq<VFS<F>>,
    dirs: Seq<FileView>,
    results: Seq<Result<(), Errno>>,
) -> bool {
    states.len() == results.len() + 1 && dirs.len() == states.len()
}

/// Tells whether `post`, `parent_post` and `r` are what copying the file
/// `source` into the directory `parent_pre` under the name `name`, with what
/// it holds, to the depth `depth` at most, has made of `pre` and of the
/// directory and has given.
///
/// The copy is created with the owner, the group and the permissions of
/// `source`, acting as that owner. A regular file is created empty and
/// filled with the bytes of `source`. Another file that is no directory is
/// copied by its creation. A directory at the depth where the operation stops is refused
/// as too deep. Else the copy of the directory is created empty, and the
/// entries of the directory are copied into it in their order.
pub open spec fn tree_copied<F: Filesystem>(
    pre: VFS<F>,
    post: VFS<F>,
    source: FileView,
    parent_pre: FileView,
    parent_post: FileView,
    name: Seq<u8>,
    depth: nat,
    r: Result<(), Errno>,
) -> bool
    decreases depth, 2nat,
{
    match source.content {
        ContentView::Directory(entries) => if depth == 0 {
            post == pre && parent_post == parent_pre && r == Err::<(), Errno>(Errno::NameTooLong)
        } else {
            exists|states: Seq<VFS<F>>, dirs: Seq<FileView>, results: Seq<Result<(), Errno>>|
                #[trigger] copies_run(states, dirs, results) && entries_copied(
                    states,
                    dirs,
                    results,
                    pre,
                    post,
                    source,
                    entries,
                    parent_pre,
                    parent_post,
                    name,
                    depth,
                    r,
                )
        },
        ContentView::Regular => exists|mid: VFS<F>| #[trigger]
            regular_copied(pre, mid, post, source, parent_pre, parent_post, name, r),
        _ => {
            let made = create_spec(
                pre.mounts@,
                parent_pre,
                name,
                source.uid,
                source.gid,
                source.mode,
                source.content,
            );
            &&& r == without_value(made)
            &&& VFS::file_created(
                &pre,
                &post,
                parent_pre,
                parent_post,
                name,
                source.uid,
                source.gid,
                source.mode,
                source.content,
                made,
            )
        },
    }
}

/// Tells whether `states`, `dirs` and `results` are the run that copied the
/// directory `source` with its entries `entries`: the copy is created empty,
/// which makes the first state and the first view of the copy, and each entry
/// is copied into the copy as the entry before it left it. A creation that
/// fails is the result. An entry that fails is the last one, and its error is
/// the result. Else every entry is copied.
pub open spec fn entries_copied<F: Filesystem>(
    states: Seq<VFS<F>>,
    dirs: Seq<FileView>,
    results: Seq<Result<(), Errno>>,
    pre: VFS<F>,
    post: VFS<F>,
    source: FileView,
    entries: Seq<DirEntryView>,
    parent_pre: FileView,
    parent_post: FileView,
    name: Seq<u8>,
    depth: nat,
    r: Result<(), Errno>,
) -> bool
    decreases depth, 1nat,
{
    let k = results.len() as int;
    let made = create_spec(
        pre.mounts@,
        parent_pre,
        name,
        source.uid,
        source.gid,
        source.mode,
        ContentView::Directory(Seq::empty()),
    );
    &&& depth > 0
    &&& copies_run(states, dirs, results)
    &&& k <= entries.len()
    &&& VFS::file_created(
        &pre,
        &states[0],
        parent_pre,
        parent_post,
        name,
        source.uid,
        source.gid,
        source.mode,
        ContentView::Directory(Seq::empty()),
        made,
    )
    &&& post == states[k]
    &&& match made {
        Err(e) => k == 0 && r == Err::<(), Errno>(e),
        Ok(copy) => {
            &&& dirs[0] == copy
            &&& forall|j: int|
                0 <= j < k ==> entry_copied(
                    states[j],
                    states[j + 1],
                    source,
                    entries[j],
                    dirs[j],
                    dirs[j + 1],
                    depth,
                    #[trigger] results[j],
                )
            &&& forall|j: int| 0 <= j < k - 1 ==> (#[trigger] results[j]) is Ok
            &&& if k > 0 && results[k - 1] is Err {
                r == results[k - 1]
            } else {
                k == entries.len() && r is Ok
            }
        },
    }
}

/// Tells whether `post`, `copy_post` and `r` are what copying the entry
/// `entry` of the directory `source` into the directory `copy_pre` has made of
/// `pre` and of that directory and has given.
///
/// The entries of a directory for itself and for its parent are passed over.
/// Another entry is looked up in `source` as its owner, without following a
/// symbolic link; a failure to find it is the result, and what is found is
/// copied under its name with what it holds, one level deeper.
pub open spec fn entry_copied<F: Filesystem>(
    pre: VFS<F>,
    post: VFS<F>,
    source: FileView,
    entry: DirEntryView,
    copy_pre: FileView,
    copy_post: FileView,
    depth: nat,
    r: Result<(), Errno>,
) -> bool
    decreases depth, 0nat,
{
    if entry.name == dot() || entry.name == dot_dot() {
        post == pre && copy_post == copy_pre && r is Ok
    } else {
        match from_parent_spec(pre.mounts@, source, entry.name, source.uid, source.gid, false) {
            Err(e) => post == pre && copy_post == copy_pre && r == Err::<(), Errno>(e),
            Ok(sub) => depth > 0 && tree_copied(
                pre,
                post,
                sub,
                copy_pre,
                copy_post,
                entry.name,
                (depth - 1) as nat,
                r,
            ),
        }
    }
}

/// Copies the file `source` into the directory `new_parent` under the name
/// `new_name`, and, if it is a directory, what it holds, to the depth `depth`
/// at most.
#[verifier::spinoff_prover]
#[verifier::rlimit(100)]
fn copy_tree<F: Filesystem>(
    vfs: &mut VFS<F>,
    source: &File,
    new_parent: &mut File,
    new_name: Vec<u8>,
    depth: usize,
) -> (r: Result<(), Errno>)
    requires
        old(vfs).wf(),
    ensures
        evolved(old(vfs), final(vfs)),
        final(vfs).named_pipes == old(vfs).named_pipes,
        final(vfs).named_sockets == old(vfs).named_sockets,
        tree_copied(
            *old(vfs),
            *final(vfs),
            source@,
            old(new_parent)@,
            final(new_parent)@,
            new_name@,
            depth as nat,
            r,
        ),
    decreases depth,
{
    let uid: Uid = source.get_uid();
    let gid: Gid = source.get_gid();
    match source.get_file_content() {
        FileContent::Directory(entries) => {
            if depth == 0 {
                return Err(Errno::NameTooLong);
            }
            let ghost all = entries_view(entries@);
            proof {
                assert(entries_view(Seq::<DirEntry>::empty()) =~= Seq::<DirEntryView>::empty());
            }
            let made: Result<File, Errno> = vfs.create_file(
                new_parent,
                new_name,
                uid,
                gid,
                source.get_mode(),
                FileContent::Directory(Vec::new()),
            );
            let ghost made_view = file_result_view(made);
            let ghost mut states: Seq<VFS<F>> = seq![*vfs];
            let ghost mut results: Seq<Result<(), Errno>> = Seq::empty();
            let mut new: File = match made {
                Ok(new) => new,
                Err(e) => {
                    proof {
                        let dirs = seq![source@];
                        assert(copies_run(states, dirs, results));
                        assert(entries_copied(
                            states,
                            dirs,
                            results,
                            *old(vfs),
                            *vfs,
                            source@,
                            all,
                            old(new_parent)@,
                            new_parent@,
                            new_name@,
                            depth as nat,
                            Err::<(), Errno>(e),
                        ));
                    }
                    return Err(e);
                },
            };
            let ghost mut dirs: Seq<FileView> = seq![new@];
            let ghost created_in = *vfs;
            let mut i: usize = 0;
            while i < entries.len()
                invariant
                    i <= entries@.len(),
                    depth > 0,
                    all == entries_view(entries@),
                    source@.content == ContentView::Directory(all),
                    uid == source@.uid,
                    gid == source@.gid,
                    evolved(old(vfs), vfs),
                    vfs.named_pipes == old(vfs).named_pipes,
                    vfs.named_sockets == old(vfs).named_sockets,
                    states.len() == i + 1,
                    dirs.len() == i + 1,
                    results.len() == i,
                    states[0] == created_in,
                    states[i as int] == *vfs,
                    made_view is Ok,
                    made_view == create_spec(
                        old(vfs).mounts@,
                        old(new_parent)@,
                        new_name@,
                        uid,
                        gid,
                        source@.mode,
                        ContentView::Directory(Seq::empty()),
                    ),
                    VFS::file_created(
                        old(vfs),
                        &created_in,
                        old(new_parent)@,
                        new_parent@,
                        new_name@,
                        uid,
                        gid,
                        source@.mode,
                        ContentView::Directory(Seq::empty()),
                        made_view,
                    ),
                    dirs[0] == made_view->Ok_0,
                    dirs[i as int] == new@,
                    forall|j: int|
                        0 <= j < i ==> (#[trigger] results[j]) is Ok && entry_copied(
                            states[j],
                            states[j + 1],
                            source@,
                            all[j],
                            dirs[j],
                            dirs[j + 1],
                            depth as nat,
                            results[j],
                        ),
                decreases entries.len() - i,
            {
                let entry: &DirEntry = &entries[i];
                let ghost before = *vfs;
                let ghost copy_before = new@;
                let ghost earlier = states;
                let ghost earlier_dirs = dirs;
                let ghost given = results;
                let mut outcome: Result<(), Errno> = Ok(());
                if !is_dot_entry(&entry.name) {
                    match vfs.get_file_from_parent(source, bytes_clone(&entry.name), uid, gid, false) {
                        Ok(subfile) => {
                            outcome = copy_tree(
                                vfs,
                                &subfile,
                                &mut new,
                                bytes_clone(&entry.name),
                                depth - 1,
                            );
                        },
                        Err(e) => {
                            outcome = Err(e);
                        },
                    }
                }
                proof {
                    assert(all[i as int].name == entry.name@);
                    assert(entry_copied(
                        before,
                        *vfs,
                        source@,
                        all[i as int],
                        copy_before,
                        new@,
                        depth as nat,
                        outcome,
                    ));
                    states = states.push(*vfs);
                    dirs = dirs.push(new@);
                    results = results.push(outcome);
                    assert forall|j: int| 0 <= j < i + 1 implies entry_copied(
                        states[j],
                        states[j + 1],
                        source@,
                        all[j],
                        dirs[j],
                        dirs[j + 1],
                        depth as nat,
                        #[trigger] results[j],
                    ) by {
                        if j < i {
                            assert(states[j] == earlier[j] && states[j + 1] == earlier[j + 1]);
                            assert(dirs[j] == earlier_dirs[j] && dirs[j + 1] == earlier_dirs[j + 1]);
                            assert(results[j] == given[j]);
                        }
                    }
                    assert forall|j: int| 0 <= j < i implies (#[trigger] results[j]) is Ok by {
                        assert(results[j] == given[j]);
                    }
                    assert(states[0] == earlier[0]);
                    assert(dirs[0] == earlier_dirs[0]);
                    assert(states[i + 1] == *vfs);
                    assert(results[i as int] == outcome);
                }
                match outcome {
                    Err(e) => {
                        proof {
                            assert(copies_run(states, dirs, results));
                            assert(entries_copied(
                                states,
                                dirs,
                                results,
                                *old(vfs),
                                *vfs,
                                source@,
                                all,
                                old(new_parent)@,
                                new_parent@,
                                new_name@,
                                depth as nat,
                                Err::<(), Errno>(e),
                            ));
                        }
                        return Err(e);
                    },
                    Ok(_) => {},
                }
                i += 1;
            }
            proof {
                assert(copies_run(states, dirs, results));
                assert(entries_copied(
                    states,
                    dirs,
                    results,
                    *old(vfs),
                    *vfs,
                    source@,
                    all,
                    old(new_parent)@,
                    new_parent@,
                    new_name@,
                    depth as nat,
                    Ok::<(), Errno>(()),
                ));
            }
            Ok(())
        },
        FileContent::Regular => {
            let made: Result<File, Errno> = vfs.create_file(
                new_parent,
                new_name,
                uid,
                gid,
                source.get_mode(),
                FileContent::Regular,
            );
            let ghost mid = *vfs;
            match made {
                Err(e) => {
                    proof {
                        assert(regular_copied(
                            *old(vfs),
                            mid,
                            *vfs,
                            source@,
                            old(new_parent)@,
                            new_parent@,
                            new_name@,
                            Err::<(), Errno>(e),
                        ));
                    }
                    Err(e)
                },
                Ok(new) => {
                    proof {
                        let pre = old(vfs).mounts@;
                        let m = mount_of(pre, old(new_parent)@.location)->Some_0;
                        pre[m].fs.lemma_add_file(
                            old(new_parent)@.location->inode,
                            new_name@,
                            uid,
                            effective_gid(old(new_parent)@, gid),
                            source@.mode,
                            ContentView::Regular,
                        );
                        lemma_changed_wf(pre, vfs.mounts@, m);
                        crate::vfs::lemma_mount_of_id(pre, m);
                        assert(mount_of(vfs.mounts@, new@.location) == Some(m));
                    }
                    let r: Result<(), Errno> = copy_bytes(vfs, source, &new);
                    proof {
                        assert(regular_copied(
                            *old(vfs),
                            mid,
                            *vfs,
                            source@,
                            old(new_parent)@,
                            new_parent@,
                            new_name@,
                            r,
                        ));
                    }
                    r
                },
            }
        },
        content => {
            match vfs.create_file(new_parent, new_name, uid, gid, source.get_mode(), content.copy()) {
                Ok(_) => Ok(()),
                Err(e) => Err(e),
            }
        },
    }
}

/// The copy of a regular file holds what the file held, and the file holds it
/// still.
///
/// Where a regular file whose bytes can be read was copied without an error,
/// the copy is the regular file that creating it gave, with the name asked
/// for, the owner and the permissions of the file, and its group or that of
/// the directory; the bytes of the copy are those that the file held before,
/// and the file holds them after.
pub proof fn lemma_copy_holds<F: Filesystem>(
    pre: VFS<F>,
    post: VFS<F>,
    source: FileView,
    parent_pre: FileView,
    parent_post: FileView,
    name: Seq<u8>,
    depth: nat,
)
    requires
        pre.wf(),
        source.content is Regular,
        data_of(pre.mounts@, source.location) is Ok,
        tree_copied(pre, post, source, parent_pre, parent_post, name, depth, Ok::<(), Errno>(())),
    ensures
        create_spec(
            pre.mounts@,
            parent_pre,
            name,
            source.uid,
            source.gid,
            source.mode,
            ContentView::Regular,
        ) matches Ok(copy) && copy.name == name && copy.uid == source.uid && copy.gid
            == effective_gid(parent_pre, source.gid) && copy.mode == source.mode && copy.content
            is Regular && data_of(post.mounts@, copy.location) == data_of(
            pre.mounts@,
            source.location,
        ) && data_of(post.mounts@, source.location) == data_of(pre.mounts@, source.location),
{
    let mid = choose|mid: VFS<F>| #[trigger]
        regular_copied(pre, mid, post, source, parent_pre, parent_post, name, Ok::<(), Errno>(()));
    let made = create_spec(
        pre.mounts@,
        parent_pre,
        name,
        source.uid,
        source.gid,
        source.mode,
        ContentView::Regular,
    );
    let copy = made->Ok_0;
    let m = mount_of(pre.mounts@, parent_pre.location)->Some_0;
    let fs = &pre.mounts@[m].fs;
    let parent = parent_pre.location->inode;
    let gid = effective_gid(parent_pre, source.gid);
    fs.lemma_add_file(parent, name, source.uid, gid, source.mode, ContentView::Regular);
    let added = fs.spec_add_file(parent, name, source.uid, gid, source.mode, ContentView::Regular)->Ok_0;
    let from = source.location;
    assert(data_of(mid.mounts@, from) == data_of(pre.mounts@, from)) by {
        let id = from.spec_mountpoint_id()->Some_0;
        crate::vfs::lemma_same_ids(pre.mounts@, mid.mounts@, id);
        if mount_of(pre.mounts@, from) == Some(m) {
            fs.lemma_data_loads(from->inode, name);
            assert(fs.spec_load_file(added.location->inode, name) is Err);
        }
    }
}

/// Copies the file `source` into the directory `new_parent` under the name
/// `new_name`, with the owner, the group and the permissions of `source`, acting
/// as that owner. A regular file is copied with its bytes, which are read and
/// written `COPY_CHUNK` at a time; a write of which the driver takes nothing
/// ends the copy with `NoSpace`. A directory is copied with what it holds,
/// entry by entry; the entries of a directory for itself and for its parent
/// are passed over.
/// The first failure ends the operation, and what was copied until then stays.
/// A tree deeper than a path can be long is refused where it gets too deep.
pub fn copy_file<F: Filesystem>(
    vfs: &mut VFS<F>,
    source: &File,
    new_parent: &mut File,
    new_name: Vec<u8>,
) -> (r: Result<(), Errno>)
    requires
        old(vfs).wf(),
    ensures
        evolved(old(vfs), final(vfs)),
        final(vfs).named_pipes == old(vfs).named_pipes,
        final(vfs).named_sockets == old(vfs).named_sockets,
        tree_copied(
            *old(vfs),
            *final(vfs),
            source@,
            old(new_parent)@,
            final(new_parent)@,
            new_name@,
            PATH_MAX as nat,
            r,
        ),
{
    copy_tree(vfs, source, new_parent, new_name, PATH_MAX)
}

} // verus!
