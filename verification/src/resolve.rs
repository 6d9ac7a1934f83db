//! Path resolution: from a path to the file that it names.

use vstd::prelude::*;
use crate::bytes::bytes_clone;
use crate::errno::Errno;
use crate::file::file_result_view;
use crate::file::File;
use crate::file::FileContent;
use crate::file::FileType;
use crate::file::FileView;
use crate::file::Gid;
use crate::file::INode;
use crate::file::Uid;
use crate::filesystem::Filesystem;
use crate::mountpoint::deepest_mount;
use crate::mountpoint::get_deepest;
use crate::mountpoint::mounts_wf;
use crate::mountpoint::MountPoint;
use crate::path::parse_path;
use crate::path::Path;
use crate::path::PathView;

verus! {

/// The greatest number of symbolic links that one resolution follows.
pub const SYMLOOP_MAX: usize = 8;

/// How a walk through the components of a path ends, as a mathematical value.
pub enum WalkView {
    /// The last component was reached: the file that it names.
    Found(FileView),
    /// The component at `index` is a symbolic link to follow, with the text
    /// of the path that it stands for.
    Link { index: nat, target: Seq<u8> },
    /// The walk failed.
    Failed(Errno),
}

/// How a walk through the components of a path ends.
pub enum Walk {
    /// The last component was reached: the file that it names.
    Found(File),
    /// The component at `index` is a symbolic link to follow, with the text
    /// of the path that it stands for.
    Link { index: usize, target: Vec<u8> },
    /// The walk failed.
    Failed(Errno),
}

impl View for Walk {
    type V = WalkView;

    open spec fn view(&self) -> WalkView {
        match self {
            Walk::Found(f) => WalkView::Found(f@),
            Walk::Link { index, target } => WalkView::Link { index: *index as nat, target: target@ },
            Walk::Failed(e) => WalkView::Failed(*e),
        }
    }
}

/// The walk from the directory `cur`, which is the node `inode`, through the
/// components of `inner` from the one at `i` on.
///
/// Each step needs the place reached so far to be a directory that the caller
/// may traverse, looks the component up in it and loads what it finds. A
/// symbolic link ends the walk if it is not the last component, or if
/// `follow` asks for the last one to be followed too.
pub open spec fn walk_spec<F: Filesystem>(
    fs: &F,
    inner: Seq<Seq<u8>>,
    i: nat,
    inode: INode,
    cur: FileView,
    uid: Uid,
    gid: Gid,
    follow: bool,
) -> WalkView
    decreases inner.len() - i,
{
    if i >= inner.len() {
        WalkView::Found(cur)
    } else if cur.file_type() != FileType::Directory {
        WalkView::Failed(Errno::NotADirectory)
    } else if !cur.can_execute(uid, gid) {
        WalkView::Failed(Errno::PermissionDenied)
    } else {
        match fs.spec_get_inode(Some(inode), inner[i as int]) {
            Err(e) => WalkView::Failed(e),
            Ok(child) => match fs.spec_load_file(child, inner[i as int]) {
                Err(e) => WalkView::Failed(e),
                Ok(f) => if f.content is Link && (i + 1 < inner.len() || follow) {
                    WalkView::Link { index: i, target: f.content->Link_0 }
                } else {
                    walk_spec(fs, inner, i + 1, child, f, uid, gid, follow)
                },
            },
        }
    }
}

/// The path that takes the place of a path through the mountpoint at
/// `mount_parts` whose component at `index` past the mountpoint is a symbolic
/// link to `target`: what came before the link, then the link's own path (which
/// replaces what came before it if it is absolute), then what came after the link.
pub open spec fn substitute(
    mount_parts: Seq<Seq<u8>>,
    inner: Seq<Seq<u8>>,
    index: nat,
    target: Seq<u8>,
) -> PathView {
    let mount = PathView { absolute: true, parts: mount_parts };
    let prefix = PathView { absolute: false, parts: inner.take(index as int) };
    let suffix = PathView { absolute: false, parts: inner.skip(index as int + 1) };
    mount.concat(prefix).concat(parse_path(target)).concat(suffix)
}

/// What one pass over a path gives.
pub enum StepView {
    /// The resolution is over, with a file or an error.
    Done(Result<FileView, Errno>),
    /// A symbolic link was met: the path to resolve in place of the first.
    Follow(Seq<Seq<u8>>),
}

/// One pass over the path made of `parts`, from the root.
///
/// The deepest mountpoint on the way is found, and the components past it are
/// walked from the root of its filesystem. A path that ends at the mountpoint
/// names that root. The file found is handed out with the path of its
/// directory and the identifier of the mountpoint.
pub open spec fn step_spec<F: Filesystem>(
    mounts: Seq<MountPoint<F>>,
    parts: Seq<Seq<u8>>,
    uid: Uid,
    gid: Gid,
    follow: bool,
) -> StepView {
    match deepest_mount(mounts, parts) {
        None => StepView::Done(Err(Errno::NotFound)),
        Some(m) => {
            let mount = mounts[m];
            let inner = parts.skip(mount.path@.parts.len() as int);
            match mount.fs.spec_root_inode() {
                Err(e) => StepView::Done(Err(e)),
                Ok(root) => match mount.fs.spec_load_file(root, Seq::empty()) {
                    Err(e) => StepView::Done(Err(e)),
                    Ok(top) => if inner.len() == 0 {
                        StepView::Done(Ok(top.placed(top.parent_path, mount.id)))
                    } else {
                        match walk_spec(&mount.fs, inner, 0, root, top, uid, gid, follow) {
                            WalkView::Failed(e) => StepView::Done(Err(e)),
                            WalkView::Found(f) => StepView::Done(
                                Ok(
                                    f.placed(
                                        PathView { absolute: true, parts: parts.drop_last() },
                                        mount.id,
                                    ),
                                ),
                            ),
                            WalkView::Link { index, target } => StepView::Follow(
                                substitute(mount.path@.parts, inner, index, target).parts,
                            ),
                        }
                    },
                },
            }
        },
    }
}

/// The file that the path made of `parts` names, from the root, for a caller
/// that has followed `follows` symbolic links already.
///
/// Each symbolic link met on the way is replaced by the path that it stands
/// for, and the new path is resolved in turn. Once `SYMLOOP_MAX` links have
/// been followed, one more is an error.
pub open spec fn resolve_spec<F: Filesystem>(
    mounts: Seq<MountPoint<F>>,
    parts: Seq<Seq<u8>>,
    uid: Uid,
    gid: Gid,
    follow: bool,
    follows: nat,
) -> Result<FileView, Errno>
    decreases SYMLOOP_MAX - follows,
{
    match step_spec(mounts, parts, uid, gid, follow) {
        StepView::Done(r) => r,
        StepView::Follow(next) => if follows >= SYMLOOP_MAX {
            Err(Errno::TooManySymlinks)
        } else {
            resolve_spec(mounts, next, uid, gid, follow, follows + 1)
        },
    }
}

/// Walks through the components of `inner` from the root `top` of a
/// filesystem, which is the node `root`.
#[verifier::spinoff_prover]
#[verifier::rlimit(50)]
pub fn walk<F: Filesystem>(
    fs: &F,
    inner: &Path,
    root: INode,
    top: File,
    uid: Uid,
    gid: Gid,
    follow: bool,
) -> (r: Walk)
    requires
        fs.inv(),
    ensures
        r@ == walk_spec(fs, inner@.parts, 0, root, top@, uid, gid, follow),
{
    let n: usize = inner.get_elements_count();
    let mut inode: INode = root;
    let mut cur: File = top;
    let mut i: usize = 0;
    while i < n
        invariant
            fs.inv(),
            i <= n,
            n == inner@.parts.len(),
            walk_spec(fs, inner@.parts, i as nat, inode, cur@, uid, gid, follow) == walk_spec(
                fs,
                inner@.parts,
                0,
                root,
                top@,
                uid,
                gid,
                follow,
            ),
        decreases n - i,
    {
        if cur.get_file_type() != FileType::Directory {
            return Walk::Failed(Errno::NotADirectory);
        }
        if !cur.can_execute(uid, gid) {
            return Walk::Failed(Errno::PermissionDenied);
        }
        let name: &Vec<u8> = inner.get(i);
        let child: INode = match fs.get_inode(Some(inode), name) {
            Ok(c) => c,
            Err(e) => {
                return Walk::Failed(e);
            },
        };
        let f: File = match fs.load_file(child, bytes_clone(name)) {
            Ok(f) => f,
            Err(e) => {
                return Walk::Failed(e);
            },
        };
        if i + 1 < n || follow {
            match &f.content {
                FileContent::Link(target) => {
                    return Walk::Link { index: i, target: bytes_clone(target) };
                },
                _ => {},
            }
        }
        inode = child;
        cur = f;
        i += 1;
    }
    Walk::Found(cur)
}

/// What one pass over a path gives.
pub enum Step {
    /// The resolution is over, with a file or an error.
    Done(Result<File, Errno>),
    /// A symbolic link was met: the path to resolve in place of the first.
    Follow(Path),
}

impl View for Step {
    type V = StepView;

    open spec fn view(&self) -> StepView {
        match self {
            Step::Done(r) => StepView::Done(file_result_view(*r)),
            Step::Follow(p) => StepView::Follow(p@.parts),
        }
    }
}

/// Makes one pass over the absolute path `path`.
#[verifier::spinoff_prover]
#[verifier::rlimit(50)]
pub fn resolve_step<F: Filesystem>(
    mounts: &Vec<MountPoint<F>>,
    path: &Path,
    uid: Uid,
    gid: Gid,
    follow: bool,
) -> (r: Step)
    requires
        mounts_wf(mounts@),
    ensures
        r@ == step_spec(mounts@, path@.parts, uid, gid, follow),
        r matches Step::Follow(p) ==> p@.absolute,
{
    let m: usize = match get_deepest(mounts, path) {
        Some(m) => m,
        None => {
            return Step::Done(Err(Errno::NotFound));
        },
    };
    let mount: &MountPoint<F> = &mounts[m];
    let inner: Path = path.range_from(mount.path.get_elements_count());
    let root: INode = match mount.fs.get_root_inode() {
        Ok(root) => root,
        Err(e) => {
            return Step::Done(Err(e));
        },
    };
    let mut top: File = match mount.fs.load_file(root, Vec::new()) {
        Ok(top) => top,
        Err(e) => {
            return Step::Done(Err(e));
        },
    };
    if inner.is_empty() {
        top.set_mountpoint(mount.id);
        return Step::Done(Ok(top));
    }
    let ghost top_view = top@;
    let n: usize = inner.get_elements_count();
    let walked: Walk = walk(&mount.fs, &inner, root, top, uid, gid, follow);
    match walked {
        Walk::Failed(e) => Step::Done(Err(e)),
        Walk::Found(mut f) => {
            let mut parent: Path = path.copy();
            parent.set_absolute(true);
            parent.pop();
            f.set_parent_path(parent);
            f.set_mountpoint(mount.id);
            Step::Done(Ok(f))
        },
        Walk::Link { index, target } => {
            proof {
                lemma_walk_link_index(
                    &mount.fs,
                    inner@.parts,
                    0,
                    root,
                    top_view,
                    uid,
                    gid,
                    follow,
                );
                assert(walked@ is Link);
                assert(index < n);
            }
            let mut prefix: Path = inner.range_to(index);
            prefix.set_absolute(false);
            let link: Path = match Path::from_str(target.as_slice(), false) {
                Ok(p) => p,
                Err(e) => {
                    return Step::Done(Err(e));
                },
            };
            let mut suffix: Path = inner.range_from(index + 1);
            suffix.set_absolute(false);
            let next: Path = mount.path.concat(&prefix).concat(&link).concat(&suffix);
            Step::Follow(next)
        },
    }
}

/// A walk that ends at a symbolic link ends at one of the components.
pub proof fn lemma_walk_link_index<F: Filesystem>(
    fs: &F,
    inner: Seq<Seq<u8>>,
    i: nat,
    inode: INode,
    cur: FileView,
    uid: Uid,
    gid: Gid,
    follow: bool,
)
    ensures
        walk_spec(fs, inner, i, inode, cur, uid, gid, follow) matches WalkView::Link { index, .. }
            ==> i <= index < inner.len(),
    decreases inner.len() - i,
{
    if i < inner.len() && cur.file_type() == FileType::Directory && cur.can_execute(uid, gid) {
        match fs.spec_get_inode(Some(inode), inner[i as int]) {
            Err(e) => {},
            Ok(child) => match fs.spec_load_file(child, inner[i as int]) {
                Err(e) => {},
                Ok(f) => {
                    if !(f.content is Link && (i + 1 < inner.len() || follow)) {
                        lemma_walk_link_index(fs, inner, i + 1, child, f, uid, gid, follow);
                    }
                },
            },
        }
    }
}

/// Resolves `path` for the caller `uid`, `gid`, who has followed
/// `follows_count` symbolic links already. A relative path is taken from the
/// root. With `follow_links`, a symbolic link at the end of the path is
/// followed too.
pub fn resolve<F: Filesystem>(
    mounts: &Vec<MountPoint<F>>,
    path: &Path,
    uid: Uid,
    gid: Gid,
    follow_links: bool,
    follows_count: usize,
) -> (r: Result<File, Errno>)
    requires
        mounts_wf(mounts@),
    ensures
        file_result_view(r) == resolve_spec(
            mounts@,
            path@.parts,
            uid,
            gid,
            follow_links,
            follows_count as nat,
        ),
{
    let mut current: Path = Path::root().concat(path);
    current.set_absolute(true);
    let mut count: usize = follows_count;
    loop
        invariant
            mounts_wf(mounts@),
            resolve_spec(mounts@, current@.parts, uid, gid, follow_links, count as nat)
                == resolve_spec(
                mounts@,
                path@.parts,
                uid,
                gid,
                follow_links,
                follows_count as nat,
            ),
        decreases SYMLOOP_MAX - count,
    {
        match resolve_step(mounts, &current, uid, gid, follow_links) {
            Step::Done(r) => {
                return r;
            },
            Step::Follow(next) => {
                if count >= SYMLOOP_MAX {
                    return Err(Errno::TooManySymlinks);
                }
                current = next;
                count += 1;
            },
        }
    }
}

/// A walk that reaches the last component finds a file of that component's
/// name, which is a node of the filesystem.
pub proof fn lemma_walk_found<F: Filesystem>(
    fs: &F,
    inner: Seq<Seq<u8>>,
    i: nat,
    inode: INode,
    cur: FileView,
    uid: Uid,
    gid: Gid,
    follow: bool,
)
    requires
        fs.inv(),
        i < inner.len(),
    ensures
        walk_spec(fs, inner, i, inode, cur, uid, gid, follow) matches WalkView::Found(f) ==> f.name
            == inner.last() && f.location is Filesystem && f.location->mountpoint_id is None,
    decreases inner.len() - i,
{
    if cur.file_type() == FileType::Directory && cur.can_execute(uid, gid) {
        match fs.spec_get_inode(Some(inode), inner[i as int]) {
            Err(e) => {},
            Ok(child) => match fs.spec_load_file(child, inner[i as int]) {
                Err(e) => {},
                Ok(f) => {
                    fs.lemma_load_file(child, inner[i as int]);
                    if !(f.content is Link && (i + 1 < inner.len() || follow)) {
                        if i + 1 < inner.len() {
                            lemma_walk_found(fs, inner, i + 1, child, f, uid, gid, follow);
                        }
                    }
                },
            },
        }
    }
}

/// Tells whether the path made of `parts` ends past every mountpoint on its
/// way, or is the path of the root.
pub open spec fn names_an_entry<F: Filesystem>(
    mounts: Seq<MountPoint<F>>,
    parts: Seq<Seq<u8>>,
) -> bool {
    parts.len() == 0 || (deepest_mount(mounts, parts) matches Some(m) && mounts[m].path@.parts.len()
        < parts.len())
}

/// The path recorded in a resolved file is the path that was resolved.
///
/// This holds of a path with no empty component and no symbolic link to
/// follow on its way, which names an entry of a filesystem or the root of the
/// namespace: the directory recorded in the file that it resolves to, followed
/// by the name of the file, is the path itself.
#[verifier::spinoff_prover]
#[verifier::rlimit(50)]
pub proof fn lemma_resolved_path<F: Filesystem>(
    mounts: Seq<MountPoint<F>>,
    parts: Seq<Seq<u8>>,
    uid: Uid,
    gid: Gid,
    follow: bool,
)
    requires
        mounts_wf(mounts),
        forall|i: int| 0 <= i < parts.len() ==> (#[trigger] parts[i]).len() > 0,
        names_an_entry(mounts, parts),
        step_spec(mounts, parts, uid, gid, follow) is Done,
        resolve_spec(mounts, parts, uid, gid, follow, 0) is Ok,
    ensures
        resolve_spec(mounts, parts, uid, gid, follow, 0)->Ok_0.path() == (PathView {
            absolute: true,
            parts,
        }),
{
    let m = deepest_mount(mounts, parts)->Some_0;
    assert(0 <= m < mounts.len());
    let mount = mounts[m];
    let inner = parts.skip(mount.path@.parts.len() as int);
    let root = mount.fs.spec_root_inode()->Ok_0;
    let top = mount.fs.spec_load_file(root, Seq::empty())->Ok_0;
    mount.fs.lemma_load_file(root, Seq::empty());
    if inner.len() == 0 {
        assert(parts.len() == 0);
        assert(top.parent_path.parts =~= parts);
    } else {
        lemma_walk_found(&mount.fs, inner, 0, root, top, uid, gid, follow);
        let f = walk_spec(&mount.fs, inner, 0, root, top, uid, gid, follow)->Found_0;
        assert(inner.last() == parts.last());
        assert(parts.drop_last().push(parts.last()) =~= parts);
    }
}

/// Tells whether resolving the path made of `parts` meets `k` symbolic links
/// to follow, one after the other.
pub open spec fn meets_links<F: Filesystem>(
    mounts: Seq<MountPoint<F>>,
    parts: Seq<Seq<u8>>,
    uid: Uid,
    gid: Gid,
    follow: bool,
    k: nat,
) -> bool
    decreases k,
{
    k == 0 || (step_spec(mounts, parts, uid, gid, follow) matches StepView::Follow(next)
        && meets_links(mounts, next, uid, gid, follow, (k - 1) as nat))
}

/// The path that stands for the path made of `parts` once the first `k`
/// symbolic links on its way have been replaced, each by the path that it
/// stands for.
pub open spec fn substituted<F: Filesystem>(
    mounts: Seq<MountPoint<F>>,
    parts: Seq<Seq<u8>>,
    uid: Uid,
    gid: Gid,
    follow: bool,
    k: nat,
) -> Seq<Seq<u8>>
    decreases k,
{
    if k == 0 {
        parts
    } else {
        match step_spec(mounts, parts, uid, gid, follow) {
            StepView::Follow(next) => substituted(mounts, next, uid, gid, follow, (k - 1) as nat),
            StepView::Done(_) => parts,
        }
    }
}

/// A path through a chain of symbolic links resolves to what the fully
/// substituted path resolves to.
///
/// Where the resolution of a path meets `k` links and then none, and no more
/// than `SYMLOOP_MAX` links are followed in all, the path resolves to what
/// resolving the path without those links gives directly.
pub proof fn lemma_chain_resolves<F: Filesystem>(
    mounts: Seq<MountPoint<F>>,
    parts: Seq<Seq<u8>>,
    uid: Uid,
    gid: Gid,
    follow: bool,
    follows: nat,
    k: nat,
)
    requires
        meets_links(mounts, parts, uid, gid, follow, k),
        step_spec(mounts, substituted(mounts, parts, uid, gid, follow, k), uid, gid, follow) is Done,
        follows + k <= SYMLOOP_MAX,
    ensures
        resolve_spec(mounts, parts, uid, gid, follow, follows) == resolve_spec(
            mounts,
            substituted(mounts, parts, uid, gid, follow, k),
            uid,
            gid,
            follow,
            0,
        ),
    decreases k,
{
    if k > 0 {
        let next = step_spec(mounts, parts, uid, gid, follow)->Follow_0;
        lemma_chain_resolves(mounts, next, uid, gid, follow, follows + 1, (k - 1) as nat);
    }
}

/// A path through too long a chain of symbolic links does not resolve.
///
/// Where the resolution of a path meets `k` links, at least one, and that
/// makes more than `SYMLOOP_MAX` links followed in all, the resolution fails
/// for too many symbolic links.
pub proof fn lemma_chain_too_long<F: Filesystem>(
    mounts: Seq<MountPoint<F>>,
    parts: Seq<Seq<u8>>,
    uid: Uid,
    gid: Gid,
    follow: bool,
    follows: nat,
    k: nat,
)
    requires
        meets_links(mounts, parts, uid, gid, follow, k),
        k >= 1,
        follows + k > SYMLOOP_MAX,
    ensures
        resolve_spec(mounts, parts, uid, gid, follow, follows) == Err::<FileView, Errno>(
            Errno::TooManySymlinks,
        ),
    decreases k,
{
    if follows < SYMLOOP_MAX {
        let next = step_spec(mounts, parts, uid, gid, follow)->Follow_0;
        lemma_chain_too_long(mounts, next, uid, gid, follow, follows + 1, (k - 1) as nat);
    }
}

/// A file that resolves is on a mountpoint of the table: its location
/// carries the identifier of the mountpoint that the resolution reached.
#[verifier::spinoff_prover]
#[verifier::rlimit(50)]
pub proof fn lemma_resolved_location<F: Filesystem>(
    mounts: Seq<MountPoint<F>>,
    parts: Seq<Seq<u8>>,
    uid: Uid,
    gid: Gid,
    follow: bool,
    follows: nat,
)
    requires
        mounts_wf(mounts),
        resolve_spec(mounts, parts, uid, gid, follow, follows) is Ok,
    ensures
        ({
            let f = resolve_spec(mounts, parts, uid, gid, follow, follows)->Ok_0;
            &&& f.location is Filesystem
            &&& f.location->mountpoint_id matches Some(id) && exists|m: int|
                0 <= m < mounts.len() && (#[trigger] mounts[m]).id == id
        }),
    decreases SYMLOOP_MAX - follows,
{
    match step_spec(mounts, parts, uid, gid, follow) {
        StepView::Done(r) => {
            let m = deepest_mount(mounts, parts)->Some_0;
            assert(crate::mountpoint::is_deepest(mounts, parts, m));
            let mount = mounts[m];
            let inner = parts.skip(mount.path@.parts.len() as int);
            let root = mount.fs.spec_root_inode()->Ok_0;
            let top = mount.fs.spec_load_file(root, Seq::empty())->Ok_0;
            mount.fs.lemma_load_file(root, Seq::empty());
            if inner.len() > 0 {
                lemma_walk_found(&mount.fs, inner, 0, root, top, uid, gid, follow);
            }
            assert(mounts[m].id == mount.id);
        },
        StepView::Follow(next) => {
            lemma_resolved_location(mounts, next, uid, gid, follow, follows + 1);
        },
    }
}

/// Tells whether the walk `after` is the walk `before` seen after an entry
/// was added to a directory of the filesystem: it ends at the same symbolic
/// link, or it finds the same node, loaded as the filesystem `post` loads it.
pub open spec fn walk_kept<F: Filesystem>(pre: &F, post: &F, before: WalkView, after: WalkView) -> bool {
    match before {
        WalkView::Found(f) => f.location is Filesystem && pre.spec_load_file(
            f.location->inode,
            f.name,
        ) == Ok::<FileView, Errno>(f) && post.spec_load_file(f.location->inode, f.name) is Ok && after
            == WalkView::Found(post.spec_load_file(f.location->inode, f.name)->Ok_0),
        WalkView::Link { index, target } => after == before,
        WalkView::Failed(_) => true,
    }
}

/// A walk that did not fail goes the same way after an entry was added to a
/// directory.
///
/// A walk that found a file or met a symbolic link never looked the new name
/// up in that directory, which would have failed. Every step of it finds
/// after the addition what it found before: the same nodes, loaded as they
/// were, but for what the directory holds.
#[verifier::spinoff_prover]
#[verifier::rlimit(100)]
pub proof fn lemma_walk_after_add<F: Filesystem>(
    pre: &F,
    post: &F,
    parent: INode,
    name: Seq<u8>,
    added: FileView,
    inner: Seq<Seq<u8>>,
    i: nat,
    inode: INode,
    cur: FileView,
    uid: Uid,
    gid: Gid,
    follow: bool,
)
    requires
        pre.inv(),
        crate::filesystem::entry_added(pre, post, parent, name, added),
        pre.spec_get_inode(Some(parent), name) is Err,
        i <= inner.len(),
        pre.spec_load_file(inode, cur.name) == Ok::<FileView, Errno>(cur),
    ensures
        post.spec_load_file(inode, cur.name) is Ok,
        walk_kept(
            pre,
            post,
            walk_spec(pre, inner, i, inode, cur, uid, gid, follow),
            walk_spec(
                post,
                inner,
                i,
                inode,
                post.spec_load_file(inode, cur.name)->Ok_0,
                uid,
                gid,
                follow,
            ),
        ),
    decreases inner.len() - i,
{
    let cur_post = post.spec_load_file(inode, cur.name);
    pre.lemma_load_file(inode, cur.name);
    assert(inode != added.location->inode) by {
        assert(pre.spec_load_file(added.location->inode, cur.name) is Err);
    }
    if inode == parent {
        assert(crate::filesystem::directory_kept(pre.spec_load_file(parent, cur.name), cur_post));
    } else {
        assert(cur_post == pre.spec_load_file(inode, cur.name));
    }
    let after = cur_post->Ok_0;
    if i < inner.len() && cur.file_type() == FileType::Directory && cur.can_execute(uid, gid) {
        let step = inner[i as int];
        assert(post.spec_get_inode(Some(inode), step) == pre.spec_get_inode(Some(inode), step)
            || (inode == parent && step == name));
        match pre.spec_get_inode(Some(inode), step) {
            Err(e) => {},
            Ok(child) => {
                match pre.spec_load_file(child, step) {
                    Err(e) => {},
                    Ok(f) => {
                        pre.lemma_load_file(child, step);
                        lemma_walk_after_add(
                            pre,
                            post,
                            parent,
                            name,
                            added,
                            inner,
                            i + 1,
                            child,
                            f,
                            uid,
                            gid,
                            follow,
                        );
                        assert(child != added.location->inode) by {
                            assert(pre.spec_load_file(added.location->inode, step) is Err);
                        }
                        if child == parent {
                            assert(crate::filesystem::directory_kept(
                                pre.spec_load_file(parent, step),
                                post.spec_load_file(parent, step),
                            ));
                        }
                    },
                }
            },
        }
    }
}

/// A walk that finds a file without meeting a symbolic link, the last
/// component included, is the start of every walk through one more component:
/// that walk goes on from the file that was found.
pub proof fn lemma_walk_extended<F: Filesystem>(
    fs: &F,
    inner: Seq<Seq<u8>>,
    last: Seq<u8>,
    i: nat,
    inode: INode,
    cur: FileView,
    uid: Uid,
    gid: Gid,
    follow: bool,
)
    requires
        fs.inv(),
        i <= inner.len(),
        fs.spec_load_file(inode, cur.name) == Ok::<FileView, Errno>(cur),
        walk_spec(fs, inner, i, inode, cur, uid, gid, true) is Found,
    ensures
        ({
            let f = walk_spec(fs, inner, i, inode, cur, uid, gid, true)->Found_0;
            &&& f.location is Filesystem
            &&& fs.spec_load_file(f.location->inode, f.name) == Ok::<FileView, Errno>(f)
            &&& walk_spec(fs, inner.push(last), i, inode, cur, uid, gid, follow) == walk_spec(
                fs,
                inner.push(last),
                inner.len(),
                f.location->inode,
                f,
                uid,
                gid,
                follow,
            )
        }),
    decreases inner.len() - i,
{
    fs.lemma_load_file(inode, cur.name);
    let longer = inner.push(last);
    if i < inner.len() {
        assert(longer[i as int] == inner[i as int]);
        let step = inner[i as int];
        let child = fs.spec_get_inode(Some(inode), step)->Ok_0;
        let f = fs.spec_load_file(child, step)->Ok_0;
        fs.lemma_load_file(child, step);
        lemma_walk_extended(fs, inner, last, i + 1, child, f, uid, gid, follow);
    }
}

/// A walk that found a file goes the same way after an entry that led to
/// no directory was removed, unless it found the file through that entry.
///
/// Every step of the walk went through a directory, and so not through the
/// node that the entry led to. If the walk did not end at that node, it never
/// looked the entry up, and every step of it finds after the removal what it
/// found before.
#[verifier::spinoff_prover]
#[verifier::rlimit(100)]
pub proof fn lemma_walk_after_remove<F: Filesystem>(
    pre: &F,
    post: &F,
    parent: INode,
    name: Seq<u8>,
    inner: Seq<Seq<u8>>,
    i: nat,
    inode: INode,
    cur: FileView,
    uid: Uid,
    gid: Gid,
    follow: bool,
)
    requires
        pre.inv(),
        crate::filesystem::entry_removed(pre, post, parent, name),
        pre.spec_get_inode(Some(parent), name) matches Ok(t) ==> t != parent && !(
        pre.spec_load_file(t, name) matches Ok(tf) && tf.content is Directory),
        i <= inner.len(),
        pre.spec_load_file(inode, cur.name) == Ok::<FileView, Errno>(cur),
        walk_spec(pre, inner, i, inode, cur, uid, gid, follow) matches WalkView::Found(f)
            && pre.spec_get_inode(Some(parent), name) != Ok::<INode, Errno>(f.location->inode),
        i == inner.len() ==> pre.spec_get_inode(Some(parent), name) != Ok::<INode, Errno>(inode),
    ensures
        post.spec_load_file(inode, cur.name) is Ok,
        walk_kept(
            pre,
            post,
            walk_spec(pre, inner, i, inode, cur, uid, gid, follow),
            walk_spec(
                post,
                inner,
                i,
                inode,
                post.spec_load_file(inode, cur.name)->Ok_0,
                uid,
                gid,
                follow,
            ),
        ),
    decreases inner.len() - i,
{
    let lookup = pre.spec_get_inode(Some(parent), name);
    pre.lemma_load_file(inode, cur.name);
    if lookup is Ok {
        pre.lemma_load_any_name(lookup->Ok_0, name, cur.name);
    }
    // The place reached is not the node that the entry led to.
    assert(lookup != Ok::<INode, Errno>(inode));
    if inode == parent {
        assert(crate::filesystem::directory_kept(
            pre.spec_load_file(parent, cur.name),
            post.spec_load_file(parent, cur.name),
        ));
    } else {
        assert(post.spec_load_file(inode, cur.name) == pre.spec_load_file(inode, cur.name));
    }
    if i < inner.len() {
        let step = inner[i as int];
        let child = pre.spec_get_inode(Some(inode), step)->Ok_0;
        let f = pre.spec_load_file(child, step)->Ok_0;
        pre.lemma_load_file(child, step);
        if lookup is Ok {
            pre.lemma_load_any_name(lookup->Ok_0, name, step);
        }
        // What the step found is not that node either: the walk would have
        // ended there, or failed for want of a directory.
        assert(lookup != Ok::<INode, Errno>(child)) by {
            if lookup == Ok::<INode, Errno>(child) {
                if i + 1 < inner.len() {
                    assert(f.file_type() != FileType::Directory);
                }
            }
        }
        assert(post.spec_get_inode(Some(inode), step) == pre.spec_get_inode(Some(inode), step));
        if child == parent {
            assert(crate::filesystem::directory_kept(
                pre.spec_load_file(parent, step),
                post.spec_load_file(parent, step),
            ));
        } else {
            assert(post.spec_load_file(child, step) == pre.spec_load_file(child, step));
        }
        lemma_walk_after_remove(pre, post, parent, name, inner, i + 1, child, f, uid, gid, follow);
    }
}

} // verus!
