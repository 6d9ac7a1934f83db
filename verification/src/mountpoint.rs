//! Mountpoints: the places of the namespace where a filesystem is attached.

use vstd::prelude::*;
use crate::bytes::bytes_eq;
use crate::filesystem::Filesystem;
use crate::path::Path;

verus! {

/// A filesystem attached to a path.
pub struct MountPoint<F: Filesystem> {
    /// The identifier of the mountpoint.
    pub id: u32,
    /// The path at which the filesystem is attached.
    pub path: Path,
    /// Whether changes through this mountpoint are refused.
    pub readonly: bool,
    /// The driver of the filesystem.
    pub fs: F,
}

impl<F: Filesystem> MountPoint<F> {
    /// Returns the identifier of the mountpoint.
    pub fn get_id(&self) -> (id: u32)
        ensures
            id == self.id,
    {
        self.id
    }

    /// Returns the path at which the filesystem is attached.
    pub fn get_path(&self) -> (p: &Path)
        ensures
            p@ == self.path@,
    {
        &self.path
    }

    /// Tells whether changes through this mountpoint are refused.
    pub fn is_readonly(&self) -> (b: bool)
        ensures
            b == self.readonly,
    {
        self.readonly
    }

    /// Returns the driver of the filesystem.
    pub fn get_filesystem(&self) -> (fs: &F)
        ensures
            *fs == self.fs,
    {
        &self.fs
    }
}

/// The mount table is consistent: every driver is, every mountpoint is at an
/// absolute path, and no two mountpoints share an identifier or a path.
pub open spec fn mounts_wf<F: Filesystem>(mounts: Seq<MountPoint<F>>) -> bool {
    &&& forall|i: int| 0 <= i < mounts.len() ==> (#[trigger] mounts[i]).fs.inv()
    &&& forall|i: int| 0 <= i < mounts.len() ==> (#[trigger] mounts[i]).path@.absolute
    &&& forall|i: int, j: int|
        0 <= i < j < mounts.len() ==> (#[trigger] mounts[i]).id != (#[trigger] mounts[j]).id
    &&& forall|i: int, j: int|
        0 <= i < j < mounts.len() ==> (#[trigger] mounts[i]).path@.parts != (
        #[trigger] mounts[j]).path@.parts
}

/// Tells whether the mountpoint `m` lies on the way to `parts`: its path is
/// made of the first components of `parts`.
pub open spec fn mount_covers<F: Filesystem>(m: MountPoint<F>, parts: Seq<Seq<u8>>) -> bool {
    m.path@.parts.is_prefix_of(parts)
}

/// Tells whether `best` is the deepest mountpoint on the way to `parts`: it
/// covers `parts`, and no mountpoint that covers `parts` has a longer path.
pub open spec fn is_deepest<F: Filesystem>(
    mounts: Seq<MountPoint<F>>,
    parts: Seq<Seq<u8>>,
    best: int,
) -> bool {
    &&& 0 <= best < mounts.len()
    &&& mount_covers(mounts[best], parts)
    &&& forall|j: int|
        0 <= j < mounts.len() && mount_covers(#[trigger] mounts[j], parts)
            ==> mounts[j].path@.parts.len() <= mounts[best].path@.parts.len()
}

/// The deepest mountpoint on the way to `parts`, if any mountpoint covers it.
pub open spec fn deepest_mount<F: Filesystem>(
    mounts: Seq<MountPoint<F>>,
    parts: Seq<Seq<u8>>,
) -> Option<int> {
    if exists|i: int| is_deepest(mounts, parts, i) {
        Some(choose|i: int| is_deepest(mounts, parts, i))
    } else {
        None
    }
}

/// In a consistent mount table, a path has at most one deepest mountpoint.
pub proof fn lemma_deepest_unique<F: Filesystem>(
    mounts: Seq<MountPoint<F>>,
    parts: Seq<Seq<u8>>,
    a: int,
    b: int,
)
    requires
        mounts_wf(mounts),
        is_deepest(mounts, parts, a),
        is_deepest(mounts, parts, b),
    ensures
        a == b,
{
    let pa = mounts[a].path@.parts;
    let pb = mounts[b].path@.parts;
    assert(pa.len() == pb.len());
    assert(pa =~= pb) by {
        assert forall|k: int| 0 <= k < pa.len() implies pa[k] == pb[k] by {
            assert(pa[k] == parts[k]);
            assert(pb[k] == parts[k]);
        }
    }
    if a < b {
        assert(mounts[a].path@.parts != mounts[b].path@.parts);
    } else if b < a {
        assert(mounts[b].path@.parts != mounts[a].path@.parts);
    }
}

/// Tells whether the components of `prefix` are the first components of `path`.
pub fn is_prefix(prefix: &Path, path: &Path) -> (b: bool)
    ensures
        b == prefix@.parts.is_prefix_of(path@.parts),
{
    let n: usize = prefix.get_elements_count();
    if n > path.get_elements_count() {
        return false;
    }
    let mut i: usize = 0;
    while i < n
        invariant
            i <= n,
            n == prefix@.parts.len(),
            n <= path@.parts.len(),
            forall|j: int| 0 <= j < i ==> prefix@.parts[j] == path@.parts[j],
        decreases n - i,
    {
        if !bytes_eq(prefix.get(i), path.get(i)) {
            assert(prefix@.parts[i as int] != path@.parts[i as int]);
            assert(!prefix@.parts.is_prefix_of(path@.parts)) by {
                if prefix@.parts.is_prefix_of(path@.parts) {
                    assert(prefix@.parts[i as int] == path@.parts.subrange(
                        0,
                        prefix@.parts.len() as int,
                    )[i as int]);
                }
            }
            return false;
        }
        i += 1;
    }
    assert(prefix@.parts =~= path@.parts.subrange(0, prefix@.parts.len() as int));
    true
}

/// Returns the deepest mountpoint on the way to `path`: among the mountpoints
/// whose path is made of the first components of `path`, the one with the
/// longest path.
#[verifier::spinoff_prover]
#[verifier::rlimit(50)]
pub fn get_deepest<F: Filesystem>(mounts: &Vec<MountPoint<F>>, path: &Path) -> (r: Option<usize>)
    requires
        mounts_wf(mounts@),
    ensures
        match r {
            Some(i) => deepest_mount(mounts@, path@.parts) == Some(i as int) && is_deepest(
                mounts@,
                path@.parts,
                i as int,
            ),
            None => deepest_mount(mounts@, path@.parts) is None && forall|j: int|
                0 <= j < mounts@.len() ==> !mount_covers(#[trigger] mounts@[j], path@.parts),
        },
{
    let mut best: Option<usize> = None;
    let mut i: usize = 0;
    while i < mounts.len()
        invariant
            i <= mounts@.len(),
            match best {
                Some(b) => b < i && mount_covers(mounts@[b as int], path@.parts) && forall|j: int|
                    0 <= j < i && mount_covers(#[trigger] mounts@[j], path@.parts)
                        ==> mounts@[j].path@.parts.len() <= mounts@[b as int].path@.parts.len(),
                None => forall|j: int|
                    0 <= j < i ==> !mount_covers(#[trigger] mounts@[j], path@.parts),
            },
        decreases mounts.len() - i,
    {
        if is_prefix(&mounts[i].path, path) {
            let better: bool = match best {
                Some(b) => mounts[b].path.get_elements_count()
                    < mounts[i].path.get_elements_count(),
                None => true,
            };
            if better {
                best = Some(i);
            }
        }
        i += 1;
    }
    proof {
        match best {
            Some(b) => {
                assert(is_deepest(mounts@, path@.parts, b as int));
                let c = choose|c: int| is_deepest(mounts@, path@.parts, c);
                lemma_deepest_unique(mounts@, path@.parts, b as int, c);
            },
            None => {},
        }
    }
    best
}

/// The mountpoint with the identifier `id`, if there is one.
pub open spec fn mount_with_id<F: Filesystem>(mounts: Seq<MountPoint<F>>, id: u32) -> Option<int> {
    if exists|i: int| 0 <= i < mounts.len() && (#[trigger] mounts[i]).id == id {
        Some(choose|i: int| 0 <= i < mounts.len() && (#[trigger] mounts[i]).id == id)
    } else {
        None
    }
}

/// Returns the mountpoint with the identifier `id`.
pub fn find_mount<F: Filesystem>(mounts: &Vec<MountPoint<F>>, id: u32) -> (r: Option<usize>)
    requires
        mounts_wf(mounts@),
    ensures
        match r {
            Some(i) => i < mounts@.len() && mounts@[i as int].id == id && mount_with_id(mounts@, id)
                == Some(i as int),
            None => mount_with_id(mounts@, id) is None,
        },
{
    let mut i: usize = 0;
    while i < mounts.len()
        invariant
            i <= mounts@.len(),
            mounts_wf(mounts@),
            forall|j: int| 0 <= j < i ==> (#[trigger] mounts@[j]).id != id,
        decreases mounts.len() - i,
    {
        if mounts[i].id == id {
            proof {
                let w = i as int;
                assert(0 <= w < mounts@.len() && (#[trigger] mounts@[w]).id == id);
                let c = choose|c: int| 0 <= c < mounts@.len() && (#[trigger] mounts@[c]).id == id;
                if c < i {
                    assert(mounts@[c].id != mounts@[i as int].id);
                } else if i < c {
                    assert(mounts@[i as int].id != mounts@[c].id);
                }
            }
            return Some(i);
        }
        i += 1;
    }
    None
}

} // verus!
