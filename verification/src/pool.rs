//! The pool of files: a bounded memory of the files that were resolved last.

use vstd::prelude::*;
use crate::bytes::bytes_eq;
use crate::file::File;
use crate::file::FileLocation;
use crate::file::FileView;
use crate::path::Path;

verus! {

/// The number of files that the pool of a virtual filesystem holds at most.
pub const FILES_POOL_SIZE: usize = 1024;

/// A slot of the pool as a mathematical value.
pub struct PoolSlotView {
    /// The components of the path that was resolved.
    pub parts: Seq<Seq<u8>>,
    /// Whether a symbolic link at the end of the path was followed.
    pub follow: bool,
    /// The file that the resolution gave.
    pub file: FileView,
    /// How many times the slot was looked up.
    pub access_count: usize,
    /// How many holders have pinned the slot and not released it.
    pub refs: usize,
}

/// A slot of the pool.
pub struct PoolSlot {
    /// The path that was resolved.
    pub path: Path,
    /// Whether a symbolic link at the end of the path was followed.
    pub follow: bool,
    /// The file that the resolution gave.
    pub file: File,
    /// How many times the slot was looked up.
    pub access_count: usize,
    /// How many holders have pinned the slot and not released it.
    pub refs: usize,
}

impl View for PoolSlot {
    type V = PoolSlotView;

    open spec fn view(&self) -> PoolSlotView {
        PoolSlotView {
            parts: self.path@.parts,
            follow: self.follow,
            file: self.file@,
            access_count: self.access_count,
            refs: self.refs,
        }
    }
}

/// Tells whether the slot `i` is the one for the path `parts` resolved with `follow`.
pub open spec fn slot_matches(
    slots: Seq<PoolSlotView>,
    i: int,
    parts: Seq<Seq<u8>>,
    follow: bool,
) -> bool {
    0 <= i < slots.len() && slots[i].parts == parts && slots[i].follow == follow
}

/// Tells whether the pool remembers the path `parts` resolved with `follow`.
pub open spec fn pool_contains(slots: Seq<PoolSlotView>, parts: Seq<Seq<u8>>, follow: bool) -> bool {
    exists|i: int| slot_matches(slots, i, parts, follow)
}

/// The slot for the path `parts` resolved with `follow`.
pub open spec fn slot_of(slots: Seq<PoolSlotView>, parts: Seq<Seq<u8>>, follow: bool) -> int
    recommends
        pool_contains(slots, parts, follow),
{
    choose|i: int| slot_matches(slots, i, parts, follow)
}

/// No two slots are for the same path resolved in the same way.
pub open spec fn distinct_slots(slots: Seq<PoolSlotView>) -> bool {
    forall|i: int, j: int|
        0 <= i < j < slots.len() ==> !((#[trigger] slots[i]).parts == (#[trigger] slots[j]).parts
            && slots[i].follow == slots[j].follow)
}

/// Tells whether the slot `v` is the one to evict: among the slots that no
/// holder has pinned, the one looked up the fewest times, and the first of
/// those where several were looked up equally often.
pub open spec fn is_victim(slots: Seq<PoolSlotView>, v: int) -> bool {
    &&& 0 <= v < slots.len()
    &&& slots[v].refs == 0
    &&& forall|j: int|
        0 <= j < slots.len() && (#[trigger] slots[j]).refs == 0 ==> slots[v].access_count
            < slots[j].access_count || (slots[v].access_count == slots[j].access_count && v <= j)
}

/// Tells whether some slot can be evicted: one that no holder has pinned.
pub open spec fn has_victim(slots: Seq<PoolSlotView>) -> bool {
    exists|j: int| 0 <= j < slots.len() && (#[trigger] slots[j]).refs == 0
}

/// A pool has one slot to evict at most.
pub proof fn lemma_victim_unique(slots: Seq<PoolSlotView>, a: int, b: int)
    requires
        is_victim(slots, a),
        is_victim(slots, b),
    ensures
        a == b,
{
    assert(slots[a].refs == 0 && slots[b].refs == 0);
}

/// The slot for a path stands alone.
pub proof fn lemma_slot_unique(
    slots: Seq<PoolSlotView>,
    a: int,
    b: int,
    parts: Seq<Seq<u8>>,
    follow: bool,
)
    requires
        distinct_slots(slots),
        slot_matches(slots, a, parts, follow),
        slot_matches(slots, b, parts, follow),
    ensures
        a == b,
        slot_of(slots, parts, follow) == a,
{
    if a < b {
        assert(!(slots[a].parts == slots[b].parts && slots[a].follow == slots[b].follow));
    } else if b < a {
        assert(!(slots[b].parts == slots[a].parts && slots[b].follow == slots[a].follow));
    }
    let c = slot_of(slots, parts, follow);
    if a < c {
        assert(!(slots[a].parts == slots[c].parts && slots[a].follow == slots[c].follow));
    } else if c < a {
        assert(!(slots[c].parts == slots[a].parts && slots[c].follow == slots[a].follow));
    }
}

/// The slot that a file newly remembered starts with.
pub open spec fn fresh_slot(parts: Seq<Seq<u8>>, follow: bool, file: FileView) -> PoolSlotView {
    PoolSlotView { parts, follow, file, access_count: 0, refs: 0 }
}

/// The pool after the file `file` was handed to it for the path `parts`
/// resolved with `follow`.
///
/// A path that is remembered gets the new file and keeps its counts. Else the
/// file takes a new slot while the pool has room; in a full pool it takes
/// the place of the slot to evict; and where every slot is pinned, the pool
/// stays as it is.
pub open spec fn insert_spec(
    slots: Seq<PoolSlotView>,
    capacity: usize,
    parts: Seq<Seq<u8>>,
    follow: bool,
    file: FileView,
) -> Seq<PoolSlotView> {
    if pool_contains(slots, parts, follow) {
        let i = slot_of(slots, parts, follow);
        slots.update(i, PoolSlotView { file, ..slots[i] })
    } else if slots.len() < capacity {
        slots.push(fresh_slot(parts, follow, file))
    } else if has_victim(slots) {
        slots.update(choose|v: int| is_victim(slots, v), fresh_slot(parts, follow, file))
    } else {
        slots
    }
}

/// The pool of files.
pub struct FilePool {
    /// The slots in use.
    pub slots: Vec<PoolSlot>,
    /// The number of slots that the pool holds at most.
    pub capacity: usize,
}

/// The views of a list of slots.
pub open spec fn slots_view(v: Seq<PoolSlot>) -> Seq<PoolSlotView> {
    Seq::new(v.len(), |i: int| v[i]@)
}

impl View for FilePool {
    type V = Seq<PoolSlotView>;

    open spec fn view(&self) -> Seq<PoolSlotView> {
        slots_view(self.slots@)
    }
}

/// Tells whether two paths have the same components.
fn same_parts(a: &Path, b: &Path) -> (r: bool)
    ensures
        r == (a@.parts == b@.parts),
{
    let n: usize = a.get_elements_count();
    if n != b.get_elements_count() {
        return false;
    }
    let mut i: usize = 0;
    while i < n
        invariant
            i <= n,
            n == a@.parts.len(),
            n == b@.parts.len(),
            forall|j: int| 0 <= j < i ==> a@.parts[j] == b@.parts[j],
        decreases n - i,
    {
        if !bytes_eq(a.get(i), b.get(i)) {
            return false;
        }
        i += 1;
    }
    assert(a@.parts =~= b@.parts);
    true
}

impl FilePool {
    /// The pool holds no more slots than its capacity, and no two for the
    /// same path resolved in the same way.
    pub open spec fn wf(&self) -> bool {
        &&& self@.len() <= self.capacity
        &&& distinct_slots(self@)
    }

    /// Creates an empty pool that holds `capacity` files at most.
    pub fn new(capacity: usize) -> (p: FilePool)
        ensures
            p.wf(),
            p.capacity == capacity,
            p@.len() == 0,
    {
        FilePool { slots: Vec::new(), capacity }
    }

    /// Returns the number of files that the pool remembers.
    pub fn len(&self) -> (n: usize)
        ensures
            n == self@.len(),
    {
        self.slots.len()
    }

    /// Returns the slot for `path` resolved with `follow`, if the pool has one.
    pub fn find(&self, path: &Path, follow: bool) -> (r: Option<usize>)
        requires
            self.wf(),
        ensures
            match r {
                Some(i) => slot_matches(self@, i as int, path@.parts, follow) && slot_of(
                    self@,
                    path@.parts,
                    follow,
                ) == i,
                None => !pool_contains(self@, path@.parts, follow),
            },
    {
        let mut i: usize = 0;
        while i < self.slots.len()
            invariant
                i <= self.slots@.len(),
                self.wf(),
                forall|j: int| 0 <= j < i ==> !slot_matches(self@, j, path@.parts, follow),
            decreases self.slots.len() - i,
        {
            if self.slots[i].follow == follow && same_parts(&self.slots[i].path, path) {
                proof {
                    lemma_slot_unique(self@, i as int, i as int, path@.parts, follow);
                }
                return Some(i);
            }
            i += 1;
        }
        None
    }

    /// Looks up the file remembered for `path` resolved with `follow`, and
    /// counts the access.
    #[verifier::spinoff_prover]
    #[verifier::rlimit(50)]
    pub fn lookup(&mut self, path: &Path, follow: bool) -> (r: Option<File>)
        requires
            old(self).wf(),
        ensures
            final(self).wf(),
            final(self).capacity == old(self).capacity,
            match r {
                Some(f) => {
                    let i = slot_of(old(self)@, path@.parts, follow);
                    &&& pool_contains(old(self)@, path@.parts, follow)
                    &&& f@ == old(self)@[i].file
                    &&& final(self)@ == old(self)@.update(
                        i,
                        PoolSlotView {
                            access_count: if old(self)@[i].access_count < usize::MAX {
                                (old(self)@[i].access_count + 1) as usize
                            } else {
                                usize::MAX
                            },
                            ..old(self)@[i]
                        },
                    )
                },
                None => !pool_contains(old(self)@, path@.parts, follow) && final(self)@ == old(
                    self,
                )@,
            },
    {
        match self.find(path, follow) {
            Some(i) => {
                let f: File = self.slots[i].file.copy();
                let slot: &mut PoolSlot = &mut self.slots[i];
                if slot.access_count < usize::MAX {
                    slot.access_count = slot.access_count + 1;
                }
                assert(self@ =~= old(self)@.update(
                    i as int,
                    PoolSlotView {
                        access_count: if old(self)@[i as int].access_count < usize::MAX {
                            (old(self)@[i as int].access_count + 1) as usize
                        } else {
                            usize::MAX
                        },
                        ..old(self)@[i as int]
                    },
                ));
                Some(f)
            },
            None => None,
        }
    }

    /// Pins the slot for `path` resolved with `follow`: until it is
    /// released as many times, the slot is not evicted. Tells whether the
    /// pool has such a slot.
    pub fn pin(&mut self, path: &Path, follow: bool) -> (pinned: bool)
        requires
            old(self).wf(),
        ensures
            final(self).wf(),
            final(self).capacity == old(self).capacity,
            pinned == (pool_contains(old(self)@, path@.parts, follow) && old(self)@[slot_of(
                old(self)@,
                path@.parts,
                follow,
            )].refs < usize::MAX),
            pinned ==> final(self)@ == old(self)@.update(
                slot_of(old(self)@, path@.parts, follow),
                PoolSlotView {
                    refs: (old(self)@[slot_of(old(self)@, path@.parts, follow)].refs + 1) as usize,
                    ..old(self)@[slot_of(old(self)@, path@.parts, follow)]
                },
            ),
            !pinned ==> final(self)@ == old(self)@,
    {
        match self.find(path, follow) {
            Some(i) => {
                if self.slots[i].refs == usize::MAX {
                    return false;
                }
                let slot: &mut PoolSlot = &mut self.slots[i];
                slot.refs = slot.refs + 1;
                assert(self@ =~= old(self)@.update(
                    i as int,
                    PoolSlotView {
                        refs: (old(self)@[i as int].refs + 1) as usize,
                        ..old(self)@[i as int]
                    },
                ));
                true
            },
            None => false,
        }
    }

    /// Releases one pin of the slot for `path` resolved with `follow`. Tells
    /// whether the pool has such a slot with a pin on it.
    pub fn unpin(&mut self, path: &Path, follow: bool) -> (released: bool)
        requires
            old(self).wf(),
        ensures
            final(self).wf(),
            final(self).capacity == old(self).capacity,
            released == (pool_contains(old(self)@, path@.parts, follow) && old(self)@[slot_of(
                old(self)@,
                path@.parts,
                follow,
            )].refs > 0),
            released ==> final(self)@ == old(self)@.update(
                slot_of(old(self)@, path@.parts, follow),
                PoolSlotView {
                    refs: (old(self)@[slot_of(old(self)@, path@.parts, follow)].refs - 1) as usize,
                    ..old(self)@[slot_of(old(self)@, path@.parts, follow)]
                },
            ),
            !released ==> final(self)@ == old(self)@,
    {
        match self.find(path, follow) {
            Some(i) => {
                if self.slots[i].refs == 0 {
                    return false;
                }
                let slot: &mut PoolSlot = &mut self.slots[i];
                slot.refs = slot.refs - 1;
                assert(self@ =~= old(self)@.update(
                    i as int,
                    PoolSlotView {
                        refs: (old(self)@[i as int].refs - 1) as usize,
                        ..old(self)@[i as int]
                    },
                ));
                true
            },
            None => false,
        }
    }

    /// Returns the slot to evict, if any slot can be evicted.
    pub fn find_victim(&self) -> (r: Option<usize>)
        ensures
            match r {
                Some(v) => is_victim(self@, v as int) && has_victim(self@),
                None => !has_victim(self@),
            },
    {
        let mut best: Option<usize> = None;
        let mut i: usize = 0;
        while i < self.slots.len()
            invariant
                i <= self.slots@.len(),
                match best {
                    Some(b) => b < i && self@[b as int].refs == 0 && forall|j: int|
                        0 <= j < i && (#[trigger] self@[j]).refs == 0 ==> self@[b as int].access_count
                            < self@[j].access_count || (self@[b as int].access_count
                            == self@[j].access_count && b <= j),
                    None => forall|j: int| 0 <= j < i ==> (#[trigger] self@[j]).refs != 0,
                },
            decreases self.slots.len() - i,
        {
            if self.slots[i].refs == 0 {
                let better: bool = match best {
                    Some(b) => self.slots[i].access_count < self.slots[b].access_count,
                    None => true,
                };
                if better {
                    best = Some(i);
                }
            }
            i += 1;
        }
        best
    }

    /// Hands the file `file` to the pool for `path` resolved with `follow`.
    /// Tells whether the pool remembers the file afterwards.
    #[verifier::spinoff_prover]
    #[verifier::rlimit(50)]
    pub fn insert(&mut self, path: Path, follow: bool, file: File) -> (cached: bool)
        requires
            old(self).wf(),
        ensures
            final(self).wf(),
            final(self).capacity == old(self).capacity,
            final(self)@ == insert_spec(old(self)@, old(self).capacity, path@.parts, follow, file@),
            cached == pool_contains(final(self)@, path@.parts, follow),
    {
        let ghost parts = path@.parts;
        let ghost fresh = fresh_slot(parts, follow, file@);
        match self.find(&path, follow) {
            Some(i) => {
                self.slots[i].file = file;
                assert(self@ =~= old(self)@.update(
                    i as int,
                    PoolSlotView { file: file@, ..old(self)@[i as int] },
                ));
                assert(slot_matches(self@, i as int, parts, follow));
                true
            },
            None => {
                let slot = PoolSlot { path, follow, file, access_count: 0, refs: 0 };
                if self.slots.len() < self.capacity {
                    self.slots.push(slot);
                    assert(self@ =~= old(self)@.push(fresh));
                    assert(slot_matches(self@, self@.len() - 1, parts, follow));
                    assert forall|a: int, b: int| 0 <= a < b < self@.len() implies !((
                    #[trigger] self@[a]).parts == (#[trigger] self@[b]).parts && self@[a].follow
                        == self@[b].follow) by {
                        if b == self@.len() - 1 {
                            assert(!slot_matches(old(self)@, a, parts, follow));
                        }
                    }
                    true
                } else {
                    match self.find_victim() {
                        Some(v) => {
                            proof {
                                let c = choose|c: int| is_victim(old(self)@, c);
                                lemma_victim_unique(old(self)@, v as int, c);
                            }
                            self.slots.set(v, slot);
                            assert(self@ =~= old(self)@.update(v as int, fresh));
                            assert(slot_matches(self@, v as int, parts, follow));
                            assert forall|a: int, b: int| 0 <= a < b < self@.len() implies !((
                            #[trigger] self@[a]).parts == (#[trigger] self@[b]).parts
                                && self@[a].follow == self@[b].follow) by {
                                if a == v {
                                    assert(!slot_matches(old(self)@, b, parts, follow));
                                } else if b == v {
                                    assert(!slot_matches(old(self)@, a, parts, follow));
                                }
                            }
                            true
                        },
                        None => {
                            assert forall|k: int| !slot_matches(self@, k, parts, follow) by {}
                            false
                        },
                    }
                }
            },
        }
    }

    /// Forgets every file stored at the location `loc`, under whatever path
    /// it is remembered. The other slots stay, in their order.
    #[verifier::spinoff_prover]
    #[verifier::rlimit(50)]
    pub fn invalidate(&mut self, loc: &FileLocation)
        requires
            old(self).wf(),
        ensures
            final(self).wf(),
            final(self).capacity == old(self).capacity,
            final(self)@ == old(self)@.filter(|s: PoolSlotView| s.file.location != *loc),
    {
        let ghost keep = |s: PoolSlotView| s.file.location != *loc;
        let ghost all = self@;
        let mut i: usize = self.slots.len();
        proof {
            assert(all.take(i as int) =~= all);
            assert(all.skip(i as int) =~= Seq::<PoolSlotView>::empty());
            reveal(Seq::filter);
            assert(self@ =~= all.take(i as int) + all.skip(i as int).filter(keep));
        }
        while i > 0
            invariant
                i <= all.len(),
                self.capacity == old(self).capacity,
                all == old(self)@,
                keep == (|s: PoolSlotView| s.file.location != *loc),
                self@ == all.take(i as int) + all.skip(i as int).filter(keep),
            decreases i,
        {
            assert(self.slots@.len() == self@.len());
            assert(self@.len() >= all.take(i as int).len());
            i -= 1;
            let ghost tail = all.skip(i + 1).filter(keep);
            proof {
                assert(all.skip(i as int) =~= seq![all[i as int]] + all.skip(i + 1));
                Seq::filter_distributes_over_add(seq![all[i as int]], all.skip(i + 1), keep);
                lemma_filter_push(Seq::empty(), all[i as int], keep);
                assert(Seq::<PoolSlotView>::empty().push(all[i as int]) =~= seq![all[i as int]]);
                assert(Seq::<PoolSlotView>::empty().filter(keep) =~= Seq::<PoolSlotView>::empty())
                    by {
                    reveal(Seq::filter);
                }
                assert(self@[i as int] == all[i as int]);
            }
            if self.slots[i].file.location == *loc {
                let ghost before = self@;
                let _ = self.slots.remove(i);
                assert(self@ =~= before.remove(i as int));
                assert(self@ =~= all.take(i as int) + all.skip(i as int).filter(keep));
            } else {
                assert(self@ =~= all.take(i as int) + all.skip(i as int).filter(keep));
            }
        }
        proof {
            assert(all.skip(0) =~= all);
            assert(self@ =~= all.filter(keep));
            lemma_filter_distinct(all, keep);
            all.lemma_filter_len(keep);
        }
    }
}

/// Every slot that a filter keeps is a slot of the pool.
pub proof fn lemma_filter_member(
    s: Seq<PoolSlotView>,
    keep: spec_fn(PoolSlotView) -> bool,
    i: int,
) -> (k: int)
    requires
        0 <= i < s.filter(keep).len(),
    ensures
        0 <= k < s.len(),
        s[k] == s.filter(keep)[i],
    decreases s.len(),
{
    reveal(Seq::filter);
    if s.len() == 0 {
        0
    } else {
        let head = s.drop_last();
        if keep(s.last()) && i == head.filter(keep).len() {
            s.len() - 1
        } else {
            let k = lemma_filter_member(head, keep, i);
            assert(head[k] == s[k]);
            k
        }
    }
}

/// Filtering a sequence with one more element at its end keeps that element
/// if it passes, after what the filter keeps of the rest.
pub proof fn lemma_filter_push(s: Seq<PoolSlotView>, e: PoolSlotView, keep: spec_fn(PoolSlotView) -> bool)
    ensures
        s.push(e).filter(keep) == if keep(e) {
            s.filter(keep).push(e)
        } else {
            s.filter(keep)
        },
{
    reveal(Seq::filter);
    assert(s.push(e).drop_last() =~= s);
}

/// What a filter keeps of a pool without two slots for one path has no two
/// slots for one path either.
#[verifier::spinoff_prover]
#[verifier::rlimit(50)]
pub proof fn lemma_filter_distinct(s: Seq<PoolSlotView>, keep: spec_fn(PoolSlotView) -> bool)
    requires
        distinct_slots(s),
    ensures
        distinct_slots(s.filter(keep)),
    decreases s.len(),
{
    reveal(Seq::filter);
    if s.len() > 0 {
        let head = s.drop_last();
        assert forall|i: int, j: int| 0 <= i < j < head.len() implies !((#[trigger] head[i]).parts
            == (#[trigger] head[j]).parts && head[i].follow == head[j].follow) by {
            assert(head[i] == s[i] && head[j] == s[j]);
        }
        lemma_filter_distinct(head, keep);
        if keep(s.last()) {
            let f = head.filter(keep);
            let g = s.filter(keep);
            assert(g =~= f.push(s.last()));
            assert forall|i: int, j: int| 0 <= i < j < g.len() implies !((#[trigger] g[i]).parts
                == (#[trigger] g[j]).parts && g[i].follow == g[j].follow) by {
                if j == g.len() - 1 {
                    let k = lemma_filter_member(head, keep, i);
                    assert(s[k] == f[i]);
                    assert(!(s[k].parts == s[s.len() - 1].parts && s[k].follow == s[s.len()
                        - 1].follow));
                } else {
                    assert(g[i] == f[i] && g[j] == f[j]);
                }
            }
        }
    }
}

} // verus!
