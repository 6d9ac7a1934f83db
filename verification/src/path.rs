//! Paths: the names that lead from a root to a file.

use vstd::prelude::*;
use crate::bytes::bytes_clone;
use crate::bytes::names_view;
use crate::errno::Errno;

verus! {

/// The byte that separates the components of a path.
pub const PATH_SEPARATOR: u8 = 47;

/// The greatest length of a path that comes from user space.
pub const PATH_MAX: usize = 4096;

/// The greatest length of one component of a path that comes from user space.
pub const NAME_MAX: usize = 255;

/// A path as a mathematical value.
pub struct PathView {
    /// Whether the path starts at the root.
    pub absolute: bool,
    /// The components, the outermost first.
    pub parts: Seq<Seq<u8>>,
}

impl PathView {
    /// The path of the root.
    pub open spec fn root() -> PathView {
        PathView { absolute: true, parts: Seq::empty() }
    }

    /// `other` taken from `self`: `other` itself where it is absolute, else the
    /// components of `self` followed by those of `other`.
    pub open spec fn concat(self, other: PathView) -> PathView {
        if other.absolute {
            other
        } else {
            PathView { absolute: self.absolute, parts: self.parts + other.parts }
        }
    }

    /// The path taken from the root.
    pub open spec fn from_root(self) -> PathView {
        PathView { absolute: true, parts: self.parts }
    }

    /// The path with one more component at its end.
    pub open spec fn push(self, name: Seq<u8>) -> PathView {
        PathView { absolute: self.absolute, parts: self.parts.push(name) }
    }

    /// The path without its last component.
    pub open spec fn parent(self) -> PathView
        recommends
            self.parts.len() > 0,
    {
        PathView { absolute: self.absolute, parts: self.parts.drop_last() }
    }

    /// Tells whether the components of `self` are the first components of `other`.
    pub open spec fn is_prefix_of(self, other: PathView) -> bool {
        self.parts.is_prefix_of(other.parts)
    }
}

/// The state of a scan over the text of a path: the components that are
/// complete, and the bytes of the component that is being read.
pub struct Scan {
    /// The components closed by a separator so far.
    pub done: Seq<Seq<u8>>,
    /// The bytes read since the last separator.
    pub pending: Seq<u8>,
}

impl Scan {
    /// The components once the text has ended: a pending component counts if
    /// it has any byte.
    pub open spec fn finish(self) -> Seq<Seq<u8>> {
        if self.pending.len() > 0 {
            self.done.push(self.pending)
        } else {
            self.done
        }
    }
}

/// The scan after the text `s`: a separator closes the pending component, and
/// empty components are dropped.
pub open spec fn scan_path(s: Seq<u8>) -> Scan
    decreases s.len(),
{
    if s.len() == 0 {
        Scan { done: Seq::empty(), pending: Seq::empty() }
    } else {
        let before = scan_path(s.drop_last());
        if s.last() == PATH_SEPARATOR {
            Scan { done: before.finish(), pending: Seq::empty() }
        } else {
            Scan { done: before.done, pending: before.pending.push(s.last()) }
        }
    }
}

/// The path that the text `s` denotes: absolute if the text starts with a
/// separator, with the non-empty stretches between separators as components.
pub open spec fn parse_path(s: Seq<u8>) -> PathView {
    PathView {
        absolute: s.len() > 0 && s[0] == PATH_SEPARATOR,
        parts: scan_path(s).finish(),
    }
}

/// Tells whether `name` can be a component: not empty and without a separator.
pub open spec fn valid_name(name: Seq<u8>) -> bool {
    &&& name.len() > 0
    &&& forall|i: int| 0 <= i < name.len() ==> name[i] != PATH_SEPARATOR
}

/// Every component that a scan yields is a valid name, and none is longer
/// than the text.
pub proof fn lemma_scan_names(s: Seq<u8>)
    ensures
        forall|i: int|
            0 <= i < scan_path(s).done.len() ==> valid_name(#[trigger] scan_path(s).done[i])
                && scan_path(s).done[i].len() <= s.len(),
        forall|i: int|
            0 <= i < scan_path(s).pending.len() ==> #[trigger] scan_path(s).pending[i]
                != PATH_SEPARATOR,
        scan_path(s).pending.len() <= s.len(),
        scan_path(s).done.len() <= s.len(),
        scan_path(s).finish().len() <= s.len(),
    decreases s.len(),
{
    if s.len() > 0 {
        lemma_scan_names(s.drop_last());
    }
}

/// Every component of a parsed path is a valid name.
pub proof fn lemma_parse_names(s: Seq<u8>)
    ensures
        forall|i: int|
            0 <= i < parse_path(s).parts.len() ==> valid_name(#[trigger] parse_path(s).parts[i]),
{
    lemma_scan_names(s);
}

/// The text of a list of components: each one after a separator.
pub open spec fn join_parts(parts: Seq<Seq<u8>>) -> Seq<u8>
    decreases parts.len(),
{
    if parts.len() == 0 {
        Seq::empty()
    } else {
        join_parts(parts.drop_last()) + seq![PATH_SEPARATOR] + parts.last()
    }
}

/// Scanning a text followed by the bytes of a name, which hold no separator,
/// extends the pending component by that name.
pub proof fn lemma_scan_append_name(s: Seq<u8>, name: Seq<u8>)
    requires
        forall|i: int| 0 <= i < name.len() ==> name[i] != PATH_SEPARATOR,
    ensures
        scan_path(s + name).done == scan_path(s).done,
        scan_path(s + name).pending == scan_path(s).pending + name,
    decreases name.len(),
{
    if name.len() == 0 {
        assert(s + name =~= s);
        assert(scan_path(s).pending + name =~= scan_path(s).pending);
    } else {
        let t = s + name;
        assert(t.drop_last() =~= s + name.drop_last());
        lemma_scan_append_name(s, name.drop_last());
        assert(t.last() == name.last());
        assert(scan_path(s).pending + name =~= (scan_path(s).pending + name.drop_last()).push(
            name.last(),
        ));
    }
}

/// Writing out valid names and scanning the text gives the names back.
pub proof fn lemma_scan_join(parts: Seq<Seq<u8>>)
    requires
        forall|i: int| 0 <= i < parts.len() ==> valid_name(#[trigger] parts[i]),
    ensures
        scan_path(join_parts(parts)).finish() == parts,
    decreases parts.len(),
{
    if parts.len() > 0 {
        let head = parts.drop_last();
        lemma_scan_join(head);
        let a = join_parts(head);
        let b = a + seq![PATH_SEPARATOR];
        assert(b.drop_last() =~= a);
        assert(b.last() == PATH_SEPARATOR);
        assert(scan_path(b).done == head);
        assert(scan_path(b).pending =~= Seq::<u8>::empty());
        lemma_scan_append_name(b, parts.last());
        assert(Seq::<u8>::empty() + parts.last() =~= parts.last());
        assert(head.push(parts.last()) =~= parts);
    }
}

/// A path: a list of names, taken from the root or from some other place.
pub struct Path {
    /// Whether the path starts at the root.
    pub absolute: bool,
    /// The components, the outermost first.
    pub parts: Vec<Vec<u8>>,
}

impl View for Path {
    type V = PathView;

    open spec fn view(&self) -> PathView {
        PathView { absolute: self.absolute, parts: names_view(self.parts@) }
    }
}

impl Path {
    /// Returns the path of the root.
    pub fn root() -> (p: Path)
        ensures
            p@ == PathView::root(),
    {
        let p = Path { absolute: true, parts: Vec::new() };
        assert(p@.parts =~= Seq::empty());
        p
    }

    /// Parses the text of a path. With `user` set, the text comes from user space
    /// and its lengths are limited: a text of `PATH_MAX` bytes or more, or a
    /// component of more than `NAME_MAX` bytes, is refused.
    #[verifier::spinoff_prover]
    #[verifier::rlimit(50)]
    pub fn from_str(text: &[u8], user: bool) -> (r: Result<Path, Errno>)
        ensures
            r is Ok <==> !(user && (text@.len() >= PATH_MAX || exists|i: int|
                0 <= i < parse_path(text@).parts.len() && (#[trigger] parse_path(text@).parts[i]).len()
                    > NAME_MAX)),
            r is Ok ==> r->Ok_0@ == parse_path(text@),
            r is Err ==> r->Err_0 == Errno::NameTooLong,
    {
        if user && text.len() >= PATH_MAX {
            return Err(Errno::NameTooLong);
        }
        let mut parts: Vec<Vec<u8>> = Vec::new();
        let mut pending: Vec<u8> = Vec::new();
        let mut i: usize = 0;
        while i < text.len()
            invariant
                i <= text.len(),
                names_view(parts@) == scan_path(text@.take(i as int)).done,
                pending@ == scan_path(text@.take(i as int)).pending,
                user ==> pending@.len() <= NAME_MAX,
                user ==> forall|j: int| 0 <= j < parts@.len() ==> (#[trigger] parts@[j])@.len() <= NAME_MAX,
            decreases text.len() - i,
        {
            let c: u8 = text[i];
            proof {
                assert(text@.take(i + 1).drop_last() =~= text@.take(i as int));
                assert(text@.take(i + 1).last() == c);
            }
            if c == PATH_SEPARATOR {
                if pending.len() > 0 {
                    let ghost before = names_view(parts@);
                    parts.push(pending);
                    assert(names_view(parts@) =~= before.push(pending@));
                    pending = Vec::new();
                }
            } else {
                if user && pending.len() >= NAME_MAX {
                    proof {
                        lemma_name_grows(text@, i as int);
                    }
                    return Err(Errno::NameTooLong);
                }
                pending.push(c);
            }
            i += 1;
        }
        assert(text@.take(text.len() as int) =~= text@);
        let absolute: bool = text.len() > 0 && text[0] == PATH_SEPARATOR;
        if pending.len() > 0 {
            let ghost before = names_view(parts@);
            parts.push(pending);
            assert(names_view(parts@) =~= before.push(pending@));
        }
        let p = Path { absolute, parts };
        proof {
            assert(p@.parts == parse_path(text@).parts);
            assert forall|j: int| 0 <= j < parse_path(text@).parts.len() && user implies (
            #[trigger] parse_path(text@).parts[j]).len() <= NAME_MAX by {
                assert(parse_path(text@).parts[j] == p.parts@[j]@);
            }
        }
        Ok(p)
    }

    /// Tells whether the path starts at the root.
    pub fn is_absolute(&self) -> (b: bool)
        ensures
            b == self@.absolute,
    {
        self.absolute
    }

    /// Makes the path start at the root, or not.
    pub fn set_absolute(&mut self, absolute: bool)
        ensures
            final(self)@ == (PathView { absolute, parts: old(self)@.parts }),
    {
        self.absolute = absolute;
    }

    /// Tells whether the path has no component.
    pub fn is_empty(&self) -> (b: bool)
        ensures
            b == (self@.parts.len() == 0),
    {
        self.parts.len() == 0
    }

    /// Returns the number of components.
    pub fn get_elements_count(&self) -> (n: usize)
        ensures
            n == self@.parts.len(),
    {
        self.parts.len()
    }

    /// Returns the component at `index`.
    pub fn get(&self, index: usize) -> (name: &Vec<u8>)
        requires
            index < self@.parts.len(),
        ensures
            name@ == self@.parts[index as int],
    {
        &self.parts[index]
    }

    /// Returns a copy of the path.
    pub fn copy(&self) -> (p: Path)
        ensures
            p@ == self@,
    {
        let p = self.range(0, self.parts.len(), self.absolute);
        assert(self@.parts.subrange(0, self@.parts.len() as int) =~= self@.parts);
        p
    }

    /// Returns the components from `start` up to `end` as a path.
    fn range(&self, start: usize, end: usize, absolute: bool) -> (p: Path)
        requires
            start <= end <= self@.parts.len(),
        ensures
            p@ == (PathView { absolute, parts: self@.parts.subrange(start as int, end as int) }),
    {
        let mut parts: Vec<Vec<u8>> = Vec::new();
        let mut i: usize = start;
        while i < end
            invariant
                start <= i <= end <= self.parts@.len(),
                parts@.len() == i - start,
                forall|j: int| 0 <= j < i - start ==> (#[trigger] parts@[j])@ == self.parts@[start + j]@,
            decreases end - i,
        {
            parts.push(bytes_clone(&self.parts[i]));
            i += 1;
        }
        let p = Path { absolute, parts };
        assert(p@.parts =~= self@.parts.subrange(start as int, end as int));
        p
    }

    /// Returns the path made of the components from `start` on. It is absolute
    /// only if it starts at the first component of an absolute path.
    pub fn range_from(&self, start: usize) -> (p: Path)
        requires
            start <= self@.parts.len(),
        ensures
            p@ == (PathView {
                absolute: self@.absolute && start == 0,
                parts: self@.parts.skip(start as int),
            }),
    {
        self.range(start, self.parts.len(), self.absolute && start == 0)
    }

    /// Returns the path made of the components before `end`.
    pub fn range_to(&self, end: usize) -> (p: Path)
        requires
            end <= self@.parts.len(),
        ensures
            p@ == (PathView { absolute: self@.absolute, parts: self@.parts.take(end as int) }),
    {
        self.range(0, end, self.absolute)
    }

    /// Adds a component at the end.
    pub fn push(&mut self, name: Vec<u8>)
        ensures
            final(self)@ == old(self)@.push(name@),
    {
        self.parts.push(name);
        assert(self@.parts =~= old(self)@.parts.push(name@));
    }

    /// Removes the last component, if there is one.
    pub fn pop(&mut self)
        ensures
            old(self)@.parts.len() > 0 ==> final(self)@ == old(self)@.parent(),
            old(self)@.parts.len() == 0 ==> final(self)@ == old(self)@,
    {
        let _ = self.parts.pop();
        assert(old(self)@.parts.len() > 0 ==> self@.parts =~= old(self)@.parts.drop_last());
        assert(old(self)@.parts.len() == 0 ==> self@.parts =~= old(self)@.parts);
    }

    /// Returns `other` taken from `self`: a copy of `other` where it is
    /// absolute, else the components of both, one after the other.
    pub fn concat(&self, other: &Path) -> (p: Path)
        ensures
            p@ == self@.concat(other@),
    {
        if other.absolute {
            return other.copy();
        }
        let mut p = self.copy();
        let mut i: usize = 0;
        while i < other.parts.len()
            invariant
                i <= other.parts@.len(),
                p@.absolute == self@.absolute,
                p@.parts == self@.parts + other@.parts.take(i as int),
            decreases other.parts.len() - i,
        {
            let ghost before = p@.parts;
            p.parts.push(bytes_clone(&other.parts[i]));
            assert(p@.parts =~= before.push(other@.parts[i as int]));
            assert(other@.parts.take(i + 1) =~= other@.parts.take(i as int).push(
                other@.parts[i as int],
            ));
            assert(p@.parts =~= self@.parts + other@.parts.take(i + 1));
            i += 1;
        }
        assert(other@.parts.take(other.parts@.len() as int) =~= other@.parts);
        p
    }

    /// Writes the path out: a separator before each component, and a lone
    /// separator for the root.
    pub fn to_bytes(&self) -> (text: Vec<u8>)
        ensures
            self@.parts.len() > 0 ==> text@ == join_parts(self@.parts),
            self@.parts.len() == 0 ==> text@ == seq![PATH_SEPARATOR],
    {
        let mut text: Vec<u8> = Vec::new();
        if self.parts.len() == 0 {
            text.push(PATH_SEPARATOR);
            assert(text@ =~= seq![PATH_SEPARATOR]);
            return text;
        }
        let mut i: usize = 0;
        while i < self.parts.len()
            invariant
                i <= self.parts@.len(),
                text@ == join_parts(self@.parts.take(i as int)),
            decreases self.parts.len() - i,
        {
            let name = &self.parts[i];
            let ghost start = text@;
            text.push(PATH_SEPARATOR);
            let mut j: usize = 0;
            while j < name.len()
                invariant
                    j <= name@.len(),
                    text@ == start + seq![PATH_SEPARATOR] + name@.take(j as int),
                decreases name.len() - j,
            {
                text.push(name[j]);
                assert(name@.take(j + 1) =~= name@.take(j as int).push(name@[j as int]));
                assert(text@ =~= start + seq![PATH_SEPARATOR] + name@.take(j + 1));
                j += 1;
            }
            proof {
                assert(name@.take(name@.len() as int) =~= name@);
                let next = self@.parts.take(i + 1);
                assert(next.drop_last() =~= self@.parts.take(i as int));
                assert(next.last() == name@);
            }
            i += 1;
        }
        assert(self@.parts.take(self.parts@.len() as int) =~= self@.parts);
        text
    }
}

/// A scan whose pending component has reached a length keeps a component of
/// at least that length once one more byte that is no separator is read.
proof fn lemma_name_grows(text: Seq<u8>, i: int)
    requires
        0 <= i < text.len(),
        text[i] != PATH_SEPARATOR,
    ensures
        exists|j: int|
            0 <= j < parse_path(text).parts.len() && (#[trigger] parse_path(text).parts[j]).len()
                > scan_path(text.take(i)).pending.len(),
{
    lemma_pending_survives(text, i + 1);
    assert(text.take(i + 1).drop_last() =~= text.take(i));
}

/// The component that is pending after `n` bytes is the start of a component
/// of the whole text, or is empty.
proof fn lemma_pending_survives(text: Seq<u8>, n: int)
    requires
        0 <= n <= text.len(),
        scan_path(text.take(n)).pending.len() > 0,
    ensures
        exists|j: int|
            0 <= j < parse_path(text).parts.len() && (#[trigger] parse_path(text).parts[j]).len()
                >= scan_path(text.take(n)).pending.len(),
    decreases text.len() - n,
{
    let here = scan_path(text.take(n));
    if n == text.len() {
        assert(text.take(n) =~= text);
        let parts = parse_path(text).parts;
        assert(parts[parts.len() - 1] == here.pending);
    } else {
        let next = scan_path(text.take(n + 1));
        assert(text.take(n + 1).drop_last() =~= text.take(n));
        if text[n] == PATH_SEPARATOR {
            lemma_done_survives(text, n + 1, next.done.len() - 1);
        } else {
            lemma_pending_survives(text, n + 1);
        }
    }
}

/// A component that is complete after `n` bytes is a component of the whole text.
proof fn lemma_done_survives(text: Seq<u8>, n: int, k: int)
    requires
        0 <= n <= text.len(),
        0 <= k < scan_path(text.take(n)).done.len(),
    ensures
        k < parse_path(text).parts.len(),
        parse_path(text).parts[k] == scan_path(text.take(n)).done[k],
    decreases text.len() - n,
{
    if n == text.len() {
        assert(text.take(n) =~= text);
    } else {
        assert(text.take(n + 1).drop_last() =~= text.take(n));
        lemma_done_survives(text, n + 1, k);
    }
}

/// Writing a path of valid names out and parsing the text gives the path back,
/// from the root.
pub proof fn lemma_parse_join(parts: Seq<Seq<u8>>)
    requires
        parts.len() > 0,
        forall|i: int| 0 <= i < parts.len() ==> valid_name(#[trigger] parts[i]),
    ensures
        parse_path(join_parts(parts)) == (PathView { absolute: true, parts }),
    decreases parts.len(),
{
    lemma_scan_join(parts);
    lemma_join_starts_with_separator(parts);
}

/// The text of a non-empty list of components starts with a separator.
pub proof fn lemma_join_starts_with_separator(parts: Seq<Seq<u8>>)
    requires
        parts.len() > 0,
    ensures
        join_parts(parts).len() > 0,
        join_parts(parts)[0] == PATH_SEPARATOR,
    decreases parts.len(),
{
    if parts.len() > 1 {
        lemma_join_starts_with_separator(parts.drop_last());
    } else {
        assert(join_parts(parts.drop_last()) =~= Seq::<u8>::empty());
    }
}

} // verus!
