//! A recorded filesystem: the entries below some roots as they were read,
//! with what could not be read.

use vstd::prelude::*;
use crate::platform::Metadata;
use crate::progress::FailureReason;

verus! {

/// What kind of entry a path names.
#[derive(Clone, Copy, Debug, PartialEq, Eq, Structural)]
pub enum EntryKind {
    File,
    Directory,
    Symlink,
}

/// One recorded entry.
#[derive(Debug)]
pub struct FsEntry {
    name: String,
    kind: EntryKind,
    metadata: Result<Metadata, FailureReason>,
    listing_error: Option<FailureReason>,
    children: Vec<usize>,
    target: Option<usize>,
}

/// One recorded entry as a mathematical value.
pub ghost struct EntryView {
    /// The name of the entry in its directory; the whole path for a root.
    pub name: Seq<char>,
    pub kind: EntryKind,
    /// The metadata of the entry, or why it could not be read.
    pub metadata: Result<Metadata, FailureReason>,
    /// Why the entries of a directory could not be listed, where they could
    /// not.
    pub listing_error: Option<FailureReason>,
    /// The entries of a directory, in the order in which they were listed.
    pub children: Seq<usize>,
    /// The entry that a symlink leads to, where it leads to one.
    pub target: Option<usize>,
}

impl View for FsEntry {
    type V = EntryView;

    closed spec fn view(&self) -> EntryView {
        EntryView {
            name: self.name@,
            kind: self.kind,
            metadata: self.metadata,
            listing_error: self.listing_error,
            children: self.children@,
            target: self.target,
        }
    }
}

/// An entry as it is when it is first recorded: nothing listed below it, and
/// leading nowhere.
pub open spec fn fresh_entry(
    name: Seq<char>,
    kind: EntryKind,
    metadata: Result<Metadata, FailureReason>,
) -> EntryView {
    EntryView { name, kind, metadata, listing_error: None, children: Seq::empty(), target: None }
}

/// A recorded filesystem as a mathematical value: its entries by number, and
/// the numbers of the roots.
pub ghost struct SnapshotView {
    pub entries: Seq<EntryView>,
    pub roots: Seq<usize>,
}

impl SnapshotView {
    /// Every entry of a directory has a larger number than the directory,
    /// every symlink that leads somewhere leads to a recorded entry that is
    /// no symlink, and every root is recorded.
    pub open spec fn wf(self) -> bool {
        &&& forall|i: int, k: int|
            0 <= i < self.entries.len() && 0 <= k < self.entries[i].children.len() ==> i < (
            #[trigger] self.entries[i].children[k]) < self.entries.len()
        &&& forall|i: int|
            0 <= i < self.entries.len() ==> (#[trigger] self.entries[i].target matches Some(t) ==> t
                < self.entries.len() && self.entries[t as int].kind != EntryKind::Symlink)
        &&& forall|k: int| 0 <= k < self.roots.len() ==> (#[trigger] self.roots[k]) < self.entries.len()
    }

    /// The snapshot with one more root.
    pub open spec fn with_root(self, entry: EntryView) -> SnapshotView {
        SnapshotView {
            entries: self.entries.push(entry),
            roots: self.roots.push(self.entries.len() as usize),
        }
    }

    /// The snapshot with one more entry, listed last in the directory
    /// `parent`.
    pub open spec fn with_entry(self, parent: int, entry: EntryView) -> SnapshotView {
        let directory = self.entries[parent];
        let listed = EntryView {
            children: directory.children.push(self.entries.len() as usize),
            ..directory
        };
        SnapshotView { entries: self.entries.push(entry).update(parent, listed), roots: self.roots }
    }

    /// The snapshot in which the directory `dir` could not be listed.
    pub open spec fn with_listing_error(self, dir: int, reason: FailureReason) -> SnapshotView {
        let failed = EntryView { listing_error: Some(reason), ..self.entries[dir] };
        SnapshotView { entries: self.entries.update(dir, failed), roots: self.roots }
    }

    /// The snapshot in which the symlink `link` leads to `target`.
    pub open spec fn with_target(self, link: int, target: usize) -> SnapshotView {
        let leading = EntryView { target: Some(target), ..self.entries[link] };
        SnapshotView { entries: self.entries.update(link, leading), roots: self.roots }
    }

    /// The first of the roots from position `from` on that is named `path`.
    pub open spec fn root_named_from(self, path: Seq<char>, from: int) -> Option<usize>
        decreases self.roots.len() - from,
    {
        if from < 0 || from >= self.roots.len() {
            None
        } else if self.entries[self.roots[from] as int].name == path {
            Some(self.roots[from])
        } else {
            self.root_named_from(path, from + 1)
        }
    }

    /// The first root that is named `path`.
    pub open spec fn root_named(self, path: Seq<char>) -> Option<usize> {
        self.root_named_from(path, 0)
    }
}

/// A recorded filesystem. It is built root by root and entry by entry, a
/// directory before its entries.
#[derive(Debug)]
pub struct Snapshot {
    entries: Vec<FsEntry>,
    roots: Vec<usize>,
}

impl View for Snapshot {
    type V = SnapshotView;

    closed spec fn view(&self) -> SnapshotView {
        SnapshotView { entries: self.entries@.map_values(|e: FsEntry| e@), roots: self.roots@ }
    }
}

impl Snapshot {
    /// The invariant of a snapshot.
    pub open spec fn wf(&self) -> bool {
        self@.wf()
    }

    /// A snapshot without entries.
    pub fn new() -> (fs: Snapshot)
        ensures
            fs.wf(),
            fs@ == (SnapshotView { entries: Seq::empty(), roots: Seq::empty() }),
    {
        let fs = Snapshot { entries: Vec::new(), roots: Vec::new() };
        assert(fs@.entries =~= Seq::<EntryView>::empty());
        fs
    }

    /// The number of entries.
    pub fn len(&self) -> (n: usize)
        ensures
            n == self@.entries.len(),
    {
        self.entries.len()
    }

    /// Records a root at `path`, and gives its number.
    pub fn add_root(
        &mut self,
        path: String,
        kind: EntryKind,
        metadata: Result<Metadata, FailureReason>,
    ) -> (id: usize)
        requires
            old(self).wf(),
        ensures
            final(self).wf(),
            id == old(self)@.entries.len(),
            final(self)@ == old(self)@.with_root(fresh_entry(path@, kind, metadata)),
    {
        let id: usize = self.entries.len();
        self.entries.push(
            FsEntry { name: path, kind, metadata, listing_error: None, children: Vec::new(), target: None },
        );
        self.roots.push(id);
        proof {
            let after = old(self)@.with_root(fresh_entry(path@, kind, metadata));
            assert(self@.entries =~= after.entries);
            assert(self@.roots =~= after.roots);
        }
        id
    }

    /// Records an entry named `name` as the last one listed in the directory
    /// `parent`, and gives its number. Nothing is recorded where `parent` is
    /// no recorded directory.
    pub fn add_entry(
        &mut self,
        parent: usize,
        name: String,
        kind: EntryKind,
        metadata: Result<Metadata, FailureReason>,
    ) -> (id: Option<usize>)
        requires
            old(self).wf(),
        ensures
            final(self).wf(),
            id is Some == (parent < old(self)@.entries.len() && old(self)@.entries[parent as int].kind
                == EntryKind::Directory),
            id matches Some(n) ==> n == old(self)@.entries.len() && final(self)@ == old(self)@.with_entry(
                parent as int,
                fresh_entry(name@, kind, metadata),
            ),
            id is None ==> final(self)@ == old(self)@,
    {
        if parent >= self.entries.len() {
            return None;
        }
        match self.entries[parent].kind {
            EntryKind::Directory => {},
            _ => {
                return None;
            },
        }
        let n: usize = self.entries.len();
        self.entries.push(
            FsEntry { name, kind, metadata, listing_error: None, children: Vec::new(), target: None },
        );
        self.entries[parent].children.push(n);
        proof {
            let after = old(self)@.with_entry(parent as int, fresh_entry(name@, kind, metadata));
            assert(self@.entries =~= after.entries);
            assert(self@.roots =~= after.roots);
            assert forall|i: int, k: int|
                0 <= i < after.entries.len() && 0 <= k < after.entries[i].children.len() implies i < (
                #[trigger] after.entries[i].children[k]) < after.entries.len() by {
                if i == parent && k == old(self)@.entries[i].children.len() {
                } else if i < n {
                    assert(after.entries[i].children[k] == old(self)@.entries[i].children[k]);
                }
            }
            assert forall|i: int| 0 <= i < after.entries.len() implies (
            #[trigger] after.entries[i].target matches Some(t) ==> t < after.entries.len()
                && after.entries[t as int].kind != EntryKind::Symlink) by {
                if i < n {
                    assert(after.entries[i].target == old(self)@.entries[i].target);
                }
            }
        }
        Some(n)
    }

    /// Records that the directory `dir` could not be listed. Nothing is
    /// recorded, and `false` returned, where `dir` is no recorded directory.
    pub fn fail_listing(&mut self, dir: usize, reason: FailureReason) -> (done: bool)
        requires
            old(self).wf(),
        ensures
            final(self).wf(),
            done == (dir < old(self)@.entries.len() && old(self)@.entries[dir as int].kind
                == EntryKind::Directory),
            done ==> final(self)@ == old(self)@.with_listing_error(dir as int, reason),
            !done ==> final(self)@ == old(self)@,
    {
        if dir >= self.entries.len() {
            return false;
        }
        match self.entries[dir].kind {
            EntryKind::Directory => {},
            _ => {
                return false;
            },
        }
        self.entries[dir].listing_error = Some(reason);
        proof {
            let after = old(self)@.with_listing_error(dir as int, reason);
            assert(self@.entries =~= after.entries);
            assert forall|i: int, k: int|
                0 <= i < after.entries.len() && 0 <= k < after.entries[i].children.len() implies i < (
                #[trigger] after.entries[i].children[k]) < after.entries.len() by {
                assert(after.entries[i].children[k] == old(self)@.entries[i].children[k]);
            }
            assert forall|i: int| 0 <= i < after.entries.len() implies (
            #[trigger] after.entries[i].target matches Some(t) ==> t < after.entries.len()
                && after.entries[t as int].kind != EntryKind::Symlink) by {
                assert(after.entries[i].target == old(self)@.entries[i].target);
            }
        }
        true
    }

    /// Records that the symlink `link` leads to the entry `target`. Nothing
    /// is recorded, and `false` returned, where `link` is no recorded symlink
    /// or `target` no recorded file or directory.
    pub fn set_target(&mut self, link: usize, target: usize) -> (done: bool)
        requires
            old(self).wf(),
        ensures
            final(self).wf(),
            done == (link < old(self)@.entries.len() && target < old(self)@.entries.len()
                && old(self)@.entries[link as int].kind == EntryKind::Symlink
                && old(self)@.entries[target as int].kind != EntryKind::Symlink),
            done ==> final(self)@ == old(self)@.with_target(link as int, target),
            !done ==> final(self)@ == old(self)@,
    {
        if link >= self.entries.len() || target >= self.entries.len() {
            return false;
        }
        match self.entries[link].kind {
            EntryKind::Symlink => {},
            _ => {
                return false;
            },
        }
        match self.entries[target].kind {
            EntryKind::Symlink => {
                return false;
            },
            _ => {},
        }
        self.entries[link].target = Some(target);
        proof {
            let after = old(self)@.with_target(link as int, target);
            assert(self@.entries =~= after.entries);
            assert forall|i: int, k: int|
                0 <= i < after.entries.len() && 0 <= k < after.entries[i].children.len() implies i < (
                #[trigger] after.entries[i].children[k]) < after.entries.len() by {
                assert(after.entries[i].children[k] == old(self)@.entries[i].children[k]);
            }
            assert forall|i: int| 0 <= i < after.entries.len() implies (
            #[trigger] after.entries[i].target matches Some(t) ==> t < after.entries.len()
                && after.entries[t as int].kind != EntryKind::Symlink) by {
                if i != link {
                    assert(after.entries[i].target == old(self)@.entries[i].target);
                }
            }
        }
        true
    }

    /// The number of the first root that is named `path`.
    pub fn find_root(&self, path: &String) -> (id: Option<usize>)
        requires
            self.wf(),
        ensures
            id == self@.root_named(path@),
            id matches Some(n) ==> n < self@.entries.len(),
    {
        let mut k: usize = 0;
        while k < self.roots.len()
            invariant
                k <= self.roots.len(),
                self.wf(),
                self@.root_named(path@) == self@.root_named_from(path@, k as int),
            decreases self.roots.len() - k,
        {
            let n: usize = self.roots[k];
            assert(self@.roots[k as int] == n);
            assert(self@.entries[n as int] == self.entries@[n as int]@);
            if self.entries[n].name == *path {
                return Some(n);
            }
            k += 1;
        }
        None
    }

    /// The name of the entry `i`.
    pub(crate) fn name(&self, i: usize) -> (name: &String)
        requires
            i < self@.entries.len(),
        ensures
            name@ == self@.entries[i as int].name,
    {
        &self.entries[i].name
    }

    /// The kind of the entry `i`.
    pub(crate) fn kind(&self, i: usize) -> (kind: EntryKind)
        requires
            i < self@.entries.len(),
        ensures
            kind == self@.entries[i as int].kind,
    {
        self.entries[i].kind
    }

    /// The metadata of the entry `i`, or why it could not be read.
    pub(crate) fn metadata(&self, i: usize) -> (metadata: Result<Metadata, FailureReason>)
        requires
            i < self@.entries.len(),
        ensures
            metadata == self@.entries[i as int].metadata,
    {
        self.entries[i].metadata
    }

    /// Why the directory `i` could not be listed, where it could not.
    pub(crate) fn listing_error(&self, i: usize) -> (reason: Option<FailureReason>)
        requires
            i < self@.entries.len(),
        ensures
            reason == self@.entries[i as int].listing_error,
    {
        self.entries[i].listing_error
    }

    /// The entries listed in the directory `i`.
    pub(crate) fn children(&self, i: usize) -> (children: &Vec<usize>)
        requires
            i < self@.entries.len(),
        ensures
            children@ == self@.entries[i as int].children,
    {
        &self.entries[i].children
    }

    /// The entry that the symlink `i` leads to.
    pub(crate) fn target(&self, i: usize) -> (target: Option<usize>)
        requires
            i < self@.entries.len(),
        ensures
            target == self@.entries[i as int].target,
    {
        self.entries[i].target
    }
}

} // verus!
