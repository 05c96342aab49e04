//! The walk: from a recorded filesystem and a list of roots to the forest of
//! aggregated sizes.

use std::collections::HashSet;
use vstd::prelude::*;
use crate::node::{
    aggregate, aggregate_sizes, forest_view, holds_directory, is_acyclic, is_aggregated,
    lemma_forest_view, lemma_forest_view_push, FileId, FileTime, Metric, Node, NodeView,
};
use crate::platform::{
    apparent_bytes, disk_bytes, get_apparent_size, get_disk_size, get_filesystem_id, get_identity,
    get_time_size, identity, time_as_size, Metadata,
};
use crate::progress::{lemma_advanced_twice, ErrorView, FailureReason, ProgressTracker};
use crate::snapshot::{EntryKind, Snapshot, SnapshotView};
use crate::text::{
    chars_occur_in, hidden_name, holds_text, is_hidden, joined, occurs_in, texts, to_chars, Pattern,
};

verus! {

/// What a walk leaves out and what it measures.
#[derive(Clone, Debug)]
pub struct WalkData {
    /// Paths that are not walked.
    pub ignore_directories: Vec<String>,
    /// Where any are given, only files whose path matches one of them are
    /// counted.
    pub filter_regex: Vec<Pattern>,
    /// Files whose path matches one of them are not counted.
    pub invert_filter_regex: Vec<Pattern>,
    /// Where any are given, only entries on these filesystems are walked.
    pub allowed_filesystems: Vec<u64>,
    /// Files last modified before this time count as 0.
    pub filter_modified_time: Option<i64>,
    /// Files last read before this time count as 0.
    pub filter_accessed_time: Option<i64>,
    /// Files whose metadata last changed before this time count as 0.
    pub filter_changed_time: Option<i64>,
    /// Sizes are bytes of content, not bytes on disk.
    pub use_apparent_size: bool,
    /// Sizes are numbers of files. Goes before the other metrics.
    pub by_filecount: bool,
    /// Sizes are the latest of this time. Goes before the sizes in bytes.
    pub by_filetime: Option<FileTime>,
    /// Entries whose name starts with a dot are left out.
    pub ignore_hidden: bool,
    /// Symlinks are walked as what they lead to.
    pub follow_links: bool,
}

/// The settings of a walk as a mathematical value.
pub ghost struct WalkDataView {
    pub ignore_directories: Seq<Seq<char>>,
    pub filter_regex: Seq<Seq<char>>,
    pub invert_filter_regex: Seq<Seq<char>>,
    pub allowed_filesystems: Seq<u64>,
    pub filter_modified_time: Option<i64>,
    pub filter_accessed_time: Option<i64>,
    pub filter_changed_time: Option<i64>,
    pub metric: Metric,
    pub ignore_hidden: bool,
    pub follow_links: bool,
}

/// The one metric that the three settings choose.
pub open spec fn chosen_metric(
    use_apparent_size: bool,
    by_filecount: bool,
    by_filetime: Option<FileTime>,
) -> Metric {
    if by_filecount {
        Metric::FileCount
    } else if by_filetime is Some {
        Metric::Time(by_filetime.unwrap())
    } else if use_apparent_size {
        Metric::ApparentSize
    } else {
        Metric::DiskUsage
    }
}

/// The texts of `patterns`, in order.
pub open spec fn pattern_texts(patterns: Seq<Pattern>) -> Seq<Seq<char>> {
    patterns.map_values(|p: Pattern| p@)
}

impl View for WalkData {
    type V = WalkDataView;

    open spec fn view(&self) -> WalkDataView {
        WalkDataView {
            ignore_directories: texts(self.ignore_directories@),
            filter_regex: pattern_texts(self.filter_regex@),
            invert_filter_regex: pattern_texts(self.invert_filter_regex@),
            allowed_filesystems: self.allowed_filesystems@,
            filter_modified_time: self.filter_modified_time,
            filter_accessed_time: self.filter_accessed_time,
            filter_changed_time: self.filter_changed_time,
            metric: chosen_metric(self.use_apparent_size, self.by_filecount, self.by_filetime),
            ignore_hidden: self.ignore_hidden,
            follow_links: self.follow_links,
        }
    }
}

/// `path` matches one of `patterns`.
pub open spec fn matches_any(patterns: Seq<Seq<char>>, path: Seq<char>) -> bool {
    exists|i: int| 0 <= i < patterns.len() && occurs_in(#[trigger] patterns[i], path)
}

/// `path` matches one of the patterns to keep, where there are any, and none
/// of those to leave out.
pub open spec fn passes_patterns(cfg: WalkDataView, path: Seq<char>) -> bool {
    (cfg.filter_regex.len() == 0 || matches_any(cfg.filter_regex, path)) && !matches_any(
        cfg.invert_filter_regex,
        path,
    )
}

/// `time` lies before the bound, where there is one.
pub open spec fn is_before(bound: Option<i64>, time: i64) -> bool {
    bound matches Some(least) && time < least
}

/// One of the entry's times lies before its bound.
pub open spec fn is_too_old(cfg: WalkDataView, meta: Metadata) -> bool {
    is_before(cfg.filter_modified_time, meta.modified) || is_before(
        cfg.filter_accessed_time,
        meta.accessed,
    ) || is_before(cfg.filter_changed_time, meta.changed)
}

/// An entry of a directory that is left out for its path or its name.
pub open spec fn is_skipped(cfg: WalkDataView, name: Seq<char>, path: Seq<char>) -> bool {
    cfg.ignore_directories.contains(path) || (cfg.ignore_hidden && hidden_name(name))
}

/// An entry that lies on a filesystem that is not walked.
pub open spec fn is_foreign(cfg: WalkDataView, meta: Metadata) -> bool {
    cfg.allowed_filesystems.len() > 0 && !cfg.allowed_filesystems.contains(meta.device)
}

/// The size of an entry that is no directory. A file that is too old counts
/// as 0; only files are counted where files are counted.
pub open spec fn leaf_size(cfg: WalkDataView, meta: Metadata, is_file: bool) -> nat {
    if is_file && is_too_old(cfg, meta) {
        0
    } else {
        match cfg.metric {
            Metric::FileCount => if is_file {
                1
            } else {
                0
            },
            Metric::Time(which) => time_as_size(meta, which),
            Metric::ApparentSize => apparent_bytes(meta),
            Metric::DiskUsage => disk_bytes(meta),
        }
    }
}

/// What a directory adds to the sizes of its entries: its own blocks where
/// disk usage is measured and its path passes the patterns, else nothing.
pub open spec fn own_size(cfg: WalkDataView, meta: Metadata, path: Seq<char>) -> nat {
    if cfg.metric == Metric::DiskUsage && passes_patterns(cfg, path) {
        disk_bytes(meta)
    } else {
        0
    }
}

/// What walking one entry, or the entries of one directory, gives.
pub ghost struct Outcome {
    /// The nodes built, in order: at most one for one entry.
    pub nodes: Seq<NodeView>,
    /// The directories entered on the way.
    pub entered: Set<FileId>,
    /// What could not be read, in the order in which it was met.
    pub errors: Seq<ErrorView>,
    /// The number of files seen.
    pub files: nat,
    /// The sum of their sizes.
    pub bytes: nat,
}

impl Outcome {
    /// Nothing walked.
    pub open spec fn nothing() -> Outcome {
        Outcome { nodes: Seq::empty(), entered: Set::empty(), errors: Seq::empty(), files: 0, bytes: 0 }
    }

    /// An entry that could not be walked: no node, and one failure.
    pub open spec fn failure(path: Seq<char>, reason: FailureReason) -> Outcome {
        Outcome {
            nodes: Seq::empty(),
            entered: Set::empty(),
            errors: seq![ErrorView { path, reason }],
            files: 0,
            bytes: 0,
        }
    }

    /// An entry that is no directory.
    pub open spec fn leaf(name: Seq<char>, meta: Metadata, size: nat) -> Outcome {
        Outcome {
            nodes: seq![
                NodeView {
                    name,
                    size,
                    children: Seq::empty(),
                    device_id: Some(identity(meta)),
                    is_dir: false,
                },
            ],
            entered: Set::empty(),
            errors: Seq::empty(),
            files: 1,
            bytes: size,
        }
    }

    /// This outcome, and then `next`.
    pub open spec fn followed_by(self, next: Outcome) -> Outcome {
        Outcome {
            nodes: self.nodes + next.nodes,
            entered: self.entered.union(next.entered),
            errors: self.errors + next.errors,
            files: self.files + next.files,
            bytes: self.bytes + next.bytes,
        }
    }

    /// The directory named `name` with the metadata `meta`, whose entries
    /// gave this outcome: one node over theirs, with their aggregated size.
    pub open spec fn under(self, cfg: WalkDataView, name: Seq<char>, meta: Metadata, path: Seq<char>) -> Outcome {
        Outcome {
            nodes: seq![
                NodeView {
                    name,
                    size: aggregate(cfg.metric, own_size(cfg, meta, path), self.nodes),
                    children: self.nodes,
                    device_id: Some(identity(meta)),
                    is_dir: true,
                },
            ],
            entered: if cfg.follow_links {
                self.entered.insert(identity(meta))
            } else {
                self.entered
            },
            errors: self.errors,
            files: self.files,
            bytes: self.bytes,
        }
    }
}

/// The number of entries among the first `k` whose metadata was read and
/// whose identity is not in `visited`.
pub open spec fn unvisited_below(fs: SnapshotView, visited: Set<FileId>, k: int) -> nat
    decreases k,
{
    if k <= 0 {
        0
    } else {
        unvisited_below(fs, visited, k - 1) + if is_unvisited(fs, visited, k - 1) {
            1nat
        } else {
            0nat
        }
    }
}

/// The metadata of the entry `i` was read, and its identity is not in
/// `visited`.
pub open spec fn is_unvisited(fs: SnapshotView, visited: Set<FileId>, i: int) -> bool {
    fs.entries[i].metadata matches Ok(meta) && !visited.contains(identity(meta))
}

/// The number of entries that a walk which follows symlinks can still enter.
pub open spec fn unvisited(fs: SnapshotView, visited: Set<FileId>) -> nat {
    unvisited_below(fs, visited, fs.entries.len() as int)
}

/// The more is visited, the less is left.
pub proof fn lemma_unvisited_shrinks(fs: SnapshotView, visited: Set<FileId>, more: Set<FileId>, k: int)
    requires
        visited.subset_of(more),
    ensures
        unvisited_below(fs, more, k) <= unvisited_below(fs, visited, k),
    decreases k,
{
    if k > 0 {
        lemma_unvisited_shrinks(fs, visited, more, k - 1);
    }
}

/// Entering an entry that was not visited leaves less.
pub proof fn lemma_unvisited_after_entering(fs: SnapshotView, visited: Set<FileId>, t: int, k: int)
    requires
        0 <= t < k,
        is_unvisited(fs, visited, t),
    ensures
        unvisited_below(fs, visited.insert(identity(fs.entries[t].metadata->Ok_0)), k) < unvisited_below(
            fs,
            visited,
            k,
        ),
    decreases k,
{
    let more = visited.insert(identity(fs.entries[t].metadata->Ok_0));
    if t == k - 1 {
        lemma_unvisited_shrinks(fs, visited, more, k - 1);
    } else {
        lemma_unvisited_after_entering(fs, visited, t, k - 1);
    }
}

/// The entry that the walk sees at `i`: the entry itself, or what it leads to
/// where it is a symlink and symlinks are followed.
pub open spec fn seen_at(fs: SnapshotView, cfg: WalkDataView, i: int) -> Option<int> {
    if fs.entries[i].kind == EntryKind::Symlink && cfg.follow_links {
        match fs.entries[i].target {
            Some(t) => Some(t as int),
            None => None,
        }
    } else {
        Some(i)
    }
}

/// What walking the entry `i` at `path` gives, where the directories
/// `visited` were entered before. A root is `top`; what is left out of a
/// directory's entries is not left out of the roots.
pub open spec fn walk_entry(
    fs: SnapshotView,
    cfg: WalkDataView,
    i: int,
    path: Seq<char>,
    visited: Set<FileId>,
    top: bool,
) -> Outcome
    decreases unvisited(fs, visited), 2 * (fs.entries.len() - i) + 1, 0nat,
    when fs.wf() && 0 <= i < fs.entries.len()
{
    let name = fs.entries[i].name;
    if !top && is_skipped(cfg, name, path) {
        Outcome::nothing()
    } else {
        match seen_at(fs, cfg, i) {
            None => Outcome::failure(path, FailureReason::NotFound),
            Some(t) => match fs.entries[t].metadata {
                Err(reason) => Outcome::failure(path, reason),
                Ok(meta) => if !top && is_foreign(cfg, meta) {
                    Outcome::nothing()
                } else if fs.entries[t].kind == EntryKind::Directory {
                    if cfg.follow_links && visited.contains(identity(meta)) {
                        Outcome::failure(path, FailureReason::Cycle)
                    } else {
                        let inside = if cfg.follow_links {
                            visited.insert(identity(meta))
                        } else {
                            visited
                        };
                        let below = match fs.entries[t].listing_error {
                            Some(reason) => Outcome::failure(path, reason),
                            None => {
                                proof {
                                    if cfg.follow_links {
                                        lemma_unvisited_after_entering(
                                            fs,
                                            visited,
                                            t,
                                            fs.entries.len() as int,
                                        );
                                    }
                                }
                                walk_list(fs, cfg, t, fs.entries[t].children.len() as int, path, inside)
                            },
                        };
                        below.under(cfg, name, meta, path)
                    }
                } else if !top && !passes_patterns(cfg, path) {
                    Outcome::nothing()
                } else {
                    Outcome::leaf(
                        name,
                        meta,
                        leaf_size(cfg, meta, fs.entries[t].kind == EntryKind::File),
                    )
                },
            },
        }
    }
}

/// What walking the first `k` entries of the directory `dir` at `base` gives,
/// one after the other, where the directories `visited` were entered before.
pub open spec fn walk_list(
    fs: SnapshotView,
    cfg: WalkDataView,
    dir: int,
    k: int,
    base: Seq<char>,
    visited: Set<FileId>,
) -> Outcome
    decreases unvisited(fs, visited), 2 * (fs.entries.len() - dir), k,
    when fs.wf() && 0 <= dir < fs.entries.len() && 0 <= k <= fs.entries[dir].children.len()
{
    if k == 0 {
        Outcome::nothing()
    } else {
        let before = walk_list(fs, cfg, dir, k - 1, base, visited);
        let child = fs.entries[dir].children[k - 1] as int;
        proof {
            lemma_unvisited_shrinks(
                fs,
                visited,
                visited.union(before.entered),
                fs.entries.len() as int,
            );
        }
        before.followed_by(
            walk_entry(
                fs,
                cfg,
                child,
                joined(base, fs.entries[child].name),
                visited.union(before.entered),
                false,
            ),
        )
    }
}

impl WalkData {
    /// The settings of a plain walk: disk usage, nothing left out but hidden
    /// entries where `ignore_hidden` says so, symlinks not followed.
    pub fn new(ignore_hidden: bool) -> (cfg: WalkData)
        ensures
            cfg@ == plain_walk(ignore_hidden),
    {
        let cfg = WalkData {
            ignore_directories: Vec::new(),
            filter_regex: Vec::new(),
            invert_filter_regex: Vec::new(),
            allowed_filesystems: Vec::new(),
            filter_modified_time: None,
            filter_accessed_time: None,
            filter_changed_time: None,
            use_apparent_size: false,
            by_filecount: false,
            by_filetime: None,
            ignore_hidden,
            follow_links: false,
        };
        proof {
            assert(cfg@.ignore_directories =~= Seq::<Seq<char>>::empty());
            assert(cfg@.filter_regex =~= Seq::<Seq<char>>::empty());
            assert(cfg@.invert_filter_regex =~= Seq::<Seq<char>>::empty());
            assert(cfg@.allowed_filesystems =~= Seq::<u64>::empty());
        }
        cfg
    }

    /// The metric that the settings choose.
    pub fn metric(&self) -> (metric: Metric)
        ensures
            metric == self@.metric,
    {
        if self.by_filecount {
            Metric::FileCount
        } else {
            match self.by_filetime {
                Some(which) => Metric::Time(which),
                None => if self.use_apparent_size {
                    Metric::ApparentSize
                } else {
                    Metric::DiskUsage
                },
            }
        }
    }
}

/// The settings of a plain walk.
pub open spec fn plain_walk(ignore_hidden: bool) -> WalkDataView {
    WalkDataView {
        ignore_directories: Seq::empty(),
        filter_regex: Seq::empty(),
        invert_filter_regex: Seq::empty(),
        allowed_filesystems: Seq::empty(),
        filter_modified_time: None,
        filter_accessed_time: None,
        filter_changed_time: None,
        metric: Metric::DiskUsage,
        ignore_hidden,
        follow_links: false,
    }
}

/// Whether the path with the characters `path` matches one of `patterns`.
pub fn any_matches(patterns: &Vec<Pattern>, path: &Vec<char>) -> (r: bool)
    ensures
        r == matches_any(pattern_texts(patterns@), path@),
{
    let mut i: usize = 0;
    while i < patterns.len()
        invariant
            i <= patterns.len(),
            forall|m: int| 0 <= m < i ==> !occurs_in(#[trigger] pattern_texts(patterns@)[m], path@),
        decreases patterns.len() - i,
    {
        if chars_occur_in(&patterns[i].fragment, path) {
            assert(occurs_in(pattern_texts(patterns@)[i as int], path@));
            return true;
        }
        i += 1;
    }
    false
}

/// Whether `path` matches one of the patterns to keep, where there are any,
/// and none of those to leave out.
pub fn is_filtered_in(cfg: &WalkData, path: &str) -> (r: bool)
    ensures
        r == passes_patterns(cfg@, path@),
{
    if cfg.filter_regex.len() == 0 && cfg.invert_filter_regex.len() == 0 {
        return true;
    }
    let chars = to_chars(path);
    (cfg.filter_regex.len() == 0 || any_matches(&cfg.filter_regex, &chars)) && !any_matches(
        &cfg.invert_filter_regex,
        &chars,
    )
}

/// Whether `time` lies before the bound, where there is one.
pub fn lies_before(bound: Option<i64>, time: i64) -> (r: bool)
    ensures
        r == is_before(bound, time),
{
    match bound {
        Some(least) => time < least,
        None => false,
    }
}

/// Whether one of the entry's times lies before its bound.
pub fn is_filtered_out_due_to_file_time(cfg: &WalkData, meta: &Metadata) -> (r: bool)
    ensures
        r == is_too_old(cfg@, *meta),
{
    lies_before(cfg.filter_modified_time, meta.modified) || lies_before(
        cfg.filter_accessed_time,
        meta.accessed,
    ) || lies_before(cfg.filter_changed_time, meta.changed)
}

/// Whether an entry of a directory is left out for its path or its name.
pub fn is_ignored_path(cfg: &WalkData, name: &str, path: &String) -> (r: bool)
    ensures
        r == is_skipped(cfg@, name@, path@),
{
    holds_text(&cfg.ignore_directories, path) || (cfg.ignore_hidden && is_hidden(name))
}

/// Whether the entry lies on a filesystem that is not walked.
pub fn is_on_other_filesystem(cfg: &WalkData, meta: &Metadata) -> (r: bool)
    ensures
        r == is_foreign(cfg@, *meta),
{
    if cfg.allowed_filesystems.len() == 0 {
        return false;
    }
    let device: u64 = get_filesystem_id(meta);
    let mut i: usize = 0;
    while i < cfg.allowed_filesystems.len()
        invariant
            i <= cfg.allowed_filesystems.len(),
            device == meta.device,
            forall|m: int| 0 <= m < i ==> cfg.allowed_filesystems@[m] != device,
        decreases cfg.allowed_filesystems.len() - i,
    {
        if cfg.allowed_filesystems[i] == device {
            return false;
        }
        i += 1;
    }
    true
}

/// The size of an entry that is no directory.
pub fn size_of_leaf(cfg: &WalkData, meta: &Metadata, is_file: bool) -> (size: u64)
    ensures
        size == leaf_size(cfg@, *meta, is_file),
{
    if is_file && is_filtered_out_due_to_file_time(cfg, meta) {
        return 0;
    }
    match cfg.metric() {
        Metric::FileCount => if is_file {
            1
        } else {
            0
        },
        Metric::Time(which) => get_time_size(meta, which),
        Metric::ApparentSize => get_apparent_size(meta),
        Metric::DiskUsage => get_disk_size(meta),
    }
}

/// What a directory adds to the sizes of its entries.
pub fn size_of_directory(cfg: &WalkData, meta: &Metadata, path: &str) -> (size: u64)
    ensures
        size == own_size(cfg@, *meta, path@),
{
    match cfg.metric() {
        Metric::DiskUsage => if is_filtered_in(cfg, path) {
            get_disk_size(meta)
        } else {
            0
        },
        _ => 0,
    }
}

/// The number under which an identity is kept: the device in the upper
/// half, the inode in the lower.
pub open spec fn key_of(id: FileId) -> u128 {
    (id.device * 0x1_0000_0000_0000_0000 + id.inode) as u128
}

/// The directories that a walk has entered.
pub(crate) struct Visited {
    keys: HashSet<u128>,
}

impl View for Visited {
    type V = Set<FileId>;

    closed spec fn view(&self) -> Set<FileId> {
        Set::new(|id: FileId| self.keys@.contains(key_of(id)))
    }
}

impl Visited {
    /// No directory entered yet.
    pub fn new() -> (visited: Visited)
        ensures
            visited@ == Set::<FileId>::empty(),
    {
        let visited = Visited { keys: HashSet::new() };
        assert(visited@ =~= Set::<FileId>::empty());
        visited
    }

    /// Whether the directory was entered.
    pub fn contains(&self, id: FileId) -> (r: bool)
        ensures
            r == self@.contains(id),
    {
        let key: u128 = (id.device as u128) * 0x1_0000_0000_0000_0000 + (id.inode as u128);
        self.keys.contains(&key)
    }

    /// Enters the directory.
    pub fn insert(&mut self, id: FileId)
        ensures
            final(self)@ == old(self)@.insert(id),
    {
        let key: u128 = (id.device as u128) * 0x1_0000_0000_0000_0000 + (id.inode as u128);
        let _ = self.keys.insert(key);
        proof {
            assert forall|other: FileId| key_of(other) == key implies other == id by {
                assert(other.device == id.device);
            }
            assert(self@ =~= old(self)@.insert(id));
        }
    }
}

/// The node of an entry as a list: one node, or none.
pub open spec fn found_view(node: Option<Node>) -> Seq<NodeView> {
    match node {
        Some(n) => seq![n@],
        None => Seq::empty(),
    }
}

/// Walks the entry `i` at `path`: builds its node with the nodes of all that
/// lies below it, enters the directories on the way, and tells the tracker
/// what was seen and what could not be read.
pub(crate) fn walk(
    fs: &Snapshot,
    cfg: &WalkData,
    i: usize,
    path: String,
    top: bool,
    visited: &mut Visited,
    tracker: &mut ProgressTracker,
) -> (node: Option<Node>)
    requires
        fs.wf(),
        i < fs@.entries.len(),
    ensures
        found_view(node) == walk_entry(fs@, cfg@, i as int, path@, old(visited)@, top).nodes,
        final(visited)@ == old(visited)@.union(
            walk_entry(fs@, cfg@, i as int, path@, old(visited)@, top).entered,
        ),
        final(tracker)@ == old(tracker)@.advanced(
            walk_entry(fs@, cfg@, i as int, path@, old(visited)@, top).files,
            walk_entry(fs@, cfg@, i as int, path@, old(visited)@, top).bytes,
            walk_entry(fs@, cfg@, i as int, path@, old(visited)@, top).errors,
        ),
    decreases unvisited(fs@, old(visited)@), 2 * (fs@.entries.len() - i) + 1, 0nat,
{
    let ghost before = old(visited)@;
    let ghost out = walk_entry(fs@, cfg@, i as int, path@, before, top);
    let ghost started = old(tracker)@;
    proof {
        assert(before.union(Set::<FileId>::empty()) =~= before);
        assert(started.errors + Seq::<ErrorView>::empty() =~= started.errors);
    }
    let name: &String = fs.name(i);
    if !top && is_ignored_path(cfg, name.as_str(), &path) {
        return None;
    }
    let followed: bool = cfg.follow_links && match fs.kind(i) {
        EntryKind::Symlink => true,
        _ => false,
    };
    let t: usize = if followed {
        match fs.target(i) {
            Some(t) => t,
            None => {
                tracker.record_error(path, FailureReason::NotFound);
                return None;
            },
        }
    } else {
        i
    };
    let meta: Metadata = match fs.metadata(t) {
        Ok(meta) => meta,
        Err(reason) => {
            tracker.record_error(path, reason);
            return None;
        },
    };
    if !top && is_on_other_filesystem(cfg, &meta) {
        return None;
    }
    let id: FileId = get_identity(&meta);
    match fs.kind(t) {
        EntryKind::Directory => {
            if cfg.follow_links {
                if visited.contains(id) {
                    tracker.record_error(path, FailureReason::Cycle);
                    return None;
                }
                visited.insert(id);
            }
            let ghost inside = visited@;
            let own: u64 = size_of_directory(cfg, &meta, path.as_str());
            let mut children: Vec<Node> = Vec::new();
            match fs.listing_error(t) {
                Some(reason) => {
                    tracker.record_error(path, reason);
                },
                None => {
                    let listed: &Vec<usize> = fs.children(t);
                    let mut k: usize = 0;
                    proof {
                        if cfg.follow_links {
                            lemma_unvisited_after_entering(fs@, before, t as int, fs@.entries.len() as int);
                        }
                        assert(inside.union(Set::<FileId>::empty()) =~= inside);
                    }
                    while k < listed.len()
                        invariant
                            k <= listed.len(),
                            fs.wf(),
                            t < fs@.entries.len(),
                            i < fs@.entries.len(),
                            listed@ == fs@.entries[t as int].children,
                            before == old(visited)@,
                            started == old(tracker)@,
                            cfg.follow_links ==> unvisited(fs@, inside) < unvisited(fs@, before),
                            !cfg.follow_links ==> t == i && inside == before,
                            forest_view(children@) == walk_list(
                                fs@,
                                cfg@,
                                t as int,
                                k as int,
                                path@,
                                inside,
                            ).nodes,
                            visited@ == inside.union(
                                walk_list(fs@, cfg@, t as int, k as int, path@, inside).entered,
                            ),
                            tracker@ == started.advanced(
                                walk_list(fs@, cfg@, t as int, k as int, path@, inside).files,
                                walk_list(fs@, cfg@, t as int, k as int, path@, inside).bytes,
                                walk_list(fs@, cfg@, t as int, k as int, path@, inside).errors,
                            ),
                        decreases listed.len() - k,
                    {
                        let child: usize = listed[k];
                        let ghost so_far = walk_list(fs@, cfg@, t as int, k as int, path@, inside);
                        let ghost now = visited@;
                        proof {
                            assert(fs@.entries[t as int].children[k as int] == child);
                            lemma_unvisited_shrinks(fs@, inside, now, fs@.entries.len() as int);
                        }
                        let below: String = crate::text::join_path(path.as_str(), fs.name(child).as_str());
                        let ghost next = walk_entry(fs@, cfg@, child as int, below@, now, false);
                        let found = walk(fs, cfg, child, below, false, visited, tracker);
                        proof {
                            lemma_advanced_twice(
                                started,
                                so_far.files,
                                so_far.bytes,
                                so_far.errors,
                                next.files,
                                next.bytes,
                                next.errors,
                            );
                            assert(visited@ =~= inside.union(so_far.followed_by(next).entered));
                        }
                        match found {
                            Some(n) => {
                                proof {
                                    lemma_forest_view_push(children@, n);
                                    assert(so_far.nodes + seq![n@] =~= so_far.nodes.push(n@));
                                }
                                children.push(n);
                            },
                            None => {
                                assert(so_far.nodes + Seq::<NodeView>::empty() =~= so_far.nodes);
                            },
                        }
                        k += 1;
                    }
                },
            }
            let size: u64 = aggregate_sizes(cfg.metric(), own, &children);
            proof {
                assert(visited@ =~= before.union(out.entered));
            }
            Some(Node { name: name.clone(), size, children, device_id: Some(id), is_dir: true })
        },
        kind => {
            if !top && !is_filtered_in(cfg, path.as_str()) {
                return None;
            }
            let is_file: bool = match kind {
                EntryKind::File => true,
                _ => false,
            };
            let size: u64 = size_of_leaf(cfg, &meta, is_file);
            tracker.record_file(size);
            Some(Node { name: name.clone(), size, children: Vec::new(), device_id: Some(id), is_dir: false })
        },
    }
}

/// The node of a root that could not be walked: nothing but its path.
pub open spec fn empty_node(path: Seq<char>) -> NodeView {
    NodeView { name: path, size: 0, children: Seq::empty(), device_id: None, is_dir: false }
}

/// What walking the root at `path` gives: what walking its entry gives, and
/// the empty node where that gives none, with the failure that says why.
pub open spec fn walk_root(
    fs: SnapshotView,
    cfg: WalkDataView,
    path: Seq<char>,
    visited: Set<FileId>,
) -> Outcome {
    match fs.root_named(path) {
        None => Outcome {
            nodes: seq![empty_node(path)],
            ..Outcome::failure(path, FailureReason::NotFound)
        },
        Some(i) => {
            let found = walk_entry(fs, cfg, i as int, path, visited, true);
            if found.nodes.len() == 0 {
                Outcome { nodes: seq![empty_node(path)], ..found }
            } else {
                found
            }
        },
    }
}

/// What walking the first `k` of `roots` gives, one after the other.
pub open spec fn walk_roots(fs: SnapshotView, cfg: WalkDataView, roots: Seq<Seq<char>>, k: int) -> Outcome
    decreases k,
{
    if k <= 0 {
        Outcome::nothing()
    } else {
        let before = walk_roots(fs, cfg, roots, k - 1);
        before.followed_by(walk_root(fs, cfg, roots[k - 1], before.entered))
    }
}

/// What walking `roots` gives.
pub open spec fn walk_forest(fs: SnapshotView, cfg: WalkDataView, roots: Seq<Seq<char>>) -> Outcome {
    walk_roots(fs, cfg, roots, roots.len() as int)
}

/// Walking one entry gives at most one node.
pub proof fn lemma_walk_entry_gives_one(
    fs: SnapshotView,
    cfg: WalkDataView,
    i: int,
    path: Seq<char>,
    visited: Set<FileId>,
    top: bool,
)
    requires
        fs.wf(),
        0 <= i < fs.entries.len(),
    ensures
        walk_entry(fs, cfg, i, path, visited, top).nodes.len() <= 1,
{
}

/// Walking roots gives one node for each root.
pub proof fn lemma_walk_roots_gives_each(fs: SnapshotView, cfg: WalkDataView, roots: Seq<Seq<char>>, k: int)
    requires
        fs.wf(),
        0 <= k <= roots.len(),
    ensures
        walk_roots(fs, cfg, roots, k).nodes.len() == k,
    decreases k,
{
    if k > 0 {
        lemma_walk_roots_gives_each(fs, cfg, roots, k - 1);
        let before = walk_roots(fs, cfg, roots, k - 1);
        lemma_root_named_is_recorded(fs, roots[k - 1], 0);
        if fs.root_named(roots[k - 1]) is Some {
            let i = fs.root_named(roots[k - 1]).unwrap();
            lemma_walk_entry_gives_one(fs, cfg, i as int, roots[k - 1], before.entered, true);
        }
    }
}

/// A root that is found is a recorded entry.
pub proof fn lemma_root_named_is_recorded(fs: SnapshotView, path: Seq<char>, from: int)
    requires
        fs.wf(),
        0 <= from,
    ensures
        fs.root_named_from(path, from) matches Some(i) ==> i < fs.entries.len(),
    decreases fs.roots.len() - from,
{
    if from < fs.roots.len() {
        lemma_root_named_is_recorded(fs, path, from + 1);
    }
}

/// In the node of every entry that a walk builds, each directory has the
/// size that its entries give it.
pub proof fn lemma_walk_entry_is_aggregated(
    fs: SnapshotView,
    cfg: WalkDataView,
    i: int,
    path: Seq<char>,
    visited: Set<FileId>,
    top: bool,
)
    requires
        fs.wf(),
        0 <= i < fs.entries.len(),
    ensures
        forall|m: int|
            0 <= m < walk_entry(fs, cfg, i, path, visited, top).nodes.len() ==> is_aggregated(
                #[trigger] walk_entry(fs, cfg, i, path, visited, top).nodes[m],
                cfg.metric,
            ),
    decreases unvisited(fs, visited), 2 * (fs.entries.len() - i) + 1, 0nat,
{
    let out = walk_entry(fs, cfg, i, path, visited, top);
    if out.nodes.len() > 0 {
        let t = seen_at(fs, cfg, i).unwrap();
        let meta = fs.entries[t].metadata->Ok_0;
        if fs.entries[t].kind == EntryKind::Directory {
            let inside = if cfg.follow_links {
                visited.insert(identity(meta))
            } else {
                visited
            };
            if fs.entries[t].listing_error is None {
                if cfg.follow_links {
                    lemma_unvisited_after_entering(fs, visited, t, fs.entries.len() as int);
                }
                lemma_walk_list_is_aggregated(
                    fs,
                    cfg,
                    t,
                    fs.entries[t].children.len() as int,
                    path,
                    inside,
                );
            }
            let node = out.nodes[0];
            let below = if fs.entries[t].listing_error is None {
                walk_list(fs, cfg, t, fs.entries[t].children.len() as int, path, inside)
            } else {
                Outcome::failure(path, fs.entries[t].listing_error.unwrap())
            };
            assert(node.children == below.nodes);
            assert(node.size == aggregate(cfg.metric, own_size(cfg, meta, path), node.children));
            assert forall|m: int| 0 <= m < node.children.len() implies is_aggregated(
                #[trigger] node.children[m],
                cfg.metric,
            ) by {
                assert(node.children[m] == below.nodes[m]);
            }
            assert(is_aggregated(node, cfg.metric));
        } else {
            assert(is_aggregated(out.nodes[0], cfg.metric));
        }
    }
}

/// In the nodes of the entries of a directory that a walk builds, each
/// directory has the size that its entries give it.
pub proof fn lemma_walk_list_is_aggregated(
    fs: SnapshotView,
    cfg: WalkDataView,
    dir: int,
    k: int,
    base: Seq<char>,
    visited: Set<FileId>,
)
    requires
        fs.wf(),
        0 <= dir < fs.entries.len(),
        0 <= k <= fs.entries[dir].children.len(),
    ensures
        forall|m: int|
            0 <= m < walk_list(fs, cfg, dir, k, base, visited).nodes.len() ==> is_aggregated(
                #[trigger] walk_list(fs, cfg, dir, k, base, visited).nodes[m],
                cfg.metric,
            ),
    decreases unvisited(fs, visited), 2 * (fs.entries.len() - dir), k,
{
    if k > 0 {
        lemma_walk_list_is_aggregated(fs, cfg, dir, k - 1, base, visited);
        let before = walk_list(fs, cfg, dir, k - 1, base, visited);
        let child = fs.entries[dir].children[k - 1] as int;
        let now = visited.union(before.entered);
        lemma_unvisited_shrinks(fs, visited, now, fs.entries.len() as int);
        lemma_walk_entry_is_aggregated(fs, cfg, child, joined(base, fs.entries[child].name), now, false);
        let next = walk_entry(fs, cfg, child, joined(base, fs.entries[child].name), now, false);
        let all = walk_list(fs, cfg, dir, k, base, visited).nodes;
        assert forall|m: int| 0 <= m < all.len() implies is_aggregated(#[trigger] all[m], cfg.metric) by {
            if m < before.nodes.len() {
                assert(all[m] == before.nodes[m]);
            } else {
                assert(all[m] == next.nodes[m - before.nodes.len()]);
            }
        }
    }
}

/// In every tree of the forest that a walk builds, each directory has the
/// size that its entries give it: their sum, to which disk usage adds the
/// directory's own blocks, or their latest time.
pub proof fn lemma_walk_is_aggregated(fs: SnapshotView, cfg: WalkDataView, roots: Seq<Seq<char>>, k: int)
    requires
        fs.wf(),
        0 <= k <= roots.len(),
    ensures
        forall|m: int|
            0 <= m < walk_roots(fs, cfg, roots, k).nodes.len() ==> is_aggregated(
                #[trigger] walk_roots(fs, cfg, roots, k).nodes[m],
                cfg.metric,
            ),
    decreases k,
{
    if k > 0 {
        lemma_walk_is_aggregated(fs, cfg, roots, k - 1);
        let before = walk_roots(fs, cfg, roots, k - 1);
        let next = walk_root(fs, cfg, roots[k - 1], before.entered);
        lemma_root_named_is_recorded(fs, roots[k - 1], 0);
        if fs.root_named(roots[k - 1]) is Some {
            let i = fs.root_named(roots[k - 1]).unwrap();
            lemma_walk_entry_is_aggregated(fs, cfg, i as int, roots[k - 1], before.entered, true);
        }
        assert(is_aggregated(empty_node(roots[k - 1]), cfg.metric));
        let all = walk_roots(fs, cfg, roots, k).nodes;
        assert forall|m: int| 0 <= m < all.len() implies is_aggregated(#[trigger] all[m], cfg.metric) by {
            if m < before.nodes.len() {
                assert(all[m] == before.nodes[m]);
            } else {
                assert(all[m] == next.nodes[m - before.nodes.len()]);
            }
        }
    }
}

/// A walk that follows symlinks refuses a directory that it has entered
/// before: it builds no node for it, enters nothing, and records exactly one
/// failure, a cycle at the path that led there again.
pub proof fn lemma_reentry_is_refused(
    fs: SnapshotView,
    cfg: WalkDataView,
    i: int,
    path: Seq<char>,
    visited: Set<FileId>,
    top: bool,
)
    requires
        fs.wf(),
        0 <= i < fs.entries.len(),
        cfg.follow_links,
        top || !is_skipped(cfg, fs.entries[i].name, path),
        seen_at(fs, cfg, i) matches Some(t) && fs.entries[t].kind == EntryKind::Directory && (
        fs.entries[t].metadata matches Ok(meta) && visited.contains(identity(meta)) && (top || !is_foreign(
            cfg,
            meta,
        ))),
    ensures
        walk_entry(fs, cfg, i, path, visited, top) == Outcome::failure(path, FailureReason::Cycle),
{
}

/// What a walk enters, it has not entered before: no directory is entered
/// twice.
pub proof fn lemma_entered_are_new(
    fs: SnapshotView,
    cfg: WalkDataView,
    i: int,
    path: Seq<char>,
    visited: Set<FileId>,
    top: bool,
)
    requires
        fs.wf(),
        0 <= i < fs.entries.len(),
    ensures
        walk_entry(fs, cfg, i, path, visited, top).entered.disjoint(visited),
    decreases unvisited(fs, visited), 2 * (fs.entries.len() - i) + 1, 0nat,
{
    let out = walk_entry(fs, cfg, i, path, visited, top);
    if out.nodes.len() > 0 {
        let t = seen_at(fs, cfg, i).unwrap();
        let meta = fs.entries[t].metadata->Ok_0;
        if fs.entries[t].kind == EntryKind::Directory && fs.entries[t].listing_error is None {
            let inside = if cfg.follow_links {
                visited.insert(identity(meta))
            } else {
                visited
            };
            if cfg.follow_links {
                lemma_unvisited_after_entering(fs, visited, t, fs.entries.len() as int);
            }
            lemma_listed_entered_are_new(fs, cfg, t, fs.entries[t].children.len() as int, path, inside);
        }
    }
}

/// What walking the entries of a directory enters, was not entered before.
pub proof fn lemma_listed_entered_are_new(
    fs: SnapshotView,
    cfg: WalkDataView,
    dir: int,
    k: int,
    base: Seq<char>,
    visited: Set<FileId>,
)
    requires
        fs.wf(),
        0 <= dir < fs.entries.len(),
        0 <= k <= fs.entries[dir].children.len(),
    ensures
        walk_list(fs, cfg, dir, k, base, visited).entered.disjoint(visited),
    decreases unvisited(fs, visited), 2 * (fs.entries.len() - dir), k,
{
    if k > 0 {
        lemma_listed_entered_are_new(fs, cfg, dir, k - 1, base, visited);
        let before = walk_list(fs, cfg, dir, k - 1, base, visited);
        let child = fs.entries[dir].children[k - 1] as int;
        let now = visited.union(before.entered);
        lemma_unvisited_shrinks(fs, visited, now, fs.entries.len() as int);
        lemma_entered_are_new(fs, cfg, child, joined(base, fs.entries[child].name), now, false);
    }
}

/// In the node of an entry that a walk builds while it follows symlinks, every
/// directory is one that the walk entered for it, and none stands below
/// itself.
pub proof fn lemma_walk_entry_is_acyclic(
    fs: SnapshotView,
    cfg: WalkDataView,
    i: int,
    path: Seq<char>,
    visited: Set<FileId>,
    top: bool,
)
    requires
        fs.wf(),
        0 <= i < fs.entries.len(),
        cfg.follow_links,
    ensures
        forall|m: int, id: FileId|
            0 <= m < walk_entry(fs, cfg, i, path, visited, top).nodes.len() && #[trigger] holds_directory(
                walk_entry(fs, cfg, i, path, visited, top).nodes[m],
                id,
            ) ==> walk_entry(fs, cfg, i, path, visited, top).entered.contains(id),
        forall|m: int|
            0 <= m < walk_entry(fs, cfg, i, path, visited, top).nodes.len() ==> is_acyclic(
                #[trigger] walk_entry(fs, cfg, i, path, visited, top).nodes[m],
            ),
    decreases unvisited(fs, visited), 2 * (fs.entries.len() - i) + 1, 0nat,
{
    let out = walk_entry(fs, cfg, i, path, visited, top);
    if out.nodes.len() > 0 {
        let t = seen_at(fs, cfg, i).unwrap();
        let meta = fs.entries[t].metadata->Ok_0;
        let node = out.nodes[0];
        if fs.entries[t].kind == EntryKind::Directory {
            let inside = visited.insert(identity(meta));
            let listed = fs.entries[t].listing_error is None;
            let below = if listed {
                walk_list(fs, cfg, t, fs.entries[t].children.len() as int, path, inside)
            } else {
                Outcome::failure(path, fs.entries[t].listing_error.unwrap())
            };
            if listed {
                lemma_unvisited_after_entering(fs, visited, t, fs.entries.len() as int);
                lemma_walk_list_is_acyclic(fs, cfg, t, fs.entries[t].children.len() as int, path, inside);
                lemma_listed_entered_are_new(fs, cfg, t, fs.entries[t].children.len() as int, path, inside);
            }
            assert(node.children == below.nodes);
            assert forall|id: FileId| holds_directory(node, id) implies out.entered.contains(id) by {
                if !(node.is_dir && node.device_id == Some(id)) {
                    let c = choose|c: int|
                        0 <= c < node.children.len() && holds_directory(#[trigger] node.children[c], id);
                    assert(holds_directory(below.nodes[c], id));
                }
            }
            assert forall|c: int| 0 <= c < node.children.len() implies !holds_directory(
                #[trigger] node.children[c],
                identity(meta),
            ) by {
                if holds_directory(node.children[c], identity(meta)) {
                    assert(holds_directory(below.nodes[c], identity(meta)));
                    assert(below.entered.contains(identity(meta)));
                    assert(inside.contains(identity(meta)));
                }
            }
            assert forall|c: int| 0 <= c < node.children.len() implies is_acyclic(
                #[trigger] node.children[c],
            ) by {
                assert(is_acyclic(below.nodes[c]));
            }
            assert(is_acyclic(node));
        } else {
            assert(is_acyclic(node));
            assert forall|id: FileId| !holds_directory(node, id) by {}
        }
    }
}

/// In the nodes of the entries of a directory that a walk builds while it
/// follows symlinks, every directory is one that the walk entered for them,
/// and none stands below itself.
pub proof fn lemma_walk_list_is_acyclic(
    fs: SnapshotView,
    cfg: WalkDataView,
    dir: int,
    k: int,
    base: Seq<char>,
    visited: Set<FileId>,
)
    requires
        fs.wf(),
        0 <= dir < fs.entries.len(),
        0 <= k <= fs.entries[dir].children.len(),
        cfg.follow_links,
    ensures
        forall|m: int, id: FileId|
            0 <= m < walk_list(fs, cfg, dir, k, base, visited).nodes.len() && #[trigger] holds_directory(
                walk_list(fs, cfg, dir, k, base, visited).nodes[m],
                id,
            ) ==> walk_list(fs, cfg, dir, k, base, visited).entered.contains(id),
        forall|m: int|
            0 <= m < walk_list(fs, cfg, dir, k, base, visited).nodes.len() ==> is_acyclic(
                #[trigger] walk_list(fs, cfg, dir, k, base, visited).nodes[m],
            ),
    decreases unvisited(fs, visited), 2 * (fs.entries.len() - dir), k,
{
    if k > 0 {
        lemma_walk_list_is_acyclic(fs, cfg, dir, k - 1, base, visited);
        let before = walk_list(fs, cfg, dir, k - 1, base, visited);
        let child = fs.entries[dir].children[k - 1] as int;
        let now = visited.union(before.entered);
        lemma_unvisited_shrinks(fs, visited, now, fs.entries.len() as int);
        lemma_walk_entry_is_acyclic(fs, cfg, child, joined(base, fs.entries[child].name), now, false);
        let next = walk_entry(fs, cfg, child, joined(base, fs.entries[child].name), now, false);
        let all = walk_list(fs, cfg, dir, k, base, visited);
        assert forall|m: int, id: FileId|
            0 <= m < all.nodes.len() && #[trigger] holds_directory(all.nodes[m], id) implies all.entered.contains(
            id,
        ) by {
            if m < before.nodes.len() {
                assert(all.nodes[m] == before.nodes[m]);
            } else {
                assert(all.nodes[m] == next.nodes[m - before.nodes.len()]);
            }
        }
        assert forall|m: int| 0 <= m < all.nodes.len() implies is_acyclic(#[trigger] all.nodes[m]) by {
            if m < before.nodes.len() {
                assert(all.nodes[m] == before.nodes[m]);
            } else {
                assert(all.nodes[m] == next.nodes[m - before.nodes.len()]);
            }
        }
    }
}

/// In no tree of the forest that a walk builds while it follows symlinks does
/// a directory stand below itself.
pub proof fn lemma_walk_is_acyclic(fs: SnapshotView, cfg: WalkDataView, roots: Seq<Seq<char>>, k: int)
    requires
        fs.wf(),
        0 <= k <= roots.len(),
        cfg.follow_links,
    ensures
        forall|m: int|
            0 <= m < walk_roots(fs, cfg, roots, k).nodes.len() ==> is_acyclic(
                #[trigger] walk_roots(fs, cfg, roots, k).nodes[m],
            ),
    decreases k,
{
    if k > 0 {
        lemma_walk_is_acyclic(fs, cfg, roots, k - 1);
        let before = walk_roots(fs, cfg, roots, k - 1);
        let next = walk_root(fs, cfg, roots[k - 1], before.entered);
        lemma_root_named_is_recorded(fs, roots[k - 1], 0);
        if fs.root_named(roots[k - 1]) is Some {
            let i = fs.root_named(roots[k - 1]).unwrap();
            lemma_walk_entry_is_acyclic(fs, cfg, i as int, roots[k - 1], before.entered, true);
        }
        assert(is_acyclic(empty_node(roots[k - 1])));
        let all = walk_roots(fs, cfg, roots, k).nodes;
        assert forall|m: int| 0 <= m < all.len() implies is_acyclic(#[trigger] all[m]) by {
            if m < before.nodes.len() {
                assert(all[m] == before.nodes[m]);
            } else {
                assert(all[m] == next.nodes[m - before.nodes.len()]);
            }
        }
    }
}

/// Two walks of one snapshot under the same settings give the same forest,
/// the same tally and the same failures.
pub proof fn lemma_walk_is_repeatable(
    fs: SnapshotView,
    cfg: WalkDataView,
    roots: Seq<Seq<char>>,
    first: Outcome,
    second: Outcome,
)
    requires
        first == walk_forest(fs, cfg, roots),
        second == walk_forest(fs, cfg, roots),
    ensures
        first.nodes == second.nodes,
        first.files == second.files,
        first.bytes == second.bytes,
        first.errors.to_multiset() == second.errors.to_multiset(),
{
}

/// Walks the roots `dirs` of the recorded filesystem, in order.
///
/// Gives one tree for each root, in the order of `dirs`. What cannot be read
/// is left out of the trees and told to the tracker; a root that cannot be
/// walked gives a node of size 0 without entries.
pub fn walk_it(fs: &Snapshot, dirs: Vec<String>, walk_data: &WalkData, tracker: &mut ProgressTracker) -> (nodes:
    Vec<Node>)
    requires
        fs.wf(),
    ensures
        forest_view(nodes@) == walk_forest(fs@, walk_data@, texts(dirs@)).nodes,
        nodes.len() == dirs.len(),
        forall|m: int| 0 <= m < nodes.len() ==> is_aggregated(#[trigger] nodes@[m]@, walk_data@.metric),
        walk_data.follow_links ==> forall|m: int| 0 <= m < nodes.len() ==> is_acyclic(#[trigger] nodes@[m]@),
        final(tracker)@ == old(tracker)@.advanced(
            walk_forest(fs@, walk_data@, texts(dirs@)).files,
            walk_forest(fs@, walk_data@, texts(dirs@)).bytes,
            walk_forest(fs@, walk_data@, texts(dirs@)).errors,
        ),
{
    let ghost roots = texts(dirs@);
    let ghost started = old(tracker)@;
    let mut visited = Visited::new();
    let mut nodes: Vec<Node> = Vec::new();
    let mut k: usize = 0;
    proof {
        assert(started.errors + Seq::<ErrorView>::empty() =~= started.errors);
    }
    while k < dirs.len()
        invariant
            k <= dirs.len(),
            fs.wf(),
            roots == texts(dirs@),
            started == old(tracker)@,
            forest_view(nodes@) == walk_roots(fs@, walk_data@, roots, k as int).nodes,
            visited@ == walk_roots(fs@, walk_data@, roots, k as int).entered,
            tracker@ == started.advanced(
                walk_roots(fs@, walk_data@, roots, k as int).files,
                walk_roots(fs@, walk_data@, roots, k as int).bytes,
                walk_roots(fs@, walk_data@, roots, k as int).errors,
            ),
        decreases dirs.len() - k,
    {
        let path: String = dirs[k].clone();
        let ghost so_far = walk_roots(fs@, walk_data@, roots, k as int);
        let ghost next = walk_root(fs@, walk_data@, path@, so_far.entered);
        proof {
            assert(roots[k as int] == path@);
        }
        let found: Option<Node> = match fs.find_root(&path) {
            Some(i) => walk(fs, walk_data, i, path.clone(), true, &mut visited, tracker),
            None => {
                tracker.record_error(path.clone(), FailureReason::NotFound);
                proof {
                    assert(visited@.union(Set::<FileId>::empty()) =~= visited@);
                }
                None
            },
        };
        let node: Node = match found {
            Some(n) => n,
            None => Node { name: path, size: 0, children: Vec::new(), device_id: None, is_dir: false },
        };
        proof {
            lemma_advanced_twice(
                started,
                so_far.files,
                so_far.bytes,
                so_far.errors,
                next.files,
                next.bytes,
                next.errors,
            );
            assert(next.nodes =~= seq![node@]);
            lemma_forest_view_push(nodes@, node);
            assert(so_far.nodes + seq![node@] =~= so_far.nodes.push(node@));
        }
        nodes.push(node);
        k += 1;
    }
    proof {
        lemma_walk_is_aggregated(fs@, walk_data@, roots, roots.len() as int);
        lemma_forest_view(nodes@);
        lemma_walk_roots_gives_each(fs@, walk_data@, roots, roots.len() as int);
        let all = walk_roots(fs@, walk_data@, roots, roots.len() as int).nodes;
        assert forall|m: int| 0 <= m < nodes.len() implies is_aggregated(
            #[trigger] nodes@[m]@,
            walk_data@.metric,
        ) by {
            assert(forest_view(nodes@)[m] == nodes@[m]@);
            assert(is_aggregated(all[m], walk_data@.metric));
        }
        if walk_data.follow_links {
            lemma_walk_is_acyclic(fs@, walk_data@, roots, roots.len() as int);
            assert forall|m: int| 0 <= m < nodes.len() implies is_acyclic(#[trigger] nodes@[m]@) by {
                assert(forest_view(nodes@)[m] == nodes@[m]@);
                assert(is_acyclic(all[m]));
            }
        }
    }
    nodes
}

} // verus!
