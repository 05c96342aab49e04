use du_dust::config::{check_walk, ConfigError};
use du_dust::dir_walker::{
    any_matches, is_filtered_in, is_filtered_out_due_to_file_time, is_ignored_path,
    is_on_other_filesystem, lies_before, size_of_directory, size_of_leaf, WalkData,
};
use du_dust::node::{aggregate_sizes, FileId, FileTime, Metric, Node};
use du_dust::platform::{
    get_apparent_size, get_disk_size, get_filesystem_id, get_identity, get_time, get_time_size,
    Metadata, BLOCK_BYTES,
};
use du_dust::progress::{FailureReason, ProgressTracker, RuntimeErrors, WalkError};
use du_dust::snapshot::{EntryKind, Snapshot};
use du_dust::text::{to_chars, Pattern};

fn meta() -> Metadata {
    Metadata { len: 1000, blocks: 8, device: 7, inode: 42, modified: 10, accessed: -20, changed: 30 }
}

fn sized(size: u64) -> Node {
    Node { name: "n".to_string(), size, children: vec![], device_id: None, is_dir: false }
}

#[test]
fn sizes_read_from_metadata() {
    assert_eq!(BLOCK_BYTES, 512);
    assert_eq!(get_apparent_size(&meta()), 1000);
    assert_eq!(get_disk_size(&meta()), 4096);
    assert_eq!(get_filesystem_id(&meta()), 7);
    assert_eq!(get_identity(&meta()), FileId { device: 7, inode: 42 });
}

#[test]
fn disk_size_stops_at_the_largest_size() {
    let huge = Metadata { blocks: u64::MAX / 512 + 1, ..meta() };
    assert_eq!(get_disk_size(&huge), u64::MAX);
    let fits = Metadata { blocks: u64::MAX / 512, ..meta() };
    assert_eq!(get_disk_size(&fits), u64::MAX - 511);
    let none = Metadata { blocks: 0, ..meta() };
    assert_eq!(get_disk_size(&none), 0);
}

#[test]
fn times_read_from_metadata() {
    assert_eq!(get_time(&meta(), FileTime::Modified), 10);
    assert_eq!(get_time(&meta(), FileTime::Accessed), -20);
    assert_eq!(get_time(&meta(), FileTime::Changed), 30);
    assert_eq!(get_time_size(&meta(), FileTime::Modified), 10);
    assert_eq!(get_time_size(&meta(), FileTime::Accessed), 0);
    assert_eq!(get_time_size(&meta(), FileTime::Changed), 30);
}

#[test]
fn aggregation_sums_or_takes_the_latest() {
    let kids = vec![sized(3), sized(9), sized(5)];
    assert_eq!(aggregate_sizes(Metric::DiskUsage, 100, &kids), 117);
    assert_eq!(aggregate_sizes(Metric::ApparentSize, 0, &kids), 17);
    assert_eq!(aggregate_sizes(Metric::FileCount, 0, &kids), 17);
    assert_eq!(aggregate_sizes(Metric::Time(FileTime::Modified), 0, &kids), 9);
    assert_eq!(aggregate_sizes(Metric::Time(FileTime::Changed), 12, &kids), 12);
    assert_eq!(aggregate_sizes(Metric::Time(FileTime::Accessed), 0, &vec![]), 0);
    assert_eq!(aggregate_sizes(Metric::DiskUsage, 4, &vec![]), 4);
    assert_eq!(aggregate_sizes(Metric::DiskUsage, u64::MAX - 10, &kids), u64::MAX);
}

#[test]
fn the_order_of_the_entries_does_not_change_the_size() {
    let one = vec![sized(3), sized(9), sized(5)];
    let other = vec![sized(5), sized(3), sized(9)];
    for metric in [Metric::DiskUsage, Metric::ApparentSize, Metric::FileCount, Metric::Time(FileTime::Modified)] {
        assert_eq!(aggregate_sizes(metric, 2, &one), aggregate_sizes(metric, 2, &other));
    }
}

#[test]
fn the_settings_choose_one_metric() {
    let plain = WalkData::new(true);
    assert_eq!(plain.metric(), Metric::DiskUsage);
    assert!(plain.ignore_hidden);
    assert!(!plain.follow_links);
    assert!(plain.filter_regex.is_empty() && plain.invert_filter_regex.is_empty());
    assert!(plain.ignore_directories.is_empty() && plain.allowed_filesystems.is_empty());
    assert!(!WalkData::new(false).ignore_hidden);
    let apparent = WalkData { use_apparent_size: true, ..WalkData::new(false) };
    assert_eq!(apparent.metric(), Metric::ApparentSize);
    let time = WalkData { by_filetime: Some(FileTime::Changed), use_apparent_size: true, ..WalkData::new(false) };
    assert_eq!(time.metric(), Metric::Time(FileTime::Changed));
    let count = WalkData { by_filecount: true, by_filetime: Some(FileTime::Changed), ..WalkData::new(false) };
    assert_eq!(count.metric(), Metric::FileCount);
}

#[test]
fn sizes_of_leaves_under_each_metric() {
    let disk = WalkData::new(false);
    assert_eq!(size_of_leaf(&disk, &meta(), true), 4096);
    assert_eq!(size_of_leaf(&disk, &meta(), false), 4096);
    let apparent = WalkData { use_apparent_size: true, ..WalkData::new(false) };
    assert_eq!(size_of_leaf(&apparent, &meta(), true), 1000);
    let count = WalkData { by_filecount: true, ..WalkData::new(false) };
    assert_eq!(size_of_leaf(&count, &meta(), true), 1);
    assert_eq!(size_of_leaf(&count, &meta(), false), 0);
    let time = WalkData { by_filetime: Some(FileTime::Changed), ..WalkData::new(false) };
    assert_eq!(size_of_leaf(&time, &meta(), true), 30);
    let old = WalkData { filter_modified_time: Some(11), ..WalkData::new(false) };
    assert_eq!(size_of_leaf(&old, &meta(), true), 0);
    assert_eq!(size_of_leaf(&old, &meta(), false), 4096);
}

#[test]
fn the_own_size_of_a_directory() {
    assert_eq!(size_of_directory(&WalkData::new(false), &meta(), "/a"), 4096);
    let apparent = WalkData { use_apparent_size: true, ..WalkData::new(false) };
    assert_eq!(size_of_directory(&apparent, &meta(), "/a"), 0);
    let filtered = WalkData { filter_regex: vec![Pattern::new("b")], ..WalkData::new(false) };
    assert_eq!(size_of_directory(&filtered, &meta(), "/a"), 0);
    assert_eq!(size_of_directory(&filtered, &meta(), "/b"), 4096);
}

#[test]
fn what_a_walk_leaves_out() {
    let cfg = WalkData {
        ignore_directories: vec!["/a/skip".to_string()],
        filter_regex: vec![Pattern::new(".rs"), Pattern::new(".toml")],
        invert_filter_regex: vec![Pattern::new("target")],
        allowed_filesystems: vec![3, 7],
        filter_accessed_time: Some(-19),
        ..WalkData::new(true)
    };
    assert!(is_ignored_path(&cfg, "skip", &"/a/skip".to_string()));
    assert!(is_ignored_path(&cfg, ".git", &"/a/.git".to_string()));
    assert!(!is_ignored_path(&cfg, "src", &"/a/src".to_string()));
    assert!(!is_ignored_path(&WalkData::new(false), ".git", &"/a/.git".to_string()));
    assert!(is_filtered_in(&cfg, "/a/src/lib.rs"));
    assert!(is_filtered_in(&cfg, "/a/Cargo.toml"));
    assert!(!is_filtered_in(&cfg, "/a/readme.md"));
    assert!(!is_filtered_in(&cfg, "/a/target/lib.rs"));
    assert!(is_filtered_in(&WalkData::new(false), "/anything"));
    assert!(any_matches(&cfg.filter_regex, &to_chars("x.toml")));
    assert!(!any_matches(&cfg.filter_regex, &to_chars("x.tom")));
    assert!(!any_matches(&vec![], &to_chars("x")));
    assert!(!is_on_other_filesystem(&cfg, &meta()));
    assert!(is_on_other_filesystem(&cfg, &Metadata { device: 8, ..meta() }));
    assert!(!is_on_other_filesystem(&WalkData::new(false), &Metadata { device: 8, ..meta() }));
    assert!(is_filtered_out_due_to_file_time(&cfg, &meta()));
    assert!(!is_filtered_out_due_to_file_time(&cfg, &Metadata { accessed: -19, ..meta() }));
    assert!(!is_filtered_out_due_to_file_time(&WalkData::new(false), &meta()));
    assert!(lies_before(Some(5), 4));
    assert!(!lies_before(Some(5), 5));
    assert!(!lies_before(None, i64::MIN));
}

#[test]
fn a_request_is_checked_before_the_walk() {
    let roots = vec!["/a".to_string()];
    assert_eq!(check_walk(&roots, &WalkData::new(false)), Ok(()));
    assert_eq!(check_walk(&vec![], &WalkData::new(false)), Err(ConfigError::NoRoots));
    let both = WalkData { by_filecount: true, by_filetime: Some(FileTime::Modified), ..WalkData::new(false) };
    assert_eq!(check_walk(&roots, &both), Err(ConfigError::ConflictingMetrics));
    assert_eq!(check_walk(&vec![], &both), Err(ConfigError::NoRoots));
    let count = WalkData { by_filecount: true, use_apparent_size: true, ..WalkData::new(false) };
    assert_eq!(check_walk(&roots, &count), Ok(()));
}

#[test]
fn failures_are_recorded_in_order() {
    let mut errors = RuntimeErrors::new();
    assert!(errors.is_empty());
    assert_eq!(errors.len(), 0);
    errors.record("/a".to_string(), FailureReason::PermissionDenied);
    errors.record("/b".to_string(), FailureReason::Cycle);
    assert!(!errors.is_empty());
    assert_eq!(errors.len(), 2);
    assert_eq!(
        errors.records,
        vec![
            WalkError { path: "/a".to_string(), reason: FailureReason::PermissionDenied },
            WalkError { path: "/b".to_string(), reason: FailureReason::Cycle },
        ]
    );
}

#[test]
fn the_tracker_counts_files_and_sizes() {
    let mut tracker = ProgressTracker::new();
    assert_eq!(tracker.num_files, 0);
    assert_eq!(tracker.total_file_size, 0);
    tracker.record_file(10);
    tracker.record_file(5);
    assert_eq!(tracker.num_files, 2);
    assert_eq!(tracker.total_file_size, 15);
    tracker.record_file(u64::MAX);
    assert_eq!(tracker.num_files, 3);
    assert_eq!(tracker.total_file_size, u64::MAX);
    tracker.num_files = u64::MAX;
    tracker.record_file(1);
    assert_eq!(tracker.num_files, u64::MAX);
    tracker.record_error("/x".to_string(), FailureReason::Unreadable);
    assert_eq!(tracker.errors.len(), 1);
}

#[test]
fn the_first_root_of_a_name_is_found() {
    let mut fs = Snapshot::new();
    let a = fs.add_root("/a".to_string(), EntryKind::Directory, Ok(meta()));
    fs.add_entry(a, "/b".to_string(), EntryKind::File, Ok(meta())).unwrap();
    let b = fs.add_root("/b".to_string(), EntryKind::Directory, Ok(meta()));
    fs.add_root("/b".to_string(), EntryKind::File, Ok(meta()));
    assert_eq!(fs.find_root(&"/a".to_string()), Some(a));
    assert_eq!(fs.find_root(&"/b".to_string()), Some(b));
    assert_eq!(fs.find_root(&"/c".to_string()), None);
    assert_eq!(Snapshot::new().find_root(&"/a".to_string()), None);
}

fn walked(fs: &Snapshot, root: &str, follow_links: bool) -> (Vec<Node>, ProgressTracker) {
    let cfg = WalkData { follow_links, use_apparent_size: true, ..WalkData::new(false) };
    let mut tracker = ProgressTracker::new();
    let nodes = du_dust::walk_it(fs, vec![root.to_string()], &cfg, &mut tracker);
    (nodes, tracker)
}

#[test]
fn a_snapshot_is_built_entry_by_entry() {
    let mut fs = Snapshot::new();
    assert_eq!(fs.len(), 0);
    let root = fs.add_root("/r".to_string(), EntryKind::Directory, Ok(meta()));
    assert_eq!(root, 0);
    let file = fs.add_entry(root, "f".to_string(), EntryKind::File, Err(FailureReason::Unreadable));
    assert_eq!(file, Some(1));
    let link = fs.add_entry(root, "l".to_string(), EntryKind::Symlink, Ok(meta()));
    assert_eq!(link, Some(2));
    assert_eq!(fs.len(), 3);
    let (nodes, tracker) = walked(&fs, "/r", false);
    assert_eq!(nodes[0].children.len(), 1);
    assert_eq!(nodes[0].children[0].name, "l");
    assert_eq!(nodes[0].size, 1000);
    assert_eq!(tracker.errors.records, vec![WalkError { path: "/r/f".to_string(), reason: FailureReason::Unreadable }]);
}

#[test]
fn entries_are_recorded_in_directories_only() {
    let mut fs = Snapshot::new();
    let root = fs.add_root("/r".to_string(), EntryKind::Directory, Ok(meta()));
    let file = fs.add_entry(root, "f".to_string(), EntryKind::File, Ok(meta())).unwrap();
    assert_eq!(fs.add_entry(file, "x".to_string(), EntryKind::File, Ok(meta())), None);
    assert_eq!(fs.add_entry(17, "x".to_string(), EntryKind::File, Ok(meta())), None);
    assert_eq!(fs.len(), 2);
    assert!(!fs.fail_listing(file, FailureReason::PermissionDenied));
    assert!(!fs.fail_listing(17, FailureReason::PermissionDenied));
    assert_eq!(walked(&fs, "/r", false).0[0].children.len(), 1);
    assert!(fs.fail_listing(root, FailureReason::PermissionDenied));
    let (nodes, tracker) = walked(&fs, "/r", false);
    assert!(nodes[0].children.is_empty());
    assert_eq!(tracker.errors.len(), 1);
}

#[test]
fn symlinks_lead_to_files_and_directories_only() {
    let mut fs = Snapshot::new();
    let root = fs.add_root("/r".to_string(), EntryKind::Directory, Ok(meta()));
    let file = fs.add_entry(root, "f".to_string(), EntryKind::File, Ok(Metadata { len: 5, ..meta() })).unwrap();
    let one = fs.add_entry(root, "one".to_string(), EntryKind::Symlink, Ok(meta())).unwrap();
    let two = fs.add_entry(root, "two".to_string(), EntryKind::Symlink, Ok(meta())).unwrap();
    assert!(!fs.set_target(one, two));
    assert!(!fs.set_target(file, root));
    assert!(!fs.set_target(one, 17));
    assert!(!fs.set_target(17, root));
    let (nodes, tracker) = walked(&fs, "/r", true);
    assert_eq!(nodes[0].children.len(), 1);
    assert_eq!(tracker.errors.len(), 2);
    assert!(fs.set_target(one, file));
    assert!(fs.set_target(two, root));
    let (nodes, tracker) = walked(&fs, "/r", true);
    assert_eq!(nodes[0].children.len(), 2);
    assert_eq!(nodes[0].children[1].name, "one");
    assert_eq!(nodes[0].children[1].size, 5);
    assert_eq!(tracker.errors.records, vec![WalkError { path: "/r/two".to_string(), reason: FailureReason::Cycle }]);
}
