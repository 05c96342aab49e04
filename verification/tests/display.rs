use du_dust::display_node::{shown_before, DisplayNode};
use du_dust::filter::{get_biggest, project, retains, selects, AggregateData};
use du_dust::get_largest_nodes;
use du_dust::node::Node;
use du_dust::text::Pattern;

fn file(name: &str, size: u64) -> Node {
    Node { name: name.to_string(), size, children: vec![], device_id: None, is_dir: false }
}

fn dir(name: &str, size: u64, children: Vec<Node>) -> Node {
    Node { name: name.to_string(), size, children, device_id: None, is_dir: true }
}

fn shown(name: &str, size: u64, children: Vec<DisplayNode>) -> DisplayNode {
    DisplayNode { name: name.to_string(), size, children }
}

fn settings() -> AggregateData {
    AggregateData {
        min_size: None,
        only_dir: false,
        only_file: false,
        number_of_lines: 10,
        depth: usize::MAX,
        using_a_filter: false,
        short_paths: false,
    }
}

const MB: u64 = 1024 * 1024;

fn deep_tree() -> Node {
    let big = file("big.bin", MB);
    let d5 = dir("d5", MB + 10, vec![file("tiny5", 10), big]);
    let d4 = dir("d4", MB + 30, vec![d5, file("tiny4", 20)]);
    let d3 = dir("d3", MB + 60, vec![file("tiny3", 30), d4]);
    let d2 = dir("d2", MB + 100, vec![d3, file("tiny2", 40)]);
    let d1 = dir("d1", MB + 150, vec![file("tiny1", 50), d2]);
    dir("/r", MB + 210, vec![d1, file("tiny0", 60)])
}

#[test]
fn empty_forest_shows_nothing() {
    assert_eq!(get_largest_nodes(vec![], 10), None);
    assert_eq!(get_biggest(vec![], settings(), &None, vec![]), None);
}

#[test]
fn the_largest_two_lead_and_equal_sizes_go_by_name() {
    let root = dir("/r", 21, vec![file("d", 1), file("c", 5), file("a", 10), file("b", 5)]);
    let result = get_largest_nodes(vec![root], 2);
    assert_eq!(result, Some(shown("/r", 21, vec![shown("/r/a", 10, vec![]), shown("/r/b", 5, vec![])])));
}

#[test]
fn all_entries_are_ranked_where_the_bound_is_wide() {
    let root = dir("/r", 21, vec![file("d", 1), file("c", 5), file("a", 10), file("b", 5)]);
    let result = get_largest_nodes(vec![root], 10);
    assert_eq!(
        result,
        Some(shown(
            "/r",
            21,
            vec![
                shown("/r/a", 10, vec![]),
                shown("/r/b", 5, vec![]),
                shown("/r/c", 5, vec![]),
                shown("/r/d", 1, vec![]),
            ],
        ))
    );
}

#[test]
fn a_bound_of_zero_shows_no_entries() {
    let root = dir("/r", 21, vec![file("a", 10), file("b", 5)]);
    assert_eq!(get_largest_nodes(vec![root], 0), Some(shown("/r", 21, vec![])));
}

#[test]
fn the_bound_holds_at_every_level() {
    let sub = dir("sub", 9, vec![file("x", 2), file("y", 3), file("z", 4)]);
    let root = dir("/r", 12, vec![file("a", 1), sub, file("b", 2)]);
    let result = get_largest_nodes(vec![root], 2);
    assert_eq!(
        result,
        Some(shown(
            "/r",
            12,
            vec![
                shown("/r/sub", 9, vec![shown("/r/sub/z", 4, vec![]), shown("/r/sub/y", 3, vec![])]),
                shown("/r/b", 2, vec![]),
            ],
        ))
    );
}

#[test]
fn depth_zero_shows_the_root_alone_with_its_full_size() {
    let root = dir("/r", 16, vec![dir("sub", 15, vec![file("x", 15)]), file("y", 1)]);
    let cfg = AggregateData { depth: 0, ..settings() };
    assert_eq!(get_biggest(vec![root], cfg, &None, vec![]), Some(shown("/r", 16, vec![])));
}

#[test]
fn depth_one_shows_the_entries_of_the_root_only() {
    let root = dir("/r", 16, vec![dir("sub", 15, vec![file("x", 15)]), file("y", 1)]);
    let cfg = AggregateData { depth: 1, ..settings() };
    assert_eq!(
        get_biggest(vec![root], cfg, &None, vec![]),
        Some(shown("/r", 16, vec![shown("/r/sub", 15, vec![]), shown("/r/y", 1, vec![])]))
    );
}

#[test]
fn ancestors_of_a_large_file_stay_with_their_full_sizes() {
    let cfg = AggregateData { min_size: Some(500 * 1024), ..settings() };
    let result = get_biggest(vec![deep_tree()], cfg, &None, vec![]);
    let expected = shown(
        "/r",
        MB + 210,
        vec![shown(
            "/r/d1",
            MB + 150,
            vec![shown(
                "/r/d1/d2",
                MB + 100,
                vec![shown(
                    "/r/d1/d2/d3",
                    MB + 60,
                    vec![shown(
                        "/r/d1/d2/d3/d4",
                        MB + 30,
                        vec![shown(
                            "/r/d1/d2/d3/d4/d5",
                            MB + 10,
                            vec![shown("/r/d1/d2/d3/d4/d5/big.bin", MB, vec![])],
                        )],
                    )],
                )],
            )],
        )],
    );
    assert_eq!(result, Some(expected));
}

#[test]
fn a_small_directory_on_the_way_to_a_large_entry_is_kept() {
    let root = dir("/r", 0, vec![dir("thin", 1, vec![file("fat", 100)]), file("slim", 2)]);
    let cfg = AggregateData { min_size: Some(50), ..settings() };
    assert_eq!(
        get_biggest(vec![root], cfg, &None, vec![]),
        Some(shown("/r", 0, vec![shown("/r/thin", 1, vec![shown("/r/thin/fat", 100, vec![])])]))
    );
}

#[test]
fn the_threshold_itself_is_large_enough() {
    let root = dir("/r", 30, vec![file("at", 10), file("under", 9), file("over", 11)]);
    let cfg = AggregateData { min_size: Some(10), ..settings() };
    assert_eq!(
        get_biggest(vec![root], cfg, &None, vec![]),
        Some(shown("/r", 30, vec![shown("/r/over", 11, vec![]), shown("/r/at", 10, vec![])]))
    );
}

#[test]
fn a_forest_in_which_nothing_is_kept_shows_nothing() {
    let root = dir("/r", 5, vec![file("a", 2), file("b", 3)]);
    let cfg = AggregateData { min_size: Some(100), ..settings() };
    assert_eq!(get_biggest(vec![root], cfg, &None, vec![]), None);
}

#[test]
fn a_name_pattern_keeps_the_way_to_each_match() {
    let root = dir(
        "/r",
        60,
        vec![
            dir("photos", 30, vec![file("cat.png", 10), file("notes.txt", 20)]),
            dir("music", 30, vec![file("song.mp3", 30)]),
        ],
    );
    let pattern = Some(Pattern::new(".png"));
    assert_eq!(
        get_biggest(vec![root], settings(), &pattern, vec![]),
        Some(shown("/r", 60, vec![shown("/r/photos", 30, vec![shown("/r/photos/cat.png", 10, vec![])])]))
    );
}

#[test]
fn with_a_threshold_and_a_pattern_either_is_enough() {
    let root = dir("/r", 111, vec![file("small.log", 1), file("large.bin", 100), file("small.bin", 10)]);
    let cfg = AggregateData { min_size: Some(50), ..settings() };
    let pattern = Some(Pattern::new(".log"));
    assert_eq!(
        get_biggest(vec![root], cfg, &pattern, vec![]),
        Some(shown("/r", 111, vec![shown("/r/large.bin", 100, vec![]), shown("/r/small.log", 1, vec![])]))
    );
}

#[test]
fn only_directories_are_shown_where_asked() {
    let root = dir("/r", 16, vec![dir("sub", 15, vec![file("x", 15)]), file("y", 1)]);
    let cfg = AggregateData { only_dir: true, ..settings() };
    assert_eq!(
        get_biggest(vec![root], cfg, &None, vec![]),
        Some(shown("/r", 16, vec![shown("/r/sub", 15, vec![])]))
    );
}

#[test]
fn only_files_are_shown_with_the_way_to_them() {
    let root = dir("/r", 16, vec![dir("sub", 15, vec![file("x", 15)]), dir("void", 0, vec![]), file("y", 1)]);
    let cfg = AggregateData { only_file: true, ..settings() };
    assert_eq!(
        get_biggest(vec![root], cfg, &None, vec![]),
        Some(shown(
            "/r",
            16,
            vec![shown("/r/sub", 15, vec![shown("/r/sub/x", 15, vec![])]), shown("/r/y", 1, vec![])],
        ))
    );
}

#[test]
fn directories_go_first_where_both_kinds_are_asked_for() {
    let root = dir("/r", 16, vec![dir("sub", 15, vec![file("x", 15)]), file("y", 1)]);
    let cfg = AggregateData { only_dir: true, only_file: true, ..settings() };
    assert_eq!(
        get_biggest(vec![root], cfg, &None, vec![]),
        Some(shown("/r", 16, vec![shown("/r/sub", 15, vec![])]))
    );
}

#[test]
fn a_directory_left_empty_by_a_filter_is_not_shown() {
    let tree = || dir("/r", 5, vec![dir("void", 0, vec![]), file("none", 0), file("some", 5)]);
    let cfg = AggregateData { using_a_filter: true, ..settings() };
    assert_eq!(
        get_biggest(vec![tree()], cfg, &None, vec![]),
        Some(shown("/r", 5, vec![shown("/r/some", 5, vec![]), shown("/r/none", 0, vec![])]))
    );
    assert_eq!(
        get_biggest(vec![tree()], settings(), &None, vec![]),
        Some(shown(
            "/r",
            5,
            vec![shown("/r/some", 5, vec![]), shown("/r/none", 0, vec![]), shown("/r/void", 0, vec![])],
        ))
    );
}

#[test]
fn an_excluded_path_is_left_out_with_all_below_it() {
    let root = dir("/r", 16, vec![dir("sub", 15, vec![file("x", 15)]), file("y", 1)]);
    let excluded = vec!["/r/sub".to_string()];
    assert_eq!(
        get_biggest(vec![root], settings(), &None, excluded),
        Some(shown("/r", 16, vec![shown("/r/y", 1, vec![])]))
    );
}

#[test]
fn an_excluded_root_shows_nothing() {
    let root = dir("/r", 16, vec![file("y", 16)]);
    assert_eq!(get_biggest(vec![root], settings(), &None, vec!["/r".to_string()]), None);
}

#[test]
fn short_names_replace_paths() {
    let root = dir("/home/r", 16, vec![dir("sub", 15, vec![file("x", 15)]), file("y", 1)]);
    let cfg = AggregateData { short_paths: true, ..settings() };
    assert_eq!(
        get_biggest(vec![root], cfg, &None, vec![]),
        Some(shown("r", 16, vec![shown("sub", 15, vec![shown("x", 15, vec![])]), shown("y", 1, vec![])]))
    );
}

#[test]
fn several_roots_stand_below_their_sum() {
    let a = dir("/a", 10, vec![file("x", 10)]);
    let b = dir("/b", 30, vec![file("y", 30)]);
    let result = get_largest_nodes(vec![a, b], 5);
    assert_eq!(
        result,
        Some(shown(
            "(total)",
            40,
            vec![
                shown("/b", 30, vec![shown("/b/y", 30, vec![])]),
                shown("/a", 10, vec![shown("/a/x", 10, vec![])]),
            ],
        ))
    );
}

#[test]
fn the_sum_of_the_roots_stops_at_the_largest_size() {
    let a = file("/a", u64::MAX);
    let b = file("/b", 5);
    let result = get_largest_nodes(vec![a, b], 5);
    assert_eq!(
        result,
        Some(shown("(total)", u64::MAX, vec![shown("/a", u64::MAX, vec![]), shown("/b", 5, vec![])]))
    );
}

#[test]
fn depth_zero_shows_several_roots_without_their_entries() {
    let a = dir("/a", 10, vec![file("x", 10)]);
    let b = dir("/b", 30, vec![file("y", 30)]);
    let cfg = AggregateData { depth: 0, ..settings() };
    assert_eq!(
        get_biggest(vec![a, b], cfg, &None, vec![]),
        Some(shown("(total)", 40, vec![shown("/b", 30, vec![]), shown("/a", 10, vec![])]))
    );
}

#[test]
fn entries_equal_in_size_and_name_keep_their_order() {
    let a = dir("x", 5, vec![file("first", 5)]);
    let b = dir("x", 5, vec![file("second", 5)]);
    let cfg = AggregateData { short_paths: true, ..settings() };
    assert_eq!(
        get_biggest(vec![a, b], cfg, &None, vec![]),
        Some(shown(
            "(total)",
            10,
            vec![
                shown("x", 5, vec![shown("first", 5, vec![])]),
                shown("x", 5, vec![shown("second", 5, vec![])]),
            ],
        ))
    );
}

#[test]
fn the_sizes_shown_are_those_of_the_tree_whatever_is_left_out() {
    let root = dir("/r", 1000, vec![file("a", 1), file("b", 2)]);
    let result = get_largest_nodes(vec![root], 1).unwrap();
    assert_eq!(result.size, 1000);
    assert_eq!(result.children.len(), 1);
    assert_eq!(result.children[0].size, 2);
}

#[test]
fn larger_goes_before_smaller_and_names_break_ties() {
    assert!(shown_before(&shown("z", 10, vec![]), &shown("a", 5, vec![])));
    assert!(!shown_before(&shown("a", 5, vec![]), &shown("z", 10, vec![])));
    assert!(shown_before(&shown("a", 5, vec![]), &shown("b", 5, vec![])));
    assert!(!shown_before(&shown("b", 5, vec![]), &shown("a", 5, vec![])));
    assert!(!shown_before(&shown("a", 5, vec![]), &shown("a", 5, vec![])));
}

#[test]
fn selection_and_retention_of_single_entries() {
    let cfg = AggregateData { min_size: Some(10), ..settings() };
    let none: Vec<String> = vec![];
    assert!(selects(&cfg, &None, &file("a", 10)));
    assert!(!selects(&cfg, &None, &file("a", 9)));
    let holder = dir("d", 0, vec![file("a", 10)]);
    assert!(!selects(&cfg, &None, &holder));
    assert!(retains(&cfg, &None, &none, &holder, &"d".to_string()));
    assert!(!retains(&cfg, &None, &vec!["d".to_string()], &holder, &"d".to_string()));
    assert_eq!(project(&cfg, &None, &none, &file("a", 9), "a".to_string(), 0), None);
    assert_eq!(
        project(&cfg, &None, &none, &holder, "d".to_string(), 0),
        Some(shown("d", 0, vec![shown("d/a", 10, vec![])]))
    );
}

#[test]
fn a_copy_of_a_tree_equals_the_tree() {
    let tree = deep_tree();
    let copy = tree.clone();
    assert_eq!(copy, tree);
    let result = get_largest_nodes(vec![tree], 3).unwrap();
    assert_eq!(result.clone(), result);
}
