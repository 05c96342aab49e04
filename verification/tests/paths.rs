use du_dust::text::{
    chars_occur_in, chars_precede, holds_text, is_hidden, join_path, last_component, name_precedes,
    to_chars, Pattern,
};
use du_dust::utils::{is_a_parent_of, parse_path, render_path, simplify_dir_names};

fn list(paths: &[&str]) -> Vec<String> {
    paths.iter().map(|p| p.to_string()).collect()
}

fn normal(path: &str) -> String {
    render_path(&parse_path(path))
}

#[test]
fn a_root_below_another_root_is_taken_out() {
    assert_eq!(simplify_dir_names(&list(&["/a", "/a/b"])), list(&["/a"]));
    assert_eq!(simplify_dir_names(&list(&["/a/b", "/a"])), list(&["/a"]));
    assert_eq!(simplify_dir_names(&list(&["/a/b/c", "/x", "/a/b"])), list(&["/x", "/a/b"]));
}

#[test]
fn roots_side_by_side_all_stay_in_their_order() {
    assert_eq!(simplify_dir_names(&list(&["/b", "/a", "/ab"])), list(&["/b", "/a", "/ab"]));
    assert_eq!(simplify_dir_names(&list(&["/a/b", "/a/c"])), list(&["/a/b", "/a/c"]));
    assert_eq!(simplify_dir_names(&list(&[])), list(&[]));
}

#[test]
fn a_repeated_root_stays_once() {
    assert_eq!(simplify_dir_names(&list(&["/a", "/b", "/a"])), list(&["/a", "/b"]));
    assert_eq!(simplify_dir_names(&list(&["a/", "./a", "a"])), list(&["a"]));
}

#[test]
fn roots_are_put_in_normal_form() {
    assert_eq!(simplify_dir_names(&list(&["//usr//lib/", "./src/./x"])), list(&["/usr/lib", "src/x"]));
}

#[test]
fn the_current_directory_lies_above_every_relative_path() {
    assert_eq!(simplify_dir_names(&list(&["a", ".", "b/c"])), list(&["."]));
    assert_eq!(simplify_dir_names(&list(&["/a", "."])), list(&["/a", "."]));
    assert_eq!(simplify_dir_names(&list(&["/", "/a", "b"])), list(&["/", "b"]));
}

#[test]
fn a_name_that_starts_like_another_does_not_lie_below_it() {
    assert_eq!(simplify_dir_names(&list(&["/a", "/ab", "/a/b"])), list(&["/a", "/ab"]));
}

#[test]
fn normal_forms() {
    assert_eq!(normal("/"), "/");
    assert_eq!(normal("///"), "/");
    assert_eq!(normal(""), ".");
    assert_eq!(normal("."), ".");
    assert_eq!(normal("./"), ".");
    assert_eq!(normal("/."), "/");
    assert_eq!(normal("a"), "a");
    assert_eq!(normal("a//b/./c/"), "a/b/c");
    assert_eq!(normal("/a/../b"), "/a/../b");
    assert_eq!(normal(".hidden/.x"), ".hidden/.x");
    assert_eq!(normal("/tmp/é/ü"), "/tmp/é/ü");
}

#[test]
fn lying_above() {
    let above = |a: &str, b: &str| is_a_parent_of(&parse_path(a), &parse_path(b));
    assert!(above("/a", "/a/b"));
    assert!(above("/a", "/a"));
    assert!(above("/a/", "/a//b/c"));
    assert!(!above("/a/b", "/a"));
    assert!(!above("/a", "/ab"));
    assert!(!above("a", "/a"));
    assert!(!above("/a", "a"));
    assert!(above(".", "x/y"));
    assert!(above("/", "/x"));
    assert!(!above("/x/y", "/x/z"));
}

#[test]
fn names_in_dictionary_order() {
    assert!(name_precedes("a", "b"));
    assert!(!name_precedes("b", "a"));
    assert!(!name_precedes("a", "a"));
    assert!(name_precedes("", "a"));
    assert!(!name_precedes("a", ""));
    assert!(!name_precedes("", ""));
    assert!(name_precedes("ab", "abc"));
    assert!(!name_precedes("abc", "ab"));
    assert!(name_precedes("Z", "a"));
    assert!(name_precedes("a", "é"));
    assert!(name_precedes("abd", "abe"));
    assert!(chars_precede(&vec!['a', 'b'], &vec!['a', 'c']));
    assert!(!chars_precede(&vec!['a', 'c'], &vec!['a', 'b']));
}

#[test]
fn the_order_of_names_is_that_of_strings() {
    let names = ["", "a", "ab", "b", "B", "é", "z", "a/b", "a b", "日本"];
    for x in names {
        for y in names {
            assert_eq!(name_precedes(x, y), x < y);
        }
    }
}

#[test]
fn characters_of_a_text() {
    assert_eq!(to_chars("aé/"), vec!['a', 'é', '/']);
    assert_eq!(to_chars(""), Vec::<char>::new());
}

#[test]
fn fragments() {
    let hay = to_chars("/usr/lib");
    assert!(chars_occur_in(&to_chars("usr"), &hay));
    assert!(chars_occur_in(&to_chars("/lib"), &hay));
    assert!(chars_occur_in(&to_chars(""), &hay));
    assert!(chars_occur_in(&to_chars("/usr/lib"), &hay));
    assert!(!chars_occur_in(&to_chars("/usr/lib/"), &hay));
    assert!(!chars_occur_in(&to_chars("bin"), &hay));
    assert!(chars_occur_in(&to_chars(""), &to_chars("")));
}

#[test]
fn patterns_match_where_their_fragment_stands() {
    let pattern = Pattern::new(".txt");
    assert_eq!(pattern.fragment, vec!['.', 't', 'x', 't']);
    assert!(pattern.is_match("/a/notes.txt"));
    assert!(pattern.is_match(".txt"));
    assert!(pattern.is_match("/a/x.txt.bak"));
    assert!(!pattern.is_match("/a/notes.tx"));
    assert!(!pattern.is_match(""));
    assert!(Pattern::new("").is_match("anything"));
    assert!(Pattern::new("").is_match(""));
}

#[test]
fn hidden_names_start_with_a_dot() {
    assert!(is_hidden(".git"));
    assert!(is_hidden("."));
    assert!(!is_hidden("a.b"));
    assert!(!is_hidden(""));
}

#[test]
fn joining_puts_one_separator_between() {
    assert_eq!(join_path("/a", "b"), "/a/b");
    assert_eq!(join_path("/", "b"), "/b");
    assert_eq!(join_path("", "b"), "b");
    assert_eq!(join_path("a/", "b"), "a/b");
    assert_eq!(join_path(".", "b"), "./b");
    assert_eq!(join_path("/é", "ü"), "/é/ü");
    assert_eq!(join_path("/a", ""), "/a/");
}

#[test]
fn the_last_component_stands_behind_the_last_separator() {
    assert_eq!(last_component("/a/b"), "b");
    assert_eq!(last_component("b"), "b");
    assert_eq!(last_component("/"), "/");
    assert_eq!(last_component("a/"), "a/");
    assert_eq!(last_component(""), "");
    assert_eq!(last_component("/x/é"), "é");
    assert_eq!(last_component("/é/x.txt"), "x.txt");
}

#[test]
fn texts_held_in_a_list() {
    let held = list(&["/a", "/b"]);
    assert!(holds_text(&held, &"/a".to_string()));
    assert!(holds_text(&held, &"/b".to_string()));
    assert!(!holds_text(&held, &"/c".to_string()));
    assert!(!holds_text(&list(&[]), &"/a".to_string()));
}
