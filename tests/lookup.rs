use file_lookup::lookup_engine::{process_dir, DirectoryEntry, LookupConfig, LookupResult, LookupResultEntry};
use file_lookup::tree::{DirTree, FsNode, NodeKind};

fn node(name: &str, path: &str, kind: NodeKind, children: Vec<usize>) -> FsNode {
    FsNode { name: name.to_string(), path: path.to_string(), kind, children }
}

fn walk(tree: &DirTree, find: &str) -> LookupResult {
    let config = LookupConfig::new(String::new(), find.to_string(), false);
    process_dir(tree, 0, &config, &DirectoryEntry::create_empty())
}

fn headers(result: &LookupResult) -> Vec<String> {
    result.body.iter().map(|e| e.get_full_path()).collect()
}

/// root: a.txt, sub/ { b.rs }
fn small_tree() -> DirTree {
    DirTree {
        nodes: vec![
            node("", "root", NodeKind::Directory, vec![1, 2]),
            node("a.txt", "root/a.txt", NodeKind::File, vec![]),
            node("sub", "root/sub", NodeKind::Directory, vec![3]),
            node("b.rs", "root/sub/b.rs", NodeKind::File, vec![]),
        ],
    }
}

#[test]
fn empty_filter_lists_everything_in_walk_order() {
    let result = walk(&small_tree(), "");
    assert!(result.is_successful);
    assert_eq!(
        headers(&result),
        vec!["RustFile  : /a.txt", "Directory : /sub", "RustFile  : /sub/b.rs"]
    );
    assert!(matches!(result.body[0], LookupResultEntry::TextOrRustFile { .. }));
    assert!(matches!(result.body[1], LookupResultEntry::Directory { .. }));
    assert!(matches!(result.body[2], LookupResultEntry::TextOrRustFile { .. }));
}

#[test]
fn filter_excludes_names_without_substring() {
    let result = walk(&small_tree(), "txt");
    assert!(result.is_successful);
    assert_eq!(headers(&result), vec!["RustFile  : /a.txt"]);
}

#[test]
fn no_match_is_unsuccessful_and_empty() {
    let result = walk(&small_tree(), "zzz");
    assert!(!result.is_successful);
    assert!(result.body.is_empty());
}

#[test]
fn matching_directory_keeps_its_whole_subtree() {
    let tree = DirTree {
        nodes: vec![
            node("", "r", NodeKind::Directory, vec![1, 3]),
            node("match_dir", "r/match_dir", NodeKind::Directory, vec![2]),
            node("x.bin", "r/match_dir/x.bin", NodeKind::File, vec![]),
            node("y.bin", "r/y.bin", NodeKind::File, vec![]),
        ],
    };
    let result = walk(&tree, "match");
    assert_eq!(headers(&result), vec!["Directory : /match_dir", "SomeFile  : /match_dir/x.bin"]);
    assert!(matches!(result.body[1], LookupResultEntry::File { .. }));
}

#[test]
fn directory_without_matches_is_left_out() {
    let tree = DirTree {
        nodes: vec![
            node("", "r", NodeKind::Directory, vec![1, 2, 4]),
            node("empty", "r/empty", NodeKind::Directory, vec![]),
            node("other", "r/other", NodeKind::Directory, vec![3]),
            node("c.md", "r/other/c.md", NodeKind::File, vec![]),
            node("link", "r/link", NodeKind::Other, vec![]),
        ],
    };
    assert_eq!(headers(&walk(&tree, "")), vec!["Directory : /other", "SomeFile  : /other/c.md"]);
    assert!(!walk(&tree, "link").is_successful);
}

#[test]
fn deep_paths_are_relative_to_the_start() {
    let tree = DirTree {
        nodes: vec![
            node("", "r", NodeKind::Directory, vec![1]),
            node("a", "r/a", NodeKind::Directory, vec![2]),
            node("b", "r/a/b", NodeKind::Directory, vec![3]),
            node("deep.txt", "r/a/b/deep.txt", NodeKind::File, vec![]),
        ],
    };
    let result = walk(&tree, "deep");
    assert_eq!(
        headers(&result),
        vec!["Directory : /a", "Directory : /a/b", "RustFile  : /a/b/deep.txt"]
    );
    match &result.body[2] {
        LookupResultEntry::TextOrRustFile { file } => {
            assert_eq!(file.get_path(), "r/a/b/deep.txt");
            assert_eq!(file.node, 3);
        }
        _ => panic!("expected a text file"),
    }
}

#[test]
fn entry_names() {
    let result = walk(&small_tree(), "");
    let names: Vec<String> = result.body.iter().map(|e| e.get_name()).collect();
    assert_eq!(names, vec!["a.txt", "sub", "b.rs"]);
}

#[test]
fn subdirectory_config_in_both_display_modes() {
    let full = LookupConfig::new("p/".to_string(), "su".to_string(), true);
    let c = full.for_subdirectory("sub");
    assert_eq!(c.prefix_print, "p/sub/");
    assert_eq!(c.target_substring, "");
    assert!(c.write_full_path);
    let indent = LookupConfig::new("".to_string(), "zz".to_string(), false);
    let c = indent.for_subdirectory("sub");
    assert_eq!(c.prefix_print, "  | ");
    assert_eq!(c.target_substring, "zz");
}

#[test]
fn full_path_mode_does_not_change_what_is_found() {
    let config = LookupConfig::new(String::new(), String::new(), true);
    let result = process_dir(&small_tree(), 0, &config, &DirectoryEntry::create_empty());
    assert_eq!(
        headers(&result),
        vec!["RustFile  : /a.txt", "Directory : /sub", "RustFile  : /sub/b.rs"]
    );
}

#[test]
fn create_empty_has_empty_path() {
    let d = DirectoryEntry::create_empty();
    assert_eq!(d.path, "");
    assert_eq!(d.name, "");
    assert_eq!(d.node, 0);
}

#[test]
fn well_formed_trees_are_recognised() {
    assert!(small_tree().is_wf());
    let backwards = DirTree {
        nodes: vec![node("", "r", NodeKind::Directory, vec![1]), node("d", "r/d", NodeKind::Directory, vec![0])],
    };
    assert!(!backwards.is_wf());
    let file_with_children = DirTree {
        nodes: vec![node("", "r", NodeKind::Directory, vec![1]), node("f", "r/f", NodeKind::File, vec![1])],
    };
    assert!(!file_with_children.is_wf());
    let out_of_range = DirTree { nodes: vec![node("", "r", NodeKind::Directory, vec![5])] };
    assert!(!out_of_range.is_wf());
}

#[test]
fn unreadable_entry_is_passed_over() {
    let tree = DirTree {
        nodes: vec![
            node("", "r", NodeKind::Directory, vec![1, 2]),
            node("", "", NodeKind::Other, vec![]),
            node("ok.txt", "r/ok.txt", NodeKind::File, vec![]),
        ],
    };
    assert_eq!(headers(&walk(&tree, "")), vec!["RustFile  : /ok.txt"]);
}
