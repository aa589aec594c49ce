use file_lookup::lookup_engine::{process_dir, DirectoryEntry, LookupConfig, LookupResultEntry, FileEntry};
use file_lookup::postprocess::{
    arrange_entries, insertion_sort, keep_files, look_for_key_in_file, parse_result_vector, process_one_file, Settings,
};
use file_lookup::tree::{DirTree, FsNode, NodeKind};

fn node(name: &str, kind: NodeKind, children: Vec<usize>) -> FsNode {
    FsNode { name: name.to_string(), path: format!("r/{}", name), kind, children }
}

fn settings(sort: bool, key: Option<&str>) -> Settings {
    Settings {
        sort_files: sort,
        look_for_key_entry_in_files: key.is_some(),
        key_in_file: key.unwrap_or("").to_string(),
    }
}

fn walk(tree: &DirTree, find: &str) -> Vec<LookupResultEntry> {
    let config = LookupConfig::new(String::new(), find.to_string(), false);
    process_dir(tree, 0, &config, &DirectoryEntry::create_empty()).body
}

fn file(name: &str, node: usize) -> LookupResultEntry {
    LookupResultEntry::File {
        file: FileEntry { node, name: name.to_string(), parent_path: String::new(), os_path: name.to_string() },
    }
}

/// root: a.txt, sub/ { b.rs }
fn small_tree() -> DirTree {
    DirTree {
        nodes: vec![
            node("", NodeKind::Directory, vec![1, 2]),
            node("a.txt", NodeKind::File, vec![]),
            node("sub", NodeKind::Directory, vec![3]),
            node("b.rs", NodeKind::File, vec![]),
        ],
    }
}

#[test]
fn key_search_lists_matching_lines_of_text_files() {
    let found = walk(&small_tree(), "txt");
    let contents = vec![None, Some(vec!["hello world".to_string()]), None, None];
    let out = parse_result_vector(found, &settings(false, Some("hello")), &contents);
    assert_eq!(out, "RustFile  : /a.txt\n        --> hello world\n");
}

#[test]
fn plain_report_keeps_walk_order_and_directories() {
    let found = walk(&small_tree(), "");
    let out = parse_result_vector(found, &settings(false, None), &vec![]);
    assert_eq!(out, "RustFile  : /a.txt\nDirectory : /sub\nRustFile  : /sub/b.rs\n");
}

#[test]
fn sorted_report_has_files_by_name_and_no_directories() {
    let tree = DirTree {
        nodes: vec![
            node("", NodeKind::Directory, vec![1, 2]),
            node("zeta.txt", NodeKind::File, vec![]),
            node("src", NodeKind::Directory, vec![3]),
            node("alpha.rs", NodeKind::File, vec![]),
        ],
    };
    let out = parse_result_vector(walk(&tree, ""), &settings(true, None), &vec![]);
    assert_eq!(out, "RustFile  : /src/alpha.rs\nRustFile  : /zeta.txt\n");
}

#[test]
fn unreadable_file_adds_no_lines() {
    let found = walk(&small_tree(), "txt");
    let out = parse_result_vector(found, &settings(false, Some("hello")), &vec![None, None]);
    assert_eq!(out, "RustFile  : /a.txt\n");
}

#[test]
fn empty_key_searches_nothing() {
    let found = walk(&small_tree(), "txt");
    let contents = vec![None, Some(vec!["hello".to_string()])];
    let out = parse_result_vector(found, &settings(false, Some("")), &contents);
    assert_eq!(out, "RustFile  : /a.txt\n");
}

#[test]
fn plain_files_and_directories_get_no_key_lines() {
    let f = file("notes.md", 1);
    let contents = vec![None, Some(vec!["hello".to_string()])];
    assert_eq!(process_one_file(&f, &settings(false, Some("hello")), &contents), "SomeFile  : /notes.md\n");
}

#[test]
fn several_matching_lines_keep_their_order() {
    let lines = vec!["one key".to_string(), "two".to_string(), "key three".to_string()];
    assert_eq!(look_for_key_in_file(&lines, "key"), vec!["one key", "key three"]);
    assert!(look_for_key_in_file(&lines, "absent").is_empty());
}

#[test]
fn sort_orders_by_code_point() {
    let sorted = insertion_sort(vec![file("b", 1), file("B", 2), file("a", 3), file("ab", 4), file("", 5)]);
    let names: Vec<String> = sorted.iter().map(|e| e.get_name()).collect();
    assert_eq!(names, vec!["", "B", "a", "ab", "b"]);
}

#[test]
fn sort_keeps_equal_names_in_order() {
    let sorted = insertion_sort(vec![file("x", 1), file("a", 2), file("x", 3)]);
    let nodes: Vec<usize> = sorted
        .iter()
        .map(|e| match e {
            LookupResultEntry::File { file } => file.node,
            _ => usize::MAX,
        })
        .collect();
    assert_eq!(nodes, vec![2, 1, 3]);
}

#[test]
fn sort_of_nothing_is_nothing() {
    assert!(insertion_sort(vec![]).is_empty());
}

#[test]
fn keep_files_drops_directories() {
    let found = walk(&small_tree(), "");
    let files = keep_files(found);
    let names: Vec<String> = files.iter().map(|e| e.get_name()).collect();
    assert_eq!(names, vec!["a.txt", "b.rs"]);
}

#[test]
fn arrange_without_sort_changes_nothing() {
    let found = walk(&small_tree(), "");
    let arranged = arrange_entries(found, false);
    assert_eq!(arranged.len(), 3);
    assert_eq!(arranged[1].get_full_path(), "Directory : /sub");
}
