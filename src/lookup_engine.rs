//! The recursive match engine: walks a directory tree, keeps the entries
//! whose names contain the target substring, and flattens what it kept into
//! one sequence, each directory right before its own entries.
use vstd::prelude::*;
use crate::text::{contains, has_suffix, str_contains, str_ends_with, empty_string};
use crate::tree::{DirTree, NodeKind};

verus! {

/// What is handed down from one directory level to the next.
pub struct LookupConfig {
    /// Rendering prefix for the current level.
    pub prefix_print: String,
    /// Substring a name must contain; the empty string matches every name.
    pub target_substring: String,
    /// Whether the prefix collects path segments rather than indentation.
    pub write_full_path: bool,
}

/// A found directory.
pub struct DirectoryEntry {
    /// Id of the directory in the tree.
    pub node: usize,
    pub name: String,
    /// Path from the start of the walk, each segment led by `/`.
    pub path: String,
}

/// A found file.
pub struct FileEntry {
    /// Id of the file in the tree.
    pub node: usize,
    pub name: String,
    /// Path of the directory holding the file, as in `DirectoryEntry::path`.
    pub parent_path: String,
    /// Path under which the file can be opened.
    pub os_path: String,
}

/// One found entry.
pub enum LookupResultEntry {
    Directory { directory: DirectoryEntry },
    File { file: FileEntry },
    /// A file whose name marks it as text (`.rs`, `.txt`), open to a search
    /// of its lines.
    TextOrRustFile { file: FileEntry },
}

/// The outcome of a walk: whether anything was found, and what.
pub struct LookupResult {
    pub is_successful: bool,
    pub body: Vec<LookupResultEntry>,
}

/// The mathematical content of a found entry.
pub enum EntryView {
    Directory { node: int, name: Seq<char>, path: Seq<char> },
    File { node: int, parent_path: Seq<char>, name: Seq<char>, os_path: Seq<char> },
    TextOrRustFile { node: int, parent_path: Seq<char>, name: Seq<char>, os_path: Seq<char> },
}

impl EntryView {
    pub open spec fn node(self) -> int {
        match self {
            EntryView::Directory { node, .. } => node,
            EntryView::File { node, .. } => node,
            EntryView::TextOrRustFile { node, .. } => node,
        }
    }

    pub open spec fn name(self) -> Seq<char> {
        match self {
            EntryView::Directory { name, .. } => name,
            EntryView::File { name, .. } => name,
            EntryView::TextOrRustFile { name, .. } => name,
        }
    }

    /// The path the entry is shown under.
    pub open spec fn full_path(self) -> Seq<char> {
        match self {
            EntryView::Directory { path, .. } => path,
            EntryView::File { parent_path, name, .. } => parent_path + "/"@ + name,
            EntryView::TextOrRustFile { parent_path, name, .. } => parent_path + "/"@ + name,
        }
    }

    pub open spec fn is_file(self) -> bool {
        !(self is Directory)
    }
}

impl View for LookupResultEntry {
    type V = EntryView;

    open spec fn view(&self) -> EntryView {
        match self {
            LookupResultEntry::Directory { directory } => EntryView::Directory {
                node: directory.node as int,
                name: directory.name@,
                path: directory.path@,
            },
            LookupResultEntry::File { file } => EntryView::File {
                node: file.node as int,
                parent_path: file.parent_path@,
                name: file.name@,
                os_path: file.os_path@,
            },
            LookupResultEntry::TextOrRustFile { file } => EntryView::TextOrRustFile {
                node: file.node as int,
                parent_path: file.parent_path@,
                name: file.name@,
                os_path: file.os_path@,
            },
        }
    }
}

/// The views of a sequence of entries.
pub open spec fn views(s: Seq<LookupResultEntry>) -> Seq<EntryView> {
    s.map_values(|e: LookupResultEntry| e@)
}

/// `r` holds exactly the entries `v`, and is successful iff there are any.
pub open spec fn result_is(r: LookupResult, v: Seq<EntryView>) -> bool {
    &&& views(r.body@) == v
    &&& r.is_successful == (v.len() > 0)
}

/// Names that mark a file as text.
pub open spec fn is_text_name(name: Seq<char>) -> bool {
    has_suffix(name, ".rs"@) || has_suffix(name, ".txt"@)
}

/// The filter under a directory called `name`: once a directory matches,
/// everything below it does.
pub open spec fn child_substring(name: Seq<char>, s: Seq<char>) -> Seq<char> {
    if contains(name, s) {
        Seq::empty()
    } else {
        s
    }
}

/// The rendering prefix one level below a directory called `name`.
pub open spec fn child_prefix(prefix: Seq<char>, name: Seq<char>, full: bool) -> Seq<char> {
    if full {
        prefix + name + "/"@
    } else {
        prefix + "  | "@
    }
}

/// What a file contributes: itself, classified, if its name matches.
pub open spec fn file_matches(
    node: int,
    parent_path: Seq<char>,
    name: Seq<char>,
    os_path: Seq<char>,
    s: Seq<char>,
) -> Seq<EntryView> {
    if !contains(name, s) {
        Seq::empty()
    } else if is_text_name(name) {
        seq![EntryView::TextOrRustFile { node, parent_path, name, os_path }]
    } else {
        seq![EntryView::File { node, parent_path, name, os_path }]
    }
}

/// What directory `d`, shown as `path`, contributes: itself followed by what
/// its entries contribute, or nothing when they contribute nothing.
pub open spec fn dir_matches(
    t: &DirTree,
    d: int,
    name: Seq<char>,
    path: Seq<char>,
    s: Seq<char>,
) -> Seq<EntryView>
    decreases t.len() - d, 1nat, 0nat,
{
    if 0 <= d < t.len() {
        let inner = children_matches(t, d, path, child_substring(name, s), t.children(d).len() as int);
        if inner.len() > 0 {
            seq![EntryView::Directory { node: d, name, path }] + inner
        } else {
            Seq::empty()
        }
    } else {
        Seq::empty()
    }
}

/// What the first `k` entries of directory `d` contribute, in listing order,
/// when `d` is shown as `path` and filtered by `s`.
pub open spec fn children_matches(
    t: &DirTree,
    d: int,
    path: Seq<char>,
    s: Seq<char>,
    k: int,
) -> Seq<EntryView>
    decreases t.len() - d, 0nat, k,
{
    if 0 <= d < t.len() && 0 < k <= t.children(d).len() {
        let c = t.children(d)[k - 1] as int;
        let before = children_matches(t, d, path, s, k - 1);
        if d < c < t.len() {
            before + entry_matches(t, c, path, s)
        } else {
            before
        }
    } else {
        Seq::empty()
    }
}

/// What node `c`, listed in the directory shown as `parent_path`,
/// contributes under filter `s`.
pub open spec fn entry_matches(t: &DirTree, c: int, parent_path: Seq<char>, s: Seq<char>) -> Seq<
    EntryView,
>
    decreases t.len() - c, 2nat, 0nat,
{
    if 0 <= c < t.len() {
        match t.kind(c) {
            NodeKind::File => file_matches(c, parent_path, t.name(c), t.nodes@[c].path@, s),
            NodeKind::Directory => dir_matches(t, c, t.name(c), parent_path + "/"@ + t.name(c), s),
            NodeKind::Other => Seq::empty(),
        }
    } else {
        Seq::empty()
    }
}

/// What a walk of directory `d`, shown as `path`, finds under filter `s`.
pub open spec fn scan(t: &DirTree, d: int, path: Seq<char>, s: Seq<char>) -> Seq<EntryView> {
    children_matches(t, d, path, s, t.children(d).len() as int)
}

impl LookupConfig {
    pub fn new(prefix_print: String, target_substring: String, write_full_path: bool) -> (r:
        LookupConfig)
        ensures
            r.prefix_print@ == prefix_print@,
            r.target_substring@ == target_substring@,
            r.write_full_path == write_full_path,
    {
        LookupConfig { prefix_print, target_substring, write_full_path }
    }

    /// The configuration for the level below a directory called `dir_name`.
    pub fn for_subdirectory(&self, dir_name: &str) -> (r: LookupConfig)
        ensures
            r.prefix_print@ == child_prefix(self.prefix_print@, dir_name@, self.write_full_path),
            r.target_substring@ == child_substring(dir_name@, self.target_substring@),
            r.write_full_path == self.write_full_path,
    {
        let mut new_prefix = self.prefix_print.clone();
        if self.write_full_path {
            new_prefix.append(dir_name);
            new_prefix.append("/");
        } else {
            new_prefix.append("  | ");
        }
        let new_subst = if str_contains(dir_name, self.target_substring.as_str()) {
            empty_string()
        } else {
            self.target_substring.clone()
        };
        LookupConfig::new(new_prefix, new_subst, self.write_full_path)
    }
}

impl LookupResultEntry {
    /// The entry's name.
    pub fn get_name(&self) -> (r: String)
        ensures
            r@ == self@.name(),
    {
        match self {
            LookupResultEntry::Directory { directory } => directory.name.clone(),
            LookupResultEntry::File { file } => file.name.clone(),
            LookupResultEntry::TextOrRustFile { file } => file.name.clone(),
        }
    }
}

impl FileEntry {
    /// The path under which the file can be opened.
    pub fn get_path(&self) -> (r: String)
        ensures
            r@ == self.os_path@,
    {
        self.os_path.clone()
    }

    /// Keeps the file if its name contains the target substring.
    pub fn process_entry(self, lookup_config: &LookupConfig) -> (r: LookupResult)
        ensures
            result_is(
                r,
                file_matches(
                    self.node as int,
                    self.parent_path@,
                    self.name@,
                    self.os_path@,
                    lookup_config.target_substring@,
                ),
            ),
    {
        if str_contains(self.name.as_str(), lookup_config.target_substring.as_str()) {
            let is_text = str_ends_with(self.name.as_str(), ".rs") || str_ends_with(
                self.name.as_str(),
                ".txt",
            );
            let entry = if is_text {
                LookupResultEntry::TextOrRustFile { file: self }
            } else {
                LookupResultEntry::File { file: self }
            };
            let body = vec![entry];
            proof {
                assert(views(body@) =~= seq![entry@]);
            }
            return LookupResult { is_successful: true, body };
        }
        let body: Vec<LookupResultEntry> = Vec::new();
        proof {
            assert(views(body@) =~= Seq::<EntryView>::empty());
        }
        LookupResult { is_successful: false, body }
    }
}

impl DirectoryEntry {
    /// The directory the walk starts from: no name, and an empty path.
    pub fn create_empty() -> (r: DirectoryEntry)
        ensures
            r.node == 0,
            r.name@ == Seq::<char>::empty(),
            r.path@ == Seq::<char>::empty(),
    {
        DirectoryEntry { node: 0, name: empty_string(), path: empty_string() }
    }

    /// Walks the directory; keeps it, in front of what was found in it, if
    /// anything was.
    pub fn process_entry(self, tree: &DirTree, lookup_config: &LookupConfig) -> (r: LookupResult)
        requires
            tree.wf(),
            self.node < tree.len(),
        ensures
            result_is(
                r,
                dir_matches(
                    tree,
                    self.node as int,
                    self.name@,
                    self.path@,
                    lookup_config.target_substring@,
                ),
            ),
        decreases tree.len() - self.node, 1nat,
    {
        let child_config = lookup_config.for_subdirectory(self.name.as_str());
        let mut result = process_dir(tree, self.node, &child_config, &self);
        if result.is_successful {
            let ghost inner = result.body@;
            let dir_entry = LookupResultEntry::Directory { directory: self };
            result.body.insert(0, dir_entry);
            proof {
                assert(views(result.body@) =~= seq![views(seq![dir_entry])[0]] + views(inner));
            }
            return LookupResult { is_successful: true, body: result.body };
        }
        let body: Vec<LookupResultEntry> = Vec::new();
        proof {
            assert(views(body@) =~= Seq::<EntryView>::empty());
        }
        LookupResult { is_successful: false, body }
    }
}

/// Walks directory `node` of the tree, shown as `dir.path`, and collects what
/// its entries contribute, in listing order.
pub fn process_dir(tree: &DirTree, node: usize, lookup_config: &LookupConfig, dir: &DirectoryEntry) -> (r:
    LookupResult)
    requires
        tree.wf(),
        node < tree.len(),
    ensures
        result_is(r, scan(tree, node as int, dir.path@, lookup_config.target_substring@)),
    decreases tree.len() - node, 0nat,
{
    let mut is_not_empty = false;
    let mut body: Vec<LookupResultEntry> = Vec::new();
    let children = &tree.nodes[node].children;
    let mut j: usize = 0;
    proof {
        assert(views(body@) =~= Seq::<EntryView>::empty());
    }
    while j < children.len()
        invariant
            tree.wf(),
            node < tree.len(),
            children@ == tree.children(node as int),
            j <= children@.len(),
            views(body@) == children_matches(
                tree,
                node as int,
                dir.path@,
                lookup_config.target_substring@,
                j as int,
            ),
            is_not_empty == (body@.len() > 0),
        decreases children@.len() - j,
    {
        let c = children[j];
        let mut result = process_entry(tree, c, lookup_config, dir);
        is_not_empty = is_not_empty || result.is_successful;
        let ghost before = body@;
        let ghost got = result.body@;
        body.append(&mut result.body);
        proof {
            assert(views(body@) =~= views(before) + views(got));
        }
        j = j + 1;
    }
    LookupResult { is_successful: is_not_empty, body }
}

/// What entry `c` of the tree contributes when listed in `parent`.
fn process_entry(tree: &DirTree, c: usize, lookup_config: &LookupConfig, parent: &DirectoryEntry) -> (r:
    LookupResult)
    requires
        tree.wf(),
        c < tree.len(),
    ensures
        result_is(r, entry_matches(tree, c as int, parent.path@, lookup_config.target_substring@)),
    decreases tree.len() - c, 2nat,
{
    let n = &tree.nodes[c];
    match n.kind {
        NodeKind::File => {
            let current_file = FileEntry {
                node: c,
                name: n.name.clone(),
                parent_path: parent.path.clone(),
                os_path: n.path.clone(),
            };
            current_file.process_entry(lookup_config)
        },
        NodeKind::Directory => {
            let mut path = parent.path.clone();
            path.append("/");
            path.append(n.name.as_str());
            let current_dir = DirectoryEntry { node: c, name: n.name.clone(), path };
            current_dir.process_entry(tree, lookup_config)
        },
        NodeKind::Other => {
            let body: Vec<LookupResultEntry> = Vec::new();
            proof {
                assert(views(body@) =~= Seq::<EntryView>::empty());
            }
            LookupResult { is_successful: false, body }
        },
    }
}

} // verus!
