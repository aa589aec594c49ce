//! Turns the entries a walk found into the report: optionally keeps only the
//! files, sorted by name, renders one header line per entry, and lists the
//! lines of text files that hold a key.
use vstd::prelude::*;
use vstd::seq_lib::{to_multiset_insert, to_multiset_remove};
use crate::text::{contains, lex_le, lex_lt, lemma_lex_lt_asymmetric, str_contains, str_less, empty_string};
use crate::lookup_engine::{EntryView, LookupResultEntry, views};

verus! {

/// How the report is made.
pub struct Settings {
    /// Keep only the files, sorted by name.
    pub sort_files: bool,
    /// List the lines of text files that contain `key_in_file`.
    pub look_for_key_entry_in_files: bool,
    pub key_in_file: String,
}

/// The search inside files is on, with a key that is not empty.
pub open spec fn key_search_on(settings: &Settings) -> bool {
    settings.look_for_key_entry_in_files && settings.key_in_file@.len() > 0
}

/// The file-type entries of `s`, in order.
pub open spec fn file_entries(s: Seq<EntryView>) -> Seq<EntryView>
    decreases s.len(),
{
    if s.len() == 0 {
        s
    } else if s.last().is_file() {
        file_entries(s.drop_last()).push(s.last())
    } else {
        file_entries(s.drop_last())
    }
}

/// Each entry's name comes no later than the next one's.
pub open spec fn sorted_by_name(s: Seq<EntryView>) -> bool {
    forall|i: int| 0 <= i < s.len() - 1 ==> lex_le(#[trigger] s[i].name(), s[i + 1].name())
}

/// `x` put into `s` right after the last entry whose name does not come
/// after its own (at the front if there is none).
pub open spec fn insert_by_name(s: Seq<EntryView>, x: EntryView) -> Seq<EntryView>
    decreases s.len(),
{
    if s.len() == 0 || !lex_lt(x.name(), s.last().name()) {
        s.push(x)
    } else {
        insert_by_name(s.drop_last(), x).push(s.last())
    }
}

/// `s` sorted by name, entries with equal names kept in their order.
pub open spec fn sort_by_name(s: Seq<EntryView>) -> Seq<EntryView>
    decreases s.len(),
{
    if s.len() == 0 {
        s
    } else {
        insert_by_name(sort_by_name(s.drop_last()), s.last())
    }
}

/// The order in which the entries `s` are reported: with sorting, its files
/// sorted by name and no directories; without, `s` itself.
pub open spec fn arrange(s: Seq<EntryView>, sort_files: bool) -> Seq<EntryView> {
    if sort_files {
        sort_by_name(file_entries(s))
    } else {
        s
    }
}

/// The header line of an entry, without its line end.
pub open spec fn header(e: EntryView) -> Seq<char> {
    match e {
        EntryView::Directory { path, .. } => "Directory : "@ + path,
        EntryView::File { parent_path, name, .. } => "SomeFile  : "@ + parent_path + "/"@ + name,
        EntryView::TextOrRustFile { parent_path, name, .. } => "RustFile  : "@ + parent_path + "/"@
            + name,
    }
}

/// The lines of `lines` that contain `key`, in order.
pub open spec fn lines_with_key(lines: Seq<Seq<char>>, key: Seq<char>) -> Seq<Seq<char>>
    decreases lines.len(),
{
    if lines.len() == 0 {
        lines
    } else if contains(lines.last(), key) {
        lines_with_key(lines.drop_last(), key).push(lines.last())
    } else {
        lines_with_key(lines.drop_last(), key)
    }
}

/// One report line per found line, each with its marker and line end.
pub open spec fn key_block(found: Seq<Seq<char>>) -> Seq<char>
    decreases found.len(),
{
    if found.len() == 0 {
        Seq::empty()
    } else {
        key_block(found.drop_last()) + "        --> "@ + found.last() + "\n"@
    }
}

/// The lines read from the file with tree id `node`, if it could be read.
pub open spec fn stored_lines(contents: Seq<Option<Vec<String>>>, node: int) -> Option<
    Seq<Seq<char>>,
> {
    if 0 <= node < contents.len() && contents[node] is Some {
        Some(contents[node]->0@.map_values(|l: String| l@))
    } else {
        None
    }
}

/// The block of one entry: its header and, for a text file under a key
/// search, the lines that hold the key.
pub open spec fn entry_block(e: EntryView, settings: &Settings, contents: Seq<Option<Vec<String>>>) -> Seq<
    char,
> {
    let head = header(e) + "\n"@;
    if key_search_on(settings) && e is TextOrRustFile && stored_lines(contents, e.node()) is Some {
        head + key_block(lines_with_key(stored_lines(contents, e.node())->0, settings.key_in_file@))
    } else {
        head
    }
}

/// The blocks of all entries, one after the other.
pub open spec fn render(es: Seq<EntryView>, settings: &Settings, contents: Seq<Option<Vec<String>>>) -> Seq<
    char,
>
    decreases es.len(),
{
    if es.len() == 0 {
        Seq::empty()
    } else {
        render(es.drop_last(), settings, contents) + entry_block(es.last(), settings, contents)
    }
}

impl LookupResultEntry {
    /// The entry's header line, without its line end.
    pub fn get_full_path(&self) -> (r: String)
        ensures
            r@ == header(self@),
    {
        let mut r = empty_string();
        match self {
            LookupResultEntry::Directory { directory } => {
                r.append("Directory : ");
                r.append(directory.path.as_str());
            },
            LookupResultEntry::File { file } => {
                r.append("SomeFile  : ");
                r.append(file.parent_path.as_str());
                r.append("/");
                r.append(file.name.as_str());
            },
            LookupResultEntry::TextOrRustFile { file } => {
                r.append("RustFile  : ");
                r.append(file.parent_path.as_str());
                r.append("/");
                r.append(file.name.as_str());
            },
        }
        r
    }
}

/// Whether `a`'s name comes strictly before `b`'s.
fn name_less(a: &LookupResultEntry, b: &LookupResultEntry) -> (r: bool)
    ensures
        r == lex_lt(a@.name(), b@.name()),
{
    let x = a.get_name();
    let y = b.get_name();
    str_less(x.as_str(), y.as_str())
}

proof fn lemma_move_down(p: Seq<EntryView>, x: EntryView, rest: Seq<EntryView>, j: int, i: int)
    requires
        0 < j <= i == p.len(),
    ensures
        ({
            let w = p.subrange(0, j) + seq![x] + p.subrange(j, i) + rest;
            w.remove(j).insert(j - 1, x) == p.subrange(0, j - 1) + seq![x] + p.subrange(j - 1, i) + rest
        }),
{
    let w = p.subrange(0, j) + seq![x] + p.subrange(j, i) + rest;
    assert(w.remove(j) =~= p + rest);
    assert((p + rest).insert(j - 1, x) =~= p.subrange(0, j - 1) + seq![x] + p.subrange(j - 1, i) + rest);
}

/// Sorts entries by name. Each entry moves down past the entries whose names
/// come strictly after its own, so entries with equal names keep their order.
pub fn insertion_sort(vec: Vec<LookupResultEntry>) -> (r: Vec<LookupResultEntry>)
    ensures
        views(r@) == sort_by_name(views(vec@)),
        sorted_by_name(views(r@)),
        views(r@).to_multiset() == views(vec@).to_multiset(),
{
    let mut vec = vec;
    let len = vec.len();
    let ghost original = views(vec@);
    let mut i: usize = 1;
    if len == 0 {
        proof {
            assert(original =~= Seq::<EntryView>::empty());
        }
        return vec;
    }
    proof {
        let first = original.subrange(0, 1);
        assert(first.drop_last() =~= Seq::<EntryView>::empty());
        assert(sort_by_name(first.drop_last()) =~= Seq::<EntryView>::empty());
        assert(sort_by_name(first) =~= seq![original[0]]);
        assert(views(vec@).subrange(0, 1) =~= seq![original[0]]);
    }
    while i < len
        invariant
            1 <= i <= len,
            vec@.len() == len,
            original.len() == len,
            views(vec@).to_multiset() == original.to_multiset(),
            sorted_by_name(views(vec@).subrange(0, i as int)),
            views(vec@).subrange(0, i as int) == sort_by_name(original.subrange(0, i as int)),
            views(vec@).subrange(i as int, len as int) == original.subrange(i as int, len as int),
        decreases len - i,
    {
        let ghost p = views(vec@).subrange(0, i as int);
        let ghost x = views(vec@)[i as int];
        let ghost rest = views(vec@).subrange(i + 1, len as int);
        let mut j: usize = i;
        proof {
            let v = views(vec@);
            assert forall|k: int| 0 <= k < rest.len() implies rest[k] == original.subrange(i + 1, len as int)[k] by {
                assert(v.subrange(i as int, len as int)[k + 1] == original.subrange(i as int, len as int)[k + 1]);
            }
            assert(rest =~= original.subrange(i + 1, len as int));
            assert(v.subrange(i as int, len as int)[0] == original.subrange(i as int, len as int)[0]);
            assert(x == original[i as int]);
            assert(p.subrange(0, j as int) =~= p);
            assert(p.subrange(j as int, i as int) =~= Seq::<EntryView>::empty());
            assert(v =~= p.subrange(0, j as int) + seq![x] + p.subrange(j as int, i as int) + rest);
            assert(insert_by_name(p, x) =~= insert_by_name(p.subrange(0, j as int), x) + p.subrange(j as int, i as int));
        }
        while j > 0 && name_less(&vec[j], &vec[j - 1])
            invariant
                1 <= i < len,
                j <= i,
                vec@.len() == len,
                p.len() == i,
                views(vec@) == p.subrange(0, j as int) + seq![x] + p.subrange(j as int, i as int) + rest,
                insert_by_name(p, x) == insert_by_name(p.subrange(0, j as int), x) + p.subrange(j as int, i as int),
                views(vec@).to_multiset() == original.to_multiset(),
                sorted_by_name(views(vec@).subrange(0, j as int)),
                sorted_by_name(views(vec@).subrange(j as int, i + 1)),
                0 < j < i ==> lex_le(views(vec@)[j - 1].name(), views(vec@)[j + 1].name()),
            decreases j,
        {
            let ghost w = views(vec@);
            let moved = vec.remove(j);
            vec.insert(j - 1, moved);
            proof {
                let w2 = views(vec@);
                assert(w2 =~= w.remove(j as int).insert(j - 1, w[j as int]));
                lemma_move_down(p, x, rest, j as int, i as int);
                assert(w[j as int] == x);
                assert(w[j - 1] == p[j - 1]);
                let pj = p.subrange(0, j as int);
                assert(pj.drop_last() =~= p.subrange(0, j - 1));
                assert(insert_by_name(pj, x) == insert_by_name(p.subrange(0, j - 1), x).push(p[j - 1]));
                assert(insert_by_name(p, x) =~= insert_by_name(p.subrange(0, j - 1), x) + p.subrange(j - 1, i as int));
                assert(w2 == p.subrange(0, j - 1) + seq![x] + p.subrange(j - 1, i as int) + rest);
                to_multiset_remove(w, j as int);
                to_multiset_insert(w.remove(j as int), j - 1, w[j as int]);
                assert(w.to_multiset().remove(w[j as int]).insert(w[j as int]) =~= w.to_multiset())
                    by {
                    broadcast use vstd::multiset::group_multiset_axioms;

                    assert(w.to_multiset().contains(w[j as int])) by {
                        broadcast use vstd::seq_lib::group_to_multiset_ensures;

                    }
                }
                lemma_lex_lt_asymmetric(w[j as int].name(), w[j - 1].name());
                assert(w2[j - 1] == w[j as int]);
                assert(w2[j as int] == w[j - 1]);
                assert forall|k: int| 0 <= k < (j - 1) - 1 implies lex_le(
                    #[trigger] w2.subrange(0, j - 1)[k].name(),
                    w2.subrange(0, j - 1)[k + 1].name(),
                ) by {
                    assert(w.subrange(0, j as int)[k] == w2[k]);
                    assert(w.subrange(0, j as int)[k + 1] == w2[k + 1]);
                }
                assert forall|k: int| 0 <= k < (i + 1 - (j - 1)) - 1 implies lex_le(
                    #[trigger] w2.subrange(j - 1, i + 1)[k].name(),
                    w2.subrange(j - 1, i + 1)[k + 1].name(),
                ) by {
                    if k >= 2 {
                        assert(w.subrange(j as int, i + 1)[k - 1] == w2[j - 1 + k]);
                        assert(w.subrange(j as int, i + 1)[k] == w2[j + k]);
                    } else if k == 1 {
                        assert(w2[j as int] == w[j - 1]);
                        assert(w2[j + 1] == w[j + 1]);
                    }
                }
                if j - 1 > 0 {
                    assert(w.subrange(0, j as int)[j - 2] == w[j - 2]);
                    assert(w.subrange(0, j as int)[j - 1] == w[j - 1]);
                }
            }
            j = j - 1;
        }
        proof {
            let w = views(vec@);
            assert forall|k: int| 0 <= k < (i + 1) - 1 implies lex_le(
                #[trigger] w.subrange(0, i + 1)[k].name(),
                w.subrange(0, i + 1)[k + 1].name(),
            ) by {
                if k < j - 1 {
                    assert(w.subrange(0, j as int)[k] == w[k]);
                    assert(w.subrange(0, j as int)[k + 1] == w[k + 1]);
                } else if k >= j {
                    assert(w.subrange(j as int, i + 1)[k - j] == w[k]);
                    assert(w.subrange(j as int, i + 1)[k - j + 1] == w[k + 1]);
                }
            }
            let pj = p.subrange(0, j as int);
            assert(w[j as int] == x);
            if j > 0 {
                assert(w[j - 1] == p[j - 1]);
                assert(pj.last() == p[j - 1]);
            }
            assert(insert_by_name(pj, x) == pj.push(x));
            assert(w.subrange(0, i + 1) =~= insert_by_name(p, x));
            let o = original.subrange(0, i + 1);
            assert(o.drop_last() =~= original.subrange(0, i as int));
            assert(original.subrange(i as int, len as int)[0] == x);
            assert(o.last() == x);
            assert(w.subrange(i + 1, len as int) =~= rest);
        }
        i = i + 1;
    }
    proof {
        assert(views(vec@).subrange(0, len as int) =~= views(vec@));
        assert(original.subrange(0, len as int) =~= original);
    }
    vec
}

/// The views of a sequence of strings.
pub open spec fn string_views(s: Seq<String>) -> Seq<Seq<char>> {
    s.map_values(|l: String| l@)
}

/// The lines among `lines` that contain `key`, in order.
pub fn look_for_key_in_file(lines: &Vec<String>, key: &str) -> (r: Vec<String>)
    ensures
        string_views(r@) == lines_with_key(string_views(lines@), key@),
{
    let ghost lv = string_views(lines@);
    let mut results: Vec<String> = Vec::new();
    let mut i: usize = 0;
    proof {
        assert(lv.subrange(0, 0) =~= Seq::<Seq<char>>::empty());
        assert(string_views(results@) =~= Seq::<Seq<char>>::empty());
    }
    while i < lines.len()
        invariant
            lv == string_views(lines@),
            i <= lines@.len(),
            string_views(results@) == lines_with_key(lv.subrange(0, i as int), key@),
        decreases lines@.len() - i,
    {
        let ghost before = results@;
        if str_contains(lines[i].as_str(), key) {
            results.push(lines[i].clone());
            proof {
                assert(string_views(results@) =~= string_views(before).push(lv[i as int]));
            }
        }
        proof {
            assert(lv.subrange(0, i + 1).drop_last() =~= lv.subrange(0, i as int));
            assert(lv.subrange(0, i + 1).last() == lv[i as int]);
        }
        i = i + 1;
    }
    proof {
        assert(lv.subrange(0, lines@.len() as int) =~= lv);
    }
    results
}

/// Renders one entry: its header line and, for a text file under a key
/// search whose lines are in `contents`, each line that holds the key.
pub fn process_one_file(
    file: &LookupResultEntry,
    settings: &Settings,
    contents: &Vec<Option<Vec<String>>>,
) -> (r: String)
    ensures
        r@ == entry_block(file@, settings, contents@),
{
    let mut result = file.get_full_path();
    result.append("\n");
    if !settings.look_for_key_entry_in_files || settings.key_in_file.as_str().is_empty() {
        return result;
    }
    match file {
        LookupResultEntry::TextOrRustFile { file } => {
            if file.node >= contents.len() {
                return result;
            }
            match &contents[file.node] {
                Some(lines) => {
                    let found = look_for_key_in_file(lines, settings.key_in_file.as_str());
                    let ghost head = result@;
                    let ghost fv = string_views(found@);
                    let mut k: usize = 0;
                    proof {
                        assert(fv.subrange(0, 0) =~= Seq::<Seq<char>>::empty());
                        assert(result@ =~= head + key_block(fv.subrange(0, 0)));
                    }
                    while k < found.len()
                        invariant
                            fv == string_views(found@),
                            k <= found@.len(),
                            result@ == head + key_block(fv.subrange(0, k as int)),
                        decreases found@.len() - k,
                    {
                        result.append("        --> ");
                        result.append(found[k].as_str());
                        result.append("\n");
                        proof {
                            assert(fv.subrange(0, k + 1).drop_last() =~= fv.subrange(0, k as int));
                            assert(fv.subrange(0, k + 1).last() == fv[k as int]);
                            assert(result@ =~= head + key_block(fv.subrange(0, k + 1)));
                        }
                        k = k + 1;
                    }
                    proof {
                        assert(fv.subrange(0, found@.len() as int) =~= fv);
                    }
                    result
                },
                None => result,
            }
        },
        _ => result,
    }
}

/// Whether the entry is a file of either kind.
fn is_file_entry(e: &LookupResultEntry) -> (r: bool)
    ensures
        r == e@.is_file(),
{
    match e {
        LookupResultEntry::Directory { .. } => false,
        _ => true,
    }
}

/// The file-type entries of `result`, in their order.
pub fn keep_files(result: Vec<LookupResultEntry>) -> (r: Vec<LookupResultEntry>)
    ensures
        views(r@) == file_entries(views(result@)),
{
    let ghost s = views(result@);
    let len = result.len();
    let mut result = result;
    let mut rev: Vec<LookupResultEntry> = Vec::new();
    while result.len() > 0
        invariant
            len == s.len(),
            result@.len() + rev@.len() == len,
            views(result@) == s.subrange(0, result@.len() as int),
            forall|k: int| 0 <= k < rev@.len() ==> #[trigger] views(rev@)[k] == s[len - 1 - k],
        decreases result@.len(),
    {
        let ghost before = rev@;
        let ghost old_res = views(result@);
        let e = result.pop().unwrap();
        rev.push(e);
        proof {
            assert(e@ == old_res[old_res.len() - 1]);
            assert(e@ == s[len - 1 - before.len()]);
            assert(views(rev@) =~= views(before).push(e@));
            assert forall|k: int| 0 <= k < rev@.len() implies #[trigger] views(rev@)[k] == s[len - 1 - k] by {
                if k < before.len() {
                    assert(views(rev@)[k] == views(before)[k]);
                }
            }
            assert(views(result@) =~= s.subrange(0, result@.len() as int));
        }
    }
    let mut files: Vec<LookupResultEntry> = Vec::new();
    let mut i: usize = 0;
    proof {
        assert(s.subrange(0, 0) =~= Seq::<EntryView>::empty());
        assert(views(files@) =~= Seq::<EntryView>::empty());
    }
    while rev.len() > 0
        invariant
            len == s.len(),
            i + rev@.len() == len,
            forall|k: int| 0 <= k < rev@.len() ==> #[trigger] views(rev@)[k] == s[len - 1 - k],
            views(files@) == file_entries(s.subrange(0, i as int)),
        decreases rev@.len(),
    {
        let ghost before = files@;
        let ghost rv = views(rev@);
        let e = rev.pop().unwrap();
        proof {
            assert(e@ == rv[rv.len() - 1]);
            assert(e@ == s[i as int]);
            assert(s.subrange(0, i + 1).drop_last() =~= s.subrange(0, i as int));
            assert(s.subrange(0, i + 1).last() == s[i as int]);
            assert forall|k: int| 0 <= k < rev@.len() implies #[trigger] views(rev@)[k] == s[len - 1 - k] by {
                assert(views(rev@)[k] == rv[k]);
            }
        }
        if is_file_entry(&e) {
            files.push(e);
            proof {
                assert(views(files@) =~= views(before).push(e@));
            }
        }
        i = i + 1;
    }
    proof {
        assert(s.subrange(0, len as int) =~= s);
    }
    files
}

/// The entries in the order they are reported: with `sort_files`, the files
/// alone, sorted by name; otherwise all of them as found.
pub fn arrange_entries(result: Vec<LookupResultEntry>, sort_files: bool) -> (r: Vec<LookupResultEntry>)
    ensures
        views(r@) == arrange(views(result@), sort_files),
{
    if sort_files {
        let files = keep_files(result);
        insertion_sort(files)
    } else {
        result
    }
}

/// Renders entries one block after another.
pub fn render_entries(
    entries: &Vec<LookupResultEntry>,
    settings: &Settings,
    contents: &Vec<Option<Vec<String>>>,
) -> (r: String)
    ensures
        r@ == render(views(entries@), settings, contents@),
{
    let ghost ev = views(entries@);
    let mut out = empty_string();
    let mut i: usize = 0;
    proof {
        assert(ev.subrange(0, 0) =~= Seq::<EntryView>::empty());
    }
    while i < entries.len()
        invariant
            ev == views(entries@),
            i <= entries@.len(),
            out@ == render(ev.subrange(0, i as int), settings, contents@),
        decreases entries@.len() - i,
    {
        let block = process_one_file(&entries[i], settings, contents);
        out.append(block.as_str());
        proof {
            assert(ev.subrange(0, i + 1).drop_last() =~= ev.subrange(0, i as int));
            assert(ev.subrange(0, i + 1).last() == ev[i as int]);
        }
        i = i + 1;
    }
    proof {
        assert(ev.subrange(0, entries@.len() as int) =~= ev);
    }
    out
}

/// The report for what a walk found. `contents` holds, at the tree id of
/// each text file, the lines read from it, or `None` where it could not be
/// read.
pub fn parse_result_vector(
    result: Vec<LookupResultEntry>,
    settings: &Settings,
    contents: &Vec<Option<Vec<String>>>,
) -> (r: String)
    ensures
        r@ == render(arrange(views(result@), settings.sort_files), settings, contents@),
{
    let ordered = arrange_entries(result, settings.sort_files);
    render_entries(&ordered, settings, contents)
}

proof fn lemma_file_entries_are_files(s: Seq<EntryView>)
    ensures
        forall|i: int| 0 <= i < file_entries(s).len() ==> (#[trigger] file_entries(s)[i]).is_file(),
    decreases s.len(),
{
    if s.len() > 0 {
        lemma_file_entries_are_files(s.drop_last());
        let p = file_entries(s.drop_last());
        if s.last().is_file() {
            assert forall|i: int| 0 <= i < file_entries(s).len() implies (#[trigger] file_entries(s)[i]).is_file() by {
                if i < p.len() {
                    assert(file_entries(s)[i] == p[i]);
                }
            }
        }
    }
}

proof fn lemma_insert_by_name(s: Seq<EntryView>, x: EntryView)
    requires
        sorted_by_name(s),
    ensures
        sorted_by_name(insert_by_name(s, x)),
        insert_by_name(s, x).len() == s.len() + 1,
        insert_by_name(s, x).last() == x || (s.len() > 0 && insert_by_name(s, x).last() == s.last()),
        forall|k: int|
            0 <= k < insert_by_name(s, x).len() ==> #[trigger] insert_by_name(s, x)[k] == x
                || s.contains(insert_by_name(s, x)[k]),
    decreases s.len(),
{
    let r = insert_by_name(s, x);
    if s.len() == 0 || !lex_lt(x.name(), s.last().name()) {
        assert forall|k: int| 0 <= k < r.len() - 1 implies lex_le(#[trigger] r[k].name(), r[k + 1].name()) by {
            if k < s.len() - 1 {
                assert(r[k] == s[k] && r[k + 1] == s[k + 1]);
            }
        }
        assert forall|k: int| 0 <= k < r.len() implies #[trigger] r[k] == x || s.contains(r[k]) by {
            if k < s.len() {
                assert(r[k] == s[k]);
            }
        }
    } else {
        let d = s.drop_last();
        assert forall|k: int| 0 <= k < d.len() - 1 implies lex_le(#[trigger] d[k].name(), d[k + 1].name()) by {
            assert(d[k] == s[k] && d[k + 1] == s[k + 1]);
        }
        lemma_insert_by_name(d, x);
        let t = insert_by_name(d, x);
        if t.last() == x {
            lemma_lex_lt_asymmetric(x.name(), s.last().name());
        } else {
            assert(t.last() == s[s.len() - 2]);
        }
        assert forall|k: int| 0 <= k < r.len() - 1 implies lex_le(#[trigger] r[k].name(), r[k + 1].name()) by {
            if k < t.len() - 1 {
                assert(r[k] == t[k] && r[k + 1] == t[k + 1]);
            }
        }
        assert forall|k: int| 0 <= k < r.len() implies #[trigger] r[k] == x || s.contains(r[k]) by {
            if k < t.len() {
                assert(r[k] == t[k]);
                if r[k] != x {
                    let m = choose|m: int| 0 <= m < d.len() && d[m] == t[k];
                    assert(s[m] == d[m]);
                }
            } else {
                assert(r[k] == s[s.len() - 1]);
            }
        }
    }
}

proof fn lemma_sort_by_name(s: Seq<EntryView>)
    ensures
        sorted_by_name(sort_by_name(s)),
        forall|k: int| 0 <= k < sort_by_name(s).len() ==> s.contains(#[trigger] sort_by_name(s)[k]),
    decreases s.len(),
{
    if s.len() > 0 {
        let d = s.drop_last();
        lemma_sort_by_name(d);
        lemma_insert_by_name(sort_by_name(d), s.last());
        let r = sort_by_name(s);
        assert forall|k: int| 0 <= k < r.len() implies s.contains(#[trigger] r[k]) by {
            if r[k] == s.last() {
                assert(s[s.len() - 1] == r[k]);
            } else {
                let sd = sort_by_name(d);
                let m = choose|m: int| 0 <= m < sd.len() && sd[m] == r[k];
                assert(d.contains(sd[m]));
                let q = choose|q: int| 0 <= q < d.len() && d[q] == sd[m];
                assert(s[q] == d[q]);
            }
        }
    }
}

/// With sorting on, the report holds no directory, and each entry's name
/// comes no later than the next entry's.
pub proof fn lemma_sorted_report(s: Seq<EntryView>)
    ensures
        sorted_by_name(arrange(s, true)),
        forall|i: int| 0 <= i < arrange(s, true).len() ==> (#[trigger] arrange(s, true)[i]).is_file(),
{
    let fs = file_entries(s);
    lemma_file_entries_are_files(s);
    lemma_sort_by_name(fs);
    let o = arrange(s, true);
    assert forall|i: int| 0 <= i < o.len() implies (#[trigger] o[i]).is_file() by {
        assert(fs.contains(o[i]));
        let k = choose|k: int| 0 <= k < fs.len() && fs[k] == o[i];
        assert(fs[k].is_file());
    }
}

} // verus!
