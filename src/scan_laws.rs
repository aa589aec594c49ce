//! What a walk finds, stated over the tree itself: which files are found,
//! and under which paths entries are shown.
use vstd::prelude::*;
use crate::text::{contains, lemma_contains_empty};
use crate::tree::{DirTree, NodeKind};
use crate::lookup_engine::{
    EntryView, child_substring, children_matches, dir_matches, entry_matches, file_matches, scan,
};

verus! {

/// Node `c` is listed in directory `d`.
pub open spec fn is_child(t: &DirTree, d: int, c: int) -> bool {
    exists|j: int| 0 <= j < t.children(d).len() && #[trigger] t.children(d)[j] as int == c
}

/// `r` leads down the tree, each node an entry of the directory before it.
pub open spec fn is_route(t: &DirTree, r: Seq<int>) -> bool {
    &&& r.len() >= 1
    &&& forall|i: int| 0 <= i < r.len() ==> 0 <= #[trigger] r[i] < t.len()
    &&& forall|i: int| 0 <= i < r.len() - 1 ==> #[trigger] is_child(t, r[i], r[i + 1])
}

/// Some node of `r` from position `from` on has a name containing `s`.
pub open spec fn hits_from(t: &DirTree, r: Seq<int>, s: Seq<char>, from: int) -> bool {
    exists|j: int| from <= j < r.len() && #[trigger] contains(t.name(r[j]), s)
}

/// `es` holds a file-type entry for node `f`.
pub open spec fn has_file_entry(es: Seq<EntryView>, f: int) -> bool {
    exists|i: int| 0 <= i < es.len() && (#[trigger] es[i]).is_file() && es[i].node() == f
}

/// The path of the nodes of `q`, each name led by `/`.
pub open spec fn route_path(t: &DirTree, q: Seq<int>) -> Seq<char>
    decreases q.len(),
{
    if q.len() == 0 {
        Seq::empty()
    } else {
        "/"@ + t.name(q[0]) + route_path(t, q.drop_first())
    }
}

proof fn lemma_has_file_concat(a: Seq<EntryView>, b: Seq<EntryView>, f: int)
    ensures
        has_file_entry(a + b, f) <==> (has_file_entry(a, f) || has_file_entry(b, f)),
{
    if has_file_entry(a + b, f) {
        let i = choose|i: int| 0 <= i < (a + b).len() && (#[trigger] (a + b)[i]).is_file() && (a
            + b)[i].node() == f;
        if i < a.len() {
            assert((a + b)[i] == a[i]);
        } else {
            assert((a + b)[i] == b[i - a.len()]);
        }
    }
    if has_file_entry(a, f) {
        let i = choose|i: int| 0 <= i < a.len() && (#[trigger] a[i]).is_file() && a[i].node() == f;
        assert((a + b)[i] == a[i]);
    }
    if has_file_entry(b, f) {
        let i = choose|i: int| 0 <= i < b.len() && (#[trigger] b[i]).is_file() && b[i].node() == f;
        assert((a + b)[a.len() + i] == b[i]);
    }
}

proof fn lemma_children_files(t: &DirTree, d: int, path: Seq<char>, s: Seq<char>, k: int, f: int)
    requires
        t.wf(),
        0 <= d < t.len(),
        0 <= k <= t.children(d).len(),
    ensures
        has_file_entry(children_matches(t, d, path, s, k), f) <==> exists|j: int|
            0 <= j < k && has_file_entry(
                entry_matches(t, #[trigger] t.children(d)[j] as int, path, s),
                f,
            ),
    decreases k,
{
    if k > 0 {
        lemma_children_files(t, d, path, s, k - 1, f);
        let c = t.children(d)[k - 1] as int;
        lemma_has_file_concat(children_matches(t, d, path, s, k - 1), entry_matches(t, c, path, s), f);
        if has_file_entry(children_matches(t, d, path, s, k), f) {
            if !has_file_entry(entry_matches(t, c, path, s), f) {
                let j = choose|j: int|
                    0 <= j < k - 1 && has_file_entry(
                        entry_matches(t, #[trigger] t.children(d)[j] as int, path, s),
                        f,
                    );
                assert(0 <= j < k);
            }
        }
        if exists|j: int|
            0 <= j < k && has_file_entry(
                entry_matches(t, #[trigger] t.children(d)[j] as int, path, s),
                f,
            ) {
            let j = choose|j: int|
                0 <= j < k && has_file_entry(
                    entry_matches(t, #[trigger] t.children(d)[j] as int, path, s),
                    f,
                );
            if j < k - 1 {
                assert(exists|j2: int|
                    0 <= j2 < k - 1 && has_file_entry(
                        entry_matches(t, #[trigger] t.children(d)[j2] as int, path, s),
                        f,
                    ));
            }
        }
    }
}

/// A file-type entry for `f` is in what node `c` contributes under filter
/// `s` iff a route leads from `c` down to the file `f` with a name on it that
/// contains `s`.
proof fn lemma_entry_files(t: &DirTree, c: int, pp: Seq<char>, s: Seq<char>, f: int)
    requires
        t.wf(),
        0 <= c < t.len(),
    ensures
        has_file_entry(entry_matches(t, c, pp, s), f) <==> exists|r: Seq<int>|
            is_route(t, r) && r[0] == c && r.last() == f && t.kind(f) is File && hits_from(
                t,
                r,
                s,
                0,
            ),
    decreases t.len() - c,
{
    let em = entry_matches(t, c, pp, s);
    if !(t.kind(c) is Directory) {
        assert(t.children(c).len() == 0);
        // every route from `c` is `c` alone
        assert forall|r: Seq<int>| is_route(t, r) && r[0] == c implies r.len() == 1 by {
            if r.len() > 1 {
                assert(is_child(t, r[0], r[0int + 1]));
            }
        }
        if has_file_entry(em, f) {
            let i = choose|i: int| 0 <= i < em.len() && (#[trigger] em[i]).is_file() && em[i].node() == f;
            let r = seq![c];
            assert(t.kind(c) is File);
            assert(contains(t.name(r[0]), s));
            assert(is_route(t, r) && r[0] == c && r.last() == f && t.kind(f) is File && hits_from(t, r, s, 0));
        }
        if exists|r: Seq<int>|
            is_route(t, r) && r[0] == c && r.last() == f && t.kind(f) is File && hits_from(t, r, s, 0) {
            let r = choose|r: Seq<int>|
                is_route(t, r) && r[0] == c && r.last() == f && t.kind(f) is File && hits_from(t, r, s, 0);
            assert(r.len() == 1);
            assert(f == c);
            let j = choose|j: int| 0 <= j < r.len() && #[trigger] contains(t.name(r[j]), s);
            assert(j == 0);
            assert(em[0].is_file() && em[0].node() == f);
        }
    } else {
        let name = t.name(c);
        let path = pp + "/"@ + name;
        let sub = child_substring(name, s);
        let k = t.children(c).len() as int;
        let inner = children_matches(t, c, path, sub, k);
        assert(em == dir_matches(t, c, name, path, s));
        if inner.len() > 0 {
            let head = seq![EntryView::Directory { node: c, name, path }];
            assert(em == head + inner);
            lemma_has_file_concat(head, inner, f);
            assert(!has_file_entry(head, f));
        }
        assert(has_file_entry(em, f) <==> has_file_entry(inner, f));
        lemma_children_files(t, c, path, sub, k, f);
        if has_file_entry(em, f) {
            let j = choose|j: int|
                0 <= j < k && has_file_entry(
                    entry_matches(t, #[trigger] t.children(c)[j] as int, path, sub),
                    f,
                );
            let cj = t.children(c)[j] as int;
            lemma_entry_files(t, cj, path, sub, f);
            let r1 = choose|r: Seq<int>|
                is_route(t, r) && r[0] == cj && r.last() == f && t.kind(f) is File && hits_from(
                    t,
                    r,
                    sub,
                    0,
                );
            let r = seq![c] + r1;
            assert(r.drop_first() =~= r1);
            assert forall|i: int| 0 <= i < r.len() - 1 implies #[trigger] is_child(t, r[i], r[i + 1]) by {
                if i == 0 {
                    assert(t.children(c)[j] as int == r[1]);
                } else {
                    assert(r[i] == r1[i - 1]);
                    assert(r[i + 1] == r1[i]);
                }
            }
            assert forall|i: int| 0 <= i < r.len() implies 0 <= #[trigger] r[i] < t.len() by {
                if i > 0 {
                    assert(r[i] == r1[i - 1]);
                }
            }
            if contains(name, s) {
                assert(contains(t.name(r[0]), s));
            } else {
                let m = choose|m: int| 0 <= m < r1.len() && #[trigger] contains(t.name(r1[m]), sub);
                assert(r[m + 1] == r1[m]);
                assert(contains(t.name(r[m + 1]), s));
            }
            assert(is_route(t, r) && r[0] == c && r.last() == f && t.kind(f) is File && hits_from(t, r, s, 0));
        }
        if exists|r: Seq<int>|
            is_route(t, r) && r[0] == c && r.last() == f && t.kind(f) is File && hits_from(t, r, s, 0) {
            let r = choose|r: Seq<int>|
                is_route(t, r) && r[0] == c && r.last() == f && t.kind(f) is File && hits_from(t, r, s, 0);
            assert(r.len() > 1);
            assert(is_child(t, r[0], r[0int + 1]));
            let j = choose|j: int| 0 <= j < k && #[trigger] t.children(c)[j] as int == r[1];
            let cj = r[1];
            let r1 = r.drop_first();
            assert forall|i: int| 0 <= i < r1.len() - 1 implies #[trigger] is_child(t, r1[i], r1[i + 1]) by {
                assert(r1[i] == r[i + 1]);
                assert(r1[i + 1] == r[i + 2]);
                assert(is_child(t, r[i + 1], r[i + 2]));
            }
            assert forall|i: int| 0 <= i < r1.len() implies 0 <= #[trigger] r1[i] < t.len() by {
                assert(r1[i] == r[i + 1]);
            }
            if contains(name, s) {
                lemma_contains_empty(t.name(r1[0]));
                assert(contains(t.name(r1[0]), sub));
            } else {
                let m = choose|m: int| 0 <= m < r.len() && #[trigger] contains(t.name(r[m]), s);
                assert(m > 0);
                assert(r1[m - 1] == r[m]);
                assert(contains(t.name(r1[m - 1]), sub));
            }
            assert(is_route(t, r1) && r1[0] == cj && r1.last() == f && hits_from(t, r1, sub, 0));
            lemma_entry_files(t, cj, path, sub, f);
            assert(t.children(c)[j] as int == cj);
        }
    }
}

/// A walk of directory `d` under filter `s` finds file `f` iff a route leads
/// from `d` down to `f` on which the name of `f`, or of a directory strictly
/// between `d` and `f`, contains `s`.
pub proof fn lemma_found_files(t: &DirTree, d: int, path: Seq<char>, s: Seq<char>, f: int)
    requires
        t.wf(),
        0 <= d < t.len(),
    ensures
        has_file_entry(scan(t, d, path, s), f) <==> exists|r: Seq<int>|
            is_route(t, r) && r[0] == d && r.len() >= 2 && r.last() == f && t.kind(f) is File
                && hits_from(t, r, s, 1),
{
    let k = t.children(d).len() as int;
    lemma_children_files(t, d, path, s, k, f);
    if has_file_entry(scan(t, d, path, s), f) {
        let j = choose|j: int|
            0 <= j < k && has_file_entry(entry_matches(t, #[trigger] t.children(d)[j] as int, path, s), f);
        let cj = t.children(d)[j] as int;
        lemma_entry_files(t, cj, path, s, f);
        let r1 = choose|r: Seq<int>|
            is_route(t, r) && r[0] == cj && r.last() == f && t.kind(f) is File && hits_from(t, r, s, 0);
        let r = seq![d] + r1;
        assert(r.drop_first() =~= r1);
        assert forall|i: int| 0 <= i < r.len() - 1 implies #[trigger] is_child(t, r[i], r[i + 1]) by {
            if i == 0 {
                assert(t.children(d)[j] as int == r[1]);
            } else {
                assert(r[i] == r1[i - 1]);
                assert(r[i + 1] == r1[i]);
            }
        }
        assert forall|i: int| 0 <= i < r.len() implies 0 <= #[trigger] r[i] < t.len() by {
            if i > 0 {
                assert(r[i] == r1[i - 1]);
            }
        }
        let m = choose|m: int| 0 <= m < r1.len() && #[trigger] contains(t.name(r1[m]), s);
        assert(r[m + 1] == r1[m]);
        assert(hits_from(t, r, s, 1));
        assert(r.last() == r1.last());
        assert(is_route(t, r) && r[0] == d && r.len() >= 2 && r.last() == f && t.kind(f) is File
            && hits_from(t, r, s, 1));
    }
    if exists|r: Seq<int>|
        is_route(t, r) && r[0] == d && r.len() >= 2 && r.last() == f && t.kind(f) is File
            && hits_from(t, r, s, 1) {
        let r = choose|r: Seq<int>|
            is_route(t, r) && r[0] == d && r.len() >= 2 && r.last() == f && t.kind(f) is File
                && hits_from(t, r, s, 1);
        assert(is_child(t, r[0], r[0int + 1]));
        let j = choose|j: int| 0 <= j < k && #[trigger] t.children(d)[j] as int == r[1];
        let cj = r[1];
        let r1 = r.drop_first();
        assert forall|i: int| 0 <= i < r1.len() - 1 implies #[trigger] is_child(t, r1[i], r1[i + 1]) by {
            assert(r1[i] == r[i + 1]);
            assert(r1[i + 1] == r[i + 2]);
            assert(is_child(t, r[i + 1], r[i + 2]));
        }
        assert forall|i: int| 0 <= i < r1.len() implies 0 <= #[trigger] r1[i] < t.len() by {
            assert(r1[i] == r[i + 1]);
        }
        let m = choose|m: int| 1 <= m < r.len() && #[trigger] contains(t.name(r[m]), s);
        assert(r1[m - 1] == r[m]);
        assert(hits_from(t, r1, s, 0));
        assert(r1.last() == f);
        lemma_entry_files(t, cj, path, s, f);
        assert(is_route(t, r1) && r1[0] == cj && r1.last() == f && t.kind(f) is File && hits_from(
            t,
            r1,
            s,
            0,
        ));
        assert(has_file_entry(entry_matches(t, t.children(d)[j] as int, path, s), f));
    }
}

/// With the empty filter, a walk of `d` finds every file below `d`.
pub proof fn lemma_empty_filter_finds_every_file(t: &DirTree, d: int, path: Seq<char>, r: Seq<int>)
    requires
        t.wf(),
        0 <= d < t.len(),
        is_route(t, r),
        r[0] == d,
        r.len() >= 2,
        t.kind(r.last()) is File,
    ensures
        has_file_entry(scan(t, d, path, Seq::empty()), r.last()),
{
    lemma_contains_empty(t.name(r[1]));
    assert(hits_from(t, r, Seq::empty(), 1));
    lemma_found_files(t, d, path, Seq::empty(), r.last());
}

proof fn lemma_children_member(t: &DirTree, d: int, path: Seq<char>, s: Seq<char>, k: int, e: EntryView)
    requires
        t.wf(),
        0 <= d < t.len(),
        0 <= k <= t.children(d).len(),
        children_matches(t, d, path, s, k).contains(e),
    ensures
        exists|j: int|
            0 <= j < k && entry_matches(t, #[trigger] t.children(d)[j] as int, path, s).contains(e),
    decreases k,
{
    let c = t.children(d)[k - 1] as int;
    let a = children_matches(t, d, path, s, k - 1);
    let b = entry_matches(t, c, path, s);
    let i = choose|i: int| 0 <= i < (a + b).len() && (a + b)[i] == e;
    if i < a.len() {
        assert(a[i] == e);
        lemma_children_member(t, d, path, s, k - 1, e);
    } else {
        assert(b[i - a.len()] == e);
        assert(entry_matches(t, t.children(d)[k - 1] as int, path, s).contains(e));
    }
}

proof fn lemma_entry_path(t: &DirTree, c: int, pp: Seq<char>, s: Seq<char>, e: EntryView)
    requires
        t.wf(),
        0 <= c < t.len(),
        entry_matches(t, c, pp, s).contains(e),
    ensures
        exists|r: Seq<int>|
            is_route(t, r) && r[0] == c && r.last() == e.node() && e.full_path() == pp + route_path(t, r),
    decreases t.len() - c,
{
    let em = entry_matches(t, c, pp, s);
    let one = seq![c];
    assert(one.drop_first() =~= Seq::<int>::empty());
    assert(route_path(t, one.drop_first()) == Seq::<char>::empty());
    assert(route_path(t, one) =~= "/"@ + t.name(c));
    assert(is_route(t, one));
    match t.kind(c) {
        NodeKind::File => {
            assert(em == file_matches(c, pp, t.name(c), t.nodes@[c].path@, s));
            assert(e == em[0]);
            assert(e.full_path() =~= pp + route_path(t, one));
            assert(is_route(t, one) && one[0] == c && one.last() == e.node() && e.full_path() == pp
                + route_path(t, one));
        },
        NodeKind::Directory => {
            let name = t.name(c);
            let path = pp + "/"@ + name;
            let sub = child_substring(name, s);
            let k = t.children(c).len() as int;
            let inner = children_matches(t, c, path, sub, k);
            let head = seq![EntryView::Directory { node: c, name, path }];
            assert(em == dir_matches(t, c, name, path, s));
            assert(em == head + inner);
            let i = choose|i: int| 0 <= i < em.len() && em[i] == e;
            if i == 0 {
                assert(e.full_path() =~= pp + route_path(t, one));
                assert(is_route(t, one) && one[0] == c && one.last() == e.node() && e.full_path()
                    == pp + route_path(t, one));
            } else {
                assert(inner[i - 1] == e);
                lemma_children_member(t, c, path, sub, k, e);
                let j = choose|j: int|
                    0 <= j < k && entry_matches(t, #[trigger] t.children(c)[j] as int, path, sub).contains(e);
                let cj = t.children(c)[j] as int;
                lemma_entry_path(t, cj, path, sub, e);
                let r1 = choose|r: Seq<int>|
                    is_route(t, r) && r[0] == cj && r.last() == e.node() && e.full_path() == path
                        + route_path(t, r);
                let r = seq![c] + r1;
                assert(r.drop_first() =~= r1);
                assert forall|i: int| 0 <= i < r.len() - 1 implies #[trigger] is_child(t, r[i], r[i + 1]) by {
                    if i == 0 {
                        assert(t.children(c)[j] as int == r[1]);
                    } else {
                        assert(r[i] == r1[i - 1]);
                        assert(r[i + 1] == r1[i]);
                    }
                }
                assert forall|i: int| 0 <= i < r.len() implies 0 <= #[trigger] r[i] < t.len() by {
                    if i > 0 {
                        assert(r[i] == r1[i - 1]);
                    }
                }
                assert(route_path(t, r) == "/"@ + name + route_path(t, r1));
                assert(e.full_path() =~= pp + route_path(t, r));
                assert(r.last() == r1.last());
                assert(is_route(t, r) && r[0] == c && r.last() == e.node() && e.full_path() == pp
                    + route_path(t, r));
            }
        },
        NodeKind::Other => {
            assert(em.len() == 0);
        },
    }
}

/// Every entry a walk of `d` finds is shown under `path` followed by the
/// names on the route from `d` down to it: from the start of a walk, whose
/// path is empty, that is the entry's path relative to the walked directory.
pub proof fn lemma_found_paths(t: &DirTree, d: int, path: Seq<char>, s: Seq<char>, e: EntryView)
    requires
        t.wf(),
        0 <= d < t.len(),
        scan(t, d, path, s).contains(e),
    ensures
        exists|r: Seq<int>|
            is_route(t, r) && r[0] == d && r.len() >= 2 && r.last() == e.node() && e.full_path()
                == path + route_path(t, r.drop_first()),
{
    let k = t.children(d).len() as int;
    lemma_children_member(t, d, path, s, k, e);
    let j = choose|j: int|
        0 <= j < k && entry_matches(t, #[trigger] t.children(d)[j] as int, path, s).contains(e);
    let cj = t.children(d)[j] as int;
    lemma_entry_path(t, cj, path, s, e);
    let r1 = choose|r: Seq<int>|
        is_route(t, r) && r[0] == cj && r.last() == e.node() && e.full_path() == path + route_path(t, r);
    let r = seq![d] + r1;
    assert(r.drop_first() =~= r1);
    assert forall|i: int| 0 <= i < r.len() - 1 implies #[trigger] is_child(t, r[i], r[i + 1]) by {
        if i == 0 {
            assert(t.children(d)[j] as int == r[1]);
        } else {
            assert(r[i] == r1[i - 1]);
            assert(r[i + 1] == r1[i]);
        }
    }
    assert forall|i: int| 0 <= i < r.len() implies 0 <= #[trigger] r[i] < t.len() by {
        if i > 0 {
            assert(r[i] == r1[i - 1]);
        }
    }
    assert(r.last() == r1.last());
    assert(is_route(t, r) && r[0] == d && r.len() >= 2 && r.last() == e.node() && e.full_path()
        == path + route_path(t, r.drop_first()));
}

proof fn lemma_child_subset(
    t: &DirTree,
    d: int,
    path: Seq<char>,
    s: Seq<char>,
    k: int,
    j: int,
    e: EntryView,
)
    requires
        t.wf(),
        0 <= d < t.len(),
        0 <= j < k <= t.children(d).len(),
        entry_matches(t, t.children(d)[j] as int, path, s).contains(e),
    ensures
        children_matches(t, d, path, s, k).contains(e),
    decreases k,
{
    let a = children_matches(t, d, path, s, k - 1);
    let b = entry_matches(t, t.children(d)[k - 1] as int, path, s);
    assert(children_matches(t, d, path, s, k) == a + b);
    if j < k - 1 {
        lemma_child_subset(t, d, path, s, k - 1, j, e);
        let i = choose|i: int| 0 <= i < a.len() && a[i] == e;
        assert((a + b)[i] == e);
    } else {
        let i = choose|i: int| 0 <= i < b.len() && b[i] == e;
        assert((a + b)[a.len() + i] == e);
    }
}

/// `es` holds a file-type entry.
pub open spec fn holds_file(es: Seq<EntryView>) -> bool {
    exists|g: EntryView| es.contains(g) && g.is_file()
}

proof fn lemma_nonempty_holds_file(t: &DirTree, c: int, pp: Seq<char>, s: Seq<char>)
    requires
        t.wf(),
        0 <= c < t.len(),
        entry_matches(t, c, pp, s).len() > 0,
    ensures
        holds_file(entry_matches(t, c, pp, s)),
    decreases t.len() - c,
{
    let em = entry_matches(t, c, pp, s);
    if t.kind(c) is File {
        assert(em.contains(em[0]) && em[0].is_file());
    } else if t.kind(c) is Directory {
        let name = t.name(c);
        let path = pp + "/"@ + name;
        let sub = child_substring(name, s);
        let k = t.children(c).len() as int;
        let inner = children_matches(t, c, path, sub, k);
        let head = seq![EntryView::Directory { node: c, name, path }];
        assert(em == dir_matches(t, c, name, path, s));
        assert(em == head + inner);
        assert(inner.contains(inner[0]));
        lemma_children_member(t, c, path, sub, k, inner[0]);
        let j = choose|j: int|
            0 <= j < k && entry_matches(t, #[trigger] t.children(c)[j] as int, path, sub).contains(
                inner[0],
            );
        let cj = t.children(c)[j] as int;
        lemma_nonempty_holds_file(t, cj, path, sub);
        let g = choose|g: EntryView| entry_matches(t, cj, path, sub).contains(g) && g.is_file();
        lemma_child_subset(t, c, path, sub, k, j, g);
        let i = choose|i: int| 0 <= i < inner.len() && inner[i] == g;
        assert(em[i + 1] == g);
    }
}

/// Whether a route of at least two nodes leads from `x` down to `y`.
pub open spec fn below(t: &DirTree, x: int, y: int) -> bool {
    exists|r: Seq<int>| is_route(t, r) && r.len() >= 2 && r[0] == x && r.last() == y
}

proof fn lemma_dir_has_file_below(t: &DirTree, c: int, pp: Seq<char>, s: Seq<char>)
    requires
        t.wf(),
        0 <= c < t.len(),
        t.kind(c) is Directory,
        entry_matches(t, c, pp, s).len() > 0,
    ensures
        exists|g: EntryView| entry_matches(t, c, pp, s).contains(g) && g.is_file() && below(t, c, g.node()),
{
    let em = entry_matches(t, c, pp, s);
    lemma_nonempty_holds_file(t, c, pp, s);
    let g = choose|g: EntryView| em.contains(g) && g.is_file();
    lemma_entry_path(t, c, pp, s, g);
    let r = choose|r: Seq<int>|
        is_route(t, r) && r[0] == c && r.last() == g.node() && g.full_path() == pp + route_path(t, r);
    if r.len() < 2 {
        // then `g` would be `c` itself, which is reported as a directory
        assert(g.node() == c);
        let name = t.name(c);
        let path = pp + "/"@ + name;
        let sub = child_substring(name, s);
        let k = t.children(c).len() as int;
        let inner = children_matches(t, c, path, sub, k);
        assert(em == dir_matches(t, c, name, path, s));
        assert(em == seq![EntryView::Directory { node: c, name, path }] + inner);
        let ig = choose|ig: int| 0 <= ig < em.len() && em[ig] == g;
        assert(inner[ig - 1] == g);
        assert(inner.contains(g));
        lemma_children_member(t, c, path, sub, k, g);
        let j = choose|j: int|
            0 <= j < k && entry_matches(t, #[trigger] t.children(c)[j] as int, path, sub).contains(g);
        let cj = t.children(c)[j] as int;
        lemma_entry_path(t, cj, path, sub, g);
        let r2 = choose|r2: Seq<int>|
            is_route(t, r2) && r2[0] == cj && r2.last() == g.node() && g.full_path() == path
                + route_path(t, r2);
        lemma_route_increases(t, r2, r2.len() - 1);
        assert(false);
    }
    assert(below(t, c, g.node()));
}

proof fn lemma_entry_dirs(t: &DirTree, c: int, pp: Seq<char>, s: Seq<char>, e: EntryView)
    requires
        t.wf(),
        0 <= c < t.len(),
        entry_matches(t, c, pp, s).contains(e),
        e is Directory,
    ensures
        exists|g: EntryView|
            entry_matches(t, c, pp, s).contains(g) && g.is_file() && below(t, e.node(), g.node()),
    decreases t.len() - c,
{
    let em = entry_matches(t, c, pp, s);
    let name = t.name(c);
    let path = pp + "/"@ + name;
    let sub = child_substring(name, s);
    let k = t.children(c).len() as int;
    let inner = children_matches(t, c, path, sub, k);
    let head = seq![EntryView::Directory { node: c, name, path }];
    assert(t.kind(c) is Directory) by {
        if t.kind(c) is File {
            assert(em == file_matches(c, pp, name, t.nodes@[c].path@, s));
            assert(em[0] == e);
        }
    }
    assert(em == dir_matches(t, c, name, path, s));
    assert(em == head + inner);
    let i = choose|i: int| 0 <= i < em.len() && em[i] == e;
    if i == 0 {
        assert(e.node() == c);
        lemma_dir_has_file_below(t, c, pp, s);
    } else {
        assert(inner[i - 1] == e);
        lemma_children_member(t, c, path, sub, k, e);
        let j = choose|j: int|
            0 <= j < k && entry_matches(t, #[trigger] t.children(c)[j] as int, path, sub).contains(e);
        let cj = t.children(c)[j] as int;
        lemma_entry_dirs(t, cj, path, sub, e);
        let g = choose|g: EntryView|
            entry_matches(t, cj, path, sub).contains(g) && g.is_file() && below(t, e.node(), g.node());
        lemma_child_subset(t, c, path, sub, k, j, g);
        let ig = choose|ig: int| 0 <= ig < inner.len() && inner[ig] == g;
        assert(em[ig + 1] == g);
    }
}

proof fn lemma_route_increases(t: &DirTree, r: Seq<int>, m: int)
    requires
        t.wf(),
        is_route(t, r),
        0 <= m < r.len(),
    ensures
        r[0] <= r[m],
        m > 0 ==> r[0] < r[m],
    decreases m,
{
    if m > 0 {
        lemma_route_increases(t, r, m - 1);
        assert(is_child(t, r[m - 1], r[(m - 1) + 1]));
        let j = choose|j: int| 0 <= j < t.children(r[m - 1]).len() && #[trigger] t.children(r[m - 1])[j] as int == r[m];
    }
}

/// A walk reports a directory only together with a file it found below it.
pub proof fn lemma_found_dirs_hold_files(t: &DirTree, d: int, path: Seq<char>, s: Seq<char>, e: EntryView)
    requires
        t.wf(),
        0 <= d < t.len(),
        scan(t, d, path, s).contains(e),
        e is Directory,
    ensures
        exists|g: EntryView|
            scan(t, d, path, s).contains(g) && g.is_file() && below(t, e.node(), g.node()),
{
    let k = t.children(d).len() as int;
    lemma_children_member(t, d, path, s, k, e);
    let j = choose|j: int|
        0 <= j < k && entry_matches(t, #[trigger] t.children(d)[j] as int, path, s).contains(e);
    let cj = t.children(d)[j] as int;
    lemma_entry_dirs(t, cj, path, s, e);
    let g = choose|g: EntryView|
        entry_matches(t, cj, path, s).contains(g) && g.is_file() && below(t, e.node(), g.node());
    lemma_child_subset(t, d, path, s, k, j, g);
}

/// `es` reports directory `x`.
pub open spec fn reports_dir(es: Seq<EntryView>, x: int) -> bool {
    exists|y: EntryView| es.contains(y) && y is Directory && y.node() == x
}

proof fn lemma_entry_route_dirs(t: &DirTree, c: int, pp: Seq<char>, s: Seq<char>, e: EntryView)
    requires
        t.wf(),
        0 <= c < t.len(),
        entry_matches(t, c, pp, s).contains(e),
    ensures
        exists|r: Seq<int>|
            is_route(t, r) && r[0] == c && r.last() == e.node() && forall|m: int|
                0 <= m < r.len() - 1 ==> reports_dir(entry_matches(t, c, pp, s), #[trigger] r[m]),
    decreases t.len() - c,
{
    let em = entry_matches(t, c, pp, s);
    let one = seq![c];
    assert(is_route(t, one));
    if t.kind(c) is Directory {
        let name = t.name(c);
        let path = pp + "/"@ + name;
        let sub = child_substring(name, s);
        let k = t.children(c).len() as int;
        let inner = children_matches(t, c, path, sub, k);
        let head = seq![EntryView::Directory { node: c, name, path }];
        assert(em == dir_matches(t, c, name, path, s));
        assert(em == head + inner);
        assert(em.contains(em[0]) && em[0] is Directory && em[0].node() == c);
        let i = choose|i: int| 0 <= i < em.len() && em[i] == e;
        if i == 0 {
            assert(one.last() == e.node());
        } else {
            assert(inner[i - 1] == e);
            lemma_children_member(t, c, path, sub, k, e);
            let j = choose|j: int|
                0 <= j < k && entry_matches(t, #[trigger] t.children(c)[j] as int, path, sub).contains(e);
            let cj = t.children(c)[j] as int;
            let ej = entry_matches(t, cj, path, sub);
            lemma_entry_route_dirs(t, cj, path, sub, e);
            let r1 = choose|r: Seq<int>|
                is_route(t, r) && r[0] == cj && r.last() == e.node() && forall|m: int|
                    0 <= m < r.len() - 1 ==> reports_dir(ej, #[trigger] r[m]);
            let r = seq![c] + r1;
            assert(r.drop_first() =~= r1);
            assert forall|m: int| 0 <= m < r.len() - 1 implies #[trigger] is_child(t, r[m], r[m + 1]) by {
                if m == 0 {
                    assert(t.children(c)[j] as int == r[1]);
                } else {
                    assert(r[m] == r1[m - 1]);
                    assert(r[m + 1] == r1[m]);
                }
            }
            assert forall|m: int| 0 <= m < r.len() implies 0 <= #[trigger] r[m] < t.len() by {
                if m > 0 {
                    assert(r[m] == r1[m - 1]);
                }
            }
            assert forall|m: int| 0 <= m < r.len() - 1 implies reports_dir(em, #[trigger] r[m]) by {
                if m > 0 {
                    assert(r[m] == r1[m - 1]);
                    assert(reports_dir(ej, r1[m - 1]));
                    let y = choose|y: EntryView| ej.contains(y) && y is Directory && y.node() == r1[m - 1];
                    lemma_child_subset(t, c, path, sub, k, j, y);
                    let iy = choose|iy: int| 0 <= iy < inner.len() && inner[iy] == y;
                    assert(em[iy + 1] == y);
                }
            }
            assert(r.last() == r1.last());
        }
    } else {
        if t.kind(c) is File {
            assert(em == file_matches(c, pp, t.name(c), t.nodes@[c].path@, s));
        }
        assert(em[0] == e);
        assert(one.last() == e.node());
    }
}

/// Every entry a walk of `d` finds is reached from `d` by a route whose
/// directories strictly between `d` and the entry are all reported too.
pub proof fn lemma_found_entries_have_reported_dirs(
    t: &DirTree,
    d: int,
    path: Seq<char>,
    s: Seq<char>,
    e: EntryView,
)
    requires
        t.wf(),
        0 <= d < t.len(),
        scan(t, d, path, s).contains(e),
    ensures
        exists|r: Seq<int>|
            is_route(t, r) && r.len() >= 2 && r[0] == d && r.last() == e.node() && forall|m: int|
                1 <= m < r.len() - 1 ==> reports_dir(scan(t, d, path, s), #[trigger] r[m]),
{
    let k = t.children(d).len() as int;
    let sc = scan(t, d, path, s);
    lemma_children_member(t, d, path, s, k, e);
    let j = choose|j: int|
        0 <= j < k && entry_matches(t, #[trigger] t.children(d)[j] as int, path, s).contains(e);
    let cj = t.children(d)[j] as int;
    let ej = entry_matches(t, cj, path, s);
    lemma_entry_route_dirs(t, cj, path, s, e);
    let r1 = choose|r: Seq<int>|
        is_route(t, r) && r[0] == cj && r.last() == e.node() && forall|m: int|
            0 <= m < r.len() - 1 ==> reports_dir(ej, #[trigger] r[m]);
    let r = seq![d] + r1;
    assert(r.drop_first() =~= r1);
    assert forall|m: int| 0 <= m < r.len() - 1 implies #[trigger] is_child(t, r[m], r[m + 1]) by {
        if m == 0 {
            assert(t.children(d)[j] as int == r[1]);
        } else {
            assert(r[m] == r1[m - 1]);
            assert(r[m + 1] == r1[m]);
        }
    }
    assert forall|m: int| 0 <= m < r.len() implies 0 <= #[trigger] r[m] < t.len() by {
        if m > 0 {
            assert(r[m] == r1[m - 1]);
        }
    }
    assert forall|m: int| 1 <= m < r.len() - 1 implies reports_dir(sc, #[trigger] r[m]) by {
        assert(r[m] == r1[m - 1]);
        assert(reports_dir(ej, r1[m - 1]));
        let y = choose|y: EntryView| ej.contains(y) && y is Directory && y.node() == r1[m - 1];
        lemma_child_subset(t, d, path, s, k, j, y);
    }
    assert(r.last() == r1.last());
}

} // verus!
