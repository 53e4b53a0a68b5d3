//! How a walk of a folder becomes a tree of its markdown files: the entries
//! that a walk found (gathered by the application) are filtered to markdown
//! files, inserted one by one, and every directory's children are then
//! sorted, directories first and then by name.

use vstd::prelude::*;
use crate::file_access::error::{FileAccessError, other_io_error};
use crate::file_access::json::views;
use crate::file_access::model::{EntryView, MarkdownEntry, entries_view, entry_view};
use crate::file_access::paths::{
    components, components_of, display_name, file_name, is_markdown, join, joined_path,
    lowercased, markdown_name, strip_prefix, stripped_path, to_lowercase,
};

verus! {

proof fn lemma_entries_view(s: Seq<MarkdownEntry>)
    ensures
        entries_view(s).len() == s.len(),
        forall|k: int| 0 <= k < s.len() ==> #[trigger] entries_view(s)[k] == entry_view(s[k]),
    decreases s.len(),
{
    if s.len() > 0 {
        let p = s.subrange(0, s.len() - 1);
        lemma_entries_view(p);
        assert forall|k: int| 0 <= k < s.len() implies #[trigger] entries_view(s)[k] == entry_view(
            s[k],
        ) by {
            if k < s.len() - 1 {
                assert(p[k] == s[k]);
            }
        }
    }
}

proof fn lemma_entries_view_update(s: Seq<MarkdownEntry>, k: int, x: MarkdownEntry)
    requires
        0 <= k < s.len(),
    ensures
        entries_view(s.update(k, x)) == entries_view(s).update(k, entry_view(x)),
{
    lemma_entries_view(s);
    lemma_entries_view(s.update(k, x));
    assert(entries_view(s.update(k, x)) =~= entries_view(s).update(k, entry_view(x)));
}

proof fn lemma_entries_view_push(s: Seq<MarkdownEntry>, x: MarkdownEntry)
    ensures
        entries_view(s.push(x)) == entries_view(s).push(entry_view(x)),
{
    lemma_entries_view(s);
    lemma_entries_view(s.push(x));
    assert(entries_view(s.push(x)) =~= entries_view(s).push(entry_view(x)));
}

/// Index of the first child named `name`, or -1 when there is none.
pub open spec fn child_index(cs: Seq<EntryView>, name: Seq<char>) -> int
    decreases cs.len(),
{
    if cs.len() == 0 {
        -1
    } else if cs[0].name == name {
        0
    } else {
        let k = child_index(cs.drop_first(), name);
        if k < 0 {
            -1
        } else {
            k + 1
        }
    }
}

proof fn lemma_child_index(cs: Seq<EntryView>, name: Seq<char>)
    ensures
        -1 <= child_index(cs, name) < cs.len(),
        child_index(cs, name) >= 0 ==> cs[child_index(cs, name)].name == name,
        forall|j: int| 0 <= j < cs.len() && (child_index(cs, name) < 0 || j < child_index(cs, name))
            ==> cs[j].name != name,
    decreases cs.len(),
{
    if cs.len() > 0 && cs[0].name != name {
        let r = cs.drop_first();
        lemma_child_index(r, name);
        assert forall|j: int|
            0 <= j < cs.len() && (child_index(cs, name) < 0 || j < child_index(cs, name)) implies cs[j].name
            != name by {
            if j > 0 {
                assert(r[j - 1] == cs[j]);
            }
        }
    }
}

/// The node created for a component that was not in the tree yet: a file
/// for the last component of a path, a directory otherwise.
pub open spec fn new_node(name: Seq<char>, path: Seq<char>, is_last: bool) -> EntryView {
    EntryView {
        name,
        path,
        is_dir: !is_last,
        children: if is_last {
            None
        } else {
            Some(Seq::empty())
        },
    }
}

/// The children of a node, none counting as an empty list.
pub open spec fn children_of(node: EntryView) -> Seq<EntryView> {
    match node.children {
        Some(cs) => cs,
        None => Seq::empty(),
    }
}

/// `node` after the file whose path below `base` has the components
/// `comps` is inserted: the child named after the first component is
/// reused when there is one and created otherwise, and the rest of the path
/// is inserted below it, `base` growing by each component.
pub open spec fn inserted(node: EntryView, base: Seq<char>, comps: Seq<Seq<char>>) -> EntryView
    decreases comps.len(),
{
    if comps.len() == 0 {
        node
    } else {
        let name = comps[0];
        let path = joined_path(base, name);
        let cs = children_of(node);
        let k = child_index(cs, name);
        let child = if k >= 0 {
            cs[k]
        } else {
            new_node(name, path, comps.len() == 1)
        };
        let grown = inserted(child, path, comps.drop_first());
        EntryView {
            name: node.name,
            path: node.path,
            is_dir: node.is_dir,
            children: Some(
                if k >= 0 {
                    cs.update(k, grown)
                } else {
                    cs.push(grown)
                },
            ),
        }
    }
}

/// Index of the first child named `name`.
fn find_child(children: &Vec<MarkdownEntry>, name: &String) -> (k: Option<usize>)
    ensures
        match k {
            Some(j) => j == child_index(entries_view(children@), name@) && j < children.len(),
            None => child_index(entries_view(children@), name@) == -1,
        },
{
    let ghost cs = entries_view(children@);
    proof {
        lemma_entries_view(children@);
        lemma_child_index(cs, name@);
    }
    let mut j: usize = 0;
    while j < children.len()
        invariant
            j <= children.len(),
            cs == entries_view(children@),
            cs.len() == children.len(),
            forall|i: int| 0 <= i < j ==> cs[i].name != name@,
            forall|k: int| 0 <= k < children.len() ==> #[trigger] cs[k] == entry_view(children@[k]),
            -1 <= child_index(cs, name@) < cs.len(),
            child_index(cs, name@) >= 0 ==> cs[child_index(cs, name@)].name == name@,
            forall|i: int|
                0 <= i < cs.len() && (child_index(cs, name@) < 0 || i < child_index(cs, name@))
                    ==> cs[i].name != name@,
        decreases children.len() - j,
    {
        assert(cs[j as int].name == children@[j as int].name@);
        if children[j].name == *name {
            return Some(j);
        }
        j = j + 1;
    }
    None
}

/// Inserts below `node` the file whose remaining components are
/// `comps[i..]`, `base` being the path of `node`.
fn insert_components(node: &mut MarkdownEntry, base: &String, comps: &Vec<String>, i: usize)
    requires
        i <= comps.len(),
    ensures
        final(node)@ == inserted(old(node)@, base@, views(comps@).skip(i as int)),
    decreases comps.len() - i,
{
    let ghost rest = views(comps@).skip(i as int);
    if i == comps.len() {
        assert(rest.len() == 0);
        return;
    }
    let ghost before = node@;
    let name = comps[i].clone();
    let path = join(base.as_str(), name.as_str());
    let is_last = i + 1 == comps.len();
    proof {
        assert(rest[0] == name@);
        assert(rest.drop_first() =~= views(comps@).skip(i + 1));
    }
    let mut children = match node.children.take() {
        Some(c) => c,
        None => Vec::new(),
    };
    proof {
        assert(entries_view(children@) == children_of(before));
        lemma_entries_view(children@);
    }
    let idx = match find_child(&children, &name) {
        Some(j) => j,
        None => {
            let ghost old_children = children@;
            let fresh = MarkdownEntry {
                name: name,
                path: path.clone(),
                is_dir: !is_last,
                children: if is_last {
                    None
                } else {
                    Some(Vec::new())
                },
            };
            assert(entry_view(fresh) == new_node(rest[0], path@, rest.len() == 1)) by {
                if !is_last {
                    assert(entries_view(Seq::<MarkdownEntry>::empty()) =~= Seq::<EntryView>::empty());
                }
            }
            children.push(fresh);
            proof {
                lemma_entries_view_push(old_children, fresh);
            }
            children.len() - 1
        },
    };
    let ghost mid = children@;
    let ghost cs = children_of(before);
    let ghost k = child_index(cs, name@);
    proof {
        lemma_entries_view(mid);
        if k >= 0 {
            assert(entries_view(mid) == cs);
            assert(entry_view(mid[idx as int]) == cs[k]);
        } else {
            assert(entries_view(mid) == cs.push(new_node(rest[0], path@, rest.len() == 1)));
            assert(entry_view(mid[idx as int]) == new_node(rest[0], path@, rest.len() == 1));
        }
    }
    insert_components(&mut children[idx], &path, comps, i + 1);
    proof {
        let grown = inserted(entry_view(mid[idx as int]), path@, rest.drop_first());
        assert(entry_view(children@[idx as int]) == grown);
        assert(children@ == mid.update(idx as int, children@[idx as int]));
        lemma_entries_view_update(mid, idx as int, children@[idx as int]);
        if k >= 0 {
            assert(entries_view(children@) == cs.update(k, grown));
        } else {
            assert(entries_view(children@) =~= cs.push(grown));
        }
    }
    node.children = Some(children);
    proof {
        assert(node@ == EntryView {
            name: before.name,
            path: before.path,
            is_dir: before.is_dir,
            children: Some(entries_view(children@)),
        });
    }
}

/// Inserts a markdown file at `relative` (relative to `root`) into the
/// tree, creating any intermediate directory nodes along the way.
pub fn insert_file(root_node: &mut MarkdownEntry, root: &str, relative: &str)
    ensures
        final(root_node)@ == inserted(old(root_node)@, root@, components_of(relative@)),
        old(root_node)@.path == root@ && paths_follow_names(old(root_node)@) ==> {
            &&& paths_follow_names(final(root_node)@)
            &&& reaches(
                final(root_node)@,
                components_of(relative@),
                joined_all(root@, components_of(relative@)),
            )
        },
{
    let comps = components(relative);
    let base = String::from_str(root);
    insert_components(root_node, &base, &comps, 0);
    assert(views(comps@).skip(0) =~= views(comps@));
    proof {
        if old(root_node)@.path == root@ && paths_follow_names(old(root_node)@) {
            law_inserted_paths_follow_names(old(root_node)@, components_of(relative@));
            lemma_inserted_reaches_new(old(root_node)@, components_of(relative@));
        }
    }
}

/// `a` comes before `b` in lexicographic order of character codes, which
/// is the order of `String`'s `Ord` (UTF-8 keeps the order of code points).
pub open spec fn lex_less(a: Seq<char>, b: Seq<char>) -> bool
    decreases a.len(),
{
    if a.len() == 0 {
        b.len() > 0
    } else if b.len() == 0 {
        false
    } else if a[0] != b[0] {
        (a[0] as u32) < (b[0] as u32)
    } else {
        lex_less(a.drop_first(), b.drop_first())
    }
}

/// `a` is listed before `b` among siblings: directories before files, and
/// otherwise by lowercased name.
pub open spec fn sorts_before(a: EntryView, b: EntryView) -> bool {
    if a.is_dir != b.is_dir {
        a.is_dir
    } else {
        lex_less(lowercased(a.name), lowercased(b.name))
    }
}

/// Where `x` goes in `s`: before the first element it sorts before.
pub open spec fn insert_pos(s: Seq<EntryView>, x: EntryView) -> int
    decreases s.len(),
{
    if s.len() == 0 {
        0
    } else if sorts_before(x, s[0]) {
        0
    } else {
        insert_pos(s.drop_first(), x) + 1
    }
}

/// `s` in stable sorted order: each element in turn is placed after every
/// element already placed that it does not sort before.
pub open spec fn sorted_in_order(s: Seq<EntryView>) -> Seq<EntryView>
    decreases s.len(),
{
    if s.len() == 0 {
        s
    } else {
        let r = sorted_in_order(s.drop_last());
        r.insert(insert_pos(r, s.last()), s.last())
    }
}

/// Each subtree of `cs` with its children sorted, recursively.
pub open spec fn sorted_trees(cs: Seq<EntryView>) -> Seq<EntryView>
    decreases cs,
{
    if cs.len() == 0 {
        Seq::empty()
    } else {
        sorted_trees(cs.subrange(0, cs.len() - 1)).push(sorted_tree(cs[cs.len() - 1]))
    }
}

/// `e` with every directory's children sorted, directories first and then
/// by lowercased name, ties keeping their order.
pub open spec fn sorted_tree(e: EntryView) -> EntryView
    decreases e,
{
    EntryView {
        name: e.name,
        path: e.path,
        is_dir: e.is_dir,
        children: match e.children {
            Some(cs) => Some(sorted_in_order(sorted_trees(cs))),
            None => None,
        },
    }
}

proof fn lemma_lex_less_skip(a: Seq<char>, b: Seq<char>, i: int)
    requires
        0 <= i <= a.len(),
        i <= b.len(),
        forall|k: int| 0 <= k < i ==> a[k] == b[k],
    ensures
        lex_less(a, b) == lex_less(a.skip(i), b.skip(i)),
    decreases i,
{
    if i == 0 {
        assert(a.skip(0) =~= a);
        assert(b.skip(0) =~= b);
    } else {
        let a1 = a.drop_first();
        let b1 = b.drop_first();
        assert forall|k: int| 0 <= k < i - 1 implies a1[k] == b1[k] by {
            assert(a[k + 1] == b[k + 1]);
        }
        lemma_lex_less_skip(a1, b1, i - 1);
        assert(a1.skip(i - 1) =~= a.skip(i));
        assert(b1.skip(i - 1) =~= b.skip(i));
    }
}

proof fn lemma_lex_less_transitive(a: Seq<char>, b: Seq<char>, c: Seq<char>)
    requires
        lex_less(a, b),
        lex_less(b, c),
    ensures
        lex_less(a, c),
    decreases a.len(),
{
    if a.len() > 0 && b.len() > 0 && c.len() > 0 && a[0] == b[0] && b[0] == c[0] {
        lemma_lex_less_transitive(a.drop_first(), b.drop_first(), c.drop_first());
    }
}

proof fn lemma_sorts_before_transitive(a: EntryView, b: EntryView, c: EntryView)
    requires
        sorts_before(a, b),
        sorts_before(b, c),
    ensures
        sorts_before(a, c),
{
    if a.is_dir == b.is_dir && b.is_dir == c.is_dir {
        lemma_lex_less_transitive(lowercased(a.name), lowercased(b.name), lowercased(c.name));
    }
}

/// Whether `a` comes before `b` lexicographically.
fn lex_less_text(a: &str, b: &str) -> (r: bool)
    ensures
        r == lex_less(a@, b@),
{
    let la = a.unicode_len();
    let lb = b.unicode_len();
    let mut i: usize = 0;
    while i < la && i < lb
        invariant
            la == a@.len(),
            lb == b@.len(),
            i <= la,
            i <= lb,
            forall|k: int| 0 <= k < i ==> a@[k] == b@[k],
        decreases la - i,
    {
        let ca = a.get_char(i);
        let cb = b.get_char(i);
        if ca != cb {
            proof {
                lemma_lex_less_skip(a@, b@, i as int);
                assert(a@.skip(i as int)[0] == ca);
                assert(b@.skip(i as int)[0] == cb);
            }
            return (ca as u32) < (cb as u32);
        }
        i = i + 1;
    }
    proof {
        lemma_lex_less_skip(a@, b@, i as int);
    }
    i == la && i < lb
}

/// Whether `a` is listed before `b` among siblings.
fn entry_sorts_before(a: &MarkdownEntry, b: &MarkdownEntry) -> (r: bool)
    ensures
        r == sorts_before(a@, b@),
{
    if a.is_dir != b.is_dir {
        a.is_dir
    } else {
        let la = to_lowercase(a.name.as_str());
        let lb = to_lowercase(b.name.as_str());
        lex_less_text(la.as_str(), lb.as_str())
    }
}

proof fn lemma_insert_pos(s: Seq<EntryView>, x: EntryView)
    ensures
        0 <= insert_pos(s, x) <= s.len(),
        forall|k: int| 0 <= k < insert_pos(s, x) ==> !sorts_before(x, #[trigger] s[k]),
        insert_pos(s, x) < s.len() ==> sorts_before(x, s[insert_pos(s, x)]),
    decreases s.len(),
{
    if s.len() > 0 && !sorts_before(x, s[0]) {
        let r = s.drop_first();
        lemma_insert_pos(r, x);
        assert forall|k: int| 0 <= k < insert_pos(s, x) implies !sorts_before(x, #[trigger] s[k]) by {
            if k > 0 {
                assert(s[k] == r[k - 1]);
            }
        }
    }
}

proof fn lemma_entries_view_insert(s: Seq<MarkdownEntry>, k: int, x: MarkdownEntry)
    requires
        0 <= k <= s.len(),
    ensures
        entries_view(s.insert(k, x)) == entries_view(s).insert(k, entry_view(x)),
{
    lemma_entries_view(s);
    lemma_entries_view(s.insert(k, x));
    assert(entries_view(s.insert(k, x)) =~= entries_view(s).insert(k, entry_view(x)));
}

/// Sorts sibling entries, directories first and then by lowercased name,
/// keeping the order of ties.
fn sort_entries(entries: Vec<MarkdownEntry>) -> (sorted: Vec<MarkdownEntry>)
    ensures
        entries_view(sorted@) == sorted_in_order(entries_view(entries@)),
{
    let ghost orig = entries_view(entries@);
    let mut rest = entries;
    let mut result: Vec<MarkdownEntry> = Vec::new();
    let ghost mut done: int = 0;
    proof {
        lemma_entries_view(rest@);
        assert(orig.skip(0) =~= orig);
        assert(orig.take(0) =~= Seq::<EntryView>::empty());
    }
    while rest.len() > 0
        invariant
            0 <= done <= orig.len(),
            rest.len() == orig.len() - done,
            entries_view(rest@) == orig.skip(done),
            entries_view(result@) == sorted_in_order(orig.take(done)),
        decreases rest.len(),
    {
        let ghost before_rest = rest@;
        let x = rest.remove(0);
        proof {
            lemma_entries_view(before_rest);
            lemma_entries_view(rest@);
            assert(entries_view(before_rest)[0] == entry_view(before_rest[0]));
            assert(orig.skip(done)[0] == orig[done]);
            assert(entry_view(x) == orig[done]);
            assert forall|k: int| 0 <= k < rest@.len() implies #[trigger] entries_view(rest@)[k]
                == orig.skip(done + 1)[k] by {
                assert(rest@[k] == before_rest[k + 1]);
                assert(entries_view(before_rest)[k + 1] == entry_view(before_rest[k + 1]));
                assert(orig.skip(done)[k + 1] == orig.skip(done + 1)[k]);
            }
            assert(entries_view(rest@) =~= orig.skip(done + 1));
        }
        let ghost r = entries_view(result@);
        proof {
            lemma_entries_view(result@);
            lemma_insert_pos(r, entry_view(x));
        }
        let mut p: usize = 0;
        while p < result.len() && !entry_sorts_before(&x, &result[p])
            invariant
                p <= result.len(),
                r == entries_view(result@),
                r.len() == result.len(),
                forall|k: int| 0 <= k < result.len() ==> #[trigger] r[k] == entry_view(result@[k]),
                forall|k: int| 0 <= k < p ==> !sorts_before(entry_view(x), #[trigger] r[k]),
            decreases result.len() - p,
        {
            p = p + 1;
        }
        proof {
            let q = insert_pos(r, entry_view(x));
            if p < q {
                assert(sorts_before(entry_view(x), r[p as int]));
            }
            if q < p {
                assert(!sorts_before(entry_view(x), r[q]));
            }
            assert(p == q);
            let t = orig.take(done + 1);
            assert(t.drop_last() =~= orig.take(done));
            assert(t.last() == orig[done]);
        }
        let ghost before_result = result@;
        result.insert(p, x);
        proof {
            lemma_entries_view_insert(before_result, p as int, x);
            done = done + 1;
        }
    }
    proof {
        assert(orig.take(done) =~= orig);
    }
    result
}

proof fn lemma_sorted_trees(cs: Seq<EntryView>)
    ensures
        sorted_trees(cs).len() == cs.len(),
        forall|k: int| 0 <= k < cs.len() ==> #[trigger] sorted_trees(cs)[k] == sorted_tree(cs[k]),
    decreases cs.len(),
{
    if cs.len() > 0 {
        let p = cs.subrange(0, cs.len() - 1);
        lemma_sorted_trees(p);
        assert forall|k: int| 0 <= k < cs.len() implies #[trigger] sorted_trees(cs)[k]
            == sorted_tree(cs[k]) by {
            if k < cs.len() - 1 {
                assert(p[k] == cs[k]);
            }
        }
    }
}

/// Sorts each directory's children (directories first, then alphabetically
/// by lowercased name) so the tree renders in a stable order.
pub fn sort_tree(node: &mut MarkdownEntry)
    ensures
        final(node)@ == sorted_tree(old(node)@),
    decreases *old(node),
{
    let ghost before = node@;
    match node.children.take() {
        None => {},
        Some(mut cs) => {
            let ghost orig = cs@;
            let ghost cs0 = cs;
            let n = cs.len();
            let mut j: usize = 0;
            proof {
                lemma_entries_view(orig);
            }
            while j < n
                invariant
                    n == cs.len(),
                    n == orig.len(),
                    old(node).children == Some(cs0),
                    cs0@ == orig,
                    j <= n,
                    forall|k: int| 0 <= k < j ==> #[trigger] entry_view(cs@[k]) == sorted_tree(
                        entry_view(orig[k]),
                    ),
                    forall|k: int| j <= k < n ==> #[trigger] cs@[k] == orig[k],
                decreases n - j,
            {
                proof {
                    assert(decreases_to!(*old(node) => old(node).children));
                    assert(old(node).children->0 == cs0);
                    assert(decreases_to!(old(node).children => old(node).children->0));
                    assert(decreases_to!(cs0 => cs0@));
                    assert(decreases_to!(cs0@ => cs0@[j as int]));
                    assert(decreases_to!(*old(node) => cs@[j as int]));
                }
                sort_tree(&mut cs[j]);
                j = j + 1;
            }
            proof {
                lemma_entries_view(cs@);
                lemma_sorted_trees(entries_view(orig));
                assert(entries_view(cs@) =~= sorted_trees(entries_view(orig)));
            }
            let sorted = sort_entries(cs);
            node.children = Some(sorted);
        },
    }
}

/// An entry found by walking a folder: its path and whether it is a
/// regular file.
#[derive(Debug)]
pub struct WalkedEntry {
    pub path: String,
    pub is_file: bool,
}

/// Whether `path` has the extension `md` or `markdown`, in any ASCII case.
pub fn has_markdown_extension(path: &str) -> (b: bool)
    ensures
        b == is_markdown(path@),
{
    match file_name(path) {
        Some(name) => markdown_name(name.as_str()),
        None => false,
    }
}

/// A walked entry that is a markdown file.
pub open spec fn is_markdown_file(w: WalkedEntry) -> bool {
    w.is_file && is_markdown(w.path@)
}

/// A markdown file of the walk that does not lie under `root`.
pub open spec fn lies_outside(root: Seq<char>, w: WalkedEntry) -> bool {
    is_markdown_file(w) && stripped_path(w.path@, root) is None
}

/// Index of the first walked markdown file that does not lie under `root`,
/// or -1 when there is none.
pub open spec fn first_outside(root: Seq<char>, ws: Seq<WalkedEntry>) -> int
    decreases ws.len(),
{
    if ws.len() == 0 {
        -1
    } else if lies_outside(root, ws[0]) {
        0
    } else {
        let k = first_outside(root, ws.drop_first());
        if k < 0 {
            -1
        } else {
            k + 1
        }
    }
}

proof fn lemma_first_outside(root: Seq<char>, ws: Seq<WalkedEntry>)
    ensures
        -1 <= first_outside(root, ws) < ws.len(),
        first_outside(root, ws) >= 0 ==> lies_outside(root, ws[first_outside(root, ws)]),
        forall|j: int|
            0 <= j < ws.len() && (first_outside(root, ws) < 0 || j < first_outside(root, ws))
                ==> !lies_outside(root, #[trigger] ws[j]),
    decreases ws.len(),
{
    if ws.len() > 0 && !lies_outside(root, ws[0]) {
        let r = ws.drop_first();
        lemma_first_outside(root, r);
        assert forall|j: int|
            0 <= j < ws.len() && (first_outside(root, ws) < 0 || j < first_outside(root, ws)) implies !lies_outside(
            root,
            #[trigger] ws[j],
        ) by {
            if j > 0 {
                assert(ws[j] == r[j - 1]);
            }
        }
    }
}

/// The root of the tree before any file is inserted.
pub open spec fn root_node(root: Seq<char>) -> EntryView {
    EntryView { name: display_name(root), path: root, is_dir: true, children: Some(Seq::empty()) }
}

/// The tree of the walked markdown files below `root`, in the order the
/// walk found them, before sorting.
pub open spec fn tree_of(root: Seq<char>, ws: Seq<WalkedEntry>) -> EntryView
    decreases ws.len(),
{
    if ws.len() == 0 {
        root_node(root)
    } else {
        let t = tree_of(root, ws.drop_last());
        let w = ws.last();
        if is_markdown_file(w) {
            match stripped_path(w.path@, root) {
                Some(rel) => inserted(t, root, components_of(rel)),
                None => t,
            }
        } else {
            t
        }
    }
}

/// The tree of the markdown files found by walking `root`, given whether
/// `root` is a directory and the entries the walk found below it. Only
/// regular files with a markdown extension are kept; directories holding
/// none of them never appear; every directory's children are sorted.
pub fn build_markdown_tree(root: &str, root_is_dir: bool, walked: &Vec<WalkedEntry>) -> (res: Result<
    MarkdownEntry,
    FileAccessError,
>)
    ensures
        match res {
            Ok(tree) => {
                &&& root_is_dir
                &&& first_outside(root@, walked@) == -1
                &&& tree@ == sorted_tree(tree_of(root@, walked@))
                &&& tree_in_order(tree@)
                &&& no_empty_dirs_below(tree@)
                &&& names_distinct_below(tree@)
                &&& paths_follow_names(tree@)
                &&& tree@.path == root@
                &&& forall|j: int, rel: Seq<char>|
                    0 <= j < walked@.len() && #[trigger] kept_file(root@, walked@[j], rel)
                        ==> reaches(tree@, components_of(rel), joined_all(root@, components_of(rel)))
            },
            Err(FileAccessError::NotADirectory { path }) => !root_is_dir && path@ == root@,
            Err(FileAccessError::Io { path, .. }) => root_is_dir && first_outside(root@, walked@)
                >= 0 && path@ == walked@[first_outside(root@, walked@)].path@,
            Err(_) => false,
        },
{
    if !root_is_dir {
        return Err(FileAccessError::NotADirectory { path: String::from_str(root) });
    }
    let name = match file_name(root) {
        Some(n) => n,
        None => String::from_str(root),
    };
    let mut node = MarkdownEntry {
        name,
        path: String::from_str(root),
        is_dir: true,
        children: Some(Vec::new()),
    };
    let ghost ws = walked@;
    proof {
        assert(entries_view(Seq::<MarkdownEntry>::empty()) =~= Seq::<EntryView>::empty());
        assert(ws.take(0) =~= Seq::<WalkedEntry>::empty());
        lemma_first_outside(root@, ws);
    }
    let n = walked.len();
    let mut j: usize = 0;
    while j < n
        invariant
            n == ws.len(),
            ws == walked@,
            root_is_dir,
            j <= n,
            node@ == tree_of(root@, ws.take(j as int)),
            forall|k: int| 0 <= k < j ==> !lies_outside(root@, #[trigger] ws[k]),
            -1 <= first_outside(root@, ws) < ws.len(),
            first_outside(root@, ws) >= 0 ==> lies_outside(root@, ws[first_outside(root@, ws)]),
            forall|i: int|
                0 <= i < ws.len() && (first_outside(root@, ws) < 0 || i < first_outside(root@, ws))
                    ==> !lies_outside(root@, #[trigger] ws[i]),
        decreases n - j,
    {
        let entry = &walked[j];
        proof {
            let t = ws.take(j + 1);
            assert(t.drop_last() =~= ws.take(j as int));
            assert(t.last() == ws[j as int]);
        }
        if entry.is_file && has_markdown_extension(entry.path.as_str()) {
            match strip_prefix(entry.path.as_str(), root) {
                Some(relative) => {
                    insert_file(&mut node, root, relative.as_str());
                },
                None => {
                    proof {
                        assert(lies_outside(root@, ws[j as int]));
                        let q = first_outside(root@, ws);
                        if q >= 0 && q < j {
                            assert(!lies_outside(root@, ws[q]));
                        }
                        if q < 0 || j < q {
                            assert(!lies_outside(root@, ws[j as int]));
                        }
                        assert(q == j);
                        assert(*entry == ws[j as int]);
                    }
                    let path = entry.path.clone();
                    let source = other_io_error("entry path is not inside the walked root");
                    let error = FileAccessError::Io { path, source };
                    return Err(error);
                },
            }
        }
        j = j + 1;
    }
    proof {
        assert(ws.take(n as int) =~= ws);
        let q = first_outside(root@, ws);
        if q >= 0 {
            assert(!lies_outside(root@, ws[q]));
        }
    }
    sort_tree(&mut node);
    proof {
        law_sorted_tree_in_order(tree_of(root@, ws));
        law_no_empty_directories(root@, ws);
        law_distinct_sibling_names(root@, ws);
        law_walk_paths_follow_names(root@, ws);
        assert forall|j: int, rel: Seq<char>|
            0 <= j < ws.len() && #[trigger] kept_file(root@, ws[j], rel) implies reaches(
            sorted_tree(tree_of(root@, ws)),
            components_of(rel),
            joined_all(root@, components_of(rel)),
        ) by {
            law_walk_keeps_every_markdown_file(root@, ws, j, rel);
        }
    }
    Ok(node)
}

/// Siblings listed in order: none is listed after one it sorts before, so
/// directories come first and names ascend within each group.
pub open spec fn siblings_in_order(cs: Seq<EntryView>) -> bool {
    forall|i: int, j: int| 0 <= i < j < cs.len() ==> !sorts_before(cs[j], cs[i])
}

/// Every directory of the tree lists its children in order.
pub open spec fn tree_in_order(e: EntryView) -> bool
    decreases e,
{
    match e.children {
        Some(cs) => siblings_in_order(cs) && forall|i: int|
            0 <= i < cs.len() ==> tree_in_order(#[trigger] cs[i]),
        None => true,
    }
}

/// A node that is a directory has at least one child.
pub open spec fn non_empty_if_dir(e: EntryView) -> bool {
    e.is_dir ==> (e.children is Some && e.children->0.len() > 0)
}

/// No directory below `e` is empty.
pub open spec fn no_empty_dirs_below(e: EntryView) -> bool
    decreases e,
{
    match e.children {
        Some(cs) => forall|i: int|
            0 <= i < cs.len() ==> non_empty_if_dir(#[trigger] cs[i]) && no_empty_dirs_below(cs[i]),
        None => true,
    }
}

proof fn lemma_lex_less_irreflexive(a: Seq<char>)
    ensures
        !lex_less(a, a),
    decreases a.len(),
{
    if a.len() > 0 {
        lemma_lex_less_irreflexive(a.drop_first());
    }
}

proof fn lemma_insert_keeps_order(r: Seq<EntryView>, x: EntryView)
    requires
        siblings_in_order(r),
    ensures
        siblings_in_order(r.insert(insert_pos(r, x), x)),
{
    lemma_insert_pos(r, x);
    let q = insert_pos(r, x);
    let u = r.insert(q, x);
    assert forall|i: int, j: int| 0 <= i < j < u.len() implies !sorts_before(u[j], u[i]) by {
        if j == q {
            assert(u[i] == r[i]);
        } else if i == q {
            assert(u[j] == r[j - 1]);
            if sorts_before(r[j - 1], x) {
                lemma_sorts_before_transitive(r[j - 1], x, r[q]);
                if j - 1 == q {
                    lemma_lex_less_irreflexive(lowercased(r[q].name));
                }
            }
        } else if j < q {
            assert(u[i] == r[i] && u[j] == r[j]);
        } else if i < q {
            assert(u[i] == r[i] && u[j] == r[j - 1]);
        } else {
            assert(u[i] == r[i - 1] && u[j] == r[j - 1]);
        }
    }
}

proof fn lemma_sorted_in_order(s: Seq<EntryView>)
    ensures
        sorted_in_order(s).to_multiset() == s.to_multiset(),
        sorted_in_order(s).len() == s.len(),
        siblings_in_order(sorted_in_order(s)),
    decreases s.len(),
{
    broadcast use vstd::seq_lib::group_to_multiset_ensures;

    if s.len() > 0 {
        let p = s.drop_last();
        lemma_sorted_in_order(p);
        let r = sorted_in_order(p);
        lemma_insert_pos(r, s.last());
        lemma_insert_keeps_order(r, s.last());
        assert(p.push(s.last()) =~= s);
    }
}

/// Sorting siblings only reorders them, and lists them in order:
/// directories first, then by lowercased name.
pub proof fn law_sorted_siblings(cs: Seq<EntryView>)
    ensures
        sorted_in_order(cs).to_multiset() == cs.to_multiset(),
        siblings_in_order(sorted_in_order(cs)),
        forall|i: int, j: int|
            0 <= i < j < cs.len() && (#[trigger] sorted_in_order(cs)[j]).is_dir ==> (
            #[trigger] sorted_in_order(cs)[i]).is_dir,
{
    lemma_sorted_in_order(cs);
    let out = sorted_in_order(cs);
    assert forall|i: int, j: int|
        0 <= i < j < cs.len() && (#[trigger] out[j]).is_dir implies (#[trigger] out[i]).is_dir by {
        assert(!sorts_before(out[j], out[i]));
    }
}

proof fn lemma_sorted_members(s: Seq<EntryView>, y: EntryView)
    requires
        sorted_in_order(s).contains(y),
    ensures
        s.contains(y),
{
    lemma_sorted_in_order(s);
    vstd::seq_lib::to_multiset_contains(sorted_in_order(s), y);
    vstd::seq_lib::to_multiset_contains(s, y);
}

/// After [`sort_tree`], every directory of the tree lists its children in
/// order, however the tree was built.
pub proof fn law_sorted_tree_in_order(e: EntryView)
    ensures
        tree_in_order(sorted_tree(e)),
    decreases e,
{
    match e.children {
        Some(cs) => {
            let st = sorted_trees(cs);
            lemma_sorted_trees(cs);
            lemma_sorted_in_order(st);
            let out = sorted_in_order(st);
            assert forall|i: int| 0 <= i < out.len() implies tree_in_order(#[trigger] out[i]) by {
                assert(out.contains(out[i]));
                lemma_sorted_members(st, out[i]);
                let k = choose|k: int| 0 <= k < st.len() && st[k] == out[i];
                assert(st[k] == sorted_tree(cs[k]));
                law_sorted_tree_in_order(cs[k]);
            }
        },
        None => {},
    }
}

proof fn lemma_sorted_tree_keeps_shape(e: EntryView)
    requires
        no_empty_dirs_below(e),
    ensures
        no_empty_dirs_below(sorted_tree(e)),
        sorted_tree(e).is_dir == e.is_dir,
        non_empty_if_dir(e) ==> non_empty_if_dir(sorted_tree(e)),
    decreases e,
{
    match e.children {
        Some(cs) => {
            let st = sorted_trees(cs);
            lemma_sorted_trees(cs);
            lemma_sorted_in_order(st);
            let out = sorted_in_order(st);
            assert forall|i: int| 0 <= i < out.len() implies non_empty_if_dir(#[trigger] out[i])
                && no_empty_dirs_below(out[i]) by {
                assert(out.contains(out[i]));
                lemma_sorted_members(st, out[i]);
                let k = choose|k: int| 0 <= k < st.len() && st[k] == out[i];
                assert(st[k] == sorted_tree(cs[k]));
                assert(non_empty_if_dir(cs[k]) && no_empty_dirs_below(cs[k]));
                lemma_sorted_tree_keeps_shape(cs[k]);
                if cs[k].is_dir {
                    lemma_sorted_trees(cs[k].children->0);
                    lemma_sorted_in_order(sorted_trees(cs[k].children->0));
                }
            }
        },
        None => {},
    }
}

proof fn lemma_inserted_keeps_shape(node: EntryView, base: Seq<char>, comps: Seq<Seq<char>>)
    requires
        no_empty_dirs_below(node),
        comps.len() > 0,
    ensures
        no_empty_dirs_below(inserted(node, base, comps)),
        inserted(node, base, comps).children is Some,
        inserted(node, base, comps).children->0.len() > 0,
        inserted(node, base, comps).is_dir == node.is_dir,
    decreases comps.len(),
{
    let name = comps[0];
    let path = joined_path(base, name);
    let cs = children_of(node);
    let k = child_index(cs, name);
    lemma_child_index(cs, name);
    let child = if k >= 0 {
        cs[k]
    } else {
        new_node(name, path, comps.len() == 1)
    };
    let rest = comps.drop_first();
    let grown = inserted(child, path, rest);
    assert(no_empty_dirs_below(child) && (rest.len() == 0 ==> non_empty_if_dir(child)));
    if rest.len() > 0 {
        lemma_inserted_keeps_shape(child, path, rest);
    }
    assert(non_empty_if_dir(grown) && no_empty_dirs_below(grown));
    let out = if k >= 0 {
        cs.update(k, grown)
    } else {
        cs.push(grown)
    };
    assert forall|i: int| 0 <= i < out.len() implies non_empty_if_dir(#[trigger] out[i])
        && no_empty_dirs_below(out[i]) by {
        if i < cs.len() && i != k {
            assert(out[i] == cs[i]);
        }
    }
}

proof fn lemma_tree_of_shape(root: Seq<char>, ws: Seq<WalkedEntry>)
    ensures
        no_empty_dirs_below(tree_of(root, ws)),
    decreases ws.len(),
{
    if ws.len() > 0 {
        lemma_tree_of_shape(root, ws.drop_last());
        let w = ws.last();
        if is_markdown_file(w) {
            match stripped_path(w.path@, root) {
                Some(rel) => {
                    if components_of(rel).len() > 0 {
                        lemma_inserted_keeps_shape(tree_of(root, ws.drop_last()), root, components_of(rel));
                    }
                },
                None => {},
            }
        }
    }
}

/// The tree of a walk holds no empty directory below its root: a directory
/// appears only on the way to a markdown file. This holds once its
/// children are sorted too.
pub proof fn law_no_empty_directories(root: Seq<char>, ws: Seq<WalkedEntry>)
    ensures
        no_empty_dirs_below(sorted_tree(tree_of(root, ws))),
{
    lemma_tree_of_shape(root, ws);
    lemma_sorted_tree_keeps_shape(tree_of(root, ws));
}

/// No two of the siblings share a name.
pub open spec fn distinct_names(cs: Seq<EntryView>) -> bool {
    forall|i: int, j: int| 0 <= i < j < cs.len() ==> cs[i].name != cs[j].name
}

/// No directory of the tree holds two children of the same name.
pub open spec fn names_distinct_below(e: EntryView) -> bool
    decreases e,
{
    match e.children {
        Some(cs) => distinct_names(cs) && forall|i: int|
            0 <= i < cs.len() ==> names_distinct_below(#[trigger] cs[i]),
        None => true,
    }
}

proof fn lemma_inserted_keeps_names(node: EntryView, base: Seq<char>, comps: Seq<Seq<char>>)
    requires
        names_distinct_below(node),
    ensures
        names_distinct_below(inserted(node, base, comps)),
        inserted(node, base, comps).name == node.name,
    decreases comps.len(),
{
    if comps.len() > 0 {
        let name = comps[0];
        let path = joined_path(base, name);
        let cs = children_of(node);
        let k = child_index(cs, name);
        lemma_child_index(cs, name);
        let child = if k >= 0 {
            cs[k]
        } else {
            new_node(name, path, comps.len() == 1)
        };
        let grown = inserted(child, path, comps.drop_first());
        lemma_inserted_keeps_names(child, path, comps.drop_first());
        let out = if k >= 0 {
            cs.update(k, grown)
        } else {
            cs.push(grown)
        };
        assert forall|i: int| 0 <= i < out.len() implies names_distinct_below(#[trigger] out[i]) by {
            if i < cs.len() && i != k {
                assert(out[i] == cs[i]);
            }
        }
        assert forall|i: int, j: int| 0 <= i < j < out.len() implies out[i].name != out[j].name by {
            if j == cs.len() {
                assert(out[i] == cs[i]);
            }
        }
    }
}

proof fn lemma_tree_of_names(root: Seq<char>, ws: Seq<WalkedEntry>)
    ensures
        names_distinct_below(tree_of(root, ws)),
    decreases ws.len(),
{
    if ws.len() > 0 {
        lemma_tree_of_names(root, ws.drop_last());
        let w = ws.last();
        if is_markdown_file(w) {
            match stripped_path(w.path@, root) {
                Some(rel) => {
                    lemma_inserted_keeps_names(tree_of(root, ws.drop_last()), root, components_of(rel));
                },
                None => {},
            }
        }
    }
}

proof fn lemma_sorted_keeps_distinct_names(s: Seq<EntryView>)
    requires
        distinct_names(s),
    ensures
        distinct_names(sorted_in_order(s)),
    decreases s.len(),
{
    if s.len() > 0 {
        let p = s.drop_last();
        let x = s.last();
        lemma_sorted_keeps_distinct_names(p);
        let r = sorted_in_order(p);
        lemma_sorted_in_order(p);
        lemma_insert_pos(r, x);
        let q = insert_pos(r, x);
        let u = r.insert(q, x);
        assert forall|i: int| 0 <= i < r.len() implies r[i].name != x.name by {
            assert(r.contains(r[i]));
            lemma_sorted_members(p, r[i]);
            let k = choose|k: int| 0 <= k < p.len() && p[k] == r[i];
            assert(s[k] == p[k]);
            assert(s[s.len() - 1] == x);
        }
        assert forall|i: int, j: int| 0 <= i < j < u.len() implies u[i].name != u[j].name by {
            if j == q {
                assert(u[i] == r[i]);
            } else if i == q {
                assert(u[j] == r[j - 1]);
            } else if j < q {
                assert(u[i] == r[i] && u[j] == r[j]);
            } else if i < q {
                assert(u[i] == r[i] && u[j] == r[j - 1]);
            } else {
                assert(u[i] == r[i - 1] && u[j] == r[j - 1]);
            }
        }
    }
}

proof fn lemma_sorted_tree_keeps_names(e: EntryView)
    requires
        names_distinct_below(e),
    ensures
        names_distinct_below(sorted_tree(e)),
        sorted_tree(e).name == e.name,
    decreases e,
{
    match e.children {
        Some(cs) => {
            let st = sorted_trees(cs);
            lemma_sorted_trees(cs);
            assert forall|i: int, j: int| 0 <= i < j < st.len() implies st[i].name != st[j].name by {
                assert(st[i] == sorted_tree(cs[i]) && st[j] == sorted_tree(cs[j]));
            }
            lemma_sorted_keeps_distinct_names(st);
            lemma_sorted_in_order(st);
            let out = sorted_in_order(st);
            assert forall|i: int| 0 <= i < out.len() implies names_distinct_below(#[trigger] out[i]) by {
                assert(out.contains(out[i]));
                lemma_sorted_members(st, out[i]);
                let k = choose|k: int| 0 <= k < st.len() && st[k] == out[i];
                assert(st[k] == sorted_tree(cs[k]));
                lemma_sorted_tree_keeps_names(cs[k]);
            }
        },
        None => {},
    }
}

/// In the tree of a walk no directory holds two children of the same name:
/// a component already present is reused, never added twice. Sorting keeps
/// this.
pub proof fn law_distinct_sibling_names(root: Seq<char>, ws: Seq<WalkedEntry>)
    ensures
        names_distinct_below(sorted_tree(tree_of(root, ws))),
{
    lemma_tree_of_names(root, ws);
    lemma_sorted_tree_keeps_names(tree_of(root, ws));
}

proof fn lemma_inserted_name(node: EntryView, base: Seq<char>, comps: Seq<Seq<char>>)
    ensures
        inserted(node, base, comps).name == node.name,
        inserted(node, base, comps).path == node.path,
        inserted(node, base, comps).is_dir == node.is_dir,
{
}

/// Inserting the same file a second time adds nothing: every component is
/// found again by name and reused.
pub proof fn law_insert_twice_is_insert_once(node: EntryView, base: Seq<char>, comps: Seq<Seq<char>>)
    ensures
        inserted(inserted(node, base, comps), base, comps) == inserted(node, base, comps),
    decreases comps.len(),
{
    if comps.len() > 0 {
        let name = comps[0];
        let path = joined_path(base, name);
        let cs = children_of(node);
        let k = child_index(cs, name);
        lemma_child_index(cs, name);
        let child = if k >= 0 {
            cs[k]
        } else {
            new_node(name, path, comps.len() == 1)
        };
        let rest = comps.drop_first();
        let grown = inserted(child, path, rest);
        lemma_inserted_name(child, path, rest);
        let once = inserted(node, base, comps);
        let out = children_of(once);
        let at = if k >= 0 {
            k
        } else {
            cs.len() as int
        };
        assert(out == if k >= 0 {
            cs.update(k, grown)
        } else {
            cs.push(grown)
        });
        assert(out[at] == grown);
        lemma_child_index(out, name);
        let k2 = child_index(out, name);
        if k2 >= 0 && k2 < at {
            assert(out[k2] == cs[k2]);
        }
        if k2 < 0 || k2 > at {
            assert(out[at].name == name);
        }
        assert(k2 == at);
        law_insert_twice_is_insert_once(child, path, rest);
        assert(inserted(grown, path, rest) == grown);
        assert(out.update(at, grown) =~= out);
    }
}

/// Already ordered siblings are left as they are by sorting.
proof fn lemma_sorted_in_order_of_ordered(s: Seq<EntryView>)
    requires
        siblings_in_order(s),
    ensures
        sorted_in_order(s) == s,
    decreases s.len(),
{
    if s.len() > 0 {
        let p = s.drop_last();
        assert(siblings_in_order(p)) by {
            assert forall|i: int, j: int| 0 <= i < j < p.len() implies !sorts_before(p[j], p[i]) by {
                assert(p[i] == s[i] && p[j] == s[j]);
            }
        }
        lemma_sorted_in_order_of_ordered(p);
        lemma_insert_pos(p, s.last());
        let q = insert_pos(p, s.last());
        if q < p.len() {
            assert(p[q] == s[q]);
            assert(!sorts_before(s[s.len() - 1], s[q]));
        }
        assert(p.insert(p.len() as int, s.last()) =~= s);
    }
}

/// Sorting a sorted tree changes nothing: sorting twice is sorting once.
pub proof fn law_sort_tree_twice_is_sort_once(e: EntryView)
    ensures
        sorted_tree(sorted_tree(e)) == sorted_tree(e),
    decreases e,
{
    match e.children {
        Some(cs) => {
            let st = sorted_trees(cs);
            lemma_sorted_trees(cs);
            lemma_sorted_in_order(st);
            let out = sorted_in_order(st);
            lemma_sorted_trees(out);
            assert forall|i: int| 0 <= i < out.len() implies #[trigger] sorted_trees(out)[i]
                == out[i] by {
                assert(out.contains(out[i]));
                lemma_sorted_members(st, out[i]);
                let k = choose|k: int| 0 <= k < st.len() && st[k] == out[i];
                assert(st[k] == sorted_tree(cs[k]));
                law_sort_tree_twice_is_sort_once(cs[k]);
            }
            assert(sorted_trees(out) =~= out);
            lemma_sorted_in_order_of_ordered(out);
        },
        None => {},
    }
}

/// Two siblings of equal rank: both directories or both files, with the
/// same lowercased name. Neither sorts before the other.
pub open spec fn same_rank(a: EntryView, b: EntryView) -> bool {
    a.is_dir == b.is_dir && lowercased(a.name) == lowercased(b.name)
}

/// The elements of `s` of the same rank as `x`, in their order in `s`.
pub open spec fn of_rank(s: Seq<EntryView>, x: EntryView) -> Seq<EntryView>
    decreases s.len(),
{
    if s.len() == 0 {
        s
    } else {
        let p = of_rank(s.drop_last(), x);
        if same_rank(s.last(), x) {
            p.push(s.last())
        } else {
            p
        }
    }
}

proof fn lemma_of_rank_add(a: Seq<EntryView>, b: Seq<EntryView>, x: EntryView)
    ensures
        of_rank(a + b, x) == of_rank(a, x) + of_rank(b, x),
    decreases b.len(),
{
    if b.len() == 0 {
        assert(a + b =~= a);
        assert(of_rank(a, x) + of_rank(b, x) =~= of_rank(a, x));
    } else {
        lemma_of_rank_add(a, b.drop_last(), x);
        assert((a + b).drop_last() =~= a + b.drop_last());
        assert((a + b).last() == b.last());
        if same_rank(b.last(), x) {
            assert(of_rank(a, x) + of_rank(b.drop_last(), x).push(b.last()) =~= (of_rank(a, x)
                + of_rank(b.drop_last(), x)).push(b.last()));
        }
    }
}

proof fn lemma_of_rank_none(s: Seq<EntryView>, x: EntryView)
    requires
        forall|i: int| 0 <= i < s.len() ==> !same_rank(#[trigger] s[i], x),
    ensures
        of_rank(s, x) == Seq::<EntryView>::empty(),
    decreases s.len(),
{
    if s.len() > 0 {
        let p = s.drop_last();
        assert forall|i: int| 0 <= i < p.len() implies !same_rank(#[trigger] p[i], x) by {
            assert(p[i] == s[i]);
        }
        lemma_of_rank_none(p, x);
        assert(!same_rank(s[s.len() - 1], x));
    }
}

proof fn lemma_of_rank_single(y: EntryView, x: EntryView)
    ensures
        of_rank(seq![y], x) == (if same_rank(y, x) {
            seq![y]
        } else {
            Seq::<EntryView>::empty()
        }),
{
    assert(seq![y].drop_last() =~= Seq::<EntryView>::empty());
    assert(seq![y].last() == y);
    assert(of_rank(Seq::<EntryView>::empty(), x) =~= Seq::<EntryView>::empty());
    assert(of_rank(seq![y], x) == if same_rank(y, x) {
        of_rank(Seq::<EntryView>::empty(), x).push(y)
    } else {
        of_rank(Seq::<EntryView>::empty(), x)
    });
    assert(Seq::<EntryView>::empty().push(y) =~= seq![y]);
}

/// Sorting is stable: the siblings of any one rank come out in the order
/// they went in.
pub proof fn law_sort_is_stable(s: Seq<EntryView>, x: EntryView)
    ensures
        of_rank(sorted_in_order(s), x) == of_rank(s, x),
    decreases s.len(),
{
    if s.len() > 0 {
        let p = s.drop_last();
        let y = s.last();
        law_sort_is_stable(p, x);
        lemma_sorted_in_order(p);
        let r = sorted_in_order(p);
        lemma_insert_pos(r, y);
        let q = insert_pos(r, y);
        let u = r.insert(q, y);
        let front = r.take(q);
        let back = r.skip(q);
        assert(u =~= front + seq![y] + back);
        assert(r =~= front + back);
        lemma_of_rank_add(front + seq![y], back, x);
        lemma_of_rank_add(front, seq![y], x);
        lemma_of_rank_add(front, back, x);
        lemma_of_rank_single(y, x);
        if same_rank(y, x) {
            assert forall|i: int| 0 <= i < back.len() implies !same_rank(#[trigger] back[i], x) by {
                assert(back[i] == r[q + i]);
                if same_rank(r[q + i], x) {
                    assert(sorts_before(r[q + i], r[q]) == sorts_before(y, r[q]));
                    if i == 0 {
                        lemma_lex_less_irreflexive(lowercased(r[q].name));
                    }
                }
            }
            lemma_of_rank_none(back, x);
            assert(of_rank(front, x) + Seq::<EntryView>::empty() =~= of_rank(front, x));
            assert(of_rank(front, x) + seq![y] + Seq::<EntryView>::empty() =~= of_rank(front, x).push(y));
        } else {
            assert(of_rank(front, x) + Seq::<EntryView>::empty() =~= of_rank(front, x));
        }
    }
}

proof fn lemma_char_codes_differ(a: char, b: char)
    requires
        a != b,
    ensures
        (a as u32) != (b as u32),
{
}

/// How names compare: at the first position where they differ, the one
/// whose character has the smaller Unicode code comes first; a proper
/// prefix comes before any longer name; a name does not come before itself.
pub proof fn law_name_order(a: Seq<char>, b: Seq<char>, i: int)
    requires
        0 <= i <= a.len(),
        i <= b.len(),
        forall|k: int| 0 <= k < i ==> a[k] == b[k],
    ensures
        i < a.len() && i < b.len() && a[i] != b[i] ==> (lex_less(a, b) <==> (a[i] as u32) < (
        b[i] as u32)),
        i == a.len() && i < b.len() ==> lex_less(a, b) && !lex_less(b, a),
        i == a.len() && i == b.len() ==> !lex_less(a, b),
{
    lemma_lex_less_skip(a, b, i);
    assert forall|k: int| 0 <= k < i implies b[k] == a[k] by {}
    lemma_lex_less_skip(b, a, i);
    if i < a.len() && i < b.len() {
        assert(a.skip(i)[0] == a[i]);
        assert(b.skip(i)[0] == b[i]);
    }
}

/// Siblings of the same kind after sorting ascend by the code points of
/// their lowercased names: where two such names first differ, the earlier
/// sibling has the smaller code there, and a later sibling's lowercased name
/// is never a proper prefix of an earlier one's.
pub proof fn law_sorted_names_ascend(cs: Seq<EntryView>, i: int, j: int, p: int)
    requires
        0 <= i < j < sorted_in_order(cs).len(),
        sorted_in_order(cs)[i].is_dir == sorted_in_order(cs)[j].is_dir,
        0 <= p <= lowercased(sorted_in_order(cs)[i].name).len(),
        p <= lowercased(sorted_in_order(cs)[j].name).len(),
        forall|k: int|
            0 <= k < p ==> lowercased(sorted_in_order(cs)[i].name)[k] == lowercased(
                sorted_in_order(cs)[j].name,
            )[k],
    ensures
        ({
            let x = lowercased(sorted_in_order(cs)[i].name);
            let y = lowercased(sorted_in_order(cs)[j].name);
            &&& p < x.len() && p < y.len() && x[p] != y[p] ==> (x[p] as u32) < (y[p] as u32)
            &&& p == y.len() ==> p == x.len()
        }),
{
    lemma_sorted_in_order(cs);
    let out = sorted_in_order(cs);
    let x = lowercased(out[i].name);
    let y = lowercased(out[j].name);
    assert(!sorts_before(out[j], out[i]));
    assert(!lex_less(y, x));
    assert forall|k: int| 0 <= k < p implies y[k] == x[k] by {}
    law_name_order(y, x, p);
    if p < x.len() && p < y.len() && x[p] != y[p] {
        lemma_char_codes_differ(x[p], y[p]);
    }
    if p == y.len() && p < x.len() {
        assert(lex_less(y, x));
    }
}

/// Every node below `e` has as its path its parent's path joined with its
/// own name.
pub open spec fn paths_follow_names(e: EntryView) -> bool
    decreases e,
{
    match e.children {
        Some(cs) => forall|i: int|
            0 <= i < cs.len() ==> (#[trigger] cs[i]).path == joined_path(e.path, cs[i].name)
                && paths_follow_names(cs[i]),
        None => true,
    }
}

/// Inserting a file below a node whose paths follow its names keeps them
/// so: every node created, and every node reused, has its parent's path
/// joined with its name as its path, whatever siblings it has.
pub proof fn law_inserted_paths_follow_names(node: EntryView, comps: Seq<Seq<char>>)
    requires
        paths_follow_names(node),
    ensures
        paths_follow_names(inserted(node, node.path, comps)),
        inserted(node, node.path, comps).path == node.path,
    decreases comps.len(),
{
    if comps.len() > 0 {
        let name = comps[0];
        let path = joined_path(node.path, name);
        let cs = children_of(node);
        let k = child_index(cs, name);
        lemma_child_index(cs, name);
        let child = if k >= 0 {
            cs[k]
        } else {
            new_node(name, path, comps.len() == 1)
        };
        assert(child.path == path && child.name == name && paths_follow_names(child));
        let rest = comps.drop_first();
        let grown = inserted(child, path, rest);
        law_inserted_paths_follow_names(child, rest);
        lemma_inserted_name(child, path, rest);
        let out = if k >= 0 {
            cs.update(k, grown)
        } else {
            cs.push(grown)
        };
        assert forall|i: int| 0 <= i < out.len() implies (#[trigger] out[i]).path == joined_path(
            node.path,
            out[i].name,
        ) && paths_follow_names(out[i]) by {
            if i < cs.len() && i != k {
                assert(out[i] == cs[i]);
            }
        }
    }
}

proof fn lemma_tree_of_paths(root: Seq<char>, ws: Seq<WalkedEntry>)
    ensures
        paths_follow_names(tree_of(root, ws)),
        tree_of(root, ws).path == root,
    decreases ws.len(),
{
    if ws.len() > 0 {
        lemma_tree_of_paths(root, ws.drop_last());
        let w = ws.last();
        if is_markdown_file(w) {
            match stripped_path(w.path@, root) {
                Some(rel) => {
                    law_inserted_paths_follow_names(tree_of(root, ws.drop_last()), components_of(rel));
                },
                None => {},
            }
        }
    }
}

proof fn lemma_sorted_tree_paths(e: EntryView)
    requires
        paths_follow_names(e),
    ensures
        paths_follow_names(sorted_tree(e)),
        sorted_tree(e).path == e.path,
        sorted_tree(e).name == e.name,
    decreases e,
{
    match e.children {
        Some(cs) => {
            let st = sorted_trees(cs);
            lemma_sorted_trees(cs);
            lemma_sorted_in_order(st);
            let out = sorted_in_order(st);
            assert forall|i: int| 0 <= i < out.len() implies (#[trigger] out[i]).path
                == joined_path(e.path, out[i].name) && paths_follow_names(out[i]) by {
                assert(out.contains(out[i]));
                lemma_sorted_members(st, out[i]);
                let k = choose|k: int| 0 <= k < st.len() && st[k] == out[i];
                assert(st[k] == sorted_tree(cs[k]));
                lemma_sorted_tree_paths(cs[k]);
            }
        },
        None => {},
    }
}

/// In the tree of a walk, every node below the root has as its path its
/// parent's path joined with its own name.
pub proof fn law_walk_paths_follow_names(root: Seq<char>, ws: Seq<WalkedEntry>)
    ensures
        paths_follow_names(sorted_tree(tree_of(root, ws))),
        sorted_tree(tree_of(root, ws)).path == root,
{
    lemma_tree_of_paths(root, ws);
    lemma_sorted_tree_paths(tree_of(root, ws));
}

/// `base` joined with each of `comps` in turn.
pub open spec fn joined_all(base: Seq<char>, comps: Seq<Seq<char>>) -> Seq<char>
    decreases comps.len(),
{
    if comps.len() == 0 {
        base
    } else {
        joined_all(joined_path(base, comps[0]), comps.drop_first())
    }
}

/// Following children named `comps` from `e` reaches a node whose path is
/// `path`.
pub open spec fn reaches(e: EntryView, comps: Seq<Seq<char>>, path: Seq<char>) -> bool
    decreases comps.len(),
{
    if comps.len() == 0 {
        e.path == path
    } else {
        exists|i: int|
            0 <= i < children_of(e).len() && (#[trigger] children_of(e)[i]).name == comps[0]
                && reaches(children_of(e)[i], comps.drop_first(), path)
    }
}

proof fn lemma_inserted_reaches_new(node: EntryView, comps: Seq<Seq<char>>)
    requires
        paths_follow_names(node),
    ensures
        reaches(inserted(node, node.path, comps), comps, joined_all(node.path, comps)),
    decreases comps.len(),
{
    if comps.len() > 0 {
        let name = comps[0];
        let path = joined_path(node.path, name);
        let cs = children_of(node);
        let k = child_index(cs, name);
        lemma_child_index(cs, name);
        let child = if k >= 0 {
            cs[k]
        } else {
            new_node(name, path, comps.len() == 1)
        };
        assert(child.path == path && child.name == name && paths_follow_names(child));
        let rest = comps.drop_first();
        let grown = inserted(child, path, rest);
        lemma_inserted_reaches_new(child, rest);
        lemma_inserted_name(child, path, rest);
        let out = children_of(inserted(node, node.path, comps));
        let at = if k >= 0 {
            k
        } else {
            cs.len() as int
        };
        assert(out[at] == grown);
        assert(reaches(out[at], rest, joined_all(node.path, comps)));
    }
}

proof fn lemma_inserted_keeps_reach(
    node: EntryView,
    base: Seq<char>,
    comps: Seq<Seq<char>>,
    other: Seq<Seq<char>>,
    p: Seq<char>,
)
    requires
        reaches(node, other, p),
    ensures
        reaches(inserted(node, base, comps), other, p),
    decreases other.len(),
{
    lemma_inserted_name(node, base, comps);
    if other.len() > 0 && comps.len() > 0 {
        let cs = children_of(node);
        let i = choose|i: int|
            0 <= i < cs.len() && (#[trigger] cs[i]).name == other[0] && reaches(
                cs[i],
                other.drop_first(),
                p,
            );
        let name = comps[0];
        let path = joined_path(base, name);
        let k = child_index(cs, name);
        lemma_child_index(cs, name);
        let out = children_of(inserted(node, base, comps));
        if i == k {
            let grown = inserted(cs[k], path, comps.drop_first());
            lemma_inserted_keeps_reach(cs[k], path, comps.drop_first(), other.drop_first(), p);
            lemma_inserted_name(cs[k], path, comps.drop_first());
            assert(out[i] == grown);
        } else {
            assert(out[i] == cs[i]);
        }
        assert(reaches(out[i], other.drop_first(), p));
    }
}

proof fn lemma_sorted_has(s: Seq<EntryView>, y: EntryView)
    requires
        s.contains(y),
    ensures
        sorted_in_order(s).contains(y),
{
    lemma_sorted_in_order(s);
    vstd::seq_lib::to_multiset_contains(sorted_in_order(s), y);
    vstd::seq_lib::to_multiset_contains(s, y);
}

proof fn lemma_sorted_keeps_reach(e: EntryView, comps: Seq<Seq<char>>, p: Seq<char>)
    requires
        reaches(e, comps, p),
    ensures
        reaches(sorted_tree(e), comps, p),
    decreases comps.len(),
{
    if comps.len() > 0 {
        let cs = children_of(e);
        let i = choose|i: int|
            0 <= i < cs.len() && (#[trigger] cs[i]).name == comps[0] && reaches(
                cs[i],
                comps.drop_first(),
                p,
            );
        let cs0 = e.children->0;
        let st = sorted_trees(cs0);
        lemma_sorted_trees(cs0);
        assert(st[i] == sorted_tree(cs[i]));
        lemma_sorted_has(st, st[i]);
        let out = sorted_in_order(st);
        assert(children_of(sorted_tree(e)) == out);
        let m = choose|m: int| 0 <= m < out.len() && out[m] == st[i];
        lemma_sorted_keeps_reach(cs[i], comps.drop_first(), p);
        assert(reaches(out[m], comps.drop_first(), p));
    }
}

/// A walked markdown file below the root whose relative path is `rel`.
pub open spec fn kept_file(root: Seq<char>, w: WalkedEntry, rel: Seq<char>) -> bool {
    is_markdown_file(w) && stripped_path(w.path@, root) == Some(rel)
}

proof fn lemma_tree_of_reaches(root: Seq<char>, ws: Seq<WalkedEntry>, j: int, rel: Seq<char>)
    requires
        0 <= j < ws.len(),
        kept_file(root, ws[j], rel),
    ensures
        reaches(tree_of(root, ws), components_of(rel), joined_all(root, components_of(rel))),
    decreases ws.len(),
{
    let p = ws.drop_last();
    let w = ws.last();
    lemma_tree_of_paths(root, p);
    if j == ws.len() - 1 {
        lemma_inserted_reaches_new(tree_of(root, p), components_of(rel));
    } else {
        assert(p[j] == ws[j]);
        lemma_tree_of_reaches(root, p, j, rel);
        if is_markdown_file(w) {
            match stripped_path(w.path@, root) {
                Some(rel2) => {
                    lemma_inserted_keeps_reach(
                        tree_of(root, p),
                        root,
                        components_of(rel2),
                        components_of(rel),
                        joined_all(root, components_of(rel)),
                    );
                },
                None => {},
            }
        }
    }
}

/// Every regular markdown file of the walk that lies under the root is in
/// the tree, however deep: following the components of its path relative
/// to the root, from the root, reaches a node whose path is the root joined
/// with those components.
pub proof fn law_walk_keeps_every_markdown_file(
    root: Seq<char>,
    ws: Seq<WalkedEntry>,
    j: int,
    rel: Seq<char>,
)
    requires
        0 <= j < ws.len(),
        kept_file(root, ws[j], rel),
    ensures
        reaches(
            sorted_tree(tree_of(root, ws)),
            components_of(rel),
            joined_all(root, components_of(rel)),
        ),
{
    lemma_tree_of_reaches(root, ws, j, rel);
    lemma_sorted_keeps_reach(tree_of(root, ws), components_of(rel), joined_all(root, components_of(rel)));
}

} // verus!
