//! The path operations of `std::path` that the file-access rules rely on,
//! and the markdown-extension rule built on them.
//!
//! How `std::path` splits a path into components, finds its final
//! component or joins two paths is a matter of the platform's path syntax;
//! those results are given names here and the calls that produce them are
//! the trusted items below. What is decided on top of them is verified.

use vstd::prelude::*;

verus! {

/// What `Path::file_name` gives for a path, as text.
pub uninterp spec fn file_name_of(path: Seq<char>) -> Option<Seq<char>>;

/// What `Path::components` gives for a path, each component as text.
pub uninterp spec fn components_of(path: Seq<char>) -> Seq<Seq<char>>;

/// What `PathBuf::push` followed by `display` gives for a base path and a
/// component pushed onto it.
pub uninterp spec fn joined_path(base: Seq<char>, component: Seq<char>) -> Seq<char>;

/// What `Path::strip_prefix` gives for a path and a prefix, as text.
pub uninterp spec fn stripped_path(path: Seq<char>, prefix: Seq<char>) -> Option<Seq<char>>;

/// What `str::to_lowercase` gives for a text.
pub uninterp spec fn lowercased(text: Seq<char>) -> Seq<char>;

/// The name shown for a path: its final component, or the whole path when
/// it has none.
pub open spec fn display_name(path: Seq<char>) -> Seq<char> {
    match file_name_of(path) {
        Some(name) => name,
        None => path,
    }
}

/// The text of an optional string.
pub open spec fn opt_view(o: Option<String>) -> Option<Seq<char>> {
    match o {
        Some(s) => Some(s@),
        None => None,
    }
}

/// Calls `Path::file_name` and converts the result to a `String`
/// (lossless here: the path came from a `&str`). The contract states that
/// the result is the named value [`file_name_of`] of the path.
#[verifier::external_body]
pub(crate) fn file_name(path: &str) -> (name: Option<String>)
    ensures
        opt_view(name) == file_name_of(path@),
{
    match std::path::Path::new(path).file_name() {
        Some(n) => Some(n.to_string_lossy().into_owned()),
        None => None,
    }
}

/// Calls `Path::components`, each component converted to a `String`. The
/// contract states that the result is the named value [`components_of`].
#[verifier::external_body]
pub(crate) fn components(path: &str) -> (parts: Vec<String>)
    ensures
        parts@.map_values(|p: String| p@) == components_of(path@),
{
    let mut parts = Vec::new();
    for c in std::path::Path::new(path).components() {
        parts.push(c.as_os_str().to_string_lossy().into_owned());
    }
    parts
}

/// Calls `PathBuf::push` on a copy of `base` and renders the result with
/// `display`. The contract states that the result is the named value
/// [`joined_path`].
#[verifier::external_body]
pub(crate) fn join(base: &str, component: &str) -> (joined: String)
    ensures
        joined@ == joined_path(base@, component@),
{
    let mut buf = std::path::PathBuf::from(base);
    buf.push(component);
    buf.display().to_string()
}

/// Calls `Path::strip_prefix` and converts the remainder to a `String`.
/// The contract states that the result is the named value
/// [`stripped_path`].
#[verifier::external_body]
pub(crate) fn strip_prefix(path: &str, prefix: &str) -> (rest: Option<String>)
    ensures
        opt_view(rest) == stripped_path(path@, prefix@),
{
    match std::path::Path::new(path).strip_prefix(prefix) {
        Ok(rest) => Some(rest.to_string_lossy().into_owned()),
        Err(_) => None,
    }
}

/// Calls `str::to_lowercase`. The contract states that the result is the
/// named value [`lowercased`].
#[verifier::external_body]
pub(crate) fn to_lowercase(text: &str) -> (lower: String)
    ensures
        lower@ == lowercased(text@),
{
    text.to_lowercase()
}

/// Index of the last `'.'` in `name`, or -1 when there is none.
pub open spec fn last_dot_index(name: Seq<char>) -> int
    decreases name.len(),
{
    if name.len() == 0 {
        -1
    } else if name.last() == '.' {
        name.len() - 1
    } else {
        last_dot_index(name.drop_last())
    }
}

/// The extension of a file name as `std::path` defines it: the text after
/// the final `'.'`, or none when the name has no `'.'` or its only `'.'`
/// is the first character.
pub open spec fn extension_of(name: Seq<char>) -> Option<Seq<char>> {
    let k = last_dot_index(name);
    if k <= 0 {
        None
    } else {
        Some(name.subrange(k + 1, name.len() as int))
    }
}

/// The code of a character after ASCII lowercasing.
pub open spec fn ascii_lower_code(c: char) -> u32 {
    let u = c as u32;
    if 65 <= u && u <= 90 {
        (u + 32) as u32
    } else {
        u
    }
}

/// Equality up to ASCII case, as `str::eq_ignore_ascii_case`.
pub open spec fn eq_ignore_ascii_case(a: Seq<char>, b: Seq<char>) -> bool {
    &&& a.len() == b.len()
    &&& forall|i: int| 0 <= i < a.len() ==> ascii_lower_code(a[i]) == ascii_lower_code(b[i])
}

/// `md`
pub open spec fn md_ext() -> Seq<char> {
    seq!['m', 'd']
}

/// `markdown`
pub open spec fn markdown_ext() -> Seq<char> {
    seq!['m', 'a', 'r', 'k', 'd', 'o', 'w', 'n']
}

/// A file name whose extension is `md` or `markdown`, in any ASCII case.
pub open spec fn is_markdown_name(name: Seq<char>) -> bool {
    match extension_of(name) {
        Some(ext) => eq_ignore_ascii_case(ext, md_ext()) || eq_ignore_ascii_case(
            ext,
            markdown_ext(),
        ),
        None => false,
    }
}

/// A path whose final component is a markdown file name.
pub open spec fn is_markdown(path: Seq<char>) -> bool {
    match file_name_of(path) {
        Some(name) => is_markdown_name(name),
        None => false,
    }
}

proof fn lemma_last_dot(name: Seq<char>)
    ensures
        -1 <= last_dot_index(name) < name.len(),
        last_dot_index(name) >= 0 ==> name[last_dot_index(name)] == '.',
        forall|j: int| last_dot_index(name) < j < name.len() ==> name[j] != '.',
    decreases name.len(),
{
    if name.len() > 0 && name.last() != '.' {
        let prefix = name.drop_last();
        lemma_last_dot(prefix);
        assert forall|j: int| last_dot_index(name) < j < name.len() implies name[j] != '.' by {
            if j < name.len() - 1 {
                assert(prefix[j] == name[j]);
            }
        }
    }
}

/// Index of the last `'.'` in `name`.
fn last_dot(name: &str) -> (k: Option<usize>)
    ensures
        match k {
            Some(i) => i == last_dot_index(name@) && i < name@.len(),
            None => last_dot_index(name@) == -1,
        },
{
    let len = name.unicode_len();
    let mut i = len;
    proof {
        lemma_last_dot(name@);
    }
    while i > 0
        invariant
            i <= len,
            len == name@.len(),
            forall|j: int| i <= j < len ==> name@[j] != '.',
            -1 <= last_dot_index(name@) < name@.len(),
            last_dot_index(name@) >= 0 ==> name@[last_dot_index(name@)] == '.',
            forall|j: int| last_dot_index(name@) < j < name@.len() ==> name@[j] != '.',
        decreases i,
    {
        if name.get_char(i - 1) == '.' {
            return Some(i - 1);
        }
        i = i - 1;
    }
    None
}

/// The code of a character after ASCII lowercasing.
fn lower_code(c: char) -> (u: u32)
    ensures
        u == ascii_lower_code(c),
{
    let u = c as u32;
    if 65 <= u && u <= 90 {
        u + 32
    } else {
        u
    }
}

/// Whether `name[start..]` equals `target` up to ASCII case.
fn tail_eq_ignore_ascii_case(name: &str, start: usize, target: &str) -> (b: bool)
    requires
        start <= name@.len(),
    ensures
        b == eq_ignore_ascii_case(name@.subrange(start as int, name@.len() as int), target@),
{
    let len = name.unicode_len();
    let tlen = target.unicode_len();
    let ghost tail = name@.subrange(start as int, name@.len() as int);
    if len - start != tlen {
        return false;
    }
    let mut i: usize = 0;
    while i < tlen
        invariant
            len == name@.len(),
            tlen == target@.len(),
            start <= len,
            len - start == tlen,
            tail == name@.subrange(start as int, len as int),
            i <= tlen,
            forall|j: int| 0 <= j < i ==> ascii_lower_code(tail[j]) == ascii_lower_code(target@[j]),
        decreases tlen - i,
    {
        if lower_code(name.get_char(start + i)) != lower_code(target.get_char(i)) {
            return false;
        }
        i = i + 1;
    }
    true
}

/// Whether a file name has the extension `md` or `markdown`, in any ASCII
/// case.
pub fn markdown_name(name: &str) -> (b: bool)
    ensures
        b == is_markdown_name(name@),
{
    proof {
        reveal_strlit("md");
        reveal_strlit("markdown");
        assert("md"@ =~= md_ext());
        assert("markdown"@ =~= markdown_ext());
    }
    let len = name.unicode_len();
    match last_dot(name) {
        Some(k) => {
            assert(k < len);
            if k == 0 {
                false
            } else {
                tail_eq_ignore_ascii_case(name, k + 1, "md") || tail_eq_ignore_ascii_case(
                    name,
                    k + 1,
                    "markdown",
                )
            }
        },
        None => false,
    }
}

/// `c` is the lowercase ASCII letter `lower` in either case.
pub open spec fn is_letter_either_case(c: char, lower: char) -> bool {
    c == lower || (c as u32) + 32 == (lower as u32)
}

/// `e` spells `md` in any ASCII case.
pub open spec fn spells_md(e: Seq<char>) -> bool {
    e.len() == 2 && is_letter_either_case(e[0], 'm') && is_letter_either_case(e[1], 'd')
}

/// `e` spells `markdown` in any ASCII case.
pub open spec fn spells_markdown(e: Seq<char>) -> bool {
    &&& e.len() == 8
    &&& is_letter_either_case(e[0], 'm')
    &&& is_letter_either_case(e[1], 'a')
    &&& is_letter_either_case(e[2], 'r')
    &&& is_letter_either_case(e[3], 'k')
    &&& is_letter_either_case(e[4], 'd')
    &&& is_letter_either_case(e[5], 'o')
    &&& is_letter_either_case(e[6], 'w')
    &&& is_letter_either_case(e[7], 'n')
}

proof fn lemma_letter(c: char, lower: char)
    requires
        97 <= (lower as u32) <= 122,
    ensures
        ascii_lower_code(c) == ascii_lower_code(lower) <==> is_letter_either_case(c, lower),
{
}

proof fn lemma_spells(e: Seq<char>)
    ensures
        eq_ignore_ascii_case(e, md_ext()) <==> spells_md(e),
        eq_ignore_ascii_case(e, markdown_ext()) <==> spells_markdown(e),
{
    let md = md_ext();
    let mk = markdown_ext();
    assert(md[0] == 'm' && md[1] == 'd');
    assert(mk[0] == 'm' && mk[1] == 'a' && mk[2] == 'r' && mk[3] == 'k');
    assert(mk[4] == 'd' && mk[5] == 'o' && mk[6] == 'w' && mk[7] == 'n');
    if e.len() == 2 {
        lemma_letter(e[0], 'm');
        lemma_letter(e[1], 'd');
        if spells_md(e) {
            assert forall|i: int| 0 <= i < e.len() implies ascii_lower_code(e[i])
                == ascii_lower_code(md[i]) by {
                if i == 0 {
                } else {
                }
            }
        }
        if eq_ignore_ascii_case(e, md) {
            assert(ascii_lower_code(e[0]) == ascii_lower_code(md[0]));
            assert(ascii_lower_code(e[1]) == ascii_lower_code(md[1]));
        }
    }
    if e.len() == 8 {
        lemma_letter(e[0], 'm');
        lemma_letter(e[1], 'a');
        lemma_letter(e[2], 'r');
        lemma_letter(e[3], 'k');
        lemma_letter(e[4], 'd');
        lemma_letter(e[5], 'o');
        lemma_letter(e[6], 'w');
        lemma_letter(e[7], 'n');
        if spells_markdown(e) {
            assert forall|i: int| 0 <= i < e.len() implies ascii_lower_code(e[i])
                == ascii_lower_code(mk[i]) by {
                if i == 0 {
                } else if i == 1 {
                } else if i == 2 {
                } else if i == 3 {
                } else if i == 4 {
                } else if i == 5 {
                } else if i == 6 {
                } else {
                }
            }
        }
        if eq_ignore_ascii_case(e, mk) {
            assert(ascii_lower_code(e[0]) == ascii_lower_code(mk[0]));
            assert(ascii_lower_code(e[1]) == ascii_lower_code(mk[1]));
            assert(ascii_lower_code(e[2]) == ascii_lower_code(mk[2]));
            assert(ascii_lower_code(e[3]) == ascii_lower_code(mk[3]));
            assert(ascii_lower_code(e[4]) == ascii_lower_code(mk[4]));
            assert(ascii_lower_code(e[5]) == ascii_lower_code(mk[5]));
            assert(ascii_lower_code(e[6]) == ascii_lower_code(mk[6]));
            assert(ascii_lower_code(e[7]) == ascii_lower_code(mk[7]));
        }
    }
}

/// A file name counts as markdown exactly when it has a `'.'` that is not
/// its first character, no `'.'` after that one, and the text after it
/// spells `md` or `markdown` in any ASCII case.
pub proof fn law_markdown_names(name: Seq<char>)
    ensures
        is_markdown_name(name) <==> exists|k: int|
            #![trigger name[k]]
            {
                &&& 0 < k < name.len()
                &&& name[k] == '.'
                &&& forall|j: int| k < j < name.len() ==> name[j] != '.'
                &&& (spells_md(name.subrange(k + 1, name.len() as int)) || spells_markdown(
                    name.subrange(k + 1, name.len() as int),
                ))
            },
{
    lemma_last_dot(name);
    let d = last_dot_index(name);
    if d > 0 {
        lemma_spells(name.subrange(d + 1, name.len() as int));
    }
    if exists|k: int|
        #![trigger name[k]]
        {
            &&& 0 < k < name.len()
            &&& name[k] == '.'
            &&& forall|j: int| k < j < name.len() ==> name[j] != '.'
            &&& (spells_md(name.subrange(k + 1, name.len() as int)) || spells_markdown(
                name.subrange(k + 1, name.len() as int),
            ))
        } {
        let k = choose|k: int|
            #![trigger name[k]]
            {
                &&& 0 < k < name.len()
                &&& name[k] == '.'
                &&& forall|j: int| k < j < name.len() ==> name[j] != '.'
                &&& (spells_md(name.subrange(k + 1, name.len() as int)) || spells_markdown(
                    name.subrange(k + 1, name.len() as int),
                ))
            };
        if d < k {
            assert(name[k] != '.');
        }
        if d > k {
            assert(name[d] != '.');
        }
        assert(d == k);
    }
    if is_markdown_name(name) {
        assert(name[d] == '.');
    }
}

/// The name shown for a path is its final component whenever it has one,
/// and the whole path only when it has none.
pub proof fn law_display_name(path: Seq<char>)
    ensures
        file_name_of(path) matches Some(n) ==> display_name(path) == n,
        file_name_of(path) is None ==> display_name(path) == path,
{
}

} // verus!
