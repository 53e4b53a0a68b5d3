//! The recent-files list: the rules it keeps on every write, how its stored
//! form is read back, and how each stored path becomes an entry.

use vstd::prelude::*;
use crate::file_access::error::FileAccessError;
use crate::file_access::json::{
    decode_path_list, encode_path_list, json_error_text, json_path_list, json_pretty_path_list,
    views,
};
use crate::file_access::model::RecentEntry;
use crate::file_access::paths::{display_name, file_name, file_name_of};

verus! {

/// Oldest entries beyond this are dropped on write, so the list can't grow
/// without bound and the existence check on read stays cheap.
pub const MAX_RECENT_FILES: usize = 20;

/// The paths, in order, of the candidates that are not directories.
pub open spec fn files_only(ps: Seq<(String, bool)>) -> Seq<Seq<char>>
    decreases ps.len(),
{
    if ps.len() == 0 {
        Seq::empty()
    } else {
        let rest = files_only(ps.drop_last());
        if ps.last().1 {
            rest
        } else {
            rest.push(ps.last().0@)
        }
    }
}

/// `s` with every element after its first occurrence removed.
pub open spec fn first_occurrences<A>(s: Seq<A>) -> Seq<A>
    decreases s.len(),
{
    if s.len() == 0 {
        Seq::empty()
    } else {
        let d = first_occurrences(s.drop_last());
        if d.contains(s.last()) {
            d
        } else {
            d.push(s.last())
        }
    }
}

/// The first `n` elements of `s`, or all of them when there are fewer.
pub open spec fn capped<A>(s: Seq<A>, n: nat) -> Seq<A> {
    if s.len() <= n {
        s
    } else {
        s.take(n as int)
    }
}

/// The recent list kept for candidates given most-recent-first: directories
/// dropped, each path at its frontmost place only, at most
/// [`MAX_RECENT_FILES`] of them.
pub open spec fn sanitized(ps: Seq<(String, bool)>) -> Seq<Seq<char>> {
    capped(first_occurrences(files_only(ps)), MAX_RECENT_FILES as nat)
}

/// `a` is a prefix of `b`.
pub open spec fn prefix_of<A>(a: Seq<A>, b: Seq<A>) -> bool {
    &&& a.len() <= b.len()
    &&& forall|i: int| 0 <= i < a.len() ==> a[i] == b[i]
}

/// No element occurs twice in `s`.
pub open spec fn no_duplicates<A>(s: Seq<A>) -> bool {
    forall|i: int, j: int| 0 <= i < s.len() && 0 <= j < s.len() && i != j ==> s[i] != s[j]
}

proof fn lemma_files_only_prefix(ps: Seq<(String, bool)>, n: int)
    requires
        0 <= n <= ps.len(),
    ensures
        prefix_of(files_only(ps.take(n)), files_only(ps)),
    decreases ps.len(),
{
    if n < ps.len() {
        lemma_files_only_prefix(ps.drop_last(), n);
        assert(ps.drop_last().take(n) =~= ps.take(n));
    } else {
        assert(ps.take(n) =~= ps);
    }
}

proof fn lemma_first_occurrences_prefix<A>(a: Seq<A>, b: Seq<A>)
    requires
        prefix_of(a, b),
    ensures
        prefix_of(first_occurrences(a), first_occurrences(b)),
    decreases b.len(),
{
    if a.len() == b.len() {
        assert(a =~= b);
    } else {
        lemma_first_occurrences_prefix(a, b.drop_last());
    }
}

proof fn lemma_first_occurrences_facts<A>(s: Seq<A>)
    ensures
        no_duplicates(first_occurrences(s)),
        first_occurrences(s).len() <= s.len(),
        forall|x: A| #[trigger] first_occurrences(s).contains(x) <==> s.contains(x),
    decreases s.len(),
{
    if s.len() > 0 {
        let p = s.drop_last();
        lemma_first_occurrences_facts(p);
        let d = first_occurrences(p);
        assert forall|x: A| #[trigger] first_occurrences(s).contains(x) <==> s.contains(x) by {
            if s.contains(x) && x != s.last() {
                let k = choose|k: int| 0 <= k < s.len() && s[k] == x;
                assert(p[k] == x);
                assert(p.contains(x));
            }
            if p.contains(x) {
                let k = choose|k: int| 0 <= k < p.len() && p[k] == x;
                assert(s[k] == x);
            }
            if !d.contains(s.last()) {
                assert(d.push(s.last())[d.len() as int] == s.last());
                if d.contains(x) {
                    let k = choose|k: int| 0 <= k < d.len() && d[k] == x;
                    assert(d.push(s.last())[k] == x);
                }
                if d.push(s.last()).contains(x) && x != s.last() {
                    let k = choose|k: int| 0 <= k < d.len() + 1 && d.push(s.last())[k] == x;
                    assert(d[k] == x);
                }
            }
            assert(s[s.len() - 1] == s.last());
        }
    }
}

proof fn lemma_first_occurrences_distinct<A>(s: Seq<A>)
    requires
        no_duplicates(s),
    ensures
        first_occurrences(s) == s,
    decreases s.len(),
{
    if s.len() > 0 {
        let p = s.drop_last();
        lemma_first_occurrences_distinct(p);
        if p.contains(s.last()) {
            let k = choose|k: int| 0 <= k < p.len() && p[k] == s.last();
            assert(s[k] == s[s.len() - 1]);
        }
        assert(p.push(s.last()) =~= s);
    }
}

/// Every path of `v` as text.
fn contains_path(v: &Vec<String>, p: &String) -> (b: bool)
    ensures
        b == views(v@).contains(p@),
{
    let mut j: usize = 0;
    while j < v.len()
        invariant
            j <= v.len(),
            forall|k: int| 0 <= k < j ==> v@[k]@ != p@,
        decreases v.len() - j,
    {
        if v[j] == *p {
            assert(views(v@)[j as int] == p@);
            return true;
        }
        j = j + 1;
    }
    assert forall|k: int| 0 <= k < views(v@).len() implies views(v@)[k] != p@ by {
        assert(views(v@)[k] == v@[k]@);
    }
    false
}

/// Enforces the recent list's rules on candidates given most-recent-first,
/// each with whether it currently resolves to a directory: directories are
/// dropped, duplicates collapse to their first (frontmost) occurrence, and
/// the result is capped to [`MAX_RECENT_FILES`], dropping whatever falls off
/// the end. A path that no longer exists is kept.
pub fn sanitize(paths: &[(String, bool)]) -> (result: Vec<String>)
    ensures
        views(result@) == sanitized(paths@),
{
    let mut result: Vec<String> = Vec::new();
    let mut i: usize = 0;
    let n = paths.len();
    let ghost ps = paths@;
    while i < n
        invariant_except_break
            i <= n,
            n == ps.len(),
            ps == paths@,
            views(result@) == first_occurrences(files_only(ps.take(i as int))),
            result.len() <= MAX_RECENT_FILES,
        ensures
            n == ps.len(),
            ps == paths@,
            i <= n,
            views(result@) == first_occurrences(files_only(ps.take(i as int))),
            i == n || result.len() == MAX_RECENT_FILES,
            result.len() <= MAX_RECENT_FILES,
        decreases n - i,
    {
        if result.len() == MAX_RECENT_FILES {
            break;
        }
        let entry = &paths[i];
        let ghost before = result@;
        proof {
            let rest = files_only(ps.take(i as int));
            assert(ps.take(i + 1).drop_last() =~= ps.take(i as int));
            assert(ps.take(i + 1).last() == ps[i as int]);
            if !ps[i as int].1 {
                assert(files_only(ps.take(i + 1)) == rest.push(ps[i as int].0@));
                assert(rest.push(ps[i as int].0@).drop_last() =~= rest);
                assert(rest.push(ps[i as int].0@).last() == ps[i as int].0@);
            } else {
                assert(files_only(ps.take(i + 1)) == rest);
            }
        }
        if !entry.1 {
            if !contains_path(&result, &entry.0) {
                let p = entry.0.clone();
                result.push(p);
                assert(views(result@) =~= views(before).push(entry.0@));
            }
        }
        i = i + 1;
    }
    proof {
        let full = first_occurrences(files_only(ps));
        let part = first_occurrences(files_only(ps.take(i as int)));
        lemma_files_only_prefix(ps, i as int);
        lemma_first_occurrences_prefix(files_only(ps.take(i as int)), files_only(ps));
        assert(views(result@).len() == result@.len());
        if i == n {
            assert(ps.take(i as int) =~= ps);
        } else {
            assert(part.len() == MAX_RECENT_FILES);
            assert(full.take(MAX_RECENT_FILES as int) =~= part);
            if full.len() <= MAX_RECENT_FILES {
                assert(full =~= part);
            }
        }
    }
    result
}

proof fn lemma_files_only_members(ps: Seq<(String, bool)>)
    ensures
        forall|x: Seq<char>| #[trigger]
            files_only(ps).contains(x) <==> exists|i: int|
                0 <= i < ps.len() && !ps[i].1 && ps[i].0@ == x,
    decreases ps.len(),
{
    if ps.len() > 0 {
        let p = ps.drop_last();
        lemma_files_only_members(p);
        let rest = files_only(p);
        assert forall|x: Seq<char>| #[trigger]
            files_only(ps).contains(x) <==> exists|i: int|
                0 <= i < ps.len() && !ps[i].1 && ps[i].0@ == x by {
            if files_only(ps).contains(x) {
                if rest.contains(x) {
                    let i = choose|i: int| 0 <= i < p.len() && !p[i].1 && p[i].0@ == x;
                    assert(ps[i] == p[i]);
                } else {
                    assert(!ps.last().1);
                    let k = choose|k: int| 0 <= k < rest.len() + 1 && rest.push(ps.last().0@)[k] == x;
                    if k < rest.len() {
                        assert(rest[k] == x);
                    }
                    assert(ps[ps.len() - 1] == ps.last());
                }
            }
            if exists|i: int| 0 <= i < ps.len() && !ps[i].1 && ps[i].0@ == x {
                let i = choose|i: int| 0 <= i < ps.len() && !ps[i].1 && ps[i].0@ == x;
                if i < ps.len() - 1 {
                    assert(p[i] == ps[i]);
                    assert(rest.contains(x));
                    if !ps.last().1 {
                        let k = choose|k: int| 0 <= k < rest.len() && rest[k] == x;
                        assert(rest.push(ps.last().0@)[k] == x);
                    }
                } else {
                    assert(rest.push(ps.last().0@)[rest.len() as int] == x);
                }
            }
        }
    }
}

proof fn lemma_files_only_front(x: (String, bool), ps: Seq<(String, bool)>)
    requires
        !x.1,
    ensures
        files_only(seq![x] + ps) == seq![x.0@] + files_only(ps),
    decreases ps.len(),
{
    if ps.len() == 0 {
        assert(seq![x] + ps =~= seq![x]);
        assert(seq![x].drop_last() =~= Seq::<(String, bool)>::empty());
        assert(seq![x].last() == x);
        assert(files_only(Seq::<(String, bool)>::empty()) =~= Seq::<Seq<char>>::empty());
        assert(files_only(ps) =~= Seq::<Seq<char>>::empty());
        assert(files_only(seq![x]) =~= Seq::<Seq<char>>::empty().push(x.0@));
        assert(files_only(seq![x]) =~= seq![x.0@] + files_only(ps));
    } else {
        lemma_files_only_front(x, ps.drop_last());
        assert((seq![x] + ps).drop_last() =~= seq![x] + ps.drop_last());
        assert((seq![x] + ps).last() == ps.last());
        if !ps.last().1 {
            assert(seq![x.0@] + files_only(ps.drop_last()).push(ps.last().0@) =~= (seq![x.0@]
                + files_only(ps.drop_last())).push(ps.last().0@));
        }
    }
}

proof fn lemma_files_only_all_files(ps: Seq<(String, bool)>)
    requires
        forall|i: int| 0 <= i < ps.len() ==> !(#[trigger] ps[i]).1,
    ensures
        files_only(ps) =~= Seq::new(ps.len(), |i: int| ps[i].0@),
    decreases ps.len(),
{
    if ps.len() > 0 {
        let p = ps.drop_last();
        assert forall|i: int| 0 <= i < p.len() implies !(#[trigger] p[i]).1 by {
            assert(p[i] == ps[i]);
        }
        lemma_files_only_all_files(p);
        assert(!ps[ps.len() - 1].1);
    }
}

proof fn lemma_first_occurrences_first<A>(s: Seq<A>)
    requires
        s.len() > 0,
    ensures
        first_occurrences(s).len() > 0,
        first_occurrences(s)[0] == s[0],
    decreases s.len(),
{
    if s.len() == 1 {
        assert(s.drop_last() =~= Seq::<A>::empty());
        assert(first_occurrences(s.drop_last()) =~= Seq::<A>::empty());
    } else {
        lemma_first_occurrences_first(s.drop_last());
        let d = first_occurrences(s.drop_last());
        if !d.contains(s.last()) {
            assert(d.push(s.last())[0] == d[0]);
        }
    }
}

proof fn lemma_capped_facts<A>(s: Seq<A>, n: nat)
    ensures
        capped(s, n).len() <= n,
        capped(s, n).len() == n || capped(s, n) == s,
        prefix_of(capped(s, n), s),
        no_duplicates(s) ==> no_duplicates(capped(s, n)),
        forall|x: A| #[trigger] capped(s, n).contains(x) ==> s.contains(x),
{
    assert forall|x: A| #[trigger] capped(s, n).contains(x) implies s.contains(x) by {
        let k = choose|k: int| 0 <= k < capped(s, n).len() && capped(s, n)[k] == x;
        assert(s[k] == x);
    }
}

/// The rules the recent list keeps after every write: it holds at most
/// [`MAX_RECENT_FILES`] paths, never the same path twice, and only paths
/// that were given and were not directories.
pub proof fn law_recent_list_rules(ps: Seq<(String, bool)>)
    ensures
        sanitized(ps).len() <= MAX_RECENT_FILES,
        no_duplicates(sanitized(ps)),
        forall|x: Seq<char>| #[trigger]
            sanitized(ps).contains(x) ==> exists|i: int|
                0 <= i < ps.len() && !ps[i].1 && ps[i].0@ == x,
{
    lemma_first_occurrences_facts(files_only(ps));
    lemma_capped_facts(first_occurrences(files_only(ps)), MAX_RECENT_FILES as nat);
    lemma_files_only_members(ps);
}

/// A path given as a file, whether it still exists or not, stays in the
/// list unless the list is already full.
pub proof fn law_files_kept_until_full(ps: Seq<(String, bool)>, i: int)
    requires
        0 <= i < ps.len(),
        !ps[i].1,
    ensures
        sanitized(ps).contains(ps[i].0@) || sanitized(ps).len() == MAX_RECENT_FILES,
{
    lemma_files_only_members(ps);
    assert(files_only(ps).contains(ps[i].0@));
    lemma_first_occurrences_facts(files_only(ps));
    lemma_capped_facts(first_occurrences(files_only(ps)), MAX_RECENT_FILES as nat);
}

/// Re-opening a file (prepending it to the previous list) puts it at the
/// top of the list, and, the list holding no path twice, nowhere else.
pub proof fn law_reopened_file_on_top(p: String, ps: Seq<(String, bool)>)
    ensures
        sanitized(seq![(p, false)] + ps).len() > 0,
        sanitized(seq![(p, false)] + ps)[0] == p@,
        forall|k: int|
            0 < k < sanitized(seq![(p, false)] + ps).len() ==> #[trigger] sanitized(
                seq![(p, false)] + ps,
            )[k] != p@,
{
    let qs = seq![(p, false)] + ps;
    lemma_files_only_front((p, false), ps);
    lemma_first_occurrences_first(files_only(qs));
    lemma_first_occurrences_facts(files_only(qs));
    lemma_capped_facts(first_occurrences(files_only(qs)), MAX_RECENT_FILES as nat);
    let full = first_occurrences(files_only(qs));
    assert(sanitized(qs)[0] == full[0]);
    assert forall|k: int| 0 < k < sanitized(qs).len() implies #[trigger] sanitized(qs)[k] != p@ by {
        assert(sanitized(qs)[k] == full[k]);
    }
}

/// Writing the list again as it was kept (its paths still files) keeps it
/// as it is.
pub proof fn law_sanitize_idempotent(ps: Seq<(String, bool)>, qs: Seq<(String, bool)>)
    requires
        qs.len() == sanitized(ps).len(),
        forall|i: int| 0 <= i < qs.len() ==> !(#[trigger] qs[i]).1 && qs[i].0@ == sanitized(ps)[i],
    ensures
        sanitized(qs) == sanitized(ps),
{
    law_recent_list_rules(ps);
    lemma_files_only_all_files(qs);
    assert(files_only(qs) =~= sanitized(ps));
    lemma_first_occurrences_distinct(sanitized(ps));
}

/// The entry shown for a stored path, given whether the path currently
/// resolves to a file. A path that is gone keeps its entry, flagged as
/// missing.
pub fn to_entry(path_str: String, exists: bool) -> (entry: RecentEntry)
    ensures
        entry.path@ == path_str@,
        entry.exists == exists,
        entry.name@ == display_name(path_str@),
        file_name_of(path_str@) matches Some(n) ==> entry.name@ == n,
        file_name_of(path_str@) is None ==> entry.name@ == path_str@,
{
    let name = match file_name(path_str.as_str()) {
        Some(n) => n,
        None => path_str.clone(),
    };
    RecentEntry { name, path: path_str, exists }
}

/// The paths held by a stored recent-files text: the strings of its JSON
/// array, or none when the text is not a JSON array of strings.
pub open spec fn stored_paths(text: Seq<char>) -> Seq<Seq<char>> {
    match json_path_list(text) {
        Some(paths) => paths,
        None => Seq::empty(),
    }
}

/// The paths of a stored recent-files text. A corrupt text yields an empty
/// list rather than an error: starting over with no recents is safe.
pub fn parse_recent_paths(contents: &str) -> (paths: Vec<String>)
    ensures
        views(paths@) == stored_paths(contents@),
{
    match decode_path_list(contents) {
        Ok(paths) => paths,
        Err(_) => Vec::new(),
    }
}

/// The text to store for a new recent list given most-recent-first: the
/// list as [`sanitize`] keeps it, as a pretty-printed JSON array. It is
/// always produced, and reading it back as a JSON array of strings gives
/// exactly the kept list.
pub fn recent_file_contents(paths: &[(String, bool)]) -> (res: Result<String, FileAccessError>)
    ensures
        res is Ok,
        res matches Ok(text) ==> text@ == json_pretty_path_list(sanitized(paths@)) && json_path_list(
            text@,
        ) == Some(sanitized(paths@)) && stored_paths(text@) == sanitized(paths@),
{
    let kept = sanitize(paths);
    match encode_path_list(&kept) {
        Ok(text) => Ok(text),
        Err(error) => Err(FileAccessError::Config(json_error_text(&error))),
    }
}

} // verus!
