use vstd::prelude::*;

verus! {

/// A node in a folder tree that has been filtered down to markdown files.
/// Directories with no markdown files anywhere beneath them are never
/// created, so every directory below the root has at least one child.
#[derive(Debug)]
pub struct MarkdownEntry {
    pub name: String,
    pub path: String,
    pub is_dir: bool,
    pub children: Option<Vec<MarkdownEntry>>,
}

/// One entry of the recent-files list as the frontend shows it.
#[derive(Debug)]
pub struct RecentEntry {
    pub name: String,
    pub path: String,
    pub exists: bool,
}

/// The mathematical value of a [`MarkdownEntry`]: its strings as character
/// sequences and its children, recursively, as a sequence of such values.
pub struct EntryView {
    pub name: Seq<char>,
    pub path: Seq<char>,
    pub is_dir: bool,
    pub children: Option<Seq<EntryView>>,
}

/// The value of each entry of `s`, in order.
pub open spec fn entries_view(s: Seq<MarkdownEntry>) -> Seq<EntryView>
    decreases s,
{
    if s.len() == 0 {
        Seq::empty()
    } else {
        entries_view(s.subrange(0, s.len() - 1)).push(entry_view(s[s.len() - 1]))
    }
}

/// The value of one entry.
pub open spec fn entry_view(e: MarkdownEntry) -> EntryView
    decreases e,
{
    EntryView {
        name: e.name@,
        path: e.path@,
        is_dir: e.is_dir,
        children: match e.children {
            Some(v) => Some(entries_view(v@)),
            None => None,
        },
    }
}

impl View for MarkdownEntry {
    type V = EntryView;

    open spec fn view(&self) -> EntryView {
        entry_view(*self)
    }
}

} // verus!
