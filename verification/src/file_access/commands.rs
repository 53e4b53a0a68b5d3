//! The decisions behind the file commands.

use vstd::prelude::*;
use crate::file_access::error::FileAccessError;
use crate::file_access::paths::{file_name, file_name_of, is_markdown, markdown_name};

verus! {

/// Whether `path` names a markdown file: its final component has the
/// extension `md` or `markdown`, in any ASCII case.
pub fn is_markdown_path(path: &str) -> (b: bool)
    ensures
        b == is_markdown(path@),
{
    match file_name(path) {
        Some(name) => markdown_name(name.as_str()),
        None => false,
    }
}

/// The check that comes before a markdown file is read: the path is handed
/// back when it names a markdown file, and refused otherwise.
pub fn markdown_file_target(path: String) -> (res: Result<String, FileAccessError>)
    ensures
        match res {
            Ok(p) => is_markdown(path@) && p@ == path@,
            Err(FileAccessError::NotMarkdown { path: p }) => !is_markdown(path@) && p@ == path@,
            Err(_) => false,
        },
{
    if is_markdown_path(path.as_str()) {
        Ok(path)
    } else {
        Err(FileAccessError::NotMarkdown { path })
    }
}

} // verus!
