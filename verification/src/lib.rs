//! Filaro's file-access rules and data model: which paths count as markdown,
//! how the recent-files list is kept, how a folder walk becomes a tree of
//! markdown files, and the errors handed to the frontend.

pub mod file_access;
pub mod resource_usage;
pub mod window;

use vstd::prelude::*;

verus! {

/// The greeting sent back to the frontend for `name`.
pub fn greet(name: &str) -> (text: String)
    ensures
        text@ == "Hello, "@ + name@ + "! You've been greeted from Rust!"@,
{
    let mut text = String::new();
    text.append("Hello, ");
    text.append(name);
    text.append("! You've been greeted from Rust!");
    text
}

} // verus!
