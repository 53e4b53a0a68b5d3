//! The JSON form in which the recent-files list is stored: a JSON array of
//! path strings, written by `serde_json::to_string_pretty` and read back by
//! `serde_json::from_str`.

use vstd::prelude::*;

verus! {

/// `serde_json::Error` is carried from the calls below to the code that
/// turns it into a [`crate::file_access::FileAccessError`].
#[verifier::external_type_specification]
#[verifier::external_body]
pub struct ExJsonError(serde_json::Error);

/// What `serde_json::from_str::<Vec<String>>` gives for a text: the
/// strings of the array when the text is a JSON array of strings, none
/// otherwise.
pub uninterp spec fn json_path_list(text: Seq<char>) -> Option<Seq<Seq<char>>>;

/// What `serde_json::to_string_pretty` gives for a list of strings.
pub uninterp spec fn json_pretty_path_list(paths: Seq<Seq<char>>) -> Seq<char>;

/// The texts of a sequence of strings.
pub open spec fn views(s: Seq<String>) -> Seq<Seq<char>> {
    s.map_values(|x: String| x@)
}

/// Calls `serde_json::from_str::<Vec<String>>`. The contract states that the
/// outcome is the named value [`json_path_list`] of the text: `Ok` with
/// those strings exactly when it is some list.
#[verifier::external_body]
pub(crate) fn decode_path_list(text: &str) -> (res: Result<Vec<String>, serde_json::Error>)
    ensures
        match res {
            Ok(v) => json_path_list(text@) == Some(views(v@)),
            Err(_) => json_path_list(text@) is None,
        },
{
    serde_json::from_str::<Vec<String>>(text)
}

/// Calls `serde_json::to_string_pretty` on a list of strings. The contract
/// states that it succeeds (its documentation names only two causes of
/// failure: a `Serialize` impl that fails, and a map with non-string keys;
/// a list of strings has neither), that the text is the named value
/// [`json_pretty_path_list`] of the list, and that reading that text back
/// with `serde_json::from_str` gives the same strings: `serde_json` writes
/// each string as a JSON string literal whose escapes its reader undoes.
#[verifier::external_body]
pub(crate) fn encode_path_list(paths: &Vec<String>) -> (res: Result<String, serde_json::Error>)
    ensures
        res is Ok,
        res matches Ok(text) ==> text@ == json_pretty_path_list(views(paths@)) && json_path_list(
            text@,
        ) == Some(views(paths@)),
{
    serde_json::to_string_pretty(paths)
}

/// Calls `serde_json::Error`'s `Display` (through `to_string`). Nothing is
/// stated of the text.
#[verifier::external_body]
pub(crate) fn json_error_text(error: &serde_json::Error) -> String {
    error.to_string()
}

} // verus!
