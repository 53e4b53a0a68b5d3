use vstd::prelude::*;

verus! {

/// `std::io::Error` is carried by [`FileAccessError::Io`] as it is.
#[verifier::external_type_specification]
#[verifier::external_body]
pub struct ExIoError(std::io::Error);

/// Errors surfaced from the file-access layer to the frontend.
#[derive(Debug)]
pub enum FileAccessError {
    Io { path: String, source: std::io::Error },
    Dialog(String),
    NotMarkdown { path: String },
    NotADirectory { path: String },
    Config(String),
}

/// Calls `std::io::Error`'s `Display` (through `to_string`). Nothing is
/// stated of the text: it comes from the operating system's description of
/// the error.
#[verifier::external_body]
fn io_error_text(error: &std::io::Error) -> String {
    error.to_string()
}

/// Calls `std::io::Error::new` with `ErrorKind::Other` and the given message.
/// The error is opaque here; nothing is stated of it.
#[verifier::external_body]
pub(crate) fn other_io_error(message: &str) -> std::io::Error {
    std::io::Error::new(std::io::ErrorKind::Other, message.to_string())
}

/// The text shown for an I/O error on `path`, whose own description is
/// `detail`.
pub fn io_error_message(path: &str, detail: &str) -> (text: String)
    ensures
        text@ == "couldn't access \""@ + path@ + "\": "@ + detail@,
{
    let mut text = String::new();
    text.append("couldn't access \"");
    text.append(path);
    text.append("\": ");
    text.append(detail);
    text
}

impl FileAccessError {
    /// The text shown to the user for this error. For an I/O error it is
    /// [`io_error_message`] of the path and of the error's own description,
    /// which comes from the operating system.
    pub fn message(&self) -> (text: String)
        ensures
            match self {
                FileAccessError::Io { path, .. } => exists|detail: Seq<char>|
                    text@ == "couldn't access \""@ + path@ + "\": "@ + detail,
                FileAccessError::Dialog(message) => text@ == "dialog error: "@ + message@,
                FileAccessError::NotMarkdown { path } => text@ == "\""@ + path@
                    + "\" is not a markdown file"@,
                FileAccessError::NotADirectory { path } => text@ == "\""@ + path@
                    + "\" is not a directory"@,
                FileAccessError::Config(message) => text@ == "config error: "@ + message@,
            },
    {
        let mut text = String::new();
        match self {
            FileAccessError::Io { path, source } => {
                let detail = io_error_text(source);
                text = io_error_message(path.as_str(), detail.as_str());
            },
            FileAccessError::Dialog(message) => {
                text.append("dialog error: ");
                text.append(message.as_str());
            },
            FileAccessError::NotMarkdown { path } => {
                text.append("\"");
                text.append(path.as_str());
                text.append("\" is not a markdown file");
            },
            FileAccessError::NotADirectory { path } => {
                text.append("\"");
                text.append(path.as_str());
                text.append("\" is not a directory");
            },
            FileAccessError::Config(message) => {
                text.append("config error: ");
                text.append(message.as_str());
            },
        }
        text
    }
}

} // verus!
