//! File-access layer: the rules behind the commands that touch the file
//! system or native dialogs. The reading and writing themselves happen in
//! the application around this library; everything that decides stands here.

pub mod commands;
pub mod error;
pub mod json;
pub mod model;
pub mod paths;
pub mod recent;
pub mod walk;

pub use error::FileAccessError;
pub use model::{MarkdownEntry, RecentEntry};
