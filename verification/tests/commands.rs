use filaro::file_access::commands::{is_markdown_path, markdown_file_target};
use filaro::file_access::FileAccessError;
use filaro::resource_usage::ResourceUsageError;
use filaro::window::centered_position;

#[test]
fn markdown_paths_by_extension() {
    assert!(is_markdown_path("notes.md"));
    assert!(is_markdown_path("/a/b/Notes.MD"));
    assert!(is_markdown_path("guide.markdown"));
    assert!(is_markdown_path("guide.MARKDOWN"));
    assert!(is_markdown_path("dir.md/"));
    assert!(is_markdown_path("a.b.md"));
    assert!(!is_markdown_path("notes.txt"));
    assert!(!is_markdown_path("notes.mdx"));
    assert!(!is_markdown_path("notes"));
    assert!(!is_markdown_path(".md"));
    assert!(!is_markdown_path("/"));
    assert!(!is_markdown_path("x.md/.."));
    assert!(!is_markdown_path("notes.md."));
}

#[test]
fn reading_refuses_other_files() {
    assert_eq!(markdown_file_target("a.md".to_string()).unwrap(), "a.md");
    match markdown_file_target("a.txt".to_string()) {
        Err(FileAccessError::NotMarkdown { path }) => assert_eq!(path, "a.txt"),
        other => panic!("unexpected {other:?}"),
    }
}

#[test]
fn error_messages() {
    let e = FileAccessError::NotMarkdown { path: "a.txt".to_string() };
    assert_eq!(e.message(), "\"a.txt\" is not a markdown file");
    let e = FileAccessError::Dialog("cancelled".to_string());
    assert_eq!(e.message(), "dialog error: cancelled");
    let e = FileAccessError::Io {
        path: "/x".to_string(),
        source: std::io::Error::new(std::io::ErrorKind::Other, "boom"),
    };
    assert_eq!(e.message(), "couldn't access \"/x\": boom");
    assert_eq!(
        filaro::file_access::error::io_error_message("/y", "denied"),
        "couldn't access \"/y\": denied"
    );
    assert_eq!(ResourceUsageError::LockPoisoned.message(), "resource monitor is unavailable");
    assert_eq!(ResourceUsageError::ProcessNotFound.message(), "couldn't read the app's own process");
}

#[test]
fn windows_are_centered() {
    assert_eq!(centered_position(0, 1000, 700), 150);
    assert_eq!(centered_position(25, 1001, 700), 175);
    assert_eq!(centered_position(-1920, 1920, 1920), -1920);
    assert_eq!(centered_position(0, 600, 800), -100);
    assert_eq!(centered_position(10, 600, 801), -90);
}

#[test]
fn greeting() {
    assert_eq!(filaro::greet("Ada"), "Hello, Ada! You've been greeted from Rust!");
}
