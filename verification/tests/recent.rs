use filaro::file_access::recent::{
    parse_recent_paths, recent_file_contents, sanitize, to_entry, MAX_RECENT_FILES,
};
use filaro::file_access::{FileAccessError, RecentEntry};

const DIR: &str = "/tmp/filaro-recent-test";

fn file(name: &str) -> String {
    format!("{DIR}/{name}")
}

/// Writes the list as `write_recent_files` does, each candidate flagged with
/// whether it is a directory, and reads it back as `read_recent_files`
/// does, each stored path flagged with whether it is a file.
fn write_then_read(candidates: &[(String, bool)], is_file: impl Fn(&str) -> bool) -> Vec<RecentEntry> {
    let text = recent_file_contents(candidates).unwrap();
    parse_recent_paths(&text)
        .into_iter()
        .map(|p| {
            let exists = is_file(&p);
            to_entry(p, exists)
        })
        .collect()
}

fn as_files(paths: &[String]) -> Vec<(String, bool)> {
    paths.iter().map(|p| (p.clone(), false)).collect()
}

#[test]
fn empty_stored_list_reads_as_empty() {
    let entries: Vec<RecentEntry> = parse_recent_paths("[]").into_iter().map(|p| to_entry(p, true)).collect();
    assert!(entries.is_empty());
}

#[test]
fn empty_kept_list_reads_back_as_empty() {
    let text = recent_file_contents(&[("d".to_string(), true)]).unwrap();
    assert_eq!(text, "[]");
    assert!(parse_recent_paths(&text).is_empty());
}

#[test]
fn corrupt_config_file_returns_empty_list() {
    let entries = parse_recent_paths("{ not valid json");
    assert!(entries.is_empty());
}

#[test]
fn round_trips_and_flags_missing_files() {
    let present = file("present.md");
    let missing = file("missing.md");
    let paths = vec![present.clone(), missing.clone()];

    let entries = write_then_read(&as_files(&paths), |p| p == present);

    assert_eq!(entries.len(), 2);
    assert_eq!(entries[0].name, "present.md");
    assert!(entries[0].exists);
    assert_eq!(entries[1].name, "missing.md");
    assert!(!entries[1].exists);
}

#[test]
fn reopening_a_file_moves_it_to_the_top_without_duplicating() {
    let a = file("a.md");
    let b = file("b.md");
    let c = file("c.md");

    write_then_read(&as_files(&[a.clone(), b.clone(), c.clone()]), |_| true);
    // Simulate re-opening `b`: caller prepends it ahead of the previous list.
    let entries = write_then_read(&as_files(&[b.clone(), a.clone(), b.clone(), c.clone()]), |_| true);
    let paths: Vec<_> = entries.iter().map(|e| e.path.clone()).collect();

    assert_eq!(paths, vec![b, a, c]);
}

#[test]
fn caps_at_max_recent_files_dropping_the_oldest() {
    let paths: Vec<String> = (0..25).map(|i| file(&format!("{i}.md"))).collect();

    let entries = write_then_read(&as_files(&paths), |_| false);

    assert_eq!(entries.len(), MAX_RECENT_FILES);
    assert_eq!(entries.first().unwrap().path, paths[0]);
    assert_eq!(entries.last().unwrap().path, paths[MAX_RECENT_FILES - 1]);
}

#[test]
fn drops_paths_that_are_currently_directories() {
    let notes = file("notes.md");
    let folder = file("some-folder");
    let candidates = vec![(folder, true), (notes.clone(), false)];

    let entries = write_then_read(&candidates, |p| p == notes);

    assert_eq!(entries.len(), 1);
    assert_eq!(entries[0].name, "notes.md");
}

#[test]
fn sanitize_keeps_first_occurrence_order() {
    let list = vec![
        ("x.md".to_string(), false),
        ("y.md".to_string(), false),
        ("x.md".to_string(), false),
        ("dir".to_string(), true),
        ("z.md".to_string(), false),
        ("y.md".to_string(), false),
    ];
    assert_eq!(sanitize(&list), vec!["x.md", "y.md", "z.md"]);
}

#[test]
fn sanitize_of_nothing_is_nothing() {
    assert!(sanitize(&[]).is_empty());
    assert!(sanitize(&[("d".to_string(), true)]).is_empty());
}

#[test]
fn sanitize_is_idempotent_on_kept_list() {
    let paths: Vec<(String, bool)> = (0..30).map(|i| (format!("{}.md", i % 23), i % 7 == 0)).collect();
    let once = sanitize(&paths);
    let twice = sanitize(&as_files(&once));
    assert_eq!(once, twice);
    assert_eq!(once.len(), MAX_RECENT_FILES);
}

#[test]
fn sanitize_counts_only_kept_paths_toward_the_cap() {
    // Duplicates and directories before the cap do not use up places.
    let mut list = vec![("dup.md".to_string(), false); 10];
    list.extend((0..25).map(|i| (format!("d{i}"), true)));
    list.extend((0..25).map(|i| (format!("{i}.md"), false)));
    let kept = sanitize(&list);
    assert_eq!(kept.len(), MAX_RECENT_FILES);
    assert_eq!(kept[0], "dup.md");
    assert_eq!(kept[1], "0.md");
    assert_eq!(kept[19], "18.md");
}

#[test]
fn stored_text_is_pretty_json_array() {
    let text = recent_file_contents(&as_files(&["a.md".to_string(), "b \"q\".md".to_string()])).unwrap();
    assert_eq!(text, "[\n  \"a.md\",\n  \"b \\\"q\\\".md\"\n]");
    assert_eq!(parse_recent_paths(&text), vec!["a.md", "b \"q\".md"]);
}

#[test]
fn empty_list_is_stored_as_empty_array() {
    assert_eq!(recent_file_contents(&[]).unwrap(), "[]");
}

#[test]
fn non_string_arrays_are_not_paths() {
    assert!(parse_recent_paths("[1, 2]").is_empty());
    assert!(parse_recent_paths("").is_empty());
    assert_eq!(parse_recent_paths(" [ \"a\" ] "), vec!["a"]);
}

#[test]
fn entry_name_is_the_final_component() {
    let e = to_entry("/home/me/Documents/notes/todo.md".to_string(), true);
    assert_eq!(e.name, "todo.md");
    assert_eq!(e.path, "/home/me/Documents/notes/todo.md");
    assert!(e.exists);
    let root = to_entry("/".to_string(), false);
    assert_eq!(root.name, "/");
    assert!(!root.exists);
    let up = to_entry("a/..".to_string(), false);
    assert_eq!(up.name, "a/..");
}

#[test]
fn config_error_message() {
    let e = FileAccessError::Config("no config dir".to_string());
    assert_eq!(e.message(), "config error: no config dir");
}
