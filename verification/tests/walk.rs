use filaro::file_access::walk::{
    build_markdown_tree, has_markdown_extension, insert_file, sort_tree, WalkedEntry,
};
use filaro::file_access::{FileAccessError, MarkdownEntry};

const DIR: &str = "/tmp/filaro-walk-test";

fn walked(rel: &str, is_file: bool) -> WalkedEntry {
    WalkedEntry { path: format!("{DIR}/{rel}"), is_file }
}

fn names(entries: &[MarkdownEntry]) -> Vec<String> {
    entries.iter().map(|e| e.name.clone()).collect()
}

#[test]
fn filters_to_markdown_only_and_prunes_empty_dirs() {
    let walk = vec![
        walked("notes.md", true),
        walked("skip.txt", true),
        walked("docs", false),
        walked("docs/guide.markdown", true),
        walked("empty", false),
    ];

    let tree = build_markdown_tree(DIR, true, &walk).unwrap();
    let children = tree.children.unwrap();

    assert_eq!(children.len(), 2);
    assert_eq!(children[0].name, "docs");
    assert!(children[0].is_dir);
    assert_eq!(children[0].children.as_ref().unwrap()[0].name, "guide.markdown");
    assert_eq!(children[1].name, "notes.md");
    assert!(!children[1].is_dir);
}

#[test]
fn errors_when_root_is_not_a_directory() {
    let result = build_markdown_tree(&format!("{DIR}/file.md"), false, &vec![]);

    assert!(matches!(result, Err(FileAccessError::NotADirectory { .. })));
}

#[test]
fn root_node_describes_the_folder() {
    let tree = build_markdown_tree(DIR, true, &vec![]).unwrap();
    assert_eq!(tree.name, "filaro-walk-test");
    assert_eq!(tree.path, DIR);
    assert!(tree.is_dir);
    assert_eq!(tree.children.unwrap().len(), 0);
}

#[test]
fn paths_accumulate_below_the_root() {
    let walk = vec![walked("a/b/c.md", true)];
    let tree = build_markdown_tree(DIR, true, &walk).unwrap();
    let a = &tree.children.as_ref().unwrap()[0];
    assert_eq!(a.path, format!("{DIR}/a"));
    let b = &a.children.as_ref().unwrap()[0];
    assert_eq!(b.path, format!("{DIR}/a/b"));
    let c = &b.children.as_ref().unwrap()[0];
    assert_eq!(c.path, format!("{DIR}/a/b/c.md"));
    assert!(!c.is_dir);
    assert!(c.children.is_none());
}

#[test]
fn directories_first_then_names_ignoring_case() {
    let walk = vec![
        walked("b.md", true),
        walked("Zeta/x.md", true),
        walked("A.md", true),
        walked("alpha/y.md", true),
        walked("c.MD", true),
    ];
    let tree = build_markdown_tree(DIR, true, &walk).unwrap();
    assert_eq!(names(tree.children.as_ref().unwrap()), vec!["alpha", "Zeta", "A.md", "b.md", "c.MD"]);
}

#[test]
fn equal_lowercase_names_keep_walk_order() {
    let walk = vec![walked("Readme.md", true), walked("README.md", true), walked("readme.md", true)];
    let tree = build_markdown_tree(DIR, true, &walk).unwrap();
    assert_eq!(names(tree.children.as_ref().unwrap()), vec!["Readme.md", "README.md", "readme.md"]);
}

#[test]
fn walk_outside_root_is_an_io_error() {
    let walk = vec![WalkedEntry { path: "/elsewhere/x.md".to_string(), is_file: true }];
    match build_markdown_tree(DIR, true, &walk) {
        Err(FileAccessError::Io { path, .. }) => assert_eq!(path, "/elsewhere/x.md"),
        other => panic!("unexpected {other:?}"),
    }
}

#[test]
fn non_markdown_outside_root_is_ignored() {
    let walk = vec![WalkedEntry { path: "/elsewhere/x.txt".to_string(), is_file: true }];
    assert!(build_markdown_tree(DIR, true, &walk).is_ok());
}

#[test]
fn inserting_twice_changes_nothing() {
    let mut root = MarkdownEntry {
        name: "r".to_string(),
        path: "/r".to_string(),
        is_dir: true,
        children: Some(vec![]),
    };
    insert_file(&mut root, "/r", "d/e.md");
    insert_file(&mut root, "/r", "d/e.md");
    insert_file(&mut root, "/r", "d/f.md");
    let d = &root.children.as_ref().unwrap()[0];
    assert_eq!(root.children.as_ref().unwrap().len(), 1);
    assert_eq!(names(d.children.as_ref().unwrap()), vec!["e.md", "f.md"]);
}

#[test]
fn sorting_twice_is_sorting_once() {
    let walk = vec![walked("b/z.md", true), walked("a.md", true), walked("B/y.md", true)];
    let mut tree = build_markdown_tree(DIR, true, &walk).unwrap();
    let first: Vec<String> = names(tree.children.as_ref().unwrap());
    sort_tree(&mut tree);
    assert_eq!(names(tree.children.as_ref().unwrap()), first);
    assert_eq!(first, vec!["b", "B", "a.md"]);
}

#[test]
fn sort_tree_sorts_every_level() {
    let leaf = |n: &str| MarkdownEntry { name: n.to_string(), path: n.to_string(), is_dir: false, children: None };
    let mut root = MarkdownEntry {
        name: "r".to_string(),
        path: "r".to_string(),
        is_dir: true,
        children: Some(vec![
            leaf("z.md"),
            MarkdownEntry {
                name: "sub".to_string(),
                path: "sub".to_string(),
                is_dir: true,
                children: Some(vec![leaf("b.md"), leaf("A.md")]),
            },
            leaf("m.md"),
        ]),
    };
    sort_tree(&mut root);
    let cs = root.children.as_ref().unwrap();
    assert_eq!(names(cs), vec!["sub", "m.md", "z.md"]);
    assert_eq!(names(cs[0].children.as_ref().unwrap()), vec!["A.md", "b.md"]);
}

#[test]
fn markdown_extension_in_walk() {
    assert!(has_markdown_extension("/x/guide.markdown"));
    assert!(has_markdown_extension("/x/GUIDE.MarkDown"));
    assert!(!has_markdown_extension("/x/skip.txt"));
    assert!(!has_markdown_extension("/x/.md"));
}

#[test]
fn not_a_directory_message() {
    let e = FileAccessError::NotADirectory { path: "/x/file.md".to_string() };
    assert_eq!(e.message(), "\"/x/file.md\" is not a directory");
}
