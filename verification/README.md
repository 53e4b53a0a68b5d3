# filaro

The rules behind Filaro, a view-only markdown previewer, as a Verus library.

- `src/file_access/paths.rs`: the `std::path` operations the rules rely on
  (named results of trusted calls) and the markdown-extension rule.
- `src/file_access/recent.rs`: the recent-files list: at most 20 entries, no
  duplicates, files only, most-recent-first; its JSON form and how a stored
  path becomes an entry.
- `src/file_access/walk.rs`: building the tree of markdown files of a folder
  walk, inserting files and sorting every directory's children.
- `src/file_access/json.rs`: the `serde_json` calls for the stored list.
- `src/file_access/{commands,error,model}.rs`, `src/resource_usage.rs`,
  `src/window.rs`: the remaining decisions, errors and data model.
- `app/`: the desktop shell: Tauri commands, file system, `walkdir`,
  `sysinfo`, floating-point sizing, and serde forms of the library's types.
- `tests/`: scenarios run against the compiled library.
