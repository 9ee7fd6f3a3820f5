use mdlite::registry::{removed_folder_change_entries, FolderChangeEntry, PathRegistry};
use mdlite::watch::{dedupe_by_path, folder_batch, touches, FsEvent};
use std::path::PathBuf;

fn s(p: PathBuf) -> String {
    p.to_string_lossy().to_string()
}

#[test]
fn removed_folder_change_entries_expands_tracked_descendants() {
    let root = PathBuf::from("root");
    let mut registry = PathRegistry::new();
    registry.insert(s(root.join("docs").join("a.md")));
    registry.insert(s(root.join("docs").join("sub").join("b.md")));
    registry.insert(s(root.join("other.md")));

    let removed_dir = s(root.join("docs"));
    let mut entries = removed_folder_change_entries(&removed_dir, &mut registry);
    entries.sort_by(|a, b| a.path.cmp(&b.path));

    assert_eq!(entries.len(), 2);
    assert!(entries.iter().all(|e| !e.exists));
    assert!(entries.iter().all(|e| e.path_chain.is_empty()));
    assert!(entries.iter().any(|e| e.path.ends_with("a.md")));
    assert!(entries.iter().any(|e| e.path.ends_with("b.md")));

    assert_eq!(registry.len(), 1);
    assert!(registry.contains(&s(root.join("other.md"))));
}

#[test]
fn removed_folder_change_entries_noop_when_no_descendants_tracked() {
    let root = PathBuf::from("root");
    let mut registry = PathRegistry::new();
    registry.insert(s(root.join("other.md")));

    let removed_dir = s(root.join("unrelated"));
    let entries = removed_folder_change_entries(&removed_dir, &mut registry);

    assert!(entries.is_empty());
    assert_eq!(registry.len(), 1);
}

#[test]
fn removed_folder_change_entries_does_not_match_sibling_with_shared_prefix() {
    let root = PathBuf::from("root");
    let mut registry = PathRegistry::new();
    registry.insert(s(root.join("docs-extra").join("c.md")));

    let removed_dir = s(root.join("docs"));
    let entries = removed_folder_change_entries(&removed_dir, &mut registry);

    assert!(entries.is_empty());
    assert_eq!(registry.len(), 1);
}

#[test]
fn removed_folder_change_entries_matches_the_path_itself() {
    let mut registry = PathRegistry::new();
    registry.insert("root/a.md".to_string());
    let entries = removed_folder_change_entries("root/a.md", &mut registry);
    assert_eq!(entries.len(), 1);
    assert_eq!(entries[0].path, "root/a.md");
    assert_eq!(entries[0].name, "a.md");
    assert_eq!(registry.len(), 0);
}

#[test]
fn removal_entries_display_verbatim_paths() {
    let mut registry = PathRegistry::new();
    registry.insert(r"\\?\C:\root\docs\a.md".to_string());
    let entries = removed_folder_change_entries(r"\\?\C:\root\docs\a.md", &mut registry);
    assert_eq!(entries.len(), 1);
    assert_eq!(entries[0].path, r"C:\root\docs\a.md");
}

#[test]
fn registry_insert_remove_contains() {
    let mut r = PathRegistry::new();
    assert!(r.insert("a".to_string()));
    assert!(!r.insert("a".to_string()));
    assert!(r.insert("b".to_string()));
    assert_eq!(r.len(), 2);
    assert!(r.contains("a"));
    assert!(r.remove("a"));
    assert!(!r.remove("a"));
    assert!(!r.contains("a"));
    r.clear();
    assert_eq!(r.len(), 0);
}

fn change(path: &str, exists: bool) -> FolderChangeEntry {
    FolderChangeEntry { path: path.to_string(), name: String::new(), exists, path_chain: Vec::new() }
}

#[test]
fn dedupe_keeps_first_change_per_path() {
    let changes = vec![change("a", false), change("b", true), change("a", true), change("c", false), change("b", false)];
    let out = dedupe_by_path(changes);
    let got: Vec<(&str, bool)> = out.iter().map(|c| (c.path.as_str(), c.exists)).collect();
    assert_eq!(got, vec![("a", false), ("b", true), ("c", false)]);
}

fn event(path: &str, is_file: bool, exists: bool) -> FsEvent {
    FsEvent { path: path.to_string(), is_file, exists }
}

#[test]
fn touches_finds_the_open_file() {
    let events = vec![event("/r/a.md", true, true), event("/r/b.md", true, true)];
    assert!(touches(&events, "/r/b.md"));
    assert!(!touches(&events, "/r/c.md"));
}

#[test]
fn folder_batch_reports_created_file_with_chain() {
    let mut registry = PathRegistry::new();
    let events = vec![event("/r/docs/new.md", true, true), event("/r/docs/pic.png", true, true)];
    let batch = folder_batch(&events, "/r/open.md", true, &Some("/r".to_string()), &mut registry);
    assert!(!batch.current_touched);
    assert_eq!(batch.changes.len(), 1);
    let c = &batch.changes[0];
    assert_eq!(c.path, "/r/docs/new.md");
    assert_eq!(c.name, "new.md");
    assert!(c.exists);
    assert_eq!(c.path_chain.len(), 1);
    assert_eq!(c.path_chain[0].name, "docs");
    assert_eq!(c.path_chain[0].path, "/r/docs");
    assert!(registry.contains("/r/docs/new.md"));
}

#[test]
fn folder_batch_expands_deleted_folder() {
    let mut registry = PathRegistry::new();
    registry.insert("/r/docs/a.md".to_string());
    registry.insert("/r/docs/sub/b.md".to_string());
    registry.insert("/r/keep.md".to_string());
    let events = vec![event("/r/docs", false, false)];
    let batch = folder_batch(&events, "/r/keep.md", true, &Some("/r".to_string()), &mut registry);
    let mut paths: Vec<&str> = batch.changes.iter().map(|c| c.path.as_str()).collect();
    paths.sort();
    assert_eq!(paths, vec!["/r/docs/a.md", "/r/docs/sub/b.md"]);
    assert!(batch.changes.iter().all(|c| !c.exists));
    assert_eq!(registry.len(), 1);
}

#[test]
fn folder_batch_deleted_markdown_reported_once() {
    let mut registry = PathRegistry::new();
    registry.insert("/r/gone.md".to_string());
    let events = vec![event("/r/gone.md", false, false), event("/r/untracked.md", false, false)];
    let batch = folder_batch(&events, "", true, &Some("/r".to_string()), &mut registry);
    let paths: Vec<&str> = batch.changes.iter().map(|c| c.path.as_str()).collect();
    assert_eq!(paths, vec!["/r/gone.md", "/r/untracked.md"]);
    assert_eq!(registry.len(), 0);
}

#[test]
fn folder_batch_open_file_deleted() {
    let mut registry = PathRegistry::new();
    registry.insert("/r/open.md".to_string());
    let events = vec![event("/r/open.md", false, false)];
    let batch = folder_batch(&events, "/r/open.md", false, &Some("/r".to_string()), &mut registry);
    assert!(batch.current_touched);
    assert_eq!(batch.changes.len(), 1);
    assert_eq!(batch.changes[0].path, "/r/open.md");
    assert!(!batch.changes[0].exists);
    assert!(!registry.contains("/r/open.md"));
}

#[test]
fn folder_batch_ignores_existing_unrelated_paths() {
    let mut registry = PathRegistry::new();
    let events = vec![event("/r/dir", false, true), event("/r/data.json", true, true)];
    let batch = folder_batch(&events, "/r/open.md", true, &None, &mut registry);
    assert!(batch.changes.is_empty());
    assert_eq!(registry.len(), 0);
}

#[test]
fn touches_nothing_without_events() {
    assert!(!touches(&Vec::new(), "/r/a.md"));
}

#[test]
fn folder_batch_ignores_nameless_deleted_paths() {
    let mut registry = PathRegistry::new();
    registry.insert("/r/a.md".to_string());
    let events = vec![event("/r/x/..", false, false)];
    let batch = folder_batch(&events, "/r/open.md", true, &None, &mut registry);
    assert!(batch.changes.is_empty());
    assert_eq!(registry.len(), 1);
}

#[test]
fn folder_batch_creation_and_deletion_together() {
    let mut registry = PathRegistry::new();
    registry.insert("/r/d/a.md".to_string());
    registry.insert("/r/d-extra/c.md".to_string());
    let events = vec![event("/r/d", false, false), event("/r/n.md", true, true), event("/r/notes.txt", false, false)];
    let batch = folder_batch(&events, "/r/open.md", true, &Some("/r".to_string()), &mut registry);
    let got: Vec<(&str, bool)> = batch.changes.iter().map(|c| (c.path.as_str(), c.exists)).collect();
    assert_eq!(got, vec![("/r/d/a.md", false), ("/r/n.md", true)]);
    assert_eq!(batch.changes[0].name, "a.md");
    assert!(batch.changes[1].path_chain.is_empty());
    assert!(registry.contains("/r/d-extra/c.md"));
    assert!(registry.contains("/r/n.md"));
    assert!(!registry.contains("/r/d/a.md"));
    assert_eq!(registry.len(), 2);
}

#[test]
fn removed_folder_change_entries_second_call_removes_nothing() {
    let mut registry = PathRegistry::new();
    registry.insert("/r/docs/a.md".to_string());
    registry.insert("/r/docs-extra/b.md".to_string());
    let first = removed_folder_change_entries("/r/docs", &mut registry);
    assert_eq!(first.len(), 1);
    assert_eq!(first[0].name, "a.md");
    let second = removed_folder_change_entries("/r/docs", &mut registry);
    assert!(second.is_empty());
    assert_eq!(registry.len(), 1);
}

#[test]
fn folder_batch_windows_style_paths() {
    let mut registry = PathRegistry::new();
    registry.insert("C:\\r\\d\\a.md".to_string());
    let events = vec![event("C:\\r\\new.md", true, true), event("C:\\r\\pic.png", true, true)];
    let batch = folder_batch(&events, "C:\\r\\open.md", true, &None, &mut registry);
    assert_eq!(batch.changes.len(), 1);
    assert_eq!(batch.changes[0].path, "C:\\r\\new.md");
    assert!(batch.changes[0].exists);
    assert!(registry.contains("C:\\r\\new.md"));
    assert_eq!(registry.len(), 2);
}
