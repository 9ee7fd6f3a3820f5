use mdlite::registry::PathRegistry;
use mdlite::scan::{scan_batch, ScanWalk};
use mdlite::scan::{
    collect_markdown_files, compute_path_chain, find_default_file, scan_directory_entries, scan_folder,
    scan_folder_with_opts, DirItem, EntryKind,
};
use mdlite::text::display_path;
use std::path::Path;

const ROOT: &str = "/tmp/mdlite-test";

fn join(dir: &str, name: &str) -> String {
    Path::new(dir).join(name).to_string_lossy().to_string()
}

fn file(dir: &str, name: &str) -> DirItem {
    DirItem { name: name.to_string(), path: join(dir, name), hidden: name.starts_with('.'), kind: EntryKind::File }
}

fn folder(dir: &str, name: &str, children: Vec<DirItem>) -> DirItem {
    DirItem {
        name: name.to_string(),
        path: join(dir, name),
        hidden: name.starts_with('.'),
        kind: EntryKind::Directory(children),
    }
}

fn hidden_folder(dir: &str, name: &str, children: Vec<DirItem>) -> DirItem {
    let mut d = folder(dir, name, children);
    d.hidden = true;
    d
}

fn names(entries: &[mdlite::scan::FolderEntry]) -> Vec<&str> {
    entries.iter().map(|e| e.name.as_str()).collect()
}

#[test]
fn scan_folder_returns_only_md_files() {
    let items = vec![
        file(ROOT, "readme.md"),
        file(ROOT, "notes.markdown"),
        file(ROOT, "doc.mdx"),
        file(ROOT, "image.png"),
        file(ROOT, "script.js"),
    ];
    let entries = scan_folder(&items);
    assert_eq!(names(&entries), vec!["doc.mdx", "notes.markdown", "readme.md"]);
    assert!(entries.iter().all(|e| !e.is_folder));
}

#[test]
fn scan_folder_empty_dir_returns_empty() {
    let entries = scan_folder(&Vec::new());
    assert!(entries.is_empty());
}

#[test]
fn scan_folder_skips_hidden_directories() {
    let git = join(ROOT, ".git");
    let items = vec![hidden_folder(ROOT, ".git", vec![file(&git, "HEAD.md")]), file(ROOT, "visible.md")];
    let entries = scan_folder(&items);
    assert_eq!(entries.len(), 1);
    assert_eq!(entries[0].name, "visible.md");
}

#[test]
fn scan_folder_shows_hidden_directories_when_enabled() {
    let hidden = join(ROOT, ".hidden");
    let items = vec![hidden_folder(ROOT, ".hidden", vec![file(&hidden, "secret.md")]), file(ROOT, "visible.md")];
    let entries = scan_folder_with_opts(&items, true);
    let names = names(&entries);
    assert!(names.contains(&".hidden"));
    assert!(names.contains(&"visible.md"));
}

#[test]
fn scan_folder_skips_windows_hidden_non_dot_directories() {
    let hidden = join(ROOT, "hidden_dir");
    let items = vec![hidden_folder(ROOT, "hidden_dir", vec![file(&hidden, "secret.md")]), file(ROOT, "visible.md")];
    let entries = scan_folder(&items);
    assert_eq!(entries.len(), 1);
    assert_eq!(entries[0].name, "visible.md");
}

#[test]
fn scan_folder_shows_windows_hidden_non_dot_directories_when_enabled() {
    let hidden = join(ROOT, "hidden_dir");
    let items = vec![hidden_folder(ROOT, "hidden_dir", vec![file(&hidden, "secret.md")]), file(ROOT, "visible.md")];
    let entries = scan_folder_with_opts(&items, true);
    let names = names(&entries);
    assert!(names.contains(&"hidden_dir"));
    assert!(names.contains(&"visible.md"));
}

#[test]
fn scan_folder_prunes_folders_without_md_descendants() {
    let empty = join(ROOT, "empty");
    let docs = join(ROOT, "docs");
    let items = vec![
        folder(ROOT, "empty", vec![file(&empty, "data.json")]),
        folder(ROOT, "docs", vec![file(&docs, "guide.md")]),
    ];
    let entries = scan_folder(&items);
    assert_eq!(names(&entries), vec!["docs"]);
    assert!(entries[0].is_folder);
}

#[test]
fn scan_folder_folders_sorted_before_files() {
    let zzz = join(ROOT, "zzz");
    let items = vec![file(ROOT, "aaa.md"), folder(ROOT, "zzz", vec![file(&zzz, "nested.md")])];
    let entries = scan_folder(&items);
    assert_eq!(entries.len(), 2);
    assert!(entries[0].is_folder);
    assert_eq!(entries[0].name, "zzz");
    assert!(!entries[1].is_folder);
    assert_eq!(entries[1].name, "aaa.md");
}

#[test]
fn scan_folder_nested_structure() {
    let docs = join(ROOT, "docs");
    let api = join(&docs, "api");
    let items = vec![
        folder(ROOT, "docs", vec![folder(&docs, "api", vec![file(&api, "reference.md")])]),
        file(ROOT, "README.md"),
    ];
    let entries = scan_folder(&items);
    assert_eq!(entries.len(), 2);

    let folder = &entries[0];
    assert!(folder.is_folder);
    assert_eq!(folder.name, "docs");

    let children = folder.children.as_ref().unwrap();
    assert_eq!(children.len(), 1);
    assert!(children[0].is_folder);
    assert_eq!(children[0].name, "api");

    let grandchildren = children[0].children.as_ref().unwrap();
    assert_eq!(grandchildren.len(), 1);
    assert_eq!(grandchildren[0].name, "reference.md");
}

#[test]
fn scan_folder_deep_prune_no_md_anywhere() {
    let a = join(ROOT, "a");
    let b = join(&a, "b");
    let c = join(&b, "c");
    let items = vec![folder(ROOT, "a", vec![folder(&a, "b", vec![folder(&b, "c", vec![file(&c, "data.txt")])])])];
    let entries = scan_folder(&items);
    assert!(entries.is_empty());
}

#[test]
fn scan_folder_deep_prune_md_at_leaf() {
    let a = join(ROOT, "a");
    let b = join(&a, "b");
    let items = vec![folder(ROOT, "a", vec![folder(&a, "b", vec![file(&b, "deep.md")])])];
    let entries = scan_folder(&items);
    assert_eq!(entries.len(), 1);
    assert_eq!(entries[0].name, "a");
    let b_entries = entries[0].children.as_ref().unwrap();
    assert_eq!(b_entries.len(), 1);
    assert_eq!(b_entries[0].name, "b");
    let md_files = b_entries[0].children.as_ref().unwrap();
    assert_eq!(md_files.len(), 1);
    assert_eq!(md_files[0].name, "deep.md");
}

#[test]
fn scan_folder_case_insensitive_extension() {
    let items = vec![file(ROOT, "upper.MD"), file(ROOT, "mixed.Md")];
    let entries = scan_folder(&items);
    assert_eq!(entries.len(), 2);
}

#[test]
fn scan_folder_entries_have_full_paths() {
    let items = vec![file(ROOT, "test.md")];
    let entries = scan_folder(&items);
    assert!(entries[0].path.contains("test.md"));
    assert!(entries[0].path.len() > "test.md".len());
}

#[test]
fn scan_folder_sorts_by_code_point_and_displays_paths() {
    let items = vec![
        DirItem { name: "b.md".to_string(), path: r"\\?\C:\d\b.md".to_string(), hidden: false, kind: EntryKind::File },
        file(ROOT, "B.md"),
        file(ROOT, "a.md"),
        DirItem { name: "link.md".to_string(), path: join(ROOT, "link.md"), hidden: false, kind: EntryKind::Other },
    ];
    let entries = scan_folder(&items);
    assert_eq!(names(&entries), vec!["B.md", "a.md", "b.md"]);
    assert_eq!(entries[2].path, r"C:\d\b.md");
}

#[test]
fn find_default_prefers_readme() {
    let items = vec![file(ROOT, "aaa.md"), file(ROOT, "README.md"), file(ROOT, "zzz.md")];
    let result = find_default_file(&items).unwrap();
    let name = Path::new(&result).file_name().unwrap().to_string_lossy().to_lowercase();
    assert_eq!(name, "readme.md");
}

#[test]
fn find_default_falls_back_to_first_alphabetically() {
    let items = vec![file(ROOT, "beta.md"), file(ROOT, "alpha.md")];
    let result = find_default_file(&items).unwrap();
    let name = Path::new(&result).file_name().unwrap().to_string_lossy().to_string();
    assert_eq!(name, "alpha.md");
}

#[test]
fn find_default_returns_none_for_empty_dir() {
    assert!(find_default_file(&Vec::new()).is_none());
}

#[test]
fn find_default_returns_none_when_no_md_files() {
    let items = vec![file(ROOT, "image.png"), file(ROOT, "data.json")];
    assert!(find_default_file(&items).is_none());
}

#[test]
fn find_default_ignores_subdirectory_files() {
    let docs = join(ROOT, "docs");
    let items = vec![folder(ROOT, "docs", vec![file(&docs, "README.md")])];
    assert!(find_default_file(&items).is_none());
}

#[test]
fn find_default_only_matches_md_extension() {
    let items = vec![file(ROOT, "readme.txt"), file(ROOT, "readme.markdown")];
    let result = find_default_file(&items).unwrap();
    let name = Path::new(&result).file_name().unwrap().to_string_lossy().to_string();
    assert_eq!(name, "readme.markdown");
}

#[test]
fn find_default_readme_must_be_a_file() {
    let readme_dir = join(ROOT, "readme.md");
    let items = vec![
        folder(ROOT, "readme.md", vec![file(&readme_dir, "x.md")]),
        file(ROOT, "b.md"),
    ];
    assert_eq!(find_default_file(&items), Some(join(ROOT, "b.md")));
}

#[test]
fn compute_path_chain_nested() {
    let sub1 = join(ROOT, "sub1");
    let sub2 = join(&sub1, "sub2");
    let file = join(&sub2, "readme.md");

    let chain = compute_path_chain(ROOT, &file);
    assert_eq!(chain.len(), 2);
    assert_eq!(chain[0].name, "sub1");
    assert_eq!(chain[0].path, display_path(&sub1));
    assert_eq!(chain[1].name, "sub2");
    assert_eq!(chain[1].path, display_path(&sub2));
}

#[test]
fn compute_path_chain_root_file() {
    let file = join(ROOT, "readme.md");
    let chain = compute_path_chain(ROOT, &file);
    assert!(chain.is_empty());
}

#[test]
fn compute_path_chain_outside_root() {
    let file = join("/tmp/other-root", "readme.md");
    let chain = compute_path_chain(ROOT, &file);
    assert!(chain.is_empty());
}

#[test]
fn collect_markdown_files_nested_structure() {
    let docs = join(ROOT, "docs");
    let api = join(&docs, "api");
    let items = vec![
        folder(ROOT, "docs", vec![folder(&docs, "api", vec![file(&api, "reference.md")])]),
        file(ROOT, "README.md"),
        file(ROOT, "image.png"),
    ];
    let files = collect_markdown_files(&items, false);
    assert_eq!(files.len(), 2);
    assert!(files.contains(&join(ROOT, "README.md")));
    assert!(files.contains(&join(&api, "reference.md")));
}

#[test]
fn collect_markdown_files_skips_hidden_directories() {
    let git = join(ROOT, ".git");
    let items = vec![hidden_folder(ROOT, ".git", vec![file(&git, "HEAD.md")]), file(ROOT, "visible.md")];
    let files = collect_markdown_files(&items, false);
    assert_eq!(files.len(), 1);
    assert!(files.contains(&join(ROOT, "visible.md")));
}

#[test]
fn collect_markdown_files_includes_hidden_when_enabled() {
    let hidden = join(ROOT, ".hidden");
    let items = vec![hidden_folder(ROOT, ".hidden", vec![file(&hidden, "secret.md")]), file(ROOT, "visible.md")];
    let files = collect_markdown_files(&items, true);
    assert_eq!(files.len(), 2);
    assert!(files.contains(&join(&hidden, "secret.md")));
}

#[test]
fn collect_markdown_files_empty_dir_returns_empty_set() {
    let files = collect_markdown_files(&Vec::new(), false);
    assert_eq!(files.len(), 0);
}

#[test]
fn scan_directory_entries_finds_markdown_files_and_subdirs() {
    let items = vec![file(ROOT, "readme.md"), file(ROOT, "image.png"), folder(ROOT, "docs", vec![])];
    let result = scan_directory_entries(&items, false);

    assert_eq!(result.markdown_files.len(), 1);
    assert_eq!(result.markdown_files[0].0, "readme.md");
    assert_eq!(result.markdown_files[0].1, join(ROOT, "readme.md"));

    assert_eq!(result.subdirs.len(), 1);
    assert_eq!(result.subdirs[0].0, "docs");
    assert_eq!(result.subdirs[0].1, join(ROOT, "docs"));
}

#[test]
fn scan_directory_entries_is_not_recursive() {
    let docs = join(ROOT, "docs");
    let items = vec![folder(ROOT, "docs", vec![file(&docs, "nested.md")])];
    let result = scan_directory_entries(&items, false);
    assert!(result.markdown_files.is_empty());
    assert_eq!(result.subdirs.len(), 1);
}

#[test]
fn scan_directory_entries_skips_hidden_unless_enabled() {
    let git = join(ROOT, ".git");
    let items = vec![hidden_folder(ROOT, ".git", vec![file(&git, "HEAD.md")]), file(ROOT, "visible.md")];

    let result = scan_directory_entries(&items, false);
    assert_eq!(result.subdirs.len(), 0);
    assert_eq!(result.markdown_files.len(), 1);

    let result_shown = scan_directory_entries(&items, true);
    assert_eq!(result_shown.subdirs.len(), 1);
}

#[test]
fn scan_directory_entries_nonexistent_dir_returns_empty() {
    let result = scan_directory_entries(&Vec::new(), false);
    assert!(result.subdirs.is_empty());
    assert!(result.markdown_files.is_empty());
}

#[test]
fn scan_directory_entries_sorts_by_name() {
    let items = vec![file(ROOT, "b.md"), folder(ROOT, "z", vec![]), file(ROOT, "a.md"), folder(ROOT, "m", vec![])];
    let result = scan_directory_entries(&items, false);
    let files: Vec<&str> = result.markdown_files.iter().map(|f| f.0.as_str()).collect();
    let dirs: Vec<&str> = result.subdirs.iter().map(|d| d.0.as_str()).collect();
    assert_eq!(files, vec!["a.md", "b.md"]);
    assert_eq!(dirs, vec!["m", "z"]);
}

fn tree_paths(entries: &[mdlite::scan::FolderEntry], out: &mut Vec<String>) {
    for e in entries {
        match &e.children {
            Some(c) => tree_paths(c, out),
            None => out.push(e.path.clone()),
        }
    }
}

#[test]
fn tree_files_match_collected_files() {
    let docs = join(ROOT, "docs");
    let api = join(&docs, "api");
    let git = join(ROOT, ".git");
    let empty = join(ROOT, "empty");
    let items = vec![
        folder(ROOT, "docs", vec![folder(&docs, "api", vec![file(&api, "reference.md")]), file(&docs, "x.png")]),
        hidden_folder(ROOT, ".git", vec![file(&git, "HEAD.md")]),
        folder(ROOT, "empty", vec![file(&empty, "data.json")]),
        file(ROOT, "README.md"),
    ];
    for show in [false, true] {
        let mut shown = Vec::new();
        tree_paths(&scan_folder_with_opts(&items, show), &mut shown);
        shown.sort();
        let collected = collect_markdown_files(&items, show);
        assert_eq!(shown.len(), collected.len());
        for p in &shown {
            assert!(collected.contains(p));
        }
    }
}

#[test]
fn compute_path_chain_without_parent_is_empty() {
    assert!(compute_path_chain(ROOT, "").is_empty());
    assert!(compute_path_chain("/", "/").is_empty());
}

#[test]
fn compute_path_chain_plain_paths() {
    let chain = compute_path_chain("/t", "/t/a/b/r.md");
    let names: Vec<&str> = chain.iter().map(|a| a.name.as_str()).collect();
    assert_eq!(names, vec!["a", "b"]);
    assert!(compute_path_chain("/t", "/t/r.md").is_empty());
    assert!(compute_path_chain("/t", "/t-x/a/r.md").is_empty());
    assert!(compute_path_chain("/t", "/u/a/r.md").is_empty());
    assert!(compute_path_chain("/t", "").is_empty());
    assert!(compute_path_chain("/t", "/").is_empty());
}

#[test]
fn showing_hidden_entries_only_adds_files() {
    let items = vec![
        hidden_folder(ROOT, "secret", vec![file(&join(ROOT, "secret"), "s.md")]),
        file(ROOT, "a.md"),
        file(ROOT, ".h.md"),
    ];
    let without: Vec<String> = scan_folder_with_opts(&items, false).iter().map(|e| e.path.clone()).collect();
    let with: Vec<String> = scan_folder_with_opts(&items, true).iter().map(|e| e.path.clone()).collect();
    assert_eq!(without, vec![join(ROOT, "a.md")]);
    for p in &without {
        assert!(with.contains(p));
    }
    assert_eq!(with.len(), 3);
}

#[test]
fn scan_walk_visits_breadth_first_and_batches_present_files() {
    let mut walk = ScanWalk::start(ROOT.to_string());
    let top = walk.next_dir().unwrap();
    assert_eq!(top.path, ROOT);
    assert!(top.chain.is_empty());
    let sub = join(ROOT, "sub");
    let listing = vec![folder(ROOT, "sub", vec![]), file(ROOT, "b.md"), file(ROOT, "a.md"), file(ROOT, "x.txt")];
    let files = walk.visit(&top.chain, &listing, false);
    let names: Vec<&str> = files.iter().map(|(n, _)| n.as_str()).collect();
    assert_eq!(names, vec!["a.md", "b.md"]);
    let mut registry = PathRegistry::new();
    let batch = scan_batch(top.chain, &files, &vec![true, false], &mut registry).unwrap();
    assert_eq!(batch.files.len(), 1);
    assert_eq!(batch.files[0].name, "a.md");
    assert!(registry.contains(&join(ROOT, "a.md")));
    assert_eq!(registry.len(), 1);
    assert!(scan_batch(Vec::new(), &files, &vec![false, false], &mut registry).is_none());
    let next = walk.next_dir().unwrap();
    assert_eq!(next.path, sub);
    assert_eq!(next.chain.len(), 1);
    assert_eq!(next.chain[0].name, "sub");
    assert!(walk.next_dir().is_none());
}

#[test]
fn compute_path_chain_joins_each_folder() {
    let chain = compute_path_chain("/t", "/t/a/b/r.md");
    assert_eq!(chain[0].path, join("/t", "a"));
    assert_eq!(chain[1].path, join(&join("/t", "a"), "b"));
}

#[test]
fn hidden_entries_keep_nested_nodes_under_the_same_folders() {
    let docs = join(ROOT, "docs");
    let items = vec![folder(ROOT, "docs", vec![file(&docs, "a.md"), hidden_folder(&docs, ".h", vec![file(&join(&docs, ".h"), "s.md")])])];
    let without = scan_folder_with_opts(&items, false);
    let with = scan_folder_with_opts(&items, true);
    assert_eq!(without.len(), 1);
    assert_eq!(with.len(), 1);
    assert_eq!(without[0].path, with[0].path);
    let inner_without = without[0].children.as_ref().unwrap();
    let inner_with = with[0].children.as_ref().unwrap();
    assert_eq!(inner_without.len(), 1);
    assert_eq!(inner_with.len(), 2);
    assert!(inner_with.iter().any(|e| e.path == inner_without[0].path && e.name == inner_without[0].name));
}
