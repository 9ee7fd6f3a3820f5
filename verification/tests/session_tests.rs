use mdlite::menu::{
    decimal_string, folder_label, label_text, menu_command, parse_index, recent_item_id, recent_label, theme_item_id,
    MenuCommand,
};
use mdlite::config::ZoomAction;
use mdlite::scan::{present_files, queue_subdirs, DirAncestor};
use mdlite::session::{
    file_title, folder_title, inside_open_folder, mode_report, pdf_filename, pdf_name_from_stem, plan_file_switch,
    startup_argument, startup_state, AppMode, Generations, ResolvedArg, ViewState,
};
use mdlite::registry::PathRegistry;
use mdlite::update::{update_result, UpdateError};

#[test]
fn scan_restart_keeps_folder_watcher_live() {
    let mut g = Generations::new();
    let watcher = g.switch_target();
    let scan = g.start_scan();
    assert!(!g.folder_watcher_is_stale(watcher));
    assert!(g.scan_is_current(scan));
    let rescan = g.start_scan();
    assert!(!g.scan_is_current(scan));
    assert!(g.scan_is_current(rescan));
    g.cancel_scan();
    assert!(!g.scan_is_current(rescan));
    assert!(!g.folder_watcher_is_stale(watcher));
}

#[test]
fn target_switch_retires_old_watcher() {
    let mut g = Generations::new();
    let first = g.switch_target();
    let second = g.switch_target();
    assert!(g.folder_watcher_is_stale(first));
    assert!(!g.folder_watcher_is_stale(second));
}

#[test]
fn generations_wrap_around() {
    let mut g = Generations { scan: u64::MAX, folder: u64::MAX };
    assert_eq!(g.start_scan(), 0);
    assert_eq!(g.switch_target(), 0);
}

#[test]
fn startup_without_argument_is_empty() {
    assert_eq!(startup_argument(None), None);
    assert_eq!(startup_argument(Some(String::new())), None);
    assert_eq!(startup_argument(Some("a.md".to_string())), Some("a.md".to_string()));
    let s = startup_state(None, ResolvedArg::Missing);
    assert!(matches!(s.mode, AppMode::Empty));
    assert!(s.file_path.is_empty());
    assert!(s.startup_error.is_none());
}

#[test]
fn startup_missing_path_reports_error() {
    let s = startup_state(Some("nope.md".to_string()), ResolvedArg::Missing);
    assert!(matches!(s.mode, AppMode::Empty));
    assert_eq!(s.startup_error, Some("File not found: nope.md".to_string()));
}

#[test]
fn startup_directory_opens_folder_mode() {
    let s = startup_state(
        Some("docs".to_string()),
        ResolvedArg::Directory { path: "/d/docs".to_string(), default_file: Some("/d/docs/README.md".to_string()) },
    );
    assert!(matches!(s.mode, AppMode::Folder));
    assert_eq!(s.folder_path, Some("/d/docs".to_string()));
    assert_eq!(s.file_path, "/d/docs/README.md");
    let s = startup_state(
        Some("docs".to_string()),
        ResolvedArg::Directory { path: "/d/docs".to_string(), default_file: None },
    );
    assert_eq!(s.file_path, "");
}

#[test]
fn startup_file_opens_file_mode() {
    let s = startup_state(Some("a.md".to_string()), ResolvedArg::File { path: "/d/a.md".to_string() });
    assert!(matches!(s.mode, AppMode::File));
    assert_eq!(s.file_path, "/d/a.md");
    assert!(s.folder_path.is_none());
}

#[test]
fn mode_report_only_folder_mode_has_details() {
    let r = mode_report(AppMode::File, "/d/a.md", &None);
    assert!(r.current_file.is_none() && r.folder_path.is_none() && r.folder_name.is_none());
    let r = mode_report(AppMode::Folder, r"\\?\C:\docs\a.md", &Some(r"\\?\C:\docs".to_string()));
    assert_eq!(r.current_file, Some(r"C:\docs\a.md".to_string()));
    assert_eq!(r.folder_path, Some(r"C:\docs".to_string()));
    assert!(r.folder_name.is_some());
    let r = mode_report(AppMode::Folder, "", &Some("/d/notes".to_string()));
    assert!(r.current_file.is_none());
    assert_eq!(r.folder_name, Some("notes".to_string()));
}

#[test]
fn file_switch_needs_watcher_on_directory_change() {
    let same = plan_file_switch(AppMode::File, "/d/a.md", "/d/b.md");
    assert!(!same.needs_new_watcher && !same.was_not_file);
    let other = plan_file_switch(AppMode::File, "/d/a.md", "/e/b.md");
    assert!(other.needs_new_watcher && !other.was_not_file);
    let from_folder = plan_file_switch(AppMode::Folder, "/d/a.md", "/d/b.md");
    assert!(from_folder.needs_new_watcher && from_folder.was_not_file);
}

#[test]
fn titles() {
    assert_eq!(file_title("a.md"), "mdlite — a.md");
    assert_eq!(folder_title("docs", None), "mdlite — docs");
    assert_eq!(folder_title("docs", Some("a.md".to_string())), "mdlite — docs — a.md");
}

#[test]
fn pdf_names() {
    assert_eq!(pdf_name_from_stem(""), "document.pdf");
    assert_eq!(pdf_name_from_stem("notes"), "notes.pdf");
    assert_eq!(pdf_filename("/d/notes.md"), "notes.pdf");
    assert_eq!(pdf_filename(""), "document.pdf");
}

#[test]
fn files_outside_the_folder_are_refused() {
    assert!(inside_open_folder("/d/a.md", &None));
    assert!(inside_open_folder("/d/sub/a.md", &Some("/d".to_string())));
    assert!(!inside_open_folder("/e/a.md", &Some("/d".to_string())));
    assert!(!inside_open_folder("/d-other/a.md", &Some("/d".to_string())));
}

#[test]
fn menu_commands_from_ids() {
    assert!(matches!(menu_command("open-file"), MenuCommand::OpenFile));
    assert!(matches!(menu_command("open-folder"), MenuCommand::OpenFolder));
    assert!(matches!(menu_command("clear-recent"), MenuCommand::ClearRecent));
    assert!(matches!(menu_command("recent-3"), MenuCommand::OpenRecent(3)));
    assert!(matches!(menu_command("recent-+7"), MenuCommand::OpenRecent(7)));
    assert!(matches!(menu_command("recent-x"), MenuCommand::Ignore));
    assert!(matches!(menu_command("recent-"), MenuCommand::Ignore));
    assert!(matches!(menu_command("zoom-in"), MenuCommand::Zoom(ZoomAction::In)));
    assert!(matches!(menu_command("zoom-out"), MenuCommand::Zoom(ZoomAction::Out)));
    assert!(matches!(menu_command("zoom-reset"), MenuCommand::Zoom(ZoomAction::Reset)));
    assert!(matches!(menu_command("navigate-back"), MenuCommand::NavigateBack));
    assert!(matches!(menu_command("navigate-forward"), MenuCommand::NavigateForward));
    assert!(matches!(menu_command("print"), MenuCommand::Print));
    assert!(matches!(menu_command("export-pdf"), MenuCommand::ExportPdf));
    assert!(matches!(menu_command("find"), MenuCommand::Find));
    assert!(matches!(menu_command("toggle-outline"), MenuCommand::ToggleOutline));
    assert!(matches!(menu_command("toggle-print-header"), MenuCommand::TogglePrintHeader));
    assert!(matches!(menu_command("toggle-show-hidden-files"), MenuCommand::ToggleShowHiddenFiles));
    assert!(matches!(menu_command("toggle-show-frontmatter"), MenuCommand::Ignore));
    match menu_command("theme-github-dark") {
        MenuCommand::SetTheme(t) => assert_eq!(t, "github-dark"),
        _ => panic!("expected a theme"),
    }
}

#[test]
fn parse_index_like_std() {
    for s in ["0", "12", "+5", "007", "18446744073709551615", "18446744073709551616", "", "+", "-1", "1a", " 1"] {
        assert_eq!(parse_index(s), s.parse::<usize>().ok(), "input {:?}", s);
    }
}

#[test]
fn labels() {
    assert_eq!(label_text("a.md", Some("docs".to_string())), "a.md — docs");
    assert_eq!(label_text("a.md", None), "a.md");
    assert_eq!(recent_label("/home/u/docs/a.md"), "a.md — docs");
    assert_eq!(folder_label("/home/u/docs"), "docs");
    assert_eq!(folder_label("/"), "/");
}

#[test]
fn progressive_scan_queues_subdirs_with_chain() {
    let chain = vec![DirAncestor { name: "a".to_string(), path: "/r/a".to_string() }];
    let subdirs = vec![("b".to_string(), r"\\?\C:\r\a\b".to_string())];
    let q = queue_subdirs(&chain, &subdirs);
    assert_eq!(q.len(), 1);
    assert_eq!(q[0].path, r"\\?\C:\r\a\b");
    assert_eq!(q[0].chain.len(), 2);
    assert_eq!(q[0].chain[0].name, "a");
    assert_eq!(q[0].chain[1].name, "b");
    assert_eq!(q[0].chain[1].path, r"C:\r\a\b");
}

#[test]
fn progressive_scan_keeps_present_files() {
    let files = vec![("a.md".to_string(), "/r/a.md".to_string()), ("b.md".to_string(), "/r/b.md".to_string())];
    let (nodes, paths) = present_files(&files, &vec![false, true]);
    assert_eq!(nodes.len(), 1);
    assert_eq!(nodes[0].name, "b.md");
    assert!(!nodes[0].is_folder && nodes[0].children.is_none());
    assert_eq!(paths, vec!["/r/b.md"]);
}

#[test]
fn update_available_for_newer_tag() {
    let r = update_result("0.3.1", "v0.4.0", "https://example.invalid/r".to_string(), Some("notes".to_string()))
        .ok()
        .unwrap();
    assert!(r.update_available);
    assert_eq!(r.latest_version, "0.4.0");
    assert_eq!(r.current_version, "0.3.1");
    assert_eq!(r.release_url, "https://example.invalid/r");
    assert_eq!(r.release_notes, "notes");
}

#[test]
fn no_update_for_same_or_older_tag() {
    let r = update_result("1.2.0", "1.2.0", String::new(), None).ok().unwrap();
    assert!(!r.update_available);
    assert_eq!(r.release_notes, "");
    let r = update_result("1.2.0", "v1.1.9", String::new(), None).ok().unwrap();
    assert!(!r.update_available);
}

#[test]
fn update_errors() {
    match update_result("not a version", "v1.0.0", String::new(), None) {
        Err(UpdateError::InvalidCurrent(m)) => assert!(!m.is_empty()),
        _ => panic!("expected an invalid current version"),
    }
    match update_result("1.0.0", "vnext", String::new(), None) {
        Err(UpdateError::InvalidTag { tag, message }) => {
            assert_eq!(tag, "next");
            assert!(!message.is_empty());
        },
        _ => panic!("expected an invalid tag"),
    }
}

#[test]
fn folder_label_falls_back_to_path_without_name() {
    assert_eq!(folder_label(".."), "..");
    assert_eq!(folder_label("/home/u/.."), "/home/u/..");
    assert_eq!(folder_label("notes"), "notes");
}

#[test]
fn labels_of_plain_paths() {
    assert_eq!(recent_label("d/x/n.md"), "n.md — x");
    assert_eq!(recent_label("n.md"), "n.md");
    assert_eq!(recent_label("/n.md"), "n.md");
    assert_eq!(folder_label("/a/b"), "b");
    assert_eq!(folder_label("/"), "/");
    assert_eq!(folder_label(""), "");
}

#[test]
fn pdf_filename_of_plain_paths() {
    assert_eq!(pdf_filename("/a/b/notes.md"), "notes.pdf");
    assert_eq!(pdf_filename("/a/b/.md"), ".md.pdf");
    assert_eq!(pdf_filename("/a/b/v1.2.md"), "v1.2.pdf");
    assert_eq!(pdf_filename(""), "document.pdf");
}

#[test]
fn file_switch_watcher_follows_the_directory() {
    assert!(plan_file_switch(AppMode::File, "/a/x.md", "/b/y.md").needs_new_watcher);
    assert!(!plan_file_switch(AppMode::File, "/a/x.md", "/a/y.md").needs_new_watcher);
    assert!(plan_file_switch(AppMode::Folder, "/a/x.md", "/a/y.md").needs_new_watcher);
}

#[test]
fn inside_open_folder_by_components() {
    let docs = Some("/r/docs".to_string());
    assert!(inside_open_folder("/r/docs/a.md", &docs));
    assert!(!inside_open_folder("/r/docs-extra/a.md", &docs));
    assert!(inside_open_folder("/anything", &None));
}

#[test]
fn view_state_switches() {
    let mut v = ViewState {
        mode: AppMode::Folder,
        file_path: "/r/a.md".to_string(),
        folder_path: Some("/r".to_string()),
        startup_error: Some("File not found: x".to_string()),
        folder_files: PathRegistry::new(),
    };
    v.folder_files.insert("/r/a.md".to_string());
    let plan = v.switch_file("/r/b.md");
    assert!(plan.was_not_file && plan.needs_new_watcher);
    assert!(matches!(v.mode, AppMode::File));
    assert_eq!(v.file_path, "/r/b.md");
    assert!(v.folder_path.is_none() && v.startup_error.is_none());
    assert_eq!(v.folder_files.len(), 0);
    let plan = v.switch_file("/r/c.md");
    assert!(!plan.was_not_file && !plan.needs_new_watcher);
    v.switch_to_folder("/s".to_string(), None);
    assert!(matches!(v.mode, AppMode::Folder));
    assert_eq!(v.folder_path, Some("/s".to_string()));
    assert_eq!(v.file_path, "");
    v.switch_to_folder("/t".to_string(), Some("/t/README.md".to_string()));
    assert_eq!(v.file_path, "/t/README.md");
}

#[test]
fn release_comes_after_its_prerelease() {
    let r = update_result("1.0.0-beta", "v1.0.0", String::new(), None).ok().unwrap();
    assert!(r.update_available);
    let r = update_result("1.0.0", "v1.0.0-rc.1", String::new(), None).ok().unwrap();
    assert!(!r.update_available);
}

#[test]
fn prerelease_order_and_report() {
    let r = update_result("1.0.0-beta.1", "v1.0.0-beta.2", String::new(), None).ok().unwrap();
    assert!(r.update_available);
    let r = update_result("1.0.0-beta.2", "v1.0.0-beta.1", String::new(), None).ok().unwrap();
    assert!(!r.update_available);
    let u = mdlite::update::release_report("1.0.0", "1.1.0".to_string(), true, "u".to_string(), None);
    assert_eq!(u.latest_version, "1.1.0");
    assert!(u.update_available);
    assert_eq!(u.release_notes, "");
}

#[test]
fn open_file_only_when_it_exists() {
    let mut v = ViewState {
        mode: AppMode::Empty,
        file_path: String::new(),
        folder_path: None,
        startup_error: Some("File not found: x".to_string()),
        folder_files: PathRegistry::new(),
    };
    assert!(v.open_file("/r/gone.md", false).is_none());
    assert!(matches!(v.mode, AppMode::Empty));
    assert_eq!(v.startup_error, Some("File not found: x".to_string()));
    let plan = v.open_file("/r/a.md", true).unwrap();
    assert!(plan.was_not_file && plan.needs_new_watcher);
    assert_eq!(v.file_path, "/r/a.md");
    assert!(v.startup_error.is_none());
}

#[test]
fn menu_item_ids_decode_back() {
    assert_eq!(recent_item_id(0), "recent-0");
    assert_eq!(recent_item_id(12), "recent-12");
    assert!(matches!(menu_command(&recent_item_id(7)), MenuCommand::OpenRecent(7)));
    assert!(matches!(menu_command(&recent_item_id(usize::MAX)), MenuCommand::OpenRecent(n) if n == usize::MAX));
    assert_eq!(theme_item_id("github"), "theme-github");
    match menu_command(&theme_item_id("toggle-outline")) {
        MenuCommand::SetTheme(t) => assert_eq!(t, "toggle-outline"),
        _ => panic!("expected a theme"),
    }
    assert_eq!(decimal_string(1050), "1050");
}
