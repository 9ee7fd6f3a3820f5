use mdlite::text::{display_path, file_extension, is_markdown_ext, is_markdown_name_exec, strip_prefix};

#[test]
fn display_path_strips_unc_prefix() {
    let p = r"\\?\C:\Users\test\file.md";
    assert_eq!(display_path(p), r"C:\Users\test\file.md");
}

#[test]
fn display_path_passes_normal_path_through() {
    let p = r"C:\Users\test\file.md";
    assert_eq!(display_path(p), r"C:\Users\test\file.md");
}

#[test]
fn display_path_handles_unix_path() {
    let p = "/home/user/file.md";
    assert_eq!(display_path(p), "/home/user/file.md");
}

#[test]
fn display_path_strips_only_one_prefix() {
    assert_eq!(display_path(r"\\?\\\?\x"), r"\\?\x");
    assert_eq!(display_path(r"\\?"), r"\\?");
    assert_eq!(display_path(""), "");
}

#[test]
fn is_markdown_ext_accepts_md_variants() {
    assert!(is_markdown_ext("md"));
    assert!(is_markdown_ext("MD"));
    assert!(is_markdown_ext("markdown"));
    assert!(is_markdown_ext("MARKDOWN"));
    assert!(is_markdown_ext("mdx"));
    assert!(is_markdown_ext("Mdx"));
}

#[test]
fn is_markdown_ext_rejects_non_md() {
    assert!(!is_markdown_ext("txt"));
    assert!(!is_markdown_ext("html"));
    assert!(!is_markdown_ext("mdown"));
    assert!(!is_markdown_ext(""));
}

#[test]
fn file_extension_follows_path_rules() {
    assert_eq!(file_extension("notes.md"), Some("md".to_string()));
    assert_eq!(file_extension("archive.tar.gz"), Some("gz".to_string()));
    assert_eq!(file_extension(".md"), None);
    assert_eq!(file_extension("..md"), Some("md".to_string()));
    assert_eq!(file_extension("README"), None);
    assert_eq!(file_extension("trailing."), Some(String::new()));
    assert_eq!(file_extension(".."), None);
}

#[test]
fn markdown_names() {
    assert!(is_markdown_name_exec("upper.MD"));
    assert!(is_markdown_name_exec("mixed.Md"));
    assert!(is_markdown_name_exec("docs.md"));
    assert!(!is_markdown_name_exec(".md"));
    assert!(!is_markdown_name_exec("image.png"));
}

#[test]
fn strip_prefix_only_at_start() {
    assert_eq!(strip_prefix("theme-air", "theme-"), Some("air".to_string()));
    assert_eq!(strip_prefix("air-theme-", "theme-"), None);
    assert_eq!(strip_prefix("the", "theme-"), None);
}
