use docserve::{
    calculate_relative_path, guess_image_content_type, is_image_file, is_markdown_file,
    is_within_base, scan_markdown_files, static_access, PathError, StaticAccess,
};

#[test]
fn test_is_markdown_file() {
    assert!(is_markdown_file("test.md"));
    assert!(is_markdown_file("/path/to/file.md"));
    assert!(is_markdown_file("test.markdown"));
    assert!(is_markdown_file("test.MD"));
    assert!(!is_markdown_file("test.txt"));
}

#[test]
fn markdown_extension_edge_cases() {
    assert!(is_markdown_file("notes.MarkDown"));
    assert!(is_markdown_file("a.b.md"));
    assert!(!is_markdown_file(".md"));
    assert!(!is_markdown_file("dir.md/file"));
    assert!(is_markdown_file("dir/x.md/"));
    assert!(is_markdown_file("x.MD//"));
    assert!(!is_markdown_file("a/.."));
    assert!(!is_markdown_file(".."));
    assert!(!is_markdown_file("/"));
    assert!(!is_markdown_file("md"));
    assert!(!is_markdown_file("test.mdx"));
    assert!(!is_markdown_file(""));
}

#[test]
fn test_is_image_file() {
    assert!(is_image_file("test.png"));
    assert!(is_image_file("test.jpg"));
    assert!(!is_image_file("test.txt"));
}

#[test]
fn test_is_image_file_all_types() {
    assert!(is_image_file("test.png"));
    assert!(is_image_file("test.PNG"));
    assert!(is_image_file("test.jpg"));
    assert!(is_image_file("test.jpeg"));
    assert!(is_image_file("test.gif"));
    assert!(is_image_file("test.svg"));
    assert!(is_image_file("test.webp"));
    assert!(is_image_file("test.bmp"));
    assert!(is_image_file("test.ico"));
    assert!(!is_image_file("test.txt"));
    assert!(!is_image_file("test.md"));
    assert!(!is_image_file("test"));
}

#[test]
fn test_guess_image_content_type() {
    assert_eq!(guess_image_content_type("test.png"), "image/png");
    assert_eq!(guess_image_content_type("test.jpg"), "image/jpeg");
    assert_eq!(guess_image_content_type("test.jpeg"), "image/jpeg");
    assert_eq!(guess_image_content_type("test.gif"), "image/gif");
    assert_eq!(guess_image_content_type("test.svg"), "image/svg+xml");
    assert_eq!(guess_image_content_type("test.webp"), "image/webp");
    assert_eq!(guess_image_content_type("test.bmp"), "image/bmp");
    assert_eq!(guess_image_content_type("test.ico"), "image/x-icon");
    assert_eq!(guess_image_content_type("test.txt"), "application/octet-stream");
}

#[test]
fn content_type_ignores_case_and_directories() {
    assert_eq!(guess_image_content_type("img/Photo.JPEG"), "image/jpeg");
    assert_eq!(guess_image_content_type("img.png/readme"), "application/octet-stream");
}

#[test]
fn test_calculate_relative_path() {
    let relative = calculate_relative_path("/tmp/base/test.md", "/tmp/base")
        .expect("Failed to calculate relative path");
    assert_eq!(relative, "test.md");
}

#[test]
fn test_calculate_relative_path_nested() {
    let relative = calculate_relative_path("/tmp/base/nested/test.md", "/tmp/base")
        .expect("Failed to calculate relative path");
    assert_eq!(relative, "nested/test.md");
}

#[test]
fn relative_path_outside_base_is_refused() {
    assert_eq!(
        calculate_relative_path("/tmp/basement/test.md", "/tmp/base"),
        Err(PathError::NotWithinBase)
    );
    assert_eq!(
        calculate_relative_path("/etc/passwd", "/tmp/base"),
        Err(PathError::NotWithinBase)
    );
    assert_eq!(
        calculate_relative_path("/tmp/base", "/tmp/base"),
        Err(PathError::NotWithinBase)
    );
    assert_eq!(calculate_relative_path("/a.md", "/"), Ok("a.md".to_string()));
}

#[test]
fn within_base_is_by_whole_segments() {
    assert!(is_within_base("/srv/docs", "/srv/docs"));
    assert!(is_within_base("/srv/docs/img/a.png", "/srv/docs"));
    assert!(!is_within_base("/srv/docs-secret/a.png", "/srv/docs"));
    assert!(!is_within_base("/srv/a.png", "/srv/docs"));
}

#[test]
fn static_request_resolving_outside_root_is_denied() {
    // A symlink inside the root that resolves to a file outside it.
    let r = static_access(
        "link_to_secret.png",
        Some("/tmp/secret_image.png".to_string()),
        "/tmp/root",
    );
    assert_eq!(r, StaticAccess::Denied);
    // Denied even when a file of that name also exists inside the root.
    let r = static_access("a.png", Some("/tmp/other/a.png".to_string()), "/tmp/root");
    assert_eq!(r, StaticAccess::Denied);
}

#[test]
fn static_request_inside_root_is_served() {
    let r = static_access("img/a.png", Some("/tmp/root/img/a.png".to_string()), "/tmp/root");
    assert_eq!(r, StaticAccess::Serve { content_type: "image/png".to_string() });
    let r = static_access("nonexistent.png", None, "/tmp/root");
    assert_eq!(r, StaticAccess::NotFound);
}

#[test]
fn test_scan_markdown_files_empty_directory() {
    let result = scan_markdown_files(Vec::new());
    assert_eq!(result.len(), 0);
}

#[test]
fn test_scan_markdown_files_with_markdown_files() {
    let files = vec![
        "/d/test1.md".to_string(),
        "/d/test2.markdown".to_string(),
        "/d/test.txt".to_string(),
    ];
    let result = scan_markdown_files(files);
    assert_eq!(result.len(), 2);
}

#[test]
fn test_scan_markdown_files_nested() {
    let files = vec!["/d/root.md".to_string(), "/d/nested/nested.md".to_string()];
    let result = scan_markdown_files(files);
    assert_eq!(result.len(), 2);
}

#[test]
fn scan_sorts_filters_and_drops_repeats() {
    let files = vec![
        "/d/b.md".to_string(),
        "/d/A.MD".to_string(),
        "/d/c.txt".to_string(),
        "/d/a/z.markdown".to_string(),
        "/d/b.md".to_string(),
        "/d/.md".to_string(),
    ];
    let result = scan_markdown_files(files);
    assert_eq!(result, vec!["/d/A.MD", "/d/a/z.markdown", "/d/b.md"]);
}

#[test]
fn test_non_image_files_not_served_via_api() {
    // A non-image file beside the tracked document, inside the root.
    let r = static_access("secret.txt", Some("/tmp/root/secret.txt".to_string()), "/tmp/root");
    assert_eq!(r, StaticAccess::NotFound);
    let r = static_access("test.md", Some("/tmp/root/test.md".to_string()), "/tmp/root");
    assert_eq!(r, StaticAccess::NotFound);
    // Escaping the root is denied before the kind of file is looked at.
    let r = static_access("x.txt", Some("/etc/x.txt".to_string()), "/tmp/root");
    assert_eq!(r, StaticAccess::Denied);
}
