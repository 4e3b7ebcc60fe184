use docserve::{
    change_message, detect_file_change, FileChangeType, FileContents, FileIndex, FileRead,
    IndexError, MarkdownAction, ScanEntry, ServerMessage,
};

const BASE: &str = "/tmp/base";

fn read(name: &str, modified: u64, text: &str) -> FileRead {
    FileRead {
        path: format!("{}/{}", BASE, name),
        last_modified: modified,
        markdown: text.to_string(),
    }
}

fn found(name: &str) -> ScanEntry {
    ScanEntry { path: format!("{}/{}", BASE, name), contents: None }
}

fn found_read(name: &str, modified: u64, text: &str) -> ScanEntry {
    ScanEntry {
        path: format!("{}/{}", BASE, name),
        contents: Some(FileContents { last_modified: modified, markdown: text.to_string() }),
    }
}

fn index(files: Vec<FileRead>, dir: bool) -> FileIndex {
    FileIndex::new(BASE.to_string(), files, dir).expect("Failed to create state")
}

fn strings(v: &[&str]) -> Vec<String> {
    v.iter().map(|s| s.to_string()).collect()
}

#[test]
fn test_markdown_state_add_tracked_file() {
    let mut state = index(vec![read("test.md", 1, "# Test")], true);
    state.add_tracked_file(read("new.md", 2, "# New")).expect("Failed to add file");
    assert!(state.is_tracked("new.md"));
    assert_eq!(state.get("new.md").unwrap().markdown, "# New");
}

#[test]
fn test_markdown_state_add_tracked_file_duplicate() {
    let mut state = index(vec![read("test.md", 1, "# Test")], true);
    let added = state.add_tracked_file(read("test.md", 5, "# Other")).expect("Failed to add file");
    assert!(!added);
    assert_eq!(state.len(), 1);
    assert_eq!(state.get("test.md").unwrap().markdown, "# Test");
}

#[test]
fn add_outside_root_is_refused() {
    let mut state = index(vec![read("test.md", 1, "# Test")], true);
    let r = state.add_tracked_file(FileRead {
        path: "/elsewhere/x.md".to_string(),
        last_modified: 1,
        markdown: String::new(),
    });
    assert!(r.is_err());
    assert_eq!(state.len(), 1);
}

#[test]
fn new_refuses_files_outside_root() {
    let bad = FileRead { path: "/other/a.md".to_string(), last_modified: 0, markdown: String::new() };
    assert!(FileIndex::new(BASE.to_string(), vec![read("a.md", 0, ""), bad], true).is_err());
}

#[test]
fn test_markdown_state_update_file() {
    let mut state = index(vec![read("test.md", 10, "# Test")], false);
    let msg = state.update_file("test.md", "# Updated".to_string(), 20).expect("Failed to update");
    assert_eq!(msg, ServerMessage::Reload);
    let f = state.get("test.md").unwrap();
    assert_eq!(f.markdown, "# Updated");
    assert_eq!(f.last_modified, 20);
    assert_eq!(f.content_hash, md5::compute("# Updated").0);
}

#[test]
fn update_never_moves_time_back() {
    let mut state = index(vec![read("test.md", 50, "# Test")], false);
    state.update_file("test.md", "# Updated".to_string(), 20).expect("Failed to update");
    assert_eq!(state.get("test.md").unwrap().last_modified, 50);
}

#[test]
fn test_markdown_state_update_file_not_found() {
    let mut state = index(vec![read("test.md", 1, "# Test")], false);
    let result = state.update_file("nonexistent.md", "# New".to_string(), 2);
    assert_eq!(result, Err(IndexError::FileNotFound));
}

#[test]
fn test_markdown_state_refresh_file() {
    let mut state = index(vec![read("test.md", 10, "# Test")], false);
    assert!(state.needs_refresh("test.md", 11));
    assert_eq!(state.refresh_file("test.md", 11, "# Modified".to_string()), Some(ServerMessage::Reload));
    let f = state.get("test.md").unwrap();
    assert_eq!(f.markdown, "# Modified");
    assert_eq!(f.last_modified, 11);
    assert_eq!(f.content_hash, md5::compute("# Modified").0);
}

#[test]
fn test_markdown_state_refresh_file_not_modified() {
    let mut state = index(vec![read("test.md", 10, "# Test")], false);
    let content_before = state.get("test.md").unwrap().markdown.clone();
    assert!(!state.needs_refresh("test.md", 10));
    assert_eq!(state.refresh_file("test.md", 10, "# Stale".to_string()), None);
    assert_eq!(state.get("test.md").unwrap().markdown, content_before);
    assert_eq!(state.refresh_file("test.md", 9, "# Older".to_string()), None);
    assert_eq!(state.refresh_file("missing.md", 99, "# New".to_string()), None);
    assert_eq!(state.get("test.md").unwrap().markdown, content_before);
}

#[test]
fn initial_digest_is_md5_of_content() {
    let state = index(vec![read("a.md", 1, "content")], true);
    assert_eq!(state.get("a.md").unwrap().content_hash, md5::compute(b"content").0);
    assert_ne!(state.get("a.md").unwrap().content_hash, [0u8; 16]);
}

#[test]
fn test_markdown_state_rescan_directory() {
    let mut state = index(vec![read("test.md", 1, "# Test")], true);
    let changed = state.rescan_directory(&vec![found("test.md"), found_read("new.md", 2, "# New")]);
    assert!(changed);
    assert_eq!(state.len(), 2);
    assert!(state.is_tracked("new.md"));
    assert_eq!(state.get("new.md").unwrap().markdown, "# New");
}

#[test]
fn test_markdown_state_rescan_directory_no_changes() {
    let mut state = index(vec![read("test.md", 1, "# Test")], true);
    let changed = state.rescan_directory(&vec![found("test.md")]);
    assert!(!changed);
}

#[test]
fn test_markdown_state_rescan_directory_single_file_mode() {
    let mut state = index(vec![read("test.md", 1, "# Test")], false);
    let changed = state.rescan_directory(&vec![found("test.md"), found_read("x.md", 1, "")]);
    assert!(!changed);
    assert_eq!(state.len(), 1);
}

#[test]
fn test_markdown_state_rescan_directory_file_removed() {
    let mut state =
        index(vec![read("test1.md", 1, "# Test 1"), read("test2.md", 1, "# Test 2")], true);
    assert_eq!(state.len(), 2);
    let changed = state.rescan_directory(&vec![found("test1.md")]);
    assert!(changed);
    assert_eq!(state.len(), 1);
    assert!(state.is_tracked("test1.md"));
    assert!(!state.is_tracked("test2.md"));
}

#[test]
fn rescan_skips_unreadable_new_files_and_retries_later() {
    let mut state = index(vec![read("a.md", 1, "# A")], true);
    assert!(state.rescan_directory(&vec![found("a.md"), found("b.md")]));
    assert!(!state.is_tracked("b.md"));
    assert!(state.rescan_directory(&vec![found("a.md"), found_read("b.md", 3, "# B")]));
    assert!(state.is_tracked("b.md"));
}

#[test]
fn rescan_ignores_entries_outside_root() {
    let mut state = index(vec![read("a.md", 1, "# A")], true);
    let outside = ScanEntry { path: "/elsewhere/b.md".to_string(), contents: None };
    assert!(!state.rescan_directory(&vec![found("a.md"), outside]));
}

#[test]
fn rescan_twice_is_idempotent() {
    let mut state = index(vec![read("a.md", 1, "# A"), read("b.md", 1, "# B")], true);
    let scan = || vec![found("a.md"), found_read("c.md", 2, "# C")];
    assert!(state.rescan_directory(&scan()));
    let keys = state.get_sorted_filenames();
    assert!(!state.rescan_directory(&scan()));
    assert!(!state.rescan_directory(&scan()));
    assert_eq!(state.get_sorted_filenames(), keys);
    assert_eq!(keys, vec!["a.md", "c.md"]);
}

#[test]
fn test_markdown_state_get_sorted_filenames() {
    let state = index(vec![read("b.md", 1, "# B"), read("a.md", 1, "# A"), read("c.md", 1, "# C")], true);
    let sorted = state.get_sorted_filenames();
    assert_eq!(sorted, vec!["a.md", "b.md", "c.md"]);
}

#[test]
fn api_files_are_sorted() {
    let state = index(vec![read("z/b.md", 1, ""), read("a.md", 1, "")], true);
    let files = state.api_get_files();
    let paths: Vec<&String> = files.iter().map(|f| f.path()).collect();
    assert_eq!(paths, vec!["a.md", "z/b.md"]);
}

#[test]
fn rename_pass_reports_renamed() {
    let mut state = index(vec![read("a.md", 1, "# A"), read("b.md", 1, "# B")], true);
    let msg = state.rescan_and_detect_changes(&vec![found("a.md"), found_read("c.md", 2, "# C")]);
    assert_eq!(
        msg,
        Some(ServerMessage::FileRenamed { old_name: "b.md".to_string(), new_name: "c.md".to_string() })
    );
}

#[test]
fn two_additions_report_reload() {
    let mut state = index(vec![read("a.md", 1, "# A")], true);
    let msg = state.rescan_and_detect_changes(&vec![
        found("a.md"),
        found_read("b.md", 2, "# B"),
        found_read("c.md", 2, "# C"),
    ]);
    assert_eq!(msg, Some(ServerMessage::Reload));
}

#[test]
fn removal_pass_reports_removed() {
    let mut state =
        index(vec![read("test1.md", 1, ""), read("test2.markdown", 1, ""), read("test3.md", 1, "")], true);
    let msg = state.rescan_and_detect_changes(&vec![found("test2.markdown"), found("test3.md")]);
    assert_eq!(msg, Some(ServerMessage::FileRemoved { name: "test1.md".to_string() }));
    assert_eq!(state.rescan_and_detect_changes(&vec![found("test2.markdown"), found("test3.md")]), None);
}

#[test]
fn markdown_change_decisions() {
    let state = index(vec![read("a.md", 1, "# A")], true);
    assert_eq!(
        state.handle_markdown_file_change("/tmp/base/a.md", "/tmp/base/a.md"),
        MarkdownAction::Refresh { key: "a.md".to_string() }
    );
    assert_eq!(
        state.handle_markdown_file_change("/tmp/base/new-file.md", "/tmp/base/new-file.md"),
        MarkdownAction::Add { key: "new-file.md".to_string() }
    );
    assert_eq!(
        state.handle_markdown_file_change("/tmp/base/a.txt", "/tmp/base/a.txt"),
        MarkdownAction::Ignore
    );
    assert_eq!(
        state.handle_markdown_file_change("/tmp/base/link.md", "/outside/link.md"),
        MarkdownAction::Ignore
    );
    let single = index(vec![read("a.md", 1, "# A")], false);
    assert_eq!(
        single.handle_markdown_file_change("/tmp/base/b.md", "/tmp/base/b.md"),
        MarkdownAction::Ignore
    );
}

#[test]
fn test_detect_file_change_rename() {
    let old_files = strings(&["old.md"]);
    let new_files = strings(&["new.md"]);
    match detect_file_change(&old_files, &new_files) {
        FileChangeType::Renamed { old_name, new_name } => {
            assert_eq!(old_name, "old.md");
            assert_eq!(new_name, "new.md");
        }
        _ => panic!("Expected Renamed"),
    }
}

#[test]
fn test_detect_file_change_removed() {
    let old_files = strings(&["removed.md"]);
    let new_files: Vec<String> = Vec::new();
    match detect_file_change(&old_files, &new_files) {
        FileChangeType::Removed { name } => {
            assert_eq!(name, "removed.md");
        }
        _ => panic!("Expected Removed"),
    }
}

#[test]
fn test_detect_file_change_other() {
    let old_files = strings(&["file1.md"]);
    let new_files = strings(&["file1.md", "file2.md"]);
    match detect_file_change(&old_files, &new_files) {
        FileChangeType::Other => {}
        _ => panic!("Expected Other"),
    }
}

#[test]
fn unrelated_delete_and_create_is_reported_as_rename() {
    let old_files = strings(&["a.md", "b.md"]);
    let new_files = strings(&["a.md", "c.md"]);
    assert_eq!(
        detect_file_change(&old_files, &new_files),
        FileChangeType::Renamed { old_name: "b.md".to_string(), new_name: "c.md".to_string() }
    );
}

#[test]
fn two_removals_report_the_first() {
    let old_files = strings(&["a.md", "b.md", "c.md"]);
    let new_files = strings(&["b.md"]);
    assert_eq!(
        detect_file_change(&old_files, &new_files),
        FileChangeType::Removed { name: "a.md".to_string() }
    );
    let new_files = strings(&["b.md", "x.md"]);
    assert_eq!(
        detect_file_change(&old_files, &new_files),
        FileChangeType::Removed { name: "a.md".to_string() }
    );
}

#[test]
fn test_send_change_message_renamed() {
    let msg = change_message(FileChangeType::Renamed {
        old_name: "old.md".to_string(),
        new_name: "new.md".to_string(),
    });
    match msg {
        ServerMessage::FileRenamed { old_name, new_name } => {
            assert_eq!(old_name, "old.md");
            assert_eq!(new_name, "new.md");
        }
        _ => panic!("Expected FileRenamed message"),
    }
}

#[test]
fn test_send_change_message_removed() {
    let msg = change_message(FileChangeType::Removed { name: "removed.md".to_string() });
    match msg {
        ServerMessage::FileRemoved { name } => {
            assert_eq!(name, "removed.md");
        }
        _ => panic!("Expected FileRemoved message"),
    }
}

#[test]
fn test_send_change_message_reload() {
    match change_message(FileChangeType::Other) {
        ServerMessage::Reload => {}
        _ => panic!("Expected Reload message"),
    }
}

#[test]
fn rescan_with_same_keys_leaves_content_alone() {
    let mut state = index(vec![read("a.md", 10, "# A"), read("b.md", 10, "# B")], true);
    let scan = vec![found_read("a.md", 20, "# A2"), found("b.md")];
    assert!(!state.rescan_directory(&scan));
    assert_eq!(state.get("a.md").unwrap().markdown, "# A");
    assert_eq!(state.rescan_and_detect_changes(&scan), None);
    assert_eq!(state.get("a.md").unwrap().markdown, "# A");
}

#[test]
fn rescan_with_new_keys_keeps_retained_documents_untouched() {
    let mut state = index(vec![read("a.md", 10, "# A"), read("b.md", 10, "# B")], true);
    let scan = vec![found_read("a.md", 20, "# A2"), found("b.md"), found_read("c.md", 5, "# C")];
    assert!(state.rescan_directory(&scan));
    assert_eq!(state.get("a.md").unwrap().markdown, "# A");
    assert_eq!(state.get("a.md").unwrap().last_modified, 10);
    assert_eq!(state.get("c.md").unwrap().markdown, "# C");
}

#[test]
fn refresh_from_scan_takes_in_newer_content_of_tracked_files() {
    let mut state = index(vec![read("a.md", 10, "# A"), read("b.md", 10, "# B")], true);
    let scan = vec![found_read("a.md", 20, "# A2"), found("b.md"), found_read("new.md", 30, "# N")];
    assert_eq!(state.refresh_from_scan(&scan), Some(ServerMessage::Reload));
    assert_eq!(state.get("a.md").unwrap().markdown, "# A2");
    assert_eq!(state.get("a.md").unwrap().last_modified, 20);
    assert_eq!(state.get("a.md").unwrap().content_hash, md5::compute("# A2").0);
    assert_eq!(state.get("b.md").unwrap().markdown, "# B");
    // Keys are not touched: the new file is left to a reconciliation pass.
    assert!(!state.is_tracked("new.md"));
    // The same file state again: nothing newer, nothing reported.
    assert_eq!(state.refresh_from_scan(&scan), None);
    // Content read at an older time is not taken in.
    assert_eq!(state.refresh_from_scan(&vec![found_read("a.md", 5, "# Old")]), None);
    assert_eq!(state.get("a.md").unwrap().markdown, "# A2");
}
