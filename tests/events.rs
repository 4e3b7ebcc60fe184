use docserve::{
    handle_file_event, ActionKind, DebounceScheduler, EventKind, FileContents, FileIndex,
    FileRead, MarkdownAction, RenameMode, ScanEntry, ServerMessage, RESCAN_DELAY_MS,
};

fn paths(v: &[&str]) -> Vec<String> {
    v.iter().map(|s| s.to_string()).collect()
}

fn kinds(v: &[docserve::EventAction]) -> Vec<(ActionKind, String)> {
    v.iter().map(|a| (a.kind, a.path.clone())).collect()
}

#[test]
fn rename_in_directory_mode_schedules_rescan() {
    let r = handle_file_event(EventKind::ModifyName(RenameMode::Both), &paths(&["/d/a.md", "/d/b.md"]), true);
    assert_eq!(kinds(&r), vec![(ActionKind::ScheduleRescan, String::new())]);
}

#[test]
fn rename_in_single_file_mode_is_resolved_at_once() {
    let p = paths(&["/d/old.md", "/d/new.md"]);
    let r = handle_file_event(EventKind::ModifyName(RenameMode::Both), &p, false);
    assert_eq!(kinds(&r), vec![(ActionKind::MarkdownChanged, "/d/new.md".to_string())]);
    let r = handle_file_event(EventKind::ModifyName(RenameMode::To), &p, false);
    assert_eq!(kinds(&r), vec![(ActionKind::MarkdownChanged, "/d/old.md".to_string())]);
    let r = handle_file_event(EventKind::ModifyName(RenameMode::Any), &p, false);
    assert_eq!(kinds(&r), vec![(ActionKind::MarkdownChangedIfExists, "/d/old.md".to_string())]);
    let r = handle_file_event(EventKind::ModifyName(RenameMode::From), &p, false);
    assert!(r.is_empty());
    let r = handle_file_event(EventKind::ModifyName(RenameMode::Both), &paths(&["/d/a.md"]), false);
    assert!(r.is_empty());
}

#[test]
fn plain_events_route_each_path() {
    let p = paths(&["/d/a.md", "/d/pic.PNG", "/d/notes.txt"]);
    let r = handle_file_event(EventKind::ModifyData, &p, true);
    assert_eq!(
        kinds(&r),
        vec![
            (ActionKind::MarkdownChanged, "/d/a.md".to_string()),
            (ActionKind::ImageChangedIfFile, "/d/pic.PNG".to_string()),
        ]
    );
    let r = handle_file_event(EventKind::Remove, &p, true);
    assert_eq!(
        kinds(&r),
        vec![
            (ActionKind::ScheduleRescan, "/d/a.md".to_string()),
            (ActionKind::ImageChangedIfFile, "/d/pic.PNG".to_string()),
        ]
    );
    let r = handle_file_event(EventKind::Remove, &p, false);
    assert_eq!(kinds(&r), vec![(ActionKind::ImageChangedIfFile, "/d/pic.PNG".to_string())]);
    let r = handle_file_event(EventKind::Other, &p, true);
    assert!(r.is_empty());
}

#[test]
fn debounce_arms_one_timer_per_burst() {
    assert_eq!(RESCAN_DELAY_MS, 200);
    let mut d = DebounceScheduler::new();
    assert!(d.schedule_delayed_rescan());
    assert!(!d.schedule_delayed_rescan());
    assert!(!d.schedule_delayed_rescan());
    d.timer_fired();
    assert!(d.schedule_delayed_rescan());
}

#[test]
fn atomic_replace_yields_one_notification_and_new_content() {
    // Single tracked file; an editor writes a temp file and renames it over.
    let base = "/tmp/w";
    let target = "/tmp/w/doc.md";
    let mut index = FileIndex::new(
        base.to_string(),
        vec![FileRead { path: target.to_string(), last_modified: 100, markdown: "# Original".to_string() }],
        false,
    )
    .unwrap();
    let mut notifications: Vec<ServerMessage> = Vec::new();

    // The temp file is not a document: its events lead nowhere.
    let tmp = paths(&["/tmp/w/.doc.md.swp"]);
    assert!(handle_file_event(EventKind::Create, &tmp, false).is_empty());

    // A read between the rename and its handling still finds the document.
    assert_eq!(index.get("doc.md").unwrap().markdown, "# Original");

    // One replace reports the new name twice: a To event and a Both event.
    let events = [
        (RenameMode::To, paths(&[target])),
        (RenameMode::Both, paths(&["/tmp/w/.doc.md.swp", target])),
    ];
    for (mode, p) in events.iter() {
        for action in handle_file_event(EventKind::ModifyName(*mode), p, false) {
            assert_eq!(action.kind, ActionKind::MarkdownChanged);
            match index.handle_markdown_file_change(&action.path, target) {
                MarkdownAction::Refresh { key } => {
                    if let Some(msg) = index.refresh_file(&key, 200, "# Updated".to_string()) {
                        notifications.push(msg);
                    }
                }
                other => panic!("unexpected {:?}", other),
            }
        }
    }
    assert_eq!(notifications, vec![ServerMessage::Reload]);
    assert_eq!(index.get("doc.md").unwrap().markdown, "# Updated");
}

#[test]
fn atomic_replace_in_directory_mode_reloads_once() {
    let base = "/tmp/w";
    let mut index = FileIndex::new(
        base.to_string(),
        vec![FileRead { path: "/tmp/w/doc.md".to_string(), last_modified: 1, markdown: "# Original".to_string() }],
        true,
    )
    .unwrap();
    let mut debounce = DebounceScheduler::new();
    let mut timers = 0;
    let events = [
        paths(&["/tmp/w/doc.md", "/tmp/w/doc.md~"]),
        paths(&["/tmp/w/doc.md.tmp", "/tmp/w/doc.md"]),
    ];
    for p in events.iter() {
        for a in handle_file_event(EventKind::ModifyName(RenameMode::Both), p, true) {
            assert_eq!(a.kind, ActionKind::ScheduleRescan);
            if debounce.schedule_delayed_rescan() {
                timers += 1;
            }
        }
        assert!(index.is_tracked("doc.md"));
    }
    assert_eq!(timers, 1);
    debounce.timer_fired();
    let scan = vec![ScanEntry {
        path: "/tmp/w/doc.md".to_string(),
        contents: Some(FileContents { last_modified: 2, markdown: "# Updated".to_string() }),
    }];
    let mut notifications: Vec<ServerMessage> = Vec::new();
    // The pass finds the same key: no key change, so newer content is taken in.
    match index.rescan_and_detect_changes(&scan) {
        Some(msg) => notifications.push(msg),
        None => {
            if let Some(msg) = index.refresh_from_scan(&scan) {
                notifications.push(msg);
            }
        }
    }
    assert_eq!(notifications, vec![ServerMessage::Reload]);
    assert_eq!(index.get("doc.md").unwrap().markdown, "# Updated");
}
