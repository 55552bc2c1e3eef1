use firow_notepad::watch::{FileEventKind, WatchRegistry};

#[test]
fn watching_the_same_path_twice_creates_one_watcher() {
    let mut reg = WatchRegistry::new();
    assert!(reg.watch("/doc/a.md".to_string()), "first registration starts a watcher");
    assert!(!reg.watch("/doc/a.md".to_string()), "second registration is a no-op");
    assert_eq!(reg.watched_count(), 1);

    // A content modification for the watched path is dispatched exactly once:
    // there is one watcher, and the decision for it says "forward".
    assert!(reg.should_dispatch(&"/doc/a.md".to_string(), &FileEventKind::ContentModified));
}

#[test]
fn distinct_paths_each_get_a_watcher() {
    let mut reg = WatchRegistry::new();
    assert!(reg.watch("/doc/a.md".to_string()));
    assert!(reg.watch("/doc/b.md".to_string()));
    assert_eq!(reg.watched_count(), 2);
    assert!(reg.is_watched(&"/doc/a.md".to_string()));
    assert!(reg.is_watched(&"/doc/b.md".to_string()));
}

#[test]
fn unwatch_disposes_the_watcher_and_tolerates_absence() {
    let mut reg = WatchRegistry::new();
    reg.watch("/doc/a.md".to_string());
    assert!(reg.unwatch(&"/doc/a.md".to_string()));
    assert_eq!(reg.watched_count(), 0);
    assert!(!reg.is_watched(&"/doc/a.md".to_string()));
    // Unwatching a path that is not watched is no error.
    assert!(!reg.unwatch(&"/doc/a.md".to_string()));
}

#[test]
fn only_content_modifications_are_forwarded() {
    let mut reg = WatchRegistry::new();
    let path = "/doc/a.md".to_string();
    reg.watch(path.clone());
    assert!(reg.should_dispatch(&path, &FileEventKind::ContentModified));
    assert!(!reg.should_dispatch(&path, &FileEventKind::Created));
    assert!(!reg.should_dispatch(&path, &FileEventKind::MetadataChanged));
    assert!(!reg.should_dispatch(&path, &FileEventKind::Renamed));
    assert!(!reg.should_dispatch(&path, &FileEventKind::Removed));
    assert!(!reg.should_dispatch(&path, &FileEventKind::Other));
}

#[test]
fn events_for_unwatched_paths_are_not_forwarded() {
    let mut reg = WatchRegistry::new();
    reg.watch("/doc/a.md".to_string());
    assert!(!reg.should_dispatch(&"/doc/other.md".to_string(), &FileEventKind::ContentModified));
    reg.unwatch(&"/doc/a.md".to_string());
    assert!(!reg.should_dispatch(&"/doc/a.md".to_string(), &FileEventKind::ContentModified));
}
