use noema_core::status;
use noema_core::watcher::{
    on_watch_event, resolved_root, watch_root, WatchAction, WatchError, DEBOUNCE_MILLIS,
};
use std::path::PathBuf;

#[test]
fn status_is_ready() {
    assert_eq!(status(), "noema-core ready");
}

#[test]
fn watcher_waits_for_bursts_to_end() {
    assert_eq!(DEBOUNCE_MILLIS, 400);
}

#[test]
fn watcher_needs_a_directory() {
    match watch_root(PathBuf::from("f.txt"), false) {
        Err(WatchError::NotADirectory(p)) => assert_eq!(p, PathBuf::from("f.txt")),
        other => panic!("unexpected: {:?}", other),
    }
    assert_eq!(watch_root(PathBuf::from("d"), true).unwrap(), PathBuf::from("d"));
}

#[test]
fn watcher_watches_the_resolved_root() {
    let denied = std::io::Error::new(std::io::ErrorKind::PermissionDenied, "denied");
    match resolved_root(Err(denied)) {
        Err(WatchError::Canonicalize(e)) => assert_eq!(e.kind(), std::io::ErrorKind::PermissionDenied),
        other => panic!("unexpected: {:?}", other),
    }
    assert_eq!(resolved_root(Ok(PathBuf::from("/r/d"))).unwrap(), PathBuf::from("/r/d"));
}

#[test]
fn watcher_rescans_on_change() {
    assert!(matches!(on_watch_event(Ok(())), WatchAction::Rescan));
    match on_watch_event(Err("lost".to_string())) {
        WatchAction::Report(m) => assert_eq!(m, "lost"),
        other => panic!("unexpected: {:?}", other),
    }
}
