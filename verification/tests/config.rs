use noema_core::config::{get_notes_root, resolve_notes_root, set_notes_root, Config, ConfigError};
use std::path::PathBuf;

#[test]
fn config_starts_without_a_root() {
    let config = Config::default();
    assert!(config.notes_root.is_none());
    assert_eq!(get_notes_root(&config), None);
}

#[test]
fn config_ignores_an_empty_root() {
    let config = Config { notes_root: Some(String::new()) };
    assert_eq!(get_notes_root(&config), None);
}

#[test]
fn config_names_its_root() {
    let config = Config { notes_root: Some("/home/me/notes".to_string()) };
    assert_eq!(get_notes_root(&config), Some(PathBuf::from("/home/me/notes")));
}

#[test]
fn config_takes_a_root() {
    let mut config = Config::default();
    set_notes_root(&mut config, "/srv/notes");
    assert_eq!(config.notes_root.as_deref(), Some("/srv/notes"));
    assert_eq!(get_notes_root(&config), Some(PathBuf::from("/srv/notes")));
}

#[test]
fn config_root_must_be_a_directory() {
    assert_eq!(resolve_notes_root(Ok(PathBuf::from("/a")), true).unwrap(), PathBuf::from("/a"));
    match resolve_notes_root(Ok(PathBuf::from("/a/f.txt")), false) {
        Err(ConfigError::NotADirectory(p)) => assert_eq!(p, PathBuf::from("/a/f.txt")),
        other => panic!("unexpected: {:?}", other),
    }
    let missing = std::io::Error::new(std::io::ErrorKind::NotFound, "missing");
    match resolve_notes_root(Err(missing), false) {
        Err(ConfigError::Canonicalize(e)) => assert_eq!(e.kind(), std::io::ErrorKind::NotFound),
        other => panic!("unexpected: {:?}", other),
    }
}
