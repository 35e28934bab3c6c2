use noema_core::notes::{
    is_hidden, is_markdown, prunes, scan_listing, strip_frontmatter, wants_content, ScanError, Seen,
    WalkEntry,
};
use std::path::PathBuf;

#[test]
fn strip_frontmatter_plain() {
    let s = "Hello world.";
    assert_eq!(strip_frontmatter(s), "Hello world.");
}

#[test]
fn strip_frontmatter_with_yaml() {
    let s = "---\ntitle: Foo\ndate: 2024-01-01\n---\n\nActual content here.";
    assert_eq!(strip_frontmatter(s), "Actual content here.");
}

#[test]
fn strip_frontmatter_title_block() {
    assert_eq!(strip_frontmatter("---\ntitle: X\n---\n\nHello world."), "Hello world.");
}

#[test]
fn strip_frontmatter_unterminated_block_is_kept() {
    let s = "---\ntitle: X\n\nHello world.";
    assert_eq!(strip_frontmatter(s), s);
}

#[test]
fn strip_frontmatter_keeps_leading_space_without_block() {
    let s = "  \n Hello\n---\nmore";
    assert_eq!(strip_frontmatter(s), s);
}

#[test]
fn strip_frontmatter_after_leading_blank_lines() {
    assert_eq!(strip_frontmatter("\n\n---\na: b\n---\nBody"), "Body");
}

#[test]
fn strip_frontmatter_empty_block() {
    assert_eq!(strip_frontmatter("---\n---\nBody"), "Body");
}

#[test]
fn strip_frontmatter_windows_line_ends() {
    assert_eq!(strip_frontmatter("---\r\na: b\r\n---\r\n\r\nBody\r\n"), "Body\r\n");
}

#[test]
fn strip_frontmatter_delimiter_must_fill_its_line() {
    let s = "---\na: b\n---x\nBody";
    assert_eq!(strip_frontmatter(s), s);
    let t = "--- title\na: b\n---\nBody";
    assert_eq!(strip_frontmatter(t), t);
}

#[test]
fn strip_frontmatter_stops_at_first_closing_line() {
    assert_eq!(strip_frontmatter("---\na\n---\nb\n---\nc"), "b\n---\nc");
}

#[test]
fn strip_frontmatter_closing_line_at_end() {
    assert_eq!(strip_frontmatter("---\na: b\n---"), "");
    assert_eq!(strip_frontmatter("---"), "---");
}

#[test]
fn hidden_names_begin_with_a_dot() {
    assert!(is_hidden(".git"));
    assert!(is_hidden("."));
    assert!(!is_hidden("notes"));
    assert!(!is_hidden("a.b"));
    assert!(!is_hidden(""));
}

#[test]
fn markdown_names_end_with_dot_md() {
    assert!(is_markdown("a.md"));
    assert!(is_markdown("notes.2024.md"));
    assert!(!is_markdown(".md"));
    assert!(!is_markdown("md"));
    assert!(!is_markdown("a.MD"));
    assert!(!is_markdown("a.md.txt"));
    assert!(!is_markdown("a.mdx"));
    assert!(!is_markdown(""));
}

#[test]
fn markdown_test_agrees_with_path_extension() {
    for name in ["a.md", ".md", "..md", "a.b.md", "md", "a.", "a.md.", "x.markdown", "é.md"] {
        let expected = PathBuf::from(name).extension().map_or(false, |e| e == "md");
        assert_eq!(is_markdown(name), expected, "{}", name);
    }
}

fn entry(path: &str, depth: usize, is_file: bool) -> WalkEntry {
    let path = PathBuf::from(path);
    let name = path.file_name().unwrap().to_string_lossy().into_owned();
    WalkEntry { path, name, depth, is_file }
}

fn dir(path: &str, depth: usize) -> Seen {
    Seen::Entry(entry(path, depth, false))
}

fn file(path: &str, depth: usize, content: &str) -> Seen {
    let seen = entry(path, depth, true);
    if wants_content(&seen) {
        Seen::File(seen, Ok(content.to_string()))
    } else {
        Seen::Entry(seen)
    }
}

fn scan(listing: Vec<Seen>) -> Result<Vec<(PathBuf, String)>, ScanError> {
    scan_listing(PathBuf::from("r"), true, listing)
        .map(|notes| notes.into_iter().map(|n| (n.path, n.body)).collect())
}

#[test]
fn scan_of_a_missing_root_fails() {
    match scan_listing(PathBuf::from("/no/such/dir"), false, vec![]) {
        Err(ScanError::NotADirectory(p)) => assert_eq!(p, PathBuf::from("/no/such/dir")),
        other => panic!("unexpected: {:?}", other),
    }
    let listing = vec![file("f.md", 0, "A")];
    assert!(matches!(
        scan_listing(PathBuf::from("f.md"), false, listing),
        Err(ScanError::NotADirectory(_))
    ));
}

#[test]
fn scan_wants_only_note_files() {
    assert!(wants_content(&entry("r/a.md", 1, true)));
    assert!(wants_content(&entry("r/sub/b.md", 2, true)));
    assert!(!wants_content(&entry("r/a.txt", 1, true)));
    assert!(!wants_content(&entry("r/.a.md", 1, true)));
    assert!(!wants_content(&entry("r/d.md", 1, false)));
    assert!(!wants_content(&entry("r", 0, false)));
}

#[test]
fn scan_prunes_hidden_entries_below_the_root() {
    assert!(prunes(1, ".git"));
    assert!(prunes(3, ".obsidian"));
    assert!(!prunes(1, "notes"));
    assert!(!prunes(0, ".notes"));
    assert!(!prunes(0, "."));
}

#[test]
fn scan_of_an_empty_directory_is_empty() {
    assert!(scan(vec![dir("r", 0)]).unwrap().is_empty());
    assert!(scan(vec![]).unwrap().is_empty());
}

#[test]
fn scan_without_note_files_is_empty() {
    let listing = vec![
        dir("r", 0),
        file("r/a.txt", 1, "text"),
        file("r/.h.md", 1, "hidden"),
        dir("r/sub", 1),
        file("r/sub/readme", 2, "text"),
        dir("r/.git", 1),
        Seen::File(entry("r/.git/notes.md", 2, true), Ok("below".to_string())),
        dir("r/.git/x", 2),
        Seen::File(entry("r/.git/x/deep.md", 3, true), Ok("deeper".to_string())),
    ];
    assert!(scan(listing).unwrap().is_empty());
}

#[test]
fn scan_leaves_a_hidden_directory_behind() {
    let listing = vec![
        dir("r", 0),
        dir("r/.git", 1),
        Seen::File(entry("r/.git/a.md", 2, true), Ok("A".to_string())),
        file("r/b.md", 1, "B"),
        dir("r/sub", 1),
        file("r/sub/c.md", 2, "C"),
    ];
    let found = scan(listing).unwrap();
    assert_eq!(
        found,
        vec![(PathBuf::from("r/b.md"), "B".to_string()), (PathBuf::from("r/sub/c.md"), "C".to_string())]
    );
}

#[test]
fn scan_under_a_hidden_root_finds_notes() {
    let listing = vec![dir(".notes", 0), file(".notes/a.md", 1, "A")];
    let found = scan_listing(PathBuf::from(".notes"), true, listing).unwrap();
    assert_eq!(found.len(), 1);
    assert_eq!(found[0].path, PathBuf::from(".notes/a.md"));
}

#[test]
fn scan_reports_a_failed_walk() {
    let listing = vec![
        dir("r", 0),
        file("r/a.md", 1, "A"),
        Seen::Failed("permission denied".to_string()),
        file("r/b.md", 1, "B"),
    ];
    match scan(listing) {
        Err(ScanError::Walk(m)) => assert_eq!(m, "permission denied"),
        other => panic!("unexpected: {:?}", other),
    }
}

#[test]
fn scan_collects_notes_in_order() {
    let listing = vec![
        dir("r", 0),
        file("r/a.md", 1, "---\nt: 1\n---\nA"),
        file("r/b.md", 1, "B"),
    ];
    let notes = scan_listing(PathBuf::from("r"), true, listing).unwrap();
    assert_eq!(notes.len(), 2);
    assert_eq!(notes[0].path, PathBuf::from("r/a.md"));
    assert_eq!(notes[0].raw, "---\nt: 1\n---\nA");
    assert_eq!(notes[0].body, "A");
    assert_eq!(notes[1].path, PathBuf::from("r/b.md"));
    assert_eq!(notes[1].body, "B");
}

#[test]
fn scan_reports_the_first_failure() {
    let unreadable = std::io::Error::new(std::io::ErrorKind::InvalidData, "not text");
    let listing = vec![
        dir("r", 0),
        file("r/a.md", 1, "A"),
        Seen::File(entry("r/b.md", 1, true), Err(unreadable)),
        Seen::Failed("later".to_string()),
    ];
    match scan(listing) {
        Err(ScanError::Read(p, e)) => {
            assert_eq!(p, PathBuf::from("r/b.md"));
            assert_eq!(e.kind(), std::io::ErrorKind::InvalidData);
        }
        other => panic!("unexpected: {:?}", other),
    }
}

#[test]
fn scan_ignores_a_failed_read_of_what_is_no_note() {
    let unreadable = std::io::Error::new(std::io::ErrorKind::InvalidData, "not text");
    let listing = vec![
        dir("r", 0),
        Seen::File(entry("r/image.png", 1, true), Err(unreadable)),
        file("r/a.md", 1, "A"),
    ];
    assert_eq!(scan(listing).unwrap(), vec![(PathBuf::from("r/a.md"), "A".to_string())]);
}
