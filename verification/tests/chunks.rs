use noema_core::chunks::{
    chunk_note, chunk_notes, split_into_chunks, split_long_text, try_split_at_boundary, Chunk,
    DEFAULT_MAX_CHARS,
};
use noema_core::notes::Note;
use noema_core::text::{from_chars, to_chars};
use std::path::PathBuf;

fn note(body: &str) -> Note {
    Note { path: PathBuf::from("test.md"), raw: body.to_string(), body: body.to_string() }
}

fn texts(chunks: &[Chunk]) -> Vec<String> {
    chunks.iter().map(|c| c.text.clone()).collect()
}

fn pieces(text: &str, max_chars: usize) -> Vec<String> {
    let chars = to_chars(text);
    split_into_chunks(&chars, max_chars).into_iter().map(from_chars).collect()
}

#[test]
fn chunk_short_note() {
    let n = note("One paragraph.");
    let c = chunk_note(&n, 512);
    assert_eq!(c.len(), 1);
    assert_eq!(c[0].text, "One paragraph.");
}

#[test]
fn chunk_by_paragraphs() {
    let n = note("P1\n\nP2\n\nP3");
    let c = chunk_note(&n, 512);
    assert_eq!(c.len(), 3);
    assert_eq!(c[0].text, "P1");
    assert_eq!(c[1].text, "P2");
    assert_eq!(c[2].text, "P3");
}

#[test]
fn chunk_long_paragraph() {
    let long = "a".repeat(600);
    let n = note(&long);
    let c = chunk_note(&n, 200);
    assert!(c.len() >= 3);
    assert!(c.iter().all(|ch| ch.text.len() <= 200));
}

#[test]
fn chunk_by_paragraphs_numbers_from_zero() {
    let c = chunk_note(&note("P1\n\nP2\n\nP3"), DEFAULT_MAX_CHARS);
    let indices: Vec<usize> = c.iter().map(|ch| ch.index).collect();
    assert_eq!(indices, vec![0, 1, 2]);
    assert!(c.iter().all(|ch| ch.note_path == PathBuf::from("test.md")));
}

#[test]
fn chunk_long_run_is_cut_at_the_budget() {
    let c = chunk_note(&note(&"a".repeat(600)), 200);
    assert_eq!(texts(&c), vec!["a".repeat(200), "a".repeat(200), "a".repeat(200)]);
    let d = chunk_note(&note(&"a".repeat(450)), 200);
    assert_eq!(texts(&d), vec!["a".repeat(200), "a".repeat(200), "a".repeat(50)]);
}

#[test]
fn chunk_blank_body_has_no_chunks() {
    assert!(chunk_note(&note(""), 512).is_empty());
    assert!(chunk_note(&note(" \n\t\n\n  "), 512).is_empty());
    assert!(chunk_note(&note("\n\n"), 0).is_empty());
}

#[test]
fn chunk_zero_budget_keeps_the_body_whole() {
    let c = chunk_note(&note("  First\n\nSecond and more\n\nThird\n"), 0);
    assert_eq!(texts(&c), vec!["First\n\nSecond and more\n\nThird"]);
    assert_eq!(c[0].index, 0);
}

#[test]
fn chunk_skips_blank_paragraphs() {
    let c = chunk_note(&note("First\n\n\n\n  \n\nSecond"), 512);
    assert_eq!(texts(&c), vec!["First", "Second"]);
}

#[test]
fn chunk_prefers_the_last_line_break() {
    let c = chunk_note(&note("aaa bbb\nccc ddd\neee fff"), 16);
    assert_eq!(texts(&c), vec!["aaa bbb\nccc ddd", "eee fff"]);
}

#[test]
fn chunk_falls_back_to_the_last_space() {
    let c = chunk_note(&note("aaa bbb ccc ddd"), 8);
    assert_eq!(texts(&c), vec!["aaa bbb", "ccc ddd"]);
    let d = chunk_note(&note("aaaa bbbb"), 4);
    assert_eq!(texts(&d), vec!["aaaa", "bbbb"]);
}

#[test]
fn chunk_trims_what_a_space_cut_leaves() {
    let c = chunk_note(&note("aaa  bbbbbb"), 4);
    assert_eq!(texts(&c), vec!["aaa", "bbbb", "bb"]);
}

#[test]
fn chunk_lengths_count_characters() {
    let c = chunk_note(&note(&"é".repeat(5)), 2);
    assert_eq!(texts(&c), vec!["éé", "éé", "é"]);
}

#[test]
fn chunk_texts_keep_all_that_is_not_white_space() {
    let body = "Alpha beta\tgamma\n\ndelta  epsilon\nzeta eta theta iota kappa\n\n\n lambda ";
    for max_chars in [0usize, 1, 2, 3, 5, 8, 13, 512] {
        let c = chunk_note(&note(body), max_chars);
        let kept: String = texts(&c).concat().chars().filter(|ch| !ch.is_whitespace()).collect();
        let expected: String = body.chars().filter(|ch| !ch.is_whitespace()).collect();
        assert_eq!(kept, expected, "budget {}", max_chars);
        for (i, ch) in c.iter().enumerate() {
            assert_eq!(ch.index, i);
            assert!(!ch.text.is_empty());
            assert_eq!(ch.text.trim(), ch.text);
            if max_chars > 0 {
                assert!(ch.text.chars().count() <= max_chars);
            }
        }
    }
}

#[test]
fn chunk_notes_restarts_the_numbering() {
    let mut b = note("B1");
    b.path = PathBuf::from("b.md");
    let notes = vec![note("A1\n\nA2"), note("  "), b];
    let c = chunk_notes(&notes, 512);
    assert_eq!(texts(&c), vec!["A1", "A2", "B1"]);
    assert_eq!(c.iter().map(|ch| ch.index).collect::<Vec<_>>(), vec![0, 1, 0]);
    assert_eq!(c[2].note_path, PathBuf::from("b.md"));
    assert!(chunk_notes(&[], 512).is_empty());
}

#[test]
fn chunking_is_repeatable() {
    let n = note("one two three four five six seven\n\neight nine");
    assert_eq!(texts(&chunk_note(&n, 9)), texts(&chunk_note(&n, 9)));
}

#[test]
fn split_into_chunks_leaves_text_whole_without_budget() {
    assert_eq!(pieces(" a\n\nb ", 0), vec![" a\n\nb "]);
    assert!(pieces("  \n\n ", 4).is_empty());
    assert_eq!(pieces(" a\n\nb ", 4), vec!["a", "b"]);
}

#[test]
fn split_long_text_cuts_until_the_rest_fits() {
    let chars = to_chars("aaaa bbbb cccc");
    let got: Vec<String> = split_long_text(&chars, 9).into_iter().map(from_chars).collect();
    assert_eq!(got, vec!["aaaa bbbb", "cccc"]);
    assert!(split_long_text(&[], 9).is_empty());
}

#[test]
fn try_split_at_boundary_cuts_once() {
    let chars = to_chars("ab\ncd efgh");
    let (piece, rest) = try_split_at_boundary(&chars, 6);
    assert_eq!(from_chars(piece), "ab");
    assert_eq!(from_chars(rest), "cd efgh");
    let chars = to_chars("abcd efgh");
    let (piece, rest) = try_split_at_boundary(&chars, 6);
    assert_eq!(from_chars(piece), "abcd");
    assert_eq!(from_chars(rest), "efgh");
    let chars = to_chars("abcdefgh   ij");
    let (piece, rest) = try_split_at_boundary(&chars, 3);
    assert_eq!(from_chars(piece), "abc");
    assert_eq!(from_chars(rest), "defgh   ij");
    let (piece, rest) = try_split_at_boundary(&chars, 8);
    assert_eq!(from_chars(piece), "abcdefgh");
    assert_eq!(from_chars(rest), "ij");
}

#[test]
fn chunk_clone_is_equal() {
    let c = chunk_note(&note("text"), 512);
    let d = c[0].clone();
    assert_eq!(d.text, "text");
    assert_eq!(d.index, 0);
    assert_eq!(d.note_path, PathBuf::from("test.md"));
}
