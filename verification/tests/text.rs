use noema_core::text::{char_is_whitespace, from_chars, rfind, to_chars, trim, trim_end, trim_start};

#[test]
fn white_space_is_what_the_standard_library_calls_so() {
    for code in 0u32..=0x10FFFF {
        if let Some(c) = char::from_u32(code) {
            assert_eq!(char_is_whitespace(c), c.is_whitespace(), "U+{:04X}", code);
        }
    }
}

#[test]
fn trimming_agrees_with_the_standard_library() {
    for s in ["", " ", "a", "  a b \n", "\u{a0}x\u{3000}", "\t\r\n", "é ", " \u{feff}a"] {
        let chars = to_chars(s);
        assert_eq!(from_chars(trim(&chars)), s.trim());
        assert_eq!(from_chars(trim_start(&chars)), s.trim_start());
        assert_eq!(from_chars(trim_end(&chars)), s.trim_end());
    }
}

#[test]
fn characters_round_trip() {
    for s in ["", "abc", "héllo wörld", "日本語\n"] {
        let chars = to_chars(s);
        assert_eq!(chars, s.chars().collect::<Vec<char>>());
        assert_eq!(from_chars(&chars), s);
    }
}

#[test]
fn rfind_gives_the_last_position() {
    let chars = to_chars("a b c");
    assert_eq!(rfind(&chars, ' '), Some(3));
    assert_eq!(rfind(&chars, 'a'), Some(0));
    assert_eq!(rfind(&chars, 'x'), None);
    assert_eq!(rfind(&[], 'x'), None);
}
