use traffic_analyzer::text::{
    append, chars_of, contains, contains_char, find_text, is_empty, is_whitespace, join, repeat,
    same_text, split, starts_with, text_of, trim, Edge,
};

#[test]
fn whitespace_agrees_with_std() {
    for c in '\u{0}'..=char::MAX {
        assert_eq!(is_whitespace(c), c.is_whitespace());
    }
}

#[test]
fn splitting_agrees_with_std() {
    for s in ["", "a", "/", "a/b", "//", "/a//b/", "a\tb", "가/나/다"] {
        let expected: Vec<String> = s.split('/').map(|p| p.to_string()).collect();
        assert_eq!(split(s, '/'), expected);
    }
}

#[test]
fn joining_undoes_splitting() {
    for s in ["", "a,b", ",", "a,,b,", "하나,둘"] {
        assert_eq!(join(&split(s, ','), ","), s);
    }
}

#[test]
fn pieces_hold_no_separator() {
    for piece in split("/a//b/", '/') {
        assert!(!contains_char(piece.as_str(), '/'));
    }
}

#[test]
fn trimming_agrees_with_std() {
    for s in ["", " ", " a b ", "\t\u{3000}x\u{a0}\n", "\"quoted\"", "''", "[List]", "]["] {
        assert_eq!(trim(s, Edge::Space), s.trim());
        assert_eq!(trim(s, Edge::Only('"')), s.trim_matches('"'));
        assert_eq!(trim(s, Edge::Either('[', ']')), s.trim_matches(|c| c == '[' || c == ']'));
    }
}

#[test]
fn searching_agrees_with_std() {
    for (s, pat) in [
        ("", ""),
        ("abc", ""),
        ("abc", "abc"),
        ("abc", "bc"),
        ("abc", "abcd"),
        ("aab", "ab"),
        ("한글 본문", "본"),
    ] {
        assert_eq!(contains(s, pat), s.contains(pat));
        assert_eq!(starts_with(s, pat), s.starts_with(pat));
        assert_eq!(same_text(s, pat), s == pat);
    }
    assert_eq!(find_text(&chars_of("aXbX"), "X"), Some(1));
    assert_eq!(find_text(&chars_of("ab"), "X"), None);
}

#[test]
fn parts_of_texts() {
    assert_eq!(text_of(&chars_of("가나다라"), 1, 3), "나다");
    assert_eq!(append("ab", "cd"), "abcd");
    assert_eq!(repeat('█', 3), "███");
    assert_eq!(repeat('█', 0), "");
    assert!(is_empty(""));
    assert!(!is_empty(" "));
}
