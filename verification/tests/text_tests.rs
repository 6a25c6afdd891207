use iron_mockside::text::{
    chars_of, contains_chars, is_space, matches_at, split_spans, str_contains, substring, trim_span,
};

fn chars(text: &str) -> Vec<char> {
    text.chars().collect()
}

#[test]
fn whitespace_is_what_the_standard_library_says() {
    for code in 0..=0x10FFFFu32 {
        if let Some(c) = char::from_u32(code) {
            assert_eq!(c.is_whitespace(), is_space(c));
        }
    }
}

#[test]
fn chars_of_lists_the_characters() {
    assert_eq!(chars("a\u{e9}\u{4e2d}\u{1f600}b"), chars_of("a\u{e9}\u{4e2d}\u{1f600}b"));
    assert!(chars_of("").is_empty());
}

#[test]
fn trim_span_agrees_with_trim() {
    for text in ["", " ", "a", " a", "a ", "  a b  ", "\t\r\n x \u{a0}\u{3000}", "\u{2003}", "x\ny"] {
        let all = chars(text);
        let (from, to) = trim_span(&all, 0, all.len());
        let trimmed: String = all[from..to].iter().collect();
        assert_eq!(text.trim(), trimmed);
        let front: String = all[from..].iter().collect();
        assert_eq!(text.trim_start(), front);
    }
}

#[test]
fn trim_span_stays_inside_its_bounds() {
    let all = chars("ab  cd  ef");
    assert_eq!((4, 6), trim_span(&all, 2, 8));
    assert_eq!((3, 3), trim_span(&all, 2, 3));
    assert_eq!((5, 5), trim_span(&all, 5, 5));
}

#[test]
fn split_spans_cuts_at_every_separator() {
    for text in ["", ";", "a", "a;b", ";a;;b;", "abc;;", "a\nb"] {
        let all = chars(text);
        let pieces: Vec<String> = split_spans(&all, ';')
            .into_iter()
            .map(|(from, to)| all[from..to].iter().collect())
            .collect();
        let expected: Vec<String> = text.split(';').map(|piece| piece.to_string()).collect();
        assert_eq!(expected, pieces);
    }
    assert_eq!(vec![(0, 1), (2, 2), (3, 5)], split_spans(&chars("a;;bc"), ';'));
}

#[test]
fn contains_agrees_with_the_standard_library() {
    let texts = ["", "a", "ab", "aab", "abab", "switch_to_default", "switch", "\u{e9}t\u{e9}", "t\u{e9}"];
    for hay in texts {
        for needle in texts {
            assert_eq!(hay.contains(needle), str_contains(hay, needle));
            assert_eq!(hay.contains(needle), contains_chars(&chars(hay), &chars(needle)));
        }
    }
}

#[test]
fn matches_at_compares_in_place() {
    let hay = chars("abcabc");
    assert!(matches_at(&hay, &chars("abc"), 0));
    assert!(matches_at(&hay, &chars("abc"), 3));
    assert!(!matches_at(&hay, &chars("abc"), 1));
    assert!(matches_at(&hay, &chars(""), 6));
    assert!(matches_at(&hay, &chars("c"), 5));
}

#[test]
fn substring_counts_characters() {
    assert_eq!("\u{e9}\u{4e2d}", substring("a\u{e9}\u{4e2d}b", 1, 3));
    assert_eq!("", substring("abc", 3, 3));
    assert_eq!("abc", substring("abc", 0, 3));
}
