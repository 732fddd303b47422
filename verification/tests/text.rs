use web_server::text::{
    chars_of, leading_span, lower_char, lowercase, parse_usize, same_text, skip_leading,
    skip_trailing, split_token, string_of, trimmed, upper_char, uppercase_is, whitespace,
    CharClass,
};

fn chars(s: &str) -> Vec<char> {
    s.chars().collect()
}

fn text(c: &[char]) -> String {
    c.iter().collect()
}

#[test]
fn whitespace_agrees_with_the_standard_library() {
    for code in 0..=0x10FFFFu32 {
        if let Some(c) = char::from_u32(code) {
            assert_eq!(whitespace(c), c.is_whitespace(), "U+{:04X}", code);
        }
    }
}

#[test]
fn case_mapping_agrees_with_the_standard_library() {
    for code in 0..=0x10FFFFu32 {
        if let Some(c) = char::from_u32(code) {
            assert_eq!(lower_char(c), c.to_ascii_lowercase(), "U+{:04X}", code);
            assert_eq!(upper_char(c), c.to_ascii_uppercase(), "U+{:04X}", code);
        }
    }
}

#[test]
fn char_class_membership() {
    assert!(CharClass::Only(':').contains(':'));
    assert!(!CharClass::Only(':').contains(';'));
    assert!(CharClass::Whitespace.contains(' '));
    assert!(CharClass::Whitespace.contains('\u{2003}'));
    assert!(!CharClass::Whitespace.contains('x'));
    assert!(CharClass::LineBreak.contains('\r'));
    assert!(CharClass::LineBreak.contains('\n'));
    assert!(!CharClass::LineBreak.contains(' '));
}

#[test]
fn chars_and_strings_convert_both_ways() {
    assert_eq!(chars_of("a\u{e9}\u{1F600}z"), vec!['a', '\u{e9}', '\u{1F600}', 'z']);
    assert_eq!(chars_of(""), Vec::<char>::new());
    assert_eq!(string_of(&['h', '\u{e9}', '!']), "h\u{e9}!");
    assert_eq!(string_of(&[]), "");
}

#[test]
fn leading_span_counts_up_to_the_first_member() {
    assert_eq!(leading_span(&chars("key=value"), CharClass::Only('=')), 3);
    assert_eq!(leading_span(&chars("=value"), CharClass::Only('=')), 0);
    assert_eq!(leading_span(&chars("none"), CharClass::Only('=')), 4);
    assert_eq!(leading_span(&chars(""), CharClass::Only('=')), 0);
    assert_eq!(leading_span(&chars("ab cd"), CharClass::Whitespace), 2);
}

#[test]
fn skipping_drops_members_at_the_ends() {
    assert_eq!(text(skip_leading(&chars("  \t x y "), CharClass::Whitespace)), "x y ");
    assert_eq!(text(skip_trailing(&chars(" x y \n\t"), CharClass::Whitespace)), " x y");
    assert_eq!(text(skip_trailing(&chars("line\r\r\n"), CharClass::LineBreak)), "line");
    assert_eq!(text(skip_trailing(&chars("line \r\n"), CharClass::LineBreak)), "line ");
    assert_eq!(text(skip_trailing(&chars("\n"), CharClass::LineBreak)), "");
    assert_eq!(text(skip_leading(&chars("   "), CharClass::Whitespace)), "");
}

#[test]
fn trimmed_agrees_with_the_standard_library() {
    for s in ["", " ", "a", "  a b  ", "\t\u{a0}x\u{3000}\n", "\u{2028}mid dle\u{85}", "x "] {
        assert_eq!(text(trimmed(&chars(s))), s.trim(), "{:?}", s);
    }
}

#[test]
fn split_token_agrees_with_split_whitespace() {
    for s in ["", "   ", "one", " one  two\tthree\n", "\u{a0}a\u{3000}b", "a b c d e"] {
        let all = chars(s);
        let mut rest: &[char] = &all;
        let mut words = Vec::new();
        while let Some((word, after)) = split_token(rest) {
            words.push(text(word));
            rest = after;
        }
        let expected: Vec<String> = s.split_whitespace().map(|w| w.to_string()).collect();
        assert_eq!(words, expected, "{:?}", s);
    }
}

#[test]
fn lowercase_maps_only_ascii_capitals() {
    assert_eq!(lowercase(&chars("Content-LENGTH")), "content-length");
    assert_eq!(lowercase(&chars("\u{c4}BC\u{df}")), "\u{c4}bc\u{df}");
    assert_eq!(lowercase(&chars("")), "");
}

#[test]
fn uppercase_is_compares_without_case() {
    assert!(uppercase_is(&chars("get"), "GET"));
    assert!(uppercase_is(&chars("GeT"), "GET"));
    assert!(!uppercase_is(&chars("gets"), "GET"));
    assert!(!uppercase_is(&chars("ge"), "GET"));
    assert!(!uppercase_is(&chars("put"), "GET"));
    assert!(uppercase_is(&chars(""), ""));
}

#[test]
fn parse_usize_agrees_with_the_standard_library() {
    let max = usize::MAX.to_string();
    let over = format!("{}0", usize::MAX);
    let next = {
        let mut digits: Vec<u8> = max.clone().into_bytes();
        let last = digits.len() - 1;
        digits[last] += 1;
        String::from_utf8(digits).unwrap()
    };
    for s in [
        "0", "5", "42", "007", "+7", "+", "", "-1", "-0", "1 ", " 1", "1_000", "12a", "a12", "++1",
        "1+", "\u{663}", max.as_str(), over.as_str(), next.as_str(),
    ] {
        assert_eq!(parse_usize(&chars(s)), s.parse::<usize>().ok(), "{:?}", s);
    }
}

#[test]
fn parse_usize_reads_exact_values() {
    assert_eq!(parse_usize(&chars("1234567890")), Some(1234567890));
    assert_eq!(parse_usize(&chars("+0")), Some(0));
    assert_eq!(parse_usize(&chars("x")), None);
}

#[test]
fn same_text_compares_contents() {
    assert!(same_text("/sleep", "/sleep"));
    assert!(!same_text("/sleep", "/sleeps"));
    assert!(!same_text("/sleep", "/Sleep"));
    assert!(same_text("", ""));
}
