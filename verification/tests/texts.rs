//! Operations on text.

use udemyget::text::{
    chars_of, contains_char, contains_text, decimal_text, find_char, is_text_less, padded_decimal,
    parse_u32, push_decimal, push_wide_decimal, replace_char, split_text, starts_with_text,
    strip_char, strip_prefix_text, text_of, trim_text,
};

#[test]
fn searching_agrees_with_the_standard_library() {
    let words = ["", "a", "ab", "abab", "ba", "é", "aéb", "ababc", " "];
    for s in words {
        for part in words {
            assert_eq!(contains_text(s, part), s.contains(part), "{s} {part}");
            assert_eq!(starts_with_text(s, part), s.starts_with(part), "{s} {part}");
            assert_eq!(
                strip_prefix_text(s, part).as_deref(),
                s.strip_prefix(part),
                "{s} {part}"
            );
            assert_eq!(is_text_less(s, part), s < part, "{s} {part}");
        }
        assert_eq!(contains_char(s, 'b'), s.contains('b'));
        assert_eq!(find_char(&chars_of(s), 'b'), s.chars().take_while(|c| *c != 'b').count());
    }
}

#[test]
fn cutting_agrees_with_the_standard_library() {
    for s in ["", ";", "a;b", ";a;;b;", "ab", "é;ü"] {
        assert_eq!(split_text(s, ';'), s.split(';').collect::<Vec<_>>());
    }
    for s in ["", "  ", " a b ", "\u{a0}x\u{2003}", "\u{200b}x", "\u{85}y\u{1680}\t"] {
        assert_eq!(trim_text(s), s.trim());
    }
    for s in ["", "\"\"", "\"a\"b\"", "a"] {
        assert_eq!(strip_char(s, '"'), s.trim_matches('"'));
    }
    for s in ["", "_", "a_b__c", "é_"] {
        assert_eq!(replace_char(s, '_', '-'), s.replace('_', "-"));
    }
    assert_eq!(text_of(&chars_of("aéio"), 1, 3), "éi");
}

#[test]
fn numbers_agree_with_the_standard_library() {
    for n in [0u64, 7, 10, 99, 100, 12345, u64::MAX] {
        assert_eq!(decimal_text(n), n.to_string());
        assert_eq!(padded_decimal(n, '0', 3), format!("{n:03}"));
        assert_eq!(padded_decimal(n, ' ', 5), format!("{n:5}"));
        let mut s = "n=".to_string();
        push_decimal(&mut s, n);
        assert_eq!(s, format!("n={n}"));
    }
    let mut s = String::new();
    push_wide_decimal(&mut s, u128::MAX);
    assert_eq!(s, u128::MAX.to_string());
    for t in ["", "0", "+5", "-5", "+", "007", "4294967295", "4294967296", "12a", "99999999999999"] {
        assert_eq!(parse_u32(t), t.parse::<u32>().ok(), "{t}");
    }
}

#[test]
fn all_characters_of_space_are_known() {
    for n in 0..0x11_0000u32 {
        if let Some(c) = char::from_u32(n) {
            let s = c.to_string();
            assert_eq!(trim_text(&s).is_empty(), c.is_whitespace(), "{n:x}");
        }
    }
}
