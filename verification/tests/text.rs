use tool_runtime::order::{comes_before, sort};
use tool_runtime::text::{
    ascii_lower_str, bytes_in, chars_of, clip_bytes_str, dec_string, find_all, is_word_char,
    join_strings, lines_of, parse_bounded, replace_all, space, string_of, trim_str, width_of,
};
use tool_runtime::view::{forward_slashes, is_hidden_name, is_ignored_dir};

#[test]
fn white_space_is_what_std_calls_white_space() {
    for n in 0..=0x10FFFFu32 {
        if let Some(c) = char::from_u32(n) {
            assert_eq!(space(c), c.is_whitespace(), "{n:x}");
            assert_eq!(width_of(c), c.len_utf8(), "{n:x}");
        }
    }
}

#[test]
fn word_characters_are_letters_digits_and_underscores() {
    for c in ['a', 'Z', '7', '_', 'ß', '界'] {
        assert!(is_word_char(c), "{c}");
    }
    for c in [' ', '-', '"', '\u{2028}'] {
        assert!(!is_word_char(c), "{c:?}");
    }
}

#[test]
fn lines_are_what_std_calls_lines() {
    for text in ["", "\n", "a", "a\n", "a\r\nb\r\n", "a\r\r\nb\r", "\n\n", "é\n界\r\n"] {
        let expected: Vec<&str> = text.lines().collect();
        assert_eq!(lines_of(&chars_of(text)), expected, "{text:?}");
        assert_eq!(trim_str(text), text.trim());
        assert_eq!(bytes_in(text), text.len());
        assert_eq!(string_of(&chars_of(text)), text);
    }
}

#[test]
fn searching_and_replacing_follow_std() {
    for (text, from, to) in [
        ("aXbXc", "X", "--"),
        ("aaaa", "aa", "b"),
        ("界a界", "界", ""),
        ("none", "zz", "y"),
    ] {
        assert_eq!(
            replace_all(&chars_of(text), &chars_of(from), &chars_of(to)),
            text.replace(from, to)
        );
    }
    assert_eq!(find_all(&chars_of("aaaa"), &chars_of("aa")), vec![0, 2]);
    let parts = vec!["a".to_string(), "b".to_string()];
    assert_eq!(join_strings(&parts, "; "), "a; b");
    assert_eq!(ascii_lower_str("ÄbC"), "Äbc");
}

#[test]
fn numbers_are_written_and_read() {
    for n in [0, 9, 10, 1_000, u64::MAX] {
        assert_eq!(dec_string(n), n.to_string());
        assert_eq!(parse_bounded(&chars_of(&n.to_string()), u64::MAX), Some(n));
    }
    for broken in ["", "-1", "1x", "18446744073709551616"] {
        assert_eq!(parse_bounded(&chars_of(broken), u64::MAX), broken.parse::<u64>().ok());
    }
    assert_eq!(parse_bounded(&chars_of("+7"), u64::MAX), "+7".parse::<u64>().ok());
    assert_eq!(parse_bounded(&chars_of("11"), 10), None);
}

#[test]
fn a_clip_never_splits_a_character() {
    assert_eq!(clip_bytes_str("a界b", 3), "a");
    assert_eq!(clip_bytes_str("a界b", 4), "a界");
    assert_eq!(clip_bytes_str("ab", 9), "ab");
}

#[test]
fn sorting_goes_by_bytes() {
    let list: Vec<String> = ["b", "a", "é", "Z", "ab", ""].map(str::to_string).to_vec();
    let mut expected = list.clone();
    expected.sort();
    assert_eq!(sort(list), expected);
    for a in ["", "a", "ab", "b", "é", "界", "\u{10000}", "\u{ffff}"] {
        for b in ["", "a", "ab", "b", "é", "界", "\u{10000}", "\u{ffff}"] {
            assert_eq!(comes_before(a, b), a < b, "{a} {b}");
        }
    }
}

#[test]
fn hidden_and_ignored_names_differ() {
    assert!(is_hidden_name(".git") && is_ignored_dir(".git"));
    assert!(is_ignored_dir("target") && !is_hidden_name("target"));
    assert!(!is_ignored_dir("src"));
    assert_eq!(forward_slashes("a\\b/c"), "a/b/c");
}
