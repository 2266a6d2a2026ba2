//! Texts, taken apart and put together.

use crap4rust::text;

fn strings(parts: &[&str]) -> Vec<String> {
    parts.iter().map(|part| part.to_string()).collect()
}

#[test]
fn lines_end_at_a_newline_with_or_without_a_return() {
    for input in ["", "\n", "a", "a\n", "a\r\nb", "a\n\nb\r", "\r\n\r\n", "a\rb\n", "ä\nö"] {
        let expected: Vec<&str> = input.lines().collect();
        assert_eq!(text::lines_of(input), expected, "{input:?}");
    }
}

#[test]
fn words_stand_between_white_space() {
    for input in ["", "  ", "a", " a  b\tc\n", "a\u{a0}b\u{2003}c\u{3000}", "\u{200b}x"] {
        let expected: Vec<&str> = input.split_whitespace().collect();
        assert_eq!(text::words_of(input), expected, "{input:?}");
    }
}

#[test]
fn white_space_is_that_of_unicode() {
    for code in 0..0x11_0000u32 {
        if let Some(c) = char::from_u32(code) {
            assert_eq!(text::white(c), c.is_whitespace(), "{code:x}");
        }
    }
}

#[test]
fn numbers_are_read_as_far_as_they_fit() {
    for input in ["", "0", "7", "007", "+7", "++7", "+", "-1", "1 ", "4294967295", "4294967296", "x1"] {
        let expected = input.parse::<u32>().ok().map(u64::from);
        assert_eq!(text::parse(input, u64::from(u32::MAX)), expected, "{input:?}");
    }
    for input in ["18446744073709551615", "18446744073709551616", "99999999999999999999999"] {
        assert_eq!(text::parse(input, u64::MAX), input.parse::<u64>().ok(), "{input:?}");
    }
}

#[test]
fn numbers_are_written_in_decimal() {
    for n in [0, 7, 10, 4294967296, u64::MAX] {
        assert_eq!(text::number(n), n.to_string());
    }
}

#[test]
fn every_occurrence_is_replaced_from_the_left() {
    for (input, pattern, with) in [
        ("--out={lcov}", "{lcov}", "a b"),
        ("aaa", "aa", "b"),
        ("aaaa", "aa", "aa"),
        ("abc", "x", "y"),
        ("", "x", "y"),
        ("x", "x", ""),
    ] {
        assert_eq!(text::replace(input, pattern, with), input.replace(pattern, with));
        assert_eq!(text::contains(input, pattern), input.contains(pattern));
    }
    assert!(text::contains("a", ""));
}

#[test]
fn cells_are_padded_and_never_cut() {
    assert_eq!(text::align_left("ab", 4), "ab  ");
    assert_eq!(text::align_right("ab", 4), "  ab");
    assert_eq!(text::align_left("abcde", 4), "abcde");
    assert_eq!(text::align_right("äö", 3), " äö");
    assert_eq!(text::repeat('-', 3), "---");
}

#[test]
fn texts_are_ordered_as_strings_are() {
    let all = ["", "a", "aa", "ab", "b", "B", "ä", "\u{10000}", "\u{ffff}"];
    for a in all {
        for b in all {
            assert_eq!(text::comes_before(a, b), a < b, "{a:?} {b:?}");
            assert_eq!(text::same(a, b), a == b);
        }
    }
}

#[test]
fn parts_are_joined_and_split() {
    assert_eq!(text::join(&strings(&["a", "b", "c"]), "::"), "a::b::c");
    assert_eq!(text::join(&strings(&[]), "::"), "");
    assert_eq!(text::segments_of("/a//b/c/"), strings(&["a", "b", "c"]));
    assert_eq!(text::with_slashes("a\\b/c"), "a/b/c");
    assert_eq!(text::with_each("my-crate-x", '-', '_'), "my_crate_x");
    assert!(text::holds(&strings(&["a", "b"]), "b"));
    assert!(!text::holds(&strings(&["a", "b"]), "c"));
}

#[test]
fn only_the_end_is_trimmed() {
    for input in ["", " a ", "a\n\n", "\n", "a\u{2003}"] {
        assert_eq!(text::trim_end(input), input.trim_end(), "{input:?}");
    }
}
