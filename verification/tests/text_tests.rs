use hcl::chars::{is_ascii_space_char, is_space_char, utf8_width_of};
use hcl::encoding::{holds_ascii, may_hold_char};
use hcl::order::{place_of, Place};
use hcl::text::{chars_of, groups_of, has_seq, join_range, lines_of, string_of, trim_bounds, words_of};

fn chars(s: &str) -> Vec<char> {
    s.chars().collect()
}

fn strings(rows: Vec<Vec<char>>) -> Vec<String> {
    rows.into_iter().map(|r| r.into_iter().collect()).collect()
}

#[test]
fn white_space_is_what_the_standard_library_calls_white_space() {
    for code in 0..=0x10FFFFu32 {
        if let Some(c) = char::from_u32(code) {
            assert_eq!(is_space_char(c), c.is_whitespace(), "U+{:04X}", code);
        }
    }
}

#[test]
fn ascii_blanks_are_what_the_standard_library_calls_ascii_white_space() {
    for code in 0..=0x10FFFFu32 {
        if let Some(c) = char::from_u32(code) {
            assert_eq!(is_ascii_space_char(c), c.is_ascii_whitespace(), "U+{:04X}", code);
        }
    }
}

#[test]
fn widths_are_the_lengths_in_utf8() {
    for code in 0..=0x10FFFFu32 {
        if let Some(c) = char::from_u32(code) {
            assert_eq!(utf8_width_of(c), c.len_utf8(), "U+{:04X}", code);
        }
    }
}

#[test]
fn characters_and_strings_convert_both_ways() {
    for text in ["", "abc", "\u{e9}\u{3042}\u{1F600}"] {
        assert_eq!(chars_of(text), chars(text));
        assert_eq!(string_of(&chars(text)), text);
    }
}

#[test]
fn lines_are_the_lines_of_the_standard_library() {
    let samples = [
        "",
        "\n",
        "a",
        "a\n",
        "a\nb",
        "a\r\nb\r\n",
        "a\rb",
        "a\r",
        "\r\n",
        "\r\r\n",
        "\n\n\n",
        "a\n\r\nb\n\n",
        "one\ntwo\r\nthree\rfour\n",
    ];
    for text in samples {
        let expected: Vec<String> = text.lines().map(|l| l.to_string()).collect();
        assert_eq!(strings(lines_of(&chars(text))), expected, "{:?}", text);
    }
}

#[test]
fn words_are_the_words_of_the_standard_library() {
    let samples = ["", " ", "a", "  a  b\tc\n", "\u{00A0}x\u{3000}y", "-a, --all   show", "a\u{200B}b c"];
    for text in samples {
        let expected: Vec<String> = text.split_whitespace().map(|w| w.to_string()).collect();
        assert_eq!(strings(words_of(&chars(text))), expected, "{:?}", text);
    }
}

#[test]
fn groups_are_split_at_each_separator() {
    let samples = ["", ",", "a", "a,b", "a/b|c,", ",,", "-a, --all / x"];
    for text in samples {
        let expected: Vec<String> = text.split([',', '/', '|']).map(|w| w.to_string()).collect();
        assert_eq!(strings(groups_of(&chars(text))), expected, "{:?}", text);
    }
}

#[test]
fn trimming_is_the_trimming_of_the_standard_library() {
    let samples = ["", "   ", "a", "  a b  ", "\t\u{00A0}x\u{2003}\n", " \u{200B} "];
    for text in samples {
        let c = chars(text);
        let (a, b) = trim_bounds(&c);
        let trimmed: String = c[a..b].iter().collect();
        assert_eq!(trimmed, text.trim(), "{:?}", text);
        let from: String = c[a..].iter().collect();
        assert_eq!(from, text.trim_start(), "{:?}", text);
    }
}

#[test]
fn joining_puts_the_separator_between_neighbours() {
    let parts = vec![chars("a"), chars(""), chars("bc"), chars("d")];
    assert_eq!(string_of(&join_range(&parts, 0, 4, &chars(", "))), "a, , bc, d");
    assert_eq!(string_of(&join_range(&parts, 1, 3, &chars("|"))), "|bc");
    assert_eq!(string_of(&join_range(&parts, 2, 3, &chars("|"))), "bc");
    assert_eq!(string_of(&join_range(&parts, 2, 2, &chars("|"))), "");
}

#[test]
fn searching_finds_blocks_of_neighbours() {
    assert!(has_seq(&chars("usage: x"), &chars("usage")));
    assert!(has_seq(&chars("the usage"), &chars("usage")));
    assert!(has_seq(&chars("abc"), &chars("")));
    assert!(!has_seq(&chars("usag e"), &chars("usage")));
    assert!(!has_seq(&chars("usag"), &chars("usage")));
}

#[test]
fn texts_are_ordered_as_strings_are() {
    let samples = ["", "a", "-a", "--all", "-b", "ab", "b", "\u{e9}", "a\u{e9}", "\u{10000}", "\u{ffff}"];
    for a in samples {
        for b in samples {
            let expected = match a.cmp(b) {
                std::cmp::Ordering::Less => Place::Before,
                std::cmp::Ordering::Equal => Place::Same,
                std::cmp::Ordering::Greater => Place::After,
            };
            assert_eq!(place_of(&chars(a), &chars(b)), expected, "{:?} {:?}", a, b);
        }
    }
}

#[test]
fn a_character_is_held_where_its_bytes_occur() {
    let samples = ["", "abc", "a\u{00A0}b", "\u{2002}", "x\u{2003}", "\u{a0}\u{2000}\u{e9}", "\u{1F600}-"];
    let needles = [("\u{00A0}", '\u{00A0}'), ("\u{2002}", '\u{2002}'), ("\u{2003}", '\u{2003}'), ("\u{80}", '\u{80}'), ("a", 'a')];
    for text in samples {
        for (needle, c) in needles {
            assert_eq!(may_hold_char(text, needle, c), text.contains(c), "{:?} {:?}", text, c);
        }
        for b in [b'-', b'a', b'\t', 0u8, 0x7fu8] {
            assert_eq!(holds_ascii(text, b), text.contains(b as char), "{:?} {}", text, b);
        }
    }
}
