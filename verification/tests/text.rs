use windows_entities::split::{lines, replace, split};
use windows_entities::text::{chars_of, is_whitespace, same_text, substring, trim};

#[test]
fn trim_removes_surrounding_space() {
    assert_eq!(trim("  Mode : d--  \t"), "Mode : d--");
    assert_eq!(trim("\u{3000}x\u{a0}"), "x");
    assert_eq!(trim("   "), "");
    assert_eq!(trim(""), "");
    assert_eq!(trim("a b"), "a b");
}

#[test]
fn whitespace_is_what_the_standard_library_takes_for_it() {
    let mut code: u32 = 0;
    while code <= 0x11000 {
        if let Some(c) = char::from_u32(code) {
            assert_eq!(is_whitespace(c), c.is_whitespace(), "{:x}", code);
        }
        code += 1;
    }
}

#[test]
fn trim_agrees_with_the_standard_trim() {
    let samples = ["", " ", " a", "a ", "\r\n a \r\n", "\u{2003}é ü\u{2028}", "\u{200b}a", "a\u{feff}"];
    for sample in samples {
        assert_eq!(trim(sample), sample.trim(), "{:?}", sample);
    }
}

#[test]
fn chars_and_substrings_count_characters() {
    assert_eq!(chars_of("aé√"), vec!['a', 'é', '√']);
    assert_eq!(substring("aé√b", 1, 3), "é√");
    assert_eq!(substring("plain", 1, 3), "la");
    assert_eq!(substring("plain", 2, 2), "");
    assert_eq!(substring("aé√b", 0, 4), "aé√b");
}

#[test]
fn same_text_compares_characters() {
    assert!(same_text("Mode", "Mode"));
    assert!(!same_text("Mode", "Mod"));
    assert!(!same_text("Mode", "Mole"));
    assert!(same_text("", ""));
}

#[test]
fn split_finds_parts_left_to_right() {
    assert_eq!(split("a &*& b &*& ", "&*&"), vec!["a ", " b ", " "]);
    assert_eq!(split("aaa", "aa"), vec!["", "a"]);
    assert_eq!(split("abc", ""), vec!["abc"]);
    assert_eq!(split("", "x"), vec![""]);
    assert_eq!(split("x", "x"), vec!["", ""]);
    assert_eq!(split("é :ü :", " :"), vec!["é", "ü", ""]);
}

#[test]
fn split_agrees_with_the_standard_split() {
    let samples = [
        ("", "ab"), ("ab", "ab"), ("abab", "ab"), ("aaaa", "aa"), ("aaaaa", "aa"), ("xaay", "a"),
        ("Mode : d :x", " :"), ("a&*&b&*", "&*&"), ("é√é√é", "√é"),
    ];
    for (text, pattern) in samples {
        let expected: Vec<&str> = text.split(pattern).collect();
        assert_eq!(split(text, pattern), expected, "{:?} {:?}", text, pattern);
    }
}

#[test]
fn lines_follow_both_line_endings() {
    assert_eq!(lines("a\r\nb\n\nc\r"), vec!["a", "b", "", "c\r"]);
    assert_eq!(lines("a\n"), vec!["a"]);
    assert_eq!(lines(""), Vec::<&str>::new());
    assert_eq!(lines("\n"), vec![""]);
    assert_eq!(lines("é\r\nü"), vec!["é", "ü"]);
}

#[test]
fn lines_agree_with_the_standard_lines() {
    let samples = [
        "", "\n", "\r\n", "\r", "a", "a\n", "a\r\n", "a\r", "a\n\nb", "a\r\n\r\nb\r\n",
        "a\r\r\nb", "\n\na\n", "é\n√\r\n",
    ];
    for sample in samples {
        let expected: Vec<&str> = sample.lines().collect();
        assert_eq!(lines(sample), expected, "{:?}", sample);
    }
}

#[test]
fn replace_puts_the_new_text_for_each_occurrence() {
    assert_eq!(replace("a-b-c", "-", "+"), "a+b+c");
    assert_eq!(replace("aaa", "aa", "b"), "ba");
    assert_eq!(replace("abc", "x", "y"), "abc");
    assert_eq!(replace("", "x", "y"), "");
    assert_eq!(replace("abc", "", "y"), "abc");
}
