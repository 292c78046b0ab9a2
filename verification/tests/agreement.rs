use windows_entities::number::parse_i32;
use windows_entities::paths::{windows_paths_one_backslash, windows_paths_two_backslash};
use windows_entities::split::{lines, replace, split};
use windows_entities::text::trim;

fn next(state: &mut u64) -> u64 {
    *state = state.wrapping_mul(6364136223846793005).wrapping_add(1442695040888963407);
    *state >> 33
}

fn sample(state: &mut u64, alphabet: &[char], longest: u64) -> String {
    let length = next(state) % (longest + 1);
    let mut text = String::new();
    for _ in 0..length {
        text.push(alphabet[(next(state) % alphabet.len() as u64) as usize]);
    }
    text
}

#[test]
fn split_agrees_with_the_standard_split_on_many_texts() {
    let mut state: u64 = 1;
    for _ in 0..2000 {
        let text = sample(&mut state, &['a', 'b', 'é'], 12);
        let pattern = sample(&mut state, &['a', 'b', 'é'], 2) + "a";
        let expected: Vec<&str> = text.split(pattern.as_str()).collect();
        assert_eq!(split(&text, &pattern), expected, "{:?} {:?}", text, pattern);
        assert_eq!(replace(&text, &pattern, "-+"), text.replace(pattern.as_str(), "-+"));
    }
}

#[test]
fn lines_agree_with_the_standard_lines_on_many_texts() {
    let mut state: u64 = 2;
    for _ in 0..2000 {
        let text = sample(&mut state, &['a', '\r', '\n', 'ü'], 12);
        let expected: Vec<&str> = text.lines().collect();
        assert_eq!(lines(&text), expected, "{:?}", text);
    }
}

#[test]
fn trim_agrees_with_the_standard_trim_on_many_texts() {
    let mut state: u64 = 3;
    for _ in 0..2000 {
        let text = sample(&mut state, &[' ', '\t', '\u{a0}', 'a', ':', '\u{200b}'], 10);
        assert_eq!(trim(&text), text.trim(), "{:?}", text);
    }
}

#[test]
fn parse_agrees_with_the_standard_parser_on_many_texts() {
    let mut state: u64 = 4;
    for _ in 0..4000 {
        let text = sample(&mut state, &['+', '-', '0', '1', '2', '4', '7', '9', ' ', 'x'], 12);
        assert_eq!(parse_i32(&text), text.parse::<i32>().ok(), "{:?}", text);
    }
    for _ in 0..4000 {
        let text = sample(&mut state, &['0', '1', '2', '3', '4', '6', '7', '8', '9'], 11);
        assert_eq!(parse_i32(&text), text.parse::<i32>().ok(), "{:?}", text);
        let negative = format!("-{}", text);
        assert_eq!(parse_i32(&negative), negative.parse::<i32>().ok(), "{:?}", negative);
    }
}

#[test]
fn one_backslash_undoes_two_backslash_on_many_paths() {
    let mut state: u64 = 5;
    for _ in 0..2000 {
        let path = sample(&mut state, &['\\', 'a', ':'], 12);
        let doubled = windows_paths_two_backslash(&path);
        assert_eq!(doubled, path.replace("\\", "\\\\"));
        assert_eq!(windows_paths_one_backslash(&doubled), path, "{:?}", path);
        assert_eq!(windows_paths_one_backslash(&path), path.replace("\\\\", "\\"));
    }
}
