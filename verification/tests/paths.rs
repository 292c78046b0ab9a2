use windows_entities::paths::{windows_paths_one_backslash, windows_paths_two_backslash};

#[test]
fn two_backslash_doubles_every_backslash() {
    assert_eq!(windows_paths_two_backslash("C:\\Users\\me"), "C:\\\\Users\\\\me");
    assert_eq!(windows_paths_two_backslash("C:\\\\Users"), "C:\\\\\\\\Users");
    assert_eq!(windows_paths_two_backslash("\\"), "\\\\");
    assert_eq!(windows_paths_two_backslash("no separator"), "no separator");
    assert_eq!(windows_paths_two_backslash(""), "");
}

#[test]
fn one_backslash_halves_pairs_from_the_left() {
    assert_eq!(windows_paths_one_backslash("C:\\\\Users\\\\me"), "C:\\Users\\me");
    assert_eq!(windows_paths_one_backslash("C:\\Users"), "C:\\Users");
    assert_eq!(windows_paths_one_backslash("a\\\\\\b"), "a\\\\b");
    assert_eq!(windows_paths_one_backslash(""), "");
}

#[test]
fn one_backslash_undoes_two_backslash() {
    let path = "C:\\Users\\me\\.cargo\\bin\\cargo.exe";
    assert_eq!(windows_paths_one_backslash(&windows_paths_two_backslash(path)), path);
}
