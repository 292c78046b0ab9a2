use windows_entities::{
    entity_info, folder_info, is_archive, is_archive_and_reparse_point_or_symlink, is_directory,
    is_directory_and_archive, is_directory_and_archive_and_reparse_point_or_symlink,
    is_directory_and_reparse_point_or_symlink, is_reparse_point_or_symlink, QueryError,
};

fn block(mode: &str, name: &str, length: &str, full_name: &str) -> String {
    let mut text = String::new();
    text.push_str(&format!("Mode           : {}\r\n", mode));
    text.push_str("Owner          : DESKTOP\\user\r\n");
    text.push_str("LastWriteTime  : 1/2/2024 10:30:45 AM\r\n");
    text.push_str(&format!("Name           : {}\r\n", name));
    text.push_str("CreationTime   : 12/25/2023 8:00:00 AM\r\n");
    text.push_str("Attributes     : Directory\r\n");
    text.push_str("LastAccessTime : 1/3/2024 9:15:00 PM\r\n");
    text.push_str(&format!("Length         : {}\r\n", length));
    text.push_str(&format!("FullName       : {}\r\n", full_name));
    text
}

fn captured(blocks: &[String]) -> String {
    let mut text = String::from("\r\n\r\n");
    for entity in blocks {
        text.push_str(entity);
        text.push_str("\r\n");
    }
    text.push_str("\r\n");
    text
}

fn desktop() -> String {
    captured(&[block("d-r---", "Desktop", "", "C:\\Users\\user\\Desktop")])
}

fn cargo() -> String {
    captured(&[block("-a----", "cargo.exe", "17408512", "C:\\Users\\user\\.cargo\\bin\\cargo.exe")])
}

fn one_drive() -> String {
    captured(&[block("da---l", "OneDrive", "", "C:\\Users\\user\\OneDrive")])
}

#[test]
fn two_blocks_give_two_entities() {
    let text = captured(&[
        block("d-----", "first", "4096", "C:\\data\\first"),
        block("d-----", "second", "123", "C:\\data\\second"),
    ]);
    let entities = folder_info(&text);
    assert_eq!(entities.len(), 2);
    assert_eq!(entities[0].types, vec!["directory"]);
    assert_eq!(entities[0].mode, vec!["directory"]);
    assert_eq!(entities[0].size, 4096);
    assert_eq!(entities[0].name, "first");
    assert_eq!(entities[0].absolute_path, "C:\\data\\first");
    assert_eq!(entities[1].types, vec!["directory"]);
    assert_eq!(entities[1].mode, vec!["directory"]);
    assert_eq!(entities[1].size, 123);
    assert_eq!(entities[1].name, "second");
    assert_eq!(entities[1].absolute_path, "C:\\data\\second");
    for entity in &entities {
        assert_eq!(entity.owner, "DESKTOP\\user");
        assert_eq!(entity.last_write_time, "1/2/2024 10:30:45 AM");
        assert_eq!(entity.creation_time, "12/25/2023 8:00:00 AM");
        assert_eq!(entity.attributes, "Directory");
        assert_eq!(entity.last_access_time, "1/3/2024 9:15:00 PM");
    }
}

#[test]
fn each_entity_has_the_tags_of_its_own_mode() {
    let text = captured(&[
        block("d-----", "a", "1", "C:\\a"),
        block("-a-h--", "b", "2", "C:\\b"),
        block("------", "c", "3", "C:\\c"),
    ]);
    let entities = folder_info(&text);
    assert_eq!(entities.len(), 3);
    assert_eq!(entities[0].types, vec!["directory"]);
    assert_eq!(entities[1].types, vec!["archive"]);
    assert_eq!(entities[1].mode, vec!["archive", "hidden"]);
    assert!(entities[2].types.is_empty());
    assert!(entities[2].mode.is_empty());
}

#[test]
fn a_block_cut_short_is_dropped() {
    let mut text = captured(&[block("d-----", "whole", "1", "C:\\whole")]);
    text.push_str("Mode           : -a----\r\nOwner          : DESKTOP\\user\r\n");
    let entities = folder_info(&text);
    assert_eq!(entities.len(), 1);
    assert_eq!(entities[0].name, "whole");
}

#[test]
fn text_without_entities_gives_none() {
    assert!(folder_info("").is_empty());
    assert!(folder_info("\r\n").is_empty());
    assert!(folder_info("\r\n\r\n\r\n").is_empty());
    assert!(folder_info("Mode           : d-----").is_empty());
}

#[test]
fn the_header_is_dropped_whatever_it_holds() {
    let mut text = String::from("Mode           : -a----\nName           : header\n");
    text.push_str(&block("d-----", "body", "5", "C:\\body"));
    let entities = folder_info(&text);
    assert_eq!(entities.len(), 1);
    assert_eq!(entities[0].name, "body");
    assert_eq!(entities[0].types, vec!["directory"]);
}

#[test]
fn line_feeds_alone_end_lines_too() {
    let text = captured(&[block("d-----", "a", "9", "C:\\a")]).replace("\r\n", "\n");
    let entities = folder_info(&text);
    assert_eq!(entities.len(), 1);
    assert_eq!(entities[0].name, "a");
    assert_eq!(entities[0].size, 9);
}

#[test]
fn no_record_gives_the_path_alone() {
    let entity = entity_info("C:\\nowhere", "").unwrap();
    assert!(entity.mode.is_empty());
    assert!(entity.types.is_empty());
    assert_eq!(entity.owner, "");
    assert_eq!(entity.last_write_time, "");
    assert_eq!(entity.name, "");
    assert_eq!(entity.creation_time, "");
    assert_eq!(entity.attributes, "");
    assert_eq!(entity.last_access_time, "");
    assert_eq!(entity.size, 0);
    assert_eq!(entity.absolute_path, "C:\\nowhere");
    let entity = entity_info("C:\\nowhere", "\r\n\r\nGet-Item : Cannot find path\r\n").unwrap();
    assert_eq!(entity.absolute_path, "C:\\nowhere");
    assert_eq!(entity.size, 0);
    assert!(entity.types.is_empty());
}

#[test]
fn two_records_are_ambiguous() {
    let text = captured(&[block("d-----", "a", "1", "C:\\a"), block("d-----", "b", "2", "C:\\b")]);
    assert_eq!(entity_info("C:\\*", &text).err(), Some(QueryError::Ambiguous));
    let text = captured(&[
        block("d-----", "a", "1", "C:\\a"),
        block("d-----", "b", "2", "C:\\b"),
        block("-a----", "c", "3", "C:\\c"),
    ]);
    assert_eq!(entity_info("C:\\*", &text).err(), Some(QueryError::Ambiguous));
}

#[test]
fn many_records_are_ambiguous() {
    let mut blocks: Vec<String> = Vec::new();
    for number in 0..257 {
        blocks.push(block("d-----", &format!("n{}", number), "1", "C:\\n"));
    }
    assert_eq!(folder_info(&captured(&blocks)).len(), 257);
    assert_eq!(entity_info("C:\\*", &captured(&blocks)).err(), Some(QueryError::Ambiguous));
    blocks.pop();
    assert_eq!(entity_info("C:\\*", &captured(&blocks)).err(), Some(QueryError::Ambiguous));
}

#[test]
fn test_current_folder_info() {
    let text = captured(&[
        block("d-----", "src", "", "C:\\work\\src"),
        block("-a----", "Cargo.toml", "312", "C:\\work\\Cargo.toml"),
    ]);
    let entities = folder_info(&text);
    assert_eq!(entities.len(), 2);
    assert_eq!(entities[0].name, "src");
    assert_eq!(entities[0].size, 0);
    assert_eq!(entities[1].name, "Cargo.toml");
    assert_eq!(entities[1].size, 312);
}

#[test]
fn test_other_folder_info() {
    let text = captured(&[
        block("d-r---", "Documents", "", "C:\\Users\\user\\Desktop\\Documents"),
        block("-a----", "notes.txt", "2048", "C:\\Users\\user\\Desktop\\notes.txt"),
        block("-a---l", "link.lnk", "77", "C:\\Users\\user\\Desktop\\link.lnk"),
    ]);
    let entities = folder_info(&text);
    assert_eq!(entities.len(), 3);
    assert_eq!(entities[0].mode, vec!["directory", "read-only"]);
    assert_eq!(entities[1].absolute_path, "C:\\Users\\user\\Desktop\\notes.txt");
    assert_eq!(entities[2].types, vec!["archive", "reparse-point-or-symlink"]);
}

#[test]
fn test_entity_info() {
    let entity = entity_info("C:\\Users\\user\\Desktop", &desktop()).unwrap();
    assert_eq!(entity.mode, vec!["directory", "read-only"]);
    assert_eq!(entity.types, vec!["directory"]);
    assert_eq!(entity.owner, "DESKTOP\\user");
    assert_eq!(entity.name, "Desktop");
    assert_eq!(entity.size, 0);
    assert_eq!(entity.absolute_path, "C:\\Users\\user\\Desktop");
}

#[test]
fn test_is_directory() {
    let entity = entity_info("C:\\Users\\user\\Desktop", &desktop()).unwrap();
    assert_eq!(is_directory(&entity), true)
}

#[test]
fn test_is_archive() {
    let entity = entity_info("C:\\Users\\user\\.cargo\\bin\\cargo.exe", &cargo()).unwrap();
    assert_eq!(is_archive(&entity), true)
}

#[test]
fn test_is_symlink_or_reparse_point() {
    let entity = entity_info("C:\\Users\\user\\OneDrive", &one_drive()).unwrap();
    assert_eq!(true, is_reparse_point_or_symlink(&entity))
}

#[test]
fn test_is_directory_and_archive() {
    let entity = entity_info("C:\\Users\\user\\OneDrive", &one_drive()).unwrap();
    assert_eq!(true, is_directory_and_archive(&entity))
}

#[test]
fn test_is_directory_and_reparse_point_or_symlink() {
    let entity = entity_info("C:\\Users\\user\\OneDrive", &one_drive()).unwrap();
    assert_eq!(true, is_directory_and_reparse_point_or_symlink(&entity))
}

#[test]
fn test_is_archive_and_reparse_point_or_symlink() {
    let entity = entity_info("C:\\Users\\user\\OneDrive", &one_drive()).unwrap();
    assert_eq!(true, is_archive_and_reparse_point_or_symlink(&entity))
}

#[test]
fn test_is_directory_and_archive_and_reparse_point_or_symlink() {
    let entity = entity_info("C:\\Users\\user\\OneDrive", &one_drive()).unwrap();
    assert_eq!(true, is_directory_and_archive_and_reparse_point_or_symlink(&entity))
}

#[test]
fn two_directory_blocks_hold_their_own_values() {
    let lengths = ["0", "7", "4096", "2147483647", "0012"];
    let sizes = [0, 7, 4096, 2147483647, 12];
    for first in 0..lengths.len() {
        for second in 0..lengths.len() {
            let text = captured(&[
                block("d-----", "  first\t", lengths[first], "C:\\data\\first"),
                block("d-----", "second", lengths[second], " C:\\data\\second "),
            ]);
            let entities = folder_info(&text);
            assert_eq!(entities.len(), 2);
            assert_eq!(entities[0].types, vec!["directory"]);
            assert_eq!(entities[1].types, vec!["directory"]);
            assert_eq!(entities[0].mode, vec!["directory"]);
            assert_eq!(entities[1].mode, vec!["directory"]);
            assert_eq!(entities[0].size, sizes[first]);
            assert_eq!(entities[1].size, sizes[second]);
            assert_eq!(entities[0].name, "first");
            assert_eq!(entities[1].name, "second");
            assert_eq!(entities[0].absolute_path, "C:\\data\\first");
            assert_eq!(entities[1].absolute_path, "C:\\data\\second");
        }
    }
}

#[test]
fn repeated_type_flags_give_one_type_tag() {
    let text = captured(&[block("dd--dl", "twice", "1", "C:\\twice")]);
    let entities = folder_info(&text);
    assert_eq!(entities.len(), 1);
    assert_eq!(entities[0].types, vec!["directory", "reparse-point-or-symlink"]);
    assert_eq!(
        entities[0].mode,
        vec!["directory", "directory", "directory", "reparse-point-or-symlink"]
    );
}
