use windows_entities::{
    create_windows_entity, is_archive, is_archive_and_reparse_point_or_symlink, is_directory,
    is_directory_and_archive, is_directory_and_archive_and_reparse_point_or_symlink,
    is_directory_and_reparse_point_or_symlink, is_reparse_point_or_symlink, WindowsEntity,
};

fn entity_with_types(types: &[&str]) -> WindowsEntity {
    WindowsEntity {
        mode: types.iter().map(|tag| tag.to_string()).collect(),
        types: types.iter().map(|tag| tag.to_string()).collect(),
        owner: String::new(),
        last_write_time: String::new(),
        name: String::new(),
        creation_time: String::new(),
        attributes: String::new(),
        last_access_time: String::new(),
        size: 0,
        absolute_path: String::new(),
    }
}

fn answers(entity: &WindowsEntity) -> [bool; 7] {
    [
        is_directory(entity),
        is_archive(entity),
        is_reparse_point_or_symlink(entity),
        is_directory_and_archive(entity),
        is_directory_and_reparse_point_or_symlink(entity),
        is_archive_and_reparse_point_or_symlink(entity),
        is_directory_and_archive_and_reparse_point_or_symlink(entity),
    ]
}

#[test]
fn no_type_tag_means_no_to_everything() {
    assert_eq!(answers(&entity_with_types(&[])), [false; 7]);
    assert_eq!(answers(&entity_with_types(&["hidden", "Directory", "dir"])), [false; 7]);
}

#[test]
fn one_type_tag_satisfies_its_predicate_only() {
    assert_eq!(
        answers(&entity_with_types(&["directory"])),
        [true, false, false, false, false, false, false]
    );
    assert_eq!(
        answers(&entity_with_types(&["archive"])),
        [false, true, false, false, false, false, false]
    );
    assert_eq!(
        answers(&entity_with_types(&["reparse-point-or-symlink"])),
        [false, false, true, false, false, false, false]
    );
}

#[test]
fn two_type_tags_satisfy_their_combination() {
    assert_eq!(
        answers(&entity_with_types(&["directory", "archive"])),
        [true, true, false, true, false, false, false]
    );
    assert_eq!(
        answers(&entity_with_types(&["reparse-point-or-symlink", "directory"])),
        [true, false, true, false, true, false, false]
    );
    assert_eq!(
        answers(&entity_with_types(&["archive", "reparse-point-or-symlink"])),
        [false, true, true, false, false, true, false]
    );
}

#[test]
fn three_type_tags_satisfy_every_combination() {
    let entity = entity_with_types(&["directory", "archive", "reparse-point-or-symlink"]);
    assert_eq!(answers(&entity), [true; 7]);
}

#[test]
fn a_repeated_tag_counts_once() {
    assert_eq!(
        answers(&entity_with_types(&["directory", "directory"])),
        [true, false, false, false, false, false, false]
    );
    assert_eq!(
        answers(&entity_with_types(&["archive", "archive", "archive"])),
        [false, true, false, false, false, false, false]
    );
}

#[test]
fn predicates_follow_the_mode_token() {
    let entity = create_windows_entity(vec!["Mode           : da-h-l"]);
    assert_eq!(answers(&entity), [true; 7]);
    let entity = create_windows_entity(vec!["Mode           : -arhs-"]);
    assert_eq!(answers(&entity), [false, true, false, false, false, false, false]);
}
