use windows_entities::flags::check_entity_permissions;

#[test]
fn each_flag_has_its_tag() {
    let decoded = check_entity_permissions("darhsl");
    assert_eq!(
        decoded.permissions,
        vec!["directory", "archive", "read-only", "hidden", "system", "reparse-point-or-symlink"]
    );
    assert_eq!(decoded.entity_types, vec!["directory", "archive", "reparse-point-or-symlink"]);
}

#[test]
fn tags_keep_the_order_of_the_flags() {
    let decoded = check_entity_permissions("d----a");
    assert_eq!(decoded.entity_types, vec!["directory", "archive"]);
    assert_eq!(decoded.permissions, vec!["directory", "archive"]);
    let decoded = check_entity_permissions("-a-hs-d");
    assert_eq!(decoded.entity_types, vec!["archive", "directory"]);
    assert_eq!(decoded.permissions, vec!["archive", "hidden", "system", "directory"]);
}

#[test]
fn repeated_flags_repeat_permission_tags_only() {
    let decoded = check_entity_permissions("rrd-d");
    assert_eq!(decoded.permissions, vec!["read-only", "read-only", "directory", "directory"]);
    assert_eq!(decoded.entity_types, vec!["directory"]);
    let decoded = check_entity_permissions("dd");
    assert_eq!(decoded.permissions, vec!["directory", "directory"]);
    assert_eq!(decoded.entity_types, vec!["directory"]);
}

#[test]
fn type_tags_stand_where_their_flag_is_first_met() {
    let decoded = check_entity_permissions("ladlald");
    assert_eq!(decoded.entity_types, vec!["reparse-point-or-symlink", "archive", "directory"]);
    assert_eq!(
        decoded.permissions,
        vec![
            "reparse-point-or-symlink",
            "archive",
            "directory",
            "reparse-point-or-symlink",
            "archive",
            "reparse-point-or-symlink",
            "directory",
        ]
    );
    let decoded = check_entity_permissions("aahda");
    assert_eq!(decoded.entity_types, vec!["archive", "directory"]);
}

#[test]
fn a_type_tag_is_there_exactly_when_its_flag_is() {
    let flags = ['d', 'a', 'l'];
    let tags = ["directory", "archive", "reparse-point-or-symlink"];
    for number in 0..64u32 {
        let mut token = String::new();
        for place in 0..6 {
            token.push(if number >> place & 1 == 1 { flags[place % 3] } else { '-' });
        }
        let decoded = check_entity_permissions(&token);
        for kind in 0..3 {
            assert_eq!(
                decoded.entity_types.contains(&tags[kind]),
                token.contains(flags[kind]),
                "{:?}",
                token
            );
            assert!(decoded.entity_types.iter().filter(|tag| **tag == tags[kind]).count() <= 1);
        }
        assert!(decoded.entity_types.len() <= 3);
    }
}

#[test]
fn other_characters_are_passed_over() {
    let decoded = check_entity_permissions("------");
    assert!(decoded.permissions.is_empty());
    assert!(decoded.entity_types.is_empty());
    let decoded = check_entity_permissions("");
    assert!(decoded.permissions.is_empty());
    assert!(decoded.entity_types.is_empty());
    let decoded = check_entity_permissions("DARHSL xyz é");
    assert!(decoded.permissions.is_empty());
    assert!(decoded.entity_types.is_empty());
}

#[test]
fn tags_of_two_tokens_are_the_tags_of_each() {
    let first = check_entity_permissions("d-r");
    let second = check_entity_permissions("l-a");
    let both = check_entity_permissions("d-rl-a");
    let mut permissions = first.permissions.clone();
    permissions.extend(second.permissions.iter());
    let mut types = first.entity_types.clone();
    types.extend(second.entity_types.iter());
    assert_eq!(both.permissions, permissions);
    assert_eq!(both.entity_types, types);
}

#[test]
fn type_tags_of_two_tokens_are_their_union() {
    let first = check_entity_permissions("da-");
    let second = check_entity_permissions("lad");
    let both = check_entity_permissions("da-lad");
    assert_eq!(first.entity_types, vec!["directory", "archive"]);
    assert_eq!(second.entity_types, vec!["reparse-point-or-symlink", "archive", "directory"]);
    assert_eq!(both.entity_types, vec!["directory", "archive", "reparse-point-or-symlink"]);
    let mut permissions = first.permissions.clone();
    permissions.extend(second.permissions.iter());
    assert_eq!(both.permissions, permissions);
}
