use pazi::edit::{deserialize, diff_between, serialize};

#[test]
fn edit_round_trip() {
    let entries = vec![
        ("/home/user/my project".to_string(), 100),
        ("/tmp".to_string(), -3),
        ("/plain".to_string(), 0),
    ];
    let text = serialize(&entries);
    assert!(text.starts_with("# Edit your frecency fearlessly!"));
    let parsed = deserialize(&text).unwrap();
    assert_eq!(parsed, entries);
}

#[test]
fn deserialize_skips_comments_and_blanks() {
    let parsed = deserialize("# a comment\n\n   \n5\t/x\n").unwrap();
    assert_eq!(parsed, vec![("/x".to_string(), 5)]);
}

#[test]
fn deserialize_rejects_missing_separator() {
    assert!(deserialize("nowhitespacehere").is_err());
}

#[test]
fn deserialize_rejects_bad_score() {
    assert!(deserialize("notanumber /x").is_err());
}

#[test]
fn deserialize_rejects_bad_escape() {
    // an invalid escape inside a double-quoted path
    assert!(deserialize("5\t\"b\\qc\"").is_err());
}

#[test]
fn diff_detects_removals_changes_and_additions() {
    let old = vec![
        ("/keep".to_string(), 1),
        ("/gone".to_string(), 2),
        ("/changed".to_string(), 3),
    ];
    let new = vec![
        ("/keep".to_string(), 1),
        ("/changed".to_string(), 30),
        ("/added".to_string(), 4),
    ];
    let diff = diff_between(&old, new);
    let (additions, removals) = diff.into_parts();
    assert_eq!(removals, vec!["/gone".to_string(), "/changed".to_string()]);
    assert_eq!(
        additions,
        vec![("/changed".to_string(), 30), ("/added".to_string(), 4)]
    );
}

#[test]
fn diff_of_identical_lists_is_empty() {
    let old = vec![("/a".to_string(), 1), ("/b".to_string(), 2)];
    let diff = diff_between(&old, old.clone());
    let (additions, removals) = diff.into_parts();
    assert!(additions.is_empty());
    assert!(removals.is_empty());
}
