//! Tests of the functions that take lowercased forms, parsed days and
//! validity answers as arguments.

use scriv::{
    check_cli_import_record_with, drop_tag, frame_encrypted, highlight_lowered, lowered_contains,
    merge_tags, search_lowered, split_encrypted, validate_note_with, view_lines_from, Note,
};

fn note(id: u64, text: &str, tags: &[&str]) -> Note {
    Note {
        id,
        text: text.to_string(),
        created_at: "2024-01-01T00:00:00Z".to_string(),
        updated_at: String::new(),
        tags: tags.iter().map(|t| t.to_string()).collect(),
    }
}

fn strings(v: &[&str]) -> Vec<String> {
    v.iter().map(|s| s.to_string()).collect()
}

#[test]
fn highlight_maps_matches_back_through_lengths() {
    assert_eq!(
        highlight_lowered("Fix the Auth Bug", "fix the auth bug", "auth", &vec![1; 16]),
        "Fix the \x1b[1;33mAuth\x1b[0m Bug"
    );
    // A character that lowercases to two characters: the match covers it whole.
    assert_eq!(
        highlight_lowered("xİy", "xi\u{307}y", "i\u{307}", &vec![1, 2, 1]),
        "x\x1b[1;33mİ\x1b[0my"
    );
    assert_eq!(
        highlight_lowered("foo bar foo", "foo bar foo", "foo", &vec![1; 11]),
        "\x1b[1;33mfoo\x1b[0m bar \x1b[1;33mfoo\x1b[0m"
    );
}

#[test]
fn search_uses_the_given_lowercased_forms() {
    let notes = vec![note(1, "Buy Milk", &[]), note(2, "call bob", &["Work"]), note(3, "x", &[])];
    let texts = strings(&["buy milk", "call bob", "x"]);
    let tags = vec![vec![], strings(&["work"]), vec![]];
    let hits = search_lowered(&notes, &texts, &tags, "work");
    assert_eq!(hits.iter().map(|n| n.id).collect::<Vec<_>>(), vec![2]);
    let hits = search_lowered(&notes, &texts, &tags, "milk");
    assert_eq!(hits.iter().map(|n| n.id).collect::<Vec<_>>(), vec![1]);
    assert_eq!(search_lowered(&notes, &texts, &tags, "").len(), 3);
}

#[test]
fn tags_merge_and_drop_by_lowercased_forms() {
    let merged = merge_tags(
        &strings(&["Work"]),
        &strings(&["work"]),
        &strings(&["WORK", "home", "Home"]),
        &strings(&["work", "home", "home"]),
    );
    assert_eq!(merged, strings(&["Work", "home"]));
    let kept = drop_tag(&strings(&["Work", "home", "WORK"]), &strings(&["work", "home", "work"]), "work");
    assert_eq!(kept, strings(&["home"]));
    assert!(lowered_contains(&strings(&["work", "home"]), "home"));
    assert!(!lowered_contains(&strings(&["work"]), "Work"));
}

#[test]
fn view_uses_the_given_days() {
    let n = note(3, "write tests", &["work"]);
    assert_eq!(
        view_lines_from(&n, Some("2026-03-13"), None),
        strings(&["[3] write tests", "    Created: 2026-03-13", "    Tags: #work"])
    );
    assert_eq!(
        view_lines_from(&n, None, Some("2026-03-14")),
        strings(&["[3] write tests", "    Updated: 2026-03-14", "    Tags: #work"])
    );
}

#[test]
fn records_are_checked_with_given_time_answers() {
    let n = note(1, "x", &[]);
    assert!(validate_note_with(&n, true, false).is_ok());
    assert_eq!(
        validate_note_with(&n, false, true),
        Err("invalid created_at timestamp".to_string())
    );
    let mut u = n.clone();
    u.updated_at = "later".to_string();
    assert_eq!(
        validate_note_with(&u, true, false),
        Err("invalid updated_at timestamp".to_string())
    );
    assert_eq!(
        check_cli_import_record_with(2, &u, true, false),
        Err("line 3: invalid updated_at timestamp".to_string())
    );
    assert!(check_cli_import_record_with(2, &u, true, true).is_ok());
}

#[test]
fn encrypted_form_is_framed_and_split() {
    let salt = vec![7u8; 32];
    let nonce = vec![9u8; 12];
    let c = vec![1u8, 2, 3, 4, 5, 6, 7, 8, 9, 10, 11, 12, 13, 14, 15, 16, 17];
    let framed = frame_encrypted(&salt, &nonce, &c);
    assert_eq!(&framed[..6], b"scriv\x01");
    assert_eq!(framed.len(), 6 + 32 + 12 + 17);
    assert_eq!(split_encrypted(&framed), Some((salt, nonce, c)));
    assert_eq!(split_encrypted(&framed[..60]), None);
    assert_eq!(split_encrypted(b"not encrypted at all, not encrypted at all, not encrypted at all"), None);
}
