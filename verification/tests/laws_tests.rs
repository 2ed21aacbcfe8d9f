//! Concrete instances of the library's laws.

use scriv::{
    add_note, add_note_at, decrypt_notes, edit_note, encrypt_notes, get_note, highlight_match,
    import_notes, parse_id, remove_note, remove_notes, tag_note, tag_note_at, untag_note, validate_note, Note,
};

fn ids(notes: &[Note]) -> Vec<u64> {
    notes.iter().map(|n| n.id).collect()
}

fn distinct(notes: &[Note]) -> bool {
    let v = ids(notes);
    (0..v.len()).all(|i| (i + 1..v.len()).all(|j| v[i] != v[j]))
}

#[test]
fn operations_keep_ids_distinct() {
    let mut notes = Vec::new();
    add_note(&mut notes, "a").expect("add a");
    add_note(&mut notes, "b").expect("add b");
    remove_note(&mut notes, 1).expect("remove a");
    add_note(&mut notes, "c").expect("add c");
    import_notes(
        &mut notes,
        vec![Note {
            id: 2,
            text: "imported".to_string(),
            created_at: "2024-01-01T00:00:00Z".to_string(),
            updated_at: String::new(),
            tags: Vec::new(),
        }],
    )
    .expect("import");
    edit_note(&mut notes, 2, "b2").expect("edit");
    tag_note(&mut notes, 3, &["x".to_string()]).expect("tag");
    remove_notes(&mut notes, &[3], false).expect("remove");
    assert_eq!(ids(&notes), vec![2, 4]);
    assert!(distinct(&notes));
}

#[test]
fn added_note_is_found_again() {
    let mut notes = Vec::new();
    add_note_at(&mut notes, "first", "2024-01-01T00:00:00Z".to_string()).expect("add");
    let added = add_note_at(&mut notes, "second", "2024-01-02T00:00:00Z".to_string()).expect("add");
    let got = get_note(&notes, added.id).expect("get");
    assert_eq!(got, added);
    assert_eq!(got.created_at, "2024-01-02T00:00:00Z");
    assert_eq!(got.updated_at, "");
}

#[test]
fn removed_note_is_not_found() {
    let mut notes = Vec::new();
    add_note(&mut notes, "a").expect("add");
    let removed = remove_note(&mut notes, 1).expect("remove");
    assert_eq!(removed.text, "a");
    assert_eq!(get_note(&notes, 1).expect_err("gone"), "no note with id 1");
}

#[test]
fn tagging_twice_changes_nothing() {
    let mut notes = Vec::new();
    add_note(&mut notes, "a").expect("add");
    let tags = vec!["Work".to_string(), "work".to_string(), "home".to_string()];
    let first = tag_note_at(&mut notes, 1, &tags, "2024-01-01T00:00:00Z").expect("tag");
    assert!(first.changed);
    assert_eq!(first.note.tags, vec!["Work".to_string(), "home".to_string()]);
    let before = notes.clone();
    let second = tag_note_at(&mut notes, 1, &tags, "2025-01-01T00:00:00Z").expect("tag again");
    assert!(!second.changed);
    assert_eq!(notes, before);
    assert_eq!(second.note.updated_at, "2024-01-01T00:00:00Z");
}

#[test]
fn untag_leaves_no_matching_tag() {
    let mut notes = Vec::new();
    add_note(&mut notes, "a").expect("add");
    tag_note(&mut notes, 1, &["Work".to_string(), "home".to_string()]).expect("tag");
    notes[0].tags.push("WORK".to_string());
    let note = untag_note(&mut notes, 1, "work").expect("untag").note;
    assert_eq!(note.tags, vec!["home".to_string()]);
}

#[test]
fn not_found_message_id_parses_back() {
    let mut notes = Vec::new();
    let err = remove_note(&mut notes, 18446744073709551615).expect_err("missing");
    let id_text = err.trim_start_matches("no note with id ");
    assert_eq!(parse_id(id_text), Ok(u64::MAX));
    assert_eq!(parse_id("+7"), Ok(7));
    assert!(parse_id("18446744073709551616").is_err());
    assert!(parse_id("-1").is_err());
    assert!(parse_id("").is_err());
    assert!(parse_id("+").is_err());
}

#[test]
fn encryption_roundtrip_for_several_passwords() {
    for pw in ["a", "pässwörd", "a much longer password with spaces"] {
        let data = encrypt_notes(b"{\"id\":1}\n", pw).expect("encrypt");
        assert_eq!(decrypt_notes(&data, pw).expect("decrypt"), b"{\"id\":1}\n");
    }
}

#[test]
fn highlight_erasing_codes_gives_text() {
    for (text, query) in [("foo bar foo", "foo"), ("Straße STRASSE", "ss"), ("abc", "zzz")] {
        let result = highlight_match(text, query);
        assert_eq!(result.replace("\x1b[1;33m", "").replace("\x1b[0m", ""), text);
    }
}

#[test]
fn export_imported_into_empty_store_comes_back() {
    let exported = vec![
        Note {
            id: 1,
            text: "one".to_string(),
            created_at: "2024-01-01T00:00:00Z".to_string(),
            updated_at: String::new(),
            tags: vec!["work".to_string()],
        },
        Note {
            id: 2,
            text: "two".to_string(),
            created_at: "2024-01-02T00:00:00Z".to_string(),
            updated_at: "2024-01-03T00:00:00Z".to_string(),
            tags: Vec::new(),
        },
    ];
    let mut store = Vec::new();
    import_notes(&mut store, exported.clone()).expect("import");
    assert_eq!(store, exported);

    let mut renumbered = Vec::new();
    let mut shifted = exported.clone();
    shifted[0].id = 40;
    shifted[1].id = 7;
    import_notes(&mut renumbered, shifted).expect("import");
    assert_eq!(ids(&renumbered), vec![1, 2]);
}

#[test]
fn operations_keep_notes_valid() {
    let mut notes = Vec::new();
    add_note(&mut notes, "a").expect("add a");
    add_note(&mut notes, "b").expect("add b");
    edit_note(&mut notes, 1, "a2").expect("edit");
    tag_note(&mut notes, 2, &["x".to_string(), "X".to_string()]).expect("tag");
    assert!(tag_note(&mut notes, 2, &[" ".to_string()]).is_err());
    untag_note(&mut notes, 2, "x").expect("untag");
    remove_notes(&mut notes, &[7], true).expect("remove");
    for n in &notes {
        assert!(validate_note(n).is_ok(), "{:?}", n);
    }
}

#[test]
fn untag_after_tag_restores_tags() {
    let mut notes = Vec::new();
    add_note(&mut notes, "task").expect("add");
    tag_note(&mut notes, 1, &["home".to_string()]).expect("tag home");
    let before = notes[0].tags.clone();
    tag_note(&mut notes, 1, &["Work".to_string()]).expect("tag work");
    untag_note(&mut notes, 1, "work").expect("untag");
    assert_eq!(notes[0].tags, before);
}

#[test]
fn empty_query_finds_every_note() {
    let mut notes = Vec::new();
    add_note(&mut notes, "a").expect("add");
    add_note(&mut notes, "b").expect("add");
    assert_eq!(scriv::search_notes(&notes, ""), notes);
}
