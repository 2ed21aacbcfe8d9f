//! Tests of the note operations. Each test keeps the store as an in-memory
//! list of notes, which the operations take and update.

use scriv::{
    add_note, add_note_at, append_note, clear_notes, collect_tags, edit_note, get_note, import_notes,
    list_notes, parse_id, remove_note, remove_notes, search_notes, tag_note, untag_note,
    validate_note, ListOptions, Note, MAX_NOTE_BYTES,
};

fn note(id: u64, text: &str, created_at: &str, updated_at: &str, tags: &[&str]) -> Note {
    Note {
        id,
        text: text.to_string(),
        created_at: created_at.to_string(),
        updated_at: updated_at.to_string(),
        tags: tags.iter().map(|t| t.to_string()).collect(),
    }
}

#[test]
fn add_note_assigns_id_1_when_empty() {
    let mut notes = Vec::new();
    let note = add_note(&mut notes, "first").expect("add note");
    assert_eq!(note.id, 1);
}

#[test]
fn add_note_id_is_max_plus_one() {
    let mut notes = Vec::new();
    add_note(&mut notes, "one").expect("add one");
    add_note(&mut notes, "two").expect("add two");
    let note = add_note(&mut notes, "three").expect("add three");
    assert_eq!(note.id, 3);
}

#[test]
fn remove_note_ids_are_stable() {
    let mut notes = Vec::new();
    add_note(&mut notes, "one").expect("add one");
    add_note(&mut notes, "two").expect("add two");
    add_note(&mut notes, "three").expect("add three");
    remove_note(&mut notes, 2).expect("remove two");

    let note = add_note(&mut notes, "four").expect("add four");
    assert_eq!(note.id, 4);
}

#[test]
fn remove_note_missing_id_returns_error() {
    let mut notes = Vec::new();
    let err = remove_note(&mut notes, 99).expect_err("expected error");
    assert_eq!(err, "no note with id 99");
}

#[test]
fn search_notes_case_insensitive() {
    let mut notes = Vec::new();
    add_note(&mut notes, "Fix the Auth Bug").expect("add 1");
    add_note(&mut notes, "write tests").expect("add 2");

    let results = search_notes(&notes, "auth");
    assert_eq!(results.len(), 1);
    assert_eq!(results[0].id, 1);
}

#[test]
fn search_notes_matches_tags() {
    let mut notes = Vec::new();
    add_note(&mut notes, "buy groceries").expect("add 1");
    tag_note(&mut notes, 1, &["work".to_string()]).expect("tag 1");
    add_note(&mut notes, "standup notes").expect("add 2");

    let results = search_notes(&notes, "work");
    assert_eq!(results.len(), 1);
    assert_eq!(results[0].id, 1);
}

#[test]
fn edit_note_sets_updated_at() {
    let mut notes = Vec::new();
    add_note(&mut notes, "original").expect("add");
    let updated = edit_note(&mut notes, 1, "revised").expect("edit").note;

    assert_eq!(updated.text, "revised");
    assert!(!updated.updated_at.is_empty());
}

#[test]
fn edit_note_missing_id_returns_error() {
    let mut notes = Vec::new();
    let err = edit_note(&mut notes, 99, "text").expect_err("expected error");
    assert_eq!(err, "no note with id 99");
}

#[test]
fn get_note_returns_correct_note() {
    let mut notes = Vec::new();
    add_note(&mut notes, "hello world").expect("add");
    let note = get_note(&notes, 1).expect("get note");
    assert_eq!(note.id, 1);
    assert_eq!(note.text, "hello world");
}

#[test]
fn get_note_missing_id_returns_error() {
    let notes = Vec::new();
    let err = get_note(&notes, 99).expect_err("expected error");
    assert_eq!(err, "no note with id 99");
}

#[test]
fn append_note_concatenates_text() {
    let mut notes = Vec::new();
    add_note(&mut notes, "hello").expect("add");
    let note = append_note(&mut notes, 1, "world").expect("append").note;

    assert_eq!(note.text, "hello world");
    assert!(!note.updated_at.is_empty());

    let persisted = get_note(&notes, 1).expect("get note");
    assert_eq!(persisted.text, "hello world");
}

#[test]
fn append_note_rejects_combined_over_limit() {
    let mut notes = Vec::new();
    let big = "x".repeat(MAX_NOTE_BYTES - 5);
    add_note(&mut notes, &big).expect("add big note");
    let err = append_note(&mut notes, 1, "hello world").expect_err("expected size error");
    assert!(err.contains("1 MB"));
}

#[test]
fn append_note_missing_id_returns_error() {
    let mut notes = Vec::new();
    let err = append_note(&mut notes, 99, "text").expect_err("expected error");
    assert_eq!(err, "no note with id 99");
}

#[test]
fn add_note_rejects_empty_text() {
    let mut notes = Vec::new();
    let err = add_note(&mut notes, "   ").expect_err("expected empty error");
    assert_eq!(err, "note text cannot be empty");
    assert!(notes.is_empty());
}

#[test]
fn edit_note_rejects_empty_text() {
    let mut notes = Vec::new();
    add_note(&mut notes, "original").expect("add");
    let err = edit_note(&mut notes, 1, "").expect_err("expected empty error");
    assert_eq!(err, "note text cannot be empty");
    assert_eq!(get_note(&notes, 1).expect("get note").text, "original");
}

#[test]
fn append_note_rejects_empty_text() {
    let mut notes = Vec::new();
    add_note(&mut notes, "original").expect("add");
    let err = append_note(&mut notes, 1, "  ").expect_err("expected empty error");
    assert_eq!(err, "note text cannot be empty");
    assert_eq!(get_note(&notes, 1).expect("get note").text, "original");
}

#[test]
fn import_notes_rejects_invalid_note() {
    let mut notes = Vec::new();
    let err = import_notes(&mut notes, vec![note(1, "", "2024-01-01T00:00:00Z", "", &[])])
        .expect_err("expected validation error");
    assert_eq!(err, "note text cannot be empty");
    assert!(notes.is_empty());
}

#[test]
fn validate_note_accepts_well_formed_note() {
    let note = note(1, "hello", "2024-01-01T00:00:00Z", "", &["work"]);
    assert!(validate_note(&note).is_ok());
}

#[test]
fn validate_note_rejects_empty_created_at() {
    let note = note(1, "hello", "", "", &[]);
    let err = validate_note(&note).expect_err("expected error");
    assert_eq!(err, "invalid created_at timestamp");
}

#[test]
fn validate_note_rejects_malformed_created_at() {
    let note = note(1, "hello", "not-a-date", "", &[]);
    let err = validate_note(&note).expect_err("expected error");
    assert_eq!(err, "invalid created_at timestamp");
}

#[test]
fn validate_note_rejects_malformed_updated_at() {
    let note = note(1, "hello", "2024-01-01T00:00:00Z", "bogus", &[]);
    let err = validate_note(&note).expect_err("expected error");
    assert_eq!(err, "invalid updated_at timestamp");
}

#[test]
fn validate_note_rejects_empty_tag() {
    let note = note(1, "hello", "2024-01-01T00:00:00Z", "", &["  "]);
    let err = validate_note(&note).expect_err("expected error");
    assert_eq!(err, "tag cannot be empty");
}

#[test]
fn add_note_rejects_oversized_text() {
    let mut notes = Vec::new();
    let big = "x".repeat(MAX_NOTE_BYTES + 1);
    let err = add_note(&mut notes, &big).expect_err("expected size error");
    assert_eq!(err, "note text exceeds 1 MB limit");
    assert!(notes.is_empty());
}

#[test]
fn edit_note_rejects_oversized_text() {
    let mut notes = Vec::new();
    add_note(&mut notes, "original").expect("add");
    let big = "x".repeat(MAX_NOTE_BYTES + 1);
    let err = edit_note(&mut notes, 1, &big).expect_err("expected size error");
    assert_eq!(err, "note text exceeds 1 MB limit");
    assert_eq!(get_note(&notes, 1).expect("get note").text, "original");
}

#[test]
fn parse_id_accepts_positive_integer() {
    assert_eq!(parse_id("42").expect("parse id"), 42);
}

#[test]
fn parse_id_rejects_zero() {
    let err = parse_id("0").expect_err("expected error");
    assert_eq!(err, "id must be a positive integer");
}

#[test]
fn parse_id_rejects_non_integer() {
    let err = parse_id("abc").expect_err("expected error");
    assert_eq!(err, "id must be a positive integer");
}

#[test]
fn tag_note_deduplicates_tags() {
    let mut notes = Vec::new();
    add_note(&mut notes, "buy milk").expect("add");
    tag_note(&mut notes, 1, &["groceries".to_string()]).expect("tag 1");
    let note = tag_note(&mut notes, 1, &["groceries".to_string()]).expect("tag 2").note;
    assert_eq!(note.tags.len(), 1);

    assert_eq!(notes[0].tags.len(), 1);
}

#[test]
fn untag_note_removes_tag() {
    let mut notes = Vec::new();
    add_note(&mut notes, "task").expect("add");
    tag_note(&mut notes, 1, &["work".to_string()]).expect("tag");
    let note = untag_note(&mut notes, 1, "work").expect("untag").note;
    assert!(note.tags.is_empty());
}

#[test]
fn untag_note_noop_when_tag_absent() {
    let mut notes = Vec::new();
    add_note(&mut notes, "task").expect("add");
    tag_note(&mut notes, 1, &["work".to_string()]).expect("tag");
    let note = untag_note(&mut notes, 1, "nonexistent").expect("untag nonexistent").note;
    assert_eq!(note.tags, vec!["work".to_string()]);
}

#[test]
fn tag_note_deduplicates_case_insensitive() {
    let mut notes = Vec::new();
    add_note(&mut notes, "task").expect("add");
    tag_note(&mut notes, 1, &["Work".to_string()]).expect("tag 1");
    let note = tag_note(&mut notes, 1, &["work".to_string()]).expect("tag 2").note;
    assert_eq!(note.tags.len(), 1);
    assert_eq!(note.tags[0], "Work");
}

#[test]
fn untag_note_removes_case_insensitive() {
    let mut notes = Vec::new();
    add_note(&mut notes, "task").expect("add");
    tag_note(&mut notes, 1, &["Work".to_string()]).expect("tag");
    let note = untag_note(&mut notes, 1, "work").expect("untag").note;
    assert!(note.tags.is_empty());
}

#[test]
fn tag_note_noop_does_not_set_updated_at() {
    let mut notes = Vec::new();
    add_note(&mut notes, "task").expect("add");
    let first = tag_note(&mut notes, 1, &["work".to_string()]).expect("tag").note;
    let second = tag_note(&mut notes, 1, &["work".to_string()]).expect("tag duplicate");
    assert!(!second.changed);
    assert_eq!(first.updated_at, second.note.updated_at);

    assert_eq!(notes[0].updated_at, first.updated_at);
}

#[test]
fn untag_note_sets_updated_at() {
    let mut notes = Vec::new();
    add_note(&mut notes, "task").expect("add");
    tag_note(&mut notes, 1, &["work".to_string()]).expect("tag");
    let note = untag_note(&mut notes, 1, "work").expect("untag").note;
    assert!(!note.updated_at.is_empty());
}

#[test]
fn untag_note_noop_does_not_set_updated_at() {
    let mut notes = Vec::new();
    add_note(&mut notes, "task").expect("add");
    let update = untag_note(&mut notes, 1, "nonexistent").expect("untag");
    assert!(!update.changed);
    assert!(update.note.updated_at.is_empty());
}

#[test]
fn untag_note_missing_id_returns_error() {
    let mut notes = Vec::new();
    let err = untag_note(&mut notes, 99, "tag").expect_err("expected error");
    assert_eq!(err, "no note with id 99");
}

#[test]
fn clear_notes_empties_store() {
    let mut notes = Vec::new();
    add_note(&mut notes, "one").expect("add 1");
    add_note(&mut notes, "two").expect("add 2");
    add_note(&mut notes, "three").expect("add 3");
    notes = clear_notes();

    assert!(notes.is_empty());
}

#[test]
fn collect_tags_counts_correctly() {
    let notes = vec![
        note(1, "a", "", "", &["work", "urgent"]),
        note(2, "b", "", "", &["work"]),
        note(3, "c", "", "", &[]),
    ];

    let counts = collect_tags(&notes);
    assert_eq!(counts.get("work"), Some(2));
    assert_eq!(counts.get("urgent"), Some(1));
    assert!(!counts.contains_key("nonexistent"));
}

#[test]
fn collect_tags_preserves_original_case() {
    let notes = vec![note(1, "a", "", "", &["Rust"])];
    let counts = collect_tags(&notes);
    assert_eq!(counts.get("Rust"), Some(1));
    assert_eq!(counts.get("rust"), None);
}

#[test]
fn list_notes_sort_by_updated() {
    let notes = vec![
        note(1, "oldest", "2024-01-01T00:00:00Z", "", &[]),
        note(2, "edited", "2024-01-02T00:00:00Z", "2024-12-01T00:00:00Z", &[]),
        note(3, "newer", "2024-06-01T00:00:00Z", "", &[]),
    ];

    let notes = list_notes(
        &notes,
        &ListOptions {
            sort: "updated".to_string(),
            ..Default::default()
        },
    )
    .expect("list notes");

    assert_eq!(notes[0].id, 2);
    assert_eq!(notes[1].id, 3);
    assert_eq!(notes[2].id, 1);
}

#[test]
fn list_notes_sort_by_date() {
    let notes = vec![
        note(1, "oldest", "2024-01-01T00:00:00Z", "", &[]),
        note(2, "middle", "2024-06-01T00:00:00Z", "", &[]),
        note(3, "newest", "2024-12-01T00:00:00Z", "", &[]),
    ];

    let notes = list_notes(
        &notes,
        &ListOptions {
            sort: "date".to_string(),
            ..Default::default()
        },
    )
    .expect("list notes");

    assert_eq!(notes[0].id, 3);
    assert_eq!(notes[1].id, 2);
    assert_eq!(notes[2].id, 1);
}

#[test]
fn list_notes_sort_unknown_returns_error() {
    let mut notes = Vec::new();
    add_note(&mut notes, "note").expect("add");
    let err = list_notes(
        &notes,
        &ListOptions {
            sort: "bogus".to_string(),
            ..Default::default()
        },
    )
    .expect_err("expected unknown sort error");

    assert!(err.contains("unknown sort"));
    assert_eq!(err, "unknown sort \"bogus\": use id, date, or updated");
}

#[test]
fn list_notes_tag_filter() {
    let mut notes = Vec::new();
    add_note(&mut notes, "work note").expect("add 1");
    tag_note(&mut notes, 1, &["Work".to_string()]).expect("tag 1");
    add_note(&mut notes, "personal note").expect("add 2");
    tag_note(&mut notes, 2, &["personal".to_string()]).expect("tag 2");
    add_note(&mut notes, "untagged note").expect("add 3");

    let notes = list_notes(
        &notes,
        &ListOptions {
            tag: "work".to_string(),
            ..Default::default()
        },
    )
    .expect("list notes");

    assert_eq!(notes.len(), 1);
    assert_eq!(notes[0].id, 1);
}

#[test]
fn list_notes_limit_truncates() {
    let mut notes = Vec::new();
    for i in 1..=5 {
        add_note(&mut notes, &format!("note {}", i)).expect("add note");
    }

    let notes = list_notes(
        &notes,
        &ListOptions {
            limit: 3,
            ..Default::default()
        },
    )
    .expect("list notes");

    assert_eq!(notes.len(), 3);
}

#[test]
fn list_notes_limit_keeps_most_recent() {
    let mut notes = Vec::new();
    for i in 1..=5 {
        add_note_at(&mut notes, &format!("note {}", i), format!("2024-01-0{}T00:00:00Z", i))
            .expect("add note");
    }
    let by_id = list_notes(
        &notes,
        &ListOptions {
            limit: 2,
            ..Default::default()
        },
    )
    .expect("list notes");
    assert_eq!(by_id.iter().map(|n| n.id).collect::<Vec<_>>(), vec![4, 5]);
    let by_date = list_notes(
        &notes,
        &ListOptions {
            limit: 2,
            sort: "date".to_string(),
            ..Default::default()
        },
    )
    .expect("list notes");
    assert_eq!(by_date.iter().map(|n| n.id).collect::<Vec<_>>(), vec![5, 4]);
    let all = list_notes(
        &notes,
        &ListOptions {
            limit: 9,
            ..Default::default()
        },
    )
    .expect("list notes");
    assert_eq!(all.len(), 5);
}

#[test]
fn tag_note_refuses_blank_tags() {
    let mut notes = Vec::new();
    add_note(&mut notes, "task").expect("add");
    let before = notes.clone();
    let err = tag_note(&mut notes, 1, &["work".to_string(), "  ".to_string()]).expect_err("blank");
    assert_eq!(err, "tag cannot be empty");
    assert_eq!(notes, before);
    let err = tag_note(&mut notes, 9, &["".to_string()]).expect_err("blank first");
    assert_eq!(err, "tag cannot be empty");
    tag_note(&mut notes, 1, &["work".to_string()]).expect("tag");
    assert!(validate_note(&notes[0]).is_ok());
}

#[test]
fn remove_notes_force_ignores_missing() {
    let mut notes = Vec::new();
    add_note(&mut notes, "alpha").expect("add alpha");
    add_note(&mut notes, "beta").expect("add beta");

    let removed = remove_notes(&mut notes, &[1, 99], true).expect("remove notes");
    assert_eq!(removed.len(), 1);
    assert_eq!(removed[0].id, 1);
}

#[test]
fn remove_notes_non_force_all_or_nothing() {
    let mut notes = Vec::new();
    add_note(&mut notes, "alpha").expect("add alpha");
    add_note(&mut notes, "beta").expect("add beta");

    let err = remove_notes(&mut notes, &[1, 99], false).expect_err("expected error");
    assert!(err.contains("no note with id 99"));
    assert!(err.contains("no notes were removed"));

    assert_eq!(notes.len(), 2);
}

#[test]
fn import_notes_assigns_new_ids() {
    let mut notes = Vec::new();
    add_note(&mut notes, "existing").expect("add existing");
    import_notes(
        &mut notes,
        vec![
            note(1, "imported one", "2024-01-01T00:00:00Z", "", &[]),
            note(2, "imported two", "2024-01-02T00:00:00Z", "", &[]),
        ],
    )
    .expect("import notes");

    assert_eq!(notes.len(), 3);
    assert_eq!(notes[1].id, 2);
    assert_eq!(notes[2].id, 3);
}

/// A store holding a single note with the maximum possible id.
fn seed_max_id_note() -> (Vec<Note>, Note) {
    let note = note(u64::MAX, "edge", "2026-01-01T00:00:00Z", "", &[]);
    (vec![note.clone()], note)
}

#[test]
fn add_note_errors_when_id_space_exhausted() {
    let (mut notes, _) = seed_max_id_note();
    let err = add_note(&mut notes, "overflow").expect_err("expected error");
    assert_eq!(err, "note id limit reached");
}

#[test]
fn import_notes_errors_when_id_space_exhausted() {
    let (mut notes, existing) = seed_max_id_note();
    let err = import_notes(&mut notes, vec![existing]).expect_err("expected error");
    assert_eq!(err, "note id limit reached");
}
