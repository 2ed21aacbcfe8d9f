//! Tests of the command line's rules and printed lines.

use scriv::{
    asks_for_password, collect_tags, confirms, hash_tag_text, list_line, note_ref, parse_ids,
    parse_list_options, search_line, tag_report, view_lines, Note,
};

fn note(id: u64, text: &str, created_at: &str, updated_at: &str, tags: &[&str]) -> Note {
    Note {
        id,
        text: text.to_string(),
        created_at: created_at.to_string(),
        updated_at: updated_at.to_string(),
        tags: tags.iter().map(|t| t.to_string()).collect(),
    }
}

fn strings(v: &[&str]) -> Vec<String> {
    v.iter().map(|s| s.to_string()).collect()
}

#[test]
fn list_flags_are_read_in_order() {
    let o = parse_list_options(&strings(&["--tag=work", "--sort=date", "--limit=5", "--full"]))
        .expect("flags");
    assert_eq!(o.tag, "work");
    assert_eq!(o.sort, "date");
    assert_eq!(o.limit, 5);
    assert!(o.full);
    let o = parse_list_options(&strings(&["--sort=id", "--sort=updated"])).expect("flags");
    assert_eq!(o.sort, "updated");
    assert_eq!(o.limit, 0);
    assert!(!o.full);
    let o = parse_list_options(&[]).expect("no flags");
    assert_eq!(o.tag, "");
    assert_eq!(o.sort, "");
}

#[test]
fn list_flags_refuse_bad_input() {
    assert_eq!(
        parse_list_options(&strings(&["--limit=0"])).expect_err("zero"),
        "--limit must be a positive integer"
    );
    assert_eq!(
        parse_list_options(&strings(&["--limit=x"])).expect_err("not a number"),
        "--limit must be a positive integer"
    );
    assert_eq!(
        parse_list_options(&strings(&["--fast", "--limit=0"])).expect_err("unknown"),
        "unknown flag: --fast"
    );
    assert_eq!(parse_list_options(&strings(&["--limit=+7"])).expect("plus").limit, 7);
}

#[test]
fn done_ids_must_all_be_positive() {
    assert_eq!(parse_ids(&strings(&["1", "3", "02"])), Ok(vec![1, 3, 2]));
    assert_eq!(
        parse_ids(&strings(&["1", "0"])),
        Err("id must be a positive integer".to_string())
    );
    assert_eq!(
        parse_ids(&strings(&["x", "2"])),
        Err("id must be a positive integer".to_string())
    );
    assert_eq!(parse_ids(&[]), Ok(vec![]));
}

#[test]
fn password_prompt_depends_on_command() {
    for cmd in ["lock", "unlock", "-h", "--help", "help", "-V", "--version", "version"] {
        assert!(!asks_for_password(cmd), "{}", cmd);
    }
    for cmd in ["add", "list", "export", "clear", "Lock"] {
        assert!(asks_for_password(cmd), "{}", cmd);
    }
}

#[test]
fn clear_is_confirmed_by_y_only() {
    assert!(confirms("y\n"));
    assert!(confirms("  Y \r\n"));
    assert!(!confirms("yes\n"));
    assert!(!confirms("\n"));
    assert!(!confirms("n"));
}

#[test]
fn lines_name_notes() {
    let n = note(7, "fix the auth bug", "2024-01-01T00:00:00Z", "", &["work", "critical"]);
    assert_eq!(note_ref(&n), "[7] fix the auth bug");
    assert_eq!(hash_tag_text(&n.tags), "#work #critical");
    assert_eq!(hash_tag_text(&Vec::new()), "#");
    assert_eq!(
        list_line(&n, "2d", false),
        "[7] (2d) fix the auth bug #work #critical"
    );
    assert_eq!(search_line(&n, "AUTH", false), "[7] fix the auth bug");
    assert_eq!(
        search_line(&n, "AUTH", true),
        "[7] fix the \x1b[1;33mauth\x1b[0m bug"
    );
}

#[test]
fn list_line_shortens_long_texts() {
    let long = "a".repeat(80);
    let n = note(1, &long, "2024-01-01T00:00:00Z", "", &[]);
    assert_eq!(list_line(&n, "<1h", false), format!("[1] (<1h) {}...", "a".repeat(72)));
    assert_eq!(list_line(&n, "<1h", true), format!("[1] (<1h) {}", long));
    let exact = "é".repeat(72);
    let n = note(2, &exact, "2024-01-01T00:00:00Z", "", &[]);
    assert_eq!(list_line(&n, "1h", false), format!("[2] (1h) {}", exact));
}

#[test]
fn view_lines_show_days_and_tags() {
    let n = note(3, "write tests", "2026-03-12T23:30:00-02:00", "2026-03-14T08:00:00Z", &["work"]);
    assert_eq!(
        view_lines(&n),
        vec![
            "[3] write tests".to_string(),
            "    Created: 2026-03-13".to_string(),
            "    Updated: 2026-03-14".to_string(),
            "    Tags: #work".to_string(),
        ]
    );
    let n = note(4, "plain", "2026-03-12T10:00:00Z", "", &[]);
    assert_eq!(
        view_lines(&n),
        vec!["[4] plain".to_string(), "    Created: 2026-03-12".to_string()]
    );
    let n = note(5, "odd", "not a time", "also not", &[]);
    assert_eq!(view_lines(&n), vec!["[5] odd".to_string()]);
}

#[test]
fn tag_report_is_sorted_and_padded() {
    let notes = vec![
        note(1, "a", "2024-01-01T00:00:00Z", "", &["work", "critical"]),
        note(2, "b", "2024-01-01T00:00:00Z", "", &["work", "Zeta"]),
        note(3, "c", "2024-01-01T00:00:00Z", "", &["a-very-long-tag-name-here"]),
    ];
    let counts = collect_tags(&notes);
    assert_eq!(
        tag_report(&counts),
        vec![
            "Zeta                 1".to_string(),
            "a-very-long-tag-name-here 1".to_string(),
            "critical             1".to_string(),
            "work                 2".to_string(),
        ]
    );
    assert!(tag_report(&collect_tags(&[])).is_empty());
}
