//! Tests of the notes file framing, its encryption and the store settings.

use std::io::BufRead;
use scriv::{
    account_import_line, check_cli_import_record, check_import_record, decode_notes_payload,
    encode_notes_payload, invalid_json_message, is_encrypted_data, join_lines, notes_path_parts,
    split_lines_exec, trimmed, Note, Platform, StorageConfig, MAX_IMPORT_BYTES,
};

/// Reads NDJSON import input line by line with the library's steps: size
/// accounting, trimming, the record checks with line numbers. Records are
/// read through `serde_json::Value`, as the program reads them into its
/// serializable copy of `Note`.
fn import_ndjson(input: &str) -> Result<Vec<Note>, String> {
    let mut incoming = Vec::new();
    let mut total: u64 = 0;
    for (idx, line) in std::io::BufReader::new(input.as_bytes()).lines().enumerate() {
        let line = line.map_err(|e| e.to_string())?;
        total = account_import_line(total, &line)?;
        let t = trimmed(&line);
        if t.is_empty() {
            continue;
        }
        let v: serde_json::Value =
            serde_json::from_str(&t).map_err(|e| invalid_json_message(idx, &e.to_string()))?;
        let field = |k: &str| v.get(k).and_then(|x| x.as_str()).unwrap_or("").to_string();
        let note = Note {
            id: v.get("id").and_then(|x| x.as_u64()).unwrap_or(0),
            text: field("text"),
            created_at: field("created_at"),
            updated_at: field("updated_at"),
            tags: v
                .get("tags")
                .and_then(|x| x.as_array())
                .map(|a| a.iter().filter_map(|t| t.as_str().map(|s| s.to_string())).collect())
                .unwrap_or_default(),
        };
        check_import_record(idx, &note)?;
        incoming.push(note);
    }
    Ok(incoming)
}

fn note(text: &str, created_at: &str, updated_at: &str, tags: &[&str]) -> Note {
    Note {
        id: 1,
        text: text.to_string(),
        created_at: created_at.to_string(),
        updated_at: updated_at.to_string(),
        tags: tags.iter().map(|t| t.to_string()).collect(),
    }
}

#[test]
fn plain_payload_is_written_as_is() {
    let ndjson = b"{\"id\":1}\n".to_vec();
    let payload = encode_notes_payload(ndjson.clone(), "").expect("encode");
    assert_eq!(payload, ndjson);
    assert!(!is_encrypted_data(&payload));
    assert_eq!(decode_notes_payload(payload, "").expect("decode"), ndjson);
}

#[test]
fn save_load_encrypted_notes() {
    let lines = vec![
        "{\"id\":1,\"text\":\"secret note\",\"created_at\":\"2024-01-01T00:00:00Z\"}".to_string(),
        "{\"id\":2,\"text\":\"another secret\",\"created_at\":\"2024-02-01T00:00:00Z\",\"tags\":[\"private\"]}".to_string(),
    ];
    let ndjson = join_lines(&lines);
    let payload = encode_notes_payload(ndjson.clone(), "testpassword").expect("encode");
    assert!(is_encrypted_data(&payload));

    let back = decode_notes_payload(payload, "testpassword").expect("decode");
    assert_eq!(back, ndjson);
    let got = split_lines_exec(&back);
    assert_eq!(got.len(), lines.len());
    assert_eq!(got[0], lines[0].as_bytes());
}

#[test]
fn load_notes_with_wrong_password_fails() {
    let payload = encode_notes_payload(b"{\"id\":1}\n".to_vec(), "correct").expect("encode");
    let err = decode_notes_payload(payload, "wrong").expect_err("expected wrong password error");
    assert_eq!(err, "incorrect password");
}

#[test]
fn join_lines_appends_newlines() {
    let lines = vec!["a".to_string(), "bc".to_string()];
    assert_eq!(join_lines(&lines), b"a\nbc\n");
    assert_eq!(join_lines(&Vec::new()), b"");
}

#[test]
fn split_lines_follows_buf_read_lines() {
    let lines = split_lines_exec(b"one\r\ntwo\n\nthree");
    assert_eq!(
        lines,
        vec![b"one".to_vec(), b"two".to_vec(), b"".to_vec(), b"three".to_vec()]
    );
    assert!(split_lines_exec(b"").is_empty());
    assert_eq!(split_lines_exec(b"x\n"), vec![b"x".to_vec()]);
    assert_eq!(split_lines_exec(b"x\r"), vec![b"x\r".to_vec()]);
}

#[test]
fn split_join_roundtrip() {
    let lines = vec!["{\"id\":1}".to_string(), "".to_string(), "{\"id\":2}".to_string()];
    let split = split_lines_exec(&join_lines(&lines));
    let expected: Vec<Vec<u8>> = lines.iter().map(|l| l.as_bytes().to_vec()).collect();
    assert_eq!(split, expected);
}

#[test]
fn notes_path_parts_per_platform() {
    assert_eq!(
        notes_path_parts(Platform::Windows, "C:\\Users\\a\\AppData", "", ""),
        vec!["C:\\Users\\a\\AppData", "scriv", "notes.json"]
    );
    assert_eq!(
        notes_path_parts(Platform::Windows, "", "", ""),
        vec![".", "scriv", "notes.json"]
    );
    assert_eq!(
        notes_path_parts(Platform::MacOs, "", "/Users/a", ""),
        vec!["/Users/a", "Library", "Application Support", "scriv", "notes.json"]
    );
    assert_eq!(
        notes_path_parts(Platform::Other, "", "/home/a", "/data"),
        vec!["/data", "scriv", "notes.json"]
    );
    assert_eq!(
        notes_path_parts(Platform::Other, "", "/home/a", ""),
        vec!["/home/a", ".local", "share", "scriv", "notes.json"]
    );
}

#[test]
fn storage_config_reads_back_password() {
    let mut config = StorageConfig::new();
    assert!(!config.has_active_password());
    assert_eq!(config.active_password(), "");
    config.set_active_password("secret".to_string());
    assert!(config.has_active_password());
    assert_eq!(config.active_password(), "secret");
    assert_eq!(config.active_password_zeroized().to_plain(), "secret");
    config.set_notes_path_override(Some(std::path::PathBuf::from("/tmp/x/notes.json")));
    assert_eq!(config.active_password(), "secret");
    assert_eq!(
        config.notes_path_override(),
        Some(&std::path::PathBuf::from("/tmp/x/notes.json"))
    );
    config.set_active_password(String::new());
    assert!(!config.has_active_password());
}

#[test]
fn import_line_accounting_enforces_limit() {
    assert_eq!(account_import_line(0, "abc"), Ok(4));
    assert_eq!(account_import_line(10, ""), Ok(11));
    let err = account_import_line(MAX_IMPORT_BYTES - 3, "abc").expect_err("over limit");
    assert_eq!(err, "import input exceeds 50 MB limit");
    assert_eq!(account_import_line(MAX_IMPORT_BYTES - 4, "abc"), Ok(MAX_IMPORT_BYTES));
}

#[test]
fn parse_import_ndjson_parses_multiple_notes() {
    let input = "{\"id\":1,\"text\":\"one\",\"created_at\":\"2024-01-01T00:00:00Z\"}\n{\"id\":2,\"text\":\"two\",\"created_at\":\"2024-01-02T00:00:00Z\"}\n";
    let notes = import_ndjson(input).expect("parse import");
    assert_eq!(notes.len(), 2);
    assert_eq!(notes[1].text, "two");
}

#[test]
fn parse_import_ndjson_skips_blank_lines() {
    let input = "{\"id\":1,\"text\":\"one\",\"created_at\":\"2024-01-01T00:00:00Z\"}\n\n   \n{\"id\":2,\"text\":\"two\",\"created_at\":\"2024-01-02T00:00:00Z\"}\n";
    let notes = import_ndjson(input).expect("parse import");
    assert_eq!(notes.len(), 2);
}

#[test]
fn parse_import_ndjson_empty_input_returns_empty() {
    let notes = import_ndjson("").expect("parse import");
    assert!(notes.is_empty());
}

#[test]
fn parse_import_ndjson_reports_line_on_invalid_json() {
    let input = "{\"id\":1,\"text\":\"one\",\"created_at\":\"2024-01-01T00:00:00Z\"}\nnot json\n";
    let err = import_ndjson(input).expect_err("expected error");
    assert!(err.starts_with("line 2: invalid JSON"));
}

#[test]
fn parse_import_ndjson_reports_line_on_invalid_note() {
    let input = "{\"id\":1,\"text\":\"\",\"created_at\":\"2024-01-01T00:00:00Z\"}\n";
    let err = import_ndjson(input).expect_err("expected error");
    assert_eq!(err, "line 1: note text cannot be empty");
}

#[test]
fn import_messages_carry_line_numbers() {
    assert_eq!(
        invalid_json_message(1, "expected value at line 1 column 1"),
        "line 2: invalid JSON: expected value at line 1 column 1"
    );
    let err = import_ndjson("\n{\"id\":1,\"text\":\"\",\"created_at\":\"2024-01-01T00:00:00Z\"}\n")
        .expect_err("expected error");
    assert_eq!(err, "line 2: note text cannot be empty");
    let err = check_import_record(4, &note("x", "2024-01-01T00:00:00Z", "", &[" "])).expect_err("invalid");
    assert_eq!(err, "line 5: tag cannot be empty");
    assert!(check_import_record(0, &note("x", "2024-01-01T00:00:00Z", "", &[])).is_ok());
}

#[test]
fn cli_import_checks_text_and_timestamps() {
    let err = check_cli_import_record(2, &note("x", "nope", "", &[])).expect_err("invalid");
    assert_eq!(err, "line 3: invalid created_at timestamp");
    let err = check_cli_import_record(0, &note("x", "2024-01-01T00:00:00Z", "bad", &[])).expect_err("invalid");
    assert_eq!(err, "line 1: invalid updated_at timestamp");
    assert!(check_cli_import_record(0, &note("x", "2024-01-01T00:00:00Z", "", &[" "])).is_ok());
}

#[test]
fn trimmed_removes_surrounding_whitespace() {
    assert_eq!(trimmed("  {\"id\":1}\t\r"), "{\"id\":1}");
    assert_eq!(trimmed("   "), "");
}
