//! Tests for the formatting helpers.

use chrono::{Duration, Utc};
use scriv::{append_stdin_line, finish_stdin_text, highlight_match, note_age};

/// Feeds text through the line-by-line standard input steps, as the command
/// line does with what `read_line` returns.
fn read_text(input: &str) -> Result<String, String> {
    let mut out: Vec<char> = Vec::new();
    let mut bytes: usize = 0;
    for line in input.split_inclusive('\n') {
        append_stdin_line(&mut out, &mut bytes, line)?;
    }
    finish_stdin_text(&out)
}

#[test]
fn highlight_match_empty_query_returns_unchanged() {
    let result = highlight_match("hello world", "");
    assert_eq!(result, "hello world");
}

#[test]
fn highlight_match_wraps_match_in_ansi() {
    let result = highlight_match("Fix the Auth Bug", "auth");
    assert!(result.contains("\x1b[1;33mAuth\x1b[0m"));
    assert!(result.contains("Fix the "));
    assert!(result.contains(" Bug"));
}

#[test]
fn highlight_match_multiple_occurrences() {
    let result = highlight_match("foo bar foo", "foo");
    assert_eq!(result.matches("\x1b[1;33m").count(), 2);
}

#[test]
fn highlight_match_no_match_returns_unchanged() {
    let result = highlight_match("hello world", "xyz");
    assert_eq!(result, "hello world");
}

#[test]
fn note_age_invalid_timestamp_returns_question_mark() {
    assert_eq!(note_age("not-a-date"), "?");
    assert_eq!(note_age(""), "?");
}

#[test]
fn note_age_recent_returns_lt1h() {
    let ts = (Utc::now() - Duration::minutes(30))
        .format("%Y-%m-%dT%H:%M:%SZ")
        .to_string();
    assert_eq!(note_age(&ts), "<1h");
}

#[test]
fn note_age_hours() {
    let ts = (Utc::now() - Duration::hours(3))
        .format("%Y-%m-%dT%H:%M:%SZ")
        .to_string();
    assert_eq!(note_age(&ts), "3h");
}

#[test]
fn note_age_days() {
    let ts = (Utc::now() - Duration::days(5))
        .format("%Y-%m-%dT%H:%M:%SZ")
        .to_string();
    assert_eq!(note_age(&ts), "5d");
}

#[test]
fn note_age_weeks() {
    let ts = (Utc::now() - Duration::days(21))
        .format("%Y-%m-%dT%H:%M:%SZ")
        .to_string();
    assert_eq!(note_age(&ts), "3w");
}

#[test]
fn note_age_months() {
    let ts = (Utc::now() - Duration::days(90))
        .format("%Y-%m-%dT%H:%M:%SZ")
        .to_string();
    assert_eq!(note_age(&ts), "3mo");
}

#[test]
fn note_age_years() {
    let ts = (Utc::now() - Duration::days(730))
        .format("%Y-%m-%dT%H:%M:%SZ")
        .to_string();
    assert_eq!(note_age(&ts), "2y");
}

#[test]
fn read_stdin_text_returns_trimmed_text() {
    let result = read_text("hello\nworld\n").expect("read stdin");
    assert_eq!(result, "hello\nworld");
}

#[test]
fn read_stdin_text_empty_returns_error() {
    let err = read_text("").expect_err("expected error");
    assert_eq!(err, "no text provided via stdin");
}

#[test]
fn read_stdin_text_whitespace_only_returns_error() {
    let err = read_text("   \n  \n").expect_err("expected error");
    assert_eq!(err, "no text provided via stdin");
}

#[test]
fn read_stdin_text_strips_crlf() {
    let result = read_text("hello\r\nworld\r\n").expect("read stdin");
    assert_eq!(result, "hello\nworld");
}

#[test]
fn read_stdin_text_rejects_over_limit() {
    let mut out: Vec<char> = Vec::new();
    let mut bytes: usize = 0;
    let big = "x".repeat(scriv::MAX_STDIN_BYTES);
    append_stdin_line(&mut out, &mut bytes, &big).expect("exactly at the limit");
    let err = append_stdin_line(&mut out, &mut bytes, "y").expect_err("expected limit error");
    assert_eq!(err, "stdin input exceeds 10 MB limit");
    assert_eq!(bytes, scriv::MAX_STDIN_BYTES + 1);
}

#[test]
fn highlight_match_unicode_case_fold_no_panic() {
    let result = highlight_match("Ökologie test", "ökologie");
    assert!(result.contains("\x1b[1;33m"));
    assert!(result.contains("Ökologie"));
}

#[test]
fn highlight_match_expansion_char_no_panic() {
    let result = highlight_match("İstanbul", "i");
    assert!(!result.is_empty());
}

#[test]
fn highlight_match_exact_output() {
    assert_eq!(
        highlight_match("Fix the Auth Bug", "auth"),
        "Fix the \x1b[1;33mAuth\x1b[0m Bug"
    );
    assert_eq!(
        highlight_match("aaaa", "aa"),
        "\x1b[1;33maa\x1b[0m\x1b[1;33maa\x1b[0m"
    );
}

#[test]
fn highlight_match_keeps_text_when_codes_removed() {
    let text = "İstanbul is big; ISTANBUL too";
    let result = highlight_match(text, "i");
    let stripped = result.replace("\x1b[1;33m", "").replace("\x1b[0m", "");
    assert_eq!(stripped, text);
}

#[test]
fn highlight_match_expanding_lowercase_highlights_whole_char() {
    // 'İ' lowercases to two characters; a match on its first one covers 'İ'.
    assert_eq!(highlight_match("İx", "i"), "\x1b[1;33mİ\x1b[0mx");
}

#[test]
fn note_age_exact_labels() {
    assert_eq!(scriv::format::age_from_seconds(-5), "<1h");
    assert_eq!(scriv::format::age_from_seconds(3599), "<1h");
    assert_eq!(scriv::format::age_from_seconds(3600), "1h");
    assert_eq!(scriv::format::age_from_seconds(86399), "23h");
    assert_eq!(scriv::format::age_from_seconds(86400), "1d");
    assert_eq!(scriv::format::age_from_seconds(14 * 86400), "2w");
    assert_eq!(scriv::format::age_from_seconds(56 * 86400), "1mo");
    assert_eq!(scriv::format::age_from_seconds(730 * 86400), "2y");
}
