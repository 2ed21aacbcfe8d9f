//! A local note manager: notes kept as NDJSON at rest, optionally encrypted
//! under a password, and the operations of its command line.

pub mod text;
pub mod model;
pub mod format;
pub mod notes;
pub mod listing;
pub mod tags;
pub mod crypto;
pub mod storage;
pub mod cli;
pub mod laws;

pub use cli::{
    asks_for_password, confirms, hash_tag_text, list_line, note_ref, parse_ids, parse_list_options,
    search_line, tag_report, view_lines, view_lines_from,
};
pub use crypto::{
    ENCRYPTED_MAGIC, decrypt_notes, encrypt_notes, frame_encrypted, is_encrypted_data, split_encrypted,
};
pub use format::{
    age_from_seconds, append_stdin_line, finish_stdin_text, highlight_lowered, highlight_match, note_age, MAX_STDIN_BYTES,
};
pub use listing::{list_notes, SortMode};
pub use text::blank;
pub use model::{ListOptions, Note};
pub use notes::{
    account_import_line, add_note, add_note_at, append_note, append_note_at, check_cli_import_record,
    check_cli_import_record_with, check_import_record, clear_notes, drop_tag, lowered_contains,
    merge_tags, search_lowered, validate_note_with, edit_note, edit_note_at, get_note, import_notes,
    invalid_json_message, note_has_tag, parse_id, remove_note, remove_notes, search_notes,
    tag_note, tag_note_at, trimmed, untag_note, untag_note_at, validate_note, validate_text,
    NoteUpdate, MAX_IMPORT_BYTES, MAX_NOTE_BYTES,
};
pub use storage::{
    check_new_password, check_password_confirmation, decode_notes_payload, encode_notes_payload,
    join_lines, notes_path_parts, split_lines_exec, Platform, SecretText, StorageConfig,
};
pub use tags::{collect_tags, TagCounts};
