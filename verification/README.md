# scriv

A local command-line note manager. Notes are kept as NDJSON in one file,
optionally encrypted under a password (AES-256-GCM with a PBKDF2-SHA256 key).

The library under `src/` is written in Verus and verified: every operation on
the notes (add, edit, append, tag, untag, remove, import, search, list, tag
counts), the validation rules, the framing and encryption of the notes file,
the parsing of ids and flags, the lines the commands print and the
formatting helpers carry contracts, and the
properties that relate operations (ids stay distinct, tagging is idempotent,
what is written reads back) are proved in `src/laws.rs` and beside the
functions they concern.

`app/` is the command-line program around the library: argument handling,
terminal and file I/O, JSON (de)serialization through serde, and the session
state.

Layout of `src/`:

- `text.rs`: case mapping, whitespace, trimming, decimal formatting and parsing
- `model.rs`: the note record and listing options
- `notes.rs`: the operations on a list of notes and their validation
- `listing.rs`: filtering, the three sort orders and the limit
- `tags.rs`: tag usage counts
- `format.rs`: match highlighting, relative ages, text piped on stdin
- `crypto.rs`: encryption of the notes file
- `storage.rs`: the notes file location, session password, line framing
- `cli.rs`: the command line's flags, ids, prompts and printed lines
- `laws.rs`: properties relating several operations
