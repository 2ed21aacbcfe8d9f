//! Operations on a loaded list of notes. Each operation takes the notes as
//! they were read from the store and leaves them as they must be written back;
//! reading and writing the store is the caller's part.

use vstd::prelude::*;
use vstd::utf8::encode_utf8;
use crate::model::{Note, NoteView, clone_strings};
use crate::text::{
    blank, chars_of, contains, contains_chars, decimal, decimal_chars, is_blank, lowercase, parse_u64,
    parse_u64_spec, str_lower, trim, trim_chars,
    string_from_chars,
};

verus! {

/// Maximum allowed byte length for note text.
pub const MAX_NOTE_BYTES: usize = 1048576;

/// Maximum bytes accepted from an import stream.
pub const MAX_IMPORT_BYTES: u64 = 50 * 1024 * 1024;

/// Length of the UTF-8 encoding of a string.
pub open spec fn utf8_len(s: Seq<char>) -> nat {
    encode_utf8(s).len()
}

/// Why user-supplied note text is refused, if it is.
pub open spec fn text_error(t: Seq<char>) -> Option<Seq<char>> {
    if is_blank(t) {
        Some("note text cannot be empty"@)
    } else if utf8_len(t) > MAX_NOTE_BYTES {
        Some("note text exceeds 1 MB limit"@)
    } else {
        None
    }
}

/// Whether `RFC 3339` parsing of this timestamp succeeds (chrono's
/// `DateTime::parse_from_rfc3339`).
pub uninterp spec fn rfc3339_valid(s: Seq<char>) -> bool;

/// Calls chrono's `DateTime::parse_from_rfc3339` and reports whether it
/// succeeded. Claimed: the answer is `rfc3339_valid` of the characters.
#[verifier::external_body]
fn is_rfc3339(s: &str) -> (b: bool)
    ensures
        b == rfc3339_valid(s@),
{
    chrono::DateTime::parse_from_rfc3339(s).is_ok()
}

/// Why a whole note record is refused, if it is, given whether its creation
/// and update times parse as RFC 3339.
pub open spec fn note_error_with(n: NoteView, created_ok: bool, updated_ok: bool) -> Option<Seq<char>> {
    if text_error(n.text) is Some {
        text_error(n.text)
    } else if n.created_at.len() == 0 || !created_ok {
        Some("invalid created_at timestamp"@)
    } else if n.updated_at.len() > 0 && !updated_ok {
        Some("invalid updated_at timestamp"@)
    } else if exists|j: int| 0 <= j < n.tags.len() && is_blank(#[trigger] n.tags[j]) {
        Some("tag cannot be empty"@)
    } else {
        None
    }
}

/// Why a whole note record is refused, if it is: the same rules hold for
/// creation, editing and import.
pub open spec fn note_error(n: NoteView) -> Option<Seq<char>> {
    note_error_with(n, rfc3339_valid(n.created_at), rfc3339_valid(n.updated_at))
}

/// Whether a unit result reports exactly `e` (`None` for success).
pub open spec fn reports(r: Result<(), String>, e: Option<Seq<char>>) -> bool {
    match e {
        None => r is Ok,
        Some(m) => r matches Err(x) && x@ == m,
    }
}

/// Validates user-supplied note text: non-empty (ignoring surrounding
/// whitespace) and within the size limit.
pub fn validate_text(text: &str) -> (r: Result<(), String>)
    ensures
        reports(r, text_error(text@)),
{
    if blank(text) {
        return Err("note text cannot be empty".to_owned());
    }
    if text.as_bytes().len() > MAX_NOTE_BYTES {
        return Err("note text exceeds 1 MB limit".to_owned());
    }
    Ok(())
}

/// Validates a whole note record, given whether its creation and update
/// times parse as RFC 3339.
pub fn validate_note_with(note: &Note, created_ok: bool, updated_ok: bool) -> (r: Result<(), String>)
    ensures
        reports(r, note_error_with(note@, created_ok, updated_ok)),
{
    let t = validate_text(note.text.as_str());
    if t.is_err() {
        return t;
    }
    if note.created_at.as_str().is_empty() || !created_ok {
        return Err("invalid created_at timestamp".to_owned());
    }
    if !note.updated_at.as_str().is_empty() && !updated_ok {
        return Err("invalid updated_at timestamp".to_owned());
    }
    let mut j: usize = 0;
    while j < note.tags.len()
        invariant
            j <= note.tags@.len(),
            text_error(note@.text) is None,
            note@.created_at.len() > 0 && created_ok,
            !(note@.updated_at.len() > 0 && !updated_ok),
            forall|k: int| 0 <= k < j ==> !is_blank(#[trigger] note@.tags[k]),
        decreases note.tags.len() - j,
    {
        if blank(note.tags[j].as_str()) {
            assert(is_blank(note@.tags[j as int]));
            assert(note_error_with(note@, created_ok, updated_ok) == Some("tag cannot be empty"@));
            return Err("tag cannot be empty".to_owned());
        }
        j = j + 1;
    }
    Ok(())
}

/// Validates a whole note record.
pub fn validate_note(note: &Note) -> (r: Result<(), String>)
    ensures
        reports(r, note_error(note@)),
{
    let created_ok = is_rfc3339(note.created_at.as_str());
    let updated_ok = is_rfc3339(note.updated_at.as_str());
    validate_note_with(note, created_ok, updated_ok)
}

/// The largest id among the notes, 0 when there are none.
pub open spec fn max_id(s: Seq<NoteView>) -> u64
    decreases s.len(),
{
    if s.len() == 0 {
        0
    } else {
        let m = max_id(s.drop_last());
        if s.last().id > m {
            s.last().id
        } else {
            m
        }
    }
}

/// No two notes share an id.
pub open spec fn ids_distinct(s: Seq<NoteView>) -> bool {
    forall|i: int, j: int| 0 <= i < j < s.len() ==> #[trigger] s[i].id != #[trigger] s[j].id
}

/// Every id is at most `max_id`.
pub proof fn lemma_max_id_bounds(s: Seq<NoteView>)
    ensures
        forall|i: int| 0 <= i < s.len() ==> #[trigger] s[i].id <= max_id(s),
    decreases s.len(),
{
    if s.len() > 0 {
        lemma_max_id_bounds(s.drop_last());
        assert forall|i: int| 0 <= i < s.len() implies #[trigger] s[i].id <= max_id(s) by {
            if i < s.len() - 1 {
                assert(s[i] == s.drop_last()[i]);
            }
        }
    }
}

fn max_note_id(notes: &Vec<Note>) -> (m: u64)
    ensures
        m == max_id(notes.deep_view()),
{
    let ghost s = notes.deep_view();
    let mut m: u64 = 0;
    let mut i: usize = 0;
    while i < notes.len()
        invariant
            s == notes.deep_view(),
            i <= s.len(),
            m == max_id(s.take(i as int)),
        decreases notes.len() - i,
    {
        proof {
            assert(s.take(i + 1).drop_last() == s.take(i as int));
            assert(s.take(i + 1).last() == s[i as int]);
        }
        if notes[i].id > m {
            m = notes[i].id;
        }
        i = i + 1;
    }
    assert(s.take(i as int) == s);
    m
}

/// The id that follows `max`, unless the id space is exhausted.
fn next_id(max: u64) -> (r: Result<u64, String>)
    ensures
        max < u64::MAX ==> r == Ok::<u64, String>((max + 1) as u64),
        max == u64::MAX ==> (r matches Err(m) && m@ == "note id limit reached"@),
{
    match max.checked_add(1) {
        Some(v) => Ok(v),
        None => Err("note id limit reached".to_owned()),
    }
}

/// Index of the first note with this id, or -1.
pub open spec fn index_of_id(s: Seq<NoteView>, id: u64) -> int
    decreases s.len(),
{
    if s.len() == 0 {
        -1
    } else {
        let i = index_of_id(s.drop_last(), id);
        if i >= 0 {
            i
        } else if s.last().id == id {
            s.len() - 1
        } else {
            -1
        }
    }
}

/// `index_of_id` is the first position holding the id.
pub proof fn lemma_index_of_id(s: Seq<NoteView>, id: u64)
    ensures
        -1 <= index_of_id(s, id) < s.len(),
        index_of_id(s, id) == -1 <==> (forall|j: int| 0 <= j < s.len() ==> #[trigger] s[j].id != id),
        index_of_id(s, id) >= 0 ==> s[index_of_id(s, id)].id == id,
        forall|j: int| 0 <= j < index_of_id(s, id) ==> #[trigger] s[j].id != id,
    decreases s.len(),
{
    if s.len() > 0 {
        let d = s.drop_last();
        lemma_index_of_id(d, id);
        assert forall|j: int| 0 <= j < d.len() implies #[trigger] s[j] == d[j] by {}
        if index_of_id(d, id) == -1 && s.last().id != id {
            assert forall|j: int| 0 <= j < s.len() implies #[trigger] s[j].id != id by {
                if j < d.len() {
                    assert(s[j] == d[j]);
                }
            }
        }
    }
}

/// Position of the first note with this id.
fn find_note(notes: &Vec<Note>, id: u64) -> (r: Option<usize>)
    ensures
        match r {
            Some(i) => i as int == index_of_id(notes.deep_view(), id) && i < notes@.len(),
            None => index_of_id(notes.deep_view(), id) == -1,
        },
{
    let ghost s = notes.deep_view();
    proof {
        lemma_index_of_id(s, id);
    }
    let mut i: usize = 0;
    while i < notes.len()
        invariant
            s == notes.deep_view(),
            i <= s.len(),
            forall|j: int| 0 <= j < i ==> #[trigger] s[j].id != id,
        decreases notes.len() - i,
    {
        if notes[i].id == id {
            assert(s[i as int].id == id);
            proof {
                lemma_index_of_id(s, id);
            }
            return Some(i);
        }
        i = i + 1;
    }
    None
}

/// The standard message for a missing note id.
pub open spec fn not_found_message(id: u64) -> Seq<char> {
    "no note with id "@ + decimal(id as nat)
}

fn note_not_found(id: u64) -> (m: String)
    ensures
        m@ == not_found_message(id),
{
    let mut v = chars_of("no note with id ");
    let mut d = decimal_chars(id);
    v.append(&mut d);
    string_from_chars(v.as_slice())
}

/// Current UTC time in the form `%Y-%m-%dT%H:%M:%SZ`, from chrono's `Utc::now`
/// and `format`. Claimed: the text is not empty (the format has literal
/// characters). Its value depends on the clock and is not stated; nor is it
/// stated to be valid RFC 3339: chrono writes a year past 9999 with a sign and
/// five or more digits, which `parse_from_rfc3339` refuses.
#[verifier::external_body]
fn now_timestamp() -> (ts: String)
    ensures
        ts@.len() > 0,
{
    chrono::Utc::now().format("%Y-%m-%dT%H:%M:%SZ").to_string()
}

/// The note that `add_note` creates.
pub open spec fn new_note(s: Seq<NoteView>, text: Seq<char>, created_at: Seq<char>) -> NoteView {
    NoteView {
        id: (max_id(s) + 1) as u64,
        text: text,
        created_at: created_at,
        updated_at: Seq::empty(),
        tags: Seq::empty(),
    }
}

/// What adding `text` at time `created_at` does to the notes `old`.
pub open spec fn add_outcome(
    old: Seq<NoteView>,
    text: Seq<char>,
    created_at: Seq<char>,
    r: Result<Note, String>,
    new: Seq<NoteView>,
) -> bool {
    match text_error(text) {
        Some(e) => r matches Err(m) && m@ == e && new == old,
        None => if max_id(old) == u64::MAX {
            r matches Err(m) && m@ == "note id limit reached"@ && new == old
        } else {
            r matches Ok(n) && n@ == new_note(old, text, created_at) && new == old.push(n@)
        },
    }
}

/// Creates a note stamped `created_at` with id `max(existing id) + 1`.
pub fn add_note_at(notes: &mut Vec<Note>, text: &str, created_at: String) -> (r: Result<Note, String>)
    ensures
        add_outcome(old(notes).deep_view(), text@, created_at@, r, final(notes).deep_view()),
{
    let v = validate_text(text);
    if let Err(e) = v {
        return Err(e);
    }
    let max = max_note_id(notes);
    let id = match next_id(max) {
        Ok(id) => id,
        Err(e) => {
            return Err(e);
        },
    };
    let note = Note {
        id: id,
        text: text.to_owned(),
        created_at: created_at,
        updated_at: String::new(),
        tags: Vec::new(),
    };
    let out = note.clone();
    assert(out@.tags =~= Seq::<Seq<char>>::empty());
    assert(out@ == new_note(old(notes).deep_view(), text@, created_at@));
    notes.push(note);
    assert(notes.deep_view() =~= old(notes).deep_view().push(out@));
    Ok(out)
}

/// Creates a note stamped with the current time, with id `max(existing id) + 1`.
pub fn add_note(notes: &mut Vec<Note>, text: &str) -> (r: Result<Note, String>)
    ensures
        exists|ts: Seq<char>|
            ts.len() > 0 && add_outcome(
                old(notes).deep_view(),
                text@,
                ts,
                r,
                final(notes).deep_view(),
            ),
{
    let now = now_timestamp();
    let ghost ts = now@;
    let r = add_note_at(notes, text, now);
    assert(ts.len() > 0 && add_outcome(old(notes).deep_view(), text@, ts, r, notes.deep_view()));
    r
}

/// Removes the first note with this id.
pub fn remove_note(notes: &mut Vec<Note>, id: u64) -> (r: Result<Note, String>)
    ensures
        ({
            let old_s = old(notes).deep_view();
            let i = index_of_id(old_s, id);
            if i == -1 {
                r matches Err(m) && m@ == not_found_message(id) && final(notes).deep_view() == old_s
            } else {
                r matches Ok(n) && n@ == old_s[i] && final(notes).deep_view() == old_s.remove(i)
            }
        }),
{
    match find_note(notes, id) {
        Some(i) => {
            let n = notes.remove(i);
            assert(notes.deep_view() =~= old(notes).deep_view().remove(i as int));
            Ok(n)
        },
        None => Err(note_not_found(id)),
    }
}

/// Fetches one note by id.
pub fn get_note(notes: &Vec<Note>, id: u64) -> (r: Result<Note, String>)
    ensures
        ({
            let i = index_of_id(notes.deep_view(), id);
            if i == -1 {
                r matches Err(m) && m@ == not_found_message(id)
            } else {
                r matches Ok(n) && n@ == notes.deep_view()[i]
            }
        }),
{
    match find_note(notes, id) {
        Some(i) => Ok(notes[i].clone()),
        None => Err(note_not_found(id)),
    }
}

} // verus!

verus! {

/// A note after an operation that may change it, and whether it changed (and
/// so must be written back).
#[derive(Debug)]
pub struct NoteUpdate {
    pub note: Note,
    pub changed: bool,
}

/// `n` with new text, stamped `now`.
pub open spec fn with_text(n: NoteView, text: Seq<char>, now: Seq<char>) -> NoteView {
    NoteView { id: n.id, text: text, created_at: n.created_at, updated_at: now, tags: n.tags }
}

/// `n` with new tags, stamped `now`.
pub open spec fn with_tags(n: NoteView, tags: Seq<Seq<char>>, now: Seq<char>) -> NoteView {
    NoteView { id: n.id, text: n.text, created_at: n.created_at, updated_at: now, tags: tags }
}

/// What replacing a note's text with `text` at time `now` does.
pub open spec fn edit_outcome(
    old: Seq<NoteView>,
    id: u64,
    text: Seq<char>,
    now: Seq<char>,
    r: Result<NoteUpdate, String>,
    new: Seq<NoteView>,
) -> bool {
    let i = index_of_id(old, id);
    match text_error(text) {
        Some(e) => r matches Err(m) && m@ == e && new == old,
        None => if i == -1 {
            r matches Err(m) && m@ == not_found_message(id) && new == old
        } else {
            r matches Ok(u) && u.changed && u.note@ == with_text(old[i], text, now) && new
                == old.update(i, u.note@)
        },
    }
}

/// Replaces the text of note `id` and stamps it `now`.
pub fn edit_note_at(notes: &mut Vec<Note>, id: u64, text: &str, now: &str) -> (r: Result<
    NoteUpdate,
    String,
>)
    ensures
        edit_outcome(old(notes).deep_view(), id, text@, now@, r, final(notes).deep_view()),
{
    let v = validate_text(text);
    if let Err(e) = v {
        return Err(e);
    }
    match find_note(notes, id) {
        None => Err(note_not_found(id)),
        Some(i) => {
            let mut n = notes[i].clone();
            n.text = text.to_owned();
            n.updated_at = now.to_owned();
            let out = n.clone();
            notes.set(i, n);
            assert(notes.deep_view() =~= old(notes).deep_view().update(i as int, out@));
            Ok(NoteUpdate { note: out, changed: true })
        },
    }
}

/// Replaces the text of note `id` and stamps it with the current time.
pub fn edit_note(notes: &mut Vec<Note>, id: u64, text: &str) -> (r: Result<NoteUpdate, String>)
    ensures
        exists|ts: Seq<char>|
            ts.len() > 0 && edit_outcome(
                old(notes).deep_view(),
                id,
                text@,
                ts,
                r,
                final(notes).deep_view(),
            ),
{
    let now = now_timestamp();
    let r = edit_note_at(notes, id, text, now.as_str());
    assert(now@.len() > 0 && edit_outcome(
        old(notes).deep_view(),
        id,
        text@,
        now@,
        r,
        notes.deep_view(),
    ));
    r
}

/// The text of a note after appending `suffix`: separated by one space.
pub open spec fn appended_text(text: Seq<char>, suffix: Seq<char>) -> Seq<char> {
    text + seq![' '] + suffix
}

/// What appending `suffix` to note `id` at time `now` does.
pub open spec fn append_outcome(
    old: Seq<NoteView>,
    id: u64,
    suffix: Seq<char>,
    now: Seq<char>,
    r: Result<NoteUpdate, String>,
    new: Seq<NoteView>,
) -> bool {
    let i = index_of_id(old, id);
    if is_blank(suffix) {
        r matches Err(m) && m@ == "note text cannot be empty"@ && new == old
    } else if i == -1 {
        r matches Err(m) && m@ == not_found_message(id) && new == old
    } else if utf8_len(appended_text(old[i].text, suffix)) > MAX_NOTE_BYTES {
        r matches Err(m) && m@ == "note text exceeds 1 MB limit after append"@ && new == old
    } else {
        r matches Ok(u) && u.changed && u.note@ == with_text(
            old[i],
            appended_text(old[i].text, suffix),
            now,
        ) && new == old.update(i, u.note@)
    }
}

/// Appends text to a note, separated by a space, and stamps it `now`. Fails
/// if the combined text would exceed the size limit.
pub fn append_note_at(notes: &mut Vec<Note>, id: u64, text: &str, now: &str) -> (r: Result<
    NoteUpdate,
    String,
>)
    ensures
        append_outcome(old(notes).deep_view(), id, text@, now@, r, final(notes).deep_view()),
{
    if blank(text) {
        return Err("note text cannot be empty".to_owned());
    }
    match find_note(notes, id) {
        None => Err(note_not_found(id)),
        Some(i) => {
            let mut v = chars_of(notes[i].text.as_str());
            v.push(' ');
            let mut w = chars_of(text);
            v.append(&mut w);
            assert(v@ =~= appended_text(old(notes).deep_view()[i as int].text, text@));
            let combined = string_from_chars(v.as_slice());
            if combined.as_str().as_bytes().len() > MAX_NOTE_BYTES {
                return Err("note text exceeds 1 MB limit after append".to_owned());
            }
            let mut n = notes[i].clone();
            n.text = combined;
            n.updated_at = now.to_owned();
            let out = n.clone();
            notes.set(i, n);
            assert(notes.deep_view() =~= old(notes).deep_view().update(i as int, out@));
            Ok(NoteUpdate { note: out, changed: true })
        },
    }
}

/// Appends text to a note, separated by a space, and stamps it with the
/// current time.
pub fn append_note(notes: &mut Vec<Note>, id: u64, text: &str) -> (r: Result<NoteUpdate, String>)
    ensures
        exists|ts: Seq<char>|
            ts.len() > 0 && append_outcome(
                old(notes).deep_view(),
                id,
                text@,
                ts,
                r,
                final(notes).deep_view(),
            ),
{
    let now = now_timestamp();
    let r = append_note_at(notes, id, text, now.as_str());
    assert(now@.len() > 0 && append_outcome(
        old(notes).deep_view(),
        id,
        text@,
        now@,
        r,
        notes.deep_view(),
    ));
    r
}

} // verus!

verus! {

/// Whether two tags are equal ignoring case.
pub open spec fn tag_equiv(a: Seq<char>, b: Seq<char>) -> bool {
    str_lower(a) == str_lower(b)
}

/// Whether a tag equal to `t` ignoring case is already present.
pub open spec fn tag_present(tags: Seq<Seq<char>>, t: Seq<char>) -> bool {
    exists|j: int| 0 <= j < tags.len() && tag_equiv(#[trigger] tags[j], t)
}

/// A tag equal to `t` ignoring case is present exactly when the lowercased
/// form of `t` is among the lowercased tags.
pub proof fn lemma_tag_present_lowered(tags: Seq<Seq<char>>, t: Seq<char>)
    ensures
        tag_present(tags, t) <==> lowered_tags(tags).contains(str_lower(t)),
{
    let lt = lowered_tags(tags);
    if lt.contains(str_lower(t)) {
        let j = choose|j: int| 0 <= j < lt.len() && lt[j] == str_lower(t);
        assert(tag_equiv(tags[j], t));
    }
    if tag_present(tags, t) {
        let j = choose|j: int| 0 <= j < tags.len() && tag_equiv(#[trigger] tags[j], t);
        assert(lt[j] == str_lower(t));
    }
}

/// Whether `lower_tag` is among the lowercased tags `lower_tags` (as
/// `str::to_lowercase` gives them): the case-insensitive tag test.
pub fn lowered_contains(lower_tags: &Vec<String>, lower_tag: &str) -> (r: bool)
    ensures
        r == lower_tags.deep_view().contains(lower_tag@),
{
    let x = lower_tag.to_owned();
    contains_string(lower_tags, &x)
}

fn has_tag(tags: &Vec<String>, t: &str) -> (r: bool)
    ensures
        r == tag_present(tags.deep_view(), t@),
{
    let l = lower_all(tags.as_slice());
    let lt = lowercase(t);
    proof {
        lemma_tag_present_lowered(tags.deep_view(), t@);
    }
    lowered_contains(&l, lt.as_str())
}

/// The tags after adding `new` one by one, skipping any already present
/// (ignoring case), including those added earlier in the same call.
pub open spec fn add_tags(tags: Seq<Seq<char>>, new: Seq<Seq<char>>) -> Seq<Seq<char>>
    decreases new.len(),
{
    if new.len() == 0 {
        tags
    } else {
        let next = if tag_present(tags, new[0]) {
            tags
        } else {
            tags.push(new[0])
        };
        add_tags(next, new.drop_first())
    }
}

pub proof fn lemma_add_tags_grows(tags: Seq<Seq<char>>, new: Seq<Seq<char>>)
    ensures
        add_tags(tags, new).len() >= tags.len(),
        add_tags(tags, new).len() == tags.len() ==> add_tags(tags, new) == tags,
    decreases new.len(),
{
    if new.len() > 0 {
        let next = if tag_present(tags, new[0]) {
            tags
        } else {
            tags.push(new[0])
        };
        lemma_add_tags_grows(next, new.drop_first());
    }
}

/// The tags after adding `new` one by one, given the lowercased forms of
/// both (`ltags`, `lnew`): a tag is skipped when its lowercased form is among
/// those of the tags so far, including those added earlier in the same call.
pub open spec fn add_tags_with(
    tags: Seq<Seq<char>>,
    ltags: Seq<Seq<char>>,
    new: Seq<Seq<char>>,
    lnew: Seq<Seq<char>>,
) -> Seq<Seq<char>>
    decreases new.len(),
{
    if new.len() == 0 {
        tags
    } else if ltags.contains(lnew[0]) {
        add_tags_with(tags, ltags, new.drop_first(), lnew.drop_first())
    } else {
        add_tags_with(tags.push(new[0]), ltags.push(lnew[0]), new.drop_first(), lnew.drop_first())
    }
}

/// With the true lowercased forms, `add_tags_with` is `add_tags`.
pub proof fn lemma_add_tags_with(tags: Seq<Seq<char>>, new: Seq<Seq<char>>)
    ensures
        add_tags_with(tags, lowered_tags(tags), new, lowered_tags(new)) == add_tags(tags, new),
    decreases new.len(),
{
    if new.len() > 0 {
        let lt = lowered_tags(tags);
        let ln = lowered_tags(new);
        assert(ln[0] == str_lower(new[0]));
        assert(ln.drop_first() =~= lowered_tags(new.drop_first()));
        assert(lt.contains(ln[0]) <==> tag_present(tags, new[0])) by {
            if lt.contains(ln[0]) {
                let j = choose|j: int| 0 <= j < lt.len() && lt[j] == ln[0];
                assert(tag_equiv(tags[j], new[0]));
            }
            if tag_present(tags, new[0]) {
                let j = choose|j: int| 0 <= j < tags.len() && tag_equiv(#[trigger] tags[j], new[0]);
                assert(lt[j] == ln[0]);
            }
        }
        assert(lowered_tags(tags.push(new[0])) =~= lt.push(ln[0]));
        if lt.contains(ln[0]) {
            lemma_add_tags_with(tags, new.drop_first());
        } else {
            lemma_add_tags_with(tags.push(new[0]), new.drop_first());
        }
    }
}

fn contains_string(v: &Vec<String>, x: &String) -> (r: bool)
    ensures
        r == v.deep_view().contains(x@),
{
    let mut j: usize = 0;
    while j < v.len()
        invariant
            j <= v@.len(),
            forall|k: int| 0 <= k < j ==> v.deep_view()[k] != x@,
        decreases v.len() - j,
    {
        if v[j] == *x {
            assert(v.deep_view()[j as int] == x@);
            return true;
        }
        j = j + 1;
    }
    false
}

/// The tags after adding `new`, given the lowercased forms of the tags
/// (`lower_tags`) and of the new ones (`lower_new`), as `str::to_lowercase`
/// gives them.
pub fn merge_tags(tags: &Vec<String>, lower_tags: &Vec<String>, new: &[String], lower_new: &Vec<String>) -> (r:
    Vec<String>)
    requires
        lower_new@.len() == new@.len(),
    ensures
        r.deep_view() == add_tags_with(
            tags.deep_view(),
            lower_tags.deep_view(),
            new.deep_view(),
            lower_new.deep_view(),
        ),
{
    let ghost want = add_tags_with(
        tags.deep_view(),
        lower_tags.deep_view(),
        new.deep_view(),
        lower_new.deep_view(),
    );
    let mut cur = clone_strings(tags);
    let mut curl = clone_strings(lower_tags);
    let mut k: usize = 0;
    assert(new.deep_view().skip(0) == new.deep_view());
    assert(lower_new.deep_view().skip(0) == lower_new.deep_view());
    while k < new.len()
        invariant
            k <= new@.len(),
            lower_new@.len() == new@.len(),
            add_tags_with(
                cur.deep_view(),
                curl.deep_view(),
                new.deep_view().skip(k as int),
                lower_new.deep_view().skip(k as int),
            ) == want,
        decreases new.len() - k,
    {
        proof {
            let rest = new.deep_view().skip(k as int);
            let lrest = lower_new.deep_view().skip(k as int);
            assert(rest[0] == new[k as int]@);
            assert(lrest[0] == lower_new[k as int]@);
            assert(rest.drop_first() == new.deep_view().skip(k + 1));
            assert(lrest.drop_first() == lower_new.deep_view().skip(k + 1));
        }
        if !contains_string(&curl, &lower_new[k]) {
            let ghost b1 = cur.deep_view();
            let ghost b2 = curl.deep_view();
            cur.push(new[k].clone());
            curl.push(lower_new[k].clone());
            assert(cur.deep_view() =~= b1.push(new[k as int]@));
            assert(curl.deep_view() =~= b2.push(lower_new[k as int]@));
        }
        k = k + 1;
    }
    assert(new.deep_view().skip(k as int).len() == 0);
    cur
}

/// What tagging note `id` with `tags` at time `now` does.
pub open spec fn tag_outcome(
    old: Seq<NoteView>,
    id: u64,
    tags: Seq<Seq<char>>,
    now: Seq<char>,
    r: Result<NoteUpdate, String>,
    new: Seq<NoteView>,
) -> bool {
    let i = index_of_id(old, id);
    if exists|j: int| 0 <= j < tags.len() && is_blank(#[trigger] tags[j]) {
        r matches Err(m) && m@ == "tag cannot be empty"@ && new == old
    } else if i == -1 {
        r matches Err(m) && m@ == not_found_message(id) && new == old
    } else {
        let nt = add_tags(old[i].tags, tags);
        let changed = nt.len() > old[i].tags.len();
        r matches Ok(u) && u.changed == changed && if changed {
            u.note@ == with_tags(old[i], nt, now) && new == old.update(i, u.note@)
        } else {
            u.note@ == old[i] && new == old
        }
    }
}

/// Adds tags to a note, keeping existing tags and skipping any already
/// present ignoring case; stamps the note `now` when a tag was added. A blank
/// tag is refused, as `validate_note` refuses it on every entry path.
pub fn tag_note_at(notes: &mut Vec<Note>, id: u64, tags: &[String], now: &str) -> (r: Result<
    NoteUpdate,
    String,
>)
    ensures
        tag_outcome(old(notes).deep_view(), id, tags.deep_view(), now@, r, final(notes).deep_view()),
{
    let mut b: usize = 0;
    while b < tags.len()
        invariant
            b <= tags@.len(),
            forall|k: int| 0 <= k < b ==> !is_blank(#[trigger] tags.deep_view()[k]),
        decreases tags.len() - b,
    {
        if blank(tags[b].as_str()) {
            assert(is_blank(tags.deep_view()[b as int]));
            return Err("tag cannot be empty".to_owned());
        }
        b = b + 1;
    }
    match find_note(notes, id) {
        None => Err(note_not_found(id)),
        Some(i) => {
            let ghost orig = notes.deep_view()[i as int].tags;
            let cur0 = clone_strings(&notes[i].tags);
            let lower_cur = lower_all(cur0.as_slice());
            let lower_new = lower_all(tags);
            let cur = merge_tags(&cur0, &lower_cur, tags, &lower_new);
            proof {
                lemma_add_tags_with(orig, tags.deep_view());
                lemma_add_tags_grows(orig, tags.deep_view());
            }
            let changed = cur.len() > cur0.len();
            if changed {
                let mut n = notes[i].clone();
                n.tags = cur;
                n.updated_at = now.to_owned();
                let out = n.clone();
                notes.set(i, n);
                assert(notes.deep_view() =~= old(notes).deep_view().update(i as int, out@));
                Ok(NoteUpdate { note: out, changed: true })
            } else {
                Ok(NoteUpdate { note: notes[i].clone(), changed: false })
            }
        },
    }
}

/// Adds tags to a note; stamps it with the current time when a tag was added.
pub fn tag_note(notes: &mut Vec<Note>, id: u64, tags: &[String]) -> (r: Result<NoteUpdate, String>)
    ensures
        exists|ts: Seq<char>|
            ts.len() > 0 && tag_outcome(
                old(notes).deep_view(),
                id,
                tags.deep_view(),
                ts,
                r,
                final(notes).deep_view(),
            ),
{
    let now = now_timestamp();
    let r = tag_note_at(notes, id, tags, now.as_str());
    assert(now@.len() > 0 && tag_outcome(
        old(notes).deep_view(),
        id,
        tags.deep_view(),
        now@,
        r,
        notes.deep_view(),
    ));
    r
}

/// The tags that are not equal to `needle` once lowercased.
pub open spec fn without_tag(tags: Seq<Seq<char>>, needle: Seq<char>) -> Seq<Seq<char>>
    decreases tags.len(),
{
    if tags.len() == 0 {
        tags
    } else {
        let rest = without_tag(tags.drop_last(), needle);
        if str_lower(tags.last()) != needle {
            rest.push(tags.last())
        } else {
            rest
        }
    }
}

proof fn lemma_without_tag_len(tags: Seq<Seq<char>>, needle: Seq<char>)
    ensures
        without_tag(tags, needle).len() <= tags.len(),
        without_tag(tags, needle).len() == tags.len() ==> without_tag(tags, needle) == tags,
    decreases tags.len(),
{
    if tags.len() > 0 {
        lemma_without_tag_len(tags.drop_last(), needle);
        assert(tags.drop_last().push(tags.last()) == tags);
    }
}

/// The tags whose lowercased form (the matching entry of `ltags`) is not
/// `needle`, in order.
pub open spec fn without_with(tags: Seq<Seq<char>>, ltags: Seq<Seq<char>>, needle: Seq<char>) -> Seq<
    Seq<char>,
>
    decreases tags.len(),
{
    if tags.len() == 0 {
        tags
    } else {
        let rest = without_with(tags.drop_last(), ltags, needle);
        if ltags[tags.len() - 1] != needle {
            rest.push(tags.last())
        } else {
            rest
        }
    }
}

/// With the true lowercased forms, `without_with` is `without_tag`.
pub proof fn lemma_without_with(tags: Seq<Seq<char>>, ltags: Seq<Seq<char>>, needle: Seq<char>)
    requires
        ltags.len() >= tags.len(),
        forall|k: int| 0 <= k < tags.len() ==> #[trigger] ltags[k] == str_lower(tags[k]),
    ensures
        without_with(tags, ltags, needle) == without_tag(tags, needle),
    decreases tags.len(),
{
    if tags.len() > 0 {
        let d = tags.drop_last();
        assert forall|k: int| 0 <= k < d.len() implies #[trigger] ltags[k] == str_lower(d[k]) by {
            assert(d[k] == tags[k]);
        }
        lemma_without_with(d, ltags, needle);
        assert(ltags[tags.len() - 1] == str_lower(tags[tags.len() - 1]));
    }
}

/// The tags whose lowercased form is not `needle`, given the lowercased
/// forms `lower_tags` (as `str::to_lowercase` gives them).
pub fn drop_tag(tags: &Vec<String>, lower_tags: &Vec<String>, needle: &str) -> (r: Vec<String>)
    requires
        lower_tags@.len() == tags@.len(),
    ensures
        r.deep_view() == without_with(tags.deep_view(), lower_tags.deep_view(), needle@),
{
    let ghost tv = tags.deep_view();
    let ghost lv = lower_tags.deep_view();
    let nd = needle.to_owned();
    let mut kept: Vec<String> = Vec::new();
    let mut k: usize = 0;
    while k < tags.len()
        invariant
            tv == tags.deep_view(),
            lv == lower_tags.deep_view(),
            lv.len() == tv.len(),
            k <= tv.len(),
            nd@ == needle@,
            kept.deep_view() == without_with(tv.take(k as int), lv, needle@),
        decreases tags.len() - k,
    {
        proof {
            assert(tv.take(k + 1).drop_last() == tv.take(k as int));
            assert(tv.take(k + 1).last() == tv[k as int]);
        }
        assert(lower_tags[k as int]@ == lv[k as int]);
        if !(lower_tags[k] == nd) {
            let ghost before = kept.deep_view();
            kept.push(tags[k].clone());
            assert(kept.deep_view() =~= before.push(tv[k as int]));
        }
        k = k + 1;
    }
    assert(tv.take(k as int) == tv);
    kept
}

/// What removing tag `tag` from note `id` at time `now` does.
pub open spec fn untag_outcome(
    old: Seq<NoteView>,
    id: u64,
    tag: Seq<char>,
    now: Seq<char>,
    r: Result<NoteUpdate, String>,
    new: Seq<NoteView>,
) -> bool {
    let i = index_of_id(old, id);
    if i == -1 {
        r matches Err(m) && m@ == not_found_message(id) && new == old
    } else {
        let nt = without_tag(old[i].tags, str_lower(tag));
        let changed = nt.len() < old[i].tags.len();
        r matches Ok(u) && u.changed == changed && if changed {
            u.note@ == with_tags(old[i], nt, now) && new == old.update(i, u.note@)
        } else {
            u.note@ == old[i] && new == old
        }
    }
}

/// Removes every tag equal to `tag` ignoring case; no change if none is.
pub fn untag_note_at(notes: &mut Vec<Note>, id: u64, tag: &str, now: &str) -> (r: Result<
    NoteUpdate,
    String,
>)
    ensures
        untag_outcome(old(notes).deep_view(), id, tag@, now@, r, final(notes).deep_view()),
{
    let needle = lowercase(tag);
    match find_note(notes, id) {
        None => Err(note_not_found(id)),
        Some(i) => {
            let ghost orig = notes.deep_view()[i as int].tags;
            let cur = clone_strings(&notes[i].tags);
            let lower_cur = lower_all(cur.as_slice());
            let kept = drop_tag(&cur, &lower_cur, needle.as_str());
            let n_tags = cur.len();
            proof {
                lemma_without_with(orig, lower_cur.deep_view(), needle@);
                lemma_without_tag_len(orig, needle@);
            }
            if kept.len() < n_tags {
                let mut n = notes[i].clone();
                n.tags = kept;
                n.updated_at = now.to_owned();
                let out = n.clone();
                notes.set(i, n);
                assert(notes.deep_view() =~= old(notes).deep_view().update(i as int, out@));
                Ok(NoteUpdate { note: out, changed: true })
            } else {
                Ok(NoteUpdate { note: notes[i].clone(), changed: false })
            }
        },
    }
}

/// Removes a tag from a note; stamps it with the current time when one was
/// removed.
pub fn untag_note(notes: &mut Vec<Note>, id: u64, tag: &str) -> (r: Result<NoteUpdate, String>)
    ensures
        exists|ts: Seq<char>|
            ts.len() > 0 && untag_outcome(
                old(notes).deep_view(),
                id,
                tag@,
                ts,
                r,
                final(notes).deep_view(),
            ),
{
    let now = now_timestamp();
    let r = untag_note_at(notes, id, tag, now.as_str());
    assert(now@.len() > 0 && untag_outcome(old(notes).deep_view(), id, tag@, now@, r, notes.deep_view()));
    r
}

/// Whether a note matches the lowercased query `q`, given its lowercased text
/// `lt` and its lowercased tags `ltags`: the query occurs in one of them.
pub open spec fn hit_lowered(lt: Seq<char>, ltags: Seq<Seq<char>>, q: Seq<char>) -> bool {
    contains(lt, q) || exists|j: int| 0 <= j < ltags.len() && contains(#[trigger] ltags[j], q)
}

/// The notes of `s` that match the lowercased query `q`, in their order, given
/// for each note its lowercased text (`lt`) and lowercased tags (`ltags`).
pub open spec fn search_from(
    s: Seq<NoteView>,
    lt: Seq<Seq<char>>,
    ltags: Seq<Seq<Seq<char>>>,
    q: Seq<char>,
) -> Seq<NoteView>
    decreases s.len(),
{
    if s.len() == 0 {
        s
    } else {
        let rest = search_from(s.drop_last(), lt, ltags, q);
        if hit_lowered(lt[s.len() - 1], ltags[s.len() - 1], q) {
            rest.push(s.last())
        } else {
            rest
        }
    }
}

/// The lowercased tags of a note.
pub open spec fn lowered_tags(tags: Seq<Seq<char>>) -> Seq<Seq<char>> {
    tags.map_values(|t: Seq<char>| str_lower(t))
}

/// The notes whose text or one of whose tags contains the lowercased query
/// `q`, ignoring case.
pub open spec fn search_results(s: Seq<NoteView>, q: Seq<char>) -> Seq<NoteView> {
    search_from(
        s,
        Seq::new(s.len(), |i: int| str_lower(s[i].text)),
        Seq::new(s.len(), |i: int| lowered_tags(s[i].tags)),
        q,
    )
}

fn hit_lowered_exec(lt: &str, ltags: &Vec<String>, q: &Vec<char>) -> (r: bool)
    ensures
        r == hit_lowered(lt@, ltags.deep_view(), q@),
{
    if contains_chars(&chars_of(lt), q) {
        return true;
    }
    let mut j: usize = 0;
    while j < ltags.len()
        invariant
            j <= ltags@.len(),
            !contains(lt@, q@),
            forall|k: int| 0 <= k < j ==> !contains(#[trigger] ltags.deep_view()[k], q@),
        decreases ltags.len() - j,
    {
        if contains_chars(&chars_of(ltags[j].as_str()), q) {
            assert(contains(ltags.deep_view()[j as int], q@));
            return true;
        }
        j = j + 1;
    }
    false
}

/// The notes that match a lowercased query, given each note's lowercased text
/// and lowercased tags (as `str::to_lowercase` gives them).
pub fn search_lowered(
    notes: &Vec<Note>,
    lower_texts: &Vec<String>,
    lower_tags: &Vec<Vec<String>>,
    lower_query: &str,
) -> (r: Vec<Note>)
    requires
        lower_texts@.len() == notes@.len(),
        lower_tags@.len() == notes@.len(),
    ensures
        r.deep_view() == search_from(
            notes.deep_view(),
            lower_texts.deep_view(),
            lower_tags.deep_view(),
            lower_query@,
        ),
{
    let ghost s = notes.deep_view();
    let ghost lt = lower_texts.deep_view();
    let ghost ltg = lower_tags.deep_view();
    let q = chars_of(lower_query);
    let mut out: Vec<Note> = Vec::new();
    let mut i: usize = 0;
    while i < notes.len()
        invariant
            s == notes.deep_view(),
            lt == lower_texts.deep_view(),
            ltg == lower_tags.deep_view(),
            lt.len() == s.len(),
            ltg.len() == s.len(),
            i <= s.len(),
            q@ == lower_query@,
            out.deep_view() == search_from(s.take(i as int), lt, ltg, q@),
        decreases notes.len() - i,
    {
        proof {
            assert(s.take(i + 1).drop_last() == s.take(i as int));
            assert(s.take(i + 1).last() == s[i as int]);
        }
        assert(lower_tags[i as int].deep_view() == ltg[i as int]);
        if hit_lowered_exec(lower_texts[i].as_str(), &lower_tags[i], &q) {
            let ghost before = out.deep_view();
            out.push(notes[i].clone());
            assert(out.deep_view() =~= before.push(s[i as int]));
        }
        i = i + 1;
    }
    assert(s.take(i as int) == s);
    out
}

/// The lowercased forms of some strings.
fn lower_all(v: &[String]) -> (r: Vec<String>)
    ensures
        r.deep_view() == lowered_tags(v.deep_view()),
        r@.len() == v@.len(),
{
    let mut r: Vec<String> = Vec::new();
    let mut i: usize = 0;
    while i < v.len()
        invariant
            i <= v@.len(),
            r@.len() == i,
            forall|k: int| 0 <= k < i ==> #[trigger] r@[k]@ == str_lower(v@[k]@),
        decreases v.len() - i,
    {
        r.push(lowercase(v[i].as_str()));
        i = i + 1;
    }
    assert(r.deep_view() =~= lowered_tags(v.deep_view()));
    r
}

/// The notes whose text or one of whose tags contains `query`, ignoring case.
pub fn search_notes(notes: &Vec<Note>, query: &str) -> (r: Vec<Note>)
    ensures
        r.deep_view() == search_results(notes.deep_view(), str_lower(query@)),
{
    let ghost s = notes.deep_view();
    let mut texts: Vec<String> = Vec::new();
    let mut tags: Vec<Vec<String>> = Vec::new();
    let mut i: usize = 0;
    while i < notes.len()
        invariant
            s == notes.deep_view(),
            i <= s.len(),
            texts@.len() == i,
            tags@.len() == i,
            forall|k: int| 0 <= k < i ==> #[trigger] texts@[k]@ == str_lower(s[k].text),
            forall|k: int| 0 <= k < i ==> #[trigger] tags@[k].deep_view() == lowered_tags(s[k].tags),
        decreases notes.len() - i,
    {
        texts.push(lowercase(notes[i].text.as_str()));
        tags.push(lower_all(notes[i].tags.as_slice()));
        i = i + 1;
    }
    assert(texts.deep_view() =~= Seq::new(s.len(), |i: int| str_lower(s[i].text)));
    assert(tags.deep_view() =~= Seq::new(s.len(), |i: int| lowered_tags(s[i].tags)));
    let q = lowercase(query);
    search_lowered(notes, &texts, &tags, q.as_str())
}

} // verus!

verus! {

broadcast use vstd::std_specs::hash::group_hash_axioms;

/// The first validation error among records, in order.
pub open spec fn first_error(s: Seq<NoteView>) -> Option<Seq<char>>
    decreases s.len(),
{
    if s.len() == 0 {
        None
    } else {
        match first_error(s.drop_last()) {
            Some(e) => Some(e),
            None => note_error(s.last()),
        }
    }
}

/// The records with ids `base + 1`, `base + 2`, ... in order.
pub open spec fn renumbered(s: Seq<NoteView>, base: u64) -> Seq<NoteView> {
    Seq::new(
        s.len(),
        |i: int|
            NoteView {
                id: (base + i + 1) as u64,
                text: s[i].text,
                created_at: s[i].created_at,
                updated_at: s[i].updated_at,
                tags: s[i].tags,
            },
    )
}

/// What importing `incoming` into `old` does.
pub open spec fn import_outcome(
    old: Seq<NoteView>,
    incoming: Seq<NoteView>,
    r: Result<(), String>,
    new: Seq<NoteView>,
) -> bool {
    match first_error(incoming) {
        Some(e) => r matches Err(m) && m@ == e && new == old,
        None => if incoming.len() > 0 && max_id(old) + incoming.len() > u64::MAX {
            r matches Err(m) && m@ == "note id limit reached"@ && new == old
        } else {
            r is Ok && new == old + renumbered(incoming, max_id(old))
        },
    }
}

/// Validates every record, then appends them with fresh ids after the
/// largest existing id.
pub fn import_notes(notes: &mut Vec<Note>, incoming: Vec<Note>) -> (r: Result<(), String>)
    ensures
        import_outcome(old(notes).deep_view(), incoming.deep_view(), r, final(notes).deep_view()),
{
    let ghost inc = incoming.deep_view();
    let mut i: usize = 0;
    while i < incoming.len()
        invariant
            inc == incoming.deep_view(),
            i <= inc.len(),
            first_error(inc.take(i as int)) is None,
        decreases incoming.len() - i,
    {
        proof {
            assert(inc.take(i + 1).drop_last() == inc.take(i as int));
            assert(inc.take(i + 1).last() == inc[i as int]);
        }
        let v = validate_note(&incoming[i]);
        if let Err(e) = v {
            proof {
                lemma_first_error_prefix(inc, i + 1);
            }
            return Err(e);
        }
        i = i + 1;
    }
    assert(inc.take(i as int) == inc);
    let max = max_note_id(notes);
    let ghost s = notes.deep_view();
    let mut added: Vec<Note> = Vec::new();
    let mut m = max;
    let mut k: usize = 0;
    while k < incoming.len()
        invariant
            inc == incoming.deep_view(),
            first_error(inc) is None,
            s == notes.deep_view(),
            s == old(notes).deep_view(),
            max == max_id(s),
            k <= inc.len(),
            m as int == max + k,
            added.deep_view() == renumbered(inc, max).take(k as int),
        decreases incoming.len() - k,
    {
        m = match next_id(m) {
            Ok(v) => v,
            Err(e) => {
                return Err(e);
            },
        };
        let mut n = incoming[k].clone();
        n.id = m;
        assert(n@ == renumbered(inc, max)[k as int]);
        let ghost before = added.deep_view();
        let ghost nv = n@;
        added.push(n);
        assert(added.deep_view() =~= before.push(nv));
        assert(renumbered(inc, max).take(k + 1) =~= renumbered(inc, max).take(k as int).push(nv));
        k = k + 1;
    }
    assert(renumbered(inc, max).take(k as int) == renumbered(inc, max));
    notes.append(&mut added);
    assert(notes.deep_view() =~= s + renumbered(inc, max));
    Ok(())
}

/// Once a prefix has an error, the first error of the whole is that one.
proof fn lemma_first_error_prefix(s: Seq<NoteView>, k: int)
    requires
        0 <= k <= s.len(),
        first_error(s.take(k)) is Some,
    ensures
        first_error(s) == first_error(s.take(k)),
    decreases s.len() - k,
{
    if k < s.len() {
        assert(s.take(k + 1).drop_last() == s.take(k));
        lemma_first_error_prefix(s, k + 1);
    } else {
        assert(s.take(k) == s);
    }
}

/// The ids, in order, that no note carries.
pub open spec fn missing_ids(ids: Seq<u64>, s: Seq<NoteView>) -> Seq<u64>
    decreases ids.len(),
{
    if ids.len() == 0 {
        ids
    } else {
        let rest = missing_ids(ids.drop_last(), s);
        if index_of_id(s, ids.last()) == -1 {
            rest.push(ids.last())
        } else {
            rest
        }
    }
}

/// Decimal ids separated by `", "`.
pub open spec fn join_ids(ids: Seq<u64>) -> Seq<char>
    decreases ids.len(),
{
    if ids.len() == 0 {
        Seq::empty()
    } else if ids.len() == 1 {
        decimal(ids[0] as nat)
    } else {
        join_ids(ids.drop_last()) + ", "@ + decimal(ids.last() as nat)
    }
}

/// Splits notes into (kept, removed): going in order, a note is removed when
/// its id is still among `targets`, and its id then leaves `targets` (so each
/// requested id removes at most one note).
pub open spec fn split_removed(s: Seq<NoteView>, targets: Set<u64>) -> (Seq<NoteView>, Seq<NoteView>)
    decreases s.len(),
{
    if s.len() == 0 {
        (s, s)
    } else if targets.contains(s[0].id) {
        let (k, r) = split_removed(s.drop_first(), targets.remove(s[0].id));
        (k, seq![s[0]] + r)
    } else {
        let (k, r) = split_removed(s.drop_first(), targets);
        (seq![s[0]] + k, r)
    }
}

/// What removing the notes with ids `ids` does; without `force` the operation
/// is all-or-nothing.
pub open spec fn remove_many_outcome(
    old: Seq<NoteView>,
    ids: Seq<u64>,
    force: bool,
    r: Result<Vec<Note>, String>,
    new: Seq<NoteView>,
) -> bool {
    let missing = missing_ids(ids, old);
    if !force && missing.len() > 0 {
        r matches Err(m) && m@ == "no note with id "@ + join_ids(missing) + "; no notes were removed"@
            && new == old
    } else {
        let (kept, removed) = split_removed(old, ids.to_set());
        r matches Ok(v) && v.deep_view() == removed && new == kept
    }
}

fn join_id_chars(ids: &Vec<u64>) -> (r: Vec<char>)
    ensures
        r@ == join_ids(ids@),
{
    let mut out: Vec<char> = Vec::new();
    let mut i: usize = 0;
    while i < ids.len()
        invariant
            i <= ids@.len(),
            out@ == join_ids(ids@.take(i as int)),
        decreases ids.len() - i,
    {
        proof {
            assert(ids@.take(i + 1).drop_last() == ids@.take(i as int));
            assert(ids@.take(i + 1).last() == ids@[i as int]);
        }
        if i > 0 {
            let mut sep = chars_of(", ");
            out.append(&mut sep);
        } else {
            assert(ids@.take(1) == seq![ids@[0]]);
        }
        let mut d = decimal_chars(ids[i]);
        out.append(&mut d);
        i = i + 1;
    }
    assert(ids@.take(i as int) == ids@);
    out
}

proof fn lemma_split_step(s: Seq<NoteView>, i: int)
    requires
        0 <= i < s.len(),
    ensures
        s.skip(i).drop_first() == s.skip(i + 1),
        s.skip(i)[0] == s[i],
{
}

/// Removes the notes with the given ids. Without `force`, nothing is removed
/// when some id is missing; with `force`, missing ids are ignored.
pub fn remove_notes(notes: &mut Vec<Note>, ids: &[u64], force: bool) -> (r: Result<Vec<Note>, String>)
    ensures
        remove_many_outcome(old(notes).deep_view(), ids@, force, r, final(notes).deep_view()),
{
    let ghost s = notes.deep_view();
    let mut targets: std::collections::HashSet<u64> = std::collections::HashSet::new();
    let mut missing: Vec<u64> = Vec::new();
    let mut i: usize = 0;
    while i < ids.len()
        invariant
            s == notes.deep_view(),
            i <= ids@.len(),
            targets@ == ids@.take(i as int).to_set(),
            missing@ == missing_ids(ids@.take(i as int), s),
        decreases ids.len() - i,
    {
        proof {
            assert(ids@.take(i + 1).drop_last() == ids@.take(i as int));
            assert(ids@.take(i + 1).last() == ids@[i as int]);
            assert(ids@.take(i + 1).to_set() =~= ids@.take(i as int).to_set().insert(ids@[i as int]))
                by {
                assert(ids@.take(i + 1) == ids@.take(i as int).push(ids@[i as int]));
            }
        }
        let id = ids[i];
        targets.insert(id);
        if find_note(notes, id).is_none() {
            missing.push(id);
        }
        i = i + 1;
    }
    assert(ids@.take(i as int) == ids@);
    if !force && missing.len() > 0 {
        let mut msg = chars_of("no note with id ");
        let mut joined = join_id_chars(&missing);
        msg.append(&mut joined);
        let mut tail = chars_of("; no notes were removed");
        msg.append(&mut tail);
        return Err(string_from_chars(msg.as_slice()));
    }
    let ghost all = ids@.to_set();
    let mut kept: Vec<Note> = Vec::new();
    let mut removed: Vec<Note> = Vec::new();
    let mut j: usize = 0;
    assert(s.skip(0) == s);
    while j < notes.len()
        invariant
            s == notes.deep_view(),
            j <= s.len(),
            ({
                let (k2, r2) = split_removed(s.skip(j as int), targets@);
                let (k, rm) = split_removed(s, all);
                kept.deep_view() + k2 == k && removed.deep_view() + r2 == rm
            }),
        decreases notes.len() - j,
    {
        proof {
            lemma_split_step(s, j as int);
        }
        let ghost t0 = targets@;
        let ghost kb = kept.deep_view();
        let ghost rb = removed.deep_view();
        let id = notes[j].id;
        if targets.remove(&id) {
            removed.push(notes[j].clone());
            assert(removed.deep_view() =~= rb.push(s[j as int]));
            proof {
                assert(t0.contains(id));
                assert(targets@ == t0.remove(id));
                let (k2, r2) = split_removed(s.skip(j + 1), targets@);
                assert(split_removed(s.skip(j as int), t0) == (k2, seq![s[j as int]] + r2));
                assert(rb + (seq![s[j as int]] + r2) =~= removed.deep_view() + r2);
            }
        } else {
            kept.push(notes[j].clone());
            assert(kept.deep_view() =~= kb.push(s[j as int]));
            proof {
                assert(!t0.contains(id));
                assert(targets@ == t0);
                let (k2, r2) = split_removed(s.skip(j + 1), targets@);
                assert(split_removed(s.skip(j as int), t0) == (seq![s[j as int]] + k2, r2));
                assert(kb + (seq![s[j as int]] + k2) =~= kept.deep_view() + k2);
            }
        }
        j = j + 1;
    }
    proof {
        assert(s.skip(j as int).len() == 0);
        let (k2, r2) = split_removed(s.skip(j as int), targets@);
        assert(kept.deep_view() + k2 =~= kept.deep_view());
        assert(removed.deep_view() + r2 =~= removed.deep_view());
    }
    *notes = kept;
    Ok(removed)
}

/// The notes that replace everything in the store: none.
pub fn clear_notes() -> (r: Vec<Note>)
    ensures
        r@.len() == 0,
{
    Vec::new()
}

} // verus!

verus! {

/// Whether the note carries `tag`, ignoring case.
pub fn note_has_tag(n: &Note, tag: &str) -> (r: bool)
    ensures
        r == tag_present(n@.tags, tag@),
{
    has_tag(&n.tags, tag)
}

} // verus!

verus! {

/// What `parse_id` returns for the characters `s`: the number when it is a
/// positive decimal integer that fits in a `u64`.
pub open spec fn parse_id_spec(s: Seq<char>) -> Option<u64> {
    match parse_u64_spec(s) {
        Some(n) => if n > 0 {
            Some(n)
        } else {
            None
        },
        None => None,
    }
}

/// Parses a required positive note id. Rejects non-integers and `0`, which
/// is never an assigned id.
pub fn parse_id(s: &str) -> (r: Result<u64, String>)
    ensures
        match parse_id_spec(s@) {
            Some(n) => r == Ok::<u64, String>(n),
            None => r matches Err(m) && m@ == "id must be a positive integer"@,
        },
{
    match parse_u64(s) {
        Some(id) => if id == 0 {
            Err("id must be a positive integer".to_owned())
        } else {
            Ok(id)
        },
        None => Err("id must be a positive integer".to_owned()),
    }
}

/// Law: the decimal form of a positive id, as in messages and listings,
/// parses back to the same id.
pub proof fn lemma_parse_id_decimal(n: u64)
    requires
        n > 0,
    ensures
        parse_id_spec(decimal(n as nat)) == Some(n),
{
    crate::text::lemma_parse_decimal_roundtrip(n);
}

/// The text `line N: ` that prefixes an import error of the line at 0-based
/// index `idx`.
pub open spec fn line_prefix(idx: usize) -> Seq<char> {
    "line "@ + decimal((idx + 1) as nat) + ": "@
}

fn line_prefix_chars(idx: usize) -> (r: Vec<char>)
    requires
        idx < usize::MAX,
    ensures
        r@ == line_prefix(idx),
{
    let mut v = chars_of("line ");
    let mut d = decimal_chars((idx + 1) as u64);
    v.append(&mut d);
    let mut sep = chars_of(": ");
    v.append(&mut sep);
    v
}

/// Counts one more import line (`line_len` bytes plus its newline) against
/// the import size limit.
pub fn account_import_line(total: u64, line: &str) -> (r: Result<u64, String>)
    requires
        total <= MAX_IMPORT_BYTES,
    ensures
        total + utf8_len(line@) + 1 > MAX_IMPORT_BYTES ==> (r matches Err(m) && m@
            == "import input exceeds 50 MB limit"@),
        total + utf8_len(line@) + 1 <= MAX_IMPORT_BYTES ==> r == Ok::<u64, String>(
            (total + utf8_len(line@) + 1) as u64,
        ),
{
    let n = line.as_bytes().len();
    if n as u64 >= MAX_IMPORT_BYTES || total > MAX_IMPORT_BYTES - 1 - n as u64 {
        return Err("import input exceeds 50 MB limit".to_owned());
    }
    Ok(total + n as u64 + 1)
}

/// The characters of a line with surrounding whitespace removed.
pub fn trimmed(line: &str) -> (r: String)
    ensures
        r@ == trim(line@),
{
    let cs = chars_of(line);
    let t = trim_chars(cs.as_slice());
    string_from_chars(t.as_slice())
}

/// The error for an import line at index `idx` that is not valid JSON.
pub fn invalid_json_message(idx: usize, detail: &str) -> (r: String)
    requires
        idx < usize::MAX,
    ensures
        r@ == line_prefix(idx) + "invalid JSON: "@ + detail@,
{
    let mut v = line_prefix_chars(idx);
    let mut a = chars_of("invalid JSON: ");
    v.append(&mut a);
    let mut d = chars_of(detail);
    v.append(&mut d);
    string_from_chars(v.as_slice())
}

/// Validates an imported record, prefixing an error with its line number.
pub fn check_import_record(idx: usize, note: &Note) -> (r: Result<(), String>)
    requires
        idx < usize::MAX,
    ensures
        match note_error(note@) {
            None => r is Ok,
            Some(e) => r matches Err(m) && m@ == line_prefix(idx) + e,
        },
{
    match validate_note(note) {
        Ok(()) => Ok(()),
        Err(e) => {
            let mut v = line_prefix_chars(idx);
            let mut d = chars_of(e.as_str());
            v.append(&mut d);
            Err(string_from_chars(v.as_slice()))
        },
    }
}

/// The record checks of the `import` command, given whether the creation and
/// update times parse as RFC 3339: non-blank text and valid timestamps.
pub open spec fn cli_record_error_with(n: NoteView, created_ok: bool, updated_ok: bool) -> Option<
    Seq<char>,
> {
    if is_blank(n.text) {
        Some("note text cannot be empty"@)
    } else if n.created_at.len() == 0 || !created_ok {
        Some("invalid created_at timestamp"@)
    } else if n.updated_at.len() > 0 && !updated_ok {
        Some("invalid updated_at timestamp"@)
    } else {
        None
    }
}

/// The record checks of the `import` command: non-blank text and valid
/// timestamps, with the line number in the error.
pub open spec fn cli_record_error(n: NoteView) -> Option<Seq<char>> {
    cli_record_error_with(n, rfc3339_valid(n.created_at), rfc3339_valid(n.updated_at))
}

/// Checks a record read by the `import` command, given whether its creation
/// and update times parse as RFC 3339.
pub fn check_cli_import_record_with(idx: usize, note: &Note, created_ok: bool, updated_ok: bool) -> (r:
    Result<(), String>)
    requires
        idx < usize::MAX,
    ensures
        match cli_record_error_with(note@, created_ok, updated_ok) {
            None => r is Ok,
            Some(e) => r matches Err(m) && m@ == line_prefix(idx) + e,
        },
{
    let msg = if blank(note.text.as_str()) {
        "note text cannot be empty"
    } else if note.created_at.as_str().is_empty() || !created_ok {
        "invalid created_at timestamp"
    } else if !note.updated_at.as_str().is_empty() && !updated_ok {
        "invalid updated_at timestamp"
    } else {
        return Ok(());
    };
    let mut v = line_prefix_chars(idx);
    let mut d = chars_of(msg);
    v.append(&mut d);
    Err(string_from_chars(v.as_slice()))
}

/// Checks a record read by the `import` command.
pub fn check_cli_import_record(idx: usize, note: &Note) -> (r: Result<(), String>)
    requires
        idx < usize::MAX,
    ensures
        match cli_record_error(note@) {
            None => r is Ok,
            Some(e) => r matches Err(m) && m@ == line_prefix(idx) + e,
        },
{
    let created_ok = is_rfc3339(note.created_at.as_str());
    let updated_ok = is_rfc3339(note.updated_at.as_str());
    check_cli_import_record_with(idx, note, created_ok, updated_ok)
}

} // verus!
