//! The notes file: where it lives, the password that protects it, and how
//! note lines are framed into its bytes and recovered from them.

use vstd::prelude::*;
use crate::crypto::{
    bytes_result_is, decrypt_notes, decrypt_spec, encrypt_notes, encrypts_to, has_magic,
    is_encrypted_data, lemma_encrypt_decrypt_roundtrip, AES_GCM_P_MAX,
};
use crate::text::{chars_of, string_from_chars};

verus! {

#[verifier::external_type_specification]
#[verifier::external_body]
pub struct ExPathBuf(std::path::PathBuf);

/// A password held in a `zeroize::Zeroizing<String>`, so that its memory is
/// wiped when it is dropped. Its text is read only through the methods below.
#[verifier::external_body]
pub struct SecretText {
    inner: zeroize::Zeroizing<String>,
}

/// The text held in a `SecretText`.
pub uninterp spec fn secret_text(s: SecretText) -> Seq<char>;

impl SecretText {
    /// Calls `Zeroizing::new`. Claimed: the wrapper holds the given text.
    #[verifier::external_body]
    pub fn new(s: String) -> (z: SecretText)
        ensures
            secret_text(z) == s@,
    {
        SecretText { inner: zeroize::Zeroizing::new(s) }
    }

    /// Calls `Zeroizing::clone`. Claimed: the copy holds the same text.
    #[verifier::external_body]
    pub fn duplicate(&self) -> (r: SecretText)
        ensures
            secret_text(r) == secret_text(*self),
    {
        SecretText { inner: self.inner.clone() }
    }

    /// Borrows the text through `Zeroizing`'s `Deref` and `String::as_str`.
    /// Claimed: the borrowed text is the held text.
    #[verifier::external_body]
    pub fn as_str(&self) -> (s: &str)
        ensures
            s@ == secret_text(*self),
    {
        self.inner.as_str()
    }

    /// Copies the text out through `Zeroizing`'s `Deref` and `String::clone`.
    /// Claimed: the copy is the held text.
    #[verifier::external_body]
    pub fn to_plain(&self) -> (s: String)
        ensures
            s@ == secret_text(*self),
    {
        String::clone(&self.inner)
    }
}

/// The settings the store is used with: an optional override of the notes
/// file location, and the password of the session (wiped from memory when
/// dropped; empty means no encryption).
pub struct StorageConfig {
    notes_path_override: Option<std::path::PathBuf>,
    active_password: SecretText,
}

impl StorageConfig {
    /// The path override.
    pub closed spec fn spec_path_override(&self) -> Option<std::path::PathBuf> {
        self.notes_path_override
    }

    /// The password's text.
    pub closed spec fn spec_password(&self) -> Seq<char> {
        secret_text(self.active_password)
    }

    /// No override and no password.
    pub fn new() -> (c: Self)
        ensures
            c.spec_path_override() is None,
            c.spec_password().len() == 0,
    {
        StorageConfig { notes_path_override: None, active_password: SecretText::new(String::new()) }
    }

    /// Overrides the notes path (for tests and controlled environments).
    pub fn set_notes_path_override(&mut self, path: Option<std::path::PathBuf>)
        ensures
            final(self).spec_path_override() == path,
            final(self).spec_password() == old(self).spec_password(),
    {
        self.notes_path_override = path;
    }

    /// The path override, if any.
    pub fn notes_path_override(&self) -> (r: Option<&std::path::PathBuf>)
        ensures
            r == match self.spec_path_override() {
                Some(p) => Some(&p),
                None => None,
            },
    {
        match &self.notes_path_override {
            Some(p) => Some(p),
            None => None,
        }
    }

    /// Sets the password used to encrypt and decrypt the notes.
    pub fn set_active_password(&mut self, password: String)
        ensures
            final(self).spec_password() == password@,
            final(self).spec_path_override() == old(self).spec_path_override(),
    {
        self.active_password = SecretText::new(password);
    }

    /// A copy of the password that is wiped when dropped.
    pub fn active_password_zeroized(&self) -> (r: SecretText)
        ensures
            secret_text(r) == self.spec_password(),
    {
        self.active_password.duplicate()
    }

    /// A plain copy of the password.
    pub fn active_password(&self) -> (r: String)
        ensures
            r@ == self.spec_password(),
    {
        self.active_password.to_plain()
    }

    /// Whether a password is set.
    pub fn has_active_password(&self) -> (r: bool)
        ensures
            r == (self.spec_password().len() > 0),
    {
        let p = self.active_password.to_plain();
        !p.as_str().is_empty()
    }
}

/// Checks a new password: it may not be empty.
pub fn check_new_password(password: &str) -> (r: Result<(), String>)
    ensures
        password@.len() == 0 ==> (r matches Err(m) && m@ == "password cannot be empty"@),
        password@.len() > 0 ==> r is Ok,
{
    if password.is_empty() {
        return Err("password cannot be empty".to_owned());
    }
    Ok(())
}

/// Checks that the confirmation repeats the new password.
pub fn check_password_confirmation(password: &str, confirm: &str) -> (r: Result<(), String>)
    ensures
        password@ == confirm@ ==> r is Ok,
        password@ != confirm@ ==> (r matches Err(m) && m@ == "passwords do not match"@),
{
    if password.to_owned() == confirm.to_owned() {
        Ok(())
    } else {
        Err("passwords do not match".to_owned())
    }
}

/// The platform family that decides where the notes live.
#[derive(PartialEq, Eq, Structural, Clone, Copy, Debug)]
pub enum Platform {
    Windows,
    MacOs,
    /// Linux and other Unix-like systems.
    Other,
}

/// The path components of the notes file, joined in order by the caller:
/// the platform's data directory (from `%APPDATA%`, `$HOME` or
/// `$XDG_DATA_HOME`, each given as empty when unset), then `scriv/notes.json`.
pub open spec fn notes_path_parts_spec(
    platform: Platform,
    appdata: Seq<char>,
    home: Seq<char>,
    xdg_data_home: Seq<char>,
) -> Seq<Seq<char>> {
    let dir: Seq<Seq<char>> = match platform {
        Platform::Windows => if appdata.len() == 0 {
            seq!["."@]
        } else {
            seq![appdata]
        },
        Platform::MacOs => seq![home, "Library"@, "Application Support"@],
        Platform::Other => if xdg_data_home.len() > 0 {
            seq![xdg_data_home]
        } else {
            seq![home, ".local"@, "share"@]
        },
    };
    dir + seq!["scriv"@, "notes.json"@]
}

/// The path components of the notes file for this platform and environment.
pub fn notes_path_parts(platform: Platform, appdata: &str, home: &str, xdg_data_home: &str) -> (r: Vec<
    String,
>)
    ensures
        r.deep_view() == notes_path_parts_spec(platform, appdata@, home@, xdg_data_home@),
{
    let mut parts: Vec<String> = Vec::new();
    match platform {
        Platform::Windows => {
            if appdata.is_empty() {
                parts.push(".".to_owned());
            } else {
                parts.push(appdata.to_owned());
            }
        },
        Platform::MacOs => {
            parts.push(home.to_owned());
            parts.push("Library".to_owned());
            parts.push("Application Support".to_owned());
        },
        Platform::Other => {
            if !xdg_data_home.is_empty() {
                parts.push(xdg_data_home.to_owned());
            } else {
                parts.push(home.to_owned());
                parts.push(".local".to_owned());
                parts.push("share".to_owned());
            }
        },
    }
    parts.push("scriv".to_owned());
    parts.push("notes.json".to_owned());
    assert(parts.deep_view() =~= notes_path_parts_spec(platform, appdata@, home@, xdg_data_home@));
    parts
}

/// The bytes of the notes file for these NDJSON lines: each line followed by
/// a newline.
pub open spec fn ndjson(lines: Seq<Seq<u8>>) -> Seq<u8>
    decreases lines.len(),
{
    if lines.len() == 0 {
        Seq::empty()
    } else {
        ndjson(lines.drop_last()) + lines.last() + seq![10u8]
    }
}

/// Joins serialized note lines into NDJSON bytes.
pub fn join_lines(lines: &Vec<String>) -> (r: Vec<u8>)
    ensures
        r@ == ndjson(Seq::new(lines@.len(), |i: int| vstd::utf8::encode_utf8(lines@[i]@))),
{
    let ghost ls = Seq::new(lines@.len(), |i: int| vstd::utf8::encode_utf8(lines@[i]@));
    let mut out: Vec<u8> = Vec::new();
    let mut i: usize = 0;
    while i < lines.len()
        invariant
            i <= lines@.len(),
            ls == Seq::new(lines@.len(), |i: int| vstd::utf8::encode_utf8(lines@[i]@)),
            out@ == ndjson(ls.take(i as int)),
        decreases lines.len() - i,
    {
        proof {
            assert(ls.take(i + 1).drop_last() == ls.take(i as int));
            assert(ls.take(i + 1).last() == ls[i as int]);
        }
        let bytes = lines[i].as_str().as_bytes();
        let mut k: usize = 0;
        let ghost start = out@;
        while k < bytes.len()
            invariant
                k <= bytes@.len(),
                out@ == start + bytes@.take(k as int),
            decreases bytes.len() - k,
        {
            out.push(bytes[k]);
            k = k + 1;
            assert(out@ =~= start + bytes@.take(k as int));
        }
        assert(bytes@.take(k as int) == bytes@);
        out.push(10u8);
        i = i + 1;
    }
    assert(ls.take(i as int) == ls);
    out
}

/// The position of the first newline byte, or -1.
pub open spec fn first_newline(d: Seq<u8>) -> int
    decreases d.len(),
{
    if d.len() == 0 {
        -1
    } else if d[0] == 10u8 {
        0
    } else {
        let k = first_newline(d.drop_first());
        if k == -1 {
            -1
        } else {
            k + 1
        }
    }
}

/// A line without the carriage return that preceded its newline.
pub open spec fn strip_cr(l: Seq<u8>) -> Seq<u8> {
    if l.len() > 0 && l.last() == 13u8 {
        l.drop_last()
    } else {
        l
    }
}

/// The lines of a byte buffer as `BufRead::lines` yields them: split at each
/// newline, with a carriage return before the newline removed; a last line
/// without a newline counts when it is not empty.
pub open spec fn split_lines(d: Seq<u8>) -> Seq<Seq<u8>>
    decreases d.len(),
{
    if d.len() == 0 {
        Seq::empty()
    } else {
        let k = first_newline(d);
        if k < 0 || k >= d.len() {
            seq![d]
        } else {
            seq![strip_cr(d.take(k))] + split_lines(d.skip(k + 1))
        }
    }
}

proof fn lemma_first_newline(d: Seq<u8>)
    ensures
        -1 <= first_newline(d) < d.len(),
        first_newline(d) >= 0 ==> d[first_newline(d)] == 10u8,
        forall|j: int| 0 <= j < first_newline(d) ==> d[j] != 10u8,
        first_newline(d) == -1 ==> forall|j: int| 0 <= j < d.len() ==> d[j] != 10u8,
    decreases d.len(),
{
    if d.len() > 0 && d[0] != 10u8 {
        lemma_first_newline(d.drop_first());
        assert forall|j: int| 0 < j < d.len() implies d[j] == d.drop_first()[j - 1] by {}
    }
}

proof fn lemma_first_newline_at(d: Seq<u8>, k: int)
    requires
        0 <= k < d.len(),
        d[k] == 10u8,
        forall|j: int| 0 <= j < k ==> d[j] != 10u8,
    ensures
        first_newline(d) == k,
{
    lemma_first_newline(d);
    let f = first_newline(d);
    if f == -1 {
    } else if f < k {
    } else if f > k {
    }
}

/// Splits the bytes of the notes file into lines.
pub fn split_lines_exec(data: &[u8]) -> (r: Vec<Vec<u8>>)
    ensures
        r.deep_view() == split_lines(data@),
{
    let mut out: Vec<Vec<u8>> = Vec::new();
    let mut start: usize = 0;
    let n = data.len();
    let mut cur: Vec<u8> = Vec::new();
    let mut i: usize = 0;
    assert(data@.skip(0) == data@);
    while i < n
        invariant
            n == data@.len(),
            start <= i <= n,
            cur@ == data@.subrange(start as int, i as int),
            forall|j: int| start <= j < i ==> data@[j] != 10u8,
            out.deep_view() + split_lines(data@.skip(start as int)) == split_lines(data@),
        decreases n - i,
    {
        if data[i] == 10u8 {
            let ghost rest = data@.skip(start as int);
            proof {
                lemma_first_newline_at(rest, i - start);
                assert(rest.take(i - start) == cur@);
                assert(rest.skip(i - start + 1) == data@.skip(i + 1));
            }
            let mut line = cur;
            let len = line.len();
            if len > 0 && line[len - 1] == 13u8 {
                line.pop();
            }
            assert(line@ == crate::storage::strip_cr(cur@)) by {
                if len > 0 && cur@.last() == 13u8 {
                    assert(line@ =~= cur@.drop_last());
                }
            }
            let ghost before = out.deep_view();
            assert(line.deep_view() =~= line@);
            out.push(line);
            proof {
                assert(out.deep_view() =~= before.push(strip_cr(cur@)));
                assert(split_lines(rest) == seq![strip_cr(cur@)] + split_lines(data@.skip(i + 1)));
                assert(before + split_lines(rest) =~= out.deep_view() + split_lines(data@.skip(i + 1)));
            }
            cur = Vec::new();
            start = i + 1;
        } else {
            cur.push(data[i]);
        }
        i = i + 1;
        assert(cur@ =~= data@.subrange(start as int, i as int));
    }
    let ghost rest = data@.skip(start as int);
    proof {
        assert(rest =~= cur@);
        lemma_first_newline(rest);
        if rest.len() > 0 {
            assert(first_newline(rest) == -1) by {
                if first_newline(rest) >= 0 {
                    assert(rest[first_newline(rest)] == data@[start + first_newline(rest)]);
                }
            }
        }
    }
    if cur.len() > 0 {
        let ghost before = out.deep_view();
        assert(cur.deep_view() =~= cur@);
        out.push(cur);
        assert(split_lines(rest) =~= seq![rest]);
        assert(out.deep_view() =~= before + split_lines(rest));
    } else {
        assert(out.deep_view() =~= out.deep_view() + split_lines(rest));
    }
    out
}

/// A line as written: no newline byte, and not ending in a carriage return.
pub open spec fn plain_line(l: Seq<u8>) -> bool {
    (forall|j: int| 0 <= j < l.len() ==> l[j] != 10u8) && !(l.len() > 0 && l.last() == 13u8)
}

/// Law: splitting NDJSON bytes gives back the lines that were joined, when
/// each line is a plain line (serialized JSON always is).
pub proof fn lemma_split_join_roundtrip(lines: Seq<Seq<u8>>)
    requires
        forall|i: int| 0 <= i < lines.len() ==> plain_line(#[trigger] lines[i]),
    ensures
        split_lines(ndjson(lines)) == lines,
    decreases lines.len(),
{
    if lines.len() > 0 {
        let first = lines[0];
        let rest = lines.drop_first();
        lemma_ndjson_prepend(first, rest);
        assert(lines =~= seq![first] + rest);
        let d = ndjson(lines);
        assert(d == first + seq![10u8] + ndjson(rest));
        lemma_first_newline_at(d, first.len() as int);
        assert(d.take(first.len() as int) =~= first);
        assert(d.skip(first.len() as int + 1) =~= ndjson(rest));
        assert forall|i: int| 0 <= i < rest.len() implies plain_line(#[trigger] rest[i]) by {
            assert(rest[i] == lines[i + 1]);
        }
        lemma_split_join_roundtrip(rest);
        assert(lines =~= seq![first] + rest);
    }
}

proof fn lemma_ndjson_prepend(first: Seq<u8>, rest: Seq<Seq<u8>>)
    ensures
        ndjson(seq![first] + rest) == first + seq![10u8] + ndjson(rest),
    decreases rest.len(),
{
    if rest.len() == 0 {
        assert(seq![first] + rest =~= seq![first]);
        assert(seq![first].drop_last() =~= Seq::<Seq<u8>>::empty());
        assert(first + seq![10u8] + ndjson(rest) =~= ndjson(Seq::<Seq<u8>>::empty()) + first + seq![10u8]);
    } else {
        lemma_ndjson_prepend(first, rest.drop_last());
        assert((seq![first] + rest).drop_last() =~= seq![first] + rest.drop_last());
        assert((seq![first] + rest).last() == rest.last());
        assert(first + seq![10u8] + ndjson(rest) =~= first + seq![10u8] + ndjson(rest.drop_last())
            + rest.last() + seq![10u8]);
    }
}

/// What is written for NDJSON bytes: the bytes themselves without a
/// password, their encryption with one.
pub open spec fn encode_outcome(ndjson: Seq<u8>, password: Seq<char>, r: Result<Vec<u8>, String>) -> bool {
    if password.len() == 0 {
        r matches Ok(v) && v@ == ndjson
    } else if ndjson.len() > AES_GCM_P_MAX {
        r matches Err(m) && m@ == "cannot encrypt notes: aead::Error"@
    } else {
        r matches Ok(v) && encrypts_to(v@, password, ndjson)
    }
}

/// The bytes to write for NDJSON note lines under the session password.
pub fn encode_notes_payload(ndjson: Vec<u8>, password: &str) -> (r: Result<Vec<u8>, String>)
    ensures
        encode_outcome(ndjson@, password@, r),
{
    if password.is_empty() {
        return Ok(ndjson);
    }
    match encrypt_notes(ndjson.as_slice(), password) {
        Ok(v) => Ok(v),
        Err(e) => {
            let mut m = chars_of("cannot encrypt notes: ");
            let mut detail = chars_of(e.as_str());
            m.append(&mut detail);
            proof {
                reveal_strlit("cannot encrypt notes: ");
                reveal_strlit("aead::Error");
                reveal_strlit("cannot encrypt notes: aead::Error");
                assert(m@ =~= "cannot encrypt notes: aead::Error"@);
            }
            Err(string_from_chars(m.as_slice()))
        },
    }
}

/// What reading back file bytes gives: decryption when they carry the
/// magic header, the bytes themselves otherwise.
pub open spec fn decode_spec(data: Seq<u8>, password: Seq<char>) -> Result<Seq<u8>, Seq<char>> {
    if has_magic(data) {
        decrypt_spec(data, password)
    } else {
        Ok(data)
    }
}

/// The NDJSON bytes held in file bytes, decrypting them when encrypted.
pub fn decode_notes_payload(data: Vec<u8>, password: &str) -> (r: Result<Vec<u8>, String>)
    ensures
        bytes_result_is(r, decode_spec(data@, password@)),
{
    if is_encrypted_data(data.as_slice()) {
        decrypt_notes(data.as_slice(), password)
    } else {
        Ok(data)
    }
}

/// Law: what is written for NDJSON bytes reads back as the same bytes, with
/// the same password. Without a password this needs bytes that do not start
/// with the magic header (NDJSON notes start with `{`).
pub proof fn lemma_payload_roundtrip(ndjson: Seq<u8>, password: Seq<char>, r: Result<Vec<u8>, String>)
    requires
        encode_outcome(ndjson, password, r),
        r is Ok,
        password.len() == 0 ==> !has_magic(ndjson),
    ensures
        decode_spec(r->Ok_0@, password) == Ok::<Seq<u8>, Seq<char>>(ndjson),
{
    if password.len() > 0 {
        lemma_encrypt_decrypt_roundtrip(r->Ok_0@, password, ndjson);
    }
}

} // verus!

verus! {

/// Law: the lines written are the lines read back. Joining lines (no line
/// holds a newline byte or ends in a carriage return, as serialized JSON never
/// does), encoding the bytes under a password, then decoding them under the
/// same password and splitting them gives back the lines. Without a password
/// this needs bytes that do not start with the magic header (NDJSON notes start
/// with `{`).
pub proof fn lemma_lines_roundtrip(lines: Seq<Seq<u8>>, password: Seq<char>, r: Result<Vec<u8>, String>)
    requires
        forall|i: int| 0 <= i < lines.len() ==> plain_line(#[trigger] lines[i]),
        encode_outcome(ndjson(lines), password, r),
        r is Ok,
        password.len() == 0 ==> !has_magic(ndjson(lines)),
    ensures
        decode_spec(r->Ok_0@, password) == Ok::<Seq<u8>, Seq<char>>(ndjson(lines)),
        split_lines(ndjson(lines)) == lines,
{
    lemma_payload_roundtrip(ndjson(lines), password, r);
    lemma_split_join_roundtrip(lines);
}

} // verus!
