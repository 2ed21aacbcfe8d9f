//! Encryption of the notes file at rest: AES-256-GCM under a key derived
//! from the password with PBKDF2-HMAC-SHA256. The encrypted form is the magic
//! header, the salt, the nonce and the ciphertext (with its tag), in order.

use vstd::prelude::*;
use vstd::utf8::encode_utf8;
use aes_gcm::aead::{Aead, KeyInit};
use aes_gcm::{Aes256Gcm, Nonce};
use rand::RngExt;

verus! {

/// File signature for encrypted note payloads (`b"scriv\x01"`).
pub const ENCRYPTED_MAGIC: &'static [u8; 6] = &[115u8, 99u8, 114u8, 105u8, 118u8, 1u8];

/// PBKDF2 iteration count.
pub const PBKDF2_ITERS: u32 = 100000;

/// Length of the derived key (AES-256).
pub const PBKDF2_KEY_LEN: usize = 32;

/// Length of the random salt.
pub const SALT_LEN: usize = 32;

/// Length of the random AES-GCM nonce.
pub const NONCE_LEN: usize = 12;

/// Length of the AES-GCM authentication tag.
pub const TAG_LEN: usize = 16;

/// Largest plaintext AES-GCM accepts (aes-gcm's `P_MAX`).
pub const AES_GCM_P_MAX: u64 = 68719476704;

/// The magic header as bytes.
pub open spec fn magic() -> Seq<u8> {
    seq![115u8, 99u8, 114u8, 105u8, 118u8, 1u8]
}

/// Whether data starts with the magic header.
pub open spec fn has_magic(d: Seq<u8>) -> bool {
    d.len() >= 6 && d.take(6) == magic()
}

/// The key that `pbkdf2::pbkdf2_hmac::<Sha256>` derives.
pub uninterp spec fn pbkdf2_sha256(password: Seq<u8>, salt: Seq<u8>, rounds: u32, len: usize) -> Seq<
    u8,
>;

/// The ciphertext (tag appended) that AES-256-GCM produces.
pub uninterp spec fn aes256gcm_seal(key: Seq<u8>, nonce: Seq<u8>, plaintext: Seq<u8>) -> Seq<u8>;

/// What AES-256-GCM decryption yields: the plaintext, or nothing when the
/// tag does not verify.
pub uninterp spec fn aes256gcm_open(key: Seq<u8>, nonce: Seq<u8>, ciphertext: Seq<u8>) -> Option<
    Seq<u8>,
>;

/// Calls `pbkdf2::pbkdf2_hmac::<sha2::Sha256>` into a buffer of `key_len`
/// zero bytes. Claimed: the key is `pbkdf2_sha256` of the arguments and has
/// `key_len` bytes (the call fills the buffer and never fails).
#[verifier::external_body]
fn derive_key(password: &[u8], salt: &[u8], rounds: u32, key_len: usize) -> (key: Vec<u8>)
    ensures
        key@ == pbkdf2_sha256(password@, salt@, rounds, key_len),
        key@.len() == key_len,
{
    let mut key = vec![0u8; key_len];
    pbkdf2::pbkdf2_hmac::<sha2::Sha256>(password, salt, rounds, &mut key);
    key
}

/// Calls `Aes256Gcm::new_from_slice` and `Aead::encrypt` (no associated
/// data). Claimed, as aes-gcm's source shows: the key of 32 bytes is accepted;
/// encryption succeeds exactly when the plaintext is at most `P_MAX` bytes,
/// and then yields `aes256gcm_seal` of the arguments, 16 bytes longer than the
/// plaintext, which decryption under the same key and nonce turns back into the
/// plaintext; the error, otherwise, is `aead::Error`, whose text is
/// `"aead::Error"`.
#[verifier::external_body]
fn seal(key: &[u8], nonce: &[u8], plaintext: &[u8]) -> (r: Result<Vec<u8>, String>)
    requires
        key@.len() == 32,
        nonce@.len() == 12,
    ensures
        plaintext@.len() <= AES_GCM_P_MAX <==> r is Ok,
        r matches Err(m) ==> m@ == "aead::Error"@,
        r matches Ok(c) ==> c@ == aes256gcm_seal(key@, nonce@, plaintext@) && c@.len()
            == plaintext@.len() + 16 && aes256gcm_open(key@, nonce@, c@) == Some(plaintext@),
{
    let cipher = Aes256Gcm::new_from_slice(key).map_err(|e| e.to_string())?;
    #[allow(deprecated)]
    let n = Nonce::from_slice(nonce);
    cipher.encrypt(n, plaintext).map_err(|e| e.to_string())
}

/// Calls `Aes256Gcm::new_from_slice` and `Aead::decrypt` (no associated
/// data). Claimed: the result is `aes256gcm_open` of the arguments.
#[verifier::external_body]
fn open(key: &[u8], nonce: &[u8], ciphertext: &[u8]) -> (r: Option<Vec<u8>>)
    requires
        key@.len() == 32,
        nonce@.len() == 12,
    ensures
        match r {
            Some(p) => aes256gcm_open(key@, nonce@, ciphertext@) == Some(p@),
            None => aes256gcm_open(key@, nonce@, ciphertext@) is None,
        },
{
    let cipher = Aes256Gcm::new_from_slice(key).ok()?;
    #[allow(deprecated)]
    let n = Nonce::from_slice(nonce);
    cipher.decrypt(n, ciphertext).ok()
}

/// Fills `len` bytes from rand's thread-local generator (`rand::rng` and
/// `RngExt::fill`). Claimed: only the length; the bytes are random.
#[verifier::external_body]
fn random_bytes(len: usize) -> (r: Vec<u8>)
    ensures
        r@.len() == len,
{
    let mut b = vec![0u8; len];
    rand::rng().fill(b.as_mut_slice());
    b
}

/// The key derived from a password and salt.
pub open spec fn password_key(password: Seq<char>, salt: Seq<u8>) -> Seq<u8> {
    pbkdf2_sha256(encode_utf8(password), salt, PBKDF2_ITERS, PBKDF2_KEY_LEN)
}

/// `d` is an encrypted payload of `plaintext` under `password`: magic, a
/// salt, a nonce and a ciphertext that decrypts to the plaintext.
pub open spec fn encrypts_to(d: Seq<u8>, password: Seq<char>, plaintext: Seq<u8>) -> bool {
    exists|salt: Seq<u8>, nonce: Seq<u8>, c: Seq<u8>|
        salt.len() == SALT_LEN && nonce.len() == NONCE_LEN && c.len() == plaintext.len() + TAG_LEN
            && d == magic() + salt + nonce + c && c == aes256gcm_seal(
            password_key(password, salt),
            nonce,
            plaintext,
        ) && aes256gcm_open(password_key(password, salt), nonce, c) == Some(plaintext)
}

/// What `decrypt_notes` returns for `d` and `password`.
pub open spec fn decrypt_spec(d: Seq<u8>, password: Seq<char>) -> Result<Seq<u8>, Seq<char>> {
    if d.len() < 6 + SALT_LEN + NONCE_LEN + TAG_LEN || d.take(6) != magic() {
        Err("notes file is corrupted"@)
    } else {
        let salt = d.subrange(6, 6 + SALT_LEN);
        let nonce = d.subrange(6 + SALT_LEN, 6 + SALT_LEN + NONCE_LEN);
        let c = d.skip(6 + SALT_LEN + NONCE_LEN);
        match aes256gcm_open(password_key(password, salt), nonce, c) {
            Some(p) => Ok(p),
            None => Err("incorrect password"@),
        }
    }
}

/// Whether `r` is the result `e`.
pub open spec fn bytes_result_is(r: Result<Vec<u8>, String>, e: Result<Seq<u8>, Seq<char>>) -> bool {
    match e {
        Ok(p) => r matches Ok(v) && v@ == p,
        Err(m) => r matches Err(x) && x@ == m,
    }
}

fn magic_bytes() -> (r: Vec<u8>)
    ensures
        r@ == magic(),
{
    let mut r: Vec<u8> = Vec::new();
    r.push(115u8);
    r.push(99u8);
    r.push(114u8);
    r.push(105u8);
    r.push(118u8);
    r.push(1u8);
    assert(r@ =~= magic());
    r
}

/// Quick header check used to detect encrypted files.
pub fn is_encrypted_data(data: &[u8]) -> (r: bool)
    ensures
        r == has_magic(data@),
{
    if data.len() < 6 {
        return false;
    }
    let m = magic_bytes();
    let mut i: usize = 0;
    while i < 6
        invariant
            data@.len() >= 6,
            m@ == magic(),
            i <= 6,
            forall|k: int| 0 <= k < i ==> data@[k] == magic()[k],
        decreases 6 - i,
    {
        if data[i] != m[i] {
            assert(data@.take(6)[i as int] != magic()[i as int]);
            return false;
        }
        i = i + 1;
    }
    assert(data@.take(6) =~= magic());
    true
}

/// The encrypted form laid out: the magic header, the salt, the nonce and the
/// ciphertext, in order.
pub fn frame_encrypted(salt: &[u8], nonce: &[u8], ciphertext: &[u8]) -> (r: Vec<u8>)
    ensures
        r@ == magic() + salt@ + nonce@ + ciphertext@,
{
    let mut out = magic_bytes();
    let mut s = copy_range(salt, 0, salt.len());
    let mut n = copy_range(nonce, 0, nonce.len());
    let mut c = copy_range(ciphertext, 0, ciphertext.len());
    assert(salt@.subrange(0, salt@.len() as int) == salt@);
    assert(nonce@.subrange(0, nonce@.len() as int) == nonce@);
    assert(ciphertext@.subrange(0, ciphertext@.len() as int) == ciphertext@);
    out.append(&mut s);
    out.append(&mut n);
    out.append(&mut c);
    out
}

/// Encrypts NDJSON note bytes with AES-256-GCM under a key derived from the
/// password with PBKDF2 over a fresh random salt, with a fresh random nonce.
pub fn encrypt_notes(plaintext: &[u8], password: &str) -> (r: Result<Vec<u8>, String>)
    ensures
        plaintext@.len() <= AES_GCM_P_MAX <==> r is Ok,
        r matches Ok(d) ==> encrypts_to(d@, password@, plaintext@),
        r matches Err(m) ==> m@ == "aead::Error"@,
{
    let salt = random_bytes(SALT_LEN);
    let key = derive_key(password.as_bytes(), salt.as_slice(), PBKDF2_ITERS, PBKDF2_KEY_LEN);
    let nonce = random_bytes(NONCE_LEN);
    let ciphertext = match seal(key.as_slice(), nonce.as_slice(), plaintext) {
        Ok(c) => c,
        Err(e) => {
            return Err(e);
        },
    };
    let out = frame_encrypted(salt.as_slice(), nonce.as_slice(), ciphertext.as_slice());
    assert(key@ == password_key(password@, salt@));
    assert(salt@.len() == SALT_LEN && nonce@.len() == NONCE_LEN && ciphertext@.len()
        == plaintext@.len() + TAG_LEN && out@ == magic() + salt@ + nonce@ + ciphertext@
        && ciphertext@ == aes256gcm_seal(password_key(password@, salt@), nonce@, plaintext@)
        && aes256gcm_open(password_key(password@, salt@), nonce@, ciphertext@) == Some(
        plaintext@,
    ));
    assert(encrypts_to(out@, password@, plaintext@));
    Ok(out)
}

fn copy_range(data: &[u8], from: usize, to: usize) -> (r: Vec<u8>)
    requires
        from <= to <= data@.len(),
    ensures
        r@ == data@.subrange(from as int, to as int),
{
    let mut r: Vec<u8> = Vec::new();
    let mut k = from;
    while k < to
        invariant
            from <= k <= to <= data@.len(),
            r@ == data@.subrange(from as int, k as int),
        decreases to - k,
    {
        r.push(data[k]);
        k = k + 1;
        assert(r@ =~= data@.subrange(from as int, k as int));
    }
    r
}

/// The salt, nonce and ciphertext of an encrypted form, or `None` when the
/// bytes are too short or lack the magic header.
pub fn split_encrypted(data: &[u8]) -> (r: Option<(Vec<u8>, Vec<u8>, Vec<u8>)>)
    ensures
        match r {
            None => data@.len() < 6 + SALT_LEN + NONCE_LEN + TAG_LEN || data@.take(6) != magic(),
            Some((salt, nonce, c)) => data@.len() >= 6 + SALT_LEN + NONCE_LEN + TAG_LEN && data@.take(6)
                == magic() && salt@ == data@.subrange(6, 6 + SALT_LEN as int) && nonce@ == data@.subrange(
                6 + SALT_LEN as int,
                6 + SALT_LEN + NONCE_LEN as int,
            ) && c@ == data@.skip(6 + SALT_LEN + NONCE_LEN as int),
        },
{
    let min_len = 6 + SALT_LEN + NONCE_LEN + TAG_LEN;
    if data.len() < min_len || !is_encrypted_data(data) {
        return None;
    }
    let salt = copy_range(data, 6, 6 + SALT_LEN);
    let nonce = copy_range(data, 6 + SALT_LEN, 6 + SALT_LEN + NONCE_LEN);
    let ciphertext = copy_range(data, 6 + SALT_LEN + NONCE_LEN, data.len());
    assert(ciphertext@ == data@.skip(6 + SALT_LEN + NONCE_LEN));
    Some((salt, nonce, ciphertext))
}

/// Decrypts note bytes produced by `encrypt_notes`.
pub fn decrypt_notes(data: &[u8], password: &str) -> (r: Result<Vec<u8>, String>)
    ensures
        bytes_result_is(r, decrypt_spec(data@, password@)),
{
    let (salt, nonce, ciphertext) = match split_encrypted(data) {
        Some(parts) => parts,
        None => {
            return Err("notes file is corrupted".to_owned());
        },
    };
    let key = derive_key(password.as_bytes(), salt.as_slice(), PBKDF2_ITERS, PBKDF2_KEY_LEN);
    match open(key.as_slice(), nonce.as_slice(), ciphertext.as_slice()) {
        Some(p) => Ok(p),
        None => Err("incorrect password".to_owned()),
    }
}

/// Law: what `encrypt_notes` produces carries the magic header, and decrypting
/// it with the same password gives back the plaintext.
pub proof fn lemma_encrypt_decrypt_roundtrip(d: Seq<u8>, password: Seq<char>, plaintext: Seq<u8>)
    requires
        encrypts_to(d, password, plaintext),
    ensures
        has_magic(d),
        decrypt_spec(d, password) == Ok::<Seq<u8>, Seq<char>>(plaintext),
{
    let (salt, nonce, c) = choose|salt: Seq<u8>, nonce: Seq<u8>, c: Seq<u8>|
        salt.len() == SALT_LEN && nonce.len() == NONCE_LEN && c.len() == plaintext.len() + TAG_LEN
            && d == magic() + salt + nonce + c && c == aes256gcm_seal(
            password_key(password, salt),
            nonce,
            plaintext,
        ) && aes256gcm_open(password_key(password, salt), nonce, c) == Some(plaintext);
    assert(d.take(6) =~= magic());
    assert(d.subrange(6, 6 + SALT_LEN) =~= salt);
    assert(d.subrange(6 + SALT_LEN, 6 + SALT_LEN + NONCE_LEN) =~= nonce);
    assert(d.skip(6 + SALT_LEN + NONCE_LEN) =~= c);
}

} // verus!
