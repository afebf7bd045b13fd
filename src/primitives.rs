//! Thin trusted bindings to the cryptographic and text crates the vault uses.
//! Each function here makes one outside call; its contract is what the crate
//! documents or its source plainly shows, and nothing more.
use aes_gcm_siv::aead::{Aead, KeyInit};
use aes_gcm_siv::{Aes256GcmSiv, Nonce};
use argon2::password_hash::{PasswordHash, PasswordHasher, PasswordVerifier, Salt, SaltString};
use rand::distributions::{Alphanumeric, DistString};
use unicode_truncate::UnicodeTruncateStr;
use vstd::prelude::*;
use vstd::utf8::{decode_utf8, encode_utf8, valid_utf8};

verus! {

/// ASCII letters and digits, the alphabet of `rand`'s `Alphanumeric` distribution.
pub open spec fn is_alphanumeric(c: char) -> bool {
    ('a' <= c && c <= 'z') || ('A' <= c && c <= 'Z') || ('0' <= c && c <= '9')
}

/// A character of the standard B64 alphabet (without padding).
pub open spec fn is_b64_char(c: char) -> bool {
    is_alphanumeric(c) || c == '+' || c == '/'
}

/// Every character is in the B64 alphabet.
pub open spec fn all_b64(s: Seq<char>) -> bool {
    forall|i: int| 0 <= i < s.len() ==> is_b64_char(#[trigger] s[i])
}

/// The unpadded B64 text of 16 bytes: 22 characters, the last of which carries
/// two data bits and four zero bits.
pub open spec fn is_salt16(s: Seq<char>) -> bool {
    &&& s.len() == 22
    &&& all_b64(s)
    &&& (s[21] == 'A' || s[21] == 'Q' || s[21] == 'g' || s[21] == 'w')
}

/// A PHC string ends in `$` followed by an `n`-character B64 digest.
pub open spec fn ends_in_digest(h: Seq<char>, n: nat) -> bool {
    &&& h.len() > n
    &&& h[h.len() - n - 1] == '$'
    &&& all_b64(h.subrange(h.len() - n, h.len() as int))
}

/// Longest plaintext AES-GCM-SIV seals, in bytes.
pub const AEAD_MAX_PLAIN: u64 = 0x10_0000_0000;

/// Length of the AES-GCM-SIV tag appended to a ciphertext, in bytes.
pub const AEAD_TAG_LEN: usize = 16;

/// What AES-256-GCM-SIV decryption yields for a key, a nonce and a ciphertext:
/// the authenticated plaintext, or nothing when the tag does not verify.
pub uninterp spec fn aead_open_of(key: Seq<u8>, nonce: Seq<u8>, sealed: Seq<u8>) -> Option<Seq<u8>>;

/// The PHC string that PBKDF2-SHA256 with a 32-byte output produces for a
/// password, a B64 salt and a round count.
pub uninterp spec fn pbkdf2_phc_of(password: Seq<char>, salt: Seq<char>, rounds: u32) -> Option<Seq<char>>;

/// The PHC string that Argon2 (default parameters) produces for a password and a B64 salt.
pub uninterp spec fn argon2_phc_of(password: Seq<char>, salt: Seq<char>) -> Option<Seq<char>>;

/// Whether Argon2 accepts a password against a stored PHC string.
pub uninterp spec fn argon2_accepts(password: Seq<char>, phc: Seq<char>) -> bool;

/// The lowercase hex text of the BLAKE3 digest of some bytes.
pub uninterp spec fn blake3_hex_of(data: Seq<u8>) -> Seq<char>;

/// The prefix of a string whose display width is at most `width`.
pub uninterp spec fn width_prefix_of(s: Seq<char>, width: nat) -> Seq<char>;

/// The `otpauth://` provisioning URL (issuer Xenon, account Anon) of a shared secret.
pub uninterp spec fn totp_url_of(secret: Seq<u8>) -> Seq<char>;

/// The six-digit SHA-1 one-time code of a shared secret for one 30-second time step.
pub uninterp spec fn totp_code_of(secret: Seq<u8>, step: int) -> Seq<char>;

/// Relies on `rand`'s `Alphanumeric::sample_string` over the thread-local CSPRNG:
/// `n` characters, each an ASCII letter or digit.
#[verifier::external_body]
pub(crate) fn random_alphanumeric(n: usize) -> (r: String)
    ensures
        r@.len() == n,
        forall|i: int| 0 <= i < r@.len() ==> is_alphanumeric(#[trigger] r@[i]),
{
    Alphanumeric.sample_string(&mut rand::thread_rng(), n)
}

/// Relies on `password_hash::SaltString::generate` over the OS random source:
/// 16 random bytes in unpadded B64.
#[verifier::external_body]
pub(crate) fn random_salt() -> (r: String)
    ensures
        is_salt16(r@),
{
    SaltString::generate(&mut rand_core::OsRng).to_string()
}

/// Relies on `Pbkdf2::hash_password_customized` (SHA-256, 32-byte output, the
/// given round count) after `Salt::from_b64`: the result depends on the
/// password, the salt and the round count alone, a 16-byte B64 salt is
/// accepted, and the PHC string ends in the 43-character B64 digest.
#[verifier::external_body]
pub(crate) fn pbkdf2_phc(password: &str, salt: &str, rounds: u32) -> (r: Option<String>)
    ensures
        r is None ==> pbkdf2_phc_of(password@, salt@, rounds) is None,
        r matches Some(h) ==> pbkdf2_phc_of(password@, salt@, rounds) == Some(h@),
        is_salt16(salt@) && rounds >= 1 ==> r is Some,
        r matches Some(h) ==> ends_in_digest(h@, 43),
{
    let salt = Salt::from_b64(salt).ok()?;
    let params = pbkdf2::Params { rounds, output_length: 32 };
    pbkdf2::Pbkdf2.hash_password_customized(password.as_bytes(), None, None, params, salt).ok().map(|h| h.to_string())
}

/// Relies on `Argon2::hash_password` (default parameters) after `Salt::from_b64`:
/// the result depends on the password and the salt alone, a 16-byte B64 salt
/// is accepted, and `verify_password` (which recomputes the hash with the
/// stored salt and parameters) accepts the password against the result.
#[verifier::external_body]
pub(crate) fn argon2_phc(password: &str, salt: &str) -> (r: Option<String>)
    ensures
        r is None ==> argon2_phc_of(password@, salt@) is None,
        r matches Some(h) ==> argon2_phc_of(password@, salt@) == Some(h@),
        is_salt16(salt@) ==> r is Some,
        r matches Some(h) ==> argon2_accepts(password@, h@),
{
    let salt = Salt::from_b64(salt).ok()?;
    argon2::Argon2::default().hash_password(password.as_bytes(), salt).ok().map(|h| h.to_string())
}

/// Relies on `Argon2::verify_password` after `PasswordHash::new`; a stored text
/// that does not parse is not accepted.
#[verifier::external_body]
pub(crate) fn argon2_verify(password: &str, phc: &str) -> (r: bool)
    ensures
        r == argon2_accepts(password@, phc@),
{
    match PasswordHash::new(phc) {
        Ok(parsed) => argon2::Argon2::default().verify_password(password.as_bytes(), &parsed).is_ok(),
        Err(_) => false,
    }
}

/// Relies on `UnicodeTruncateStr::unicode_truncate`: the longest prefix whose
/// display width is at most `width`; B64 characters are one grapheme of width
/// one each.
#[verifier::external_body]
pub(crate) fn truncate_width(s: &str, width: usize) -> (r: String)
    ensures
        r@ == width_prefix_of(s@, width as nat),
        all_b64(s@) && s@.len() >= width ==> r@ == s@.subrange(0, width as int),
        r@.len() <= s@.len(),
        r@ == s@.subrange(0, r@.len() as int),
{
    s.unicode_truncate(width).0.to_string()
}

/// Relies on `Aes256GcmSiv::encrypt`: sealing fails only above 2^36 bytes of
/// plaintext, appends a 16-byte tag, and what it seals opens again to the same
/// plaintext under the same key and nonce.
#[verifier::external_body]
pub(crate) fn aead_seal(key: &[u8], nonce: &[u8], plain: &[u8]) -> (r: Option<Vec<u8>>)
    requires
        key@.len() == 32,
        nonce@.len() == 12,
    ensures
        plain@.len() <= AEAD_MAX_PLAIN ==> r is Some,
        r matches Some(c) ==> c@.len() == plain@.len() + AEAD_TAG_LEN,
        r matches Some(c) ==> aead_open_of(key@, nonce@, c@) == Some(plain@),
{
    let cipher = Aes256GcmSiv::new_from_slice(key).ok()?;
    cipher.encrypt(Nonce::from_slice(nonce), plain).ok()
}

/// Relies on `Aes256GcmSiv::decrypt`: the plaintext when the tag verifies.
#[verifier::external_body]
pub(crate) fn aead_open(key: &[u8], nonce: &[u8], sealed: &[u8]) -> (r: Option<Vec<u8>>)
    requires
        key@.len() == 32,
        nonce@.len() == 12,
    ensures
        r is None ==> aead_open_of(key@, nonce@, sealed@) is None,
        r matches Some(p) ==> aead_open_of(key@, nonce@, sealed@) == Some(p@),
{
    let cipher = Aes256GcmSiv::new_from_slice(key).ok()?;
    cipher.decrypt(Nonce::from_slice(nonce), sealed).ok()
}

/// Relies on `blake3::hash` and the hex `Display` of its digest.
#[verifier::external_body]
pub(crate) fn blake3_hex(data: &[u8]) -> (r: String)
    ensures
        r@ == blake3_hex_of(data@),
{
    blake3::hash(data).to_string()
}

/// Relies on `String::from_utf8`: success exactly on valid UTF-8, decoding it.
#[verifier::external_body]
pub(crate) fn utf8_string(bytes: Vec<u8>) -> (r: Option<String>)
    ensures
        r is Some <==> valid_utf8(bytes@),
        r matches Some(s) ==> s@ == decode_utf8(bytes@),
{
    String::from_utf8(bytes).ok()
}

/// Relies on `TOTP::new` (SHA-1, six digits, skew 1, 30-second step) and
/// `TOTP::check`: construction fails only for a secret under 16 bytes, and the
/// check accepts exactly the codes that `generate` gives for the previous,
/// current and next time step. The bounds on `time` keep `check`'s step
/// arithmetic from underflowing or overflowing.
#[verifier::external_body]
pub(crate) fn totp_check(secret: &str, code: &str, time: u64) -> (r: bool)
    requires
        time >= 30,
        time / 30 + 1 <= u64::MAX / 30,
    ensures
        r == (encode_utf8(secret@).len() >= 16 && exists|step: int|
            time as int / 30 - 1 <= step <= time as int / 30 + 1
                && code@ == #[trigger] totp_code_of(encode_utf8(secret@), step)),
{
    let account = "Anon".to_string();
    match totp_rs::TOTP::new(totp_rs::Algorithm::SHA1, 6, 1, 30, secret.as_bytes().to_vec(), Some("Xenon".to_string()), account) {
        Ok(totp) => totp.check(code, time),
        Err(_) => false,
    }
}

/// Relies on `TOTP::new` and `TOTP::get_url`: the `otpauth://` provisioning URL
/// of the secret for an authenticator app, when the secret is at least 16 bytes.
#[verifier::external_body]
pub(crate) fn totp_provisioning_url(secret: &str) -> (r: Option<String>)
    ensures
        r is Some <==> encode_utf8(secret@).len() >= 16,
        r matches Some(u) ==> u@ == totp_url_of(encode_utf8(secret@)),
        r matches Some(u) ==> u@.len() > 0,
{
    let account = "Anon".to_string();
    let totp = totp_rs::TOTP::new(totp_rs::Algorithm::SHA1, 6, 1, 30, secret.as_bytes().to_vec(), Some("Xenon".to_string()), account).ok()?;
    Some(totp.get_url())
}

} // verus!
