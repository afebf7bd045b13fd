//! Two-layer field encryption: a random field key seals the value, and a key
//! derived from the master password seals the field key.
use crate::primitives::{
    aead_open, aead_open_of, aead_seal, all_b64, blake3_hex, blake3_hex_of, ends_in_digest,
    is_alphanumeric, is_b64_char, is_salt16, pbkdf2_phc, pbkdf2_phc_of, random_alphanumeric,
    random_salt, truncate_width, utf8_string, width_prefix_of, AEAD_MAX_PLAIN, AEAD_TAG_LEN,
};
use vstd::prelude::*;
use vstd::utf8::{decode_utf8, encode_utf8, valid_utf8};

verus! {

broadcast use {vstd::utf8::encode_utf8_valid_utf8, vstd::utf8::encode_utf8_decode_utf8};

/// Why a vault operation did not complete.
#[derive(PartialEq, Eq, Structural, Clone, Copy, Debug)]
pub enum VaultError {
    /// A cipher or key-derivation step could not run (bad key length, bad salt).
    CryptoFailure,
    /// The stored digest does not match the ciphertext: corrupted or tampered data.
    IntegrityFailure,
    /// An authentication tag did not verify under the key the password gave.
    WrongPassword,
    /// No entry stands at the requested index.
    NotFound,
}

/// One encrypted field: the sealed value with its nonce, and the sealed field
/// key with the salt and nonce needed to open it, plus a digest of the sealed value.
#[derive(Clone, Debug)]
pub struct CipherGroup {
    pub nonce: String,
    pub encryption: Vec<u8>,
    pub dsalt: String,
    pub enonce: String,
    pub ekey: Vec<u8>,
    pub hash: String,
}

/// Field key length in bytes (AES-256).
pub const KEY_LEN: usize = 32;

/// PBKDF2 rounds for the key-encryption key; fixed so that the same password
/// and salt always give the same key.
pub const KDF_ROUNDS: u32 = 10_000;

/// Nonce length in bytes.
pub const NONCE_LEN: usize = 12;

/// The UTF-8 bytes of a text.
pub open spec fn bytes_of(s: Seq<char>) -> Seq<u8> {
    encode_utf8(s)
}

/// Every character is an ASCII letter or digit.
pub open spec fn all_alphanumeric(s: Seq<char>) -> bool {
    forall|i: int| 0 <= i < s.len() ==> is_alphanumeric(#[trigger] s[i])
}

/// Position just past the last `$` of a text, or 0 when it holds none.
pub open spec fn after_last_dollar(s: Seq<char>) -> int
    decreases s.len(),
{
    if s.len() == 0 {
        0
    } else if s.last() == '$' {
        s.len() as int
    } else {
        after_last_dollar(s.drop_last())
    }
}

/// The text after the last `$` (the whole text when it holds none).
pub open spec fn last_segment(s: Seq<char>) -> Seq<char> {
    s.subrange(after_last_dollar(s), s.len() as int)
}

/// The key-encryption key for a password and salt: the digest part of the
/// PBKDF2 PHC string (fixed round count), cut to a display width of 32.
pub open spec fn derived_key_of(password: Seq<char>, salt: Seq<char>) -> Option<Seq<char>> {
    match pbkdf2_phc_of(password, salt, KDF_ROUNDS) {
        Some(phc) => Some(width_prefix_of(last_segment(phc), KEY_LEN as nat)),
        None => None,
    }
}

/// What opening an envelope with a password yields: the digest is checked
/// first, then the field key is unwrapped, then the value is opened.
pub open spec fn open_envelope(g: CipherGroup, password: Seq<char>) -> Result<Seq<char>, VaultError> {
    if blake3_hex_of(g.encryption@) != g.hash@ {
        Err(VaultError::IntegrityFailure)
    } else {
        match derived_key_of(password, g.dsalt@) {
            None => Err(VaultError::CryptoFailure),
            Some(kek) => if bytes_of(kek).len() != KEY_LEN || bytes_of(g.enonce@).len() != NONCE_LEN {
                Err(VaultError::CryptoFailure)
            } else {
                match aead_open_of(bytes_of(kek), bytes_of(g.enonce@), g.ekey@) {
                    None => Err(VaultError::WrongPassword),
                    Some(key) => if key.len() != KEY_LEN || bytes_of(g.nonce@).len() != NONCE_LEN {
                        Err(VaultError::CryptoFailure)
                    } else {
                        match aead_open_of(key, bytes_of(g.nonce@), g.encryption@) {
                            None => Err(VaultError::WrongPassword),
                            Some(p) => if valid_utf8(p) {
                                Ok(decode_utf8(p))
                            } else {
                                Err(VaultError::CryptoFailure)
                            },
                        }
                    },
                }
            },
        }
    }
}

/// `g` was produced by sealing `plain` under `password`: its digest is that of
/// its ciphertext, the password and salt give a key that unwraps a 32-byte
/// field key, and that key opens the ciphertext to the bytes of `plain`.
pub open spec fn sealed_from(g: CipherGroup, plain: Seq<char>, password: Seq<char>) -> bool {
    &&& g.hash@ == blake3_hex_of(g.encryption@)
    &&& bytes_of(g.nonce@).len() == NONCE_LEN
    &&& bytes_of(g.enonce@).len() == NONCE_LEN
    &&& exists|kek: Seq<char>, key: Seq<u8>|
        {
            &&& derived_key_of(password, g.dsalt@) == Some(kek)
            &&& bytes_of(kek).len() == KEY_LEN
            &&& aead_open_of(bytes_of(kek), bytes_of(g.enonce@), g.ekey@) == Some(key)
            &&& key.len() == KEY_LEN
            &&& aead_open_of(key, bytes_of(g.nonce@), g.encryption@) == Some(bytes_of(plain))
        }
}

/// An all-alphanumeric text is ASCII, so it has one byte per character.
pub proof fn lemma_alphanumeric_bytes(s: Seq<char>)
    requires
        all_alphanumeric(s),
    ensures
        bytes_of(s).len() == s.len(),
{
    assert(vstd::utf8::is_ascii_chars(s)) by {
        assert forall|i: int| 0 <= i < s.len() implies '\0' <= #[trigger] s[i] <= '\u{7f}' by {
            assert(is_alphanumeric(s[i]));
        }
    }
    vstd::utf8::is_ascii_chars_encode_utf8(s);
}

/// A B64 text is ASCII, so it has one byte per character.
pub proof fn lemma_b64_bytes(s: Seq<char>)
    requires
        all_b64(s),
    ensures
        bytes_of(s).len() == s.len(),
{
    assert(vstd::utf8::is_ascii_chars(s)) by {
        assert forall|i: int| 0 <= i < s.len() implies '\0' <= #[trigger] s[i] <= '\u{7f}' by {
            assert(is_b64_char(s[i]));
        }
    }
    vstd::utf8::is_ascii_chars_encode_utf8(s);
}

/// In a text that ends in `$` and then `n` characters other than `$`, the last
/// segment starts `n` characters before the end.
proof fn lemma_after_last_dollar_tail(s: Seq<char>, n: nat)
    requires
        s.len() > n,
        s[s.len() - n - 1] == '$',
        forall|i: int| s.len() - n <= i < s.len() ==> #[trigger] s[i] != '$',
    ensures
        after_last_dollar(s) == s.len() - n,
    decreases n,
{
    if n > 0 {
        let t = s.drop_last();
        assert(s[s.len() - 1] != '$');
        assert forall|i: int| t.len() - (n - 1) <= i < t.len() implies #[trigger] t[i] != '$' by {
            assert(t[i] == s[i]);
        }
        assert(t[t.len() - (n - 1) - 1] == s[s.len() - n - 1]);
        lemma_after_last_dollar_tail(t, (n - 1) as nat);
    }
}

/// Seals `data` under a fresh random 32-character field key and a fresh random
/// 12-character nonce; returns the nonce, the ciphertext and the field key.
pub fn encrypt_no_key(data: &str) -> (r: Result<(String, Vec<u8>, String), VaultError>)
    ensures
        bytes_of(data@).len() <= AEAD_MAX_PLAIN ==> r is Ok,
        r matches Err(e) ==> e == VaultError::CryptoFailure,
        r matches Ok((nonce, sealed, key)) ==> sealed@.len() == bytes_of(data@).len() + AEAD_TAG_LEN,
        r matches Ok((nonce, sealed, key)) ==> {
            &&& nonce@.len() == NONCE_LEN && all_alphanumeric(nonce@)
            &&& bytes_of(nonce@).len() == NONCE_LEN
            &&& key@.len() == KEY_LEN && all_alphanumeric(key@)
            &&& bytes_of(key@).len() == KEY_LEN
            &&& aead_open_of(bytes_of(key@), bytes_of(nonce@), sealed@) == Some(bytes_of(data@))
        },
{
    let key = random_alphanumeric(KEY_LEN);
    let nonce = random_alphanumeric(NONCE_LEN);
    proof {
        lemma_alphanumeric_bytes(key@);
        lemma_alphanumeric_bytes(nonce@);
    }
    match aead_seal(key.as_str().as_bytes(), nonce.as_str().as_bytes(), data.as_bytes()) {
        Some(sealed) => Ok((nonce, sealed, key)),
        None => Err(VaultError::CryptoFailure),
    }
}

/// Seals `data` under a given key with a fresh random nonce; returns the nonce
/// and the ciphertext. A key that is not 32 bytes long is a `CryptoFailure`.
pub fn encrypt_key(data: &str, key: &str) -> (r: Result<(String, Vec<u8>), VaultError>)
    ensures
        bytes_of(key@).len() == KEY_LEN && bytes_of(data@).len() <= AEAD_MAX_PLAIN ==> r is Ok,
        r matches Ok((nonce, sealed)) ==> sealed@.len() == bytes_of(data@).len() + AEAD_TAG_LEN,
        bytes_of(key@).len() != KEY_LEN ==> r == Err::<(String, Vec<u8>), VaultError>(VaultError::CryptoFailure),
        r matches Err(e) ==> e == VaultError::CryptoFailure,
        r matches Ok((nonce, sealed)) ==> {
            &&& nonce@.len() == NONCE_LEN && all_alphanumeric(nonce@)
            &&& bytes_of(nonce@).len() == NONCE_LEN
            &&& bytes_of(key@).len() == KEY_LEN
            &&& aead_open_of(bytes_of(key@), bytes_of(nonce@), sealed@) == Some(bytes_of(data@))
        },
{
    let key_bytes = key.as_bytes();
    if key_bytes.len() != KEY_LEN {
        return Err(VaultError::CryptoFailure);
    }
    let nonce = random_alphanumeric(NONCE_LEN);
    proof {
        lemma_alphanumeric_bytes(nonce@);
    }
    match aead_seal(key_bytes, nonce.as_str().as_bytes(), data.as_bytes()) {
        Some(sealed) => Ok((nonce, sealed)),
        None => Err(VaultError::CryptoFailure),
    }
}

/// Opens `data` with a key and a nonce given as bytes. A wrong length is a
/// `CryptoFailure`; a tag that does not verify is `WrongPassword`.
pub fn decrypt(data: &[u8], key: &[u8], nonce: &[u8]) -> (r: Result<Vec<u8>, VaultError>)
    ensures
        key@.len() != KEY_LEN || nonce@.len() != NONCE_LEN ==> r == Err::<Vec<u8>, VaultError>(VaultError::CryptoFailure),
        key@.len() == KEY_LEN && nonce@.len() == NONCE_LEN ==> match aead_open_of(key@, nonce@, data@) {
            Some(p) => r matches Ok(v) && v@ == p,
            None => r == Err::<Vec<u8>, VaultError>(VaultError::WrongPassword),
        },
{
    if key.len() != KEY_LEN || nonce.len() != NONCE_LEN {
        return Err(VaultError::CryptoFailure);
    }
    match aead_open(key, nonce, data) {
        Some(p) => Ok(p),
        None => Err(VaultError::WrongPassword),
    }
}

/// Position just past the last `$` of `s`, counted in characters.
fn after_last_dollar_exec(s: &str) -> (r: usize)
    ensures
        r == after_last_dollar(s@),
        r <= s@.len(),
{
    let mut i: usize = s.unicode_len();
    proof {
        assert(s@.subrange(0, i as int) =~= s@);
    }
    while i > 0 && s.get_char(i - 1) != '$'
        invariant
            i <= s@.len(),
            after_last_dollar(s@.subrange(0, i as int)) == after_last_dollar(s@),
        decreases i,
    {
        proof {
            assert(s@.subrange(0, i as int).drop_last() =~= s@.subrange(0, i - 1));
        }
        i = i - 1;
    }
    i
}

/// Derives the key-encryption key for `password` and a given B64 salt: the
/// digest part of the PBKDF2 PHC string, cut to a display width of 32.
pub fn derive_password_salt(password: &str, salt: &str) -> (r: Result<String, VaultError>)
    ensures
        match derived_key_of(password@, salt@) {
            Some(k) => r matches Ok(d) && d@ == k,
            None => r == Err::<String, VaultError>(VaultError::CryptoFailure),
        },
        is_salt16(salt@) ==> r is Ok,
        r matches Ok(d) ==> d@.len() == KEY_LEN && bytes_of(d@).len() == KEY_LEN && all_b64(d@),
{
    match pbkdf2_phc(password, salt, KDF_ROUNDS) {
        None => Err(VaultError::CryptoFailure),
        Some(phc) => {
            let start = after_last_dollar_exec(phc.as_str());
            let len = phc.as_str().unicode_len();
            let tail = phc.as_str().substring_char(start, len);
            let ghost h = phc@;
            proof {
                assert forall|i: int| h.len() - 43 <= i < h.len() implies #[trigger] h[i] != '$' by {
                    assert(h.subrange(h.len() - 43, h.len() as int)[i - (h.len() - 43)] == h[i]);
                    assert(is_b64_char(h[i]));
                }
                lemma_after_last_dollar_tail(h, 43);
                assert(tail@ =~= h.subrange(h.len() - 43, h.len() as int));
            }
            let d = truncate_width(tail, KEY_LEN);
            proof {
                assert(all_b64(d@)) by {
                    assert forall|i: int| 0 <= i < d@.len() implies is_b64_char(#[trigger] d@[i]) by {
                        assert(d@[i] == tail@[i]);
                    }
                }
                lemma_b64_bytes(d@);
            }
            Ok(d)
        },
    }
}

/// Derives a key-encryption key for `password` under a fresh random salt;
/// returns the key and the salt.
pub fn derive_password_no_salt(password: &str) -> (r: Result<(String, String), VaultError>)
    ensures
        r is Ok,
        r matches Ok((derived, salt)) ==> derived_key_of(password@, salt@) == Some(derived@),
        r matches Ok((derived, salt)) ==> derived@.len() == KEY_LEN && bytes_of(derived@).len() == KEY_LEN && is_salt16(salt@),
{
    let salt = random_salt();
    let derived = derive_password_salt(password, salt.as_str())?;
    Ok((derived, salt))
}

/// The BLAKE3 digest of `data` as hex text.
pub fn hash(data: &[u8]) -> (r: String)
    ensures
        r@ == blake3_hex_of(data@),
{
    blake3_hex(data)
}

/// Whether `expected` is the hex BLAKE3 digest of `data`.
pub fn verify_hash(data: &[u8], expected: &String) -> (r: bool)
    ensures
        r == (blake3_hex_of(data@) == expected@),
{
    let actual = blake3_hex(data);
    actual == *expected
}

/// Encrypts one field value under the master password into a fresh envelope.
pub fn encrypt_full(data: &str, masterpw: &str) -> (r: Result<CipherGroup, VaultError>)
    ensures
        bytes_of(data@).len() <= AEAD_MAX_PLAIN ==> r is Ok,
        r matches Err(e) ==> e == VaultError::CryptoFailure,
        r matches Ok(g) ==> g.encryption@.len() == bytes_of(data@).len() + AEAD_TAG_LEN,
        r matches Ok(g) ==> g.nonce@.len() == NONCE_LEN && g.enonce@.len() == NONCE_LEN
            && g.ekey@.len() == KEY_LEN + AEAD_TAG_LEN && is_salt16(g.dsalt@),
        r matches Ok(g) ==> sealed_from(g, data@, masterpw@),
        r matches Ok(g) ==> open_envelope(g, masterpw@) == Ok::<Seq<char>, VaultError>(data@),
{
    let (nonce, encryption, key) = encrypt_no_key(data)?;
    let (derived, dsalt) = derive_password_no_salt(masterpw)?;
    proof {
        lemma_alphanumeric_bytes(key@);
    }
    let (enonce, ekey) = encrypt_key(key.as_str(), derived.as_str())?;
    let hash = hash(encryption.as_slice());
    let g = CipherGroup { nonce, encryption, dsalt, enonce, ekey, hash };
    proof {
        assert(sealed_from(g, data@, masterpw@)) by {
            assert(derived_key_of(masterpw@, g.dsalt@) == Some(derived@));
            assert(aead_open_of(bytes_of(derived@), bytes_of(g.enonce@), g.ekey@) == Some(bytes_of(key@)));
        }
        lemma_sealed_opens(g, data@, masterpw@);
    }
    Ok(g)
}

/// Decrypts one envelope with the master password: the digest is checked
/// before any decryption, then both layers must authenticate.
pub fn decrypt_full(group: &CipherGroup, masterpw: &str) -> (r: Result<String, VaultError>)
    ensures
        match open_envelope(*group, masterpw@) {
            Ok(p) => r matches Ok(s) && s@ == p,
            Err(e) => r == Err::<String, VaultError>(e),
        },
{
    if !verify_hash(group.encryption.as_slice(), &group.hash) {
        return Err(VaultError::IntegrityFailure);
    }
    let derived = derive_password_salt(masterpw, group.dsalt.as_str())?;
    let key = decrypt(group.ekey.as_slice(), derived.as_str().as_bytes(), group.enonce.as_str().as_bytes())?;
    let data = decrypt(group.encryption.as_slice(), key.as_slice(), group.nonce.as_str().as_bytes())?;
    match utf8_string(data) {
        Some(s) => Ok(s),
        None => Err(VaultError::CryptoFailure),
    }
}

/// Round trip: an envelope sealed from a plaintext under a password opens under
/// that same password to exactly that plaintext.
pub proof fn lemma_sealed_opens(g: CipherGroup, plain: Seq<char>, password: Seq<char>)
    requires
        sealed_from(g, plain, password),
    ensures
        open_envelope(g, password) == Ok::<Seq<char>, VaultError>(plain),
{
    let (kek, key) = choose|kek: Seq<char>, key: Seq<u8>|
        {
            &&& derived_key_of(password, g.dsalt@) == Some(kek)
            &&& bytes_of(kek).len() == KEY_LEN
            &&& aead_open_of(bytes_of(kek), bytes_of(g.enonce@), g.ekey@) == Some(key)
            &&& key.len() == KEY_LEN
            &&& aead_open_of(key, bytes_of(g.nonce@), g.encryption@) == Some(bytes_of(plain))
        };
    assert(valid_utf8(encode_utf8(plain)));
    assert(decode_utf8(encode_utf8(plain)) == plain);
}

/// Authenticity: whatever password is tried, an envelope opens only when its
/// digest matches and both layers authenticate, and then the plaintext is the
/// one the recovered field key authenticates; otherwise the result is an error,
/// never other text.
pub proof fn lemma_open_is_authentic(g: CipherGroup, password: Seq<char>)
    ensures
        open_envelope(g, password) matches Ok(p) ==> {
            &&& blake3_hex_of(g.encryption@) == g.hash@
            &&& exists|kek: Seq<char>, key: Seq<u8>|
                {
                    &&& derived_key_of(password, g.dsalt@) == Some(kek)
                    &&& aead_open_of(bytes_of(kek), bytes_of(g.enonce@), g.ekey@) == Some(key)
                    &&& aead_open_of(key, bytes_of(g.nonce@), g.encryption@) == Some(bytes_of(p))
                }
        },
{
    if let Ok(p) = open_envelope(g, password) {
        let kek = derived_key_of(password, g.dsalt@)->0;
        let key = aead_open_of(bytes_of(kek), bytes_of(g.enonce@), g.ekey@)->0;
        let raw = aead_open_of(key, bytes_of(g.nonce@), g.encryption@)->0;
        assert(encode_utf8(decode_utf8(raw)) == raw) by {
            vstd::utf8::decode_utf8_encode_utf8(raw);
        }
    }
}

/// Tamper detection: an envelope whose ciphertext no longer matches its stored
/// digest is refused with `IntegrityFailure`, whatever the password.
pub proof fn lemma_tampered_is_refused(g: CipherGroup, password: Seq<char>)
    requires
        blake3_hex_of(g.encryption@) != g.hash@,
    ensures
        open_envelope(g, password) == Err::<Seq<char>, VaultError>(VaultError::IntegrityFailure),
{
}

} // verus!
