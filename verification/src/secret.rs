//! Sealing and opening the secret keys of stored connections: AES-256-GCM under a
//! local key, with the nonce and the ciphertext written out in Base64 as
//! `nonce:ciphertext`.
use vstd::prelude::*;
use vstd::utf8::{decode_utf8, encode_utf8, valid_utf8};
use crate::text::{chars_of, push_char, push_str, string_of, trim_ws, trim_ws_bounds};
use aes_gcm::aead::{Aead, KeyInit};
use base64::Engine;

verus! {

#[verifier::external_type_specification]
#[verifier::external_body]
pub struct ExDecodeError(base64::DecodeError);

#[verifier::external_type_specification]
#[verifier::external_body]
pub struct ExAeadError(aes_gcm::Error);

#[verifier::external_type_specification]
#[verifier::external_body]
pub struct ExFromUtf8Error(std::string::FromUtf8Error);

/// The padded standard Base64 text of `bytes`.
pub uninterp spec fn base64_encoding(bytes: Seq<u8>) -> Seq<char>;

/// The bytes that the padded standard Base64 text `text` stands for, if it is valid.
pub uninterp spec fn base64_decoding(text: Seq<char>) -> Option<Seq<u8>>;

/// The AES-256-GCM ciphertext (with its tag appended) of `plaintext` under `key`
/// and `nonce`, with no associated data.
pub uninterp spec fn aes256_gcm_seal(key: Seq<u8>, nonce: Seq<u8>, plaintext: Seq<u8>) -> Seq<u8>;

/// The plaintext that AES-256-GCM recovers from `ciphertext` under `key` and `nonce`,
/// if its tag checks.
pub uninterp spec fn aes256_gcm_open(key: Seq<u8>, nonce: Seq<u8>, ciphertext: Seq<u8>) -> Option<
    Seq<u8>,
>;

/// The longest plaintext that AES-GCM encrypts: 2^36 bytes.
pub open spec fn aes_gcm_max_plaintext() -> nat {
    68719476736
}

/// A character of the standard Base64 alphabet, or the padding `=`.
pub open spec fn base64_symbol(c: char) -> bool {
    ('A' <= c && c <= 'Z') || ('a' <= c && c <= 'z') || ('0' <= c && c <= '9') || c == '+' || c
        == '/' || c == '='
}

/// Whether the padded Base64 text of `n` bytes has a length that fits in `usize`.
pub open spec fn base64_length_fits(n: nat) -> bool {
    n / 3 * 4 + (if n % 3 > 0 { 4int } else { 0int }) <= usize::MAX
}

/// `base64::engine::general_purpose::STANDARD.encode`: the padded standard Base64
/// text of `bytes`, made only of alphabet symbols and `=`. It panics where the
/// length of that text overflows `usize`, which `requires` leaves out.
#[verifier::external_body]
fn base64_encode(bytes: &[u8]) -> (text: String)
    requires
        base64_length_fits(bytes@.len()),
    ensures
        text@ == base64_encoding(bytes@),
        forall|i: int| 0 <= i < text@.len() ==> base64_symbol(#[trigger] text@[i]),
{
    base64::engine::general_purpose::STANDARD.encode(bytes)
}

/// `base64::engine::general_purpose::STANDARD.decode`: the bytes that `text` stands
/// for, or the reason it is not valid padded Base64. Decoding the encoding of some
/// bytes gives those bytes back.
#[verifier::external_body]
fn base64_decode(text: &str) -> (r: Result<Vec<u8>, base64::DecodeError>)
    ensures
        r is Ok <==> base64_decoding(text@) is Some,
        r matches Ok(bytes) ==> bytes@ == base64_decoding(text@)->0,
        forall|bytes: Seq<u8>| #[trigger] base64_encoding(bytes) == text@ ==> r is Ok && r->Ok_0@ == bytes,
{
    base64::engine::general_purpose::STANDARD.decode(text)
}

/// `Aes256Gcm::encrypt` with no associated data: fails exactly when the plaintext is
/// longer than 2^36 bytes; otherwise the ciphertext is the plaintext's length plus
/// the 16-byte tag.
#[verifier::external_body]
fn aes256_gcm_encrypt(key: &[u8], nonce: &[u8], plaintext: &[u8]) -> (r: Result<Vec<u8>, aes_gcm::Error>)
    requires
        key@.len() == 32,
        nonce@.len() == 12,
    ensures
        r is Ok <==> plaintext@.len() <= aes_gcm_max_plaintext(),
        r matches Ok(c) ==> c@ == aes256_gcm_seal(key@, nonce@, plaintext@) && c@.len() == plaintext@.len() + 16,
{
    let cipher = aes_gcm::Aes256Gcm::new(aes_gcm::Key::<aes_gcm::Aes256Gcm>::from_slice(key));
    cipher.encrypt(aes_gcm::Nonce::from_slice(nonce), plaintext)
}

/// `Aes256Gcm::decrypt` with no associated data: the plaintext if the tag checks.
/// Decrypting what encryption under the same key and nonce produced gives the
/// plaintext back.
#[verifier::external_body]
fn aes256_gcm_decrypt(key: &[u8], nonce: &[u8], ciphertext: &[u8]) -> (r: Result<Vec<u8>, aes_gcm::Error>)
    requires
        key@.len() == 32,
        nonce@.len() == 12,
    ensures
        r is Ok <==> aes256_gcm_open(key@, nonce@, ciphertext@) is Some,
        r matches Ok(p) ==> p@ == aes256_gcm_open(key@, nonce@, ciphertext@)->0,
        forall|p: Seq<u8>|
            p.len() <= aes_gcm_max_plaintext() && #[trigger] aes256_gcm_seal(key@, nonce@, p) == ciphertext@
                ==> r is Ok && r->Ok_0@ == p,
{
    let cipher = aes_gcm::Aes256Gcm::new(aes_gcm::Key::<aes_gcm::Aes256Gcm>::from_slice(key));
    cipher.decrypt(aes_gcm::Nonce::from_slice(nonce), ciphertext)
}

/// `String::from_utf8`: the string whose UTF-8 bytes are `bytes`, if they are valid
/// UTF-8.
#[verifier::external_body]
fn string_from_utf8(bytes: Vec<u8>) -> (r: Result<String, std::string::FromUtf8Error>)
    ensures
        r is Ok <==> valid_utf8(bytes@),
        r matches Ok(s) ==> encode_utf8(s@) == bytes@,
{
    String::from_utf8(bytes)
}

/// Why a secret could not be sealed or opened.
#[derive(Debug)]
pub enum SecretError {
    /// The cipher refused to encrypt the secret.
    EncryptFailed,
    /// The stored text has no `:` between nonce and ciphertext.
    MalformedCiphertext,
    /// A part of the stored text, or the stored key, is not valid Base64.
    Encoding(base64::DecodeError),
    /// The stored nonce does not have the 12 bytes that AES-GCM takes.
    NonceLength,
    /// The ciphertext did not authenticate under the key.
    DecryptFailed,
    /// The decrypted secret is not valid UTF-8.
    NotUtf8(std::string::FromUtf8Error),
    /// The stored key does not decode to 32 bytes.
    KeyLength,
}

/// The kinds of `SecretError`, for contracts.
#[derive(Debug, Clone, Copy, PartialEq, Eq)]
pub enum SecretFault {
    EncryptFailed,
    MalformedCiphertext,
    Encoding,
    NonceLength,
    DecryptFailed,
    NotUtf8,
    KeyLength,
}

impl SecretError {
    /// The kind of this error.
    pub open spec fn fault(&self) -> SecretFault {
        match self {
            SecretError::EncryptFailed => SecretFault::EncryptFailed,
            SecretError::MalformedCiphertext => SecretFault::MalformedCiphertext,
            SecretError::Encoding(_) => SecretFault::Encoding,
            SecretError::NonceLength => SecretFault::NonceLength,
            SecretError::DecryptFailed => SecretFault::DecryptFailed,
            SecretError::NotUtf8(_) => SecretFault::NotUtf8,
            SecretError::KeyLength => SecretFault::KeyLength,
        }
    }
}

/// The stored text of `secret` sealed under `key` with `nonce`: the Base64 of the
/// nonce, `:`, and the Base64 of the ciphertext of its UTF-8 bytes.
pub open spec fn sealed_text(key: Seq<u8>, nonce: Seq<u8>, secret: Seq<char>) -> Seq<char> {
    base64_encoding(nonce) + seq![':'] + base64_encoding(aes256_gcm_seal(key, nonce, encode_utf8(secret)))
}

/// The position of the first `c` in `s`, if any.
pub open spec fn first_index_of(s: Seq<char>, c: char) -> Option<int>
    decreases s.len(),
{
    if s.len() == 0 {
        None
    } else if s[0] == c {
        Some(0)
    } else {
        match first_index_of(s.drop_first(), c) {
            Some(i) => Some(i + 1),
            None => None,
        }
    }
}

proof fn lemma_first_index_of(s: Seq<char>, c: char, j: int)
    requires
        0 <= j <= s.len(),
        j < s.len() ==> s[j] == c,
        forall|k: int| 0 <= k < j ==> s[k] != c,
    ensures
        first_index_of(s, c) == (if j < s.len() { Some(j) } else { None::<int> }),
    decreases j,
{
    if j > 0 {
        lemma_first_index_of(s.drop_first(), c, j - 1);
    }
}

/// What opening the stored text `text` under `key` yields: the secret, or the kind of
/// failure, checked in this order: the `:` separator, the Base64 of the nonce, the
/// Base64 of the ciphertext, the nonce length, the tag, the UTF-8 of the plaintext.
pub open spec fn opened_secret(key: Seq<u8>, text: Seq<char>) -> Result<Seq<char>, SecretFault> {
    match first_index_of(text, ':') {
        None => Err(SecretFault::MalformedCiphertext),
        Some(i) => match base64_decoding(text.take(i)) {
            None => Err(SecretFault::Encoding),
            Some(nonce) => match base64_decoding(text.skip(i + 1)) {
                None => Err(SecretFault::Encoding),
                Some(ciphertext) => if nonce.len() != 12 {
                    Err(SecretFault::NonceLength)
                } else {
                    match aes256_gcm_open(key, nonce, ciphertext) {
                        None => Err(SecretFault::DecryptFailed),
                        Some(plain) => if valid_utf8(plain) {
                            Ok(decode_utf8(plain))
                        } else {
                            Err(SecretFault::NotUtf8)
                        },
                    }
                },
            },
        },
    }
}

/// Seals `secret` under the 32-byte `key` with the 12-byte `nonce` into the text that
/// is stored for it.
pub fn encrypt_secret(key: &[u8], nonce: &[u8], secret: &str) -> (r: Result<String, SecretError>)
    requires
        key@.len() == 32,
        nonce@.len() == 12,
        encode_utf8(secret@).len() > aes_gcm_max_plaintext() || base64_length_fits(
            (encode_utf8(secret@).len() + 16) as nat,
        ),
    ensures
        encode_utf8(secret@).len() <= aes_gcm_max_plaintext() <==> r is Ok,
        r matches Err(e) ==> e.fault() == SecretFault::EncryptFailed,
        r matches Ok(text) ==> text@ == sealed_text(key@, nonce@, secret@),
        r matches Ok(text) ==> sealed_by(key@, text@, nonce@, secret@),
{
    let plain = secret.as_bytes();
    let ciphertext = match aes256_gcm_encrypt(key, nonce, plain) {
        Ok(c) => c,
        Err(_) => return Err(SecretError::EncryptFailed),
    };
    let mut text = base64_encode(nonce);
    push_char(&mut text, ':');
    let encoded = base64_encode(ciphertext.as_slice());
    push_str(&mut text, encoded.as_str());
    Ok(text)
}

/// Opens the stored text of a secret under the 32-byte `key`. Where the nonce does
/// not decode to 12 bytes it answers `NonceLength`. Opening what `encrypt_secret`
/// sealed under the same key gives the secret back.
pub fn decrypt_secret(key: &[u8], encrypted: &str) -> (r: Result<String, SecretError>)
    requires
        key@.len() == 32,
    ensures
        match (r, opened_secret(key@, encrypted@)) {
            (Ok(s), Ok(expected)) => s@ == expected,
            (Err(e), Err(fault)) => e.fault() == fault,
            _ => false,
        },
        forall|nonce: Seq<u8>, secret: Seq<char>|
            #[trigger] sealed_by(key@, encrypted@, nonce, secret) ==> (r matches Ok(s) && s@ == secret),
{
    let cs = chars_of(encrypted);
    let mut i: usize = 0;
    while i < cs.len() && cs[i] != ':'
        invariant
            i <= cs@.len(),
            forall|k: int| 0 <= k < i ==> cs@[k] != ':',
        decreases cs@.len() - i,
    {
        i = i + 1;
    }
    proof {
        lemma_first_index_of(cs@, ':', i as int);
        assert forall|n: Seq<u8>, t: Seq<char>| #[trigger] sealed_by(key@, encrypted@, n, t) implies {
            &&& (i as int) < encrypted@.len()
            &&& encrypted@.take(i as int) == base64_encoding(n)
            &&& encrypted@.skip(i + 1) == base64_encoding(aes256_gcm_seal(key@, n, encode_utf8(t)))
            &&& valid_utf8(encode_utf8(t))
        } by {
            let e = base64_encoding(n);
            assert(cs@[e.len() as int] == ':');
            if (i as int) < e.len() {
                assert(cs@[i as int] == e[i as int]);
                assert(base64_symbol(e[i as int]));
            }
            assert(encrypted@.take(i as int) =~= e);
            assert(encrypted@.skip(i + 1) =~= base64_encoding(aes256_gcm_seal(key@, n, encode_utf8(t))));
            vstd::utf8::encode_utf8_valid_utf8(t);
        }
    }
    if i == cs.len() {
        return Err(SecretError::MalformedCiphertext);
    }
    let nonce_text = string_of(cs.as_slice(), 0, i);
    let ciphertext_text = string_of(cs.as_slice(), i + 1, cs.len());
    assert(nonce_text@ =~= encrypted@.take(i as int));
    assert(ciphertext_text@ =~= encrypted@.skip(i + 1));
    let nonce = match base64_decode(nonce_text.as_str()) {
        Ok(n) => n,
        Err(e) => return Err(SecretError::Encoding(e)),
    };
    let ciphertext = match base64_decode(ciphertext_text.as_str()) {
        Ok(c) => c,
        Err(e) => return Err(SecretError::Encoding(e)),
    };
    if nonce.len() != 12 {
        return Err(SecretError::NonceLength);
    }
    let plain = match aes256_gcm_decrypt(key, nonce.as_slice(), ciphertext.as_slice()) {
        Ok(p) => p,
        Err(_) => return Err(SecretError::DecryptFailed),
    };
    let ghost plain_bytes = plain@;
    match string_from_utf8(plain) {
        Ok(s) => {
            proof {
                vstd::utf8::decode_utf8_encode_utf8(plain_bytes);
                vstd::utf8::encode_utf8_decode_utf8(s@);
                assert forall|n: Seq<u8>, t: Seq<char>| #[trigger] sealed_by(key@, encrypted@, n, t) implies s@ == t by {
                    vstd::utf8::encode_utf8_decode_utf8(t);
                }
            }
            Ok(s)
        },
        Err(e) => Err(SecretError::NotUtf8(e)),
    }
}

/// `text` is the stored text of `secret` sealed under `key` with a 12-byte `nonce`
/// whose Base64 is made of alphabet symbols, as `encrypt_secret` gives.
pub open spec fn sealed_by(key: Seq<u8>, text: Seq<char>, nonce: Seq<u8>, secret: Seq<char>) -> bool {
    &&& nonce.len() == 12
    &&& encode_utf8(secret).len() <= aes_gcm_max_plaintext()
    &&& forall|i: int| 0 <= i < base64_encoding(nonce).len() ==> base64_symbol(#[trigger] base64_encoding(nonce)[i])
    &&& text == sealed_text(key, nonce, secret)
}

/// Reads the local key from its stored text: white space around it is ignored, and
/// it must be Base64 for exactly 32 bytes.
pub fn decode_encryption_key(encoded: &str) -> (r: Result<Vec<u8>, SecretError>)
    ensures
        match base64_decoding(trim_ws(encoded@)) {
            None => r matches Err(e) && e.fault() == SecretFault::Encoding,
            Some(bytes) => if bytes.len() == 32 {
                r matches Ok(key) && key@ == bytes
            } else {
                r matches Err(e) && e.fault() == SecretFault::KeyLength
            },
        },
{
    let cs = chars_of(encoded);
    let (a, b) = trim_ws_bounds(cs.as_slice());
    let text = string_of(cs.as_slice(), a, b);
    match base64_decode(text.as_str()) {
        Ok(bytes) => if bytes.len() == 32 {
            Ok(bytes)
        } else {
            Err(SecretError::KeyLength)
        },
        Err(e) => Err(SecretError::Encoding(e)),
    }
}

/// The stored text of a 32-byte local key: its Base64.
pub fn encode_encryption_key(key: &[u8]) -> (text: String)
    requires
        key@.len() == 32,
    ensures
        text@ == base64_encoding(key@),
{
    base64_encode(key)
}

} // verus!
