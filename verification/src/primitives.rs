//! The cryptographic functions that the library takes from other crates, and
//! what it relies on of each.
use argon2::Algorithm;
use argon2::Argon2;
use argon2::Params;
use argon2::Version;
use base64::engine::general_purpose::STANDARD;
use base64::Engine;
use chacha20poly1305::aead::Aead;
use chacha20poly1305::ChaCha20Poly1305;
use chacha20poly1305::KeyInit;
use chacha20poly1305::Nonce;
use vstd::prelude::*;

verus! {

pub const KEY_LEN: usize = 32;

pub const NONCE_LEN: usize = 12;

/// The authentication tag that a sealed text ends in.
pub const TAG_LEN: usize = 16;

/// The most bytes that one nonce's key stream covers: one block short of the
/// cipher's 32-bit block counter, since the first block makes the tag's key.
pub const MAX_PLAINTEXT: u64 = 0x3f_ffff_ff80;

/// The longest password that Argon2 takes.
pub const MAX_PASSWORD: u64 = 0xffff_ffff;

/// `argon2::Error`: why a key was not derived.
#[verifier::external_type_specification]
#[verifier::external_body]
pub struct ExArgon2Error(argon2::Error);

/// `chacha20poly1305::Error`: a text was not sealed or not opened.
#[verifier::external_type_specification]
#[verifier::external_body]
pub struct ExAeadError(chacha20poly1305::Error);

/// `base64::DecodeError`: why a text is not Base64.
#[verifier::external_type_specification]
#[verifier::external_body]
pub struct ExDecodeError(base64::DecodeError);

/// `getrandom::Error`: why there is no randomness.
#[verifier::external_type_specification]
#[verifier::external_body]
pub struct ExRandomError(getrandom::Error);

/// The 32-byte Argon2id key (version 0x13) for a memory cost in KiB, a number
/// of passes, a number of lanes, a password and a salt.
pub uninterp spec fn argon2id(
    memory: u32,
    passes: u32,
    lanes: u32,
    password: Seq<u8>,
    salt: Seq<u8>,
) -> Seq<u8>;

/// The ChaCha20-Poly1305 ciphertext, tag included, of a plaintext.
pub uninterp spec fn sealed(key: Seq<u8>, nonce: Seq<u8>, plaintext: Seq<u8>) -> Seq<u8>;

/// The plaintext of a ChaCha20-Poly1305 ciphertext whose tag is right.
pub uninterp spec fn unsealed(key: Seq<u8>, nonce: Seq<u8>, ciphertext: Seq<u8>) -> Option<Seq<u8>>;

/// The padded Base64 text, in the standard alphabet, of some bytes.
pub uninterp spec fn base64_text(bytes: Seq<u8>) -> Seq<char>;

/// The bytes of a padded Base64 text in the standard alphabet.
pub uninterp spec fn base64_bytes(text: Seq<char>) -> Option<Seq<u8>>;

/// The BLAKE3 hash of some bytes, in lower-case hexadecimal digits.
pub uninterp spec fn blake3_hex(bytes: Seq<u8>) -> Seq<char>;

/// A character of the standard Base64 alphabet, or its padding.
pub open spec fn is_base64(c: char) -> bool {
    ||| 'A' <= c && c <= 'Z'
    ||| 'a' <= c && c <= 'z'
    ||| '0' <= c && c <= '9'
    ||| c == '+'
    ||| c == '/'
    ||| c == '='
}

/// A lower-case hexadecimal digit.
pub open spec fn is_hex(c: char) -> bool {
    ('0' <= c && c <= '9') || ('a' <= c && c <= 'f')
}

/// `argon2::Argon2::hash_password_into` with Argon2id, version 0x13 and 32 bytes
/// of output. With one lane, at least 8 KiB, one pass and a salt of at least 8
/// bytes, it fails exactly on a password longer than `MAX_PASSWORD`.
#[verifier::external_body]
pub(crate) fn argon2id_key(
    memory: u32,
    passes: u32,
    lanes: u32,
    password: &[u8],
    salt: &[u8],
) -> (r: Result<Vec<u8>, argon2::Error>)
    requires
        8 <= memory <= 65536,
        1 <= passes,
        lanes == 1,
        8 <= salt@.len() <= 0xffff_ffff,
    ensures
        match r {
            Ok(key) => {
                &&& password@.len() <= MAX_PASSWORD
                &&& key@ == argon2id(memory, passes, lanes, password@, salt@)
                &&& key@.len() == KEY_LEN
            },
            Err(_) => password@.len() > MAX_PASSWORD,
        },
{
    let params = Params::new(memory, passes, lanes, Some(KEY_LEN))?;
    let argon = Argon2::new(Algorithm::Argon2id, Version::V0x13, params);
    let mut key = vec![0u8; KEY_LEN];
    argon.hash_password_into(password, salt, &mut key)?;
    Ok(key)
}

/// `getrandom::getrandom` fills a buffer from the system's random source, or
/// fails. Nothing is said of the bytes.
#[verifier::external_body]
pub(crate) fn random_bytes(len: usize) -> (r: Result<Vec<u8>, getrandom::Error>)
    ensures
        r matches Ok(bytes) ==> bytes@.len() == len,
{
    let mut bytes = vec![0u8; len];
    getrandom::getrandom(&mut bytes)?;
    Ok(bytes)
}

/// `Aead::encrypt` of `chacha20poly1305::ChaCha20Poly1305`, with no associated
/// data. Within the key stream it always succeeds; the result is the tag longer
/// than the plaintext and opens again under the same key and nonce.
#[verifier::external_body]
pub(crate) fn chacha_seal(key: &[u8], nonce: &[u8], plaintext: &[u8]) -> (r: Result<
    Vec<u8>,
    chacha20poly1305::Error,
>)
    requires
        key@.len() == KEY_LEN,
        nonce@.len() == NONCE_LEN,
        plaintext@.len() <= MAX_PLAINTEXT,
        plaintext@.len() <= usize::MAX / 4,
    ensures
        r is Ok,
        r->Ok_0@ == sealed(key@, nonce@, plaintext@),
        r->Ok_0@.len() == plaintext@.len() + TAG_LEN,
        unsealed(key@, nonce@, r->Ok_0@) == Some(plaintext@),
{
    let cipher = ChaCha20Poly1305::new_from_slice(key).map_err(|_| chacha20poly1305::Error)?;
    cipher.encrypt(Nonce::from_slice(nonce), plaintext)
}

/// `Aead::decrypt` of `chacha20poly1305::ChaCha20Poly1305`, with no associated
/// data. What it opens is the tag shorter than the ciphertext.
#[verifier::external_body]
pub(crate) fn chacha_open(key: &[u8], nonce: &[u8], ciphertext: &[u8]) -> (r: Result<
    Vec<u8>,
    chacha20poly1305::Error,
>)
    requires
        key@.len() == KEY_LEN,
        nonce@.len() == NONCE_LEN,
        ciphertext@.len() <= MAX_PLAINTEXT + TAG_LEN,
    ensures
        match r {
            Ok(p) => {
                &&& unsealed(key@, nonce@, ciphertext@) == Some(p@)
                &&& ciphertext@.len() == p@.len() + TAG_LEN
            },
            Err(_) => unsealed(key@, nonce@, ciphertext@) is None,
        },
{
    let cipher = ChaCha20Poly1305::new_from_slice(key).map_err(|_| chacha20poly1305::Error)?;
    cipher.decrypt(Nonce::from_slice(nonce), ciphertext)
}

/// `Engine::encode` of base64's `STANDARD` engine: four characters of the
/// alphabet for every three bytes begun, which decode to the same bytes.
#[verifier::external_body]
pub(crate) fn base64_encode(bytes: &[u8]) -> (r: String)
    requires
        bytes@.len() <= usize::MAX / 4,
    ensures
        r@ == base64_text(bytes@),
        base64_bytes(r@) == Some(bytes@),
        r@.len() == 4 * ((bytes@.len() + 2) / 3),
        forall|i: int| 0 <= i < r@.len() ==> is_base64(#[trigger] r@[i]),
{
    STANDARD.encode(bytes)
}

/// `Engine::decode` of base64's `STANDARD` engine. The bytes are never more
/// than the text takes in UTF-8.
#[verifier::external_body]
pub(crate) fn base64_decode(text: &str) -> (r: Result<Vec<u8>, base64::DecodeError>)
    ensures
        match r {
            Ok(bytes) => {
                &&& base64_bytes(text@) == Some(bytes@)
                &&& bytes@.len() <= vstd::utf8::encode_utf8(text@).len()
            },
            Err(_) => base64_bytes(text@) is None,
        },
{
    STANDARD.decode(text)
}

/// `blake3::hash` and `Hash::to_hex`: 64 lower-case hexadecimal digits.
#[verifier::external_body]
pub(crate) fn blake3_digest(bytes: &[u8]) -> (r: String)
    ensures
        r@ == blake3_hex(bytes@),
        r@.len() == 64,
        forall|i: int| 0 <= i < r@.len() ==> is_hex(#[trigger] r@[i]),
{
    blake3::hash(bytes).to_hex().to_string()
}

} // verus!
