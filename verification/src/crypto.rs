//! Password-based encryption of a vault file.
//!
//! Key derivation: Argon2id over the password and a random salt per file.
//! Encryption: ChaCha20-Poly1305 with a fresh random nonce per save.
//!
//! A vault file is text:
//! ```text
//! ENVVAULT v<N>
//! <base64( salt[16] || nonce[12] || ciphertext and tag )>
//! ```
//! Version 1 derives its key with 19456 KiB and 2 passes, version 2 with 64 MiB
//! and 3 passes. New sessions are of version 2; an opened file keeps its own.
use crate::path;
use crate::primitives;
use crate::primitives::KEY_LEN;
use crate::primitives::MAX_PASSWORD;
use crate::primitives::MAX_PLAINTEXT;
use crate::primitives::NONCE_LEN;
use crate::primitives::TAG_LEN;
use crate::secret::SecretBytes;
use crate::text;
use vstd::prelude::*;
use vstd::utf8;

verus! {

pub const SALT_LEN: usize = 16;

/// The largest vault file that is opened: 512 MiB.
pub const MAX_FILE: u64 = 536870912;

/// How many bytes of a file are looked at for its version.
pub const HEADER_READ: usize = 64;

pub const V1_M_COST: u32 = 19456;

pub const V1_T_COST: u32 = 2;

pub const V2_M_COST: u32 = 65536;

pub const V2_T_COST: u32 = 3;

pub const P_COST: u32 = 1;

/// Why a vault was not created, sealed, opened or verified.
#[derive(Clone, Copy, Debug, PartialEq, Eq, Structural)]
pub enum CryptoError {
    /// There is no randomness.
    Randomness,
    /// The password is longer than Argon2 takes.
    KeyDerivation,
    /// The contents are longer than the cipher takes.
    Encryption,
    /// The file is larger than any vault.
    TooLarge,
    /// The first line is no vault header.
    BadHeader,
    /// The body is not Base64.
    BadBase64,
    /// The body is too short for a salt and a nonce.
    Truncated,
    /// Wrong password or corrupted file.
    Decryption,
    /// A written file has another version than the session.
    WrongVersion,
    /// A written file has another salt than the session.
    WrongSalt,
    /// A written file does not open under the session's key.
    NotOurs,
    /// A written file holds something else than was encrypted.
    Differs,
}

/// Memory in KiB and passes of a version's key derivation.
pub open spec fn costs(version: u8) -> (u32, u32) {
    if version == 1 {
        (V1_M_COST, V1_T_COST)
    } else {
        (V2_M_COST, V2_T_COST)
    }
}

/// The key of a version for a password and a salt.
pub open spec fn derived_key(version: u8, password: Seq<u8>, salt: Seq<u8>) -> Seq<u8> {
    primitives::argon2id(costs(version).0, costs(version).1, P_COST, password, salt)
}

/// The first line of a version's files.
pub open spec fn magic(version: u8) -> Seq<char> {
    if version == 1 {
        "ENVVAULT v1"@
    } else {
        "ENVVAULT v2"@
    }
}

/// The version that a header line names.
pub open spec fn header_version(line: Seq<char>) -> Option<u8> {
    if text::trimmed(line) == magic(1) {
        Some(1u8)
    } else if text::trimmed(line) == magic(2) {
        Some(2u8)
    } else {
        None
    }
}

/// The text of a vault file.
pub open spec fn armored(version: u8, salt: Seq<u8>, nonce: Seq<u8>, ciphertext: Seq<u8>) -> Seq<
    char,
> {
    magic(version).push('\n') + primitives::base64_text(salt + nonce + ciphertext).push('\n')
}

/// All lines in one.
pub open spec fn joined(lines: Seq<Seq<char>>) -> Seq<char>
    decreases lines.len(),
{
    if lines.len() == 0 {
        Seq::empty()
    } else {
        joined(lines.drop_last()) + lines.last()
    }
}

/// The parts of a vault file.
pub struct Parts {
    pub version: u8,
    pub salt: Vec<u8>,
    pub nonce: Vec<u8>,
    pub ciphertext: Vec<u8>,
}

/// What a vault file's parts hold.
#[verifier::ext_equal]
pub struct PartsView {
    pub version: u8,
    pub salt: Seq<u8>,
    pub nonce: Seq<u8>,
    pub ciphertext: Seq<u8>,
}

impl View for Parts {
    type V = PartsView;

    open spec fn view(&self) -> PartsView {
        PartsView {
            version: self.version,
            salt: self.salt@,
            nonce: self.nonce@,
            ciphertext: self.ciphertext@,
        }
    }
}

/// The salt, nonce and ciphertext of a decoded body.
pub open spec fn body_parts(version: u8, blob: Seq<u8>) -> PartsView {
    PartsView {
        version,
        salt: blob.take(SALT_LEN as int),
        nonce: blob.subrange(SALT_LEN as int, SALT_LEN + NONCE_LEN),
        ciphertext: blob.skip(SALT_LEN + NONCE_LEN),
    }
}

/// The parts of a vault file's text.
pub open spec fn parsed_armor(file: Seq<char>) -> Result<PartsView, CryptoError> {
    let lines = text::line_seq(file);
    let header = if lines.len() > 0 {
        lines[0]
    } else {
        Seq::empty()
    };
    match header_version(header) {
        None => Err(CryptoError::BadHeader),
        Some(version) => match primitives::base64_bytes(text::trimmed(joined(lines.skip(1)))) {
            None => Err(CryptoError::BadBase64),
            Some(blob) => if blob.len() < SALT_LEN + NONCE_LEN {
                Err(CryptoError::Truncated)
            } else {
                Ok(body_parts(version, blob))
            },
        },
    }
}

/// The plaintext of a ciphertext, if it is not too long and its tag is right.
pub open spec fn opened_bytes(key: Seq<u8>, nonce: Seq<u8>, ciphertext: Seq<u8>) -> Option<
    Seq<u8>,
> {
    if ciphertext.len() > MAX_PLAINTEXT + TAG_LEN {
        None
    } else {
        primitives::unsealed(key, nonce, ciphertext)
    }
}

/// What opening a vault file's text with a password gives.
pub open spec fn opened(file: Seq<char>, password: Seq<u8>) -> Result<
    (SessionView, Seq<u8>),
    CryptoError,
> {
    if utf8::encode_utf8(file).len() > MAX_FILE {
        Err(CryptoError::TooLarge)
    } else {
        match parsed_armor(file) {
            Err(e) => Err(e),
            Ok(p) => if password.len() > MAX_PASSWORD {
                Err(CryptoError::KeyDerivation)
            } else {
                let key = derived_key(p.version, password, p.salt);
                match opened_bytes(key, p.nonce, p.ciphertext) {
                    None => Err(CryptoError::Decryption),
                    Some(plaintext) => Ok(
                        (SessionView { salt: p.salt, key, version: p.version }, plaintext),
                    ),
                }
            },
        }
    }
}

/// What a session holds.
#[verifier::ext_equal]
pub struct SessionView {
    pub salt: Seq<u8>,
    pub key: Seq<u8>,
    pub version: u8,
}

impl SessionView {
    pub open spec fn wf(self) -> bool {
        &&& self.salt.len() == SALT_LEN
        &&& self.key.len() == KEY_LEN
        &&& self.version == 1 || self.version == 2
    }

    /// What opening a file's text under this session's own key gives.
    pub open spec fn verified(self, file: Seq<char>) -> Result<Seq<u8>, CryptoError> {
        match parsed_armor(file) {
            Err(e) => Err(e),
            Ok(p) => if p.version != self.version {
                Err(CryptoError::WrongVersion)
            } else if p.salt != self.salt {
                Err(CryptoError::WrongSalt)
            } else {
                match opened_bytes(self.key, p.nonce, p.ciphertext) {
                    None => Err(CryptoError::NotOurs),
                    Some(plaintext) => Ok(plaintext),
                }
            },
        }
    }

    /// The file text that this session writes with a nonce.
    pub open spec fn armor_of(self, nonce: Seq<u8>, plaintext: Seq<u8>) -> Seq<char> {
        armored(self.version, self.salt, nonce, primitives::sealed(self.key, nonce, plaintext))
    }
}

/// Whether the Base64 text of a sealed plaintext can be held in memory.
pub open spec fn encodable(plaintext: Seq<u8>) -> bool {
    plaintext.len() + SALT_LEN + NONCE_LEN + TAG_LEN <= usize::MAX / 4
}

/// An open session for one vault file: the salt stays the file's, the key is
/// held in memory and overwritten on drop, each save takes a fresh nonce.
pub struct Session {
    salt: Vec<u8>,
    key: SecretBytes,
    version: u8,
}

impl View for Session {
    type V = SessionView;

    closed spec fn view(&self) -> SessionView {
        SessionView { salt: self.salt@, key: self.key@, version: self.version }
    }
}

/// Derives a version's key.
fn derive_key(version: u8, password: &[u8], salt: &[u8]) -> (r: Result<SecretBytes, CryptoError>)
    requires
        salt@.len() == SALT_LEN,
    ensures
        match r {
            Ok(key) => {
                &&& password@.len() <= MAX_PASSWORD
                &&& key@ == derived_key(version, password@, salt@)
                &&& key@.len() == KEY_LEN
            },
            Err(e) => e == CryptoError::KeyDerivation && password@.len() > MAX_PASSWORD,
        },
{
    let key = if version == 1 {
        primitives::argon2id_key(V1_M_COST, V1_T_COST, P_COST, password, salt)
    } else {
        primitives::argon2id_key(V2_M_COST, V2_T_COST, P_COST, password, salt)
    };
    match key {
        Ok(key) => Ok(SecretBytes::new(key)),
        Err(_) => Err(CryptoError::KeyDerivation),
    }
}

/// The version that a header line names.
fn read_header(line: &[char]) -> (r: Option<u8>)
    ensures
        r == header_version(line@),
{
    let header = text::trim(line);
    let v1 = text::chars_of("ENVVAULT v1");
    let v2 = text::chars_of("ENVVAULT v2");
    if text::same_chars(header, v1.as_slice()) {
        Some(1)
    } else if text::same_chars(header, v2.as_slice()) {
        Some(2)
    } else {
        None
    }
}

/// Takes a vault file's decoded body apart: the salt, the nonce and the
/// ciphertext, one behind the other.
pub fn split_body(version: u8, blob: &[u8]) -> (r: Result<Parts, CryptoError>)
    ensures
        match r {
            Ok(p) => blob@.len() >= SALT_LEN + NONCE_LEN && p@ == body_parts(version, blob@),
            Err(e) => blob@.len() < SALT_LEN + NONCE_LEN && e == CryptoError::Truncated,
        },
{
    if blob.len() < SALT_LEN + NONCE_LEN {
        return Err(CryptoError::Truncated);
    }
    let salt = vstd::slice::slice_to_vec(&blob[0..SALT_LEN]);
    let nonce = vstd::slice::slice_to_vec(&blob[SALT_LEN..SALT_LEN + NONCE_LEN]);
    let ciphertext = vstd::slice::slice_to_vec(&blob[SALT_LEN + NONCE_LEN..blob.len()]);
    let p = Parts { version, salt, nonce, ciphertext };
    assert(p@ =~= body_parts(version, blob@));
    Ok(p)
}

/// Takes a vault file's text apart.
pub fn parse_armored(file: &str) -> (r: Result<Parts, CryptoError>)
    ensures
        match r {
            Ok(p) => parsed_armor(file@) == Ok::<PartsView, CryptoError>(p@),
            Err(e) => parsed_armor(file@) == Err::<PartsView, CryptoError>(e),
        },
{
    let chars = text::chars_of(file);
    let lines = text::lines(chars.as_slice());
    let ghost all = text::line_seq(file@);
    assert(all.len() == lines@.len());
    if lines.len() == 0 {
        proof {
            reveal_strlit("ENVVAULT v1");
            reveal_strlit("ENVVAULT v2");
        }
        return Err(CryptoError::BadHeader);
    }
    assert(all[0] == lines@[0]@);
    let version = match read_header(lines[0]) {
        Some(v) => v,
        None => {
            return Err(CryptoError::BadHeader);
        },
    };
    let mut body = String::new();
    let mut i: usize = 1;
    let ghost rest = all.skip(1);
    assert(rest.take(0) == Seq::<Seq<char>>::empty());
    while i < lines.len()
        invariant
            1 <= i <= lines@.len(),
            all == text::contents(lines@),
            rest == all.skip(1),
            body@ == joined(rest.take(i - 1)),
        decreases lines.len() - i,
    {
        text::push_all(&mut body, lines[i]);
        proof {
            assert(rest[i - 1] == lines@[i as int]@);
            assert(rest.take(i as int).drop_last() == rest.take(i - 1));
        }
        i += 1;
    }
    assert(rest.take(rest.len() as int) == rest);
    let body_chars = text::chars_of(body.as_str());
    let trimmed = text::string_of(text::trim(body_chars.as_slice()));
    let blob = match primitives::base64_decode(trimmed.as_str()) {
        Ok(b) => b,
        Err(_) => {
            return Err(CryptoError::BadBase64);
        },
    };
    split_body(version, blob.as_slice())
}

/// Decrypts a ciphertext.
fn open_bytes(key: &[u8], nonce: &[u8], ciphertext: &[u8]) -> (r: Option<SecretBytes>)
    requires
        key@.len() == KEY_LEN,
        nonce@.len() == NONCE_LEN,
    ensures
        match r {
            Some(p) => opened_bytes(key@, nonce@, ciphertext@) == Some(p@),
            None => opened_bytes(key@, nonce@, ciphertext@) is None,
        },
{
    if ciphertext.len() as u64 > MAX_PLAINTEXT + TAG_LEN as u64 {
        return None;
    }
    match primitives::chacha_open(key, nonce, ciphertext) {
        Ok(p) => Some(SecretBytes::new(p)),
        Err(_) => None,
    }
}

impl Session {
    /// A new session: a fresh salt and the current key derivation. It fails
    /// when there is no randomness, and on a password too long for Argon2.
    pub fn create(password: &[u8]) -> (r: Result<Self, CryptoError>)
        ensures
            match r {
                Ok(s) => {
                    &&& s@.wf()
                    &&& s@.version == 2
                    &&& password@.len() <= MAX_PASSWORD
                    &&& s@.key == derived_key(2, password@, s@.salt)
                },
                Err(e) => {
                    ||| e == CryptoError::Randomness
                    ||| e == CryptoError::KeyDerivation && password@.len() > MAX_PASSWORD
                },
            },
    {
        match primitives::random_bytes(SALT_LEN) {
            Ok(salt) => Session::with_salt(2, salt, password),
            Err(_) => Err(CryptoError::Randomness),
        }
    }

    /// A session of a version for a given salt.
    pub fn with_salt(version: u8, salt: Vec<u8>, password: &[u8]) -> (r: Result<Self, CryptoError>)
        requires
            version == 1 || version == 2,
            salt@.len() == SALT_LEN,
        ensures
            match r {
                Ok(s) => {
                    &&& s@.wf()
                    &&& password@.len() <= MAX_PASSWORD
                    &&& s@ == (SessionView {
                        salt: salt@,
                        key: derived_key(version, password@, salt@),
                        version,
                    })
                },
                Err(e) => e == CryptoError::KeyDerivation && password@.len() > MAX_PASSWORD,
            },
    {
        match derive_key(version, password, salt.as_slice()) {
            Ok(key) => Ok(Session { salt, key, version }),
            Err(e) => Err(e),
        }
    }

    /// Whether this session uses the current key derivation.
    pub fn is_current(&self) -> (r: bool)
        ensures
            r == (self@.version == 2),
    {
        self.version == 2
    }

    /// Encrypts `plaintext` under a fresh nonce and returns the file's text. It
    /// fails when there is no randomness, and on contents too long for the cipher.
    pub fn armor(&self, plaintext: &[u8]) -> (r: Result<String, CryptoError>)
        requires
            self@.wf(),
            encodable(plaintext@),
        ensures
            match r {
                Ok(file) => {
                    &&& plaintext@.len() <= MAX_PLAINTEXT
                    &&& self@.verified(file@) == Ok::<Seq<u8>, CryptoError>(plaintext@)
                    &&& utf8::encode_utf8(file@).len() == armored_len(plaintext@.len())
                    &&& exists|nonce: Seq<u8>|
                        nonce.len() == NONCE_LEN && file@ == #[trigger] self@.armor_of(
                            nonce,
                            plaintext@,
                        )
                },
                Err(e) => {
                    ||| e == CryptoError::Randomness
                    ||| e == CryptoError::Encryption && plaintext@.len() > MAX_PLAINTEXT
                },
            },
    {
        match primitives::random_bytes(NONCE_LEN) {
            Ok(nonce) => {
                if plaintext.len() as u64 > MAX_PLAINTEXT {
                    return Err(CryptoError::Encryption);
                }
                Ok(self.armor_with_nonce(nonce.as_slice(), plaintext))
            },
            Err(_) => Err(CryptoError::Randomness),
        }
    }

    /// Encrypts `plaintext` under a given nonce and returns the file's text. The
    /// text opens again under this session's key.
    pub fn armor_with_nonce(&self, nonce: &[u8], plaintext: &[u8]) -> (r: String)
        requires
            self@.wf(),
            nonce@.len() == NONCE_LEN,
            plaintext@.len() <= MAX_PLAINTEXT,
            encodable(plaintext@),
        ensures
            r@ == self@.armor_of(nonce@, plaintext@),
            parsed_armor(r@) == Ok::<PartsView, CryptoError>(
                PartsView {
                    version: self@.version,
                    salt: self@.salt,
                    nonce: nonce@,
                    ciphertext: primitives::sealed(self@.key, nonce@, plaintext@),
                },
            ),
            primitives::unsealed(
                self@.key,
                nonce@,
                primitives::sealed(self@.key, nonce@, plaintext@),
            ) == Some(plaintext@),
            self@.verified(r@) == Ok::<Seq<u8>, CryptoError>(plaintext@),
            utf8::encode_utf8(r@).len() == armored_len(plaintext@.len()),
    {
        let ciphertext = match primitives::chacha_seal(self.key.as_slice(), nonce, plaintext) {
            Ok(c) => c,
            Err(_) => Vec::new(),
        };
        let mut blob: Vec<u8> = Vec::with_capacity(SALT_LEN + NONCE_LEN + ciphertext.len());
        blob.extend_from_slice(self.salt.as_slice());
        blob.extend_from_slice(nonce);
        blob.extend_from_slice(ciphertext.as_slice());
        assert(blob@ == self.salt@ + nonce@ + ciphertext@);
        let body = primitives::base64_encode(blob.as_slice());
        let mut r = String::new();
        if self.version == 1 {
            r.append("ENVVAULT v1");
        } else {
            r.append("ENVVAULT v2");
        }
        r.push('\n');
        r.append(body.as_str());
        r.push('\n');
        proof {
            assert(r@ == armored(self.version, self.salt@, nonce@, ciphertext@));
            lemma_armor_text(self.version, blob@, r@);
            assert(body_parts(self.version, blob@) =~= PartsView {
                version: self@.version,
                salt: self@.salt,
                nonce: nonce@,
                ciphertext: ciphertext@,
            });
        }
        r
    }

    /// Decrypts a file's text with this session's own key. The version and the
    /// salt of the file must be the session's.
    pub fn decrypt_text(&self, file: &str) -> (r: Result<SecretBytes, CryptoError>)
        requires
            self@.wf(),
        ensures
            match r {
                Ok(p) => self@.verified(file@) == Ok::<Seq<u8>, CryptoError>(p@),
                Err(e) => self@.verified(file@) == Err::<Seq<u8>, CryptoError>(e),
            },
    {
        let p = match parse_armored(file) {
            Ok(p) => p,
            Err(e) => {
                return Err(e);
            },
        };
        if p.version != self.version {
            return Err(CryptoError::WrongVersion);
        }
        if !same_bytes(p.salt.as_slice(), self.salt.as_slice()) {
            return Err(CryptoError::WrongSalt);
        }
        match open_bytes(self.key.as_slice(), p.nonce.as_slice(), p.ciphertext.as_slice()) {
            Some(plaintext) => Ok(plaintext),
            None => Err(CryptoError::NotOurs),
        }
    }

    /// Whether a file that was just written holds `plaintext` under this
    /// session's key.
    pub fn verify_written(&self, file: &str, plaintext: &[u8]) -> (r: Result<(), CryptoError>)
        requires
            self@.wf(),
        ensures
            match self@.verified(file@) {
                Err(e) => r == Err::<(), CryptoError>(e),
                Ok(p) => if p == plaintext@ {
                    r is Ok
                } else {
                    r == Err::<(), CryptoError>(CryptoError::Differs)
                },
            },
    {
        match self.decrypt_text(file) {
            Err(e) => Err(e),
            Ok(p) => if same_bytes(p.as_slice(), plaintext) {
                Ok(())
            } else {
                Err(CryptoError::Differs)
            },
        }
    }
}

/// Whether two byte strings are equal.
pub fn same_bytes(a: &[u8], b: &[u8]) -> (r: bool)
    ensures
        r == (a@ == b@),
{
    if a.len() != b.len() {
        return false;
    }
    let mut i: usize = 0;
    while i < a.len()
        invariant
            i <= a@.len(),
            a@.len() == b@.len(),
            forall|j: int| 0 <= j < i ==> a@[j] == b@[j],
        decreases a.len() - i,
    {
        if a[i] != b[i] {
            return false;
        }
        i += 1;
    }
    assert(a@ =~= b@);
    true
}

/// The length of a file that seals so many bytes.
pub open spec fn armored_len(plaintext: nat) -> nat {
    13 + 4 * ((plaintext + SALT_LEN + NONCE_LEN + TAG_LEN + 2) as nat / 3)
}

/// The parts of an armored text are what was put into it.
proof fn lemma_armor_text(version: u8, blob: Seq<u8>, file: Seq<char>)
    requires
        version == 1 || version == 2,
        blob.len() >= SALT_LEN + NONCE_LEN,
        file == magic(version).push('\n') + primitives::base64_text(blob).push('\n'),
        primitives::base64_bytes(primitives::base64_text(blob)) == Some(blob),
        primitives::base64_text(blob).len() == 4 * ((blob.len() + 2) / 3),
        forall|i: int|
            0 <= i < primitives::base64_text(blob).len() ==> primitives::is_base64(
                #[trigger] primitives::base64_text(blob)[i],
            ),
    ensures
        parsed_armor(file) == Ok::<PartsView, CryptoError>(body_parts(version, blob)),
        utf8::encode_utf8(file).len() == 13 + primitives::base64_text(blob).len(),
{
    let m = magic(version);
    let b = primitives::base64_text(blob);
    reveal_strlit("ENVVAULT v1");
    reveal_strlit("ENVVAULT v2");
    assert(m.len() == 11);
    assert(m[0] == 'E' && m[10] != '\r');
    assert(!text::is_blank(m.last()));
    assert(magic(1)[10] != magic(2)[10]);
    assert forall|i: int| 0 <= i < m.len() implies m[i] != '\n' && m[i] < '\u{80}' by {}
    assert(primitives::is_base64(b[0]) && primitives::is_base64(b[b.len() - 1]));
    assert forall|i: int| 0 <= i < b.len() implies b[i] != '\n' && b[i] < '\u{80}' by {
        assert(primitives::is_base64(b[i]));
    }
    text::lemma_trimmed_id(m);
    text::lemma_trimmed_id(b);
    let e = Seq::<char>::empty();
    assert(text::line_seq(e) == Seq::<Seq<char>>::empty());
    text::lemma_line_seq_push(e, m);
    assert(e + m.push('\n') == m.push('\n'));
    text::lemma_line_seq_push(m.push('\n'), b);
    let lines = text::line_seq(file);
    assert(lines == seq![m, b]);
    assert(lines.skip(1) == seq![b]);
    assert(joined(seq![b]) == b) by {
        assert(seq![b].drop_last() == Seq::<Seq<char>>::empty());
        assert(joined(seq![b].drop_last()) == e);
        assert(e + b == b);
    }
    assert(vstd::utf8::is_ascii_chars(file));
    utf8::is_ascii_chars_encode_utf8(file);
}

/// Opens a vault file's text: derives the key that its version asks for,
/// decrypts, and returns the session, of the same version, and the plaintext.
pub fn open(file: &str, password: &[u8]) -> (r: Result<(Session, SecretBytes), CryptoError>)
    ensures
        match r {
            Ok(p) => {
                &&& p.0@.wf()
                &&& opened(file@, password@) == Ok::<(SessionView, Seq<u8>), CryptoError>(
                    (p.0@, p.1@),
                )
            },
            Err(e) => opened(file@, password@) == Err::<(SessionView, Seq<u8>), CryptoError>(e),
        },
{
    if too_large(file.as_bytes().len() as u64) {
        return Err(CryptoError::TooLarge);
    }
    let p = match parse_armored(file) {
        Ok(p) => p,
        Err(e) => {
            return Err(e);
        },
    };
    let session = match Session::with_salt(p.version, p.salt, password) {
        Ok(s) => s,
        Err(e) => {
            return Err(e);
        },
    };
    match open_bytes(session.key.as_slice(), p.nonce.as_slice(), p.ciphertext.as_slice()) {
        Some(plaintext) => Ok((session, plaintext)),
        None => Err(CryptoError::Decryption),
    }
}

/// The session to go on with after an attempt to seal a file anew under the
/// current key derivation: the new one if there is one, else the old one.
pub fn after_upgrade(old_session: Session, upgraded: Option<Session>) -> (r: Session)
    ensures
        r@ == (match upgraded {
            Some(s) => s@,
            None => old_session@,
        }),
{
    match upgraded {
        Some(s) => s,
        None => old_session,
    }
}

/// Whether a file of so many bytes is refused unread.
pub fn too_large(len: u64) -> (r: bool)
    ensures
        r == (len > MAX_FILE),
        r == (len > 512 * 1024 * 1024),
{
    len > MAX_FILE
}

/// The header line in the first bytes of a file.
pub open spec fn header_bytes(file: Seq<u8>) -> Seq<u8> {
    let head = if file.len() > HEADER_READ {
        file.take(HEADER_READ as int)
    } else {
        file
    };
    head.take(text::first_index(head, 10u8))
}

/// The version of a file from its first `HEADER_READ` bytes alone.
pub fn detect_version(file: &[u8]) -> (r: Result<u8, CryptoError>)
    ensures
        match r {
            Ok(v) => {
                &&& utf8::valid_utf8(header_bytes(file@))
                &&& header_version(utf8::decode_utf8(header_bytes(file@))) == Some(v)
            },
            Err(e) => {
                &&& e == CryptoError::BadHeader
                &&& utf8::valid_utf8(header_bytes(file@)) ==> header_version(
                    utf8::decode_utf8(header_bytes(file@)),
                ) is None
            },
        },
{
    let head = if file.len() > HEADER_READ {
        &file[0..HEADER_READ]
    } else {
        file
    };
    let n = path::find_byte(head, 10);
    let line = &head[0..n];
    assert(line@ == header_bytes(file@));
    match std::str::from_utf8(line) {
        Ok(s) => {
            let chars = text::chars_of(s);
            match read_header(chars.as_slice()) {
                Some(v) => Ok(v),
                None => Err(CryptoError::BadHeader),
            }
        },
        Err(_) => Err(CryptoError::BadHeader),
    }
}

/// A file that a session wrote opens with the password that the session's key
/// comes from, to what was written, and keeps its version and salt.
pub proof fn law_written_file_opens(
    session: SessionView,
    password: Seq<u8>,
    file: Seq<char>,
    plaintext: Seq<u8>,
)
    requires
        session.wf(),
        session.key == derived_key(session.version, password, session.salt),
        password.len() <= MAX_PASSWORD,
        session.verified(file) == Ok::<Seq<u8>, CryptoError>(plaintext),
        utf8::encode_utf8(file).len() <= MAX_FILE,
    ensures
        opened(file, password) == Ok::<(SessionView, Seq<u8>), CryptoError>((session, plaintext)),
{
}

/// Sealing a file anew under a fresh session, as a password change and an
/// upgrade do, keeps its contents and makes it current.
pub proof fn law_rekeying_keeps_contents(
    old_file: Seq<char>,
    old_password: Seq<u8>,
    old_session: SessionView,
    plaintext: Seq<u8>,
    new_session: SessionView,
    new_password: Seq<u8>,
    new_file: Seq<char>,
)
    requires
        opened(old_file, old_password) == Ok::<(SessionView, Seq<u8>), CryptoError>(
            (old_session, plaintext),
        ),
        new_session.wf(),
        new_session.version == 2,
        new_session.key == derived_key(2, new_password, new_session.salt),
        new_password.len() <= MAX_PASSWORD,
        new_session.verified(new_file) == Ok::<Seq<u8>, CryptoError>(plaintext),
        utf8::encode_utf8(new_file).len() <= MAX_FILE,
    ensures
        opened(new_file, new_password) == Ok::<(SessionView, Seq<u8>), CryptoError>(
            (new_session, plaintext),
        ),
{
}

/// A file that verifies under one session verifies under no session of another
/// version or another salt.
pub proof fn law_other_session_refuses(
    session: SessionView,
    other: SessionView,
    file: Seq<char>,
)
    requires
        session.verified(file) is Ok,
        session.version != other.version || session.salt != other.salt,
    ensures
        other.verified(file) is Err,
{
}

/// The version of a file is found in its first bytes.
pub proof fn law_version_is_detected(version: u8, rest: Seq<char>)
    requires
        version == 1 || version == 2,
    ensures
        ({
            let file = utf8::encode_utf8(magic(version).push('\n') + rest);
            &&& utf8::valid_utf8(header_bytes(file))
            &&& header_version(utf8::decode_utf8(header_bytes(file))) == Some(version)
        }),
{
    let m = magic(version);
    let line = m.push('\n');
    let file = utf8::encode_utf8(line + rest);
    reveal_strlit("ENVVAULT v1");
    reveal_strlit("ENVVAULT v2");
    text::lemma_encode_concat(line, rest);
    assert(utf8::is_ascii_chars(line));
    assert(utf8::is_ascii_chars(m));
    utf8::is_ascii_chars_encode_utf8(line);
    utf8::is_ascii_chars_encode_utf8(m);
    let head = if file.len() > HEADER_READ {
        file.take(HEADER_READ as int)
    } else {
        file
    };
    assert forall|i: int| 0 <= i < 11 implies head[i] != 10u8 by {
        assert(head[i] == m[i] as u8);
        assert('\n' as u8 == 10);
        assert(m[i] != '\n');
    }
    assert(head[11] == '\n' as u8);
    text::lemma_first_index_unique(head, 10u8, 11);
    assert(header_bytes(file) == utf8::encode_utf8(m));
    utf8::encode_utf8_valid_utf8(m);
    utf8::encode_utf8_decode_utf8(m);
    text::lemma_trimmed_id(m);
    assert(magic(1)[10] != magic(2)[10]);
}

/// The key of each version is the Argon2id hash of the password and the salt: over
/// 19456 KiB in two passes for the first, over 64 MiB in three for the second.
pub proof fn law_keys_are_derived(password: Seq<u8>, salt: Seq<u8>)
    ensures
        derived_key(1, password, salt) == primitives::argon2id(
            19456u32,
            2u32,
            1u32,
            password,
            salt,
        ),
        derived_key(2, password, salt) == primitives::argon2id(
            65536u32,
            3u32,
            1u32,
            password,
            salt,
        ),
{
}

/// A line is a header exactly if it is `ENVVAULT v1` or `ENVVAULT v2` but for the white
/// space around it.
pub proof fn law_headers_are_known(line: Seq<char>)
    ensures
        ({
            let word = seq!['E', 'N', 'V', 'V', 'A', 'U', 'L', 'T', ' ', 'v'];
            &&& header_version(line) == Some(1u8) <==> text::trimmed(line) == word + seq!['1']
            &&& header_version(line) == Some(2u8) <==> text::trimmed(line) == word + seq!['2']
            &&& header_version(line) matches Some(v) ==> v == 1 || v == 2
        }),
{
    let word = seq!['E', 'N', 'V', 'V', 'A', 'U', 'L', 'T', ' ', 'v'];
    reveal_strlit("ENVVAULT v1");
    reveal_strlit("ENVVAULT v2");
    assert("ENVVAULT v1"@ =~= word + seq!['1']);
    assert("ENVVAULT v2"@ =~= word + seq!['2']);
    assert((word + seq!['1'])[10] == '1');
    assert((word + seq!['2'])[10] == '2');
}

/// A body is a salt of sixteen bytes, a nonce of twelve, and the ciphertext.
pub proof fn law_bodies_are_taken_apart(
    version: u8,
    salt: Seq<u8>,
    nonce: Seq<u8>,
    ciphertext: Seq<u8>,
)
    requires
        salt.len() == 16,
        nonce.len() == 12,
    ensures
        body_parts(version, salt + nonce + ciphertext) == (PartsView {
            version,
            salt,
            nonce,
            ciphertext,
        }),
{
    let p = body_parts(version, salt + nonce + ciphertext);
    assert(p.salt =~= salt);
    assert(p.nonce =~= nonce);
    assert(p.ciphertext =~= ciphertext);
}

proof fn lemma_joined_first(first: Seq<char>, lines: Seq<Seq<char>>)
    ensures
        joined(seq![first] + lines) == first + joined(lines),
        joined(Seq::empty()) == Seq::<char>::empty(),
    decreases lines.len(),
{
    let all = seq![first] + lines;
    let none = Seq::<Seq<char>>::empty();
    assert(joined(none) =~= Seq::<char>::empty());
    if lines.len() == 0 {
        assert(all.drop_last() =~= none);
        assert(lines =~= none);
        assert(joined(all) =~= first + joined(lines));
    } else {
        lemma_joined_first(first, lines.drop_last());
        assert(all.drop_last() =~= seq![first] + lines.drop_last());
        assert(joined(all) =~= first + joined(lines));
    }
}

proof fn lemma_armor_lines(header: Seq<char>, rest: Seq<char>)
    requires
        !header.contains('\n'),
    ensures
        parsed_armor(header + seq!['\n'] + rest) == (match header_version(header) {
            None => Err::<PartsView, CryptoError>(CryptoError::BadHeader),
            Some(version) => match primitives::base64_bytes(
                text::trimmed(joined(text::line_seq(rest))),
            ) {
                None => Err(CryptoError::BadBase64),
                Some(blob) => if blob.len() < 28 {
                    Err(CryptoError::Truncated)
                } else {
                    Ok(body_parts(version, blob))
                },
            },
        }),
{
    let file = header + seq!['\n'] + rest;
    text::law_lines(header, rest);
    text::lemma_trimmed_without_return(header);
    let lines = text::line_seq(file);
    assert(lines[0] == text::without_return(header));
    assert(lines.skip(1) =~= text::line_seq(rest));
}

/// A file is a header line and a Base64 body: without a known header, without Base64,
/// and without room for a salt and a nonce it is refused for that reason, and otherwise
/// it has the header's version and the body's parts.
pub proof fn law_files_are_taken_apart(header: Seq<char>, body: Seq<char>)
    requires
        !header.contains('\n'),
        !body.contains('\n'),
    ensures
        ({
            let r = parsed_armor(header + seq!['\n'] + body + seq!['\n']);
            let blob = primitives::base64_bytes(text::trimmed(body));
            &&& r == Err::<PartsView, CryptoError>(CryptoError::BadHeader) <==> header_version(
                header,
            ) is None
            &&& r == Err::<PartsView, CryptoError>(CryptoError::BadBase64) <==> header_version(
                header,
            ) is Some && blob is None
            &&& r == Err::<PartsView, CryptoError>(CryptoError::Truncated) <==> header_version(
                header,
            ) is Some && blob is Some && blob->0.len() < 28
            &&& r is Ok <==> header_version(header) is Some && blob is Some && blob->0.len() >= 28
            &&& r matches Ok(p) ==> {
                &&& header_version(header) == Some(p.version)
                &&& p.salt.len() == 16 && p.nonce.len() == 12
                &&& blob == Some(p.salt + p.nonce + p.ciphertext)
            }
        }),
{
    let rest = body + seq!['\n'];
    let none = Seq::<char>::empty();
    assert(header + seq!['\n'] + body + seq!['\n'] =~= header + seq!['\n'] + rest);
    lemma_armor_lines(header, rest);
    text::law_lines(body, none);
    assert(body + seq!['\n'] + none =~= rest);
    text::lemma_trimmed_without_return(body);
    let line = text::without_return(body);
    let lines = text::line_seq(rest);
    assert(lines =~= seq![line] + Seq::<Seq<char>>::empty());
    lemma_joined_first(line, Seq::empty());
    assert(line + joined(Seq::empty()) =~= line);
    let blob = primitives::base64_bytes(text::trimmed(body));
    if header_version(header) is Some && blob is Some && blob->0.len() >= 28 {
        let p = body_parts(header_version(header)->0, blob->0);
        assert(blob->0 =~= p.salt + p.nonce + p.ciphertext);
    }
}

/// A body may be wrapped: it is read as if a line of it went on without the line end.
pub proof fn law_bodies_may_be_wrapped(
    header: Seq<char>,
    before: Seq<char>,
    after: Seq<char>,
    rest: Seq<char>,
)
    requires
        !header.contains('\n'),
        !before.contains('\n'),
        !after.contains('\n'),
        before.len() > 0 ==> before.last() != '\r',
    ensures
        parsed_armor(
            header + seq!['\n'] + before + seq!['\n'] + after + seq!['\n'] + rest,
        ) == parsed_armor(header + seq!['\n'] + before + after + seq!['\n'] + rest),
        parsed_armor(
            header + seq!['\n'] + before + seq!['\r', '\n'] + after + seq!['\n'] + rest,
        ) == parsed_armor(header + seq!['\n'] + before + after + seq!['\n'] + rest),
{
    let tail = after + seq!['\n'] + rest;
    let split = before + seq!['\n'] + tail;
    let back = before + seq!['\r'];
    let split_back = back + seq!['\n'] + tail;
    let line = before + after;
    let whole = line + seq!['\n'] + rest;
    assert(header + seq!['\n'] + before + seq!['\n'] + after + seq!['\n'] + rest =~= header + seq![
        '\n',
    ] + split);
    assert(header + seq!['\n'] + before + seq!['\r', '\n'] + after + seq!['\n'] + rest =~= header
        + seq!['\n'] + split_back);
    assert(header + seq!['\n'] + before + after + seq!['\n'] + rest =~= header + seq!['\n']
        + whole);
    lemma_armor_lines(header, split);
    lemma_armor_lines(header, split_back);
    lemma_armor_lines(header, whole);
    assert forall|i: int| 0 <= i < back.len() implies back[i] != '\n' by {
        if i < before.len() {
            assert(back[i] == before[i]);
        }
    }
    assert forall|i: int| 0 <= i < line.len() implies line[i] != '\n' by {
        if i < before.len() {
            assert(line[i] == before[i]);
        } else {
            assert(line[i] == after[i - before.len()]);
        }
    }
    text::law_lines(before, tail);
    text::law_lines(back, tail);
    text::law_lines(after, rest);
    text::law_lines(line, rest);
    assert(back.take(back.len() - 1) =~= before);
    let more = text::line_seq(rest);
    let end = text::without_return(after);
    let all = text::without_return(line);
    lemma_joined_first(end, more);
    lemma_joined_first(before, seq![end] + more);
    lemma_joined_first(all, more);
    assert(text::line_seq(tail) == seq![end] + more);
    assert(text::line_seq(split) == seq![before] + (seq![end] + more));
    assert(text::line_seq(split_back) == seq![before] + (seq![end] + more));
    assert(text::line_seq(whole) == seq![all] + more);
    if after.len() > 0 {
        assert(line.last() == after.last());
    } else {
        assert(line =~= before);
    }
    assert(all =~= before + end);
    assert(before + (end + joined(more)) =~= all + joined(more));
}

/// A file opens exactly if it is no larger than 512 MiB, has the parts of a vault file,
/// and the key that its version derives from the password and its salt unseals its
/// ciphertext; the session keeps that version, salt and key.
pub proof fn law_opening_takes_the_key(
    file: Seq<char>,
    password: Seq<u8>,
    session: SessionView,
    plaintext: Seq<u8>,
)
    ensures
        opened(file, password) == Ok::<(SessionView, Seq<u8>), CryptoError>((session, plaintext))
            <==> {
            &&& utf8::encode_utf8(file).len() <= 536870912
            &&& password.len() <= MAX_PASSWORD
            &&& parsed_armor(file) is Ok
            &&& parsed_armor(file)->Ok_0.ciphertext.len() <= MAX_PLAINTEXT + 16
            &&& session.version == parsed_armor(file)->Ok_0.version
            &&& session.salt == parsed_armor(file)->Ok_0.salt
            &&& session.key == derived_key(session.version, password, session.salt)
            &&& primitives::unsealed(
                session.key,
                parsed_armor(file)->Ok_0.nonce,
                parsed_armor(file)->Ok_0.ciphertext,
            ) == Some(plaintext)
        },
        opened(file, password) == Err::<(SessionView, Seq<u8>), CryptoError>(CryptoError::TooLarge)
            <==> utf8::encode_utf8(file).len() > 536870912,
{
}

/// A written file verifies exactly if it has the session's version and salt and unseals
/// under the session's key.
pub proof fn law_verifying_takes_the_key(
    session: SessionView,
    file: Seq<char>,
    plaintext: Seq<u8>,
)
    ensures
        session.verified(file) == Ok::<Seq<u8>, CryptoError>(plaintext) <==> {
            &&& parsed_armor(file) is Ok
            &&& parsed_armor(file)->Ok_0.version == session.version
            &&& parsed_armor(file)->Ok_0.salt == session.salt
            &&& parsed_armor(file)->Ok_0.ciphertext.len() <= MAX_PLAINTEXT + 16
            &&& primitives::unsealed(
                session.key,
                parsed_armor(file)->Ok_0.nonce,
                parsed_armor(file)->Ok_0.ciphertext,
            ) == Some(plaintext)
        },
{
}

/// The header of a file is its first line, looked for in the first 64 bytes only.
pub proof fn law_header_is_the_first_line(line: Seq<u8>, rest: Seq<u8>)
    requires
        !line.contains(10u8),
    ensures
        line.len() < 64 ==> header_bytes(line + seq![10u8] + rest) == line,
        line.len() <= 64 ==> header_bytes(line) == line,
        line.len() >= 64 ==> header_bytes(line + rest) == line.take(64),
{
    if line.len() < 64 {
        let file = line + seq![10u8] + rest;
        let head = if file.len() > 64 {
            file.take(64)
        } else {
            file
        };
        assert forall|i: int| 0 <= i < line.len() implies head[i] != 10u8 by {
            assert(head[i] == line[i]);
        }
        assert(head[line.len() as int] == 10u8);
        text::lemma_first_index_unique(head, 10u8, line.len() as int);
        assert(head.take(line.len() as int) =~= line);
    }
    if line.len() <= 64 {
        text::lemma_first_index(line, 10u8);
        if text::first_index(line, 10u8) < line.len() {
            assert(line[text::first_index(line, 10u8)] == 10u8);
        }
        assert(line.take(line.len() as int) =~= line);
    }
    if line.len() >= 64 {
        let file = line + rest;
        let head = if file.len() > 64 {
            file.take(64)
        } else {
            file
        };
        assert(head =~= line.take(64));
        text::lemma_first_index(head, 10u8);
        let n = text::first_index(head, 10u8);
        if n < head.len() {
            assert(head[n] == 10u8 && head[n] == line[n]);
        }
        assert(head.take(head.len() as int) =~= head);
    }
}

/// What a session writes is a header line of its version and one line that is the
/// Base64 text of its salt, the nonce and the sealed contents.
pub proof fn law_written_file_is_two_lines(
    session: SessionView,
    nonce: Seq<u8>,
    plaintext: Seq<u8>,
)
    requires
        session.wf(),
    ensures
        ({
            let word = seq!['E', 'N', 'V', 'V', 'A', 'U', 'L', 'T', ' ', 'v'];
            let digit = if session.version == 1 {
                '1'
            } else {
                '2'
            };
            session.armor_of(nonce, plaintext) == word + seq![digit] + seq!['\n']
                + primitives::base64_text(
                session.salt + nonce + primitives::sealed(session.key, nonce, plaintext),
            ) + seq!['\n']
        }),
{
    let word = seq!['E', 'N', 'V', 'V', 'A', 'U', 'L', 'T', ' ', 'v'];
    let digit = if session.version == 1 {
        '1'
    } else {
        '2'
    };
    reveal_strlit("ENVVAULT v1");
    reveal_strlit("ENVVAULT v2");
    let body = primitives::base64_text(
        session.salt + nonce + primitives::sealed(session.key, nonce, plaintext),
    );
    assert(magic(session.version) =~= word + seq![digit]);
    assert(session.armor_of(nonce, plaintext) =~= word + seq![digit] + seq!['\n'] + body + seq![
        '\n',
    ]);
}

/// A file without a line feed is its header alone: it is refused where that is none, an
/// empty file among them, and has an empty body otherwise.
pub proof fn law_one_line_has_no_body(line: Seq<char>)
    requires
        !line.contains('\n'),
    ensures
        header_version(line) is None ==> parsed_armor(line) == Err::<PartsView, CryptoError>(
            CryptoError::BadHeader,
        ),
        line.len() == 0 ==> header_version(line) is None,
        header_version(line) is Some ==> parsed_armor(line) == parsed_armor(line + seq!['\n']),
{
    let none = Seq::<char>::empty();
    text::law_lines(line, none);
    assert(line + seq!['\n'] + none =~= line + seq!['\n']);
    lemma_armor_lines(line, none);
    lemma_joined_first(none, Seq::empty());
    law_headers_are_known(line);
    if line.len() == 0 {
        assert(line =~= none);
        text::law_trimming(none, none, none);
        reveal_strlit("ENVVAULT v1");
        reveal_strlit("ENVVAULT v2");
        assert(text::trimmed(line).len() == 0);
    } else {
        assert(text::line_seq(line).skip(1) =~= Seq::<Seq<char>>::empty());
    }
}

} // verus!
