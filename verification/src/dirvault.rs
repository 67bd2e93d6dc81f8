//! Directory and single-file vaults: a directory, or one file, kept encrypted at
//! rest.
//!
//! The plaintext of such a vault is a container: a magic word, a kind byte, the
//! length and bytes of the path it belongs at, and an archive. The path is
//! encrypted with the rest.
use crate::crypto;
use crate::crypto::CryptoError;
use crate::crypto::Session;
use crate::crypto::SessionView;
use crate::path::FsPath;
use crate::primitives::MAX_PASSWORD;
use crate::secret::SecretBytes;
use vstd::prelude::*;
use vstd::utf8;

verus! {

/// Containers above this size are refused: 256 MiB.
pub const MAX_ARCHIVE: usize = 268435456;

/// The longest path that a container takes.
pub const MAX_PATH: usize = 65535;

/// What a vault holds: a whole directory, or a single file.
#[derive(Clone, Copy, PartialEq, Eq, Debug, Structural)]
pub enum Kind {
    Dir,
    File,
}

impl Kind {
    pub open spec fn byte(self) -> u8 {
        match self {
            Kind::Dir => 0,
            Kind::File => 1,
        }
    }

    /// The kind of what a path is found to be.
    pub fn of(is_dir: bool) -> (r: Kind)
        ensures
            r == (if is_dir {
                Kind::Dir
            } else {
                Kind::File
            }),
    {
        if is_dir {
            Kind::Dir
        } else {
            Kind::File
        }
    }

    pub fn to_byte(self) -> (r: u8)
        ensures
            r == self.byte(),
    {
        match self {
            Kind::Dir => 0,
            Kind::File => 1,
        }
    }

    pub fn from_byte(b: u8) -> (r: Option<Kind>)
        ensures
            match r {
                Some(k) => k.byte() == b,
                None => b > 1,
            },
    {
        match b {
            0 => Some(Kind::Dir),
            1 => Some(Kind::File),
            _ => None,
        }
    }
}

/// Why a container was not made, or is none.
#[derive(Clone, Copy, Debug, PartialEq, Eq, Structural)]
pub enum ContainerError {
    /// The target path is not UTF-8.
    PathNotText,
    /// The target path is too long.
    PathTooLong,
    /// There is more than `MAX_ARCHIVE`.
    TooLarge,
    /// The first bytes are not those of a container.
    BadHeader,
    /// The kind byte is unknown.
    UnknownKind(u8),
    /// The path is cut short.
    Truncated,
}

/// The magic word `EVD1`.
pub open spec fn magic() -> Seq<u8> {
    seq![69u8, 86u8, 68u8, 49u8]
}

/// A length of at most two bytes, the low one first.
pub open spec fn length_bytes(n: nat) -> Seq<u8> {
    seq![(n % 256) as u8, (n / 256) as u8]
}

/// The bytes of a container.
pub open spec fn container(kind: Kind, target: Seq<u8>, archive: Seq<u8>) -> Seq<u8> {
    magic() + seq![kind.byte()] + length_bytes(target.len()) + target + archive
}

/// What packing an archive for a target gives.
pub open spec fn packed(kind: Kind, target: Seq<u8>, archive: Seq<u8>) -> Result<
    Seq<u8>,
    ContainerError,
> {
    if !utf8::valid_utf8(target) {
        Err(ContainerError::PathNotText)
    } else if target.len() > MAX_PATH {
        Err(ContainerError::PathTooLong)
    } else if container(kind, target, archive).len() > MAX_ARCHIVE {
        Err(ContainerError::TooLarge)
    } else {
        Ok(container(kind, target, archive))
    }
}

/// The kind, target and archive of a container.
pub open spec fn unpacked(blob: Seq<u8>) -> Result<(Kind, Seq<u8>, Seq<u8>), ContainerError> {
    if blob.len() < 7 || blob.take(4) != magic() {
        Err(ContainerError::BadHeader)
    } else if blob[4] > 1 {
        Err(ContainerError::UnknownKind(blob[4]))
    } else {
        let kind = if blob[4] == 0 {
            Kind::Dir
        } else {
            Kind::File
        };
        let n = blob[5] + 256 * blob[6];
        let rest = blob.skip(7);
        if rest.len() < n {
            Err(ContainerError::Truncated)
        } else if !utf8::valid_utf8(rest.take(n)) {
            Err(ContainerError::PathNotText)
        } else {
            Ok((kind, rest.take(n), rest.skip(n)))
        }
    }
}

/// Puts an archive of a directory or file into a container for its target.
pub fn pack(kind: Kind, target: &FsPath, archive: &[u8]) -> (r: Result<SecretBytes, ContainerError>)
    ensures
        match r {
            Ok(b) => packed(kind, target@, archive@) == Ok::<Seq<u8>, ContainerError>(b@),
            Err(e) => packed(kind, target@, archive@) == Err::<Seq<u8>, ContainerError>(e),
        },
{
    let place = target.as_bytes();
    if std::str::from_utf8(place).is_err() {
        return Err(ContainerError::PathNotText);
    }
    if place.len() > MAX_PATH {
        return Err(ContainerError::PathTooLong);
    }
    if archive.len() > MAX_ARCHIVE {
        return Err(ContainerError::TooLarge);
    }
    let mut blob: Vec<u8> = Vec::with_capacity(7 + place.len() + archive.len());
    blob.push(69);
    blob.push(86);
    blob.push(68);
    blob.push(49);
    blob.push(kind.to_byte());
    blob.push((place.len() % 256) as u8);
    blob.push((place.len() / 256) as u8);
    blob.extend_from_slice(place);
    blob.extend_from_slice(archive);
    assert(blob@ =~= container(kind, target@, archive@));
    let r = SecretBytes::new(blob);
    if r.len() > MAX_ARCHIVE {
        return Err(ContainerError::TooLarge);
    }
    Ok(r)
}

/// Takes a container apart.
pub fn unpack<'a>(blob: &'a [u8]) -> (r: Result<(Kind, FsPath, &'a [u8]), ContainerError>)
    ensures
        match r {
            Ok(p) => unpacked(blob@) == Ok::<(Kind, Seq<u8>, Seq<u8>), ContainerError>(
                (p.0, p.1@, p.2@),
            ),
            Err(e) => unpacked(blob@) == Err::<(Kind, Seq<u8>, Seq<u8>), ContainerError>(e),
        },
{
    if blob.len() < 7 {
        return Err(ContainerError::BadHeader);
    }
    if blob[0] != 69 || blob[1] != 86 || blob[2] != 68 || blob[3] != 49 {
        assert(blob@.take(4) != magic()) by {
            let t = blob@.take(4);
            assert(t[0] != magic()[0] || t[1] != magic()[1] || t[2] != magic()[2] || t[3]
                != magic()[3]);
        }
        return Err(ContainerError::BadHeader);
    }
    assert(blob@.take(4) =~= magic());
    let kind = match Kind::from_byte(blob[4]) {
        Some(k) => k,
        None => {
            return Err(ContainerError::UnknownKind(blob[4]));
        },
    };
    let n: usize = blob[5] as usize + 256 * (blob[6] as usize);
    let rest = &blob[7..blob.len()];
    assert(rest@ =~= blob@.skip(7));
    if rest.len() < n {
        return Err(ContainerError::Truncated);
    }
    let place = &rest[0..n];
    assert(place@ =~= rest@.take(n as int));
    if std::str::from_utf8(place).is_err() {
        return Err(ContainerError::PathNotText);
    }
    let archive = &rest[n..rest.len()];
    assert(archive@ =~= rest@.skip(n as int));
    Ok((kind, FsPath::new(vstd::slice::slice_to_vec(place)), archive))
}

/// Unpacking what was packed gives the kind, the target and the archive back.
pub proof fn law_unpack_packed(kind: Kind, target: Seq<u8>, archive: Seq<u8>)
    requires
        packed(kind, target, archive) is Ok,
    ensures
        unpacked(packed(kind, target, archive)->Ok_0) == Ok::<
            (Kind, Seq<u8>, Seq<u8>),
            ContainerError,
        >((kind, target, archive)),
{
    let b = container(kind, target, archive);
    assert(b.take(4) =~= magic());
    assert(b[4] == kind.byte());
    assert(b[5] == (target.len() % 256) as u8);
    assert(b[6] == (target.len() / 256) as u8);
    assert(b.skip(7) =~= target + archive);
    assert((target + archive).take(target.len() as int) =~= target);
    assert((target + archive).skip(target.len() as int) =~= archive);
}

/// Why a directory vault was not created or opened.
#[derive(Clone, Copy, Debug, PartialEq, Eq, Structural)]
pub enum DirVaultError {
    Crypto(CryptoError),
    Container(ContainerError),
}

/// What an open vault holds.
#[verifier::ext_equal]
pub struct DirVaultView {
    pub session: SessionView,
    pub kind: Kind,
    pub target: Seq<u8>,
    pub plaintext: Seq<u8>,
}

impl DirVaultView {
    /// The kind and the target are those of the container.
    pub open spec fn wf(self) -> bool {
        &&& self.session.wf()
        &&& unpacked(self.plaintext) is Ok
        &&& unpacked(self.plaintext)->Ok_0.0 == self.kind
        &&& unpacked(self.plaintext)->Ok_0.1 == self.target
    }

    /// The vault after an attempt to seal it anew under a current session.
    pub open spec fn upgraded(self, renewed: Option<SessionView>) -> DirVaultView {
        match renewed {
            Some(session) if self.session.version != 2 => DirVaultView { session, ..self },
            _ => self,
        }
    }
}

/// An open vault: the session, for saving again without asking for the password,
/// and the decrypted container, overwritten on drop.
pub struct DirVault {
    session: Session,
    kind: Kind,
    target: FsPath,
    plaintext: SecretBytes,
}

impl View for DirVault {
    type V = DirVaultView;

    closed spec fn view(&self) -> DirVaultView {
        DirVaultView {
            session: self.session@,
            kind: self.kind,
            target: self.target@,
            plaintext: self.plaintext@,
        }
    }
}

/// Makes the container and the session of a new vault. The container is what is
/// to be saved under the session.
pub fn create(password: &[u8], kind: Kind, target: &FsPath, archive: &[u8]) -> (r: Result<
    (Session, SecretBytes),
    DirVaultError,
>)
    ensures
        match r {
            Ok(p) => {
                &&& p.0@.wf()
                &&& p.0@.version == 2
                &&& password@.len() <= MAX_PASSWORD
                &&& p.0@.key == crypto::derived_key(2, password@, p.0@.salt)
                &&& packed(kind, target@, archive@) == Ok::<Seq<u8>, ContainerError>(p.1@)
            },
            Err(DirVaultError::Container(e)) => packed(kind, target@, archive@) == Err::<
                Seq<u8>,
                ContainerError,
            >(e),
            Err(DirVaultError::Crypto(e)) => {
                &&& packed(kind, target@, archive@) is Ok
                &&& e == CryptoError::Randomness || e == CryptoError::KeyDerivation
                    && password@.len() > MAX_PASSWORD
            },
        },
{
    match pack(kind, target, archive) {
        Err(e) => Err(DirVaultError::Container(e)),
        Ok(blob) => match Session::create(password) {
            Err(e) => Err(DirVaultError::Crypto(e)),
            Ok(session) => Ok((session, blob)),
        },
    }
}

/// Opens a vault file's text: decrypts it and takes the kind and target out of
/// the container.
pub fn open(file: &str, password: &[u8]) -> (r: Result<DirVault, DirVaultError>)
    ensures
        match crypto::opened(file@, password@) {
            Err(e) => r matches Err(x) && x == DirVaultError::Crypto(e),
            Ok(p) => match unpacked(p.1) {
                Err(e) => r matches Err(x) && x == DirVaultError::Container(e),
                Ok(c) => r matches Ok(v) && v@.wf() && v@ == (DirVaultView {
                    session: p.0,
                    kind: c.0,
                    target: c.1,
                    plaintext: p.1,
                }),
            },
        },
{
    match crypto::open(file, password) {
        Err(e) => Err(DirVaultError::Crypto(e)),
        Ok((session, plaintext)) => match unpack(plaintext.as_slice()) {
            Err(e) => Err(DirVaultError::Container(e)),
            Ok((kind, target, _)) => Ok(DirVault { session, kind, target, plaintext }),
        },
    }
}

impl DirVault {
    /// The path that this vault was created from.
    pub fn target(&self) -> (r: &FsPath)
        ensures
            r@ == self@.target,
    {
        &self.target
    }

    /// Whether this vault holds a directory or a single file.
    pub fn kind(&self) -> (r: Kind)
        ensures
            r == self@.kind,
    {
        self.kind
    }

    /// Whether the session uses the current key derivation.
    pub fn is_current(&self) -> (r: bool)
        ensures
            r == (self@.session.version == 2),
    {
        self.session.is_current()
    }

    /// The decrypted container.
    pub fn plaintext(&self) -> (r: &[u8])
        ensures
            r@ == self@.plaintext,
    {
        self.plaintext.as_slice()
    }

    /// The session that this vault is saved under.
    pub fn session(&self) -> (r: &Session)
        ensures
            r@ == self@.session,
    {
        &self.session
    }

    /// The archive in the container.
    pub fn archive(&self) -> (r: &[u8])
        requires
            self@.wf(),
        ensures
            r@ == unpacked(self@.plaintext)->Ok_0.2,
    {
        match unpack(self.plaintext.as_slice()) {
            Ok((_, _, archive)) => archive,
            Err(_) => self.plaintext.as_slice(),
        }
    }

    /// A fresh archive of the live directory or file in a container of the same
    /// kind and target, to be saved under the same session.
    pub fn repack(&self, archive: &[u8]) -> (r: Result<SecretBytes, ContainerError>)
        ensures
            match r {
                Ok(b) => packed(self@.kind, self@.target, archive@) == Ok::<
                    Seq<u8>,
                    ContainerError,
                >(b@),
                Err(e) => packed(self@.kind, self@.target, archive@) == Err::<
                    Seq<u8>,
                    ContainerError,
                >(e),
            },
    {
        pack(self.kind, &self.target, archive)
    }

    /// The vault to go on with after opening it: a legacy vault that was sealed
    /// anew under a current session goes on with that session; one that was not,
    /// and a vault that is current already, stay as they are.
    pub fn after_upgrade(self, renewed: Option<Session>) -> (r: DirVault)
        requires
            self@.wf(),
            renewed matches Some(s) ==> s@.wf(),
        ensures
            r@.wf(),
            r@ == self@.upgraded(
                match renewed {
                    Some(s) => Some(s@),
                    None => None,
                },
            ),
    {
        if self.session.is_current() {
            return self;
        }
        match renewed {
            None => self,
            Some(session) => DirVault {
                session,
                kind: self.kind,
                target: self.target,
                plaintext: self.plaintext,
            },
        }
    }
}

/// A vault that was saved opens again, with the password that its key comes
/// from, to the kind, the target and the archive that went into it.
pub proof fn law_saved_vault_opens(
    session: SessionView,
    password: Seq<u8>,
    file: Seq<char>,
    kind: Kind,
    target: Seq<u8>,
    archive: Seq<u8>,
)
    requires
        session.wf(),
        session.key == crypto::derived_key(session.version, password, session.salt),
        password.len() <= MAX_PASSWORD,
        packed(kind, target, archive) is Ok,
        session.verified(file) == Ok::<Seq<u8>, CryptoError>(packed(kind, target, archive)->Ok_0),
        utf8::encode_utf8(file).len() <= crypto::MAX_FILE,
    ensures
        crypto::opened(file, password) is Ok,
        unpacked(crypto::opened(file, password)->Ok_0.1) == Ok::<
            (Kind, Seq<u8>, Seq<u8>),
            ContainerError,
        >((kind, target, archive)),
{
    crypto::law_written_file_opens(session, password, file, packed(kind, target, archive)->Ok_0);
    law_unpack_packed(kind, target, archive);
}

/// Opening a legacy vault and sealing it anew with the same password makes it
/// current and keeps its kind, target and contents, in hand and in the new file.
/// Where that fails the vault in hand stays as it was opened, and a current vault
/// always does.
pub proof fn law_opening_upgrades(
    file: Seq<char>,
    password: Seq<u8>,
    vault: DirVaultView,
    renewed: SessionView,
    new_file: Seq<char>,
)
    requires
        vault.wf(),
        crypto::opened(file, password) == Ok::<(SessionView, Seq<u8>), CryptoError>(
            (vault.session, vault.plaintext),
        ),
        renewed.wf(),
        renewed.version == 2,
        renewed.key == crypto::derived_key(2, password, renewed.salt),
        renewed.verified(new_file) == Ok::<Seq<u8>, CryptoError>(vault.plaintext),
        utf8::encode_utf8(new_file).len() <= crypto::MAX_FILE,
    ensures
        vault.upgraded(None) == vault,
        vault.session.version == 2 ==> vault.upgraded(Some(renewed)) == vault,
        vault.session.version == 1 ==> {
            let after = vault.upgraded(Some(renewed));
            &&& after.wf()
            &&& after.session.version == 2
            &&& after.kind == vault.kind
            &&& after.target == vault.target
            &&& after.plaintext == vault.plaintext
            &&& crypto::opened(new_file, password) == Ok::<(SessionView, Seq<u8>), CryptoError>(
                (after.session, after.plaintext),
            )
        },
{
    crypto::law_rekeying_keeps_contents(
        file,
        password,
        vault.session,
        vault.plaintext,
        renewed,
        password,
        new_file,
    );
}

/// Every container is small enough for its vault file to be opened.
pub proof fn law_container_file_fits(kind: Kind, target: Seq<u8>, archive: Seq<u8>)
    requires
        packed(kind, target, archive) is Ok,
    ensures
        crypto::armored_len(packed(kind, target, archive)->Ok_0.len()) <= crypto::MAX_FILE,
{
}

/// A container is the word `EVD1`, a byte for the kind, the length of the target's path
/// with its low byte first, the path and the archive.
pub proof fn law_container_layout(kind: Kind, target: Seq<u8>, archive: Seq<u8>)
    requires
        packed(kind, target, archive) is Ok,
    ensures
        ({
            let b = packed(kind, target, archive)->Ok_0;
            let n = target.len() as int;
            &&& b.len() == 7 + n + archive.len()
            &&& b[0] == 0x45 && b[1] == 0x56 && b[2] == 0x44 && b[3] == 0x31
            &&& b[4] == (if kind == Kind::Dir {
                0u8
            } else {
                1u8
            })
            &&& b[5] + 256 * b[6] == n
            &&& b.subrange(7, 7 + n) == target
            &&& b.skip(7 + n) == archive
        }),
{
    let b = packed(kind, target, archive)->Ok_0;
    let n = target.len() as int;
    assert(b[5] == (n % 256) as u8 && b[6] == (n / 256) as u8);
    assert(b.subrange(7, 7 + n) =~= target);
    assert(b.skip(7 + n) =~= archive);
}

/// Packing takes a path that is text and no longer than its length field holds, and an
/// archive with which the container is no larger than 256 MiB; it refuses anything else
/// for the first of these reasons.
pub proof fn law_packing_refuses(kind: Kind, target: Seq<u8>, archive: Seq<u8>)
    ensures
        ({
            let r = packed(kind, target, archive);
            let size = 7 + target.len() + archive.len();
            let text = utf8::valid_utf8(target);
            &&& r is Ok <==> text && target.len() <= 65535 && size <= 268435456
            &&& r == Err::<Seq<u8>, ContainerError>(ContainerError::PathNotText) <==> !text
            &&& r == Err::<Seq<u8>, ContainerError>(ContainerError::PathTooLong) <==> text
                && target.len() > 65535
            &&& r == Err::<Seq<u8>, ContainerError>(ContainerError::TooLarge) <==> text
                && target.len() <= 65535 && size > 268435456
        }),
{
}

/// Bytes are unpacked exactly if they have the layout of a container with a path that is
/// text, and each defect is told by its name.
pub proof fn law_unpacking_refuses(blob: Seq<u8>)
    ensures
        ({
            let r = unpacked(blob);
            let headed = blob.len() >= 7 && blob[0] == 0x45 && blob[1] == 0x56 && blob[2] == 0x44
                && blob[3] == 0x31;
            let n = blob[5] + 256 * blob[6];
            &&& r == Err::<(Kind, Seq<u8>, Seq<u8>), ContainerError>(ContainerError::BadHeader)
                <==> !headed
            &&& headed && blob[4] > 1 <==> r == Err::<(Kind, Seq<u8>, Seq<u8>), ContainerError>(
                ContainerError::UnknownKind(blob[4]),
            )
            &&& r == Err::<(Kind, Seq<u8>, Seq<u8>), ContainerError>(ContainerError::Truncated)
                <==> headed && blob[4] <= 1 && blob.len() < 7 + n
            &&& r == Err::<(Kind, Seq<u8>, Seq<u8>), ContainerError>(ContainerError::PathNotText)
                <==> headed && blob[4] <= 1 && blob.len() >= 7 + n && !utf8::valid_utf8(
                blob.subrange(7, 7 + n),
            )
            &&& r is Ok <==> headed && blob[4] <= 1 && blob.len() >= 7 + n && utf8::valid_utf8(
                blob.subrange(7, 7 + n),
            )
            &&& r matches Ok(p) ==> {
                &&& p.0 == Kind::Dir <==> blob[4] == 0
                &&& p.1 == blob.subrange(7, 7 + n)
                &&& p.2 == blob.skip(7 + n)
            }
        }),
{
    let n = blob[5] + 256 * blob[6];
    if blob.len() >= 7 {
        let t = blob.take(4);
        if t == magic() {
            assert(t[0] == blob[0] && t[1] == blob[1] && t[2] == blob[2] && t[3] == blob[3]);
        }
        if blob[0] == 0x45 && blob[1] == 0x56 && blob[2] == 0x44 && blob[3] == 0x31 {
            assert(t =~= magic());
        }
        if blob.len() >= 7 + n {
            assert(blob.skip(7).take(n) =~= blob.subrange(7, 7 + n));
            assert(blob.skip(7).skip(n) =~= blob.skip(7 + n));
        }
    }
}

/// An open vault is its container: the kind and the target in hand are those that the
/// decrypted bytes name, whatever the archive.
pub proof fn law_open_vault_is_its_container(vault: DirVaultView)
    requires
        vault.wf(),
    ensures
        ({
            let n = vault.plaintext[5] + 256 * vault.plaintext[6];
            &&& vault.plaintext.len() >= 7 + n
            &&& vault.kind == (if vault.plaintext[4] == 0 {
                Kind::Dir
            } else {
                Kind::File
            })
            &&& vault.plaintext[4] <= 1
            &&& vault.target == vault.plaintext.subrange(7, 7 + n)
            &&& vault.session.salt.len() == 16 && vault.session.key.len() == 32
            &&& vault.session.version == 1 || vault.session.version == 2
        }),
{
    law_unpacking_refuses(vault.plaintext);
}

} // verus!
