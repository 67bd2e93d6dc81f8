use envvault::crypto::{CryptoError, Session};
use envvault::dirvault::{
    create, open, pack, unpack, ContainerError, DirVaultError, Kind, MAX_ARCHIVE, MAX_PATH,
};
use envvault::path::FsPath;

/// A tar archive with one directory, three files' worth of entries and a link.
fn dir_archive() -> Vec<u8> {
    let mut builder = tar::Builder::new(Vec::new());
    append(&mut builder, "./creds.json", b"{\"key\":\"sk-123\"}", 0o600);
    append(&mut builder, "./sub/inner", b"inner", 0o644);
    let mut link = tar::Header::new_gnu();
    link.set_entry_type(tar::EntryType::Symlink);
    link.set_size(0);
    link.set_mode(0o777);
    builder.append_link(&mut link, "./link", "creds.json").unwrap();
    builder.into_inner().unwrap()
}

fn append(builder: &mut tar::Builder<Vec<u8>>, name: &str, bytes: &[u8], mode: u32) {
    let mut header = tar::Header::new_gnu();
    header.set_size(bytes.len() as u64);
    header.set_mode(mode);
    builder.append_data(&mut header, name, bytes).unwrap();
}

fn read_all(archive: &[u8]) -> Vec<(String, Vec<u8>, u32, bool)> {
    let mut out = Vec::new();
    let mut archive = tar::Archive::new(archive);
    for entry in archive.entries().unwrap() {
        let mut entry = entry.unwrap();
        let name = entry.path().unwrap().to_string_lossy().into_owned();
        let mode = entry.header().mode().unwrap();
        let is_link = entry.header().entry_type().is_symlink();
        let mut bytes = Vec::new();
        std::io::Read::read_to_end(&mut entry, &mut bytes).unwrap();
        out.push((name, bytes, mode, is_link));
    }
    out
}

#[test]
fn round_trips_dir_contents_modes_and_symlink() {
    let canonical = FsPath::of("/tmp/envvault-dv-rt/src");
    let (session, blob) = create(b"pw", Kind::Dir, &canonical, &dir_archive()).unwrap();
    let file = session.armor(&blob).unwrap();

    let dv = open(&file, b"pw").unwrap();
    assert_eq!(dv.kind(), Kind::Dir);
    assert_eq!(dv.target().as_bytes(), canonical.as_bytes());

    let out = read_all(dv.archive());
    let creds = out.iter().find(|e| e.0.ends_with("creds.json")).unwrap();
    assert_eq!(creds.1, b"{\"key\":\"sk-123\"}");
    let inner = out.iter().find(|e| e.0.ends_with("sub/inner")).unwrap();
    assert_eq!(inner.1, b"inner");
    assert_eq!(creds.2 & 0o777, 0o600, "file mode should be preserved");
    let link = out.iter().find(|e| e.0.ends_with("link")).unwrap();
    assert!(link.3, "symlink should be preserved");
}

#[test]
fn round_trips_single_file() {
    let canonical = FsPath::of("/tmp/envvault-dv-file/auth.json");
    let mut builder = tar::Builder::new(Vec::new());
    append(&mut builder, "auth.json", b"{\"token\":\"abc\"}", 0o600);
    let archive = builder.into_inner().unwrap();
    let (session, blob) = create(b"pw", Kind::File, &canonical, &archive).unwrap();
    let file = session.armor(&blob).unwrap();

    let dv = open(&file, b"pw").unwrap();
    assert_eq!(dv.kind(), Kind::File);
    assert_eq!(dv.target().as_bytes(), canonical.as_bytes());
    let out = read_all(dv.archive());
    assert_eq!(out.len(), 1);
    assert_eq!(out[0].0, "auth.json");
    assert_eq!(out[0].1, b"{\"token\":\"abc\"}");
    assert_eq!(out[0].2 & 0o777, 0o600, "file mode should be preserved");
}

#[test]
fn wrong_password_fails_to_open() {
    let target = FsPath::of("/tmp/envvault-dv-wp/src");
    let (session, blob) = create(b"right", Kind::Dir, &target, b"x").unwrap();
    let file = session.armor(&blob).unwrap();
    assert!(matches!(
        open(&file, b"wrong"),
        Err(DirVaultError::Crypto(CryptoError::Decryption))
    ));
}

#[test]
fn rejects_non_vault_bytes() {
    assert!(unpack(b"nope").is_err());
    assert!(unpack(b"EVD1").is_err()); // header but no kind/length
}

#[test]
fn a_container_is_magic_kind_path_and_archive() {
    let blob = pack(Kind::File, &FsPath::of("/a/b"), b"tar").unwrap();
    assert_eq!(&blob[..], b"EVD1\x01\x04\x00/a/btar");
    let (kind, target, archive) = unpack(&blob).unwrap();
    assert_eq!(kind, Kind::File);
    assert_eq!(target.as_bytes(), b"/a/b");
    assert_eq!(archive, b"tar");
    let long = vec![b'p'; 0x0102];
    let blob = pack(Kind::Dir, &FsPath::new(long), b"").unwrap();
    assert_eq!(&blob[4..7], &[0, 2, 1]);
}

#[test]
fn each_container_error_has_its_input() {
    let text = FsPath::of("/t");
    assert!(matches!(
        pack(Kind::Dir, &FsPath::new(vec![0xff]), b""),
        Err(ContainerError::PathNotText)
    ));
    assert!(matches!(
        pack(Kind::Dir, &FsPath::new(vec![b'a'; MAX_PATH + 1]), b""),
        Err(ContainerError::PathTooLong)
    ));
    assert!(pack(Kind::Dir, &FsPath::new(vec![b'a'; MAX_PATH]), b"").is_ok());
    let largest = vec![0u8; MAX_ARCHIVE - 9];
    assert!(pack(Kind::Dir, &text, &largest).is_ok());
    let too_large = vec![0u8; MAX_ARCHIVE - 8];
    assert!(matches!(
        pack(Kind::Dir, &text, &too_large),
        Err(ContainerError::TooLarge)
    ));
    assert!(matches!(unpack(b"EVD2\0\0\0"), Err(ContainerError::BadHeader)));
    assert!(matches!(
        unpack(b"EVD1\x07\0\0"),
        Err(ContainerError::UnknownKind(7))
    ));
    assert!(matches!(unpack(b"EVD1\0\x02\0a"), Err(ContainerError::Truncated)));
    assert!(matches!(
        unpack(b"EVD1\0\x01\0\xff"),
        Err(ContainerError::PathNotText)
    ));
}

#[test]
fn a_vault_that_holds_no_container_is_refused() {
    let session = Session::with_salt(1, vec![5; 16], b"pw").unwrap();
    let file = session.armor(b"K=v\n").unwrap();
    assert!(matches!(
        open(&file, b"pw"),
        Err(DirVaultError::Container(ContainerError::BadHeader))
    ));
}

#[test]
fn saving_again_keeps_target_and_kind() {
    let session = Session::with_salt(1, vec![5; 16], b"pw").unwrap();
    let blob = pack(Kind::File, &FsPath::of("/f"), b"old").unwrap();
    let dv = open(&session.armor(&blob).unwrap(), b"pw").unwrap();
    assert!(!dv.is_current());
    let again = dv.repack(b"new").unwrap();
    let file = dv.session().armor(&again).unwrap();
    let dv = open(&file, b"pw").unwrap();
    assert_eq!(dv.kind(), Kind::File);
    assert_eq!(dv.target().as_bytes(), b"/f");
    assert_eq!(dv.archive(), b"new");
    let dv = dv.after_upgrade(Some(Session::with_salt(2, vec![6; 16], b"pw").unwrap()));
    assert!(dv.is_current());
    assert_eq!(dv.plaintext(), &again[..]);
}

#[test]
fn opening_a_legacy_vault_upgrades_it() {
    let legacy = Session::with_salt(1, vec![5; 16], b"pw").unwrap();
    let blob = pack(Kind::Dir, &FsPath::of("/home/u/.d"), b"tar").unwrap();
    let file = legacy.armor(&blob).unwrap();
    let kept = open(&file, b"pw").unwrap().after_upgrade(None);
    assert!(!kept.is_current());
    assert_eq!(kept.archive(), b"tar");

    let dv = open(&file, b"pw").unwrap();
    let renewed = Session::create(b"pw").unwrap();
    let new_file = renewed.armor(dv.plaintext()).unwrap();
    let dv = dv.after_upgrade(Some(renewed));
    assert!(dv.is_current());
    for v in [dv, open(&new_file, b"pw").unwrap()] {
        assert!(v.is_current());
        assert_eq!(v.kind(), Kind::Dir);
        assert_eq!(v.target().as_bytes(), b"/home/u/.d");
        assert_eq!(v.archive(), b"tar");
        let session = v.session().armor(b"x").unwrap();
        let other = Session::with_salt(2, vec![9; 16], b"pw").unwrap();
        let v = v.after_upgrade(Some(other));
        assert!(v.session().decrypt_text(&session).is_ok());
    }
}

#[test]
fn kinds_have_bytes() {
    assert_eq!(Kind::of(true).to_byte(), 0);
    assert_eq!(Kind::of(false).to_byte(), 1);
    assert_eq!(Kind::from_byte(0), Some(Kind::Dir));
    assert_eq!(Kind::from_byte(1), Some(Kind::File));
    assert_eq!(Kind::from_byte(2), None);
}
