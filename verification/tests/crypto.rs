use argon2::{Algorithm, Argon2, Params, Version};
use base64::engine::general_purpose::STANDARD;
use base64::Engine;
use chacha20poly1305::aead::Aead;
use chacha20poly1305::{ChaCha20Poly1305, KeyInit, Nonce};
use envvault::crypto::{
    after_upgrade, detect_version, open, parse_armored, split_body, too_large, CryptoError, Session,
};

fn legacy_session(password: &[u8]) -> Session {
    Session::with_salt(1, vec![9; 16], password).unwrap()
}

#[test]
fn armor_then_open_round_trips() {
    let session = Session::create(b"correct horse").unwrap();
    let file = session.armor(b"SECRET=hunter2\n").unwrap();

    let (_s, pt) = open(&file, b"correct horse").unwrap();
    assert_eq!(&pt[..], b"SECRET=hunter2\n");
}

#[test]
fn change_password_reencrypts() {
    let session = Session::create(b"oldpw").unwrap();
    let file = session.armor(b"SECRET=v\n").unwrap();

    let (_old, plaintext) = open(&file, b"oldpw").unwrap();
    let new_session = Session::create(b"newpw").unwrap();
    let file = new_session.armor(&plaintext).unwrap();

    let (_s, pt) = open(&file, b"newpw").unwrap();
    assert_eq!(&pt[..], b"SECRET=v\n");
    assert!(open(&file, b"oldpw").is_err());
}

#[test]
fn passwd_upgrades_legacy_v1_to_v2() {
    let legacy = legacy_session(b"oldpw");
    let file = legacy.armor(b"SECRET=v\n").unwrap();
    let (opened, _) = open(&file, b"oldpw").unwrap();
    assert!(!opened.is_current(), "fixture should be v1");

    let (_old, plaintext) = open(&file, b"oldpw").unwrap();
    let new_session = Session::create(b"newpw").unwrap();
    let file = new_session.armor(&plaintext).unwrap();

    let (s2, pt) = open(&file, b"newpw").unwrap();
    assert!(s2.is_current(), "passwd should have upgraded the vault to v2");
    assert_eq!(&pt[..], b"SECRET=v\n");
    assert!(open(&file, b"oldpw").is_err());
}

#[test]
fn wrong_password_fails() {
    let session = Session::create(b"right").unwrap();
    let file = session.armor(b"K=v\n").unwrap();
    assert!(matches!(open(&file, b"wrong"), Err(CryptoError::Decryption)));
}

#[test]
fn save_verifies_before_commit() {
    let session = Session::create(b"pw").unwrap();
    let file = session.armor(b"SECRET=v\n").unwrap();
    let got = session.decrypt_text(&file).unwrap();
    assert_eq!(&got[..], b"SECRET=v\n");
    assert_eq!(session.verify_written(&file, b"SECRET=v\n"), Ok(()));
    assert_eq!(
        session.verify_written(&file, b"SECRET=w\n"),
        Err(CryptoError::Differs)
    );

    // A file written under a *different* session's key must not verify as
    // this session's, guarding the "is this file really ours" check.
    let other = Session::create(b"pw").unwrap(); // fresh salt => different key
    assert!(other.decrypt_text(&file).is_err());
}

#[test]
fn tampered_ciphertext_fails() {
    let session = Session::create(b"pw").unwrap();
    let armored = session.armor(b"K=v\n").unwrap();
    // Flip a character in the base64 body to simulate corruption/tampering.
    let mut lines: Vec<String> = armored.lines().map(str::to_string).collect();
    let body = &mut lines[1];
    let flipped = if body.starts_with('A') { 'B' } else { 'A' };
    body.replace_range(0..1, &flipped.to_string());
    let tampered = format!("{}\n{}\n", lines[0], lines[1]);
    assert!(open(&tampered, b"pw").is_err());
}

#[test]
fn new_vaults_use_v2_params() {
    let session = Session::create(b"pw").unwrap();
    assert!(session.is_current(), "freshly created session should be v2");
    let armored = session.armor(b"K=v\n").unwrap();
    assert!(
        armored.starts_with("ENVVAULT v2\n"),
        "new vaults must serialize as v2"
    );
}

#[test]
fn v1_vault_round_trips_and_is_upgradeable() {
    let legacy = legacy_session(b"pw");
    assert!(!legacy.is_current());
    let file = legacy.armor(b"SECRET=v\n").unwrap();

    let (session, pt) = open(&file, b"pw").unwrap();
    assert_eq!(&pt[..], b"SECRET=v\n");
    assert!(!session.is_current(), "an opened v1 vault stays v1");

    let upgraded = Session::create(b"pw").unwrap();
    let file = upgraded.armor(&pt).unwrap();

    let (s2, pt2) = open(&file, b"pw").unwrap();
    assert!(s2.is_current(), "upgraded vault should be v2");
    assert_eq!(&pt2[..], b"SECRET=v\n");

    assert!(open(&file, b"wrong").is_err());
}

#[test]
fn v1_and_v2_share_no_header() {
    let s1 = legacy_session(b"pw");
    let s2 = Session::create(b"pw").unwrap();
    let p1 = s1.armor(b"K=1\n").unwrap();
    let p2 = s2.armor(b"K=2\n").unwrap();

    assert!(
        matches!(s1.decrypt_text(&p2), Err(CryptoError::WrongVersion)),
        "v1 session must not verify v2 file"
    );
    assert!(
        matches!(s2.decrypt_text(&p1), Err(CryptoError::WrongVersion)),
        "v2 session must not verify v1 file"
    );
}

fn key(memory: u32, passes: u32, password: &[u8], salt: &[u8]) -> Vec<u8> {
    let params = Params::new(memory, passes, 1, Some(32)).unwrap();
    let mut key = vec![0u8; 32];
    Argon2::new(Algorithm::Argon2id, Version::V0x13, params)
        .hash_password_into(password, salt, &mut key)
        .unwrap();
    key
}

#[test]
fn a_file_is_what_its_parts_say() {
    for (version, memory, passes) in [(1u8, 19456u32, 2u32), (2, 65536, 3)] {
        let salt = vec![7u8; 16];
        let nonce = [3u8; 12];
        let session = Session::with_salt(version, salt.clone(), b"pw").unwrap();
        let file = session.armor_with_nonce(&nonce, b"K=v\n");

        let cipher = ChaCha20Poly1305::new_from_slice(&key(memory, passes, b"pw", &salt)).unwrap();
        let sealed = cipher.encrypt(Nonce::from_slice(&nonce), &b"K=v\n"[..]).unwrap();
        let mut blob = salt.clone();
        blob.extend_from_slice(&nonce);
        blob.extend_from_slice(&sealed);
        assert_eq!(
            file,
            format!("ENVVAULT v{version}\n{}\n", STANDARD.encode(&blob))
        );

        let parts = parse_armored(&file).unwrap();
        assert_eq!(parts.version, version);
        assert_eq!(parts.salt, salt);
        assert_eq!(parts.nonce, nonce.to_vec());
        assert_eq!(parts.ciphertext, sealed);
    }
}

#[test]
fn the_default_parameters_are_those_of_the_first_version() {
    let salt = [9u8; 16];
    let mut defaults = vec![0u8; 32];
    Argon2::default()
        .hash_password_into(b"pw", &salt, &mut defaults)
        .unwrap();
    assert_eq!(defaults, key(19456, 2, b"pw", &salt));
}

#[test]
fn each_damage_has_its_error() {
    assert!(matches!(parse_armored(""), Err(CryptoError::BadHeader)));
    assert!(matches!(
        parse_armored("ENVVAULT v3\nAAAA\n"),
        Err(CryptoError::BadHeader)
    ));
    assert!(matches!(
        parse_armored("ENVVAULT v2\n*not base64*\n"),
        Err(CryptoError::BadBase64)
    ));
    assert!(matches!(
        parse_armored("ENVVAULT v2\nAAAA\n"),
        Err(CryptoError::Truncated)
    ));
    let other = Session::with_salt(1, vec![1; 16], b"pw").unwrap();
    let session = Session::with_salt(1, vec![2; 16], b"pw").unwrap();
    let file = session.armor(b"x").unwrap();
    assert!(matches!(other.decrypt_text(&file), Err(CryptoError::WrongSalt)));
    let parts = parse_armored(&file).unwrap();
    let mut blob = parts.salt.clone();
    blob.extend_from_slice(&parts.nonce);
    blob.extend_from_slice(&[0u8; 17]);
    let forged = format!("ENVVAULT v1\n{}\n", STANDARD.encode(&blob));
    assert!(matches!(session.decrypt_text(&forged), Err(CryptoError::NotOurs)));
}

#[test]
fn lines_of_a_body_are_joined() {
    let session = Session::with_salt(1, vec![2; 16], b"pw").unwrap();
    let file = session.armor(b"joined").unwrap();
    let body = file.lines().nth(1).unwrap().to_string();
    let (a, b) = body.split_at(10);
    let wrapped = format!("  ENVVAULT v1 \r\n{a}\r\n{b}\n\n");
    assert_eq!(&session.decrypt_text(&wrapped).unwrap()[..], b"joined");
}

#[test]
fn the_version_is_found_in_the_first_bytes() {
    assert_eq!(detect_version(b"ENVVAULT v1\nrest"), Ok(1));
    assert_eq!(detect_version(b" ENVVAULT v2\r\n\xff\xff"), Ok(2));
    assert_eq!(detect_version(b"ENVVAULT v2"), Ok(2));
    assert_eq!(detect_version(b"\xffENVVAULT v2\n"), Err(CryptoError::BadHeader));
    assert_eq!(detect_version(b""), Err(CryptoError::BadHeader));
    let mut late = vec![b' '; 60];
    late.extend_from_slice(b"ENVVAULT v2\n");
    assert_eq!(detect_version(&late), Err(CryptoError::BadHeader));
}

#[test]
fn a_body_is_salt_nonce_and_ciphertext() {
    let blob: Vec<u8> = (0..30).collect();
    let p = split_body(1, &blob).unwrap_or_else(|e| panic!("{e:?}"));
    assert_eq!(p.version, 1);
    assert_eq!(p.salt, &blob[..16]);
    assert_eq!(p.nonce, &blob[16..28]);
    assert_eq!(p.ciphertext, &blob[28..]);
    assert!(split_body(2, &blob[..28]).is_ok_and(|p| p.ciphertext.is_empty()));
    assert!(matches!(split_body(2, &blob[..27]), Err(CryptoError::Truncated)));
}

#[test]
fn absurd_files_are_refused() {
    assert!(!too_large(512 * 1024 * 1024));
    assert!(too_large(512 * 1024 * 1024 + 1));
}

#[test]
fn an_upgrade_that_fails_keeps_the_old_session() {
    let old = legacy_session(b"pw");
    assert!(!after_upgrade(old, None).is_current());
    let old = legacy_session(b"pw");
    let new = Session::with_salt(2, vec![4; 16], b"pw").unwrap();
    assert!(after_upgrade(old, Some(new)).is_current());
}

#[test]
fn nonces_are_fresh() {
    let session = legacy_session(b"pw");
    let a = session.armor(b"same").unwrap();
    let b = session.armor(b"same").unwrap();
    assert_ne!(a, b);
}
