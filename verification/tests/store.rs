use envvault::commands::{
    column_width, dir_tier, list_row, missing_dirvault, missing_vault, tier,
};
use envvault::path::FsPath;
use envvault::store::{
    baseline_path, baseline_temp_name, dirvault_path, list_dirvaults, list_vaults, validate_name,
    vault_dir, vault_path, NameError, BASELINE_DIR,
};

#[test]
fn names_stay_one_component() {
    assert_eq!(validate_name("work-1.0_b"), Ok(()));
    assert_eq!(validate_name("..."), Ok(()));
    assert_eq!(validate_name(""), Err(NameError::Empty));
    assert_eq!(validate_name("."), Err(NameError::Reserved));
    assert_eq!(validate_name(".."), Err(NameError::Reserved));
    assert_eq!(validate_name("a/b"), Err(NameError::BadCharacter));
    assert_eq!(validate_name("é"), Err(NameError::BadCharacter));
    assert_eq!(NameError::Empty.message(), "vault name cannot be empty");
    assert_eq!(NameError::Reserved.message(), "invalid vault name");
    assert_eq!(
        NameError::BadCharacter.message(),
        "vault name may only contain letters, digits, '.', '_', and '-'"
    );
}

#[test]
fn names_become_paths() {
    let dir = FsPath::of("/home/u/.config/envvault");
    assert_eq!(
        vault_path(&dir, "work").unwrap().display(),
        "/home/u/.config/envvault/work.vault"
    );
    assert_eq!(
        dirvault_path(&dir, "tool").unwrap().display(),
        "/home/u/.config/envvault/tool.dirvault"
    );
    assert!(matches!(vault_path(&dir, "../x"), Err(NameError::BadCharacter)));
    assert!(matches!(dirvault_path(&dir, ""), Err(NameError::Empty)));
    assert!(vault_path(&dir, "...").unwrap().starts_with(&dir));
}

#[test]
fn the_directory_can_be_set() {
    let config = FsPath::of("/home/u/.config");
    assert_eq!(
        vault_dir(None, Some(config.clone())).unwrap().display(),
        "/home/u/.config/envvault"
    );
    assert_eq!(
        vault_dir(Some(FsPath::of("/v")), Some(config)).unwrap().display(),
        "/v"
    );
    assert_eq!(vault_dir(Some(FsPath::of("")), None).unwrap().as_bytes(), b"");
    assert!(vault_dir(None, None).is_none());
}

#[test]
fn lists_what_was_created() {
    let files: Vec<Vec<u8>> = [
        &b"work.vault"[..],
        b"a.b.vault",
        b"home.dirvault",
        b".vault",
        b"plain",
        b"x.vault.1.tmp",
        b"\xff.vault",
        b"b.\xff",
        b"Z.vault",
    ]
    .iter()
    .map(|n| n.to_vec())
    .collect();
    assert_eq!(list_vaults(&files), vec!["Z", "a.b", "work"]);
    assert_eq!(list_dirvaults(&files), vec!["home"]);
}

#[test]
fn baselines_live_in_a_fixed_directory() {
    assert_eq!(BASELINE_DIR, "/etc/envvault");
    assert_eq!(baseline_path("me").display(), "/etc/envvault/me.baseline");
    assert_eq!(baseline_temp_name("me", 42), ".me.baseline.tmp.42");
}

#[test]
fn rows_are_aligned() {
    let names = vec!["a".to_string(), "longer".to_string()];
    let width = column_width(&names);
    assert_eq!(width, 6);
    assert_eq!(column_width(&Vec::new()), 0);
    assert_eq!(list_row("a", width, tier(Some(2))), "a       v2");
    assert_eq!(
        list_row("longer", width, tier(Some(1))),
        "longer  v1 (legacy — `envvault upgrade {name}`)"
    );
    assert_eq!(dir_tier(Some(1)), "v1 (legacy — `envvault dir upgrade {name}`)");
    assert_eq!(dir_tier(Some(2)), "v2");
    assert_eq!(tier(None), "?");
    assert_eq!(dir_tier(Some(3)), "?");
}

#[test]
fn a_missing_vault_names_the_others() {
    assert_eq!(
        missing_vault("x", &Vec::new()),
        "no vault named 'x' (no vaults exist yet — create one with `envvault init x`)"
    );
    assert_eq!(
        missing_vault("x", &vec!["a".to_string(), "b".to_string()]),
        "no vault named 'x'. Available: a, b"
    );
    assert_eq!(
        missing_dirvault("x", &Vec::new()),
        "no directory vault named 'x' (create one with `envvault dir init x --path <dir>`)"
    );
    assert_eq!(
        missing_dirvault("x", &vec!["a".to_string()]),
        "no directory vault named 'x'. Available: a"
    );
}
