use envvault::commands::{
    allow_setting, baseline_paths, baseline_target, default_cred_paths, entries, expand_under,
    inherited_allow, init_first, init_next, normalize_all, normalize_path, opens_editor,
    paths_to_hide, run_needs, says_yes, trust_config_paths, unrun_paths, updated_text, InitOutcome,
    InitPlan, InitStep, RunNeeds, TargetError,
};
use envvault::path::FsPath;
use envvault::tree::{find_submount, walks_into, Place};

fn shown(paths: &[FsPath]) -> Vec<String> {
    paths.iter().map(|p| p.display()).collect()
}

fn strings(given: &[&str]) -> Vec<String> {
    given.iter().map(|s| s.to_string()).collect()
}

#[test]
fn tildes_expand_under_a_home() {
    let home = FsPath::of("/home/u");
    assert_eq!(normalize_path(Some(&home), "~/.ssh").display(), "/home/u/.ssh");
    assert_eq!(normalize_path(None, "~/.ssh").display(), "~/.ssh");
    assert_eq!(normalize_path(Some(&home), "~").display(), "~");
    assert_eq!(normalize_path(Some(&home), "~//etc").display(), "/etc");
    assert_eq!(normalize_path(Some(&home), "rel").display(), "rel");
    assert_eq!(expand_under(&home, "~/x").display(), "/home/u/x");
    assert_eq!(expand_under(&home, "/abs").display(), "/abs");
    assert_eq!(
        shown(&normalize_all(Some(&home), &strings(&["~/a", "b"]))),
        vec!["/home/u/a", "b"]
    );
}

#[test]
fn the_built_in_sets() {
    let home = FsPath::of("/h");
    assert_eq!(
        shown(&default_cred_paths(Some(&home))),
        vec![
            "/h/.ssh",
            "/h/.aws",
            "/h/.config/gh",
            "/h/.config/gcloud",
            "/h/.azure",
            "/h/.kube",
            "/h/.gnupg",
            "/h/.config/op",
            "/h/.terraform.d",
            "/h/.config/envvault",
            "/h/.npmrc",
            "/h/.pypirc",
            "/h/.netrc",
            "/h/.git-credentials",
            "/h/.docker/config.json",
            "/h/.cargo/credentials.toml",
            "/h/.databrickscfg",
        ]
    );
    assert!(default_cred_paths(None).is_empty());
    let trust = vec![
        "/h/.gitconfig",
        "/h/.curlrc",
        "/h/.wgetrc",
        "/h/.npmrc",
        "/h/.netrc",
        "/h/.config/pip/pip.conf",
        "/h/.pki",
    ];
    assert_eq!(shown(&trust_config_paths(&home)), trust);
    let mut more = trust.clone();
    more.push("/h/tls.conf");
    more.push("/etc/x");
    assert_eq!(
        shown(&baseline_paths(&home, &strings(&["~/tls.conf", "/etc/x"]))),
        more
    );
}

#[test]
fn the_allow_list_is_handed_down() {
    let home = FsPath::of("/h");
    let allow = inherited_allow(Some(&home), Some("~/.ssh::/h/.aws"));
    assert_eq!(shown(&allow), vec!["/h/.ssh", "/h/.aws"]);
    assert!(inherited_allow(Some(&home), None).is_empty());
    assert!(inherited_allow(Some(&home), Some("")).is_empty());
    assert_eq!(allow_setting(&allow), "/h/.ssh:/h/.aws");
    let again = inherited_allow(Some(&home), Some(&allow_setting(&allow)));
    assert_eq!(shown(&again), shown(&allow));
    let cut = inherited_allow(Some(&home), Some(&allow_setting(&vec![FsPath::of("/a:b")])));
    assert_eq!(shown(&cut), vec!["/a", "b"]);
    assert_eq!(
        allow_setting(&vec![FsPath::new(vec![0xff]), FsPath::of("/a")]),
        "/a"
    );
}

#[test]
fn hides_all_but_the_allowed_and_the_frozen() {
    let home = FsPath::of("/h");
    let hidden = paths_to_hide(
        &default_cred_paths(Some(&home)),
        &[FsPath::of("/h/.ssh/")],
        &[FsPath::of("/h/.npmrc"), FsPath::of("/h/.gitconfig")],
    );
    let names = shown(&hidden);
    assert_eq!(names.len(), 15);
    assert!(!names.contains(&"/h/.ssh".to_string()));
    assert!(!names.contains(&"/h/.npmrc".to_string()));
    assert!(names.contains(&"/h/.aws".to_string()));
    let extra = unrun_paths(
        Some(&home),
        &vec![FsPath::of("/h/.ssh")],
        &strings(&["~/.config/foo", "/h/.ssh"]),
    );
    let names = shown(&extra);
    assert_eq!(names.len(), 18);
    assert_eq!(names[16], "/h/.config/foo");
    assert_eq!(names[17], "/h/.ssh");
}

#[test]
fn what_a_run_needs() {
    let nothing = RunNeeds { namespace: false, mask: false, freeze: false };
    assert_eq!(run_needs(false, false, false), nothing);
    assert_eq!(
        run_needs(false, true, false),
        RunNeeds { namespace: true, mask: true, freeze: false }
    );
    assert_eq!(
        run_needs(false, false, true),
        RunNeeds { namespace: true, mask: false, freeze: true }
    );
    assert_eq!(
        run_needs(true, false, true),
        RunNeeds { namespace: true, mask: true, freeze: true }
    );
}

#[test]
fn whose_baseline_is_edited() {
    assert_eq!(baseline_target(false, Some("me"), None), Err(TargetError::NotRoot));
    assert_eq!(baseline_target(true, None, None), Err(TargetError::Nobody));
    assert_eq!(baseline_target(true, None, Some("root")), Err(TargetError::Root));
    assert_eq!(baseline_target(true, Some("me"), Some("root")), Ok("me".to_string()));
    assert_eq!(baseline_target(true, None, Some("you")), Ok("you".to_string()));
}

#[test]
fn plurals_and_answers() {
    assert_eq!(entries(1), "y");
    assert_eq!(entries(0), "ies");
    assert_eq!(updated_text(1, true), "Updated 1 entry — clipboard cleared");
    assert_eq!(updated_text(12, false), "Updated 12 entries");
    assert!(says_yes("y\n") && says_yes(" Y ") && says_yes("yes\r\n"));
    assert!(!says_yes("YES") && !says_yes("") && !says_yes("yep"));
    assert!(opens_editor(false, false, true));
    assert!(!opens_editor(true, false, true));
    assert!(!opens_editor(false, true, true));
    assert!(!opens_editor(false, false, false));
}

fn place(path: &str, is_link: bool, device: u64, children: Vec<Place>) -> Place {
    Place { path: FsPath::of(path), is_link, device, children }
}

#[test]
fn mounts_below_are_found() {
    assert!(walks_into(1, false, 1, true));
    assert!(!walks_into(1, false, 1, false));
    assert!(!walks_into(1, false, 2, true));
    assert!(!walks_into(1, true, 1, true));

    let deep = vec![place("/d/a/x", false, 1, vec![]), place("/d/a/m", false, 3, vec![])];
    let tree = vec![
        place("/d/a", false, 1, deep),
        place("/d/link", true, 2, vec![]),
        place("/d/file", false, 1, vec![]),
    ];
    let found = find_submount(1, &tree).unwrap();
    assert!(found.is_same(&FsPath::of("/d/a/m")));
}

#[test]
fn mounts_are_looked_for_at_hand_before_below() {
    let first = vec![place("/d/a/m", false, 2, vec![])];
    let second = vec![place("/d/b/m", false, 2, vec![])];
    let mut tree = vec![place("/d/a", false, 1, first), place("/d/b", false, 1, second)];
    assert!(find_submount(1, &tree).unwrap().is_same(&FsPath::of("/d/b/m")));
    tree.push(place("/d/m", false, 2, vec![]));
    assert!(find_submount(1, &tree).unwrap().is_same(&FsPath::of("/d/m")));
}

#[test]
fn one_file_system_has_no_mounts() {
    let below = vec![place("/d/a/x", false, 1, vec![]), place("/d/a/l", true, 9, vec![])];
    let tree = vec![place("/d/a", false, 1, below), place("/d/b", false, 1, vec![])];
    assert!(find_submount(1, &tree).is_none());
    assert!(find_submount(1, &vec![]).is_none());
}

#[test]
fn a_target_is_emptied_last() {
    let plan = InitPlan { yes: false, password_stdin: false };
    let good = InitOutcome::Good;
    let mut step = init_first();
    let mut seen = vec![step];
    for outcome in [good, good, InitOutcome::Directory, good, good, good, good, good] {
        step = init_next(plan, step, outcome);
        seen.push(step);
    }
    assert_eq!(
        seen,
        vec![
            InitStep::CheckVault,
            InitStep::FindTarget,
            InitStep::Classify,
            InitStep::CheckMounts,
            InitStep::Confirm(true),
            InitStep::Password(true),
            InitStep::Create(true),
            InitStep::Empty(true),
            InitStep::Done(true),
        ]
    );
    assert_eq!(
        init_next(plan, InitStep::Create(true), InitOutcome::Failed),
        InitStep::Refused
    );
    assert_eq!(
        init_next(plan, InitStep::Empty(false), InitOutcome::Failed),
        InitStep::NotEmptied
    );
    let scripted = InitPlan { yes: false, password_stdin: true };
    assert_eq!(
        init_next(scripted, InitStep::Classify, InitOutcome::RegularFile),
        InitStep::Refused
    );
    let sure = InitPlan { yes: true, password_stdin: true };
    assert_eq!(
        init_next(sure, InitStep::Classify, InitOutcome::RegularFile),
        InitStep::Password(false)
    );
    assert_eq!(
        init_next(sure, InitStep::Classify, InitOutcome::Failed),
        InitStep::Refused
    );
}
