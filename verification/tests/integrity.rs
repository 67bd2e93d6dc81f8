use std::collections::BTreeMap;

use envvault::integrity::{
    check, compute, is_trackable, pin, plan_pin, unpin, valid_user, verify_and_collect, verify_dir,
    Baseline, BaselineError, EditReport, FrozenItem, Sight,
};
use envvault::integrity::verifying::{DirSight, FileSight, Survey};
use envvault::path::FsPath;
use envvault::secret::SecretBytes;
use envvault::tree::{collect_dir_files, LiveFile, Node, NodeKind};

/// A home directory in memory: directories, and files with their contents.
struct Home {
    root: String,
    dirs: Vec<String>,
    files: BTreeMap<String, Vec<u8>>,
}

impl Home {
    fn new(tag: &str) -> Self {
        Home {
            root: format!("/tmp/envvault-integ-{tag}"),
            dirs: Vec::new(),
            files: BTreeMap::new(),
        }
    }

    fn join(&self, name: &str) -> FsPath {
        FsPath::of(&format!("{}/{name}", self.root))
    }

    fn create_dir(&mut self, name: &str) {
        self.dirs.push(format!("{}/{name}", self.root));
    }

    fn write(&mut self, name: &str, bytes: &[u8]) {
        self.files.insert(format!("{}/{name}", self.root), bytes.to_vec());
    }

    fn below(&self, dir: &str) -> Vec<LiveFile> {
        let prefix = format!("{dir}/");
        let mut nodes = Vec::new();
        for (name, bytes) in &self.files {
            if name.starts_with(&prefix) {
                nodes.push(Node {
                    path: FsPath::of(name),
                    kind: NodeKind::File(Some(SecretBytes::new(bytes.clone()))),
                });
            }
        }
        collect_dir_files(nodes).unwrap()
    }

    fn look(&self, path: &FsPath) -> Sight {
        let name = path.display();
        if self.dirs.contains(&name) {
            return Sight::Dir(self.below(&name));
        }
        match self.files.get(&name) {
            Some(bytes) => Sight::File(SecretBytes::new(bytes.clone())),
            None => Sight::Missing,
        }
    }

    fn look_all(&self, paths: &[FsPath]) -> Vec<Sight> {
        paths.iter().map(|p| self.look(p)).collect()
    }

    fn survey(&self, b: &Baseline) -> Survey {
        Survey {
            files: b
                .files()
                .iter()
                .map(|f| FileSight {
                    bytes: self
                        .files
                        .get(&f.path.display())
                        .map(|bytes| SecretBytes::new(bytes.clone())),
                })
                .collect(),
            dirs: b
                .dirs()
                .iter()
                .map(|d| {
                    let name = d.path.display();
                    if self.dirs.contains(&name) {
                        DirSight::Files(self.below(&name))
                    } else {
                        DirSight::Failed(format!("failed to read {name}: gone"))
                    }
                })
                .collect(),
        }
    }

    fn compute(&self, paths: &[FsPath]) -> Baseline {
        match compute(paths, &self.look_all(paths)) {
            Ok(b) => b,
            Err(i) => panic!("path {i} is unreadable"),
        }
    }

    fn pin(&self, base: Baseline, add: &[FsPath]) -> (Baseline, EditReport) {
        let (_, targets) = plan_pin(&base, add);
        match pin(base, add, &self.look_all(&targets)) {
            Ok(done) => done,
            Err(i) => panic!("path {i} is unreadable"),
        }
    }

    fn check(&self, b: &Baseline) -> Vec<String> {
        check(b, &self.survey(b))
    }

    fn verify(&self, b: &Baseline) -> Result<Vec<FrozenItem>, String> {
        verify_and_collect(b, &self.survey(b))
    }
}

fn shown(paths: &[FsPath]) -> Vec<String> {
    paths.iter().map(|p| p.display()).collect()
}

#[test]
fn file_roundtrip_detects_change() {
    let mut home = Home::new("file");
    let f = home.join(".gitconfig");
    home.write(".gitconfig", b"[http]\n  proxy = none\n");
    let b = home.compute(&[f.clone()]);
    assert!(home.check(&b).is_empty(), "clean tree should verify");

    // Tamper: detected, and verify_and_collect fails closed.
    home.write(".gitconfig", b"[http]\n  sslCAInfo = /tmp/evil\n");
    assert_eq!(home.check(&b).len(), 1);
    assert!(home.verify(&b).is_err());
}

#[test]
fn absent_is_not_a_mismatch_and_yields_neutralize_item() {
    let mut home = Home::new("absent");
    let missing = home.join(".curlrc");
    let b = home.compute(&[missing.clone()]);
    // Even after an attacker creates it, this is reproduced (neutralized),
    // not reported as a mismatch.
    home.write(".curlrc", b"proxy = http://evil\n");
    assert!(home.check(&b).is_empty());
    let items = home.verify(&b).unwrap();
    assert!(matches!(items.as_slice(), [FrozenItem::Absent { .. }]));
    assert_eq!(items[0].path().as_bytes(), missing.as_bytes());
}

#[test]
fn dir_completeness_catches_added_and_changed_files() {
    let mut home = Home::new("dir");
    let pki = home.join(".pki");
    home.create_dir(".pki");
    home.write(".pki/cert9.db", b"good");
    let b = home.compute(&[pki.clone()]);
    assert!(home.check(&b).is_empty());

    // Added file: mismatch.
    home.write(".pki/evil.pem", b"planted CA");
    assert!(!home.check(&b).is_empty());
    assert!(home.verify(&b).is_err());
    assert_eq!(
        home.check(&b),
        vec![format!(
            "unexpected file in {0}/.pki: {0}/.pki/evil.pem",
            home.root
        )]
    );

    // Changed and removed files are mismatches too.
    home.files.clear();
    home.write(".pki/cert9.db", b"bad");
    assert_eq!(
        home.check(&b),
        vec![format!(
            "content changed in {0}/.pki: {0}/.pki/cert9.db",
            home.root
        )]
    );
    home.files.clear();
    assert_eq!(
        home.check(&b),
        vec![format!("missing from {0}/.pki: {0}/.pki/cert9.db", home.root)]
    );
    home.dirs.clear();
    assert_eq!(
        home.check(&b),
        vec![format!(
            "cannot read tracked directory {0}/.pki: failed to read {0}/.pki: gone",
            home.root
        )]
    );
}

#[test]
fn serialize_parse_roundtrip() {
    let mut home = Home::new("ser");
    home.write(".gitconfig", b"x");
    home.create_dir(".pki");
    home.write(".pki/a", b"a");
    let paths = vec![home.join(".gitconfig"), home.join(".missing"), home.join(".pki")];
    let b = home.compute(&paths);
    let text = b.serialize("tester");
    let b2 = match Baseline::parse(&text) {
        Ok(b) => b,
        Err(_) => panic!("what was written must parse"),
    };
    assert_eq!(b.len(), b2.len());
    assert!(home.check(&b2).is_empty(), "reparsed baseline still verifies");
    assert_eq!(b2.serialize("tester"), text);
}

#[test]
fn a_baseline_that_was_read_is_given_back() {
    let text = "# by hand\nfile\tff\t/h/d/e/x\r\ndir\t-\t/h/d\nfile\t\t/h/d/y\nabsent\t-\t/h/q\ndir\t-\t/h/d/e\nfile\t0\t/h/f";
    let read = |t: &str| match Baseline::parse(t) {
        Ok(b) => b,
        Err(_) => panic!("must parse"),
    };
    let b = read(text);
    assert_eq!(b.len(), 4);
    let again = read(&b.serialize("u"));
    assert_eq!(again.len(), 4);
    assert_eq!(again.serialize("u"), b.serialize("u"));
    assert_eq!(again.dirs().len(), 2);
    assert_eq!(again.dirs()[0].path.as_bytes(), b"/h/d/e");
    assert_eq!(again.dirs()[0].files[0].hash, "ff");
    assert_eq!(again.dirs()[1].files[0].path.as_bytes(), b"/h/d/y");
    assert_eq!(again.files()[0].hash, "0");
}

#[test]
fn pin_adds_without_reblessing_others() {
    let mut home = Home::new("pin");
    let a = home.join(".gitconfig");
    let b = home.join(".curlrc");
    home.write(".gitconfig", b"A1");
    let base = home.compute(&[a.clone()]);

    // Tamper A, THEN pin B. Pin must not re-bless A.
    home.write(".gitconfig", b"A2-tampered");
    home.write(".curlrc", b"B1");
    let (base, rep) = home.pin(base, &[b.clone()]);
    assert_eq!(shown(&rep.added), shown(&[b.clone()]));
    assert!(rep.repinned.is_empty());

    // A is now tracked at its OLD hash, still flagged; B verifies clean.
    let problems = home.check(&base);
    assert_eq!(problems.len(), 1, "only A should mismatch: {problems:?}");
    assert!(problems[0].contains(".gitconfig"));
    assert!(base.tracks(&b));
}

#[test]
fn repin_reblesses_only_that_path() {
    let mut home = Home::new("repin");
    let a = home.join(".gitconfig");
    home.write(".gitconfig", b"V1");
    let base = home.compute(&[a.clone()]);
    home.write(".gitconfig", b"V2");
    assert!(!home.check(&base).is_empty(), "edit should mismatch before re-pin");

    let (base, rep) = home.pin(base, &[a.clone()]);
    assert_eq!(shown(&rep.repinned), shown(&[a.clone()]));
    assert!(home.check(&base).is_empty(), "re-pinning blesses the new content");
    assert_eq!(base.files().len(), 1, "the old entry is gone");
}

#[test]
fn pin_skips_paths_covered_by_tracked_dir() {
    let mut home = Home::new("cover");
    let pki = home.join(".pki");
    home.create_dir(".pki");
    let child = home.join(".pki/cert9.db");
    home.write(".pki/cert9.db", b"c");
    let base = home.compute(&[pki.clone()]);

    let (base, rep) = home.pin(base, &[child.clone()]);
    assert_eq!(rep.skipped_covered.len(), 1);
    assert_eq!(rep.skipped_covered[0].1.as_bytes(), pki.as_bytes());
    assert!(!base.tracks(&child), "child stays covered by the dir, not standalone");
}

#[test]
fn unpin_removes_and_reports_not_found() {
    let mut home = Home::new("unpin");
    let a = home.join(".gitconfig");
    let b = home.join(".curlrc");
    home.write(".gitconfig", b"a");
    let base = home.compute(&[a.clone(), b.clone()]); // b is absent
    assert!(base.tracks(&a) && base.tracks(&b));

    let (base, rep) = unpin(base, &[a.clone(), home.join(".never")]);
    assert_eq!(shown(&rep.removed), shown(&[a.clone()]));
    assert_eq!(shown(&rep.not_found), shown(&[home.join(".never")]));
    assert!(!base.tracks(&a));
    assert!(base.tracks(&b), "untouched entries remain");
}

#[test]
fn unpin_dir_drops_its_children() {
    let mut home = Home::new("unpindir");
    let pki = home.join(".pki");
    home.create_dir(".pki");
    home.write(".pki/a", b"a");
    home.write(".pki/b", b"b");
    let base = home.compute(&[pki.clone()]);
    assert!(base.len() >= 2);

    let (base, rep) = unpin(base, &[pki.clone()]);
    assert_eq!(shown(&rep.removed), shown(&[pki.clone()]));
    assert_eq!(base.len(), 0, "dir and all its children gone");
    assert!(base.is_empty());
}

#[test]
fn rejects_path_traversal_user() {
    assert!(!valid_user("../etc/shadow"));
    assert!(!valid_user("a/b"));
    assert!(!valid_user(""));
    assert!(valid_user("debasish"));
    assert!(valid_user("user.name-1"));
}

#[test]
fn hashes_are_blake3() {
    let mut home = Home::new("hash");
    home.write("empty", b"");
    home.write("abc", b"abc");
    let b = home.compute(&[home.join("empty"), home.join("abc")]);
    assert_eq!(
        b.serialize("me"),
        "# envvault config-integrity baseline for user me\n\
         # fields: <kind>\\t<blake3-hex|->\\t<path> — managed by `envvault baseline set`; do not edit\n\
         file\t6437b3ac38465133ffb63b75273a8db548c558465d79db03fd359c6cd5bd9d85\t/tmp/envvault-integ-hash/abc\n\
         file\taf1349b9f5f9a1a6a0404dea36dcc9499bcb25c9adc112b7cc9a93cae41f3262\t/tmp/envvault-integ-hash/empty\n"
    );
    assert_eq!(b.files()[0].hash, blake3::hash(b"abc").to_hex().to_string());
}

#[test]
fn a_fresh_baseline_holds_each_kind_in_order() {
    let mut home = Home::new("kinds");
    home.create_dir("d2");
    home.create_dir("d1");
    home.write("d2/x", b"x");
    home.write("f", b"f");
    let paths = [home.join("z"), home.join("d2"), home.join("f"), home.join("d1"), home.join("a")];
    let b = home.compute(&paths);
    assert_eq!(shown(b.absent()), shown(&[home.join("a"), home.join("z")]));
    assert_eq!(b.dirs().len(), 2);
    assert_eq!(b.dirs()[0].path.display(), home.join("d1").display());
    assert_eq!(b.dirs()[1].files.len(), 1);
    assert_eq!(b.len(), 4);
    let items = home.verify(&b).unwrap();
    assert_eq!(items.len(), 5);
    match &items[4] {
        FrozenItem::Dir { path, files } => {
            assert_eq!(path.display(), home.join("d2").display());
            assert_eq!(files[0].path.display(), "x");
            assert_eq!(&files[0].bytes[..], b"x");
        }
        _ => panic!("the last item is a directory"),
    }
}

#[test]
fn unreadable_and_special_paths() {
    let a = FsPath::of("/a");
    let b = FsPath::of("/b");
    assert!(matches!(
        compute(&[a.clone(), b.clone()], &[Sight::Missing, Sight::Unreadable]),
        Err(1)
    ));
    match compute(&[a.clone()], &[Sight::Special]) {
        Ok(base) => assert!(base.is_empty()),
        Err(_) => panic!("a special file is skipped"),
    }
    let base = match compute(&[a.clone()], &[Sight::Missing]) {
        Ok(base) => base,
        Err(_) => panic!("a missing file is absent"),
    };
    assert!(matches!(
        pin(base, &[b.clone()], &[Sight::Unreadable]),
        Err(0)
    ));
    assert!(is_trackable(64 * 1024 * 1024));
    assert!(!is_trackable(64 * 1024 * 1024 + 1));
}

#[test]
fn all_problems_are_listed() {
    let mut home = Home::new("many");
    home.write("a", b"1");
    home.write("b", b"2");
    let b = home.compute(&[home.join("a"), home.join("b")]);
    home.files.clear();
    home.write("a", b"changed");
    match home.verify(&b) {
        Err(message) => assert_eq!(
            message,
            "config integrity check failed — refusing to run:\n  \
             content changed: /tmp/envvault-integ-many/a\n  \
             missing or unreadable: /tmp/envvault-integ-many/b\n\
             If these changes are intended, re-bless with `sudo envvault baseline set`."
        ),
        Ok(_) => panic!("both files differ"),
    }
}

#[test]
fn parses_and_refuses_baseline_lines() {
    match Baseline::parse("# c\n\nfile\th\t/x\r\ndir\t-\t/d\nfile\tg\t/d/e\nfile\ti\t/de\nabsent\t-\t/n\tm\n")
    {
        Ok(b) => {
            assert_eq!(b.files().len(), 2);
            assert_eq!(b.files()[0].hash, "h");
            assert_eq!(b.files()[1].path.display(), "/de");
            assert_eq!(b.dirs()[0].files[0].path.display(), "/d/e");
            assert_eq!(b.absent()[0].display(), "/n\tm");
        }
        Err(_) => panic!("the lines are well formed"),
    }
    match Baseline::parse("file\thash\n") {
        Err(BaselineError::Malformed(line)) => assert_eq!(line, "file\thash"),
        _ => panic!("a line without a path is malformed"),
    }
    match Baseline::parse("link\t-\t/x\n") {
        Err(BaselineError::UnknownKind(kind)) => assert_eq!(kind, "link"),
        _ => panic!("there is no such kind"),
    }
}

#[test]
fn nested_directories_group_by_the_longest() {
    match Baseline::parse("dir\t-\t/a\ndir\t-\t/a/b\nfile\th\t/a/b/c\nfile\tg\t/a/x\n") {
        Ok(b) => {
            assert_eq!(b.dirs()[0].path.display(), "/a/b");
            assert_eq!(b.dirs()[0].files[0].path.display(), "/a/b/c");
            assert_eq!(b.dirs()[1].files[0].path.display(), "/a/x");
        }
        Err(_) => panic!("the lines are well formed"),
    }
}

#[test]
fn a_directory_in_a_tracked_directory_changes_its_group_on_disk() {
    let mut home = Home::new("nested");
    home.create_dir("a");
    home.create_dir("a/b");
    home.write("a/b/c", b"c");
    let b = home.compute(&[home.join("a"), home.join("a/b")]);
    assert!(home.check(&b).is_empty());
    let again = match Baseline::parse(&b.serialize("me")) {
        Ok(b) => b,
        Err(_) => panic!("what was written must parse"),
    };
    assert!(!home.check(&again).is_empty());
}

#[test]
fn removing_top_level_entries() {
    let mut b = match Baseline::parse("file\th\t/x\ndir\t-\t/d\nfile\tg\t/d/e\nabsent\t-\t/n\n") {
        Ok(b) => b,
        Err(_) => panic!("the lines are well formed"),
    };
    assert_eq!(b.covered_by_dir(&FsPath::of("/d/e")).unwrap().display(), "/d");
    assert!(b.covered_by_dir(&FsPath::of("/d")).is_none());
    assert!(b.covered_by_dir(&FsPath::of("/de")).is_none());
    let gone = b.remove_top_level(&[FsPath::of("/d/"), FsPath::of("/y"), FsPath::of("/n")]);
    assert_eq!(shown(&gone), vec!["/d/".to_string(), "/n".to_string()]);
    assert_eq!(b.len(), 1);
}

#[test]
fn a_walk_follows_links_to_files_only() {
    let file = |name: &str, text: &str| Node {
        path: FsPath::of(name),
        kind: NodeKind::File(Some(SecretBytes::new(text.as_bytes().to_vec()))),
    };
    let nodes = vec![
        file("/d/z", "z"),
        Node {
            path: FsPath::of("/d/sub"),
            kind: NodeKind::Dir(Some(vec![file("/d/sub/y", "y")])),
        },
        Node {
            path: FsPath::of("/d/link"),
            kind: NodeKind::LinkToFile(Some(SecretBytes::new(b"l".to_vec()))),
        },
        Node { path: FsPath::of("/d/gone"), kind: NodeKind::Gone },
        Node { path: FsPath::of("/d/loop"), kind: NodeKind::LinkElsewhere },
        Node { path: FsPath::of("/d/sock"), kind: NodeKind::Special },
    ];
    let found = collect_dir_files(nodes).unwrap();
    let names: Vec<String> = found.iter().map(|f| f.path.display()).collect();
    assert_eq!(names, vec!["/d/link", "/d/sub/y", "/d/z"]);
    let unreadable = vec![Node { path: FsPath::of("/d/x"), kind: NodeKind::File(None) }];
    assert!(collect_dir_files(unreadable).is_none());
    let closed = vec![Node { path: FsPath::of("/d/x"), kind: NodeKind::Dir(None) }];
    assert!(collect_dir_files(closed).is_none());
}

#[test]
fn one_directory_is_verified_by_itself() {
    let mut home = Home::new("one");
    home.create_dir("d");
    home.write("d/sub/f", b"bytes");
    let b = home.compute(&[home.join("d")]);
    match verify_dir(&b.dirs()[0], &home.below(&home.join("d").display())) {
        Ok(files) => {
            assert_eq!(files.len(), 1);
            assert_eq!(files[0].path.display(), "sub/f");
            assert_eq!(&files[0].bytes[..], b"bytes");
        }
        Err(problems) => panic!("unexpected: {problems:?}"),
    }
}
