use envvault::commands::run_needs;
use envvault::crypto::{open, Session};
use envvault::dirrun;
use envvault::dirrun::{Autosaver, DirPlan, DirStep};
use envvault::fingerprint::{fingerprint_input, Listed, Look, Stamp};
use envvault::integrity::verifying::FrozenItem;
use envvault::journal;
use envvault::journal::SaveStep;
use envvault::namespace::{
    enter_user_mount_ns, launch_first, launch_next, unrun, LaunchStep, NsStep, UnrunStep,
};
use envvault::path::FsPath;
use envvault::run;
use envvault::run::RunStep;
use envvault::sandbox::{
    freeze_items, id_map, is_restricted, mask_paths, rebind_sibling, scratch_name,
    userns_unavailable, EntryKind, Freeze, Mask, PathKind, Sibling,
};
use envvault::secret::SecretBytes;
use envvault::shim::{
    fd_path, is_elf, ready_timeout, ready_verdict, timeout_millis, write_progress, PollEvent, WriteEvent,
    WriteProgress,
};
use envvault::vault::EnvVault;

/// A directory in memory, on which a save does its steps.
struct Disk {
    target: Option<String>,
    temp: Option<String>,
}

/// Saves like the program does; `fail` is the step that goes wrong.
fn save(disk: &mut Disk, session: &Session, plaintext: &[u8], fail: Option<SaveStep>) -> bool {
    let text = session.armor(plaintext).unwrap();
    let mut step = journal::first_step();
    loop {
        let wanted = fail != Some(step);
        let ok = match step {
            SaveStep::Create => {
                disk.temp = Some(String::new());
                wanted
            }
            SaveStep::Write => {
                disk.temp = Some(if wanted { text.clone() } else { text[..9].to_string() });
                wanted
            }
            SaveStep::ReadBack => {
                let mut back = disk.temp.clone().unwrap();
                if !wanted {
                    back.pop();
                    back.pop();
                    back.push('!');
                }
                session.verify_written(&back, plaintext).is_ok()
            }
            SaveStep::Rename => {
                if wanted {
                    disk.target = disk.temp.take();
                }
                wanted
            }
            SaveStep::SyncDirectory => wanted,
            SaveStep::RemoveTemp => {
                disk.temp = None;
                true
            }
            SaveStep::Saved => return true,
            SaveStep::Refused => return false,
        };
        step = journal::next_step(step, ok);
    }
}

#[test]
fn save_leaves_no_temp_litter_and_overwrites_atomically() {
    let session = Session::create(b"pw").unwrap();
    let mut disk = Disk { target: None, temp: None };
    assert!(save(&mut disk, &session, b"K=1\n", None));
    // Re-save over the existing vault (the autosave / re-encrypt case).
    assert!(save(&mut disk, &session, b"K=2\n", None));

    // The new contents are present...
    let (_s, pt) = open(disk.target.as_ref().unwrap(), b"pw").unwrap();
    assert_eq!(&pt[..], b"K=2\n");

    // ...and no temp file was left behind in the directory.
    assert!(disk.temp.is_none(), "stray temp file: {:?}", disk.temp);
}

#[test]
fn a_failed_save_keeps_the_old_file() {
    let session = Session::with_salt(1, vec![8; 16], b"pw").unwrap();
    for fail in [SaveStep::Create, SaveStep::Write, SaveStep::ReadBack, SaveStep::Rename] {
        let mut disk = Disk { target: Some("old".to_string()), temp: None };
        assert!(!save(&mut disk, &session, b"K=1\n", Some(fail)));
        assert_eq!(disk.target.as_deref(), Some("old"));
        assert!(disk.temp.is_none());
    }
    let mut disk = Disk { target: None, temp: None };
    assert!(save(&mut disk, &session, b"K=1\n", Some(SaveStep::SyncDirectory)));
    assert!(disk.target.is_some());
}

#[test]
fn temporary_names_are_hidden_and_of_one_process() {
    assert_eq!(journal::temp_name(Some("w.vault"), 7), ".w.vault.7.tmp");
    assert_eq!(journal::temp_name(None, 4294967295), ".vault.4294967295.tmp");
    assert_ne!(journal::temp_name(Some("w"), 11), journal::temp_name(Some("w"), 1));
}

#[test]
fn payloads_are_cut_by_zero_bytes() {
    let vault = EnvVault::parse("A=1\nB=é\n");
    assert_eq!(&run::build_payload(&vault)[..], "A=1\0B=é\0".as_bytes());
    assert!(run::build_payload(&EnvVault::default()).is_empty());
}

#[test]
fn exit_codes_are_passed_on() {
    assert_eq!(run::exit_code(Some(3), None), 3);
    assert_eq!(run::exit_code(None, Some(9)), 137);
    assert_eq!(run::exit_code(None, None), 128);
}

fn run_with(fail: Option<RunStep>) -> Vec<RunStep> {
    let mut step = run::first_step();
    let mut seen = vec![step];
    while !matches!(step, RunStep::Finished | RunStep::Failed | RunStep::Aborted) {
        step = run::next_step(step, fail != Some(step));
        seen.push(step);
    }
    seen
}

#[test]
fn secrets_are_sent_only_to_a_ready_shim() {
    assert_eq!(
        run_with(None),
        vec![
            RunStep::StageShim,
            RunStep::OpenPipes,
            RunStep::Spawn,
            RunStep::AwaitReady,
            RunStep::SendSecrets,
            RunStep::Wait,
            RunStep::Finished,
        ]
    );
    let aborted = run_with(Some(RunStep::AwaitReady));
    assert!(!aborted.contains(&RunStep::SendSecrets));
    assert!(aborted.contains(&RunStep::Kill));
    assert_eq!(aborted.last(), Some(&RunStep::Aborted));
    assert_eq!(run_with(Some(RunStep::SendSecrets)).last(), Some(&RunStep::Failed));
    assert_eq!(
        run_with(Some(RunStep::StageShim)),
        vec![RunStep::StageShim, RunStep::Failed]
    );
}

#[test]
fn a_namespace_ends_hardened() {
    let mut step = NsStep::Loosen;
    let mut seen = vec![step];
    while step != NsStep::Entered {
        step = enter_user_mount_ns(step, true);
        seen.push(step);
    }
    assert_eq!(
        seen,
        vec![
            NsStep::Loosen,
            NsStep::Unshare,
            NsStep::Harden(true),
            NsStep::PrivateRoot,
            NsStep::Entered,
        ]
    );
    assert_eq!(enter_user_mount_ns(NsStep::Unshare, false), NsStep::Harden(false));
    assert_eq!(enter_user_mount_ns(NsStep::Harden(false), true), NsStep::Failed);
    assert_eq!(enter_user_mount_ns(NsStep::PrivateRoot, false), NsStep::Failed);
}

#[test]
fn a_run_is_prepared_before_the_program_starts() {
    let needs = run_needs(true, false, true);
    let mut step = launch_first(needs);
    let mut seen = Vec::new();
    while step != LaunchStep::Launched {
        if !matches!(step, LaunchStep::Enter(_)) {
            seen.push(step);
        }
        step = launch_next(needs, step, true);
    }
    assert_eq!(
        seen,
        vec![
            LaunchStep::Open,
            LaunchStep::Verify,
            LaunchStep::Freeze,
            LaunchStep::Mask,
            LaunchStep::Launch,
        ]
    );
    assert_eq!(launch_next(needs, LaunchStep::Verify, false), LaunchStep::Failed);
    let plain = run_needs(false, false, false);
    assert_eq!(launch_first(plain), LaunchStep::Open);
    assert_eq!(launch_next(plain, LaunchStep::Open, true), LaunchStep::Launch);
}

#[test]
fn an_unrun_hides_before_it_starts() {
    let mut step = UnrunStep::Enter(NsStep::Loosen);
    let mut seen = Vec::new();
    while step != UnrunStep::Finished {
        if !matches!(step, UnrunStep::Enter(_)) {
            seen.push(step);
        }
        step = unrun(step, true);
    }
    assert_eq!(seen, vec![UnrunStep::Mask, UnrunStep::Spawn, UnrunStep::Wait]);
    assert_eq!(unrun(UnrunStep::Mask, false), UnrunStep::Failed);
}

fn dir_run(plan: DirPlan, fail: Option<DirStep>) -> Vec<DirStep> {
    let mut step = dirrun::first_step();
    let mut seen = Vec::new();
    loop {
        if !matches!(step, DirStep::Enter(_)) {
            seen.push(step);
        }
        if matches!(step, DirStep::Finished | DirStep::Failed) {
            return seen;
        }
        step = dirrun::next_step(plan, step, fail != Some(step));
    }
}

#[test]
fn a_directory_run_saves_last() {
    assert_eq!(
        dir_run(DirPlan { autosave: true, harden: true }, None),
        vec![
            DirStep::Open,
            DirStep::Expose,
            DirStep::Prepare,
            DirStep::StartAutosave,
            DirStep::StageShim,
            DirStep::Spawn,
            DirStep::AwaitShim,
            DirStep::Wait,
            DirStep::StopAutosave,
            DirStep::Save,
            DirStep::Finished,
        ]
    );
    assert_eq!(
        dir_run(DirPlan { autosave: false, harden: false }, None),
        vec![
            DirStep::Open,
            DirStep::Expose,
            DirStep::Prepare,
            DirStep::Spawn,
            DirStep::Wait,
            DirStep::Save,
            DirStep::Finished,
        ]
    );
    let refused = dir_run(DirPlan { autosave: true, harden: true }, Some(DirStep::Prepare));
    assert!(!refused.contains(&DirStep::Spawn) && !refused.contains(&DirStep::Save));
    let warned = dir_run(DirPlan { autosave: false, harden: true }, Some(DirStep::AwaitShim));
    assert_eq!(warned.last(), Some(&DirStep::Finished));
}

#[test]
fn autosaving_waits_for_quiet() {
    let mut saver = Autosaver::new(1, 0, 2000);
    assert!(!saver.tick(1, 5000));
    assert!(!saver.tick(2, 5500));
    assert!(!saver.tick(2, 7499));
    assert!(saver.tick(2, 7500));
    saver.saved(false);
    assert!(saver.tick(2, 8000));
    saver.saved(true);
    assert!(!saver.tick(2, 20000));
    assert!(!saver.tick(3, 20500));
    assert!(!saver.tick(2, 21000));
    assert!(!saver.tick(2, 30000));
}

fn listed(path: &str, len: u64, nanos: i64) -> Listed {
    Listed { path: FsPath::of(path), stamp: Some(Stamp { len, seconds: -1, nanos }) }
}

#[test]
fn fingerprints_are_taken_of_paths_sizes_and_times() {
    assert!(fingerprint_input(Look::Nothing).is_empty());
    let single = Look::Single(Stamp { len: 258, seconds: -1, nanos: 3 });
    let mut bytes = vec![2, 1, 0, 0, 0, 0, 0, 0];
    bytes.extend([255; 8]);
    bytes.extend([3, 0, 0, 0, 0, 0, 0, 0]);
    assert_eq!(fingerprint_input(single), bytes);

    let lost = Listed { path: FsPath::of("/d/a/x"), stamp: None };
    let look = Look::Dir(vec![listed("/d/a.b", 258, 3), lost, listed("/d/a", 258, 3)]);
    let mut want = b"/d/a".to_vec();
    want.extend(&bytes);
    want.extend(b"/d/a/x/d/a.b");
    want.extend(&bytes);
    assert_eq!(fingerprint_input(look), want);
}

#[test]
fn every_kind_of_change_is_noticed() {
    let base = || vec![listed("/d/a", 1, 2), listed("/d/b", 3, 4)];
    let taken = |entries| fingerprint_input(Look::Dir(entries));
    assert_eq!(taken(base()), taken(base().into_iter().rev().collect()));
    for n in 0..2 {
        let mut resized = base();
        resized[n].stamp = Some(Stamp { len: 9, seconds: -1, nanos: 2 });
        assert_ne!(taken(base()), taken(resized));
        let mut removed = base();
        removed.remove(n);
        assert_ne!(taken(base()), taken(removed));
    }
    let mut rewritten = base();
    rewritten[1] = listed("/d/b", 3, 5);
    assert_ne!(taken(base()), taken(rewritten));
    let mut added = base();
    added.push(listed("/d/c", 0, 0));
    assert_ne!(taken(base()), taken(added));
}

#[test]
fn waiting_for_the_shim() {
    assert_eq!(ready_timeout(None), 5);
    assert_eq!(ready_timeout(Some("30")), 30);
    assert_eq!(ready_timeout(Some("+7")), 7);
    assert_eq!(ready_timeout(Some("0")), 5);
    assert_eq!(ready_timeout(Some("-1")), 5);
    assert_eq!(ready_timeout(Some("")), 5);
    assert_eq!(ready_timeout(Some("+")), 5);
    assert_eq!(ready_timeout(Some("18446744073709551615")), 18446744073709551615);
    assert_eq!(ready_timeout(Some("18446744073709551616")), 5);
    assert_eq!(timeout_millis(5), 5000);
    assert_eq!(timeout_millis(2147483), 2147483000);
    assert_eq!(timeout_millis(2147484), 2147483647);
    assert_eq!(timeout_millis(18446744073709551615), 2147483647);
    assert_eq!(ready_verdict(PollEvent::Interrupted), None);
    assert_eq!(ready_verdict(PollEvent::TimedOut), Some(false));
    assert_eq!(ready_verdict(PollEvent::Failed), Some(false));
    assert_eq!(ready_verdict(PollEvent::Read(None)), Some(false));
    assert_eq!(ready_verdict(PollEvent::Read(Some(b'x'))), Some(false));
    assert_eq!(ready_verdict(PollEvent::Read(Some(b'R'))), Some(true));
}

#[test]
fn writing_goes_on_to_the_end() {
    assert_eq!(write_progress(10, 0, WriteEvent::Wrote(4)), WriteProgress::From(4));
    assert_eq!(write_progress(10, 4, WriteEvent::Interrupted), WriteProgress::From(4));
    assert_eq!(write_progress(10, 4, WriteEvent::Wrote(6)), WriteProgress::Done);
    assert_eq!(write_progress(10, 4, WriteEvent::Failed), WriteProgress::Failed);
    let mut offset = 0;
    for event in [
        WriteEvent::Wrote(3),
        WriteEvent::Interrupted,
        WriteEvent::Wrote(0),
        WriteEvent::Wrote(6),
    ] {
        match write_progress(10, offset, event) {
            WriteProgress::From(next) => offset = next,
            other => panic!("nine of ten bytes are written: {other:?}"),
        }
    }
    assert_eq!(offset, 9);
    assert_eq!(fd_path(12), "/proc/self/fd/12");
    assert!(is_elf(b"\x7fELF\x02"));
    assert!(!is_elf(b"\x7fELG\x02") && !is_elf(b"\x7fEL") && !is_elf(b""));
}

#[test]
fn existing_paths_are_masked() {
    let paths = [FsPath::of("/d"), FsPath::of("/none"), FsPath::of("/f")];
    let kinds = [PathKind::Dir, PathKind::Other, PathKind::File];
    let masks = mask_paths(&paths, &kinds);
    assert_eq!(masks.len(), 2);
    assert!(matches!(&masks[0], Mask::EmptyDir(p) if p.as_bytes() == b"/d"));
    assert!(matches!(&masks[1], Mask::EmptyFile(p) if p.as_bytes() == b"/f"));
}

#[test]
fn frozen_files_get_names_of_their_own() {
    let file = |p: &str| FrozenItem::File {
        path: FsPath::of(p),
        bytes: SecretBytes::new(Vec::new()),
    };
    let items = vec![
        file("/a"),
        FrozenItem::Dir { path: FsPath::of("/d"), files: Vec::new() },
        file("/b"),
        FrozenItem::Absent { path: FsPath::of("/n1") },
        FrozenItem::Absent { path: FsPath::of("/n2") },
        FrozenItem::Absent { path: FsPath::of("/n3") },
    ];
    let kinds = [
        PathKind::File,
        PathKind::Dir,
        PathKind::File,
        PathKind::Dir,
        PathKind::File,
        PathKind::Other,
    ];
    let plan = freeze_items(&items, &kinds);
    assert_eq!(plan.len(), 5);
    assert!(matches!(&plan[0], Freeze::Bind { item: 0, staged } if staged == "f0"));
    assert!(matches!(&plan[1], Freeze::Layout { item: 1 }));
    assert!(matches!(&plan[2], Freeze::Bind { item: 2, staged } if staged == "f1"));
    assert!(matches!(&plan[3], Freeze::EmptyDir { item: 3 }));
    assert!(matches!(&plan[4], Freeze::EmptyFile { item: 4 }));
}

#[test]
fn siblings_come_back() {
    assert_eq!(rebind_sibling(b"auth", b"auth", EntryKind::Other), Sibling::Skip);
    assert_eq!(rebind_sibling(b"db", b"auth", EntryKind::Other), Sibling::BindFile);
    assert_eq!(rebind_sibling(b"db", b"auth", EntryKind::Dir), Sibling::BindDir);
    assert_eq!(rebind_sibling(b"db", b"auth", EntryKind::Link), Sibling::MakeLink);
}

#[test]
fn namespace_texts() {
    assert_eq!(scratch_name("mask", 10), ".envvault-mask-10");
    assert_eq!(id_map(1000), "1000 1000 1");
    assert!(is_restricted(1) && is_restricted(13) && !is_restricted(2));
    assert_eq!(
        userns_unavailable("unshare: denied"),
        "could not set up a user namespace (unshare: denied).\n\
         Directory vaults need unprivileged user namespaces, which this system \
         appears to restrict or disable. Enable them, for example:\n  \
         sudo sysctl -w kernel.unprivileged_userns_clone=1\n\
         (On Ubuntu 24.04+ you may also need: \
         sudo sysctl -w kernel.apparmor_restrict_unprivileged_userns=0)"
    );
}
