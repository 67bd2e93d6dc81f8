//! Durable writes: a new vault file replaces the old one only after it was
//! written beside it, read back and verified.
use crate::crypto::CryptoError;
use crate::crypto::SessionView;
use crate::shim;
use crate::text;
use vstd::prelude::*;

verus! {

/// What is to be done next for a save.
#[derive(Clone, Copy, Debug, PartialEq, Eq, Structural)]
pub enum SaveStep {
    /// Create the temporary file, readable by its owner only.
    Create,
    /// Write the new text to it and sync it.
    Write,
    /// Read it back and verify it.
    ReadBack,
    /// Rename it over the vault file.
    Rename,
    /// Sync the directory.
    SyncDirectory,
    /// Remove the temporary file.
    RemoveTemp,
    /// Nothing: the new file is in place.
    Saved,
    /// Nothing: the old file was left as it was.
    Refused,
}

/// The step after `step` went well or not. A directory that cannot be synced is
/// no failure: the new file is already in place.
pub open spec fn following(step: SaveStep, ok: bool) -> SaveStep {
    match step {
        SaveStep::Create => if ok {
            SaveStep::Write
        } else {
            SaveStep::RemoveTemp
        },
        SaveStep::Write => if ok {
            SaveStep::ReadBack
        } else {
            SaveStep::RemoveTemp
        },
        SaveStep::ReadBack => if ok {
            SaveStep::Rename
        } else {
            SaveStep::RemoveTemp
        },
        SaveStep::Rename => if ok {
            SaveStep::SyncDirectory
        } else {
            SaveStep::RemoveTemp
        },
        SaveStep::SyncDirectory => SaveStep::Saved,
        SaveStep::RemoveTemp => SaveStep::Refused,
        SaveStep::Saved => SaveStep::Saved,
        SaveStep::Refused => SaveStep::Refused,
    }
}

/// The first step of a save.
pub fn first_step() -> (r: SaveStep)
    ensures
        r == SaveStep::Create,
{
    SaveStep::Create
}

/// The step to take once `step` went well or not.
pub fn next_step(step: SaveStep, ok: bool) -> (r: SaveStep)
    ensures
        r == following(step, ok),
{
    match step {
        SaveStep::Create if ok => SaveStep::Write,
        SaveStep::Write if ok => SaveStep::ReadBack,
        SaveStep::ReadBack if ok => SaveStep::Rename,
        SaveStep::Rename if ok => SaveStep::SyncDirectory,
        SaveStep::Create | SaveStep::Write | SaveStep::ReadBack | SaveStep::Rename => {
            SaveStep::RemoveTemp
        },
        SaveStep::SyncDirectory | SaveStep::Saved => SaveStep::Saved,
        SaveStep::RemoveTemp | SaveStep::Refused => SaveStep::Refused,
    }
}

/// The name of a file's temporary twin: hidden, and of this process alone.
pub open spec fn temp_name_of(file_name: Option<Seq<char>>, pid: u32) -> Seq<char> {
    let stem = match file_name {
        Some(n) => n,
        None => "vault"@,
    };
    seq!['.'] + stem + seq!['.'] + text::decimal(pid as nat) + ".tmp"@
}

/// The name of the temporary file beside a vault file. A file without a
/// readable name counts as `vault`.
pub fn temp_name(file_name: Option<&str>, pid: u32) -> (r: String)
    ensures
        r@ == temp_name_of(
            match file_name {
                Some(n) => Some(n@),
                None => None,
            },
            pid,
        ),
{
    let mut r = String::new();
    r.push('.');
    match file_name {
        Some(n) => r.append(n),
        None => r.append("vault"),
    }
    r.push('.');
    text::push_decimal(&mut r, pid as u64);
    r.append(".tmp");
    proof {
        let stem = match file_name {
            Some(n) => n@,
            None => "vault"@,
        };
        assert(r@ =~= seq!['.'] + stem + seq!['.'] + text::decimal(pid as nat) + ".tmp"@);
    }
    r
}

/// Two processes that save the same vault write to different temporary files.
pub proof fn law_temp_names_differ(file_name: Option<Seq<char>>, p: u32, q: u32)
    requires
        p != q,
    ensures
        temp_name_of(file_name, p) != temp_name_of(file_name, q),
{
    reveal_strlit(".tmp");
    let stem = match file_name {
        Some(n) => n,
        None => "vault"@,
    };
    let a = temp_name_of(file_name, p);
    let b = temp_name_of(file_name, q);
    shim::lemma_decimal_value(p as nat);
    shim::lemma_decimal_value(q as nat);
    if a == b {
        assert(a.subrange(stem.len() + 2int, a.len() - 4) =~= text::decimal(p as nat));
        assert(b.subrange(stem.len() + 2int, b.len() - 4) =~= text::decimal(q as nat));
    }
}

/// A vault file and its temporary twin, as far as they exist.
pub struct Disk {
    pub target: Option<Seq<char>>,
    pub temp: Option<Seq<char>>,
}

/// How a step went. `content` is what the temporary file holds after a step that
/// created or wrote it, which need not be what was meant.
pub struct Outcome {
    pub ok: bool,
    pub content: Seq<char>,
}

/// What a step does to the files.
pub open spec fn effect(disk: Disk, step: SaveStep, o: Outcome) -> Disk {
    match step {
        SaveStep::Create => if o.ok {
            Disk { temp: Some(o.content), ..disk }
        } else {
            disk
        },
        SaveStep::Write => Disk { temp: Some(o.content), ..disk },
        SaveStep::Rename => if o.ok {
            Disk { target: disk.temp, temp: None }
        } else {
            disk
        },
        SaveStep::RemoveTemp => if o.ok {
            Disk { temp: None, ..disk }
        } else {
            disk
        },
        _ => disk,
    }
}

/// Whether a file's text holds `plaintext` under the session's key.
pub open spec fn holds(session: SessionView, plaintext: Seq<u8>, file: Option<Seq<char>>) -> bool {
    file is Some && session.verified(file->0) == Ok::<Seq<u8>, CryptoError>(plaintext)
}

/// A file that was read back went well only if it verified.
pub open spec fn possible(
    session: SessionView,
    plaintext: Seq<u8>,
    disk: Disk,
    step: SaveStep,
    o: Outcome,
) -> bool {
    step == SaveStep::ReadBack && o.ok ==> holds(session, plaintext, disk.temp)
}

/// The step and the files after a run of outcomes.
pub open spec fn run(disk: Disk, outcomes: Seq<Outcome>) -> (SaveStep, Disk)
    decreases outcomes.len(),
{
    if outcomes.len() == 0 {
        (SaveStep::Create, disk)
    } else {
        let (step, before) = run(disk, outcomes.drop_last());
        (following(step, outcomes.last().ok), effect(before, step, outcomes.last()))
    }
}

/// Whether each outcome of a run is possible.
pub open spec fn possible_run(
    session: SessionView,
    plaintext: Seq<u8>,
    disk: Disk,
    outcomes: Seq<Outcome>,
) -> bool
    decreases outcomes.len(),
{
    outcomes.len() > 0 ==> {
        let (step, before) = run(disk, outcomes.drop_last());
        &&& possible_run(session, plaintext, disk, outcomes.drop_last())
        &&& possible(session, plaintext, before, step, outcomes.last())
    }
}

/// However a save goes and wherever it stops, the vault file is either the old
/// one, untouched, or a new one that was verified to hold what was to be saved.
/// The new one is in place exactly from the rename on, and leaves no temporary
/// file behind.
pub proof fn law_old_or_verified(
    session: SessionView,
    plaintext: Seq<u8>,
    disk: Disk,
    outcomes: Seq<Outcome>,
)
    requires
        possible_run(session, plaintext, disk, outcomes),
    ensures
        ({
            let (step, after) = run(disk, outcomes);
            if step == SaveStep::SyncDirectory || step == SaveStep::Saved {
                holds(session, plaintext, after.target) && after.temp is None
            } else {
                &&& after.target == disk.target
                &&& step == SaveStep::Rename ==> holds(session, plaintext, after.temp)
            }
        }),
    decreases outcomes.len(),
{
    if outcomes.len() > 0 {
        law_old_or_verified(session, plaintext, disk, outcomes.drop_last());
    }
}

/// A save that goes wrong before the rename, or at it, removes its temporary
/// file before it gives up.
pub proof fn law_failure_removes_temp(disk: Disk, outcomes: Seq<Outcome>)
    requires
        outcomes.len() > 0,
        run(disk, outcomes).0 == SaveStep::Refused,
        run(disk, outcomes.drop_last()).0 != SaveStep::Refused,
        outcomes.last().ok,
    ensures
        run(disk, outcomes.drop_last()).0 == SaveStep::RemoveTemp,
        run(disk, outcomes).1.temp is None,
{
}

/// A save whose steps go well creates, writes, reads back, renames and syncs, in
/// that order, and is then done. Whether the directory can be synced makes no
/// difference.
pub proof fn law_good_save_is_done(disk: Disk, outcomes: Seq<Outcome>)
    requires
        forall|i: int| 0 <= i < outcomes.len() && i < 4 ==> (#[trigger] outcomes[i]).ok,
    ensures
        run(disk, outcomes).0 == (if outcomes.len() == 0 {
            SaveStep::Create
        } else if outcomes.len() == 1 {
            SaveStep::Write
        } else if outcomes.len() == 2 {
            SaveStep::ReadBack
        } else if outcomes.len() == 3 {
            SaveStep::Rename
        } else if outcomes.len() == 4 {
            SaveStep::SyncDirectory
        } else {
            SaveStep::Saved
        }),
    decreases outcomes.len(),
{
    if outcomes.len() > 0 {
        let init = outcomes.drop_last();
        assert forall|i: int| 0 <= i < init.len() && i < 4 implies (#[trigger] init[i]).ok by {
            assert(init[i] == outcomes[i]);
        }
        law_good_save_is_done(disk, init);
        if outcomes.len() <= 4 {
            assert(outcomes[outcomes.len() - 1].ok);
        }
    }
}

/// A save in which creating, writing, reading back or renaming goes wrong removes
/// its temporary file next, and is then refused for good.
pub proof fn law_bad_save_is_refused(disk: Disk, outcomes: Seq<Outcome>, k: int)
    requires
        0 <= k < 4,
        k < outcomes.len(),
        forall|i: int| 0 <= i < k ==> (#[trigger] outcomes[i]).ok,
        !outcomes[k].ok,
    ensures
        run(disk, outcomes).0 == (if outcomes.len() == k + 1 {
            SaveStep::RemoveTemp
        } else {
            SaveStep::Refused
        }),
    decreases outcomes.len(),
{
    let init = outcomes.drop_last();
    if outcomes.len() == k + 1 {
        assert forall|i: int| 0 <= i < init.len() && i < 4 implies (#[trigger] init[i]).ok by {
            assert(init[i] == outcomes[i]);
        }
        law_good_save_is_done(disk, init);
        assert(outcomes.last() == outcomes[k]);
    } else {
        assert forall|i: int| 0 <= i < k implies (#[trigger] init[i]).ok by {
            assert(init[i] == outcomes[i]);
        }
        assert(init[k] == outcomes[k]);
        law_bad_save_is_refused(disk, init, k);
    }
}

/// A temporary file's name is hidden, ends in `.tmp`, is not the name of the file it
/// stands for, and no other file's in the same process.
pub proof fn law_temp_names_are_their_own(file: Seq<char>, other: Seq<char>, pid: u32)
    ensures
        ({
            let name = temp_name_of(Some(file), pid);
            &&& name.len() > file.len()
            &&& name[0] == '.'
            &&& name.subrange(name.len() - 4, name.len() as int) == seq!['.', 't', 'm', 'p']
            &&& name.subrange(1, 1int + file.len()) == file
            &&& name != file
            &&& file != other ==> name != temp_name_of(Some(other), pid)
            &&& temp_name_of(None, pid) == temp_name_of(
                Some(seq!['v', 'a', 'u', 'l', 't']),
                pid,
            )
        }),
{
    reveal_strlit(".tmp");
    reveal_strlit("vault");
    let name = temp_name_of(Some(file), pid);
    let twin = temp_name_of(Some(other), pid);
    let d = text::decimal(pid as nat);
    assert(name.subrange(name.len() - 4, name.len() as int) =~= seq!['.', 't', 'm', 'p']);
    assert(name.subrange(1, 1int + file.len()) =~= file);
    assert("vault"@ =~= seq!['v', 'a', 'u', 'l', 't']);
    if name == twin {
        assert(name.len() == file.len() + d.len() + 6);
        assert(twin.len() == other.len() + d.len() + 6);
        assert(twin.subrange(1, 1int + other.len()) =~= other);
    }
}

} // verus!
