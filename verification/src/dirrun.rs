//! The course of a run over a directory vault: expose its contents in memory,
//! run a program, and encrypt them again when it ends.
use crate::namespace;
use crate::namespace::NsStep;
use vstd::prelude::*;

verus! {

/// What is to be done next.
#[derive(Clone, Copy, Debug, PartialEq, Eq, Structural)]
pub enum DirStep {
    /// Enter a private namespace.
    Enter(NsStep),
    /// Ask for the password and decrypt the vault.
    Open,
    /// Mount memory over the target and lay the contents out in it.
    Expose,
    /// Freeze and mask what was asked for.
    Prepare,
    /// Start saving while the program runs.
    StartAutosave,
    /// Put the shim into a sealed memory file and open its pipe.
    StageShim,
    /// Start the program.
    Spawn,
    /// Wait for the shim to report in; warn if it does not.
    AwaitShim,
    /// Wait for the program to end.
    Wait,
    /// Stop saving in between.
    StopAutosave,
    /// Encrypt the contents into the vault.
    Save,
    /// Nothing: pass the program's exit code on.
    Finished,
    /// Nothing: fail, with the vault as it was last saved.
    Failed,
}

/// What a run was asked for.
#[derive(Clone, Copy, Debug, PartialEq, Eq, Structural)]
pub struct DirPlan {
    pub autosave: bool,
    pub harden: bool,
}

/// The step after the preparations and the start of saving.
pub open spec fn before_spawn(plan: DirPlan) -> DirStep {
    if plan.harden {
        DirStep::StageShim
    } else {
        DirStep::Spawn
    }
}

/// The step after `step` went well or not.
pub open spec fn following(plan: DirPlan, step: DirStep, ok: bool) -> DirStep {
    match step {
        DirStep::Enter(n) => match namespace::ns_following(n, ok) {
            NsStep::Entered => DirStep::Open,
            NsStep::Failed => DirStep::Failed,
            next => DirStep::Enter(next),
        },
        DirStep::Open => if ok {
            DirStep::Expose
        } else {
            DirStep::Failed
        },
        DirStep::Expose => if ok {
            DirStep::Prepare
        } else {
            DirStep::Failed
        },
        DirStep::Prepare => if !ok {
            DirStep::Failed
        } else if plan.autosave {
            DirStep::StartAutosave
        } else {
            before_spawn(plan)
        },
        DirStep::StartAutosave => before_spawn(plan),
        DirStep::StageShim => if ok {
            DirStep::Spawn
        } else {
            DirStep::Failed
        },
        DirStep::Spawn => if !ok {
            DirStep::Failed
        } else if plan.harden {
            DirStep::AwaitShim
        } else {
            DirStep::Wait
        },
        DirStep::AwaitShim => DirStep::Wait,
        DirStep::Wait => if !ok {
            DirStep::Failed
        } else if plan.autosave {
            DirStep::StopAutosave
        } else {
            DirStep::Save
        },
        DirStep::StopAutosave => DirStep::Save,
        DirStep::Save => if ok {
            DirStep::Finished
        } else {
            DirStep::Failed
        },
        DirStep::Finished => DirStep::Finished,
        DirStep::Failed => DirStep::Failed,
    }
}

/// The first step of a run.
pub fn first_step() -> (r: DirStep)
    ensures
        r == DirStep::Enter(NsStep::Loosen),
{
    DirStep::Enter(NsStep::Loosen)
}

/// The step to take once `step` went well or not.
pub fn next_step(plan: DirPlan, step: DirStep, ok: bool) -> (r: DirStep)
    ensures
        r == following(plan, step, ok),
{
    match step {
        DirStep::Enter(n) => match namespace::enter_user_mount_ns(n, ok) {
            NsStep::Entered => DirStep::Open,
            NsStep::Failed => DirStep::Failed,
            next => DirStep::Enter(next),
        },
        DirStep::StartAutosave => if plan.harden {
            DirStep::StageShim
        } else {
            DirStep::Spawn
        },
        DirStep::AwaitShim => DirStep::Wait,
        DirStep::StopAutosave => DirStep::Save,
        DirStep::Finished => DirStep::Finished,
        DirStep::Failed => DirStep::Failed,
        _ if !ok => DirStep::Failed,
        DirStep::Open => DirStep::Expose,
        DirStep::Expose => DirStep::Prepare,
        DirStep::Prepare => if plan.autosave {
            DirStep::StartAutosave
        } else if plan.harden {
            DirStep::StageShim
        } else {
            DirStep::Spawn
        },
        DirStep::StageShim => DirStep::Spawn,
        DirStep::Spawn => if plan.harden {
            DirStep::AwaitShim
        } else {
            DirStep::Wait
        },
        DirStep::Wait => if plan.autosave {
            DirStep::StopAutosave
        } else {
            DirStep::Save
        },
        DirStep::Save => DirStep::Finished,
    }
}

/// What a run has done so far.
pub struct DirState {
    pub step: DirStep,
    /// Whether this process can be dumped.
    pub dumpable: bool,
    /// Whether the password or the contents may be in memory.
    pub opened: bool,
    /// Whether the preparations went well.
    pub prepared: bool,
    /// Whether the program may have been started.
    pub spawned: bool,
    /// Whether the program has ended.
    pub ended: bool,
    /// Whether saving in between may be going on.
    pub autosaving: bool,
    /// Whether the vault may have been written at the end.
    pub written: bool,
}

/// A run after some outcomes.
pub open spec fn ran(plan: DirPlan, outcomes: Seq<bool>) -> DirState
    decreases outcomes.len(),
{
    if outcomes.len() == 0 {
        DirState {
            step: DirStep::Enter(NsStep::Loosen),
            dumpable: false,
            opened: false,
            prepared: false,
            spawned: false,
            ended: false,
            autosaving: false,
            written: false,
        }
    } else {
        let b = ran(plan, outcomes.drop_last());
        let ok = outcomes.last();
        DirState {
            step: following(plan, b.step, ok),
            dumpable: match b.step {
                DirStep::Enter(n) => namespace::dumpable_after(n, b.dumpable),
                _ => b.dumpable,
            },
            opened: b.opened || b.step == DirStep::Open,
            prepared: b.prepared || (b.step == DirStep::Prepare && ok),
            spawned: b.spawned || b.step == DirStep::Spawn,
            ended: b.ended || (b.step == DirStep::Wait && ok),
            autosaving: if b.step == DirStep::StartAutosave {
                true
            } else if b.step == DirStep::StopAutosave {
                false
            } else {
                b.autosaving
            },
            written: b.written || b.step == DirStep::Save,
        }
    }
}

/// How far a step is along.
pub open spec fn stage(step: DirStep) -> int {
    match step {
        DirStep::Enter(NsStep::Loosen) => 0,
        DirStep::Enter(NsStep::Unshare) => 1,
        DirStep::Enter(NsStep::Harden(_)) => 2,
        DirStep::Enter(_) => 3,
        DirStep::Open => 4,
        DirStep::Expose => 5,
        DirStep::Prepare => 6,
        DirStep::StartAutosave => 7,
        DirStep::StageShim => 8,
        DirStep::Spawn => 9,
        DirStep::AwaitShim => 10,
        DirStep::Wait => 11,
        DirStep::StopAutosave => 12,
        DirStep::Save => 13,
        DirStep::Finished => 14,
        DirStep::Failed => 15,
    }
}

proof fn lemma_stages(plan: DirPlan, outcomes: Seq<bool>)
    ensures
        ({
            let s = ran(plan, outcomes);
            let n = stage(s.step);
            &&& s.dumpable ==> n == 1 || n == 2
            &&& s.opened ==> n > 4
            &&& s.prepared ==> n > 6
            &&& s.spawned ==> n > 9
            &&& s.ended ==> n > 11
            &&& s.written ==> n > 13
            &&& s.autosaving ==> n > 7
            &&& 6 < n < 15 ==> s.prepared
            &&& 9 < n < 15 ==> s.spawned
            &&& 11 < n < 15 ==> s.ended
            &&& s.autosaving || s.spawned ==> s.prepared
            &&& s.ended ==> s.spawned
            &&& s.written ==> s.ended && s.prepared
            &&& s.autosaving ==> plan.autosave
            &&& n == 13 || n == 14 ==> !s.autosaving
            &&& s.written ==> !s.autosaving
        }),
    decreases outcomes.len(),
{
    if outcomes.len() > 0 {
        lemma_stages(plan, outcomes.drop_last());
    }
}

/// The password and the contents are in memory only while the process cannot be
/// dumped.
pub proof fn law_secrets_only_while_hardened(plan: DirPlan, outcomes: Seq<bool>)
    ensures
        ran(plan, outcomes).opened ==> !ran(plan, outcomes).dumpable,
        ran(plan, outcomes).step == DirStep::Open ==> !ran(plan, outcomes).dumpable,
{
    lemma_stages(plan, outcomes);
}

/// Nothing is saved and no program is started before the preparations went well:
/// if they fail, the vault is left untouched.
pub proof fn law_failed_preparation_leaves_vault(plan: DirPlan, outcomes: Seq<bool>)
    ensures
        ({
            let s = ran(plan, outcomes);
            s.spawned || s.autosaving || s.written ==> s.prepared
        }),
{
    lemma_stages(plan, outcomes);
}

/// The last save comes after the program has ended and saving in between has
/// stopped, and a run that finishes has made it.
pub proof fn law_last_save_is_authoritative(plan: DirPlan, outcomes: Seq<bool>)
    ensures
        ({
            let s = ran(plan, outcomes);
            &&& s.step == DirStep::Save || s.written ==> s.ended && !s.autosaving
            &&& s.step == DirStep::Finished ==> s.written
        }),
{
    lemma_stages(plan, outcomes);
    lemma_finished(plan, outcomes);
}

proof fn lemma_finished(plan: DirPlan, outcomes: Seq<bool>)
    ensures
        ran(plan, outcomes).step == DirStep::Finished ==> ran(plan, outcomes).written,
    decreases outcomes.len(),
{
    if outcomes.len() > 0 {
        lemma_finished(plan, outcomes.drop_last());
    }
}

/// Saving in between: what was seen and saved last, and when it last changed.
/// Times are milliseconds of one clock.
#[derive(Clone, Copy, Debug, PartialEq, Eq, Structural)]
pub struct Autosaver {
    pub last_seen: u64,
    pub last_saved: u64,
    pub last_change: u64,
    pub debounce: u64,
}

impl Autosaver {
    /// Starts on contents that are on disk already.
    pub fn new(fingerprint: u64, now: u64, debounce: u64) -> (r: Self)
        ensures
            r == (Autosaver {
                last_seen: fingerprint,
                last_saved: fingerprint,
                last_change: now,
                debounce,
            }),
            forall|later: u64| !#[trigger] r.due(later),
    {
        Autosaver {
            last_seen: fingerprint,
            last_saved: fingerprint,
            last_change: now,
            debounce,
        }
    }

    /// The state after a look at the contents.
    pub open spec fn looked(self, fingerprint: u64, now: u64) -> Autosaver {
        if fingerprint != self.last_seen {
            Autosaver { last_seen: fingerprint, last_change: now, ..self }
        } else {
            self
        }
    }

    /// Whether there is something new that has been quiet for long enough.
    pub open spec fn due(self, now: u64) -> bool {
        self.last_seen != self.last_saved && now - self.last_change >= self.debounce
    }

    /// Takes note of the contents' fingerprint and says whether to save now.
    pub fn tick(&mut self, fingerprint: u64, now: u64) -> (r: bool)
        requires
            old(self).last_change <= now,
        ensures
            *final(self) == old(self).looked(fingerprint, now),
            r == final(self).due(now),
            final(self).last_change <= now,
    {
        if fingerprint != self.last_seen {
            self.last_seen = fingerprint;
            self.last_change = now;
        }
        self.last_seen != self.last_saved && now - self.last_change >= self.debounce
    }

    /// Takes note of how a save went. After a failure it stays due.
    pub fn saved(&mut self, ok: bool)
        ensures
            *final(self) == (Autosaver {
                last_saved: if ok {
                    old(self).last_seen
                } else {
                    old(self).last_saved
                },
                ..*old(self)
            }),
            ok ==> forall|now: u64| !#[trigger] final(self).due(now),
            !ok ==> *final(self) == *old(self),
    {
        if ok {
            self.last_saved = self.last_seen;
        }
    }
}

/// A save in between happens only for contents that differ from what was saved
/// and, unless no wait is asked for, that the last look found unchanged.
pub proof fn law_autosave_waits_for_quiet(a: Autosaver, fingerprint: u64, now: u64)
    requires
        a.looked(fingerprint, now).due(now),
    ensures
        fingerprint != a.last_saved,
        a.debounce > 0 ==> fingerprint == a.last_seen && now - a.last_change >= a.debounce,
{
}

/// A look at the contents makes a save due exactly if they differ from what was
/// saved last and have been the same for as long as was asked for: since they
/// last changed if this look found them unchanged, and not at all if it found
/// them changed. A look saves nothing itself.
pub proof fn law_settled_changes_are_saved(a: Autosaver, fingerprint: u64, now: u64)
    ensures
        ({
            let quiet: int = if fingerprint == a.last_seen {
                now - a.last_change
            } else {
                0
            };
            let after = a.looked(fingerprint, now);
            &&& after.due(now) <==> fingerprint != a.last_saved && quiet >= a.debounce
            &&& after.last_seen == fingerprint
            &&& now - after.last_change == quiet
            &&& after.last_saved == a.last_saved
            &&& after.debounce == a.debounce
        }),
{
}

/// Contents that change once and then stay as they are are saved as soon as they
/// have been looked at again after the time that was asked for, and not before.
pub proof fn law_change_is_saved_once_quiet(
    a: Autosaver,
    fingerprint: u64,
    changed: u64,
    now: u64,
)
    requires
        fingerprint != a.last_seen,
        fingerprint != a.last_saved,
        changed <= now,
    ensures
        a.looked(fingerprint, changed).looked(fingerprint, now).due(now) <==> now - changed
            >= a.debounce,
{
}

/// The steps of a run that goes well.
pub open spec fn dir_plan(plan: DirPlan) -> Seq<DirStep> {
    let prepare = seq![
        DirStep::Enter(NsStep::Loosen),
        DirStep::Enter(NsStep::Unshare),
        DirStep::Enter(NsStep::Harden(true)),
        DirStep::Enter(NsStep::PrivateRoot),
        DirStep::Open,
        DirStep::Expose,
        DirStep::Prepare,
    ];
    let start = if plan.autosave {
        seq![DirStep::StartAutosave]
    } else {
        Seq::empty()
    };
    let go = if plan.harden {
        seq![DirStep::StageShim, DirStep::Spawn, DirStep::AwaitShim]
    } else {
        seq![DirStep::Spawn]
    };
    let stop = if plan.autosave {
        seq![DirStep::Wait, DirStep::StopAutosave]
    } else {
        seq![DirStep::Wait]
    };
    prepare + start + go + stop + seq![DirStep::Save, DirStep::Finished]
}

/// Whether a run goes on after a step even if it went wrong: saving in between, and a
/// shim that does not report in, are worth a warning only, and hardening follows
/// whether or not a namespace was left.
pub open spec fn goes_on(step: DirStep) -> bool {
    match step {
        DirStep::Enter(n) => n != NsStep::PrivateRoot,
        DirStep::StartAutosave => true,
        DirStep::AwaitShim => true,
        DirStep::StopAutosave => true,
        _ => false,
    }
}

proof fn lemma_dir_plan(plan: DirPlan, i: int)
    requires
        0 <= i < dir_plan(plan).len() - 1,
    ensures
        dir_plan(plan)[0] == DirStep::Enter(NsStep::Loosen),
        following(plan, dir_plan(plan)[i], true) == dir_plan(plan)[i + 1],
        !goes_on(dir_plan(plan)[i]) ==> following(plan, dir_plan(plan)[i], false)
            == DirStep::Failed,
        goes_on(dir_plan(plan)[i]) && !(dir_plan(plan)[i] is Enter) ==> following(
            plan,
            dir_plan(plan)[i],
            false,
        ) == dir_plan(plan)[i + 1],
{
    let p = dir_plan(plan);
    assert(p[0] == DirStep::Enter(NsStep::Loosen));
    assert(p[1] == DirStep::Enter(NsStep::Unshare));
    assert(p[2] == DirStep::Enter(NsStep::Harden(true)));
    assert(p[3] == DirStep::Enter(NsStep::PrivateRoot));
    assert(p[4] == DirStep::Open);
    assert(p[5] == DirStep::Expose);
    assert(p[6] == DirStep::Prepare);
}

/// A run in which nothing that matters goes wrong takes exactly the steps that were
/// asked for, in order: the namespace, the password, the contents, the preparations,
/// saving in between if asked for, the shim if asked for, the program, and at last
/// the save.
pub proof fn law_good_dir_run_goes_by_plan(plan: DirPlan, outcomes: Seq<bool>)
    requires
        forall|i: int|
            0 <= i < outcomes.len() && i < dir_plan(plan).len() - 1 && !(#[trigger] outcomes[i])
                ==> goes_on(dir_plan(plan)[i]) && !(dir_plan(plan)[i] is Enter),
    ensures
        ran(plan, outcomes).step == (if outcomes.len() < dir_plan(plan).len() {
            dir_plan(plan)[outcomes.len() as int]
        } else {
            DirStep::Finished
        }),
    decreases outcomes.len(),
{
    let p = dir_plan(plan);
    assert(p.len() >= 11);
    assert(p[p.len() - 1] == DirStep::Finished);
    lemma_dir_plan(plan, 0);
    if outcomes.len() > 0 {
        let init = outcomes.drop_last();
        let n = init.len() as int;
        assert forall|i: int|
            0 <= i < init.len() && i < p.len() - 1 && !(#[trigger] init[i]) implies goes_on(p[i])
            && !(p[i] is Enter) by {
            assert(init[i] == outcomes[i]);
        }
        law_good_dir_run_goes_by_plan(plan, init);
        assert(outcomes.last() == outcomes[n]);
        if n < p.len() - 1 {
            lemma_dir_plan(plan, n);
        }
    }
}

/// A run in which a step goes wrong that matters has failed from then on.
pub proof fn law_bad_dir_run_fails(plan: DirPlan, outcomes: Seq<bool>, k: int)
    requires
        0 <= k < outcomes.len(),
        k < dir_plan(plan).len() - 1,
        forall|i: int| 0 <= i < k ==> #[trigger] outcomes[i],
        !outcomes[k],
        !goes_on(dir_plan(plan)[k]),
    ensures
        ran(plan, outcomes).step == DirStep::Failed,
    decreases outcomes.len(),
{
    let init = outcomes.drop_last();
    if outcomes.len() == k + 1 {
        assert forall|i: int|
            0 <= i < init.len() && i < dir_plan(plan).len() - 1 && !(
            #[trigger] init[i]) implies goes_on(dir_plan(plan)[i]) && !(dir_plan(
            plan,
        )[i] is Enter) by {
            assert(init[i] == outcomes[i]);
        }
        law_good_dir_run_goes_by_plan(plan, init);
        lemma_dir_plan(plan, k);
    } else {
        assert forall|i: int| 0 <= i < k implies #[trigger] init[i] by {
            assert(init[i] == outcomes[i]);
        }
        assert(init[k] == outcomes[k]);
        law_bad_dir_run_fails(plan, init, k);
    }
}

/// A run goes on to the password exactly if it got into a namespace of its own with
/// private mounts, and has failed otherwise. What has failed or is finished stays
/// so.
pub proof fn law_dir_run_needs_its_namespace(plan: DirPlan, a: bool, b: bool, c: bool, d: bool)
    ensures
        ran(plan, seq![a, b, c, d]).step == (if b && d {
            DirStep::Open
        } else {
            DirStep::Failed
        }),
        forall|outcomes: Seq<bool>, e: bool|
            ran(plan, outcomes).step == DirStep::Failed || ran(plan, outcomes).step
                == DirStep::Finished ==> (#[trigger] ran(plan, outcomes.push(e))).step == ran(
                plan,
                outcomes,
            ).step,
{
    reveal_with_fuel(ran, 5);
    assert(seq![a, b, c, d].drop_last() =~= seq![a, b, c]);
    assert(seq![a, b, c].drop_last() =~= seq![a, b]);
    assert(seq![a, b].drop_last() =~= seq![a]);
    assert(seq![a].drop_last() =~= Seq::<bool>::empty());
    assert forall|outcomes: Seq<bool>, e: bool|
        ran(plan, outcomes).step == DirStep::Failed || ran(plan, outcomes).step
            == DirStep::Finished implies (#[trigger] ran(plan, outcomes.push(e))).step == ran(
        plan,
        outcomes,
    ).step by {
        assert(outcomes.push(e).drop_last() =~= outcomes);
    }
}

} // verus!
