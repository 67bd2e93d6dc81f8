//! Entering a private user and mount namespace, and what is run in one.
use crate::commands::RunNeeds;
use vstd::prelude::*;

verus! {

/// What is to be done next to enter a namespace.
#[derive(Clone, Copy, Debug, PartialEq, Eq, Structural)]
pub enum NsStep {
    /// Make this process dumpable, which writing the id maps needs.
    Loosen,
    /// Leave the user and mount namespaces and write the id maps.
    Unshare,
    /// Make this process non-dumpable again; whether it got out is kept.
    Harden(bool),
    /// Keep mounts from spreading.
    PrivateRoot,
    /// Nothing: this process is in its own namespace.
    Entered,
    /// Nothing: it could not be entered.
    Failed,
}

/// The step after `step` went well or not.
pub open spec fn ns_following(step: NsStep, ok: bool) -> NsStep {
    match step {
        NsStep::Loosen => NsStep::Unshare,
        NsStep::Unshare => NsStep::Harden(ok),
        NsStep::Harden(out) => if out {
            NsStep::PrivateRoot
        } else {
            NsStep::Failed
        },
        NsStep::PrivateRoot => if ok {
            NsStep::Entered
        } else {
            NsStep::Failed
        },
        NsStep::Entered => NsStep::Entered,
        NsStep::Failed => NsStep::Failed,
    }
}

/// Whether this process can be dumped after a step.
pub open spec fn dumpable_after(step: NsStep, dumpable: bool) -> bool {
    match step {
        NsStep::Loosen => true,
        NsStep::Harden(_) => false,
        _ => dumpable,
    }
}

/// The step to take once `step` went well or not.
pub fn enter_user_mount_ns(step: NsStep, ok: bool) -> (r: NsStep)
    ensures
        r == ns_following(step, ok),
{
    match step {
        NsStep::Loosen => NsStep::Unshare,
        NsStep::Unshare => NsStep::Harden(ok),
        NsStep::Harden(out) => if out {
            NsStep::PrivateRoot
        } else {
            NsStep::Failed
        },
        NsStep::PrivateRoot => if ok {
            NsStep::Entered
        } else {
            NsStep::Failed
        },
        NsStep::Entered => NsStep::Entered,
        NsStep::Failed => NsStep::Failed,
    }
}

/// What is to be done next to run a program with a vault's variables.
#[derive(Clone, Copy, Debug, PartialEq, Eq, Structural)]
pub enum LaunchStep {
    /// Enter a private namespace.
    Enter(NsStep),
    /// Get the password and decrypt the vault.
    Open,
    /// Verify the tracked files against the baseline.
    Verify,
    /// Freeze the verified files.
    Freeze,
    /// Mask the credential paths.
    Mask,
    /// Run the program.
    Launch,
    /// Nothing: the program has taken over or has ended.
    Launched,
    /// Nothing: the program is not run.
    Failed,
}

/// The first step of a run.
pub open spec fn launch_start(needs: RunNeeds) -> LaunchStep {
    if needs.namespace {
        LaunchStep::Enter(NsStep::Loosen)
    } else {
        LaunchStep::Open
    }
}

/// The step after the verified files are frozen, or need not be.
pub open spec fn after_freeze(needs: RunNeeds) -> LaunchStep {
    if needs.mask {
        LaunchStep::Mask
    } else {
        LaunchStep::Launch
    }
}

/// The step after `step` went well or not.
pub open spec fn launch_following(needs: RunNeeds, step: LaunchStep, ok: bool) -> LaunchStep {
    match step {
        LaunchStep::Enter(n) => match ns_following(n, ok) {
            NsStep::Entered => LaunchStep::Open,
            NsStep::Failed => LaunchStep::Failed,
            next => LaunchStep::Enter(next),
        },
        LaunchStep::Launched => LaunchStep::Launched,
        LaunchStep::Failed => LaunchStep::Failed,
        LaunchStep::Open => if !ok {
            LaunchStep::Failed
        } else if needs.freeze {
            LaunchStep::Verify
        } else {
            after_freeze(needs)
        },
        LaunchStep::Verify => if ok {
            LaunchStep::Freeze
        } else {
            LaunchStep::Failed
        },
        LaunchStep::Freeze => if ok {
            after_freeze(needs)
        } else {
            LaunchStep::Failed
        },
        LaunchStep::Mask => if ok {
            LaunchStep::Launch
        } else {
            LaunchStep::Failed
        },
        LaunchStep::Launch => if ok {
            LaunchStep::Launched
        } else {
            LaunchStep::Failed
        },
    }
}

/// The first step of a run.
pub fn launch_first(needs: RunNeeds) -> (r: LaunchStep)
    ensures
        r == launch_start(needs),
{
    if needs.namespace {
        LaunchStep::Enter(NsStep::Loosen)
    } else {
        LaunchStep::Open
    }
}

/// The step to take once `step` went well or not.
pub fn launch_next(needs: RunNeeds, step: LaunchStep, ok: bool) -> (r: LaunchStep)
    ensures
        r == launch_following(needs, step, ok),
{
    match step {
        LaunchStep::Enter(n) => match enter_user_mount_ns(n, ok) {
            NsStep::Entered => LaunchStep::Open,
            NsStep::Failed => LaunchStep::Failed,
            next => LaunchStep::Enter(next),
        },
        LaunchStep::Launched => LaunchStep::Launched,
        LaunchStep::Failed => LaunchStep::Failed,
        _ if !ok => LaunchStep::Failed,
        LaunchStep::Open => if needs.freeze {
            LaunchStep::Verify
        } else if needs.mask {
            LaunchStep::Mask
        } else {
            LaunchStep::Launch
        },
        LaunchStep::Verify => LaunchStep::Freeze,
        LaunchStep::Freeze => if needs.mask {
            LaunchStep::Mask
        } else {
            LaunchStep::Launch
        },
        LaunchStep::Mask => LaunchStep::Launch,
        LaunchStep::Launch => LaunchStep::Launched,
    }
}

/// What a run has done so far.
pub struct LaunchState {
    pub step: LaunchStep,
    /// Whether this process can be dumped.
    pub dumpable: bool,
    /// Whether it is in a namespace of its own.
    pub entered: bool,
    /// Whether secrets may be in memory.
    pub opened: bool,
    /// Whether every tracked file was found as it was blessed.
    pub verified: bool,
    pub frozen: bool,
    pub masked: bool,
    /// Whether the program may have been run.
    pub launched: bool,
}

/// A run after some outcomes.
pub open spec fn launched(needs: RunNeeds, outcomes: Seq<bool>) -> LaunchState
    decreases outcomes.len(),
{
    if outcomes.len() == 0 {
        LaunchState {
            step: launch_start(needs),
            dumpable: false,
            entered: false,
            opened: false,
            verified: false,
            frozen: false,
            masked: false,
            launched: false,
        }
    } else {
        let b = launched(needs, outcomes.drop_last());
        let ok = outcomes.last();
        LaunchState {
            step: launch_following(needs, b.step, ok),
            dumpable: match b.step {
                LaunchStep::Enter(n) => dumpable_after(n, b.dumpable),
                _ => b.dumpable,
            },
            entered: b.entered || (b.step is Enter && launch_following(needs, b.step, ok)
                == LaunchStep::Open),
            opened: b.opened || b.step == LaunchStep::Open,
            verified: b.verified || (b.step == LaunchStep::Verify && ok),
            frozen: b.frozen || (b.step == LaunchStep::Freeze && ok),
            masked: b.masked || (b.step == LaunchStep::Mask && ok),
            launched: b.launched || b.step == LaunchStep::Launch,
        }
    }
}

proof fn lemma_launch(needs: RunNeeds, outcomes: Seq<bool>)
    requires
        needs.mask || needs.freeze ==> needs.namespace,
    ensures
        ({
            let s = launched(needs, outcomes);
            &&& s.dumpable ==> s.step is Enter && (s.step->Enter_0 == NsStep::Unshare
                || s.step->Enter_0 is Harden)
            &&& s.step is Enter ==> !s.opened && !s.launched && s.step != LaunchStep::Enter(
                NsStep::Entered,
            ) && s.step != LaunchStep::Enter(NsStep::Failed)
            &&& s.step is Open || s.step is Verify || s.step is Freeze || s.step is Mask
                ==> !s.launched
            &&& s.opened || s.step is Open ==> (needs.namespace ==> s.entered)
            &&& s.step is Freeze || s.step is Mask || s.step is Launch ==> s.opened && (needs.freeze
                ==> s.verified)
            &&& s.step is Verify ==> s.opened
            &&& s.step is Mask || s.step is Launch ==> (needs.freeze ==> s.frozen)
            &&& s.step is Launch ==> (needs.mask ==> s.masked)
            &&& s.launched ==> s.opened && (needs.freeze ==> s.verified && s.frozen) && (needs.mask
                ==> s.masked)
        }),
    decreases outcomes.len(),
{
    if outcomes.len() > 0 {
        lemma_launch(needs, outcomes.drop_last());
    }
}

/// A program is run only after everything that was asked for is in place: the
/// tracked files verified and frozen, the credential paths masked, in a
/// namespace of its own.
pub proof fn law_program_runs_prepared(needs: RunNeeds, outcomes: Seq<bool>)
    requires
        needs.mask || needs.freeze ==> needs.namespace,
    ensures
        ({
            let s = launched(needs, outcomes);
            s.launched || s.step == LaunchStep::Launch ==> {
                &&& needs.freeze ==> s.verified && s.frozen
                &&& needs.mask ==> s.masked
                &&& needs.namespace ==> s.entered
            }
        }),
{
    lemma_launch(needs, outcomes);
}

/// Nothing is decrypted while this process can be dumped.
pub proof fn law_decrypts_only_while_hardened(needs: RunNeeds, outcomes: Seq<bool>)
    requires
        needs.mask || needs.freeze ==> needs.namespace,
    ensures
        launched(needs, outcomes).opened || launched(needs, outcomes).step == LaunchStep::Open
            ==> !launched(needs, outcomes).dumpable,
{
    lemma_launch(needs, outcomes);
}

/// What is to be done next to run a program with paths hidden from it.
#[derive(Clone, Copy, Debug, PartialEq, Eq, Structural)]
pub enum UnrunStep {
    /// Enter a private namespace.
    Enter(NsStep),
    /// Mask the paths.
    Mask,
    /// Start the program.
    Spawn,
    /// Wait for it to end.
    Wait,
    /// Nothing: pass its exit code on.
    Finished,
    /// Nothing: something failed.
    Failed,
}

/// The step after `step` went well or not.
pub open spec fn unrun_following(step: UnrunStep, ok: bool) -> UnrunStep {
    match step {
        UnrunStep::Enter(n) => match ns_following(n, ok) {
            NsStep::Entered => UnrunStep::Mask,
            NsStep::Failed => UnrunStep::Failed,
            next => UnrunStep::Enter(next),
        },
        UnrunStep::Finished => UnrunStep::Finished,
        UnrunStep::Failed => UnrunStep::Failed,
        UnrunStep::Mask => if ok {
            UnrunStep::Spawn
        } else {
            UnrunStep::Failed
        },
        UnrunStep::Spawn => if ok {
            UnrunStep::Wait
        } else {
            UnrunStep::Failed
        },
        UnrunStep::Wait => if ok {
            UnrunStep::Finished
        } else {
            UnrunStep::Failed
        },
    }
}

/// The step to take once `step` went well or not; the first is to enter the
/// namespace.
pub fn unrun(step: UnrunStep, ok: bool) -> (r: UnrunStep)
    ensures
        r == unrun_following(step, ok),
{
    match step {
        UnrunStep::Enter(n) => match enter_user_mount_ns(n, ok) {
            NsStep::Entered => UnrunStep::Mask,
            NsStep::Failed => UnrunStep::Failed,
            next => UnrunStep::Enter(next),
        },
        UnrunStep::Finished => UnrunStep::Finished,
        UnrunStep::Failed => UnrunStep::Failed,
        _ if !ok => UnrunStep::Failed,
        UnrunStep::Mask => UnrunStep::Spawn,
        UnrunStep::Spawn => UnrunStep::Wait,
        UnrunStep::Wait => UnrunStep::Finished,
    }
}

/// An `unrun` after some outcomes, and whether the masks went in.
pub open spec fn unran(outcomes: Seq<bool>) -> (UnrunStep, bool)
    decreases outcomes.len(),
{
    if outcomes.len() == 0 {
        (UnrunStep::Enter(NsStep::Loosen), false)
    } else {
        let (step, masked) = unran(outcomes.drop_last());
        let ok = outcomes.last();
        (unrun_following(step, ok), masked || (step == UnrunStep::Mask && ok))
    }
}

/// A program is started only once the paths are hidden from it.
pub proof fn law_unrun_hides_first(outcomes: Seq<bool>)
    ensures
        unran(outcomes).0 == UnrunStep::Spawn || unran(outcomes).0 == UnrunStep::Wait || unran(
            outcomes,
        ).0 == UnrunStep::Finished ==> unran(outcomes).1,
    decreases outcomes.len(),
{
    if outcomes.len() > 0 {
        law_unrun_hides_first(outcomes.drop_last());
    }
}

/// Entering a namespace: the process is loosened, leaves its namespaces, is hardened
/// whether or not it got out, and is in its own only if it got out and its mounts
/// are private. What happened stays so.
pub proof fn law_namespace_is_entered(a: bool, b: bool, c: bool, d: bool, e: bool)
    ensures
        ({
            let one = ns_following(NsStep::Loosen, a);
            let two = ns_following(one, b);
            let three = ns_following(two, c);
            let four = ns_following(three, d);
            &&& one == NsStep::Unshare
            &&& two is Harden
            &&& three == NsStep::PrivateRoot <==> b
            &&& three == NsStep::Failed <==> !b
            &&& four == NsStep::Entered <==> b && d
            &&& four == NsStep::Failed <==> !(b && d)
            &&& ns_following(four, e) == four
        }),
{
}

/// The steps of a run that goes well.
pub open spec fn launch_plan(needs: RunNeeds) -> Seq<LaunchStep> {
    let enter = if needs.namespace {
        seq![
            LaunchStep::Enter(NsStep::Loosen),
            LaunchStep::Enter(NsStep::Unshare),
            LaunchStep::Enter(NsStep::Harden(true)),
            LaunchStep::Enter(NsStep::PrivateRoot),
        ]
    } else {
        Seq::empty()
    };
    let freeze = if needs.freeze {
        seq![LaunchStep::Verify, LaunchStep::Freeze]
    } else {
        Seq::empty()
    };
    let mask = if needs.mask {
        seq![LaunchStep::Mask]
    } else {
        Seq::empty()
    };
    enter + seq![LaunchStep::Open] + freeze + mask + seq![LaunchStep::Launch, LaunchStep::Launched]
}

proof fn lemma_launch_plan(needs: RunNeeds, i: int)
    requires
        0 <= i < launch_plan(needs).len() - 1,
    ensures
        launch_plan(needs)[0] == launch_start(needs),
        launch_following(needs, launch_plan(needs)[i], true) == launch_plan(needs)[i + 1],
        !(launch_plan(needs)[i] is Enter) || launch_plan(needs)[i] == LaunchStep::Enter(
            NsStep::PrivateRoot,
        ) ==> launch_following(needs, launch_plan(needs)[i], false) == LaunchStep::Failed,
{
    let p = launch_plan(needs);
    if needs.namespace {
        assert(p[0] == LaunchStep::Enter(NsStep::Loosen));
        assert(p[1] == LaunchStep::Enter(NsStep::Unshare));
        assert(p[2] == LaunchStep::Enter(NsStep::Harden(true)));
        assert(p[3] == LaunchStep::Enter(NsStep::PrivateRoot));
        assert(p[4] == LaunchStep::Open);
    } else {
        assert(p[0] == LaunchStep::Open);
    }
}

/// A run whose steps go well takes exactly the steps that are needed, in order: a
/// namespace if one is needed, then the password, then verifying and freezing if
/// that was asked for, then masking if that was, then the program.
pub proof fn law_good_launch_goes_by_plan(needs: RunNeeds, outcomes: Seq<bool>)
    requires
        forall|i: int| 0 <= i < outcomes.len() ==> #[trigger] outcomes[i],
    ensures
        launched(needs, outcomes).step == (if outcomes.len() < launch_plan(needs).len() {
            launch_plan(needs)[outcomes.len() as int]
        } else {
            LaunchStep::Launched
        }),
    decreases outcomes.len(),
{
    let p = launch_plan(needs);
    assert(p.len() >= 3);
    assert(p[p.len() - 1] == LaunchStep::Launched);
    lemma_launch_plan(needs, 0);
    if outcomes.len() > 0 {
        let init = outcomes.drop_last();
        assert forall|i: int| 0 <= i < init.len() implies #[trigger] init[i] by {
            assert(init[i] == outcomes[i]);
        }
        law_good_launch_goes_by_plan(needs, init);
        assert(outcomes[outcomes.len() - 1]);
        if init.len() < p.len() - 1 {
            lemma_launch_plan(needs, init.len() as int);
        }
    }
}

/// A run in which opening, verifying, freezing, masking, launching or keeping mounts
/// private goes wrong has failed from then on.
pub proof fn law_bad_launch_fails(needs: RunNeeds, outcomes: Seq<bool>, k: int)
    requires
        0 <= k < outcomes.len(),
        k < launch_plan(needs).len() - 1,
        forall|i: int| 0 <= i < k ==> #[trigger] outcomes[i],
        !outcomes[k],
        !(launch_plan(needs)[k] is Enter) || launch_plan(needs)[k] == LaunchStep::Enter(
            NsStep::PrivateRoot,
        ),
    ensures
        launched(needs, outcomes).step == LaunchStep::Failed,
    decreases outcomes.len(),
{
    let init = outcomes.drop_last();
    if outcomes.len() == k + 1 {
        assert forall|i: int| 0 <= i < init.len() implies #[trigger] init[i] by {
            assert(init[i] == outcomes[i]);
        }
        law_good_launch_goes_by_plan(needs, init);
        lemma_launch_plan(needs, k);
    } else {
        assert forall|i: int| 0 <= i < k implies #[trigger] init[i] by {
            assert(init[i] == outcomes[i]);
        }
        assert(init[k] == outcomes[k]);
        law_bad_launch_fails(needs, init, k);
    }
}

/// An `unrun` whose steps go well enters a namespace, masks, starts the program,
/// waits for it, and is then done.
pub proof fn law_good_unrun_finishes(outcomes: Seq<bool>)
    requires
        forall|i: int| 0 <= i < outcomes.len() ==> #[trigger] outcomes[i],
    ensures
        unran(outcomes).0 == (if outcomes.len() == 0 {
            UnrunStep::Enter(NsStep::Loosen)
        } else if outcomes.len() == 1 {
            UnrunStep::Enter(NsStep::Unshare)
        } else if outcomes.len() == 2 {
            UnrunStep::Enter(NsStep::Harden(true))
        } else if outcomes.len() == 3 {
            UnrunStep::Enter(NsStep::PrivateRoot)
        } else if outcomes.len() == 4 {
            UnrunStep::Mask
        } else if outcomes.len() == 5 {
            UnrunStep::Spawn
        } else if outcomes.len() == 6 {
            UnrunStep::Wait
        } else {
            UnrunStep::Finished
        }),
    decreases outcomes.len(),
{
    if outcomes.len() > 0 {
        let init = outcomes.drop_last();
        assert forall|i: int| 0 <= i < init.len() implies #[trigger] init[i] by {
            assert(init[i] == outcomes[i]);
        }
        law_good_unrun_finishes(init);
        assert(outcomes[outcomes.len() - 1]);
    }
}

/// An `unrun` in which masking, starting or waiting goes wrong has failed from then
/// on.
pub proof fn law_bad_unrun_fails(outcomes: Seq<bool>, k: int)
    requires
        3 <= k < 7,
        k < outcomes.len(),
        forall|i: int| 0 <= i < k ==> #[trigger] outcomes[i],
        !outcomes[k],
    ensures
        unran(outcomes).0 == UnrunStep::Failed,
    decreases outcomes.len(),
{
    let init = outcomes.drop_last();
    if outcomes.len() == k + 1 {
        assert forall|i: int| 0 <= i < init.len() implies #[trigger] init[i] by {
            assert(init[i] == outcomes[i]);
        }
        law_good_unrun_finishes(init);
    } else {
        assert forall|i: int| 0 <= i < k implies #[trigger] init[i] by {
            assert(init[i] == outcomes[i]);
        }
        assert(init[k] == outcomes[k]);
        law_bad_unrun_fails(init, k);
    }
}

/// A run that needs a namespace goes on to the password exactly if it got into one
/// with private mounts, and has failed otherwise. What has failed or was launched
/// stays so.
pub proof fn law_launch_needs_its_namespace(needs: RunNeeds, a: bool, b: bool, c: bool, d: bool)
    requires
        needs.namespace,
    ensures
        launched(needs, seq![a, b, c, d]).step == (if b && d {
            LaunchStep::Open
        } else {
            LaunchStep::Failed
        }),
        forall|outcomes: Seq<bool>, e: bool|
            launched(needs, outcomes).step == LaunchStep::Failed || launched(needs, outcomes).step
                == LaunchStep::Launched ==> (#[trigger] launched(needs, outcomes.push(e))).step
                == launched(needs, outcomes).step,
{
    reveal_with_fuel(launched, 5);
    assert(seq![a, b, c, d].drop_last() =~= seq![a, b, c]);
    assert(seq![a, b, c].drop_last() =~= seq![a, b]);
    assert(seq![a, b].drop_last() =~= seq![a]);
    assert(seq![a].drop_last() =~= Seq::<bool>::empty());
    assert forall|outcomes: Seq<bool>, e: bool|
        launched(needs, outcomes).step == LaunchStep::Failed || launched(needs, outcomes).step
            == LaunchStep::Launched implies (#[trigger] launched(needs, outcomes.push(e))).step
        == launched(needs, outcomes).step by {
        assert(outcomes.push(e).drop_last() =~= outcomes);
    }
}

/// An `unrun` goes on to masking exactly if it got into a namespace with private
/// mounts, and has failed otherwise. What has failed or is finished stays so.
pub proof fn law_unrun_needs_its_namespace(a: bool, b: bool, c: bool, d: bool)
    ensures
        unran(seq![a, b, c, d]).0 == (if b && d {
            UnrunStep::Mask
        } else {
            UnrunStep::Failed
        }),
        forall|outcomes: Seq<bool>, e: bool|
            unran(outcomes).0 == UnrunStep::Failed || unran(outcomes).0 == UnrunStep::Finished ==> (
            #[trigger] unran(outcomes.push(e))).0 == unran(outcomes).0,
{
    reveal_with_fuel(unran, 5);
    assert(seq![a, b, c, d].drop_last() =~= seq![a, b, c]);
    assert(seq![a, b, c].drop_last() =~= seq![a, b]);
    assert(seq![a, b].drop_last() =~= seq![a]);
    assert(seq![a].drop_last() =~= Seq::<bool>::empty());
    assert forall|outcomes: Seq<bool>, e: bool|
        unran(outcomes).0 == UnrunStep::Failed || unran(outcomes).0
            == UnrunStep::Finished implies (#[trigger] unran(outcomes.push(e))).0 == unran(
        outcomes,
    ).0 by {
        assert(outcomes.push(e).drop_last() =~= outcomes);
    }
}

} // verus!
