//! Running a program with a vault's variables: in its environment, or handed
//! over a pipe once the program is known to be safe from other processes.
use crate::path;
use crate::secret::SecretBytes;
use crate::text;
use crate::vault;
use crate::vault::EnvVault;
use vstd::prelude::*;
use vstd::utf8;

verus! {

/// `KEY=VALUE` of one entry, in bytes.
pub open spec fn assignment(e: (Seq<char>, Seq<char>)) -> Seq<u8> {
    utf8::encode_utf8(e.0).push(61u8) + utf8::encode_utf8(e.1)
}

/// `KEY=VALUE` of each entry, a zero byte behind each.
pub open spec fn payload(entries: Seq<(Seq<char>, Seq<char>)>) -> Seq<u8>
    decreases entries.len(),
{
    if entries.len() == 0 {
        Seq::empty()
    } else {
        payload(entries.drop_last()) + assignment(entries.last()).push(0u8)
    }
}

/// The bytes that hand a vault's entries to the shim.
pub fn build_payload(vault: &EnvVault) -> (r: SecretBytes)
    ensures
        r@ == payload(vault@),
{
    let entries = vault.entries();
    let ghost all = vault@;
    let mut buf: Vec<u8> = Vec::new();
    let mut i: usize = 0;
    assert(all.take(0) =~= Seq::<(Seq<char>, Seq<char>)>::empty());
    while i < entries.len()
        invariant
            i <= entries@.len(),
            all == vault::pairs(entries@),
            buf@ == payload(all.take(i as int)),
        decreases entries.len() - i,
    {
        let ghost before = buf@;
        let e = &entries[i];
        buf.extend_from_slice(e.key.as_str().as_bytes());
        buf.push(61);
        buf.extend_from_slice(e.value.as_str().as_bytes());
        buf.push(0);
        proof {
            assert(all.take(i + 1).drop_last() =~= all.take(i as int));
            assert(all.take(i + 1).last() == e@);
            assert(buf@ =~= before + assignment(e@).push(0u8));
        }
        i += 1;
    }
    assert(all.take(all.len() as int) =~= all);
    SecretBytes::new(buf)
}

proof fn lemma_pieces_push_end(a: Seq<u8>, b: Seq<u8>)
    requires
        a.len() == 0 || a.last() == 0u8,
        !b.contains(0u8),
    ensures
        text::pieces(a + b.push(0u8), 0u8) == text::pieces(a, 0u8).drop_last().push(b).push(
            Seq::<u8>::empty(),
        ),
{
    let empty = Seq::<u8>::empty();
    assert(!empty.contains(0u8));
    assert(a + b.push(0u8) =~= (a + b).push(0u8) + empty);
    path::lemma_pieces_push(a + b, empty, 0u8);
    if a.len() == 0 {
        assert(a + b =~= b);
        text::lemma_first_index_unique(b, 0u8, b.len() as int);
        assert(text::pieces(b, 0u8) == seq![b]);
        text::lemma_first_index_unique(a, 0u8, 0);
        assert(text::pieces(a, 0u8) == seq![a]);
        assert(seq![a].drop_last() =~= Seq::<Seq<u8>>::empty());
        assert(text::pieces(a + b.push(0u8), 0u8) =~= seq![b].push(empty));
        assert(Seq::<Seq<u8>>::empty().push(b) =~= seq![b]);
    } else {
        let c = a.drop_last();
        assert(c.push(0u8) =~= a);
        path::lemma_pieces_push(c, b, 0u8);
        path::lemma_pieces_push(c, empty, 0u8);
        assert(c.push(0u8) + empty =~= a);
        assert(text::pieces(a, 0u8).drop_last() =~= text::pieces(c, 0u8));
    }
}

/// Cut at its zero bytes, a payload gives each entry's `KEY=VALUE` back, in
/// order, if no entry holds a zero byte.
pub proof fn law_payload_splits(entries: Seq<(Seq<char>, Seq<char>)>)
    requires
        forall|i: int| 0 <= i < entries.len() ==> !assignment(#[trigger] entries[i]).contains(0u8),
    ensures
        text::pieces(payload(entries), 0u8) == entries.map_values(
            |e: (Seq<char>, Seq<char>)| assignment(e),
        ).push(Seq::<u8>::empty()),
        payload(entries).len() == 0 || payload(entries).last() == 0u8,
    decreases entries.len(),
{
    let f = |e: (Seq<char>, Seq<char>)| assignment(e);
    let p = payload(entries);
    let empty = Seq::<u8>::empty();
    if entries.len() == 0 {
        text::lemma_first_index_unique(p, 0u8, 0);
        assert(text::pieces(p, 0u8) == seq![p]);
        assert(entries.map_values(f).push(empty) =~= seq![empty]);
    } else {
        let init = entries.drop_last();
        assert forall|i: int| 0 <= i < init.len() implies !assignment(
            #[trigger] init[i],
        ).contains(0u8) by {
            assert(init[i] == entries[i]);
        }
        law_payload_splits(init);
        let e = entries[entries.len() - 1];
        assert(!assignment(e).contains(0u8));
        lemma_pieces_push_end(payload(init), assignment(e));
        let firsts = init.map_values(f);
        assert(firsts.push(empty).drop_last() =~= firsts);
        assert(entries.map_values(f) =~= firsts.push(assignment(e)));
    }
}

/// How a process ended: with a code, or by a signal.
pub open spec fn ended_with(code: Option<i32>, signal: Option<i32>) -> int {
    match code {
        Some(c) => c as int,
        None => 128 + match signal {
            Some(s) => s as int,
            None => 0,
        },
    }
}

/// The exit code that passes on how a process ended.
pub fn exit_code(code: Option<i32>, signal: Option<i32>) -> (r: i32)
    requires
        ended_with(code, signal) <= i32::MAX,
    ensures
        r == ended_with(code, signal),
{
    match code {
        Some(c) => c,
        None => match signal {
            Some(s) => 128 + s,
            None => 128,
        },
    }
}

/// What is to be done next in a hardened run.
#[derive(Clone, Copy, Debug, PartialEq, Eq, Structural)]
pub enum RunStep {
    /// Put the shim into a sealed memory file.
    StageShim,
    /// Open the ready pipe and the secret pipe.
    OpenPipes,
    /// Start the program with the shim preloaded and no secret in its
    /// environment.
    Spawn,
    /// Wait for the shim to report that it is ready.
    AwaitReady,
    /// Write the secrets to the pipe.
    SendSecrets,
    /// Wait for the program to end.
    Wait,
    /// Kill and reap the program.
    Kill,
    /// Nothing: pass the program's exit code on.
    Finished,
    /// Nothing: something failed.
    Failed,
    /// Nothing: the shim did not load and no secret was sent.
    Aborted,
}

/// The step after `step` went well or not.
pub open spec fn following(step: RunStep, ok: bool) -> RunStep {
    match step {
        RunStep::StageShim => if ok {
            RunStep::OpenPipes
        } else {
            RunStep::Failed
        },
        RunStep::OpenPipes => if ok {
            RunStep::Spawn
        } else {
            RunStep::Failed
        },
        RunStep::Spawn => if ok {
            RunStep::AwaitReady
        } else {
            RunStep::Failed
        },
        RunStep::AwaitReady => if ok {
            RunStep::SendSecrets
        } else {
            RunStep::Kill
        },
        RunStep::SendSecrets => if ok {
            RunStep::Wait
        } else {
            RunStep::Failed
        },
        RunStep::Wait => if ok {
            RunStep::Finished
        } else {
            RunStep::Failed
        },
        RunStep::Kill => RunStep::Aborted,
        _ => step,
    }
}

/// The first step of a hardened run.
pub fn first_step() -> (r: RunStep)
    ensures
        r == RunStep::StageShim,
{
    RunStep::StageShim
}

/// The step to take once `step` went well or not.
pub fn next_step(step: RunStep, ok: bool) -> (r: RunStep)
    ensures
        r == following(step, ok),
{
    match step {
        RunStep::AwaitReady => if ok {
            RunStep::SendSecrets
        } else {
            RunStep::Kill
        },
        RunStep::Kill | RunStep::Aborted => RunStep::Aborted,
        RunStep::Finished => RunStep::Finished,
        RunStep::Failed => RunStep::Failed,
        _ if !ok => RunStep::Failed,
        RunStep::StageShim => RunStep::OpenPipes,
        RunStep::OpenPipes => RunStep::Spawn,
        RunStep::Spawn => RunStep::AwaitReady,
        RunStep::SendSecrets => RunStep::Wait,
        RunStep::Wait => RunStep::Finished,
    }
}

/// What a hardened run has done so far.
pub struct RunState {
    pub step: RunStep,
    /// Whether the shim reported that it is ready.
    pub ready: bool,
    /// Whether secrets may have gone out.
    pub sent: bool,
}

/// A hardened run after some outcomes.
pub open spec fn ran(outcomes: Seq<bool>) -> RunState
    decreases outcomes.len(),
{
    if outcomes.len() == 0 {
        RunState { step: RunStep::StageShim, ready: false, sent: false }
    } else {
        let before = ran(outcomes.drop_last());
        let ok = outcomes.last();
        RunState {
            step: following(before.step, ok),
            ready: before.ready || (before.step == RunStep::AwaitReady && ok),
            sent: before.sent || before.step == RunStep::SendSecrets,
        }
    }
}

/// A hardened run sends no secret before the shim has reported in, and none at
/// all if it aborts.
pub proof fn law_secrets_wait_for_ready(outcomes: Seq<bool>)
    ensures
        ran(outcomes).sent ==> ran(outcomes).ready,
        ran(outcomes).step == RunStep::SendSecrets ==> ran(outcomes).ready,
        ran(outcomes).step == RunStep::Kill || ran(outcomes).step == RunStep::Aborted ==> !ran(
            outcomes,
        ).sent,
        ran(outcomes).step == RunStep::AwaitReady ==> !ran(outcomes).sent,
    decreases outcomes.len(),
{
    if outcomes.len() > 0 {
        law_secrets_wait_for_ready(outcomes.drop_last());
        lemma_not_sent_early(outcomes.drop_last());
    }
}

proof fn lemma_not_sent_early(outcomes: Seq<bool>)
    ensures
        ran(outcomes).sent ==> ran(outcomes).step == RunStep::Wait || ran(outcomes).step
            == RunStep::Failed || ran(outcomes).step == RunStep::Finished,
    decreases outcomes.len(),
{
    if outcomes.len() > 0 {
        lemma_not_sent_early(outcomes.drop_last());
    }
}

/// A hardened run whose steps go well stages the shim, opens the pipes, starts the
/// program, waits for the shim, sends the secrets, waits for the program, and is
/// then done.
pub proof fn law_good_run_finishes(outcomes: Seq<bool>)
    requires
        forall|i: int| 0 <= i < outcomes.len() ==> #[trigger] outcomes[i],
    ensures
        ran(outcomes).step == (if outcomes.len() == 0 {
            RunStep::StageShim
        } else if outcomes.len() == 1 {
            RunStep::OpenPipes
        } else if outcomes.len() == 2 {
            RunStep::Spawn
        } else if outcomes.len() == 3 {
            RunStep::AwaitReady
        } else if outcomes.len() == 4 {
            RunStep::SendSecrets
        } else if outcomes.len() == 5 {
            RunStep::Wait
        } else {
            RunStep::Finished
        }),
    decreases outcomes.len(),
{
    if outcomes.len() > 0 {
        let init = outcomes.drop_last();
        assert forall|i: int| 0 <= i < init.len() implies #[trigger] init[i] by {
            assert(init[i] == outcomes[i]);
        }
        law_good_run_finishes(init);
        assert(outcomes[outcomes.len() - 1]);
    }
}

/// A hardened run in which the shim does not report in kills the program and is
/// aborted; one in which another step goes wrong fails. Neither goes on.
pub proof fn law_bad_run_stops(outcomes: Seq<bool>, k: int)
    requires
        0 <= k < 6,
        k < outcomes.len(),
        forall|i: int| 0 <= i < k ==> #[trigger] outcomes[i],
        !outcomes[k],
    ensures
        ran(outcomes).step == (if k != 3 {
            RunStep::Failed
        } else if outcomes.len() == k + 1 {
            RunStep::Kill
        } else {
            RunStep::Aborted
        }),
        k <= 3 ==> !ran(outcomes).sent,
    decreases outcomes.len(),
{
    let init = outcomes.drop_last();
    law_secrets_wait_for_ready(outcomes);
    if outcomes.len() == k + 1 {
        assert forall|i: int| 0 <= i < init.len() implies #[trigger] init[i] by {
            assert(init[i] == outcomes[i]);
        }
        law_good_run_finishes(init);
        lemma_not_sent_early(init);
    } else {
        assert forall|i: int| 0 <= i < k implies #[trigger] init[i] by {
            assert(init[i] == outcomes[i]);
        }
        assert(init[k] == outcomes[k]);
        law_bad_run_stops(init, k);
    }
}

/// What goes to the shim is `KEY=VALUE` of each entry, in bytes and in order, each
/// with a zero byte behind it.
pub proof fn law_payload_is_made_of_assignments(
    a: Seq<(Seq<char>, Seq<char>)>,
    b: Seq<(Seq<char>, Seq<char>)>,
    key: Seq<char>,
    value: Seq<char>,
)
    ensures
        payload(a + b) == payload(a) + payload(b),
        payload(seq![(key, value)]) == utf8::encode_utf8(key + seq!['='] + value) + seq![0u8],
    decreases b.len(),
{
    let one = seq![(key, value)];
    assert(one.drop_last() =~= Seq::<(Seq<char>, Seq<char>)>::empty());
    assert(payload(one.drop_last()) =~= Seq::<u8>::empty());
    text::lemma_encode_concat(key + seq!['='], value);
    text::lemma_encode_concat(key, seq!['=']);
    assert(utf8::is_ascii_chars(seq!['=']));
    utf8::is_ascii_chars_encode_utf8(seq!['=']);
    assert(utf8::encode_utf8(seq!['=']) =~= seq![61u8]);
    assert(payload(one) =~= utf8::encode_utf8(key + seq!['='] + value) + seq![0u8]);
    if b.len() == 0 {
        assert(a + b =~= a);
        assert(payload(a + b) =~= payload(a) + payload(b));
    } else {
        law_payload_is_made_of_assignments(a, b.drop_last(), key, value);
        assert((a + b).drop_last() =~= a + b.drop_last());
        assert((a + b).last() == b.last());
        assert(payload(a + b) =~= payload(a) + payload(b));
    }
}

/// A program's exit code is passed on as it is, and a signal that ended it as 128
/// more than its number; different ends are told apart.
pub proof fn law_exit_code_tells_the_end(code: i32, signal: i32)
    ensures
        ended_with(Some(code), Some(signal)) == code,
        ended_with(Some(code), None) == code,
        ended_with(None, Some(signal)) - signal == 0x80,
        ended_with(None, None) == 0x80,
{
}

} // verus!
