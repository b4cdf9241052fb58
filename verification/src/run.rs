//! What a run of the tree killer comes to, told as a function of what the
//! caller asked for, what the process table held and what the operating
//! system answered to each signal; and what holds of every run.

use crate::error::Error;
use crate::killer::{validated, INIT_PROCESS_ID, KERNEL_PROCESS_ID};
use crate::process::{in_subtree, is_listed, ProcessInfo};
use crate::signal::{resolved, settled, Outcome};
use crate::tree::{discovery_order, kill_order, lemma_discovery_is_subtree};
use vstd::prelude::*;

verus! {

/// What comes of the steps before the snapshot: the target is validated
/// first, then the signal is resolved.
pub open spec fn prepared(process_id: u32, token: Seq<char>, available_max: u32) -> Result<
    i32,
    Error,
> {
    match validated(process_id, available_max) {
        Err(error) => Err(error),
        Ok(_) => resolved(token),
    }
}

/// What was read of the process table, or why nothing could be read.
pub open spec fn reading(snapshot: Result<Vec<ProcessInfo>, String>) -> Result<
    Seq<ProcessInfo>,
    String,
> {
    match snapshot {
        Ok(processes) => Ok(processes@),
        Err(message) => Err(message),
    }
}

/// What comes of the snapshot: the order in which the subtree of the target
/// is discovered, unless the table could not be read or the target is not
/// in it.
pub open spec fn planned(process_id: u32, snapshot: Result<Seq<ProcessInfo>, String>) -> Result<
    Seq<u32>,
    Error,
> {
    match snapshot {
        Err(message) => Err(Error::SnapshotError { message }),
        Ok(processes) => if is_listed(processes, process_id) {
            Ok(discovery_order(processes, process_id))
        } else {
            Err(Error::RootNotFound { process_id })
        },
    }
}

/// How the killing ends from the target at position `next` on, where
/// `answer` says what the operating system answers for each process: the
/// first refusal ends it, and without one it runs to the end of the plan.
pub open spec fn conclusion(targets: Seq<u32>, next: nat, answer: spec_fn(u32) -> Outcome) -> Result<
    (),
    Error,
>
    decreases targets.len() - next,
{
    if next >= targets.len() {
        Ok(())
    } else {
        match settled(targets[next as int], answer(targets[next as int])) {
            Err(error) => Err(error),
            Ok(_) => conclusion(targets, next + 1, answer),
        }
    }
}

/// The processes that are sent a signal from position `next` on: the
/// targets in the order of the plan, up to the first that is refused.
pub open spec fn signalled(targets: Seq<u32>, next: nat, answer: spec_fn(u32) -> Outcome) -> Seq<
    u32,
>
    decreases targets.len() - next,
{
    if next >= targets.len() {
        Seq::empty()
    } else if answer(targets[next as int]) is Refused {
        seq![targets[next as int]]
    } else {
        seq![targets[next as int]] + signalled(targets, next + 1, answer)
    }
}

/// The result of a whole run: validation, resolution of the signal, the
/// snapshot, the discovery of the subtree, and the killing in reverse order
/// of discovery. A run that succeeds returns the ids in the order of their
/// discovery.
pub open spec fn run_result(
    process_id: u32,
    token: Seq<char>,
    available_max: u32,
    snapshot: Result<Seq<ProcessInfo>, String>,
    answer: spec_fn(u32) -> Outcome,
) -> Result<Seq<u32>, Error> {
    match prepared(process_id, token, available_max) {
        Err(error) => Err(error),
        Ok(_) => match planned(process_id, snapshot) {
            Err(error) => Err(error),
            Ok(discovery) => match conclusion(kill_order(discovery), 0, answer) {
                Err(error) => Err(error),
                Ok(_) => Ok(discovery),
            },
        },
    }
}

/// The processes that a whole run sends a signal to, in the order of the
/// sends. A run that fails before the killing sends none.
pub open spec fn run_signals(
    process_id: u32,
    token: Seq<char>,
    available_max: u32,
    snapshot: Result<Seq<ProcessInfo>, String>,
    answer: spec_fn(u32) -> Outcome,
) -> Seq<u32> {
    match prepared(process_id, token, available_max) {
        Err(_) => Seq::empty(),
        Ok(_) => match planned(process_id, snapshot) {
            Err(_) => Seq::empty(),
            Ok(discovery) => signalled(kill_order(discovery), 0, answer),
        },
    }
}

/// A result that holds ids, with the ids taken as a sequence.
pub open spec fn ids_of(result: Result<Vec<u32>, Error>) -> Result<Seq<u32>, Error> {
    match result {
        Ok(ids) => Ok(ids@),
        Err(error) => Err(error),
    }
}

/// Where nothing is refused, the killing runs through the whole plan and
/// succeeds.
proof fn lemma_unrefused_conclusion(targets: Seq<u32>, next: nat, answer: spec_fn(u32) -> Outcome)
    requires
        next <= targets.len(),
        forall|process_id: u32| !(#[trigger] answer(process_id) is Refused),
    ensures
        conclusion(targets, next, answer) == Ok::<(), Error>(()),
        signalled(targets, next, answer) == targets.subrange(next as int, targets.len() as int),
    decreases targets.len() - next,
{
    if next < targets.len() {
        lemma_unrefused_conclusion(targets, next + 1, answer);
        assert(!(answer(targets[next as int]) is Refused));
        assert(seq![targets[next as int]] + targets.subrange(next as int + 1, targets.len() as int)
            =~= targets.subrange(next as int, targets.len() as int));
    } else {
        assert(targets.subrange(next as int, targets.len() as int) =~= Seq::<u32>::empty());
    }
}

/// Processes 0 and 1 are protected. Whatever the signal, the snapshot and
/// the answers of the operating system, a run against one of them fails
/// with the error that names it, and sends no signal.
pub proof fn lemma_protected_processes(
    process_id: u32,
    token: Seq<char>,
    available_max: u32,
    snapshot: Result<Seq<ProcessInfo>, String>,
    answer: spec_fn(u32) -> Outcome,
)
    requires
        process_id == KERNEL_PROCESS_ID || process_id == INIT_PROCESS_ID,
    ensures
        process_id == KERNEL_PROCESS_ID ==> run_result(
            process_id,
            token,
            available_max,
            snapshot,
            answer,
        ) == Err::<Seq<u32>, Error>(Error::KernelProcessProtected { process_id }),
        process_id == INIT_PROCESS_ID ==> run_result(
            process_id,
            token,
            available_max,
            snapshot,
            answer,
        ) == Err::<Seq<u32>, Error>(Error::InitProcessProtected { process_id }),
        run_signals(process_id, token, available_max, snapshot, answer) == Seq::<u32>::empty(),
{
}

/// A signal that does not resolve stops the run before anything is touched:
/// for a target that passes validation, the run fails with `InvalidSignal`
/// and sends no signal.
pub proof fn lemma_invalid_signal(
    process_id: u32,
    token: Seq<char>,
    available_max: u32,
    snapshot: Result<Seq<ProcessInfo>, String>,
    answer: spec_fn(u32) -> Outcome,
)
    requires
        validated(process_id, available_max) is Ok,
        resolved(token) is Err,
    ensures
        run_result(process_id, token, available_max, snapshot, answer) == Err::<Seq<u32>, Error>(
            Error::InvalidSignal,
        ),
        run_signals(process_id, token, available_max, snapshot, answer) == Seq::<u32>::empty(),
{
}

/// A target that is not in the snapshot is reported: once the target and
/// the signal are accepted, the run fails with `RootNotFound` and sends no
/// signal.
pub proof fn lemma_missing_root(
    process_id: u32,
    token: Seq<char>,
    available_max: u32,
    processes: Seq<ProcessInfo>,
    answer: spec_fn(u32) -> Outcome,
)
    requires
        prepared(process_id, token, available_max) is Ok,
        !is_listed(processes, process_id),
    ensures
        run_result(process_id, token, available_max, Ok(processes), answer) == Err::<
            Seq<u32>,
            Error,
        >(Error::RootNotFound { process_id }),
        run_signals(process_id, token, available_max, Ok(processes), answer) == Seq::<
            u32,
        >::empty(),
{
}

/// A process that is gone is no failure. Where the operating system
/// refuses no signal, whether it delivers it or finds the process gone, a
/// run that has reached the killing succeeds: it signals the whole subtree,
/// the last discovered first, and returns it in the order of discovery.
pub proof fn lemma_gone_is_no_failure(
    process_id: u32,
    token: Seq<char>,
    available_max: u32,
    processes: Seq<ProcessInfo>,
    answer: spec_fn(u32) -> Outcome,
)
    requires
        prepared(process_id, token, available_max) is Ok,
        is_listed(processes, process_id),
        forall|id: u32| !(#[trigger] answer(id) is Refused),
    ensures
        run_result(process_id, token, available_max, Ok(processes), answer) == Ok::<
            Seq<u32>,
            Error,
        >(discovery_order(processes, process_id)),
        run_signals(process_id, token, available_max, Ok(processes), answer) == kill_order(
            discovery_order(processes, process_id),
        ),
{
    let targets = kill_order(discovery_order(processes, process_id));
    lemma_unrefused_conclusion(targets, 0, answer);
    assert(targets.subrange(0, targets.len() as int) =~= targets);
}

/// Signals follow the plan. From any position on, the processes that are
/// signalled are the next targets of the plan, in its order and without a
/// gap; and if the killing fails, it fails with a `KillError` for the last
/// of them.
pub proof fn lemma_signals_follow_plan(
    targets: Seq<u32>,
    next: nat,
    answer: spec_fn(u32) -> Outcome,
)
    requires
        next <= targets.len(),
    ensures
        signalled(targets, next, answer).len() <= targets.len() - next,
        forall|i: int|
            0 <= i < signalled(targets, next, answer).len() ==> #[trigger] signalled(
                targets,
                next,
                answer,
            )[i] == targets[next + i],
        match conclusion(targets, next, answer) {
            Ok(_) => signalled(targets, next, answer).len() == targets.len() - next,
            Err(error) => {
                &&& signalled(targets, next, answer).len() > 0
                &&& error matches Error::KillError { process_id, errno }
                &&& process_id == signalled(targets, next, answer).last()
                &&& answer(process_id) == (Outcome::Refused { errno })
            },
        },
    decreases targets.len() - next,
{
    if next < targets.len() {
        lemma_signals_follow_plan(targets, next + 1, answer);
        let rest = signalled(targets, next + 1, answer);
        if !(answer(targets[next as int]) is Refused) {
            let all = seq![targets[next as int]] + rest;
            assert forall|i: int| 0 <= i < all.len() implies #[trigger] all[i] == targets[next
                + i] by {
                if i > 0 {
                    assert(all[i] == rest[i - 1]);
                }
            }
            if rest.len() > 0 {
                assert(all.last() == rest.last());
            }
        }
    }
}

/// Every run ends in one of these ways, whatever the operating system
/// answers: with the error of validation or of the signal; else with the
/// error of the snapshot or of a target that is not in it; else with a
/// `KillError` for a member of the subtree that the operating system
/// refused to signal; else with the subtree in the order of discovery.
pub proof fn lemma_every_run(
    process_id: u32,
    token: Seq<char>,
    available_max: u32,
    snapshot: Result<Seq<ProcessInfo>, String>,
    answer: spec_fn(u32) -> Outcome,
)
    ensures
        match prepared(process_id, token, available_max) {
            Err(error) => run_result(process_id, token, available_max, snapshot, answer) == Err::<
                Seq<u32>,
                Error,
            >(error),
            Ok(_) => match planned(process_id, snapshot) {
                Err(error) => run_result(process_id, token, available_max, snapshot, answer)
                    == Err::<Seq<u32>, Error>(error),
                Ok(discovery) => match run_result(
                    process_id,
                    token,
                    available_max,
                    snapshot,
                    answer,
                ) {
                    Ok(ids) => ids == discovery,
                    Err(error) => {
                        &&& error matches Error::KillError { process_id: refused, errno }
                        &&& discovery.contains(refused)
                        &&& answer(refused) == (Outcome::Refused { errno })
                    },
                },
            },
        },
{
    if prepared(process_id, token, available_max) is Ok && planned(process_id, snapshot) is Ok {
        let discovery = planned(process_id, snapshot)->Ok_0;
        let targets = kill_order(discovery);
        lemma_signals_follow_plan(targets, 0, answer);
        if conclusion(targets, 0, answer) is Err {
            let sent = signalled(targets, 0, answer);
            let last = sent.len() - 1;
            assert(sent[last] == targets[0 + last]);
            assert(targets[last] == discovery[discovery.len() - 1 - last]);
        }
    }
}

/// Nobody else is signalled. A run sends signals to members of the subtree
/// of its target only, and to none of them twice.
pub proof fn lemma_only_the_subtree_is_signalled(
    process_id: u32,
    token: Seq<char>,
    available_max: u32,
    processes: Seq<ProcessInfo>,
    answer: spec_fn(u32) -> Outcome,
)
    ensures
        run_signals(process_id, token, available_max, Ok(processes), answer).no_duplicates(),
        forall|i: int|
            0 <= i < run_signals(process_id, token, available_max, Ok(processes), answer).len()
                ==> in_subtree(
                processes,
                process_id,
                #[trigger] run_signals(process_id, token, available_max, Ok(processes), answer)[i],
            ),
{
    let sent = run_signals(process_id, token, available_max, Ok(processes), answer);
    if sent.len() > 0 {
        let discovery = discovery_order(processes, process_id);
        let targets = kill_order(discovery);
        lemma_discovery_is_subtree(processes, process_id);
        lemma_signals_follow_plan(targets, 0, answer);
        assert forall|i: int| 0 <= i < sent.len() implies in_subtree(
            processes,
            process_id,
            #[trigger] sent[i],
        ) by {
            assert(sent[i] == targets[0 + i]);
            assert(targets[i] == discovery[discovery.len() - 1 - i]);
            assert(discovery.contains(discovery[discovery.len() - 1 - i]));
        }
        assert forall|i: int, j: int| 0 <= i < sent.len() && 0 <= j < sent.len() && i != j implies sent[i]
            != sent[j] by {
            assert(sent[i] == targets[0 + i]);
            assert(sent[j] == targets[0 + j]);
            assert(targets[i] == discovery[discovery.len() - 1 - i]);
            assert(targets[j] == discovery[discovery.len() - 1 - j]);
        }
    }
}

} // verus!
