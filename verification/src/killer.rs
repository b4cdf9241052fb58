//! The tree killer: which targets it refuses, and the steps of a run that
//! lie in the program's own hands.
//!
//! Reading the process table is left to the caller, so a run is cut where
//! the caller has to act. [`TreeKiller::prepare`] validates the target and
//! resolves the signal; the caller then takes the snapshot;
//! [`TreeKiller::start_killing`] builds the subtree and plans the killing;
//! and a [`Killing`] takes the answer to one signal at a time until the run
//! is done or has failed. [`TreeKiller::kill_tree`] strings these steps
//! together and sends the signals itself.

use crate::error::Error;
use crate::killing::Killing;
use crate::process::ProcessInfo;
use crate::run::{conclusion, ids_of, planned, prepared, reading, run_result};
use crate::signal::{
    addressable, by_number, resolve, resolved, send, settle, settled, Outcome, SignalSpec,
};
use crate::tree::{build, kill_order, lemma_kill_order_reversed};
use vstd::prelude::*;
use vstd::string::*;

verus! {

/// The id of the kernel's own process.
pub const KERNEL_PROCESS_ID: u32 = 0;

/// The id of the first user process, the ancestor of all others.
pub const INIT_PROCESS_ID: u32 = 1;

/// What the caller may choose.
#[derive(Debug, PartialEq, Eq)]
pub struct Config {
    /// The signal to send, by name (`SIGTERM`) or by number (`15`).
    pub signal: String,
}

impl Default for Config {
    /// The signal that asks a process to terminate.
    fn default() -> (config: Self)
        ensures
            config.signal@ == "SIGTERM"@,
    {
        Config { signal: String::from_str("SIGTERM") }
    }
}

/// A request to kill the process `process_id` and all that descend from it.
#[derive(Debug)]
pub struct TreeKiller {
    pub process_id: u32,
    pub config: Config,
}

/// What validation makes of a target: processes 0 and 1 are never killed,
/// and an id above `available_max` names nothing.
pub open spec fn validated(process_id: u32, available_max: u32) -> Result<(), Error> {
    if process_id == KERNEL_PROCESS_ID {
        Err(Error::KernelProcessProtected { process_id })
    } else if process_id == INIT_PROCESS_ID {
        Err(Error::InitProcessProtected { process_id })
    } else if process_id <= available_max {
        Ok(())
    } else {
        Err(Error::ProcessIdOutOfRange { process_id, available_max })
    }
}

impl TreeKiller {
    /// A request to kill `process_id` and its descendants as `config` says.
    pub fn new(process_id: u32, config: Config) -> (killer: Self)
        ensures
            killer.process_id == process_id,
            killer.config == config,
    {
        TreeKiller { process_id, config }
    }

    /// Validates the target against the largest id that the platform hands
    /// out. Process 0 is refused as the kernel's, process 1 as the init
    /// process, an id above `available_max` as out of range; every other
    /// id is accepted.
    pub fn validate_pid_with_available_max(&self, available_max: u32) -> (result: Result<
        (),
        Error,
    >)
        ensures
            result == validated(self.process_id, available_max),
    {
        if self.process_id == KERNEL_PROCESS_ID {
            Err(Error::KernelProcessProtected { process_id: self.process_id })
        } else if self.process_id == INIT_PROCESS_ID {
            Err(Error::InitProcessProtected { process_id: self.process_id })
        } else if self.process_id <= available_max {
            Ok(())
        } else {
            Err(Error::ProcessIdOutOfRange { process_id: self.process_id, available_max })
        }
    }

    /// Resolves the signal of the configuration.
    pub fn parse_signal(&self) -> (signal: Result<SignalSpec, Error>)
        ensures
            by_number(signal) == resolved(self.config.signal@),
    {
        resolve(self.config.signal.as_str())
    }

    /// Sends `signal` to one process. A process that is gone already counts
    /// as killed. Whatever the operating system answers, the only failure is
    /// a `KillError` for this process; an id that cannot name a single
    /// process is never signalled and never fails.
    pub fn kill(&self, process_id: u32, signal: SignalSpec) -> (result: Result<(), Error>)
        ensures
            exists|outcome: Outcome| result == #[trigger] settled(process_id, outcome),
            !addressable(process_id) ==> result is Ok,
    {
        let outcome = send(process_id, signal);
        settle(process_id, outcome)
    }

    /// The steps before the snapshot: validates the target, then resolves
    /// the signal. Nothing outside the program is touched.
    pub fn prepare(&self, available_max: u32) -> (signal: Result<SignalSpec, Error>)
        ensures
            by_number(signal) == prepared(self.process_id, self.config.signal@, available_max),
    {
        match self.validate_pid_with_available_max(available_max) {
            Err(error) => Err(error),
            Ok(_) => self.parse_signal(),
        }
    }

    /// The steps between the snapshot and the first signal: builds the
    /// subtree of the target and plans the killing.
    ///
    /// Fails with `SnapshotError` when the table could not be read and with
    /// `RootNotFound` when the target is not in it. Otherwise the killing
    /// starts at the head of the plan, and the plan is the discovery order
    /// reversed.
    pub fn start_killing(
        &self,
        signal: SignalSpec,
        snapshot: Result<Vec<ProcessInfo>, String>,
    ) -> (killing: Result<Killing, Error>)
        ensures
            match killing {
                Ok(killing) => {
                    &&& planned(self.process_id, reading(snapshot)) == Ok::<Seq<u32>, Error>(
                        kill_order(killing.targets()),
                    )
                    &&& killing.next() == 0
                    &&& killing.targets().len() > 0
                    &&& killing.signal() == signal@
                },
                Err(error) => planned(self.process_id, reading(snapshot)) == Err::<
                    Seq<u32>,
                    Error,
                >(error),
            },
    {
        match snapshot {
            Err(message) => Err(Error::SnapshotError { message }),
            Ok(processes) => match build(&processes, self.process_id) {
                Err(error) => Err(error),
                Ok(tree) => {
                    proof {
                        lemma_kill_order_reversed(tree.discovery());
                    }
                    Ok(Killing::begin(signal, tree))
                },
            },
        }
    }

    /// Kills the tree: validation, resolution of the signal, discovery of
    /// the subtree in `snapshot`, and one signal to each member, the last
    /// discovered first.
    ///
    /// The result is that of a whole run for the answers that the operating
    /// system gave. On success it holds the ids that were signalled, in the
    /// order of their discovery, whether or not a process was still there
    /// to take the signal.
    pub fn kill_tree(&self, available_max: u32, snapshot: Result<Vec<ProcessInfo>, String>) -> (result:
        Result<Vec<u32>, Error>)
        ensures
            exists|answer: spec_fn(u32) -> Outcome|
                ids_of(result) == #[trigger] run_result(
                    self.process_id,
                    self.config.signal@,
                    available_max,
                    reading(snapshot),
                    answer,
                ),
    {
        let ghost unasked = |process_id: u32| Outcome::Delivered;
        let signal = match self.prepare(available_max) {
            Ok(signal) => signal,
            Err(error) => {
                assert(ids_of(Err(error)) == run_result(
                    self.process_id,
                    self.config.signal@,
                    available_max,
                    reading(snapshot),
                    unasked,
                ));
                return Err(error);
            },
        };
        let ghost table = reading(snapshot);
        let killing = match self.start_killing(signal, snapshot) {
            Ok(killing) => killing,
            Err(error) => {
                assert(ids_of(Err(error)) == run_result(
                    self.process_id,
                    self.config.signal@,
                    available_max,
                    table,
                    unasked,
                ));
                return Err(error);
            },
        };
        let ghost targets = killing.targets();
        let result = killing.run();
        proof {
            lemma_kill_order_reversed(targets);
            let answer = choose|answer: spec_fn(u32) -> Outcome|
                ids_of(result) == match #[trigger] conclusion(targets, 0, answer) {
                    Ok(_) => Ok::<Seq<u32>, Error>(kill_order(targets)),
                    Err(error) => Err(error),
                };
            assert(ids_of(result) == run_result(
                self.process_id,
                self.config.signal@,
                available_max,
                table,
                answer,
            ));
        }
        result
    }
}

/// Kills the process `process_id` and all that descend from it, with the
/// signal that `config` names.
///
/// The caller reads what the platform has to say: `available_max`, the
/// largest id it hands out, and `snapshot`, its process table or the reason
/// why it could not be read. The result is that of a whole run for the
/// answers that the operating system gave to the signals.
pub fn kill_tree_with_config(
    process_id: u32,
    config: Config,
    available_max: u32,
    snapshot: Result<Vec<ProcessInfo>, String>,
) -> (result: Result<Vec<u32>, Error>)
    ensures
        exists|answer: spec_fn(u32) -> Outcome|
            ids_of(result) == #[trigger] run_result(
                process_id,
                config.signal@,
                available_max,
                reading(snapshot),
                answer,
            ),
{
    TreeKiller::new(process_id, config).kill_tree(available_max, snapshot)
}

} // verus!
