use kill_tree::{
    kill_tree_with_config, Config, Error, Outcome, ProcessInfo, Progress, TreeKiller,
};

/// The largest process id of a 64-bit Linux system.
const PID_MAX: u32 = 4194304;

/// The error number of "operation not permitted".
const EPERM: i32 = 1;

fn info(process_id: u32, parent_process_id: u32) -> ProcessInfo {
    ProcessInfo { process_id, parent_process_id, name: None }
}

fn table() -> Vec<ProcessInfo> {
    vec![info(10, 1), info(11, 10), info(12, 10), info(13, 11)]
}

fn config(signal: &str) -> Config {
    Config { signal: signal.to_string() }
}

/// Runs the killer against a process table and an operating system that are
/// both made up: `answer` says what becomes of each signal. Returns the
/// result of the run and the ids that were signalled, in that order.
fn simulate(
    process_id: u32,
    config: Config,
    snapshot: Result<Vec<ProcessInfo>, String>,
    answer: impl Fn(u32) -> Outcome,
) -> (Result<Vec<u32>, Error>, Vec<u32>) {
    let killer = TreeKiller::new(process_id, config);
    let mut sent: Vec<u32> = Vec::new();
    let signal = match killer.prepare(PID_MAX) {
        Ok(signal) => signal,
        Err(error) => return (Err(error), sent),
    };
    let mut killing = match killer.start_killing(signal, snapshot) {
        Ok(killing) => killing,
        Err(error) => return (Err(error), sent),
    };
    loop {
        let target = killing.target();
        assert_eq!(killing.signal_to_send(), signal);
        sent.push(target);
        match killing.advance(answer(target)) {
            Progress::Continue(next) => killing = next,
            Progress::Done(ids) => return (Ok(ids), sent),
            Progress::Failed(error) => return (Err(error), sent),
        }
    }
}

#[test]
fn process_id_0() {
    let result = kill_tree_with_config(0, Config::default(), PID_MAX, Ok(table()));
    assert!(result.is_err());
    assert_eq!(
        result.unwrap_err().to_string(),
        "Not allowed to kill kernel process. process id: 0"
    );
}

#[test]
fn process_id_1() {
    let result = kill_tree_with_config(1, Config::default(), PID_MAX, Ok(table()));
    assert!(result.is_err());
    assert_eq!(
        result.unwrap_err().to_string(),
        "Not allowed to kill init process. process id: 1"
    );
}

#[test]
fn hello_world_with_invalid_signal() {
    // A process table with a running `node` stands in for the process.
    let process_id: u32 = 4242;
    let snapshot = vec![ProcessInfo {
        process_id,
        parent_process_id: 1,
        name: Some("node".to_string()),
    }];
    let result = kill_tree_with_config(
        process_id,
        Config {
            signal: "SIGINVALID".to_string(),
        },
        PID_MAX,
        Ok(snapshot),
    );
    assert!(result.is_err());
    assert_eq!(result.unwrap_err().to_string(), "EINVAL: Invalid argument");
}

#[test]
fn default_signal_is_sigterm() {
    assert_eq!(Config::default().signal, "SIGTERM");
    let killer = TreeKiller::new(10, Config::default());
    assert_eq!(killer.process_id, 10);
    assert_eq!(killer.parse_signal().unwrap().number(), 15);
}

#[test]
fn protected_roots_send_nothing() {
    let (result, sent) = simulate(0, Config::default(), Ok(table()), |_| Outcome::Delivered);
    assert_eq!(result, Err(Error::KernelProcessProtected { process_id: 0 }));
    assert!(sent.is_empty());
    let (result, sent) = simulate(1, Config::default(), Ok(table()), |_| Outcome::Delivered);
    assert_eq!(result, Err(Error::InitProcessProtected { process_id: 1 }));
    assert!(sent.is_empty());
}

#[test]
fn protected_root_comes_before_invalid_signal() {
    let (result, sent) = simulate(0, config("SIGINVALID"), Ok(table()), |_| Outcome::Delivered);
    assert_eq!(result, Err(Error::KernelProcessProtected { process_id: 0 }));
    assert!(sent.is_empty());
}

#[test]
fn validation_accepts_up_to_the_maximum() {
    let killer = TreeKiller::new(2, Config::default());
    assert_eq!(killer.validate_pid_with_available_max(2), Ok(()));
    assert_eq!(killer.validate_pid_with_available_max(PID_MAX), Ok(()));
    let killer = TreeKiller::new(PID_MAX, Config::default());
    assert_eq!(killer.validate_pid_with_available_max(PID_MAX), Ok(()));
}

#[test]
fn validation_rejects_above_the_maximum() {
    let killer = TreeKiller::new(5, Config::default());
    let error = killer.validate_pid_with_available_max(4).unwrap_err();
    assert_eq!(error, Error::ProcessIdOutOfRange { process_id: 5, available_max: 4 });
    assert_eq!(
        error.to_string(),
        "Process id is too large. process id: 5, available max process id: 4"
    );
    let (result, sent) =
        simulate(PID_MAX + 1, Config::default(), Ok(table()), |_| Outcome::Delivered);
    assert_eq!(
        result,
        Err(Error::ProcessIdOutOfRange { process_id: PID_MAX + 1, available_max: PID_MAX })
    );
    assert!(sent.is_empty());
}

#[test]
fn validation_of_protected_ids_ignores_the_maximum() {
    let kernel = TreeKiller::new(0, Config::default());
    assert_eq!(
        kernel.validate_pid_with_available_max(0),
        Err(Error::KernelProcessProtected { process_id: 0 })
    );
    let init = TreeKiller::new(1, Config::default());
    assert_eq!(
        init.validate_pid_with_available_max(0),
        Err(Error::InitProcessProtected { process_id: 1 })
    );
}

#[test]
fn missing_root_is_reported() {
    let (result, sent) = simulate(14, Config::default(), Ok(table()), |_| Outcome::Delivered);
    assert_eq!(result, Err(Error::RootNotFound { process_id: 14 }));
    assert!(sent.is_empty());
    let error = kill_tree_with_config(14, Config::default(), PID_MAX, Ok(table())).unwrap_err();
    assert_eq!(error.to_string(), "Process not found. process id: 14");
}

#[test]
fn parent_without_a_line_is_no_root() {
    // 1 is named as a parent but has no line of its own; 2 is named nowhere.
    let (result, _) = simulate(2, Config::default(), Ok(table()), |_| Outcome::Delivered);
    assert_eq!(result, Err(Error::RootNotFound { process_id: 2 }));
    let empty: Vec<ProcessInfo> = Vec::new();
    let (result, sent) = simulate(10, Config::default(), Ok(empty), |_| Outcome::Delivered);
    assert_eq!(result, Err(Error::RootNotFound { process_id: 10 }));
    assert!(sent.is_empty());
}

#[test]
fn unreadable_table_is_reported() {
    let (result, sent) = simulate(
        10,
        Config::default(),
        Err("permission denied".to_string()),
        |_| Outcome::Delivered,
    );
    assert_eq!(result, Err(Error::SnapshotError { message: "permission denied".to_string() }));
    assert!(sent.is_empty());
    assert_eq!(result.unwrap_err().to_string(), "Failed to list processes: permission denied");
}

#[test]
fn invalid_signals_send_nothing() {
    for token in ["", "SIGINVALID", "sigterm", "TERM", "0", "65", "99999999999", "-9", " 9", "9 "] {
        let (result, sent) = simulate(10, config(token), Ok(table()), |_| Outcome::Delivered);
        assert_eq!(result, Err(Error::InvalidSignal));
        assert!(sent.is_empty());
    }
}

#[test]
fn end_to_end_kills_leaves_first() {
    let (result, sent) = simulate(10, Config::default(), Ok(table()), |_| Outcome::Delivered);
    assert_eq!(result, Ok(vec![10, 11, 12, 13]));
    assert_eq!(sent, vec![13, 12, 11, 10]);
}

#[test]
fn end_to_end_of_an_inner_process() {
    let (result, sent) = simulate(11, config("SIGKILL"), Ok(table()), |_| Outcome::Delivered);
    assert_eq!(result, Ok(vec![11, 13]));
    assert_eq!(sent, vec![13, 11]);
}

#[test]
fn process_gone_before_the_signal_is_no_failure() {
    let (result, sent) = simulate(10, Config::default(), Ok(table()), |process_id| {
        if process_id == 12 {
            Outcome::NoSuchProcess
        } else {
            Outcome::Delivered
        }
    });
    assert_eq!(result, Ok(vec![10, 11, 12, 13]));
    assert_eq!(sent, vec![13, 12, 11, 10]);
}

#[test]
fn every_process_gone_is_no_failure() {
    let (result, sent) = simulate(10, Config::default(), Ok(table()), |_| Outcome::NoSuchProcess);
    assert_eq!(result, Ok(vec![10, 11, 12, 13]));
    assert_eq!(sent, vec![13, 12, 11, 10]);
}

#[test]
fn refusal_stops_the_run_without_rollback() {
    let (result, sent) = simulate(10, Config::default(), Ok(table()), |process_id| {
        if process_id == 12 {
            Outcome::Refused { errno: EPERM }
        } else {
            Outcome::Delivered
        }
    });
    assert_eq!(result, Err(Error::KillError { process_id: 12, errno: EPERM }));
    assert_eq!(sent, vec![13, 12]);
}

#[test]
fn refusal_of_the_root_comes_last() {
    let (result, sent) = simulate(10, Config::default(), Ok(table()), |process_id| {
        if process_id == 10 {
            Outcome::Refused { errno: EPERM }
        } else {
            Outcome::NoSuchProcess
        }
    });
    assert_eq!(result, Err(Error::KillError { process_id: 10, errno: EPERM }));
    assert_eq!(sent, vec![13, 12, 11, 10]);
}

#[test]
fn kill_error_reads_as_the_platform_words_it() {
    let error = Error::KillError { process_id: 12, errno: EPERM };
    assert_eq!(error.to_string(), "EPERM: Operation not permitted");
    let error = Error::KillError { process_id: 12, errno: 22 };
    assert_eq!(error.to_string(), "EINVAL: Invalid argument");
    assert_eq!(Error::InvalidSignal.to_string(), "EINVAL: Invalid argument");
}

#[test]
fn messages_write_ids_in_decimal() {
    let error = Error::KernelProcessProtected { process_id: 0 };
    assert_eq!(error.to_string(), "Not allowed to kill kernel process. process id: 0");
    let error = Error::InitProcessProtected { process_id: 1 };
    assert_eq!(error.to_string(), "Not allowed to kill init process. process id: 1");
    let error = Error::RootNotFound { process_id: 4294967295 };
    assert_eq!(error.to_string(), "Process not found. process id: 4294967295");
    let error = Error::ProcessIdOutOfRange { process_id: 4194305, available_max: 4194304 };
    assert_eq!(
        error.to_string(),
        "Process id is too large. process id: 4194305, available max process id: 4194304"
    );
}

#[test]
fn a_process_that_cannot_exist_is_gone() {
    // No process can have this id: it lies far above the largest id that
    // the system hands out. The signal is really sent, and the system
    // answers that there is no such process.
    let ghost: u32 = 2147483647;
    let snapshot = vec![info(ghost, 1)];
    let result = kill_tree_with_config(ghost, Config::default(), u32::MAX, Ok(snapshot));
    assert_eq!(result, Ok(vec![ghost]));
    let killer = TreeKiller::new(ghost, Config::default());
    let signal = killer.parse_signal().unwrap();
    assert_eq!(killer.kill(ghost, signal), Ok(()));
}
