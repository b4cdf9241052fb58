use kill_tree::decimal::{parse_code, push_decimal};
use kill_tree::signal::{confirm, is_numeral, propose};
use kill_tree::{resolve, send, settle, Config, Error, Outcome, TreeKiller};

#[test]
fn names_resolve_to_their_numbers() {
    assert_eq!(resolve("SIGHUP").unwrap().number(), 1);
    assert_eq!(resolve("SIGINT").unwrap().number(), 2);
    assert_eq!(resolve("SIGKILL").unwrap().number(), 9);
    assert_eq!(resolve("SIGTERM").unwrap().number(), 15);
}

#[test]
fn numbers_resolve_to_themselves() {
    assert_eq!(resolve("1").unwrap().number(), 1);
    assert_eq!(resolve("9").unwrap().number(), 9);
    assert_eq!(resolve("15").unwrap().number(), 15);
    assert_eq!(resolve("015").unwrap().number(), 15);
    assert_eq!(resolve("15"), resolve("SIGTERM"));
    assert_eq!(resolve("2"), resolve("SIGINT"));
}

#[test]
fn unknown_tokens_are_invalid() {
    for token in ["", "SIGINVALID", "SIG", "sigterm", "TERM", "SIGTERM ", " SIGTERM", "15x"] {
        assert_eq!(resolve(token), Err(Error::InvalidSignal));
    }
}

#[test]
fn numbers_that_name_no_signal_are_invalid() {
    for token in ["0", "65", "1000", "2147483647", "2147483648", "99999999999", "-1", "+15"] {
        assert_eq!(resolve(token), Err(Error::InvalidSignal));
    }
}

#[test]
fn tokens_propose_numbers() {
    assert_eq!(propose("15"), Some(15));
    assert_eq!(propose("SIGTERM"), Some(15));
    assert_eq!(propose("SIGKILL"), Some(9));
    assert_eq!(propose("0"), Some(0));
    assert_eq!(propose("99"), Some(99));
    assert_eq!(propose("99999999999"), None);
    assert_eq!(propose(""), None);
    assert_eq!(propose("SIGINVALID"), None);
}

#[test]
fn proposed_numbers_are_confirmed_by_the_platform() {
    assert_eq!(confirm(Some(15)).unwrap().number(), 15);
    assert_eq!(confirm(Some(9)), resolve("SIGKILL"));
    assert_eq!(confirm(Some(0)), Err(Error::InvalidSignal));
    assert_eq!(confirm(Some(99)), Err(Error::InvalidSignal));
    assert_eq!(confirm(Some(-15)), Err(Error::InvalidSignal));
    assert_eq!(confirm(None), Err(Error::InvalidSignal));
}

#[test]
fn parse_signal_reads_the_configuration() {
    let killer = TreeKiller::new(10, Config { signal: "SIGINT".to_string() });
    assert_eq!(killer.parse_signal().unwrap().number(), 2);
    let killer = TreeKiller::new(10, Config { signal: "SIGINVALID".to_string() });
    assert_eq!(killer.parse_signal(), Err(Error::InvalidSignal));
}

#[test]
fn prepare_validates_before_it_resolves() {
    let killer = TreeKiller::new(1, Config { signal: "SIGINVALID".to_string() });
    assert_eq!(killer.prepare(100), Err(Error::InitProcessProtected { process_id: 1 }));
    let killer = TreeKiller::new(101, Config { signal: "SIGINVALID".to_string() });
    assert_eq!(
        killer.prepare(100),
        Err(Error::ProcessIdOutOfRange { process_id: 101, available_max: 100 })
    );
    let killer = TreeKiller::new(100, Config { signal: "SIGINVALID".to_string() });
    assert_eq!(killer.prepare(100), Err(Error::InvalidSignal));
    let killer = TreeKiller::new(100, Config::default());
    assert_eq!(killer.prepare(100).unwrap().number(), 15);
}

#[test]
fn decimal_codes() {
    assert_eq!(parse_code("0"), Some(0));
    assert_eq!(parse_code("7"), Some(7));
    assert_eq!(parse_code("0012"), Some(12));
    assert_eq!(parse_code("2147483647"), Some(2147483647));
    assert_eq!(parse_code("2147483648"), None);
    assert_eq!(parse_code("4294967296"), None);
    assert_eq!(parse_code("99999999999999999999"), None);
    assert_eq!(parse_code(""), None);
    assert_eq!(parse_code("1a"), None);
    assert_eq!(parse_code("-1"), None);
    assert_eq!(parse_code("１"), None);
}

#[test]
fn numerals() {
    assert!(is_numeral("0"));
    assert!(is_numeral("99999999999999999999"));
    assert!(!is_numeral(""));
    assert!(!is_numeral("9 "));
    assert!(!is_numeral("SIGTERM"));
}

#[test]
fn decimal_notation() {
    let mut text = String::new();
    push_decimal(&mut text, 0);
    assert_eq!(text, "0");
    push_decimal(&mut text, 10);
    assert_eq!(text, "010");
    let mut text = "id: ".to_string();
    push_decimal(&mut text, 4294967295);
    assert_eq!(text, "id: 4294967295");
    let mut text = String::new();
    push_decimal(&mut text, 1000000);
    assert_eq!(text, "1000000");
}

#[test]
fn answers_settle() {
    assert_eq!(settle(7, Outcome::Delivered), Ok(()));
    assert_eq!(settle(7, Outcome::NoSuchProcess), Ok(()));
    assert_eq!(
        settle(7, Outcome::Refused { errno: 1 }),
        Err(Error::KillError { process_id: 7, errno: 1 })
    );
}

#[test]
fn ids_that_name_no_process_are_never_signalled() {
    let signal = resolve("SIGTERM").unwrap();
    assert_eq!(send(0, signal), Outcome::NoSuchProcess);
    assert_eq!(send(2147483648, signal), Outcome::NoSuchProcess);
    assert_eq!(send(4294967295, signal), Outcome::NoSuchProcess);
    let killer = TreeKiller::new(10, Config::default());
    assert_eq!(killer.kill(0, signal), Ok(()));
    assert_eq!(killer.kill(4294967295, signal), Ok(()));
}

#[test]
fn signal_to_a_process_that_cannot_exist() {
    // Far above the largest id that the system hands out.
    let signal = resolve("SIGTERM").unwrap();
    assert_eq!(send(2147483647, signal), Outcome::NoSuchProcess);
}
