//! Signals: resolving what the user wrote into the platform's number, and
//! delivering it to one process.

use crate::decimal::{decimal_code, decimal_value, is_decimal, is_digit, parse_code};
use crate::error::Error;
use nix::errno::Errno;
use nix::sys::signal::{kill, Signal};
use nix::unistd::Pid;
use std::str::FromStr;
use vstd::prelude::*;

verus! {

/// Trusted: the signal type of nix, an enumeration of the platform's
/// signals. Nothing is said of its values; they are only handed from
/// [`signal_from_code`] to [`send_signal`].
#[verifier::external_type_specification]
#[verifier::external_body]
pub struct ExSignal(nix::sys::signal::Signal);

/// The number of the signal that the platform knows under `name`, if any.
/// The platform is the one that the crate is built for.
pub uninterp spec fn signal_named(name: Seq<char>) -> Option<i32>;

/// Whether `code` is the number of a signal of the platform that the crate
/// is built for.
pub uninterp spec fn signal_known(code: i32) -> bool;

/// Trusted: `<nix::sys::signal::Signal as FromStr>::from_str`, a table from
/// the platform's signal names to its signals. The result is handed on as
/// the signal's number; the contract only gives it its name.
#[verifier::external_body]
fn signal_from_name(name: &str) -> (number: Option<i32>)
    ensures
        number == signal_named(name@),
{
    match Signal::from_str(name) {
        Ok(signal) => Some(signal as i32),
        Err(_) => None,
    }
}

/// Trusted: `<nix::sys::signal::Signal as TryFrom<i32>>::try_from`, which
/// accepts exactly the numbers of the platform's signals. The contract only
/// gives that set its name.
#[verifier::external_body]
fn signal_from_code(code: i32) -> (signal: Option<Signal>)
    ensures
        signal is Some <==> signal_known(code),
{
    match Signal::try_from(code) {
        Ok(signal) => Some(signal),
        Err(_) => None,
    }
}

/// Trusted: `nix::sys::signal::kill` on the single process `pid` (which
/// `Pid::from_raw` wraps for it). What comes back depends on the state of
/// the system, so nothing is promised of it. A `pid` below 1 would address a
/// group of processes and is kept out.
#[verifier::external_body]
fn send_signal(pid: i32, signal: Signal) -> (outcome: Outcome)
    requires
        pid > 0,
{
    match kill(Pid::from_raw(pid), signal) {
        Ok(()) => Outcome::Delivered,
        Err(Errno::ESRCH) => Outcome::NoSuchProcess,
        Err(errno) => Outcome::Refused { errno: errno as i32 },
    }
}

/// A signal of the platform, by its number. Values come from [`resolve`]
/// and from nowhere else, so the number is always one that the platform
/// knows.
#[derive(Clone, Copy, Debug, PartialEq, Eq, Structural)]
pub struct SignalSpec {
    number: i32,
}

impl View for SignalSpec {
    type V = i32;

    closed spec fn view(&self) -> i32 {
        self.number
    }
}

impl SignalSpec {
    #[verifier::type_invariant]
    spec fn is_known(&self) -> bool {
        signal_known(self.number)
    }

    /// The number under which the platform knows the signal.
    pub fn number(&self) -> (number: i32)
        ensures
            number == self@,
    {
        self.number
    }
}

/// What the operating system answered when one signal was sent.
#[derive(Clone, Copy, Debug, PartialEq, Eq, Structural)]
pub enum Outcome {
    /// The signal was accepted for delivery.
    Delivered,
    /// No process has that id: it exited before the signal was sent.
    NoSuchProcess,
    /// The request was refused for the reason the error number gives.
    Refused { errno: i32 },
}

/// The number that `token` proposes. A decimal numeral proposes its value;
/// any other text is taken as a name and proposes what the platform's table
/// of names gives for it.
pub open spec fn candidate(token: Seq<char>) -> Option<i32> {
    if is_decimal(token) {
        decimal_code(token)
    } else {
        signal_named(token)
    }
}

/// What becomes of a proposed number: it is accepted if the platform has a
/// signal with that number.
pub open spec fn confirmed(number: Option<i32>) -> Result<i32, Error> {
    match number {
        Some(number) => if signal_known(number) {
            Ok(number)
        } else {
            Err(Error::InvalidSignal)
        },
        None => Err(Error::InvalidSignal),
    }
}

/// What [`resolve`] returns for `token`, the signal taken by its number.
pub open spec fn resolved(token: Seq<char>) -> Result<i32, Error> {
    confirmed(candidate(token))
}

/// A result that holds a signal, with the signal taken by its number.
pub open spec fn by_number(signal: Result<SignalSpec, Error>) -> Result<i32, Error> {
    match signal {
        Ok(signal) => Ok(signal@),
        Err(error) => Err(error),
    }
}

/// Whether `token` consists of one or more decimal digits.
pub fn is_numeral(token: &str) -> (numeral: bool)
    ensures
        numeral == is_decimal(token@),
{
    let len: usize = token.unicode_len();
    let mut i: usize = 0;
    while i < len
        invariant
            len == token@.len(),
            0 <= i <= len,
            forall|j: int| 0 <= j < i ==> is_digit(#[trigger] token@[j]),
        decreases len - i,
    {
        let c: char = token.get_char(i);
        if !('0' <= c && c <= '9') {
            return false;
        }
        i = i + 1;
    }
    len > 0
}

/// Reads the number that a token proposes.
pub fn propose(token: &str) -> (number: Option<i32>)
    ensures
        number == candidate(token@),
{
    if is_numeral(token) {
        parse_code(token)
    } else {
        signal_from_name(token)
    }
}

/// Accepts a proposed number as a signal if the platform has one with that
/// number, and fails with `InvalidSignal` if it has none or if nothing was
/// proposed.
pub fn confirm(number: Option<i32>) -> (signal: Result<SignalSpec, Error>)
    ensures
        by_number(signal) == confirmed(number),
{
    match number {
        Some(number) => match signal_from_code(number) {
            Some(_) => Ok(SignalSpec { number }),
            None => Err(Error::InvalidSignal),
        },
        None => Err(Error::InvalidSignal),
    }
}

/// Resolves a signal name or numeric code.
///
/// Fails with `InvalidSignal` exactly when the token is a numeral that is
/// not the number of a signal, or other text that is not the name of one.
pub fn resolve(token: &str) -> (signal: Result<SignalSpec, Error>)
    ensures
        by_number(signal) == resolved(token@),
{
    confirm(propose(token))
}

/// A numeral that denotes no 32-bit code resolves to nothing, whatever the
/// platform: a numeric code out of range is an invalid signal.
pub proof fn lemma_code_out_of_range(token: Seq<char>)
    requires
        is_decimal(token),
        decimal_value(token) > i32::MAX,
    ensures
        resolved(token) == Err::<i32, Error>(Error::InvalidSignal),
{
}

/// Whether `process_id` names a single process to the operating system:
/// it is positive and fits the platform's signed 32-bit id.
pub open spec fn addressable(process_id: u32) -> bool {
    0 < process_id <= i32::MAX
}

/// Sends `signal` to the process `process_id` and reports the answer.
///
/// An id that cannot name a single process reaches nobody: nothing is sent
/// and the answer is `NoSuchProcess`. For every other id the answer is the
/// operating system's.
pub fn send(process_id: u32, signal: SignalSpec) -> (outcome: Outcome)
    ensures
        !addressable(process_id) ==> outcome == Outcome::NoSuchProcess,
{
    if process_id == 0 || process_id > 2147483647 {
        Outcome::NoSuchProcess
    } else {
        proof {
            use_type_invariant(&signal);
        }
        let native = signal_from_code(signal.number).unwrap();
        send_signal(process_id as i32, native)
    }
}

/// How one answer of the operating system counts.
pub open spec fn settled(process_id: u32, outcome: Outcome) -> Result<(), Error> {
    match outcome {
        Outcome::Refused { errno } => Err(Error::KillError { process_id, errno }),
        _ => Ok(()),
    }
}

/// Decides what an answer means for the run: a process that is already gone
/// is as good as one that took the signal; any refusal is an error.
pub fn settle(process_id: u32, outcome: Outcome) -> (result: Result<(), Error>)
    ensures
        result == settled(process_id, outcome),
{
    match outcome {
        Outcome::Refused { errno } => Err(Error::KillError { process_id, errno }),
        _ => Ok(()),
    }
}

} // verus!
