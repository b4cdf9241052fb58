//! The ways in which killing a process tree can fail, and what is said of each.

use crate::decimal::{decimal_digits, push_decimal};
use vstd::prelude::*;
use vstd::string::*;

verus! {

/// Why a request was turned down or came to a halt.
#[derive(Debug, PartialEq, Eq)]
pub enum Error {
    /// The target is process 0, the kernel itself.
    KernelProcessProtected { process_id: u32 },
    /// The target is process 1, from which every other process descends.
    InitProcessProtected { process_id: u32 },
    /// The target lies above the largest id that the platform hands out.
    ProcessIdOutOfRange { process_id: u32, available_max: u32 },
    /// The signal is neither a name nor a number that the platform knows.
    InvalidSignal,
    /// The target is not in the process table.
    RootNotFound { process_id: u32 },
    /// The process table could not be read.
    SnapshotError { message: String },
    /// The operating system refused to signal a process, for another reason
    /// than that the process is gone.
    KillError { process_id: u32, errno: i32 },
}

/// The wording for an error number on the platform that the crate is built
/// for: its symbolic name, a colon and a short description.
pub uninterp spec fn errno_text(errno: i32) -> Seq<char>;

/// Trusted: `nix::errno::Errno::from_i32` and the `Display` of the `Errno`
/// it returns. Both are tables over the number alone, fixed when the crate
/// is built; the contract only gives the outcome its name.
#[verifier::external_body]
fn describe_errno(errno: i32) -> (text: String)
    ensures
        text@ == errno_text(errno),
{
    nix::errno::Errno::from_i32(errno).to_string()
}

impl Error {
    /// The message shown to the user.
    pub open spec fn message(&self) -> Seq<char> {
        match *self {
            Error::KernelProcessProtected { process_id } => {
                "Not allowed to kill kernel process. process id: "@ + decimal_digits(
                    process_id as nat,
                )
            },
            Error::InitProcessProtected { process_id } => {
                "Not allowed to kill init process. process id: "@ + decimal_digits(
                    process_id as nat,
                )
            },
            Error::ProcessIdOutOfRange { process_id, available_max } => {
                "Process id is too large. process id: "@ + decimal_digits(process_id as nat)
                    + ", available max process id: "@ + decimal_digits(available_max as nat)
            },
            Error::InvalidSignal => "EINVAL: Invalid argument"@,
            Error::RootNotFound { process_id } => {
                "Process not found. process id: "@ + decimal_digits(process_id as nat)
            },
            Error::SnapshotError { message } => "Failed to list processes: "@ + message@,
            Error::KillError { process_id, errno } => errno_text(errno),
        }
    }

    /// Writes the message out.
    pub fn to_string(&self) -> (text: String)
        ensures
            text@ == self.message(),
    {
        match self {
            Error::KernelProcessProtected { process_id } => {
                let mut text = String::from_str(
                    "Not allowed to kill kernel process. process id: ",
                );
                push_decimal(&mut text, *process_id);
                text
            },
            Error::InitProcessProtected { process_id } => {
                let mut text = String::from_str("Not allowed to kill init process. process id: ");
                push_decimal(&mut text, *process_id);
                text
            },
            Error::ProcessIdOutOfRange { process_id, available_max } => {
                let mut text = String::from_str("Process id is too large. process id: ");
                push_decimal(&mut text, *process_id);
                text.append(", available max process id: ");
                push_decimal(&mut text, *available_max);
                text
            },
            Error::InvalidSignal => String::from_str("EINVAL: Invalid argument"),
            Error::RootNotFound { process_id } => {
                let mut text = String::from_str("Process not found. process id: ");
                push_decimal(&mut text, *process_id);
                text
            },
            Error::SnapshotError { message } => {
                let mut text = String::from_str("Failed to list processes: ");
                text.append(message.as_str());
                text
            },
            Error::KillError { process_id: _, errno } => describe_errno(*errno),
        }
    }
}

} // verus!
