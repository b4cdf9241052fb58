//! Terminates a process together with everything it spawned.
//!
//! The crate reconstructs the subtree of a process from a snapshot of the
//! process table, orders it so that the deepest descendants are signalled
//! first, and delivers one signal to each process. Every rule of that
//! procedure is stated as a contract and proved. What is taken on trust is
//! marked as such: the signal table, the error texts and the `kill` call of
//! the `nix` crate, in [`signal`] and [`error`].
//!
//! - [`decimal`]: decimal text, for messages and numeric signal codes
//! - [`error`]: the errors and their messages
//! - [`signal`]: resolving a signal, sending it, judging the answer
//! - [`process`]: the snapshot and its parent links
//! - [`procfs`]: reading a snapshot out of the text of the proc file system
//! - [`tree`]: discovery of a subtree and the order of killing
//! - [`killing`]: the killing as a sequence of single steps
//! - [`killer`]: the request and the run from validation to the last signal
//! - [`run`]: what a run comes to, and what holds of every run

pub mod decimal;
pub mod error;
pub mod killer;
pub mod killing;
pub mod process;
pub mod procfs;
pub mod run;
pub mod signal;
pub mod tree;

pub use error::Error;
pub use killer::{kill_tree_with_config, Config, TreeKiller};
pub use killing::{Killing, Progress};
pub use process::ProcessInfo;
pub use signal::{resolve, send, settle, Outcome, SignalSpec};
pub use tree::{build, plan, ProcessMap};
