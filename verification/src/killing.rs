//! The killing itself: a plan that is worked off one signal at a time.

use crate::error::Error;
use crate::run::{conclusion, ids_of};
use crate::signal::{send, settle, settled, Outcome, SignalSpec};
use crate::tree::{kill_order, lemma_kill_order_reversed, plan, ProcessMap};
use vstd::prelude::*;

verus! {

/// A run that has reached the killing. It holds the plan and the signal,
/// and knows which target is next. There always is one: a killing that has
/// signalled its last target is over.
#[derive(Debug)]
pub struct Killing {
    signal: SignalSpec,
    discovery: Vec<u32>,
    targets: Vec<u32>,
    next: usize,
}

/// What the answer to one signal leads to.
#[derive(Debug)]
pub enum Progress {
    /// The next target is due.
    Continue(Killing),
    /// Every target was signalled. The ids are in the order of discovery.
    Done(Vec<u32>),
    /// A signal was refused. The targets before it stay signalled; those
    /// after it are left alone.
    Failed(Error),
}

/// The answers that were given so far, and `Delivered` for the others.
spec fn answers_of(given: Map<u32, Outcome>) -> spec_fn(u32) -> Outcome {
    |process_id: u32|
        if given.contains_key(process_id) {
            given[process_id]
        } else {
            Outcome::Delivered
        }
}

/// Where no target between `from` and `to` is refused, the killing ends
/// from `from` on as it ends from `to` on.
proof fn lemma_conclusion_resumes(
    targets: Seq<u32>,
    from: nat,
    to: nat,
    answer: spec_fn(u32) -> Outcome,
)
    requires
        from <= to <= targets.len(),
        forall|i: int| from <= i < to ==> !(answer(#[trigger] targets[i]) is Refused),
    ensures
        conclusion(targets, from, answer) == conclusion(targets, to, answer),
    decreases to - from,
{
    if from < to {
        assert(!(answer(targets[from as int]) is Refused));
        lemma_conclusion_resumes(targets, from + 1, to, answer);
    }
}

impl Killing {
    #[verifier::type_invariant]
    spec fn well_formed(&self) -> bool {
        &&& self.next < self.targets@.len()
        &&& self.targets@ == kill_order(self.discovery@)
        &&& self.targets@.no_duplicates()
    }

    /// The plan: every member of the subtree, the last discovered first.
    pub closed spec fn targets(&self) -> Seq<u32> {
        self.targets@
    }

    /// The position in the plan of the target that is due.
    pub closed spec fn next(&self) -> nat {
        self.next as nat
    }

    /// The number of the signal that is sent.
    pub closed spec fn signal(&self) -> i32 {
        self.signal@
    }

    /// Plans the killing of `tree` with `signal`. The plan is the order of
    /// discovery reversed, and the killing starts at its head.
    pub fn begin(signal: SignalSpec, tree: ProcessMap) -> (killing: Killing)
        ensures
            killing.targets() == kill_order(tree.discovery()),
            killing.targets().len() > 0,
            killing.next() == 0,
            killing.signal() == signal@,
    {
        let targets = plan(&tree);
        let discovery = tree.into_discovery();
        Killing { signal, discovery, targets, next: 0 }
    }

    /// The process that is due.
    pub fn target(&self) -> (process_id: u32)
        ensures
            self.next() < self.targets().len(),
            process_id == self.targets()[self.next() as int],
    {
        proof {
            use_type_invariant(self);
        }
        self.targets[self.next]
    }

    /// The signal to send to it.
    pub fn signal_to_send(&self) -> (signal: SignalSpec)
        ensures
            signal@ == self.signal(),
    {
        self.signal
    }

    /// Takes the answer to the signal that was sent to the target.
    ///
    /// A refusal ends the run with a `KillError` for that target. Any other
    /// answer moves on to the next target, or ends the run with the ids in
    /// the order of discovery when the target was the last.
    pub fn advance(self, outcome: Outcome) -> (progress: Progress)
        ensures
            self.next() < self.targets().len(),
            match settled(self.targets()[self.next() as int], outcome) {
                Err(error) => progress == Progress::Failed(error),
                Ok(_) => if self.next() + 1 == self.targets().len() {
                    progress matches Progress::Done(ids) && ids@ == kill_order(self.targets())
                } else {
                    &&& progress matches Progress::Continue(killing)
                    &&& killing.targets() == self.targets()
                    &&& killing.next() == self.next() + 1
                    &&& killing.signal() == self.signal()
                },
            },
    {
        proof {
            use_type_invariant(&self);
            lemma_kill_order_reversed(self.discovery@);
        }
        let process_id: u32 = self.targets[self.next];
        let last: usize = self.targets.len() - 1;
        match settle(process_id, outcome) {
            Err(error) => Progress::Failed(error),
            Ok(_) => {
                if self.next == last {
                    Progress::Done(self.discovery)
                } else {
                    Progress::Continue(
                        Killing {
                            signal: self.signal,
                            discovery: self.discovery,
                            targets: self.targets,
                            next: self.next + 1,
                        },
                    )
                }
            },
        }
    }

    /// Carries the killing out: sends the signal to each target that is
    /// left, in the order of the plan, and stops at the first refusal.
    ///
    /// The result is the conclusion of the plan for the answers that the
    /// operating system gave.
    pub fn run(self) -> (result: Result<Vec<u32>, Error>)
        ensures
            exists|answer: spec_fn(u32) -> Outcome|
                ids_of(result) == match #[trigger] conclusion(
                    self.targets(),
                    self.next(),
                    answer,
                ) {
                    Ok(_) => Ok::<Seq<u32>, Error>(kill_order(self.targets())),
                    Err(error) => Err(error),
                },
    {
        proof {
            use_type_invariant(&self);
        }
        let ghost targets = self.targets();
        let ghost first = self.next();
        let ghost mut given: Map<u32, Outcome> = Map::empty();
        let mut killing = self;
        loop
            invariant
                targets == self.targets(),
                first == self.next(),
                killing.targets() == targets,
                targets.no_duplicates(),
                first <= killing.next() < targets.len(),
                forall|i: int|
                    first <= i < killing.next() ==> given.contains_key(#[trigger] targets[i])
                        && !(given[targets[i]] is Refused),
                forall|process_id: u32|
                    given.contains_key(process_id) ==> exists|i: int|
                        first <= i < killing.next() && #[trigger] targets[i] == process_id,
            decreases targets.len() - killing.next(),
        {
            let process_id: u32 = killing.target();
            let outcome = send(process_id, killing.signal_to_send());
            let ghost at = killing.next();
            proof {
                assert(!given.contains_key(process_id)) by {
                    if given.contains_key(process_id) {
                        let i = choose|i: int|
                            first <= i < killing.next() && #[trigger] targets[i] == process_id;
                        assert(targets[i] == targets[at as int]);
                    }
                }
                given = given.insert(process_id, outcome);
                assert forall|i: int| first <= i < at implies !(answers_of(given)(
                    #[trigger] targets[i],
                ) is Refused) by {
                    assert(targets[i] != process_id);
                }
                lemma_conclusion_resumes(targets, first, at, answers_of(given));
                assert(answers_of(given)(targets[at as int]) == outcome);
            }
            match killing.advance(outcome) {
                Progress::Failed(error) => {
                    proof {
                        let answer = answers_of(given);
                        assert(conclusion(targets, at, answer) == Err::<(), Error>(error));
                        assert(conclusion(targets, first, answer) == Err::<(), Error>(error));
                    }
                    return Err(error);
                },
                Progress::Done(ids) => {
                    proof {
                        let answer = answers_of(given);
                        assert(conclusion(targets, at + 1, answer) == Ok::<(), Error>(()));
                        assert(conclusion(targets, at, answer) == Ok::<(), Error>(()));
                        assert(conclusion(targets, first, answer) == Ok::<(), Error>(()));
                    }
                    return Ok(ids);
                },
                Progress::Continue(rest) => {
                    killing = rest;
                    proof {
                        use_type_invariant(&killing);
                    }
                },
            }
        }
    }
}

} // verus!
