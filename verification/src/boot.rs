//! The order of early boot, as a state machine.
//!
//! The kernel reads the boot information, brings up the heap, and from then on
//! serves requests. Any failure on the way is final: there is nobody to report
//! to and no safe way on, so the machine moves to `Halted` and stays there.
//! The halt is a state like the others, not an unwinding of the stack.

use crate::error::ErrorKind;
use vstd::prelude::*;

verus! {

/// How far boot has come.
#[derive(Clone, Copy, Debug, PartialEq, Eq, Structural)]
pub enum BootStage {
    /// The kernel was entered; nothing has been read yet.
    Entered,
    /// The boot information was read and found well-formed.
    InfoRead,
    /// The heap is set up, once and for good, and requests are served.
    HeapReady,
    /// Boot failed. The kind has been reported; nothing runs any more.
    Halted(ErrorKind),
}

impl BootStage {
    /// Whether boot has stopped for good.
    pub open spec fn is_terminal(self) -> bool {
        self is Halted
    }

    /// The stage that follows `self` when the step taken from it ended in
    /// `outcome`.
    pub open spec fn after(self, outcome: Result<(), ErrorKind>) -> BootStage {
        match (self, outcome) {
            (BootStage::Halted(kind), _) => BootStage::Halted(kind),
            (_, Err(kind)) => BootStage::Halted(kind),
            (BootStage::Entered, Ok(_)) => BootStage::InfoRead,
            (BootStage::InfoRead, Ok(_)) => BootStage::HeapReady,
            (BootStage::HeapReady, Ok(_)) => BootStage::HeapReady,
        }
    }

    /// Moves on by one step. A failure halts the machine with its kind; a
    /// halted machine stays as it is, whatever comes; and once the heap is
    /// ready it stays ready, so that it is never set up a second time.
    pub fn advance(self, outcome: Result<(), ErrorKind>) -> (next: BootStage)
        ensures
            next == self.after(outcome),
    {
        match self {
            BootStage::Halted(kind) => BootStage::Halted(kind),
            BootStage::Entered => match outcome {
                Ok(_) => BootStage::InfoRead,
                Err(kind) => BootStage::Halted(kind),
            },
            BootStage::InfoRead => match outcome {
                Ok(_) => BootStage::HeapReady,
                Err(kind) => BootStage::Halted(kind),
            },
            BootStage::HeapReady => match outcome {
                Ok(_) => BootStage::HeapReady,
                Err(kind) => BootStage::Halted(kind),
            },
        }
    }
}

/// The stage reached from `stage` after the outcomes `outcomes`, in order.
pub open spec fn stage_after(stage: BootStage, outcomes: Seq<Result<(), ErrorKind>>) -> BootStage
    decreases outcomes.len(),
{
    if outcomes.len() == 0 {
        stage
    } else {
        stage_after(stage, outcomes.drop_last()).after(outcomes.last())
    }
}

/// Halting is final: from a halted machine every run of outcomes ends in the
/// same state.
pub proof fn lemma_halt_is_final(kind: ErrorKind, outcomes: Seq<Result<(), ErrorKind>>)
    ensures
        stage_after(BootStage::Halted(kind), outcomes) == BootStage::Halted(kind),
    decreases outcomes.len(),
{
    if outcomes.len() > 0 {
        lemma_halt_is_final(kind, outcomes.drop_last());
    }
}

/// The first failure decides: a run that fails at step `i`, and at no step
/// before, ends halted with the kind of that failure, whatever follows.
pub proof fn lemma_first_failure_halts(
    stage: BootStage,
    outcomes: Seq<Result<(), ErrorKind>>,
    i: int,
)
    requires
        !stage.is_terminal(),
        0 <= i < outcomes.len(),
        outcomes[i] is Err,
        forall|j: int| 0 <= j < i ==> outcomes[j] is Ok,
    ensures
        stage_after(stage, outcomes) == BootStage::Halted(outcomes[i]->Err_0),
    decreases outcomes.len(),
{
    let front = outcomes.drop_last();
    if i == outcomes.len() - 1 {
        lemma_no_failure_no_halt(stage, front);
    } else {
        lemma_first_failure_halts(stage, front, i);
    }
}

/// Without a failure the machine does not halt.
pub proof fn lemma_no_failure_no_halt(stage: BootStage, outcomes: Seq<Result<(), ErrorKind>>)
    requires
        !stage.is_terminal(),
        forall|j: int| 0 <= j < outcomes.len() ==> outcomes[j] is Ok,
    ensures
        !stage_after(stage, outcomes).is_terminal(),
    decreases outcomes.len(),
{
    if outcomes.len() > 0 {
        lemma_no_failure_no_halt(stage, outcomes.drop_last());
    }
}

} // verus!
