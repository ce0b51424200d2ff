//! Carrying out the steps of a plan, one file system operation at a time.
//!
//! The library does not touch the file system. A [`RenameRun`] says which
//! operation is pending; the caller performs it and reports the outcome, and
//! the run moves on. For each step the run asks for the parent directory of
//! the destination, then whether the destination exists, then for the
//! rename. A destination that exists ends the run before the rename is asked
//! for, and so does an operation that fails. Steps that were carried out
//! stay as they are.

use crate::error::RenameError;
use vstd::prelude::*;

verus! {

/// What a run waits for.
#[derive(Debug, Clone, PartialEq, Eq)]
pub enum Stage {
    /// The parent directory of the destination of the current step.
    Directory,
    /// The answer to whether the destination of the current step exists.
    Probe,
    /// The rename of the current step.
    Move,
    /// Nothing: every step has been carried out.
    Finished,
    /// Nothing: the run has ended with this error.
    Failed(RenameError),
}

/// The file system operation that the caller is to perform.
#[derive(Debug, Clone, PartialEq, Eq)]
pub enum Action {
    /// Create the parent directory of this path, with its ancestors, unless
    /// it is there already; answer with [`Outcome::Done`].
    PrepareDirectory(String),
    /// Find out whether this path exists; answer with [`Outcome::Exists`].
    ProbeDestination(String),
    /// Rename the first path to the second; answer with [`Outcome::Done`].
    Rename(String, String),
    /// Nothing is left to do: every step has been carried out.
    Finish,
    /// Nothing is left to do: the run has ended with this error.
    Abort(RenameError),
}

/// What became of the operation that the caller performed.
#[derive(Debug, Clone, PartialEq, Eq)]
pub enum Outcome {
    /// The operation succeeded.
    Done,
    /// Whether the path exists.
    Exists(bool),
    /// The operation failed; this is what the file system reported.
    Failure(String),
}

/// The operation that is pending after `applied` of the `steps`, at `stage`.
pub open spec fn pending_action(steps: Seq<(String, String)>, applied: nat, stage: Stage) -> Action {
    match stage {
        Stage::Directory => Action::PrepareDirectory(steps[applied as int].1),
        Stage::Probe => Action::ProbeDestination(steps[applied as int].1),
        Stage::Move => Action::Rename(steps[applied as int].0, steps[applied as int].1),
        Stage::Finished => Action::Finish,
        Stage::Failed(error) => Action::Abort(error),
    }
}

/// Where a run begins: at its first step, or at its end where it has none.
pub open spec fn first_stage(steps: Seq<(String, String)>) -> Stage {
    if steps.len() == 0 {
        Stage::Finished
    } else {
        Stage::Directory
    }
}

/// The number of steps carried out and the stage after `outcome` has been
/// reported. A failure ends the run, and so does a destination that exists.
/// A rename that is done completes its step. An outcome that does not answer
/// the pending operation changes nothing.
pub open spec fn after_outcome(
    steps: Seq<(String, String)>,
    applied: nat,
    stage: Stage,
    outcome: Outcome,
) -> (nat, Stage) {
    match (stage, outcome) {
        (Stage::Directory, Outcome::Done) => (applied, Stage::Probe),
        (Stage::Probe, Outcome::Exists(false)) => (applied, Stage::Move),
        (Stage::Probe, Outcome::Exists(true)) => (
            applied,
            Stage::Failed(RenameError::AlreadyExists(steps[applied as int].1)),
        ),
        (Stage::Move, Outcome::Done) => (
            applied + 1,
            if applied + 1 == steps.len() {
                Stage::Finished
            } else {
                Stage::Directory
            },
        ),
        (Stage::Directory, Outcome::Failure(reason)) => (
            applied,
            Stage::Failed(RenameError::Io(reason)),
        ),
        (Stage::Probe, Outcome::Failure(reason)) => (applied, Stage::Failed(RenameError::Io(reason))),
        (Stage::Move, Outcome::Failure(reason)) => (applied, Stage::Failed(RenameError::Io(reason))),
        _ => (applied, stage),
    }
}

/// How far a run has come.
#[derive(Debug, Clone)]
struct Progress {
    applied: usize,
    stage: Stage,
}

/// The execution of a sequence of steps.
#[derive(Debug)]
pub struct RenameRun {
    steps: Vec<(String, String)>,
    progress: Progress,
}

impl RenameRun {
    /// The steps of the run.
    pub closed spec fn steps(&self) -> Seq<(String, String)> {
        self.steps@
    }

    /// The number of steps that have been carried out.
    pub closed spec fn applied(&self) -> nat {
        self.progress.applied as nat
    }

    /// What the run waits for.
    pub closed spec fn stage(&self) -> Stage {
        self.progress.stage
    }

    /// The run is at one of its steps, or at its end with every step
    /// carried out, or it has failed.
    #[verifier::type_invariant]
    spec fn in_range(self) -> bool {
        &&& self.progress.applied <= self.steps.len()
        &&& (self.progress.stage is Directory || self.progress.stage is Probe || self.progress.stage is Move)
            ==> self.progress.applied < self.steps.len()
        &&& self.progress.stage is Finished ==> self.progress.applied == self.steps.len()
    }

    /// A run never gets ahead of its steps: while it waits for an operation,
    /// a step is left, and when it is finished, none is. This holds of every
    /// run.
    pub open spec fn wf(&self) -> bool {
        &&& self.applied() <= self.steps().len()
        &&& (self.stage() is Directory || self.stage() is Probe || self.stage() is Move)
            ==> self.applied() < self.steps().len()
        &&& self.stage() is Finished ==> self.applied() == self.steps().len()
    }

    /// A run of `steps` that has carried out none of them yet.
    pub fn new(steps: Vec<(String, String)>) -> (run: RenameRun)
        ensures
            run.wf(),
            run.steps() == steps@,
            run.applied() == 0,
            run.stage() == first_stage(steps@),
    {
        let stage = if steps.len() == 0 {
            Stage::Finished
        } else {
            Stage::Directory
        };
        RenameRun { steps, progress: Progress { applied: 0, stage } }
    }

    /// The operation that the caller is to perform now.
    pub fn pending(&self) -> (action: Action)
        ensures
            self.wf(),
            action == pending_action(self.steps(), self.applied(), self.stage()),
    {
        proof {
            use_type_invariant(self);
        }
        match &self.progress.stage {
            Stage::Directory => Action::PrepareDirectory(self.steps[self.progress.applied].1.clone()),
            Stage::Probe => Action::ProbeDestination(self.steps[self.progress.applied].1.clone()),
            Stage::Move => Action::Rename(
                self.steps[self.progress.applied].0.clone(),
                self.steps[self.progress.applied].1.clone(),
            ),
            Stage::Finished => Action::Finish,
            Stage::Failed(error) => Action::Abort(error.duplicate()),
        }
    }

    /// Takes note of the outcome of the pending operation.
    pub fn advance(&mut self, outcome: Outcome)
        ensures
            old(self).wf(),
            final(self).wf(),
            final(self).steps() == old(self).steps(),
            (final(self).applied(), final(self).stage()) == after_outcome(
                old(self).steps(),
                old(self).applied(),
                old(self).stage(),
                outcome,
            ),
    {
        proof {
            use_type_invariant(&*self);
        }
        let applied = self.progress.applied;
        match outcome {
            Outcome::Done => {
                if matches!(self.progress.stage, Stage::Directory) {
                    self.progress = Progress { applied, stage: Stage::Probe };
                } else if matches!(self.progress.stage, Stage::Move) {
                    if applied + 1 == self.steps.len() {
                        self.progress = Progress { applied: applied + 1, stage: Stage::Finished };
                    } else {
                        self.progress = Progress { applied: applied + 1, stage: Stage::Directory };
                    }
                }
            },
            Outcome::Exists(taken) => {
                if matches!(self.progress.stage, Stage::Probe) {
                    if taken {
                        let error = RenameError::AlreadyExists(self.steps[applied].1.clone());
                        self.progress = Progress { applied, stage: Stage::Failed(error) };
                    } else {
                        self.progress = Progress { applied, stage: Stage::Move };
                    }
                }
            },
            Outcome::Failure(reason) => {
                if self.is_active() {
                    let error = RenameError::Io(reason);
                    self.progress = Progress { applied, stage: Stage::Failed(error) };
                }
            },
        }
    }

    /// Whether the run still waits for an operation.
    pub fn is_active(&self) -> (active: bool)
        ensures
            active <==> self.stage() is Directory || self.stage() is Probe || self.stage() is Move,
    {
        matches!(self.progress.stage, Stage::Directory) || matches!(self.progress.stage, Stage::Probe)
            || matches!(self.progress.stage, Stage::Move)
    }

    /// How many steps have been carried out.
    pub fn steps_applied(&self) -> (count: usize)
        ensures
            count == self.applied(),
    {
        self.progress.applied
    }

    /// How the run has ended: `None` while it is active, else whether every
    /// step was carried out or which error stopped it.
    pub fn result(&self) -> (result: Option<Result<(), RenameError>>)
        ensures
            result == match self.stage() {
                Stage::Finished => Some(Ok::<(), RenameError>(())),
                Stage::Failed(error) => Some(Err::<(), RenameError>(error)),
                _ => None::<Result<(), RenameError>>,
            },
    {
        match &self.progress.stage {
            Stage::Finished => Some(Ok(())),
            Stage::Failed(error) => Some(Err(error.duplicate())),
            _ => None,
        }
    }
}

/// Begins to carry out the steps: for each one, in their order, the parent
/// directory of the destination is made sure of, the destination must not
/// exist, and the file is renamed.
pub fn rename_files(rename_mapping: &Vec<(String, String)>) -> (run: RenameRun)
    ensures
        run.wf(),
        run.steps().len() == rename_mapping.len(),
        forall|i: int|
            0 <= i < rename_mapping.len() ==> (#[trigger] run.steps()[i]).0@
                == rename_mapping[i].0@ && run.steps()[i].1@ == rename_mapping[i].1@,
        run.applied() == 0,
        run.stage() == first_stage(run.steps()),
{
    let mut steps: Vec<(String, String)> = Vec::new();
    let mut i: usize = 0;
    while i < rename_mapping.len()
        invariant
            0 <= i <= rename_mapping.len(),
            steps.len() == i,
            forall|k: int|
                0 <= k < i ==> (#[trigger] steps[k]).0@ == rename_mapping[k].0@ && steps[k].1@
                    == rename_mapping[k].1@,
        decreases rename_mapping.len() - i,
    {
        steps.push((rename_mapping[i].0.clone(), rename_mapping[i].1.clone()));
        i += 1;
    }
    RenameRun::new(steps)
}

} // verus!
