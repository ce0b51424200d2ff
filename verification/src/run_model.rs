//! A run against the model of the file system: what the run asks for is
//! carried out on the model, and the model's answers are reported to the run.
//! The proof below says where such a run ends.

use crate::error::RenameError;
use crate::executor::after_outcome;
use crate::executor::pending_action;
use crate::executor::Action;
use crate::executor::Outcome;
use crate::executor::Stage;
use crate::mapping::destinations;
use crate::mapping::is_rename_mapping;
use crate::mapping::sources;
use crate::mapping::Renames;
use crate::plan::carries_out;
use crate::replay::apply_step;
use crate::replay::can_apply;
use crate::replay::lemma_plan_relocates;
use crate::replay::lemma_taken_destination_blocks;
use crate::replay::ready_for;
use crate::replay::relocated;
use crate::replay::replay;
use crate::text::Path;
use vstd::prelude::*;

verus! {

/// The steps as pairs of paths.
pub open spec fn paths_of(steps: Seq<(String, String)>) -> Renames {
    Seq::new(steps.len(), |i: int| (steps[i].0@, steps[i].1@))
}

/// What the model answers to an operation. A directory can always be made; a
/// rename fails with `report` where the file is missing.
pub open spec fn answer<C>(files: Map<Path, C>, action: Action, report: String) -> Outcome {
    match action {
        Action::PrepareDirectory(_) => Outcome::Done,
        Action::ProbeDestination(path) => Outcome::Exists(files.dom().contains(path@)),
        Action::Rename(from, _) => if files.dom().contains(from@) {
            Outcome::Done
        } else {
            Outcome::Failure(report)
        },
        Action::Finish => Outcome::Done,
        Action::Abort(_) => Outcome::Done,
    }
}

/// The files of the model after an operation: a rename of a file that is
/// there moves it, nothing else changes a file.
pub open spec fn effect<C>(files: Map<Path, C>, action: Action) -> Map<Path, C> {
    match action {
        Action::Rename(from, to) => if files.dom().contains(from@) {
            apply_step(files, (from@, to@))
        } else {
            files
        },
        _ => files,
    }
}

/// How far a run has come, and the files as they are then.
pub struct Situation<C> {
    /// The number of steps that have been carried out.
    pub applied: nat,
    /// What the run waits for.
    pub stage: Stage,
    /// The files.
    pub files: Map<Path, C>,
}

/// The situation after at most `fuel` operations of a run that is driven
/// against the model, or at its end where that comes earlier.
pub open spec fn drive<C>(
    steps: Seq<(String, String)>,
    now: Situation<C>,
    report: String,
    fuel: nat,
) -> Situation<C>
    decreases fuel,
{
    if fuel == 0 || now.stage is Finished || now.stage is Failed {
        now
    } else {
        let action = pending_action(steps, now.applied, now.stage);
        let outcome = answer(now.files, action, report);
        let next = after_outcome(steps, now.applied, now.stage, outcome);
        drive(
            steps,
            Situation { applied: next.0, stage: next.1, files: effect(now.files, action) },
            report,
            (fuel - 1) as nat,
        )
    }
}

/// A run that is at the beginning of step `applied`, or at its end.
pub open spec fn at_step<C>(steps: Seq<(String, String)>, applied: nat, files: Map<Path, C>) -> Situation<
    C,
> {
    Situation {
        applied,
        stage: if applied == steps.len() {
            Stage::Finished
        } else {
            Stage::Directory
        },
        files,
    }
}

/// Where the first steps of a sequence can be carried out, so can fewer.
proof fn lemma_replay_prefix<C>(files: Map<Path, C>, steps: Renames, a: int, k: int)
    requires
        0 <= a <= k <= steps.len(),
        replay(files, steps.take(k)) is Some,
    ensures
        replay(files, steps.take(a)) is Some,
        a < k ==> can_apply(replay(files, steps.take(a))->0, steps[a]) && replay(
            files,
            steps.take(a + 1),
        ) == Some(apply_step(replay(files, steps.take(a))->0, steps[a])),
    decreases k - a,
{
    if a < k {
        lemma_replay_prefix(files, steps, a + 1, k);
        assert(steps.take(a + 1).drop_last() =~= steps.take(a));
        assert(steps.take(a + 1).last() == steps[a]);
    }
}

/// A step whose file is there and whose destination is free is carried out
/// with three operations.
proof fn lemma_step_done<C>(
    steps: Seq<(String, String)>,
    applied: nat,
    files: Map<Path, C>,
    report: String,
    fuel: nat,
)
    requires
        applied < steps.len(),
        can_apply(files, paths_of(steps)[applied as int]),
        fuel >= 3,
    ensures
        drive(steps, at_step(steps, applied, files), report, fuel) == drive(
            steps,
            at_step(steps, applied + 1, apply_step(files, paths_of(steps)[applied as int])),
            report,
            (fuel - 3) as nat,
        ),
{
    reveal_with_fuel(drive, 4);
}

/// A run against the model carries out the first `k` steps where they can
/// be carried out.
proof fn lemma_run_reaches<C>(
    steps: Seq<(String, String)>,
    files: Map<Path, C>,
    report: String,
    a: nat,
    k: nat,
    fuel: nat,
)
    requires
        a <= k <= steps.len(),
        replay(files, paths_of(steps).take(k as int)) is Some,
        fuel >= 3 * (k - a),
    ensures
        replay(files, paths_of(steps).take(a as int)) is Some,
        drive(
            steps,
            at_step(steps, a, replay(files, paths_of(steps).take(a as int))->0),
            report,
            fuel,
        ) == drive(
            steps,
            at_step(steps, k, replay(files, paths_of(steps).take(k as int))->0),
            report,
            (fuel - 3 * (k - a)) as nat,
        ),
    decreases k - a,
{
    lemma_replay_prefix(files, paths_of(steps), a as int, k as int);
    if a < k {
        let now = replay(files, paths_of(steps).take(a as int))->0;
        lemma_step_done(steps, a, now, report, fuel);
        lemma_run_reaches(steps, files, report, a + 1, k, (fuel - 3) as nat);
    }
}

/// Where a run against the model ends.
///
/// Let the first `k` steps be such that each can be carried out after the
/// ones before it. A run that is given enough operations then carries out
/// these `k` steps, and
/// - ends finished where these are all its steps;
/// - ends with the error that names the destination of the next step where
///   that destination exists, without a rename of that step: the files are
///   as the first `k` steps have left them;
/// - ends with the report of the file system where the next step finds
///   neither its destination nor its file.
pub proof fn lemma_run_on_model<C>(
    steps: Seq<(String, String)>,
    files: Map<Path, C>,
    report: String,
    k: nat,
    fuel: nat,
)
    requires
        k <= steps.len(),
        replay(files, paths_of(steps).take(k as int)) is Some,
        fuel >= 3 * k + 3,
    ensures
        ({
            let end = drive(steps, at_step(steps, 0, files), report, fuel);
            let reached = replay(files, paths_of(steps).take(k as int))->0;
            &&& k == steps.len() ==> end == Situation {
                applied: k,
                stage: Stage::Finished,
                files: reached,
            }
            &&& k < steps.len() && reached.dom().contains(steps[k as int].1@) ==> end
                == Situation {
                applied: k,
                stage: Stage::Failed(RenameError::AlreadyExists(steps[k as int].1)),
                files: reached,
            }
            &&& k < steps.len() && !reached.dom().contains(steps[k as int].1@)
                && !reached.dom().contains(steps[k as int].0@) ==> end == Situation {
                applied: k,
                stage: Stage::Failed(RenameError::Io(report)),
                files: reached,
            }
        }),
{
    lemma_run_reaches(steps, files, report, 0, k, fuel);
    assert(paths_of(steps).take(0) =~= Seq::<(Path, Path)>::empty());
    reveal_with_fuel(drive, 4);
}

/// Steps that carry out a mapping, as the steps of a plan do, and that are
/// run against files that are ready for them end finished, with every file
/// of the mapping where it is wanted.
pub proof fn lemma_plan_runs_to_completion<C>(
    renames: Renames,
    steps: Seq<(String, String)>,
    files: Map<Path, C>,
    report: String,
    fuel: nat,
)
    requires
        is_rename_mapping(renames),
        carries_out(renames, paths_of(steps)),
        ready_for(files, renames, paths_of(steps)),
        fuel >= 3 * steps.len() + 3,
    ensures
        drive(steps, at_step(steps, 0, files), report, fuel).applied == steps.len(),
        drive(steps, at_step(steps, 0, files), report, fuel).stage == Stage::Finished,
        relocated(files, renames, drive(steps, at_step(steps, 0, files), report, fuel).files),
{
    let plan = paths_of(steps);
    lemma_plan_relocates(renames, plan, files);
    assert(plan.take(steps.len() as int) =~= plan);
    lemma_run_on_model(steps, files, report, steps.len(), fuel);
}

/// A run stops at a destination that is taken, before it touches it.
///
/// Let every file that is to be renamed exist and let the temporary names of
/// the plan be free, but let a file be at the destination of a request that
/// is not itself renamed away. Then the run ends with the error that names
/// the destination of one of its main steps, where a file was from the start
/// that no rename of the mapping moves away. That file still holds what it
/// held, the file of the step is still at its place, and the steps before
/// this one stay carried out.
pub proof fn lemma_collision_stops_run<C>(
    renames: Renames,
    steps: Seq<(String, String)>,
    files: Map<Path, C>,
    report: String,
    fuel: nat,
    i: int,
) -> (k: nat)
    requires
        is_rename_mapping(renames),
        carries_out(renames, paths_of(steps)),
        forall|h: int| 0 <= h < renames.len() ==> files.dom().contains((#[trigger] renames[h]).0),
        forall|t: int|
            renames.len() <= t < steps.len() ==> !files.dom().contains(
                (#[trigger] paths_of(steps)[t]).0,
            ),
        0 <= i < renames.len(),
        files.dom().contains(renames[i].1),
        !sources(renames).contains(renames[i].1),
        fuel >= 3 * steps.len() + 3,
    ensures
        k < renames.len(),
        k < steps.len(),
        drive(steps, at_step(steps, 0, files), report, fuel) == (Situation {
            applied: k,
            stage: Stage::Failed(RenameError::AlreadyExists(steps[k as int].1)),
            files: replay(files, paths_of(steps).take(k as int))->0,
        }),
        destinations(renames).contains(steps[k as int].1@),
        !sources(renames).contains(steps[k as int].1@),
        files.dom().contains(steps[k as int].1@),
        replay(files, paths_of(steps).take(k as int))->0[steps[k as int].1@]
            == files[steps[k as int].1@],
        replay(files, paths_of(steps).take(k as int))->0.dom().contains(steps[k as int].0@),
{
    let plan = paths_of(steps);
    let k = lemma_taken_destination_blocks(renames, plan, files, i);
    lemma_run_on_model(steps, files, report, k as nat, fuel);
    k as nat
}

} // verus!
