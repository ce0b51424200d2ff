//! What a plan does to the files: the steps replayed on a model of the file
//! system, and the proof that a plan moves every file to where it is wanted.
//!
//! The model is a map from the paths that exist to what they hold. A step is
//! a rename that refuses to overwrite: it needs its source to exist and its
//! destination not to.

use crate::mapping::destinations;
use crate::mapping::is_rename_mapping;
use crate::mapping::sources;
use crate::mapping::Renames;
use crate::plan::deferred_steps;
use crate::plan::is_deferred_step;
use crate::plan::is_fresh;
use crate::plan::carries_out;
use crate::plan::is_requested;
use crate::plan::is_served;
use crate::plan::main_steps;
use crate::plan::serves;
use crate::text::Path;
use vstd::prelude::*;

verus! {

/// The step can be carried out: its source exists, its destination does not.
pub open spec fn can_apply<C>(files: Map<Path, C>, step: (Path, Path)) -> bool {
    files.dom().contains(step.0) && !files.dom().contains(step.1)
}

/// The files after the step: what was at its source is at its destination.
pub open spec fn apply_step<C>(files: Map<Path, C>, step: (Path, Path)) -> Map<Path, C> {
    files.remove(step.0).insert(step.1, files[step.0])
}

/// The files after all the steps, one after the other, or `None` where one
/// of them cannot be carried out.
pub open spec fn replay<C>(files: Map<Path, C>, steps: Renames) -> Option<Map<Path, C>>
    decreases steps.len(),
{
    if steps.len() == 0 {
        Some(files)
    } else {
        match replay(files, steps.drop_last()) {
            Some(before) => if can_apply(before, steps.last()) {
                Some(apply_step(before, steps.last()))
            } else {
                None
            },
            None => None,
        }
    }
}

/// `after` is `before` with every file of the mapping where it is wanted:
/// each destination holds what its source held, each source that is no
/// destination is gone, and every other path is as it was.
pub open spec fn relocated<C>(before: Map<Path, C>, renames: Renames, after: Map<Path, C>) -> bool {
    &&& forall|i: int|
        0 <= i < renames.len() ==> after.dom().contains((#[trigger] renames[i]).1)
            && after[renames[i].1] == before[renames[i].0]
    &&& forall|i: int|
        0 <= i < renames.len() && !destinations(renames).contains((#[trigger] renames[i]).0)
            ==> !after.dom().contains(renames[i].0)
    &&& forall|path: Path|
        is_fresh(renames, path) ==> (#[trigger] after.dom().contains(path)
            <==> before.dom().contains(path)) && (before.dom().contains(path) ==> after[path]
            == before[path])
}

/// Replaying two sequences of steps one after the other is replaying their
/// concatenation.
pub proof fn lemma_replay_concat<C>(files: Map<Path, C>, first: Renames, second: Renames)
    ensures
        replay(files, first + second) == match replay(files, first) {
            Some(between) => replay(between, second),
            None => None,
        },
    decreases second.len(),
{
    if second.len() == 0 {
        assert(first + second =~= first);
    } else {
        lemma_replay_concat(files, first, second.drop_last());
        assert((first + second).drop_last() =~= first + second.drop_last());
        assert((first + second).last() == second.last());
    }
}

/// Some step among the first `k` moves a file to `path`.
pub open spec fn is_written(steps: Renames, k: int, path: Path) -> bool {
    exists|j: int| 0 <= j < k && (#[trigger] steps[j]).1 == path
}

/// Some step among the first `k` moves the file at `path` away.
pub open spec fn is_vacated(steps: Renames, k: int, path: Path) -> bool {
    exists|j: int| 0 <= j < k && (#[trigger] steps[j]).0 == path
}

/// What the first `k` of the steps have done to `files`, where none of them
/// moves a file to a path that a later one moves a file away from: what was
/// moved is at its destination, what was moved away and not replaced is gone,
/// and the rest is as it was.
pub open spec fn moved<C>(files: Map<Path, C>, steps: Renames, k: int, now: Map<Path, C>) -> bool {
    &&& forall|path: Path| #[trigger]
        now.dom().contains(path) <==> is_written(steps, k, path) || (!is_vacated(steps, k, path)
            && files.dom().contains(path))
    &&& forall|j: int| 0 <= j < k ==> now[(#[trigger] steps[j]).1] == files[steps[j].0]
    &&& forall|path: Path|
        !is_written(steps, k, path) && !is_vacated(steps, k, path) ==> #[trigger] now[path]
            == files[path]
}

/// Of steps that take their files from distinct places to distinct places,
/// with no step moving a file to where a later step takes one from, the first
/// `k` can be carried out, provided that the source of each of them exists
/// and that its destination is free or is vacated by an earlier step.
pub proof fn lemma_replay_ordered<C>(files: Map<Path, C>, steps: Renames, k: int)
    requires
        0 <= k <= steps.len(),
        sources(steps).no_duplicates(),
        destinations(steps).no_duplicates(),
        forall|i: int, j: int|
            0 <= i <= j < steps.len() ==> (#[trigger] steps[i]).1 != (#[trigger] steps[j]).0,
        forall|j: int| 0 <= j < k ==> files.dom().contains((#[trigger] steps[j]).0),
        forall|j: int|
            0 <= j < k && files.dom().contains((#[trigger] steps[j]).1) ==> is_vacated(
                steps,
                j,
                steps[j].1,
            ),
    ensures
        replay(files, steps.take(k)) is Some,
        moved(files, steps, k, replay(files, steps.take(k))->0),
    decreases k,
{
    if k == 0 {
        assert(steps.take(0).len() == 0);
    } else {
        lemma_replay_ordered(files, steps, k - 1);
        assert(steps.take(k).drop_last() =~= steps.take(k - 1));
        assert(steps.take(k).last() == steps[k - 1]);
        let before = replay(files, steps.take(k - 1))->0;
        let step = steps[k - 1];
        assert(!is_written(steps, k - 1, step.0));
        assert(!is_vacated(steps, k - 1, step.0)) by {
            if is_vacated(steps, k - 1, step.0) {
                let j = choose|j: int| 0 <= j < k - 1 && (#[trigger] steps[j]).0 == step.0;
                assert(sources(steps)[j] == sources(steps)[k - 1]);
            }
        }
        assert(!is_written(steps, k - 1, step.1)) by {
            if is_written(steps, k - 1, step.1) {
                let j = choose|j: int| 0 <= j < k - 1 && (#[trigger] steps[j]).1 == step.1;
                assert(destinations(steps)[j] == destinations(steps)[k - 1]);
            }
        }
        assert(before.dom().contains(step.0));
        assert(!before.dom().contains(step.1));
        assert(before[step.0] == files[step.0]);
        let now = apply_step(before, step);
        assert(replay(files, steps.take(k)) == Some(now));
        assert forall|path: Path|
            (is_written(steps, k, path) <==> is_written(steps, k - 1, path) || path == step.1) && (
            is_vacated(steps, k, path) <==> is_vacated(steps, k - 1, path) || path == step.0) by {
            if is_written(steps, k, path) {
                let j = choose|j: int| 0 <= j < k && (#[trigger] steps[j]).1 == path;
                if j < k - 1 {
                    assert(is_written(steps, k - 1, path));
                }
            }
            if is_written(steps, k - 1, path) {
                let j = choose|j: int| 0 <= j < k - 1 && (#[trigger] steps[j]).1 == path;
                assert(is_written(steps, k, path));
            }
            if path == step.1 {
                assert(steps[k - 1].1 == path);
            }
            if is_vacated(steps, k, path) {
                let j = choose|j: int| 0 <= j < k && (#[trigger] steps[j]).0 == path;
                if j < k - 1 {
                    assert(is_vacated(steps, k - 1, path));
                }
            }
            if is_vacated(steps, k - 1, path) {
                let j = choose|j: int| 0 <= j < k - 1 && (#[trigger] steps[j]).0 == path;
                assert(is_vacated(steps, k, path));
            }
            if path == step.0 {
                assert(steps[k - 1].0 == path);
            }
        }
        assert forall|j: int| 0 <= j < k implies now[(#[trigger] steps[j]).1] == files[steps[j].0] by {
            if j < k - 1 {
                assert(destinations(steps)[j] != destinations(steps)[k - 1]);
                assert(steps[j].1 != steps[k - 1].0);
            }
        }
    }
}

/// The request that the main step `j` serves.
proof fn lemma_request_of_step(renames: Renames, plan: Renames, j: int) -> (i: int)
    requires
        carries_out(renames, plan),
        0 <= j < renames.len(),
    ensures
        0 <= i < renames.len(),
        serves(plan[j], renames[i], deferred_steps(renames, plan)),
{
    let main = main_steps(renames, plan);
    assert(is_requested(main[j], renames, deferred_steps(renames, plan)));
    choose|i: int|
        0 <= i < renames.len() && serves(
            main[j],
            #[trigger] renames[i],
            deferred_steps(renames, plan),
        )
}

/// The main step that serves the request `i`.
proof fn lemma_step_of_request(renames: Renames, plan: Renames, i: int) -> (j: int)
    requires
        carries_out(renames, plan),
        0 <= i < renames.len(),
    ensures
        0 <= j < renames.len(),
        serves(plan[j], renames[i], deferred_steps(renames, plan)),
{
    let main = main_steps(renames, plan);
    assert(is_served(renames[i], main, deferred_steps(renames, plan)));
    choose|j: int|
        0 <= j < main.len() && serves(#[trigger] main[j], renames[i], deferred_steps(renames, plan))
}

/// The deferred step that starts at `path`, where a main step serves its
/// request through `path`.
proof fn lemma_detour(renames: Renames, plan: Renames, path: Path, wanted: Path) -> (t: int)
    requires
        carries_out(renames, plan),
        deferred_steps(renames, plan).contains((path, wanted)),
    ensures
        0 <= t < plan.len() - renames.len(),
        plan[renames.len() + t] == (path, wanted),
        is_fresh(renames, path),
        sources(renames).contains(wanted),
{
    let deferred = deferred_steps(renames, plan);
    let t = choose|t: int| 0 <= t < deferred.len() && deferred[t] == (path, wanted);
    assert(is_deferred_step(deferred[t], renames, main_steps(renames, plan)));
    t
}

/// A main step that ends at the destination of a request serves that
/// request, and without a detour.
proof fn lemma_direct_destination(renames: Renames, plan: Renames, j: int, i: int, h: int)
    requires
        is_rename_mapping(renames),
        carries_out(renames, plan),
        0 <= j < renames.len(),
        0 <= i < renames.len(),
        0 <= h < renames.len(),
        serves(plan[j], renames[i], deferred_steps(renames, plan)),
        plan[j].1 == renames[h].1,
    ensures
        i == h,
{
    assert(destinations(renames)[h] == plan[j].1);
    if plan[j].1 != renames[i].1 {
        let t = lemma_detour(renames, plan, plan[j].1, renames[i].1);
    }
    assert(destinations(renames)[i] == destinations(renames)[h]);
}

/// No two main steps end at the same path, and none ends where it starts.
proof fn lemma_main_destinations(renames: Renames, plan: Renames, j: int, k: int)
    requires
        is_rename_mapping(renames),
        carries_out(renames, plan),
        0 <= j < renames.len(),
        0 <= k < renames.len(),
    ensures
        j != k ==> plan[j].1 != plan[k].1,
        plan[j].0 != plan[j].1,
{
    let main = main_steps(renames, plan);
    let deferred = deferred_steps(renames, plan);
    let i = lemma_request_of_step(renames, plan, j);
    let h = lemma_request_of_step(renames, plan, k);
    assert(sources(renames)[i] == plan[j].0);
    if plan[j].1 != renames[i].1 {
        let t = lemma_detour(renames, plan, plan[j].1, renames[i].1);
    }
    if j != k && plan[j].1 == plan[k].1 {
        assert(sources(main)[j] != sources(main)[k]);
        assert(sources(renames)[h] == plan[k].0);
        if plan[j].1 == renames[i].1 {
            lemma_direct_destination(renames, plan, k, h, i);
        } else if plan[k].1 == renames[h].1 {
            lemma_direct_destination(renames, plan, j, i, h);
        } else {
            let t = lemma_detour(renames, plan, plan[j].1, renames[i].1);
            let u = lemma_detour(renames, plan, plan[k].1, renames[h].1);
            assert(sources(deferred)[t] == sources(deferred)[u]);
            assert(destinations(renames)[i] == destinations(renames)[h]);
        }
    }
}

/// The files of the mapping are where the plan expects them: every source
/// exists, every destination is free unless it is itself renamed away, and
/// the temporary names of the plan are free.
pub open spec fn ready_for<C>(files: Map<Path, C>, renames: Renames, plan: Renames) -> bool {
    &&& forall|i: int| 0 <= i < renames.len() ==> files.dom().contains((#[trigger] renames[i]).0)
    &&& forall|i: int|
        0 <= i < renames.len() && !sources(renames).contains((#[trigger] renames[i]).1)
            ==> !files.dom().contains(renames[i].1)
    &&& forall|t: int|
        renames.len() <= t < plan.len() ==> !files.dom().contains((#[trigger] plan[t]).0)
}

/// The destination of a main step is free, or an earlier main step vacates it.
proof fn lemma_main_destination_vacated<C>(
    renames: Renames,
    plan: Renames,
    files: Map<Path, C>,
    j: int,
)
    requires
        is_rename_mapping(renames),
        carries_out(renames, plan),
        ready_for(files, renames, plan),
        0 <= j < renames.len(),
        files.dom().contains(plan[j].1),
    ensures
        is_vacated(main_steps(renames, plan), j, plan[j].1),
{
    let m = renames.len() as int;
    let main = main_steps(renames, plan);
    let i = lemma_request_of_step(renames, plan, j);
    if main[j].1 != renames[i].1 {
        let t = lemma_detour(renames, plan, main[j].1, renames[i].1);
        assert(plan[m + t].0 == main[j].1);
    } else {
        let h = choose|h: int|
            0 <= h < sources(renames).len() && sources(renames)[h] == renames[i].1;
        let k = lemma_step_of_request(renames, plan, h);
        lemma_main_destinations(renames, plan, j, j);
        assert(main[k].0 == main[j].1);
        assert(!(j < k));
    }
}

/// The main steps of a plan can all be carried out.
proof fn lemma_main_steps_replay<C>(renames: Renames, plan: Renames, files: Map<Path, C>)
    requires
        is_rename_mapping(renames),
        carries_out(renames, plan),
        ready_for(files, renames, plan),
    ensures
        replay(files, main_steps(renames, plan)) is Some,
        moved(
            files,
            main_steps(renames, plan),
            renames.len() as int,
            replay(files, main_steps(renames, plan))->0,
        ),
{
    let m = renames.len() as int;
    let main = main_steps(renames, plan);
    assert forall|j: int, k: int| 0 <= j < m && 0 <= k < m && j != k implies destinations(main)[j]
        != destinations(main)[k] by {
        lemma_main_destinations(renames, plan, j, k);
    }
    assert forall|j: int, k: int| 0 <= j <= k < m implies (#[trigger] main[j]).1 != (
    #[trigger] main[k]).0 by {
        lemma_main_destinations(renames, plan, j, j);
    }
    assert forall|j: int| 0 <= j < m implies files.dom().contains((#[trigger] main[j]).0) by {
        let i = lemma_request_of_step(renames, plan, j);
    }
    assert forall|j: int| 0 <= j < m && files.dom().contains((#[trigger] main[j]).1) implies is_vacated(
        main,
        j,
        main[j].1,
    ) by {
        lemma_main_destination_vacated(renames, plan, files, j);
    }
    lemma_replay_ordered(files, main, m);
    assert(main.take(m) =~= main);
}

/// The main step that moves a file to the temporary name of the deferred
/// step `t`, and the main step that vacates the destination of that step; no
/// main step moves a file there.
proof fn lemma_deferred_step<C>(renames: Renames, plan: Renames, t: int) -> (jk: (int, int))
    requires
        is_rename_mapping(renames),
        carries_out(renames, plan),
        0 <= t < plan.len() - renames.len(),
    ensures
        0 <= jk.0 < renames.len(),
        0 <= jk.1 < renames.len(),
        plan[jk.0].1 == plan[renames.len() + t].0,
        renames.contains((plan[jk.0].0, plan[renames.len() + t].1)),
        plan[jk.1].0 == plan[renames.len() + t].1,
        is_fresh(renames, plan[renames.len() + t].0),
        sources(renames).contains(plan[renames.len() + t].1),
        !is_written(main_steps(renames, plan), renames.len() as int, plan[renames.len() + t].1),
{
    let m = renames.len() as int;
    let main = main_steps(renames, plan);
    let deferred = deferred_steps(renames, plan);
    assert(deferred[t] == plan[m + t]);
    assert(is_deferred_step(deferred[t], renames, main));
    let j = choose|j: int|
        0 <= j < main.len() && (#[trigger] main[j]).1 == deferred[t].0 && renames.contains(
            (main[j].0, deferred[t].1),
        );
    let wanted = deferred[t].1;
    let h = choose|h: int| 0 <= h < sources(renames).len() && sources(renames)[h] == wanted;
    let k = lemma_step_of_request(renames, plan, h);
    assert(main[k].0 == wanted);
    if is_written(main, m, wanted) {
        let w = choose|w: int| 0 <= w < m && (#[trigger] main[w]).1 == wanted;
        let i = lemma_request_of_step(renames, plan, w);
        let g = choose|g: int| 0 <= g < renames.len() && renames[g] == (main[j].0, wanted);
        lemma_direct_destination(renames, plan, w, i, g);
        assert(sources(main)[w] == sources(main)[j]);
    }
    (j, k)
}

/// No two deferred steps end at the same path.
proof fn lemma_deferred_destinations(renames: Renames, plan: Renames, t: int, u: int)
    requires
        is_rename_mapping(renames),
        carries_out(renames, plan),
        0 <= t < plan.len() - renames.len(),
        0 <= u < plan.len() - renames.len(),
        t != u,
    ensures
        plan[renames.len() + t].1 != plan[renames.len() + u].1,
{
    let m = renames.len() as int;
    let main = main_steps(renames, plan);
    let deferred = deferred_steps(renames, plan);
    if plan[m + t].1 == plan[m + u].1 {
        let (j, _a) = lemma_deferred_step::<int>(renames, plan, t);
        let (k, _b) = lemma_deferred_step::<int>(renames, plan, u);
        let g = choose|g: int| 0 <= g < renames.len() && renames[g] == (plan[j].0, plan[m + t].1);
        let h = choose|h: int| 0 <= h < renames.len() && renames[h] == (plan[k].0, plan[m + u].1);
        assert(destinations(renames)[g] == destinations(renames)[h]);
        assert(sources(main)[j] == sources(main)[k]);
        assert(sources(deferred)[t] == sources(deferred)[u]);
    }
}

/// After the main steps, the deferred steps can all be carried out.
proof fn lemma_deferred_steps_replay<C>(
    renames: Renames,
    plan: Renames,
    files: Map<Path, C>,
    between: Map<Path, C>,
)
    requires
        is_rename_mapping(renames),
        carries_out(renames, plan),
        moved(files, main_steps(renames, plan), renames.len() as int, between),
    ensures
        replay(between, deferred_steps(renames, plan)) is Some,
        moved(
            between,
            deferred_steps(renames, plan),
            plan.len() - renames.len(),
            replay(between, deferred_steps(renames, plan))->0,
        ),
{
    let m = renames.len() as int;
    let main = main_steps(renames, plan);
    let deferred = deferred_steps(renames, plan);
    let d = deferred.len() as int;
    assert forall|t: int| 0 <= t < d implies between.dom().contains((#[trigger] deferred[t]).0)
        && !between.dom().contains(deferred[t].1) && is_fresh(renames, deferred[t].0)
        && sources(renames).contains(deferred[t].1) by {
        let (j, k) = lemma_deferred_step::<C>(renames, plan, t);
        assert(main[j].1 == deferred[t].0);
        assert(is_written(main, m, deferred[t].0));
        assert(main[k].0 == deferred[t].1);
        assert(is_vacated(main, m, deferred[t].1));
    }
    assert forall|t: int, u: int| 0 <= t < d && 0 <= u < d && t != u implies destinations(
        deferred,
    )[t] != destinations(deferred)[u] by {
        lemma_deferred_destinations(renames, plan, t, u);
    }
    assert forall|t: int, u: int| 0 <= t <= u < d implies (#[trigger] deferred[t]).1 != (
    #[trigger] deferred[u]).0 by {}
    lemma_replay_ordered(between, deferred, d);
    assert(deferred.take(d) =~= deferred);
}

/// After the plan, the destination of each request holds what its source held.
proof fn lemma_destination_holds<C>(
    renames: Renames,
    plan: Renames,
    files: Map<Path, C>,
    between: Map<Path, C>,
    after: Map<Path, C>,
    i: int,
)
    requires
        is_rename_mapping(renames),
        carries_out(renames, plan),
        moved(files, main_steps(renames, plan), renames.len() as int, between),
        moved(between, deferred_steps(renames, plan), plan.len() - renames.len(), after),
        0 <= i < renames.len(),
    ensures
        after.dom().contains(renames[i].1),
        after[renames[i].1] == files[renames[i].0],
{
    let m = renames.len() as int;
    let main = main_steps(renames, plan);
    let deferred = deferred_steps(renames, plan);
    let d = deferred.len() as int;
    let j = lemma_step_of_request(renames, plan, i);
    let wanted = renames[i].1;
    assert(between[main[j].1] == files[main[j].0]);
    if main[j].1 == wanted {
        assert(is_written(main, m, wanted));
        assert(destinations(renames)[i] == wanted);
        if is_written(deferred, d, wanted) {
            let t = choose|t: int| 0 <= t < d && (#[trigger] deferred[t]).1 == wanted;
            let (a, b) = lemma_deferred_step::<C>(renames, plan, t);
        }
        if is_vacated(deferred, d, wanted) {
            let t = choose|t: int| 0 <= t < d && (#[trigger] deferred[t]).0 == wanted;
            let (a, b) = lemma_deferred_step::<C>(renames, plan, t);
        }
        assert(after[wanted] == between[wanted]);
    } else {
        let t = lemma_detour(renames, plan, main[j].1, wanted);
        assert(deferred[t] == (main[j].1, wanted));
        assert(is_written(deferred, d, wanted));
        assert(after[deferred[t].1] == between[deferred[t].0]);
    }
}

/// After the plan, a source that is no destination is gone.
proof fn lemma_source_is_gone<C>(
    renames: Renames,
    plan: Renames,
    files: Map<Path, C>,
    between: Map<Path, C>,
    after: Map<Path, C>,
    i: int,
)
    requires
        is_rename_mapping(renames),
        carries_out(renames, plan),
        moved(files, main_steps(renames, plan), renames.len() as int, between),
        moved(between, deferred_steps(renames, plan), plan.len() - renames.len(), after),
        0 <= i < renames.len(),
        !destinations(renames).contains(renames[i].0),
    ensures
        !after.dom().contains(renames[i].0),
{
    let m = renames.len() as int;
    let main = main_steps(renames, plan);
    let deferred = deferred_steps(renames, plan);
    let d = deferred.len() as int;
    let gone = renames[i].0;
    let j = lemma_step_of_request(renames, plan, i);
    assert(main[j].0 == gone);
    assert(is_vacated(main, m, gone));
    assert(sources(renames)[i] == gone);
    if is_written(main, m, gone) {
        let w = choose|w: int| 0 <= w < m && (#[trigger] main[w]).1 == gone;
        let h = lemma_request_of_step(renames, plan, w);
        if main[w].1 == renames[h].1 {
            assert(destinations(renames)[h] == gone);
        } else {
            let t = lemma_detour(renames, plan, main[w].1, renames[h].1);
        }
    }
    assert(!between.dom().contains(gone));
    if is_written(deferred, d, gone) {
        let t = choose|t: int| 0 <= t < d && (#[trigger] deferred[t]).1 == gone;
        let (k, _b) = lemma_deferred_step::<C>(renames, plan, t);
        let g = choose|g: int| 0 <= g < renames.len() && renames[g] == (plan[k].0, gone);
        assert(destinations(renames)[g] == gone);
    }
}

/// After the plan, a path that plays no part in the mapping is as it was.
proof fn lemma_other_path_unchanged<C>(
    renames: Renames,
    plan: Renames,
    files: Map<Path, C>,
    between: Map<Path, C>,
    after: Map<Path, C>,
    path: Path,
)
    requires
        is_rename_mapping(renames),
        carries_out(renames, plan),
        ready_for(files, renames, plan),
        moved(files, main_steps(renames, plan), renames.len() as int, between),
        moved(between, deferred_steps(renames, plan), plan.len() - renames.len(), after),
        is_fresh(renames, path),
    ensures
        after.dom().contains(path) <==> files.dom().contains(path),
        files.dom().contains(path) ==> after[path] == files[path],
{
    let m = renames.len() as int;
    let main = main_steps(renames, plan);
    let deferred = deferred_steps(renames, plan);
    let d = deferred.len() as int;
    if is_vacated(main, m, path) {
        let j = choose|j: int| 0 <= j < m && (#[trigger] main[j]).0 == path;
        let i = lemma_request_of_step(renames, plan, j);
        assert(sources(renames)[i] == path);
    }
    if is_written(deferred, d, path) {
        let t = choose|t: int| 0 <= t < d && (#[trigger] deferred[t]).1 == path;
        let (a, b) = lemma_deferred_step::<C>(renames, plan, t);
    }
    if is_written(main, m, path) {
        let w = choose|w: int| 0 <= w < m && (#[trigger] main[w]).1 == path;
        let h = lemma_request_of_step(renames, plan, w);
        if main[w].1 == renames[h].1 {
            assert(destinations(renames)[h] == path);
        } else {
            let t = lemma_detour(renames, plan, main[w].1, renames[h].1);
            assert(deferred[t].0 == path);
            assert(is_vacated(deferred, d, path));
            assert(plan[m + t].0 == path);
        }
    } else {
        if is_vacated(deferred, d, path) {
            let t = choose|t: int| 0 <= t < d && (#[trigger] deferred[t]).0 == path;
            let (j, _b) = lemma_deferred_step::<C>(renames, plan, t);
            assert(main[j].1 == path);
        }
        assert(between.dom().contains(path) <==> files.dom().contains(path));
        assert(between[path] == files[path]);
        assert(after[path] == between[path]);
    }
}

/// The main step `j` finds its destination taken: a file is there from the
/// start, and no earlier main step moves it away.
pub open spec fn is_blocked<C>(files: Map<Path, C>, renames: Renames, plan: Renames, j: int) -> bool {
    files.dom().contains(plan[j].1) && !is_vacated(main_steps(renames, plan), j, plan[j].1)
}

/// A main step is blocked only by a file that no rename concerns but the
/// one that wants its place.
proof fn lemma_blocked_by_stranger<C>(renames: Renames, plan: Renames, files: Map<Path, C>, j: int)
    requires
        is_rename_mapping(renames),
        carries_out(renames, plan),
        forall|t: int|
            renames.len() <= t < plan.len() ==> !files.dom().contains((#[trigger] plan[t]).0),
        0 <= j < renames.len(),
        is_blocked(files, renames, plan, j),
    ensures
        destinations(renames).contains(plan[j].1),
        !sources(renames).contains(plan[j].1),
{
    let m = renames.len() as int;
    let main = main_steps(renames, plan);
    let i = lemma_request_of_step(renames, plan, j);
    if main[j].1 != renames[i].1 {
        let t = lemma_detour(renames, plan, main[j].1, renames[i].1);
        assert(plan[m + t].0 == main[j].1);
    } else {
        assert(destinations(renames)[i] == plan[j].1);
        if sources(renames).contains(renames[i].1) {
            let h = choose|h: int|
                0 <= h < sources(renames).len() && sources(renames)[h] == renames[i].1;
            let k = lemma_step_of_request(renames, plan, h);
            lemma_main_destinations(renames, plan, j, j);
            assert(main[k].0 == main[j].1);
            assert(!(j < k));
        }
    }
}

/// The first main step that is blocked, where the main step `j` is.
proof fn lemma_first_blocked<C>(
    renames: Renames,
    plan: Renames,
    files: Map<Path, C>,
    from: int,
    j: int,
) -> (k: int)
    requires
        0 <= from <= j < renames.len(),
        is_blocked(files, renames, plan, j),
        forall|h: int| 0 <= h < from ==> !is_blocked(files, renames, plan, h),
    ensures
        from <= k <= j,
        is_blocked(files, renames, plan, k),
        forall|h: int| 0 <= h < k ==> !is_blocked(files, renames, plan, h),
    decreases j - from,
{
    if is_blocked(files, renames, plan, from) {
        from
    } else {
        lemma_first_blocked(renames, plan, files, from + 1, j)
    }
}

/// Where a destination is taken by a file that no rename moves away, the
/// plan comes to a step that finds its destination taken.
///
/// Let every file that is to be renamed exist and let the temporary names of
/// the plan be free, but let a file be at a destination that is not itself
/// renamed away. Then the steps before some main step `k` can be carried
/// out, and after them the file of step `k` is still at its place, and at its
/// destination is a file that was there from the start and still holds what
/// it held; no rename of the mapping moves that file away.
pub proof fn lemma_taken_destination_blocks<C>(
    renames: Renames,
    plan: Renames,
    files: Map<Path, C>,
    i: int,
) -> (k: int)
    requires
        is_rename_mapping(renames),
        carries_out(renames, plan),
        forall|h: int| 0 <= h < renames.len() ==> files.dom().contains((#[trigger] renames[h]).0),
        forall|t: int|
            renames.len() <= t < plan.len() ==> !files.dom().contains((#[trigger] plan[t]).0),
        0 <= i < renames.len(),
        files.dom().contains(renames[i].1),
        !sources(renames).contains(renames[i].1),
    ensures
        0 <= k < renames.len(),
        replay(files, plan.take(k)) is Some,
        replay(files, plan.take(k))->0.dom().contains(plan[k].0),
        replay(files, plan.take(k))->0.dom().contains(plan[k].1),
        files.dom().contains(plan[k].1),
        replay(files, plan.take(k))->0[plan[k].1] == files[plan[k].1],
        destinations(renames).contains(plan[k].1),
        !sources(renames).contains(plan[k].1),
{
    let m = renames.len() as int;
    let main = main_steps(renames, plan);
    let j = lemma_step_of_request(renames, plan, i);
    if main[j].1 != renames[i].1 {
        let t = lemma_detour(renames, plan, main[j].1, renames[i].1);
    }
    if is_vacated(main, j, main[j].1) {
        let h = choose|h: int| 0 <= h < j && (#[trigger] main[h]).0 == main[j].1;
        let g = lemma_request_of_step(renames, plan, h);
        assert(sources(renames)[g] == renames[i].1);
    }
    let k = lemma_first_blocked(renames, plan, files, 0, j);
    lemma_blocked_by_stranger(renames, plan, files, k);
    assert forall|a: int, b: int| 0 <= a < m && 0 <= b < m && a != b implies destinations(main)[a]
        != destinations(main)[b] by {
        lemma_main_destinations(renames, plan, a, b);
    }
    assert forall|a: int, b: int| 0 <= a <= b < m implies (#[trigger] main[a]).1 != (
    #[trigger] main[b]).0 by {
        lemma_main_destinations(renames, plan, a, a);
    }
    assert forall|h: int| 0 <= h < m implies files.dom().contains((#[trigger] main[h]).0) by {
        let g = lemma_request_of_step(renames, plan, h);
    }
    assert forall|h: int| 0 <= h < k && files.dom().contains((#[trigger] main[h]).1) implies is_vacated(
        main,
        h,
        main[h].1,
    ) by {
        assert(!is_blocked(files, renames, plan, h));
    }
    lemma_replay_ordered(files, main, k);
    assert(main.take(k) =~= plan.take(k));
    let now = replay(files, plan.take(k))->0;
    assert(!is_written(main, k, main[k].1)) by {
        if is_written(main, k, main[k].1) {
            let w = choose|w: int| 0 <= w < k && (#[trigger] main[w]).1 == main[k].1;
            assert(destinations(main)[w] == destinations(main)[k]);
        }
    }
    assert(!is_written(main, k, main[k].0)) by {
        if is_written(main, k, main[k].0) {
            let w = choose|w: int| 0 <= w < k && (#[trigger] main[w]).1 == main[k].0;
        }
    }
    assert(!is_vacated(main, k, main[k].0)) by {
        if is_vacated(main, k, main[k].0) {
            let w = choose|w: int| 0 <= w < k && (#[trigger] main[w]).0 == main[k].0;
            assert(sources(main)[w] == sources(main)[k]);
        }
    }
    k
}

/// Steps that carry out a mapping, as the steps of a plan do, move every
/// file of the mapping to where it is wanted.
///
/// Let every file that is to be renamed exist, let every destination be free
/// unless it is itself renamed away, and let the temporary names of the plan
/// be free. Then every step of the plan can be carried out: no step finds its
/// destination taken. Afterwards each destination holds what its source held,
/// chains of any length and cycles included; each source that is no
/// destination is gone, and so are the temporary names; every other file is
/// as it was.
pub proof fn lemma_plan_relocates<C>(renames: Renames, plan: Renames, files: Map<Path, C>)
    requires
        is_rename_mapping(renames),
        carries_out(renames, plan),
        ready_for(files, renames, plan),
    ensures
        replay(files, plan) is Some,
        relocated(files, renames, replay(files, plan)->0),
{
    let main = main_steps(renames, plan);
    let deferred = deferred_steps(renames, plan);
    assert(plan =~= main + deferred);
    lemma_main_steps_replay(renames, plan, files);
    let between = replay(files, main)->0;
    lemma_deferred_steps_replay(renames, plan, files, between);
    let after = replay(between, deferred)->0;
    lemma_replay_concat(files, main, deferred);
    assert forall|i: int| 0 <= i < renames.len() implies after.dom().contains(
        (#[trigger] renames[i]).1,
    ) && after[renames[i].1] == files[renames[i].0] by {
        lemma_destination_holds(renames, plan, files, between, after, i);
    }
    assert forall|i: int|
        0 <= i < renames.len() && !destinations(renames).contains(
            (#[trigger] renames[i]).0,
        ) implies !after.dom().contains(renames[i].0) by {
        lemma_source_is_gone(renames, plan, files, between, after, i);
    }
    assert forall|path: Path| is_fresh(renames, path) implies (#[trigger] after.dom().contains(
        path,
    ) <==> files.dom().contains(path)) && (files.dom().contains(path) ==> after[path]
        == files[path]) by {
        lemma_other_path_unchanged(renames, plan, files, between, after, path);
    }
}

} // verus!
