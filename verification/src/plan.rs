//! What makes a sequence of steps a plan for a rename mapping.
//!
//! A plan has one main step for each requested rename, followed by the
//! deferred steps. A main step renames a file to where it is wanted, or, where
//! that would close a cycle, to a temporary name; the deferred step then takes
//! it from the temporary name to where it is wanted.

use crate::mapping::destinations;
use crate::mapping::sources;
use crate::mapping::Renames;
use crate::placeholder::placeholder_name;
use crate::placeholder::reported_used;
use crate::text::Path;
use vstd::prelude::*;

verus! {

/// The main steps of a plan: as many as there are requested renames.
pub open spec fn main_steps(renames: Renames, plan: Renames) -> Renames {
    plan.take(renames.len() as int)
}

/// The deferred steps of a plan: what follows the main steps.
pub open spec fn deferred_steps(renames: Renames, plan: Renames) -> Renames {
    plan.skip(renames.len() as int)
}

/// The path plays no part in the mapping.
pub open spec fn is_fresh(renames: Renames, path: Path) -> bool {
    !sources(renames).contains(path) && !destinations(renames).contains(path)
}

/// The step takes the file of `request` away, to where the request wants it
/// or to a name from which a deferred step takes it there.
pub open spec fn serves(step: (Path, Path), request: (Path, Path), deferred: Renames) -> bool {
    step.0 == request.0 && (step.1 == request.1 || deferred.contains((step.1, request.1)))
}

/// Some main step serves the request.
pub open spec fn is_served(request: (Path, Path), main: Renames, deferred: Renames) -> bool {
    exists|j: int| 0 <= j < main.len() && serves(#[trigger] main[j], request, deferred)
}

/// The step serves some request.
pub open spec fn is_requested(step: (Path, Path), renames: Renames, deferred: Renames) -> bool {
    exists|i: int| 0 <= i < renames.len() && serves(step, #[trigger] renames[i], deferred)
}

/// Whether `chain[i]` is to be renamed to `chain[i + 1]`.
pub open spec fn is_link(renames: Renames, chain: Seq<Path>, i: int) -> bool {
    renames.contains((chain[i], chain[i + 1]))
}

/// A chain of requested renames: each of its paths is to be renamed to the next.
pub open spec fn is_chain(renames: Renames, chain: Seq<Path>) -> bool {
    chain.len() >= 2 && forall|i: int|
        0 <= i < chain.len() - 1 ==> #[trigger] is_link(renames, chain, i)
}

/// A chain of requested renames leads from `from` to `to`.
pub open spec fn leads(renames: Renames, from: Path, to: Path) -> bool {
    exists|chain: Seq<Path>|
        #[trigger] is_chain(renames, chain) && chain[0] == from && chain.last() == to
}

/// The mapping holds a cycle: a chain of requested renames leads from some
/// path back to that path.
pub open spec fn has_cycle(renames: Renames) -> bool {
    exists|path: Path| #[trigger] leads(renames, path, path)
}

/// The step ends a detour: it starts at a temporary name that plays no part
/// in the mapping and that some main step has moved a file to; it ends where
/// that file is wanted, which is a place that a main step has vacated. The
/// detour was needed: from where the file is wanted, a chain of requested
/// renames leads back to the file.
pub open spec fn is_deferred_step(step: (Path, Path), renames: Renames, main: Renames) -> bool {
    &&& is_fresh(renames, step.0)
    &&& sources(renames).contains(step.1)
    &&& exists|j: int|
        0 <= j < main.len() && (#[trigger] main[j]).1 == step.0 && renames.contains(
            (main[j].0, step.1),
        ) && leads(renames, step.1, main[j].0)
}

/// The name cannot be the temporary name of the deferred step `t`: it plays
/// a part in the mapping, or it is the temporary name of an earlier deferred
/// step, or `is_taken` reports that a file has it.
pub open spec fn is_unusable<F: Fn(&String) -> bool>(
    is_taken: F,
    renames: Renames,
    plan: Renames,
    t: int,
    name: Path,
) -> bool {
    ||| !is_fresh(renames, name)
    ||| exists|u: int| 0 <= u < t && (#[trigger] plan[renames.len() + u]).0 == name
    ||| reported_used(is_taken, name)
}

/// The number from which the temporary name of the deferred step `t` is
/// searched: `start` for the first, else the number behind that of the step
/// before.
pub open spec fn first_number(start: nat, counters: Seq<nat>, t: int) -> nat {
    if t == 0 {
        start
    } else {
        counters[t - 1] + 1
    }
}

/// The temporary name of the deferred step `t` is derived from the file that
/// was moved to it, with the number `counters[t]`: the first number, from
/// where the search began, whose name could be used.
pub open spec fn is_numbered<F: Fn(&String) -> bool>(
    is_taken: F,
    renames: Renames,
    plan: Renames,
    start: nat,
    counters: Seq<nat>,
    t: int,
) -> bool {
    exists|j: int|
        0 <= j < renames.len() && (#[trigger] plan[j]).1 == plan[renames.len() + t].0
            && plan[renames.len() + t].0 == placeholder_name(plan[j].0, counters[t])
            && forall|c: nat|
            first_number(start, counters, t) <= c < counters[t] ==> #[trigger] is_unusable(
                is_taken,
                renames,
                plan,
                t,
                placeholder_name(plan[j].0, c),
            )
}

/// The temporary names of the deferred steps carry the numbers `counters`,
/// which begin at `start` or later and grow from each deferred step to the
/// next.
pub open spec fn numbered_by<F: Fn(&String) -> bool>(
    is_taken: F,
    renames: Renames,
    plan: Renames,
    start: nat,
    counters: Seq<nat>,
) -> bool {
    &&& counters.len() == plan.len() - renames.len()
    &&& forall|t: int|
        0 <= t < counters.len() ==> first_number(start, counters, t) <= #[trigger] counters[t]
    &&& forall|t: int|
        0 <= t < counters.len() ==> #[trigger] is_numbered(
            is_taken,
            renames,
            plan,
            start,
            counters,
            t,
        )
}

/// The temporary names carry numbers from `start` on that grow from each
/// deferred step to the next, and each carries the first number that could
/// be used.
pub open spec fn placeholders_numbered<F: Fn(&String) -> bool>(
    is_taken: F,
    renames: Renames,
    plan: Renames,
    start: nat,
) -> bool {
    exists|counters: Seq<nat>| #[trigger] numbered_by(is_taken, renames, plan, start, counters)
}

/// `plan` carries out `renames`: each request is served by one main step, no
/// main step moves a file to a path that a later main step still has to
/// vacate, and each deferred step ends a detour.
pub open spec fn carries_out(renames: Renames, plan: Renames) -> bool {
    let main = main_steps(renames, plan);
    let deferred = deferred_steps(renames, plan);
    &&& plan.len() >= renames.len()
    &&& sources(main).no_duplicates()
    &&& sources(deferred).no_duplicates()
    &&& forall|i: int| 0 <= i < renames.len() ==> #[trigger] is_served(renames[i], main, deferred)
    &&& forall|j: int| 0 <= j < main.len() ==> #[trigger] is_requested(main[j], renames, deferred)
    &&& forall|t: int|
        0 <= t < deferred.len() ==> #[trigger] is_deferred_step(deferred[t], renames, main)
    &&& forall|i: int, j: int|
        0 <= i < j < main.len() ==> (#[trigger] main[i]).1 != (#[trigger] main[j]).0
}

/// `plan` is a plan for `renames`: it carries them out, and no two of its
/// detours break the same cycle: the destination of a deferred step does not
/// lead to that of an earlier one.
pub open spec fn is_plan_for(renames: Renames, plan: Renames) -> bool {
    &&& carries_out(renames, plan)
    &&& forall|t: int, u: int|
        0 <= t < u < plan.len() - renames.len() ==> !#[trigger] leads(
            renames,
            deferred_steps(renames, plan)[u].1,
            deferred_steps(renames, plan)[t].1,
        )
}

/// The deferred steps of a plan can be taken in any order: the main steps,
/// followed by the deferred steps in another order, carry out the renames
/// as well.
pub proof fn lemma_deferred_order_is_free(renames: Renames, plan: Renames, others: Renames)
    requires
        carries_out(renames, plan),
        sources(others).no_duplicates(),
        forall|t: int| 0 <= t < others.len() ==> deferred_steps(renames, plan).contains(#[trigger] others[t]),
        forall|t: int|
            0 <= t < plan.len() - renames.len() ==> others.contains(
                #[trigger] deferred_steps(renames, plan)[t],
            ),
    ensures
        carries_out(renames, main_steps(renames, plan) + others),
{
    let main = main_steps(renames, plan);
    let deferred = deferred_steps(renames, plan);
    let other = main + others;
    assert(main_steps(renames, other) =~= main);
    assert(deferred_steps(renames, other) =~= others);
    assert forall|step: (Path, Path), request: (Path, Path)|
        serves(step, request, deferred) implies serves(step, request, others) by {
        if deferred.contains((step.1, request.1)) {
            let t = choose|t: int| 0 <= t < deferred.len() && deferred[t] == (step.1, request.1);
            assert(others.contains(deferred[t]));
        }
    }
    assert forall|i: int| 0 <= i < renames.len() implies #[trigger] is_served(
        renames[i],
        main,
        others,
    ) by {
        assert(is_served(renames[i], main, deferred));
        let j = choose|j: int| 0 <= j < main.len() && serves(#[trigger] main[j], renames[i], deferred);
        assert(serves(main[j], renames[i], others));
    }
    assert forall|j: int| 0 <= j < main.len() implies #[trigger] is_requested(
        main[j],
        renames,
        others,
    ) by {
        assert(is_requested(main[j], renames, deferred));
        let i = choose|i: int|
            0 <= i < renames.len() && serves(main[j], #[trigger] renames[i], deferred);
        assert(serves(main[j], renames[i], others));
    }
    assert forall|t: int| 0 <= t < others.len() implies #[trigger] is_deferred_step(
        others[t],
        renames,
        main,
    ) by {
        assert(deferred.contains(others[t]));
        let u = choose|u: int| 0 <= u < deferred.len() && deferred[u] == others[t];
        assert(is_deferred_step(deferred[u], renames, main));
    }
}

/// A plan for a mapping without a cycle has no deferred steps.
pub proof fn lemma_detour_needs_cycle(renames: Renames, plan: Renames)
    requires
        is_plan_for(renames, plan),
        !has_cycle(renames),
    ensures
        plan.len() == renames.len(),
{
    let main = main_steps(renames, plan);
    let deferred = deferred_steps(renames, plan);
    if deferred.len() > 0 {
        let step = deferred[0];
        assert(is_deferred_step(step, renames, main));
        let j = choose|j: int|
            0 <= j < main.len() && (#[trigger] main[j]).1 == step.0 && renames.contains(
                (main[j].0, step.1),
            ) && leads(renames, step.1, main[j].0);
        let chain = choose|chain: Seq<Path>|
            #[trigger] is_chain(renames, chain) && chain[0] == step.1 && chain.last() == main[j].0;
        let round = chain.push(step.1);
        assert forall|i: int| 0 <= i < round.len() - 1 implies #[trigger] is_link(
            renames,
            round,
            i,
        ) by {
            if i < chain.len() - 1 {
                assert(is_link(renames, chain, i));
            }
        }
        assert(is_chain(renames, round) && round[0] == step.1 && round.last() == step.1);
        assert(leads(renames, step.1, step.1));
    }
}

/// A sequence of distinct numbers below `bound` has at most `bound` entries.
pub proof fn lemma_distinct_below_bound(numbers: Seq<int>, bound: int)
    requires
        0 <= bound,
        numbers.no_duplicates(),
        forall|i: int| 0 <= i < numbers.len() ==> 0 <= #[trigger] numbers[i] < bound,
    ensures
        numbers.len() <= bound,
{
    if numbers.len() > 0 {
        assert(0 <= numbers[0] < bound);
        let range = vstd::set_lib::set_int_range(0, bound);
        vstd::set_lib::lemma_int_range(0, bound);
        numbers.unique_seq_to_set();
        assert(numbers.to_set().subset_of(range)) by {
            assert forall|x: int| numbers.to_set().contains(x) implies range.contains(x) by {
                let i = choose|i: int| 0 <= i < numbers.len() && numbers[i] == x;
            }
        }
        vstd::set_lib::lemma_len_subset(numbers.to_set(), range);
    }
}

} // verus!
