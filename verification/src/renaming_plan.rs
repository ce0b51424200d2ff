//! A request together with the steps that carry it out.

use crate::error::RenameError;
use crate::executor::first_stage;
use crate::executor::rename_files;
use crate::executor::RenameRun;
use crate::mapping::sources;
use crate::mapping::Renames;
use crate::placeholder::never_taken;
use crate::placeholder::reported_unused;
use crate::plan::deferred_steps;
use crate::plan::has_cycle;
use crate::plan::is_deferred_step;
use crate::plan::is_plan_for;
use crate::plan::main_steps;
use crate::plan::placeholders_numbered;
use crate::planner::break_cycles_and_fix_ordering;
use crate::planner::MAX_RENAMES;
use crate::request::RenamingRequest;
use crate::text::join_lines;
use crate::text::Path;
use vstd::prelude::*;
use vstd::string::StringExecFns;

verus! {

/// A compiled request: the steps are a plan for its renames.
#[derive(Debug)]
pub struct RenamingPlan {
    request: RenamingRequest,
    steps: Vec<(String, String)>,
}

/// One line of the rendering of a plan: the two paths of a step with an
/// arrow between them.
pub open spec fn step_line(step: (Path, Path)) -> Seq<char> {
    step.0 + " -> "@ + step.1
}

impl RenamingPlan {
    /// The request that the plan carries out.
    pub closed spec fn requested(&self) -> RenamingRequest {
        self.request
    }

    /// The steps of the plan, in the order of execution.
    pub closed spec fn planned(&self) -> Renames {
        self.steps.deep_view()
    }

    /// The steps are a plan for the renames of the request. This holds of
    /// every plan.
    pub open spec fn wf(&self) -> bool {
        &&& self.requested().wf()
        &&& is_plan_for(self.requested().renames(), self.planned())
    }

    #[verifier::type_invariant]
    spec fn well_formed(self) -> bool {
        &&& self.request.wf()
        &&& is_plan_for(self.request.renames(), self.steps.deep_view())
    }

    /// Compiles the request into a plan, see
    /// [`break_cycles_and_fix_ordering`]. A request without renames gives a
    /// plan without steps, and no other request does.
    pub fn try_new<F: Fn(&String) -> bool>(request: RenamingRequest, is_taken: F) -> (plan: Result<
        Self,
        RenameError,
    >)
        requires
            request.renames().len() <= MAX_RENAMES,
            forall|path: &String| call_requires(is_taken, (path,)),
        ensures
            !has_cycle(request.renames()) || never_taken(is_taken) ==> plan is Ok,
            plan matches Ok(p) ==> {
                &&& p.requested() == request
                &&& p.wf()
                &&& placeholders_numbered(is_taken, request.renames(), p.planned(), 0)
                &&& p.planned().len() == 0 <==> request.renames().len() == 0
                &&& !has_cycle(request.renames()) ==> p.planned().len() == request.renames().len()
                &&& forall|t: int|
                    request.renames().len() <= t < p.planned().len() ==> reported_unused(
                        is_taken,
                        (#[trigger] p.planned()[t]).0,
                    )
            },
            plan matches Err(e) ==> e matches RenameError::NoFreePlaceholder(path) && sources(
                request.renames(),
            ).contains(path@),
    {
        let steps = match break_cycles_and_fix_ordering(request.mapping(), is_taken) {
            Ok(steps) => steps,
            Err(e) => {
                return Err(e);
            },
        };
        proof {
            let renames = request.renames();
            let planned = steps.deep_view();
            if renames.len() == 0 && planned.len() > 0 {
                assert(is_deferred_step(
                    deferred_steps(renames, planned)[0],
                    renames,
                    main_steps(renames, planned),
                ));
            }
        }
        Ok(RenamingPlan { request, steps })
    }

    /// Whether there is nothing to do.
    pub fn is_empty(&self) -> (empty: bool)
        ensures
            empty <==> self.requested().renames().len() == 0,
    {
        self.request.is_empty()
    }

    /// The request that the plan carries out.
    pub fn request(&self) -> (request: &RenamingRequest)
        ensures
            *request == self.requested(),
            request.wf(),
    {
        proof {
            use_type_invariant(self);
        }
        &self.request
    }

    /// The steps of the plan, in the order of execution.
    pub fn steps(&self) -> (steps: &Vec<(String, String)>)
        ensures
            self.wf(),
            steps.deep_view() == self.planned(),
    {
        proof {
            use_type_invariant(self);
        }
        &self.steps
    }

    /// Begins the execution of the plan. The files as they are now are
    /// compared with the listing of the request first, see
    /// [`RenamingRequest::ensure_files_did_not_change`]; where they differ,
    /// no step is begun.
    pub fn execute(&self, current_files: &Vec<String>) -> (run: Result<RenameRun, RenameError>)
        ensures
            run is Ok <==> forall|path: Path|
                self.requested().snapshot().contains(path) <==> current_files.deep_view().contains(
                    path,
                ),
            run matches Ok(r) ==> {
                &&& r.wf()
                &&& r.applied() == 0
                &&& r.stage() == first_stage(r.steps())
                &&& r.steps().len() == self.planned().len()
                &&& forall|i: int|
                    0 <= i < r.steps().len() ==> ((#[trigger] r.steps()[i]).0@, r.steps()[i].1@)
                        == self.planned()[i]
            },
            run matches Err(e) ==> e matches RenameError::FilesChanged(path) && (
            self.requested().snapshot().contains(path@) != current_files.deep_view().contains(
                path@,
            )),
    {
        match self.request.ensure_files_did_not_change(current_files) {
            Ok(()) => {},
            Err(e) => {
                return Err(e);
            },
        }
        Ok(rename_files(&self.steps))
    }

    /// The steps for the user to read: one line `old -> new` for each step,
    /// in the order of execution.
    pub fn human_readable_rename_mapping(&self) -> (text: String)
        ensures
            text@ == join_lines(Seq::new(self.planned().len(), |i: int| step_line(self.planned()[i]))),
    {
        let ghost lines = Seq::new(self.planned().len(), |i: int| step_line(self.planned()[i]));
        let mut text = String::new();
        let mut i: usize = 0;
        while i < self.steps.len()
            invariant
                0 <= i <= self.steps.len(),
                lines == Seq::new(self.planned().len(), |i: int| step_line(self.planned()[i])),
                text@ == join_lines(lines.take(i as int)),
            decreases self.steps.len() - i,
        {
            proof {
                reveal_strlit("\n");
                assert(lines.take(i + 1).drop_last() =~= lines.take(i as int));
                assert(lines.take(i + 1).last() == step_line(self.planned()[i as int]));
                assert(self.planned()[i as int] == (self.steps[i as int].0@, self.steps[i as int].1@));
                assert("\n"@ =~= seq!['\n']);
            }
            if i > 0 {
                text.append("\n");
            }
            text.append(self.steps[i].0.as_str());
            text.append(" -> ");
            text.append(self.steps[i].1.as_str());
            i += 1;
            proof {
                assert(text@ =~= join_lines(lines.take(i as int)));
            }
        }
        proof {
            assert(lines.take(i as int) =~= lines);
        }
        text
    }
}

} // verus!
