//! Navigation for the interactive flow: which steps (service choice,
//! project choice, parameter entry) are on the stack, and where an interrupt
//! during one of them should return to.

use vstd::prelude::*;

verus! {

/// One interactive step of a run.
#[derive(Copy, Clone, PartialEq, Eq, Structural, Debug)]
pub enum FlowStep {
    Service,
    Project,
    Params,
}

/// Where the flow continues after backing out of the current step.
#[derive(Copy, Clone, PartialEq, Eq, Structural, Debug)]
pub enum RouteAction {
    ReturnService,
    ContinueProject,
}

/// The step on top of a stack, if any.
pub open spec fn top_of(s: Seq<FlowStep>) -> Option<FlowStep> {
    if s.len() == 0 {
        None
    } else {
        Some(s.last())
    }
}

/// The stack of interactive steps entered in this run.
pub struct StepTracker {
    pub allow_service: bool,
    pub allow_project: bool,
    pub stack: Vec<FlowStep>,
}

impl StepTracker {
    /// Build a tracker that only includes the steps available in this run;
    /// when service selection is available it is already entered.
    pub fn new(service_step: bool, project_step: bool) -> (r: StepTracker)
        ensures
            r.allow_service == service_step,
            r.allow_project == project_step,
            r.stack@ == if service_step {
                seq![FlowStep::Service]
            } else {
                Seq::<FlowStep>::empty()
            },
    {
        let mut stack: Vec<FlowStep> = Vec::new();
        if service_step {
            stack.push(FlowStep::Service);
            proof {
                assert(stack@ =~= seq![FlowStep::Service]);
            }
        } else {
            proof {
                assert(stack@ =~= Seq::<FlowStep>::empty());
            }
        }
        StepTracker { allow_service: service_step, allow_project: project_step, stack }
    }

    /// Record entry into project selection, when that step exists.
    pub fn enter_project(&mut self)
        ensures
            final(self).allow_service == old(self).allow_service,
            final(self).allow_project == old(self).allow_project,
            final(self).stack@ == if old(self).allow_project && top_of(old(self).stack@) != Some(FlowStep::Project) {
                old(self).stack@.push(FlowStep::Project)
            } else {
                old(self).stack@
            },
    {
        if !self.allow_project {
            return ;
        }
        self.push_step(FlowStep::Project);
    }

    /// Record entry into parameter entry, the final interactive step.
    pub fn enter_params(&mut self)
        ensures
            final(self).allow_service == old(self).allow_service,
            final(self).allow_project == old(self).allow_project,
            final(self).stack@ == if top_of(old(self).stack@) != Some(FlowStep::Params) {
                old(self).stack@.push(FlowStep::Params)
            } else {
                old(self).stack@
            },
    {
        self.push_step(FlowStep::Params);
    }

    /// Pop the current step and say where an interrupt should return:
    /// nothing means the flow is exhausted and the process should exit.
    pub fn back(&mut self) -> (r: Option<RouteAction>)
        ensures
            old(self).stack@.len() == 0 ==> r is None && final(self).stack@ == old(self).stack@,
            old(self).stack@.len() > 0 ==> {
                &&& final(self).stack@ == old(self).stack@.drop_last()
                &&& r == match top_of(final(self).stack@) {
                    Some(FlowStep::Service) => Some(RouteAction::ReturnService),
                    Some(FlowStep::Project) => Some(RouteAction::ContinueProject),
                    _ => None::<RouteAction>,
                }
            },
            final(self).allow_service == old(self).allow_service,
            final(self).allow_project == old(self).allow_project,
    {
        if self.stack.len() == 0 {
            return None;
        }
        let _ = self.stack.pop();
        if self.stack.len() == 0 {
            return None;
        }
        let top = self.stack[self.stack.len() - 1];
        proof {
            assert(top_of(self.stack@) == Some(self.stack@.last()));
        }
        match top {
            FlowStep::Service => Some(RouteAction::ReturnService),
            FlowStep::Project => Some(RouteAction::ContinueProject),
            FlowStep::Params => None,
        }
    }

    /// Push a step unless it already tops the stack or is not allowed.
    fn push_step(&mut self, step: FlowStep)
        ensures
            final(self).allow_service == old(self).allow_service,
            final(self).allow_project == old(self).allow_project,
            final(self).stack@ == if top_of(old(self).stack@) != Some(step) && !(step
                == FlowStep::Service && !old(self).allow_service) {
                old(self).stack@.push(step)
            } else {
                old(self).stack@
            },
    {
        if self.stack.len() > 0 {
            let top = self.stack[self.stack.len() - 1];
            proof {
                assert(top_of(self.stack@) == Some(self.stack@.last()));
            }
            if top == step {
                return ;
            }
        }
        if step == FlowStep::Service && !self.allow_service {
            return ;
        }
        self.stack.push(step);
    }
}

} // verus!
